use vstd::prelude::*;
use crate::export::{exported, file_view, files_view, LanguageFile};
use crate::import::ImportError;
use crate::model::EntryView;
use crate::text::{distinct_codes, keys_ascending, pairs_view};

verus! {

#[verifier::external_type_specification]
#[verifier::external_body]
pub struct ExJsonError(serde_json::Error);

/// The pretty-printed JSON object of a flat file's key/text pairs.
pub uninterp spec fn flat_json_text(pairs: Seq<(Seq<char>, Seq<char>)>) -> Seq<char>;

/// The key/text pairs that a JSON object of texts holds, or nothing where the
/// text is not such an object.
pub uninterp spec fn flat_json_parse(text: Seq<char>) -> Option<Seq<(Seq<char>, Seq<char>)>>;

/// Relies on serde_json::to_string_pretty of a BTreeMap<String, String>: the
/// text depends on the pairs alone, and with string keys written into memory
/// it does not fail.
#[verifier::external_body]
fn flat_to_json(pairs: &Vec<(String, String)>) -> (r: Result<String, serde_json::Error>)
    ensures
        r is Ok,
        r matches Ok(t) ==> t@ == flat_json_text(pairs_view(pairs@)),
{
    let map: std::collections::BTreeMap<&String, &String> = pairs.iter().map(|p| (&p.0, &p.1)).collect();
    serde_json::to_string_pretty(&map)
}

/// Relies on serde_json::from_str into a BTreeMap<String, String>: the result
/// depends on the text alone, and a map's keys come out distinct and in
/// ascending order (byte order of a `String`, which is code point order).
#[verifier::external_body]
fn flat_from_json(text: &str) -> (r: Result<Vec<(String, String)>, serde_json::Error>)
    ensures
        r matches Ok(v) ==> flat_json_parse(text@) == Some(pairs_view(v@)),
        r matches Ok(v) ==> distinct_codes(pairs_view(v@)),
        r matches Ok(v) ==> keys_ascending(pairs_view(v@)),
        r is Err ==> flat_json_parse(text@) is None,
{
    serde_json::from_str::<std::collections::BTreeMap<String, String>>(text).map(
        |m| m.into_iter().collect(),
    )
}

/// The text of a per-language file: its pairs as a pretty-printed JSON
/// object.
pub fn render_language_file(f: &LanguageFile) -> (r: String)
    ensures
        r@ == flat_json_text(pairs_view(f.pairs@)),
{
    match flat_to_json(&f.pairs) {
        Ok(t) => t,
        Err(_) => String::new(),
    }
}

/// Reads per-language files from their language codes and texts; the first
/// text that is not a JSON object of texts fails the whole read.
pub fn read_language_files(inputs: &Vec<(String, String)>) -> (r: Result<Vec<LanguageFile>, ImportError>)
    ensures
        r matches Err(e) ==> exists|i: int|
            0 <= i < inputs@.len() && e == ImportError::MalformedFile(i as usize) && flat_json_parse(
                inputs@[i].1@,
            ) is None && forall|k: int| 0 <= k < i ==> flat_json_parse(inputs@[k].1@) is Some,
        r is Ok <==> forall|k: int| 0 <= k < inputs@.len() ==> flat_json_parse(inputs@[k].1@) is Some,
        r matches Ok(v) ==> v@.len() == inputs@.len() && forall|k: int|
            0 <= k < inputs@.len() ==> v@[k].code@ == inputs@[k].0@ && Some(pairs_view(v@[k].pairs@))
                == flat_json_parse(inputs@[k].1@) && distinct_codes(pairs_view(v@[k].pairs@))
                && keys_ascending(pairs_view(v@[k].pairs@)),
{
    let mut files: Vec<LanguageFile> = Vec::new();
    let mut i: usize = 0;
    while i < inputs.len()
        invariant
            i <= inputs@.len(),
            files@.len() == i,
            forall|k: int|
                0 <= k < i ==> files@[k].code@ == inputs@[k].0@ && Some(pairs_view(files@[k].pairs@))
                    == flat_json_parse(inputs@[k].1@) && distinct_codes(pairs_view(files@[k].pairs@))
                    && keys_ascending(pairs_view(files@[k].pairs@)),
        decreases inputs@.len() - i,
    {
        match flat_from_json(inputs[i].1.as_str()) {
            Ok(pairs) => {
                files.push(LanguageFile { code: inputs[i].0.clone(), pairs });
            },
            Err(_) => {
                return Err(ImportError::MalformedFile(i));
            },
        }
        i = i + 1;
    }
    Ok(files)
}

/// Exporting the same entries in the same languages gives the same file
/// texts, byte for byte.
pub proof fn lemma_export_text_deterministic(
    f1: Seq<LanguageFile>,
    f2: Seq<LanguageFile>,
    es: Seq<EntryView>,
    langs: Seq<Seq<char>>,
)
    requires
        files_view(f1) == exported(es, langs),
        files_view(f2) == exported(es, langs),
    ensures
        f1.len() == f2.len(),
        forall|l: int| #![trigger f1[l]] 0 <= l < f1.len() ==> f1[l].code@ == f2[l].code@,
        forall|l: int|
            #![trigger f1[l]]
            0 <= l < f1.len() ==> flat_json_text(pairs_view(f1[l].pairs@)) == flat_json_text(
                pairs_view(f2[l].pairs@),
            ),
{
    assert(f1.len() == files_view(f1).len());
    assert(f2.len() == files_view(f2).len());
    assert forall|l: int| #![trigger f1[l]] 0 <= l < f1.len() implies f1[l].code@ == f2[l].code@
        && pairs_view(f1[l].pairs@) == pairs_view(f2[l].pairs@) by {
        assert(files_view(f1)[l] == file_view(f1[l]));
        assert(files_view(f2)[l] == file_view(f2[l]));
    }
}

} // verus!
