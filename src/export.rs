use vstd::prelude::*;
use crate::key::{key_of, key_text};
use crate::model::{entries_view, CanonicalModel, EntryView, TranslationFile, consumed};
use crate::text::{find_code, lookup, pairs_view};

verus! {

/// One flat per-language file: sparse key and text, one pair per sentence.
pub struct LanguageFile {
    pub code: String,
    pub pairs: Vec<(String, String)>,
}

/// The text an entry has for `code`, or the empty sentinel.
pub open spec fn value_or_empty(e: EntryView, code: Seq<char>) -> Seq<char> {
    match lookup(e, code) {
        Some(t) => t,
        None => Seq::empty(),
    }
}

/// The key of entry `i` among `n` entries.
pub open spec fn key_among(i: int, n: int) -> Seq<char> {
    key_text(i as nat, (n - 1) as nat)
}

/// The flat file of `code` for the given entries.
pub open spec fn exported_pairs(entries: Seq<EntryView>, code: Seq<char>) -> Seq<(Seq<char>, Seq<char>)> {
    Seq::new(
        entries.len(),
        |i: int| (key_among(i, entries.len() as int), value_or_empty(entries[i], code)),
    )
}

pub open spec fn file_view(f: LanguageFile) -> (Seq<char>, Seq<(Seq<char>, Seq<char>)>) {
    (f.code@, pairs_view(f.pairs@))
}

pub open spec fn files_view(fs: Seq<LanguageFile>) -> Seq<(Seq<char>, Seq<(Seq<char>, Seq<char>)>)> {
    fs.map_values(|f: LanguageFile| file_view(f))
}

pub open spec fn codes_view(ls: Seq<String>) -> Seq<Seq<char>> {
    ls.map_values(|l: String| l@)
}

/// The files that exporting these entries in these languages gives, one per
/// language in order.
pub open spec fn exported(entries: Seq<EntryView>, langs: Seq<Seq<char>>) -> Seq<
    (Seq<char>, Seq<(Seq<char>, Seq<char>)>),
> {
    Seq::new(langs.len(), |l: int| (langs[l], exported_pairs(entries, langs[l])))
}

/// Exporting the same model twice gives the same files.
pub proof fn lemma_export_deterministic(m1: CanonicalModel, m2: CanonicalModel)
    requires
        entries_view(m1.entries@) == entries_view(m2.entries@),
        codes_view(m1.languages@) == codes_view(m2.languages@),
    ensures
        exported(entries_view(m1.entries@), codes_view(m1.languages@)) == exported(
            entries_view(m2.entries@),
            codes_view(m2.languages@),
        ),
{
}

/// A translation an entry lacks is exported as the empty sentinel.
pub proof fn lemma_absent_is_empty(entries: Seq<EntryView>, code: Seq<char>, i: int)
    requires
        0 <= i < entries.len(),
        lookup(entries[i], code) is None,
    ensures
        exported_pairs(entries, code)[i].1 == Seq::<char>::empty(),
{
}

/// The flat file of one language: entry `i` gets the key of `i` among all
/// entries and its text in that language, or the empty sentinel.
pub fn language_file(model: &CanonicalModel, code: &String) -> (r: LanguageFile)
    ensures
        file_view(r) == (code@, exported_pairs(entries_view(model.entries@), code@)),
{
    let ghost es = entries_view(model.entries@);
    let n = model.entries.len();
    let max_index: usize = if n == 0 { 0 } else { n - 1 };
    let mut pairs: Vec<(String, String)> = Vec::new();
    let mut i: usize = 0;
    while i < n
        invariant
            n == es.len(),
            es == entries_view(model.entries@),
            n > 0 ==> max_index == n - 1,
            i <= n,
            pairs_view(pairs@) == exported_pairs(es, code@).subrange(0, i as int),
        decreases n - i,
    {
        let e = &model.entries[i];
        assert(pairs_view(e@) == es[i as int]);
        let value = match find_code(e, code.as_str()) {
            Some(at) => e[at].1.clone(),
            None => String::new(),
        };
        let key = key_of(i, max_index);
        let ghost prev = pairs@;
        pairs.push((key, value));
        assert(pairs_view(pairs@) == pairs_view(prev).push((key@, value@)));
        assert(exported_pairs(es, code@).subrange(0, i + 1) == exported_pairs(es, code@).subrange(
            0,
            i as int,
        ).push(exported_pairs(es, code@)[i as int]));
        i = i + 1;
    }
    assert(exported_pairs(es, code@).subrange(0, n as int) == exported_pairs(es, code@));
    LanguageFile { code: code.clone(), pairs }
}

/// One flat file per language of the model, in the model's language order.
pub fn export(model: &CanonicalModel) -> (r: Vec<LanguageFile>)
    ensures
        files_view(r@) == exported(entries_view(model.entries@), codes_view(model.languages@)),
{
    let ghost target = exported(entries_view(model.entries@), codes_view(model.languages@));
    let mut files: Vec<LanguageFile> = Vec::new();
    let mut l: usize = 0;
    while l < model.languages.len()
        invariant
            l <= model.languages@.len(),
            target == exported(entries_view(model.entries@), codes_view(model.languages@)),
            files_view(files@) == target.subrange(0, l as int),
        decreases model.languages@.len() - l,
    {
        let f = language_file(model, &model.languages[l]);
        let ghost prev = files@;
        files.push(f);
        assert(files_view(files@) == files_view(prev).push(file_view(f)));
        assert(target.subrange(0, l + 1) == target.subrange(0, l as int).push(target[l as int]));
        l = l + 1;
    }
    assert(target.subrange(0, l as int) == target);
    files
}

/// Loads a source file and exports its model.
pub fn nhm_translations_to_crowdin(tf: TranslationFile) -> (r: Vec<LanguageFile>)
    ensures
        exists|m: CanonicalModel|
            consumed(tf, m) && files_view(r@) == exported(
                entries_view(m.entries@),
                codes_view(m.languages@),
            ),
{
    let m = tf.consume();
    export(&m)
}

} // verus!
