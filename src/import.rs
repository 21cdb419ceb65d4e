use vstd::prelude::*;
use crate::export::LanguageFile;
use crate::languages::{display_name, to_language};
use crate::model::EntryView;
use crate::text::{base_code, find_code, lookup, pairs_view, same_text};

verus! {

/// Why a set of per-language files could not be turned back into a
/// canonical file.
#[derive(Debug, Clone, Copy, PartialEq, Eq, Structural)]
pub enum ImportError {
    /// No file of the base language is among them.
    MissingBaseLanguage,
    /// The file at this position is not a JSON object of texts.
    MalformedFile(usize),
}

/// A canonical file to be written: display name by language code, and each
/// base-language sentence with its other translations by language code.
pub struct CanonicalFile {
    pub languages: Vec<(String, String)>,
    pub translations: Vec<(String, Vec<(String, String)>)>,
}

/// A sentence with its translations, as texts.
pub type RowView = (Seq<char>, EntryView);

pub open spec fn rows_view(t: Seq<(String, Vec<(String, String)>)>) -> Seq<RowView> {
    t.map_values(|r: (String, Vec<(String, String)>)| (r.0@, pairs_view(r.1@)))
}

/// No sentence occurs twice.
pub open spec fn distinct_sentences(rs: Seq<RowView>) -> bool {
    forall|i: int, j: int| 0 <= i < j < rs.len() ==> rs[i].0 != rs[j].0
}

/// No two files are of the same language.
pub open spec fn distinct_file_codes(files: Seq<LanguageFile>) -> bool {
    forall|i: int, j: int| 0 <= i < j < files.len() ==> files[i].code@ != files[j].code@
}

/// File `b` is the first of the base language.
pub open spec fn base_file_at(files: Seq<LanguageFile>, b: int) -> bool {
    &&& 0 <= b < files.len()
    &&& files[b].code@ == base_code()
    &&& forall|k: int| 0 <= k < b ==> files[k].code@ != base_code()
}

/// The translations that the files other than the base language's give for
/// `key`: one per such file that has a non-empty text under it, in file order.
pub open spec fn entry_of(files: Seq<LanguageFile>, key: Seq<char>) -> EntryView
    decreases files.len(),
{
    if files.len() == 0 {
        Seq::empty()
    } else {
        let prev = entry_of(files.drop_last(), key);
        let f = files.last();
        let v = lookup(pairs_view(f.pairs@), key);
        if f.code@ != base_code() && v is Some && v->0.len() > 0 {
            prev.push((f.code@, v->0))
        } else {
            prev
        }
    }
}

/// Adds a row, replacing the row of the same sentence where there is one.
pub open spec fn upsert(acc: Seq<RowView>, row: RowView) -> Seq<RowView> {
    if exists|i: int| 0 <= i < acc.len() && acc[i].0 == row.0 {
        acc.update(choose|i: int| 0 <= i < acc.len() && acc[i].0 == row.0, row)
    } else {
        acc.push(row)
    }
}

/// The rows added in order, a later row of a sentence replacing an earlier one.
pub open spec fn upsert_all(rows: Seq<RowView>) -> Seq<RowView>
    decreases rows.len(),
{
    if rows.len() == 0 {
        Seq::empty()
    } else {
        upsert(upsert_all(rows.drop_last()), rows.last())
    }
}

/// One row per key of base file `b`: its sentence, with what the other files
/// give for that key.
pub open spec fn sentence_rows(files: Seq<LanguageFile>, b: int) -> Seq<RowView> {
    Seq::new(
        files[b].pairs@.len(),
        |j: int|
            (
                pairs_view(files[b].pairs@)[j].1,
                entry_of(files, pairs_view(files[b].pairs@)[j].0),
            ),
    )
}

/// Each file's language code with its display name.
pub open spec fn imported_languages(files: Seq<LanguageFile>) -> Seq<(Seq<char>, Seq<char>)> {
    Seq::new(files.len(), |k: int| (files[k].code@, display_name(files[k].code@)))
}

/// What the other files give for one key of the base file.
fn entry_for(files: &Vec<LanguageFile>, key: &str) -> (r: Vec<(String, String)>)
    ensures
        pairs_view(r@) == entry_of(files@, key@),
{
    let mut tr: Vec<(String, String)> = Vec::new();
    let mut k: usize = 0;
    while k < files.len()
        invariant
            k <= files@.len(),
            pairs_view(tr@) == entry_of(files@.subrange(0, k as int), key@),
        decreases files@.len() - k,
    {
        let f = &files[k];
        let ghost sub = files@.subrange(0, k + 1);
        assert(sub.drop_last() == files@.subrange(0, k as int));
        assert(sub.last() == *f);
        let ghost prev = tr@;
        if !same_text(f.code.as_str(), "en") {
            match find_code(&f.pairs, key) {
                Some(i) => {
                    if f.pairs[i].1.as_str().unicode_len() > 0 {
                        tr.push((f.code.clone(), f.pairs[i].1.clone()));
                        assert(pairs_view(tr@) == pairs_view(prev).push(
                            (f.code@, f.pairs@[i as int].1@),
                        ));
                    }
                },
                None => {},
            }
        }
        k = k + 1;
    }
    assert(files@.subrange(0, k as int) == files@);
    tr
}

/// Adds a sentence with its translations, replacing the row of that sentence
/// where there is one.
fn upsert_row(out: &mut Vec<(String, Vec<(String, String)>)>, s: String, tr: Vec<(String, String)>)
    requires
        distinct_sentences(rows_view(old(out)@)),
    ensures
        rows_view(final(out)@) == upsert(rows_view(old(out)@), (s@, pairs_view(tr@))),
        distinct_sentences(rows_view(final(out)@)),
{
    let ghost pre = rows_view(out@);
    let ghost row = (s@, pairs_view(tr@));
    let mut i: usize = 0;
    while i < out.len()
        invariant
            i <= out@.len(),
            rows_view(out@) == pre,
            pre == rows_view(old(out)@),
            row == (s@, pairs_view(tr@)),
            distinct_sentences(pre),
            forall|k: int| 0 <= k < i ==> pre[k].0 != s@,
        decreases out@.len() - i,
    {
        if same_text(out[i].0.as_str(), s.as_str()) {
            assert(pre[i as int].0 == s@);
            assert(row.0 == s@);
            assert(0 <= i < pre.len() && pre[i as int].0 == row.0);
            let ghost c = choose|c: int| 0 <= c < pre.len() && pre[c].0 == row.0;
            assert(c == i) by {
                if c != i {
                    assert(pre[c].0 == pre[i as int].0);
                }
            }
            let _ = out.remove(i);
            out.insert(i, (s, tr));
            assert(rows_view(out@) == pre.update(i as int, row));
            assert forall|a: int, b: int|
                0 <= a < b < rows_view(out@).len() implies rows_view(out@)[a].0 != rows_view(
                out@,
            )[b].0 by {
                if a != i && b != i {
                    assert(rows_view(out@)[a] == pre[a]);
                    assert(rows_view(out@)[b] == pre[b]);
                } else if a == i {
                    assert(rows_view(out@)[b] == pre[b]);
                } else {
                    assert(rows_view(out@)[a] == pre[a]);
                }
            }
            return;
        }
        i = i + 1;
    }
    out.push((s, tr));
    assert(rows_view(out@) == pre.push(row));
    assert forall|a: int, b: int|
        0 <= a < b < rows_view(out@).len() implies rows_view(out@)[a].0 != rows_view(out@)[b].0 by {
        if b < pre.len() {
            assert(rows_view(out@)[a] == pre[a]);
            assert(rows_view(out@)[b] == pre[b]);
        } else {
            assert(rows_view(out@)[a] == pre[a]);
        }
    }
}

/// Turns the per-language files, one per language, back into a canonical
/// file. The base language's file gives the sentences, one per key (a later
/// key replaces an earlier one of the same sentence); the other files give each sentence's
/// non-empty translations under the same key; every file's language is listed
/// with its display name.
pub fn crowdin_to_nhm_translations(files: &Vec<LanguageFile>) -> (r: Result<CanonicalFile, ImportError>)
    requires
        distinct_file_codes(files@),
    ensures
        (forall|k: int| 0 <= k < files@.len() ==> files@[k].code@ != base_code()) <==> r
            == Err::<CanonicalFile, ImportError>(ImportError::MissingBaseLanguage),
        r is Ok <==> exists|b: int| base_file_at(files@, b),
        r matches Ok(c) ==> pairs_view(c.languages@) == imported_languages(files@),
        r matches Ok(c) ==> forall|b: int|
            base_file_at(files@, b) ==> rows_view(c.translations@) == upsert_all(
                sentence_rows(files@, b),
            ),
{
    let mut b: usize = 0;
    while b < files.len() && !same_text(files[b].code.as_str(), "en")
        invariant
            b <= files@.len(),
            forall|k: int| 0 <= k < b ==> files@[k].code@ != base_code(),
        decreases files@.len() - b,
    {
        b = b + 1;
    }
    if b == files.len() {
        proof {
            assert forall|x: int| !base_file_at(files@, x) by {}
        }
        return Err(ImportError::MissingBaseLanguage);
    }
    assert(base_file_at(files@, b as int));
    let mut languages: Vec<(String, String)> = Vec::new();
    let mut k: usize = 0;
    while k < files.len()
        invariant
            k <= files@.len(),
            pairs_view(languages@) == imported_languages(files@).subrange(0, k as int),
        decreases files@.len() - k,
    {
        let ghost prev = languages@;
        languages.push((files[k].code.clone(), to_language(files[k].code.as_str())));
        assert(pairs_view(languages@) == pairs_view(prev).push(imported_languages(files@)[k as int]));
        assert(imported_languages(files@).subrange(0, k + 1) == imported_languages(files@).subrange(
            0,
            k as int,
        ).push(imported_languages(files@)[k as int]));
        k = k + 1;
    }
    assert(imported_languages(files@).subrange(0, k as int) == imported_languages(files@));
    let base = &files[b].pairs;
    let ghost rows = sentence_rows(files@, b as int);
    let mut out: Vec<(String, Vec<(String, String)>)> = Vec::new();
    let mut j: usize = 0;
    assert(rows.subrange(0, 0) == Seq::<RowView>::empty());
    while j < base.len()
        invariant
            base_file_at(files@, b as int),
            base@ == files@[b as int].pairs@,
            rows == sentence_rows(files@, b as int),
            j <= base@.len(),
            rows_view(out@) == upsert_all(rows.subrange(0, j as int)),
            distinct_sentences(rows_view(out@)),
        decreases base@.len() - j,
    {
        let tr = entry_for(files, base[j].0.as_str());
        let s = base[j].1.clone();
        assert((s@, pairs_view(tr@)) == rows[j as int]);
        assert(rows.subrange(0, j + 1).drop_last() == rows.subrange(0, j as int));
        upsert_row(&mut out, s, tr);
        j = j + 1;
    }
    assert(rows.subrange(0, j as int) == rows);
    proof {
        assert forall|x: int| base_file_at(files@, x) implies x == b by {
            if x < b {
            } else if x > b {
            }
        }
    }
    Ok(CanonicalFile { languages, translations: out })
}

} // verus!
