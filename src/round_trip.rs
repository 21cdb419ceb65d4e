use vstd::prelude::*;
use crate::export::{exported, exported_pairs, file_view, files_view, key_among, value_or_empty, LanguageFile};
use crate::import::{
    base_file_at, distinct_file_codes, distinct_sentences, entry_of, sentence_rows, upsert, upsert_all,
    RowView,
};
use crate::key::lemma_key_uniformity;
use crate::model::{base_of, EntryView};
use crate::text::{base_code, first_at, keys_ascending, lemma_first_at_unique, lookup, pairs_view, text_lt};

verus! {

/// A model that survives export and import: its languages are distinct and
/// include the base language and every code its entries use, no sentence
/// occurs twice, and no translation other than the base text is empty.
pub open spec fn round_trip_ready(es: Seq<EntryView>, langs: Seq<Seq<char>>) -> bool {
    &&& forall|a: int, b: int| 0 <= a < b < langs.len() ==> langs[a] != langs[b]
    &&& langs.contains(base_code())
    &&& forall|j: int, k: int|
        0 <= j < es.len() && 0 <= k < es[j].len() ==> langs.contains(#[trigger] es[j][k].0)
    &&& forall|j: int, k: int|
        0 <= j < es.len() && 0 <= k < es[j].len() && #[trigger] es[j][k].0 != base_code()
            ==> es[j][k].1.len() > 0
    &&& forall|a: int, b: int| 0 <= a < b < es.len() ==> base_of(es[a]) != base_of(es[b])
}

/// The files are those that exporting these entries in these languages gives.
pub open spec fn files_match(files: Seq<LanguageFile>, es: Seq<EntryView>, langs: Seq<Seq<char>>) -> bool {
    &&& files.len() == langs.len()
    &&& forall|l: int| 0 <= l < langs.len() ==> #[trigger] files[l].code@ == langs[l]
    &&& forall|l: int|
        0 <= l < langs.len() ==> pairs_view(#[trigger] files[l].pairs@) == exported_pairs(
            es,
            langs[l],
        )
}

proof fn lemma_lookup_push(s: Seq<(Seq<char>, Seq<char>)>, c: Seq<char>, v: Seq<char>, x: Seq<char>)
    ensures
        lookup(s.push((c, v)), x) == if lookup(s, x) is Some {
            lookup(s, x)
        } else if c == x {
            Some(v)
        } else {
            None
        },
{
    let t = s.push((c, v));
    if exists|i: int| first_at(s, x, i) {
        let i = choose|i: int| first_at(s, x, i);
        assert(first_at(t, x, i));
        let k = choose|k: int| first_at(t, x, k);
        lemma_first_at_unique(t, x, i, k);
    } else if c == x {
        assert forall|i: int| 0 <= i < s.len() implies s[i].0 != x by {
            if s[i].0 == x {
                lemma_first_exists(s, x, i);
            }
        }
        assert(first_at(t, x, s.len() as int));
        let k = choose|k: int| first_at(t, x, k);
        lemma_first_at_unique(t, x, s.len() as int, k);
    } else {
        assert forall|i: int| !first_at(t, x, i) by {
            if first_at(t, x, i) && i < s.len() {
                assert forall|q: int| 0 <= q < i implies s[q].0 != x by {
                    assert(t[q] == s[q]);
                }
                assert(first_at(s, x, i));
            }
        }
    }
}

proof fn lemma_first_exists(s: Seq<(Seq<char>, Seq<char>)>, x: Seq<char>, i: int)
    requires
        0 <= i < s.len(),
        s[i].0 == x,
    ensures
        exists|m: int| first_at(s, x, m),
    decreases i,
{
    if exists|q: int| 0 <= q < i && s[q].0 == x {
        let q = choose|q: int| 0 <= q < i && s[q].0 == x;
        lemma_first_exists(s, x, q);
    } else {
        assert(first_at(s, x, i));
    }
}

/// In an exported file, the key of entry `j` finds entry `j`'s value.
proof fn lemma_key_finds(es: Seq<EntryView>, code: Seq<char>, j: int)
    requires
        0 <= j < es.len(),
    ensures
        lookup(exported_pairs(es, code), key_among(j, es.len() as int)) == Some(
            value_or_empty(es[j], code),
        ),
{
    let p = exported_pairs(es, code);
    let n = es.len() as int;
    let key = key_among(j, n);
    assert forall|q: int| 0 <= q < j implies p[q].0 != key by {
        lemma_key_uniformity(q as nat, j as nat, (n - 1) as nat);
    }
    assert(first_at(p, key, j));
    let k = choose|k: int| first_at(p, key, k);
    lemma_first_at_unique(p, key, j, k);
}

proof fn lemma_entry_of(
    files: Seq<LanguageFile>,
    es: Seq<EntryView>,
    langs: Seq<Seq<char>>,
    j: int,
    k: int,
    x: Seq<char>,
)
    requires
        round_trip_ready(es, langs),
        files_match(files, es, langs),
        0 <= j < es.len(),
        0 <= k <= files.len(),
    ensures
        lookup(entry_of(files.subrange(0, k), key_among(j, es.len() as int)), x) == if x
            != base_code() && langs.subrange(0, k).contains(x) {
            lookup(es[j], x)
        } else {
            None
        },
    decreases k,
{
    let key = key_among(j, es.len() as int);
    let sub = files.subrange(0, k);
    if k == 0 {
        assert(entry_of(sub, key) == Seq::<(Seq<char>, Seq<char>)>::empty());
        assert(!langs.subrange(0, 0).contains(x));
    } else {
        lemma_entry_of(files, es, langs, j, k - 1, x);
        assert(sub.drop_last() == files.subrange(0, k - 1));
        let prev = entry_of(files.subrange(0, k - 1), key);
        let f = files[k - 1];
        let c = langs[k - 1];
        assert(sub.last() == f);
        lemma_key_finds(es, c, j);
        let v = value_or_empty(es[j], c);
        let now = langs.subrange(0, k);
        let before = langs.subrange(0, k - 1);
        assert(now == before.push(c));
        assert(now.contains(x) <==> (before.contains(x) || c == x)) by {
            if now.contains(x) {
                let q = choose|q: int| 0 <= q < now.len() && now[q] == x;
                if q < k - 1 {
                    assert(before[q] == x);
                }
            }
            if before.contains(x) {
                let q = choose|q: int| 0 <= q < before.len() && before[q] == x;
                assert(now[q] == x);
            }
            if c == x {
                assert(now[k - 1] == x);
            }
        }
        if before.contains(c) {
            let q = choose|q: int| 0 <= q < before.len() && before[q] == c;
            assert(langs[q] == c);
        }
        if c != base_code() && lookup(es[j], c) is Some {
            let m = choose|m: int| first_at(es[j], c, m);
            assert(es[j][m].0 != base_code());
            assert(v.len() > 0);
            lemma_lookup_push(prev, c, v, x);
        }
    }
}

proof fn lemma_upsert_all_distinct(rows: Seq<RowView>)
    requires
        distinct_sentences(rows),
    ensures
        upsert_all(rows) == rows,
    decreases rows.len(),
{
    if rows.len() > 0 {
        let init = rows.drop_last();
        assert(distinct_sentences(init));
        lemma_upsert_all_distinct(init);
        assert(!exists|i: int| 0 <= i < init.len() && init[i].0 == rows.last().0);
        assert(init.push(rows.last()) == rows);
    }
}

/// Exporting a model and importing the files gives back each sentence of the
/// model, in the model's order, with exactly the model's translations other
/// than the base language's.
pub proof fn lemma_round_trip(files: Seq<LanguageFile>, es: Seq<EntryView>, langs: Seq<Seq<char>>)
    requires
        round_trip_ready(es, langs),
        files_view(files) == exported(es, langs),
    ensures
        exists|b: int| base_file_at(files, b),
        forall|b: int|
            base_file_at(files, b) ==> {
                let t = upsert_all(sentence_rows(files, b));
                &&& t.len() == es.len()
                &&& forall|j: int| 0 <= j < es.len() ==> #[trigger] t[j].0 == base_of(es[j])
                &&& forall|j: int, x: Seq<char>|
                    0 <= j < es.len() ==> #[trigger] lookup(t[j].1, x) == if x == base_code() {
                        None
                    } else {
                        lookup(es[j], x)
                    }
            },
{
    assert(files_match(files, es, langs)) by {
        assert(files_view(files).len() == files.len());
        assert(exported(es, langs).len() == langs.len());
        assert forall|l: int| 0 <= l < langs.len() implies #[trigger] files[l].code@ == langs[l] by {
            assert(files_view(files)[l] == file_view(files[l]));
        }
        assert forall|l: int| 0 <= l < langs.len() implies pairs_view(#[trigger] files[l].pairs@)
            == exported_pairs(es, langs[l]) by {
            assert(files_view(files)[l] == file_view(files[l]));
        }
    }
    let l0 = choose|l: int| 0 <= l < langs.len() && langs[l] == base_code();
    assert(base_file_at(files, l0));
    assert forall|b: int| base_file_at(files, b) implies ({
        let t = upsert_all(sentence_rows(files, b));
        &&& t.len() == es.len()
        &&& forall|j: int| 0 <= j < es.len() ==> #[trigger] t[j].0 == base_of(es[j])
        &&& forall|j: int, x: Seq<char>|
            0 <= j < es.len() ==> #[trigger] lookup(t[j].1, x) == if x == base_code() {
                None
            } else {
                lookup(es[j], x)
            }
    }) by {
        let rows = sentence_rows(files, b);
        let n = es.len() as int;
        let base = pairs_view(files[b].pairs@);
        assert(base == exported_pairs(es, base_code()));
        assert(rows.len() == base.len());
        assert forall|j: int| 0 <= j < n implies #[trigger] rows[j].0 == base_of(es[j]) by {
            assert(rows[j].0 == base[j].1);
        }
        assert(distinct_sentences(rows)) by {
            assert forall|a: int, c: int| 0 <= a < c < rows.len() implies rows[a].0 != rows[c].0 by {
                assert(rows[a].0 == base_of(es[a]));
                assert(rows[c].0 == base_of(es[c]));
            }
        }
        lemma_upsert_all_distinct(rows);
        assert forall|j: int, x: Seq<char>| 0 <= j < n implies #[trigger] lookup(rows[j].1, x)
            == if x == base_code() {
            None
        } else {
            lookup(es[j], x)
        } by {
            assert(base[j].0 == key_among(j, n));
            lemma_entry_of(files, es, langs, j, files.len() as int, x);
            assert(files.subrange(0, files.len() as int) == files);
            assert(langs.subrange(0, langs.len() as int) == langs);
            if x != base_code() && !langs.contains(x) && lookup(es[j], x) is Some {
                let m = choose|m: int| first_at(es[j], x, m);
                assert(langs.contains(es[j][m].0));
            }
        }
    }
}

/// A translation that a sentence lacks in the model is still absent after
/// export and import: the empty sentinel is not read back as a translation.
pub proof fn lemma_absent_stays_absent(
    files: Seq<LanguageFile>,
    es: Seq<EntryView>,
    langs: Seq<Seq<char>>,
    b: int,
    j: int,
    x: Seq<char>,
)
    requires
        round_trip_ready(es, langs),
        files_view(files) == exported(es, langs),
        base_file_at(files, b),
        0 <= j < es.len(),
        lookup(es[j], x) is None,
    ensures
        upsert_all(sentence_rows(files, b)).len() == es.len(),
        lookup(upsert_all(sentence_rows(files, b))[j].1, x) is None,
{
    lemma_round_trip(files, es, langs);
    let t = upsert_all(sentence_rows(files, b));
    assert(lookup(t[j].1, x) == if x == base_code() {
        None
    } else {
        lookup(es[j], x)
    });
}

/// Row `j` is the last of its sentence.
pub open spec fn last_of_sentence(rows: Seq<RowView>, j: int) -> bool {
    &&& 0 <= j < rows.len()
    &&& forall|j2: int| j < j2 < rows.len() ==> rows[j2].0 != rows[j].0
}

proof fn lemma_last_extend(rows: Seq<RowView>, j: int)
    requires
        rows.len() > 0,
        last_of_sentence(rows.drop_last(), j),
        rows.last().0 != rows[j].0,
    ensures
        last_of_sentence(rows, j),
{
    assert forall|j2: int| j < j2 < rows.len() implies rows[j2].0 != rows[j].0 by {
        if j2 < rows.len() - 1 {
            assert(rows.drop_last()[j2] == rows[j2]);
        }
    }
}

/// Adding rows one by one leaves no sentence twice, and each row left is the
/// last one given for its sentence.
#[verifier::rlimit(60)]
pub proof fn lemma_upsert_all_last(rows: Seq<RowView>)
    ensures
        distinct_sentences(upsert_all(rows)),
        forall|i: int|
            0 <= i < upsert_all(rows).len() ==> exists|j: int|
                last_of_sentence(rows, j) && #[trigger] upsert_all(rows)[i] == rows[j],
    decreases rows.len(),
{
    if rows.len() > 0 {
        let n = rows.len() as int;
        let init = rows.drop_last();
        let last = rows.last();
        lemma_upsert_all_last(init);
        let r0 = upsert_all(init);
        let res = upsert_all(rows);
        assert(res == upsert(r0, last));
        if exists|c: int| 0 <= c < r0.len() && r0[c].0 == last.0 {
            let c = choose|c: int| 0 <= c < r0.len() && r0[c].0 == last.0;
            assert(res == r0.update(c, last));
            assert forall|i: int| 0 <= i < res.len() implies exists|j: int|
                last_of_sentence(rows, j) && #[trigger] res[i] == rows[j] by {
                if i == c {
                    assert(last_of_sentence(rows, n - 1));
                    assert(res[i] == rows[n - 1]);
                } else {
                    let j = choose|j: int| last_of_sentence(init, j) && #[trigger] r0[i] == init[j];
                    assert(rows[j] == init[j]);
                    assert(r0[i].0 != r0[c].0);
                    assert(res[i] == r0[i]);
                    lemma_last_extend(rows, j);
                }
            }
        } else {
            assert(res == r0.push(last));
            assert forall|i: int| 0 <= i < res.len() implies exists|j: int|
                last_of_sentence(rows, j) && #[trigger] res[i] == rows[j] by {
                if i == r0.len() {
                    assert(last_of_sentence(rows, n - 1));
                } else {
                    let j = choose|j: int| last_of_sentence(init, j) && #[trigger] r0[i] == init[j];
                    assert(rows[j] == init[j]);
                    assert(res[i] == r0[i]);
                    assert(r0[i].0 != last.0);
                    lemma_last_extend(rows, j);
                }
            }
        }
    }
}

/// After import no sentence has two rows, and each row is the one of its
/// sentence's greatest key in a base file whose keys ascend.
#[verifier::rlimit(60)]
pub proof fn lemma_greatest_key_wins(files: Seq<LanguageFile>, b: int)
    requires
        base_file_at(files, b),
        keys_ascending(pairs_view(files[b].pairs@)),
    ensures
        distinct_sentences(upsert_all(sentence_rows(files, b))),
        forall|i: int|
            0 <= i < upsert_all(sentence_rows(files, b)).len() ==> exists|j: int|
                0 <= j < files[b].pairs@.len() && #[trigger] upsert_all(sentence_rows(files, b))[i]
                    == (pairs_view(files[b].pairs@)[j].1, entry_of(
                    files,
                    pairs_view(files[b].pairs@)[j].0,
                )) && forall|j2: int|
                    0 <= j2 < files[b].pairs@.len() && j2 != j && pairs_view(files[b].pairs@)[j2].1
                        == pairs_view(files[b].pairs@)[j].1 ==> text_lt(
                        pairs_view(files[b].pairs@)[j2].0,
                        pairs_view(files[b].pairs@)[j].0,
                    ),
{
    let rows = sentence_rows(files, b);
    let base = pairs_view(files[b].pairs@);
    let res = upsert_all(rows);
    lemma_upsert_all_last(rows);
    assert forall|i: int| 0 <= i < res.len() implies exists|j: int|
        0 <= j < files[b].pairs@.len() && #[trigger] res[i] == (base[j].1, entry_of(files, base[j].0))
            && forall|j2: int|
            0 <= j2 < files[b].pairs@.len() && j2 != j && base[j2].1 == base[j].1 ==> text_lt(
                base[j2].0,
                base[j].0,
            ) by {
        let j = choose|j: int| last_of_sentence(rows, j) && #[trigger] res[i] == rows[j];
        assert forall|j2: int|
            0 <= j2 < files[b].pairs@.len() && j2 != j && base[j2].1 == base[j].1 implies text_lt(
            base[j2].0,
            base[j].0,
        ) by {
            assert(rows[j2].0 == base[j2].1);
            assert(rows[j].0 == base[j].1);
        }
    }
}

/// What the other files give for a key holds only non-empty texts, each from a
/// file of its language.
proof fn lemma_entry_of_some(files: Seq<LanguageFile>, key: Seq<char>, x: Seq<char>)
    requires
        lookup(entry_of(files, key), x) is Some,
    ensures
        exists|f: int|
            0 <= f < files.len() && files[f].code@ == x && x != base_code() && lookup(
                pairs_view(files[f].pairs@),
                key,
            ) == lookup(entry_of(files, key), x) && lookup(entry_of(files, key), x)->0.len() > 0,
    decreases files.len(),
{
    if files.len() == 0 {
        assert(!exists|i: int| first_at(entry_of(files, key), x, i));
    } else {
        let init = files.drop_last();
        let prev = entry_of(init, key);
        let f = files.last();
        let v = lookup(pairs_view(f.pairs@), key);
        if f.code@ != base_code() && v is Some && v->0.len() > 0 {
            lemma_lookup_push(prev, f.code@, v->0, x);
            if lookup(prev, x) is Some {
                lemma_entry_of_some(init, key, x);
                let g = choose|g: int|
                    0 <= g < init.len() && init[g].code@ == x && x != base_code() && lookup(
                        pairs_view(init[g].pairs@),
                        key,
                    ) == lookup(prev, x) && lookup(prev, x)->0.len() > 0;
                assert(files[g] == init[g]);
            } else {
                assert(files[files.len() - 1] == f);
            }
        } else {
            lemma_entry_of_some(init, key, x);
            let g = choose|g: int|
                0 <= g < init.len() && init[g].code@ == x && x != base_code() && lookup(
                    pairs_view(init[g].pairs@),
                    key,
                ) == lookup(prev, x) && lookup(prev, x)->0.len() > 0;
            assert(files[g] == init[g]);
        }
    }
}

/// After import, a sentence has a translation in a language only where that
/// language's file holds a non-empty text under the sentence's key: an empty
/// or missing text is left out, never kept as an empty translation.
pub proof fn lemma_import_omits_empty(files: Seq<LanguageFile>, b: int, i: int, f: int)
    requires
        base_file_at(files, b),
        distinct_file_codes(files),
        0 <= i < upsert_all(sentence_rows(files, b)).len(),
        0 <= f < files.len(),
    ensures
        forall|j: int|
            0 <= j < files[b].pairs@.len() && upsert_all(sentence_rows(files, b))[i] == #[trigger]
                sentence_rows(files, b)[j] ==> (lookup(upsert_all(sentence_rows(files, b))[i].1, files[f].code@)
                is Some <==> (files[f].code@ != base_code() && lookup(
                pairs_view(files[f].pairs@),
                pairs_view(files[b].pairs@)[j].0,
            ) is Some && lookup(pairs_view(files[f].pairs@), pairs_view(files[b].pairs@)[j].0)->0.len()
                > 0)),
{
    let rows = sentence_rows(files, b);
    let res = upsert_all(rows);
    let x = files[f].code@;
    assert forall|j: int|
        0 <= j < files[b].pairs@.len() && res[i] == #[trigger] rows[j] implies (lookup(res[i].1, x)
        is Some <==> (x != base_code() && lookup(pairs_view(files[f].pairs@), pairs_view(
        files[b].pairs@,
    )[j].0) is Some && lookup(pairs_view(files[f].pairs@), pairs_view(files[b].pairs@)[j].0)->0.len()
        > 0)) by {
        let key = pairs_view(files[b].pairs@)[j].0;
        assert(res[i].1 == entry_of(files, key));
        if lookup(res[i].1, x) is Some {
            lemma_entry_of_some(files, key, x);
            let g = choose|g: int|
                0 <= g < files.len() && files[g].code@ == x && x != base_code() && lookup(
                    pairs_view(files[g].pairs@),
                    key,
                ) == lookup(entry_of(files, key), x) && lookup(entry_of(files, key), x)->0.len() > 0;
            if g != f {
                if g < f {
                } else {
                }
            }
        }
        if x != base_code() && lookup(pairs_view(files[f].pairs@), key) is Some && lookup(
            pairs_view(files[f].pairs@),
            key,
        )->0.len() > 0 {
            lemma_entry_of_present(files, key, f);
        }
    }
}

/// A file of a language other than the base one that has a non-empty text
/// under the key makes the entry hold that language.
proof fn lemma_entry_of_present(files: Seq<LanguageFile>, key: Seq<char>, f: int)
    requires
        0 <= f < files.len(),
        files[f].code@ != base_code(),
        lookup(pairs_view(files[f].pairs@), key) is Some,
        lookup(pairs_view(files[f].pairs@), key)->0.len() > 0,
    ensures
        lookup(entry_of(files, key), files[f].code@) is Some,
    decreases files.len(),
{
    let init = files.drop_last();
    let prev = entry_of(init, key);
    let l = files.last();
    let v = lookup(pairs_view(l.pairs@), key);
    let x = files[f].code@;
    if f < files.len() - 1 {
        assert(init[f] == files[f]);
        lemma_entry_of_present(init, key, f);
        if l.code@ != base_code() && v is Some && v->0.len() > 0 {
            lemma_lookup_push(prev, l.code@, v->0, x);
        }
    } else {
        lemma_lookup_push(prev, l.code@, v->0, x);
    }
}

} // verus!
