use vstd::prelude::*;
use crate::text::{
    base_code, find_code, lemma_lt_irreflexive, lemma_lt_total, lemma_lt_trans, lookup,
    pairs_view, same_text, text_less, text_lt,
};

verus! {

/// A canonical translation file as read: its `Languages` section (code and
/// display name) and its `Translations` section (each source sentence with its
/// translations by language code), in the order the reader met them.
pub struct TranslationFile {
    pub languages: Vec<(String, String)>,
    pub translations: Vec<(String, Vec<(String, String)>)>,
}

/// The loaded model: every language code in use, and one entry per sentence
/// (language code to text), ordered by base-language text.
pub struct CanonicalModel {
    pub languages: Vec<String>,
    pub entries: Vec<Vec<(String, String)>>,
}

/// One entry as texts.
pub type EntryView = Seq<(Seq<char>, Seq<char>)>;

/// The base-language text of an entry (empty where it has none).
pub open spec fn base_of(e: EntryView) -> Seq<char> {
    match lookup(e, base_code()) {
        Some(t) => t,
        None => Seq::empty(),
    }
}

/// An entry of the source file with its base-language text filled in from the
/// source sentence where it is missing.
pub open spec fn completed(sentence: Seq<char>, tr: EntryView) -> EntryView {
    if lookup(tr, base_code()) is Some {
        tr
    } else {
        tr.push((base_code(), sentence))
    }
}

/// The entries of a source file, completed, in the order they were read.
pub open spec fn loaded_entries(tf: TranslationFile) -> Seq<EntryView> {
    Seq::new(
        tf.translations@.len(),
        |j: int| completed(tf.translations@[j].0@, pairs_view(tf.translations@[j].1@)),
    )
}

pub open spec fn entries_view(es: Seq<Vec<(String, String)>>) -> Seq<EntryView> {
    es.map_values(|e: Vec<(String, String)>| pairs_view(e@))
}

pub open spec fn sorted_by_base(es: Seq<EntryView>) -> bool {
    forall|i: int, j: int| 0 <= i < j < es.len() ==> !text_lt(base_of(es[j]), base_of(es[i]))
}

/// `output` is `input` reordered by `p` (output position to input position),
/// and entries with equal base-language text keep their input order.
pub open spec fn stable_perm(input: Seq<EntryView>, output: Seq<EntryView>, p: Seq<int>) -> bool {
    &&& p.len() == output.len() == input.len()
    &&& forall|k: int| 0 <= k < p.len() ==> 0 <= #[trigger] p[k] < input.len()
    &&& forall|k: int| 0 <= k < p.len() ==> output[k] == input[#[trigger] p[k]]
    &&& forall|k1: int, k2: int| 0 <= k1 < k2 < p.len() ==> p[k1] != p[k2]
    &&& forall|k1: int, k2: int|
        0 <= k1 < k2 < p.len() && base_of(output[k1]) == base_of(output[k2]) ==> p[k1] < p[k2]
}

/// `output` is `input` stably sorted by base-language text.
pub open spec fn stably_sorted(input: Seq<EntryView>, output: Seq<EntryView>) -> bool {
    &&& sorted_by_base(output)
    &&& exists|p: Seq<int>| stable_perm(input, output, p)
}

/// A code that some entry of the source file uses.
pub open spec fn used_code(tf: TranslationFile, c: Seq<char>) -> bool {
    exists|j: int, l: int|
        0 <= j < tf.translations@.len() && 0 <= l < tf.translations@[j].1@.len()
            && tf.translations@[j].1@[l].0@ == c
}

/// `langs` holds the code `c`.
pub open spec fn holds_code(langs: Seq<String>, c: Seq<char>) -> bool {
    exists|i: int| 0 <= i < langs.len() && langs[i]@ == c
}

/// The code is listed in the `Languages` section of the source file.
pub open spec fn listed_code(tf: TranslationFile, c: Seq<char>) -> bool {
    exists|i: int| 0 <= i < tf.languages@.len() && tf.languages@[i].0@ == c
}

/// A loaded model: entries ordered by base-language text, and each language
/// code listed once, the base language among them.
pub open spec fn model_wf(m: CanonicalModel) -> bool {
    &&& sorted_by_base(entries_view(m.entries@))
    &&& forall|i: int, j: int| 0 <= i < j < m.languages@.len() ==> m.languages@[i]@ != m.languages@[j]@
    &&& holds_code(m.languages@, base_code())
}

/// What loading a source file gives.
pub open spec fn consumed(tf: TranslationFile, m: CanonicalModel) -> bool {
    &&& stably_sorted(loaded_entries(tf), entries_view(m.entries@))
    &&& forall|i: int, j: int| 0 <= i < j < m.languages@.len() ==> m.languages@[i]@ != m.languages@[j]@
    &&& forall|c: Seq<char>|
        #[trigger] holds_code(m.languages@, c) <==> (c == base_code() || listed_code(tf, c)
            || used_code(tf, c))
}

/// Entries with the same base-language text keep the order in which they
/// were read.
pub proof fn lemma_stable_tie_break(tf: TranslationFile, m: CanonicalModel, a: int, b: int)
    requires
        consumed(tf, m),
        0 <= a < b < tf.translations@.len(),
        base_of(loaded_entries(tf)[a]) == base_of(loaded_entries(tf)[b]),
    ensures
        exists|p: Seq<int>| stable_perm(loaded_entries(tf), entries_view(m.entries@), p),
        forall|p: Seq<int>, ka: int, kb: int|
            stable_perm(loaded_entries(tf), entries_view(m.entries@), p) && 0 <= ka < p.len() && 0
                <= kb < p.len() && p[ka] == a && p[kb] == b ==> ka < kb,
{
    let input = loaded_entries(tf);
    let output = entries_view(m.entries@);
    assert forall|p: Seq<int>, ka: int, kb: int|
        stable_perm(input, output, p) && 0 <= ka < p.len() && 0 <= kb < p.len() && p[ka] == a
            && p[kb] == b implies ka < kb by {
        if kb < ka {
            assert(output[kb] == input[b]);
            assert(output[ka] == input[a]);
        }
    }
}

/// Adds `c` to `langs` unless it is already there.
fn add_code(langs: &mut Vec<String>, c: &String)
    requires
        forall|i: int, j: int| 0 <= i < j < old(langs)@.len() ==> old(langs)@[i]@ != old(langs)@[j]@,
    ensures
        forall|i: int, j: int| 0 <= i < j < final(langs)@.len() ==> final(langs)@[i]@ != final(langs)@[j]@,
        forall|x: Seq<char>|
            #[trigger] holds_code(final(langs)@, x) <==> (x == c@ || holds_code(old(langs)@, x)),
{
    let ghost pre = langs@;
    let mut i: usize = 0;
    while i < langs.len()
        invariant
            i <= langs@.len(),
            langs@ == pre,
            pre == old(langs)@,
            forall|a: int, b: int| 0 <= a < b < pre.len() ==> pre[a]@ != pre[b]@,
            forall|k: int| 0 <= k < i ==> langs@[k]@ != c@,
        decreases langs@.len() - i,
    {
        if same_text(langs[i].as_str(), c.as_str()) {
            assert(holds_code(langs@, c@));
            return;
        }
        i = i + 1;
    }
    let d = c.clone();
    assert(d@ == c@);
    langs.push(d);
    assert(langs@ == pre.push(d));
    assert forall|x: Seq<char>|
        #[trigger] holds_code(langs@, x) <==> (x == c@ || holds_code(pre, x)) by {
        if holds_code(langs@, x) {
            let k = choose|k: int| 0 <= k < langs@.len() && langs@[k]@ == x;
            if k < pre.len() {
                assert(pre[k]@ == x);
            }
        }
        if x == c@ {
            assert(langs@[pre.len() as int]@ == x);
        } else if holds_code(pre, x) {
            let k = choose|k: int| 0 <= k < pre.len() && pre[k]@ == x;
            assert(langs@[k]@ == x);
        }
    }
}

/// The base-language text of an entry, or the empty text where it has none.
pub fn base_text(e: &Vec<(String, String)>) -> (r: String)
    ensures
        r@ == base_of(pairs_view(e@)),
{
    match find_code(e, "en") {
        Some(i) => e[i].1.clone(),
        None => String::new(),
    }
}

proof fn lemma_le_chain(x: Seq<char>, a: Seq<char>, b: Seq<char>)
    requires
        !text_lt(x, a),
        !text_lt(a, b),
    ensures
        !text_lt(x, b),
{
    if text_lt(x, b) {
        lemma_lt_total(a, b);
        if a != b {
            lemma_lt_trans(x, b, a);
        }
    }
}

proof fn lemma_lt_asym(a: Seq<char>, b: Seq<char>)
    requires
        text_lt(a, b),
    ensures
        !text_lt(b, a),
        a != b,
{
    lemma_lt_irreflexive(a);
    if text_lt(b, a) {
        lemma_lt_trans(a, b, a);
    }
}

/// Sorts entries by base-language text; entries with equal base-language text
/// keep their order.
pub fn sort_by_base(entries: Vec<Vec<(String, String)>>) -> (r: Vec<Vec<(String, String)>>)
    ensures
        stably_sorted(entries_view(entries@), entries_view(r@)),
{
    let ghost input = entries_view(entries@);
    let n = entries.len();
    let mut src = entries;
    let mut out: Vec<Vec<(String, String)>> = Vec::new();
    let ghost mut p: Seq<int> = Seq::empty();
    let mut i: usize = 0;
    while i < n
        invariant
            n == input.len(),
            i <= n,
            src@.len() == n - i,
            forall|k: int| 0 <= k < n - i ==> pairs_view(#[trigger] src@[k]@) == input[i + k],
            out@.len() == i,
            sorted_by_base(entries_view(out@)),
            stable_perm(input.subrange(0, i as int), entries_view(out@), p),
        decreases n - i,
    {
        let x = src.remove(0);
        let xb = base_text(&x);
        let ghost xv = pairs_view(x@);
        assert(xv == input[i as int]);
        let ghost ov = entries_view(out@);
        let mut pos = out.len();
        while pos > 0 && text_less(xb.as_str(), base_text(&out[pos - 1]).as_str())
            invariant
                pos <= out@.len(),
                out@.len() == i,
                ov == entries_view(out@),
                xb@ == base_of(xv),
                forall|k: int| pos <= k < out@.len() ==> text_lt(xb@, base_of(#[trigger] ov[k])),
            decreases pos,
        {
            pos = pos - 1;
        }
        proof {
            assert forall|k: int| 0 <= k < pos implies !text_lt(xb@, base_of(#[trigger] ov[k])) by {
                assert(sorted_by_base(ov));
                if k < pos - 1 {
                    lemma_le_chain(xb@, base_of(ov[pos - 1]), base_of(ov[k]));
                }
            }
        }
        let ghost old_p = p;
        out.insert(pos, x);
        proof {
            p = old_p.insert(pos as int, i as int);
            let nv = entries_view(out@);
            assert(nv == ov.insert(pos as int, xv));
            let inp = input.subrange(0, i + 1);
            assert forall|k1: int, k2: int| 0 <= k1 < k2 < nv.len() implies !text_lt(
                base_of(nv[k2]),
                base_of(nv[k1]),
            ) by {
                if k1 == pos {
                    lemma_lt_asym(xb@, base_of(ov[k2 - 1]));
                } else if k2 == pos {
                } else if k1 < pos && k2 > pos {
                    assert(nv[k2] == ov[k2 - 1]);
                    assert(nv[k1] == ov[k1]);
                    assert(sorted_by_base(ov));
                } else if k2 < pos {
                } else {
                    assert(nv[k2] == ov[k2 - 1]);
                    assert(nv[k1] == ov[k1 - 1]);
                }
            }
            assert forall|k: int| 0 <= k < p.len() implies 0 <= #[trigger] p[k] < inp.len() by {
                if k > pos {
                    assert(p[k] == old_p[k - 1]);
                } else if k < pos {
                    assert(p[k] == old_p[k]);
                }
            }
            assert forall|k: int| 0 <= k < p.len() implies nv[k] == inp[#[trigger] p[k]] by {
                if k > pos {
                    assert(p[k] == old_p[k - 1]);
                    assert(nv[k] == ov[k - 1]);
                } else if k < pos {
                    assert(p[k] == old_p[k]);
                }
            }
            assert forall|k1: int, k2: int| 0 <= k1 < k2 < p.len() implies p[k1] != p[k2] by {
                if k1 > pos {
                    assert(p[k1] == old_p[k1 - 1]);
                }
                if k2 > pos {
                    assert(p[k2] == old_p[k2 - 1]);
                }
                if k1 < pos {
                    assert(p[k1] == old_p[k1]);
                }
                if k2 < pos {
                    assert(p[k2] == old_p[k2]);
                }
            }
            assert forall|k1: int, k2: int|
                0 <= k1 < k2 < p.len() && base_of(nv[k1]) == base_of(nv[k2]) implies p[k1]
                < p[k2] by {
                if k1 == pos {
                    lemma_lt_asym(xb@, base_of(ov[k2 - 1]));
                } else if k2 == pos {
                    assert(p[k1] == old_p[k1]);
                } else {
                    if k1 > pos {
                        assert(p[k1] == old_p[k1 - 1]);
                    } else {
                        assert(p[k1] == old_p[k1]);
                    }
                    if k2 > pos {
                        assert(p[k2] == old_p[k2 - 1]);
                    } else {
                        assert(p[k2] == old_p[k2]);
                    }
                }
            }
            assert forall|k: int| 0 <= k < n - (i + 1) implies pairs_view(#[trigger] src@[k]@)
                == input[i + 1 + k] by {
            }
        }
        i = i + 1;
    }
    assert(input.subrange(0, n as int) == input);
    out
}

/// Some entry before `(j, l)` of `ts` (entries in order, codes in order) uses `c`.
pub open spec fn used_before(
    ts: Seq<(String, Vec<(String, String)>)>,
    c: Seq<char>,
    j: int,
    l: int,
) -> bool {
    exists|j2: int, l2: int|
        0 <= j2 <= j && j2 < ts.len() && 0 <= l2 < ts[j2].1@.len() && (j2 < j || l2 < l)
            && #[trigger] ts[j2].1@[l2].0@ == c
}

impl TranslationFile {
    /// Loads the model: each entry gets its base-language text (the source
    /// sentence where none is given), the entries are stably sorted by it, and
    /// the languages are the base language, those listed and those used.
    pub fn consume(self) -> (r: CanonicalModel)
        ensures
            consumed(self, r),
            model_wf(r),
    {
        let ghost tf = self;
        let TranslationFile { languages, translations } = self;
        let mut langs: Vec<String> = Vec::new();
        langs.push(String::from_str("en"));
        proof {
            assert forall|c: Seq<char>| #[trigger] holds_code(langs@, c) <==> c == base_code() by {
                if c == base_code() {
                    assert(langs@[0]@ == c);
                }
            }
        }
        let mut i: usize = 0;
        while i < languages.len()
            invariant
                languages@ == tf.languages@,
                i <= languages@.len(),
                forall|a: int, b: int| 0 <= a < b < langs@.len() ==> langs@[a]@ != langs@[b]@,
                forall|c: Seq<char>| #[trigger]
                    holds_code(langs@, c) <==> (c == base_code() || exists|k: int|
                        0 <= k < i && languages@[k].0@ == c),
            decreases languages@.len() - i,
        {
            add_code(&mut langs, &languages[i].0);
            proof {
                assert forall|c: Seq<char>| #[trigger]
                    holds_code(langs@, c) <==> (c == base_code() || exists|k: int|
                        0 <= k < i + 1 && languages@[k].0@ == c) by {
                    if c == languages@[i as int].0@ {
                    } else if exists|k: int| 0 <= k < i + 1 && languages@[k].0@ == c {
                        let k = choose|k: int| 0 <= k < i + 1 && languages@[k].0@ == c;
                        assert(k < i);
                    }
                }
            }
            i = i + 1;
        }
        let ghost ts = translations@;
        let mut j: usize = 0;
        while j < translations.len()
            invariant
                translations@ == ts,
                ts == tf.translations@,
                j <= ts.len(),
                forall|a: int, b: int| 0 <= a < b < langs@.len() ==> langs@[a]@ != langs@[b]@,
                forall|c: Seq<char>| #[trigger]
                    holds_code(langs@, c) <==> (c == base_code() || listed_code(tf, c)
                        || used_before(ts, c, j as int, 0)),
            decreases ts.len() - j,
        {
            let tr = &translations[j].1;
            let mut l: usize = 0;
            while l < tr.len()
                invariant
                    translations@ == ts,
                    ts == tf.translations@,
                    j < ts.len(),
                    tr@ == ts[j as int].1@,
                    l <= tr@.len(),
                    forall|a: int, b: int| 0 <= a < b < langs@.len() ==> langs@[a]@ != langs@[b]@,
                    forall|c: Seq<char>| #[trigger]
                        holds_code(langs@, c) <==> (c == base_code() || listed_code(tf, c)
                            || used_before(ts, c, j as int, l as int)),
                decreases tr@.len() - l,
            {
                add_code(&mut langs, &tr[l].0);
                proof {
                    assert forall|c: Seq<char>| #[trigger]
                        holds_code(langs@, c) <==> (c == base_code() || listed_code(tf, c)
                            || used_before(ts, c, j as int, l + 1)) by {
                        if c == tr@[l as int].0@ {
                            assert(ts[j as int].1@[l as int].0@ == c);
                        }
                        if used_before(ts, c, j as int, l + 1) && c != tr@[l as int].0@ {
                            let (j2, l2) = choose|j2: int, l2: int|
                                0 <= j2 <= j && j2 < ts.len() && 0 <= l2 < ts[j2].1@.len() && (j2
                                    < j || l2 < l + 1) && #[trigger] ts[j2].1@[l2].0@ == c;
                            assert(used_before(ts, c, j as int, l as int));
                        }
                    }
                }
                l = l + 1;
            }
            proof {
                assert forall|c: Seq<char>|
                    used_before(ts, c, j as int, l as int) <==> used_before(
                        ts,
                        c,
                        j + 1,
                        0,
                    ) by {
                    if used_before(ts, c, j + 1, 0) {
                        let (j2, l2) = choose|j2: int, l2: int|
                            0 <= j2 <= j + 1 && j2 < ts.len() && 0 <= l2 < ts[j2].1@.len() && (j2
                                < j + 1 || l2 < 0) && #[trigger] ts[j2].1@[l2].0@ == c;
                        assert(used_before(ts, c, j as int, l as int));
                    }
                }
            }
            j = j + 1;
        }
        proof {
            assert forall|c: Seq<char>| used_before(ts, c, ts.len() as int, 0) <==> used_code(tf, c) by {
                if used_code(tf, c) {
                    let (j2, l2) = choose|j2: int, l2: int|
                        0 <= j2 < tf.translations@.len() && 0 <= l2 < tf.translations@[j2].1@.len()
                            && tf.translations@[j2].1@[l2].0@ == c;
                    assert(ts[j2].1@[l2].0@ == c);
                }
            }
        }
        let n = translations.len();
        let mut src = translations;
        let mut entries: Vec<Vec<(String, String)>> = Vec::new();
        let mut k: usize = 0;
        while k < n
            invariant
                n == ts.len(),
                ts == tf.translations@,
                k <= n,
                src@ == ts.subrange(k as int, n as int),
                entries@.len() == k,
                forall|e: int| 0 <= e < k ==> pairs_view(#[trigger] entries@[e]@) == loaded_entries(
                    tf,
                )[e],
            decreases n - k,
        {
            let (sentence, mut tr) = src.remove(0);
            assert((sentence, tr) == ts[k as int]);
            let ghost before = tr@;
            if find_code(&tr, "en").is_none() {
                tr.push((String::from_str("en"), sentence));
                assert(pairs_view(tr@) == pairs_view(before).push((base_code(), ts[k as int].0@)));
            }
            let ghost prev = entries@;
            entries.push(tr);
            proof {
                assert forall|e: int| 0 <= e < k + 1 implies pairs_view(#[trigger] entries@[e]@)
                    == loaded_entries(tf)[e] by {
                    if e < k {
                        assert(entries@[e] == prev[e]);
                    }
                }
                assert(src@ == ts.subrange(k + 1, n as int));
            }
            k = k + 1;
        }
        assert(entries_view(entries@) == loaded_entries(tf));
        let sorted = sort_by_base(entries);
        CanonicalModel { languages: langs, entries: sorted }
    }
}

} // verus!


