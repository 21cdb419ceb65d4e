use vstd::prelude::*;

verus! {

/// Lexicographic order on texts, comparing characters by code point.
pub open spec fn text_lt(a: Seq<char>, b: Seq<char>) -> bool
    decreases a.len(),
{
    if a.len() == 0 {
        b.len() > 0
    } else if b.len() == 0 {
        false
    } else if a[0] != b[0] {
        (a[0] as int) < (b[0] as int)
    } else {
        text_lt(a.drop_first(), b.drop_first())
    }
}

/// The language every sentence is identified by.
pub open spec fn base_code() -> Seq<char> {
    "en"@
}

/// A list of text pairs as its texts.
pub open spec fn pairs_view(s: Seq<(String, String)>) -> Seq<(Seq<char>, Seq<char>)> {
    s.map_values(|p: (String, String)| (p.0@, p.1@))
}

/// Index `i` holds the first pair of `s` whose first component is `code`.
pub open spec fn first_at(s: Seq<(Seq<char>, Seq<char>)>, code: Seq<char>, i: int) -> bool {
    &&& 0 <= i < s.len()
    &&& s[i].0 == code
    &&& forall|j: int| 0 <= j < i ==> s[j].0 != code
}

/// What a list of pairs, read as a map, gives for `code` (the first match wins).
pub open spec fn lookup(s: Seq<(Seq<char>, Seq<char>)>, code: Seq<char>) -> Option<Seq<char>> {
    if exists|i: int| first_at(s, code, i) {
        Some(s[choose|i: int| first_at(s, code, i)].1)
    } else {
        None
    }
}

/// No code occurs twice.
pub open spec fn distinct_codes(s: Seq<(Seq<char>, Seq<char>)>) -> bool {
    forall|i: int, j: int| 0 <= i < j < s.len() ==> s[i].0 != s[j].0
}

/// Keys strictly ascending in code point order.
pub open spec fn keys_ascending(s: Seq<(Seq<char>, Seq<char>)>) -> bool {
    forall|i: int, j: int| 0 <= i < j < s.len() ==> text_lt(s[i].0, s[j].0)
}

pub proof fn lemma_first_at_unique(s: Seq<(Seq<char>, Seq<char>)>, code: Seq<char>, i: int, j: int)
    requires
        first_at(s, code, i),
        first_at(s, code, j),
    ensures
        i == j,
{
}

/// Whether two texts are equal, character by character.
pub fn same_text(a: &str, b: &str) -> (r: bool)
    ensures
        r == (a@ == b@),
{
    let n = a.unicode_len();
    let m = b.unicode_len();
    if n != m {
        return false;
    }
    let mut i: usize = 0;
    while i < n
        invariant
            n == a@.len(),
            m == b@.len(),
            n == m,
            i <= n,
            a@.subrange(0, i as int) == b@.subrange(0, i as int),
        decreases n - i,
    {
        let ca = a.get_char(i);
        let cb = b.get_char(i);
        if ca != cb {
            return false;
        }
        assert(a@.subrange(0, i + 1) == a@.subrange(0, i as int).push(ca));
        assert(b@.subrange(0, i + 1) == b@.subrange(0, i as int).push(cb));
        i = i + 1;
    }
    assert(a@ == a@.subrange(0, n as int));
    assert(b@ == b@.subrange(0, n as int));
    true
}

/// Position of the first pair whose first component is `code`, if any.
pub fn find_code(s: &Vec<(String, String)>, code: &str) -> (r: Option<usize>)
    ensures
        r matches Some(i) ==> first_at(pairs_view(s@), code@, i as int),
        r is None ==> forall|j: int| 0 <= j < s@.len() ==> s@[j].0@ != code@,
        r is None <==> lookup(pairs_view(s@), code@) is None,
        r matches Some(i) ==> lookup(pairs_view(s@), code@) == Some(s@[i as int].1@),
{
    let mut i: usize = 0;
    while i < s.len()
        invariant
            i <= s@.len(),
            forall|j: int| 0 <= j < i ==> s@[j].0@ != code@,
            forall|j: int| 0 <= j < i ==> pairs_view(s@)[j].0 != code@,
        decreases s@.len() - i,
    {
        if same_text(s[i].0.as_str(), code) {
            proof {
                let v = pairs_view(s@);
                assert(first_at(v, code@, i as int));
                let k = choose|k: int| first_at(v, code@, k);
                lemma_first_at_unique(v, code@, k, i as int);
            }
            return Some(i);
        }
        i = i + 1;
    }
    proof {
        let v = pairs_view(s@);
        assert forall|k: int| !first_at(v, code@, k) by {
            if 0 <= k < v.len() {
                assert(v[k].0 == s@[k].0@);
            }
        }
    }
    None
}

/// Whether `a` comes before `b` in code point order.
pub fn text_less(a: &str, b: &str) -> (r: bool)
    ensures
        r == text_lt(a@, b@),
{
    let n = a.unicode_len();
    let m = b.unicode_len();
    let mut i: usize = 0;
    assert(a@.skip(0) == a@);
    assert(b@.skip(0) == b@);
    while i < n && i < m
        invariant
            n == a@.len(),
            m == b@.len(),
            i <= n,
            i <= m,
            text_lt(a@, b@) == text_lt(a@.skip(i as int), b@.skip(i as int)),
        decreases n - i,
    {
        let ca = a.get_char(i);
        let cb = b.get_char(i);
        assert(a@.skip(i as int)[0] == ca);
        assert(b@.skip(i as int)[0] == cb);
        if ca != cb {
            return (ca as u32) < (cb as u32);
        }
        assert(a@.skip(i as int).drop_first() == a@.skip(i + 1));
        assert(b@.skip(i as int).drop_first() == b@.skip(i + 1));
        i = i + 1;
    }
    i < m
}

pub proof fn lemma_lt_irreflexive(a: Seq<char>)
    ensures
        !text_lt(a, a),
    decreases a.len(),
{
    if a.len() > 0 {
        lemma_lt_irreflexive(a.drop_first());
    }
}

pub proof fn lemma_lt_trans(a: Seq<char>, b: Seq<char>, c: Seq<char>)
    requires
        text_lt(a, b),
        text_lt(b, c),
    ensures
        text_lt(a, c),
    decreases a.len(),
{
    if a.len() > 0 && b.len() > 0 && c.len() > 0 && a[0] == b[0] && b[0] == c[0] {
        lemma_lt_trans(a.drop_first(), b.drop_first(), c.drop_first());
    }
}

/// Any two texts are equal or one comes before the other.
pub proof fn lemma_lt_total(a: Seq<char>, b: Seq<char>)
    ensures
        a == b || text_lt(a, b) || text_lt(b, a),
    decreases a.len(),
{
    if a.len() > 0 && b.len() > 0 && a[0] == b[0] {
        lemma_lt_total(a.drop_first(), b.drop_first());
        if a.drop_first() == b.drop_first() {
            assert(a == seq![a[0]] + a.drop_first());
            assert(b == seq![b[0]] + b.drop_first());
        }
    } else if a.len() == 0 && b.len() == 0 {
        assert(a == b);
    } else if a.len() > 0 && b.len() > 0 {
        assert((a[0] as int) != (b[0] as int));
    }
}

} // verus!
