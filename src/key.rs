use vstd::prelude::*;
use crate::text::text_lt;

verus! {

/// Why a sparse key could not be made or read.
#[derive(Debug, Clone, Copy, PartialEq, Eq, Structural)]
pub enum KeyError {
    /// The index lies above the largest valid index.
    IndexOutOfRange,
    /// The text is not `k_` followed by one or more decimal digits.
    Format,
}

pub open spec fn digit_char(d: int) -> char {
    if d == 0 {
        '0'
    } else if d == 1 {
        '1'
    } else if d == 2 {
        '2'
    } else if d == 3 {
        '3'
    } else if d == 4 {
        '4'
    } else if d == 5 {
        '5'
    } else if d == 6 {
        '6'
    } else if d == 7 {
        '7'
    } else if d == 8 {
        '8'
    } else {
        '9'
    }
}

pub open spec fn is_digit(c: char) -> bool {
    48 <= (c as u32) <= 57
}

pub open spec fn pow10(w: nat) -> nat
    decreases w,
{
    if w == 0 {
        1
    } else {
        10 * pow10((w - 1) as nat)
    }
}

/// Number of decimal digits of `m` (at least one).
pub open spec fn num_digits(m: nat) -> nat
    decreases m,
{
    if m < 10 {
        1
    } else {
        1 + num_digits(m / 10)
    }
}

/// The last `w` decimal digits of `n`, padded on the left with zeros.
pub open spec fn padded(n: nat, w: nat) -> Seq<char>
    decreases w,
{
    if w == 0 {
        Seq::empty()
    } else {
        padded(n / 10, (w - 1) as nat).push(digit_char((n % 10) as int))
    }
}

/// The sparse key of `index` in an export whose largest index is `max_index`.
pub open spec fn key_text(index: nat, max_index: nat) -> Seq<char> {
    seq!['k', '_'] + padded(index, num_digits(max_index))
}

/// The number that a run of decimal digits spells.
pub open spec fn digits_value(s: Seq<char>) -> nat
    decreases s.len(),
{
    if s.len() == 0 {
        0
    } else {
        digits_value(s.drop_last()) * 10 + ((s.last() as u32) - 48) as nat
    }
}

/// `k_` followed by at least one decimal digit.
pub open spec fn key_shape(s: Seq<char>) -> bool {
    &&& s.len() >= 3
    &&& s[0] == 'k'
    &&& s[1] == '_'
    &&& forall|i: int| 2 <= i < s.len() ==> is_digit(#[trigger] s[i])
}

/// The index that a well-shaped key spells.
pub open spec fn key_index(s: Seq<char>) -> nat {
    digits_value(s.subrange(2, s.len() as int))
}

proof fn lemma_digit_char(d: int)
    requires
        0 <= d < 10,
    ensures
        is_digit(digit_char(d)),
        (digit_char(d) as u32) - 48 == d,
        digit_char(d) as u32 == 48 + d,
{
}

proof fn lemma_padded(n: nat, w: nat)
    requires
        n < pow10(w),
    ensures
        padded(n, w).len() == w,
        forall|i: int| 0 <= i < w ==> is_digit(#[trigger] padded(n, w)[i]),
        digits_value(padded(n, w)) == n,
    decreases w,
{
    if w > 0 {
        let q = n / 10;
        assert(q < pow10((w - 1) as nat)) by (nonlinear_arith)
            requires
                n < 10 * pow10((w - 1) as nat),
                q == n / 10,
        ;
        lemma_padded(q, (w - 1) as nat);
        lemma_digit_char((n % 10) as int);
        let s = padded(n, w);
        assert(s.drop_last() == padded(q, (w - 1) as nat));
        assert forall|i: int| 0 <= i < w implies is_digit(#[trigger] s[i]) by {
            if i < w - 1 {
                assert(s[i] == padded(q, (w - 1) as nat)[i]);
            }
        }
        assert(q * 10 + n % 10 == n) by (nonlinear_arith)
            requires
                q == n / 10,
        ;
    }
}

proof fn lemma_below_pow10(n: nat, m: nat)
    requires
        n <= m,
    ensures
        n < pow10(num_digits(m)),
    decreases m,
{
    if m >= 10 {
        lemma_below_pow10(n / 10, m / 10);
        let p = pow10(num_digits(m / 10));
        assert(n < 10 * p) by (nonlinear_arith)
            requires
                n / 10 < p,
        ;
    } else {
        assert(pow10(1) == 10) by {
            reveal_with_fuel(pow10, 2);
        }
    }
}

proof fn lemma_lt_push(a: Seq<char>, b: Seq<char>, x: char, y: char)
    requires
        a.len() == b.len(),
    ensures
        text_lt(a.push(x), b.push(y)) <==> (text_lt(a, b) || (a == b && (x as u32) < (y as u32))),
    decreases a.len(),
{
    if a.len() > 0 {
        assert(a.push(x).drop_first() == a.drop_first().push(x));
        assert(b.push(y).drop_first() == b.drop_first().push(y));
        lemma_lt_push(a.drop_first(), b.drop_first(), x, y);
        assert(a.push(x)[0] == a[0]);
        assert(b.push(y)[0] == b[0]);
        if a[0] == b[0] && a.drop_first() == b.drop_first() {
            assert(a == b) by {
                assert(a == seq![a[0]] + a.drop_first());
                assert(b == seq![b[0]] + b.drop_first());
            }
        }
    } else {
        assert(a == b);
        assert(a.push(x).drop_first() =~= Seq::<char>::empty());
        assert(b.push(y).drop_first() =~= Seq::<char>::empty());
        reveal_with_fuel(text_lt, 2);
    }
}

proof fn lemma_lt_prefix(p: Seq<char>, a: Seq<char>, b: Seq<char>)
    ensures
        text_lt(p + a, p + b) == text_lt(a, b),
    decreases p.len(),
{
    if p.len() > 0 {
        assert((p + a).drop_first() == p.drop_first() + a);
        assert((p + b).drop_first() == p.drop_first() + b);
        lemma_lt_prefix(p.drop_first(), a, b);
    } else {
        assert(p + a == a);
        assert(p + b == b);
    }
}

proof fn lemma_padded_order(n1: nat, n2: nat, w: nat)
    requires
        n1 < pow10(w),
        n2 < pow10(w),
    ensures
        n1 < n2 <==> text_lt(padded(n1, w), padded(n2, w)),
    decreases w,
{
    if w > 0 {
        let (q1, q2) = (n1 / 10, n2 / 10);
        let p = pow10((w - 1) as nat);
        assert(q1 < p && q2 < p) by (nonlinear_arith)
            requires
                n1 < 10 * p,
                n2 < 10 * p,
                q1 == n1 / 10,
                q2 == n2 / 10,
        ;
        lemma_padded_order(q1, q2, (w - 1) as nat);
        lemma_padded(q1, (w - 1) as nat);
        lemma_padded(q2, (w - 1) as nat);
        lemma_digit_char((n1 % 10) as int);
        lemma_digit_char((n2 % 10) as int);
        lemma_lt_push(
            padded(q1, (w - 1) as nat),
            padded(q2, (w - 1) as nat),
            digit_char((n1 % 10) as int),
            digit_char((n2 % 10) as int),
        );
        assert(n1 < n2 <==> (q1 < q2 || (q1 == q2 && n1 % 10 < n2 % 10))) by (nonlinear_arith)
            requires
                q1 == n1 / 10,
                q2 == n2 / 10,
        ;
    } else {
        assert(pow10(0) == 1);
    }
}

/// Every key of one export is well shaped and spells back its own index.
pub proof fn lemma_key_round_trip(index: nat, max_index: nat)
    requires
        index <= max_index,
    ensures
        key_shape(key_text(index, max_index)),
        key_index(key_text(index, max_index)) == index,
        key_text(index, max_index).len() == 2 + num_digits(max_index),
{
    let w = num_digits(max_index);
    lemma_below_pow10(index, max_index);
    lemma_padded(index, w);
    let k = key_text(index, max_index);
    assert(k.subrange(2, k.len() as int) == padded(index, w));
    assert forall|i: int| 2 <= i < k.len() implies is_digit(#[trigger] k[i]) by {
        assert(k[i] == padded(index, w)[i - 2]);
    }
}

/// All keys of one export have the same length, and comparing them as text
/// orders them as their indices.
pub proof fn lemma_key_uniformity(i: nat, j: nat, max_index: nat)
    requires
        i <= max_index,
        j <= max_index,
    ensures
        key_text(i, max_index).len() == key_text(j, max_index).len(),
        i < j <==> text_lt(key_text(i, max_index), key_text(j, max_index)),
        i == j <==> key_text(i, max_index) == key_text(j, max_index),
{
    lemma_key_round_trip(i, max_index);
    lemma_key_round_trip(j, max_index);
    let w = num_digits(max_index);
    lemma_below_pow10(i, max_index);
    lemma_below_pow10(j, max_index);
    lemma_padded_order(i, j, w);
    lemma_lt_prefix(seq!['k', '_'], padded(i, w), padded(j, w));
}

fn digit_str(d: usize) -> (r: &'static str)
    requires
        d < 10,
    ensures
        r@ == seq![digit_char(d as int)],
{
    proof {
        reveal_strlit("0");
        reveal_strlit("1");
        reveal_strlit("2");
        reveal_strlit("3");
        reveal_strlit("4");
        reveal_strlit("5");
        reveal_strlit("6");
        reveal_strlit("7");
        reveal_strlit("8");
        reveal_strlit("9");
    }
    match d {
        0 => "0",
        1 => "1",
        2 => "2",
        3 => "3",
        4 => "4",
        5 => "5",
        6 => "6",
        7 => "7",
        8 => "8",
        _ => "9",
    }
}

fn padded_string(n: usize, w: usize) -> (r: String)
    ensures
        r@ == padded(n as nat, w as nat),
    decreases w,
{
    if w == 0 {
        String::new()
    } else {
        let mut s = padded_string(n / 10, w - 1);
        s.append(digit_str(n % 10));
        s
    }
}

/// Number of decimal digits of `m`.
pub fn digit_count(m: usize) -> (r: usize)
    ensures
        r == num_digits(m as nat),
        1 <= r <= m + 1,
    decreases m,
{
    if m < 10 {
        1
    } else {
        1 + digit_count(m / 10)
    }
}

/// The sparse key of `index` for an export whose largest index is `max_index`.
pub fn key_of(index: usize, max_index: usize) -> (r: String)
    requires
        index <= max_index,
    ensures
        r@ == key_text(index as nat, max_index as nat),
{
    let mut k = String::new();
    k.append("k_");
    let digits = padded_string(index, digit_count(max_index));
    k.append(digits.as_str());
    proof {
        reveal_strlit("k_");
    }
    k
}

/// The sparse key `k_<index>` with the index padded by zeros to the width of
/// `max_index`.
pub fn encode(index: usize, max_index: usize) -> (r: Result<String, KeyError>)
    ensures
        index > max_index ==> r == Err::<String, KeyError>(KeyError::IndexOutOfRange),
        index <= max_index ==> (r matches Ok(k) && k@ == key_text(index as nat, max_index as nat)),
{
    if index > max_index {
        return Err(KeyError::IndexOutOfRange);
    }
    Ok(key_of(index, max_index))
}

proof fn lemma_digits_value_grows(s: Seq<char>, i: int, j: int)
    requires
        0 <= i <= j <= s.len(),
        forall|k: int| 0 <= k < s.len() ==> is_digit(#[trigger] s[k]),
    ensures
        digits_value(s.subrange(0, i)) <= digits_value(s.subrange(0, j)),
    decreases j - i,
{
    if i < j {
        lemma_digits_value_grows(s, i, j - 1);
        assert(s.subrange(0, j).drop_last() == s.subrange(0, j - 1));
    }
}

/// The index that a sparse key spells, checked against the largest index the
/// caller expects.
pub fn decode(key: &str, max_index: usize) -> (r: Result<usize, KeyError>)
    ensures
        !key_shape(key@) ==> r == Err::<usize, KeyError>(KeyError::Format),
        key_shape(key@) && key_index(key@) > max_index ==> r == Err::<usize, KeyError>(
            KeyError::IndexOutOfRange,
        ),
        key_shape(key@) && key_index(key@) <= max_index ==> r == Ok::<usize, KeyError>(
            key_index(key@) as usize,
        ),
{
    let n = key.unicode_len();
    if n < 3 || key.get_char(0) != 'k' || key.get_char(1) != '_' {
        return Err(KeyError::Format);
    }
    let mut i: usize = 2;
    while i < n
        invariant
            n == key@.len(),
            2 <= i <= n,
            forall|k: int| 2 <= k < i ==> is_digit(#[trigger] key@[k]),
        decreases n - i,
    {
        let c = key.get_char(i);
        if !((c as u32) >= 48 && (c as u32) <= 57) {
            return Err(KeyError::Format);
        }
        i = i + 1;
    }
    assert(key_shape(key@));
    let ghost digits = key@.subrange(2, n as int);
    assert forall|k: int| 0 <= k < digits.len() implies is_digit(#[trigger] digits[k]) by {
        assert(digits[k] == key@[k + 2]);
    }
    let mut acc: usize = 0;
    let mut j: usize = 2;
    while j < n
        invariant
            n == key@.len(),
            2 <= j <= n,
            key_shape(key@),
            digits == key@.subrange(2, n as int),
            forall|k: int| 0 <= k < digits.len() ==> is_digit(#[trigger] digits[k]),
            acc == digits_value(digits.subrange(0, j - 2)),
            acc <= max_index,
        decreases n - j,
    {
        let c = key.get_char(j);
        assert(digits.subrange(0, j - 1).drop_last() == digits.subrange(0, j - 2));
        assert(digits[j - 2] == c);
        assert(is_digit(digits[j - 2]));
        let d = (c as u32 - 48) as usize;
        if d > max_index || acc > (max_index - d) / 10 {
            assert(acc * 10 + d > max_index) by (nonlinear_arith)
                requires
                    d > max_index || acc > (max_index - d) / 10,
                    d <= max_index ==> max_index - d >= 0,
            ;
            proof {
                lemma_digits_value_grows(digits, j - 1, digits.len() as int);
                assert(digits.subrange(0, digits.len() as int) == digits);
            }
            return Err(KeyError::IndexOutOfRange);
        }
        assert(acc * 10 + d <= max_index) by (nonlinear_arith)
            requires
                d <= max_index,
                acc <= (max_index - d) / 10,
        ;
        acc = acc * 10 + d;
        j = j + 1;
    }
    assert(digits.subrange(0, n - 2) == digits);
    Ok(acc)
}

} // verus!
