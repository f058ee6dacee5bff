//! Character-level helpers: decimal numerals and scanning.
use vstd::prelude::*;
use vstd::std_specs::iter::IteratorSpec;

verus! {

pub open spec fn is_digit(c: char) -> bool {
    '0' <= c && c <= '9'
}

pub open spec fn digit_val(c: char) -> nat {
    (c as int - '0' as int) as nat
}

pub open spec fn digit_char(d: nat) -> char {
    (d + '0' as nat) as char
}

pub open spec fn all_digits(s: Seq<char>) -> bool {
    forall|i: int| 0 <= i < s.len() ==> is_digit(#[trigger] s[i])
}

/// The value of a numeral (leading zeros allowed).
pub open spec fn dec_value(s: Seq<char>) -> nat
    decreases s.len(),
{
    if s.len() == 0 {
        0
    } else {
        dec_value(s.drop_last()) * 10 + digit_val(s.last())
    }
}

/// The shortest numeral of `n`.
pub open spec fn dec_repr(n: nat) -> Seq<char>
    decreases n,
{
    if n < 10 {
        seq![digit_char(n)]
    } else {
        dec_repr(n / 10).push(digit_char(n % 10))
    }
}

/// The last `w` decimal digits of `n`, with leading zeros.
pub open spec fn dec_padded(n: nat, w: nat) -> Seq<char>
    decreases w,
{
    if w == 0 {
        Seq::empty()
    } else {
        dec_padded(n / 10, (w - 1) as nat).push(digit_char(n % 10))
    }
}

/// The end of the run of digits that starts at `i`.
pub open spec fn digits_end(s: Seq<char>, i: int) -> int
    decreases s.len() - i,
{
    if 0 <= i < s.len() && is_digit(s[i]) {
        digits_end(s, i + 1)
    } else {
        i
    }
}

/// `lit` stands in `s` at position `i`.
pub open spec fn lit_at(s: Seq<char>, i: int, lit: Seq<char>) -> bool {
    0 <= i && i + lit.len() <= s.len() && s.subrange(i, i + lit.len()) == lit
}

pub proof fn lemma_digit_char(d: nat)
    requires
        d < 10,
    ensures
        is_digit(digit_char(d)),
        digit_val(digit_char(d)) == d,
{
}

pub proof fn lemma_dec_repr(n: nat)
    ensures
        all_digits(dec_repr(n)),
        dec_repr(n).len() >= 1,
        dec_value(dec_repr(n)) == n,
    decreases n,
{
    if n < 10 {
        lemma_digit_char(n);
        assert(dec_repr(n).drop_last() =~= Seq::<char>::empty());
        assert(dec_value(Seq::<char>::empty()) == 0);
    } else {
        lemma_dec_repr(n / 10);
        lemma_digit_char(n % 10);
        assert(dec_repr(n).drop_last() =~= dec_repr(n / 10));
        assert(dec_repr(n).last() == digit_char(n % 10));
        assert(n == (n / 10) * 10 + n % 10);
    }
}

pub proof fn lemma_dec_padded(n: nat, w: nat)
    ensures
        all_digits(dec_padded(n, w)),
        dec_padded(n, w).len() == w,
        dec_value(dec_padded(n, w)) == n % pow10(w),
    decreases w,
{
    if w == 0 {
        assert(n % 1 == 0) by (nonlinear_arith);
    } else {
        lemma_dec_padded(n / 10, (w - 1) as nat);
        lemma_digit_char(n % 10);
        assert(dec_padded(n, w).drop_last() =~= dec_padded(n / 10, (w - 1) as nat));
        let p = pow10((w - 1) as nat);
        lemma_pow10_pos((w - 1) as nat);
        vstd::arithmetic::div_mod::lemma_mod_breakdown(n as int, 10, p as int);
        assert(pow10(w) == 10 * p);
    }
}

pub open spec fn pow10(w: nat) -> nat
    decreases w,
{
    if w == 0 {
        1
    } else {
        10 * pow10((w - 1) as nat)
    }
}

pub proof fn lemma_pow10_pos(w: nat)
    ensures
        pow10(w) > 0,
    decreases w,
{
    if w > 0 {
        lemma_pow10_pos((w - 1) as nat);
    }
}

/// Appending a digit never makes a numeral's value smaller.
pub proof fn lemma_dec_value_prefix(s: Seq<char>, k: int)
    requires
        0 <= k <= s.len(),
    ensures
        dec_value(s.subrange(0, k)) <= dec_value(s),
    decreases s.len(),
{
    if k < s.len() {
        lemma_dec_value_prefix(s.drop_last(), k);
        assert(s.drop_last().subrange(0, k) =~= s.subrange(0, k));
    } else {
        assert(s.subrange(0, k) =~= s);
    }
}

/// A run of digits followed by a non-digit (or the end) is found exactly.
pub proof fn lemma_digits_end(s: Seq<char>, i: int, e: int)
    requires
        0 <= i <= e <= s.len(),
        all_digits(s.subrange(i, e)),
        e == s.len() || !is_digit(s[e]),
    ensures
        digits_end(s, i) == e,
    decreases e - i,
{
    if i < e {
        assert(s.subrange(i, e)[0] == s[i]);
        assert forall|j: int| 0 <= j < e - (i + 1) implies is_digit(
            #[trigger] s.subrange(i + 1, e)[j],
        ) by {
            assert(s.subrange(i + 1, e)[j] == s.subrange(i, e)[j + 1]);
        }
        lemma_digits_end(s, i + 1, e);
    }
}

pub proof fn lemma_digits_end_bounds(s: Seq<char>, i: int)
    requires
        0 <= i <= s.len(),
    ensures
        i <= digits_end(s, i) <= s.len(),
        all_digits(s.subrange(i, digits_end(s, i))),
        digits_end(s, i) == s.len() || !is_digit(s[digits_end(s, i)]),
    decreases s.len() - i,
{
    if i < s.len() && is_digit(s[i]) {
        lemma_digits_end_bounds(s, i + 1);
        let e = digits_end(s, i);
        assert forall|j: int| 0 <= j < e - i implies is_digit(#[trigger] s.subrange(i, e)[j]) by {
            if j > 0 {
                assert(s.subrange(i, e)[j] == s.subrange(i + 1, e)[j - 1]);
            }
        }
    }
}

/// Relies on String::push: appends one character.
#[verifier::external_body]
pub(crate) fn push_char(s: &mut String, c: char)
    ensures
        final(s)@ == old(s)@.push(c),
{
    s.push(c)
}

/// The characters of a string, in order.
pub fn chars_of(s: &str) -> (r: Vec<char>)
    ensures
        r@ == s@,
{
    let mut out: Vec<char> = Vec::new();
    for c in it: s.chars()
        invariant
            out@ == it.seq().subrange(0, it.index() as int),
    {
        out.push(c);
    }
    assert(out@ =~= s@);
    out
}

pub fn char_of_digit(d: u64) -> (c: char)
    requires
        d < 10,
    ensures
        c == digit_char(d as nat),
{
    ((d as u8) + 48u8) as char
}

/// Appends the shortest numeral of `n`.
pub fn push_decimal(s: &mut String, n: u64)
    ensures
        final(s)@ == old(s)@ + dec_repr(n as nat),
    decreases n,
{
    if n >= 10 {
        push_decimal(s, n / 10);
    }
    push_char(s, char_of_digit(n % 10));
    proof {
        if n < 10 {
            assert(dec_repr(n as nat) =~= seq![digit_char(n as nat)]);
        }
    }
    assert(final(s)@ =~= old(s)@ + dec_repr(n as nat));
}

/// Appends the last `w` digits of `n`, padded with zeros.
pub fn push_decimal_padded(s: &mut String, n: u64, w: u64)
    ensures
        final(s)@ == old(s)@ + dec_padded(n as nat, w as nat),
    decreases w,
{
    if w > 0 {
        push_decimal_padded(s, n / 10, w - 1);
        push_char(s, char_of_digit(n % 10));
    }
    assert(final(s)@ =~= old(s)@ + dec_padded(n as nat, w as nat));
}

/// Appends every character of a string.
pub fn push_str(s: &mut String, t: &str)
    ensures
        final(s)@ == old(s)@ + t@,
{
    s.append(t);
}

/// The end of the run of digits that starts at `i`.
pub fn scan_digits(s: &Vec<char>, i: usize) -> (e: usize)
    requires
        i <= s@.len(),
    ensures
        e as int == digits_end(s@, i as int),
{
    let mut j: usize = i;
    while j < s.len() && '0' <= s[j] && s[j] <= '9'
        invariant
            i <= j <= s@.len(),
            digits_end(s@, i as int) == digits_end(s@, j as int),
        decreases s@.len() - j,
    {
        j = j + 1;
    }
    j
}

/// The value of the numeral `s[i..e]`, where it fits in a `u64`.
pub fn parse_u64(s: &Vec<char>, i: usize, e: usize) -> (r: Option<u64>)
    requires
        i <= e <= s@.len(),
        all_digits(s@.subrange(i as int, e as int)),
    ensures
        r == (if dec_value(s@.subrange(i as int, e as int)) <= u64::MAX {
            Some(dec_value(s@.subrange(i as int, e as int)) as u64)
        } else {
            None::<u64>
        }),
{
    let mut acc: u64 = 0;
    let mut j: usize = i;
    while j < e
        invariant
            i <= j <= e <= s@.len(),
            all_digits(s@.subrange(i as int, e as int)),
            acc as nat == dec_value(s@.subrange(i as int, j as int)),
        decreases e - j,
    {
        let c = s[j];
        assert(s@.subrange(i as int, e as int)[j - i] == c);
        let d: u64 = ((c as u32) - 48) as u64;
        let ghost next = s@.subrange(i as int, j + 1);
        assert(next.drop_last() =~= s@.subrange(i as int, j as int));
        assert(dec_value(next) == acc * 10 + d);
        if acc > (u64::MAX - d) / 10 {
            proof {
                assert(acc * 10 + d > u64::MAX) by (nonlinear_arith)
                    requires
                        acc > (u64::MAX - d) / 10,
                        d < 10,
                ;
                assert(s@.subrange(i as int, e as int).subrange(0, j + 1 - i) =~= next);
                lemma_dec_value_prefix(s@.subrange(i as int, e as int), j + 1 - i);
            }
            return None;
        }
        assert(acc * 10 + d <= u64::MAX) by (nonlinear_arith)
            requires
                acc <= (u64::MAX - d) / 10,
                d < 10,
        ;
        acc = acc * 10 + d;
        j = j + 1;
    }
    Some(acc)
}

/// Whether the characters of `lit` stand in `s` at position `i`.
pub fn has_lit_at(s: &Vec<char>, i: usize, lit: &str) -> (r: bool)
    ensures
        r == lit_at(s@, i as int, lit@),
{
    let l = chars_of(lit);
    if i > s.len() || l.len() > s.len() - i {
        return false;
    }
    let n = s.len();
    let mut j: usize = 0;
    while j < l.len()
        invariant
            n == s@.len(),
            i <= s@.len(),
            i + l@.len() <= s@.len(),
            l@ == lit@,
            j <= l@.len(),
            forall|k: int| 0 <= k < j ==> s@[i + k] == l@[k],
        decreases l@.len() - j,
    {
        if s[i + j] != l[j] {
            assert(s@.subrange(i as int, i + l@.len())[j as int] != l@[j as int]);
            return false;
        }
        j = j + 1;
    }
    assert(s@.subrange(i as int, i + l@.len()) =~= l@);
    true
}

/// The index of the last occurrence of `c` before position `k`, or -1.
pub open spec fn last_index_of(s: Seq<char>, c: char, k: int) -> int
    decreases k,
{
    if k <= 0 {
        -1
    } else if s[k - 1] == c {
        k - 1
    } else {
        last_index_of(s, c, k - 1)
    }
}

/// The index of the last occurrence of `c` in `s`.
pub fn find_last(s: &Vec<char>, c: char) -> (r: Option<usize>)
    ensures
        match r {
            Some(k) => last_index_of(s@, c, s@.len() as int) == k as int,
            None => last_index_of(s@, c, s@.len() as int) == -1,
        },
{
    let mut k: usize = s.len();
    while k > 0
        invariant
            k <= s@.len(),
            last_index_of(s@, c, s@.len() as int) == last_index_of(s@, c, k as int),
        decreases k,
    {
        if s[k - 1] == c {
            return Some(k - 1);
        }
        k = k - 1;
    }
    None
}

/// No occurrence of `c` after position `h`, where `c` stands, until `k`.
pub proof fn lemma_last_index_of(s: Seq<char>, c: char, h: int, k: int)
    requires
        0 <= h < k <= s.len(),
        s[h] == c,
        forall|j: int| h < j < k ==> s[j] != c,
    ensures
        last_index_of(s, c, k) == h,
    decreases k,
{
    if k - 1 > h {
        lemma_last_index_of(s, c, h, k - 1);
    }
}

/// A numeral of `w` digits stands for a number below `10^w`.
pub proof fn lemma_dec_value_below(d: Seq<char>)
    requires
        all_digits(d),
    ensures
        dec_value(d) < pow10(d.len()),
    decreases d.len(),
{
    if d.len() > 0 {
        let p = d.drop_last();
        assert forall|i: int| 0 <= i < p.len() implies is_digit(#[trigger] p[i]) by {
            assert(p[i] == d[i]);
        }
        lemma_dec_value_below(p);
        assert(is_digit(d[d.len() - 1]));
        let v = dec_value(p);
        let q = pow10(p.len());
        let dv = digit_val(d.last());
        assert(v * 10 + dv < q * 10) by (nonlinear_arith)
            requires
                v < q,
                dv < 10,
        ;
    }
}

} // verus!
