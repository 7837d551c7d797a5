//! Decimal text of counters: plain (`to_string`), zero-padded (`{:06}`)
//! and parsing back (`str::parse::<u128>`).
use vstd::prelude::*;

use crate::utility::bytes::{lemma_lex_heads_decide, lemma_lex_same_head, lex_lt};
use crate::utility::{lemma_ascii_bytes_text, string_from_bytes};

verus! {

/// The ASCII decimal digits of `n`, most significant first, without
/// leading zeros (`0` is written as a single digit).
pub open spec fn decimal_digits(n: nat) -> Seq<u8>
    decreases n,
{
    if n < 10 {
        seq![(48 + n) as u8]
    } else {
        decimal_digits(n / 10).push((48 + n % 10) as u8)
    }
}

/// `n` in decimal, left-padded with `'0'` to at least `width` digits,
/// as the format `{:0width$}` writes it.
pub open spec fn zero_padded(n: nat, width: nat) -> Seq<u8> {
    let d = decimal_digits(n);
    if d.len() >= width {
        d
    } else {
        Seq::new((width - d.len()) as nat, |i: int| 48u8) + d
    }
}

/// The width that message indices are padded to.
pub open spec fn index_width() -> nat {
    6
}

/// The characters of an ASCII byte string.
pub open spec fn ascii_text(b: Seq<u8>) -> Seq<char> {
    b.map_values(|x: u8| x as char)
}

pub open spec fn is_digit(b: u8) -> bool {
    48 <= b <= 57
}

pub open spec fn all_digits(s: Seq<u8>) -> bool {
    forall|i: int| 0 <= i < s.len() ==> is_digit(#[trigger] s[i])
}

/// The number that a string of ASCII digits denotes.
pub open spec fn digits_value(s: Seq<u8>) -> nat
    decreases s.len(),
{
    if s.len() == 0 {
        0
    } else {
        digits_value(s.drop_last()) * 10 + (s.last() - 48) as nat
    }
}

/// The text after an optional leading `+`.
pub open spec fn unsigned_digits(b: Seq<u8>) -> Seq<u8> {
    if b.len() > 0 && b[0] == 43u8 {
        b.drop_first()
    } else {
        b
    }
}

/// What `str::parse::<u128>` gives for the UTF-8 text `b`: an optional
/// leading `+`, then one or more ASCII digits whose value fits in `u128`.
pub open spec fn parsed_u128(b: Seq<u8>) -> Option<u128> {
    let d = unsigned_digits(b);
    if d.len() > 0 && all_digits(d) && digits_value(d) <= u128::MAX {
        Some(digits_value(d) as u128)
    } else {
        None
    }
}

pub proof fn lemma_decimal_digits_shape(n: nat)
    ensures
        decimal_digits(n).len() > 0,
        all_digits(decimal_digits(n)),
        digits_value(decimal_digits(n)) == n,
        decimal_digits(n)[0] != 43u8,
    decreases n,
{
    if n >= 10 {
        lemma_decimal_digits_shape(n / 10);
        assert(decimal_digits(n).drop_last() =~= decimal_digits(n / 10));
        assert(n == (n / 10) * 10 + n % 10) by (nonlinear_arith);
        assert(decimal_digits(n).last() == (48 + n % 10) as u8);
        assert(decimal_digits(n).last() - 48 == n % 10);
        assert(digits_value(decimal_digits(n)) == digits_value(decimal_digits(n / 10)) * 10 + (
        n % 10));
    } else {
        assert(decimal_digits(n).drop_last() =~= Seq::<u8>::empty());
        assert(digits_value(Seq::<u8>::empty()) == 0);
        assert(decimal_digits(n).last() - 48 == n);
    }
}

/// Parsing the decimal text of a number gives the number back.
pub proof fn lemma_parse_decimal(n: u128)
    ensures
        parsed_u128(decimal_digits(n as nat)) == Some(n),
{
    lemma_decimal_digits_shape(n as nat);
}

/// `10` to the power `w`.
pub open spec fn pow10(w: nat) -> nat
    decreases w,
{
    if w == 0 {
        1
    } else {
        10 * pow10((w - 1) as nat)
    }
}

/// The last `w` decimal digits of `n`, most significant first.
pub open spec fn fixed_digits(n: nat, w: nat) -> Seq<u8>
    decreases w,
{
    if w == 0 {
        seq![]
    } else {
        fixed_digits(n / 10, (w - 1) as nat).push((48 + n % 10) as u8)
    }
}

proof fn lemma_fixed_zero(w: nat)
    ensures
        fixed_digits(0, w) =~= Seq::new(w, |i: int| 48u8),
    decreases w,
{
    if w > 0 {
        lemma_fixed_zero((w - 1) as nat);
    }
}

proof fn lemma_digits_len_bound(n: nat, w: nat)
    requires
        w >= 1,
        n < pow10(w),
    ensures
        decimal_digits(n).len() <= w,
    decreases w,
{
    if n >= 10 {
        assert(n / 10 < pow10((w - 1) as nat) && w >= 2) by (nonlinear_arith)
            requires
                n < 10 * pow10((w - 1) as nat),
                n >= 10,
                w >= 1,
                w == 1 ==> pow10((w - 1) as nat) == 1,
        {
            if w == 1 {
                assert(pow10(0) == 1);
            }
        }
        lemma_digits_len_bound(n / 10, (w - 1) as nat);
    }
}

/// Below `10^w`, padding to `w` digits gives exactly the last `w` digits.
pub proof fn lemma_zero_padded_fixed(n: nat, w: nat)
    requires
        w >= 1,
        n < pow10(w),
    ensures
        zero_padded(n, w) == fixed_digits(n, w),
        zero_padded(n, w).len() == w,
    decreases w,
{
    lemma_digits_len_bound(n, w);
    if n < 10 {
        lemma_fixed_zero((w - 1) as nat);
        assert(n / 10 == 0);
        assert(zero_padded(n, w) =~= fixed_digits(n, w));
    } else {
        assert(n / 10 < pow10((w - 1) as nat) && w >= 2) by (nonlinear_arith)
            requires
                n < 10 * pow10((w - 1) as nat),
                n >= 10,
                w >= 1,
                w == 1 ==> pow10((w - 1) as nat) == 1,
        {
            if w == 1 {
                assert(pow10(0) == 1);
            }
        }
        lemma_zero_padded_fixed(n / 10, (w - 1) as nat);
        assert(zero_padded(n, w) =~= fixed_digits(n, w));
    }
}

/// The last `w` digits of two numbers below `10^w` are ordered as the
/// numbers are.
pub proof fn lemma_fixed_digits_order(i: nat, j: nat, w: nat)
    requires
        i < j < pow10(w),
    ensures
        lex_lt(fixed_digits(i, w), fixed_digits(j, w)),
    decreases w,
{
    if w == 0 {
        assert(false);
    } else {
        let wi = (w - 1) as nat;
        assert(i / 10 <= j / 10 && j / 10 < pow10(wi)) by (nonlinear_arith)
            requires
                i < j,
                j < 10 * pow10(wi),
        ;
        assert(i / 10 < j / 10 || i % 10 < j % 10) by (nonlinear_arith)
            requires
                i < j,
        ;
        lemma_fixed_len(i / 10, wi);
        lemma_fixed_len(j / 10, wi);
        let a = fixed_digits(i / 10, wi);
        let b = fixed_digits(j / 10, wi);
        let x = seq![(48 + i % 10) as u8];
        let y = seq![(48 + j % 10) as u8];
        assert(fixed_digits(i, w) =~= a + x);
        assert(fixed_digits(j, w) =~= b + y);
        if i / 10 < j / 10 {
            lemma_fixed_digits_order(i / 10, j / 10, wi);
            lemma_lex_heads_decide(a, b, x, y);
        } else {
            assert(a == b);
            lemma_lex_same_head(a, x, y);
            assert(x.drop_first() =~= Seq::<u8>::empty());
        }
    }
}

proof fn lemma_fixed_len(n: nat, w: nat)
    ensures
        fixed_digits(n, w).len() == w,
    decreases w,
{
    if w > 0 {
        lemma_fixed_len(n / 10, (w - 1) as nat);
    }
}

/// Decimal digits of `n`.
pub fn decimal_of(n: u128) -> (r: Vec<u8>)
    ensures
        r@ == decimal_digits(n as nat),
    decreases n,
{
    if n < 10 {
        let d: u8 = (48 + n) as u8;
        let mut v: Vec<u8> = Vec::new();
        v.push(d);
        v
    } else {
        let mut v = decimal_of(n / 10);
        let d: u8 = (48 + n % 10) as u8;
        v.push(d);
        v
    }
}

/// `n.to_string()`: the decimal text of `n`.
pub fn u128_to_string(n: u128) -> (r: String)
    ensures
        r@ == ascii_text(decimal_digits(n as nat)),
{
    let d = decimal_of(n);
    proof {
        lemma_digits_ascii(n as nat);
        lemma_ascii_bytes_text(d@);
    }
    match string_from_bytes(d) {
        Ok(s) => s,
        Err(_) => {
            proof {
                assert(false);
            }
            String::new()
        },
    }
}

/// Decimal digits are ASCII.
pub proof fn lemma_digits_ascii(n: nat)
    ensures
        forall|j: int|
            0 <= j < decimal_digits(n).len() ==> #[trigger] decimal_digits(n)[j] < 128,
{
    lemma_decimal_digits_shape(n);
}

/// Decimal digits of `n`, zero-padded to `width` digits.
pub fn zero_padded_of(n: u128, width: usize) -> (r: Vec<u8>)
    ensures
        r@ == zero_padded(n as nat, width as nat),
{
    let d = decimal_of(n);
    if d.len() >= width {
        d
    } else {
        let pad: usize = width - d.len();
        let mut r: Vec<u8> = Vec::new();
        let mut i: usize = 0;
        while i < pad
            invariant
                i <= pad,
                r@ =~= Seq::new(i as nat, |j: int| 48u8),
            decreases pad - i,
        {
            r.push(48u8);
            i = i + 1;
        }
        let mut k: usize = 0;
        while k < d.len()
            invariant
                k <= d@.len(),
                pad == width - d@.len(),
                r@ =~= Seq::new(pad as nat, |j: int| 48u8) + d@.take(k as int),
            decreases d.len() - k,
        {
            r.push(d[k]);
            proof {
                assert(d@.take(k + 1) =~= d@.take(k as int).push(d@[k as int]));
            }
            k = k + 1;
        }
        proof {
            assert(d@.take(k as int) =~= d@);
        }
        r
    }
}

/// `str::parse::<u128>` on UTF-8 bytes.
pub fn parse_u128(b: &[u8]) -> (r: Option<u128>)
    ensures
        r == parsed_u128(b@),
{
    let start: usize = if b.len() > 0 && b[0] == 43u8 {
        1
    } else {
        0
    };
    let ghost d = unsigned_digits(b@);
    assert(d =~= b@.skip(start as int));
    if start == b.len() {
        return None;
    }
    let mut acc: u128 = 0;
    let mut i: usize = start;
    while i < b.len()
        invariant
            start <= i <= b@.len(),
            d =~= b@.skip(start as int),
            d == unsigned_digits(b@),
            all_digits(b@.subrange(start as int, i as int)),
            acc as nat == digits_value(b@.subrange(start as int, i as int)),
        decreases b.len() - i,
    {
        let c = b[i];
        proof {
            assert(b@.subrange(start as int, i + 1).drop_last() =~= b@.subrange(
                start as int,
                i as int,
            ));
        }
        if c < 48u8 || c > 57u8 {
            proof {
                assert(d[i - start] == c);
                assert(!is_digit(d[i - start]));
                assert(!all_digits(d));
            }
            return None;
        }
        let digit: u128 = (c - 48u8) as u128;
        if acc > (u128::MAX - digit) / 10 {
            proof {
                assert(d.take(i - start) =~= b@.subrange(start as int, i as int));
                assert(d[i - start] == c);
                lemma_digits_value_prefix_grows(d, (i - start) as nat);
            }
            return None;
        }
        acc = acc * 10 + digit;
        i = i + 1;
    }
    proof {
        assert(b@.subrange(start as int, i as int) =~= d);
    }
    Some(acc)
}

/// The value of a digit string bounds the value of each of its prefixes
/// extended by one more digit.
proof fn lemma_digits_value_prefix_grows(d: Seq<u8>, k: nat)
    requires
        k < d.len(),
        all_digits(d.take(k as int)),
        is_digit(d[k as int]),
        digits_value(d.take(k as int)) > (u128::MAX - (d[k as int] - 48)) / 10,
    ensures
        !(all_digits(d) && digits_value(d) <= u128::MAX),
    decreases d.len() - k,
{
    assert(d.take(k as int + 1).drop_last() =~= d.take(k as int));
    let v = digits_value(d.take(k as int + 1));
    assert(v > u128::MAX);
    if all_digits(d) {
        lemma_digits_value_monotone(d, k + 1);
    }
}

/// Appending digits never makes a digit string's value smaller.
proof fn lemma_digits_value_monotone(d: Seq<u8>, k: nat)
    requires
        k <= d.len(),
        all_digits(d),
    ensures
        digits_value(d.take(k as int)) <= digits_value(d),
    decreases d.len() - k,
{
    if k < d.len() {
        lemma_digits_value_monotone(d, k + 1);
        assert(d.take(k as int + 1).drop_last() =~= d.take(k as int));
    } else {
        assert(d.take(k as int) =~= d);
    }
}

} // verus!
