//! Byte-string order and fixed-width integer encodings used by the tables.
use vstd::prelude::*;

verus! {

/// Strict lexicographic order on byte strings, as SQLite compares BLOBs:
/// the first differing byte decides, and a proper prefix comes first.
pub open spec fn lex_lt(a: Seq<u8>, b: Seq<u8>) -> bool
    decreases a.len(),
{
    if a.len() == 0 {
        b.len() > 0
    } else if b.len() == 0 {
        false
    } else if a[0] != b[0] {
        a[0] < b[0]
    } else {
        lex_lt(a.drop_first(), b.drop_first())
    }
}

/// Non-strict lexicographic order.
pub open spec fn lex_le(a: Seq<u8>, b: Seq<u8>) -> bool {
    a == b || lex_lt(a, b)
}

pub proof fn lemma_lex_irreflexive(a: Seq<u8>)
    ensures
        !lex_lt(a, a),
    decreases a.len(),
{
    if a.len() > 0 {
        lemma_lex_irreflexive(a.drop_first());
    }
}

pub proof fn lemma_lex_transitive(a: Seq<u8>, b: Seq<u8>, c: Seq<u8>)
    requires
        lex_lt(a, b),
        lex_lt(b, c),
    ensures
        lex_lt(a, c),
    decreases a.len(),
{
    if a.len() > 0 && b.len() > 0 && c.len() > 0 && a[0] == b[0] && b[0] == c[0] {
        lemma_lex_transitive(a.drop_first(), b.drop_first(), c.drop_first());
    }
}

pub proof fn lemma_lex_total(a: Seq<u8>, b: Seq<u8>)
    ensures
        a == b || lex_lt(a, b) || lex_lt(b, a),
    decreases a.len(),
{
    if a.len() > 0 && b.len() > 0 && a[0] == b[0] {
        lemma_lex_total(a.drop_first(), b.drop_first());
        if a.drop_first() == b.drop_first() {
            assert(a =~= seq![a[0]] + a.drop_first());
            assert(b =~= seq![b[0]] + b.drop_first());
        }
    }
}

pub proof fn lemma_lex_asymmetric(a: Seq<u8>, b: Seq<u8>)
    requires
        lex_lt(a, b),
    ensures
        !lex_lt(b, a),
{
    if lex_lt(b, a) {
        lemma_lex_transitive(a, b, a);
        lemma_lex_irreflexive(a);
    }
}

/// Byte strings are ordered by their first difference, where the bytes
/// are compared as the numbers 0 to 255: `a` comes before `b` exactly when
/// the first byte in which they differ is smaller in `a`.
pub proof fn law_byte_order(a: Seq<u8>, b: Seq<u8>, i: int)
    requires
        0 <= i < a.len(),
        i < b.len(),
        a.take(i) == b.take(i),
        a[i] != b[i],
    ensures
        lex_lt(a, b) <==> (a[i] as int) < (b[i] as int),
        lex_lt(b, a) <==> (b[i] as int) < (a[i] as int),
    decreases i,
{
    if i > 0 {
        assert(a[0] == a.take(i)[0] && b[0] == b.take(i)[0]);
        let a1 = a.drop_first();
        let b1 = b.drop_first();
        assert(a1.take(i - 1) =~= a.take(i).drop_first());
        assert(b1.take(i - 1) =~= b.take(i).drop_first());
        assert(a1[i - 1] == a[i] && b1[i - 1] == b[i]);
        law_byte_order(a1, b1, i - 1);
    }
}

/// A byte string comes before every longer string that it begins.
pub proof fn law_prefix_first(a: Seq<u8>, b: Seq<u8>)
    requires
        a.len() < b.len(),
        b.take(a.len() as int) == a,
    ensures
        lex_lt(a, b),
        !lex_lt(b, a),
    decreases a.len(),
{
    if a.len() > 0 {
        assert(a[0] == b.take(a.len() as int)[0]);
        let a1 = a.drop_first();
        let b1 = b.drop_first();
        assert(b1.take(a1.len() as int) =~= b.take(a.len() as int).drop_first());
        law_prefix_first(a1, b1);
    }
}

/// Equal heads leave the order to the tails.
pub proof fn lemma_lex_same_head(a: Seq<u8>, c: Seq<u8>, d: Seq<u8>)
    ensures
        lex_lt(a + c, a + d) == lex_lt(c, d),
    decreases a.len(),
{
    if a.len() > 0 {
        lemma_lex_same_head(a.drop_first(), c, d);
        assert((a + c).drop_first() =~= a.drop_first() + c);
        assert((a + d).drop_first() =~= a.drop_first() + d);
    } else {
        assert(a + c =~= c);
        assert(a + d =~= d);
    }
}

/// Between heads of equal length, the order of the heads decides.
pub proof fn lemma_lex_heads_decide(a: Seq<u8>, b: Seq<u8>, c: Seq<u8>, d: Seq<u8>)
    requires
        a.len() == b.len(),
        lex_lt(a, b),
    ensures
        lex_lt(a + c, b + d),
    decreases a.len(),
{
    assert(a.len() > 0);
    assert((a + c)[0] == a[0] && (b + d)[0] == b[0]);
    if a[0] == b[0] {
        lemma_lex_heads_decide(a.drop_first(), b.drop_first(), c, d);
        assert((a + c).drop_first() =~= a.drop_first() + c);
        assert((b + d).drop_first() =~= b.drop_first() + d);
    }
}

/// Outcome of comparing two byte strings.
pub enum ByteOrder {
    Less,
    Equal,
    Greater,
}

/// Compares two byte strings lexicographically.
pub fn compare_bytes(a: &[u8], b: &[u8]) -> (r: ByteOrder)
    ensures
        r is Less <==> lex_lt(a@, b@),
        r is Equal <==> a@ == b@,
        r is Greater <==> lex_lt(b@, a@),
{
    let mut i: usize = 0;
    proof {
        assert(a@.skip(0) =~= a@);
        assert(b@.skip(0) =~= b@);
    }
    while i < a.len() && i < b.len()
        invariant
            i <= a@.len(),
            i <= b@.len(),
            a@.take(i as int) =~= b@.take(i as int),
            lex_lt(a@, b@) == lex_lt(a@.skip(i as int), b@.skip(i as int)),
            lex_lt(b@, a@) == lex_lt(b@.skip(i as int), a@.skip(i as int)),
        decreases a.len() - i,
    {
        if a[i] != b[i] {
            proof {
                lemma_lex_irreflexive(a@);
                if a@ == b@ {
                    assert(a@[i as int] == b@[i as int]);
                }
            }
            if a[i] < b[i] {
                return ByteOrder::Less;
            } else {
                return ByteOrder::Greater;
            }
        }
        proof {
            assert(a@.skip(i as int).drop_first() =~= a@.skip(i + 1));
            assert(b@.skip(i as int).drop_first() =~= b@.skip(i + 1));
            assert(a@.take(i + 1) =~= a@.take(i as int).push(a@[i as int]));
            assert(b@.take(i + 1) =~= b@.take(i as int).push(b@[i as int]));
        }
        i = i + 1;
    }
    proof {
        lemma_lex_irreflexive(a@);
        if i == a.len() {
            assert(a@.take(i as int) =~= a@);
        }
        if i == b.len() {
            assert(b@.take(i as int) =~= b@);
        }
    }
    if a.len() < b.len() {
        ByteOrder::Less
    } else if a.len() == b.len() {
        proof {
            assert(a@ =~= a@.take(i as int));
            assert(b@ =~= b@.take(i as int));
        }
        ByteOrder::Equal
    } else {
        ByteOrder::Greater
    }
}


/// `256` to the power `w`.
pub open spec fn pow256(w: nat) -> nat
    decreases w,
{
    if w == 0 {
        1
    } else {
        256 * pow256((w - 1) as nat)
    }
}

/// The `w` low bytes of `n`, most significant first (`to_be_bytes`).
pub open spec fn be_bytes(n: nat, w: nat) -> Seq<u8>
    decreases w,
{
    if w == 0 {
        seq![]
    } else {
        be_bytes(n / 256, (w - 1) as nat).push((n % 256) as u8)
    }
}

/// The number whose big-endian bytes are `s` (`from_be_bytes`).
pub open spec fn be_value(s: Seq<u8>) -> nat
    decreases s.len(),
{
    if s.len() == 0 {
        0
    } else {
        be_value(s.drop_last()) * 256 + s.last() as nat
    }
}

/// The `w` low bytes of `n`, least significant first (`to_le_bytes`).
pub open spec fn le_bytes(n: nat, w: nat) -> Seq<u8>
    decreases w,
{
    if w == 0 {
        seq![]
    } else {
        seq![(n % 256) as u8] + le_bytes(n / 256, (w - 1) as nat)
    }
}

/// The number whose little-endian bytes are `s` (`from_le_bytes`).
pub open spec fn le_value(s: Seq<u8>) -> nat
    decreases s.len(),
{
    if s.len() == 0 {
        0
    } else {
        s[0] as nat + 256 * le_value(s.drop_first())
    }
}

pub proof fn lemma_pow256_positive(w: nat)
    ensures
        pow256(w) > 0,
    decreases w,
{
    if w > 0 {
        lemma_pow256_positive((w - 1) as nat);
    }
}

pub proof fn lemma_pow256_16()
    ensures
        pow256(16) == u128::MAX + 1,
        pow256(8) == u64::MAX + 1,
{
    reveal_with_fuel(pow256, 17);
}

pub proof fn lemma_be_bytes_len(n: nat, w: nat)
    ensures
        be_bytes(n, w).len() == w,
    decreases w,
{
    if w > 0 {
        lemma_be_bytes_len(n / 256, (w - 1) as nat);
    }
}

pub proof fn lemma_le_bytes_len(n: nat, w: nat)
    ensures
        le_bytes(n, w).len() == w,
    decreases w,
{
    if w > 0 {
        lemma_le_bytes_len(n / 256, (w - 1) as nat);
    }
}

/// A big-endian byte string denotes a number below `256^len`.
pub proof fn lemma_be_value_bound(s: Seq<u8>)
    ensures
        be_value(s) < pow256(s.len()),
    decreases s.len(),
{
    if s.len() > 0 {
        let t = s.drop_last();
        lemma_be_value_bound(t);
        let a = be_value(t);
        let p = pow256(t.len());
        assert(a * 256 + s.last() < 256 * p) by (nonlinear_arith)
            requires
                a < p,
                s.last() < 256,
        ;
    }
}

/// A little-endian byte string denotes a number below `256^len`.
pub proof fn lemma_le_value_bound(s: Seq<u8>)
    ensures
        le_value(s) < pow256(s.len()),
    decreases s.len(),
{
    if s.len() > 0 {
        let t = s.drop_first();
        lemma_le_value_bound(t);
        let a = le_value(t);
        let p = pow256(t.len());
        assert(s[0] + 256 * a < 256 * p) by (nonlinear_arith)
            requires
                a < p,
                s[0] < 256,
        ;
    }
}

/// Decoding the big-endian bytes of a number that fits gives it back.
pub proof fn lemma_be_roundtrip(n: nat, w: nat)
    requires
        n < pow256(w),
    ensures
        be_value(be_bytes(n, w)) == n,
    decreases w,
{
    if w > 0 {
        let p = pow256((w - 1) as nat);
        assert(n / 256 < p && n == (n / 256) * 256 + n % 256) by (nonlinear_arith)
            requires
                n < 256 * p,
        ;
        lemma_be_roundtrip(n / 256, (w - 1) as nat);
        assert(be_bytes(n, w).drop_last() =~= be_bytes(n / 256, (w - 1) as nat));
    } else {
        assert(n == 0);
    }
}

/// Decoding the little-endian bytes of a number that fits gives it back.
pub proof fn lemma_le_roundtrip(n: nat, w: nat)
    requires
        n < pow256(w),
    ensures
        le_value(le_bytes(n, w)) == n,
    decreases w,
{
    if w > 0 {
        let p = pow256((w - 1) as nat);
        assert(n / 256 < p && n == (n / 256) * 256 + n % 256) by (nonlinear_arith)
            requires
                n < 256 * p,
        ;
        lemma_le_roundtrip(n / 256, (w - 1) as nat);
        assert(le_bytes(n, w).drop_first() =~= le_bytes(n / 256, (w - 1) as nat));
    } else {
        assert(n == 0);
    }
}

fn be_bytes_of(n: u128, w: usize) -> (r: Vec<u8>)
    ensures
        r@ == be_bytes(n as nat, w as nat),
    decreases w,
{
    if w == 0 {
        Vec::new()
    } else {
        let mut v = be_bytes_of(n / 256, w - 1);
        v.push((n % 256) as u8);
        v
    }
}

/// The sixteen big-endian bytes of `n` (`u128::to_be_bytes`).
pub fn u128_to_be(n: u128) -> (r: Vec<u8>)
    ensures
        r@ == be_bytes(n as nat, 16),
        r@.len() == 16,
        be_value(r@) == n,
{
    proof {
        lemma_be_bytes_len(n as nat, 16);
        lemma_pow256_16();
        lemma_be_roundtrip(n as nat, 16);
    }
    be_bytes_of(n, 16)
}

/// The number of sixteen big-endian bytes (`u128::from_be_bytes`).
pub fn u128_from_be(b: &[u8]) -> (r: u128)
    requires
        b@.len() == 16,
    ensures
        r == be_value(b@),
{
    let mut acc: u128 = 0;
    let mut i: usize = 0;
    while i < b.len()
        invariant
            i <= b@.len() == 16,
            acc as nat == be_value(b@.take(i as int)),
        decreases b.len() - i,
    {
        proof {
            lemma_be_value_bound(b@.take(i as int));
            lemma_pow256_16();
            let p = pow256(i as nat);
            assert(b@.take(i + 1).drop_last() =~= b@.take(i as int));
            if i < 15 {
                lemma_pow_monotone(i as nat, 15);
            }
            assert(pow256(16) == 256 * pow256(15));
            assert(acc * 256 + b@[i as int] < pow256(16)) by (nonlinear_arith)
                requires
                    acc < p,
                    p <= pow256(15),
                    pow256(16) == 256 * pow256(15),
                    b@[i as int] < 256,
            ;
        }
        acc = acc * 256 + b[i] as u128;
        i = i + 1;
    }
    proof {
        assert(b@.take(16) =~= b@);
    }
    acc
}

proof fn lemma_pow_monotone(a: nat, b: nat)
    requires
        a <= b,
    ensures
        pow256(a) <= pow256(b),
    decreases b - a,
{
    if a < b {
        lemma_pow_monotone(a, (b - 1) as nat);
        lemma_pow256_positive((b - 1) as nat);
    }
}

fn le_bytes_of(n: u64, w: usize) -> (r: Vec<u8>)
    ensures
        r@ == le_bytes(n as nat, w as nat),
    decreases w,
{
    let mut r: Vec<u8> = Vec::new();
    let mut m: u64 = n;
    let mut i: usize = 0;
    while i < w
        invariant
            i <= w,
            r@ + le_bytes(m as nat, (w - i) as nat) == le_bytes(n as nat, w as nat),
        decreases w - i,
    {
        proof {
            assert(le_bytes(m as nat, (w - i) as nat) =~= seq![(m % 256) as u8] + le_bytes(
                (m / 256) as nat,
                (w - i - 1) as nat,
            ));
            assert(r@.push((m % 256) as u8) + le_bytes((m / 256) as nat, (w - i - 1) as nat)
                =~= r@ + le_bytes(m as nat, (w - i) as nat));
        }
        r.push((m % 256) as u8);
        m = m / 256;
        i = i + 1;
    }
    proof {
        assert(r@ + le_bytes(m as nat, 0) =~= r@);
    }
    r
}

/// The eight little-endian bytes of `n` (`u64::to_le_bytes`).
pub fn u64_to_le(n: u64) -> (r: Vec<u8>)
    ensures
        r@ == le_bytes(n as nat, 8),
        r@.len() == 8,
        le_value(r@) == n,
{
    proof {
        lemma_le_bytes_len(n as nat, 8);
        lemma_pow256_16();
        lemma_le_roundtrip(n as nat, 8);
    }
    le_bytes_of(n, 8)
}

/// The number of eight little-endian bytes starting at `at`
/// (`u64::from_le_bytes`).
pub fn u64_from_le(b: &[u8], at: usize) -> (r: u64)
    requires
        at + 8 <= b.len(),
    ensures
        r == le_value(b@.subrange(at as int, at + 8)),
{
    let mut acc: u64 = 0;
    let mut i: usize = 8;
    while i > 0
        invariant
            i <= 8,
            at + 8 <= b.len(),
            b.len() == b@.len(),
            acc as nat == le_value(b@.subrange(at + i, at + 8)),
        decreases i,
    {
        proof {
            let s = b@.subrange(at + i - 1, at + 8);
            assert(s.drop_first() =~= b@.subrange(at + i, at + 8));
            lemma_le_value_bound(b@.subrange(at + i, at + 8));
            lemma_pow256_16();
            lemma_pow_monotone((8 - i) as nat, 7);
            assert(pow256(8) == 256 * pow256(7));
            let p = pow256((8 - i) as nat);
            assert(b@[at + i - 1] + 256 * acc < pow256(8)) by (nonlinear_arith)
                requires
                    acc < p,
                    p <= pow256(7),
                    pow256(8) == 256 * pow256(7),
                    b@[at + i - 1] < 256,
            ;
        }
        acc = b[at + (i - 1)] as u64 + 256 * acc;
        i = i - 1;
    }
    acc
}

} // verus!
