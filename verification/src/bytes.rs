//! Byte-string building blocks shared by the protocol modules: a mathematical
//! vocabulary for fixed-width integer encodings and big-number values, and the
//! small executable helpers that assemble wire messages.

use vstd::prelude::*;
use vstd::arithmetic::power::{pow, lemma_pow_positive, lemma_pow_increases};

verus! {

/// `n` copies of the byte `b`.
pub open spec fn repeat_byte(b: u8, n: nat) -> Seq<u8> {
    Seq::new(n, |_i: int| b)
}

/// Big-endian two-byte encoding of `x` (the low 16 bits of `x`).
pub open spec fn be16(x: nat) -> Seq<u8> {
    seq![((x / 256) % 256) as u8, (x % 256) as u8]
}

/// Little-endian two-byte encoding of `x` (the low 16 bits of `x`).
pub open spec fn le16(x: nat) -> Seq<u8> {
    seq![(x % 256) as u8, ((x / 256) % 256) as u8]
}

/// Big-endian three-byte encoding of `x` (the low 24 bits of `x`).
pub open spec fn be24(x: nat) -> Seq<u8> {
    seq![((x / 65536) % 256) as u8, ((x / 256) % 256) as u8, (x % 256) as u8]
}

/// Little-endian four-byte encoding of `x` (the low 32 bits of `x`).
pub open spec fn le32(x: nat) -> Seq<u8> {
    seq![
        (x % 256) as u8,
        ((x / 256) % 256) as u8,
        ((x / 65536) % 256) as u8,
        ((x / 16777216) % 256) as u8,
    ]
}

/// Big-endian eight-byte encoding of a `u64`.
pub open spec fn be64(x: u64) -> Seq<u8> {
    Seq::new(8, |i: int| ((x >> ((56 - 8 * i) as u64)) & 0xff) as u8)
}

/// The unsigned value of a big-endian byte string.
pub open spec fn be_value(s: Seq<u8>) -> nat
    decreases s.len(),
{
    if s.len() == 0 {
        0
    } else {
        be_value(s.drop_last()) * 256 + s.last() as nat
    }
}

/// The unsigned value of a little-endian byte string.
pub open spec fn le_value(s: Seq<u8>) -> nat
    decreases s.len(),
{
    if s.len() == 0 {
        0
    } else {
        s[0] as nat + 256 * le_value(s.drop_first())
    }
}

/// The value of a big-endian two-byte field stored at `s[i], s[i + 1]`.
pub open spec fn be16_at(s: Seq<u8>, i: int) -> nat {
    s[i] as nat * 256 + s[i + 1] as nat
}

/// The value of a little-endian two-byte field stored at `s[i], s[i + 1]`.
pub open spec fn le16_at(s: Seq<u8>, i: int) -> nat {
    s[i] as nat + s[i + 1] as nat * 256
}

/// Appending bytes to a big-endian string shifts its value left.
pub proof fn lemma_be_value_append(a: Seq<u8>, b: Seq<u8>)
    ensures
        be_value(a + b) == be_value(a) * pow(256, b.len()) + be_value(b),
    decreases b.len(),
{
    reveal(pow);
    if b.len() == 0 {
        assert(a + b =~= a);
    } else {
        let b1 = b.drop_last();
        lemma_be_value_append(a, b1);
        assert((a + b).drop_last() =~= a + b1);
        assert((a + b).last() == b.last());
        let x = be_value(a);
        let p = pow(256, b1.len());
        let y = be_value(b1);
        assert(pow(256, b.len()) == 256 * p);
        assert((x * p + y) * 256 + b.last() == x * (256 * p) + (y * 256 + b.last())) by (nonlinear_arith);
    }
}

/// Leading zero bytes do not change a big-endian value.
pub proof fn lemma_be_value_zero_prefix(n: nat, b: Seq<u8>)
    ensures
        be_value(repeat_byte(0, n) + b) == be_value(b),
    decreases n,
{
    lemma_be_value_append(repeat_byte(0, n), b);
    lemma_be_value_zeros(n);
    assert(0 * pow(256, b.len()) == 0) by (nonlinear_arith);
}

/// A run of zero bytes has value zero.
pub proof fn lemma_be_value_zeros(n: nat)
    ensures
        be_value(repeat_byte(0, n)) == 0,
    decreases n,
{
    if n > 0 {
        assert(repeat_byte(0, n).drop_last() =~= repeat_byte(0, (n - 1) as nat));
        lemma_be_value_zeros((n - 1) as nat);
    }
}

/// A little-endian string of `len` bytes holds a value below `256^len`.
pub proof fn lemma_le_value_bound(s: Seq<u8>)
    ensures
        le_value(s) < pow(256, s.len()),
    decreases s.len(),
{
    reveal(pow);
    if s.len() > 0 {
        lemma_le_value_bound(s.drop_first());
        let r = le_value(s.drop_first());
        let p = pow(256, s.drop_first().len());
        assert(s[0] + 256 * r < 256 * p) by (nonlinear_arith)
            requires
                r < p,
                s[0] < 256,
        ;
    }
}

/// A big-endian string whose first byte is non-zero holds a value of at
/// least `256^(len - 1)`.
pub proof fn lemma_be_value_leading(s: Seq<u8>)
    requires
        s.len() >= 1,
        s[0] != 0,
    ensures
        be_value(s) >= pow(256, (s.len() - 1) as nat),
{
    let head = s.subrange(0, 1);
    let tail = s.subrange(1, s.len() as int);
    assert(s =~= head + tail);
    lemma_be_value_append(head, tail);
    assert(head.drop_last() =~= Seq::<u8>::empty());
    assert(be_value(head.drop_last()) == 0);
    assert(head.last() == s[0]);
    assert(be_value(head) == s[0]);
    lemma_pow_positive(256, tail.len());
    let p = pow(256, tail.len());
    assert(s[0] as int * p >= p) by (nonlinear_arith)
        requires
            s[0] >= 1,
            p > 0,
    ;
}

/// A minimal big-endian encoding of a value below a `k`-byte little-endian
/// modulus has at most `k` bytes.
pub proof fn lemma_minimal_be_fits(r: Seq<u8>, modulus: Seq<u8>)
    requires
        r.len() >= 1,
        r.len() == 1 || r[0] != 0,
        be_value(r) < le_value(modulus),
    ensures
        r.len() <= modulus.len(),
{
    lemma_le_value_bound(modulus);
    if r.len() > modulus.len() {
        if r.len() == 1 {
            assert(modulus.len() == 0);
            assert(le_value(modulus) == 0);
        } else {
            lemma_be_value_leading(r);
            lemma_pow_increases(256, modulus.len(), (r.len() - 1) as nat);
        }
    }
}

/// Appends `tail` to `v`.
pub fn push_all(v: &mut Vec<u8>, tail: &[u8])
    ensures
        final(v)@ == old(v)@ + tail@,
{
    let ghost start = v@;
    let mut i: usize = 0;
    while i < tail.len()
        invariant
            i <= tail@.len(),
            v@ == start + tail@.subrange(0, i as int),
        decreases tail@.len() - i,
    {
        v.push(tail[i]);
        i = i + 1;
        assert(v@ =~= start + tail@.subrange(0, i as int));
    }
    assert(tail@.subrange(0, i as int) =~= tail@);
}

/// `n` copies of `b`, as a vector.
pub fn repeat(b: u8, n: usize) -> (v: Vec<u8>)
    ensures
        v@ == repeat_byte(b, n as nat),
{
    let mut v: Vec<u8> = Vec::with_capacity(n);
    let mut i: usize = 0;
    while i < n
        invariant
            i <= n,
            v@ == repeat_byte(b, i as nat),
        decreases n - i,
    {
        v.push(b);
        i = i + 1;
        assert(v@ =~= repeat_byte(b, i as nat));
    }
    v
}

/// A copy of `s` as a vector.
pub fn to_vec(s: &[u8]) -> (v: Vec<u8>)
    ensures
        v@ == s@,
{
    let mut v: Vec<u8> = Vec::new();
    push_all(&mut v, s);
    assert(v@ =~= s@);
    v
}

/// The big-endian encoding of the low 16 bits of `x`.
pub fn u16_be(x: usize) -> (b: [u8; 2])
    ensures
        b@ == be16(x as nat),
{
    let lo: u8 = (x % 256) as u8;
    let hi: u8 = ((x / 256) % 256) as u8;
    let b = [hi, lo];
    assert(b@ =~= be16(x as nat));
    b
}

/// The little-endian encoding of the low 16 bits of `x`.
pub fn u16_le(x: usize) -> (b: [u8; 2])
    ensures
        b@ == le16(x as nat),
{
    let lo: u8 = (x % 256) as u8;
    let hi: u8 = ((x / 256) % 256) as u8;
    let b = [lo, hi];
    assert(b@ =~= le16(x as nat));
    b
}

/// The big-endian encoding of a `u64`.
pub fn u64_be(x: u64) -> (b: [u8; 8])
    ensures
        b@ == be64(x),
{
    let b = [
        ((x >> 56u64) & 0xff) as u8,
        ((x >> 48u64) & 0xff) as u8,
        ((x >> 40u64) & 0xff) as u8,
        ((x >> 32u64) & 0xff) as u8,
        ((x >> 24u64) & 0xff) as u8,
        ((x >> 16u64) & 0xff) as u8,
        ((x >> 8u64) & 0xff) as u8,
        ((x >> 0u64) & 0xff) as u8,
    ];
    assert(b@ =~= be64(x));
    b
}

} // verus!
