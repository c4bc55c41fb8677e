//! Shared mathematical model of the wire-level primitives: LEB128 byte
//! strings, little-endian fixed-width integers, and two's-complement
//! reinterpretation between signed and unsigned machine integers.

use vstd::prelude::*;

verus! {

use vstd::arithmetic::power2::pow2;
use vstd::arithmetic::power2::lemma2_to64;

/// The canonical LEB128 encoding of `v`: seven value bits per octet, least
/// significant group first, the high bit set on every octet but the last.
pub open spec fn leb_bytes(v: nat) -> Seq<u8>
    decreases v,
{
    if v < 128 {
        seq![v as u8]
    } else {
        seq![(v % 128 + 128) as u8] + leb_bytes(v / 128)
    }
}

/// The value of the first `n` octets of `s` read as little-endian 7-bit
/// groups, ignoring continuation bits.
pub open spec fn leb_value(s: Seq<u8>, n: int) -> nat
    decreases n,
{
    if n <= 0 {
        0
    } else {
        (s[0] % 128) as nat + 128 * leb_value(s.skip(1), n - 1)
    }
}

/// The octet at index `i` ends a LEB128 item: its continuation bit is clear
/// and every earlier octet has it set.
pub open spec fn leb_ends_at(s: Seq<u8>, i: int) -> bool {
    &&& 0 <= i < s.len()
    &&& s[i] < 128
    &&& forall|j: int| 0 <= j < i ==> s[j] >= 128
}

/// `leb_bytes` is never empty and its last octet is the only terminator.
pub proof fn lemma_leb_bytes_shape(v: nat)
    ensures
        leb_bytes(v).len() >= 1,
        leb_ends_at(leb_bytes(v), leb_bytes(v).len() - 1),
    decreases v,
{
    if v >= 128 {
        lemma_leb_bytes_shape(v / 128);
        let s = leb_bytes(v);
        let t = leb_bytes(v / 128);
        assert forall|j: int| 0 <= j < s.len() - 1 implies s[j] >= 128 by {
            if j > 0 {
                assert(s[j] == t[j - 1]);
            }
        }
    }
}

/// Decoding the canonical encoding gives the value back.
pub proof fn lemma_leb_roundtrip(v: nat)
    ensures
        leb_value(leb_bytes(v), leb_bytes(v).len() as int) == v,
    decreases v,
{
    if v < 128 {
        assert(leb_bytes(v)[0] == v as u8);
        assert(leb_value(leb_bytes(v), 1) == ((v as u8) % 128) as nat + 128 * leb_value(leb_bytes(v).skip(1), 0));
    } else {
        lemma_leb_roundtrip(v / 128);
        let s = leb_bytes(v);
        let t = leb_bytes(v / 128);
        assert(s.skip(1) =~= t);
    }
}

/// A value below `pow2(7 * k)` encodes into at most `k` octets.
pub proof fn lemma_leb_bytes_len(v: nat, k: nat)
    requires
        k >= 1,
        v < pow2(7 * k),
    ensures
        leb_bytes(v).len() <= k,
    decreases k,
{
    if v >= 128 {
        lemma2_to64();
        assert(pow2(7 * k) == 128 * pow2((7 * (k - 1)) as nat)) by {
            vstd::arithmetic::power2::lemma_pow2_adds(7, (7 * (k - 1)) as nat);
            lemma2_to64();
        }
        assert(k >= 2) by {
            if k == 1 {
                assert(pow2(7) == 128);
            }
        }
        lemma_leb_bytes_len(v / 128, (k - 1) as nat);
    } else {
        assert(leb_bytes(v).len() == 1);
    }
}

/// The index of the first octet of `s` whose continuation bit is clear, or
/// `s.len()` when every octet has it set.
pub open spec fn leb_end(s: Seq<u8>) -> int
    decreases s.len(),
{
    if s.len() == 0 {
        0
    } else if s[0] < 128 {
        0
    } else {
        1 + leb_end(s.skip(1))
    }
}

pub proof fn lemma_leb_end(s: Seq<u8>)
    ensures
        0 <= leb_end(s) <= s.len(),
        leb_end(s) < s.len() ==> s[leb_end(s)] < 128,
        forall|j: int| 0 <= j < leb_end(s) ==> s[j] >= 128,
    decreases s.len(),
{
    if s.len() > 0 && s[0] >= 128 {
        lemma_leb_end(s.skip(1));
        let e = leb_end(s);
        assert forall|j: int| 0 <= j < e implies s[j] >= 128 by {
            if j > 0 {
                assert(s.skip(1)[j - 1] == s[j]);
            }
        }
        if e < s.len() {
            assert(s.skip(1)[e - 1] == s[e]);
        }
    }
}


/// A terminated LEB128 item keeps its terminator under extension.
pub proof fn lemma_leb_end_extend(a: Seq<u8>, b: Seq<u8>)
    requires
        leb_end(a) < a.len(),
    ensures
        leb_end(a + b) == leb_end(a),
{
    lemma_leb_end(a);
    lemma_leb_end(a + b);
    let e = leb_end(a);
    let c = a + b;
    assert(c[e] == a[e]);
    assert forall|j: int| 0 <= j < e implies c[j] >= 128 by {
        assert(c[j] == a[j]);
    }
    if leb_end(c) < e {
        assert(a[leb_end(c)] == c[leb_end(c)]);
    } else if leb_end(c) > e {
        assert(c[e] >= 128);
    }
}

/// The value of a LEB128 item does not change under extension.
pub proof fn lemma_leb_value_extend(a: Seq<u8>, b: Seq<u8>, n: int)
    requires
        0 <= n <= a.len(),
    ensures
        leb_value(a + b, n) == leb_value(a, n),
    decreases n,
{
    if n > 0 {
        assert((a + b)[0] == a[0]);
        assert((a + b).skip(1) =~= a.skip(1) + b);
        lemma_leb_value_extend(a.skip(1), b, n - 1);
    }
}

/// The little-endian encoding of `v` into `w` octets.
pub open spec fn le_bytes(v: nat, w: nat) -> Seq<u8>
    decreases w,
{
    if w == 0 {
        Seq::empty()
    } else {
        seq![(v % 256) as u8] + le_bytes(v / 256, (w - 1) as nat)
    }
}

/// The value of the octets of `s` read as a little-endian integer.
pub open spec fn le_value(s: Seq<u8>) -> nat
    decreases s.len(),
{
    if s.len() == 0 {
        0
    } else {
        s[0] as nat + 256 * le_value(s.skip(1))
    }
}

pub proof fn lemma_le_bytes_len(v: nat, w: nat)
    ensures
        le_bytes(v, w).len() == w,
    decreases w,
{
    if w > 0 {
        lemma_le_bytes_len(v / 256, (w - 1) as nat);
    }
}

/// Reading back the little-endian encoding of a value that fits in `w`
/// octets gives the value.
pub proof fn lemma_le_roundtrip(v: nat, w: nat)
    requires
        v < pow2(8 * w),
    ensures
        le_value(le_bytes(v, w)) == v,
    decreases w,
{
    if w == 0 {
        assert(pow2(0) == 1) by { lemma2_to64(); }
    } else {
        assert(pow2(8 * w) == 256 * pow2((8 * (w - 1)) as nat)) by {
            vstd::arithmetic::power2::lemma_pow2_adds(8, (8 * (w - 1)) as nat);
            lemma2_to64();
        }
        lemma_le_roundtrip(v / 256, (w - 1) as nat);
        assert(le_bytes(v, w).skip(1) =~= le_bytes(v / 256, (w - 1) as nat));
    }
}

/// One more octet extends the value read so far by one 7-bit group.
pub proof fn lemma_leb_value_step(s: Seq<u8>, n: int)
    requires
        0 <= n < s.len(),
    ensures
        leb_value(s, n + 1) == leb_value(s, n) + ((s[n] % 128) as nat) * pow2((7 * n) as nat),
    decreases n,
{
    lemma2_to64();
    if n == 0 {
        assert(leb_value(s, 1) == (s[0] % 128) as nat + 128 * leb_value(s.skip(1), 0));
        assert(leb_value(s.skip(1), 0) == 0);
        assert(leb_value(s, 0) == 0);
        assert(pow2(0) == 1);
        assert(leb_value(s, 1) == leb_value(s, 0) + ((s[0] % 128) as nat) * pow2(0));
    } else {
        lemma_leb_value_step(s.skip(1), n - 1);
        assert(s.skip(1)[n - 1] == s[n]);
        assert(pow2((7 * n) as nat) == 128 * pow2((7 * (n - 1)) as nat)) by {
            vstd::arithmetic::power2::lemma_pow2_adds(7, (7 * (n - 1)) as nat);
        }
        assert(leb_value(s, n + 1) == (s[0] % 128) as nat + 128 * leb_value(s.skip(1), n));
        assert(leb_value(s, n) == (s[0] % 128) as nat + 128 * leb_value(s.skip(1), n - 1));
        assert(128 * ((s[n] % 128) * pow2((7 * (n - 1)) as nat)) == (s[n] % 128) * pow2(
            (7 * n) as nat)) by (nonlinear_arith)
            requires
                pow2((7 * n) as nat) == 128 * pow2((7 * (n - 1)) as nat),
        ;
        assert(128 * (leb_value(s.skip(1), n - 1) + ((s[n] % 128) as nat) * pow2(
            (7 * (n - 1)) as nat)) == 128 * leb_value(s.skip(1), n - 1) + 128 * (((
        s[n] % 128) as nat) * pow2((7 * (n - 1)) as nat))) by (nonlinear_arith);
        assert(leb_value(s, n + 1) == leb_value(s, n) + ((s[n] % 128) as nat) * pow2(
            (7 * n) as nat));
    }
}

/// The value of `n` octets is below `pow2(7 * n)`.
pub proof fn lemma_leb_value_bound(s: Seq<u8>, n: int)
    requires
        0 <= n,
    ensures
        leb_value(s, n) < pow2((7 * n) as nat),
    decreases n,
{
    lemma2_to64();
    if n == 0 {
        assert(pow2(0) == 1);
    } else {
        lemma_leb_value_bound(s.skip(1), n - 1);
        assert(pow2((7 * n) as nat) == 128 * pow2((7 * (n - 1)) as nat)) by {
            vstd::arithmetic::power2::lemma_pow2_adds(7, (7 * (n - 1)) as nat);
        }
        assert((s[0] % 128) as nat + 128 * leb_value(s.skip(1), n - 1) < 128 * pow2(
            (7 * (n - 1)) as nat)) by (nonlinear_arith)
            requires
                leb_value(s.skip(1), n - 1) < pow2((7 * (n - 1)) as nat),
                ((s[0] % 128) as nat) < 128,
        ;
    }
}

/// One more octet extends a little-endian value by one 8-bit group.
#[verifier::spinoff_prover]
#[verifier::rlimit(50)]
pub proof fn lemma_le_value_step(s: Seq<u8>, n: int)
    requires
        0 <= n < s.len(),
    ensures
        le_value(s.take(n + 1)) == le_value(s.take(n)) + (s[n] as nat) * pow2((8 * n) as nat),
    decreases n,
{
    lemma2_to64();
    let a = s.take(n + 1);
    let b = s.take(n);
    if n == 0 {
        assert(a =~= seq![s[0]]);
        assert(b =~= Seq::<u8>::empty());
        assert(le_value(a) == s[0] as nat + 256 * le_value(a.skip(1)));
        assert(a.skip(1) =~= Seq::<u8>::empty());
        assert(le_value(a.skip(1)) == 0);
        assert(le_value(b) == 0);
        assert(le_value(a) == s[0] as nat);
        assert(pow2(0) == 1);
        assert((s[0] as nat) * pow2(0) == s[0] as nat) by (nonlinear_arith)
            requires
                pow2(0) == 1,
        ;
        assert(le_value(a) == le_value(b) + (s[0] as nat) * pow2(0));
    } else {
        lemma_le_value_step(s.skip(1), n - 1);
        assert(a.skip(1) =~= s.skip(1).take(n));
        assert(b.skip(1) =~= s.skip(1).take(n - 1));
        assert(a[0] == s[0] && b[0] == s[0]);
        assert(le_value(a) == s[0] as nat + 256 * le_value(s.skip(1).take(n)));
        assert(le_value(b) == s[0] as nat + 256 * le_value(s.skip(1).take(n - 1)));
        assert(s.skip(1)[n - 1] == s[n]);
        assert(pow2((8 * n) as nat) == 256 * pow2((8 * (n - 1)) as nat)) by {
            vstd::arithmetic::power2::lemma_pow2_adds(8, (8 * (n - 1)) as nat);
        }
        assert(256 * ((s[n] as nat) * pow2((8 * (n - 1)) as nat)) == (s[n] as nat) * pow2(
            (8 * n) as nat)) by (nonlinear_arith)
            requires
                pow2((8 * n) as nat) == 256 * pow2((8 * (n - 1)) as nat),
        ;
        assert(le_value(s.skip(1).take(n)) == le_value(s.skip(1).take(n - 1)) + (s[n] as nat)
            * pow2((8 * (n - 1)) as nat));
        assert(256 * (le_value(s.skip(1).take(n - 1)) + (s[n] as nat) * pow2(
            (8 * (n - 1)) as nat)) == 256 * le_value(s.skip(1).take(n - 1)) + 256 * ((
        s[n] as nat) * pow2((8 * (n - 1)) as nat))) by (nonlinear_arith);
        assert(le_value(a) == le_value(b) + (s[n] as nat) * pow2((8 * n) as nat));
    }
}

/// A little-endian value of `n` octets is below `pow2(8 * n)`.
pub proof fn lemma_le_value_bound(s: Seq<u8>)
    ensures
        le_value(s) < pow2((8 * s.len()) as nat),
    decreases s.len(),
{
    lemma2_to64();
    if s.len() == 0 {
        assert(pow2(0) == 1);
    } else {
        lemma_le_value_bound(s.skip(1));
        let n = s.len() as int;
        assert(pow2((8 * n) as nat) == 256 * pow2((8 * (n - 1)) as nat)) by {
            vstd::arithmetic::power2::lemma_pow2_adds(8, (8 * (n - 1)) as nat);
        }
        assert(s[0] as nat + 256 * le_value(s.skip(1)) < 256 * pow2((8 * (n - 1)) as nat))
            by (nonlinear_arith)
            requires
                le_value(s.skip(1)) < pow2((8 * (n - 1)) as nat),
                (s[0] as nat) < 256,
        ;
    }
}

/// A power of two computed at run time.
pub fn pow2_u64(e: u64) -> (r: u64)
    requires
        e < 64,
    ensures
        r == pow2(e as nat),
{
    proof {
        lemma2_to64();
        vstd::arithmetic::power2::lemma2_to64_rest();
    }
    let mut r: u64 = 1;
    let mut i: u64 = 0;
    while i < e
        invariant
            0 <= i <= e < 64,
            r == pow2(i as nat),
        decreases e - i,
    {
        proof {
            vstd::arithmetic::power2::lemma_pow2_adds(i as nat, 1);
            lemma2_to64();
            vstd::arithmetic::power2::lemma_pow2_strictly_increases(i as nat + 1, 64);
            vstd::arithmetic::power2::lemma2_to64_rest();
        }
        r = r * 2;
        i = i + 1;
    }
    r
}

/// The unsigned 32-bit pattern that stores `v` in two's complement.
pub open spec fn i32_to_u32(v: i32) -> u32 {
    if v >= 0 {
        v as u32
    } else {
        (v + 0x1_0000_0000) as u32
    }
}

/// The signed reading of an unsigned 32-bit two's-complement pattern.
pub open spec fn u32_to_i32(v: u32) -> i32 {
    if v < 0x8000_0000 {
        v as i32
    } else {
        (v - 0x1_0000_0000) as i32
    }
}

/// The unsigned 64-bit pattern that stores `v` in two's complement.
pub open spec fn i64_to_u64(v: i64) -> u64 {
    if v >= 0 {
        v as u64
    } else {
        (v + 0x1_0000_0000_0000_0000) as u64
    }
}

/// The signed reading of an unsigned 64-bit two's-complement pattern.
pub open spec fn u64_to_i64(v: u64) -> i64 {
    if v < 0x8000_0000_0000_0000 {
        v as i64
    } else {
        (v - 0x1_0000_0000_0000_0000) as i64
    }
}

pub proof fn lemma_i32_u32_roundtrip(v: i32)
    ensures
        u32_to_i32(i32_to_u32(v)) == v,
{
}

pub proof fn lemma_i64_u64_roundtrip(v: i64)
    ensures
        u64_to_i64(i64_to_u64(v)) == v,
{
}

/// Two's-complement reinterpretation of an `i32`, computed with in-range
/// arithmetic only.
pub fn i32_bits(v: i32) -> (r: u32)
    ensures
        r == i32_to_u32(v),
{
    if v >= 0 {
        v as u32
    } else {
        ((v as i64) + 0x1_0000_0000i64) as u32
    }
}

/// Inverse of [`i32_bits`].
pub fn i32_from_bits(v: u32) -> (r: i32)
    ensures
        r == u32_to_i32(v),
{
    if v < 0x8000_0000 {
        v as i32
    } else {
        ((v as i64) - 0x1_0000_0000i64) as i32
    }
}

/// Two's-complement reinterpretation of an `i64`, computed with in-range
/// arithmetic only.
pub fn i64_bits(v: i64) -> (r: u64)
    ensures
        r == i64_to_u64(v),
{
    if v >= 0 {
        v as u64
    } else {
        ((v as i128) + 0x1_0000_0000_0000_0000i128) as u64
    }
}

/// Inverse of [`i64_bits`].
pub fn i64_from_bits(v: u64) -> (r: i64)
    ensures
        r == u64_to_i64(v),
{
    if v < 0x8000_0000_0000_0000 {
        v as i64
    } else {
        ((v as i128) - 0x1_0000_0000_0000_0000i128) as i64
    }
}

/// Appends the LEB128 encoding of `val` to `buf`.
pub fn write_leb(val: u64, buf: &mut Vec<u8>) -> (n: usize)
    ensures
        final(buf)@ == old(buf)@ + leb_bytes(val as nat),
        n == leb_bytes(val as nat).len(),
{
    proof {
        lemma_leb_bytes_shape(val as nat);
        assert(val < pow2(70)) by {
            lemma2_to64();
            vstd::arithmetic::power2::lemma_pow2_strictly_increases(64, 70);
        }
        lemma_leb_bytes_len(val as nat, 10);
    }
    let ghost start: Seq<u8> = buf@;
    let mut v: u64 = val;
    let mut size: usize = 0;
    while v >= 128
        invariant
            start + leb_bytes(val as nat) =~= buf@ + leb_bytes(v as nat),
            size == buf@.len() - start.len(),
            size + leb_bytes(v as nat).len() == leb_bytes(val as nat).len(),
            leb_bytes(val as nat).len() <= 10,
        decreases v,
    {
        let byte: u8 = (v % 128 + 128) as u8;
        proof {
            assert(leb_bytes(v as nat) == seq![byte] + leb_bytes((v as nat) / 128));
            assert(buf@ + leb_bytes(v as nat) =~= (buf@ + seq![byte]) + leb_bytes((v as nat) / 128));
        }
        buf.push(byte);
        v = v / 128;
        size = size + 1;
    }
    proof {
        assert(leb_bytes(v as nat) == seq![v as u8]);
        assert(buf@ + leb_bytes(v as nat) =~= (buf@ + seq![v as u8]));
    }
    buf.push(v as u8);
    size + 1
}

} // verus!
