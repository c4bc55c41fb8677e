//! The Huffman encoder: replaces every input octet by its code from the
//! canonical table and pads the bitstream with 1-bits (the leading bits of
//! the EOS code) to the next octet boundary.

use vstd::prelude::*;

verus! {

use vstd::arithmetic::power2::pow2;
use vstd::arithmetic::power2::lemma2_to64;
use vstd::arithmetic::power2::lemma2_to64_rest;
use vstd::slice::slice_index_get;
use crate::huffman::table::ENCODE_TABLE;
use crate::huffman::table::spec_table;

/// Contains error options that can be encountered while performing the
/// encoding operations.
#[derive(Clone, Copy, Debug, PartialEq, Eq, Structural)]
pub enum EncoderError {
    /// Indicates that the encoder received an input byte with no code in the
    /// table. The canonical table covers every octet, so the verified
    /// encoder never produces it.
    InvalidInput,
}

/// The low `n` bits of `v`, most significant first.
pub open spec fn bits_of(v: nat, n: nat) -> Seq<bool>
    decreases n,
{
    if n == 0 {
        Seq::empty()
    } else {
        bits_of(v / 2, (n - 1) as nat).push(v % 2 == 1)
    }
}

/// `n` one-bits.
pub open spec fn pad_ones(n: nat) -> Seq<bool>
    decreases n,
{
    if n == 0 {
        Seq::empty()
    } else {
        pad_ones((n - 1) as nat).push(true)
    }
}

/// The code of one symbol as a bit string.
pub open spec fn sym_bits(sym: int) -> Seq<bool> {
    bits_of(spec_table()[sym].1 as nat, spec_table()[sym].0 as nat)
}

/// The concatenated codes of a byte string, in order.
pub open spec fn data_bits(s: Seq<u8>) -> Seq<bool>
    decreases s.len(),
{
    if s.len() == 0 {
        Seq::empty()
    } else {
        sym_bits(s[0] as int) + data_bits(s.skip(1))
    }
}

/// A byte string as a bit string, each octet most significant bit first.
pub open spec fn bytes_bits(s: Seq<u8>) -> Seq<bool>
    decreases s.len(),
{
    if s.len() == 0 {
        Seq::empty()
    } else {
        bits_of(s[0] as nat, 8) + bytes_bits(s.skip(1))
    }
}

/// Splitting a value at a bit position splits its bit string.
pub proof fn lemma_bits_split(a: nat, b: nat, n: nat, k: nat)
    requires
        b < pow2(k),
    ensures
        bits_of(a * pow2(k) + b, n + k) == bits_of(a, n) + bits_of(b, k),
    decreases k,
{
    lemma2_to64();
    let v = a * pow2(k) + b;
    if k == 0 {
        assert(pow2(0) == 1);
        assert(b == 0);
        assert(v == a) by (nonlinear_arith)
            requires
                v == a * pow2(0) + b,
                pow2(0) == 1,
                b == 0,
        ;
        assert(bits_of(b, 0) =~= Seq::<bool>::empty());
        assert(bits_of(v, n + 0) =~= bits_of(a, n) + bits_of(b, 0));
    } else {
        assert(pow2(k) == 2 * pow2((k - 1) as nat)) by {
            vstd::arithmetic::power2::lemma_pow2_adds(1, (k - 1) as nat);
        }
        assert(v == 2 * (a * pow2((k - 1) as nat) + b / 2) + b % 2) by (nonlinear_arith)
            requires
                v == a * pow2(k) + b,
                pow2(k) == 2 * pow2((k - 1) as nat),
        ;
        assert(v % 2 == b % 2 && v / 2 == a * pow2((k - 1) as nat) + b / 2) by {
            vstd::arithmetic::div_mod::lemma_fundamental_div_mod_converse(
                v as int,
                2,
                (a * pow2((k - 1) as nat) + b / 2) as int,
                (b % 2) as int,
            );
        }
        assert(b / 2 < pow2((k - 1) as nat)) by (nonlinear_arith)
            requires
                b < pow2(k),
                pow2(k) == 2 * pow2((k - 1) as nat),
        ;
        lemma_bits_split(a, b / 2, n, (k - 1) as nat);
        assert(bits_of(v, n + k) == bits_of(v / 2, (n + k - 1) as nat).push(v % 2 == 1));
        assert(bits_of(b, k) == bits_of(b / 2, (k - 1) as nat).push(b % 2 == 1));
        assert((bits_of(a, n) + bits_of(b / 2, (k - 1) as nat)).push(b % 2 == 1) =~= bits_of(
            a,
            n,
        ) + bits_of(b / 2, (k - 1) as nat).push(b % 2 == 1));
    }
}

/// The bit string of `pow2(k) - 1` is `k` one-bits.
pub proof fn lemma_bits_all_ones(k: nat)
    ensures
        bits_of((pow2(k) - 1) as nat, k) == pad_ones(k),
    decreases k,
{
    lemma2_to64();
    if k > 0 {
        assert(pow2(k) == 2 * pow2((k - 1) as nat)) by {
            vstd::arithmetic::power2::lemma_pow2_adds(1, (k - 1) as nat);
        }
        vstd::arithmetic::power2::lemma_pow2_pos((k - 1) as nat);
        assert((pow2(k) - 1) / 2 == pow2((k - 1) as nat) - 1 && (pow2(k) - 1) % 2 == 1);
        lemma_bits_all_ones((k - 1) as nat);
    }
}

/// One more byte extends a bit string by eight bits.
pub proof fn lemma_bytes_bits_push(s: Seq<u8>, v: u8)
    ensures
        bytes_bits(s.push(v)) == bytes_bits(s) + bits_of(v as nat, 8),
    decreases s.len(),
{
    let p = s.push(v);
    if s.len() == 0 {
        assert(p[0] == v);
        assert(p.skip(1) =~= Seq::<u8>::empty());
        assert(bytes_bits(p) == bits_of(p[0] as nat, 8) + bytes_bits(p.skip(1)));
        assert(bytes_bits(p.skip(1)) == Seq::<bool>::empty());
        assert(bytes_bits(p) =~= bytes_bits(s) + bits_of(v as nat, 8));
    } else {
        lemma_bytes_bits_push(s.skip(1), v);
        assert(p[0] == s[0]);
        assert(p.skip(1) =~= s.skip(1).push(v));
        assert(bytes_bits(p) == bits_of(p[0] as nat, 8) + bytes_bits(p.skip(1)));
        assert(bytes_bits(p) =~= bytes_bits(s) + bits_of(v as nat, 8));
    }
}

/// One more symbol extends the code stream by that symbol's code.
pub proof fn lemma_data_bits_step(s: Seq<u8>, n: int)
    requires
        0 <= n < s.len(),
    ensures
        data_bits(s.take(n + 1)) == data_bits(s.take(n)) + sym_bits(s[n] as int),
    decreases n,
{
    let a = s.take(n + 1);
    let b = s.take(n);
    if n == 0 {
        assert(a =~= seq![s[0]]);
        assert(b =~= Seq::<u8>::empty());
        assert(data_bits(a) == sym_bits(a[0] as int) + data_bits(a.skip(1)));
        assert(a.skip(1) =~= Seq::<u8>::empty());
        assert(data_bits(a.skip(1)) == Seq::<bool>::empty());
        assert(data_bits(b) == Seq::<bool>::empty());
        assert(data_bits(a) =~= data_bits(b) + sym_bits(s[0] as int));
    } else {
        lemma_data_bits_step(s.skip(1), n - 1);
        assert(a.skip(1) =~= s.skip(1).take(n));
        assert(b.skip(1) =~= s.skip(1).take(n - 1));
        assert(a[0] == s[0] && b[0] == s[0]);
        assert(data_bits(a) == sym_bits(a[0] as int) + data_bits(s.skip(1).take(n)));
        assert(data_bits(b) == sym_bits(b[0] as int) + data_bits(s.skip(1).take(n - 1)));
        assert(s.skip(1)[n - 1] == s[n]);
        assert(data_bits(a) =~= data_bits(b) + sym_bits(s[n] as int));
    }
}

/// The bits of `n` bits of any value number `n`.
pub proof fn lemma_bits_of_len(v: nat, n: nat)
    ensures
        bits_of(v, n).len() == n,
    decreases n,
{
    if n > 0 {
        lemma_bits_of_len(v / 2, (n - 1) as nat);
    }
}

/// A byte string of `n` octets carries `8 * n` bits.
pub proof fn lemma_bytes_bits_len(s: Seq<u8>)
    ensures
        bytes_bits(s).len() == 8 * s.len(),
    decreases s.len(),
{
    if s.len() > 0 {
        lemma_bytes_bits_len(s.skip(1));
        lemma_bits_of_len(s[0] as nat, 8);
    }
}


/// The value of a bit string, most significant bit first.
pub open spec fn value_of_bits(bits: Seq<bool>) -> nat
    decreases bits.len(),
{
    if bits.len() == 0 {
        0
    } else {
        2 * value_of_bits(bits.take(bits.len() - 1)) + (if bits.last() {
            1nat
        } else {
            0nat
        })
    }
}

/// A bit string regrouped into octets, eight bits at a time.
pub open spec fn bytes_of_bits(bits: Seq<bool>) -> Seq<u8>
    decreases bits.len(),
{
    if bits.len() < 8 {
        Seq::empty()
    } else {
        seq![value_of_bits(bits.take(8)) as u8] + bytes_of_bits(bits.skip(8))
    }
}

/// The encoded bytes of a byte string: its code stream padded with 1-bits
/// to an octet boundary, regrouped into octets.
pub open spec fn huff_bytes(s: Seq<u8>) -> Seq<u8> {
    bytes_of_bits(data_bits(s) + pad_ones(((8 - data_bits(s).len() % 8) % 8) as nat))
}

/// Reading the bits of a value gives the value back.
pub proof fn lemma_value_of_bits_of(v: nat, n: nat)
    requires
        v < pow2(n),
    ensures
        value_of_bits(bits_of(v, n)) == v,
    decreases n,
{
    lemma2_to64();
    if n == 0 {
        assert(pow2(0) == 1);
    } else {
        assert(pow2(n) == 2 * pow2((n - 1) as nat)) by {
            vstd::arithmetic::power2::lemma_pow2_adds(1, (n - 1) as nat);
        }
        lemma_value_of_bits_of(v / 2, (n - 1) as nat);
        lemma_bits_of_len(v / 2, (n - 1) as nat);
        let b = bits_of(v, n);
        assert(b == bits_of(v / 2, (n - 1) as nat).push(v % 2 == 1));
        assert(b.take(b.len() - 1) =~= bits_of(v / 2, (n - 1) as nat));
        assert(b.last() == (v % 2 == 1));
    }
}

/// Regrouping the bits of a byte string gives the byte string back.
pub proof fn lemma_bytes_of_bits_inverse(s: Seq<u8>)
    ensures
        bytes_of_bits(bytes_bits(s)) == s,
    decreases s.len(),
{
    lemma2_to64();
    if s.len() == 0 {
        assert(bytes_of_bits(bytes_bits(s)) =~= s);
    } else {
        lemma_bytes_of_bits_inverse(s.skip(1));
        lemma_bits_of_len(s[0] as nat, 8);
        lemma_bytes_bits_len(s.skip(1));
        let bb = bytes_bits(s);
        assert(bb == bits_of(s[0] as nat, 8) + bytes_bits(s.skip(1)));
        assert(bb.take(8) =~= bits_of(s[0] as nat, 8));
        assert(bb.skip(8) =~= bytes_bits(s.skip(1)));
        lemma_value_of_bits_of(s[0] as nat, 8);
        assert(bytes_of_bits(bb) == seq![value_of_bits(bb.take(8)) as u8] + bytes_of_bits(
            bb.skip(8)));
        assert(bytes_of_bits(bb) =~= s);
    }
}


/// The code stream of a byte string is at most thirty bits per byte.
pub proof fn lemma_data_bits_len(s: Seq<u8>)
    ensures
        data_bits(s).len() <= 30 * s.len(),
    decreases s.len(),
{
    crate::huffman::table::lemma_table_wf();
    if s.len() > 0 {
        lemma_data_bits_len(s.skip(1));
        lemma_bits_of_len(
            spec_table()[s[0] as int].1 as nat,
            spec_table()[s[0] as int].0 as nat,
        );
    }
}

/// Eight bits per octet of regrouped bits.
pub proof fn lemma_bytes_of_bits_len(bits: Seq<bool>)
    requires
        bits.len() % 8 == 0,
    ensures
        bytes_of_bits(bits).len() * 8 == bits.len(),
    decreases bits.len(),
{
    if bits.len() >= 8 {
        lemma_bytes_of_bits_len(bits.skip(8));
    }
}

/// The length of an encoded string: the padded code stream, eight bits per
/// octet, no more than thirty bits per input byte plus the padding.
pub proof fn lemma_huff_bytes_len(s: Seq<u8>)
    ensures
        huff_bytes(s).len() * 8 == data_bits(s).len() + (8 - data_bits(s).len() % 8) % 8,
        data_bits(s).len() <= 30 * s.len(),
{
    lemma_data_bits_len(s);
    let pad = ((8 - data_bits(s).len() % 8) % 8) as nat;
    lemma_pad_ones_len(pad);
    lemma_bytes_of_bits_len(data_bits(s) + pad_ones(pad));
}

/// The length of a padding run.
pub proof fn lemma_pad_ones_len(n: nat)
    ensures
        pad_ones(n).len() == n,
    decreases n,
{
    if n > 0 {
        lemma_pad_ones_len((n - 1) as nat);
    }
}


/// What the arithmetic prefix test means for bit strings: one code is a
/// prefix of another exactly when its bit string heads the other's.
pub proof fn lemma_prefix_means_bits(a: (u8, u32), b: (u8, u32))
    requires
        (a.1 as nat) < pow2(a.0 as nat),
        (b.1 as nat) < pow2(b.0 as nat),
        a.0 <= b.0,
    ensures
        crate::huffman::table::code_is_prefix(a, b) <==> bits_of(b.1 as nat, b.0 as nat).take(
            a.0 as int,
        ) == bits_of(a.1 as nat, a.0 as nat),
{
    let m = (b.0 - a.0) as nat;
    let q = (b.1 as nat) / pow2(m);
    let r = (b.1 as nat) % pow2(m);
    vstd::arithmetic::power2::lemma_pow2_pos(m);
    vstd::arithmetic::div_mod::lemma_fundamental_div_mod(b.1 as int, pow2(m) as int);
    vstd::arithmetic::div_mod::lemma_mod_bound(b.1 as int, pow2(m) as int);
    assert(pow2(b.0 as nat) == pow2(a.0 as nat) * pow2(m)) by {
        vstd::arithmetic::power2::lemma_pow2_adds(a.0 as nat, m);
    }
    assert(q < pow2(a.0 as nat)) by (nonlinear_arith)
        requires
            (b.1 as nat) < pow2(b.0 as nat),
            pow2(b.0 as nat) == pow2(a.0 as nat) * pow2(m),
            pow2(m) >= 1,
            q == (b.1 as nat) / pow2(m),
    ;
    assert((b.1 as nat) == q * pow2(m) + r);
    lemma_bits_split(q, r, a.0 as nat, m);
    lemma_bits_of_len(q, a.0 as nat);
    lemma_bits_of_len(r, m);
    assert(bits_of(b.1 as nat, b.0 as nat).take(a.0 as int) =~= bits_of(q, a.0 as nat));
    if bits_of(b.1 as nat, b.0 as nat).take(a.0 as int) == bits_of(a.1 as nat, a.0 as nat) {
        lemma_value_of_bits_of(q, a.0 as nat);
        lemma_value_of_bits_of(a.1 as nat, a.0 as nat);
        assert(q == a.1 as nat);
    }
}

/// Encodes the provided `src` bytes and appends the sequence of Huffman
/// codes, padded with 1-bits to a whole octet, to `dst`.
///
/// The appended bytes carry exactly the concatenated codes of `src` followed
/// by the shortest all-ones padding that reaches an octet boundary. Every
/// octet has a code in the canonical table, so encoding always succeeds.
#[verifier::loop_isolation(false)]
#[verifier::rlimit(100)]
#[verifier::spinoff_prover]
pub fn encode(src: &[u8], dst: &mut Vec<u8>) -> (r: Result<(), EncoderError>)
    ensures
        r == Ok::<(), EncoderError>(()),
        final(dst)@.len() * 8 == old(dst)@.len() * 8 + data_bits(src@).len() + (8 - data_bits(
            src@).len() % 8) % 8,
        final(dst)@.take(old(dst)@.len() as int) == old(dst)@,
        bytes_bits(final(dst)@.skip(old(dst)@.len() as int)) == data_bits(src@) + pad_ones(
            ((8 - data_bits(src@).len() % 8) % 8) as nat),
        final(dst)@.skip(old(dst)@.len() as int) == huff_bytes(src@),
{
    proof {
        lemma2_to64();
        lemma2_to64_rest();
        crate::huffman::table::lemma_table_wf();
    }
    let ghost start: Seq<u8> = dst@;
    let mut acc: u64 = 0;
    let mut nbits: u64 = 0;
    let mut i: usize = 0;
    while i < src.len()
        invariant
            0 <= i <= src@.len(),
            nbits <= 7,
            (acc as nat) < pow2(nbits as nat),
            dst@.len() >= start.len(),
            dst@.take(start.len() as int) == start,
            bytes_bits(dst@.skip(start.len() as int)) + bits_of(acc as nat, nbits as nat)
                == data_bits(src@.take(i as int)),
            (dst@.len() - start.len()) * 8 + nbits == data_bits(src@.take(i as int)).len(),
        decreases src@.len() - i,
    {
        proof {
            assert(src@.take(0int) =~= Seq::<u8>::empty());
        }
        let byte: u8 = *slice_index_get(src, i);
        let code_len: u8 = ENCODE_TABLE[byte as usize].0;
        let code: u32 = ENCODE_TABLE[byte as usize].1;
        proof {
            lemma_data_bits_step(src@, i as int);
            lemma_bits_split(acc as nat, code as nat, nbits as nat, code_len as nat);
            lemma_bits_of_len(acc as nat, nbits as nat);
            lemma_bits_of_len(code as nat, code_len as nat);
            assert(pow2((nbits + code_len) as nat) == pow2(nbits as nat) * pow2(
                code_len as nat)) by {
                vstd::arithmetic::power2::lemma_pow2_adds(nbits as nat, code_len as nat);
            }
            assert((acc as nat) * pow2(code_len as nat) + (code as nat) < pow2(
                (nbits + code_len) as nat)) by (nonlinear_arith)
                requires
                    (acc as nat) < pow2(nbits as nat),
                    (code as nat) < pow2(code_len as nat),
                    pow2((nbits + code_len) as nat) == pow2(nbits as nat) * pow2(
                        code_len as nat),
            ;
            assert(pow2((nbits + code_len) as nat) <= pow2(37)) by {
                if nbits + code_len < 37 {
                    vstd::arithmetic::power2::lemma_pow2_strictly_increases(
                        (nbits + code_len) as nat,
                        37,
                    );
                }
            }
        }
        acc = acc * pow2_u64_local(code_len as u64) + (code as u64);
        nbits = nbits + (code_len as u64);
        while nbits >= 8
            invariant
                nbits <= 37,
                (acc as nat) < pow2(nbits as nat),
                dst@.len() >= start.len(),
                dst@.take(start.len() as int) == start,
                bytes_bits(dst@.skip(start.len() as int)) + bits_of(acc as nat, nbits as nat)
                    == data_bits(src@.take(i + 1)),
                (dst@.len() - start.len()) * 8 + nbits == data_bits(src@.take(i + 1)).len(),
            decreases nbits,
        {
            let shift: u64 = nbits - 8;
            let p: u64 = pow2_u64_local(shift);
            let byte_out: u8 = (acc / p) as u8;
            proof {
                assert(pow2(nbits as nat) == pow2(8) * pow2(shift as nat)) by {
                    vstd::arithmetic::power2::lemma_pow2_adds(8, shift as nat);
                }
                vstd::arithmetic::power2::lemma_pow2_pos(shift as nat);
                assert((acc as nat) / pow2(shift as nat) < pow2(8)) by (nonlinear_arith)
                    requires
                        (acc as nat) < pow2(nbits as nat),
                        pow2(nbits as nat) == pow2(8) * pow2(shift as nat),
                        pow2(shift as nat) >= 1,
                ;
                assert(acc as nat == (byte_out as nat) * pow2(shift as nat) + (acc as nat) % pow2(
                    shift as nat)) by (nonlinear_arith)
                    requires
                        byte_out as nat == (acc as nat) / pow2(shift as nat),
                        pow2(shift as nat) >= 1,
                ;
                vstd::arithmetic::div_mod::lemma_mod_bound(
                    acc as int,
                    pow2(shift as nat) as int,
                );
                lemma_bits_split(byte_out as nat, (acc as nat) % pow2(shift as nat), 8, shift as nat);
                lemma_bytes_bits_push(dst@.skip(start.len() as int), byte_out);
            }
            let ghost demitted = dst@.skip(start.len() as int);
            dst.push(byte_out);
            proof {
                assert(dst@.skip(start.len() as int) =~= demitted.push(byte_out));
                assert(dst@.take(start.len() as int) =~= start);
                assert(bytes_bits(demitted.push(byte_out)) + bits_of(
                    (acc as nat) % pow2(shift as nat),
                    shift as nat,
                ) =~= (bytes_bits(demitted) + bits_of(byte_out as nat, 8)) + bits_of(
                    (acc as nat) % pow2(shift as nat),
                    shift as nat,
                ));
                assert((bytes_bits(demitted) + bits_of(byte_out as nat, 8)) + bits_of(
                    (acc as nat) % pow2(shift as nat),
                    shift as nat,
                ) =~= bytes_bits(demitted) + (bits_of(byte_out as nat, 8) + bits_of(
                    (acc as nat) % pow2(shift as nat),
                    shift as nat,
                )));
                assert(bits_of(byte_out as nat, 8) + bits_of(
                    (acc as nat) % pow2(shift as nat),
                    shift as nat,
                ) == bits_of(acc as nat, (8 + shift) as nat));
            }
            acc = acc % p;
            nbits = shift;
        }
        i = i + 1;
    }
    proof {
        assert(src@.take(src@.len() as int) =~= src@);
    }
    if nbits > 0 {
        let fill: u64 = 8 - nbits;
        let p: u64 = pow2_u64_local(fill);
        proof {
            assert(pow2(fill as nat) <= pow2(8)) by {
                if fill < 8 {
                    vstd::arithmetic::power2::lemma_pow2_strictly_increases(fill as nat, 8);
                }
            }
            assert(pow2(8) == pow2(nbits as nat) * pow2(fill as nat)) by {
                vstd::arithmetic::power2::lemma_pow2_adds(nbits as nat, fill as nat);
            }
            vstd::arithmetic::power2::lemma_pow2_pos(fill as nat);
            assert((acc as nat) * pow2(fill as nat) + (pow2(fill as nat) - 1) < pow2(8))
                by (nonlinear_arith)
                requires
                    (acc as nat) < pow2(nbits as nat),
                    pow2(8) == pow2(nbits as nat) * pow2(fill as nat),
                    pow2(fill as nat) >= 1,
            ;
            lemma_bits_split(acc as nat, (pow2(fill as nat) - 1) as nat, nbits as nat, fill as nat);
            lemma_bits_all_ones(fill as nat);
            lemma_bytes_bits_push(dst@.skip(start.len() as int), 0);
            lemma_bits_of_len(acc as nat, nbits as nat);
        }
        let byte_out: u8 = (acc * p + (p - 1)) as u8;
        let ghost demitted = dst@.skip(start.len() as int);
        proof {
            lemma_bytes_bits_push(demitted, byte_out);
        }
        dst.push(byte_out);
        proof {
            assert(dst@.skip(start.len() as int) =~= demitted.push(byte_out));
            assert(dst@.take(start.len() as int) =~= start);
            assert(bytes_bits(demitted.push(byte_out)) =~= (bytes_bits(demitted) + bits_of(
                byte_out as nat,
                8,
            )));
            assert(bits_of(byte_out as nat, 8) == bits_of(acc as nat, nbits as nat) + pad_ones(
                fill as nat));
            assert(bytes_bits(demitted) + (bits_of(acc as nat, nbits as nat) + pad_ones(
                fill as nat,
            )) =~= (bytes_bits(demitted) + bits_of(acc as nat, nbits as nat)) + pad_ones(
                fill as nat));
        }
    } else {
        proof {
            assert(bits_of(acc as nat, 0) =~= Seq::<bool>::empty());
            assert(pad_ones(0) =~= Seq::<bool>::empty());
            assert(bytes_bits(dst@.skip(start.len() as int)) + Seq::<bool>::empty()
                =~= bytes_bits(dst@.skip(start.len() as int)));
            assert(data_bits(src@) + Seq::<bool>::empty() =~= data_bits(src@));
        }
    }
    proof {
        let emitted = dst@.skip(start.len() as int);
        lemma_bytes_of_bits_inverse(emitted);
        assert(emitted == huff_bytes(src@));
    }
    Ok(())
}

/// A power of two computed at run time.
fn pow2_u64_local(e: u64) -> (r: u64)
    requires
        e < 64,
    ensures
        r == pow2(e as nat),
{
    crate::wire::pow2_u64(e)
}

} // verus!
