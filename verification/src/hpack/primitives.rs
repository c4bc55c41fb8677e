//! The HPACK wire primitives: the prefix integer representation and the
//! length-delimited string representation, in both directions.

use vstd::prelude::*;

verus! {

use vstd::arithmetic::power2::pow2;
use vstd::arithmetic::power2::lemma2_to64;
use vstd::slice::slice_to_vec;
use crate::wire::leb_bytes;
use crate::wire::leb_value;
use crate::wire::leb_end;
use crate::wire::lemma_leb_end;
use crate::wire::lemma_leb_value_step;
use crate::wire::lemma_leb_value_bound;
use crate::wire::pow2_u64;
use crate::wire::write_leb;
use crate::huffman::speed::DecoderSpeed;
use crate::huffman::speed::speed_bits;
use crate::huffman::encoder::huff_bytes;
use crate::huffman::decoder::spec_decode;
use crate::hpack::errors::DecoderError;
use crate::hpack::errors::EncoderError;

/// The flag bits of an octet with its low `prefix` bits cleared.
pub open spec fn flag_bits(flags: u8, prefix: nat) -> nat {
    ((flags as nat) / pow2(prefix)) * pow2(prefix)
}

/// The prefix integer representation of `value` with an N-bit prefix: the
/// value in the first octet when it fits below the prefix mask, else the
/// mask followed by LEB128 continuation octets of the rest.
pub open spec fn int_bytes(value: nat, flags: u8, prefix: nat) -> Seq<u8> {
    let mask = (pow2(prefix) - 1) as nat;
    if value < mask {
        seq![(flag_bits(flags, prefix) + value) as u8]
    } else {
        seq![(flag_bits(flags, prefix) + mask) as u8] + leb_bytes((value - mask) as nat)
    }
}

/// A decoded prefix integer: the value and the octets read, or the error
/// mandated for the buffer.
///
/// The continuation is capped at four octets — five octets in total — so a
/// decoded value never exceeds the mask plus `2^28 - 1`.
#[verifier::opaque]
pub open spec fn int_decoded(s: Seq<u8>, prefix: nat) -> Result<(u32, int), DecoderError> {
    if s.len() == 0 {
        Err(DecoderError::IntegerUnderflow)
    } else {
        let mask = (pow2(prefix) - 1) as nat;
        let head = (s[0] as nat) % pow2(prefix);
        if head < mask {
            Ok((head as u32, 1))
        } else {
            let t = s.skip(1);
            let e = leb_end(t);
            if e < t.len() && e < 4 {
                Ok(((mask + leb_value(t, e + 1)) as u32, e + 2))
            } else if t.len() >= 4 {
                Err(DecoderError::IntegerOverflow)
            } else {
                Err(DecoderError::IntegerUnderflow)
            }
        }
    }
}

/// A decoded prefix integer consumes at least one and at most all octets.
pub proof fn lemma_int_decoded_range(s: Seq<u8>, prefix: nat)
    ensures
        match int_decoded(s, prefix) {
            Ok((v, n)) => 1 <= n <= s.len(),
            Err(_) => true,
        },
{
    reveal(int_decoded);
    lemma_leb_end(s.skip(1));
}

/// A decoded string consumes at least one and at most all octets.
pub proof fn lemma_string_decoded_range(s: Seq<u8>, sp: nat)
    ensures
        match string_decoded(s, sp) {
            Ok((out, n)) => 1 <= n <= s.len(),
            Err(_) => true,
        },
{
    reveal(string_decoded);
    lemma_int_decoded_range(s, 7);
}

/// The string representation of `data`: a 7-bit prefix integer carrying the
/// payload length, its top flag bit marking a Huffman payload, then the
/// payload octets.
pub open spec fn string_bytes(data: Seq<u8>, huffman: bool) -> Seq<u8> {
    if huffman {
        int_bytes(huff_bytes(data).len(), 128, 7) + huff_bytes(data)
    } else {
        int_bytes(data.len(), 0, 7) + data
    }
}

/// A decoded string: the payload octets (Huffman-decoded when so marked)
/// and the octets read, or the error mandated for the buffer.
#[verifier::opaque]
pub open spec fn string_decoded(s: Seq<u8>, sp: nat) -> Result<(Seq<u8>, int), DecoderError> {
    match int_decoded(s, 7) {
        Ok((len, n)) => if s.len() - n < len {
            Err(DecoderError::IntegerUnderflow)
        } else {
            let payload = s.skip(n).take(len as int);
            if s[0] >= 128 {
                let (out, ok) = spec_decode(payload, sp);
                if ok {
                    Ok((out, n + len))
                } else {
                    Err(DecoderError::InvalidInput)
                }
            } else {
                Ok((payload, n + len))
            }
        },
        Err(e) => Err(e),
    }
}

/// Encode an integer to the prefix integer representation defined by HPACK.
///
/// The `flags` occupy the bits of the first octet above the `prefix_size`
/// low bits; flag bits that overlap the prefix are discarded. A prefix size
/// outside `1 ..= 8` is rejected with [`EncoderError::InvalidPrefix`] and
/// leaves `dst` unchanged.
pub fn encode_integer(value: u32, flags: u8, prefix_size: u8, dst: &mut Vec<u8>) -> (r: Result<
    (),
    EncoderError,
>)
    ensures
        1 <= prefix_size <= 8 ==> {
            &&& final(dst)@ == old(dst)@ + int_bytes(value as nat, flags, prefix_size as nat)
            &&& r == Ok::<(), EncoderError>(())
        },
        !(1 <= prefix_size <= 8) ==> {
            &&& final(dst)@ == old(dst)@
            &&& r == Err::<(), EncoderError>(EncoderError::InvalidPrefix)
        },
{
    if prefix_size < 1 || prefix_size > 8 {
        return Err(EncoderError::InvalidPrefix);
    }
    proof {
        lemma2_to64();
        assert(pow2(8) == pow2(prefix_size as nat) * pow2((8 - prefix_size) as nat)) by {
            vstd::arithmetic::power2::lemma_pow2_adds(
                prefix_size as nat,
                (8 - prefix_size) as nat,
            );
        }
        vstd::arithmetic::power2::lemma_pow2_pos(prefix_size as nat);
        vstd::arithmetic::power2::lemma_pow2_pos((8 - prefix_size) as nat);
        assert((flags as nat) / pow2(prefix_size as nat) < pow2((8 - prefix_size) as nat))
            by (nonlinear_arith)
            requires
                (flags as nat) < pow2(8),
                pow2(8) == pow2(prefix_size as nat) * pow2((8 - prefix_size) as nat),
                pow2(prefix_size as nat) >= 1,
        ;
        assert(((flags as nat) / pow2(prefix_size as nat)) * pow2(prefix_size as nat) + pow2(
            prefix_size as nat) <= 256) by (nonlinear_arith)
            requires
                (flags as nat) / pow2(prefix_size as nat) < pow2((8 - prefix_size) as nat),
                pow2(8) == pow2(prefix_size as nat) * pow2((8 - prefix_size) as nat),
                pow2(8) == 256,
        ;
    }
    let p: u64 = pow2_u64(prefix_size as u64);
    let mask: u32 = (p - 1) as u32;
    let clean: u32 = ((flags as u32) / (p as u32)) * (p as u32);
    if value < mask {
        dst.push((clean + value) as u8);
        proof {
            assert(final(dst)@ =~= old(dst)@ + int_bytes(value as nat, flags, prefix_size as nat));
        }
        return Ok(());
    }
    dst.push((clean + mask) as u8);
    let ghost mid = dst@;
    let _ = write_leb(((value - mask) as u64), dst);
    proof {
        assert(final(dst)@ =~= old(dst)@ + int_bytes(value as nat, flags, prefix_size as nat));
    }
    Ok(())
}

/// Decodes a prefix integer from the front of `buf` into `val`, consuming
/// the octets it reads.
///
/// The first octet's low `prefix_size` bits either hold the whole value or
/// mark a LEB128 continuation, which this implementation caps at five
/// octets in total, so a decoded value never exceeds roughly `2^28`. A
/// prefix size outside `1 ..= 8` is rejected before anything is read.
#[verifier::loop_isolation(false)]
#[verifier::rlimit(100)]
pub fn decode_integer(buf: &mut Vec<u8>, val: &mut u32, prefix_size: u8) -> (r: Result<
    usize,
    DecoderError,
>)
    ensures
        !(1 <= prefix_size <= 8) ==> {
            &&& final(buf)@ == old(buf)@
            &&& *final(val) == *old(val)
            &&& r == Err::<usize, DecoderError>(DecoderError::InvalidPrefix)
        },
        1 <= prefix_size <= 8 ==> match int_decoded(old(buf)@, prefix_size as nat) {
            Ok((v, n)) => {
                &&& r == Ok::<usize, DecoderError>(n as usize)
                &&& *final(val) == v
                &&& final(buf)@ == old(buf)@.skip(n)
            },
            Err(e) => {
                &&& r == Err::<usize, DecoderError>(e)
                &&& *final(val) == *old(val)
                &&& (e == DecoderError::IntegerUnderflow ==> final(buf)@ =~= Seq::<u8>::empty())
                &&& (e == DecoderError::IntegerOverflow ==> final(buf)@ == old(buf)@.skip(5))
            },
        },
{
    proof {
        reveal(int_decoded);
    }
    if prefix_size < 1 || prefix_size > 8 {
        return Err(DecoderError::InvalidPrefix);
    }
    proof {
        lemma2_to64();
        lemma_leb_end(old(buf)@.skip(1));
    }
    if buf.len() == 0 {
        return Err(DecoderError::IntegerUnderflow);
    }
    let p: u64 = pow2_u64(prefix_size as u64);
    let mask: u32 = (p - 1) as u32;
    let first: u8 = buf[0];
    let tail0 = buf.split_off(1);
    *buf = tail0;
    proof {
        assert(buf@ =~= old(buf)@.skip(1));
    }
    let head: u32 = (first as u32) % (p as u32);
    if head < mask {
        *val = head;
        return Ok(1);
    }
    let ghost t = old(buf)@.skip(1);
    let mut value: u32 = mask;
    let mut count: usize = 0;
    let mut shift_p: u32 = 1;
    loop
        invariant
            1 <= prefix_size <= 8,
            0 <= count <= 3,
            count <= leb_end(t),
            buf@ == t.skip(count as int),
            mask == pow2(prefix_size as nat) - 1,
            value == mask + leb_value(t, count as int),
            shift_p == pow2((7 * count) as nat),
            *val == *old(val),
        decreases 5 - count,
    {
        proof {
            lemma_leb_value_bound(t, count as int);
            if count < t.len() {
                lemma_leb_value_step(t, count as int);
            }
            assert(pow2((7 * count) as nat) <= pow2(21)) by {
                if 7 * count < 21 {
                    vstd::arithmetic::power2::lemma_pow2_strictly_increases(
                        (7 * count) as nat,
                        21,
                    );
                }
            }
        }
        if buf.len() == 0 {
            proof {
                assert(leb_end(t) == t.len());
            }
            return Err(DecoderError::IntegerUnderflow);
        }
        let byte: u8 = buf[0];
        let tail = buf.split_off(1);
        *buf = tail;
        proof {
            assert(t.skip(count as int)[0] == t[count as int]);
            assert(buf@ =~= t.skip(count + 1));
            assert(((byte % 128) as nat) * pow2((7 * count) as nat) < 128 * pow2(
                (7 * count) as nat)) by (nonlinear_arith)
                requires
                    ((byte % 128) as nat) < 128,
                    pow2((7 * count) as nat) >= 1,
            ;
            assert(128 * pow2((7 * count) as nat) == pow2((7 * (count + 1)) as nat)) by {
                vstd::arithmetic::power2::lemma_pow2_adds(7, (7 * count) as nat);
            }
            lemma_leb_value_bound(t, count + 1);
        }
        value = value + ((byte % 128) as u32) * shift_p;
        count = count + 1;
        if byte < 128 {
            *val = value;
            return Ok(count + 1);
        }
        if count == 4 {
            proof {
                assert(leb_end(t) >= 4);
                assert(t.len() >= 4);
            }
            return Err(DecoderError::IntegerOverflow);
        }
        proof {
            assert(pow2((7 * count) as nat) <= pow2(21)) by {
                if 7 * count < 21 {
                    vstd::arithmetic::power2::lemma_pow2_strictly_increases(
                        (7 * count) as nat,
                        21,
                    );
                }
            }
        }
        shift_p = shift_p * 128;
    }
}

/// Encodes `data` to the string representation defined by HPACK and appends
/// it to `dst`: a 7-bit prefix length whose top flag bit marks a Huffman
/// payload, then the payload octets.
pub fn encode_string(data: Vec<u8>, huffman: bool, dst: &mut Vec<u8>) -> (r: Result<
    (),
    EncoderError,
>)
    ensures
        ({
            let payload = if huffman {
                huff_bytes(data@)
            } else {
                data@
            };
            if payload.len() <= u32::MAX {
                &&& final(dst)@ == old(dst)@ + string_bytes(data@, huffman)
                &&& r == Ok::<(), EncoderError>(())
            } else {
                &&& final(dst)@ == old(dst)@
                &&& r == Err::<(), EncoderError>(EncoderError::IntegerOverflow)
            }
        }),
{
    proof {
        lemma2_to64();
    }
    if huffman {
        let mut payload: Vec<u8> = Vec::new();
        let _ = crate::huffman::encoder::encode(data.as_slice(), &mut payload);
        proof {
            assert(payload@ =~= huff_bytes(data@));
        }
        if payload.len() > 0xFFFF_FFFFusize {
            return Err(EncoderError::IntegerOverflow);
        }
        let len: u32 = payload.len() as u32;
        let _ = encode_integer(len, 128, 7, dst);
        let mut body = payload;
        dst.append(&mut body);
        proof {
            assert(final(dst)@ =~= old(dst)@ + string_bytes(data@, true));
        }
    } else {
        if data.len() > 0xFFFF_FFFFusize {
            return Err(EncoderError::IntegerOverflow);
        }
        let len: u32 = data.len() as u32;
        let ghost dv = data@;
        let _ = encode_integer(len, 0, 7, dst);
        let mut body = data;
        dst.append(&mut body);
        proof {
            assert(final(dst)@ =~= old(dst)@ + string_bytes(dv, false));
        }
    }
    Ok(())
}

/// Decodes a string from the front of `buf`, consuming the octets it reads
/// and appending the payload — Huffman-decoded when so marked — to `dst`.
///
/// On success, the number of consumed octets is returned. A buffer shorter
/// than the declared payload is [`DecoderError::IntegerUnderflow`]; a
/// payload that is not a valid Huffman sequence is
/// [`DecoderError::InvalidInput`], with whatever decoded before the fault
/// already appended to `dst`.
pub fn decode_string(buf: &mut Vec<u8>, speed: DecoderSpeed, dst: &mut Vec<u8>) -> (r: Result<
    usize,
    DecoderError,
>)
    ensures
        match string_decoded(old(buf)@, speed_bits(speed)) {
            Ok((out, n)) => {
                &&& r == Ok::<usize, DecoderError>(n as usize)
                &&& final(dst)@ == old(dst)@ + out
                &&& final(buf)@ == old(buf)@.skip(n)
            },
            Err(e) => r == Err::<usize, DecoderError>(e),
        },
{
    proof {
        reveal(int_decoded);
        reveal(string_decoded);
        lemma2_to64();
        lemma_leb_end(old(buf)@.skip(1));
    }
    let huffman: bool = buf.len() > 0 && buf[0] >= 128;
    let mut len: u32 = 0;
    let n: usize = match decode_integer(buf, &mut len, 7) {
        Ok(n) => n,
        Err(e) => {
            return Err(e);
        },
    };
    if (buf.len() as u64) < (len as u64) {
        return Err(DecoderError::IntegerUnderflow);
    }
    let ghost s0 = old(buf)@;
    let tail = buf.split_off(len as usize);
    let payload: Vec<u8> = slice_to_vec(buf.as_slice());
    *buf = tail;
    proof {
        assert(payload@ =~= s0.skip(n as int).take(len as int));
        assert(buf@ =~= s0.skip(n + len));
    }
    if huffman {
        match crate::huffman::decoder::decode(payload.as_slice(), dst, speed) {
            Ok(_) => {},
            Err(_) => {
                return Err(DecoderError::InvalidInput);
            },
        }
    } else {
        let mut body = payload;
        dst.append(&mut body);
    }
    Ok(n + len as usize)
}


/// The flag bits and a prefix-sized value share an octet.
pub proof fn lemma_flag_bits_fit(flags: u8, prefix: nat)
    requires
        1 <= prefix <= 8,
    ensures
        flag_bits(flags, prefix) + pow2(prefix) <= 256,
        forall|v: nat|
            v < pow2(prefix) ==> #[trigger] ((flag_bits(flags, prefix) + v) % pow2(prefix))
                == v,
{
    lemma2_to64();
    assert(pow2(8) == pow2(prefix) * pow2((8 - prefix) as nat)) by {
        vstd::arithmetic::power2::lemma_pow2_adds(prefix, (8 - prefix) as nat);
    }
    vstd::arithmetic::power2::lemma_pow2_pos(prefix);
    vstd::arithmetic::power2::lemma_pow2_pos((8 - prefix) as nat);
    assert((flags as nat) / pow2(prefix) < pow2((8 - prefix) as nat)) by (nonlinear_arith)
        requires
            (flags as nat) < pow2(8),
            pow2(8) == pow2(prefix) * pow2((8 - prefix) as nat),
            pow2(prefix) >= 1,
    ;
    assert(((flags as nat) / pow2(prefix)) * pow2(prefix) + pow2(prefix) <= 256)
        by (nonlinear_arith)
        requires
            (flags as nat) / pow2(prefix) < pow2((8 - prefix) as nat),
            pow2(8) == pow2(prefix) * pow2((8 - prefix) as nat),
            pow2(8) == 256,
    ;
    assert forall|v: nat| v < pow2(prefix) implies #[trigger] ((flag_bits(flags, prefix) + v)
        % pow2(prefix)) == v by {
        assert(flag_bits(flags, prefix) + v == pow2(prefix) * ((flags as nat) / pow2(prefix))
            + v) by (nonlinear_arith);
        vstd::arithmetic::div_mod::lemma_mod_multiples_vanish(
            ((flags as nat) / pow2(prefix)) as int,
            v as int,
            pow2(prefix) as int,
        );
        vstd::arithmetic::div_mod::lemma_small_mod(v, pow2(prefix));
    }
}

/// Round trip of the prefix integer representation: for every prefix width
/// and every value below `2^28`, decoding the encoding gives the value back
/// and consumes exactly the emitted octets.
pub proof fn lemma_int_roundtrip(value: u32, flags: u8, prefix: nat)
    requires
        1 <= prefix <= 8,
        value < 0x1000_0000,
    ensures
        int_decoded(int_bytes(value as nat, flags, prefix), prefix) == Ok::<
            (u32, int),
            DecoderError,
        >((value, int_bytes(value as nat, flags, prefix).len() as int)),
{
    reveal(int_decoded);
    lemma2_to64();
    lemma_flag_bits_fit(flags, prefix);
    let enc = int_bytes(value as nat, flags, prefix);
    let mask = (pow2(prefix) - 1) as nat;
    if (value as nat) < mask {
        assert(enc[0] == (flag_bits(flags, prefix) + value) as u8);
        assert((enc[0] as nat) % pow2(prefix) == value);
    } else {
        let rest = (value as nat - mask) as nat;
        let t = crate::wire::leb_bytes(rest);
        crate::wire::lemma_leb_bytes_shape(rest);
        crate::wire::lemma_leb_roundtrip(rest);
        assert(rest < pow2(28)) by {
            vstd::arithmetic::power2::lemma_pow2_pos(prefix);
        }
        crate::wire::lemma_leb_bytes_len(rest, 4);
        assert(enc[0] == (flag_bits(flags, prefix) + mask) as u8);
        assert((enc[0] as nat) % pow2(prefix) == mask);
        assert(enc.skip(1) =~= t);
        crate::wire::lemma_leb_end(t);
        assert(leb_end(t) == t.len() - 1) by {
            assert(t[t.len() - 1] < 128);
            if leb_end(t) < t.len() - 1 {
                assert(t[leb_end(t)] >= 128);
            }
        }
        assert(leb_value(t, t.len() as int) == rest);
        assert(mask + rest == value);
    }
}

/// Round trip of the string representation without Huffman coding: for
/// every byte string whose length fits the integer cap, decoding the
/// encoding gives the string back and consumes exactly the emitted octets.
pub proof fn lemma_string_roundtrip_plain(data: Seq<u8>, sp: nat)
    requires
        data.len() < 0x1000_0000,
    ensures
        string_decoded(string_bytes(data, false), sp) == Ok::<(Seq<u8>, int), DecoderError>(
            (data, string_bytes(data, false).len() as int),
        ),
{
    reveal(string_decoded);
    lemma2_to64();
    let hdr = int_bytes(data.len(), 0, 7);
    let enc = string_bytes(data, false);
    lemma_int_roundtrip(data.len() as u32, 0, 7);
    assert(enc.take(hdr.len() as int) =~= hdr);
    assert(int_decoded(enc, 7) == int_decoded(hdr, 7)) by {
        lemma_int_decoded_prefix(hdr, enc, 7);
    }
    let n = hdr.len() as int;
    assert(enc.skip(n).take(data.len() as int) =~= data);
    assert(enc[0] == hdr[0]);
    assert((enc[0] as nat) < 128) by {
        lemma_flag_bits_fit(0, 7);
        assert(flag_bits(0, 7) == 0);
    }
}

/// A decoded prefix integer depends only on the octets it consumes.
pub proof fn lemma_int_decoded_prefix(a: Seq<u8>, b: Seq<u8>, prefix: nat)
    requires
        1 <= prefix <= 8,
        a.len() <= b.len(),
        b.take(a.len() as int) == a,
        int_decoded(a, prefix) is Ok,
    ensures
        int_decoded(b, prefix) == int_decoded(a, prefix),
{
    reveal(int_decoded);
    if a.len() > 0 {
        assert(b[0] == a[0]);
        assert(b.skip(1).take(a.skip(1).len() as int) =~= a.skip(1));
        let e = leb_end(a.skip(1));
        crate::wire::lemma_leb_end(a.skip(1));
        crate::wire::lemma_leb_end(b.skip(1));
        if (a[0] as nat) % pow2(prefix) >= (pow2(prefix) - 1) as nat {
            lemma_leb_end_prefix(a.skip(1), b.skip(1));
            assert(leb_value(b.skip(1), e + 1) == leb_value(a.skip(1), e + 1)) by {
                lemma_leb_value_prefix(a.skip(1), b.skip(1), e + 1);
            }
        }
    }
}

/// The terminator of a LEB128 item does not move under extension.
proof fn lemma_leb_end_prefix(a: Seq<u8>, b: Seq<u8>)
    requires
        a.len() <= b.len(),
        b.take(a.len() as int) == a,
        leb_end(a) < a.len(),
    ensures
        leb_end(b) == leb_end(a),
    decreases a.len(),
{
    crate::wire::lemma_leb_end(a);
    crate::wire::lemma_leb_end(b);
    let e = leb_end(a);
    assert(b[e] == a[e]);
    assert forall|j: int| 0 <= j < e implies b[j] >= 128 by {
        assert(b[j] == a[j]);
    }
    if leb_end(b) < e {
        assert(a[leb_end(b)] == b[leb_end(b)]);
    } else if leb_end(b) > e {
        assert(b[e] >= 128);
    }
}

/// The value of a LEB128 item depends only on the octets it spans.
proof fn lemma_leb_value_prefix(a: Seq<u8>, b: Seq<u8>, n: int)
    requires
        0 <= n <= a.len() <= b.len(),
        b.take(a.len() as int) == a,
    ensures
        leb_value(b, n) == leb_value(a, n),
    decreases n,
{
    if n > 0 {
        assert(b[0] == a[0]);
        assert(b.skip(1).take(a.skip(1).len() as int) =~= a.skip(1));
        lemma_leb_value_prefix(a.skip(1), b.skip(1), n - 1);
    }
}

} // verus!
