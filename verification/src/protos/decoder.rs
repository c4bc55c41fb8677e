//! The `proto3` decoder: primitives that read single values, typed
//! projections of raw field payloads, and a streaming [`Decoder`] that
//! suspends on short input and resumes without corrupting state.

use vstd::prelude::*;

verus! {

use vstd::arithmetic::power2::pow2;
use vstd::arithmetic::power2::lemma2_to64;
use vstd::arithmetic::power2::lemma2_to64_rest;
use vstd::slice::slice_subrange;
use vstd::slice::slice_index_get;
use crate::wire::leb_value;
use crate::wire::leb_end;
use crate::wire::lemma_leb_end;
use crate::wire::le_value;
use crate::wire::u32_to_i32;
use crate::wire::u64_to_i64;
use crate::wire::i32_from_bits;
use crate::wire::i64_from_bits;
use crate::wire::pow2_u64;
use crate::wire::lemma_leb_value_step;
use crate::wire::lemma_leb_value_bound;
use crate::wire::lemma_le_value_step;
use crate::wire::lemma_le_value_bound;
use crate::protos::typ::Typ;
use crate::protos::typ::typ_of;

/// Contains error options that can be encountered while performing the
/// decoding operations.
#[derive(Clone, Copy, Debug, PartialEq, Eq, Structural)]
pub enum DecoderError {
    /// Indicates that the decoder received an invalid stream of bytes that
    /// can not be decoded.
    InvalidInput,
    /// Indicates an I/O interruption in a surrounding reader. The verified
    /// decoder itself reads only from byte buffers and never produces it.
    Interrupted,
    /// Indicates that the buffer from which an item was supposed to be
    /// decoded does not contain enough octets to complete the decoding.
    InputUnderflow,
    /// Indicates a field key whose tag number is zero.
    InvalidTag,
}

/// A decoded varint: the value truncated to 64 bits and the number of octets
/// read, or the error mandated for the buffer.
///
/// Decoding fails with [`DecoderError::InvalidInput`] when the continuation
/// does not terminate within ten octets, and with
/// [`DecoderError::InputUnderflow`] when the buffer ends first.
pub open spec fn leb_result(s: Seq<u8>) -> Result<(u64, int), DecoderError> {
    let e = leb_end(s);
    if e < s.len() && e < 10 {
        Ok(((leb_value(s, e + 1) % 0x1_0000_0000_0000_0000) as u64, e + 1))
    } else if s.len() >= 10 {
        Err(DecoderError::InvalidInput)
    } else {
        Err(DecoderError::InputUnderflow)
    }
}

/// The tenth octet of a varint can only contribute its lowest value bit.
proof fn lemma_leb_tenth_octet(s: Seq<u8>, acc: nat)
    requires
        s.len() >= 10,
        acc == leb_value(s, 9),
    ensures
        leb_value(s, 10) % 0x1_0000_0000_0000_0000 == acc + ((s[9] % 128) as nat % 2) * 0x8000_0000_0000_0000,
{
    lemma2_to64();
    lemma2_to64_rest();
    lemma_leb_value_bound(s, 9);
    assert(pow2(63) == 0x8000_0000_0000_0000);
    lemma_leb_value_step(s, 9);
    let b = (s[9] % 128) as nat;
    let q = b / 2;
    let r = b % 2;
    assert(leb_value(s, 10) == acc + b * pow2(63));
    assert(b * 0x8000_0000_0000_0000 == q * 0x1_0000_0000_0000_0000 + r
        * 0x8000_0000_0000_0000) by (nonlinear_arith)
        requires
            q == b / 2,
            r == b % 2,
    ;
    assert((acc + r * 0x8000_0000_0000_0000) + q * 0x1_0000_0000_0000_0000 == leb_value(s, 10));
    assert(acc + r * 0x8000_0000_0000_0000 < 0x1_0000_0000_0000_0000);
    vstd::arithmetic::div_mod::lemma_mod_multiples_vanish(
        q as int,
        (acc + r * 0x8000_0000_0000_0000) as int,
        0x1_0000_0000_0000_0000,
    );
    vstd::arithmetic::div_mod::lemma_small_mod(
        acc + r * 0x8000_0000_0000_0000,
        0x1_0000_0000_0000_0000,
    );
}

/// Decodes a LEB128 encoded number from the provided `buf` and writes the
/// result into `dst`.
///
/// All octets except the last have the most significant bit set, so that the
/// decoder can determine where the value ends; the other seven bits of each
/// octet carry the value, least significant group first. A continuation that
/// does not terminate within ten octets is rejected.
///
/// On success, the number of read bytes is returned; on failure `dst` is
/// left unchanged.
#[verifier::loop_isolation(false)]
pub fn decode_varint(buf: &[u8], dst: &mut u64) -> (r: Result<usize, DecoderError>)
    ensures
        match leb_result(buf@) {
            Ok((v, n)) => r == Ok::<usize, DecoderError>(n as usize) && *final(dst) == v,
            Err(e) => r == Err::<usize, DecoderError>(e) && *final(dst) == *old(dst),
        },
{
    proof {
        lemma_leb_end(buf@);
        lemma2_to64();
        lemma2_to64_rest();
    }
    let ghost e = leb_end(buf@);
    let mut value: u64 = 0;
    let mut p: u64 = 1;
    let mut count: usize = 0;
    loop
        invariant
            0 <= count <= 9,
            count <= e,
            value == leb_value(buf@, count as int),
            p == pow2((7 * count) as nat),
            leb_end(buf@) == e,
            0 <= e <= buf@.len(),
            e < buf@.len() ==> buf@[e] < 128,
            forall|j: int| 0 <= j < e ==> buf@[j] >= 128,
            *dst == *old(dst),
        decreases 10 - count,
    {
        if count >= buf.len() {
            return Err(DecoderError::InputUnderflow);
        }
        let byte: u8 = *slice_index_get(buf, count);
        proof {
            lemma_leb_value_bound(buf@, count as int);
            lemma_leb_value_step(buf@, count as int);
        }
        if count == 9 {
            if byte < 128 {
                proof {
                    lemma_leb_tenth_octet(buf@, value as nat);
                    assert(e == 9);
                }
                *dst = value + ((byte % 2) as u64) * 0x8000_0000_0000_0000;
                return Ok(10);
            } else {
                proof {
                    assert(e >= 10);
                    assert(buf@.len() >= 10);
                }
                return Err(DecoderError::InvalidInput);
            }
        }
        if byte < 128 {
            proof {
                assert(e == count);
                assert(((byte % 128) as nat) * pow2((7 * count) as nat) == (byte as nat) * (
                p as nat));
                assert((byte as nat) * (p as nat) < 128 * pow2((7 * count) as nat))
                    by (nonlinear_arith)
                    requires
                        (byte as nat) < 128,
                        (p as nat) >= 1,
                        p == pow2((7 * count) as nat),
                ;
                assert(128 * pow2((7 * count) as nat) == pow2((7 * (count + 1)) as nat)) by {
                    vstd::arithmetic::power2::lemma_pow2_adds(7, (7 * count) as nat);
                    lemma2_to64();
                }
                assert(leb_value(buf@, count + 1) < pow2((7 * (count + 1)) as nat)) by {
                    lemma_leb_value_bound(buf@, count + 1);
                }
                assert(leb_value(buf@, count + 1) < pow2(63)) by {
                    lemma_leb_value_bound(buf@, count + 1);
                    if 7 * (count + 1) < 63 {
                        vstd::arithmetic::power2::lemma_pow2_strictly_increases(
                            (7 * (count + 1)) as nat,
                            63,
                        );
                    }
                }
                vstd::arithmetic::div_mod::lemma_small_mod(
                    leb_value(buf@, count + 1),
                    0x1_0000_0000_0000_0000,
                );
            }
            *dst = value + (byte as u64) * p;
            return Ok(count + 1);
        }
        proof {
            assert(e > count);
            assert(((byte % 128) as nat) * pow2((7 * count) as nat) <= 127 * pow2(
                (7 * count) as nat)) by (nonlinear_arith)
                requires
                    ((byte % 128) as nat) <= 127,
                    pow2((7 * count) as nat) >= 1,
            ;
            assert(pow2((7 * count) as nat) >= 1) by {
                vstd::arithmetic::power2::lemma_pow2_pos((7 * count) as nat);
            }
            assert(128 * pow2((7 * count) as nat) == pow2((7 * (count + 1)) as nat)) by {
                vstd::arithmetic::power2::lemma_pow2_adds(7, (7 * count) as nat);
                lemma2_to64();
            }
            assert(pow2((7 * (count + 1)) as nat) <= pow2(63)) by {
                if 7 * (count + 1) < 63 {
                    vstd::arithmetic::power2::lemma_pow2_strictly_increases(
                        (7 * (count + 1)) as nat,
                        63,
                    );
                }
            }
        }
        value = value + ((byte % 128) as u64) * p;
        if count < 8 {
            proof {
                assert(128 * pow2((7 * count) as nat) == pow2((7 * (count + 1)) as nat)) by {
                    vstd::arithmetic::power2::lemma_pow2_adds(7, (7 * count) as nat);
                    lemma2_to64();
                }
                assert(pow2((7 * (count + 1)) as nat) <= pow2(63)) by {
                    if 7 * (count + 1) < 63 {
                        vstd::arithmetic::power2::lemma_pow2_strictly_increases(
                            (7 * (count + 1)) as nat,
                            63,
                        );
                    }
                }
            }
            p = p * 128;
        } else {
            proof {
                vstd::arithmetic::power2::lemma_pow2_adds(7, 56);
            }
            p = p * 128;
        }
        count = count + 1;
    }
}


/// The result of a decoded field key: `(tag, wire type)` and the octets read.
///
/// A key whose varint exceeds 32 bits or whose wire type is not one of `0`,
/// `1`, `2`, `5` is [`DecoderError::InvalidInput`]; a key with tag number
/// zero is [`DecoderError::InvalidTag`].
pub open spec fn key_result(s: Seq<u8>) -> Result<((u32, Typ), int), DecoderError> {
    match leb_result(s) {
        Ok((k, n)) => if k > 0xFFFF_FFFFu64 {
            Err(DecoderError::InvalidInput)
        } else if k / 8 == 0 {
            Err(DecoderError::InvalidTag)
        } else if typ_of((k % 8) as nat) == Typ::Unknown {
            Err(DecoderError::InvalidInput)
        } else {
            Ok((((k / 8) as u32, typ_of((k % 8) as nat)), n))
        },
        Err(e) => Err(e),
    }
}

/// Decodes an encoded field key from the provided `buf` and writes the
/// resulting `(tag, wire type)` pair into `dst`.
///
/// The key is a varint whose low three bits carry the wire type and whose
/// upper bits carry the tag number, which must lie in `1 ..= 2^29 - 1`.
///
/// On success, the number of read bytes is returned; on failure `dst` is
/// left unchanged.
pub fn decode_key(buf: &[u8], dst: &mut (u32, Typ)) -> (r: Result<usize, DecoderError>)
    ensures
        match key_result(buf@) {
            Ok((kv, n)) => r == Ok::<usize, DecoderError>(n as usize) && *final(dst) == kv,
            Err(e) => r == Err::<usize, DecoderError>(e) && *final(dst) == *old(dst),
        },
{
    let mut key: u64 = 0;
    let size: usize = match decode_varint(buf, &mut key) {
        Ok(n) => n,
        Err(e) => {
            return Err(e);
        },
    };
    if key > 0xFFFF_FFFF {
        return Err(DecoderError::InvalidInput);
    }
    let tag: u32 = (key / 8) as u32;
    if tag == 0 {
        return Err(DecoderError::InvalidTag);
    }
    let typ: Typ = Typ::from_value(key % 8);
    if matches!(typ, Typ::Unknown) {
        return Err(DecoderError::InvalidInput);
    }
    *dst = (tag, typ);
    Ok(size)
}

/// The `bool` a varint value stands for.
pub open spec fn wire_bool(v: u64) -> bool {
    v != 0
}

/// The `int32` reading of a varint value: the low 32 bits reinterpreted as a
/// signed number.
pub open spec fn wire_i32(v: u64) -> i32 {
    u32_to_i32((v % 0x1_0000_0000) as u32)
}

/// The `uint32` reading of a varint value: the low 32 bits.
pub open spec fn wire_u32(v: u64) -> u32 {
    (v % 0x1_0000_0000) as u32
}

/// The `sint32` reading of a varint value: the inverse ZigZag image of its
/// low bits.
pub open spec fn wire_sint32(v: u64) -> i32 {
    if v % 2 == 0 {
        wire_i32(v / 2)
    } else {
        (-(wire_i32(v / 2) as int) - 1) as i32
    }
}

/// The `sint64` reading of a varint value: its inverse ZigZag image.
pub open spec fn wire_sint64(v: u64) -> i64 {
    if v % 2 == 0 {
        (v / 2) as i64
    } else {
        (-((v / 2) as int) - 1) as i64
    }
}

/// Decodes an encoded `bool` value from the provided `buf` and writes the
/// result into `dst`.
///
/// On success, the number of read bytes is returned; on failure `dst` is
/// left unchanged.
pub fn decode_bool(buf: &[u8], dst: &mut bool) -> (r: Result<usize, DecoderError>)
    ensures
        match leb_result(buf@) {
            Ok((v, n)) => r == Ok::<usize, DecoderError>(n as usize) && *final(dst) == wire_bool(
                v),
            Err(e) => r == Err::<usize, DecoderError>(e) && *final(dst) == *old(dst),
        },
{
    let mut val: u64 = 0;
    let size: usize = match decode_varint(buf, &mut val) {
        Ok(n) => n,
        Err(e) => {
            return Err(e);
        },
    };
    *dst = val != 0;
    Ok(size)
}

/// Decodes an encoded `int32` value from the provided `buf` and writes the
/// result into `dst`.
///
/// On success, the number of read bytes is returned; on failure `dst` is
/// left unchanged.
pub fn decode_int32(buf: &[u8], dst: &mut i32) -> (r: Result<usize, DecoderError>)
    ensures
        match leb_result(buf@) {
            Ok((v, n)) => r == Ok::<usize, DecoderError>(n as usize) && *final(dst) == wire_i32(
                v),
            Err(e) => r == Err::<usize, DecoderError>(e) && *final(dst) == *old(dst),
        },
{
    let mut val: u64 = 0;
    let size: usize = match decode_varint(buf, &mut val) {
        Ok(n) => n,
        Err(e) => {
            return Err(e);
        },
    };
    *dst = i32_from_bits((val % 0x1_0000_0000) as u32);
    Ok(size)
}

/// Decodes an encoded `int64` value from the provided `buf` and writes the
/// result into `dst`.
///
/// On success, the number of read bytes is returned; on failure `dst` is
/// left unchanged.
pub fn decode_int64(buf: &[u8], dst: &mut i64) -> (r: Result<usize, DecoderError>)
    ensures
        match leb_result(buf@) {
            Ok((v, n)) => r == Ok::<usize, DecoderError>(n as usize) && *final(dst)
                == u64_to_i64(v),
            Err(e) => r == Err::<usize, DecoderError>(e) && *final(dst) == *old(dst),
        },
{
    let mut val: u64 = 0;
    let size: usize = match decode_varint(buf, &mut val) {
        Ok(n) => n,
        Err(e) => {
            return Err(e);
        },
    };
    *dst = i64_from_bits(val);
    Ok(size)
}

/// Decodes an encoded `uint32` value from the provided `buf` and writes the
/// result into `dst`.
///
/// On success, the number of read bytes is returned; on failure `dst` is
/// left unchanged.
pub fn decode_uint32(buf: &[u8], dst: &mut u32) -> (r: Result<usize, DecoderError>)
    ensures
        match leb_result(buf@) {
            Ok((v, n)) => r == Ok::<usize, DecoderError>(n as usize) && *final(dst) == wire_u32(
                v),
            Err(e) => r == Err::<usize, DecoderError>(e) && *final(dst) == *old(dst),
        },
{
    let mut val: u64 = 0;
    let size: usize = match decode_varint(buf, &mut val) {
        Ok(n) => n,
        Err(e) => {
            return Err(e);
        },
    };
    *dst = (val % 0x1_0000_0000) as u32;
    Ok(size)
}

/// Decodes an encoded `uint64` value from the provided `buf` and writes the
/// result into `dst`.
///
/// On success, the number of read bytes is returned; on failure `dst` is
/// left unchanged.
pub fn decode_uint64(buf: &[u8], dst: &mut u64) -> (r: Result<usize, DecoderError>)
    ensures
        match leb_result(buf@) {
            Ok((v, n)) => r == Ok::<usize, DecoderError>(n as usize) && *final(dst) == v,
            Err(e) => r == Err::<usize, DecoderError>(e) && *final(dst) == *old(dst),
        },
{
    decode_varint(buf, dst)
}

/// Decodes an encoded `sint32` value from the provided `buf` and writes the
/// result into `dst`.
///
/// The value is stored as a ZigZag varint, so small magnitudes of either
/// sign occupy few octets.
///
/// On success, the number of read bytes is returned; on failure `dst` is
/// left unchanged.
pub fn decode_sint32(buf: &[u8], dst: &mut i32) -> (r: Result<usize, DecoderError>)
    ensures
        match leb_result(buf@) {
            Ok((v, n)) => r == Ok::<usize, DecoderError>(n as usize) && *final(dst)
                == wire_sint32(v),
            Err(e) => r == Err::<usize, DecoderError>(e) && *final(dst) == *old(dst),
        },
{
    let mut val: u64 = 0;
    let size: usize = match decode_varint(buf, &mut val) {
        Ok(n) => n,
        Err(e) => {
            return Err(e);
        },
    };
    let half: i32 = i32_from_bits(((val / 2) % 0x1_0000_0000) as u32);
    if val % 2 == 0 {
        *dst = half;
    } else {
        *dst = ((-(half as i64)) - 1) as i32;
    }
    Ok(size)
}

/// Decodes an encoded `sint64` value from the provided `buf` and writes the
/// result into `dst`.
///
/// The value is stored as a ZigZag varint, so small magnitudes of either
/// sign occupy few octets.
///
/// On success, the number of read bytes is returned; on failure `dst` is
/// left unchanged.
pub fn decode_sint64(buf: &[u8], dst: &mut i64) -> (r: Result<usize, DecoderError>)
    ensures
        match leb_result(buf@) {
            Ok((v, n)) => r == Ok::<usize, DecoderError>(n as usize) && *final(dst)
                == wire_sint64(v),
            Err(e) => r == Err::<usize, DecoderError>(e) && *final(dst) == *old(dst),
        },
{
    let mut val: u64 = 0;
    let size: usize = match decode_varint(buf, &mut val) {
        Ok(n) => n,
        Err(e) => {
            return Err(e);
        },
    };
    let half: i64 = (val / 2) as i64;
    if val % 2 == 0 {
        *dst = half;
    } else {
        *dst = ((-(half as i128)) - 1) as i64;
    }
    Ok(size)
}

/// Reads the first `w` octets of `buf` as a little-endian integer.
#[verifier::loop_isolation(false)]
fn read_le(buf: &[u8], w: usize) -> (r: u64)
    requires
        1 <= w <= 8,
        buf@.len() >= w,
    ensures
        r == le_value(buf@.take(w as int)),
{
    proof {
        lemma2_to64();
        lemma2_to64_rest();
    }
    let mut value: u64 = 0;
    let mut i: usize = 0;
    while i < w
        invariant
            0 <= i <= w,
            value == le_value(buf@.take(i as int)),
        decreases w - i,
    {
        proof {
            assert(buf@.take(0int) =~= Seq::<u8>::empty());
            lemma_le_value_step(buf@, i as int);
            lemma_le_value_bound(buf@.take(i as int));
            lemma_le_value_bound(buf@.take(i + 1 as int));
            assert(pow2((8 * (i + 1)) as nat) <= pow2(64)) by {
                if 8 * (i + 1) < 64 {
                    vstd::arithmetic::power2::lemma_pow2_strictly_increases(
                        (8 * (i + 1)) as nat,
                        64,
                    );
                }
            }
        }
        let byte: u8 = *slice_index_get(buf, i);
        value = value + (byte as u64) * pow2_u64(8 * (i as u64));
        i = i + 1;
    }
    value
}

/// Decodes an encoded `fixed32` value — four little-endian octets — from the
/// provided `buf` and writes the result into `dst`.
///
/// On success, the number of read bytes is returned; on failure `dst` is
/// left unchanged.
pub fn decode_fixed32(buf: &[u8], dst: &mut u32) -> (r: Result<usize, DecoderError>)
    ensures
        buf@.len() >= 4 ==> r == Ok::<usize, DecoderError>(4usize) && *final(dst) == le_value(
            buf@.take(4)) as u32,
        buf@.len() < 4 ==> r == Err::<usize, DecoderError>(DecoderError::InputUnderflow)
            && *final(dst) == *old(dst),
{
    if buf.len() < 4 {
        return Err(DecoderError::InputUnderflow);
    }
    proof {
        lemma_le_value_bound(buf@.take(4));
        lemma2_to64();
    }
    *dst = read_le(buf, 4) as u32;
    Ok(4)
}

/// Decodes an encoded `fixed64` value — eight little-endian octets — from
/// the provided `buf` and writes the result into `dst`.
///
/// On success, the number of read bytes is returned; on failure `dst` is
/// left unchanged.
pub fn decode_fixed64(buf: &[u8], dst: &mut u64) -> (r: Result<usize, DecoderError>)
    ensures
        buf@.len() >= 8 ==> r == Ok::<usize, DecoderError>(8usize) && *final(dst) == le_value(
            buf@.take(8)),
        buf@.len() < 8 ==> r == Err::<usize, DecoderError>(DecoderError::InputUnderflow)
            && *final(dst) == *old(dst),
{
    if buf.len() < 8 {
        return Err(DecoderError::InputUnderflow);
    }
    *dst = read_le(buf, 8);
    Ok(8)
}

/// Decodes an encoded `sfixed32` value — a two's-complement pattern in four
/// little-endian octets — from the provided `buf` and writes the result into
/// `dst`.
///
/// On success, the number of read bytes is returned; on failure `dst` is
/// left unchanged.
pub fn decode_sfixed32(buf: &[u8], dst: &mut i32) -> (r: Result<usize, DecoderError>)
    ensures
        buf@.len() >= 4 ==> r == Ok::<usize, DecoderError>(4usize) && *final(dst) == u32_to_i32(
            le_value(buf@.take(4)) as u32),
        buf@.len() < 4 ==> r == Err::<usize, DecoderError>(DecoderError::InputUnderflow)
            && *final(dst) == *old(dst),
{
    if buf.len() < 4 {
        return Err(DecoderError::InputUnderflow);
    }
    proof {
        lemma_le_value_bound(buf@.take(4));
        lemma2_to64();
    }
    *dst = i32_from_bits(read_le(buf, 4) as u32);
    Ok(4)
}

/// Decodes an encoded `sfixed64` value — a two's-complement pattern in eight
/// little-endian octets — from the provided `buf` and writes the result into
/// `dst`.
///
/// On success, the number of read bytes is returned; on failure `dst` is
/// left unchanged.
pub fn decode_sfixed64(buf: &[u8], dst: &mut i64) -> (r: Result<usize, DecoderError>)
    ensures
        buf@.len() >= 8 ==> r == Ok::<usize, DecoderError>(8usize) && *final(dst) == u64_to_i64(
            le_value(buf@.take(8)) as u64),
        buf@.len() < 8 ==> r == Err::<usize, DecoderError>(DecoderError::InputUnderflow)
            && *final(dst) == *old(dst),
{
    if buf.len() < 8 {
        return Err(DecoderError::InputUnderflow);
    }
    *dst = i64_from_bits(read_le(buf, 8));
    Ok(8)
}

/// Reads the raw bytes of a varint value — through its terminating octet —
/// from the provided `buf` and appends them to `dst`.
///
/// On success, the number of read bytes is returned; on failure `dst` is
/// left unchanged.
#[verifier::loop_isolation(false)]
pub fn extract_varint(buf: &[u8], dst: &mut Vec<u8>) -> (r: Result<usize, DecoderError>)
    ensures
        leb_end(buf@) < buf@.len() ==> r == Ok::<usize, DecoderError>((leb_end(buf@)
            + 1) as usize) && final(dst)@ == old(dst)@ + buf@.take(leb_end(buf@) + 1),
        leb_end(buf@) == buf@.len() ==> r == Err::<usize, DecoderError>(
            DecoderError::InputUnderflow) && final(dst)@ == old(dst)@,
{
    proof {
        lemma_leb_end(buf@);
    }
    let ghost e = leb_end(buf@);
    let mut count: usize = 0;
    while count < buf.len() && *slice_index_get(buf, count) >= 128
        invariant
            0 <= count <= e,
        decreases buf@.len() - count,
    {
        count = count + 1;
    }
    if count >= buf.len() {
        return Err(DecoderError::InputUnderflow);
    }
    proof {
        assert(count == e);
    }
    let mut piece: Vec<u8> = vstd::slice::slice_to_vec(slice_subrange(buf, 0, count + 1));
    dst.append(&mut piece);
    Ok(count + 1)
}

/// Reads the four raw bytes of a 32-bit value from the provided `buf` and
/// appends them to `dst`.
///
/// On success, the number of read bytes is returned; on failure `dst` is
/// left unchanged.
pub fn extract_bit32(buf: &[u8], dst: &mut Vec<u8>) -> (r: Result<usize, DecoderError>)
    ensures
        buf@.len() >= 4 ==> r == Ok::<usize, DecoderError>(4usize) && final(dst)@ == old(dst)@
            + buf@.take(4),
        buf@.len() < 4 ==> r == Err::<usize, DecoderError>(DecoderError::InputUnderflow)
            && final(dst)@ == old(dst)@,
{
    if buf.len() < 4 {
        return Err(DecoderError::InputUnderflow);
    }
    let mut piece: Vec<u8> = vstd::slice::slice_to_vec(slice_subrange(buf, 0, 4));
    dst.append(&mut piece);
    Ok(4)
}

/// Reads the eight raw bytes of a 64-bit value from the provided `buf` and
/// appends them to `dst`.
///
/// On success, the number of read bytes is returned; on failure `dst` is
/// left unchanged.
pub fn extract_bit64(buf: &[u8], dst: &mut Vec<u8>) -> (r: Result<usize, DecoderError>)
    ensures
        buf@.len() >= 8 ==> r == Ok::<usize, DecoderError>(8usize) && final(dst)@ == old(dst)@
            + buf@.take(8),
        buf@.len() < 8 ==> r == Err::<usize, DecoderError>(DecoderError::InputUnderflow)
            && final(dst)@ == old(dst)@,
{
    if buf.len() < 8 {
        return Err(DecoderError::InputUnderflow);
    }
    let mut piece: Vec<u8> = vstd::slice::slice_to_vec(slice_subrange(buf, 0, 8));
    dst.append(&mut piece);
    Ok(8)
}

/// Reads `size` raw bytes of a length-delimited value from the provided
/// `buf` and appends them to `dst`.
///
/// On success, the number of read bytes is returned; on failure `dst` is
/// left unchanged.
pub fn extract_ld(buf: &[u8], size: u64, dst: &mut Vec<u8>) -> (r: Result<usize, DecoderError>)
    ensures
        buf@.len() >= size ==> r == Ok::<usize, DecoderError>(size as usize) && final(dst)@
            == old(dst)@ + buf@.take(size as int),
        buf@.len() < size ==> r == Err::<usize, DecoderError>(DecoderError::InputUnderflow)
            && final(dst)@ == old(dst)@,
{
    if (buf.len() as u64) < size {
        return Err(DecoderError::InputUnderflow);
    }
    let mut piece: Vec<u8> = vstd::slice::slice_to_vec(slice_subrange(buf, 0, size as usize));
    dst.append(&mut piece);
    Ok(size as usize)
}


/// The `bool` values packed into a repeated-field payload, or the error of
/// the first element that fails to decode.
pub open spec fn bool_list_result(s: Seq<u8>) -> Result<Seq<bool>, DecoderError>
    decreases s.len(),
{
    if s.len() == 0 {
        Ok(Seq::empty())
    } else {
        match leb_result(s) {
            Ok((v, n)) => if 1 <= n <= s.len() {
                match bool_list_result(s.skip(n)) {
                    Ok(vs) => Ok(seq![wire_bool(v)] + vs),
                    Err(e) => Err(e),
                }
            } else {
                Err(DecoderError::InvalidInput)
            },
            Err(e) => Err(e),
        }
    }
}

/// Decodes a packed repeated `bool` payload from the provided `buf` and
/// appends the values to `dst`.
///
/// On success, the number of read bytes is returned; on failure `dst` is
/// left unchanged.
#[verifier::loop_isolation(false)]
pub fn decode_bool_list(buf: &[u8], dst: &mut Vec<bool>) -> (r: Result<usize, DecoderError>)
    ensures
        buf@.len() == 0 ==> r == Err::<usize, DecoderError>(DecoderError::InputUnderflow)
            && final(dst)@ == old(dst)@,
        buf@.len() > 0 ==> match bool_list_result(buf@) {
            Ok(vs) => r == Ok::<usize, DecoderError>(buf@.len() as usize) && final(dst)@ == old(
                dst)@ + vs,
            Err(e) => r == Err::<usize, DecoderError>(e) && final(dst)@ == old(dst)@,
        },
{
    let total: usize = buf.len();
    if total == 0 {
        return Err(DecoderError::InputUnderflow);
    }
    let mut size: usize = 0;
    proof {
        assert(buf@.skip(0) =~= buf@);
    }
    let mut items: Vec<bool> = Vec::new();
    while size < total
        invariant
            0 <= size <= total,
            match bool_list_result(buf@.skip(size as int)) {
                Ok(vs) => bool_list_result(buf@) == Ok::<Seq<bool>, DecoderError>(items@ + vs),
                Err(e) => bool_list_result(buf@) == Err::<Seq<bool>, DecoderError>(e),
            },
        decreases total - size,
    {
        let rest = slice_subrange(buf, size, total);
        proof {
            assert(rest@ =~= buf@.skip(size as int));
            lemma_leb_end(rest@);
        }
        let mut val: bool = false;
        let n: usize = match decode_bool(rest, &mut val) {
            Ok(n) => n,
            Err(e) => {
                return Err(e);
            },
        };
        let ghost prev = items@;
        items.push(val);
        proof {
            assert(items@ =~= prev.push(val));
            assert(buf@.skip(size as int).skip(n as int) =~= buf@.skip(size + n));
            match bool_list_result(buf@.skip(size + n)) {
                Ok(vs) => {
                    assert(bool_list_result(buf@.skip(size as int)) == Ok::<
                        Seq<bool>,
                        DecoderError,
                    >(seq![val] + vs));
                    assert(items@ + vs =~= prev + (seq![val] + vs));
                    assert(bool_list_result(buf@) == Ok::<Seq<bool>, DecoderError>(items@ + vs));
                },
                Err(e) => {
                    assert(bool_list_result(buf@.skip(size as int)) == Err::<
                        Seq<bool>,
                        DecoderError,
                    >(e));
                },
            }
        }
        size = size + n;
    }
    proof {
        assert(buf@.skip(total as int) =~= Seq::<u8>::empty());
    }
    dst.append(&mut items);
    Ok(size)
}

/// The `int32` values packed into a repeated-field payload, or the error of
/// the first element that fails to decode.
pub open spec fn int32_list_result(s: Seq<u8>) -> Result<Seq<i32>, DecoderError>
    decreases s.len(),
{
    if s.len() == 0 {
        Ok(Seq::empty())
    } else {
        match leb_result(s) {
            Ok((v, n)) => if 1 <= n <= s.len() {
                match int32_list_result(s.skip(n)) {
                    Ok(vs) => Ok(seq![wire_i32(v)] + vs),
                    Err(e) => Err(e),
                }
            } else {
                Err(DecoderError::InvalidInput)
            },
            Err(e) => Err(e),
        }
    }
}

/// Decodes a packed repeated `int32` payload from the provided `buf` and
/// appends the values to `dst`.
///
/// On success, the number of read bytes is returned; on failure `dst` is
/// left unchanged.
#[verifier::loop_isolation(false)]
pub fn decode_int32_list(buf: &[u8], dst: &mut Vec<i32>) -> (r: Result<usize, DecoderError>)
    ensures
        buf@.len() == 0 ==> r == Err::<usize, DecoderError>(DecoderError::InputUnderflow)
            && final(dst)@ == old(dst)@,
        buf@.len() > 0 ==> match int32_list_result(buf@) {
            Ok(vs) => r == Ok::<usize, DecoderError>(buf@.len() as usize) && final(dst)@ == old(
                dst)@ + vs,
            Err(e) => r == Err::<usize, DecoderError>(e) && final(dst)@ == old(dst)@,
        },
{
    let total: usize = buf.len();
    if total == 0 {
        return Err(DecoderError::InputUnderflow);
    }
    let mut size: usize = 0;
    proof {
        assert(buf@.skip(0) =~= buf@);
    }
    let mut items: Vec<i32> = Vec::new();
    while size < total
        invariant
            0 <= size <= total,
            match int32_list_result(buf@.skip(size as int)) {
                Ok(vs) => int32_list_result(buf@) == Ok::<Seq<i32>, DecoderError>(items@ + vs),
                Err(e) => int32_list_result(buf@) == Err::<Seq<i32>, DecoderError>(e),
            },
        decreases total - size,
    {
        let rest = slice_subrange(buf, size, total);
        proof {
            assert(rest@ =~= buf@.skip(size as int));
            lemma_leb_end(rest@);
        }
        let mut val: i32 = 0;
        let n: usize = match decode_int32(rest, &mut val) {
            Ok(n) => n,
            Err(e) => {
                return Err(e);
            },
        };
        let ghost prev = items@;
        items.push(val);
        proof {
            assert(items@ =~= prev.push(val));
            assert(buf@.skip(size as int).skip(n as int) =~= buf@.skip(size + n));
            match int32_list_result(buf@.skip(size + n)) {
                Ok(vs) => {
                    assert(int32_list_result(buf@.skip(size as int)) == Ok::<
                        Seq<i32>,
                        DecoderError,
                    >(seq![val] + vs));
                    assert(items@ + vs =~= prev + (seq![val] + vs));
                    assert(int32_list_result(buf@) == Ok::<Seq<i32>, DecoderError>(items@ + vs));
                },
                Err(e) => {
                    assert(int32_list_result(buf@.skip(size as int)) == Err::<
                        Seq<i32>,
                        DecoderError,
                    >(e));
                },
            }
        }
        size = size + n;
    }
    proof {
        assert(buf@.skip(total as int) =~= Seq::<u8>::empty());
    }
    dst.append(&mut items);
    Ok(size)
}

/// The `int64` values packed into a repeated-field payload, or the error of
/// the first element that fails to decode.
pub open spec fn int64_list_result(s: Seq<u8>) -> Result<Seq<i64>, DecoderError>
    decreases s.len(),
{
    if s.len() == 0 {
        Ok(Seq::empty())
    } else {
        match leb_result(s) {
            Ok((v, n)) => if 1 <= n <= s.len() {
                match int64_list_result(s.skip(n)) {
                    Ok(vs) => Ok(seq![u64_to_i64(v)] + vs),
                    Err(e) => Err(e),
                }
            } else {
                Err(DecoderError::InvalidInput)
            },
            Err(e) => Err(e),
        }
    }
}

/// Decodes a packed repeated `int64` payload from the provided `buf` and
/// appends the values to `dst`.
///
/// On success, the number of read bytes is returned; on failure `dst` is
/// left unchanged.
#[verifier::loop_isolation(false)]
pub fn decode_int64_list(buf: &[u8], dst: &mut Vec<i64>) -> (r: Result<usize, DecoderError>)
    ensures
        buf@.len() == 0 ==> r == Err::<usize, DecoderError>(DecoderError::InputUnderflow)
            && final(dst)@ == old(dst)@,
        buf@.len() > 0 ==> match int64_list_result(buf@) {
            Ok(vs) => r == Ok::<usize, DecoderError>(buf@.len() as usize) && final(dst)@ == old(
                dst)@ + vs,
            Err(e) => r == Err::<usize, DecoderError>(e) && final(dst)@ == old(dst)@,
        },
{
    let total: usize = buf.len();
    if total == 0 {
        return Err(DecoderError::InputUnderflow);
    }
    let mut size: usize = 0;
    proof {
        assert(buf@.skip(0) =~= buf@);
    }
    let mut items: Vec<i64> = Vec::new();
    while size < total
        invariant
            0 <= size <= total,
            match int64_list_result(buf@.skip(size as int)) {
                Ok(vs) => int64_list_result(buf@) == Ok::<Seq<i64>, DecoderError>(items@ + vs),
                Err(e) => int64_list_result(buf@) == Err::<Seq<i64>, DecoderError>(e),
            },
        decreases total - size,
    {
        let rest = slice_subrange(buf, size, total);
        proof {
            assert(rest@ =~= buf@.skip(size as int));
            lemma_leb_end(rest@);
        }
        let mut val: i64 = 0;
        let n: usize = match decode_int64(rest, &mut val) {
            Ok(n) => n,
            Err(e) => {
                return Err(e);
            },
        };
        let ghost prev = items@;
        items.push(val);
        proof {
            assert(items@ =~= prev.push(val));
            assert(buf@.skip(size as int).skip(n as int) =~= buf@.skip(size + n));
            match int64_list_result(buf@.skip(size + n)) {
                Ok(vs) => {
                    assert(int64_list_result(buf@.skip(size as int)) == Ok::<
                        Seq<i64>,
                        DecoderError,
                    >(seq![val] + vs));
                    assert(items@ + vs =~= prev + (seq![val] + vs));
                    assert(int64_list_result(buf@) == Ok::<Seq<i64>, DecoderError>(items@ + vs));
                },
                Err(e) => {
                    assert(int64_list_result(buf@.skip(size as int)) == Err::<
                        Seq<i64>,
                        DecoderError,
                    >(e));
                },
            }
        }
        size = size + n;
    }
    proof {
        assert(buf@.skip(total as int) =~= Seq::<u8>::empty());
    }
    dst.append(&mut items);
    Ok(size)
}

/// The `uint32` values packed into a repeated-field payload, or the error of
/// the first element that fails to decode.
pub open spec fn uint32_list_result(s: Seq<u8>) -> Result<Seq<u32>, DecoderError>
    decreases s.len(),
{
    if s.len() == 0 {
        Ok(Seq::empty())
    } else {
        match leb_result(s) {
            Ok((v, n)) => if 1 <= n <= s.len() {
                match uint32_list_result(s.skip(n)) {
                    Ok(vs) => Ok(seq![wire_u32(v)] + vs),
                    Err(e) => Err(e),
                }
            } else {
                Err(DecoderError::InvalidInput)
            },
            Err(e) => Err(e),
        }
    }
}

/// Decodes a packed repeated `uint32` payload from the provided `buf` and
/// appends the values to `dst`.
///
/// On success, the number of read bytes is returned; on failure `dst` is
/// left unchanged.
#[verifier::loop_isolation(false)]
pub fn decode_uint32_list(buf: &[u8], dst: &mut Vec<u32>) -> (r: Result<usize, DecoderError>)
    ensures
        buf@.len() == 0 ==> r == Err::<usize, DecoderError>(DecoderError::InputUnderflow)
            && final(dst)@ == old(dst)@,
        buf@.len() > 0 ==> match uint32_list_result(buf@) {
            Ok(vs) => r == Ok::<usize, DecoderError>(buf@.len() as usize) && final(dst)@ == old(
                dst)@ + vs,
            Err(e) => r == Err::<usize, DecoderError>(e) && final(dst)@ == old(dst)@,
        },
{
    let total: usize = buf.len();
    if total == 0 {
        return Err(DecoderError::InputUnderflow);
    }
    let mut size: usize = 0;
    proof {
        assert(buf@.skip(0) =~= buf@);
    }
    let mut items: Vec<u32> = Vec::new();
    while size < total
        invariant
            0 <= size <= total,
            match uint32_list_result(buf@.skip(size as int)) {
                Ok(vs) => uint32_list_result(buf@) == Ok::<Seq<u32>, DecoderError>(items@ + vs),
                Err(e) => uint32_list_result(buf@) == Err::<Seq<u32>, DecoderError>(e),
            },
        decreases total - size,
    {
        let rest = slice_subrange(buf, size, total);
        proof {
            assert(rest@ =~= buf@.skip(size as int));
            lemma_leb_end(rest@);
        }
        let mut val: u32 = 0;
        let n: usize = match decode_uint32(rest, &mut val) {
            Ok(n) => n,
            Err(e) => {
                return Err(e);
            },
        };
        let ghost prev = items@;
        items.push(val);
        proof {
            assert(items@ =~= prev.push(val));
            assert(buf@.skip(size as int).skip(n as int) =~= buf@.skip(size + n));
            match uint32_list_result(buf@.skip(size + n)) {
                Ok(vs) => {
                    assert(uint32_list_result(buf@.skip(size as int)) == Ok::<
                        Seq<u32>,
                        DecoderError,
                    >(seq![val] + vs));
                    assert(items@ + vs =~= prev + (seq![val] + vs));
                    assert(uint32_list_result(buf@) == Ok::<Seq<u32>, DecoderError>(items@ + vs));
                },
                Err(e) => {
                    assert(uint32_list_result(buf@.skip(size as int)) == Err::<
                        Seq<u32>,
                        DecoderError,
                    >(e));
                },
            }
        }
        size = size + n;
    }
    proof {
        assert(buf@.skip(total as int) =~= Seq::<u8>::empty());
    }
    dst.append(&mut items);
    Ok(size)
}

/// The `uint64` values packed into a repeated-field payload, or the error of
/// the first element that fails to decode.
pub open spec fn uint64_list_result(s: Seq<u8>) -> Result<Seq<u64>, DecoderError>
    decreases s.len(),
{
    if s.len() == 0 {
        Ok(Seq::empty())
    } else {
        match leb_result(s) {
            Ok((v, n)) => if 1 <= n <= s.len() {
                match uint64_list_result(s.skip(n)) {
                    Ok(vs) => Ok(seq![v] + vs),
                    Err(e) => Err(e),
                }
            } else {
                Err(DecoderError::InvalidInput)
            },
            Err(e) => Err(e),
        }
    }
}

/// Decodes a packed repeated `uint64` payload from the provided `buf` and
/// appends the values to `dst`.
///
/// On success, the number of read bytes is returned; on failure `dst` is
/// left unchanged.
#[verifier::loop_isolation(false)]
pub fn decode_uint64_list(buf: &[u8], dst: &mut Vec<u64>) -> (r: Result<usize, DecoderError>)
    ensures
        buf@.len() == 0 ==> r == Err::<usize, DecoderError>(DecoderError::InputUnderflow)
            && final(dst)@ == old(dst)@,
        buf@.len() > 0 ==> match uint64_list_result(buf@) {
            Ok(vs) => r == Ok::<usize, DecoderError>(buf@.len() as usize) && final(dst)@ == old(
                dst)@ + vs,
            Err(e) => r == Err::<usize, DecoderError>(e) && final(dst)@ == old(dst)@,
        },
{
    let total: usize = buf.len();
    if total == 0 {
        return Err(DecoderError::InputUnderflow);
    }
    let mut size: usize = 0;
    proof {
        assert(buf@.skip(0) =~= buf@);
    }
    let mut items: Vec<u64> = Vec::new();
    while size < total
        invariant
            0 <= size <= total,
            match uint64_list_result(buf@.skip(size as int)) {
                Ok(vs) => uint64_list_result(buf@) == Ok::<Seq<u64>, DecoderError>(items@ + vs),
                Err(e) => uint64_list_result(buf@) == Err::<Seq<u64>, DecoderError>(e),
            },
        decreases total - size,
    {
        let rest = slice_subrange(buf, size, total);
        proof {
            assert(rest@ =~= buf@.skip(size as int));
            lemma_leb_end(rest@);
        }
        let mut val: u64 = 0;
        let n: usize = match decode_uint64(rest, &mut val) {
            Ok(n) => n,
            Err(e) => {
                return Err(e);
            },
        };
        let ghost prev = items@;
        items.push(val);
        proof {
            assert(items@ =~= prev.push(val));
            assert(buf@.skip(size as int).skip(n as int) =~= buf@.skip(size + n));
            match uint64_list_result(buf@.skip(size + n)) {
                Ok(vs) => {
                    assert(uint64_list_result(buf@.skip(size as int)) == Ok::<
                        Seq<u64>,
                        DecoderError,
                    >(seq![val] + vs));
                    assert(items@ + vs =~= prev + (seq![val] + vs));
                    assert(uint64_list_result(buf@) == Ok::<Seq<u64>, DecoderError>(items@ + vs));
                },
                Err(e) => {
                    assert(uint64_list_result(buf@.skip(size as int)) == Err::<
                        Seq<u64>,
                        DecoderError,
                    >(e));
                },
            }
        }
        size = size + n;
    }
    proof {
        assert(buf@.skip(total as int) =~= Seq::<u8>::empty());
    }
    dst.append(&mut items);
    Ok(size)
}

/// The `sint32` values packed into a repeated-field payload, or the error of
/// the first element that fails to decode.
pub open spec fn sint32_list_result(s: Seq<u8>) -> Result<Seq<i32>, DecoderError>
    decreases s.len(),
{
    if s.len() == 0 {
        Ok(Seq::empty())
    } else {
        match leb_result(s) {
            Ok((v, n)) => if 1 <= n <= s.len() {
                match sint32_list_result(s.skip(n)) {
                    Ok(vs) => Ok(seq![wire_sint32(v)] + vs),
                    Err(e) => Err(e),
                }
            } else {
                Err(DecoderError::InvalidInput)
            },
            Err(e) => Err(e),
        }
    }
}

/// Decodes a packed repeated `sint32` payload from the provided `buf` and
/// appends the values to `dst`.
///
/// On success, the number of read bytes is returned; on failure `dst` is
/// left unchanged.
#[verifier::loop_isolation(false)]
pub fn decode_sint32_list(buf: &[u8], dst: &mut Vec<i32>) -> (r: Result<usize, DecoderError>)
    ensures
        buf@.len() == 0 ==> r == Err::<usize, DecoderError>(DecoderError::InputUnderflow)
            && final(dst)@ == old(dst)@,
        buf@.len() > 0 ==> match sint32_list_result(buf@) {
            Ok(vs) => r == Ok::<usize, DecoderError>(buf@.len() as usize) && final(dst)@ == old(
                dst)@ + vs,
            Err(e) => r == Err::<usize, DecoderError>(e) && final(dst)@ == old(dst)@,
        },
{
    let total: usize = buf.len();
    if total == 0 {
        return Err(DecoderError::InputUnderflow);
    }
    let mut size: usize = 0;
    proof {
        assert(buf@.skip(0) =~= buf@);
    }
    let mut items: Vec<i32> = Vec::new();
    while size < total
        invariant
            0 <= size <= total,
            match sint32_list_result(buf@.skip(size as int)) {
                Ok(vs) => sint32_list_result(buf@) == Ok::<Seq<i32>, DecoderError>(items@ + vs),
                Err(e) => sint32_list_result(buf@) == Err::<Seq<i32>, DecoderError>(e),
            },
        decreases total - size,
    {
        let rest = slice_subrange(buf, size, total);
        proof {
            assert(rest@ =~= buf@.skip(size as int));
            lemma_leb_end(rest@);
        }
        let mut val: i32 = 0;
        let n: usize = match decode_sint32(rest, &mut val) {
            Ok(n) => n,
            Err(e) => {
                return Err(e);
            },
        };
        let ghost prev = items@;
        items.push(val);
        proof {
            assert(items@ =~= prev.push(val));
            assert(buf@.skip(size as int).skip(n as int) =~= buf@.skip(size + n));
            match sint32_list_result(buf@.skip(size + n)) {
                Ok(vs) => {
                    assert(sint32_list_result(buf@.skip(size as int)) == Ok::<
                        Seq<i32>,
                        DecoderError,
                    >(seq![val] + vs));
                    assert(items@ + vs =~= prev + (seq![val] + vs));
                    assert(sint32_list_result(buf@) == Ok::<Seq<i32>, DecoderError>(items@ + vs));
                },
                Err(e) => {
                    assert(sint32_list_result(buf@.skip(size as int)) == Err::<
                        Seq<i32>,
                        DecoderError,
                    >(e));
                },
            }
        }
        size = size + n;
    }
    proof {
        assert(buf@.skip(total as int) =~= Seq::<u8>::empty());
    }
    dst.append(&mut items);
    Ok(size)
}

/// The `sint64` values packed into a repeated-field payload, or the error of
/// the first element that fails to decode.
pub open spec fn sint64_list_result(s: Seq<u8>) -> Result<Seq<i64>, DecoderError>
    decreases s.len(),
{
    if s.len() == 0 {
        Ok(Seq::empty())
    } else {
        match leb_result(s) {
            Ok((v, n)) => if 1 <= n <= s.len() {
                match sint64_list_result(s.skip(n)) {
                    Ok(vs) => Ok(seq![wire_sint64(v)] + vs),
                    Err(e) => Err(e),
                }
            } else {
                Err(DecoderError::InvalidInput)
            },
            Err(e) => Err(e),
        }
    }
}

/// Decodes a packed repeated `sint64` payload from the provided `buf` and
/// appends the values to `dst`.
///
/// On success, the number of read bytes is returned; on failure `dst` is
/// left unchanged.
#[verifier::loop_isolation(false)]
pub fn decode_sint64_list(buf: &[u8], dst: &mut Vec<i64>) -> (r: Result<usize, DecoderError>)
    ensures
        buf@.len() == 0 ==> r == Err::<usize, DecoderError>(DecoderError::InputUnderflow)
            && final(dst)@ == old(dst)@,
        buf@.len() > 0 ==> match sint64_list_result(buf@) {
            Ok(vs) => r == Ok::<usize, DecoderError>(buf@.len() as usize) && final(dst)@ == old(
                dst)@ + vs,
            Err(e) => r == Err::<usize, DecoderError>(e) && final(dst)@ == old(dst)@,
        },
{
    let total: usize = buf.len();
    if total == 0 {
        return Err(DecoderError::InputUnderflow);
    }
    let mut size: usize = 0;
    proof {
        assert(buf@.skip(0) =~= buf@);
    }
    let mut items: Vec<i64> = Vec::new();
    while size < total
        invariant
            0 <= size <= total,
            match sint64_list_result(buf@.skip(size as int)) {
                Ok(vs) => sint64_list_result(buf@) == Ok::<Seq<i64>, DecoderError>(items@ + vs),
                Err(e) => sint64_list_result(buf@) == Err::<Seq<i64>, DecoderError>(e),
            },
        decreases total - size,
    {
        let rest = slice_subrange(buf, size, total);
        proof {
            assert(rest@ =~= buf@.skip(size as int));
            lemma_leb_end(rest@);
        }
        let mut val: i64 = 0;
        let n: usize = match decode_sint64(rest, &mut val) {
            Ok(n) => n,
            Err(e) => {
                return Err(e);
            },
        };
        let ghost prev = items@;
        items.push(val);
        proof {
            assert(items@ =~= prev.push(val));
            assert(buf@.skip(size as int).skip(n as int) =~= buf@.skip(size + n));
            match sint64_list_result(buf@.skip(size + n)) {
                Ok(vs) => {
                    assert(sint64_list_result(buf@.skip(size as int)) == Ok::<
                        Seq<i64>,
                        DecoderError,
                    >(seq![val] + vs));
                    assert(items@ + vs =~= prev + (seq![val] + vs));
                    assert(sint64_list_result(buf@) == Ok::<Seq<i64>, DecoderError>(items@ + vs));
                },
                Err(e) => {
                    assert(sint64_list_result(buf@.skip(size as int)) == Err::<
                        Seq<i64>,
                        DecoderError,
                    >(e));
                },
            }
        }
        size = size + n;
    }
    proof {
        assert(buf@.skip(total as int) =~= Seq::<u8>::empty());
    }
    dst.append(&mut items);
    Ok(size)
}

/// The `fixed32` values packed into a repeated-field payload, or the error of
/// the first element that fails to decode.
pub open spec fn fixed32_list_result(s: Seq<u8>) -> Result<Seq<u32>, DecoderError>
    decreases s.len(),
{
    if s.len() == 0 {
        Ok(Seq::empty())
    } else if s.len() < 4 {
        Err(DecoderError::InputUnderflow)
    } else {
        match fixed32_list_result(s.skip(4)) {
            Ok(vs) => Ok(seq![le_value(s.take(4)) as u32] + vs),
            Err(e) => Err(e),
        }
    }
}

/// Decodes a packed repeated `fixed32` payload from the provided `buf` and
/// appends the values to `dst`.
///
/// On success, the number of read bytes is returned; on failure `dst` is
/// left unchanged.
#[verifier::loop_isolation(false)]
pub fn decode_fixed32_list(buf: &[u8], dst: &mut Vec<u32>) -> (r: Result<usize, DecoderError>)
    ensures
        buf@.len() == 0 ==> r == Err::<usize, DecoderError>(DecoderError::InputUnderflow)
            && final(dst)@ == old(dst)@,
        buf@.len() > 0 ==> match fixed32_list_result(buf@) {
            Ok(vs) => r == Ok::<usize, DecoderError>(buf@.len() as usize) && final(dst)@ == old(
                dst)@ + vs,
            Err(e) => r == Err::<usize, DecoderError>(e) && final(dst)@ == old(dst)@,
        },
{
    let total: usize = buf.len();
    if total == 0 {
        return Err(DecoderError::InputUnderflow);
    }
    let mut size: usize = 0;
    proof {
        assert(buf@.skip(0) =~= buf@);
    }
    let mut items: Vec<u32> = Vec::new();
    while size < total
        invariant
            0 <= size <= total,
            match fixed32_list_result(buf@.skip(size as int)) {
                Ok(vs) => fixed32_list_result(buf@) == Ok::<Seq<u32>, DecoderError>(items@ + vs),
                Err(e) => fixed32_list_result(buf@) == Err::<Seq<u32>, DecoderError>(e),
            },
        decreases total - size,
    {
        let rest = slice_subrange(buf, size, total);
        proof {
            assert(rest@ =~= buf@.skip(size as int));
        }
        let mut val: u32 = 0;
        let n: usize = match decode_fixed32(rest, &mut val) {
            Ok(n) => n,
            Err(e) => {
                return Err(e);
            },
        };
        let ghost prev = items@;
        items.push(val);
        proof {
            assert(items@ =~= prev.push(val));
            assert(buf@.skip(size as int).skip(4) =~= buf@.skip(size + 4));
            match fixed32_list_result(buf@.skip(size + 4)) {
                Ok(vs) => {
                    assert(fixed32_list_result(buf@.skip(size as int)) == Ok::<
                        Seq<u32>,
                        DecoderError,
                    >(seq![val] + vs));
                    assert(items@ + vs =~= prev + (seq![val] + vs));
                    assert(fixed32_list_result(buf@) == Ok::<Seq<u32>, DecoderError>(items@ + vs));
                },
                Err(e) => {
                    assert(fixed32_list_result(buf@.skip(size as int)) == Err::<
                        Seq<u32>,
                        DecoderError,
                    >(e));
                },
            }
        }
        size = size + n;
    }
    proof {
        assert(buf@.skip(total as int) =~= Seq::<u8>::empty());
    }
    dst.append(&mut items);
    Ok(size)
}

/// The `fixed64` values packed into a repeated-field payload, or the error of
/// the first element that fails to decode.
pub open spec fn fixed64_list_result(s: Seq<u8>) -> Result<Seq<u64>, DecoderError>
    decreases s.len(),
{
    if s.len() == 0 {
        Ok(Seq::empty())
    } else if s.len() < 8 {
        Err(DecoderError::InputUnderflow)
    } else {
        match fixed64_list_result(s.skip(8)) {
            Ok(vs) => Ok(seq![le_value(s.take(8)) as u64] + vs),
            Err(e) => Err(e),
        }
    }
}

/// Decodes a packed repeated `fixed64` payload from the provided `buf` and
/// appends the values to `dst`.
///
/// On success, the number of read bytes is returned; on failure `dst` is
/// left unchanged.
#[verifier::loop_isolation(false)]
pub fn decode_fixed64_list(buf: &[u8], dst: &mut Vec<u64>) -> (r: Result<usize, DecoderError>)
    ensures
        buf@.len() == 0 ==> r == Err::<usize, DecoderError>(DecoderError::InputUnderflow)
            && final(dst)@ == old(dst)@,
        buf@.len() > 0 ==> match fixed64_list_result(buf@) {
            Ok(vs) => r == Ok::<usize, DecoderError>(buf@.len() as usize) && final(dst)@ == old(
                dst)@ + vs,
            Err(e) => r == Err::<usize, DecoderError>(e) && final(dst)@ == old(dst)@,
        },
{
    let total: usize = buf.len();
    if total == 0 {
        return Err(DecoderError::InputUnderflow);
    }
    let mut size: usize = 0;
    proof {
        assert(buf@.skip(0) =~= buf@);
    }
    let mut items: Vec<u64> = Vec::new();
    while size < total
        invariant
            0 <= size <= total,
            match fixed64_list_result(buf@.skip(size as int)) {
                Ok(vs) => fixed64_list_result(buf@) == Ok::<Seq<u64>, DecoderError>(items@ + vs),
                Err(e) => fixed64_list_result(buf@) == Err::<Seq<u64>, DecoderError>(e),
            },
        decreases total - size,
    {
        let rest = slice_subrange(buf, size, total);
        proof {
            assert(rest@ =~= buf@.skip(size as int));
        }
        let mut val: u64 = 0;
        let n: usize = match decode_fixed64(rest, &mut val) {
            Ok(n) => n,
            Err(e) => {
                return Err(e);
            },
        };
        let ghost prev = items@;
        items.push(val);
        proof {
            assert(items@ =~= prev.push(val));
            assert(buf@.skip(size as int).skip(8) =~= buf@.skip(size + 8));
            match fixed64_list_result(buf@.skip(size + 8)) {
                Ok(vs) => {
                    assert(fixed64_list_result(buf@.skip(size as int)) == Ok::<
                        Seq<u64>,
                        DecoderError,
                    >(seq![val] + vs));
                    assert(items@ + vs =~= prev + (seq![val] + vs));
                    assert(fixed64_list_result(buf@) == Ok::<Seq<u64>, DecoderError>(items@ + vs));
                },
                Err(e) => {
                    assert(fixed64_list_result(buf@.skip(size as int)) == Err::<
                        Seq<u64>,
                        DecoderError,
                    >(e));
                },
            }
        }
        size = size + n;
    }
    proof {
        assert(buf@.skip(total as int) =~= Seq::<u8>::empty());
    }
    dst.append(&mut items);
    Ok(size)
}

/// The `sfixed32` values packed into a repeated-field payload, or the error of
/// the first element that fails to decode.
pub open spec fn sfixed32_list_result(s: Seq<u8>) -> Result<Seq<i32>, DecoderError>
    decreases s.len(),
{
    if s.len() == 0 {
        Ok(Seq::empty())
    } else if s.len() < 4 {
        Err(DecoderError::InputUnderflow)
    } else {
        match sfixed32_list_result(s.skip(4)) {
            Ok(vs) => Ok(seq![u32_to_i32(le_value(s.take(4)) as u32)] + vs),
            Err(e) => Err(e),
        }
    }
}

/// Decodes a packed repeated `sfixed32` payload from the provided `buf` and
/// appends the values to `dst`.
///
/// On success, the number of read bytes is returned; on failure `dst` is
/// left unchanged.
#[verifier::loop_isolation(false)]
pub fn decode_sfixed32_list(buf: &[u8], dst: &mut Vec<i32>) -> (r: Result<usize, DecoderError>)
    ensures
        buf@.len() == 0 ==> r == Err::<usize, DecoderError>(DecoderError::InputUnderflow)
            && final(dst)@ == old(dst)@,
        buf@.len() > 0 ==> match sfixed32_list_result(buf@) {
            Ok(vs) => r == Ok::<usize, DecoderError>(buf@.len() as usize) && final(dst)@ == old(
                dst)@ + vs,
            Err(e) => r == Err::<usize, DecoderError>(e) && final(dst)@ == old(dst)@,
        },
{
    let total: usize = buf.len();
    if total == 0 {
        return Err(DecoderError::InputUnderflow);
    }
    let mut size: usize = 0;
    proof {
        assert(buf@.skip(0) =~= buf@);
    }
    let mut items: Vec<i32> = Vec::new();
    while size < total
        invariant
            0 <= size <= total,
            match sfixed32_list_result(buf@.skip(size as int)) {
                Ok(vs) => sfixed32_list_result(buf@) == Ok::<Seq<i32>, DecoderError>(items@ + vs),
                Err(e) => sfixed32_list_result(buf@) == Err::<Seq<i32>, DecoderError>(e),
            },
        decreases total - size,
    {
        let rest = slice_subrange(buf, size, total);
        proof {
            assert(rest@ =~= buf@.skip(size as int));
        }
        let mut val: i32 = 0;
        let n: usize = match decode_sfixed32(rest, &mut val) {
            Ok(n) => n,
            Err(e) => {
                return Err(e);
            },
        };
        let ghost prev = items@;
        items.push(val);
        proof {
            assert(items@ =~= prev.push(val));
            assert(buf@.skip(size as int).skip(4) =~= buf@.skip(size + 4));
            match sfixed32_list_result(buf@.skip(size + 4)) {
                Ok(vs) => {
                    assert(sfixed32_list_result(buf@.skip(size as int)) == Ok::<
                        Seq<i32>,
                        DecoderError,
                    >(seq![val] + vs));
                    assert(items@ + vs =~= prev + (seq![val] + vs));
                    assert(sfixed32_list_result(buf@) == Ok::<Seq<i32>, DecoderError>(items@ + vs));
                },
                Err(e) => {
                    assert(sfixed32_list_result(buf@.skip(size as int)) == Err::<
                        Seq<i32>,
                        DecoderError,
                    >(e));
                },
            }
        }
        size = size + n;
    }
    proof {
        assert(buf@.skip(total as int) =~= Seq::<u8>::empty());
    }
    dst.append(&mut items);
    Ok(size)
}

/// The `sfixed64` values packed into a repeated-field payload, or the error of
/// the first element that fails to decode.
pub open spec fn sfixed64_list_result(s: Seq<u8>) -> Result<Seq<i64>, DecoderError>
    decreases s.len(),
{
    if s.len() == 0 {
        Ok(Seq::empty())
    } else if s.len() < 8 {
        Err(DecoderError::InputUnderflow)
    } else {
        match sfixed64_list_result(s.skip(8)) {
            Ok(vs) => Ok(seq![u64_to_i64(le_value(s.take(8)) as u64)] + vs),
            Err(e) => Err(e),
        }
    }
}

/// Decodes a packed repeated `sfixed64` payload from the provided `buf` and
/// appends the values to `dst`.
///
/// On success, the number of read bytes is returned; on failure `dst` is
/// left unchanged.
#[verifier::loop_isolation(false)]
pub fn decode_sfixed64_list(buf: &[u8], dst: &mut Vec<i64>) -> (r: Result<usize, DecoderError>)
    ensures
        buf@.len() == 0 ==> r == Err::<usize, DecoderError>(DecoderError::InputUnderflow)
            && final(dst)@ == old(dst)@,
        buf@.len() > 0 ==> match sfixed64_list_result(buf@) {
            Ok(vs) => r == Ok::<usize, DecoderError>(buf@.len() as usize) && final(dst)@ == old(
                dst)@ + vs,
            Err(e) => r == Err::<usize, DecoderError>(e) && final(dst)@ == old(dst)@,
        },
{
    let total: usize = buf.len();
    if total == 0 {
        return Err(DecoderError::InputUnderflow);
    }
    let mut size: usize = 0;
    proof {
        assert(buf@.skip(0) =~= buf@);
    }
    let mut items: Vec<i64> = Vec::new();
    while size < total
        invariant
            0 <= size <= total,
            match sfixed64_list_result(buf@.skip(size as int)) {
                Ok(vs) => sfixed64_list_result(buf@) == Ok::<Seq<i64>, DecoderError>(items@ + vs),
                Err(e) => sfixed64_list_result(buf@) == Err::<Seq<i64>, DecoderError>(e),
            },
        decreases total - size,
    {
        let rest = slice_subrange(buf, size, total);
        proof {
            assert(rest@ =~= buf@.skip(size as int));
        }
        let mut val: i64 = 0;
        let n: usize = match decode_sfixed64(rest, &mut val) {
            Ok(n) => n,
            Err(e) => {
                return Err(e);
            },
        };
        let ghost prev = items@;
        items.push(val);
        proof {
            assert(items@ =~= prev.push(val));
            assert(buf@.skip(size as int).skip(8) =~= buf@.skip(size + 8));
            match sfixed64_list_result(buf@.skip(size + 8)) {
                Ok(vs) => {
                    assert(sfixed64_list_result(buf@.skip(size as int)) == Ok::<
                        Seq<i64>,
                        DecoderError,
                    >(seq![val] + vs));
                    assert(items@ + vs =~= prev + (seq![val] + vs));
                    assert(sfixed64_list_result(buf@) == Ok::<Seq<i64>, DecoderError>(items@ + vs));
                },
                Err(e) => {
                    assert(sfixed64_list_result(buf@.skip(size as int)) == Err::<
                        Seq<i64>,
                        DecoderError,
                    >(e));
                },
            }
        }
        size = size + n;
    }
    proof {
        assert(buf@.skip(total as int) =~= Seq::<u8>::empty());
    }
    dst.append(&mut items);
    Ok(size)
}

/// One field emitted by the streaming decoder: tag, wire type and the raw
/// value octets.
pub open spec fn fields_view(s: Seq<(u32, Typ, Vec<u8>)>) -> Seq<(u32, Typ, Seq<u8>)>
    decreases s.len(),
{
    if s.len() == 0 {
        Seq::empty()
    } else {
        seq![(s[0].0, s[0].1, s[0].2@)] + fields_view(s.skip(1))
    }
}

pub proof fn lemma_fields_view_push(s: Seq<(u32, Typ, Vec<u8>)>, f: (u32, Typ, Vec<u8>))
    ensures
        fields_view(s.push(f)) == fields_view(s) + seq![(f.0, f.1, f.2@)],
    decreases s.len(),
{
    let p = s.push(f);
    if s.len() == 0 {
        assert(p[0] == f);
        assert(p.skip(1) =~= Seq::<(u32, Typ, Vec<u8>)>::empty());
        assert(fields_view(p) == seq![(p[0].0, p[0].1, p[0].2@)] + fields_view(p.skip(1)));
        assert(fields_view(p.skip(1)) == Seq::<(u32, Typ, Seq<u8>)>::empty());
        assert(fields_view(p) =~= fields_view(s) + seq![(f.0, f.1, f.2@)]);
    } else {
        lemma_fields_view_push(s.skip(1), f);
        assert(p[0] == s[0]);
        assert(p.skip(1) =~= s.skip(1).push(f));
        assert(fields_view(p) == seq![(p[0].0, p[0].1, p[0].2@)] + fields_view(p.skip(1)));
        assert(fields_view(p) =~= fields_view(s) + seq![(f.0, f.1, f.2@)]);
    }
}

/// One transition of the streaming decoder on state `(key, ld)` and input
/// `s`: the octets consumed, the field emitted if one completed, the next
/// state, the error if the input is malformed, and whether the step made
/// progress at all. A step that makes no progress and raises no error means
/// the decoder must wait for more input.
pub open spec fn stream_step(key: (u32, Typ), ld: Option<u64>, s: Seq<u8>) -> (
    int,
    Option<(u32, Typ, Seq<u8>)>,
    (u32, Typ),
    Option<u64>,
    Option<DecoderError>,
    bool,
) {
    if key.1 == Typ::Unknown {
        match key_result(s) {
            Ok((kv, n)) => (n, None, kv, ld, None, true),
            Err(DecoderError::InputUnderflow) => (0, None, key, ld, None, false),
            Err(e) => (0, None, key, ld, Some(e), false),
        }
    } else if key.1 == Typ::Varint {
        if leb_end(s) < s.len() {
            (
                leb_end(s) + 1,
                Some((key.0, key.1, s.take(leb_end(s) + 1))),
                (0u32, Typ::Unknown),
                None,
                None,
                true,
            )
        } else {
            (0, None, key, ld, None, false)
        }
    } else if key.1 == Typ::Bit32 {
        if s.len() >= 4 {
            (4, Some((key.0, key.1, s.take(4))), (0u32, Typ::Unknown), None, None, true)
        } else {
            (0, None, key, ld, None, false)
        }
    } else if key.1 == Typ::Bit64 {
        if s.len() >= 8 {
            (8, Some((key.0, key.1, s.take(8))), (0u32, Typ::Unknown), None, None, true)
        } else {
            (0, None, key, ld, None, false)
        }
    } else {
        match ld {
            None => match leb_result(s) {
                Ok((l, n)) => (n, None, key, Some(l), None, true),
                Err(DecoderError::InputUnderflow) => (0, None, key, ld, None, false),
                Err(e) => (0, None, key, ld, Some(e), false),
            },
            Some(l) => if s.len() >= l {
                (
                    l as int,
                    Some((key.0, key.1, s.take(l as int))),
                    (0u32, Typ::Unknown),
                    None,
                    None,
                    true,
                )
            } else {
                (0, None, key, ld, None, false)
            },
        }
    }
}

/// How far a state is from expecting a fresh key; used only to show that
/// draining terminates.
pub open spec fn state_rank(key: (u32, Typ)) -> int {
    if key.1 == Typ::Unknown {
        0
    } else {
        1
    }
}

/// The streaming decoder run to quiescence on state `(key, ld)` and input
/// `s`: the octets consumed, the fields emitted, the final state, and the
/// error that stopped it, if any. A `None` error means the run stopped
/// because it needs more input (or consumed everything).
pub open spec fn stream_drain(key: (u32, Typ), ld: Option<u64>, s: Seq<u8>) -> (
    int,
    Seq<(u32, Typ, Seq<u8>)>,
    (u32, Typ),
    Option<u64>,
    Option<DecoderError>,
)
    decreases s.len(), state_rank(key),
    via stream_drain_decreases
{
    let (c, em, k2, l2, err, prog) = stream_step(key, ld, s);
    if err is Some {
        (0, Seq::empty(), key, ld, err)
    } else if !prog {
        (0, Seq::empty(), key, ld, None)
    } else {
        let (c2, fs2, k3, l3, e3) = stream_drain(k2, l2, s.skip(c));
        (
            c + c2,
            (match em {
                Some(f) => seq![f],
                None => Seq::empty(),
            }) + fs2,
            k3,
            l3,
            e3,
        )
    }
}

#[via_fn]
proof fn stream_drain_decreases(key: (u32, Typ), ld: Option<u64>, s: Seq<u8>) {
    lemma_leb_end(s);
}

/// Provides the decoding engine for Protocol Buffers.
///
/// The decoder is streaming: a call consumes whole fields only, and the key
/// or pending length of a partially received field is carried in the decoder
/// state into the next call.
pub struct Decoder {
    /// A key with tag number and wire type of the currently decoding field;
    /// the wire type is `Typ::Unknown` when a key is expected next.
    key: (u32, Typ),
    /// The number of bytes that need to be read for the currently decoding
    /// length-delimited field.
    ld_len: Option<u64>,
}

impl View for Decoder {
    type V = ((u32, Typ), Option<u64>);

    closed spec fn view(&self) -> ((u32, Typ), Option<u64>) {
        (self.key, self.ld_len)
    }
}


impl Decoder {
    /// Decodes `proto3` encoded fields from the provided `buf` and appends
    /// the resulting `(tag, type, bytes)` triples to `dst`.
    ///
    /// Partial input is safe: the call consumes only the bytes of fully
    /// parsed fields, and an incomplete key or value is carried in the
    /// decoder state into the next call. On an error the bytes of the
    /// malformed field are left in `buf` untouched.
    ///
    /// On success, the number of consumed bytes is returned.
    #[verifier::loop_isolation(false)]
    #[verifier::rlimit(100)]
    #[verifier::spinoff_prover]
    pub fn decode(&mut self, buf: &mut Vec<u8>, dst: &mut Vec<(u32, Typ, Vec<u8>)>) -> (r: Result<
        usize,
        DecoderError,
    >)
        ensures
            ({
                let (c, fs, k2, l2, err) = stream_drain(old(self)@.0, old(self)@.1, old(buf)@);
                &&& final(buf)@ == old(buf)@.skip(c)
                &&& fields_view(final(dst)@) == fields_view(old(dst)@) + fs
                &&& final(self)@ == (k2, l2)
                &&& match r {
                    Ok(n) => err is None && n == c,
                    Err(e) => err == Some(e),
                }
            }),
    {
        let ghost s0 = old(buf)@;
        let ghost k0 = old(self)@.0;
        let ghost l0 = old(self)@.1;
        let ghost mut done: Seq<(u32, Typ, Seq<u8>)> = Seq::empty();
        let mut total: usize = 0;
        let buf_len: usize = buf.len();
        proof {
            assert(s0.len() == buf_len);
            assert(s0.skip(0) =~= s0);
            assert(fields_view(old(dst)@) + done =~= fields_view(old(dst)@));
        }
        loop
            invariant
                total <= s0.len(),
                buf@ == s0.skip(total as int),
                fields_view(dst@) == fields_view(old(dst)@) + done,
                ({
                    let (c, fs, k2, l2, err) = stream_drain(self@.0, self@.1, buf@);
                    let (c0, fs0, k20, l20, err0) = stream_drain(k0, l0, s0);
                    &&& c0 == total + c
                    &&& fs0 == done + fs
                    &&& k20 == k2
                    &&& l20 == l2
                    &&& err0 == err
                }),
            decreases buf@.len(), state_rank(self@.0),
        {
            let ghost bentry = buf@;
            let ghost kentry = self@.0;
            let ghost lentry = self@.1;
            let typ: Typ = self.key.1;
            match typ {
                Typ::Unknown => {
                    let mut kv: (u32, Typ) = (0, Typ::Unknown);
                    match decode_key(buf.as_slice(), &mut kv) {
                        Ok(n) => {
                            proof {
                                lemma_leb_end(bentry);
                                assert(n <= bentry.len());
                            }
                            self.key = kv;
                            let tail = buf.split_off(n);
                            *buf = tail;
                            proof {
                                lemma_leb_end(bentry);
                                let (c2, fs2, k3, l3, e3) = stream_drain(self@.0, self@.1, buf@);
                                assert(bentry.skip(n as int) =~= buf@);
                                assert(stream_drain(kentry, lentry, bentry) == (
                                    n + c2,
                                    Seq::<(u32, Typ, Seq<u8>)>::empty() + fs2,
                                    k3,
                                    l3,
                                    e3,
                                ));
                                assert(Seq::<(u32, Typ, Seq<u8>)>::empty() + fs2 =~= fs2);
                                assert(s0.skip(total + n) =~= bentry.skip(n as int));
                            }
                            proof {
                                assert(total + n <= s0.len());
                            }
                            total = total + n;
                        },
                        Err(DecoderError::InputUnderflow) => {
                            proof {
                                lemma_leb_end(bentry);
                                assert(stream_drain(kentry, lentry, bentry) == (
                                    0int,
                                    Seq::<(u32, Typ, Seq<u8>)>::empty(),
                                    kentry,
                                    lentry,
                                    None::<DecoderError>,
                                ));
                                assert(done + Seq::<(u32, Typ, Seq<u8>)>::empty() =~= done);
                            }
                            return Ok(total);
                        },
                        Err(e) => {
                            proof {
                                lemma_leb_end(bentry);
                                assert(stream_drain(kentry, lentry, bentry) == (
                                    0int,
                                    Seq::<(u32, Typ, Seq<u8>)>::empty(),
                                    kentry,
                                    lentry,
                                    Some(e),
                                ));
                                assert(done + Seq::<(u32, Typ, Seq<u8>)>::empty() =~= done);
                            }
                            return Err(e);
                        },
                    }
                },
                Typ::Varint => {
                    let mut bytes: Vec<u8> = Vec::new();
                    match extract_varint(buf.as_slice(), &mut bytes) {
                        Ok(n) => {
                            proof {
                                lemma_leb_end(bentry);
                                assert(n <= bentry.len());
                            }
                            let ghost bv = bytes@;
                            let ghost dentry = dst@;
                            let tag: u32 = self.key.0;
                            let t: Typ = self.key.1;
                            dst.push((tag, t, bytes));
                            self.reset();
                            let tail = buf.split_off(n);
                            *buf = tail;
                            proof {
                                lemma_leb_end(bentry);
                                let at = dentry.len() as int;
                                assert(dst@.len() == dentry.len() + 1);
                                assert(dst@[at].0 == tag);
                                assert(dst@[at].1 == t);
                                assert(dst@[at].2@ == bv);
                                lemma_fields_view_push(dentry, dst@[at]);
                                assert(dst@ =~= dentry.push(dst@[at]));
                                let f = (tag, t, bv);
                                assert(bv =~= bentry.take(n as int));
                                assert(fields_view(dst@) =~= (fields_view(old(dst)@) + done)
                                    + seq![f]);
                                assert(fields_view(dst@) =~= fields_view(old(dst)@) + (done
                                    + seq![f]));
                                let (c2, fs2, k3, l3, e3) = stream_drain(self@.0, self@.1, buf@);
                                assert(bentry.skip(n as int) =~= buf@);
                                assert(stream_drain(kentry, lentry, bentry) == (
                                    n + c2,
                                    seq![f] + fs2,
                                    k3,
                                    l3,
                                    e3,
                                ));
                                assert(done + (seq![f] + fs2) =~= (done + seq![f]) + fs2);
                                assert(s0.skip(total + n) =~= bentry.skip(n as int));
                                done = done + seq![f];
                            }
                            proof {
                                assert(total + n <= s0.len());
                            }
                            total = total + n;
                        },
                        Err(_) => {
                            proof {
                                lemma_leb_end(bentry);
                                assert(stream_drain(kentry, lentry, bentry) == (
                                    0int,
                                    Seq::<(u32, Typ, Seq<u8>)>::empty(),
                                    kentry,
                                    lentry,
                                    None::<DecoderError>,
                                ));
                                assert(done + Seq::<(u32, Typ, Seq<u8>)>::empty() =~= done);
                            }
                            return Ok(total);
                        },
                    }
                },
                Typ::Bit32 => {
                    let mut bytes: Vec<u8> = Vec::new();
                    match extract_bit32(buf.as_slice(), &mut bytes) {
                        Ok(n) => {
                            proof {
                                lemma_leb_end(bentry);
                                assert(n <= bentry.len());
                            }
                            let ghost bv = bytes@;
                            let ghost dentry = dst@;
                            let tag: u32 = self.key.0;
                            let t: Typ = self.key.1;
                            dst.push((tag, t, bytes));
                            self.reset();
                            let tail = buf.split_off(n);
                            *buf = tail;
                            proof {
                                lemma_leb_end(bentry);
                                let at = dentry.len() as int;
                                assert(dst@.len() == dentry.len() + 1);
                                assert(dst@[at].0 == tag);
                                assert(dst@[at].1 == t);
                                assert(dst@[at].2@ == bv);
                                lemma_fields_view_push(dentry, dst@[at]);
                                assert(dst@ =~= dentry.push(dst@[at]));
                                let f = (tag, t, bv);
                                assert(bv =~= bentry.take(n as int));
                                assert(fields_view(dst@) =~= (fields_view(old(dst)@) + done)
                                    + seq![f]);
                                assert(fields_view(dst@) =~= fields_view(old(dst)@) + (done
                                    + seq![f]));
                                let (c2, fs2, k3, l3, e3) = stream_drain(self@.0, self@.1, buf@);
                                assert(bentry.skip(n as int) =~= buf@);
                                assert(stream_drain(kentry, lentry, bentry) == (
                                    n + c2,
                                    seq![f] + fs2,
                                    k3,
                                    l3,
                                    e3,
                                ));
                                assert(done + (seq![f] + fs2) =~= (done + seq![f]) + fs2);
                                assert(s0.skip(total + n) =~= bentry.skip(n as int));
                                done = done + seq![f];
                            }
                            proof {
                                assert(total + n <= s0.len());
                            }
                            total = total + n;
                        },
                        Err(_) => {
                            proof {
                                lemma_leb_end(bentry);
                                assert(stream_drain(kentry, lentry, bentry) == (
                                    0int,
                                    Seq::<(u32, Typ, Seq<u8>)>::empty(),
                                    kentry,
                                    lentry,
                                    None::<DecoderError>,
                                ));
                                assert(done + Seq::<(u32, Typ, Seq<u8>)>::empty() =~= done);
                            }
                            return Ok(total);
                        },
                    }
                },
                Typ::Bit64 => {
                    let mut bytes: Vec<u8> = Vec::new();
                    match extract_bit64(buf.as_slice(), &mut bytes) {
                        Ok(n) => {
                            proof {
                                lemma_leb_end(bentry);
                                assert(n <= bentry.len());
                            }
                            let ghost bv = bytes@;
                            let ghost dentry = dst@;
                            let tag: u32 = self.key.0;
                            let t: Typ = self.key.1;
                            dst.push((tag, t, bytes));
                            self.reset();
                            let tail = buf.split_off(n);
                            *buf = tail;
                            proof {
                                lemma_leb_end(bentry);
                                let at = dentry.len() as int;
                                assert(dst@.len() == dentry.len() + 1);
                                assert(dst@[at].0 == tag);
                                assert(dst@[at].1 == t);
                                assert(dst@[at].2@ == bv);
                                lemma_fields_view_push(dentry, dst@[at]);
                                assert(dst@ =~= dentry.push(dst@[at]));
                                let f = (tag, t, bv);
                                assert(bv =~= bentry.take(n as int));
                                assert(fields_view(dst@) =~= (fields_view(old(dst)@) + done)
                                    + seq![f]);
                                assert(fields_view(dst@) =~= fields_view(old(dst)@) + (done
                                    + seq![f]));
                                let (c2, fs2, k3, l3, e3) = stream_drain(self@.0, self@.1, buf@);
                                assert(bentry.skip(n as int) =~= buf@);
                                assert(stream_drain(kentry, lentry, bentry) == (
                                    n + c2,
                                    seq![f] + fs2,
                                    k3,
                                    l3,
                                    e3,
                                ));
                                assert(done + (seq![f] + fs2) =~= (done + seq![f]) + fs2);
                                assert(s0.skip(total + n) =~= bentry.skip(n as int));
                                done = done + seq![f];
                            }
                            proof {
                                assert(total + n <= s0.len());
                            }
                            total = total + n;
                        },
                        Err(_) => {
                            proof {
                                lemma_leb_end(bentry);
                                assert(stream_drain(kentry, lentry, bentry) == (
                                    0int,
                                    Seq::<(u32, Typ, Seq<u8>)>::empty(),
                                    kentry,
                                    lentry,
                                    None::<DecoderError>,
                                ));
                                assert(done + Seq::<(u32, Typ, Seq<u8>)>::empty() =~= done);
                            }
                            return Ok(total);
                        },
                    }
                },
                Typ::LengthDelimited => {
                    match self.ld_len {
                        None => {
                            let mut len_val: u64 = 0;
                            match decode_varint(buf.as_slice(), &mut len_val) {
                                Ok(n) => {
                                    proof {
                                        lemma_leb_end(bentry);
                                        assert(n <= bentry.len());
                                    }
                                    self.ld_len = Some(len_val);
                                    let tail = buf.split_off(n);
                                    *buf = tail;
                                    proof {
                                        lemma_leb_end(bentry);
                                        let (c2, fs2, k3, l3, e3) = stream_drain(
                                            self@.0,
                                            self@.1,
                                            buf@,
                                        );
                                        assert(bentry.skip(n as int) =~= buf@);
                                        assert(stream_drain(kentry, lentry, bentry) == (
                                            n + c2,
                                            Seq::<(u32, Typ, Seq<u8>)>::empty() + fs2,
                                            k3,
                                            l3,
                                            e3,
                                        ));
                                        assert(Seq::<(u32, Typ, Seq<u8>)>::empty() + fs2 =~= fs2);
                                        assert(s0.skip(total + n) =~= bentry.skip(n as int));
                                    }
                                    proof {
                                assert(total + n <= s0.len());
                            }
                            total = total + n;
                                },
                                Err(DecoderError::InputUnderflow) => {
                            proof {
                                lemma_leb_end(bentry);
                                assert(stream_drain(kentry, lentry, bentry) == (
                                    0int,
                                    Seq::<(u32, Typ, Seq<u8>)>::empty(),
                                    kentry,
                                    lentry,
                                    None::<DecoderError>,
                                ));
                                assert(done + Seq::<(u32, Typ, Seq<u8>)>::empty() =~= done);
                            }
                            return Ok(total);
                                },
                                Err(e) => {
                                    proof {
                                        lemma_leb_end(bentry);
                                        assert(stream_drain(kentry, lentry, bentry) == (
                                            0int,
                                            Seq::<(u32, Typ, Seq<u8>)>::empty(),
                                            kentry,
                                            lentry,
                                            Some(e),
                                        ));
                                        assert(done + Seq::<(u32, Typ, Seq<u8>)>::empty()
                                            =~= done);
                                    }
                                    return Err(e);
                                },
                            }
                        },
                        Some(l) => {
                            let mut bytes: Vec<u8> = Vec::new();
                            match extract_ld(buf.as_slice(), l, &mut bytes) {
                                Ok(n) => {
                                    let ghost bv = bytes@;
                                    let ghost dentry = dst@;
                                    let tag: u32 = self.key.0;
                                    let t: Typ = self.key.1;
                                    dst.push((tag, t, bytes));
                                    self.reset();
                                    let tail = buf.split_off(n);
                                    *buf = tail;
                            proof {
                                lemma_leb_end(bentry);
                                let at = dentry.len() as int;
                                assert(dst@.len() == dentry.len() + 1);
                                assert(dst@[at].0 == tag);
                                assert(dst@[at].1 == t);
                                assert(dst@[at].2@ == bv);
                                lemma_fields_view_push(dentry, dst@[at]);
                                assert(dst@ =~= dentry.push(dst@[at]));
                                let f = (tag, t, bv);
                                assert(bv =~= bentry.take(n as int));
                                assert(fields_view(dst@) =~= (fields_view(old(dst)@) + done)
                                    + seq![f]);
                                assert(fields_view(dst@) =~= fields_view(old(dst)@) + (done
                                    + seq![f]));
                                let (c2, fs2, k3, l3, e3) = stream_drain(self@.0, self@.1, buf@);
                                assert(bentry.skip(n as int) =~= buf@);
                                assert(stream_drain(kentry, lentry, bentry) == (
                                    n + c2,
                                    seq![f] + fs2,
                                    k3,
                                    l3,
                                    e3,
                                ));
                                assert(done + (seq![f] + fs2) =~= (done + seq![f]) + fs2);
                                assert(s0.skip(total + n) =~= bentry.skip(n as int));
                                done = done + seq![f];
                            }
                            proof {
                                assert(total + n <= s0.len());
                            }
                            total = total + n;
                                },
                                Err(_) => {
                            proof {
                                lemma_leb_end(bentry);
                                assert(stream_drain(kentry, lentry, bentry) == (
                                    0int,
                                    Seq::<(u32, Typ, Seq<u8>)>::empty(),
                                    kentry,
                                    lentry,
                                    None::<DecoderError>,
                                ));
                                assert(done + Seq::<(u32, Typ, Seq<u8>)>::empty() =~= done);
                            }
                            return Ok(total);
                                },
                            }
                        },
                    }
                },
            }
        }
    }

    /// Resets the decoder to expect a field key next.
    fn reset(&mut self)
        ensures
            final(self)@ == ((0u32, Typ::Unknown), None::<u64>),
    {
        self.key = (0, Typ::Unknown);
        self.ld_len = None;
    }
}

impl Default for Decoder {
    /// A fresh decoder expecting a field key.
    fn default() -> (r: Self)
        ensures
            r@ == ((0u32, Typ::Unknown), None::<u64>),
    {
        Decoder { key: (0, Typ::Unknown), ld_len: None }
    }
}


/// Round trip of the varint format: decoding a canonical encoding gives the
/// value back and consumes exactly its octets, for every 64-bit value.
pub proof fn lemma_varint_roundtrip(v: u64)
    ensures
        leb_result(crate::wire::leb_bytes(v as nat)) == Ok::<(u64, int), DecoderError>(
            (v, crate::wire::leb_bytes(v as nat).len() as int),
        ),
{
    let s = crate::wire::leb_bytes(v as nat);
    crate::wire::lemma_leb_bytes_shape(v as nat);
    crate::wire::lemma_leb_roundtrip(v as nat);
    lemma_leb_end(s);
    assert(leb_end(s) == s.len() - 1) by {
        assert(s[s.len() - 1] < 128);
        if leb_end(s) < s.len() - 1 {
            assert(s[leb_end(s)] >= 128);
        }
    }
    assert(s.len() <= 10) by {
        lemma2_to64();
        vstd::arithmetic::power2::lemma_pow2_strictly_increases(64, 70);
        crate::wire::lemma_leb_bytes_len(v as nat, 10);
    }
    assert(leb_value(s, s.len() as int) == v);
    vstd::arithmetic::div_mod::lemma_small_mod(v as nat, 0x1_0000_0000_0000_0000);
}

/// Round trip of the ZigZag mapping for 32-bit values: decoding the image
/// of any value, most negative and most positive included, gives the value
/// back.
pub proof fn lemma_zigzag32_roundtrip(v: i32)
    ensures
        wire_sint32(crate::protos::encoder::zigzag32(v) as u64) == v,
{
    lemma2_to64();
}

/// Round trip of the ZigZag mapping for 64-bit values.
pub proof fn lemma_zigzag64_roundtrip(v: i64)
    ensures
        wire_sint64(crate::protos::encoder::zigzag64(v) as u64) == v,
{
    lemma2_to64();
}

/// Round trip of the sign-extended `int32` format.
pub proof fn lemma_int32_roundtrip(v: i32)
    ensures
        wire_i32(crate::wire::i64_to_u64(v as i64)) == v,
{
    lemma2_to64();
}

/// Round trip of the fixed-width 32-bit format.
pub proof fn lemma_fixed32_roundtrip(v: u32)
    ensures
        le_value(crate::wire::le_bytes(v as nat, 4)) == v,
        crate::wire::le_bytes(v as nat, 4).len() == 4,
{
    lemma2_to64();
    crate::wire::lemma_le_roundtrip(v as nat, 4);
    crate::wire::lemma_le_bytes_len(v as nat, 4);
}

/// Round trip of the fixed-width 64-bit format.
pub proof fn lemma_fixed64_roundtrip(v: u64)
    ensures
        le_value(crate::wire::le_bytes(v as nat, 8)) == v,
        crate::wire::le_bytes(v as nat, 8).len() == 8,
{
    lemma2_to64();
    crate::wire::lemma_le_roundtrip(v as nat, 8);
    crate::wire::lemma_le_bytes_len(v as nat, 8);
}

/// Round trip of the two's-complement fixed-width 32-bit format.
pub proof fn lemma_sfixed32_roundtrip(v: i32)
    ensures
        u32_to_i32(le_value(crate::wire::le_bytes(crate::wire::i32_to_u32(v) as nat, 4)) as u32)
            == v,
{
    lemma_fixed32_roundtrip(crate::wire::i32_to_u32(v));
    crate::wire::lemma_i32_u32_roundtrip(v);
}

/// Round trip of the two's-complement fixed-width 64-bit format.
pub proof fn lemma_sfixed64_roundtrip(v: i64)
    ensures
        u64_to_i64(le_value(crate::wire::le_bytes(crate::wire::i64_to_u64(v) as nat, 8)) as u64)
            == v,
{
    lemma_fixed64_roundtrip(crate::wire::i64_to_u64(v));
    crate::wire::lemma_i64_u64_roundtrip(v);
}


/// A completed or malformed step reads only the octets it consumes: on
/// longer input it behaves the same.
proof fn lemma_step_extend(key: (u32, Typ), ld: Option<u64>, s1: Seq<u8>, s2: Seq<u8>)
    requires
        stream_step(key, ld, s1).5 || stream_step(key, ld, s1).4 is Some,
    ensures
        ({
            let (c, em, k2, l2, err, prog) = stream_step(key, ld, s1);
            let (cx, emx, k2x, l2x, errx, progx) = stream_step(key, ld, s1 + s2);
            &&& cx == c
            &&& emx == em
            &&& k2x == k2
            &&& l2x == l2
            &&& errx == err
            &&& progx == prog
        }),
{
    let c = s1 + s2;
    lemma_leb_end(s1);
    lemma_leb_end(c);
    if key.1 == Typ::Unknown {
        lemma_leb_result_extend(s1, s2);
    } else if key.1 == Typ::Varint {
        assert(leb_end(s1) < s1.len());
        crate::wire::lemma_leb_end_extend(s1, s2);
        assert(c.take(leb_end(s1) + 1) =~= s1.take(leb_end(s1) + 1));
    } else if key.1 == Typ::Bit32 {
        assert(c.take(4) =~= s1.take(4));
    } else if key.1 == Typ::Bit64 {
        assert(c.take(8) =~= s1.take(8));
    } else {
        match ld {
            None => {
                lemma_leb_result_extend(s1, s2);
            },
            Some(l) => {
                assert(s1.len() >= l);
                assert(c.take(l as int) =~= s1.take(l as int));
            },
        }
    }
}

/// A varint decode that did not underflow reads only the octets it spans.
proof fn lemma_leb_result_extend(s1: Seq<u8>, s2: Seq<u8>)
    requires
        leb_result(s1) != Err::<(u64, int), DecoderError>(DecoderError::InputUnderflow),
    ensures
        leb_result(s1 + s2) == leb_result(s1),
{
    let c = s1 + s2;
    lemma_leb_end(s1);
    lemma_leb_end(c);
    match leb_result(s1) {
        Ok((v, n)) => {
            crate::wire::lemma_leb_end_extend(s1, s2);
            crate::wire::lemma_leb_value_extend(s1, s2, n);
        },
        Err(e) => {
            // ten continuation octets in a row stay in place under extension
            assert(s1.len() >= 10 && leb_end(s1) >= 10);
            assert forall|j: int| 0 <= j < 10 implies c[j] >= 128 by {
                assert(c[j] == s1[j]);
            }
            if leb_end(c) < 10 {
                assert(c[leb_end(c)] < 128);
            }
        },
    }
}

/// A drain consumes a nonnegative number of octets, never more than it was
/// given.
proof fn lemma_drain_range(key: (u32, Typ), ld: Option<u64>, s: Seq<u8>)
    ensures
        0 <= stream_drain(key, ld, s).0 <= s.len(),
    decreases s.len(), state_rank(key),
{
    let (c, em, k2, l2, err, prog) = stream_step(key, ld, s);
    lemma_leb_end(s);
    if err is Some {
    } else if !prog {
    } else {
        assert(0 <= c <= s.len());
        lemma_drain_range(k2, l2, s.skip(c));
    }
}

/// Feeding the decoder a stream in two pieces is the same as feeding it
/// whole: after a first piece that stops cleanly, running on the leftover
/// joined with the second piece continues exactly where the first run
/// stopped.
#[verifier::rlimit(100)]
#[verifier::spinoff_prover]
pub proof fn lemma_stream_split(key: (u32, Typ), ld: Option<u64>, s1: Seq<u8>, s2: Seq<u8>)
    ensures
        ({
            let (c1, f1, k1, l1, e1) = stream_drain(key, ld, s1);
            e1 is None ==> ({
                let (c2, f2, k2, l2, e2) = stream_drain(k1, l1, s1.skip(c1) + s2);
                stream_drain(key, ld, s1 + s2) == (c1 + c2, f1 + f2, k2, l2, e2)
            })
        }),
    decreases s1.len(), state_rank(key),
{
    let (c, em, k2, l2, err, prog) = stream_step(key, ld, s1);
    let (c1, f1, k1, l1, e1) = stream_drain(key, ld, s1);
    if err is Some {
    } else if !prog {
        assert(c1 == 0 && f1 =~= Seq::<(u32, Typ, Seq<u8>)>::empty());
        assert(s1.skip(0) =~= s1);
        let (c2, f2, k2b, l2b, e2) = stream_drain(key, ld, s1 + s2);
        assert(Seq::<(u32, Typ, Seq<u8>)>::empty() + f2 =~= f2);
    } else {
        lemma_step_extend(key, ld, s1, s2);
        lemma_leb_end(s1);
        let (cr, fr, kr, lr, er) = stream_drain(k2, l2, s1.skip(c));
        lemma_stream_split(k2, l2, s1.skip(c), s2);
        lemma_drain_range(k2, l2, s1.skip(c));
        assert((s1 + s2).skip(c) =~= s1.skip(c) + s2);
        if er is None {
            assert(s1.skip(c).skip(cr) =~= s1.skip(c + cr));
            let (c2, f2, k2c, l2c, e2) = stream_drain(kr, lr, s1.skip(c + cr) + s2);
            let emseq = (match em {
                Some(f) => seq![f],
                None => Seq::<(u32, Typ, Seq<u8>)>::empty(),
            });
            assert(c1 == c + cr && f1 == emseq + fr && k1 == kr && l1 == lr);
            assert(emseq + (fr + f2) =~= (emseq + fr) + f2);
        }
    }
}

} // verus!
