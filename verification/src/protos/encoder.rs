//! The `proto3` encoder: primitives that write single values and an
//! [`Encoder`] that writes whole keyed fields, packed repeated fields
//! among them.

use vstd::prelude::*;

verus! {

use vstd::arithmetic::power2::pow2;
use vstd::arithmetic::power2::lemma2_to64;
use vstd::arithmetic::power2::lemma_pow2_strictly_increases;
use crate::wire::leb_bytes;
use crate::wire::le_bytes;
use crate::wire::i32_to_u32;
use crate::wire::i64_to_u64;
use crate::wire::i32_bits;
use crate::wire::i64_bits;
use crate::protos::typ::typ_wire;
use crate::protos::typ::Typ;

/// The smallest tag number a field may carry.
pub const TAG_MIN: u32 = 1;

/// The largest tag number a field may carry.
pub const TAG_MAX: u32 = 0x1FFF_FFFF;

/// Contains error options that can be encountered while performing the
/// encoding operations.
#[derive(Clone, Copy, Debug, PartialEq, Eq, Structural)]
pub enum EncoderError {
    /// Indicates that the data size limit has been reached.
    DataOverflow,
    /// Indicates an I/O interruption in a surrounding writer. The verified
    /// encoder itself writes only to vectors and never produces it.
    Interrupted,
    /// Indicates a tag number outside `TAG_MIN ..= TAG_MAX`.
    InvalidTag,
}

/// The ZigZag image of a signed 32-bit value: small magnitudes stay small.
pub open spec fn zigzag32(v: i32) -> nat {
    if v >= 0 {
        (2 * v) as nat
    } else {
        (-(2 * (v as int)) - 1) as nat
    }
}

/// The ZigZag image of a signed 64-bit value.
pub open spec fn zigzag64(v: i64) -> nat {
    if v >= 0 {
        (2 * v) as nat
    } else {
        (-(2 * (v as int)) - 1) as nat
    }
}

/// The wire encoding of a field key: the tag and the wire type packed into
/// one varint.
pub open spec fn key_bytes(tag: nat, t: Typ) -> Seq<u8> {
    leb_bytes(8 * tag + typ_wire(t))
}

/// The concatenated varint encodings of a sequence of values, the payload of
/// a packed varint field.
pub open spec fn varint_seq(vals: Seq<u64>) -> Seq<u8>
    decreases vals.len(),
{
    if vals.len() == 0 {
        Seq::empty()
    } else {
        leb_bytes(vals[0] as nat) + varint_seq(vals.skip(1))
    }
}

/// The concatenated `w`-octet little-endian encodings of a sequence of
/// values, the payload of a packed fixed-width field.
pub open spec fn le_seq(vals: Seq<u64>, w: nat) -> Seq<u8>
    decreases vals.len(),
{
    if vals.len() == 0 {
        Seq::empty()
    } else {
        le_bytes(vals[0] as nat, w) + le_seq(vals.skip(1), w)
    }
}

/// Appending one value extends a packed varint payload on the right.
pub proof fn lemma_varint_seq_push(vals: Seq<u64>, v: u64)
    ensures
        varint_seq(vals.push(v)) == varint_seq(vals) + leb_bytes(v as nat),
    decreases vals.len(),
{
    let p = vals.push(v);
    assert(p.len() == vals.len() + 1);
    if vals.len() == 0 {
        assert(p[0] == v);
        assert(p.skip(1) =~= Seq::<u64>::empty());
        assert(varint_seq(p) == leb_bytes(p[0] as nat) + varint_seq(p.skip(1)));
        assert(varint_seq(p.skip(1)) == Seq::<u8>::empty());
        assert(varint_seq(p) =~= varint_seq(vals) + leb_bytes(v as nat));
    } else {
        lemma_varint_seq_push(vals.skip(1), v);
        assert(p[0] == vals[0]);
        assert(p.skip(1) =~= vals.skip(1).push(v));
        assert(varint_seq(p) == leb_bytes(p[0] as nat) + varint_seq(p.skip(1)));
        assert(varint_seq(p) =~= varint_seq(vals) + leb_bytes(v as nat));
    }
}

/// Appending one value extends a packed fixed-width payload on the right.
pub proof fn lemma_le_seq_push(vals: Seq<u64>, v: u64, w: nat)
    ensures
        le_seq(vals.push(v), w) == le_seq(vals, w) + le_bytes(v as nat, w),
    decreases vals.len(),
{
    let p = vals.push(v);
    assert(p.len() == vals.len() + 1);
    if vals.len() == 0 {
        assert(p[0] == v);
        assert(p.skip(1) =~= Seq::<u64>::empty());
        assert(le_seq(p, w) == le_bytes(p[0] as nat, w) + le_seq(p.skip(1), w));
        assert(le_seq(p.skip(1), w) == Seq::<u8>::empty());
        assert(le_seq(p, w) =~= le_seq(vals, w) + le_bytes(v as nat, w));
    } else {
        lemma_le_seq_push(vals.skip(1), v, w);
        assert(p[0] == vals[0]);
        assert(p.skip(1) =~= vals.skip(1).push(v));
        assert(le_seq(p, w) == le_bytes(p[0] as nat, w) + le_seq(p.skip(1), w));
        assert(le_seq(p, w) =~= le_seq(vals, w) + le_bytes(v as nat, w));
    }
}

/// Every `u64` value encodes into at most ten octets.
pub proof fn lemma_leb_bytes_max(v: u64)
    ensures
        1 <= leb_bytes(v as nat).len() <= 10,
{
    crate::wire::lemma_leb_bytes_shape(v as nat);
    assert(v < pow2(70)) by {
        lemma2_to64();
        lemma_pow2_strictly_increases(64, 70);
    }
    crate::wire::lemma_leb_bytes_len(v as nat, 10);
}

/// Encodes the provided `val` into LEB128 format and appends the resulting
/// bytes to `buf`.
///
/// Varints serialize an integer as a little-endian sequence of 7-bit groups;
/// the most significant bit of every octet but the last is a continuation
/// marker.
///
/// On success the number of written bytes is returned.
pub fn encode_varint(val: u64, buf: &mut Vec<u8>) -> (r: Result<usize, EncoderError>)
    ensures
        final(buf)@ == old(buf)@ + leb_bytes(val as nat),
        r == Ok::<usize, EncoderError>(leb_bytes(val as nat).len() as usize),
{
    let n: usize = crate::wire::write_leb(val, buf);
    Ok(n)
}

/// Encodes a field's key and appends the resulting bytes to `buf`.
///
/// The key packs the wire type into the low three bits of the tag's varint.
/// Tags outside `TAG_MIN ..= TAG_MAX` are rejected with
/// [`EncoderError::InvalidTag`].
///
/// On success the number of written bytes is returned.
pub fn encode_key(tag: u32, typ: Typ, buf: &mut Vec<u8>) -> (r: Result<usize, EncoderError>)
    requires
        typ != Typ::Unknown,
    ensures
        TAG_MIN <= tag <= TAG_MAX ==> {
            &&& final(buf)@ == old(buf)@ + key_bytes(tag as nat, typ)
            &&& r == Ok::<usize, EncoderError>(key_bytes(tag as nat, typ).len() as usize)
        },
        !(TAG_MIN <= tag <= TAG_MAX) ==> {
            &&& final(buf)@ == old(buf)@
            &&& r == Err::<usize, EncoderError>(EncoderError::InvalidTag)
        },
{
    if tag < TAG_MIN || tag > TAG_MAX {
        return Err(EncoderError::InvalidTag);
    }
    let key: u64 = 8 * (tag as u64) + (typ.wire() as u64);
    encode_varint(key, buf)
}

/// Encodes the provided `val` into `bool` format and appends the resulting
/// bytes to `buf`.
pub fn encode_bool(val: bool, buf: &mut Vec<u8>) -> (r: Result<usize, EncoderError>)
    ensures
        final(buf)@ == old(buf)@ + leb_bytes(if val { 1nat } else { 0nat }),
        r == Ok::<usize, EncoderError>(1usize),
{
    let res: u64 = if val { 1 } else { 0 };
    encode_varint(res, buf)
}

/// Encodes the provided `val` into `int32` format (a sign-extended varint)
/// and appends the resulting bytes to `buf`.
pub fn encode_int32(val: i32, buf: &mut Vec<u8>) -> (r: Result<usize, EncoderError>)
    ensures
        final(buf)@ == old(buf)@ + leb_bytes(i64_to_u64(val as i64) as nat),
        r == Ok::<usize, EncoderError>(leb_bytes(i64_to_u64(val as i64) as nat).len() as usize),
{
    encode_varint(i64_bits(val as i64), buf)
}

/// Encodes the provided `val` into `int64` format (a sign-extended varint)
/// and appends the resulting bytes to `buf`.
pub fn encode_int64(val: i64, buf: &mut Vec<u8>) -> (r: Result<usize, EncoderError>)
    ensures
        final(buf)@ == old(buf)@ + leb_bytes(i64_to_u64(val) as nat),
        r == Ok::<usize, EncoderError>(leb_bytes(i64_to_u64(val) as nat).len() as usize),
{
    encode_varint(i64_bits(val), buf)
}

/// Encodes the provided `val` into `uint32` format and appends the resulting
/// bytes to `buf`.
pub fn encode_uint32(val: u32, buf: &mut Vec<u8>) -> (r: Result<usize, EncoderError>)
    ensures
        final(buf)@ == old(buf)@ + leb_bytes(val as nat),
        r == Ok::<usize, EncoderError>(leb_bytes(val as nat).len() as usize),
{
    encode_varint(val as u64, buf)
}

/// Encodes the provided `val` into `uint64` format and appends the resulting
/// bytes to `buf`.
pub fn encode_uint64(val: u64, buf: &mut Vec<u8>) -> (r: Result<usize, EncoderError>)
    ensures
        final(buf)@ == old(buf)@ + leb_bytes(val as nat),
        r == Ok::<usize, EncoderError>(leb_bytes(val as nat).len() as usize),
{
    encode_varint(val, buf)
}

/// Encodes the provided `val` into `sint32` format (a ZigZag varint) and
/// appends the resulting bytes to `buf`.
pub fn encode_sint32(val: i32, buf: &mut Vec<u8>) -> (r: Result<usize, EncoderError>)
    ensures
        final(buf)@ == old(buf)@ + leb_bytes(zigzag32(val)),
        r == Ok::<usize, EncoderError>(leb_bytes(zigzag32(val)).len() as usize),
{
    let res: u64 = if val >= 0 {
        2 * (val as u64)
    } else {
        2 * ((-(val as i64)) as u64) - 1
    };
    encode_varint(res, buf)
}

/// Encodes the provided `val` into `sint64` format (a ZigZag varint) and
/// appends the resulting bytes to `buf`.
pub fn encode_sint64(val: i64, buf: &mut Vec<u8>) -> (r: Result<usize, EncoderError>)
    ensures
        final(buf)@ == old(buf)@ + leb_bytes(zigzag64(val)),
        r == Ok::<usize, EncoderError>(leb_bytes(zigzag64(val)).len() as usize),
{
    let res: u64 = if val >= 0 {
        2 * (val as u64)
    } else {
        2 * (((-(val as i128)) as u64) - 1) + 1
    };
    encode_varint(res, buf)
}

/// Encodes the provided `val` into `fixed32` format (four little-endian
/// octets) and appends the resulting bytes to `buf`.
pub fn encode_fixed32(val: u32, buf: &mut Vec<u8>) -> (r: Result<usize, EncoderError>)
    ensures
        final(buf)@ == old(buf)@ + le_bytes(val as nat, 4),
        r == Ok::<usize, EncoderError>(4usize),
{
    let ghost start: Seq<u8> = buf@;
    buf.push((val % 256) as u8);
    buf.push((val / 256 % 256) as u8);
    buf.push((val / 0x1_0000 % 256) as u8);
    buf.push((val / 0x100_0000) as u8);
    proof {
        let v: nat = val as nat;
        assert(buf@ =~= start + le_bytes(v, 4)) by {
            assert(le_bytes(v, 4) == seq![(v % 256) as u8] + le_bytes(v / 256, 3));
            assert(le_bytes(v / 256, 3) == seq![(v / 256 % 256) as u8] + le_bytes(v / 256 / 256, 2));
            assert(le_bytes(v / 256 / 256, 2) == seq![(v / 256 / 256 % 256) as u8] + le_bytes(
                v / 256 / 256 / 256, 1));
            assert(le_bytes(v / 256 / 256 / 256, 1) == seq![(v / 256 / 256 / 256 % 256) as u8]
                + le_bytes(v / 256 / 256 / 256 / 256, 0));
            assert(v / 256 / 256 == v / 0x1_0000) by (nonlinear_arith);
            assert(v / 0x1_0000 / 256 == v / 0x100_0000) by (nonlinear_arith);
            assert(v / 0x100_0000 % 256 == v / 0x100_0000);
        }
    }
    Ok(4)
}

/// Encodes the provided `val` into `fixed64` format (eight little-endian
/// octets) and appends the resulting bytes to `buf`.
pub fn encode_fixed64(val: u64, buf: &mut Vec<u8>) -> (r: Result<usize, EncoderError>)
    ensures
        final(buf)@ == old(buf)@ + le_bytes(val as nat, 8),
        r == Ok::<usize, EncoderError>(8usize),
{
    let ghost start: Seq<u8> = buf@;
    let mut v: u64 = val;
    let mut i: usize = 0;
    while i < 8
        invariant
            0 <= i <= 8,
            buf@ =~= start + le_bytes(val as nat, 8).take(i as int),
            v == spec_le_rest(val as nat, i as nat),
        decreases 8 - i,
    {
        proof {
            lemma_le_take_step(val as nat, 8, i as nat);
        }
        buf.push((v % 256) as u8);
        v = v / 256;
        i = i + 1;
    }
    proof {
        crate::wire::lemma_le_bytes_len(val as nat, 8);
        assert(buf@ =~= start + le_bytes(val as nat, 8));
    }
    Ok(8)
}

/// The value left after dropping the low `i` octets.
pub open spec fn spec_le_rest(v: nat, i: nat) -> nat
    decreases i,
{
    if i == 0 {
        v
    } else {
        spec_le_rest(v, (i - 1) as nat) / 256
    }
}

proof fn lemma_le_take_step(v: nat, w: nat, i: nat)
    requires
        i < w,
    ensures
        le_bytes(v, w).take(i + 1 as int) == le_bytes(v, w).take(i as int).push(
            (spec_le_rest(v, i) % 256) as u8),
    decreases i,
{
    crate::wire::lemma_le_bytes_len(v, w);
    lemma_le_index(v, w, i);
    assert(le_bytes(v, w).take(i + 1 as int) =~= le_bytes(v, w).take(i as int).push(
        (spec_le_rest(v, i) % 256) as u8));
}

proof fn lemma_le_index(v: nat, w: nat, i: nat)
    requires
        i < w,
    ensures
        le_bytes(v, w)[i as int] == (spec_le_rest(v, i) % 256) as u8,
    decreases i,
{
    crate::wire::lemma_le_bytes_len(v, w);
    if i == 0 {
    } else {
        lemma_le_index(v / 256, (w - 1) as nat, (i - 1) as nat);
        lemma_le_rest_unfold(v, i);
        assert(le_bytes(v, w)[i as int] == le_bytes(v / 256, (w - 1) as nat)[i - 1]);
    }
}

proof fn lemma_le_rest_unfold(v: nat, i: nat)
    requires
        i >= 1,
    ensures
        spec_le_rest(v, i) == spec_le_rest(v / 256, (i - 1) as nat),
    decreases i,
{
    if i == 1 {
        assert(spec_le_rest(v, 1) == spec_le_rest(v, 0) / 256);
        assert(spec_le_rest(v / 256, 0) == v / 256);
    } else {
        lemma_le_rest_unfold(v, (i - 1) as nat);
        assert(spec_le_rest(v, i) == spec_le_rest(v, (i - 1) as nat) / 256);
        assert(spec_le_rest(v / 256, (i - 1) as nat) == spec_le_rest(v / 256, (i - 2) as nat)
            / 256);
        lemma_le_rest_unfold(v, (i - 1) as nat);
        assert(spec_le_rest(v, (i - 1) as nat) == spec_le_rest(v / 256, (i - 2) as nat));
    }
}

/// Encodes the provided `val` into `sfixed32` format (its two's-complement
/// pattern in four little-endian octets) and appends the result to `buf`.
pub fn encode_sfixed32(val: i32, buf: &mut Vec<u8>) -> (r: Result<usize, EncoderError>)
    ensures
        final(buf)@ == old(buf)@ + le_bytes(i32_to_u32(val) as nat, 4),
        r == Ok::<usize, EncoderError>(4usize),
{
    encode_fixed32(i32_bits(val), buf)
}

/// Encodes the provided `val` into `sfixed64` format (its two's-complement
/// pattern in eight little-endian octets) and appends the result to `buf`.
pub fn encode_sfixed64(val: i64, buf: &mut Vec<u8>) -> (r: Result<usize, EncoderError>)
    ensures
        final(buf)@ == old(buf)@ + le_bytes(i64_to_u64(val) as nat, 8),
        r == Ok::<usize, EncoderError>(8usize),
{
    encode_fixed64(i64_bits(val), buf)
}

/// Wraps the provided `val` into `bytes` format — a varint length prefix
/// followed by the raw octets — and appends the result to `buf`.
pub fn encode_bytes(mut bytes: Vec<u8>, buf: &mut Vec<u8>) -> (r: Result<usize, EncoderError>)
    ensures
        final(buf)@ == old(buf)@ + leb_bytes(bytes@.len()) + bytes@,
        r == Ok::<usize, EncoderError>(
            (leb_bytes(bytes@.len()).len() + bytes@.len()) as usize),
{
    let start: usize = buf.len();
    let len: usize = bytes.len();
    let prefix = encode_varint(len as u64, buf);
    buf.append(&mut bytes);
    proof {
        lemma_leb_bytes_max(len as u64);
    }
    let total: usize = buf.len();
    Ok(total - start)
}


/// The packed payload of a repeated `bool` field: the element encodings
/// concatenated in order, with no inner keys.
pub open spec fn bool_list_payload(vs: Seq<bool>) -> Seq<u8>
    decreases vs.len(),
{
    if vs.len() == 0 {
        Seq::empty()
    } else {
        leb_bytes(if vs[0] { 1nat } else { 0nat }) + bool_list_payload(vs.skip(1))
    }
}

proof fn lemma_bool_list_payload_push(vs: Seq<bool>, v: bool)
    ensures
        bool_list_payload(vs.push(v)) == bool_list_payload(vs) + leb_bytes(if v { 1nat } else { 0nat }),
    decreases vs.len(),
{
    let p = vs.push(v);
    if vs.len() == 0 {
        assert(p[0] == v);
        assert(p.skip(1) =~= Seq::<bool>::empty());
        assert(bool_list_payload(p) == leb_bytes(if p[0] { 1nat } else { 0nat }) + bool_list_payload(p.skip(1)));
        assert(bool_list_payload(p.skip(1)) == Seq::<u8>::empty());
        assert(bool_list_payload(p) =~= bool_list_payload(vs) + leb_bytes(if v { 1nat } else { 0nat }));
    } else {
        lemma_bool_list_payload_push(vs.skip(1), v);
        assert(p[0] == vs[0]);
        assert(p.skip(1) =~= vs.skip(1).push(v));
        assert(bool_list_payload(p) == leb_bytes(if p[0] { 1nat } else { 0nat }) + bool_list_payload(p.skip(1)));
        assert(bool_list_payload(p) =~= bool_list_payload(vs) + leb_bytes(if v { 1nat } else { 0nat }));
    }
}

/// The packed payload of a repeated `int32` field: the element encodings
/// concatenated in order, with no inner keys.
pub open spec fn int32_list_payload(vs: Seq<i32>) -> Seq<u8>
    decreases vs.len(),
{
    if vs.len() == 0 {
        Seq::empty()
    } else {
        leb_bytes(i64_to_u64(vs[0] as i64) as nat) + int32_list_payload(vs.skip(1))
    }
}

proof fn lemma_int32_list_payload_push(vs: Seq<i32>, v: i32)
    ensures
        int32_list_payload(vs.push(v)) == int32_list_payload(vs) + leb_bytes(i64_to_u64(v as i64) as nat),
    decreases vs.len(),
{
    let p = vs.push(v);
    if vs.len() == 0 {
        assert(p[0] == v);
        assert(p.skip(1) =~= Seq::<i32>::empty());
        assert(int32_list_payload(p) == leb_bytes(i64_to_u64(p[0] as i64) as nat) + int32_list_payload(p.skip(1)));
        assert(int32_list_payload(p.skip(1)) == Seq::<u8>::empty());
        assert(int32_list_payload(p) =~= int32_list_payload(vs) + leb_bytes(i64_to_u64(v as i64) as nat));
    } else {
        lemma_int32_list_payload_push(vs.skip(1), v);
        assert(p[0] == vs[0]);
        assert(p.skip(1) =~= vs.skip(1).push(v));
        assert(int32_list_payload(p) == leb_bytes(i64_to_u64(p[0] as i64) as nat) + int32_list_payload(p.skip(1)));
        assert(int32_list_payload(p) =~= int32_list_payload(vs) + leb_bytes(i64_to_u64(v as i64) as nat));
    }
}

/// The packed payload of a repeated `int64` field: the element encodings
/// concatenated in order, with no inner keys.
pub open spec fn int64_list_payload(vs: Seq<i64>) -> Seq<u8>
    decreases vs.len(),
{
    if vs.len() == 0 {
        Seq::empty()
    } else {
        leb_bytes(i64_to_u64(vs[0]) as nat) + int64_list_payload(vs.skip(1))
    }
}

proof fn lemma_int64_list_payload_push(vs: Seq<i64>, v: i64)
    ensures
        int64_list_payload(vs.push(v)) == int64_list_payload(vs) + leb_bytes(i64_to_u64(v) as nat),
    decreases vs.len(),
{
    let p = vs.push(v);
    if vs.len() == 0 {
        assert(p[0] == v);
        assert(p.skip(1) =~= Seq::<i64>::empty());
        assert(int64_list_payload(p) == leb_bytes(i64_to_u64(p[0]) as nat) + int64_list_payload(p.skip(1)));
        assert(int64_list_payload(p.skip(1)) == Seq::<u8>::empty());
        assert(int64_list_payload(p) =~= int64_list_payload(vs) + leb_bytes(i64_to_u64(v) as nat));
    } else {
        lemma_int64_list_payload_push(vs.skip(1), v);
        assert(p[0] == vs[0]);
        assert(p.skip(1) =~= vs.skip(1).push(v));
        assert(int64_list_payload(p) == leb_bytes(i64_to_u64(p[0]) as nat) + int64_list_payload(p.skip(1)));
        assert(int64_list_payload(p) =~= int64_list_payload(vs) + leb_bytes(i64_to_u64(v) as nat));
    }
}

/// The packed payload of a repeated `uint32` field: the element encodings
/// concatenated in order, with no inner keys.
pub open spec fn uint32_list_payload(vs: Seq<u32>) -> Seq<u8>
    decreases vs.len(),
{
    if vs.len() == 0 {
        Seq::empty()
    } else {
        leb_bytes(vs[0] as nat) + uint32_list_payload(vs.skip(1))
    }
}

proof fn lemma_uint32_list_payload_push(vs: Seq<u32>, v: u32)
    ensures
        uint32_list_payload(vs.push(v)) == uint32_list_payload(vs) + leb_bytes(v as nat),
    decreases vs.len(),
{
    let p = vs.push(v);
    if vs.len() == 0 {
        assert(p[0] == v);
        assert(p.skip(1) =~= Seq::<u32>::empty());
        assert(uint32_list_payload(p) == leb_bytes(p[0] as nat) + uint32_list_payload(p.skip(1)));
        assert(uint32_list_payload(p.skip(1)) == Seq::<u8>::empty());
        assert(uint32_list_payload(p) =~= uint32_list_payload(vs) + leb_bytes(v as nat));
    } else {
        lemma_uint32_list_payload_push(vs.skip(1), v);
        assert(p[0] == vs[0]);
        assert(p.skip(1) =~= vs.skip(1).push(v));
        assert(uint32_list_payload(p) == leb_bytes(p[0] as nat) + uint32_list_payload(p.skip(1)));
        assert(uint32_list_payload(p) =~= uint32_list_payload(vs) + leb_bytes(v as nat));
    }
}

/// The packed payload of a repeated `uint64` field: the element encodings
/// concatenated in order, with no inner keys.
pub open spec fn uint64_list_payload(vs: Seq<u64>) -> Seq<u8>
    decreases vs.len(),
{
    if vs.len() == 0 {
        Seq::empty()
    } else {
        leb_bytes(vs[0] as nat) + uint64_list_payload(vs.skip(1))
    }
}

proof fn lemma_uint64_list_payload_push(vs: Seq<u64>, v: u64)
    ensures
        uint64_list_payload(vs.push(v)) == uint64_list_payload(vs) + leb_bytes(v as nat),
    decreases vs.len(),
{
    let p = vs.push(v);
    if vs.len() == 0 {
        assert(p[0] == v);
        assert(p.skip(1) =~= Seq::<u64>::empty());
        assert(uint64_list_payload(p) == leb_bytes(p[0] as nat) + uint64_list_payload(p.skip(1)));
        assert(uint64_list_payload(p.skip(1)) == Seq::<u8>::empty());
        assert(uint64_list_payload(p) =~= uint64_list_payload(vs) + leb_bytes(v as nat));
    } else {
        lemma_uint64_list_payload_push(vs.skip(1), v);
        assert(p[0] == vs[0]);
        assert(p.skip(1) =~= vs.skip(1).push(v));
        assert(uint64_list_payload(p) == leb_bytes(p[0] as nat) + uint64_list_payload(p.skip(1)));
        assert(uint64_list_payload(p) =~= uint64_list_payload(vs) + leb_bytes(v as nat));
    }
}

/// The packed payload of a repeated `sint32` field: the element encodings
/// concatenated in order, with no inner keys.
pub open spec fn sint32_list_payload(vs: Seq<i32>) -> Seq<u8>
    decreases vs.len(),
{
    if vs.len() == 0 {
        Seq::empty()
    } else {
        leb_bytes(zigzag32(vs[0])) + sint32_list_payload(vs.skip(1))
    }
}

proof fn lemma_sint32_list_payload_push(vs: Seq<i32>, v: i32)
    ensures
        sint32_list_payload(vs.push(v)) == sint32_list_payload(vs) + leb_bytes(zigzag32(v)),
    decreases vs.len(),
{
    let p = vs.push(v);
    if vs.len() == 0 {
        assert(p[0] == v);
        assert(p.skip(1) =~= Seq::<i32>::empty());
        assert(sint32_list_payload(p) == leb_bytes(zigzag32(p[0])) + sint32_list_payload(p.skip(1)));
        assert(sint32_list_payload(p.skip(1)) == Seq::<u8>::empty());
        assert(sint32_list_payload(p) =~= sint32_list_payload(vs) + leb_bytes(zigzag32(v)));
    } else {
        lemma_sint32_list_payload_push(vs.skip(1), v);
        assert(p[0] == vs[0]);
        assert(p.skip(1) =~= vs.skip(1).push(v));
        assert(sint32_list_payload(p) == leb_bytes(zigzag32(p[0])) + sint32_list_payload(p.skip(1)));
        assert(sint32_list_payload(p) =~= sint32_list_payload(vs) + leb_bytes(zigzag32(v)));
    }
}

/// The packed payload of a repeated `sint64` field: the element encodings
/// concatenated in order, with no inner keys.
pub open spec fn sint64_list_payload(vs: Seq<i64>) -> Seq<u8>
    decreases vs.len(),
{
    if vs.len() == 0 {
        Seq::empty()
    } else {
        leb_bytes(zigzag64(vs[0])) + sint64_list_payload(vs.skip(1))
    }
}

proof fn lemma_sint64_list_payload_push(vs: Seq<i64>, v: i64)
    ensures
        sint64_list_payload(vs.push(v)) == sint64_list_payload(vs) + leb_bytes(zigzag64(v)),
    decreases vs.len(),
{
    let p = vs.push(v);
    if vs.len() == 0 {
        assert(p[0] == v);
        assert(p.skip(1) =~= Seq::<i64>::empty());
        assert(sint64_list_payload(p) == leb_bytes(zigzag64(p[0])) + sint64_list_payload(p.skip(1)));
        assert(sint64_list_payload(p.skip(1)) == Seq::<u8>::empty());
        assert(sint64_list_payload(p) =~= sint64_list_payload(vs) + leb_bytes(zigzag64(v)));
    } else {
        lemma_sint64_list_payload_push(vs.skip(1), v);
        assert(p[0] == vs[0]);
        assert(p.skip(1) =~= vs.skip(1).push(v));
        assert(sint64_list_payload(p) == leb_bytes(zigzag64(p[0])) + sint64_list_payload(p.skip(1)));
        assert(sint64_list_payload(p) =~= sint64_list_payload(vs) + leb_bytes(zigzag64(v)));
    }
}

/// The packed payload of a repeated `fixed32` field: the element encodings
/// concatenated in order, with no inner keys.
pub open spec fn fixed32_list_payload(vs: Seq<u32>) -> Seq<u8>
    decreases vs.len(),
{
    if vs.len() == 0 {
        Seq::empty()
    } else {
        le_bytes(vs[0] as nat, 4) + fixed32_list_payload(vs.skip(1))
    }
}

proof fn lemma_fixed32_list_payload_push(vs: Seq<u32>, v: u32)
    ensures
        fixed32_list_payload(vs.push(v)) == fixed32_list_payload(vs) + le_bytes(v as nat, 4),
    decreases vs.len(),
{
    let p = vs.push(v);
    if vs.len() == 0 {
        assert(p[0] == v);
        assert(p.skip(1) =~= Seq::<u32>::empty());
        assert(fixed32_list_payload(p) == le_bytes(p[0] as nat, 4) + fixed32_list_payload(p.skip(1)));
        assert(fixed32_list_payload(p.skip(1)) == Seq::<u8>::empty());
        assert(fixed32_list_payload(p) =~= fixed32_list_payload(vs) + le_bytes(v as nat, 4));
    } else {
        lemma_fixed32_list_payload_push(vs.skip(1), v);
        assert(p[0] == vs[0]);
        assert(p.skip(1) =~= vs.skip(1).push(v));
        assert(fixed32_list_payload(p) == le_bytes(p[0] as nat, 4) + fixed32_list_payload(p.skip(1)));
        assert(fixed32_list_payload(p) =~= fixed32_list_payload(vs) + le_bytes(v as nat, 4));
    }
}

/// The packed payload of a repeated `fixed64` field: the element encodings
/// concatenated in order, with no inner keys.
pub open spec fn fixed64_list_payload(vs: Seq<u64>) -> Seq<u8>
    decreases vs.len(),
{
    if vs.len() == 0 {
        Seq::empty()
    } else {
        le_bytes(vs[0] as nat, 8) + fixed64_list_payload(vs.skip(1))
    }
}

proof fn lemma_fixed64_list_payload_push(vs: Seq<u64>, v: u64)
    ensures
        fixed64_list_payload(vs.push(v)) == fixed64_list_payload(vs) + le_bytes(v as nat, 8),
    decreases vs.len(),
{
    let p = vs.push(v);
    if vs.len() == 0 {
        assert(p[0] == v);
        assert(p.skip(1) =~= Seq::<u64>::empty());
        assert(fixed64_list_payload(p) == le_bytes(p[0] as nat, 8) + fixed64_list_payload(p.skip(1)));
        assert(fixed64_list_payload(p.skip(1)) == Seq::<u8>::empty());
        assert(fixed64_list_payload(p) =~= fixed64_list_payload(vs) + le_bytes(v as nat, 8));
    } else {
        lemma_fixed64_list_payload_push(vs.skip(1), v);
        assert(p[0] == vs[0]);
        assert(p.skip(1) =~= vs.skip(1).push(v));
        assert(fixed64_list_payload(p) == le_bytes(p[0] as nat, 8) + fixed64_list_payload(p.skip(1)));
        assert(fixed64_list_payload(p) =~= fixed64_list_payload(vs) + le_bytes(v as nat, 8));
    }
}

/// The packed payload of a repeated `sfixed32` field: the element encodings
/// concatenated in order, with no inner keys.
pub open spec fn sfixed32_list_payload(vs: Seq<i32>) -> Seq<u8>
    decreases vs.len(),
{
    if vs.len() == 0 {
        Seq::empty()
    } else {
        le_bytes(i32_to_u32(vs[0]) as nat, 4) + sfixed32_list_payload(vs.skip(1))
    }
}

proof fn lemma_sfixed32_list_payload_push(vs: Seq<i32>, v: i32)
    ensures
        sfixed32_list_payload(vs.push(v)) == sfixed32_list_payload(vs) + le_bytes(i32_to_u32(v) as nat, 4),
    decreases vs.len(),
{
    let p = vs.push(v);
    if vs.len() == 0 {
        assert(p[0] == v);
        assert(p.skip(1) =~= Seq::<i32>::empty());
        assert(sfixed32_list_payload(p) == le_bytes(i32_to_u32(p[0]) as nat, 4) + sfixed32_list_payload(p.skip(1)));
        assert(sfixed32_list_payload(p.skip(1)) == Seq::<u8>::empty());
        assert(sfixed32_list_payload(p) =~= sfixed32_list_payload(vs) + le_bytes(i32_to_u32(v) as nat, 4));
    } else {
        lemma_sfixed32_list_payload_push(vs.skip(1), v);
        assert(p[0] == vs[0]);
        assert(p.skip(1) =~= vs.skip(1).push(v));
        assert(sfixed32_list_payload(p) == le_bytes(i32_to_u32(p[0]) as nat, 4) + sfixed32_list_payload(p.skip(1)));
        assert(sfixed32_list_payload(p) =~= sfixed32_list_payload(vs) + le_bytes(i32_to_u32(v) as nat, 4));
    }
}

/// The packed payload of a repeated `sfixed64` field: the element encodings
/// concatenated in order, with no inner keys.
pub open spec fn sfixed64_list_payload(vs: Seq<i64>) -> Seq<u8>
    decreases vs.len(),
{
    if vs.len() == 0 {
        Seq::empty()
    } else {
        le_bytes(i64_to_u64(vs[0]) as nat, 8) + sfixed64_list_payload(vs.skip(1))
    }
}

proof fn lemma_sfixed64_list_payload_push(vs: Seq<i64>, v: i64)
    ensures
        sfixed64_list_payload(vs.push(v)) == sfixed64_list_payload(vs) + le_bytes(i64_to_u64(v) as nat, 8),
    decreases vs.len(),
{
    let p = vs.push(v);
    if vs.len() == 0 {
        assert(p[0] == v);
        assert(p.skip(1) =~= Seq::<i64>::empty());
        assert(sfixed64_list_payload(p) == le_bytes(i64_to_u64(p[0]) as nat, 8) + sfixed64_list_payload(p.skip(1)));
        assert(sfixed64_list_payload(p.skip(1)) == Seq::<u8>::empty());
        assert(sfixed64_list_payload(p) =~= sfixed64_list_payload(vs) + le_bytes(i64_to_u64(v) as nat, 8));
    } else {
        lemma_sfixed64_list_payload_push(vs.skip(1), v);
        assert(p[0] == vs[0]);
        assert(p.skip(1) =~= vs.skip(1).push(v));
        assert(sfixed64_list_payload(p) == le_bytes(i64_to_u64(p[0]) as nat, 8) + sfixed64_list_payload(p.skip(1)));
        assert(sfixed64_list_payload(p) =~= sfixed64_list_payload(vs) + le_bytes(i64_to_u64(v) as nat, 8));
    }
}

/// Provides encoder input format options.
///
/// This is the list of binary formats the verified encoder supports. The
/// floating-point formats of the wire protocol carry plain 32- or 64-bit
/// patterns on the wire; a caller encodes them through [`EncoderLit::Fixed32`]
/// and [`EncoderLit::Fixed64`] with the value's bit pattern.
#[derive(Debug)]
pub enum EncoderLit<'a> {
    /// Represents the `Bytes` input format.
    Bytes(&'a Vec<u8>),
    /// Represents the `Bool` input format.
    Bool(&'a bool),
    /// Represents the `BoolVec` input format.
    BoolVec(&'a Vec<bool>),
    /// Represents the `Int32` input format.
    Int32(&'a i32),
    /// Represents the `Int32Vec` input format.
    Int32Vec(&'a Vec<i32>),
    /// Represents the `Int64` input format.
    Int64(&'a i64),
    /// Represents the `Int64Vec` input format.
    Int64Vec(&'a Vec<i64>),
    /// Represents the `UInt32` input format.
    UInt32(&'a u32),
    /// Represents the `UInt32Vec` input format.
    UInt32Vec(&'a Vec<u32>),
    /// Represents the `UInt64` input format.
    UInt64(&'a u64),
    /// Represents the `UInt64Vec` input format.
    UInt64Vec(&'a Vec<u64>),
    /// Represents the `SInt32` input format.
    SInt32(&'a i32),
    /// Represents the `SInt32Vec` input format.
    SInt32Vec(&'a Vec<i32>),
    /// Represents the `SInt64` input format.
    SInt64(&'a i64),
    /// Represents the `SInt64Vec` input format.
    SInt64Vec(&'a Vec<i64>),
    /// Represents the `Fixed32` input format.
    Fixed32(&'a u32),
    /// Represents the `Fixed32Vec` input format.
    Fixed32Vec(&'a Vec<u32>),
    /// Represents the `Fixed64` input format.
    Fixed64(&'a u64),
    /// Represents the `Fixed64Vec` input format.
    Fixed64Vec(&'a Vec<u64>),
    /// Represents the `SFixed32` input format.
    SFixed32(&'a i32),
    /// Represents the `SFixed32Vec` input format.
    SFixed32Vec(&'a Vec<i32>),
    /// Represents the `SFixed64` input format.
    SFixed64(&'a i64),
    /// Represents the `SFixed64Vec` input format.
    SFixed64Vec(&'a Vec<i64>),
}


/// The wire type a given encoder input is written with.
pub open spec fn lit_typ(lit: EncoderLit) -> Typ {
    match lit {
        EncoderLit::Bytes(_) => Typ::LengthDelimited,
        EncoderLit::Bool(_) => Typ::Varint,
        EncoderLit::BoolVec(_) => Typ::LengthDelimited,
        EncoderLit::Int32(_) => Typ::Varint,
        EncoderLit::Int32Vec(_) => Typ::LengthDelimited,
        EncoderLit::Int64(_) => Typ::Varint,
        EncoderLit::Int64Vec(_) => Typ::LengthDelimited,
        EncoderLit::UInt32(_) => Typ::Varint,
        EncoderLit::UInt32Vec(_) => Typ::LengthDelimited,
        EncoderLit::UInt64(_) => Typ::Varint,
        EncoderLit::UInt64Vec(_) => Typ::LengthDelimited,
        EncoderLit::SInt32(_) => Typ::Varint,
        EncoderLit::SInt32Vec(_) => Typ::LengthDelimited,
        EncoderLit::SInt64(_) => Typ::Varint,
        EncoderLit::SInt64Vec(_) => Typ::LengthDelimited,
        EncoderLit::Fixed32(_) => Typ::Bit32,
        EncoderLit::Fixed32Vec(_) => Typ::LengthDelimited,
        EncoderLit::Fixed64(_) => Typ::Bit64,
        EncoderLit::Fixed64Vec(_) => Typ::LengthDelimited,
        EncoderLit::SFixed32(_) => Typ::Bit32,
        EncoderLit::SFixed32Vec(_) => Typ::LengthDelimited,
        EncoderLit::SFixed64(_) => Typ::Bit64,
        EncoderLit::SFixed64Vec(_) => Typ::LengthDelimited,
    }
}

/// The value octets a given encoder input produces, the length prefix of a
/// length-delimited input included.
pub open spec fn lit_payload(lit: EncoderLit) -> Seq<u8> {
    match lit {
        EncoderLit::Bytes(v) => leb_bytes(v@.len()) + v@,
        EncoderLit::Bool(v) => leb_bytes(if *v { 1nat } else { 0nat }),
        EncoderLit::BoolVec(v) => leb_bytes(bool_list_payload(v@).len()) + bool_list_payload(v@),
        EncoderLit::Int32(v) => leb_bytes(i64_to_u64(*v as i64) as nat),
        EncoderLit::Int32Vec(v) => leb_bytes(int32_list_payload(v@).len()) + int32_list_payload(v@),
        EncoderLit::Int64(v) => leb_bytes(i64_to_u64(*v) as nat),
        EncoderLit::Int64Vec(v) => leb_bytes(int64_list_payload(v@).len()) + int64_list_payload(v@),
        EncoderLit::UInt32(v) => leb_bytes(*v as nat),
        EncoderLit::UInt32Vec(v) => leb_bytes(uint32_list_payload(v@).len()) + uint32_list_payload(v@),
        EncoderLit::UInt64(v) => leb_bytes(*v as nat),
        EncoderLit::UInt64Vec(v) => leb_bytes(uint64_list_payload(v@).len()) + uint64_list_payload(v@),
        EncoderLit::SInt32(v) => leb_bytes(zigzag32(*v)),
        EncoderLit::SInt32Vec(v) => leb_bytes(sint32_list_payload(v@).len()) + sint32_list_payload(v@),
        EncoderLit::SInt64(v) => leb_bytes(zigzag64(*v)),
        EncoderLit::SInt64Vec(v) => leb_bytes(sint64_list_payload(v@).len()) + sint64_list_payload(v@),
        EncoderLit::Fixed32(v) => le_bytes(*v as nat, 4),
        EncoderLit::Fixed32Vec(v) => leb_bytes(fixed32_list_payload(v@).len()) + fixed32_list_payload(v@),
        EncoderLit::Fixed64(v) => le_bytes(*v as nat, 8),
        EncoderLit::Fixed64Vec(v) => leb_bytes(fixed64_list_payload(v@).len()) + fixed64_list_payload(v@),
        EncoderLit::SFixed32(v) => le_bytes(i32_to_u32(*v) as nat, 4),
        EncoderLit::SFixed32Vec(v) => leb_bytes(sfixed32_list_payload(v@).len()) + sfixed32_list_payload(v@),
        EncoderLit::SFixed64(v) => le_bytes(i64_to_u64(*v) as nat, 8),
        EncoderLit::SFixed64Vec(v) => leb_bytes(sfixed64_list_payload(v@).len()) + sfixed64_list_payload(v@),
    }
}

/// Provides the encoding engine for Protocol Buffers.
pub struct Encoder;

impl Encoder {

    /// Encodes the provided `val` into a `bool` field with the given `tag`
    /// number and appends the resulting bytes to `dst`.
    ///
    /// On success the number of written bytes is returned.
    pub fn encode_bool(&self, tag: u32, val: &bool, dst: &mut Vec<u8>) -> (r: Result<
        usize,
        EncoderError,
    >)
        ensures
            TAG_MIN <= tag <= TAG_MAX ==> {
                &&& final(dst)@ == old(dst)@ + key_bytes(tag as nat, Typ::Varint) + leb_bytes(if *val { 1nat } else { 0nat })
                &&& r == Ok::<usize, EncoderError>((key_bytes(tag as nat, Typ::Varint)
                    + leb_bytes(if *val { 1nat } else { 0nat })).len() as usize)
            },
            !(TAG_MIN <= tag <= TAG_MAX) ==> {
                &&& final(dst)@ == old(dst)@
                &&& r == Err::<usize, EncoderError>(EncoderError::InvalidTag)
            },
    {
        let start: usize = dst.len();
        match encode_key(tag, Typ::Varint, dst) {
            Ok(_) => {},
            Err(e) => {
                return Err(e);
            },
        }
        let _ = encode_bool(*val, dst);
        let end: usize = dst.len();
        Ok(end - start)
    }

    /// Encodes the provided `val` into a `int32` field with the given `tag`
    /// number and appends the resulting bytes to `dst`.
    ///
    /// On success the number of written bytes is returned.
    pub fn encode_int32(&self, tag: u32, val: &i32, dst: &mut Vec<u8>) -> (r: Result<
        usize,
        EncoderError,
    >)
        ensures
            TAG_MIN <= tag <= TAG_MAX ==> {
                &&& final(dst)@ == old(dst)@ + key_bytes(tag as nat, Typ::Varint) + leb_bytes(i64_to_u64(*val as i64) as nat)
                &&& r == Ok::<usize, EncoderError>((key_bytes(tag as nat, Typ::Varint)
                    + leb_bytes(i64_to_u64(*val as i64) as nat)).len() as usize)
            },
            !(TAG_MIN <= tag <= TAG_MAX) ==> {
                &&& final(dst)@ == old(dst)@
                &&& r == Err::<usize, EncoderError>(EncoderError::InvalidTag)
            },
    {
        let start: usize = dst.len();
        match encode_key(tag, Typ::Varint, dst) {
            Ok(_) => {},
            Err(e) => {
                return Err(e);
            },
        }
        let _ = encode_int32(*val, dst);
        let end: usize = dst.len();
        Ok(end - start)
    }

    /// Encodes the provided `val` into a `int64` field with the given `tag`
    /// number and appends the resulting bytes to `dst`.
    ///
    /// On success the number of written bytes is returned.
    pub fn encode_int64(&self, tag: u32, val: &i64, dst: &mut Vec<u8>) -> (r: Result<
        usize,
        EncoderError,
    >)
        ensures
            TAG_MIN <= tag <= TAG_MAX ==> {
                &&& final(dst)@ == old(dst)@ + key_bytes(tag as nat, Typ::Varint) + leb_bytes(i64_to_u64(*val) as nat)
                &&& r == Ok::<usize, EncoderError>((key_bytes(tag as nat, Typ::Varint)
                    + leb_bytes(i64_to_u64(*val) as nat)).len() as usize)
            },
            !(TAG_MIN <= tag <= TAG_MAX) ==> {
                &&& final(dst)@ == old(dst)@
                &&& r == Err::<usize, EncoderError>(EncoderError::InvalidTag)
            },
    {
        let start: usize = dst.len();
        match encode_key(tag, Typ::Varint, dst) {
            Ok(_) => {},
            Err(e) => {
                return Err(e);
            },
        }
        let _ = encode_int64(*val, dst);
        let end: usize = dst.len();
        Ok(end - start)
    }

    /// Encodes the provided `val` into a `uint32` field with the given `tag`
    /// number and appends the resulting bytes to `dst`.
    ///
    /// On success the number of written bytes is returned.
    pub fn encode_uint32(&self, tag: u32, val: &u32, dst: &mut Vec<u8>) -> (r: Result<
        usize,
        EncoderError,
    >)
        ensures
            TAG_MIN <= tag <= TAG_MAX ==> {
                &&& final(dst)@ == old(dst)@ + key_bytes(tag as nat, Typ::Varint) + leb_bytes(*val as nat)
                &&& r == Ok::<usize, EncoderError>((key_bytes(tag as nat, Typ::Varint)
                    + leb_bytes(*val as nat)).len() as usize)
            },
            !(TAG_MIN <= tag <= TAG_MAX) ==> {
                &&& final(dst)@ == old(dst)@
                &&& r == Err::<usize, EncoderError>(EncoderError::InvalidTag)
            },
    {
        let start: usize = dst.len();
        match encode_key(tag, Typ::Varint, dst) {
            Ok(_) => {},
            Err(e) => {
                return Err(e);
            },
        }
        let _ = encode_uint32(*val, dst);
        let end: usize = dst.len();
        Ok(end - start)
    }

    /// Encodes the provided `val` into a `uint64` field with the given `tag`
    /// number and appends the resulting bytes to `dst`.
    ///
    /// On success the number of written bytes is returned.
    pub fn encode_uint64(&self, tag: u32, val: &u64, dst: &mut Vec<u8>) -> (r: Result<
        usize,
        EncoderError,
    >)
        ensures
            TAG_MIN <= tag <= TAG_MAX ==> {
                &&& final(dst)@ == old(dst)@ + key_bytes(tag as nat, Typ::Varint) + leb_bytes(*val as nat)
                &&& r == Ok::<usize, EncoderError>((key_bytes(tag as nat, Typ::Varint)
                    + leb_bytes(*val as nat)).len() as usize)
            },
            !(TAG_MIN <= tag <= TAG_MAX) ==> {
                &&& final(dst)@ == old(dst)@
                &&& r == Err::<usize, EncoderError>(EncoderError::InvalidTag)
            },
    {
        let start: usize = dst.len();
        match encode_key(tag, Typ::Varint, dst) {
            Ok(_) => {},
            Err(e) => {
                return Err(e);
            },
        }
        let _ = encode_uint64(*val, dst);
        let end: usize = dst.len();
        Ok(end - start)
    }

    /// Encodes the provided `val` into a `sint32` field with the given `tag`
    /// number and appends the resulting bytes to `dst`.
    ///
    /// On success the number of written bytes is returned.
    pub fn encode_sint32(&self, tag: u32, val: &i32, dst: &mut Vec<u8>) -> (r: Result<
        usize,
        EncoderError,
    >)
        ensures
            TAG_MIN <= tag <= TAG_MAX ==> {
                &&& final(dst)@ == old(dst)@ + key_bytes(tag as nat, Typ::Varint) + leb_bytes(zigzag32(*val))
                &&& r == Ok::<usize, EncoderError>((key_bytes(tag as nat, Typ::Varint)
                    + leb_bytes(zigzag32(*val))).len() as usize)
            },
            !(TAG_MIN <= tag <= TAG_MAX) ==> {
                &&& final(dst)@ == old(dst)@
                &&& r == Err::<usize, EncoderError>(EncoderError::InvalidTag)
            },
    {
        let start: usize = dst.len();
        match encode_key(tag, Typ::Varint, dst) {
            Ok(_) => {},
            Err(e) => {
                return Err(e);
            },
        }
        let _ = encode_sint32(*val, dst);
        let end: usize = dst.len();
        Ok(end - start)
    }

    /// Encodes the provided `val` into a `sint64` field with the given `tag`
    /// number and appends the resulting bytes to `dst`.
    ///
    /// On success the number of written bytes is returned.
    pub fn encode_sint64(&self, tag: u32, val: &i64, dst: &mut Vec<u8>) -> (r: Result<
        usize,
        EncoderError,
    >)
        ensures
            TAG_MIN <= tag <= TAG_MAX ==> {
                &&& final(dst)@ == old(dst)@ + key_bytes(tag as nat, Typ::Varint) + leb_bytes(zigzag64(*val))
                &&& r == Ok::<usize, EncoderError>((key_bytes(tag as nat, Typ::Varint)
                    + leb_bytes(zigzag64(*val))).len() as usize)
            },
            !(TAG_MIN <= tag <= TAG_MAX) ==> {
                &&& final(dst)@ == old(dst)@
                &&& r == Err::<usize, EncoderError>(EncoderError::InvalidTag)
            },
    {
        let start: usize = dst.len();
        match encode_key(tag, Typ::Varint, dst) {
            Ok(_) => {},
            Err(e) => {
                return Err(e);
            },
        }
        let _ = encode_sint64(*val, dst);
        let end: usize = dst.len();
        Ok(end - start)
    }

    /// Encodes the provided `val` into a `fixed32` field with the given `tag`
    /// number and appends the resulting bytes to `dst`.
    ///
    /// On success the number of written bytes is returned.
    pub fn encode_fixed32(&self, tag: u32, val: &u32, dst: &mut Vec<u8>) -> (r: Result<
        usize,
        EncoderError,
    >)
        ensures
            TAG_MIN <= tag <= TAG_MAX ==> {
                &&& final(dst)@ == old(dst)@ + key_bytes(tag as nat, Typ::Bit32) + le_bytes(*val as nat, 4)
                &&& r == Ok::<usize, EncoderError>((key_bytes(tag as nat, Typ::Bit32)
                    + le_bytes(*val as nat, 4)).len() as usize)
            },
            !(TAG_MIN <= tag <= TAG_MAX) ==> {
                &&& final(dst)@ == old(dst)@
                &&& r == Err::<usize, EncoderError>(EncoderError::InvalidTag)
            },
    {
        let start: usize = dst.len();
        match encode_key(tag, Typ::Bit32, dst) {
            Ok(_) => {},
            Err(e) => {
                return Err(e);
            },
        }
        let _ = encode_fixed32(*val, dst);
        let end: usize = dst.len();
        Ok(end - start)
    }

    /// Encodes the provided `val` into a `fixed64` field with the given `tag`
    /// number and appends the resulting bytes to `dst`.
    ///
    /// On success the number of written bytes is returned.
    pub fn encode_fixed64(&self, tag: u32, val: &u64, dst: &mut Vec<u8>) -> (r: Result<
        usize,
        EncoderError,
    >)
        ensures
            TAG_MIN <= tag <= TAG_MAX ==> {
                &&& final(dst)@ == old(dst)@ + key_bytes(tag as nat, Typ::Bit64) + le_bytes(*val as nat, 8)
                &&& r == Ok::<usize, EncoderError>((key_bytes(tag as nat, Typ::Bit64)
                    + le_bytes(*val as nat, 8)).len() as usize)
            },
            !(TAG_MIN <= tag <= TAG_MAX) ==> {
                &&& final(dst)@ == old(dst)@
                &&& r == Err::<usize, EncoderError>(EncoderError::InvalidTag)
            },
    {
        let start: usize = dst.len();
        match encode_key(tag, Typ::Bit64, dst) {
            Ok(_) => {},
            Err(e) => {
                return Err(e);
            },
        }
        let _ = encode_fixed64(*val, dst);
        let end: usize = dst.len();
        Ok(end - start)
    }

    /// Encodes the provided `val` into a `sfixed32` field with the given `tag`
    /// number and appends the resulting bytes to `dst`.
    ///
    /// On success the number of written bytes is returned.
    pub fn encode_sfixed32(&self, tag: u32, val: &i32, dst: &mut Vec<u8>) -> (r: Result<
        usize,
        EncoderError,
    >)
        ensures
            TAG_MIN <= tag <= TAG_MAX ==> {
                &&& final(dst)@ == old(dst)@ + key_bytes(tag as nat, Typ::Bit32) + le_bytes(i32_to_u32(*val) as nat, 4)
                &&& r == Ok::<usize, EncoderError>((key_bytes(tag as nat, Typ::Bit32)
                    + le_bytes(i32_to_u32(*val) as nat, 4)).len() as usize)
            },
            !(TAG_MIN <= tag <= TAG_MAX) ==> {
                &&& final(dst)@ == old(dst)@
                &&& r == Err::<usize, EncoderError>(EncoderError::InvalidTag)
            },
    {
        let start: usize = dst.len();
        match encode_key(tag, Typ::Bit32, dst) {
            Ok(_) => {},
            Err(e) => {
                return Err(e);
            },
        }
        let _ = encode_sfixed32(*val, dst);
        let end: usize = dst.len();
        Ok(end - start)
    }

    /// Encodes the provided `val` into a `sfixed64` field with the given `tag`
    /// number and appends the resulting bytes to `dst`.
    ///
    /// On success the number of written bytes is returned.
    pub fn encode_sfixed64(&self, tag: u32, val: &i64, dst: &mut Vec<u8>) -> (r: Result<
        usize,
        EncoderError,
    >)
        ensures
            TAG_MIN <= tag <= TAG_MAX ==> {
                &&& final(dst)@ == old(dst)@ + key_bytes(tag as nat, Typ::Bit64) + le_bytes(i64_to_u64(*val) as nat, 8)
                &&& r == Ok::<usize, EncoderError>((key_bytes(tag as nat, Typ::Bit64)
                    + le_bytes(i64_to_u64(*val) as nat, 8)).len() as usize)
            },
            !(TAG_MIN <= tag <= TAG_MAX) ==> {
                &&& final(dst)@ == old(dst)@
                &&& r == Err::<usize, EncoderError>(EncoderError::InvalidTag)
            },
    {
        let start: usize = dst.len();
        match encode_key(tag, Typ::Bit64, dst) {
            Ok(_) => {},
            Err(e) => {
                return Err(e);
            },
        }
        let _ = encode_sfixed64(*val, dst);
        let end: usize = dst.len();
        Ok(end - start)
    }

    /// Encodes the provided `vals` into a packed repeated `bool` field with
    /// the given `tag` number and appends the resulting bytes to `dst`.
    ///
    /// On success the number of written bytes is returned.
    pub fn encode_bool_list(&self, tag: u32, vals: &Vec<bool>, dst: &mut Vec<u8>) -> (r: Result<
        usize,
        EncoderError,
    >)
        ensures
            TAG_MIN <= tag <= TAG_MAX ==> {
                &&& final(dst)@ == old(dst)@ + key_bytes(tag as nat, Typ::LengthDelimited)
                    + leb_bytes(bool_list_payload(vals@).len()) + bool_list_payload(vals@)
                &&& r == Ok::<usize, EncoderError>((key_bytes(tag as nat, Typ::LengthDelimited)
                    + leb_bytes(bool_list_payload(vals@).len())
                    + bool_list_payload(vals@)).len() as usize)
            },
            !(TAG_MIN <= tag <= TAG_MAX) ==> {
                &&& final(dst)@ == old(dst)@
                &&& r == Err::<usize, EncoderError>(EncoderError::InvalidTag)
            },
    {
        let start: usize = dst.len();
        let mut data: Vec<u8> = Vec::new();
        let mut i: usize = 0;
        while i < vals.len()
            invariant
                0 <= i <= vals@.len(),
                data@ == bool_list_payload(vals@.take(i as int)),
            decreases vals@.len() - i,
        {
            let _ = encode_bool(vals[i], &mut data);
            proof {
                assert(vals@.take(i + 1 as int) =~= vals@.take(i as int).push(vals@[i as int]));
                lemma_bool_list_payload_push(vals@.take(i as int), vals@[i as int]);
            }
            i = i + 1;
        }
        proof {
            assert(vals@.take(vals@.len() as int) =~= vals@);
        }
        match encode_key(tag, Typ::LengthDelimited, dst) {
            Ok(_) => {},
            Err(e) => {
                return Err(e);
            },
        }
        let _ = encode_bytes(data, dst);
        let end: usize = dst.len();
        Ok(end - start)
    }

    /// Encodes the provided `vals` into a packed repeated `int32` field with
    /// the given `tag` number and appends the resulting bytes to `dst`.
    ///
    /// On success the number of written bytes is returned.
    pub fn encode_int32_list(&self, tag: u32, vals: &Vec<i32>, dst: &mut Vec<u8>) -> (r: Result<
        usize,
        EncoderError,
    >)
        ensures
            TAG_MIN <= tag <= TAG_MAX ==> {
                &&& final(dst)@ == old(dst)@ + key_bytes(tag as nat, Typ::LengthDelimited)
                    + leb_bytes(int32_list_payload(vals@).len()) + int32_list_payload(vals@)
                &&& r == Ok::<usize, EncoderError>((key_bytes(tag as nat, Typ::LengthDelimited)
                    + leb_bytes(int32_list_payload(vals@).len())
                    + int32_list_payload(vals@)).len() as usize)
            },
            !(TAG_MIN <= tag <= TAG_MAX) ==> {
                &&& final(dst)@ == old(dst)@
                &&& r == Err::<usize, EncoderError>(EncoderError::InvalidTag)
            },
    {
        let start: usize = dst.len();
        let mut data: Vec<u8> = Vec::new();
        let mut i: usize = 0;
        while i < vals.len()
            invariant
                0 <= i <= vals@.len(),
                data@ == int32_list_payload(vals@.take(i as int)),
            decreases vals@.len() - i,
        {
            let _ = encode_int32(vals[i], &mut data);
            proof {
                assert(vals@.take(i + 1 as int) =~= vals@.take(i as int).push(vals@[i as int]));
                lemma_int32_list_payload_push(vals@.take(i as int), vals@[i as int]);
            }
            i = i + 1;
        }
        proof {
            assert(vals@.take(vals@.len() as int) =~= vals@);
        }
        match encode_key(tag, Typ::LengthDelimited, dst) {
            Ok(_) => {},
            Err(e) => {
                return Err(e);
            },
        }
        let _ = encode_bytes(data, dst);
        let end: usize = dst.len();
        Ok(end - start)
    }

    /// Encodes the provided `vals` into a packed repeated `int64` field with
    /// the given `tag` number and appends the resulting bytes to `dst`.
    ///
    /// On success the number of written bytes is returned.
    pub fn encode_int64_list(&self, tag: u32, vals: &Vec<i64>, dst: &mut Vec<u8>) -> (r: Result<
        usize,
        EncoderError,
    >)
        ensures
            TAG_MIN <= tag <= TAG_MAX ==> {
                &&& final(dst)@ == old(dst)@ + key_bytes(tag as nat, Typ::LengthDelimited)
                    + leb_bytes(int64_list_payload(vals@).len()) + int64_list_payload(vals@)
                &&& r == Ok::<usize, EncoderError>((key_bytes(tag as nat, Typ::LengthDelimited)
                    + leb_bytes(int64_list_payload(vals@).len())
                    + int64_list_payload(vals@)).len() as usize)
            },
            !(TAG_MIN <= tag <= TAG_MAX) ==> {
                &&& final(dst)@ == old(dst)@
                &&& r == Err::<usize, EncoderError>(EncoderError::InvalidTag)
            },
    {
        let start: usize = dst.len();
        let mut data: Vec<u8> = Vec::new();
        let mut i: usize = 0;
        while i < vals.len()
            invariant
                0 <= i <= vals@.len(),
                data@ == int64_list_payload(vals@.take(i as int)),
            decreases vals@.len() - i,
        {
            let _ = encode_int64(vals[i], &mut data);
            proof {
                assert(vals@.take(i + 1 as int) =~= vals@.take(i as int).push(vals@[i as int]));
                lemma_int64_list_payload_push(vals@.take(i as int), vals@[i as int]);
            }
            i = i + 1;
        }
        proof {
            assert(vals@.take(vals@.len() as int) =~= vals@);
        }
        match encode_key(tag, Typ::LengthDelimited, dst) {
            Ok(_) => {},
            Err(e) => {
                return Err(e);
            },
        }
        let _ = encode_bytes(data, dst);
        let end: usize = dst.len();
        Ok(end - start)
    }

    /// Encodes the provided `vals` into a packed repeated `uint32` field with
    /// the given `tag` number and appends the resulting bytes to `dst`.
    ///
    /// On success the number of written bytes is returned.
    pub fn encode_uint32_list(&self, tag: u32, vals: &Vec<u32>, dst: &mut Vec<u8>) -> (r: Result<
        usize,
        EncoderError,
    >)
        ensures
            TAG_MIN <= tag <= TAG_MAX ==> {
                &&& final(dst)@ == old(dst)@ + key_bytes(tag as nat, Typ::LengthDelimited)
                    + leb_bytes(uint32_list_payload(vals@).len()) + uint32_list_payload(vals@)
                &&& r == Ok::<usize, EncoderError>((key_bytes(tag as nat, Typ::LengthDelimited)
                    + leb_bytes(uint32_list_payload(vals@).len())
                    + uint32_list_payload(vals@)).len() as usize)
            },
            !(TAG_MIN <= tag <= TAG_MAX) ==> {
                &&& final(dst)@ == old(dst)@
                &&& r == Err::<usize, EncoderError>(EncoderError::InvalidTag)
            },
    {
        let start: usize = dst.len();
        let mut data: Vec<u8> = Vec::new();
        let mut i: usize = 0;
        while i < vals.len()
            invariant
                0 <= i <= vals@.len(),
                data@ == uint32_list_payload(vals@.take(i as int)),
            decreases vals@.len() - i,
        {
            let _ = encode_uint32(vals[i], &mut data);
            proof {
                assert(vals@.take(i + 1 as int) =~= vals@.take(i as int).push(vals@[i as int]));
                lemma_uint32_list_payload_push(vals@.take(i as int), vals@[i as int]);
            }
            i = i + 1;
        }
        proof {
            assert(vals@.take(vals@.len() as int) =~= vals@);
        }
        match encode_key(tag, Typ::LengthDelimited, dst) {
            Ok(_) => {},
            Err(e) => {
                return Err(e);
            },
        }
        let _ = encode_bytes(data, dst);
        let end: usize = dst.len();
        Ok(end - start)
    }

    /// Encodes the provided `vals` into a packed repeated `uint64` field with
    /// the given `tag` number and appends the resulting bytes to `dst`.
    ///
    /// On success the number of written bytes is returned.
    pub fn encode_uint64_list(&self, tag: u32, vals: &Vec<u64>, dst: &mut Vec<u8>) -> (r: Result<
        usize,
        EncoderError,
    >)
        ensures
            TAG_MIN <= tag <= TAG_MAX ==> {
                &&& final(dst)@ == old(dst)@ + key_bytes(tag as nat, Typ::LengthDelimited)
                    + leb_bytes(uint64_list_payload(vals@).len()) + uint64_list_payload(vals@)
                &&& r == Ok::<usize, EncoderError>((key_bytes(tag as nat, Typ::LengthDelimited)
                    + leb_bytes(uint64_list_payload(vals@).len())
                    + uint64_list_payload(vals@)).len() as usize)
            },
            !(TAG_MIN <= tag <= TAG_MAX) ==> {
                &&& final(dst)@ == old(dst)@
                &&& r == Err::<usize, EncoderError>(EncoderError::InvalidTag)
            },
    {
        let start: usize = dst.len();
        let mut data: Vec<u8> = Vec::new();
        let mut i: usize = 0;
        while i < vals.len()
            invariant
                0 <= i <= vals@.len(),
                data@ == uint64_list_payload(vals@.take(i as int)),
            decreases vals@.len() - i,
        {
            let _ = encode_uint64(vals[i], &mut data);
            proof {
                assert(vals@.take(i + 1 as int) =~= vals@.take(i as int).push(vals@[i as int]));
                lemma_uint64_list_payload_push(vals@.take(i as int), vals@[i as int]);
            }
            i = i + 1;
        }
        proof {
            assert(vals@.take(vals@.len() as int) =~= vals@);
        }
        match encode_key(tag, Typ::LengthDelimited, dst) {
            Ok(_) => {},
            Err(e) => {
                return Err(e);
            },
        }
        let _ = encode_bytes(data, dst);
        let end: usize = dst.len();
        Ok(end - start)
    }

    /// Encodes the provided `vals` into a packed repeated `sint32` field with
    /// the given `tag` number and appends the resulting bytes to `dst`.
    ///
    /// On success the number of written bytes is returned.
    pub fn encode_sint32_list(&self, tag: u32, vals: &Vec<i32>, dst: &mut Vec<u8>) -> (r: Result<
        usize,
        EncoderError,
    >)
        ensures
            TAG_MIN <= tag <= TAG_MAX ==> {
                &&& final(dst)@ == old(dst)@ + key_bytes(tag as nat, Typ::LengthDelimited)
                    + leb_bytes(sint32_list_payload(vals@).len()) + sint32_list_payload(vals@)
                &&& r == Ok::<usize, EncoderError>((key_bytes(tag as nat, Typ::LengthDelimited)
                    + leb_bytes(sint32_list_payload(vals@).len())
                    + sint32_list_payload(vals@)).len() as usize)
            },
            !(TAG_MIN <= tag <= TAG_MAX) ==> {
                &&& final(dst)@ == old(dst)@
                &&& r == Err::<usize, EncoderError>(EncoderError::InvalidTag)
            },
    {
        let start: usize = dst.len();
        let mut data: Vec<u8> = Vec::new();
        let mut i: usize = 0;
        while i < vals.len()
            invariant
                0 <= i <= vals@.len(),
                data@ == sint32_list_payload(vals@.take(i as int)),
            decreases vals@.len() - i,
        {
            let _ = encode_sint32(vals[i], &mut data);
            proof {
                assert(vals@.take(i + 1 as int) =~= vals@.take(i as int).push(vals@[i as int]));
                lemma_sint32_list_payload_push(vals@.take(i as int), vals@[i as int]);
            }
            i = i + 1;
        }
        proof {
            assert(vals@.take(vals@.len() as int) =~= vals@);
        }
        match encode_key(tag, Typ::LengthDelimited, dst) {
            Ok(_) => {},
            Err(e) => {
                return Err(e);
            },
        }
        let _ = encode_bytes(data, dst);
        let end: usize = dst.len();
        Ok(end - start)
    }

    /// Encodes the provided `vals` into a packed repeated `sint64` field with
    /// the given `tag` number and appends the resulting bytes to `dst`.
    ///
    /// On success the number of written bytes is returned.
    pub fn encode_sint64_list(&self, tag: u32, vals: &Vec<i64>, dst: &mut Vec<u8>) -> (r: Result<
        usize,
        EncoderError,
    >)
        ensures
            TAG_MIN <= tag <= TAG_MAX ==> {
                &&& final(dst)@ == old(dst)@ + key_bytes(tag as nat, Typ::LengthDelimited)
                    + leb_bytes(sint64_list_payload(vals@).len()) + sint64_list_payload(vals@)
                &&& r == Ok::<usize, EncoderError>((key_bytes(tag as nat, Typ::LengthDelimited)
                    + leb_bytes(sint64_list_payload(vals@).len())
                    + sint64_list_payload(vals@)).len() as usize)
            },
            !(TAG_MIN <= tag <= TAG_MAX) ==> {
                &&& final(dst)@ == old(dst)@
                &&& r == Err::<usize, EncoderError>(EncoderError::InvalidTag)
            },
    {
        let start: usize = dst.len();
        let mut data: Vec<u8> = Vec::new();
        let mut i: usize = 0;
        while i < vals.len()
            invariant
                0 <= i <= vals@.len(),
                data@ == sint64_list_payload(vals@.take(i as int)),
            decreases vals@.len() - i,
        {
            let _ = encode_sint64(vals[i], &mut data);
            proof {
                assert(vals@.take(i + 1 as int) =~= vals@.take(i as int).push(vals@[i as int]));
                lemma_sint64_list_payload_push(vals@.take(i as int), vals@[i as int]);
            }
            i = i + 1;
        }
        proof {
            assert(vals@.take(vals@.len() as int) =~= vals@);
        }
        match encode_key(tag, Typ::LengthDelimited, dst) {
            Ok(_) => {},
            Err(e) => {
                return Err(e);
            },
        }
        let _ = encode_bytes(data, dst);
        let end: usize = dst.len();
        Ok(end - start)
    }

    /// Encodes the provided `vals` into a packed repeated `fixed32` field with
    /// the given `tag` number and appends the resulting bytes to `dst`.
    ///
    /// On success the number of written bytes is returned.
    pub fn encode_fixed32_list(&self, tag: u32, vals: &Vec<u32>, dst: &mut Vec<u8>) -> (r: Result<
        usize,
        EncoderError,
    >)
        ensures
            TAG_MIN <= tag <= TAG_MAX ==> {
                &&& final(dst)@ == old(dst)@ + key_bytes(tag as nat, Typ::LengthDelimited)
                    + leb_bytes(fixed32_list_payload(vals@).len()) + fixed32_list_payload(vals@)
                &&& r == Ok::<usize, EncoderError>((key_bytes(tag as nat, Typ::LengthDelimited)
                    + leb_bytes(fixed32_list_payload(vals@).len())
                    + fixed32_list_payload(vals@)).len() as usize)
            },
            !(TAG_MIN <= tag <= TAG_MAX) ==> {
                &&& final(dst)@ == old(dst)@
                &&& r == Err::<usize, EncoderError>(EncoderError::InvalidTag)
            },
    {
        let start: usize = dst.len();
        let mut data: Vec<u8> = Vec::new();
        let mut i: usize = 0;
        while i < vals.len()
            invariant
                0 <= i <= vals@.len(),
                data@ == fixed32_list_payload(vals@.take(i as int)),
            decreases vals@.len() - i,
        {
            let _ = encode_fixed32(vals[i], &mut data);
            proof {
                assert(vals@.take(i + 1 as int) =~= vals@.take(i as int).push(vals@[i as int]));
                lemma_fixed32_list_payload_push(vals@.take(i as int), vals@[i as int]);
            }
            i = i + 1;
        }
        proof {
            assert(vals@.take(vals@.len() as int) =~= vals@);
        }
        match encode_key(tag, Typ::LengthDelimited, dst) {
            Ok(_) => {},
            Err(e) => {
                return Err(e);
            },
        }
        let _ = encode_bytes(data, dst);
        let end: usize = dst.len();
        Ok(end - start)
    }

    /// Encodes the provided `vals` into a packed repeated `fixed64` field with
    /// the given `tag` number and appends the resulting bytes to `dst`.
    ///
    /// On success the number of written bytes is returned.
    pub fn encode_fixed64_list(&self, tag: u32, vals: &Vec<u64>, dst: &mut Vec<u8>) -> (r: Result<
        usize,
        EncoderError,
    >)
        ensures
            TAG_MIN <= tag <= TAG_MAX ==> {
                &&& final(dst)@ == old(dst)@ + key_bytes(tag as nat, Typ::LengthDelimited)
                    + leb_bytes(fixed64_list_payload(vals@).len()) + fixed64_list_payload(vals@)
                &&& r == Ok::<usize, EncoderError>((key_bytes(tag as nat, Typ::LengthDelimited)
                    + leb_bytes(fixed64_list_payload(vals@).len())
                    + fixed64_list_payload(vals@)).len() as usize)
            },
            !(TAG_MIN <= tag <= TAG_MAX) ==> {
                &&& final(dst)@ == old(dst)@
                &&& r == Err::<usize, EncoderError>(EncoderError::InvalidTag)
            },
    {
        let start: usize = dst.len();
        let mut data: Vec<u8> = Vec::new();
        let mut i: usize = 0;
        while i < vals.len()
            invariant
                0 <= i <= vals@.len(),
                data@ == fixed64_list_payload(vals@.take(i as int)),
            decreases vals@.len() - i,
        {
            let _ = encode_fixed64(vals[i], &mut data);
            proof {
                assert(vals@.take(i + 1 as int) =~= vals@.take(i as int).push(vals@[i as int]));
                lemma_fixed64_list_payload_push(vals@.take(i as int), vals@[i as int]);
            }
            i = i + 1;
        }
        proof {
            assert(vals@.take(vals@.len() as int) =~= vals@);
        }
        match encode_key(tag, Typ::LengthDelimited, dst) {
            Ok(_) => {},
            Err(e) => {
                return Err(e);
            },
        }
        let _ = encode_bytes(data, dst);
        let end: usize = dst.len();
        Ok(end - start)
    }

    /// Encodes the provided `vals` into a packed repeated `sfixed32` field with
    /// the given `tag` number and appends the resulting bytes to `dst`.
    ///
    /// On success the number of written bytes is returned.
    pub fn encode_sfixed32_list(&self, tag: u32, vals: &Vec<i32>, dst: &mut Vec<u8>) -> (r: Result<
        usize,
        EncoderError,
    >)
        ensures
            TAG_MIN <= tag <= TAG_MAX ==> {
                &&& final(dst)@ == old(dst)@ + key_bytes(tag as nat, Typ::LengthDelimited)
                    + leb_bytes(sfixed32_list_payload(vals@).len()) + sfixed32_list_payload(vals@)
                &&& r == Ok::<usize, EncoderError>((key_bytes(tag as nat, Typ::LengthDelimited)
                    + leb_bytes(sfixed32_list_payload(vals@).len())
                    + sfixed32_list_payload(vals@)).len() as usize)
            },
            !(TAG_MIN <= tag <= TAG_MAX) ==> {
                &&& final(dst)@ == old(dst)@
                &&& r == Err::<usize, EncoderError>(EncoderError::InvalidTag)
            },
    {
        let start: usize = dst.len();
        let mut data: Vec<u8> = Vec::new();
        let mut i: usize = 0;
        while i < vals.len()
            invariant
                0 <= i <= vals@.len(),
                data@ == sfixed32_list_payload(vals@.take(i as int)),
            decreases vals@.len() - i,
        {
            let _ = encode_sfixed32(vals[i], &mut data);
            proof {
                assert(vals@.take(i + 1 as int) =~= vals@.take(i as int).push(vals@[i as int]));
                lemma_sfixed32_list_payload_push(vals@.take(i as int), vals@[i as int]);
            }
            i = i + 1;
        }
        proof {
            assert(vals@.take(vals@.len() as int) =~= vals@);
        }
        match encode_key(tag, Typ::LengthDelimited, dst) {
            Ok(_) => {},
            Err(e) => {
                return Err(e);
            },
        }
        let _ = encode_bytes(data, dst);
        let end: usize = dst.len();
        Ok(end - start)
    }

    /// Encodes the provided `vals` into a packed repeated `sfixed64` field with
    /// the given `tag` number and appends the resulting bytes to `dst`.
    ///
    /// On success the number of written bytes is returned.
    pub fn encode_sfixed64_list(&self, tag: u32, vals: &Vec<i64>, dst: &mut Vec<u8>) -> (r: Result<
        usize,
        EncoderError,
    >)
        ensures
            TAG_MIN <= tag <= TAG_MAX ==> {
                &&& final(dst)@ == old(dst)@ + key_bytes(tag as nat, Typ::LengthDelimited)
                    + leb_bytes(sfixed64_list_payload(vals@).len()) + sfixed64_list_payload(vals@)
                &&& r == Ok::<usize, EncoderError>((key_bytes(tag as nat, Typ::LengthDelimited)
                    + leb_bytes(sfixed64_list_payload(vals@).len())
                    + sfixed64_list_payload(vals@)).len() as usize)
            },
            !(TAG_MIN <= tag <= TAG_MAX) ==> {
                &&& final(dst)@ == old(dst)@
                &&& r == Err::<usize, EncoderError>(EncoderError::InvalidTag)
            },
    {
        let start: usize = dst.len();
        let mut data: Vec<u8> = Vec::new();
        let mut i: usize = 0;
        while i < vals.len()
            invariant
                0 <= i <= vals@.len(),
                data@ == sfixed64_list_payload(vals@.take(i as int)),
            decreases vals@.len() - i,
        {
            let _ = encode_sfixed64(vals[i], &mut data);
            proof {
                assert(vals@.take(i + 1 as int) =~= vals@.take(i as int).push(vals@[i as int]));
                lemma_sfixed64_list_payload_push(vals@.take(i as int), vals@[i as int]);
            }
            i = i + 1;
        }
        proof {
            assert(vals@.take(vals@.len() as int) =~= vals@);
        }
        match encode_key(tag, Typ::LengthDelimited, dst) {
            Ok(_) => {},
            Err(e) => {
                return Err(e);
            },
        }
        let _ = encode_bytes(data, dst);
        let end: usize = dst.len();
        Ok(end - start)
    }

    /// Encodes the provided `val` into a `bytes` field with the given `tag`
    /// number and appends the resulting bytes to `dst`.
    ///
    /// On success the number of written bytes is returned.
    pub fn encode_bytes(&self, tag: u32, val: &Vec<u8>, dst: &mut Vec<u8>) -> (r: Result<
        usize,
        EncoderError,
    >)
        ensures
            TAG_MIN <= tag <= TAG_MAX ==> {
                &&& final(dst)@ == old(dst)@ + key_bytes(tag as nat, Typ::LengthDelimited)
                    + leb_bytes(val@.len()) + val@
                &&& r == Ok::<usize, EncoderError>((key_bytes(tag as nat, Typ::LengthDelimited)
                    + leb_bytes(val@.len()) + val@).len() as usize)
            },
            !(TAG_MIN <= tag <= TAG_MAX) ==> {
                &&& final(dst)@ == old(dst)@
                &&& r == Err::<usize, EncoderError>(EncoderError::InvalidTag)
            },
    {
        let start: usize = dst.len();
        match encode_key(tag, Typ::LengthDelimited, dst) {
            Ok(_) => {},
            Err(e) => {
                return Err(e);
            },
        }
        let copy: Vec<u8> = vstd::slice::slice_to_vec(val.as_slice());
        let _ = encode_bytes(copy, dst);
        let end: usize = dst.len();
        Ok(end - start)
    }

    /// Transforms a `field` into `proto3` binary format and appends the
    /// result to `dst`: the key for the input's wire type, then the value
    /// octets.
    ///
    /// On success the number of written bytes is returned.
    pub fn encode(&self, field: (u32, EncoderLit), dst: &mut Vec<u8>) -> (r: Result<
        usize,
        EncoderError,
    >)
        ensures
            TAG_MIN <= field.0 <= TAG_MAX ==> {
                &&& final(dst)@ == old(dst)@ + key_bytes(field.0 as nat, lit_typ(field.1))
                    + lit_payload(field.1)
                &&& r == Ok::<usize, EncoderError>((key_bytes(field.0 as nat, lit_typ(field.1))
                    + lit_payload(field.1)).len() as usize)
            },
            !(TAG_MIN <= field.0 <= TAG_MAX) ==> {
                &&& final(dst)@ == old(dst)@
                &&& r == Err::<usize, EncoderError>(EncoderError::InvalidTag)
            },
    {
        match field.1 {
            EncoderLit::Bytes(val) => self.encode_bytes(field.0, val, dst),
            EncoderLit::Bool(val) => self.encode_bool(field.0, val, dst),
            EncoderLit::BoolVec(val) => self.encode_bool_list(field.0, val, dst),
            EncoderLit::Int32(val) => self.encode_int32(field.0, val, dst),
            EncoderLit::Int32Vec(val) => self.encode_int32_list(field.0, val, dst),
            EncoderLit::Int64(val) => self.encode_int64(field.0, val, dst),
            EncoderLit::Int64Vec(val) => self.encode_int64_list(field.0, val, dst),
            EncoderLit::UInt32(val) => self.encode_uint32(field.0, val, dst),
            EncoderLit::UInt32Vec(val) => self.encode_uint32_list(field.0, val, dst),
            EncoderLit::UInt64(val) => self.encode_uint64(field.0, val, dst),
            EncoderLit::UInt64Vec(val) => self.encode_uint64_list(field.0, val, dst),
            EncoderLit::SInt32(val) => self.encode_sint32(field.0, val, dst),
            EncoderLit::SInt32Vec(val) => self.encode_sint32_list(field.0, val, dst),
            EncoderLit::SInt64(val) => self.encode_sint64(field.0, val, dst),
            EncoderLit::SInt64Vec(val) => self.encode_sint64_list(field.0, val, dst),
            EncoderLit::Fixed32(val) => self.encode_fixed32(field.0, val, dst),
            EncoderLit::Fixed32Vec(val) => self.encode_fixed32_list(field.0, val, dst),
            EncoderLit::Fixed64(val) => self.encode_fixed64(field.0, val, dst),
            EncoderLit::Fixed64Vec(val) => self.encode_fixed64_list(field.0, val, dst),
            EncoderLit::SFixed32(val) => self.encode_sfixed32(field.0, val, dst),
            EncoderLit::SFixed32Vec(val) => self.encode_sfixed32_list(field.0, val, dst),
            EncoderLit::SFixed64(val) => self.encode_sfixed64(field.0, val, dst),
            EncoderLit::SFixed64Vec(val) => self.encode_sfixed64_list(field.0, val, dst),
        }
    }
}

impl Default for Encoder {
    fn default() -> (r: Self) {
        Encoder
    }
}

} // verus!
