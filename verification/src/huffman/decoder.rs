//! The Huffman decoder: a reader that consumes an encoded bitstream byte by
//! byte, walks the translation matrix `S` bits at a time, and emits the
//! decoded octets; `finalize` checks that the stream ends in valid 1-bit
//! padding.

use vstd::prelude::*;

verus! {

use vstd::arithmetic::power2::pow2;
use vstd::arithmetic::power2::lemma2_to64;
use vstd::arithmetic::power2::lemma2_to64_rest;
use vstd::slice::slice_index_get;
use crate::wire::pow2_u64;
use crate::huffman::flattener::Transition;
use crate::huffman::flattener::flatten;
use crate::huffman::flattener::rows_view;
use crate::huffman::flattener::matrix_wf;
use crate::huffman::flattener::spec_flatten;
use crate::huffman::speed::DecoderSpeed;
use crate::huffman::speed::speed_bits;
use crate::huffman::table::ENCODE_TABLE;
use crate::huffman::table::spec_table;

/// An object returned by the decode function when an error occurs.
#[derive(Clone, Copy, Debug, PartialEq, Eq, Structural)]
pub enum DecoderError {
    /// Indicates that the decoder received an invalid Huffman sequence: a
    /// walk into a cell with no continuation, the EOS symbol, or a stream
    /// that does not end in valid padding.
    InvalidInput,
}

/// The translation matrix the decoder for width `s` walks: the canonical
/// code table flattened at that width.
#[verifier::opaque]
pub open spec fn canonical_matrix(s: nat) -> Seq<Seq<Transition>> {
    spec_flatten(spec_table(), s, 257)
}

/// The reader state: current row, pending bits, their count, and the bits
/// consumed since the last emitted symbol (for the final padding check).
pub open spec fn spec_next(m: Seq<Seq<Transition>>, st: (int, nat, nat, nat), s: nat) -> (
    (int, nat, nat, nat),
    Option<u8>,
    bool,
) {
    let key = st.1 / pow2((st.2 - s) as nat);
    let e = m[st.0][key as int];
    let left = e.2 as nat;
    let keep = (st.2 - s + left) as nat;
    let buf2 = st.1 % pow2(keep);
    let tail2 = (st.3 % pow2((64 - (s - left)) as nat)) * pow2((s - left) as nat) + key / pow2(
        left,
    );
    match e.1 {
        Some(sym) => if sym < 256 {
            ((0, buf2, keep, 0), Some(sym as u8), true)
        } else {
            ((0, buf2, keep, 0), None, false)
        },
        None => match e.0 {
            Some(nid) => ((nid as int, buf2, keep, tail2), None, true),
            None => ((st.0, buf2, keep, tail2), None, false),
        },
    }
}

/// The reader run until fewer than `s` bits are pending: the final state,
/// the octets emitted, and whether the walk stayed on valid cells.
pub open spec fn spec_run(m: Seq<Seq<Transition>>, st: (int, nat, nat, nat), s: nat) -> (
    (int, nat, nat, nat),
    Seq<u8>,
    bool,
)
    decreases st.2,
{
    if st.2 < s {
        (st, Seq::empty(), true)
    } else {
        let (st2, em, ok) = spec_next(m, st, s);
        if !ok {
            (st2, Seq::empty(), false)
        } else if st2.2 >= st.2 {
            (st2, Seq::empty(), false)
        } else {
            let (st3, out, ok3) = spec_run(m, st2, s);
            (
                st3,
                (match em {
                    Some(b) => seq![b],
                    None => Seq::empty(),
                }) + out,
                ok3,
            )
        }
    }
}

/// The reader after one more input byte: eight bits are appended and the
/// reader runs.
pub open spec fn spec_feed(m: Seq<Seq<Transition>>, st: (int, nat, nat, nat), byte: u8, s: nat) -> (
    (int, nat, nat, nat),
    Seq<u8>,
    bool,
) {
    spec_run(m, (st.0, (st.1 * 256 + byte) as nat, (st.2 + 8) as nat, st.3), s)
}

/// The reader after a whole byte string.
pub open spec fn spec_feed_all(
    m: Seq<Seq<Transition>>,
    st: (int, nat, nat, nat),
    s: Seq<u8>,
    sp: nat,
) -> ((int, nat, nat, nat), Seq<u8>, bool)
    decreases s.len(),
{
    if s.len() == 0 {
        (st, Seq::empty(), true)
    } else {
        let (st2, out, ok) = spec_feed(m, st, s[0], sp);
        if !ok {
            (st2, out, false)
        } else {
            let (st3, out3, ok3) = spec_feed_all(m, st2, s.skip(1), sp);
            (st3, out + out3, ok3)
        }
    }
}

/// Whether a tail value is a valid all-ones padding pattern of at most
/// seven bits.
pub open spec fn valid_padding(tail: nat) -> bool {
    tail == 0 || tail == 1 || tail == 3 || tail == 7 || tail == 15 || tail == 31 || tail == 63
        || tail == 127
}

/// The reader at end of input: the pending bits are padded with 1-bits to a
/// whole chunk, one more symbol is taken if the padding allows it, and the
/// remaining tail must be a valid padding pattern.
pub open spec fn spec_finalize(m: Seq<Seq<Transition>>, st: (int, nat, nat, nat), s: nat) -> (
    (int, nat, nat, nat),
    Seq<u8>,
    bool,
) {
    let shift = if st.2 % s == 0 {
        0nat
    } else {
        (s - st.2 % s) as nat
    };
    let ext = (st.0, (st.1 * pow2(shift) + (pow2(shift) - 1)) as nat, (st.2 + shift) as nat, st.3);
    let stepped = if ext.2 >= s && ext.1 < pow2(s) && 0 <= ext.0 < m.len() {
        let e = m[ext.0][ext.1 as int];
        if shift <= e.2 {
            let (st2, em, ok) = spec_next(m, ext, s);
            (st2, (match em {
                Some(b) => seq![b],
                None => Seq::empty(),
            }), ok)
        } else {
            (ext, Seq::empty(), true)
        }
    } else {
        (ext, Seq::empty(), true)
    };
    if !stepped.2 {
        (stepped.0, stepped.1, false)
    } else {
        let cur = stepped.0;
        let buf3 = cur.1 / pow2(shift);
        let bs3 = (cur.2 - shift) as nat;
        let tail3 = (cur.3 % pow2((64 - bs3) as nat)) * pow2(bs3) + buf3;
        ((cur.0, 0, 0, 0), stepped.1, valid_padding(tail3))
    }
}

/// The whole decoding of an encoded byte string at width `sp`: the emitted
/// octets and whether the stream was valid.
pub open spec fn spec_decode(src: Seq<u8>, sp: nat) -> (Seq<u8>, bool) {
    let m = canonical_matrix(sp);
    let (st, out, ok) = spec_feed_all(m, (0, 0, 0, 0), src, sp);
    if !ok {
        (out, false)
    } else {
        let (st2, out2, ok2) = spec_finalize(m, st, sp);
        (out + out2, ok2)
    }
}


/// A run emits at most one octet per pending bit.
pub proof fn lemma_spec_run_out(m: Seq<Seq<Transition>>, st: (int, nat, nat, nat), s: nat)
    ensures
        spec_run(m, st, s).1.len() <= st.2,
        spec_run(m, st, s).2 ==> spec_run(m, st, s).1.len() + spec_run(m, st, s).0.2 <= st.2,
    decreases st.2,
{
    if st.2 < s {
    } else {
        let (st2, em, ok) = spec_next(m, st, s);
        if !ok {
        } else if st2.2 >= st.2 {
        } else {
            lemma_spec_run_out(m, st2, s);
        }
    }
}

/// Feeding bytes emits at most eight octets per input byte plus the
/// pending bits.
pub proof fn lemma_feed_all_out(
    m: Seq<Seq<Transition>>,
    st: (int, nat, nat, nat),
    s: Seq<u8>,
    sp: nat,
)
    ensures
        spec_feed_all(m, st, s, sp).1.len() <= st.2 + 8 * s.len(),
        spec_feed_all(m, st, s, sp).2 ==> spec_feed_all(m, st, s, sp).0.2 <= st.2 + 8 * s.len(),
    decreases s.len(),
{
    if s.len() > 0 {
        let (st2, out, ok) = spec_feed(m, st, s[0], sp);
        lemma_spec_run_out(m, (st.0, (st.1 * 256 + s[0]) as nat, (st.2 + 8) as nat, st.3), sp);
        if ok {
            lemma_feed_all_out(m, st2, s.skip(1), sp);
        }
    }
}

/// The whole decoding emits at most eight octets per input byte, plus one.
pub proof fn lemma_spec_decode_out(src: Seq<u8>, sp: nat)
    ensures
        spec_decode(src, sp).0.len() <= 8 * src.len() + 9,
{
    let m = canonical_matrix(sp);
    lemma_feed_all_out(m, (0, 0, 0, 0), src, sp);
    let (st, out, ok) = spec_feed_all(m, (0, 0, 0, 0), src, sp);
    if ok {
        let shift = if st.2 % sp == 0 {
            0nat
        } else {
            (sp - st.2 % sp) as nat
        };
        let ext = (st.0, (st.1 * pow2(shift) + (pow2(shift) - 1)) as nat, (st.2 + shift) as nat, st.3);
        if ext.2 >= sp && ext.1 < pow2(sp) && 0 <= ext.0 < m.len() {
        }
    }
}

/// An object for decoding a Huffman sequence back to its original form.
///
/// The reader owns the translation matrix for its read width and carries
/// its walk state between calls, so the encoded stream may arrive in pieces.
pub struct DecodeReader {
    /// The number of bits read at a time.
    speed: usize,
    /// The translation matrix for that width.
    matrix: Vec<Vec<Transition>>,
    /// The row the walk currently stands in.
    id: usize,
    /// The pending input bits, right-aligned.
    buf: u64,
    /// The number of pending bits.
    buf_size: u64,
    /// The bits consumed since the last emitted symbol, for the padding
    /// check.
    tail: u64,
}

impl DecodeReader {
    /// The read width.
    pub closed spec fn speed_val(&self) -> nat {
        self.speed as nat
    }

    /// The walk state as a mathematical tuple.
    pub closed spec fn state(&self) -> (int, nat, nat, nat) {
        (self.id as int, self.buf as nat, self.buf_size as nat, self.tail as nat)
    }

    /// A reader between calls: canonical matrix, a row in range, and fewer
    /// pending bits than one chunk.
    pub closed spec fn wf(&self) -> bool {
        &&& 1 <= self.speed <= 5
        &&& rows_view(self.matrix@) == canonical_matrix(self.speed as nat)
        &&& matrix_wf(rows_view(self.matrix@), self.speed as nat)
        &&& (self.id as int) < self.matrix@.len()
        &&& (self.buf as nat) < pow2(self.buf_size as nat)
        &&& (self.buf_size as nat) < self.speed as nat
    }

    /// Returns a new reader instance for the given read width.
    pub fn new(speed: DecoderSpeed) -> (r: DecodeReader)
        ensures
            r.wf(),
            r.speed_val() == speed_bits(speed),
            r.state() == (0int, 0nat, 0nat, 0nat),
    {
        proof {
            crate::huffman::table::lemma_table_wf();
            lemma2_to64();
            reveal(canonical_matrix);
        }
        let matrix = flatten(&ENCODE_TABLE, speed);
        DecodeReader { speed: speed.bits(), matrix, id: 0, buf: 0, buf_size: 0, tail: 0 }
    }

    /// Returns the translation target for `key` in the current row.
    fn find_target(&self, key: usize) -> (r: Result<Transition, DecoderError>)
        ensures
            ({
                let m = rows_view(self.matrix@);
                if 0 <= self.state().0 < m.len() && 0 <= key < m[self.state().0].len() {
                    r == Ok::<Transition, DecoderError>(m[self.state().0][key as int])
                } else {
                    r == Err::<Transition, DecoderError>(DecoderError::InvalidInput)
                }
            }),
    {
        if self.id >= self.matrix.len() {
            return Err(DecoderError::InvalidInput);
        }
        let row: &Vec<Transition> = &self.matrix[self.id];
        proof {
            assert(rows_view(self.matrix@)[self.id as int] == self.matrix@[self.id as int]@);
        }
        if key >= row.len() {
            return Err(DecoderError::InvalidInput);
        }
        Ok(row[key])
    }

    /// Decodes the next chunk of pending bits.
    ///
    /// This function expects at least one whole chunk of pending bits.
    fn decode_next(&mut self, dst: &mut Vec<u8>) -> (r: Result<(), DecoderError>)
        requires
            1 <= old(self).speed_val() <= 5,
            matrix_wf(rows_view(old(self).matrix@), old(self).speed_val()),
            0 <= old(self).state().0 < rows_view(old(self).matrix@).len(),
            old(self).state().1 < pow2(old(self).state().2),
            old(self).speed_val() <= old(self).state().2 <= 12,
        ensures
            final(self).matrix@ == old(self).matrix@,
            final(self).speed_val() == old(self).speed_val(),
            final(self).state().1 < pow2(final(self).state().2),
            final(self).state().2 < old(self).state().2,
            ({
                let (st2, em, ok) = spec_next(
                    rows_view(old(self).matrix@),
                    old(self).state(),
                    old(self).speed_val(),
                );
                &&& final(self).state() == st2
                &&& final(dst)@ == old(dst)@ + (match em {
                    Some(b) => seq![b],
                    None => Seq::<u8>::empty(),
                })
                &&& r == if ok {
                    Ok::<(), DecoderError>(())
                } else {
                    Err::<(), DecoderError>(DecoderError::InvalidInput)
                }
                &&& (ok ==> 0 <= final(self).state().0 < rows_view(old(self).matrix@).len())
            }),
    {
        proof {
            lemma2_to64();
            lemma2_to64_rest();
        }
        let s: u64 = self.speed as u64;
        let drop_bits: u64 = self.buf_size - s;
        let key: u64 = self.buf / pow2_u64(drop_bits);
        proof {
            vstd::arithmetic::power2::lemma_pow2_pos(drop_bits as nat);
            assert(pow2(self.buf_size as nat) == pow2(s as nat) * pow2(drop_bits as nat)) by {
                vstd::arithmetic::power2::lemma_pow2_adds(s as nat, drop_bits as nat);
            }
            assert((self.buf as nat) / pow2(drop_bits as nat) < pow2(s as nat))
                by (nonlinear_arith)
                requires
                    (self.buf as nat) < pow2(self.buf_size as nat),
                    pow2(self.buf_size as nat) == pow2(s as nat) * pow2(drop_bits as nat),
                    pow2(drop_bits as nat) >= 1,
            ;
            assert(pow2(s as nat) <= 32);
            assert(rows_view(self.matrix@)[self.id as int].len() == pow2(s as nat));
        }
        let t: Transition = match self.find_target(key as usize) {
            Ok(t) => t,
            Err(e) => {
                proof {
                    assert(false);
                }
                return Err(e);
            },
        };
        let left: u64 = t.2 as u64;
        proof {
            assert(rows_view(self.matrix@)[self.id as int][key as int].2 < self.speed);
        }
        let keep: u64 = self.buf_size - s + left;
        proof {
            vstd::arithmetic::power2::lemma_pow2_pos(keep as nat);
            vstd::arithmetic::div_mod::lemma_mod_bound(
                self.buf as int,
                pow2(keep as nat) as int,
            );
            vstd::arithmetic::power2::lemma_pow2_pos(left as nat);
            vstd::arithmetic::power2::lemma_pow2_pos((s - left) as nat);
            vstd::arithmetic::power2::lemma_pow2_pos((64 - (s - left)) as nat);
            assert(pow2(64) == pow2((64 - (s - left)) as nat) * pow2((s - left) as nat)) by {
                vstd::arithmetic::power2::lemma_pow2_adds(
                    (64 - (s - left)) as nat,
                    (s - left) as nat,
                );
            }
            assert(pow2(s as nat) == pow2((s - left) as nat) * pow2(left as nat)) by {
                vstd::arithmetic::power2::lemma_pow2_adds((s - left) as nat, left as nat);
            }
            vstd::arithmetic::div_mod::lemma_mod_bound(
                self.tail as int,
                pow2((64 - (s - left)) as nat) as int,
            );
            assert((key as nat) / pow2(left as nat) < pow2((s - left) as nat))
                by (nonlinear_arith)
                requires
                    (key as nat) < pow2(s as nat),
                    pow2(s as nat) == pow2((s - left) as nat) * pow2(left as nat),
                    pow2(left as nat) >= 1,
            ;
            // the new tail fits: the shifted part has its low bits clear
            let aa = self.tail as nat % pow2((64 - (s - left)) as nat);
            let kk = pow2((s - left) as nat);
            let bb = pow2((64 - (s - left)) as nat);
            assert(aa + 1 <= bb);
            vstd::arithmetic::mul::lemma_mul_inequality((aa + 1) as int, bb as int, kk as int);
            assert((aa + 1) * kk == aa * kk + kk) by (nonlinear_arith);
            assert(aa * kk + kk <= pow2(64));
        }
        self.buf = self.buf % pow2_u64(keep);
        self.buf_size = keep;
        self.tail = (self.tail % pow2_u64(64 - (s - left))) * pow2_u64(s - left) + key
            / pow2_u64(left);
        match t.1 {
            Some(sym) => {
                self.id = 0;
                self.tail = 0;
                if sym < 256 {
                    dst.push(sym as u8);
                    Ok(())
                } else {
                    proof {
                        assert(final(dst)@ =~= old(dst)@ + Seq::<u8>::empty());
                    }
                    Err(DecoderError::InvalidInput)
                }
            },
            None => {
                proof {
                    assert(final(dst)@ =~= old(dst)@ + Seq::<u8>::empty());
                }
                match t.0 {
                    Some(nid) => {
                        self.id = nid;
                        Ok(())
                    },
                    None => Err(DecoderError::InvalidInput),
                }
            },
        }
    }

    /// Decodes the entire buffer of pending bits after receiving one more
    /// input byte. If the bits do not end on a chunk boundary, fewer than
    /// one chunk of bits remains pending.
    #[verifier::loop_isolation(false)]
    pub fn decode(&mut self, byte: u8, dst: &mut Vec<u8>) -> (r: Result<(), DecoderError>)
        requires
            old(self).wf(),
        ensures
            final(self).speed_val() == old(self).speed_val(),
            ({
                let (st2, out, ok) = spec_feed(
                    canonical_matrix(old(self).speed_val()),
                    old(self).state(),
                    byte,
                    old(self).speed_val(),
                );
                &&& final(self).state() == st2
                &&& final(dst)@ == old(dst)@ + out
                &&& r == if ok {
                    Ok::<(), DecoderError>(())
                } else {
                    Err::<(), DecoderError>(DecoderError::InvalidInput)
                }
                &&& (ok ==> final(self).wf())
            }),
    {
        proof {
            lemma2_to64();
        }
        let ghost m = rows_view(self.matrix@);
        let ghost b0 = self.buf as nat;
        let ghost n0 = self.buf_size as nat;
        proof {
            assert(pow2((n0 + 8) as nat) == pow2(n0) * 256) by {
                vstd::arithmetic::power2::lemma_pow2_adds(n0, 8);
            }
            assert(b0 * 256 + 255 < pow2((n0 + 8) as nat)) by (nonlinear_arith)
                requires
                    b0 < pow2(n0),
                    pow2((n0 + 8) as nat) == pow2(n0) * 256,
            ;
        }
        self.buf = self.buf * 256 + (byte as u64);
        self.buf_size = self.buf_size + 8;
        let ghost st_start = self.state();
        let ghost mut done: Seq<u8> = Seq::empty();
        proof {
            assert(old(dst)@ + done =~= old(dst)@);
        }
        let s: u64 = self.speed as u64;
        loop
            invariant
                self.speed == old(self).speed,
                self.matrix@ == old(self).matrix@,
                (self.id as int) < m.len(),
                (self.buf as nat) < pow2(self.buf_size as nat),
                self.buf_size <= 12,
                dst@ == old(dst)@ + done,
                ({
                    let (stf, outf, okf) = spec_run(m, self.state(), s as nat);
                    let (st0, out0, ok0) = spec_run(m, st_start, s as nat);
                    &&& st0 == stf
                    &&& out0 == done + outf
                    &&& ok0 == okf
                }),
            decreases self.buf_size,
        {
            if self.buf_size < s {
                proof {
                    assert(done + Seq::<u8>::empty() =~= done);
                }
                return Ok(());
            }
            let ghost st_entry = self.state();
            let ghost dentry = dst@;
            match self.decode_next(dst) {
                Ok(_) => {
                    proof {
                        let (st2, em, ok) = spec_next(m, st_entry, s as nat);
                        match em {
                            Some(b) => {
                                assert(dst@ =~= old(dst)@ + (done + seq![b]));
                                let (st3, out3, ok3) = spec_run(m, st2, s as nat);
                                assert(done + (seq![b] + out3) =~= (done + seq![b]) + out3);
                                done = done + seq![b];
                            },
                            None => {
                                assert(dst@ =~= old(dst)@ + done);
                                let (st3, out3, ok3) = spec_run(m, st2, s as nat);
                                assert(Seq::<u8>::empty() + out3 =~= out3);
                            },
                        }
                    }
                },
                Err(e) => {
                    proof {
                        let (st2, em, ok) = spec_next(m, st_entry, s as nat);
                        assert(dst@ =~= old(dst)@ + done);
                        assert(done + Seq::<u8>::empty() =~= done);
                    }
                    return Err(e);
                },
            }
        }
    }

    /// Adjusts the remaining pending bits when the last input byte has been
    /// received: the bits are padded with 1-bits to a whole chunk, a final
    /// symbol is taken if the padding allows it, and what remains must be a
    /// valid all-ones padding pattern.
    pub fn finalize(&mut self, dst: &mut Vec<u8>) -> (r: Result<(), DecoderError>)
        requires
            old(self).wf(),
        ensures
            final(self).speed_val() == old(self).speed_val(),
            ({
                let (st2, out, ok) = spec_finalize(
                    canonical_matrix(old(self).speed_val()),
                    old(self).state(),
                    old(self).speed_val(),
                );
                &&& final(dst)@ == old(dst)@ + out
                &&& r == if ok {
                    Ok::<(), DecoderError>(())
                } else {
                    Err::<(), DecoderError>(DecoderError::InvalidInput)
                }
                &&& (ok ==> final(self).wf() && final(self).state() == st2)
            }),
    {
        proof {
            lemma2_to64();
            lemma2_to64_rest();
        }
        let ghost m = rows_view(self.matrix@);
        let s: u64 = self.speed as u64;
        proof {
            vstd::arithmetic::div_mod::lemma_small_mod(self.buf_size as nat, s as nat);
        }
        let shift: u64 = if self.buf_size % s == 0 {
            0
        } else {
            s - self.buf_size % s
        };
        proof {
            assert(pow2((self.buf_size + shift) as nat) == pow2(self.buf_size as nat) * pow2(
                shift as nat)) by {
                vstd::arithmetic::power2::lemma_pow2_adds(self.buf_size as nat, shift as nat);
            }
            vstd::arithmetic::power2::lemma_pow2_pos(shift as nat);
            assert((self.buf as nat) * pow2(shift as nat) + (pow2(shift as nat) - 1) < pow2(
                (self.buf_size + shift) as nat)) by (nonlinear_arith)
                requires
                    (self.buf as nat) < pow2(self.buf_size as nat),
                    pow2((self.buf_size + shift) as nat) == pow2(self.buf_size as nat) * pow2(
                        shift as nat),
                    pow2(shift as nat) >= 1,
            ;
            assert(self.buf_size + shift <= 5);
            assert(pow2((self.buf_size + shift) as nat) <= 32) by {
                if ((self.buf_size + shift) as nat) < 5 {
                    vstd::arithmetic::power2::lemma_pow2_strictly_increases(
                        (self.buf_size + shift) as nat,
                        5,
                    );
                }
            }
        }
        let p: u64 = pow2_u64(shift);
        self.buf = self.buf * p + (p - 1);
        self.buf_size = self.buf_size + shift;
        let ghost ext = self.state();
        let mut emitted: bool = false;
        if self.buf_size >= s {
            match self.find_target(self.buf as usize) {
                Ok(t) => {
                    if shift <= (t.2 as u64) {
                        proof {
                            assert(ext.2 == s as nat);
                            assert(pow2(0) == 1);
                        }
                        match self.decode_next(dst) {
                            Ok(_) => {},
                            Err(e) => {
                                return Err(e);
                            },
                        }
                        emitted = true;
                        proof {
                            let (st2, em, ok) = spec_next(m, ext, s as nat);
                            assert(pow2((ext.2 - s) as nat) == 1);
                            assert(ext.1 / pow2((ext.2 - s) as nat) == ext.1)
                                by (nonlinear_arith)
                                requires
                                    pow2((ext.2 - s) as nat) == 1,
                            ;
                            assert(self.state().2 == (ext.2 - s + m[ext.0][ext.1 as int].2) as nat);
                            assert(self.state().2 >= shift);
                        }
                    }
                },
                Err(_) => {},
            }
        }
        proof {
            if !emitted {
                assert(dst@ =~= old(dst)@ + Seq::<u8>::empty());
            }
        }
        let ghost cur = self.state();
        proof {
            assert(cur.2 >= shift);
            vstd::arithmetic::power2::lemma_pow2_pos(shift as nat);
            vstd::arithmetic::power2::lemma_pow2_pos((cur.2 - shift) as nat);
            vstd::arithmetic::power2::lemma_pow2_pos((64 - (cur.2 - shift)) as nat);
            assert(pow2(64) == pow2((64 - (cur.2 - shift)) as nat) * pow2(
                (cur.2 - shift) as nat)) by {
                vstd::arithmetic::power2::lemma_pow2_adds(
                    (64 - (cur.2 - shift)) as nat,
                    (cur.2 - shift) as nat,
                );
            }
            assert(pow2(cur.2 as nat) == pow2((cur.2 - shift) as nat) * pow2(shift as nat)) by {
                vstd::arithmetic::power2::lemma_pow2_adds((cur.2 - shift) as nat, shift as nat);
            }
            vstd::arithmetic::div_mod::lemma_mod_bound(
                self.tail as int,
                pow2((64 - (cur.2 - shift)) as nat) as int,
            );
            assert((self.buf as nat) / pow2(shift as nat) < pow2((cur.2 - shift) as nat))
                by (nonlinear_arith)
                requires
                    (self.buf as nat) < pow2(cur.2 as nat),
                    pow2(cur.2 as nat) == pow2((cur.2 - shift) as nat) * pow2(shift as nat),
                    pow2(shift as nat) >= 1,
            ;
            let aa = self.tail as nat % pow2((64 - (cur.2 - shift)) as nat);
            let kk = pow2((cur.2 - shift) as nat);
            let bb = pow2((64 - (cur.2 - shift)) as nat);
            assert(aa + 1 <= bb);
            vstd::arithmetic::mul::lemma_mul_inequality((aa + 1) as int, bb as int, kk as int);
            assert((aa + 1) * kk == aa * kk + kk) by (nonlinear_arith);
            assert(aa * kk + kk <= pow2(64));
        }
        let kept: u64 = self.buf_size - shift;
        let masked: u64 = if kept >= 1 {
            self.tail % pow2_u64(64 - kept)
        } else {
            self.tail
        };
        proof {
            if kept == 0 {
                vstd::arithmetic::div_mod::lemma_small_mod(self.tail as nat, pow2(64));
                assert(pow2(0) == 1);
            }
        }
        let tail3: u64 = masked * pow2_u64(kept) + self.buf / pow2_u64(shift);
        self.buf = 0;
        self.buf_size = 0;
        self.tail = 0;
        if tail3 == 0 || tail3 == 1 || tail3 == 3 || tail3 == 7 || tail3 == 15 || tail3 == 31
            || tail3 == 63 || tail3 == 127 {
            Ok(())
        } else {
            Err(DecoderError::InvalidInput)
        }
    }
}

/// Decodes the provided Huffman `src` sequence and appends the decoded
/// octets to `dst`. The `speed` selects how many bits are read at a time.
///
/// The appended octets and the result are exactly what the canonical
/// translation matrix yields on `src`; a walk into an empty cell, the EOS
/// symbol, or invalid final padding is rejected.
#[verifier::loop_isolation(false)]
pub fn decode(src: &[u8], dst: &mut Vec<u8>, speed: DecoderSpeed) -> (r: Result<
    (),
    DecoderError,
>)
    ensures
        ({
            let (out, ok) = spec_decode(src@, speed_bits(speed));
            &&& final(dst)@ == old(dst)@ + out
            &&& r == if ok {
                Ok::<(), DecoderError>(())
            } else {
                Err::<(), DecoderError>(DecoderError::InvalidInput)
            }
        }),
{
    let ghost sp = speed_bits(speed);
    let ghost m = canonical_matrix(sp);
    let mut reader = DecodeReader::new(speed);
    let ghost mut done: Seq<u8> = Seq::empty();
    proof {
        assert(old(dst)@ + done =~= old(dst)@);
        assert(src@.skip(0) =~= src@);
    }
    let mut i: usize = 0;
    while i < src.len()
        invariant
            0 <= i <= src@.len(),
            reader.wf(),
            reader.speed_val() == sp,
            dst@ == old(dst)@ + done,
            ({
                let (stf, outf, okf) = spec_feed_all(m, reader.state(), src@.skip(i as int), sp);
                let (st0, out0, ok0) = spec_feed_all(m, (0int, 0nat, 0nat, 0nat), src@, sp);
                &&& st0 == stf
                &&& out0 == done + outf
                &&& ok0 == okf
            }),
        decreases src@.len() - i,
    {
        let byte: u8 = *slice_index_get(src, i);
        let ghost st_entry = reader.state();
        let ghost dentry = dst@;
        match reader.decode(byte, dst) {
            Ok(_) => {
                proof {
                    let (st2, out, ok) = spec_feed(m, st_entry, byte, sp);
                    assert(src@.skip(i as int)[0] == src@[i as int]);
                    assert(src@.skip(i as int).skip(1) =~= src@.skip(i + 1));
                    let (st3, out3, ok3) = spec_feed_all(m, st2, src@.skip(i + 1), sp);
                    assert(dst@ =~= old(dst)@ + (done + out));
                    assert(done + (out + out3) =~= (done + out) + out3);
                    done = done + out;
                }
            },
            Err(e) => {
                proof {
                    let (st2, out, ok) = spec_feed(m, st_entry, byte, sp);
                    assert(src@.skip(i as int)[0] == src@[i as int]);
                    assert(dst@ =~= old(dst)@ + (done + out));
                }
                return Err(e);
            },
        }
        i = i + 1;
    }
    proof {
        assert(src@.skip(src@.len() as int) =~= Seq::<u8>::empty());
    }
    let ghost st_before = reader.state();
    match reader.finalize(dst) {
        Ok(_) => {
            proof {
                let (st2, out, ok) = spec_finalize(m, st_before, sp);
                assert(dst@ =~= old(dst)@ + (done + out));
            }
            Ok(())
        },
        Err(e) => {
            proof {
                let (st2, out, ok) = spec_finalize(m, st_before, sp);
                assert(dst@ =~= old(dst)@ + (done + out));
            }
            Err(e)
        },
    }
}

} // verus!
