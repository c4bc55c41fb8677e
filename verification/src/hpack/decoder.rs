//! The HPACK decoder: reads the header field representations of RFC 7541
//! §6, resolves indexed names against the unified table, applies dynamic
//! table size updates, and emits `(name, value, flags)` triples.

use vstd::prelude::*;

verus! {

use crate::huffman::speed::DecoderSpeed;
use crate::huffman::speed::speed_bits;
use crate::hpack::errors::DecoderError;
use crate::hpack::primitives::int_decoded;
use crate::hpack::primitives::string_decoded;
use crate::hpack::primitives::decode_integer;
use crate::hpack::primitives::decode_string;
use crate::hpack::primitives::lemma_int_decoded_range;
use crate::hpack::primitives::lemma_string_decoded_range;
use crate::hpack::table::Table;
use crate::hpack::table::evicted;
use crate::hpack::table::static_entries;

/// A flag reported with a header that was added to the indexing table.
pub const WITH_INDEXING: u8 = 0x4;

/// A flag reported with a sensitive, never indexed header.
pub const NEVER_INDEXED: u8 = 0x8;

/// Decoded headers as mathematical triples.
pub open spec fn hfields_view(s: Seq<(Vec<u8>, Vec<u8>, u8)>) -> Seq<(Seq<u8>, Seq<u8>, u8)> {
    Seq::new(s.len() as nat, |i: int| (s[i].0@, s[i].1@, s[i].2))
}

/// One decoded literal field: the octets consumed, the emitted header, the
/// dynamic entries after an optional insertion, and the error if the field
/// is malformed. `prefix` is the index prefix width, `insert` whether the
/// header joins the dynamic table, and `flag` the flag it is reported with.
pub open spec fn spec_literal(
    dynents: Seq<(Seq<u8>, Seq<u8>)>,
    max: nat,
    sp: nat,
    s: Seq<u8>,
    prefix: nat,
    insert: bool,
    flag: u8,
) -> (int, Option<(Seq<u8>, Seq<u8>, u8)>, Seq<(Seq<u8>, Seq<u8>)>, Option<DecoderError>) {
    let es = static_entries() + dynents;
    match int_decoded(s, prefix) {
        Ok((idx, n)) => {
            if idx == 0 {
                match string_decoded(s.skip(n), sp) {
                    Ok((name, n2)) => match string_decoded(s.skip(n + n2), sp) {
                        Ok((value, n3)) => (
                            n + n2 + n3,
                            Some((name, value, flag)),
                            if insert {
                                evicted(seq![(name, value)] + dynents, max)
                            } else {
                                dynents
                            },
                            None,
                        ),
                        Err(e) => (0, None, dynents, Some(e)),
                    },
                    Err(e) => (0, None, dynents, Some(e)),
                }
            } else if idx <= es.len() {
                match string_decoded(s.skip(n), sp) {
                    Ok((value, n2)) => (
                        n + n2,
                        Some((es[idx - 1].0, value, flag)),
                        if insert {
                            evicted(seq![(es[idx - 1].0, value)] + dynents, max)
                        } else {
                            dynents
                        },
                        None,
                    ),
                    Err(e) => (0, None, dynents, Some(e)),
                }
            } else {
                (0, None, dynents, Some(DecoderError::InvalidIndex))
            }
        },
        Err(e) => (0, None, dynents, Some(e)),
    }
}

/// One decoded field of any representation: the octets consumed, the
/// emitted header if any, the dynamic entries and size limit afterwards,
/// and the error if the field is malformed.
pub open spec fn spec_field(
    dynents: Seq<(Seq<u8>, Seq<u8>)>,
    max: nat,
    limit: nat,
    sp: nat,
    s: Seq<u8>,
) -> (int, Option<(Seq<u8>, Seq<u8>, u8)>, Seq<(Seq<u8>, Seq<u8>)>, nat, Option<DecoderError>) {
    let es = static_entries() + dynents;
    if s.len() == 0 {
        (0, None, dynents, max, None)
    } else if s[0] >= 128 {
        match int_decoded(s, 7) {
            Ok((idx, n)) => if 1 <= idx <= es.len() {
                (n, Some((es[idx - 1].0, es[idx - 1].1, 0)), dynents, max, None)
            } else {
                (0, None, dynents, max, Some(DecoderError::InvalidIndex))
            },
            Err(e) => (0, None, dynents, max, Some(e)),
        }
    } else if s[0] >= 64 {
        let (c, em, d2, err) = spec_literal(dynents, max, sp, s, 6, true, 4);
        (c, em, d2, max, err)
    } else if s[0] >= 32 {
        match int_decoded(s, 5) {
            Ok((sz, n)) => if sz > limit {
                (0, None, dynents, max, Some(DecoderError::InvalidMaxDynamicSize))
            } else {
                (n, None, evicted(dynents, sz as nat), sz as nat, None)
            },
            Err(e) => (0, None, dynents, max, Some(e)),
        }
    } else if s[0] >= 16 {
        let (c, em, d2, err) = spec_literal(dynents, max, sp, s, 4, false, 8);
        (c, em, d2, max, err)
    } else {
        let (c, em, d2, err) = spec_literal(dynents, max, sp, s, 4, false, 0);
        (c, em, d2, max, err)
    }
}

/// The decoder run over `s`, decoding at most `k` fields: the octets
/// consumed, the headers emitted, the dynamic entries and size limit
/// afterwards, and the error that stopped it, if any.
pub open spec fn spec_drain(
    dynents: Seq<(Seq<u8>, Seq<u8>)>,
    max: nat,
    limit: nat,
    sp: nat,
    s: Seq<u8>,
    k: int,
) -> (int, Seq<(Seq<u8>, Seq<u8>, u8)>, Seq<(Seq<u8>, Seq<u8>)>, nat, Option<DecoderError>)
    decreases k,
{
    if s.len() == 0 || k <= 0 {
        (0, Seq::empty(), dynents, max, None)
    } else {
        let (c, em, d2, m2, err) = spec_field(dynents, max, limit, sp, s);
        if err is Some {
            (0, Seq::empty(), dynents, max, err)
        } else {
            let (c3, fs3, d3, m3, e3) = spec_drain(d2, m2, limit, sp, s.skip(c), k - 1);
            (
                c + c3,
                (match em {
                    Some(f) => seq![f],
                    None => Seq::empty(),
                }) + fs3,
                d3,
                m3,
                e3,
            )
        }
    }
}

/// A clean literal field consumes at least one and at most all octets.
pub proof fn lemma_literal_range(
    dynents: Seq<(Seq<u8>, Seq<u8>)>,
    max: nat,
    sp: nat,
    s: Seq<u8>,
    prefix: nat,
    insert: bool,
    flag: u8,
)
    ensures
        spec_literal(dynents, max, sp, s, prefix, insert, flag).3 is None ==> 1 <= spec_literal(
            dynents,
            max,
            sp,
            s,
            prefix,
            insert,
            flag,
        ).0 <= s.len(),
{
    lemma_int_decoded_range(s, prefix);
    match int_decoded(s, prefix) {
        Ok((idx, n)) => {
            lemma_string_decoded_range(s.skip(n), sp);
            if idx == 0 {
                match string_decoded(s.skip(n), sp) {
                    Ok((name, n2)) => {
                        lemma_string_decoded_range(s.skip(n + n2), sp);
                    },
                    Err(_) => {},
                }
            }
        },
        Err(_) => {},
    }
}

/// A clean field consumes at least one and at most all octets.
pub proof fn lemma_field_range(
    dynents: Seq<(Seq<u8>, Seq<u8>)>,
    max: nat,
    lim: nat,
    sp: nat,
    s: Seq<u8>,
)
    requires
        s.len() > 0,
    ensures
        spec_field(dynents, max, lim, sp, s).4 is None ==> 1 <= spec_field(
            dynents,
            max,
            lim,
            sp,
            s,
        ).0 <= s.len(),
{
    if s[0] >= 128 {
        lemma_int_decoded_range(s, 7);
    } else if s[0] >= 64 {
        lemma_literal_range(dynents, max, sp, s, 6, true, 4);
    } else if s[0] >= 32 {
        lemma_int_decoded_range(s, 5);
    } else if s[0] >= 16 {
        lemma_literal_range(dynents, max, sp, s, 4, false, 8);
    } else {
        lemma_literal_range(dynents, max, sp, s, 4, false, 0);
    }
}

/// One clean field step unfolds one drain recursion.
pub proof fn lemma_drain_unfold(
    dynents: Seq<(Seq<u8>, Seq<u8>)>,
    max: nat,
    lim: nat,
    sp: nat,
    s: Seq<u8>,
    k: int,
)
    requires
        s.len() > 0,
        k > 0,
        spec_field(dynents, max, lim, sp, s).4 is None,
    ensures
        ({
            let (c, em, d2, m2, e) = spec_field(dynents, max, lim, sp, s);
            let (c3, fs3, d3, m3, e3) = spec_drain(d2, m2, lim, sp, s.skip(c), k - 1);
            spec_drain(dynents, max, lim, sp, s, k) == (
                c + c3,
                (match em {
                    Some(f) => seq![f],
                    None => Seq::<(Seq<u8>, Seq<u8>, u8)>::empty(),
                }) + fs3,
                d3,
                m3,
                e3,
            )
        }),
{
}

/// A malformed field stops the drain with its error.
pub proof fn lemma_drain_err(
    dynents: Seq<(Seq<u8>, Seq<u8>)>,
    max: nat,
    lim: nat,
    sp: nat,
    s: Seq<u8>,
    k: int,
)
    requires
        s.len() > 0,
        k > 0,
        spec_field(dynents, max, lim, sp, s).4 is Some,
    ensures
        spec_drain(dynents, max, lim, sp, s, k) == (
            0int,
            Seq::<(Seq<u8>, Seq<u8>, u8)>::empty(),
            dynents,
            max,
            spec_field(dynents, max, lim, sp, s).4,
        ),
{
}

/// An object for decoding HTTP/2 headers.
///
/// The decoder owns the indexing table its peer encoder fills, and a hard
/// limit on the dynamic table size set by the surrounding protocol, which a
/// size update signal may not exceed.
pub struct Decoder {
    /// The number of bits read at a time while decoding a Huffman string.
    speed: DecoderSpeed,
    /// The externally imposed limit on the dynamic table size.
    max_dynamic_size: u32,
    /// A store for the static and the dynamic headers.
    table: Table,
}

impl Decoder {
    /// The dynamic entries, newest first.
    pub closed spec fn dyn_entries(&self) -> Seq<(Seq<u8>, Seq<u8>)> {
        self.table.dyn_entries()
    }

    /// The unified entries.
    pub closed spec fn entries(&self) -> Seq<(Seq<u8>, Seq<u8>)> {
        self.table.entries()
    }

    /// The dynamic table's current size limit.
    pub closed spec fn max(&self) -> nat {
        self.table.max()
    }

    /// The protocol's hard limit on the dynamic table size.
    pub closed spec fn limit(&self) -> nat {
        self.max_dynamic_size as nat
    }

    /// The Huffman read width.
    pub closed spec fn sp(&self) -> nat {
        speed_bits(self.speed)
    }

    /// The decoder's table is well formed.
    pub closed spec fn wf(&self) -> bool {
        self.table.wf()
    }

    /// Returns a new decoder instance with a desired maximum allowed size
    /// of the dynamic table.
    pub fn with_dynamic_size(max_dynamic_size: u32) -> (r: Decoder)
        ensures
            r.wf(),
            r.dyn_entries() =~= Seq::<(Seq<u8>, Seq<u8>)>::empty(),
            r.max() == max_dynamic_size,
            r.limit() == max_dynamic_size,
            r.sp() == 5,
    {
        Decoder {
            speed: DecoderSpeed::FiveBits,
            max_dynamic_size,
            table: Table::with_dynamic_size(max_dynamic_size),
        }
    }

    /// Returns the maximum allowed size of the dynamic table.
    ///
    /// This is the hard limit set by the external protocol; the table
    /// itself may currently be allowed less.
    pub fn max_dynamic_size(&self) -> (r: u32)
        ensures
            r == self.max(),
    {
        self.table.max_dynamic_size()
    }

    /// Sets the hard limit on the dynamic table size.
    ///
    /// Changing the limit does not resize the table; the table follows a
    /// size update signal in the header block.
    pub fn set_max_dynamic_size(&mut self, size: u32)
        ensures
            final(self).limit() == size,
            final(self).dyn_entries() == old(self).dyn_entries(),
            final(self).max() == old(self).max(),
            final(self).sp() == old(self).sp(),
            old(self).wf() ==> final(self).wf(),
    {
        self.max_dynamic_size = size;
    }

    /// Decodes a header that exists in the indexing table from the indexed
    /// header field representation at the front of `buf`.
    ///
    /// On success the header is appended to `dst` with no flags and the
    /// number of consumed octets is returned.
    pub fn decode_indexed(&self, buf: &mut Vec<u8>, dst: &mut Vec<(Vec<u8>, Vec<u8>, u8)>) -> (r:
        Result<usize, DecoderError>)
        requires
            self.wf(),
        ensures
            match int_decoded(old(buf)@, 7) {
                Ok((idx, n)) => {
                    &&& (1 <= idx <= self.entries().len() ==> {
                        &&& r == Ok::<usize, DecoderError>(n as usize)
                        &&& final(buf)@ == old(buf)@.skip(n)
                        &&& hfields_view(final(dst)@) == hfields_view(old(dst)@) + seq![
                            (self.entries()[idx - 1].0, self.entries()[idx - 1].1, 0u8),
                        ]
                    })
                    &&& (!(1 <= idx <= self.entries().len()) ==> r == Err::<
                        usize,
                        DecoderError,
                    >(DecoderError::InvalidIndex) && final(dst)@ == old(dst)@)
                },
                Err(e) => r == Err::<usize, DecoderError>(e) && final(dst)@ == old(dst)@,
            },
    {
        let mut index: u32 = 0;
        let total: usize = match decode_integer(buf, &mut index, 7) {
            Ok(n) => n,
            Err(e) => {
                return Err(e);
            },
        };
        let (name, value) = match self.table.get(index) {
            Some(field) => field,
            None => {
                return Err(DecoderError::InvalidIndex);
            },
        };
        let ghost dentry = dst@;
        dst.push((name, value, 0));
        proof {
            assert(hfields_view(dst@) =~= hfields_view(dentry) + seq![
                (self.entries()[index - 1].0, self.entries()[index - 1].1, 0u8),
            ]);
        }
        Ok(total)
    }

    /// Decodes a header from a literal header field representation at the
    /// front of `buf`: the name either follows inline or is the name of the
    /// entry the index names, the value follows inline, and a header with
    /// incremental indexing joins the dynamic table.
    ///
    /// On success the header is appended to `dst` with the flag of its
    /// representation, and the number of consumed octets is returned.
    #[verifier::rlimit(100)]
    #[verifier::spinoff_prover]
    fn decode_literal(&mut self, buf: &mut Vec<u8>, dst: &mut Vec<(Vec<u8>, Vec<u8>, u8)>) -> (r:
        Result<usize, DecoderError>)
        requires
            old(self).wf(),
            old(buf)@.len() > 0,
            old(buf)@[0] < 128,
            !(32 <= old(buf)@[0] < 64),
        ensures
            final(self).wf(),
            final(self).max() == old(self).max(),
            final(self).limit() == old(self).limit(),
            final(self).sp() == old(self).sp(),
            ({
                let prefix: nat = if old(buf)@[0] >= 64 {
                    6
                } else {
                    4
                };
                let insert: bool = old(buf)@[0] >= 64;
                let flag: u8 = if old(buf)@[0] >= 64 {
                    4
                } else if old(buf)@[0] >= 16 {
                    8
                } else {
                    0
                };
                let (c, em, d2, err) = spec_literal(
                    old(self).dyn_entries(),
                    old(self).max(),
                    old(self).sp(),
                    old(buf)@,
                    prefix,
                    insert,
                    flag,
                );
                match err {
                    None => {
                        &&& r == Ok::<usize, DecoderError>(c as usize)
                        &&& final(buf)@ == old(buf)@.skip(c)
                        &&& hfields_view(final(dst)@) == hfields_view(old(dst)@) + seq![
                            em.unwrap(),
                        ]
                        &&& final(self).dyn_entries() == d2
                    },
                    Some(e) => {
                        &&& r == Err::<usize, DecoderError>(e)
                        &&& final(self).dyn_entries() == old(self).dyn_entries()
                        &&& final(dst)@ == old(dst)@
                    },
                }
            }),
    {
        proof {
            crate::hpack::table::lemma_static_entries_len();
            self.table.lemma_entries_split();
            assert(self.table.entries() =~= static_entries() + self.dyn_entries());
        }
        let start_len: usize = buf.len();
        let octet: u8 = buf[0];
        let prefix: u8 = if octet >= 64 {
            6
        } else {
            4
        };
        let mut index: u32 = 0;
        let n1x: usize = match decode_integer(buf, &mut index, prefix) {
            Ok(n) => n,
            Err(e) => {
                return Err(e);
            },
        };
        let ghost s0 = old(buf)@;
        let ghost n1 = n1x as int;
        proof {
            lemma_int_decoded_range(s0, if s0[0] >= 64 {
                6nat
            } else {
                4nat
            });
            lemma_string_decoded_range(s0.skip(n1), old(self).sp());
        }
        let name: Vec<u8> = if index == 0 {
            let mut name: Vec<u8> = Vec::new();
            let _n2: usize = match decode_string(buf, self.speed, &mut name) {
                Ok(n) => n,
                Err(e) => {
                    return Err(e);
                },
            };
            name
        } else {
            match self.table.get(index) {
                Some(h) => h.0,
                None => {
                    return Err(DecoderError::InvalidIndex);
                },
            }
        };
        let ghost nmid = s0.len() - buf@.len();
        proof {
            if index != 0 {
                assert(buf@ =~= s0.skip(nmid as int));
            } else {
                assert(s0.skip(n1).skip(nmid - n1) =~= s0.skip(nmid as int));
                assert(buf@ =~= s0.skip(nmid as int));
            }
            lemma_string_decoded_range(s0.skip(nmid as int), old(self).sp());
        }
        let mut value: Vec<u8> = Vec::new();
        let _n3: usize = match decode_string(buf, self.speed, &mut value) {
            Ok(n) => n,
            Err(e) => {
                return Err(e);
            },
        };
        proof {
            assert(buf@ =~= s0.skip(s0.len() - buf@.len()));
        }
        let total: usize = start_len - buf.len();
        let ghost dentry = dst@;
        let ghost nv = name@;
        let ghost vv = value@;
        if octet >= 64 {
            let ncopy: Vec<u8> = vstd::slice::slice_to_vec(name.as_slice());
            let vcopy: Vec<u8> = vstd::slice::slice_to_vec(value.as_slice());
            self.table.insert(ncopy, vcopy);
            dst.push((name, value, 4));
            proof {
                assert(hfields_view(dst@) =~= hfields_view(dentry) + seq![(nv, vv, 4u8)]);
            }
        } else if octet >= 16 {
            dst.push((name, value, 8));
            proof {
                assert(hfields_view(dst@) =~= hfields_view(dentry) + seq![(nv, vv, 8u8)]);
            }
        } else {
            dst.push((name, value, 0));
            proof {
                assert(hfields_view(dst@) =~= hfields_view(dentry) + seq![(nv, vv, 0u8)]);
            }
        }
        Ok(total)
    }

    /// Decodes the dynamic table size update signal at the front of `buf`
    /// and applies the new size to the dynamic table.
    ///
    /// A size beyond the protocol's hard limit is rejected with
    /// [`DecoderError::InvalidMaxDynamicSize`].
    fn update_max_dynamic_size(&mut self, buf: &mut Vec<u8>) -> (r: Result<usize, DecoderError>)
        requires
            old(self).wf(),
        ensures
            final(self).wf(),
            final(self).limit() == old(self).limit(),
            final(self).sp() == old(self).sp(),
            match int_decoded(old(buf)@, 5) {
                Ok((sz, n)) => {
                    &&& (sz <= old(self).limit() ==> {
                        &&& r == Ok::<usize, DecoderError>(n as usize)
                        &&& final(buf)@ == old(buf)@.skip(n)
                        &&& final(self).dyn_entries() == evicted(
                            old(self).dyn_entries(),
                            sz as nat,
                        )
                        &&& final(self).max() == sz
                    })
                    &&& (sz > old(self).limit() ==> r == Err::<usize, DecoderError>(
                        DecoderError::InvalidMaxDynamicSize,
                    ) && final(self).dyn_entries() == old(self).dyn_entries() && final(self).max() == old(self).max())
                },
                Err(e) => r == Err::<usize, DecoderError>(e) && final(self).dyn_entries() == old(self).dyn_entries() && final(self).max() == old(self).max(),
            },
    {
        let mut new_size: u32 = 0;
        let total: usize = match decode_integer(buf, &mut new_size, 5) {
            Ok(n) => n,
            Err(e) => {
                return Err(e);
            },
        };
        if new_size > self.max_dynamic_size {
            return Err(DecoderError::InvalidMaxDynamicSize);
        }
        self.table.update_max_dynamic_size(new_size);
        Ok(total)
    }

    /// Decodes headers from the HPACK header field representation format at
    /// the front of `buf` until the buffer is empty, appending each header
    /// as a `(name, value, flags)` triple to `dst`.
    ///
    /// A header carries the flag `0x4` when it was added to the indexing
    /// table and `0x8` when it is never indexed and must be treated with
    /// caution. On success, the number of consumed octets is returned; on a
    /// malformed field, the headers before it keep their effect and its
    /// error is returned.
    #[verifier::rlimit(100)]
    #[verifier::spinoff_prover]
    pub fn decode(&mut self, buf: &mut Vec<u8>, dst: &mut Vec<(Vec<u8>, Vec<u8>, u8)>) -> (r:
        Result<usize, DecoderError>)
        requires
            old(self).wf(),
        ensures
            final(self).wf(),
            final(self).limit() == old(self).limit(),
            final(self).sp() == old(self).sp(),
            ({
                let (c, fs, d2, m2, err) = spec_drain(
                    old(self).dyn_entries(),
                    old(self).max(),
                    old(self).limit(),
                    old(self).sp(),
                    old(buf)@,
                    old(buf)@.len() as int,
                );
                &&& hfields_view(final(dst)@) == hfields_view(old(dst)@) + fs
                &&& final(self).dyn_entries() == d2
                &&& final(self).max() == m2
                &&& match r {
                    Ok(n) => err is None && n == c && final(buf)@ == old(buf)@.skip(c),
                    Err(e) => err == Some(e),
                }
            }),
    {
        let n: usize = buf.len();
        self.decode_exact(buf, dst, n)
    }

    /// Decodes at most `limit` headers from the front of `buf`, appending
    /// each as a `(name, value, flags)` triple to `dst`, and stopping early
    /// when the buffer is empty.
    ///
    /// On success, the number of consumed octets is returned.
    #[verifier::loop_isolation(false)]
    #[verifier::rlimit(100)]
    #[verifier::spinoff_prover]
    pub fn decode_exact(
        &mut self,
        buf: &mut Vec<u8>,
        dst: &mut Vec<(Vec<u8>, Vec<u8>, u8)>,
        limit: usize,
    ) -> (r: Result<usize, DecoderError>)
        requires
            old(self).wf(),
        ensures
            final(self).wf(),
            final(self).limit() == old(self).limit(),
            final(self).sp() == old(self).sp(),
            ({
                let (c, fs, d2, m2, err) = spec_drain(
                    old(self).dyn_entries(),
                    old(self).max(),
                    old(self).limit(),
                    old(self).sp(),
                    old(buf)@,
                    limit as int,
                );
                &&& hfields_view(final(dst)@) == hfields_view(old(dst)@) + fs
                &&& final(self).dyn_entries() == d2
                &&& final(self).max() == m2
                &&& match r {
                    Ok(n) => err is None && n == c && final(buf)@ == old(buf)@.skip(c),
                    Err(e) => err == Some(e),
                }
            }),
    {
        let cap: usize = buf.len();
        let ghost s0 = old(buf)@;
        let ghost lim = old(self).limit();
        let ghost sp = old(self).sp();
        let ghost mut done: Seq<(Seq<u8>, Seq<u8>, u8)> = Seq::empty();
        let mut total: usize = 0;
        let mut left: usize = limit;
        proof {
            assert(s0.len() == cap);
            assert(s0.skip(0) =~= s0);
            assert(hfields_view(old(dst)@) + done =~= hfields_view(old(dst)@));
        }
        loop
            invariant
                self.wf(),
                self.limit() == lim,
                self.sp() == sp,
                total <= s0.len(),
                left <= limit,
                buf@ == s0.skip(total as int),
                hfields_view(dst@) == hfields_view(old(dst)@) + done,
                ({
                    let (c, fs, d2, m2, err) = spec_drain(
                        self.dyn_entries(),
                        self.max(),
                        lim,
                        sp,
                        buf@,
                        left as int,
                    );
                    let (c0, fs0, d20, m20, err0) = spec_drain(
                        old(self).dyn_entries(),
                        old(self).max(),
                        lim,
                        sp,
                        s0,
                        limit as int,
                    );
                    &&& c0 == total + c
                    &&& fs0 == done + fs
                    &&& d20 == d2
                    &&& m20 == m2
                    &&& err0 == err
                }),
            decreases left,
        {
            if buf.len() == 0 || left == 0 {
                proof {
                    assert(done + Seq::<(Seq<u8>, Seq<u8>, u8)>::empty() =~= done);
                }
                return Ok(total);
            }
            let ghost bentry = buf@;
            let ghost dynentry = self.dyn_entries();
            let ghost maxentry = self.max();
            proof {
                crate::hpack::table::lemma_static_entries_len();
                self.table.lemma_entries_split();
                assert(self.entries() =~= static_entries() + dynentry);
            }
            let octet: u8 = buf[0];
            if octet >= 128 {
                let ghost dstentry = dst@;
                match self.decode_indexed(buf, dst) {
                    Ok(n) => {
                        proof {
                            assert(static_entries() + dynentry =~= self.entries());
                            let (c2, em2, d22, m22, e22) = spec_field(dynentry, maxentry, lim,
                                sp, bentry);
                            lemma_field_range(dynentry, maxentry, lim, sp, bentry);
                            assert(e22 is None && c2 == n);
                            let f = em2.unwrap();
                            lemma_drain_unfold(dynentry, maxentry, lim, sp, bentry,
                                left as int);
                            assert(hfields_view(dst@) =~= (hfields_view(old(dst)@) + done)
                                + seq![f]);
                            assert(hfields_view(old(dst)@) + (done + seq![f]) =~= (hfields_view(
                                old(dst)@,
                            ) + done) + seq![f]);
                            assert(bentry.skip(c2) =~= buf@);
                            let (c3, fs3, d3, m3, e3) = spec_drain(d22, m22, lim, sp,
                                bentry.skip(c2), left - 1);
                            assert((done + seq![f]) + fs3 =~= done + (seq![f] + fs3));
                            assert(s0.skip(total + n) =~= bentry.skip(n as int));
                            done = done + seq![f];
                        }
                        total = total + n;
                    },
                    Err(e) => {
                        proof {
                            if spec_field(dynentry, maxentry, lim, sp, bentry).4 is Some {
                                lemma_drain_err(dynentry, maxentry, lim, sp, bentry,
                                    left as int);
                            }
                            assert(done + Seq::<(Seq<u8>, Seq<u8>, u8)>::empty() =~= done);
                        }
                        return Err(e);
                    },
                }
            } else if octet >= 64 || octet < 32 {
                let ghost dstentry = dst@;
                match self.decode_literal(buf, dst) {
                    Ok(n) => {
                        proof {
                            let (c2, em2, d22, m22, e22) = spec_field(dynentry, maxentry, lim,
                                sp, bentry);
                            lemma_field_range(dynentry, maxentry, lim, sp, bentry);
                            assert(e22 is None && c2 == n);
                            let f = em2.unwrap();
                            lemma_drain_unfold(dynentry, maxentry, lim, sp, bentry,
                                left as int);
                            assert(hfields_view(dst@) =~= (hfields_view(old(dst)@) + done)
                                + seq![f]);
                            assert(hfields_view(old(dst)@) + (done + seq![f]) =~= (hfields_view(
                                old(dst)@,
                            ) + done) + seq![f]);
                            assert(bentry.skip(c2) =~= buf@);
                            let (c3, fs3, d3, m3, e3) = spec_drain(d22, m22, lim, sp,
                                bentry.skip(c2), left - 1);
                            assert((done + seq![f]) + fs3 =~= done + (seq![f] + fs3));
                            assert(s0.skip(total + n) =~= bentry.skip(n as int));
                            done = done + seq![f];
                        }
                        total = total + n;
                    },
                    Err(e) => {
                        proof {
                            if spec_field(dynentry, maxentry, lim, sp, bentry).4 is Some {
                                lemma_drain_err(dynentry, maxentry, lim, sp, bentry,
                                    left as int);
                            }
                            assert(done + Seq::<(Seq<u8>, Seq<u8>, u8)>::empty() =~= done);
                        }
                        return Err(e);
                    },
                }
            } else {
                match self.update_max_dynamic_size(buf) {
                    Ok(n) => {
                        proof {
                            let (c2, em2, d22, m22, e22) = spec_field(dynentry, maxentry, lim,
                                sp, bentry);
                            lemma_field_range(dynentry, maxentry, lim, sp, bentry);
                            assert(e22 is None && c2 == n && em2 is None);
                            lemma_drain_unfold(dynentry, maxentry, lim, sp, bentry,
                                left as int);
                            assert(bentry.skip(c2) =~= buf@);
                            let (c3, fs3, d3, m3, e3) = spec_drain(d22, m22, lim, sp,
                                bentry.skip(c2), left - 1);
                            assert(Seq::<(Seq<u8>, Seq<u8>, u8)>::empty() + fs3 =~= fs3);
                            assert(s0.skip(total + n) =~= bentry.skip(n as int));
                        }
                        total = total + n;
                    },
                    Err(e) => {
                        proof {
                            if spec_field(dynentry, maxentry, lim, sp, bentry).4 is Some {
                                lemma_drain_err(dynentry, maxentry, lim, sp, bentry,
                                    left as int);
                            }
                            assert(done + Seq::<(Seq<u8>, Seq<u8>, u8)>::empty() =~= done);
                        }
                        return Err(e);
                    },
                }
            }
            left = left - 1;
        }
    }
}

impl Default for Decoder {
    /// A decoder whose dynamic table is limited to 4096 octets.
    fn default() -> (r: Self)
        ensures
            r.wf(),
            r.dyn_entries() =~= Seq::<(Seq<u8>, Seq<u8>)>::empty(),
            r.max() == 4096,
            r.limit() == 4096,
            r.sp() == 5,
    {
        Decoder::with_dynamic_size(4096)
    }
}

} // verus!
