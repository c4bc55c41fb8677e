//! The HPACK encoder: writes header fields in the representations of
//! RFC 7541 §6 and keeps its own dynamic table in lockstep with a peer
//! decoder.

use vstd::prelude::*;

verus! {

use crate::hpack::errors::EncoderError;
use crate::hpack::primitives::int_bytes;
use crate::hpack::primitives::string_bytes;
use crate::hpack::primitives::encode_integer;
use crate::hpack::primitives::encode_string;
use crate::hpack::table::Table;
use crate::hpack::table::evicted;
use crate::hpack::table::find_spec;
use crate::hpack::table::lemma_entries_min_size;

/// A flag indicating to encode the header name with the Huffman code.
pub const HUFFMAN_NAME: u8 = 0x1;

/// A flag indicating to encode the header value with the Huffman code.
pub const HUFFMAN_VALUE: u8 = 0x2;

/// A flag indicating to index the literal header field.
pub const WITH_INDEXING: u8 = 0x4;

/// A flag indicating to never index the literal header field.
pub const NEVER_INDEXED: u8 = 0x8;

/// A flag indicating to find the best representation by searching the
/// indexing table.
pub const BEST_FORMAT: u8 = 0x10;

/// Whether the flag at value `b` is set in `flags`.
pub open spec fn has_flag(flags: u8, b: nat) -> bool {
    (flags as nat) / b % 2 == 1
}

/// An enum representing encoder input formats.
#[derive(Debug)]
pub enum EncoderInput {
    /// Represents a fully indexed header field.
    Indexed(u32),
    /// Represents a header field where the name is an index and the value
    /// is provided in bytes, with configuration flags.
    IndexedName(u32, Vec<u8>, u8),
    /// Represents a header field where name and value are provided in
    /// bytes, with configuration flags.
    Literal(Vec<u8>, Vec<u8>, u8),
}

/// An object for encoding HTTP/2 headers.
pub struct Encoder {
    /// A store for the static and the dynamic headers.
    table: Table,
}

impl Encoder {
    /// The unified entries the encoder's table holds.
    pub closed spec fn entries(&self) -> Seq<(Seq<u8>, Seq<u8>)> {
        self.table.entries()
    }

    /// The dynamic entries alone, newest first.
    pub closed spec fn dyn_entries(&self) -> Seq<(Seq<u8>, Seq<u8>)> {
        self.table.dyn_entries()
    }

    /// The dynamic table's size limit.
    pub closed spec fn max(&self) -> nat {
        self.table.max()
    }

    /// The encoder's table is well formed.
    pub closed spec fn wf(&self) -> bool {
        self.table.wf()
    }

    /// Returns a new encoder instance with the provided maximum allowed
    /// size of the dynamic table.
    pub fn with_dynamic_size(max_dynamic_size: u32) -> (r: Encoder)
        ensures
            r.wf(),
            r.dyn_entries() =~= Seq::<(Seq<u8>, Seq<u8>)>::empty(),
            r.max() == max_dynamic_size,
    {
        Encoder { table: Table::with_dynamic_size(max_dynamic_size) }
    }

    /// Returns the maximum allowed size of the dynamic table.
    pub fn max_dynamic_size(&mut self) -> (r: u32)
        ensures
            *final(self) == *old(self),
            r == old(self).max(),
    {
        self.table.max_dynamic_size()
    }

    /// Encodes a header that exists at `index` in the indexing table into
    /// the indexed header field representation.
    pub fn encode_indexed(&self, index: u32, dst: &mut Vec<u8>) -> (r: Result<(), EncoderError>)
        requires
            self.wf(),
        ensures
            1 <= index <= self.entries().len() ==> {
                &&& final(dst)@ == old(dst)@ + int_bytes(index as nat, 128, 7)
                &&& r == Ok::<(), EncoderError>(())
            },
            !(1 <= index <= self.entries().len()) ==> {
                &&& final(dst)@ == old(dst)@
                &&& r == Err::<(), EncoderError>(EncoderError::InvalidIndex)
            },
    {
        match self.table.get(index) {
            Some(_) => {},
            None => {
                return Err(EncoderError::InvalidIndex);
            },
        }
        let _ = encode_integer(index, 128, 7, dst);
        Ok(())
    }

    /// Encodes a header whose name is the name of entry `index` and whose
    /// value is provided in bytes, into a literal header field
    /// representation: with incremental indexing when `WITH_INDEXING` is
    /// set (which also inserts the header into the dynamic table), never
    /// indexed when `NEVER_INDEXED` is set, and without indexing otherwise.
    /// `HUFFMAN_VALUE` selects the Huffman coding of the value.
    pub fn encode_indexed_name(
        &mut self,
        index: u32,
        value: Vec<u8>,
        flags: u8,
        dst: &mut Vec<u8>,
    ) -> (r: Result<(), EncoderError>)
        requires
            old(self).wf(),
            value@.len() <= 0x3FF_FFFF,
        ensures
            final(self).wf(),
            final(self).max() == old(self).max(),
            !(1 <= index <= old(self).entries().len()) ==> {
                &&& final(dst)@ == old(dst)@
                &&& final(self).dyn_entries() == old(self).dyn_entries()
                &&& r == Err::<(), EncoderError>(EncoderError::InvalidIndex)
            },
            1 <= index <= old(self).entries().len() ==> {
                &&& r == Ok::<(), EncoderError>(())
                &&& final(dst)@ == old(dst)@ + (if has_flag(flags, 4) {
                    int_bytes(index as nat, 64, 6)
                } else if has_flag(flags, 8) {
                    int_bytes(index as nat, 16, 4)
                } else {
                    int_bytes(index as nat, 0, 4)
                }) + string_bytes(value@, has_flag(flags, 2))
                &&& final(self).dyn_entries() == (if has_flag(flags, 4) {
                    evicted(
                        seq![(old(self).entries()[index - 1].0, value@)] + old(
                            self,
                        ).dyn_entries(),
                        old(self).max(),
                    )
                } else {
                    old(self).dyn_entries()
                })
            },
    {
        let name: Vec<u8> = match self.table.get(index) {
            Some(entry) => entry.0,
            None => {
                return Err(EncoderError::InvalidIndex);
            },
        };
        let huff_value: bool = (flags / 2) % 2 == 1;
        if (flags / 4) % 2 == 1 {
            let vcopy: Vec<u8> = vstd::slice::slice_to_vec(value.as_slice());
            self.table.insert(name, vcopy);
            let _ = encode_integer(index, 64, 6, dst);
        } else if (flags / 8) % 2 == 1 {
            let _ = encode_integer(index, 16, 4, dst);
        } else {
            let _ = encode_integer(index, 0, 4, dst);
        }
        let ghost vv = value@;
        let _ = encode_string(value, huff_value, dst);
        proof {
            crate::huffman::encoder::lemma_huff_bytes_len(vv);
        }
        Ok(())
    }

    /// Encodes a header whose name and value are provided in bytes into a
    /// literal header field representation: with incremental indexing when
    /// `WITH_INDEXING` is set (which also inserts the header into the
    /// dynamic table), never indexed when `NEVER_INDEXED` is set, and
    /// without indexing otherwise. `HUFFMAN_NAME` and `HUFFMAN_VALUE`
    /// select the Huffman coding of the name and the value.
    pub fn encode_literal(
        &mut self,
        name: Vec<u8>,
        value: Vec<u8>,
        flags: u8,
        dst: &mut Vec<u8>,
    ) -> (r: Result<(), EncoderError>)
        requires
            old(self).wf(),
            name@.len() <= 0x3FF_FFFF,
            value@.len() <= 0x3FF_FFFF,
        ensures
            final(self).wf(),
            final(self).max() == old(self).max(),
            r == Ok::<(), EncoderError>(()),
            final(dst)@ == old(dst)@ + (if has_flag(flags, 4) {
                seq![64u8]
            } else if has_flag(flags, 8) {
                seq![16u8]
            } else {
                seq![0u8]
            }) + string_bytes(name@, has_flag(flags, 1)) + string_bytes(
                value@,
                has_flag(flags, 2),
            ),
            final(self).dyn_entries() == (if has_flag(flags, 4) {
                evicted(seq![(name@, value@)] + old(self).dyn_entries(), old(self).max())
            } else {
                old(self).dyn_entries()
            }),
    {
        let ghost nv = name@;
        let ghost vv = value@;
        if (flags / 4) % 2 == 1 {
            dst.push(64);
            let ncopy: Vec<u8> = vstd::slice::slice_to_vec(name.as_slice());
            let vcopy: Vec<u8> = vstd::slice::slice_to_vec(value.as_slice());
            self.table.insert(ncopy, vcopy);
        } else if (flags / 8) % 2 == 1 {
            dst.push(16);
        } else {
            dst.push(0);
        }
        let huff_name: bool = (flags / 1) % 2 == 1;
        let huff_value: bool = (flags / 2) % 2 == 1;
        proof {
            crate::huffman::encoder::lemma_huff_bytes_len(nv);
            crate::huffman::encoder::lemma_huff_bytes_len(vv);
        }
        let _ = encode_string(name, huff_name, dst);
        let _ = encode_string(value, huff_value, dst);
        proof {
            assert(final(dst)@ =~= old(dst)@ + (if has_flag(flags, 4) {
                seq![64u8]
            } else if has_flag(flags, 8) {
                seq![16u8]
            } else {
                seq![0u8]
            }) + string_bytes(nv, has_flag(flags, 1)) + string_bytes(vv, has_flag(flags, 2)));
        }
        Ok(())
    }

    /// Encodes headers into the HPACK header field representation format.
    ///
    /// An indexed input writes the indexed representation; an indexed-name
    /// or literal input writes the literal representation selected by its
    /// flags. A literal input with `BEST_FORMAT` set is first looked up in
    /// the table and downgraded to an indexed or indexed-name
    /// representation when a match exists.
    pub fn encode(&mut self, field: EncoderInput, dst: &mut Vec<u8>) -> (r: Result<
        (),
        EncoderError,
    >)
        requires
            old(self).wf(),
            match field {
                EncoderInput::Indexed(_) => true,
                EncoderInput::IndexedName(_, value, _) => value@.len() <= 0x3FF_FFFF,
                EncoderInput::Literal(name, value, _) => name@.len() <= 0x3FF_FFFF && value@.len()
                    <= 0x3FF_FFFF,
            },
        ensures
            final(self).wf(),
            final(self).max() == old(self).max(),
            match field {
                EncoderInput::Indexed(index) => {
                    &&& final(self).dyn_entries() == old(self).dyn_entries()
                    &&& (1 <= index <= old(self).entries().len() ==> final(dst)@ == old(dst)@
                        + int_bytes(index as nat, 128, 7) && r == Ok::<(), EncoderError>(()))
                    &&& (!(1 <= index <= old(self).entries().len()) ==> final(dst)@ == old(dst)@
                        && r == Err::<(), EncoderError>(EncoderError::InvalidIndex))
                },
                EncoderInput::IndexedName(index, value, flags) => {
                    &&& (!(1 <= index <= old(self).entries().len()) ==> final(dst)@ == old(dst)@
                        && final(self).dyn_entries() == old(self).dyn_entries() && r == Err::<
                        (),
                        EncoderError,
                    >(EncoderError::InvalidIndex))
                    &&& (1 <= index <= old(self).entries().len() ==> r == Ok::<
                        (),
                        EncoderError,
                    >(()) && final(dst)@ == old(dst)@ + (if has_flag(flags, 4) {
                        int_bytes(index as nat, 64, 6)
                    } else if has_flag(flags, 8) {
                        int_bytes(index as nat, 16, 4)
                    } else {
                        int_bytes(index as nat, 0, 4)
                    }) + string_bytes(value@, has_flag(flags, 2)) && final(self).dyn_entries()
                        == (if has_flag(flags, 4) {
                        evicted(
                            seq![(old(self).entries()[index - 1].0, value@)] + old(
                                self,
                            ).dyn_entries(),
                            old(self).max(),
                        )
                    } else {
                        old(self).dyn_entries()
                    }))
                },
                EncoderInput::Literal(name, value, flags) => {
                    if has_flag(flags, 16) {
                        match find_spec(old(self).entries(), name@, value@) {
                            Some((j, true)) => {
                                &&& r == Ok::<(), EncoderError>(())
                                &&& final(dst)@ == old(dst)@ + int_bytes(j as nat, 128, 7)
                                &&& final(self).dyn_entries() == old(self).dyn_entries()
                            },
                            Some((j, false)) => {
                                &&& r == Ok::<(), EncoderError>(())
                                &&& final(dst)@ == old(dst)@ + (if has_flag(flags, 4) {
                                    int_bytes(j as nat, 64, 6)
                                } else if has_flag(flags, 8) {
                                    int_bytes(j as nat, 16, 4)
                                } else {
                                    int_bytes(j as nat, 0, 4)
                                }) + string_bytes(value@, has_flag(flags, 2))
                                &&& final(self).dyn_entries() == (if has_flag(flags, 4) {
                                    evicted(
                                        seq![(old(self).entries()[j - 1].0, value@)] + old(
                                            self,
                                        ).dyn_entries(),
                                        old(self).max(),
                                    )
                                } else {
                                    old(self).dyn_entries()
                                })
                            },
                            None => {
                                &&& r == Ok::<(), EncoderError>(())
                                &&& final(dst)@ == old(dst)@ + (if has_flag(flags, 4) {
                                    seq![64u8]
                                } else if has_flag(flags, 8) {
                                    seq![16u8]
                                } else {
                                    seq![0u8]
                                }) + string_bytes(name@, has_flag(flags, 1)) + string_bytes(
                                    value@,
                                    has_flag(flags, 2),
                                )
                                &&& final(self).dyn_entries() == (if has_flag(flags, 4) {
                                    evicted(
                                        seq![(name@, value@)] + old(self).dyn_entries(),
                                        old(self).max(),
                                    )
                                } else {
                                    old(self).dyn_entries()
                                })
                            },
                        }
                    } else {
                        &&& r == Ok::<(), EncoderError>(())
                        &&& final(dst)@ == old(dst)@ + (if has_flag(flags, 4) {
                            seq![64u8]
                        } else if has_flag(flags, 8) {
                            seq![16u8]
                        } else {
                            seq![0u8]
                        }) + string_bytes(name@, has_flag(flags, 1)) + string_bytes(
                            value@,
                            has_flag(flags, 2),
                        )
                        &&& final(self).dyn_entries() == (if has_flag(flags, 4) {
                            evicted(
                                seq![(name@, value@)] + old(self).dyn_entries(),
                                old(self).max(),
                            )
                        } else {
                            old(self).dyn_entries()
                        })
                    }
                },
            },
    {
        match field {
            EncoderInput::Indexed(index) => self.encode_indexed(index, dst),
            EncoderInput::IndexedName(index, value, flags) => self.encode_indexed_name(
                index,
                value,
                flags,
                dst,
            ),
            EncoderInput::Literal(name, value, flags) => {
                if (flags / 16) % 2 == 1 {
                    proof {
                        lemma_entries_min_size(self.dyn_entries());
                    }
                    proof {
                        self.table.lemma_entries_split();
                        crate::hpack::table::lemma_first_full_range(
                            self.entries(),
                            name@,
                            value@,
                            0,
                        );
                        crate::hpack::table::lemma_first_name_range(self.entries(), name@, 0);
                    }
                    match self.table.find(name.as_slice(), value.as_slice()) {
                        Some((index, true)) => self.encode_indexed(index as u32, dst),
                        Some((index, false)) => self.encode_indexed_name(
                            index as u32,
                            value,
                            flags,
                            dst,
                        ),
                        None => self.encode_literal(name, value, flags, dst),
                    }
                } else {
                    self.encode_literal(name, value, flags, dst)
                }
            },
        }
    }

    /// Updates the maximum size of the dynamic table, evicting whatever no
    /// longer fits, and encodes the new size into a dynamic table size
    /// update signal.
    pub fn update_max_dynamic_size(&mut self, size: u32, dst: &mut Vec<u8>) -> (r: Result<
        (),
        EncoderError,
    >)
        requires
            old(self).wf(),
        ensures
            final(self).wf(),
            final(self).max() == size,
            final(self).dyn_entries() == evicted(old(self).dyn_entries(), size as nat),
            final(dst)@ == old(dst)@ + int_bytes(size as nat, 32, 5),
            r == Ok::<(), EncoderError>(()),
    {
        self.table.update_max_dynamic_size(size);
        let _ = encode_integer(size, 32, 5, dst);
        Ok(())
    }
}

impl Default for Encoder {
    /// An encoder whose dynamic table is limited to 4096 octets.
    fn default() -> (r: Self)
        ensures
            r.wf(),
            r.dyn_entries() =~= Seq::<(Seq<u8>, Seq<u8>)>::empty(),
            r.max() == 4096,
    {
        Encoder { table: Table::default() }
    }
}

} // verus!
