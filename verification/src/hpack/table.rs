//! The HPACK indexing tables: the fixed static table of RFC 7541
//! Appendix A, the size-bounded FIFO dynamic table, and the unified index
//! address space that joins them, with index `1` the first static entry and
//! index `62` the newest dynamic entry.

use vstd::prelude::*;

verus! {

use std::collections::VecDeque;
use vstd::slice::slice_index_get;
use vstd::slice::slice_subrange;
use vstd::slice::slice_to_vec;
use crate::hpack::static_table::STATIC_TEXT;
use crate::hpack::static_table::STATIC_SPANS;
use crate::hpack::static_table::static_name;
use crate::hpack::static_table::static_value;

/// Name and value pairs as mathematical sequences.
pub open spec fn pairs_view(s: Seq<(Vec<u8>, Vec<u8>)>) -> Seq<(Seq<u8>, Seq<u8>)> {
    Seq::new(s.len() as nat, |i: int| (s[i].0@, s[i].1@))
}

/// The size an entry occupies in the dynamic table: name, value, and a
/// 32-octet overhead.
pub open spec fn entry_size(e: (Seq<u8>, Seq<u8>)) -> nat {
    e.0.len() + e.1.len() + 32
}

/// The total size of a sequence of entries.
pub open spec fn entries_size(es: Seq<(Seq<u8>, Seq<u8>)>) -> nat
    decreases es.len(),
{
    if es.len() == 0 {
        0
    } else {
        entry_size(es[0]) + entries_size(es.skip(1))
    }
}

/// Dropping the last entry drops its size.
pub proof fn lemma_entries_size_drop_last(es: Seq<(Seq<u8>, Seq<u8>)>)
    requires
        es.len() > 0,
    ensures
        entries_size(es) == entries_size(es.take(es.len() - 1)) + entry_size(es.last()),
    decreases es.len(),
{
    if es.len() == 1 {
        assert(es.take(0int) =~= Seq::<(Seq<u8>, Seq<u8>)>::empty());
        assert(es.skip(1) =~= Seq::<(Seq<u8>, Seq<u8>)>::empty());
    } else {
        lemma_entries_size_drop_last(es.skip(1));
        let t = es.take(es.len() - 1);
        assert(t.skip(1) =~= es.skip(1).take(es.skip(1).len() - 1));
        assert(t[0] == es[0]);
        assert(es.skip(1).last() == es.last());
        assert(entries_size(t) == entry_size(t[0]) + entries_size(t.skip(1)));
    }
}

/// The front entry is at most the total.
pub proof fn lemma_entries_size_first(es: Seq<(Seq<u8>, Seq<u8>)>)
    requires
        es.len() > 0,
    ensures
        entry_size(es[0]) <= entries_size(es),
    decreases es.len(),
{
}

/// Any one entry is at most the total.
pub proof fn lemma_entries_size_any(es: Seq<(Seq<u8>, Seq<u8>)>, i: int)
    requires
        0 <= i < es.len(),
    ensures
        entry_size(es[i]) <= entries_size(es),
    decreases es.len(),
{
    if i > 0 {
        lemma_entries_size_any(es.skip(1), i - 1);
        assert(es.skip(1)[i - 1] == es[i]);
    }
}

/// Static table entries are small.
pub proof fn lemma_static_entry_bounds()
    ensures
        forall|i: int|
            0 <= i < 61 ==> (#[trigger] static_entries()[i]).0.len() <= 684
                && static_entries()[i].1.len() <= 684,
{
    reveal(static_entries);
    assert forall|i: int|
        0 <= i < 61 implies (#[trigger] static_entries()[i]).0.len() <= 684
        && static_entries()[i].1.len() <= 684 by {
        assert(static_entries()[i] == (static_name(i), static_value(i)));
        assert(STATIC_SPANS@[i].0 <= STATIC_SPANS@[i].1 <= STATIC_SPANS@[i].2 <= 684);
    }
}

/// The entries left after evicting from the tail until the total size is
/// within `max`.
pub open spec fn evicted(es: Seq<(Seq<u8>, Seq<u8>)>, max: nat) -> Seq<(Seq<u8>, Seq<u8>)>
    decreases es.len(),
{
    if entries_size(es) <= max {
        es
    } else if es.len() == 0 {
        es
    } else {
        evicted(es.take(es.len() - 1), max)
    }
}

/// Eviction brings the size within the limit.
pub proof fn lemma_evicted_fits(es: Seq<(Seq<u8>, Seq<u8>)>, max: nat)
    ensures
        entries_size(evicted(es, max)) <= max,
        evicted(es, max).len() <= es.len(),
    decreases es.len(),
{
    if entries_size(es) <= max {
    } else if es.len() == 0 {
    } else {
        lemma_evicted_fits(es.take(es.len() - 1), max);
    }
}

/// Evicting around an oversized head entry empties the table.
pub proof fn lemma_evicted_oversized(es: Seq<(Seq<u8>, Seq<u8>)>, max: nat)
    requires
        es.len() > 0,
        entry_size(es[0]) > max,
    ensures
        evicted(es, max) =~= Seq::<(Seq<u8>, Seq<u8>)>::empty(),
    decreases es.len(),
{
    lemma_entries_size_first(es);
    assert(entries_size(es) > max);
    if es.len() == 1 {
        assert(es.skip(1) =~= Seq::<(Seq<u8>, Seq<u8>)>::empty());
        assert(entries_size(es) == entry_size(es[0]) + entries_size(es.skip(1)));
        assert(es.take(0int) =~= Seq::<(Seq<u8>, Seq<u8>)>::empty());
        assert(evicted(es, max) == evicted(es.take(0int), max));
    } else {
        let t = es.take(es.len() - 1);
        assert(t[0] == es[0]);
        assert(evicted(es, max) == evicted(t, max));
        lemma_evicted_oversized(t, max);
    }
}

/// Compares two byte strings.
pub fn bytes_eq(a: &[u8], b: &[u8]) -> (r: bool)
    ensures
        r == (a@ == b@),
{
    if a.len() != b.len() {
        proof {
            assert(a@.len() != b@.len());
        }
        return false;
    }
    let mut i: usize = 0;
    while i < a.len()
        invariant
            0 <= i <= a@.len(),
            a@.len() == b@.len(),
            forall|j: int| 0 <= j < i ==> a@[j] == b@[j],
        decreases a@.len() - i,
    {
        if *slice_index_get(a, i) != *slice_index_get(b, i) {
            return false;
        }
        i = i + 1;
    }
    proof {
        assert(a@ =~= b@);
    }
    true
}

/// The [dynamic table] holding a list of header fields maintained in
/// first-in, first-out order: the newest entry stands at index `0` and
/// eviction removes entries from the tail.
///
/// [dynamic table]: https://tools.ietf.org/html/rfc7541#section-2.3.2
pub struct DynamicTable {
    /// The entries, newest first. Duplicates are allowed.
    inner: VecDeque<(Vec<u8>, Vec<u8>)>,
    /// The sum of the sizes of the entries: name plus value plus 32 octets
    /// each.
    size: u128,
    /// The maximum size the table may use.
    max_size: u32,
}

impl DynamicTable {
    /// The entries as mathematical sequences, newest first.
    pub closed spec fn entries(&self) -> Seq<(Seq<u8>, Seq<u8>)> {
        pairs_view(self.inner@)
    }

    /// The size limit.
    pub closed spec fn max(&self) -> nat {
        self.max_size as nat
    }

    /// The table's size bookkeeping matches its entries and respects the
    /// limit.
    pub closed spec fn wf(&self) -> bool {
        &&& self.size as nat == entries_size(self.entries())
        &&& self.size as nat <= self.max()
    }

    /// Return a new instance of the dynamic table with the given maximum
    /// allowed size.
    pub fn with_size(max_size: u32) -> (r: DynamicTable)
        ensures
            r.wf(),
            r.entries() =~= Seq::<(Seq<u8>, Seq<u8>)>::empty(),
            r.max() == max_size,
    {
        let r = DynamicTable { inner: VecDeque::new(), size: 0, max_size };
        proof {
            assert(r.entries() =~= Seq::<(Seq<u8>, Seq<u8>)>::empty());
        }
        r
    }

    /// Returns the total number of entries.
    pub fn len(&self) -> (r: usize)
        ensures
            r == self.entries().len(),
    {
        self.inner.len()
    }

    /// Returns the total size (in octets) of the table.
    pub fn size(&self) -> (r: u32)
        requires
            self.wf(),
        ensures
            r == entries_size(self.entries()),
    {
        self.size as u32
    }

    /// Returns the maximum allowed table size.
    pub fn max_size(&self) -> (r: u32)
        ensures
            r == self.max(),
    {
        self.max_size
    }

    /// Finds a header by its index; the newest entry is at index `0`.
    pub fn get(&self, index: u32) -> (r: Option<(Vec<u8>, Vec<u8>)>)
        ensures
            index < self.entries().len() ==> (match r {
                Some(e) => (e.0@, e.1@) == self.entries()[index as int],
                None => false,
            }),
            index >= self.entries().len() ==> r is None,
    {
        if (index as usize) >= self.inner.len() {
            return None;
        }
        let e: &(Vec<u8>, Vec<u8>) = &self.inner[index as usize];
        proof {
            assert(self.entries()[index as int] == (self.inner@[index as int].0@,
                self.inner@[index as int].1@));
        }
        Some((slice_to_vec(e.0.as_slice()), slice_to_vec(e.1.as_slice())))
    }

    /// Evicts entries from the tail until the size of the table is within
    /// the maximum allowed size.
    #[verifier::loop_isolation(false)]
    fn consolidate(&mut self)
        requires
            old(self).size as nat == entries_size(old(self).entries()),
        ensures
            final(self).wf(),
            final(self).max() == old(self).max(),
            final(self).entries() == evicted(old(self).entries(), old(self).max()),
    {
        while self.size > (self.max_size as u128)
            invariant
                self.max_size == old(self).max_size,
                self.size as nat == entries_size(self.entries()),
                evicted(old(self).entries(), old(self).max()) == evicted(
                    self.entries(),
                    self.max() as nat,
                ),
            decreases self.size,
        {
            proof {
                if self.entries().len() == 0 {
                    assert(entries_size(self.entries()) == 0);
                }
                lemma_entries_size_drop_last(self.entries());
            }
            let ghost before = self.entries();
            match self.inner.pop_back() {
                Some(header) => {
                    proof {
                        assert(self.entries() =~= before.take(before.len() - 1));
                        assert((header.0@, header.1@) == before.last());
                    }
                    self.size = self.size - ((header.0.len() as u128) + (header.1.len() as u128) + 32);
                },
                None => {
                    proof {
                        assert(false);
                    }
                },
            }
        }
    }

    /// Updates the maximum allowed table size.
    ///
    /// Whenever the maximum size is reduced, entries are evicted from the
    /// end of the table until the size of the table is within the new
    /// maximum size.
    pub fn update_max_size(&mut self, size: u32)
        requires
            old(self).wf(),
        ensures
            final(self).wf(),
            final(self).max() == size,
            final(self).entries() == evicted(old(self).entries(), size as nat),
            entries_size(final(self).entries()) <= size,
    {
        self.max_size = size;
        self.consolidate();
        proof {
            lemma_evicted_fits(old(self).entries(), size as nat);
        }
    }

    /// Inserts a new header at the beginning of the table.
    ///
    /// The size of an entry is the size of its name and value in octets,
    /// plus 32. Entries are evicted from the end of the table until the new
    /// size is within the maximum allowed size; an entry larger than the
    /// maximum size leaves the table empty.
    pub fn insert(&mut self, name: Vec<u8>, value: Vec<u8>)
        requires
            old(self).wf(),
        ensures
            final(self).wf(),
            final(self).max() == old(self).max(),
            final(self).entries() == evicted(
                seq![(name@, value@)] + old(self).entries(),
                old(self).max(),
            ),
            entries_size(final(self).entries()) <= old(self).max(),
            name@.len() + value@.len() + 32 > old(self).max() ==> final(self).entries().len()
                == 0,
    {
        let ghost before = self.entries();
        let ghost newe = (name@, value@);
        self.size = self.size + (name.len() as u128) + (value.len() as u128) + 32;
        self.inner.push_front((name, value));
        proof {
            assert(self.entries() =~= seq![newe] + before);
            assert(self.entries().skip(1) =~= before);
            assert(entries_size(self.entries()) == entry_size(newe) + entries_size(before));
        }
        self.consolidate();
        proof {
            lemma_evicted_fits(seq![newe] + before, old(self).max());
            if entry_size(newe) > old(self).max() {
                lemma_evicted_oversized(seq![newe] + before, old(self).max());
            }
        }
    }
}

impl Default for DynamicTable {
    /// A dynamic table limited to 4096 octets.
    fn default() -> (r: Self)
        ensures
            r.wf(),
            r.entries() =~= Seq::<(Seq<u8>, Seq<u8>)>::empty(),
            r.max() == 4096,
    {
        DynamicTable::with_size(4096)
    }
}


/// The static table as a sequence of entries.
#[verifier::opaque]
pub open spec fn static_entries() -> Seq<(Seq<u8>, Seq<u8>)> {
    Seq::new(61, |i: int| (static_name(i), static_value(i)))
}

/// The static table has 61 entries.
pub proof fn lemma_static_entries_len()
    ensures
        static_entries().len() == 61,
{
    reveal(static_entries);
}

/// Every entry occupies at least its 32-octet overhead.
pub proof fn lemma_entries_min_size(es: Seq<(Seq<u8>, Seq<u8>)>)
    ensures
        entries_size(es) >= 32 * es.len(),
    decreases es.len(),
{
    if es.len() > 0 {
        lemma_entries_min_size(es.skip(1));
    }
}

/// The index of the first entry at or after `i` whose name and value both
/// match.
pub open spec fn first_full(
    es: Seq<(Seq<u8>, Seq<u8>)>,
    name: Seq<u8>,
    value: Seq<u8>,
    i: int,
) -> Option<int>
    decreases es.len() - i,
{
    if i < 0 || i >= es.len() {
        None
    } else if es[i].0 == name && es[i].1 == value {
        Some(i)
    } else {
        first_full(es, name, value, i + 1)
    }
}

/// The index of the first entry at or after `i` whose name matches.
pub open spec fn first_name(es: Seq<(Seq<u8>, Seq<u8>)>, name: Seq<u8>, i: int) -> Option<int>
    decreases es.len() - i,
{
    if i < 0 || i >= es.len() {
        None
    } else if es[i].0 == name {
        Some(i)
    } else {
        first_name(es, name, i + 1)
    }
}

/// The match the table reports for a header: the first full match if one
/// exists, otherwise the first name-only match, as a 1-based index.
pub open spec fn find_spec(es: Seq<(Seq<u8>, Seq<u8>)>, name: Seq<u8>, value: Seq<u8>) -> Option<
    (int, bool),
> {
    match first_full(es, name, value, 0) {
        Some(j) => Some((j + 1, true)),
        None => match first_name(es, name, 0) {
            Some(j) => Some((j + 1, false)),
            None => None,
        },
    }
}

/// Builds the static table entries.
#[verifier::loop_isolation(false)]
fn build_statics() -> (r: Vec<(Vec<u8>, Vec<u8>)>)
    ensures
        pairs_view(r@) == static_entries(),
{
    let text: &[u8] = STATIC_TEXT.as_slice();
    let mut out: Vec<(Vec<u8>, Vec<u8>)> = Vec::new();
    let mut i: usize = 0;
    while i < 61
        invariant
            0 <= i <= 61,
            out@.len() == i,
            forall|j: int|
                0 <= j < i ==> (#[trigger] out@[j]).0@ == static_name(j) && out@[j].1@
                    == static_value(j),
        decreases 61 - i,
    {
        let span: (usize, usize, usize) = STATIC_SPANS[i];
        proof {
            assert(span.0 <= span.1 <= span.2 <= STATIC_TEXT@.len());
        }
        let name: Vec<u8> = slice_to_vec(slice_subrange(text, span.0, span.1));
        let value: Vec<u8> = slice_to_vec(slice_subrange(text, span.1, span.2));
        out.push((name, value));
        i = i + 1;
    }
    proof {
        reveal(static_entries);
        assert(pairs_view(out@) =~= static_entries());
    }
    out
}

/// This table represents a single index address space for headers where the
/// static and the dynamic table are combined: indices `1` to `61` are the
/// static entries, and index `62` is the newest dynamic entry.
pub struct Table {
    /// The static table with predefined headers.
    statics: Vec<(Vec<u8>, Vec<u8>)>,
    /// The dynamic table holding custom headers.
    dynamic: DynamicTable,
}

impl Table {
    /// All entries of the unified address space, 0-based: the static
    /// entries, then the dynamic entries, newest first.
    pub closed spec fn entries(&self) -> Seq<(Seq<u8>, Seq<u8>)> {
        static_entries() + self.dynamic.entries()
    }

    /// The dynamic entries alone, newest first.
    pub closed spec fn dyn_entries(&self) -> Seq<(Seq<u8>, Seq<u8>)> {
        self.dynamic.entries()
    }

    /// The dynamic table's size limit.
    pub closed spec fn max(&self) -> nat {
        self.dynamic.max()
    }

    /// The static half is the fixed table and the dynamic half keeps its
    /// size within its limit.
    pub closed spec fn wf(&self) -> bool {
        &&& pairs_view(self.statics@) == static_entries()
        &&& self.dynamic.wf()
    }

    /// Returns a new header table instance with the provided maximum
    /// allowed size of the dynamic table.
    pub fn with_dynamic_size(max_dynamic_size: u32) -> (r: Table)
        ensures
            r.wf(),
            r.dyn_entries() =~= Seq::<(Seq<u8>, Seq<u8>)>::empty(),
            r.max() == max_dynamic_size,
    {
        proof {
            lemma_static_entries_len();
        }
        Table { statics: build_statics(), dynamic: DynamicTable::with_size(max_dynamic_size) }
    }

    /// Returns the total number of headers in the static and the dynamic
    /// table combined.
    pub fn len(&self) -> (r: usize)
        requires
            self.wf(),
        ensures
            r == self.entries().len(),
    {
        proof {
            lemma_static_entries_len();
            lemma_entries_min_size(self.dynamic.entries());
        }
        61 + self.dynamic.len()
    }

    /// Returns the total number of entries stored in the dynamic table.
    pub fn dynamic_len(&self) -> (r: usize)
        ensures
            r == self.dyn_entries().len(),
    {
        self.dynamic.len()
    }

    /// Returns the total size (in octets) of the entries stored in the
    /// dynamic table.
    pub fn dynamic_size(&self) -> (r: u32)
        requires
            self.wf(),
        ensures
            r == entries_size(self.dyn_entries()),
    {
        self.dynamic.size()
    }

    /// Returns the maximum allowed size of the dynamic table.
    pub fn max_dynamic_size(&self) -> (r: u32)
        ensures
            r == self.max(),
    {
        self.dynamic.max_size()
    }

    /// Updates the maximum allowed size of the dynamic table, evicting from
    /// the tail whatever no longer fits.
    pub fn update_max_dynamic_size(&mut self, size: u32)
        requires
            old(self).wf(),
        ensures
            final(self).wf(),
            final(self).max() == size,
            final(self).dyn_entries() == evicted(old(self).dyn_entries(), size as nat),
            entries_size(final(self).dyn_entries()) <= size,
    {
        self.dynamic.update_max_size(size);
    }

    /// Finds a header by its index.
    ///
    /// Index `0` is invalid and always absent; indices beyond the last
    /// dynamic entry are absent too.
    pub fn get(&self, index: u32) -> (r: Option<(Vec<u8>, Vec<u8>)>)
        requires
            self.wf(),
        ensures
            1 <= index <= self.entries().len() ==> (match r {
                Some(e) => (e.0@, e.1@) == self.entries()[index - 1],
                None => false,
            }),
            !(1 <= index <= self.entries().len()) ==> r is None,
    {
        if index == 0 {
            return None;
        }
        proof {
            lemma_static_entries_len();
        }
        if index <= 61 {
            proof {
                assert(pairs_view(self.statics@).len() == static_entries().len());
                assert(self.statics@.len() == 61);
            }
            let e: &(Vec<u8>, Vec<u8>) = &self.statics[(index - 1) as usize];
            proof {
                assert(pairs_view(self.statics@)[index - 1] == (self.statics@[index - 1].0@,
                    self.statics@[index - 1].1@));
                assert(static_entries()[index - 1] == pairs_view(self.statics@)[index - 1]);
                assert(self.entries()[index - 1] == static_entries()[index - 1]);
            }
            return Some((slice_to_vec(e.0.as_slice()), slice_to_vec(e.1.as_slice())));
        }
        let r = self.dynamic.get(index - 62);
        proof {
            if index - 62 < self.dynamic.entries().len() {
                assert(self.entries()[index - 1] == self.dynamic.entries()[index - 62]);
            }
        }
        r
    }

    /// Searches the static and the dynamic tables for the provided header.
    ///
    /// A full match of name and value is preferred wherever it stands; with
    /// none, the first entry whose name alone matches is reported.
    #[verifier::loop_isolation(false)]
    #[verifier::rlimit(100)]
    #[verifier::spinoff_prover]
    pub fn find(&self, name: &[u8], value: &[u8]) -> (r: Option<(usize, bool)>)
        requires
            self.wf(),
        ensures
            match find_spec(self.entries(), name@, value@) {
                Some((j, full)) => r == Some((j as usize, full)),
                None => r is None,
            },
    {
        let total: usize = self.len();
        let ghost es = self.entries();
        proof {
            lemma_static_entries_len();
            self.lemma_entries_split();
            lemma_entries_min_size(self.dyn_entries());
            assert(total < 0x1_0000_0000);
        }
        let mut name_match: usize = 0;
        let mut i: usize = 0;
        while i < total
            invariant
                0 <= i <= total == es.len(),
                first_full(es, name@, value@, 0) == first_full(es, name@, value@, i as int),
                name_match == 0 ==> first_name(es, name@, 0) == first_name(es, name@, i as int),
                name_match != 0 ==> first_name(es, name@, 0) == Some(name_match - 1) && 1
                    <= name_match <= i,
            decreases total - i,
        {
            let e: (Vec<u8>, Vec<u8>) = match self.get((i + 1) as u32) {
                Some(e) => e,
                None => {
                    proof {
                        assert(false);
                    }
                    return None;
                },
            };
            proof {
                assert(es[i as int] == (e.0@, e.1@));
                assert(es[i as int].0 == e.0@ && es[i as int].1 == e.1@);
            }
            if bytes_eq(e.0.as_slice(), name) {
                if bytes_eq(e.1.as_slice(), value) {
                    proof {
                        assert(first_full(es, name@, value@, i as int) == Some(i as int));
                    }
                    return Some((i + 1, true));
                }
                if name_match == 0 {
                    name_match = i + 1;
                    proof {
                        assert(first_name(es, name@, (i as int)) == Some(i as int));
                    }
                }
            }
            i = i + 1;
        }
        if name_match == 0 {
            None
        } else {
            Some((name_match, false))
        }
    }

    /// Inserts a new header at the beginning of the dynamic table.
    #[verifier::rlimit(100)]
    #[verifier::spinoff_prover]
    pub fn insert(&mut self, name: Vec<u8>, value: Vec<u8>)
        requires
            old(self).wf(),
        ensures
            final(self).wf(),
            final(self).max() == old(self).max(),
            final(self).dyn_entries() == evicted(
                seq![(name@, value@)] + old(self).dyn_entries(),
                old(self).max(),
            ),
            entries_size(final(self).dyn_entries()) <= old(self).max(),
    {
        self.dynamic.insert(name, value);
    }
}

impl Table {
    /// How the unified address space splits into its halves, and the
    /// dynamic half's size bound.
    pub proof fn lemma_entries_split(&self)
        requires
            self.wf(),
        ensures
            self.entries().len() == 61 + self.dyn_entries().len(),
            forall|i: int| 0 <= i < 61 ==> self.entries()[i] == static_entries()[i],
            forall|i: int|
                61 <= i < self.entries().len() ==> self.entries()[i] == self.dyn_entries()[i
                    - 61],
            entries_size(self.dyn_entries()) <= self.max(),
            self.max() <= 0xFFFF_FFFF,
    {
        lemma_static_entries_len();
    }
}

/// A reported full match lies inside the entries.
pub proof fn lemma_first_full_range(
    es: Seq<(Seq<u8>, Seq<u8>)>,
    name: Seq<u8>,
    value: Seq<u8>,
    i: int,
)
    ensures
        match first_full(es, name, value, i) {
            Some(j) => i <= j < es.len() && es[j].0 == name && es[j].1 == value,
            None => true,
        },
    decreases es.len() - i,
{
    if 0 <= i < es.len() && !(es[i].0 == name && es[i].1 == value) {
        lemma_first_full_range(es, name, value, i + 1);
    }
}

/// A reported name match lies inside the entries.
pub proof fn lemma_first_name_range(es: Seq<(Seq<u8>, Seq<u8>)>, name: Seq<u8>, i: int)
    ensures
        match first_name(es, name, i) {
            Some(j) => i <= j < es.len() && es[j].0 == name,
            None => true,
        },
    decreases es.len() - i,
{
    if 0 <= i < es.len() && !(es[i].0 == name) {
        lemma_first_name_range(es, name, i + 1);
    }
}

impl Default for Table {
    /// A table whose dynamic half is limited to 4096 octets.
    fn default() -> (r: Self)
        ensures
            r.wf(),
            r.dyn_entries() =~= Seq::<(Seq<u8>, Seq<u8>)>::empty(),
            r.max() == 4096,
    {
        Table::with_dynamic_size(4096)
    }
}

} // verus!
