//! The row index of a DRAM-contiguous buffer.
use vstd::prelude::*;
use crate::architecture::{row_key, Architecture, DramAddr, PhysAddr};
use crate::config::Config;
use std::collections::HashMap;

verus! {

broadcast use vstd::std_specs::hash::group_hash_axioms;

/// A contiguous byte span that starts at `start`.
#[derive(Clone, Copy, Debug, PartialEq, Eq, Structural)]
pub struct DramRange {
    pub start: DramAddr,
    pub bytes: usize,
}

/// The ranges of the buffer that lie in one row, keyed by the row-aligned coordinate.
#[derive(Clone, Debug)]
pub struct RowRanges {
    pub key: DramAddr,
    pub ranges: Vec<DramRange>,
}

/// A buffer given by its base address and length, with its ranges grouped by row.
pub struct MemMap {
    base: usize,
    len: usize,
    rows: Vec<RowRanges>,
    /// Position in `rows` of the entry of each row, by packed row key.
    slots: HashMap<u64, usize>,
}

/// The fields that name a row, packed into one integer.
pub open spec fn pack_key(k: DramAddr) -> u64 {
    pack_fields(k.chan, k.dimm, k.rank, k.bank, k.row)
}

/// Channel, DIMM, rank and bank in bytes 5 to 2, the row in the low two bytes.
pub open spec fn pack_fields(chan: u8, dimm: u8, rank: u8, bank: u8, row: u16) -> u64 {
    ((chan as u64) << 40u64) | ((dimm as u64) << 32u64) | ((rank as u64) << 24u64) | ((bank as u64)
        << 16u64) | (row as u64)
}

proof fn lemma_pack_injective(a: DramAddr, b: DramAddr)
    requires
        pack_key(a) == pack_key(b),
    ensures
        row_key(a) == row_key(b),
{
    let (ac, ad, ar, ab, aw) = (a.chan, a.dimm, a.rank, a.bank, a.row);
    let (bc, bd, br, bb, bw) = (b.chan, b.dimm, b.rank, b.bank, b.row);
    assert(ac == bc && ad == bd && ar == br && ab == bb && aw == bw) by (bit_vector)
        requires
            pack_fields(ac, ad, ar, ab, aw) == pack_fields(bc, bd, br, bb, bw),
    ;
}

/// The packed row fields of `k`.
fn pack_key_of(k: &DramAddr) -> (r: u64)
    ensures
        r == pack_key(*k),
{
    ((k.chan as u64) << 40u64) | ((k.dimm as u64) << 32u64) | ((k.rank as u64) << 24u64) | ((k.bank
        as u64) << 16u64) | (k.row as u64)
}

/// The slot table gives the position of every entry of the index by its packed key.
pub open spec fn slots_wf(rows: Seq<RowRanges>, slots: Map<u64, usize>) -> bool {
    &&& forall|h: u64|
        #[trigger] slots.contains_key(h) ==> slots[h] < rows.len() && pack_key(
            rows[slots[h] as int].key,
        ) == h
    &&& forall|i: int|
        0 <= i < rows.len() ==> slots.contains_key(pack_key(#[trigger] rows[i].key)) && slots[pack_key(
            rows[i].key,
        )] == i
}

/// The ranges that cut `[off, len)` into pieces of `q` bytes (the last one shorter),
/// each starting at the coordinate of its first byte.
pub open spec fn split_from<A: Architecture>(arch: A, len: nat, q: nat, off: nat) -> Seq<DramRange>
    decreases len - off,
{
    if off >= len || q == 0 {
        seq![]
    } else if len - off <= q {
        seq![DramRange { start: arch.to_dram(off as PhysAddr), bytes: (len - off) as usize }]
    } else {
        seq![DramRange { start: arch.to_dram(off as PhysAddr), bytes: q as usize }] + split_from(
            arch,
            len,
            q,
            off + q,
        )
    }
}

/// All ranges of a buffer of `len` bytes, cut at the contiguity quantum `q`.
pub open spec fn split_spec<A: Architecture>(arch: A, len: nat, q: nat) -> Seq<DramRange> {
    split_from(arch, len, q, 0)
}

/// A range starts in the row keyed `k`.
pub open spec fn starts_in_row(k: DramAddr) -> spec_fn(DramRange) -> bool {
    |r: DramRange| row_key(r.start) == k
}

/// The ranges of `rs` whose start lies in the row keyed `k`, in order.
pub open spec fn in_row(rs: Seq<DramRange>, k: DramAddr) -> Seq<DramRange> {
    rs.filter(starts_in_row(k))
}

/// Every range but `r`.
pub open spec fn other_than(r: DramRange) -> spec_fn(DramRange) -> bool {
    |x: DramRange| x != r
}

/// The byte at physical offset `p` of `buf`, if `buf` reaches that far.
pub open spec fn byte_at(buf: Seq<u8>, p: PhysAddr) -> Option<u8> {
    if p < buf.len() {
        Some(buf[p as int])
    } else {
        None
    }
}

/// No two entries of the index share a key.
pub open spec fn keys_unique(rows: Seq<RowRanges>) -> bool {
    forall|i: int, j: int|
        0 <= i < rows.len() && 0 <= j < rows.len() && i != j ==> rows[i].key != rows[j].key
}

/// The ranges that the index holds for row `k`; none where it has no entry.
pub open spec fn lookup(rows: Seq<RowRanges>, k: DramAddr) -> Seq<DramRange> {
    if exists|i: int| 0 <= i < rows.len() && rows[i].key == k {
        rows[choose|i: int| 0 <= i < rows.len() && rows[i].key == k].ranges@
    } else {
        seq![]
    }
}

/// The index is well formed: keys are unique and row-aligned, and every range of an
/// entry starts in that entry's row.
pub open spec fn index_wf(rows: Seq<RowRanges>) -> bool {
    &&& keys_unique(rows)
    &&& forall|i: int| 0 <= i < rows.len() ==> row_key(#[trigger] rows[i].key) == rows[i].key
    &&& forall|i: int, j: int|
        0 <= i < rows.len() && 0 <= j < rows[i].ranges@.len() ==> row_key(
            (#[trigger] rows[i].ranges@[j]).start,
        ) == rows[i].key
}

/// The index groups `all` by row: it has an entry exactly for the rows in which some
/// range of `all` starts, and each entry holds those ranges in order.
pub open spec fn indexes(rows: Seq<RowRanges>, all: Seq<DramRange>) -> bool {
    &&& index_wf(rows)
    &&& forall|i: int| 0 <= i < rows.len() ==> (#[trigger] rows[i]).ranges@.len() > 0
    &&& forall|k: DramAddr| #[trigger] lookup(rows, k) == in_row(all, k)
}

pub proof fn lemma_lookup_at(rows: Seq<RowRanges>, j: int)
    requires
        keys_unique(rows),
        0 <= j < rows.len(),
    ensures
        lookup(rows, rows[j].key) == rows[j].ranges@,
{
    let k = rows[j].key;
    assert(exists|i: int| 0 <= i < rows.len() && rows[i].key == k);
}

pub proof fn lemma_lookup_absent(rows: Seq<RowRanges>, k: DramAddr)
    requires
        forall|i: int| 0 <= i < rows.len() ==> rows[i].key != k,
    ensures
        lookup(rows, k) == Seq::<DramRange>::empty(),
{
}

proof fn lemma_lookup_update(rows: Seq<RowRanges>, j: int, e: RowRanges)
    requires
        keys_unique(rows),
        0 <= j < rows.len(),
        e.key == rows[j].key,
    ensures
        keys_unique(rows.update(j, e)),
        lookup(rows.update(j, e), e.key) == e.ranges@,
        forall|k: DramAddr| k != e.key ==> lookup(rows.update(j, e), k) == lookup(rows, k),
{
    let rows2 = rows.update(j, e);
    lemma_lookup_at(rows2, j);
    assert forall|k: DramAddr| k != e.key implies lookup(rows2, k) == lookup(rows, k) by {
        if exists|i: int| 0 <= i < rows.len() && rows[i].key == k {
            let i = choose|i: int| 0 <= i < rows.len() && rows[i].key == k;
            lemma_lookup_at(rows, i);
            lemma_lookup_at(rows2, i);
        }
    }
}

proof fn lemma_lookup_push(rows: Seq<RowRanges>, e: RowRanges)
    requires
        keys_unique(rows),
        forall|i: int| 0 <= i < rows.len() ==> rows[i].key != e.key,
    ensures
        keys_unique(rows.push(e)),
        lookup(rows.push(e), e.key) == e.ranges@,
        forall|k: DramAddr| k != e.key ==> lookup(rows.push(e), k) == lookup(rows, k),
{
    let rows2 = rows.push(e);
    lemma_lookup_at(rows2, rows.len() as int);
    assert forall|k: DramAddr| k != e.key implies lookup(rows2, k) == lookup(rows, k) by {
        if exists|i: int| 0 <= i < rows.len() && rows[i].key == k {
            let i = choose|i: int| 0 <= i < rows.len() && rows[i].key == k;
            lemma_lookup_at(rows, i);
            lemma_lookup_at(rows2, i);
        }
    }
}

/// A copy of a list of ranges.
fn copy_ranges(v: &Vec<DramRange>) -> (r: Vec<DramRange>)
    ensures
        r@ == v@,
{
    let mut r: Vec<DramRange> = Vec::new();
    let mut i: usize = 0;
    while i < v.len()
        invariant
            i <= v@.len(),
            r@ == v@.subrange(0, i as int),
        decreases v@.len() - i,
    {
        r.push(v[i]);
        i = i + 1;
        assert(r@ =~= v@.subrange(0, i as int));
    }
    assert(r@ =~= v@);
    r
}

/// Position of the entry keyed `k`, if the index has one.
fn find_row(rows: &Vec<RowRanges>, slots: &HashMap<u64, usize>, k: &DramAddr) -> (r: Option<usize>)
    requires
        slots_wf(rows@, slots@),
    ensures
        match r {
            Some(j) => j < rows@.len() && rows@[j as int].key == *k,
            None => forall|i: int| 0 <= i < rows@.len() ==> rows@[i].key != *k,
        },
{
    let h = pack_key_of(k);
    match slots.get(&h) {
        Some(j) => {
            let j = *j;
            if rows[j].key == *k {
                Some(j)
            } else {
                assert forall|i: int| 0 <= i < rows@.len() implies rows@[i].key != *k by {
                    if rows@[i].key == *k {
                        assert(slots@[pack_key(rows@[i].key)] == i);
                    }
                }
                None
            }
        },
        None => {
            assert forall|i: int| 0 <= i < rows@.len() implies rows@[i].key != *k by {
                if rows@[i].key == *k {
                    assert(slots@.contains_key(pack_key(rows@[i].key)));
                }
            }
            None
        },
    }
}

/// Cuts `[0, len)` into ranges of at most `contiguous_dram_addr` bytes.
fn split_into_ranges<A: Architecture>(len: usize, c: &Config<A>) -> (r: Vec<DramRange>)
    requires
        c.contiguous_dram_addr > 0,
    ensures
        r@ == split_spec(c.arch, len as nat, c.contiguous_dram_addr as nat),
{
    let q = c.contiguous_dram_addr;
    let mut ranges: Vec<DramRange> = Vec::new();
    let mut off: usize = 0;
    while off < len
        invariant
            q == c.contiguous_dram_addr,
            q > 0,
            off <= len,
            ranges@ + split_from(c.arch, len as nat, q as nat, off as nat) == split_spec(
                c.arch,
                len as nat,
                q as nat,
            ),
        decreases len - off,
    {
        let remaining = len - off;
        let start = offset_to_dram(off as PhysAddr, c);
        let ghost before = ranges@;
        if remaining <= q {
            ranges.push(DramRange { start, bytes: remaining });
            assert(split_from(c.arch, len as nat, q as nat, len as nat) =~= seq![]);
            assert(ranges@ + split_from(c.arch, len as nat, q as nat, len as nat) =~= before
                + split_from(c.arch, len as nat, q as nat, off as nat));
            off = len;
        } else {
            ranges.push(DramRange { start, bytes: q });
            assert(ranges@ + split_from(c.arch, len as nat, q as nat, (off + q) as nat) =~= before
                + split_from(c.arch, len as nat, q as nat, off as nat));
            off = off + q;
        }
    }
    assert(split_from(c.arch, len as nat, q as nat, off as nat) =~= seq![]);
    assert(ranges@ =~= ranges@ + split_from(c.arch, len as nat, q as nat, off as nat));
    ranges
}

/// Groups ranges by the row in which each starts.
fn to_range_map<A: Architecture>(len: usize, c: &Config<A>) -> (r: (Vec<RowRanges>, HashMap<u64, usize>))
    requires
        c.contiguous_dram_addr > 0,
    ensures
        indexes(r.0@, split_spec(c.arch, len as nat, c.contiguous_dram_addr as nat)),
        slots_wf(r.0@, r.1@),
{
    let all = split_into_ranges(len, c);
    let mut rows: Vec<RowRanges> = Vec::new();
    let mut slots: HashMap<u64, usize> = HashMap::new();
    let mut i: usize = 0;
    assert forall|k: DramAddr| #[trigger] lookup(rows@, k) == in_row(all@.subrange(0, 0), k) by {
        all@.subrange(0, 0).lemma_filter_len(starts_in_row(k));
        assert(in_row(all@.subrange(0, 0), k) =~= seq![]);
    }
    while i < all.len()
        invariant
            i <= all@.len(),
            indexes(rows@, all@.subrange(0, i as int)),
            slots_wf(rows@, slots@),
        decreases all@.len() - i,
    {
        let r = all[i];
        let k = r.start.row_aligned();
        let ghost done = all@.subrange(0, i as int);
        let ghost old_rows = rows@;
        assert(all@.subrange(0, i + 1) == done.push(r));
        proof {
            done.lemma_filter_push(r, starts_in_row(k));
        }
        match find_row(&rows, &slots, &k) {
            Some(j) => {
                rows[j].ranges.push(r);
                proof {
                    assert(rows@ == old_rows.update(j as int, rows@[j as int]));
                    lemma_lookup_update(old_rows, j as int, rows@[j as int]);
                    lemma_lookup_at(old_rows, j as int);
                    assert(lookup(old_rows, k) == in_row(done, k));
                    assert(lookup(rows@, k) == in_row(done, k).push(r));
                    assert forall|kk: DramAddr| kk != k implies lookup(rows@, kk) == in_row(done, kk) by {
                        assert(lookup(old_rows, kk) == in_row(done, kk));
                    }
                    assert forall|m: int, n: int|
                        0 <= m < rows@.len() && 0 <= n < rows@[m].ranges@.len() implies row_key(
                        (#[trigger] rows@[m].ranges@[n]).start) == rows@[m].key by {
                        if m == j && n == old_rows[m].ranges@.len() {
                        } else {
                            assert(rows@[m].ranges@[n] == old_rows[m].ranges@[n]);
                        }
                    }
                }
            },
            None => {
                let mut first: Vec<DramRange> = Vec::new();
                first.push(r);
                let e = RowRanges { key: k, ranges: first };
                let h = pack_key_of(&k);
                let ghost old_slots = slots@;
                proof {
                    if old_slots.contains_key(h) {
                        let m = old_slots[h] as int;
                        lemma_pack_injective(old_rows[m].key, k);
                        assert(row_key(old_rows[m].key) == old_rows[m].key);
                    }
                }
                slots.insert(h, rows.len());
                rows.push(e);
                proof {
                    assert forall|hh: u64| #[trigger] slots@.contains_key(hh) implies slots@[hh] < rows@.len()
                        && pack_key(rows@[slots@[hh] as int].key) == hh by {
                        if hh != h {
                            assert(old_slots.contains_key(hh));
                        }
                    }
                    assert forall|m: int| 0 <= m < rows@.len() implies slots@.contains_key(
                        pack_key(#[trigger] rows@[m].key),
                    ) && slots@[pack_key(rows@[m].key)] == m by {
                        if m < old_rows.len() {
                            assert(rows@[m] == old_rows[m]);
                            assert(pack_key(old_rows[m].key) != h);
                        }
                    }
                }
                proof {
                    lemma_lookup_push(old_rows, e);
                    lemma_lookup_absent(old_rows, k);
                    assert(in_row(done, k) =~= seq![]) by {
                        assert forall|m: int| 0 <= m < done.len() implies !starts_in_row(k)(done[m]) by {
                            if starts_in_row(k)(done[m]) {
                                done.lemma_filter_contains(starts_in_row(k), m);
                            }
                        }
                        done.lemma_filter_len(starts_in_row(k));
                    }
                    assert(lookup(rows@, k) == in_row(done, k).push(r));
                    assert forall|kk: DramAddr| kk != k implies lookup(rows@, kk) == in_row(done, kk) by {
                        assert(lookup(old_rows, kk) == in_row(done, kk));
                    }
                }
            },
        }
        i = i + 1;
        proof {
            assert forall|kk: DramAddr| #[trigger] lookup(rows@, kk) == in_row(all@.subrange(0, i as int), kk) by {
                done.lemma_filter_push(r, starts_in_row(kk));
                if kk != k {
                    assert(lookup(rows@, kk) == in_row(done, kk));
                }
            }
        }
    }
    assert(all@.subrange(0, i as int) == all@);
    (rows, slots)
}

impl MemMap {
    /// Base address of the buffer.
    pub closed spec fn base_addr(&self) -> usize {
        self.base
    }

    /// Length of the buffer in bytes.
    pub closed spec fn size(&self) -> usize {
        self.len
    }

    /// The row index.
    pub closed spec fn index(&self) -> Seq<RowRanges> {
        self.rows@
    }

    /// The slot table finds every entry of the index.
    pub closed spec fn slots_ok(&self) -> bool {
        slots_wf(self.rows@, self.slots@)
    }

    /// The invariant of the index.
    pub open spec fn wf(&self) -> bool {
        index_wf(self.index()) && self.slots_ok()
    }

    /// Maps the buffer of `len` bytes at `base` and indexes its ranges by row, assuming
    /// the buffer is physically contiguous from offset 0.
    pub fn new<A: Architecture>(base: usize, len: usize, c: &Config<A>) -> (m: MemMap)
        requires
            c.contiguous_dram_addr > 0,
        ensures
            m.base_addr() == base,
            m.size() == len,
            m.wf(),
            indexes(m.index(), split_spec(c.arch, len as nat, c.contiguous_dram_addr as nat)),
    {
        let (rows, slots) = to_range_map(len, c);
        MemMap { base, len, rows, slots }
    }

    /// Base address of the buffer.
    pub fn base(&self) -> (r: usize)
        ensures
            r == self.base_addr(),
    {
        self.base
    }

    /// Length of the buffer in bytes.
    pub fn len(&self) -> (r: usize)
        ensures
            r == self.size(),
    {
        self.len
    }

    /// Takes range `r` out of the index: it no longer stands among the ranges of its row.
    pub fn remove_range(&mut self, r: &DramRange)
        requires
            old(self).wf(),
        ensures
            final(self).wf(),
            final(self).base_addr() == old(self).base_addr(),
            final(self).size() == old(self).size(),
            final(self).index().len() == old(self).index().len(),
            forall|i: int|
                0 <= i < old(self).index().len() ==> (#[trigger] final(self).index()[i]).key == old(
                    self,
                ).index()[i].key,
            lookup(final(self).index(), row_key(r.start)) == lookup(
                old(self).index(),
                row_key(r.start),
            ).filter(other_than(*r)),
            forall|k: DramAddr|
                k != row_key(r.start) ==> #[trigger] lookup(final(self).index(), k) == lookup(
                    old(self).index(),
                    k,
                ),
    {
        let k = r.start.row_aligned();
        let ghost old_rows = self.rows@;
        match find_row(&self.rows, &self.slots, &k) {
            Some(j) => {
                let mut kept: Vec<DramRange> = Vec::new();
                let mut i: usize = 0;
                let n = self.rows[j].ranges.len();
                while i < n
                    invariant
                        self.rows@ == old_rows,
                        j < old_rows.len(),
                        old_rows[j as int].key == k,
                        index_wf(old_rows),
                        n == old_rows[j as int].ranges@.len(),
                        i <= n,
                        kept@ == old_rows[j as int].ranges@.subrange(0, i as int).filter(
                            other_than(*r),
                        ),
                        forall|m: int| 0 <= m < kept@.len() ==> row_key((#[trigger] kept@[m]).start) == k,
                    decreases n - i,
                {
                    let x = self.rows[j].ranges[i];
                    let ghost olds = old_rows[j as int].ranges@;
                    proof {
                        assert(olds.subrange(0, i + 1) == olds.subrange(0, i as int).push(x));
                        olds.subrange(0, i as int).lemma_filter_push(x, other_than(*r));
                    }
                    if x != *r {
                        kept.push(x);
                    }
                    i = i + 1;
                }
                assert(old_rows[j as int].ranges@.subrange(0, n as int) == old_rows[j as int].ranges@);
                self.rows[j].ranges = kept;
                proof {
                    lemma_lookup_update(old_rows, j as int, self.rows@[j as int]);
                    lemma_lookup_at(old_rows, j as int);
                }
            },
            None => {
                proof {
                    lemma_lookup_absent(old_rows, k);
                    assert(Seq::<DramRange>::empty().filter(other_than(*r)) =~= seq![]) by {
                        Seq::<DramRange>::empty().lemma_filter_len(other_than(*r));
                    }
                }
            },
        }
    }

    /// The ranges of the row that holds `da`.
    pub fn same_row_ranges(&self, da: &DramAddr) -> (r: Vec<DramRange>)
        requires
            self.wf(),
        ensures
            r@ == lookup(self.index(), row_key(*da)),
    {
        let k = da.row_aligned();
        match find_row(&self.rows, &self.slots, &k) {
            Some(j) => {
                proof {
                    lemma_lookup_at(self.rows@, j as int);
                }
                copy_ranges(&self.rows[j].ranges)
            },
            None => {
                proof {
                    lemma_lookup_absent(self.rows@, k);
                }
                Vec::new()
            },
        }
    }

    /// The row index.
    pub fn get_ranges(&self) -> (r: &Vec<RowRanges>)
        ensures
            r@ == self.index(),
    {
        &self.rows
    }

    /// The address `n` bytes past the base, wrapping around the address space.
    pub fn offset(&self, n: usize) -> (r: usize)
        ensures
            r == (if self.base_addr() + n <= usize::MAX {
                self.base_addr() + n
            } else {
                self.base_addr() + n - usize::MAX - 1
            }),
    {
        self.base.wrapping_add(n)
    }

    /// The byte that holds `da`, if it lies in `buf`.
    pub fn at_dram<A: Architecture>(&self, buf: &[u8], da: &DramAddr, c: &Config<A>) -> (r: Option<
        u8,
    >)
        ensures
            r == byte_at(buf@, c.arch.to_phys(*da)),
    {
        let p = c.arch.dram_to_phys(da);
        if p < buf.len() as u64 {
            Some(buf[p as usize])
        } else {
            None
        }
    }

    /// Stores `v` in the byte that holds `da`; tells whether it lies in `buf`.
    pub fn set_dram<A: Architecture>(&self, buf: &mut [u8], da: &DramAddr, v: u8, c: &Config<A>) -> (r:
        bool)
        ensures
            r == (c.arch.to_phys(*da) < old(buf)@.len()),
            final(buf)@ == (if r {
                old(buf)@.update(c.arch.to_phys(*da) as int, v)
            } else {
                old(buf)@
            }),
    {
        let p = c.arch.dram_to_phys(da);
        if p < buf.len() as u64 {
            buf[p as usize] = v;
            true
        } else {
            false
        }
    }

    /// The physical offset of `da` from the start of the buffer.
    pub fn dram_to_offset<A: Architecture>(&self, da: &DramAddr, c: &Config<A>) -> (r: PhysAddr)
        ensures
            r == c.arch.to_phys(*da),
    {
        c.arch.dram_to_phys(da)
    }

    /// The coordinate of the byte at `offset`.
    pub fn offset_to_dram<A: Architecture>(&self, offset: PhysAddr, c: &Config<A>) -> (r: DramAddr)
        ensures
            r == c.arch.to_dram(offset),
    {
        c.arch.phys_to_dram(offset)
    }

    /// The virtual address of `da`: the base plus its physical offset, wrapping around
    /// the address space as `offset` does. `None` only where the offset does not fit a
    /// `usize`.
    pub fn dram_to_virt<A: Architecture>(&self, da: &DramAddr, c: &Config<A>) -> (r: Option<usize>)
        ensures
            r == (if c.arch.to_phys(*da) <= usize::MAX {
                Some(
                    (if self.base_addr() + c.arch.to_phys(*da) <= usize::MAX {
                        self.base_addr() + c.arch.to_phys(*da)
                    } else {
                        self.base_addr() + c.arch.to_phys(*da) - usize::MAX - 1
                    }) as usize,
                )
            } else {
                None
            }),
    {
        let p = c.arch.dram_to_phys(da);
        if p <= usize::MAX as u64 {
            Some(self.offset(p as usize))
        } else {
            None
        }
    }
}

/// The coordinate of the byte at `offset` from the start of the buffer.
pub fn offset_to_dram<A: Architecture>(offset: PhysAddr, c: &Config<A>) -> (r: DramAddr)
    ensures
        r == c.arch.to_dram(offset),
{
    c.arch.phys_to_dram(offset)
}

/// Byte `p` lies in the physical span of range `r`.
pub open spec fn span_holds<A: Architecture>(arch: A, r: DramRange, p: int) -> bool {
    arch.to_phys(r.start) <= p < arch.to_phys(r.start) + r.bytes
}

/// Some range of `s` holds byte `p`.
pub open spec fn seq_covers<A: Architecture>(arch: A, s: Seq<DramRange>, p: int) -> bool {
    exists|n: int| 0 <= n < s.len() && #[trigger] span_holds(arch, s[n], p)
}

/// Some range of the index holds byte `p`.
pub open spec fn index_covers<A: Architecture>(arch: A, rows: Seq<RowRanges>, p: int) -> bool {
    exists|i: int, j: int|
        0 <= i < rows.len() && 0 <= j < rows[i].ranges@.len() && #[trigger] span_holds(
            arch,
            rows[i].ranges@[j],
            p,
        )
}

/// The map gives back the address of each range start of a buffer of `len` bytes cut
/// at quantum `q`.
pub open spec fn round_trips_at_starts<A: Architecture>(arch: A, len: nat, q: nat) -> bool {
    forall|o: PhysAddr| o < len && (o as int) % (q as int) == 0 ==> arch.to_phys(#[trigger] arch.to_dram(o)) == o
}

proof fn lemma_split_partition<A: Architecture>(arch: A, len: nat, q: nat, off: nat)
    requires
        q > 0,
        off % q == 0,
        len <= usize::MAX,
        round_trips_at_starts(arch, len, q),
    ensures
        ({
            let s = split_from(arch, len, q, off);
            &&& forall|n: int|
                0 <= n < s.len() ==> off <= arch.to_phys(#[trigger] s[n].start) && arch.to_phys(
                    s[n].start,
                ) + s[n].bytes <= len
            &&& forall|p: int| off <= p < len ==> #[trigger] seq_covers(arch, s, p)
            &&& forall|n1: int, n2: int, p: int|
                0 <= n1 < s.len() && 0 <= n2 < s.len() && #[trigger] span_holds(arch, s[n1], p)
                    && #[trigger] span_holds(arch, s[n2], p) ==> n1 == n2
        }),
    decreases len - off,
{
    let s = split_from(arch, len, q, off);
    if off >= len {
    } else {
        let o = off as PhysAddr;
        assert(arch.to_phys(arch.to_dram(o)) == o);
        if len - off <= q {
            assert forall|p: int| off <= p < len implies #[trigger] seq_covers(arch, s, p) by {
                assert(span_holds(arch, s[0], p));
            }
        } else {
            let rest = split_from(arch, len, q, off + q);
            vstd::arithmetic::div_mod::lemma_mod_add_multiples_vanish(off as int, q as int);
            lemma_split_partition(arch, len, q, off + q);
            assert(s == seq![s[0]] + rest);
            assert forall|n: int| 1 <= n < s.len() implies s[n] == rest[n - 1] by {}
            assert forall|p: int| off <= p < len implies #[trigger] seq_covers(arch, s, p) by {
                if p < off + q {
                    assert(span_holds(arch, s[0], p));
                } else {
                    assert(seq_covers(arch, rest, p));
                    let m = choose|m: int| 0 <= m < rest.len() && #[trigger] span_holds(arch, rest[m], p);
                    assert(span_holds(arch, s[m + 1], p));
                }
            }
            assert forall|n1: int, n2: int, p: int|
                0 <= n1 < s.len() && 0 <= n2 < s.len() && #[trigger] span_holds(arch, s[n1], p)
                    && #[trigger] span_holds(arch, s[n2], p) implies n1 == n2 by {
                if n1 >= 1 && n2 >= 1 {
                    assert(span_holds(arch, rest[n1 - 1], p));
                    assert(span_holds(arch, rest[n2 - 1], p));
                } else if n1 >= 1 {
                    assert(off + q <= arch.to_phys(rest[n1 - 1].start));
                } else if n2 >= 1 {
                    assert(off + q <= arch.to_phys(rest[n2 - 1].start));
                }
            }
        }
    }
}

/// Range partition: when the map gives back the address of every range start, the
/// byte spans of the ranges in the index cover `[0, len)`, lie within it, and two
/// ranges that share a byte are the same range.
pub proof fn lemma_range_partition<A: Architecture>(m: MemMap, arch: A, len: usize, q: usize)
    requires
        q > 0,
        indexes(m.index(), split_spec(arch, len as nat, q as nat)),
        round_trips_at_starts(arch, len as nat, q as nat),
    ensures
        forall|p: int| 0 <= p < len ==> #[trigger] index_covers(arch, m.index(), p),
        forall|i: int, j: int|
            0 <= i < m.index().len() && 0 <= j < m.index()[i].ranges@.len() ==> arch.to_phys(
                (#[trigger] m.index()[i].ranges@[j]).start,
            ) + m.index()[i].ranges@[j].bytes <= len,
        forall|i1: int, j1: int, i2: int, j2: int, p: int|
            0 <= i1 < m.index().len() && 0 <= j1 < m.index()[i1].ranges@.len() && 0 <= i2
                < m.index().len() && 0 <= j2 < m.index()[i2].ranges@.len() && #[trigger] span_holds(
                arch,
                m.index()[i1].ranges@[j1],
                p,
            ) && #[trigger] span_holds(arch, m.index()[i2].ranges@[j2], p) ==> m.index()[i1].ranges@[j1]
                == m.index()[i2].ranges@[j2],
{
    let rows = m.index();
    let s = split_spec(arch, len as nat, q as nat);
    vstd::arithmetic::div_mod::lemma_small_mod(0, q as nat);
    lemma_split_partition(arch, len as nat, q as nat, 0);
    // every range of the index is one of the split ranges
    assert forall|i: int, j: int| 0 <= i < rows.len() && 0 <= j < rows[i].ranges@.len() implies s.contains(
        #[trigger] rows[i].ranges@[j],
    ) by {
        lemma_lookup_at(rows, i);
        assert(lookup(rows, rows[i].key).contains(rows[i].ranges@[j]));
        s.lemma_filter_contains_rev(starts_in_row(rows[i].key), rows[i].ranges@[j]);
    }
    assert forall|p: int| 0 <= p < len implies #[trigger] index_covers(arch, rows, p) by {
        assert(seq_covers(arch, s, p));
        let n = choose|n: int| 0 <= n < s.len() && #[trigger] span_holds(arch, s[n], p);
        let r = s[n];
        let k = row_key(r.start);
        s.lemma_filter_contains(starts_in_row(k), n);
        assert(lookup(rows, k).contains(r));
        if forall|i: int| 0 <= i < rows.len() ==> rows[i].key != k {
            lemma_lookup_absent(rows, k);
        }
        let i = choose|i: int| 0 <= i < rows.len() && rows[i].key == k;
        lemma_lookup_at(rows, i);
        let j = choose|j: int| 0 <= j < rows[i].ranges@.len() && rows[i].ranges@[j] == r;
        assert(span_holds(arch, rows[i].ranges@[j], p));
    }
    assert forall|i1: int, j1: int, i2: int, j2: int, p: int|
        0 <= i1 < rows.len() && 0 <= j1 < rows[i1].ranges@.len() && 0 <= i2 < rows.len() && 0 <= j2
            < rows[i2].ranges@.len() && #[trigger] span_holds(arch, rows[i1].ranges@[j1], p)
            && #[trigger] span_holds(arch, rows[i2].ranges@[j2], p) implies rows[i1].ranges@[j1]
        == rows[i2].ranges@[j2] by {
        assert(s.contains(rows[i1].ranges@[j1]));
        assert(s.contains(rows[i2].ranges@[j2]));
        let n1 = choose|n: int| 0 <= n < s.len() && s[n] == rows[i1].ranges@[j1];
        let n2 = choose|n: int| 0 <= n < s.len() && s[n] == rows[i2].ranges@[j2];
        assert(span_holds(arch, s[n1], p));
        assert(span_holds(arch, s[n2], p));
    }
    assert forall|i: int, j: int|
        0 <= i < rows.len() && 0 <= j < rows[i].ranges@.len() implies arch.to_phys(
        (#[trigger] rows[i].ranges@[j]).start,
    ) + rows[i].ranges@[j].bytes <= len by {
        assert(s.contains(rows[i].ranges@[j]));
        let n = choose|n: int| 0 <= n < s.len() && s[n] == rows[i].ranges@[j];
        assert(s[n] == rows[i].ranges@[j]);
    }
}


/// Range `r` is one of the pieces of a buffer of `len` bytes cut at quantum `q`: it
/// starts at the coordinate of a multiple of `q`, spans at most `q` bytes and ends
/// within the buffer.
pub open spec fn is_piece<A: Architecture>(arch: A, len: nat, q: nat, r: DramRange) -> bool {
    exists|o: nat|
        #![trigger arch.to_dram(o as PhysAddr)]
        o % q == 0 && r.start == arch.to_dram(o as PhysAddr) && r.bytes <= q && o + r.bytes <= len
}

proof fn lemma_split_pieces<A: Architecture>(arch: A, len: nat, q: nat, off: nat)
    requires
        q > 0,
        off % q == 0,
    ensures
        forall|n: int|
            0 <= n < split_from(arch, len, q, off).len() ==> is_piece(
                arch,
                len,
                q,
                #[trigger] split_from(arch, len, q, off)[n],
            ),
    decreases len - off,
{
    let s = split_from(arch, len, q, off);
    if off < len {
        assert(is_piece(arch, len, q, s[0]));
        if len - off > q {
            let rest = split_from(arch, len, q, off + q);
            vstd::arithmetic::div_mod::lemma_mod_add_multiples_vanish(off as int, q as int);
            lemma_split_pieces(arch, len, q, off + q);
            assert forall|n: int| 0 <= n < s.len() implies is_piece(arch, len, q, #[trigger] s[n]) by {
                if n > 0 {
                    assert(s[n] == rest[n - 1]);
                }
            }
        }
    }
}

/// Every range of an index of the pieces of a buffer is itself one of the pieces.
pub proof fn lemma_index_pieces<A: Architecture>(m: MemMap, arch: A, len: usize, q: usize)
    requires
        q > 0,
        indexes(m.index(), split_spec(arch, len as nat, q as nat)),
    ensures
        forall|i: int, j: int|
            0 <= i < m.index().len() && 0 <= j < m.index()[i].ranges@.len() ==> is_piece(
                arch,
                len as nat,
                q as nat,
                #[trigger] m.index()[i].ranges@[j],
            ),
{
    let rows = m.index();
    let s = split_spec(arch, len as nat, q as nat);
    vstd::arithmetic::div_mod::lemma_small_mod(0, q as nat);
    lemma_split_pieces(arch, len as nat, q as nat, 0);
    assert forall|i: int, j: int| 0 <= i < rows.len() && 0 <= j < rows[i].ranges@.len() implies is_piece(
        arch,
        len as nat,
        q as nat,
        #[trigger] rows[i].ranges@[j],
    ) by {
        lemma_lookup_at(rows, i);
        assert(lookup(rows, rows[i].key).contains(rows[i].ranges@[j]));
        s.lemma_filter_contains_rev(starts_in_row(rows[i].key), rows[i].ranges@[j]);
        let n = choose|n: int| 0 <= n < s.len() && s[n] == rows[i].ranges@[j];
        assert(is_piece(arch, len as nat, q as nat, s[n]));
    }
}

} // verus!
