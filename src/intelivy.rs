//! The address map of an Intel Ivy Bridge memory controller.
use vstd::prelude::*;
use crate::architecture::{row_key, same_row, Architecture, DramAddr, PhysAddr};
use crate::memmap::{
    index_wf, indexes, is_piece, lemma_index_pieces, round_trips_at_starts, split_spec, MemMap,
};
use crate::profile::{byte_row, ranges_stay_in_rows};

verus! {

/// Ivy Bridge map, with one knob for each doubled resource.
#[derive(Clone, Copy, Debug, PartialEq, Eq, Structural)]
pub struct IntelIvy {
    pub dual_channel: bool,
    pub dual_dimm: bool,
    pub dual_rank: bool,
}

/// Low address bits that pick a byte within a memory word.
pub const MW_BITS: u64 = 3;

/// Width of the column field.
pub const COL_BITS: u64 = 10;

/// Width of the row field.
pub const ROW_BITS: u64 = 16;

/// Row refresh interval of DDR3 in microseconds.
pub const REFRESH_PERIOD_US: usize = 64_000;

/// Bit `i` of `x`, as 0 or 1.
pub open spec fn bit_of(x: u64, i: u64) -> u64 {
    (x >> i) & 1
}

/// The `n` least significant bits of `x`.
pub open spec fn low_bits(x: u64, n: u64) -> u64 {
    x & (((1u64 << n) - 1) as u64)
}

/// `x` with bit `i` taken out: the bits above it move down by one.
pub open spec fn drop_bit(x: u64, i: u64) -> u64 {
    low_bits(x, i) | ((x >> ((i + 1) as u64)) << i)
}

/// The channel hash of a physical address.
pub open spec fn chan_hash(p: u64) -> u64 {
    bit_of(p, 7) ^ bit_of(p, 8) ^ bit_of(p, 9) ^ bit_of(p, 12) ^ bit_of(p, 13) ^ bit_of(p, 18)
        ^ bit_of(p, 19)
}

/// The address after the channel bit is taken out.
pub open spec fn fwd_unhashed(dc: bool, p: u64) -> u64 {
    if dc { drop_bit(p, 7) } else { p }
}

/// The channel of `p`.
pub open spec fn fwd_chan(dc: bool, p: u64) -> u64 {
    if dc { chan_hash(p) } else { 0 }
}

/// The column of `p`: the ten bits above the word bits.
pub open spec fn fwd_col(dc: bool, p: u64) -> u64 {
    low_bits(fwd_unhashed(dc, p) >> MW_BITS, COL_BITS)
}

/// What is left of the address above the column.
pub open spec fn fwd_above_col(dc: bool, p: u64) -> u64 {
    (fwd_unhashed(dc, p) >> MW_BITS) >> COL_BITS
}

/// The DIMM of `p`.
pub open spec fn fwd_dimm(dc: bool, dd: bool, p: u64) -> u64 {
    if dd { bit_of(fwd_above_col(dc, p), 2) } else { 0 }
}

/// What is left once the DIMM bit is taken out.
pub open spec fn fwd_above_dimm(dc: bool, dd: bool, p: u64) -> u64 {
    if dd { drop_bit(fwd_above_col(dc, p), 2) } else { fwd_above_col(dc, p) }
}

/// The rank of `p`.
pub open spec fn fwd_rank(dc: bool, dd: bool, dr: bool, p: u64) -> u64 {
    let q = fwd_above_dimm(dc, dd, p);
    if dr { bit_of(q, 2) ^ bit_of(q, 6) } else { 0 }
}

/// What is left once the rank bit is taken out: bank bits, then the row.
pub open spec fn fwd_bank_row(dc: bool, dd: bool, dr: bool, p: u64) -> u64 {
    if dr { drop_bit(fwd_above_dimm(dc, dd, p), 2) } else { fwd_above_dimm(dc, dd, p) }
}

/// The bank of `p`: three bits, each hashed with a row bit.
pub open spec fn fwd_bank(dc: bool, dd: bool, dr: bool, p: u64) -> u64 {
    let q = fwd_bank_row(dc, dd, dr, p);
    let bank0 = bit_of(q, 0) ^ bit_of(q, 3);
    let bank1 = bit_of(q, 1) ^ bit_of(q, 4);
    let bank2 = if dr { bit_of(q, 2) ^ bit_of(q, 6) } else { bit_of(q, 2) ^ bit_of(q, 5) };
    bank0 | (bank1 << 1u64) | (bank2 << 2u64)
}

/// The row of `p`.
pub open spec fn fwd_row(dc: bool, dd: bool, dr: bool, p: u64) -> u64 {
    low_bits(fwd_bank_row(dc, dd, dr, p) >> 3u64, ROW_BITS)
}

/// The inverse map: rebuilds the address from the row down, undoing each hash.
pub open spec fn inv_phys(
    dc: bool,
    dd: bool,
    dr: bool,
    chan: u64,
    dimm: u64,
    rank: u64,
    bank: u64,
    row: u64,
    col: u64,
) -> u64 {
    let x0 = low_bits(row, ROW_BITS);
    let x1 = if dr {
        (((x0 << 1u64) | (bit_of(bank, 2) ^ bit_of(row, 3))) << 1u64) | (bit_of(rank, 0) ^ bit_of(
            row,
            2,
        ))
    } else {
        (x0 << 1u64) | (bit_of(bank, 2) ^ bit_of(row, 2))
    };
    let x2 = if dd { (x1 << 1u64) | bit_of(dimm, 0) } else { x1 };
    let x3 = (x2 << 1u64) | (bit_of(bank, 1) ^ bit_of(row, 1));
    let x4 = (x3 << 1u64) | (bit_of(bank, 0) ^ bit_of(row, 0));
    let x5 = if dc {
        let y1 = ((x4 << 6u64) | low_bits(col >> 4u64, 6)) << 1u64;
        let y2 = y1 | (bit_of(chan, 0) ^ bit_of(y1, 1) ^ bit_of(y1, 2) ^ bit_of(y1, 5) ^ bit_of(y1, 6)
            ^ bit_of(y1, 11) ^ bit_of(y1, 12));
        (y2 << 4u64) | low_bits(col, 4)
    } else {
        (x4 << COL_BITS) | low_bits(col, COL_BITS)
    };
    x5 << MW_BITS
}

/// Number of address bits that the map covers with the given knobs.
pub open spec fn domain_bits(dc: bool, dd: bool, dr: bool) -> u64 {
    (32 + (if dc { 1u64 } else { 0u64 }) + (if dd { 1u64 } else { 0u64 }) + (if dr {
        1u64
    } else {
        0u64
    })) as u64
}

impl IntelIvy {
    /// The physical addresses that the map covers: word, column, bank and row bits,
    /// plus one bit per knob.
    pub open spec fn in_domain(self, p: u64) -> bool {
        p < (1u64 << domain_bits(self.dual_channel, self.dual_dimm, self.dual_rank))
    }

    /// The coordinates that the map produces: each field within its width, and no
    /// byte or bit index (those are not part of the physical address map).
    pub open spec fn is_valid_dram(self, a: DramAddr) -> bool {
        &&& a.chan <= (if self.dual_channel { 1u8 } else { 0u8 })
        &&& a.dimm <= (if self.dual_dimm { 1u8 } else { 0u8 })
        &&& a.rank <= (if self.dual_rank { 1u8 } else { 0u8 })
        &&& a.bank < 8
        &&& a.col < 1024
        &&& a.byte == 0
        &&& a.bit == 0
    }

    /// The forward map: channel hash, word bits, column, DIMM, rank, three hashed
    /// bank bits, row.
    pub open spec fn spec_phys_to_dram(self, p: u64) -> DramAddr {
        let (dc, dd, dr) = (self.dual_channel, self.dual_dimm, self.dual_rank);
        DramAddr {
            chan: fwd_chan(dc, p) as u8,
            dimm: fwd_dimm(dc, dd, p) as u8,
            rank: fwd_rank(dc, dd, dr, p) as u8,
            bank: fwd_bank(dc, dd, dr, p) as u8,
            row: fwd_row(dc, dd, dr, p) as u16,
            col: fwd_col(dc, p) as u16,
            byte: 0,
            bit: 0,
        }
    }

    /// The inverse map.
    pub open spec fn spec_dram_to_phys(self, a: DramAddr) -> u64 {
        inv_phys(
            self.dual_channel,
            self.dual_dimm,
            self.dual_rank,
            a.chan as u64,
            a.dimm as u64,
            a.rank as u64,
            a.bank as u64,
            a.row as u64,
            a.col as u64,
        )
    }
}

/// Each field of the forward map fits its width.
proof fn lemma_fwd_widths(dc: bool, dd: bool, dr: bool, p: u64)
    ensures
        fwd_chan(dc, p) < 2,
        fwd_dimm(dc, dd, p) < 2,
        fwd_rank(dc, dd, dr, p) < 2,
        fwd_bank(dc, dd, dr, p) < 8,
        fwd_row(dc, dd, dr, p) < 0x10000,
        fwd_col(dc, p) < 1024,
        !dc ==> fwd_chan(dc, p) == 0,
        !dd ==> fwd_dimm(dc, dd, p) == 0,
        !dr ==> fwd_rank(dc, dd, dr, p) == 0,
{
    assert(fwd_chan(dc, p) < 2 && fwd_dimm(dc, dd, p) < 2 && fwd_rank(dc, dd, dr, p) < 2) by (bit_vector);
    assert(fwd_bank(dc, dd, dr, p) < 8) by (bit_vector);
    assert(fwd_row(dc, dd, dr, p) < 0x10000 && fwd_col(dc, p) < 1024) by (bit_vector);
}

/// Rebuilding an address from its coordinate gives the address back, word bits cleared.
proof fn lemma_inv_fwd(dc: bool, dd: bool, dr: bool, p: u64)
    requires
        p < (1u64 << domain_bits(dc, dd, dr)),
    ensures
        inv_phys(
            dc,
            dd,
            dr,
            fwd_chan(dc, p),
            fwd_dimm(dc, dd, p),
            fwd_rank(dc, dd, dr, p),
            fwd_bank(dc, dd, dr, p),
            fwd_row(dc, dd, dr, p),
            fwd_col(dc, p),
        ) == p & !7u64,
{
    assert(inv_phys(
        dc,
        dd,
        dr,
        fwd_chan(dc, p),
        fwd_dimm(dc, dd, p),
        fwd_rank(dc, dd, dr, p),
        fwd_bank(dc, dd, dr, p),
        fwd_row(dc, dd, dr, p),
        fwd_col(dc, p),
    ) == p & !7u64) by (bit_vector)
        requires
            p < (1u64 << domain_bits(dc, dd, dr)),
    ;
}

/// Mapping a rebuilt address forward gives back the fields it was built from.
proof fn lemma_fwd_inv(
    dc: bool,
    dd: bool,
    dr: bool,
    chan: u64,
    dimm: u64,
    rank: u64,
    bank: u64,
    row: u64,
    col: u64,
)
    requires
        chan <= (if dc { 1u64 } else { 0u64 }),
        dimm <= (if dd { 1u64 } else { 0u64 }),
        rank <= (if dr { 1u64 } else { 0u64 }),
        bank < 8,
        row < 0x10000,
        col < 1024,
    ensures
        ({
            let p = inv_phys(dc, dd, dr, chan, dimm, rank, bank, row, col);
            &&& p < (1u64 << domain_bits(dc, dd, dr))
            &&& fwd_chan(dc, p) == chan
            &&& fwd_dimm(dc, dd, p) == dimm
            &&& fwd_rank(dc, dd, dr, p) == rank
            &&& fwd_bank(dc, dd, dr, p) == bank
            &&& fwd_row(dc, dd, dr, p) == row
            &&& fwd_col(dc, p) == col
        }),
{
    let p = inv_phys(dc, dd, dr, chan, dimm, rank, bank, row, col);
    assert(p < (1u64 << domain_bits(dc, dd, dr)) && fwd_chan(dc, p) == chan && fwd_col(dc, p)
        == col) by (bit_vector)
        requires
            p == inv_phys(dc, dd, dr, chan, dimm, rank, bank, row, col),
            chan <= (if dc { 1u64 } else { 0u64 }),
            dimm <= (if dd { 1u64 } else { 0u64 }),
            rank <= (if dr { 1u64 } else { 0u64 }),
            bank < 8,
            row < 0x10000,
            col < 1024,
    ;
    assert(fwd_dimm(dc, dd, p) == dimm && fwd_rank(dc, dd, dr, p) == rank && fwd_bank(dc, dd, dr, p)
        == bank && fwd_row(dc, dd, dr, p) == row) by (bit_vector)
        requires
            p == inv_phys(dc, dd, dr, chan, dimm, rank, bank, row, col),
            chan <= (if dc { 1u64 } else { 0u64 }),
            dimm <= (if dd { 1u64 } else { 0u64 }),
            rank <= (if dr { 1u64 } else { 0u64 }),
            bank < 8,
            row < 0x10000,
            col < 1024,
    ;
}

/// Addresses that differ only below bit 6 agree on every field but the column.
proof fn lemma_fwd_row_local(dc: bool, dd: bool, dr: bool, p1: u64, p2: u64)
    requires
        p1 >> 6u64 == p2 >> 6u64,
    ensures
        fwd_chan(dc, p1) == fwd_chan(dc, p2),
        fwd_dimm(dc, dd, p1) == fwd_dimm(dc, dd, p2),
        fwd_rank(dc, dd, dr, p1) == fwd_rank(dc, dd, dr, p2),
        fwd_bank(dc, dd, dr, p1) == fwd_bank(dc, dd, dr, p2),
        fwd_row(dc, dd, dr, p1) == fwd_row(dc, dd, dr, p2),
{
    assert(fwd_chan(dc, p1) == fwd_chan(dc, p2) && fwd_dimm(dc, dd, p1) == fwd_dimm(dc, dd, p2)
        && fwd_rank(dc, dd, dr, p1) == fwd_rank(dc, dd, dr, p2)) by (bit_vector)
        requires
            p1 >> 6u64 == p2 >> 6u64,
    ;
    assert(fwd_bank(dc, dd, dr, p1) == fwd_bank(dc, dd, dr, p2) && fwd_row(dc, dd, dr, p1) == fwd_row(
        dc,
        dd,
        dr,
        p2,
    )) by (bit_vector)
        requires
            p1 >> 6u64 == p2 >> 6u64,
    ;
}

/// Round trip from an address: for every address in the map's domain, mapping it to a
/// coordinate and back gives the address with its word bits (the byte within a memory
/// word) cleared.
pub proof fn lemma_round_trip(ivy: IntelIvy, p: PhysAddr)
    requires
        ivy.in_domain(p),
    ensures
        ivy.spec_dram_to_phys(ivy.spec_phys_to_dram(p)) == p & !7u64,
        ivy.is_valid_dram(ivy.spec_phys_to_dram(p)),
{
    let (dc, dd, dr) = (ivy.dual_channel, ivy.dual_dimm, ivy.dual_rank);
    lemma_fwd_widths(dc, dd, dr, p);
    lemma_inv_fwd(dc, dd, dr, p);
}

/// Round trip from a coordinate: every coordinate that the map can produce is mapped
/// to an address in the domain and back to itself.
pub proof fn lemma_round_trip_dram(ivy: IntelIvy, a: DramAddr)
    requires
        ivy.is_valid_dram(a),
    ensures
        ivy.in_domain(ivy.spec_dram_to_phys(a)),
        ivy.spec_phys_to_dram(ivy.spec_dram_to_phys(a)) == a,
{
    let (dc, dd, dr) = (ivy.dual_channel, ivy.dual_dimm, ivy.dual_rank);
    lemma_fwd_inv(
        dc,
        dd,
        dr,
        a.chan as u64,
        a.dimm as u64,
        a.rank as u64,
        a.bank as u64,
        a.row as u64,
        a.col as u64,
    );
}

/// Row locality: two addresses less than 64 bytes apart with the same bits from bit 6
/// up lie in the same row of the same bank.
pub proof fn lemma_row_locality(ivy: IntelIvy, p1: PhysAddr, p2: PhysAddr)
    requires
        p1 >> 6u64 == p2 >> 6u64,
    ensures
        same_row(ivy.spec_phys_to_dram(p1), ivy.spec_phys_to_dram(p2)),
{
    lemma_fwd_row_local(ivy.dual_channel, ivy.dual_dimm, ivy.dual_rank, p1, p2);
}

/// Without the channel hash, every field but the column depends only on the address
/// bits from bit 13 up.
proof fn lemma_fwd_row_above_13(dd: bool, dr: bool, p1: u64, p2: u64)
    requires
        p1 >> 13u64 == p2 >> 13u64,
    ensures
        fwd_chan(false, p1) == fwd_chan(false, p2),
        fwd_dimm(false, dd, p1) == fwd_dimm(false, dd, p2),
        fwd_rank(false, dd, dr, p1) == fwd_rank(false, dd, dr, p2),
        fwd_bank(false, dd, dr, p1) == fwd_bank(false, dd, dr, p2),
        fwd_row(false, dd, dr, p1) == fwd_row(false, dd, dr, p2),
{
    assert(fwd_dimm(false, dd, p1) == fwd_dimm(false, dd, p2) && fwd_rank(false, dd, dr, p1)
        == fwd_rank(false, dd, dr, p2)) by (bit_vector)
        requires
            p1 >> 13u64 == p2 >> 13u64,
    ;
    assert(fwd_bank(false, dd, dr, p1) == fwd_bank(false, dd, dr, p2) && fwd_row(false, dd, dr, p1)
        == fwd_row(false, dd, dr, p2)) by (bit_vector)
        requires
            p1 >> 13u64 == p2 >> 13u64,
    ;
}

/// The map gives back every address of the low 4 GiB that is a multiple of the word
/// size, so it gives back the start of every range of a buffer of up to 4 GiB cut at
/// a quantum that is a multiple of the word size.
pub proof fn lemma_ivy_round_trips_at_starts(ivy: IntelIvy, len: usize, q: usize)
    requires
        q > 0,
        q % 8 == 0,
        len <= 0x1_0000_0000,
    ensures
        round_trips_at_starts(ivy, len as nat, q as nat),
{
    assert forall|o: PhysAddr| o < len && (o as int) % (q as int) == 0 implies ivy.to_phys(
        #[trigger] ivy.to_dram(o),
    ) == o by {
        let qq = q as u64;
        assert(o % 8 == 0) by (bit_vector)
            requires
                o % qq == 0,
                qq % 8 == 0,
                qq > 0,
        ;
        assert(ivy.in_domain(o)) by {
            let b = domain_bits(ivy.dual_channel, ivy.dual_dimm, ivy.dual_rank);
            assert(32 <= b <= 35);
            assert(o < (1u64 << b)) by (bit_vector)
                requires
                    o < 0x1_0000_0000u64,
                    32 <= b <= 35,
            ;
        }
        lemma_round_trip(ivy, o);
        assert(o & !7u64 == o) by (bit_vector)
            requires
                o % 8 == 0,
        ;
    }
}

/// Without the channel hash, a buffer of up to 4 GiB cut at a quantum that divides
/// 8 KiB (the bytes of one row of one bank) and is a multiple of the word size has
/// every range inside a single row. Templating such a buffer therefore never reports
/// a flip in a sentinel row.
pub proof fn lemma_ivy_ranges_stay_in_rows(m: MemMap, ivy: IntelIvy, len: usize, q: usize)
    requires
        !ivy.dual_channel,
        q > 0,
        8192usize % q == 0,
        q % 8 == 0,
        len <= 0x1_0000_0000,
        indexes(m.index(), split_spec(ivy, len as nat, q as nat)),
    ensures
        ranges_stay_in_rows(ivy, m.index()),
{
    let rows = m.index();
    lemma_index_pieces(m, ivy, len, q);
    lemma_ivy_round_trips_at_starts(ivy, len, q);
    assert forall|i: int, j: int, o: int|
        0 <= i < rows.len() && 0 <= j < rows[i].ranges@.len() && 0 <= o < rows[i].ranges@[j].bytes
            implies #[trigger] byte_row(ivy, rows[i].ranges@[j], o) == rows[i].key by {
        let r = rows[i].ranges@[j];
        assert(is_piece(ivy, len as nat, q as nat, r));
        let st = choose|st: nat|
            #![trigger ivy.to_dram(st as PhysAddr)]
            st % (q as nat) == 0 && r.start == ivy.to_dram(st as PhysAddr) && r.bytes <= q && st
                + r.bytes <= len;
        let s = st as u64;
        let x = o as u64;
        let qq = q as u64;
        assert(ivy.to_phys(ivy.to_dram(s)) == s);
        let p = (s + x) as u64;
        assert(p >> 13u64 == s >> 13u64) by (bit_vector)
            requires
                s % qq == 0,
                8192u64 % qq == 0,
                qq > 0,
                x < qq,
                s < 0x1_0000_0000u64,
                p == s + x,
        ;
        lemma_fwd_row_above_13(ivy.dual_dimm, ivy.dual_rank, p, s);
        assert(row_key(ivy.to_dram(p)) == row_key(ivy.to_dram(s)));
        assert(index_wf(rows));
        assert(row_key(r.start) == rows[i].key);
    }
}

/// The byte and bit indices of a coordinate are not part of the map: cells that differ
/// only in them have the same physical address.
pub proof fn lemma_byte_bit_ignored(ivy: IntelIvy, a: DramAddr, byte: u8, bit: u8)
    ensures
        ivy.spec_dram_to_phys(DramAddr { byte, bit, ..a }) == ivy.spec_dram_to_phys(a),
{
}

impl Architecture for IntelIvy {
    open spec fn to_dram(&self, p: PhysAddr) -> DramAddr {
        self.spec_phys_to_dram(p)
    }

    open spec fn to_phys(&self, a: DramAddr) -> PhysAddr {
        self.spec_dram_to_phys(a)
    }

    open spec fn refresh_us(&self) -> usize {
        REFRESH_PERIOD_US
    }

    fn refresh_period(&self) -> (r: usize) {
        REFRESH_PERIOD_US
    }

    fn phys_to_dram(&self, p: PhysAddr) -> (r: DramAddr) {
        let ghost p0 = p;
        let mut p = p;
        let mut dram_addr = DramAddr::new();
        if self.dual_channel {
            dram_addr.chan = (bit(p, 7) ^ bit(p, 8) ^ bit(p, 9) ^ bit(p, 12) ^ bit(p, 13) ^ bit(p, 18)
                ^ bit(p, 19)) as u8;
            p = remove_bit(p, 7);
        }
        p = p >> MW_BITS;

        dram_addr.col = ls_bits(p, COL_BITS) as u16;
        p = p >> COL_BITS;

        if self.dual_dimm {
            dram_addr.dimm = bit(p, 2) as u8;
            p = remove_bit(p, 2);
        }
        if self.dual_rank {
            dram_addr.rank = (bit(p, 2) ^ bit(p, 6)) as u8;
            p = remove_bit(p, 2);
        }
        let bank0 = bit(p, 0) ^ bit(p, 3);
        let bank1 = bit(p, 1) ^ bit(p, 4);
        let bank2 = if self.dual_rank {
            bit(p, 2) ^ bit(p, 6)
        } else {
            bit(p, 2) ^ bit(p, 5)
        };
        dram_addr.bank = (bank0 | (bank1 << 1u64) | (bank2 << 2u64)) as u8;
        p = p >> 3u64;

        dram_addr.row = ls_bits(p, ROW_BITS) as u16;
        dram_addr
    }

    fn dram_to_phys(&self, addr: &DramAddr) -> (r: PhysAddr) {
        let bank = addr.bank as u64;
        let row = addr.row as u64;
        let rank = addr.rank as u64;
        let col = addr.col as u64;
        let chan = addr.chan as u64;
        let dimm = addr.dimm as u64;

        let mut p_addr = ls_bits(row, ROW_BITS);
        if self.dual_rank {
            p_addr = p_addr << 1u64;
            p_addr = p_addr | (bit(bank, 2) ^ bit(row, 3));
            p_addr = p_addr << 1u64;
            p_addr = p_addr | (bit(rank, 0) ^ bit(row, 2));
        } else {
            p_addr = p_addr << 1u64;
            p_addr = p_addr | (bit(bank, 2) ^ bit(row, 2));
        }
        if self.dual_dimm {
            p_addr = p_addr << 1u64;
            p_addr = p_addr | bit(dimm, 0);
        }
        p_addr = p_addr << 1u64;
        p_addr = p_addr | (bit(bank, 1) ^ bit(row, 1));
        p_addr = p_addr << 1u64;
        p_addr = p_addr | (bit(bank, 0) ^ bit(row, 0));

        if self.dual_channel {
            p_addr = p_addr << 6u64;
            p_addr = p_addr | ls_bits(col >> 4u64, 6);
            p_addr = p_addr << 1u64;
            p_addr = p_addr | (bit(chan, 0) ^ bit(p_addr, 1) ^ bit(p_addr, 2) ^ bit(p_addr, 5) ^ bit(
                p_addr,
                6,
            ) ^ bit(p_addr, 11) ^ bit(p_addr, 12));
            p_addr = p_addr << 4u64;
            p_addr = p_addr | ls_bits(col, 4);
        } else {
            p_addr = p_addr << COL_BITS;
            p_addr = p_addr | ls_bits(col, COL_BITS);
        }
        p_addr << MW_BITS
    }
}

fn remove_bit(x: u64, i: u64) -> (r: u64)
    requires
        i < 63,
    ensures
        r == drop_bit(x, i),
{
    assert(low_bits(x, i) + ((x >> ((i + 1) as u64)) << i) <= u64::MAX && low_bits(x, i) + ((x
        >> ((i + 1) as u64)) << i) == drop_bit(x, i)) by (bit_vector)
        requires
            i < 63,
    ;
    ls_bits(x, i) + ((x >> (i + 1)) << i)
}

fn bit(x: u64, i: u64) -> (r: u64)
    requires
        i < 64,
    ensures
        r == bit_of(x, i),
{
    (x >> i) & 1
}

fn ls_bits(x: u64, i: u64) -> (r: u64)
    requires
        i < 64,
    ensures
        r == low_bits(x, i),
{
    assert(1u64 << i >= 1) by (bit_vector)
        requires
            i < 64,
    ;
    x & ((1u64 << i) - 1)
}

} // verus!
