//! DRAM coordinates and the interface of a memory-controller address map.
use vstd::prelude::*;

verus! {

/// Physical byte address, as an offset from the start of a contiguous buffer.
///
/// It is 64 bits wide on every target: coordinates reach past bit 31.
pub type PhysAddr = u64;

/// The internal coordinate of one bit of DRAM.
#[derive(Clone, Copy, Debug, PartialEq, Eq, Structural, Hash)]
pub struct DramAddr {
    pub chan: u8,
    pub dimm: u8,
    pub rank: u8,
    pub bank: u8,
    pub row: u16,
    pub col: u16,
    pub byte: u8,
    pub bit: u8,
}

/// The first row, which has no row above it.
pub const FIRST_ROW: u16 = 0;

/// The last row, which has no row below it.
pub const LAST_ROW: u16 = 0xffff;

/// The coordinate with `col`, `byte` and `bit` cleared: it names the row that holds `a`.
pub open spec fn row_key(a: DramAddr) -> DramAddr {
    DramAddr { col: 0, byte: 0, bit: 0, ..a }
}

/// `a` and `b` lie in the same row of the same bank.
pub open spec fn same_row(a: DramAddr, b: DramAddr) -> bool {
    row_key(a) == row_key(b)
}

/// `a` and `b` lie in the same bank (channel, DIMM, rank and bank agree).
pub open spec fn same_bank(a: DramAddr, b: DramAddr) -> bool {
    a.chan == b.chan && a.dimm == b.dimm && a.rank == b.rank && a.bank == b.bank
}

/// Row 0 and row 0xFFFF have no neighbour on one side and are never templated.
pub open spec fn is_sentinel_row(row: u16) -> bool {
    row == FIRST_ROW || row == LAST_ROW
}

impl DramAddr {
    /// The all-zero coordinate.
    pub fn new() -> (r: DramAddr)
        ensures
            r == (DramAddr { chan: 0, dimm: 0, rank: 0, bank: 0, row: 0, col: 0, byte: 0, bit: 0 }),
    {
        DramAddr { chan: 0, dimm: 0, rank: 0, bank: 0, row: 0, col: 0, byte: 0, bit: 0 }
    }

    /// Clears the bit index.
    pub fn byte_align(&mut self)
        ensures
            *final(self) == (DramAddr { bit: 0, ..*old(self) }),
    {
        self.bit = 0;
    }

    /// Clears the bit index and the byte within the column.
    pub fn col_align(&mut self)
        ensures
            *final(self) == (DramAddr { bit: 0, byte: 0, ..*old(self) }),
    {
        self.byte_align();
        self.byte = 0;
    }

    /// Clears the bit index, the byte and the column.
    pub fn row_align(&mut self)
        ensures
            *final(self) == row_key(*old(self)),
    {
        self.col_align();
        self.col = 0;
    }

    /// The row-aligned projection of this coordinate, which keys its row.
    pub fn row_aligned(&self) -> (r: DramAddr)
        ensures
            r == row_key(*self),
    {
        let mut new = *self;
        new.row_align();
        new
    }

    /// The same cell one row further down; the last row has none.
    pub fn row_below(&self) -> (r: DramAddr)
        requires
            self.row < LAST_ROW,
        ensures
            r == (DramAddr { row: (self.row + 1) as u16, ..*self }),
    {
        let mut new = *self;
        new.row = new.row + 1;
        new
    }

    /// The same cell one row further up; the first row has none.
    pub fn row_above(&self) -> (r: DramAddr)
        requires
            self.row > FIRST_ROW,
        ensures
            r == (DramAddr { row: (self.row - 1) as u16, ..*self }),
    {
        let mut new = *self;
        new.row = new.row - 1;
        new
    }
}

/// A memory controller's map between physical byte addresses and DRAM coordinates.
///
/// The spec functions name the map; each executable method computes it exactly.
pub trait Architecture {
    /// The coordinate of physical address `p`.
    spec fn to_dram(&self, p: PhysAddr) -> DramAddr;

    /// The physical address of coordinate `a`.
    spec fn to_phys(&self, a: DramAddr) -> PhysAddr;

    /// The refresh interval of a row, in microseconds.
    spec fn refresh_us(&self) -> usize;

    fn phys_to_dram(&self, p: PhysAddr) -> (r: DramAddr)
        ensures
            r == self.to_dram(p),
    ;

    fn dram_to_phys(&self, a: &DramAddr) -> (r: PhysAddr)
        ensures
            r == self.to_phys(*a),
    ;

    fn refresh_period(&self) -> (r: usize)
        ensures
            r == self.refresh_us(),
    ;
}

} // verus!
