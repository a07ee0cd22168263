use rambleed::architecture::{Architecture, DramAddr};
use rambleed::config::Config;
use rambleed::exploit::{
    align_page_offset, bool_exploit_flip, fill_victim, offset_above, offset_below, place_secret,
    read_sidechannel, same_row_addr, PlacementError,
};
use rambleed::hammer::{HammerPort, Hammerer};
use rambleed::intelivy::IntelIvy;
use rambleed::memmap::MemMap;
use rambleed::profile::{Direction, Flip};

const TWO_MB: usize = 2 << 20;

fn config() -> Config<IntelIvy> {
    Config {
        aligned_bits: 20,
        reads_per_hammer: 100,
        contiguous_dram_addr: 4096,
        arch: IntelIvy { dual_channel: false, dual_dimm: false, dual_rank: true },
    }
}

/// A cell that takes its neighbour's value when hammered, if the two disagree.
struct Rambleed {
    victim: usize,
    bit: u8,
    neighbour: bool,
}

impl HammerPort for Rambleed {
    fn hammer(&mut self, buf: &mut [u8], _a1: usize, _a2: usize, _reads: usize) {
        if self.neighbour {
            buf[self.victim] |= 1 << self.bit;
        } else {
            buf[self.victim] &= !(1 << self.bit);
        }
    }

    fn now_us(&mut self) -> u64 {
        0
    }
}

#[test]
fn exploit_reads_the_neighbour_bit() {
    let c = config();
    for v in [false, true] {
        let mut m = MemMap::new(0, TWO_MB, &c);
        let mut buf = vec![0u8; TWO_MB];
        let victim = 0x8_2468usize;
        let pos = DramAddr { bit: 4, ..c.arch.phys_to_dram(victim as u64) };
        let flip = Flip::new(Direction::From0To1, pos);
        let mut port = Hammerer::new(Rambleed { victim, bit: 4, neighbour: v });
        assert_eq!(bool_exploit_flip(&mut m, &mut buf, &mut port, &flip, &c), Some(v));
    }
}

#[test]
fn exploit_needs_both_neighbours() {
    let c = config();
    let mut m = MemMap::new(0, TWO_MB, &c);
    let mut buf = vec![0u8; TWO_MB];
    let pos = DramAddr { bit: 4, ..c.arch.phys_to_dram(0x468) };
    assert_eq!(pos.row, 0);
    let flip = Flip::new(Direction::From0To1, pos);
    let mut port = Hammerer::new(Rambleed { victim: 0x468, bit: 4, neighbour: true });
    assert_eq!(bool_exploit_flip(&mut m, &mut buf, &mut port, &flip, &c), None);
}

#[test]
fn placing_a_secret_hands_its_range_over() {
    let c = config();
    let mut m = MemMap::new(0, TWO_MB, &c);
    let buf = vec![0u8; TWO_MB];
    let cell = c.arch.phys_to_dram(0x8_2468);
    let before = m.same_row_ranges(&cell);
    assert_eq!(before.len(), 2);
    assert_eq!(place_secret(&mut m, &buf, &cell, &c), Ok(()));
    // placing hands the range over; the buffer itself is not touched
    assert!(buf.iter().all(|&b| b == 0));
    let after = m.same_row_ranges(&cell);
    assert_eq!(after.len(), 1);
    assert_eq!(c.arch.dram_to_phys(&after[0].start) & !0xfff, 0x8_2468 & !0xfff ^ 0x1000);
    assert_eq!(same_row_addr(&m, cell), Some(after[0].start));
    let far = DramAddr { row: 0x100, ..cell };
    assert_eq!(place_secret(&mut m, &buf, &far, &c), Err(PlacementError::NoSecretPlacement));
    assert_eq!(same_row_addr(&m, far), None);
}

#[test]
fn victim_fill_and_read_back() {
    let c = config();
    let mut buf = vec![0x55u8; 0x1000];
    let pos = DramAddr { bit: 2, ..c.arch.phys_to_dram(0x100) };
    let flip = Flip::new(Direction::From1To0, pos);
    assert!(fill_victim(&mut buf, &flip, &c));
    assert_eq!(buf[0x100], 0xff);
    assert_eq!(read_sidechannel(&buf, &flip, &c), Some(true));
    buf[0x100] = 0xfb;
    assert_eq!(read_sidechannel(&buf, &flip, &c), Some(false));
    let flip = Flip::new(Direction::From0To1, pos);
    assert!(fill_victim(&mut buf, &flip, &c));
    assert_eq!(buf[0x100], 0x00);
    let bad = Flip::new(Direction::From0To1, DramAddr { bit: 9, ..pos });
    assert_eq!(read_sidechannel(&buf, &bad, &c), None);
}

#[test]
fn neighbouring_row_offsets() {
    let c = config();
    let m = MemMap::new(0, TWO_MB, &c);
    let off = 0x8_2468u64;
    let d = c.arch.phys_to_dram(off);
    let above = offset_above(&m, off, &c).unwrap();
    let below = offset_below(&m, off, &c).unwrap();
    assert_eq!(c.arch.phys_to_dram(above), DramAddr { row: d.row - 1, ..d });
    assert_eq!(c.arch.phys_to_dram(below), DramAddr { row: d.row + 1, ..d });
    assert_eq!(offset_above(&m, 0x468, &c), None);
    assert_eq!(align_page_offset(0x8_2468, 4096), 0x8_2000);
    assert_eq!(align_page_offset(4096, 4096), 4096);
}
