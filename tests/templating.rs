use rambleed::architecture::{Architecture, DramAddr};
use rambleed::config::Config;
use rambleed::hammer::{HammerPort, Hammerer};
use rambleed::intelivy::IntelIvy;
use rambleed::memmap::{DramRange, MemMap};
use rambleed::profile::{
    byte_range, compl_fill, create_stats, fill_ranges, find_flips, flips_in_range, hammer_bit, id_fill,
    profile_addr, profile_ranges, template_2mb_contig, template_dram_addr, Direction, Flip,
};

const TWO_MB: usize = 2 << 20;

fn config() -> Config<IntelIvy> {
    Config {
        aligned_bits: 20,
        reads_per_hammer: 100,
        contiguous_dram_addr: 4096,
        arch: IntelIvy { dual_channel: false, dual_dimm: false, dual_rank: true },
    }
}

/// DRAM that refreshes between every access: hammering never changes a cell.
struct Refreshing;

impl HammerPort for Refreshing {
    fn hammer(&mut self, _buf: &mut [u8], _a1: usize, _a2: usize, _reads: usize) {}

    fn now_us(&mut self) -> u64 {
        0
    }
}

/// DRAM with one weak cell that leaks towards `to` whenever it is hammered.
struct WeakCell {
    offset: usize,
    bit: u8,
    to: bool,
    hammered: usize,
}

impl HammerPort for WeakCell {
    fn hammer(&mut self, buf: &mut [u8], _a1: usize, _a2: usize, _reads: usize) {
        self.hammered += 1;
        if self.to {
            buf[self.offset] |= 1 << self.bit;
        } else {
            buf[self.offset] &= !(1 << self.bit);
        }
    }

    fn now_us(&mut self) -> u64 {
        0
    }
}

#[test]
fn refreshing_dram_yields_no_flips() {
    let c = config();
    let m = MemMap::new(0, TWO_MB, &c);
    let mut buf = vec![0u8; TWO_MB];
    let flips = template_2mb_contig(&m, &mut buf, &mut Hammerer::new(Refreshing), &c);
    assert!(flips.is_empty());
}

#[test]
fn weak_cell_is_found_in_both_directions() {
    let c = config();
    let m = MemMap::new(0, TWO_MB, &c);
    let mut buf = vec![0u8; TWO_MB];
    let offset = 0x8_2468;
    let mut port = Hammerer::new(WeakCell { offset, bit: 3, to: false, hammered: 0 });
    let flips = template_2mb_contig(&m, &mut buf, &mut port, &c);
    assert!(port.port().hammered > 0);
    let pos = DramAddr { bit: 3, ..c.arch.phys_to_dram(offset as u64) };
    let hits: Vec<&Flip> = flips.iter().filter(|f| f.pos == pos).collect();
    assert!(!hits.is_empty());
    assert!(hits.iter().all(|f| f.dir == Direction::From1To0));
    for f in &flips {
        assert!(f.pos.row != 0 && f.pos.row != 0xffff);
    }
    let mut buf = vec![0u8; TWO_MB];
    let mut port = Hammerer::new(WeakCell { offset, bit: 3, to: true, hammered: 0 });
    let flips = template_2mb_contig(&m, &mut buf, &mut port, &c);
    assert!(flips.iter().any(|f| f.pos == pos && f.dir == Direction::From0To1));
}

#[test]
fn sentinel_rows_are_skipped() {
    let c = config();
    let m = MemMap::new(0, TWO_MB, &c);
    let mut buf = vec![0u8; TWO_MB];
    // a weak cell in row 0
    let offset = 0x468;
    assert_eq!(c.arch.phys_to_dram(offset as u64).row, 0);
    let mut port = Hammerer::new(WeakCell { offset, bit: 0, to: false, hammered: 0 });
    let flips = template_2mb_contig(&m, &mut buf, &mut port, &c);
    assert!(flips.iter().all(|f| f.pos.row != 0 && f.pos.row != 0xffff));
}

#[test]
fn find_flips_one_per_differing_bit() {
    let da = DramAddr { row: 9, col: 4, ..DramAddr::new() };
    let flips = find_flips(da, 0xff, 0xfe);
    assert_eq!(flips.len(), 1);
    assert_eq!(flips[0].dir, Direction::From1To0);
    assert_eq!(flips[0].pos, DramAddr { bit: 0, ..da });
    let flips = find_flips(da, 0x00, 0x81);
    assert_eq!(flips.len(), 2);
    assert_eq!((flips[0].pos.bit, flips[1].pos.bit), (0, 7));
    assert!(flips.iter().all(|f| f.dir == Direction::From0To1));
    let flips = find_flips(da, 0x0f, 0xf0);
    assert_eq!(flips.len(), 8);
    for (i, f) in flips.iter().enumerate() {
        assert_eq!(f.pos.bit as usize, i);
        assert_eq!(f.dir, if i < 4 { Direction::From1To0 } else { Direction::From0To1 });
        assert_eq!(f.stats.trials, 0);
    }
    assert!(find_flips(da, 0x5a, 0x5a).is_empty());
}

#[test]
fn fills_of_directions() {
    assert_eq!(compl_fill(Direction::From0To1), 0xff);
    assert_eq!(compl_fill(Direction::From1To0), 0x00);
    assert_eq!(id_fill(Direction::From0To1), 0x00);
    assert_eq!(id_fill(Direction::From1To0), 0xff);
}

#[test]
fn fill_and_scan_ranges() {
    let c = config();
    let mut buf = vec![0u8; 0x4000];
    let rs = vec![
        DramRange { start: c.arch.phys_to_dram(0x100), bytes: 16 },
        DramRange { start: c.arch.phys_to_dram(0x3ff8), bytes: 16 },
    ];
    fill_ranges(&mut buf, &rs, 0xa5, &c);
    assert!(buf[0x100..0x110].iter().all(|&b| b == 0xa5));
    assert_eq!(buf[0x110], 0);
    assert_eq!(buf[0xff], 0);
    // the second range runs past the end of the buffer and is left alone
    assert!(buf[0x3ff8..].iter().all(|&b| b == 0));
    buf[0x104] = 0xa4;
    let flips = flips_in_range(&buf, &rs[0], 0xa5, &c);
    assert_eq!(flips.len(), 1);
    assert_eq!(flips[0].pos, DramAddr { bit: 0, ..c.arch.phys_to_dram(0x104) });
    assert_eq!(flips[0].dir, Direction::From1To0);
    assert!(flips_in_range(&buf, &rs[1], 0xa5, &c).is_empty());
    assert_eq!(byte_range(&rs[0].start), vec![DramRange { start: rs[0].start, bytes: 1 }]);
}

#[test]
fn profile_ranges_needs_both_aggressors() {
    let c = config();
    let mut buf = vec![7u8; 0x4000];
    let v = vec![DramRange { start: c.arch.phys_to_dram(0x200), bytes: 8 }];
    let r1 = vec![DramRange { start: c.arch.phys_to_dram(0x0), bytes: 8 }];
    let none: Vec<DramRange> = Vec::new();
    let mut port = Hammerer::new(WeakCell { offset: 0x200, bit: 1, to: false, hammered: 0 });
    assert!(profile_ranges(&mut buf, &mut port, &r1, &none, &v, 0x00, &c).is_empty());
    assert_eq!(port.port().hammered, 0);
    assert!(buf.iter().all(|&b| b == 7));
    let flips = profile_ranges(&mut buf, &mut port, &r1, &r1, &v, 0x00, &c);
    assert_eq!(port.port().hammered, 1);
    assert_eq!(flips.len(), 1);
    assert_eq!(flips[0].pos, DramAddr { bit: 1, ..c.arch.phys_to_dram(0x200) });
    assert_eq!(buf[0x0], 0x00);
    assert_eq!(buf[0x201], 0xff);
}

#[test]
fn profile_addr_rediscovers_a_flip() {
    let c = config();
    let mut buf = vec![0u8; TWO_MB];
    let offset = 0x8_2468;
    let da = c.arch.phys_to_dram(offset as u64);
    let mut port = Hammerer::new(WeakCell { offset, bit: 5, to: false, hammered: 0 });
    let first = profile_addr(&mut buf, &mut port, &da, 0x00, &c);
    assert_eq!(first.len(), 1);
    let again = profile_addr(&mut buf, &mut port, &first[0].pos, 0x00, &c);
    assert_eq!(again.len(), 1);
    assert_eq!(again[0].dir, Direction::From1To0);
    assert_eq!(again[0].pos.bit, 5);
    let sentinel = DramAddr { row: 0, ..da };
    assert!(profile_addr(&mut buf, &mut port, &sentinel, 0x00, &c).is_empty());
    let both = template_dram_addr(&mut buf, &mut port, &da, &c);
    assert_eq!(both.len(), 1);
}

#[test]
fn stats_count_every_configuration() {
    let c = config();
    let mut buf = vec![0u8; TWO_MB];
    let offset = 0x8_2468;
    let pos = DramAddr { bit: 2, ..c.arch.phys_to_dram(offset as u64) };
    let mut flip = Flip::new(Direction::From1To0, pos);
    let mut port = Hammerer::new(WeakCell { offset, bit: 2, to: false, hammered: 0 });
    assert_eq!(hammer_bit(&mut buf, &mut port, &pos, 0, 0xff, 0, &c), Some(true));
    create_stats(&mut buf, &mut port, &mut flip, &c);
    assert_eq!(flip.stats.trials, 20);
    assert_eq!(flip.stats.striped_complement, 20);
    assert_eq!(flip.stats.uniform, 20);
    assert_eq!(flip.stats.above_complement, 20);
    assert_eq!(flip.stats.below_complement, 20);
    let mut quiet = Flip::new(Direction::From1To0, pos);
    create_stats(&mut buf, &mut Hammerer::new(Refreshing), &mut quiet, &c);
    assert_eq!(quiet.stats.trials, 20);
    assert_eq!(quiet.stats.uniform, 0);
    let edge = DramAddr { row: 0xffff, ..pos };
    assert_eq!(hammer_bit(&mut buf, &mut port, &edge, 0, 0xff, 0, &c), None);
}
