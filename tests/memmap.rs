use rambleed::architecture::{Architecture, DramAddr};
use rambleed::config::Config;
use rambleed::intelivy::IntelIvy;
use rambleed::memmap::{offset_to_dram, DramRange, MemMap};

const TWO_MB: usize = 2 << 20;

fn config(q: usize, dual_rank: bool) -> Config<IntelIvy> {
    Config {
        aligned_bits: 20,
        reads_per_hammer: 0,
        contiguous_dram_addr: q,
        arch: IntelIvy { dual_channel: false, dual_dimm: false, dual_rank },
    }
}

fn all_ranges(m: &MemMap) -> Vec<DramRange> {
    let mut v = Vec::new();
    for row in m.get_ranges() {
        for r in &row.ranges {
            v.push(*r);
        }
    }
    v
}

#[test]
fn two_mb_buffer_has_512_page_ranges() {
    let c = config(4096, false);
    let m = MemMap::new(0, TWO_MB, &c);
    let ranges = all_ranges(&m);
    assert_eq!(ranges.len(), 512);
    for r in &ranges {
        assert_eq!(r.bytes, 4096);
        // a page is half a row: address bit 12 is column bit 9
        assert!(r.start.col == 0 || r.start.col == 512);
        assert_eq!((r.start.byte, r.start.bit), (0, 0));
    }
    assert_eq!(ranges.iter().filter(|r| r.start.col == 0).count(), 256);
}

#[test]
fn ranges_partition_the_buffer() {
    for (len, q) in [(TWO_MB, 4096usize), (65536 + 100, 4096), (10000, 1000)] {
        let c = config(q, true);
        let m = MemMap::new(0, len, &c);
        let mut seen = vec![0u8; len];
        for r in all_ranges(&m) {
            let s = c.arch.dram_to_phys(&r.start) as usize;
            for o in s..s + r.bytes {
                seen[o] += 1;
            }
        }
        assert!(seen.iter().all(|&n| n == 1), "len {} q {}", len, q);
    }
}

#[test]
fn last_range_is_shorter() {
    let c = config(4096, false);
    let m = MemMap::new(0, 4096 * 3 + 10, &c);
    let ranges = all_ranges(&m);
    assert_eq!(ranges.len(), 4);
    let total: usize = ranges.iter().map(|r| r.bytes).sum();
    assert_eq!(total, 4096 * 3 + 10);
    assert!(ranges.iter().any(|r| r.bytes == 10));
}

#[test]
fn rows_group_ranges_by_row_key() {
    let c = config(4096, true);
    let m = MemMap::new(0, TWO_MB, &c);
    for row in m.get_ranges() {
        assert_eq!(row.key, row.key.row_aligned());
        assert!(!row.ranges.is_empty());
        for r in &row.ranges {
            assert_eq!(r.start.row_aligned(), row.key);
        }
        let d = DramAddr { col: 77, byte: 3, bit: 5, ..row.key };
        assert_eq!(m.same_row_ranges(&d), row.ranges);
    }
    let keys: Vec<DramAddr> = m.get_ranges().iter().map(|r| r.key).collect();
    for i in 0..keys.len() {
        for j in i + 1..keys.len() {
            assert_ne!(keys[i], keys[j]);
        }
    }
}

#[test]
fn same_row_ranges_of_missing_row_is_empty() {
    let c = config(4096, false);
    let m = MemMap::new(0, TWO_MB, &c);
    let d = DramAddr { row: 0x7fff, ..DramAddr::new() };
    assert!(m.same_row_ranges(&d).is_empty());
}

#[test]
fn remove_range_takes_it_out_of_its_row() {
    let c = config(4096, true);
    let mut m = MemMap::new(0, TWO_MB, &c);
    let key = m.get_ranges()[3].key;
    let before = m.same_row_ranges(&key);
    assert!(before.len() >= 2);
    let r = before[0];
    m.remove_range(&r);
    let after = m.same_row_ranges(&key);
    assert_eq!(after.len(), before.len() - 1);
    assert!(!after.contains(&r));
    assert_eq!(all_ranges(&m).len(), 511);
}

#[test]
fn offsets_and_addresses() {
    let c = config(4096, false);
    let m = MemMap::new(0x7f00_0000, TWO_MB, &c);
    assert_eq!(m.base(), 0x7f00_0000);
    assert_eq!(m.len(), TWO_MB);
    assert_eq!(m.offset(0x10), 0x7f00_0010);
    assert_eq!(m.offset(usize::MAX), 0x7eff_ffff);
    let d = m.offset_to_dram(0x12000, &c);
    assert_eq!(d, offset_to_dram(0x12000, &c));
    assert_eq!(d.row, 1);
    assert_eq!(m.dram_to_offset(&d, &c), 0x12000);
    assert_eq!(m.dram_to_virt(&d, &c), Some(0x7f01_2000));
    let far = DramAddr { row: 0x100, ..DramAddr::new() };
    assert_eq!(m.dram_to_virt(&far, &c), Some(0x7f00_0000 + c.arch.dram_to_phys(&far) as usize));
}

#[test]
fn byte_access_by_coordinate() {
    let c = config(4096, false);
    let m = MemMap::new(0, 0x20000, &c);
    let mut buf = vec![0u8; 0x20000];
    let d = m.offset_to_dram(0x12008, &c);
    assert!(m.set_dram(&mut buf, &d, 0xab, &c));
    assert_eq!(buf[0x12008], 0xab);
    assert_eq!(m.at_dram(&buf, &d, &c), Some(0xab));
    let far = DramAddr { row: 0x100, ..DramAddr::new() };
    assert!(!m.set_dram(&mut buf, &far, 1, &c));
    assert_eq!(m.at_dram(&buf, &far, &c), None);
}
