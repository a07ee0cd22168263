use rambleed::architecture::{Architecture, DramAddr};
use rambleed::intelivy::IntelIvy;

fn ivy(dual_channel: bool, dual_dimm: bool, dual_rank: bool) -> IntelIvy {
    IntelIvy { dual_channel, dual_dimm, dual_rank }
}

fn all_knobs() -> Vec<IntelIvy> {
    let mut v = Vec::new();
    for k in 0..8u8 {
        v.push(ivy(k & 1 != 0, k & 2 != 0, k & 4 != 0));
    }
    v
}

#[test]
fn dual_rank_vector_col_16() {
    let a = ivy(false, false, true);
    let d = a.phys_to_dram(0x0000_0080);
    assert_eq!(d.col, 16);
    assert_eq!(d.row, 0);
    assert_eq!(d.bank, 0);
    assert_eq!(d.rank, 0);
    assert_eq!(d.chan, 0);
    assert_eq!(d.dimm, 0);
}

#[test]
fn round_trip_sweep_dual_rank() {
    let a = ivy(false, false, true);
    for p in [0u64, 0x1000, 0x20000, 0x1_0000_0000] {
        assert_eq!(a.dram_to_phys(&a.phys_to_dram(p)), p & !0x7);
    }
}

#[test]
fn round_trip_sweep_every_knob_setting() {
    for a in all_knobs() {
        for p in [0u64, 0x1000, 0x20000, 0x1234_5678, 0xffff_ffff, 0x80, 0x7] {
            assert_eq!(a.dram_to_phys(&a.phys_to_dram(p)), p & !0x7, "{:?} {:#x}", a, p);
        }
    }
}

#[test]
fn round_trip_from_coordinates() {
    for a in all_knobs() {
        let d = DramAddr {
            chan: a.dual_channel as u8,
            dimm: a.dual_dimm as u8,
            rank: a.dual_rank as u8,
            bank: 5,
            row: 0xbeef,
            col: 0x2a5,
            byte: 0,
            bit: 0,
        };
        assert_eq!(a.phys_to_dram(a.dram_to_phys(&d)), d);
    }
}

#[test]
fn plain_map_exact_values() {
    let a = ivy(false, false, false);
    let d = a.phys_to_dram(0x12000);
    assert_eq!(d, DramAddr { chan: 0, dimm: 0, rank: 0, bank: 0, row: 1, col: 0, byte: 0, bit: 0 });
    // bank bit 0 is hashed with row bit 0: address bit 13 alone gives bank 1, row 0
    let d = a.phys_to_dram(1 << 13);
    assert_eq!((d.bank, d.row, d.col), (1, 0, 0));
    // row bit 0 is hashed into bank bit 0
    let d = a.phys_to_dram(1 << 16);
    assert_eq!((d.bank, d.row), (1, 1));
    assert_eq!(a.dram_to_phys(&DramAddr { row: 1, ..DramAddr::new() }), 0x12000);
}

#[test]
fn dual_channel_hash_picks_channel() {
    let a = ivy(true, false, false);
    assert_eq!(a.phys_to_dram(1 << 7).chan, 1);
    assert_eq!(a.phys_to_dram((1 << 7) | (1 << 8)).chan, 0);
    assert_eq!(a.phys_to_dram(1 << 19).chan, 1);
    // the four low column bits sit below the channel bit
    assert_eq!(a.phys_to_dram(0x78).col, 0xf);
    assert_eq!(a.phys_to_dram(1 << 8).col, 0x10);
}

#[test]
fn dimm_and_rank_bits() {
    let a = ivy(false, true, true);
    assert_eq!(a.phys_to_dram(1 << 15).dimm, 1);
    let b = ivy(false, false, true);
    assert_eq!(b.phys_to_dram(1 << 15).rank, 1);
    assert_eq!(b.phys_to_dram(1 << 19).rank, 1);
}

#[test]
fn row_locality_within_64_bytes() {
    for a in all_knobs() {
        for base in [0u64, 0x1_2340, 0xdead_bec0, 0x3_0000_0000] {
            let d0 = a.phys_to_dram(base).row_aligned();
            for off in 0..64u64 {
                assert_eq!(a.phys_to_dram(base + off).row_aligned(), d0);
            }
        }
    }
}

#[test]
fn refresh_period_is_64ms() {
    assert_eq!(ivy(false, false, true).refresh_period(), 64_000);
}

#[test]
fn alignment_operations() {
    let mut d = DramAddr { chan: 1, dimm: 1, rank: 1, bank: 3, row: 7, col: 9, byte: 4, bit: 6 };
    let e = d.row_aligned();
    assert_eq!(e, DramAddr { col: 0, byte: 0, bit: 0, ..d });
    d.byte_align();
    assert_eq!((d.col, d.byte, d.bit), (9, 4, 0));
    d.col_align();
    assert_eq!((d.col, d.byte, d.bit), (9, 0, 0));
    d.row_align();
    assert_eq!(d, e);
    assert_eq!(d.row_above().row, 6);
    assert_eq!(d.row_below().row, 8);
    assert_eq!(DramAddr::new(), DramAddr { chan: 0, dimm: 0, rank: 0, bank: 0, row: 0, col: 0, byte: 0, bit: 0 });
}
