use rambleed::config::Config;
use rambleed::hammer::{
    calibrate, judge_timing, reads_per_refresh, row_conflict_pair, HammerPort, Hammerer, Search, SearchStep,
    Timing,
    START_GRAN,
};
use rambleed::intelivy::IntelIvy;
use rambleed::memmap::MemMap;

/// A clock that advances one microsecond per hammer iteration.
struct OneMicroPerRead {
    now: u64,
    probes: Vec<usize>,
}

impl HammerPort for OneMicroPerRead {
    fn hammer(&mut self, _buf: &mut [u8], _a1: usize, _a2: usize, reads: usize) {
        self.probes.push(reads);
        self.now += reads as u64;
    }

    fn now_us(&mut self) -> u64 {
        self.now
    }
}

/// A clock that never advances: every hammering seems instant.
struct FrozenClock;

impl HammerPort for FrozenClock {
    fn hammer(&mut self, _buf: &mut [u8], _a1: usize, _a2: usize, _reads: usize) {}

    fn now_us(&mut self) -> u64 {
        0
    }
}

fn config() -> Config<IntelIvy> {
    Config {
        aligned_bits: 20,
        reads_per_hammer: 0,
        contiguous_dram_addr: 4096,
        arch: IntelIvy { dual_channel: false, dual_dimm: false, dual_rank: true },
    }
}

#[test]
fn one_micro_per_read_lands_within_the_overshoot() {
    let mut buf = vec![0u8; 64];
    let mut port = Hammerer::new(OneMicroPerRead { now: 0, probes: Vec::new() });
    let n = reads_per_refresh(&mut port, &mut buf, 0, 32, 64_000);
    assert!(n >= 64_000 && n <= 66_000, "{}", n);
    assert_eq!(n, 65_536);
    assert_eq!(port.port().probes, vec![0x100000, 0x80000, 0x40000, 0x20000, 0x10000]);
}

#[test]
fn frozen_clock_accepts_every_granularity() {
    let mut buf = vec![0u8; 64];
    let n = reads_per_refresh(&mut Hammerer::new(FrozenClock), &mut buf, 0, 1, 64_000);
    assert_eq!(n, 2 * START_GRAN - 1);
}

#[test]
fn timing_verdicts() {
    assert_eq!(judge_timing(63_999, 64_000), Timing::Faster);
    assert_eq!(judge_timing(64_000, 64_000), Timing::Within);
    assert_eq!(judge_timing(65_999, 64_000), Timing::Within);
    assert_eq!(judge_timing(66_000, 64_000), Timing::Slower);
    assert_eq!(judge_timing(u64::MAX, u64::MAX as usize), Timing::Within);
}

#[test]
fn search_steps() {
    let s = Search::start();
    assert_eq!(s, Search { reads: 0, gran: START_GRAN });
    assert_eq!(s.next_probe(), START_GRAN);
    assert_eq!(s.step(10, 100), SearchStep::Continue(Search { reads: START_GRAN, gran: START_GRAN / 2 }));
    assert_eq!(s.step(100, 100), SearchStep::Done(START_GRAN));
    assert_eq!(s.step(1000, 100), SearchStep::Continue(Search { reads: 0, gran: START_GRAN / 2 }));
    let last = Search { reads: 6, gran: 1 };
    assert_eq!(last.step(0, 100), SearchStep::Done(7));
    assert_eq!(last.step(1000, 100), SearchStep::Done(6));
}

#[test]
fn conflict_pair_shares_bank_not_row() {
    let c = config();
    let m = MemMap::new(0, 2 << 20, &c);
    let (a1, a2) = row_conflict_pair(&m).unwrap();
    assert_eq!((a1.chan, a1.dimm, a1.rank, a1.bank), (a2.chan, a2.dimm, a2.rank, a2.bank));
    assert_ne!(a1.row, a2.row);
}

#[test]
fn no_conflict_pair_in_one_row() {
    let c = config();
    let m = MemMap::new(0, 4096, &c);
    assert_eq!(row_conflict_pair(&m), None);
    let mut buf = vec![0u8; 4096];
    let mut port = Hammerer::new(OneMicroPerRead { now: 0, probes: Vec::new() });
    assert_eq!(calibrate(&m, &mut buf, &mut port, &c), None);
}

#[test]
fn calibration_doubles_the_measured_rate() {
    let c = config();
    let m = MemMap::new(0, 2 << 20, &c);
    let mut buf = vec![0u8; 2 << 20];
    let mut port = Hammerer::new(OneMicroPerRead { now: 0, probes: Vec::new() });
    assert_eq!(calibrate(&m, &mut buf, &mut port, &c), Some(2 * 65_536));
}
