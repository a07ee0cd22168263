//! The hammering port and the calibration of the hammer rate.
use vstd::prelude::*;
use crate::architecture::{same_bank, Architecture, DramAddr};
use crate::config::Config;
use crate::memmap::{MemMap, RowRanges};

verus! {

/// Access to the hardware: the hammer loop and a clock.
///
/// Neither method promises anything about its effect beyond what the types fix (a
/// slice keeps its length): hammering may change any byte of the buffer, and the
/// clock may read anything. Every result of this library that depends on them holds
/// whatever they do.
pub trait HammerPort {
    /// Reads the bytes at offsets `a1` and `a2` of `buf` in turn, `reads` times each,
    /// flushing each from the cache right after its read.
    fn hammer(&mut self, buf: &mut [u8], a1: usize, a2: usize, reads: usize)
        requires
            a1 < old(buf)@.len(),
            a2 < old(buf)@.len(),
        ensures
            final(buf)@.len() == old(buf)@.len(),
    ;

    /// The current time in microseconds.
    fn now_us(&mut self) -> u64;
}

/// One hammering as it happened: the buffer just before and just after it, the two
/// offsets hammered and the iteration count.
pub struct HammerCall {
    pub before: Seq<u8>,
    pub after: Seq<u8>,
    pub a1: usize,
    pub a2: usize,
    pub reads: usize,
}

/// A port together with the record of every hammering made through it.
pub struct Hammerer<P: HammerPort> {
    port: P,
    log: Ghost<Seq<HammerCall>>,
}

impl<P: HammerPort> Hammerer<P> {
    /// Every hammering made through this value, in order.
    pub closed spec fn calls(&self) -> Seq<HammerCall> {
        self.log@
    }

    /// Wraps `port`, with no hammering recorded yet.
    pub fn new(port: P) -> (r: Self)
        ensures
            r.calls() == Seq::<HammerCall>::empty(),
    {
        Hammerer { port, log: Ghost(Seq::empty()) }
    }

    /// The wrapped port.
    pub fn port(&self) -> &P {
        &self.port
    }

    /// Hammers through the port and records the call.
    pub fn hammer(&mut self, buf: &mut [u8], a1: usize, a2: usize, reads: usize)
        requires
            a1 < old(buf)@.len(),
            a2 < old(buf)@.len(),
        ensures
            final(buf)@.len() == old(buf)@.len(),
            final(self).calls() == old(self).calls().push(
                HammerCall { before: old(buf)@, after: final(buf)@, a1, a2, reads },
            ),
    {
        let ghost before = buf@;
        self.port.hammer(buf, a1, a2, reads);
        self.log = Ghost(self.log@.push(HammerCall { before, after: buf@, a1, a2, reads }));
    }

    /// The port's clock; records nothing.
    pub fn now_us(&mut self) -> (r: u64)
        ensures
            final(self).calls() == old(self).calls(),
    {
        self.port.now_us()
    }
}

/// The buffer after the recorded `calls`, starting from `b0`: hammering is the only
/// thing recorded that changes it, so it is what the last call left, or `b0`.
pub open spec fn last_buf(b0: Seq<u8>, calls: Seq<HammerCall>) -> Seq<u8> {
    if calls.len() == 0 {
        b0
    } else {
        calls.last().after
    }
}

/// The first granularity of the calibration search.
pub const START_GRAN: usize = 0x100000;

/// How a timed hammering compares with the refresh period.
#[derive(Clone, Copy, Debug, PartialEq, Eq, Structural)]
pub enum Timing {
    /// Strictly shorter than one refresh period.
    Faster,
    /// Not shorter, but within the overshoot allowance of 1/32.
    Within,
    /// Longer than the allowance.
    Slower,
}

/// The verdict on a hammering that took `elapsed` microseconds.
pub open spec fn timing_of(elapsed: u64, refresh_us: usize) -> Timing {
    if elapsed < refresh_us {
        Timing::Faster
    } else if elapsed < (33 * refresh_us) / 32 {
        Timing::Within
    } else {
        Timing::Slower
    }
}

/// Compares a measured hammering time with the refresh period.
pub fn judge_timing(elapsed: u64, refresh_us: usize) -> (r: Timing)
    ensures
        r == timing_of(elapsed, refresh_us),
{
    let e = elapsed as u128;
    let limit = (33 * (refresh_us as u128)) / 32;
    if e < refresh_us as u128 {
        Timing::Faster
    } else if e < limit {
        Timing::Within
    } else {
        Timing::Slower
    }
}

/// The state of the calibration search: iterations accepted so far, and the
/// granularity of the next probe.
#[derive(Clone, Copy, Debug, PartialEq, Eq, Structural)]
pub struct Search {
    pub reads: usize,
    pub gran: usize,
}

/// What the search does after one probe.
#[derive(Clone, Copy, Debug, PartialEq, Eq, Structural)]
pub enum SearchStep {
    /// Probe again from this state.
    Continue(Search),
    /// The count of iterations found.
    Done(usize),
}

impl Search {
    /// The search stays within range: the next probe, and any count found, is below
    /// twice the first granularity.
    pub open spec fn inv(self) -> bool {
        self.reads + 2 * self.gran <= 2 * START_GRAN
    }

    /// The number of iterations the next probe hammers.
    pub open spec fn probe(self) -> int {
        self.reads + self.gran
    }

    /// The search at its start.
    pub fn start() -> (r: Search)
        ensures
            r == (Search { reads: 0, gran: START_GRAN }),
            r.inv(),
    {
        Search { reads: 0, gran: START_GRAN }
    }

    /// Iteration count of the next probe.
    pub fn next_probe(&self) -> (r: usize)
        requires
            self.inv(),
        ensures
            r == self.probe(),
    {
        self.reads + self.gran
    }

    /// One step: a faster probe is accepted and the granularity halves; a probe within
    /// the allowance ends the search with its count; a slower one is dropped and the
    /// granularity halves. When the granularity reaches zero the accepted count is the
    /// result.
    pub fn step(self, elapsed: u64, refresh_us: usize) -> (r: SearchStep)
        requires
            self.inv(),
            self.gran > 0,
        ensures
            r == (match timing_of(elapsed, refresh_us) {
                Timing::Within => SearchStep::Done((self.reads + self.gran) as usize),
                t => {
                    let reads = if t == Timing::Faster {
                        (self.reads + self.gran) as usize
                    } else {
                        self.reads
                    };
                    if self.gran / 2 == 0 {
                        SearchStep::Done(reads)
                    } else {
                        SearchStep::Continue(Search { reads, gran: self.gran / 2 })
                    }
                },
            }),
            r matches SearchStep::Continue(s) ==> s.inv() && s.gran > 0,
            r matches SearchStep::Done(n) ==> n < 2 * START_GRAN,
    {
        match judge_timing(elapsed, refresh_us) {
            Timing::Within => SearchStep::Done(self.reads + self.gran),
            t => {
                let reads = if t == Timing::Faster {
                    self.reads + self.gran
                } else {
                    self.reads
                };
                let gran = self.gran / 2;
                if gran == 0 {
                    SearchStep::Done(reads)
                } else {
                    SearchStep::Continue(Search { reads, gran })
                }
            },
        }
    }
}

/// `new` is `old` with calls appended.
pub open spec fn extends(old: Seq<HammerCall>, new: Seq<HammerCall>) -> bool {
    new.len() >= old.len() && new.subrange(0, old.len() as int) == old
}

/// The calls of `new` made after those of `old`.
pub open spec fn added(old: Seq<HammerCall>, new: Seq<HammerCall>) -> Seq<HammerCall> {
    new.subrange(old.len() as int, new.len() as int)
}

/// A calibration probe: it hammers `a1` and `a2` with a count from 1 to below
/// `2 * START_GRAN`.
pub open spec fn is_probe(call: HammerCall, a1: usize, a2: usize) -> bool {
    call.a1 == a1 && call.a2 == a2 && 1 <= call.reads < 2 * START_GRAN
}

proof fn lemma_gran_halves(k: usize)
    requires
        START_GRAN >> k > 0,
    ensures
        k <= 20,
        (START_GRAN >> k) / 2 == START_GRAN >> ((k + 1) as usize),
{
    assert(k <= 20 && (0x100000usize >> k) / 2 == 0x100000usize >> ((k + 1) as usize)) by (bit_vector)
        requires
            0x100000usize >> k > 0,
    ;
}

/// Finds the largest iteration count whose hammering of `a1` and `a2` still takes
/// less than one refresh period, allowing an overshoot of 1/32, by halving the
/// granularity from `START_GRAN` down to one. It makes one probe per granularity at
/// most: at most 21 hammerings, each of `a1` and `a2`.
pub fn reads_per_refresh<P: HammerPort>(
    h: &mut Hammerer<P>,
    buf: &mut [u8],
    a1: usize,
    a2: usize,
    refresh_period_us: usize,
) -> (r: usize)
    requires
        a1 < old(buf)@.len(),
        a2 < old(buf)@.len(),
    ensures
        r < 2 * START_GRAN,
        final(buf)@.len() == old(buf)@.len(),
        extends(old(h).calls(), final(h).calls()),
        1 <= added(old(h).calls(), final(h).calls()).len() <= 21,
        forall|k: int|
            0 <= k < added(old(h).calls(), final(h).calls()).len() ==> is_probe(
                #[trigger] added(old(h).calls(), final(h).calls())[k],
                a1,
                a2,
            ),
{
    let ghost c0 = h.calls();
    let mut search = Search::start();
    let ghost mut k: usize = 0;
    assert(START_GRAN >> 0usize == START_GRAN) by (bit_vector);
    assert(c0.subrange(0, c0.len() as int) =~= c0);
    assert(added(c0, c0) =~= Seq::<HammerCall>::empty());
    loop
        invariant
            search.inv(),
            search.gran > 0,
            search.gran == START_GRAN >> k,
            a1 < buf@.len(),
            a2 < buf@.len(),
            buf@.len() == old(buf)@.len(),
            extends(c0, h.calls()),
            added(c0, h.calls()).len() == k,
            forall|m: int| 0 <= m < k ==> is_probe(#[trigger] added(c0, h.calls())[m], a1, a2),
            c0 == old(h).calls(),
        decreases search.gran,
    {
        proof {
            lemma_gran_halves(k);
        }
        let n = search.next_probe();
        let t0 = h.now_us();
        let ghost before = h.calls();
        h.hammer(buf, a1, a2, n);
        proof {
            assert(added(c0, h.calls()) == added(c0, before).push(h.calls().last()));
            assert(h.calls().subrange(0, c0.len() as int) == before.subrange(0, c0.len() as int));
            k = (k + 1) as usize;
        }
        let t1 = h.now_us();
        let elapsed = if t1 >= t0 {
            t1 - t0
        } else {
            0
        };
        match search.step(elapsed, refresh_period_us) {
            SearchStep::Continue(s) => {
                search = s;
            },
            SearchStep::Done(n) => {
                return n;
            },
        }
    }
}

/// Entries `i` and `j` of the index hold ranges in the same bank but different rows:
/// hammering them in turn forces row conflicts.
pub open spec fn conflict_at(rows: Seq<RowRanges>, i: int, j: int) -> bool {
    &&& 0 <= i < rows.len()
    &&& 0 <= j < rows.len()
    &&& rows[i].ranges@.len() > 0
    &&& rows[j].ranges@.len() > 0
    &&& same_bank(rows[i].key, rows[j].key)
    &&& rows[i].key.row != rows[j].key.row
}

/// Every range of the index starts inside a buffer of `len` bytes.
pub open spec fn starts_in_buffer<A: Architecture>(arch: A, rows: Seq<RowRanges>, len: nat) -> bool {
    forall|i: int, j: int|
        0 <= i < rows.len() && 0 <= j < rows[i].ranges@.len() ==> arch.to_phys(
            (#[trigger] rows[i].ranges@[j]).start,
        ) < len
}

/// `(i, j)` is the first conflicting pair of entries: `i` is the first entry with a
/// conflicting partner, and `j` its first partner, in index order.
pub open spec fn first_conflict_at(rows: Seq<RowRanges>, i: int, j: int) -> bool {
    &&& conflict_at(rows, i, j)
    &&& forall|i2: int, j2: int| 0 <= i2 < i ==> !#[trigger] conflict_at(rows, i2, j2)
    &&& forall|j2: int| 0 <= j2 < j ==> !#[trigger] conflict_at(rows, i, j2)
}

/// The first ranges of the first two rows of one bank, in index order, if the index
/// has such rows.
pub fn row_conflict_pair(mem: &MemMap) -> (r: Option<(DramAddr, DramAddr)>)
    ensures
        match r {
            Some((a1, a2)) => exists|i: int, j: int|
                #[trigger] first_conflict_at(mem.index(), i, j) && a1 == mem.index()[i].ranges@[0].start
                    && a2 == mem.index()[j].ranges@[0].start,
            None => forall|i: int, j: int| !#[trigger] conflict_at(mem.index(), i, j),
        },
{
    let rows = mem.get_ranges();
    let mut i: usize = 0;
    while i < rows.len()
        invariant
            rows@ == mem.index(),
            i <= rows@.len(),
            forall|i2: int, j: int| 0 <= i2 < i ==> !#[trigger] conflict_at(rows@, i2, j),
        decreases rows@.len() - i,
    {
        if rows[i].ranges.len() > 0 {
            let da1 = rows[i].key;
            let mut j: usize = 0;
            while j < rows.len()
                invariant
                    rows@ == mem.index(),
                    i < rows@.len(),
                    j <= rows@.len(),
                    da1 == rows@[i as int].key,
                    rows@[i as int].ranges@.len() > 0,
                    forall|i2: int, j2: int| 0 <= i2 < i ==> !#[trigger] conflict_at(rows@, i2, j2),
                    forall|j2: int| 0 <= j2 < j ==> !#[trigger] conflict_at(rows@, i as int, j2),
                decreases rows@.len() - j,
            {
                let da2 = rows[j].key;
                if da1.chan == da2.chan && da1.dimm == da2.dimm && da1.rank == da2.rank && da1.bank
                    == da2.bank && da1.row != da2.row && rows[j].ranges.len() > 0 {
                    assert(first_conflict_at(rows@, i as int, j as int));
                    return Some((rows[i].ranges[0].start, rows[j].ranges[0].start));
                }
                j = j + 1;
            }
        }
        i = i + 1;
    }
    None
}

/// Calibrates the hammer rate on the first row-conflict pair of the buffer: twice the
/// largest iteration count that fits one refresh period. `None`, with nothing
/// hammered, where the buffer has no such pair or its cells lie outside `buf`.
pub fn calibrate<A: Architecture, P: HammerPort>(
    mem: &MemMap,
    buf: &mut [u8],
    h: &mut Hammerer<P>,
    c: &Config<A>,
) -> (r: Option<usize>)
    ensures
        final(buf)@.len() == old(buf)@.len(),
        (forall|i: int, j: int| !#[trigger] conflict_at(mem.index(), i, j)) ==> r is None,
        (exists|i: int, j: int| #[trigger] conflict_at(mem.index(), i, j)) && starts_in_buffer(
            c.arch,
            mem.index(),
            old(buf)@.len(),
        ) ==> r is Some,
        r is None ==> final(buf)@ == old(buf)@ && final(h).calls() == old(h).calls(),
        r matches Some(n) ==> n % 2 == 0 && n < 4 * START_GRAN && extends(
            old(h).calls(),
            final(h).calls(),
        ) && exists|i: int, j: int|
            #[trigger] first_conflict_at(mem.index(), i, j) && {
                let new = added(old(h).calls(), final(h).calls());
                &&& 1 <= new.len() <= 21
                &&& forall|k: int|
                    0 <= k < new.len() ==> is_probe(
                        #[trigger] new[k],
                        c.arch.to_phys(mem.index()[i].ranges@[0].start) as usize,
                        c.arch.to_phys(mem.index()[j].ranges@[0].start) as usize,
                    )
            },
{
    match row_conflict_pair(mem) {
        None => None,
        Some((a1, a2)) => {
            let p1 = c.arch.dram_to_phys(&a1);
            let p2 = c.arch.dram_to_phys(&a2);
            if p1 < buf.len() as u64 && p2 < buf.len() as u64 {
                let n = reads_per_refresh(h, buf, p1 as usize, p2 as usize, c.arch.refresh_period());
                Some(2 * n)
            } else {
                proof {
                    let (i, j) = choose|i: int, j: int|
                        #[trigger] first_conflict_at(mem.index(), i, j) && a1 == mem.index()[i].ranges@[0].start
                            && a2 == mem.index()[j].ranges@[0].start;
                    assert(conflict_at(mem.index(), i, j));
                }
                None
            }
        },
    }
}

} // verus!
