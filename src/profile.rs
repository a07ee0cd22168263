//! Flip discovery: filling rows with patterns, hammering, and scanning for flips.
use vstd::prelude::*;
use crate::architecture::{is_sentinel_row, row_key, Architecture, DramAddr, PhysAddr};
use crate::config::Config;
use crate::hammer::{added, extends, last_buf, HammerCall, HammerPort, Hammerer};
use crate::memmap::{
    indexes, index_wf, lemma_lookup_absent, lemma_lookup_at, lemma_range_partition, lookup,
    round_trips_at_starts, span_holds, split_spec, DramRange, MemMap, RowRanges,
};

verus! {

/// The polarity of a cell's leak.
#[derive(Clone, Copy, Debug, PartialEq, Eq, Structural)]
pub enum Direction {
    From1To0,
    From0To1,
}

/// How often a flip fired under each fill of its neighbours, out of `trials` rounds.
#[derive(Clone, Copy, Debug, PartialEq, Eq, Structural)]
pub struct FlipStats {
    pub trials: usize,
    pub striped_complement: usize,
    pub above_complement: usize,
    pub below_complement: usize,
    pub uniform: usize,
}

/// A cell observed to leak, to the bit.
#[derive(Clone, Copy, Debug, PartialEq, Eq, Structural)]
pub struct Flip {
    pub dir: Direction,
    pub pos: DramAddr,
    pub stats: FlipStats,
}

/// Statistics of a flip not yet characterised.
pub open spec fn no_stats() -> FlipStats {
    FlipStats {
        trials: 0,
        striped_complement: 0,
        above_complement: 0,
        below_complement: 0,
        uniform: 0,
    }
}

impl Flip {
    /// A flip with no statistics yet.
    pub fn new(dir: Direction, pos: DramAddr) -> (r: Flip)
        ensures
            r == (Flip { dir, pos, stats: no_stats() }),
    {
        Flip {
            dir,
            pos,
            stats: FlipStats {
                trials: 0,
                striped_complement: 0,
                above_complement: 0,
                below_complement: 0,
                uniform: 0,
            },
        }
    }
}

/// The fill a cell of direction `d` ends in once it has flipped.
pub open spec fn spec_compl_fill(d: Direction) -> u8 {
    match d {
        Direction::From0To1 => 0xff,
        Direction::From1To0 => 0x00,
    }
}

/// The fill a cell of direction `d` starts from.
pub open spec fn spec_id_fill(d: Direction) -> u8 {
    match d {
        Direction::From0To1 => 0x00,
        Direction::From1To0 => 0xff,
    }
}

/// The fill a cell of direction `d` ends in once it has flipped.
pub fn compl_fill(d: Direction) -> (r: u8)
    ensures
        r == spec_compl_fill(d),
{
    match d {
        Direction::From0To1 => 0xff,
        Direction::From1To0 => 0x00,
    }
}

/// The fill a cell of direction `d` starts from.
pub fn id_fill(d: Direction) -> (r: u8)
    ensures
        r == spec_id_fill(d),
{
    match d {
        Direction::From0To1 => 0x00,
        Direction::From1To0 => 0xff,
    }
}

/// The one-byte range at `da`.
pub fn byte_range(da: &DramAddr) -> (r: Vec<DramRange>)
    ensures
        r@ == seq![DramRange { start: *da, bytes: 1 }],
{
    let mut v: Vec<DramRange> = Vec::new();
    v.push(DramRange { start: *da, bytes: 1 });
    v
}

/// Range `r` lies inside a buffer of `len` bytes.
pub open spec fn in_buffer<A: Architecture>(arch: A, r: DramRange, len: nat) -> bool {
    arch.to_phys(r.start) + r.bytes <= len
}

/// Byte `o` belongs to one of the ranges of `rs` that lie inside the buffer.
pub open spec fn fills<A: Architecture>(arch: A, rs: Seq<DramRange>, len: nat, o: int) -> bool {
    exists|n: int|
        0 <= n < rs.len() && in_buffer(arch, rs[n], len) && #[trigger] span_holds(arch, rs[n], o)
}

/// `buf` with every byte of the ranges of `rs` that lie inside it set to `p`.
pub open spec fn filled<A: Architecture>(arch: A, buf: Seq<u8>, rs: Seq<DramRange>, p: u8) -> Seq<u8> {
    Seq::new(buf.len(), |o: int| if fills(arch, rs, buf.len(), o) { p } else { buf[o] })
}

/// Sets every byte of the ranges of `rs` to `p`; a range that does not lie inside
/// `buf` is left alone.
pub fn fill_ranges<A: Architecture>(buf: &mut [u8], rs: &Vec<DramRange>, p: u8, c: &Config<A>)
    ensures
        final(buf)@ == filled(c.arch, old(buf)@, rs@, p),
{
    let ghost orig = buf@;
    let len = buf.len();
    let mut n: usize = 0;
    assert(buf@ =~= filled(c.arch, orig, rs@.subrange(0, 0), p));
    while n < rs.len()
        invariant
            len == orig.len(),
            buf@.len() == len,
            n <= rs@.len(),
            buf@ == filled(c.arch, orig, rs@.subrange(0, n as int), p),
        decreases rs@.len() - n,
    {
        let r = rs[n];
        let start = c.arch.dram_to_phys(&r.start);
        let ghost before = buf@;
        let ghost done = rs@.subrange(0, n as int);
        let ghost next = rs@.subrange(0, n + 1);
        assert forall|m: int| 0 <= m < done.len() implies next[m] == done[m] by {}
        assert(next[n as int] == r);
        if start <= len as u64 && r.bytes as u64 <= len as u64 - start {
            let s = start as usize;
            let mut k: usize = 0;
            while k < r.bytes
                invariant
                    len == orig.len(),
                    buf@.len() == len,
                    s + r.bytes <= len,
                    s == c.arch.to_phys(r.start),
                    k <= r.bytes,
                    forall|o: int|
                        0 <= o < len ==> #[trigger] buf@[o] == (if fills(c.arch, done, len as nat, o) || (s
                            <= o < s + k) {
                            p
                        } else {
                            orig[o]
                        }),
                    before == filled(c.arch, orig, done, p),
                decreases r.bytes - k,
            {
                buf[s + k] = p;
                k = k + 1;
            }
            assert forall|o: int| 0 <= o < len implies #[trigger] buf@[o] == filled(
                c.arch,
                orig,
                next,
                p,
            )[o] by {
                if fills(c.arch, done, len as nat, o) {
                    let m = choose|m: int|
                        0 <= m < done.len() && in_buffer(c.arch, done[m], len as nat)
                            && #[trigger] span_holds(c.arch, done[m], o);
                    assert(span_holds(c.arch, next[m], o));
                }
                if s <= o < s + r.bytes {
                    assert(span_holds(c.arch, next[n as int], o));
                }
                if fills(c.arch, next, len as nat, o) {
                    let m = choose|m: int|
                        0 <= m < next.len() && in_buffer(c.arch, next[m], len as nat)
                            && #[trigger] span_holds(c.arch, next[m], o);
                    if m < n {
                        assert(span_holds(c.arch, done[m], o));
                    }
                }
            }
            assert(buf@ =~= filled(c.arch, orig, next, p));
        } else {
            assert forall|o: int| 0 <= o < len implies #[trigger] buf@[o] == filled(
                c.arch,
                orig,
                next,
                p,
            )[o] by {
                if fills(c.arch, done, len as nat, o) {
                    let m = choose|m: int|
                        0 <= m < done.len() && in_buffer(c.arch, done[m], len as nat)
                            && #[trigger] span_holds(c.arch, done[m], o);
                    assert(span_holds(c.arch, next[m], o));
                }
                if fills(c.arch, next, len as nat, o) {
                    let m = choose|m: int|
                        0 <= m < next.len() && in_buffer(c.arch, next[m], len as nat)
                            && #[trigger] span_holds(c.arch, next[m], o);
                    if m < n {
                        assert(span_holds(c.arch, done[m], o));
                    }
                }
            }
            assert(buf@ =~= filled(c.arch, orig, next, p));
        }
        n = n + 1;
    }
    assert(rs@.subrange(0, n as int) == rs@);
}

/// Bit `b` of `x` is 1.
pub open spec fn bit_is_set(x: u8, b: u8) -> bool {
    (x >> b) & 1 == 1
}

/// The direction of a cell that was expected to hold bit `b` of `expected`.
pub open spec fn dir_from(expected: u8, b: u8) -> Direction {
    if bit_is_set(expected, b) {
        Direction::From1To0
    } else {
        Direction::From0To1
    }
}

/// One flip for each bit below `b` in which `actual` differs from `expected`, in
/// ascending bit order.
pub open spec fn flips_below(da: DramAddr, expected: u8, actual: u8, b: nat) -> Seq<Flip>
    decreases b,
{
    if b == 0 {
        seq![]
    } else {
        let prev = flips_below(da, expected, actual, (b - 1) as nat);
        let i = (b - 1) as u8;
        if bit_is_set(expected, i) != bit_is_set(actual, i) {
            prev.push(Flip { dir: dir_from(expected, i), pos: DramAddr { bit: i, ..da }, stats: no_stats() })
        } else {
            prev
        }
    }
}

/// The flips of a byte at `da` that should hold `expected` and holds `actual`.
pub open spec fn byte_flips(da: DramAddr, expected: u8, actual: u8) -> Seq<Flip> {
    flips_below(da, expected, actual, 8)
}

/// The flips of the first `n` bytes from physical offset `base`.
pub open spec fn scan_upto<A: Architecture>(arch: A, buf: Seq<u8>, base: int, expected: u8, n: nat) -> Seq<
    Flip,
>
    decreases n,
{
    if n == 0 {
        seq![]
    } else {
        scan_upto(arch, buf, base, expected, (n - 1) as nat) + byte_flips(
            arch.to_dram((base + n - 1) as PhysAddr),
            expected,
            buf[base + n - 1],
        )
    }
}

/// The flips of range `v` of `buf`, each byte expected to hold `expected`; none where
/// the range does not lie inside the buffer.
pub open spec fn range_flips<A: Architecture>(arch: A, buf: Seq<u8>, v: DramRange, expected: u8) -> Seq<
    Flip,
> {
    if in_buffer(arch, v, buf.len()) {
        scan_upto(arch, buf, arch.to_phys(v.start) as int, expected, v.bytes as nat)
    } else {
        seq![]
    }
}

/// The flips of every range of `vs`, in order.
pub open spec fn ranges_flips<A: Architecture>(arch: A, buf: Seq<u8>, vs: Seq<DramRange>, expected: u8) -> Seq<
    Flip,
>
    decreases vs.len(),
{
    if vs.len() == 0 {
        seq![]
    } else {
        ranges_flips(arch, buf, vs.drop_last(), expected) + range_flips(arch, buf, vs.last(), expected)
    }
}

/// A flip at the coordinate of byte `o` of range `v`.
pub open spec fn flip_in_range<A: Architecture>(arch: A, v: DramRange, f: Flip, o: int) -> bool {
    &&& 0 <= o < v.bytes
    &&& f.pos == DramAddr { bit: f.pos.bit, ..arch.to_dram((arch.to_phys(v.start) + o) as PhysAddr) }
}

/// What every flip of a byte satisfies: it names a bit of that byte in which the
/// byte differs from what was expected, and leaks away from the expected bit.
pub open spec fn flip_of_byte(da: DramAddr, expected: u8, actual: u8, f: Flip) -> bool {
    &&& f.pos == DramAddr { bit: f.pos.bit, ..da }
    &&& f.pos.bit < 8
    &&& bit_is_set(expected, f.pos.bit) != bit_is_set(actual, f.pos.bit)
    &&& f.dir == dir_from(expected, f.pos.bit)
}

proof fn lemma_flips_below(da: DramAddr, expected: u8, actual: u8, b: nat)
    requires
        b <= 8,
    ensures
        forall|k: int|
            0 <= k < flips_below(da, expected, actual, b).len() ==> flip_of_byte(
                da,
                expected,
                actual,
                #[trigger] flips_below(da, expected, actual, b)[k],
            ),
        expected == actual ==> flips_below(da, expected, actual, b) == Seq::<Flip>::empty(),
    decreases b,
{
    if b > 0 {
        lemma_flips_below(da, expected, actual, (b - 1) as nat);
        let prev = flips_below(da, expected, actual, (b - 1) as nat);
        let s = flips_below(da, expected, actual, b);
        assert forall|k: int| 0 <= k < s.len() implies flip_of_byte(
            da,
            expected,
            actual,
            #[trigger] s[k],
        ) by {
            if k < prev.len() {
                assert(s[k] == prev[k]);
            }
        }
    }
}

proof fn lemma_scan_upto<A: Architecture>(arch: A, buf: Seq<u8>, v: DramRange, expected: u8, n: nat)
    requires
        n <= v.bytes,
        in_buffer(arch, v, buf.len()),
    ensures
        forall|k: int|
            0 <= k < scan_upto(arch, buf, arch.to_phys(v.start) as int, expected, n).len() ==> {
                let f = #[trigger] scan_upto(arch, buf, arch.to_phys(v.start) as int, expected, n)[k];
                &&& exists|o: int| o < n && #[trigger] flip_in_range(arch, v, f, o)
                &&& f.pos.bit < 8
                &&& f.dir == dir_from(expected, f.pos.bit)
            },
    decreases n,
{
    let base = arch.to_phys(v.start) as int;
    if n > 0 {
        lemma_scan_upto(arch, buf, v, expected, (n - 1) as nat);
        let prev = scan_upto(arch, buf, base, expected, (n - 1) as nat);
        let da = arch.to_dram((base + n - 1) as PhysAddr);
        let last = byte_flips(da, expected, buf[base + n - 1]);
        lemma_flips_below(da, expected, buf[base + n - 1], 8);
        let s = scan_upto(arch, buf, base, expected, n);
        assert forall|k: int| 0 <= k < s.len() implies {
            let f = #[trigger] s[k];
            &&& exists|o: int| o < n && #[trigger] flip_in_range(arch, v, f, o)
            &&& f.pos.bit < 8
            &&& f.dir == dir_from(expected, f.pos.bit)
        } by {
            if k < prev.len() {
                assert(s[k] == prev[k]);
            } else {
                assert(s[k] == last[k - prev.len()]);
                assert(flip_of_byte(da, expected, buf[base + n - 1], last[k - prev.len()]));
                assert(flip_in_range(arch, v, s[k], n - 1));
            }
        }
    }
}

/// What every flip found in ranges `vs` satisfies: it lies at the coordinate of a byte
/// of one of them, and leaks away from the expected bit.
pub open spec fn flip_of_ranges<A: Architecture>(arch: A, vs: Seq<DramRange>, expected: u8, f: Flip) -> bool {
    &&& exists|n: int, o: int| 0 <= n < vs.len() && #[trigger] flip_in_range(arch, vs[n], f, o)
    &&& f.pos.bit < 8
    &&& f.dir == dir_from(expected, f.pos.bit)
}

proof fn lemma_ranges_flips<A: Architecture>(arch: A, buf: Seq<u8>, vs: Seq<DramRange>, expected: u8)
    ensures
        forall|k: int|
            0 <= k < ranges_flips(arch, buf, vs, expected).len() ==> flip_of_ranges(
                arch,
                vs,
                expected,
                #[trigger] ranges_flips(arch, buf, vs, expected)[k],
            ),
    decreases vs.len(),
{
    if vs.len() > 0 {
        let init = vs.drop_last();
        lemma_ranges_flips(arch, buf, init, expected);
        let prev = ranges_flips(arch, buf, init, expected);
        let v = vs.last();
        let last = range_flips(arch, buf, v, expected);
        if in_buffer(arch, v, buf.len()) {
            lemma_scan_upto(arch, buf, v, expected, v.bytes as nat);
        }
        let s = ranges_flips(arch, buf, vs, expected);
        assert forall|k: int| 0 <= k < s.len() implies flip_of_ranges(arch, vs, expected, #[trigger] s[k]) by {
            if k < prev.len() {
                assert(s[k] == prev[k]);
                assert(flip_of_ranges(arch, init, expected, prev[k]));
                let (n, o) = choose|n: int, o: int| 0 <= n < init.len() && #[trigger] flip_in_range(arch, init[n], prev[k], o);
                assert(vs[n] == init[n]);
                assert(flip_in_range(arch, vs[n], s[k], o));
            } else {
                assert(s[k] == last[k - prev.len()]);
                let o = choose|o: int| o < v.bytes && #[trigger] flip_in_range(arch, v, s[k], o);
                assert(flip_in_range(arch, vs[vs.len() - 1], s[k], o));
            }
        }
    }
}

/// One flip per bit in which `actual` differs from `expected`, in ascending bit order,
/// each at `da` with its bit index.
pub fn find_flips(da: DramAddr, expected: u8, actual: u8) -> (r: Vec<Flip>)
    ensures
        r@ == byte_flips(da, expected, actual),
{
    let mut flips: Vec<Flip> = Vec::new();
    let mut bit: u8 = 0;
    while bit < 8
        invariant
            bit <= 8,
            flips@ == flips_below(da, expected, actual, bit as nat),
        decreases 8 - bit,
    {
        assert(((expected >> bit) & 1 != (actual >> bit) & 1) == (bit_is_set(expected, bit)
            != bit_is_set(actual, bit))) by (bit_vector);
        if (expected >> bit) & 1 != (actual >> bit) & 1 {
            let dir = if (expected >> bit) & 1 == 1 {
                Direction::From1To0
            } else {
                Direction::From0To1
            };
            let mut da_flip = da;
            da_flip.bit = bit;
            flips.push(Flip::new(dir, da_flip));
        }
        bit = bit + 1;
    }
    flips
}

/// The flips of range `v`, each byte expected to hold `expected`.
pub fn flips_in_range<A: Architecture>(buf: &[u8], v: &DramRange, expected: u8, c: &Config<A>) -> (r: Vec<
    Flip,
>)
    ensures
        r@ == range_flips(c.arch, buf@, *v, expected),
{
    let mut flips: Vec<Flip> = Vec::new();
    let base = c.arch.dram_to_phys(&v.start);
    let len = buf.len();
    if base > len as u64 || v.bytes as u64 > len as u64 - base {
        return flips;
    }
    let b = base as usize;
    let mut i: usize = 0;
    while i < v.bytes
        invariant
            b + v.bytes <= len,
            len == buf@.len(),
            b == c.arch.to_phys(v.start),
            i <= v.bytes,
            flips@ == scan_upto(c.arch, buf@, b as int, expected, i as nat),
        decreases v.bytes - i,
    {
        let actual = buf[b + i];
        let da = c.arch.phys_to_dram((b + i) as PhysAddr);
        if actual != expected {
            let mut cur = find_flips(da, expected, actual);
            flips.append(&mut cur);
        } else {
            proof {
                lemma_flips_below(da, expected, actual, 8);
                assert(flips@ + byte_flips(da, expected, actual) =~= flips@);
            }
        }
        i = i + 1;
    }
    flips
}

/// The flips of every range of `vs`, in order.
pub fn flips_in_ranges<A: Architecture>(buf: &[u8], vs: &Vec<DramRange>, expected: u8, c: &Config<A>) -> (r: Vec<
    Flip,
>)
    ensures
        r@ == ranges_flips(c.arch, buf@, vs@, expected),
{
    let mut flips: Vec<Flip> = Vec::new();
    let mut n: usize = 0;
    while n < vs.len()
        invariant
            n <= vs@.len(),
            flips@ == ranges_flips(c.arch, buf@, vs@.subrange(0, n as int), expected),
        decreases vs@.len() - n,
    {
        let mut cur = flips_in_range(buf, &vs[n], expected, c);
        proof {
            let next = vs@.subrange(0, n + 1);
            assert(next.drop_last() == vs@.subrange(0, n as int));
            assert(next.last() == vs@[n as int]);
        }
        flips.append(&mut cur);
        n = n + 1;
    }
    assert(vs@.subrange(0, n as int) == vs@);
    flips
}

/// Both aggressor lists have a first range, and its first byte lies in a buffer of
/// `len` bytes.
pub open spec fn aggressors_ready<A: Architecture>(
    arch: A,
    r1: Seq<DramRange>,
    r2: Seq<DramRange>,
    len: nat,
) -> bool {
    &&& r1.len() > 0
    &&& r2.len() > 0
    &&& arch.to_phys(r1[0].start) < len
    &&& arch.to_phys(r2[0].start) < len
}

/// One profiling pass: aggressor ranges `r1` and `r2` filled with `p`, victim ranges
/// `v` filled with `!p`.
pub struct Pass {
    pub r1: Seq<DramRange>,
    pub r2: Seq<DramRange>,
    pub v: Seq<DramRange>,
    pub p: u8,
}

/// Pass `ps` hammers: both aggressor lists have a first byte inside the buffer.
pub open spec fn pass_ready<A: Architecture>(arch: A, ps: Pass, len: nat) -> bool {
    aggressors_ready(arch, ps.r1, ps.r2, len)
}

/// `call` is the hammering of pass `ps` on buffer `b`: it was handed `b` with `r1`
/// filled with `p`, then `v` with `!p`, then `r2` with `p`, and it hammered the first
/// bytes of `r1` and `r2`, `reads` times.
pub open spec fn pass_call<A: Architecture>(arch: A, reads: usize, b: Seq<u8>, ps: Pass, call: HammerCall) -> bool {
    &&& call.before == filled(arch, filled(arch, filled(arch, b, ps.r1, ps.p), ps.v, !ps.p), ps.r2, ps.p)
    &&& call.a1 == arch.to_phys(ps.r1[0].start)
    &&& call.a2 == arch.to_phys(ps.r2[0].start)
    &&& call.reads == reads
}

/// Running `passes` in order on buffer `b0` made exactly the hammerings `calls` and
/// reported exactly `flips`: each pass that can hammer makes one call as `pass_call`
/// describes and reports the flips of its victims in the buffer that call left; a
/// pass that cannot hammer makes no call and reports nothing.
pub open spec fn run_ok<A: Architecture>(
    arch: A,
    reads: usize,
    passes: Seq<Pass>,
    b0: Seq<u8>,
    calls: Seq<HammerCall>,
    flips: Seq<Flip>,
) -> bool
    decreases passes.len(),
{
    if passes.len() == 0 {
        calls.len() == 0 && flips.len() == 0
    } else {
        let init = passes.drop_last();
        let ps = passes.last();
        if pass_ready(arch, ps, b0.len()) {
            &&& calls.len() > 0
            &&& {
                let m = calls.len() - 1;
                let prev = calls.subrange(0, m);
                let lf = ranges_flips(arch, calls[m].after, ps.v, !ps.p);
                &&& pass_call(arch, reads, last_buf(b0, prev), ps, calls[m])
                &&& flips.len() >= lf.len()
                &&& flips.subrange(flips.len() - lf.len(), flips.len() as int) == lf
                &&& run_ok(arch, reads, init, b0, prev, flips.subrange(0, flips.len() - lf.len()))
            }
        } else {
            run_ok(arch, reads, init, b0, calls, flips)
        }
    }
}

proof fn lemma_added_concat(c0: Seq<HammerCall>, c1: Seq<HammerCall>, c2: Seq<HammerCall>)
    requires
        extends(c0, c1),
        extends(c1, c2),
    ensures
        extends(c0, c2),
        added(c0, c2) == added(c0, c1) + added(c1, c2),
{
    assert forall|k: int| 0 <= k < c0.len() implies c2[k] == c0[k] by {
        assert(c2.subrange(0, c1.len() as int)[k] == c1[k]);
        assert(c1.subrange(0, c0.len() as int)[k] == c0[k]);
    }
    assert(c2.subrange(0, c0.len() as int) =~= c0);
    assert forall|k: int| 0 <= k < c1.len() - c0.len() implies added(c0, c2)[k] == added(c0, c1)[k] by {
        assert(c2.subrange(0, c1.len() as int)[k + c0.len()] == c1[k + c0.len()]);
    }
    assert(added(c0, c2) =~= added(c0, c1) + added(c1, c2));
}

proof fn lemma_run_append<A: Architecture>(
    arch: A,
    reads: usize,
    passes: Seq<Pass>,
    ps: Pass,
    b0: Seq<u8>,
    cs: Seq<HammerCall>,
    fs: Seq<Flip>,
    cs2: Seq<HammerCall>,
    fs2: Seq<Flip>,
)
    requires
        run_ok(arch, reads, passes, b0, cs, fs),
        run_ok(arch, reads, seq![ps], last_buf(b0, cs), cs2, fs2),
        last_buf(b0, cs).len() == b0.len(),
    ensures
        run_ok(arch, reads, passes.push(ps), b0, cs + cs2, fs + fs2),
        last_buf(b0, cs + cs2) == last_buf(last_buf(b0, cs), cs2),
{
    reveal_with_fuel(run_ok, 2);
    let all = passes.push(ps);
    assert(all.drop_last() == passes);
    assert(all.last() == ps);
    assert(seq![ps].drop_last() =~= Seq::<Pass>::empty());
    assert(seq![ps].last() == ps);
    if pass_ready(arch, ps, b0.len()) {
        let m2 = cs2.len() - 1;
        let lf = ranges_flips(arch, cs2[m2].after, ps.v, !ps.p);
        assert(cs2.subrange(0, m2).len() == 0);
        let cc = cs + cs2;
        let ff = fs + fs2;
        assert(fs2.subrange(0, fs2.len() - lf.len()).len() == 0);
        assert(fs2 =~= fs2.subrange(fs2.len() - lf.len(), fs2.len() as int));
        assert(cc.subrange(0, cc.len() - 1) =~= cs);
        assert(cc[cc.len() - 1] == cs2[m2]);
        assert(ff.subrange(ff.len() - lf.len(), ff.len() as int) =~= lf);
        assert(ff.subrange(0, ff.len() - lf.len()) =~= fs);
    } else {
        assert(cs2.len() == 0 && fs2.len() == 0);
        assert(cs + cs2 =~= cs);
        assert(fs + fs2 =~= fs);
    }
}

/// The pass of `profile_ranges` on these lists.
pub open spec fn pass_of(r1: Seq<DramRange>, r2: Seq<DramRange>, v: Seq<DramRange>, p: u8) -> Pass {
    Pass { r1, r2, v, p }
}

/// Fills aggressor ranges `r1` and `r2` with `p` and victim ranges `v` with `!p`,
/// hammers the first bytes of `r1` and `r2`, and reports every bit of `v` that no
/// longer holds `!p`. Where an aggressor is missing nothing is done.
pub fn profile_ranges<A: Architecture, P: HammerPort>(
    buf: &mut [u8],
    h: &mut Hammerer<P>,
    r1: &Vec<DramRange>,
    r2: &Vec<DramRange>,
    v: &Vec<DramRange>,
    p: u8,
    c: &Config<A>,
) -> (r: Vec<Flip>)
    ensures
        final(buf)@.len() == old(buf)@.len(),
        extends(old(h).calls(), final(h).calls()),
        run_ok(
            c.arch,
            c.reads_per_hammer,
            seq![pass_of(r1@, r2@, v@, p)],
            old(buf)@,
            added(old(h).calls(), final(h).calls()),
            r@,
        ),
        final(buf)@ == last_buf(old(buf)@, added(old(h).calls(), final(h).calls())),
        aggressors_ready(c.arch, r1@, r2@, old(buf)@.len()) ==> r@ == ranges_flips(
            c.arch,
            final(buf)@,
            v@,
            !p,
        ),
        !aggressors_ready(c.arch, r1@, r2@, old(buf)@.len()) ==> r@ == Seq::<Flip>::empty()
            && final(buf)@ == old(buf)@ && final(h).calls() == old(h).calls(),
{
    let ghost b0 = buf@;
    let ghost c0 = h.calls();
    let ghost ps = pass_of(r1@, r2@, v@, p);
    proof {
        reveal_with_fuel(run_ok, 2);
        assert(c0.subrange(0, c0.len() as int) =~= c0);
        assert(added(c0, c0) =~= Seq::<HammerCall>::empty());
        assert(seq![ps].drop_last() =~= Seq::<Pass>::empty());
        assert(seq![ps].last() == ps);
    }
    if r1.len() == 0 || r2.len() == 0 {
        return Vec::new();
    }
    let a1 = c.arch.dram_to_phys(&r1[0].start);
    let a2 = c.arch.dram_to_phys(&r2[0].start);
    if a1 >= buf.len() as u64 || a2 >= buf.len() as u64 {
        return Vec::new();
    }
    fill_ranges(buf, r1, p, c);
    fill_ranges(buf, v, !p, c);
    fill_ranges(buf, r2, p, c);
    h.hammer(buf, a1 as usize, a2 as usize, c.reads_per_hammer);
    let r = flips_in_ranges(buf, v, !p, c);
    proof {
        reveal_with_fuel(run_ok, 2);
        let cs = added(c0, h.calls());
        assert(cs =~= seq![h.calls().last()]);
        assert(h.calls().subrange(0, c0.len() as int) =~= c0);
        assert(cs.subrange(0, 0) =~= Seq::<HammerCall>::empty());
        assert(r@.subrange(0, 0) =~= Seq::<Flip>::empty());
        assert(r@.subrange(0, r@.len() as int) =~= r@);
    }
    r
}

/// Cell `da` has rows above and below it, and their cells lie in a buffer of `len`
/// bytes.
pub open spec fn neighbours_ready<A: Architecture>(arch: A, da: DramAddr, len: nat) -> bool {
    &&& !is_sentinel_row(da.row)
    &&& arch.to_phys(DramAddr { row: (da.row - 1) as u16, ..da }) < len
    &&& arch.to_phys(DramAddr { row: (da.row + 1) as u16, ..da }) < len
}

/// The pass of `profile_addr` on cell `da`: one byte in each neighbouring row as
/// aggressors, the cell's byte as victim.
pub open spec fn addr_pass(da: DramAddr, p: u8) -> Pass {
    pass_of(
        seq![DramRange { start: DramAddr { row: (da.row - 1) as u16, ..da }, bytes: 1 }],
        seq![DramRange { start: DramAddr { row: (da.row + 1) as u16, ..da }, bytes: 1 }],
        seq![DramRange { start: da, bytes: 1 }],
        p,
    )
}

/// Targets the single cell `da`: fills its neighbours above and below with `p` and the
/// cell's byte with `!p`, hammers the neighbours, and reports the bits of that byte
/// that flipped. A cell in a sentinel row has no neighbours: nothing is done.
pub fn profile_addr<A: Architecture, P: HammerPort>(
    buf: &mut [u8],
    h: &mut Hammerer<P>,
    da: &DramAddr,
    p: u8,
    c: &Config<A>,
) -> (r: Vec<Flip>)
    ensures
        final(buf)@.len() == old(buf)@.len(),
        extends(old(h).calls(), final(h).calls()),
        !is_sentinel_row(da.row) ==> run_ok(
            c.arch,
            c.reads_per_hammer,
            seq![addr_pass(*da, p)],
            old(buf)@,
            added(old(h).calls(), final(h).calls()),
            r@,
        ) && final(buf)@ == last_buf(old(buf)@, added(old(h).calls(), final(h).calls())),
        neighbours_ready(c.arch, *da, old(buf)@.len()) ==> r@ == ranges_flips(
            c.arch,
            final(buf)@,
            seq![DramRange { start: *da, bytes: 1 }],
            !p,
        ),
        !neighbours_ready(c.arch, *da, old(buf)@.len()) ==> r@ == Seq::<Flip>::empty()
            && final(buf)@ == old(buf)@ && final(h).calls() == old(h).calls(),
{
    if da.row == 0 || da.row == 0xffff {
        proof {
            assert(h.calls().subrange(0, h.calls().len() as int) =~= h.calls());
        }
        return Vec::new();
    }
    let da_above = da.row_above();
    let da_below = da.row_below();
    let row_above = byte_range(&da_above);
    let row_below = byte_range(&da_below);
    let row = byte_range(da);
    profile_ranges(buf, h, &row_above, &row_below, &row, p, c)
}

/// The row of byte `o` of range `r`.
pub open spec fn byte_row<A: Architecture>(arch: A, r: DramRange, o: int) -> DramAddr {
    row_key(arch.to_dram((arch.to_phys(r.start) + o) as PhysAddr))
}

/// Every range of the index holds only bytes of its own row.
pub open spec fn ranges_stay_in_rows<A: Architecture>(arch: A, rows: Seq<RowRanges>) -> bool {
    forall|i: int, j: int, o: int|
        0 <= i < rows.len() && 0 <= j < rows[i].ranges@.len() && 0 <= o < rows[i].ranges@[j].bytes
            ==> #[trigger] byte_row(arch, rows[i].ranges@[j], o) == rows[i].key
}

/// A flip of the ranges of entry `i` lies in that entry's row.
proof fn lemma_flips_in_entry<A: Architecture>(
    arch: A,
    rows: Seq<RowRanges>,
    i: int,
    buf: Seq<u8>,
    expected: u8,
)
    requires
        0 <= i < rows.len(),
        ranges_stay_in_rows(arch, rows),
    ensures
        forall|k: int|
            0 <= k < ranges_flips(arch, buf, rows[i].ranges@, expected).len() ==> (#[trigger] ranges_flips(
                arch,
                buf,
                rows[i].ranges@,
                expected,
            )[k]).pos.row == rows[i].key.row,
{
    let vs = rows[i].ranges@;
    lemma_ranges_flips(arch, buf, vs, expected);
    assert forall|k: int| 0 <= k < ranges_flips(arch, buf, vs, expected).len() implies (#[trigger] ranges_flips(
        arch,
        buf,
        vs,
        expected,
    )[k]).pos.row == rows[i].key.row by {
        let f = ranges_flips(arch, buf, vs, expected)[k];
        assert(flip_of_ranges(arch, vs, expected, f));
        let (n, o) = choose|n: int, o: int| 0 <= n < vs.len() && #[trigger] flip_in_range(arch, vs[n], f, o);
        assert(byte_row(arch, rows[i].ranges@[n], o) == rows[i].key);
    }
}

/// Flip `f` was found in some entry of the index: a templated (not sentinel) row, in a
/// byte of one of its ranges, leaking away from one of the two victim fills.
pub open spec fn templated_flip<A: Architecture>(arch: A, rows: Seq<RowRanges>, f: Flip) -> bool {
    exists|i: int|
        0 <= i < rows.len() && !is_sentinel_row(rows[i].key.row) && entry_above(rows, rows[i]).len()
            > 0 && entry_below(rows, rows[i]).len() > 0 && (#[trigger] flip_of_ranges(
            arch,
            rows[i].ranges@,
            0xff,
            f,
        ) || flip_of_ranges(arch, rows[i].ranges@, 0x00, f))
}

/// The ranges of the row above entry `e`.
pub open spec fn entry_above(rows: Seq<RowRanges>, e: RowRanges) -> Seq<DramRange> {
    lookup(rows, row_key(DramAddr { row: (e.key.row - 1) as u16, ..e.key }))
}

/// The ranges of the row below entry `e`.
pub open spec fn entry_below(rows: Seq<RowRanges>, e: RowRanges) -> Seq<DramRange> {
    lookup(rows, row_key(DramAddr { row: (e.key.row + 1) as u16, ..e.key }))
}

/// The passes that templating runs for entry `e`: none for a sentinel row, else the
/// row between its neighbours at 0x00, then at 0xFF.
pub open spec fn entry_passes(rows: Seq<RowRanges>, e: RowRanges) -> Seq<Pass> {
    if is_sentinel_row(e.key.row) {
        seq![]
    } else {
        seq![
            pass_of(entry_above(rows, e), entry_below(rows, e), e.ranges@, 0x00),
            pass_of(entry_above(rows, e), entry_below(rows, e), e.ranges@, 0xff),
        ]
    }
}

/// The passes of the first `n` entries of the index, in index order.
pub open spec fn template_passes(rows: Seq<RowRanges>, n: nat) -> Seq<Pass>
    decreases n,
{
    if n == 0 || n > rows.len() {
        seq![]
    } else {
        template_passes(rows, (n - 1) as nat) + entry_passes(rows, rows[n - 1])
    }
}

proof fn lemma_flips_in_rows_if<A: Architecture>(
    arch: A,
    rows: Seq<RowRanges>,
    i: int,
    buf: Seq<u8>,
    expected: u8,
)
    requires
        0 <= i < rows.len(),
    ensures
        ranges_stay_in_rows(arch, rows) ==> forall|k: int|
            0 <= k < ranges_flips(arch, buf, rows[i].ranges@, expected).len() ==> (#[trigger] ranges_flips(
                arch,
                buf,
                rows[i].ranges@,
                expected,
            )[k]).pos.row == rows[i].key.row,
{
    if ranges_stay_in_rows(arch, rows) {
        lemma_flips_in_entry(arch, rows, i, buf, expected);
    }
}

/// Templates every row of the buffer that has rows above and below it: for each entry
/// of the index in order, a row other than 0 and 0xFFFF is profiled between the ranges
/// of its neighbouring rows, once with aggressors at 0x00 (victim at 0xFF) and then
/// with aggressors at 0xFF (victim at 0x00); the result is the flips of those passes
/// in order. Every flip reported lies in a byte of a templated row whose neighbours
/// have ranges; where every range of the index holds only bytes of its own row, no
/// flip is reported in a sentinel row.
pub fn template_2mb_contig<A: Architecture, P: HammerPort>(
    mem: &MemMap,
    buf: &mut [u8],
    h: &mut Hammerer<P>,
    c: &Config<A>,
) -> (r: Vec<Flip>)
    requires
        mem.wf(),
    ensures
        final(buf)@.len() == old(buf)@.len(),
        extends(old(h).calls(), final(h).calls()),
        run_ok(
            c.arch,
            c.reads_per_hammer,
            template_passes(mem.index(), mem.index().len()),
            old(buf)@,
            added(old(h).calls(), final(h).calls()),
            r@,
        ),
        final(buf)@ == last_buf(old(buf)@, added(old(h).calls(), final(h).calls())),
        forall|k: int| 0 <= k < r@.len() ==> templated_flip(c.arch, mem.index(), #[trigger] r@[k]),
        ranges_stay_in_rows(c.arch, mem.index()) ==> forall|k: int|
            0 <= k < r@.len() ==> !is_sentinel_row((#[trigger] r@[k]).pos.row),
{
    let ghost b0 = buf@;
    let ghost c0 = h.calls();
    let mut flips: Vec<Flip> = Vec::new();
    let rows = mem.get_ranges();
    let mut i: usize = 0;
    proof {
        assert(c0.subrange(0, c0.len() as int) =~= c0);
        assert(added(c0, c0) =~= Seq::<HammerCall>::empty());
    }
    while i < rows.len()
        invariant
            rows@ == mem.index(),
            mem.wf(),
            i <= rows@.len(),
            buf@.len() == b0.len(),
            b0 == old(buf)@,
            c0 == old(h).calls(),
            extends(c0, h.calls()),
            run_ok(c.arch, c.reads_per_hammer, template_passes(rows@, i as nat), b0, added(c0, h.calls()), flips@),
            buf@ == last_buf(b0, added(c0, h.calls())),
            forall|k: int| 0 <= k < flips@.len() ==> templated_flip(c.arch, rows@, #[trigger] flips@[k]),
            ranges_stay_in_rows(c.arch, rows@) ==> forall|k: int|
                0 <= k < flips@.len() ==> !is_sentinel_row((#[trigger] flips@[k]).pos.row),
        decreases rows@.len() - i,
    {
        let da = rows[i].key;
        let ghost e = rows@[i as int];
        let ghost passes = template_passes(rows@, i as nat);
        assert(template_passes(rows@, (i + 1) as nat) == passes + entry_passes(rows@, e));
        if da.row != 0 && da.row != 0xffff {
            let row_above = mem.same_row_ranges(&da.row_above());
            let row_below = mem.same_row_ranges(&da.row_below());
            let ghost v = rows@[i as int].ranges@;
            assert(row_above@ == entry_above(rows@, e));
            assert(row_below@ == entry_below(rows@, e));
            let ghost cs0 = added(c0, h.calls());
            let ghost c1 = h.calls();
            let ghost fl0 = flips@;
            let mut flips_low = profile_ranges(buf, h, &row_above, &row_below, &rows[i].ranges, 0x00, c);
            let ghost low = flips_low@;
            let ghost buf_low = buf@;
            let ghost c2 = h.calls();
            proof {
                assert(!0x00u8 == 0xffu8 && !0xffu8 == 0x00u8) by (bit_vector);
                lemma_added_concat(c0, c1, c2);
                lemma_run_append(c.arch, c.reads_per_hammer, passes, pass_of(row_above@, row_below@, v, 0x00), b0, cs0, fl0, added(c1, c2), low);
                lemma_ranges_flips(c.arch, buf_low, v, 0xff);
                lemma_flips_in_rows_if(c.arch, rows@, i as int, buf_low, 0xff);
                assert forall|j: int| 0 <= j < low.len() implies flip_of_ranges(c.arch, v, 0xff, #[trigger] low[j])
                    && (ranges_stay_in_rows(c.arch, rows@) ==> low[j].pos.row == rows@[i as int].key.row)
                    && row_above@.len() > 0 && row_below@.len() > 0 by {
                    assert(low[j] == ranges_flips(c.arch, buf_low, v, 0xff)[j]);
                }
            }
            let mut flips_high = profile_ranges(buf, h, &row_above, &row_below, &rows[i].ranges, 0xff, c);
            let ghost high = flips_high@;
            let ghost c3 = h.calls();
            proof {
                lemma_added_concat(c0, c2, c3);
                lemma_run_append(c.arch, c.reads_per_hammer, passes.push(pass_of(row_above@, row_below@, v, 0x00)), pass_of(row_above@, row_below@, v, 0xff), b0, added(c0, c2), fl0 + low, added(c2, c3), high);
                assert(passes.push(pass_of(row_above@, row_below@, v, 0x00)).push(pass_of(row_above@, row_below@, v, 0xff)) =~= passes + entry_passes(rows@, e));
                lemma_ranges_flips(c.arch, buf@, v, 0x00);
                lemma_flips_in_rows_if(c.arch, rows@, i as int, buf@, 0x00);
                assert forall|j: int| 0 <= j < high.len() implies flip_of_ranges(c.arch, v, 0x00, #[trigger] high[j])
                    && (ranges_stay_in_rows(c.arch, rows@) ==> high[j].pos.row == rows@[i as int].key.row)
                    && row_above@.len() > 0 && row_below@.len() > 0 by {
                    assert(high[j] == ranges_flips(c.arch, buf@, v, 0x00)[j]);
                }
            }
            flips.append(&mut flips_low);
            flips.append(&mut flips_high);
            proof {
                assert(flips@ =~= fl0 + low + high);
                assert(!is_sentinel_row(rows@[i as int].key.row));
                assert forall|k: int| 0 <= k < flips@.len() implies templated_flip(
                    c.arch,
                    rows@,
                    #[trigger] flips@[k],
                ) && (ranges_stay_in_rows(c.arch, rows@) ==> !is_sentinel_row(flips@[k].pos.row)) by {
                    if k < fl0.len() {
                        assert(flips@[k] == fl0[k]);
                    } else if k < fl0.len() + low.len() {
                        assert(flips@[k] == low[k - fl0.len()]);
                        assert(flip_of_ranges(c.arch, rows@[i as int].ranges@, 0xff, flips@[k]));
                        assert(entry_above(rows@, rows@[i as int]).len() > 0);
                        assert(entry_below(rows@, rows@[i as int]).len() > 0);
                    } else {
                        assert(flips@[k] == high[k - fl0.len() - low.len()]);
                        assert(flip_of_ranges(c.arch, rows@[i as int].ranges@, 0x00, flips@[k]));
                        assert(entry_above(rows@, rows@[i as int]).len() > 0);
                        assert(entry_below(rows@, rows@[i as int]).len() > 0);
                    }
                }
            }
        } else {
            assert(passes + entry_passes(rows@, e) =~= passes);
        }
        i = i + 1;
    }
    flips
}

/// Flip `f` names a bit of the byte that holds cell `da`.
pub open spec fn flip_at_cell<A: Architecture>(arch: A, da: DramAddr, f: Flip) -> bool {
    &&& f.pos == DramAddr { bit: f.pos.bit, ..arch.to_dram(arch.to_phys(da)) }
    &&& f.pos.bit < 8
}

proof fn lemma_cell_flips<A: Architecture>(arch: A, buf: Seq<u8>, da: DramAddr, expected: u8)
    ensures
        forall|k: int|
            0 <= k < ranges_flips(arch, buf, seq![DramRange { start: da, bytes: 1 }], expected).len()
                ==> flip_at_cell(
                arch,
                da,
                #[trigger] ranges_flips(arch, buf, seq![DramRange { start: da, bytes: 1 }], expected)[k],
            ),
{
    let v = seq![DramRange { start: da, bytes: 1 }];
    lemma_ranges_flips(arch, buf, v, expected);
    assert forall|k: int| 0 <= k < ranges_flips(arch, buf, v, expected).len() implies flip_at_cell(
        arch,
        da,
        #[trigger] ranges_flips(arch, buf, v, expected)[k],
    ) by {
        let f = ranges_flips(arch, buf, v, expected)[k];
        assert(flip_of_ranges(arch, v, expected, f));
        let (n, o) = choose|n: int, o: int| 0 <= n < v.len() && #[trigger] flip_in_range(arch, v[n], f, o);
        assert(n == 0 && o == 0);
    }
}

/// Profiles the single cell `da` with both patterns: aggressors at 0x00, then at 0xFF;
/// the result is the flips of the first pass followed by those of the second.
pub fn template_dram_addr<A: Architecture, P: HammerPort>(
    buf: &mut [u8],
    h: &mut Hammerer<P>,
    da: &DramAddr,
    c: &Config<A>,
) -> (r: Vec<Flip>)
    requires
        !is_sentinel_row(da.row),
    ensures
        final(buf)@.len() == old(buf)@.len(),
        extends(old(h).calls(), final(h).calls()),
        run_ok(
            c.arch,
            c.reads_per_hammer,
            seq![addr_pass(*da, 0x00), addr_pass(*da, 0xff)],
            old(buf)@,
            added(old(h).calls(), final(h).calls()),
            r@,
        ),
        final(buf)@ == last_buf(old(buf)@, added(old(h).calls(), final(h).calls())),
        forall|k: int| 0 <= k < r@.len() ==> flip_at_cell(c.arch, *da, #[trigger] r@[k]),
{
    let ghost v = seq![DramRange { start: *da, bytes: 1 }];
    let ghost b0 = buf@;
    let ghost c0 = h.calls();
    let mut flips = profile_addr(buf, h, da, 0x00, c);
    let ghost low = flips@;
    let ghost c1 = h.calls();
    proof {
        lemma_cell_flips(c.arch, buf@, *da, !0x00u8);
    }
    let mut high = profile_addr(buf, h, da, 0xff, c);
    let ghost hi = high@;
    let ghost c2 = h.calls();
    proof {
        lemma_cell_flips(c.arch, buf@, *da, !0xffu8);
        lemma_added_concat(c0, c1, c2);
        lemma_run_append(c.arch, c.reads_per_hammer, seq![addr_pass(*da, 0x00)], addr_pass(*da, 0xff), b0, added(c0, c1), low, added(c1, c2), hi);
        assert(seq![addr_pass(*da, 0x00)].push(addr_pass(*da, 0xff)) =~= seq![addr_pass(*da, 0x00), addr_pass(*da, 0xff)]);
    }
    flips.append(&mut high);
    proof {
        assert(flips@ =~= low + hi);
        assert forall|k: int| 0 <= k < flips@.len() implies flip_at_cell(c.arch, *da, #[trigger] flips@[k]) by {
            if k < low.len() {
                assert(flips@[k] == low[k]);
            } else {
                assert(flips@[k] == hi[k - low.len()]);
            }
        }
    }
    flips
}

/// Flip direction: every flip reported after the victim bytes were filled with `!p`
/// leaks away from the bit of `!p`. With aggressors at 0x00 (victims at 0xFF) every
/// flip is 1 to 0; with aggressors at 0xFF (victims at 0x00) every flip is 0 to 1.
pub proof fn lemma_flip_direction<A: Architecture>(arch: A, buf: Seq<u8>, vs: Seq<DramRange>, p: u8)
    ensures
        forall|k: int|
            0 <= k < ranges_flips(arch, buf, vs, !p).len() ==> {
                let f = #[trigger] ranges_flips(arch, buf, vs, !p)[k];
                &&& f.dir == dir_from(!p, f.pos.bit)
                &&& p == 0 ==> f.dir == Direction::From1To0
                &&& p == 0xff ==> f.dir == Direction::From0To1
            },
{
    lemma_ranges_flips(arch, buf, vs, !p);
    assert forall|b: u8| b < 8 implies bit_is_set(!0u8, b) && !bit_is_set(!0xffu8, b) by {
        assert(((!0u8) >> b) & 1 == 1 && ((!0xffu8) >> b) & 1 != 1) by (bit_vector)
            requires
                b < 8,
        ;
    }
    assert forall|k: int| 0 <= k < ranges_flips(arch, buf, vs, !p).len() implies {
        let f = #[trigger] ranges_flips(arch, buf, vs, !p)[k];
        &&& f.dir == dir_from(!p, f.pos.bit)
        &&& p == 0 ==> f.dir == Direction::From1To0
        &&& p == 0xff ==> f.dir == Direction::From0To1
    } by {
        let f = ranges_flips(arch, buf, vs, !p)[k];
        assert(flip_of_ranges(arch, vs, !p, f));
    }
}

/// Number of rounds of each fill configuration when characterising a flip.
pub const STAT_TRIALS: usize = 20;

/// Cell `da` can be hammered on its own: it has both neighbours, and the three cells
/// lie in a buffer of `len` bytes.
pub open spec fn bit_ready<A: Architecture>(arch: A, da: DramAddr, len: nat) -> bool {
    neighbours_ready(arch, da, len) && arch.to_phys(da) < len
}

/// `call` is the hammering of `hammer_bit` on buffer `b`: it was handed `b` with
/// `pat_above` written at the cell above `da`, then `pat_victim` at `da`, then
/// `pat_below` at the cell below, and it hammered the cells above and below, `reads`
/// times.
pub open spec fn bit_call<A: Architecture>(
    arch: A,
    reads: usize,
    b: Seq<u8>,
    da: DramAddr,
    pat_above: u8,
    pat_victim: u8,
    pat_below: u8,
    call: HammerCall,
) -> bool {
    let a1 = arch.to_phys(DramAddr { row: (da.row - 1) as u16, ..da });
    let a2 = arch.to_phys(DramAddr { row: (da.row + 1) as u16, ..da });
    let v = arch.to_phys(da);
    &&& call.before == b.update(a1 as int, pat_above).update(v as int, pat_victim).update(
        a2 as int,
        pat_below,
    )
    &&& call.a1 == a1
    &&& call.a2 == a2
    &&& call.reads == reads
}

/// Fills the cell above `da` with `pat_above`, the cell itself with `pat_victim` and
/// the cell below with `pat_below`, hammers the cells above and below, and tells
/// whether the victim byte changed. `None`, with nothing written or hammered, where
/// the cell has no neighbour on a side or one of the three cells lies outside `buf`.
pub fn hammer_bit<A: Architecture, P: HammerPort>(
    buf: &mut [u8],
    h: &mut Hammerer<P>,
    da: &DramAddr,
    pat_above: u8,
    pat_victim: u8,
    pat_below: u8,
    c: &Config<A>,
) -> (r: Option<bool>)
    ensures
        final(buf)@.len() == old(buf)@.len(),
        r is Some <==> bit_ready(c.arch, *da, old(buf)@.len()),
        r is None ==> final(buf)@ == old(buf)@ && final(h).calls() == old(h).calls(),
        r matches Some(changed) ==> {
            &&& final(h).calls() == old(h).calls().push(final(h).calls().last())
            &&& bit_call(
                c.arch,
                c.reads_per_hammer,
                old(buf)@,
                *da,
                pat_above,
                pat_victim,
                pat_below,
                final(h).calls().last(),
            )
            &&& final(h).calls().last().after == final(buf)@
            &&& changed == (final(buf)@[c.arch.to_phys(*da) as int] != pat_victim)
        },
{
    if da.row == 0 || da.row == 0xffff {
        return None;
    }
    let a1 = c.arch.dram_to_phys(&da.row_above());
    let a2 = c.arch.dram_to_phys(&da.row_below());
    let v = c.arch.dram_to_phys(da);
    let len = buf.len() as u64;
    if a1 >= len || a2 >= len || v >= len {
        return None;
    }
    buf[a1 as usize] = pat_above;
    buf[v as usize] = pat_victim;
    buf[a2 as usize] = pat_below;
    h.hammer(buf, a1 as usize, a2 as usize, c.reads_per_hammer);
    Some(buf[v as usize] != pat_victim)
}

/// The fills above, at and below the cell in configuration `j` of the statistics:
/// complement below only, complement on both sides (striped), no complement
/// (uniform), complement above only.
pub open spec fn stat_fills(from: u8, to: u8, j: int) -> (u8, u8, u8) {
    if j == 0 {
        (from, from, to)
    } else if j == 1 {
        (to, from, to)
    } else if j == 2 {
        (from, from, from)
    } else {
        (to, from, from)
    }
}

/// Of the first `n` rounds of four calls, how many left the byte at `v` other than
/// `from` after the call of configuration `j`.
pub open spec fn fired(calls: Seq<HammerCall>, j: int, v: int, from: u8, n: nat) -> nat
    decreases n,
{
    if n == 0 {
        0
    } else {
        fired(calls, j, v, from, (n - 1) as nat) + if calls[4 * (n - 1) + j].after[v] != from {
            1nat
        } else {
            0nat
        }
    }
}

proof fn lemma_fired_prefix(c1: Seq<HammerCall>, c2: Seq<HammerCall>, j: int, v: int, from: u8, n: nat)
    requires
        0 <= j < 4,
        c1.len() >= 4 * n,
        c2.len() >= 4 * n,
        forall|k: int| 0 <= k < 4 * n ==> c1[k] == c2[k],
    ensures
        fired(c1, j, v, from, n) == fired(c2, j, v, from, n),
        fired(c1, j, v, from, n) <= n,
    decreases n,
{
    if n > 0 {
        lemma_fired_prefix(c1, c2, j, v, from, (n - 1) as nat);
        assert(c1[4 * (n - 1) + j] == c2[4 * (n - 1) + j]);
    }
}

/// `call` is the hammering of configuration `j` of the statistics on buffer `b`.
#[verifier::opaque]
pub open spec fn stat_call<A: Architecture>(
    arch: A,
    reads: usize,
    b: Seq<u8>,
    pos: DramAddr,
    from: u8,
    to: u8,
    j: int,
    call: HammerCall,
) -> bool {
    let f = stat_fills(from, to, j);
    bit_call(arch, reads, b, pos, f.0, f.1, f.2, call)
}

/// The calls of `create_stats` on the flip at `pos` starting from buffer `b0`: round
/// after round, the four configurations in order, each as `bit_call` describes on the
/// buffer the previous call left.
pub open spec fn stat_calls<A: Architecture>(
    arch: A,
    reads: usize,
    b0: Seq<u8>,
    pos: DramAddr,
    from: u8,
    to: u8,
    calls: Seq<HammerCall>,
) -> bool {
    forall|k: int|
        0 <= k < calls.len() ==> stat_call(
            arch,
            reads,
            last_buf(b0, calls.subrange(0, k)),
            pos,
            from,
            to,
            k % 4,
            #[trigger] calls[k],
        )
}

proof fn lemma_stat_round<A: Architecture>(
    arch: A,
    reads: usize,
    b0: Seq<u8>,
    pos: DramAddr,
    from: u8,
    to: u8,
    start: Seq<HammerCall>,
    x: Seq<HammerCall>,
    i: nat,
)
    requires
        start.len() == 4 * i,
        x.len() == 4,
        stat_calls(arch, reads, b0, pos, from, to, start),
        stat_call(arch, reads, last_buf(b0, start), pos, from, to, 0, x[0]),
        stat_call(arch, reads, x[0].after, pos, from, to, 1, x[1]),
        stat_call(arch, reads, x[1].after, pos, from, to, 2, x[2]),
        stat_call(arch, reads, x[2].after, pos, from, to, 3, x[3]),
    ensures
        stat_calls(arch, reads, b0, pos, from, to, start + x),
{
    let new = start + x;
    assert forall|k: int| 0 <= k < new.len() implies stat_call(
        arch,
        reads,
        last_buf(b0, new.subrange(0, k)),
        pos,
        from,
        to,
        k % 4,
        #[trigger] new[k],
    ) by {
        if k < start.len() {
            assert(new[k] == start[k]);
            assert(new.subrange(0, k) =~= start.subrange(0, k));
        } else {
            let j = k - start.len();
            assert(new[k] == x[j]);
            assert((4 * i + j) % 4 == j) by (nonlinear_arith)
                requires
                    0 <= j < 4,
            ;
            if j == 0 {
                assert(new.subrange(0, k) =~= start);
            } else {
                assert(new.subrange(0, k).last() == x[j - 1]);
            }
        }
    }
}

proof fn lemma_fired_round(start: Seq<HammerCall>, x: Seq<HammerCall>, j: int, v: int, from: u8, i: nat)
    requires
        start.len() == 4 * i,
        x.len() == 4,
        0 <= j < 4,
    ensures
        fired(start + x, j, v, from, i + 1) == fired(start, j, v, from, i) + if x[j].after[v] != from {
            1nat
        } else {
            0nat
        },
{
    let new = start + x;
    lemma_fired_prefix(start, new, j, v, from, i);
    assert(new[4 * i + j] == x[j]);
}

/// Characterises `flip` by how often it fires under four fills of its neighbours,
/// `STAT_TRIALS` rounds each: complement below only, complement on both sides
/// (striped), no complement (uniform), and complement above only. Each count is the
/// number of rounds whose hammering of that configuration left the cell's byte other
/// than its starting fill. Where the cell cannot be hammered nothing is done and every
/// count is 0.
#[verifier::rlimit(100)]
pub fn create_stats<A: Architecture, P: HammerPort>(
    buf: &mut [u8],
    h: &mut Hammerer<P>,
    flip: &mut Flip,
    c: &Config<A>,
)
    ensures
        final(buf)@.len() == old(buf)@.len(),
        final(flip).dir == old(flip).dir,
        final(flip).pos == old(flip).pos,
        final(flip).stats.trials == STAT_TRIALS,
        extends(old(h).calls(), final(h).calls()),
        ({
            let from = spec_id_fill(old(flip).dir);
            let to = spec_compl_fill(old(flip).dir);
            let v = c.arch.to_phys(old(flip).pos) as int;
            let new = added(old(h).calls(), final(h).calls());
            let st = final(flip).stats;
            if bit_ready(c.arch, old(flip).pos, old(buf)@.len()) {
                &&& new.len() == 4 * STAT_TRIALS
                &&& stat_calls(c.arch, c.reads_per_hammer, old(buf)@, old(flip).pos, from, to, new)
                &&& final(buf)@ == last_buf(old(buf)@, new)
                &&& st.below_complement == fired(new, 0, v, from, STAT_TRIALS as nat)
                &&& st.striped_complement == fired(new, 1, v, from, STAT_TRIALS as nat)
                &&& st.uniform == fired(new, 2, v, from, STAT_TRIALS as nat)
                &&& st.above_complement == fired(new, 3, v, from, STAT_TRIALS as nat)
            } else {
                &&& new.len() == 0
                &&& final(buf)@ == old(buf)@
                &&& st == FlipStats {
                    trials: STAT_TRIALS,
                    striped_complement: 0,
                    above_complement: 0,
                    below_complement: 0,
                    uniform: 0,
                }
            }
        }),
{
    let ghost b0 = buf@;
    let ghost c0 = h.calls();
    proof {
        assert(c0.subrange(0, c0.len() as int) =~= c0);
        assert(added(c0, c0) =~= Seq::<HammerCall>::empty());
    }
    let to = compl_fill(flip.dir);
    let from = id_fill(flip.dir);
    let pos = flip.pos;
    let mut striped_flips: usize = 0;
    let mut uniform_flips: usize = 0;
    let mut above_flips: usize = 0;
    let mut below_flips: usize = 0;
    let ready = pos.row != 0 && pos.row != 0xffff && c.arch.dram_to_phys(&pos) < buf.len() as u64
        && c.arch.dram_to_phys(&pos.row_above()) < buf.len() as u64 && c.arch.dram_to_phys(
        &pos.row_below(),
    ) < buf.len() as u64;
    if ready {
        let ghost v = c.arch.to_phys(pos) as int;
        let mut i: usize = 0;
        while i < STAT_TRIALS
            invariant
                bit_ready(c.arch, pos, b0.len()),
                pos == old(flip).pos,
                from == spec_id_fill(old(flip).dir),
                to == spec_compl_fill(old(flip).dir),
                v == c.arch.to_phys(pos) as int,
                b0 == old(buf)@,
                c0 == old(h).calls(),
                i <= STAT_TRIALS,
                buf@.len() == b0.len(),
                extends(c0, h.calls()),
                added(c0, h.calls()).len() == 4 * i,
                stat_calls(c.arch, c.reads_per_hammer, b0, pos, from, to, added(c0, h.calls())),
                buf@ == last_buf(b0, added(c0, h.calls())),
                below_flips == fired(added(c0, h.calls()), 0, v, from, i as nat),
                striped_flips == fired(added(c0, h.calls()), 1, v, from, i as nat),
                uniform_flips == fired(added(c0, h.calls()), 2, v, from, i as nat),
                above_flips == fired(added(c0, h.calls()), 3, v, from, i as nat),
                below_flips <= i && striped_flips <= i && uniform_flips <= i && above_flips <= i,
            decreases STAT_TRIALS - i,
        {
            let ghost start = added(c0, h.calls());
            let ghost cstart = h.calls();
            let r0 = hammer_bit(buf, h, &pos, from, from, to, c);
            let ghost ca = h.calls();
            let r1 = hammer_bit(buf, h, &pos, to, from, to, c);
            let ghost cb = h.calls();
            let r2 = hammer_bit(buf, h, &pos, from, from, from, c);
            let ghost cc = h.calls();
            let r3 = hammer_bit(buf, h, &pos, to, from, from, c);
            let ghost x = seq![ca.last(), cb.last(), cc.last(), h.calls().last()];
            proof {
                assert(h.calls() =~= cstart + x);
                assert(h.calls().subrange(0, c0.len() as int) =~= c0);
                assert(added(c0, h.calls()) =~= start + x);
                assert(x[0] == ca.last() && x[1] == cb.last() && x[2] == cc.last());
                reveal(stat_call);
                assert(stat_call(c.arch, c.reads_per_hammer, last_buf(b0, start), pos, from, to, 0, x[0]));
                assert(stat_call(c.arch, c.reads_per_hammer, x[0].after, pos, from, to, 1, x[1]));
                assert(stat_call(c.arch, c.reads_per_hammer, x[1].after, pos, from, to, 2, x[2]));
                assert(stat_call(c.arch, c.reads_per_hammer, x[2].after, pos, from, to, 3, x[3]));
                lemma_stat_round(c.arch, c.reads_per_hammer, b0, pos, from, to, start, x, i as nat);
                lemma_fired_round(start, x, 0, v, from, i as nat);
                lemma_fired_round(start, x, 1, v, from, i as nat);
                lemma_fired_round(start, x, 2, v, from, i as nat);
                lemma_fired_round(start, x, 3, v, from, i as nat);
            }
            if r0 == Some(true) {
                below_flips = below_flips + 1;
            }
            if r1 == Some(true) {
                striped_flips = striped_flips + 1;
            }
            if r2 == Some(true) {
                uniform_flips = uniform_flips + 1;
            }
            if r3 == Some(true) {
                above_flips = above_flips + 1;
            }
            i = i + 1;
        }
    }
    flip.stats = FlipStats {
        trials: STAT_TRIALS,
        striped_complement: striped_flips,
        above_complement: above_flips,
        below_complement: below_flips,
        uniform: uniform_flips,
    };
}

proof fn lemma_scan_clean<A: Architecture>(arch: A, buf: Seq<u8>, base: int, expected: u8, n: nat)
    requires
        0 <= base,
        base + n <= buf.len(),
        forall|o: int| base <= o < base + n ==> #[trigger] buf[o] == expected,
    ensures
        scan_upto(arch, buf, base, expected, n) == Seq::<Flip>::empty(),
    decreases n,
{
    if n > 0 {
        lemma_scan_clean(arch, buf, base, expected, (n - 1) as nat);
        let da = arch.to_dram((base + n - 1) as PhysAddr);
        lemma_flips_below(da, expected, buf[base + n - 1], 8);
        assert(scan_upto(arch, buf, base, expected, n) =~= Seq::<Flip>::empty());
    }
}

proof fn lemma_ranges_clean<A: Architecture>(arch: A, buf: Seq<u8>, vs: Seq<DramRange>, expected: u8)
    requires
        forall|n: int, o: int|
            0 <= n < vs.len() && in_buffer(arch, vs[n], buf.len()) && #[trigger] span_holds(arch, vs[n], o)
                ==> buf[o] == expected,
    ensures
        ranges_flips(arch, buf, vs, expected) == Seq::<Flip>::empty(),
    decreases vs.len(),
{
    if vs.len() > 0 {
        let init = vs.drop_last();
        assert forall|n: int, o: int|
            0 <= n < init.len() && in_buffer(arch, init[n], buf.len()) && #[trigger] span_holds(arch, init[n], o)
                implies buf[o] == expected by {
            assert(init[n] == vs[n]);
        }
        lemma_ranges_clean(arch, buf, init, expected);
        let v = vs.last();
        if in_buffer(arch, v, buf.len()) {
            let base = arch.to_phys(v.start) as int;
            assert forall|o: int| base <= o < base + v.bytes implies #[trigger] buf[o] == expected by {
                assert(span_holds(arch, vs[vs.len() - 1], o));
            }
            lemma_scan_clean(arch, buf, base, expected, v.bytes as nat);
        }
        assert(ranges_flips(arch, buf, vs, expected) =~= Seq::<Flip>::empty());
    }
}

/// No byte of a victim range of `ps` is also a byte of a range of its second
/// aggressor list, the one filled last.
pub open spec fn victims_apart<A: Architecture>(arch: A, ps: Pass) -> bool {
    forall|n: int, m: int, o: int|
        0 <= n < ps.v.len() && 0 <= m < ps.r2.len() ==> !(#[trigger] span_holds(arch, ps.v[n], o)
            && #[trigger] span_holds(arch, ps.r2[m], o))
}

/// No flip without leakage: a run of passes whose hammerings each left the buffer as
/// they were handed it (as on DRAM that refreshes between accesses) reports no flip,
/// provided no pass's victims share a byte with its second aggressor list.
pub proof fn lemma_refreshing_run<A: Architecture>(
    arch: A,
    reads: usize,
    passes: Seq<Pass>,
    b0: Seq<u8>,
    calls: Seq<HammerCall>,
    flips: Seq<Flip>,
)
    requires
        run_ok(arch, reads, passes, b0, calls, flips),
        forall|k: int| 0 <= k < calls.len() ==> (#[trigger] calls[k]).after == calls[k].before,
        forall|i: int| 0 <= i < passes.len() ==> victims_apart(arch, #[trigger] passes[i]),
    ensures
        flips.len() == 0,
    decreases passes.len(),
{
    if passes.len() > 0 {
        let init = passes.drop_last();
        let ps = passes.last();
        assert forall|i: int| 0 <= i < init.len() implies victims_apart(arch, #[trigger] init[i]) by {
            assert(init[i] == passes[i]);
        }
        assert(victims_apart(arch, passes[passes.len() - 1]));
        if pass_ready(arch, ps, b0.len()) {
            let m = calls.len() - 1;
            let prev = calls.subrange(0, m);
            let after = calls[m].after;
            let lf = ranges_flips(arch, after, ps.v, !ps.p);
            let b1 = filled(arch, last_buf(b0, prev), ps.r1, ps.p);
            let b2 = filled(arch, b1, ps.v, !ps.p);
            assert(after == filled(arch, b2, ps.r2, ps.p));
            assert forall|n: int, o: int|
                0 <= n < ps.v.len() && in_buffer(arch, ps.v[n], after.len()) && #[trigger] span_holds(
                    arch,
                    ps.v[n],
                    o,
                ) implies after[o] == !ps.p by {
                assert(fills(arch, ps.v, b1.len(), o));
                if fills(arch, ps.r2, b2.len(), o) {
                    let mm = choose|mm: int|
                        0 <= mm < ps.r2.len() && in_buffer(arch, ps.r2[mm], b2.len()) && #[trigger] span_holds(
                            arch,
                            ps.r2[mm],
                            o,
                        );
                    assert(!(span_holds(arch, ps.v[n], o) && span_holds(arch, ps.r2[mm], o)));
                }
            }
            lemma_ranges_clean(arch, after, ps.v, !ps.p);
            assert forall|k: int| 0 <= k < prev.len() implies (#[trigger] prev[k]).after == prev[k].before by {
                assert(prev[k] == calls[k]);
            }
            lemma_refreshing_run(arch, reads, init, b0, prev, flips.subrange(0, flips.len() - lf.len()));
        } else {
            lemma_refreshing_run(arch, reads, init, b0, calls, flips);
        }
    }
}

proof fn lemma_template_passes_from(rows: Seq<RowRanges>, n: nat)
    ensures
        forall|k: int|
            0 <= k < template_passes(rows, n).len() ==> exists|i: int|
                0 <= i < n && i < rows.len() && !is_sentinel_row(rows[i].key.row) && (
                #[trigger] template_passes(rows, n)[k]).v == rows[i].ranges@ && template_passes(
                    rows,
                    n,
                )[k].r2 == entry_below(rows, rows[i]),
    decreases n,
{
    if n > 0 && n <= rows.len() {
        lemma_template_passes_from(rows, (n - 1) as nat);
        let prev = template_passes(rows, (n - 1) as nat);
        let tp = template_passes(rows, n);
        assert forall|k: int| 0 <= k < tp.len() implies exists|i: int|
            0 <= i < n && i < rows.len() && !is_sentinel_row(rows[i].key.row) && (#[trigger] tp[k]).v
                == rows[i].ranges@ && tp[k].r2 == entry_below(rows, rows[i]) by {
            if k < prev.len() {
                assert(tp[k] == prev[k]);
                let i = choose|i: int|
                    0 <= i < n - 1 && i < rows.len() && !is_sentinel_row(rows[i].key.row) && (
                    #[trigger] prev[k]).v == rows[i].ranges@ && prev[k].r2 == entry_below(rows, rows[i]);
            } else {
                assert(tp[k] == entry_passes(rows, rows[n - 1])[k - prev.len()]);
            }
        }
    }
}

/// No flip without leakage, for templating: where the map gives back the address of
/// every range start, templating a buffer on DRAM whose hammerings leave it as they
/// were handed it (DRAM that refreshes between accesses) reports no flip.
pub proof fn lemma_refreshing_template<A: Architecture>(
    m: MemMap,
    arch: A,
    len: usize,
    q: usize,
    reads: usize,
    b0: Seq<u8>,
    calls: Seq<HammerCall>,
    flips: Seq<Flip>,
)
    requires
        q > 0,
        indexes(m.index(), split_spec(arch, len as nat, q as nat)),
        round_trips_at_starts(arch, len as nat, q as nat),
        run_ok(arch, reads, template_passes(m.index(), m.index().len()), b0, calls, flips),
        forall|k: int| 0 <= k < calls.len() ==> (#[trigger] calls[k]).after == calls[k].before,
    ensures
        flips.len() == 0,
{
    let rows = m.index();
    let passes = template_passes(rows, rows.len());
    lemma_range_partition(m, arch, len, q);
    lemma_template_passes_from(rows, rows.len());
    assert forall|k: int| 0 <= k < passes.len() implies victims_apart(arch, #[trigger] passes[k]) by {
        let i = choose|i: int|
            0 <= i < rows.len() && i < rows.len() && !is_sentinel_row(rows[i].key.row) && (
            #[trigger] passes[k]).v == rows[i].ranges@ && passes[k].r2 == entry_below(rows, rows[i]);
        let ps = passes[k];
        let kb = row_key(DramAddr { row: (rows[i].key.row + 1) as u16, ..rows[i].key });
        assert forall|n: int, mm: int, o: int|
            0 <= n < ps.v.len() && 0 <= mm < ps.r2.len() implies !(#[trigger] span_holds(arch, ps.v[n], o)
            && #[trigger] span_holds(arch, ps.r2[mm], o)) by {
            if span_holds(arch, ps.v[n], o) && span_holds(arch, ps.r2[mm], o) {
                if forall|i2: int| 0 <= i2 < rows.len() ==> rows[i2].key != kb {
                    lemma_lookup_absent(rows, kb);
                }
                let i2 = choose|i2: int| 0 <= i2 < rows.len() && rows[i2].key == kb;
                lemma_lookup_at(rows, i2);
                assert(ps.r2[mm] == rows[i2].ranges@[mm]);
                assert(ps.v[n] == rows[i].ranges@[n]);
                assert(index_wf(rows));
                assert(rows[i].ranges@[n] == rows[i2].ranges@[mm]);
                assert(row_key(rows[i].ranges@[n].start) == rows[i].key);
                assert(row_key(rows[i2].ranges@[mm].start) == kb);
                assert(rows[i].key.row != kb.row);
            }
        }
    }
    lemma_refreshing_run(arch, reads, passes, b0, calls, flips);
}

} // verus!
