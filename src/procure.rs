//! The arithmetic of procuring a physically contiguous buffer: the buddy drain target,
//! the contiguity check, and physical addresses from page-map entries.
use vstd::prelude::*;
use crate::architecture::PhysAddr;

verus! {

/// One mebibyte.
pub const SIZE_MB: usize = 0x100000;

/// Base pages in the free blocks of each order: `counts[i]` blocks of order `i` hold
/// `counts[i] * 2^i` pages.
pub open spec fn free_pages(counts: Seq<usize>) -> int
    decreases counts.len(),
{
    if counts.len() == 0 {
        0
    } else {
        counts[0] + 2 * free_pages(counts.subrange(1, counts.len() as int))
    }
}

proof fn lemma_free_pages_suffix(counts: Seq<usize>, j: int)
    requires
        0 <= j <= counts.len(),
    ensures
        0 <= free_pages(counts.subrange(j, counts.len() as int)) <= free_pages(counts),
    decreases j,
{
    let s = counts.subrange(j, counts.len() as int);
    if j == 0 {
        assert(s == counts);
        lemma_free_pages_nonneg(counts);
    } else {
        lemma_free_pages_suffix(counts, j - 1);
        let t = counts.subrange(j - 1, counts.len() as int);
        assert(t.subrange(1, t.len() as int) == s);
        lemma_free_pages_nonneg(s);
    }
}

proof fn lemma_free_pages_nonneg(counts: Seq<usize>)
    ensures
        free_pages(counts) >= 0,
    decreases counts.len(),
{
    if counts.len() > 0 {
        lemma_free_pages_nonneg(counts.subrange(1, counts.len() as int));
    }
}

/// Base pages in the free blocks of `counts`, or `None` where the number does not fit.
fn free_pages_of(counts: &Vec<usize>) -> (r: Option<usize>)
    ensures
        r == (if free_pages(counts@) <= usize::MAX {
            Some(free_pages(counts@) as usize)
        } else {
            None
        }),
{
    let n = counts.len();
    let mut acc: usize = 0;
    let mut i: usize = n;
    assert(counts@.subrange(n as int, n as int).len() == 0);
    while i > 0
        invariant
            n == counts@.len(),
            i <= n,
            acc == free_pages(counts@.subrange(i as int, n as int)),
        decreases i,
    {
        let ghost s = counts@.subrange(i - 1, n as int);
        assert(s.subrange(1, s.len() as int) == counts@.subrange(i as int, n as int));
        let doubled = match acc.checked_mul(2) {
            Some(d) => d,
            None => {
                proof {
                    lemma_free_pages_suffix(counts@, i - 1);
                }
                return None;
            },
        };
        acc = match doubled.checked_add(counts[i - 1]) {
            Some(a) => a,
            None => {
                proof {
                    lemma_free_pages_suffix(counts@, i - 1);
                }
                return None;
            },
        };
        i = i - 1;
    }
    assert(counts@.subrange(0, n as int) == counts@);
    Some(acc)
}

/// Free bytes in the buddy allocator's blocks of two zones, given the free-block count
/// of each order in each zone; `None` where the number does not fit.
pub fn sum_frees(zone_a: &Vec<usize>, zone_b: &Vec<usize>, page_size: usize) -> (r: Option<usize>)
    ensures
        r == (if (free_pages(zone_a@) + free_pages(zone_b@)) * page_size <= usize::MAX {
            Some(((free_pages(zone_a@) + free_pages(zone_b@)) * page_size) as usize)
        } else {
            None
        }),
{
    let ghost total = free_pages(zone_a@) + free_pages(zone_b@);
    proof {
        lemma_free_pages_nonneg(zone_a@);
        lemma_free_pages_nonneg(zone_b@);
    }
    if page_size == 0 {
        return Some(0);
    }
    assert(total > usize::MAX ==> total * page_size > usize::MAX) by (nonlinear_arith)
        requires
            page_size >= 1,
    ;
    let a = match free_pages_of(zone_a) {
        Some(a) => a,
        None => {
            return None;
        },
    };
    let b = match free_pages_of(zone_b) {
        Some(b) => b,
        None => {
            return None;
        },
    };
    match a.checked_add(b) {
        Some(pages) => pages.checked_mul(page_size),
        None => None,
    }
}

/// The bytes to drain from the buddy allocator before taking the final block: all
/// free memory but one mebibyte. `None` where less than that is free.
pub fn buddy_drain_size(free_bytes: usize) -> (r: Option<usize>)
    ensures
        r == (if free_bytes >= SIZE_MB {
            Some((free_bytes - SIZE_MB) as usize)
        } else {
            None
        }),
{
    if free_bytes >= SIZE_MB {
        Some(free_bytes - SIZE_MB)
    } else {
        None
    }
}

/// Whether a buffer of `len` bytes whose first byte is at physical address
/// `start_phys` and whose last byte is at `end_phys` is physically contiguous.
pub fn contig_mem_diff(start_phys: PhysAddr, end_phys: PhysAddr, len: PhysAddr) -> (r: bool)
    ensures
        r == (start_phys + len - 1 == end_phys),
{
    (start_phys as u128) + (len as u128) == (end_phys as u128) + 1
}

/// The physical address of virtual address `v`, given the frame of its page; `None`
/// where the page has no frame, the page size is 0, or the address does not fit.
pub fn phys_from_frame(frame: Option<u64>, v: usize, page_size: usize) -> (r: Option<PhysAddr>)
    ensures
        r == (match frame {
            Some(f) => if page_size > 0 && f * page_size + v % page_size <= u64::MAX {
                Some((f * page_size + v % page_size) as PhysAddr)
            } else {
                None
            },
            None => None,
        }),
{
    match frame {
        None => None,
        Some(f) => {
            if page_size == 0 {
                return None;
            }
            let ps = page_size as u64;
            let off = (v % page_size) as u64;
            match f.checked_mul(ps) {
                Some(base) => base.checked_add(off),
                None => {
                    assert(f * page_size + v % page_size > u64::MAX) by (nonlinear_arith)
                        requires
                            f * page_size > u64::MAX,
                            v % page_size >= 0,
                    ;
                    None
                },
            }
        },
    }
}

/// A page-map entry as vm-info reads it from the kernel.
#[verifier::external_type_specification]
#[verifier::external_body]
pub struct ExVirtualPage(vm_info::page_map::VirtualPage);

/// Relies on vm-info's `VirtualPage::page_frame`: the frame number is bits 0-54 of the
/// entry, reported only where the page is present and the number is not 0.
pub assume_specification[ vm_info::page_map::VirtualPage::page_frame ](
    page: &vm_info::page_map::VirtualPage,
) -> (r: Option<u64>)
    ensures
        r matches Some(f) ==> 0 < f && f < 0x80_0000_0000_0000u64,
;

/// The physical address of virtual address `v` from the page-map entry of its page;
/// `None` where the entry gives no frame, the page size is 0, or the address does not
/// fit. The address lies at `v`'s offset within a page that is not the first.
pub fn virt_to_phys_pagemap(page: &vm_info::page_map::VirtualPage, v: usize, page_size: usize) -> (r:
    Option<PhysAddr>)
    ensures
        r matches Some(p) ==> page_size > 0 && (p as int) % (page_size as int) == (v as int) % (page_size as int) && p
            >= page_size,
{
    let frame = page.page_frame();
    let r = phys_from_frame(frame, v, page_size);
    proof {
        if let Some(f) = frame {
            if r is Some {
                let q = v % page_size;
                assert((f * page_size + q) % (page_size as int) == q) by (nonlinear_arith)
                    requires
                        page_size > 0,
                        0 <= q < page_size,
                        f > 0,
                ;
                assert(f * page_size + q >= page_size) by (nonlinear_arith)
                    requires
                        page_size > 0,
                        q >= 0,
                        f > 0,
                ;
            }
        }
    }
    r
}

} // verus!
