use rambleed::procure::{
    buddy_drain_size, contig_mem_diff, phys_from_frame, sum_frees, virt_to_phys_pagemap, SIZE_MB,
};

#[test]
fn free_bytes_weigh_each_order() {
    let a = vec![1usize, 2, 3];
    let b = vec![0usize, 0, 0, 1];
    // 1 + 2*2 + 3*4 = 17 pages, and 8 pages
    assert_eq!(sum_frees(&a, &b, 4096), Some(25 * 4096));
    assert_eq!(sum_frees(&Vec::new(), &Vec::new(), 4096), Some(0));
    assert_eq!(sum_frees(&vec![usize::MAX], &vec![1], 1), None);
    assert_eq!(sum_frees(&vec![usize::MAX / 2 + 1, 0], &vec![], 1), Some(usize::MAX / 2 + 1));
    assert_eq!(sum_frees(&vec![0, usize::MAX / 2 + 1], &vec![], 1), None);
    assert_eq!(sum_frees(&vec![3], &vec![], 0), Some(0));
}

#[test]
fn drain_keeps_one_mebibyte() {
    assert_eq!(buddy_drain_size(SIZE_MB * 5), Some(SIZE_MB * 4));
    assert_eq!(buddy_drain_size(SIZE_MB), Some(0));
    assert_eq!(buddy_drain_size(SIZE_MB - 1), None);
}

#[test]
fn contiguity_of_first_and_last_byte() {
    assert!(contig_mem_diff(0x1_0000_0000, 0x1_001f_ffff, 2 << 20));
    assert!(!contig_mem_diff(0x1_0000_0000, 0x2_001f_ffff, 2 << 20));
    assert!(contig_mem_diff(u64::MAX, u64::MAX, 1));
    assert!(!contig_mem_diff(0, 0, 0));
}

#[test]
fn physical_address_from_frame() {
    assert_eq!(phys_from_frame(Some(0x1234), 0x7fff_0123, 4096), Some(0x1234_123));
    assert_eq!(phys_from_frame(None, 0x7fff_0123, 4096), None);
    assert_eq!(phys_from_frame(Some(1), 5, 0), None);
    assert_eq!(phys_from_frame(Some(u64::MAX), 5, 4096), None);
}

#[test]
fn pagemap_entry_keeps_the_page_offset() {
    let value = Box::new([7u8; 64]);
    let v = value.as_ptr() as usize + 0x21;
    let page_size = vm_info::page_size().unwrap_or(4096);
    if let Ok(entry) = vm_info::page_map::read_page_map(vm_info::ProcessId::SelfPid, v / page_size) {
        // without privilege the kernel hides the frame, and there is no address to give
        if let Some(p) = virt_to_phys_pagemap(&entry, v, page_size) {
            assert_eq!(p as usize % page_size, v % page_size);
            assert!(p as usize >= page_size);
        }
    }
}
