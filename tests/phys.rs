use memflow_core::address::{checked_offset, from_gb, from_kb, from_mb, page_align};
use memflow_core::mem::{read_le16, read_le32, read_le64, PhysicalMemory, SparseMemory};
use memflow_core::phys_mem::{
    phys_metadata, phys_read_raw, phys_read_raw_list, phys_read_u32, phys_read_u64, phys_write_raw, phys_write_raw_list,
    phys_write_u32, phys_write_u64, PhysicalReadData, PhysicalWriteData,
};

fn memory() -> SparseMemory {
    let mut m = SparseMemory::new();
    m.add_frame(0x1000);
    m.add_frame(0x2000);
    m
}

#[test]
fn unit_constructors() {
    assert_eq!(from_kb(4), 4096);
    assert_eq!(from_mb(32), 0x200_0000);
    assert_eq!(from_gb(1), 0x4000_0000);
    assert_eq!(page_align(0x1234), 0x1000);
    assert_eq!(checked_offset(u64::MAX, 1), None);
    assert_eq!(checked_offset(5, 7), Some(12));
}

#[test]
fn little_endian_reads() {
    let b = [1u8, 2, 3, 4, 5, 6, 7, 8, 9];
    assert_eq!(read_le16(&b, 0), 0x0201);
    assert_eq!(read_le32(&b, 1), 0x0504_0302);
    assert_eq!(read_le64(&b, 1), 0x0908_0706_0504_0302);
}

#[test]
fn write_then_read_round_trips() {
    let mut m = memory();
    assert_eq!(phys_write_u64(&mut m, 0x1ffc, 0x1122_3344_5566_7788), 0);
    assert_eq!(phys_read_u64(&m, 0x1ffc), 0x1122_3344_5566_7788);
    assert_eq!(phys_write_u32(&mut m, 0x1010, 0xdead_beef), 0);
    assert_eq!(phys_read_u32(&m, 0x1010), 0xdead_beef);
    let data: Vec<u8> = (0..32u8).collect();
    assert_eq!(phys_write_raw(&mut m, 0x1800, &data), 0);
    let mut out = vec![0u8; 32];
    assert_eq!(phys_read_raw(&m, 0x1800, &mut out), 0);
    assert_eq!(out, data);
}

#[test]
fn unreadable_memory_reads_as_failure() {
    let mut m = memory();
    assert_eq!(phys_read_u64(&m, 0x2ffc), 0);
    assert_eq!(phys_read_u32(&m, 0x9000), 0);
    let mut out = vec![5u8; 8];
    assert_eq!(phys_read_raw(&m, 0x2ffc, &mut out), -1);
    assert_eq!(out, vec![5u8; 8]);
    assert_eq!(phys_write_u64(&mut m, 0x2ffc, 1), -1);
    assert_eq!(m.phys_read_raw(u64::MAX, 2), None);
}

#[test]
fn batched_read_fills_each_element() {
    let mut m = memory();
    assert_eq!(phys_write_u32(&mut m, 0x1000, 0x0403_0201), 0);
    let mut list = vec![
        PhysicalReadData { addr: 0x1000, buf: vec![0; 4], ok: false },
        PhysicalReadData { addr: 0x8000, buf: vec![0; 2], ok: true },
        PhysicalReadData { addr: 0x1001, buf: vec![0; 2], ok: false },
    ];
    // one unreadable element does not fail the batch
    assert_eq!(phys_read_raw_list(&m, &mut list), 0);
    assert_eq!(list[0].buf, vec![1, 2, 3, 4]);
    assert!(list[0].ok);
    assert_eq!(list[1].buf, vec![0, 0]);
    assert!(!list[1].ok);
    assert_eq!(list[2].buf, vec![2, 3]);
    assert!(list[2].ok);
}

#[test]
fn batched_writes_apply_in_order() {
    let mut m = memory();
    let list = vec![
        PhysicalWriteData { addr: 0x1000, data: vec![1, 1, 1, 1] },
        PhysicalWriteData { addr: 0x1002, data: vec![2, 2] },
    ];
    assert_eq!(phys_write_raw_list(&mut m, &list), 0);
    let mut out = vec![0u8; 4];
    assert_eq!(phys_read_raw(&m, 0x1000, &mut out), 0);
    assert_eq!(out, vec![1, 1, 2, 2]);
    let bad = vec![PhysicalWriteData { addr: 0x7000, data: vec![1] }];
    assert_eq!(phys_write_raw_list(&mut m, &bad), -1);
    assert_eq!(phys_write_raw_list(&mut m, &vec![]), 0);
    // a write that runs off the mapped frames is refused whole
    assert_eq!(phys_write_raw(&mut m, 0x2ffe, &vec![9, 9, 9, 9]), -1);
    let mut out = vec![0u8; 2];
    assert_eq!(phys_read_raw(&m, 0x2ffe, &mut out), 0);
    assert_eq!(out, vec![0, 0]);
}

#[test]
fn metadata_bounds_the_readable_memory() {
    let m = memory();
    let md = phys_metadata(&m);
    assert_eq!(md.max_address, 0x2fff);
    assert_eq!(md.page_size_hint, 4096);
    assert!(!md.readonly);
    assert_eq!(phys_metadata(&SparseMemory::new()).max_address, 0);
}
