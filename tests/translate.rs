use memflow_core::arch::Architecture;
use memflow_core::batch::translate_batch;
use memflow_core::mem::{PhysicalMemory, SparseMemory};
use memflow_core::phys_mem::{phys_read_u64, phys_write_u64};
use memflow_core::ntos::{find, find_export, find_x64_with_va, process_head, ScanError, StartBlock};
use memflow_core::process::{module_list, process_list, ModuleOffsets, Offsets, ProcessInfo, MAX_PROCESSES};
use memflow_core::vat::{translate, Translation, Vat, VatError};

const DTB: u64 = 0x1a9000;

struct Fixture {
    mem: SparseMemory,
    next_frame: u64,
}

impl Fixture {
    fn new() -> Fixture {
        let mut mem = SparseMemory::new();
        mem.add_frame(DTB);
        Fixture { mem, next_frame: 0x100_0000 }
    }

    fn table_entry(&mut self, table: u64, index: u64) -> u64 {
        let at = table + index * 8;
        let e = phys_read_u64(&self.mem, at);
        if e & 1 != 0 {
            return e & 0x000F_FFFF_FFFF_F000;
        }
        let frame = self.next_frame;
        self.next_frame += 0x1000;
        self.mem.add_frame(frame);
        assert_eq!(phys_write_u64(&mut self.mem, at, frame | 3), 0);
        frame
    }

    /// Maps the 4 KiB page at `va` to the frame at `pa`.
    fn map_4k(&mut self, va: u64, pa: u64) {
        let pdpt = self.table_entry(DTB, (va >> 39) & 0x1ff);
        let pd = self.table_entry(pdpt, (va >> 30) & 0x1ff);
        let pt = self.table_entry(pd, (va >> 21) & 0x1ff);
        assert_eq!(phys_write_u64(&mut self.mem, pt + ((va >> 12) & 0x1ff) * 8, pa | 3), 0);
    }

    /// Maps the 2 MiB page at `va` to `pa` with a large entry at the directory level.
    fn map_2m(&mut self, va: u64, pa: u64) {
        let pdpt = self.table_entry(DTB, (va >> 39) & 0x1ff);
        let pd = self.table_entry(pdpt, (va >> 30) & 0x1ff);
        assert_eq!(phys_write_u64(&mut self.mem, pd + ((va >> 21) & 0x1ff) * 8, pa | 0x83), 0);
    }

    /// Maps the 1 GiB page at `va` to `pa` with a large entry at the pointer level.
    fn map_1g(&mut self, va: u64, pa: u64) {
        let pdpt = self.table_entry(DTB, (va >> 39) & 0x1ff);
        assert_eq!(phys_write_u64(&mut self.mem, pdpt + ((va >> 30) & 0x1ff) * 8, pa | 0x83), 0);
    }
}

#[test]
fn x64_translation_of_a_single_page() {
    let mut f = Fixture::new();
    f.map_4k(0x0000_7FFE_0000_1000, 0x3B4C_2000);
    let r = translate(&f.mem, Architecture::X64, DTB, 0x0000_7FFE_0000_1000);
    assert_eq!(r, Some(Translation { paddr: 0x3B4C_2000, page_size: 4096 }));
    let r = translate(&f.mem, Architecture::X64, DTB, 0x0000_7FFE_0000_1abc);
    assert_eq!(r, Some(Translation { paddr: 0x3B4C_2abc, page_size: 4096 }));
}

#[test]
fn x64_translation_of_a_large_page() {
    let mut f = Fixture::new();
    f.map_2m(0xFFFF_F780_0000_0000, 0xAB00_0000);
    let r = translate(&f.mem, Architecture::X64, DTB, 0xFFFF_F780_0000_0000);
    assert_eq!(r, Some(Translation { paddr: 0xAB00_0000, page_size: 2 * 1024 * 1024 }));
    let r = translate(&f.mem, Architecture::X64, DTB, 0xFFFF_F780_0012_3456);
    assert_eq!(r, Some(Translation { paddr: 0xAB12_3456, page_size: 2 * 1024 * 1024 }));
}

#[test]
fn x64_translation_of_a_huge_page() {
    let mut f = Fixture::new();
    f.map_1g(0x0000_0040_0000_0000, 0x8000_0000);
    let r = translate(&f.mem, Architecture::X64, DTB, 0x0000_0040_1234_5678);
    assert_eq!(r, Some(Translation { paddr: 0x9234_5678, page_size: 1024 * 1024 * 1024 }));
}

#[test]
fn translation_faults_where_nothing_is_mapped() {
    let mut f = Fixture::new();
    f.map_4k(0x1000, 0x5000);
    assert_eq!(translate(&f.mem, Architecture::X64, DTB, 0x2000), None);
    assert_eq!(translate(&f.mem, Architecture::X64, DTB, 0x8000_0000_0000), None);
    // a table that is not in physical memory at all
    assert_eq!(translate(&f.mem, Architecture::X64, 0x7777_0000, 0x1000), None);
}

#[test]
fn x86_translation_uses_two_levels_of_four_byte_entries() {
    let mut mem = SparseMemory::new();
    mem.add_frame(0x10000);
    mem.add_frame(0x11000);
    // directory entry 1 points at the table at 0x11000; table entry 2 maps 0x42000
    assert!(mem.phys_write_raw(0x10000 + 4, &vec![0x03, 0x10, 0x01, 0x00]));
    assert!(mem.phys_write_raw(0x11000 + 8, &vec![0x03, 0x20, 0x04, 0x00]));
    let r = translate(&mem, Architecture::X86, 0x10000, 0x0040_2123);
    assert_eq!(r, Some(Translation { paddr: 0x42123, page_size: 4096 }));
    // a 4 MiB page at directory entry 2
    assert!(mem.phys_write_raw(0x10000 + 8, &vec![0x83, 0x00, 0xc0, 0x00]));
    let r = translate(&mem, Architecture::X86, 0x10000, 0x0081_2345);
    assert_eq!(r, Some(Translation { paddr: 0x00c1_2345, page_size: 0x40_0000 }));
}

#[test]
fn cached_translation_matches_a_fresh_walk() {
    let mut f = Fixture::new();
    f.map_4k(0x0000_7FFE_0000_1000, 0x3B4C_2000);
    f.map_2m(0xFFFF_F780_0000_0000, 0xAB00_0000);
    let mut vat = Vat::new(2);
    for va in [0x0000_7FFE_0000_1234u64, 0xFFFF_F780_0000_5678, 0x0000_7FFE_0000_1234, 0xFFFF_F780_0000_5678] {
        let cached = vat.translate_page(&f.mem, Architecture::X64, DTB, va);
        let fresh = translate(&f.mem, Architecture::X64, DTB, va & !0xfff);
        assert_eq!(cached, fresh);
        assert!(cached.is_some());
    }
    assert_eq!(vat.entries.len(), 2);
    vat.flush();
    assert_eq!(vat.entries.len(), 0);
    let again = vat.translate_page(&f.mem, Architecture::X64, DTB, 0x0000_7FFE_0000_1000);
    assert_eq!(again, Some(Translation { paddr: 0x3B4C_2000, page_size: 4096 }));
}

#[test]
fn read_over_mapped_pages_is_the_physical_bytes() {
    let mut f = Fixture::new();
    f.mem.add_frame(0x50000);
    f.mem.add_frame(0x90000);
    f.map_4k(0x7000_0000, 0x90000);
    f.map_4k(0x7000_1000, 0x50000);
    let a: Vec<u8> = (0..4096u32).map(|i| (i % 251) as u8).collect();
    let b: Vec<u8> = (0..4096u32).map(|i| (i % 13) as u8 + 100).collect();
    assert!(f.mem.phys_write_raw(0x90000, &a));
    assert!(f.mem.phys_write_raw(0x50000, &b));
    let mut vat = Vat::new(8);
    let mut out = vec![0u8; 200];
    let r = vat.virt_read(&f.mem, Architecture::X64, DTB, 0x7000_0f9c, &mut out);
    assert_eq!(r, Ok(true));
    let mut expect = a[0xf9c..].to_vec();
    expect.extend_from_slice(&b[..200 - (0x1000 - 0xf9c)]);
    assert_eq!(out, expect);
}

#[test]
fn read_leaves_unmapped_bytes_as_they_were() {
    let mut f = Fixture::new();
    f.mem.add_frame(0x90000);
    f.map_4k(0x7000_0000, 0x90000);
    let a: Vec<u8> = (0..4096u32).map(|i| (i % 7) as u8).collect();
    assert!(f.mem.phys_write_raw(0x90000, &a));
    let mut vat = Vat::new(8);
    let mut out = vec![0xEEu8; 0x1800];
    let r = vat.virt_read(&f.mem, Architecture::X64, DTB, 0x7000_0800, &mut out);
    assert_eq!(r, Ok(false));
    assert_eq!(&out[..0x800], &a[0x800..]);
    assert!(out[0x800..].iter().all(|&x| x == 0xEE));
}

#[test]
fn read_past_the_end_of_the_address_space_is_refused() {
    let f = Fixture::new();
    let mut vat = Vat::new(8);
    let mut out = vec![7u8; 16];
    let r = vat.virt_read(&f.mem, Architecture::X64, DTB, u64::MAX - 8, &mut out);
    assert_eq!(r, Err(VatError::OutOfRange));
    assert_eq!(out, vec![7u8; 16]);
}

fn put(bytes: &mut [u8], at: usize, v: &[u8]) {
    bytes[at..at + v.len()].copy_from_slice(v);
}

/// A minimal 64-bit PE header page whose export directory names `name`.
fn pe_page(name: &str) -> Vec<u8> {
    let mut p = vec![0u8; 4096];
    put(&mut p, 0, b"MZ");
    put(&mut p, 0x3c, &0x80u32.to_le_bytes());
    put(&mut p, 0x80, b"PE\0\0");
    // COFF header
    put(&mut p, 0x84, &0x8664u16.to_le_bytes());
    put(&mut p, 0x86, &0u16.to_le_bytes());
    put(&mut p, 0x94, &0xf0u16.to_le_bytes());
    put(&mut p, 0x96, &0x2022u16.to_le_bytes());
    // optional header
    let oh = 0x98;
    put(&mut p, oh, &0x20bu16.to_le_bytes());
    put(&mut p, oh + 24, &0x1_4000_0000u64.to_le_bytes());
    put(&mut p, oh + 32, &0x1000u32.to_le_bytes());
    put(&mut p, oh + 36, &0x200u32.to_le_bytes());
    put(&mut p, oh + 56, &0x1000u32.to_le_bytes());
    put(&mut p, oh + 60, &0x400u32.to_le_bytes());
    put(&mut p, oh + 108, &16u32.to_le_bytes());
    // export data directory
    put(&mut p, oh + 112, &0x400u32.to_le_bytes());
    put(&mut p, oh + 116, &0x100u32.to_le_bytes());
    // export directory: name only
    put(&mut p, 0x400 + 12, &0x440u32.to_le_bytes());
    put(&mut p, 0x440, name.as_bytes());
    // POOLCODE marker
    put(&mut p, 0x800, b"POOLCODE");
    p
}

fn kernel_fixture(name: &str) -> Fixture {
    let mut f = Fixture::new();
    f.mem.add_frame(0x400_0000);
    f.map_4k(0xFFFF_F800_0140_0000, 0x400_0000);
    assert!(f.mem.phys_write_raw(0x400_0000, &pe_page(name)));
    f
}

#[test]
fn kernel_is_found_below_the_hint() {
    let f = kernel_fixture("ntoskrnl.exe");
    let mut vat = Vat::new(64);
    let sb = StartBlock { arch: Architecture::X64, dtb: DTB, va: 0xFFFF_F800_0150_0000 };
    assert_eq!(find(&mut vat, &f.mem, &sb), Ok(0xFFFF_F800_0140_0000));
}

#[test]
fn kernel_is_found_from_a_hint_several_windows_above() {
    let f = kernel_fixture("ntoskrnl.exe");
    let mut vat = Vat::new(64);
    let sb = StartBlock { arch: Architecture::X64, dtb: DTB, va: 0xFFFF_F800_01C1_2345 };
    assert_eq!(find_x64_with_va(&mut vat, &f.mem, sb), Ok(0xFFFF_F800_0140_0000));
}

#[test]
fn image_with_another_name_is_not_the_kernel() {
    let f = kernel_fixture("hal.dll");
    let mut vat = Vat::new(64);
    let sb = StartBlock { arch: Architecture::X64, dtb: DTB, va: 0xFFFF_F800_0150_0000 };
    assert_eq!(find(&mut vat, &f.mem, &sb), Err(ScanError::NotFound));
}

#[test]
fn kernel_beyond_the_scan_span_is_not_found() {
    let f = kernel_fixture("ntoskrnl.exe");
    let mut vat = Vat::new(64);
    let sb = StartBlock { arch: Architecture::X64, dtb: DTB, va: 0xFFFF_F800_0340_0000 };
    assert_eq!(find(&mut vat, &f.mem, &sb), Err(ScanError::NotFound));
}

#[test]
fn search_without_hint_or_on_x86_is_unsupported() {
    let f = kernel_fixture("ntoskrnl.exe");
    let mut vat = Vat::new(64);
    let sb = StartBlock { arch: Architecture::X64, dtb: DTB, va: 0 };
    assert_eq!(find(&mut vat, &f.mem, &sb), Err(ScanError::NotImplemented));
    let sb = StartBlock { arch: Architecture::X86, dtb: DTB, va: 0x8040_0000 };
    assert_eq!(find(&mut vat, &f.mem, &sb), Err(ScanError::Unsupported));
}

const OFFSETS: Offsets = Offsets {
    active_process_links: 0x188,
    unique_process_id: 0x180,
    directory_table_base: 0x28,
    peb: 0x3f8,
    image_file_name: 0x2e0,
    wow64_process: 0x438,
};

const KVA: u64 = 0xFFFF_8000_0010_0000;
const KPA: u64 = 0x800_0000;

/// Kernel pages: the list head on the first, one `_EPROCESS` on each of the others.
fn process_fixture(n: u64) -> Fixture {
    let mut f = Fixture::new();
    for i in 0..=n {
        f.mem.add_frame(KPA + i * 0x1000);
        f.map_4k(KVA + i * 0x1000, KPA + i * 0x1000);
    }
    f
}

fn set_link(f: &mut Fixture, from_page: u64, to_page: u64) {
    let from = if from_page == 0 { KPA } else { KPA + from_page * 0x1000 + OFFSETS.active_process_links };
    let to = if to_page == 0 { KVA } else { KVA + to_page * 0x1000 + OFFSETS.active_process_links };
    assert_eq!(phys_write_u64(&mut f.mem, from, to), 0);
}

fn set_process(f: &mut Fixture, page: u64, pid: u64, name: &str) {
    let ep = KPA + page * 0x1000;
    assert_eq!(phys_write_u64(&mut f.mem, ep + OFFSETS.unique_process_id, pid), 0);
    assert_eq!(phys_write_u64(&mut f.mem, ep + OFFSETS.directory_table_base, 0x1000_0000 + pid * 0x1000), 0);
    assert_eq!(phys_write_u64(&mut f.mem, ep + OFFSETS.peb, 0x7ff0_0000 + pid), 0);
    assert!(f.mem.phys_write_raw(ep + OFFSETS.image_file_name, &name.as_bytes().to_vec()));
    let wow = if pid == 1234 { 0xFFFF_8000_0020_0000u64 } else { 0 };
    assert_eq!(phys_write_u64(&mut f.mem, ep + OFFSETS.wow64_process, wow), 0);
}

#[test]
fn process_walk_returns_the_list_in_order() {
    let mut f = process_fixture(3);
    set_process(&mut f, 1, 4, "System");
    set_process(&mut f, 2, 448, "smss.exe");
    set_process(&mut f, 3, 1234, "explorer.exe");
    set_link(&mut f, 0, 1);
    set_link(&mut f, 1, 2);
    set_link(&mut f, 2, 3);
    set_link(&mut f, 3, 0);
    let mut vat = Vat::new(16);
    let list = process_list(&mut vat, &f.mem, Architecture::X64, DTB, KVA, OFFSETS);
    let pids: Vec<u64> = list.iter().map(|p| p.pid).collect();
    assert_eq!(pids, vec![4, 448, 1234]);
    assert_eq!(list[1].eprocess, KVA + 0x2000);
    assert_eq!(list[1].dtb, 0x1000_0000 + 448 * 0x1000);
    assert_eq!(list[1].peb, 0x7ff0_0000 + 448);
    assert_eq!(&list[1].name[..8], b"smss.exe");
    assert!(!list[0].wow64);
    assert!(list[2].wow64);
}

#[test]
fn process_walk_stops_on_a_circular_list() {
    let mut f = process_fixture(2);
    set_process(&mut f, 1, 4, "System");
    set_process(&mut f, 2, 88, "Registry");
    set_link(&mut f, 0, 1);
    set_link(&mut f, 1, 2);
    set_link(&mut f, 2, 1);
    let mut vat = Vat::new(16);
    let list = process_list(&mut vat, &f.mem, Architecture::X64, DTB, KVA, OFFSETS);
    let pids: Vec<u64> = list.iter().map(|p| p.pid).collect();
    assert_eq!(pids, vec![4, 88]);
    assert!(list.len() as u64 <= MAX_PROCESSES);
}

#[test]
fn process_walk_skips_an_unreadable_entry() {
    let mut f = process_fixture(2);
    set_process(&mut f, 2, 1234, "a.exe");
    set_link(&mut f, 0, 1);
    set_link(&mut f, 1, 2);
    set_link(&mut f, 2, 0);
    // the last entry's image name runs onto a page that is not mapped
    let bad = Offsets { image_file_name: 0xff8, ..OFFSETS };
    let mut vat = Vat::new(16);
    let list = process_list(&mut vat, &f.mem, Architecture::X64, DTB, KVA, bad);
    let pids: Vec<u64> = list.iter().map(|p| p.pid).collect();
    assert_eq!(pids, vec![0]);
    let list = process_list(&mut vat, &f.mem, Architecture::X64, DTB, KVA, OFFSETS);
    let pids: Vec<u64> = list.iter().map(|p| p.pid).collect();
    assert_eq!(pids, vec![0, 1234]);
}

#[test]
fn process_walk_of_an_unmapped_head_is_empty() {
    let f = process_fixture(0);
    let mut vat = Vat::new(16);
    let list = process_list(&mut vat, &f.mem, Architecture::X64, DTB, 0x1234_5000, OFFSETS);
    assert!(list.is_empty());
}

#[test]
fn batched_translation_matches_single_walks() {
    let mut f = Fixture::new();
    f.map_4k(0x0000_7FFE_0000_1000, 0x3B4C_2000);
    f.map_4k(0x0000_7FFE_0000_2000, 0x3B4C_5000);
    f.map_2m(0xFFFF_F780_0000_0000, 0xAB00_0000);
    let vas = vec![
        0x0000_7FFE_0000_1010u64,
        0x0000_7FFE_0000_2fff,
        0x0000_7FFE_0000_3000,
        0xFFFF_F780_0001_0000,
        0x0000_7FFE_0000_1010,
        0x10,
    ];
    let r = translate_batch(&f.mem, Architecture::X64, DTB, &vas);
    assert_eq!(r.len(), vas.len());
    for (va, t) in vas.iter().zip(r.iter()) {
        assert_eq!(*t, translate(&f.mem, Architecture::X64, DTB, *va));
    }
    assert_eq!(r[0], Some(Translation { paddr: 0x3B4C_2010, page_size: 4096 }));
    assert_eq!(r[1], Some(Translation { paddr: 0x3B4C_5fff, page_size: 4096 }));
    assert_eq!(r[2], None);
    assert_eq!(r[3], Some(Translation { paddr: 0xAB01_0000, page_size: 0x20_0000 }));
    assert_eq!(r[5], None);
}

const MOD_OFFSETS: ModuleOffsets = ModuleOffsets {
    ldr: 0x18,
    in_memory_order_module_list: 0x20,
    in_memory_order_links: 0x10,
    dll_base: 0x30,
    size_of_image: 0x40,
    base_dll_name: 0x58,
};

fn utf16(s: &str) -> Vec<u8> {
    s.encode_utf16().flat_map(|c| c.to_le_bytes()).collect()
}

#[test]
fn module_walk_follows_the_loader_list() {
    let mut f = Fixture::new();
    let peb = 0x7ff0_0000u64;
    let ldr = 0x7ff1_0000u64;
    let entries = [0x7ff2_0000u64, 0x7ff3_0000];
    let mut pa = 0x900_0000u64;
    for va in [peb, ldr, entries[0], entries[1]] {
        f.mem.add_frame(pa);
        f.map_4k(va, pa);
        pa += 0x1000;
    }
    let phys = |va: u64| 0x900_0000 + match va & !0xfff {
        0x7ff0_0000 => 0,
        0x7ff1_0000 => 0x1000,
        0x7ff2_0000 => 0x2000,
        _ => 0x3000,
    } + (va & 0xfff);
    let head = ldr + MOD_OFFSETS.in_memory_order_module_list;
    assert_eq!(phys_write_u64(&mut f.mem, phys(peb + MOD_OFFSETS.ldr), ldr), 0);
    let links: Vec<u64> = entries.iter().map(|e| e + MOD_OFFSETS.in_memory_order_links).collect();
    assert_eq!(phys_write_u64(&mut f.mem, phys(head), links[0]), 0);
    assert_eq!(phys_write_u64(&mut f.mem, phys(links[0]), links[1]), 0);
    assert_eq!(phys_write_u64(&mut f.mem, phys(links[1]), head), 0);
    let names = ["app.exe", "ntdll.dll"];
    for (i, e) in entries.iter().enumerate() {
        let name = utf16(names[i]);
        assert_eq!(phys_write_u64(&mut f.mem, phys(e + MOD_OFFSETS.dll_base), 0x1_4000_0000 + i as u64 * 0x100_0000), 0);
        assert!(f.mem.phys_write_raw(phys(e + MOD_OFFSETS.size_of_image), &vec![0x00, 0x30, 0x01, 0x00]));
        assert!(f.mem.phys_write_raw(phys(e + MOD_OFFSETS.base_dll_name), &(name.len() as u16).to_le_bytes().to_vec()));
        assert_eq!(phys_write_u64(&mut f.mem, phys(e + MOD_OFFSETS.base_dll_name + 8), e + 0x200), 0);
        assert!(f.mem.phys_write_raw(phys(e + 0x200), &name));
    }
    let p = ProcessInfo { pid: 1234, dtb: DTB, peb, eprocess: 0, name: vec![], arch: Architecture::X64, wow64: false };
    let mut vat = Vat::new(16);
    let mods = module_list(&mut vat, &f.mem, &p, MOD_OFFSETS);
    assert_eq!(mods.len(), 2);
    assert_eq!(mods[0].name, utf16("app.exe"));
    assert_eq!(mods[1].name, utf16("ntdll.dll"));
    assert_eq!(mods[0].base, 0x1_4000_0000);
    assert_eq!(mods[1].base, 0x1_4100_0000);
    assert_eq!(mods[1].size, 0x13000);
    assert_eq!(mods[1].pid, 1234);
}

#[test]
fn pae_translation_uses_three_levels() {
    let mut mem = SparseMemory::new();
    for frame in [0x20000u64, 0x21000, 0x22000] {
        mem.add_frame(frame);
    }
    // pointer table entry 2 -> directory 0x21000; entry 3 -> table 0x22000; entry 4 -> 0x77000
    assert_eq!(phys_write_u64(&mut mem, 0x20000 + 2 * 8, 0x21001), 0);
    assert_eq!(phys_write_u64(&mut mem, 0x21000 + 3 * 8, 0x22003), 0);
    assert_eq!(phys_write_u64(&mut mem, 0x22000 + 4 * 8, 0x77003), 0);
    let va = (2u64 << 30) | (3 << 21) | (4 << 12) | 0x321;
    let r = translate(&mem, Architecture::X86Pae, 0x20000, va);
    assert_eq!(r, Some(Translation { paddr: 0x77321, page_size: 4096 }));
    // a 2 MiB page at directory entry 5
    assert_eq!(phys_write_u64(&mut mem, 0x21000 + 5 * 8, 0x0120_0083), 0);
    let va = (2u64 << 30) | (5 << 21) | 0x1_2345;
    let r = translate(&mem, Architecture::X86Pae, 0x20000, va);
    assert_eq!(r, Some(Translation { paddr: 0x0121_2345, page_size: 0x20_0000 }));
}

#[test]
fn export_lookup_takes_the_first_match() {
    let ex = vec![(b"A".to_vec(), 1u64), (b"PsActiveProcessHead".to_vec(), 0x3000), (b"PsActiveProcessHead".to_vec(), 9)];
    assert_eq!(find_export(&ex, b"PsActiveProcessHead"), Some(0x3000));
    assert_eq!(find_export(&ex, b"A"), Some(1));
    assert_eq!(find_export(&ex, b"B"), None);
    assert_eq!(find_export(&vec![], b"A"), None);
}

#[test]
fn process_head_comes_from_the_export_table() {
    let mut page = pe_page("ntoskrnl.exe");
    // one export: PsActiveProcessHead at RVA 0x3000
    put(&mut page, 0x400 + 16, &1u32.to_le_bytes());
    put(&mut page, 0x400 + 20, &1u32.to_le_bytes());
    put(&mut page, 0x400 + 24, &1u32.to_le_bytes());
    put(&mut page, 0x400 + 28, &0x480u32.to_le_bytes());
    put(&mut page, 0x400 + 32, &0x490u32.to_le_bytes());
    put(&mut page, 0x400 + 36, &0x4a0u32.to_le_bytes());
    put(&mut page, 0x480, &0x3000u32.to_le_bytes());
    put(&mut page, 0x490, &0x4c0u32.to_le_bytes());
    put(&mut page, 0x4a0, &0u16.to_le_bytes());
    put(&mut page, 0x4c0, b"PsActiveProcessHead\0");
    let mut f = Fixture::new();
    f.mem.add_frame(0x400_0000);
    f.map_4k(0xFFFF_F800_0140_0000, 0x400_0000);
    assert!(f.mem.phys_write_raw(0x400_0000, &page));
    let mut vat = Vat::new(64);
    let sb = StartBlock { arch: Architecture::X64, dtb: DTB, va: 0xFFFF_F800_0150_0000 };
    let kernel = find(&mut vat, &f.mem, &sb).unwrap();
    assert_eq!(process_head(&mut vat, &f.mem, sb, kernel), Some(0xFFFF_F800_0140_3000));
    // an image without that export
    let g = kernel_fixture("ntoskrnl.exe");
    let mut fresh = Vat::new(64);
    assert_eq!(process_head(&mut fresh, &g.mem, sb, kernel), None);
}

#[test]
fn read_status_marks_each_byte() {
    let mut f = Fixture::new();
    f.mem.add_frame(0x90000);
    f.map_4k(0x7000_1000, 0x90000);
    assert!(f.mem.phys_write_raw(0x90000, &vec![0x5a; 4096]));
    let mut vat = Vat::new(8);
    let mut out = vec![1u8; 0x1800];
    let st = vat.virt_read_status(&f.mem, Architecture::X64, DTB, 0x7000_0c00, &mut out).unwrap();
    assert_eq!(st.len(), 0x1800);
    assert!(st[..0x400].iter().all(|&b| !b));
    assert!(st[0x400..0x1400].iter().all(|&b| b));
    assert!(st[0x1400..].iter().all(|&b| !b));
    assert!(out[..0x400].iter().all(|&x| x == 1));
    assert!(out[0x400..0x1400].iter().all(|&x| x == 0x5a));
    assert!(out[0x1400..].iter().all(|&x| x == 1));
}

#[test]
fn one_read_equals_two_reads_split_at_a_page() {
    let mut f = Fixture::new();
    for (i, pa) in [0xa0000u64, 0xb0000, 0xc0000].iter().enumerate() {
        f.mem.add_frame(*pa);
        f.map_4k(0x6000_0000 + i as u64 * 0x1000, *pa);
        let bytes: Vec<u8> = (0..4096u32).map(|x| (x as u8).wrapping_mul(i as u8 + 3)).collect();
        assert!(f.mem.phys_write_raw(*pa, &bytes));
    }
    let mut vat = Vat::new(4);
    let mut whole = vec![0u8; 0x4000];
    assert_eq!(vat.virt_read(&f.mem, Architecture::X64, DTB, 0x6000_0000, &mut whole), Ok(false));
    let mut a = vec![0u8; 0x2000];
    let mut b = vec![0u8; 0x2000];
    assert_eq!(vat.virt_read(&f.mem, Architecture::X64, DTB, 0x6000_0000, &mut a), Ok(true));
    assert_eq!(vat.virt_read(&f.mem, Architecture::X64, DTB, 0x6000_2000, &mut b), Ok(false));
    a.extend(b);
    assert_eq!(whole, a);
}
