use vstd::prelude::*;
use crate::address::addr_end;
use crate::arch::Architecture;
use crate::mem::{PhysicalMemory, le16, le32, le64, read_le16, read_le32, read_le64};
use crate::ntos::zeros;
use crate::vat::{Vat, virt_fill, virt_mapped};

verus! {

/// The most list entries that a process walk visits.
pub const MAX_PROCESSES: u64 = 4096;

/// Length of the image name held in `_EPROCESS`.
pub const IMAGE_NAME_LEN: usize = 15;

/// Field offsets of the kernel structures for one Windows build.
#[derive(Clone, Copy, Debug, PartialEq, Eq, Structural)]
pub struct Offsets {
    /// `_EPROCESS.ActiveProcessLinks`.
    pub active_process_links: u64,
    /// `_EPROCESS.UniqueProcessId`.
    pub unique_process_id: u64,
    /// `_KPROCESS.DirectoryTableBase`.
    pub directory_table_base: u64,
    /// `_EPROCESS.Peb`.
    pub peb: u64,
    /// `_EPROCESS.ImageFileName`.
    pub image_file_name: u64,
    /// `_EPROCESS.Wow64Process`: not null for a 32-bit process on a 64-bit kernel.
    pub wow64_process: u64,
}

/// One process found in the kernel's process list.
pub struct ProcessInfo {
    pub pid: u64,
    pub dtb: u64,
    pub peb: u64,
    pub eprocess: u64,
    pub name: Vec<u8>,
    pub arch: Architecture,
    /// Whether the process runs under Wow64.
    pub wow64: bool,
}

/// A process as plain values.
pub struct ProcessView {
    pub pid: u64,
    pub dtb: u64,
    pub peb: u64,
    pub eprocess: u64,
    pub name: Seq<u8>,
    pub arch: Architecture,
    pub wow64: bool,
}

impl ProcessInfo {
    pub open spec fn view(&self) -> ProcessView {
        ProcessView {
            pid: self.pid,
            dtb: self.dtb,
            peb: self.peb,
            eprocess: self.eprocess,
            name: self.name@,
            arch: self.arch,
            wow64: self.wow64,
        }
    }
}

#[verifier::opaque]
/// The `n` bytes at virtual address `va`, where all of them are mapped.
pub open spec fn virt_bytes<M: PhysicalMemory>(m: &M, arch: Architecture, dtb: u64, va: int, n: int) -> Option<Seq<u8>> {
    if 0 <= va && va + n <= addr_end() && virt_mapped(m, arch, dtb, va, n) {
        Some(virt_fill(m, arch, dtb, va, zeros(n)))
    } else {
        None
    }
}

/// The little-endian `u64` at virtual address `va`, where it is mapped.
pub open spec fn virt_u64<M: PhysicalMemory>(m: &M, arch: Architecture, dtb: u64, va: int) -> Option<u64> {
    match virt_bytes(m, arch, dtb, va, 8) {
        Some(b) => Some(le64(b) as u64),
        None => None,
    }
}

#[verifier::opaque]
/// The process whose `ActiveProcessLinks` entry is at `link`, where all its fields
/// can be read.
pub open spec fn process_at<M: PhysicalMemory>(m: &M, arch: Architecture, dtb: u64, off: Offsets, link: u64) -> Option<ProcessView> {
    let ep = link - off.active_process_links;
    match (
        virt_u64(m, arch, dtb, ep + off.unique_process_id),
        virt_u64(m, arch, dtb, ep + off.directory_table_base),
        virt_u64(m, arch, dtb, ep + off.peb),
        virt_bytes(m, arch, dtb, ep + off.image_file_name, IMAGE_NAME_LEN as int),
        virt_u64(m, arch, dtb, ep + off.wow64_process),
    ) {
        (Some(pid), Some(pdtb), Some(peb), Some(name), Some(w)) => if ep >= 0 {
            Some(ProcessView { pid, dtb: pdtb, peb, eprocess: ep as u64, name, arch, wow64: w != 0 })
        } else {
            None
        },
        _ => None,
    }
}

/// The processes of the list from entry `cur` on: the walk stops at the head, at an
/// entry already seen, at a link that cannot be read, or when `fuel` runs out;
/// entries whose fields cannot be read are skipped.
pub open spec fn walk_list<M: PhysicalMemory>(
    m: &M,
    arch: Architecture,
    dtb: u64,
    off: Offsets,
    head: u64,
    cur: u64,
    fuel: nat,
    seen: Seq<u64>,
) -> Seq<ProcessView>
    decreases fuel,
{
    if fuel == 0 || cur == head || seen.contains(cur) {
        seq![]
    } else {
        let rest = match virt_u64(m, arch, dtb, cur as int) {
            Some(next) => walk_list(m, arch, dtb, off, head, next, (fuel - 1) as nat, seen.push(cur)),
            None => seq![],
        };
        match process_at(m, arch, dtb, off, cur) {
            Some(p) => seq![p] + rest,
            None => rest,
        }
    }
}

/// The process list that starts at the list head `head`.
pub open spec fn process_walk<M: PhysicalMemory>(m: &M, arch: Architecture, dtb: u64, off: Offsets, head: u64) -> Seq<ProcessView> {
    match virt_u64(m, arch, dtb, head as int) {
        Some(first) => walk_list(m, arch, dtb, off, head, first, MAX_PROCESSES as nat, seq![]),
        None => seq![],
    }
}

/// A walk never yields more processes than it has fuel.
pub proof fn lemma_walk_bounded<M: PhysicalMemory>(
    m: &M,
    arch: Architecture,
    dtb: u64,
    off: Offsets,
    head: u64,
    cur: u64,
    fuel: nat,
    seen: Seq<u64>,
)
    ensures
        walk_list(m, arch, dtb, off, head, cur, fuel, seen).len() <= fuel,
    decreases fuel,
{
    if fuel > 0 && cur != head && !seen.contains(cur) {
        match virt_u64(m, arch, dtb, cur as int) {
            Some(next) => lemma_walk_bounded(m, arch, dtb, off, head, next, (fuel - 1) as nat, seen.push(cur)),
            None => {},
        }
    }
}

/// Process enumeration stops within the cap, whatever the list holds, a circular
/// one included.
pub proof fn lemma_process_walk_capped<M: PhysicalMemory>(m: &M, arch: Architecture, dtb: u64, off: Offsets, head: u64)
    ensures
        process_walk(m, arch, dtb, off, head).len() <= MAX_PROCESSES,
{
    match virt_u64(m, arch, dtb, head as int) {
        Some(first) => lemma_walk_bounded(m, arch, dtb, off, head, first, MAX_PROCESSES as nat, seq![]),
        None => {},
    }
}

/// Reads `n` bytes at a virtual address; `None` unless all of them are mapped.
pub fn read_virt_bytes<M: PhysicalMemory>(vat: &mut Vat, m: &M, arch: Architecture, dtb: u64, va: u64, n: usize) -> (r: Option<Vec<u8>>)
    requires
        old(vat).wf(),
        old(vat).coherent(m),
    ensures
        final(vat).wf(),
        final(vat).coherent(m),
        match r {
            Some(b) => b@.len() == n && virt_bytes(m, arch, dtb, va as int, n as int) == Some(b@),
            None => virt_bytes(m, arch, dtb, va as int, n as int) is None,
        },
{
    proof {
        reveal(virt_bytes);
    }
    let mut buf: Vec<u8> = vec![0u8; n];
    assert(buf@ =~= zeros(n as int));
    match vat.virt_read(m, arch, dtb, va, &mut buf) {
        Ok(true) => Some(buf),
        _ => None,
    }
}

/// Reads a little-endian `u64` at a virtual address; `None` unless it is mapped.
pub fn read_virt_u64<M: PhysicalMemory>(vat: &mut Vat, m: &M, arch: Architecture, dtb: u64, va: u64) -> (r: Option<u64>)
    requires
        old(vat).wf(),
        old(vat).coherent(m),
    ensures
        final(vat).wf(),
        final(vat).coherent(m),
        r == virt_u64(m, arch, dtb, va as int),
{
    proof {
        reveal(virt_bytes);
    }
    match read_virt_bytes(vat, m, arch, dtb, va, 8) {
        Some(b) => {
            assert(b@.subrange(0, 8) =~= b@);
            Some(read_le64(b.as_slice(), 0))
        },
        None => None,
    }
}

/// Reads a `u64` at `base + field`; `None` where the sum overflows or it is not mapped.
fn read_field<M: PhysicalMemory>(vat: &mut Vat, m: &M, arch: Architecture, dtb: u64, base: u64, field: u64) -> (r: Option<u64>)
    requires
        old(vat).wf(),
        old(vat).coherent(m),
    ensures
        final(vat).wf(),
        final(vat).coherent(m),
        r == virt_u64(m, arch, dtb, base + field),
{
    proof {
        reveal(virt_bytes);
    }
    if base > u64::MAX - field {
        return None;
    }
    read_virt_u64(vat, m, arch, dtb, base + field)
}

/// Reads the process whose `ActiveProcessLinks` entry is at `link`.
fn read_process<M: PhysicalMemory>(vat: &mut Vat, m: &M, arch: Architecture, dtb: u64, off: Offsets, link: u64) -> (r: Option<ProcessInfo>)
    requires
        old(vat).wf(),
        old(vat).coherent(m),
    ensures
        final(vat).wf(),
        final(vat).coherent(m),
        match r {
            Some(p) => process_at(m, arch, dtb, off, link) == Some(p.view()),
            None => process_at(m, arch, dtb, off, link) is None,
        },
{
    proof {
        reveal(process_at);
        reveal(virt_bytes);
    }
    if link < off.active_process_links {
        return None;
    }
    let ep = link - off.active_process_links;
    let pid = read_field(vat, m, arch, dtb, ep, off.unique_process_id);
    let pdtb = read_field(vat, m, arch, dtb, ep, off.directory_table_base);
    let peb = read_field(vat, m, arch, dtb, ep, off.peb);
    let name = if ep > u64::MAX - off.image_file_name {
        None
    } else {
        read_virt_bytes(vat, m, arch, dtb, ep + off.image_file_name, IMAGE_NAME_LEN)
    };
    let w = read_field(vat, m, arch, dtb, ep, off.wow64_process);
    match (pid, pdtb, peb, name, w) {
        (Some(pid), Some(pdtb), Some(peb), Some(name), Some(w)) => Some(
            ProcessInfo { pid, dtb: pdtb, peb, eprocess: ep, name, arch, wow64: w != 0 },
        ),
        _ => None,
    }
}

fn contains_addr(seen: &Vec<u64>, a: u64) -> (r: bool)
    ensures
        r == seen@.contains(a),
{
    let mut i: usize = 0;
    while i < seen.len()
        invariant
            i <= seen@.len(),
            forall|j: int| 0 <= j < i ==> seen@[j] != a,
        decreases seen@.len() - i,
    {
        if seen[i] == a {
            assert(seen@[i as int] == a);
            return true;
        }
        i = i + 1;
    }
    false
}

/// Lists the processes of the kernel's process list whose head `_LIST_ENTRY` is at
/// `head`, in list order.
pub fn process_list<M: PhysicalMemory>(vat: &mut Vat, m: &M, arch: Architecture, dtb: u64, head: u64, off: Offsets) -> (r: Vec<ProcessInfo>)
    requires
        old(vat).wf(),
        old(vat).coherent(m),
    ensures
        final(vat).wf(),
        final(vat).coherent(m),
        r@.map_values(|p: ProcessInfo| p.view()) == process_walk(m, arch, dtb, off, head),
        r@.len() <= MAX_PROCESSES,
{
    let mut out: Vec<ProcessInfo> = Vec::new();
    let first = read_virt_u64(vat, m, arch, dtb, head);
    let mut cur = match first {
        Some(f) => f,
        None => {
            assert(out@.map_values(|p: ProcessInfo| p.view()) =~= seq![]);
            return out;
        },
    };
    let ghost total = process_walk(m, arch, dtb, off, head);
    let mut seen: Vec<u64> = Vec::new();
    let mut fuel: u64 = MAX_PROCESSES;
    proof {
        lemma_process_walk_capped(m, arch, dtb, off, head);
        assert(out@.map_values(|p: ProcessInfo| p.view()) + walk_list(m, arch, dtb, off, head, cur, fuel as nat, seen@) =~= total);
    }
    while fuel > 0 && cur != head && !contains_addr(&seen, cur)
        invariant
            vat.wf(),
            vat.coherent(m),
            total == process_walk(m, arch, dtb, off, head),
            total.len() <= MAX_PROCESSES,
            out@.map_values(|p: ProcessInfo| p.view()) + walk_list(m, arch, dtb, off, head, cur, fuel as nat, seen@) == total,
        decreases fuel,
    {
        let ghost prev = out@.map_values(|p: ProcessInfo| p.view());
        let ghost rest_before = walk_list(m, arch, dtb, off, head, cur, fuel as nat, seen@);
        let p = read_process(vat, m, arch, dtb, off, cur);
        let next = read_virt_u64(vat, m, arch, dtb, cur);
        let ghost rest = match next {
            Some(n) => walk_list(m, arch, dtb, off, head, n, (fuel - 1) as nat, seen@.push(cur)),
            None => seq![],
        };
        match p {
            Some(info) => {
                out.push(info);
                proof {
                    assert(out@.map_values(|p: ProcessInfo| p.view()) =~= prev.push(info.view()));
                    assert(rest_before == seq![info.view()] + rest);
                    assert(out@.map_values(|p: ProcessInfo| p.view()) + rest =~= prev + rest_before);
                }
            },
            None => {
                assert(rest_before == rest);
            },
        }
        seen.push(cur);
        match next {
            Some(n) => {
                cur = n;
            },
            None => {
                proof {
                    assert(out@.map_values(|p: ProcessInfo| p.view()) =~= total);
                }
                return out;
            },
        }
        fuel = fuel - 1;
    }
    proof {
        assert(walk_list(m, arch, dtb, off, head, cur, fuel as nat, seen@) == Seq::<ProcessView>::empty());
        assert(out@.map_values(|p: ProcessInfo| p.view()) =~= total);
    }
    out
}

/// The most list entries that a module walk visits.
pub const MAX_MODULES: u64 = 4096;

/// Field offsets of the user-mode loader structures for one Windows build.
#[derive(Clone, Copy, Debug, PartialEq, Eq, Structural)]
pub struct ModuleOffsets {
    /// `_PEB.Ldr`.
    pub ldr: u64,
    /// `_PEB_LDR_DATA.InMemoryOrderModuleList`.
    pub in_memory_order_module_list: u64,
    /// `_LDR_DATA_TABLE_ENTRY.InMemoryOrderLinks`.
    pub in_memory_order_links: u64,
    /// `_LDR_DATA_TABLE_ENTRY.DllBase`.
    pub dll_base: u64,
    /// `_LDR_DATA_TABLE_ENTRY.SizeOfImage`.
    pub size_of_image: u64,
    /// `_LDR_DATA_TABLE_ENTRY.BaseDllName`, a `_UNICODE_STRING`.
    pub base_dll_name: u64,
}

/// One module loaded into a process.
pub struct ModuleInfo {
    /// The base name as UTF-16LE bytes.
    pub name: Vec<u8>,
    pub base: u64,
    pub size: u64,
    /// The process id of the owner.
    pub pid: u64,
}

/// A module as plain values.
pub struct ModuleView {
    pub name: Seq<u8>,
    pub base: u64,
    pub size: u64,
    pub pid: u64,
}

impl ModuleInfo {
    pub open spec fn view(&self) -> ModuleView {
        ModuleView { name: self.name@, base: self.base, size: self.size, pid: self.pid }
    }
}

#[verifier::opaque]
/// The module whose `InMemoryOrderLinks` entry is at `link`, where all its fields can
/// be read.
pub open spec fn module_at<M: PhysicalMemory>(m: &M, arch: Architecture, dtb: u64, off: ModuleOffsets, pid: u64, link: u64) -> Option<ModuleView> {
    let e = link - off.in_memory_order_links;
    let us = e + off.base_dll_name;
    match (
        virt_u64(m, arch, dtb, e + off.dll_base),
        virt_bytes(m, arch, dtb, e + off.size_of_image, 4),
        virt_bytes(m, arch, dtb, us, 2),
        virt_u64(m, arch, dtb, us + 8),
    ) {
        (Some(base), Some(size), Some(len), Some(buf)) => match virt_bytes(m, arch, dtb, buf as int, le16(len)) {
            Some(name) => if e >= 0 {
                Some(ModuleView { name, base, size: le32(size) as u64, pid })
            } else {
                None
            },
            None => None,
        },
        _ => None,
    }
}

/// The modules of the list from entry `cur` on, walked as the process list is.
pub open spec fn walk_modules<M: PhysicalMemory>(
    m: &M,
    arch: Architecture,
    dtb: u64,
    off: ModuleOffsets,
    pid: u64,
    head: u64,
    cur: u64,
    fuel: nat,
    seen: Seq<u64>,
) -> Seq<ModuleView>
    decreases fuel,
{
    if fuel == 0 || cur == head || seen.contains(cur) {
        seq![]
    } else {
        let rest = match virt_u64(m, arch, dtb, cur as int) {
            Some(next) => walk_modules(m, arch, dtb, off, pid, head, next, (fuel - 1) as nat, seen.push(cur)),
            None => seq![],
        };
        match module_at(m, arch, dtb, off, pid, cur) {
            Some(x) => seq![x] + rest,
            None => rest,
        }
    }
}

/// The module list of a process: its PEB's loader data, then the in-memory-order list.
pub open spec fn module_walk<M: PhysicalMemory>(m: &M, p: ProcessView, off: ModuleOffsets) -> Seq<ModuleView> {
    match virt_u64(m, p.arch, p.dtb, p.peb + off.ldr) {
        Some(ldr) => {
            let head = ldr + off.in_memory_order_module_list;
            if head > u64::MAX {
                seq![]
            } else {
                match virt_u64(m, p.arch, p.dtb, head) {
                    Some(first) => walk_modules(m, p.arch, p.dtb, off, p.pid, head as u64, first, MAX_MODULES as nat, seq![]),
                    None => seq![],
                }
            }
        },
        None => seq![],
    }
}

/// Reads the module whose `InMemoryOrderLinks` entry is at `link`.
fn read_module<M: PhysicalMemory>(vat: &mut Vat, m: &M, arch: Architecture, dtb: u64, off: ModuleOffsets, pid: u64, link: u64) -> (r: Option<ModuleInfo>)
    requires
        old(vat).wf(),
        old(vat).coherent(m),
    ensures
        final(vat).wf(),
        final(vat).coherent(m),
        match r {
            Some(x) => module_at(m, arch, dtb, off, pid, link) == Some(x.view()),
            None => module_at(m, arch, dtb, off, pid, link) is None,
        },
{
    proof {
        reveal(module_at);
        reveal(virt_bytes);
    }
    if link < off.in_memory_order_links {
        return None;
    }
    let e = link - off.in_memory_order_links;
    if e > u64::MAX - off.base_dll_name || e > u64::MAX - off.size_of_image {
        return None;
    }
    let us = e + off.base_dll_name;
    let base = read_field(vat, m, arch, dtb, e, off.dll_base);
    let size = read_virt_bytes(vat, m, arch, dtb, e + off.size_of_image, 4);
    let len = read_virt_bytes(vat, m, arch, dtb, us, 2);
    let buf = read_field(vat, m, arch, dtb, us, 8);
    match (base, size, len, buf) {
        (Some(base), Some(size), Some(len), Some(buf)) => {
            assert(size@.subrange(0, 4) =~= size@);
            assert(len@.subrange(0, 2) =~= len@);
            let n = read_le16(len.as_slice(), 0);
            match read_virt_bytes(vat, m, arch, dtb, buf, n as usize) {
                Some(name) => Some(ModuleInfo { name, base, size: read_le32(size.as_slice(), 0) as u64, pid }),
                None => None,
            }
        },
        _ => None,
    }
}

/// Lists the modules loaded into process `p`, in memory order, reading through the
/// process's own page tables.
pub fn module_list<M: PhysicalMemory>(vat: &mut Vat, m: &M, p: &ProcessInfo, off: ModuleOffsets) -> (r: Vec<ModuleInfo>)
    requires
        old(vat).wf(),
        old(vat).coherent(m),
    ensures
        final(vat).wf(),
        final(vat).coherent(m),
        r@.map_values(|x: ModuleInfo| x.view()) == module_walk(m, p.view(), off),
{
    let arch = p.arch;
    let dtb = p.dtb;
    let mut out: Vec<ModuleInfo> = Vec::new();
    let ldr = match read_field(vat, m, arch, dtb, p.peb, off.ldr) {
        Some(l) => l,
        None => {
            assert(out@.map_values(|x: ModuleInfo| x.view()) =~= seq![]);
            return out;
        },
    };
    if ldr > u64::MAX - off.in_memory_order_module_list {
        assert(out@.map_values(|x: ModuleInfo| x.view()) =~= seq![]);
        return out;
    }
    let head = ldr + off.in_memory_order_module_list;
    let mut cur = match read_virt_u64(vat, m, arch, dtb, head) {
        Some(f) => f,
        None => {
            assert(out@.map_values(|x: ModuleInfo| x.view()) =~= seq![]);
            return out;
        },
    };
    let ghost total = module_walk(m, p.view(), off);
    let mut seen: Vec<u64> = Vec::new();
    let mut fuel: u64 = MAX_MODULES;
    proof {
        assert(out@.map_values(|x: ModuleInfo| x.view()) + walk_modules(m, arch, dtb, off, p.pid, head, cur, fuel as nat, seen@) =~= total);
    }
    while fuel > 0 && cur != head && !contains_addr(&seen, cur)
        invariant
            vat.wf(),
            vat.coherent(m),
            total == module_walk(m, p.view(), off),
            out@.map_values(|x: ModuleInfo| x.view()) + walk_modules(m, arch, dtb, off, p.pid, head, cur, fuel as nat, seen@) == total,
        decreases fuel,
    {
        let ghost prev = out@.map_values(|x: ModuleInfo| x.view());
        let ghost rest_before = walk_modules(m, arch, dtb, off, p.pid, head, cur, fuel as nat, seen@);
        let x = read_module(vat, m, arch, dtb, off, p.pid, cur);
        let next = read_virt_u64(vat, m, arch, dtb, cur);
        let ghost rest = match next {
            Some(n) => walk_modules(m, arch, dtb, off, p.pid, head, n, (fuel - 1) as nat, seen@.push(cur)),
            None => seq![],
        };
        match x {
            Some(info) => {
                out.push(info);
                proof {
                    assert(out@.map_values(|x: ModuleInfo| x.view()) =~= prev.push(info.view()));
                    assert(rest_before == seq![info.view()] + rest);
                    assert(out@.map_values(|x: ModuleInfo| x.view()) + rest =~= prev + rest_before);
                }
            },
            None => {
                assert(rest_before == rest);
            },
        }
        seen.push(cur);
        match next {
            Some(n) => {
                cur = n;
            },
            None => {
                proof {
                    assert(out@.map_values(|x: ModuleInfo| x.view()) =~= total);
                }
                return out;
            },
        }
        fuel = fuel - 1;
    }
    proof {
        assert(walk_modules(m, arch, dtb, off, p.pid, head, cur, fuel as nat, seen@) == Seq::<ModuleView>::empty());
        assert(out@.map_values(|x: ModuleInfo| x.view()) =~= total);
    }
    out
}

} // verus!
