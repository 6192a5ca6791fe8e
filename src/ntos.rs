use vstd::prelude::*;
use crate::address::addr_end;
use crate::arch::Architecture;
use crate::mem::{PhysicalMemory, le16, le64, read_le16, read_le64};
use crate::vat::{Vat, virt_fill};
use crate::bridge::same_bytes;

verus! {

/// The bootstrap hint: the architecture, the kernel's top-level page table and,
/// where known (not 0), a virtual address inside the kernel image.
#[derive(Clone, Copy, Debug, PartialEq, Eq, Structural)]
pub struct StartBlock {
    pub arch: Architecture,
    pub dtb: u64,
    pub va: u64,
}

/// Why the kernel image was not found.
#[derive(Clone, Copy, Debug, PartialEq, Eq, Structural)]
pub enum ScanError {
    /// Every candidate window was searched.
    NotFound,
    /// The search is not available for this architecture.
    Unsupported,
    /// The search without a hint is not implemented.
    NotImplemented,
}

/// The `MZ` signature at the start of a PE image.
pub const MZ_MAGIC: u16 = 0x5a4d;

/// The `POOLCODE` marker of the kernel image, as a little-endian `u64`.
pub const POOLCODE_MAGIC: u64 = 0x45444F434C4F4F50;

/// Size of a search window: 2 MiB.
pub const WINDOW: u64 = 0x20_0000;

/// How far below the hint the search goes: 32 MiB.
pub const SCAN_SPAN: u64 = 0x200_0000;

/// How much of a candidate is read for its PE header: 32 MiB.
pub const PROBE_LEN: u64 = 0x200_0000;

/// What the PE parser finds in `image`, where it parses: the DLL name (empty where
/// it has none) and the exports as (name, RVA) pairs in table order.
pub uninterp spec fn pe_parse_of(image: Seq<u8>) -> Option<(Seq<u8>, Seq<(Seq<u8>, u64)>)>;

/// The DLL name of the PE image in `image`, where it parses.
pub open spec fn pe_name(image: Seq<u8>) -> Option<Seq<u8>> {
    match pe_parse_of(image) {
        Some(p) => Some(p.0),
        None => None,
    }
}

/// The exports of the PE image in `image`, where it parses.
pub open spec fn pe_exports(image: Seq<u8>) -> Option<Seq<(Seq<u8>, u64)>> {
    match pe_parse_of(image) {
        Some(p) => Some(p.1),
        None => None,
    }
}

/// A parsed PE image: its DLL name and its exports.
pub struct PeSummary {
    pub name: Vec<u8>,
    pub exports: Vec<(Vec<u8>, u64)>,
}

/// The exports of a summary as plain values.
pub open spec fn exports_view(e: Seq<(Vec<u8>, u64)>) -> Seq<(Seq<u8>, u64)> {
    e.map_values(|x: (Vec<u8>, u64)| (x.0@, x.1))
}

/// Relies on `goblin::pe::PE::parse_with_opts`, with RVAs left unresolved, and on the
/// `name` and `exports` fields of its result; the result depends on the bytes alone.
#[verifier::external_body]
fn parse_pe(image: &[u8]) -> (r: Option<PeSummary>)
    ensures
        r is Some <==> pe_parse_of(image@) is Some,
        r is Some ==> r->0.name@ == pe_name(image@)->0,
        r is Some ==> exports_view(r->0.exports@) == pe_exports(image@)->0,
{
    let mut opts = goblin::pe::options::ParseOptions::default();
    opts.resolve_rva = false;
    goblin::pe::PE::parse_with_opts(image, &opts).ok().map(|pe| PeSummary {
        name: pe.name.unwrap_or_default().as_bytes().to_vec(),
        exports: pe.exports.iter().map(|e| (e.name.unwrap_or_default().as_bytes().to_vec(), e.rva as u64)).collect(),
    })
}

/// The bytes of `ntoskrnl.exe`.
pub open spec fn kernel_name() -> Seq<u8> {
    seq![0x6eu8, 0x74, 0x6f, 0x73, 0x6b, 0x72, 0x6e, 0x6c, 0x2e, 0x65, 0x78, 0x65]
}

/// `n` zero bytes.
pub open spec fn zeros(n: int) -> Seq<u8> {
    Seq::new(n as nat, |i: int| 0u8)
}

/// Whether the page at offset `o` of `w` starts with `MZ`.
pub open spec fn page_is_mz(w: Seq<u8>, o: int) -> bool {
    le16(w.subrange(o, w.len() as int)) == MZ_MAGIC
}

/// Whether some 8-byte slot of the page at offset `o` of `w` holds `POOLCODE`.
pub open spec fn page_has_poolcode(w: Seq<u8>, o: int) -> bool {
    exists|k: int| 0 <= k < 512 && #[trigger] le64(w.subrange(o + 8 * k, w.len() as int)) == POOLCODE_MAGIC
}

/// The search window that holds address `a`.
pub open spec fn window_of(a: int) -> int {
    a - a % WINDOW as int
}

#[verifier::opaque]
/// Whether the page at `a` is the kernel image: its window shows `MZ` and `POOLCODE`
/// on that page, and the 32 MiB from `a` parse as a PE named `ntoskrnl.exe`.
pub open spec fn kernel_at<M: PhysicalMemory>(m: &M, sb: StartBlock, a: int) -> bool {
    let wb = window_of(a);
    let w = virt_fill(m, sb.arch, sb.dtb, wb, zeros(WINDOW as int));
    &&& page_is_mz(w, a - wb)
    &&& page_has_poolcode(w, a - wb)
    &&& a + PROBE_LEN <= addr_end()
    &&& pe_name(virt_fill(m, sb.arch, sb.dtb, a, zeros(PROBE_LEN as int))) == Some(kernel_name())
}

/// Whether page `a` lies in a window that the search from hint `va` visits.
pub open spec fn in_scan(va: int, a: int) -> bool {
    &&& 0 <= a
    &&& a % 4096 == 0
    &&& window_of(a) <= window_of(va)
    &&& window_of(a) + SCAN_SPAN > va
}

/// Whether the search visits page `b` before page `a`: windows go downward, pages
/// within a window upward.
pub open spec fn scanned_before(b: int, a: int) -> bool {
    window_of(b) > window_of(a) || (window_of(b) == window_of(a) && b < a)
}

fn has_poolcode(w: &Vec<u8>, o: usize) -> (r: bool)
    requires
        o + 4096 <= w@.len(),
    ensures
        r == page_has_poolcode(w@, o as int),
{
    let n = w.len();
    let mut k: usize = 0;
    while k < 512
        invariant
            n == w@.len(),
            o + 4096 <= w@.len(),
            k <= 512,
            forall|j: int| 0 <= j < k ==> #[trigger] le64(w@.subrange(o + 8 * j, w@.len() as int)) != POOLCODE_MAGIC,
        decreases 512 - k,
    {
        if read_le64(w.as_slice(), o + 8 * k) == POOLCODE_MAGIC {
            return true;
        }
        k = k + 1;
    }
    false
}

fn is_kernel_name(b: &Vec<u8>) -> (r: bool)
    ensures
        r == (b@ == kernel_name()),
{
    let lit: Vec<u8> = vec![0x6eu8, 0x74, 0x6f, 0x73, 0x6b, 0x72, 0x6e, 0x6c, 0x2e, 0x65, 0x78, 0x65];
    assert(lit@ =~= kernel_name());
    if b.len() != lit.len() {
        return false;
    }
    let mut i: usize = 0;
    while i < b.len()
        invariant
            lit@ == kernel_name(),
            b@.len() == lit@.len(),
            i <= b@.len(),
            forall|j: int| 0 <= j < i ==> b@[j] == lit@[j],
        decreases b@.len() - i,
    {
        if b[i] != lit[i] {
            assert(b@[i as int] != lit@[i as int]);
            return false;
        }
        i = i + 1;
    }
    assert(b@ =~= lit@);
    true
}

/// Reads 32 MiB at `a` and asks whether they parse as a PE named `ntoskrnl.exe`.
fn probe_kernel<M: PhysicalMemory>(vat: &mut Vat, m: &M, sb: StartBlock, a: u64) -> (r: bool)
    requires
        old(vat).wf(),
        old(vat).coherent(m),
    ensures
        final(vat).wf(),
        final(vat).coherent(m),
        r == (a + PROBE_LEN <= addr_end() && pe_name(virt_fill(m, sb.arch, sb.dtb, a as int, zeros(PROBE_LEN as int)))
            == Some(kernel_name())),
{
    let mut buf: Vec<u8> = vec![0u8; PROBE_LEN as usize];
    assert(buf@ =~= zeros(PROBE_LEN as int));
    match vat.virt_read(m, sb.arch, sb.dtb, a, &mut buf) {
        Err(_) => false,
        Ok(_) => match parse_pe(buf.as_slice()) {
            None => false,
            Some(pe) => is_kernel_name(&pe.name),
        },
    }
}

/// Whether the page at offset `o` of the window read at `base` is the kernel image.
fn check_page<M: PhysicalMemory>(vat: &mut Vat, m: &M, sb: StartBlock, w: &Vec<u8>, base: u64, o: usize) -> (r: bool)
    requires
        old(vat).wf(),
        old(vat).coherent(m),
        base % WINDOW == 0,
        o % 4096 == 0,
        o + 4096 <= WINDOW,
        base + WINDOW <= addr_end(),
        w@ == virt_fill(m, sb.arch, sb.dtb, base as int, zeros(WINDOW as int)),
    ensures
        final(vat).wf(),
        final(vat).coherent(m),
        r == kernel_at(m, sb, base + o),
{
    proof {
        lemma_window_of(base as int, base + o);
        reveal(kernel_at);
    }
    if read_le16(w.as_slice(), o) == MZ_MAGIC && has_poolcode(w, o) {
        probe_kernel(vat, m, sb, base + o as u64)
    } else {
        false
    }
}

proof fn lemma_window_page(base: int, i: int, b: int)
    requires
        0 <= base,
        base % WINDOW as int == 0,
        0 <= i < 512,
        b % 4096 == 0,
        base + i * 4096 <= b < base + (i + 1) * 4096,
    ensures
        b == base + i * 4096,
        window_of(b) == base,
{
}

proof fn lemma_page_aligned(base: int, i: int)
    requires
        0 <= base,
        base % WINDOW as int == 0,
        0 <= i,
    ensures
        (base + i * 4096) % 4096 == 0,
{
    assert((base + i * 4096) % 4096 == 0) by (nonlinear_arith)
        requires
            base % 0x20_0000 == 0,
            0 <= base,
            0 <= i,
    ;
}

proof fn lemma_window_of(base: int, b: int)
    requires
        0 <= base,
        base % WINDOW as int == 0,
        base <= b < base + WINDOW,
    ensures
        window_of(b) == base,
{
}

#[verifier::rlimit(40)]
/// Searches downward from the 2 MiB window of the hint, over 32 MiB, for the page
/// where the kernel image starts, and returns the first one in search order.
pub fn find_x64_with_va<M: PhysicalMemory>(vat: &mut Vat, m: &M, sb: StartBlock) -> (r: Result<u64, ScanError>)
    requires
        old(vat).wf(),
        old(vat).coherent(m),
    ensures
        final(vat).wf(),
        final(vat).coherent(m),
        r is Ok ==> in_scan(sb.va as int, r->Ok_0 as int) && kernel_at(m, sb, r->Ok_0 as int),
        r is Ok ==> forall|b: int| in_scan(sb.va as int, b) && scanned_before(b, r->Ok_0 as int) ==> !kernel_at(m, sb, b),
        r is Err ==> r->Err_0 == ScanError::NotFound,
        r is Err ==> forall|b: int| in_scan(sb.va as int, b) ==> !kernel_at(m, sb, b),
{
    let hint = sb.va;
    let start = hint - hint % WINDOW;
    let mut base = start;
    while hint - base < SCAN_SPAN
        invariant
            vat.wf(),
            vat.coherent(m),
            hint == sb.va,
            start == window_of(hint as int),
            base <= start,
            base % WINDOW == 0,
            forall|b: int| in_scan(hint as int, b) && window_of(b) > base ==> !kernel_at(m, sb, b),
        decreases base,
    {
        let mut w: Vec<u8> = vec![0u8; WINDOW as usize];
        let ghost zero = w@;
        assert(zero =~= zeros(WINDOW as int));
        let res = vat.virt_read(m, sb.arch, sb.dtb, base, &mut w);
        assert(res is Ok);
        let mut i: usize = 0;
        while i < 512
            invariant
                vat.wf(),
                vat.coherent(m),
                hint == sb.va,
                start == window_of(hint as int),
                base <= start,
                base % WINDOW == 0,
                w@ == virt_fill(m, sb.arch, sb.dtb, base as int, zeros(WINDOW as int)),
                w@.len() == WINDOW,
                hint - base < SCAN_SPAN,
                i <= 512,
                forall|b: int| in_scan(hint as int, b) && window_of(b) > base ==> !kernel_at(m, sb, b),
                forall|b: int| #![trigger kernel_at(m, sb, b)]
                    b % 4096 == 0 && base <= b < base + i * 4096 ==> !kernel_at(m, sb, b),
            decreases 512 - i,
        {
            let o = i * 4096;
            let a = base + o as u64;
            let hit = check_page(vat, m, sb, &w, base, o);
            if hit {
                proof {
                    lemma_window_of(base as int, a as int);
                    lemma_page_aligned(base as int, i as int);
                    assert forall|b: int| in_scan(sb.va as int, b) && scanned_before(b, a as int) implies !kernel_at(m, sb, b) by {
                        if window_of(b) == base {
                            assert(b % 4096 == 0 && base <= b < base + i * 4096);
                        }
                    }
                }
                return Ok(a);
            }
            proof {
                assert forall|b: int| #![trigger kernel_at(m, sb, b)]
                    b % 4096 == 0 && base <= b < base + (i + 1) * 4096 implies !kernel_at(m, sb, b) by {
                    if b >= base + i * 4096 {
                        lemma_window_page(base as int, i as int, b);
                    }
                }
            }
            i = i + 1;
        }
        proof {
            assert forall|b: int| in_scan(hint as int, b) && window_of(b) >= base implies !kernel_at(m, sb, b) by {
                if window_of(b) == base {
                    assert(b % 4096 == 0 && base <= b < base + 512 * 4096);
                }
            }
        }
        if base < WINDOW {
            proof {
                assert forall|b: int| in_scan(sb.va as int, b) implies !kernel_at(m, sb, b) by {
                    assert(window_of(b) >= 0);
                }
            }
            return Err(ScanError::NotFound);
        }
        base = base - WINDOW;
        proof {
            assert forall|b: int| in_scan(hint as int, b) && window_of(b) > base implies !kernel_at(m, sb, b) by {
                assert(window_of(b) % WINDOW as int == 0);
                assert(window_of(b) >= base + WINDOW);
            }
        }
    }
    proof {
        assert forall|b: int| in_scan(sb.va as int, b) implies !kernel_at(m, sb, b) by {
            assert(window_of(b) > base);
        }
    }
    Err(ScanError::NotFound)
}

/// Search without a hint on x64: not implemented.
pub fn find_x64<M: PhysicalMemory>(m: &M) -> (r: Result<u64, ScanError>)
    ensures
        r == Err::<u64, ScanError>(ScanError::NotImplemented),
{
    Err(ScanError::NotImplemented)
}

/// Search on 32-bit x86: not available.
pub fn find_x86<M: PhysicalMemory>(m: &M) -> (r: Result<u64, ScanError>)
    ensures
        r == Err::<u64, ScanError>(ScanError::Unsupported),
{
    Err(ScanError::Unsupported)
}

/// Locates the virtual address of the loaded `ntoskrnl.exe` image. On x64 with a
/// hint the windows below the hint are searched; the search without a hint is not
/// implemented, and on other architectures it is not available.
pub fn find<M: PhysicalMemory>(vat: &mut Vat, m: &M, start_block: &StartBlock) -> (r: Result<u64, ScanError>)
    requires
        old(vat).wf(),
        old(vat).coherent(m),
    ensures
        final(vat).wf(),
        final(vat).coherent(m),
        start_block.arch != Architecture::X64 ==> r == Err::<u64, ScanError>(ScanError::Unsupported),
        start_block.arch == Architecture::X64 && start_block.va == 0 ==> r == Err::<u64, ScanError>(
            ScanError::NotImplemented,
        ),
        r is Ok ==> in_scan(start_block.va as int, r->Ok_0 as int) && kernel_at(m, *start_block, r->Ok_0 as int),
        r is Ok ==> forall|b: int|
            in_scan(start_block.va as int, b) && scanned_before(b, r->Ok_0 as int) ==> !kernel_at(m, *start_block, b),
        start_block.arch == Architecture::X64 && start_block.va != 0 && r is Err ==> r->Err_0 == ScanError::NotFound
            && forall|b: int| in_scan(start_block.va as int, b) ==> !kernel_at(m, *start_block, b),
{
    if start_block.arch == Architecture::X64 {
        if start_block.va != 0 {
            return find_x64_with_va(vat, m, *start_block);
        }
        find_x64(m)
    } else {
        find_x86(m)
    }
}

/// The bytes of `PsActiveProcessHead`.
pub open spec fn process_head_symbol() -> Seq<u8> {
    seq![0x50u8, 0x73, 0x41, 0x63, 0x74, 0x69, 0x76, 0x65, 0x50, 0x72, 0x6f, 0x63, 0x65, 0x73, 0x73, 0x48, 0x65, 0x61, 0x64]
}

/// The RVA of the first export named `name`.
pub open spec fn export_rva(ex: Seq<(Seq<u8>, u64)>, name: Seq<u8>) -> Option<u64>
    decreases ex.len(),
{
    if ex.len() == 0 {
        None
    } else if ex[0].0 == name {
        Some(ex[0].1)
    } else {
        export_rva(ex.drop_first(), name)
    }
}

/// Looks up the first export named `name`.
pub fn find_export(exports: &Vec<(Vec<u8>, u64)>, name: &[u8]) -> (r: Option<u64>)
    ensures
        r == export_rva(exports_view(exports@), name@),
{
    let ghost all = exports_view(exports@);
    let mut i: usize = 0;
    proof {
        assert(all.subrange(0, all.len() as int) =~= all);
    }
    while i < exports.len()
        invariant
            all == exports_view(exports@),
            i <= exports@.len(),
            export_rva(all, name@) == export_rva(all.subrange(i as int, all.len() as int), name@),
        decreases exports@.len() - i,
    {
        let ghost rest = all.subrange(i as int, all.len() as int);
        assert(rest[0] == (exports@[i as int].0@, exports@[i as int].1));
        if same_bytes(exports[i].0.as_slice(), name) {
            return Some(exports[i].1);
        }
        assert(rest.drop_first() =~= all.subrange(i + 1, all.len() as int));
        i = i + 1;
    }
    None
}

/// The list head `PsActiveProcessHead` of the kernel image at `kernel`: its export
/// RVA added to the image base, where the image parses and exports it.
pub open spec fn process_head_of<M: PhysicalMemory>(m: &M, sb: StartBlock, kernel: u64) -> Option<u64> {
    if kernel + PROBE_LEN > addr_end() {
        None
    } else {
        match pe_exports(virt_fill(m, sb.arch, sb.dtb, kernel as int, zeros(PROBE_LEN as int))) {
            Some(ex) => match export_rva(ex, process_head_symbol()) {
                Some(rva) => if kernel + rva <= u64::MAX {
                    Some((kernel + rva) as u64)
                } else {
                    None
                },
                None => None,
            },
            None => None,
        }
    }
}

/// Finds `PsActiveProcessHead` through the export table of the kernel image at `kernel`.
pub fn process_head<M: PhysicalMemory>(vat: &mut Vat, m: &M, sb: StartBlock, kernel: u64) -> (r: Option<u64>)
    requires
        old(vat).wf(),
        old(vat).coherent(m),
    ensures
        final(vat).wf(),
        final(vat).coherent(m),
        r == process_head_of(m, sb, kernel),
{
    let mut buf: Vec<u8> = vec![0u8; PROBE_LEN as usize];
    assert(buf@ =~= zeros(PROBE_LEN as int));
    if vat.virt_read(m, sb.arch, sb.dtb, kernel, &mut buf).is_err() {
        return None;
    }
    let pe = match parse_pe(buf.as_slice()) {
        Some(pe) => pe,
        None => {
            return None;
        },
    };
    let sym: Vec<u8> = vec![0x50u8, 0x73, 0x41, 0x63, 0x74, 0x69, 0x76, 0x65, 0x50, 0x72, 0x6f, 0x63, 0x65, 0x73, 0x73, 0x48, 0x65, 0x61, 0x64];
    assert(sym@ =~= process_head_symbol());
    match find_export(&pe.exports, sym.as_slice()) {
        Some(rva) => kernel.checked_add(rva),
        None => None,
    }
}

} // verus!
