use vstd::prelude::*;
use crate::address::{addr_end, page_base, page_align};
use crate::arch::Architecture;
use crate::mem::{PhysicalMemory, readable, bytes_at, le32, le64, read_le32, read_le64};

verus! {

/// Where a virtual page lives: the physical address and the size of the mapping page.
#[derive(Clone, Copy, Debug, PartialEq, Eq, Structural)]
pub struct Translation {
    pub paddr: u64,
    pub page_size: u64,
}

/// Why a virtual read could not start.
#[derive(Clone, Copy, Debug, PartialEq, Eq, Structural)]
pub enum VatError {
    /// The range runs past the end of the address space.
    OutOfRange,
}

/// The page-table entry at physical address `at`, where its bytes can be read.
pub open spec fn entry_at<M: PhysicalMemory>(m: &M, arch: Architecture, at: int) -> Option<u64> {
    let n = arch.spec_entry_size() as int;
    if readable(m, at, n) {
        let b = bytes_at(m, at, n);
        Some((if n == 4 { le32(b) } else { le64(b) }) as u64)
    } else {
        None
    }
}

/// The page-table walk for `vaddr` from level `k` down, with `table` as the level-`k` table.
pub open spec fn walk_from<M: PhysicalMemory>(
    m: &M,
    arch: Architecture,
    table: u64,
    vaddr: u64,
    k: u64,
) -> Option<Translation>
    decreases arch.spec_levels() - k,
{
    if k >= arch.spec_levels() {
        None
    } else {
        let idx = (vaddr >> arch.spec_shift(k)) & arch.spec_index_mask(k);
        let at = table + idx * arch.spec_entry_size();
        match entry_at(m, arch, at) {
            None => None,
            Some(e) => if e & 1u64 == 0u64 {
                None
            } else if k + 1 == arch.spec_levels() {
                Some(Translation { paddr: (e & arch.spec_frame_mask()) | (vaddr & 0xfffu64), page_size: 4096 })
            } else if arch.spec_large_allowed(k) && e & 0x80u64 != 0u64 {
                let size = arch.spec_page_size(k);
                let low = (size - 1) as u64;
                Some(Translation { paddr: (e & arch.spec_frame_mask() & !low) | (vaddr & low), page_size: size })
            } else {
                walk_from(m, arch, e & arch.spec_frame_mask(), vaddr, (k + 1) as u64)
            },
        }
    }
}

/// The translation of `vaddr` through the page tables rooted at `dtb`.
pub open spec fn walk<M: PhysicalMemory>(m: &M, arch: Architecture, dtb: u64, vaddr: u64) -> Option<Translation> {
    walk_from(m, arch, dtb, vaddr, 0)
}

/// Translates a virtual address by walking the page tables in physical memory.
pub fn translate<M: PhysicalMemory>(m: &M, arch: Architecture, dtb: u64, vaddr: u64) -> (r: Option<Translation>)
    ensures
        r == walk(m, arch, dtb, vaddr),
{
    let levels = arch.levels();
    let esize = arch.entry_size();
    let fm = arch.frame_mask();
    let mut table = dtb;
    let mut k: u64 = 0;
    while k < levels
        invariant
            k <= levels,
            levels == arch.spec_levels(),
            esize == arch.spec_entry_size(),
            fm == arch.spec_frame_mask(),
            walk(m, arch, dtb, vaddr) == walk_from(m, arch, table, vaddr, k),
        decreases levels - k,
    {
        let s = arch.shift(k);
        let mk = arch.index_mask(k);
        let idx = (vaddr >> s) & mk;
        assert(idx <= mk) by (bit_vector)
            requires idx == (vaddr >> s) & mk;
        let off = idx * esize;
        if table > u64::MAX - off {
            return None;
        }
        let at = table + off;
        let e: u64 = match m.phys_read_raw(at, esize as usize) {
            None => {
                return None;
            },
            Some(b) => {
                assert(b@.subrange(0, b@.len() as int) =~= bytes_at(m, at as int, esize as int));
                if esize == 4 {
                    read_le32(b.as_slice(), 0) as u64
                } else {
                    read_le64(b.as_slice(), 0)
                }
            },
        };
        if e & 1 == 0 {
            return None;
        } else if k + 1 == levels {
            return Some(Translation { paddr: (e & fm) | (vaddr & 0xfff), page_size: 4096 });
        } else if arch.large_allowed(k) && e & 0x80 != 0 {
            let size = arch.page_size(k);
            let low = size - 1;
            return Some(Translation { paddr: (e & fm & !low) | (vaddr & low), page_size: size });
        }
        table = e & fm;
        k = k + 1;
    }
    None
}

/// Overwrites `out` from index `at` with the bytes of `b`.
fn copy_into(out: &mut Vec<u8>, at: usize, b: &Vec<u8>)
    requires
        at + b@.len() <= old(out)@.len(),
    ensures
        final(out)@.len() == old(out)@.len(),
        forall|j: int| 0 <= j < old(out)@.len() ==> #[trigger] final(out)@[j] == if at <= j < at + b@.len() {
            b@[j - at]
        } else {
            old(out)@[j]
        },
{
    let total = out.len();
    let mut k: usize = 0;
    while k < b.len()
        invariant
            total == old(out)@.len(),
            k <= b@.len(),
            at + b@.len() <= old(out)@.len(),
            out@.len() == old(out)@.len(),
            forall|j: int| 0 <= j < old(out)@.len() ==> #[trigger] out@[j] == if at <= j < at + k {
                b@[j - at]
            } else {
                old(out)@[j]
            },
        decreases b@.len() - k,
    {
        out.set(at + k, b[k]);
        k = k + 1;
    }
}

/// A cached translation of the 4 KiB page at `vpage`.
#[derive(Clone, Copy, Debug, PartialEq, Eq, Structural)]
pub struct TlbEntry {
    pub dtb: u64,
    pub vpage: u64,
    pub arch: Architecture,
    pub tr: Translation,
}

/// A bounded translation cache; the least recently used entry leaves first.
pub struct Vat {
    pub entries: Vec<TlbEntry>,
    pub capacity: usize,
}

/// The first byte of the fragment of the range from `addr` to `end` that shares the page of `v`.
pub open spec fn frag_lo(addr: int, v: int) -> int {
    if addr > page_base(v) {
        addr
    } else {
        page_base(v)
    }
}

/// One past the last byte of the fragment of the range from `addr` to `end` that shares the page of `v`.
pub open spec fn frag_hi(end: int, v: int) -> int {
    if end < page_base(v) + 4096 {
        end
    } else {
        page_base(v) + 4096
    }
}

/// The byte that a read of the range from `addr` to `end` finds at virtual address `v`: `None` where the
/// page is not mapped or the physical fragment of the read on that page cannot be read.
pub open spec fn virt_byte<M: PhysicalMemory>(
    m: &M,
    arch: Architecture,
    dtb: u64,
    addr: int,
    end: int,
    v: int,
) -> Option<u8> {
    let vp = page_base(v);
    match walk(m, arch, dtb, vp as u64) {
        Some(t) => if readable(m, t.paddr + (frag_lo(addr, v) - vp), frag_hi(end, v) - frag_lo(addr, v)) {
            m.byte_at(t.paddr + (v - vp))
        } else {
            None
        },
        None => None,
    }
}

/// The buffer that a read of `len` bytes at `addr` leaves in place of `before`.
pub open spec fn virt_fill<M: PhysicalMemory>(
    m: &M,
    arch: Architecture,
    dtb: u64,
    addr: int,
    before: Seq<u8>,
) -> Seq<u8> {
    Seq::new(before.len(), |i: int| match virt_byte(m, arch, dtb, addr, addr + before.len(), addr + i) {
        Some(b) => b,
        None => before[i],
    })
}

/// Whether every byte of a read of `len` bytes at `addr` is mapped and readable.
pub open spec fn virt_mapped<M: PhysicalMemory>(m: &M, arch: Architecture, dtb: u64, addr: int, len: int) -> bool {
    forall|i: int| 0 <= i < len ==> (#[trigger] virt_byte(m, arch, dtb, addr, addr + len, addr + i)) is Some
}

proof fn lemma_same_page(cur: int, v: int)
    requires
        0 <= cur <= v < page_base(cur) + 4096,
    ensures
        page_base(v) == page_base(cur),
        v - page_base(v) == cur % 4096 + (v - cur),
{
}

proof fn lemma_fragment(addr: int, len: int, done: int, n: int, j: int)
    requires
        0 <= addr,
        0 <= done < len,
        0 < done ==> (addr + done) % 4096 == 0,
        n == if 4096 - (addr + done) % 4096 < len - done {
            4096 - (addr + done) % 4096
        } else {
            len - done
        },
        done <= j < done + n,
    ensures
        page_base(addr + j) == (addr + done) - (addr + done) % 4096,
        addr + j - page_base(addr + j) == (addr + done) % 4096 + (j - done),
        frag_lo(addr, addr + j) == addr + done,
        frag_hi(addr + len, addr + j) == addr + done + n,
{
    lemma_same_page(addr + done, addr + j);
}

impl Vat {
    /// Whether every cached entry agrees with a fresh walk over `m`.
    pub open spec fn coherent<M: PhysicalMemory>(&self, m: &M) -> bool {
        forall|i: int| 0 <= i < self.entries@.len() ==> {
            let e = #[trigger] self.entries@[i];
            walk(m, e.arch, e.dtb, e.vpage) == Some(e.tr)
        }
    }

    pub open spec fn wf(&self) -> bool {
        0 < self.capacity && self.entries@.len() <= self.capacity
    }

    /// A translator with an empty cache of at most `capacity` entries.
    pub fn new(capacity: usize) -> (r: Vat)
        requires
            capacity > 0,
        ensures
            r.wf(),
            r.entries@.len() == 0,
            r.capacity == capacity,
    {
        Vat { entries: Vec::new(), capacity }
    }

    /// Drops every cached translation.
    pub fn flush(&mut self)
        ensures
            final(self).entries@.len() == 0,
            final(self).capacity == old(self).capacity,
    {
        self.entries = Vec::new();
    }

    /// Translates the 4 KiB page that holds `vaddr`, from the cache where it has it.
    pub fn translate_page<M: PhysicalMemory>(&mut self, m: &M, arch: Architecture, dtb: u64, vaddr: u64) -> (r:
        Option<Translation>)
        requires
            old(self).wf(),
            old(self).coherent(m),
        ensures
            final(self).wf(),
            final(self).coherent(m),
            final(self).capacity == old(self).capacity,
            r == walk(m, arch, dtb, page_base(vaddr as int) as u64),
    {
        let vpage = page_align(vaddr);
        let mut i: usize = 0;
        while i < self.entries.len()
            invariant
                self.wf(),
                self.coherent(m),
                self.capacity == old(self).capacity,
                vpage == page_base(vaddr as int),
            decreases self.entries@.len() - i,
        {
            let e = self.entries[i];
            if e.dtb == dtb && e.vpage == vpage && e.arch == arch {
                // a hit moves the entry to the most recently used end
                assert(self.entries@[i as int] == e);
                assert(walk(m, e.arch, e.dtb, e.vpage) == Some(e.tr));
                self.entries.remove(i);
                self.entries.push(e);
                assert(self.entries@[self.entries@.len() - 1] == e);
                return Some(e.tr);
            }
            i = i + 1;
        }
        let r = translate(m, arch, dtb, vpage);
        if let Some(tr) = r {
            if self.entries.len() >= self.capacity {
                self.entries.remove(0);
            }
            self.entries.push(TlbEntry { dtb, vpage, arch, tr });
        }
        r
    }

    /// Reads the fragment of the range that starts at offset `done` and ends at the
    /// next page boundary or at the end of the range; returns its length and whether
    /// it was read.
    fn read_fragment<M: PhysicalMemory>(
        &mut self,
        m: &M,
        arch: Architecture,
        dtb: u64,
        addr: u64,
        len: usize,
        done: usize,
        out: &mut Vec<u8>,
    ) -> (r: (usize, bool))
        requires
            old(self).wf(),
            old(self).coherent(m),
            addr + len <= addr_end(),
            done < len,
            old(out)@.len() == len,
            0 < done ==> (addr + done) % 4096 == 0,
        ensures
            final(self).wf(),
            final(self).coherent(m),
            final(self).capacity == old(self).capacity,
            final(out)@.len() == len,
            0 < r.0,
            done + r.0 <= len,
            done + r.0 < len ==> (addr + done + r.0) % 4096 == 0,
            forall|j: int| done <= j < done + r.0 ==> (#[trigger] virt_byte(m, arch, dtb, addr as int, addr + len, addr + j) is Some) == r.1,
            forall|j: int| done <= j < done + r.0 ==> #[trigger] final(out)@[j] == match virt_byte(m, arch, dtb, addr as int, addr + len, addr + j) {
                Some(b) => b,
                None => old(out)@[j],
            },
            forall|j: int| 0 <= j < len && !(done <= j < done + r.0) ==> #[trigger] final(out)@[j] == old(out)@[j],
    {
        let ghost end = addr + len;
        let cur = addr + done as u64;
        let off = cur % 4096;
        let room = (4096 - off) as usize;
        let n: usize = if room < len - done { room } else { len - done };
        let ghost prev = out@;
        let t = self.translate_page(m, arch, dtb, cur);
        let mut got = false;
        if let Some(t) = t {
            if t.paddr <= u64::MAX - off {
                if let Some(b) = m.phys_read_raw(t.paddr + off, n) {
                    copy_into(out, done, &b);
                    got = true;
                    assert(readable(m, t.paddr + off, n as int));
                    assert forall|j: int| done <= j < done + n implies out@[j] == b@[j - done]
                        && Some(b@[j - done]) == m.byte_at(t.paddr + off + (j - done)) by {}
                } else {
                    assert(!readable(m, t.paddr + off, n as int));
                }
            } else {
                assert(!readable(m, t.paddr + off, n as int));
            }
        }
        assert(got ==> t is Some && readable(m, t->0.paddr + off, n as int));
        assert(!got ==> out@ == prev && (t is None || !readable(m, t->0.paddr + off, n as int)));
        assert forall|j: int| done <= j < done + n implies (#[trigger] virt_byte(
            m,
            arch,
            dtb,
            addr as int,
            end,
            addr + j,
        ) is Some) == got && (got ==> Some(out@[j]) == virt_byte(m, arch, dtb, addr as int, end, addr + j))
            && (!got ==> out@[j] == prev[j]) by {
            let v = addr + j;
            lemma_fragment(addr as int, len as int, done as int, n as int, j);
            assert(page_base(v) == cur - off);
            assert(page_base(v) as u64 == page_base(cur as int) as u64);
            assert(walk(m, arch, dtb, page_base(v) as u64) == t);
            assert(frag_lo(addr as int, v) - page_base(v) == off);
            assert(frag_hi(end, v) - frag_lo(addr as int, v) == n);
            assert(v - page_base(v) == off + (j - done));
            if got {
                assert(virt_byte(m, arch, dtb, addr as int, end, v) == m.byte_at(t->0.paddr + off + (j - done)));
            } else {
                assert(virt_byte(m, arch, dtb, addr as int, end, v) is None);
            }
        }
        (n, got)
    }

    /// Reads `out.len()` bytes at virtual address `addr` into `out`, page by page.
    /// Bytes on pages that are not mapped, or whose physical fragment cannot be read,
    /// keep their value. Returns whether every byte was read.
    pub fn virt_read<M: PhysicalMemory>(
        &mut self,
        m: &M,
        arch: Architecture,
        dtb: u64,
        addr: u64,
        out: &mut Vec<u8>,
    ) -> (r: Result<bool, VatError>)
        requires
            old(self).wf(),
            old(self).coherent(m),
        ensures
            final(self).wf(),
            final(self).coherent(m),
            final(self).capacity == old(self).capacity,
            r is Err <==> addr + old(out)@.len() > addr_end(),
            r is Err ==> final(out)@ == old(out)@,
            r is Ok ==> final(out)@ == virt_fill(m, arch, dtb, addr as int, old(out)@),
            r is Ok ==> (r->Ok_0 <==> virt_mapped(m, arch, dtb, addr as int, old(out)@.len() as int)),
    {
        let len = out.len();
        if addr as u128 + len as u128 > 0x1_0000_0000_0000_0000u128 {
            return Err(VatError::OutOfRange);
        }
        let ghost before = out@;
        let ghost end = addr + len;
        let mut done: usize = 0;
        let mut all = true;
        while done < len
            invariant
                self.wf(),
                self.coherent(m),
                self.capacity == old(self).capacity,
                before == old(out)@,
                end == addr + len,
                end <= addr_end(),
                len == before.len(),
                out@.len() == len,
                done <= len,
                0 < done < len ==> (addr + done) % 4096 == 0,
                forall|j: int| 0 <= j < done ==> #[trigger] out@[j] == match virt_byte(
                    m,
                    arch,
                    dtb,
                    addr as int,
                    end,
                    addr + j,
                ) {
                    Some(b) => b,
                    None => before[j],
                },
                forall|j: int| done <= j < len ==> #[trigger] out@[j] == before[j],
                all <==> forall|j: int| 0 <= j < done ==> (#[trigger] virt_byte(m, arch, dtb, addr as int, end, addr + j)) is Some,
            decreases len - done,
        {
            let ghost prev = out@;
            let (n, got) = self.read_fragment(m, arch, dtb, addr, len, done, out);
            proof {
                if !got {
                    assert(virt_byte(m, arch, dtb, addr as int, end, addr + done) is None);
                }
                assert forall|j: int| 0 <= j < done implies #[trigger] out@[j] == prev[j] by {}
            }
            all = all && got;
            done = done + n;
        }
        proof {
            assert(out@ =~= virt_fill(m, arch, dtb, addr as int, before));
        }
        Ok(all)
    }

    /// Reads as `virt_read` does and also reports, for each byte, whether it was read.
    /// The flags are the same for all bytes of one page fragment.
    pub fn virt_read_status<M: PhysicalMemory>(
        &mut self,
        m: &M,
        arch: Architecture,
        dtb: u64,
        addr: u64,
        out: &mut Vec<u8>,
    ) -> (r: Result<Vec<bool>, VatError>)
        requires
            old(self).wf(),
            old(self).coherent(m),
        ensures
            final(self).wf(),
            final(self).coherent(m),
            final(self).capacity == old(self).capacity,
            r is Err <==> addr + old(out)@.len() > addr_end(),
            r is Err ==> final(out)@ == old(out)@,
            r is Ok ==> final(out)@ == virt_fill(m, arch, dtb, addr as int, old(out)@),
            r is Ok ==> r->Ok_0@.len() == old(out)@.len(),
            r is Ok ==> forall|i: int| 0 <= i < old(out)@.len() ==> #[trigger] r->Ok_0@[i] == (virt_byte(
                m,
                arch,
                dtb,
                addr as int,
                addr + old(out)@.len(),
                addr + i,
            ) is Some),
    {
        let len = out.len();
        if addr as u128 + len as u128 > 0x1_0000_0000_0000_0000u128 {
            return Err(VatError::OutOfRange);
        }
        let ghost before = out@;
        let ghost end = addr + len;
        let mut status: Vec<bool> = Vec::new();
        let mut done: usize = 0;
        while done < len
            invariant
                self.wf(),
                self.coherent(m),
                self.capacity == old(self).capacity,
                before == old(out)@,
                end == addr + len,
                end <= addr_end(),
                len == before.len(),
                out@.len() == len,
                done <= len,
                status@.len() == done,
                0 < done < len ==> (addr + done) % 4096 == 0,
                forall|j: int| 0 <= j < done ==> #[trigger] out@[j] == match virt_byte(
                    m,
                    arch,
                    dtb,
                    addr as int,
                    end,
                    addr + j,
                ) {
                    Some(b) => b,
                    None => before[j],
                },
                forall|j: int| done <= j < len ==> #[trigger] out@[j] == before[j],
                forall|j: int| 0 <= j < done ==> #[trigger] status@[j] == (virt_byte(m, arch, dtb, addr as int, end, addr + j) is Some),
            decreases len - done,
        {
            let ghost prev = out@;
            let (n, got) = self.read_fragment(m, arch, dtb, addr, len, done, out);
            proof {
                assert forall|j: int| 0 <= j < done implies #[trigger] out@[j] == prev[j] by {}
            }
            let mut k: usize = 0;
            while k < n
                invariant
                    k <= n,
                    status@.len() == done + k,
                    forall|j: int| 0 <= j < done ==> #[trigger] status@[j] == (virt_byte(m, arch, dtb, addr as int, end, addr + j) is Some),
                    forall|j: int| done <= j < done + k ==> #[trigger] status@[j] == got,
                decreases n - k,
            {
                status.push(got);
                k = k + 1;
            }
            done = done + n;
        }
        proof {
            assert(out@ =~= virt_fill(m, arch, dtb, addr as int, before));
        }
        Ok(status)
    }

}

/// The physical byte behind virtual address `v`, read through its 4 KiB page.
pub open spec fn phys_behind<M: PhysicalMemory>(m: &M, arch: Architecture, dtb: u64, v: int) -> Option<u8> {
    match walk(m, arch, dtb, page_base(v) as u64) {
        Some(t) => m.byte_at(t.paddr + (v - page_base(v))),
        None => None,
    }
}

/// A read whose bytes are all mapped yields, byte for byte, the physical bytes behind
/// each page, whatever the buffer held before.
pub proof fn lemma_mapped_read<M: PhysicalMemory>(m: &M, arch: Architecture, dtb: u64, addr: int, before: Seq<u8>, other: Seq<u8>)
    requires
        virt_mapped(m, arch, dtb, addr, before.len() as int),
        other.len() == before.len(),
    ensures
        forall|i: int| 0 <= i < before.len() ==> Some(#[trigger] virt_fill(m, arch, dtb, addr, before)[i]) == phys_behind(m, arch, dtb, addr + i),
        virt_fill(m, arch, dtb, addr, before) == virt_fill(m, arch, dtb, addr, other),
{
    assert forall|i: int| 0 <= i < before.len() implies Some(#[trigger] virt_fill(m, arch, dtb, addr, before)[i]) == phys_behind(m, arch, dtb, addr + i) by {
        assert(virt_byte(m, arch, dtb, addr, addr + before.len(), addr + i) is Some);
    }
    assert forall|i: int| 0 <= i < before.len() implies virt_fill(m, arch, dtb, addr, before)[i] == virt_fill(m, arch, dtb, addr, other)[i] by {
        assert(virt_byte(m, arch, dtb, addr, addr + before.len(), addr + i) is Some);
    }
    assert(virt_fill(m, arch, dtb, addr, before) =~= virt_fill(m, arch, dtb, addr, other));
}

/// A read over pages some of which are not mapped leaves the bytes of those pages as
/// they were, and yields the physical bytes on the others where it could read them.
pub proof fn lemma_partial_read<M: PhysicalMemory>(m: &M, arch: Architecture, dtb: u64, addr: int, before: Seq<u8>, i: int)
    requires
        0 <= i < before.len(),
    ensures
        walk(m, arch, dtb, page_base(addr + i) as u64) is None ==> virt_fill(m, arch, dtb, addr, before)[i] == before[i],
        virt_byte(m, arch, dtb, addr, addr + before.len(), addr + i) is Some ==> Some(virt_fill(m, arch, dtb, addr, before)[i])
            == phys_behind(m, arch, dtb, addr + i),
{
}

/// Every translation that the cache holds is the one a fresh walk would give.
pub proof fn lemma_cached_is_fresh<M: PhysicalMemory>(vat: &Vat, m: &M, i: int)
    requires
        vat.coherent(m),
        0 <= i < vat.entries@.len(),
    ensures
        walk(m, vat.entries@[i].arch, vat.entries@[i].dtb, vat.entries@[i].vpage) == Some(vat.entries@[i].tr),
{
}

proof fn lemma_aligned_page(x: int, y: int)
    requires
        0 <= y,
        x % 4096 == 0,
    ensures
        y < x ==> page_base(y) + 4096 <= x,
        y >= x ==> page_base(y) >= x,
{
}

/// One read equals two reads split at a page boundary, joined: a 64 MiB read is the
/// 32 MiB read at `addr` followed by the 32 MiB read after it, where the split point
/// is page aligned.
pub proof fn lemma_read_split<M: PhysicalMemory>(m: &M, arch: Architecture, dtb: u64, addr: int, first: Seq<u8>, second: Seq<u8>)
    requires
        0 <= addr,
        (addr + first.len()) % 4096 == 0,
    ensures
        virt_fill(m, arch, dtb, addr, first + second) == virt_fill(m, arch, dtb, addr, first) + virt_fill(
            m,
            arch,
            dtb,
            addr + first.len(),
            second,
        ),
{
    let whole = virt_fill(m, arch, dtb, addr, first + second);
    let joined = virt_fill(m, arch, dtb, addr, first) + virt_fill(m, arch, dtb, addr + first.len(), second);
    let mid = addr + first.len();
    let end = mid + second.len();
    assert forall|j: int| 0 <= j < whole.len() implies whole[j] == joined[j] by {
        let v = addr + j;
        lemma_aligned_page(mid, v);
        if j < first.len() {
            assert(frag_hi(end, v) == frag_hi(mid, v));
            assert(virt_byte(m, arch, dtb, addr, end, v) == virt_byte(m, arch, dtb, addr, mid, v));
            assert((first + second)[j] == first[j]);
        } else {
            assert(frag_lo(addr, v) == frag_lo(mid, v));
            assert(virt_byte(m, arch, dtb, addr, end, v) == virt_byte(m, arch, dtb, mid, end, v));
            assert(v == mid + (j - first.len()));
            assert((first + second)[j] == second[j - first.len()]);
        }
    }
    assert(whole =~= joined);
}

/// Over a physical image where every address reads, a range whose pages are all
/// mapped (to frames inside the image) reads in full: every byte is the physical byte
/// behind its page.
pub proof fn lemma_covered_range_reads<M: PhysicalMemory>(m: &M, arch: Architecture, dtb: u64, addr: int, before: Seq<u8>)
    requires
        0 <= addr,
        addr + before.len() <= addr_end(),
        forall|x: int| 0 <= x < addr_end() ==> (#[trigger] m.byte_at(x)) is Some,
        forall|i: int| 0 <= i < before.len() ==> (#[trigger] walk(m, arch, dtb, page_base(addr + i) as u64)) is Some
            && walk(m, arch, dtb, page_base(addr + i) as u64)->0.paddr + 4096 <= addr_end(),
    ensures
        virt_mapped(m, arch, dtb, addr, before.len() as int),
        forall|i: int| 0 <= i < before.len() ==> Some(#[trigger] virt_fill(m, arch, dtb, addr, before)[i]) == phys_behind(m, arch, dtb, addr + i),
{
    let end = addr + before.len();
    assert forall|i: int| 0 <= i < before.len() implies (#[trigger] virt_byte(m, arch, dtb, addr, end, addr + i)) is Some by {
        let v = addr + i;
        let vp = page_base(v);
        assert(walk(m, arch, dtb, page_base(addr + i) as u64) is Some);
        let t = walk(m, arch, dtb, vp as u64)->0;
        let lo = t.paddr + (frag_lo(addr, v) - vp);
        let n = frag_hi(end, v) - frag_lo(addr, v);
        assert forall|k: int| 0 <= k < n implies (#[trigger] m.byte_at(lo + k)) is Some by {
            assert(0 <= lo + k < addr_end());
        }
        assert(readable(m, lo, n));
        assert(0 <= t.paddr + (v - vp) < addr_end());
    }
    lemma_mapped_read(m, arch, dtb, addr, before, before);
}

/// A read that stays within one 4 KiB page yields the physical range behind it: the
/// walk of the page gives the frame, and the read takes the bytes from the same
/// offset on, wherever they can be read.
pub proof fn lemma_read_within_page<M: PhysicalMemory>(m: &M, arch: Architecture, dtb: u64, addr: int, before: Seq<u8>)
    requires
        0 <= addr,
        addr + before.len() <= addr_end(),
        addr % 4096 + before.len() <= 4096,
        walk(m, arch, dtb, page_base(addr) as u64) is Some,
        readable(m, walk(m, arch, dtb, page_base(addr) as u64)->0.paddr + addr % 4096, before.len() as int),
    ensures
        virt_fill(m, arch, dtb, addr, before) == bytes_at(
            m,
            walk(m, arch, dtb, page_base(addr) as u64)->0.paddr + addr % 4096,
            before.len() as int,
        ),
{
    let t = walk(m, arch, dtb, page_base(addr) as u64)->0;
    let end = addr + before.len();
    let got = virt_fill(m, arch, dtb, addr, before);
    let want = bytes_at(m, t.paddr + addr % 4096, before.len() as int);
    assert forall|i: int| 0 <= i < before.len() implies got[i] == want[i] by {
        lemma_same_page(addr, addr + i);
        assert(frag_lo(addr, addr + i) == addr);
        assert(frag_hi(end, addr + i) == end);
        assert(m.byte_at(t.paddr + addr % 4096 + i) is Some);
    }
    assert(got =~= want);
}

} // verus!
