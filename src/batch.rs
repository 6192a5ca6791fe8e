use vstd::prelude::*;
use crate::arch::Architecture;
use crate::mem::{PhysicalMemory, readable, bytes_at, le32, le64, read_le32, read_le64};
use crate::phys_mem::{PhysicalReadData, phys_read_raw_list, read_result};
use crate::vat::{Translation, walk, walk_from, entry_at};

verus! {

/// What one level of a walk does with the entry it read.
pub enum Step {
    Fault,
    Done(Translation),
    Next(u64),
}

/// The step that entry `e` at level `k` gives for `vaddr`.
pub open spec fn step_of(arch: Architecture, k: u64, vaddr: u64, e: u64) -> Step {
    if e & 1u64 == 0u64 {
        Step::Fault
    } else if k + 1 == arch.spec_levels() {
        Step::Done(Translation { paddr: (e & arch.spec_frame_mask()) | (vaddr & 0xfffu64), page_size: 4096 })
    } else if arch.spec_large_allowed(k) && e & 0x80u64 != 0u64 {
        let size = arch.spec_page_size(k);
        let low = (size - 1) as u64;
        Step::Done(Translation { paddr: (e & arch.spec_frame_mask() & !low) | (vaddr & low), page_size: size })
    } else {
        Step::Next(e & arch.spec_frame_mask())
    }
}

fn step(arch: Architecture, k: u64, vaddr: u64, e: u64) -> (r: Step)
    requires
        k < arch.spec_levels(),
    ensures
        r == step_of(arch, k, vaddr, e),
{
    let fm = arch.frame_mask();
    if e & 1 == 0 {
        Step::Fault
    } else if k + 1 == arch.levels() {
        Step::Done(Translation { paddr: (e & fm) | (vaddr & 0xfff), page_size: 4096 })
    } else if arch.large_allowed(k) && e & 0x80 != 0 {
        let size = arch.page_size(k);
        let low = size - 1;
        Step::Done(Translation { paddr: (e & fm & !low) | (vaddr & low), page_size: size })
    } else {
        Step::Next(e & fm)
    }
}

/// The address of the level-`k` entry for `vaddr` in `table`.
pub open spec fn entry_addr(arch: Architecture, table: u64, vaddr: u64, k: u64) -> int {
    table + ((vaddr >> arch.spec_shift(k)) & arch.spec_index_mask(k)) * arch.spec_entry_size()
}

/// One walk in progress: its table at the current level, or its result.
struct Pending {
    vaddr: u64,
    table: u64,
    result: Option<Option<Translation>>,
}

fn find_request(reqs: &Vec<PhysicalReadData>, at: u64) -> (r: Option<usize>)
    ensures
        match r {
            Some(j) => j < reqs@.len() && reqs@[j as int].addr == at,
            None => forall|j: int| 0 <= j < reqs@.len() ==> (#[trigger] reqs@[j]).addr != at,
        },
{
    let mut j: usize = 0;
    while j < reqs.len()
        invariant
            j <= reqs@.len(),
            forall|i: int| 0 <= i < j ==> (#[trigger] reqs@[i]).addr != at,
        decreases reqs@.len() - j,
    {
        if reqs[j].addr == at {
            return Some(j);
        }
        j = j + 1;
    }
    None
}

/// Translates many virtual addresses at once. The walks advance one level per round;
/// each round reads every distinct page-table entry that the pending walks need once,
/// in one batched physical read.
pub fn translate_batch<M: PhysicalMemory>(m: &M, arch: Architecture, dtb: u64, vaddrs: &Vec<u64>) -> (r: Vec<Option<Translation>>)
    ensures
        r@.len() == vaddrs@.len(),
        forall|i: int| 0 <= i < vaddrs@.len() ==> #[trigger] r@[i] == walk(m, arch, dtb, vaddrs@[i]),
{
    let levels = arch.levels();
    let esize = arch.entry_size();
    let mut ps: Vec<Pending> = Vec::new();
    let mut i: usize = 0;
    while i < vaddrs.len()
        invariant
            i <= vaddrs@.len(),
            ps@.len() == i,
            forall|j: int| 0 <= j < i ==> (#[trigger] ps@[j]).vaddr == vaddrs@[j] && ps@[j].table == dtb && ps@[j].result is None,
        decreases vaddrs@.len() - i,
    {
        ps.push(Pending { vaddr: vaddrs[i], table: dtb, result: None });
        i = i + 1;
    }
    let mut k: u64 = 0;
    while k < levels
        invariant
            k <= levels,
            levels == arch.spec_levels(),
            esize == arch.spec_entry_size(),
            ps@.len() == vaddrs@.len(),
            forall|j: int| 0 <= j < ps@.len() ==> (#[trigger] ps@[j]).vaddr == vaddrs@[j] && match ps@[j].result {
                Some(t) => t == walk(m, arch, dtb, vaddrs@[j]),
                None => walk(m, arch, dtb, vaddrs@[j]) == walk_from(m, arch, ps@[j].table, vaddrs@[j], k),
            },
        decreases levels - k,
    {
        // gather the distinct entries that the pending walks need
        let mut reqs: Vec<PhysicalReadData> = Vec::new();
        let mut i: usize = 0;
        while i < ps.len()
            invariant
                esize == arch.spec_entry_size(),
                i <= ps@.len(),
                forall|j: int| 0 <= j < reqs@.len() ==> (#[trigger] reqs@[j]).buf@ == Seq::new(esize as nat, |x: int| 0u8),
                forall|j: int| 0 <= j < i ==> (#[trigger] ps@[j]).result is None && entry_addr(arch, ps@[j].table, ps@[j].vaddr, k)
                    <= u64::MAX ==> exists|q: int| 0 <= q < reqs@.len() && (#[trigger] reqs@[q]).addr == entry_addr(arch, ps@[j].table, ps@[j].vaddr, k),
            decreases ps@.len() - i,
        {
            let ghost before = reqs@;
            if ps[i].result.is_none() {
                let s = arch.shift(k);
                let mk = arch.index_mask(k);
                let pv = ps[i].vaddr;
                let idx = (pv >> s) & mk;
                assert(idx <= mk) by (bit_vector)
                    requires idx == (pv >> s) & mk;
                let off = idx * esize;
                if ps[i].table <= u64::MAX - off {
                    let at = ps[i].table + off;
                    match find_request(&reqs, at) {
                        Some(q) => {
                            assert(reqs@[q as int].addr == at);
                        },
                        None => {
                            let buf: Vec<u8> = vec![0u8; esize as usize];
                            assert(buf@ =~= Seq::new(esize as nat, |x: int| 0u8));
                            reqs.push(PhysicalReadData { addr: at, buf, ok: false });
                            assert(reqs@[reqs@.len() - 1].addr == at);
                        },
                    }
                    assert(exists|q: int| 0 <= q < reqs@.len() && (#[trigger] reqs@[q]).addr == at);
                }
            }
            proof {
                assert forall|q: int| 0 <= q < before.len() implies #[trigger] reqs@[q] == before[q] by {}
                assert forall|j: int| 0 <= j < i + 1 && (#[trigger] ps@[j]).result is None && entry_addr(arch, ps@[j].table, ps@[j].vaddr, k)
                    <= u64::MAX implies exists|q: int| 0 <= q < reqs@.len() && (#[trigger] reqs@[q]).addr == entry_addr(arch, ps@[j].table, ps@[j].vaddr, k) by {
                    if j < i {
                        let q = choose|q: int| 0 <= q < before.len() && (#[trigger] before[q]).addr == entry_addr(arch, ps@[j].table, ps@[j].vaddr, k);
                        assert(reqs@[q] == before[q]);
                    }
                }
            }
            i = i + 1;
        }
        let ghost asked = reqs@;
        let _ = phys_read_raw_list(m, &mut reqs);
        proof {
            assert forall|j: int| 0 <= j < ps@.len() && (#[trigger] ps@[j]).result is None && entry_addr(arch, ps@[j].table, ps@[j].vaddr, k)
                <= u64::MAX implies exists|q: int| 0 <= q < reqs@.len() && (#[trigger] reqs@[q]).addr == entry_addr(arch, ps@[j].table, ps@[j].vaddr, k) by {
                let q = choose|q: int| 0 <= q < asked.len() && (#[trigger] asked[q]).addr == entry_addr(arch, ps@[j].table, ps@[j].vaddr, k);
                assert(reqs@[q].addr == asked[q].addr);
            }
        }
        // advance every pending walk by one level
        let mut next: Vec<Pending> = Vec::new();
        let mut i: usize = 0;
        while i < ps.len()
            invariant
                k < levels,
                levels == arch.spec_levels(),
                esize == arch.spec_entry_size(),
                i <= ps@.len(),
                ps@.len() == vaddrs@.len(),
                next@.len() == i,
                reqs@.len() == asked.len(),
                forall|j: int| 0 <= j < asked.len() ==> (#[trigger] reqs@[j]).addr == asked[j].addr && reqs@[j].buf@
                    == read_result(m, asked[j].addr as int, asked[j].buf@),
                forall|j: int| 0 <= j < asked.len() ==> (#[trigger] asked[j]).buf@ == Seq::new(esize as nat, |x: int| 0u8),
                forall|j: int| 0 <= j < ps@.len() ==> (#[trigger] ps@[j]).result is None && entry_addr(arch, ps@[j].table, ps@[j].vaddr, k)
                    <= u64::MAX ==> exists|q: int| 0 <= q < reqs@.len() && (#[trigger] reqs@[q]).addr == entry_addr(arch, ps@[j].table, ps@[j].vaddr, k),
                forall|j: int| 0 <= j < ps@.len() ==> (#[trigger] ps@[j]).vaddr == vaddrs@[j] && match ps@[j].result {
                    Some(t) => t == walk(m, arch, dtb, vaddrs@[j]),
                    None => walk(m, arch, dtb, vaddrs@[j]) == walk_from(m, arch, ps@[j].table, vaddrs@[j], k),
                },
                forall|j: int| 0 <= j < i ==> (#[trigger] next@[j]).vaddr == vaddrs@[j] && match next@[j].result {
                    Some(t) => t == walk(m, arch, dtb, vaddrs@[j]),
                    None => walk(m, arch, dtb, vaddrs@[j]) == walk_from(m, arch, next@[j].table, vaddrs@[j], (k + 1) as u64),
                },
            decreases ps@.len() - i,
        {
            let p = &ps[i];
            let v = p.vaddr;
            if p.result.is_some() {
                next.push(Pending { vaddr: v, table: p.table, result: p.result });
            } else {
                let s = arch.shift(k);
                let mk = arch.index_mask(k);
                let idx = (v >> s) & mk;
                assert(idx <= mk) by (bit_vector)
                    requires idx == (v >> s) & mk;
                let off = idx * esize;
                if p.table > u64::MAX - off {
                    assert(entry_at(m, arch, p.table + off) is None);
                    next.push(Pending { vaddr: v, table: p.table, result: Some(None) });
                } else {
                    let at = p.table + off;
                    match find_request(&reqs, at) {
                        None => {
                            next.push(Pending { vaddr: v, table: p.table, result: Some(None) });
                        },
                        Some(q) => {
                            let b = &reqs[q].buf;
                            let e: u64 = if esize == 4 {
                                read_le32(b.as_slice(), 0) as u64
                            } else {
                                read_le64(b.as_slice(), 0)
                            };
                            proof {
                                assert(b@.subrange(0, b@.len() as int) =~= b@);
                                if readable(m, at as int, esize as int) {
                                    assert(b@ =~= bytes_at(m, at as int, esize as int));
                                    assert(entry_at(m, arch, at as int) == Some(e));
                                } else {
                                    assert(b@ == asked[q as int].buf@);
                                    assert(b@[0] == 0u8 && b@[1] == 0u8 && b@[2] == 0u8 && b@[3] == 0u8);
                                    assert(esize == 8 ==> b@[4] == 0u8 && b@[5] == 0u8 && b@[6] == 0u8 && b@[7] == 0u8);
                                    assert(e == 0u64);
                                    assert(e & 1u64 == 0u64) by (bit_vector)
                                        requires e == 0u64;
                                    assert(entry_at(m, arch, at as int) is None);
                                }
                            }
                            match step(arch, k, v, e) {
                                Step::Fault => next.push(Pending { vaddr: v, table: p.table, result: Some(None) }),
                                Step::Done(t) => next.push(Pending { vaddr: v, table: p.table, result: Some(Some(t)) }),
                                Step::Next(nt) => next.push(Pending { vaddr: v, table: nt, result: None }),
                            }
                        },
                    }
                }
            }
            i = i + 1;
        }
        ps = next;
        k = k + 1;
    }
    let mut r: Vec<Option<Translation>> = Vec::new();
    let mut i: usize = 0;
    while i < ps.len()
        invariant
            k == levels,
            levels == arch.spec_levels(),
            i <= ps@.len(),
            ps@.len() == vaddrs@.len(),
            r@.len() == i,
            forall|j: int| 0 <= j < ps@.len() ==> (#[trigger] ps@[j]).vaddr == vaddrs@[j] && match ps@[j].result {
                Some(t) => t == walk(m, arch, dtb, vaddrs@[j]),
                None => walk(m, arch, dtb, vaddrs@[j]) == walk_from(m, arch, ps@[j].table, vaddrs@[j], k),
            },
            forall|j: int| 0 <= j < i ==> #[trigger] r@[j] == walk(m, arch, dtb, vaddrs@[j]),
        decreases ps@.len() - i,
    {
        match ps[i].result {
            Some(t) => r.push(t),
            None => r.push(None),
        }
        i = i + 1;
    }
    r
}

} // verus!
