use vstd::prelude::*;
use crate::address::addr_end;
use crate::mem::{PhysicalMemory, PhysicalMemoryMetadata, readable, bytes_at, le32, le64, read_le32, read_le64};

verus! {

/// One element of a batched physical read: where to read and the buffer to fill.
pub struct PhysicalReadData {
    pub addr: u64,
    pub buf: Vec<u8>,
    /// Set by a batched read: whether this element was read.
    pub ok: bool,
}

/// One element of a batched physical write: where to write and what.
pub struct PhysicalWriteData {
    pub addr: u64,
    pub data: Vec<u8>,
}

/// The buffer that a read of `before.len()` bytes at `addr` leaves: the bytes read
/// where all of them are readable, else `before` unchanged.
pub open spec fn read_result<M: PhysicalMemory>(m: &M, addr: int, before: Seq<u8>) -> Seq<u8> {
    if readable(m, addr, before.len() as int) {
        bytes_at(m, addr, before.len() as int)
    } else {
        before
    }
}

/// Reads `out.len()` bytes at `addr` into `out`; 0 on success, -1 (and `out`
/// unchanged) where some byte cannot be read.
pub fn phys_read_raw<M: PhysicalMemory>(mem: &M, addr: u64, out: &mut Vec<u8>) -> (r: i32)
    ensures
        final(out)@ == read_result(mem, addr as int, old(out)@),
        r == if readable(mem, addr as int, old(out)@.len() as int) { 0i32 } else { -1i32 },
{
    match mem.phys_read_raw(addr, out.len()) {
        Some(b) => {
            assert(b@ =~= bytes_at(mem, addr as int, old(out)@.len() as int));
            *out = b;
            0
        },
        None => -1,
    }
}

/// Fills each element of `data` from physical memory and records in its `ok` flag
/// whether it could be read; an element that cannot be read keeps its buffer. One
/// unreadable element does not fail the others: the batch returns 0.
pub fn phys_read_raw_list<M: PhysicalMemory>(mem: &M, data: &mut Vec<PhysicalReadData>) -> (r: i32)
    ensures
        r == 0,
        final(data)@.len() == old(data)@.len(),
        forall|i: int| 0 <= i < old(data)@.len() ==> (#[trigger] final(data)@[i]).addr == old(data)@[i].addr
            && final(data)@[i].buf@ == read_result(mem, old(data)@[i].addr as int, old(data)@[i].buf@)
            && final(data)@[i].ok == readable(mem, old(data)@[i].addr as int, old(data)@[i].buf@.len() as int),
{
    let mut done: Vec<PhysicalReadData> = Vec::new();
    let mut i: usize = 0;
    while i < data.len()
        invariant
            data@ == old(data)@,
            i <= data@.len(),
            done@.len() == i,
            forall|j: int| 0 <= j < i ==> (#[trigger] done@[j]).addr == data@[j].addr && done@[j].buf@ == read_result(mem, data@[j].addr as int, data@[j].buf@)
                && done@[j].ok == readable(mem, data@[j].addr as int, data@[j].buf@.len() as int),
        decreases data@.len() - i,
    {
        let addr = data[i].addr;
        let mut buf = data[i].buf.clone();
        assert(buf@ == data@[i as int].buf@);
        let st = phys_read_raw(mem, addr, &mut buf);
        done.push(PhysicalReadData { addr, buf, ok: st == 0 });
        i = i + 1;
    }
    *data = done;
    0
}

/// The `k`-th little-endian byte of `v`.
pub open spec fn le_byte(v: int, k: int) -> u8 {
    (v / vstd::arithmetic::power::pow(256, k as nat) % 256) as u8
}

/// Reads a little-endian `u32` at `addr`; 0 where it cannot be read.
pub fn phys_read_u32<M: PhysicalMemory>(mem: &M, addr: u64) -> (r: u32)
    ensures
        r == if readable(mem, addr as int, 4) { le32(bytes_at(mem, addr as int, 4)) } else { 0 },
{
    match mem.phys_read_raw(addr, 4) {
        Some(b) => {
            assert(b@.subrange(0, 4) =~= bytes_at(mem, addr as int, 4));
            read_le32(b.as_slice(), 0)
        },
        None => 0,
    }
}

/// Reads a little-endian `u64` at `addr`; 0 where it cannot be read.
pub fn phys_read_u64<M: PhysicalMemory>(mem: &M, addr: u64) -> (r: u64)
    ensures
        r == if readable(mem, addr as int, 8) { le64(bytes_at(mem, addr as int, 8)) } else { 0 },
{
    match mem.phys_read_raw(addr, 8) {
        Some(b) => {
            assert(b@.subrange(0, 8) =~= bytes_at(mem, addr as int, 8));
            read_le64(b.as_slice(), 0)
        },
        None => 0,
    }
}

/// Writes `input` at `addr`; 0 where the memory accepts the write, in which case the
/// range holds `input` and nothing else changed, else -1 and nothing changed.
pub fn phys_write_raw<M: PhysicalMemory>(mem: &mut M, addr: u64, input: &Vec<u8>) -> (r: i32)
    ensures
        r == if old(mem).accepts_write(addr as int, input@.len() as int) { 0i32 } else { -1i32 },
        r != 0 ==> forall|a: int| #[trigger] final(mem).byte_at(a) == old(mem).byte_at(a),
        forall|a: int, n: int| #[trigger] final(mem).accepts_write(a, n) == old(mem).accepts_write(a, n),
        r == 0 ==> forall|a: int| #[trigger] final(mem).byte_at(a) == if addr <= a < addr + input@.len() {
            Some(input@[a - addr])
        } else {
            old(mem).byte_at(a)
        },
{
    if mem.phys_write_raw(addr, input) {
        0
    } else {
        -1
    }
}

/// The little-endian bytes of the low `n` bytes of `v`.
fn le_bytes(v: u64, n: usize) -> (r: Vec<u8>)
    requires
        n <= 8,
    ensures
        r@.len() == n,
        forall|k: int| 0 <= k < n ==> #[trigger] r@[k] == le_byte(v as int, k),
{
    let mut r: Vec<u8> = Vec::new();
    let mut x = v;
    let mut k: usize = 0;
    proof {
        vstd::arithmetic::power::lemma_pow0(256);
    }
    while k < n
        invariant
            k <= n <= 8,
            r@.len() == k,
            x == v as int / vstd::arithmetic::power::pow(256, k as nat),
            forall|j: int| 0 <= j < k ==> #[trigger] r@[j] == le_byte(v as int, j),
        decreases n - k,
    {
        proof {
            vstd::arithmetic::power::lemma_pow_positive(256, k as nat);
            vstd::arithmetic::power::lemma_pow_adds(256, k as nat, 1);
            vstd::arithmetic::power::lemma_pow1(256);
            vstd::arithmetic::div_mod::lemma_div_denominator(v as int, vstd::arithmetic::power::pow(256, k as nat), 256);
        }
        r.push((x % 256) as u8);
        x = x / 256;
        k = k + 1;
    }
    r
}

/// Writes `val` little-endian at `addr`; 0 where the memory accepts the write, else -1
/// and nothing changed.
pub fn phys_write_u32<M: PhysicalMemory>(mem: &mut M, addr: u64, val: u32) -> (r: i32)
    ensures
        r == if old(mem).accepts_write(addr as int, 4) { 0i32 } else { -1i32 },
        r != 0 ==> forall|a: int| #[trigger] final(mem).byte_at(a) == old(mem).byte_at(a),
        r == 0 ==> forall|a: int| #[trigger] final(mem).byte_at(a) == if addr <= a < addr + 4 {
            Some(le_byte(val as int, a - addr))
        } else {
            old(mem).byte_at(a)
        },
{
    let b = le_bytes(val as u64, 4);
    phys_write_raw(mem, addr, &b)
}

/// Writes `val` little-endian at `addr`; 0 where the memory accepts the write, else -1
/// and nothing changed.
pub fn phys_write_u64<M: PhysicalMemory>(mem: &mut M, addr: u64, val: u64) -> (r: i32)
    ensures
        r == if old(mem).accepts_write(addr as int, 8) { 0i32 } else { -1i32 },
        r != 0 ==> forall|a: int| #[trigger] final(mem).byte_at(a) == old(mem).byte_at(a),
        r == 0 ==> forall|a: int| #[trigger] final(mem).byte_at(a) == if addr <= a < addr + 8 {
            Some(le_byte(val as int, a - addr))
        } else {
            old(mem).byte_at(a)
        },
{
    let b = le_bytes(val, 8);
    phys_write_raw(mem, addr, &b)
}

/// The byte that the writes of `ws` leave at `a`, where one of them covers it: the
/// last one that does.
pub open spec fn last_write(ws: Seq<PhysicalWriteData>, a: int) -> Option<u8>
    decreases ws.len(),
{
    if ws.len() == 0 {
        None
    } else {
        let w = ws.last();
        if w.addr <= a < w.addr + w.data@.len() {
            Some(w.data@[a - w.addr])
        } else {
            last_write(ws.drop_last(), a)
        }
    }
}

/// Performs the writes of `data` in order, stopping at the first refused one. Returns
/// 0 where the memory accepts every one of them, in which case each address holds what
/// the last write covering it put there; else -1.
pub fn phys_write_raw_list<M: PhysicalMemory>(mem: &mut M, data: &Vec<PhysicalWriteData>) -> (r: i32)
    ensures
        r == 0 || r == -1,
        r == 0 <==> forall|i: int| 0 <= i < data@.len() ==> old(mem).accepts_write((#[trigger] data@[i]).addr as int, data@[i].data@.len() as int),
        r == 0 ==> forall|a: int| #[trigger] final(mem).byte_at(a) == match last_write(data@, a) {
            Some(b) => Some(b),
            None => old(mem).byte_at(a),
        },
{
    let mut i: usize = 0;
    while i < data.len()
        invariant
            i <= data@.len(),
            forall|a: int, n: int| #[trigger] mem.accepts_write(a, n) == old(mem).accepts_write(a, n),
            forall|j: int| 0 <= j < i ==> old(mem).accepts_write((#[trigger] data@[j]).addr as int, data@[j].data@.len() as int),
            forall|a: int| #[trigger] mem.byte_at(a) == match last_write(data@.subrange(0, i as int), a) {
                Some(b) => Some(b),
                None => old(mem).byte_at(a),
            },
        decreases data@.len() - i,
    {
        let ghost prev = *mem;
        if phys_write_raw(mem, data[i].addr, &data[i].data) != 0 {
            assert(!old(mem).accepts_write(data@[i as int].addr as int, data@[i as int].data@.len() as int));
            return -1;
        }
        proof {
            assert forall|a: int| #[trigger] mem.byte_at(a) == match last_write(data@.subrange(0, i + 1), a) {
                Some(b) => Some(b),
                None => old(mem).byte_at(a),
            } by {
                assert(data@.subrange(0, i + 1).drop_last() =~= data@.subrange(0, i as int));
                assert(prev.byte_at(a) == match last_write(data@.subrange(0, i as int), a) {
                    Some(b) => Some(b),
                    None => old(mem).byte_at(a),
                });
            }
        }
        i = i + 1;
    }
    assert(data@.subrange(0, data@.len() as int) =~= data@);
    0
}

/// Metadata of the physical memory: no address above `max_address` can be read, and a
/// read-only memory accepts no write.
pub fn phys_metadata<M: PhysicalMemory>(mem: &M) -> (r: PhysicalMemoryMetadata)
    ensures
        r == mem.spec_metadata(),
        forall|a: int| r.max_address < a < addr_end() ==> (#[trigger] mem.byte_at(a)) is None,
        r.readonly ==> forall|a: int, n: int| n > 0 ==> !(#[trigger] mem.accepts_write(a, n)),
{
    mem.metadata()
}

} // verus!
