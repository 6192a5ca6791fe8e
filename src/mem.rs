use vstd::prelude::*;
use crate::address::addr_end;

verus! {

/// Facts about a physical memory.
#[derive(Clone, Copy, Debug, PartialEq, Eq, Structural)]
pub struct PhysicalMemoryMetadata {
    /// The highest address that may be readable.
    pub max_address: u64,
    /// The page size that reads are best aligned to.
    pub page_size_hint: u64,
    /// Whether writes are refused.
    pub readonly: bool,
}

/// Physical memory as the core sees it: each address holds a byte or is unreadable.
pub trait PhysicalMemory {
    /// The byte at a physical address, `None` where it cannot be read.
    spec fn byte_at(&self, addr: int) -> Option<u8>;

    /// Reads `len` bytes starting at `addr`; `None` unless all of them are readable.
    fn phys_read_raw(&self, addr: u64, len: usize) -> (r: Option<Vec<u8>>)
        ensures
            r is Some <==> (addr + len <= addr_end() && forall|i: int|
                0 <= i < len ==> (#[trigger] self.byte_at(addr + i)) is Some),
            r is Some ==> r->0@.len() == len && forall|i: int|
                0 <= i < len ==> Some(#[trigger] r->0@[i]) == self.byte_at(addr + i),
    ;

    /// What the memory says of itself; no address above `max_address` can be read.
    /// The metadata of this memory.
    spec fn spec_metadata(&self) -> PhysicalMemoryMetadata;

    /// Reports the metadata; nothing above `max_address` reads, and a read-only memory
    /// accepts no write.
    fn metadata(&self) -> (r: PhysicalMemoryMetadata)
        ensures
            r == self.spec_metadata(),
            forall|a: int| r.max_address < a < addr_end() ==> (#[trigger] self.byte_at(a)) is None,
            r.readonly ==> forall|a: int, n: int| n > 0 ==> !(#[trigger] self.accepts_write(a, n)),
    ;

    /// Whether a write of `len` bytes at `addr` is taken.
    spec fn accepts_write(&self, addr: int, len: int) -> bool;

    /// Writes `data` at `addr`. It succeeds exactly where the memory accepts the write;
    /// then the range holds `data` and nothing else changed; else nothing changed. A
    /// write does not change which writes are accepted.
    fn phys_write_raw(&mut self, addr: u64, data: &Vec<u8>) -> (r: bool)
        ensures
            r == old(self).accepts_write(addr as int, data@.len() as int),
            r ==> addr + data@.len() <= addr_end(),
            !r ==> forall|a: int| #[trigger] final(self).byte_at(a) == old(self).byte_at(a),
            forall|a: int, n: int| #[trigger] final(self).accepts_write(a, n) == old(self).accepts_write(a, n),
            r ==> forall|a: int| #[trigger] final(self).byte_at(a) == if addr <= a < addr + data@.len() {
                Some(data@[a - addr])
            } else {
                old(self).byte_at(a)
            },
    ;
}

/// Whether the `len` bytes from `addr` can all be read.
pub open spec fn readable<M: PhysicalMemory>(m: &M, addr: int, len: int) -> bool {
    0 <= addr && addr + len <= addr_end() && forall|i: int| 0 <= i < len ==> (#[trigger] m.byte_at(addr + i)) is Some
}

/// The `len` bytes from `addr`, where they are readable.
pub open spec fn bytes_at<M: PhysicalMemory>(m: &M, addr: int, len: int) -> Seq<u8> {
    Seq::new(len as nat, |i: int| m.byte_at(addr + i).unwrap())
}

/// Little-endian value of the first two bytes.
pub open spec fn le16(b: Seq<u8>) -> int {
    b[0] + b[1] * 0x100
}

/// Little-endian value of the first four bytes.
pub open spec fn le32(b: Seq<u8>) -> int {
    b[0] + b[1] * 0x100 + b[2] * 0x1_0000 + b[3] * 0x100_0000
}

/// Little-endian value of the first eight bytes.
pub open spec fn le64(b: Seq<u8>) -> int {
    le32(b) + b[4] * 0x1_0000_0000 + b[5] * 0x100_0000_0000 + b[6] * 0x1_0000_0000_0000
        + b[7] * 0x100_0000_0000_0000
}

/// Reads a little-endian `u16` at offset `at`.
pub fn read_le16(b: &[u8], at: usize) -> (r: u16)
    requires
        at + 2 <= b@.len(),
    ensures
        r == le16(b@.subrange(at as int, b@.len() as int)),
{
    let r = b[at] as u16 + (b[at + 1] as u16) * 0x100;
    r
}

/// Reads a little-endian `u32` at offset `at`.
pub fn read_le32(b: &[u8], at: usize) -> (r: u32)
    requires
        at + 4 <= b@.len(),
    ensures
        r == le32(b@.subrange(at as int, b@.len() as int)),
{
    let r = b[at] as u32 + (b[at + 1] as u32) * 0x100 + (b[at + 2] as u32) * 0x1_0000 + (b[at + 3]
        as u32) * 0x100_0000;
    r
}

/// Reads a little-endian `u64` at offset `at`.
pub fn read_le64(b: &[u8], at: usize) -> (r: u64)
    requires
        at + 8 <= b@.len(),
    ensures
        r == le64(b@.subrange(at as int, b@.len() as int)),
{
    let r = b[at] as u64 + (b[at + 1] as u64) * 0x100 + (b[at + 2] as u64) * 0x1_0000 + (b[at + 3]
        as u64) * 0x100_0000 + (b[at + 4] as u64) * 0x1_0000_0000 + (b[at + 5] as u64)
        * 0x100_0000_0000 + (b[at + 6] as u64) * 0x1_0000_0000_0000 + (b[at + 7] as u64)
        * 0x100_0000_0000_0000;
    r
}

/// One 4 KiB frame of a sparse memory image.
pub struct Frame {
    pub base: u64,
    pub data: Vec<u8>,
}

/// A physical memory image made of separately placed 4 KiB frames; where two
/// frames overlap, the one placed first is seen.
pub struct SparseMemory {
    pub frames: Vec<Frame>,
}

/// The byte at `a` as the frames from index `i` on show it.
pub open spec fn frame_byte(frames: Seq<Frame>, i: int, a: int) -> Option<u8>
    decreases frames.len() - i,
{
    if i < 0 || i >= frames.len() {
        None
    } else if frames[i].base <= a < frames[i].base + frames[i].data@.len() {
        Some(frames[i].data@[a - frames[i].base])
    } else {
        frame_byte(frames, i + 1, a)
    }
}

impl SparseMemory {
    pub fn new() -> (r: SparseMemory)
        ensures
            forall|a: int| r.byte_at(a) is None,
    {
        SparseMemory { frames: Vec::new() }
    }

    /// Places a zeroed 4 KiB frame at the page of `base`, behind any earlier frame.
    pub fn add_frame(&mut self, base: u64)
        requires
            base % 4096 == 0,
            base + 4096 <= addr_end(),
        ensures
            forall|a: int| #[trigger] final(self).byte_at(a) == if old(self).byte_at(a) is None
                && base <= a < base + 4096 {
                Some(0u8)
            } else {
                old(self).byte_at(a)
            },
    {
        let ghost before = self.frames@;
        let data: Vec<u8> = vec![0u8; 4096];
        let f = Frame { base, data };
        let ghost gf = f;
        self.frames.push(f);
        assert forall|a: int| #[trigger] self.byte_at(a) == if old(self).byte_at(a) is None
            && base <= a < base + 4096 {
            Some(0u8)
        } else {
            old(self).byte_at(a)
        } by {
            lemma_frame_push(before, gf, self.frames@, 0, a);
        }
    }

    /// Looks up one byte.
    fn byte(&self, a: u64) -> (r: Option<u8>)
        ensures
            r == self.byte_at(a as int),
    {
        let mut i: usize = 0;
        while i < self.frames.len()
            invariant
                i <= self.frames@.len(),
                frame_byte(self.frames@, 0, a as int) == frame_byte(self.frames@, i as int, a as int),
            decreases self.frames@.len() - i,
        {
            let f = &self.frames[i];
            if f.base <= a && (a - f.base) < f.data.len() as u64 {
                return Some(f.data[(a - f.base) as usize]);
            }
            i = i + 1;
        }
        None
    }
}

/// Whether frame `f` covers address `a`.
pub open spec fn frame_holds(f: Frame, a: int) -> bool {
    f.base <= a < f.base + f.data@.len()
}

impl SparseMemory {
    /// Sets the byte at `a` in the frame that shows it; false where no frame holds `a`.
    fn set_byte(&mut self, a: u64, b: u8) -> (r: bool)
        ensures
            r == (old(self).byte_at(a as int) is Some),
            forall|x: int| #[trigger] final(self).byte_at(x) == if r && x == a {
                Some(b)
            } else {
                old(self).byte_at(x)
            },
    {
        let mut i: usize = 0;
        while i < self.frames.len()
            invariant
                *self == *old(self),
                i <= self.frames@.len(),
                frame_byte(self.frames@, 0, a as int) == frame_byte(self.frames@, i as int, a as int),
                forall|j: int| 0 <= j < i ==> !frame_holds(#[trigger] self.frames@[j], a as int),
            decreases self.frames@.len() - i,
        {
            let base = self.frames[i].base;
            if base <= a && (a - base) < self.frames[i].data.len() as u64 {
                let ghost before = self.frames@;
                let mut d = self.frames[i].data.clone();
                assert(d@ == before[i as int].data@);
                let k = (a - base) as usize;
                assert(self.byte_at(a as int) == Some(d@[k as int]));
                d.set(k, b);
                self.frames.set(i, Frame { base, data: d });
                assert forall|x: int| #[trigger] self.byte_at(x) == if x == a {
                    Some(b)
                } else {
                    old(self).byte_at(x)
                } by {
                    lemma_frame_set(before, self.frames@, i as int, a as int, 0, x);
                }
                return true;
            }
            i = i + 1;
        }
        false
    }
}

proof fn lemma_frame_set(before: Seq<Frame>, after: Seq<Frame>, t: int, a: int, i: int, x: int)
    requires
        0 <= t < before.len(),
        after.len() == before.len(),
        forall|j: int| 0 <= j < before.len() && j != t ==> after[j] == before[j],
        after[t].base == before[t].base,
        after[t].data@.len() == before[t].data@.len(),
        before[t].base <= a < before[t].base + before[t].data@.len(),
        after[t].data@ == before[t].data@.update(a - before[t].base, after[t].data@[a - before[t].base]),
        forall|j: int| 0 <= j < t ==> !frame_holds(#[trigger] before[j], a),
        0 <= i <= t,
    ensures
        frame_byte(after, i, x) == if x == a {
            Some(after[t].data@[a - before[t].base])
        } else {
            frame_byte(before, i, x)
        },
    decreases before.len() - i,
{
    if i < t {
        assert(after[i] == before[i]);
        lemma_frame_set(before, after, t, a, i + 1, x);
    } else {
        lemma_frame_tail(before, after, t + 1, x);
    }
}

/// The highest address that the first `n` frames may hold (saturating at the top of
/// the address space).
pub open spec fn frames_max(frames: Seq<Frame>, n: int) -> u64
    decreases n,
{
    if n <= 0 || n > frames.len() {
        0
    } else {
        let mx = frames_max(frames, n - 1);
        let f = frames[n - 1];
        let len = f.data@.len();
        if len == 0 {
            mx
        } else if f.base + len - 1 > u64::MAX {
            u64::MAX
        } else if f.base + len - 1 > mx {
            (f.base + len - 1) as u64
        } else {
            mx
        }
    }
}

/// Whether the frames show every one of the `len` bytes from `addr`.
pub open spec fn frames_readable(frames: Seq<Frame>, addr: int, len: int) -> bool {
    0 <= addr && addr + len <= addr_end() && forall|i: int| 0 <= i < len ==> (#[trigger] frame_byte(frames, 0, addr + i)) is Some
}

impl SparseMemory {
    /// Whether every byte of the range is held by some frame.
    fn all_present(&self, addr: u64, len: usize) -> (r: bool)
        ensures
            r == frames_readable(self.frames@, addr as int, len as int),
    {
        if addr as u128 + len as u128 > 0x1_0000_0000_0000_0000u128 {
            return false;
        }
        let mut i: usize = 0;
        while i < len
            invariant
                addr + len <= addr_end(),
                i <= len,
                forall|j: int| 0 <= j < i ==> (#[trigger] frame_byte(self.frames@, 0, addr + j)) is Some,
            decreases len - i,
        {
            if self.byte(addr + i as u64).is_none() {
                return false;
            }
            i = i + 1;
        }
        true
    }
}

/// One past the last byte of a frame.
pub open spec fn frame_end(f: Frame) -> int {
    f.base + f.data@.len()
}

proof fn lemma_frame_none(frames: Seq<Frame>, i: int, a: int, mx: int)
    requires
        0 <= i,
        mx < a,
        forall|j: int| 0 <= j < frames.len() ==> #[trigger] frame_end(frames[j]) <= mx + 1 || frames[j].data@.len() == 0,
    ensures
        frame_byte(frames, i, a) is None,
    decreases frames.len() - i,
{
    if i < frames.len() {
        assert(frame_end(frames[i]) <= mx + 1 || frames[i].data@.len() == 0);
        lemma_frame_none(frames, i + 1, a, mx);
    }
}

proof fn lemma_frame_tail(before: Seq<Frame>, after: Seq<Frame>, i: int, x: int)
    requires
        after.len() == before.len(),
        0 <= i,
        forall|j: int| i <= j < before.len() ==> after[j] == before[j],
    ensures
        frame_byte(after, i, x) == frame_byte(before, i, x),
    decreases before.len() - i,
{
    if i < before.len() {
        assert(after[i] == before[i]);
        lemma_frame_tail(before, after, i + 1, x);
    }
}

proof fn lemma_frame_push(before: Seq<Frame>, f: Frame, after: Seq<Frame>, i: int, a: int)
    requires
        after == before.push(f),
        0 <= i <= before.len(),
    ensures
        frame_byte(after, i, a) == if frame_byte(before, i, a) is None && f.base <= a < f.base
            + f.data@.len() {
            Some(f.data@[a - f.base])
        } else {
            frame_byte(before, i, a)
        },
    decreases before.len() - i,
{
    if i < before.len() {
        assert(after[i] == before[i]);
        lemma_frame_push(before, f, after, i + 1, a);
    } else {
        assert(after[i] == f);
        assert(frame_byte(after, i + 1, a) is None);
    }
}

impl PhysicalMemory for SparseMemory {
    open spec fn byte_at(&self, addr: int) -> Option<u8> {
        frame_byte(self.frames@, 0, addr)
    }

    fn phys_read_raw(&self, addr: u64, len: usize) -> (r: Option<Vec<u8>>) {
        if addr as u128 + len as u128 > 0x1_0000_0000_0000_0000u128 {
            return None;
        }
        let mut out: Vec<u8> = Vec::new();
        let mut i: usize = 0;
        while i < len
            invariant
                addr + len <= addr_end(),
                i <= len,
                out@.len() == i,
                forall|j: int| 0 <= j < i ==> Some(#[trigger] out@[j]) == self.byte_at(addr + j),
            decreases len - i,
        {
            match self.byte(addr + i as u64) {
                Some(b) => out.push(b),
                None => {
                    assert(self.byte_at(addr + i as int) is None);
                    return None;
                },
            }
            i = i + 1;
        }
        assert forall|j: int| 0 <= j < len implies (#[trigger] self.byte_at(addr + j)) is Some by {
            assert(Some(out@[j]) == self.byte_at(addr + j));
        }
        Some(out)
    }

    open spec fn spec_metadata(&self) -> PhysicalMemoryMetadata {
        PhysicalMemoryMetadata { max_address: frames_max(self.frames@, self.frames@.len() as int), page_size_hint: 4096, readonly: false }
    }

    fn metadata(&self) -> (r: PhysicalMemoryMetadata) {
        let mut mx: u64 = 0;
        let mut i: usize = 0;
        while i < self.frames.len()
            invariant
                i <= self.frames@.len(),
                mx == frames_max(self.frames@, i as int),
                forall|j: int| 0 <= j < i ==> #[trigger] frame_end(self.frames@[j]) <= mx + 1 || mx == u64::MAX
                    || self.frames@[j].data@.len() == 0,
            decreases self.frames@.len() - i,
        {
            let f = &self.frames[i];
            let len = f.data.len() as u64;
            if len > 0 {
                if f.base > u64::MAX - (len - 1) {
                    mx = u64::MAX;
                } else if f.base + (len - 1) > mx {
                    mx = f.base + (len - 1);
                }
            }
            i = i + 1;
        }
        proof {
            assert forall|a: int| mx < a < addr_end() implies (#[trigger] self.byte_at(a)) is None by {
                if mx < u64::MAX {
                    lemma_frame_none(self.frames@, 0, a, mx as int);
                }
            }
        }
        PhysicalMemoryMetadata { max_address: mx, page_size_hint: 4096, readonly: false }
    }

    open spec fn accepts_write(&self, addr: int, len: int) -> bool {
        frames_readable(self.frames@, addr, len)
    }

    fn phys_write_raw(&mut self, addr: u64, data: &Vec<u8>) -> (r: bool) {
        if !self.all_present(addr, data.len()) {
            return false;
        }
        let mut j: usize = 0;
        while j < data.len()
            invariant
                addr + data@.len() <= addr_end(),
                frames_readable(old(self).frames@, addr as int, data@.len() as int),
                j <= data@.len(),
                forall|a: int| #[trigger] self.byte_at(a) == if addr <= a < addr + j {
                    Some(data@[a - addr])
                } else {
                    old(self).byte_at(a)
                },
            decreases data@.len() - j,
        {
            let ghost prev = *self;
            assert(old(self).byte_at(addr + j) is Some);
            let ok = self.set_byte(addr + j as u64, data[j]);
            assert(ok);
            assert forall|a: int| #[trigger] self.byte_at(a) == if addr <= a < addr + j + 1 {
                Some(data@[a - addr])
            } else {
                old(self).byte_at(a)
            } by {
                assert(prev.byte_at(a) == if addr <= a < addr + j {
                    Some(data@[a - addr])
                } else {
                    old(self).byte_at(a)
                });
            }
            j = j + 1;
        }
        proof {
            assert forall|a: int, n: int| #[trigger] frames_readable(self.frames@, a, n) == frames_readable(old(self).frames@, a, n) by {
                if frames_readable(old(self).frames@, a, n) {
                    assert forall|i: int| 0 <= i < n implies (#[trigger] frame_byte(self.frames@, 0, a + i)) is Some by {
                        assert(frame_byte(old(self).frames@, 0, a + i) is Some);
                        assert(self.byte_at(a + i) is Some);
                    }
                }
                if frames_readable(self.frames@, a, n) {
                    assert forall|i: int| 0 <= i < n implies (#[trigger] frame_byte(old(self).frames@, 0, a + i)) is Some by {
                        assert(frame_byte(self.frames@, 0, a + i) is Some);
                        assert(self.byte_at(a + i) is Some);
                        if addr <= a + i < addr + data@.len() {
                            assert(frame_byte(old(self).frames@, 0, addr + (a + i - addr)) is Some);
                        }
                    }
                }
            }
        }
        true
    }
}

} // verus!
