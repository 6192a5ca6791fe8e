use vstd::prelude::*;

verus! {

/// One past the largest 64-bit address.
pub open spec fn addr_end() -> int {
    0x1_0000_0000_0000_0000
}

/// Size of the smallest page, in bytes.
pub const PAGE_SIZE: u64 = 0x1000;

/// Start of the 4 KiB page that holds `v`.
pub open spec fn page_base(v: int) -> int {
    v - v % 4096
}

/// A byte count in KiB.
pub fn from_kb(n: u64) -> (r: u64)
    requires
        n <= 0x3F_FFFF_FFFF_FFFF,
    ensures
        r == n * 0x400,
{
    n * 0x400
}

/// A byte count in MiB.
pub fn from_mb(n: u64) -> (r: u64)
    requires
        n <= 0xFFF_FFFF_FFFF,
    ensures
        r == n * 0x10_0000,
{
    n * 0x10_0000
}

/// A byte count in GiB.
pub fn from_gb(n: u64) -> (r: u64)
    requires
        n <= 0x3_FFFF_FFFF,
    ensures
        r == n * 0x4000_0000,
{
    n * 0x4000_0000
}

/// Adds a length to an address; `None` where the sum does not fit.
pub fn checked_offset(addr: u64, len: u64) -> (r: Option<u64>)
    ensures
        r is Some <==> addr + len < addr_end(),
        r is Some ==> r->0 == addr + len,
{
    addr.checked_add(len)
}

/// Rounds an address down to its 4 KiB page.
pub fn page_align(addr: u64) -> (r: u64)
    ensures
        r == page_base(addr as int),
{
    addr - addr % PAGE_SIZE
}

} // verus!
