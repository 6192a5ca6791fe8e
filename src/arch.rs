use vstd::prelude::*;

verus! {

/// The instruction sets whose page tables can be walked.
#[derive(Clone, Copy, Debug, PartialEq, Eq, Structural)]
pub enum Architecture {
    X86,
    X86Pae,
    X64,
}

impl Architecture {
    /// Number of page-table levels.
    pub open spec fn spec_levels(self) -> u64 {
        match self {
            Architecture::X86 => 2,
            Architecture::X86Pae => 3,
            Architecture::X64 => 4,
        }
    }

    /// Size in bytes of one page-table entry.
    pub open spec fn spec_entry_size(self) -> u64 {
        match self {
            Architecture::X86 => 4,
            _ => 8,
        }
    }

    /// Bit position of the index used at level `k` (0 is the top table).
    pub open spec fn spec_shift(self, k: u64) -> u64 {
        match self {
            Architecture::X86 => if k == 0 { 22 } else { 12 },
            Architecture::X86Pae => if k == 0 { 30 } else if k == 1 { 21 } else { 12 },
            Architecture::X64 => if k == 0 { 39 } else if k == 1 { 30 } else if k == 2 { 21 } else { 12 },
        }
    }

    /// Mask applied to the shifted address to get the index at level `k`.
    pub open spec fn spec_index_mask(self, k: u64) -> u64 {
        match self {
            Architecture::X86 => 0x3ff,
            Architecture::X86Pae => if k == 0 { 0x3 } else { 0x1ff },
            Architecture::X64 => 0x1ff,
        }
    }

    /// Mask of the physical frame address held in an entry.
    pub open spec fn spec_frame_mask(self) -> u64 {
        match self {
            Architecture::X86 => 0xFFFF_F000,
            _ => 0x000F_FFFF_FFFF_F000,
        }
    }

    /// Size of the region that one entry at level `k` covers.
    pub open spec fn spec_page_size(self, k: u64) -> u64 {
        match self {
            Architecture::X86 => if k == 0 { 0x40_0000 } else { 0x1000 },
            Architecture::X86Pae => if k == 0 { 0x4000_0000 } else if k == 1 { 0x20_0000 } else { 0x1000 },
            Architecture::X64 => if k == 0 { 0x80_0000_0000 } else if k == 1 { 0x4000_0000 } else if k == 2 {
                0x20_0000
            } else {
                0x1000
            },
        }
    }

    /// Whether an entry at level `k` may map a large page.
    pub open spec fn spec_large_allowed(self, k: u64) -> bool {
        match self {
            Architecture::X86 => k == 0,
            Architecture::X86Pae => k == 1,
            Architecture::X64 => k == 1 || k == 2,
        }
    }

    /// Size in bytes of a pointer.
    pub open spec fn spec_pointer_size(self) -> u64 {
        match self {
            Architecture::X86 => 4,
            _ => 8,
        }
    }

    pub fn levels(self) -> (r: u64)
        ensures
            r == self.spec_levels(),
    {
        match self {
            Architecture::X86 => 2,
            Architecture::X86Pae => 3,
            Architecture::X64 => 4,
        }
    }

    pub fn entry_size(self) -> (r: u64)
        ensures
            r == self.spec_entry_size(),
    {
        match self {
            Architecture::X86 => 4,
            _ => 8,
        }
    }

    pub fn shift(self, k: u64) -> (r: u64)
        ensures
            r == self.spec_shift(k),
    {
        match self {
            Architecture::X86 => if k == 0 { 22 } else { 12 },
            Architecture::X86Pae => if k == 0 { 30 } else if k == 1 { 21 } else { 12 },
            Architecture::X64 => if k == 0 { 39 } else if k == 1 { 30 } else if k == 2 { 21 } else { 12 },
        }
    }

    pub fn index_mask(self, k: u64) -> (r: u64)
        ensures
            r == self.spec_index_mask(k),
    {
        match self {
            Architecture::X86 => 0x3ff,
            Architecture::X86Pae => if k == 0 { 0x3 } else { 0x1ff },
            Architecture::X64 => 0x1ff,
        }
    }

    pub fn frame_mask(self) -> (r: u64)
        ensures
            r == self.spec_frame_mask(),
    {
        match self {
            Architecture::X86 => 0xFFFF_F000,
            _ => 0x000F_FFFF_FFFF_F000,
        }
    }

    pub fn page_size(self, k: u64) -> (r: u64)
        ensures
            r == self.spec_page_size(k),
            r >= 0x1000,
    {
        match self {
            Architecture::X86 => if k == 0 { 0x40_0000 } else { 0x1000 },
            Architecture::X86Pae => if k == 0 { 0x4000_0000 } else if k == 1 { 0x20_0000 } else { 0x1000 },
            Architecture::X64 => if k == 0 { 0x80_0000_0000 } else if k == 1 { 0x4000_0000 } else if k == 2 {
                0x20_0000
            } else {
                0x1000
            },
        }
    }

    pub fn large_allowed(self, k: u64) -> (r: bool)
        ensures
            r == self.spec_large_allowed(k),
    {
        match self {
            Architecture::X86 => k == 0,
            Architecture::X86Pae => k == 1,
            Architecture::X64 => k == 1 || k == 2,
        }
    }

    pub fn pointer_size(self) -> (r: u64)
        ensures
            r == self.spec_pointer_size(),
    {
        match self {
            Architecture::X86 => 4,
            _ => 8,
        }
    }

    /// The identifier of the architecture on the bridge wire.
    pub fn as_u8(self) -> (r: u8)
        ensures
            r == (match self {
                Architecture::X86 => 1u8,
                Architecture::X86Pae => 2u8,
                Architecture::X64 => 3u8,
            }),
    {
        match self {
            Architecture::X86 => 1,
            Architecture::X86Pae => 2,
            Architecture::X64 => 3,
        }
    }
}

} // verus!
