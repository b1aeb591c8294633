//! Translation schemes: the geometry of each supported page-table format and
//! the descriptors that do not depend on leaf attributes.
use vstd::prelude::*;

verus! {

/// The page-table formats a loader map can be built for.
#[derive(Clone, Copy, PartialEq, Eq, Structural, Debug)]
pub enum Scheme {
    /// Armv8-A stage 1, 4 KiB granule, 48-bit input addresses, four levels.
    AArch64,
    /// Armv7-A short-descriptor format: 1 MiB sections and 4 KiB small pages.
    AArch32,
    /// RISC-V Sv39: three levels of 512 entries.
    RiscVSv39,
    /// RISC-V Sv32: two levels of 1024 entries.
    RiscVSv32,
}

/// Attribute bits 59..63 = 0b01110 that a T-Head core with `sxstatus.MAEE`
/// set reads as "normal, cacheable, bufferable, shareable memory".
pub const THEAD_PMA: u64 = 0x7000_0000_0000_0000;

impl Scheme {
    pub open spec fn is_riscv(self) -> bool {
        self is RiscVSv39 || self is RiscVSv32
    }

    pub open spec fn is_arm(self) -> bool {
        self is AArch64 || self is AArch32
    }

    /// Number of translation levels; level 0 is the root.
    pub open spec fn num_levels_spec(self) -> nat {
        match self {
            Scheme::AArch64 => 4,
            Scheme::AArch32 => 2,
            Scheme::RiscVSv39 => 3,
            Scheme::RiscVSv32 => 2,
        }
    }

    /// The shallowest level at which an entry may map memory directly.
    pub open spec fn min_leaf_level_spec(self) -> nat {
        match self {
            Scheme::AArch64 => 1,
            _ => 0,
        }
    }

    /// Bytes of virtual address space that one entry at `level` covers.
    pub open spec fn entry_size_spec(self, level: nat) -> nat {
        match self {
            Scheme::AArch64 => if level == 0 {
                0x80_0000_0000
            } else if level == 1 {
                0x4000_0000
            } else if level == 2 {
                0x20_0000
            } else {
                0x1000
            },
            Scheme::AArch32 => if level == 0 {
                0x10_0000
            } else {
                0x1000
            },
            Scheme::RiscVSv39 => if level == 0 {
                0x4000_0000
            } else if level == 1 {
                0x20_0000
            } else {
                0x1000
            },
            Scheme::RiscVSv32 => if level == 0 {
                0x40_0000
            } else {
                0x1000
            },
        }
    }

    /// Number of entries in a table at `level`.
    pub open spec fn num_entries_spec(self, level: nat) -> nat {
        match self {
            Scheme::AArch64 => 512,
            Scheme::AArch32 => if level == 0 {
                4096
            } else {
                256
            },
            Scheme::RiscVSv39 => 512,
            Scheme::RiscVSv32 => 1024,
        }
    }

    /// Bytes of one descriptor.
    pub open spec fn descriptor_size_spec(self) -> nat {
        match self {
            Scheme::AArch64 | Scheme::RiscVSv39 => 8,
            _ => 4,
        }
    }

    /// A table at `level` must start at a multiple of this many bytes.
    pub open spec fn level_align_spec(self, level: nat) -> nat {
        match self {
            Scheme::AArch32 => if level == 0 {
                0x4000
            } else {
                0x400
            },
            _ => 0x1000,
        }
    }

    /// End (exclusive) of the virtual address space that the root table spans.
    pub open spec fn virt_end_spec(self) -> nat {
        self.entry_size_spec(0) * self.num_entries_spec(0)
    }

    /// Size in bytes of the largest leaf the scheme offers.
    pub open spec fn largest_leaf_size_spec(self) -> nat {
        self.entry_size_spec(self.min_leaf_level_spec())
    }

    pub open spec fn table_bytes_spec(self, level: nat) -> nat {
        self.num_entries_spec(level) * self.descriptor_size_spec()
    }

    /// The descriptor of an entry that maps nothing.
    pub open spec fn empty_descriptor_spec(self) -> u64 {
        0
    }

    /// The descriptor of an entry that points to a next-level table at `paddr`.
    pub open spec fn branch_descriptor_spec(self, paddr: u64) -> u64 {
        match self {
            Scheme::AArch64 => (paddr & 0x0000_ffff_ffff_f000) | 0b11,
            Scheme::AArch32 => (paddr & 0xffff_fc00) | 0b01,
            Scheme::RiscVSv39 => (((paddr >> 12u64) & 0x0fff_ffff_ffff) << 10u64) | 0b1,
            Scheme::RiscVSv32 => (((paddr >> 12u64) & 0x3f_ffff) << 10u64) | 0b1,
        }
    }

    pub fn num_levels(&self) -> (r: usize)
        ensures
            r == self.num_levels_spec(),
    {
        match self {
            Scheme::AArch64 => 4,
            Scheme::AArch32 => 2,
            Scheme::RiscVSv39 => 3,
            Scheme::RiscVSv32 => 2,
        }
    }

    pub fn min_leaf_level(&self) -> (r: usize)
        ensures
            r == self.min_leaf_level_spec(),
    {
        match self {
            Scheme::AArch64 => 1,
            _ => 0,
        }
    }

    pub fn entry_size(&self, level: usize) -> (r: u64)
        ensures
            r == self.entry_size_spec(level as nat),
    {
        match self {
            Scheme::AArch64 => if level == 0 {
                0x80_0000_0000
            } else if level == 1 {
                0x4000_0000
            } else if level == 2 {
                0x20_0000
            } else {
                0x1000
            },
            Scheme::AArch32 => if level == 0 {
                0x10_0000
            } else {
                0x1000
            },
            Scheme::RiscVSv39 => if level == 0 {
                0x4000_0000
            } else if level == 1 {
                0x20_0000
            } else {
                0x1000
            },
            Scheme::RiscVSv32 => if level == 0 {
                0x40_0000
            } else {
                0x1000
            },
        }
    }

    pub fn num_entries(&self, level: usize) -> (r: u64)
        ensures
            r == self.num_entries_spec(level as nat),
    {
        match self {
            Scheme::AArch64 => 512,
            Scheme::AArch32 => if level == 0 {
                4096
            } else {
                256
            },
            Scheme::RiscVSv39 => 512,
            Scheme::RiscVSv32 => 1024,
        }
    }

    pub fn descriptor_size(&self) -> (r: usize)
        ensures
            r == self.descriptor_size_spec(),
    {
        match self {
            Scheme::AArch64 | Scheme::RiscVSv39 => 8,
            _ => 4,
        }
    }

    /// Alignment, in bytes, of a table at `level`.
    pub fn level_align(&self, level: usize) -> (r: u64)
        ensures
            r == self.level_align_spec(level as nat),
    {
        match self {
            Scheme::AArch32 => if level == 0 {
                0x4000
            } else {
                0x400
            },
            _ => 0x1000,
        }
    }

    /// The virtual addresses the root table translates: `0..virt_end`.
    pub fn virt_end(&self) -> (r: u64)
        ensures
            r == self.virt_end_spec(),
    {
        match self {
            Scheme::AArch64 => 0x1_0000_0000_0000,
            Scheme::AArch32 => 0x1_0000_0000,
            Scheme::RiscVSv39 => 0x80_0000_0000,
            Scheme::RiscVSv32 => 0x1_0000_0000,
        }
    }

    pub fn largest_leaf_size(&self) -> (r: u64)
        ensures
            r == self.largest_leaf_size_spec(),
    {
        match self {
            Scheme::AArch64 => 0x4000_0000,
            Scheme::AArch32 => 0x10_0000,
            Scheme::RiscVSv39 => 0x4000_0000,
            Scheme::RiscVSv32 => 0x40_0000,
        }
    }

    pub fn empty_descriptor(&self) -> (r: u64)
        ensures
            r == self.empty_descriptor_spec(),
            r & 0b11 == 0,
    {
        assert(0u64 & 0b11 == 0) by (bit_vector);
        0
    }

    pub fn branch_descriptor(&self, paddr: u64) -> (r: u64)
        ensures
            r == self.branch_descriptor_spec(paddr),
            self.table_address_ok(paddr) ==> self.branch_target(r) == paddr
                && self.is_branch_descriptor(r),
    {
        proof {
            if self.table_address_ok(paddr) {
                lemma_branch_descriptor_decodes(*self, paddr);
            }
        }
        match self {
            Scheme::AArch64 => (paddr & 0x0000_ffff_ffff_f000) | 0b11,
            Scheme::AArch32 => (paddr & 0xffff_fc00) | 0b01,
            Scheme::RiscVSv39 => (((paddr >> 12u64) & 0x0fff_ffff_ffff) << 10u64) | 0b1,
            Scheme::RiscVSv32 => (((paddr >> 12u64) & 0x3f_ffff) << 10u64) | 0b1,
        }
    }
}

impl Scheme {
    /// The address of the next-level table that branch descriptor `d`
    /// points at, as the MMU reads it.
    pub open spec fn branch_target(self, d: u64) -> u64 {
        match self {
            Scheme::AArch64 => d & 0x0000_ffff_ffff_f000,
            Scheme::AArch32 => d & 0xffff_fc00,
            Scheme::RiscVSv39 => ((d >> 10u64) & 0x0fff_ffff_ffff) << 12u64,
            Scheme::RiscVSv32 => ((d >> 10u64) & 0x3f_ffff) << 12u64,
        }
    }

    /// `d` is read as a pointer to a next-level table: AArch64 table
    /// descriptor (`0b11`), AArch32 page-table descriptor (`0b01`), RISC-V
    /// valid with `R`, `W`, `X` clear.
    pub open spec fn is_branch_descriptor(self, d: u64) -> bool {
        match self {
            Scheme::AArch64 => d & 0b11 == 0b11,
            Scheme::AArch32 => d & 0b11 == 0b01,
            _ => d & 0xf == 0b1,
        }
    }

    /// `p` is an address a next-level table can have in this scheme: aligned
    /// as the smallest table is, and within the physical addresses a branch
    /// descriptor can hold.
    pub open spec fn table_address_ok(self, p: u64) -> bool {
        match self {
            Scheme::AArch64 => p % 0x1000 == 0 && p < 0x1_0000_0000_0000,
            Scheme::AArch32 => p % 0x400 == 0 && p < 0x1_0000_0000,
            Scheme::RiscVSv39 => p % 0x1000 == 0 && p < 0x100_0000_0000_0000,
            Scheme::RiscVSv32 => p % 0x1000 == 0 && p < 0x4_0000_0000,
        }
    }
}

proof fn lemma_branch_bits(p: u64)
    by (bit_vector)
    ensures
        p % 0x1000 == 0 && p < 0x1_0000_0000_0000 ==> ((p & 0x0000_ffff_ffff_f000) | 0b11)
            & 0x0000_ffff_ffff_f000 == p && ((p & 0x0000_ffff_ffff_f000) | 0b11) & 0b11 == 0b11,
        p % 0x400 == 0 && p < 0x1_0000_0000 ==> ((p & 0xffff_fc00) | 0b01) & 0xffff_fc00 == p && ((p
            & 0xffff_fc00) | 0b01) & 0b11 == 0b01,
        p % 0x1000 == 0 && p < 0x100_0000_0000_0000 ==> {
            let d = (((p >> 12u64) & 0x0fff_ffff_ffff) << 10u64) | 0b1;
            &&& ((d >> 10u64) & 0x0fff_ffff_ffff) << 12u64 == p
            &&& (((d | 0x7000_0000_0000_0000) >> 10u64) & 0x0fff_ffff_ffff) << 12u64 == p
            &&& d & 0xf == 1
            &&& (d | 0x7000_0000_0000_0000) & 0xf == 1
        },
        p % 0x1000 == 0 && p < 0x4_0000_0000 ==> {
            let d = (((p >> 12u64) & 0x3f_ffff) << 10u64) | 0b1;
            &&& ((d >> 10u64) & 0x3f_ffff) << 12u64 == p
            &&& (((d | 0x7000_0000_0000_0000) >> 10u64) & 0x3f_ffff) << 12u64 == p
            &&& d & 0xf == 1
            &&& (d | 0x7000_0000_0000_0000) & 0xf == 1
        },
{
}

/// A branch descriptor made for a table address points back at that
/// address, and is read as a branch; on RISC-V also with the T-Head
/// attribute bits set.
pub proof fn lemma_branch_descriptor_decodes(s: Scheme, p: u64)
    requires
        s.table_address_ok(p),
    ensures
        s.branch_target(s.branch_descriptor_spec(p)) == p,
        s.is_branch_descriptor(s.branch_descriptor_spec(p)),
        s.is_riscv() ==> s.branch_target(s.branch_descriptor_spec(p) | THEAD_PMA) == p
            && s.is_branch_descriptor(s.branch_descriptor_spec(p) | THEAD_PMA),
{
    lemma_branch_bits(p);
}

/// The little-endian bytes of the low `n` bytes of `d`.
pub open spec fn le_bytes(d: u64, n: nat) -> Seq<u8> {
    Seq::new(n, |i: int| ((d >> (8 * i) as u64) & 0xff) as u8)
}

impl Scheme {
    /// A descriptor as it is stored in memory: little-endian, truncated to
    /// the scheme's descriptor width.
    pub open spec fn descriptor_bytes_spec(self, d: u64) -> Seq<u8> {
        le_bytes(d, self.descriptor_size_spec())
    }

    pub fn descriptor_to_bytes(&self, d: u64) -> (r: Vec<u8>)
        ensures
            r@ == self.descriptor_bytes_spec(d),
            self.descriptor_size_spec() == 8 ==> vstd::bytes::spec_u64_from_le_bytes(r@) == d,
            self.descriptor_size_spec() == 4 ==> le_word32(r@) == d & 0xffff_ffff,
    {
        proof {
            lemma_descriptor_bytes_decode(*self, d);
        }
        let n = self.descriptor_size();
        let mut out: Vec<u8> = Vec::new();
        let mut i: usize = 0;
        while i < n
            invariant
                n == self.descriptor_size_spec(),
                i <= n,
                out@ == le_bytes(d, i as nat),
            decreases n - i,
        {
            let b = ((d >> (8 * i) as u64) & 0xff) as u8;
            out.push(b);
            i = i + 1;
            assert(out@ =~= le_bytes(d, i as nat));
        }
        out
    }
}

/// Four little-endian bytes read as a word.
pub open spec fn le_word32(b: Seq<u8>) -> u64 {
    (b[0] as u64) | ((b[1] as u64) << 8u64) | ((b[2] as u64) << 16u64) | ((b[3] as u64) << 24u64)
}

/// Stored descriptors read back, little-endian, as the descriptor (its low
/// 32 bits for the 4-byte schemes).
pub proof fn lemma_descriptor_bytes_decode(s: Scheme, d: u64)
    ensures
        s.descriptor_size_spec() == 8 ==> vstd::bytes::spec_u64_from_le_bytes(
            s.descriptor_bytes_spec(d),
        ) == d,
        s.descriptor_size_spec() == 4 ==> le_word32(s.descriptor_bytes_spec(d)) == d & 0xffff_ffff,
{
    vstd::bytes::lemma_auto_spec_u64_to_from_le_bytes();
    vstd::bytes::spec_u64_to_le_bytes_to_open(d);
    assert(d >> 0u64 == d) by (bit_vector);
    let b = le_bytes(d, 8);
    let o = vstd::bytes::spec_u64_to_le_bytes_open(d);
    assert(b[0] == o[0]);
    assert(b[1] == o[1]);
    assert(b[2] == o[2]);
    assert(b[3] == o[3]);
    assert(b[4] == o[4]);
    assert(b[5] == o[5]);
    assert(b[6] == o[6]);
    assert(b[7] == o[7]);
    assert(b =~= o);
    let b = le_bytes(d, 4);
    assert(b[0] == (d & 0xff) as u8);
    assert(b[1] == ((d >> 8u64) & 0xff) as u8);
    assert(b[2] == ((d >> 16u64) & 0xff) as u8);
    assert(b[3] == ((d >> 24u64) & 0xff) as u8);
    lemma_word32(d);
}

proof fn lemma_word32(d: u64)
    by (bit_vector)
    ensures
        (((d & 0xff) as u8) as u64) | ((((d >> 8u64) & 0xff) as u8 as u64) << 8u64) | ((((d >> 16u64)
            & 0xff) as u8 as u64) << 16u64) | ((((d >> 24u64) & 0xff) as u8 as u64) << 24u64) == d
            & 0xffff_ffff,
{
}

/// Every table is aligned to its own size, as the MMUs require of the
/// addresses in branch descriptors (and AArch32's `TTBR0` of the root); and
/// the largest leaf is a multiple of the page size.
pub proof fn lemma_tables_aligned_to_their_size(s: Scheme, level: nat)
    requires
        level < s.num_levels_spec(),
    ensures
        s.level_align_spec(level) == s.table_bytes_spec(level),
        s.largest_leaf_size_spec() % 0x1000 == 0,
        s.largest_leaf_size_spec() == s.entry_size_spec(s.min_leaf_level_spec()),
{
}

/// Branch descriptors of the RISC-V schemes leave the T-Head attribute bits clear.
pub proof fn lemma_riscv_branch_descriptor_pma_clear(s: Scheme, paddr: u64)
    requires
        s.is_riscv(),
    ensures
        s.branch_descriptor_spec(paddr) & THEAD_PMA == 0,
{
    assert((((paddr >> 12u64) & 0x0fff_ffff_ffff) << 10u64 | 0b1) & 0x7000_0000_0000_0000 == 0)
        by (bit_vector);
    assert((((paddr >> 12u64) & 0x3f_ffff) << 10u64 | 0b1) & 0x7000_0000_0000_0000 == 0)
        by (bit_vector);
}

} // verus!
