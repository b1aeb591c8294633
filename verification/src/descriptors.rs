//! Leaf descriptors of each scheme, built field by field, and the arguments a
//! region's leaf maker receives.
use vstd::prelude::*;
use crate::scheme::Scheme;

verus! {

/// `raw` with the single bit `bit` set to `v`.
pub open spec fn with_bit(raw: u64, bit: u64, v: bool) -> u64 {
    if v {
        raw | (1u64 << bit)
    } else {
        raw & !(1u64 << bit)
    }
}

/// `raw` with the field `mask << shift` replaced by `value << shift`.
pub open spec fn with_field(raw: u64, shift: u64, mask: u64, value: u64) -> u64 {
    (raw & !(mask << shift)) | ((value & mask) << shift)
}

fn set_bit(raw: u64, bit: u64, v: bool) -> (r: u64)
    requires
        bit < 64,
    ensures
        r == with_bit(raw, bit, v),
{
    if v {
        raw | (1u64 << bit)
    } else {
        raw & !(1u64 << bit)
    }
}

fn set_field(raw: u64, shift: u64, mask: u64, value: u64) -> (r: u64)
    requires
        shift < 64,
    ensures
        r == with_field(raw, shift, mask, value),
{
    (raw & !(mask << shift)) | ((value & mask) << shift)
}

/// An Armv8-A stage 1 block (levels 1, 2) or page (level 3) descriptor.
pub struct AArch64LeafDescriptor {
    pub raw: u64,
}

pub open spec fn aarch64_leaf_spec(level: nat, paddr: u64) -> u64 {
    (paddr & 0x0000_ffff_ffff_f000) | (if level == 3 {
        0b11u64
    } else {
        0b01u64
    })
}

impl AArch64LeafDescriptor {
    /// A leaf for output address `paddr` with all attributes zero.
    pub fn from_paddr(level: usize, paddr: u64) -> (r: Self)
        ensures
            r.raw == aarch64_leaf_spec(level as nat, paddr),
    {
        let kind: u64 = if level == 3 {
            0b11
        } else {
            0b01
        };
        AArch64LeafDescriptor { raw: (paddr & 0x0000_ffff_ffff_f000) | kind }
    }

    /// The access flag, bit 10.
    pub fn set_access_flag(self, v: bool) -> (r: Self)
        ensures
            r.raw == with_bit(self.raw, 10, v),
    {
        AArch64LeafDescriptor { raw: set_bit(self.raw, 10, v) }
    }

    /// `AttrIndx[2:0]`, bits 2..4: which `MAIR_EL1` attribute applies.
    pub fn set_attribute_index(self, index: u64) -> (r: Self)
        ensures
            r.raw == with_field(self.raw, 2, 0b111, index),
    {
        AArch64LeafDescriptor { raw: set_field(self.raw, 2, 0b111, index) }
    }

    /// `SH[1:0]`, bits 8..9.
    pub fn set_shareability(self, sh: u64) -> (r: Self)
        ensures
            r.raw == with_field(self.raw, 8, 0b11, sh),
    {
        AArch64LeafDescriptor { raw: set_field(self.raw, 8, 0b11, sh) }
    }

    pub fn to_raw(&self) -> (r: u64)
        ensures
            r == self.raw,
    {
        self.raw
    }
}

/// An Armv7-A short-descriptor section (level 0) or small page (level 1).
pub struct AArch32LeafDescriptor {
    pub raw: u64,
    pub level: usize,
}

pub open spec fn aarch32_leaf_spec(level: nat, paddr: u64) -> u64 {
    if level == 0 {
        (paddr & 0xfff0_0000) | 0b10
    } else {
        (paddr & 0xffff_f000) | 0b10
    }
}

/// Bit positions that differ between sections and small pages.
pub open spec fn aarch32_ap0_bit(level: nat) -> u64 {
    if level == 0 {
        10
    } else {
        4
    }
}

pub open spec fn aarch32_tex_shift(level: nat) -> u64 {
    if level == 0 {
        12
    } else {
        6
    }
}

pub open spec fn aarch32_s_bit(level: nat) -> u64 {
    if level == 0 {
        16
    } else {
        10
    }
}

impl AArch32LeafDescriptor {
    pub fn from_paddr(level: usize, paddr: u64) -> (r: Self)
        ensures
            r.raw == aarch32_leaf_spec(level as nat, paddr),
            r.level == level,
    {
        let raw = if level == 0 {
            (paddr & 0xfff0_0000) | 0b10
        } else {
            (paddr & 0xffff_f000) | 0b10
        };
        AArch32LeafDescriptor { raw, level }
    }

    /// `AP[0]`, which is the access flag when `SCTLR.AFE` is set.
    pub fn set_access_flag(self, v: bool) -> (r: Self)
        ensures
            r.raw == with_bit(self.raw, aarch32_ap0_bit(self.level as nat), v),
            r.level == self.level,
    {
        let bit: u64 = if self.level == 0 {
            10
        } else {
            4
        };
        AArch32LeafDescriptor { raw: set_bit(self.raw, bit, v), level: self.level }
    }

    /// The memory attributes `TEX[2:0]`, `C` (bit 3) and `B` (bit 2).
    pub fn set_attributes(self, tex: u64, c: bool, b: bool) -> (r: Self)
        ensures
            r.raw == with_bit(
                with_bit(with_field(self.raw, aarch32_tex_shift(self.level as nat), 0b111, tex), 3, c),
                2,
                b,
            ),
            r.level == self.level,
    {
        let shift: u64 = if self.level == 0 {
            12
        } else {
            6
        };
        let raw = set_bit(set_bit(set_field(self.raw, shift, 0b111, tex), 3, c), 2, b);
        AArch32LeafDescriptor { raw, level: self.level }
    }

    /// The shareable bit `S`.
    pub fn set_shareability(self, s: bool) -> (r: Self)
        ensures
            r.raw == with_bit(self.raw, aarch32_s_bit(self.level as nat), s),
            r.level == self.level,
    {
        let bit: u64 = if self.level == 0 {
            16
        } else {
            10
        };
        AArch32LeafDescriptor { raw: set_bit(self.raw, bit, s), level: self.level }
    }

    pub fn to_raw(&self) -> (r: u64)
        ensures
            r == self.raw,
    {
        self.raw
    }
}

/// A RISC-V leaf: valid, readable, writable, executable, accessed and dirty.
pub struct RiscVLeafDescriptor {
    pub raw: u64,
}

pub open spec fn riscv_ppn_mask(s: Scheme) -> u64 {
    if s is RiscVSv32 {
        0x3f_ffff
    } else {
        0x0fff_ffff_ffff
    }
}

pub open spec fn riscv_leaf_spec(s: Scheme, paddr: u64) -> u64 {
    (((paddr >> 12u64) & riscv_ppn_mask(s)) << 10u64) | 0xcf
}

impl RiscVLeafDescriptor {
    pub fn from_paddr(scheme: Scheme, paddr: u64) -> (r: Self)
        ensures
            r.raw == riscv_leaf_spec(scheme, paddr),
    {
        let mask: u64 = match scheme {
            Scheme::RiscVSv32 => 0x3f_ffff,
            _ => 0x0fff_ffff_ffff,
        };
        RiscVLeafDescriptor { raw: (((paddr >> 12u64) & mask) << 10u64) | 0xcf }
    }

    pub fn to_raw(&self) -> (r: u64)
        ensures
            r == self.raw,
    {
        self.raw
    }
}

/// Where a leaf is being made: the scheme, the level of the entry and the
/// first virtual address the entry covers.
pub struct MkLeafArgs {
    scheme: Scheme,
    level: usize,
    vaddr: u64,
}

impl MkLeafArgs {
    pub closed spec fn scheme_spec(&self) -> Scheme {
        self.scheme
    }

    pub closed spec fn level_spec(&self) -> nat {
        self.level as nat
    }

    pub closed spec fn vaddr_spec(&self) -> u64 {
        self.vaddr
    }

    /// The level may hold leaves in the scheme.
    pub open spec fn wf(&self) -> bool {
        self.scheme_spec().min_leaf_level_spec() <= self.level_spec()
            < self.scheme_spec().num_levels_spec()
    }

    pub fn new(scheme: &Scheme, level: usize, vaddr: u64) -> (r: Self)
        requires
            scheme.min_leaf_level_spec() <= level < scheme.num_levels_spec(),
        ensures
            r.scheme_spec() == *scheme,
            r.level_spec() == level,
            r.vaddr_spec() == vaddr,
            r.wf(),
    {
        MkLeafArgs { scheme: *scheme, level, vaddr }
    }

    /// The same as `new`: arguments for a leaf at `level` covering `vaddr`.
    pub fn new_for_test(scheme: &Scheme, level: usize, vaddr: u64) -> (r: Self)
        requires
            scheme.min_leaf_level_spec() <= level < scheme.num_levels_spec(),
        ensures
            r.scheme_spec() == *scheme,
            r.level_spec() == level,
            r.vaddr_spec() == vaddr,
            r.wf(),
    {
        Self::new(scheme, level, vaddr)
    }

    pub fn scheme(&self) -> (r: Scheme)
        ensures
            r == self.scheme_spec(),
    {
        self.scheme
    }

    pub fn level(&self) -> (r: usize)
        ensures
            r == self.level_spec(),
    {
        self.level
    }

    pub fn vaddr(&self) -> (r: u64)
        ensures
            r == self.vaddr_spec(),
    {
        self.vaddr
    }
}

} // verus!
