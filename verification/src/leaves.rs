//! The leaf descriptors of the loader's own map and of the kernel map.
use vstd::prelude::*;
use crate::descriptors::{
    aarch32_ap0_bit, aarch32_leaf_spec, aarch32_s_bit, aarch32_tex_shift, aarch64_leaf_spec,
    riscv_leaf_spec, with_bit, with_field, AArch32LeafDescriptor, AArch64LeafDescriptor, MkLeafArgs,
    RiscVLeafDescriptor,
};
use crate::leaf_laws::{
    aarch32_attrs, aarch64_attrs, frame_of, leaf_type_ok, lemma_device_leaf_bits,
    lemma_identity_leaf_bits, lemma_kernel_leaf_bits, lemma_normal_leaf_bits, minus_mod,
    output_address,
};
use crate::scheme::{Scheme, THEAD_PMA};

verus! {

/// The `MAIR_EL1` index the loader programs for normal memory.
pub const AARCH64_MT_NORMAL: u64 = 4;

/// The `MAIR_EL1` index the loader programs for device nGnRnE memory.
pub const AARCH64_MT_DEVICE_NGNRNE: u64 = 0;

pub open spec fn aarch64_normal_shareability_spec(smp: bool) -> u64 {
    if smp {
        0b11
    } else {
        0b00
    }
}

/// Inner shareable on a multiprocessor, non-shareable otherwise.
pub fn aarch64_normal_shareability(smp: bool) -> (r: u64)
    ensures
        r == aarch64_normal_shareability_spec(smp),
{
    if smp {
        0b11
    } else {
        0b00
    }
}

/// An AArch64 leaf for `paddr` as normal memory.
pub open spec fn aarch64_normal_spec(smp: bool, level: nat, paddr: u64) -> u64 {
    with_field(
        with_field(with_bit(aarch64_leaf_spec(level, paddr), 10, true), 2, 0b111, AARCH64_MT_NORMAL),
        8,
        0b11,
        aarch64_normal_shareability_spec(smp),
    )
}

/// An AArch64 leaf for `paddr` as device memory.
pub open spec fn aarch64_device_spec(level: nat, paddr: u64) -> u64 {
    with_field(
        with_bit(aarch64_leaf_spec(level, paddr), 10, true),
        2,
        0b111,
        AARCH64_MT_DEVICE_NGNRNE,
    )
}

/// An AArch32 leaf with only its access flag set.
pub open spec fn aarch32_plain_spec(level: nat, paddr: u64) -> u64 {
    with_bit(aarch32_leaf_spec(level, paddr), aarch32_ap0_bit(level), true)
}

/// An AArch32 leaf for normal memory: `TEX = 0b101, C = 0, B = 1`, shareable.
pub open spec fn aarch32_normal_spec(level: nat, paddr: u64) -> u64 {
    with_bit(
        with_bit(
            with_bit(with_field(aarch32_plain_spec(level, paddr), aarch32_tex_shift(level), 0b111, 0b101), 3, false),
            2,
            true,
        ),
        aarch32_s_bit(level),
        true,
    )
}

/// An AArch32 kernel leaf: access flag and shareable bit set.
pub open spec fn aarch32_kernel_spec(level: nat, paddr: u64) -> u64 {
    with_bit(aarch32_plain_spec(level, paddr), aarch32_s_bit(level), true)
}

/// `raw` with the T-Head attribute bits set when `thead_maee` holds.
pub open spec fn thead_mark(thead_maee: bool, raw: u64) -> u64 {
    if thead_maee {
        raw | THEAD_PMA
    } else {
        raw
    }
}

/// The leaf of the loader map for normal memory (RAM).
pub open spec fn normal_leaf_spec(smp: bool, s: Scheme, level: nat, vaddr: u64) -> u64 {
    match s {
        Scheme::AArch64 => aarch64_normal_spec(smp, level, vaddr),
        _ => aarch32_normal_spec(level, vaddr),
    }
}

/// The leaf of the loader map for device memory.
pub open spec fn device_leaf_spec(s: Scheme, level: nat, vaddr: u64) -> u64 {
    match s {
        Scheme::AArch64 => aarch64_device_spec(level, vaddr),
        _ => aarch32_plain_spec(level, vaddr),
    }
}

/// The identity leaf of the kernel map, below the kernel's image.
pub open spec fn identity_leaf_spec(thead_maee: bool, s: Scheme, level: nat, vaddr: u64) -> u64 {
    match s {
        Scheme::AArch64 => aarch64_device_spec(level, vaddr),
        Scheme::AArch32 => aarch32_plain_spec(level, vaddr),
        _ => thead_mark(thead_maee, riscv_leaf_spec(s, vaddr)),
    }
}

/// The physical address behind kernel virtual address `vaddr`.
pub open spec fn kernel_paddr_spec(phys_to_virt_offset: u64, vaddr: u64) -> u64 {
    vstd::wrapping::u64_specs::wrapping_sub(vaddr, phys_to_virt_offset)
}

/// The leaf of the kernel map over the kernel's image.
pub open spec fn kernel_leaf_spec(
    smp: bool,
    phys_to_virt_offset: u64,
    thead_maee: bool,
    s: Scheme,
    level: nat,
    vaddr: u64,
) -> u64 {
    let paddr = kernel_paddr_spec(phys_to_virt_offset, vaddr);
    match s {
        Scheme::AArch64 => aarch64_normal_spec(smp, level, paddr),
        Scheme::AArch32 => aarch32_kernel_spec(level, paddr),
        _ => thead_mark(thead_maee, riscv_leaf_spec(s, paddr)),
    }
}

/// Identity-maps RAM for the loader: normal memory, accessed.
pub fn mk_normal_leaf_for_loader_map(smp: bool, loc: MkLeafArgs) -> (r: u64)
    requires
        loc.wf(),
        loc.scheme_spec().is_arm(),
    ensures
        r == normal_leaf_spec(smp, loc.scheme_spec(), loc.level_spec(), loc.vaddr_spec()),
        output_address(loc.scheme_spec(), loc.level_spec(), r) == frame_of(
            loc.scheme_spec(),
            loc.level_spec(),
            loc.vaddr_spec(),
        ),
        leaf_type_ok(loc.scheme_spec(), loc.level_spec(), r),
        loc.scheme_spec() is AArch64 ==> aarch64_attrs(r, 4, if smp { 3 } else { 0 }),
        loc.scheme_spec() is AArch32 ==> aarch32_attrs(loc.level_spec(), r, 0b101, false, true, true),
{
    proof {
        lemma_normal_leaf_bits(smp, loc.scheme_spec(), loc.level_spec(), loc.vaddr_spec());
    }
    match loc.scheme() {
        Scheme::AArch64 => AArch64LeafDescriptor::from_paddr(loc.level(), loc.vaddr())
            .set_access_flag(true)
            .set_attribute_index(AARCH64_MT_NORMAL)
            .set_shareability(aarch64_normal_shareability(smp))
            .to_raw(),
        _ => AArch32LeafDescriptor::from_paddr(loc.level(), loc.vaddr())
            .set_access_flag(true)
            .set_attributes(0b101, false, true)
            .set_shareability(true)
            .to_raw(),
    }
}

/// Identity-maps device memory for the loader: accessed, device nGnRnE.
pub fn mk_device_leaf_for_loader_map(loc: MkLeafArgs) -> (r: u64)
    requires
        loc.wf(),
        loc.scheme_spec().is_arm(),
    ensures
        r == device_leaf_spec(loc.scheme_spec(), loc.level_spec(), loc.vaddr_spec()),
        output_address(loc.scheme_spec(), loc.level_spec(), r) == frame_of(
            loc.scheme_spec(),
            loc.level_spec(),
            loc.vaddr_spec(),
        ),
        leaf_type_ok(loc.scheme_spec(), loc.level_spec(), r),
        loc.scheme_spec() is AArch64 ==> aarch64_attrs(r, 0, 0),
        loc.scheme_spec() is AArch32 ==> aarch32_attrs(loc.level_spec(), r, 0, false, false, false),
{
    proof {
        lemma_device_leaf_bits(loc.scheme_spec(), loc.level_spec(), loc.vaddr_spec());
    }
    match loc.scheme() {
        Scheme::AArch64 => AArch64LeafDescriptor::from_paddr(loc.level(), loc.vaddr())
            .set_access_flag(true)
            .set_attribute_index(AARCH64_MT_DEVICE_NGNRNE)
            .to_raw(),
        _ => AArch32LeafDescriptor::from_paddr(loc.level(), loc.vaddr()).set_access_flag(
            true,
        ).to_raw(),
    }
}

/// Identity-maps the space below the kernel image in the kernel map.
pub fn mk_identity_leaf_for_kernel_map(thead_maee: bool, loc: MkLeafArgs) -> (r: u64)
    requires
        loc.wf(),
    ensures
        r == identity_leaf_spec(thead_maee, loc.scheme_spec(), loc.level_spec(), loc.vaddr_spec()),
        output_address(loc.scheme_spec(), loc.level_spec(), r) == frame_of(
            loc.scheme_spec(),
            loc.level_spec(),
            loc.vaddr_spec(),
        ),
        leaf_type_ok(loc.scheme_spec(), loc.level_spec(), r),
        loc.scheme_spec() is AArch64 ==> aarch64_attrs(r, 0, 0),
        loc.scheme_spec() is AArch32 ==> aarch32_attrs(loc.level_spec(), r, 0, false, false, false),
        loc.scheme_spec().is_riscv() ==> r & THEAD_PMA == if thead_maee {
            THEAD_PMA
        } else {
            0
        },
{
    proof {
        lemma_identity_leaf_bits(thead_maee, loc.scheme_spec(), loc.level_spec(), loc.vaddr_spec());
    }
    match loc.scheme() {
        Scheme::AArch64 => AArch64LeafDescriptor::from_paddr(loc.level(), loc.vaddr())
            .set_access_flag(true)
            .set_attribute_index(AARCH64_MT_DEVICE_NGNRNE)
            .to_raw(),
        Scheme::AArch32 => AArch32LeafDescriptor::from_paddr(loc.level(), loc.vaddr())
            .set_access_flag(true)
            .to_raw(),
        Scheme::RiscVSv39 | Scheme::RiscVSv32 => {
            let raw = RiscVLeafDescriptor::from_paddr(loc.scheme(), loc.vaddr()).to_raw();
            if thead_maee {
                raw | THEAD_PMA
            } else {
                raw
            }
        },
    }
}

/// Maps the kernel image: virtual `v` goes to physical `v - phys_to_virt_offset`
/// (modulo 2^64), as normal memory.
pub fn mk_kernel_leaf_for_kernel_map(
    smp: bool,
    phys_to_virt_offset: u64,
    thead_maee: bool,
    loc: MkLeafArgs,
) -> (r: u64)
    requires
        loc.wf(),
    ensures
        r == kernel_leaf_spec(
            smp,
            phys_to_virt_offset,
            thead_maee,
            loc.scheme_spec(),
            loc.level_spec(),
            loc.vaddr_spec(),
        ),
        output_address(loc.scheme_spec(), loc.level_spec(), r) == frame_of(
            loc.scheme_spec(),
            loc.level_spec(),
            minus_mod(loc.vaddr_spec(), phys_to_virt_offset),
        ),
        leaf_type_ok(loc.scheme_spec(), loc.level_spec(), r),
        loc.scheme_spec() is AArch64 ==> aarch64_attrs(r, 4, if smp { 3 } else { 0 }),
        loc.scheme_spec() is AArch32 ==> aarch32_attrs(loc.level_spec(), r, 0, false, false, true),
        loc.scheme_spec().is_riscv() ==> r & THEAD_PMA == if thead_maee {
            THEAD_PMA
        } else {
            0
        },
{
    proof {
        lemma_kernel_leaf_bits(
            smp,
            phys_to_virt_offset,
            thead_maee,
            loc.scheme_spec(),
            loc.level_spec(),
            loc.vaddr_spec(),
        );
    }
    let paddr = loc.vaddr().wrapping_sub(phys_to_virt_offset);
    match loc.scheme() {
        Scheme::AArch64 => AArch64LeafDescriptor::from_paddr(loc.level(), paddr)
            .set_access_flag(true)
            .set_attribute_index(AARCH64_MT_NORMAL)
            .set_shareability(aarch64_normal_shareability(smp))
            .to_raw(),
        Scheme::AArch32 => AArch32LeafDescriptor::from_paddr(loc.level(), paddr)
            .set_access_flag(true)
            .set_shareability(true)
            .to_raw(),
        Scheme::RiscVSv39 | Scheme::RiscVSv32 => {
            let raw = RiscVLeafDescriptor::from_paddr(loc.scheme(), paddr).to_raw();
            if thead_maee {
                // With `sxstatus.MAEE` a C906 reads PTE[63:59] as attributes; the
                // kernel image is normal cacheable memory.
                raw | THEAD_PMA
            } else {
                raw
            }
        },
    }
}

/// RISC-V leaves never carry the T-Head attribute bits on their own.
pub proof fn lemma_riscv_leaf_pma_clear(s: Scheme, paddr: u64)
    requires
        s.is_riscv(),
    ensures
        riscv_leaf_spec(s, paddr) & THEAD_PMA == 0,
{
    assert((((paddr >> 12u64) & 0x3f_ffff) << 10u64 | 0xcf) & 0x7000_0000_0000_0000 == 0)
        by (bit_vector);
    assert((((paddr >> 12u64) & 0x0fff_ffff_ffff) << 10u64 | 0xcf) & 0x7000_0000_0000_0000 == 0)
        by (bit_vector);
}

proof fn lemma_mark_clear(raw: u64)
    requires
        raw & 0x7000_0000_0000_0000 == 0,
    ensures
        (raw | 0x7000_0000_0000_0000) & 0x7000_0000_0000_0000 == 0x7000_0000_0000_0000,
        (raw | 0x7000_0000_0000_0000) & !0x7000_0000_0000_0000u64 == raw,
{
    assert((raw | 0x7000_0000_0000_0000) & 0x7000_0000_0000_0000 == 0x7000_0000_0000_0000)
        by (bit_vector);
    assert((raw | 0x7000_0000_0000_0000) & !0x7000_0000_0000_0000u64 == raw) by (bit_vector)
        requires
            raw & 0x7000_0000_0000_0000 == 0,
    ;
}

/// On RISC-V, `thead_maee` turns a kernel-map leaf into the same leaf with the
/// T-Head attribute bits set, and those bits are clear without it; on Arm it
/// changes nothing.
pub proof fn lemma_thead_marks_kernel_leaves(
    smp: bool,
    phys_to_virt_offset: u64,
    s: Scheme,
    level: nat,
    vaddr: u64,
)
    ensures
        ({
            let plain = kernel_leaf_spec(smp, phys_to_virt_offset, false, s, level, vaddr);
            let marked = kernel_leaf_spec(smp, phys_to_virt_offset, true, s, level, vaddr);
            &&& s.is_riscv() ==> {
                &&& plain & THEAD_PMA == 0
                &&& marked & THEAD_PMA == THEAD_PMA
                &&& marked == plain | THEAD_PMA
                &&& plain == marked & !THEAD_PMA
            }
            &&& s.is_arm() ==> marked == plain
        }),
        ({
            let plain = identity_leaf_spec(false, s, level, vaddr);
            let marked = identity_leaf_spec(true, s, level, vaddr);
            &&& s.is_riscv() ==> {
                &&& plain & THEAD_PMA == 0
                &&& marked & THEAD_PMA == THEAD_PMA
                &&& marked == plain | THEAD_PMA
                &&& plain == marked & !THEAD_PMA
            }
            &&& s.is_arm() ==> marked == plain
        }),
{
    if s.is_riscv() {
        let p = kernel_paddr_spec(phys_to_virt_offset, vaddr);
        lemma_riscv_leaf_pma_clear(s, p);
        lemma_mark_clear(riscv_leaf_spec(s, p));
        lemma_riscv_leaf_pma_clear(s, vaddr);
        lemma_mark_clear(riscv_leaf_spec(s, vaddr));
    }
}

} // verus!
