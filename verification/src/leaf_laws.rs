//! What the leaves of the two maps hold, read back from the descriptor bits:
//! the frame they map, and their memory attributes.
use vstd::prelude::*;
use crate::descriptors::{with_bit, with_field};
use crate::leaves::{
    device_leaf_spec, identity_leaf_spec, kernel_leaf_spec, normal_leaf_spec,
};
use crate::scheme::{Scheme, THEAD_PMA};

verus! {

/// The output address a leaf descriptor `d` at `level` holds, as the MMU reads it.
pub open spec fn output_address(s: Scheme, level: nat, d: u64) -> u64 {
    match s {
        Scheme::AArch64 => d & 0x0000_ffff_ffff_f000,
        Scheme::AArch32 => if level == 0 {
            d & 0xfff0_0000
        } else {
            d & 0xffff_f000
        },
        Scheme::RiscVSv39 => ((d >> 10u64) & 0x0fff_ffff_ffff) << 12u64,
        Scheme::RiscVSv32 => ((d >> 10u64) & 0x3f_ffff) << 12u64,
    }
}

/// The part of physical address `p` that a leaf at `level` can hold.
pub open spec fn frame_of(s: Scheme, level: nat, p: u64) -> u64 {
    match s {
        Scheme::AArch64 => p & 0x0000_ffff_ffff_f000,
        Scheme::AArch32 => if level == 0 {
            p & 0xfff0_0000
        } else {
            p & 0xffff_f000
        },
        Scheme::RiscVSv39 => p & 0x00ff_ffff_ffff_f000,
        Scheme::RiscVSv32 => p & 0x3_ffff_f000,
    }
}

/// `v - offset`, modulo 2^64.
pub open spec fn minus_mod(v: u64, offset: u64) -> u64 {
    ((v as int - offset as int) % 0x1_0000_0000_0000_0000int) as u64
}

/// The descriptor-type bits a leaf at `level` carries.
pub open spec fn leaf_type_ok(s: Scheme, level: nat, d: u64) -> bool {
    match s {
        Scheme::AArch64 => d & 0b11 == if level == 3 {
            0b11u64
        } else {
            0b01u64
        },
        Scheme::AArch32 => if level == 0 {
            d & 0b11 == 0b10
        } else {
            d & 0b10 == 0b10
        },
        _ => d & 0xff == 0xcf,
    }
}

/// Memory attributes of an AArch64 leaf: `AttrIndx`, `SH`, `AF`.
pub open spec fn aarch64_attrs(d: u64, attr_index: u64, sh: u64) -> bool {
    (d >> 2u64) & 0b111 == attr_index && (d >> 8u64) & 0b11 == sh && d & 0x400 == 0x400
}

/// Memory attributes of an AArch32 leaf at `level`: `TEX`, `C`, `B`, `S`,
/// with `AP[0]` set.
pub open spec fn aarch32_attrs(level: nat, d: u64, tex: u64, c: bool, b: bool, s: bool) -> bool {
    if level == 0 {
        &&& (d >> 12u64) & 0b111 == tex
        &&& (d & 0x8 != 0) == c
        &&& (d & 0x4 != 0) == b
        &&& (d & 0x1_0000 != 0) == s
        &&& d & 0x400 == 0x400
    } else {
        &&& (d >> 6u64) & 0b111 == tex
        &&& (d & 0x8 != 0) == c
        &&& (d & 0x4 != 0) == b
        &&& (d & 0x400 != 0) == s
        &&& d & 0x10 == 0x10
    }
}

proof fn lemma_a64_bits(p: u64, tb: u64, idx: u64, sh: u64)
    by (bit_vector)
    requires
        tb == 1 || tb == 3,
        idx < 8,
        sh < 4,
    ensures
        ({
            let r = (((((p & 0x0000_ffff_ffff_f000) | tb) | (1u64 << 10u64)) & !(0b111u64 << 2u64)) | ((
            idx & 0b111) << 2u64));
            &&& r & 0x0000_ffff_ffff_f000 == p & 0x0000_ffff_ffff_f000
            &&& r & 0b11 == tb
            &&& (r >> 2u64) & 0b111 == idx
            &&& (r >> 8u64) & 0b11 == 0
            &&& r & 0x400 == 0x400
            &&& ((r & !(0b11u64 << 8u64)) | ((sh & 0b11) << 8u64)) & 0x0000_ffff_ffff_f000 == p
                & 0x0000_ffff_ffff_f000
            &&& ((r & !(0b11u64 << 8u64)) | ((sh & 0b11) << 8u64)) & 0b11 == tb
            &&& (((r & !(0b11u64 << 8u64)) | ((sh & 0b11) << 8u64)) >> 2u64) & 0b111 == idx
            &&& (((r & !(0b11u64 << 8u64)) | ((sh & 0b11) << 8u64)) >> 8u64) & 0b11 == sh
            &&& ((r & !(0b11u64 << 8u64)) | ((sh & 0b11) << 8u64)) & 0x400 == 0x400
        }),
{
}

proof fn lemma_a32_section_bits(p: u64, tex: u64, c: bool, b: bool)
    by (bit_vector)
    requires
        tex < 8,
    ensures
        ({
            let plain = ((p & 0xfff0_0000) | 0b10) | (1u64 << 10u64);
            let attrs = (plain & !(0b111u64 << 12u64)) | ((tex & 0b111) << 12u64);
            let attrs = if c {
                attrs | (1u64 << 3u64)
            } else {
                attrs & !(1u64 << 3u64)
            };
            let attrs = if b {
                attrs | (1u64 << 2u64)
            } else {
                attrs & !(1u64 << 2u64)
            };
            let shared = attrs | (1u64 << 16u64);
            let plain_shared = plain | (1u64 << 16u64);
            &&& plain & 0xfff0_0000 == p & 0xfff0_0000
            &&& plain & 0b11 == 0b10
            &&& (plain >> 12u64) & 0b111 == 0 && plain & 0x8 == 0 && plain & 0x4 == 0
            &&& plain & 0x1_0000 == 0 && plain & 0x400 == 0x400
            &&& plain_shared & 0xfff0_0000 == p & 0xfff0_0000
            &&& plain_shared & 0b11 == 0b10
            &&& (plain_shared >> 12u64) & 0b111 == 0 && plain_shared & 0x8 == 0 && plain_shared & 0x4
                == 0
            &&& plain_shared & 0x1_0000 != 0 && plain_shared & 0x400 == 0x400
            &&& shared & 0xfff0_0000 == p & 0xfff0_0000
            &&& shared & 0b11 == 0b10
            &&& (shared >> 12u64) & 0b111 == tex
            &&& (shared & 0x8 != 0) == c && (shared & 0x4 != 0) == b
            &&& shared & 0x1_0000 != 0 && shared & 0x400 == 0x400
        }),
{
}

proof fn lemma_a32_page_bits(p: u64, tex: u64, c: bool, b: bool)
    by (bit_vector)
    requires
        tex < 8,
    ensures
        ({
            let plain = ((p & 0xffff_f000) | 0b10) | (1u64 << 4u64);
            let attrs = (plain & !(0b111u64 << 6u64)) | ((tex & 0b111) << 6u64);
            let attrs = if c {
                attrs | (1u64 << 3u64)
            } else {
                attrs & !(1u64 << 3u64)
            };
            let attrs = if b {
                attrs | (1u64 << 2u64)
            } else {
                attrs & !(1u64 << 2u64)
            };
            let shared = attrs | (1u64 << 10u64);
            let plain_shared = plain | (1u64 << 10u64);
            &&& plain & 0xffff_f000 == p & 0xffff_f000
            &&& plain & 0b10 == 0b10
            &&& (plain >> 6u64) & 0b111 == 0 && plain & 0x8 == 0 && plain & 0x4 == 0
            &&& plain & 0x400 == 0 && plain & 0x10 == 0x10
            &&& plain_shared & 0xffff_f000 == p & 0xffff_f000
            &&& plain_shared & 0b10 == 0b10
            &&& (plain_shared >> 6u64) & 0b111 == 0 && plain_shared & 0x8 == 0 && plain_shared & 0x4
                == 0
            &&& plain_shared & 0x400 != 0 && plain_shared & 0x10 == 0x10
            &&& shared & 0xffff_f000 == p & 0xffff_f000
            &&& shared & 0b10 == 0b10
            &&& (shared >> 6u64) & 0b111 == tex
            &&& (shared & 0x8 != 0) == c && (shared & 0x4 != 0) == b
            &&& shared & 0x400 != 0 && shared & 0x10 == 0x10
        }),
{
}

proof fn lemma_riscv_bits(p: u64)
    by (bit_vector)
    ensures
        ({
            let r39 = (((p >> 12u64) & 0x0fff_ffff_ffff) << 10u64) | 0xcf;
            let r32 = (((p >> 12u64) & 0x3f_ffff) << 10u64) | 0xcf;
            &&& ((r39 >> 10u64) & 0x0fff_ffff_ffff) << 12u64 == p & 0x00ff_ffff_ffff_f000
            &&& (((r39 | 0x7000_0000_0000_0000) >> 10u64) & 0x0fff_ffff_ffff) << 12u64 == p
                & 0x00ff_ffff_ffff_f000
            &&& r39 & 0xff == 0xcf && (r39 | 0x7000_0000_0000_0000) & 0xff == 0xcf
            &&& r39 & 0x7000_0000_0000_0000 == 0
            &&& (r39 | 0x7000_0000_0000_0000) & 0x7000_0000_0000_0000 == 0x7000_0000_0000_0000
            &&& ((r32 >> 10u64) & 0x3f_ffff) << 12u64 == p & 0x3_ffff_f000
            &&& (((r32 | 0x7000_0000_0000_0000) >> 10u64) & 0x3f_ffff) << 12u64 == p & 0x3_ffff_f000
            &&& r32 & 0xff == 0xcf && (r32 | 0x7000_0000_0000_0000) & 0xff == 0xcf
            &&& r32 & 0x7000_0000_0000_0000 == 0
            &&& (r32 | 0x7000_0000_0000_0000) & 0x7000_0000_0000_0000 == 0x7000_0000_0000_0000
        }),
{
}


proof fn lemma_minus_mod(v: u64, offset: u64)
    ensures
        crate::leaves::kernel_paddr_spec(offset, v) == minus_mod(v, offset),
{
}

/// A kernel-image leaf made for virtual address `v` maps the frame of
/// physical `v - phys_to_virt_offset` (modulo 2^64) as normal memory: on
/// AArch64 `AttrIndx` 4 with inner shareability exactly when `smp`, on
/// AArch32 shareable with `TEX`, `C`, `B` clear, and on RISC-V with the
/// T-Head attribute bits exactly when `thead_maee`.
pub proof fn lemma_kernel_leaf_bits(
    smp: bool,
    phys_to_virt_offset: u64,
    thead_maee: bool,
    s: Scheme,
    level: nat,
    v: u64,
)
    requires
        s.min_leaf_level_spec() <= level < s.num_levels_spec(),
    ensures
        ({
            let d = kernel_leaf_spec(smp, phys_to_virt_offset, thead_maee, s, level, v);
            &&& output_address(s, level, d) == frame_of(s, level, minus_mod(v, phys_to_virt_offset))
            &&& leaf_type_ok(s, level, d)
            &&& match s {
                Scheme::AArch64 => aarch64_attrs(d, 4, if smp { 3 } else { 0 }),
                Scheme::AArch32 => aarch32_attrs(level, d, 0, false, false, true),
                _ => d & THEAD_PMA == if thead_maee { THEAD_PMA } else { 0 },
            }
        }),
{
    lemma_minus_mod(v, phys_to_virt_offset);
    let p = minus_mod(v, phys_to_virt_offset);
    let tb: u64 = if level == 3 { 3 } else { 1 };
    lemma_a64_bits(p, tb, 4, if smp { 3 } else { 0 });
    lemma_a32_section_bits(p, 0, false, false);
    lemma_a32_page_bits(p, 0, false, false);
    lemma_riscv_bits(p);
}

/// An identity leaf of the kernel map, made for virtual address `v`, maps
/// the frame of `v` itself as device memory: on AArch64 `AttrIndx` 0
/// (nGnRnE) and not shareable, on AArch32 strongly ordered (`TEX`, `C`, `B`,
/// `S` clear), on RISC-V with the T-Head attribute bits exactly when
/// `thead_maee`. On Arm it is the loader map's device leaf.
pub proof fn lemma_identity_leaf_bits(thead_maee: bool, s: Scheme, level: nat, v: u64)
    requires
        s.min_leaf_level_spec() <= level < s.num_levels_spec(),
    ensures
        ({
            let d = identity_leaf_spec(thead_maee, s, level, v);
            &&& output_address(s, level, d) == frame_of(s, level, v)
            &&& leaf_type_ok(s, level, d)
            &&& match s {
                Scheme::AArch64 => aarch64_attrs(d, 0, 0),
                Scheme::AArch32 => aarch32_attrs(level, d, 0, false, false, false),
                _ => d & THEAD_PMA == if thead_maee { THEAD_PMA } else { 0 },
            }
            &&& s.is_arm() ==> d == device_leaf_spec(s, level, v)
        }),
{
    let tb: u64 = if level == 3 { 3 } else { 1 };
    lemma_a64_bits(v, tb, 0, 0);
    lemma_a32_section_bits(v, 0, false, false);
    lemma_a32_page_bits(v, 0, false, false);
    lemma_riscv_bits(v);
}

/// A device leaf of the loader map maps the frame of `v` itself: on AArch64
/// `AttrIndx` 0 (nGnRnE), not shareable; on AArch32 strongly ordered.
pub proof fn lemma_device_leaf_bits(s: Scheme, level: nat, v: u64)
    requires
        s.is_arm(),
        s.min_leaf_level_spec() <= level < s.num_levels_spec(),
    ensures
        ({
            let d = device_leaf_spec(s, level, v);
            &&& output_address(s, level, d) == frame_of(s, level, v)
            &&& leaf_type_ok(s, level, d)
            &&& match s {
                Scheme::AArch64 => aarch64_attrs(d, 0, 0),
                _ => aarch32_attrs(level, d, 0, false, false, false),
            }
        }),
{
    let tb: u64 = if level == 3 { 3 } else { 1 };
    lemma_a64_bits(v, tb, 0, 0);
    lemma_a32_section_bits(v, 0, false, false);
    lemma_a32_page_bits(v, 0, false, false);
}

/// A RAM leaf of the loader map maps the frame of `v` itself as normal
/// memory: on AArch64 `AttrIndx` 4, inner shareable exactly when `smp`; on
/// AArch32 `TEX = 0b101`, `C = 0`, `B = 1`, shareable.
pub proof fn lemma_normal_leaf_bits(smp: bool, s: Scheme, level: nat, v: u64)
    requires
        s.is_arm(),
        s.min_leaf_level_spec() <= level < s.num_levels_spec(),
    ensures
        ({
            let d = normal_leaf_spec(smp, s, level, v);
            &&& output_address(s, level, d) == frame_of(s, level, v)
            &&& leaf_type_ok(s, level, d)
            &&& match s {
                Scheme::AArch64 => aarch64_attrs(d, 4, if smp { 3 } else { 0 }),
                _ => aarch32_attrs(level, d, 0b101, false, true, true),
            }
        }),
{
    let tb: u64 = if level == 3 { 3 } else { 1 };
    lemma_a64_bits(v, tb, 4, if smp { 3 } else { 0 });
    lemma_a32_section_bits(v, 0b101, false, true);
    lemma_a32_page_bits(v, 0b101, false, true);
}

} // verus!
