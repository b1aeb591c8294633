use kernel_loader_tables::descriptors::MkLeafArgs;
use kernel_loader_tables::leaves::{
    aarch64_normal_shareability, mk_device_leaf_for_loader_map, mk_identity_leaf_for_kernel_map,
    mk_kernel_leaf_for_kernel_map, mk_normal_leaf_for_loader_map,
};
use kernel_loader_tables::maps::{mk_kernel_map, mk_loader_map, try_mk_kernel_map, try_mk_loader_map};
use kernel_loader_tables::scheme::Scheme;

const THEAD_PMA: u64 = 0b0_1110_u64 << 59;

fn word(bytes: &[u8], start: u64, vaddr: u64, index: u64) -> u64 {
    let off = usize::try_from(vaddr - start + index * 8).unwrap();
    u64::from_le_bytes(bytes[off..off + 8].try_into().unwrap())
}

#[test]
fn thead_maee_marks_riscv_kernel_leaves() {
    let scheme = Scheme::RiscVSv39;
    let plain = MkLeafArgs::new_for_test(&scheme, 1, 0x8020_0000);
    let marked = MkLeafArgs::new_for_test(&scheme, 1, 0x8020_0000);
    let plain = mk_kernel_leaf_for_kernel_map(false, 0, false, plain);
    let marked = mk_kernel_leaf_for_kernel_map(false, 0, true, marked);

    assert_eq!(plain & THEAD_PMA, 0);
    assert_eq!(marked & THEAD_PMA, THEAD_PMA);
    assert_eq!(plain, marked & !THEAD_PMA);
}

#[test]
fn thead_maee_marks_riscv_identity_leaves() {
    for scheme in [Scheme::RiscVSv39, Scheme::RiscVSv32] {
        let plain = mk_identity_leaf_for_kernel_map(false, MkLeafArgs::new_for_test(&scheme, 0, 0));
        let marked = mk_identity_leaf_for_kernel_map(true, MkLeafArgs::new_for_test(&scheme, 0, 0));
        assert_eq!(plain, 0xcf);
        assert_eq!(marked, 0xcf | THEAD_PMA);
    }
}

#[test]
fn thead_maee_leaves_arm_leaves_alone() {
    for scheme in [Scheme::AArch64, Scheme::AArch32] {
        let level = if scheme == Scheme::AArch64 { 1 } else { 0 };
        let a = mk_kernel_leaf_for_kernel_map(true, 0x1000_0000, false, MkLeafArgs::new_for_test(&scheme, level, 0x5000_0000));
        let b = mk_kernel_leaf_for_kernel_map(true, 0x1000_0000, true, MkLeafArgs::new_for_test(&scheme, level, 0x5000_0000));
        assert_eq!(a, b);
        let a = mk_identity_leaf_for_kernel_map(false, MkLeafArgs::new_for_test(&scheme, level, 0));
        let b = mk_identity_leaf_for_kernel_map(true, MkLeafArgs::new_for_test(&scheme, level, 0));
        assert_eq!(a, b);
    }
}

#[test]
fn normal_shareability_follows_smp() {
    assert_eq!(aarch64_normal_shareability(true), 0b11);
    assert_eq!(aarch64_normal_shareability(false), 0b00);
}

#[test]
fn aarch64_loader_leaves() {
    let s = Scheme::AArch64;
    // Block at level 1: output address, block type, AF, AttrIndx 4, SH 0b11.
    assert_eq!(mk_normal_leaf_for_loader_map(true, MkLeafArgs::new_for_test(&s, 1, 0x4000_0000)), 0x4000_0711);
    assert_eq!(mk_normal_leaf_for_loader_map(false, MkLeafArgs::new_for_test(&s, 1, 0x4000_0000)), 0x4000_0411);
    // Page at level 3.
    assert_eq!(mk_normal_leaf_for_loader_map(false, MkLeafArgs::new_for_test(&s, 3, 0x1234_5000)), 0x1234_5413);
    // Device: AttrIndx 0.
    assert_eq!(mk_device_leaf_for_loader_map(MkLeafArgs::new_for_test(&s, 2, 0x20_0000)), 0x20_0401);
}

#[test]
fn aarch32_loader_leaves() {
    let s = Scheme::AArch32;
    // Section: TEX 0b101 at 12, B, AP[0] at 10, S at 16.
    assert_eq!(mk_normal_leaf_for_loader_map(true, MkLeafArgs::new_for_test(&s, 0, 0x8010_0000)), 0x8011_5406);
    // Small page: TEX at 6, AP[0] at 4, S at 10.
    assert_eq!(mk_normal_leaf_for_loader_map(true, MkLeafArgs::new_for_test(&s, 1, 0x8010_1000)), 0x8010_1556);
    assert_eq!(mk_device_leaf_for_loader_map(MkLeafArgs::new_for_test(&s, 0, 0x0010_0000)), 0x0010_0402);
    assert_eq!(mk_device_leaf_for_loader_map(MkLeafArgs::new_for_test(&s, 1, 0x0000_1000)), 0x0000_1012);
}

#[test]
fn kernel_leaf_subtracts_offset() {
    let s = Scheme::RiscVSv39;
    let leaf = mk_kernel_leaf_for_kernel_map(false, 0x1000_0000, false, MkLeafArgs::new_for_test(&s, 2, 0x9000_0000));
    assert_eq!(leaf, 0x2000_00cf);
    // The subtraction wraps; the physical page number keeps its 44 bits.
    let leaf = mk_kernel_leaf_for_kernel_map(false, 0x2000, false, MkLeafArgs::new_for_test(&s, 2, 0x1000));
    assert_eq!(leaf, 0x003f_ffff_ffff_fccf);
    let s = Scheme::AArch64;
    let leaf = mk_kernel_leaf_for_kernel_map(true, 0x1000_0000, false, MkLeafArgs::new_for_test(&s, 2, 0x5020_0000));
    assert_eq!(leaf, 0x4020_0711);
}

#[test]
fn riscv_kernel_map_layout() {
    let s = Scheme::RiscVSv39;
    let start = 0x8000_0000;
    let (bytes, root) = mk_kernel_map(&s, false, start, 0x8020_0000..0x8030_0000, 0, false);
    // The one next-level table comes first, the root after it.
    assert_eq!(bytes.len(), 8192);
    assert_eq!(root, 0x8000_1000);
    assert_eq!(word(&bytes, start, root, 0), 0xcf);
    assert_eq!(word(&bytes, start, root, 1), 0x1000_00cf);
    assert_eq!(word(&bytes, start, root, 2), 0x2000_0001);
    assert_eq!(word(&bytes, start, root, 3), 0);
    assert_eq!(word(&bytes, start, root, 511), 0);
    assert_eq!(word(&bytes, start, start, 0), 0x2000_00cf);
    assert_eq!(word(&bytes, start, start, 1), 0x2008_00cf);
    assert_eq!(word(&bytes, start, start, 511), 0x2ff8_00cf);
}

#[test]
fn riscv_kernel_map_thead_marks_branches_and_leaves() {
    let s = Scheme::RiscVSv39;
    let start = 0x8000_0000;
    let (plain, plain_root) = mk_kernel_map(&s, false, start, 0x8020_0000..0x8030_0000, 0, false);
    let (marked, marked_root) = mk_kernel_map(&s, false, start, 0x8020_0000..0x8030_0000, 0, true);
    assert_eq!(plain.len(), marked.len());
    assert_eq!(plain_root, marked_root);
    for (vaddr, index, present) in [(plain_root, 0, true), (plain_root, 2, true), (plain_root, 3, false), (start, 7, true)] {
        let p = word(&plain, start, vaddr, index);
        let m = word(&marked, start, vaddr, index);
        assert_eq!(p & THEAD_PMA, 0);
        if present {
            assert_eq!(m, p | THEAD_PMA);
        } else {
            assert_eq!(m, p);
        }
    }
}

#[test]
fn aarch64_loader_map_layout() {
    let s = Scheme::AArch64;
    let start = 0x4000_0000;
    let (bytes, root) = mk_loader_map(&s, true, start, &[0x4000_0000..0x8000_0000]);
    assert_eq!(bytes.len(), 8192);
    assert_eq!(root, start + 0x1000);
    // The first 512 GiB go through a level-1 table; the rest is unmapped.
    assert_eq!(word(&bytes, start, root, 0), start | 0b11);
    assert_eq!(word(&bytes, start, root, 1), 0);
    assert_eq!(word(&bytes, start, start, 0), 0x0000_0401);
    assert_eq!(word(&bytes, start, start, 1), 0x4000_0711);
    assert_eq!(word(&bytes, start, start, 2), 0x8000_0401);
}

#[test]
fn aarch32_loader_map_layout() {
    let s = Scheme::AArch32;
    let start = 0x1_0000;
    // RAM that starts and ends inside sections needs small pages.
    let (bytes, root) = mk_loader_map(&s, false, start, &[0x8000_0000..0x8010_1000]);
    // One small-page table (1 KiB) at `start`, the root at the next 16 KiB boundary.
    assert_eq!(root, 0x1_4000);
    assert_eq!(bytes.len(), 0x4000 + 0x4000);
    let read = |vaddr: u64, i: u64| {
        let off = usize::try_from(vaddr - start + i * 4).unwrap();
        u32::from_le_bytes(bytes[off..off + 4].try_into().unwrap())
    };
    assert_eq!(read(root, 0), 0x0000_0402);
    assert_eq!(read(root, 0x800), 0x8001_5406);
    assert_eq!(read(root, 0x801), (start as u32) | 0b01);
    assert_eq!(read(start, 0), 0x8010_0556);
    assert_eq!(read(start, 1), 0x8010_1012);
}

#[test]
fn maps_must_fit_below_the_top_of_the_address_space() {
    let s = Scheme::RiscVSv39;
    // The 8 KiB image ends exactly at the top page.
    let (bytes, root) = mk_kernel_map(&s, false, 0xffff_ffff_ffff_d000, 0x8020_0000..0x8030_0000, 0, false);
    assert_eq!(bytes.len(), 8192);
    assert_eq!(root, 0xffff_ffff_ffff_e000);
    let tried = try_mk_kernel_map(&s, false, 0xffff_ffff_ffff_d000, 0x8020_0000..0x8030_0000, 0, false);
    assert_eq!(tried, Some((bytes, root)));
    assert_eq!(try_mk_kernel_map(&s, false, 0xffff_ffff_ffff_f000, 0x8020_0000..0x8030_0000, 0, false), None);
    assert_eq!(try_mk_kernel_map(&s, false, 0xffff_ffff_ffff_e001, 0x8020_0000..0x8030_0000, 0, false), None);
    let a = Scheme::AArch64;
    assert!(try_mk_loader_map(&a, true, 0xffff_ffff_ffff_d000, &[0x4000_0000..0x8000_0000]).is_some());
    assert_eq!(try_mk_loader_map(&a, true, 0xffff_ffff_ffff_e000, &[0x4000_0000..0x8000_0000]), None);
}

#[test]
fn arm_kernel_maps_ignore_thead() {
    for s in [Scheme::AArch64, Scheme::AArch32] {
        let a = mk_kernel_map(&s, true, 0x4000_0000, 0x8000_0000..0x8060_0000, 0x4000_0000, false);
        let b = mk_kernel_map(&s, true, 0x4000_0000, 0x8000_0000..0x8060_0000, 0x4000_0000, true);
        assert_eq!(a, b);
    }
}

#[test]
fn aarch32_loader_map_ignores_smp() {
    let s = Scheme::AArch32;
    let a = mk_loader_map(&s, true, 0x1_0000, &[0x8000_0000..0x8010_1000]);
    let b = mk_loader_map(&s, false, 0x1_0000, &[0x8000_0000..0x8010_1000]);
    assert_eq!(a, b);
    let c = mk_loader_map(&Scheme::AArch64, true, 0x1_0000, &[0x8000_0000..0x8010_1000]);
    let d = mk_loader_map(&Scheme::AArch64, false, 0x1_0000, &[0x8000_0000..0x8010_1000]);
    assert_ne!(c, d);
}
