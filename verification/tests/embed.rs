use kernel_loader_tables::embed::Embedding;
use kernel_loader_tables::scheme::Scheme;
use kernel_loader_tables::table::{AbstractEntry, Table};

const THEAD_PMA: u64 = 0b0_1110_u64 << 59;

#[test]
fn thead_maee_marks_riscv_branch_descriptors() {
    let table = Table {
        entries: vec![AbstractEntry::Branch(Box::new(Table {
            entries: vec![AbstractEntry::Empty],
        }))],
    };
    let scheme = Scheme::RiscVSv39;
    let (plain, plain_root) = table.embed(&scheme, 0x8000_0000, false);
    let (marked, marked_root) = table.embed(&scheme, 0x8000_0000, true);
    let plain_offset = usize::try_from(plain_root - 0x8000_0000).unwrap();
    let marked_offset = usize::try_from(marked_root - 0x8000_0000).unwrap();
    let plain_branch =
        u64::from_le_bytes(plain[plain_offset..plain_offset + 8].try_into().unwrap());
    let marked_branch =
        u64::from_le_bytes(marked[marked_offset..marked_offset + 8].try_into().unwrap());

    assert_eq!(plain_branch & THEAD_PMA, 0);
    assert_eq!(marked_branch & THEAD_PMA, THEAD_PMA);
    assert_eq!(plain_branch, marked_branch & !THEAD_PMA);
}

#[test]
fn children_come_first_and_tables_are_aligned() {
    let table = Table {
        entries: vec![
            AbstractEntry::Leaf(0x1234),
            AbstractEntry::Branch(Box::new(Table { entries: vec![AbstractEntry::Leaf(7)] })),
        ],
    };
    let (bytes, root) = table.embed(&Scheme::AArch64, 0x10, false);
    // Child at 0x1000 (the first 4 KiB boundary), root at 0x2000.
    assert_eq!(root, 0x2000);
    assert_eq!(bytes.len(), 0x2000 - 0x10 + 16);
    assert!(bytes[..0x1000 - 0x10].iter().all(|b| *b == 0));
    assert_eq!(&bytes[0x1000 - 0x10..0x1000 - 0x10 + 8], &7u64.to_le_bytes());
    assert_eq!(&bytes[0x2000 - 0x10..0x2000 - 0x10 + 8], &0x1234u64.to_le_bytes());
    assert_eq!(&bytes[0x2000 - 0x10 + 8..], &(0x1000u64 | 0b11).to_le_bytes());
}

#[test]
fn thirty_two_bit_descriptors_are_four_bytes() {
    let table = Table { entries: vec![AbstractEntry::Leaf(0x1_2345_6789), AbstractEntry::Empty] };
    let (bytes, root) = table.embed(&Scheme::RiscVSv32, 0x1000, true);
    assert_eq!(root, 0x1000);
    assert_eq!(bytes, vec![0x89, 0x67, 0x45, 0x23, 0, 0, 0, 0]);
}

#[test]
fn embedding_step_by_step() {
    let table = Table { entries: vec![AbstractEntry::Empty, AbstractEntry::Empty, AbstractEntry::Empty, AbstractEntry::Empty] };
    let mut e = Embedding::new(&Scheme::AArch32, 0x3ff, false);
    assert_eq!(e.cur_vaddr(), 0x3ff);
    e.align(0x400);
    assert_eq!(e.cur_vaddr(), 0x400);
    let at = e.embed_inner(&table, 1);
    assert_eq!(at, 0x400);
    assert_eq!(e.cur_vaddr(), 0x410);
    let (bytes, root) = e.embed(&table);
    assert_eq!(root, 0x4000);
    assert_eq!(bytes.len(), 0x4000 - 0x3ff + 16);
}

fn nested() -> Table {
    Table {
        entries: vec![
            AbstractEntry::Leaf(0xcf),
            AbstractEntry::Branch(Box::new(Table {
                entries: vec![
                    AbstractEntry::Empty,
                    AbstractEntry::Branch(Box::new(Table { entries: vec![AbstractEntry::Leaf(0x10cf)] })),
                ],
            })),
            AbstractEntry::Empty,
        ],
    }
}

#[test]
fn thead_marks_only_the_top_byte_of_sv39_branch_words() {
    let t = nested();
    let (plain, pr) = t.embed(&Scheme::RiscVSv39, 0x8000_0000, false);
    let (marked, mr) = t.embed(&Scheme::RiscVSv39, 0x8000_0000, true);
    assert_eq!(pr, mr);
    assert_eq!(plain.len(), marked.len());
    let differing: Vec<usize> = (0..plain.len()).filter(|&k| plain[k] != marked[k]).collect();
    // Two branch descriptors: one in the middle table, one in the root.
    assert_eq!(differing.len(), 2);
    for k in differing {
        assert_eq!(k % 8, 7);
        assert_eq!(plain[k], 0);
        assert_eq!(marked[k], 0x70);
    }
}

#[test]
fn thead_changes_nothing_off_sv39() {
    for s in [Scheme::AArch64, Scheme::AArch32, Scheme::RiscVSv32] {
        let t = nested();
        assert_eq!(t.embed(&s, 0x4_0000, false), t.embed(&s, 0x4_0000, true));
    }
}

#[test]
fn moving_the_start_moves_only_branch_targets() {
    let t = nested();
    let s = Scheme::AArch64;
    let (b1, r1) = t.embed(&s, 0x4_0000, false);
    let (b2, r2) = t.embed(&s, 0x4_4000, false);
    assert_eq!(r2, r1 + 0x4000);
    assert_eq!(b1.len(), b2.len());
    let differing: Vec<usize> = (0..b1.len()).filter(|&k| b1[k] != b2[k]).collect();
    assert!(!differing.is_empty());
    let word = |b: &[u8], k: usize| u64::from_le_bytes(b[k / 8 * 8..k / 8 * 8 + 8].try_into().unwrap());
    for k in differing {
        assert_eq!(word(&b2, k), word(&b1, k) + 0x4000);
        assert_eq!(word(&b1, k) & 0b11, 0b11);
    }
}
