use kernel_loader_tables::regions::{LeafKind, Region, RegionsBuilder};
use kernel_loader_tables::scheme::Scheme;
use kernel_loader_tables::table::AbstractEntry;

#[test]
fn later_regions_take_precedence() {
    let s = Scheme::RiscVSv32;
    let table = RegionsBuilder::new(&s)
        .insert(Region::valid(0..0x80_0000, LeafKind::KernelIdentity { thead_maee: false }))
        .insert(Region::valid(0x40_1000..0x40_2000, LeafKind::KernelImage { smp: false, phys_to_virt_offset: 0x40_0000, thead_maee: false }))
        .build()
        .construct_table(&s);
    assert_eq!(table.entries.len(), 1024);
    match &table.entries[0] {
        AbstractEntry::Leaf(d) => assert_eq!(*d, 0xcf),
        _ => panic!("first 4 MiB should be one leaf"),
    }
    match &table.entries[2] {
        AbstractEntry::Empty => {}
        _ => panic!("nothing is mapped from 8 MiB"),
    }
    match &table.entries[1] {
        AbstractEntry::Branch(t) => {
            assert_eq!(t.entries.len(), 1024);
            match (&t.entries[0], &t.entries[1], &t.entries[2]) {
                (AbstractEntry::Leaf(a), AbstractEntry::Leaf(b), AbstractEntry::Leaf(c)) => {
                    assert_eq!(*a, (0x400u64 << 10) | 0xcf);
                    assert_eq!(*b, (0x1u64 << 10) | 0xcf);
                    assert_eq!(*c, (0x402u64 << 10) | 0xcf);
                }
                _ => panic!("pages expected"),
            }
        }
        _ => panic!("the second 4 MiB is split"),
    }
}

#[test]
fn a_split_page_follows_its_first_byte() {
    let s = Scheme::RiscVSv32;
    let table = RegionsBuilder::new(&s)
        .insert(Region::valid(0..0x800, LeafKind::KernelIdentity { thead_maee: false }))
        .build()
        .construct_table(&s);
    match &table.entries[0] {
        AbstractEntry::Branch(t) => match (&t.entries[0], &t.entries[1]) {
            (AbstractEntry::Leaf(a), AbstractEntry::Empty) => assert_eq!(*a, 0xcf),
            _ => panic!("the page holding the region's first byte is mapped"),
        },
        _ => panic!("a split entry becomes a branch"),
    }
}
