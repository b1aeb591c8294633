//! The two maps a loader image carries: the loader's own identity map, and
//! the map the kernel starts with.
use vstd::prelude::*;
use std::ops::Range;
use crate::embed::{
    align_up, lemma_same_tree_place, lemma_same_tree_serialized, lemma_serialized_unique,
    lemma_thead_irrelevant_off_sv39, next_multiple_of, place_table, serialized,
};
use crate::leaves::{device_leaf_spec, identity_leaf_spec, kernel_leaf_spec, normal_leaf_spec};
use crate::regions::{
    built, content_at, kinds_ok, leaf_spec, lemma_built_relabeled, lemma_built_unique,
    lemma_table_translates_regions, lemma_well_formed_fits, page_aligned, relabeled, same_leaves,
    LeafKind, Region, RegionsBuilder,
};
use crate::leaf_laws::{
    aarch32_attrs, aarch64_attrs, frame_of, leaf_type_ok, lemma_device_leaf_bits,
    lemma_identity_leaf_bits, lemma_kernel_leaf_bits, lemma_normal_leaf_bits, minus_mod,
    output_address,
};
use crate::scheme::{Scheme, THEAD_PMA};
use crate::table::{Table, walk, well_formed};

verus! {

/// The end of the device window of the loader map.
pub open spec fn device_range_end_spec(s: Scheme) -> u64 {
    match s {
        Scheme::AArch64 => 0x80_0000_0000,
        _ => s.virt_end_spec() as u64,
    }
}

/// The regions of the loader map: device memory below the device window's
/// end, overridden by each RAM range as normal memory.
pub open spec fn loader_map_regions(s: Scheme, smp: bool, memory: Seq<Range<u64>>) -> Seq<Region> {
    Seq::new(
        memory.len() + 1,
        |i: int|
            if i == 0 {
                Region {
                    range: Range { start: 0u64, end: device_range_end_spec(s) },
                    kind: LeafKind::LoaderDevice,
                }
            } else {
                Region { range: memory[i - 1], kind: LeafKind::LoaderNormal { smp } }
            },
    )
}

/// The regions of the kernel map: the identity below the kernel image, the
/// kernel image from `virt_start` up to `virt_map_end`.
pub open spec fn kernel_map_regions(
    smp: bool,
    virt_start: u64,
    virt_map_end: u64,
    phys_to_virt_offset: u64,
    thead_maee: bool,
) -> Seq<Region> {
    seq![
        Region { range: Range { start: 0u64, end: virt_start }, kind: LeafKind::KernelIdentity { thead_maee } },
        Region {
            range: Range { start: virt_start, end: virt_map_end },
            kind: LeafKind::KernelImage { smp, phys_to_virt_offset, thead_maee },
        },
    ]
}

/// `(bytes, root)` is the serialisation at `vaddr` of the table built from
/// `layers`.
pub open spec fn embeds_map(
    s: Scheme,
    layers: Seq<Region>,
    vaddr: u64,
    thead_maee: bool,
    r: (Vec<u8>, u64),
) -> bool {
    exists|t: Table|
        {
            &&& #[trigger] built(layers, s, 0, 0, t)
            &&& r.0@.len() == place_table(s, vaddr as int, 0, t, 0).1
            &&& r.1 == place_table(s, vaddr as int, 0, t, 0).0.vaddr
            &&& serialized(s, thead_maee, r.0@, vaddr as int, 0, t, 0)
        }
}

/// The serialisation at `vaddr` of the table built from `layers` fits in
/// the address space.
pub open spec fn map_fits(s: Scheme, layers: Seq<Region>, vaddr: u64) -> bool {
    forall|t: Table|
        #[trigger] built(layers, s, 0, 0, t) ==> vaddr + place_table(s, vaddr as int, 0, t, 0).1
            <= u64::MAX
}

/// The regions of the loader map.
fn loader_regions(scheme: &Scheme, smp: bool, memory: &[Range<u64>]) -> (r: RegionsBuilder)
    requires
        scheme.is_arm(),
    ensures
        r.scheme_spec() == *scheme,
        r.layers_spec() == loader_map_regions(*scheme, smp, memory@),
        kinds_ok(*scheme, r.layers_spec()),
{
    let device_range_end: u64 = match scheme {
        Scheme::AArch64 => 1u64 << 39u64,
        _ => scheme.virt_end(),
    };
    assert(device_range_end == device_range_end_spec(*scheme)) by {
        assert(1u64 << 39u64 == 0x80_0000_0000) by (bit_vector);
    }
    let ghost target = loader_map_regions(*scheme, smp, memory@);
    let mut regions = RegionsBuilder::new(scheme);
    regions = regions.insert(Region::valid(0..device_range_end, LeafKind::LoaderDevice));
    let mut i: usize = 0;
    while i < memory.len()
        invariant
            regions.scheme_spec() == *scheme,
            i <= memory@.len(),
            regions.layers_spec() == target.take(i + 1),
            target == loader_map_regions(*scheme, smp, memory@),
        decreases memory@.len() - i,
    {
        let range = memory[i].start..memory[i].end;
        let ghost prev = regions.layers_spec();
        let region = Region::valid(range, LeafKind::LoaderNormal { smp });
        regions = regions.insert(region);
        proof {
            assert(range == memory@[i as int]);
            assert(target[i + 1] == region);
            assert(regions.layers_spec() == prev.push(region));
            assert(regions.layers_spec() =~= target.take(i + 2));
        }
        i = i + 1;
    }
    proof {
        assert(target.take(i + 1) =~= target);
        assert(kinds_ok(*scheme, target));
    }
    regions
}

/// The loader's identity map, serialised at `vaddr`: device memory up to
/// the device window's end, and RAM (the ranges of `memory`) as normal memory.
pub fn mk_loader_map(scheme: &Scheme, smp: bool, vaddr: u64, memory: &[Range<u64>]) -> (r: (
    Vec<u8>,
    u64,
))
    requires
        scheme.is_arm(),
        map_fits(*scheme, loader_map_regions(*scheme, smp, memory@), vaddr),
    ensures
        embeds_map(*scheme, loader_map_regions(*scheme, smp, memory@), vaddr, false, r),
{
    let regions = loader_regions(scheme, smp, memory);
    let ghost layers = regions.layers_spec();
    let table = regions.build().construct_table(scheme);
    embed_table(scheme, Ghost(layers), table, vaddr, false)
}

/// `mk_loader_map` when its serialisation fits in the address space; `None`
/// when it does not.
pub fn try_mk_loader_map(scheme: &Scheme, smp: bool, vaddr: u64, memory: &[Range<u64>]) -> (r:
    Option<(Vec<u8>, u64)>)
    requires
        scheme.is_arm(),
    ensures
        match r {
            Some(m) => embeds_map(*scheme, loader_map_regions(*scheme, smp, memory@), vaddr, false, m)
                && map_fits(*scheme, loader_map_regions(*scheme, smp, memory@), vaddr),
            None => !map_fits(*scheme, loader_map_regions(*scheme, smp, memory@), vaddr),
        },
{
    let regions = loader_regions(scheme, smp, memory);
    let ghost layers = regions.layers_spec();
    let table = regions.build().construct_table(scheme);
    try_embed_table(scheme, Ghost(layers), table, vaddr, false)
}

/// The regions of the kernel map.
fn kernel_regions(
    scheme: &Scheme,
    smp: bool,
    kernel_virt_addr_range: Range<u64>,
    kernel_phys_to_virt_offset: u64,
    thead_maee: bool,
) -> (r: RegionsBuilder)
    requires
        align_up(kernel_virt_addr_range.end as int, scheme.largest_leaf_size_spec() as int)
            <= u64::MAX,
    ensures
        r.scheme_spec() == *scheme,
        r.layers_spec() == kernel_map_regions(
            smp,
            kernel_virt_addr_range.start,
            align_up(kernel_virt_addr_range.end as int, scheme.largest_leaf_size_spec() as int) as u64,
            kernel_phys_to_virt_offset,
            thead_maee,
        ),
        kinds_ok(*scheme, r.layers_spec()),
{
    let virt_start = kernel_virt_addr_range.start;
    let virt_end = kernel_virt_addr_range.end;
    let virt_map_end = next_multiple_of(virt_end, scheme.largest_leaf_size());
    let regions = RegionsBuilder::new(scheme).insert(
        Region::valid(0..virt_start, LeafKind::KernelIdentity { thead_maee }),
    ).insert(
        Region::valid(
            virt_start..virt_map_end,
            LeafKind::KernelImage { smp, phys_to_virt_offset: kernel_phys_to_virt_offset, thead_maee },
        ),
    );
    proof {
        let target = kernel_map_regions(
            smp,
            virt_start,
            virt_map_end,
            kernel_phys_to_virt_offset,
            thead_maee,
        );
        assert(regions.layers_spec() =~= target);
    }
    regions
}

/// The map the kernel starts with, serialised at `vaddr`: everything below
/// the kernel image identity-mapped, and the kernel image, rounded up to the
/// largest leaf size, mapped at `phys_to_virt_offset` below its virtual
/// addresses.
pub fn mk_kernel_map(
    scheme: &Scheme,
    smp: bool,
    vaddr: u64,
    kernel_virt_addr_range: Range<u64>,
    kernel_phys_to_virt_offset: u64,
    thead_maee: bool,
) -> (r: (Vec<u8>, u64))
    requires
        align_up(kernel_virt_addr_range.end as int, scheme.largest_leaf_size_spec() as int)
            <= u64::MAX,
        map_fits(
            *scheme,
            kernel_map_regions(
                smp,
                kernel_virt_addr_range.start,
                align_up(
                    kernel_virt_addr_range.end as int,
                    scheme.largest_leaf_size_spec() as int,
                ) as u64,
                kernel_phys_to_virt_offset,
                thead_maee,
            ),
            vaddr,
        ),
    ensures
        embeds_map(
            *scheme,
            kernel_map_regions(
                smp,
                kernel_virt_addr_range.start,
                align_up(
                    kernel_virt_addr_range.end as int,
                    scheme.largest_leaf_size_spec() as int,
                ) as u64,
                kernel_phys_to_virt_offset,
                thead_maee,
            ),
            vaddr,
            thead_maee,
            r,
        ),
{
    let regions = kernel_regions(
        scheme,
        smp,
        kernel_virt_addr_range,
        kernel_phys_to_virt_offset,
        thead_maee,
    );
    let ghost layers = regions.layers_spec();
    let table = regions.build().construct_table(scheme);
    embed_table(scheme, Ghost(layers), table, vaddr, thead_maee)
}

/// `mk_kernel_map` when its serialisation fits in the address space; `None`
/// when it does not.
pub fn try_mk_kernel_map(
    scheme: &Scheme,
    smp: bool,
    vaddr: u64,
    kernel_virt_addr_range: Range<u64>,
    kernel_phys_to_virt_offset: u64,
    thead_maee: bool,
) -> (r: Option<(Vec<u8>, u64)>)
    requires
        align_up(kernel_virt_addr_range.end as int, scheme.largest_leaf_size_spec() as int)
            <= u64::MAX,
    ensures
        ({
            let layers = kernel_map_regions(
                smp,
                kernel_virt_addr_range.start,
                align_up(
                    kernel_virt_addr_range.end as int,
                    scheme.largest_leaf_size_spec() as int,
                ) as u64,
                kernel_phys_to_virt_offset,
                thead_maee,
            );
            match r {
                Some(m) => embeds_map(*scheme, layers, vaddr, thead_maee, m) && map_fits(
                    *scheme,
                    layers,
                    vaddr,
                ),
                None => !map_fits(*scheme, layers, vaddr),
            }
        }),
{
    let regions = kernel_regions(
        scheme,
        smp,
        kernel_virt_addr_range,
        kernel_phys_to_virt_offset,
        thead_maee,
    );
    let ghost layers = regions.layers_spec();
    let table = regions.build().construct_table(scheme);
    try_embed_table(scheme, Ghost(layers), table, vaddr, thead_maee)
}

/// Serialises `table`, built from `layers`, at `vaddr`.
fn embed_table(
    scheme: &Scheme,
    Ghost(layers): Ghost<Seq<Region>>,
    table: Table,
    vaddr: u64,
    thead_maee: bool,
) -> (r: (Vec<u8>, u64))
    requires
        built(layers, *scheme, 0, 0, table),
        well_formed(*scheme, table, 0),
        map_fits(*scheme, layers, vaddr),
    ensures
        embeds_map(*scheme, layers, vaddr, thead_maee, r),
{
    proof {
        lemma_well_formed_fits(*scheme, table, 0);
    }
    table.embed(scheme, vaddr, thead_maee)
}

/// Serialises `table`, built from `layers`, at `vaddr` if it fits.
fn try_embed_table(
    scheme: &Scheme,
    Ghost(layers): Ghost<Seq<Region>>,
    table: Table,
    vaddr: u64,
    thead_maee: bool,
) -> (r: Option<(Vec<u8>, u64)>)
    requires
        built(layers, *scheme, 0, 0, table),
        well_formed(*scheme, table, 0),
    ensures
        match r {
            Some(m) => embeds_map(*scheme, layers, vaddr, thead_maee, m) && map_fits(
                *scheme,
                layers,
                vaddr,
            ),
            None => !map_fits(*scheme, layers, vaddr),
        },
{
    proof {
        lemma_well_formed_fits(*scheme, table, 0);
    }
    match table.embedded_end(scheme, vaddr, 0, 0) {
        Some(_) => {
            proof {
                assert forall|t: Table| #[trigger] built(layers, *scheme, 0, 0, t) implies vaddr
                    + place_table(*scheme, vaddr as int, 0, t, 0).1 <= u64::MAX by {
                    lemma_built_unique(layers, *scheme, 0, 0, table, t);
                    lemma_same_tree_place(*scheme, vaddr as int, 0, table, t, 0);
                }
            }
            Some(table.embed(scheme, vaddr, thead_maee))
        },
        None => None,
    }
}

/// The kernel map translates every virtual address below `virt_start`
/// through an identity leaf, every address of the kernel image
/// (`virt_start..virt_map_end`) through a kernel leaf, and nothing else;
/// each leaf sits at the start of an aligned entry of its level.
pub proof fn lemma_kernel_map_translates(
    s: Scheme,
    smp: bool,
    virt_start: u64,
    virt_map_end: u64,
    phys_to_virt_offset: u64,
    thead_maee: bool,
    t: Table,
    va: int,
)
    requires
        built(
            kernel_map_regions(smp, virt_start, virt_map_end, phys_to_virt_offset, thead_maee),
            s,
            0,
            0,
            t,
        ),
        virt_start % 0x1000 == 0,
        virt_map_end % 0x1000 == 0,
        0 <= va < s.virt_end_spec(),
    ensures
        match walk(s, t, 0, 0, va) {
            None => va >= virt_start && !(virt_start <= va < virt_map_end),
            Some((d, l, b)) => {
                &&& b <= va < b + s.entry_size_spec(l)
                &&& b % (s.entry_size_spec(l) as int) == 0
                &&& s.min_leaf_level_spec() <= l < s.num_levels_spec()
                &&& if virt_start <= va < virt_map_end {
                    d == kernel_leaf_spec(smp, phys_to_virt_offset, thead_maee, s, l, b as u64)
                } else {
                    va < virt_start && d == identity_leaf_spec(thead_maee, s, l, b as u64)
                }
            },
        },
{
    let layers = kernel_map_regions(smp, virt_start, virt_map_end, phys_to_virt_offset, thead_maee);
    assert(page_aligned(layers));
    lemma_table_translates_regions(layers, s, t, va);
    assert(layers.drop_last() =~= seq![layers[0]]);
    assert(seq![layers[0]].drop_last() =~= Seq::<Region>::empty());
    let image = LeafKind::KernelImage { smp, phys_to_virt_offset, thead_maee };
    let identity = LeafKind::KernelIdentity { thead_maee };
    assert(content_at(layers, va) == if virt_start <= va < virt_map_end {
        Some(image)
    } else if va < virt_start {
        Some(identity)
    } else {
        None::<LeafKind>
    }) by {
        reveal_with_fuel(content_at, 3);
    }
}

/// `va` lies in one of the RAM ranges.
pub open spec fn in_memory(memory: Seq<Range<u64>>, va: int) -> bool {
    exists|i: int| 0 <= i < memory.len() && #[trigger] memory[i].start <= va < memory[i].end
}

proof fn lemma_loader_content(s: Scheme, smp: bool, memory: Seq<Range<u64>>, va: int)
    ensures
        content_at(loader_map_regions(s, smp, memory), va) == if in_memory(memory, va) {
            Some(LeafKind::LoaderNormal { smp })
        } else if 0 <= va < device_range_end_spec(s) {
            Some(LeafKind::LoaderDevice)
        } else {
            None
        },
    decreases memory.len(),
{
    let layers = loader_map_regions(s, smp, memory);
    if memory.len() == 0 {
        assert(layers.drop_last() =~= Seq::<Region>::empty());
    } else {
        let p = memory.drop_last();
        assert(layers.drop_last() =~= loader_map_regions(s, smp, p));
        lemma_loader_content(s, smp, p, va);
        if in_memory(p, va) {
            let i = choose|i: int| 0 <= i < p.len() && #[trigger] p[i].start <= va < p[i].end;
            assert(memory[i] == p[i]);
        }
        if in_memory(memory, va) {
            let i = choose|i: int| 0 <= i < memory.len() && #[trigger] memory[i].start <= va < memory[i].end;
            if i < p.len() {
                assert(memory[i] == p[i]);
            }
        }
    }
}

/// The loader map translates every address in a RAM range through a normal
/// leaf, every other address below the device window's end through a device
/// leaf, and nothing else; each leaf sits at the start of an aligned entry
/// of its level.
pub proof fn lemma_loader_map_translates(
    s: Scheme,
    smp: bool,
    memory: Seq<Range<u64>>,
    t: Table,
    va: int,
)
    requires
        built(loader_map_regions(s, smp, memory), s, 0, 0, t),
        forall|i: int|
            0 <= i < memory.len() ==> (#[trigger] memory[i]).start % 0x1000 == 0 && memory[i].end
                % 0x1000 == 0,
        0 <= va < s.virt_end_spec(),
    ensures
        match walk(s, t, 0, 0, va) {
            None => !in_memory(memory, va) && va >= device_range_end_spec(s),
            Some((d, l, b)) => {
                &&& b <= va < b + s.entry_size_spec(l)
                &&& b % (s.entry_size_spec(l) as int) == 0
                &&& s.min_leaf_level_spec() <= l < s.num_levels_spec()
                &&& if in_memory(memory, va) {
                    d == normal_leaf_spec(smp, s, l, b as u64)
                } else {
                    va < device_range_end_spec(s) && d == device_leaf_spec(s, l, b as u64)
                }
            },
        },
{
    let layers = loader_map_regions(s, smp, memory);
    assert forall|i: int| 0 <= i < layers.len() implies (#[trigger] layers[i]).range.start % 0x1000
        == 0 && layers[i].range.end % 0x1000 == 0 by {
        if i > 0 {
            assert(layers[i].range == memory[i - 1]);
        }
    }
    assert(page_aligned(layers));
    lemma_table_translates_regions(layers, s, t, va);
    lemma_loader_content(s, smp, memory, va);
}


/// The serialisation of the table built from a set of regions is unique.
pub proof fn lemma_embeds_map_unique(
    s: Scheme,
    layers: Seq<Region>,
    vaddr: u64,
    thead_maee: bool,
    r1: (Vec<u8>, u64),
    r2: (Vec<u8>, u64),
)
    requires
        embeds_map(s, layers, vaddr, thead_maee, r1),
        embeds_map(s, layers, vaddr, thead_maee, r2),
    ensures
        r1.0@ == r2.0@,
        r1.1 == r2.1,
{
    let t1 = choose|t: Table|
        {
            &&& #[trigger] built(layers, s, 0, 0, t)
            &&& r1.0@.len() == place_table(s, vaddr as int, 0, t, 0).1
            &&& r1.1 == place_table(s, vaddr as int, 0, t, 0).0.vaddr
            &&& serialized(s, thead_maee, r1.0@, vaddr as int, 0, t, 0)
        };
    let t2 = choose|t: Table|
        {
            &&& #[trigger] built(layers, s, 0, 0, t)
            &&& r2.0@.len() == place_table(s, vaddr as int, 0, t, 0).1
            &&& r2.1 == place_table(s, vaddr as int, 0, t, 0).0.vaddr
            &&& serialized(s, thead_maee, r2.0@, vaddr as int, 0, t, 0)
        };
    lemma_built_unique(layers, s, 0, 0, t1, t2);
    lemma_same_tree_place(s, vaddr as int, 0, t1, t2, 0);
    lemma_same_tree_serialized(s, thead_maee, r1.0@, vaddr as int, 0, t1, t2, 0);
    lemma_serialized_unique(s, thead_maee, r1.0@, r2.0@, vaddr as int, 0, t2, 0);
    assert(r1.0@ =~= r2.0@);
}

/// On Arm, `thead_maee` does not change the kernel map: `mk_kernel_map`
/// gives the same bytes and root with and without it.
pub proof fn lemma_arm_kernel_map_ignores_thead(
    s: Scheme,
    smp: bool,
    virt_start: u64,
    virt_map_end: u64,
    phys_to_virt_offset: u64,
    vaddr: u64,
    marked: (Vec<u8>, u64),
    plain: (Vec<u8>, u64),
)
    requires
        s.is_arm(),
        embeds_map(
            s,
            kernel_map_regions(smp, virt_start, virt_map_end, phys_to_virt_offset, true),
            vaddr,
            true,
            marked,
        ),
        embeds_map(
            s,
            kernel_map_regions(smp, virt_start, virt_map_end, phys_to_virt_offset, false),
            vaddr,
            false,
            plain,
        ),
    ensures
        marked.0@ == plain.0@,
        marked.1 == plain.1,
{
    let l1 = kernel_map_regions(smp, virt_start, virt_map_end, phys_to_virt_offset, true);
    let l2 = kernel_map_regions(smp, virt_start, virt_map_end, phys_to_virt_offset, false);
    assert forall|i: int| 0 <= i < l1.len() implies (#[trigger] l1[i]).range == l2[i].range
        && same_leaves(s, l1[i].kind, l2[i].kind) by {
        assert forall|level: nat, v: u64| #[trigger] leaf_spec(l1[i].kind, s, level, v) == leaf_spec(
            l2[i].kind,
            s,
            level,
            v,
        ) by {}
    }
    assert(relabeled(s, l1, l2));
    let t1 = choose|t: Table|
        {
            &&& #[trigger] built(l1, s, 0, 0, t)
            &&& marked.0@.len() == place_table(s, vaddr as int, 0, t, 0).1
            &&& marked.1 == place_table(s, vaddr as int, 0, t, 0).0.vaddr
            &&& serialized(s, true, marked.0@, vaddr as int, 0, t, 0)
        };
    let t2 = choose|t: Table|
        {
            &&& #[trigger] built(l2, s, 0, 0, t)
            &&& plain.0@.len() == place_table(s, vaddr as int, 0, t, 0).1
            &&& plain.1 == place_table(s, vaddr as int, 0, t, 0).0.vaddr
            &&& serialized(s, false, plain.0@, vaddr as int, 0, t, 0)
        };
    lemma_built_relabeled(s, l1, l2, 0, 0, t1);
    lemma_built_unique(l2, s, 0, 0, t1, t2);
    lemma_same_tree_place(s, vaddr as int, 0, t1, t2, 0);
    lemma_same_tree_serialized(s, true, marked.0@, vaddr as int, 0, t1, t2, 0);
    lemma_thead_irrelevant_off_sv39(s, vaddr as int, t2, plain.0@, marked.0@);
}

/// On AArch32, `smp` does not change the loader map: `mk_loader_map` gives
/// the same bytes and root either way.
pub proof fn lemma_aarch32_loader_map_ignores_smp(
    vaddr: u64,
    memory: Seq<Range<u64>>,
    with_smp: (Vec<u8>, u64),
    without_smp: (Vec<u8>, u64),
)
    requires
        embeds_map(Scheme::AArch32, loader_map_regions(Scheme::AArch32, true, memory), vaddr, false, with_smp),
        embeds_map(
            Scheme::AArch32,
            loader_map_regions(Scheme::AArch32, false, memory),
            vaddr,
            false,
            without_smp,
        ),
    ensures
        with_smp.0@ == without_smp.0@,
        with_smp.1 == without_smp.1,
{
    let s = Scheme::AArch32;
    let l1 = loader_map_regions(s, true, memory);
    let l2 = loader_map_regions(s, false, memory);
    assert forall|i: int| 0 <= i < l1.len() implies (#[trigger] l1[i]).range == l2[i].range
        && same_leaves(s, l1[i].kind, l2[i].kind) by {
        assert forall|level: nat, v: u64| #[trigger] leaf_spec(l1[i].kind, s, level, v) == leaf_spec(
            l2[i].kind,
            s,
            level,
            v,
        ) by {}
    }
    assert(relabeled(s, l1, l2));
    let t1 = choose|t: Table|
        {
            &&& #[trigger] built(l1, s, 0, 0, t)
            &&& with_smp.0@.len() == place_table(s, vaddr as int, 0, t, 0).1
            &&& with_smp.1 == place_table(s, vaddr as int, 0, t, 0).0.vaddr
            &&& serialized(s, false, with_smp.0@, vaddr as int, 0, t, 0)
        };
    lemma_built_relabeled(s, l1, l2, 0, 0, t1);
    assert(embeds_map(s, l2, vaddr, false, with_smp));
    lemma_embeds_map_unique(s, l2, vaddr, false, with_smp, without_smp);
}


/// The AArch64 loader map identity-maps RAM as normal memory (`AttrIndx`
/// 4), every other address below 512 GiB as device memory (`AttrIndx` 0),
/// and nothing at or above 512 GiB outside RAM.
pub proof fn lemma_aarch64_loader_map_memory_types(
    smp: bool,
    memory: Seq<Range<u64>>,
    t: Table,
    va: int,
)
    requires
        built(loader_map_regions(Scheme::AArch64, smp, memory), Scheme::AArch64, 0, 0, t),
        forall|i: int|
            0 <= i < memory.len() ==> (#[trigger] memory[i]).start % 0x1000 == 0 && memory[i].end
                % 0x1000 == 0,
        0 <= va < 0x1_0000_0000_0000,
    ensures
        match walk(Scheme::AArch64, t, 0, 0, va) {
            None => !in_memory(memory, va) && va >= 0x80_0000_0000,
            Some((d, l, b)) => {
                &&& b <= va < b + Scheme::AArch64.entry_size_spec(l)
                &&& output_address(Scheme::AArch64, l, d) == frame_of(Scheme::AArch64, l, b as u64)
                &&& leaf_type_ok(Scheme::AArch64, l, d)
                &&& if in_memory(memory, va) {
                    aarch64_attrs(d, 4, if smp { 3 } else { 0 })
                } else {
                    va < 0x80_0000_0000 && aarch64_attrs(d, 0, 0)
                }
            },
        },
        va < 0x80_0000_0000 || in_memory(memory, va) ==> walk(Scheme::AArch64, t, 0, 0, va) is Some,
{
    let s = Scheme::AArch64;
    lemma_loader_map_translates(s, smp, memory, t, va);
    match walk(s, t, 0, 0, va) {
        Some((d, l, b)) => {
            lemma_normal_leaf_bits(smp, s, l, b as u64);
            lemma_device_leaf_bits(s, l, b as u64);
        },
        None => {},
    }
}

/// The AArch32 loader map identity-maps all 4 GiB: RAM as normal memory
/// (`TEX = 0b101`, `B`, shareable), everything else strongly ordered.
pub proof fn lemma_aarch32_loader_map_memory_types(
    smp: bool,
    memory: Seq<Range<u64>>,
    t: Table,
    va: int,
)
    requires
        built(loader_map_regions(Scheme::AArch32, smp, memory), Scheme::AArch32, 0, 0, t),
        forall|i: int|
            0 <= i < memory.len() ==> (#[trigger] memory[i]).start % 0x1000 == 0 && memory[i].end
                % 0x1000 == 0,
        0 <= va < 0x1_0000_0000,
    ensures
        walk(Scheme::AArch32, t, 0, 0, va) is Some,
        match walk(Scheme::AArch32, t, 0, 0, va) {
            None => false,
            Some((d, l, b)) => {
                &&& b <= va < b + Scheme::AArch32.entry_size_spec(l)
                &&& output_address(Scheme::AArch32, l, d) == frame_of(Scheme::AArch32, l, b as u64)
                &&& leaf_type_ok(Scheme::AArch32, l, d)
                &&& if in_memory(memory, va) {
                    aarch32_attrs(l, d, 0b101, false, true, true)
                } else {
                    aarch32_attrs(l, d, 0, false, false, false)
                }
            },
        },
{
    let s = Scheme::AArch32;
    assert(s.virt_end_spec() == 0x1_0000_0000);
    assert(device_range_end_spec(s) == 0x1_0000_0000);
    lemma_loader_map_translates(s, smp, memory, t, va);
    match walk(s, t, 0, 0, va) {
        Some((d, l, b)) => {
            lemma_normal_leaf_bits(smp, s, l, b as u64);
            lemma_device_leaf_bits(s, l, b as u64);
        },
        None => {},
    }
}

/// The kernel map maps each address of the kernel image to the frame of
/// `b - phys_to_virt_offset` (modulo 2^64) for the entry starting at `b`,
/// as normal memory; each address below the image to the frame of `b`
/// itself, as device memory (on Arm); and nothing else.
pub proof fn lemma_kernel_map_frames(
    s: Scheme,
    smp: bool,
    virt_start: u64,
    virt_map_end: u64,
    phys_to_virt_offset: u64,
    thead_maee: bool,
    t: Table,
    va: int,
)
    requires
        built(
            kernel_map_regions(smp, virt_start, virt_map_end, phys_to_virt_offset, thead_maee),
            s,
            0,
            0,
            t,
        ),
        virt_start % 0x1000 == 0,
        virt_map_end % 0x1000 == 0,
        0 <= va < s.virt_end_spec(),
    ensures
        (va < virt_start || virt_start <= va < virt_map_end) == walk(s, t, 0, 0, va) is Some,
        match walk(s, t, 0, 0, va) {
            None => true,
            Some((d, l, b)) => {
                &&& b <= va < b + s.entry_size_spec(l)
                &&& leaf_type_ok(s, l, d)
                &&& if virt_start <= va < virt_map_end {
                    &&& output_address(s, l, d) == frame_of(
                        s,
                        l,
                        minus_mod(b as u64, phys_to_virt_offset),
                    )
                    &&& s is AArch64 ==> aarch64_attrs(d, 4, if smp { 3 } else { 0 })
                    &&& s is AArch32 ==> aarch32_attrs(l, d, 0, false, false, true)
                    &&& s.is_riscv() ==> d & THEAD_PMA == if thead_maee { THEAD_PMA } else { 0 }
                } else {
                    &&& output_address(s, l, d) == frame_of(s, l, b as u64)
                    &&& s is AArch64 ==> aarch64_attrs(d, 0, 0)
                    &&& s is AArch32 ==> aarch32_attrs(l, d, 0, false, false, false)
                    &&& s.is_riscv() ==> d & THEAD_PMA == if thead_maee { THEAD_PMA } else { 0 }
                }
            },
        },
{
    lemma_kernel_map_translates(
        s,
        smp,
        virt_start,
        virt_map_end,
        phys_to_virt_offset,
        thead_maee,
        t,
        va,
    );
    match walk(s, t, 0, 0, va) {
        Some((d, l, b)) => {
            lemma_kernel_leaf_bits(smp, phys_to_virt_offset, thead_maee, s, l, b as u64);
            lemma_identity_leaf_bits(thead_maee, s, l, b as u64);
        },
        None => {},
    }
}

} // verus!
