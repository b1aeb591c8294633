//! Regions of virtual address space and the table tree that maps them.
//!
//! Regions are kept in insertion order; where they overlap, the one inserted
//! last decides. A table is built top-down: an entry whose whole span lies in
//! one region becomes a leaf of that region (or stays empty outside every
//! region) as soon as its level can hold leaves; any other entry becomes a
//! branch to a next-level table. A page that regions split (possible only
//! when a region does not start or end on a page boundary) is mapped as the
//! region deciding its first byte says.
use vstd::prelude::*;
use std::ops::Range;
use crate::descriptors::MkLeafArgs;
use crate::leaves::{
    device_leaf_spec, identity_leaf_spec, kernel_leaf_spec, mk_device_leaf_for_loader_map,
    mk_identity_leaf_for_kernel_map, mk_kernel_leaf_for_kernel_map, mk_normal_leaf_for_loader_map,
    normal_leaf_spec,
};
use crate::scheme::Scheme;
use crate::table::{AbstractEntry, Table, fits, walk, walk_entry, well_formed};
use crate::embed::{same_entry, same_tree};

verus! {

/// How the leaves of a region are made.
#[derive(Clone, Copy, PartialEq, Eq, Structural, Debug)]
pub enum LeafKind {
    /// Device memory identity-mapped for the loader.
    LoaderDevice,
    /// RAM identity-mapped for the loader.
    LoaderNormal { smp: bool },
    /// The identity part of the kernel map, below the kernel image.
    KernelIdentity { thead_maee: bool },
    /// The kernel image, virtual `v` at physical `v - phys_to_virt_offset`.
    KernelImage { smp: bool, phys_to_virt_offset: u64, thead_maee: bool },
}

/// The loader's kinds exist for the Arm schemes only.
pub open spec fn kind_ok(s: Scheme, k: LeafKind) -> bool {
    (k is LoaderDevice || k is LoaderNormal) ==> s.is_arm()
}

/// The leaf descriptor a region of kind `k` gets at `level` for the entry
/// starting at `vaddr`.
pub open spec fn leaf_spec(k: LeafKind, s: Scheme, level: nat, vaddr: u64) -> u64 {
    match k {
        LeafKind::LoaderDevice => device_leaf_spec(s, level, vaddr),
        LeafKind::LoaderNormal { smp } => normal_leaf_spec(smp, s, level, vaddr),
        LeafKind::KernelIdentity { thead_maee } => identity_leaf_spec(thead_maee, s, level, vaddr),
        LeafKind::KernelImage { smp, phys_to_virt_offset, thead_maee } => kernel_leaf_spec(
            smp,
            phys_to_virt_offset,
            thead_maee,
            s,
            level,
            vaddr,
        ),
    }
}

/// Makes the leaf of kind `kind` described by `loc`.
pub fn mk_leaf(kind: LeafKind, loc: MkLeafArgs) -> (r: u64)
    requires
        loc.wf(),
        kind_ok(loc.scheme_spec(), kind),
    ensures
        r == leaf_spec(kind, loc.scheme_spec(), loc.level_spec(), loc.vaddr_spec()),
{
    match kind {
        LeafKind::LoaderDevice => mk_device_leaf_for_loader_map(loc),
        LeafKind::LoaderNormal { smp } => mk_normal_leaf_for_loader_map(smp, loc),
        LeafKind::KernelIdentity { thead_maee } => mk_identity_leaf_for_kernel_map(thead_maee, loc),
        LeafKind::KernelImage { smp, phys_to_virt_offset, thead_maee } => mk_kernel_leaf_for_kernel_map(
            smp,
            phys_to_virt_offset,
            thead_maee,
            loc,
        ),
    }
}

/// The virtual addresses `range` mapped by leaves of kind `kind`.
pub struct Region {
    pub range: Range<u64>,
    pub kind: LeafKind,
}

impl Region {
    /// A region that maps `range` with leaves of `kind`.
    pub fn valid(range: Range<u64>, kind: LeafKind) -> (r: Region)
        ensures
            r.range == range,
            r.kind == kind,
    {
        Region { range, kind }
    }
}

pub open spec fn contains(r: Region, a: int) -> bool {
    r.range.start <= a < r.range.end
}

pub open spec fn intersects(r: Region, b: int, e: int) -> bool {
    r.range.start < r.range.end && r.range.start < e && b < r.range.end
}

pub open spec fn covers(r: Region, b: int, e: int) -> bool {
    r.range.start <= b && e <= r.range.end
}

/// The kind of the region that decides address `a`: the last one inserted
/// that contains it; `None` outside every region.
pub open spec fn content_at(layers: Seq<Region>, a: int) -> Option<LeafKind>
    decreases layers.len(),
{
    if layers.len() == 0 {
        None
    } else if contains(layers.last(), a) {
        Some(layers.last().kind)
    } else {
        content_at(layers.drop_last(), a)
    }
}

/// Whether one region decides all of `b..e`: `Some(Some(k))` when the last
/// region meeting `b..e` covers it; `Some(None)` when no region meets it;
/// `None` when the span is split.
pub open spec fn covering(layers: Seq<Region>, b: int, e: int) -> Option<Option<LeafKind>>
    decreases layers.len(),
{
    if layers.len() == 0 {
        Some(None)
    } else if !intersects(layers.last(), b, e) {
        covering(layers.drop_last(), b, e)
    } else if covers(layers.last(), b, e) {
        Some(Some(layers.last().kind))
    } else {
        None
    }
}

/// When one region decides a span, it decides every address in it.
pub proof fn lemma_covering_sound(layers: Seq<Region>, b: int, e: int, a: int)
    requires
        covering(layers, b, e) is Some,
        b <= a < e,
    ensures
        content_at(layers, a) == covering(layers, b, e)->0,
    decreases layers.len(),
{
    if layers.len() > 0 && !intersects(layers.last(), b, e) {
        lemma_covering_sound(layers.drop_last(), b, e, a);
    }
}

/// Collects regions; a later region takes precedence where it overlaps an
/// earlier one.
pub struct RegionsBuilder {
    scheme: Scheme,
    layers: Vec<Region>,
}

/// The regions a table is built from.
pub struct Regions {
    scheme: Scheme,
    layers: Vec<Region>,
}

impl RegionsBuilder {
    pub closed spec fn scheme_spec(&self) -> Scheme {
        self.scheme
    }

    pub closed spec fn layers_spec(&self) -> Seq<Region> {
        self.layers@
    }

    /// No region yet: nothing is mapped.
    pub fn new(scheme: &Scheme) -> (r: Self)
        ensures
            r.scheme_spec() == *scheme,
            r.layers_spec() == Seq::<Region>::empty(),
    {
        RegionsBuilder { scheme: *scheme, layers: Vec::new() }
    }

    /// Adds `region` on top of the regions so far.
    pub fn insert(self, region: Region) -> (r: Self)
        ensures
            r.scheme_spec() == self.scheme_spec(),
            r.layers_spec() == self.layers_spec().push(region),
            forall|a: int|
                #![trigger content_at(r.layers_spec(), a)]
                content_at(r.layers_spec(), a) == if contains(region, a) {
                    Some(region.kind)
                } else {
                    content_at(self.layers_spec(), a)
                },
    {
        let mut layers = self.layers;
        let ghost old_layers = layers@;
        layers.push(region);
        proof {
            assert(layers@.drop_last() =~= old_layers);
        }
        RegionsBuilder { scheme: self.scheme, layers }
    }

    pub fn build(self) -> (r: Regions)
        ensures
            r.scheme_spec() == self.scheme_spec(),
            r.layers_spec() == self.layers_spec(),
    {
        Regions { scheme: self.scheme, layers: self.layers }
    }
}

/// The rule each entry of a built table follows (see the module's doc).
pub open spec fn entry_built(layers: Seq<Region>, s: Scheme, level: nat, b: int, e: AbstractEntry) -> bool
    decreases s.num_levels_spec() - level, 0nat,
{
    let es = s.entry_size_spec(level) as int;
    let deeper = level + 1 < s.num_levels_spec() && match e {
        AbstractEntry::Branch(c) => built(layers, s, level + 1, b, *c),
        _ => false,
    };
    match covering(layers, b, b + es) {
        Some(None) => e is Empty,
        Some(Some(k)) => if s.min_leaf_level_spec() <= level {
            e == AbstractEntry::Leaf(leaf_spec(k, s, level, b as u64))
        } else {
            deeper
        },
        None => if level + 1 < s.num_levels_spec() {
            deeper
        } else {
            e == match content_at(layers, b) {
                None => AbstractEntry::Empty,
                Some(k) => AbstractEntry::Leaf(leaf_spec(k, s, level, b as u64)),
            }
        },
    }
}

/// `t` is the table at `level` built from `layers` whose first entry starts at `base`.
pub open spec fn built(layers: Seq<Region>, s: Scheme, level: nat, base: int, t: Table) -> bool
    decreases s.num_levels_spec() - level, 1nat,
{
    let es = s.entry_size_spec(level) as int;
    &&& t.entries@.len() == s.num_entries_spec(level)
    &&& forall|i: int|
        0 <= i < t.entries@.len() ==> entry_built(layers, s, level, base + i * es, #[trigger] t.entries@[i])
}

/// Sizes of consecutive levels fit together.
pub proof fn lemma_geometry(s: Scheme, level: nat)
    requires
        level < s.num_levels_spec(),
    ensures
        s.entry_size_spec(level) > 0,
        s.num_entries_spec(level) > 0,
        s.entry_size_spec(level) % 0x1000 == 0,
        level + 1 < s.num_levels_spec() ==> s.entry_size_spec(level) == s.num_entries_spec(
            (level + 1) as nat,
        ) * s.entry_size_spec((level + 1) as nat),
        level + 1 == s.num_levels_spec() ==> s.entry_size_spec(level) == 0x1000,
        s.min_leaf_level_spec() < s.num_levels_spec(),
        s.virt_end_spec() <= 0x1_0000_0000_0000,
        s.num_levels_spec() <= 4,
{
}

pub open spec fn kinds_ok(s: Scheme, layers: Seq<Region>) -> bool {
    forall|i: int| 0 <= i < layers.len() ==> kind_ok(s, #[trigger] layers[i].kind)
}

impl Regions {
    pub closed spec fn scheme_spec(&self) -> Scheme {
        self.scheme
    }

    pub closed spec fn layers_spec(&self) -> Seq<Region> {
        self.layers@
    }

    /// `covering` of `b..e`, computed.
    fn covering(&self, b: u64, e: u64) -> (r: Option<Option<LeafKind>>)
        ensures
            r == covering(self.layers@, b as int, e as int),
            r matches Some(Some(k)) ==> kinds_ok(self.scheme, self.layers@) ==> kind_ok(self.scheme, k),
    {
        let mut j = self.layers.len();
        proof {
            assert(self.layers@.take(j as int) =~= self.layers@);
        }
        while j > 0
            invariant
                j <= self.layers@.len(),
                covering(self.layers@, b as int, e as int) == covering(
                    self.layers@.take(j as int),
                    b as int,
                    e as int,
                ),
            decreases j,
        {
            let r = &self.layers[j - 1];
            proof {
                let t = self.layers@.take(j as int);
                assert(t.drop_last() =~= self.layers@.take(j - 1));
                assert(t.last() == self.layers@[j - 1]);
            }
            let meets = r.range.start < r.range.end && r.range.start < e && b < r.range.end;
            if !meets {
                j = j - 1;
            } else if r.range.start <= b && e <= r.range.end {
                return Some(Some(r.kind));
            } else {
                return None;
            }
        }
        proof {
            assert(self.layers@.take(0) =~= Seq::<Region>::empty());
        }
        Some(None)
    }

    /// `content_at(a)`, computed.
    fn content_at(&self, a: u64) -> (r: Option<LeafKind>)
        ensures
            r == content_at(self.layers@, a as int),
            r matches Some(k) ==> kinds_ok(self.scheme, self.layers@) ==> kind_ok(self.scheme, k),
    {
        let mut j = self.layers.len();
        proof {
            assert(self.layers@.take(j as int) =~= self.layers@);
        }
        while j > 0
            invariant
                j <= self.layers@.len(),
                content_at(self.layers@, a as int) == content_at(self.layers@.take(j as int), a as int),
            decreases j,
        {
            let r = &self.layers[j - 1];
            proof {
                let t = self.layers@.take(j as int);
                assert(t.drop_last() =~= self.layers@.take(j - 1));
                assert(t.last() == self.layers@[j - 1]);
            }
            if r.range.start <= a && a < r.range.end {
                return Some(r.kind);
            }
            j = j - 1;
        }
        proof {
            assert(self.layers@.take(0) =~= Seq::<Region>::empty());
        }
        None
    }

    /// Builds the root table that maps these regions.
    pub fn construct_table(&self, scheme: &Scheme) -> (t: Table)
        requires
            *scheme == self.scheme_spec(),
            kinds_ok(*scheme, self.layers_spec()),
        ensures
            built(self.layers_spec(), *scheme, 0, 0, t),
            well_formed(*scheme, t, 0),
    {
        proof {
            lemma_geometry(*scheme, 0);
        }
        let t = self.table_at(scheme, 0, 0);
        proof {
            lemma_built_well_formed(self.layers@, *scheme, 0, 0, t);
        }
        t
    }

    /// The table at `level` whose first entry starts at `base`.
    fn table_at(&self, scheme: &Scheme, level: usize, base: u64) -> (t: Table)
        requires
            *scheme == self.scheme,
            kinds_ok(self.scheme, self.layers@),
            level < scheme.num_levels_spec(),
            base + scheme.num_entries_spec(level as nat) * scheme.entry_size_spec(level as nat)
                <= scheme.virt_end_spec(),
        ensures
            built(self.layers@, *scheme, level as nat, base as int, t),
        decreases 4 - level,
    {
        proof {
            lemma_geometry(*scheme, level as nat);
        }
        let ghost s = *scheme;
        let ghost layers = self.layers@;
        let es = scheme.entry_size(level);
        let n = scheme.num_entries(level);
        let mut entries: Vec<AbstractEntry> = Vec::new();
        let mut i: u64 = 0;
        let mut b: u64 = base;
        while i < n
            invariant
                *scheme == self.scheme,
                s == *scheme,
                layers == self.layers@,
                kinds_ok(s, layers),
                level < s.num_levels_spec(),
                s.num_levels_spec() <= 4,
                es == s.entry_size_spec(level as nat),
                n == s.num_entries_spec(level as nat),
                es > 0,
                base + n * es <= s.virt_end_spec(),
                s.virt_end_spec() <= 0x1_0000_0000_0000,
                i <= n,
                b == base + i * es,
                entries@.len() == i,
                forall|j: int|
                    0 <= j < i ==> entry_built(layers, s, level as nat, base + j * es, #[trigger] entries@[j]),
            decreases n - i,
        {
            proof {
                assert(b + es <= base + n * es) by (nonlinear_arith)
                    requires
                        b == base + i * es,
                        i < n,
                        es > 0,
                ;
                lemma_geometry(s, level as nat);
            }
            let end = b + es;
            let entry = match self.covering(b, end) {
                Some(None) => AbstractEntry::Empty,
                Some(Some(k)) => {
                    if level >= scheme.min_leaf_level() {
                        AbstractEntry::Leaf(mk_leaf(k, MkLeafArgs::new(scheme, level, b)))
                    } else {
                        let child = self.table_at(scheme, level + 1, b);
                        AbstractEntry::Branch(Box::new(child))
                    }
                },
                None => {
                    if level + 1 < scheme.num_levels() {
                        let child = self.table_at(scheme, level + 1, b);
                        AbstractEntry::Branch(Box::new(child))
                    } else {
                        match self.content_at(b) {
                            None => AbstractEntry::Empty,
                            Some(k) => AbstractEntry::Leaf(mk_leaf(k, MkLeafArgs::new(scheme, level, b))),
                        }
                    }
                },
            };
            proof {
                assert(entry_built(layers, s, level as nat, b as int, entry));
            }
            entries.push(entry);
            proof {
                assert(b + es == base + (i + 1) * es) by (nonlinear_arith)
                    requires
                        b == base + i * es,
                ;
            }
            b = end;
            i = i + 1;
        }
        Table { entries }
    }
}

/// A built table is a complete table of its scheme.
pub proof fn lemma_built_well_formed(layers: Seq<Region>, s: Scheme, level: nat, base: int, t: Table)
    requires
        level < s.num_levels_spec(),
        built(layers, s, level, base, t),
    ensures
        well_formed(s, t, level),
    decreases s.num_levels_spec() - level,
{
    lemma_geometry(s, level);
    let es = s.entry_size_spec(level) as int;
    assert forall|i: int| 0 <= i < t.entries@.len() implies match #[trigger] t.entries@[i] {
        AbstractEntry::Branch(c) => level + 1 < s.num_levels_spec() && well_formed(s, *c, level + 1),
        AbstractEntry::Leaf(_) => s.min_leaf_level_spec() <= level,
        AbstractEntry::Empty => true,
    } by {
        assert(entry_built(layers, s, level, base + i * es, t.entries@[i]));
        match t.entries@[i] {
            AbstractEntry::Branch(c) => {
                lemma_built_well_formed(layers, s, level + 1, base + i * es, *c);
            },
            _ => {},
        }
    }
}

/// A complete table fits its scheme's levels.
pub proof fn lemma_well_formed_fits(s: Scheme, t: Table, level: nat)
    requires
        well_formed(s, t, level),
    ensures
        fits(s, t, level),
    decreases s.num_levels_spec() - level,
{
    assert forall|i: int| 0 <= i < t.entries@.len() implies match #[trigger] t.entries@[i] {
        AbstractEntry::Branch(c) => level + 1 < s.num_levels_spec() && fits(s, *c, level + 1),
        _ => true,
    } by {
        match t.entries@[i] {
            AbstractEntry::Branch(c) => {
                lemma_well_formed_fits(s, *c, level + 1);
            },
            _ => {},
        }
    }
}


/// Every region starts and ends on a 4 KiB page boundary.
pub open spec fn page_aligned(layers: Seq<Region>) -> bool {
    forall|i: int|
        0 <= i < layers.len() ==> (#[trigger] layers[i]).range.start % 0x1000 == 0
            && layers[i].range.end % 0x1000 == 0
}

/// What the walk `w` of virtual address `va` should find: nothing outside
/// every region; inside one, a leaf made for the region deciding `va`, at a
/// level that holds leaves, for an aligned entry whose whole span that
/// region decides.
pub open spec fn translates(
    layers: Seq<Region>,
    s: Scheme,
    va: int,
    w: Option<(u64, nat, int)>,
) -> bool {
    match w {
        None => content_at(layers, va) is None,
        Some((d, l, b)) => match content_at(layers, va) {
            None => false,
            Some(k) => {
                &&& d == leaf_spec(k, s, l, b as u64)
                &&& s.min_leaf_level_spec() <= l < s.num_levels_spec()
                &&& b <= va < b + s.entry_size_spec(l)
                &&& b % (s.entry_size_spec(l) as int) == 0
                &&& forall|a: int|
                    b <= a < b + s.entry_size_spec(l) ==> #[trigger] content_at(layers, a) == Some(k)
            },
        },
    }
}

proof fn lemma_index(base: int, va: int, es: int, n: int)
    requires
        es > 0,
        base <= va < base + n * es,
    ensures
        0 <= (va - base) / es < n,
        base + ((va - base) / es) * es <= va < base + ((va - base) / es) * es + es,
{
    let i = (va - base) / es;
    vstd::arithmetic::div_mod::lemma_fundamental_div_mod(va - base, es);
    assert(0 <= i) by (nonlinear_arith)
        requires
            va - base >= 0,
            es > 0,
            i == (va - base) / es,
    ;
    assert(i < n) by (nonlinear_arith)
        requires
            va - base == es * i + (va - base) % es,
            0 <= (va - base) % es,
            va - base < n * es,
            es > 0,
    ;
    assert(i * es == es * i) by (nonlinear_arith);
}

proof fn lemma_aligned_step(base: int, i: int, es: int, es2: int, m: int)
    requires
        base % es == 0,
        es == m * es2,
        es2 > 0,
        m > 0,
        i >= 0,
    ensures
        (base + i * es) % es == 0,
        (base + i * es) % es2 == 0,
{
    let q = base / es;
    assert(es > 0) by (nonlinear_arith)
        requires
            es == m * es2,
            es2 > 0,
            m > 0,
    ;
    vstd::arithmetic::div_mod::lemma_fundamental_div_mod(base, es);
    assert(base + i * es == (q + i) * es) by (nonlinear_arith)
        requires
            base == es * q + base % es,
            base % es == 0,
    ;
    vstd::arithmetic::div_mod::lemma_mod_multiples_basic(q + i, es);
    assert(base + i * es == ((q + i) * m) * es2) by (nonlinear_arith)
        requires
            base + i * es == (q + i) * es,
            es == m * es2,
    ;
    vstd::arithmetic::div_mod::lemma_mod_multiples_basic((q + i) * m, es2);
}

/// With page-aligned regions, one region always decides a whole page.
proof fn lemma_page_covered(layers: Seq<Region>, b: int)
    requires
        page_aligned(layers),
        b % 0x1000 == 0,
    ensures
        covering(layers, b, b + 0x1000) is Some,
    decreases layers.len(),
{
    if layers.len() > 0 {
        let r = layers.last();
        assert(r == layers[layers.len() - 1]);
        assert(r.range.start % 0x1000 == 0 && r.range.end % 0x1000 == 0);
        if !intersects(r, b, b + 0x1000) {
            let dl = layers.drop_last();
            assert forall|i: int| 0 <= i < dl.len() implies (#[trigger] dl[i]).range.start % 0x1000
                == 0 && dl[i].range.end % 0x1000 == 0 by {
                assert(dl[i] == layers[i]);
            }
            lemma_page_covered(layers.drop_last(), b);
        }
    }
}

proof fn lemma_walk_built(layers: Seq<Region>, s: Scheme, level: nat, base: int, t: Table, va: int)
    requires
        level < s.num_levels_spec(),
        built(layers, s, level, base, t),
        page_aligned(layers),
        base % (s.entry_size_spec(level) as int) == 0,
        base <= va < base + s.num_entries_spec(level) * s.entry_size_spec(level),
    ensures
        translates(layers, s, va, walk(s, t, level, base, va)),
    decreases s.num_levels_spec() - level,
{
    lemma_geometry(s, level);
    let es = s.entry_size_spec(level) as int;
    let n = s.num_entries_spec(level) as int;
    lemma_index(base, va, es, n);
    let i = (va - base) / es;
    let b = base + i * es;
    let e = t.entries@[i];
    assert(entry_built(layers, s, level, b, e));
    assert(walk(s, t, level, base, va) == walk_entry(s, e, level, b, va));
    let cov = covering(layers, b, b + es);
    if level + 1 < s.num_levels_spec() {
        lemma_geometry(s, level + 1);
        let es2 = s.entry_size_spec(level + 1) as int;
        let m = s.num_entries_spec(level + 1) as int;
        lemma_aligned_step(base, i, es, es2, m);
    } else {
        lemma_aligned_step(base, i, es, es, 1);
    }
    if cov is Some {
        assert forall|a: int| b <= a < b + es implies #[trigger] content_at(layers, a) == cov->0 by {
            lemma_covering_sound(layers, b, b + es, a);
        }
        lemma_covering_sound(layers, b, b + es, va);
    }
    match cov {
        Some(None) => {},
        Some(Some(k)) => {
            if s.min_leaf_level_spec() <= level {
            } else {
                match e {
                    AbstractEntry::Branch(c) => {
                        lemma_walk_built(layers, s, level + 1, b, *c, va);
                    },
                    _ => {},
                }
            }
        },
        None => {
            if level + 1 < s.num_levels_spec() {
                match e {
                    AbstractEntry::Branch(c) => {
                        lemma_walk_built(layers, s, level + 1, b, *c, va);
                    },
                    _ => {},
                }
            } else {
                lemma_page_covered(layers, b);
            }
        },
    }
}

/// The table built from page-aligned regions translates every address of
/// the scheme's virtual space as the regions say: unmapped outside every
/// region, and otherwise through a leaf made for the region that decides
/// the address, whose whole span that region decides.
pub proof fn lemma_table_translates_regions(layers: Seq<Region>, s: Scheme, t: Table, va: int)
    requires
        built(layers, s, 0, 0, t),
        page_aligned(layers),
        0 <= va < s.virt_end_spec(),
    ensures
        translates(layers, s, va, walk(s, t, 0, 0, va)),
{
    lemma_geometry(s, 0);
    lemma_walk_built(layers, s, 0, 0, t, va);
}


/// Kinds `k1` and `k2` make the same leaves in scheme `s`.
pub open spec fn same_leaves(s: Scheme, k1: LeafKind, k2: LeafKind) -> bool {
    forall|level: nat, vaddr: u64| #[trigger] leaf_spec(k1, s, level, vaddr) == leaf_spec(k2, s, level, vaddr)
}

/// `l2` is `l1` with each region's kind replaced by one that makes the same leaves.
pub open spec fn relabeled(s: Scheme, l1: Seq<Region>, l2: Seq<Region>) -> bool {
    &&& l1.len() == l2.len()
    &&& forall|i: int|
        0 <= i < l1.len() ==> (#[trigger] l1[i]).range == l2[i].range && same_leaves(
            s,
            l1[i].kind,
            l2[i].kind,
        )
}

proof fn lemma_relabeled_drop_last(s: Scheme, l1: Seq<Region>, l2: Seq<Region>)
    requires
        relabeled(s, l1, l2),
        l1.len() > 0,
    ensures
        relabeled(s, l1.drop_last(), l2.drop_last()),
        l1.last().range == l2.last().range,
        same_leaves(s, l1.last().kind, l2.last().kind),
{
    assert(l1.last() == l1[l1.len() - 1]);
    assert forall|i: int| 0 <= i < l1.drop_last().len() implies (#[trigger] l1.drop_last()[i]).range
        == l2.drop_last()[i].range && same_leaves(s, l1.drop_last()[i].kind, l2.drop_last()[i].kind) by {
        assert(l1.drop_last()[i] == l1[i]);
        assert(l2.drop_last()[i] == l2[i]);
    }
}

proof fn lemma_covering_relabeled(s: Scheme, l1: Seq<Region>, l2: Seq<Region>, b: int, e: int)
    requires
        relabeled(s, l1, l2),
    ensures
        (covering(l1, b, e) is None) == (covering(l2, b, e) is None),
        (covering(l1, b, e) == Some(None::<LeafKind>)) == (covering(l2, b, e) == Some(None::<LeafKind>)),
        covering(l1, b, e) is Some && covering(l1, b, e)->0 is Some ==> covering(l2, b, e) is Some
            && covering(l2, b, e)->0 is Some && same_leaves(
            s,
            covering(l1, b, e)->0->0,
            covering(l2, b, e)->0->0,
        ),
    decreases l1.len(),
{
    if l1.len() > 0 {
        lemma_relabeled_drop_last(s, l1, l2);
        lemma_covering_relabeled(s, l1.drop_last(), l2.drop_last(), b, e);
    }
}

proof fn lemma_content_relabeled(s: Scheme, l1: Seq<Region>, l2: Seq<Region>, a: int)
    requires
        relabeled(s, l1, l2),
    ensures
        (content_at(l1, a) is None) == (content_at(l2, a) is None),
        content_at(l1, a) is Some ==> same_leaves(s, content_at(l1, a)->0, content_at(l2, a)->0),
    decreases l1.len(),
{
    if l1.len() > 0 {
        lemma_relabeled_drop_last(s, l1, l2);
        lemma_content_relabeled(s, l1.drop_last(), l2.drop_last(), a);
    }
}

/// Regions that make the same leaves build the same tables.
pub proof fn lemma_built_relabeled(
    s: Scheme,
    l1: Seq<Region>,
    l2: Seq<Region>,
    level: nat,
    base: int,
    t: Table,
)
    requires
        relabeled(s, l1, l2),
        built(l1, s, level, base, t),
    ensures
        built(l2, s, level, base, t),
    decreases s.num_levels_spec() - level,
{
    let es = s.entry_size_spec(level) as int;
    assert forall|i: int| 0 <= i < t.entries@.len() implies entry_built(
        l2,
        s,
        level,
        base + i * es,
        #[trigger] t.entries@[i],
    ) by {
        let b = base + i * es;
        let e = t.entries@[i];
        assert(entry_built(l1, s, level, b, e));
        lemma_covering_relabeled(s, l1, l2, b, b + es);
        lemma_content_relabeled(s, l1, l2, b);
        if covering(l1, b, b + es) is Some && covering(l1, b, b + es)->0 is Some {
            let k1 = covering(l1, b, b + es)->0->0;
            let k2 = covering(l2, b, b + es)->0->0;
            assert(leaf_spec(k1, s, level, b as u64) == leaf_spec(k2, s, level, b as u64));
        }
        if content_at(l1, b) is Some {
            let k1 = content_at(l1, b)->0;
            let k2 = content_at(l2, b)->0;
            assert(leaf_spec(k1, s, level, b as u64) == leaf_spec(k2, s, level, b as u64));
        }
        match e {
            AbstractEntry::Branch(c) => {
                if level + 1 < s.num_levels_spec() && built(l1, s, level + 1, b, *c) {
                    lemma_built_relabeled(s, l1, l2, level + 1, b, *c);
                }
            },
            _ => {},
        }
    }
}

/// The tables built from one set of regions have the same entries.
pub proof fn lemma_built_unique(
    layers: Seq<Region>,
    s: Scheme,
    level: nat,
    base: int,
    t1: Table,
    t2: Table,
)
    requires
        built(layers, s, level, base, t1),
        built(layers, s, level, base, t2),
    ensures
        same_tree(s, t1, t2, level),
    decreases s.num_levels_spec() - level,
{
    let es = s.entry_size_spec(level) as int;
    assert forall|i: int| 0 <= i < t1.entries@.len() implies same_entry(
        s,
        #[trigger] t1.entries@[i],
        t2.entries@[i],
        level,
    ) by {
        let b = base + i * es;
        assert(entry_built(layers, s, level, b, t1.entries@[i]));
        assert(entry_built(layers, s, level, b, t2.entries@[i]));
        match (t1.entries@[i], t2.entries@[i]) {
            (AbstractEntry::Branch(c1), AbstractEntry::Branch(c2)) => {
                if level + 1 < s.num_levels_spec() {
                    lemma_built_unique(layers, s, level + 1, b, *c1, *c2);
                }
            },
            _ => {},
        }
    }
}

} // verus!
