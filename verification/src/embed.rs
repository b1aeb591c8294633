//! Serialisation of a table tree into the bytes the loader image carries.
//!
//! Tables are laid out depth first, children before their parent, each at the
//! alignment its level requires, starting at a given virtual address; the
//! root table comes last.
use vstd::prelude::*;
use crate::scheme::{Scheme, THEAD_PMA};
use crate::table::{AbstractEntry, Table, fits, well_formed};

verus! {

/// The least multiple of `a` that is at least `x`.
pub open spec fn align_up(x: int, a: int) -> int {
    if x % a == 0 {
        x
    } else {
        x + (a - x % a)
    }
}

/// Where a table and, recursively, its next-level tables are placed.
pub struct Layout {
    /// Virtual address of the table's first descriptor.
    pub vaddr: int,
    /// For each entry, the placement of its next-level table if it has one.
    pub children: Seq<Option<Layout>>,
}

/// Placement of table `t` (at `level`) when `len` bytes are already laid
/// out from `start`: its layout and the length once it is laid out.
pub open spec fn place_table(s: Scheme, start: int, len: int, t: Table, level: nat) -> (Layout, int)
    decreases s.num_levels_spec() - level, 1nat, 0nat,
{
    let (children, len1) = place_entries(s, start, len, t.entries@, level);
    let off = align_up(start + len1, s.level_align_spec(level) as int) - start;
    (
        Layout { vaddr: start + off, children },
        off + t.entries@.len() * s.descriptor_size_spec(),
    )
}

/// Placement of the next-level tables of entries `es`, in order.
pub open spec fn place_entries(
    s: Scheme,
    start: int,
    len: int,
    es: Seq<AbstractEntry>,
    level: nat,
) -> (Seq<Option<Layout>>, int)
    decreases s.num_levels_spec() - level, 0nat, es.len(),
{
    if es.len() == 0 {
        (Seq::empty(), len)
    } else {
        let (prev, len1) = place_entries(s, start, len, es.drop_last(), level);
        match es.last() {
            AbstractEntry::Branch(c) => if level + 1 < s.num_levels_spec() {
                let (l, len2) = place_table(s, start, len1, *c, level + 1);
                (prev.push(Some(l)), len2)
            } else {
                (prev.push(None), len1)
            },
            _ => (prev.push(None), len1),
        }
    }
}

/// A branch descriptor as stored: on RISC-V with `thead_maee` it carries the
/// T-Head attribute bits.
pub open spec fn branch_mark(s: Scheme, thead_maee: bool, d: u64) -> u64 {
    if thead_maee && s.is_riscv() {
        d | THEAD_PMA
    } else {
        d
    }
}

/// The descriptor stored for entry `e` whose next-level table (if any) is
/// placed by `child`.
pub open spec fn entry_descriptor(
    s: Scheme,
    thead_maee: bool,
    e: AbstractEntry,
    child: Option<Layout>,
) -> u64 {
    match e {
        AbstractEntry::Empty => s.empty_descriptor_spec(),
        AbstractEntry::Leaf(d) => d,
        AbstractEntry::Branch(_) => match child {
            Some(l) => branch_mark(s, thead_maee, s.branch_descriptor_spec(l.vaddr as u64)),
            None => 0,
        },
    }
}

/// The `ds` bytes of descriptor `i` of a table at offset `off`.
pub open spec fn slot(buf: Seq<u8>, off: int, i: int, ds: int) -> Seq<u8> {
    buf.subrange(off + i * ds, off + i * ds + ds)
}

/// `buf` holds, from offset `len`, the serialisation of `t` at `level`:
/// its next-level tables, zero padding up to its alignment, then one
/// little-endian descriptor per entry.
pub open spec fn serialized(
    s: Scheme,
    thead_maee: bool,
    buf: Seq<u8>,
    start: int,
    len: int,
    t: Table,
    level: nat,
) -> bool
    decreases s.num_levels_spec() - level, 1nat, 0nat,
{
    let (children, len1) = place_entries(s, start, len, t.entries@, level);
    let (lay, end) = place_table(s, start, len, t, level);
    let off = lay.vaddr - start;
    let ds = s.descriptor_size_spec() as int;
    &&& entries_serialized(s, thead_maee, buf, start, len, t.entries@, level)
    &&& end <= buf.len()
    &&& forall|k: int| len1 <= k < off ==> buf[k] == 0u8
    &&& forall|i: int|
        0 <= i < t.entries@.len() ==> #[trigger] slot(buf, off, i, ds) == s.descriptor_bytes_spec(
            entry_descriptor(s, thead_maee, t.entries@[i], children[i]),
        )
}

/// `buf` holds the serialisations of the next-level tables of `es`, in order.
pub open spec fn entries_serialized(
    s: Scheme,
    thead_maee: bool,
    buf: Seq<u8>,
    start: int,
    len: int,
    es: Seq<AbstractEntry>,
    level: nat,
) -> bool
    decreases s.num_levels_spec() - level, 0nat, es.len(),
{
    if es.len() == 0 {
        true
    } else {
        let (prev, len1) = place_entries(s, start, len, es.drop_last(), level);
        &&& entries_serialized(s, thead_maee, buf, start, len, es.drop_last(), level)
        &&& match es.last() {
            AbstractEntry::Branch(c) => level + 1 < s.num_levels_spec() ==> serialized(
                s,
                thead_maee,
                buf,
                start,
                len1,
                *c,
                level + 1,
            ),
            _ => true,
        }
    }
}


proof fn lemma_align_up(x: int, a: int)
    requires
        a > 0,
    ensures
        x <= align_up(x, a) < x + a,
        align_up(x, a) % a == 0,
{
    if x % a != 0 {
        assert((x + (a - x % a)) % a == 0) by (nonlinear_arith)
            requires
                a > 0,
                x % a != 0,
        {
            vstd::arithmetic::div_mod::lemma_fundamental_div_mod(x, a);
            vstd::arithmetic::div_mod::lemma_mod_multiples_basic(x / a + 1, a);
            assert(x + (a - x % a) == (x / a + 1) * a) by (nonlinear_arith)
                requires
                    x == a * (x / a) + x % a,
            ;
        }
    }
}

proof fn lemma_slot_in_table(i: int, n: int, ds: int)
    requires
        0 <= i < n,
        0 <= ds,
    ensures
        0 <= i * ds,
        i * ds + ds <= n * ds,
{
    assert(0 <= i * ds) by (nonlinear_arith)
        requires
            0 <= i,
            0 <= ds,
    ;
    assert(i * ds + ds <= n * ds) by (nonlinear_arith)
        requires
            0 <= i < n,
            0 <= ds,
    ;
}

/// Laying out a table never shrinks what is laid out, and its descriptors
/// end the layout.
pub proof fn lemma_place_table_grows(s: Scheme, start: int, len: int, t: Table, level: nat)
    requires
        0 <= start,
        0 <= len,
    ensures
        ({
            let (children, len1) = place_entries(s, start, len, t.entries@, level);
            let (lay, end) = place_table(s, start, len, t, level);
            &&& len <= len1 <= lay.vaddr - start
            &&& end == lay.vaddr - start + t.entries@.len() * s.descriptor_size_spec()
            &&& end >= lay.vaddr - start
            &&& (lay.vaddr) % (s.level_align_spec(level) as int) == 0
            &&& children.len() == t.entries@.len()
            &&& lay.children == children
        }),
    decreases s.num_levels_spec() - level, 1nat, 0nat,
{
    lemma_place_entries_grows(s, start, len, t.entries@, level);
    let (children, len1) = place_entries(s, start, len, t.entries@, level);
    lemma_align_up(start + len1, s.level_align_spec(level) as int);
    assert(t.entries@.len() * s.descriptor_size_spec() >= 0) by (nonlinear_arith);
}

pub proof fn lemma_place_entries_grows(
    s: Scheme,
    start: int,
    len: int,
    es: Seq<AbstractEntry>,
    level: nat,
)
    requires
        0 <= start,
        0 <= len,
    ensures
        place_entries(s, start, len, es, level).1 >= len,
        place_entries(s, start, len, es, level).0.len() == es.len(),
    decreases s.num_levels_spec() - level, 0nat, es.len(),
{
    if es.len() > 0 {
        lemma_place_entries_grows(s, start, len, es.drop_last(), level);
        let (prev, len1) = place_entries(s, start, len, es.drop_last(), level);
        match es.last() {
            AbstractEntry::Branch(c) => {
                if level + 1 < s.num_levels_spec() {
                    lemma_place_table_grows(s, start, len1, *c, level + 1);
                }
            },
            _ => {},
        }
    }
}

/// The layout of a prefix of the entries ends no later than that of all of them.
pub proof fn lemma_place_entries_prefix(
    s: Scheme,
    start: int,
    len: int,
    es: Seq<AbstractEntry>,
    level: nat,
    i: int,
)
    requires
        0 <= start,
        0 <= len,
        0 <= i <= es.len(),
    ensures
        place_entries(s, start, len, es.take(i), level).1 <= place_entries(s, start, len, es, level).1,
    decreases es.len(),
{
    if i == es.len() {
        assert(es.take(i) =~= es);
    } else {
        let p = es.drop_last();
        assert(es.take(i) =~= p.take(i));
        lemma_place_entries_prefix(s, start, len, p, level, i);
        lemma_place_entries_grows(s, start, len, p, level);
        let (prev, len1) = place_entries(s, start, len, p, level);
        match es.last() {
            AbstractEntry::Branch(c) => {
                if level + 1 < s.num_levels_spec() {
                    lemma_place_table_grows(s, start, len1, *c, level + 1);
                }
            },
            _ => {},
        }
    }
}

/// A serialisation stays one when bytes outside it change.
pub proof fn lemma_serialized_frame(
    s: Scheme,
    thead_maee: bool,
    b1: Seq<u8>,
    b2: Seq<u8>,
    start: int,
    len: int,
    t: Table,
    level: nat,
)
    requires
        0 <= start,
        0 <= len,
        serialized(s, thead_maee, b1, start, len, t, level),
        place_table(s, start, len, t, level).1 <= b2.len(),
        forall|k: int| 0 <= k < place_table(s, start, len, t, level).1 ==> b1[k] == b2[k],
    ensures
        serialized(s, thead_maee, b2, start, len, t, level),
    decreases s.num_levels_spec() - level, 1nat, 0nat,
{
    let (children, len1) = place_entries(s, start, len, t.entries@, level);
    let (lay, end) = place_table(s, start, len, t, level);
    let off = lay.vaddr - start;
    let ds = s.descriptor_size_spec() as int;
    lemma_place_table_grows(s, start, len, t, level);
    lemma_entries_serialized_frame(s, thead_maee, b1, b2, start, len, t.entries@, level);
    assert forall|i: int| 0 <= i < t.entries@.len() implies #[trigger] slot(b2, off, i, ds)
        == s.descriptor_bytes_spec(entry_descriptor(s, thead_maee, t.entries@[i], children[i])) by {
        lemma_slot_in_table(i, t.entries@.len() as int, ds);
        assert(slot(b2, off, i, ds) =~= slot(b1, off, i, ds));
    }
}

pub proof fn lemma_entries_serialized_frame(
    s: Scheme,
    thead_maee: bool,
    b1: Seq<u8>,
    b2: Seq<u8>,
    start: int,
    len: int,
    es: Seq<AbstractEntry>,
    level: nat,
)
    requires
        0 <= start,
        0 <= len,
        entries_serialized(s, thead_maee, b1, start, len, es, level),
        place_entries(s, start, len, es, level).1 <= b2.len(),
        forall|k: int| 0 <= k < place_entries(s, start, len, es, level).1 ==> b1[k] == b2[k],
    ensures
        entries_serialized(s, thead_maee, b2, start, len, es, level),
    decreases s.num_levels_spec() - level, 0nat, es.len(),
{
    if es.len() > 0 {
        let p = es.drop_last();
        lemma_place_entries_grows(s, start, len, p, level);
        let (prev, len1) = place_entries(s, start, len, p, level);
        match es.last() {
            AbstractEntry::Branch(c) => {
                if level + 1 < s.num_levels_spec() {
                    lemma_place_table_grows(s, start, len1, *c, level + 1);
                    lemma_serialized_frame(s, thead_maee, b1, b2, start, len1, *c, level + 1);
                }
            },
            _ => {},
        }
        lemma_entries_serialized_frame(s, thead_maee, b1, b2, start, len, p, level);
    }
}


/// The least multiple of `m` that is at least `x`.
pub fn next_multiple_of(x: u64, m: u64) -> (r: u64)
    requires
        m > 0,
        align_up(x as int, m as int) <= u64::MAX,
    ensures
        r == align_up(x as int, m as int),
{
    let rem = x % m;
    if rem == 0 {
        x
    } else {
        x + (m - rem)
    }
}

/// An upper bound on the bytes that laying out a complete table at `level`
/// adds: its next-level tables, its padding and its descriptors.
pub open spec fn embed_bound(s: Scheme, level: nat) -> nat
    decreases s.num_levels_spec() - level,
{
    if level < s.num_levels_spec() {
        let below: nat = if level + 1 < s.num_levels_spec() {
            embed_bound(s, level + 1)
        } else {
            0
        };
        s.num_entries_spec(level) * below + s.table_bytes_spec(level) + s.level_align_spec(level)
    } else {
        0
    }
}

/// Laying out a complete table adds at most `embed_bound` bytes.
pub proof fn lemma_place_table_bound(s: Scheme, start: int, len: int, t: Table, level: nat)
    requires
        0 <= start,
        0 <= len,
        well_formed(s, t, level),
    ensures
        place_table(s, start, len, t, level).1 <= len + embed_bound(s, level),
    decreases s.num_levels_spec() - level, 1nat,
{
    let below: nat = if level + 1 < s.num_levels_spec() {
        embed_bound(s, level + 1)
    } else {
        0
    };
    lemma_place_entries_bound(s, start, len, t.entries@, level);
    let (children, len1) = place_entries(s, start, len, t.entries@, level);
    lemma_align_up(start + len1, s.level_align_spec(level) as int);
    let n = s.num_entries_spec(level);
    assert(len1 <= len + n * below);
    assert(n * s.descriptor_size_spec() == s.table_bytes_spec(level));
}

pub proof fn lemma_place_entries_bound(
    s: Scheme,
    start: int,
    len: int,
    es: Seq<AbstractEntry>,
    level: nat,
)
    requires
        0 <= start,
        0 <= len,
        forall|i: int|
            0 <= i < es.len() ==> match #[trigger] es[i] {
                AbstractEntry::Branch(c) => level + 1 < s.num_levels_spec() && well_formed(
                    s,
                    *c,
                    level + 1,
                ),
                _ => true,
            },
    ensures
        place_entries(s, start, len, es, level).1 <= len + es.len() * (if level + 1
            < s.num_levels_spec() {
            embed_bound(s, level + 1)
        } else {
            0
        }),
    decreases s.num_levels_spec() - level, 0nat, es.len(),
{
    let below: int = if level + 1 < s.num_levels_spec() {
        embed_bound(s, level + 1) as int
    } else {
        0
    };
    if es.len() > 0 {
        let p = es.drop_last();
        assert forall|i: int| 0 <= i < p.len() implies match #[trigger] p[i] {
            AbstractEntry::Branch(c) => level + 1 < s.num_levels_spec() && well_formed(s, *c, level + 1),
            _ => true,
        } by {
            assert(p[i] == es[i]);
        }
        lemma_place_entries_bound(s, start, len, p, level);
        lemma_place_entries_grows(s, start, len, p, level);
        let (prev, len1) = place_entries(s, start, len, p, level);
        assert(es.last() == es[es.len() - 1]);
        match es.last() {
            AbstractEntry::Branch(c) => {
                lemma_place_table_bound(s, start, len1, *c, level + 1);
            },
            _ => {},
        }
        assert(below >= 0);
        assert(p.len() * below + below == es.len() * below) by (nonlinear_arith)
            requires
                p.len() + 1 == es.len(),
        ;
        assert(p.len() * below >= 0) by (nonlinear_arith)
            requires
                below >= 0,
        ;
    }
}

/// With `thead_maee`, a stored descriptor differs from the plain one only in
/// the branch descriptors of the RISC-V schemes, which gain the T-Head
/// attribute bits that they otherwise lack.
pub proof fn lemma_thead_marks_branch_descriptors(
    s: Scheme,
    e: AbstractEntry,
    child: Option<Layout>,
)
    ensures
        ({
            let plain = entry_descriptor(s, false, e, child);
            let marked = entry_descriptor(s, true, e, child);
            if s.is_riscv() && e is Branch && child is Some {
                &&& plain & THEAD_PMA == 0
                &&& marked == plain | THEAD_PMA
                &&& marked & THEAD_PMA == THEAD_PMA
                &&& plain == marked & !THEAD_PMA
            } else {
                marked == plain
            }
        }),
{
    if s.is_riscv() && e is Branch && child is Some {
        let d = s.branch_descriptor_spec(child->0.vaddr as u64);
        crate::scheme::lemma_riscv_branch_descriptor_pma_clear(s, child->0.vaddr as u64);
        assert((d | 0x7000_0000_0000_0000) & 0x7000_0000_0000_0000 == 0x7000_0000_0000_0000)
            by (bit_vector);
        assert((d | 0x7000_0000_0000_0000) & !0x7000_0000_0000_0000u64 == d) by (bit_vector)
            requires
                d & 0x7000_0000_0000_0000 == 0,
        ;
    }
}

/// `t1` and `t2` have the same entries, next-level tables included.
pub open spec fn same_tree(s: Scheme, t1: Table, t2: Table, level: nat) -> bool
    decreases s.num_levels_spec() - level, 1nat,
{
    &&& t1.entries@.len() == t2.entries@.len()
    &&& forall|i: int|
        0 <= i < t1.entries@.len() ==> same_entry(s, #[trigger] t1.entries@[i], t2.entries@[i], level)
}

pub open spec fn same_entry(s: Scheme, e1: AbstractEntry, e2: AbstractEntry, level: nat) -> bool
    decreases s.num_levels_spec() - level, 0nat,
{
    match (e1, e2) {
        (AbstractEntry::Empty, AbstractEntry::Empty) => true,
        (AbstractEntry::Leaf(a), AbstractEntry::Leaf(b)) => a == b,
        (AbstractEntry::Branch(c1), AbstractEntry::Branch(c2)) => level + 1 < s.num_levels_spec()
            ==> same_tree(s, *c1, *c2, level + 1),
        _ => false,
    }
}

pub open spec fn same_entries(s: Scheme, es1: Seq<AbstractEntry>, es2: Seq<AbstractEntry>, level: nat) -> bool {
    &&& es1.len() == es2.len()
    &&& forall|i: int| 0 <= i < es1.len() ==> same_entry(s, #[trigger] es1[i], es2[i], level)
}

/// Tables with the same entries are laid out the same way.
pub proof fn lemma_same_tree_place(s: Scheme, start: int, len: int, t1: Table, t2: Table, level: nat)
    requires
        same_tree(s, t1, t2, level),
    ensures
        place_table(s, start, len, t1, level) == place_table(s, start, len, t2, level),
        place_entries(s, start, len, t1.entries@, level) == place_entries(s, start, len, t2.entries@, level),
    decreases s.num_levels_spec() - level, 1nat, 0nat,
{
    lemma_same_entries_place(s, start, len, t1.entries@, t2.entries@, level);
}

pub proof fn lemma_same_entries_place(
    s: Scheme,
    start: int,
    len: int,
    es1: Seq<AbstractEntry>,
    es2: Seq<AbstractEntry>,
    level: nat,
)
    requires
        same_entries(s, es1, es2, level),
    ensures
        place_entries(s, start, len, es1, level) == place_entries(s, start, len, es2, level),
    decreases s.num_levels_spec() - level, 0nat, es1.len(),
{
    if es1.len() > 0 {
        let p1 = es1.drop_last();
        let p2 = es2.drop_last();
        assert forall|i: int| 0 <= i < p1.len() implies same_entry(s, #[trigger] p1[i], p2[i], level) by {
            assert(p1[i] == es1[i] && p2[i] == es2[i]);
        }
        lemma_same_entries_place(s, start, len, p1, p2, level);
        let (prev, len1) = place_entries(s, start, len, p1, level);
        assert(same_entry(s, es1[es1.len() - 1], es2[es2.len() - 1], level));
        match (es1.last(), es2.last()) {
            (AbstractEntry::Branch(c1), AbstractEntry::Branch(c2)) => {
                if level + 1 < s.num_levels_spec() {
                    lemma_same_tree_place(s, start, len1, *c1, *c2, level + 1);
                }
            },
            _ => {},
        }
    }
}

/// A serialisation of one table is one of any table with the same entries.
pub proof fn lemma_same_tree_serialized(
    s: Scheme,
    thead_maee: bool,
    buf: Seq<u8>,
    start: int,
    len: int,
    t1: Table,
    t2: Table,
    level: nat,
)
    requires
        same_tree(s, t1, t2, level),
        serialized(s, thead_maee, buf, start, len, t1, level),
    ensures
        serialized(s, thead_maee, buf, start, len, t2, level),
    decreases s.num_levels_spec() - level, 1nat, 0nat,
{
    lemma_same_tree_place(s, start, len, t1, t2, level);
    lemma_same_entries_serialized(s, thead_maee, buf, start, len, t1.entries@, t2.entries@, level);
    let (children, len1) = place_entries(s, start, len, t1.entries@, level);
    let (lay, end) = place_table(s, start, len, t1, level);
    let off = lay.vaddr - start;
    let ds = s.descriptor_size_spec() as int;
    assert forall|i: int| 0 <= i < t2.entries@.len() implies #[trigger] slot(buf, off, i, ds)
        == s.descriptor_bytes_spec(entry_descriptor(s, thead_maee, t2.entries@[i], children[i])) by {
        assert(same_entry(s, t1.entries@[i], t2.entries@[i], level));
        assert(slot(buf, off, i, ds) == s.descriptor_bytes_spec(
            entry_descriptor(s, thead_maee, t1.entries@[i], children[i]),
        ));
    }
}

pub proof fn lemma_same_entries_serialized(
    s: Scheme,
    thead_maee: bool,
    buf: Seq<u8>,
    start: int,
    len: int,
    es1: Seq<AbstractEntry>,
    es2: Seq<AbstractEntry>,
    level: nat,
)
    requires
        same_entries(s, es1, es2, level),
        entries_serialized(s, thead_maee, buf, start, len, es1, level),
    ensures
        entries_serialized(s, thead_maee, buf, start, len, es2, level),
    decreases s.num_levels_spec() - level, 0nat, es1.len(),
{
    if es1.len() > 0 {
        let p1 = es1.drop_last();
        let p2 = es2.drop_last();
        assert forall|i: int| 0 <= i < p1.len() implies same_entry(s, #[trigger] p1[i], p2[i], level) by {
            assert(p1[i] == es1[i] && p2[i] == es2[i]);
        }
        lemma_same_entries_serialized(s, thead_maee, buf, start, len, p1, p2, level);
        lemma_same_entries_place(s, start, len, p1, p2, level);
        let (prev, len1) = place_entries(s, start, len, p1, level);
        assert(same_entry(s, es1[es1.len() - 1], es2[es2.len() - 1], level));
        match (es1.last(), es2.last()) {
            (AbstractEntry::Branch(c1), AbstractEntry::Branch(c2)) => {
                if level + 1 < s.num_levels_spec() {
                    lemma_same_tree_serialized(s, thead_maee, buf, start, len1, *c1, *c2, level + 1);
                }
            },
            _ => {},
        }
    }
}

/// The byte a stored Sv39 branch descriptor has in its top byte.
pub open spec fn mark_byte(thead_maee: bool) -> u8 {
    if thead_maee {
        0x70
    } else {
        0
    }
}

/// Byte `k` of the serialisation of `t` (laid out from `len`) is the top byte
/// of a branch descriptor of an Sv39 table, where the T-Head bits go.
pub open spec fn mark_pos(s: Scheme, start: int, len: int, t: Table, level: nat, k: int) -> bool
    decreases s.num_levels_spec() - level, 1nat, 0nat,
{
    let (children, len1) = place_entries(s, start, len, t.entries@, level);
    let (lay, end) = place_table(s, start, len, t, level);
    let off = lay.vaddr - start;
    let i = (k - off) / 8;
    &&& s is RiscVSv39
    &&& {
        ||| entries_mark_pos(s, start, len, t.entries@, level, k)
        ||| (off <= k < end && (k - off) % 8 == 7 && t.entries@[i] is Branch && children[i] is Some)
    }
}

pub open spec fn entries_mark_pos(
    s: Scheme,
    start: int,
    len: int,
    es: Seq<AbstractEntry>,
    level: nat,
    k: int,
) -> bool
    decreases s.num_levels_spec() - level, 0nat, es.len(),
{
    if es.len() == 0 {
        false
    } else {
        let (prev, len1) = place_entries(s, start, len, es.drop_last(), level);
        ||| entries_mark_pos(s, start, len, es.drop_last(), level, k)
        ||| match es.last() {
            AbstractEntry::Branch(c) => level + 1 < s.num_levels_spec() && mark_pos(
                s,
                start,
                len1,
                *c,
                level + 1,
                k,
            ),
            _ => false,
        }
    }
}

proof fn lemma_mark_bounds(s: Scheme, start: int, len: int, t: Table, level: nat, k: int)
    requires
        0 <= start,
        0 <= len,
    ensures
        entries_mark_pos(s, start, len, t.entries@, level, k) ==> len <= k < place_entries(
            s,
            start,
            len,
            t.entries@,
            level,
        ).1,
        mark_pos(s, start, len, t, level, k) ==> len <= k < place_table(s, start, len, t, level).1,
    decreases s.num_levels_spec() - level, 1nat, 0nat,
{
    lemma_place_table_grows(s, start, len, t, level);
    lemma_entries_mark_bounds(s, start, len, t.entries@, level, k);
}

proof fn lemma_entries_mark_bounds(
    s: Scheme,
    start: int,
    len: int,
    es: Seq<AbstractEntry>,
    level: nat,
    k: int,
)
    requires
        0 <= start,
        0 <= len,
    ensures
        entries_mark_pos(s, start, len, es, level, k) ==> len <= k < place_entries(s, start, len, es, level).1,
    decreases s.num_levels_spec() - level, 0nat, es.len(),
{
    if es.len() > 0 {
        let p = es.drop_last();
        lemma_entries_mark_bounds(s, start, len, p, level, k);
        lemma_place_entries_grows(s, start, len, p, level);
        let (prev, len1) = place_entries(s, start, len, p, level);
        match es.last() {
            AbstractEntry::Branch(c) => {
                if level + 1 < s.num_levels_spec() {
                    lemma_mark_bounds(s, start, len1, *c, level + 1, k);
                    lemma_place_table_grows(s, start, len1, *c, level + 1);
                }
            },
            _ => {},
        }
    }
}

proof fn lemma_pma_low_byte(d: u64, sh: u64)
    requires
        sh <= 48,
    ensures
        ((d | 0x7000_0000_0000_0000) >> sh) & 0xff == (d >> sh) & 0xff,
{
    assert(((d | 0x7000_0000_0000_0000) >> sh) & 0xff == (d >> sh) & 0xff) by (bit_vector)
        requires
            sh <= 48,
    ;
}

proof fn lemma_sv39_branch_top_byte(paddr: u64)
    ensures
        (Scheme::RiscVSv39.branch_descriptor_spec(paddr) >> 56u64) & 0xff == 0,
        ((Scheme::RiscVSv39.branch_descriptor_spec(paddr) | 0x7000_0000_0000_0000) >> 56u64) & 0xff
            == 0x70,
{
    let d = Scheme::RiscVSv39.branch_descriptor_spec(paddr);
    assert(d == (((paddr >> 12u64) & 0x0fff_ffff_ffff) << 10u64) | 0b1);
    assert(((((paddr >> 12u64) & 0x0fff_ffff_ffff) << 10u64) | 0b1) >> 56u64 & 0xff == 0)
        by (bit_vector);
    assert((((((paddr >> 12u64) & 0x0fff_ffff_ffff) << 10u64) | 0b1) | 0x7000_0000_0000_0000)
        >> 56u64 & 0xff == 0x70) by (bit_vector);
}

/// Byte `off + i * ds + j` of a buffer is byte `j` of slot `i`.
proof fn lemma_slot_byte(buf: Seq<u8>, off: int, k: int, ds: int, n: int)
    requires
        ds > 0,
        off <= k < off + n * ds,
        off + n * ds <= buf.len(),
        0 <= off,
    ensures
        0 <= (k - off) / ds < n,
        0 <= (k - off) % ds < ds,
        slot(buf, off, (k - off) / ds, ds)[(k - off) % ds] == buf[k],
{
    let i = (k - off) / ds;
    let j = (k - off) % ds;
    vstd::arithmetic::div_mod::lemma_fundamental_div_mod(k - off, ds);
    assert(0 <= i < n) by (nonlinear_arith)
        requires
            k - off == ds * i + j,
            0 <= j < ds,
            k - off < n * ds,
            0 <= k - off,
    ;
    assert(i * ds == ds * i) by (nonlinear_arith);
    lemma_slot_in_table(i, n, ds);
}

/// At byte `k`, two buffers hold their `mark_byte`s if `marked`, the same
/// byte otherwise.
pub open spec fn compared(marked: bool, th1: bool, th2: bool, b1: Seq<u8>, b2: Seq<u8>, k: int) -> bool {
    if marked {
        b1[k] == mark_byte(th1) && b2[k] == mark_byte(th2)
    } else {
        b1[k] == b2[k]
    }
}

/// Two serialisations of one table agree on every byte but the top bytes of
/// Sv39 branch descriptors, where each holds its `mark_byte`.
pub proof fn lemma_serialized_compare(
    s: Scheme,
    th1: bool,
    th2: bool,
    b1: Seq<u8>,
    b2: Seq<u8>,
    start: int,
    len: int,
    t: Table,
    level: nat,
)
    requires
        0 <= start,
        0 <= len,
        serialized(s, th1, b1, start, len, t, level),
        serialized(s, th2, b2, start, len, t, level),
    ensures
        forall|k: int|
            len <= k < place_table(s, start, len, t, level).1 ==> #[trigger] compared(
                mark_pos(s, start, len, t, level, k),
                th1,
                th2,
                b1,
                b2,
                k,
            ),
    decreases s.num_levels_spec() - level, 1nat, 0nat,
{
    let (children, len1) = place_entries(s, start, len, t.entries@, level);
    let (lay, end) = place_table(s, start, len, t, level);
    let off = lay.vaddr - start;
    let ds = s.descriptor_size_spec() as int;
    let n = t.entries@.len() as int;
    lemma_place_table_grows(s, start, len, t, level);
    lemma_entries_compare(s, th1, th2, b1, b2, start, len, t.entries@, level);
    assert forall|k: int| len <= k < place_table(s, start, len, t, level).1 implies #[trigger] compared(
        mark_pos(s, start, len, t, level, k),
        th1,
        th2,
        b1,
        b2,
        k,
    ) by {
        lemma_mark_bounds(s, start, len, t, level, k);
        if k < len1 {
            assert(!(off <= k));
            assert(mark_pos(s, start, len, t, level, k) == (s is RiscVSv39 && entries_mark_pos(
                s,
                start,
                len,
                t.entries@,
                level,
                k,
            )));
            if !(s is RiscVSv39) && entries_mark_pos(s, start, len, t.entries@, level, k) {
                lemma_entries_no_marks(s, start, len, t.entries@, level, k);
            }
        } else if k < off {
            assert(!entries_mark_pos(s, start, len, t.entries@, level, k));
            assert(!mark_pos(s, start, len, t, level, k));
            assert(b1[k] == 0u8 && b2[k] == 0u8);
        } else {
            assert(!entries_mark_pos(s, start, len, t.entries@, level, k));
            lemma_slot_case(s, th1, th2, b1, b2, start, len, t, level, k);
        }
        if mark_pos(s, start, len, t, level, k) {
            assert(b1[k] == mark_byte(th1));
            assert(b2[k] == mark_byte(th2));
        } else {
            assert(b1[k] == b2[k]);
        }
    }
}

proof fn lemma_entries_no_marks(
    s: Scheme,
    start: int,
    len: int,
    es: Seq<AbstractEntry>,
    level: nat,
    k: int,
)
    requires
        !(s is RiscVSv39),
    ensures
        !entries_mark_pos(s, start, len, es, level, k),
    decreases es.len(),
{
    if es.len() > 0 {
        lemma_entries_no_marks(s, start, len, es.drop_last(), level, k);
        let (prev, len1) = place_entries(s, start, len, es.drop_last(), level);
        match es.last() {
            AbstractEntry::Branch(c) => {
                assert(!mark_pos(s, start, len1, *c, level + 1, k));
            },
            _ => {},
        }
    }
}

proof fn lemma_slot_case(
    s: Scheme,
    th1: bool,
    th2: bool,
    b1: Seq<u8>,
    b2: Seq<u8>,
    start: int,
    len: int,
    t: Table,
    level: nat,
    k: int,
)
    requires
        0 <= start,
        0 <= len,
        serialized(s, th1, b1, start, len, t, level),
        serialized(s, th2, b2, start, len, t, level),
        place_table(s, start, len, t, level).0.vaddr - start <= k < place_table(s, start, len, t, level).1,
        !entries_mark_pos(s, start, len, t.entries@, level, k),
    ensures
        if mark_pos(s, start, len, t, level, k) {
            b1[k] == mark_byte(th1) && b2[k] == mark_byte(th2)
        } else {
            b1[k] == b2[k]
        },
{
    let (children, len1) = place_entries(s, start, len, t.entries@, level);
    let (lay, end) = place_table(s, start, len, t, level);
    let off = lay.vaddr - start;
    let ds = s.descriptor_size_spec() as int;
    let n = t.entries@.len() as int;
    lemma_place_table_grows(s, start, len, t, level);
    lemma_slot_byte(b1, off, k, ds, n);
    lemma_slot_byte(b2, off, k, ds, n);
    let i = (k - off) / ds;
    let j = (k - off) % ds;
    let e = t.entries@[i];
    let d1 = entry_descriptor(s, th1, e, children[i]);
    let d2 = entry_descriptor(s, th2, e, children[i]);
    assert(slot(b1, off, i, ds) == s.descriptor_bytes_spec(d1));
    assert(slot(b2, off, i, ds) == s.descriptor_bytes_spec(d2));
    assert(s.descriptor_bytes_spec(d1)[j] == ((d1 >> (8 * j) as u64) & 0xff) as u8);
    assert(s.descriptor_bytes_spec(d2)[j] == ((d2 >> (8 * j) as u64) & 0xff) as u8);
    assert(b1[k] == ((d1 >> (8 * j) as u64) & 0xff) as u8);
    assert(b2[k] == ((d2 >> (8 * j) as u64) & 0xff) as u8);
    if s is RiscVSv39 {
        assert(ds == 8);
        assert(mark_pos(s, start, len, t, level, k) == ((k - off) % 8 == 7 && e is Branch
            && children[i] is Some));
    } else {
        assert(!mark_pos(s, start, len, t, level, k));
    }
    if e is Branch && children[i] is Some && s.is_riscv() {
        let bd = s.branch_descriptor_spec(children[i]->0.vaddr as u64);
        assert(d1 == branch_mark(s, th1, bd));
        assert(d2 == branch_mark(s, th2, bd));
        if j < 7 {
            lemma_pma_low_byte(bd, (8 * j) as u64);
            assert(((d1 >> (8 * j) as u64) & 0xff) == ((d2 >> (8 * j) as u64) & 0xff));
        } else {
            assert(s is RiscVSv39);
            lemma_sv39_branch_top_byte(children[i]->0.vaddr as u64);
            assert((8 * j) as u64 == 56u64);
        }
    } else {
        assert(d1 == d2);
    }
}

pub proof fn lemma_entries_compare(
    s: Scheme,
    th1: bool,
    th2: bool,
    b1: Seq<u8>,
    b2: Seq<u8>,
    start: int,
    len: int,
    es: Seq<AbstractEntry>,
    level: nat,
)
    requires
        0 <= start,
        0 <= len,
        entries_serialized(s, th1, b1, start, len, es, level),
        entries_serialized(s, th2, b2, start, len, es, level),
    ensures
        forall|k: int|
            len <= k < place_entries(s, start, len, es, level).1 ==> if entries_mark_pos(
                s,
                start,
                len,
                es,
                level,
                k,
            ) {
                b1[k] == mark_byte(th1) && b2[k] == mark_byte(th2)
            } else {
                #[trigger] b1[k] == b2[k]
            },
    decreases s.num_levels_spec() - level, 0nat, es.len(),
{
    if es.len() > 0 {
        let p = es.drop_last();
        lemma_entries_compare(s, th1, th2, b1, b2, start, len, p, level);
        lemma_place_entries_grows(s, start, len, p, level);
        let (prev, len1) = place_entries(s, start, len, p, level);
        let end = place_entries(s, start, len, es, level).1;
        let deeper = match es.last() {
            AbstractEntry::Branch(c) => level + 1 < s.num_levels_spec(),
            _ => false,
        };
        if deeper {
            let c = es.last()->Branch_0;
            lemma_serialized_compare(s, th1, th2, b1, b2, start, len1, *c, level + 1);
            lemma_place_table_grows(s, start, len1, *c, level + 1);
        }
        assert forall|k: int| len <= k < place_entries(s, start, len, es, level).1 implies if entries_mark_pos(
            s,
            start,
            len,
            es,
            level,
            k,
        ) {
            b1[k] == mark_byte(th1) && b2[k] == mark_byte(th2)
        } else {
            #[trigger] b1[k] == b2[k]
        } by {
            lemma_entries_mark_bounds(s, start, len, p, level, k);
            if deeper {
                let c = es.last()->Branch_0;
                assert(es.last() == AbstractEntry::Branch(c));
                reveal_with_fuel(entries_mark_pos, 2);
                assert(entries_mark_pos(s, start, len, es, level, k) == (entries_mark_pos(
                    s,
                    start,
                    len,
                    p,
                    level,
                    k,
                ) || mark_pos(s, start, len1, *c, level + 1, k)));
                lemma_mark_bounds(s, start, len1, *c, level + 1, k);
                if k < len1 {
                    assert(!mark_pos(s, start, len1, *c, level + 1, k));
                } else {
                    assert(!entries_mark_pos(s, start, len, p, level, k));
                    assert(compared(mark_pos(s, start, len1, *c, level + 1, k), th1, th2, b1, b2, k));
                }
            } else {
                assert(end == len1);
                assert(entries_mark_pos(s, start, len, es, level, k) == entries_mark_pos(
                    s,
                    start,
                    len,
                    p,
                    level,
                    k,
                ));
            }
            if entries_mark_pos(s, start, len, es, level, k) {
                assert(b1[k] == mark_byte(th1));
                assert(b2[k] == mark_byte(th2));
            } else {
                assert(b1[k] == b2[k]);
            }
        }
    }
}

/// Embedding a table with and without `thead_maee` gives buffers that agree
/// everywhere (next-level tables and padding included) except at the top
/// byte of each Sv39 branch descriptor, which is 0 without the marking and
/// 0x70 (bits 60..62 of the descriptor) with it. On every other scheme the
/// buffers agree everywhere: Arm branch descriptors are never marked, and
/// Sv32's 4-byte descriptors do not hold bits 59..63.
pub proof fn lemma_thead_embedding(
    s: Scheme,
    start: int,
    len: int,
    t: Table,
    level: nat,
    plain: Seq<u8>,
    marked: Seq<u8>,
)
    requires
        0 <= start,
        0 <= len,
        serialized(s, false, plain, start, len, t, level),
        serialized(s, true, marked, start, len, t, level),
    ensures
        forall|k: int|
            len <= k < place_table(s, start, len, t, level).1 ==> if mark_pos(
                s,
                start,
                len,
                t,
                level,
                k,
            ) {
                plain[k] == 0 && marked[k] == 0x70
            } else {
                #[trigger] plain[k] == marked[k]
            },
        !(s is RiscVSv39) ==> forall|k: int|
            len <= k < place_table(s, start, len, t, level).1 ==> #[trigger] plain[k] == marked[k],
{
    lemma_serialized_compare(s, false, true, plain, marked, start, len, t, level);
    assert forall|k: int| len <= k < place_table(s, start, len, t, level).1 implies if mark_pos(
        s,
        start,
        len,
        t,
        level,
        k,
    ) {
        plain[k] == 0 && marked[k] == 0x70
    } else {
        #[trigger] plain[k] == marked[k]
    } by {
        assert(compared(mark_pos(s, start, len, t, level, k), false, true, plain, marked, k));
    }
    assert forall|k: int| len <= k < place_table(s, start, len, t, level).1 && !(s is RiscVSv39)
        implies #[trigger] plain[k] == marked[k] by {
        assert(compared(mark_pos(s, start, len, t, level, k), false, true, plain, marked, k));
    }
}

/// Off Sv39, `thead_maee` does not change a serialisation at all.
pub proof fn lemma_thead_irrelevant_off_sv39(
    s: Scheme,
    start: int,
    t: Table,
    plain: Seq<u8>,
    marked: Seq<u8>,
)
    requires
        !(s is RiscVSv39),
        0 <= start,
        serialized(s, false, plain, start, 0, t, 0),
        serialized(s, true, marked, start, 0, t, 0),
        plain.len() == place_table(s, start, 0, t, 0).1,
        marked.len() == place_table(s, start, 0, t, 0).1,
    ensures
        plain == marked,
{
    lemma_thead_embedding(s, start, 0, t, 0, plain, marked);
    assert(plain =~= marked);
}

/// A serialisation is unique: two buffers that serialise the same table
/// from the same offset agree on every byte of it.
pub proof fn lemma_serialized_unique(
    s: Scheme,
    thead_maee: bool,
    b1: Seq<u8>,
    b2: Seq<u8>,
    start: int,
    len: int,
    t: Table,
    level: nat,
)
    requires
        0 <= start,
        0 <= len,
        serialized(s, thead_maee, b1, start, len, t, level),
        serialized(s, thead_maee, b2, start, len, t, level),
    ensures
        forall|k: int| len <= k < place_table(s, start, len, t, level).1 ==> #[trigger] b1[k] == b2[k],
{
    lemma_serialized_compare(s, thead_maee, thead_maee, b1, b2, start, len, t, level);
    assert forall|k: int| len <= k < place_table(s, start, len, t, level).1 implies #[trigger] b1[k]
        == b2[k] by {
        assert(compared(mark_pos(s, start, len, t, level, k), thead_maee, thead_maee, b1, b2, k));
    }
}

proof fn lemma_align_up_shift(x: int, d: int, a: int)
    requires
        a > 0,
        d % a == 0,
    ensures
        align_up(x + d, a) == align_up(x, a) + d,
{
    vstd::arithmetic::div_mod::lemma_fundamental_div_mod(d, a);
    let q = d / a;
    assert(d == a * q);
    vstd::arithmetic::div_mod::lemma_mod_add_multiples_vanish(x, a);
    assert((x + d) % a == x % a) by {
        vstd::arithmetic::div_mod::lemma_mod_multiples_vanish(q, x, a);
        assert(a * q + x == x + d);
    }
}

/// Every table of the scheme is aligned to a divisor of this.
pub open spec fn max_table_align() -> int {
    0x4000
}

proof fn lemma_level_align_divides(s: Scheme, level: nat, d: int)
    requires
        d % max_table_align() == 0,
    ensures
        s.level_align_spec(level) > 0,
        d % (s.level_align_spec(level) as int) == 0,
{
    let a = s.level_align_spec(level) as int;
    vstd::arithmetic::div_mod::lemma_fundamental_div_mod(d, 0x4000);
    let q = d / 0x4000;
    assert(0x4000 == a * (0x4000int / a));
    vstd::arithmetic::div_mod::lemma_mod_multiples_basic(q * (0x4000int / a), a);
    assert(d == (q * (0x4000int / a)) * a) by (nonlinear_arith)
        requires
            d == 0x4000 * q,
            0x4000 == a * (0x4000int / a),
    ;
}

/// The next-level tables of `c2` are those of `c1`, moved by `d`.
pub open spec fn children_shifted(c1: Seq<Option<Layout>>, c2: Seq<Option<Layout>>, d: int) -> bool {
    &&& c1.len() == c2.len()
    &&& forall|i: int|
        0 <= i < c1.len() ==> ((#[trigger] c1[i]) is Some) == (c2[i] is Some) && (c1[i] is Some
            ==> c2[i]->0.vaddr == c1[i]->0.vaddr + d)
}

/// Laying out from a start moved by a multiple of every table alignment moves
/// every table by the same amount and changes nothing else.
pub proof fn lemma_place_table_shift(s: Scheme, start: int, d: int, len: int, t: Table, level: nat)
    requires
        d % max_table_align() == 0,
    ensures
        place_table(s, start + d, len, t, level).1 == place_table(s, start, len, t, level).1,
        place_table(s, start + d, len, t, level).0.vaddr == place_table(s, start, len, t, level).0.vaddr
            + d,
        place_entries(s, start + d, len, t.entries@, level).1 == place_entries(
            s,
            start,
            len,
            t.entries@,
            level,
        ).1,
        children_shifted(
            place_entries(s, start, len, t.entries@, level).0,
            place_entries(s, start + d, len, t.entries@, level).0,
            d,
        ),
    decreases s.num_levels_spec() - level, 1nat, 0nat,
{
    lemma_place_entries_shift(s, start, d, len, t.entries@, level);
    let len1 = place_entries(s, start, len, t.entries@, level).1;
    lemma_level_align_divides(s, level, d);
    lemma_align_up_shift(start + len1, d, s.level_align_spec(level) as int);
}

pub proof fn lemma_place_entries_shift(
    s: Scheme,
    start: int,
    d: int,
    len: int,
    es: Seq<AbstractEntry>,
    level: nat,
)
    requires
        d % max_table_align() == 0,
    ensures
        place_entries(s, start + d, len, es, level).1 == place_entries(s, start, len, es, level).1,
        children_shifted(
            place_entries(s, start, len, es, level).0,
            place_entries(s, start + d, len, es, level).0,
            d,
        ),
    decreases s.num_levels_spec() - level, 0nat, es.len(),
{
    if es.len() > 0 {
        let p = es.drop_last();
        lemma_place_entries_shift(s, start, d, len, p, level);
        let len1 = place_entries(s, start, len, p, level).1;
        match es.last() {
            AbstractEntry::Branch(c) => {
                if level + 1 < s.num_levels_spec() {
                    lemma_place_table_shift(s, start, d, len1, *c, level + 1);
                }
            },
            _ => {},
        }
    }
}

/// Byte `k` of the serialisation of `t` lies in a branch descriptor.
pub open spec fn branch_pos(s: Scheme, start: int, len: int, t: Table, level: nat, k: int) -> bool
    decreases s.num_levels_spec() - level, 1nat, 0nat,
{
    let (children, len1) = place_entries(s, start, len, t.entries@, level);
    let (lay, end) = place_table(s, start, len, t, level);
    let off = lay.vaddr - start;
    let i = (k - off) / (s.descriptor_size_spec() as int);
    ||| entries_branch_pos(s, start, len, t.entries@, level, k)
    ||| (off <= k < end && t.entries@[i] is Branch && children[i] is Some)
}

pub open spec fn entries_branch_pos(
    s: Scheme,
    start: int,
    len: int,
    es: Seq<AbstractEntry>,
    level: nat,
    k: int,
) -> bool
    decreases s.num_levels_spec() - level, 0nat, es.len(),
{
    if es.len() == 0 {
        false
    } else {
        let (prev, len1) = place_entries(s, start, len, es.drop_last(), level);
        ||| entries_branch_pos(s, start, len, es.drop_last(), level, k)
        ||| match es.last() {
            AbstractEntry::Branch(c) => level + 1 < s.num_levels_spec() && branch_pos(
                s,
                start,
                len1,
                *c,
                level + 1,
                k,
            ),
            _ => false,
        }
    }
}

proof fn lemma_branch_pos_bounds(s: Scheme, start: int, len: int, t: Table, level: nat, k: int)
    requires
        0 <= start,
        0 <= len,
    ensures
        entries_branch_pos(s, start, len, t.entries@, level, k) ==> len <= k < place_entries(
            s,
            start,
            len,
            t.entries@,
            level,
        ).1,
        branch_pos(s, start, len, t, level, k) ==> len <= k < place_table(s, start, len, t, level).1,
    decreases s.num_levels_spec() - level, 1nat, 0nat,
{
    lemma_place_table_grows(s, start, len, t, level);
    lemma_entries_branch_pos_bounds(s, start, len, t.entries@, level, k);
}

proof fn lemma_entries_branch_pos_bounds(
    s: Scheme,
    start: int,
    len: int,
    es: Seq<AbstractEntry>,
    level: nat,
    k: int,
)
    requires
        0 <= start,
        0 <= len,
    ensures
        entries_branch_pos(s, start, len, es, level, k) ==> len <= k < place_entries(s, start, len, es, level).1,
    decreases s.num_levels_spec() - level, 0nat, es.len(),
{
    if es.len() > 0 {
        let p = es.drop_last();
        lemma_entries_branch_pos_bounds(s, start, len, p, level, k);
        lemma_place_entries_grows(s, start, len, p, level);
        let (prev, len1) = place_entries(s, start, len, p, level);
        match es.last() {
            AbstractEntry::Branch(c) => {
                if level + 1 < s.num_levels_spec() {
                    lemma_branch_pos_bounds(s, start, len1, *c, level + 1, k);
                    lemma_place_table_grows(s, start, len1, *c, level + 1);
                }
            },
            _ => {},
        }
    }
}

/// At byte `k` two buffers agree unless `k` lies in a branch descriptor.
pub open spec fn agree_off_branches(in_branch: bool, b1: Seq<u8>, b2: Seq<u8>, k: int) -> bool {
    !in_branch ==> b1[k] == b2[k]
}

/// Serialising one table at `start` and at `start + d`, for `d` a multiple of
/// every table alignment, gives bytes that agree everywhere outside the
/// branch descriptors (whose targets move by `d`).
pub proof fn lemma_serialized_shift(
    s: Scheme,
    thead_maee: bool,
    b1: Seq<u8>,
    b2: Seq<u8>,
    start: int,
    d: int,
    len: int,
    t: Table,
    level: nat,
)
    requires
        0 <= start,
        0 <= start + d,
        0 <= len,
        d % max_table_align() == 0,
        serialized(s, thead_maee, b1, start, len, t, level),
        serialized(s, thead_maee, b2, start + d, len, t, level),
    ensures
        forall|k: int|
            len <= k < place_table(s, start, len, t, level).1 ==> #[trigger] agree_off_branches(
                branch_pos(s, start, len, t, level, k),
                b1,
                b2,
                k,
            ),
    decreases s.num_levels_spec() - level, 1nat, 0nat,
{
    let (children, len1) = place_entries(s, start, len, t.entries@, level);
    let (lay, end) = place_table(s, start, len, t, level);
    let children2 = place_entries(s, start + d, len, t.entries@, level).0;
    let off = lay.vaddr - start;
    let ds = s.descriptor_size_spec() as int;
    let n = t.entries@.len() as int;
    lemma_place_table_grows(s, start, len, t, level);
    lemma_place_table_shift(s, start, d, len, t, level);
    lemma_place_entries_grows(s, start, len, t.entries@, level);
    lemma_entries_shift(s, thead_maee, b1, b2, start, d, len, t.entries@, level);
    assert forall|k: int| len <= k < place_table(s, start, len, t, level).1 implies #[trigger] agree_off_branches(
        branch_pos(s, start, len, t, level, k),
        b1,
        b2,
        k,
    ) by {
        lemma_branch_pos_bounds(s, start, len, t, level, k);
        if k < len1 {
            assert(!(off <= k));
            assert(agree_off_branches(entries_branch_pos(s, start, len, t.entries@, level, k), b1, b2, k));
        } else if k < off {
            assert(!entries_branch_pos(s, start, len, t.entries@, level, k));
            assert(b1[k] == 0u8 && b2[k] == 0u8);
        } else if !branch_pos(s, start, len, t, level, k) {
            lemma_slot_byte(b1, off, k, ds, n);
            lemma_slot_byte(b2, off, k, ds, n);
            let i = (k - off) / ds;
            let e = t.entries@[i];
            assert(children2[i] is Some == children[i] is Some);
            assert(entry_descriptor(s, thead_maee, e, children[i]) == entry_descriptor(
                s,
                thead_maee,
                e,
                children2[i],
            ));
            assert(slot(b1, off, i, ds) == slot(b2, off, i, ds));
        }
    }
}

pub proof fn lemma_entries_shift(
    s: Scheme,
    thead_maee: bool,
    b1: Seq<u8>,
    b2: Seq<u8>,
    start: int,
    d: int,
    len: int,
    es: Seq<AbstractEntry>,
    level: nat,
)
    requires
        0 <= start,
        0 <= start + d,
        0 <= len,
        d % max_table_align() == 0,
        entries_serialized(s, thead_maee, b1, start, len, es, level),
        entries_serialized(s, thead_maee, b2, start + d, len, es, level),
    ensures
        forall|k: int|
            len <= k < place_entries(s, start, len, es, level).1 ==> #[trigger] agree_off_branches(
                entries_branch_pos(s, start, len, es, level, k),
                b1,
                b2,
                k,
            ),
    decreases s.num_levels_spec() - level, 0nat, es.len(),
{
    if es.len() > 0 {
        let p = es.drop_last();
        lemma_entries_shift(s, thead_maee, b1, b2, start, d, len, p, level);
        lemma_place_entries_grows(s, start, len, p, level);
        lemma_place_entries_shift(s, start, d, len, p, level);
        let (prev, len1) = place_entries(s, start, len, p, level);
        let deeper = match es.last() {
            AbstractEntry::Branch(c) => level + 1 < s.num_levels_spec(),
            _ => false,
        };
        if deeper {
            let c = es.last()->Branch_0;
            lemma_serialized_shift(s, thead_maee, b1, b2, start, d, len1, *c, level + 1);
            lemma_place_table_grows(s, start, len1, *c, level + 1);
        }
        assert forall|k: int| len <= k < place_entries(s, start, len, es, level).1 implies #[trigger] agree_off_branches(
            entries_branch_pos(s, start, len, es, level, k),
            b1,
            b2,
            k,
        ) by {
            lemma_entries_branch_pos_bounds(s, start, len, p, level, k);
            if deeper {
                let c = es.last()->Branch_0;
                assert(es.last() == AbstractEntry::Branch(c));
                reveal_with_fuel(entries_branch_pos, 2);
                assert(entries_branch_pos(s, start, len, es, level, k) == (entries_branch_pos(
                    s,
                    start,
                    len,
                    p,
                    level,
                    k,
                ) || branch_pos(s, start, len1, *c, level + 1, k)));
                lemma_branch_pos_bounds(s, start, len1, *c, level + 1, k);
                if k < len1 {
                    assert(!branch_pos(s, start, len1, *c, level + 1, k));
                    assert(agree_off_branches(entries_branch_pos(s, start, len, p, level, k), b1, b2, k));
                } else {
                    assert(!entries_branch_pos(s, start, len, p, level, k));
                    assert(agree_off_branches(branch_pos(s, start, len1, *c, level + 1, k), b1, b2, k));
                }
            } else {
                assert(entries_branch_pos(s, start, len, es, level, k) == entries_branch_pos(
                    s,
                    start,
                    len,
                    p,
                    level,
                    k,
                ));
                assert(agree_off_branches(entries_branch_pos(s, start, len, p, level, k), b1, b2, k));
            }
        }
    }
}

/// Embedding a table at `start` and at `start + d`, `d` a multiple of every
/// table alignment: the root moves by `d`, the length stays, every
/// next-level table moves by `d` (so branch descriptors point `d` further),
/// and every byte outside the branch descriptors is the same.
pub proof fn lemma_embedding_shift(
    s: Scheme,
    thead_maee: bool,
    start: int,
    d: int,
    t: Table,
    b1: Seq<u8>,
    b2: Seq<u8>,
)
    requires
        0 <= start,
        0 <= start + d,
        d % max_table_align() == 0,
        serialized(s, thead_maee, b1, start, 0, t, 0),
        serialized(s, thead_maee, b2, start + d, 0, t, 0),
    ensures
        place_table(s, start + d, 0, t, 0).0.vaddr == place_table(s, start, 0, t, 0).0.vaddr + d,
        place_table(s, start + d, 0, t, 0).1 == place_table(s, start, 0, t, 0).1,
        children_shifted(
            place_entries(s, start, 0, t.entries@, 0).0,
            place_entries(s, start + d, 0, t.entries@, 0).0,
            d,
        ),
        forall|k: int|
            0 <= k < place_table(s, start, 0, t, 0).1 && !branch_pos(s, start, 0, t, 0, k) ==> #[trigger] b1[k]
                == b2[k],
{
    lemma_place_table_shift(s, start, d, 0, t, 0);
    lemma_serialized_shift(s, thead_maee, b1, b2, start, d, 0, t, 0);
    assert forall|k: int|
        0 <= k < place_table(s, start, 0, t, 0).1 && !branch_pos(s, start, 0, t, 0, k) implies #[trigger] b1[k]
            == b2[k] by {
        assert(agree_off_branches(branch_pos(s, start, 0, t, 0, k), b1, b2, k));
    }
}

/// A branch entry whose level has a level below it gets a placed table.
pub proof fn lemma_branch_child_placed(
    s: Scheme,
    start: int,
    len: int,
    es: Seq<AbstractEntry>,
    level: nat,
    i: int,
)
    requires
        0 <= start,
        0 <= len,
        0 <= i < es.len(),
        es[i] is Branch,
        level + 1 < s.num_levels_spec(),
    ensures
        place_entries(s, start, len, es, level).0[i] is Some,
    decreases es.len(),
{
    let p = es.drop_last();
    lemma_place_entries_grows(s, start, len, p, level);
    if i < es.len() - 1 {
        lemma_branch_child_placed(s, start, len, p, level, i);
    }
}

/// In a serialised table, each branch entry's stored descriptor is a
/// branch descriptor pointing at the address where its next-level table was
/// laid out (when that address is one the scheme's descriptors can hold).
pub proof fn lemma_branch_slots_point_at_children(
    s: Scheme,
    thead_maee: bool,
    buf: Seq<u8>,
    start: int,
    len: int,
    t: Table,
    level: nat,
    i: int,
)
    requires
        0 <= start,
        0 <= len,
        serialized(s, thead_maee, buf, start, len, t, level),
        0 <= i < t.entries@.len(),
        t.entries@[i] is Branch,
        level + 1 < s.num_levels_spec(),
    ensures
        ({
            let children = place_entries(s, start, len, t.entries@, level).0;
            let lay = place_table(s, start, len, t, level).0;
            let ds = s.descriptor_size_spec() as int;
            &&& children[i] is Some
            &&& 0 <= children[i]->0.vaddr <= u64::MAX && s.table_address_ok(
                children[i]->0.vaddr as u64,
            ) ==> exists|d: u64|
                {
                    &&& #[trigger] slot(buf, lay.vaddr - start, i, ds) == s.descriptor_bytes_spec(d)
                    &&& s.branch_target(d) == children[i]->0.vaddr
                    &&& s.is_branch_descriptor(d)
                }
        }),
{
    lemma_place_entries_grows(s, start, len, t.entries@, level);
    lemma_branch_child_placed(s, start, len, t.entries@, level, i);
    let children = place_entries(s, start, len, t.entries@, level).0;
    let lay = place_table(s, start, len, t, level).0;
    let ds = s.descriptor_size_spec() as int;
    let v = children[i]->0.vaddr;
    if 0 <= v <= u64::MAX && s.table_address_ok(v as u64) {
        crate::scheme::lemma_branch_descriptor_decodes(s, v as u64);
        let d = entry_descriptor(s, thead_maee, t.entries@[i], children[i]);
        assert(slot(buf, lay.vaddr - start, i, ds) == s.descriptor_bytes_spec(d));
        assert(s.branch_target(d) == v);
        assert(s.is_branch_descriptor(d));
    }
}

impl Table {
    /// Serialises the table (a root table, level 0) at virtual address `vaddr`
    /// and returns the bytes and the virtual address of the root table.
    pub fn embed(&self, scheme: &Scheme, vaddr: u64, thead_maee: bool) -> (r: (Vec<u8>, u64))
        requires
            fits(*scheme, *self, 0),
            vaddr + place_table(*scheme, vaddr as int, 0, *self, 0).1 <= u64::MAX,
        ensures
            r.0@.len() == place_table(*scheme, vaddr as int, 0, *self, 0).1,
            r.1 == place_table(*scheme, vaddr as int, 0, *self, 0).0.vaddr,
            serialized(*scheme, thead_maee, r.0@, vaddr as int, 0, *self, 0),
            vaddr <= r.1,
            (r.1 as int) % (scheme.level_align_spec(0) as int) == 0,
            (r.1 as int) % (scheme.table_bytes_spec(0) as int) == 0,
            r.1 + self.entries@.len() * scheme.descriptor_size_spec() == vaddr + r.0@.len(),
    {
        proof {
            lemma_place_table_grows(*scheme, vaddr as int, 0, *self, 0);
            crate::scheme::lemma_tables_aligned_to_their_size(*scheme, 0);
        }
        Embedding::new(scheme, vaddr, thead_maee).embed(self)
    }
}

impl Table {
    /// Where laying out this table (at `level`) after `len` bytes from
    /// `start` ends, when that end still fits in the address space:
    /// `Some(end)` exactly when `start + end <= u64::MAX`.
    pub fn embedded_end(&self, scheme: &Scheme, start: u64, len: u64, level: usize) -> (r: Option<u64>)
        requires
            level < scheme.num_levels_spec(),
            fits(*scheme, *self, level as nat),
            start + len <= u64::MAX,
        ensures
            ({
                let end = place_table(*scheme, start as int, len as int, *self, level as nat).1;
                match r {
                    Some(e) => e == end && start + end <= u64::MAX,
                    None => start + end > u64::MAX,
                }
            }),
        decreases 4 - level,
    {
        let ghost s = *scheme;
        let ghost es = self.entries@;
        let ghost (lay, end) = place_table(s, start as int, len as int, *self, level as nat);
        proof {
            lemma_place_table_grows(s, start as int, len as int, *self, level as nat);
            assert(es.take(0) =~= Seq::<AbstractEntry>::empty());
        }
        let n = self.entries.len();
        let mut cur: u64 = len;
        let mut i: usize = 0;
        while i < n
            invariant
                s == *scheme,
                es == self.entries@,
                n == es.len(),
                0 <= i <= n,
                level < s.num_levels_spec(),
                s.num_levels_spec() <= 4,
                fits(s, *self, level as nat),
                (lay, end) == place_table(s, start as int, len as int, *self, level as nat),
                place_entries(s, start as int, len as int, es, level as nat).1 <= end,
                cur == place_entries(s, start as int, len as int, es.take(i as int), level as nat).1,
                start + cur <= u64::MAX,
            decreases n - i,
        {
            proof {
                assert(es.take(i + 1).drop_last() =~= es.take(i as int));
                assert(es.take(i + 1).last() == es[i as int]);
                lemma_place_entries_prefix(s, start as int, len as int, es, level as nat, i + 1);
                assert(match self.entries@[i as int] {
                    AbstractEntry::Branch(c) => level + 1 < s.num_levels_spec() && fits(
                        s,
                        *c,
                        (level + 1) as nat,
                    ),
                    _ => true,
                });
            }
            match &self.entries[i] {
                AbstractEntry::Branch(b) => {
                    assert(self.entries@[i as int] == AbstractEntry::Branch(*b));
                    match b.embedded_end(scheme, start, cur, level + 1) {
                        Some(e) => {
                            cur = e;
                        },
                        None => {
                            return None;
                        },
                    }
                },
                _ => {},
            }
            i = i + 1;
        }
        proof {
            assert(es.take(n as int) =~= es);
        }
        let align = scheme.level_align(level);
        let x = start + cur;
        let rem = x % align;
        let mut y = x;
        if rem != 0 {
            if x > u64::MAX - (align - rem) {
                return None;
            }
            y = x + (align - rem);
        }
        let tb = match (n as u64).checked_mul(scheme.descriptor_size() as u64) {
            Some(tb) => tb,
            None => {
                return None;
            },
        };
        if y > u64::MAX - tb {
            return None;
        }
        Some(y + tb - start)
    }
}

/// A serialisation in progress: the bytes laid out so far from `start_vaddr`.
pub struct Embedding {
    scheme: Scheme,
    start_vaddr: u64,
    buf: Vec<u8>,
    thead_maee: bool,
}

impl Embedding {
    pub closed spec fn scheme_spec(&self) -> Scheme {
        self.scheme
    }

    pub closed spec fn start_spec(&self) -> nat {
        self.start_vaddr as nat
    }

    pub closed spec fn bytes(&self) -> Seq<u8> {
        self.buf@
    }

    pub closed spec fn thead_spec(&self) -> bool {
        self.thead_maee
    }

    /// An empty serialisation starting at `start_vaddr`.
    pub fn new(scheme: &Scheme, start_vaddr: u64, thead_maee: bool) -> (r: Self)
        ensures
            r.scheme_spec() == *scheme,
            r.start_spec() == start_vaddr,
            r.bytes() == Seq::<u8>::empty(),
            r.thead_spec() == thead_maee,
    {
        Embedding { scheme: *scheme, start_vaddr, buf: Vec::new(), thead_maee }
    }

    /// Serialises `table` as the root table after the bytes laid out so far;
    /// returns all the bytes and the root's virtual address.
    pub fn embed(self, table: &Table) -> (r: (Vec<u8>, u64))
        requires
            fits(self.scheme_spec(), *table, 0),
            self.start_spec() + place_table(
                self.scheme_spec(),
                self.start_spec() as int,
                self.bytes().len() as int,
                *table,
                0,
            ).1 <= u64::MAX,
        ensures
            r.0@.len() == place_table(
                self.scheme_spec(),
                self.start_spec() as int,
                self.bytes().len() as int,
                *table,
                0,
            ).1,
            r.0@.subrange(0, self.bytes().len() as int) == self.bytes(),
            r.1 == place_table(
                self.scheme_spec(),
                self.start_spec() as int,
                self.bytes().len() as int,
                *table,
                0,
            ).0.vaddr,
            serialized(
                self.scheme_spec(),
                self.thead_spec(),
                r.0@,
                self.start_spec() as int,
                self.bytes().len() as int,
                *table,
                0,
            ),
            self.start_spec() + self.bytes().len() <= r.1,
            (r.1 as int) % (self.scheme_spec().level_align_spec(0) as int) == 0,
            r.1 + table.entries@.len() * self.scheme_spec().descriptor_size_spec() == self.start_spec()
                + r.0@.len(),
    {
        proof {
            lemma_place_table_grows(
                self.scheme_spec(),
                self.start_spec() as int,
                self.bytes().len() as int,
                *table,
                0,
            );
        }
        let mut this = self;
        let root_vaddr = this.embed_inner(table, 0);
        (this.buf, root_vaddr)
    }

    /// Appends the serialisation of `table` (at `level`) and returns the
    /// virtual address of its descriptors.
    pub fn embed_inner(&mut self, table: &Table, level: usize) -> (root: u64)
        requires
            level < old(self).scheme_spec().num_levels_spec(),
            fits(old(self).scheme_spec(), *table, level as nat),
            old(self).start_spec() + place_table(
                old(self).scheme_spec(),
                old(self).start_spec() as int,
                old(self).bytes().len() as int,
                *table,
                level as nat,
            ).1 <= u64::MAX,
        ensures
            final(self).scheme_spec() == old(self).scheme_spec(),
            final(self).start_spec() == old(self).start_spec(),
            final(self).thead_spec() == old(self).thead_spec(),
            final(self).bytes().len() == place_table(
                old(self).scheme_spec(),
                old(self).start_spec() as int,
                old(self).bytes().len() as int,
                *table,
                level as nat,
            ).1,
            final(self).bytes().subrange(0, old(self).bytes().len() as int) == old(self).bytes(),
            serialized(
                old(self).scheme_spec(),
                old(self).thead_spec(),
                final(self).bytes(),
                old(self).start_spec() as int,
                old(self).bytes().len() as int,
                *table,
                level as nat,
            ),
            root == place_table(
                old(self).scheme_spec(),
                old(self).start_spec() as int,
                old(self).bytes().len() as int,
                *table,
                level as nat,
            ).0.vaddr,
        // No scheme has more than four levels.
        decreases 4 - level,
    {
        let ghost s = self.scheme;
        let ghost start = self.start_vaddr as int;
        let ghost thead = self.thead_maee;
        let ghost len0 = self.buf@.len() as int;
        let ghost buf0 = self.buf@;
        let ghost es = table.entries@;
        let ghost (lay, end) = place_table(s, start, len0, *table, level as nat);
        proof {
            lemma_place_table_grows(s, start, len0, *table, level as nat);
        }
        let n = table.entries.len();
        let ds = self.scheme.descriptor_size();
        let mut bytes: Vec<u8> = Vec::new();
        let mut i: usize = 0;
        assert(es.take(0) =~= Seq::<AbstractEntry>::empty());
        while i < n
            invariant
                self.scheme == s,
                self.start_vaddr == start,
                self.thead_maee == thead,
                es == table.entries@,
                n == es.len(),
                ds == s.descriptor_size_spec(),
                0 <= len0,
                0 <= i <= n,
                level < s.num_levels_spec(),
                fits(s, *table, level as nat),
                (lay, end) == place_table(s, start, len0, *table, level as nat),
                start + end <= u64::MAX,
                place_entries(s, start, len0, es, level as nat).1 <= end,
                self.buf@.len() == place_entries(s, start, len0, es.take(i as int), level as nat).1,
                self.buf@.subrange(0, len0) == buf0,
                entries_serialized(s, thead, self.buf@, start, len0, es.take(i as int), level as nat),
                bytes@.len() == i * ds,
                forall|j: int|
                    0 <= j < i ==> #[trigger] slot(bytes@, 0, j, ds as int) == s.descriptor_bytes_spec(
                        entry_descriptor(
                            s,
                            thead,
                            es[j],
                            place_entries(s, start, len0, es.take(i as int), level as nat).0[j],
                        ),
                    ),
            decreases n - i,
        {
            let ghost len_i = self.buf@.len() as int;
            let ghost buf_i = self.buf@;
            let ghost bytes_i = bytes@;
            let ghost (prev, plen) = place_entries(s, start, len0, es.take(i as int), level as nat);
            proof {
                assert(es.take(i + 1).drop_last() =~= es.take(i as int));
                assert(es.take(i + 1).last() == es[i as int]);
                lemma_place_entries_prefix(s, start, len0, es, level as nat, i + 1);
                lemma_place_entries_grows(s, start, len0, es.take(i as int), level as nat);
            }
            let d: u64 = match &table.entries[i] {
                AbstractEntry::Empty => self.scheme.empty_descriptor(),
                AbstractEntry::Leaf(d) => *d,
                AbstractEntry::Branch(b) => {
                    assert(match table.entries@[i as int] {
                        AbstractEntry::Branch(c) => level + 1 < s.num_levels_spec() && fits(s, *c, (level + 1) as nat),
                        _ => true,
                    });
                    assert(table.entries@[i as int] == AbstractEntry::Branch(*b));
                    let child_vaddr = self.embed_inner(&**b, level + 1);
                    proof {
                        lemma_place_table_grows(s, start, len_i, **b, (level + 1) as nat);
                        lemma_entries_serialized_frame(
                            s,
                            thead,
                            buf_i,
                            self.buf@,
                            start,
                            len0,
                            es.take(i as int),
                            level as nat,
                        );
                        assert forall|k: int| 0 <= k < len0 implies self.buf@[k] == buf0[k] by {
                            assert(self.buf@.subrange(0, len_i)[k] == buf_i[k]);
                        }
                        assert(self.buf@.subrange(0, len0) =~= buf0);
                    }
                    let bd = self.scheme.branch_descriptor(child_vaddr);
                    let riscv = match self.scheme {
                        Scheme::RiscVSv39 | Scheme::RiscVSv32 => true,
                        _ => false,
                    };
                    if self.thead_maee && riscv {
                        bd | THEAD_PMA
                    } else {
                        bd
                    }
                },
            };
            let mut db = self.scheme.descriptor_to_bytes(d);
            bytes.append(&mut db);
            proof {
                let (next, nlen) = place_entries(s, start, len0, es.take(i + 1), level as nat);
                assert(next.len() == i + 1);
                assert forall|j: int| 0 <= j < i + 1 implies #[trigger] slot(bytes@, 0, j, ds as int)
                    == s.descriptor_bytes_spec(entry_descriptor(s, thead, es[j], next[j])) by {
                    lemma_slot_in_table(j, i + 1, ds as int);
                    if j < i {
                        lemma_slot_in_table(j, i as int, ds as int);
                        assert(slot(bytes@, 0, j, ds as int) =~= slot(bytes_i, 0, j, ds as int));
                        assert(next[j] == prev[j]);
                    } else {
                        assert(slot(bytes@, 0, j, ds as int) =~= s.descriptor_bytes_spec(d));
                    }
                }
                assert(bytes@.len() == (i + 1) * ds) by (nonlinear_arith)
                    requires
                        bytes@.len() == i * ds + ds,
                ;
            }
            i = i + 1;
        }
        proof {
            assert(es.take(n as int) =~= es);
        }
        let ghost len1 = self.buf@.len() as int;
        let ghost buf1 = self.buf@;
        self.align(self.scheme.level_align(level));
        let vaddr = self.cur_vaddr();
        let ghost buf2 = self.buf@;
        let ghost all_bytes = bytes@;
        self.buf.append(&mut bytes);
        proof {
            let (children, l1) = place_entries(s, start, len0, es, level as nat);
            let off = lay.vaddr - start;
            assert(off == buf2.len());
            assert forall|k: int| 0 <= k < len1 implies #[trigger] self.buf@[k] == buf1[k] by {
                assert(buf2.subrange(0, len1)[k] == buf1[k]);
            }
            lemma_entries_serialized_frame(s, thead, buf1, self.buf@, start, len0, es, level as nat);
            assert forall|k: int| 0 <= k < len0 implies self.buf@[k] == buf0[k] by {
                assert(buf1.subrange(0, len0)[k] == buf0[k]);
            }
            assert(self.buf@.subrange(0, len0) =~= buf0);
            assert forall|k: int| l1 <= k < off implies self.buf@[k] == 0u8 by {
                assert(self.buf@[k] == buf2[k]);
            }
            assert forall|j: int| 0 <= j < es.len() implies #[trigger] slot(self.buf@, off, j, ds as int)
                == s.descriptor_bytes_spec(entry_descriptor(s, thead, es[j], children[j])) by {
                lemma_slot_in_table(j, es.len() as int, ds as int);
                assert(slot(self.buf@, off, j, ds as int) =~= slot(all_bytes, 0, j, ds as int));
            }
        }
        vaddr
    }

    /// The virtual address of the next byte to be laid out.
    pub fn cur_vaddr(&self) -> (r: u64)
        requires
            self.start_spec() + self.bytes().len() <= u64::MAX,
        ensures
            r == self.start_spec() + self.bytes().len(),
    {
        self.start_vaddr + self.buf.len() as u64
    }

    /// Pads with zero bytes up to the next virtual address that is a multiple
    /// of `align`.
    pub fn align(&mut self, align: u64)
        requires
            align > 0,
            align_up((old(self).start_spec() + old(self).bytes().len()) as int, align as int) <= u64::MAX,
        ensures
            final(self).scheme_spec() == old(self).scheme_spec(),
            final(self).start_spec() == old(self).start_spec(),
            final(self).thead_spec() == old(self).thead_spec(),
            final(self).bytes().len() == align_up(
                (old(self).start_spec() + old(self).bytes().len()) as int,
                align as int,
            ) - old(self).start_spec(),
            final(self).bytes().subrange(0, old(self).bytes().len() as int) == old(self).bytes(),
            forall|k: int|
                old(self).bytes().len() <= k < final(self).bytes().len() ==> final(self).bytes()[k]
                    == 0u8,
    {
        proof {
            lemma_align_up(self.start_vaddr + self.buf@.len(), align as int);
        }
        let cur_vaddr = self.cur_vaddr();
        let rem = cur_vaddr % align;
        let aligned_vaddr = if rem == 0 {
            cur_vaddr
        } else {
            cur_vaddr + (align - rem)
        };
        let pad = aligned_vaddr - cur_vaddr;
        let ghost old_buf = self.buf@;
        let mut k: u64 = 0;
        while k < pad
            invariant
                self.scheme == old(self).scheme,
                self.start_vaddr == old(self).start_vaddr,
                self.thead_maee == old(self).thead_maee,
                k <= pad,
                self.buf@.len() == old_buf.len() + k,
                self.buf@.subrange(0, old_buf.len() as int) == old_buf,
                forall|j: int| old_buf.len() <= j < self.buf@.len() ==> self.buf@[j] == 0u8,
            decreases pad - k,
        {
            let ghost prev = self.buf@;
            self.buf.push(0u8);
            assert(self.buf@.subrange(0, old_buf.len() as int) =~= prev.subrange(0, old_buf.len() as int));
            k = k + 1;
        }
    }
}

} // verus!
