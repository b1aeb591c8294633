//! The abstract page-table tree and what it translates.
use vstd::prelude::*;
use crate::scheme::Scheme;

verus! {

/// One entry of a table: nothing, a leaf descriptor, or a next-level table.
pub enum AbstractEntry {
    Empty,
    Leaf(u64),
    Branch(Box<Table>),
}

/// A table at some level: its entries in index order.
pub struct Table {
    pub entries: Vec<AbstractEntry>,
}

/// Every next-level table of `t` (at `level`) lies at a level the scheme has.
pub open spec fn fits(s: Scheme, t: Table, level: nat) -> bool
    decreases s.num_levels_spec() - level,
{
    forall|i: int|
        0 <= i < t.entries@.len() ==> match #[trigger] t.entries@[i] {
            AbstractEntry::Branch(c) => level + 1 < s.num_levels_spec() && fits(s, *c, level + 1),
            _ => true,
        }
}

/// `t` is a complete table for `level`: the scheme's number of entries, leaves
/// only where the scheme allows them, and so on down.
pub open spec fn well_formed(s: Scheme, t: Table, level: nat) -> bool
    decreases s.num_levels_spec() - level,
{
    &&& level < s.num_levels_spec()
    &&& t.entries@.len() == s.num_entries_spec(level)
    &&& forall|i: int|
        0 <= i < t.entries@.len() ==> match #[trigger] t.entries@[i] {
            AbstractEntry::Branch(c) => level + 1 < s.num_levels_spec() && well_formed(
                s,
                *c,
                level + 1,
            ),
            AbstractEntry::Leaf(_) => s.min_leaf_level_spec() <= level,
            AbstractEntry::Empty => true,
        }
}

/// What a hardware walk of `t` (a table at `level` whose first entry covers
/// `base`) finds for virtual address `va`: the leaf descriptor, the level it
/// sits at and the first address its entry covers; `None` when the walk
/// reaches an empty entry or leaves the table.
pub open spec fn walk(s: Scheme, t: Table, level: nat, base: int, va: int) -> Option<(u64, nat, int)>
    decreases s.num_levels_spec() - level, 1nat,
{
    let es = s.entry_size_spec(level) as int;
    let i = (va - base) / es;
    if base <= va && i < t.entries@.len() {
        walk_entry(s, t.entries@[i], level, base + i * es, va)
    } else {
        None
    }
}

pub open spec fn walk_entry(s: Scheme, e: AbstractEntry, level: nat, base: int, va: int) -> Option<
    (u64, nat, int),
>
    decreases s.num_levels_spec() - level, 0nat,
{
    match e {
        AbstractEntry::Empty => None,
        AbstractEntry::Leaf(d) => Some((d, level, base)),
        AbstractEntry::Branch(c) => if level + 1 < s.num_levels_spec() {
            walk(s, *c, level + 1, base, va)
        } else {
            None
        },
    }
}

} // verus!
