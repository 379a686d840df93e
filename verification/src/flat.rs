//! A second visitor, which does not nest: it files the pairs of each section
//! in one table under the section's name as it is written.

use vstd::prelude::*;
use crate::builder::Visitor;
use crate::value::{Table, TableView, Value, ValueView};

verus! {

/// A visitor that keeps one table for each section, under the section's name
/// as written, dots and all. Pairs that come before any header go to the table
/// under the empty name. Every header is accepted; a pair is refused where its
/// section's table holds the key already.
pub struct TOMLVisitor {
    root: Table,
    current_section: String,
}

/// The mathematical model of a [`TOMLVisitor`].
pub struct FlatView {
    pub root: TableView,
    pub current_section: Seq<char>,
}

impl View for TOMLVisitor {
    type V = FlatView;

    closed spec fn view(&self) -> FlatView {
        FlatView { root: self.root@, current_section: self.current_section@ }
    }
}

/// The model of a flat visitor after the header `name`: the same tables, and
/// `name` as the current section.
pub open spec fn flat_after_section(state: FlatView, name: Seq<char>) -> FlatView {
    FlatView { root: state.root, current_section: name }
}

/// The model of a flat visitor after the pair of `key` and `val`: the key is
/// set in the table of the current section, which is created if there is none
/// yet. `None` where that table holds the key already.
pub open spec fn flat_after_pair(state: FlatView, key: Seq<char>, val: ValueView) -> Option<
    FlatView,
> {
    let section = state.current_section;
    if !state.root.contains_key(section) {
        Some(
            FlatView {
                root: state.root.insert(
                    section,
                    ValueView::Table(Map::<Seq<char>, ValueView>::empty().insert(key, val)),
                ),
                current_section: section,
            },
        )
    } else {
        match state.root[section] {
            ValueView::Table(entries) => if entries.contains_key(key) {
                None
            } else {
                Some(
                    FlatView {
                        root: state.root.insert(section, ValueView::Table(entries.insert(key, val))),
                        current_section: section,
                    },
                )
            },
            _ => None,
        }
    }
}

impl TOMLVisitor {
    /// A visitor with no tables, before any header.
    pub fn new() -> (v: TOMLVisitor)
        ensures
            v@ == (FlatView { root: Map::empty(), current_section: Seq::empty() }),
    {
        TOMLVisitor { root: Table::new(), current_section: String::new() }
    }

    /// The table of the sections' tables.
    pub fn get_root(&self) -> (t: &Table)
        ensures
            t@ == self@.root,
    {
        &self.root
    }
}

impl Visitor for TOMLVisitor {
    open spec fn after_section(state: FlatView, name: Seq<char>, is_array: bool) -> Option<
        FlatView,
    > {
        Some(flat_after_section(state, name))
    }

    open spec fn after_pair(state: FlatView, key: Seq<char>, val: ValueView) -> Option<FlatView> {
        flat_after_pair(state, key, val)
    }

    /// Makes `name` the current section.
    fn section(&mut self, name: String, is_array: bool) -> (ok: bool) {
        self.current_section = name;
        true
    }

    /// Sets `key` to `val` in the table of the current section.
    fn pair(&mut self, key: String, val: Value) -> (ok: bool) {
        let ghost before = self.root@;
        let ghost section = self.current_section@;
        match self.root.get_mut(self.current_section.as_str()) {
            Some(slot) => {
                let ghost found = slot@;
                assert(before.insert(section, found) =~= before);
                match slot {
                    Value::Table(entries) => entries.insert(key, val),
                    _ => false,
                }
            },
            None => {
                let mut entries = Table::new();
                entries.insert(key, val);
                self.root.insert(self.current_section.clone(), Value::Table(entries))
            },
        }
    }
}

} // verus!
