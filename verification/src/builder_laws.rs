//! What holds of the builder's two operations: where a section path leads,
//! what setting a pair does there, and what opening a section a second time
//! does.

use vstd::prelude::*;
use crate::builder::{open_section, set_pair, table_under, with_table_under};
use crate::lookup::PathElementView;
use crate::value::{TableView, ValueView};

verus! {

/// The path elements of one step of a section path: the key, and for an array
/// of tables the index of its last table.
pub open spec fn step_elements(key: Seq<char>, v: ValueView) -> Seq<PathElementView> {
    match v {
        ValueView::TableArray(tables) => seq![
            PathElementView::Key(key),
            PathElementView::Idx((tables.len() - 1) as nat),
        ],
        _ => seq![PathElementView::Key(key)],
    }
}

/// A table in a tree: the path elements under which a lookup finds it, and
/// the table itself.
pub struct Target {
    pub elements: Seq<PathElementView>,
    pub table: TableView,
}

/// Where the section path `path` leads to in `table`: the table at its end,
/// and the path elements under which a lookup finds that table. `None` where
/// a segment leads to no table.
pub open spec fn section_target(table: TableView, path: Seq<Seq<char>>) -> Option<Target>
    decreases path.len(),
{
    if path.len() == 0 {
        Some(Target { elements: Seq::empty(), table })
    } else if table.contains_key(path[0]) {
        match table_under(table[path[0]]) {
            Some(inner) => match section_target(inner, path.drop_first()) {
                Some(target) => Some(
                    Target {
                        elements: step_elements(path[0], table[path[0]]) + target.elements,
                        table: target.table,
                    },
                ),
                None => None,
            },
            None => None,
        }
    } else {
        None
    }
}

/// A lookup along two paths joined is a lookup along the second in what a
/// lookup along the first finds.
pub proof fn lemma_lookup_joined(v: ValueView, a: Seq<PathElementView>, b: Seq<PathElementView>)
    ensures
        v.lookup_path_elts(a + b) == (match v.lookup_path_elts(a) {
            Some(found) => found.lookup_path_elts(b),
            None => None,
        }),
    decreases a.len(),
{
    if a.len() == 0 {
        assert(a + b =~= b);
    } else {
        assert((a + b)[0] == a[0]);
        assert((a + b).drop_first() =~= a.drop_first() + b);
        match v.lookup_element(a[0]) {
            Some(next) => {
                lemma_lookup_joined(next, a.drop_first(), b);
            },
            None => {},
        }
    }
}

/// A lookup along the path elements of one step of a section path finds the
/// table that the step leads into.
pub proof fn lemma_lookup_step(table: TableView, key: Seq<char>)
    requires
        table.contains_key(key),
        table_under(table[key]) is Some,
    ensures
        ValueView::Table(table).lookup_path_elts(step_elements(key, table[key])) == Some(
            ValueView::Table(table_under(table[key])->0),
        ),
{
    let v = table[key];
    let elements = step_elements(key, v);
    let root = ValueView::Table(table);
    assert(root.lookup_element(elements[0]) == Some(v));
    match v {
        ValueView::TableArray(tables) => {
            let rest = elements.drop_first();
            assert(rest[0] == PathElementView::Idx((tables.len() - 1) as nat));
            assert(v.lookup_element(rest[0]) == Some(tables.last()));
            assert(rest.drop_first().len() == 0);
            assert(tables.last().lookup_path_elts(rest.drop_first()) == Some(tables.last()));
        },
        _ => {
            assert(elements.drop_first().len() == 0);
            assert(v.lookup_path_elts(elements.drop_first()) == Some(v));
        },
    }
}

/// A lookup along the path elements of a section path finds the table that
/// the section path leads to.
pub proof fn lemma_section_target_found(table: TableView, path: Seq<Seq<char>>)
    requires
        section_target(table, path) is Some,
    ensures
        ValueView::Table(table).lookup_path_elts(section_target(table, path)->0.elements) == Some(
            ValueView::Table(section_target(table, path)->0.table),
        ),
    decreases path.len(),
{
    if path.len() > 0 {
        let inner = table_under(table[path[0]])->0;
        lemma_section_target_found(inner, path.drop_first());
        lemma_lookup_step(table, path[0]);
        lemma_lookup_joined(
            ValueView::Table(table),
            step_elements(path[0], table[path[0]]),
            section_target(inner, path.drop_first())->0.elements,
        );
    }
}

/// What setting a pair does, said over the table that the section path leads
/// to: the pair is refused exactly where the path leads to no table or that
/// table holds the key already. Where the pair is set, the path leads to the
/// same place in the new tree, the table there is the old one with the key
/// added, and a lookup along the path and the key finds the value.
pub proof fn lemma_set_pair(table: TableView, path: Seq<Seq<char>>, key: Seq<char>, val: ValueView)
    ensures
        set_pair(table, path, key, val) is Some <==> section_target(table, path) is Some
            && !section_target(table, path)->0.table.contains_key(key),
        set_pair(table, path, key, val) is Some ==> section_target(
            set_pair(table, path, key, val)->0,
            path,
        ) == Some(
            Target {
                elements: section_target(table, path)->0.elements,
                table: section_target(table, path)->0.table.insert(key, val),
            },
        ),
        set_pair(table, path, key, val) is Some ==> ValueView::Table(
            set_pair(table, path, key, val)->0,
        ).lookup_path_elts(
            section_target(table, path)->0.elements.push(PathElementView::Key(key)),
        ) == Some(val),
    decreases path.len(),
{
    if path.len() > 0 && table.contains_key(path[0]) && table_under(table[path[0]]) is Some {
        let inner = table_under(table[path[0]])->0;
        lemma_set_pair(inner, path.drop_first(), key, val);
        if set_pair(inner, path.drop_first(), key, val) is Some {
            let changed_inner = set_pair(inner, path.drop_first(), key, val)->0;
            let after = with_table_under(table[path[0]], changed_inner);
            let changed = table.insert(path[0], after);
            assert(table_under(after) == Some(changed_inner));
            assert(step_elements(path[0], after) == step_elements(path[0], table[path[0]]));
            assert(changed[path[0]] == after);
        }
    }
    if set_pair(table, path, key, val) is Some {
        let changed = set_pair(table, path, key, val)->0;
        let target = section_target(table, path)->0;
        lemma_section_target_found(changed, path);
        let step = seq![PathElementView::Key(key)];
        lemma_lookup_joined(ValueView::Table(changed), target.elements, step);
        assert(target.elements + step =~= target.elements.push(PathElementView::Key(key)));
        let there = ValueView::Table(target.table.insert(key, val));
        assert(there.lookup_element(step[0]) == Some(val));
        assert(step.drop_first().len() == 0);
        assert(val.lookup_path_elts(step.drop_first()) == Some(val));
    }
}

/// Whether the section path `path` stands opened in `table`: every segment
/// is there, each before the last leads into a table, and under the last
/// stands a table, or an array of tables for `is_array`.
pub open spec fn opened_as(table: TableView, path: Seq<Seq<char>>, is_array: bool) -> bool
    decreases path.len(),
{
    if path.len() == 0 || path[0].len() == 0 || !table.contains_key(path[0]) {
        false
    } else if path.len() == 1 {
        if is_array {
            table[path[0]] is TableArray && table_under(table[path[0]]) is Some
        } else {
            table[path[0]] is Table
        }
    } else {
        match table_under(table[path[0]]) {
            Some(inner) => opened_as(inner, path.drop_first(), is_array),
            None => false,
        }
    }
}

/// After a section header has been accepted its path stands opened, and leads
/// to a table.
pub proof fn lemma_open_section_opens(table: TableView, path: Seq<Seq<char>>, is_array: bool)
    requires
        open_section(table, path, is_array) is Some,
    ensures
        opened_as(open_section(table, path, is_array)->0, path, is_array),
        section_target(open_section(table, path, is_array)->0, path) is Some,
    decreases path.len(),
{
    let head = path[0];
    let opened = open_section(table, path, is_array)->0;
    if path.len() == 1 {
        assert(section_target(table_under(opened[head])->0, path.drop_first()) is Some);
    } else if table.contains_key(head) && !table[head].is_leaf() {
        let inner = table_under(table[head])->0;
        lemma_open_section_opens(inner, path.drop_first(), is_array);
        let opened_inner = open_section(inner, path.drop_first(), is_array)->0;
        assert(table_under(with_table_under(table[head], opened_inner)) == Some(opened_inner));
    } else {
        lemma_open_section_opens(Map::empty(), path.drop_first(), is_array);
    }
}

/// A pair set in an opened section leaves the section opened.
pub proof fn lemma_set_pair_stays_opened(
    table: TableView,
    path: Seq<Seq<char>>,
    is_array: bool,
    key: Seq<char>,
    val: ValueView,
)
    requires
        opened_as(table, path, is_array),
        set_pair(table, path, key, val) is Some,
    ensures
        opened_as(set_pair(table, path, key, val)->0, path, is_array),
    decreases path.len(),
{
    let head = path[0];
    let inner = table_under(table[head])->0;
    let changed_inner = set_pair(inner, path.drop_first(), key, val)->0;
    assert(table_under(with_table_under(table[head], changed_inner)) == Some(changed_inner));
    if path.len() > 1 {
        lemma_set_pair_stays_opened(inner, path.drop_first(), is_array, key, val);
    }
}

/// A header for a section that stands opened as a table is accepted again as
/// a table header, and changes nothing; as a header of an array of tables it
/// is refused. A header for a section that stands opened as an array of
/// tables is accepted again as such, and refused as a table header.
pub proof fn lemma_open_opened_section(table: TableView, path: Seq<Seq<char>>, is_array: bool)
    requires
        opened_as(table, path, is_array),
    ensures
        open_section(table, path, !is_array) is None,
        !is_array ==> open_section(table, path, false) == Some(table),
        is_array ==> open_section(table, path, true) is Some,
    decreases path.len(),
{
    let head = path[0];
    if path.len() > 1 {
        let inner = table_under(table[head])->0;
        lemma_open_opened_section(inner, path.drop_first(), is_array);
        if !is_array {
            match table[head] {
                ValueView::TableArray(tables) => {
                    assert(tables.update(tables.len() - 1, ValueView::Table(inner)) =~= tables);
                },
                _ => {},
            }
            assert(table.insert(head, with_table_under(table[head], inner)) =~= table);
        }
    }
}

/// One pair: a key and the value set for it.
pub struct Entry {
    pub key: Seq<char>,
    pub val: ValueView,
}

/// The tree `table` after the pairs `entries` have been set, one after the
/// other, in the section with the path `path`. `None` where one is refused.
pub open spec fn set_pairs(table: TableView, path: Seq<Seq<char>>, entries: Seq<Entry>) -> Option<
    TableView,
>
    decreases entries.len(),
{
    if entries.len() == 0 {
        Some(table)
    } else {
        match set_pair(table, path, entries[0].key, entries[0].val) {
            Some(changed) => set_pairs(changed, path, entries.drop_first()),
            None => None,
        }
    }
}

/// Pairs set in an opened section leave the section opened.
pub proof fn lemma_set_pairs_stay_opened(
    table: TableView,
    path: Seq<Seq<char>>,
    is_array: bool,
    entries: Seq<Entry>,
)
    requires
        opened_as(table, path, is_array),
        set_pairs(table, path, entries) is Some,
    ensures
        opened_as(set_pairs(table, path, entries)->0, path, is_array),
    decreases entries.len(),
{
    if entries.len() > 0 {
        lemma_set_pair_stays_opened(table, path, is_array, entries[0].key, entries[0].val);
        lemma_set_pairs_stay_opened(
            set_pair(table, path, entries[0].key, entries[0].val)->0,
            path,
            is_array,
            entries.drop_first(),
        );
    }
}

/// Opening a section a second time. Let a header be accepted and any number
/// of pairs be set in its section. Then the same header with the other kind of
/// brackets is refused. A table header is accepted again and changes nothing,
/// so that the pairs before it and the pairs after it come to stand in one
/// table; a header of an array of tables is accepted again.
pub proof fn lemma_section_reopened(
    table: TableView,
    path: Seq<Seq<char>>,
    is_array: bool,
    entries: Seq<Entry>,
)
    requires
        open_section(table, path, is_array) is Some,
        set_pairs(open_section(table, path, is_array)->0, path, entries) is Some,
    ensures
        ({
            let filled = set_pairs(open_section(table, path, is_array)->0, path, entries)->0;
            &&& open_section(filled, path, !is_array) is None
            &&& !is_array ==> open_section(filled, path, false) == Some(filled)
            &&& is_array ==> open_section(filled, path, true) is Some
        }),
{
    let opened = open_section(table, path, is_array)->0;
    lemma_open_section_opens(table, path, is_array);
    lemma_set_pairs_stay_opened(opened, path, is_array, entries);
    lemma_open_opened_section(set_pairs(opened, path, entries)->0, path, is_array);
}

/// In the section that a header has opened a pair is refused only where the
/// section's table holds the key already.
pub proof fn lemma_set_pair_after_open(
    table: TableView,
    path: Seq<Seq<char>>,
    is_array: bool,
    key: Seq<char>,
    val: ValueView,
)
    requires
        open_section(table, path, is_array) is Some,
    ensures
        ({
            let opened = open_section(table, path, is_array)->0;
            &&& section_target(opened, path) is Some
            &&& set_pair(opened, path, key, val) is None <==> section_target(
                opened,
                path,
            )->0.table.contains_key(key)
        }),
{
    lemma_open_section_opens(table, path, is_array);
    lemma_set_pair(open_section(table, path, is_array)->0, path, key, val);
}

} // verus!
