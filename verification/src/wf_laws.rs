//! Well-formedness: the builder's operations make well-formed trees of
//! well-formed trees.

use vstd::prelude::*;
use crate::builder::{new_section, open_section, set_pair, table_under, with_table_under};
use crate::value::{TableView, ValueView};

verus! {

/// A well-formed table with a well-formed value stored under a key is well
/// formed.
pub proof fn lemma_insert_wf(table: TableView, key: Seq<char>, val: ValueView)
    requires
        ValueView::Table(table).wf(),
        val.wf(),
        val !is NoValue,
    ensures
        ValueView::Table(table.insert(key, val)).wf(),
{
    let changed = table.insert(key, val);
    assert(changed.dom() =~= table.dom().insert(key));
    assert forall|k: Seq<char>| changed.contains_key(k) implies (#[trigger] changed[k]) !is NoValue
        && changed[k].wf() by {
        if k != key {
            assert(table.contains_key(k));
        }
    }
}

/// A well-formed table or array of tables stays well formed when the table
/// that a path step leads into is replaced by a well-formed table.
pub proof fn lemma_with_table_under_wf(v: ValueView, inner: TableView)
    requires
        v.wf(),
        table_under(v) is Some,
        ValueView::Table(inner).wf(),
    ensures
        with_table_under(v, inner).wf(),
        with_table_under(v, inner) !is NoValue,
{
    match v {
        ValueView::TableArray(tables) => {
            let changed = tables.update(tables.len() - 1, ValueView::Table(inner));
            assert forall|i: int| 0 <= i < changed.len() implies (#[trigger] changed[i]) is Table
                && changed[i].wf() by {
                if i < tables.len() - 1 {
                    assert(changed[i] == tables[i]);
                }
            }
        },
        _ => {},
    }
}

/// The table that a path step leads into in a well-formed tree is well formed.
pub proof fn lemma_table_under_wf(v: ValueView)
    requires
        v.wf(),
        table_under(v) is Some,
    ensures
        ValueView::Table(table_under(v)->0).wf(),
{
    match v {
        ValueView::TableArray(tables) => {
            assert(tables[tables.len() - 1].wf());
        },
        _ => {},
    }
}

/// A section header that is accepted in a well-formed tree leaves the tree
/// well formed.
pub proof fn lemma_open_section_wf(table: TableView, path: Seq<Seq<char>>, is_array: bool)
    requires
        ValueView::Table(table).wf(),
        open_section(table, path, is_array) is Some,
    ensures
        ValueView::Table(open_section(table, path, is_array)->0).wf(),
    decreases path.len(),
{
    let head = path[0];
    let empty = ValueView::Table(Map::empty());
    assert(empty.wf());
    if path.len() == 1 {
        if !table.contains_key(head) {
            if is_array {
                let tables = seq![empty];
                assert forall|i: int| 0 <= i < tables.len() implies (#[trigger] tables[i]) is Table
                    && tables[i].wf() by {}
            }
            lemma_insert_wf(table, head, new_section(is_array));
        } else {
            match table[head] {
                ValueView::TableArray(tables) => {
                    let longer = tables.push(empty);
                    assert(table[head].wf());
                    assert forall|i: int| 0 <= i < longer.len() implies (#[trigger] longer[i])
                        is Table && longer[i].wf() by {
                        if i < tables.len() {
                            assert(longer[i] == tables[i]);
                        }
                    }
                    lemma_insert_wf(table, head, ValueView::TableArray(longer));
                },
                _ => {},
            }
        }
    } else if table.contains_key(head) && !table[head].is_leaf() {
        let inner = table_under(table[head])->0;
        let opened = open_section(inner, path.drop_first(), is_array)->0;
        assert(table[head].wf());
        lemma_table_under_wf(table[head]);
        lemma_open_section_wf(inner, path.drop_first(), is_array);
        lemma_with_table_under_wf(table[head], opened);
        lemma_insert_wf(table, head, with_table_under(table[head], opened));
    } else {
        let opened = open_section(Map::empty(), path.drop_first(), is_array)->0;
        lemma_open_section_wf(Map::empty(), path.drop_first(), is_array);
        lemma_insert_wf(table, head, ValueView::Table(opened));
    }
}

/// A well-formed value that is set in a well-formed tree leaves the tree well
/// formed.
pub proof fn lemma_set_pair_wf(
    table: TableView,
    path: Seq<Seq<char>>,
    key: Seq<char>,
    val: ValueView,
)
    requires
        ValueView::Table(table).wf(),
        val.wf(),
        val !is NoValue,
        set_pair(table, path, key, val) is Some,
    ensures
        ValueView::Table(set_pair(table, path, key, val)->0).wf(),
    decreases path.len(),
{
    if path.len() == 0 {
        lemma_insert_wf(table, key, val);
    } else {
        let inner = table_under(table[path[0]])->0;
        let changed = set_pair(inner, path.drop_first(), key, val)->0;
        assert(table[path[0]].wf());
        lemma_table_under_wf(table[path[0]]);
        lemma_set_pair_wf(inner, path.drop_first(), key, val);
        lemma_with_table_under_wf(table[path[0]], changed);
        lemma_insert_wf(table, path[0], with_table_under(table[path[0]], changed));
    }
}

} // verus!
