//! What the builder's operations leave in place: a lookup that found a value
//! before a pair was set or a section was opened finds it afterwards, with
//! one exception, the value that a section header replaces by a table.

use vstd::prelude::*;
use crate::builder::{new_section, open_section, set_pair, table_under, with_table_under};
use crate::builder_laws::step_elements;
use crate::lookup::PathElementView;
use crate::value::{TableView, ValueView};

verus! {

/// Whether a lookup along `path` in `v` finds a value that is neither a table
/// nor an array of tables.
pub open spec fn leaf_at(v: ValueView, path: Seq<PathElementView>) -> bool {
    match v.lookup_path_elts(path) {
        Some(found) => found.is_leaf(),
        None => false,
    }
}

/// Whether `path` begins with the path `except`, if there is one.
pub open spec fn goes_through(path: Seq<PathElementView>, except: Option<Seq<PathElementView>>) -> bool {
    match except {
        Some(place) => place.len() <= path.len() && path.take(place.len() as int) == place,
        None => false,
    }
}

/// The place `except`, if there is one, seen from `steps` further up.
pub open spec fn below(steps: Seq<PathElementView>, except: Option<Seq<PathElementView>>) -> Option<
    Seq<PathElementView>,
> {
    match except {
        Some(place) => Some(steps + place),
        None => None,
    }
}

/// Whether every lookup that finds a value other than a table or an array of
/// tables in `before` finds the same value in `after`, unless its path begins
/// with `except`.
pub open spec fn keeps_leaves(
    before: ValueView,
    after: ValueView,
    except: Option<Seq<PathElementView>>,
) -> bool {
    forall|q: Seq<PathElementView>|
        leaf_at(before, q) && !goes_through(q, except) ==> #[trigger] after.lookup_path_elts(q)
            == before.lookup_path_elts(q)
}

/// A path that does not go through a place below some steps, and begins with
/// the steps, does not go through the place once the steps are taken.
proof fn lemma_not_through(
    q: Seq<PathElementView>,
    steps: Seq<PathElementView>,
    except: Option<Seq<PathElementView>>,
)
    requires
        !goes_through(q, below(steps, except)),
        steps.len() <= q.len(),
        q.take(steps.len() as int) == steps,
    ensures
        !goes_through(q.skip(steps.len() as int), except),
{
    match except {
        Some(place) => {
            let rest = q.skip(steps.len() as int);
            if goes_through(rest, except) {
                let joined = steps + place;
                assert(q.take(joined.len() as int) =~= joined) by {
                    assert forall|i: int| 0 <= i < joined.len() implies q.take(joined.len() as int)[i]
                        == joined[i] by {
                        if i < steps.len() {
                            assert(q.take(steps.len() as int)[i] == steps[i]);
                        } else {
                            assert(rest.take(place.len() as int)[i - steps.len()] == place[i
                                - steps.len()]);
                        }
                    }
                }
            }
        },
        None => {},
    }
}

/// Storing a value under a key of a table keeps what the change of the value
/// kept, if the key held one; the exception moves below the key.
pub proof fn lemma_insert_keeps(
    table: TableView,
    key: Seq<char>,
    after: ValueView,
    except: Option<Seq<PathElementView>>,
)
    requires
        table.contains_key(key) ==> keeps_leaves(table[key], after, except),
    ensures
        keeps_leaves(
            ValueView::Table(table),
            ValueView::Table(table.insert(key, after)),
            below(seq![PathElementView::Key(key)], except),
        ),
{
    let before = ValueView::Table(table);
    let changed = ValueView::Table(table.insert(key, after));
    let step = seq![PathElementView::Key(key)];
    assert forall|q: Seq<PathElementView>| leaf_at(before, q) && !goes_through(
        q,
        below(step, except),
    ) implies #[trigger] changed.lookup_path_elts(q) == before.lookup_path_elts(q) by {
        if q.len() > 0 {
            match q[0] {
                PathElementView::Key(k) => {
                    if k == key && table.contains_key(key) {
                        assert(q.take(1) =~= step);
                        lemma_not_through(q, step, except);
                        assert(q.skip(1) =~= q.drop_first());
                        assert(leaf_at(table[key], q.drop_first()));
                        assert(after.lookup_path_elts(q.drop_first()) == table[key].lookup_path_elts(
                            q.drop_first(),
                        ));
                    }
                },
                _ => {},
            }
        }
    }
}

/// The path elements that lead from a table or an array of tables into the
/// table that a section path goes on in: none for a table, the index of the
/// last table for an array of tables.
pub open spec fn steps_into(v: ValueView) -> Seq<PathElementView> {
    match v {
        ValueView::TableArray(tables) => seq![PathElementView::Idx((tables.len() - 1) as nat)],
        _ => Seq::empty(),
    }
}

/// Changing the table that a path step leads into keeps what the change of
/// that table kept; the exception moves below the step.
pub proof fn lemma_descend_keeps(
    v: ValueView,
    inner_after: TableView,
    except: Option<Seq<PathElementView>>,
)
    requires
        table_under(v) is Some,
        keeps_leaves(ValueView::Table(table_under(v)->0), ValueView::Table(inner_after), except),
    ensures
        keeps_leaves(v, with_table_under(v, inner_after), below(steps_into(v), except)),
{
    let inner = ValueView::Table(table_under(v)->0);
    let after = with_table_under(v, inner_after);
    let steps = steps_into(v);
    assert forall|q: Seq<PathElementView>| leaf_at(v, q) && !goes_through(q, below(steps, except))
        implies #[trigger] after.lookup_path_elts(q) == v.lookup_path_elts(q) by {
        match v {
            ValueView::TableArray(tables) => {
                if q.len() > 0 {
                    match q[0] {
                        PathElementView::Idx(n) => {
                            if n == tables.len() - 1 {
                                assert(q.take(1) =~= steps);
                                lemma_not_through(q, steps, except);
                                assert(q.skip(1) =~= q.drop_first());
                                assert(leaf_at(inner, q.drop_first()));
                                assert(ValueView::Table(inner_after).lookup_path_elts(
                                    q.drop_first(),
                                ) == inner.lookup_path_elts(q.drop_first()));
                            }
                        },
                        _ => {},
                    }
                }
            },
            _ => {
                assert(q.take(0) =~= steps);
                lemma_not_through(q, steps, except);
                assert(q.skip(0) =~= q);
                assert(ValueView::Table(inner_after).lookup_path_elts(q) == inner.lookup_path_elts(
                    q,
                ));
            },
        }
    }
}

/// Changing the table that a segment of a section path leads into keeps what
/// the change of that table kept; the exception moves below the segment.
pub proof fn lemma_step_keeps(
    table: TableView,
    key: Seq<char>,
    inner_after: TableView,
    except: Option<Seq<PathElementView>>,
)
    requires
        table.contains_key(key),
        table_under(table[key]) is Some,
        keeps_leaves(
            ValueView::Table(table_under(table[key])->0),
            ValueView::Table(inner_after),
            except,
        ),
    ensures
        keeps_leaves(
            ValueView::Table(table),
            ValueView::Table(table.insert(key, with_table_under(table[key], inner_after))),
            below(step_elements(key, table[key]), except),
        ),
{
    let v = table[key];
    lemma_descend_keeps(v, inner_after, except);
    lemma_insert_keeps(table, key, with_table_under(v, inner_after), below(steps_into(v), except));
    match except {
        Some(place) => {
            assert(seq![PathElementView::Key(key)] + (steps_into(v) + place) =~= step_elements(
                key,
                v,
            ) + place);
        },
        None => {},
    }
}

/// Appending a table to an array of tables changes no lookup.
pub proof fn lemma_append_keeps(tables: Seq<ValueView>, last: ValueView)
    ensures
        keeps_leaves(
            ValueView::TableArray(tables),
            ValueView::TableArray(tables.push(last)),
            None,
        ),
{
    let before = ValueView::TableArray(tables);
    let after = ValueView::TableArray(tables.push(last));
    assert forall|q: Seq<PathElementView>| leaf_at(before, q) implies #[trigger] after.lookup_path_elts(
        q,
    ) == before.lookup_path_elts(q) by {
        if q.len() > 0 {
            match q[0] {
                PathElementView::Idx(n) => {
                    if n < tables.len() {
                        assert(tables.push(last)[n as int] == tables[n as int]);
                    }
                },
                _ => {},
            }
        }
    }
}

/// A pair that is set changes no lookup that found a value other than a table
/// or an array of tables.
pub proof fn lemma_set_pair_keeps(
    table: TableView,
    path: Seq<Seq<char>>,
    key: Seq<char>,
    val: ValueView,
)
    requires
        set_pair(table, path, key, val) is Some,
    ensures
        keeps_leaves(
            ValueView::Table(table),
            ValueView::Table(set_pair(table, path, key, val)->0),
            None,
        ),
    decreases path.len(),
{
    if path.len() == 0 {
        lemma_insert_keeps(table, key, val, None);
    } else {
        let inner = table_under(table[path[0]])->0;
        let changed_inner = set_pair(inner, path.drop_first(), key, val)->0;
        lemma_set_pair_keeps(inner, path.drop_first(), key, val);
        lemma_step_keeps(table, path[0], changed_inner, None);
    }
}

/// The place of the value that opening the section path `path` in `table`
/// replaces by a table, if it replaces one: the first segment before the last
/// that leads to a value that is neither a table nor an array of tables.
pub open spec fn replaced_by(table: TableView, path: Seq<Seq<char>>) -> Option<
    Seq<PathElementView>,
>
    decreases path.len(),
{
    if path.len() <= 1 || !table.contains_key(path[0]) {
        None
    } else if table[path[0]].is_leaf() {
        Some(seq![PathElementView::Key(path[0])])
    } else {
        match table_under(table[path[0]]) {
            Some(inner) => below(
                step_elements(path[0], table[path[0]]),
                replaced_by(inner, path.drop_first()),
            ),
            None => None,
        }
    }
}

/// A section header that is accepted changes no lookup that found a value
/// other than a table or an array of tables, unless the lookup's path goes
/// through the place of the value that the header replaces.
pub proof fn lemma_open_section_keeps(table: TableView, path: Seq<Seq<char>>, is_array: bool)
    requires
        open_section(table, path, is_array) is Some,
    ensures
        keeps_leaves(
            ValueView::Table(table),
            ValueView::Table(open_section(table, path, is_array)->0),
            replaced_by(table, path),
        ),
    decreases path.len(),
{
    let head = path[0];
    if path.len() == 1 {
        if !table.contains_key(head) {
            lemma_insert_keeps(table, head, new_section(is_array), None);
        } else {
            match table[head] {
                ValueView::TableArray(tables) => {
                    lemma_append_keeps(tables, ValueView::Table(Map::empty()));
                    lemma_insert_keeps(
                        table,
                        head,
                        ValueView::TableArray(tables.push(ValueView::Table(Map::empty()))),
                        None,
                    );
                },
                _ => {},
            }
        }
    } else if table.contains_key(head) && !table[head].is_leaf() {
        let inner = table_under(table[head])->0;
        let opened = open_section(inner, path.drop_first(), is_array)->0;
        lemma_open_section_keeps(inner, path.drop_first(), is_array);
        lemma_step_keeps(table, head, opened, replaced_by(inner, path.drop_first()));
    } else {
        let opened = open_section(Map::empty(), path.drop_first(), is_array)->0;
        if table.contains_key(head) {
            let everything: Option<Seq<PathElementView>> = Some(Seq::empty());
            assert forall|q: Seq<PathElementView>| goes_through(q, everything) by {
                assert(q.take(0) =~= Seq::<PathElementView>::empty());
            }
            lemma_insert_keeps(table, head, ValueView::Table(opened), everything);
            assert(seq![PathElementView::Key(head)] + Seq::<PathElementView>::empty() =~= seq![
                PathElementView::Key(head),
            ]);
        } else {
            lemma_insert_keeps(table, head, ValueView::Table(opened), None);
        }
    }
}

} // verus!
