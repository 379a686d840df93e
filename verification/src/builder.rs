//! The document builder: it takes section headers and key/value pairs in the
//! order of the text and assembles the tree of tables.

use vstd::prelude::*;
use crate::path::{split_dots, split_path};
use crate::text::strings_view;
use crate::value::{views_of, Table, TableView, Value, ValueView};

verus! {

/// The table that a path segment leads into: the table stored under the
/// segment, or the last table of the array of tables stored under it.
pub open spec fn table_under(v: ValueView) -> Option<TableView> {
    match v {
        ValueView::Table(t) => Some(t),
        ValueView::TableArray(tables) => if tables.len() > 0 && tables.last() is Table {
            Some(tables.last()->Table_0)
        } else {
            None
        },
        _ => None,
    }
}

/// `v`, a table or an array of tables, with the table that a path leads into
/// replaced by `t`.
pub open spec fn with_table_under(v: ValueView, t: TableView) -> ValueView {
    match v {
        ValueView::TableArray(tables) => ValueView::TableArray(
            tables.update(tables.len() - 1, ValueView::Table(t)),
        ),
        _ => ValueView::Table(t),
    }
}

/// What a header newly creates at the end of its path: an array of one empty
/// table for a header of an array of tables, else an empty table.
pub open spec fn new_section(is_array: bool) -> ValueView {
    if is_array {
        ValueView::TableArray(seq![ValueView::Table(Map::empty())])
    } else {
        ValueView::Table(Map::empty())
    }
}

/// The tree `table` after the section header with the segments `path` has been
/// opened in it, or `None` where the header is refused.
///
/// No segment may be empty. At the last segment a table header finds a table
/// or creates one; a header of an array of tables appends an empty table to
/// the array that it finds or creates one; any other value under the segment
/// refuses the header. At a segment before the last the path goes on in the
/// table, or in the last table of the array of tables, that the segment leads
/// to; where it leads to neither, a new table takes the segment and the path
/// goes on in it.
pub open spec fn open_section(table: TableView, path: Seq<Seq<char>>, is_array: bool) -> Option<
    TableView,
>
    decreases path.len(),
{
    if path.len() == 0 || path[0].len() == 0 {
        None
    } else if path.len() == 1 {
        if !table.contains_key(path[0]) {
            Some(table.insert(path[0], new_section(is_array)))
        } else {
            match table[path[0]] {
                ValueView::TableArray(tables) => if is_array {
                    Some(
                        table.insert(
                            path[0],
                            ValueView::TableArray(tables.push(ValueView::Table(Map::empty()))),
                        ),
                    )
                } else {
                    None
                },
                ValueView::Table(_) => if is_array {
                    None
                } else {
                    Some(table)
                },
                _ => None,
            }
        }
    } else if table.contains_key(path[0]) && !table[path[0]].is_leaf() {
        match table_under(table[path[0]]) {
            Some(inner) => match open_section(inner, path.drop_first(), is_array) {
                Some(opened) => Some(
                    table.insert(path[0], with_table_under(table[path[0]], opened)),
                ),
                None => None,
            },
            None => None,
        }
    } else {
        match open_section(Map::empty(), path.drop_first(), is_array) {
            Some(opened) => Some(table.insert(path[0], ValueView::Table(opened))),
            None => None,
        }
    }
}

/// The tree `table` after `key` has been set to `val` in the table that the
/// section path `path` leads to, or `None` where the path leads to no table
/// or the table holds the key already.
pub open spec fn set_pair(
    table: TableView,
    path: Seq<Seq<char>>,
    key: Seq<char>,
    val: ValueView,
) -> Option<TableView>
    decreases path.len(),
{
    if path.len() == 0 {
        if table.contains_key(key) {
            None
        } else {
            Some(table.insert(key, val))
        }
    } else if table.contains_key(path[0]) {
        match table_under(table[path[0]]) {
            Some(inner) => match set_pair(inner, path.drop_first(), key, val) {
                Some(changed) => Some(
                    table.insert(path[0], with_table_under(table[path[0]], changed)),
                ),
                None => None,
            },
            None => None,
        }
    } else {
        None
    }
}

/// The interface between the parse loop and what is built from the text: the
/// loop reports each section header and each key/value pair, and stops at
/// the first that is refused.
///
/// What a visitor does is stated over its model: for each of the two events a
/// function from the model before the event to the model after it, or to
/// `None` where the event is refused. A refused event leaves the model
/// unchanged.
pub trait Visitor: View + Sized {
    /// The model after the header `name`, or `None` where it is refused.
    spec fn after_section(state: Self::V, name: Seq<char>, is_array: bool) -> Option<Self::V>;

    /// The model after the pair of `key` and `val`, or `None` where it is refused.
    spec fn after_pair(state: Self::V, key: Seq<char>, val: ValueView) -> Option<Self::V>;

    /// Takes a section header; returns whether it was accepted.
    fn section(&mut self, name: String, is_array: bool) -> (ok: bool)
        ensures
            ok == (Self::after_section(old(self)@, name@, is_array) is Some),
            final(self)@ == (match Self::after_section(old(self)@, name@, is_array) {
                Some(state) => state,
                None => old(self)@,
            }),
    ;

    /// Takes a key/value pair; returns whether it was accepted.
    fn pair(&mut self, key: String, val: Value) -> (ok: bool)
        ensures
            ok == (Self::after_pair(old(self)@, key@, val@) is Some),
            final(self)@ == (match Self::after_pair(old(self)@, key@, val@) {
                Some(state) => state,
                None => old(self)@,
            }),
    ;
}

/// The builder of the tree: the root table, and the path of the section that
/// was opened last.
pub struct ValueBuilder {
    root: Table,
    current_path: Vec<String>,
}

/// The mathematical model of a [`ValueBuilder`].
pub struct BuilderView {
    pub root: TableView,
    pub current_path: Seq<Seq<char>>,
}

impl View for ValueBuilder {
    type V = BuilderView;

    closed spec fn view(&self) -> BuilderView {
        BuilderView { root: self.root@, current_path: strings_view(self.current_path@) }
    }
}

impl ValueBuilder {
    /// A builder with an empty root table and no section opened.
    pub fn new() -> (b: ValueBuilder)
        ensures
            b@ == (BuilderView { root: Map::empty(), current_path: Seq::empty() }),
    {
        let b = ValueBuilder { root: Table::new(), current_path: Vec::new() };
        assert(strings_view(b.current_path@) =~= Seq::<Seq<char>>::empty());
        b
    }

    /// The root table as built so far.
    pub fn get_root(&self) -> (t: &Table)
        ensures
            t@ == self@.root,
    {
        &self.root
    }

    /// Ends the building and hands out the root table.
    pub fn into_root(self) -> (t: Table)
        ensures
            t@ == self@.root,
    {
        self.root
    }

    /// Opens the section with the segments `path` in `ht`. A refused header
    /// leaves `ht` as it was.
    pub fn recursive_create_tree(path: &[String], ht: &mut Table, is_array: bool) -> (ok: bool)
        ensures
            ok == (open_section(old(ht)@, strings_view(path@), is_array) is Some),
            final(ht)@ == (match open_section(old(ht)@, strings_view(path@), is_array) {
                Some(opened) => opened,
                None => old(ht)@,
            }),
        decreases path@.len(),
    {
        let ghost segments = strings_view(path@);
        let ghost before = ht@;
        if path.len() == 0 {
            return false;
        }
        assert(segments[0] == path@[0]@);
        if path[0].as_str().is_empty() {
            return false;
        }
        let term_rec = path.len() == 1;
        let tail = vstd::slice::slice_subrange(path, 1, path.len());
        assert(strings_view(tail@) =~= segments.drop_first());
        let ok = match ht.get_mut(path[0].as_str()) {
            Some(slot) => {
                let ghost found = slot@;
                assert(before.insert(segments[0], found) =~= before);
                match slot {
                    Value::TableArray(table_array) => {
                        let ghost tables = views_of(table_array@);
                        assert(tables.len() == table_array@.len());
                        if term_rec {
                            if is_array {
                                table_array.push(Value::Table(Table::new()));
                                assert(views_of(table_array@) =~= tables.push(
                                    ValueView::Table(Map::empty()),
                                ));
                                true
                            } else {
                                false
                            }
                        } else {
                            let n = table_array.len();
                            if n == 0 {
                                return false;
                            }
                            assert(tables[n - 1] == table_array@[n - 1]@);
                            let ghost last = table_array@[n - 1];
                            let ghost mut inner_after: TableView = Map::empty();
                            let ok = match &mut table_array[n - 1] {
                                Value::Table(hmap) => {
                                    let ok = ValueBuilder::recursive_create_tree(
                                        tail,
                                        hmap,
                                        is_array,
                                    );
                                    proof {
                                        inner_after = hmap@;
                                    }
                                    ok
                                },
                                _ => false,
                            };
                            proof {
                                if last is Table {
                                    assert(table_array@[n - 1]@ == ValueView::Table(inner_after));
                                    assert(views_of(table_array@) =~= tables.update(
                                        n - 1,
                                        ValueView::Table(inner_after),
                                    ));
                                    if !ok {
                                        assert(tables.update(n - 1, ValueView::Table(inner_after))
                                            =~= tables);
                                    }
                                } else {
                                    assert(views_of(table_array@) =~= tables);
                                }
                            }
                            ok
                        }
                    },
                    Value::Table(table) => {
                        if term_rec {
                            !is_array
                        } else {
                            ValueBuilder::recursive_create_tree(tail, table, is_array)
                        }
                    },
                    _ => {
                        if term_rec {
                            return false;
                        }
                        let mut table = Table::new();
                        if !ValueBuilder::recursive_create_tree(tail, &mut table, is_array) {
                            return false;
                        }
                        *slot = Value::Table(table);
                        true
                    },
                }
            },
            None => {
                let value = if term_rec {
                    if is_array {
                        let mut tables: Vec<Value> = Vec::new();
                        tables.push(Value::Table(Table::new()));
                        assert(views_of(tables@) =~= seq![ValueView::Table(Map::empty())]);
                        Value::TableArray(tables)
                    } else {
                        Value::Table(Table::new())
                    }
                } else {
                    let mut table = Table::new();
                    if !ValueBuilder::recursive_create_tree(tail, &mut table, is_array) {
                        return false;
                    }
                    Value::Table(table)
                };
                ht.insert(path[0].clone(), value)
            },
        };
        proof {
            let expected = match open_section(before, segments, is_array) {
                Some(opened) => opened,
                None => before,
            };
            assert(ok == (open_section(before, segments, is_array) is Some));
            assert(ht@ =~= expected);
        }
        ok
    }
}

impl ValueBuilder {
    /// Sets `key` to `val` in the table that the section path `path` leads to
    /// in `ht`. Nothing changes where the path leads to no table or the table
    /// holds the key already.
    pub fn insert_value(path: &[String], key: &str, ht: &mut Table, val: Value) -> (ok: bool)
        ensures
            ok == (set_pair(old(ht)@, strings_view(path@), key@, val@) is Some),
            final(ht)@ == (match set_pair(old(ht)@, strings_view(path@), key@, val@) {
                Some(changed) => changed,
                None => old(ht)@,
            }),
        decreases path@.len(),
    {
        let ghost segments = strings_view(path@);
        let ghost before = ht@;
        if path.len() == 0 {
            return ht.insert(key.to_owned(), val);
        }
        assert(segments[0] == path@[0]@);
        let tail = vstd::slice::slice_subrange(path, 1, path.len());
        assert(strings_view(tail@) =~= segments.drop_first());
        let ok = match ht.get_mut(path[0].as_str()) {
            Some(slot) => {
                let ghost found = slot@;
                assert(before.insert(segments[0], found) =~= before);
                match slot {
                    Value::Table(table) => ValueBuilder::insert_value(tail, key, table, val),
                    Value::TableArray(table_array) => {
                        let ghost tables = views_of(table_array@);
                        assert(tables.len() == table_array@.len());
                        let n = table_array.len();
                        if n == 0 {
                            return false;
                        }
                        assert(tables[n - 1] == table_array@[n - 1]@);
                        let ghost last = table_array@[n - 1];
                        let ghost mut inner_after: TableView = Map::empty();
                        let ok = match &mut table_array[n - 1] {
                            Value::Table(hmap) => {
                                let ok = ValueBuilder::insert_value(tail, key, hmap, val);
                                proof {
                                    inner_after = hmap@;
                                }
                                ok
                            },
                            _ => false,
                        };
                        proof {
                            if last is Table {
                                assert(table_array@[n - 1]@ == ValueView::Table(inner_after));
                                assert(views_of(table_array@) =~= tables.update(
                                    n - 1,
                                    ValueView::Table(inner_after),
                                ));
                                if !ok {
                                    assert(tables.update(n - 1, ValueView::Table(inner_after))
                                        =~= tables);
                                }
                            } else {
                                assert(views_of(table_array@) =~= tables);
                            }
                        }
                        ok
                    },
                    _ => false,
                }
            },
            None => false,
        };
        proof {
            let expected = match set_pair(before, segments, key@, val@) {
                Some(changed) => changed,
                None => before,
            };
            assert(ht@ =~= expected);
        }
        ok
    }
}

/// The model of a builder after the header `name`: the tree with the section
/// opened, and the segments of `name` as the current path. `None` where the
/// header is refused.
pub open spec fn builder_after_section(state: BuilderView, name: Seq<char>, is_array: bool) -> Option<
    BuilderView,
> {
    match open_section(state.root, split_dots(name), is_array) {
        Some(root) => Some(BuilderView { root, current_path: split_dots(name) }),
        None => None,
    }
}

/// The model of a builder after the pair of `key` and `val`: the tree with the
/// key set in the table of the current section. `None` where the pair is
/// refused.
pub open spec fn builder_after_pair(state: BuilderView, key: Seq<char>, val: ValueView) -> Option<
    BuilderView,
> {
    match set_pair(state.root, state.current_path, key, val) {
        Some(root) => Some(BuilderView { root, current_path: state.current_path }),
        None => None,
    }
}

impl Visitor for ValueBuilder {
    open spec fn after_section(state: BuilderView, name: Seq<char>, is_array: bool) -> Option<
        BuilderView,
    > {
        builder_after_section(state, name, is_array)
    }

    open spec fn after_pair(state: BuilderView, key: Seq<char>, val: ValueView) -> Option<
        BuilderView,
    > {
        builder_after_pair(state, key, val)
    }

    /// Opens the section `name`, a dotted path, and makes it the current
    /// section. A refused header changes nothing.
    fn section(&mut self, name: String, is_array: bool) -> (ok: bool) {
        let path = split_path(name.as_str());
        let ok = ValueBuilder::recursive_create_tree(path.as_slice(), &mut self.root, is_array);
        if ok {
            self.current_path = path;
        }
        ok
    }

    /// Sets `key` to `val` in the current section. A refused pair changes
    /// nothing.
    fn pair(&mut self, key: String, val: Value) -> (ok: bool) {
        ValueBuilder::insert_value(self.current_path.as_slice(), key.as_str(), &mut self.root, val)
    }
}

} // verus!
