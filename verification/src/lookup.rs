//! Lookup: reading a value out of a tree by key, by index, or by a path of both.

use vstd::prelude::*;
use crate::path::{index_of_segment, parse_index, split_dots, split_path};
use crate::text::{strings_view, strs_view};
use crate::value::{views_of, Value, ValueView};

verus! {

/// One step of a path: a key into a table or an index into an array.
#[derive(Debug, Clone, Copy)]
pub enum PathElement<'a> {
    Key(&'a str),
    Idx(usize),
}

/// The mathematical model of a [`PathElement`].
pub enum PathElementView {
    Key(Seq<char>),
    Idx(nat),
}

impl<'a> View for PathElement<'a> {
    type V = PathElementView;

    open spec fn view(&self) -> PathElementView {
        match self {
            PathElement::Key(k) => PathElementView::Key(k@),
            PathElement::Idx(i) => PathElementView::Idx(*i as nat),
        }
    }
}

/// The models of the path elements in `v`, in order.
pub open spec fn elements_view(v: Seq<PathElement<'_>>) -> Seq<PathElementView> {
    Seq::new(v.len(), |i: int| v[i]@)
}

/// The path element that a segment of a dotted path denotes: an index where
/// the segment is written as one, else a key.
pub open spec fn element_of_segment(segment: Seq<char>) -> PathElementView {
    match index_of_segment(segment) {
        Some(n) => PathElementView::Idx(n),
        None => PathElementView::Key(segment),
    }
}

/// The path elements that a dotted path denotes.
pub open spec fn path_elements(path: Seq<char>) -> Seq<PathElementView> {
    let segments = split_dots(path);
    Seq::new(segments.len(), |i: int| element_of_segment(segments[i]))
}

/// The keys of `keys` as path elements.
pub open spec fn key_elements(keys: Seq<Seq<char>>) -> Seq<PathElementView> {
    Seq::new(keys.len(), |i: int| PathElementView::Key(keys[i]))
}

impl ValueView {
    /// The value under `key`, if this is a table that holds the key.
    pub open spec fn lookup_key(self, key: Seq<char>) -> Option<ValueView> {
        match self {
            ValueView::Table(entries) => if entries.contains_key(key) {
                Some(entries[key])
            } else {
                None
            },
            _ => None,
        }
    }

    /// The element at `idx`, if this is an array that long.
    pub open spec fn lookup_vec(self, idx: nat) -> Option<ValueView> {
        match self {
            ValueView::Array(items) => if idx < items.len() {
                Some(items[idx as int])
            } else {
                None
            },
            _ => None,
        }
    }

    /// The table at `idx`, if this is an array of tables that long.
    pub open spec fn lookup_idx(self, idx: nat) -> Option<ValueView> {
        match self {
            ValueView::TableArray(tables) => if idx < tables.len() {
                Some(tables[idx as int])
            } else {
                None
            },
            _ => None,
        }
    }

    /// One step of a path: a key applies to a table, an index to an array or
    /// to an array of tables.
    pub open spec fn lookup_element(self, element: PathElementView) -> Option<ValueView> {
        match element {
            PathElementView::Key(key) => self.lookup_key(key),
            PathElementView::Idx(idx) => match self {
                ValueView::Array(_) => self.lookup_vec(idx),
                _ => self.lookup_idx(idx),
            },
        }
    }

    /// The value at the end of `path`, each step taken from the value that the
    /// step before it found. `None` as soon as a step finds nothing.
    pub open spec fn lookup_path_elts(self, path: Seq<PathElementView>) -> Option<ValueView>
        decreases path.len(),
    {
        if path.len() == 0 {
            Some(self)
        } else {
            match self.lookup_element(path[0]) {
                Some(next) => next.lookup_path_elts(path.drop_first()),
                None => None,
            }
        }
    }

    /// The value at the end of a path of keys.
    pub open spec fn lookup_path(self, keys: Seq<Seq<char>>) -> Option<ValueView> {
        self.lookup_path_elts(key_elements(keys))
    }

    /// The value at a dotted path.
    pub open spec fn lookup(self, path: Seq<char>) -> Option<ValueView> {
        self.lookup_path_elts(path_elements(path))
    }
}

/// The model of what a lookup found.
pub open spec fn found(r: Option<&Value>) -> Option<ValueView> {
    match r {
        Some(v) => Some(v@),
        None => None,
    }
}

impl Value {
    /// The value under `key`, if this is a table that holds the key.
    pub fn lookup_key<'a>(&'a self, key: &str) -> (r: Option<&'a Value>)
        ensures
            found(r) == self@.lookup_key(key@),
    {
        match self {
            Value::Table(table) => table.get(key),
            _ => None,
        }
    }

    /// The element at `idx`, if this is an array that long.
    pub fn lookup_vec<'a>(&'a self, idx: usize) -> (r: Option<&'a Value>)
        ensures
            found(r) == self@.lookup_vec(idx as nat),
    {
        match self {
            Value::Array(items) => {
                assert(views_of(items@).len() == items@.len());
                if idx < items.len() {
                    assert(views_of(items@)[idx as int] == items@[idx as int]@);
                    Some(&items[idx])
                } else {
                    None
                }
            },
            _ => None,
        }
    }

    /// The table at `idx`, if this is an array of tables that long.
    pub fn lookup_idx<'a>(&'a self, idx: usize) -> (r: Option<&'a Value>)
        ensures
            found(r) == self@.lookup_idx(idx as nat),
    {
        match self {
            Value::TableArray(tables) => {
                assert(views_of(tables@).len() == tables@.len());
                if idx < tables.len() {
                    assert(views_of(tables@)[idx as int] == tables@[idx as int]@);
                    Some(&tables[idx])
                } else {
                    None
                }
            },
            _ => None,
        }
    }

    /// The value at the end of a path of keys.
    pub fn lookup_path<'a>(&'a self, path: &[&str]) -> (r: Option<&'a Value>)
        ensures
            found(r) == self@.lookup_path(strs_view(path@)),
    {
        let ghost keys = key_elements(strs_view(path@));
        let mut cur: &'a Value = self;
        let mut i: usize = 0;
        assert(keys.skip(0) =~= keys);
        while i < path.len()
            invariant
                i <= path@.len(),
                keys == key_elements(strs_view(path@)),
                cur@.lookup_path_elts(keys.skip(i as int)) == self@.lookup_path_elts(keys),
            decreases path@.len() - i,
        {
            proof {
                assert(keys.skip(i as int).drop_first() =~= keys.skip(i + 1));
            }
            match cur.lookup_key(path[i]) {
                Some(next) => {
                    cur = next;
                },
                None => {
                    return None;
                },
            }
            i += 1;
        }
        Some(cur)
    }

    /// The value at the end of `path`. A key applies to a table, an index to
    /// an array or to an array of tables.
    pub fn lookup_path_elts<'a>(&'a self, path: &[PathElement<'_>]) -> (r: Option<&'a Value>)
        ensures
            found(r) == self@.lookup_path_elts(elements_view(path@)),
    {
        let ghost elements = elements_view(path@);
        let mut cur: &'a Value = self;
        let mut i: usize = 0;
        assert(elements.skip(0) =~= elements);
        while i < path.len()
            invariant
                i <= path@.len(),
                elements == elements_view(path@),
                cur@.lookup_path_elts(elements.skip(i as int)) == self@.lookup_path_elts(elements),
            decreases path@.len() - i,
        {
            proof {
                assert(elements.skip(i as int).drop_first() =~= elements.skip(i + 1));
            }
            let step = match path[i] {
                PathElement::Key(key) => cur.lookup_key(key),
                PathElement::Idx(idx) => match cur {
                    Value::Array(_) => cur.lookup_vec(idx),
                    _ => cur.lookup_idx(idx),
                },
            };
            match step {
                Some(next) => {
                    cur = next;
                },
                None => {
                    return None;
                },
            }
            i += 1;
        }
        Some(cur)
    }

    /// The value at a dotted path. Each segment between two dots is an index
    /// if it is written as one, else a key.
    pub fn lookup<'a>(&'a self, path: &str) -> (r: Option<&'a Value>)
        ensures
            found(r) == self@.lookup(path@),
    {
        let segments = split_path(path);
        let mut elements: Vec<PathElement<'_>> = Vec::new();
        let mut i: usize = 0;
        while i < segments.len()
            invariant
                i <= segments@.len(),
                strings_view(segments@) == split_dots(path@),
                elements@.len() == i,
                forall|k: int|
                    0 <= k < i ==> (#[trigger] elements@[k])@ == element_of_segment(
                        split_dots(path@)[k],
                    ),
            decreases segments@.len() - i,
        {
            assert(strings_view(segments@)[i as int] == segments@[i as int]@);
            let segment = segments[i].as_str();
            let element = match parse_index(segment) {
                Some(idx) => PathElement::Idx(idx),
                None => PathElement::Key(segment),
            };
            elements.push(element);
            i += 1;
        }
        assert(strings_view(segments@).len() == segments@.len());
        assert(elements_view(elements@) =~= path_elements(path@));
        self.lookup_path_elts(elements.as_slice())
    }
}

/// A dotted path has at least one segment.
pub proof fn lemma_path_elements_nonempty(path: Seq<char>)
    ensures
        path_elements(path).len() > 0,
{
}

/// A lookup along a dotted path whose first segment finds nothing in the tree
/// finds nothing, whatever follows the segment.
pub proof fn lemma_lookup_absent_first(tree: ValueView, path: Seq<char>)
    requires
        tree.lookup_element(path_elements(path)[0]) is None,
    ensures
        tree.lookup(path) is None,
{
    lemma_path_elements_nonempty(path);
}

} // verus!
