//! What holds of a whole parse: every pair that a text declares is found in
//! the tree that the text parses to, under the path of the place where it
//! was declared.

use vstd::prelude::*;
use crate::builder::{builder_after_pair, builder_after_section, BuilderView, ValueBuilder};
use crate::builder_laws::{lemma_set_pair, section_target};
use crate::frame_laws::{
    goes_through, leaf_at, lemma_open_section_keeps, lemma_set_pair_keeps, replaced_by,
};
use crate::wf_laws::{lemma_open_section_wf, lemma_set_pair_wf};
use crate::document::{document, lemma_statement_at, run, statement_at, Statement};
use crate::lookup::{path_elements, PathElementView};
use crate::path::split_dots;
use crate::path_laws::{dotted, is_plain, lemma_dotted_read_back};
use crate::scanner::{lemma_skip_blanks_and_comments, skip_blanks_and_comments};
use crate::value::ValueView;

verus! {

/// The model of a builder that has seen nothing yet.
pub open spec fn fresh_builder() -> BuilderView {
    BuilderView { root: Map::empty(), current_path: Seq::empty() }
}

/// A pair as a text declares it: the value, and the path of its place in the
/// tree. The path holds the segments of the header of the pair's section, after
/// each segment that names an array of tables the index of the table that
/// was the array's last when the pair was declared, and the key.
pub struct Declaration {
    pub path: Seq<PathElementView>,
    pub val: ValueView,
}

/// The place of a pair with the key `key` that is declared when the builder's
/// model is `state`.
pub open spec fn place_of(state: BuilderView, key: Seq<char>) -> Seq<PathElementView> {
    section_target(state.root, state.current_path)->0.elements.push(PathElementView::Key(key))
}

/// The pairs that `s` declares from position `i` on, the builder's model being
/// `state`, in the order of the text and up to where the parse stops.
pub open spec fn declarations(s: Seq<char>, i: int, state: BuilderView) -> Seq<Declaration>
    decreases s.len() - i,
{
    let p = skip_blanks_and_comments(s, i);
    match statement_at(s, p) {
        Statement::Section { name, is_array, end } => match builder_after_section(
            state,
            name,
            is_array,
        ) {
            Some(next) => if i < end <= s.len() {
                declarations(s, end, next)
            } else {
                Seq::empty()
            },
            None => Seq::empty(),
        },
        Statement::Pair { key, val, end } => match builder_after_pair(state, key, val) {
            Some(next) => if i < end <= s.len() {
                seq![Declaration { path: place_of(state, key), val }] + declarations(s, end, next)
            } else {
                Seq::empty()
            },
            None => Seq::empty(),
        },
        _ => Seq::empty(),
    }
}

/// Whether the value at `place` stays in its place from position `i` of `s`
/// on, the builder's model being `state`: no section header that is accepted
/// replaces, by a table, the value at `place` or a value on the way to it.
pub open spec fn stays_in_place(
    s: Seq<char>,
    i: int,
    state: BuilderView,
    place: Seq<PathElementView>,
) -> bool
    decreases s.len() - i,
{
    let p = skip_blanks_and_comments(s, i);
    match statement_at(s, p) {
        Statement::Section { name, is_array, end } => match builder_after_section(
            state,
            name,
            is_array,
        ) {
            Some(next) => !goes_through(place, replaced_by(state.root, split_dots(name))) && (i
                < end <= s.len() ==> stays_in_place(s, end, next, place)),
            None => true,
        },
        Statement::Pair { key, val, end } => match builder_after_pair(state, key, val) {
            Some(next) => i < end <= s.len() ==> stays_in_place(s, end, next, place),
            None => true,
        },
        _ => true,
    }
}

/// Whether the value of the pair that `s` declares as its `k`-th from
/// position `i` on stays in its place to the end of the text.
pub open spec fn declared_stays(s: Seq<char>, i: int, state: BuilderView, k: int) -> bool
    decreases s.len() - i,
{
    let p = skip_blanks_and_comments(s, i);
    match statement_at(s, p) {
        Statement::Section { name, is_array, end } => match builder_after_section(
            state,
            name,
            is_array,
        ) {
            Some(next) => i < end <= s.len() ==> declared_stays(s, end, next, k),
            None => true,
        },
        Statement::Pair { key, val, end } => match builder_after_pair(state, key, val) {
            Some(next) => i < end <= s.len() ==> if k == 0 {
                stays_in_place(s, end, next, place_of(state, key))
            } else {
                declared_stays(s, end, next, k - 1)
            },
            None => true,
        },
        _ => true,
    }
}

/// A value other than a table or an array of tables that stays in its place
/// is found there at the end of a parse that succeeds.
pub proof fn lemma_run_keeps(s: Seq<char>, i: int, state: BuilderView, place: Seq<PathElementView>)
    requires
        0 <= i <= s.len(),
        run::<ValueBuilder>(s, i, state).error is None,
        leaf_at(ValueView::Table(state.root), place),
        stays_in_place(s, i, state, place),
    ensures
        ValueView::Table(run::<ValueBuilder>(s, i, state).state.root).lookup_path_elts(place)
            == ValueView::Table(state.root).lookup_path_elts(place),
    decreases s.len() - i,
{
    lemma_skip_blanks_and_comments(s, i);
    let p = skip_blanks_and_comments(s, i);
    lemma_statement_at(s, p);
    let before = ValueView::Table(state.root);
    match statement_at(s, p) {
        Statement::Section { name, is_array, end } => {
            let next = builder_after_section(state, name, is_array)->0;
            lemma_open_section_keeps(state.root, split_dots(name), is_array);
            let between = ValueView::Table(next.root);
            assert(between.lookup_path_elts(place) == before.lookup_path_elts(place));
            lemma_run_keeps(s, end, next, place);
        },
        Statement::Pair { key, val, end } => {
            let next = builder_after_pair(state, key, val)->0;
            lemma_set_pair_keeps(state.root, state.current_path, key, val);
            let between = ValueView::Table(next.root);
            assert(between.lookup_path_elts(place) == before.lookup_path_elts(place));
            lemma_run_keeps(s, end, next, place);
        },
        _ => {},
    }
}

/// In the tree of a parse that succeeds, a lookup along the path of a
/// declared pair finds the pair's value, if the value has stayed in its place.
pub proof fn lemma_declared_pair_found(s: Seq<char>, i: int, state: BuilderView, k: int)
    requires
        0 <= i <= s.len(),
        run::<ValueBuilder>(s, i, state).error is None,
        0 <= k < declarations(s, i, state).len(),
        declared_stays(s, i, state, k),
    ensures
        ValueView::Table(run::<ValueBuilder>(s, i, state).state.root).lookup_path_elts(
            declarations(s, i, state)[k].path,
        ) == Some(declarations(s, i, state)[k].val),
    decreases s.len() - i,
{
    lemma_skip_blanks_and_comments(s, i);
    let p = skip_blanks_and_comments(s, i);
    lemma_statement_at(s, p);
    match statement_at(s, p) {
        Statement::Section { name, is_array, end } => {
            let next = builder_after_section(state, name, is_array)->0;
            lemma_declared_pair_found(s, end, next, k);
        },
        Statement::Pair { key, val, end } => {
            let next = builder_after_pair(state, key, val)->0;
            if k == 0 {
                lemma_set_pair(state.root, state.current_path, key, val);
                lemma_run_keeps(s, end, next, place_of(state, key));
            } else {
                lemma_declared_pair_found(s, end, next, k - 1);
            }
        },
        _ => {},
    }
}

/// Every pair that a text declares is found in the tree that the text parses
/// to, by a lookup along any dotted path that denotes the path of the pair's
/// place. The one exception is a pair whose value a later section header has
/// replaced by a table.
pub proof fn lemma_document_pair_found(s: Seq<char>, k: int, path: Seq<char>)
    requires
        document(s) is Ok,
        0 <= k < declarations(s, 0, fresh_builder()).len(),
        declared_stays(s, 0, fresh_builder(), k),
        path_elements(path) == declarations(s, 0, fresh_builder())[k].path,
    ensures
        ValueView::Table(document(s)->Ok_0).lookup(path) == Some(
            declarations(s, 0, fresh_builder())[k].val,
        ),
{
    lemma_declared_pair_found(s, 0, fresh_builder(), k);
}

/// Every pair that a text declares is found under the dotted path of its
/// place: the segments of its section's header, after each that names an
/// array of tables the index of the array's last table at that time, and the
/// key, with dots between them. This holds of every text that parses and of
/// every pair in it, with two exceptions: a pair whose value a later section
/// header has replaced by a table, and a pair with a name on its path that
/// holds a dot or is written as an index.
pub proof fn lemma_document_pair_found_by_dotted_path(s: Seq<char>, k: int)
    requires
        document(s) is Ok,
        0 <= k < declarations(s, 0, fresh_builder()).len(),
        declared_stays(s, 0, fresh_builder(), k),
        forall|i: int|
            0 <= i < declarations(s, 0, fresh_builder())[k].path.len() ==> is_plain(
                #[trigger] declarations(s, 0, fresh_builder())[k].path[i],
            ),
    ensures
        ValueView::Table(document(s)->Ok_0).lookup(
            dotted(declarations(s, 0, fresh_builder())[k].path),
        ) == Some(declarations(s, 0, fresh_builder())[k].val),
{
    let declared = declarations(s, 0, fresh_builder())[k];
    lemma_declared_path_ends_in_key(s, 0, fresh_builder(), k);
    lemma_dotted_read_back(declared.path);
    lemma_document_pair_found(s, k, dotted(declared.path));
}

/// The path of a declared pair ends in the pair's key, so it is not empty.
pub proof fn lemma_declared_path_ends_in_key(s: Seq<char>, i: int, state: BuilderView, k: int)
    requires
        0 <= i <= s.len(),
        0 <= k < declarations(s, i, state).len(),
    ensures
        declarations(s, i, state)[k].path.len() > 0,
        declarations(s, i, state)[k].path.last() is Key,
    decreases s.len() - i,
{
    lemma_skip_blanks_and_comments(s, i);
    let p = skip_blanks_and_comments(s, i);
    lemma_statement_at(s, p);
    match statement_at(s, p) {
        Statement::Section { name, is_array, end } => {
            lemma_declared_path_ends_in_key(
                s,
                end,
                builder_after_section(state, name, is_array)->0,
                k,
            );
        },
        Statement::Pair { key, val, end } => {
            if k > 0 {
                lemma_declared_path_ends_in_key(
                    s,
                    end,
                    builder_after_pair(state, key, val)->0,
                    k - 1,
                );
            }
        },
        _ => {},
    }
}

/// A parse that starts with a well-formed tree ends with one.
pub proof fn lemma_run_wf(s: Seq<char>, i: int, state: BuilderView)
    requires
        0 <= i <= s.len(),
        ValueView::Table(state.root).wf(),
    ensures
        ValueView::Table(run::<ValueBuilder>(s, i, state).state.root).wf(),
    decreases s.len() - i,
{
    lemma_skip_blanks_and_comments(s, i);
    let p = skip_blanks_and_comments(s, i);
    lemma_statement_at(s, p);
    match statement_at(s, p) {
        Statement::Section { name, is_array, end } => {
            if builder_after_section(state, name, is_array) is Some {
                lemma_open_section_wf(state.root, split_dots(name), is_array);
                lemma_run_wf(s, end, builder_after_section(state, name, is_array)->0);
            }
        },
        Statement::Pair { key, val, end } => {
            if builder_after_pair(state, key, val) is Some {
                lemma_set_pair_wf(state.root, state.current_path, key, val);
                lemma_run_wf(s, end, builder_after_pair(state, key, val)->0);
            }
        },
        _ => {},
    }
}

/// The tree that a text parses to is well formed: its arrays hold elements of
/// compatible types, its arrays of tables are not empty and hold tables only,
/// and its tables hold no `NoValue`.
pub proof fn lemma_document_wf(s: Seq<char>)
    requires
        document(s) is Ok,
    ensures
        ValueView::Table(document(s)->Ok_0).wf(),
{
    assert(ValueView::Table(fresh_builder().root).wf());
    lemma_run_wf(s, 0, fresh_builder());
}

} // verus!
