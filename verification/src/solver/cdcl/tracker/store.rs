//! The typed vectors of the tracker.
//!
//! The tracker keeps its clauses, the live literals of each clause and the
//! watch rows in `TiVec`s of the crate `typed_index_collections`, each
//! indexed by a type of its own. Verus does not look inside a `TiVec`: what
//! each of the three kinds of vector holds is named here, and each method
//! that the tracker calls on one is given a contract over that name. These
//! contracts are believed, not proved. They state what the methods of
//! `TiVec` do: each turns the key into a `usize` and forwards to the method
//! of the same name of the `Vec` that the `TiVec` wraps.

use crate::formula::{Clause, Literal};
use crate::solver::cdcl::tracker::clause_stat::ClauseStat;
use typed_index_collections::TiVec;
use vstd::prelude::*;
use vstd::std_specs::convert::FromSpecImpl;

verus! {

/// The index of a clause in the tracker.
#[derive(Clone, Copy, Debug, PartialEq, Eq, PartialOrd, Ord, Structural)]
pub struct ClauseIdx(pub usize);

/// The index of a literal among the live literals of a clause.
#[derive(Clone, Copy, Debug, PartialEq, Eq, PartialOrd, Ord, Structural)]
pub struct ClauseCol(pub usize);

/// The index of an entry in a watch row.
#[derive(Clone, Copy, Debug, PartialEq, Eq, PartialOrd, Ord, Structural)]
pub struct VariableCol(pub usize);

impl From<usize> for ClauseIdx {
    fn from(index: usize) -> (idx: ClauseIdx) {
        ClauseIdx(index)
    }
}

impl FromSpecImpl<usize> for ClauseIdx {
    open spec fn obeys_from_spec() -> bool {
        true
    }

    open spec fn from_spec(index: usize) -> ClauseIdx {
        ClauseIdx(index)
    }
}

impl From<ClauseIdx> for usize {
    fn from(index: ClauseIdx) -> (idx: usize) {
        index.0
    }
}

impl FromSpecImpl<ClauseIdx> for usize {
    open spec fn obeys_from_spec() -> bool {
        true
    }

    open spec fn from_spec(index: ClauseIdx) -> usize {
        index.0
    }
}

impl From<usize> for ClauseCol {
    fn from(index: usize) -> (col: ClauseCol) {
        ClauseCol(index)
    }
}

impl FromSpecImpl<usize> for ClauseCol {
    open spec fn obeys_from_spec() -> bool {
        true
    }

    open spec fn from_spec(index: usize) -> ClauseCol {
        ClauseCol(index)
    }
}

impl From<ClauseCol> for usize {
    fn from(index: ClauseCol) -> (col: usize) {
        index.0
    }
}

impl FromSpecImpl<ClauseCol> for usize {
    open spec fn obeys_from_spec() -> bool {
        true
    }

    open spec fn from_spec(index: ClauseCol) -> usize {
        index.0
    }
}

impl From<usize> for VariableCol {
    fn from(index: usize) -> (col: VariableCol) {
        VariableCol(index)
    }
}

impl FromSpecImpl<usize> for VariableCol {
    open spec fn obeys_from_spec() -> bool {
        true
    }

    open spec fn from_spec(index: usize) -> VariableCol {
        VariableCol(index)
    }
}

impl From<VariableCol> for usize {
    fn from(index: VariableCol) -> (col: usize) {
        index.0
    }
}

impl FromSpecImpl<VariableCol> for usize {
    open spec fn obeys_from_spec() -> bool {
        true
    }

    open spec fn from_spec(index: VariableCol) -> usize {
        index.0
    }
}

/// An entry of a watch row: a clause that holds the row's literal, and where
/// that literal stands among the live literals of the clause while its
/// variable has no value.
#[derive(Clone, Copy, Debug, PartialEq, Eq, Structural)]
pub struct WatchElement {
    pub clause_idx: ClauseIdx,
    pub clause_col: Option<ClauseCol>,
}

impl WatchElement {
    pub fn new(clause_idx: ClauseIdx, clause_col: Option<ClauseCol>) -> (element: WatchElement)
        ensures
            element == (WatchElement { clause_idx, clause_col }),
    {
        WatchElement { clause_idx, clause_col }
    }
}

/// A live literal of a clause, and where its entry stands in the watch row
/// of the literal.
#[derive(Clone, Copy, Debug, PartialEq, Eq, Structural)]
pub struct WatchedLiteral {
    pub literal: Literal,
    pub variable_col: VariableCol,
}

/// What the tracker keeps of a clause.
pub struct TrackedClause {
    /// The clause as it was added.
    pub original: Clause,
    /// Its counts and status.
    pub stat: ClauseStat,
    /// Its literals whose variables have no value.
    pub literals: TiVec<ClauseCol, WatchedLiteral>,
}

/// `typed_index_collections::TiVec`, a vector whose positions are named by
/// keys of a type of their own. It is taken as a type whose inside is not
/// looked at.
#[verifier::external_type_specification]
#[verifier::external_body]
#[verifier::reject_recursive_types(K)]
#[verifier::reject_recursive_types(V)]
pub struct ExTiVec<K, V>(TiVec<K, V>);

/// The entries of a watch row, in order.
pub uninterp spec fn row_entries(row: TiVec<VariableCol, WatchElement>) -> Seq<WatchElement>;

/// The live literals of a clause, in order.
pub uninterp spec fn live_literals(literals: TiVec<ClauseCol, WatchedLiteral>) -> Seq<WatchedLiteral>;

/// The clauses of a tracker, in order.
pub uninterp spec fn tracked_clauses(clauses: TiVec<ClauseIdx, TrackedClause>) -> Seq<TrackedClause>;

/// `TiVec::new` for a watch row: a row without entries.
#[verifier::external_body]
pub(crate) fn row_new() -> (row: TiVec<VariableCol, WatchElement>)
    ensures
        row_entries(row) == Seq::<WatchElement>::empty(),
{
    TiVec::new()
}

/// `TiVec::len` for a watch row: the number of its entries.
#[verifier::external_body]
pub(crate) fn row_len(row: &TiVec<VariableCol, WatchElement>) -> (len: usize)
    ensures
        len == row_entries(*row).len(),
{
    row.len()
}

/// `Index::index` of `TiVec` with a key, for a watch row: the entry at the
/// position that the key names.
#[verifier::external_body]
pub(crate) fn row_get(row: &TiVec<VariableCol, WatchElement>, col: VariableCol) -> (element:
    WatchElement)
    requires
        col.0 < row_entries(*row).len(),
    ensures
        element == row_entries(*row)[col.0 as int],
{
    row[col]
}

/// `IndexMut::index_mut` of `TiVec` with a key, for a watch row: the entry
/// at the position that the key names, for writing. What is written there
/// becomes that entry, and no other entry changes.
#[verifier::external_body]
pub(crate) fn row_get_mut(row: &mut TiVec<VariableCol, WatchElement>, col: VariableCol) -> (element:
    &mut WatchElement)
    requires
        col.0 < row_entries(*old(row)).len(),
    ensures
        *element == row_entries(*old(row))[col.0 as int],
        row_entries(*final(row)) == row_entries(*old(row)).update(col.0 as int, *final(element)),
{
    &mut row[col]
}

/// `TiVec::push_and_get_key` for a watch row: the entry is appended and the
/// key of its position is returned.
#[verifier::external_body]
pub(crate) fn row_push(row: &mut TiVec<VariableCol, WatchElement>, element: WatchElement) -> (col:
    VariableCol)
    ensures
        row_entries(*final(row)) == row_entries(*old(row)).push(element),
        col.0 == row_entries(*old(row)).len(),
{
    row.push_and_get_key(element)
}

/// `TiVec::new` for the live literals of a clause: none.
#[verifier::external_body]
pub(crate) fn live_new() -> (literals: TiVec<ClauseCol, WatchedLiteral>)
    ensures
        live_literals(literals) == Seq::<WatchedLiteral>::empty(),
{
    TiVec::new()
}

/// `TiVec::len` for the live literals of a clause: their number.
#[verifier::external_body]
pub(crate) fn live_len(literals: &TiVec<ClauseCol, WatchedLiteral>) -> (len: usize)
    ensures
        len == live_literals(*literals).len(),
{
    literals.len()
}

/// `TiVec::get` with a key for the live literals of a clause: the literal at
/// the key's position, or `None` when the key is past the end.
#[verifier::external_body]
pub(crate) fn live_get(literals: &TiVec<ClauseCol, WatchedLiteral>, col: ClauseCol) -> (literal:
    Option<WatchedLiteral>)
    ensures
        col.0 < live_literals(*literals).len() ==> literal == Some(
            live_literals(*literals)[col.0 as int],
        ),
        col.0 >= live_literals(*literals).len() ==> literal.is_none(),
{
    literals.get(col).copied()
}

/// `TiVec::push_and_get_key` for the live literals of a clause: the literal
/// is appended and the key of its position is returned.
#[verifier::external_body]
pub(crate) fn live_push(literals: &mut TiVec<ClauseCol, WatchedLiteral>, literal: WatchedLiteral) -> (col:
    ClauseCol)
    ensures
        live_literals(*final(literals)) == live_literals(*old(literals)).push(literal),
        col.0 == live_literals(*old(literals)).len(),
{
    literals.push_and_get_key(literal)
}

/// What `swap_remove` leaves of a sequence: the last element takes the place
/// of the removed one.
pub open spec fn swap_removed<T>(s: Seq<T>, position: int) -> Seq<T> {
    s.update(position, s.last()).drop_last()
}

/// `TiVec::swap_remove` for the live literals of a clause: the literal at
/// the key's position is returned, the last literal takes its place, and the
/// list is one shorter.
#[verifier::external_body]
pub(crate) fn live_swap_remove(literals: &mut TiVec<ClauseCol, WatchedLiteral>, col: ClauseCol) -> (removed:
    WatchedLiteral)
    requires
        col.0 < live_literals(*old(literals)).len(),
    ensures
        removed == live_literals(*old(literals))[col.0 as int],
        live_literals(*final(literals)) == swap_removed(live_literals(*old(literals)), col.0 as int),
{
    literals.swap_remove(col)
}

/// `TiVec::new` for the clauses of a tracker: none.
#[verifier::external_body]
pub(crate) fn clauses_new() -> (clauses: TiVec<ClauseIdx, TrackedClause>)
    ensures
        tracked_clauses(clauses) == Seq::<TrackedClause>::empty(),
{
    TiVec::new()
}

/// `TiVec::len` for the clauses of a tracker: their number.
#[verifier::external_body]
pub(crate) fn clauses_len(clauses: &TiVec<ClauseIdx, TrackedClause>) -> (len: usize)
    ensures
        len == tracked_clauses(*clauses).len(),
{
    clauses.len()
}

/// `Index::index` of `TiVec` with a key, for the clauses of a tracker: the
/// clause at the position that the key names.
#[verifier::external_body]
pub(crate) fn clauses_get(clauses: &TiVec<ClauseIdx, TrackedClause>, idx: ClauseIdx) -> (clause:
    &TrackedClause)
    requires
        idx.0 < tracked_clauses(*clauses).len(),
    ensures
        *clause == tracked_clauses(*clauses)[idx.0 as int],
{
    &clauses[idx]
}

/// `IndexMut::index_mut` of `TiVec` with a key, for the clauses of a
/// tracker: the clause at the position that the key names, for writing.
/// What is written there becomes that clause, and no other clause changes.
#[verifier::external_body]
pub(crate) fn clauses_get_mut(clauses: &mut TiVec<ClauseIdx, TrackedClause>, idx: ClauseIdx) -> (clause:
    &mut TrackedClause)
    requires
        idx.0 < tracked_clauses(*old(clauses)).len(),
    ensures
        *clause == tracked_clauses(*old(clauses))[idx.0 as int],
        tracked_clauses(*final(clauses)) == tracked_clauses(*old(clauses)).update(
            idx.0 as int,
            *final(clause),
        ),
{
    &mut clauses[idx]
}

/// `TiVec::push_and_get_key` for the clauses of a tracker: the clause is
/// appended and the key of its position is returned. The number of clauses
/// is then one that `TiVec::len` can return, a `usize`.
#[verifier::external_body]
pub(crate) fn clauses_push(clauses: &mut TiVec<ClauseIdx, TrackedClause>, clause: TrackedClause) -> (idx:
    ClauseIdx)
    ensures
        tracked_clauses(*final(clauses)) == tracked_clauses(*old(clauses)).push(clause),
        tracked_clauses(*final(clauses)).len() <= usize::MAX,
        idx.0 == tracked_clauses(*old(clauses)).len(),
{
    clauses.push_and_get_key(clause)
}

} // verus!
