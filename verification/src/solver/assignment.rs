//! Partial assignments and what the literals of a clause are worth under
//! them.

use crate::count::{
    count_upto, lemma_count_bound, lemma_count_ext, lemma_count_flip, lemma_count_full,
    lemma_count_mono, lemma_count_sum, lemma_count_witness, lemma_count_zero,
};
use crate::formula::{clause_holds, clause_in_range, Literal};
use vstd::prelude::*;

verus! {

/// Whether the total assignment agrees with the partial one wherever the
/// partial one gives a value.
pub open spec fn extends(total: Seq<bool>, partial: Seq<Option<bool>>) -> bool {
    &&& total.len() == partial.len()
    &&& forall|v: int| 0 <= v < partial.len() && partial[v].is_some() ==> total[v] == (#[trigger] partial[v]).unwrap()
}

/// The total assignment that agrees with the partial one and makes every
/// unassigned variable true.
pub open spec fn completion(partial: Seq<Option<bool>>) -> Seq<bool> {
    Seq::new(
        partial.len(),
        |v: int|
            match partial[v] {
                Some(value) => value,
                None => true,
            },
    )
}

/// Computes the completion of a partial assignment.
pub fn complete(partial: &[Option<bool>]) -> (total: Vec<bool>)
    ensures
        total@ == completion(partial@),
{
    let mut total: Vec<bool> = Vec::new();
    let mut index: usize = 0;
    while index < partial.len()
        invariant
            index <= partial@.len(),
            total@.len() == index,
            forall|v: int| 0 <= v < index ==> total@[v] == completion(partial@)[v],
        decreases partial@.len() - index,
    {
        let value = match partial[index] {
            Some(value) => value,
            None => true,
        };
        total.push(value);
        index += 1;
    }
    total
}

/// Holds at the positions of the clause whose literal is true.
pub open spec fn is_true_at(clause: Seq<Literal>, partial: Seq<Option<bool>>) -> spec_fn(int) -> bool {
    |i: int| clause[i].value_under(partial) == Some(true)
}

/// Holds at the positions of the clause whose literal is false.
pub open spec fn is_false_at(clause: Seq<Literal>, partial: Seq<Option<bool>>) -> spec_fn(int) -> bool {
    |i: int| clause[i].value_under(partial) == Some(false)
}

/// Holds at the positions of the clause that hold the given literal.
pub open spec fn is_literal_at(clause: Seq<Literal>, literal: Literal) -> spec_fn(int) -> bool {
    |i: int| clause[i] == literal
}

/// The number of literals of the clause that are true.
pub open spec fn true_count(clause: Seq<Literal>, partial: Seq<Option<bool>>) -> nat {
    count_upto(clause.len() as int, is_true_at(clause, partial))
}

/// The number of literals of the clause that are false.
pub open spec fn false_count(clause: Seq<Literal>, partial: Seq<Option<bool>>) -> nat {
    count_upto(clause.len() as int, is_false_at(clause, partial))
}

/// The number of times the literal stands in the clause.
pub open spec fn literal_count(clause: Seq<Literal>, literal: Literal) -> nat {
    count_upto(clause.len() as int, is_literal_at(clause, literal))
}

/// Holds at the positions of the row that name the clause.
pub open spec fn names_clause_at(row: Seq<usize>, clause: int) -> spec_fn(int) -> bool {
    |t: int| row[t] == clause
}

/// The number of the first `upto` entries of the row that name the clause.
pub open spec fn occurrences(row: Seq<usize>, clause: int, upto: int) -> nat {
    count_upto(upto, names_clause_at(row, clause))
}

/// The true and the false literals of a clause are different literals, so
/// together they are no more than the clause has.
pub proof fn lemma_counts_fit(clause: Seq<Literal>, partial: Seq<Option<bool>>)
    ensures
        true_count(clause, partial) + false_count(clause, partial) <= clause.len(),
{
    let n = clause.len() as int;
    let either = |i: int| clause[i].value_under(partial).is_some();
    lemma_count_sum(n, is_true_at(clause, partial), is_false_at(clause, partial), either);
    lemma_count_bound(n, either);
}

/// Under the assignment without values no literal is true and none is false.
pub proof fn lemma_counts_unassigned(clause: Seq<Literal>, partial: Seq<Option<bool>>)
    requires
        clause_in_range(clause, partial.len() as int),
        forall|v: int| 0 <= v < partial.len() ==> (#[trigger] partial[v]).is_none(),
    ensures
        true_count(clause, partial) == 0,
        false_count(clause, partial) == 0,
{
    let n = clause.len() as int;
    assert forall|i: int| 0 <= i < n implies !#[trigger] is_true_at(clause, partial)(i) by {}
    assert forall|i: int| 0 <= i < n implies !#[trigger] is_false_at(clause, partial)(i) by {}
    lemma_count_zero(n, is_true_at(clause, partial));
    lemma_count_zero(n, is_false_at(clause, partial));
}

/// Giving a value to an unassigned variable makes true the literals of the
/// clause that equal the assigned literal, makes false those that equal its
/// negation, and changes no other.
pub proof fn lemma_counts_after_assign(
    clause: Seq<Literal>,
    partial: Seq<Option<bool>>,
    literal: Literal,
)
    requires
        clause_in_range(clause, partial.len() as int),
        0 <= literal.var() < partial.len(),
        partial[literal.var()].is_none(),
    ensures
        true_count(clause, partial.update(literal.var(), Some(literal.positive))) == true_count(
            clause,
            partial,
        ) + literal_count(clause, literal),
        false_count(clause, partial.update(literal.var(), Some(literal.positive))) == false_count(
            clause,
            partial,
        ) + literal_count(clause, literal.negation()),
{
    let n = clause.len() as int;
    let after = partial.update(literal.var(), Some(literal.positive));
    assert forall|i: int| 0 <= i < n implies (#[trigger] is_true_at(clause, after)(i) <==> is_true_at(
        clause,
        partial,
    )(i) || is_literal_at(clause, literal)(i)) && !(is_true_at(clause, partial)(i) && is_literal_at(
        clause,
        literal,
    )(i)) by {}
    lemma_count_sum(
        n,
        is_true_at(clause, partial),
        is_literal_at(clause, literal),
        is_true_at(clause, after),
    );
    assert forall|i: int| 0 <= i < n implies (#[trigger] is_false_at(clause, after)(i) <==> is_false_at(
        clause,
        partial,
    )(i) || is_literal_at(clause, literal.negation())(i)) && !(is_false_at(clause, partial)(i)
        && is_literal_at(clause, literal.negation())(i)) by {}
    lemma_count_sum(
        n,
        is_false_at(clause, partial),
        is_literal_at(clause, literal.negation()),
        is_false_at(clause, after),
    );
}

/// Appending a literal to a clause adds it to the count that its value
/// belongs to and to the count of its own occurrences, and to no other.
pub proof fn lemma_counts_push(
    clause: Seq<Literal>,
    partial: Seq<Option<bool>>,
    literal: Literal,
    other: Literal,
)
    ensures
        true_count(clause.push(literal), partial) == true_count(clause, partial) + if literal.value_under(
            partial,
        ) == Some(true) {
            1nat
        } else {
            0nat
        },
        false_count(clause.push(literal), partial) == false_count(clause, partial) + if literal.value_under(
            partial,
        ) == Some(false) {
            1nat
        } else {
            0nat
        },
        literal_count(clause.push(literal), other) == literal_count(clause, other) + if literal
            == other {
            1nat
        } else {
            0nat
        },
{
    let n = clause.len() as int;
    let longer = clause.push(literal);
    lemma_count_ext(n, is_true_at(longer, partial), is_true_at(clause, partial));
    lemma_count_ext(n, is_false_at(longer, partial), is_false_at(clause, partial));
    lemma_count_ext(n, is_literal_at(longer, other), is_literal_at(clause, other));
}

/// The entries of a longer prefix of a row that name a clause are at least
/// those of a shorter one.
pub proof fn lemma_occurrences_grow(row: Seq<usize>, clause: int, shorter: int, longer: int)
    requires
        0 <= shorter <= longer,
    ensures
        occurrences(row, clause, shorter) <= occurrences(row, clause, longer),
    decreases longer - shorter,
{
    if shorter < longer {
        lemma_occurrences_grow(row, clause, shorter, longer - 1);
    }
}

/// Appending to a row adds one occurrence of the clause that the new entry
/// names and none of another.
pub proof fn lemma_occurrences_push(row: Seq<usize>, entry: usize, clause: int)
    ensures
        occurrences(row.push(entry), clause, row.len() as int + 1) == occurrences(
            row,
            clause,
            row.len() as int,
        ) + if entry == clause {
            1nat
        } else {
            0nat
        },
{
    lemma_count_ext(
        row.len() as int,
        names_clause_at(row.push(entry), clause),
        names_clause_at(row, clause),
    );
}

/// A clause with a true literal holds under every total assignment that
/// extends the partial one.
pub proof fn lemma_true_literal_holds(
    clause: Seq<Literal>,
    partial: Seq<Option<bool>>,
    total: Seq<bool>,
)
    requires
        clause_in_range(clause, partial.len() as int),
        true_count(clause, partial) > 0,
        extends(total, partial),
    ensures
        clause_holds(clause, total),
{
    let i = lemma_count_witness(clause.len() as int, is_true_at(clause, partial));
}

/// A clause whose literals are all false holds under no total assignment
/// that extends the partial one.
pub proof fn lemma_falsified_fails(
    clause: Seq<Literal>,
    partial: Seq<Option<bool>>,
    total: Seq<bool>,
)
    requires
        clause_in_range(clause, partial.len() as int),
        false_count(clause, partial) == clause.len(),
        extends(total, partial),
    ensures
        !clause_holds(clause, total),
{
    lemma_count_full(clause.len() as int, is_false_at(clause, partial));
    assert forall|i: int| 0 <= i < clause.len() implies !(#[trigger] clause[i]).holds(total) by {
        assert(is_false_at(clause, partial)(i));
    }
}

/// In a clause with no true literal and all but one literal false, the
/// literal that is left is true under every total assignment that extends
/// the partial one and makes the clause hold.
pub proof fn lemma_unit_forces(
    clause: Seq<Literal>,
    partial: Seq<Option<bool>>,
    position: int,
    total: Seq<bool>,
)
    requires
        clause_in_range(clause, partial.len() as int),
        false_count(clause, partial) + 1 == clause.len(),
        0 <= position < clause.len(),
        clause[position].value_under(partial).is_none(),
        extends(total, partial),
        clause_holds(clause, total),
    ensures
        clause[position].holds(total),
{
    lemma_unit_others_false(clause, partial, position);
    let i = choose|i: int| 0 <= i < clause.len() && (#[trigger] clause[i]).holds(total);
}

/// In a clause with all but one literal false, every literal but the one
/// that is not false is false.
pub proof fn lemma_unit_others_false(
    clause: Seq<Literal>,
    partial: Seq<Option<bool>>,
    position: int,
)
    requires
        false_count(clause, partial) + 1 == clause.len(),
        0 <= position < clause.len(),
        clause[position].value_under(partial) != Some(false),
    ensures
        forall|i: int|
            0 <= i < clause.len() && i != position ==> (#[trigger] clause[i]).value_under(partial)
                == Some(false),
{
    let n = clause.len() as int;
    let falsified = is_false_at(clause, partial);
    let but_one = |i: int| i != position;
    assert forall|i: int| 0 <= i < n && i != position implies (#[trigger] clause[i]).value_under(
        partial,
    ) == Some(false) by {
        if !falsified(i) {
            let neither = |k: int| k != position && k != i;
            assert forall|k: int| 0 <= k < n && #[trigger] falsified(k) implies neither(k) by {}
            lemma_count_mono(n, falsified, neither);
            let all = |k: int| true;
            lemma_count_full(n, all);
            lemma_count_flip(n, all, but_one, position);
            lemma_count_flip(n, but_one, neither, i);
        }
    }
}

/// A clause that is not satisfied and not falsified has a literal whose
/// variable is unassigned.
pub proof fn lemma_open_clause_has_unassigned(
    clause: Seq<Literal>,
    partial: Seq<Option<bool>>,
) -> (position: int)
    requires
        true_count(clause, partial) == 0,
        false_count(clause, partial) != clause.len(),
    ensures
        0 <= position < clause.len(),
        clause[position].value_under(partial).is_none(),
{
    let n = clause.len() as int;
    lemma_count_zero(n, is_true_at(clause, partial));
    lemma_count_full(n, is_false_at(clause, partial));
    let position = choose|i: int| 0 <= i < n && !#[trigger] is_false_at(clause, partial)(i);
    assert(!is_true_at(clause, partial)(position));
    position
}

} // verus!
