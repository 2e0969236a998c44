//! How the watch rows and the live literals of the clauses point at each
//! other, as a mathematical structure, with the steps that keep it sound.
//!
//! Each entry of a watch row names a clause. While the variable of the row's
//! literal has no value, the entry also names a position among the live
//! literals of that clause, and the live literal at that position names the
//! entry back.

use crate::formula::Literal;
use crate::solver::cdcl::tracker::store::{
    swap_removed, ClauseCol, ClauseIdx, VariableCol, WatchElement, WatchedLiteral,
};
use vstd::prelude::*;

verus! {

/// The watch rows of every literal and the live literals of every clause.
pub struct Links {
    /// The row of the positive literal of each variable.
    pub positive: Seq<Seq<WatchElement>>,
    /// The row of the negative literal of each variable.
    pub negative: Seq<Seq<WatchElement>>,
    /// The live literals of each clause.
    pub live: Seq<Seq<WatchedLiteral>>,
}

impl Links {
    /// The row of a literal.
    pub open spec fn row(self, literal: Literal) -> Seq<WatchElement> {
        if literal.positive {
            self.positive[literal.var()]
        } else {
            self.negative[literal.var()]
        }
    }

    /// The links with one entry of a row replaced.
    pub open spec fn with_entry(self, literal: Literal, t: int, element: WatchElement) -> Links {
        if literal.positive {
            Links {
                positive: self.positive.update(
                    literal.var(),
                    self.positive[literal.var()].update(t, element),
                ),
                ..self
            }
        } else {
            Links {
                negative: self.negative.update(
                    literal.var(),
                    self.negative[literal.var()].update(t, element),
                ),
                ..self
            }
        }
    }

    /// The links with an entry appended to a row.
    pub open spec fn with_pushed(self, literal: Literal, element: WatchElement) -> Links {
        if literal.positive {
            Links {
                positive: self.positive.update(
                    literal.var(),
                    self.positive[literal.var()].push(element),
                ),
                ..self
            }
        } else {
            Links {
                negative: self.negative.update(
                    literal.var(),
                    self.negative[literal.var()].push(element),
                ),
                ..self
            }
        }
    }

    /// The links with the live literals of one clause replaced.
    pub open spec fn with_live(self, c: int, literals: Seq<WatchedLiteral>) -> Links {
        Links { live: self.live.update(c, literals), ..self }
    }

    /// The entry names a clause, and where it names a live position, the
    /// live literal there names the entry back.
    pub open spec fn entry_ok(self, literal: Literal, t: int) -> bool {
        let element = self.row(literal)[t];
        &&& element.clause_idx.0 < self.live.len()
        &&& element.clause_col matches Some(col) ==> {
            &&& col.0 < self.live[element.clause_idx.0 as int].len()
            &&& self.live[element.clause_idx.0 as int][col.0 as int].literal == literal
            &&& self.live[element.clause_idx.0 as int][col.0 as int].variable_col.0 == t
        }
    }

    /// Whether the entry names a live position.
    pub open spec fn entry_live(self, literal: Literal, t: int) -> bool {
        self.row(literal)[t].clause_col.is_some()
    }

    /// The live literal names an entry of its literal's row, and that entry
    /// names the live literal back.
    pub open spec fn live_ok(self, c: int, k: int) -> bool {
        let watched = self.live[c][k];
        &&& watched.literal.var() < self.positive.len()
        &&& watched.variable_col.0 < self.row(watched.literal).len()
        &&& self.row(watched.literal)[watched.variable_col.0 as int].clause_idx.0 == c
        &&& self.row(watched.literal)[watched.variable_col.0 as int].clause_col matches Some(col)
        &&& col.0 == k
    }

    /// Every entry and every live literal is sound, and the entries that name
    /// a live position are those that `is_live` tells.
    pub open spec fn linked(self, is_live: spec_fn(Literal, int) -> bool) -> bool {
        &&& self.positive.len() == self.negative.len()
        &&& forall|literal: Literal, t: int|
            literal.var() < self.positive.len() && 0 <= t < self.row(literal).len() ==> {
                &&& #[trigger] self.entry_ok(literal, t)
                &&& self.entry_live(literal, t) == is_live(literal, t)
            }
        &&& forall|c: int, k: int|
            0 <= c < self.live.len() && 0 <= k < self.live[c].len() ==> #[trigger] self.live_ok(
                c,
                k,
            )
    }

    /// The clauses that the entries of a literal's row name, in order.
    pub open spec fn named(self, literal: Literal) -> Seq<usize> {
        Seq::new(self.row(literal).len(), |t: int| self.row(literal)[t].clause_idx.0)
    }

    /// Two sets of links have rows that name the same clauses.
    pub open spec fn same_clauses(self, other: Links) -> bool {
        &&& self.positive.len() == other.positive.len()
        &&& self.negative.len() == other.negative.len()
        &&& forall|literal: Literal|
            literal.var() < self.positive.len() && literal.var() < self.negative.len()
                ==> #[trigger] self.named(literal) == other.named(literal)
    }

    /// The links after the entry at `(literal, t)` has let go of its live
    /// literal: the entry names no position, the live literal is removed by
    /// `swap_remove`, and the live literal that took its place is named by
    /// its entry at the new position.
    pub open spec fn detached(self, literal: Literal, t: int) -> Links {
        let element = self.row(literal)[t];
        let c = element.clause_idx.0 as int;
        let col = element.clause_col.unwrap();
        let last = self.live[c].len() - 1;
        let moved = self.live[c][last];
        let cut = self.with_entry(
            literal,
            t,
            WatchElement { clause_idx: element.clause_idx, clause_col: None },
        ).with_live(c, swap_removed(self.live[c], col.0 as int));
        if col.0 < last {
            cut.with_entry(
                moved.literal,
                moved.variable_col.0 as int,
                WatchElement { clause_idx: element.clause_idx, clause_col: Some(col) },
            )
        } else {
            cut
        }
    }

    /// The links after the entry at `(literal, t)` has taken a live literal
    /// again: the literal is appended to the live literals of the entry's
    /// clause, and the entry names that position.
    pub open spec fn attached(self, literal: Literal, t: int) -> Links {
        let element = self.row(literal)[t];
        let c = element.clause_idx.0 as int;
        let col = ClauseCol(self.live[c].len() as usize);
        self.with_live(
            c,
            self.live[c].push(
                WatchedLiteral { literal, variable_col: VariableCol(t as usize) },
            ),
        ).with_entry(
            literal,
            t,
            WatchElement { clause_idx: element.clause_idx, clause_col: Some(col) },
        )
    }
}

/// What `with_entry` makes of each row.
pub proof fn lemma_with_entry(links: Links, literal: Literal, t: int, element: WatchElement)
    requires
        links.positive.len() == links.negative.len(),
        literal.var() < links.positive.len(),
    ensures
        links.with_entry(literal, t, element).row(literal) == links.row(literal).update(t, element),
        forall|other: Literal|
            other != literal && other.var() < links.positive.len() ==> #[trigger] links.with_entry(
                literal,
                t,
                element,
            ).row(other) == links.row(other),
        links.with_entry(literal, t, element).live == links.live,
        links.with_entry(literal, t, element).positive.len() == links.positive.len(),
        links.with_entry(literal, t, element).negative.len() == links.negative.len(),
{
}

/// What `with_pushed` makes of each row.
pub proof fn lemma_with_pushed(links: Links, literal: Literal, element: WatchElement)
    requires
        links.positive.len() == links.negative.len(),
        literal.var() < links.positive.len(),
    ensures
        links.with_pushed(literal, element).row(literal) == links.row(literal).push(element),
        forall|other: Literal|
            other != literal && other.var() < links.positive.len() ==> #[trigger] links.with_pushed(
                literal,
                element,
            ).row(other) == links.row(other),
        links.with_pushed(literal, element).live == links.live,
        links.with_pushed(literal, element).positive.len() == links.positive.len(),
        links.with_pushed(literal, element).negative.len() == links.negative.len(),
{
}

/// The live predicate that differs from `is_live` at one entry only.
pub open spec fn live_except(
    is_live: spec_fn(Literal, int) -> bool,
    literal: Literal,
    t: int,
    live: bool,
) -> spec_fn(Literal, int) -> bool {
    |other: Literal, u: int|
        if other == literal && u == t {
            live
        } else {
            is_live(other, u)
        }
}

/// Detaching a live entry keeps the links sound.
pub proof fn lemma_detached(links: Links, is_live: spec_fn(Literal, int) -> bool, literal: Literal, t: int)
    requires
        links.linked(is_live),
        literal.var() < links.positive.len(),
        0 <= t < links.row(literal).len(),
        is_live(literal, t),
    ensures
        links.detached(literal, t).linked(live_except(is_live, literal, t, false)),
        links.detached(literal, t).same_clauses(links),
        links.detached(literal, t).live.len() == links.live.len(),
        forall|c: int|
            0 <= c < links.live.len() ==> (#[trigger] links.detached(literal, t).live[c]).len() == if c
                == links.row(literal)[t].clause_idx.0 {
                links.live[c].len() - 1
            } else {
                links.live[c].len() as int
            },
{
    let after = links.detached(literal, t);
    let element = links.row(literal)[t];
    assert(links.entry_ok(literal, t));
    let c = element.clause_idx.0 as int;
    let col = element.clause_col.unwrap();
    let last = links.live[c].len() - 1;
    let moved = links.live[c][last];
    assert(links.live_ok(c, last));
    let cleared = WatchElement { clause_idx: element.clause_idx, clause_col: None };
    lemma_with_entry(links, literal, t, cleared);
    let renamed = WatchElement { clause_idx: element.clause_idx, clause_col: Some(col) };
    let now_live = live_except(is_live, literal, t, false);
    assert forall|other: Literal, u: int|
        other.var() < after.positive.len() && 0 <= u < after.row(other).len() implies {
        &&& #[trigger] after.entry_ok(other, u)
        &&& after.entry_live(other, u) == now_live(other, u)
    } by {
        assert(links.entry_ok(other, u));
    }
    assert forall|d: int, k: int| 0 <= d < after.live.len() && 0 <= k < after.live[d].len() implies #[trigger] after.live_ok(
        d,
        k,
    ) by {
        if d == c {
            if k == col.0 {
                assert(links.live_ok(c, last));
            } else {
                assert(links.live_ok(c, k));
                let watched = links.live[c][k];
                assert(!(watched.literal == moved.literal && watched.variable_col.0
                    == moved.variable_col.0));
            }
        } else {
            assert(links.live_ok(d, k));
            let watched = links.live[d][k];
            assert(links.entry_ok(watched.literal, watched.variable_col.0 as int));
        }
    }
    assert forall|other: Literal|
        other.var() < after.positive.len() && other.var() < after.negative.len() implies #[trigger] after.named(
        other,
    ) == links.named(other) by {
        assert forall|u: int| 0 <= u < after.row(other).len() implies after.row(other)[u].clause_idx
            == links.row(other)[u].clause_idx by {}
    }
}

/// Attaching an entry that names no position keeps the links sound.
pub proof fn lemma_attached(links: Links, is_live: spec_fn(Literal, int) -> bool, literal: Literal, t: int)
    requires
        links.linked(is_live),
        literal.var() < links.positive.len(),
        0 <= t < links.row(literal).len(),
        t <= usize::MAX,
        links.live[links.row(literal)[t].clause_idx.0 as int].len() <= usize::MAX,
        !is_live(literal, t),
    ensures
        links.attached(literal, t).linked(live_except(is_live, literal, t, true)),
        links.attached(literal, t).same_clauses(links),
        links.attached(literal, t).live.len() == links.live.len(),
        forall|c: int|
            0 <= c < links.live.len() ==> (#[trigger] links.attached(literal, t).live[c]).len() == if c
                == links.row(literal)[t].clause_idx.0 {
                links.live[c].len() + 1
            } else {
                links.live[c].len() as nat
            },
{
    let after = links.attached(literal, t);
    let element = links.row(literal)[t];
    assert(links.entry_ok(literal, t));
    let c = element.clause_idx.0 as int;
    let col = ClauseCol(links.live[c].len() as usize);
    let watched = WatchedLiteral { literal, variable_col: VariableCol(t as usize) };
    let grown = links.with_live(c, links.live[c].push(watched));
    let renamed = WatchElement { clause_idx: element.clause_idx, clause_col: Some(col) };
    lemma_with_entry(grown, literal, t, renamed);
    let now_live = live_except(is_live, literal, t, true);
    assert forall|other: Literal, u: int|
        other.var() < after.positive.len() && 0 <= u < after.row(other).len() implies {
        &&& #[trigger] after.entry_ok(other, u)
        &&& after.entry_live(other, u) == now_live(other, u)
    } by {
        assert(links.entry_ok(other, u));
    }
    assert forall|d: int, k: int| 0 <= d < after.live.len() && 0 <= k < after.live[d].len() implies #[trigger] after.live_ok(
        d,
        k,
    ) by {
        if !(d == c && k == links.live[c].len()) {
            assert(links.live_ok(d, k));
        }
    }
    assert forall|other: Literal|
        other.var() < after.positive.len() && other.var() < after.negative.len() implies #[trigger] after.named(
        other,
    ) == links.named(other) by {}
}

/// Links whose live entries are told by one predicate are told by every
/// predicate that agrees with it on the entries.
pub proof fn lemma_linked_ext(
    links: Links,
    is_live: spec_fn(Literal, int) -> bool,
    other_live: spec_fn(Literal, int) -> bool,
)
    requires
        links.linked(is_live),
        forall|literal: Literal, t: int|
            literal.var() < links.positive.len() && 0 <= t < links.row(literal).len()
                ==> #[trigger] is_live(literal, t) == other_live(literal, t),
    ensures
        links.linked(other_live),
{
    assert forall|literal: Literal, t: int|
        literal.var() < links.positive.len() && 0 <= t < links.row(literal).len() implies {
        &&& #[trigger] links.entry_ok(literal, t)
        &&& links.entry_live(literal, t) == other_live(literal, t)
    } by {}
}

/// Appending to a row an entry of the last clause that names no position
/// keeps the links sound, where the row's literal is not live.
pub proof fn lemma_pushed_idle(
    links: Links,
    is_live: spec_fn(Literal, int) -> bool,
    literal: Literal,
    clause_idx: ClauseIdx,
)
    requires
        links.linked(is_live),
        literal.var() < links.positive.len(),
        clause_idx.0 < links.live.len(),
        !is_live(literal, links.row(literal).len() as int),
    ensures
        links.with_pushed(literal, WatchElement { clause_idx, clause_col: None }).linked(is_live),
{
    let element = WatchElement { clause_idx, clause_col: None };
    let after = links.with_pushed(literal, element);
    lemma_with_pushed(links, literal, element);
    assert forall|other: Literal, u: int|
        other.var() < after.positive.len() && 0 <= u < after.row(other).len() implies {
        &&& #[trigger] after.entry_ok(other, u)
        &&& after.entry_live(other, u) == is_live(other, u)
    } by {
        if !(other == literal && u == links.row(literal).len()) {
            assert(links.entry_ok(other, u));
        }
    }
    assert forall|d: int, k: int| 0 <= d < after.live.len() && 0 <= k < after.live[d].len() implies #[trigger] after.live_ok(
        d,
        k,
    ) by {
        assert(links.live_ok(d, k));
    }
}

/// Appending to a row an entry of a clause together with the live literal
/// that it names keeps the links sound, where the row's literal is live.
pub proof fn lemma_pushed_live(
    links: Links,
    is_live: spec_fn(Literal, int) -> bool,
    literal: Literal,
    clause_idx: ClauseIdx,
)
    requires
        links.linked(is_live),
        literal.var() < links.positive.len(),
        clause_idx.0 < links.live.len(),
        links.row(literal).len() <= usize::MAX,
        links.live[clause_idx.0 as int].len() <= usize::MAX,
        is_live(literal, links.row(literal).len() as int),
    ensures
        links.with_pushed(
            literal,
            WatchElement {
                clause_idx,
                clause_col: Some(ClauseCol(links.live[clause_idx.0 as int].len() as usize)),
            },
        ).with_live(
            clause_idx.0 as int,
            links.live[clause_idx.0 as int].push(
                WatchedLiteral {
                    literal,
                    variable_col: VariableCol(links.row(literal).len() as usize),
                },
            ),
        ).linked(is_live),
{
    let c = clause_idx.0 as int;
    let element = WatchElement {
        clause_idx,
        clause_col: Some(ClauseCol(links.live[c].len() as usize)),
    };
    let watched = WatchedLiteral {
        literal,
        variable_col: VariableCol(links.row(literal).len() as usize),
    };
    let pushed = links.with_pushed(literal, element);
    lemma_with_pushed(links, literal, element);
    let after = pushed.with_live(c, links.live[c].push(watched));
    assert forall|other: Literal, u: int|
        other.var() < after.positive.len() && 0 <= u < after.row(other).len() implies {
        &&& #[trigger] after.entry_ok(other, u)
        &&& after.entry_live(other, u) == is_live(other, u)
    } by {
        if !(other == literal && u == links.row(literal).len()) {
            assert(links.entry_ok(other, u));
        }
    }
    assert forall|d: int, k: int| 0 <= d < after.live.len() && 0 <= k < after.live[d].len() implies #[trigger] after.live_ok(
        d,
        k,
    ) by {
        if !(d == c && k == links.live[c].len()) {
            assert(links.live_ok(d, k));
        }
    }
}

} // verus!
