//! Stable sorting of rows that have an order.
use crate::table::{first_where, lemma_first_where, lemma_first_where_at, lemma_first_where_none};
use crate::text::{comes_before, lemma_precedes_is_order, precedes};
use vstd::prelude::*;

verus! {

/// A row that has a place among others. Rows neither of which goes behind the other keep
/// the order in which they came.
pub trait Ranked: Sized {
    spec fn behind(self, other: Self) -> bool;

    fn goes_behind(&self, other: &Self) -> (r: bool)
        ensures
            r == self.behind(*other),
    ;

    proof fn behind_is_order(a: Self, b: Self, c: Self)
        ensures
            a.behind(b) ==> !b.behind(a),
            a.behind(b) && b.behind(c) ==> a.behind(c),
            !a.behind(b) && !b.behind(c) ==> !a.behind(c),
    ;
}

/// The rows with one more, in front of the first that goes behind it.
pub open spec fn placed<T: Ranked>(rows: Seq<T>, row: T) -> Seq<T> {
    match first_where(rows, |other: T| other.behind(row)) {
        Some(at) => rows.insert(at, row),
        None => rows.push(row),
    }
}

/// The rows in their order.
pub open spec fn sorted<T: Ranked>(rows: Seq<T>) -> Seq<T>
    decreases rows.len(),
{
    if rows.len() == 0 {
        rows
    } else {
        placed(sorted(rows.drop_last()), rows.last())
    }
}

/// No row goes behind a later one.
pub open spec fn in_order<T: Ranked>(rows: Seq<T>) -> bool {
    forall|i: int, j: int|
        0 <= i < j < rows.len() ==> !(#[trigger] rows[i]).behind(#[trigger] rows[j])
}

fn place<T: Ranked>(rows: &mut Vec<T>, row: T)
    requires
        in_order(old(rows)@),
    ensures
        final(rows)@ == placed(old(rows)@, row),
{
    let ghost pick = |other: T| other.behind(row);
    let mut i: usize = rows.len();
    while i > 0 && rows[i - 1].goes_behind(&row)
        invariant
            i <= rows.len(),
            rows@ == old(rows)@,
            pick == (|other: T| other.behind(row)),
            forall|k: int| i <= k < rows.len() ==> pick(#[trigger] rows@[k]),
        decreases i,
    {
        i -= 1;
    }
    proof {
        assert forall|k: int| 0 <= k < i implies !pick(#[trigger] rows@[k]) by {
            if k < i - 1 {
                assert(!rows@[k].behind(rows@[i - 1]));
                T::behind_is_order(rows@[k], rows@[i - 1], row);
            }
        }
        if i < rows.len() {
            lemma_first_where_at(rows@, pick, i as int);
        } else {
            lemma_first_where_none(rows@, pick);
            assert(rows@.insert(i as int, row) =~= rows@.push(row));
        }
    }
    rows.insert(i, row);
}

/// Puts rows in their order.
pub fn sort_rows<T: Ranked>(rows: Vec<T>) -> (r: Vec<T>)
    ensures
        r@ == sorted(rows@),
{
    let ghost all = rows@;
    let mut r: Vec<T> = Vec::new();
    assert(all.take(0) =~= Seq::empty());
    for row in iter: rows
        invariant
            iter.seq() == all,
            r@ == sorted(all.take(iter.index())),
    {
        proof {
            let i = iter.index();
            assert(all.take(i + 1).drop_last() =~= all.take(i));
            assert(all.take(i + 1).last() == row);
        }
        proof {
            lemma_sorted(all.take(iter.index()));
        }
        place(&mut r, row);
    }
    assert(all.take(all.len() as int) =~= all);
    r
}

/// Placing a row among rows in order leaves them in order.
proof fn lemma_placed_in_order<T: Ranked>(rows: Seq<T>, row: T)
    requires
        in_order(rows),
    ensures
        in_order(placed(rows, row)),
        placed(rows, row).to_multiset() == rows.to_multiset().insert(row),
{
    let pick = |other: T| other.behind(row);
    lemma_first_where(rows, pick);
    let after = placed(rows, row);
    match first_where(rows, pick) {
        Some(at) => {
            assert forall|i: int, j: int| 0 <= i < j < after.len() implies !(
            #[trigger] after[i]).behind(#[trigger] after[j]) by {
                if i == at {
                    let other = rows[j - 1];
                    assert(after[j] == other);
                    T::behind_is_order(row, other, rows[at]);
                    T::behind_is_order(rows[at], row, rows[at]);
                    if row.behind(other) {
                        T::behind_is_order(rows[at], row, other);
                        if j - 1 > at {
                            assert(!rows[at].behind(rows[j - 1]));
                        }
                        T::behind_is_order(rows[at], rows[at], rows[at]);
                    }
                } else if j == at {
                    assert(after[i] == rows[i]);
                    assert(!pick(rows[i]));
                } else {
                    let a = if i < at {
                        i
                    } else {
                        i - 1
                    };
                    let b = if j < at {
                        j
                    } else {
                        j - 1
                    };
                    assert(after[i] == rows[a] && after[j] == rows[b]);
                    assert(!rows[a].behind(rows[b]));
                }
            }
            vstd::seq_lib::to_multiset_insert(rows, at, row);
        },
        None => {
            assert forall|i: int, j: int| 0 <= i < j < after.len() implies !(
            #[trigger] after[i]).behind(#[trigger] after[j]) by {
                if j == rows.len() {
                    assert(!pick(rows[i]));
                } else {
                    assert(!rows[i].behind(rows[j]));
                }
            }
            broadcast use vstd::seq_lib::group_to_multiset_ensures;

        },
    }
}

/// Sorting puts rows in order and neither adds nor drops any.
pub proof fn lemma_sorted<T: Ranked>(rows: Seq<T>)
    ensures
        in_order(sorted(rows)),
        sorted(rows).to_multiset() == rows.to_multiset(),
        sorted(rows).len() == rows.len(),
    decreases rows.len(),
{
    broadcast use vstd::seq_lib::group_to_multiset_ensures;

    if rows.len() > 0 {
        let front = rows.drop_last();
        lemma_sorted(front);
        lemma_first_where(sorted(front), |other: T| other.behind(rows.last()));
        lemma_placed_in_order(sorted(front), rows.last());
        assert(front.push(rows.last()) =~= rows);
    }
}

/// Every row that is put in order comes from somewhere.
pub proof fn lemma_sorted_member<T: Ranked>(rows: Seq<T>, at: int) -> (from: int)
    requires
        0 <= at < sorted(rows).len(),
    ensures
        0 <= from < rows.len(),
        rows[from] == sorted(rows)[at],
{
    lemma_sorted(rows);
    broadcast use vstd::seq_lib::group_to_multiset_ensures;

    let row = sorted(rows)[at];
    assert(sorted(rows).contains(row));
    assert(sorted(rows).to_multiset().count(row) > 0);
    assert(rows.contains(row));
    choose|from: int| 0 <= from < rows.len() && rows[from] == row
}

/// Every row goes somewhere when rows are put in order.
pub proof fn lemma_sorted_keeps<T: Ranked>(rows: Seq<T>, from: int) -> (at: int)
    requires
        0 <= from < rows.len(),
    ensures
        0 <= at < sorted(rows).len(),
        sorted(rows)[at] == rows[from],
{
    lemma_sorted(rows);
    broadcast use vstd::seq_lib::group_to_multiset_ensures;

    let row = rows[from];
    assert(rows.contains(row));
    assert(rows.to_multiset().count(row) > 0);
    assert(sorted(rows).contains(row));
    choose|at: int| 0 <= at < sorted(rows).len() && sorted(rows)[at] == row
}

/// What holds of every two different rows, either way round, holds of every two after they
/// were put in order.
pub proof fn lemma_sorted_apart<T: Ranked>(rows: Seq<T>, apart: spec_fn(T, T) -> bool)
    requires
        forall|i: int, j: int|
            0 <= i < j < rows.len() ==> apart(#[trigger] rows[i], #[trigger] rows[j]) && apart(
                rows[j],
                rows[i],
            ),
    ensures
        forall|i: int, j: int|
            0 <= i < j < sorted(rows).len() ==> apart(
                #[trigger] sorted(rows)[i],
                #[trigger] sorted(rows)[j],
            ) && apart(sorted(rows)[j], sorted(rows)[i]),
    decreases rows.len(),
{
    if rows.len() > 0 {
        let front = rows.drop_last();
        let row = rows.last();
        assert forall|i: int, j: int| 0 <= i < j < front.len() implies apart(
            #[trigger] front[i],
            #[trigger] front[j],
        ) && apart(front[j], front[i]) by {
            assert(front[i] == rows[i] && front[j] == rows[j]);
        }
        lemma_sorted_apart(front, apart);
        let placed_front = sorted(front);
        let after = sorted(rows);
        lemma_first_where(placed_front, |other: T| other.behind(row));
        assert forall|k: int| 0 <= k < placed_front.len() implies apart(
            #[trigger] placed_front[k],
            row,
        ) && apart(row, placed_front[k]) by {
            let from = lemma_sorted_member(front, k);
            assert(rows[from] == front[from]);
            assert(apart(rows[from], rows[rows.len() - 1]));
        }
        let at = match first_where(placed_front, |other: T| other.behind(row)) {
            Some(at) => at,
            None => placed_front.len() as int,
        };
        assert(after =~= placed_front.insert(at, row));
        assert forall|i: int, j: int| 0 <= i < j < after.len() implies apart(
            #[trigger] after[i],
            #[trigger] after[j],
        ) && apart(after[j], after[i]) by {
            let a = if i < at {
                i
            } else {
                i - 1
            };
            let b = if j < at {
                j
            } else {
                j - 1
            };
            if i == at {
                assert(after[j] == placed_front[b]);
            } else if j == at {
                assert(after[i] == placed_front[a]);
            } else {
                assert(after[i] == placed_front[a] && after[j] == placed_front[b]);
            }
        }
    }
}

/// Texts stand in their order.
impl Ranked for String {
    open spec fn behind(self, other: Self) -> bool {
        precedes(other@, self@)
    }

    fn goes_behind(&self, other: &Self) -> (r: bool) {
        comes_before(other.as_str(), self.as_str())
    }

    proof fn behind_is_order(a: Self, b: Self, c: Self) {
        lemma_precedes_is_order(b@, a@, a@);
        lemma_precedes_is_order(c@, b@, a@);
    }
}

} // verus!
