//! Tables of rows that belong to accounts.
use vstd::prelude::*;

verus! {

/// A row that belongs to an account.
pub trait AccountRow: Sized {
    spec fn account(&self) -> Seq<char>;

    fn account_is(&self, key: &str) -> (r: bool)
        ensures
            r == (self.account() == key@),
    ;
}

/// A row belongs to another account.
pub open spec fn of_another<T: AccountRow>(key: Seq<char>) -> spec_fn(T) -> bool {
    |row: T| row.account() != key
}

/// The rows that belong to other accounts.
pub open spec fn rows_of_others<T: AccountRow>(rows: Seq<T>, key: Seq<char>) -> Seq<T> {
    rows.filter(of_another(key))
}

/// The row is of the account.
pub open spec fn of_this<T: AccountRow>(key: Seq<char>) -> spec_fn(T) -> bool {
    |row: T| row.account() == key
}

/// How many rows belong to the account.
pub open spec fn count_of_account<T: AccountRow>(rows: Seq<T>, key: Seq<char>) -> nat {
    rows.filter(of_this(key)).len()
}

/// Removes the rows of an account; the others stay in their order.
pub fn delete_account_rows<T: AccountRow>(rows: &mut Vec<T>, key: &str)
    ensures
        final(rows)@ == rows_of_others(old(rows)@, key@),
{
    let mut all: Vec<T> = Vec::new();
    std::mem::swap(rows, &mut all);
    let ghost before = all@;
    let ghost keep = of_another::<T>(key@);
    assert(before.take(0).filter(keep) =~= Seq::empty());
    for row in iter: all
        invariant
            iter.seq() == before,
            keep == of_another::<T>(key@),
            rows@ == before.take(iter.index()).filter(keep),
    {
        proof {
            let i = iter.index();
            assert(before.take(i + 1).drop_last() =~= before.take(i));
            assert(before.take(i + 1).last() == row);
            reveal(Seq::filter);
        }
        if !row.account_is(key) {
            rows.push(row);
        }
    }
    assert(before.take(before.len() as int) =~= before);
}

/// How many rows belong to the account.
pub fn count_account_rows<T: AccountRow>(rows: &Vec<T>, key: &str) -> (r: usize)
    ensures
        r == count_of_account(rows@, key@),
{
    let ghost own = of_this::<T>(key@);
    let mut n: usize = 0;
    let mut i: usize = 0;
    assert(rows@.take(0).filter(own) =~= Seq::empty());
    while i < rows.len()
        invariant
            i <= rows.len(),
            n <= i,
            own == of_this::<T>(key@),
            n == rows@.take(i as int).filter(own).len(),
        decreases rows.len() - i,
    {
        proof {
            assert(rows@.take(i + 1).drop_last() =~= rows@.take(i as int));
            assert(rows@.take(i + 1).last() == rows@[i as int]);
            reveal(Seq::filter);
        }
        if rows[i].account_is(key) {
            n += 1;
        }
        i += 1;
    }
    assert(rows@.take(rows.len() as int) =~= rows@);
    n
}

/// The place of the first row that satisfies `pick`.
pub open spec fn first_where<T>(rows: Seq<T>, pick: spec_fn(T) -> bool) -> Option<int>
    decreases rows.len(),
{
    if rows.len() == 0 {
        None
    } else if pick(rows.first()) {
        Some(0)
    } else {
        match first_where(rows.drop_first(), pick) {
            Some(at) => Some(at + 1),
            None => None,
        }
    }
}

pub proof fn lemma_first_where_at<T>(rows: Seq<T>, pick: spec_fn(T) -> bool, at: int)
    requires
        0 <= at < rows.len(),
        pick(rows[at]),
        forall|k: int| 0 <= k < at ==> !pick(#[trigger] rows[k]),
    ensures
        first_where(rows, pick) == Some(at),
    decreases at,
{
    if at > 0 {
        assert(!pick(rows[0]));
        let rest = rows.drop_first();
        assert forall|k: int| 0 <= k < at - 1 implies !pick(#[trigger] rest[k]) by {
            assert(rest[k] == rows[k + 1]);
        }
        lemma_first_where_at(rest, pick, at - 1);
    }
}

pub proof fn lemma_first_where_none<T>(rows: Seq<T>, pick: spec_fn(T) -> bool)
    requires
        forall|k: int| 0 <= k < rows.len() ==> !pick(#[trigger] rows[k]),
    ensures
        first_where(rows, pick) is None,
    decreases rows.len(),
{
    if rows.len() > 0 {
        assert(!pick(rows[0]));
        let rest = rows.drop_first();
        assert forall|k: int| 0 <= k < rest.len() implies !pick(#[trigger] rest[k]) by {
            assert(rest[k] == rows[k + 1]);
        }
        lemma_first_where_none(rest, pick);
    }
}

/// Where a first row is found, it satisfies `pick` and none before it does; where none is
/// found, none does.
pub proof fn lemma_first_where<T>(rows: Seq<T>, pick: spec_fn(T) -> bool)
    ensures
        match first_where(rows, pick) {
            Some(at) => {
                &&& 0 <= at < rows.len()
                &&& pick(rows[at])
                &&& forall|k: int| 0 <= k < at ==> !pick(#[trigger] rows[k])
            },
            None => forall|k: int| 0 <= k < rows.len() ==> !pick(#[trigger] rows[k]),
        },
    decreases rows.len(),
{
    if rows.len() > 0 && !pick(rows.first()) {
        let rest = rows.drop_first();
        lemma_first_where(rest, pick);
        assert forall|k: int| 1 <= k < rows.len() implies rows[k] == #[trigger] rest[k - 1] by {}
        match first_where(rest, pick) {
            Some(at) => {
                assert forall|k: int| 0 <= k < at + 1 implies !pick(#[trigger] rows[k]) by {
                    if k > 0 {
                        assert(rest[k - 1] == rows[k]);
                    }
                }
            },
            None => {
                assert forall|k: int| 0 <= k < rows.len() implies !pick(#[trigger] rows[k]) by {
                    if k > 0 {
                        assert(rest[k - 1] == rows[k]);
                    }
                }
            },
        }
    }
}

/// What a filter keeps is picked and comes from the rows.
pub proof fn lemma_filter_member<T>(rows: Seq<T>, pick: spec_fn(T) -> bool, at: int) -> (from: int)
    requires
        0 <= at < rows.filter(pick).len(),
    ensures
        0 <= from < rows.len(),
        rows.filter(pick)[at] == rows[from],
        pick(rows[from]),
    decreases rows.len(),
{
    reveal(Seq::filter);
    if rows.len() == 0 {
        0
    } else {
        let rest = rows.drop_last().filter(pick);
        if pick(rows.last()) && at == rest.len() {
            rows.len() - 1
        } else {
            lemma_filter_member(rows.drop_last(), pick, at)
        }
    }
}

/// A filter that keeps nothing finds nothing, and the other way round.
pub proof fn lemma_filter_empty<T>(rows: Seq<T>, pick: spec_fn(T) -> bool)
    ensures
        rows.filter(pick).len() == 0 <==> forall|k: int|
            0 <= k < rows.len() ==> !pick(#[trigger] rows[k]),
    decreases rows.len(),
{
    reveal(Seq::filter);
    if rows.len() > 0 {
        lemma_filter_empty(rows.drop_last(), pick);
        if rows.filter(pick).len() == 0 {
            assert forall|k: int| 0 <= k < rows.len() implies !pick(#[trigger] rows[k]) by {
                if k < rows.len() - 1 {
                    assert(rows.drop_last()[k] == rows[k]);
                }
            }
        } else {
            if pick(rows.last()) {
                assert(pick(rows[rows.len() - 1]));
            } else {
                let k = choose|k: int|
                    0 <= k < rows.drop_last().len() && pick(#[trigger] rows.drop_last()[k]);
                assert(pick(rows[k]));
            }
        }
    }
}

/// A filter keeps the order: what holds of every two rows, the one before the other, holds
/// of every two that are kept.
pub proof fn lemma_filter_pairs<T>(
    rows: Seq<T>,
    pick: spec_fn(T) -> bool,
    holds: spec_fn(T, T) -> bool,
)
    requires
        forall|i: int, j: int|
            0 <= i < j < rows.len() ==> holds(#[trigger] rows[i], #[trigger] rows[j]),
    ensures
        forall|i: int, j: int|
            0 <= i < j < rows.filter(pick).len() ==> holds(
                #[trigger] rows.filter(pick)[i],
                #[trigger] rows.filter(pick)[j],
            ),
    decreases rows.len(),
{
    reveal(Seq::filter);
    if rows.len() > 0 {
        let front = rows.drop_last();
        assert forall|i: int, j: int| 0 <= i < j < front.len() implies holds(
            #[trigger] front[i],
            #[trigger] front[j],
        ) by {
            assert(front[i] == rows[i] && front[j] == rows[j]);
        }
        lemma_filter_pairs(front, pick, holds);
        let kept = rows.filter(pick);
        let rest = front.filter(pick);
        if pick(rows.last()) {
            assert forall|i: int, j: int| 0 <= i < j < kept.len() implies holds(
                #[trigger] kept[i],
                #[trigger] kept[j],
            ) by {
                if j == rest.len() {
                    let from = lemma_filter_member(front, pick, i);
                    assert(kept[i] == rest[i]);
                    assert(rows[from] == front[from]);
                    assert(holds(rows[from], rows[rows.len() - 1]));
                } else {
                    assert(kept[i] == rest[i] && kept[j] == rest[j]);
                }
            }
        }
    }
}

/// What holds of every two rows, the one before the other, holds of every two that belong
/// to other accounts.
pub proof fn lemma_others_pairs<T: AccountRow>(
    rows: Seq<T>,
    key: Seq<char>,
    holds: spec_fn(T, T) -> bool,
)
    requires
        forall|i: int, j: int|
            0 <= i < j < rows.len() ==> holds(#[trigger] rows[i], #[trigger] rows[j]),
    ensures
        forall|i: int, j: int|
            0 <= i < j < rows_of_others(rows, key).len() ==> holds(
                #[trigger] rows_of_others(rows, key)[i],
                #[trigger] rows_of_others(rows, key)[j],
            ),
{
    lemma_filter_pairs(rows, of_another(key), holds);
}

/// The rows of other accounts are none of the account.
pub proof fn lemma_others_are_of_others<T: AccountRow>(rows: Seq<T>, key: Seq<char>)
    ensures
        forall|i: int|
            0 <= i < rows_of_others(rows, key).len() ==> (#[trigger] rows_of_others(
                rows,
                key,
            )[i]).account() != key,
{
    assert forall|i: int| 0 <= i < rows_of_others(rows, key).len() implies (
    #[trigger] rows_of_others(rows, key)[i]).account() != key by {
        let from = lemma_filter_member(rows, of_another(key), i);
    }
}

/// What is picked is kept by a filter.
pub proof fn lemma_filter_keeps<T>(rows: Seq<T>, pick: spec_fn(T) -> bool, from: int) -> (at: int)
    requires
        0 <= from < rows.len(),
        pick(rows[from]),
    ensures
        0 <= at < rows.filter(pick).len(),
        rows.filter(pick)[at] == rows[from],
    decreases rows.len(),
{
    reveal(Seq::filter);
    if from == rows.len() - 1 {
        rows.drop_last().filter(pick).len() as int
    } else {
        lemma_filter_keeps(rows.drop_last(), pick, from)
    }
}

/// What the picked rows add up to.
pub open spec fn sum_where<T>(
    rows: Seq<T>,
    pick: spec_fn(T) -> bool,
    amount: spec_fn(T) -> int,
) -> int
    decreases rows.len(),
{
    if rows.len() == 0 {
        0
    } else {
        sum_where(rows.drop_last(), pick, amount) + if pick(rows.last()) {
            amount(rows.last())
        } else {
            0
        }
    }
}

/// How many rows are picked.
pub open spec fn count_where<T>(rows: Seq<T>, pick: spec_fn(T) -> bool) -> nat
    decreases rows.len(),
{
    if rows.len() == 0 {
        0
    } else {
        count_where(rows.drop_last(), pick) + if pick(rows.last()) {
            1nat
        } else {
            0nat
        }
    }
}

/// The first `n` rows are the first `n - 1` and one more.
pub proof fn lemma_take_grows<T>(rows: Seq<T>, n: int)
    requires
        0 < n <= rows.len(),
    ensures
        rows.take(n).drop_last() == rows.take(n - 1),
        rows.take(n).last() == rows[n - 1],
        rows.take(n).len() == n,
{
    assert(rows.take(n).drop_last() =~= rows.take(n - 1));
}

/// What is never negative adds up to nothing negative.
pub proof fn lemma_sum_nonnegative<T>(
    rows: Seq<T>,
    pick: spec_fn(T) -> bool,
    amount: spec_fn(T) -> int,
)
    requires
        forall|i: int| 0 <= i < rows.len() && pick(#[trigger] rows[i]) ==> amount(rows[i]) >= 0,
    ensures
        sum_where(rows, pick, amount) >= 0,
    decreases rows.len(),
{
    if rows.len() > 0 {
        let front = rows.drop_last();
        assert forall|i: int| 0 <= i < front.len() && pick(#[trigger] front[i]) implies amount(
            front[i],
        ) >= 0 by {
            assert(front[i] == rows[i]);
        }
        lemma_sum_nonnegative(front, pick, amount);
        assert(rows.last() == rows[rows.len() - 1]);
    }
}

/// Rows of which at most one is picked add up to that one.
pub proof fn lemma_sum_of_one<T>(
    rows: Seq<T>,
    pick: spec_fn(T) -> bool,
    amount: spec_fn(T) -> int,
    at: int,
)
    requires
        0 <= at < rows.len(),
        pick(rows[at]),
        forall|i: int| 0 <= i < rows.len() && i != at ==> !pick(#[trigger] rows[i]),
    ensures
        sum_where(rows, pick, amount) == amount(rows[at]),
    decreases rows.len(),
{
    let front = rows.drop_last();
    if at == rows.len() - 1 {
        assert forall|i: int| 0 <= i < front.len() implies !pick(#[trigger] front[i]) by {
            assert(front[i] == rows[i]);
        }
        lemma_sum_of_none(front, pick, amount);
    } else {
        assert forall|i: int| 0 <= i < front.len() && i != at implies !pick(
            #[trigger] front[i],
        ) by {
            assert(front[i] == rows[i]);
        }
        lemma_sum_of_one(front, pick, amount, at);
        assert(!pick(rows[rows.len() - 1]));
    }
}

/// Rows of which none is picked add up to nothing.
pub proof fn lemma_sum_of_none<T>(
    rows: Seq<T>,
    pick: spec_fn(T) -> bool,
    amount: spec_fn(T) -> int,
)
    requires
        forall|i: int| 0 <= i < rows.len() ==> !pick(#[trigger] rows[i]),
    ensures
        sum_where(rows, pick, amount) == 0,
        count_where(rows, pick) == 0,
    decreases rows.len(),
{
    if rows.len() > 0 {
        let front = rows.drop_last();
        assert forall|i: int| 0 <= i < front.len() implies !pick(#[trigger] front[i]) by {
            assert(front[i] == rows[i]);
        }
        lemma_sum_of_none(front, pick, amount);
        assert(!pick(rows[rows.len() - 1]));
    }
}

/// Without the rows of an account there are exactly the rows of the others.
pub proof fn lemma_others_keep_exactly<T: AccountRow>(rows: Seq<T>, key: Seq<char>)
    ensures
        forall|row: T| #[trigger]
            rows_of_others(rows, key).contains(row) <==> rows.contains(row) && row.account() != key,
{
    let kept = rows_of_others(rows, key);
    assert forall|row: T| #[trigger]
        kept.contains(row) <==> rows.contains(row) && row.account() != key by {
        if kept.contains(row) {
            let at = choose|at: int| 0 <= at < kept.len() && kept[at] == row;
            let from = lemma_filter_member(rows, of_another(key), at);
            assert(rows[from] == row);
        }
        if rows.contains(row) && row.account() != key {
            let from = choose|from: int| 0 <= from < rows.len() && rows[from] == row;
            let at = lemma_filter_keeps(rows, of_another(key), from);
            assert(kept[at] == row);
        }
    }
}

/// As many rows are picked out as there are that are picked.
pub proof fn lemma_filter_counts<T>(
    rows: Seq<T>,
    pick: spec_fn(T) -> bool,
    same: spec_fn(T) -> bool,
)
    requires
        forall|i: int| 0 <= i < rows.len() ==> pick(#[trigger] rows[i]) == same(rows[i]),
    ensures
        rows.filter(pick).len() == count_where(rows, same),
    decreases rows.len(),
{
    reveal(Seq::filter);
    if rows.len() > 0 {
        let front = rows.drop_last();
        assert forall|i: int| 0 <= i < front.len() implies pick(#[trigger] front[i]) == same(
            front[i],
        ) by {
            assert(front[i] == rows[i]);
        }
        lemma_filter_counts(front, pick, same);
        assert(rows.last() == rows[rows.len() - 1]);
    }
}

} // verus!
