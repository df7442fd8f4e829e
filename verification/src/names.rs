//! Lists of distinct texts, in their order.
use crate::text::{comes_before, lemma_precedes_is_order, precedes, same_text};
use vstd::prelude::*;

verus! {

/// Every name stands before the ones after it.
pub open spec fn ascending(names: Seq<String>) -> bool {
    forall|i: int, j: int|
        0 <= i < j < names.len() ==> precedes((#[trigger] names[i])@, (#[trigger] names[j])@)
}

pub open spec fn lists(names: Seq<String>, name: Seq<char>) -> bool {
    exists|i: int| 0 <= i < names.len() && (#[trigger] names[i])@ == name
}

pub fn has_name(names: &Vec<String>, name: &str) -> (r: bool)
    ensures
        r == lists(names@, name@),
{
    let mut i: usize = 0;
    while i < names.len()
        invariant
            i <= names.len(),
            forall|k: int| 0 <= k < i ==> (#[trigger] names@[k])@ != name@,
        decreases names.len() - i,
    {
        if same_text(names[i].as_str(), name) {
            return true;
        }
        i += 1;
    }
    false
}

/// Puts a name in its place, where it is not listed yet.
pub fn add_name(names: &mut Vec<String>, name: &str)
    requires
        ascending(old(names)@),
    ensures
        ascending(final(names)@),
        forall|other: Seq<char>| #[trigger]
            lists(final(names)@, other) <==> lists(old(names)@, other) || other == name@,
{
    let ghost before = names@;
    let mut i: usize = 0;
    while i < names.len() && comes_before(names[i].as_str(), name)
        invariant
            i <= names.len(),
            names@ == before,
            forall|k: int| 0 <= k < i ==> precedes((#[trigger] before[k])@, name@),
        decreases names.len() - i,
    {
        i += 1;
    }
    if i < names.len() && same_text(names[i].as_str(), name) {
        assert(before[i as int]@ == name@);
        return;
    }
    let owned = name.to_owned();
    names.insert(i, owned);
    proof {
        let after = names@;
        assert(after =~= before.insert(i as int, owned));
        if i < before.len() {
            lemma_precedes_is_order(before[i as int]@, name@, name@);
            assert(precedes(name@, before[i as int]@));
        }
        assert forall|a: int, b: int| 0 <= a < b < after.len() implies precedes(
            (#[trigger] after[a])@,
            (#[trigger] after[b])@,
        ) by {
            if b == i {
                assert(after[a] == before[a]);
            } else if a == i {
                assert(after[b] == before[b - 1]);
                if b - 1 > i {
                    assert(precedes(before[i as int]@, before[b - 1]@));
                    lemma_precedes_is_order(name@, before[i as int]@, before[b - 1]@);
                }
            } else {
                let x = if a < i {
                    a
                } else {
                    a - 1
                };
                let y = if b < i {
                    b
                } else {
                    b - 1
                };
                assert(after[a] == before[x] && after[b] == before[y]);
            }
        }
        assert forall|other: Seq<char>| #[trigger]
            lists(after, other) <==> lists(before, other) || other == name@ by {
            if lists(before, other) {
                let k = choose|k: int| 0 <= k < before.len() && (#[trigger] before[k])@ == other;
                let to = if k < i {
                    k
                } else {
                    k + 1
                };
                assert(after[to]@ == other);
            }
            if other == name@ {
                assert(after[i as int]@ == other);
            }
            if lists(after, other) {
                let k = choose|k: int| 0 <= k < after.len() && (#[trigger] after[k])@ == other;
                if k < i {
                    assert(before[k]@ == other);
                } else if k > i {
                    assert(before[k - 1]@ == other);
                }
            }
        }
    }
}

/// What is listed determines the list.
pub proof fn lemma_ascending_is_unique(a: Seq<String>, b: Seq<String>)
    requires
        ascending(a),
        ascending(b),
        forall|name: Seq<char>| #[trigger] lists(a, name) <==> lists(b, name),
    ensures
        a.len() == b.len(),
        forall|i: int| 0 <= i < a.len() ==> (#[trigger] a[i])@ == b[i]@,
    decreases a.len(),
{
    if a.len() == 0 {
        if b.len() > 0 {
            assert(lists(b, b[0]@));
            assert(lists(a, b[0]@));
        }
    } else if b.len() == 0 {
        assert(lists(a, a[0]@));
        assert(lists(b, a[0]@));
    } else {
        let x = a.last();
        let y = b.last();
        assert(lists(a, x@) && lists(b, y@));
        let p = choose|p: int| 0 <= p < b.len() && (#[trigger] b[p])@ == x@;
        let q = choose|q: int| 0 <= q < a.len() && (#[trigger] a[q])@ == y@;
        assert(lists(b, x@) && lists(a, y@));
        if p < b.len() - 1 && q < a.len() - 1 {
            assert(precedes(b[p]@, y@) && precedes(a[q]@, x@));
            lemma_precedes_is_order(x@, y@, x@);
        }
        lemma_precedes_is_order(x@, y@, x@);
        assert(x@ == y@) by {
            if p < b.len() - 1 {
                assert(precedes(b[p]@, b[b.len() - 1]@));
                assert(q == a.len() - 1);
            }
        }
        let front = a.drop_last();
        let rest = b.drop_last();
        assert forall|i: int, j: int| 0 <= i < j < front.len() implies precedes(
            (#[trigger] front[i])@,
            (#[trigger] front[j])@,
        ) by {
            assert(precedes(a[i]@, a[j]@));
        }
        assert forall|i: int, j: int| 0 <= i < j < rest.len() implies precedes(
            (#[trigger] rest[i])@,
            (#[trigger] rest[j])@,
        ) by {
            assert(precedes(b[i]@, b[j]@));
        }
        assert forall|name: Seq<char>| #[trigger] lists(front, name) <==> lists(rest, name) by {
            if lists(front, name) {
                let k = choose|k: int| 0 <= k < front.len() && (#[trigger] front[k])@ == name;
                assert(a[k]@ == name);
                assert(precedes(a[k]@, a[a.len() - 1]@));
                assert(lists(a, name));
                assert(lists(b, name));
                let m = choose|m: int| 0 <= m < b.len() && (#[trigger] b[m])@ == name;
                lemma_precedes_is_order(name, x@, name);
                assert(m != b.len() - 1);
                assert(rest[m]@ == name);
            }
            if lists(rest, name) {
                let k = choose|k: int| 0 <= k < rest.len() && (#[trigger] rest[k])@ == name;
                assert(b[k]@ == name);
                assert(precedes(b[k]@, b[b.len() - 1]@));
                assert(lists(b, name));
                assert(lists(a, name));
                let m = choose|m: int| 0 <= m < a.len() && (#[trigger] a[m])@ == name;
                lemma_precedes_is_order(name, y@, name);
                assert(m != a.len() - 1);
                assert(front[m]@ == name);
            }
        }
        lemma_ascending_is_unique(front, rest);
        assert forall|i: int| 0 <= i < a.len() implies (#[trigger] a[i])@ == b[i]@ by {
            if i < a.len() - 1 {
                assert(front[i]@ == rest[i]@);
            }
        }
    }
}

} // verus!
