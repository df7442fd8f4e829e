//! Values under texts, in the order of the texts.
use crate::text::{comes_before, lemma_precedes_is_order, precedes, same_text};
use vstd::prelude::*;

verus! {

/// Each text stands once, before the ones that it precedes.
#[derive(Debug)]
pub struct TextMap<V> {
    pub entries: Vec<(String, V)>,
}

pub open spec fn holds_key<V>(entries: Seq<(String, V)>, key: Seq<char>) -> bool {
    exists|i: int| 0 <= i < entries.len() && (#[trigger] entries[i]).0@ == key
}

pub open spec fn value_under<V>(entries: Seq<(String, V)>, key: Seq<char>) -> V {
    entries[choose|i: int| 0 <= i < entries.len() && (#[trigger] entries[i]).0@ == key].1
}

pub open spec fn keys_ascend<V>(entries: Seq<(String, V)>) -> bool {
    forall|i: int, j: int|
        0 <= i < j < entries.len() ==> precedes(
            (#[trigger] entries[i]).0@,
            (#[trigger] entries[j]).0@,
        )
}

impl<V> View for TextMap<V> {
    type V = Map<Seq<char>, V>;

    open spec fn view(&self) -> Map<Seq<char>, V> {
        Map::new(
            |key: Seq<char>| holds_key(self.entries@, key),
            |key: Seq<char>| value_under(self.entries@, key),
        )
    }
}

proof fn lemma_at<V>(entries: Seq<(String, V)>, i: int)
    requires
        keys_ascend(entries),
        0 <= i < entries.len(),
    ensures
        holds_key(entries, entries[i].0@),
        value_under(entries, entries[i].0@) == entries[i].1,
{
    let key = entries[i].0@;
    assert(entries[i].0@ == key);
    let k = choose|k: int| 0 <= k < entries.len() && (#[trigger] entries[k]).0@ == key;
    assert(0 <= k < entries.len() && entries[k].0@ == key);
    if k < i {
        assert(precedes(entries[k].0@, entries[i].0@));
    } else if i < k {
        assert(precedes(entries[i].0@, entries[k].0@));
    }
    lemma_precedes_is_order(key, key, key);
}

impl<V> TextMap<V> {
    pub open spec fn wf(self) -> bool {
        keys_ascend(self.entries@)
    }

    pub fn new() -> (r: Self)
        ensures
            r.wf(),
            r@ == Map::<Seq<char>, V>::empty(),
    {
        let r = TextMap { entries: Vec::new() };
        assert(r@ =~= Map::<Seq<char>, V>::empty());
        r
    }

    /// How many texts stand before `key`.
    fn place(&self, key: &str) -> (r: usize)
        requires
            self.wf(),
        ensures
            r <= self.entries.len(),
            forall|k: int| 0 <= k < r ==> precedes((#[trigger] self.entries@[k]).0@, key@),
            r < self.entries.len() ==> !precedes(self.entries@[r as int].0@, key@),
    {
        let mut i: usize = 0;
        while i < self.entries.len() && comes_before(self.entries[i].0.as_str(), key)
            invariant
                i <= self.entries.len(),
                forall|k: int| 0 <= k < i ==> precedes((#[trigger] self.entries@[k]).0@, key@),
            decreases self.entries.len() - i,
        {
            i += 1;
        }
        i
    }

    proof fn lemma_place(self, at: int, key: Seq<char>)
        requires
            self.wf(),
            0 <= at <= self.entries.len(),
            forall|k: int| 0 <= k < at ==> precedes((#[trigger] self.entries@[k]).0@, key),
            at < self.entries.len() ==> !precedes(self.entries@[at].0@, key),
        ensures
            holds_key(self.entries@, key) <==> at < self.entries.len() && self.entries@[at].0@
                == key,
            forall|k: int|
                at < k < self.entries.len() ==> precedes(key, (#[trigger] self.entries@[k]).0@),
            at < self.entries.len() && self.entries@[at].0@ != key ==> precedes(
                key,
                self.entries@[at].0@,
            ),
    {
        let entries = self.entries@;
        if at < entries.len() {
            lemma_precedes_is_order(entries[at].0@, key, key);
        }
        assert forall|k: int| at < k < entries.len() implies precedes(
            key,
            (#[trigger] entries[k]).0@,
        ) by {
            assert(precedes(entries[at].0@, entries[k].0@));
            lemma_precedes_is_order(key, entries[at].0@, entries[k].0@);
        }
        if holds_key(entries, key) {
            let k = choose|k: int| 0 <= k < entries.len() && (#[trigger] entries[k]).0@ == key;
            lemma_precedes_is_order(key, key, key);
            assert(k == at);
        }
    }

    /// Puts a value under `key`, in place of the one that stands there.
    pub fn insert(&mut self, key: &str, value: V)
        requires
            old(self).wf(),
        ensures
            final(self).wf(),
            final(self)@ == old(self)@.insert(key@, value),
    {
        let ghost before = *self;
        let at: usize = self.place(key);
        proof {
            self.lemma_place(at as int, key@);
        }
        if at < self.entries.len() && same_text(self.entries[at].0.as_str(), key) {
            self.entries.set(at, (key.to_owned(), value));
            proof {
                let now = self.entries@;
                assert(now.len() == before.entries@.len());
                assert forall|k: int| 0 <= k < now.len() implies (#[trigger] now[k]).0@
                    == before.entries@[k].0@ by {}
                assert(keys_ascend(now)) by {
                    assert forall|i: int, j: int| 0 <= i < j < now.len() implies precedes(
                        (#[trigger] now[i]).0@,
                        (#[trigger] now[j]).0@,
                    ) by {
                        assert(precedes(before.entries@[i].0@, before.entries@[j].0@));
                    }
                }
                assert forall|name: Seq<char>| #[trigger]
                    self@.contains_key(name) <==> before@.insert(key@, value).contains_key(
                        name,
                    ) by {
                    if holds_key(now, name) {
                        let k = choose|k: int| 0 <= k < now.len() && (#[trigger] now[k]).0@ == name;
                        assert(before.entries@[k].0@ == name);
                    }
                    if holds_key(before.entries@, name) {
                        let k = choose|k: int|
                            0 <= k < now.len() && (#[trigger] before.entries@[k]).0@ == name;
                        assert(now[k].0@ == name);
                    }
                }
                assert forall|name: Seq<char>| #[trigger]
                    self@.contains_key(name) implies self@[name] == before@.insert(
                    key@,
                    value,
                )[name] by {
                    let k = choose|k: int| 0 <= k < now.len() && (#[trigger] now[k]).0@ == name;
                    lemma_at(now, k);
                    lemma_at(before.entries@, k);
                }
            }
        } else {
            let owned = key.to_owned();
            self.entries.insert(at, (owned, value));
            proof {
                let was = before.entries@;
                let now = self.entries@;
                assert(now =~= was.insert(at as int, (owned, value)));
                assert(keys_ascend(now)) by {
                    assert forall|i: int, j: int| 0 <= i < j < now.len() implies precedes(
                        (#[trigger] now[i]).0@,
                        (#[trigger] now[j]).0@,
                    ) by {
                        let a = if i < at {
                            i
                        } else {
                            i - 1
                        };
                        let b = if j < at {
                            j
                        } else {
                            j - 1
                        };
                        if i == at {
                            assert(now[j] == was[b]);
                        } else if j == at {
                            assert(now[i] == was[a]);
                        } else {
                            assert(now[i] == was[a] && now[j] == was[b]);
                            assert(precedes(was[a].0@, was[b].0@));
                        }
                    }
                }
                assert forall|name: Seq<char>| #[trigger]
                    self@.contains_key(name) <==> before@.insert(key@, value).contains_key(
                        name,
                    ) by {
                    if holds_key(now, name) && name != key@ {
                        let k = choose|k: int| 0 <= k < now.len() && (#[trigger] now[k]).0@ == name;
                        let a = if k < at {
                            k
                        } else {
                            k - 1
                        };
                        assert(was[a].0@ == name);
                    }
                    if holds_key(was, name) {
                        let k = choose|k: int| 0 <= k < was.len() && (#[trigger] was[k]).0@ == name;
                        let a = if k < at {
                            k
                        } else {
                            k + 1
                        };
                        assert(now[a].0@ == name);
                    }
                    assert(now[at as int].0@ == key@);
                }
                assert forall|name: Seq<char>| #[trigger]
                    self@.contains_key(name) implies self@[name] == before@.insert(
                    key@,
                    value,
                )[name] by {
                    let k = choose|k: int| 0 <= k < now.len() && (#[trigger] now[k]).0@ == name;
                    lemma_at(now, k);
                    if k == at {
                        assert(name == key@);
                    } else {
                        let a = if k < at {
                            k
                        } else {
                            k - 1
                        };
                        assert(now[k] == was[a]);
                        lemma_at(was, a);
                        if name == key@ {
                            assert(holds_key(was, key@));
                        }
                    }
                }
            }
        }
        assert(self@ =~= before@.insert(key@, value));
    }

    /// Takes the value under `key` away.
    pub fn remove(&mut self, key: &str)
        requires
            old(self).wf(),
        ensures
            final(self).wf(),
            final(self)@ == old(self)@.remove(key@),
    {
        let ghost before = *self;
        let at: usize = self.place(key);
        proof {
            self.lemma_place(at as int, key@);
        }
        if at < self.entries.len() && same_text(self.entries[at].0.as_str(), key) {
            let taken = self.entries.remove(at);
            proof {
                let was = before.entries@;
                let now = self.entries@;
                assert(now =~= was.remove(at as int));
                assert(keys_ascend(now)) by {
                    assert forall|i: int, j: int| 0 <= i < j < now.len() implies precedes(
                        (#[trigger] now[i]).0@,
                        (#[trigger] now[j]).0@,
                    ) by {
                        let a = if i < at {
                            i
                        } else {
                            i + 1
                        };
                        let b = if j < at {
                            j
                        } else {
                            j + 1
                        };
                        assert(precedes(was[a].0@, was[b].0@));
                    }
                }
                assert forall|name: Seq<char>| #[trigger]
                    self@.contains_key(name) <==> before@.remove(key@).contains_key(name) by {
                    lemma_precedes_is_order(key@, key@, key@);
                    if holds_key(now, name) {
                        let k = choose|k: int| 0 <= k < now.len() && (#[trigger] now[k]).0@ == name;
                        let a = if k < at {
                            k
                        } else {
                            k + 1
                        };
                        assert(was[a].0@ == name);
                    }
                    if holds_key(was, name) && name != key@ {
                        let k = choose|k: int| 0 <= k < was.len() && (#[trigger] was[k]).0@ == name;
                        let a = if k < at {
                            k
                        } else {
                            k - 1
                        };
                        assert(k != at);
                        assert(now[a].0@ == name);
                    }
                }
                assert forall|name: Seq<char>| #[trigger]
                    self@.contains_key(name) implies self@[name] == before@.remove(key@)[name] by {
                    let k = choose|k: int| 0 <= k < now.len() && (#[trigger] now[k]).0@ == name;
                    lemma_at(now, k);
                    let a = if k < at {
                        k
                    } else {
                        k + 1
                    };
                    assert(now[k] == was[a]);
                    lemma_at(was, a);
                }
            }
        } else {
            assert(!before@.contains_key(key@));
        }
        assert(self@ =~= before@.remove(key@));
    }
}

impl<V: Copy> TextMap<V> {
    pub fn get(&self, key: &str) -> (r: Option<V>)
        requires
            self.wf(),
        ensures
            r == (if self@.contains_key(key@) {
                Some(self@[key@])
            } else {
                None
            }),
    {
        let at: usize = self.place(key);
        proof {
            self.lemma_place(at as int, key@);
        }
        if at < self.entries.len() && same_text(self.entries[at].0.as_str(), key) {
            proof {
                lemma_at(self.entries@, at as int);
            }
            Some(self.entries[at].1)
        } else {
            None
        }
    }
}

} // verus!
