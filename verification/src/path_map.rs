//! A map from paths to values, walked in the order of the paths.

use crate::path::{
    compare, path_components, path_lt, path_order_total, path_order_transitive, Comp, PathOrder,
};
use vstd::prelude::*;

verus! {

/// Whether the entry at `i` is the one of the path `cs`.
pub open spec fn entry_at<V>(entries: Seq<(Seq<char>, V)>, i: int, cs: Seq<Comp>) -> bool {
    0 <= i < entries.len() && path_components(entries[i].0) == cs
}

/// Whether some entry is the one of the path `cs`.
pub open spec fn has_path<V>(entries: Seq<(Seq<char>, V)>, cs: Seq<Comp>) -> bool {
    exists|i: int| entry_at(entries, i, cs)
}

/// The place of the path `cs` among the entries.
pub open spec fn place_of<V>(entries: Seq<(Seq<char>, V)>, cs: Seq<Comp>) -> int {
    choose|i: int| entry_at(entries, i, cs)
}

/// The value of each path, whatever text it is written in.
pub open spec fn as_map<V>(entries: Seq<(Seq<char>, V)>) -> Map<Seq<Comp>, V> {
    Map::new(
        |cs: Seq<Comp>| has_path(entries, cs),
        |cs: Seq<Comp>| entries[place_of(entries, cs)].1,
    )
}

/// The paths come in their order, so no path occurs twice.
pub open spec fn sorted<V>(entries: Seq<(Seq<char>, V)>) -> bool {
    forall|i: int, j: int|
        #![trigger entries[i], entries[j]]
        0 <= i < j < entries.len() ==> path_lt(
            path_components(entries[i].0),
            path_components(entries[j].0),
        )
}

/// In sorted entries a path has one place.
pub proof fn one_place<V>(entries: Seq<(Seq<char>, V)>, i: int, j: int)
    requires
        sorted(entries),
        0 <= i < entries.len(),
        0 <= j < entries.len(),
        path_components(entries[i].0) == path_components(entries[j].0),
    ensures
        i == j,
{
    path_order_total(path_components(entries[i].0), path_components(entries[j].0));
    if i < j {
        assert(path_lt(path_components(entries[i].0), path_components(entries[j].0)));
    } else if j < i {
        assert(path_lt(path_components(entries[j].0), path_components(entries[i].0)));
    }
}

/// The entry at a place is the value of its path.
pub proof fn map_at<V>(entries: Seq<(Seq<char>, V)>, i: int)
    requires
        sorted(entries),
        0 <= i < entries.len(),
    ensures
        as_map(entries).contains_key(path_components(entries[i].0)),
        as_map(entries)[path_components(entries[i].0)] == entries[i].1,
{
    let cs = path_components(entries[i].0);
    assert(entry_at(entries, i, cs));
    let k = place_of(entries, cs);
    assert(entry_at(entries, k, cs));
    one_place(entries, i, k);
}

proof fn lemma_update<V>(entries: Seq<(Seq<char>, V)>, i: int, value: V)
    requires
        sorted(entries),
        0 <= i < entries.len(),
    ensures
        sorted(entries.update(i, (entries[i].0, value))),
        as_map(entries.update(i, (entries[i].0, value))) == as_map(entries).insert(
            path_components(entries[i].0),
            value,
        ),
{
    let after = entries.update(i, (entries[i].0, value));
    let cs = path_components(entries[i].0);
    assert forall|a: int, b: int|
        #![trigger after[a], after[b]]
        0 <= a < b < after.len() implies path_lt(
        path_components(after[a].0),
        path_components(after[b].0),
    ) by {
        assert(after[a].0 == entries[a].0);
        assert(after[b].0 == entries[b].0);
    }
    let left = as_map(after);
    let right = as_map(entries).insert(cs, value);
    assert forall|c: Seq<Comp>| left.contains_key(c) <==> right.contains_key(c) by {
        if left.contains_key(c) {
            let k = place_of(after, c);
            assert(entry_at(entries, k, c));
        }
        if right.contains_key(c) {
            if c == cs {
                assert(entry_at(after, i, c));
            } else {
                let k = place_of(entries, c);
                assert(entry_at(after, k, c));
            }
        }
    }
    assert forall|c: Seq<Comp>| left.contains_key(c) implies left[c] == right[c] by {
        let k = place_of(after, c);
        assert(entry_at(after, k, c));
        assert(entry_at(entries, k, c));
        map_at(after, k);
        map_at(entries, k);
        if c == cs {
            one_place(entries, i, k);
        }
    }
    assert(left =~= right);
}

proof fn lemma_insert<V>(entries: Seq<(Seq<char>, V)>, i: int, text: Seq<char>, value: V)
    requires
        sorted(entries),
        0 <= i <= entries.len(),
        forall|k: int|
            0 <= k < i ==> path_lt(path_components(#[trigger] entries[k].0), path_components(text)),
        forall|k: int|
            i <= k < entries.len() ==> path_lt(
                path_components(text),
                path_components(#[trigger] entries[k].0),
            ),
    ensures
        sorted(entries.insert(i, (text, value))),
        !has_path(entries, path_components(text)),
        as_map(entries.insert(i, (text, value))) == as_map(entries).insert(
            path_components(text),
            value,
        ),
{
    let after = entries.insert(i, (text, value));
    let cs = path_components(text);
    assert forall|k: int| 0 <= k < after.len() implies #[trigger] after[k] == (if k < i {
        entries[k]
    } else if k == i {
        (text, value)
    } else {
        entries[k - 1]
    }) by {}
    assert forall|a: int, b: int|
        #![trigger after[a], after[b]]
        0 <= a < b < after.len() implies path_lt(
        path_components(after[a].0),
        path_components(after[b].0),
    ) by {
        let a0 = if a < i { a } else { a - 1 };
        let b0 = if b < i { b } else { b - 1 };
        if a != i && b != i {
            assert(path_lt(path_components(entries[a0].0), path_components(entries[b0].0)));
        } else if a == i {
            assert(path_lt(cs, path_components(entries[b0].0)));
        } else {
            assert(path_lt(path_components(entries[a0].0), cs));
        }
    }
    if has_path(entries, cs) {
        let k = place_of(entries, cs);
        assert(entry_at(entries, k, cs));
        path_order_total(cs, cs);
        assert(path_lt(path_components(entries[k].0), cs) || path_lt(
            cs,
            path_components(entries[k].0),
        ));
    }
    let left = as_map(after);
    let right = as_map(entries).insert(cs, value);
    assert forall|c: Seq<Comp>| left.contains_key(c) <==> right.contains_key(c) by {
        if left.contains_key(c) && c != cs {
            let k = place_of(after, c);
            assert(entry_at(after, k, c));
            assert(entry_at(entries, if k < i { k } else { k - 1 }, c));
        }
        if right.contains_key(c) {
            if c == cs {
                assert(entry_at(after, i, c));
            } else {
                let k = place_of(entries, c);
                assert(entry_at(entries, k, c));
                assert(entry_at(after, if k < i { k } else { k + 1 }, c));
            }
        }
    }
    assert forall|c: Seq<Comp>| left.contains_key(c) implies left[c] == right[c] by {
        let k = place_of(after, c);
        assert(entry_at(after, k, c));
        map_at(after, k);
        if c == cs {
            assert(entry_at(after, i, c));
            one_place(after, i, k);
        } else {
            let k0 = if k < i { k } else { k - 1 };
            assert(entry_at(entries, k0, c));
            map_at(entries, k0);
        }
    }
    assert(left =~= right);
}

/// A map from paths to values. A path that is there keeps the text it was first put in with.
#[derive(Debug)]
pub struct PathMap<V> {
    entries: Vec<(String, V)>,
}

impl<V> View for PathMap<V> {
    type V = Seq<(Seq<char>, V)>;

    closed spec fn view(&self) -> Seq<(Seq<char>, V)> {
        self.entries@.map_values(|e: (String, V)| (e.0@, e.1))
    }
}

impl<V> PathMap<V> {
    /// The entries are in the order of their paths.
    pub open spec fn wf(&self) -> bool {
        sorted(self@)
    }

    /// The value of each path.
    pub open spec fn map(&self) -> Map<Seq<Comp>, V> {
        as_map(self@)
    }

    /// An empty map.
    pub fn new() -> (r: Self)
        ensures
            r.wf(),
            r@ == Seq::<(Seq<char>, V)>::empty(),
            r.map() == Map::<Seq<Comp>, V>::empty(),
    {
        let r = PathMap { entries: Vec::new() };
        assert(r@ =~= Seq::<(Seq<char>, V)>::empty());
        assert(r.map() =~= Map::<Seq<Comp>, V>::empty());
        r
    }

    /// The number of paths.
    pub fn len(&self) -> (r: usize)
        ensures
            r == self@.len(),
    {
        self.entries.len()
    }

    /// The text of the path at a place.
    pub fn path_at(&self, i: usize) -> (r: &str)
        requires
            i < self@.len(),
        ensures
            r@ == self@[i as int].0,
    {
        self.entries[i].0.as_str()
    }

    /// The value at a place.
    pub fn value_at(&self, i: usize) -> (r: &V)
        requires
            i < self@.len(),
        ensures
            *r == self@[i as int].1,
    {
        &self.entries[i].1
    }

    /// The place of the path, and whether it is there; else the place where it belongs.
    fn locate(&self, path: &str) -> (r: (usize, bool))
        requires
            self.wf(),
        ensures
            r.0 <= self@.len(),
            forall|k: int|
                0 <= k < r.0 ==> path_lt(
                    path_components(#[trigger] self@[k].0),
                    path_components(path@),
                ),
            r.1 ==> entry_at(self@, r.0 as int, path_components(path@)),
            !r.1 ==> forall|k: int|
                r.0 <= k < self@.len() ==> path_lt(
                    path_components(path@),
                    path_components(#[trigger] self@[k].0),
                ),
    {
        let ghost cs = path_components(path@);
        let mut lo: usize = 0;
        let mut hi: usize = self.entries.len();
        while lo < hi
            invariant
                self.wf(),
                cs == path_components(path@),
                lo <= hi <= self@.len(),
                self@.len() == self.entries@.len(),
                forall|k: int| 0 <= k < lo ==> path_lt(path_components(#[trigger] self@[k].0), cs),
                forall|k: int|
                    hi <= k < self@.len() ==> path_lt(cs, path_components(#[trigger] self@[k].0)),
            decreases hi - lo,
        {
            let mid: usize = lo + (hi - lo) / 2;
            let order = compare(self.entries[mid].0.as_str(), path);
            let ghost at = path_components(self@[mid as int].0);
            proof {
                path_order_total(at, cs);
                assert forall|k: int| 0 <= k < mid implies path_lt(
                    path_components(#[trigger] self@[k].0),
                    at,
                ) by {
                    assert(path_lt(
                        path_components(self@[k].0),
                        path_components(self@[mid as int].0),
                    ));
                }
                assert forall|k: int| mid < k < self@.len() implies path_lt(
                    at,
                    path_components(#[trigger] self@[k].0),
                ) by {
                    assert(path_lt(
                        path_components(self@[mid as int].0),
                        path_components(self@[k].0),
                    ));
                }
            }
            match order {
                PathOrder::Same => {
                    return (mid, true);
                },
                PathOrder::Before => {
                    proof {
                        assert forall|k: int| 0 <= k < mid + 1 implies path_lt(
                            path_components(#[trigger] self@[k].0),
                            cs,
                        ) by {
                            if k < mid {
                                path_order_transitive(path_components(self@[k].0), at, cs);
                            }
                        }
                    }
                    lo = mid + 1;
                },
                PathOrder::After => {
                    proof {
                        assert forall|k: int| mid <= k < self@.len() implies path_lt(
                            cs,
                            path_components(#[trigger] self@[k].0),
                        ) by {
                            if mid < k {
                                path_order_transitive(cs, at, path_components(self@[k].0));
                            }
                        }
                    }
                    hi = mid;
                },
            }
        }
        (lo, false)
    }

    /// The value of the path, if it is there.
    pub fn get(&self, path: &str) -> (r: Option<&V>)
        requires
            self.wf(),
        ensures
            r is Some <==> self.map().contains_key(path_components(path@)),
            r is Some ==> *r->0 == self.map()[path_components(path@)],
    {
        let ghost cs = path_components(path@);
        let (i, found) = self.locate(path);
        if found {
            proof {
                map_at(self@, i as int);
            }
            Some(&self.entries[i].1)
        } else {
            proof {
                if has_path(self@, cs) {
                    let k = place_of(self@, cs);
                    assert(entry_at(self@, k, cs));
                    path_order_total(cs, cs);
                    assert(path_lt(path_components(self@[k].0), cs) || path_lt(
                        cs,
                        path_components(self@[k].0),
                    ));
                }
            }
            None
        }
    }

    /// Gives the path a value, in place of the one that it has.
    pub fn insert(&mut self, path: String, value: V)
        requires
            old(self).wf(),
        ensures
            final(self).wf(),
            final(self).map() == old(self).map().insert(path_components(path@), value),
            has_path(old(self)@, path_components(path@)) ==> ({
                let i = place_of(old(self)@, path_components(path@));
                final(self)@ == old(self)@.update(i, (old(self)@[i].0, value))
            }),
            !has_path(old(self)@, path_components(path@)) ==> exists|i: int|
                0 <= i <= old(self)@.len() && final(self)@ == #[trigger] old(self)@.insert(
                    i,
                    (path@, value),
                ),
    {
        let ghost cs = path_components(path@);
        let ghost before = self@;
        let (i, found) = self.locate(path.as_str());
        if found {
            proof {
                lemma_update(before, i as int, value);
                let k = place_of(before, cs);
                assert(entry_at(before, k, cs));
                one_place(before, i as int, k);
            }
            self.entries[i].1 = value;
            assert(self@ =~= before.update(i as int, (before[i as int].0, value)));
        } else {
            proof {
                lemma_insert(before, i as int, path@, value);
            }
            self.entries.insert(i, (path, value));
            assert(self@ =~= before.insert(i as int, (path@, value)));
        }
    }

    /// The value of the path, which is put in with `default` where it is not there.
    pub fn entry(&mut self, path: String, default: V) -> (r: &mut V)
        requires
            old(self).wf(),
        ensures
            *r == (if old(self).map().contains_key(path_components(path@)) {
                old(self).map()[path_components(path@)]
            } else {
                default
            }),
            final(self).wf(),
            final(self).map() == old(self).map().insert(path_components(path@), *final(r)),
    {
        let ghost cs = path_components(path@);
        let ghost before = self@;
        let (i, found) = self.locate(path.as_str());
        if !found {
            proof {
                lemma_insert(before, i as int, path@, default);
            }
            self.entries.insert(i, (path, default));
            assert(self@ =~= before.insert(i as int, (path@, default)));
        }
        let ghost mid = self@;
        proof {
            map_at(mid, i as int);
        }
        let ghost after = final(self)@;
        let r = &mut self.entries[i].1;
        proof {
            lemma_update(mid, i as int, *final(r));
            assert(after =~= mid.update(i as int, (mid[i as int].0, *final(r))));
            assert(as_map(after) =~= as_map(before).insert(cs, *final(r)));
        }
        r
    }
}

/// A path has a value if and only if one of the entries is that of the path, and then it has
/// the value of that entry.
pub proof fn paths_have_the_values_of_their_entries<V>(
    entries: Seq<(Seq<char>, V)>,
    cs: Seq<Comp>,
)
    requires
        sorted(entries),
    ensures
        as_map(entries).contains_key(cs) <==> exists|i: int|
            0 <= i < entries.len() && path_components((#[trigger] entries[i]).0) == cs,
        forall|i: int|
            0 <= i < entries.len() && path_components((#[trigger] entries[i]).0) == cs ==> as_map(
                entries,
            )[cs] == entries[i].1,
{
    if as_map(entries).contains_key(cs) {
        let i = place_of(entries, cs);
        assert(entry_at(entries, i, cs));
        assert(path_components(entries[i].0) == cs);
    }
    assert forall|i: int|
        0 <= i < entries.len() && path_components((#[trigger] entries[i]).0) == cs implies as_map(
        entries,
    )[cs] == entries[i].1 && as_map(entries).contains_key(cs) by {
        map_at(entries, i);
    }
}

} // verus!
