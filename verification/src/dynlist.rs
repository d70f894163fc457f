//! Self-organizing lists: an access costs the position of the item, and the
//! list may move the item forward to make its next access cheaper.

use vstd::prelude::*;
use vstd::laws_eq::obeys_concrete_eq;

verus! {

/// A list that is searched from the front. An item that is not in the list
/// is appended by its first access.
pub trait Dynlist<T> {
    /// Whether the list can serve an access of `t`.
    spec fn accepts(&self, t: T) -> bool;

    /// Accesses `t` and returns the number of items looked at.
    fn access(&mut self, t: T) -> (cost: usize)
        requires
            old(self).accepts(t),
        ensures
            cost >= 1,
    ;
}

/// Position `i` is the first that holds `t`.
pub open spec fn first_of<T>(items: Seq<T>, t: T, i: int) -> bool {
    &&& 0 <= i < items.len()
    &&& items[i] == t
    &&& forall|j: int| 0 <= j < i ==> items[j] != t
}

/// Index of the first item equal to `t`, if there is one.
fn locate<T: Eq>(v: &Vec<T>, t: &T) -> (r: Option<usize>)
    requires
        obeys_concrete_eq::<T>(),
    ensures
        match r {
            Some(i) => first_of(v@, *t, i as int),
            None => !v@.contains(*t),
        },
{
    proof {
        reveal(obeys_concrete_eq);
    }
    let mut i: usize = 0;
    while i < v.len()
        invariant
            i <= v@.len(),
            obeys_concrete_eq::<T>(),
            forall|j: int| 0 <= j < i ==> v@[j] != *t,
        decreases v@.len() - i,
    {
        proof {
            reveal(obeys_concrete_eq);
        }
        if v[i] == *t {
            return Some(i);
        }
        i = i + 1;
    }
    None
}

/// A list that never reorders.
pub struct SimpleList<T> {
    v: Vec<T>,
}

impl<T> SimpleList<T> {
    /// The items, front first.
    pub closed spec fn items(&self) -> Seq<T> {
        self.v@
    }

    /// An empty list.
    pub fn new() -> (l: Self)
        ensures
            l.items() == Seq::<T>::empty(),
    {
        Self { v: Vec::new() }
    }
}

impl<T: Eq> Dynlist<T> for SimpleList<T> {
    open spec fn accepts(&self, t: T) -> bool {
        obeys_concrete_eq::<T>()
    }

    /// An item found at position `i` costs `i + 1` and stays; a new item is
    /// appended and costs the new length.
    fn access(&mut self, t: T) -> (cost: usize)
        ensures
            old(self).items().contains(t) ==> final(self).items() == old(self).items()
                && first_of(old(self).items(), t, cost - 1),
            !old(self).items().contains(t) ==> final(self).items() == old(self).items().push(t)
                && cost == old(self).items().len() + 1,
    {
        match locate(&self.v, &t) {
            Some(i) => {
                assert(i < self.v.len());
                i + 1
            },
            None => {
                self.v.push(t);
                self.v.len()
            },
        }
    }
}

/// Move to front: an item that is found moves to the front.
pub struct MTFList<T> {
    v: Vec<T>,
}

impl<T> MTFList<T> {
    /// The items, front first.
    pub closed spec fn items(&self) -> Seq<T> {
        self.v@
    }

    /// An empty list.
    pub fn new() -> (l: Self)
        ensures
            l.items() == Seq::<T>::empty(),
    {
        Self { v: Vec::new() }
    }
}

impl<T: Eq> Dynlist<T> for MTFList<T> {
    open spec fn accepts(&self, t: T) -> bool {
        obeys_concrete_eq::<T>()
    }

    /// An item found at position `i` costs `i + 1` and moves to the front;
    /// a new item is appended and costs the new length.
    fn access(&mut self, t: T) -> (cost: usize)
        ensures
            old(self).items().contains(t) ==> first_of(old(self).items(), t, cost - 1)
                && final(self).items() == old(self).items().remove(cost - 1).insert(0, t),
            !old(self).items().contains(t) ==> final(self).items() == old(self).items().push(t)
                && cost == old(self).items().len() + 1,
    {
        match locate(&self.v, &t) {
            Some(i) => {
                assert(i < self.v.len());
                let item = self.v.remove(i);
                self.v.insert(0, item);
                i + 1
            },
            None => {
                self.v.push(t);
                self.v.len()
            },
        }
    }
}

/// Transpose: an item that is found moves one place forward.
pub struct TPList<T> {
    v: Vec<T>,
}

impl<T> TPList<T> {
    /// The items, front first.
    pub closed spec fn items(&self) -> Seq<T> {
        self.v@
    }

    /// An empty list.
    pub fn new() -> (l: Self)
        ensures
            l.items() == Seq::<T>::empty(),
    {
        Self { v: Vec::new() }
    }
}

/// The items with those at `i` and `j` exchanged.
pub open spec fn exchanged<T>(items: Seq<T>, i: int, j: int) -> Seq<T> {
    items.update(i, items[j]).update(j, items[i])
}

impl<T: Eq> Dynlist<T> for TPList<T> {
    open spec fn accepts(&self, t: T) -> bool {
        obeys_concrete_eq::<T>()
    }

    /// An item found at position `i` costs `i + 1` and changes places with
    /// the item before it, if there is one; a new item is appended and costs
    /// the new length.
    fn access(&mut self, t: T) -> (cost: usize)
        ensures
            old(self).items().contains(t) ==> first_of(old(self).items(), t, cost - 1)
                && final(self).items() == (if cost > 1 {
                exchanged(old(self).items(), cost - 2, cost - 1)
            } else {
                old(self).items()
            }),
            !old(self).items().contains(t) ==> final(self).items() == old(self).items().push(t)
                && cost == old(self).items().len() + 1,
    {
        match locate(&self.v, &t) {
            Some(i) => {
                assert(i < self.v.len());
                if i > 0 {
                    let item = self.v.remove(i);
                    self.v.insert(i - 1, item);
                    proof {
                        assert(self.v@ =~= exchanged(old(self).v@, i - 1, i as int));
                    }
                }
                i + 1
            },
            None => {
                self.v.push(t);
                self.v.len()
            },
        }
    }
}

/// Frequency count: every item carries the number of its accesses, and an
/// item that is found moves before the first item with a smaller number.
pub struct FCList<T> {
    v: Vec<(T, usize)>,
}

/// Position `i` is the first whose item is `t`.
pub open spec fn first_entry_of<T>(entries: Seq<(T, usize)>, t: T, i: int) -> bool {
    &&& 0 <= i < entries.len()
    &&& entries[i].0 == t
    &&& forall|j: int| 0 <= j < i ==> entries[j].0 != t
}

/// Whether some entry holds `t`.
pub open spec fn has_entry<T>(entries: Seq<(T, usize)>, t: T) -> bool {
    exists|i: int| 0 <= i < entries.len() && (#[trigger] entries[i]).0 == t
}

/// The place of an entry that was found at `i` and now counts `n`
/// accesses: the first position before `i` with a smaller number, or `i`.
pub open spec fn place_for<T>(entries: Seq<(T, usize)>, i: int, n: usize, j: int) -> bool {
    &&& 0 <= j <= i
    &&& j < i ==> entries[j].1 < n
    &&& forall|k: int| 0 <= k < j ==> entries[k].1 >= n
}

impl<T> FCList<T> {
    /// The items with their numbers of accesses, front first.
    pub closed spec fn entries(&self) -> Seq<(T, usize)> {
        self.v@
    }

    /// An empty list.
    pub fn new() -> (l: Self)
        ensures
            l.entries() == Seq::<(T, usize)>::empty(),
    {
        Self { v: Vec::new() }
    }
}

impl<T: Eq> FCList<T> {
    /// Index of the first entry whose item is `t`, if there is one.
    fn locate(&self, t: &T) -> (r: Option<usize>)
        requires
            obeys_concrete_eq::<T>(),
        ensures
            match r {
                Some(i) => first_entry_of(self.entries(), *t, i as int),
                None => !has_entry(self.entries(), *t),
            },
    {
        proof {
            reveal(obeys_concrete_eq);
        }
        let mut i: usize = 0;
        while i < self.v.len()
            invariant
                i <= self.v@.len(),
                obeys_concrete_eq::<T>(),
                forall|j: int| 0 <= j < i ==> (#[trigger] self.v@[j]).0 != *t,
            decreases self.v@.len() - i,
        {
            proof {
                reveal(obeys_concrete_eq);
            }
            if self.v[i].0 == *t {
                return Some(i);
            }
            i = i + 1;
        }
        None
    }

    /// The first position before `limit` whose number is below `n`, or `limit`.
    fn place(&self, limit: usize, n: usize) -> (j: usize)
        requires
            limit <= self.entries().len(),
        ensures
            place_for(self.entries(), limit as int, n, j as int),
    {
        let mut j: usize = 0;
        while j < limit
            invariant
                j <= limit <= self.v@.len(),
                forall|k: int| 0 <= k < j ==> (#[trigger] self.v@[k]).1 >= n,
            decreases limit - j,
        {
            if self.v[j].1 < n {
                return j;
            }
            j = j + 1;
        }
        limit
    }
}

impl<T: Eq> Dynlist<T> for FCList<T> {
    open spec fn accepts(&self, t: T) -> bool {
        &&& obeys_concrete_eq::<T>()
        &&& forall|i: int|
            0 <= i < self.entries().len() ==> (#[trigger] self.entries()[i]).1 < usize::MAX
    }

    /// An item found at position `i` costs `i + 1`, counts one access more,
    /// and moves before the first item ahead of it with a smaller number; a
    /// new item is appended with one access and costs the new length.
    fn access(&mut self, t: T) -> (cost: usize)
        ensures
            has_entry(old(self).entries(), t) ==> first_entry_of(old(self).entries(), t, cost - 1)
                && ({
                let i = cost - 1;
                let n = (old(self).entries()[i].1 + 1) as usize;
                exists|j: int| #[trigger]
                    place_for(old(self).entries(), i, n, j) && final(self).entries()
                        == old(self).entries().remove(i).insert(j, (t, n))
            }),
            !has_entry(old(self).entries(), t) ==> final(self).entries()
                == old(self).entries().push((t, 1usize)) && cost == old(self).entries().len() + 1,
    {
        match self.locate(&t) {
            Some(i) => {
                assert(i < self.v.len());
                let (item, n) = self.v.remove(i);
                proof {
                    reveal(obeys_concrete_eq);
                    assert(old(self).entries()[i as int].1 < usize::MAX);
                }
                let j = self.place(i, n + 1);
                self.v.insert(j, (item, n + 1));
                proof {
                    let before = old(self).entries();
                    assert(before[i as int].1 < usize::MAX);
                    assert forall|k: int| 0 <= k < i implies before.remove(i as int)[k]
                        == before[k] by {}
                    assert(place_for(before, i as int, (n + 1) as usize, j as int));
                }
                i + 1
            },
            None => {
                self.v.push((t, 1));
                self.v.len()
            },
        }
    }
}

} // verus!
