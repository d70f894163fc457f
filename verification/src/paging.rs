//! Cache eviction policies over a cache of a fixed number of slots. A slot
//! that was never filled holds page 0.

use vstd::prelude::*;
use rand::rngs::ThreadRng;
use crate::random::{gen_below, thread_rng};

verus! {

/// A cache that serves page requests: a hit costs nothing, a miss costs one.
pub trait CacheStrategy<T> {
    /// The invariant of the cache.
    spec fn wf(&self) -> bool;

    /// Whether the cache can take a request for `page`.
    spec fn accepts(&self, page: T) -> bool;

    /// Serves a request for `page` and returns what it cost.
    fn access(&mut self, page: T) -> (cost: usize)
        requires
            old(self).wf(),
            old(self).accepts(page),
        ensures
            final(self).wf(),
            cost <= 1,
    ;
}

/// Index of the first slot that holds `page`, if any does.
pub fn position(cache: &Vec<usize>, page: usize) -> (r: Option<usize>)
    ensures
        match r {
            Some(i) => first_at(cache@, page, i as int),
            None => !cache@.contains(page),
        },
{
    let mut i: usize = 0;
    while i < cache.len()
        invariant
            i <= cache@.len(),
            forall|j: int| 0 <= j < i ==> cache@[j] != page,
        decreases cache@.len() - i,
    {
        if cache[i] == page {
            return Some(i);
        }
        i = i + 1;
    }
    None
}

/// Slot `i` is the first that holds `page`.
pub open spec fn first_at(cache: Seq<usize>, page: usize, i: int) -> bool {
    &&& 0 <= i < cache.len()
    &&& cache[i] == page
    &&& forall|j: int| 0 <= j < i ==> cache[j] != page
}

/// Empties every slot.
fn wipe(cache: &mut Vec<usize>)
    ensures
        final(cache)@ == Seq::new(old(cache)@.len(), |i: int| 0usize),
{
    let mut i: usize = 0;
    while i < cache.len()
        invariant
            i <= cache@.len(),
            cache@.len() == old(cache)@.len(),
            forall|j: int| 0 <= j < i ==> cache@[j] == 0,
        decreases cache@.len() - i,
    {
        cache.set(i, 0);
        i = i + 1;
    }
    proof {
        assert(cache@ =~= Seq::new(old(cache)@.len(), |i: int| 0usize));
    }
}

/// First in, first out: a miss overwrites the slots in turn.
#[derive(Debug)]
pub struct FIFO {
    cache: Vec<usize>,
    size: usize,
    index: usize,
}

impl FIFO {
    /// The slots.
    pub closed spec fn slots(&self) -> Seq<usize> {
        self.cache@
    }

    /// The slot that the next miss overwrites.
    pub closed spec fn cursor(&self) -> usize {
        self.index
    }

    /// The invariant of the representation.
    pub closed spec fn inv(&self) -> bool {
        self.size == self.cache@.len()
    }

    /// A cache of `size` empty slots. It serves requests if it has a slot.
    pub fn new(size: usize) -> (c: Self)
        ensures
            c.inv(),
            c.slots() == Seq::new(size as nat, |i: int| 0usize),
            c.cursor() == 0,
    {
        let c = Self { cache: vec![0usize; size], size: size, index: 0 };
        proof {
            assert(c.cache@ =~= Seq::new(size as nat, |i: int| 0usize));
        }
        c
    }
}

impl CacheStrategy<usize> for FIFO {
    open spec fn wf(&self) -> bool {
        self.inv() && self.cursor() < self.slots().len()
    }

    open spec fn accepts(&self, page: usize) -> bool {
        true
    }

    /// A hit changes nothing. A miss puts `page` in the slot under the
    /// cursor and moves the cursor on, back to the first slot after the last.
    fn access(&mut self, page: usize) -> (cost: usize)
        ensures
            old(self).slots().contains(page) ==> cost == 0 && final(self).slots()
                == old(self).slots() && final(self).cursor() == old(self).cursor(),
            !old(self).slots().contains(page) ==> cost == 1 && final(self).slots()
                == old(self).slots().update(old(self).cursor() as int, page) && final(self).cursor()
                    == (old(self).cursor() + 1) % (old(self).slots().len() as int),
    {
        match position(&self.cache, page) {
            Some(_) => 0,
            None => {
                self.cache.set(self.index, page);
                self.index = (self.index + 1) % self.size;
                1
            },
        }
    }
}

/// Flush when full: a miss fills the slots in turn, and empties them all
/// first when none is left.
#[derive(Debug)]
pub struct FWF {
    cache: Vec<usize>,
    size: usize,
    index: usize,
}

impl FWF {
    /// The slots.
    pub closed spec fn slots(&self) -> Seq<usize> {
        self.cache@
    }

    /// Number of slots filled since the last flush.
    pub closed spec fn filled(&self) -> usize {
        self.index
    }

    /// The invariant of the representation.
    pub closed spec fn inv(&self) -> bool {
        self.size == self.cache@.len()
    }

    /// A cache of `size` empty slots. It serves requests if it has a slot.
    pub fn new(size: usize) -> (c: Self)
        ensures
            c.inv(),
            c.slots() == Seq::new(size as nat, |i: int| 0usize),
            c.filled() == 0,
    {
        let c = Self { cache: vec![0usize; size], size: size, index: 0 };
        proof {
            assert(c.cache@ =~= Seq::new(size as nat, |i: int| 0usize));
        }
        c
    }
}

impl CacheStrategy<usize> for FWF {
    open spec fn wf(&self) -> bool {
        self.inv() && self.filled() <= self.slots().len() && self.slots().len() > 0
    }

    open spec fn accepts(&self, page: usize) -> bool {
        true
    }

    /// A hit changes nothing. A miss with a slot left fills the next slot;
    /// a miss with none left empties all slots and fills the first.
    fn access(&mut self, page: usize) -> (cost: usize)
        ensures
            old(self).slots().contains(page) ==> cost == 0 && final(self).slots()
                == old(self).slots() && final(self).filled() == old(self).filled(),
            !old(self).slots().contains(page) && old(self).filled() < old(self).slots().len()
                ==> cost == 1 && final(self).slots() == old(self).slots().update(
                old(self).filled() as int,
                page,
            ) && final(self).filled() == old(self).filled() + 1,
            !old(self).slots().contains(page) && old(self).filled() == old(self).slots().len()
                ==> cost == 1 && final(self).slots() == Seq::new(
                old(self).slots().len(),
                |i: int| 0usize,
            ).update(0, page) && final(self).filled() == 1,
    {
        match position(&self.cache, page) {
            Some(_) => 0,
            None => {
                if self.index == self.size {
                    wipe(&mut self.cache);
                    self.index = 0;
                }
                self.cache.set(self.index, page);
                self.index = self.index + 1;
                1
            },
        }
    }
}

/// Least recently used: the slots are kept in the order of their last use,
/// and a miss evicts the first.
#[derive(Debug)]
pub struct LRU {
    cache: Vec<usize>,
}

impl LRU {
    /// The slots, least recently used first.
    pub closed spec fn slots(&self) -> Seq<usize> {
        self.cache@
    }

    /// A cache of `size` empty slots. It serves requests if it has a slot.
    pub fn new(size: usize) -> (c: Self)
        ensures
            c.slots() == Seq::new(size as nat, |i: int| 0usize),
    {
        let c = Self { cache: vec![0usize; size] };
        proof {
            assert(c.cache@ =~= Seq::new(size as nat, |i: int| 0usize));
        }
        c
    }
}

impl CacheStrategy<usize> for LRU {
    open spec fn wf(&self) -> bool {
        self.slots().len() > 0
    }

    open spec fn accepts(&self, page: usize) -> bool {
        true
    }

    /// A hit moves the first slot that holds `page` to the end. A miss drops
    /// the first slot and puts `page` at the end.
    fn access(&mut self, page: usize) -> (cost: usize)
        ensures
            old(self).slots().contains(page) ==> cost == 0 && exists|i: int|
                first_at(old(self).slots(), page, i) && final(self).slots()
                    == old(self).slots().remove(i).push(page),
            !old(self).slots().contains(page) ==> cost == 1 && final(self).slots()
                == old(self).slots().remove(0).push(page),
    {
        match position(&self.cache, page) {
            Some(i) => {
                self.cache.remove(i);
                self.cache.push(page);
                0
            },
            None => {
                self.cache.remove(0);
                self.cache.push(page);
                1
            },
        }
    }
}

/// The request counts after one more request for `page`: the table grows
/// to reach `page` where it is too short, and the count of `page` goes up.
pub open spec fn counted(count: Seq<usize>, page: int) -> Seq<usize> {
    Seq::new(
        if page < count.len() { count.len() } else { (page + 1) as nat },
        |i: int|
            ((if i < count.len() { count[i] as int } else { 0 })
                + (if i == page { 1int } else { 0 })) as usize,
    )
}

/// Slot `v` holds a page with the least count, and is the first such slot.
pub open spec fn first_least(cache: Seq<usize>, count: Seq<usize>, v: int) -> bool {
    &&& 0 <= v < cache.len()
    &&& forall|i: int| 0 <= i < cache.len() ==> count[cache[v] as int]
        <= count[#[trigger] cache[i] as int]
    &&& forall|i: int| 0 <= i < v ==> count[cache[v] as int] < count[#[trigger] cache[i] as int]
}

/// Least frequently used: every request is counted, and a miss evicts the
/// page with the least count.
#[derive(Debug)]
pub struct LFU {
    cache: Vec<usize>,
    count: Vec<usize>,
}

impl LFU {
    /// The slots.
    pub closed spec fn slots(&self) -> Seq<usize> {
        self.cache@
    }

    /// Number of requests so far, by page; entry 0 stands for the empty slot.
    pub closed spec fn counts(&self) -> Seq<usize> {
        self.count@
    }

    /// A cache of `size` empty slots, with no request counted. It serves
    /// requests if it has a slot.
    pub fn new(size: usize) -> (c: Self)
        requires
            size < usize::MAX,
        ensures
            c.slots() == Seq::new(size as nat, |i: int| 0usize),
            c.counts() == Seq::new((size + 1) as nat, |i: int| 0usize),
    {
        let c = Self { cache: vec![0usize; size], count: vec![0usize; size + 1] };
        proof {
            assert(c.cache@ =~= Seq::new(size as nat, |i: int| 0usize));
            assert(c.count@ =~= Seq::new((size + 1) as nat, |i: int| 0usize));
        }
        c
    }

    /// The first slot whose page has the least count.
    fn least_used(&self) -> (v: usize)
        requires
            self.wf(),
        ensures
            first_least(self.slots(), self.counts(), v as int),
    {
        let mut v: usize = 0;
        let mut i: usize = 1;
        while i < self.cache.len()
            invariant
                self.wf(),
                1 <= i <= self.cache@.len(),
                v < i,
                forall|k: int|
                    0 <= k < i ==> self.count@[self.cache@[v as int] as int] <= self.count@[
                    #[trigger] self.cache@[k] as int],
                forall|k: int|
                    0 <= k < v ==> self.count@[self.cache@[v as int] as int] < self.count@[
                    #[trigger] self.cache@[k] as int],
            decreases self.cache@.len() - i,
        {
            assert(self.cache@[i as int] < self.count@.len());
            assert(self.cache@[v as int] < self.count@.len());
            if self.count[self.cache[i]] < self.count[self.cache[v]] {
                v = i;
            }
            i = i + 1;
        }
        v
    }
}

impl CacheStrategy<usize> for LFU {
    open spec fn wf(&self) -> bool {
        &&& self.slots().len() > 0
        &&& forall|i: int|
            0 <= i < self.slots().len() ==> (#[trigger] self.slots()[i]) < self.counts().len()
    }

    open spec fn accepts(&self, page: usize) -> bool {
        &&& page < usize::MAX
        &&& page < self.counts().len() ==> self.counts()[page as int] < usize::MAX
    }

    /// The request is counted. A hit then changes nothing more. A miss puts
    /// `page` in the first slot whose page has the least count.
    fn access(&mut self, page: usize) -> (cost: usize)
        ensures
            final(self).counts() == counted(old(self).counts(), page as int),
            old(self).slots().contains(page) ==> cost == 0 && final(self).slots()
                == old(self).slots(),
            !old(self).slots().contains(page) ==> cost == 1 && exists|v: int|
                first_least(old(self).slots(), final(self).counts(), v) && final(self).slots()
                    == old(self).slots().update(v, page),
    {
        if page >= self.count.len() {
            self.count.resize(page + 1, 0);
        }
        let seen = self.count[page];
        self.count.set(page, seen + 1);
        proof {
            assert(self.count@ =~= counted(old(self).counts(), page as int));
        }
        match position(&self.cache, page) {
            Some(_) => 0,
            None => {
                let v = self.least_used();
                self.cache.set(v, page);
                1
            },
        }
    }
}

/// Random eviction: a miss fills the slots in turn, and once all are filled
/// it overwrites one drawn at random.
pub struct RAND {
    cache: Vec<usize>,
    size: usize,
    taken: usize,
    rng: ThreadRng,
}

impl RAND {
    /// The slots.
    pub closed spec fn slots(&self) -> Seq<usize> {
        self.cache@
    }

    /// Number of slots filled so far.
    pub closed spec fn filled(&self) -> usize {
        self.taken
    }

    /// The invariant: at least one slot, and no more filled than there are.
    pub closed spec fn inv(&self) -> bool {
        self.size == self.cache@.len() && self.size > 0 && self.taken <= self.size
    }

    /// A cache of `size` empty slots, drawing from the calling thread's
    /// generator.
    pub fn new(size: usize) -> (c: Self)
        requires
            size > 0,
        ensures
            c.inv(),
            c.slots() == Seq::new(size as nat, |i: int| 0usize),
            c.filled() == 0,
    {
        let c = Self { cache: vec![0usize; size], size: size, taken: 0, rng: thread_rng() };
        proof {
            assert(c.cache@ =~= Seq::new(size as nat, |i: int| 0usize));
        }
        c
    }

    /// Serves a request for `page` with the slot to overwrite already drawn.
    /// A hit changes nothing. A miss with a slot left fills the next slot; a
    /// miss with none left overwrites `slot`.
    pub fn access_at(&mut self, page: usize, slot: usize) -> (cost: usize)
        requires
            old(self).wf(),
            slot < old(self).slots().len(),
        ensures
            final(self).wf(),
            old(self).slots().contains(page) ==> cost == 0 && final(self).slots()
                == old(self).slots() && final(self).filled() == old(self).filled(),
            !old(self).slots().contains(page) && old(self).filled() < old(self).slots().len()
                ==> cost == 1 && final(self).slots() == old(self).slots().update(
                old(self).filled() as int,
                page,
            ) && final(self).filled() == old(self).filled() + 1,
            !old(self).slots().contains(page) && old(self).filled() == old(self).slots().len()
                ==> cost == 1 && final(self).slots() == old(self).slots().update(
                slot as int,
                page,
            ) && final(self).filled() == old(self).filled(),
    {
        match position(&self.cache, page) {
            Some(_) => 0,
            None => {
                if self.taken == self.size {
                    self.cache.set(slot, page);
                } else {
                    self.cache.set(self.taken, page);
                    self.taken = self.taken + 1;
                }
                1
            },
        }
    }
}

impl CacheStrategy<usize> for RAND {
    open spec fn wf(&self) -> bool {
        self.inv() && self.slots().len() > 0 && self.filled() <= self.slots().len()
    }

    open spec fn accepts(&self, page: usize) -> bool {
        true
    }

    /// Serves a request for `page`, drawing the slot to overwrite. A hit
    /// changes nothing. A miss with a slot left fills the next slot; a miss
    /// with none left overwrites some slot.
    fn access(&mut self, page: usize) -> (cost: usize)
        ensures
            old(self).slots().contains(page) ==> cost == 0 && final(self).slots()
                == old(self).slots() && final(self).filled() == old(self).filled(),
            !old(self).slots().contains(page) && old(self).filled() < old(self).slots().len()
                ==> cost == 1 && final(self).slots() == old(self).slots().update(
                old(self).filled() as int,
                page,
            ) && final(self).filled() == old(self).filled() + 1,
            !old(self).slots().contains(page) && old(self).filled() == old(self).slots().len()
                ==> cost == 1 && final(self).filled() == old(self).filled() && exists|slot: int|
                0 <= slot < old(self).slots().len() && final(self).slots()
                    == old(self).slots().update(slot, page),
    {
        let evicting = self.taken == self.size && position(&self.cache, page).is_none();
        let slot = if evicting { gen_below(&mut self.rng, self.size) } else { 0 };
        self.access_at(page, slot)
    }
}

/// Number of slots that are not marked.
pub open spec fn unmarked(cache: Seq<(usize, bool)>) -> nat
    decreases cache.len(),
{
    if cache.len() == 0 {
        0
    } else {
        unmarked(cache.drop_last()) + if cache.last().1 { 0nat } else { 1nat }
    }
}

/// Slot `i` is not marked, and `rank` slots before it are not marked either.
pub open spec fn unmarked_at(cache: Seq<(usize, bool)>, rank: nat, i: int) -> bool {
    &&& 0 <= i < cache.len()
    &&& !cache[i].1
    &&& unmarked(cache.take(i)) == rank
}

/// Slot `i` is the first that holds `page`.
pub open spec fn first_holding(cache: Seq<(usize, bool)>, page: usize, i: int) -> bool {
    &&& 0 <= i < cache.len()
    &&& cache[i].0 == page
    &&& forall|j: int| 0 <= j < i ==> cache[j].0 != page
}

/// Whether some slot holds `page`.
pub open spec fn holds(cache: Seq<(usize, bool)>, page: usize) -> bool {
    exists|i: int| 0 <= i < cache.len() && (#[trigger] cache[i]).0 == page
}

/// The slots with every mark taken off.
pub open spec fn cleared(cache: Seq<(usize, bool)>) -> Seq<(usize, bool)> {
    Seq::new(cache.len(), |i: int| (cache[i].0, false))
}

/// With no mark left, every slot counts as unmarked.
pub proof fn lemma_cleared_unmarked(cache: Seq<(usize, bool)>)
    ensures
        unmarked(cleared(cache)) == cache.len(),
    decreases cache.len(),
{
    if cache.len() > 0 {
        lemma_cleared_unmarked(cache.drop_last());
        assert(cleared(cache).drop_last() =~= cleared(cache.drop_last()));
    }
}

/// Marking slot `i` takes it out of the unmarked slots if it was one.
pub proof fn lemma_mark_counts(cache: Seq<(usize, bool)>, i: int, page: usize)
    requires
        0 <= i < cache.len(),
    ensures
        unmarked(cache.update(i, (page, true))) + (if cache[i].1 { 0nat } else { 1nat })
            == unmarked(cache),
    decreases cache.len(),
{
    let marked = cache.update(i, (page, true));
    if i == cache.len() - 1 {
        assert(marked.drop_last() =~= cache.drop_last());
    } else {
        lemma_mark_counts(cache.drop_last(), i, page);
        assert(marked.drop_last() =~= cache.drop_last().update(i, (page, true)));
    }
}

/// Random marking: a hit marks its slot; a miss overwrites a slot drawn at
/// random among the unmarked ones and marks it, after taking off all marks
/// if every slot was marked.
pub struct RMA {
    cache: Vec<(usize, bool)>,
    size: usize,
    marked: usize,
    rng: ThreadRng,
}

impl RMA {
    /// The slots: a page and its mark.
    pub closed spec fn slots(&self) -> Seq<(usize, bool)> {
        self.cache@
    }

    /// Number of marked slots.
    pub closed spec fn marks(&self) -> usize {
        self.marked
    }

    /// The invariant of the representation.
    pub closed spec fn inv(&self) -> bool {
        self.size == self.cache@.len()
    }

    /// A cache of `size` empty slots without marks, drawing from the calling
    /// thread's generator. It serves requests if it has a slot.
    pub fn new(size: usize) -> (c: Self)
        ensures
            c.inv(),
            c.slots() == Seq::new(size as nat, |i: int| (0usize, false)),
            c.marks() == 0,
            size > 0 ==> c.wf(),
    {
        let mut cache: Vec<(usize, bool)> = Vec::new();
        let mut i: usize = 0;
        while i < size
            invariant
                i <= size,
                cache@.len() == i,
                forall|j: int| 0 <= j < i ==> #[trigger] cache@[j] == (0usize, false),
            decreases size - i,
        {
            cache.push((0, false));
            i = i + 1;
        }
        let c = Self { cache, size: size, marked: 0, rng: thread_rng() };
        proof {
            assert(c.cache@ =~= Seq::new(size as nat, |i: int| (0usize, false)));
            assert(c.cache@ =~= cleared(c.cache@));
            lemma_cleared_unmarked(c.cache@);
        }
        c
    }

    /// Index of the first slot that holds `page`, if any does.
    fn find(&self, page: usize) -> (r: Option<usize>)
        ensures
            match r {
                Some(i) => first_holding(self.slots(), page, i as int),
                None => !holds(self.slots(), page),
            },
    {
        let mut i: usize = 0;
        while i < self.cache.len()
            invariant
                i <= self.cache@.len(),
                forall|j: int| 0 <= j < i ==> (#[trigger] self.cache@[j]).0 != page,
            decreases self.cache@.len() - i,
        {
            if self.cache[i].0 == page {
                return Some(i);
            }
            i = i + 1;
        }
        None
    }

    /// Takes off every mark.
    fn unmark_all(&mut self)
        requires
            old(self).inv(),
        ensures
            final(self).inv(),
            final(self).slots() == cleared(old(self).slots()),
            final(self).marks() == 0,
    {
        let mut i: usize = 0;
        while i < self.cache.len()
            invariant
                i <= self.cache@.len(),
                self.size == old(self).size,
                self.cache@.len() == old(self).cache@.len(),
                forall|j: int| 0 <= j < i ==> #[trigger] self.cache@[j]
                    == (old(self).cache@[j].0, false),
                forall|j: int| i <= j < self.cache@.len() ==> #[trigger] self.cache@[j]
                    == old(self).cache@[j],
            decreases self.cache@.len() - i,
        {
            let page = self.cache[i].0;
            self.cache.set(i, (page, false));
            i = i + 1;
        }
        self.marked = 0;
        proof {
            assert(self.cache@ =~= cleared(old(self).cache@));
        }
    }

    /// The unmarked slot that has `rank` unmarked slots before it.
    fn nth_unmarked(&self, rank: usize) -> (i: usize)
        requires
            rank < unmarked(self.slots()),
        ensures
            unmarked_at(self.slots(), rank as nat, i as int),
    {
        let mut i: usize = 0;
        let mut seen: usize = 0;
        while i < self.cache.len()
            invariant
                i <= self.cache@.len(),
                seen == unmarked(self.cache@.take(i as int)),
                seen <= rank,
                rank < unmarked(self.cache@),
            decreases self.cache@.len() - i,
        {
            proof {
                assert(self.cache@.take(i + 1).drop_last() =~= self.cache@.take(i as int));
            }
            if !self.cache[i].1 {
                if seen == rank {
                    return i;
                }
                seen = seen + 1;
            }
            i = i + 1;
        }
        proof {
            assert(self.cache@.take(i as int) =~= self.cache@);
        }
        i
    }

    /// Serves a request for `page` with the rank of the slot to overwrite
    /// already drawn. A hit marks the first slot that holds `page`. A miss
    /// first takes off all marks if every slot is marked; then it puts `page`,
    /// marked, in the unmarked slot that has `rank` unmarked slots before it.
    pub fn access_at(&mut self, page: usize, rank: usize) -> (cost: usize)
        requires
            old(self).wf(),
            rank < (if old(self).marks() == old(self).slots().len() {
                old(self).slots().len() as int
            } else {
                old(self).slots().len() - old(self).marks()
            }),
        ensures
            final(self).wf(),
            holds(old(self).slots(), page) ==> cost == 0 && exists|i: int|
                first_holding(old(self).slots(), page, i) && final(self).slots()
                    == old(self).slots().update(i, (page, true)) && final(self).marks()
                        == old(self).marks() + (
                if old(self).slots()[i].1 { 0int } else { 1int }),
            !holds(old(self).slots(), page) ==> cost == 1 && exists|i: int|
                unmarked_at(old(self).before_miss(), rank as nat, i) && final(self).slots()
                    == old(self).before_miss().update(i, (page, true)) && final(self).marks()
                    == old(self).slots().len() - unmarked(old(self).before_miss()) + 1,
    {
        match self.find(page) {
            Some(i) => {
                proof {
                    lemma_mark_counts(self.cache@, i as int, page);
                }
                if self.cache[i].1 == false {
                    self.cache.set(i, (page, true));
                    self.marked = self.marked + 1;
                } else {
                    proof {
                        assert(self.cache@ =~= self.cache@.update(i as int, (page, true)));
                    }
                }
                0
            },
            None => {
                if self.marked == self.size {
                    proof {
                        lemma_cleared_unmarked(self.cache@);
                    }
                    self.unmark_all();
                }
                let ghost before = self.cache@;
                proof {
                    assert(before == old(self).before_miss());
                }
                let i = self.nth_unmarked(rank);
                proof {
                    lemma_mark_counts(before, i as int, page);
                }
                self.cache.set(i, (page, true));
                self.marked = self.marked + 1;
                proof {
                    assert(unmarked_at(before, rank as nat, i as int));
                    assert(self.cache@ == before.update(i as int, (page, true)));
                    assert(self.marked == before.len() - unmarked(before) + 1);
                }
                1
            },
        }
    }

    /// The slots as a miss finds them: without marks if every slot was marked.
    pub open spec fn before_miss(&self) -> Seq<(usize, bool)> {
        if self.marks() == self.slots().len() {
            cleared(self.slots())
        } else {
            self.slots()
        }
    }
}

impl CacheStrategy<usize> for RMA {
    open spec fn wf(&self) -> bool {
        &&& self.inv()
        &&& self.slots().len() > 0
        &&& self.marks() + unmarked(self.slots()) == self.slots().len()
    }

    open spec fn accepts(&self, page: usize) -> bool {
        true
    }

    /// Serves a request for `page`, drawing the slot to overwrite. A hit
    /// marks the first slot that holds `page`. A miss first takes off all marks
    /// if every slot is marked; then it puts `page`, marked, in some unmarked
    /// slot.
    fn access(&mut self, page: usize) -> (cost: usize)
        ensures
            holds(old(self).slots(), page) ==> cost == 0 && exists|i: int|
                first_holding(old(self).slots(), page, i) && final(self).slots()
                    == old(self).slots().update(i, (page, true)) && final(self).marks()
                        == old(self).marks() + (
                if old(self).slots()[i].1 { 0int } else { 1int }),
            !holds(old(self).slots(), page) ==> cost == 1 && exists|i: int|
                0 <= i < old(self).slots().len() && !old(self).before_miss()[i].1
                    && final(self).slots() == old(self).before_miss().update(i, (page, true))
                        && final(self).marks()
                            == old(self).slots().len() - unmarked(old(self).before_miss()) + 1,
    {
        let free = if self.marked == self.size { self.size } else { self.size - self.marked };
        let rank = if self.find(page).is_none() { gen_below(&mut self.rng, free) } else { 0 };
        let cost = self.access_at(page, rank);
        proof {
            if !holds(old(self).slots(), page) {
                let before = old(self).before_miss();
                let i = choose|i: int|
                    unmarked_at(before, rank as nat, i) && self.slots() == before.update(
                        i,
                        (page, true),
                    );
                assert(0 <= i < old(self).slots().len() && !before[i].1);
            }
        }
        cost
    }
}

} // verus!
