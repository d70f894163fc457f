//! Multi-copy allocation: the object is replicated to the nodes that keep
//! asking for it, and replicas that writes have worn out are shed.

use vstd::prelude::*;
use std::collections::HashSet;
use crate::graphs::IndexErr;

verus! {

broadcast use vstd::std_specs::hash::group_hash_axioms;

/// State of a node without a replica; its counter counts its requests.
pub const COLD: u8 = 1;

/// State of a node with a replica; its counter counts the writes of others
/// that the replica still outlasts.
pub const ACTIVE: u8 = 3;

/// State of a node whose replica is worn out, and is kept only until
/// another replica exists.
pub const PINNED: u8 = 4;

/// The per-node bookkeeping of the scheme: a state and a counter for each node.
pub struct Ledger {
    pub states: Seq<u8>,
    pub counters: Seq<usize>,
}

/// The nodes that hold a replica: those that are not `COLD`.
pub open spec fn holders(states: Seq<u8>) -> Set<usize> {
    Set::new(|i: usize| i < states.len() && states[i as int] != COLD)
}

/// What one node's state and counter must satisfy between operations.
pub open spec fn settled(state: u8, counter: usize, d: usize) -> bool {
    &&& state == COLD || state == ACTIVE || state == PINNED
    &&& state == COLD && d > 0 ==> counter < d
    &&& state == ACTIVE ==> 1 <= counter <= d
    &&& state == PINNED ==> counter == 0
}

/// The ledger is one of `n` nodes, each settled, at least one with a replica.
pub open spec fn ledger_wf(m: Ledger, n: nat, d: usize) -> bool {
    &&& m.states.len() == n
    &&& m.counters.len() == n
    &&& forall|i: int| 0 <= i < n ==> settled(#[trigger] m.states[i], m.counters[i], d)
    &&& exists|i: int| 0 <= i < n && #[trigger] m.states[i] != COLD
}

/// A request from `s` counts towards its promotion if `s` is `COLD`: its
/// counter goes up by one, and on reaching `d` the node becomes `ACTIVE`.
pub open spec fn interested(m: Ledger, d: usize, s: int) -> Ledger {
    if m.states[s] == COLD {
        Ledger {
            states: if m.counters[s] + 1 == d { m.states.update(s, ACTIVE) } else { m.states },
            counters: m.counters.update(s, (m.counters[s] + 1) as usize),
        }
    } else {
        m
    }
}

/// Whether a request from `s` promotes it.
pub open spec fn promotes(m: Ledger, d: usize, s: int) -> bool {
    m.states[s] == COLD && m.counters[s] + 1 == d
}

/// A write from `s` wears every `ACTIVE` replica but that of `s`: its
/// counter goes down by one, and at zero the node becomes `PINNED`.
pub open spec fn decayed(m: Ledger, s: int) -> Ledger {
    Ledger {
        states: Seq::new(
            m.states.len(),
            |i: int|
                if i != s && m.states[i] == ACTIVE && m.counters[i] == 1 {
                    PINNED
                } else {
                    m.states[i]
                },
        ),
        counters: Seq::new(
            m.counters.len(),
            |i: int|
                if i != s && m.states[i] == ACTIVE {
                    (m.counters[i] - 1) as usize
                } else {
                    m.counters[i]
                },
        ),
    }
}

/// Another replica remains when the turn of node `i` comes in a
/// consolidation: one that is not `PINNED`, or a `PINNED` one of a higher index.
pub open spec fn outlasts(states: Seq<u8>, j: int, i: int) -> bool {
    0 <= j < states.len() && states[j] != COLD && (states[j] != PINNED || j > i)
}

/// Node `i` is shed by a consolidation: it is `PINNED`, and another replica
/// remains when its turn comes.
pub open spec fn sheds(states: Seq<u8>, i: int) -> bool {
    &&& states[i] == PINNED
    &&& exists|j: int| outlasts(states, j, i)
}

/// The states after a consolidation: the nodes that are shed become `COLD`.
pub open spec fn consolidated(states: Seq<u8>) -> Seq<u8> {
    Seq::new(states.len(), |i: int| if sheds(states, i) { COLD } else { states[i] })
}

/// Cost of a read from `s`: nothing where `s` holds a replica, else one.
pub open spec fn read_cost(m: Ledger, s: int) -> nat {
    if m.states[s] != COLD { 0 } else { 1 }
}

/// The ledger after a read from `s`: the request counts, and a promotion
/// is followed by a consolidation.
pub open spec fn after_read(m: Ledger, d: usize, s: int) -> Ledger {
    let t = interested(m, d, s);
    if promotes(m, d, s) {
        Ledger { states: consolidated(t.states), counters: t.counters }
    } else {
        t
    }
}

/// Cost of a write from `s`: one for each replica but that of `s` itself.
pub open spec fn write_cost(m: Ledger, s: int) -> nat {
    if m.states[s] != COLD {
        (holders(m.states).len() - 1) as nat
    } else {
        holders(m.states).len()
    }
}

/// The ledger after a write from `s`: the other replicas wear, the request
/// counts, and a consolidation follows.
pub open spec fn after_write(m: Ledger, d: usize, s: int) -> Ledger {
    let t = interested(decayed(m, s), d, s);
    Ledger { states: consolidated(t.states), counters: t.counters }
}

/// The ledger after `n` reads from `s` in a row.
pub open spec fn after_reads(m: Ledger, d: usize, s: int, n: nat) -> Ledger
    decreases n,
{
    if n == 0 {
        m
    } else {
        after_read(after_reads(m, d, s, (n - 1) as nat), d, s)
    }
}

/// A policy that keeps one or more replicas of the object and serves reads
/// and writes of it.
pub trait PageAllocation {
    /// The invariant of the engine.
    spec fn wf(&self) -> bool;

    /// Whether the engine can count one more request from `source`.
    spec fn has_room(&self, source: usize) -> bool;

    /// Serves a read from `source` and returns what it cost.
    fn read(&mut self, source: usize) -> (r: Result<usize, IndexErr>)
        requires
            old(self).wf(),
            old(self).has_room(source),
        ensures
            final(self).wf(),
    ;

    /// Serves a write from `source` and returns what it cost.
    fn write(&mut self, source: usize) -> (r: Result<usize, IndexErr>)
        requires
            old(self).wf(),
            old(self).has_room(source),
        ensures
            final(self).wf(),
    ;
}

/// The counting scheme over a universe of `size` nodes with threshold `d`.
pub struct Count {
    pub size: usize,
    pub pages: HashSet<usize>,
    pub d: usize,
    pub states: Vec<u8>,
    pub counters: Vec<usize>,
}

impl View for Count {
    type V = Ledger;

    open spec fn view(&self) -> Ledger {
        Ledger { states: self.states@, counters: self.counters@ }
    }
}

impl Count {
    /// Number of nodes.
    pub open spec fn universe(&self) -> usize {
        self.size
    }

    /// The threshold `d`.
    pub open spec fn threshold(&self) -> usize {
        self.d
    }

    /// The replica set is the set of nodes whose state is not `COLD`.
    pub open spec fn linked(&self) -> bool {
        &&& self.states@.len() == self.universe()
        &&& self.counters@.len() == self.universe()
        &&& self.pages@.finite()
        &&& self.pages@ == holders(self.states@)
    }

    /// The invariant between operations: the replica set agrees with the
    /// states, every node is settled, and at least one replica exists.
    pub open spec fn inv(&self) -> bool {
        &&& self.linked()
        &&& self.pages@.len() >= 1
        &&& ledger_wf(self@, self.universe() as nat, self.threshold())
    }

    /// An engine over `size` nodes with threshold `d`, the only replica at
    /// `page`, which starts `PINNED`.
    pub fn new(size: usize, page: usize, d: usize) -> (c: Self)
        requires
            page < size,
        ensures
            c.inv(),
            c.universe() == size,
            c.threshold() == d,
            c.pages@ == set![page],
            c.states@ == Seq::new(size as nat, |i: int| COLD).update(page as int, PINNED),
            c.counters@ == Seq::new(size as nat, |i: int| 0usize),
    {
        let mut pages = HashSet::new();
        pages.insert(page);
        let mut states = vec![COLD; size];
        states.set(page, PINNED);
        let counters = vec![0usize; size];
        let c = Self { size, pages, d, states, counters };
        proof {
            assert(c.pages@ =~= set![page]);
            assert(c.states@ =~= Seq::new(size as nat, |i: int| COLD).update(page as int, PINNED));
            assert(c.counters@ =~= Seq::new(size as nat, |i: int| 0usize));
            assert(c.pages@ =~= holders(c.states@));
            assert(c.states@[page as int] != COLD);
            assert(c.pages@.len() == 1);
            assert(c@.states[page as int] != COLD);
            assert forall|i: int| 0 <= i < size implies settled(
                #[trigger] c@.states[i],
                c@.counters[i],
                d,
            ) by {
                assert(c@.counters[i] == 0);
                assert(c@.states[i] == if i == page { PINNED } else { COLD });
            }
        }
        c
    }

    /// Number of replicas.
    pub fn no_pages(&self) -> (n: usize)
        requires
            self.linked(),
        ensures
            n == holders(self.states@).len(),
            n == self.pages@.len(),
    {
        self.pages.len()
    }

    /// The consolidation: every `PINNED` node, in the order of the
    /// addresses, gives up its replica if it is not the only one.
    pub fn drop_pages(&mut self)
        requires
            old(self).linked(),
            old(self).pages@.len() >= 1,
        ensures
            final(self).linked(),
            final(self).pages@.len() >= 1,
            final(self).universe() == old(self).universe(),
            final(self).threshold() == old(self).threshold(),
            final(self).counters@ == old(self).counters@,
            final(self).states@ == consolidated(old(self).states@),
    {
        let ghost before = self.states@;
        let mut i: usize = 0;
        while i < self.size
            invariant
                i <= self.size,
                self.linked(),
                self.pages@.len() >= 1,
                self.universe() == old(self).universe(),
                self.threshold() == old(self).threshold(),
                self.counters@ == old(self).counters@,
                before == old(self).states@,
                self.states@.len() == before.len(),
                forall|k: int|
                    0 <= k < i ==> #[trigger] self.states@[k] == (if sheds(before, k) {
                        COLD
                    } else {
                        before[k]
                    }),
                forall|k: int| i <= k < before.len() ==> #[trigger] self.states@[k] == before[k],
            decreases self.size - i,
        {
            let ghost now = self.states@;
            let ghost held = self.pages@;
            if self.states[i] == PINNED {
                proof {
                    assert(held.contains(i));
                    assert(held.len() == held.remove(i).len() + 1);
                    if held.len() > 1 {
                        let j = held.remove(i).choose();
                        assert(held.remove(i).contains(j));
                        assert(now[j as int] != COLD);
                        if j < i {
                            if before[j as int] == PINNED {
                                assert(outlasts(before, i as int, j as int));
                                assert(sheds(before, j as int));
                            }
                        } else {
                            assert(before[j as int] == now[j as int]);
                        }
                        assert(outlasts(before, j as int, i as int));
                    }
                    if sheds(before, i as int) {
                        let j = choose|j: int| outlasts(before, j, i as int);
                        assert(now[j] == before[j]);
                        assert(held.remove(i).contains(j as usize));
                        assert(held.remove(i).len() == held.remove(i).remove(j as usize).len()
                            + 1);
                    }
                }
            }
            if self.states[i] == PINNED && self.pages.len() > 1 {
                self.states.set(i, COLD);
                self.pages.remove(&i);
                proof {
                    assert(self.pages@ =~= holders(self.states@));
                }
            }
            i = i + 1;
        }
        proof {
            assert(self.states@ =~= consolidated(before));
        }
    }
}

/// A finite replica set that is not empty has a member, which is a node
/// that is not `COLD`.
pub proof fn lemma_holder_exists(states: Seq<u8>)
    requires
        holders(states).finite(),
        holders(states).len() >= 1,
    ensures
        exists|i: int| 0 <= i < states.len() && #[trigger] states[i] != COLD,
{
    let h = holders(states).choose();
    assert(holders(states).contains(h));
    assert(states[h as int] != COLD);
}

impl PageAllocation for Count {
    open spec fn wf(&self) -> bool {
        self.inv()
    }

    open spec fn has_room(&self, source: usize) -> bool {
        self.threshold() > 0 || source >= self.universe() || self.counters@[source as int]
            < usize::MAX
    }

    /// Serves a read from `source`. It costs nothing where `source` holds a
    /// replica, else one. A `COLD` source counts the request, and with the
    /// `d`-th it is promoted, and the replicas are consolidated.
    fn read(&mut self, source: usize) -> (r: Result<usize, IndexErr>)
        ensures
            final(self).universe() == old(self).universe(),
            final(self).threshold() == old(self).threshold(),
            final(self).pages@.len() >= 1,
            source >= old(self).universe() ==> {
                &&& r == Err::<usize, IndexErr>(IndexErr::InvalidIndex)
                &&& final(self)@ == old(self)@
                &&& final(self).pages@ == old(self).pages@
            },
            source < old(self).universe() ==> {
                &&& (r matches Ok(cost) && cost == read_cost(old(self)@, source as int))
                &&& final(self)@ == after_read(old(self)@, old(self).threshold(), source as int)
            },
    {
        if source >= self.size {
            return Err(IndexErr::InvalidIndex);
        }
        let cost: usize = if self.pages.contains(&source) { 0 } else { 1 };
        if self.states[source] == COLD {
            let count = self.counters[source] + 1;
            self.counters.set(source, count);
            if count == self.d {
                self.pages.insert(source);
                self.states.set(source, ACTIVE);
                proof {
                    assert(self.pages@ =~= holders(self.states@));
                }
                self.drop_pages();
                proof {
                    lemma_holder_exists(self.states@);
                }
            }
        }
        proof {
            let after = after_read(old(self)@, old(self).threshold(), source as int);
            assert(self@.states =~= after.states);
            assert(self@.counters =~= after.counters);
            assert(self.pages@ =~= holders(self.states@));
        }
        Ok(cost)
    }

    /// Serves a write from `source`. It costs one for each replica but that
    /// of `source`. Every other `ACTIVE` replica wears by one and is `PINNED`
    /// once worn out; a `COLD` source counts the request, and with the `d`-th
    /// it is promoted; then the replicas are consolidated.
    fn write(&mut self, source: usize) -> (r: Result<usize, IndexErr>)
        ensures
            final(self).universe() == old(self).universe(),
            final(self).threshold() == old(self).threshold(),
            final(self).pages@.len() >= 1,
            source >= old(self).universe() ==> {
                &&& r == Err::<usize, IndexErr>(IndexErr::InvalidIndex)
                &&& final(self)@ == old(self)@
                &&& final(self).pages@ == old(self).pages@
            },
            source < old(self).universe() ==> {
                &&& (r matches Ok(cost) && cost == write_cost(old(self)@, source as int))
                &&& final(self)@ == after_write(old(self)@, old(self).threshold(), source as int)
            },
    {
        if source >= self.size {
            return Err(IndexErr::InvalidIndex);
        }
        let cost: usize = if self.pages.contains(&source) {
            self.pages.len() - 1
        } else {
            self.pages.len()
        };
        let ghost worn = decayed(old(self)@, source as int);
        let mut i: usize = 0;
        while i < self.size
            invariant
                i <= self.size,
                source < self.size,
                old(self).inv(),
                self.universe() == old(self).universe(),
                self.threshold() == old(self).threshold(),
                self.pages@ == old(self).pages@,
                self.states@.len() == self.size,
                self.counters@.len() == self.size,
                worn == decayed(old(self)@, source as int),
                forall|k: int| 0 <= k < i ==> #[trigger] self.states@[k] == worn.states[k],
                forall|k: int| 0 <= k < i ==> #[trigger] self.counters@[k] == worn.counters[k],
                forall|k: int|
                    i <= k < self.size ==> #[trigger] self.states@[k] == old(self).states@[k],
                forall|k: int|
                    i <= k < self.size ==> #[trigger] self.counters@[k] == old(self).counters@[k],
            decreases self.size - i,
        {
            proof {
                assert(settled(old(self)@.states[i as int], old(self)@.counters[i as int], self.d));
            }
            if i != source && self.states[i] == ACTIVE {
                let left = self.counters[i] - 1;
                self.counters.set(i, left);
                if left == 0 {
                    self.states.set(i, PINNED);
                }
            }
            i = i + 1;
        }
        proof {
            assert(self@.states =~= worn.states);
            assert(self@.counters =~= worn.counters);
            assert(self.pages@ =~= holders(self.states@)) by {
                assert forall|k: usize| self.pages@.contains(k) == holders(self.states@).contains(
                    k,
                ) by {
                    if k < self.size {
                        assert(self.states@[k as int] == worn.states[k as int]);
                    }
                }
            }
            assert(settled(old(self)@.states[source as int], old(self)@.counters[source as int],
                self.d));
        }
        if self.states[source] == COLD {
            let count = self.counters[source] + 1;
            self.counters.set(source, count);
            if count == self.d {
                self.pages.insert(source);
                self.states.set(source, ACTIVE);
            }
        }
        proof {
            assert(self.pages@ =~= holders(self.states@));
            let t = interested(worn, self.d, source as int);
            assert(self@.states =~= t.states);
            assert(self@.counters =~= t.counters);
            assert forall|k: int| 0 <= k < self.size implies settled(
                #[trigger] self@.states[k],
                self@.counters[k],
                self.d,
            ) by {
                assert(settled(old(self)@.states[k], old(self)@.counters[k], self.d));
            }
        }
        self.drop_pages();
        proof {
            lemma_holder_exists(self.states@);
            let after = after_write(old(self)@, old(self).threshold(), source as int);
            assert(self@.states =~= after.states);
            assert(self@.counters =~= after.counters);
        }
        Ok(cost)
    }
}

/// A `COLD` node in a row of reads, with no other operation between them:
/// while its counter is short of `d` it stays `COLD` and each read costs one;
/// the read that brings the counter to `d` promotes it; from then on it
/// holds a replica and its reads cost nothing.
pub proof fn lemma_reads_promote(m: Ledger, n: nat, d: usize, s: usize, k: nat)
    requires
        ledger_wf(m, n, d),
        s < n,
        d > 0,
        m.states[s as int] == COLD,
    ensures
        ledger_wf(after_reads(m, d, s as int, k), n, d),
        k < d - m.counters[s as int] ==> {
            &&& after_reads(m, d, s as int, k).states[s as int] == COLD
            &&& after_reads(m, d, s as int, k).counters[s as int] == m.counters[s as int] + k
            &&& !holders(after_reads(m, d, s as int, k).states).contains(s)
            &&& read_cost(after_reads(m, d, s as int, k), s as int) == 1
        },
        k >= d - m.counters[s as int] ==> {
            &&& after_reads(m, d, s as int, k).states[s as int] == ACTIVE
            &&& holders(after_reads(m, d, s as int, k).states).contains(s)
            &&& read_cost(after_reads(m, d, s as int, k), s as int) == 0
        },
    decreases k,
{
    if k > 0 {
        lemma_reads_promote(m, n, d, s, (k - 1) as nat);
        lemma_read_keeps_ledger(after_reads(m, d, s as int, (k - 1) as nat), n, d, s as int);
    }
}

/// A read leaves a well-formed ledger well-formed, and never turns an
/// `ACTIVE` node into anything else.
pub proof fn lemma_read_keeps_ledger(m: Ledger, n: nat, d: usize, s: int)
    requires
        ledger_wf(m, n, d),
        0 <= s < n,
    ensures
        ledger_wf(after_read(m, d, s), n, d),
        forall|i: int| 0 <= i < n && m.states[i] == ACTIVE ==> after_read(m, d, s).states[i]
            == ACTIVE,
        promotes(m, d, s) ==> after_read(m, d, s).states[s] == ACTIVE,
{
    let t = interested(m, d, s);
    let after = after_read(m, d, s);
    assert(settled(m.states[s], m.counters[s], d));
    assert forall|i: int| 0 <= i
        < n implies settled(#[trigger] after.states[i], after.counters[i], d) by {
        assert(settled(m.states[i], m.counters[i], d));
    }
    if promotes(m, d, s) {
        assert(t.states[s] == ACTIVE);
        assert(!sheds(t.states, s));
        assert(after.states[s] != COLD);
    } else {
        let h = choose|i: int| 0 <= i < n && #[trigger] m.states[i] != COLD;
        assert(after.states[h] != COLD);
    }
}

/// One operation of a request stream, with the node it comes from.
pub enum Request {
    Read(usize),
    Write(usize),
}

/// The ledger after a stream of operations, served in order.
pub open spec fn after_requests(m: Ledger, d: usize, stream: Seq<Request>) -> Ledger
    decreases stream.len(),
{
    if stream.len() == 0 {
        m
    } else {
        let served = after_requests(m, d, stream.drop_last());
        match stream.last() {
            Request::Read(s) => after_read(served, d, s as int),
            Request::Write(s) => after_write(served, d, s as int),
        }
    }
}

/// Among the first `n` nodes, if one is `PINNED`, one is the last `PINNED`.
proof fn lemma_last_pinned(states: Seq<u8>, n: int) -> (k: int)
    requires
        0 <= n <= states.len(),
        exists|i: int| 0 <= i < n && #[trigger] states[i] == PINNED,
    ensures
        0 <= k < n,
        states[k] == PINNED,
        forall|j: int| k < j < n ==> #[trigger] states[j] != PINNED,
    decreases n,
{
    if states[n - 1] == PINNED {
        n - 1
    } else {
        let i = choose|i: int| 0 <= i < n && #[trigger] states[i] == PINNED;
        assert(0 <= i < n - 1 && states[i] == PINNED);
        lemma_last_pinned(states, n - 1)
    }
}

/// A consolidation never sheds the last replica: if a node held one before,
/// a node holds one after.
pub proof fn lemma_consolidation_keeps_one(states: Seq<u8>)
    requires
        exists|i: int| 0 <= i < states.len() && #[trigger] states[i] != COLD,
    ensures
        exists|i: int| 0 <= i < states.len() && #[trigger] consolidated(states)[i] != COLD,
{
    let h = choose|i: int| 0 <= i < states.len() && #[trigger] states[i] != COLD;
    if exists|i: int| 0 <= i < states.len() && #[trigger] states[i] != COLD && states[i] != PINNED {
        let a = choose|i: int|
            0 <= i < states.len() && #[trigger] states[i] != COLD && states[i] != PINNED;
        assert(consolidated(states)[a] != COLD);
    } else {
        assert(states[h] == PINNED);
        let k = lemma_last_pinned(states, states.len() as int);
        assert forall|j: int| !outlasts(states, j, k) by {
            if 0 <= j < states.len() && states[j] != COLD {
                assert(states[j] == PINNED);
            }
        }
        assert(consolidated(states)[k] != COLD);
    }
}

/// A write leaves a well-formed ledger well-formed.
pub proof fn lemma_write_keeps_ledger(m: Ledger, n: nat, d: usize, s: int)
    requires
        ledger_wf(m, n, d),
        0 <= s < n,
    ensures
        ledger_wf(after_write(m, d, s), n, d),
{
    let worn = decayed(m, s);
    let t = interested(worn, d, s);
    let after = after_write(m, d, s);
    assert(worn.states.len() == n && worn.counters.len() == n);
    assert(t.states.len() == n && t.counters.len() == n);
    assert(after.states.len() == n && after.counters.len() == n);
    assert forall|i: int| 0 <= i < n implies settled(
        #[trigger] worn.states[i],
        worn.counters[i],
        d,
    ) by {
        assert(settled(m.states[i], m.counters[i], d));
    }
    assert forall|i: int| 0 <= i < n implies settled(#[trigger] t.states[i], t.counters[i], d) by {
        assert(settled(worn.states[i], worn.counters[i], d));
        if i != s {
            assert(t.states[i] == worn.states[i] && t.counters[i] == worn.counters[i]);
        }
    }
    assert forall|i: int| 0 <= i < n implies settled(
        #[trigger] after.states[i],
        after.counters[i],
        d,
    ) by {
        assert(settled(t.states[i], t.counters[i], d));
        assert(after.counters[i] == t.counters[i]);
        if sheds(t.states, i) {
            assert(t.states[i] == PINNED && after.states[i] == COLD);
        } else {
            assert(after.states[i] == t.states[i]);
        }
    }
    let h = choose|i: int| 0 <= i < n && #[trigger] m.states[i] != COLD;
    assert(worn.states[h] != COLD);
    assert(t.states[h] != COLD);
    lemma_consolidation_keeps_one(t.states);
    let k = choose|i: int| 0 <= i < t.states.len() && #[trigger] consolidated(t.states)[i] != COLD;
    assert(after.states[k] != COLD);
}

/// Whatever stream of reads and writes is served, the ledger stays
/// well-formed; in particular some node always holds a replica.
pub proof fn lemma_always_a_replica(m: Ledger, n: nat, d: usize, stream: Seq<Request>)
    requires
        ledger_wf(m, n, d),
        forall|i: int|
            0 <= i < stream.len() ==> match #[trigger] stream[i] {
                Request::Read(s) => s < n,
                Request::Write(s) => s < n,
            },
    ensures
        ledger_wf(after_requests(m, d, stream), n, d),
        exists|i: int| 0 <= i < n && #[trigger] after_requests(m, d, stream).states[i] != COLD,
    decreases stream.len(),
{
    if stream.len() > 0 {
        let before = stream.drop_last();
        assert forall|i: int| 0 <= i < before.len() implies match #[trigger] before[i] {
            Request::Read(s) => s < n,
            Request::Write(s) => s < n,
        } by {
            assert(before[i] == stream[i]);
        }
        lemma_always_a_replica(m, n, d, before);
        let served = after_requests(m, d, before);
        assert(stream[stream.len() - 1] == stream.last());
        match stream.last() {
            Request::Read(s) => lemma_read_keeps_ledger(served, n, d, s as int),
            Request::Write(s) => lemma_write_keeps_ledger(served, n, d, s as int),
        }
    }
}

} // verus!
