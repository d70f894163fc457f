//! Single-copy page migration: one copy of the object, moved towards the
//! nodes that ask for it.

use vstd::prelude::*;
use rand::rngs::ThreadRng;
use crate::graphs::{IndexErr, MetricGraph};
use crate::random::{gen_below, thread_rng};

verus! {

/// Sum of the distances from `candidate` to each of the buffered sources.
pub open spec fn total_distance<G: MetricGraph>(g: G, candidate: nat, sources: Seq<usize>) -> nat
    decreases sources.len(),
{
    if sources.len() == 0 {
        0
    } else {
        total_distance(g, candidate, sources.drop_last()) + g.metric(
            candidate,
            sources.last() as nat,
        )
    }
}

/// `best` is the node with the least total distance to `sources`, and among
/// the nodes that share the least total it is the one with the lowest index.
pub open spec fn first_minimizer<G: MetricGraph>(g: G, sources: Seq<usize>, best: nat) -> bool {
    &&& best < g.node_count()
    &&& forall|c: nat|
        c < g.node_count() ==> total_distance(g, best, sources) <= #[trigger] total_distance(
            g,
            c,
            sources,
        )
    &&& forall|c: nat|
        c < best ==> total_distance(g, best, sources) < #[trigger] total_distance(g, c, sources)
}

/// Cost of one request from `source` while the copy is at `page`, when the
/// request moves the copy to `target`: the access, and `d` times the way moved.
pub open spec fn relocating_cost<G: MetricGraph>(
    g: G,
    d: nat,
    page: nat,
    source: nat,
    target: nat,
) -> nat {
    g.metric(page, source) + d * g.metric(page, target)
}

/// The total distance from one node to `n` copies of the same source is `n`
/// times their distance.
pub proof fn lemma_total_of_repeated<G: MetricGraph>(g: G, candidate: nat, sources: Seq<usize>,
    s: usize)
    requires
        forall|i: int| 0 <= i < sources.len() ==> sources[i] == s,
    ensures
        total_distance(g, candidate, sources) == sources.len() * g.metric(candidate, s as nat),
    decreases sources.len(),
{
    let m = g.metric(candidate, s as nat);
    if sources.len() > 0 {
        lemma_total_of_repeated(g, candidate, sources.drop_last(), s);
        assert((sources.len() - 1) * m + m == sources.len() * m) by (nonlinear_arith);
    } else {
        assert(0 * m == 0) by (nonlinear_arith);
    }
}

/// When every buffered request came from the node `s` that holds the copy,
/// the request that fills the buffer costs nothing: the access is free, and
/// the node chosen is at distance zero, so that the move is free too.
pub proof fn lemma_colocated_requests_are_free<G: MetricGraph>(
    g: G,
    d: nat,
    s: usize,
    sources: Seq<usize>,
    best: nat,
)
    requires
        g.wf(),
        s < g.node_count(),
        sources.len() > 0,
        forall|i: int| 0 <= i < sources.len() ==> sources[i] == s,
        first_minimizer(g, sources, best),
    ensures
        g.metric(s as nat, best) == 0,
        relocating_cost(g, d, s as nat, s as nat, best) == 0,
{
    let n = sources.len();
    lemma_total_of_repeated(g, s as nat, sources, s);
    lemma_total_of_repeated(g, best, sources, s);
    g.lemma_metric(s as nat, best, s as nat);
    let here = g.metric(s as nat, s as nat);
    let there = g.metric(best, s as nat);
    assert(n * here == 0) by (nonlinear_arith)
        requires
            here == 0,
    ;
    assert(total_distance(g, best, sources) <= total_distance(g, s as nat, sources));
    assert(there == 0) by (nonlinear_arith)
        requires
            n * there <= 0,
            n > 0,
    ;
    assert(d * 0 == 0) by (nonlinear_arith);
}

/// A policy that holds one copy of the object and serves requests for it.
pub trait PageMigration {
    /// The invariant of the engine.
    spec fn wf(&self) -> bool;

    /// Serves one request from `source` and returns what it cost.
    fn read(&mut self, source: usize) -> (r: Result<usize, IndexErr>)
        requires
            old(self).wf(),
        ensures
            final(self).wf(),
    ;
}

/// The deterministic policy: requests are buffered, and once `d` of them
/// are in, the copy moves to the node nearest to all of them.
pub struct MoveToMin<G: MetricGraph> {
    graph: G,
    page: usize,
    d: usize,
    buffer: Vec<usize>,
}

impl<G: MetricGraph> MoveToMin<G> {
    /// The topology.
    pub closed spec fn graph(&self) -> G {
        self.graph
    }

    /// The node that holds the copy.
    pub closed spec fn location(&self) -> usize {
        self.page
    }

    /// The threshold `d`.
    pub closed spec fn threshold(&self) -> usize {
        self.d
    }

    /// The sources of the requests since the last move, oldest first.
    pub closed spec fn pending(&self) -> Seq<usize> {
        self.buffer@
    }

    /// Whether the copy's node and `node` are both addresses of the graph.
    pub open spec fn serves(&self, node: usize) -> bool {
        self.location() < self.graph().node_count() && node < self.graph().node_count()
    }

    /// What a scan of the buffer needs: valid sources, and room for their sum.
    pub open spec fn scannable(&self) -> bool {
        &&& self.graph().wf()
        &&& forall|i: int|
            0 <= i < self.pending().len() ==> (#[trigger] self.pending()[i])
                < self.graph().node_count()
        &&& self.pending().len() * self.graph().diameter() <= usize::MAX
    }

    /// The invariant between requests.
    pub open spec fn inv(&self) -> bool {
        &&& self.graph().wf()
        &&& forall|i: int|
            0 <= i < self.pending().len() ==> (#[trigger] self.pending()[i])
                < self.graph().node_count()
        &&& (self.threshold() + 1) * self.graph().diameter() <= usize::MAX
        &&& (self.threshold() > 0 ==> self.pending().len() < self.threshold())
    }

    /// An engine on `graph` with the copy at `page` and threshold `d`. The
    /// cost of a request, at most `d + 1` times the diameter, must fit.
    pub fn new(graph: G, page: usize, d: usize) -> (m: Self)
        requires
            graph.wf(),
            (d + 1) * graph.diameter() <= usize::MAX,
        ensures
            m.inv(),
            m.graph() == graph,
            m.location() == page,
            m.threshold() == d,
            m.pending() == Seq::<usize>::empty(),
    {
        Self { graph, page, d, buffer: Vec::new() }
    }

    /// The node that holds the copy.
    pub fn page(&self) -> (r: usize)
        ensures
            r == self.location(),
    {
        self.page
    }

    /// Moves the copy to `target` and returns `d` times the way moved. Fails,
    /// and moves nothing, when the copy's node or `target` is no address.
    pub fn migrate(&mut self, target: usize) -> (r: Result<usize, IndexErr>)
        requires
            old(self).graph().wf(),
            old(self).threshold() * old(self).graph().diameter() <= usize::MAX,
        ensures
            final(self).graph() == old(self).graph(),
            final(self).threshold() == old(self).threshold(),
            final(self).pending() == old(self).pending(),
            old(self).serves(target) ==> {
                &&& final(self).location() == target
                &&& r matches Ok(cost) && cost == old(self).threshold() * old(self).graph().metric(
                    old(self).location() as nat,
                    target as nat,
                )
            },
            !old(self).serves(target) ==> {
                &&& final(self).location() == old(self).location()
                &&& r == Err::<usize, IndexErr>(IndexErr::InvalidIndex)
            },
    {
        match self.graph.distance(self.page, target) {
            Ok(way) => {
                proof {
                    self.graph.lemma_metric(self.page as nat, target as nat, target as nat);
                    lemma_product_bounded(
                        self.d as nat,
                        way as nat,
                        self.graph.diameter(),
                    );
                }
                let cost = self.d * way;
                self.page = target;
                Ok(cost)
            },
            Err(e) => Err(e),
        }
    }

    /// Sum of the distances from `candidate` to the buffered sources.
    fn total_from(&self, candidate: usize) -> (r: usize)
        requires
            self.scannable(),
            candidate < self.graph().node_count(),
        ensures
            r == total_distance(self.graph(), candidate as nat, self.pending()),
    {
        let mut sum: usize = 0;
        let mut j: usize = 0;
        let n = self.buffer.len();
        proof {
            assert(0 * self.graph.diameter() == 0) by (nonlinear_arith);
        }
        while j < n
            invariant
                j <= n,
                n == self.buffer.len(),
                self.scannable(),
                candidate < self.graph().node_count(),
                sum == total_distance(self.graph(), candidate as nat, self.pending().take(j as int)),
                sum <= j * self.graph().diameter(),
            decreases n - j,
        {
            let src = self.buffer[j];
            proof {
                let taken = self.pending().take(j + 1);
                assert(taken.drop_last() == self.pending().take(j as int));
                assert(taken.last() == src);
                assert(self.pending()[j as int] < self.graph().node_count());
                self.graph.lemma_metric(candidate as nat, src as nat, src as nat);
                let diam = self.graph.diameter();
                assert(j * diam + diam == (j + 1) * diam) by (nonlinear_arith);
                lemma_product_bounded(diam, (j + 1) as nat, n as nat);
                assert(diam * n == n * diam && diam * (j + 1) == (j + 1) * diam)
                    by (nonlinear_arith);
            }
            let way = self.graph.distance(candidate, src).unwrap();
            sum = sum + way;
            j = j + 1;
        }
        proof {
            assert(self.pending().take(n as int) == self.pending());
        }
        sum
    }

    /// The node nearest to the buffered sources; of several, the first.
    pub fn find_min(&self) -> (best: usize)
        requires
            self.scannable(),
            self.graph().node_count() > 0,
        ensures
            first_minimizer(self.graph(), self.pending(), best as nat),
    {
        let n = self.graph.size();
        let mut best: usize = 0;
        let mut least: usize = self.total_from(0);
        let mut c: usize = 1;
        while c < n
            invariant
                1 <= c <= n,
                n == self.graph().node_count(),
                self.scannable(),
                best < c,
                least == total_distance(self.graph(), best as nat, self.pending()),
                forall|k: nat|
                    k < c ==> least <= #[trigger] total_distance(self.graph(), k, self.pending()),
                forall|k: nat|
                    k < best ==> least < #[trigger] total_distance(self.graph(), k, self.pending()),
            decreases n - c,
        {
            let t = self.total_from(c);
            if t < least {
                best = c;
                least = t;
            }
            c = c + 1;
        }
        best
    }
}

/// If `b <= c` then `a * b <= a * c`.
proof fn lemma_product_bounded(a: nat, b: nat, c: nat)
    requires
        b <= c,
    ensures
        a * b <= a * c,
{
    assert(a * b <= a * c) by (nonlinear_arith)
        requires
            b <= c,
    ;
}

impl<G: MetricGraph> PageMigration for MoveToMin<G> {
    open spec fn wf(&self) -> bool {
        self.inv()
    }

    /// Serves a request from `source`: the access costs the distance from
    /// the copy. The request that brings the buffer to `d` entries also moves
    /// the copy to the node nearest to the buffered sources (the first such
    /// node), at `d` times the way moved, and empties the buffer.
    fn read(&mut self, source: usize) -> (r: Result<usize, IndexErr>)
        ensures
            final(self).graph() == old(self).graph(),
            final(self).threshold() == old(self).threshold(),
            !old(self).serves(source) ==> {
                &&& r == Err::<usize, IndexErr>(IndexErr::InvalidIndex)
                &&& final(self).location() == old(self).location()
                &&& final(self).pending() == old(self).pending()
            },
            old(self).serves(source) && old(self).pending().len() + 1 != old(self).threshold() ==> {
                &&& r matches Ok(cost) && cost == old(self).graph().metric(
                    old(self).location() as nat,
                    source as nat,
                )
                &&& final(self).location() == old(self).location()
                &&& final(self).pending() == old(self).pending().push(source)
            },
            old(self).serves(source) && old(self).pending().len() + 1 == old(self).threshold() ==> {
                &&& first_minimizer(
                    old(self).graph(),
                    old(self).pending().push(source),
                    final(self).location() as nat,
                )
                &&& r matches Ok(cost) && cost == relocating_cost(
                    old(self).graph(),
                    old(self).threshold() as nat,
                    old(self).location() as nat,
                    source as nat,
                    final(self).location() as nat,
                )
                &&& final(self).pending() == Seq::<usize>::empty()
            },
    {
        let access = match self.graph.distance(self.page, source) {
            Ok(way) => way,
            Err(e) => { return Err(e); },
        };
        let ghost diam = self.graph.diameter();
        let ghost d = self.d as nat;
        proof {
            self.graph.lemma_metric(self.page as nat, source as nat, source as nat);
            assert((d + 1) * diam == d * diam + diam) by (nonlinear_arith);
        }
        self.buffer.push(source);
        proof {
            assert forall|i: int| 0 <= i
                < self.pending().len() implies (#[trigger] self.pending()[i])
                < self.graph().node_count() by {
                if i < old(self).pending().len() {
                    assert(self.pending()[i] == old(self).pending()[i]);
                }
            }
        }
        if self.buffer.len() == self.d {
            proof {
                assert(self.pending().len() == d);
            }
            let best = self.find_min();
            proof {
                self.graph.lemma_metric(self.page as nat, best as nat, best as nat);
                lemma_product_bounded(
                    d,
                    self.graph.metric(self.page as nat, best as nat),
                    diam,
                );
            }
            match self.migrate(best) {
                Ok(moving) => {
                    self.buffer.clear();
                    proof {
                        assert(0 * diam == 0) by (nonlinear_arith);
                    }
                    Ok(access + moving)
                },
                Err(e) => Err(e),
            }
        } else {
            Ok(access)
        }
    }
}

/// The randomized policy: each request moves the copy to its source with
/// probability `1 / (2 d)`.
pub struct CoinFlip<G: MetricGraph> {
    graph: G,
    page: usize,
    d: usize,
    rng: ThreadRng,
}

impl<G: MetricGraph> CoinFlip<G> {
    /// The topology.
    pub closed spec fn graph(&self) -> G {
        self.graph
    }

    /// The node that holds the copy.
    pub closed spec fn location(&self) -> usize {
        self.page
    }

    /// The threshold `d`.
    pub closed spec fn threshold(&self) -> usize {
        self.d
    }

    /// Whether the copy's node and `node` are both addresses of the graph.
    pub open spec fn serves(&self, node: usize) -> bool {
        self.location() < self.graph().node_count() && node < self.graph().node_count()
    }

    /// The invariant between requests.
    pub open spec fn inv(&self) -> bool {
        &&& self.graph().wf()
        &&& (self.threshold() + 1) * self.graph().diameter() <= usize::MAX
    }

    /// An engine on `graph` with the copy at `page` and threshold `d`, drawing
    /// from the calling thread's generator. The cost of a request, at most
    /// `d + 1` times the diameter, must fit.
    pub fn new(graph: G, page: usize, d: usize) -> (m: Self)
        requires
            graph.wf(),
            (d + 1) * graph.diameter() <= usize::MAX,
        ensures
            m.inv(),
            m.graph() == graph,
            m.location() == page,
            m.threshold() == d,
    {
        Self { graph, page, d, rng: thread_rng() }
    }

    /// The node that holds the copy.
    pub fn page(&self) -> (r: usize)
        ensures
            r == self.location(),
    {
        self.page
    }

    /// Moves the copy to `target` and returns `d` times the way moved. Fails,
    /// and moves nothing, when the copy's node or `target` is no address.
    pub fn migrate(&mut self, target: usize) -> (r: Result<usize, IndexErr>)
        requires
            old(self).graph().wf(),
            old(self).threshold() * old(self).graph().diameter() <= usize::MAX,
        ensures
            final(self).graph() == old(self).graph(),
            final(self).threshold() == old(self).threshold(),
            old(self).serves(target) ==> {
                &&& final(self).location() == target
                &&& r matches Ok(cost) && cost == old(self).threshold() * old(self).graph().metric(
                    old(self).location() as nat,
                    target as nat,
                )
            },
            !old(self).serves(target) ==> {
                &&& final(self).location() == old(self).location()
                &&& r == Err::<usize, IndexErr>(IndexErr::InvalidIndex)
            },
    {
        match self.graph.distance(self.page, target) {
            Ok(way) => {
                proof {
                    self.graph.lemma_metric(self.page as nat, target as nat, target as nat);
                    lemma_product_bounded(
                        self.d as nat,
                        way as nat,
                        self.graph.diameter(),
                    );
                }
                let cost = self.d * way;
                self.page = target;
                Ok(cost)
            },
            Err(e) => Err(e),
        }
    }

    /// Draws the coin: `true` with probability `1 / (2 d)`, by a fair coin
    /// and a die of `d` sides; always `true` when `d` is zero.
    fn toss(&mut self) -> (relocate: bool)
        ensures
            final(self).graph() == old(self).graph(),
            final(self).threshold() == old(self).threshold(),
            final(self).location() == old(self).location(),
            old(self).threshold() == 0 ==> relocate,
    {
        if self.d == 0 {
            true
        } else {
            let coin = gen_below(&mut self.rng, 2);
            let die = gen_below(&mut self.rng, self.d);
            coin == 0 && die == 0
        }
    }

    /// Serves a request from `source` with the coin already drawn: the
    /// access costs the distance from the copy, and where `relocate` holds the
    /// copy moves to `source`, at `d` times that distance more.
    pub fn settle(&mut self, source: usize, relocate: bool) -> (r: Result<usize, IndexErr>)
        requires
            old(self).inv(),
        ensures
            final(self).inv(),
            final(self).graph() == old(self).graph(),
            final(self).threshold() == old(self).threshold(),
            !old(self).serves(source) ==> {
                &&& r == Err::<usize, IndexErr>(IndexErr::InvalidIndex)
                &&& final(self).location() == old(self).location()
            },
            old(self).serves(source) ==> {
                &&& final(self).location() == if relocate { source } else { old(self).location() }
                &&& r matches Ok(cost) && cost == relocating_cost(
                    old(self).graph(),
                    old(self).threshold() as nat,
                    old(self).location() as nat,
                    source as nat,
                    final(self).location() as nat,
                )
            },
    {
        let access = match self.graph.distance(self.page, source) {
            Ok(way) => way,
            Err(e) => { return Err(e); },
        };
        let ghost diam = self.graph.diameter();
        let ghost d = self.d as nat;
        proof {
            self.graph.lemma_metric(self.page as nat, source as nat, source as nat);
            self.graph.lemma_metric(self.page as nat, self.page as nat, source as nat);
            assert((d + 1) * diam == d * diam + diam) by (nonlinear_arith);
            lemma_product_bounded(d, self.graph.metric(self.page as nat, source as nat), diam);
            assert(d * 0 == 0) by (nonlinear_arith);
        }
        if relocate {
            match self.migrate(source) {
                Ok(moving) => Ok(access + moving),
                Err(e) => Err(e),
            }
        } else {
            Ok(access)
        }
    }
}

impl<G: MetricGraph> PageMigration for CoinFlip<G> {
    open spec fn wf(&self) -> bool {
        self.inv()
    }

    /// Serves a request from `source`, drawing the coin for it. Whatever was
    /// drawn, the request either stayed or moved the copy to `source`, and
    /// cost what `settle` states for that outcome. With a threshold of zero
    /// no draw is made, and the copy always moves.
    fn read(&mut self, source: usize) -> (r: Result<usize, IndexErr>)
        ensures
            final(self).graph() == old(self).graph(),
            final(self).threshold() == old(self).threshold(),
            !old(self).serves(source) ==> {
                &&& r == Err::<usize, IndexErr>(IndexErr::InvalidIndex)
                &&& final(self).location() == old(self).location()
            },
            old(self).serves(source) ==> {
                &&& (final(self).location() == source || final(self).location()
                    == old(self).location())
                &&& old(self).threshold() == 0 ==> final(self).location() == source
                &&& r matches Ok(cost) && cost == relocating_cost(
                    old(self).graph(),
                    old(self).threshold() as nat,
                    old(self).location() as nat,
                    source as nat,
                    final(self).location() as nat,
                )
            },
    {
        let relocate = self.toss();
        self.settle(source, relocate)
    }
}

} // verus!
