//! Node topologies with an integer metric.

use vstd::prelude::*;
use vstd::arithmetic::power::{pow, lemma0_pow, lemma_pow_increases};

verus! {

/// The only failure of the topology and of the engines built on it.
#[derive(Debug, Clone, Copy, PartialEq, Eq, Structural)]
pub enum IndexErr {
    /// A node address outside `[0, size)` was supplied.
    InvalidIndex,
}

/// Distance between places `a` and `b` on a cycle of `len` places: the
/// shorter of the two ways round.
pub open spec fn ring_distance(a: nat, b: nat, len: nat) -> nat {
    let k = if a >= b { a - b } else { b - a };
    if k <= len - k { k as nat } else { (len - k) as nat }
}

/// Distance on a torus of `dims` axes of `len` places each. A node index is
/// read as `dims` digits in base `len`; the distance is the sum of the ring
/// distances of corresponding digits.
pub open spec fn torus_distance(x: nat, y: nat, len: nat, dims: nat) -> nat
    decreases dims,
{
    if dims == 0 {
        0
    } else {
        torus_distance(x / len, y / len, len, (dims - 1) as nat)
            + ring_distance(x % len, y % len, len)
    }
}

/// Number of the lowest `dims` binary digits in which `x` and `y` differ.
pub open spec fn hamming_distance(x: nat, y: nat, dims: nat) -> nat
    decreases dims,
{
    if dims == 0 {
        0
    } else {
        hamming_distance(x / 2, y / 2, (dims - 1) as nat) + if x % 2 != y % 2 { 1nat } else { 0nat }
    }
}

/// The torus distance is symmetric.
pub proof fn lemma_torus_symmetric(x: nat, y: nat, len: nat, dims: nat)
    requires
        len > 0,
    ensures
        torus_distance(x, y, len, dims) == torus_distance(y, x, len, dims),
    decreases dims,
{
    if dims > 0 {
        lemma_torus_symmetric(x / len, y / len, len, (dims - 1) as nat);
    }
}

/// A node is at distance zero from itself.
pub proof fn lemma_torus_identity(x: nat, len: nat, dims: nat)
    requires
        len > 0,
    ensures
        torus_distance(x, x, len, dims) == 0,
    decreases dims,
{
    if dims > 0 {
        lemma_torus_identity(x / len, len, (dims - 1) as nat);
    }
}

/// Distinct nodes of the torus are at a positive distance.
pub proof fn lemma_torus_separates(x: nat, y: nat, len: nat, dims: nat)
    requires
        x < pow(len as int, dims),
        y < pow(len as int, dims),
        torus_distance(x, y, len, dims) == 0,
    ensures
        x == y,
    decreases dims,
{
    if dims == 0 {
        assert(pow(len as int, 0) == 1) by { reveal(pow); }
    } else {
        if len == 0 {
            lemma0_pow(dims);
        }
        lemma_quotient_in_range(x, len, dims);
        lemma_quotient_in_range(y, len, dims);
        lemma_torus_separates(x / len, y / len, len, (dims - 1) as nat);
        assert(x == len * (x / len) + x % len) by (nonlinear_arith)
            requires
                len > 0,
        ;
        assert(y == len * (y / len) + y % len) by (nonlinear_arith)
            requires
                len > 0,
        ;
        assert(x % len < len && y % len < len) by (nonlinear_arith)
            requires
                len > 0,
        ;
    }
}

/// Dropping the lowest digit of a valid index leaves a valid index of a
/// torus with one axis less.
pub proof fn lemma_quotient_in_range(x: nat, len: nat, dims: nat)
    requires
        dims > 0,
        len > 0,
        x < pow(len as int, dims),
    ensures
        x / len < pow(len as int, (dims - 1) as nat),
{
    let p = pow(len as int, (dims - 1) as nat);
    assert(pow(len as int, dims) == len * p) by { reveal(pow); }
    assert(x / len < p) by (nonlinear_arith)
        requires
            len > 0,
            x < len * p,
    ;
}

/// The torus distance obeys the triangle inequality.
pub proof fn lemma_torus_triangle(x: nat, y: nat, z: nat, len: nat, dims: nat)
    requires
        len > 0,
    ensures
        torus_distance(x, y, len, dims) <= torus_distance(x, z, len, dims) + torus_distance(
            z,
            y,
            len,
            dims,
        ),
    decreases dims,
{
    if dims > 0 {
        lemma_torus_triangle(x / len, y / len, z / len, len, (dims - 1) as nat);
        assert(x % len < len && y % len < len && z % len < len) by (nonlinear_arith)
            requires
                len > 0,
        ;
    }
}

/// No two nodes are further apart than half the side length on every axis.
pub proof fn lemma_torus_bounded(x: nat, y: nat, len: nat, dims: nat)
    requires
        len > 0,
    ensures
        torus_distance(x, y, len, dims) <= dims * (len / 2),
    decreases dims,
{
    if dims > 0 {
        lemma_torus_bounded(x / len, y / len, len, (dims - 1) as nat);
        assert(x % len < len && y % len < len) by (nonlinear_arith)
            requires
                len > 0,
        ;
        let h = len / 2;
        assert((dims - 1) * h + h == dims * h) by (nonlinear_arith);
    }
}

/// With side length 2 the torus is a hypercube: its distance is the Hamming
/// distance of the two indices read as `dims` binary digits.
pub proof fn lemma_hypercube_is_hamming(x: nat, y: nat, dims: nat)
    ensures
        torus_distance(x, y, 2, dims) == hamming_distance(x, y, dims),
    decreases dims,
{
    if dims > 0 {
        lemma_hypercube_is_hamming(x / 2, y / 2, (dims - 1) as nat);
    }
}

/// With a single axis the torus is a ring: its distance is the absolute
/// difference of the two indices, taken the shorter way round.
pub proof fn lemma_one_axis_is_ring(x: nat, y: nat, len: nat)
    requires
        x < len,
        y < len,
    ensures
        torus_distance(x, y, len, 1) == ring_distance(x, y, len),
        torus_distance(x, y, len, 1) == if x >= y {
            if x - y <= len - (x - y) { x - y } else { len - (x - y) }
        } else {
            if y - x <= len - (y - x) { y - x } else { len - (y - x) }
        },
{
    reveal_with_fuel(torus_distance, 2);
    assert(x % len == x && y % len == y) by (nonlinear_arith)
        requires
            x < len,
            y < len,
    ;
}

/// One digit's ring distance plus the larger of the two quotients is no
/// more than the larger of the two numbers.
proof fn lemma_digit_step(a: nat, b: nat, len: nat)
    requires
        len > 0,
    ensures
        ring_distance(a % len, b % len, len) + (if a / len >= b / len { a / len } else { b / len })
            <= (if a >= b { a } else { b }),
{
    assert(a == len * (a / len) + a % len && a % len < len) by (nonlinear_arith)
        requires
            len > 0,
    ;
    assert(b == len * (b / len) + b % len && b % len < len) by (nonlinear_arith)
        requires
            len > 0,
    ;
    let (qa, ra, qb, rb) = (a / len, a % len, b / len, b % len);
    assert(qa > qb ==> len * qa >= len * qb + len) by (nonlinear_arith)
        requires
            len > 0,
    ;
    assert(qb > qa ==> len * qb >= len * qa + len) by (nonlinear_arith)
        requires
            len > 0,
    ;
    assert(len * qa >= qa && len * qb >= qb) by (nonlinear_arith)
        requires
            len > 0,
    ;
    assert(qa >= 1 ==> len * qa >= qa + len - 1) by (nonlinear_arith)
        requires
            len > 0,
    ;
    assert(qb >= 1 ==> len * qb >= qb + len - 1) by (nonlinear_arith)
        requires
            len > 0,
    ;
}

/// The `count` lowest digits of `n` in base `base`, most significant first.
pub open spec fn digits(n: nat, base: nat, count: nat) -> Seq<nat>
    decreases count,
{
    if count == 0 {
        Seq::empty()
    } else {
        digits(n / base, base, (count - 1) as nat).push(n % base)
    }
}

/// Sum of the ring distances of corresponding coordinates.
pub open spec fn axis_sum(a: Seq<nat>, b: Seq<nat>, len: nat) -> nat
    decreases a.len(),
{
    if a.len() == 0 {
        0
    } else {
        axis_sum(a.drop_last(), b.drop_last(), len) + ring_distance(a.last(), b.last(), len)
    }
}

/// There are `count` digits, each below the base.
pub proof fn lemma_digits_shape(n: nat, base: nat, count: nat)
    requires
        base > 0,
    ensures
        digits(n, base, count).len() == count,
        forall|i: int| 0 <= i < count ==> #[trigger] digits(n, base, count)[i] < base,
    decreases count,
{
    if count > 0 {
        lemma_digits_shape(n / base, base, (count - 1) as nat);
        assert(n % base < base) by (nonlinear_arith)
            requires
                base > 0,
        ;
    }
}

/// The torus distance is the sum of the ring distances of the coordinates
/// that the two indices encode.
pub proof fn lemma_distance_by_digits(x: nat, y: nat, len: nat, dims: nat)
    requires
        len > 0,
    ensures
        torus_distance(x, y, len, dims) == axis_sum(
            digits(x, len, dims),
            digits(y, len, dims),
            len,
        ),
    decreases dims,
{
    lemma_digits_shape(x, len, dims);
    lemma_digits_shape(y, len, dims);
    if dims > 0 {
        lemma_distance_by_digits(x / len, y / len, len, (dims - 1) as nat);
        let below = (dims - 1) as nat;
        assert(digits(x, len, dims).drop_last() =~= digits(x / len, len, below));
        assert(digits(y, len, dims).drop_last() =~= digits(y / len, len, below));
    }
}

/// The sum over the first `i` coordinates is no more than the whole sum.
proof fn lemma_axis_sum_prefix(a: Seq<nat>, b: Seq<nat>, len: nat, i: int)
    requires
        a.len() == b.len(),
        0 <= i <= a.len(),
    ensures
        axis_sum(a.take(i), b.take(i), len) <= axis_sum(a, b, len),
    decreases a.len() - i,
{
    if i < a.len() {
        lemma_axis_sum_prefix(a, b, len, i + 1);
        assert(a.take(i + 1).drop_last() =~= a.take(i));
        assert(b.take(i + 1).drop_last() =~= b.take(i));
    } else {
        assert(a.take(i) =~= a);
        assert(b.take(i) =~= b);
    }
}

/// The `count` lowest digits of `n` in base `base`, most significant first.
/// A base of zero has no digits to give.
pub fn digits_in_base(n: usize, base: usize, count: u8) -> (out: Vec<usize>)
    requires
        base > 0 || count == 0,
    ensures
        out@.len() == count,
        forall|i: int| 0 <= i < count ==> #[trigger] out@[i] == digits(
            n as nat,
            base as nat,
            count as nat,
        )[i],
{
    let mut out: Vec<usize> = vec![0usize; count as usize];
    let mut rest = n;
    let mut done: u8 = 0;
    let ghost all = digits(n as nat, base as nat, count as nat);
    proof {
        if count > 0 {
            lemma_digits_shape(n as nat, base as nat, count as nat);
        }
        assert(all.take(count as int) =~= all);
    }
    while done < count
        invariant
            done <= count,
            base > 0 || count == 0,
            out@.len() == count,
            all == digits(n as nat, base as nat, count as nat),
            all.len() == count,
            all.take(count - done) == digits(rest as nat, base as nat, (count - done) as nat),
            forall|i: int| count - done <= i < count ==> #[trigger] out@[i] == all[i],
        decreases count - done,
    {
        let ghost left = (count - done) as nat;
        proof {
            let head = digits(rest as nat, base as nat, left);
            lemma_digits_shape(rest as nat, base as nat, left);
            lemma_digits_shape(rest as nat / base as nat, base as nat, (left - 1) as nat);
            assert(head.last() == rest as nat % base as nat);
            assert(all[left - 1] == all.take(left as int)[left - 1]);
            assert(all.take(left - 1) =~= head.drop_last());
            assert(head.drop_last() =~= digits(
                rest as nat / base as nat,
                base as nat,
                (left - 1) as nat,
            ));
        }
        out.set((count - done - 1) as usize, rest % base);
        rest = rest / base;
        done = done + 1;
    }
    out
}

/// A bounded node space with an integer metric on it.
pub trait MetricGraph {
    /// The invariant of the implementing type.
    spec fn wf(&self) -> bool;

    /// Number of nodes; the valid addresses are `[0, node_count())`.
    spec fn node_count(&self) -> nat;

    /// Distance between two valid addresses.
    spec fn metric(&self, x: nat, y: nat) -> nat;

    /// An upper bound on the distance between any two nodes.
    spec fn diameter(&self) -> nat;

    /// The distance is a metric, and bounded by the diameter.
    proof fn lemma_metric(&self, x: nat, y: nat, z: nat)
        requires
            self.wf(),
            x < self.node_count(),
            y < self.node_count(),
            z < self.node_count(),
        ensures
            self.metric(x, x) == 0,
            self.metric(x, y) == self.metric(y, x),
            self.metric(x, y) <= self.metric(x, z) + self.metric(z, y),
            self.metric(x, y) <= self.diameter(),
            self.metric(x, y) <= usize::MAX,
    ;

    /// Distance between `x` and `y`, or `InvalidIndex` when either is not
    /// an address of the graph.
    fn distance(&self, x: usize, y: usize) -> (r: Result<usize, IndexErr>)
        requires
            self.wf(),
        ensures
            x < self.node_count() && y < self.node_count() ==> (r matches Ok(way) && way
                == self.metric(x as nat, y as nat)),
            !(x < self.node_count() && y < self.node_count()) ==> r == Err::<usize, IndexErr>(
                IndexErr::InvalidIndex,
            ),
    ;

    /// Number of nodes.
    fn size(&self) -> (r: usize)
        requires
            self.wf(),
        ensures
            r == self.node_count(),
    ;
}

/// A torus of `D` axes with `length` places on each; with `length == 2` a
/// `D`-dimensional hypercube.
pub struct Torus<const D: u8> {
    length: usize,
    size: usize,
}

impl<const D: u8> Torus<D> {
    /// Side length of the torus.
    pub closed spec fn side(&self) -> nat {
        self.length as nat
    }

    /// A torus of `D` axes of `length` places. Its `length^D` nodes must be
    /// countable in a `usize`.
    pub fn new(length: usize) -> (t: Self)
        requires
            pow(length as int, D as nat) <= usize::MAX,
        ensures
            t.wf(),
            t.side() == length,
            t.node_count() == pow(length as int, D as nat),
    {
        let mut size: usize = 1;
        let mut i: u8 = 0;
        proof {
            reveal(pow);
        }
        while i < D
            invariant
                i <= D,
                size == pow(length as int, i as nat),
                pow(length as int, D as nat) <= usize::MAX,
            decreases D - i,
        {
            proof {
                reveal(pow);
                assert(pow(length as int, (i + 1) as nat) == length * pow(length as int, i as nat));
                if length > 0 {
                    lemma_pow_increases(length as nat, (i + 1) as nat, D as nat);
                } else {
                    lemma0_pow((i + 1) as nat);
                }
                assert(size * length == length * size) by (nonlinear_arith);
            }
            size = size * length;
            i = i + 1;
        }
        Torus { length, size }
    }

    /// Side length of the torus.
    pub fn length(&self) -> (r: usize)
        ensures
            r == self.side(),
    {
        self.length
    }
}

impl<const D: u8> MetricGraph for Torus<D> {
    closed spec fn wf(&self) -> bool {
        self.size == pow(self.length as int, D as nat)
    }

    closed spec fn node_count(&self) -> nat {
        self.size as nat
    }

    open spec fn metric(&self, x: nat, y: nat) -> nat {
        torus_distance(x, y, self.side(), D as nat)
    }

    open spec fn diameter(&self) -> nat {
        D as nat * (self.side() / 2)
    }

    proof fn lemma_metric(&self, x: nat, y: nat, z: nat) {
        let len = self.length as nat;
        if D > 0 && len == 0 {
            lemma0_pow(D as nat);
        }
        if D > 0 {
            lemma_torus_identity(x, len, D as nat);
            lemma_torus_symmetric(x, y, len, D as nat);
            lemma_torus_triangle(x, y, z, len, D as nat);
            lemma_torus_bounded(x, y, len, D as nat);
            lemma_torus_below_larger(x, y, len, D as nat);
        } else {
            assert(D as nat * (len / 2) == 0) by (nonlinear_arith)
                requires
                    D == 0,
            ;
        }
    }

    fn distance(&self, x: usize, y: usize) -> (r: Result<usize, IndexErr>) {
        if x >= self.size || y >= self.size {
            return Err(IndexErr::InvalidIndex);
        }
        let len = self.length;
        let ghost xd = digits(x as nat, len as nat, D as nat);
        let ghost yd = digits(y as nat, len as nat, D as nat);
        proof {
            if D > 0 {
                if len == 0 {
                    lemma0_pow(D as nat);
                }
                lemma_digits_shape(x as nat, len as nat, D as nat);
                lemma_digits_shape(y as nat, len as nat, D as nat);
                lemma_distance_by_digits(x as nat, y as nat, len as nat, D as nat);
                lemma_torus_below_larger(x as nat, y as nat, len as nat, D as nat);
            }
        }
        let x_coords = digits_in_base(x, len, D);
        let y_coords = digits_in_base(y, len, D);
        let mut total: usize = 0;
        let mut i: usize = 0;
        while i < x_coords.len()
            invariant
                i <= D,
                D > 0 ==> len > 0,
                x_coords@.len() == D,
                y_coords@.len() == D,
                xd.len() == x_coords@.len(),
                yd.len() == y_coords@.len(),
                forall|k: int| 0 <= k < D ==> #[trigger] x_coords@[k] == xd[k] && xd[k] < len,
                forall|k: int| 0 <= k < D ==> #[trigger] y_coords@[k] == yd[k] && yd[k] < len,
                total == axis_sum(xd.take(i as int), yd.take(i as int), len as nat),
                axis_sum(xd, yd, len as nat) <= usize::MAX,
            decreases D - i,
        {
            proof {
                lemma_axis_sum_prefix(xd, yd, len as nat, i + 1);
                assert(xd.take(i + 1).drop_last() =~= xd.take(i as int));
                assert(yd.take(i + 1).drop_last() =~= yd.take(i as int));
            }
            let a = x_coords[i];
            let b = y_coords[i];
            let k = if a >= b { a - b } else { b - a };
            let step = if k <= len - k { k } else { len - k };
            total = total + step;
            i = i + 1;
        }
        proof {
            assert(xd.take(i as int) =~= xd);
            assert(yd.take(i as int) =~= yd);
        }
        Ok(total)
    }

    fn size(&self) -> (r: usize) {
        self.size
    }
}

/// The torus distance never exceeds the larger of the two indices.
pub proof fn lemma_torus_below_larger(x: nat, y: nat, len: nat, dims: nat)
    requires
        len > 0,
    ensures
        torus_distance(x, y, len, dims) <= (if x >= y { x } else { y }),
    decreases dims,
{
    if dims > 0 {
        lemma_torus_below_larger(x / len, y / len, len, (dims - 1) as nat);
        lemma_digit_step(x, y, len);
    }
}

} // verus!
