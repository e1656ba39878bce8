//! Power iteration for the dominant eigenvector of the weighted adjacency.
//!
//! The arithmetic is left to the caller through `Score`, so the engine's shape
//! (buffers, passes, the stop rule) is what is proved here.
use vstd::prelude::*;
use crate::graph::{CollabGraph, neighbour_seq};

verus! {

/// The arithmetic the engine needs from its score type. Each operation is a
/// function of its arguments alone, named by its spec counterpart.
pub trait Score: Sized {
    spec fn spec_one() -> Self;

    spec fn spec_zero() -> Self;

    spec fn spec_plus_weighted(self, s: Self, w: usize) -> Self;

    spec fn spec_plus_square(self, x: Self) -> Self;

    spec fn spec_root(self) -> Self;

    spec fn spec_is_zero(self) -> bool;

    spec fn spec_over(self, d: Self) -> Self;

    spec fn spec_distance(self, o: Self) -> Self;

    spec fn spec_below(self, o: Self) -> bool;

    /// The starting score of every node.
    fn one() -> (r: Self)
        ensures
            r == Self::spec_one(),
    ;

    /// The additive identity.
    fn zero() -> (r: Self)
        ensures
            r == Self::spec_zero(),
    ;

    /// `self + s * w`.
    fn plus_weighted(&self, s: &Self, w: usize) -> (r: Self)
        ensures
            r == self.spec_plus_weighted(*s, w),
    ;

    /// `self + x * x`.
    fn plus_square(&self, x: &Self) -> (r: Self)
        ensures
            r == self.spec_plus_square(*x),
    ;

    /// The square root of `self`.
    fn root(&self) -> (r: Self)
        ensures
            r == self.spec_root(),
    ;

    /// Whether `self` is exactly zero.
    fn is_zero(&self) -> (r: bool)
        ensures
            r == self.spec_is_zero(),
    ;

    /// `self / d`.
    fn over(&self, d: &Self) -> (r: Self)
        ensures
            r == self.spec_over(*d),
    ;

    /// `|self - o|`.
    fn distance(&self, o: &Self) -> (r: Self)
        ensures
            r == self.spec_distance(*o),
    ;

    /// Whether `self < o`.
    fn below(&self, o: &Self) -> (r: bool)
        ensures
            r == self.spec_below(*o),
    ;
}

/// Sum of `x[u] * w` over the (u, w) of `nb`, added left to right from zero.
pub open spec fn weighted_sum<S: Score>(nb: Seq<(usize, usize)>, x: Seq<S>) -> S
    decreases nb.len(),
{
    if nb.len() == 0 {
        S::spec_zero()
    } else {
        weighted_sum(nb.drop_last(), x).spec_plus_weighted(x[nb.last().0 as int], nb.last().1)
    }
}

/// Sum of squares of `y`, added left to right from zero.
pub open spec fn sum_squares<S: Score>(y: Seq<S>) -> S
    decreases y.len(),
{
    if y.len() == 0 {
        S::spec_zero()
    } else {
        sum_squares(y.drop_last()).spec_plus_square(y.last())
    }
}

/// One multiplication by the weighted adjacency, reading `x` only.
pub open spec fn raw_pass<S: Score>(es: Seq<(usize, usize, usize)>, n: nat, x: Seq<S>) -> Seq<S> {
    Seq::new(n, |v: int| weighted_sum(neighbour_seq(es, v as usize), x))
}

/// `y` divided by its Euclidean norm, or `y` itself when that norm is zero.
pub open spec fn normalized<S: Score>(y: Seq<S>) -> Seq<S> {
    let norm = sum_squares(y).spec_root();
    if norm.spec_is_zero() {
        y
    } else {
        Seq::new(y.len(), |v: int| y[v].spec_over(norm))
    }
}

/// One full pass: multiply, then normalize.
pub open spec fn pass<S: Score>(es: Seq<(usize, usize, usize)>, n: nat, x: Seq<S>) -> Seq<S> {
    normalized(raw_pass(es, n, x))
}

/// The scores after `i` passes from all ones.
pub open spec fn iterate<S: Score>(es: Seq<(usize, usize, usize)>, n: nat, i: nat) -> Seq<S>
    decreases i,
{
    if i == 0 {
        Seq::new(n, |v: int| S::spec_one())
    } else {
        pass(es, n, iterate(es, n, (i - 1) as nat))
    }
}

/// The largest `|y[v] - x[v]|` over `v < k`, kept as the first strict maximum.
pub open spec fn max_change_upto<S: Score>(y: Seq<S>, x: Seq<S>, k: nat) -> S
    decreases k,
{
    if k == 0 {
        S::spec_zero()
    } else {
        let m = max_change_upto(y, x, (k - 1) as nat);
        let d = y[k - 1].spec_distance(x[k - 1]);
        if m.spec_below(d) {
            d
        } else {
            m
        }
    }
}

/// Whether pass `i` (from 1) changed every score by less than `tolerance`.
pub open spec fn settles_at<S: Score>(
    es: Seq<(usize, usize, usize)>,
    n: nat,
    i: nat,
    tolerance: S,
) -> bool {
    max_change_upto(iterate::<S>(es, n, i), iterate::<S>(es, n, (i - 1) as nat), n).spec_below(
        tolerance,
    )
}

/// The stop rule: run passes until one converges or the budget is spent.
pub struct Schedule {
    pub max_iter: usize,
    pub passes: usize,
    pub converged: bool,
}

impl Schedule {
    pub open spec fn finished(&self) -> bool {
        self.converged || self.passes >= self.max_iter
    }

    /// No pass run yet.
    pub fn start(max_iter: usize) -> (r: Schedule)
        ensures
            r.max_iter == max_iter,
            r.passes == 0,
            !r.converged,
    {
        Schedule { max_iter, passes: 0, converged: false }
    }

    /// Whether another pass is due.
    pub fn running(&self) -> (r: bool)
        ensures
            r == !self.finished(),
    {
        !self.converged && self.passes < self.max_iter
    }

    /// Records a pass and whether its change fell under the tolerance.
    pub fn record_pass(&mut self, converged: bool)
        requires
            !old(self).finished(),
        ensures
            final(self).max_iter == old(self).max_iter,
            final(self).passes == old(self).passes + 1,
            final(self).converged == converged,
            final(self).passes <= final(self).max_iter,
    {
        self.passes = self.passes + 1;
        self.converged = converged;
    }
}

/// A pass whose change fell under the tolerance is the last one: once it is
/// recorded no further pass is due, whatever budget is left.
pub proof fn lemma_converged_pass_is_last(s: Schedule, t: Schedule)
    requires
        !s.finished(),
        t.max_iter == s.max_iter,
        t.passes == s.passes + 1,
        t.converged,
    ensures
        t.finished(),
        t.passes == s.passes + 1,
{
}

/// Final scores with the number of passes run and whether the last converged.
pub struct Centrality<S> {
    pub scores: Vec<S>,
    pub passes: usize,
    pub converged: bool,
}

proof fn lemma_neighbours_in_range(es: Seq<(usize, usize, usize)>, v: usize, n: nat, k: int)
    requires
        forall|i: int| 0 <= i < es.len() ==> (#[trigger] es[i]).0 < n && es[i].1 < n,
        0 <= k < neighbour_seq(es, v).len(),
    ensures
        neighbour_seq(es, v)[k].0 < n,
    decreases es.len(),
{
    if es.len() > 0 {
        let d = es.drop_last();
        assert forall|i: int| 0 <= i < d.len() implies (#[trigger] d[i]).0 < n && d[i].1 < n by {
            assert(d[i] == es[i]);
        }
        if k < neighbour_seq(d, v).len() {
            lemma_neighbours_in_range(d, v, n, k);
        }
    }
}

/// Power iteration from all-ones scores: each pass sums neighbours' previous
/// scores times edge weights into a fresh buffer, divides by the Euclidean norm
/// unless that norm is zero, and stops once the largest change of any score
/// is below `tolerance` or `max_iter` passes have run. The result is the
/// iterate after the first pass that settles, or after `max_iter` passes.
pub fn centrality<S: Score>(g: &CollabGraph, max_iter: usize, tolerance: &S) -> (r: Centrality<S>)
    requires
        g.wf(),
    ensures
        r.scores@.len() == g.labels().len(),
        r.scores@ == iterate::<S>(g.edges(), g.labels().len(), r.passes as nat),
        r.passes <= max_iter,
        r.converged == (r.passes >= 1 && settles_at(g.edges(), g.labels().len(), r.passes as nat, *tolerance)),
        forall|i: nat| 1 <= i < r.passes ==> !#[trigger] settles_at(g.edges(), g.labels().len(), i, *tolerance),
        !r.converged ==> r.passes == max_iter,
{
    let n = g.node_count();
    let ghost es = g.edges();
    let ghost nn = n as nat;
    let adj = g.adjacency();
    let mut scores: Vec<S> = Vec::new();
    let mut v: usize = 0;
    while v < n
        invariant
            v <= n,
            scores@ == Seq::new(v as nat, |u: int| S::spec_one()),
        decreases n - v,
    {
        scores.push(S::one());
        v = v + 1;
        assert(scores@ =~= Seq::new(v as nat, |u: int| S::spec_one()));
    }
    let mut sched = Schedule::start(max_iter);
    while sched.running()
        invariant
            g.wf(),
            es == g.edges(),
            n == g.labels().len(),
            nn == n,
            adj@.len() == n,
            forall|u: int| 0 <= u < n ==> (#[trigger] adj@[u])@ == neighbour_seq(es, u as usize),
            scores@ == iterate::<S>(es, nn, sched.passes as nat),
            sched.max_iter == max_iter,
            sched.passes <= max_iter,
            sched.converged == (sched.passes >= 1 && settles_at(es, nn, sched.passes as nat, *tolerance)),
            forall|i: nat| 1 <= i < sched.passes ==> !#[trigger] settles_at(es, nn, i, *tolerance),
        decreases max_iter - sched.passes,
    {
        let ghost prev = scores@;
        let mut next: Vec<S> = Vec::new();
        let mut norm_sq = S::zero();
        let mut v: usize = 0;
        while v < n
            invariant
                g.wf(),
                es == g.edges(),
                n == g.labels().len(),
                nn == n,
                adj@.len() == n,
                forall|u: int| 0 <= u < n ==> (#[trigger] adj@[u])@ == neighbour_seq(es, u as usize),
                scores@ == prev,
                prev.len() == n,
                v <= n,
                next@.len() == v,
                forall|u: int| 0 <= u < v ==> #[trigger] next@[u] == weighted_sum(neighbour_seq(es, u as usize), prev),
                norm_sq == sum_squares(next@),
            decreases n - v,
        {
            let nb = &adj[v];
            let mut sum = S::zero();
            let mut k: usize = 0;
            assert(nb@.take(0) =~= Seq::<(usize, usize)>::empty());
            while k < nb.len()
                invariant
                    g.wf(),
                    es == g.edges(),
                    n == g.labels().len(),
                    scores@ == prev,
                    prev.len() == n,
                    v < n,
                    nb@ == neighbour_seq(es, v),
                    k <= nb@.len(),
                    sum == weighted_sum(nb@.take(k as int), prev),
                decreases nb@.len() - k,
            {
                let (u, w) = nb[k];
                proof {
                    lemma_neighbours_in_range(es, v, n as nat, k as int);
                    assert(nb@.take(k + 1).drop_last() =~= nb@.take(k as int));
                }
                sum = sum.plus_weighted(&scores[u], w);
                k = k + 1;
            }
            assert(nb@.take(nb@.len() as int) =~= nb@);
            norm_sq = norm_sq.plus_square(&sum);
            let ghost before = next@;
            next.push(sum);
            assert(next@.drop_last() =~= before);
            v = v + 1;
        }
        assert(next@ =~= raw_pass(es, nn, prev));
        let norm = norm_sq.root();
        if !norm.is_zero() {
            let mut scaled: Vec<S> = Vec::new();
            let mut v: usize = 0;
            while v < n
                invariant
                    next@.len() == n,
                    v <= n,
                    scaled@.len() == v,
                    forall|u: int| 0 <= u < v ==> #[trigger] scaled@[u] == next@[u].spec_over(norm),
                decreases n - v,
            {
                scaled.push(next[v].over(&norm));
                v = v + 1;
            }
            assert(scaled@ =~= normalized(raw_pass(es, nn, prev)));
            next = scaled;
        }
        assert(next@ == iterate::<S>(es, nn, (sched.passes + 1) as nat));
        let mut max_diff = S::zero();
        let mut v: usize = 0;
        while v < n
            invariant
                next@.len() == n,
                scores@.len() == n,
                v <= n,
                max_diff == max_change_upto(next@, scores@, v as nat),
            decreases n - v,
        {
            let d = next[v].distance(&scores[v]);
            if max_diff.below(&d) {
                max_diff = d;
            }
            v = v + 1;
        }
        scores = next;
        let settled = max_diff.below(tolerance);
        let ghost p0 = sched.passes;
        sched.record_pass(settled);
        proof {
            assert(settled == settles_at(es, nn, sched.passes as nat, *tolerance));
            assert forall|i: nat| 1 <= i < sched.passes implies !#[trigger] settles_at(es, nn, i, *tolerance) by {
                if i < p0 {
                } else {
                    assert(i == p0);
                }
            }
        }
    }
    Centrality { scores, passes: sched.passes, converged: sched.converged }
}

} // verus!
