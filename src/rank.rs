//! Ranking nodes by score, highest first, ties broken by label.
use vstd::prelude::*;
use crate::graph::CollabGraph;
use crate::label::{label_lt, label_less, lemma_label_lt_total, lemma_label_lt_transitive};

verus! {

pub const SIGN_BIT: u64 = 0x8000_0000_0000_0000;

/// An unsigned key that orders IEEE-754 binary64 bit patterns as their values
/// are ordered (negative values below positive ones, larger magnitudes further
/// out), so that scores can be ranked by integer comparison.
pub fn order_key(bits: u64) -> (r: u64)
    ensures
        bits >= SIGN_BIT ==> r == u64::MAX - bits,
        bits < SIGN_BIT ==> r == bits + SIGN_BIT,
{
    if bits >= SIGN_BIT {
        u64::MAX - bits
    } else {
        bits + SIGN_BIT
    }
}

/// Node `u` ranks before node `v`: a higher key, or an equal key and a label
/// that precedes.
pub open spec fn outranks(keys: Seq<u64>, labels: Seq<Seq<char>>, u: int, v: int) -> bool {
    keys[u] > keys[v] || (keys[u] == keys[v] && label_lt(labels[u], labels[v]))
}

proof fn lemma_outranks_transitive(keys: Seq<u64>, labels: Seq<Seq<char>>, u: int, v: int, w: int)
    requires
        outranks(keys, labels, u, v),
        outranks(keys, labels, v, w),
    ensures
        outranks(keys, labels, u, w),
{
    if keys[u] == keys[v] && keys[v] == keys[w] {
        lemma_label_lt_transitive(labels[u], labels[v], labels[w]);
    }
}

fn beats(g: &CollabGraph, keys: &Vec<u64>, u: usize, v: usize) -> (r: bool)
    requires
        u < g.labels().len(),
        v < g.labels().len(),
        keys@.len() == g.labels().len(),
    ensures
        r == outranks(keys@, g.labels(), u as int, v as int),
{
    keys[u] > keys[v] || (keys[u] == keys[v] && label_less(g.label(u), g.label(v)))
}

/// The first `k` nodes of the ranking by key, highest first, ties broken by
/// label; all nodes if there are fewer than `k`.
pub fn top_k(g: &CollabGraph, keys: &Vec<u64>, k: usize) -> (r: Vec<usize>)
    requires
        g.wf(),
        keys@.len() == g.labels().len(),
    ensures
        r@.len() == if k < keys@.len() {
            k as int
        } else {
            keys@.len() as int
        },
        forall|i: int| 0 <= i < r@.len() ==> #[trigger] r@[i] < keys@.len(),
        forall|i: int, j: int|
            0 <= i < j < r@.len() ==> outranks(keys@, g.labels(), #[trigger] r@[i] as int, #[trigger] r@[j] as int),
        forall|v: int, i: int|
            0 <= v < keys@.len() && !r@.contains(v as usize) && 0 <= i < r@.len()
                ==> #[trigger] outranks(keys@, g.labels(), r@[i] as int, v),
{
    let n = g.node_count();
    let m = if k < n {
        k
    } else {
        n
    };
    let ghost labels = g.labels();
    let mut chosen: Vec<bool> = Vec::new();
    let mut v: usize = 0;
    while v < n
        invariant
            v <= n,
            chosen@.len() == v,
            forall|w: int| 0 <= w < v ==> !chosen@[w],
        decreases n - v,
    {
        chosen.push(false);
        v = v + 1;
    }
    let mut r: Vec<usize> = Vec::new();
    while r.len() < m
        invariant
            g.wf(),
            labels == g.labels(),
            n == labels.len(),
            keys@.len() == n,
            m <= n,
            r@.len() <= m,
            chosen@.len() == n,
            forall|w: int| 0 <= w < n ==> (#[trigger] chosen@[w] <==> r@.contains(w as usize)),
            forall|i: int| 0 <= i < r@.len() ==> #[trigger] r@[i] < n,
            forall|i: int, j: int|
                0 <= i < j < r@.len() ==> outranks(keys@, labels, #[trigger] r@[i] as int, #[trigger] r@[j] as int),
            forall|w: int, i: int|
                0 <= w < n && !chosen@[w] && 0 <= i < r@.len()
                    ==> #[trigger] outranks(keys@, labels, r@[i] as int, w),
        decreases m - r@.len(),
    {
        let mut best: usize = 0;
        while chosen[best]
            invariant
                chosen@.len() == n,
                r@.len() < n,
                best < n,
                forall|w: int| 0 <= w < best ==> #[trigger] chosen@[w],
                forall|w: int| 0 <= w < n ==> (#[trigger] chosen@[w] <==> r@.contains(w as usize)),
                forall|i: int| 0 <= i < r@.len() ==> #[trigger] r@[i] < n,
            decreases n - best,
        {
            best = best + 1;
            if best == n {
                proof {
                    assert forall|w: int| 0 <= w < n implies #[trigger] r@.contains(w as usize) by {
                        assert(chosen@[w]);
                    }
                    lemma_all_chosen(r@, n as int);
                }
            }
        }
        let mut v: usize = best + 1;
        while v < n
            invariant
                g.wf(),
                labels == g.labels(),
                n == labels.len(),
                keys@.len() == n,
                chosen@.len() == n,
                best < v <= n,
                !chosen@[best as int],
                forall|w: int|
                    0 <= w < v && !chosen@[w] && w != best ==> outranks(keys@, labels, best as int, w),
            decreases n - v,
        {
            if !chosen[v] && beats(g, keys, v, best) {
                proof {
                    assert forall|w: int|
                        0 <= w < v + 1 && !chosen@[w] && w != v implies outranks(keys@, labels, v as int, w) by {
                        if w != best {
                            lemma_outranks_transitive(keys@, labels, v as int, best as int, w);
                        }
                    }
                }
                best = v;
            } else {
                proof {
                    if !chosen@[v as int] {
                        lemma_label_lt_total(labels[v as int], labels[best as int]);
                        if v < best {
                            assert(labels[v as int] != labels[best as int]);
                        } else {
                            assert(labels[best as int] != labels[v as int]);
                        }
                    }
                }
            }
            v = v + 1;
        }
        let ghost r0 = r@;
        let ghost c0 = chosen@;
        r.push(best);
        chosen.set(best, true);
        proof {
            assert forall|w: int| 0 <= w < n implies (#[trigger] chosen@[w] <==> r@.contains(w as usize)) by {
                if w == best {
                    assert(r@[r0.len() as int] == best);
                } else {
                    assert(c0[w] == chosen@[w]);
                    if r0.contains(w as usize) {
                        let i = choose|i: int| 0 <= i < r0.len() && r0[i] == w as usize;
                        assert(r@[i] == w as usize);
                    }
                    if r@.contains(w as usize) {
                        let i = choose|i: int| 0 <= i < r@.len() && r@[i] == w as usize;
                        assert(r0[i] == w as usize);
                    }
                }
            }
            assert forall|i: int, j: int|
                0 <= i < j < r@.len() implies outranks(keys@, labels, #[trigger] r@[i] as int, #[trigger] r@[j] as int) by {
                assert(r@[i] == r0[i]);
                if j < r0.len() {
                    assert(r@[j] == r0[j]);
                }
            }
            assert forall|w: int, i: int|
                0 <= w < n && !chosen@[w] && 0 <= i < r@.len() implies #[trigger] outranks(keys@, labels, r@[i] as int, w) by {
                assert(c0[w] == chosen@[w]);
                if i < r0.len() {
                    assert(r@[i] == r0[i]);
                }
            }
        }
    }
    proof {
        assert forall|v: int, i: int|
            0 <= v < keys@.len() && !r@.contains(v as usize) && 0 <= i < r@.len()
                implies #[trigger] outranks(keys@, g.labels(), r@[i] as int, v) by {
            assert(!chosen@[v]);
        }
    }
    r
}

/// A sequence holding every index below `n` has at least `n` slots.
proof fn lemma_all_chosen(r: Seq<usize>, n: int)
    requires
        0 <= n <= usize::MAX,
        forall|w: int| 0 <= w < n ==> #[trigger] r.contains(w as usize),
    ensures
        r.len() >= n,
{
    let s = Set::new(|w: int| 0 <= w < n);
    let t = r.to_set().map(|x: usize| x as int);
    assert(s.subset_of(t)) by {
        assert forall|w: int| s.contains(w) implies t.contains(w) by {
            assert(r.contains(w as usize));
            assert(r.to_set().contains(w as usize) && (w as usize) as int == w);
        }
    }
    r.lemma_cardinality_of_set();
    assert(r.to_set().finite()) by {
        broadcast use vstd::seq_lib::seq_to_set_is_finite;
    }
    vstd::set_lib::lemma_int_range(0, n);
    assert(s =~= vstd::set_lib::set_int_range(0, n));
    vstd::set_lib::lemma_map_size_bound(r.to_set(), t, |x: usize| x as int);
    vstd::set_lib::lemma_len_subset(s, t);
}

} // verus!
