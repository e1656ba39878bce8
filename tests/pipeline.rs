use collab_graph::centrality::{centrality, Centrality, Schedule, Score};
use collab_graph::graph::CollabGraph;
use collab_graph::label::label_less;
use collab_graph::pairs::{aggregate, distinct_labels, PairCounts, Record};
use collab_graph::rank::{order_key, top_k};

#[derive(Debug, Clone, Copy, PartialEq)]
struct F(f64);

impl Score for F {
    fn spec_one() -> Self {
        F(1.0)
    }
    fn spec_zero() -> Self {
        F(0.0)
    }
    fn spec_plus_weighted(self, s: Self, w: usize) -> Self {
        F(self.0 + s.0 * w as f64)
    }
    fn spec_plus_square(self, x: Self) -> Self {
        F(self.0 + x.0.powi(2))
    }
    fn spec_root(self) -> Self {
        F(self.0.sqrt())
    }
    fn spec_is_zero(self) -> bool {
        self.0 == 0.0
    }
    fn spec_over(self, d: Self) -> Self {
        F(self.0 / d.0)
    }
    fn spec_distance(self, o: Self) -> Self {
        F((self.0 - o.0).abs())
    }
    fn spec_below(self, o: Self) -> bool {
        self.0 < o.0
    }
    fn one() -> Self {
        Self::spec_one()
    }
    fn zero() -> Self {
        Self::spec_zero()
    }
    fn plus_weighted(&self, s: &Self, w: usize) -> Self {
        self.spec_plus_weighted(*s, w)
    }
    fn plus_square(&self, x: &Self) -> Self {
        self.spec_plus_square(*x)
    }
    fn root(&self) -> Self {
        self.spec_root()
    }
    fn is_zero(&self) -> bool {
        self.spec_is_zero()
    }
    fn over(&self, d: &Self) -> Self {
        self.spec_over(*d)
    }
    fn distance(&self, o: &Self) -> Self {
        self.spec_distance(*o)
    }
    fn below(&self, o: &Self) -> bool {
        self.spec_below(*o)
    }
}

fn s(x: &str) -> String {
    x.to_string()
}

fn rec(p: &str, q: &str, others: &[Option<&str>]) -> Record {
    Record {
        primary: s(p),
        secondary: s(q),
        others: others.iter().map(|o| o.map(s)).collect(),
    }
}

fn run(g: &CollabGraph, max_iter: usize) -> Centrality<F> {
    centrality(g, max_iter, &F(1e-6))
}

fn ranking(g: &CollabGraph, scores: &[F], k: usize) -> Vec<String> {
    let keys: Vec<u64> = scores.iter().map(|x| order_key(x.0.to_bits())).collect();
    top_k(g, &keys, k).into_iter().map(|i| g.label(i).clone()).collect()
}

fn star_records() -> Vec<Record> {
    vec![rec("A", "B", &[]), rec("A", "B", &[]), rec("A", "C", &[])]
}

#[test]
fn label_order_is_bytewise() {
    assert!(label_less(&s("A"), &s("B")));
    assert!(!label_less(&s("B"), &s("A")));
    assert!(!label_less(&s("A"), &s("A")));
    assert!(label_less(&s("Ab"), &s("Abc")));
    assert!(label_less(&s("Z"), &s("a")));
    assert!(label_less(&s("z"), &s("é")));
    assert!(!label_less(&s(""), &s("")));
    assert!(label_less(&s(""), &s("x")));
}

#[test]
fn distinct_labels_drops_repeats() {
    let r = rec("A", "A", &[Some("B"), None, Some("B"), Some("A"), Some("C")]);
    assert_eq!(distinct_labels(&r), vec![s("A"), s("B"), s("C")]);
}

#[test]
fn repeated_pair_counts() {
    let pc = aggregate(&star_records());
    assert_eq!(pc.entries.len(), 2);
    assert_eq!(pc.count(&s("A"), &s("B")), 2);
    assert_eq!(pc.count(&s("A"), &s("C")), 1);
    assert_eq!(pc.count(&s("B"), &s("C")), 0);
}

#[test]
fn pair_count_is_symmetric() {
    let pc = aggregate(&vec![rec("Zed", "Amy", &[Some("Bo")]), rec("Bo", "Zed", &[])]);
    assert_eq!(pc.count(&s("Zed"), &s("Amy")), 1);
    assert_eq!(pc.count(&s("Amy"), &s("Zed")), 1);
    assert_eq!(pc.count(&s("Bo"), &s("Zed")), 2);
    assert_eq!(pc.count(&s("Zed"), &s("Bo")), 2);
    for e in &pc.entries {
        assert!(label_less(&e.low, &e.high));
    }
}

#[test]
fn no_self_pairs() {
    let pc = aggregate(&vec![rec("A", "A", &[Some("A"), Some("B")])]);
    assert_eq!(pc.count(&s("A"), &s("A")), 0);
    assert_eq!(pc.count(&s("A"), &s("B")), 1);
    assert_eq!(pc.entries.len(), 1);
    for e in &pc.entries {
        assert_ne!(e.low, e.high);
    }
}

#[test]
fn repeated_optional_slot_counts_once() {
    let twice = aggregate(&vec![rec("D", "S", &[Some("X"), Some("X"), None])]);
    let once = aggregate(&vec![rec("D", "S", &[Some("X"), None, None])]);
    assert_eq!(twice.count(&s("D"), &s("X")), 1);
    assert_eq!(twice.count(&s("S"), &s("X")), 1);
    assert_eq!(twice.count(&s("D"), &s("S")), 1);
    assert_eq!(twice.entries.len(), once.entries.len());
    for e in &once.entries {
        assert_eq!(twice.count(&e.low, &e.high), e.count);
    }
}

#[test]
fn adding_a_record_adds_one() {
    let mut pc = aggregate(&star_records());
    let before = pc.count(&s("A"), &s("B"));
    pc.add_record(&rec("B", "A", &[Some("Q")]));
    assert_eq!(pc.count(&s("A"), &s("B")), before + 1);
    assert_eq!(pc.count(&s("A"), &s("C")), 1);
    assert_eq!(pc.count(&s("Q"), &s("B")), 1);
}

#[test]
fn new_counts_are_empty() {
    let pc = PairCounts::new();
    assert_eq!(pc.entries.len(), 0);
    assert_eq!(pc.count(&s("A"), &s("B")), 0);
}

#[test]
fn repeated_pair_graph() {
    let pc = aggregate(&star_records());
    let g = CollabGraph::build(&pc);
    assert_eq!(g.node_count(), 3);
    assert_eq!(g.label(0), "A");
    assert_eq!(g.label(1), "B");
    assert_eq!(g.label(2), "C");
    let adj = g.adjacency();
    assert_eq!(adj.len(), 3);
    assert_eq!(adj[0], vec![(1, 2), (2, 1)]);
    assert_eq!(adj[1], vec![(0, 2)]);
    assert_eq!(adj[2], vec![(0, 1)]);
}

#[test]
fn star_ranking_after_odd_passes() {
    let g = CollabGraph::build(&aggregate(&star_records()));
    let r = run(&g, 1001);
    assert_eq!(r.scores.len(), 3);
    assert!(!r.converged);
    assert_eq!(r.passes, 1001);
    assert!(r.scores[0].0 > r.scores[1].0 && r.scores[1].0 > r.scores[2].0);
    assert_eq!(ranking(&g, &r.scores, 5), vec![s("A"), s("B"), s("C")]);
}

#[test]
fn star_oscillates_and_ranks_b_first_after_even_passes() {
    // The star A-B (2), A-C (1) is bipartite: power iteration alternates
    // between two directions and never settles. After an even number of
    // passes the scores are proportional to (5, 6, 3), so B leads.
    let g = CollabGraph::build(&aggregate(&star_records()));
    let r = run(&g, 1000);
    assert!(!r.converged);
    assert_eq!(r.passes, 1000);
    let n = (70.0f64).sqrt();
    assert!((r.scores[0].0 - 5.0 / n).abs() < 1e-9);
    assert!((r.scores[1].0 - 6.0 / n).abs() < 1e-9);
    assert!((r.scores[2].0 - 3.0 / n).abs() < 1e-9);
    assert_eq!(ranking(&g, &r.scores, 5), vec![s("B"), s("A"), s("C")]);
}

#[test]
fn single_edge_and_repeated_self_label() {
    let g = CollabGraph::build(&aggregate(&vec![rec("X", "X", &[]), rec("A", "B", &[])]));
    assert_eq!(g.node_count(), 2);
    let r = run(&g, 1000);
    assert!(r.converged);
    let h = 1.0 / (2.0f64).sqrt();
    assert!((r.scores[0].0 - h).abs() < 1e-12);
    assert_eq!(r.scores[0], r.scores[1]);
}

#[test]
fn triangle_with_repeated_slot_scores_evenly() {
    let g = CollabGraph::build(&aggregate(&vec![rec("A", "B", &[Some("C"), Some("C"), None])]));
    assert_eq!(g.node_count(), 3);
    let r = run(&g, 1000);
    assert!(r.converged);
    let t = 1.0 / (3.0f64).sqrt();
    for x in &r.scores {
        assert!((x.0 - t).abs() < 1e-9);
    }
}

#[test]
fn swapped_required_fields_give_same_scores() {
    let a = vec![rec("A", "B", &[Some("C")]), rec("C", "D", &[]), rec("B", "D", &[])];
    let b = vec![rec("B", "A", &[Some("C")]), rec("D", "C", &[]), rec("B", "D", &[])];
    let ga = CollabGraph::build(&aggregate(&a));
    let gb = CollabGraph::build(&aggregate(&b));
    let ra = run(&ga, 1000);
    let rb = run(&gb, 1000);
    for i in 0..ga.node_count() {
        let j = (0..gb.node_count()).find(|&j| gb.label(j) == ga.label(i)).unwrap();
        assert_eq!(ra.scores[i], rb.scores[j]);
    }
}

#[test]
fn one_pass_scores() {
    let g = CollabGraph::build(&aggregate(&star_records()));
    let r = run(&g, 1);
    let n = (14.0f64).sqrt();
    assert_eq!(r.passes, 1);
    assert!((r.scores[0].0 - 3.0 / n).abs() < 1e-12);
    assert!((r.scores[1].0 - 2.0 / n).abs() < 1e-12);
    assert!((r.scores[2].0 - 1.0 / n).abs() < 1e-12);
}

#[test]
fn single_record_same_label() {
    let pc = aggregate(&vec![rec("A", "A", &[])]);
    assert_eq!(pc.entries.len(), 0);
    let g = CollabGraph::build(&pc);
    assert_eq!(g.node_count(), 0);
    let r = run(&g, 1000);
    assert!(r.scores.is_empty());
    assert!(ranking(&g, &r.scores, 5).is_empty());
}

#[test]
fn disconnected_components_converge() {
    let mut recs = Vec::new();
    for _ in 0..5 {
        recs.push(rec("A", "B", &[]));
    }
    recs.push(rec("C", "D", &[]));
    let g = CollabGraph::build(&aggregate(&recs));
    assert_eq!(g.node_count(), 4);
    let r = run(&g, 1000);
    assert!(r.converged);
    assert!(r.passes < 1000);
    assert_eq!(r.scores.len(), 4);
    for x in &r.scores {
        assert!(x.0.is_finite() && x.0 >= 0.0);
    }
    assert!((r.scores[0].0 - r.scores[1].0).abs() < 1e-12);
    assert!((r.scores[2].0 - r.scores[3].0).abs() < 1e-12);
    assert_eq!(ranking(&g, &r.scores, 5), vec![s("A"), s("B"), s("C"), s("D")]);
}

#[test]
fn connected_graph_scores_are_non_negative() {
    let recs = vec![
        rec("A", "B", &[Some("C")]),
        rec("C", "D", &[]),
        rec("D", "A", &[Some("E")]),
        rec("E", "B", &[]),
    ];
    let g = CollabGraph::build(&aggregate(&recs));
    let r = run(&g, 1000);
    assert_eq!(r.scores.len(), g.node_count());
    assert!(r.converged);
    for x in &r.scores {
        assert!(x.0 >= 0.0);
    }
}

#[test]
fn zero_passes_keep_initial_scores() {
    let g = CollabGraph::build(&aggregate(&star_records()));
    let r = run(&g, 0);
    assert_eq!(r.passes, 0);
    assert!(!r.converged);
    assert_eq!(r.scores, vec![F(1.0), F(1.0), F(1.0)]);
}

#[test]
fn schedule_stops_after_converged_pass() {
    let mut sc = Schedule::start(10);
    assert!(sc.running());
    sc.record_pass(false);
    assert!(sc.running());
    sc.record_pass(true);
    assert!(!sc.running());
    assert_eq!(sc.passes, 2);
    let mut sc = Schedule::start(1);
    sc.record_pass(false);
    assert!(!sc.running());
    assert!(!Schedule::start(0).running());
}

#[test]
fn top_k_breaks_ties_by_label_and_truncates() {
    let recs = vec![rec("c", "a", &[]), rec("b", "d", &[])];
    let g = CollabGraph::build(&aggregate(&recs));
    assert_eq!(g.label(0), "a");
    assert_eq!(g.label(1), "c");
    assert_eq!(g.label(2), "b");
    assert_eq!(g.label(3), "d");
    let keys = vec![5, 7, 5, 7];
    assert_eq!(top_k(&g, &keys, 2), vec![1, 3]);
    assert_eq!(top_k(&g, &keys, 10), vec![1, 3, 0, 2]);
    assert_eq!(top_k(&g, &keys, 0), Vec::<usize>::new());
}

#[test]
fn order_key_follows_float_order() {
    assert_eq!(order_key(0), 0x8000_0000_0000_0000);
    assert_eq!(order_key(0x8000_0000_0000_0000), 0x7FFF_FFFF_FFFF_FFFF);
    let vals = [-2.5f64, -1.0, -0.0, 0.0, 1e-9, 0.5, 1.0, 3.0];
    for w in vals.windows(2) {
        assert!(order_key(w[0].to_bits()) <= order_key(w[1].to_bits()));
    }
    assert!(order_key((-1.0f64).to_bits()) < order_key(0.5f64.to_bits()));
    assert!(order_key(0.25f64.to_bits()) < order_key(0.5f64.to_bits()));
}

#[test]
fn entries_are_sorted_by_key() {
    let recs = vec![rec("Z", "Y", &[]), rec("B", "A", &[Some("Y")])];
    let pc = aggregate(&recs);
    let keys: Vec<(String, String, usize)> =
        pc.entries.iter().map(|e| (e.low.clone(), e.high.clone(), e.count)).collect();
    assert_eq!(
        keys,
        vec![
            (s("A"), s("B"), 1),
            (s("A"), s("Y"), 1),
            (s("B"), s("Y"), 1),
            (s("Y"), s("Z"), 1),
        ]
    );
    let g = CollabGraph::build(&pc);
    let labels: Vec<String> = (0..g.node_count()).map(|i| g.label(i).clone()).collect();
    assert_eq!(labels, vec![s("A"), s("B"), s("Y"), s("Z")]);
}
