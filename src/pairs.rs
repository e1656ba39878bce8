//! Pair aggregation: co-occurrence counts of distinct labels over records.
use vstd::prelude::*;
use crate::label::{label_lt, label_less, lemma_label_lt_total, lemma_label_lt_transitive};

verus! {

/// One record: two required participants and any number of optional slots.
pub struct Record {
    pub primary: String,
    pub secondary: String,
    pub others: Vec<Option<String>>,
}

/// What a record names, as labels.
pub struct RecordView {
    pub primary: Seq<char>,
    pub secondary: Seq<char>,
    pub others: Seq<Option<Seq<char>>>,
}

pub open spec fn slot_view(o: Option<String>) -> Option<Seq<char>> {
    match o {
        Some(s) => Some(s@),
        None => None,
    }
}

impl View for Record {
    type V = RecordView;

    open spec fn view(&self) -> RecordView {
        RecordView {
            primary: self.primary@,
            secondary: self.secondary@,
            others: self.others@.map_values(|o: Option<String>| slot_view(o)),
        }
    }
}

/// Whether the record names label `x` in any of its slots.
pub open spec fn in_record(r: RecordView, x: Seq<char>) -> bool {
    x == r.primary || x == r.secondary || exists|i: int|
        0 <= i < r.others.len() && #[trigger] r.others[i] == Some(x)
}

/// How much one record adds to the count of the pair `a`, `b`.
pub open spec fn contribution(r: RecordView, a: Seq<char>, b: Seq<char>) -> nat {
    if a != b && in_record(r, a) && in_record(r, b) {
        1
    } else {
        0
    }
}

/// Number of records that name both `a` and `b`, for distinct `a` and `b`.
pub open spec fn co_count(rs: Seq<RecordView>, a: Seq<char>, b: Seq<char>) -> nat
    decreases rs.len(),
{
    if rs.len() == 0 {
        0
    } else {
        co_count(rs.drop_last(), a, b) + contribution(rs.last(), a, b)
    }
}

pub open spec fn records_view(rs: Seq<Record>) -> Seq<RecordView> {
    rs.map_values(|r: Record| r@)
}

/// A record listing one label in two optional slots adds exactly what it adds
/// with the second slot left empty.
pub proof fn lemma_repeated_slot(r: RecordView, i: int, j: int)
    requires
        0 <= i < r.others.len(),
        0 <= j < r.others.len(),
        i != j,
        r.others[i] is Some,
        r.others[i] == r.others[j],
    ensures
        forall|a: Seq<char>, b: Seq<char>|
            contribution(r, a, b) == contribution(
                RecordView { others: r.others.update(j, None), ..r },
                a,
                b,
            ),
{
    let r2 = RecordView { others: r.others.update(j, None), ..r };
    assert forall|x: Seq<char>| in_record(r, x) == in_record(r2, x) by {
        if in_record(r, x) && x != r.primary && x != r.secondary {
            let k = choose|k: int| 0 <= k < r.others.len() && #[trigger] r.others[k] == Some(x);
            if k == j {
                assert(r2.others[i] == Some(x));
            } else {
                assert(r2.others[k] == Some(x));
            }
        }
        if in_record(r2, x) && x != r.primary && x != r.secondary {
            let k = choose|k: int| 0 <= k < r2.others.len() && #[trigger] r2.others[k] == Some(x);
            assert(r.others[k] == Some(x));
        }
    }
}

pub open spec fn distinct(ls: Seq<String>) -> bool {
    forall|p: int, q: int| 0 <= p < q < ls.len() ==> (#[trigger] ls[p])@ != (#[trigger] ls[q])@
}

pub open spec fn holds(ls: Seq<String>, x: Seq<char>) -> bool {
    exists|t: int| 0 <= t < ls.len() && (#[trigger] ls[t])@ == x
}

/// Whether `ls` already holds label `x`.
fn holds_label(ls: &Vec<String>, x: &String) -> (r: bool)
    ensures
        r == holds(ls@, x@),
{
    let mut t: usize = 0;
    while t < ls.len()
        invariant
            t <= ls@.len(),
            forall|u: int| 0 <= u < t ==> (#[trigger] ls@[u])@ != x@,
        decreases ls@.len() - t,
    {
        if ls[t] == *x {
            return true;
        }
        t = t + 1;
    }
    false
}

/// The labels a record names, each once.
pub fn distinct_labels(rec: &Record) -> (r: Vec<String>)
    ensures
        distinct(r@),
        forall|x: Seq<char>| #[trigger] holds(r@, x) == in_record(rec@, x),
{
    let mut ls: Vec<String> = Vec::new();
    ls.push(rec.primary.clone());
    if rec.secondary != rec.primary {
        ls.push(rec.secondary.clone());
    }
    let ghost rv = rec@;
    assert forall|x: Seq<char>| #[trigger] holds(ls@, x) == (x == rv.primary || x == rv.secondary
        || exists|i: int| 0 <= i < 0 && #[trigger] rv.others[i] == Some(x)) by {
        assert(ls@[0]@ == rv.primary);
        if x == rv.secondary && ls@.len() == 2 {
            assert(ls@[1]@ == rv.secondary);
        }
    }
    let mut k: usize = 0;
    while k < rec.others.len()
        invariant
            rv == rec@,
            k <= rec.others@.len(),
            distinct(ls@),
            forall|x: Seq<char>|
                #[trigger] holds(ls@, x) == (x == rv.primary || x == rv.secondary || exists|i: int|
                    0 <= i < k && #[trigger] rv.others[i] == Some(x)),
        decreases rec.others@.len() - k,
    {
        assert(rv.others[k as int] == slot_view(rec.others@[k as int]));
        if let Some(s) = &rec.others[k] {
            if !holds_label(&ls, s) {
                let ghost prev = ls@;
                ls.push(s.clone());
                assert forall|x: Seq<char>| #[trigger] holds(ls@, x) == (holds(prev, x) || x == s@) by {
                    if holds(ls@, x) && x != s@ {
                        let t = choose|t: int| 0 <= t < ls@.len() && (#[trigger] ls@[t])@ == x;
                        assert(prev[t] == ls@[t]);
                    }
                    if holds(prev, x) {
                        let t = choose|t: int| 0 <= t < prev.len() && (#[trigger] prev[t])@ == x;
                        assert(prev[t] == ls@[t]);
                    }
                    if x == s@ {
                        assert(ls@[prev.len() as int]@ == x);
                    }
                }
            }
            assert forall|x: Seq<char>| #[trigger] holds(ls@, x) == (x == rv.primary || x
                == rv.secondary || exists|i: int| 0 <= i < k + 1 && #[trigger] rv.others[i] == Some(x)) by {
                if x == s@ {
                    assert(rv.others[k as int] == Some(x));
                }
                if exists|i: int| 0 <= i < k + 1 && #[trigger] rv.others[i] == Some(x) {
                    let i = choose|i: int| 0 <= i < k + 1 && #[trigger] rv.others[i] == Some(x);
                    if i < k {
                    } else {
                        assert(x == s@);
                    }
                }
            }
        } else {
            assert forall|x: Seq<char>| #[trigger] holds(ls@, x) == (x == rv.primary || x
                == rv.secondary || exists|i: int| 0 <= i < k + 1 && #[trigger] rv.others[i] == Some(x)) by {
                if exists|i: int| 0 <= i < k + 1 && #[trigger] rv.others[i] == Some(x) {
                    let i = choose|i: int| 0 <= i < k + 1 && #[trigger] rv.others[i] == Some(x);
                    assert(i < k);
                }
            }
        }
        k = k + 1;
    }
    ls
}

pub open spec fn same_pair(p: Seq<char>, q: Seq<char>, x: Seq<char>, y: Seq<char>) -> bool {
    (p == x && q == y) || (p == y && q == x)
}

/// Whether some pair of positions `p < q` enumerated before `(i, j)` names `x`, `y`.
spec fn pair_done(ls: Seq<String>, i: int, j: int, x: Seq<char>, y: Seq<char>) -> bool {
    exists|p: int, q: int|
        0 <= p < q < ls.len() && (p < i || (p == i && q < j)) && same_pair(
            (#[trigger] ls[p])@,
            (#[trigger] ls[q])@,
            x,
            y,
        )
}

proof fn lemma_done_step(ls: Seq<String>, i: int, j: int, x: Seq<char>, y: Seq<char>)
    requires
        0 <= i < j < ls.len(),
    ensures
        pair_done(ls, i, j + 1, x, y) == (pair_done(ls, i, j, x, y) || same_pair(
            ls[i]@,
            ls[j]@,
            x,
            y,
        )),
{
    if same_pair(ls[i]@, ls[j]@, x, y) {
        assert(0 <= i < j < ls.len() && same_pair((ls[i])@, (ls[j])@, x, y));
    }
}

proof fn lemma_done_fresh(ls: Seq<String>, i: int, j: int)
    requires
        0 <= i < j < ls.len(),
        distinct(ls),
    ensures
        !pair_done(ls, i, j, ls[i]@, ls[j]@),
{
}

proof fn lemma_done_row(ls: Seq<String>, i: int, x: Seq<char>, y: Seq<char>)
    requires
        0 <= i < ls.len(),
    ensures
        pair_done(ls, i, ls.len() as int, x, y) == pair_done(ls, i + 1, i + 2, x, y),
{
}

proof fn lemma_done_all(ls: Seq<String>, x: Seq<char>, y: Seq<char>)
    requires
        distinct(ls),
    ensures
        pair_done(ls, ls.len() as int, ls.len() as int + 1, x, y) == (x != y && holds(ls, x) && holds(
            ls,
            y,
        )),
{
    if x != y && holds(ls, x) && holds(ls, y) {
        let t = choose|t: int| 0 <= t < ls.len() && (#[trigger] ls[t])@ == x;
        let u = choose|u: int| 0 <= u < ls.len() && (#[trigger] ls[u])@ == y;
        if t < u {
            assert(same_pair((ls[t])@, (ls[u])@, x, y));
        } else {
            assert(same_pair((ls[u])@, (ls[t])@, x, y));
        }
    }
    if pair_done(ls, ls.len() as int, ls.len() as int + 1, x, y) {
        let (p, q) = choose|p: int, q: int|
            0 <= p < q < ls.len() && (p < ls.len() || (p == ls.len() && q < ls.len() as int + 1))
                && same_pair((#[trigger] ls[p])@, (#[trigger] ls[q])@, x, y);
        assert(holds(ls, ls[p]@));
        assert(holds(ls, ls[q]@));
    }
}

/// Swapping the two required participants of a record changes nothing it adds.
pub proof fn lemma_swap_required(r: RecordView)
    ensures
        forall|a: Seq<char>, b: Seq<char>|
            contribution(r, a, b) == contribution(
                RecordView { primary: r.secondary, secondary: r.primary, ..r },
                a,
                b,
            ),
{
}

/// One canonical pair key with its count; `low` precedes `high`.
pub struct PairEntry {
    pub low: String,
    pub high: String,
    pub count: usize,
}

/// Sum of the counts stored under the key `a`, `b`.
pub open spec fn count_in(es: Seq<PairEntry>, a: Seq<char>, b: Seq<char>) -> nat
    decreases es.len(),
{
    if es.len() == 0 {
        0
    } else {
        count_in(es.drop_last(), a, b) + (if es.last().low@ == a && es.last().high@ == b {
            es.last().count as nat
        } else {
            0
        })
    }
}

proof fn lemma_count_in_push(es: Seq<PairEntry>, e: PairEntry, a: Seq<char>, b: Seq<char>)
    ensures
        count_in(es.push(e), a, b) == count_in(es, a, b) + (if e.low@ == a && e.high@ == b {
            e.count as nat
        } else {
            0
        }),
{
    assert(es.push(e).drop_last() =~= es);
}

proof fn lemma_count_in_update(
    es: Seq<PairEntry>,
    k: int,
    e: PairEntry,
    a: Seq<char>,
    b: Seq<char>,
)
    requires
        0 <= k < es.len(),
        es[k].low@ == e.low@,
        es[k].high@ == e.high@,
    ensures
        count_in(es.update(k, e), a, b) == if e.low@ == a && e.high@ == b {
            count_in(es, a, b) - es[k].count + e.count
        } else {
            count_in(es, a, b) as int
        },
    decreases es.len(),
{
    if k == es.len() - 1 {
        assert(es.update(k, e).drop_last() =~= es.drop_last());
    } else {
        assert(es.update(k, e).drop_last() =~= es.drop_last().update(k, e));
        lemma_count_in_update(es.drop_last(), k, e, a, b);
    }
}

/// Without a matching key the count is zero.
proof fn lemma_count_in_absent(es: Seq<PairEntry>, a: Seq<char>, b: Seq<char>)
    requires
        forall|i: int| 0 <= i < es.len() ==> !(#[trigger] es[i].low@ == a && es[i].high@ == b),
    ensures
        count_in(es, a, b) == 0,
    decreases es.len(),
{
    if es.len() > 0 {
        lemma_count_in_absent(es.drop_last(), a, b);
    }
}

/// With unique keys, the count under an entry's key is that entry's count.
proof fn lemma_count_in_unique(es: Seq<PairEntry>, k: int)
    requires
        0 <= k < es.len(),
        forall|i: int, j: int|
            0 <= i < j < es.len() ==> !(#[trigger] es[i].low@ == #[trigger] es[j].low@
                && es[i].high@ == es[j].high@),
    ensures
        count_in(es, es[k].low@, es[k].high@) == es[k].count,
    decreases es.len(),
{
    let d = es.drop_last();
    if k == es.len() - 1 {
        assert forall|i: int| 0 <= i < d.len() implies !(#[trigger] d[i].low@ == es[k].low@
            && d[i].high@ == es[k].high@) by {
            assert(es[i] == d[i]);
        }
        lemma_count_in_absent(d, es[k].low@, es[k].high@);
    } else {
        lemma_count_in_unique(d, k);
    }
}

/// Order on canonical keys: by low label, then by high label.
pub open spec fn key_lt(al: Seq<char>, ah: Seq<char>, bl: Seq<char>, bh: Seq<char>) -> bool {
    label_lt(al, bl) || (al == bl && label_lt(ah, bh))
}

/// The key order is strict, total and transitive.
pub proof fn lemma_key_lt_order(
    al: Seq<char>,
    ah: Seq<char>,
    bl: Seq<char>,
    bh: Seq<char>,
    cl: Seq<char>,
    ch: Seq<char>,
)
    ensures
        !key_lt(al, ah, al, ah),
        !(key_lt(al, ah, bl, bh) && key_lt(bl, bh, al, ah)),
        !(al == bl && ah == bh) ==> key_lt(al, ah, bl, bh) || key_lt(bl, bh, al, ah),
        key_lt(al, ah, bl, bh) && key_lt(bl, bh, cl, ch) ==> key_lt(al, ah, cl, ch),
{
    lemma_label_lt_total(al, bl);
    lemma_label_lt_total(ah, bh);
    lemma_label_lt_total(al, al);
    lemma_label_lt_total(ah, ah);
    if key_lt(al, ah, bl, bh) && key_lt(bl, bh, cl, ch) {
        if label_lt(al, bl) && label_lt(bl, cl) {
            lemma_label_lt_transitive(al, bl, cl);
        } else if label_lt(ah, bh) && label_lt(bh, ch) {
            lemma_label_lt_transitive(ah, bh, ch);
        }
    }
}

proof fn lemma_count_in_insert(
    es: Seq<PairEntry>,
    k: int,
    e: PairEntry,
    a: Seq<char>,
    b: Seq<char>,
)
    requires
        0 <= k <= es.len(),
    ensures
        count_in(es.insert(k, e), a, b) == count_in(es, a, b) + (if e.low@ == a && e.high@ == b {
            e.count as nat
        } else {
            0
        }),
    decreases es.len(),
{
    if k == es.len() {
        assert(es.insert(k, e) =~= es.push(e));
        lemma_count_in_push(es, e, a, b);
    } else {
        assert(es.insert(k, e).drop_last() =~= es.drop_last().insert(k, e));
        lemma_count_in_insert(es.drop_last(), k, e, a, b);
    }
}

/// Co-occurrence counts, one entry per canonical pair, sorted by key.
pub struct PairCounts {
    pub entries: Vec<PairEntry>,
}

impl PairCounts {
    /// Keys are canonical, unique and in ascending order, and every count is
    /// positive.
    pub open spec fn wf(&self) -> bool {
        &&& forall|i: int, j: int|
            0 <= i < j < self.entries.len() ==> key_lt(
                (#[trigger] self.entries@[i]).low@,
                self.entries@[i].high@,
                (#[trigger] self.entries@[j]).low@,
                self.entries@[j].high@,
            )
        &&& forall|i: int|
            0 <= i < self.entries.len() ==> label_lt(
                #[trigger] self.entries@[i].low@,
                self.entries@[i].high@,
            ) && self.entries@[i].count >= 1
        &&& forall|i: int, j: int|
            0 <= i < j < self.entries.len() ==> !(#[trigger] self.entries@[i].low@
                == #[trigger] self.entries@[j].low@ && self.entries@[i].high@
                == self.entries@[j].high@)
    }

    /// The count of the unordered pair `a`, `b`, whichever order it is asked in.
    pub open spec fn pair_count(&self, a: Seq<char>, b: Seq<char>) -> nat {
        if label_lt(a, b) {
            count_in(self.entries@, a, b)
        } else {
            count_in(self.entries@, b, a)
        }
    }

    proof fn lemma_self_pair_zero(&self, a: Seq<char>)
        requires
            self.wf(),
        ensures
            count_in(self.entries@, a, a) == 0,
    {
        assert forall|i: int| 0 <= i < self.entries@.len() implies !(
        #[trigger] self.entries@[i].low@ == a && self.entries@[i].high@ == a) by {
            lemma_label_lt_total(self.entries@[i].low@, self.entries@[i].high@);
        }
        lemma_count_in_absent(self.entries@, a, a);
    }

    /// Index of the entry stored under the key `lo`, `hi`, if there is one.
    fn find(&self, lo: &String, hi: &String) -> (r: Option<usize>)
        ensures
            match r {
                Some(k) => k < self.entries@.len() && self.entries@[k as int].low@ == lo@
                    && self.entries@[k as int].high@ == hi@,
                None => forall|i: int|
                    0 <= i < self.entries@.len() ==> !(#[trigger] self.entries@[i].low@ == lo@
                        && self.entries@[i].high@ == hi@),
            },
    {
        let mut k: usize = 0;
        while k < self.entries.len()
            invariant
                k <= self.entries@.len(),
                forall|i: int|
                    0 <= i < k ==> !(#[trigger] self.entries@[i].low@ == lo@
                        && self.entries@[i].high@ == hi@),
            decreases self.entries@.len() - k,
        {
            if self.entries[k].low == *lo && self.entries[k].high == *hi {
                return Some(k);
            }
            k = k + 1;
        }
        None
    }

    /// Where the key `lo`, `hi` stands or would stand in the sorted entries,
    /// and whether it is there.
    fn locate(&self, lo: &String, hi: &String) -> (r: (usize, bool))
        requires
            self.wf(),
        ensures
            r.0 <= self.entries@.len(),
            forall|i: int|
                0 <= i < r.0 ==> key_lt(
                    (#[trigger] self.entries@[i]).low@,
                    self.entries@[i].high@,
                    lo@,
                    hi@,
                ),
            r.1 ==> r.0 < self.entries@.len() && self.entries@[r.0 as int].low@ == lo@
                && self.entries@[r.0 as int].high@ == hi@,
            !r.1 ==> r.0 < self.entries@.len() ==> key_lt(
                lo@,
                hi@,
                self.entries@[r.0 as int].low@,
                self.entries@[r.0 as int].high@,
            ),
    {
        let mut k: usize = 0;
        while k < self.entries.len()
            invariant
                k <= self.entries@.len(),
                forall|i: int|
                    0 <= i < k ==> key_lt(
                        (#[trigger] self.entries@[i]).low@,
                        self.entries@[i].high@,
                        lo@,
                        hi@,
                    ),
            decreases self.entries@.len() - k,
        {
            let e = &self.entries[k];
            let same_low = e.low == *lo;
            let before = label_less(&e.low, lo) || (same_low && label_less(&e.high, hi));
            if !before {
                let found = same_low && e.high == *hi;
                proof {
                    lemma_key_lt_order(e.low@, e.high@, lo@, hi@, lo@, hi@);
                }
                return (k, found);
            }
            k = k + 1;
        }
        (k, false)
    }

    /// The count of the unordered pair `a`, `b`.
    pub fn count(&self, a: &String, b: &String) -> (r: usize)
        requires
            self.wf(),
        ensures
            r == self.pair_count(a@, b@),
    {
        let swap = !label_less(a, b);
        let (lo, hi) = if swap {
            (b, a)
        } else {
            (a, b)
        };
        match self.find(lo, hi) {
            Some(k) => {
                proof {
                    lemma_count_in_unique(self.entries@, k as int);
                }
                self.entries[k].count
            },
            None => {
                proof {
                    lemma_count_in_absent(self.entries@, lo@, hi@);
                }
                0
            },
        }
    }

    /// Adds one to the count of the unordered pair of distinct labels `a`, `b`.
    fn bump(&mut self, a: &String, b: &String)
        requires
            old(self).wf(),
            a@ != b@,
            old(self).pair_count(a@, b@) < usize::MAX,
        ensures
            final(self).wf(),
            forall|x: Seq<char>, y: Seq<char>|
                #[trigger] final(self).pair_count(x, y) == old(self).pair_count(x, y) + (if (x == a@
                    && y == b@) || (x == b@ && y == a@) {
                    1nat
                } else {
                    0nat
                }),
    {
        proof {
            lemma_label_lt_total(a@, b@);
        }
        let swap = !label_less(a, b);
        let (lo, hi) = if swap {
            (b, a)
        } else {
            (a, b)
        };
        let ghost es = self.entries@;
        let (k, found) = self.locate(lo, hi);
        if found {
            proof {
                lemma_count_in_unique(es, k as int);
            }
            let c = self.entries[k].count;
            let e = PairEntry { low: lo.clone(), high: hi.clone(), count: c + 1 };
            self.entries.set(k, e);
            proof {
                assert(self.entries@ == es.update(k as int, e));
                assert forall|x: Seq<char>, y: Seq<char>| true implies {
                    &&& count_in(self.entries@, x, y) == count_in(es, x, y) + (if x == lo@ && y
                        == hi@ {
                        1nat
                    } else {
                        0nat
                    })
                } by {
                    lemma_count_in_update(es, k as int, e, x, y);
                }
                assert forall|i: int| 0 <= i < self.entries@.len() implies label_lt(
                    #[trigger] self.entries@[i].low@,
                    self.entries@[i].high@,
                ) && self.entries@[i].count >= 1 by {
                    assert(es[i].low@ == self.entries@[i].low@);
                }
                assert forall|i: int, j: int|
                    0 <= i < j < self.entries@.len() implies !(
                    #[trigger] self.entries@[i].low@ == #[trigger] self.entries@[j].low@
                        && self.entries@[i].high@ == self.entries@[j].high@) by {
                    assert(es[i].low@ == self.entries@[i].low@);
                    assert(es[j].low@ == self.entries@[j].low@);
                }
                assert forall|i: int, j: int|
                    0 <= i < j < self.entries@.len() implies key_lt(
                    (#[trigger] self.entries@[i]).low@,
                    self.entries@[i].high@,
                    (#[trigger] self.entries@[j]).low@,
                    self.entries@[j].high@,
                ) by {
                    assert(es[i].low@ == self.entries@[i].low@ && es[i].high@ == self.entries@[i].high@);
                    assert(es[j].low@ == self.entries@[j].low@ && es[j].high@ == self.entries@[j].high@);
                }
            }
        } else {
            let e = PairEntry { low: lo.clone(), high: hi.clone(), count: 1 };
            self.entries.insert(k, e);
            proof {
                assert(self.entries@ == es.insert(k as int, e));
                assert forall|x: Seq<char>, y: Seq<char>| true implies {
                    &&& count_in(self.entries@, x, y) == count_in(es, x, y) + (if x == lo@ && y
                        == hi@ {
                        1nat
                    } else {
                        0nat
                    })
                } by {
                    lemma_count_in_insert(es, k as int, e, x, y);
                }
                let ns = self.entries@;
                assert forall|i: int| 0 <= i < ns.len() implies label_lt(
                    #[trigger] ns[i].low@,
                    ns[i].high@,
                ) && ns[i].count >= 1 by {
                    if i < k {
                        assert(ns[i] == es[i]);
                    } else if i > k {
                        assert(ns[i] == es[i - 1]);
                    }
                }
                assert forall|i: int, j: int|
                    0 <= i < j < ns.len() implies key_lt(
                    (#[trigger] ns[i]).low@,
                    ns[i].high@,
                    (#[trigger] ns[j]).low@,
                    ns[j].high@,
                ) by {
                    if j < k {
                        assert(ns[i] == es[i] && ns[j] == es[j]);
                    } else if j == k {
                        assert(ns[i] == es[i]);
                    } else if i < k {
                        assert(ns[i] == es[i] && ns[j] == es[j - 1]);
                        lemma_key_lt_order(es[i].low@, es[i].high@, lo@, hi@, es[j - 1].low@, es[j - 1].high@);
                        if j - 1 > k {
                            lemma_key_lt_order(lo@, hi@, es[k as int].low@, es[k as int].high@, es[j - 1].low@, es[j - 1].high@);
                        }
                    } else if i == k {
                        assert(ns[j] == es[j - 1]);
                        if j - 1 > k {
                            lemma_key_lt_order(lo@, hi@, es[k as int].low@, es[k as int].high@, es[j - 1].low@, es[j - 1].high@);
                        }
                    } else {
                        assert(ns[i] == es[i - 1] && ns[j] == es[j - 1]);
                    }
                }
                assert forall|i: int, j: int|
                    0 <= i < j < ns.len() implies !(#[trigger] ns[i].low@ == #[trigger] ns[j].low@
                        && ns[i].high@ == ns[j].high@) by {
                    lemma_key_lt_order(ns[i].low@, ns[i].high@, ns[j].low@, ns[j].high@, ns[j].low@, ns[j].high@);
                }
            }
        }
        proof {
            assert forall|x: Seq<char>, y: Seq<char>| true implies #[trigger] self.pair_count(x, y)
                == old(self).pair_count(x, y) + (if (x == a@ && y == b@) || (x == b@ && y == a@) {
                1nat
            } else {
                0nat
            }) by {
                lemma_label_lt_total(x, y);
            }
        }
    }

    /// Counts one record: each unordered pair of distinct labels it names gains
    /// exactly one, however often the record repeats a label.
    pub fn add_record(&mut self, rec: &Record)
        requires
            old(self).wf(),
            forall|a: Seq<char>, b: Seq<char>| #[trigger] old(self).pair_count(a, b) < usize::MAX,
        ensures
            final(self).wf(),
            forall|a: Seq<char>, b: Seq<char>|
                #[trigger] final(self).pair_count(a, b) == old(self).pair_count(a, b)
                    + contribution(rec@, a, b),
    {
        let ls = distinct_labels(rec);
        let n = ls.len();
        let ghost start = *self;
        let mut i: usize = 0;
        while i < n
            invariant
                n == ls@.len(),
                distinct(ls@),
                i <= n,
                self.wf(),
                forall|x: Seq<char>, y: Seq<char>|
                    #[trigger] self.pair_count(x, y) == start.pair_count(x, y) + (if pair_done(
                        ls@,
                        i as int,
                        i + 1,
                        x,
                        y,
                    ) {
                        1nat
                    } else {
                        0nat
                    }),
                forall|a: Seq<char>, b: Seq<char>| #[trigger] start.pair_count(a, b) < usize::MAX,
            decreases n - i,
        {
            let mut j: usize = i + 1;
            while j < n
                invariant
                    n == ls@.len(),
                    distinct(ls@),
                    i < n,
                    i < j <= n,
                    self.wf(),
                    forall|x: Seq<char>, y: Seq<char>|
                        #[trigger] self.pair_count(x, y) == start.pair_count(x, y) + (if pair_done(
                            ls@,
                            i as int,
                            j as int,
                            x,
                            y,
                        ) {
                            1nat
                        } else {
                            0nat
                        }),
                    forall|a: Seq<char>, b: Seq<char>|
                        #[trigger] start.pair_count(a, b) < usize::MAX,
                decreases n - j,
            {
                proof {
                    lemma_done_fresh(ls@, i as int, j as int);
                    assert(self.pair_count(ls@[i as int]@, ls@[j as int]@) == start.pair_count(
                        ls@[i as int]@,
                        ls@[j as int]@,
                    ));
                }
                let ghost before = *self;
                self.bump(&ls[i], &ls[j]);
                proof {
                    assert forall|x: Seq<char>, y: Seq<char>| true implies #[trigger] self.pair_count(
                        x,
                        y,
                    ) == start.pair_count(x, y) + (if pair_done(ls@, i as int, j + 1, x, y) {
                        1nat
                    } else {
                        0nat
                    }) by {
                        lemma_done_step(ls@, i as int, j as int, x, y);
                        assert(before.pair_count(x, y) == start.pair_count(x, y) + (if pair_done(
                            ls@,
                            i as int,
                            j as int,
                            x,
                            y,
                        ) {
                            1nat
                        } else {
                            0nat
                        }));
                    }
                }
                j = j + 1;
            }
            proof {
                assert forall|x: Seq<char>, y: Seq<char>| true implies #[trigger] self.pair_count(x, y)
                    == start.pair_count(x, y) + (if pair_done(ls@, i + 1, i + 2, x, y) {
                    1nat
                } else {
                    0nat
                }) by {
                    lemma_done_row(ls@, i as int, x, y);
                }
            }
            i = i + 1;
        }
        proof {
            assert forall|x: Seq<char>, y: Seq<char>| true implies #[trigger] self.pair_count(x, y)
                == start.pair_count(x, y) + contribution(rec@, x, y) by {
                lemma_done_all(ls@, x, y);
                assert(holds(ls@, x) == in_record(rec@, x));
                assert(holds(ls@, y) == in_record(rec@, y));
            }
        }
    }

    /// No pairs counted yet.
    pub fn new() -> (r: PairCounts)
        ensures
            r.wf(),
            r.entries@.len() == 0,
            forall|a: Seq<char>, b: Seq<char>| r.pair_count(a, b) == 0,
    {
        PairCounts { entries: Vec::new() }
    }
}

proof fn lemma_co_count_bound(rs: Seq<RecordView>, a: Seq<char>, b: Seq<char>)
    ensures
        co_count(rs, a, b) <= rs.len(),
    decreases rs.len(),
{
    if rs.len() > 0 {
        lemma_co_count_bound(rs.drop_last(), a, b);
    }
}

/// Counts every record: the count of each pair of distinct labels is the
/// number of records that name both.
pub fn aggregate(records: &Vec<Record>) -> (r: PairCounts)
    ensures
        r.wf(),
        forall|a: Seq<char>, b: Seq<char>|
            #[trigger] r.pair_count(a, b) == co_count(records_view(records@), a, b),
{
    let mut pc = PairCounts::new();
    let mut i: usize = 0;
    while i < records.len()
        invariant
            i <= records@.len(),
            pc.wf(),
            forall|a: Seq<char>, b: Seq<char>|
                #[trigger] pc.pair_count(a, b) == co_count(
                    records_view(records@.take(i as int)),
                    a,
                    b,
                ),
        decreases records@.len() - i,
    {
        proof {
            assert forall|a: Seq<char>, b: Seq<char>| #[trigger] pc.pair_count(a, b) < usize::MAX by {
                lemma_co_count_bound(records_view(records@.take(i as int)), a, b);
            }
        }
        pc.add_record(&records[i]);
        proof {
            let rs = records_view(records@.take(i + 1));
            assert(rs.drop_last() =~= records_view(records@.take(i as int)));
            assert(rs.last() == records@[i as int]@);
        }
        i = i + 1;
    }
    assert(records@.take(records@.len() as int) =~= records@);
    pc
}

/// The count of a pair does not depend on the order its labels are given in.
pub proof fn lemma_pair_count_symmetric(pc: PairCounts, a: Seq<char>, b: Seq<char>)
    requires
        pc.wf(),
    ensures
        pc.pair_count(a, b) == pc.pair_count(b, a),
{
    lemma_label_lt_total(a, b);
    if a == b {
    }
}

/// No stored key pairs a label with itself, and such a pair counts zero.
pub proof fn lemma_no_self_pairs(pc: PairCounts, a: Seq<char>)
    requires
        pc.wf(),
    ensures
        forall|i: int|
            0 <= i < pc.entries@.len() ==> (#[trigger] pc.entries@[i]).low@
                != pc.entries@[i].high@,
        pc.pair_count(a, a) == 0,
{
    assert forall|i: int| 0 <= i < pc.entries@.len() implies (#[trigger] pc.entries@[i]).low@
        != pc.entries@[i].high@ by {
        lemma_label_lt_total(pc.entries@[i].low@, pc.entries@[i].high@);
    }
    pc.lemma_self_pair_zero(a);
}

pub open spec fn sorted_positive(es: Seq<PairEntry>) -> bool {
    &&& forall|i: int| 0 <= i < es.len() ==> (#[trigger] es[i]).count >= 1
    &&& forall|i: int, j: int|
        0 <= i < j < es.len() ==> key_lt(
            (#[trigger] es[i]).low@,
            es[i].high@,
            (#[trigger] es[j]).low@,
            es[j].high@,
        )
}

proof fn lemma_present(es: Seq<PairEntry>, a: Seq<char>, b: Seq<char>) -> (i: int)
    requires
        count_in(es, a, b) > 0,
    ensures
        0 <= i < es.len(),
        es[i].low@ == a && es[i].high@ == b,
{
    if forall|i: int| 0 <= i < es.len() ==> !(#[trigger] es[i].low@ == a && es[i].high@ == b) {
        lemma_count_in_absent(es, a, b);
    }
    choose|i: int| 0 <= i < es.len() && #[trigger] es[i].low@ == a && es[i].high@ == b
}

proof fn lemma_sorted_unique(es: Seq<PairEntry>)
    requires
        sorted_positive(es),
    ensures
        forall|i: int, j: int|
            0 <= i < j < es.len() ==> !(#[trigger] es[i].low@ == #[trigger] es[j].low@
                && es[i].high@ == es[j].high@),
{
    assert forall|i: int, j: int| 0 <= i < j < es.len() implies !(#[trigger] es[i].low@
        == #[trigger] es[j].low@ && es[i].high@ == es[j].high@) by {
        lemma_key_lt_order(es[i].low@, es[i].high@, es[j].low@, es[j].high@, es[j].low@, es[j].high@);
    }
}

proof fn lemma_same_counts_same_entries(es: Seq<PairEntry>, fs: Seq<PairEntry>)
    requires
        sorted_positive(es),
        sorted_positive(fs),
        forall|a: Seq<char>, b: Seq<char>| #[trigger] count_in(es, a, b) == count_in(fs, a, b),
    ensures
        es.len() == fs.len(),
        forall|i: int|
            0 <= i < es.len() ==> (#[trigger] es[i]).low@ == fs[i].low@ && es[i].high@
                == fs[i].high@ && es[i].count == fs[i].count,
    decreases es.len() + fs.len(),
{
    lemma_sorted_unique(es);
    lemma_sorted_unique(fs);
    if es.len() == 0 && fs.len() > 0 {
        lemma_count_in_unique(fs, fs.len() - 1);
        assert(count_in(es, fs.last().low@, fs.last().high@) == count_in(fs, fs.last().low@, fs.last().high@));
    } else if es.len() > 0 && fs.len() == 0 {
        lemma_count_in_unique(es, es.len() - 1);
        assert(count_in(es, es.last().low@, es.last().high@) == count_in(fs, es.last().low@, es.last().high@));
    } else if es.len() > 0 {
        let e = es.last();
        let f = fs.last();
        lemma_count_in_unique(es, es.len() - 1);
        lemma_count_in_unique(fs, fs.len() - 1);
        assert(count_in(es, e.low@, e.high@) == count_in(fs, e.low@, e.high@));
        assert(count_in(es, f.low@, f.high@) == count_in(fs, f.low@, f.high@));
        let j = lemma_present(fs, e.low@, e.high@);
        let i = lemma_present(es, f.low@, f.high@);
        lemma_key_lt_order(e.low@, e.high@, f.low@, f.high@, e.low@, e.high@);
        if i < es.len() - 1 && j < fs.len() - 1 {
            assert(key_lt(f.low@, f.high@, e.low@, e.high@));
            assert(key_lt(e.low@, e.high@, f.low@, f.high@));
        } else if i < es.len() - 1 {
            assert(key_lt(f.low@, f.high@, e.low@, e.high@));
        } else if j < fs.len() - 1 {
            assert(key_lt(e.low@, e.high@, f.low@, f.high@));
        }
        assert(e.low@ == f.low@ && e.high@ == f.high@);
        let ed = es.drop_last();
        let fd = fs.drop_last();
        assert forall|a: Seq<char>, b: Seq<char>| #[trigger] count_in(ed, a, b) == count_in(fd, a, b) by {
            assert(count_in(es, a, b) == count_in(fs, a, b));
        }
        assert(sorted_positive(ed));
        assert(sorted_positive(fd));
        lemma_same_counts_same_entries(ed, fd);
        assert forall|i: int| 0 <= i < es.len() implies (#[trigger] es[i]).low@ == fs[i].low@
            && es[i].high@ == fs[i].high@ && es[i].count == fs[i].count by {
            if i < es.len() - 1 {
                assert(es[i] == ed[i] && fs[i] == fd[i]);
            }
        }
    }
}

/// The counts alone fix the entries: two well-formed tables that agree on
/// every pair hold the same keys with the same counts in the same order. So
/// the entries, and the node numbering built from them, depend only on the
/// records and not on the path taken to count them.
pub proof fn lemma_counts_fix_entries(p: PairCounts, q: PairCounts)
    requires
        p.wf(),
        q.wf(),
        forall|a: Seq<char>, b: Seq<char>| #[trigger] p.pair_count(a, b) == q.pair_count(a, b),
    ensures
        p.entries@.len() == q.entries@.len(),
        forall|i: int|
            0 <= i < p.entries@.len() ==> (#[trigger] p.entries@[i]).low@ == q.entries@[i].low@
                && p.entries@[i].high@ == q.entries@[i].high@ && p.entries@[i].count
                == q.entries@[i].count,
{
    assert forall|a: Seq<char>, b: Seq<char>| #[trigger] count_in(p.entries@, a, b) == count_in(
        q.entries@,
        a,
        b,
    ) by {
        lemma_label_lt_total(a, b);
        if label_lt(a, b) {
            assert(p.pair_count(a, b) == q.pair_count(a, b));
        } else {
            p.lemma_self_pair_zero(a);
            q.lemma_self_pair_zero(a);
            if a != b {
                assert forall|i: int| 0 <= i < p.entries@.len() implies !(#[trigger] p.entries@[i].low@ == a
                    && p.entries@[i].high@ == b) by {
                    lemma_label_lt_total(p.entries@[i].low@, p.entries@[i].high@);
                }
                assert forall|i: int| 0 <= i < q.entries@.len() implies !(#[trigger] q.entries@[i].low@ == a
                    && q.entries@[i].high@ == b) by {
                    lemma_label_lt_total(q.entries@[i].low@, q.entries@[i].high@);
                }
                lemma_count_in_absent(p.entries@, a, b);
                lemma_count_in_absent(q.entries@, a, b);
            }
        }
    }
    assert forall|i: int| 0 <= i < p.entries@.len() implies (#[trigger] p.entries@[i]).count >= 1 by {
        assert(label_lt(p.entries@[i].low@, p.entries@[i].high@) && p.entries@[i].count >= 1);
    }
    assert forall|i: int| 0 <= i < q.entries@.len() implies (#[trigger] q.entries@[i]).count >= 1 by {
        assert(label_lt(q.entries@[i].low@, q.entries@[i].high@) && q.entries@[i].count >= 1);
    }
    lemma_same_counts_same_entries(p.entries@, q.entries@);
}

} // verus!
