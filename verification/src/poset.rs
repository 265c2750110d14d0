//! The cover graph of the reading order over the fragments of a page.

use crate::fragment::{all_valid, Fragment};
use crate::geometry::{lemma_precedes_descends, AmbiguousOverlap, BBox, OverlapPolicy};
use vstd::prelude::*;

verus! {

/// The direct neighbours of one fragment, by index, in increasing order.
#[derive(Debug)]
pub struct Node {
    pub predecessors: Vec<usize>,
    pub successors: Vec<usize>,
}

/// One node per fragment, with the fragments that have no predecessor
/// (`sources`) and those that have no successor (`sinks`).
#[derive(Debug)]
pub struct Poset {
    pub elements: Vec<Node>,
    pub sources: Vec<usize>,
    pub sinks: Vec<usize>,
}

/// `a` precedes `c` and no box of `t` lies strictly between them.
pub open spec fn is_cover(t: Seq<Fragment>, a: BBox, c: BBox) -> bool {
    &&& a.precedes(c)
    &&& forall|k: int|
        0 <= k < t.len() ==> !(a.precedes((#[trigger] t[k]).bbox) && t[k].bbox.precedes(c))
}

/// Some two fragments overlap without a clean order.
pub open spec fn has_ambiguous(t: Seq<Fragment>) -> bool {
    exists|i: int, j: int|
        0 <= i < t.len() && 0 <= j < t.len() && (#[trigger] t[i]).bbox.ambiguous(
            (#[trigger] t[j]).bbox,
        )
}

/// The entries of `v` grow strictly.
pub open spec fn increasing(v: Seq<usize>) -> bool {
    forall|a: int, b: int| 0 <= a < b < v.len() ==> v[a] < v[b]
}

/// Every entry of `v` is below `n`.
pub open spec fn below(v: Seq<usize>, n: int) -> bool {
    forall|a: int| 0 <= a < v.len() ==> (#[trigger] v[a]) < n
}

/// `v` lists, in increasing order, exactly the indices below `n` of which `holds` is true.
pub open spec fn lists(v: Seq<usize>, n: int, holds: spec_fn(int) -> bool) -> bool {
    &&& increasing(v)
    &&& below(v, n)
    &&& forall|k: usize| k < n ==> (#[trigger] v.contains(k) <==> holds(k as int))
}

/// A list of the indices below `n` becomes one of those below `n + 1` by
/// pushing `n` where `holds` is true of it, and as it is where not.
proof fn lemma_lists_step(v: Seq<usize>, n: usize, holds: spec_fn(int) -> bool)
    requires
        lists(v, n as int, holds),
        n < usize::MAX,
    ensures
        holds(n as int) ==> lists(v.push(n), n + 1, holds),
        !holds(n as int) ==> lists(v, n + 1, holds),
{
    broadcast use vstd::seq_lib::lemma_seq_contains_after_push;

    if holds(n as int) {
        let w = v.push(n);
        assert(w.contains(n)) by {
            assert(w[v.len() as int] == n);
        }
    } else {
        assert(!v.contains(n)) by {
            if v.contains(n) {
                let a = choose|a: int| 0 <= a < v.len() && v[a] == n;
                assert(v[a] < n);
            }
        }
    }
}

impl Poset {
    /// The number of nodes.
    pub open spec fn size(&self) -> int {
        self.elements@.len() as int
    }

    /// The direct successors of node `i`.
    pub open spec fn succ(&self, i: int) -> Seq<usize> {
        self.elements@[i].successors@
    }

    /// The direct predecessors of node `i`.
    pub open spec fn pred(&self, i: int) -> Seq<usize> {
        self.elements@[i].predecessors@
    }

    /// The neighbour lists are increasing lists of node indices.
    pub open spec fn lists_ok(&self) -> bool {
        forall|i: int|
            #![trigger self.succ(i)]
            #![trigger self.pred(i)]
            0 <= i < self.size() ==> {
                &&& increasing(self.succ(i))
                &&& below(self.succ(i), self.size())
                &&& increasing(self.pred(i))
                &&& below(self.pred(i), self.size())
            }
    }

    /// `j` is a successor of `i` exactly when `i` is a predecessor of `j`.
    pub open spec fn linked(&self) -> bool {
        forall|i: usize, j: usize|
            #![trigger self.succ(i as int).contains(j)]
            #![trigger self.pred(j as int).contains(i)]
            i < self.size() && j < self.size() ==> (self.succ(i as int).contains(j)
                <==> self.pred(j as int).contains(i))
    }

    /// `sources` lists the nodes without predecessor, `sinks` those without
    /// successor, each in increasing order.
    pub open spec fn frontiers_ok(&self) -> bool {
        &&& lists(self.sources@, self.size(), |i: int| self.pred(i).len() == 0)
        &&& lists(self.sinks@, self.size(), |i: int| self.succ(i).len() == 0)
    }

    /// `d` gives every node a depth that is larger than that of each of its successors.
    pub open spec fn descends(&self, d: Seq<nat>) -> bool {
        &&& d.len() == self.size()
        &&& forall|i: int, a: int|
            0 <= i < self.size() && 0 <= a < self.succ(i).len() ==> d[(#[trigger] self.succ(
                i,
            )[a]) as int] < d[i]
    }

    /// The graph is consistent and has no cycle.
    pub open spec fn wf(&self) -> bool {
        &&& self.lists_ok()
        &&& self.linked()
        &&& self.frontiers_ok()
        &&& exists|d: Seq<nat>| self.descends(d)
    }

    /// The edges are exactly the covers of the reading order on `t`.
    pub open spec fn represents(&self, t: Seq<Fragment>) -> bool {
        &&& self.size() == t.len()
        &&& forall|i: int, j: usize|
            0 <= i < t.len() && j < t.len() ==> (#[trigger] self.succ(i).contains(j) <==> is_cover(
                t,
                t[i].bbox,
                t[j as int].bbox,
            ))
        &&& forall|i: int, j: usize|
            0 <= i < t.len() && j < t.len() ==> (#[trigger] self.pred(i).contains(j) <==> is_cover(
                t,
                t[j as int].bbox,
                t[i].bbox,
            ))
    }
}

/// Whether some two fragments overlap without a clean order.
pub fn any_ambiguous(x: &[Fragment]) -> (found: bool)
    ensures
        found == has_ambiguous(x@),
{
    for i in 0..x.len()
        invariant
            forall|a: int, b: int|
                0 <= a < i && 0 <= b < x.len() ==> !(#[trigger] x@[a]).bbox.ambiguous(
                    (#[trigger] x@[b]).bbox,
                ),
    {
        for j in 0..x.len()
            invariant
                i < x.len(),
                forall|a: int, b: int|
                    0 <= a < i && 0 <= b < x.len() ==> !(#[trigger] x@[a]).bbox.ambiguous(
                        (#[trigger] x@[b]).bbox,
                    ),
                forall|b: int|
                    0 <= b < j ==> !x@[i as int].bbox.ambiguous((#[trigger] x@[b]).bbox),
        {
            if x[i].bbox.compare_with(&x[j].bbox, OverlapPolicy::Fail).is_err() {
                return true;
            }
        }
    }
    false
}

impl Poset {
    /// Builds the cover graph of the fragments `x`.
    pub fn create_poset(x: &[Fragment]) -> (p: Poset)
        requires
            all_valid(x@),
        ensures
            p.represents(x@),
            p.wf(),
    {
        let n = x.len();
        let mut sources: Vec<usize> = Vec::new();
        let mut sinks: Vec<usize> = Vec::new();
        let mut elements: Vec<Node> = Vec::new();
        for i in 0..n
            invariant
                n == x.len(),
                elements.len() == i,
                forall|a: int|
                    0 <= a < i ==> lists(
                        (#[trigger] elements@[a]).successors@,
                        n as int,
                        |k: int| is_cover(x@, x@[a].bbox, x@[k].bbox),
                    ),
                forall|a: int|
                    0 <= a < i ==> lists(
                        (#[trigger] elements@[a]).predecessors@,
                        n as int,
                        |k: int| is_cover(x@, x@[k].bbox, x@[a].bbox),
                    ),
                increasing(sources@),
                below(sources@, i as int),
                forall|k: usize|
                    k < i ==> (#[trigger] sources@.contains(k) <==> elements@[k as int].predecessors@.len()
                        == 0),
                increasing(sinks@),
                below(sinks@, i as int),
                forall|k: usize|
                    k < i ==> (#[trigger] sinks@.contains(k) <==> elements@[k as int].successors@.len()
                        == 0),
        {
            let mut pred: Vec<usize> = Vec::new();
            let mut succ: Vec<usize> = Vec::new();
            let ghost covered_by = |k: int| is_cover(x@, x@[k].bbox, x@[i as int].bbox);
            let ghost covers = |k: int| is_cover(x@, x@[i as int].bbox, x@[k].bbox);
            for j in 0..n
                invariant
                    n == x.len(),
                    i < n,
                    covered_by == |k: int| is_cover(x@, x@[k].bbox, x@[i as int].bbox),
                    covers == |k: int| is_cover(x@, x@[i as int].bbox, x@[k].bbox),
                    lists(pred@, j as int, covered_by),
                    lists(succ@, j as int, covers),
            {
                proof {
                    lemma_lists_step(pred@, j, covered_by);
                    lemma_lists_step(succ@, j, covers);
                }
                if is_pred(x, &x[i], &x[j]) {
                    pred.push(j);
                }
                if is_succ(x, &x[i], &x[j]) {
                    succ.push(j);
                }
            }
            proof {
                broadcast use vstd::seq_lib::lemma_seq_contains_after_push;

                assert(!sources@.contains(i)) by {
                    if sources@.contains(i) {
                        let a = choose|a: int| 0 <= a < sources@.len() && sources@[a] == i;
                        assert(sources@[a] < i);
                    }
                }
                assert(!sinks@.contains(i)) by {
                    if sinks@.contains(i) {
                        let a = choose|a: int| 0 <= a < sinks@.len() && sinks@[a] == i;
                        assert(sinks@[a] < i);
                    }
                }
            }
            if pred.is_empty() {
                sources.push(i);
            }
            if succ.is_empty() {
                sinks.push(i);
            }
            elements.push(Node { predecessors: pred, successors: succ });
        }
        let p = Poset { elements, sources, sinks };
        proof {
            lemma_cover_graph_wf(&p, x@);
        }
        p
    }

    /// Builds the cover graph under a policy for ambiguous overlaps: with
    /// `Fail`, fragments of which some two overlap without a clean order are
    /// refused; else such pairs are incomparable.
    pub fn create_poset_with(x: &[Fragment], policy: OverlapPolicy) -> (r: Result<
        Poset,
        AmbiguousOverlap,
    >)
        requires
            all_valid(x@),
        ensures
            r is Err <==> policy == OverlapPolicy::Fail && has_ambiguous(x@),
            r is Ok ==> r->Ok_0.represents(x@) && r->Ok_0.wf(),
    {
        match policy {
            OverlapPolicy::TreatAsIncomparable => {},
            OverlapPolicy::Fail => {
                if any_ambiguous(x) {
                    return Err(AmbiguousOverlap);
                }
            },
        }
        Ok(Poset::create_poset(x))
    }
}

/// A graph whose neighbour lists hold exactly the covers of valid boxes is
/// consistent and has no cycle: every edge leads strictly downward on the page.
proof fn lemma_cover_graph_wf(p: &Poset, t: Seq<Fragment>)
    requires
        all_valid(t),
        p.size() == t.len(),
        forall|a: int|
            0 <= a < t.len() ==> lists(
                #[trigger] p.succ(a),
                t.len() as int,
                |k: int| is_cover(t, t[a].bbox, t[k].bbox),
            ),
        forall|a: int|
            0 <= a < t.len() ==> lists(
                #[trigger] p.pred(a),
                t.len() as int,
                |k: int| is_cover(t, t[k].bbox, t[a].bbox),
            ),
        increasing(p.sources@),
        below(p.sources@, p.size()),
        forall|k: usize|
            k < p.size() ==> (#[trigger] p.sources@.contains(k) <==> p.pred(k as int).len() == 0),
        increasing(p.sinks@),
        below(p.sinks@, p.size()),
        forall|k: usize|
            k < p.size() ==> (#[trigger] p.sinks@.contains(k) <==> p.succ(k as int).len() == 0),
    ensures
        p.represents(t),
        p.wf(),
{
    let n = t.len() as int;
    assert forall|i: int, j: usize| 0 <= i < n && j < n implies (#[trigger] p.succ(i).contains(j)
        <==> is_cover(t, t[i].bbox, t[j as int].bbox)) by {
        assert(lists(p.succ(i), n, |k: int| is_cover(t, t[i].bbox, t[k].bbox)));
    }
    assert forall|i: int, j: usize| 0 <= i < n && j < n implies (#[trigger] p.pred(i).contains(j)
        <==> is_cover(t, t[j as int].bbox, t[i].bbox)) by {
        assert(lists(p.pred(i), n, |k: int| is_cover(t, t[k].bbox, t[i].bbox)));
    }
    assert(p.represents(t));
    assert(p.lists_ok()) by {
        assert forall|i: int|
            #![trigger p.succ(i)]
            #![trigger p.pred(i)]
            0 <= i < p.size() implies {
            &&& increasing(p.succ(i))
            &&& below(p.succ(i), p.size())
            &&& increasing(p.pred(i))
            &&& below(p.pred(i), p.size())
        } by {
            assert(lists(p.succ(i), n, |k: int| is_cover(t, t[i].bbox, t[k].bbox)));
            assert(lists(p.pred(i), n, |k: int| is_cover(t, t[k].bbox, t[i].bbox)));
        }
    }
    assert(p.linked()) by {
        assert forall|i: usize, j: usize|
            #![trigger p.succ(i as int).contains(j)]
            #![trigger p.pred(j as int).contains(i)]
            i < p.size() && j < p.size() implies (p.succ(i as int).contains(j) <==> p.pred(
            j as int,
        ).contains(i)) by {
            assert(p.succ(i as int).contains(j) <==> is_cover(t, t[i as int].bbox, t[j as int].bbox));
            assert(p.pred(j as int).contains(i) <==> is_cover(t, t[i as int].bbox, t[j as int].bbox));
        }
    }
    assert(p.frontiers_ok());
    let d = Seq::new(t.len(), |i: int| (i64::MAX - t[i].bbox.top) as nat);
    assert(p.descends(d)) by {
        assert forall|i: int, a: int| 0 <= i < p.size() && 0 <= a < p.succ(i).len() implies d[(
        #[trigger] p.succ(i)[a]) as int] < d[i] by {
            let j = p.succ(i)[a];
            assert(lists(p.succ(i), n, |k: int| is_cover(t, t[i].bbox, t[k].bbox)));
            assert(p.succ(i).contains(j));
            assert(is_cover(t, t[i].bbox, t[j as int].bbox));
            lemma_precedes_descends(t[i].bbox, t[j as int].bbox);
        }
    }
}

/// Every edge of the cover graph of the fragments `t` leads from a fragment
/// to one that it precedes, and no fragment lies between the two.
pub proof fn lemma_edges_are_covers(p: &Poset, t: Seq<Fragment>)
    requires
        p.wf(),
        p.represents(t),
    ensures
        forall|i: int, a: int|
            0 <= i < p.size() && 0 <= a < p.succ(i).len() ==> {
                let j = (#[trigger] p.succ(i)[a]) as int;
                &&& t[i].bbox.precedes(t[j].bbox)
                &&& forall|k: int|
                    0 <= k < t.len() ==> !(t[i].bbox.precedes((#[trigger] t[k]).bbox)
                        && t[k].bbox.precedes(t[j].bbox))
            },
{
    assert forall|i: int, a: int| 0 <= i < p.size() && 0 <= a < p.succ(i).len() implies {
        let j = (#[trigger] p.succ(i)[a]) as int;
        &&& t[i].bbox.precedes(t[j].bbox)
        &&& forall|k: int|
            0 <= k < t.len() ==> !(t[i].bbox.precedes((#[trigger] t[k]).bbox) && t[k].bbox.precedes(
                t[j].bbox,
            ))
    } by {
        let j = p.succ(i)[a];
        assert(j < p.size());
        assert(p.succ(i).contains(j));
        assert(is_cover(t, t[i].bbox, t[j as int].bbox));
    }
}

/// Two increasing lists with the same entries are the same list.
pub proof fn lemma_increasing_equal(a: Seq<usize>, b: Seq<usize>)
    requires
        increasing(a),
        increasing(b),
        forall|x: usize| a.contains(x) <==> b.contains(x),
    ensures
        a == b,
    decreases a.len(),
{
    if a.len() == 0 {
        if b.len() > 0 {
            assert(b.contains(b[0]));
        }
        assert(a =~= b);
    } else {
        assert(a.contains(a.last()));
        let ib = choose|i: int| 0 <= i < b.len() && b[i] == a.last();
        assert(b.contains(b.last()));
        let ia = choose|i: int| 0 <= i < a.len() && a[i] == b.last();
        assert(a.last() == b.last());
        let a0 = a.drop_last();
        let b0 = b.drop_last();
        assert forall|x: usize| a0.contains(x) <==> b0.contains(x) by {
            if a0.contains(x) {
                let i = choose|i: int| 0 <= i < a0.len() && a0[i] == x;
                assert(a[i] == x);
                assert(a.contains(x));
                let j = choose|j: int| 0 <= j < b.len() && b[j] == x;
                assert(j < b.len() - 1);
                assert(b0[j] == x);
            }
            if b0.contains(x) {
                let i = choose|i: int| 0 <= i < b0.len() && b0[i] == x;
                assert(b[i] == x);
                assert(b.contains(x));
                let j = choose|j: int| 0 <= j < a.len() && a[j] == x;
                assert(j < a.len() - 1);
                assert(a0[j] == x);
            }
        }
        lemma_increasing_equal(a0, b0);
        assert(a =~= a0.push(a.last()));
        assert(b =~= b0.push(b.last()));
    }
}

/// The fragments determine the neighbour lists of their cover graph.
pub proof fn lemma_same_lists(p: &Poset, q: &Poset, t: Seq<Fragment>, i: int)
    requires
        p.wf(),
        q.wf(),
        p.represents(t),
        q.represents(t),
        0 <= i < t.len(),
    ensures
        p.succ(i) == q.succ(i),
        p.pred(i) == q.pred(i),
{
    assert forall|x: usize| p.succ(i).contains(x) <==> q.succ(i).contains(x) by {
        if p.succ(i).contains(x) {
            let a = choose|a: int| 0 <= a < p.succ(i).len() && p.succ(i)[a] == x;
            assert(p.succ(i)[a] < p.size());
        }
        if q.succ(i).contains(x) {
            let a = choose|a: int| 0 <= a < q.succ(i).len() && q.succ(i)[a] == x;
            assert(q.succ(i)[a] < q.size());
        }
    }
    assert forall|x: usize| p.pred(i).contains(x) <==> q.pred(i).contains(x) by {
        if p.pred(i).contains(x) {
            let a = choose|a: int| 0 <= a < p.pred(i).len() && p.pred(i)[a] == x;
            assert(p.pred(i)[a] < p.size());
        }
        if q.pred(i).contains(x) {
            let a = choose|a: int| 0 <= a < q.pred(i).len() && q.pred(i)[a] == x;
            assert(q.pred(i)[a] < q.size());
        }
    }
    lemma_increasing_equal(p.succ(i), q.succ(i));
    lemma_increasing_equal(p.pred(i), q.pred(i));
}

/// Whether `x2` is a direct successor of `x1` among the fragments `t`.
pub fn is_succ(t: &[Fragment], x1: &Fragment, x2: &Fragment) -> (b: bool)
    ensures
        b == is_cover(t@, x1.bbox, x2.bbox),
{
    if !x1.bbox.lt(&x2.bbox) {
        return false;
    }
    for i in 0..t.len()
        invariant
            x1.bbox.precedes(x2.bbox),
            forall|k: int|
                0 <= k < i ==> !(x1.bbox.precedes((#[trigger] t@[k]).bbox) && t@[k].bbox.precedes(
                    x2.bbox,
                )),
    {
        if x1.bbox.lt(&t[i].bbox) && t[i].bbox.lt(&x2.bbox) {
            return false;
        }
    }
    true
}

/// Whether `x2` is a direct predecessor of `x1` among the fragments `t`.
pub fn is_pred(t: &[Fragment], x1: &Fragment, x2: &Fragment) -> (b: bool)
    ensures
        b == is_cover(t@, x2.bbox, x1.bbox),
{
    is_succ(t, x2, x1)
}

} // verus!
