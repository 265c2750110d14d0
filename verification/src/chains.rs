//! Decomposition of the cover graph into chains.
//!
//! The nodes are visited in increasing order. A node with other than one
//! predecessor starts a chain. A node with several successors starts one more
//! chain for each of them. A node with exactly one predecessor belongs to the
//! chain that reaches it from that predecessor.

use crate::fragment::Fragment;
use crate::poset::{lemma_same_lists, Poset};
use vstd::prelude::*;

verus! {

impl Poset {
    /// A depth for every node that falls along every edge.
    pub closed spec fn depth(&self) -> Seq<nat> {
        choose|d: Seq<nat>| self.descends(d)
    }

    /// Node `i` has exactly one predecessor and exactly one successor.
    pub open spec fn pass_through(&self, i: int) -> bool {
        self.pred(i).len() == 1 && self.succ(i).len() == 1
    }

    /// The run of nodes that a chain takes up from `from` on: the pass-through
    /// nodes that follow each other from `from`, and the node at which they
    /// stop if it has exactly one predecessor.
    pub open spec fn extension(&self, from: usize) -> Seq<usize>
        decreases self.depth()[from as int],
        when self.wf() && from < self.size()
    {
        if self.pass_through(from as int) {
            seq![from] + self.extension(self.succ(from as int)[0])
        } else if self.pred(from as int).len() == 1 {
            seq![from]
        } else {
            seq![]
        }
    }

    /// One extension for each successor of node `i`, in the order of the successors.
    pub open spec fn branches(&self, i: usize) -> Seq<Seq<usize>> {
        Seq::new(self.succ(i as int).len(), |k: int| self.extension(self.succ(i as int)[k]))
    }

    /// The chains that are emitted while the traversal stands at node `i`.
    pub open spec fn node_chains(&self, i: usize) -> Seq<Seq<usize>> {
        let preds = self.pred(i as int).len();
        let succs = self.succ(i as int).len();
        if preds == 1 {
            if succs <= 1 {
                seq![]
            } else {
                self.branches(i)
            }
        } else {
            if succs == 0 {
                seq![seq![i]]
            } else if succs == 1 {
                seq![seq![i] + self.extension(self.succ(i as int)[0])]
            } else {
                seq![seq![i]] + self.branches(i)
            }
        }
    }

    /// The chains that are emitted before the traversal reaches node `i`.
    pub open spec fn chains_before(&self, i: nat) -> Seq<Seq<usize>>
        decreases i,
    {
        if i == 0 {
            seq![]
        } else {
            self.chains_before((i - 1) as nat) + self.node_chains((i - 1) as usize)
        }
    }

    /// All chains of the decomposition, in the order in which they are emitted.
    pub open spec fn chains(&self) -> Seq<Seq<usize>> {
        self.chains_before(self.size() as nat)
    }

    /// The chosen depth falls along every edge.
    pub proof fn lemma_depth_descends(&self)
        requires
            self.wf(),
        ensures
            self.descends(self.depth()),
    {
    }

    /// The chains emitted before node `i` stay in front when more nodes are visited.
    pub proof fn lemma_chains_prefix(&self, i: nat, j: nat)
        requires
            i <= j,
        ensures
            self.chains_before(i).len() <= self.chains_before(j).len(),
            forall|k: int|
                0 <= k < self.chains_before(i).len() ==> self.chains_before(j)[k]
                    == self.chains_before(i)[k],
        decreases j,
    {
        if i < j {
            self.lemma_chains_prefix(i, (j - 1) as nat);
        }
    }

    /// The `b`-th chain of node `i` stands in the whole decomposition behind
    /// the chains of the nodes before `i`.
    pub proof fn lemma_chain_at(&self, i: usize, b: int)
        requires
            i < self.size(),
            0 <= b < self.node_chains(i).len(),
        ensures
            self.chains_before(i as nat).len() + b < self.chains().len(),
            self.chains()[self.chains_before(i as nat).len() + b] == self.node_chains(i)[b],
    {
        self.lemma_chains_prefix((i + 1) as nat, self.size() as nat);
        assert(self.chains_before((i + 1) as nat) == self.chains_before(i as nat)
            + self.node_chains(i));
    }

    /// Appends to `chain` the extension from node `from`.
    pub fn extend_chain(&self, chain: &mut Vec<usize>, from: usize)
        requires
            self.wf(),
            from < self.size(),
        ensures
            final(chain)@ == old(chain)@ + self.extension(from),
    {
        let mut next = from;
        while self.elements[next].predecessors.len() == 1 && self.elements[next].successors.len()
            == 1
            invariant
                self.wf(),
                next < self.size(),
                chain@ + self.extension(next) == old(chain)@ + self.extension(from),
            decreases self.depth()[next as int],
        {
            proof {
                self.lemma_depth_descends();
                assert(self.succ(next as int)[0] < self.size());
                assert((chain@.push(next)) + self.extension(self.succ(next as int)[0]) =~= chain@
                    + self.extension(next));
            }
            chain.push(next);
            next = self.elements[next].successors[0];
        }
        if self.elements[next].predecessors.len() == 1 {
            chain.push(next);
        }
        assert(chain@ =~= old(chain)@ + self.extension(from));
    }
}

/// Two cover graphs of the same fragments have the same extensions.
proof fn lemma_same_extension(p: &Poset, q: &Poset, t: Seq<Fragment>, from: usize)
    requires
        p.wf(),
        q.wf(),
        p.represents(t),
        q.represents(t),
        from < t.len(),
    ensures
        p.extension(from) == q.extension(from),
    decreases p.depth()[from as int],
{
    p.lemma_depth_descends();
    lemma_same_lists(p, q, t, from as int);
    if p.pass_through(from as int) {
        let next = p.succ(from as int)[0];
        assert(next < p.size());
        lemma_same_extension(p, q, t, next);
    }
}

/// Two cover graphs of the same fragments have the same chains up to each node.
proof fn lemma_same_chains_before(p: &Poset, q: &Poset, t: Seq<Fragment>, i: nat)
    requires
        p.wf(),
        q.wf(),
        p.represents(t),
        q.represents(t),
        i <= t.len(),
    ensures
        p.chains_before(i) == q.chains_before(i),
    decreases i,
{
    if i > 0 {
        lemma_same_chains_before(p, q, t, (i - 1) as nat);
        assert(p.elements.len() == p.size());
        let v = (i - 1) as usize;
        lemma_same_lists(p, q, t, v as int);
        assert(p.branches(v) =~= q.branches(v)) by {
            assert forall|k: int| 0 <= k < p.succ(v as int).len() implies p.extension(
                p.succ(v as int)[k],
            ) == q.extension(q.succ(v as int)[k]) by {
                assert(p.succ(v as int)[k] < p.size());
                lemma_same_extension(p, q, t, p.succ(v as int)[k]);
            }
        }
        if p.succ(v as int).len() == 1 {
            assert(p.succ(v as int)[0] < p.size());
            lemma_same_extension(p, q, t, p.succ(v as int)[0]);
        }
        assert(p.node_chains(v) == q.node_chains(v));
    }
}

/// The fragments determine the chains: two cover graphs of the same
/// fragments decompose into the same chains.
pub proof fn lemma_same_chains(p: &Poset, q: &Poset, t: Seq<Fragment>)
    requires
        p.wf(),
        q.wf(),
        p.represents(t),
        q.represents(t),
    ensures
        p.chains() == q.chains(),
{
    lemma_same_chains_before(p, q, t, t.len());
}

/// The chains into which the cover graph of the fragments `t` decomposes.
pub open spec fn chains_of(t: Seq<Fragment>) -> Seq<Seq<usize>> {
    let p = choose|p: Poset| p.represents(t) && p.wf();
    p.chains()
}

/// The chains of a cover graph of the fragments `t` are the chains of `t`.
pub proof fn lemma_chains_of(p: &Poset, t: Seq<Fragment>)
    requires
        p.wf(),
        p.represents(t),
    ensures
        p.chains() == chains_of(t),
{
    let q = choose|q: Poset| q.represents(t) && q.wf();
    lemma_same_chains(p, &q, t);
}

/// The chains that a list of vectors holds.
pub open spec fn views(v: Seq<Vec<usize>>) -> Seq<Seq<usize>> {
    Seq::new(v.len(), |k: int| v[k]@)
}

impl Poset {
    /// All chains of the decomposition at once.
    pub fn shrink_poset(&self) -> (out: Vec<Vec<usize>>)
        requires
            self.wf(),
        ensures
            views(out@) == self.chains(),
    {
        let mut out: Vec<Vec<usize>> = Vec::new();
        let n = self.elements.len();
        assert(views(out@) =~= self.chains_before(0));
        for i in 0..n
            invariant
                self.wf(),
                n == self.size(),
                views(out@) == self.chains_before(i as nat),
        {
            let preds = self.elements[i].predecessors.len();
            let succs = self.elements[i].successors.len();
            let ghost before = self.chains_before(i as nat);
            assert(self.chains_before((i + 1) as nat) == before + self.node_chains(i));
            if preds == 1 && succs <= 1 {
                assert(views(out@) =~~= before + self.node_chains(i));
            } else if succs == 0 {
                out.push(vec![i]);
                assert(views(out@) =~~= before + self.node_chains(i));
            } else if succs == 1 {
                let mut chain = vec![i];
                self.extend_chain(&mut chain, self.elements[i].successors[0]);
                out.push(chain);
                assert(views(out@) =~~= before + self.node_chains(i));
            } else {
                if preds != 1 {
                    out.push(vec![i]);
                }
                let ghost head: Seq<Seq<usize>> = if preds != 1 {
                    seq![seq![i]]
                } else {
                    seq![]
                };
                assert(views(out@) =~~= before + head);
                for k in 0..succs
                    invariant
                        self.wf(),
                        i < n == self.size(),
                        succs == self.succ(i as int).len(),
                        views(out@) == before + head + self.branches(i).take(k as int),
                {
                    let mut chain: Vec<usize> = Vec::new();
                    assert(self.succ(i as int)[k as int] < self.size());
                    self.extend_chain(&mut chain, self.elements[i].successors[k]);
                    let ghost done = views(out@);
                    out.push(chain);
                    proof {
                        assert(chain@ =~= self.branches(i)[k as int]);
                        assert(views(out@) =~= done.push(chain@));
                        assert(self.branches(i).take(k + 1) =~= self.branches(i).take(k as int).push(
                            self.branches(i)[k as int],
                        ));
                        assert(views(out@) =~= before + head + self.branches(i).take(k + 1));
                    }
                }
                assert(views(out@) =~~= before + self.node_chains(i));
            }
        }
        out
    }

    /// A traversal that stands before the first chain.
    pub fn chain_iter<'a>(&'a self) -> (it: ChainIterator<'a>)
        requires
            self.wf(),
        ensures
            it.wf(),
            it.poset() == *self,
            it.emitted() == 0,
    {
        ChainIterator { poset: self, node_index: 0, pending_branch: None }
    }
}

/// A traversal of the decomposition: a cursor over the nodes and, while the
/// branches of a node with several successors are emitted, the number of the
/// branch that comes next.
pub struct ChainIterator<'a> {
    poset: &'a Poset,
    node_index: usize,
    pending_branch: Option<usize>,
}

impl<'a> ChainIterator<'a> {
    /// The graph that is traversed.
    pub closed spec fn poset(&self) -> Poset {
        *self.poset
    }

    /// The cursor stands at a node or behind the last one, and a pending
    /// branch is a branch of the node at the cursor.
    pub closed spec fn wf(&self) -> bool {
        &&& self.poset.wf()
        &&& self.node_index <= self.poset.size()
        &&& match self.pending_branch {
            None => true,
            Some(m) => {
                &&& self.node_index < self.poset.size()
                &&& self.poset.succ(self.node_index as int).len() > 1
                &&& m < self.poset.succ(self.node_index as int).len()
            },
        }
    }

    /// The number of chains that the traversal has handed out.
    pub closed spec fn emitted(&self) -> nat {
        let before = self.poset.chains_before(self.node_index as nat).len();
        match self.pending_branch {
            None => before,
            Some(m) => if self.poset.pred(self.node_index as int).len() == 1 {
                before + m as nat
            } else {
                before + m as nat + 1
            },
        }
    }

    /// Hands out the next chain of the decomposition, `None` when all are out.
    pub fn next(&mut self) -> (r: Option<Vec<usize>>)
        requires
            old(self).wf(),
        ensures
            final(self).wf(),
            final(self).poset() == old(self).poset(),
            match r {
                Some(c) => {
                    &&& old(self).emitted() < old(self).poset().chains().len()
                    &&& c@ == old(self).poset().chains()[old(self).emitted() as int]
                    &&& final(self).emitted() == old(self).emitted() + 1
                },
                None => {
                    &&& old(self).emitted() == old(self).poset().chains().len()
                    &&& final(self).emitted() == old(self).emitted()
                },
            },
    {
        let poset: &Poset = self.poset;
        let n = poset.elements.len();
        let ghost start = self.node_index;
        while self.node_index < n && poset.elements[self.node_index].predecessors.len() == 1
            && poset.elements[self.node_index].successors.len() <= 1
            invariant
                poset.wf(),
                n == poset.size(),
                *poset == *old(self).poset,
                *self.poset == *poset,
                self.pending_branch == old(self).pending_branch,
                self.wf(),
                self.pending_branch is Some ==> self.node_index == start,
                poset.chains_before(self.node_index as nat) == poset.chains_before(start as nat),
                start == old(self).node_index,
            decreases n - self.node_index,
        {
            proof {
                let i = self.node_index;
                assert(poset.chains_before((i + 1) as nat) =~= poset.chains_before(i as nat)
                    + poset.node_chains(i));
            }
            self.node_index += 1;
        }
        if self.node_index >= n {
            return None;
        }
        let i = self.node_index;
        let preds = poset.elements[i].predecessors.len();
        let succs = poset.elements[i].successors.len();
        let ghost before = poset.chains_before(i as nat);
        proof {
            assert(poset.chains_before((i + 1) as nat) == before + poset.node_chains(i));
        }
        if succs == 0 {
            let chain = vec![i];
            proof {
                poset.lemma_chain_at(i, 0);
            }
            self.node_index += 1;
            self.pending_branch = None;
            Some(chain)
        } else if succs == 1 {
            let mut chain = vec![i];
            poset.extend_chain(&mut chain, poset.elements[i].successors[0]);
            proof {
                poset.lemma_chain_at(i, 0);
            }
            self.node_index += 1;
            self.pending_branch = None;
            Some(chain)
        } else if preds != 1 {
            match self.pending_branch {
                None => {
                    proof {
                        poset.lemma_chain_at(i, 0);
                    }
                    self.pending_branch = Some(0);
                    Some(vec![i])
                },
                Some(m) => {
                    let mut chain: Vec<usize> = Vec::new();
                    assert(poset.succ(i as int)[m as int] < poset.size());
                    poset.extend_chain(&mut chain, poset.elements[i].successors[m]);
                    proof {
                        poset.lemma_chain_at(i, m + 1);
                        assert(chain@ =~= poset.node_chains(i)[m + 1]);
                    }
                    if m + 1 < succs {
                        self.pending_branch = Some(m + 1);
                    } else {
                        self.pending_branch = None;
                        self.node_index += 1;
                    }
                    Some(chain)
                },
            }
        } else {
            let m = match self.pending_branch {
                None => 0,
                Some(m) => m,
            };
            let mut chain: Vec<usize> = Vec::new();
            assert(poset.succ(i as int)[m as int] < poset.size());
            poset.extend_chain(&mut chain, poset.elements[i].successors[m]);
            proof {
                poset.lemma_chain_at(i, m as int);
                assert(chain@ =~= poset.node_chains(i)[m as int]);
            }
            if m + 1 < succs {
                self.pending_branch = Some(m + 1);
            } else {
                self.pending_branch = None;
                self.node_index += 1;
            }
            Some(chain)
        }
    }
}

} // verus!
