//! The decomposition is a partition: every node lies at exactly one place of
//! exactly one chain.

use crate::chains::{chains_of, lemma_chains_of};
use crate::fragment::Fragment;
use crate::poset::Poset;
use vstd::prelude::*;

verus! {

/// The index `v` stands at some place of some chain.
pub open spec fn occurs(chains: Seq<Seq<usize>>, v: usize) -> bool {
    exists|c: int, k: int|
        0 <= c < chains.len() && 0 <= k < chains[c].len() && #[trigger] chains[c][k] == v
}

/// Every entry of the chains is below `n`, every index below `n` occurs in
/// them, and no index occurs at two places.
pub open spec fn covers_once(chains: Seq<Seq<usize>>, n: int) -> bool {
    &&& forall|c: int, k: int|
        0 <= c < chains.len() && 0 <= k < chains[c].len() ==> (#[trigger] chains[c][k]) < n
    &&& forall|v: usize| v < n ==> #[trigger] occurs(chains, v)
    &&& forall|c1: int, k1: int, c2: int, k2: int|
        0 <= c1 < chains.len() && 0 <= k1 < chains[c1].len() && 0 <= c2 < chains.len() && 0 <= k2
            < chains[c2].len() && #[trigger] chains[c1][k1] == #[trigger] chains[c2][k2] ==> c1
            == c2 && k1 == k2
}

/// Every entry of the concatenation of the chains is an entry of a chain.
proof fn lemma_flatten_member(chains: Seq<Seq<usize>>, i: int) -> (r: (int, int))
    requires
        0 <= i < chains.flatten().len(),
    ensures
        0 <= r.0 < chains.len(),
        0 <= r.1 < chains[r.0].len(),
        chains[r.0][r.1] == chains.flatten()[i],
    decreases chains.len(),
{
    let rest = chains.drop_first();
    if i < chains.first().len() {
        (0, i)
    } else {
        let (c, k) = lemma_flatten_member(rest, i - chains.first().len());
        (c + 1, k)
    }
}

/// Every entry of a chain is an entry of the concatenation of the chains.
proof fn lemma_flatten_contains(chains: Seq<Seq<usize>>, c: int, k: int)
    requires
        0 <= c < chains.len(),
        0 <= k < chains[c].len(),
    ensures
        chains.flatten().contains(chains[c][k]),
    decreases chains.len(),
{
    let rest = chains.drop_first();
    if c == 0 {
        assert(chains.flatten()[k] == chains[c][k]);
    } else {
        lemma_flatten_contains(rest, c - 1, k);
        let i = choose|i: int| 0 <= i < rest.flatten().len() && rest.flatten()[i] == rest[c - 1][k];
        assert(chains.flatten()[chains.first().len() + i] == chains[c][k]);
    }
}

/// Chains of which no two places hold the same index concatenate to a
/// sequence without duplicates.
proof fn lemma_flatten_no_duplicates(chains: Seq<Seq<usize>>)
    requires
        forall|c1: int, k1: int, c2: int, k2: int|
            0 <= c1 < chains.len() && 0 <= k1 < chains[c1].len() && 0 <= c2 < chains.len() && 0
                <= k2 < chains[c2].len() && #[trigger] chains[c1][k1]
                == #[trigger] chains[c2][k2] ==> c1 == c2 && k1 == k2,
    ensures
        chains.flatten().no_duplicates(),
    decreases chains.len(),
{
    if chains.len() > 0 {
        let front = chains.drop_last();
        let last = chains.last();
        assert(chains =~= front.push(last));
        front.lemma_flatten_push(last);
        assert forall|c1: int, k1: int, c2: int, k2: int|
            0 <= c1 < front.len() && 0 <= k1 < front[c1].len() && 0 <= c2 < front.len() && 0 <= k2
                < front[c2].len() && #[trigger] front[c1][k1]
                == #[trigger] front[c2][k2] implies c1 == c2 && k1 == k2 by {
            assert(chains[c1][k1] == chains[c2][k2]);
        }
        lemma_flatten_no_duplicates(front);
        assert forall|i: int, j: int| 0 <= i < last.len() && 0 <= j < last.len() && i
            != j implies last[i] != last[j] by {
            let c = chains.len() - 1;
            assert(chains[c][i] == last[i] && chains[c][j] == last[j]);
        }
        assert forall|i: int, j: int| 0 <= i < front.flatten().len() && 0 <= j
            < last.len() implies front.flatten()[i] != last[j] by {
            let (c, k) = lemma_flatten_member(front, i);
            let d = chains.len() - 1;
            assert(chains[c][k] == front.flatten()[i] && chains[d][j] == last[j]);
        }
        vstd::seq_lib::lemma_no_dup_in_concat(front.flatten(), last);
    }
}

/// The largest entry of `d`, zero for the empty sequence.
spec fn height(d: Seq<nat>) -> nat
    decreases d.len(),
{
    if d.len() == 0 {
        0
    } else if d.last() >= height(d.drop_last()) {
        d.last()
    } else {
        height(d.drop_last())
    }
}

proof fn lemma_height_bounds(d: Seq<nat>, i: int)
    requires
        0 <= i < d.len(),
    ensures
        d[i] <= height(d),
    decreases d.len(),
{
    if i < d.len() - 1 {
        lemma_height_bounds(d.drop_last(), i);
    }
}

impl Poset {
    /// By how much the branches of node `i` stand behind the start of its chains.
    spec fn branch_shift(&self, i: usize) -> int {
        if self.pred(i as int).len() != 1 && self.succ(i as int).len() > 1 {
            1
        } else {
            0
        }
    }

    /// By how much an extension stands behind the start of its chain at node `i`.
    spec fn head_shift(&self, i: usize) -> int {
        if self.pred(i as int).len() != 1 && self.succ(i as int).len() == 1 {
            1
        } else {
            0
        }
    }

    /// An extension is empty or starts with the node it was asked from.
    proof fn lemma_extension_first(&self, s: usize)
        requires
            self.wf(),
            s < self.size(),
        ensures
            self.extension(s).len() > 0 <==> self.pred(s as int).len() == 1,
            self.extension(s).len() > 0 ==> self.extension(s)[0] == s,
    {
    }

    /// What stands at place `k` of an extension, and how it follows from the
    /// place before and leads to the place after.
    proof fn lemma_extension_members(&self, s: usize, k: int)
        requires
            self.wf(),
            s < self.size(),
            0 <= k < self.extension(s).len(),
        ensures
            self.extension(s)[k] < self.size(),
            self.pred(self.extension(s)[k] as int).len() == 1,
            k == 0 ==> self.extension(s)[0] == s,
            k > 0 ==> self.pass_through(self.extension(s)[k - 1] as int) && self.extension(s)[k]
                == self.succ(self.extension(s)[k - 1] as int)[0],
            self.pass_through(self.extension(s)[k] as int) && self.pred(
                self.succ(self.extension(s)[k] as int)[0] as int,
            ).len() == 1 ==> k + 1 < self.extension(s).len() && self.extension(s)[k + 1]
                == self.succ(self.extension(s)[k] as int)[0],
        decreases k,
    {
        if self.pass_through(s as int) {
            let s2 = self.succ(s as int)[0];
            assert(s2 < self.size());
            assert(self.extension(s) == seq![s] + self.extension(s2));
            self.lemma_extension_first(s2);
            if k > 0 {
                self.lemma_extension_members(s2, k - 1);
                assert(self.extension(s)[k] == self.extension(s2)[k - 1]);
                if k > 1 {
                    assert(self.extension(s)[k - 1] == self.extension(s2)[k - 2]);
                }
                if k + 1 < self.extension(s).len() {
                    assert(self.extension(s)[k + 1] == self.extension(s2)[k]);
                }
            } else {
                if self.extension(s2).len() > 0 {
                    assert(self.extension(s)[1] == self.extension(s2)[0]);
                }
            }
        }
    }

    /// A node with one predecessor has as that predecessor every node that it succeeds.
    proof fn lemma_only_pred(&self, u: usize, v: usize)
        requires
            self.wf(),
            u < self.size(),
            v < self.size(),
            self.succ(u as int).contains(v),
            self.pred(v as int).len() == 1,
        ensures
            self.pred(v as int)[0] == u,
    {
        assert(self.pred(v as int).contains(u));
    }

    /// Two places in extensions from successors of nodes that are not
    /// pass-through hold the same node only if they are the same place.
    proof fn lemma_extension_unique(
        &self,
        i1: usize,
        j1: int,
        k1: int,
        i2: usize,
        j2: int,
        k2: int,
    )
        requires
            self.wf(),
            i1 < self.size(),
            i2 < self.size(),
            !self.pass_through(i1 as int),
            !self.pass_through(i2 as int),
            0 <= j1 < self.succ(i1 as int).len(),
            0 <= j2 < self.succ(i2 as int).len(),
            0 <= k1 < self.extension(self.succ(i1 as int)[j1]).len(),
            0 <= k2 < self.extension(self.succ(i2 as int)[j2]).len(),
            self.extension(self.succ(i1 as int)[j1])[k1] == self.extension(
                self.succ(i2 as int)[j2],
            )[k2],
        ensures
            i1 == i2,
            j1 == j2,
            k1 == k2,
        decreases k1,
    {
        let s1 = self.succ(i1 as int)[j1];
        let s2 = self.succ(i2 as int)[j2];
        let v = self.extension(s1)[k1];
        assert(s1 < self.size());
        assert(s2 < self.size());
        assert(self.succ(i1 as int).contains(s1));
        assert(self.succ(i2 as int).contains(s2));
        self.lemma_extension_members(s1, k1);
        self.lemma_extension_members(s2, k2);
        if k1 == 0 {
            self.lemma_only_pred(i1, v);
            if k2 > 0 {
                let u = self.extension(s2)[k2 - 1];
                self.lemma_extension_members(s2, k2 - 1);
                assert(self.succ(u as int).contains(v));
                self.lemma_only_pred(u, v);
            } else {
                self.lemma_only_pred(i2, v);
            }
        } else {
            let u1 = self.extension(s1)[k1 - 1];
            self.lemma_extension_members(s1, k1 - 1);
            assert(self.succ(u1 as int).contains(v));
            self.lemma_only_pred(u1, v);
            if k2 == 0 {
                self.lemma_only_pred(i2, v);
            } else {
                let u2 = self.extension(s2)[k2 - 1];
                self.lemma_extension_members(s2, k2 - 1);
                assert(self.succ(u2 as int).contains(v));
                self.lemma_only_pred(u2, v);
                self.lemma_extension_unique(i1, j1, k1 - 1, i2, j2, k2 - 1);
            }
        }
    }

    /// A node with one predecessor stands in the extension from a successor
    /// of some node that is not pass-through.
    proof fn lemma_slot_exists(&self, v: usize) -> (r: (usize, int, int))
        requires
            self.wf(),
            v < self.size(),
            self.pred(v as int).len() == 1,
        ensures
            r.0 < self.size(),
            !self.pass_through(r.0 as int),
            0 <= r.1 < self.succ(r.0 as int).len(),
            0 <= r.2 < self.extension(self.succ(r.0 as int)[r.1]).len(),
            self.extension(self.succ(r.0 as int)[r.1])[r.2] == v,
        decreases height(self.depth()) - self.depth()[v as int],
    {
        self.lemma_depth_descends();
        let u = self.pred(v as int)[0];
        assert(u < self.size());
        assert(self.pred(v as int).contains(u));
        assert(self.succ(u as int).contains(v));
        let a = choose|a: int| 0 <= a < self.succ(u as int).len() && self.succ(u as int)[a] == v;
        self.lemma_extension_first(v);
        lemma_height_bounds(self.depth(), u as int);
        if !self.pass_through(u as int) {
            (u, a, 0)
        } else {
            let (i, j, k) = self.lemma_slot_exists(u);
            self.lemma_extension_members(self.succ(i as int)[j], k);
            (i, j, k + 1)
        }
    }

    /// Where a place of an extension stands among the chains of its node.
    proof fn lemma_slot_place(&self, i: usize, j: int, k: int)
        requires
            self.wf(),
            i < self.size(),
            !self.pass_through(i as int),
            0 <= j < self.succ(i as int).len(),
            0 <= k < self.extension(self.succ(i as int)[j]).len(),
        ensures
            j + self.branch_shift(i) < self.node_chains(i).len(),
            k + self.head_shift(i) < self.node_chains(i)[j + self.branch_shift(i)].len(),
            self.node_chains(i)[j + self.branch_shift(i)][k + self.head_shift(i)]
                == self.extension(self.succ(i as int)[j])[k],
    {
    }

    /// What a place among the chains of node `i` holds: the node itself, at
    /// the head of its first chain, or a place of an extension from one of its successors.
    proof fn lemma_place_slot(&self, i: usize, b: int, k: int) -> (r: (bool, int, int))
        requires
            self.wf(),
            i < self.size(),
            0 <= b < self.node_chains(i).len(),
            0 <= k < self.node_chains(i)[b].len(),
        ensures
            r.0 ==> self.pred(i as int).len() != 1 && b == 0 && k == 0 && self.node_chains(i)[b][k]
                == i,
            !r.0 ==> {
                &&& !self.pass_through(i as int)
                &&& 0 <= r.1 < self.succ(i as int).len()
                &&& 0 <= r.2 < self.extension(self.succ(i as int)[r.1]).len()
                &&& self.node_chains(i)[b][k] == self.extension(self.succ(i as int)[r.1])[r.2]
                &&& b == r.1 + self.branch_shift(i)
                &&& k == r.2 + self.head_shift(i)
            },
    {
        if self.pred(i as int).len() != 1 && b == 0 && k == 0 {
            (true, 0, 0)
        } else {
            (false, b - self.branch_shift(i), k - self.head_shift(i))
        }
    }

    /// The node and the number among its chains of the `c`-th chain emitted
    /// before node `upto`.
    proof fn lemma_locate(&self, c: int, upto: nat) -> (r: (usize, int))
        requires
            0 <= c < self.chains_before(upto).len(),
            upto <= self.size(),
        ensures
            r.0 < upto,
            0 <= r.1 < self.node_chains(r.0).len(),
            c == self.chains_before(r.0 as nat).len() + r.1,
            self.chains_before(upto)[c] == self.node_chains(r.0)[r.1],
        decreases upto,
    {
        assert(self.elements.len() == self.size());
        let before = self.chains_before((upto - 1) as nat);
        if c < before.len() {
            self.lemma_locate(c, (upto - 1) as nat)
        } else {
            ((upto - 1) as usize, c - before.len())
        }
    }

    /// Every member of a chain but the first is a direct successor of the
    /// member before it.
    pub proof fn lemma_chains_linked(&self)
        requires
            self.wf(),
        ensures
            forall|c: int, k: int|
                0 <= c < self.chains().len() && 0 < k < self.chains()[c].len() ==> self.succ(
                    self.chains()[c][k - 1] as int,
                ).contains(#[trigger] self.chains()[c][k]),
    {
        let chains = self.chains();
        let n = self.size();
        assert(self.elements.len() == n);
        assert forall|c: int, k: int| 0 <= c < chains.len() && 0 < k < chains[c].len() implies self.succ(
            chains[c][k - 1] as int,
        ).contains(#[trigger] chains[c][k]) by {
            let (i, b) = self.lemma_locate(c, n as nat);
            let (_, j, e) = self.lemma_place_slot(i, b, k);
            let (head, j0, e0) = self.lemma_place_slot(i, b, k - 1);
            let s = self.succ(i as int)[j];
            assert(s < n);
            self.lemma_extension_members(s, e);
            if head {
                assert(chains[c][k] == s);
            } else {
                self.lemma_extension_members(s, e0);
                let u = chains[c][k - 1];
                assert(self.succ(u as int)[0] == chains[c][k]);
            }
        }
    }

    /// Along every chain of the graph of the fragments `t`, each member
    /// comes before the next in reading order.
    pub proof fn lemma_chains_ordered(&self, t: Seq<Fragment>)
        requires
            self.wf(),
            self.represents(t),
        ensures
            forall|c: int, k: int|
                0 <= c < self.chains().len() && 0 < k < self.chains()[c].len() ==> t[self.chains()[c][k
                    - 1] as int].bbox.precedes(t[(#[trigger] self.chains()[c][k]) as int].bbox),
    {
        let chains = self.chains();
        self.lemma_chains_linked();
        self.lemma_chains_partition();
        assert forall|c: int, k: int| 0 <= c < chains.len() && 0 < k < chains[c].len() implies t[chains[c][k
            - 1] as int].bbox.precedes(t[(#[trigger] chains[c][k]) as int].bbox) by {
            let u = chains[c][k - 1];
            let v = chains[c][k];
            assert(u < self.size() && v < self.size());
            assert(self.succ(u as int).contains(v));
        }
    }

    /// Counted over all chains of the decomposition, every node occurs exactly once.
    pub proof fn lemma_chains_count(&self)
        requires
            self.wf(),
        ensures
            forall|v: usize|
                v < self.size() ==> #[trigger] self.chains().flatten().to_multiset().count(v) == 1,
    {
        let chains = self.chains();
        let flat = chains.flatten();
        self.lemma_chains_partition();
        lemma_flatten_no_duplicates(chains);
        flat.lemma_multiset_has_no_duplicates();
        assert forall|v: usize| v < self.size() implies #[trigger] flat.to_multiset().count(v)
            == 1 by {
            assert(occurs(chains, v));
            let (c, k) = choose|c: int, k: int|
                0 <= c < chains.len() && 0 <= k < chains[c].len() && #[trigger] chains[c][k] == v;
            lemma_flatten_contains(chains, c, k);
            vstd::seq_lib::to_multiset_contains(flat, v);
        }
    }

    /// Counted over all chains into which the fragments `t` decompose, every
    /// fragment occurs exactly once.
    pub proof fn lemma_fragments_count(&self, t: Seq<Fragment>)
        requires
            self.wf(),
            self.represents(t),
        ensures
            forall|v: usize|
                v < t.len() ==> #[trigger] chains_of(t).flatten().to_multiset().count(v) == 1,
    {
        self.lemma_chains_count();
        lemma_chains_of(self, t);
    }

    /// Every node lies at exactly one place of exactly one chain of the decomposition.
    pub proof fn lemma_chains_partition(&self)
        requires
            self.wf(),
        ensures
            covers_once(self.chains(), self.size()),
    {
        let chains = self.chains();
        let n = self.size();
        assert(self.elements.len() == n);
        assert forall|c: int, k: int| 0 <= c < chains.len() && 0 <= k < chains[c].len() implies (
        #[trigger] chains[c][k]) < n by {
            let (i, b) = self.lemma_locate(c, n as nat);
            let (head, j, e) = self.lemma_place_slot(i, b, k);
            if !head {
                self.lemma_extension_members(self.succ(i as int)[j], e);
            }
        }
        assert forall|v: usize| v < n implies #[trigger] occurs(chains, v) by {
            if self.pred(v as int).len() != 1 {
                self.lemma_chain_at(v, 0);
                let c = self.chains_before(v as nat).len() as int;
                assert(chains[c][0] == v);
            } else {
                let (i, j, e) = self.lemma_slot_exists(v);
                self.lemma_slot_place(i, j, e);
                let b = j + self.branch_shift(i);
                let k = e + self.head_shift(i);
                self.lemma_chain_at(i, b);
                let c = self.chains_before(i as nat).len() + b;
                assert(chains[c][k] == v);
            }
        }
        assert forall|c1: int, k1: int, c2: int, k2: int|
            0 <= c1 < chains.len() && 0 <= k1 < chains[c1].len() && 0 <= c2 < chains.len() && 0
                <= k2 < chains[c2].len() && #[trigger] chains[c1][k1]
                == #[trigger] chains[c2][k2] implies c1 == c2 && k1 == k2 by {
            let (i1, b1) = self.lemma_locate(c1, n as nat);
            let (i2, b2) = self.lemma_locate(c2, n as nat);
            let (head1, j1, e1) = self.lemma_place_slot(i1, b1, k1);
            let (head2, j2, e2) = self.lemma_place_slot(i2, b2, k2);
            if !head1 {
                self.lemma_extension_members(self.succ(i1 as int)[j1], e1);
            }
            if !head2 {
                self.lemma_extension_members(self.succ(i2 as int)[j2], e2);
            }
            if !head1 && !head2 {
                self.lemma_extension_unique(i1, j1, e1, i2, j2, e2);
            }
        }
    }
}

} // verus!
