//! Checking the shape of a document.

use crate::interface::Handle;
use crate::laws::law_way_up_is_short;
use crate::model::DomView;
use crate::rcdom::{NodeData, RcDom};
use crate::selectedcontent::lemma_no_later_ancestor;
use vstd::prelude::*;

verus! {

/// Whether every child of `h` is among `done`.
spec fn children_done(d: DomView, h: Handle, done: Seq<bool>) -> bool {
    forall|i: int| 0 <= i < d.children(h).len() ==> done[(#[trigger] d.children(h)[i]).0 as int]
}

/// Where every node that is not done has a child that is not done, and no node is its own
/// descendant, every node is done.
proof fn lemma_all_done(d: DomView, rank: spec_fn(Handle) -> nat, done: Seq<bool>, h: Handle)
    requires
        d.wf(),
        d.ranked(rank),
        done.len() == d.nodes.len(),
        forall|x: Handle|
            d.valid(x) && !done[x.0 as int] ==> !(#[trigger] children_done(d, x, done)),
        d.valid(h),
    ensures
        done[h.0 as int],
    decreases rank(h),
{
    if !done[h.0 as int] {
        assert(!children_done(d, h, done));
        assert(d.node_wf(d.node(h)));
        let i = choose|i: int|
            0 <= i < d.children(h).len() && !done[(#[trigger] d.children(h)[i]).0 as int];
        assert(rank(d.children(h)[i]) < rank(h));
        lemma_all_done(d, rank, done, d.children(h)[i]);
    }
}

impl RcDom {
    fn handle_is_valid(&self, h: Handle) -> (r: bool)
        ensures
            r == self@.valid(h),
    {
        h.0 < self.nodes.len()
    }

    fn node_is_well_formed(&self, h: Handle) -> (r: bool)
        requires
            self@.valid(h),
        ensures
            r == self@.node_wf(self@.node(h)),
    {
        let ghost node = self@.node(h);
        if let Some(p) = self.nodes[h.0].parent {
            if !self.handle_is_valid(p) {
                return false;
            }
        }
        if let NodeData::Element { template_contents: Some(t), .. } = &self.nodes[h.0].data {
            if !self.handle_is_valid(*t) {
                return false;
            }
        }
        let count = self.nodes[h.0].children.len();
        for i in 0..count
            invariant
                self@.valid(h),
                node == self@.node(h),
                count == node.children.len(),
                forall|j: int| 0 <= j < i ==> self@.valid(#[trigger] node.children[j]),
        {
            let child = self.nodes[h.0].children[i];
            assert(child == node.children[i as int]);
            if !self.handle_is_valid(child) {
                return false;
            }
        }
        true
    }

    /// Whether every handle that occurs in the document names a node of it.
    pub fn is_well_formed(&self) -> (r: bool)
        ensures
            r == self@.wf(),
    {
        assert(self.nodes.len() <= usize::MAX);
        if !self.handle_is_valid(self.document) {
            return false;
        }
        for i in 0..self.nodes.len()
            invariant
                forall|h: Handle| h.0 < i ==> self@.node_wf(#[trigger] self@.node(h)),
        {
            if !self.node_is_well_formed(Handle(i)) {
                assert(!self@.node_wf(self@.node(Handle(i))));
                return false;
            }
        }
        true
    }

    /// Whether the way up from `h` ends within as many steps as there are nodes. It does in a tree.
    pub fn way_up_ends(&self, h: Handle) -> (r: bool)
        requires
            self@.wf(),
            self@.valid(h),
        ensures
            r == self@.ancestor(h, self@.nodes.len()) is None,
            r ==> exists|n: nat| self@.settled_at(h, n),
            self@.is_tree() && self@.live(h) ==> r,
    {
        let ghost d = self@;
        let mut current = h;
        assert(d.ancestor(h, 0) == Some(h));
        for i in 0..self.nodes.len()
            invariant
                d == self@,
                d.wf(),
                d.valid(h),
                d.valid(current),
                d.ancestor(h, i as nat) == Some(current),
        {
            assert(d.node_wf(d.node(current)));
            assert(d.ancestor(h, (i + 1) as nat) == d.live_parent(current));
            match self.live_parent(current) {
                Some(p) => current = p,
                None => {
                    proof {
                        lemma_no_later_ancestor(d, h, (i + 1) as nat, d.nodes.len());
                        assert(d.settled_at(h, (i + 1) as nat));
                    }
                    return true;
                },
            }
        }
        proof {
            if d.is_tree() && d.live(h) {
                law_way_up_is_short(d, h);
            }
        }
        false
    }

    fn is_next(&self, h: Handle, done: &Vec<bool>) -> (r: bool)
        requires
            self@.wf(),
            self@.valid(h),
            done@.len() == self@.nodes.len(),
        ensures
            r == children_done(self@, h, done@),
    {
        let ghost d = self@;
        assert(d.node_wf(d.node(h)));
        let count = self.nodes[h.0].children.len();
        for i in 0..count
            invariant
                d == self@,
                d.valid(h),
                d.node_wf(d.node(h)),
                count == d.children(h).len(),
                done@.len() == d.nodes.len(),
                forall|k: int| 0 <= k < i ==> done@[(#[trigger] d.children(h)[k]).0 as int],
        {
            let child = self.nodes[h.0].children[i];
            assert(child == d.children(h)[i as int]);
            if !done[child.0] {
                return false;
            }
        }
        true
    }

    /// Whether no node is its own descendant. Nodes are ticked off whose children are all ticked
    /// off, until there is none left to tick off.
    pub fn has_finite_depth(&self) -> (r: bool)
        requires
            self@.wf(),
        ensures
            r == self@.finite_depth(),
    {
        let ghost d = self@;
        let count = self.nodes.len();
        let mut done: Vec<bool> = Vec::new();
        for i in 0..count
            invariant
                done@.len() == i,
                forall|j: int| 0 <= j < i ==> !done@[j],
                unticked(done@) == i,
        {
            let ghost before = done@;
            done.push(false);
            assert(done@.drop_last() =~= before);
        }
        let mut left: usize = count;
        let ghost mut rank: Seq<nat> = Seq::new(count as nat, |i: int| 0nat);
        while left > 0
            invariant
                d == self@,
                d.wf(),
                count == d.nodes.len(),
                count == self.nodes.len(),
                done@.len() == count,
                rank.len() == count,
                left <= count,
                left == unticked(done@),
                ranks_done(d, done@, rank, (count - left) as nat),
            decreases left,
        {
            let before = left;
            let mut i: usize = count;
            while i > 0
                invariant
                    d == self@,
                    d.wf(),
                    i <= count,
                    count == d.nodes.len(),
                    count == self.nodes.len(),
                    done@.len() == count,
                    rank.len() == count,
                    left <= before <= count,
                    left == unticked(done@),
                    ranks_done(d, done@, rank, (count - left) as nat),
                    left == before ==> forall|x: Handle|
                        i <= x.0 < count && !done@[x.0 as int] ==> !(#[trigger] children_done(
                            d,
                            x,
                            done@,
                        )),
                decreases i,
            {
                i -= 1;
                let h = Handle(i);
                if !done[i] && self.is_next(h, &done) {
                    proof {
                        lemma_tick(done@, i as int);
                        lemma_ranks_tick(d, done@, rank, (count - left) as nat, h);
                        rank = rank.update(i as int, (count - left) as nat);
                    }
                    done.set(i, true);
                    left -= 1;
                }
            }
            if left == before {
                proof {
                    if d.finite_depth() {
                        let ranking = choose|ranking: spec_fn(Handle) -> nat| d.ranked(ranking);
                        lemma_unticked(done@);
                        let i = choose|i: int| 0 <= i < done@.len() && !done@[i];
                        lemma_all_done(d, ranking, done@, Handle(i as usize));
                    }
                }
                return false;
            }
        }
        proof {
            lemma_none_unticked(done@);
            let ranking = |h: Handle| rank[h.0 as int];
            assert forall|p: Handle, i: int|
                d.valid(p) && 0 <= i < d.children(p).len() implies ranking(
                #[trigger] d.children(p)[i],
            ) < ranking(p) by {
                assert(done@[p.0 as int]);
            }
            assert(d.ranked(ranking));
        }
        true
    }
}

/// How many are not ticked off.
pub open spec fn unticked(done: Seq<bool>) -> nat
    decreases done.len(),
{
    if done.len() == 0 {
        0
    } else {
        unticked(done.drop_last()) + (if done.last() {
            0nat
        } else {
            1nat
        })
    }
}

/// The nodes that are ticked off have ranks below `next`, and lower ones than their parents.
spec fn ranks_done(d: DomView, done: Seq<bool>, rank: Seq<nat>, next: nat) -> bool {
    &&& forall|h: Handle| d.valid(h) && done[h.0 as int] ==> #[trigger] rank[h.0 as int] < next
    &&& forall|p: Handle, i: int|
        d.valid(p) && done[p.0 as int] && 0 <= i < d.children(p).len() ==> {
            let c = #[trigger] d.children(p)[i];
            done[c.0 as int] && rank[c.0 as int] < rank[p.0 as int]
        }
}

/// Ticking one off leaves one less.
pub proof fn lemma_tick(done: Seq<bool>, i: int)
    requires
        0 <= i < done.len(),
        !done[i],
    ensures
        unticked(done) == unticked(done.update(i, true)) + 1,
    decreases done.len(),
{
    let after = done.update(i, true);
    if i < done.len() - 1 {
        lemma_tick(done.drop_last(), i);
        assert(after.drop_last() =~= done.drop_last().update(i, true));
    } else {
        assert(after.drop_last() =~= done.drop_last());
    }
}

/// Where something is left, it can be found.
proof fn lemma_unticked(done: Seq<bool>)
    requires
        unticked(done) > 0,
    ensures
        exists|i: int| 0 <= i < done.len() && !(#[trigger] done[i]),
    decreases done.len(),
{
    if done.last() {
        lemma_unticked(done.drop_last());
        let i = choose|i: int| 0 <= i < done.len() - 1 && !(#[trigger] done.drop_last()[i]);
        assert(!done[i]);
    } else {
        assert(!done[done.len() - 1]);
    }
}

/// Where nothing is left, everything is ticked off.
proof fn lemma_none_unticked(done: Seq<bool>)
    requires
        unticked(done) == 0,
    ensures
        forall|i: int| 0 <= i < done.len() ==> #[trigger] done[i],
    decreases done.len(),
{
    if done.len() > 0 {
        lemma_none_unticked(done.drop_last());
        assert forall|i: int| 0 <= i < done.len() implies #[trigger] done[i] by {
            if i < done.len() - 1 {
                assert(done.drop_last()[i]);
            }
        }
    }
}

/// A node whose children are ticked off takes the next rank.
proof fn lemma_ranks_tick(d: DomView, done: Seq<bool>, rank: Seq<nat>, next: nat, h: Handle)
    requires
        d.wf(),
        d.valid(h),
        done.len() == d.nodes.len(),
        rank.len() == d.nodes.len(),
        ranks_done(d, done, rank, next),
        !done[h.0 as int],
        children_done(d, h, done),
    ensures
        ranks_done(
            d,
            done.update(h.0 as int, true),
            rank.update(h.0 as int, next),
            (next + 1) as nat,
        ),
{
    let done2 = done.update(h.0 as int, true);
    let rank2 = rank.update(h.0 as int, next);
    assert forall|p: Handle, i: int|
        d.valid(p) && done2[p.0 as int] && 0 <= i < d.children(p).len() implies {
        let c = #[trigger] d.children(p)[i];
        done2[c.0 as int] && rank2[c.0 as int] < rank2[p.0 as int]
    } by {
        assert(d.node_wf(d.node(p)));
        let c = d.children(p)[i];
        assert(d.valid(c));
        assert(done[c.0 as int]);
    }
}

} // verus!
