//! Giving up the last handle of a node.

use crate::interface::Handle;
use crate::model::{emptied, DomView, NodeView};
use crate::rcdom::{NodeData, RcDom};
use crate::shape::{lemma_tick, unticked};
use vstd::prelude::*;

verus! {

/// What is let go of is owned from there.
proof fn lemma_owned_start(d: DomView, from: Seq<Handle>, x: Handle)
    requires
        from.contains(x),
    ensures
        d.owned_from(from, x),
{
    let path = seq![x];
    assert(path.first() == x && path.last() == x);
    assert(d.owned_along(path));
}

/// What an owned node holds is owned.
pub proof fn lemma_owned_next(d: DomView, from: Seq<Handle>, p: Handle, x: Handle)
    requires
        d.owned_from(from, p),
        d.valid(p),
        d.owns(p, x),
    ensures
        d.owned_from(from, x),
{
    let path = choose|path: Seq<Handle>|
        {
            &&& path.len() > 0
            &&& from.contains(path.first())
            &&& path.last() == p
            &&& #[trigger] d.owned_along(path)
        };
    let longer = path.push(x);
    assert(longer.first() == path.first());
    assert(longer.last() == x);
    assert forall|k: int| 0 <= k < longer.len() - 1 implies d.valid(#[trigger] longer[k]) && d.owns(
        longer[k],
        longer[k + 1],
    ) by {
        assert(longer[k] == path[k]);
        if k < path.len() - 1 {
            assert(longer[k + 1] == path[k + 1]);
        }
    }
    assert(d.owned_along(longer));
}

/// A set of nodes that holds what was let go of, and what its nodes hold, holds all that is owned
/// from there.
proof fn lemma_owned_is_done(d: DomView, from: Seq<Handle>, done: Seq<bool>, x: Handle)
    requires
        d.wf(),
        done.len() == d.nodes.len(),
        forall|i: int| 0 <= i < from.len() ==> d.valid(#[trigger] from[i]) && done[from[i].0 as int],
        forall|p: Handle, y: Handle|
            d.valid(p) && done[p.0 as int] && #[trigger] d.owns(p, y) ==> d.valid(y)
                && done[y.0 as int],
        d.owned_from(from, x),
    ensures
        d.valid(x),
        done[x.0 as int],
{
    let path = choose|path: Seq<Handle>|
        {
            &&& path.len() > 0
            &&& from.contains(path.first())
            &&& path.last() == x
            &&& #[trigger] d.owned_along(path)
        };
    lemma_path_is_done(d, from, done, path, path.len() - 1);
}

proof fn lemma_path_is_done(
    d: DomView,
    from: Seq<Handle>,
    done: Seq<bool>,
    path: Seq<Handle>,
    n: int,
)
    requires
        done.len() == d.nodes.len(),
        forall|i: int| 0 <= i < from.len() ==> d.valid(#[trigger] from[i]) && done[from[i].0 as int],
        forall|p: Handle, y: Handle|
            d.valid(p) && done[p.0 as int] && #[trigger] d.owns(p, y) ==> d.valid(y)
                && done[y.0 as int],
        0 <= n < path.len(),
        from.contains(path.first()),
        d.owned_along(path),
    ensures
        d.valid(path[n]),
        done[path[n].0 as int],
    decreases n,
{
    if n == 0 {
        let i = choose|i: int| 0 <= i < from.len() && from[i] == path.first();
        assert(d.valid(from[i]));
    } else {
        lemma_path_is_done(d, from, done, path, n - 1);
        assert(d.owns(path[n - 1], path[n - 1 + 1]));
    }
}

/// What is let go of is held by the node that lets go of it.
proof fn lemma_let_go(d: DomView, h: Handle, held: Seq<Handle>)
    requires
        d.wf(),
        d.valid(h),
    ensures
        forall|i: int|
            0 <= i < d.let_go(h, held).len() ==> d.valid(#[trigger] d.let_go(h, held)[i]) && d.owns(
                h,
                d.let_go(h, held)[i],
            ),
        pending(
            d,
            d.let_go(h, held),
            Seq::new(d.nodes.len(), |i: int| false),
            d.let_go(h, held),
        ),
{
    let from = d.let_go(h, held);
    assert(d.node_wf(d.node(h)));
    assert forall|i: int| 0 <= i < from.len() implies d.valid(#[trigger] from[i]) && d.owns(
        h,
        from[i],
    ) && d.owned_from(from, from[i]) by {
        if i < d.children(h).len() {
            assert(from[i] == d.children(h)[i]);
        }
        lemma_owned_start(d, from, from[i]);
    }
}

/// A node that no node holds is not owned from what another node lets go of.
proof fn lemma_not_owned(d: DomView, h: Handle, held: Seq<Handle>, x: Handle)
    requires
        d.wf(),
        d.valid(h),
        forall|p: Handle| d.valid(p) ==> !(#[trigger] d.owns(p, x)),
    ensures
        !d.owned_from(d.let_go(h, held), x),
{
    let from = d.let_go(h, held);
    lemma_let_go(d, h, held);
    if d.owned_from(from, x) {
        let path = choose|path: Seq<Handle>|
            {
                &&& path.len() > 0
                &&& from.contains(path.first())
                &&& path.last() == x
                &&& #[trigger] d.owned_along(path)
            };
        let n = path.len() - 2;
        if n < 0 {
            let i = choose|i: int| 0 <= i < from.len() && from[i] == x;
            assert(d.owns(h, from[i]));
        } else {
            assert(d.owns(path[n], path[n + 1]));
        }
    }
}

/// What a node holds is what is taken out of it.
proof fn lemma_taken(d: DomView, x: Handle, y: Handle)
    requires
        d.wf(),
        d.valid(x),
    ensures
        d.owns(x, y) == holdings(d, x).contains(y),
        d.owns(x, y) ==> d.valid(y),
{
    let s = d.children(x);
    let t = holdings(d, x);
    assert(d.node_wf(d.node(x)));
    if d.owns(x, y) {
        let k = if s.contains(y) {
            choose|k: int| 0 <= k < s.len() && s[k] == y
        } else {
            s.len() as int
        };
        assert(t[k] == y);
    }
    if t.contains(y) {
        let k = choose|k: int| 0 <= k < t.len() && t[k] == y;
        if k < s.len() {
            assert(s[k] == y);
        }
    }
}

/// What is left to do after `x` is done was to do before, or is held by `x`.
proof fn lemma_next_work(before: Seq<Handle>, taken: Seq<Handle>, x: Handle, y: Handle)
    requires
        before.len() > 0,
        before.last() == x,
    ensures
        (before.drop_last() + taken).contains(y) ==> before.contains(y) || taken.contains(y),
        before.contains(y) ==> y == x || (before.drop_last() + taken).contains(y),
        taken.contains(y) ==> (before.drop_last() + taken).contains(y),
{
    let n = before.len() - 1;
    let work = before.drop_last() + taken;
    if work.contains(y) {
        let i = choose|i: int| 0 <= i < work.len() && work[i] == y;
        if i < n {
            assert(before[i] == y);
        } else {
            assert(taken[i - n] == y);
        }
    }
    if before.contains(y) && y != x {
        let i = choose|i: int| 0 <= i < before.len() && before[i] == y;
        assert(work[i] == y);
    }
    if taken.contains(y) {
        let i = choose|i: int| 0 <= i < taken.len() && taken[i] == y;
        assert(work[n + i] == y);
    }
}

/// One more node is done: what it holds is left to do.
#[verifier::spinoff_prover]
proof fn lemma_pending(
    d: DomView,
    from: Seq<Handle>,
    ticked: Seq<bool>,
    before: Seq<Handle>,
    taken: Seq<Handle>,
    x: Handle,
)
    requires
        d.wf(),
        ticked.len() == d.nodes.len(),
        pending(d, from, ticked, before),
        before.len() > 0,
        before.last() == x,
        ticked[x.0 as int] ==> taken.len() == 0,
        !ticked[x.0 as int] ==> taken == holdings(d, x),
    ensures
        pending(d, from, ticked.update(x.0 as int, true), before.drop_last() + taken),
{
    let done = ticked.update(x.0 as int, true);
    let work = before.drop_last() + taken;
    assert(before[before.len() - 1] == x);
    assert(d.valid(x) && d.owned_from(from, x));
    assert forall|i: int| 0 <= i < work.len() implies d.valid(#[trigger] work[i]) && d.owned_from(
        from,
        work[i],
    ) by {
        let y = work[i];
        assert(work.contains(y));
        lemma_next_work(before, taken, x, y);
        if taken.contains(y) {
            lemma_taken(d, x, y);
            lemma_owned_next(d, from, x, y);
        } else {
            let k = choose|k: int| 0 <= k < before.len() && before[k] == y;
            assert(d.valid(before[k]));
        }
    }
    assert forall|i: int| 0 <= i < d.nodes.len() && #[trigger] done[i] implies d.owned_from(
        from,
        Handle(i as usize),
    ) by {
        if i == x.0 {
            assert(Handle(i as usize) == x);
        } else {
            assert(ticked[i]);
        }
    }
    assert forall|i: int| 0 <= i < from.len() implies d.valid(#[trigger] from[i]) && (
    done[from[i].0 as int] || work.contains(from[i])) by {
        lemma_next_work(before, taken, x, from[i]);
    }
    assert forall|p: Handle, y: Handle|
        d.valid(p) && done[p.0 as int] && #[trigger] d.owns(p, y) implies d.valid(y) && (
    done[y.0 as int] || work.contains(y)) by {
        lemma_next_work(before, taken, x, y);
        if !ticked[p.0 as int] {
            assert(p == x);
            lemma_taken(d, x, y);
        }
    }
}

/// Emptying a node on the way.
proof fn lemma_emptied_next(
    d: DomView,
    now: DomView,
    next: DomView,
    h: Handle,
    done: Seq<bool>,
    x: Handle,
)
    requires
        taken_apart(d, now, h, done),
        d.valid(x),
        x != h,
        !done[x.0 as int],
        next == now.set_node(x, emptied(now.node(x), false)),
    ensures
        taken_apart(d, next, h, done.update(x.0 as int, true)),
{
    let after = done.update(x.0 as int, true);
    assert(now.nodes[x.0 as int] == d.nodes[x.0 as int]);
    assert forall|i: int| 0 <= i < d.nodes.len() implies #[trigger] next.nodes[i] == if i == h.0 {
        emptied(d.nodes[i], true)
    } else if after[i] {
        emptied(d.nodes[i], false)
    } else {
        d.nodes[i]
    } by {
        assert(now.nodes[i] == now.nodes[i]);
    }
}

/// Where nothing is left to do, what is done is what is owned from what was let go of.
proof fn lemma_done_is_owned(d: DomView, from: Seq<Handle>, done: Seq<bool>)
    requires
        d.wf(),
        done.len() == d.nodes.len(),
        pending(d, from, done, Seq::empty()),
    ensures
        forall|x: Handle| d.valid(x) ==> done[x.0 as int] == #[trigger] d.owned_from(from, x),
{
    assert forall|x: Handle| d.valid(x) implies done[x.0 as int] == #[trigger] d.owned_from(
        from,
        x,
    ) by {
        assert(Handle(x.0 as int as usize) == x);
        if d.owned_from(from, x) {
            lemma_owned_is_done(d, from, done, x);
        }
    }
}

/// What has been taken apart holds nothing.
proof fn lemma_taken_apart_owns(
    d: DomView,
    now: DomView,
    h: Handle,
    done: Seq<bool>,
    p: Handle,
    x: Handle,
)
    requires
        taken_apart(d, now, h, done),
        d.valid(p),
    ensures
        now.owns(p, x) == (p != h && !done[p.0 as int] && d.owns(p, x)),
{
    assert(now.nodes[p.0 as int] == now.node(p));
}

/// A document that is taken apart has all handles in it.
proof fn lemma_taken_apart_wf(d: DomView, now: DomView, h: Handle, done: Seq<bool>)
    requires
        d.wf(),
        taken_apart(d, now, h, done),
    ensures
        now.wf(),
{
    assert forall|x: Handle| now.valid(x) implies now.node_wf(#[trigger] now.node(x)) by {
        assert(d.node_wf(d.node(x)));
        assert(now.nodes[x.0 as int] == now.node(x));
    }
}

/// Whether `now` is `d` after `h` was dropped and the nodes in `done` were emptied.
spec fn taken_apart(d: DomView, now: DomView, h: Handle, done: Seq<bool>) -> bool {
    &&& done.len() == d.nodes.len()
    &&& now == DomView { nodes: now.nodes, ..d }
    &&& now.nodes.len() == d.nodes.len()
    &&& forall|i: int|
        0 <= i < d.nodes.len() ==> #[trigger] now.nodes[i] == if i == h.0 {
            emptied(d.nodes[i], true)
        } else if done[i] {
            emptied(d.nodes[i], false)
        } else {
            d.nodes[i]
        }
}

fn is_held(held: &Vec<Handle>, h: Handle) -> (r: bool)
    ensures
        r == held@.contains(h),
{
    for i in 0..held.len()
        invariant
            forall|j: int| 0 <= j < i ==> held@[j] != h,
    {
        if held[i] == h {
            return true;
        }
    }
    false
}

/// Whether one of the first `n` nodes holds `x`.
spec fn owned_by_first(d: DomView, n: int, x: Handle) -> bool {
    exists|p: Handle| p.0 < n && d.valid(p) && #[trigger] d.owns(p, x)
}

/// One more node counts with what it holds.
proof fn lemma_owned_by_next(d: DomView, p: Handle, x: Handle)
    requires
        d.wf(),
        d.valid(p),
    ensures
        owned_by_first(d, p.0 + 1, x) == (owned_by_first(d, p.0 as int, x) || d.owns(p, x)),
{
    if owned_by_first(d, p.0 + 1, x) && !d.owns(p, x) {
        let q = choose|q: Handle| q.0 < p.0 + 1 && d.valid(q) && #[trigger] d.owns(q, x);
        assert(q.0 < p.0);
    }
    if owned_by_first(d, p.0 as int, x) {
        let q = choose|q: Handle| q.0 < p.0 && d.valid(q) && #[trigger] d.owns(q, x);
        assert(q.0 < p.0 + 1 && d.owns(q, x));
    }
}

impl RcDom {
    /// Which nodes another node holds, by their places.
    fn owned_nodes(&self) -> (r: Vec<bool>)
        requires
            self@.wf(),
        ensures
            r@.len() == self@.nodes.len(),
            forall|x: Handle|
                self@.valid(x) ==> #[trigger] r@[x.0 as int] == owned_by_first(
                    self@,
                    self@.nodes.len() as int,
                    x,
                ),
    {
        let ghost d = self@;
        let count = self.nodes.len();
        let mut owned: Vec<bool> = Vec::new();
        for i in 0..count
            invariant
                owned@.len() == i,
                forall|j: int| 0 <= j < i ==> !owned@[j],
        {
            owned.push(false);
        }
        for i in 0..count
            invariant
                d == self@,
                d.wf(),
                count == d.nodes.len(),
                count == self.nodes.len(),
                owned@.len() == count,
                forall|x: Handle|
                    d.valid(x) ==> #[trigger] owned@[x.0 as int] == owned_by_first(d, i as int, x),
        {
            let ghost before = owned@;
            let ghost p = Handle(i);
            assert(d.node_wf(d.node(p)));
            let ghost hs = d.children(p);
            let children = &self.nodes[i].children;
            assert(children@ == hs);
            for k in 0..children.len()
                invariant
                    d.valid(p),
                    d.node_wf(d.node(p)),
                    hs == d.children(p),
                    children@ == hs,
                    owned@.len() == d.nodes.len(),
                    before.len() == d.nodes.len(),
                    forall|x: Handle|
                        d.valid(x) ==> #[trigger] owned@[x.0 as int] == (before[x.0 as int]
                            || hs.take(k as int).contains(x)),
            {
                let child = children[k];
                assert(d.valid(hs[k as int]));
                let ghost earlier = owned@;
                owned.set(child.0, true);
                assert(hs.take(k + 1) =~= hs.take(k as int).push(child));
                assert forall|x: Handle| d.valid(x) implies #[trigger] owned@[x.0 as int] == (
                before[x.0 as int] || hs.take(k + 1).contains(x)) by {
                    assert(earlier[x.0 as int] == (before[x.0 as int] || hs.take(
                        k as int,
                    ).contains(x)));
                    lemma_push_contains(hs.take(k as int), child, x);
                }
            }
            assert(hs.take(hs.len() as int) =~= hs);
            let ghost earlier = owned@;
            if let NodeData::Element { template_contents: Some(t), .. } = &self.nodes[i].data {
                owned.set(t.0, true);
            }
            assert forall|x: Handle| d.valid(x) implies #[trigger] owned@[x.0 as int]
                == owned_by_first(d, i + 1, x) by {
                lemma_owned_by_next(d, p, x);
                assert(earlier[x.0 as int] == (before[x.0 as int] || hs.contains(x)));
                assert(before[x.0 as int] == owned_by_first(d, i as int, x));
            }
        }
        owned
    }

    /// Takes the children of `h`, and its template contents, out of it; gives them.
    fn empty_node(&mut self, h: Handle) -> (r: Vec<Handle>)
        requires
            old(self)@.valid(h),
        ensures
            final(self)@ == old(self)@.set_node(h, emptied(old(self)@.node(h), false)),
            r@ == holdings(old(self)@, h),
    {
        let mut taken: Vec<Handle> = Vec::new();
        std::mem::swap(&mut taken, &mut self.nodes[h.0].children);
        match &mut self.nodes[h.0].data {
            NodeData::Element { template_contents, .. } => {
                if let Some(t) = *template_contents {
                    taken.push(t);
                }
                *template_contents = None;
            },
            _ => {},
        }
        assert(self@ =~= old(self)@.set_node(h, emptied(old(self)@.node(h), false)));
        taken
    }

    /// Marks `h` as dropped.
    fn mark_dropped(&mut self, h: Handle)
        requires
            old(self)@.valid(h),
        ensures
            final(self)@ == old(self)@.set_node(
                h,
                NodeView { dropped: true, ..old(self)@.node(h) },
            ),
    {
        self.nodes[h.0].dropped = true;
        assert(self@ =~= old(self)@.set_node(h, NodeView { dropped: true, ..old(self)@.node(h) }));
    }

    /// Drops `h` and takes it out of the document with what it lets go of; gives the latter.
    fn release(&mut self, h: Handle, held: &Vec<Handle>) -> (r: Vec<Handle>)
        requires
            old(self)@.wf(),
            old(self)@.valid(h),
        ensures
            r@ == old(self)@.let_go(h, held@),
            taken_apart(
                old(self)@,
                final(self)@,
                h,
                Seq::new(old(self)@.nodes.len(), |i: int| false),
            ),
    {
        let ghost d = self@;
        let ghost none: Seq<bool> = Seq::new(d.nodes.len(), |i: int| false);
        assert(d.node_wf(d.node(h)));
        let template = match &self.nodes[h.0].data {
            NodeData::Element { template_contents, .. } => *template_contents,
            _ => None,
        };
        assert(template == d.template(h));
        let mut freed = self.empty_node(h);
        assert(self@.valid(h));
        self.mark_dropped(h);
        assert(taken_apart(d, self@, h, none));
        if let Some(t) = template {
            proof {
                lemma_taken_apart_wf(d, self@, h, none);
            }
            let owned = self.owned_nodes();
            proof {
                assert(owned@[t.0 as int] == exists|p: Handle|
                    d.valid(p) && p != h && #[trigger] d.owns(p, t)) by {
                    let now = self@;
                    assert forall|p: Handle| d.valid(p) implies #[trigger] now.owns(p, t) == (p != h
                        && d.owns(p, t)) by {
                        lemma_taken_apart_owns(d, now, h, none, p, t);
                    }
                    if owned@[t.0 as int] {
                        let p = choose|p: Handle|
                            p.0 < now.nodes.len() && now.valid(p) && #[trigger] now.owns(p, t);
                        assert(d.owns(p, t));
                    }
                    if exists|p: Handle| d.valid(p) && p != h && #[trigger] d.owns(p, t) {
                        let p = choose|p: Handle| d.valid(p) && p != h && #[trigger] d.owns(p, t);
                        assert(now.owns(p, t));
                    }
                }
            }
            if is_held(held, t) || t == self.document || owned[t.0] {
                freed.pop();
                assert(freed@ =~= d.children(h));
            }
        }
        freed
    }

    /// Drops `h`, whose last handle is given up; `held` are the nodes of which there are handles
    /// outside of the document.
    ///
    /// What was held under `h` is taken apart too: every node loses its children and its template
    /// contents, also one that something else holds, and one that nothing else holds is dropped. A
    /// node that is left keeps its parent link; where that names a dropped node, the way up ends
    /// there.
    pub fn drop_node(&mut self, h: Handle, held: &Vec<Handle>)
        requires
            old(self)@.wf(),
            old(self)@.valid(h),
            old(self)@.unheld(h, held@),
        ensures
            final(self)@ == old(self)@.drop_node(h, held@),
            final(self)@.wf(),
    {
        let ghost d = self@;
        let ghost from = d.let_go(h, held@);
        let count = self.nodes.len();
        let mut work = self.release(h, held);
        let mut done: Vec<bool> = Vec::new();
        for i in 0..count
            invariant
                done@ == Seq::new(i as nat, |j: int| false),
        {
            done.push(false);
            assert(done@ =~= Seq::new((i + 1) as nat, |j: int| false));
        }
        proof {
            lemma_let_go(d, h, held@);
            lemma_not_owned(d, h, held@, h);
        }
        while work.len() > 0
            invariant
                d.wf(),
                d.valid(h),
                from == d.let_go(h, held@),
                !d.owned_from(from, h),
                taken_apart(d, self@, h, done@),
                pending(d, from, done@, work@),
            decreases unticked(done@), work.len(),
        {
            let ghost now = self@;
            let ghost before = work@;
            let ghost ticked = done@;
            let x = match work.pop() {
                Some(x) => x,
                None => vstd::pervasive::unreached(),
            };
            assert(before[before.len() - 1] == x);
            assert(d.valid(before[before.len() - 1]));
            assert(work@ =~= before.drop_last());
            if done[x.0] {
                proof {
                    lemma_pending(d, from, ticked, before, Seq::empty(), x);
                    assert(ticked.update(x.0 as int, true) =~= ticked);
                    assert(before.drop_last() + Seq::<Handle>::empty() =~= before.drop_last());
                }
            } else {
                assert(now.nodes[x.0 as int] == d.nodes[x.0 as int]);
                let mut taken = self.empty_node(x);
                let ghost taken_from = taken@;
                work.append(&mut taken);
                done.set(x.0, true);
                proof {
                    lemma_emptied_next(d, now, self@, h, ticked, x);
                    lemma_pending(d, from, ticked, before, taken_from, x);
                    lemma_tick(ticked, x.0 as int);
                }
            }
        }
        proof {
            assert(work@ =~= Seq::empty());
            lemma_done_is_owned(d, from, done@);
            lemma_taken_apart_wf(d, self@, h, done@);
        }
        self.mark_all_dropped(h, held, &done, Ghost(d));
    }

    /// Marks the nodes that were taken apart with `h` as dropped, unless something holds them.
    fn mark_all_dropped(
        &mut self,
        h: Handle,
        held: &Vec<Handle>,
        done: &Vec<bool>,
        Ghost(d): Ghost<DomView>,
    )
        requires
            d.wf(),
            d.valid(h),
            old(self)@.wf(),
            taken_apart(d, old(self)@, h, done@),
            !d.owned_from(d.let_go(h, held@), h),
            forall|x: Handle|
                d.valid(x) ==> done@[x.0 as int] == #[trigger] d.owned_from(d.let_go(h, held@), x),
        ensures
            final(self)@ == d.drop_node(h, held@),
            final(self)@.wf(),
    {
        let ghost now = self@;
        let owned = self.owned_nodes();
        for i in 0..done.len()
            invariant
                d.wf(),
                d.valid(h),
                taken_apart(d, now, h, done@),
                owned@.len() == d.nodes.len(),
                forall|x: Handle|
                    d.valid(x) ==> #[trigger] owned@[x.0 as int] == owned_by_first(
                        now,
                        now.nodes.len() as int,
                        x,
                    ),
                forall|x: Handle|
                    d.valid(x) ==> done@[x.0 as int] == #[trigger] d.owned_from(
                        d.let_go(h, held@),
                        x,
                    ),
                self@ == (DomView { nodes: self@.nodes, ..d }),
                self@.nodes.len() == d.nodes.len(),
                forall|j: int|
                    0 <= j < d.nodes.len() ==> #[trigger] self@.nodes[j] == if j < i {
                        d.drop_node(h, held@).nodes[j]
                    } else {
                        now.nodes[j]
                    },
        {
            let ghost before = self@;
            let x = Handle(i);
            assert(before.nodes[i as int] == now.nodes[i as int]);
            proof {
                lemma_held_outside(d, now, h, held@, done@, x);
            }
            if done[i] && !owned[i] && !is_held(held, x) && x != self.document {
                self.mark_dropped(x);
            }
            assert forall|j: int| 0 <= j < d.nodes.len() implies #[trigger] self@.nodes[j] == if j
                < i + 1 {
                d.drop_node(h, held@).nodes[j]
            } else {
                now.nodes[j]
            } by {
                assert(before.nodes[j] == before.nodes[j]);
                assert(now.nodes[j] == now.nodes[j]);
                assert(d.owned_from(d.let_go(h, held@), x) == done@[i as int]);
            }
        }
        assert(self@.nodes =~= d.drop_node(h, held@).nodes);
        proof {
            lemma_drop_wf(d, h, held@);
        }
    }

    /// Gives up the handles in a list, one after the other; a node that nothing else holds is
    /// dropped.
    pub fn drop_unheld(&mut self, hs: &Vec<Handle>, held: &Vec<Handle>)
        requires
            old(self)@.wf(),
            forall|i: int| 0 <= i < hs@.len() ==> old(self)@.valid(#[trigger] hs@[i]),
        ensures
            final(self)@ == old(self)@.drop_unheld(hs@, held@),
            final(self)@.wf(),
            final(self)@.nodes.len() == old(self)@.nodes.len(),
    {
        let ghost d = self@;
        assert(hs@.skip(0) =~= hs@);
        for i in 0..hs.len()
            invariant
                self@.wf(),
                self@.nodes.len() == d.nodes.len(),
                forall|k: int| 0 <= k < hs@.len() ==> d.valid(#[trigger] hs@[k]),
                self@.drop_unheld(hs@.skip(i as int), held@) == d.drop_unheld(hs@, held@),
        {
            let ghost now = self@;
            let h = hs[i];
            assert(d.valid(hs@[i as int]));
            assert(hs@.skip(i as int).first() == h);
            assert(hs@.skip(i as int).drop_first() =~= hs@.skip(i + 1));
            let owned = self.owned_nodes();
            proof {
                assert(owned@[h.0 as int] == owned_by_first(now, now.nodes.len() as int, h));
                if owned@[h.0 as int] {
                    let p = choose|p: Handle|
                        p.0 < now.nodes.len() && now.valid(p) && #[trigger] now.owns(p, h);
                    assert(now.owns(p, h));
                } else {
                    assert forall|p: Handle| now.valid(p) implies !(#[trigger] now.owns(p, h)) by {}
                }
            }
            if !is_held(held, h) && h != self.document && !owned[h.0] {
                self.drop_node(h, held);
            }
        }
        assert(hs@.skip(hs@.len() as int) =~= Seq::empty());
    }
}

proof fn lemma_push_contains(s: Seq<Handle>, h: Handle, x: Handle)
    ensures
        s.push(h).contains(x) == (s.contains(x) || x == h),
{
    if s.contains(x) {
        let k = choose|k: int| 0 <= k < s.len() && s[k] == x;
        assert(s.push(h)[k] == x);
    }
    assert(s.push(h)[s.len() as int] == h);
    if s.push(h).contains(x) && x != h {
        let k = choose|k: int| 0 <= k < s.push(h).len() && s.push(h)[k] == x;
        assert(s[k] == x);
    }
}

/// After a node was taken apart with what it held, what is held is what is held outside of that.
proof fn lemma_held_outside(
    d: DomView,
    now: DomView,
    h: Handle,
    held: Seq<Handle>,
    done: Seq<bool>,
    x: Handle,
)
    requires
        taken_apart(d, now, h, done),
        d.valid(x),
        forall|y: Handle|
            d.valid(y) ==> done[y.0 as int] == #[trigger] d.owned_from(d.let_go(h, held), y),
    ensures
        d.held_outside(h, held, x) == (held.contains(x) || x == d.document || owned_by_first(
            now,
            now.nodes.len() as int,
            x,
        )),
{
    let from = d.let_go(h, held);
    if owned_by_first(now, now.nodes.len() as int, x) {
        let p = choose|p: Handle|
            p.0 < now.nodes.len() && now.valid(p) && #[trigger] now.owns(p, x);
        lemma_taken_apart_owns(d, now, h, done, p, x);
        assert(!d.owned_from(from, p) && d.owns(p, x));
    }
    if exists|p: Handle| d.valid(p) && p != h && !d.owned_from(from, p) && #[trigger] d.owns(p, x) {
        let p = choose|p: Handle|
            d.valid(p) && p != h && !d.owned_from(from, p) && #[trigger] d.owns(p, x);
        lemma_taken_apart_owns(d, now, h, done, p, x);
        assert(now.owns(p, x));
    }
}

/// Dropping a node keeps all handles in the document.
pub proof fn lemma_drop_wf(d: DomView, h: Handle, held: Seq<Handle>)
    requires
        d.wf(),
    ensures
        d.drop_node(h, held).wf(),
{
    let e = d.drop_node(h, held);
    assert forall|x: Handle| e.valid(x) implies e.node_wf(#[trigger] e.node(x)) by {
        assert(d.node_wf(d.node(x)));
    }
}

/// Dropping a node leaves no node its own descendant.
pub proof fn lemma_drop_finite_depth(d: DomView, h: Handle, held: Seq<Handle>)
    requires
        d.finite_depth(),
    ensures
        d.drop_node(h, held).finite_depth(),
{
    let e = d.drop_node(h, held);
    let rank = choose|rank: spec_fn(Handle) -> nat| d.ranked(rank);
    assert forall|p: Handle, k: int|
        e.valid(p) && 0 <= k < e.children(p).len() implies rank(#[trigger] e.children(p)[k]) < rank(
        p,
    ) by {
        assert(e.node(p) == d.node(p));
        assert(rank(d.children(p)[k]) < rank(p));
    }
    assert(e.ranked(rank));
}

/// Giving up handles leaves no node its own descendant.
pub proof fn lemma_drop_unheld_finite_depth(d: DomView, hs: Seq<Handle>, held: Seq<Handle>)
    requires
        d.finite_depth(),
    ensures
        d.drop_unheld(hs, held).finite_depth(),
    decreases hs.len(),
{
    if hs.len() > 0 {
        let h = hs.first();
        if d.unheld(h, held) {
            lemma_drop_finite_depth(d, h, held);
            lemma_drop_unheld_finite_depth(d.drop_node(h, held), hs.drop_first(), held);
        } else {
            lemma_drop_unheld_finite_depth(d, hs.drop_first(), held);
        }
    }
}

/// What a node holds: its children, and its template contents.
spec fn holdings(d: DomView, h: Handle) -> Seq<Handle> {
    match d.template(h) {
        Some(t) => d.children(h).push(t),
        None => d.children(h),
    }
}

/// What is left to empty: all that is owned from what was let go of, but not what is done.
spec fn pending(d: DomView, from: Seq<Handle>, done: Seq<bool>, work: Seq<Handle>) -> bool {
    &&& forall|i: int|
        0 <= i < work.len() ==> d.valid(#[trigger] work[i]) && d.owned_from(from, work[i])
    &&& forall|i: int|
        0 <= i < d.nodes.len() && #[trigger] done[i] ==> d.owned_from(from, Handle(i as usize))
    &&& forall|i: int|
        0 <= i < from.len() ==> d.valid(#[trigger] from[i]) && (done[from[i].0 as int]
            || work.contains(from[i]))
    &&& forall|p: Handle, y: Handle|
        d.valid(p) && done[p.0 as int] && #[trigger] d.owns(p, y) ==> d.valid(y) && (
        done[y.0 as int] || work.contains(y))
}

/// Dropping a node keeps a tree a tree, if nothing else holds what is under it.
pub proof fn law_drop_keeps_tree(d: DomView, h: Handle, held: Seq<Handle>)
    requires
        d.wf(),
        d.is_tree(),
        d.valid(h),
        forall|x: Handle|
            d.valid(x) && #[trigger] d.owned_from(d.let_go(h, held), x) ==> !d.held_outside(
                h,
                held,
                x,
            ),
    ensures
        d.drop_node(h, held).is_tree(),
{
    let e = d.drop_node(h, held);
    let from = d.let_go(h, held);
    lemma_let_go(d, h, held);
    assert forall|x: Handle| d.valid(x) implies #[trigger] e.node(x) == if x == h {
        emptied(d.node(x), true)
    } else if d.owned_from(from, x) {
        emptied(d.node(x), true)
    } else {
        d.node(x)
    } by {
        assert(Handle(x.0 as int as usize) == x);
    }
    assert forall|p: Handle, k: int|
        e.valid(p) && 0 <= k < e.children(p).len() implies e.parent(#[trigger] e.children(p)[k])
        == Some(p) by {
        assert(e.node(p) == d.node(p));
        assert(d.node_wf(d.node(p)));
        let c = d.children(p)[k];
        assert(d.parent(c) == Some(p));
        assert(e.node(c).parent == d.node(c).parent);
    }
    assert forall|p: Handle| e.valid(p) implies (#[trigger] e.children(p)).no_duplicates() by {
        assert(d.children(p).no_duplicates());
        assert(e.node(p).children.len() == 0 || e.node(p) == d.node(p));
    }
    assert forall|x: Handle| e.live(x) implies #[trigger] e.locatable(x) by {
        assert(e.node(x) == d.node(x));
        assert(d.locatable(x));
        assert(d.node_wf(d.node(x)));
        if let Some(p) = d.parent(x) {
            assert(d.owns(p, x));
            if p == h {
                let i = choose|i: int| 0 <= i < d.children(h).len() && d.children(h)[i] == x;
                assert(from[i] == x);
                lemma_owned_start(d, from, x);
            } else if d.owned_from(from, p) {
                lemma_owned_next(d, from, p, x);
            }
            assert(e.node(p) == d.node(p));
        }
    }
    lemma_drop_finite_depth(d, h, held);
}

/// The way up from a child of a dropped node ends at once.
pub proof fn law_dropped_parent_ends_the_way_up(
    d: DomView,
    h: Handle,
    held: Seq<Handle>,
    x: Handle,
)
    requires
        d.wf(),
        d.valid(h),
        d.valid(x),
        d.parent(x) == Some(h),
    ensures
        d.drop_node(h, held).parent(x) == Some(h),
        d.drop_node(h, held).ancestor(x, 1) is None,
{
    let e = d.drop_node(h, held);
    reveal_with_fuel(DomView::ancestor, 2);
    assert(e.parent(x) == d.parent(x));
    assert(e.dropped(h));
}

} // verus!
