use vstd::prelude::*;
use crate::tree::{NodeId, Tree};

verus! {

/// What a cursor yields when drained from the front over `s[lo..hi]`:
/// the items that still name live nodes, in order.
pub open spec fn drain_front(t: Tree, s: Seq<NodeId>, lo: int, hi: int) -> Seq<NodeId>
    decreases hi - lo,
{
    if lo >= hi {
        Seq::empty()
    } else {
        let head = if t.contains(s[lo]) { seq![s[lo]] } else { Seq::empty() };
        head + drain_front(t, s, lo + 1, hi)
    }
}

/// What a cursor yields when drained from the back over `s[lo..hi]`.
pub open spec fn drain_back(t: Tree, s: Seq<NodeId>, lo: int, hi: int) -> Seq<NodeId>
    decreases hi - lo,
{
    if lo >= hi {
        Seq::empty()
    } else {
        let head = if t.contains(s[hi - 1]) { seq![s[hi - 1]] } else { Seq::empty() };
        head + drain_back(t, s, lo, hi - 1)
    }
}

/// Draining from the front splits at any point.
pub proof fn lemma_drain_front_split(t: Tree, s: Seq<NodeId>, lo: int, k: int, hi: int)
    requires
        lo <= k <= hi,
    ensures
        drain_front(t, s, lo, k) + drain_front(t, s, k, hi) == drain_front(t, s, lo, hi),
    decreases k - lo,
{
    if lo < k {
        lemma_drain_front_split(t, s, lo + 1, k, hi);
        let head = if t.contains(s[lo]) { seq![s[lo]] } else { Seq::<NodeId>::empty() };
        assert(head + drain_front(t, s, lo + 1, k) + drain_front(t, s, k, hi) =~= head + (drain_front(
            t,
            s,
            lo + 1,
            k,
        ) + drain_front(t, s, k, hi)));
    } else {
        assert(drain_front(t, s, lo, k) =~= Seq::<NodeId>::empty());
        assert(Seq::<NodeId>::empty() + drain_front(t, s, k, hi) =~= drain_front(t, s, k, hi));
    }
}

/// A backward traversal yields exactly the forward traversal reversed.
pub proof fn lemma_backward_is_reversed_forward(t: Tree, s: Seq<NodeId>, lo: int, hi: int)
    ensures
        drain_back(t, s, lo, hi) == drain_front(t, s, lo, hi).reverse(),
    decreases hi - lo,
{
    if lo < hi {
        lemma_backward_is_reversed_forward(t, s, lo, hi - 1);
        lemma_drain_front_split(t, s, lo, hi - 1, hi);
        let last = if t.contains(s[hi - 1]) { seq![s[hi - 1]] } else { Seq::<NodeId>::empty() };
        assert(drain_front(t, s, hi - 1, hi) =~= last + drain_front(t, s, hi, hi));
        assert(drain_front(t, s, hi, hi) =~= Seq::<NodeId>::empty());
        assert(drain_front(t, s, hi - 1, hi) =~= last);
        assert((drain_front(t, s, lo, hi - 1) + last).reverse() =~= last.reverse() + drain_front(
            t,
            s,
            lo,
            hi - 1,
        ).reverse());
        assert(last.reverse() =~= last);
    } else {
        assert(drain_front(t, s, lo, hi).reverse() =~= Seq::<NodeId>::empty());
    }
}

/// Cursors driven from both ends until they meet at any point `k` yield,
/// between them, each item of one forward traversal exactly once and in
/// order.
pub proof fn lemma_cursors_meet(t: Tree, s: Seq<NodeId>, lo: int, k: int, hi: int)
    requires
        lo <= k <= hi,
    ensures
        drain_front(t, s, lo, k) + drain_back(t, s, k, hi).reverse() == drain_front(t, s, lo, hi),
{
    lemma_backward_is_reversed_forward(t, s, k, hi);
    assert(drain_front(t, s, k, hi).reverse().reverse() =~= drain_front(t, s, k, hi));
    lemma_drain_front_split(t, s, lo, k, hi);
}

/// Over items that all name live nodes, a forward drain yields them all.
pub proof fn lemma_drain_all_live(t: Tree, s: Seq<NodeId>, lo: int, hi: int)
    requires
        0 <= lo <= hi <= s.len(),
        forall|j: int| lo <= j < hi ==> t.contains(#[trigger] s[j]),
    ensures
        drain_front(t, s, lo, hi) == s.subrange(lo, hi),
    decreases hi - lo,
{
    if lo < hi {
        lemma_drain_all_live(t, s, lo + 1, hi);
        assert(seq![s[lo]] + s.subrange(lo + 1, hi) =~= s.subrange(lo, hi));
    } else {
        assert(s.subrange(lo, hi) =~= Seq::<NodeId>::empty());
    }
}

/// Every item a drain yields names a live node.
pub proof fn lemma_drain_yields_live(t: Tree, s: Seq<NodeId>, lo: int, hi: int)
    ensures
        forall|j: int| 0 <= j < drain_front(t, s, lo, hi).len() ==> t.contains(#[trigger] drain_front(t, s, lo, hi)[j]),
    decreases hi - lo,
{
    if lo < hi {
        lemma_drain_yields_live(t, s, lo + 1, hi);
        let head = if t.contains(s[lo]) { seq![s[lo]] } else { Seq::<NodeId>::empty() };
        let rest = drain_front(t, s, lo + 1, hi);
        assert forall|j: int| 0 <= j < (head + rest).len() implies t.contains(#[trigger] (head + rest)[j]) by {
            if j >= head.len() {
                assert((head + rest)[j] == rest[j - head.len()]);
            }
        }
    }
}

/// Removal is atomic for traversals: a cursor made before the subtree at
/// `id` was removed and driven after it yields no node of that subtree,
/// whatever it had collected.
pub proof fn lemma_removed_never_yielded(before: Tree, after: Tree, id: NodeId, s: Seq<NodeId>, lo: int, hi: int)
    requires
        forall|x: NodeId| #[trigger] after.contains(x) == (before.contains(x) && !before.in_subtree(
            id.index as int,
            x.index as int,
        )),
    ensures
        forall|j: int| 0 <= j < drain_front(after, s, lo, hi).len() ==> !before.in_subtree(
            id.index as int,
            (#[trigger] drain_front(after, s, lo, hi)[j]).index as int,
        ),
{
    lemma_drain_yields_live(after, s, lo, hi);
    assert forall|j: int| 0 <= j < drain_front(after, s, lo, hi).len() implies !before.in_subtree(
        id.index as int,
        (#[trigger] drain_front(after, s, lo, hi)[j]).index as int,
    ) by {
        assert(after.contains(drain_front(after, s, lo, hi)[j]));
    }
}

/// A fresh id never equals an id handed out earlier for any slot, so stale
/// ids held elsewhere cannot alias the new node.
pub proof fn lemma_fresh_id_is_new(t: Tree, earlier: NodeId, fresh: NodeId)
    requires
        t.was_issued(earlier),
        !t.was_issued(fresh),
    ensures
        earlier != fresh,
{
}

/// Double-ended depth-first pre-order cursor over a subtree. The order is
/// fixed when the cursor is made; ids whose nodes were removed since are
/// passed over, never yielded.
pub struct TreeIterator {
    items: Vec<NodeId>,
    front: usize,
    back: usize,
}

impl TreeIterator {
    pub closed spec fn items(&self) -> Seq<NodeId> {
        self.items@
    }

    pub closed spec fn front(&self) -> int {
        self.front as int
    }

    pub closed spec fn back(&self) -> int {
        self.back as int
    }

    pub open spec fn wf(&self) -> bool {
        0 <= self.front() <= self.back() <= self.items().len()
    }

    /// What is left to yield, from the front, over `t`.
    pub open spec fn remaining(&self, t: Tree) -> Seq<NodeId> {
        drain_front(t, self.items(), self.front(), self.back())
    }

    /// Pre-order of the whole tree.
    pub fn full(tree: &Tree) -> (r: TreeIterator)
        requires
            tree.wf(),
        ensures
            r.wf(),
            r.items() == tree.preorder_ids(0),
            forall|x: NodeId| #[trigger] r.items().contains(x) <==> tree.contains(x),
            r.items().no_duplicates(),
            r.front() == 0,
            r.back() == r.items().len(),
    {
        proof {
            tree.lemma_wf();
            tree.lemma_preorder_ids_complete();
        }
        TreeIterator::subtree(tree, NodeId::root())
    }

    /// Pre-order of the subtree at `root`; empty when `root` names no live
    /// node.
    pub fn subtree(tree: &Tree, root: NodeId) -> (r: TreeIterator)
        requires
            tree.wf(),
        ensures
            r.wf(),
            tree.contains(root) ==> r.items() == tree.preorder_ids(root.index as int),
            !tree.contains(root) ==> r.items().len() == 0,
            r.items().no_duplicates(),
            r.front() == 0,
            r.back() == r.items().len(),
    {
        if !tree.contains_id(root) {
            let r = TreeIterator { items: Vec::new(), front: 0, back: 0 };
            assert(r.items().no_duplicates());
            return r;
        }
        let items = tree.preorder_id_vec(root.index as usize);
        proof {
            tree.lemma_preorder_ids_unique(root.index as int);
        }
        let back = items.len();
        TreeIterator { items, front: 0, back }
    }

    /// Yields the next live node from the front.
    pub fn next(&mut self, tree: &Tree) -> (r: Option<NodeId>)
        requires
            old(self).wf(),
        ensures
            final(self).wf(),
            final(self).items() == old(self).items(),
            final(self).back() == old(self).back(),
            r is None ==> old(self).remaining(*tree).len() == 0 && final(self).remaining(*tree).len() == 0,
            r matches Some(x) ==> old(self).remaining(*tree) == seq![x] + final(self).remaining(*tree)
                && tree.contains(x),
    {
        let ghost o = *self;
        while self.front < self.back && !tree.contains_id(self.items[self.front])
            invariant
                self.wf(),
                self.items() == o.items(),
                self.back() == o.back(),
                o.remaining(*tree) == self.remaining(*tree),
            decreases self.back - self.front,
        {
            self.front = self.front + 1;
        }
        if self.front < self.back {
            let x = self.items[self.front];
            self.front = self.front + 1;
            Some(x)
        } else {
            None
        }
    }

    /// Yields the next live node from the back.
    pub fn next_back(&mut self, tree: &Tree) -> (r: Option<NodeId>)
        requires
            old(self).wf(),
        ensures
            final(self).wf(),
            final(self).items() == old(self).items(),
            final(self).front() == old(self).front(),
            r is None ==> old(self).remaining(*tree).len() == 0 && final(self).remaining(*tree).len() == 0,
            r matches Some(x) ==> drain_back(*tree, old(self).items(), old(self).front(), old(self).back())
                == seq![x] + drain_back(*tree, final(self).items(), final(self).front(), final(self).back())
                && tree.contains(x),
    {
        let ghost o = *self;
        while self.front < self.back && !tree.contains_id(self.items[self.back - 1])
            invariant
                self.wf(),
                self.items() == o.items(),
                self.front() == o.front(),
                drain_back(*tree, o.items(), o.front(), o.back()) == drain_back(
                    *tree,
                    self.items(),
                    self.front(),
                    self.back(),
                ),
            decreases self.back - self.front,
        {
            self.back = self.back - 1;
        }
        proof {
            lemma_backward_is_reversed_forward(*tree, o.items(), o.front(), o.back());
            lemma_backward_is_reversed_forward(*tree, self.items(), self.front(), self.back());
        }
        if self.front < self.back {
            let x = self.items[self.back - 1];
            self.back = self.back - 1;
            Some(x)
        } else {
            None
        }
    }
}

/// Breadth-first cursor over a subtree: a node is yielded only after every
/// node at a shallower depth. Ids whose nodes were removed since the cursor
/// was made are passed over.
pub struct TreeBreadthIterator {
    items: Vec<NodeId>,
    front: usize,
}

impl TreeBreadthIterator {
    pub closed spec fn items(&self) -> Seq<NodeId> {
        self.items@
    }

    pub closed spec fn front(&self) -> int {
        self.front as int
    }

    pub open spec fn wf(&self) -> bool {
        0 <= self.front() <= self.items().len()
    }

    /// What is left to yield over `t`.
    pub open spec fn remaining(&self, t: Tree) -> Seq<NodeId> {
        drain_front(t, self.items(), self.front(), self.items().len() as int)
    }

    /// Level order of the whole tree.
    pub fn full(tree: &Tree) -> (r: TreeBreadthIterator)
        requires
            tree.wf(),
        ensures
            r.wf(),
            r.front() == 0,
            r.items().len() > 0,
            r.items()[0] == crate::tree::root_id(),
            r.items() == tree.level_order(0).map_values(|i: usize| tree.id_of(i as int)),
            r.items().no_duplicates(),
            forall|j: int| 0 <= j < r.items().len() ==> tree.contains(#[trigger] r.items()[j]),
            forall|x: NodeId| #[trigger] r.items().contains(x) <==> tree.contains(x),
            forall|i: int, j: int| 0 <= i < j < r.items().len() ==> tree.depth(#[trigger] r.items()[i].index as int)
                <= tree.depth(#[trigger] r.items()[j].index as int),
    {
        proof {
            tree.lemma_wf();
        }
        let r = TreeBreadthIterator::subtree(tree, NodeId::root());
        proof {
            assert forall|x: NodeId| #[trigger] r.items().contains(x) <==> tree.contains(x) by {
                if r.items().contains(x) {
                    let m = choose|m: int| 0 <= m < r.items().len() && r.items()[m] == x;
                    assert(tree.contains(r.items()[m]));
                }
                if tree.contains(x) {
                    let i = x.index as int;
                    tree.lemma_root_reaches(i);
                    assert(tree.preorder(0).contains(i as usize));
                    assert(r.items().contains(tree.id_of(i)));
                }
            }
        }
        r
    }

    /// Level order of the subtree at `root`; empty when `root` names no live
    /// node.
    pub fn subtree(tree: &Tree, root: NodeId) -> (r: TreeBreadthIterator)
        requires
            tree.wf(),
        ensures
            r.wf(),
            r.front() == 0,
            !tree.contains(root) ==> r.items().len() == 0,
            tree.contains(root) ==> r.items() == tree.level_order(root.index as int).map_values(
                |i: usize| tree.id_of(i as int),
            ),
            r.items().no_duplicates(),
            tree.contains(root) ==> r.items().len() > 0 && r.items()[0] == root,
            forall|j: int| 0 <= j < r.items().len() ==> tree.contains(#[trigger] r.items()[j])
                && tree.in_subtree(root.index as int, r.items()[j].index as int),
            tree.contains(root) ==> forall|x: usize| #[trigger] tree.preorder(root.index as int).contains(x)
                ==> r.items().contains(tree.id_of(x as int)),
            forall|i: int, j: int| 0 <= i < j < r.items().len() ==> tree.depth(#[trigger] r.items()[i].index as int)
                <= tree.depth(#[trigger] r.items()[j].index as int),
    {
        if !tree.contains_id(root) {
            let r = TreeBreadthIterator { items: Vec::new(), front: 0 };
            assert(r.items().no_duplicates());
            return r;
        }
        let n = root.index as usize;
        let idx = tree.breadth_order(n);
        proof {
            tree.lemma_preorder_live(n as int);
            assert forall|j: int| 0 <= j < idx@.len() implies tree.is_live(#[trigger] idx@[j] as int) by {
                let m = choose|m: int| 0 <= m < tree.preorder(n as int).len() && tree.preorder(n as int)[m] == idx@[j];
            }
        }
        let items = tree.ids_of(&idx);
        proof {
            tree.lemma_wf();
            assert forall|j: int| 0 <= j < items@.len() implies tree.contains(#[trigger] items@[j])
                && tree.in_subtree(root.index as int, items@[j].index as int) by {
                assert(tree.is_live(idx@[j] as int));
                assert(items@[j] == tree.id_of(idx@[j] as int));
                assert(tree.in_subtree(n as int, idx@[j] as int));
            }
            assert forall|x: usize| #[trigger] tree.preorder(root.index as int).contains(x)
                implies items@.contains(tree.id_of(x as int)) by {
                assert(idx@.contains(x));
                let m = choose|m: int| 0 <= m < idx@.len() && idx@[m] == x;
                assert(items@[m] == tree.id_of(x as int));
            }
            assert forall|i: int, j: int| 0 <= i < j < items@.len() implies tree.depth(#[trigger] items@[i].index as int)
                <= tree.depth(#[trigger] items@[j].index as int) by {
                assert(items@[i] == tree.id_of(idx@[i] as int));
                assert(items@[j] == tree.id_of(idx@[j] as int));
                assert(tree.depth(idx@[i] as int) <= tree.depth(idx@[j] as int));
            }
            assert(items@[0] == tree.id_of(n as int));
            assert forall|u: int, v: int| 0 <= u < v < items@.len() implies items@[u] != items@[v] by {
                assert(items@[u] == tree.id_of(idx@[u] as int));
                assert(items@[v] == tree.id_of(idx@[v] as int));
                assert(tree.is_live(idx@[u] as int) && tree.is_live(idx@[v] as int));
            }
        }
        TreeBreadthIterator { items, front: 0 }
    }

    /// Yields the next live node.
    pub fn next(&mut self, tree: &Tree) -> (r: Option<NodeId>)
        requires
            old(self).wf(),
        ensures
            final(self).wf(),
            final(self).items() == old(self).items(),
            r is None ==> old(self).remaining(*tree).len() == 0 && final(self).remaining(*tree).len() == 0,
            r matches Some(x) ==> old(self).remaining(*tree) == seq![x] + final(self).remaining(*tree)
                && tree.contains(x),
    {
        let ghost o = *self;
        while self.front < self.items.len() && !tree.contains_id(self.items[self.front])
            invariant
                self.wf(),
                self.items() == o.items(),
                o.remaining(*tree) == self.remaining(*tree),
            decreases self.items.len() - self.front,
        {
            self.front = self.front + 1;
        }
        if self.front < self.items.len() {
            let x = self.items[self.front];
            self.front = self.front + 1;
            Some(x)
        } else {
            None
        }
    }
}

} // verus!
