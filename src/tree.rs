use vstd::prelude::*;

verus! {

/// Generational identifier of a tree node: a slot index and the generation
/// of the occupant it was issued for.
#[derive(Clone, Copy, Debug, PartialEq, Eq, Structural, Hash)]
pub struct NodeId {
    pub index: u32,
    pub generation: u32,
}

impl NodeId {
    /// Builds an id from its parts.
    pub fn new(index: u32, generation: u32) -> (r: NodeId)
        ensures
            r.index == index,
            r.generation == generation,
    {
        NodeId { index, generation }
    }

    /// The reserved id of the tree root.
    pub fn root() -> (r: NodeId)
        ensures
            r == root_id(),
    {
        NodeId { index: 0, generation: 0 }
    }
}

pub open spec fn root_id() -> NodeId {
    NodeId { index: 0, generation: 0 }
}

/// Failures of structural mutation.
#[derive(Clone, Copy, Debug, PartialEq, Eq, Structural)]
pub enum TreeError {
    AlreadyExists,
    ParentNotFound,
    NotFound,
}

/// One arena slot. `issued` is one past the newest generation handed out for
/// this slot, so every id with a smaller generation is stale once the slot is
/// vacated.
pub struct Slot {
    pub issued: u64,
    pub live: bool,
    pub parent: usize,
    pub children: Vec<usize>,
    pub z_order: i32,
}

/// Arena of slots forming a rooted tree. Slot 0 is the root.
pub struct Tree {
    slots: Vec<Slot>,
    free: Vec<usize>,
    /// Creation rank of each slot's occupant: a parent always ranks below
    /// its children, which bounds every walk down the tree.
    rank: Ghost<Seq<nat>>,
    bound: Ghost<nat>,
}

pub open spec fn max_slots() -> int {
    0x1_0000_0000
}

impl Tree {
    pub closed spec fn slots(&self) -> Seq<Slot> {
        self.slots@
    }

    pub closed spec fn ranks(&self) -> Seq<nat> {
        self.rank@
    }

    pub closed spec fn bound(&self) -> nat {
        self.bound@
    }

    pub closed spec fn free_list(&self) -> Seq<usize> {
        self.free@
    }

    pub open spec fn len(&self) -> int {
        self.slots().len() as int
    }

    pub open spec fn is_live(&self, i: int) -> bool {
        0 <= i < self.len() && self.slots()[i].live
    }

    pub open spec fn children(&self, i: int) -> Seq<usize> {
        self.slots()[i].children@
    }

    pub open spec fn parent_of(&self, i: int) -> int {
        self.slots()[i].parent as int
    }

    pub open spec fn rank_of(&self, i: int) -> int {
        self.ranks()[i] as int
    }

    /// The id under which the current (or last) occupant of slot `i` lives.
    pub open spec fn id_of(&self, i: int) -> NodeId {
        NodeId { index: i as u32, generation: (self.slots()[i].issued - 1) as u32 }
    }

    /// `id` names a live node.
    pub open spec fn contains(&self, id: NodeId) -> bool {
        self.is_live(id.index as int) && self.slots()[id.index as int].issued == id.generation + 1
    }

    /// `id` was handed out for its slot at some time, possibly to a node
    /// that has since been removed.
    pub open spec fn was_issued(&self, id: NodeId) -> bool {
        (id.index as int) < self.len() && (id.generation as int) < self.slots()[id.index as int].issued
    }

    /// The slot of `id` is occupied, or `id` is no newer than what was
    /// already handed out for that slot.
    pub open spec fn taken(&self, id: NodeId) -> bool {
        (id.index as int) < self.len() && (self.slots()[id.index as int].live
            || (id.generation as int) < self.slots()[id.index as int].issued)
    }

    /// `c` lies strictly below `n` in rank, so a walk from `n` to `c` progresses.
    pub open spec fn below(&self, n: int, c: int) -> bool {
        self.rank_of(n) < self.rank_of(c) && self.rank_of(c) < self.bound()
    }


    /// Depth-first pre-order of the subtree at `n`: the node, then the
    /// subtrees of its children in sibling order.
    pub open spec fn preorder(&self, n: int) -> Seq<usize>
        decreases self.bound() - self.rank_of(n), 1int, 0int,
    {
        seq![n as usize] + self.preorder_children(n, self.children(n).len() as int)
    }

    /// Concatenated pre-orders of the first `k` children of `n`.
    pub open spec fn preorder_children(&self, n: int, k: int) -> Seq<usize>
        decreases self.bound() - self.rank_of(n), 0int, k,
    {
        if k <= 0 || k > self.children(n).len() {
            Seq::empty()
        } else {
            let c = self.children(n)[k - 1] as int;
            let rest = self.preorder_children(n, k - 1);
            if self.below(n, c) {
                rest + self.preorder(c)
            } else {
                rest
            }
        }
    }

    /// `x` is `a` or lies below it.
    pub open spec fn in_subtree(&self, a: int, x: int) -> bool {
        0 <= x < self.len() && self.preorder(a).contains(x as usize)
    }


    /// Number of edges between slot `x` and the root.
    pub open spec fn depth(&self, x: int) -> nat
        decreases self.rank_of(x),
    {
        let p = self.parent_of(x);
        if x != 0 && 0 <= self.rank_of(p) < self.rank_of(x) {
            self.depth(p) + 1
        } else {
            0
        }
    }


    /// The children of the slots of `lvl`, parent by parent, each parent's
    /// children in sibling order.
    pub open spec fn next_level(&self, lvl: Seq<usize>) -> Seq<usize>
        decreases lvl.len(),
    {
        if lvl.len() == 0 {
            Seq::empty()
        } else {
            self.next_level(lvl.drop_last()) + self.children(lvl.last() as int)
        }
    }

    /// The levels from `lvl` down, one after the other, for at most `fuel`
    /// levels.
    pub open spec fn levels_from(&self, lvl: Seq<usize>, fuel: nat) -> Seq<usize>
        decreases fuel,
    {
        if lvl.len() == 0 || fuel == 0 {
            Seq::empty()
        } else {
            lvl + self.levels_from(self.next_level(lvl), (fuel - 1) as nat)
        }
    }

    /// Level order of the subtree at `n`, as a queue walk gives it.
    pub open spec fn level_order(&self, n: int) -> Seq<usize> {
        self.levels_from(seq![n as usize], self.bound())
    }

    pub closed spec fn wf(&self) -> bool {
        &&& 1 <= self.len() <= max_slots()
        &&& self.ranks().len() == self.len()
        &&& self.slots()[0].live
        &&& self.slots()[0].issued == 1
        &&& forall|i: int| 0 <= i < self.len() ==> #[trigger] self.rank_of(i) < self.bound()
        &&& forall|i: int| #[trigger] self.is_live(i) ==> 1 <= self.slots()[i].issued <= max_slots()
        &&& forall|i: int| 0 <= i < self.len() ==> #[trigger] self.slots()[i].issued <= max_slots()
        &&& forall|i: int| #[trigger] self.is_live(i) && i != 0 ==> {
            let p = self.parent_of(i);
            &&& self.is_live(p)
            &&& self.children(p).contains(i as usize)
            &&& self.below(p, i)
        }
        &&& forall|i: int, k: int| #[trigger] self.is_live(i) && 0 <= k < self.children(i).len()
            ==> {
            let c = #[trigger] self.children(i)[k] as int;
            &&& c != 0
            &&& self.is_live(c)
            &&& self.parent_of(c) == i
        }
        &&& forall|i: int| #[trigger] self.is_live(i) ==> self.children(i).no_duplicates()
        &&& forall|k: int| 0 <= k < self.free_list().len() ==> #[trigger] self.free_list()[k] < self.len()
    }

    /// Basic facts of a well-formed tree: the root is live, and live slots
    /// and live ids correspond one to one.
    pub proof fn lemma_wf(&self)
        requires
            self.wf(),
        ensures
            1 <= self.len() <= max_slots(),
            self.is_live(0),
            self.contains(root_id()),
            self.id_of(0) == root_id(),
            forall|i: int| #[trigger] self.is_live(i) ==> self.contains(self.id_of(i)) && self.id_of(i).index == i,
            forall|x: NodeId| #[trigger] self.contains(x) ==> self.is_live(x.index as int) && self.id_of(
                x.index as int,
            ) == x,
    {
        assert forall|i: int| #[trigger] self.is_live(i) implies self.contains(self.id_of(i)) && self.id_of(i).index
            == i by {
            assert(1 <= self.slots()[i].issued <= max_slots());
        }
    }

    /// A live non-root slot sits among its parent's children, below it.
    pub proof fn lemma_parent_link(&self, c: int)
        requires
            self.wf(),
            self.is_live(c),
            c != 0,
        ensures
            self.is_live(self.parent_of(c)),
            self.children(self.parent_of(c)).contains(c as usize),
            self.below(self.parent_of(c), c),
    {
    }

    /// A tree holding only the root.
    pub fn new() -> (t: Tree)
        ensures
            t.wf(),
            t.len() == 1,
            t.contains(root_id()),
    {
        let mut slots: Vec<Slot> = Vec::new();
        slots.push(Slot { issued: 1, live: true, parent: 0, children: Vec::new(), z_order: 0 });
        let ghost rank = seq![0nat];
        let t = Tree { slots, free: Vec::new(), rank: Ghost(rank), bound: Ghost(1nat) };
        assert(t.children(0) =~= Seq::<usize>::empty());
        t
    }

    /// Whether `id` names a live node; stale generations are never live.
    pub fn contains_id(&self, id: NodeId) -> (r: bool)
        ensures
            r == self.contains(id),
    {
        let i = id.index as usize;
        i < self.slots.len() && self.slots[i].live && self.slots[i].issued == id.generation as u64 + 1
    }

    /// Appends the pre-order of the subtree at `n` to `out`.
    pub(crate) fn collect_preorder(&self, n: usize, out: &mut Vec<usize>)
        requires
            self.wf(),
            self.is_live(n as int),
        ensures
            final(out)@ == old(out)@ + self.preorder(n as int),
        decreases self.bound() - self.rank_of(n as int),
    {
        out.push(n);
        let len = self.slots[n].children.len();
        let mut k: usize = 0;
        while k < len
            invariant
                self.wf(),
                self.is_live(n as int),
                len == self.children(n as int).len(),
                k <= len,
                out@ == old(out)@ + seq![n] + self.preorder_children(n as int, k as int),
            decreases len - k,
        {
            let c = self.slots[n].children[k];
            assert(self.children(n as int)[k as int] == c);
            assert(self.is_live(c as int));
            self.collect_preorder(c, out);
            k += 1;
            assert(out@ =~= old(out)@ + seq![n] + self.preorder_children(n as int, k as int));
        }
        assert(out@ =~= old(out)@ + self.preorder(n as int));
    }

    /// The id of the node in slot `i`.
    pub(crate) fn id_at(&self, i: usize) -> (r: NodeId)
        requires
            self.wf(),
            self.is_live(i as int),
        ensures
            r == self.id_of(i as int),
            r.index as int == i as int,
            self.contains(r),
    {
        NodeId { index: i as u32, generation: (self.slots[i].issued - 1) as u32 }
    }

    /// Ids of the pre-order of the subtree at `n`.
    pub open spec fn preorder_ids(&self, n: int) -> Seq<NodeId> {
        self.preorder(n).map_values(|i: usize| self.id_of(i as int))
    }

    /// Ids, in pre-order, of the subtree at slot `n`.
    pub(crate) fn preorder_id_vec(&self, n: usize) -> (r: Vec<NodeId>)
        requires
            self.wf(),
            self.is_live(n as int),
        ensures
            r@ == self.preorder_ids(n as int),
    {
        let mut idx: Vec<usize> = Vec::new();
        self.collect_preorder(n, &mut idx);
        assert(idx@ =~= self.preorder(n as int));
        proof { self.lemma_preorder_live(n as int); }
        self.ids_of(&idx)
    }

    /// The ids of the live slots in `idx`, in the same order.
    pub(crate) fn ids_of(&self, idx: &Vec<usize>) -> (r: Vec<NodeId>)
        requires
            self.wf(),
            forall|j: int| 0 <= j < idx@.len() ==> self.is_live(#[trigger] idx@[j] as int),
        ensures
            r@ == idx@.map_values(|i: usize| self.id_of(i as int)),
    {
        let mut r: Vec<NodeId> = Vec::new();
        let mut k: usize = 0;
        while k < idx.len()
            invariant
                self.wf(),
                forall|j: int| 0 <= j < idx@.len() ==> self.is_live(#[trigger] idx@[j] as int),
                k <= idx@.len(),
                r@ =~= idx@.subrange(0, k as int).map_values(|i: usize| self.id_of(i as int)),
            decreases idx.len() - k,
        {
            let id = self.id_at(idx[k]);
            r.push(id);
            k += 1;
            assert(r@ =~= idx@.subrange(0, k as int).map_values(|i: usize| self.id_of(i as int)));
        }
        assert(idx@.subrange(0, k as int) =~= idx@);
        r
    }

    /// Membership in the concatenated pre-orders of the first `k` children.
    pub proof fn lemma_preorder_children_member(&self, n: int, k: int, x: usize)
        requires
            self.wf(),
            self.is_live(n),
            0 <= k <= self.children(n).len(),
        ensures
            self.preorder_children(n, k).contains(x) <==> exists|j: int|
                0 <= j < k && #[trigger] self.preorder(self.children(n)[j] as int).contains(x),
        decreases k,
    {
        if k > 0 {
            let c = self.children(n)[k - 1] as int;
            assert(self.is_live(c));
            assert(self.below(n, c));
            self.lemma_preorder_children_member(n, k - 1, x);
            let a = self.preorder_children(n, k - 1);
            let b = self.preorder(c);
            assert(self.preorder_children(n, k) == a + b);
            if (a + b).contains(x) {
                let m = choose|m: int| 0 <= m < (a + b).len() && (a + b)[m] == x;
                if m >= a.len() {
                    assert(b[m - a.len()] == x);
                    assert(self.preorder(self.children(n)[k - 1] as int).contains(x));
                }
            }
            if exists|j: int| 0 <= j < k && #[trigger] self.preorder(self.children(n)[j] as int).contains(x) {
                let j = choose|j: int| 0 <= j < k && #[trigger] self.preorder(self.children(n)[j] as int).contains(x);
                if j == k - 1 {
                    let m = choose|m: int| 0 <= m < b.len() && b[m] == x;
                    assert((a + b)[a.len() + m] == x);
                } else {
                    let m = choose|m: int| 0 <= m < a.len() && a[m] == x;
                    assert((a + b)[m] == x);
                }
            }
        }
    }

    /// Membership in a pre-order: the node itself or a member of one of its
    /// children's pre-orders.
    pub proof fn lemma_preorder_member(&self, n: int, x: usize)
        requires
            self.wf(),
            self.is_live(n),
        ensures
            self.preorder(n).contains(x) <==> (x == n || exists|j: int|
                0 <= j < self.children(n).len() && #[trigger] self.preorder(self.children(n)[j] as int).contains(x)),
    {
        let k = self.children(n).len() as int;
        self.lemma_preorder_children_member(n, k, x);
        let a = seq![n as usize];
        let b = self.preorder_children(n, k);
        assert(self.preorder(n) == a + b);
        if (a + b).contains(x) && x != n {
            let m = choose|m: int| 0 <= m < (a + b).len() && (a + b)[m] == x;
            assert(b[m - 1] == x);
        }
        if x == n {
            assert((a + b)[0] == x);
        } else if b.contains(x) {
            let m = choose|m: int| 0 <= m < b.len() && b[m] == x;
            assert((a + b)[m + 1] == x);
        }
    }

    /// A child of a subtree member is in the subtree.
    pub proof fn lemma_subtree_child(&self, a: int, x: int, k: int)
        requires
            self.wf(),
            self.is_live(a),
            self.in_subtree(a, x),
            0 <= k < self.children(x).len(),
        ensures
            self.in_subtree(a, self.children(x)[k] as int),
        decreases self.bound() - self.rank_of(a),
    {
        self.lemma_preorder_live(a);
        let m = choose|m: int| 0 <= m < self.preorder(a).len() && self.preorder(a)[m] == x as usize;
        assert(self.is_live(x));
        let c = self.children(x)[k];
        assert(self.is_live(c as int));
        self.lemma_preorder_member(a, c);
        self.lemma_preorder_member(a, x as usize);
        if x == a {
            self.lemma_preorder_member(c as int, c);
        } else {
            let j = choose|j: int|
                0 <= j < self.children(a).len() && #[trigger] self.preorder(self.children(a)[j] as int).contains(x as usize);
            let cj = self.children(a)[j] as int;
            assert(self.below(a, cj));
            self.lemma_subtree_child(cj, x, k);
        }
    }

    /// The parent of a non-root subtree member is in the subtree.
    pub proof fn lemma_subtree_parent(&self, a: int, x: int)
        requires
            self.wf(),
            self.is_live(a),
            self.in_subtree(a, x),
            x != a,
        ensures
            self.is_live(x),
            x != 0,
            self.in_subtree(a, self.parent_of(x)),
        decreases self.bound() - self.rank_of(a),
    {
        self.lemma_preorder_live(a);
        let m = choose|m: int| 0 <= m < self.preorder(a).len() && self.preorder(a)[m] == x as usize;
        assert(self.is_live(x));
        self.lemma_preorder_member(a, x as usize);
        let j = choose|j: int|
            0 <= j < self.children(a).len() && #[trigger] self.preorder(self.children(a)[j] as int).contains(x as usize);
        let cj = self.children(a)[j] as int;
        assert(self.below(a, cj));
        if x == cj {
            assert(self.parent_of(x) == a);
            self.lemma_preorder_member(a, a as usize);
        } else {
            self.lemma_subtree_parent(cj, x);
            self.lemma_preorder_member(a, self.parent_of(x) as usize);
        }
    }

    /// A set of slots that holds `a` and the children of each of its members
    /// holds the whole subtree at `a`.
    pub proof fn lemma_closed_covers_subtree(&self, a: int, s: Seq<usize>)
        requires
            self.wf(),
            self.is_live(a),
            s.contains(a as usize),
            forall|x: usize, k: int| s.contains(x) && 0 <= k < self.children(x as int).len()
                ==> s.contains(#[trigger] self.children(x as int)[k]),
        ensures
            forall|x: usize| #[trigger] self.preorder(a).contains(x) ==> s.contains(x),
        decreases self.bound() - self.rank_of(a),
    {
        assert forall|x: usize| #[trigger] self.preorder(a).contains(x) implies s.contains(x) by {
            self.lemma_preorder_member(a, x);
            if x != a {
                let j = choose|j: int|
                    0 <= j < self.children(a).len() && #[trigger] self.preorder(self.children(a)[j] as int).contains(x);
                let cj = self.children(a)[j] as int;
                assert(self.is_live(cj));
                assert(self.below(a, cj));
                assert(s.contains(self.children(a as usize as int)[j]));
                self.lemma_closed_covers_subtree(cj, s);
            }
        }
    }

    /// Appends the children of `x`, in sibling order, to `out`.
    fn append_children(&self, x: usize, out: &mut Vec<usize>)
        requires
            self.wf(),
            self.is_live(x as int),
        ensures
            final(out)@ == old(out)@ + self.children(x as int),
    {
        let clen = self.slots[x].children.len();
        let mut b: usize = 0;
        while b < clen
            invariant
                self.wf(),
                self.is_live(x as int),
                clen == self.children(x as int).len(),
                b <= clen,
                out@ == old(out)@ + self.children(x as int).subrange(0, b as int),
            decreases clen - b,
        {
            out.push(self.slots[x].children[b]);
            b += 1;
            assert(out@ =~= old(out)@ + self.children(x as int).subrange(0, b as int));
        }
        assert(self.children(x as int).subrange(0, b as int) =~= self.children(x as int));
    }

    /// Children of a subtree member are subtree members one level deeper
    /// and of higher rank.
    pub proof fn lemma_children_facts(&self, n: int, x: int)
        requires
            self.wf(),
            self.is_live(n),
            self.in_subtree(n, x),
        ensures
            self.is_live(x),
            self.children(x).no_duplicates(),
            forall|k: int| 0 <= k < self.children(x).len() ==> {
                let c = #[trigger] self.children(x)[k] as int;
                &&& self.in_subtree(n, c)
                &&& self.is_live(c)
                &&& self.depth(c) == self.depth(x) + 1
                &&& self.rank_of(c) > self.rank_of(x)
            },
    {
        self.lemma_preorder_live(n);
        let m = choose|m: int| 0 <= m < self.preorder(n).len() && self.preorder(n)[m] == x as usize;
        assert(self.is_live(x));
        assert forall|k: int| 0 <= k < self.children(x).len() implies {
            let c = #[trigger] self.children(x)[k] as int;
            &&& self.in_subtree(n, c)
            &&& self.is_live(c)
            &&& self.depth(c) == self.depth(x) + 1
            &&& self.rank_of(c) > self.rank_of(x)
        } by {
            self.lemma_subtree_child(n, x, k);
            let c = self.children(x)[k] as int;
            assert(self.is_live(c));
            assert(self.parent_of(c) == x);
            assert(self.below(x, c));
        }
    }

    /// Level order of the subtree at `n`: each level in the order in which
    /// its parents were reached, each node's children in sibling order.
    #[verifier::rlimit(100)]
    pub(crate) fn breadth_order(&self, n: usize) -> (r: Vec<usize>)
        requires
            self.wf(),
            self.is_live(n as int),
        ensures
            r@ == self.level_order(n as int),
            r@.no_duplicates(),
            r@.len() > 0,
            r@[0] == n,
            forall|j: int| 0 <= j < r@.len() ==> self.in_subtree(n as int, #[trigger] r@[j] as int),
            forall|x: usize| #[trigger] self.preorder(n as int).contains(x) ==> r@.contains(x),
            forall|i: int, j: int| 0 <= i < j < r@.len() ==> self.depth(#[trigger] r@[i] as int) <= self.depth(
                #[trigger] r@[j] as int,
            ),
    {
        proof {
            self.lemma_preorder_member(n as int, n);
        }
        let ghost base = self.depth(n as int);
        let ghost top = self.bound() - self.rank_of(n as int);
        let mut out: Vec<usize> = Vec::new();
        let mut level: Vec<usize> = Vec::new();
        level.push(n);
        let ghost mut d: int = 0;
        proof {
            assert(out@ + level@ =~= seq![n]);
            assert(out@ + self.levels_from(level@, self.bound()) =~= self.level_order(n as int));
        }
        while level.len() > 0
            invariant
                self.wf(),
                self.is_live(n as int),
                0 <= d <= top,
                top == self.bound() - self.rank_of(n as int),
                base == self.depth(n as int),
                level@.len() > 0 ==> d < top,
                out@ + self.levels_from(level@, (self.bound() - d) as nat) == self.level_order(n as int),
                (out@ + level@).no_duplicates(),
                out@.len() == 0 ==> level@ == seq![n],
                out@.len() > 0 ==> out@[0] == n,
                forall|j: int| 0 <= j < level@.len() ==> self.in_subtree(n as int, #[trigger] level@[j] as int),
                forall|j: int| 0 <= j < level@.len() ==> self.depth(#[trigger] level@[j] as int) == base + d,
                forall|j: int| 0 <= j < level@.len() ==> self.rank_of(#[trigger] level@[j] as int) >= self.rank_of(n as int) + d,
                forall|j: int| 0 <= j < out@.len() ==> self.in_subtree(n as int, #[trigger] out@[j] as int),
                forall|j: int| 0 <= j < out@.len() ==> self.depth(#[trigger] out@[j] as int) < base + d,
                forall|i: int, j: int| 0 <= i < j < out@.len() ==> self.depth(#[trigger] out@[i] as int) <= self.depth(
                    #[trigger] out@[j] as int,
                ),
                forall|x: usize, k: int| out@.contains(x) && 0 <= k < self.children(x as int).len()
                    ==> (out@ + level@).contains(#[trigger] self.children(x as int)[k]),
            decreases top - d,
        {
            let mut next: Vec<usize> = Vec::new();
            let mut a: usize = 0;
            let ghost out0 = out@;
            assert(level@.subrange(0, 0) =~= Seq::<usize>::empty());
            while a < level.len()
                invariant
                    self.wf(),
                    self.is_live(n as int),
                    0 <= d < top,
                    top == self.bound() - self.rank_of(n as int),
                    base == self.depth(n as int),
                    (out0 + level@).no_duplicates(),
                    next@ == self.next_level(level@.subrange(0, a as int)),
                    next@.no_duplicates(),
                    forall|j: int| 0 <= j < next@.len() ==> exists|i: int| 0 <= i < a && #[trigger] level@[i] as int
                        == self.parent_of(#[trigger] next@[j] as int),
                    out0.len() == 0 ==> level@ == seq![n],
                    out0.len() > 0 ==> out0[0] == n,
                    a <= level@.len(),
                    out@ == out0 + level@.subrange(0, a as int),
                    forall|j: int| 0 <= j < level@.len() ==> self.in_subtree(n as int, #[trigger] level@[j] as int),
                    forall|j: int| 0 <= j < level@.len() ==> self.depth(#[trigger] level@[j] as int) == base + d,
                    forall|j: int| 0 <= j < level@.len() ==> self.rank_of(#[trigger] level@[j] as int) >= self.rank_of(n as int) + d,
                    forall|j: int| 0 <= j < out@.len() ==> self.in_subtree(n as int, #[trigger] out@[j] as int),
                    forall|j: int| 0 <= j < out@.len() ==> self.depth(#[trigger] out@[j] as int) <= base + d,
                    forall|i: int, j: int| 0 <= i < j < out@.len() ==> self.depth(#[trigger] out@[i] as int) <= self.depth(
                        #[trigger] out@[j] as int,
                    ),
                    forall|j: int| 0 <= j < next@.len() ==> self.in_subtree(n as int, #[trigger] next@[j] as int),
                    forall|j: int| 0 <= j < next@.len() ==> self.depth(#[trigger] next@[j] as int) == base + d + 1,
                    forall|j: int| 0 <= j < next@.len() ==> self.rank_of(#[trigger] next@[j] as int) >= self.rank_of(n as int) + d + 1,
                    forall|x: usize, k: int| out0.contains(x) && 0 <= k < self.children(x as int).len()
                        ==> (out0 + level@).contains(#[trigger] self.children(x as int)[k]),
                    forall|x: usize, k: int| level@.subrange(0, a as int).contains(x) && 0 <= k < self.children(x as int).len()
                        ==> next@.contains(#[trigger] self.children(x as int)[k]),
                decreases level.len() - a,
            {
                let x = level[a];
                assert(self.in_subtree(n as int, x as int));
                assert(self.is_live(x as int)) by {
                    self.lemma_preorder_live(n as int);
                }
                let ghost out_before = out@;
                out.push(x);
                let ghost next0 = next@;
                self.append_children(x, &mut next);
                proof {
                    self.lemma_children_facts(n as int, x as int);
                    assert forall|j: int| 0 <= j < next@.len() implies {
                        &&& self.in_subtree(n as int, #[trigger] next@[j] as int)
                        &&& self.depth(next@[j] as int) == base + d + 1
                        &&& self.rank_of(next@[j] as int) >= self.rank_of(n as int) + d + 1
                    } by {
                        if j >= next0.len() {
                            assert(next@[j] == self.children(x as int)[j - next0.len()]);
                        } else {
                            assert(next@[j] == next0[j]);
                        }
                    }
                    let cx = self.children(x as int);
                    assert(level@.subrange(0, a as int + 1).drop_last() =~= level@.subrange(0, a as int));
                    assert(next@ == self.next_level(level@.subrange(0, a as int + 1)));
                    assert(level@[a as int] == x);
                    assert forall|j: int| 0 <= j < next@.len() implies exists|i: int| 0 <= i < a + 1
                        && #[trigger] level@[i] as int == self.parent_of(#[trigger] next@[j] as int) by {
                        if j >= next0.len() {
                            assert(next@[j] == cx[j - next0.len()]);
                            assert(level@[a as int] as int == self.parent_of(next@[j] as int));
                        } else {
                            assert(next@[j] == next0[j]);
                            let i = choose|i: int| 0 <= i < a && #[trigger] level@[i] as int == self.parent_of(
                                #[trigger] next0[j] as int);
                            assert(level@[i] as int == self.parent_of(next@[j] as int));
                        }
                    }
                    assert forall|u: int, v: int| 0 <= u < v < next@.len() implies next@[u] != next@[v] by {
                        if v >= next0.len() && u < next0.len() {
                            assert(next@[v] == cx[v - next0.len()]);
                            assert(next@[u] == next0[u]);
                            let i = choose|i: int| 0 <= i < a && #[trigger] level@[i] as int == self.parent_of(
                                #[trigger] next0[u] as int);
                            if next@[u] == next@[v] {
                                assert(self.parent_of(next@[v] as int) == x as int);
                                assert((out0 + level@)[out0.len() + i] == level@[i]);
                                assert((out0 + level@)[out0.len() + a] == level@[a as int]);
                            }
                        } else if u >= next0.len() {
                            assert(next@[v] == cx[v - next0.len()]);
                            assert(next@[u] == cx[u - next0.len()]);
                        } else {
                            assert(next@[v] == next0[v]);
                            assert(next@[u] == next0[u]);
                        }
                    }
                }
                a += 1;
                proof {
                    assert(out@ =~= out0 + level@.subrange(0, a as int));
                    assert forall|y: usize, k: int| level@.subrange(0, a as int).contains(y) && 0 <= k < self.children(y as int).len()
                        implies next@.contains(#[trigger] self.children(y as int)[k]) by {
                        let m = choose|m: int| 0 <= m < a && level@.subrange(0, a as int)[m] == y;
                        if m == a - 1 {
                            assert(next@[next0.len() + k] == self.children(y as int)[k]);
                        } else {
                            assert(level@.subrange(0, a as int - 1)[m] == y);
                            let q = choose|q: int| 0 <= q < next0.len() && next0[q] == self.children(y as int)[k];
                            assert(next@[q] == next0[q]);
                        }
                    }
                    assert forall|i: int, j: int| 0 <= i < j < out@.len() implies self.depth(#[trigger] out@[i] as int) <= self.depth(
                        #[trigger] out@[j] as int) by {
                        if j == out@.len() - 1 {
                            assert(out@[i] == out_before[i]);
                        } else {
                            assert(out@[i] == out_before[i]);
                            assert(out@[j] == out_before[j]);
                        }
                    }
                }
            }
            proof {
                assert(level@.subrange(0, a as int) =~= level@);
                assert forall|x: usize, k: int| out@.contains(x) && 0 <= k < self.children(x as int).len()
                    implies (out@ + next@).contains(#[trigger] self.children(x as int)[k]) by {
                    let c = self.children(x as int)[k];
                    if out0.contains(x) {
                        assert((out0 + level@).contains(c));
                        let m = choose|m: int| 0 <= m < (out0 + level@).len() && (out0 + level@)[m] == c;
                        assert((out@ + next@)[m] == c);
                    } else {
                        let m = choose|m: int| 0 <= m < out@.len() && out@[m] == x;
                        assert(level@[m - out0.len()] == x);
                        assert(level@.contains(x));
                        let q = choose|q: int| 0 <= q < next@.len() && next@[q] == c;
                        assert((out@ + next@)[out@.len() + q] == c);
                    }
                }
                if next@.len() > 0 {
                    let r0 = self.rank_of(next@[0] as int);
                    assert(self.in_subtree(n as int, next@[0] as int));
                    assert(0 <= next@[0] < self.len());
                    assert(r0 < self.bound());
                    assert(r0 >= self.rank_of(n as int) + d + 1);
                    assert(d + 1 < top);
                }
            }
            proof {
                let f = (self.bound() - d) as nat;
                assert(self.next_level(level@) == next@);
                assert(self.levels_from(level@, f) == level@ + self.levels_from(next@, (f - 1) as nat));
                assert(out@ == out0 + level@);
                assert(out@ + self.levels_from(next@, (f - 1) as nat) =~= out0 + self.levels_from(level@, f));
                assert forall|u: int, v: int| 0 <= u < v < (out@ + next@).len() implies (out@ + next@)[u] != (out@
                    + next@)[v] by {
                    if v >= out@.len() && u < out@.len() {
                        assert((out@ + next@)[v] == next@[v - out@.len()]);
                        assert((out@ + next@)[u] == out@[u]);
                        assert(self.depth(next@[v - out@.len()] as int) == base + d + 1);
                        assert(self.depth(out@[u] as int) <= base + d);
                    } else if u >= out@.len() {
                        assert((out@ + next@)[v] == next@[v - out@.len()]);
                        assert((out@ + next@)[u] == next@[u - out@.len()]);
                    } else {
                        assert((out@ + next@)[v] == out@[v]);
                        assert((out@ + next@)[u] == out@[u]);
                        assert(out@ == out0 + level@);
                    }
                }
            }
            level = next;
            proof {
                d = d + 1;
            }
        }
        proof {
            assert(out@ + level@ =~= out@);
            assert(self.levels_from(level@, (self.bound() - d) as nat) =~= Seq::<usize>::empty());
            assert(out@ =~= self.level_order(n as int));
            self.lemma_closed_covers_subtree(n as int, out@);
        }
        out
    }

    /// Number of children of live slot `n`.
    pub(crate) fn child_count(&self, n: usize) -> (r: usize)
        requires
            self.wf(),
            self.is_live(n as int),
        ensures
            r == self.children(n as int).len(),
    {
        self.slots[n].children.len()
    }

    /// The `k`-th child of live slot `n`.
    pub(crate) fn child_at(&self, n: usize, k: usize) -> (r: usize)
        requires
            self.wf(),
            self.is_live(n as int),
            k < self.children(n as int).len(),
        ensures
            r == self.children(n as int)[k as int],
            self.is_live(r as int),
            r != 0,
            self.parent_of(r as int) == n,
            self.below(n as int, r as int),
    {
        let r = self.slots[n].children[k];
        assert(self.is_live(r as int));
        r
    }

    /// Structural parent of live non-root slot `n`.
    pub(crate) fn parent_slot(&self, n: usize) -> (r: usize)
        requires
            self.wf(),
            self.is_live(n as int),
            n != 0,
        ensures
            r == self.parent_of(n as int),
            self.is_live(r as int),
            self.below(r as int, n as int),
    {
        self.slots[n].parent
    }

    /// Subtree membership is transitive.
    pub proof fn lemma_subtree_trans(&self, a: int, b: int, c: int)
        requires
            self.wf(),
            self.is_live(a),
            self.in_subtree(a, b),
            self.in_subtree(b, c),
        ensures
            self.in_subtree(a, c),
    {
        self.lemma_preorder_live(a);
        let pa = self.preorder(a);
        let m = choose|m: int| 0 <= m < pa.len() && pa[m] == b as usize;
        assert(self.is_live(b));
        assert forall|x: usize, k: int| pa.contains(x) && 0 <= k < self.children(x as int).len()
            implies pa.contains(#[trigger] self.children(x as int)[k]) by {
            let mx = choose|mx: int| 0 <= mx < pa.len() && pa[mx] == x;
            assert(self.is_live(x as int));
            self.lemma_subtree_child(a, x as int, k);
        }
        self.lemma_closed_covers_subtree(b, pa);
        assert(self.preorder(b).contains(c as usize));
    }

    /// A strict descendant of `x` lies in the subtree of one of `x`'s
    /// children.
    pub proof fn lemma_child_toward(&self, x: int, d: int) -> (j: int)
        requires
            self.wf(),
            self.is_live(x),
            self.in_subtree(x, d),
            d != x,
        ensures
            0 <= j < self.children(x).len(),
            self.in_subtree(self.children(x)[j] as int, d),
    {
        self.lemma_preorder_member(x, d as usize);
        let j = choose|j: int|
            0 <= j < self.children(x).len() && #[trigger] self.preorder(self.children(x)[j] as int).contains(d as usize);
        j
    }

    /// Every live slot lies in the root's subtree.
    pub proof fn lemma_root_reaches(&self, i: int)
        requires
            self.wf(),
            self.is_live(i),
        ensures
            self.in_subtree(0, i),
        decreases self.rank_of(i),
    {
        if i == 0 {
            self.lemma_preorder_member(0, 0);
        } else {
            let p = self.parent_of(i);
            assert(self.below(p, i));
            self.lemma_root_reaches(p);
            let k = choose|k: int| 0 <= k < self.children(p).len() && self.children(p)[k] == i as usize;
            self.lemma_subtree_child(0, p, k);
        }
    }

    /// The ids of a pre-order are distinct.
    pub proof fn lemma_preorder_ids_unique(&self, n: int)
        requires
            self.wf(),
            self.is_live(n),
        ensures
            self.preorder_ids(n).no_duplicates(),
    {
        self.lemma_wf();
        self.lemma_preorder_live(n);
        self.lemma_preorder_no_duplicates(n);
        let s = self.preorder(n);
        let ids = self.preorder_ids(n);
        assert forall|u: int, v: int| 0 <= u < v < ids.len() implies ids[u] != ids[v] by {
            assert(ids[u] == self.id_of(s[u] as int));
            assert(ids[v] == self.id_of(s[v] as int));
            assert(self.is_live(s[u] as int) && self.is_live(s[v] as int));
        }
    }

    /// The ids of the whole tree's pre-order are exactly the live ids, each
    /// once.
    pub proof fn lemma_preorder_ids_complete(&self)
        requires
            self.wf(),
        ensures
            forall|x: NodeId| #[trigger] self.preorder_ids(0).contains(x) <==> self.contains(x),
            self.preorder_ids(0).no_duplicates(),
    {
        self.lemma_preorder_ids_unique(0);
        self.lemma_wf();
        self.lemma_preorder_live(0);
        let s = self.preorder(0);
        let ids = self.preorder_ids(0);
        assert forall|x: NodeId| #[trigger] ids.contains(x) <==> self.contains(x) by {
            if ids.contains(x) {
                let m = choose|m: int| 0 <= m < ids.len() && ids[m] == x;
                assert(ids[m] == self.id_of(s[m] as int));
                assert(self.is_live(s[m] as int));
            }
            if self.contains(x) {
                let i = x.index as int;
                self.lemma_root_reaches(i);
                let m = choose|m: int| 0 <= m < s.len() && s[m] == i as usize;
                assert(ids[m] == self.id_of(i));
            }
        }
    }

    /// The subtrees holding a slot form a chain.
    pub proof fn lemma_subtree_chain(&self, a: int, b: int, x: int)
        requires
            self.wf(),
            self.is_live(a),
            self.is_live(b),
            self.in_subtree(a, x),
            self.in_subtree(b, x),
        ensures
            self.in_subtree(a, b) || self.in_subtree(b, a),
        decreases self.rank_of(x),
    {
        if x == a {
        } else if x == b {
        } else {
            self.lemma_subtree_parent(a, x);
            self.lemma_subtree_parent(b, x);
            let p = self.parent_of(x);
            self.lemma_parent_link(x);
            self.lemma_subtree_chain(a, b, p);
        }
    }

    /// Subtrees of distinct children are disjoint.
    proof fn lemma_sibling_subtrees_disjoint(&self, n: int, i: int, j: int, x: int)
        requires
            self.wf(),
            self.is_live(n),
            0 <= i < self.children(n).len(),
            0 <= j < self.children(n).len(),
            i != j,
            self.in_subtree(self.children(n)[i] as int, x),
        ensures
            !self.in_subtree(self.children(n)[j] as int, x),
    {
        let ci = self.children(n)[i] as int;
        let cj = self.children(n)[j] as int;
        assert(self.is_live(ci) && self.is_live(cj));
        assert(ci != cj);
        if self.in_subtree(cj, x) {
            self.lemma_subtree_chain(ci, cj, x);
            if self.in_subtree(ci, cj) {
                self.lemma_subtree_parent(ci, cj);
                self.lemma_subtree_rank(ci, n);
            } else {
                self.lemma_subtree_parent(cj, ci);
                self.lemma_subtree_rank(cj, n);
            }
        }
    }

    /// A pre-order lists each slot of the subtree once.
    pub proof fn lemma_preorder_no_duplicates(&self, n: int)
        requires
            self.wf(),
            self.is_live(n),
        ensures
            self.preorder(n).no_duplicates(),
        decreases self.bound() - self.rank_of(n), 1int,
    {
        let len = self.children(n).len() as int;
        self.lemma_preorder_children_no_duplicates(n, len);
        let a = seq![n as usize];
        let b = self.preorder_children(n, len);
        self.lemma_preorder_children_member(n, len, n as usize);
        if b.contains(n as usize) {
            let j = choose|j: int| 0 <= j < len && #[trigger] self.preorder(self.children(n)[j] as int).contains(n as usize);
            let c = self.children(n)[j] as int;
            assert(self.is_live(c));
            self.lemma_subtree_rank(c, n);
            assert(self.below(n, c));
        }
        assert forall|u: int, v: int| 0 <= u < v < (a + b).len() implies (a + b)[u] != (a + b)[v] by {
            if u == 0 {
                assert((a + b)[v] == b[v - 1]);
            } else {
                assert((a + b)[u] == b[u - 1]);
                assert((a + b)[v] == b[v - 1]);
            }
        }
    }

    proof fn lemma_preorder_children_no_duplicates(&self, n: int, k: int)
        requires
            self.wf(),
            self.is_live(n),
            0 <= k <= self.children(n).len(),
        ensures
            self.preorder_children(n, k).no_duplicates(),
        decreases self.bound() - self.rank_of(n), 0int, k,
    {
        if k > 0 {
            let c = self.children(n)[k - 1] as int;
            assert(self.is_live(c));
            assert(self.below(n, c));
            self.lemma_preorder_children_no_duplicates(n, k - 1);
            self.lemma_preorder_no_duplicates(c);
            let a = self.preorder_children(n, k - 1);
            let b = self.preorder(c);
            self.lemma_wf();
            self.lemma_preorder_live(c);
            assert forall|u: int, v: int| 0 <= u < a.len() && 0 <= v < b.len() implies a[u] != b[v] by {
                let x = a[u];
                self.lemma_preorder_children_member(n, k - 1, x);
                assert(a.contains(x));
                let j = choose|j: int| 0 <= j < k - 1 && #[trigger] self.preorder(self.children(n)[j] as int).contains(x);
                if x == b[v] {
                    assert(self.is_live(x as int));
                    assert(self.in_subtree(self.children(n)[j] as int, x as int));
                    self.lemma_sibling_subtrees_disjoint(n, j, k - 1, x as int);
                    assert(self.in_subtree(c, x as int));
                }
            }
            assert forall|u: int, v: int| 0 <= u < v < (a + b).len() implies (a + b)[u] != (a + b)[v] by {
                if v < a.len() {
                } else if u >= a.len() {
                    assert((a + b)[u] == b[u - a.len()]);
                    assert((a + b)[v] == b[v - a.len()]);
                } else {
                    assert((a + b)[v] == b[v - a.len()]);
                }
            }
        }
    }

    /// Strict subtree members rank strictly above the subtree's root.
    pub proof fn lemma_subtree_rank_strict(&self, a: int, x: int)
        requires
            self.wf(),
            self.is_live(a),
            self.in_subtree(a, x),
            x != a,
        ensures
            self.rank_of(a) < self.rank_of(x),
    {
        let j = self.lemma_child_toward(a, x);
        let c = self.children(a)[j] as int;
        assert(self.is_live(c));
        assert(self.below(a, c));
        self.lemma_subtree_rank(c, x);
    }

    /// Every node of a pre-order is live.
    pub proof fn lemma_preorder_live(&self, n: int)
        requires
            self.wf(),
            self.is_live(n),
        ensures
            forall|j: int| 0 <= j < self.preorder(n).len() ==> self.is_live(#[trigger] self.preorder(n)[j] as int),
        decreases self.bound() - self.rank_of(n), 1int, 0int,
    {
        let k = self.children(n).len() as int;
        self.lemma_preorder_children_live(n, k);
        let a = seq![n as usize];
        let b = self.preorder_children(n, k);
        assert(self.preorder(n) == a + b);
        assert forall|j: int| 0 <= j < (a + b).len() implies self.is_live(#[trigger] (a + b)[j] as int) by {
            if j >= 1 {
                assert((a + b)[j] == b[j - 1]);
            }
        }
    }

    /// Every node of the first `k` children's pre-orders is live.
    pub proof fn lemma_preorder_children_live(&self, n: int, k: int)
        requires
            self.wf(),
            self.is_live(n),
            0 <= k <= self.children(n).len(),
        ensures
            forall|j: int| 0 <= j < self.preorder_children(n, k).len()
                ==> self.is_live(#[trigger] self.preorder_children(n, k)[j] as int),
        decreases self.bound() - self.rank_of(n), 0int, k,
    {
        if k > 0 {
            let c = self.children(n)[k - 1] as int;
            self.lemma_preorder_children_live(n, k - 1);
            assert(self.is_live(c));
            if self.below(n, c) {
                self.lemma_preorder_live(c);
                let a = self.preorder_children(n, k - 1);
                let b = self.preorder(c);
                assert forall|j: int| 0 <= j < (a + b).len() implies self.is_live(#[trigger] (a + b)[j] as int) by {
                    if j < a.len() {
                        assert((a + b)[j] == a[j]);
                    } else {
                        assert((a + b)[j] == b[j - a.len()]);
                    }
                }
            }
        }
    }
    /// Extends the arena with vacant slots until slot `i` exists.
    fn grow(&mut self, i: usize)
        requires
            old(self).wf(),
            i < max_slots(),
        ensures
            final(self).wf(),
            (i as int) < final(self).len(),
            old(self).len() <= final(self).len(),
            final(self).free_list() == old(self).free_list(),
            final(self).bound() == old(self).bound(),
            forall|j: int| 0 <= j < old(self).len() ==> #[trigger] final(self).slots()[j] == old(self).slots()[j],
            forall|j: int| 0 <= j < old(self).len() ==> #[trigger] final(self).ranks()[j] == old(self).ranks()[j],
            forall|j: int| old(self).len() <= j < final(self).len() ==> !(#[trigger] final(self).slots()[j]).live
                && final(self).slots()[j].issued == 0,
            forall|x: NodeId| #[trigger] final(self).contains(x) == old(self).contains(x),
            forall|x: NodeId| #[trigger] final(self).taken(x) == old(self).taken(x),
            forall|x: NodeId| #[trigger] final(self).was_issued(x) == old(self).was_issued(x) || (x.index as int)
                >= old(self).len(),
            old(self).len() <= i ==> final(self).len() == i + 1,
            i < old(self).len() ==> final(self).len() == old(self).len(),
    {
        let ghost old_t = *self;
        while self.slots.len() <= i
            invariant
                old_t.wf(),
                i < max_slots(),
                old_t.len() <= self.len() <= max_slots(),
                old_t.len() <= i ==> self.len() <= i + 1,
                i < old_t.len() ==> self.len() == old_t.len(),
                self.ranks().len() == self.len(),
                self.free_list() == old_t.free_list(),
                self.bound() == old_t.bound(),
                forall|j: int| 0 <= j < old_t.len() ==> #[trigger] self.slots()[j] == old_t.slots()[j],
                forall|j: int| 0 <= j < old_t.len() ==> #[trigger] self.ranks()[j] == old_t.ranks()[j],
                forall|j: int| old_t.len() <= j < self.len() ==> !(#[trigger] self.slots()[j]).live
                    && self.slots()[j].issued == 0 && self.ranks()[j] == 0,
            decreases i + 1 - self.slots.len(),
        {
            self.slots.push(Slot { issued: 0, live: false, parent: 0, children: Vec::new(), z_order: 0 });
            self.rank = Ghost(self.rank@.push(0));
        }
        proof {
            assert(old_t.rank_of(0) < old_t.bound());
            assert forall|j: int| #[trigger] self.is_live(j) implies j < old_t.len() && old_t.is_live(j) by {}
            assert forall|j: int| 0 <= j < self.len() implies #[trigger] self.rank_of(j) < self.bound() by {
                if j < old_t.len() {
                    assert(old_t.rank_of(j) < old_t.bound());
                } else {
                    assert(!self.slots()[j].live);
                }
            }
            assert forall|j: int| 0 <= j < self.len() implies #[trigger] self.slots()[j].issued <= max_slots() by {
                if j < old_t.len() {
                    assert(old_t.slots()[j] == self.slots()[j]);
                }
            }
            assert forall|a: int, k: int| #[trigger] self.is_live(a) && 0 <= k < self.children(a).len()
                implies {
                let c = #[trigger] self.children(a)[k] as int;
                &&& c != 0
                &&& self.is_live(c)
                &&& self.parent_of(c) == a
            } by {
                assert(old_t.is_live(a));
                assert(old_t.children(a) == self.children(a));
                let c = old_t.children(a)[k] as int;
                assert(old_t.is_live(c));
            }
            assert forall|x: NodeId| #[trigger] self.taken(x) == old_t.taken(x) by {}
            assert forall|x: NodeId| #[trigger] self.was_issued(x) == old_t.was_issued(x) || (x.index as int)
                >= old_t.len() by {}
        }
    }

    /// Occupying vacant slot `i` as the last child of live `p` keeps the
    /// tree well formed.
    proof fn lemma_attach(mid: Tree, t: Tree, i: int, p: int, id: NodeId, parent: NodeId)
        requires
            mid.wf(),
            0 <= i < mid.len(),
            !mid.is_live(i),
            mid.is_live(p),
            id.index == i,
            parent.index == p,
            mid.contains(parent),
            t.len() == mid.len(),
            t.ranks() == mid.ranks().update(i, mid.bound()),
            t.bound() == mid.bound() + 1,
            t.free_list() == mid.free_list(),
            forall|j: int| 0 <= j < t.len() && j != i && j != p ==> #[trigger] t.slots()[j] == mid.slots()[j],
            t.slots()[i].live,
            t.slots()[i].issued == id.generation + 1,
            t.slots()[i].parent == p,
            t.children(i) == Seq::<usize>::empty(),
            t.slots()[p].live,
            t.slots()[p].issued == mid.slots()[p].issued,
            t.slots()[p].parent == mid.slots()[p].parent,
            t.children(p) == mid.children(p).push(i as usize),
            mid.slots()[i].issued <= id.generation,
        ensures
            t.wf(),
            t.contains(id),
            forall|x: NodeId| #[trigger] t.contains(x) == (mid.contains(x) || x == id),
            forall|x: NodeId| mid.was_issued(x) ==> #[trigger] t.was_issued(x),
            forall|j: int| 0 <= j < t.len() && j != p && j != i ==> #[trigger] t.children(j) == mid.children(j),
            forall|j: int| 0 <= j < t.len() && j != i ==> #[trigger] t.parent_of(j) == mid.parent_of(j),
    {
        assert(i != 0);
        assert(i != p);
        assert forall|j: int| 0 <= j < t.len() implies #[trigger] t.rank_of(j) < t.bound() by {
            if j != i {
                assert(mid.rank_of(j) < mid.bound());
            }
        }
        assert forall|j: int| 0 <= j < t.len() implies #[trigger] t.slots()[j].issued <= max_slots() by {
            if j != i && j != p {
                assert(mid.slots()[j] == t.slots()[j]);
            }
        }
        assert forall|x: int| #[trigger] t.is_live(x) implies 1 <= t.slots()[x].issued <= max_slots() by {
            if x != i && x != p {
                assert(mid.is_live(x));
            }
        }
        assert(!mid.children(p).contains(i as usize)) by {
            if mid.children(p).contains(i as usize) {
                let k = choose|k: int| 0 <= k < mid.children(p).len() && mid.children(p)[k] == i as usize;
                assert(mid.is_live(mid.children(p)[k] as int));
            }
        }
        assert forall|x: int| #[trigger] t.is_live(x) && x != 0 implies {
            let q = t.parent_of(x);
            &&& t.is_live(q)
            &&& t.children(q).contains(x as usize)
            &&& t.below(q, x)
        } by {
            if x == i {
                assert(t.children(p)[t.children(p).len() - 1] == i as usize);
                assert(mid.rank_of(p) < mid.bound());
            } else {
                assert(mid.is_live(x));
                let q = mid.parent_of(x);
                assert(t.parent_of(x) == q);
                assert(mid.children(q).contains(x as usize));
                let k = choose|k: int| 0 <= k < mid.children(q).len() && mid.children(q)[k] == x as usize;
                assert(t.children(q)[k] == x as usize);
                assert(q != i);
            }
        }
        assert forall|a: int, k: int| #[trigger] t.is_live(a) && 0 <= k < t.children(a).len()
            implies {
            let c = #[trigger] t.children(a)[k] as int;
            &&& c != 0
            &&& t.is_live(c)
            &&& t.parent_of(c) == a
        } by {
            if a != i {
                assert(mid.is_live(a));
                if a == p && k == mid.children(a).len() {
                } else {
                    assert(t.children(a)[k] == mid.children(a)[k]);
                    assert(mid.is_live(mid.children(a)[k] as int));
                    assert(mid.parent_of(mid.children(a)[k] as int) == a);
                }
            }
        }
        assert forall|a: int| #[trigger] t.is_live(a) implies t.children(a).no_duplicates() by {
            if a != i && a != p {
                assert(mid.is_live(a));
            } else if a == p {
                assert(mid.children(a).no_duplicates());
            }
        }
        assert forall|k: int| 0 <= k < t.free_list().len() implies #[trigger] t.free_list()[k] < t.len() by {
            assert(mid.free_list()[k] < mid.len());
        }
        assert forall|x: NodeId| #[trigger] t.contains(x) == (mid.contains(x) || x == id) by {}
        assert forall|x: NodeId| mid.was_issued(x) implies #[trigger] t.was_issued(x) by {
            if x.index != i && x.index != p {
                assert(t.slots()[x.index as int] == mid.slots()[x.index as int]);
            }
        }
    }

    /// Detaching the subtree at `i` from its parent and vacating all of its
    /// slots keeps the tree well formed.
    proof fn lemma_detach(o: Tree, t: Tree, i: int, pos: int)
        requires
            o.wf(),
            o.is_live(i),
            i != 0,
            0 <= pos < o.children(o.parent_of(i)).len(),
            o.children(o.parent_of(i))[pos] == i as usize,
            t.len() == o.len(),
            t.ranks() == o.ranks(),
            t.bound() == o.bound(),
            forall|k: int| 0 <= k < t.free_list().len() ==> #[trigger] t.free_list()[k] < t.len(),
            forall|j: int| 0 <= j < t.len() ==> (#[trigger] t.slots()[j]).live == (o.slots()[j].live
                && !o.in_subtree(i, j)),
            forall|j: int| 0 <= j < t.len() ==> (#[trigger] t.slots()[j]).issued == o.slots()[j].issued,
            forall|j: int| 0 <= j < t.len() ==> (#[trigger] t.slots()[j]).parent == o.slots()[j].parent,
            forall|j: int| 0 <= j < t.len() && j != o.parent_of(i) ==> #[trigger] t.children(j) == o.children(j),
            t.children(o.parent_of(i)) == o.children(o.parent_of(i)).remove(pos),
        ensures
            t.wf(),
    {
        let p = o.parent_of(i);
        o.lemma_preorder_member(i, i as usize);
        assert(o.in_subtree(i, i));
        assert(!o.in_subtree(i, 0)) by {
            if o.in_subtree(i, 0) {
                o.lemma_subtree_parent(i, 0);
            }
        }
        assert(!o.in_subtree(i, p)) by {
            if o.in_subtree(i, p) {
                o.lemma_preorder_live(i);
                o.lemma_subtree_child(i, p, pos);
                // i would be a strict descendant of itself
                assert(o.below(p, i));
                o.lemma_subtree_rank(i, p);
            }
        }
        assert forall|x: int| #[trigger] t.is_live(x) implies o.is_live(x) && !o.in_subtree(i, x) by {}
        assert forall|x: int| #[trigger] t.is_live(x) implies 1 <= t.slots()[x].issued <= max_slots() by {
            assert(o.is_live(x));
        }
        assert forall|x: int| #[trigger] t.is_live(x) && x != 0 implies {
            let q = t.parent_of(x);
            &&& t.is_live(q)
            &&& t.children(q).contains(x as usize)
            &&& t.below(q, x)
        } by {
            assert(o.is_live(x));
            let q = o.parent_of(x);
            assert(o.is_live(q));
            if o.in_subtree(i, q) {
                let k = choose|k: int| 0 <= k < o.children(q).len() && o.children(q)[k] == x as usize;
                o.lemma_subtree_child(i, q, k);
            }
            assert(t.is_live(q));
            let k = choose|k: int| 0 <= k < o.children(q).len() && o.children(q)[k] == x as usize;
            if q == p {
                assert(x != i);
                if k < pos {
                    assert(t.children(q)[k] == x as usize);
                } else {
                    assert(k != pos);
                    assert(t.children(q)[k - 1] == x as usize);
                }
            } else {
                assert(t.children(q)[k] == x as usize);
            }
        }
        assert forall|a: int, k: int| #[trigger] t.is_live(a) && 0 <= k < t.children(a).len()
            implies {
            let c = #[trigger] t.children(a)[k] as int;
            &&& c != 0
            &&& t.is_live(c)
            &&& t.parent_of(c) == a
        } by {
            assert(o.is_live(a));
            let ko = if a == p && k >= pos { k + 1 } else { k };
            assert(t.children(a)[k] == o.children(a)[ko]);
            let c = o.children(a)[ko] as int;
            assert(o.is_live(c));
            assert(o.parent_of(c) == a);
            if o.in_subtree(i, c) {
                if c == i {
                    assert(a == p);
                    assert(o.children(a).no_duplicates());
                    assert(ko == pos);
                } else {
                    o.lemma_subtree_parent(i, c);
                }
            }
        }
        assert forall|a: int| #[trigger] t.is_live(a) implies t.children(a).no_duplicates() by {
            assert(o.is_live(a));
            assert(o.children(a).no_duplicates());
            if a == p {
                let s0 = o.children(a);
                let s1 = t.children(a);
                assert forall|u: int, v: int| 0 <= u < s1.len() && 0 <= v < s1.len() && u != v
                    implies s1[u] != s1[v] by {
                    let uo = if u >= pos { u + 1 } else { u };
                    let vo = if v >= pos { v + 1 } else { v };
                    assert(s1[u] == s0[uo]);
                    assert(s1[v] == s0[vo]);
                }
            }
        }
        assert forall|j: int| 0 <= j < t.len() implies #[trigger] t.rank_of(j) < t.bound() by {
            assert(o.rank_of(j) < o.bound());
        }
        assert forall|j: int| 0 <= j < t.len() implies #[trigger] t.slots()[j].issued <= max_slots() by {
            assert(o.slots()[j].issued <= max_slots());
        }
        assert(t.slots()[0].live);
    }

    /// Subtree members rank no lower than the subtree's root.
    pub proof fn lemma_subtree_rank(&self, a: int, x: int)
        requires
            self.wf(),
            self.is_live(a),
            self.in_subtree(a, x),
        ensures
            self.rank_of(a) <= self.rank_of(x),
        decreases self.bound() - self.rank_of(a),
    {
        if x != a {
            self.lemma_preorder_member(a, x as usize);
            let j = choose|j: int|
                0 <= j < self.children(a).len() && #[trigger] self.preorder(self.children(a)[j] as int).contains(x as usize);
            let cj = self.children(a)[j] as int;
            assert(self.is_live(cj));
            assert(self.below(a, cj));
            self.lemma_subtree_rank(cj, x);
        }
    }

    /// Removes `id` and its whole subtree. The root cannot be removed.
    pub fn remove(&mut self, id: NodeId) -> (r: Result<(), TreeError>)
        requires
            old(self).wf(),
        ensures
            final(self).wf(),
            (r is Err) == (!old(self).contains(id) || id.index == 0),
            r is Err ==> r == Err::<(), TreeError>(TreeError::NotFound) && *final(self) == *old(self),
            r is Ok ==> forall|x: NodeId| #[trigger] final(self).contains(x) == (old(self).contains(x)
                && !old(self).in_subtree(id.index as int, x.index as int)),
            forall|x: NodeId| #[trigger] final(self).was_issued(x) == old(self).was_issued(x),
    {
        if id.index == 0 || !self.contains_id(id) {
            return Err(TreeError::NotFound);
        }
        let ghost o = *self;
        let i = id.index as usize;
        let mut sub: Vec<usize> = Vec::new();
        self.collect_preorder(i, &mut sub);
        assert(sub@ =~= o.preorder(i as int));
        proof { o.lemma_preorder_live(i as int); }
        let p = self.slots[i].parent;
        assert(self.children(p as int).contains(i));
        let clen = self.slots[p].children.len();
        let mut pos: usize = 0;
        while self.slots[p].children[pos] != i
            invariant
                *self == o,
                clen == o.children(p as int).len(),
                o.wf(),
                o.is_live(p as int),
                p == o.parent_of(i as int),
                pos < o.children(p as int).len(),
                exists|m: int| pos <= m < o.children(p as int).len() && o.children(p as int)[m] == i,
            decreases o.children(p as int).len() - pos,
        {
            pos += 1;
        }
        self.slots[p].children.remove(pos);
        let ghost mid = *self;
        assert(self.free_list() == o.free_list());
        assert(forall|m: int| 0 <= m < o.free_list().len() ==> #[trigger] o.free_list()[m] < o.len());
        let mut k: usize = 0;
        while k < sub.len()
            invariant
                o.wf(),
                sub@ == o.preorder(i as int),
                forall|j: int| 0 <= j < sub@.len() ==> o.is_live(#[trigger] sub@[j] as int),
                k <= sub@.len(),
                self.len() == o.len(),
                self.ranks() == o.ranks(),
                self.bound() == o.bound(),
                forall|m: int| 0 <= m < self.free_list().len() ==> #[trigger] self.free_list()[m] < self.len(),
                forall|j: int| 0 <= j < self.len() ==> (#[trigger] self.slots()[j]).live == (mid.slots()[j].live
                    && !sub@.subrange(0, k as int).contains(j as usize)),
                forall|j: int| 0 <= j < self.len() ==> (#[trigger] self.slots()[j]).issued == mid.slots()[j].issued,
                forall|j: int| 0 <= j < self.len() ==> (#[trigger] self.slots()[j]).parent == mid.slots()[j].parent,
                forall|j: int| 0 <= j < self.len() ==> #[trigger] self.children(j) == mid.children(j),
            decreases sub.len() - k,
        {
            let s = sub[k];
            assert(o.is_live(s as int));
            let ghost before = *self;
            self.slots[s].live = false;
            self.free.push(s);
            k += 1;
            assert forall|j: int| 0 <= j < self.len() implies #[trigger] self.children(j) == mid.children(j) by {
                assert(before.children(j) == mid.children(j));
            }
            assert forall|m: int| 0 <= m < self.free_list().len() implies #[trigger] self.free_list()[m] < self.len() by {
                if m < before.free_list().len() {
                    assert(before.free_list()[m] < before.len());
                }
            }
            assert forall|j: int| 0 <= j < self.len() implies (#[trigger] self.slots()[j]).live == (mid.slots()[j].live
                && !sub@.subrange(0, k as int).contains(j as usize)) by {
                let pre = sub@.subrange(0, k as int - 1);
                assert(sub@.subrange(0, k as int) =~= pre.push(s));
                if j == s as int {
                    assert(sub@.subrange(0, k as int)[k as int - 1] == s);
                }
            }
        }
        assert(sub@.subrange(0, k as int) =~= sub@);
        proof {
            assert forall|j: int| 0 <= j < self.len() implies (#[trigger] self.slots()[j]).live == (o.slots()[j].live
                && !o.in_subtree(i as int, j)) by {}
            Tree::lemma_detach(o, *self, i as int, pos as int);
            assert forall|x: NodeId| #[trigger] self.contains(x) == (o.contains(x)
                && !o.in_subtree(i as int, x.index as int)) by {
                if (x.index as int) < self.len() {
                    assert(self.slots()[x.index as int].live == (o.slots()[x.index as int].live
                        && !o.in_subtree(i as int, x.index as int)));
                }
            }
            assert forall|x: NodeId| #[trigger] self.was_issued(x) == o.was_issued(x) by {
                if (x.index as int) < self.len() {
                    assert(self.slots()[x.index as int].issued == o.slots()[x.index as int].issued);
                }
            }
        }
        Ok(())
    }

    /// Changing only draw priorities and the free list keeps the tree well
    /// formed.
    proof fn lemma_same_shape(o: Tree, t: Tree)
        requires
            o.wf(),
            t.len() == o.len(),
            t.ranks() == o.ranks(),
            t.bound() == o.bound(),
            forall|k: int| 0 <= k < t.free_list().len() ==> #[trigger] t.free_list()[k] < t.len(),
            forall|j: int| 0 <= j < t.len() ==> (#[trigger] t.slots()[j]).live == o.slots()[j].live,
            forall|j: int| 0 <= j < t.len() ==> (#[trigger] t.slots()[j]).issued == o.slots()[j].issued,
            forall|j: int| 0 <= j < t.len() ==> (#[trigger] t.slots()[j]).parent == o.slots()[j].parent,
            forall|j: int| 0 <= j < t.len() ==> #[trigger] t.children(j) == o.children(j),
        ensures
            t.wf(),
            forall|x: NodeId| #[trigger] t.contains(x) == o.contains(x),
            forall|x: NodeId| #[trigger] t.was_issued(x) == o.was_issued(x),
    {
        assert forall|x: int| #[trigger] t.is_live(x) == o.is_live(x) by {
            if 0 <= x < t.len() {
                assert(t.slots()[x].live == o.slots()[x].live);
            }
        }
        assert forall|j: int| 0 <= j < t.len() implies #[trigger] t.slots()[j].issued <= max_slots() by {
            assert(o.slots()[j].issued <= max_slots());
        }
        assert forall|j: int| 0 <= j < t.len() implies #[trigger] t.rank_of(j) < t.bound() by {
            assert(o.rank_of(j) < o.bound());
        }
        assert forall|x: int| #[trigger] t.is_live(x) implies 1 <= t.slots()[x].issued <= max_slots() by {
            assert(o.is_live(x));
            assert(t.slots()[x].issued == o.slots()[x].issued);
        }
        assert forall|a: int, k: int| #[trigger] t.is_live(a) && 0 <= k < t.children(a).len()
            implies {
            let c = #[trigger] t.children(a)[k] as int;
            &&& c != 0
            &&& t.is_live(c)
            &&& t.parent_of(c) == a
        } by {
            assert(o.is_live(a));
            assert(t.children(a) == o.children(a));
            let c = o.children(a)[k] as int;
            assert(o.is_live(c));
            assert(t.slots()[c].parent == o.slots()[c].parent);
        }
        assert forall|x: int| #[trigger] t.is_live(x) && x != 0 implies {
            let q = t.parent_of(x);
            &&& t.is_live(q)
            &&& t.children(q).contains(x as usize)
            &&& t.below(q, x)
        } by {
            assert(o.is_live(x));
            assert(t.slots()[x].parent == o.slots()[x].parent);
            assert(t.children(o.parent_of(x)) == o.children(o.parent_of(x)));
        }
        assert forall|x: int| #[trigger] t.is_live(x) implies t.children(x).no_duplicates() by {
            assert(o.is_live(x));
            assert(t.children(x) == o.children(x));
        }
        assert(t.slots()[0].live && t.slots()[0].issued == 1) by {
            assert(t.slots()[0].live == o.slots()[0].live);
            assert(t.slots()[0].issued == o.slots()[0].issued);
        }
        assert forall|x: NodeId| #[trigger] t.contains(x) == o.contains(x) by {
            if (x.index as int) < t.len() {
                assert(t.slots()[x.index as int].issued == o.slots()[x.index as int].issued);
            }
        }
        assert forall|x: NodeId| #[trigger] t.was_issued(x) == o.was_issued(x) by {
            if (x.index as int) < t.len() {
                assert(t.slots()[x.index as int].issued == o.slots()[x.index as int].issued);
            }
        }
    }

    /// Allocates a fresh id, reusing a vacated slot when one is free, and
    /// inserts it as the last child of `parent`. The id differs from every id
    /// handed out before for the same slot.
    pub fn create(&mut self, parent: NodeId) -> (r: Result<NodeId, TreeError>)
        requires
            old(self).wf(),
            old(self).len() < max_slots(),
        ensures
            final(self).wf(),
            (r == Err::<NodeId, TreeError>(TreeError::ParentNotFound)) == !old(self).contains(parent),
            r is Err ==> r == Err::<NodeId, TreeError>(TreeError::ParentNotFound),
            r matches Ok(id) ==> {
                &&& final(self).contains(id)
                &&& !old(self).was_issued(id)
                &&& final(self).parent_of(id.index as int) == parent.index as int
                &&& forall|x: NodeId| #[trigger] final(self).contains(x) == (old(self).contains(x) || x == id)
            },
            r is Err ==> *final(self) == *old(self),
            forall|x: NodeId| old(self).was_issued(x) ==> #[trigger] final(self).was_issued(x),
            final(self).len() <= old(self).len() + 1,
            r matches Ok(id) ==> {
                &&& final(self).children(parent.index as int) == old(self).children(parent.index as int).push(
                    id.index as usize,
                )
                &&& final(self).children(id.index as int).len() == 0
                &&& forall|x: NodeId| #[trigger] old(self).contains(x) ==> final(self).parent_of(x.index as int)
                    == old(self).parent_of(x.index as int)
                &&& forall|j: int| 0 <= j < old(self).len() && j != parent.index && j != id.index
                    ==> #[trigger] final(self).children(j) == old(self).children(j)
            },
    {
        if !self.contains_id(parent) {
            return Err(TreeError::ParentNotFound);
        }
        let ghost o = *self;
        while self.free.len() > 0
            invariant
                o == *old(self),
                self.wf(),
                self.contains(parent),
                self.len() < max_slots(),
                self.slots() == o.slots(),
                forall|x: NodeId| #[trigger] self.contains(x) == o.contains(x),
                forall|x: NodeId| #[trigger] self.was_issued(x) == o.was_issued(x),
                self.len() == o.len(),
                forall|j: int| 0 <= j < o.len() ==> #[trigger] self.children(j) == o.children(j),
                forall|j: int| 0 <= j < o.len() ==> #[trigger] self.parent_of(j) == o.parent_of(j),
            decreases self.free.len(),
        {
            let ghost before = *self;
            let f = self.free.pop().unwrap();
            proof {
                assert(before.free_list()[before.free_list().len() - 1] == f);
                assert forall|j: int| 0 <= j < before.len() implies #[trigger] self.children(j) == before.children(j) by {}
                Tree::lemma_same_shape(before, *self);
            }
            if !self.slots[f].live && self.slots[f].issued <= u32::MAX as u64 {
                let id = NodeId { index: f as u32, generation: self.slots[f].issued as u32 };
                assert(id.generation == self.slots()[f as int].issued);
                assert(!self.was_issued(id));
                assert(!o.was_issued(id));
                assert(o.contains(parent));
                let ghost before = *self;
                let res = self.add(id, parent);
                assert(res is Ok);
                assert forall|x: NodeId| #[trigger] o.contains(x) implies self.parent_of(x.index as int) == o.parent_of(
                    x.index as int) by {
                    assert(before.contains(x));
                }
                assert(forall|x: NodeId| #[trigger] self.contains(x) == (o.contains(x) || x == id));
                return Ok(id);
            }
        }
        let n = self.slots.len();
        let id = NodeId { index: n as u32, generation: 0 };
        let ghost before = *self;
        let res = self.add(id, parent);
        assert(res is Ok);
        assert forall|x: NodeId| #[trigger] o.contains(x) implies self.parent_of(x.index as int) == o.parent_of(
            x.index as int) by {
            assert(before.contains(x));
        }
        Ok(id)
    }

    /// Structural parent: `Ok(None)` for the root, `NotFound` for an id that
    /// names no live node.
    pub fn parent(&self, id: NodeId) -> (r: Result<Option<NodeId>, TreeError>)
        requires
            self.wf(),
        ensures
            !self.contains(id) ==> r == Err::<Option<NodeId>, TreeError>(TreeError::NotFound),
            self.contains(id) && id.index == 0 ==> r == Ok::<Option<NodeId>, TreeError>(None),
            self.contains(id) && id.index != 0 ==> r == Ok::<Option<NodeId>, TreeError>(
                Some(self.id_of(self.parent_of(id.index as int))),
            ),
    {
        if !self.contains_id(id) {
            return Err(TreeError::NotFound);
        }
        if id.index == 0 {
            return Ok(None);
        }
        let p = self.slots[id.index as usize].parent;
        Ok(Some(self.id_at(p)))
    }

    /// First child in sibling order.
    pub fn first_child(&self, id: NodeId) -> (r: Result<Option<NodeId>, TreeError>)
        requires
            self.wf(),
        ensures
            !self.contains(id) ==> r == Err::<Option<NodeId>, TreeError>(TreeError::NotFound),
            self.contains(id) && self.children(id.index as int).len() == 0 ==> r == Ok::<
                Option<NodeId>,
                TreeError,
            >(None),
            self.contains(id) && self.children(id.index as int).len() > 0 ==> r == Ok::<
                Option<NodeId>,
                TreeError,
            >(Some(self.id_of(self.children(id.index as int)[0] as int))),
    {
        if !self.contains_id(id) {
            return Err(TreeError::NotFound);
        }
        let i = id.index as usize;
        if self.slots[i].children.len() == 0 {
            return Ok(None);
        }
        let c = self.slots[i].children[0];
        assert(self.children(i as int)[0] == c);
        Ok(Some(self.id_at(c)))
    }

    /// Next sibling: `Ok(None)` for the root and for a last child.
    pub fn next_sibling(&self, id: NodeId) -> (r: Result<Option<NodeId>, TreeError>)
        requires
            self.wf(),
        ensures
            !self.contains(id) ==> r == Err::<Option<NodeId>, TreeError>(TreeError::NotFound),
            self.contains(id) && id.index == 0 ==> r == Ok::<Option<NodeId>, TreeError>(None),
            self.contains(id) && id.index != 0 ==> {
                let sib = self.children(self.parent_of(id.index as int));
                exists|k: int| {
                    &&& 0 <= k < sib.len()
                    &&& #[trigger] sib[k] == id.index as usize
                    &&& k + 1 == sib.len() ==> r == Ok::<Option<NodeId>, TreeError>(None)
                    &&& k + 1 < sib.len() ==> r == Ok::<Option<NodeId>, TreeError>(Some(self.id_of(sib[k + 1] as int)))
                }
            },
    {
        if !self.contains_id(id) {
            return Err(TreeError::NotFound);
        }
        if id.index == 0 {
            return Ok(None);
        }
        let i = id.index as usize;
        let p = self.slots[i].parent;
        let ghost sib = self.children(p as int);
        let clen = self.slots[p].children.len();
        let mut k: usize = 0;
        while self.slots[p].children[k] != i
            invariant
                self.wf(),
                self.is_live(p as int),
                sib == self.children(p as int),
                clen == sib.len(),
                k < sib.len(),
                exists|m: int| k <= m < sib.len() && sib[m] == i,
            decreases sib.len() - k,
        {
            k += 1;
        }
        assert(sib[k as int] == i);
        if k + 1 == clen {
            return Ok(None);
        }
        let c = self.slots[p].children[k + 1];
        assert(self.is_live(c as int));
        Ok(Some(self.id_at(c)))
    }

    /// Draw priority of `id` among its relatives; 0 until set.
    pub fn z_order(&self, id: NodeId) -> (r: Result<i32, TreeError>)
        requires
            self.wf(),
        ensures
            !self.contains(id) ==> r == Err::<i32, TreeError>(TreeError::NotFound),
            self.contains(id) ==> r == Ok::<i32, TreeError>(self.slots()[id.index as int].z_order),
    {
        if !self.contains_id(id) {
            return Err(TreeError::NotFound);
        }
        Ok(self.slots[id.index as usize].z_order)
    }

    /// Sets the draw priority of `id`; sibling links are untouched.
    pub fn set_z_order(&mut self, id: NodeId, value: i32) -> (r: Result<(), TreeError>)
        requires
            old(self).wf(),
        ensures
            final(self).wf(),
            !old(self).contains(id) ==> r == Err::<(), TreeError>(TreeError::NotFound) && *final(self) == *old(self),
            old(self).contains(id) ==> r == Ok::<(), TreeError>(()),
            final(self).len() == old(self).len(),
            forall|j: int| 0 <= j < old(self).len() ==> #[trigger] final(self).children(j) == old(self).children(j),
            forall|j: int| 0 <= j < old(self).len() && j != id.index ==> #[trigger] final(self).slots()[j] == old(self).slots()[j],
            old(self).contains(id) ==> final(self).slots()[id.index as int].z_order == value,
            forall|x: NodeId| #[trigger] final(self).contains(x) == old(self).contains(x),
    {
        if !self.contains_id(id) {
            return Err(TreeError::NotFound);
        }
        let ghost o = *self;
        self.slots[id.index as usize].z_order = value;
        proof {
            assert forall|j: int| 0 <= j < o.len() implies #[trigger] self.children(j) == o.children(j) by {}
            assert(self.free_list() == o.free_list());
            assert(forall|k: int| 0 <= k < o.free_list().len() ==> #[trigger] o.free_list()[k] < o.len());
            Tree::lemma_same_shape(o, *self);
        }
        Ok(())
    }

    /// Inserts `id` as the last child of `parent`. Fails with `AlreadyExists`
    /// when the slot of `id` is occupied or the generation of `id` was
    /// already handed out for that slot, and with `ParentNotFound` when
    /// `parent` names no live node.
    pub fn add(&mut self, id: NodeId, parent: NodeId) -> (r: Result<(), TreeError>)
        requires
            old(self).wf(),
        ensures
            final(self).wf(),
            (r == Err::<(), TreeError>(TreeError::AlreadyExists)) == old(self).taken(id),
            (r == Err::<(), TreeError>(TreeError::ParentNotFound)) == (!old(self).taken(id)
                && !old(self).contains(parent)),
            r is Err ==> *final(self) == *old(self),
            r is Err ==> r == Err::<(), TreeError>(TreeError::AlreadyExists) || r == Err::<(), TreeError>(
                TreeError::ParentNotFound,
            ),
            r is Ok ==> {
                &&& final(self).contains(id)
                &&& final(self).parent_of(id.index as int) == parent.index as int
                &&& final(self).children(parent.index as int) == old(self).children(parent.index as int).push(
                    id.index as usize,
                )
                &&& forall|x: NodeId| #[trigger] final(self).contains(x) == (old(self).contains(x) || x == id)
            },
            forall|x: NodeId| old(self).was_issued(x) ==> #[trigger] final(self).was_issued(x),
            final(self).len() <= old(self).len() || final(self).len() == id.index + 1,
            r is Ok ==> final(self).children(id.index as int).len() == 0,
            forall|x: NodeId| #[trigger] old(self).contains(x) ==> final(self).parent_of(x.index as int) == old(
                self,
            ).parent_of(x.index as int),
            r is Ok ==> forall|j: int| 0 <= j < old(self).len() && j != parent.index && j != id.index
                ==> #[trigger] final(self).children(j) == old(self).children(j),
    {
        let i = id.index as usize;
        if i < self.slots.len() && (self.slots[i].live || (id.generation as u64) < self.slots[i].issued) {
            return Err(TreeError::AlreadyExists);
        }
        if !self.contains_id(parent) {
            return Err(TreeError::ParentNotFound);
        }
        let p = parent.index as usize;
        let ghost old_t = *self;
        self.grow(i);
        let ghost mid = *self;
        assert(!self.is_live(i as int));
        assert(forall|x: NodeId| old_t.was_issued(x) ==> #[trigger] mid.was_issued(x));
        self.slots.set(i, Slot {
            issued: id.generation as u64 + 1,
            live: true,
            parent: p,
            children: Vec::new(),
            z_order: 0,
        });
        self.rank = Ghost(self.rank@.update(i as int, self.bound@));
        self.bound = Ghost(self.bound@ + 1);
        self.slots[p].children.push(i);
        proof {
            Tree::lemma_attach(mid, *self, i as int, p as int, id, parent);
            assert(forall|x: NodeId| old_t.was_issued(x) ==> #[trigger] self.was_issued(x));
            assert forall|j: int| 0 <= j < old_t.len() && j != p && j != i implies #[trigger] self.children(j)
                == old_t.children(j) by {
                assert(mid.slots()[j] == old_t.slots()[j]);
            }
            assert forall|x: NodeId| #[trigger] old_t.contains(x) implies self.parent_of(x.index as int) == old_t.parent_of(
                x.index as int) by {
                assert(mid.slots()[x.index as int] == old_t.slots()[x.index as int]);
                assert(x.index != i);
            }
            assert forall|x: NodeId| #[trigger] mid.contains(x) == old_t.contains(x) by {}
        }
        Ok(())
    }
}

} // verus!
