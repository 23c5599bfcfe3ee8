use vstd::prelude::*;
use crate::style::{CursorIcon, Display, NodeStyle, PointerEvents, PseudoStore, Rect, StyleStore};
use crate::tree::{NodeId, Tree};

verus! {

/// What a node's hit test receives from its parent: the inherited
/// pointer-events policy, the pointer in the parent's local space, and the
/// accumulated clip region.
#[derive(Clone, Copy, Debug, PartialEq, Eq, Structural)]
pub struct Probe {
    pub pointer_events: bool,
    pub x: i64,
    pub y: i64,
    pub clip: Rect,
}

/// The effective pointer-events policy: the node's own value if set, else
/// the inherited one.
pub open spec fn resolve_pointer_events(own: Option<PointerEvents>, inherited: bool) -> bool {
    match own {
        Option::Some(PointerEvents::Auto) => true,
        Option::Some(PointerEvents::Disabled) => false,
        Option::None => inherited,
    }
}

pub open spec fn fits_i64(v: int) -> bool {
    i64::MIN <= v <= i64::MAX
}

/// The node's own translation can be undone on the incoming point.
pub open spec fn maps(st: NodeStyle, p: Probe) -> bool {
    fits_i64(p.x - st.translate_x) && fits_i64(p.y - st.translate_y)
}

/// What a node hands on to its children. A point that cannot be mapped
/// into the node's space is passed on as it came.
pub open spec fn handed_down(st: NodeStyle, p: Probe) -> Probe {
    Probe {
        pointer_events: resolve_pointer_events(st.pointer_events, p.pointer_events),
        x: if maps(st, p) { (p.x - st.translate_x) as i64 } else { p.x },
        y: if maps(st, p) { (p.y - st.translate_y) as i64 } else { p.y },
        clip: p.clip.meet(st.clip),
    }
}

/// The walk looks at the node (and below it) at all.
pub open spec fn reachable(st: NodeStyle) -> bool {
    st.abilities.hoverable && (st.display == Display::Normal || st.text_span)
}

/// The node claims the pointer: it is reachable, its policy allows hits, and
/// the mapped point lies in its bounds cut by the accumulated clip.
pub open spec fn hit(st: NodeStyle, p: Probe) -> bool {
    let h = handed_down(st, p);
    &&& reachable(st)
    &&& h.pointer_events
    &&& maps(st, p)
    &&& st.bounds.meet(h.clip).holds(h.x as int, h.y as int)
}

/// The probe a walk from `w`, started with `start`, hands to slot `n`.
pub open spec fn probe_at(t: Tree, s: StyleStore, w: int, n: int, start: Probe) -> Probe
    decreases t.rank_of(n),
{
    let p = t.parent_of(n);
    if n == w || n == 0 || !(0 <= t.rank_of(p) < t.rank_of(n)) {
        start
    } else {
        handed_down(s.style_of(t.id_of(p)), probe_at(t, s, w, p, start))
    }
}

/// The probe a walk starts with for a pointer at `(x, y)`.
pub open spec fn start_probe(x: i64, y: i64) -> Probe {
    Probe { pointer_events: true, x, y, clip: Rect::everything() }
}

/// Slot `h` may be the outcome of a walk from `w`: `w` itself (nothing
/// claimed the pointer), or a node of `w`'s subtree that claims it.
pub open spec fn valid_target(t: Tree, s: StyleStore, w: int, h: int, start: Probe) -> bool {
    h == w || (t.in_subtree(w, h) && visible_from(t, s, w, h) && hit(s.style_of(t.id_of(h)), probe_at(t, s, w, h, start)))
}

/// Pointer-events policy is inherited: below a node whose own policy is
/// disabled, every node that leaves its policy unset (down to and including
/// `n`) hands a disabled policy on, and none of them claims the pointer;
/// the disabled node itself never does either.
pub proof fn lemma_disabled_policy_inherited(t: Tree, s: StyleStore, w: int, a: int, n: int, start: Probe)
    requires
        t.wf(),
        t.is_live(w),
        t.in_subtree(w, a),
        t.in_subtree(a, n),
        s.style_of(t.id_of(a)).pointer_events == Option::Some(PointerEvents::Disabled),
        forall|y: int| #[trigger] t.in_subtree(a, y) && y != a && t.in_subtree(y, n) ==> s.style_of(
            t.id_of(y),
        ).pointer_events is None,
    ensures
        !handed_down(s.style_of(t.id_of(n)), probe_at(t, s, w, n, start)).pointer_events,
        !hit_at(t, s, w, n, start),
    decreases t.rank_of(n),
{
    if n != a {
        t.lemma_wf();
        t.lemma_children_facts(w, a);
        t.lemma_subtree_parent(a, n);
        let p = t.parent_of(n);
        t.lemma_parent_link(n);
        let k = choose|k: int| 0 <= k < t.children(p).len() && t.children(p)[k] == n as usize;
        t.lemma_preorder_member(p, p as usize);
        t.lemma_preorder_member(n, n as usize);
        assert(t.in_subtree(p, p));
        t.lemma_subtree_child(p, p, k);
        assert(t.in_subtree(p, n));
        assert forall|y: int| #[trigger] t.in_subtree(a, y) && y != a && t.in_subtree(y, p) implies s.style_of(
            t.id_of(y),
        ).pointer_events is None by {
            t.lemma_children_facts(a, y);
            t.lemma_subtree_trans(y, p, n);
        }
        lemma_disabled_policy_inherited(t, s, w, a, p, start);
        t.lemma_subtree_rank(w, a);
        t.lemma_subtree_rank(a, p);
        assert(n != w);
        assert(t.in_subtree(n, n));
    }
}

/// A deferred subtree: to be walked once no pending item has a lower z.
#[derive(Clone, Copy)]
pub struct WorkItem {
    pub z: i32,
    pub node: usize,
    pub probe: Probe,
}

/// Total size of the subtrees still queued.
pub open spec fn weight(t: Tree, q: Seq<WorkItem>) -> int
    decreases q.len(),
{
    if q.len() == 0 {
        0
    } else {
        weight(t, q.drop_last()) + t.preorder(q.last().node as int).len()
    }
}

/// The node's z-index.
pub open spec fn z_of(t: Tree, s: StyleStore, n: int) -> int {
    s.style_of(t.id_of(n)).z_index as int
}

pub open spec fn imax(a: int, b: int) -> int {
    if a >= b {
        a
    } else {
        b
    }
}

/// The z-level a walk from `w` hit-tests slot `n` at: the highest z-index
/// on the path from `w` down to `n`, and at least 0.
pub open spec fn level(t: Tree, s: StyleStore, w: int, n: int) -> int
    decreases t.rank_of(n),
{
    let p = t.parent_of(n);
    if n == w || n == 0 || !(0 <= t.rank_of(p) < t.rank_of(n)) {
        imax(0, z_of(t, s, n))
    } else {
        imax(level(t, s, w, p), z_of(t, s, n))
    }
}

pub open spec fn reachable_at(t: Tree, s: StyleStore, n: int) -> bool {
    reachable(s.style_of(t.id_of(n)))
}

/// Slot `n` claims the pointer on a walk from `w`.
pub open spec fn hit_at(t: Tree, s: StyleStore, w: int, n: int, start: Probe) -> bool {
    hit(s.style_of(t.id_of(n)), probe_at(t, s, w, n, start))
}

/// `d` lies strictly below `x`, and every node below `x` down to and
/// including `d` is reachable, so a walk through `x` gets to `d`.
pub open spec fn open_path(t: Tree, s: StyleStore, x: int, d: int) -> bool {
    &&& x != d
    &&& t.in_subtree(x, d)
    &&& forall|y: int| #[trigger] t.in_subtree(x, y) && y != x && t.in_subtree(y, d) ==> reachable_at(t, s, y)
}

/// Every node on the path from `w` down to `n`, `n` excluded, is reachable.
pub open spec fn open_above(t: Tree, s: StyleStore, w: int, n: int) -> bool {
    forall|y: int| #[trigger] t.in_subtree(w, y) && y != n && t.in_subtree(y, n) ==> reachable_at(t, s, y)
}

/// `d` is reachable by a walk from `w`.
pub open spec fn visible_from(t: Tree, s: StyleStore, w: int, d: int) -> bool {
    reachable_at(t, s, w) && (d == w || open_path(t, s, w, d))
}

/// Queued node `q`, below or at `x`, will lead the walk to `d`.
pub open spec fn covers(t: Tree, s: StyleStore, q: int, x: int, d: int) -> bool {
    &&& t.in_subtree(x, q)
    &&& t.in_subtree(q, d)
    &&& reachable_at(t, s, q)
    &&& (q == d || open_path(t, s, q, d))
}

/// The pointer-events policy in effect at slot `n` on a walk from `w`.
pub open spec fn policy_at(t: Tree, s: StyleStore, w: int, n: int, start: Probe) -> bool {
    handed_down(s.style_of(t.id_of(n)), probe_at(t, s, w, n, start)).pointer_events
}

/// The states of the live node `x` agree with the walk: hover cleared, over
/// telling whether it claims the pointer where the policy allows hits, and
/// over untouched where it does not.
pub open spec fn over_settled(
    t: Tree,
    s: StyleStore,
    w: int,
    start: Probe,
    before: PseudoStore,
    after: PseudoStore,
    x: NodeId,
) -> bool {
    &&& after.has(x) == before.has(x)
    &&& after.has(x) ==> !after.state_of(x).hover
    &&& (after.has(x) && policy_at(t, s, w, x.index as int, start)) ==> after.state_of(x).over == hit_at(
        t,
        s,
        w,
        x.index as int,
        start,
    )
    &&& !policy_at(t, s, w, x.index as int, start) ==> after.state_of(x).over == before.state_of(x).over
}

pub open spec fn visited_in(tr: Seq<Visit>, lo: int, i: int) -> bool {
    exists|j: int| lo <= j < tr.len() && #[trigger] tr[j].0 == i as usize
}

/// States of ids whose slot the walk did not visit are untouched; live
/// visited ones are settled.
pub open spec fn pseudo_ok(
    t: Tree,
    s: StyleStore,
    w: int,
    start: Probe,
    tr: Seq<Visit>,
    lo: int,
    before: PseudoStore,
    after: PseudoStore,
) -> bool {
    &&& forall|x: NodeId| !#[trigger] visited_in(tr, lo, x.index as int) ==> after.has(x) == before.has(x)
        && after.state_of(x) == before.state_of(x)
    &&& forall|x: NodeId| #[trigger] visited_in(tr, lo, x.index as int) && t.contains(x) ==> over_settled(
        t,
        s,
        w,
        start,
        before,
        after,
        x,
    )
}

/// Settling composes: a walk in two stretches settles what each stretch
/// visited and leaves the rest alone.
proof fn lemma_pseudo_compose(
    t: Tree,
    s: StyleStore,
    w: int,
    start: Probe,
    tr1: Seq<Visit>,
    lo: int,
    tr2: Seq<Visit>,
    ps0: PseudoStore,
    ps1: PseudoStore,
    ps2: PseudoStore,
)
    requires
        0 <= lo <= tr1.len() <= tr2.len(),
        tr2.subrange(0, tr1.len() as int) == tr1,
        pseudo_ok(t, s, w, start, tr1, lo, ps0, ps1),
        pseudo_ok(t, s, w, start, tr2, tr1.len() as int, ps1, ps2),
    ensures
        pseudo_ok(t, s, w, start, tr2, lo, ps0, ps2),
{
    assert forall|i: int| #[trigger] visited_in(tr2, lo, i) == (visited_in(tr1, lo, i) || visited_in(
        tr2,
        tr1.len() as int,
        i,
    )) by {
        if visited_in(tr2, lo, i) {
            let j = choose|j: int| lo <= j < tr2.len() && #[trigger] tr2[j].0 == i as usize;
            if j < tr1.len() {
                assert(tr2.subrange(0, tr1.len() as int)[j] == tr2[j]);
                assert(tr1[j].0 == i as usize);
            }
        }
        if visited_in(tr1, lo, i) {
            let j = choose|j: int| lo <= j < tr1.len() && #[trigger] tr1[j].0 == i as usize;
            assert(tr2.subrange(0, tr1.len() as int)[j] == tr2[j]);
        }
    }
    assert forall|x: NodeId| !#[trigger] visited_in(tr2, lo, x.index as int) implies ps2.has(x) == ps0.has(x)
        && ps2.state_of(x) == ps0.state_of(x) by {
        assert(!visited_in(tr1, lo, x.index as int));
        assert(!visited_in(tr2, tr1.len() as int, x.index as int));
    }
    assert forall|x: NodeId| #[trigger] visited_in(tr2, lo, x.index as int) && t.contains(x) implies over_settled(
        t, s, w, start, ps0, ps2, x) by {
        let a = visited_in(tr1, lo, x.index as int);
        let b = visited_in(tr2, tr1.len() as int, x.index as int);
        if a && b {
            assert(over_settled(t, s, w, start, ps0, ps1, x));
            assert(over_settled(t, s, w, start, ps1, ps2, x));
        } else if a {
            assert(over_settled(t, s, w, start, ps0, ps1, x));
        } else {
            assert(over_settled(t, s, w, start, ps1, ps2, x));
        }
    }
}

/// The marks added after `r0` in `r1` are for live nodes whose slot was
/// visited from `lo` on, whose policy allows hits, and whose over state in
/// `before` disagreed with whether they claim the pointer.
pub open spec fn restyle_ok(
    t: Tree,
    s: StyleStore,
    w: int,
    start: Probe,
    r0: Seq<NodeId>,
    r1: Seq<NodeId>,
    tr: Seq<Visit>,
    lo: int,
    before: PseudoStore,
) -> bool {
    &&& r0.len() <= r1.len()
    &&& r1.subrange(0, r0.len() as int) == r0
    &&& forall|k: int| r0.len() <= k < r1.len() ==> {
        let x = #[trigger] r1[k];
        &&& t.contains(x)
        &&& visited_in(tr, lo, x.index as int)
        &&& policy_at(t, s, w, x.index as int, start)
        &&& before.has(x)
        &&& before.state_of(x).over != hit_at(t, s, w, x.index as int, start)
    }
}

proof fn lemma_restyle_compose(
    t: Tree,
    s: StyleStore,
    w: int,
    start: Probe,
    tr1: Seq<Visit>,
    lo: int,
    tr2: Seq<Visit>,
    ps0: PseudoStore,
    ps1: PseudoStore,
    r0: Seq<NodeId>,
    r1: Seq<NodeId>,
    r2: Seq<NodeId>,
)
    requires
        0 <= lo <= tr1.len() <= tr2.len(),
        tr2.subrange(0, tr1.len() as int) == tr1,
        pseudo_ok(t, s, w, start, tr1, lo, ps0, ps1),
        restyle_ok(t, s, w, start, r0, r1, tr1, lo, ps0),
        restyle_ok(t, s, w, start, r1, r2, tr2, tr1.len() as int, ps1),
    ensures
        restyle_ok(t, s, w, start, r0, r2, tr2, lo, ps0),
{
    assert(r2.subrange(0, r0.len() as int) =~= r0) by {
        assert forall|k: int| 0 <= k < r0.len() implies #[trigger] r2.subrange(0, r0.len() as int)[k] == r0[k] by {
            assert(r2.subrange(0, r1.len() as int)[k] == r2[k]);
            assert(r1.subrange(0, r0.len() as int)[k] == r1[k]);
        }
    }
    assert forall|k: int| r0.len() <= k < r2.len() implies {
        let x = #[trigger] r2[k];
        &&& t.contains(x)
        &&& visited_in(tr2, lo, x.index as int)
        &&& policy_at(t, s, w, x.index as int, start)
        &&& ps0.has(x)
        &&& ps0.state_of(x).over != hit_at(t, s, w, x.index as int, start)
    } by {
        let x = r2[k];
        if k < r1.len() {
            assert(r2.subrange(0, r1.len() as int)[k] == r2[k]);
            let j = choose|j: int| lo <= j < tr1.len() && #[trigger] tr1[j].0 == x.index as usize;
            assert(tr2.subrange(0, tr1.len() as int)[j] == tr2[j]);
        } else {
            let j = choose|j: int| tr1.len() <= j < tr2.len() && #[trigger] tr2[j].0 == x.index as usize;
            if visited_in(tr1, lo, x.index as int) {
                assert(over_settled(t, s, w, start, ps0, ps1, x));
            }
        }
    }
}

/// One hit test of a walk: the slot, the z-level it ran at, whether the
/// slot claimed the pointer.
pub type Visit = (usize, int, bool);

pub open spec fn appears_after(tr: Seq<Visit>, i: int, d: int) -> bool {
    exists|j: int| i < j < tr.len() && #[trigger] tr[j].0 == d as usize
}

pub open spec fn covered_by(t: Tree, s: StyleStore, q: Seq<WorkItem>, x: int, d: int) -> bool {
    exists|k: int| 0 <= k < q.len() && #[trigger] covers(t, s, q[k].node as int, x, d)
}

/// Each visit from position `lo` on has every node it opens a path to
/// either visited later or led to by a queued item.
pub open spec fn coverage(t: Tree, s: StyleStore, tr: Seq<Visit>, q: Seq<WorkItem>, lo: int) -> bool {
    forall|i: int, d: int|
        lo <= i < tr.len() && #[trigger] open_path(t, s, tr[i].0 as int, d) ==> appears_after(tr, i, d)
            || covered_by(t, s, q, tr[i].0 as int, d)
}

pub open spec fn trace_ok(t: Tree, s: StyleStore, w: int, start: Probe, tr: Seq<Visit>) -> bool {
    forall|i: int| 0 <= i < tr.len() ==> {
        let v = #[trigger] tr[i];
        &&& t.in_subtree(w, v.0 as int)
        &&& visible_from(t, s, w, v.0 as int)
        &&& v.1 == level(t, s, w, v.0 as int)
        &&& v.2 == hit_at(t, s, w, v.0 as int, start)
    }
}

/// Position of the last visit that claimed the pointer, or -1.
pub open spec fn last_hit_pos(tr: Seq<Visit>) -> int
    decreases tr.len(),
{
    if tr.len() == 0 {
        -1
    } else if tr.last().2 {
        tr.len() - 1
    } else {
        last_hit_pos(tr.drop_last())
    }
}

pub open spec fn last_hit(tr: Seq<Visit>, dflt: usize) -> usize {
    if last_hit_pos(tr) < 0 {
        dflt
    } else {
        tr[last_hit_pos(tr)].0
    }
}

pub open spec fn queue_ok(t: Tree, s: StyleStore, w: int, start: Probe, q: Seq<WorkItem>) -> bool {
    forall|j: int| 0 <= j < q.len() ==> {
        let it = #[trigger] q[j];
        &&& t.in_subtree(w, it.node as int)
        &&& it.probe == probe_at(t, s, w, it.node as int, start)
        &&& it.z == z_of(t, s, it.node as int)
        &&& it.z == level(t, s, w, it.node as int)
        &&& reachable_at(t, s, it.node as int)
        &&& open_above(t, s, w, it.node as int)
    }
}

proof fn lemma_last_hit_pos(tr: Seq<Visit>)
    ensures
        -1 <= last_hit_pos(tr) < tr.len(),
        last_hit_pos(tr) >= 0 ==> tr[last_hit_pos(tr)].2,
        forall|j: int| last_hit_pos(tr) < j < tr.len() ==> !(#[trigger] tr[j]).2,
    decreases tr.len(),
{
    if tr.len() > 0 && !tr.last().2 {
        lemma_last_hit_pos(tr.drop_last());
        assert forall|j: int| last_hit_pos(tr) < j < tr.len() implies !(#[trigger] tr[j]).2 by {
            if j < tr.len() - 1 {
                assert(tr[j] == tr.drop_last()[j]);
            }
        }
    }
}

proof fn lemma_last_hit_push(tr: Seq<Visit>, v: Visit)
    ensures
        last_hit_pos(tr.push(v)) == if v.2 { tr.len() as int } else { last_hit_pos(tr) },
        v.2 ==> last_hit(tr.push(v), 0) == v.0,
        forall|dflt: usize| !v.2 ==> #[trigger] last_hit(tr.push(v), dflt) == last_hit(tr, dflt),
{
    assert(tr.push(v).drop_last() =~= tr);
    lemma_last_hit_pos(tr);
    assert forall|dflt: usize| !v.2 implies #[trigger] last_hit(tr.push(v), dflt) == last_hit(tr, dflt) by {
        if last_hit_pos(tr) >= 0 {
            assert(tr.push(v)[last_hit_pos(tr)] == tr[last_hit_pos(tr)]);
        }
    }
}

/// Queued or visited, a node is extended only at the end: what was known
/// to be covered stays covered.
proof fn lemma_coverage_extend(
    t: Tree,
    s: StyleStore,
    tr: Seq<Visit>,
    q: Seq<WorkItem>,
    tr2: Seq<Visit>,
    q2: Seq<WorkItem>,
    lo: int,
)
    requires
        0 <= lo,
        coverage(t, s, tr, q, lo),
        tr.len() <= tr2.len(),
        tr2.subrange(0, tr.len() as int) == tr,
        q.len() <= q2.len(),
        q2.subrange(0, q.len() as int) == q,
        coverage(t, s, tr2, q2, tr.len() as int),
    ensures
        coverage(t, s, tr2, q2, lo),
{
    assert forall|i: int, d: int| lo <= i < tr2.len() && #[trigger] open_path(t, s, tr2[i].0 as int, d)
        implies appears_after(tr2, i, d) || covered_by(t, s, q2, tr2[i].0 as int, d) by {
        if i < tr.len() {
            assert(tr2.subrange(0, tr.len() as int)[i] == tr2[i]);
            assert(tr2[i] == tr[i]);
            assert(open_path(t, s, tr[i].0 as int, d));
            if appears_after(tr, i, d) {
                let j = choose|j: int| i < j < tr.len() && #[trigger] tr[j].0 == d as usize;
                assert(tr2.subrange(0, tr.len() as int)[j] == tr2[j]);
                assert(tr2[j] == tr[j]);
            } else {
                let k = choose|k: int| 0 <= k < q.len() && #[trigger] covers(t, s, q[k].node as int, tr[i].0 as int, d);
                assert(q2.subrange(0, q.len() as int)[k] == q2[k]);
                assert(q2[k] == q[k]);
            }
        }
    }
}

/// A path open above `node`, with `node` reachable, is open above each child.
proof fn lemma_open_above_child(t: Tree, s: StyleStore, w: int, node: int, c: int)
    requires
        t.wf(),
        t.is_live(w),
        t.in_subtree(w, node),
        open_above(t, s, w, node),
        reachable_at(t, s, node),
        t.is_live(c),
        c != 0,
        t.parent_of(c) == node,
    ensures
        open_above(t, s, w, c),
{
    assert forall|y: int| #[trigger] t.in_subtree(w, y) && y != c && t.in_subtree(y, c) implies reachable_at(t, s, y) by {
        if y != node {
            t.lemma_children_facts(w, y);
            t.lemma_subtree_parent(y, c);
        }
    }
}

/// A node reachable itself, with the path above it open, is visible.
proof fn lemma_open_visible(t: Tree, s: StyleStore, w: int, n: int)
    requires
        t.wf(),
        t.is_live(w),
        t.in_subtree(w, n),
        open_above(t, s, w, n),
        reachable_at(t, s, n),
    ensures
        visible_from(t, s, w, n),
{
    if n != w {
        t.lemma_wf();
        t.lemma_preorder_member(w, w as usize);
        assert(t.in_subtree(w, w));
        assert(reachable_at(t, s, w));
    }
}

/// Nothing lies strictly above the walk's start.
proof fn lemma_open_above_start(t: Tree, s: StyleStore, w: int)
    requires
        t.wf(),
        t.is_live(w),
    ensures
        open_above(t, s, w, w),
{
    assert forall|y: int| #[trigger] t.in_subtree(w, y) && y != w && t.in_subtree(y, w) implies reachable_at(t, s, y) by {
        t.lemma_subtree_rank_strict(w, y);
        t.lemma_children_facts(w, y);
        t.lemma_subtree_rank(y, w);
    }
}

/// Following a path from `x` one step down to the child `c` towards `d`.
proof fn lemma_path_step(t: Tree, s: StyleStore, x: int, c: int, d: int)
    requires
        t.wf(),
        t.is_live(x),
        open_path(t, s, x, d),
        t.in_subtree(c, d),
        t.is_live(c),
        t.parent_of(c) == x,
        c != 0,
    ensures
        t.in_subtree(x, c),
        reachable_at(t, s, c),
        c == d || open_path(t, s, c, d),
{
    t.lemma_parent_link(c);
    let k = choose|k: int| 0 <= k < t.children(x).len() && t.children(x)[k] == c as usize;
    t.lemma_preorder_member(x, x as usize);
    assert(t.in_subtree(x, x));
    t.lemma_subtree_child(x, x, k);
    assert(t.in_subtree(x, c));
    assert(reachable_at(t, s, c));
    if c != d {
        assert forall|y: int| #[trigger] t.in_subtree(c, y) && y != c && t.in_subtree(y, d) implies reachable_at(t, s, y) by {
            t.lemma_subtree_trans(x, c, y);
            t.lemma_subtree_rank(c, y);
        }
    }
}

proof fn lemma_weight_push(t: Tree, q: Seq<WorkItem>, it: WorkItem)
    ensures
        weight(t, q.push(it)) == weight(t, q) + t.preorder(it.node as int).len(),
{
    assert(q.push(it).drop_last() =~= q);
}

proof fn lemma_weight_remove(t: Tree, q: Seq<WorkItem>, m: int)
    requires
        0 <= m < q.len(),
    ensures
        weight(t, q.remove(m)) == weight(t, q) - t.preorder(q[m].node as int).len(),
        weight(t, q) >= 0,
    decreases q.len(),
{
    if m == q.len() - 1 {
        assert(q.remove(m) =~= q.drop_last());
        lemma_weight_nonneg(t, q.drop_last());
    } else {
        lemma_weight_remove(t, q.drop_last(), m);
        assert(q.remove(m) =~= q.drop_last().remove(m).push(q.last()));
        lemma_weight_push(t, q.drop_last().remove(m), q.last());
    }
}

proof fn lemma_weight_nonneg(t: Tree, q: Seq<WorkItem>)
    ensures
        weight(t, q) >= 0,
    decreases q.len(),
{
    if q.len() > 0 {
        lemma_weight_nonneg(t, q.drop_last());
    }
}

/// Hit-tests `node` at z-level `current_z`, then walks its children in
/// sibling order. A node whose z-index exceeds `current_z` is queued with
/// its probe instead, to be walked once lower levels are done. Every hit
/// test is recorded in the ghost trace `tr`.
fn hover_entity(
    tree: &Tree,
    style: &StyleStore,
    pseudo: &mut PseudoStore,
    restyle: &mut Vec<NodeId>,
    queue: &mut Vec<WorkItem>,
    hovered: &mut usize,
    tr: &mut Ghost<Seq<Visit>>,
    node: usize,
    current_z: i32,
    probe: Probe,
    Ghost(w): Ghost<int>,
    Ghost(start): Ghost<Probe>,
)
    requires
        tree.wf(),
        tree.is_live(w),
        tree.in_subtree(w, node as int),
        probe == probe_at(*tree, *style, w, node as int, start),
        open_above(*tree, *style, w, node as int),
        imax(current_z as int, z_of(*tree, *style, node as int)) == level(*tree, *style, w, node as int),
        *old(hovered) == last_hit(old(tr)@, w as usize),
        trace_ok(*tree, *style, w, start, old(tr)@),
        forall|i: int| 0 <= i < old(tr)@.len() ==> (#[trigger] old(tr)@[i]).1 <= current_z,
        queue_ok(*tree, *style, w, start, old(queue)@),
    ensures
        ({
            let o = old(tr)@;
            let f = final(tr)@;
            let qo = old(queue)@;
            let qf = final(queue)@;
            &&& o.len() <= f.len()
            &&& f.subrange(0, o.len() as int) == o
            &&& qo.len() <= qf.len()
            &&& qf.subrange(0, qo.len() as int) == qo
            &&& forall|i: int| o.len() <= i < f.len() ==> (#[trigger] f[i]).1 == current_z
            &&& forall|k: int| qo.len() <= k < qf.len() ==> (#[trigger] qf[k]).z > current_z
            &&& trace_ok(*tree, *style, w, start, f)
            &&& queue_ok(*tree, *style, w, start, qf)
            &&& *final(hovered) == last_hit(f, w as usize)
            &&& coverage(*tree, *style, f, qf, o.len() as int)
            &&& (reachable_at(*tree, *style, node as int) && z_of(*tree, *style, node as int) <= current_z) ==> (
            f.len() > o.len() && f[o.len() as int].0 == node)
            &&& (reachable_at(*tree, *style, node as int) && z_of(*tree, *style, node as int) > current_z) ==> (f
                == o && qf.len() == qo.len() + 1 && qf[qo.len() as int].node == node)
            &&& !reachable_at(*tree, *style, node as int) ==> f == o && qf == qo
            &&& pseudo_ok(*tree, *style, w, start, f, o.len() as int, *old(pseudo), *final(pseudo))
            &&& restyle_ok(*tree, *style, w, start, old(restyle)@, final(restyle)@, f, o.len() as int, *old(pseudo))
            &&& weight(*tree, qf) <= weight(*tree, qo) + tree.preorder(node as int).len()
            &&& current_z >= z_of(*tree, *style, node as int) ==> weight(*tree, qf) < weight(*tree, qo)
                + tree.preorder(node as int).len()
        }),
    decreases tree.bound() - tree.rank_of(node as int),
{
    proof {
        tree.lemma_children_facts(w, node as int);
        tree.lemma_wf();
    }
    let ghost o = tr@;
    let ghost qo = queue@;
    let ghost ps0 = *pseudo;
    let ghost r0 = restyle@;
    let id = tree.id_at(node);
    let st = style.get(id);
    if !st.abilities.hoverable {
        assert(tr@.subrange(0, o.len() as int) =~= o);
        assert(queue@.subrange(0, qo.len() as int) =~= qo);
        assert(restyle@.subrange(0, r0.len() as int) =~= r0);
        return;
    }
    if st.display == Display::Hidden && !st.text_span {
        assert(tr@.subrange(0, o.len() as int) =~= o);
        assert(queue@.subrange(0, qo.len() as int) =~= qo);
        assert(restyle@.subrange(0, r0.len() as int) =~= r0);
        return;
    }
    let pe = match st.pointer_events {
        Option::Some(PointerEvents::Auto) => true,
        Option::Some(PointerEvents::Disabled) => false,
        Option::None => probe.pointer_events,
    };
    if st.z_index > current_z {
        queue.push(WorkItem { z: st.z_index, node, probe });
        proof {
            lemma_weight_push(*tree, qo, WorkItem { z: st.z_index, node, probe });
            assert(tr@.subrange(0, o.len() as int) =~= o);
            assert(queue@.subrange(0, qo.len() as int) =~= qo);
            assert(restyle@.subrange(0, r0.len() as int) =~= r0);
            assert forall|j: int| 0 <= j < queue@.len() implies {
                let it = #[trigger] queue@[j];
                &&& tree.in_subtree(w, it.node as int)
                &&& it.probe == probe_at(*tree, *style, w, it.node as int, start)
                &&& it.z == z_of(*tree, *style, it.node as int)
                &&& it.z == level(*tree, *style, w, it.node as int)
                &&& reachable_at(*tree, *style, it.node as int)
                &&& open_above(*tree, *style, w, it.node as int)
            } by {
                if j < qo.len() {
                    assert(queue@[j] == qo[j]);
                }
            }
        }
        return;
    }
    let lx: i128 = probe.x as i128 - st.translate_x as i128;
    let ly: i128 = probe.y as i128 - st.translate_y as i128;
    let mapped = i64::MIN as i128 <= lx && lx <= i64::MAX as i128 && i64::MIN as i128 <= ly && ly
        <= i64::MAX as i128;
    let (px, py) = if mapped {
        (lx as i64, ly as i64)
    } else {
        (probe.x, probe.y)
    };
    let clipping = probe.clip.intersection(&st.clip);
    let b = st.bounds.intersection(&clipping);
    match pseudo.get(id) {
        Option::Some(pc) => {
            let mut pc = pc;
            pc.hover = false;
            pseudo.insert(id, pc);
        },
        Option::None => {},
    }
    let claimed = pe && mapped && b.contains(px, py);
    if pe {
        if claimed {
            *hovered = node;
            match pseudo.get(id) {
                Option::Some(pc) => {
                    if !pc.over {
                        let mut pc = pc;
                        pc.over = true;
                        pseudo.insert(id, pc);
                        restyle.push(id);
                    }
                },
                Option::None => {},
            }
        } else {
            match pseudo.get(id) {
                Option::Some(pc) => {
                    if pc.over {
                        let mut pc = pc;
                        pc.over = false;
                        pseudo.insert(id, pc);
                        restyle.push(id);
                    }
                },
                Option::None => {},
            }
        }
    }
    let ghost p = o.len() as int;
    proof {
        let v: Visit = (node, current_z as int, claimed);
        let t1 = o.push(v);
        assert(t1[p] == v);
        assert(reachable_at(*tree, *style, node as int));
        lemma_open_visible(*tree, *style, w, node as int);
        assert(pe == policy_at(*tree, *style, w, node as int, start));
        assert forall|x: NodeId| !#[trigger] visited_in(t1, p, x.index as int) implies pseudo.has(x) == ps0.has(x)
            && pseudo.state_of(x) == ps0.state_of(x) by {
            if x.index as int == node as int {
                assert(t1[p].0 == (x.index as int) as usize);
                assert(visited_in(t1, p, x.index as int));
            }
        }
        assert forall|x: NodeId| #[trigger] visited_in(t1, p, x.index as int) && tree.contains(x) implies over_settled(
            *tree, *style, w, start, ps0, *pseudo, x) by {
            let j = choose|j: int| p <= j < t1.len() && #[trigger] t1[j].0 == x.index as usize;
            assert(j == p);
            assert(x == id);
        }
        assert(pseudo_ok(*tree, *style, w, start, t1, p, ps0, *pseudo));
        assert forall|k: int| r0.len() <= k < restyle@.len() implies {
            let x = #[trigger] restyle@[k];
            &&& tree.contains(x)
            &&& visited_in(t1, p, x.index as int)
            &&& policy_at(*tree, *style, w, x.index as int, start)
            &&& ps0.has(x)
            &&& ps0.state_of(x).over != hit_at(*tree, *style, w, x.index as int, start)
        } by {
            assert(restyle@[k] == id);
            assert(t1[p].0 == (id.index as int) as usize);
        }
        assert(restyle@.subrange(0, r0.len() as int) =~= r0);
        assert(claimed == hit_at(*tree, *style, w, node as int, start));
        lemma_last_hit_push(o, v);
        tr@ = o.push(v);
        assert(tr@[p] == v);
        assert forall|i: int| 0 <= i < tr@.len() implies {
            let v = #[trigger] tr@[i];
            &&& tree.in_subtree(w, v.0 as int)
            &&& v.1 == level(*tree, *style, w, v.0 as int)
            &&& v.2 == hit_at(*tree, *style, w, v.0 as int, start)
        } by {
            if i < p {
                assert(tr@[i] == o[i]);
            }
        }
    }
    let down = Probe { pointer_events: pe, x: px, y: py, clip: clipping };
    assert(down == handed_down(st, probe));
    let count = tree.child_count(node);
    let mut k: usize = 0;
    while k < count
        invariant
            tree.wf(),
            tree.is_live(w),
            tree.in_subtree(w, node as int),
            tree.is_live(node as int),
            count == tree.children(node as int).len(),
            k <= count,
            st == style.style_of(tree.id_of(node as int)),
            down == handed_down(st, probe),
            probe == probe_at(*tree, *style, w, node as int, start),
            open_above(*tree, *style, w, node as int),
            reachable_at(*tree, *style, node as int),
            level(*tree, *style, w, node as int) == current_z,
            forall|j: int| 0 <= j < tree.children(node as int).len() ==> {
                let c = #[trigger] tree.children(node as int)[j] as int;
                &&& tree.in_subtree(w, c)
                &&& tree.is_live(c)
                &&& tree.rank_of(c) > tree.rank_of(node as int)
            },
            p == o.len(),
            p < tr@.len(),
            tr@.subrange(0, p + 1) == o.push((node, current_z as int, claimed)),
            qo.len() <= queue@.len(),
            queue@.subrange(0, qo.len() as int) == qo,
            forall|i: int| p <= i < tr@.len() ==> (#[trigger] tr@[i]).1 == current_z,
            forall|i: int| 0 <= i < o.len() ==> (#[trigger] o[i]).1 <= current_z,
            forall|j: int| qo.len() <= j < queue@.len() ==> (#[trigger] queue@[j]).z > current_z,
            trace_ok(*tree, *style, w, start, tr@),
            queue_ok(*tree, *style, w, start, queue@),
            *hovered == last_hit(tr@, w as usize),
            coverage(*tree, *style, tr@, queue@, p + 1),
            forall|j: int, d: int|
                0 <= j < k && #[trigger] tree.in_subtree(tree.children(node as int)[j] as int, d) && open_path(
                    *tree,
                    *style,
                    node as int,
                    d,
                ) ==> appears_after(tr@, p, d) || covered_by(*tree, *style, queue@, node as int, d),
            weight(*tree, queue@) <= weight(*tree, qo) + tree.preorder_children(node as int, k as int).len(),
            ps0 == *old(pseudo),
            pseudo_ok(*tree, *style, w, start, tr@, p, ps0, *pseudo),
            r0 == old(restyle)@,
            restyle_ok(*tree, *style, w, start, r0, restyle@, tr@, p, ps0),
        decreases count - k,
    {
        let c = tree.child_at(node, k);
        let ghost tb = tr@;
        let ghost qb = queue@;
        let ghost pb = *pseudo;
        let ghost rb = restyle@;
        proof {
            lemma_open_above_child(*tree, *style, w, node as int, c as int);
            tree.lemma_subtree_rank(w, node as int);
            assert(c as int != w);
            assert(probe_at(*tree, *style, w, c as int, start) == handed_down(
                style.style_of(tree.id_of(node as int)),
                probe_at(*tree, *style, w, node as int, start),
            ));
            assert(level(*tree, *style, w, c as int) == imax(current_z as int, z_of(*tree, *style, c as int)));
            assert forall|i: int| 0 <= i < tb.len() implies (#[trigger] tb[i]).1 <= current_z by {
                if i < p {
                    assert(tb.subrange(0, p + 1)[i] == tb[i]);
                    assert(tb[i] == o[i]);
                }
            }
        }
        hover_entity(tree, style, pseudo, restyle, queue, hovered, tr, c, current_z, down, Ghost(w), Ghost(start));
        proof {
            let tf = tr@;
            let qf = queue@;
            lemma_restyle_compose(*tree, *style, w, start, tb, p, tf, ps0, pb, r0, rb, restyle@);
            lemma_pseudo_compose(*tree, *style, w, start, tb, p, tf, ps0, pb, *pseudo);
            lemma_coverage_extend(*tree, *style, tb, qb, tf, qf, p + 1);
            assert(tf.subrange(0, p + 1) =~= tb.subrange(0, p + 1)) by {
                assert forall|i: int| 0 <= i < p + 1 implies #[trigger] tf.subrange(0, p + 1)[i] == tb.subrange(0, p + 1)[i] by {
                    assert(tf.subrange(0, tb.len() as int)[i] == tf[i]);
                }
            }
            assert(qf.subrange(0, qo.len() as int) =~= qo) by {
                assert forall|i: int| 0 <= i < qo.len() implies #[trigger] qf.subrange(0, qo.len() as int)[i] == qo[i] by {
                    assert(qf.subrange(0, qb.len() as int)[i] == qf[i]);
                    assert(qb.subrange(0, qo.len() as int)[i] == qb[i]);
                }
            }
            assert forall|i: int| p <= i < tf.len() implies (#[trigger] tf[i]).1 == current_z by {
                if i < tb.len() {
                    assert(tf.subrange(0, tb.len() as int)[i] == tf[i]);
                }
            }
            assert forall|j: int| qo.len() <= j < qf.len() implies (#[trigger] qf[j]).z > current_z by {
                if j < qb.len() {
                    assert(qf.subrange(0, qb.len() as int)[j] == qf[j]);
                }
            }
            assert forall|j: int, d: int|
                0 <= j < k + 1 && #[trigger] tree.in_subtree(tree.children(node as int)[j] as int, d) && open_path(
                    *tree,
                    *style,
                    node as int,
                    d,
                ) implies appears_after(tf, p, d) || covered_by(*tree, *style, qf, node as int, d) by {
                if j < k {
                    if appears_after(tb, p, d) {
                        let jj = choose|jj: int| p < jj < tb.len() && #[trigger] tb[jj].0 == d as usize;
                        assert(tf.subrange(0, tb.len() as int)[jj] == tf[jj]);
                    } else {
                        let kk = choose|kk: int| 0 <= kk < qb.len() && #[trigger] covers(*tree, *style, qb[kk].node as int, node as int, d);
                        assert(qf.subrange(0, qb.len() as int)[kk] == qf[kk]);
                    }
                } else {
                    lemma_path_step(*tree, *style, node as int, c as int, d);
                    if z_of(*tree, *style, c as int) <= current_z {
                        let pc = tb.len() as int;
                        assert(tf[pc].0 == c);
                        if c as int == d {
                            assert(appears_after(tf, p, d));
                        } else {
                            assert(open_path(*tree, *style, tf[pc].0 as int, d));
                            if appears_after(tf, pc, d) {
                                let jj = choose|jj: int| pc < jj < tf.len() && #[trigger] tf[jj].0 == d as usize;
                                assert(appears_after(tf, p, d));
                            } else {
                                let kk = choose|kk: int| 0 <= kk < qf.len() && #[trigger] covers(*tree, *style, qf[kk].node as int, c as int, d);
                                let q = qf[kk].node as int;
                                tree.lemma_subtree_trans(node as int, c as int, q);
                                assert(covers(*tree, *style, q, node as int, d));
                            }
                        }
                    } else {
                        let kk = qb.len() as int;
                        assert(qf[kk].node == c);
                        assert(covers(*tree, *style, c as int, node as int, d));
                    }
                }
            }
        }
        k += 1;
    }
    proof {
        assert(tr@.subrange(0, o.len() as int) =~= o) by {
            assert forall|i: int| 0 <= i < o.len() implies #[trigger] tr@.subrange(0, o.len() as int)[i] == o[i] by {
                assert(tr@.subrange(0, p + 1)[i] == tr@[i]);
            }
        }
        assert(tr@[p] == (node, current_z as int, claimed)) by {
            assert(tr@.subrange(0, p + 1)[p] == tr@[p]);
        }
        assert forall|i: int, d: int| p <= i < tr@.len() && #[trigger] open_path(*tree, *style, tr@[i].0 as int, d)
            implies appears_after(tr@, i, d) || covered_by(*tree, *style, queue@, tr@[i].0 as int, d) by {
            if i == p {
                let j = tree.lemma_child_toward(node as int, d);
                assert(tree.in_subtree(tree.children(node as int)[j] as int, d));
            }
        }
    }
}

/// Messages the hover pass sends to nodes.
#[derive(Clone, Copy, Debug, PartialEq, Eq, Structural)]
pub enum WindowEvent {
    MouseEnter,
    MouseLeave,
    MouseOver,
    MouseOut,
}

/// How an event travels: to its target only, or from the target up
/// through its ancestors.
#[derive(Clone, Copy, Debug, PartialEq, Eq, Structural)]
pub enum Propagation {
    Direct,
    Up,
}

#[derive(Clone, Copy, Debug, PartialEq, Eq, Structural)]
pub struct Event {
    pub message: WindowEvent,
    pub target: NodeId,
    pub propagation: Propagation,
}

pub open spec fn event(message: WindowEvent, target: NodeId, propagation: Propagation) -> Event {
    Event { message, target, propagation }
}

/// The events of a hover change from `from` to `to`: none when it is no
/// change; else enter and leave sent straight to the new and the old node,
/// then over and out bubbling up from them.
pub open spec fn transitions(from: NodeId, to: NodeId) -> Seq<Event> {
    if from == to {
        Seq::empty()
    } else {
        seq![
            event(WindowEvent::MouseEnter, to, Propagation::Direct),
            event(WindowEvent::MouseLeave, from, Propagation::Direct),
            event(WindowEvent::MouseOver, to, Propagation::Up),
            event(WindowEvent::MouseOut, from, Propagation::Up),
        ]
    }
}

/// Builds the events of a hover change from `from` to `to`.
pub fn hover_transitions(from: NodeId, to: NodeId) -> (r: Vec<Event>)
    ensures
        r@ == transitions(from, to),
{
    let mut r: Vec<Event> = Vec::new();
    if from != to {
        r.push(Event { message: WindowEvent::MouseEnter, target: to, propagation: Propagation::Direct });
        r.push(Event { message: WindowEvent::MouseLeave, target: from, propagation: Propagation::Direct });
        r.push(Event { message: WindowEvent::MouseOver, target: to, propagation: Propagation::Up });
        r.push(Event { message: WindowEvent::MouseOut, target: from, propagation: Propagation::Up });
    }
    assert(r@ =~= transitions(from, to));
    r
}

/// Index of the pending item to walk next: the lowest z-index, and among
/// equal ones the earliest queued.
fn next_item(queue: &Vec<WorkItem>) -> (m: usize)
    requires
        queue@.len() > 0,
    ensures
        m < queue@.len(),
        forall|j: int| 0 <= j < queue@.len() ==> queue@[m as int].z <= #[trigger] queue@[j].z,
        forall|j: int| 0 <= j < m ==> queue@[m as int].z < #[trigger] queue@[j].z,
{
    let mut m: usize = 0;
    let mut j: usize = 1;
    while j < queue.len()
        invariant
            queue@.len() > 0,
            m < j <= queue@.len(),
            forall|i: int| 0 <= i < j ==> queue@[m as int].z <= #[trigger] queue@[i].z,
            forall|i: int| 0 <= i < m ==> queue@[m as int].z < #[trigger] queue@[i].z,
        decreases queue.len() - j,
    {
        if queue[j].z < queue[m].z {
            m = j;
        }
        j += 1;
    }
    m
}

/// The state one hover pass reads and writes: the tree and its attribute
/// stores, the pointer, the hovered node, and what the pass hands on.
pub struct Context {
    pub tree: Tree,
    pub style: StyleStore,
    pub pseudo: PseudoStore,
    /// The node currently under the pointer; the window until a pass says
    /// otherwise.
    pub hovered: NodeId,
    pub cursor_x: i64,
    pub cursor_y: i64,
    /// Set while another interaction (a drag) owns the cursor icon.
    pub cursor_icon_locked: bool,
    pub event_queue: Vec<Event>,
    /// Nodes whose style must be evaluated again.
    pub restyle: Vec<NodeId>,
    /// The cursor icon the window should show, once the pass asks for one.
    pub cursor_request: Option<CursorIcon>,
}

impl Context {
    /// A context over `tree` with nothing hovered but the root.
    pub fn new(tree: Tree) -> (r: Context)
        ensures
            r.tree == tree,
            r.hovered == crate::tree::root_id(),
            r.event_queue@.len() == 0,
            r.restyle@.len() == 0,
            r.cursor_request is None,
            !r.cursor_icon_locked,
            r.cursor_x == 0 && r.cursor_y == 0,
            forall|id: NodeId| #[trigger] r.style.style_of(id) == NodeStyle::fallback(),
            forall|id: NodeId| !#[trigger] r.pseudo.has(id),
    {
        Context {
            tree,
            style: StyleStore::new(),
            pseudo: PseudoStore::new(),
            hovered: NodeId::root(),
            cursor_x: 0,
            cursor_y: 0,
            cursor_icon_locked: false,
            event_queue: Vec::new(),
            restyle: Vec::new(),
            cursor_request: Option::None,
        }
    }
}

/// Popping `q[m]` and walking it keeps every promise the queue made: what
/// the item led to is now visited after it, or led to by newer items.
proof fn lemma_pop_covered(
    t: Tree,
    s: StyleStore,
    tr: Seq<Visit>,
    q: Seq<WorkItem>,
    m: int,
    tf: Seq<Visit>,
    qf: Seq<WorkItem>,
    x: int,
    d: int,
)
    requires
        t.wf(),
        t.is_live(x),
        0 <= m < q.len(),
        tr.len() < tf.len(),
        tf.subrange(0, tr.len() as int) == tr,
        tf[tr.len() as int].0 == q[m].node,
        q.len() - 1 <= qf.len(),
        qf.subrange(0, q.len() - 1) == q.remove(m),
        coverage(t, s, tf, qf, tr.len() as int),
        covered_by(t, s, q, x, d),
    ensures
        appears_after(tf, tr.len() - 1, d) || covered_by(t, s, qf, x, d),
{
    let k = choose|k: int| 0 <= k < q.len() && #[trigger] covers(t, s, q[k].node as int, x, d);
    let l = tr.len() as int;
    if k == m {
        let n = q[m].node as int;
        if n == d {
            assert(tf[l].0 == d as usize);
        } else {
            assert(open_path(t, s, tf[l].0 as int, d));
            if appears_after(tf, l, d) {
                let j = choose|j: int| l < j < tf.len() && #[trigger] tf[j].0 == d as usize;
            } else {
                let kk = choose|kk: int| 0 <= kk < qf.len() && #[trigger] covers(t, s, qf[kk].node as int, n, d);
                t.lemma_subtree_trans(x, n, qf[kk].node as int);
                assert(covers(t, s, qf[kk].node as int, x, d));
            }
        }
    } else {
        let kk = if k < m { k } else { k - 1 };
        assert(q.remove(m)[kk] == q[k]);
        assert(qf.subrange(0, q.len() - 1)[kk] == qf[kk]);
        assert(covers(t, s, qf[kk].node as int, x, d));
    }
}

/// The pass flipped the over state of `x`.
pub open spec fn over_flipped(before: PseudoStore, after: PseudoStore, x: NodeId) -> bool {
    before.has(x) && after.has(x) && after.state_of(x).over != before.state_of(x).over
}

/// One round of the work-list loop keeps its invariants.
proof fn lemma_walk_step(
    tree: Tree,
    style: StyleStore,
    wi: int,
    start: Probe,
    tb: Seq<Visit>,
    q: Seq<WorkItem>,
    m: int,
    qr: Seq<WorkItem>,
    tf: Seq<Visit>,
    qf: Seq<WorkItem>,
)
    requires
        tree.wf(),
        tree.is_live(wi),
        0 <= m < q.len(),
        qr == q.remove(m),
        forall|j: int| 0 <= j < q.len() ==> q[m].z <= #[trigger] q[j].z,
        trace_ok(tree, style, wi, start, tb),
        coverage(tree, style, tb, q, 0),
        forall|d: int| #[trigger] visible_from(tree, style, wi, d) ==> appears_after(tb, -1, d) || covered_by(
            tree,
            style,
            q,
            wi,
            d,
        ),
        forall|i: int, j: int| 0 <= i < j < tb.len() ==> (#[trigger] tb[i]).1 <= (#[trigger] tb[j]).1,
        forall|i: int, k: int| 0 <= i < tb.len() && 0 <= k < q.len() ==> (#[trigger] tb[i]).1 <= (#[trigger] q[k]).z,
        tb.len() < tf.len(),
        tf.subrange(0, tb.len() as int) == tb,
        tf[tb.len() as int].0 == q[m].node,
        qr.len() <= qf.len(),
        qf.subrange(0, qr.len() as int) == qr,
        forall|i: int| tb.len() <= i < tf.len() ==> (#[trigger] tf[i]).1 == q[m].z,
        forall|k: int| qr.len() <= k < qf.len() ==> (#[trigger] qf[k]).z > q[m].z,
        trace_ok(tree, style, wi, start, tf),
        coverage(tree, style, tf, qf, tb.len() as int),
    ensures
        coverage(tree, style, tf, qf, 0),
        forall|d: int| #[trigger] visible_from(tree, style, wi, d) ==> appears_after(tf, -1, d) || covered_by(
            tree,
            style,
            qf,
            wi,
            d,
        ),
        forall|i: int, j: int| 0 <= i < j < tf.len() ==> (#[trigger] tf[i]).1 <= (#[trigger] tf[j]).1,
        forall|i: int, k: int| 0 <= i < tf.len() && 0 <= k < qf.len() ==> (#[trigger] tf[i]).1 <= (#[trigger] qf[k]).z,
{
    let l = tb.len() as int;
    assert(qf.subrange(0, q.len() - 1) == q.remove(m));
    assert forall|i: int, d: int| 0 <= i < tf.len() && #[trigger] open_path(tree, style, tf[i].0 as int, d)
        implies appears_after(tf, i, d) || covered_by(tree, style, qf, tf[i].0 as int, d) by {
        if i < l {
            assert(tf.subrange(0, l)[i] == tf[i]);
            let xi = tb[i].0 as int;
            assert(open_path(tree, style, xi, d));
            tree.lemma_children_facts(wi, xi);
            if appears_after(tb, i, d) {
                let j = choose|j: int| i < j < tb.len() && #[trigger] tb[j].0 == d as usize;
                assert(tf.subrange(0, l)[j] == tf[j]);
            } else {
                lemma_pop_covered(tree, style, tb, q, m, tf, qf, xi, d);
                if appears_after(tf, l - 1, d) {
                    let j = choose|j: int| l - 1 < j < tf.len() && #[trigger] tf[j].0 == d as usize;
                }
            }
        }
    }
    assert forall|d: int| #[trigger] visible_from(tree, style, wi, d) implies appears_after(tf, -1, d)
        || covered_by(tree, style, qf, wi, d) by {
        if appears_after(tb, -1, d) {
            let j = choose|j: int| -1 < j < tb.len() && #[trigger] tb[j].0 == d as usize;
            assert(tf.subrange(0, l)[j] == tf[j]);
        } else {
            lemma_pop_covered(tree, style, tb, q, m, tf, qf, wi, d);
            if appears_after(tf, l - 1, d) {
                let j = choose|j: int| l - 1 < j < tf.len() && #[trigger] tf[j].0 == d as usize;
            }
        }
    }
    assert forall|i: int, j: int| 0 <= i < j < tf.len() implies (#[trigger] tf[i]).1 <= (#[trigger] tf[j]).1 by {
        if j < l {
            assert(tf.subrange(0, l)[i] == tf[i]);
            assert(tf.subrange(0, l)[j] == tf[j]);
        } else if i < l {
            assert(tf.subrange(0, l)[i] == tf[i]);
            assert(tb[i].1 <= q[m].z);
        }
    }
    assert forall|i: int, k: int| 0 <= i < tf.len() && 0 <= k < qf.len() implies (#[trigger] tf[i]).1 <= (
    #[trigger] qf[k]).z by {
        if k < qr.len() {
            assert(qf.subrange(0, qr.len() as int)[k] == qf[k]);
            let ko = if k < m { k } else { k + 1 };
            assert(qr[k] == q[ko]);
            assert(q[m].z <= q[ko].z);
        }
        if i < l {
            assert(tf.subrange(0, l)[i] == tf[i]);
            assert(tb[i].1 <= q[m].z);
        }
    }
}

/// Walks the subtree at slot `w` in z-priority order and returns the last
/// node that claimed the pointer, or `w` when none did.
fn resolve_hover(
    tree: &Tree,
    style: &StyleStore,
    pseudo: &mut PseudoStore,
    restyle: &mut Vec<NodeId>,
    w: usize,
    x: i64,
    y: i64,
) -> (h: usize)
    requires
        tree.wf(),
        tree.is_live(w as int),
    ensures
        valid_target(*tree, *style, w as int, h as int, start_probe(x, y)),
        tree.is_live(h as int),
        forall|n: int| #[trigger] visible_from(*tree, *style, w as int, n) && hit_at(*tree, *style, w as int, n, start_probe(x, y))
            ==> hit_at(*tree, *style, w as int, h as int, start_probe(x, y)) && level(*tree, *style, w as int, n) <= level(
            *tree,
            *style,
            w as int,
            h as int,
        ),
        hit_at(*tree, *style, w as int, h as int, start_probe(x, y)) ==> forall|d: int| #[trigger] open_path(
            *tree,
            *style,
            h as int,
            d,
        ) ==> !hit_at(*tree, *style, w as int, d, start_probe(x, y)),
        forall|n: NodeId| #[trigger] tree.contains(n) ==> final(pseudo).has(n) == old(pseudo).has(n),
        old(restyle)@.len() <= final(restyle)@.len(),
        final(restyle)@.subrange(0, old(restyle)@.len() as int) == old(restyle)@,
        forall|k: int| old(restyle)@.len() <= k < final(restyle)@.len() ==> tree.contains(#[trigger] final(restyle)@[k])
            && over_flipped(*old(pseudo), *final(pseudo), final(restyle)@[k]),
        forall|n: NodeId| tree.contains(n) && #[trigger] visible_from(*tree, *style, w as int, n.index as int)
            ==> over_settled(*tree, *style, w as int, start_probe(x, y), *old(pseudo), *final(pseudo), n),
{
    let ghost start = start_probe(x, y);
    let ghost wi = w as int;
    let probe = Probe { pointer_events: true, x, y, clip: Rect::unbounded() };
    proof {
        tree.lemma_preorder_member(w as int, w);
    }
    let mut hovered: usize = w;
    let mut queue: Vec<WorkItem> = Vec::new();
    let mut tr: Ghost<Seq<Visit>> = Ghost(Seq::empty());
    let ghost p0 = *pseudo;
    let ghost rs0 = restyle@;
    proof {
        lemma_open_above_start(*tree, *style, wi);
    }
    assert(queue@ =~= Seq::<WorkItem>::empty());
    hover_entity(tree, style, pseudo, restyle, &mut queue, &mut hovered, &mut tr, w, 0, probe, Ghost(wi), Ghost(start));
    proof {
        lemma_weight_nonneg(*tree, queue@);
        assert forall|d: int| #[trigger] visible_from(*tree, *style, wi, d) implies appears_after(tr@, -1, d)
            || covered_by(*tree, *style, queue@, wi, d) by {
            if z_of(*tree, *style, wi) <= 0 {
                assert(tr@[0].0 == w);
                if d != wi {
                    assert(open_path(*tree, *style, tr@[0].0 as int, d));
                }
            } else {
                assert(queue@[0].node == w);
                assert(covers(*tree, *style, queue@[0].node as int, wi, d));
            }
        }
    }
    while queue.len() > 0
        invariant
            tree.wf(),
            tree.is_live(wi),
            wi == w as int,
            trace_ok(*tree, *style, wi, start, tr@),
            queue_ok(*tree, *style, wi, start, queue@),
            hovered == last_hit(tr@, w),
            coverage(*tree, *style, tr@, queue@, 0),
            forall|d: int| #[trigger] visible_from(*tree, *style, wi, d) ==> appears_after(tr@, -1, d) || covered_by(
                *tree,
                *style,
                queue@,
                wi,
                d,
            ),
            forall|i: int, j: int| 0 <= i < j < tr@.len() ==> (#[trigger] tr@[i]).1 <= (#[trigger] tr@[j]).1,
            forall|i: int, k: int| 0 <= i < tr@.len() && 0 <= k < queue@.len() ==> (#[trigger] tr@[i]).1 <= (
            #[trigger] queue@[k]).z,
            weight(*tree, queue@) >= 0,
            p0 == *old(pseudo),
            pseudo_ok(*tree, *style, wi, start, tr@, 0, p0, *pseudo),
            rs0 == old(restyle)@,
            restyle_ok(*tree, *style, wi, start, rs0, restyle@, tr@, 0, p0),
        decreases weight(*tree, queue@),
    {
        let m = next_item(&queue);
        let ghost q = queue@;
        let ghost tb = tr@;
        let ghost pb = *pseudo;
        let ghost rb = restyle@;
        let item = queue.remove(m);
        proof {
            lemma_weight_remove(*tree, q, m as int);
            assert(queue@ == q.remove(m as int));
            assert(item == q[m as int]);
            assert forall|j: int| 0 <= j < queue@.len() implies {
                let it = #[trigger] queue@[j];
                &&& tree.in_subtree(wi, it.node as int)
                &&& it.probe == probe_at(*tree, *style, wi, it.node as int, start)
                &&& it.z == z_of(*tree, *style, it.node as int)
                &&& it.z == level(*tree, *style, wi, it.node as int)
                &&& reachable_at(*tree, *style, it.node as int)
                &&& open_above(*tree, *style, wi, it.node as int)
            } by {
                if j < m {
                    assert(queue@[j] == q[j]);
                } else {
                    assert(queue@[j] == q[j + 1]);
                }
            }
            assert forall|i: int| 0 <= i < tb.len() implies (#[trigger] tb[i]).1 <= item.z by {
                assert(tb[i].1 <= q[m as int].z);
            }
            lemma_weight_nonneg(*tree, queue@);
        }
        let ghost qr = queue@;
        hover_entity(tree, style, pseudo, restyle, &mut queue, &mut hovered, &mut tr, item.node, item.z, item.probe, Ghost(wi), Ghost(start));
        proof {
            lemma_weight_nonneg(*tree, queue@);
            lemma_walk_step(*tree, *style, wi, start, tb, q, m as int, qr, tr@, queue@);
            lemma_restyle_compose(*tree, *style, wi, start, tb, 0, tr@, p0, pb, rs0, rb, restyle@);
            lemma_pseudo_compose(*tree, *style, wi, start, tb, 0, tr@, p0, pb, *pseudo);
        }
    }
    proof {
        let t = tr@;
        tree.lemma_wf();
        tree.lemma_preorder_member(wi, w);
        lemma_last_hit_pos(t);
        let lp = last_hit_pos(t);
        if lp >= 0 {
            let v = t[lp];
            assert(tree.in_subtree(wi, v.0 as int));
            tree.lemma_children_facts(wi, v.0 as int);
        }
        assert forall|n: int| #[trigger] visible_from(*tree, *style, wi, n) && hit_at(*tree, *style, wi, n, start)
            implies hit_at(*tree, *style, wi, hovered as int, start) && level(*tree, *style, wi, n) <= level(
            *tree, *style, wi, hovered as int) by {
            if n != wi {
                assert(tree.in_subtree(wi, n));
            }
            assert(0 <= n < tree.len());
            let j = choose|j: int| -1 < j < t.len() && #[trigger] t[j].0 == n as usize;
            assert(t[j].0 as int == n);
            assert(t[j].2);
            assert(j <= lp);
            if j < lp {
                assert(t[j].1 <= t[lp].1);
            }
        }
        if hit_at(*tree, *style, wi, hovered as int, start) {
            if lp < 0 {
                assert(visible_from(*tree, *style, wi, wi));
                let j = choose|j: int| -1 < j < t.len() && #[trigger] t[j].0 == w;
                assert(t[j].2);
            }
            assert forall|d: int| #[trigger] open_path(*tree, *style, hovered as int, d) implies !hit_at(
                *tree, *style, wi, d, start) by {
                assert(open_path(*tree, *style, t[lp].0 as int, d));
                assert(tree.in_subtree(hovered as int, d));
                assert(0 <= d < tree.len());
                let j = choose|j: int| lp < j < t.len() && #[trigger] t[j].0 == d as usize;
                assert(t[j].0 as int == d);
                assert(!t[j].2);
            }
        }
        if hovered != w {
            tree.lemma_preorder_live(wi);
        }
        assert forall|k: int| rs0.len() <= k < restyle@.len() implies tree.contains(#[trigger] restyle@[k])
            && over_flipped(p0, *pseudo, restyle@[k]) by {
            let x = restyle@[k];
            assert(over_settled(*tree, *style, wi, start, p0, *pseudo, x));
        }
        assert forall|n: NodeId| #[trigger] tree.contains(n) implies pseudo.has(n) == p0.has(n) by {
            if visited_in(t, 0, n.index as int) {
                assert(over_settled(*tree, *style, wi, start, p0, *pseudo, n));
            }
        }
        assert forall|n: NodeId| tree.contains(n) && #[trigger] visible_from(*tree, *style, wi, n.index as int)
            implies over_settled(*tree, *style, wi, start, p0, *pseudo, n) by {
            let d = n.index as int;
            if d != wi {
                assert(tree.in_subtree(wi, d));
            }
            let j = choose|j: int| -1 < j < t.len() && #[trigger] t[j].0 == d as usize;
            assert(visited_in(t, 0, d));
        }
    }
    hovered
}

/// `y` lies on the path from `a` down to `h`, `a` excluded.
pub open spec fn strictly_between(t: Tree, a: int, y: int, h: int) -> bool {
    t.in_subtree(a, y) && y != a && t.in_subtree(y, h)
}

/// The marks a pass appends after `r0`: one for each node whose over state
/// flipped, then, on a change of hovered node, the old and the new one.
pub open spec fn restyle_marks(
    r0: Seq<NodeId>,
    r1: Seq<NodeId>,
    from: NodeId,
    to: NodeId,
    before: PseudoStore,
    after: PseudoStore,
) -> bool {
    let tail = if from != to { 2int } else { 0int };
    &&& r0.len() + tail <= r1.len()
    &&& r1.subrange(0, r0.len() as int) == r0
    &&& forall|k: int| r0.len() <= k < r1.len() - tail ==> over_flipped(before, after, #[trigger] r1[k])
    &&& from != to ==> r1[r1.len() - 2] == from && r1[r1.len() - 1] == to
}

/// The window carries interaction states and the pointer is not over it:
/// a hover pass leaves everything as it is.
pub open spec fn window_shut(pseudo: PseudoStore, w: NodeId) -> bool {
    pseudo.has(w) && !pseudo.state_of(w).over
}

/// Asserts the hover state on `h` and each of its ancestors that shows the
/// over state.
fn mark_hover_chain(tree: &Tree, pseudo: &mut PseudoStore, h: usize)
    requires
        tree.wf(),
        tree.is_live(h as int),
    ensures
        forall|x: NodeId| !#[trigger] tree.in_subtree(x.index as int, h as int) ==> final(pseudo).has(x) == old(
            pseudo,
        ).has(x) && final(pseudo).state_of(x) == old(pseudo).state_of(x),
        forall|x: NodeId| #[trigger] tree.in_subtree(x.index as int, h as int) && tree.contains(x) ==> {
            &&& final(pseudo).has(x) == old(pseudo).has(x)
            &&& final(pseudo).state_of(x).over == old(pseudo).state_of(x).over
            &&& (old(pseudo).has(x) && old(pseudo).state_of(x).over) ==> final(pseudo).state_of(x).hover
            &&& !(old(pseudo).has(x) && old(pseudo).state_of(x).over) ==> final(pseudo).state_of(x) == old(
                pseudo,
            ).state_of(x)
        },
{
    proof {
        tree.lemma_wf();
        tree.lemma_preorder_member(h as int, h);
        assert forall|y: int| !#[trigger] strictly_between(*tree, h as int, y, h as int) by {
            if strictly_between(*tree, h as int, y, h as int) {
                tree.lemma_subtree_rank_strict(h as int, y);
                tree.lemma_children_facts(h as int, y);
                tree.lemma_subtree_rank(y, h as int);
            }
        }
    }
    let mut a = h;
    loop
        invariant_except_break
            tree.wf(),
            tree.is_live(a as int),
            tree.is_live(h as int),
            tree.in_subtree(a as int, h as int),
            forall|x: NodeId| !#[trigger] strictly_between(*tree, a as int, x.index as int, h as int)
                ==> pseudo.has(x) == old(pseudo).has(x) && pseudo.state_of(x) == old(pseudo).state_of(x),
            forall|x: NodeId| #[trigger] strictly_between(*tree, a as int, x.index as int, h as int) && tree.contains(x) ==> {
                &&& pseudo.has(x) == old(pseudo).has(x)
                &&& pseudo.state_of(x).over == old(pseudo).state_of(x).over
                &&& (old(pseudo).has(x) && old(pseudo).state_of(x).over) ==> pseudo.state_of(x).hover
                &&& !(old(pseudo).has(x) && old(pseudo).state_of(x).over) ==> pseudo.state_of(x) == old(pseudo).state_of(x)
            },
        ensures
            forall|x: NodeId| !#[trigger] tree.in_subtree(x.index as int, h as int) ==> pseudo.has(x) == old(
                pseudo,
            ).has(x) && pseudo.state_of(x) == old(pseudo).state_of(x),
            forall|x: NodeId| #[trigger] tree.in_subtree(x.index as int, h as int) && tree.contains(x) ==> {
                &&& pseudo.has(x) == old(pseudo).has(x)
                &&& pseudo.state_of(x).over == old(pseudo).state_of(x).over
                &&& (old(pseudo).has(x) && old(pseudo).state_of(x).over) ==> pseudo.state_of(x).hover
                &&& !(old(pseudo).has(x) && old(pseudo).state_of(x).over) ==> pseudo.state_of(x) == old(pseudo).state_of(x)
            },
        decreases tree.rank_of(a as int),
    {
        let id = tree.id_at(a);
        let ghost before = *pseudo;
        match pseudo.get(id) {
            Option::Some(pc) => {
                if pc.over && !pc.hover {
                    let mut pc = pc;
                    pc.hover = true;
                    pseudo.insert(id, pc);
                }
            },
            Option::None => {},
        }
        if a == 0 {
            proof {
                assert forall|x: NodeId| !#[trigger] tree.in_subtree(x.index as int, h as int) implies pseudo.has(x)
                    == old(pseudo).has(x) && pseudo.state_of(x) == old(pseudo).state_of(x) by {
                    assert(!strictly_between(*tree, 0, x.index as int, h as int));
                    assert(x.index != 0);
                }
                assert forall|x: NodeId| #[trigger] tree.in_subtree(x.index as int, h as int) && tree.contains(x) implies {
                    &&& pseudo.has(x) == old(pseudo).has(x)
                    &&& pseudo.state_of(x).over == old(pseudo).state_of(x).over
                    &&& (old(pseudo).has(x) && old(pseudo).state_of(x).over) ==> pseudo.state_of(x).hover
                    &&& !(old(pseudo).has(x) && old(pseudo).state_of(x).over) ==> pseudo.state_of(x) == old(pseudo).state_of(x)
                } by {
                    if x.index != 0 {
                        tree.lemma_root_reaches(x.index as int);
                        assert(strictly_between(*tree, 0, x.index as int, h as int));
                        assert(before.has(x) == pseudo.has(x) && before.state_of(x) == pseudo.state_of(x));
                    } else {
                        assert(x == id);
                        assert(!strictly_between(*tree, 0, 0, h as int));
                    }
                }
            }
            break;
        }
        let p = tree.parent_slot(a);
        proof {
            tree.lemma_parent_link(a as int);
            let k = choose|k: int| 0 <= k < tree.children(p as int).len() && tree.children(p as int)[k] == a;
            tree.lemma_preorder_member(p as int, p);
            tree.lemma_subtree_child(p as int, p as int, k);
            assert(tree.in_subtree(p as int, a as int));
            tree.lemma_subtree_trans(p as int, a as int, h as int);
            assert forall|y: int| #[trigger] strictly_between(*tree, p as int, y, h as int) <==> (y == a as int
                || strictly_between(*tree, a as int, y, h as int)) by {
                if strictly_between(*tree, p as int, y, h as int) && y != a as int {
                    tree.lemma_children_facts(p as int, y);
                    tree.lemma_subtree_chain(a as int, y, h as int);
                    if tree.in_subtree(y, a as int) {
                        tree.lemma_subtree_parent(y, a as int);
                        tree.lemma_subtree_rank(y, p as int);
                        tree.lemma_subtree_rank_strict(p as int, y);
                    }
                }
                if strictly_between(*tree, a as int, y, h as int) {
                    tree.lemma_subtree_trans(p as int, a as int, y);
                    tree.lemma_subtree_rank_strict(a as int, y);
                }
                if y == a as int {
                    assert(tree.below(p as int, a as int));
                }
            }
            assert forall|x: NodeId| !#[trigger] strictly_between(*tree, p as int, x.index as int, h as int)
                implies pseudo.has(x) == old(pseudo).has(x) && pseudo.state_of(x) == old(pseudo).state_of(x) by {
                assert(!strictly_between(*tree, a as int, x.index as int, h as int));
                assert(x.index != a);
            }
            assert forall|x: NodeId| #[trigger] strictly_between(*tree, p as int, x.index as int, h as int) && tree.contains(x)
                implies {
                &&& pseudo.has(x) == old(pseudo).has(x)
                &&& pseudo.state_of(x).over == old(pseudo).state_of(x).over
                &&& (old(pseudo).has(x) && old(pseudo).state_of(x).over) ==> pseudo.state_of(x).hover
                &&& !(old(pseudo).has(x) && old(pseudo).state_of(x).over) ==> pseudo.state_of(x) == old(pseudo).state_of(x)
            } by {
                if x.index == a {
                    assert(x == id);
                    assert(!strictly_between(*tree, a as int, a as int, h as int));
                } else {
                    assert(strictly_between(*tree, a as int, x.index as int, h as int));
                    assert(before.has(x) == pseudo.has(x) && before.state_of(x) == pseudo.state_of(x));
                }
            }
        }
        a = p;
    }
}

/// Determines the node under the pointer for the window `window_entity`
/// and, when it changed, queues the transition events, marks both nodes
/// for restyling and asks for the new node's cursor icon (unless the icon
/// is locked). Nothing happens when the window's states say the pointer is
/// not over it. A pointer with a negative coordinate is outside the window:
/// no node is tested and the window itself becomes the hovered node.
pub fn hover_system(cx: &mut Context, window_entity: NodeId)
    requires
        old(cx).tree.wf(),
    ensures
        final(cx).tree == old(cx).tree,
        final(cx).style == old(cx).style,
        final(cx).cursor_x == old(cx).cursor_x,
        final(cx).cursor_y == old(cx).cursor_y,
        final(cx).cursor_icon_locked == old(cx).cursor_icon_locked,
        (!old(cx).tree.contains(window_entity) || window_shut(old(cx).pseudo, window_entity)) ==> *final(cx)
            == *old(cx),
        old(cx).tree.contains(window_entity) && !window_shut(old(cx).pseudo, window_entity) ==> {
            let t = old(cx).tree;
            let h = final(cx).hovered;
            &&& t.contains(h)
            &&& valid_target(
                t,
                old(cx).style,
                window_entity.index as int,
                h.index as int,
                start_probe(old(cx).cursor_x, old(cx).cursor_y),
            )
            &&& (old(cx).cursor_x < 0 || old(cx).cursor_y < 0) ==> h == window_entity
            &&& final(cx).event_queue@ == old(cx).event_queue@ + transitions(old(cx).hovered, h)
            &&& (old(cx).hovered != h && !old(cx).cursor_icon_locked) ==> final(cx).cursor_request
                == Some(old(cx).style.style_of(h).cursor)
            &&& (old(cx).hovered == h || old(cx).cursor_icon_locked) ==> final(cx).cursor_request
                == old(cx).cursor_request
            &&& forall|x: NodeId| #[trigger] t.in_subtree(x.index as int, h.index as int) && t.contains(x)
                && final(cx).pseudo.has(x) && final(cx).pseudo.state_of(x).over ==> final(cx).pseudo.state_of(
                x,
            ).hover
            &&& forall|x: NodeId| #[trigger] t.contains(x) ==> final(cx).pseudo.has(x) == old(cx).pseudo.has(x)
            &&& restyle_marks(old(cx).restyle@, final(cx).restyle@, old(cx).hovered, h, old(cx).pseudo, final(cx).pseudo)
        },
        old(cx).tree.contains(window_entity) && !window_shut(old(cx).pseudo, window_entity) && old(cx).cursor_x >= 0 && old(cx).cursor_y >= 0 ==> {
            let t = old(cx).tree;
            let s = old(cx).style;
            let w = window_entity.index as int;
            let h = final(cx).hovered.index as int;
            let start = start_probe(old(cx).cursor_x, old(cx).cursor_y);
            &&& forall|n: int| #[trigger] visible_from(t, s, w, n) && hit_at(t, s, w, n, start) ==> hit_at(
                t,
                s,
                w,
                h,
                start,
            ) && level(t, s, w, n) <= level(t, s, w, h)
            &&& hit_at(t, s, w, h, start) ==> forall|d: int| #[trigger] open_path(t, s, h, d) ==> !hit_at(
                t,
                s,
                w,
                d,
                start,
            )
            &&& forall|x: NodeId| t.contains(x) && #[trigger] visible_from(t, s, w, x.index as int) ==> {
                let before = old(cx).pseudo;
                let after = final(cx).pseudo;
                &&& after.has(x) == before.has(x)
                &&& after.has(x) ==> after.state_of(x).hover == (after.state_of(x).over && t.in_subtree(
                    x.index as int,
                    h,
                ))
                &&& (after.has(x) && policy_at(t, s, w, x.index as int, start)) ==> after.state_of(x).over
                    == hit_at(t, s, w, x.index as int, start)
                &&& !policy_at(t, s, w, x.index as int, start) ==> after.state_of(x).over == before.state_of(
                    x,
                ).over
            }
        },
{
    if !cx.tree.contains_id(window_entity) {
        return;
    }
    match cx.pseudo.get(window_entity) {
        Option::Some(pc) => {
            if !pc.over {
                return;
            }
        },
        Option::None => {},
    }
    let w = window_entity.index as usize;
    let ghost r_start = cx.restyle@;
    let h = if cx.cursor_x < 0 || cx.cursor_y < 0 {
        proof {
            cx.tree.lemma_preorder_member(w as int, w);
        }
        w
    } else {
        resolve_hover(&cx.tree, &cx.style, &mut cx.pseudo, &mut cx.restyle, w, cx.cursor_x, cx.cursor_y)
    };
    let ghost mid = cx.pseudo;
    proof {
        if cx.cursor_x < 0 || cx.cursor_y < 0 {
            assert(cx.restyle@ == r_start);
        }
        assert(cx.restyle@.subrange(0, r_start.len() as int) == r_start);
        assert(forall|k: int| r_start.len() <= k < cx.restyle@.len() ==> cx.tree.contains(#[trigger] cx.restyle@[k])
            && over_flipped(old(cx).pseudo, mid, cx.restyle@[k]));
    }
    let ghost r_mid = cx.restyle@;
    mark_hover_chain(&cx.tree, &mut cx.pseudo, h);
    proof {
        assert forall|x: NodeId| #[trigger] cx.tree.contains(x) implies cx.pseudo.has(x) == mid.has(x)
            && cx.pseudo.state_of(x).over == mid.state_of(x).over by {
            if cx.tree.in_subtree(x.index as int, h as int) {
            }
        }
        if cx.cursor_x >= 0 && cx.cursor_y >= 0 {
            let t = cx.tree;
            let wi = w as int;
            let start = start_probe(cx.cursor_x, cx.cursor_y);
            assert forall|x: NodeId| t.contains(x) && #[trigger] visible_from(t, cx.style, wi, x.index as int) implies {
                &&& cx.pseudo.has(x) == old(cx).pseudo.has(x)
                &&& cx.pseudo.has(x) ==> cx.pseudo.state_of(x).hover == (cx.pseudo.state_of(x).over && t.in_subtree(
                    x.index as int,
                    h as int,
                ))
                &&& (cx.pseudo.has(x) && policy_at(t, cx.style, wi, x.index as int, start)) ==> cx.pseudo.state_of(x).over
                    == hit_at(t, cx.style, wi, x.index as int, start)
                &&& !policy_at(t, cx.style, wi, x.index as int, start) ==> cx.pseudo.state_of(x).over == old(cx).pseudo.state_of(
                    x,
                ).over
            } by {
                assert(over_settled(t, cx.style, wi, start, old(cx).pseudo, mid, x));
                if t.in_subtree(x.index as int, h as int) {
                } else {
                }
            }
        }
    }
    let hovered = cx.tree.id_at(h);
    assert(hovered.index == h);
    if hovered != cx.hovered {
        if !cx.cursor_icon_locked {
            let st = cx.style.get(hovered);
            cx.cursor_request = Option::Some(st.cursor);
        }
        let mut events = hover_transitions(cx.hovered, hovered);
        cx.event_queue.append(&mut events);
        cx.restyle.push(cx.hovered);
        cx.restyle.push(hovered);
        proof {
            let r = cx.restyle@;
            assert(r.subrange(0, r_start.len() as int) =~= r_start) by {
                assert forall|k: int| 0 <= k < r_start.len() implies #[trigger] r.subrange(0, r_start.len() as int)[k] == r_start[k] by {
                    assert(r[k] == r_mid[k]);
                    assert(r_mid.subrange(0, r_start.len() as int)[k] == r_mid[k]);
                }
            }
            assert forall|k: int| r_start.len() <= k < r.len() - 2 implies over_flipped(old(cx).pseudo, cx.pseudo, #[trigger] r[k]) by {
                assert(r[k] == r_mid[k]);
                assert(cx.tree.contains(r_mid[k]));
            }
        }
        cx.hovered = hovered;
    } else {
        proof {
            assert forall|k: int| r_start.len() <= k < cx.restyle@.len() implies over_flipped(old(cx).pseudo, cx.pseudo, #[trigger] cx.restyle@[k]) by {
                assert(cx.tree.contains(r_mid[k]));
            }
        }
        assert(transitions(cx.hovered, hovered) =~= Seq::<Event>::empty());
        assert(cx.event_queue@ + transitions(cx.hovered, hovered) =~= cx.event_queue@);
    }
}

} // verus!
