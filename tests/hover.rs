use vizia_scene::hover::{hover_system, hover_transitions, Context, Event, Propagation, WindowEvent};
use vizia_scene::modifiers::{Handle, StyleModifiers};
use vizia_scene::style::{CursorIcon, Display, NodeStyle, PointerEvents, PseudoClasses, Rect};
use vizia_scene::tree::{NodeId, Tree};

fn boxed(left: i64, top: i64, right: i64, bottom: i64) -> NodeStyle {
    let mut s = NodeStyle::new();
    s.bounds = Rect::new(left, top, right, bottom);
    s
}

/// Root covering [0, 300) squared, children added in order under the given parents.
fn scene(nodes: &[(u32, u32, NodeStyle)]) -> Context {
    let mut t = Tree::new();
    for &(i, p, _) in nodes {
        t.add(NodeId::new(i, 0), NodeId::new(p, 0)).unwrap();
    }
    let mut cx = Context::new(t);
    cx.style.insert(NodeId::root(), boxed(0, 0, 300, 300));
    for &(i, _, s) in nodes {
        cx.style.insert(NodeId::new(i, 0), s);
    }
    cx
}

fn point(cx: &mut Context, x: i64, y: i64) -> NodeId {
    cx.cursor_x = x;
    cx.cursor_y = y;
    hover_system(cx, NodeId::root());
    cx.hovered
}

#[test]
fn higher_z_sibling_wins_overlap() {
    // root R, A (z 0) with child C, B (z 5); C overlaps B
    let mut b = boxed(50, 0, 150, 100);
    b.z_index = 5;
    let mut cx = scene(&[(1, 0, boxed(0, 0, 100, 100)), (2, 0, b), (3, 1, boxed(50, 0, 100, 100))]);
    assert_eq!(point(&mut cx, 75, 50), NodeId::new(2, 0));
    assert_eq!(point(&mut cx, 25, 50), NodeId::new(1, 0));
}

#[test]
fn deep_high_z_node_preempts_later_shallow_node() {
    // A's grandchild has z 3 and lies under later sibling B (z 0)
    let mut deep = boxed(100, 0, 200, 100);
    deep.z_index = 3;
    let mut cx = scene(&[
        (1, 0, boxed(0, 0, 200, 100)),
        (2, 1, boxed(0, 0, 200, 100)),
        (3, 2, deep),
        (4, 0, boxed(100, 0, 200, 100)),
    ]);
    assert_eq!(point(&mut cx, 150, 50), NodeId::new(3, 0));
}

#[test]
fn shared_edge_goes_to_the_right_sibling() {
    let mut cx = scene(&[(1, 0, boxed(0, 0, 100, 100)), (2, 0, boxed(100, 0, 200, 100))]);
    assert_eq!(point(&mut cx, 100, 50), NodeId::new(2, 0));
    assert_eq!(point(&mut cx, 99, 50), NodeId::new(1, 0));
    assert_eq!(point(&mut cx, 200, 50), NodeId::root());
}

#[test]
fn descendant_beats_matching_ancestor() {
    let mut cx = scene(&[(1, 0, boxed(0, 0, 100, 100)), (2, 1, boxed(10, 10, 50, 50))]);
    assert_eq!(point(&mut cx, 20, 20), NodeId::new(2, 0));
    assert_eq!(point(&mut cx, 60, 60), NodeId::new(1, 0));
}

#[test]
fn disabled_pointer_events_are_inherited() {
    let mut a = boxed(0, 0, 100, 100);
    a.pointer_events = Some(PointerEvents::Disabled);
    let mut cx = scene(&[(1, 0, a), (2, 1, boxed(0, 0, 50, 50)), (3, 1, boxed(50, 50, 100, 100))]);
    assert_eq!(point(&mut cx, 10, 10), NodeId::root());
    assert_eq!(point(&mut cx, 75, 75), NodeId::root());
    let mut c = boxed(50, 50, 100, 100);
    c.pointer_events = Some(PointerEvents::Auto);
    cx.style.insert(NodeId::new(3, 0), c);
    assert_eq!(point(&mut cx, 75, 75), NodeId::new(3, 0));
}

#[test]
fn hidden_and_unhoverable_subtrees_are_skipped() {
    let mut a = boxed(0, 0, 100, 100);
    a.display = Display::Hidden;
    let mut b = boxed(100, 0, 200, 100);
    b.abilities.hoverable = false;
    let mut cx = scene(&[(1, 0, a), (2, 1, boxed(0, 0, 50, 50)), (3, 0, b), (4, 3, boxed(100, 0, 150, 50))]);
    assert_eq!(point(&mut cx, 10, 10), NodeId::root());
    assert_eq!(point(&mut cx, 120, 10), NodeId::root());
    let mut span = boxed(0, 0, 100, 100);
    span.display = Display::Hidden;
    span.text_span = true;
    cx.style.insert(NodeId::new(1, 0), span);
    assert_eq!(point(&mut cx, 10, 10), NodeId::new(2, 0));
}

#[test]
fn clip_region_limits_descendants() {
    let mut a = boxed(0, 0, 100, 100);
    a.clip = Rect::new(0, 0, 50, 50);
    let mut cx = scene(&[(1, 0, a), (2, 1, boxed(0, 0, 100, 100))]);
    assert_eq!(point(&mut cx, 60, 60), NodeId::root());
    assert_eq!(point(&mut cx, 40, 40), NodeId::new(2, 0));
}

#[test]
fn translation_moves_the_hit_area() {
    let mut a = boxed(0, 0, 100, 100);
    a.translate_x = 100;
    let mut cx = scene(&[(1, 0, a)]);
    assert_eq!(point(&mut cx, 50, 50), NodeId::root());
    assert_eq!(point(&mut cx, 150, 50), NodeId::new(1, 0));
}

#[test]
fn unmappable_translation_leaves_children_walked() {
    let mut a = boxed(0, 0, 100, 100);
    a.translate_x = i64::MIN;
    let mut cx = scene(&[(1, 0, a), (2, 1, boxed(0, 0, 100, 100))]);
    assert_eq!(point(&mut cx, 50, 50), NodeId::new(2, 0));
}

#[test]
fn negative_pointer_resolves_to_window() {
    let mut cx = scene(&[(1, 0, boxed(0, 0, 100, 100))]);
    assert_eq!(point(&mut cx, 10, 10), NodeId::new(1, 0));
    assert_eq!(point(&mut cx, -1, 10), NodeId::root());
    assert_eq!(point(&mut cx, 10, -5), NodeId::root());
}

#[test]
fn hover_change_emits_four_events_once() {
    let x = NodeId::new(1, 0);
    let y = NodeId::new(2, 0);
    let mut cx = scene(&[(1, 0, boxed(0, 0, 100, 100)), (2, 0, boxed(100, 0, 200, 100))]);
    point(&mut cx, 50, 50);
    cx.event_queue.clear();
    point(&mut cx, 150, 50);
    assert_eq!(
        cx.event_queue,
        vec![
            Event { message: WindowEvent::MouseEnter, target: y, propagation: Propagation::Direct },
            Event { message: WindowEvent::MouseLeave, target: x, propagation: Propagation::Direct },
            Event { message: WindowEvent::MouseOver, target: y, propagation: Propagation::Up },
            Event { message: WindowEvent::MouseOut, target: x, propagation: Propagation::Up },
        ]
    );
    point(&mut cx, 160, 50);
    assert_eq!(cx.event_queue.len(), 4);
    assert!(cx.restyle.contains(&x) && cx.restyle.contains(&y));
}

#[test]
fn transitions_of_no_change_are_empty() {
    assert!(hover_transitions(NodeId::root(), NodeId::root()).is_empty());
    assert_eq!(hover_transitions(NodeId::root(), NodeId::new(1, 0)).len(), 4);
}

#[test]
fn cursor_follows_hover_unless_locked() {
    let mut a = boxed(0, 0, 100, 100);
    a.cursor = CursorIcon::Pointer;
    let mut b = boxed(100, 0, 200, 100);
    b.cursor = CursorIcon::Text;
    let mut cx = scene(&[(1, 0, a), (2, 0, b)]);
    point(&mut cx, 50, 50);
    assert_eq!(cx.cursor_request, Some(CursorIcon::Pointer));
    cx.cursor_icon_locked = true;
    point(&mut cx, 150, 50);
    assert_eq!(cx.hovered, NodeId::new(2, 0));
    assert_eq!(cx.cursor_request, Some(CursorIcon::Pointer));
}

#[test]
fn over_and_hover_states_are_set() {
    let a = NodeId::new(1, 0);
    let c = NodeId::new(2, 0);
    let mut cx = scene(&[(1, 0, boxed(0, 0, 100, 100)), (2, 1, boxed(0, 0, 50, 50))]);
    let mut window = PseudoClasses::empty();
    window.over = true;
    cx.pseudo.insert(NodeId::root(), window);
    for id in [a, c] {
        cx.pseudo.insert(id, PseudoClasses::empty());
    }
    point(&mut cx, 10, 10);
    let pc = cx.pseudo.get(c).unwrap();
    assert!(pc.over && pc.hover);
    let pa = cx.pseudo.get(a).unwrap();
    assert!(pa.over && pa.hover);
    point(&mut cx, 75, 75);
    assert!(!cx.pseudo.get(c).unwrap().over);
}

#[test]
fn stale_id_reads_fallback_attributes() {
    let mut t = Tree::new();
    let a = t.create(NodeId::root()).unwrap();
    let mut cx = Context::new(t);
    cx.style.insert(a, boxed(0, 0, 10, 10));
    let stale = NodeId::new(a.index, a.generation + 1);
    assert_eq!(cx.style.get(stale), NodeStyle::new());
    cx.style.remove(a);
    assert_eq!(cx.style.get(a), NodeStyle::new());
}

#[test]
fn style_modifiers_write_attributes() {
    let mut cx = scene(&[(1, 0, boxed(0, 0, 100, 100))]);
    let h = Handle { entity: NodeId::new(1, 0) };
    let h = h.z_order(&mut cx, 7).checked(&mut cx, true).transform(&mut cx, 3, -2);
    assert_eq!(cx.tree.z_order(h.entity), Ok(7));
    assert!(cx.pseudo.get(h.entity).unwrap().checked);
    assert!(cx.style.get(h.entity).abilities.checkable);
    assert_eq!(cx.style.get(h.entity).translate_x, 3);
    assert_eq!(cx.style.get(h.entity).translate_y, -2);
    h.checked(&mut cx, false);
    assert!(!cx.pseudo.get(h.entity).unwrap().checked);
}

#[test]
fn window_without_pointer_skips_the_pass() {
    let mut cx = scene(&[(1, 0, boxed(0, 0, 100, 100))]);
    cx.pseudo.insert(NodeId::root(), PseudoClasses::empty());
    assert_eq!(point(&mut cx, 10, 10), NodeId::root());
    assert!(cx.event_queue.is_empty());
    let mut window = PseudoClasses::empty();
    window.over = true;
    cx.pseudo.insert(NodeId::root(), window);
    assert_eq!(point(&mut cx, 10, 10), NodeId::new(1, 0));
}

#[test]
fn hover_cleared_off_the_chain() {
    let a = NodeId::new(1, 0);
    let b = NodeId::new(2, 0);
    let mut cx = scene(&[(1, 0, boxed(0, 0, 100, 100)), (2, 0, boxed(100, 0, 200, 100))]);
    for id in [a, b] {
        cx.pseudo.insert(id, PseudoClasses::empty());
    }
    point(&mut cx, 50, 50);
    assert!(cx.pseudo.get(a).unwrap().hover);
    point(&mut cx, 150, 50);
    assert!(!cx.pseudo.get(a).unwrap().hover);
    assert!(cx.pseudo.get(b).unwrap().hover);
    assert_eq!(&cx.restyle[cx.restyle.len() - 2..], &[a, b]);
}

#[test]
fn stale_writes_leave_live_entry_alone() {
    let mut t = Tree::new();
    let a = t.create(NodeId::root()).unwrap();
    let mut cx = Context::new(t);
    cx.style.insert(a, boxed(0, 0, 10, 10));
    cx.pseudo.insert(a, PseudoClasses::empty());
    let stale = NodeId::new(a.index, a.generation + 1);
    cx.style.remove(stale);
    cx.pseudo.remove(stale);
    assert_eq!(cx.style.get(a), boxed(0, 0, 10, 10));
    assert!(cx.pseudo.get(a).is_some());
}
