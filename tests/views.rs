use vizia_scene::dropdown::Dropdown;
use vizia_scene::hover::Context;
use vizia_scene::style::Display;
use vizia_scene::tree::{NodeId, Tree, TreeError};

#[test]
fn dropdown_builds_trigger_and_closed_popup() {
    let mut cx = Context::new(Tree::new());
    let d = Dropdown::new(&mut cx, NodeId::root()).unwrap();
    assert_eq!(cx.tree.parent(d.node), Ok(Some(NodeId::root())));
    assert_eq!(cx.tree.first_child(d.node), Ok(Some(d.trigger)));
    assert_eq!(cx.tree.next_sibling(d.trigger), Ok(Some(d.popup)));
    assert_eq!(cx.style.get(d.popup).display, Display::Hidden);
    assert_eq!(d.element(), "dropdown");
}

#[test]
fn dropdown_needs_a_live_parent() {
    let mut cx = Context::new(Tree::new());
    assert_eq!(Dropdown::new(&mut cx, NodeId::new(4, 0)), Err(TreeError::ParentNotFound));
}
