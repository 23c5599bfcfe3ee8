use vstd::prelude::*;
use crate::hover::Context;
use crate::style::{Abilities, NodeStyle, PseudoClasses};
use crate::tree::NodeId;

verus! {

/// A node being configured.
#[derive(Clone, Copy, Debug, PartialEq, Eq, Structural)]
pub struct Handle {
    pub entity: NodeId,
}

/// `st` with the checkable ability set.
pub open spec fn made_checkable(st: NodeStyle) -> NodeStyle {
    NodeStyle { abilities: Abilities { checkable: true, ..st.abilities }, ..st }
}

/// `st` drawn shifted by `(x, y)`.
pub open spec fn translated(st: NodeStyle, x: i64, y: i64) -> NodeStyle {
    NodeStyle { translate_x: x, translate_y: y, ..st }
}

/// Setters for the style attributes of a node, chained on its handle.
pub trait StyleModifiers: Sized {
    spec fn target(&self) -> NodeId;

    /// Sets the draw and hover priority of the node among its relatives.
    fn z_order(self, cx: &mut Context, value: i32) -> (r: Self)
        requires
            old(cx).tree.wf(),
        ensures
            r.target() == self.target(),
            final(cx).tree.wf(),
            old(cx).tree.contains(self.target()) ==> final(cx).tree.slots()[self.target().index as int].z_order
                == value,
            forall|x: NodeId| #[trigger] final(cx).tree.contains(x) == old(cx).tree.contains(x),
            forall|j: int| 0 <= j < old(cx).tree.len() ==> #[trigger] final(cx).tree.children(j) == old(
                cx,
            ).tree.children(j),
    ;

    /// Sets the checked state; a checked node becomes checkable too.
    fn checked(self, cx: &mut Context, state: bool) -> (r: Self)
        ensures
            r.target() == self.target(),
            final(cx).tree == old(cx).tree,
            final(cx).pseudo.has(self.target()),
            final(cx).pseudo.state_of(self.target()).checked == state,
            final(cx).pseudo.state_of(self.target()).over == old(cx).pseudo.state_of(self.target()).over,
            final(cx).pseudo.state_of(self.target()).hover == old(cx).pseudo.state_of(self.target()).hover,
            state ==> final(cx).style.style_of(self.target()) == made_checkable(old(cx).style.style_of(self.target())),
            !state ==> final(cx).style.style_of(self.target()) == old(cx).style.style_of(self.target()),
            forall|o: NodeId| o.index != self.target().index ==> #[trigger] final(cx).style.style_of(o) == old(
                cx,
            ).style.style_of(o) && final(cx).pseudo.has(o) == old(cx).pseudo.has(o) && final(cx).pseudo.state_of(o)
                == old(cx).pseudo.state_of(o),
            final(cx).event_queue == old(cx).event_queue,
            final(cx).hovered == old(cx).hovered,
            final(cx).restyle@ == old(cx).restyle@.push(self.target()),
    ;

    /// Sets the translation the node is drawn with.
    fn transform(self, cx: &mut Context, x: i64, y: i64) -> (r: Self)
        ensures
            r.target() == self.target(),
            final(cx).tree == old(cx).tree,
            final(cx).style.style_of(self.target()) == translated(old(cx).style.style_of(self.target()), x, y),
            final(cx).pseudo == old(cx).pseudo,
            forall|o: NodeId| o.index != self.target().index ==> #[trigger] final(cx).style.style_of(o) == old(
                cx,
            ).style.style_of(o),
    ;
}

impl StyleModifiers for Handle {
    open spec fn target(&self) -> NodeId {
        self.entity
    }

    fn z_order(self, cx: &mut Context, value: i32) -> (r: Self) {
        let _ = cx.tree.set_z_order(self.entity, value);
        self
    }

    fn checked(self, cx: &mut Context, state: bool) -> (r: Self) {
        let entity = self.entity;
        match cx.pseudo.get(entity) {
            Option::Some(pc) => {
                let mut pc = pc;
                pc.checked = state;
                cx.pseudo.insert(entity, pc);
            },
            Option::None => {
                let mut pc = PseudoClasses::empty();
                pc.checked = state;
                cx.pseudo.insert(entity, pc);
            },
        }
        if state {
            let mut st = cx.style.get(entity);
            st.abilities.checkable = true;
            cx.style.insert(entity, st);
        }
        cx.restyle.push(entity);
        self
    }

    fn transform(self, cx: &mut Context, x: i64, y: i64) -> (r: Self) {
        let mut st = cx.style.get(self.entity);
        st.translate_x = x;
        st.translate_y = y;
        cx.style.insert(self.entity, st);
        self
    }
}

} // verus!
