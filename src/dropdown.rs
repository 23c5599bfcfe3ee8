use vstd::prelude::*;
use crate::hover::Context;
use crate::style::Display;
use crate::tree::{max_slots, NodeId, TreeError};

verus! {

/// A view showing some state, with a popup of options that opens on
/// demand. The trigger node holds what is always shown; the popup node holds
/// the options and stays hidden while closed.
#[derive(Clone, Copy, Debug, PartialEq, Eq, Structural)]
pub struct Dropdown {
    pub node: NodeId,
    pub trigger: NodeId,
    pub popup: NodeId,
}

impl Dropdown {
    /// Builds a closed dropdown as the last child of `parent`: the dropdown
    /// node with the trigger and then the popup as its children.
    pub fn new(cx: &mut Context, parent: NodeId) -> (r: Result<Dropdown, TreeError>)
        requires
            old(cx).tree.wf(),
            old(cx).tree.len() + 3 <= max_slots(),
        ensures
            final(cx).tree.wf(),
            (r is Err) == !old(cx).tree.contains(parent),
            r is Err ==> r == Err::<Dropdown, TreeError>(TreeError::ParentNotFound),
            r matches Ok(d) ==> {
                let t = final(cx).tree;
                &&& t.contains(d.node)
                &&& t.contains(d.trigger)
                &&& t.contains(d.popup)
                &&& t.parent_of(d.node.index as int) == parent.index
                &&& t.children(parent.index as int) == old(cx).tree.children(parent.index as int).push(
                    d.node.index as usize,
                )
                &&& !old(cx).tree.was_issued(d.node)
                &&& !old(cx).tree.was_issued(d.trigger)
                &&& !old(cx).tree.was_issued(d.popup)
                &&& t.parent_of(d.trigger.index as int) == d.node.index
                &&& t.parent_of(d.popup.index as int) == d.node.index
                &&& t.children(d.node.index as int) == seq![d.trigger.index as usize, d.popup.index as usize]
                &&& final(cx).style.style_of(d.popup).display == Display::Hidden
                &&& forall|x: NodeId| old(cx).tree.contains(x) ==> #[trigger] t.contains(x)
            },
    {
        let node = match cx.tree.create(parent) {
            Result::Ok(id) => id,
            Result::Err(e) => {
                return Result::Err(e);
            },
        };
        let ghost t1 = cx.tree;
        proof {
            t1.lemma_wf();
        }
        let trigger = match cx.tree.create(node) {
            Result::Ok(id) => id,
            Result::Err(e) => {
                return Result::Err(e);
            },
        };
        let ghost t2 = cx.tree;
        assert(t1.contains(parent) && t2.contains(parent) && t2.contains(trigger));
        assert(t1.was_issued(parent));
        assert(parent.index != trigger.index);
        assert(t2.children(parent.index as int) == t1.children(parent.index as int));
        let popup = match cx.tree.create(node) {
            Result::Ok(id) => id,
            Result::Err(e) => {
                return Result::Err(e);
            },
        };
        assert(t2.children(node.index as int) =~= seq![trigger.index as usize]);
        assert(cx.tree.contains(parent) && cx.tree.contains(popup));
        assert(t2.was_issued(parent));
        assert(parent.index != popup.index);
        assert(cx.tree.children(parent.index as int) == t2.children(parent.index as int));
        assert(cx.tree.children(node.index as int) =~= seq![trigger.index as usize, popup.index as usize]);
        let mut st = cx.style.get(popup);
        st.display = Display::Hidden;
        cx.style.insert(popup, st);
        Result::Ok(Dropdown { node, trigger, popup })
    }

    /// The element name style rules select this view by.
    pub fn element(&self) -> (r: &'static str)
        ensures
            r@ == "dropdown"@,
    {
        proof {
            reveal_strlit("dropdown");
        }
        "dropdown"
    }
}

} // verus!
