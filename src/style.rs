use vstd::prelude::*;
use crate::tree::NodeId;

verus! {

/// Axis-aligned rectangle over half-open intervals: `[left, right)` by
/// `[top, bottom)`.
#[derive(Clone, Copy, Debug, PartialEq, Eq, Structural)]
pub struct Rect {
    pub left: i64,
    pub top: i64,
    pub right: i64,
    pub bottom: i64,
}

impl Rect {
    pub open spec fn holds(&self, x: int, y: int) -> bool {
        self.left <= x < self.right && self.top <= y < self.bottom
    }

    pub open spec fn meet(&self, o: Rect) -> Rect {
        Rect {
            left: if self.left >= o.left { self.left } else { o.left },
            top: if self.top >= o.top { self.top } else { o.top },
            right: if self.right <= o.right { self.right } else { o.right },
            bottom: if self.bottom <= o.bottom { self.bottom } else { o.bottom },
        }
    }

    pub open spec fn everything() -> Rect {
        Rect { left: i64::MIN, top: i64::MIN, right: i64::MAX, bottom: i64::MAX }
    }

    /// Rectangle from its edges.
    pub fn new(left: i64, top: i64, right: i64, bottom: i64) -> (r: Rect)
        ensures
            r == (Rect { left, top, right, bottom }),
    {
        Rect { left, top, right, bottom }
    }

    /// The clip region that clips nothing.
    pub fn unbounded() -> (r: Rect)
        ensures
            r == Rect::everything(),
    {
        Rect { left: i64::MIN, top: i64::MIN, right: i64::MAX, bottom: i64::MAX }
    }

    /// Whether the point lies inside, left and top edges included, right and
    /// bottom edges excluded.
    pub fn contains(&self, x: i64, y: i64) -> (r: bool)
        ensures
            r == self.holds(x as int, y as int),
    {
        self.left <= x && x < self.right && self.top <= y && y < self.bottom
    }

    /// The common part of two rectangles (empty when they do not overlap).
    pub fn intersection(&self, o: &Rect) -> (r: Rect)
        ensures
            r == self.meet(*o),
            forall|x: int, y: int| r.holds(x, y) == (self.holds(x, y) && o.holds(x, y)),
    {
        Rect {
            left: if self.left >= o.left { self.left } else { o.left },
            top: if self.top >= o.top { self.top } else { o.top },
            right: if self.right <= o.right { self.right } else { o.right },
            bottom: if self.bottom <= o.bottom { self.bottom } else { o.bottom },
        }
    }
}

/// Whether a node takes part in hit testing.
#[derive(Clone, Copy, Debug, PartialEq, Eq, Structural)]
pub enum PointerEvents {
    Auto,
    /// Never a hit target; descendants inherit this unless they override it.
    Disabled,
}

/// Whether a node is laid out and drawn.
#[derive(Clone, Copy, Debug, PartialEq, Eq, Structural)]
pub enum Display {
    Normal,
    /// Neither laid out nor drawn.
    Hidden,
}

/// Pointer shapes a node may ask for while hovered.
#[derive(Clone, Copy, Debug, PartialEq, Eq, Structural)]
pub enum CursorIcon {
    Default,
    Pointer,
    Text,
    Grab,
    NotAllowed,
}

/// Behaviour flags of a node.
#[derive(Clone, Copy, Debug, PartialEq, Eq, Structural)]
pub struct Abilities {
    pub hoverable: bool,
    pub checkable: bool,
}

/// Interaction states a node shows.
#[derive(Clone, Copy, Debug, PartialEq, Eq, Structural)]
pub struct PseudoClasses {
    /// The pointer is over the node (or one of its descendants).
    pub over: bool,
    /// The node is on the hovered node's ancestor chain.
    pub hover: bool,
    pub checked: bool,
}

impl PseudoClasses {
    pub open spec fn none_spec() -> PseudoClasses {
        PseudoClasses { over: false, hover: false, checked: false }
    }

    /// No state set.
    pub fn empty() -> (r: PseudoClasses)
        ensures
            r == PseudoClasses::none_spec(),
    {
        PseudoClasses { over: false, hover: false, checked: false }
    }
}

/// Geometry and policy of one node, as written by the layout and style
/// passes. `translate_x` and `translate_y` shift the node as drawn
/// relative to its parent.
#[derive(Clone, Copy, Debug, PartialEq, Eq, Structural)]
pub struct NodeStyle {
    pub bounds: Rect,
    pub clip: Rect,
    pub translate_x: i64,
    pub translate_y: i64,
    pub z_index: i32,
    pub pointer_events: Option<PointerEvents>,
    pub abilities: Abilities,
    pub display: Display,
    pub text_span: bool,
    pub cursor: CursorIcon,
}

impl NodeStyle {
    /// What an absent attribute set reads as.
    pub open spec fn fallback() -> NodeStyle {
        NodeStyle {
            bounds: Rect { left: 0, top: 0, right: 0, bottom: 0 },
            clip: Rect::everything(),
            translate_x: 0,
            translate_y: 0,
            z_index: 0,
            pointer_events: Option::None,
            abilities: Abilities { hoverable: true, checkable: false },
            display: Display::Normal,
            text_span: false,
            cursor: CursorIcon::Default,
        }
    }

    /// Attributes of a node nothing has been written for.
    pub fn new() -> (r: NodeStyle)
        ensures
            r == NodeStyle::fallback(),
    {
        NodeStyle {
            bounds: Rect { left: 0, top: 0, right: 0, bottom: 0 },
            clip: Rect::unbounded(),
            translate_x: 0,
            translate_y: 0,
            z_index: 0,
            pointer_events: Option::None,
            abilities: Abilities { hoverable: true, checkable: false },
            display: Display::Normal,
            text_span: false,
            cursor: CursorIcon::Default,
        }
    }
}

pub struct StyleEntry {
    pub generation: u32,
    pub value: NodeStyle,
}

/// Node attributes keyed by id. A read through an id whose generation does
/// not match the stored entry yields the fallback, never another node's data.
pub struct StyleStore {
    entries: Vec<Option<StyleEntry>>,
}

impl StyleStore {
    pub closed spec fn entries(&self) -> Seq<Option<StyleEntry>> {
        self.entries@
    }

    /// The attributes read for `id`.
    pub open spec fn style_of(&self, id: NodeId) -> NodeStyle {
        let i = id.index as int;
        if 0 <= i < self.entries().len() && self.entries()[i] is Some && self.entries()[i]->Some_0.generation
            == id.generation {
            self.entries()[i]->Some_0.value
        } else {
            NodeStyle::fallback()
        }
    }

    pub fn new() -> (r: StyleStore)
        ensures
            forall|id: NodeId| #[trigger] r.style_of(id) == NodeStyle::fallback(),
    {
        StyleStore { entries: Vec::new() }
    }

    /// Stores the attributes of `id`, replacing whatever its slot held: ids
    /// of other generations in that slot read the fallback afterwards.
    pub fn insert(&mut self, id: NodeId, value: NodeStyle)
        ensures
            final(self).style_of(id) == value,
            forall|o: NodeId| o.index != id.index ==> #[trigger] final(self).style_of(o) == old(self).style_of(o),
            forall|o: NodeId| o.index == id.index && o.generation != id.generation ==> #[trigger] final(self).style_of(o)
                == NodeStyle::fallback(),
    {
        let i = id.index as usize;
        while self.entries.len() <= i
            invariant
                old(self).entries().len() <= self.entries().len(),
                forall|j: int| 0 <= j < old(self).entries().len() ==> #[trigger] self.entries()[j] == old(self).entries()[j],
                forall|j: int| old(self).entries().len() <= j < self.entries().len() ==> #[trigger] self.entries()[j] is None,
            decreases i + 1 - self.entries.len(),
        {
            self.entries.push(Option::None);
        }
        assert forall|o: NodeId| #[trigger] self.style_of(o) == old(self).style_of(o) by {
            if (o.index as int) < self.entries().len() && (o.index as int) >= old(self).entries().len() {
                assert(self.entries()[o.index as int] is None);
            }
        }
        let ghost mid = *self;
        self.entries.set(i, Option::Some(StyleEntry { generation: id.generation, value }));
        assert forall|o: NodeId| o.index != id.index implies #[trigger] self.style_of(o) == mid.style_of(o) by {
            if (o.index as int) < self.entries().len() {
                assert(self.entries()[o.index as int] == mid.entries()[o.index as int]);
            }
        }
    }

    /// Drops the attributes of `id`; later reads give the fallback. An id of
    /// another generation than the stored entry leaves the store as it is.
    pub fn remove(&mut self, id: NodeId)
        ensures
            final(self).style_of(id) == NodeStyle::fallback(),
            forall|o: NodeId| o != id ==> #[trigger] final(self).style_of(o) == old(self).style_of(o),
            forall|o: NodeId| o.index != id.index ==> #[trigger] final(self).style_of(o) == old(self).style_of(o),
    {
        let i = id.index as usize;
        if i < self.entries.len() {
            let matches = match &self.entries[i] {
                Option::Some(e) => e.generation == id.generation,
                Option::None => false,
            };
            if matches {
                self.entries.set(i, Option::None);
            }
        }
    }

    /// The attributes of `id`, or the fallback when none are stored for it.
    pub fn get(&self, id: NodeId) -> (r: NodeStyle)
        ensures
            r == self.style_of(id),
    {
        let i = id.index as usize;
        if i < self.entries.len() {
            match &self.entries[i] {
                Option::Some(e) => {
                    if e.generation == id.generation {
                        return e.value;
                    }
                },
                Option::None => {},
            }
        }
        NodeStyle::new()
    }
}

pub struct PseudoEntry {
    pub generation: u32,
    pub value: PseudoClasses,
}

/// Interaction states keyed by id, with the same stale-id rule as
/// [`StyleStore`].
pub struct PseudoStore {
    entries: Vec<Option<PseudoEntry>>,
}

impl PseudoStore {
    pub closed spec fn entries(&self) -> Seq<Option<PseudoEntry>> {
        self.entries@
    }

    pub open spec fn has(&self, id: NodeId) -> bool {
        let i = id.index as int;
        0 <= i < self.entries().len() && self.entries()[i] is Some && self.entries()[i]->Some_0.generation
            == id.generation
    }

    /// The states read for `id`.
    pub open spec fn state_of(&self, id: NodeId) -> PseudoClasses {
        if self.has(id) {
            self.entries()[id.index as int]->Some_0.value
        } else {
            PseudoClasses::none_spec()
        }
    }

    pub fn new() -> (r: PseudoStore)
        ensures
            forall|id: NodeId| !#[trigger] r.has(id),
    {
        PseudoStore { entries: Vec::new() }
    }

    /// Stores the states of `id`.
    pub fn insert(&mut self, id: NodeId, value: PseudoClasses)
        ensures
            final(self).has(id),
            final(self).state_of(id) == value,
            forall|o: NodeId| o.index == id.index && o.generation != id.generation ==> !#[trigger] final(self).has(o),
            forall|o: NodeId| o.index != id.index ==> #[trigger] final(self).has(o) == old(self).has(o)
                && final(self).state_of(o) == old(self).state_of(o),
    {
        let i = id.index as usize;
        while self.entries.len() <= i
            invariant
                old(self).entries().len() <= self.entries().len(),
                forall|j: int| 0 <= j < old(self).entries().len() ==> #[trigger] self.entries()[j] == old(self).entries()[j],
                forall|j: int| old(self).entries().len() <= j < self.entries().len() ==> #[trigger] self.entries()[j] is None,
            decreases i + 1 - self.entries.len(),
        {
            self.entries.push(Option::None);
        }
        assert forall|o: NodeId| #[trigger] self.has(o) == old(self).has(o) && self.state_of(o) == old(self).state_of(o) by {
            if (o.index as int) < self.entries().len() && (o.index as int) >= old(self).entries().len() {
                assert(self.entries()[o.index as int] is None);
            }
        }
        let ghost mid = *self;
        self.entries.set(i, Option::Some(PseudoEntry { generation: id.generation, value }));
        assert forall|o: NodeId| o.index != id.index implies #[trigger] self.has(o) == mid.has(o) && self.state_of(o)
            == mid.state_of(o) by {
            if (o.index as int) < self.entries().len() {
                assert(self.entries()[o.index as int] == mid.entries()[o.index as int]);
            }
        }
    }

    /// Drops the states of `id`. An id of another generation than the stored
    /// entry leaves the store as it is.
    pub fn remove(&mut self, id: NodeId)
        ensures
            !final(self).has(id),
            forall|o: NodeId| o != id ==> #[trigger] final(self).has(o) == old(self).has(o) && final(self).state_of(o)
                == old(self).state_of(o),
            forall|o: NodeId| o.index != id.index ==> #[trigger] final(self).has(o) == old(self).has(o)
                && final(self).state_of(o) == old(self).state_of(o),
    {
        let i = id.index as usize;
        if i < self.entries.len() {
            let matches = match &self.entries[i] {
                Option::Some(e) => e.generation == id.generation,
                Option::None => false,
            };
            if matches {
                self.entries.set(i, Option::None);
            }
        }
    }

    /// The states of `id`, if any are stored for it.
    pub fn get(&self, id: NodeId) -> (r: Option<PseudoClasses>)
        ensures
            r == (if self.has(id) { Option::Some(self.state_of(id)) } else { Option::<PseudoClasses>::None }),
    {
        let i = id.index as usize;
        if i < self.entries.len() {
            match &self.entries[i] {
                Option::Some(e) => {
                    if e.generation == id.generation {
                        return Option::Some(e.value);
                    }
                },
                Option::None => {},
            }
        }
        Option::None
    }
}

} // verus!
