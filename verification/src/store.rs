//! The widget store: a recording platform backend.
//!
//! Every element owns exactly one widget here.  Widgets live in an arena and
//! are never reused; tearing one down only marks it dead, so a widget
//! identifier stays meaningful for a whole session.  Every call that creates,
//! destroys or mutates a widget is appended to an operation log, so tests and
//! contracts can state exactly which platform calls a pass performed.

use vstd::prelude::*;

use crate::color::Color;
use crate::style::LayerShell;

verus! {

/// The kind of platform widget a node is.
#[derive(Clone, Copy, Debug, PartialEq, Eq, Structural)]
pub enum NodeKind {
    /// A plain container positioning its children.
    Group,
    /// A text run.
    Text,
    /// A clickable region wrapping one child.
    Pressable,
    /// A toplevel window wrapping one child.
    Window,
}

/// One recorded platform call.
#[derive(Clone, Copy, Debug, PartialEq, Eq, Structural)]
pub enum Op {
    Build(NodeKind),
    /// Destruction of the widget with this identifier.
    Teardown(usize),
    SetText,
    SetColor,
    InsertChild,
    RemoveChild,
    ReplaceChild,
    SwapChildren,
    SetSize,
    SetChildLayout,
    SetMinSize,
    SetResizable,
    SetLayerShell,
    StartClock,
    StopClock,
}

/// One platform widget.
pub struct Widget {
    pub kind: NodeKind,
    /// False once the widget was torn down.
    pub alive: bool,
    pub text: String,
    pub color: Color,
    /// Child widgets, by arena index, in visual order.
    pub children: Vec<usize>,
    pub width: u16,
    pub height: u16,
    pub min_width: u16,
    pub min_height: u16,
    pub resizable: bool,
    /// Whether the per-frame callback subscription is running (windows).
    pub clock: bool,
    pub layer_shell: Option<LayerShell>,
}

/// Everything of `b` equals `a` except possibly the named field.
pub open spec fn keeps_but_text(a: Widget, b: Widget) -> bool {
    b.kind == a.kind && b.alive == a.alive && b.color == a.color && b.children == a.children
        && b.width == a.width && b.height == a.height && b.min_width == a.min_width
        && b.min_height == a.min_height && b.resizable == a.resizable && b.clock == a.clock
        && b.layer_shell == a.layer_shell
}

/// Everything of `b` equals `a` except possibly the child list.
pub open spec fn keeps_but_children(a: Widget, b: Widget) -> bool {
    b.kind == a.kind && b.alive == a.alive && b.text == a.text && b.color == a.color
        && b.width == a.width && b.height == a.height && b.min_width == a.min_width
        && b.min_height == a.min_height && b.resizable == a.resizable && b.clock == a.clock
        && b.layer_shell == a.layer_shell
}

/// Everything of `b` equals `a` except possibly color.
pub open spec fn keeps_but_color(a: Widget, b: Widget) -> bool {
    b.kind == a.kind && b.alive == a.alive && b.text == a.text && b.children == a.children
        && b.width == a.width && b.height == a.height && b.min_width == a.min_width
        && b.min_height == a.min_height && b.resizable == a.resizable && b.clock == a.clock
        && b.layer_shell == a.layer_shell
}

/// Everything of `b` equals `a` except possibly width and height.
pub open spec fn keeps_but_size(a: Widget, b: Widget) -> bool {
    b.kind == a.kind && b.alive == a.alive && b.text == a.text && b.children == a.children
        && b.color == a.color && b.min_width == a.min_width && b.min_height == a.min_height
        && b.resizable == a.resizable && b.clock == a.clock && b.layer_shell == a.layer_shell
}

/// Everything of `b` equals `a` except possibly the minimum size.
pub open spec fn keeps_but_min_size(a: Widget, b: Widget) -> bool {
    b.kind == a.kind && b.alive == a.alive && b.text == a.text && b.children == a.children
        && b.color == a.color && b.width == a.width && b.height == a.height && b.resizable
        == a.resizable && b.clock == a.clock && b.layer_shell == a.layer_shell
}

/// Everything of `b` equals `a` except possibly liveness.
pub open spec fn keeps_but_alive(a: Widget, b: Widget) -> bool {
    b.kind == a.kind && b.text == a.text && b.children == a.children && b.color == a.color
        && b.width == a.width && b.height == a.height && b.min_width == a.min_width
        && b.min_height == a.min_height && b.resizable == a.resizable && b.clock == a.clock
        && b.layer_shell == a.layer_shell
}

/// Everything of `b` equals `a` except possibly resizability.
pub open spec fn keeps_but_resizable(a: Widget, b: Widget) -> bool {
    b.kind == a.kind && b.alive == a.alive && b.text == a.text && b.children == a.children
        && b.color == a.color && b.width == a.width && b.height == a.height && b.min_width
        == a.min_width && b.min_height == a.min_height && b.clock == a.clock && b.layer_shell
        == a.layer_shell
}

/// Everything of `b` equals `a` except possibly the frame clock.
pub open spec fn keeps_but_clock(a: Widget, b: Widget) -> bool {
    b.kind == a.kind && b.alive == a.alive && b.text == a.text && b.children == a.children
        && b.color == a.color && b.width == a.width && b.height == a.height && b.min_width
        == a.min_width && b.min_height == a.min_height && b.resizable == a.resizable
        && b.layer_shell == a.layer_shell
}

/// Everything of `b` equals `a` except possibly the layer-shell request.
pub open spec fn keeps_but_layer_shell(a: Widget, b: Widget) -> bool {
    b.kind == a.kind && b.alive == a.alive && b.text == a.text && b.children == a.children
        && b.color == a.color && b.width == a.width && b.height == a.height && b.min_width
        == a.min_width && b.min_height == a.min_height && b.resizable == a.resizable && b.clock
        == a.clock
}

/// Everything of `b` equals `a` except possibly sizes, minimum sizes and
/// the frame clock — the fields message dispatch may write.
pub open spec fn keeps_structure(a: Widget, b: Widget) -> bool {
    b.kind == a.kind && b.alive == a.alive && b.text == a.text && b.color == a.color
        && b.children == a.children && b.resizable == a.resizable && b.layer_shell
        == a.layer_shell
}

/// The arena of widgets plus the two logs: platform calls, and message
/// deliveries (which elements a routed message reached).
pub struct Store {
    pub widgets: Vec<Widget>,
    pub ops: Vec<Op>,
    pub delivered: Vec<u64>,
}

/// How many widgets a log built.
pub open spec fn count_builds(ops: Seq<Op>) -> int
    decreases ops.len(),
{
    if ops.len() == 0 {
        0
    } else {
        count_builds(ops.drop_last()) + if ops.last() is Build {
            1int
        } else {
            0int
        }
    }
}

/// How many widgets a log tore down.
pub open spec fn count_teardowns(ops: Seq<Op>) -> int
    decreases ops.len(),
{
    if ops.len() == 0 {
        0
    } else {
        count_teardowns(ops.drop_last()) + if ops.last() is Teardown {
            1int
        } else {
            0int
        }
    }
}

/// The log `b` extends `a`, adding exactly `builds` widget builds and
/// `tears` teardowns (and possibly other mutations).
pub open spec fn ops_extended(a: Seq<Op>, b: Seq<Op>, builds: int, tears: int) -> bool {
    &&& a.is_prefix_of(b)
    &&& count_builds(b) == count_builds(a) + builds
    &&& count_teardowns(b) == count_teardowns(a) + tears
}

/// Log extension composes.
pub proof fn lemma_ops_extended_trans(
    a: Seq<Op>,
    b: Seq<Op>,
    c: Seq<Op>,
    b1: int,
    t1: int,
    b2: int,
    t2: int,
)
    requires
        ops_extended(a, b, b1, t1),
        ops_extended(b, c, b2, t2),
    ensures
        ops_extended(a, c, b1 + b2, t1 + t2),
{
    assert(c.subrange(0, a.len() as int) =~= b.subrange(0, a.len() as int));
}

/// Pushing one entry extends the log by that entry's counts.
pub proof fn lemma_ops_push(a: Seq<Op>, b: Seq<Op>, op: Op)
    requires
        b == a.push(op),
    ensures
        ops_extended(
            a,
            b,
            if op is Build {
                1int
            } else {
                0int
            },
            if op is Teardown {
                1int
            } else {
                0int
            },
        ),
{
    assert(b.drop_last() =~= a);
    assert(b.subrange(0, a.len() as int) =~= a);
}

impl Store {
    /// An empty backend: no widgets, nothing logged.
    pub fn new() -> (s: Store)
        ensures
            s.widgets@ == Seq::<Widget>::empty(),
            s.ops@ == Seq::<Op>::empty(),
            s.delivered@ == Seq::<u64>::empty(),
    {
        Store { widgets: Vec::new(), ops: Vec::new(), delivered: Vec::new() }
    }

    /// Creates a widget of the given kind and returns its identifier.
    pub fn create(&mut self, kind: NodeKind) -> (id: usize)
        ensures
            id == old(self).widgets@.len(),
            final(self).widgets@ == old(self).widgets@.push(final(self).widgets@[id as int]),
            ({
                let w = final(self).widgets@[id as int];
                &&& w.kind == kind
                &&& w.alive
                &&& w.text@ == Seq::<char>::empty()
                &&& w.color == (Color { r: 0, g: 0, b: 0, a: 0 })
                &&& w.children@ == Seq::<usize>::empty()
                &&& w.width == 0
                &&& w.height == 0
                &&& w.min_width == 0
                &&& w.min_height == 0
                &&& w.resizable
                &&& !w.clock
                &&& w.layer_shell is None
            }),
            final(self).ops@ == old(self).ops@.push(Op::Build(kind)),
            final(self).delivered@ == old(self).delivered@,
    {
        let id = self.widgets.len();
        self.widgets.push(
            Widget {
                kind,
                alive: true,
                text: String::new(),
                color: Color { r: 0, g: 0, b: 0, a: 0 },
                children: Vec::new(),
                width: 0,
                height: 0,
                min_width: 0,
                min_height: 0,
                resizable: true,
                clock: false,
                layer_shell: None,
            },
        );
        self.ops.push(Op::Build(kind));
        id
    }

    /// Marks a widget dead.
    pub fn destroy(&mut self, id: usize)
        requires
            id < old(self).widgets@.len(),
        ensures
            final(self).widgets@ == old(self).widgets@.update(
                id as int,
                final(self).widgets@[id as int],
            ),
            keeps_but_alive(old(self).widgets@[id as int], final(self).widgets@[id as int]),
            !final(self).widgets@[id as int].alive,
            final(self).ops@ == old(self).ops@.push(Op::Teardown(id)),
            final(self).delivered@ == old(self).delivered@,
    {
        let w = &mut self.widgets[id];
        w.alive = false;
        self.ops.push(Op::Teardown(id));
    }

    /// Replaces a text widget's run.
    pub fn set_text(&mut self, id: usize, text: &String)
        requires
            id < old(self).widgets@.len(),
        ensures
            final(self).widgets@ == old(self).widgets@.update(
                id as int,
                final(self).widgets@[id as int],
            ),
            keeps_but_text(old(self).widgets@[id as int], final(self).widgets@[id as int]),
            final(self).widgets@[id as int].text@ == text@,
            final(self).ops@ == old(self).ops@.push(Op::SetText),
            final(self).delivered@ == old(self).delivered@,
    {
        let w = &mut self.widgets[id];
        w.text = text.clone();
        self.ops.push(Op::SetText);
    }

    /// Repaints a widget's background.
    pub fn set_color(&mut self, id: usize, color: Color)
        requires
            id < old(self).widgets@.len(),
        ensures
            final(self).widgets@ == old(self).widgets@.update(
                id as int,
                final(self).widgets@[id as int],
            ),
            keeps_but_color(old(self).widgets@[id as int], final(self).widgets@[id as int]),
            final(self).widgets@[id as int].color == color,
            final(self).ops@ == old(self).ops@.push(Op::SetColor),
            final(self).delivered@ == old(self).delivered@,
    {
        let w = &mut self.widgets[id];
        w.color = color;
        self.ops.push(Op::SetColor);
    }

    /// Inserts a child into a container's list at an index, shifting what
    /// follows.
    pub fn insert_child(&mut self, id: usize, index: usize, child: usize)
        requires
            id < old(self).widgets@.len(),
            index <= old(self).widgets@[id as int].children@.len(),
        ensures
            final(self).widgets@ == old(self).widgets@.update(
                id as int,
                final(self).widgets@[id as int],
            ),
            keeps_but_children(old(self).widgets@[id as int], final(self).widgets@[id as int]),
            final(self).widgets@[id as int].children@ == old(self).widgets@[
                id as int
            ].children@.insert(index as int, child),
            final(self).ops@ == old(self).ops@.push(Op::InsertChild),
            final(self).delivered@ == old(self).delivered@,
    {
        let w = &mut self.widgets[id];
        w.children.insert(index, child);
        self.ops.push(Op::InsertChild);
    }

    /// Detaches the child at an index from a container's list.
    pub fn remove_child(&mut self, id: usize, index: usize)
        requires
            id < old(self).widgets@.len(),
            index < old(self).widgets@[id as int].children@.len(),
        ensures
            final(self).widgets@ == old(self).widgets@.update(
                id as int,
                final(self).widgets@[id as int],
            ),
            keeps_but_children(old(self).widgets@[id as int], final(self).widgets@[id as int]),
            final(self).widgets@[id as int].children@ == old(self).widgets@[
                id as int
            ].children@.remove(index as int),
            final(self).ops@ == old(self).ops@.push(Op::RemoveChild),
            final(self).delivered@ == old(self).delivered@,
    {
        let w = &mut self.widgets[id];
        w.children.remove(index);
        self.ops.push(Op::RemoveChild);
    }

    /// Replaces the child at an index of a container's list, keeping the
    /// index for the new child.
    pub fn replace_child(&mut self, id: usize, index: usize, child: usize)
        requires
            id < old(self).widgets@.len(),
            index < old(self).widgets@[id as int].children@.len(),
        ensures
            final(self).widgets@ == old(self).widgets@.update(
                id as int,
                final(self).widgets@[id as int],
            ),
            keeps_but_children(old(self).widgets@[id as int], final(self).widgets@[id as int]),
            final(self).widgets@[id as int].children@ == old(self).widgets@[
                id as int
            ].children@.update(index as int, child),
            final(self).ops@ == old(self).ops@.push(Op::ReplaceChild),
            final(self).delivered@ == old(self).delivered@,
    {
        let w = &mut self.widgets[id];
        let slot = &mut w.children[index];
        *slot = child;
        self.ops.push(Op::ReplaceChild);
    }

    /// Swaps two children of a container's list.
    pub fn swap_children(&mut self, id: usize, a: usize, b: usize)
        requires
            id < old(self).widgets@.len(),
            a < old(self).widgets@[id as int].children@.len(),
            b < old(self).widgets@[id as int].children@.len(),
        ensures
            final(self).widgets@ == old(self).widgets@.update(
                id as int,
                final(self).widgets@[id as int],
            ),
            keeps_but_children(old(self).widgets@[id as int], final(self).widgets@[id as int]),
            final(self).widgets@[id as int].children@ == old(self).widgets@[
                id as int
            ].children@.update(a as int, old(self).widgets@[id as int].children@[b as int]).update(
                b as int,
                old(self).widgets@[id as int].children@[a as int],
            ),
            final(self).ops@ == old(self).ops@.push(Op::SwapChildren),
            final(self).delivered@ == old(self).delivered@,
    {
        let w = &mut self.widgets[id];
        let va = w.children[a];
        let vb = w.children[b];
        let slot_a = &mut w.children[a];
        *slot_a = vb;
        let slot_b = &mut w.children[b];
        *slot_b = va;
        self.ops.push(Op::SwapChildren);
    }

    /// Resizes a widget.
    pub fn set_size(&mut self, id: usize, width: u16, height: u16)
        requires
            id < old(self).widgets@.len(),
        ensures
            final(self).widgets@ == old(self).widgets@.update(
                id as int,
                final(self).widgets@[id as int],
            ),
            keeps_but_size(old(self).widgets@[id as int], final(self).widgets@[id as int]),
            final(self).widgets@[id as int].width == width,
            final(self).widgets@[id as int].height == height,
            final(self).ops@ == old(self).ops@.push(Op::SetSize),
            final(self).delivered@ == old(self).delivered@,
    {
        let w = &mut self.widgets[id];
        w.width = width;
        w.height = height;
        self.ops.push(Op::SetSize);
    }

    /// Positions one child inside a group; the recording backend only logs
    /// the call.
    pub fn set_child_layout(&mut self, id: usize)
        requires
            id < old(self).widgets@.len(),
        ensures
            final(self).widgets@ == old(self).widgets@,
            final(self).ops@ == old(self).ops@.push(Op::SetChildLayout),
            final(self).delivered@ == old(self).delivered@,
    {
        self.ops.push(Op::SetChildLayout);
    }

    /// Sets a window's minimum size.
    pub fn set_min_size(&mut self, id: usize, width: u16, height: u16)
        requires
            id < old(self).widgets@.len(),
        ensures
            final(self).widgets@ == old(self).widgets@.update(
                id as int,
                final(self).widgets@[id as int],
            ),
            keeps_but_min_size(old(self).widgets@[id as int], final(self).widgets@[id as int]),
            final(self).widgets@[id as int].min_width == width,
            final(self).widgets@[id as int].min_height == height,
            final(self).ops@ == old(self).ops@.push(Op::SetMinSize),
            final(self).delivered@ == old(self).delivered@,
    {
        let w = &mut self.widgets[id];
        w.min_width = width;
        w.min_height = height;
        self.ops.push(Op::SetMinSize);
    }

    /// Sets whether the user may resize a window.
    pub fn set_resizable(&mut self, id: usize, resizable: bool)
        requires
            id < old(self).widgets@.len(),
        ensures
            final(self).widgets@ == old(self).widgets@.update(
                id as int,
                final(self).widgets@[id as int],
            ),
            keeps_but_resizable(old(self).widgets@[id as int], final(self).widgets@[id as int]),
            final(self).widgets@[id as int].resizable == resizable,
            final(self).ops@ == old(self).ops@.push(Op::SetResizable),
            final(self).delivered@ == old(self).delivered@,
    {
        let w = &mut self.widgets[id];
        w.resizable = resizable;
        self.ops.push(Op::SetResizable);
    }

    /// Attaches a layer-shell request to a window.
    pub fn set_layer_shell(&mut self, id: usize, layer_shell: Option<LayerShell>)
        requires
            id < old(self).widgets@.len(),
        ensures
            final(self).widgets@ == old(self).widgets@.update(
                id as int,
                final(self).widgets@[id as int],
            ),
            keeps_but_layer_shell(old(self).widgets@[id as int], final(self).widgets@[id as int]),
            final(self).widgets@[id as int].layer_shell == layer_shell,
            final(self).ops@ == old(self).ops@.push(Op::SetLayerShell),
            final(self).delivered@ == old(self).delivered@,
    {
        let w = &mut self.widgets[id];
        w.layer_shell = layer_shell;
        self.ops.push(Op::SetLayerShell);
    }

    /// Starts or stops a window's per-frame callback subscription.
    pub fn set_clock(&mut self, id: usize, clock: bool)
        requires
            id < old(self).widgets@.len(),
        ensures
            final(self).widgets@ == old(self).widgets@.update(
                id as int,
                final(self).widgets@[id as int],
            ),
            keeps_but_clock(old(self).widgets@[id as int], final(self).widgets@[id as int]),
            final(self).widgets@[id as int].clock == clock,
            final(self).ops@ == old(self).ops@.push(
                if clock {
                    Op::StartClock
                } else {
                    Op::StopClock
                },
            ),
            final(self).delivered@ == old(self).delivered@,
    {
        let w = &mut self.widgets[id];
        w.clock = clock;
        if clock {
            self.ops.push(Op::StartClock);
        } else {
            self.ops.push(Op::StopClock);
        }
    }

    /// Logs that a routed message reached the element with this identity.
    pub fn log_delivery(&mut self, view_id: u64)
        ensures
            final(self).widgets@ == old(self).widgets@,
            final(self).ops@ == old(self).ops@,
            final(self).delivered@ == old(self).delivered@.push(view_id),
    {
        self.delivered.push(view_id);
    }

    /// How many widgets the log built so far.
    pub fn builds(&self) -> (n: usize)
        ensures
            n == count_builds(self.ops@),
    {
        let mut n: usize = 0;
        let mut i: usize = 0;
        while i < self.ops.len()
            invariant
                i <= self.ops@.len(),
                n == count_builds(self.ops@.take(i as int)),
                n <= i,
            decreases self.ops@.len() - i,
        {
            if matches!(self.ops[i], Op::Build(_)) {
                n += 1;
            }
            assert(self.ops@.take(i + 1).drop_last() =~= self.ops@.take(i as int));
            i += 1;
        }
        assert(self.ops@.take(self.ops@.len() as int) =~= self.ops@);
        n
    }

    /// How many widgets the log tore down so far.
    pub fn teardowns(&self) -> (n: usize)
        ensures
            n == count_teardowns(self.ops@),
    {
        let mut n: usize = 0;
        let mut i: usize = 0;
        while i < self.ops.len()
            invariant
                i <= self.ops@.len(),
                n == count_teardowns(self.ops@.take(i as int)),
                n <= i,
            decreases self.ops@.len() - i,
        {
            if matches!(self.ops[i], Op::Teardown(_)) {
                n += 1;
            }
            assert(self.ops@.take(i + 1).drop_last() =~= self.ops@.take(i as int));
            i += 1;
        }
        assert(self.ops@.take(self.ops@.len() as int) =~= self.ops@);
        n
    }

    /// How many platform calls were logged in all.
    pub fn op_count(&self) -> (n: usize)
        ensures
            n == self.ops@.len(),
    {
        self.ops.len()
    }

    /// How many messages were delivered in all.
    pub fn delivery_count(&self) -> (n: usize)
        ensures
            n == self.delivered@.len(),
    {
        self.delivered.len()
    }

    /// The identity logged for the `i`-th delivery.
    pub fn delivery(&self, i: usize) -> (d: u64)
        requires
            i < self.delivered@.len(),
        ensures
            d == self.delivered@[i as int],
    {
        self.delivered[i]
    }

    /// Whether this widget is still alive.
    pub fn alive(&self, id: usize) -> (b: bool)
        requires
            id < self.widgets@.len(),
        ensures
            b == self.widgets@[id as int].alive,
    {
        self.widgets[id].alive
    }

    /// The current text of a widget.
    pub fn text_of(&self, id: usize) -> (t: &String)
        requires
            id < self.widgets@.len(),
        ensures
            t@ == self.widgets@[id as int].text@,
    {
        &self.widgets[id].text
    }

    /// The kind of a widget.
    pub fn kind_of(&self, id: usize) -> (k: NodeKind)
        requires
            id < self.widgets@.len(),
        ensures
            k == self.widgets@[id as int].kind,
    {
        self.widgets[id].kind
    }

    /// The number of widgets ever created.
    pub fn widget_count(&self) -> (n: usize)
        ensures
            n == self.widgets@.len(),
    {
        self.widgets.len()
    }

    /// The platform-reported size of a widget.
    pub fn size_of(&self, id: usize) -> (r: (u16, u16))
        requires
            id < self.widgets@.len(),
        ensures
            r.0 == self.widgets@[id as int].width,
            r.1 == self.widgets@[id as int].height,
    {
        (self.widgets[id].width, self.widgets[id].height)
    }

    /// The child list of a widget.
    pub fn children_of(&self, id: usize) -> (c: &Vec<usize>)
        requires
            id < self.widgets@.len(),
        ensures
            c@ == self.widgets@[id as int].children@,
    {
        &self.widgets[id].children
    }
}

} // verus!
