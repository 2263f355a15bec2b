//! Elements: the persistent tree mirroring the view tree one to one.
//!
//! Each element owns one platform widget (except the transparent animate
//! wrapper, which owns none) and one layout node (except the animate
//! wrapper and the pressable region, which share their content's node),
//! plus its cached configuration and per-view state.  The central
//! well-formedness predicate [`wf_elem`] ties the three child-index spaces
//! together: a container's element list, its widget's child list, and its
//! layout node's child list agree index by index.

use vstd::prelude::*;

use crate::color::Color;
use crate::message::{PressState, ViewId};
use crate::store::{NodeKind, Widget};
use crate::style::{FlexStyle, Font, LayerShell, WindowSizing, Wrap};
use crate::views::ViewTree;

verus! {

/// The persistent state of a text view.
pub struct TextElement {
    pub view_id: ViewId,
    pub widget: usize,
    pub node: u64,
    pub text: String,
    pub color: Color,
    pub font: Font,
    pub wrap: Wrap,
}

/// The persistent state of a flex container.
pub struct FlexElement {
    pub view_id: ViewId,
    pub widget: usize,
    pub node: u64,
    pub style: FlexStyle,
    pub background_color: Color,
    pub children: Vec<Element>,
}

/// The persistent state of a pressable region.  Like the original's
/// pressable, it owns no layout node: it shares its content's node, so the
/// solver sees the content directly.
pub struct PressableElement {
    pub view_id: ViewId,
    pub widget: usize,
    pub press: PressState,
    pub on_press: Option<u64>,
    pub on_hover: Option<u64>,
    pub on_focus: Option<u64>,
    pub content: Element,
}

/// The persistent state of a window.
pub struct WindowElement {
    pub view_id: ViewId,
    pub widget: usize,
    pub node: u64,
    pub sizing: WindowSizing,
    pub layer_shell: Option<LayerShell>,
    /// The platform-reported size at the last layout pass.
    pub width: u16,
    pub height: u16,
    /// How many descendants currently want animation; the frame clock runs
    /// while this is positive.
    pub animating: u32,
    pub content: Element,
}

/// The persistent state of an animate wrapper; it owns no widget and no
/// layout node of its own.
pub struct AnimateElement {
    pub view_id: ViewId,
    pub animating: bool,
    pub on_frame: Option<u64>,
    pub content: Element,
}

/// One persistent node.
pub enum Element {
    Text(TextElement),
    Flex(FlexElement),
    Pressable(Box<PressableElement>),
    Window(Box<WindowElement>),
    Animate(Box<AnimateElement>),
}

/// The widget this element presents to its parent.
pub open spec fn widget_of(e: Element) -> usize
    decreases e,
{
    match e {
        Element::Text(t) => t.widget,
        Element::Flex(f) => f.widget,
        Element::Pressable(p) => p.widget,
        Element::Window(w) => w.widget,
        Element::Animate(a) => widget_of(a.content),
    }
}

/// The layout node this element presents to its parent.
pub open spec fn node_of(e: Element) -> u64
    decreases e,
{
    match e {
        Element::Text(t) => t.node,
        Element::Flex(f) => f.node,
        Element::Pressable(p) => node_of(p.content),
        Element::Window(w) => w.node,
        Element::Animate(a) => node_of(a.content),
    }
}

/// The identity of this element.
pub open spec fn id_of(e: Element) -> u64 {
    match e {
        Element::Text(t) => t.view_id.0,
        Element::Flex(f) => f.view_id.0,
        Element::Pressable(p) => p.view_id.0,
        Element::Window(w) => w.view_id.0,
        Element::Animate(a) => a.view_id.0,
    }
}

/// Every layout node of this subtree, in preorder.
pub open spec fn nodes_of(e: Element) -> Seq<u64>
    decreases e,
{
    match e {
        Element::Text(t) => seq![t.node],
        Element::Flex(f) => seq![f.node] + nodes_of_seq(f.children@),
        Element::Pressable(p) => nodes_of(p.content),
        Element::Window(w) => seq![w.node] + nodes_of(w.content),
        Element::Animate(a) => nodes_of(a.content),
    }
}

/// Every layout node of a sequence of subtrees.
pub open spec fn nodes_of_seq(s: Seq<Element>) -> Seq<u64>
    decreases s,
{
    if s.len() == 0 {
        Seq::empty()
    } else {
        nodes_of(s[0]) + nodes_of_seq(s.drop_first())
    }
}

/// Every widget of this subtree, in preorder.
pub open spec fn widgets_of(e: Element) -> Seq<usize>
    decreases e,
{
    match e {
        Element::Text(t) => seq![t.widget],
        Element::Flex(f) => seq![f.widget] + widgets_of_seq(f.children@),
        Element::Pressable(p) => seq![p.widget] + widgets_of(p.content),
        Element::Window(w) => seq![w.widget] + widgets_of(w.content),
        Element::Animate(a) => widgets_of(a.content),
    }
}

/// Every widget of a sequence of subtrees.
pub open spec fn widgets_of_seq(s: Seq<Element>) -> Seq<usize>
    decreases s,
{
    if s.len() == 0 {
        Seq::empty()
    } else {
        widgets_of(s[0]) + widgets_of_seq(s.drop_first())
    }
}

/// Every element identity of this subtree, in preorder.
pub open spec fn ids_of(e: Element) -> Seq<u64>
    decreases e,
{
    match e {
        Element::Text(t) => seq![t.view_id.0],
        Element::Flex(f) => seq![f.view_id.0] + ids_of_seq(f.children@),
        Element::Pressable(p) => seq![p.view_id.0] + ids_of(p.content),
        Element::Window(w) => seq![w.view_id.0] + ids_of(w.content),
        Element::Animate(a) => seq![a.view_id.0] + ids_of(a.content),
    }
}

/// Every element identity of a sequence of subtrees.
pub open spec fn ids_of_seq(s: Seq<Element>) -> Seq<u64>
    decreases s,
{
    if s.len() == 0 {
        Seq::empty()
    } else {
        ids_of(s[0]) + ids_of_seq(s.drop_first())
    }
}

/// The root layout nodes of a child list, index by index.
pub open spec fn child_nodes(s: Seq<Element>) -> Seq<u64> {
    s.map_values(|c: Element| node_of(c))
}

/// The root widgets of a child list, index by index.
pub open spec fn child_widgets(s: Seq<Element>) -> Seq<usize> {
    s.map_values(|c: Element| widget_of(c))
}

/// Whether a view descriptor and an element are of the same kind: the
/// downcast of the type-erasure boundary succeeds exactly then.
pub open spec fn kind_same(v: ViewTree, e: Element) -> bool {
    match (v, e) {
        (ViewTree::Text(_), Element::Text(_)) => true,
        (ViewTree::Flex(_), Element::Flex(_)) => true,
        (ViewTree::Pressable(_), Element::Pressable(_)) => true,
        (ViewTree::Window(_), Element::Window(_)) => true,
        (ViewTree::Animate(_), Element::Animate(_)) => true,
        _ => false,
    }
}

/// Whether the element's cached configuration equals the view's, through the
/// whole subtree.  Build and rebuild establish this; a rebuild from a view
/// that already fits is a no-op on the platform.
pub open spec fn fits(v: ViewTree, e: Element) -> bool
    decreases v,
{
    match (v, e) {
        (ViewTree::Text(tv), Element::Text(te)) => {
            tv.text@ == te.text@ && tv.color == te.color && tv.font == te.font && tv.wrap
                == te.wrap
        },
        (ViewTree::Flex(fv), Element::Flex(fe)) => {
            fv.style == fe.style && fv.background_color == fe.background_color
                && fv.children@.len() == fe.children@.len() && (forall|i: int|
                0 <= i < fv.children@.len() ==> fits(
                    #[trigger] fv.children@[i],
                    fe.children@[i],
                ))
        },
        (ViewTree::Pressable(pv), Element::Pressable(pe)) => {
            pv.on_press == pe.on_press && pv.on_hover == pe.on_hover && pv.on_focus == pe.on_focus
                && fits(pv.content, pe.content)
        },
        (ViewTree::Window(wv), Element::Window(we)) => {
            wv.sizing == we.sizing && wv.layer_shell == we.layer_shell && fits(
                wv.content,
                we.content,
            )
        },
        (ViewTree::Animate(av), Element::Animate(ae)) => {
            av.animating == ae.animating && av.on_frame == ae.on_frame && fits(
                av.content,
                ae.content,
            )
        },
        _ => false,
    }
}

/// Structural well-formedness of an element against the widget arena and the
/// layout forest: every widget is live and of the right kind with its cached
/// configuration in place, every layout node is live, and for every
/// container the element list, the widget child list and the layout child
/// list agree index by index.
pub open spec fn wf_elem(e: Element, ws: Seq<Widget>, f: Map<u64, Seq<u64>>) -> bool
    decreases e,
{
    match e {
        Element::Text(t) => {
            &&& t.widget < ws.len()
            &&& ws[t.widget as int].alive
            &&& ws[t.widget as int].kind == NodeKind::Text
            &&& ws[t.widget as int].text@ == t.text@
            &&& ws[t.widget as int].color == t.color
            &&& ws[t.widget as int].children@ == Seq::<usize>::empty()
            &&& f.dom().contains(t.node)
            &&& f[t.node] == Seq::<u64>::empty()
        },
        Element::Flex(x) => {
            &&& x.widget < ws.len()
            &&& ws[x.widget as int].alive
            &&& ws[x.widget as int].kind == NodeKind::Group
            &&& ws[x.widget as int].color == x.background_color
            &&& ws[x.widget as int].children@ == child_widgets(x.children@)
            &&& f.dom().contains(x.node)
            &&& f[x.node] == child_nodes(x.children@)
            &&& forall|i: int|
                0 <= i < x.children@.len() ==> wf_elem(#[trigger] x.children@[i], ws, f)
        },
        Element::Pressable(p) => {
            &&& p.widget < ws.len()
            &&& ws[p.widget as int].alive
            &&& ws[p.widget as int].kind == NodeKind::Pressable
            &&& ws[p.widget as int].children@ == seq![widget_of(p.content)]
            &&& wf_elem(p.content, ws, f)
        },
        Element::Window(w) => {
            &&& w.widget < ws.len()
            &&& ws[w.widget as int].alive
            &&& ws[w.widget as int].kind == NodeKind::Window
            &&& ws[w.widget as int].children@ == seq![widget_of(w.content)]
            &&& ws[w.widget as int].clock == (w.animating > 0)
            &&& ws[w.widget as int].resizable == (w.sizing is User)
            &&& ws[w.widget as int].layer_shell == w.layer_shell
            &&& f.dom().contains(w.node)
            &&& f[w.node] == seq![node_of(w.content)]
            &&& wf_elem(w.content, ws, f)
        },
        Element::Animate(a) => wf_elem(a.content, ws, f),
    }
}

/// A freshly built subtree's per-view state is at its initial value: every
/// pressable idle, every window with a zero animating count and zero
/// last-seen size.
pub open spec fn fresh_state(e: Element) -> bool
    decreases e,
{
    match e {
        Element::Text(_) => true,
        Element::Flex(f) => forall|i: int|
            0 <= i < f.children@.len() ==> fresh_state(#[trigger] f.children@[i]),
        Element::Pressable(p) => p.press == (PressState {
            pressed: false,
            hovered: false,
            focused: false,
        }) && fresh_state(p.content),
        Element::Window(w) => w.animating == 0 && w.width == 0 && w.height == 0 && fresh_state(
            w.content,
        ),
        Element::Animate(a) => fresh_state(a.content),
    }
}

/// The commands an animation tick fires, in preorder: each animating
/// wrapper with a registered frame command contributes it once.
pub open spec fn tick_commands(e: Element) -> Seq<u64>
    decreases e,
{
    match e {
        Element::Text(_) => Seq::empty(),
        Element::Flex(f) => tick_commands_seq(f.children@),
        Element::Pressable(p) => tick_commands(p.content),
        Element::Window(w) => tick_commands(w.content),
        Element::Animate(a) => (if a.animating && a.on_frame is Some {
            seq![a.on_frame->0]
        } else {
            Seq::<u64>::empty()
        }) + tick_commands(a.content),
    }
}

/// The tick commands of a child list.
pub open spec fn tick_commands_seq(s: Seq<Element>) -> Seq<u64>
    decreases s,
{
    if s.len() == 0 {
        Seq::empty()
    } else {
        tick_commands(s[0]) + tick_commands_seq(s.drop_first())
    }
}

/// Whether some element of the subtree would consume this targeted
/// message: a pressable with the matching identity for a pointer payload,
/// or a window with the matching identity for a window payload.
pub open spec fn takes(e: Element, m: crate::message::Message) -> bool
    decreases e,
{
    match e {
        Element::Text(_) => false,
        Element::Flex(f) => takes_seq(f.children@, m),
        Element::Pressable(p) => crate::reconcile::pressable_hit(*p, m) || takes(p.content, m),
        Element::Window(w) => crate::reconcile::window_hit(*w, m) || takes(w.content, m),
        Element::Animate(a) => takes(a.content, m),
    }
}

/// Whether some element of a child list would consume the message.
pub open spec fn takes_seq(s: Seq<Element>, m: crate::message::Message) -> bool
    decreases s,
{
    if s.len() == 0 {
        false
    } else {
        takes(s[0], m) || takes_seq(s.drop_first(), m)
    }
}

/// The identities a targeted dispatch logs: the consuming element's, and
/// for a frame tick on an animating window additionally everything its
/// contents' broadcast reaches.
pub open spec fn dispatch_log(e: Element, m: crate::message::Message) -> Seq<u64>
    decreases e,
{
    match e {
        Element::Text(_) => Seq::empty(),
        Element::Flex(f) => dispatch_log_seq(f.children@, m),
        Element::Pressable(p) => if crate::reconcile::pressable_hit(*p, m) {
            seq![p.view_id.0]
        } else {
            dispatch_log(p.content, m)
        },
        Element::Window(w) => if crate::reconcile::window_hit(*w, m) {
            if (m.payload matches crate::message::Payload::Window(
                crate::message::WindowMessage::AnimationFrame(_),
            )) && w.animating > 0 {
                seq![w.view_id.0] + ids_of(w.content)
            } else {
                seq![w.view_id.0]
            }
        } else {
            dispatch_log(w.content, m)
        },
        Element::Animate(a) => dispatch_log(a.content, m),
    }
}

/// The identities a targeted dispatch logs over a child list.
pub open spec fn dispatch_log_seq(s: Seq<Element>, m: crate::message::Message) -> Seq<u64>
    decreases s,
{
    if s.len() == 0 {
        Seq::empty()
    } else {
        dispatch_log(s[0], m) + dispatch_log_seq(s.drop_first(), m)
    }
}

/// The commands a targeted dispatch fires: the consuming pressable's
/// callback per the press machine, or — for a frame tick on an animating
/// window — the contents' animation commands.
pub open spec fn dispatch_cmds(e: Element, m: crate::message::Message) -> Seq<u64>
    decreases e,
{
    match e {
        Element::Text(_) => Seq::empty(),
        Element::Flex(f) => dispatch_cmds_seq(f.children@, m),
        Element::Pressable(p) => if crate::reconcile::pressable_hit(*p, m) {
            match m.payload {
                crate::message::Payload::Press(ev) => if crate::message::spec_press_step(
                    p.press,
                    ev,
                ).1 && p.on_press is Some {
                    seq![p.on_press->0]
                } else {
                    Seq::<u64>::empty()
                },
                crate::message::Payload::Hover(_) => if p.on_hover is Some {
                    seq![p.on_hover->0]
                } else {
                    Seq::<u64>::empty()
                },
                crate::message::Payload::Focus(_) => if p.on_focus is Some {
                    seq![p.on_focus->0]
                } else {
                    Seq::<u64>::empty()
                },
                _ => Seq::<u64>::empty(),
            }
        } else {
            dispatch_cmds(p.content, m)
        },
        Element::Window(w) => if crate::reconcile::window_hit(*w, m) {
            if (m.payload matches crate::message::Payload::Window(
                crate::message::WindowMessage::AnimationFrame(_),
            )) && w.animating > 0 {
                tick_commands(w.content)
            } else {
                Seq::<u64>::empty()
            }
        } else {
            dispatch_cmds(w.content, m)
        },
        Element::Animate(a) => dispatch_cmds(a.content, m),
    }
}

/// The commands a targeted dispatch fires over a child list.
pub open spec fn dispatch_cmds_seq(s: Seq<Element>, m: crate::message::Message) -> Seq<u64>
    decreases s,
{
    if s.len() == 0 {
        Seq::empty()
    } else {
        dispatch_cmds(s[0], m) + dispatch_cmds_seq(s.drop_first(), m)
    }
}

/// Whether a targeted dispatch asks to quit: exactly a close request
/// consumed by its window.
pub open spec fn dispatch_quit(e: Element, m: crate::message::Message) -> bool
    decreases e,
{
    match e {
        Element::Text(_) => false,
        Element::Flex(f) => dispatch_quit_seq(f.children@, m),
        Element::Pressable(p) => !crate::reconcile::pressable_hit(*p, m) && dispatch_quit(
            p.content,
            m,
        ),
        Element::Window(w) => if crate::reconcile::window_hit(*w, m) {
            m.payload == crate::message::Payload::Window(
                crate::message::WindowMessage::CloseRequested,
            )
        } else {
            dispatch_quit(w.content, m)
        },
        Element::Animate(a) => dispatch_quit(a.content, m),
    }
}

/// Whether a targeted dispatch over a child list asks to quit.
pub open spec fn dispatch_quit_seq(s: Seq<Element>, m: crate::message::Message) -> bool
    decreases s,
{
    if s.len() == 0 {
        false
    } else {
        dispatch_quit(s[0], m) || dispatch_quit_seq(s.drop_first(), m)
    }
}

/// Whether a targeted dispatch requests a rebuild pass: a consumed pointer
/// message always does (the press state changed), a consumed frame tick
/// does exactly when a command fired.
pub open spec fn dispatch_rebuilds(e: Element, m: crate::message::Message) -> bool
    decreases e,
{
    match e {
        Element::Text(_) => false,
        Element::Flex(f) => dispatch_rebuilds_seq(f.children@, m),
        Element::Pressable(p) => crate::reconcile::pressable_hit(*p, m) || dispatch_rebuilds(
            p.content,
            m,
        ),
        Element::Window(w) => if crate::reconcile::window_hit(*w, m) {
            dispatch_cmds(e, m).len() > 0
        } else {
            dispatch_rebuilds(w.content, m)
        },
        Element::Animate(a) => dispatch_rebuilds(a.content, m),
    }
}

/// Whether a targeted dispatch over a child list requests a rebuild.
pub open spec fn dispatch_rebuilds_seq(s: Seq<Element>, m: crate::message::Message) -> bool
    decreases s,
{
    if s.len() == 0 {
        false
    } else {
        dispatch_rebuilds(s[0], m) || dispatch_rebuilds_seq(s.drop_first(), m)
    }
}

/// Child lists with pointwise-equal flattened views have equal flattened
/// views.
pub proof fn lemma_flat_congruence(s1: Seq<Element>, s2: Seq<Element>)
    requires
        s1.len() == s2.len(),
        forall|j: int|
            0 <= j < s1.len() ==> nodes_of(#[trigger] s1[j]) == nodes_of(s2[j]) && widgets_of(
                s1[j],
            ) == widgets_of(s2[j]) && ids_of(s1[j]) == ids_of(s2[j]),
    ensures
        nodes_of_seq(s1) =~= nodes_of_seq(s2),
        widgets_of_seq(s1) =~= widgets_of_seq(s2),
        ids_of_seq(s1) =~= ids_of_seq(s2),
    decreases s1,
{
    if s1.len() > 0 {
        assert(forall|j: int|
            0 <= j < s1.drop_first().len() ==> #[trigger] s1.drop_first()[j] == s1[j + 1]
                && s2.drop_first()[j] == s2[j + 1]);
        lemma_flat_congruence(s1.drop_first(), s2.drop_first());
    }
}

/// Appending a child extends every dispatch aggregate by the child's.
pub proof fn lemma_dispatch_push(s: Seq<Element>, c: Element, m: crate::message::Message)
    ensures
        dispatch_log_seq(s.push(c), m) =~= dispatch_log_seq(s, m) + dispatch_log(c, m),
        dispatch_cmds_seq(s.push(c), m) =~= dispatch_cmds_seq(s, m) + dispatch_cmds(c, m),
        dispatch_quit_seq(s.push(c), m) == (dispatch_quit_seq(s, m) || dispatch_quit(c, m)),
        dispatch_rebuilds_seq(s.push(c), m) == (dispatch_rebuilds_seq(s, m)
            || dispatch_rebuilds(c, m)),
        takes_seq(s.push(c), m) == (takes_seq(s, m) || takes(c, m)),
    decreases s,
{
    if s.len() == 0 {
        let ghost emp = Seq::<Element>::empty();
        assert(s.push(c)[0] == c);
        assert(s.push(c).drop_first() =~= emp);
        assert(dispatch_log_seq(emp, m) == Seq::<u64>::empty());
        assert(dispatch_cmds_seq(emp, m) == Seq::<u64>::empty());
        assert(!dispatch_quit_seq(emp, m));
        assert(!dispatch_rebuilds_seq(emp, m));
        assert(!takes_seq(emp, m));
        assert(dispatch_log_seq(s.push(c), m) == dispatch_log(s.push(c)[0], m)
            + dispatch_log_seq(s.push(c).drop_first(), m));
        assert(dispatch_cmds_seq(s.push(c), m) == dispatch_cmds(s.push(c)[0], m)
            + dispatch_cmds_seq(s.push(c).drop_first(), m));
    } else {
        lemma_dispatch_push(s.drop_first(), c, m);
        assert(s.push(c).drop_first() =~= s.drop_first().push(c));
        assert(s.push(c)[0] == s[0]);
        assert(dispatch_log_seq(s.push(c), m) == dispatch_log(s[0], m) + dispatch_log_seq(
            s.drop_first().push(c),
            m,
        ));
        assert(dispatch_cmds_seq(s.push(c), m) == dispatch_cmds(s[0], m) + dispatch_cmds_seq(
            s.drop_first().push(c),
            m,
        ));
    }
}

/// A subtree that would not consume the message is inert under targeted
/// dispatch: nothing is logged, fired, or requested.
pub proof fn lemma_no_take_no_effect(e: Element, m: crate::message::Message)
    requires
        !takes(e, m),
    ensures
        dispatch_log(e, m) == Seq::<u64>::empty(),
        dispatch_cmds(e, m) == Seq::<u64>::empty(),
        !dispatch_quit(e, m),
        !dispatch_rebuilds(e, m),
    decreases e,
{
    match e {
        Element::Text(_) => {},
        Element::Flex(f) => {
            lemma_no_take_no_effect_seq(f.children@, m);
        },
        Element::Pressable(p) => {
            lemma_no_take_no_effect(p.content, m);
        },
        Element::Window(w) => {
            lemma_no_take_no_effect(w.content, m);
        },
        Element::Animate(a) => {
            lemma_no_take_no_effect(a.content, m);
        },
    }
}

/// The child-list form of [`lemma_no_take_no_effect`].
pub proof fn lemma_no_take_no_effect_seq(s: Seq<Element>, m: crate::message::Message)
    requires
        !takes_seq(s, m),
    ensures
        dispatch_log_seq(s, m) =~= Seq::<u64>::empty(),
        dispatch_cmds_seq(s, m) =~= Seq::<u64>::empty(),
        !dispatch_quit_seq(s, m),
        !dispatch_rebuilds_seq(s, m),
    decreases s,
{
    if s.len() > 0 {
        lemma_no_take_no_effect(s[0], m);
        lemma_no_take_no_effect_seq(s.drop_first(), m);
    }
}

/// An already-consumed message is consumed by nothing further.
pub proof fn lemma_taken_not_takes(e: Element, m: crate::message::Message)
    requires
        m.taken,
    ensures
        !takes(e, m),
    decreases e,
{
    match e {
        Element::Text(_) => {},
        Element::Flex(f) => {
            lemma_taken_not_takes_seq(f.children@, m);
        },
        Element::Pressable(p) => {
            lemma_taken_not_takes(p.content, m);
        },
        Element::Window(w) => {
            lemma_taken_not_takes(w.content, m);
        },
        Element::Animate(a) => {
            lemma_taken_not_takes(a.content, m);
        },
    }
}

/// The child-list form of [`lemma_taken_not_takes`].
pub proof fn lemma_taken_not_takes_seq(s: Seq<Element>, m: crate::message::Message)
    requires
        m.taken,
    ensures
        !takes_seq(s, m),
    decreases s,
{
    if s.len() > 0 {
        lemma_taken_not_takes(s[0], m);
        lemma_taken_not_takes_seq(s.drop_first(), m);
    }
}

/// Only a subtree holding the target's identity can consume the message.
pub proof fn lemma_takes_in_ids(e: Element, m: crate::message::Message)
    requires
        takes(e, m),
        m.target is Some,
    ensures
        ids_of(e).contains((m.target->Some_0).0),
    decreases e,
{
    broadcast use vstd::seq_lib::lemma_seq_concat_contains_all_elements;

    match e {
        Element::Text(_) => {},
        Element::Flex(f) => {
            lemma_takes_in_ids_seq(f.children@, m);
        },
        Element::Pressable(p) => {
            if crate::reconcile::pressable_hit(*p, m) {
                assert(ids_of(e)[0] == (m.target->Some_0).0);
            } else {
                lemma_takes_in_ids(p.content, m);
            }
        },
        Element::Window(w) => {
            if crate::reconcile::window_hit(*w, m) {
                assert(ids_of(e)[0] == (m.target->Some_0).0);
            } else {
                lemma_takes_in_ids(w.content, m);
            }
        },
        Element::Animate(a) => {
            lemma_takes_in_ids(a.content, m);
        },
    }
}

/// The child-list form of [`lemma_takes_in_ids`].
pub proof fn lemma_takes_in_ids_seq(s: Seq<Element>, m: crate::message::Message)
    requires
        takes_seq(s, m),
        m.target is Some,
    ensures
        ids_of_seq(s).contains((m.target->Some_0).0),
    decreases s,
{
    broadcast use vstd::seq_lib::lemma_seq_concat_contains_all_elements;

    if takes(s[0], m) {
        lemma_takes_in_ids(s[0], m);
    } else {
        lemma_takes_in_ids_seq(s.drop_first(), m);
    }
}

/// No layout node, widget or identity appears twice in the subtree.
pub open spec fn elem_unique(e: Element) -> bool {
    nodes_of(e).no_duplicates() && widgets_of(e).no_duplicates() && ids_of(e).no_duplicates()
}

/// Identity preservation: wherever the new view's kind equals the old
/// element's, the rebuilt element keeps the same widget and layout node,
/// position by position down the tree.
pub open spec fn preserves_identity(v: ViewTree, oe: Element, ne: Element) -> bool
    decreases v,
{
    kind_same(v, oe) ==> match (v, oe, ne) {
        (ViewTree::Text(_), Element::Text(_), _) => {
            &&& widget_of(ne) == widget_of(oe)
            &&& node_of(ne) == node_of(oe)
            &&& id_of(ne) == id_of(oe)
        },
        (ViewTree::Flex(fv), Element::Flex(foe), Element::Flex(fne)) => {
            &&& widget_of(ne) == widget_of(oe)
            &&& node_of(ne) == node_of(oe)
            &&& id_of(ne) == id_of(oe)
            &&& forall|i: int|
                0 <= i < fv.children@.len() && i < foe.children@.len() && i
                    < fne.children@.len() ==> preserves_identity(
                    #[trigger] fv.children@[i],
                    foe.children@[i],
                    fne.children@[i],
                )
        },
        (ViewTree::Pressable(pv), Element::Pressable(poe), Element::Pressable(pne)) => {
            // the region owns its widget but shares its content's layout
            // node, which is replaced with the content on a kind change
            &&& widget_of(ne) == widget_of(oe)
            &&& id_of(ne) == id_of(oe)
            &&& preserves_identity(pv.content, poe.content, pne.content)
        },
        (ViewTree::Window(wv), Element::Window(woe), Element::Window(wne)) => {
            &&& widget_of(ne) == widget_of(oe)
            &&& node_of(ne) == node_of(oe)
            &&& id_of(ne) == id_of(oe)
            &&& preserves_identity(wv.content, woe.content, wne.content)
        },
        (ViewTree::Animate(av), Element::Animate(aoe), Element::Animate(ane)) => {
            // the wrapper is transparent: its widget is its content's, which
            // may be replaced when the content's kind alternates
            &&& id_of(ne) == id_of(oe)
            &&& preserves_identity(av.content, aoe.content, ane.content)
        },
        _ => true,
    }
}

/// Entries of nodes outside `ns` never point into `ns`: the subtree with
/// nodes `ns` hangs from nothing else in the forest.
pub open spec fn separated(ns: Seq<u64>, f: Map<u64, Seq<u64>>) -> bool {
    forall|p: u64, j: int|
        f.dom().contains(p) && !ns.contains(p) && 0 <= j < f[p].len() ==> !ns.contains(
            #[trigger] f[p][j],
        )
}

/// Every child recorded in the forest is itself a live node.
pub open spec fn dom_closed(f: Map<u64, Seq<u64>>) -> bool {
    forall|p: u64, j: int|
        f.dom().contains(p) && 0 <= j < f[p].len() ==> f.dom().contains(#[trigger] f[p][j])
}

/// Well-formedness only reads the widgets and nodes of the subtree itself:
/// it survives any change that leaves those entries alone.
pub proof fn lemma_wf_frame(
    e: Element,
    ws: Seq<Widget>,
    f: Map<u64, Seq<u64>>,
    ws2: Seq<Widget>,
    f2: Map<u64, Seq<u64>>,
)
    requires
        wf_elem(e, ws, f),
        forall|w: usize|
            #[trigger] widgets_of(e).contains(w) ==> w < ws2.len() && ws2[w as int] == ws[
                w as int
            ],
        forall|n: u64|
            #[trigger] nodes_of(e).contains(n) ==> f2.dom().contains(n) && f2[n] == f[n],
    ensures
        wf_elem(e, ws2, f2),
    decreases e,
{
    broadcast use vstd::seq_lib::lemma_seq_concat_contains_all_elements;

    lemma_root_node_in_nodes(e);
    match e {
        Element::Text(_t) => {},
        Element::Flex(x) => {
            assert(nodes_of(e) == seq![x.node] + nodes_of_seq(x.children@));
            assert(widgets_of(e) == seq![x.widget] + widgets_of_seq(x.children@));
            assert forall|i: int| 0 <= i < x.children@.len() implies wf_elem(
                #[trigger] x.children@[i],
                ws2,
                f2,
            ) by {
                lemma_seq_parts(x.children@, i);
                let c = x.children@[i];
                assert forall|w: usize| #[trigger] widgets_of(c).contains(w) implies w
                    < ws2.len() && ws2[w as int] == ws[w as int] by {
                    assert(widgets_of_seq(x.children@).contains(w));
                    assert(widgets_of(e).contains(w));
                }
                assert forall|n: u64| #[trigger] nodes_of(c).contains(n) implies f2.dom().contains(
                    n,
                ) && f2[n] == f[n] by {
                    assert(nodes_of_seq(x.children@).contains(n));
                    assert(nodes_of(e).contains(n));
                }
                lemma_wf_frame(c, ws, f, ws2, f2);
            }
        },
        Element::Pressable(p) => {
            assert(nodes_of(e) == nodes_of(p.content));
            assert(widgets_of(e) == seq![p.widget] + widgets_of(p.content));
            assert forall|w: usize| #[trigger] widgets_of(p.content).contains(w) implies w
                < ws2.len() && ws2[w as int] == ws[w as int] by {
                assert(widgets_of(e).contains(w));
            }
            lemma_wf_frame(p.content, ws, f, ws2, f2);
        },
        Element::Window(w) => {
            assert(nodes_of(e) == seq![w.node] + nodes_of(w.content));
            assert(widgets_of(e) == seq![w.widget] + widgets_of(w.content));
            assert forall|x: usize| #[trigger] widgets_of(w.content).contains(x) implies x
                < ws2.len() && ws2[x as int] == ws[x as int] by {
                assert(widgets_of(e).contains(x));
            }
            assert forall|n: u64| #[trigger] nodes_of(w.content).contains(n) implies f2.dom()
                .contains(n) && f2[n] == f[n] by {
                assert(nodes_of(e).contains(n));
            }
            lemma_wf_frame(w.content, ws, f, ws2, f2);
        },
        Element::Animate(a) => {
            lemma_wf_frame(a.content, ws, f, ws2, f2);
        },
    }
}

/// Well-formedness never reads a widget's width or height: it survives any
/// change that at most resizes widgets.
pub proof fn lemma_wf_frame_sized(
    e: Element,
    ws: Seq<Widget>,
    f: Map<u64, Seq<u64>>,
    ws2: Seq<Widget>,
)
    requires
        wf_elem(e, ws, f),
        ws2.len() == ws.len(),
        forall|w: int|
            0 <= w < ws.len() ==> crate::store::keeps_but_size(ws[w], #[trigger] ws2[w]),
    ensures
        wf_elem(e, ws2, f),
    decreases e,
{
    match e {
        Element::Text(_t) => {},
        Element::Flex(x) => {
            assert forall|i: int| 0 <= i < x.children@.len() implies wf_elem(
                #[trigger] x.children@[i],
                ws2,
                f,
            ) by {
                lemma_wf_frame_sized(x.children@[i], ws, f, ws2);
            }
        },
        Element::Pressable(p) => {
            lemma_wf_frame_sized(p.content, ws, f, ws2);
        },
        Element::Window(w) => {
            lemma_wf_frame_sized(w.content, ws, f, ws2);
        },
        Element::Animate(a) => {
            lemma_wf_frame_sized(a.content, ws, f, ws2);
        },
    }
}

/// Joining two duplicate-free, disjoint sequences gives a duplicate-free
/// sequence.
pub proof fn lemma_nodup_join<A>(a: Seq<A>, b: Seq<A>)
    requires
        a.no_duplicates(),
        b.no_duplicates(),
        forall|x: A| a.contains(x) ==> !b.contains(x),
    ensures
        (a + b).no_duplicates(),
{
    assert forall|i: int, j: int| 0 <= i < j < (a + b).len() implies (a + b)[i] != (a + b)[j] by {
        if i < a.len() && j < a.len() {
            assert((a + b)[i] == a[i] && (a + b)[j] == a[j]);
        } else if i < a.len() {
            assert((a + b)[i] == a[i] && (a + b)[j] == b[j - a.len()]);
            if a[i] == b[j - a.len()] {
                assert(a.contains(a[i]));
                assert(b.contains(a[i]));
            }
        } else {
            assert((a + b)[i] == b[i - a.len()] && (a + b)[j] == b[j - a.len()]);
        }
    }
}

/// Two distinct children of a duplicate-free list share no layout node.
pub proof fn lemma_double_membership(s: Seq<Element>, a: int, b: int)
    requires
        0 <= a < s.len(),
        0 <= b < s.len(),
        a != b,
        nodes_of_seq(s).no_duplicates(),
    ensures
        forall|q: u64| #[trigger] nodes_of(s[a]).contains(q) ==> !nodes_of(s[b]).contains(q),
{
    broadcast use vstd::seq_lib::lemma_seq_concat_contains_all_elements;

    let lo = if a < b {
        a
    } else {
        b
    };
    let hi = if a < b {
        b
    } else {
        a
    };
    lemma_seq_parts(s, lo);
    assert(nodes_of_seq(s.take(lo)) + (nodes_of(s[lo]) + nodes_of_seq(s.skip(lo + 1)))
        =~= nodes_of_seq(s));
    lemma_nodup_split(nodes_of_seq(s.take(lo)), nodes_of(s[lo]) + nodes_of_seq(s.skip(lo + 1)));
    lemma_nodup_split(nodes_of(s[lo]), nodes_of_seq(s.skip(lo + 1)));
    assert forall|q: u64| #[trigger] nodes_of(s[a]).contains(q) implies !nodes_of(s[b]).contains(
        q,
    ) by {
        assert(s.skip(lo + 1)[hi - lo - 1] == s[hi]);
        if nodes_of(s[a]).contains(q) && nodes_of(s[b]).contains(q) {
            assert(nodes_of(s[hi]).contains(q));
            assert(nodes_of_seq(s.skip(lo + 1)).contains(q)) by {
                lemma_seq_parts(s.skip(lo + 1), hi - lo - 1);
            }
            assert(nodes_of(s[lo]).contains(q));
        }
    }
}

/// Facts about a one-element sequence.
pub proof fn lemma_singleton<A>(x: A)
    ensures
        seq![x].len() == 1,
        seq![x][0] == x,
        seq![x].contains(x),
        forall|y: A| #[trigger] seq![x].contains(y) ==> y == x,
{
    assert(seq![x][0] == x);
    assert(seq![x].contains(x));
    assert forall|y: A| #[trigger] seq![x].contains(y) implies y == x by {
        let i = choose|i: int| 0 <= i < seq![x].len() && seq![x][i] == y;
    }
}

/// Splitting a concatenation that has no duplicates: each part has none, and
/// the parts are disjoint.
pub proof fn lemma_nodup_split<A>(a: Seq<A>, b: Seq<A>)
    requires
        (a + b).no_duplicates(),
    ensures
        a.no_duplicates(),
        b.no_duplicates(),
        forall|x: A| a.contains(x) ==> !b.contains(x),
{
    assert forall|i: int, j: int| 0 <= i < j < a.len() implies a[i] != a[j] by {
        assert((a + b)[i] == a[i]);
        assert((a + b)[j] == a[j]);
    }
    assert forall|i: int, j: int| 0 <= i < j < b.len() implies b[i] != b[j] by {
        assert((a + b)[a.len() + i] == b[i]);
        assert((a + b)[a.len() + j] == b[j]);
    }
    assert forall|x: A| a.contains(x) implies !b.contains(x) by {
        if b.contains(x) {
            let i = choose|i: int| 0 <= i < a.len() && a[i] == x;
            let j = choose|j: int| 0 <= j < b.len() && b[j] == x;
            assert((a + b)[i] == x);
            assert((a + b)[a.len() + j] == x);
        }
    }
}

/// Decomposing the flattened sequences of a child list around one index.
pub proof fn lemma_seq_parts(s: Seq<Element>, i: int)
    requires
        0 <= i < s.len(),
    ensures
        nodes_of_seq(s) =~= nodes_of_seq(s.take(i)) + nodes_of(s[i]) + nodes_of_seq(s.skip(i + 1)),
        widgets_of_seq(s) =~= widgets_of_seq(s.take(i)) + widgets_of(s[i]) + widgets_of_seq(
            s.skip(i + 1),
        ),
        ids_of_seq(s) =~= ids_of_seq(s.take(i)) + ids_of(s[i]) + ids_of_seq(s.skip(i + 1)),
    decreases i,
{
    if i == 0 {
        assert(s.take(0) =~= Seq::<Element>::empty());
        assert(s.skip(1) =~= s.drop_first());
    } else {
        lemma_seq_parts(s.drop_first(), i - 1);
        assert(s.drop_first().take(i - 1) =~= s.take(i).drop_first());
        assert(s.drop_first().skip(i) =~= s.skip(i + 1));
        assert(s.take(i)[0] == s[0]);
        assert(nodes_of_seq(s.take(i)) == nodes_of(s[0]) + nodes_of_seq(s.take(i).drop_first()));
        assert(widgets_of_seq(s.take(i)) == widgets_of(s[0]) + widgets_of_seq(
            s.take(i).drop_first(),
        ));
        assert(ids_of_seq(s.take(i)) == ids_of(s[0]) + ids_of_seq(s.take(i).drop_first()));
    }
}

/// The forest-only shape of a subtree: below this element, the forest's
/// child lists mirror the element tree exactly.  This is the part of
/// [`wf_elem`] the layout solver depends on.
pub open spec fn forest_shape(e: Element, f: Map<u64, Seq<u64>>) -> bool
    decreases e,
{
    match e {
        Element::Text(t) => f.dom().contains(t.node) && f[t.node] == Seq::<u64>::empty(),
        Element::Flex(x) => {
            &&& f.dom().contains(x.node)
            &&& f[x.node] == child_nodes(x.children@)
            &&& forall|i: int|
                0 <= i < x.children@.len() ==> forest_shape(#[trigger] x.children@[i], f)
        },
        Element::Pressable(p) => forest_shape(p.content, f),
        Element::Window(w) => {
            &&& f.dom().contains(w.node)
            &&& f[w.node] == seq![node_of(w.content)]
            &&& forest_shape(w.content, f)
        },
        Element::Animate(a) => forest_shape(a.content, f),
    }
}

/// The sub-forest below `node` mirrors some finite element tree: every
/// reachable node is live and the walk from `node` is a finite tree walk.
/// The layout solver can therefore traverse it without panicking or
/// diverging.
pub open spec fn shaped_at(f: Map<u64, Seq<u64>>, node: u64) -> bool {
    exists|e: Element| node_of(e) == node && #[trigger] forest_shape(e, f)
}

/// Well-formedness gives the solver's shape witness.
pub proof fn lemma_wf_implies_shape(e: Element, ws: Seq<Widget>, f: Map<u64, Seq<u64>>)
    requires
        wf_elem(e, ws, f),
    ensures
        forest_shape(e, f),
        shaped_at(f, node_of(e)),
    decreases e,
{
    match e {
        Element::Text(_) => {},
        Element::Flex(x) => {
            assert forall|i: int| 0 <= i < x.children@.len() implies forest_shape(
                #[trigger] x.children@[i],
                f,
            ) by {
                lemma_wf_implies_shape(x.children@[i], ws, f);
            }
        },
        Element::Pressable(p) => {
            lemma_wf_implies_shape(p.content, ws, f);
        },
        Element::Window(w) => {
            lemma_wf_implies_shape(w.content, ws, f);
        },
        Element::Animate(a) => {
            lemma_wf_implies_shape(a.content, ws, f);
        },
    }
    assert(node_of(e) == node_of(e) && forest_shape(e, f));
}

/// A node set is closed in the forest: each node is live and its recorded
/// children are again in the set.
pub open spec fn closed_under(ns: Seq<u64>, f: Map<u64, Seq<u64>>) -> bool {
    &&& forall|n: u64| #[trigger] ns.contains(n) ==> f.dom().contains(n)
    &&& forall|n: u64, j: int|
        ns.contains(n) && 0 <= j < f[n].len() ==> ns.contains(#[trigger] f[n][j])
}

/// Every widget of the list is live in the arena.
pub open spec fn live_widgets(l: Seq<usize>, ws: Seq<Widget>) -> bool {
    forall|k: int| 0 <= k < l.len() ==> #[trigger] l[k] < ws.len() && ws[l[k] as int].alive
}

/// The root of each child stands in the flattened sequences of the list.
pub proof fn lemma_child_root_in_seq(s: Seq<Element>, j: int)
    requires
        0 <= j < s.len(),
    ensures
        nodes_of_seq(s).contains(node_of(s[j])),
        widgets_of_seq(s).contains(widget_of(s[j])),
        ids_of_seq(s).contains(id_of(s[j])),
{
    broadcast use vstd::seq_lib::lemma_seq_concat_contains_all_elements;

    lemma_seq_parts(s, j);
    lemma_root_node_in_nodes(s[j]);
    assert((nodes_of_seq(s.take(j)) + nodes_of(s[j])).contains(node_of(s[j])));
    assert((widgets_of_seq(s.take(j)) + widgets_of(s[j])).contains(widget_of(s[j])));
    assert((ids_of_seq(s.take(j)) + ids_of(s[j])).contains(id_of(s[j])));
}

/// Pushing a child extends the flattened sequences by the child's.
pub proof fn lemma_flat_push(s: Seq<Element>, c: Element)
    ensures
        nodes_of_seq(s.push(c)) =~= nodes_of_seq(s) + nodes_of(c),
        widgets_of_seq(s.push(c)) =~= widgets_of_seq(s) + widgets_of(c),
        ids_of_seq(s.push(c)) =~= ids_of_seq(s) + ids_of(c),
    decreases s,
{
    if s.len() == 0 {
        let ghost emp = Seq::<Element>::empty();
        assert(s.push(c)[0] == c);
        assert(s.push(c).drop_first() =~= emp);
        assert(nodes_of_seq(emp) == Seq::<u64>::empty());
        assert(widgets_of_seq(emp) == Seq::<usize>::empty());
        assert(ids_of_seq(emp) == Seq::<u64>::empty());
        assert(nodes_of_seq(s.push(c)) == nodes_of(s.push(c)[0]) + nodes_of_seq(
            s.push(c).drop_first(),
        ));
        assert(widgets_of_seq(s.push(c)) == widgets_of(s.push(c)[0]) + widgets_of_seq(
            s.push(c).drop_first(),
        ));
        assert(ids_of_seq(s.push(c)) == ids_of(s.push(c)[0]) + ids_of_seq(
            s.push(c).drop_first(),
        ));
    } else {
        lemma_flat_push(s.drop_first(), c);
        assert(s.push(c).drop_first() =~= s.drop_first().push(c));
        assert(s.push(c)[0] == s[0]);
        assert(nodes_of_seq(s.push(c)) == nodes_of(s[0]) + nodes_of_seq(s.drop_first().push(c)));
        assert(widgets_of_seq(s.push(c)) == widgets_of(s[0]) + widgets_of_seq(
            s.drop_first().push(c),
        ));
        assert(ids_of_seq(s.push(c)) == ids_of(s[0]) + ids_of_seq(s.drop_first().push(c)));
    }
}

/// The flattened sequences split around any cut.
pub proof fn lemma_flat_split_at(s: Seq<Element>, m: int)
    requires
        0 <= m <= s.len(),
    ensures
        nodes_of_seq(s) =~= nodes_of_seq(s.take(m)) + nodes_of_seq(s.skip(m)),
        widgets_of_seq(s) =~= widgets_of_seq(s.take(m)) + widgets_of_seq(s.skip(m)),
        ids_of_seq(s) =~= ids_of_seq(s.take(m)) + ids_of_seq(s.skip(m)),
    decreases m,
{
    if m == 0 {
        assert(s.take(0) =~= Seq::<Element>::empty());
        assert(s.skip(0) =~= s);
    } else {
        lemma_flat_split_at(s.drop_first(), m - 1);
        assert(s.drop_first().take(m - 1) =~= s.take(m).drop_first());
        assert(s.drop_first().skip(m - 1) =~= s.skip(m));
        assert(s.take(m)[0] == s[0]);
        assert(nodes_of_seq(s.take(m)) == nodes_of(s[0]) + nodes_of_seq(s.take(m).drop_first()));
        assert(widgets_of_seq(s.take(m)) == widgets_of(s[0]) + widgets_of_seq(
            s.take(m).drop_first(),
        ));
        assert(ids_of_seq(s.take(m)) == ids_of(s[0]) + ids_of_seq(s.take(m).drop_first()));
    }
}

/// A member of a flattened node sequence comes from some child.
pub proof fn lemma_flat_member_nodes(s: Seq<Element>, q: u64)
    requires
        nodes_of_seq(s).contains(q),
    ensures
        exists|j: int| 0 <= j < s.len() && nodes_of(#[trigger] s[j]).contains(q),
    decreases s,
{
    broadcast use vstd::seq_lib::lemma_seq_concat_contains_all_elements;

    assert(s.len() > 0);
    if nodes_of(s[0]).contains(q) {
        assert(nodes_of(s[0int]).contains(q));
    } else {
        assert(nodes_of_seq(s.drop_first()).contains(q));
        lemma_flat_member_nodes(s.drop_first(), q);
        let j = choose|j: int|
            0 <= j < s.drop_first().len() && nodes_of(#[trigger] s.drop_first()[j]).contains(q);
        assert(s[j + 1] == s.drop_first()[j]);
        assert(nodes_of(s[j + 1]).contains(q));
    }
}

/// A well-formed subtree is self-contained in the forest: each of its nodes
/// is live, the children recorded for its nodes are again its nodes, and its
/// widgets are live.
pub proof fn lemma_wf_self_contained(e: Element, ws: Seq<Widget>, f: Map<u64, Seq<u64>>)
    requires
        wf_elem(e, ws, f),
    ensures
        closed_under(nodes_of(e), f),
        live_widgets(widgets_of(e), ws),
    decreases e,
{
    broadcast use vstd::seq_lib::lemma_seq_concat_contains_all_elements;

    match e {
        Element::Text(_t) => {},
        Element::Flex(x) => {
            lemma_wf_self_contained_seq(x.children@, ws, f);
            let ns = nodes_of(e);
            let cs = nodes_of_seq(x.children@);
            assert(ns == seq![x.node] + cs);
            assert forall|n: u64, j: int|
                ns.contains(n) && 0 <= j < f[n].len() implies ns.contains(#[trigger] f[n][j]) by {
                if n == x.node {
                    assert(f[n][j] == child_nodes(x.children@)[j]);
                    assert(f[n][j] == node_of(x.children@[j]));
                    lemma_child_root_in_seq(x.children@, j);
                } else {
                    assert(seq![x.node].contains(n) ==> n == x.node);
                    assert(cs.contains(n));
                    assert(cs.contains(f[n][j]));
                }
            }
            assert forall|n: u64| #[trigger] ns.contains(n) implies f.dom().contains(n) by {
                if n != x.node {
                    assert(seq![x.node].contains(n) ==> n == x.node);
                    assert(cs.contains(n));
                }
            }
        },
        Element::Pressable(p) => {
            lemma_wf_self_contained(p.content, ws, f);
            assert(nodes_of(e) == nodes_of(p.content));
        },
        Element::Window(w) => {
            lemma_wf_self_contained(w.content, ws, f);
            let ns = nodes_of(e);
            let cs = nodes_of(w.content);
            assert(ns == seq![w.node] + cs);
            assert forall|n: u64, j: int|
                ns.contains(n) && 0 <= j < f[n].len() implies ns.contains(#[trigger] f[n][j]) by {
                if n == w.node {
                    assert(f[n][j] == node_of(w.content));
                    lemma_root_node_in_nodes(w.content);
                } else {
                    assert(seq![w.node].contains(n) ==> n == w.node);
                    assert(cs.contains(n));
                    assert(cs.contains(f[n][j]));
                }
            }
            assert forall|n: u64| #[trigger] ns.contains(n) implies f.dom().contains(n) by {
                if n != w.node {
                    assert(seq![w.node].contains(n) ==> n == w.node);
                    assert(cs.contains(n));
                }
            }
        },
        Element::Animate(a) => {
            lemma_wf_self_contained(a.content, ws, f);
        },
    }
}

/// The sequence form of [`lemma_wf_self_contained`].
pub proof fn lemma_wf_self_contained_seq(s: Seq<Element>, ws: Seq<Widget>, f: Map<u64, Seq<u64>>)
    requires
        forall|i: int| 0 <= i < s.len() ==> wf_elem(#[trigger] s[i], ws, f),
    ensures
        closed_under(nodes_of_seq(s), f),
        live_widgets(widgets_of_seq(s), ws),
    decreases s,
{
    broadcast use vstd::seq_lib::lemma_seq_concat_contains_all_elements;

    if s.len() > 0 {
        lemma_wf_self_contained(s[0], ws, f);
        assert(forall|i: int|
            0 <= i < s.drop_first().len() ==> wf_elem(#[trigger] s.drop_first()[i], ws, f));
        lemma_wf_self_contained_seq(s.drop_first(), ws, f);
        let n0 = nodes_of(s[0]);
        let rest = nodes_of_seq(s.drop_first());
        assert(nodes_of_seq(s) == n0 + rest);
        assert forall|n: u64, j: int|
            nodes_of_seq(s).contains(n) && 0 <= j < f[n].len() implies nodes_of_seq(s).contains(
            #[trigger] f[n][j],
        ) by {
            if n0.contains(n) {
                assert(n0.contains(f[n][j]));
            } else {
                assert(rest.contains(n));
                assert(rest.contains(f[n][j]));
            }
        }
    }
}

/// An element's own root node is among its nodes, its root widget among its
/// widgets, and its identity among its identities.
pub proof fn lemma_root_node_in_nodes(e: Element)
    ensures
        nodes_of(e).contains(node_of(e)),
        widgets_of(e).contains(widget_of(e)),
        ids_of(e).contains(id_of(e)),
        nodes_of(e).len() >= 1,
        widgets_of(e).len() >= 1,
        ids_of(e).len() >= 1,
    decreases e,
{
    match e {
        Element::Text(_) => {
            assert(nodes_of(e)[0] == node_of(e));
            assert(widgets_of(e)[0] == widget_of(e));
            assert(ids_of(e)[0] == id_of(e));
        },
        Element::Flex(_) => {
            assert(nodes_of(e)[0] == node_of(e));
            assert(widgets_of(e)[0] == widget_of(e));
            assert(ids_of(e)[0] == id_of(e));
        },
        Element::Pressable(p) => {
            lemma_root_node_in_nodes(p.content);
            let m = choose|m: int|
                0 <= m < nodes_of(p.content).len() && nodes_of(p.content)[m] == node_of(
                    p.content,
                );
            assert(nodes_of(e)[m] == node_of(e));
            assert(widgets_of(e)[0] == widget_of(e));
            assert(ids_of(e)[0] == id_of(e));
        },
        Element::Window(_) => {
            assert(nodes_of(e)[0] == node_of(e));
            assert(widgets_of(e)[0] == widget_of(e));
            assert(ids_of(e)[0] == id_of(e));
        },
        Element::Animate(a) => {
            lemma_root_node_in_nodes(a.content);
            let m = choose|m: int|
                0 <= m < nodes_of(a.content).len() && nodes_of(a.content)[m] == node_of(a.content);
            assert(nodes_of(e)[m] == node_of(e));
            let m2 = choose|m2: int|
                0 <= m2 < widgets_of(a.content).len() && widgets_of(a.content)[m2] == widget_of(
                    a.content,
                );
            assert(widgets_of(e)[m2] == widget_of(e));
            assert(ids_of(e)[0] == id_of(e));
        },
    }
}


} // verus!
