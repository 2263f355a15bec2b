//! Build, rebuild and teardown: the reconciliation engine.
//!
//! The [`Context`] owns everything the tree lifecycle touches: the widget
//! store, the layout forest, the identity allocator, the queue of messages
//! produced during passes, and the stack of windows currently driving
//! layout.  A build creates fresh elements; a rebuild converges the existing
//! elements to a new view tree position by position; a teardown releases
//! every widget and layout node of a subtree.

use vstd::prelude::*;

use crate::element::{
    child_nodes, child_widgets, dispatch_cmds, dispatch_cmds_seq, dispatch_log, dispatch_log_seq, dispatch_quit, dispatch_quit_seq, dispatch_rebuilds, dispatch_rebuilds_seq, dom_closed, elem_unique, fits, fresh_state, id_of, ids_of, ids_of_seq, kind_same, lemma_dispatch_push, lemma_flat_congruence, lemma_flat_push, lemma_no_take_no_effect, lemma_singleton, lemma_taken_not_takes, lemma_takes_in_ids, lemma_takes_in_ids_seq, lemma_wf_implies_shape, closed_under, preserves_identity, takes, takes_seq,
    lemma_child_root_in_seq, lemma_nodup_join, lemma_nodup_split, lemma_root_node_in_nodes,
    lemma_double_membership, lemma_flat_split_at, lemma_seq_parts, lemma_wf_frame, lemma_wf_frame_sized, lemma_wf_self_contained, lemma_wf_self_contained_seq,
    live_widgets, node_of, nodes_of, nodes_of_seq, separated, widget_of, widgets_of,
    widgets_of_seq, wf_elem, AnimateElement, Element, FlexElement, PressableElement, TextElement,
    WindowElement,
};
use crate::layout::{flex_style, forest_of, plain_style, text_style, LayoutTree};
use crate::message::{Action, Message, Payload, PressState, ViewId, WindowMessage};
use crate::store::{count_builds, count_teardowns, ops_extended, lemma_ops_extended_trans,
    lemma_ops_push, NodeKind, Store};
use crate::views::{
    anim_count, anim_count_seq, elem_count, elem_count_seq, lemma_anim_nonneg,
    lemma_anim_nonneg_seq, lemma_anim_parts, lemma_counts_nonneg, lemma_counts_nonneg_seq,
    lemma_view_counts_parts, widget_count, widget_count_seq, ViewTree,
};

verus! {

/// Everything a lifecycle pass reads and writes, threaded by unique
/// reference through every call: no aliasing, no locks.
pub struct Context {
    /// The platform widget backend.
    pub store: Store,
    /// The layout node forest.
    pub layout: LayoutTree,
    /// The identity allocator: monotonic, never reused.
    pub next_id: u64,
    /// Messages produced during passes, drained by the driver.
    pub pending: Vec<Message>,
    /// The windows currently driving a pass, innermost last.
    pub windows: Vec<ViewId>,
}

/// A targeted message asking a window to start its frame clock; builds may
/// queue these, and nothing else.
pub open spec fn is_start_request(m: Message) -> bool {
    &&& m.target is Some
    &&& !m.taken
    &&& m.payload == Payload::Window(WindowMessage::StartAnimating)
}

/// A targeted message asking a window to stop its frame clock; teardowns may
/// queue these, and nothing else.
pub open spec fn is_stop_request(m: Message) -> bool {
    &&& m.target is Some
    &&& !m.taken
    &&& m.payload == Payload::Window(WindowMessage::StopAnimating)
}

/// The queue `b` extends `a` with start requests only.
pub open spec fn pending_starts(a: Seq<Message>, b: Seq<Message>) -> bool {
    &&& a.is_prefix_of(b)
    &&& forall|i: int| a.len() <= i < b.len() ==> is_start_request(#[trigger] b[i])
}

/// The queue `b` extends `a` with stop requests only.
pub open spec fn pending_stops(a: Seq<Message>, b: Seq<Message>) -> bool {
    &&& a.is_prefix_of(b)
    &&& forall|i: int| a.len() <= i < b.len() ==> is_stop_request(#[trigger] b[i])
}

/// Start-only queue extension composes.
pub proof fn lemma_pending_starts_trans(a: Seq<Message>, b: Seq<Message>, c: Seq<Message>)
    requires
        pending_starts(a, b),
        pending_starts(b, c),
    ensures
        pending_starts(a, c),
{
    assert(c.subrange(0, a.len() as int) =~= b.subrange(0, a.len() as int));
    assert forall|i: int| a.len() <= i < c.len() implies is_start_request(#[trigger] c[i]) by {
        if i < b.len() {
            assert(b[i] == c.subrange(0, b.len() as int)[i]);
            assert(is_start_request(b[i]));
        }
    }
}

/// Stop-only queue extension composes.
pub proof fn lemma_pending_stops_trans(a: Seq<Message>, b: Seq<Message>, c: Seq<Message>)
    requires
        pending_stops(a, b),
        pending_stops(b, c),
    ensures
        pending_stops(a, c),
{
    assert(c.subrange(0, a.len() as int) =~= b.subrange(0, a.len() as int));
    assert forall|i: int| a.len() <= i < c.len() implies is_stop_request(#[trigger] c[i]) by {
        if i < b.len() {
            assert(b[i] == c.subrange(0, b.len() as int)[i]);
            assert(is_stop_request(b[i]));
        }
    }
}

impl Context {
    /// A fresh context: empty store, empty forest, no identities issued.
    pub fn new() -> (cx: Context)
        ensures
            cx.store.widgets@ == Seq::<crate::store::Widget>::empty(),
            cx.store.ops@ == Seq::<crate::store::Op>::empty(),
            cx.store.delivered@ == Seq::<u64>::empty(),
            forest_of(cx.layout.tree).dom() == Set::<u64>::empty(),
            cx.next_id == 0,
            cx.pending@ == Seq::<Message>::empty(),
            cx.windows@ == Seq::<ViewId>::empty(),
    {
        Context {
            store: Store::new(),
            layout: LayoutTree::new(),
            next_id: 0,
            pending: Vec::new(),
            windows: Vec::new(),
        }
    }
}

/// Allocates the next element identity.
fn alloc_id(cx: &mut Context) -> (id: ViewId)
    requires
        old(cx).next_id < u64::MAX,
    ensures
        id.0 == old(cx).next_id,
        final(cx).next_id == old(cx).next_id + 1,
        final(cx).store == old(cx).store,
        final(cx).layout == old(cx).layout,
        final(cx).pending == old(cx).pending,
        final(cx).windows == old(cx).windows,
{
    let id = ViewId(cx.next_id);
    cx.next_id = cx.next_id + 1;
    id
}

/// The widget this element presents to its parent.
pub fn root_widget(e: &Element) -> (w: usize)
    ensures
        w == widget_of(*e),
    decreases *e,
{
    match e {
        Element::Text(t) => t.widget,
        Element::Flex(f) => f.widget,
        Element::Pressable(p) => p.widget,
        Element::Window(w) => w.widget,
        Element::Animate(a) => root_widget(&a.content),
    }
}

/// The layout node this element presents to its parent.
pub fn root_node(e: &Element) -> (n: u64)
    ensures
        n == node_of(*e),
    decreases *e,
{
    match e {
        Element::Text(t) => t.node,
        Element::Flex(f) => f.node,
        Element::Pressable(p) => root_node(&p.content),
        Element::Window(w) => w.node,
        Element::Animate(a) => root_node(&a.content),
    }
}

/// Builds a fresh element tree for a view: one widget and one layout node
/// per view (none for animate wrappers), every identity newly allocated,
/// nothing that already existed touched.
#[verifier::loop_isolation(false)]
pub fn build(v: &ViewTree, cx: &mut Context) -> (e: Element)
    requires
        old(cx).next_id + elem_count(*v) <= u64::MAX,
    ensures
        fits(*v, e),
        wf_elem(e, final(cx).store.widgets@, forest_of(final(cx).layout.tree)),
        elem_unique(e),
        forall|i: u64| #[trigger] ids_of(e).contains(i) ==> old(cx).next_id <= i < final(cx).next_id,
        final(cx).next_id == old(cx).next_id + elem_count(*v),
        // the widget arena only grows; the new subtree's widgets are all new
        old(cx).store.widgets@.len() <= final(cx).store.widgets@.len(),
        forall|w: int|
            0 <= w < old(cx).store.widgets@.len() ==> final(cx).store.widgets@[w] == old(cx).store.widgets@[w],
        forall|w: usize|
            #[trigger] widgets_of(e).contains(w) ==> old(cx).store.widgets@.len() <= w < final(cx).store.widgets@.len(),
        ops_extended(old(cx).store.ops@, final(cx).store.ops@, widget_count(*v), 0),
        final(cx).store.delivered@ == old(cx).store.delivered@,
        // the forest only grows, by exactly the new subtree's nodes
        forall|n: u64|
            #[trigger] forest_of(old(cx).layout.tree).dom().contains(n) ==> forest_of(final(cx).layout.tree).dom().contains(n) && forest_of(final(cx).layout.tree)[n] == forest_of(old(cx).layout.tree)[n],
        forall|n: u64|
            #[trigger] nodes_of(e).contains(n) ==> !forest_of(old(cx).layout.tree).dom().contains(
                n,
            ),
        forall|n: u64|
            #[trigger] forest_of(final(cx).layout.tree).dom().contains(n) ==> forest_of(old(cx).layout.tree).dom().contains(n) || nodes_of(e).contains(n),
        pending_starts(old(cx).pending@, final(cx).pending@),
        final(cx).pending@.len() == old(cx).pending@.len() + anim_count(
            *v,
            old(cx).windows@.len() > 0,
        ),
        fresh_state(e),
        final(cx).windows@ == old(cx).windows@,
    decreases *v,
{
    proof {
        lemma_counts_nonneg(*v);
        lemma_anim_nonneg(*v, old(cx).windows@.len() > 0);
    }
    match v {
        ViewTree::Text(t) => {
            let id = alloc_id(cx);
            let ghost ops0 = cx.store.ops@;
            let w = cx.store.create(NodeKind::Text);
            cx.store.set_text(w, &t.text);
            cx.store.set_color(w, t.color);
            let st = text_style();
            let n = cx.layout.new_node(&st);
            let e = Element::Text(
                TextElement {
                    view_id: id,
                    widget: w,
                    node: n,
                    text: t.text.clone(),
                    color: t.color,
                    font: t.font,
                    wrap: t.wrap,
                },
            );
            proof {
                assert(nodes_of(e) == seq![n]);
                assert(widgets_of(e) == seq![w]);
                assert(ids_of(e) == seq![id.0]);
                lemma_root_node_in_nodes(e);
                assert(node_of(e) == n);
                assert(id_of(e) == id.0);
                assert forall|q: usize| #[trigger] widgets_of(e).contains(q) implies q == w by {}
                assert forall|q: u64| #[trigger] nodes_of(e).contains(q) implies q == n by {}
                assert forall|q: u64| #[trigger] ids_of(e).contains(q) implies q == id.0 by {}
                assert(ops_extended(ops0, cx.store.ops@, 1, 0)) by {
                    let o1 = ops0.push(crate::store::Op::Build(NodeKind::Text));
                    let o2 = o1.push(crate::store::Op::SetText);
                    let o3 = o2.push(crate::store::Op::SetColor);
                    lemma_ops_push(ops0, o1, crate::store::Op::Build(NodeKind::Text));
                    lemma_ops_push(o1, o2, crate::store::Op::SetText);
                    lemma_ops_push(o2, o3, crate::store::Op::SetColor);
                    lemma_ops_extended_trans(ops0, o1, o2, 1, 0, 0, 0);
                    lemma_ops_extended_trans(ops0, o2, o3, 1, 0, 0, 0);
                }
            }
            e
        },
        ViewTree::Flex(x) => {
            proof {
                lemma_counts_nonneg_seq(x.children@);
            }
            let id = alloc_id(cx);
            let ghost ops0 = cx.store.ops@;
            let w = cx.store.create(NodeKind::Group);
            cx.store.set_color(w, x.background_color);
            let st = flex_style(&x.style);
            let n = cx.layout.new_node(&st);
            proof {
                let o1 = ops0.push(crate::store::Op::Build(NodeKind::Group));
                let o2 = o1.push(crate::store::Op::SetColor);
                lemma_ops_push(ops0, o1, crate::store::Op::Build(NodeKind::Group));
                lemma_ops_push(o1, o2, crate::store::Op::SetColor);
                lemma_ops_extended_trans(ops0, o1, o2, 1, 0, 0, 0);
            }
            let ghost pre = *cx;
            let children = build_children(&x.children, w, n, cx);
            let ghost ch = children@;
            let e = Element::Flex(
                FlexElement {
                    view_id: id,
                    widget: w,
                    node: n,
                    style: x.style,
                    background_color: x.background_color,
                    children,
                },
            );
            proof {
                broadcast use vstd::seq_lib::lemma_seq_concat_contains_all_elements;

                let f0 = forest_of(old(cx).layout.tree);
                let f1 = forest_of(pre.layout.tree);
                let f2 = forest_of(cx.layout.tree);
                let ws2 = cx.store.widgets@;
                assert(nodes_of(e) == seq![n] + nodes_of_seq(ch));
                assert(widgets_of(e) == seq![w] + widgets_of_seq(ch));
                assert(ids_of(e) == seq![id.0] + ids_of_seq(ch));
                assert(fits(*v, e)) by {
                    assert(e matches Element::Flex(fe) ==> fe.children@ == ch);
                }
                assert forall|q: u64| seq![n].contains(q) implies !nodes_of_seq(ch).contains(
                    q,
                ) by {
                    assert(q == n);
                    assert(f1.dom().contains(n));
                }
                lemma_nodup_join(seq![n], nodes_of_seq(ch));
                assert forall|q: usize| seq![w].contains(q) implies !widgets_of_seq(ch).contains(
                    q,
                ) by {
                    assert(q == w);
                    assert(w < pre.store.widgets@.len());
                }
                lemma_nodup_join(seq![w], widgets_of_seq(ch));
                assert forall|q: u64| seq![id.0].contains(q) implies !ids_of_seq(ch).contains(
                    q,
                ) by {
                    assert(q == id.0);
                    assert(id.0 < pre.next_id);
                }
                lemma_nodup_join(seq![id.0], ids_of_seq(ch));
                assert(wf_elem(e, ws2, f2)) by {
                    assert(ws2[w as int].children@ == child_widgets(ch));
                    assert(crate::store::keeps_but_children(
                        pre.store.widgets@[w as int],
                        ws2[w as int],
                    ));
                    assert(f2[n] == child_nodes(ch));
                }
                assert(elem_count(*v) == 1 + elem_count_seq(x.children@));
                assert(widget_count(*v) == 1 + widget_count_seq(x.children@));
                lemma_ops_extended_trans(
                    old(cx).store.ops@,
                    pre.store.ops@,
                    cx.store.ops@,
                    1,
                    0,
                    widget_count_seq(x.children@),
                    0,
                );
                assert forall|q: u64| #[trigger] nodes_of(e).contains(q) implies !f0.dom()
                    .contains(q) by {
                    if q != n {
                        assert(nodes_of_seq(ch).contains(q));
                        assert(!f1.dom().contains(q));
                    }
                }
                assert forall|q: u64| #[trigger] f2.dom().contains(q) implies f0.dom().contains(
                    q,
                ) || nodes_of(e).contains(q) by {
                    if !f1.dom().contains(q) {
                        assert(nodes_of_seq(ch).contains(q));
                    } else if !f0.dom().contains(q) {
                        assert(q == n);
                        assert(nodes_of(e)[0] == n);
                    }
                }
                assert forall|q: u64| #[trigger] f0.dom().contains(q) implies f2.dom().contains(
                    q,
                ) && f2[q] == f0[q] by {
                    assert(q != n);
                    assert(f1.dom().contains(q) && f1[q] == f0[q]);
                }
            }
            e
        },
        ViewTree::Pressable(p) => {
            proof {
                lemma_counts_nonneg(p.content);
            }
            let id = alloc_id(cx);
            let content = build(&p.content, cx);
            let ghost mid = *cx;
            let ghost ops0 = cx.store.ops@;
            let w = cx.store.create(NodeKind::Pressable);
            let cw = root_widget(&content);
            cx.store.insert_child(w, 0, cw);
            // no layout node of its own: the region shares its content's
            // node, as the original's pressable does
            let e = Element::Pressable(
                Box::new(
                    PressableElement {
                        view_id: id,
                        widget: w,
                        press: PressState::idle(),
                        on_press: p.on_press,
                        on_hover: p.on_hover,
                        on_focus: p.on_focus,
                        content,
                    },
                ),
            );
            proof {
                broadcast use vstd::seq_lib::lemma_seq_concat_contains_all_elements;

                let f2 = forest_of(cx.layout.tree);
                let ws2 = cx.store.widgets@;
                assert(nodes_of(e) == nodes_of(content));
                assert(widgets_of(e) == seq![w] + widgets_of(content));
                assert(ids_of(e) == seq![id.0] + ids_of(content));
                assert forall|q: usize| seq![w].contains(q) implies !widgets_of(content).contains(
                    q,
                ) by {
                    assert(q == w);
                    if widgets_of(content).contains(w) {
                        assert(w < mid.store.widgets@.len());
                    }
                }
                lemma_nodup_join(seq![w], widgets_of(content));
                assert forall|q: u64| seq![id.0].contains(q) implies !ids_of(content).contains(
                    q,
                ) by {
                    assert(q == id.0);
                }
                lemma_nodup_join(seq![id.0], ids_of(content));
                assert(Seq::<usize>::empty().insert(0, widget_of(content)) =~= seq![
                    widget_of(content),
                ]);
                assert(wf_elem(content, ws2, f2)) by {
                    lemma_wf_self_contained(
                        content,
                        mid.store.widgets@,
                        forest_of(mid.layout.tree),
                    );
                    assert forall|q: usize| #[trigger] widgets_of(content).contains(q) implies q
                        < ws2.len() && ws2[q as int] == mid.store.widgets@[q as int] by {
                        assert(q < mid.store.widgets@.len());
                        assert(q != w);
                    }
                    assert forall|q: u64| #[trigger] nodes_of(content).contains(q) implies f2.dom()
                        .contains(q) && f2[q] == forest_of(mid.layout.tree)[q] by {
                        assert(f2 == forest_of(mid.layout.tree));
                    }
                    lemma_wf_frame(
                        content,
                        mid.store.widgets@,
                        forest_of(mid.layout.tree),
                        ws2,
                        f2,
                    );
                }
                assert(ops_extended(ops0, cx.store.ops@, 1, 0)) by {
                    let o1 = ops0.push(crate::store::Op::Build(NodeKind::Pressable));
                    let o2 = o1.push(crate::store::Op::InsertChild);
                    lemma_ops_push(ops0, o1, crate::store::Op::Build(NodeKind::Pressable));
                    lemma_ops_push(o1, o2, crate::store::Op::InsertChild);
                    lemma_ops_extended_trans(ops0, o1, o2, 1, 0, 0, 0);
                }
                lemma_ops_extended_trans(
                    old(cx).store.ops@,
                    ops0,
                    cx.store.ops@,
                    widget_count(p.content),
                    0,
                    1,
                    0,
                );
            }
            e
        },
        ViewTree::Window(win) => {
            proof {
                lemma_counts_nonneg(win.content);
            }
            let id = alloc_id(cx);
            cx.windows.push(id);
            let content = build(&win.content, cx);
            let popped = cx.windows.pop();
            proof {
                assert(cx.windows@ =~= old(cx).windows@);
            }
            let ghost mid = *cx;
            let ghost ops0 = cx.store.ops@;
            let w = cx.store.create(NodeKind::Window);
            let cw = root_widget(&content);
            cx.store.insert_child(w, 0, cw);
            cx.store.set_resizable(w, matches!(win.sizing, crate::style::WindowSizing::User));
            cx.store.set_layer_shell(w, win.layer_shell);
            let st = plain_style();
            let n = cx.layout.new_node(&st);
            let cn = root_node(&content);
            proof {
                lemma_wf_self_contained(
                    content,
                    mid.store.widgets@,
                    forest_of(mid.layout.tree),
                );
                lemma_root_node_in_nodes(content);
            }
            cx.layout.insert_child(n, 0, cn);
            let e = Element::Window(
                Box::new(
                    WindowElement {
                        view_id: id,
                        widget: w,
                        node: n,
                        sizing: win.sizing,
                        layer_shell: win.layer_shell,
                        width: 0,
                        height: 0,
                        animating: 0,
                        content,
                    },
                ),
            );
            proof {
                broadcast use vstd::seq_lib::lemma_seq_concat_contains_all_elements;

                let f0 = forest_of(old(cx).layout.tree);
                let fm = forest_of(mid.layout.tree);
                let f2 = forest_of(cx.layout.tree);
                let ws2 = cx.store.widgets@;
                assert(nodes_of(e) == seq![n] + nodes_of(content));
                assert(widgets_of(e) == seq![w] + widgets_of(content));
                assert(ids_of(e) == seq![id.0] + ids_of(content));
                assert forall|q: u64| seq![n].contains(q) implies !nodes_of(content).contains(
                    q,
                ) by {
                    assert(q == n);
                    assert(fm.dom().contains(n) == false || true);
                    if nodes_of(content).contains(n) {
                        assert(fm.dom().contains(n));
                    }
                }
                lemma_nodup_join(seq![n], nodes_of(content));
                assert forall|q: usize| seq![w].contains(q) implies !widgets_of(content).contains(
                    q,
                ) by {
                    assert(q == w);
                    if widgets_of(content).contains(w) {
                        assert(w < mid.store.widgets@.len());
                    }
                }
                lemma_nodup_join(seq![w], widgets_of(content));
                assert forall|q: u64| seq![id.0].contains(q) implies !ids_of(content).contains(
                    q,
                ) by {
                    assert(q == id.0);
                }
                lemma_nodup_join(seq![id.0], ids_of(content));
                assert(Seq::<u64>::empty().insert(0, node_of(content)) =~= seq![
                    node_of(content),
                ]);
                assert(Seq::<usize>::empty().insert(0, widget_of(content)) =~= seq![
                    widget_of(content),
                ]);
                assert(wf_elem(content, ws2, f2)) by {
                    assert forall|q: usize| #[trigger] widgets_of(content).contains(q) implies q
                        < ws2.len() && ws2[q as int] == mid.store.widgets@[q as int] by {
                        assert(q < mid.store.widgets@.len());
                        assert(q != w);
                    }
                    assert forall|q: u64| #[trigger] nodes_of(content).contains(q) implies f2.dom()
                        .contains(q) && f2[q] == fm[q] by {
                        assert(fm.dom().contains(q));
                        assert(q != n);
                    }
                    lemma_wf_frame(content, mid.store.widgets@, fm, ws2, f2);
                }
                assert(ops_extended(ops0, cx.store.ops@, 1, 0)) by {
                    let o1 = ops0.push(crate::store::Op::Build(NodeKind::Window));
                    let o2 = o1.push(crate::store::Op::InsertChild);
                    lemma_ops_push(ops0, o1, crate::store::Op::Build(NodeKind::Window));
                    lemma_ops_push(o1, o2, crate::store::Op::InsertChild);
                    lemma_ops_extended_trans(ops0, o1, o2, 1, 0, 0, 0);
                    let o3 = o2.push(crate::store::Op::SetResizable);
                    lemma_ops_push(o2, o3, crate::store::Op::SetResizable);
                    lemma_ops_extended_trans(ops0, o2, o3, 1, 0, 0, 0);
                    let o4 = o3.push(crate::store::Op::SetLayerShell);
                    lemma_ops_push(o3, o4, crate::store::Op::SetLayerShell);
                    lemma_ops_extended_trans(ops0, o3, o4, 1, 0, 0, 0);
                }
                lemma_ops_extended_trans(
                    old(cx).store.ops@,
                    ops0,
                    cx.store.ops@,
                    widget_count(win.content),
                    0,
                    1,
                    0,
                );
                assert forall|q: u64| #[trigger] nodes_of(e).contains(q) implies !f0.dom()
                    .contains(q) by {
                    if q != n {
                        assert(nodes_of(content).contains(q));
                    } else {
                        if f0.dom().contains(n) {
                            assert(fm.dom().contains(n));
                        }
                    }
                }
                assert forall|q: u64| #[trigger] f2.dom().contains(q) implies f0.dom().contains(
                    q,
                ) || nodes_of(e).contains(q) by {
                    if fm.dom().contains(q) {
                        if !f0.dom().contains(q) {
                            assert(nodes_of(content).contains(q));
                        }
                    } else {
                        assert(q == n);
                        assert(nodes_of(e)[0] == n);
                    }
                }
                assert forall|q: u64| #[trigger] f0.dom().contains(q) implies f2.dom().contains(
                    q,
                ) && f2[q] == f0[q] by {
                    assert(fm.dom().contains(q) && fm[q] == f0[q]);
                    if q == n {
                        assert(!fm.dom().contains(n));
                        assert(false);
                    }
                }
            }
            e
        },
        ViewTree::Animate(a) => {
            proof {
                lemma_counts_nonneg(a.content);
            }
            let id = alloc_id(cx);
            if a.animating {
                if cx.windows.len() > 0 {
                    let wid = cx.windows[cx.windows.len() - 1];
                    let m = Message::new(Payload::Window(WindowMessage::StartAnimating), wid);
                    cx.pending.push(m);
                    proof {
                        assert(cx.pending@.subrange(0, old(cx).pending@.len() as int) =~= old(cx).pending@);
                    }
                }
            }
            let ghost mid = *cx;
            let content = build(&a.content, cx);
            let e = Element::Animate(
                Box::new(
                    AnimateElement {
                        view_id: id,
                        animating: a.animating,
                        on_frame: a.on_frame,
                        content,
                    },
                ),
            );
            proof {
                assert(nodes_of(e) == nodes_of(content));
                assert(widgets_of(e) == widgets_of(content));
                assert(ids_of(e) == seq![id.0] + ids_of(content));
                assert(ids_of(content).no_duplicates());
                assert forall|q: u64| seq![id.0].contains(q) implies !ids_of(content).contains(
                    q,
                ) by {
                    assert(q == id.0);
                }
                lemma_nodup_join(seq![id.0], ids_of(content));
                lemma_pending_starts_trans(old(cx).pending@, mid.pending@, cx.pending@);
                broadcast use vstd::seq_lib::lemma_seq_concat_contains_all_elements;

                assert forall|q: u64| #[trigger] ids_of(e).contains(q) implies old(cx).next_id
                    <= q < cx.next_id by {
                    if q != id.0 {
                        assert(ids_of(content).contains(q));
                    }
                }
            }
            e
        },
    }
}

/// Builds each child view in order and attaches it to the parent group's
/// widget and layout node at its index.
#[verifier::loop_isolation(false)]
fn build_children(vs: &Vec<ViewTree>, pw: usize, pn: u64, cx: &mut Context) -> (out: Vec<Element>)
    requires
        old(cx).next_id + elem_count_seq(vs@) <= u64::MAX,
        pw < old(cx).store.widgets@.len(),
        old(cx).store.widgets@[pw as int].children@ == Seq::<usize>::empty(),
        forest_of(old(cx).layout.tree).dom().contains(pn),
        forest_of(old(cx).layout.tree)[pn] == Seq::<u64>::empty(),
    ensures
        out@.len() == vs@.len(),
        forall|j: int| 0 <= j < vs@.len() ==> fits(#[trigger] vs@[j], out@[j]),
        forall|j: int|
            0 <= j < out@.len() ==> wf_elem(
                #[trigger] out@[j],
                final(cx).store.widgets@,
                forest_of(final(cx).layout.tree),
            ),
        nodes_of_seq(out@).no_duplicates(),
        widgets_of_seq(out@).no_duplicates(),
        ids_of_seq(out@).no_duplicates(),
        forall|i: u64|
            #[trigger] ids_of_seq(out@).contains(i) ==> old(cx).next_id <= i < final(cx).next_id,
        final(cx).next_id == old(cx).next_id + elem_count_seq(vs@),
        old(cx).store.widgets@.len() <= final(cx).store.widgets@.len(),
        forall|w: int|
            0 <= w < old(cx).store.widgets@.len() && w != pw ==> final(cx).store.widgets@[w] == old(cx).store.widgets@[w],
        crate::store::keeps_but_children(
            old(cx).store.widgets@[pw as int],
            final(cx).store.widgets@[pw as int],
        ),
        final(cx).store.widgets@[pw as int].children@ == child_widgets(out@),
        forall|w: usize|
            #[trigger] widgets_of_seq(out@).contains(w) ==> old(cx).store.widgets@.len() <= w
                < final(cx).store.widgets@.len(),
        ops_extended(old(cx).store.ops@, final(cx).store.ops@, widget_count_seq(vs@), 0),
        final(cx).store.delivered@ == old(cx).store.delivered@,
        forall|n: u64|
            #[trigger] forest_of(old(cx).layout.tree).dom().contains(n) && n != pn ==> forest_of(final(cx).layout.tree).dom().contains(n) && forest_of(final(cx).layout.tree)[n] == forest_of(old(cx).layout.tree)[n],
        forest_of(final(cx).layout.tree).dom().contains(pn),
        forest_of(final(cx).layout.tree)[pn] == child_nodes(out@),
        forall|n: u64|
            #[trigger] nodes_of_seq(out@).contains(n) ==> !forest_of(old(cx).layout.tree).dom().contains(n),
        forall|n: u64|
            #[trigger] forest_of(final(cx).layout.tree).dom().contains(n) ==> forest_of(old(cx).layout.tree).dom().contains(n) || nodes_of_seq(out@).contains(n),
        pending_starts(old(cx).pending@, final(cx).pending@),
        final(cx).pending@.len() == old(cx).pending@.len() + anim_count_seq(
            vs@,
            old(cx).windows@.len() > 0,
        ),
        forall|j: int| 0 <= j < out@.len() ==> fresh_state(#[trigger] out@[j]),
        final(cx).windows@ == old(cx).windows@,
    decreases vs@,
{
    let mut out: Vec<Element> = Vec::new();
    let mut i: usize = 0;
    proof {
        assert(vs@.take(0) =~= Seq::<ViewTree>::empty());
        assert(vs@.skip(0) =~= vs@);
        assert(child_nodes(out@) =~= Seq::<u64>::empty());
        assert(child_widgets(out@) =~= Seq::<usize>::empty());
    }
    while i < vs.len()
        invariant
            0 <= i <= vs@.len(),
            out@.len() == i,
            cx.next_id == old(cx).next_id + elem_count_seq(vs@.take(i as int)),
            cx.next_id + elem_count_seq(vs@.skip(i as int)) <= u64::MAX,
            forall|j: int| 0 <= j < i ==> fits(#[trigger] vs@[j], out@[j]),
            forall|j: int|
                0 <= j < i ==> wf_elem(
                    #[trigger] out@[j],
                    cx.store.widgets@,
                    forest_of(cx.layout.tree),
                ),
            nodes_of_seq(out@).no_duplicates(),
            widgets_of_seq(out@).no_duplicates(),
            ids_of_seq(out@).no_duplicates(),
            forall|q: u64|
                #[trigger] ids_of_seq(out@).contains(q) ==> old(cx).next_id <= q < cx.next_id,
            old(cx).store.widgets@.len() <= cx.store.widgets@.len(),
            forall|w: int|
                0 <= w < old(cx).store.widgets@.len() && w != pw ==> cx.store.widgets@[w] == old(cx).store.widgets@[w],
            crate::store::keeps_but_children(
                old(cx).store.widgets@[pw as int],
                cx.store.widgets@[pw as int],
            ),
            cx.store.widgets@[pw as int].children@ == child_widgets(out@),
            forall|w: usize|
                #[trigger] widgets_of_seq(out@).contains(w) ==> old(cx).store.widgets@.len() <= w
                    < cx.store.widgets@.len(),
            ops_extended(
                old(cx).store.ops@,
                cx.store.ops@,
                widget_count_seq(vs@.take(i as int)),
                0,
            ),
            cx.store.delivered@ == old(cx).store.delivered@,
            forall|n: u64|
                #[trigger] forest_of(old(cx).layout.tree).dom().contains(n) && n != pn
                    ==> forest_of(cx.layout.tree).dom().contains(n) && forest_of(
                    cx.layout.tree,
                )[n] == forest_of(old(cx).layout.tree)[n],
            forest_of(cx.layout.tree).dom().contains(pn),
            forest_of(cx.layout.tree)[pn] == child_nodes(out@),
            forall|n: u64|
                #[trigger] nodes_of_seq(out@).contains(n) ==> !forest_of(old(cx).layout.tree).dom().contains(n),
            forall|n: u64|
                #[trigger] forest_of(cx.layout.tree).dom().contains(n) ==> forest_of(old(cx).layout.tree).dom().contains(n) || nodes_of_seq(out@).contains(n),
            pending_starts(old(cx).pending@, cx.pending@),
            cx.pending@.len() == old(cx).pending@.len() + anim_count_seq(
                vs@.take(i as int),
                old(cx).windows@.len() > 0,
            ),
            forall|j: int| 0 <= j < out@.len() ==> fresh_state(#[trigger] out@[j]),
            cx.windows@ == old(cx).windows@,
        decreases vs@.len() - i,
    {
        proof {
            lemma_view_counts_parts(vs@, i as int);
            assert(vs@.skip(i as int)[0] == vs@[i as int]);
            assert(vs@.skip(i as int).drop_first() =~= vs@.skip(i as int + 1));
            assert(elem_count_seq(vs@.skip(i as int)) == elem_count(vs@[i as int])
                + elem_count_seq(vs@.skip(i as int + 1)));
            lemma_counts_nonneg(vs@[i as int]);
            lemma_counts_nonneg_seq(vs@.skip(i as int + 1));
        }
        let ghost pre = *cx;
        let ghost out_pre = out@;
        let c = build(&vs[i], cx);
        let ghost mid = *cx;
        let cw = root_widget(&c);
        let cn = root_node(&c);
        proof {
            lemma_wf_self_contained(c, mid.store.widgets@, forest_of(mid.layout.tree));
            lemma_root_node_in_nodes(c);
            // the parent widget and node survived the build untouched
            assert(mid.store.widgets@[pw as int] == pre.store.widgets@[pw as int]);
            assert(forest_of(mid.layout.tree)[pn] == forest_of(pre.layout.tree)[pn]);
        }
        cx.store.insert_child(pw, i, cw);
        cx.layout.insert_child(pn, i, cn);
        proof {
            lemma_ops_push(
                mid.store.ops@,
                cx.store.ops@,
                crate::store::Op::InsertChild,
            );
        }
        out.push(c);
        proof {
            let ws2 = cx.store.widgets@;
            let f2 = forest_of(cx.layout.tree);
            // earlier children and the new one stay well-formed: their own
            // widgets and nodes were not touched by the attach
            assert forall|j: int| 0 <= j < out@.len() implies wf_elem(
                #[trigger] out@[j],
                ws2,
                f2,
            ) by {
                if j < out_pre.len() {
                    lemma_wf_self_contained(
                        out_pre[j],
                        pre.store.widgets@,
                        forest_of(pre.layout.tree),
                    );
                    assert forall|w: usize| #[trigger] widgets_of(out_pre[j]).contains(w)
                        implies w < ws2.len() && ws2[w as int] == pre.store.widgets@[w as int] by {
                        lemma_child_root_in_seq(out_pre, j);
                        assert(widgets_of_seq(out_pre).contains(w)) by {
                            lemma_seq_parts(out_pre, j);
                            broadcast use vstd::seq_lib::lemma_seq_concat_contains_all_elements;

                        }
                        assert(w != pw);
                    }
                    assert forall|n: u64| #[trigger] nodes_of(out_pre[j]).contains(n)
                        implies f2.dom().contains(n) && f2[n] == forest_of(
                        pre.layout.tree,
                    )[n] by {
                        assert(nodes_of_seq(out_pre).contains(n)) by {
                            lemma_seq_parts(out_pre, j);
                            broadcast use vstd::seq_lib::lemma_seq_concat_contains_all_elements;

                        }
                        assert(forest_of(pre.layout.tree).dom().contains(n));
                        assert(n != pn);
                    }
                    lemma_wf_frame(
                        out_pre[j],
                        pre.store.widgets@,
                        forest_of(pre.layout.tree),
                        ws2,
                        f2,
                    );
                    assert(out@[j] == out_pre[j]);
                } else {
                    assert(out@[j] == c);
                    assert forall|w: usize| #[trigger] widgets_of(c).contains(w) implies w
                        < ws2.len() && ws2[w as int] == mid.store.widgets@[w as int] by {
                        assert(w != pw);
                    }
                    assert forall|n: u64| #[trigger] nodes_of(c).contains(n) implies f2.dom()
                        .contains(n) && f2[n] == forest_of(mid.layout.tree)[n] by {
                        assert(forest_of(mid.layout.tree).dom().contains(n));
                        assert(n != pn);
                    }
                    lemma_wf_frame(
                        c,
                        mid.store.widgets@,
                        forest_of(mid.layout.tree),
                        ws2,
                        f2,
                    );
                }
            }
            // flattened sequences extend by the new child's
            assert(out@ =~= out_pre.push(c));
            assert(out@.drop_last() =~= out_pre);
            lemma_flat_push(out_pre, c);
            // uniqueness of the joins
            broadcast use vstd::seq_lib::lemma_seq_concat_contains_all_elements;

            assert forall|q: u64| nodes_of_seq(out_pre).contains(q) implies !nodes_of(c).contains(
                q,
            ) by {
                // q is a node of an earlier child, hence live before this
                // build, while the new child's nodes were fresh
                crate::element::lemma_flat_member_nodes(out_pre, q);
                let j = choose|j: int|
                    0 <= j < out_pre.len() && nodes_of(#[trigger] out_pre[j]).contains(q);
                lemma_wf_self_contained(
                    out_pre[j],
                    pre.store.widgets@,
                    forest_of(pre.layout.tree),
                );
                lemma_root_node_in_nodes(out_pre[j]);
                assert(forest_of(pre.layout.tree).dom().contains(q));
            }
            lemma_nodup_join(nodes_of_seq(out_pre), nodes_of(c));
            assert forall|q: usize| widgets_of_seq(out_pre).contains(q) implies !widgets_of(
                c,
            ).contains(q) by {
                assert(q < pre.store.widgets@.len());
            }
            lemma_nodup_join(widgets_of_seq(out_pre), widgets_of(c));
            assert forall|q: u64| ids_of_seq(out_pre).contains(q) implies !ids_of(c).contains(
                q,
            ) by {
                assert(q < pre.next_id);
            }
            lemma_nodup_join(ids_of_seq(out_pre), ids_of(c));
            lemma_counts_nonneg_seq(vs@.take(i as int));
            assert forall|q: u64| #[trigger] ids_of_seq(out@).contains(q) implies old(cx).next_id <= q < cx.next_id by {
                if ids_of_seq(out_pre).contains(q) {
                } else {
                    assert(ids_of(c).contains(q));
                }
            }
            // counts
            assert(vs@.take(i as int + 1).drop_last() =~= vs@.take(i as int));
            assert(vs@.take(i as int + 1).last() == vs@[i as int]);
            assert(elem_count_seq(vs@.take(i as int + 1)) == elem_count_seq(vs@.take(i as int))
                + elem_count(vs@[i as int])) by {
                lemma_view_counts_parts(vs@.take(i as int + 1), i as int);
                assert(vs@.take(i as int + 1).take(i as int) =~= vs@.take(i as int));
                assert(vs@.take(i as int + 1).skip(i as int + 1) =~= Seq::<ViewTree>::empty());
            }
            assert(widget_count_seq(vs@.take(i as int + 1)) == widget_count_seq(
                vs@.take(i as int),
            ) + widget_count(vs@[i as int])) by {
                lemma_view_counts_parts(vs@.take(i as int + 1), i as int);
                assert(vs@.take(i as int + 1).take(i as int) =~= vs@.take(i as int));
                assert(vs@.take(i as int + 1).skip(i as int + 1) =~= Seq::<ViewTree>::empty());
            }
            assert(anim_count_seq(vs@.take(i as int + 1), old(cx).windows@.len() > 0)
                == anim_count_seq(vs@.take(i as int), old(cx).windows@.len() > 0) + anim_count(
                vs@[i as int],
                old(cx).windows@.len() > 0,
            )) by {
                lemma_anim_parts(vs@.take(i as int + 1), i as int, old(cx).windows@.len() > 0);
                assert(vs@.take(i as int + 1).take(i as int) =~= vs@.take(i as int));
                assert(vs@.take(i as int + 1).skip(i as int + 1) =~= Seq::<ViewTree>::empty());
                assert(anim_count_seq(Seq::<ViewTree>::empty(), old(cx).windows@.len() > 0)
                    == 0);
                assert(vs@.take(i as int + 1)[i as int] == vs@[i as int]);
            }
            lemma_ops_extended_trans(
                old(cx).store.ops@,
                pre.store.ops@,
                cx.store.ops@,
                widget_count_seq(vs@.take(i as int)),
                0,
                widget_count(vs@[i as int]),
                0,
            );
            lemma_pending_starts_trans(old(cx).pending@, pre.pending@, cx.pending@);
            // parent lists grew by exactly the new child at the tail
            assert(cx.store.widgets@[pw as int].children@ =~= child_widgets(out@)) by {
                assert(child_widgets(out@) =~= child_widgets(out_pre).push(widget_of(c)));
            }
            assert(forest_of(cx.layout.tree)[pn] =~= child_nodes(out@)) by {
                assert(child_nodes(out@) =~= child_nodes(out_pre).push(node_of(c)));
            }
        }
        i = i + 1;
    }
    proof {
        assert(vs@.take(vs@.len() as int) =~= vs@);
    }
    out
}

/// Tears a subtree down: detaches and destroys every platform widget, and
/// removes every layout node, children first.  The caller detaches the
/// subtree beforehand: no surviving node's children may still hold any of
/// its nodes.
#[verifier::rlimit(80)]
#[verifier::loop_isolation(false)]
pub fn teardown(e: Element, cx: &mut Context)
    requires
        wf_elem(e, old(cx).store.widgets@, forest_of(old(cx).layout.tree)),
        elem_unique(e),
        separated(nodes_of(e), forest_of(old(cx).layout.tree)),
    ensures
        // exactly the subtree's nodes leave the forest; all other entries stay
        forall|q: u64|
            #![trigger forest_of(final(cx).layout.tree).dom().contains(q)]
            #![trigger forest_of(old(cx).layout.tree).dom().contains(q)]
            forest_of(final(cx).layout.tree).dom().contains(q) <==> (forest_of(
                old(cx).layout.tree,
            ).dom().contains(q) && !nodes_of(e).contains(q)),
        forall|q: u64|
            #[trigger] forest_of(final(cx).layout.tree).dom().contains(q) ==> forest_of(
                final(cx).layout.tree,
            )[q] == forest_of(old(cx).layout.tree)[q],
        // exactly the subtree's widgets die; all other widgets stay untouched
        final(cx).store.widgets@.len() == old(cx).store.widgets@.len(),
        forall|wi: usize|
            wi < old(cx).store.widgets@.len() && !widgets_of(e).contains(wi) ==> final(cx).store.widgets@[wi as int] == old(cx).store.widgets@[wi as int],
        forall|wi: usize|
            wi < old(cx).store.widgets@.len() && #[trigger] widgets_of(e).contains(wi) ==> !final(cx).store.widgets@[wi as int].alive,
        ops_extended(old(cx).store.ops@, final(cx).store.ops@, 0, widgets_of(e).len() as int),
        // the subtree's own widget is destroyed last: children go first
        final(cx).store.ops@.len() > 0 && final(cx).store.ops@.last()
            == crate::store::Op::Teardown(widget_of(e)),
        final(cx).store.delivered@ == old(cx).store.delivered@,
        final(cx).next_id == old(cx).next_id,
        pending_stops(old(cx).pending@, final(cx).pending@),
        final(cx).windows@ == old(cx).windows@,
    decreases e, 1int,
{
    match e {
        Element::Text(t) => {
            cx.store.destroy(t.widget);
            cx.layout.remove_node(t.node);
            proof {
                lemma_ops_push(old(cx).store.ops@, cx.store.ops@, crate::store::Op::Teardown(t.widget));
                assert(widgets_of(e) == seq![t.widget]);
                assert(nodes_of(e) == seq![t.node]);
                lemma_root_node_in_nodes(e);
                assert forall|q: usize| #[trigger] widgets_of(e).contains(q) implies q
                    == t.widget by {}
                assert forall|q: u64| #[trigger] nodes_of(e).contains(q) implies q == t.node by {}
                assert forall|q: u64|
                    #[trigger] forest_of(cx.layout.tree).dom().contains(q) implies forest_of(
                    cx.layout.tree,
                )[q] == forest_of(old(cx).layout.tree)[q] by {
                    let f0 = forest_of(old(cx).layout.tree);
                    assert(q != t.node);
                    assert(!nodes_of(e).contains(q));
                    assert forall|j: int| 0 <= j < f0[q].len() implies f0[q][j] != t.node by {
                        assert(!nodes_of(e).contains(f0[q][j]));
                    }
                    assert(!f0[q].contains(t.node));
                }
            }
        },
        Element::Flex(x) => {
            proof {
                assert(e == Element::Flex(x));
            }
            teardown_flex(x, Ghost(e), cx);
        },
        Element::Pressable(p) => {
            // the region shares its content's layout node: detach the
            // content widget, tear the content down (which removes that
            // node), then destroy the region's own widget
            let pe = *p;
            proof {
                broadcast use vstd::seq_lib::lemma_seq_concat_contains_all_elements;

                assert(nodes_of(e) == nodes_of(pe.content));
                assert(widgets_of(e) == seq![pe.widget] + widgets_of(pe.content));
                assert(ids_of(e) == seq![pe.view_id.0] + ids_of(pe.content));
                lemma_nodup_split(seq![pe.view_id.0], ids_of(pe.content));
                lemma_nodup_split(seq![pe.widget], widgets_of(pe.content));
                lemma_singleton(pe.widget);
                assert(decreases_to!(e => pe.content));
            }
            let ghost e0 = *cx;
            cx.store.remove_child(pe.widget, 0);
            proof {
                broadcast use vstd::seq_lib::lemma_seq_concat_contains_all_elements;

                lemma_ops_push(e0.store.ops@, cx.store.ops@, crate::store::Op::RemoveChild);
                let ws1 = cx.store.widgets@;
                let f1 = forest_of(cx.layout.tree);
                lemma_wf_self_contained(
                    pe.content,
                    e0.store.widgets@,
                    forest_of(e0.layout.tree),
                );
                assert forall|q: usize| #[trigger] widgets_of(pe.content).contains(q) implies q
                    < ws1.len() && ws1[q as int] == e0.store.widgets@[q as int] by {
                    assert(q != pe.widget);
                }
                lemma_wf_frame(
                    pe.content,
                    e0.store.widgets@,
                    forest_of(e0.layout.tree),
                    ws1,
                    f1,
                );
                assert(elem_unique(pe.content));
                assert(separated(nodes_of(pe.content), f1));
            }
            let ghost mid = *cx;
            teardown(pe.content, cx);
            let ghost after = *cx;
            cx.store.destroy(pe.widget);
            proof {
                broadcast use vstd::seq_lib::lemma_seq_concat_contains_all_elements;

                lemma_ops_push(after.store.ops@, cx.store.ops@, crate::store::Op::Teardown(pe.widget));
                lemma_ops_extended_trans(
                    e0.store.ops@,
                    mid.store.ops@,
                    after.store.ops@,
                    0,
                    0,
                    0,
                    widgets_of(pe.content).len() as int,
                );
                lemma_ops_extended_trans(
                    e0.store.ops@,
                    after.store.ops@,
                    cx.store.ops@,
                    0,
                    widgets_of(pe.content).len() as int,
                    0,
                    1,
                );
                assert(widgets_of(e).len() == 1 + widgets_of(pe.content).len());
                lemma_pending_stops_trans(e0.pending@, mid.pending@, cx.pending@);
                // widget accounting
                assert forall|wi: usize|
                    wi < e0.store.widgets@.len() && #[trigger] widgets_of(e).contains(wi)
                        implies !cx.store.widgets@[wi as int].alive by {
                    if widgets_of(pe.content).contains(wi) {
                        assert(wi != pe.widget);
                        assert(!after.store.widgets@[wi as int].alive);
                    } else {
                        assert(wi == pe.widget);
                    }
                }
                assert forall|wi: usize|
                    wi < e0.store.widgets@.len() && !widgets_of(e).contains(wi)
                        implies cx.store.widgets@[wi as int] == e0.store.widgets@[wi as int] by {
                    assert(widgets_of(e)[0] == pe.widget);
                    assert(wi != pe.widget);
                    assert(!widgets_of(pe.content).contains(wi));
                }
            }
        },
        Element::Window(w) => {
            let we = *w;
            proof {
                assert(nodes_of(e) == seq![we.node] + nodes_of(we.content));
                assert(widgets_of(e) == seq![we.widget] + widgets_of(we.content));
                assert(ids_of(e) == seq![we.view_id.0] + ids_of(we.content));
                lemma_nodup_split(seq![we.view_id.0], ids_of(we.content));
                assert(decreases_to!(e => we.content));
            }
            cx.windows.push(we.view_id);
            let ghost pushed = *cx;
            teardown_wrapped(we.widget, we.node, we.content, Ghost(e), cx);
            let popped = cx.windows.pop();
            proof {
                assert(cx.windows@ =~= old(cx).windows@);
            }
        },
        Element::Animate(a) => {
            let ae = *a;
            if ae.animating {
                if cx.windows.len() > 0 {
                    let wid = cx.windows[cx.windows.len() - 1];
                    let m = Message::new(Payload::Window(WindowMessage::StopAnimating), wid);
                    cx.pending.push(m);
                    proof {
                        assert(cx.pending@.subrange(0, old(cx).pending@.len() as int) =~= old(cx).pending@);
                    }
                }
            }
            proof {
                assert(nodes_of(e) == nodes_of(ae.content));
                assert(widgets_of(e) == widgets_of(ae.content));
                assert(ids_of(e) == seq![ae.view_id.0] + ids_of(ae.content));
                lemma_nodup_split(seq![ae.view_id.0], ids_of(ae.content));
                assert(elem_unique(ae.content));
            }
            let ghost mid = *cx;
            teardown(ae.content, cx);
            proof {
                assert(nodes_of(e) == nodes_of(ae.content));
                assert(widgets_of(e) == widgets_of(ae.content));
                lemma_pending_stops_trans(old(cx).pending@, mid.pending@, cx.pending@);
            }
        },
    }
}

/// The teardown of a window: detach the content from the window's widget
/// and root node, tear the content down, then destroy the window itself
/// and remove its node.
#[verifier::rlimit(80)]
fn teardown_wrapped(
    widget: usize,
    node: u64,
    content: Element,
    Ghost(e): Ghost<Element>,
    cx: &mut Context,
)
    requires
        nodes_of(e) == seq![node] + nodes_of(content),
        widgets_of(e) == seq![widget] + widgets_of(content),
        widget_of(e) == widget,
        wf_elem(content, old(cx).store.widgets@, forest_of(old(cx).layout.tree)),
        elem_unique(e),
        ids_of(content).no_duplicates(),
        decreases_to!(e => content),
        separated(nodes_of(e), forest_of(old(cx).layout.tree)),
        widget < old(cx).store.widgets@.len(),
        old(cx).store.widgets@[widget as int].children@ == seq![widget_of(content)],
        forest_of(old(cx).layout.tree).dom().contains(node),
        forest_of(old(cx).layout.tree)[node] == seq![node_of(content)],
    ensures
        forall|q: u64|
            #![trigger forest_of(final(cx).layout.tree).dom().contains(q)]
            #![trigger forest_of(old(cx).layout.tree).dom().contains(q)]
            forest_of(final(cx).layout.tree).dom().contains(q) <==> (forest_of(
                old(cx).layout.tree,
            ).dom().contains(q) && !nodes_of(e).contains(q)),
        forall|q: u64|
            #[trigger] forest_of(final(cx).layout.tree).dom().contains(q) ==> forest_of(
                final(cx).layout.tree,
            )[q] == forest_of(old(cx).layout.tree)[q],
        final(cx).store.widgets@.len() == old(cx).store.widgets@.len(),
        forall|wi: usize|
            wi < old(cx).store.widgets@.len() && !widgets_of(e).contains(wi) ==> final(cx).store.widgets@[wi as int] == old(cx).store.widgets@[wi as int],
        forall|wi: usize|
            wi < old(cx).store.widgets@.len() && #[trigger] widgets_of(e).contains(wi) ==> !final(cx).store.widgets@[wi as int].alive,
        ops_extended(old(cx).store.ops@, final(cx).store.ops@, 0, widgets_of(e).len() as int),
        // the subtree's own widget is destroyed last: children go first
        final(cx).store.ops@.len() > 0 && final(cx).store.ops@.last()
            == crate::store::Op::Teardown(widget_of(e)),
        final(cx).store.delivered@ == old(cx).store.delivered@,
        final(cx).next_id == old(cx).next_id,
        pending_stops(old(cx).pending@, final(cx).pending@),
        final(cx).windows@ == old(cx).windows@,
    decreases e, 0int,
{
    proof {
        broadcast use vstd::seq_lib::lemma_seq_concat_contains_all_elements;

        lemma_nodup_split(seq![node], nodes_of(content));
        lemma_nodup_split(seq![widget], widgets_of(content));
        lemma_singleton(node);
        lemma_singleton(widget);
        // the entry being detached is the content's root node, which is live
        lemma_wf_self_contained(
            content,
            old(cx).store.widgets@,
            forest_of(old(cx).layout.tree),
        );
        lemma_root_node_in_nodes(content);
        assert(forest_of(old(cx).layout.tree).dom().contains(node_of(content)));
    }
    let ghost e0 = *cx;
    cx.store.remove_child(widget, 0);
    cx.layout.remove_child(node, 0);
    proof {
        broadcast use vstd::seq_lib::lemma_seq_concat_contains_all_elements;

        lemma_ops_push(e0.store.ops@, cx.store.ops@, crate::store::Op::RemoveChild);
        let ws1 = cx.store.widgets@;
        let f1 = forest_of(cx.layout.tree);
        assert(f1[node] =~= Seq::<u64>::empty());
        lemma_wf_self_contained(content, e0.store.widgets@, forest_of(e0.layout.tree));
        lemma_root_node_in_nodes(content);
        assert forall|q: usize| #[trigger] widgets_of(content).contains(q) implies q < ws1.len()
            && ws1[q as int] == e0.store.widgets@[q as int] by {
            assert(q != widget);
        }
        assert forall|q: u64| #[trigger] nodes_of(content).contains(q) implies f1.dom().contains(
            q,
        ) && f1[q] == forest_of(e0.layout.tree)[q] by {
            assert(q != node);
            assert(forest_of(e0.layout.tree).dom().contains(q));
        }
        lemma_wf_frame(content, e0.store.widgets@, forest_of(e0.layout.tree), ws1, f1);
        assert forall|pp: u64, j: int|
            f1.dom().contains(pp) && !nodes_of(content).contains(pp) && 0 <= j < f1[pp].len()
                implies !nodes_of(content).contains(#[trigger] f1[pp][j]) by {
            if pp == node {
            } else {
                assert(!nodes_of(e).contains(pp));
                assert(forest_of(e0.layout.tree).dom().contains(pp));
                assert(f1[pp] == forest_of(e0.layout.tree)[pp]);
                assert(!nodes_of(e).contains(f1[pp][j]));
                assert(nodes_of(content).contains(f1[pp][j]) ==> nodes_of(e).contains(f1[pp][j]));
            }
        }
        assert(separated(nodes_of(content), f1));
        assert(elem_unique(content));
    }
    let ghost mid = *cx;
    teardown(content, cx);
    let ghost after = *cx;
    cx.store.destroy(widget);
    cx.layout.remove_node(node);
    proof {
        broadcast use vstd::seq_lib::lemma_seq_concat_contains_all_elements;

        lemma_ops_push(after.store.ops@, cx.store.ops@, crate::store::Op::Teardown(widget));
        lemma_ops_extended_trans(
            e0.store.ops@,
            mid.store.ops@,
            after.store.ops@,
            0,
            0,
            0,
            widgets_of(content).len() as int,
        );
        lemma_ops_extended_trans(
            e0.store.ops@,
            after.store.ops@,
            cx.store.ops@,
            0,
            widgets_of(content).len() as int,
            0,
            1,
        );
        assert(widgets_of(e).len() == 1 + widgets_of(content).len());
        lemma_pending_stops_trans(e0.pending@, mid.pending@, cx.pending@);
        lemma_root_node_in_nodes(content);
        assert(!nodes_of(content).contains(node));
        // surviving entries kept their value
        assert forall|q: u64|
            #[trigger] forest_of(cx.layout.tree).dom().contains(q) implies forest_of(
            cx.layout.tree,
        )[q] == forest_of(e0.layout.tree)[q] by {
            let fa = forest_of(after.layout.tree);
            assert(q != node);
            assert(fa.dom().contains(q));
            assert(!nodes_of(content).contains(q));
            assert(fa[q] == forest_of(mid.layout.tree)[q]);
            assert forall|j: int| 0 <= j < fa[q].len() implies fa[q][j] != node by {
                if forest_of(mid.layout.tree)[q] == forest_of(e0.layout.tree)[q] {
                    assert(!nodes_of(e).contains(q));
                    assert(!nodes_of(e).contains(forest_of(e0.layout.tree)[q][j]));
                    assert(nodes_of(e)[0] == node);
                } else {
                    assert(q == node);
                }
            }
            assert(!fa[q].contains(node));
        }
        // dom characterization
        assert forall|q: u64|
            forest_of(cx.layout.tree).dom().contains(q) <==> (forest_of(
            e0.layout.tree,
        ).dom().contains(q) && !nodes_of(e).contains(q)) by {
            if q == node {
                assert(nodes_of(e)[0] == node);
                assert(nodes_of(e).contains(q));
            } else {
                assert(nodes_of(e).contains(q) <==> nodes_of(content).contains(q));
            }
        }
        // widget accounting
        assert forall|wi: usize|
            wi < e0.store.widgets@.len() && #[trigger] widgets_of(e).contains(wi)
                implies !cx.store.widgets@[wi as int].alive by {
            if widgets_of(content).contains(wi) {
                assert(wi != widget);
                assert(!after.store.widgets@[wi as int].alive);
            } else {
                assert(wi == widget);
            }
        }
        assert forall|wi: usize|
            wi < e0.store.widgets@.len() && !widgets_of(e).contains(wi)
                implies cx.store.widgets@[wi as int] == e0.store.widgets@[wi as int] by {
            assert(widgets_of(e)[0] == widget);
            assert(wi != widget);
            assert(!widgets_of(content).contains(wi));
        }
    }
}


/// Tears down a flex container: its children first, each detached from the
/// container's widget and layout node and then torn down, and finally the
/// container itself.
#[verifier::rlimit(80)]
#[verifier::loop_isolation(false)]
fn teardown_flex(x: FlexElement, Ghost(e): Ghost<Element>, cx: &mut Context)
    requires
        e == Element::Flex(x),
        wf_elem(e, old(cx).store.widgets@, forest_of(old(cx).layout.tree)),
        elem_unique(e),
        separated(nodes_of(e), forest_of(old(cx).layout.tree)),
    ensures
        forall|q: u64|
            #![trigger forest_of(final(cx).layout.tree).dom().contains(q)]
            #![trigger forest_of(old(cx).layout.tree).dom().contains(q)]
            forest_of(final(cx).layout.tree).dom().contains(q) <==> (forest_of(
                old(cx).layout.tree,
            ).dom().contains(q) && !nodes_of(e).contains(q)),
        forall|q: u64|
            #[trigger] forest_of(final(cx).layout.tree).dom().contains(q) ==> forest_of(
                final(cx).layout.tree,
            )[q] == forest_of(old(cx).layout.tree)[q],
        final(cx).store.widgets@.len() == old(cx).store.widgets@.len(),
        forall|wi: usize|
            wi < old(cx).store.widgets@.len() && !widgets_of(e).contains(wi) ==> final(cx).store.widgets@[wi as int] == old(cx).store.widgets@[wi as int],
        forall|wi: usize|
            wi < old(cx).store.widgets@.len() && #[trigger] widgets_of(e).contains(wi) ==> !final(cx).store.widgets@[wi as int].alive,
        ops_extended(old(cx).store.ops@, final(cx).store.ops@, 0, widgets_of(e).len() as int),
        // the subtree's own widget is destroyed last: children go first
        final(cx).store.ops@.len() > 0 && final(cx).store.ops@.last()
            == crate::store::Op::Teardown(widget_of(e)),
        final(cx).store.delivered@ == old(cx).store.delivered@,
        final(cx).next_id == old(cx).next_id,
        pending_stops(old(cx).pending@, final(cx).pending@),
        final(cx).windows@ == old(cx).windows@,
    decreases e, 0int,
{

            let FlexElement {
                view_id: _,
                widget,
                node,
                style: _,
                background_color: _,
                mut children,
            } = x;
            let ghost orig = children@;
            let ghost e0 = *cx;
            let total = children.len();
            let mut i: usize = 0;
            proof {
                broadcast use vstd::seq_lib::lemma_seq_concat_contains_all_elements;

                assert(orig.skip(0) =~= orig);
                assert(nodes_of_seq(orig.take(0)) =~= Seq::<u64>::empty());
                assert(widgets_of_seq(orig.take(0)) =~= Seq::<usize>::empty());
                assert(nodes_of(e) == seq![node] + nodes_of_seq(orig));
                assert(widgets_of(e) == seq![widget] + widgets_of_seq(orig));
                lemma_nodup_split(seq![node], nodes_of_seq(orig));
                lemma_nodup_split(seq![widget], widgets_of_seq(orig));
                assert(ids_of(e) == seq![x.view_id.0] + ids_of_seq(orig));
                lemma_nodup_split(seq![x.view_id.0], ids_of_seq(orig));
                lemma_singleton(node);
                lemma_singleton(widget);
            }
            while i < total
                invariant
                    0 <= i <= total,
                    total == orig.len(),
                    children@ == orig.skip(i as int),
                    widget < cx.store.widgets@.len(),
                    cx.store.widgets@.len() == e0.store.widgets@.len(),
                    cx.store.widgets@[widget as int].alive,
                    cx.store.widgets@[widget as int].children@ == child_widgets(children@),
                    forall|wi: usize|
                        wi < e0.store.widgets@.len() && wi != widget && !widgets_of_seq(
                            orig.take(i as int),
                        ).contains(wi) ==> cx.store.widgets@[wi as int] == e0.store.widgets@[
                            wi as int
                        ],
                    forall|wi: usize|
                        wi < e0.store.widgets@.len() && #[trigger] widgets_of_seq(
                            orig.take(i as int),
                        ).contains(wi) ==> !cx.store.widgets@[wi as int].alive,
                    forall|q: u64|
                        #![trigger forest_of(cx.layout.tree).dom().contains(q)]
                        #![trigger forest_of(e0.layout.tree).dom().contains(q)]
                        forest_of(cx.layout.tree).dom().contains(q) <==> (forest_of(
                            e0.layout.tree,
                        ).dom().contains(q) && !nodes_of_seq(orig.take(i as int)).contains(q)),
                    forall|q: u64|
                        #[trigger] forest_of(cx.layout.tree).dom().contains(q) && q != node
                            ==> forest_of(cx.layout.tree)[q] == forest_of(e0.layout.tree)[q],
                    forest_of(cx.layout.tree).dom().contains(node),
                    forest_of(cx.layout.tree)[node] == child_nodes(children@),
                    forall|j: int|
                        0 <= j < children@.len() ==> wf_elem(
                            #[trigger] children@[j],
                            cx.store.widgets@,
                            forest_of(cx.layout.tree),
                        ),
                    nodes_of_seq(children@).no_duplicates(),
                    widgets_of_seq(children@).no_duplicates(),
                    ids_of_seq(children@).no_duplicates(),
                    !nodes_of_seq(children@).contains(node),
                    !widgets_of_seq(children@).contains(widget),
                    separated(seq![node] + nodes_of_seq(children@), forest_of(cx.layout.tree)),
                    ops_extended(
                        e0.store.ops@,
                        cx.store.ops@,
                        0,
                        widgets_of_seq(orig.take(i as int)).len() as int,
                    ),
                    cx.store.delivered@ == e0.store.delivered@,
                    cx.next_id == e0.next_id,
                    pending_stops(e0.pending@, cx.pending@),
                    cx.windows@ == e0.windows@,
                decreases total - i,
            {
                proof {
                    broadcast use vstd::seq_lib::lemma_seq_concat_contains_all_elements;

                    assert(children@.len() > 0);
                    assert(nodes_of_seq(children@) == nodes_of(children@[0]) + nodes_of_seq(
                        children@.drop_first(),
                    ));
                    assert(widgets_of_seq(children@) == widgets_of(children@[0]) + widgets_of_seq(
                        children@.drop_first(),
                    ));
                    assert(ids_of_seq(children@) == ids_of(children@[0]) + ids_of_seq(
                        children@.drop_first(),
                    ));
                    lemma_nodup_split(
                        nodes_of(children@[0]),
                        nodes_of_seq(children@.drop_first()),
                    );
                    lemma_nodup_split(
                        widgets_of(children@[0]),
                        widgets_of_seq(children@.drop_first()),
                    );
                    lemma_nodup_split(ids_of(children@[0]), ids_of_seq(children@.drop_first()));
                    assert(child_widgets(children@).len() == children@.len());
                    // the entry being detached is the first child's root
                    // node, which is live
                    lemma_wf_self_contained(
                        children@[0],
                        cx.store.widgets@,
                        forest_of(cx.layout.tree),
                    );
                    lemma_root_node_in_nodes(children@[0]);
                    assert(forest_of(cx.layout.tree)[node][0] == node_of(children@[0]));
                    assert(forest_of(cx.layout.tree).dom().contains(node_of(children@[0])));
                }
                let ghost pre = *cx;
                let ghost rem = children@;
                cx.store.remove_child(widget, 0);
                cx.layout.remove_child(node, 0);
                let c = children.remove(0);
                proof {
                    broadcast use vstd::seq_lib::lemma_seq_concat_contains_all_elements;

                    lemma_ops_push(pre.store.ops@, cx.store.ops@, crate::store::Op::RemoveChild);
                    assert(c == rem[0]);
                    assert(children@ =~= rem.drop_first());
                    assert(child_widgets(children@) =~= child_widgets(rem).remove(0));
                    assert(child_nodes(children@) =~= child_nodes(rem).remove(0));
                    assert(nodes_of_seq(rem) == nodes_of(c) + nodes_of_seq(children@));
                    assert(widgets_of_seq(rem) == widgets_of(c) + widgets_of_seq(children@));
                    assert(decreases_to!(e => c));
                    let ws1 = cx.store.widgets@;
                    let f1 = forest_of(cx.layout.tree);
                    lemma_wf_self_contained(c, pre.store.widgets@, forest_of(pre.layout.tree));
                    assert forall|q: usize| #[trigger] widgets_of(c).contains(q) implies q
                        < ws1.len() && ws1[q as int] == pre.store.widgets@[q as int] by {
                        assert(widgets_of_seq(rem).contains(q));
                        assert(q != widget);
                    }
                    assert forall|q: u64| #[trigger] nodes_of(c).contains(q) implies f1.dom()
                        .contains(q) && f1[q] == forest_of(pre.layout.tree)[q] by {
                        assert(nodes_of_seq(rem).contains(q));
                        assert(q != node);
                        assert(forest_of(pre.layout.tree).dom().contains(q));
                    }
                    lemma_wf_frame(c, pre.store.widgets@, forest_of(pre.layout.tree), ws1, f1);
                    assert forall|pp: u64, j: int|
                        f1.dom().contains(pp) && !nodes_of(c).contains(pp) && 0 <= j
                            < f1[pp].len() implies !nodes_of(c).contains(#[trigger] f1[pp][j]) by {
                        if pp == node {
                            assert(f1[node] == child_nodes(children@));
                            assert(f1[node][j] == node_of(children@[j]));
                            lemma_child_root_in_seq(children@, j);
                            assert(nodes_of_seq(children@).contains(f1[node][j]));
                        } else if nodes_of_seq(children@).contains(pp) {
                            crate::element::lemma_flat_member_nodes(children@, pp);
                            let k = choose|k: int|
                                0 <= k < children@.len() && nodes_of(
                                    #[trigger] children@[k],
                                ).contains(pp);
                            assert(children@[k] == rem[k + 1]);
                            lemma_wf_self_contained(
                                rem[k + 1],
                                pre.store.widgets@,
                                forest_of(pre.layout.tree),
                            );
                            assert(pp != node) by {
                                lemma_seq_parts(children@, k);
                            }
                            assert(f1[pp] == forest_of(pre.layout.tree)[pp]);
                            assert(nodes_of(children@[k]).contains(f1[pp][j]));
                            assert forall|z: u64| nodes_of(children@[k]).contains(z)
                                implies nodes_of_seq(children@).contains(z) by {
                                lemma_seq_parts(children@, k);
                            }
                        } else {
                            assert(!(seq![node] + nodes_of_seq(rem)).contains(pp));
                            assert(forest_of(pre.layout.tree).dom().contains(pp));
                            assert(f1[pp] == forest_of(pre.layout.tree)[pp]);
                            assert(!(seq![node] + nodes_of_seq(rem)).contains(f1[pp][j]));
                        }
                    }
                    assert(separated(nodes_of(c), f1));
                    assert(ids_of_seq(rem) == ids_of(c) + ids_of_seq(children@));
                    assert(elem_unique(c));
                    // remaining siblings stay well-formed across the detach
                    assert forall|j: int| 0 <= j < children@.len() implies wf_elem(
                        #[trigger] children@[j],
                        ws1,
                        f1,
                    ) by {
                        assert(children@[j] == rem[j + 1]);
                        assert(wf_elem(rem[j + 1], pre.store.widgets@, forest_of(pre.layout.tree)));
                        lemma_wf_self_contained(
                            rem[j + 1],
                            pre.store.widgets@,
                            forest_of(pre.layout.tree),
                        );
                        assert forall|q: usize| #[trigger] widgets_of(children@[j]).contains(q)
                            implies q < ws1.len() && ws1[q as int] == pre.store.widgets@[
                            q as int
                        ] by {
                            lemma_seq_parts(children@, j);
                            assert(widgets_of_seq(children@).contains(q));
                            assert(q != widget);
                        }
                        assert forall|q: u64| #[trigger] nodes_of(children@[j]).contains(q)
                            implies f1.dom().contains(q) && f1[q] == forest_of(
                            pre.layout.tree,
                        )[q] by {
                            lemma_seq_parts(children@, j);
                            assert(nodes_of_seq(children@).contains(q));
                            assert(q != node);
                            assert(forest_of(pre.layout.tree).dom().contains(q));
                        }
                        lemma_wf_frame(
                            children@[j],
                            pre.store.widgets@,
                            forest_of(pre.layout.tree),
                            ws1,
                            f1,
                        );
                    }
                }
                let ghost mid = *cx;
                teardown(c, cx);
                proof {
                    broadcast use vstd::seq_lib::lemma_seq_concat_contains_all_elements;

                    let ws2 = cx.store.widgets@;
                    let f2 = forest_of(cx.layout.tree);
                    assert forall|j: int| 0 <= j < children@.len() implies wf_elem(
                        #[trigger] children@[j],
                        ws2,
                        f2,
                    ) by {
                        lemma_wf_self_contained(
                            children@[j],
                            mid.store.widgets@,
                            forest_of(mid.layout.tree),
                        );
                        assert forall|q: usize| #[trigger] widgets_of(children@[j]).contains(q)
                            implies q < ws2.len() && ws2[q as int] == mid.store.widgets@[
                            q as int
                        ] by {
                            lemma_seq_parts(children@, j);
                            assert(widgets_of_seq(children@).contains(q));
                            assert(!widgets_of(c).contains(q));
                        }
                        assert forall|q: u64| #[trigger] nodes_of(children@[j]).contains(q)
                            implies f2.dom().contains(q) && f2[q] == forest_of(
                            mid.layout.tree,
                        )[q] by {
                            lemma_seq_parts(children@, j);
                            assert(nodes_of_seq(children@).contains(q));
                            assert(!nodes_of(c).contains(q));
                            assert(forest_of(mid.layout.tree).dom().contains(q));
                        }
                        lemma_wf_frame(
                            children@[j],
                            mid.store.widgets@,
                            forest_of(mid.layout.tree),
                            ws2,
                            f2,
                        );
                    }
                    assert(!nodes_of(c).contains(node));
                    assert(forest_of(mid.layout.tree).dom().contains(node));
                    assert(f2.dom().contains(node));
                    assert(f2[node] == forest_of(mid.layout.tree)[node]);
                    assert(forest_of(mid.layout.tree)[node] == child_nodes(children@));
                    assert forall|pp: u64, j: int|
                        f2.dom().contains(pp) && !(seq![node] + nodes_of_seq(children@)).contains(
                            pp,
                        ) && 0 <= j < f2[pp].len() implies !(seq![node] + nodes_of_seq(
                        children@,
                    )).contains(#[trigger] f2[pp][j]) by {
                        assert(forest_of(mid.layout.tree).dom().contains(pp));
                        assert(!nodes_of(c).contains(pp));
                        assert(f2[pp] == forest_of(mid.layout.tree)[pp]);
                        assert(!(seq![node] + nodes_of_seq(rem)).contains(pp));
                        assert(!(seq![node] + nodes_of_seq(rem)).contains(
                            forest_of(mid.layout.tree)[pp][j],
                        ));
                    }
                    assert(separated(seq![node] + nodes_of_seq(children@), f2));
                    assert(orig.take(i as int + 1) =~= orig.take(i as int).push(orig[i as int]));
                    lemma_flat_push(orig.take(i as int), orig[i as int]);
                    assert(orig[i as int] == c) by {
                        assert(rem == orig.skip(i as int));
                        assert(rem[0] == orig[i as int]);
                    }
                    assert(children@ =~= orig.skip(i as int + 1)) by {
                        assert(rem.drop_first() =~= orig.skip(i as int + 1));
                    }
                    lemma_ops_extended_trans(
                        e0.store.ops@,
                        mid.store.ops@,
                        cx.store.ops@,
                        0,
                        widgets_of_seq(orig.take(i as int)).len() as int,
                        0,
                        widgets_of(c).len() as int,
                    );
                    assert(widgets_of_seq(orig.take(i as int + 1)).len() == widgets_of_seq(
                        orig.take(i as int),
                    ).len() + widgets_of(c).len());
                    assert(nodes_of_seq(orig.take(i as int + 1)) =~= nodes_of_seq(
                        orig.take(i as int),
                    ) + nodes_of(c));
                    lemma_pending_stops_trans(e0.pending@, mid.pending@, cx.pending@);
                    lemma_seq_parts(orig, i as int);
                    assert(widgets_of_seq(orig.take(i as int)) + (widgets_of(c)
                        + widgets_of_seq(orig.skip(i as int + 1))) =~= widgets_of_seq(orig));
                    lemma_nodup_split(
                        widgets_of_seq(orig.take(i as int)),
                        widgets_of(c) + widgets_of_seq(orig.skip(i as int + 1)),
                    );
                    assert forall|wi: usize|
                        wi < e0.store.widgets@.len() && #[trigger] widgets_of_seq(
                            orig.take(i as int + 1),
                        ).contains(wi) implies !cx.store.widgets@[wi as int].alive by {
                        if widgets_of_seq(orig.take(i as int)).contains(wi) {
                            assert((widgets_of(c) + widgets_of_seq(orig.skip(i as int + 1))).contains(
                                wi,
                            ) == false);
                            assert(!widgets_of(c).contains(wi));
                            assert(!mid.store.widgets@[wi as int].alive);
                        } else {
                            assert(widgets_of(c).contains(wi));
                        }
                    }
                }
                i = i + 1;
            }
            proof {
                assert(orig.take(total as int) =~= orig);
                assert(children@.len() == 0);
                assert(child_widgets(children@) =~= Seq::<usize>::empty());
            }
            let ghost at_end = *cx;
            cx.store.destroy(widget);
            cx.layout.remove_node(node);
            proof {
                broadcast use vstd::seq_lib::lemma_seq_concat_contains_all_elements;

                lemma_ops_push(at_end.store.ops@, cx.store.ops@, crate::store::Op::Teardown(widget));
                lemma_ops_extended_trans(
                    e0.store.ops@,
                    at_end.store.ops@,
                    cx.store.ops@,
                    0,
                    widgets_of_seq(orig).len() as int,
                    0,
                    1,
                );
                assert(widgets_of(e).len() == 1 + widgets_of_seq(orig).len());
                lemma_root_node_in_nodes(e);
                // all surviving entries kept their value
                assert forall|q: u64|
                    #[trigger] forest_of(cx.layout.tree).dom().contains(q) implies forest_of(
                    cx.layout.tree,
                )[q] == forest_of(e0.layout.tree)[q] by {
                    let fl = forest_of(at_end.layout.tree);
                    assert(q != node);
                    assert(fl.dom().contains(q));
                    assert forall|j: int| 0 <= j < fl[q].len() implies fl[q][j] != node by {
                        assert(!(seq![node] + nodes_of_seq(children@)).contains(q)) by {
                            assert((seq![node] + nodes_of_seq(children@)).len() == 1);
                            assert((seq![node] + nodes_of_seq(children@))[0] == node);
                        }
                        assert(!(seq![node] + nodes_of_seq(children@)).contains(fl[q][j]));
                        assert((seq![node] + nodes_of_seq(children@))[0] == node);
                    }
                    assert(!fl[q].contains(node));
                }
                // final dom characterization
                assert forall|q: u64|
                    forest_of(cx.layout.tree).dom().contains(q) <==> (forest_of(
                    e0.layout.tree,
                ).dom().contains(q) && !nodes_of(e).contains(q)) by {
                    assert(nodes_of(e) == seq![node] + nodes_of_seq(orig));
                    if q == node {
                        assert(nodes_of(e)[0] == node);
                        assert(nodes_of(e).contains(q));
                    } else {
                        assert(nodes_of(e).contains(q) <==> nodes_of_seq(orig).contains(q));
                    }
                }
                // widget accounting
                assert forall|wi: usize|
                    wi < e0.store.widgets@.len() && #[trigger] widgets_of(e).contains(wi)
                        implies !cx.store.widgets@[wi as int].alive by {
                    if wi != widget {
                        assert(widgets_of_seq(orig).contains(wi));
                        assert(!at_end.store.widgets@[wi as int].alive);
                    }
                }
                assert forall|wi: usize|
                    wi < e0.store.widgets@.len() && !widgets_of(e).contains(wi)
                        implies cx.store.widgets@[wi as int] == e0.store.widgets@[wi as int] by {
                    assert(widgets_of(e)[0] == widget);
                    assert(wi != widget);
                    assert(!widgets_of_seq(orig).contains(wi));
                }
            }
        
}

/// Removes and tears down every child past index `m`, working from the
/// tail: each is detached from the widget list and the layout list at its
/// index and then torn down.
#[verifier::rlimit(100)]
#[verifier::loop_isolation(false)]
pub fn truncate_children(m: usize, es: &mut Vec<Element>, cx: &mut Context, pw: usize, pn: u64)
    requires
        m <= old(es)@.len(),
        forall|j: int|
            0 <= j < old(es)@.len() ==> wf_elem(
                #[trigger] old(es)@[j],
                old(cx).store.widgets@,
                forest_of(old(cx).layout.tree),
            ),
        nodes_of_seq(old(es)@).no_duplicates(),
        widgets_of_seq(old(es)@).no_duplicates(),
        ids_of_seq(old(es)@).no_duplicates(),
        forall|k: int|
            0 <= k < ids_of_seq(old(es)@).len() ==> #[trigger] ids_of_seq(old(es)@)[k] < old(cx).next_id,
        pw < old(cx).store.widgets@.len(),
        !widgets_of_seq(old(es)@).contains(pw),
        old(cx).store.widgets@[pw as int].children@ == child_widgets(old(es)@),
        forest_of(old(cx).layout.tree).dom().contains(pn),
        !nodes_of_seq(old(es)@).contains(pn),
        forest_of(old(cx).layout.tree)[pn] == child_nodes(old(es)@),
        forall|pp: u64, j: int|
            forest_of(old(cx).layout.tree).dom().contains(pp) && pp != pn && !nodes_of_seq(
                old(es)@,
            ).contains(pp) && 0 <= j < forest_of(old(cx).layout.tree)[pp].len() ==> !nodes_of_seq(
                old(es)@,
            ).contains(#[trigger] forest_of(old(cx).layout.tree)[pp][j]),
        dom_closed(forest_of(old(cx).layout.tree)),
    ensures
        dom_closed(forest_of(final(cx).layout.tree)),
        final(es)@ == old(es)@.take(m as int),
        m == old(es)@.len() ==> final(es)@ == old(es)@ && final(cx).store.widgets@ == old(cx).store.widgets@ && final(cx).store.ops@ == old(cx).store.ops@ && forest_of(
            final(cx).layout.tree,
        ) == forest_of(old(cx).layout.tree) && final(cx).next_id == old(cx).next_id && final(cx).pending@ == old(cx).pending@,
        final(cx).next_id == old(cx).next_id,
        forall|j: int|
            0 <= j < final(es)@.len() ==> wf_elem(
                #[trigger] final(es)@[j],
                final(cx).store.widgets@,
                forest_of(final(cx).layout.tree),
            ),
        nodes_of_seq(final(es)@).no_duplicates(),
        widgets_of_seq(final(es)@).no_duplicates(),
        ids_of_seq(final(es)@).no_duplicates(),
        forall|k: int|
            0 <= k < ids_of_seq(final(es)@).len() ==> #[trigger] ids_of_seq(final(es)@)[k]
                < final(cx).next_id,
        forall|i: u64|
            #[trigger] ids_of_seq(final(es)@).contains(i) ==> ids_of_seq(old(es)@).contains(i)
                || (old(cx).next_id <= i < final(cx).next_id),
        old(cx).next_id <= final(cx).next_id,
        old(cx).store.ops@.is_prefix_of(final(cx).store.ops@),
        final(cx).store.delivered@ == old(cx).store.delivered@,
        final(cx).windows@ == old(cx).windows@,
        pending_stops(old(cx).pending@, final(cx).pending@),
        old(cx).store.widgets@.len() <= final(cx).store.widgets@.len(),
        forall|w: usize|
            w < old(cx).store.widgets@.len() && w != pw && !widgets_of_seq(old(es)@).contains(w)
                ==> final(cx).store.widgets@[w as int] == old(cx).store.widgets@[w as int],
        crate::store::keeps_but_children(
            old(cx).store.widgets@[pw as int],
            final(cx).store.widgets@[pw as int],
        ),
        final(cx).store.widgets@[pw as int].children@ == child_widgets(final(es)@),
        forall|w: usize|
            #[trigger] widgets_of_seq(final(es)@).contains(w) ==> widgets_of_seq(
                old(es)@,
            ).contains(w) || (old(cx).store.widgets@.len() <= w < final(cx).store.widgets@.len()),
        forall|w: usize|
            #[trigger] widgets_of_seq(old(es)@).contains(w) ==> w < old(cx).store.widgets@.len() && (widgets_of_seq(final(es)@).contains(w) || !final(cx).store.widgets@[w as int].alive),
        forall|n: u64|
            #[trigger] forest_of(old(cx).layout.tree).dom().contains(n) && n != pn
                && !nodes_of_seq(old(es)@).contains(n) ==> forest_of(
                final(cx).layout.tree,
            ).dom().contains(n) && forest_of(final(cx).layout.tree)[n] == forest_of(
                old(cx).layout.tree,
            )[n],
        forest_of(final(cx).layout.tree).dom().contains(pn),
        forest_of(final(cx).layout.tree)[pn] == child_nodes(final(es)@),
        forall|n: u64|
            #[trigger] nodes_of_seq(final(es)@).contains(n) ==> nodes_of_seq(old(es)@).contains(
                n,
            ) || !forest_of(old(cx).layout.tree).dom().contains(n),
        forall|n: u64|
            #[trigger] forest_of(final(cx).layout.tree).dom().contains(n) ==> forest_of(
                old(cx).layout.tree,
            ).dom().contains(n) || nodes_of_seq(final(es)@).contains(n),
        forall|n: u64|
            #[trigger] nodes_of_seq(old(es)@).contains(n) && !nodes_of_seq(
                final(es)@,
            ).contains(n) ==> !forest_of(final(cx).layout.tree).dom().contains(n),
        forall|pp: u64, j: int|
            forest_of(final(cx).layout.tree).dom().contains(pp) && pp != pn && !nodes_of_seq(
                final(es)@,
            ).contains(pp) && 0 <= j < forest_of(final(cx).layout.tree)[pp].len()
                ==> !nodes_of_seq(final(es)@).contains(
                #[trigger] forest_of(final(cx).layout.tree)[pp][j],
            ),
{
    let ghost es0 = old(es)@;
    let ghost cx0 = *cx;
    proof {
        broadcast use vstd::seq_lib::lemma_seq_concat_contains_all_elements;

        assert(es0.take(es0.len() as int) =~= es0);
        lemma_wf_self_contained_seq(es0, cx0.store.widgets@, forest_of(cx0.layout.tree));
        assert forall|w: usize| #[trigger] widgets_of_seq(es0).contains(w) implies w
            < cx0.store.widgets@.len() by {
            let k = choose|k: int|
                0 <= k < widgets_of_seq(es0).len() && widgets_of_seq(es0)[k] == w;
        }
        assert forall|n: u64| #[trigger] nodes_of_seq(es0).contains(n) implies forest_of(
            cx0.layout.tree,
        ).dom().contains(n) by {}
    }
    while es.len() > m
        invariant
            m <= es@.len(),
            es@.len() <= es0.len(),
            es@ == es0.take(es@.len() as int),
            forall|j: int|
                0 <= j < es@.len() ==> wf_elem(
                    #[trigger] es@[j],
                    cx.store.widgets@,
                    forest_of(cx.layout.tree),
                ),
            nodes_of_seq(es@).no_duplicates(),
            widgets_of_seq(es@).no_duplicates(),
            ids_of_seq(es@).no_duplicates(),
            pw < cx.store.widgets@.len(),
            cx.store.widgets@.len() == cx0.store.widgets@.len(),
            !widgets_of_seq(es@).contains(pw),
            cx.store.widgets@[pw as int].children@ == child_widgets(es@),
            crate::store::keeps_but_children(
                cx0.store.widgets@[pw as int],
                cx.store.widgets@[pw as int],
            ),
            forall|w: usize|
                w < cx0.store.widgets@.len() && w != pw && !widgets_of_seq(es0).contains(w)
                    ==> cx.store.widgets@[w as int] == cx0.store.widgets@[w as int],
            forall|w: usize|
                #[trigger] widgets_of_seq(es0).contains(w) ==> w < cx0.store.widgets@.len() && (
                widgets_of_seq(es@).contains(w) || !cx.store.widgets@[w as int].alive),
            forest_of(cx.layout.tree).dom().contains(pn),
            !nodes_of_seq(es@).contains(pn),
            forest_of(cx.layout.tree)[pn] == child_nodes(es@),
            forall|n: u64|
                #[trigger] forest_of(cx0.layout.tree).dom().contains(n) && n != pn
                    && !nodes_of_seq(es0).contains(n) ==> forest_of(
                    cx.layout.tree,
                ).dom().contains(n) && forest_of(cx.layout.tree)[n] == forest_of(
                    cx0.layout.tree,
                )[n],
            forall|n: u64|
                #[trigger] forest_of(cx.layout.tree).dom().contains(n) ==> forest_of(
                    cx0.layout.tree,
                ).dom().contains(n),
            forall|n: u64|
                #[trigger] nodes_of_seq(es0).contains(n) && !nodes_of_seq(es@).contains(n)
                    ==> !forest_of(cx.layout.tree).dom().contains(n),
            forall|n: u64|
                #[trigger] nodes_of_seq(es@).contains(n) ==> forest_of(
                    cx.layout.tree,
                ).dom().contains(n),
            forall|pp: u64, j: int|
                forest_of(cx.layout.tree).dom().contains(pp) && pp != pn && !nodes_of_seq(
                    es@,
                ).contains(pp) && 0 <= j < forest_of(cx.layout.tree)[pp].len() ==> !nodes_of_seq(
                    es@,
                ).contains(#[trigger] forest_of(cx.layout.tree)[pp][j]),
            cx0.store.ops@.is_prefix_of(cx.store.ops@),
            cx.store.delivered@ == cx0.store.delivered@,
            cx.next_id == cx0.next_id,
            pending_stops(cx0.pending@, cx.pending@),
            cx.windows@ == cx0.windows@,
            dom_closed(forest_of(cx.layout.tree)),
            es@.len() == es0.len() ==> cx.store.widgets@ == cx0.store.widgets@ && cx.store.ops@
                == cx0.store.ops@ && forest_of(cx.layout.tree) == forest_of(cx0.layout.tree)
                && cx.pending@ == cx0.pending@,
        decreases es@.len(),
    {
        let last = es.len() - 1;
        let ghost rem = es@;
        let ghost pre = *cx;
        proof {
            broadcast use vstd::seq_lib::lemma_seq_concat_contains_all_elements;

            lemma_seq_parts(rem, last as int);
            assert(rem.skip(last as int + 1) =~= Seq::<Element>::empty());
            assert(nodes_of_seq(rem) =~= nodes_of_seq(rem.take(last as int)) + nodes_of(
                rem[last as int],
            ));
            assert(widgets_of_seq(rem) =~= widgets_of_seq(rem.take(last as int)) + widgets_of(
                rem[last as int],
            ));
            assert(ids_of_seq(rem) =~= ids_of_seq(rem.take(last as int)) + ids_of(
                rem[last as int],
            ));
            lemma_nodup_split(nodes_of_seq(rem.take(last as int)), nodes_of(rem[last as int]));
            lemma_nodup_split(
                widgets_of_seq(rem.take(last as int)),
                widgets_of(rem[last as int]),
            );
            lemma_nodup_split(ids_of_seq(rem.take(last as int)), ids_of(rem[last as int]));
            assert(child_widgets(rem).len() == rem.len());
            assert(child_nodes(rem).len() == rem.len());
        }
        cx.store.remove_child(pw, last);
        cx.layout.remove_child(pn, last);
        let c = es.pop().unwrap();
        proof {
            broadcast use vstd::seq_lib::lemma_seq_concat_contains_all_elements;

            lemma_ops_push(pre.store.ops@, cx.store.ops@, crate::store::Op::RemoveChild);
            assert(c == rem[last as int]);
            assert(es@ =~= rem.drop_last());
            assert(es@ =~= rem.take(last as int));
            assert(rem == es0.take(rem.len() as int));
            assert(es@ =~= es0.take(last as int)) by {
                assert(es0.take(rem.len() as int).take(last as int) =~= es0.take(last as int));
            }
            assert(es@.len() < es0.len() || true);
            lemma_flat_split_at(es0, rem.len() as int);
            assert forall|q: u64| #[trigger] nodes_of_seq(rem).contains(q)
                implies nodes_of_seq(es0).contains(q) by {}
            assert forall|q: usize| #[trigger] widgets_of_seq(rem).contains(q)
                implies widgets_of_seq(es0).contains(q) by {}
            assert(child_widgets(es@) =~= child_widgets(rem).remove(last as int));
            assert(child_nodes(es@) =~= child_nodes(rem).remove(last as int));
            let ws1 = cx.store.widgets@;
            let f1 = forest_of(cx.layout.tree);
            lemma_wf_self_contained(c, pre.store.widgets@, forest_of(pre.layout.tree));
            assert forall|q: usize| #[trigger] widgets_of(c).contains(q) implies q < ws1.len()
                && ws1[q as int] == pre.store.widgets@[q as int] by {
                assert(widgets_of_seq(rem).contains(q));
                assert(q != pw);
            }
            assert forall|q: u64| #[trigger] nodes_of(c).contains(q) implies f1.dom().contains(
                q,
            ) && f1[q] == forest_of(pre.layout.tree)[q] by {
                assert(nodes_of_seq(rem).contains(q));
                assert(q != pn);
                assert(forest_of(pre.layout.tree).dom().contains(q));
            }
            lemma_wf_frame(c, pre.store.widgets@, forest_of(pre.layout.tree), ws1, f1);
            assert forall|j: int| 0 <= j < es@.len() implies wf_elem(
                #[trigger] es@[j],
                ws1,
                f1,
            ) by {
                assert(es@[j] == rem[j]);
                lemma_wf_self_contained(rem[j], pre.store.widgets@, forest_of(pre.layout.tree));
                assert forall|q: usize| #[trigger] widgets_of(rem[j]).contains(q) implies q
                    < ws1.len() && ws1[q as int] == pre.store.widgets@[q as int] by {
                    lemma_seq_parts(rem, j);
                    assert(widgets_of_seq(rem).contains(q));
                    assert(q != pw);
                }
                assert forall|q: u64| #[trigger] nodes_of(rem[j]).contains(q) implies f1.dom()
                    .contains(q) && f1[q] == forest_of(pre.layout.tree)[q] by {
                    lemma_seq_parts(rem, j);
                    assert(nodes_of_seq(rem).contains(q));
                    assert(q != pn);
                    assert(forest_of(pre.layout.tree).dom().contains(q));
                }
                lemma_wf_frame(rem[j], pre.store.widgets@, forest_of(pre.layout.tree), ws1, f1);
            }
            // the popped child is fully detached now
            assert forall|pp: u64, j: int|
                f1.dom().contains(pp) && !nodes_of(c).contains(pp) && 0 <= j < f1[pp].len()
                    implies !nodes_of(c).contains(#[trigger] f1[pp][j]) by {
                if pp == pn {
                    assert(f1[pn] == child_nodes(es@));
                    assert(f1[pn][j] == node_of(es@[j]));
                    lemma_child_root_in_seq(es@, j);
                    assert(nodes_of_seq(es@).contains(f1[pn][j]));
                } else if nodes_of_seq(es@).contains(pp) {
                    crate::element::lemma_flat_member_nodes(es@, pp);
                    let k = choose|k: int|
                        0 <= k < es@.len() && nodes_of(#[trigger] es@[k]).contains(pp);
                    lemma_wf_self_contained(es@[k], ws1, f1);
                    assert(nodes_of(es@[k]).contains(f1[pp][j]));
                    assert forall|z: u64| nodes_of(es@[k]).contains(z)
                        implies nodes_of_seq(es@).contains(z) by {
                        lemma_seq_parts(es@, k);
                    }
                } else {
                    assert(!nodes_of_seq(rem).contains(pp));
                    assert(forest_of(pre.layout.tree).dom().contains(pp));
                    assert(f1[pp] == forest_of(pre.layout.tree)[pp]);
                    assert(!nodes_of_seq(rem).contains(f1[pp][j]));
                }
            }
            assert(separated(nodes_of(c), f1));
            assert(elem_unique(c));
        }
        let ghost mid = *cx;
        teardown(c, cx);
        proof {
            broadcast use vstd::seq_lib::lemma_seq_concat_contains_all_elements;

            let ws2 = cx.store.widgets@;
            let f2 = forest_of(cx.layout.tree);
            assert forall|j: int| 0 <= j < es@.len() implies wf_elem(
                #[trigger] es@[j],
                ws2,
                f2,
            ) by {
                lemma_wf_self_contained(
                    es@[j],
                    mid.store.widgets@,
                    forest_of(mid.layout.tree),
                );
                assert forall|q: usize| #[trigger] widgets_of(es@[j]).contains(q) implies q
                    < ws2.len() && ws2[q as int] == mid.store.widgets@[q as int] by {
                    lemma_seq_parts(es@, j);
                    assert(widgets_of_seq(es@).contains(q));
                    assert(!widgets_of(c).contains(q));
                }
                assert forall|q: u64| #[trigger] nodes_of(es@[j]).contains(q) implies f2.dom()
                    .contains(q) && f2[q] == forest_of(mid.layout.tree)[q] by {
                    lemma_seq_parts(es@, j);
                    assert(nodes_of_seq(es@).contains(q));
                    assert(!nodes_of(c).contains(q));
                    assert(forest_of(mid.layout.tree).dom().contains(q));
                }
                lemma_wf_frame(
                    es@[j],
                    mid.store.widgets@,
                    forest_of(mid.layout.tree),
                    ws2,
                    f2,
                );
            }
            assert(!nodes_of(c).contains(pn));
            assert(f2.dom().contains(pn));
            assert(f2[pn] == forest_of(mid.layout.tree)[pn]);
            assert(es@.len() < es0.len());
            lemma_flat_split_at(es0, rem.len() as int);
            assert forall|w: usize|
                w < cx0.store.widgets@.len() && w != pw && !widgets_of_seq(es0).contains(w)
                    implies cx.store.widgets@[w as int] == cx0.store.widgets@[w as int] by {
                assert(!widgets_of(c).contains(w)) by {
                    if widgets_of(c).contains(w) {
                        assert(widgets_of_seq(rem).contains(w));
                        assert(widgets_of_seq(es0).contains(w));
                    }
                }
                assert(mid.store.widgets@[w as int] == cx0.store.widgets@[w as int]);
            }
            assert forall|q: u64|
                #[trigger] forest_of(cx0.layout.tree).dom().contains(q) && q != pn
                    && !nodes_of_seq(es0).contains(q) implies f2.dom().contains(q) && f2[q]
                == forest_of(cx0.layout.tree)[q] by {
                assert(!nodes_of(c).contains(q)) by {
                    if nodes_of(c).contains(q) {
                        assert(nodes_of_seq(rem).contains(q));
                        assert(nodes_of_seq(es0).contains(q));
                    }
                }
                assert(forest_of(mid.layout.tree).dom().contains(q));
                assert(forest_of(mid.layout.tree)[q] == forest_of(cx0.layout.tree)[q]);
            }
            assert forall|q: u64| #[trigger] nodes_of_seq(es@).contains(q) implies f2.dom()
                .contains(q) by {
                assert(!nodes_of(c).contains(q));
                assert(nodes_of_seq(rem).contains(q)) by {
                    lemma_flat_split_at(rem, last as int);
                }
                assert(forest_of(pre.layout.tree).dom().contains(q));
                assert(forest_of(mid.layout.tree).dom().contains(q));
            }
            // processed or dead widgets stay accounted for
            assert forall|w: usize| #[trigger] widgets_of_seq(es0).contains(w) implies w
                < cx0.store.widgets@.len() && (widgets_of_seq(es@).contains(w)
                || !cx.store.widgets@[w as int].alive) by {
                if widgets_of_seq(es@).contains(w) {
                } else if widgets_of(c).contains(w) {
                    assert(!cx.store.widgets@[w as int].alive);
                } else if widgets_of_seq(rem).contains(w) {
                    lemma_flat_split_at(rem, last as int);
                    assert(widgets_of_seq(rem.take(last as int)).contains(w) || widgets_of(
                        c,
                    ).contains(w));
                } else {
                    // dead before this iteration, untouched since
                    assert(!pre.store.widgets@[w as int].alive);
                    assert(cx.store.widgets@[w as int] == pre.store.widgets@[w as int]);
                }
            }
            lemma_pending_stops_trans(cx0.pending@, mid.pending@, cx.pending@);
            assert(cx0.store.ops@.is_prefix_of(cx.store.ops@)) by {
                assert(cx.store.ops@.subrange(0, cx0.store.ops@.len() as int) =~= mid.store.ops@.subrange(
                    0,
                    cx0.store.ops@.len() as int,
                ));
            }
            assert forall|pp: u64, j: int|
                f2.dom().contains(pp) && pp != pn && !nodes_of_seq(es@).contains(pp) && 0 <= j
                    < f2[pp].len() implies !nodes_of_seq(es@).contains(
                #[trigger] f2[pp][j],
            ) by {
                assert(forest_of(mid.layout.tree).dom().contains(pp));
                assert(!nodes_of(c).contains(pp));
                assert(f2[pp] == forest_of(mid.layout.tree)[pp]);
                assert(!nodes_of_seq(rem).contains(pp) || nodes_of(c).contains(pp) || true);
                if nodes_of_seq(rem).contains(pp) {
                    assert(nodes_of_seq(es@).contains(pp) || nodes_of(c).contains(pp));
                } else {
                    assert(!nodes_of_seq(rem).contains(forest_of(mid.layout.tree)[pp][j]));
                }
            }
            assert forall|pp: u64, j: int|
                f2.dom().contains(pp) && 0 <= j < f2[pp].len() implies f2.dom().contains(
                #[trigger] f2[pp][j],
            ) by {
                assert(forest_of(mid.layout.tree).dom().contains(pp));
                assert(f2[pp] == forest_of(mid.layout.tree)[pp]);
                assert(forest_of(mid.layout.tree).dom().contains(f2[pp][j]));
                assert(!nodes_of(c).contains(f2[pp][j]));
            }
        }
    }
    proof {
        broadcast use vstd::seq_lib::lemma_seq_concat_contains_all_elements;

        assert(es@ =~= es0.take(m as int));
        lemma_flat_split_at(es0, m as int);
        assert forall|q: u64| #[trigger] ids_of_seq(es@).contains(q) implies ids_of_seq(
            es0,
        ).contains(q) by {}
        assert forall|q: u64| #[trigger] ids_of_seq(es@).contains(q) implies q < cx.next_id by {
            let k = choose|k: int| 0 <= k < ids_of_seq(es0).len() && ids_of_seq(es0)[k] == q;
        }
        assert forall|k: int| 0 <= k < ids_of_seq(es@).len() implies #[trigger] ids_of_seq(
            es@,
        )[k] < cx.next_id by {
            assert(ids_of_seq(es@).contains(ids_of_seq(es@)[k]));
        }
        assert forall|w: usize| #[trigger] widgets_of_seq(es@).contains(w)
            implies widgets_of_seq(es0).contains(w) by {}
        assert forall|q: u64| #[trigger] nodes_of_seq(es@).contains(q) implies nodes_of_seq(
            es0,
        ).contains(q) by {}
    }
}


/// Builds an element for each view past the current child count and
/// attaches it at its index of all three child lists.
#[verifier::rlimit(100)]
#[verifier::loop_isolation(false)]
pub fn extend_children(vs: &Vec<ViewTree>, es: &mut Vec<Element>, cx: &mut Context, pw: usize, pn: u64)
    requires
        old(es)@.len() <= vs@.len(),
        old(cx).next_id + elem_count_seq(vs@.skip(old(es)@.len() as int)) <= u64::MAX,
        forall|j: int|
            0 <= j < old(es)@.len() ==> wf_elem(
                #[trigger] old(es)@[j],
                old(cx).store.widgets@,
                forest_of(old(cx).layout.tree),
            ),
        nodes_of_seq(old(es)@).no_duplicates(),
        widgets_of_seq(old(es)@).no_duplicates(),
        ids_of_seq(old(es)@).no_duplicates(),
        forall|k: int|
            0 <= k < ids_of_seq(old(es)@).len() ==> #[trigger] ids_of_seq(old(es)@)[k] < old(cx).next_id,
        pw < old(cx).store.widgets@.len(),
        !widgets_of_seq(old(es)@).contains(pw),
        old(cx).store.widgets@[pw as int].children@ == child_widgets(old(es)@),
        forest_of(old(cx).layout.tree).dom().contains(pn),
        !nodes_of_seq(old(es)@).contains(pn),
        forest_of(old(cx).layout.tree)[pn] == child_nodes(old(es)@),
        forall|pp: u64, j: int|
            forest_of(old(cx).layout.tree).dom().contains(pp) && pp != pn && !nodes_of_seq(
                old(es)@,
            ).contains(pp) && 0 <= j < forest_of(old(cx).layout.tree)[pp].len() ==> !nodes_of_seq(
                old(es)@,
            ).contains(#[trigger] forest_of(old(cx).layout.tree)[pp][j]),
        dom_closed(forest_of(old(cx).layout.tree)),
    ensures
        dom_closed(forest_of(final(cx).layout.tree)),
        final(es)@.len() == vs@.len(),
        forall|j: int| 0 <= j < old(es)@.len() ==> final(es)@[j] == old(es)@[j],
        forall|j: int|
            old(es)@.len() <= j < vs@.len() ==> fits(#[trigger] vs@[j], final(es)@[j]),
        old(es)@.len() == vs@.len() ==> final(es)@ == old(es)@ && final(cx).store.widgets@ == old(cx).store.widgets@ && final(cx).store.ops@ == old(cx).store.ops@ && forest_of(
            final(cx).layout.tree,
        ) == forest_of(old(cx).layout.tree) && final(cx).next_id == old(cx).next_id && final(cx).pending@ == old(cx).pending@,
        forall|j: int|
            0 <= j < final(es)@.len() ==> wf_elem(
                #[trigger] final(es)@[j],
                final(cx).store.widgets@,
                forest_of(final(cx).layout.tree),
            ),
        nodes_of_seq(final(es)@).no_duplicates(),
        widgets_of_seq(final(es)@).no_duplicates(),
        ids_of_seq(final(es)@).no_duplicates(),
        forall|k: int|
            0 <= k < ids_of_seq(final(es)@).len() ==> #[trigger] ids_of_seq(final(es)@)[k]
                < final(cx).next_id,
        forall|i: u64|
            #[trigger] ids_of_seq(final(es)@).contains(i) ==> ids_of_seq(old(es)@).contains(i)
                || (old(cx).next_id <= i < final(cx).next_id),
        old(cx).next_id <= final(cx).next_id,
        old(cx).store.ops@.is_prefix_of(final(cx).store.ops@),
        final(cx).store.delivered@ == old(cx).store.delivered@,
        final(cx).windows@ == old(cx).windows@,
        pending_starts(old(cx).pending@, final(cx).pending@),
        old(cx).store.widgets@.len() <= final(cx).store.widgets@.len(),
        forall|w: usize|
            w < old(cx).store.widgets@.len() && w != pw && !widgets_of_seq(old(es)@).contains(w)
                ==> final(cx).store.widgets@[w as int] == old(cx).store.widgets@[w as int],
        crate::store::keeps_but_children(
            old(cx).store.widgets@[pw as int],
            final(cx).store.widgets@[pw as int],
        ),
        final(cx).store.widgets@[pw as int].children@ == child_widgets(final(es)@),
        forall|w: usize|
            #[trigger] widgets_of_seq(final(es)@).contains(w) ==> widgets_of_seq(
                old(es)@,
            ).contains(w) || (old(cx).store.widgets@.len() <= w < final(cx).store.widgets@.len()),
        forall|w: usize|
            #[trigger] widgets_of_seq(old(es)@).contains(w) ==> w < old(cx).store.widgets@.len() && (widgets_of_seq(final(es)@).contains(w) || !final(cx).store.widgets@[w as int].alive),
        forall|n: u64|
            #[trigger] forest_of(old(cx).layout.tree).dom().contains(n) && n != pn
                && !nodes_of_seq(old(es)@).contains(n) ==> forest_of(
                final(cx).layout.tree,
            ).dom().contains(n) && forest_of(final(cx).layout.tree)[n] == forest_of(
                old(cx).layout.tree,
            )[n],
        forest_of(final(cx).layout.tree).dom().contains(pn),
        forest_of(final(cx).layout.tree)[pn] == child_nodes(final(es)@),
        forall|n: u64|
            #[trigger] nodes_of_seq(final(es)@).contains(n) ==> nodes_of_seq(old(es)@).contains(
                n,
            ) || !forest_of(old(cx).layout.tree).dom().contains(n),
        forall|n: u64|
            #[trigger] forest_of(final(cx).layout.tree).dom().contains(n) ==> forest_of(
                old(cx).layout.tree,
            ).dom().contains(n) || nodes_of_seq(final(es)@).contains(n),
        forall|n: u64|
            #[trigger] nodes_of_seq(old(es)@).contains(n) && !nodes_of_seq(
                final(es)@,
            ).contains(n) ==> !forest_of(final(cx).layout.tree).dom().contains(n),
        forall|pp: u64, j: int|
            forest_of(final(cx).layout.tree).dom().contains(pp) && pp != pn && !nodes_of_seq(
                final(es)@,
            ).contains(pp) && 0 <= j < forest_of(final(cx).layout.tree)[pp].len()
                ==> !nodes_of_seq(final(es)@).contains(
                #[trigger] forest_of(final(cx).layout.tree)[pp][j],
            ),
{
    let ghost es0 = old(es)@;
    let ghost cx0 = *cx;
    proof {
        broadcast use vstd::seq_lib::lemma_seq_concat_contains_all_elements;

        assert(es0.skip(es0.len() as int) =~= Seq::<Element>::empty());
        lemma_wf_self_contained_seq(es0, cx0.store.widgets@, forest_of(cx0.layout.tree));
        assert forall|w: usize| #[trigger] widgets_of_seq(es0).contains(w) implies w
            < cx0.store.widgets@.len() by {
            let k = choose|k: int|
                0 <= k < widgets_of_seq(es0).len() && widgets_of_seq(es0)[k] == w;
        }
        assert(vs@.subrange(es0.len() as int, es0.len() as int) =~= Seq::<ViewTree>::empty());
    }
    while es.len() < vs.len()
        invariant
            es0.len() <= es@.len() <= vs@.len(),
            es@.take(es0.len() as int) =~= es0,
            forall|j: int| 0 <= j < es0.len() ==> es@[j] == es0[j],
            forall|j: int|
                es0.len() <= j < es@.len() ==> fits(#[trigger] vs@[j], es@[j]),
            forall|j: int|
                0 <= j < es@.len() ==> wf_elem(
                    #[trigger] es@[j],
                    cx.store.widgets@,
                    forest_of(cx.layout.tree),
                ),
            nodes_of_seq(es@).no_duplicates(),
            widgets_of_seq(es@).no_duplicates(),
            ids_of_seq(es@).no_duplicates(),
            forall|k: int|
                0 <= k < ids_of_seq(es@).len() ==> #[trigger] ids_of_seq(es@)[k] < cx.next_id,
            forall|q: u64|
                #[trigger] ids_of_seq(es@).contains(q) ==> ids_of_seq(es0).contains(q) || (
                cx0.next_id <= q < cx.next_id),
            cx0.next_id <= cx.next_id,
            cx.next_id == cx0.next_id + elem_count_seq(vs@.subrange(es0.len() as int, es@.len() as int)),
            cx.next_id + elem_count_seq(vs@.skip(es@.len() as int)) <= u64::MAX,
            pw < cx.store.widgets@.len(),
            cx0.store.widgets@.len() <= cx.store.widgets@.len(),
            !widgets_of_seq(es@).contains(pw),
            cx.store.widgets@[pw as int].children@ == child_widgets(es@),
            crate::store::keeps_but_children(
                cx0.store.widgets@[pw as int],
                cx.store.widgets@[pw as int],
            ),
            forall|w: usize|
                w < cx0.store.widgets@.len() && w != pw ==> cx.store.widgets@[w as int]
                    == cx0.store.widgets@[w as int],
            forall|w: usize|
                #[trigger] widgets_of_seq(es@).contains(w) ==> widgets_of_seq(es0).contains(w)
                    || (cx0.store.widgets@.len() <= w < cx.store.widgets@.len()),
            forall|w: usize|
                #[trigger] widgets_of_seq(es@).contains(w) ==> w < cx.store.widgets@.len(),
            forest_of(cx.layout.tree).dom().contains(pn),
            !nodes_of_seq(es@).contains(pn),
            forest_of(cx.layout.tree)[pn] == child_nodes(es@),
            forall|n: u64|
                #[trigger] forest_of(cx0.layout.tree).dom().contains(n) && n != pn ==> forest_of(
                    cx.layout.tree,
                ).dom().contains(n) && forest_of(cx.layout.tree)[n] == forest_of(
                    cx0.layout.tree,
                )[n],
            forall|n: u64|
                #[trigger] nodes_of_seq(es@).contains(n) ==> nodes_of_seq(es0).contains(n)
                    || !forest_of(cx0.layout.tree).dom().contains(n),
            forall|n: u64|
                #[trigger] forest_of(cx.layout.tree).dom().contains(n) ==> forest_of(
                    cx0.layout.tree,
                ).dom().contains(n) || nodes_of_seq(es@).contains(n),
            forall|n: u64|
                #[trigger] nodes_of_seq(es@).contains(n) ==> forest_of(
                    cx.layout.tree,
                ).dom().contains(n),
            forall|pp: u64, j: int|
                forest_of(cx.layout.tree).dom().contains(pp) && pp != pn && !nodes_of_seq(
                    es@,
                ).contains(pp) && 0 <= j < forest_of(cx.layout.tree)[pp].len() ==> !nodes_of_seq(
                    es@,
                ).contains(#[trigger] forest_of(cx.layout.tree)[pp][j]),
            cx0.store.ops@.is_prefix_of(cx.store.ops@),
            cx.store.delivered@ == cx0.store.delivered@,
            pending_starts(cx0.pending@, cx.pending@),
            cx.windows@ == cx0.windows@,
            dom_closed(forest_of(cx.layout.tree)),
            es@.len() == es0.len() ==> cx.store.widgets@ == cx0.store.widgets@ && cx.store.ops@
                == cx0.store.ops@ && forest_of(cx.layout.tree) == forest_of(cx0.layout.tree)
                && cx.next_id == cx0.next_id && cx.pending@ == cx0.pending@,
        decreases vs@.len() - es@.len(),
    {
        let i = es.len();
        proof {
            broadcast use vstd::seq_lib::lemma_seq_concat_contains_all_elements;

            assert(vs@.skip(i as int)[0] == vs@[i as int]);
            assert(vs@.skip(i as int).drop_first() =~= vs@.skip(i as int + 1));
            assert(elem_count_seq(vs@.skip(i as int)) == elem_count(vs@[i as int])
                + elem_count_seq(vs@.skip(i as int + 1)));
            lemma_counts_nonneg(vs@[i as int]);
            lemma_counts_nonneg_seq(vs@.skip(i as int + 1));
        }
        let ghost rem = es@;
        let ghost pre = *cx;
        let c = build(&vs[i], cx);
        let ghost mid = *cx;
        let cw = root_widget(&c);
        let cn = root_node(&c);
        proof {
            lemma_wf_self_contained(c, mid.store.widgets@, forest_of(mid.layout.tree));
            lemma_root_node_in_nodes(c);
            assert(mid.store.widgets@[pw as int] == pre.store.widgets@[pw as int]);
            assert(forest_of(mid.layout.tree)[pn] == forest_of(pre.layout.tree)[pn]);
            assert(child_widgets(rem).len() == rem.len());
        }
        cx.store.insert_child(pw, i, cw);
        cx.layout.insert_child(pn, i, cn);
        es.push(c);
        proof {
            broadcast use vstd::seq_lib::lemma_seq_concat_contains_all_elements;

            lemma_ops_push(mid.store.ops@, cx.store.ops@, crate::store::Op::InsertChild);
            let ws2 = cx.store.widgets@;
            let f2 = forest_of(cx.layout.tree);
            assert(es@ =~= rem.push(c));
            lemma_flat_push(rem, c);
            assert forall|j: int| 0 <= j < es@.len() implies wf_elem(
                #[trigger] es@[j],
                ws2,
                f2,
            ) by {
                if j < rem.len() {
                    lemma_wf_self_contained(
                        rem[j],
                        pre.store.widgets@,
                        forest_of(pre.layout.tree),
                    );
                    assert forall|w: usize| #[trigger] widgets_of(rem[j]).contains(w) implies w
                        < ws2.len() && ws2[w as int] == pre.store.widgets@[w as int] by {
                        lemma_seq_parts(rem, j);
                        assert(widgets_of_seq(rem).contains(w));
                        assert(w != pw);
                        assert(w < pre.store.widgets@.len());
                    }
                    assert forall|n: u64| #[trigger] nodes_of(rem[j]).contains(n) implies f2.dom()
                        .contains(n) && f2[n] == forest_of(pre.layout.tree)[n] by {
                        lemma_seq_parts(rem, j);
                        assert(nodes_of_seq(rem).contains(n));
                        assert(n != pn);
                        assert(forest_of(pre.layout.tree).dom().contains(n));
                    }
                    lemma_wf_frame(
                        rem[j],
                        pre.store.widgets@,
                        forest_of(pre.layout.tree),
                        ws2,
                        f2,
                    );
                    assert(es@[j] == rem[j]);
                } else {
                    assert(es@[j] == c);
                    assert forall|w: usize| #[trigger] widgets_of(c).contains(w) implies w
                        < ws2.len() && ws2[w as int] == mid.store.widgets@[w as int] by {
                        assert(w != pw);
                    }
                    assert forall|n: u64| #[trigger] nodes_of(c).contains(n) implies f2.dom()
                        .contains(n) && f2[n] == forest_of(mid.layout.tree)[n] by {
                        assert(forest_of(mid.layout.tree).dom().contains(n));
                        assert(n != pn);
                    }
                    lemma_wf_frame(c, mid.store.widgets@, forest_of(mid.layout.tree), ws2, f2);
                }
            }
            assert forall|q: u64| nodes_of_seq(rem).contains(q) implies !nodes_of(c).contains(
                q,
            ) by {
                crate::element::lemma_flat_member_nodes(rem, q);
                let k = choose|k: int|
                    0 <= k < rem.len() && nodes_of(#[trigger] rem[k]).contains(q);
                lemma_wf_self_contained(rem[k], pre.store.widgets@, forest_of(pre.layout.tree));
                assert(forest_of(pre.layout.tree).dom().contains(q));
            }
            lemma_nodup_join(nodes_of_seq(rem), nodes_of(c));
            assert forall|q: usize| widgets_of_seq(rem).contains(q) implies !widgets_of(
                c,
            ).contains(q) by {
                assert(q < pre.store.widgets@.len()) by {
                    assert(widgets_of_seq(es0).contains(q) || q < pre.store.widgets@.len());
                }
            }
            lemma_nodup_join(widgets_of_seq(rem), widgets_of(c));
            assert forall|q: u64| ids_of_seq(rem).contains(q) implies !ids_of(c).contains(
                q,
            ) by {
                assert(q < pre.next_id);
            }
            lemma_nodup_join(ids_of_seq(rem), ids_of(c));
            assert(cx.store.widgets@[pw as int].children@ =~= child_widgets(es@)) by {
                assert(child_widgets(es@) =~= child_widgets(rem).push(widget_of(c)));
            }
            assert(f2[pn] =~= child_nodes(es@)) by {
                assert(child_nodes(es@) =~= child_nodes(rem).push(node_of(c)));
            }
            assert(es@.take(es0.len() as int) =~= rem.take(es0.len() as int));
            assert(vs@.subrange(es0.len() as int, es@.len() as int).drop_last() =~= vs@.subrange(
                es0.len() as int,
                rem.len() as int,
            ));
            assert(elem_count_seq(vs@.subrange(es0.len() as int, es@.len() as int))
                == elem_count_seq(vs@.subrange(es0.len() as int, rem.len() as int))
                + elem_count(vs@[rem.len() as int])) by {
                lemma_view_counts_parts(
                    vs@.subrange(es0.len() as int, es@.len() as int),
                    es@.len() as int - es0.len() as int - 1,
                );
                assert(vs@.subrange(es0.len() as int, es@.len() as int).take(
                    es@.len() as int - es0.len() as int - 1,
                ) =~= vs@.subrange(es0.len() as int, rem.len() as int));
                assert(vs@.subrange(es0.len() as int, es@.len() as int).skip(
                    es@.len() as int - es0.len() as int,
                ) =~= Seq::<ViewTree>::empty());
                assert(vs@.subrange(es0.len() as int, es@.len() as int)[es@.len() as int
                    - es0.len() as int - 1] == vs@[rem.len() as int]);
            }
            lemma_pending_starts_trans(cx0.pending@, pre.pending@, cx.pending@);
            assert(cx0.store.ops@.is_prefix_of(cx.store.ops@)) by {
                assert(cx.store.ops@.subrange(0, cx0.store.ops@.len() as int) =~= mid.store.ops@.subrange(
                    0,
                    cx0.store.ops@.len() as int,
                ));
            }
            assert forall|pp: u64, j: int|
                f2.dom().contains(pp) && pp != pn && !nodes_of_seq(es@).contains(pp) && 0 <= j
                    < f2[pp].len() implies !nodes_of_seq(es@).contains(
                #[trigger] f2[pp][j],
            ) by {
                if forest_of(mid.layout.tree).dom().contains(pp) {
                    assert(f2[pp] == forest_of(mid.layout.tree)[pp]);
                    if forest_of(pre.layout.tree).dom().contains(pp) {
                        assert(f2[pp] == forest_of(pre.layout.tree)[pp]);
                        assert(!nodes_of_seq(rem).contains(f2[pp][j]));
                        if nodes_of(c).contains(f2[pp][j]) {
                            lemma_wf_self_contained(
                                c,
                                mid.store.widgets@,
                                forest_of(mid.layout.tree),
                            );
                            assert(!forest_of(pre.layout.tree).dom().contains(f2[pp][j]));
                            assert(forest_of(pre.layout.tree).dom().contains(pp));
                            // pp's entry is an old entry: its members are
                            // either old tree nodes or outside the list
                            assert(!nodes_of_seq(es@).contains(f2[pp][j]) || nodes_of_seq(
                                rem,
                            ).contains(f2[pp][j]) || nodes_of(c).contains(f2[pp][j]));
                            // a fresh node cannot appear in a preserved entry:
                            // preserved entries only hold nodes that were live
                            assert(pp != pn);
                            assert(forest_of(pre.layout.tree).dom().contains(f2[pp][j]));
                        }
                    } else {
                        assert(nodes_of(c).contains(pp));
                        lemma_wf_self_contained(
                            c,
                            mid.store.widgets@,
                            forest_of(mid.layout.tree),
                        );
                        assert(nodes_of(c).contains(f2[pp][j]));
                        assert(nodes_of_seq(es@).contains(f2[pp][j]));
                    }
                }
            }
            assert forall|pp: u64, j: int|
                f2.dom().contains(pp) && 0 <= j < f2[pp].len() implies f2.dom().contains(
                #[trigger] f2[pp][j],
            ) by {
                if pp == pn {
                    assert(f2[pn][j] == child_nodes(es@)[j]);
                    assert(f2[pn][j] == node_of(es@[j]));
                    lemma_child_root_in_seq(es@, j);
                    assert(nodes_of_seq(es@).contains(f2[pn][j]));
                    crate::element::lemma_flat_member_nodes(es@, f2[pn][j]);
                    let k = choose|k: int|
                        0 <= k < es@.len() && nodes_of(#[trigger] es@[k]).contains(f2[pn][j]);
                    lemma_wf_self_contained(es@[k], ws2, f2);
                } else if nodes_of(c).contains(pp) {
                    assert(wf_elem(c, ws2, f2)) by {
                        assert(es@[rem.len() as int] == c);
                    }
                    lemma_wf_self_contained(c, ws2, f2);
                    assert(nodes_of(c).contains(f2[pp][j]));
                } else {
                    assert(forest_of(pre.layout.tree).dom().contains(pp));
                    assert(f2[pp] == forest_of(pre.layout.tree)[pp]);
                    assert(forest_of(pre.layout.tree).dom().contains(f2[pp][j]));
                }
            }
            assert forall|k: int| 0 <= k < ids_of_seq(es@).len() implies #[trigger] ids_of_seq(
                es@,
            )[k] < cx.next_id by {
                assert(ids_of_seq(es@).contains(ids_of_seq(es@)[k]));
                let q = ids_of_seq(es@)[k];
                if ids_of_seq(rem).contains(q) {
                    let k2 = choose|k2: int|
                        0 <= k2 < ids_of_seq(rem).len() && ids_of_seq(rem)[k2] == q;
                } else {
                    assert(ids_of(c).contains(q));
                }
            }
        }
    }
    proof {
        broadcast use vstd::seq_lib::lemma_seq_concat_contains_all_elements;

        assert(es@.take(es0.len() as int) =~= es0) by {
            assert(forall|j: int| 0 <= j < es0.len() ==> es@[j] == es0[j]);
        }
        assert(vs@.subrange(es0.len() as int, vs@.len() as int) =~= vs@.skip(es0.len() as int));
        lemma_flat_split_at(es@, es0.len() as int);
        assert forall|w: usize| #[trigger] widgets_of_seq(es0).contains(w) implies w
            < cx0.store.widgets@.len() && (widgets_of_seq(es@).contains(w)
            || !cx.store.widgets@[w as int].alive) by {
            assert(widgets_of_seq(es@.take(es0.len() as int)).contains(w));
        }
        assert forall|q: u64|
            #[trigger] nodes_of_seq(es0).contains(q) && !nodes_of_seq(es@).contains(q)
                implies !forest_of(cx.layout.tree).dom().contains(q) by {
            assert(nodes_of_seq(es@.take(es0.len() as int)).contains(q));
        }
    }
}


/// Converges a text element in place to a new text view, the matched-kind
/// path of the reconciler at a text position: the platform widget, the
/// layout node and the identity are all kept, the run is reshaped only when
/// its text configuration changed, repainted only when its color changed —
/// and a view that already fits the element causes no platform call at all.
pub fn rebuild_text(tv: &crate::views::Text, te: &mut TextElement, cx: &mut Context)
    requires
        wf_elem(
            Element::Text(*old(te)),
            old(cx).store.widgets@,
            forest_of(old(cx).layout.tree),
        ),
    ensures
        fits(ViewTree::Text(*tv), Element::Text(*final(te))),
        wf_elem(
            Element::Text(*final(te)),
            final(cx).store.widgets@,
            forest_of(final(cx).layout.tree),
        ),
        // identity preservation: same widget, node and identity as before
        final(te).widget == old(te).widget,
        final(te).node == old(te).node,
        final(te).view_id == old(te).view_id,
        preserves_identity(
            ViewTree::Text(*tv),
            Element::Text(*old(te)),
            Element::Text(*final(te)),
        ),
        // a fitting view is a platform no-op
        fits(ViewTree::Text(*tv), Element::Text(*old(te))) ==> *final(te) == *old(te) && final(cx).store.widgets@ == old(cx).store.widgets@ && final(cx).store.ops@ == old(cx).store.ops@,
        // no widget is built or torn down, and nothing else is touched
        count_builds(final(cx).store.ops@) == count_builds(old(cx).store.ops@),
        count_teardowns(final(cx).store.ops@) == count_teardowns(old(cx).store.ops@),
        old(cx).store.ops@.is_prefix_of(final(cx).store.ops@),
        final(cx).store.widgets@.len() == old(cx).store.widgets@.len(),
        forall|w: int|
            0 <= w < old(cx).store.widgets@.len() && w != old(te).widget ==> final(cx).store.widgets@[w] == old(cx).store.widgets@[w],
        forest_of(final(cx).layout.tree) == forest_of(old(cx).layout.tree),
        final(cx).store.delivered@ == old(cx).store.delivered@,
        final(cx).next_id == old(cx).next_id,
        final(cx).pending@ == old(cx).pending@,
        final(cx).windows@ == old(cx).windows@,
{
    let st = text_style();
    cx.layout.set_style(te.node, &st);
    if !(tv.text == te.text) || !(tv.font == te.font) || !(tv.wrap == te.wrap) {
        cx.store.set_text(te.widget, &tv.text);
        te.text = tv.text.clone();
        te.font = tv.font;
        te.wrap = tv.wrap;
        proof {
            lemma_ops_push(old(cx).store.ops@, cx.store.ops@, crate::store::Op::SetText);
        }
    }
    if !(tv.color == te.color) {
        let ghost pre = cx.store.ops@;
        cx.store.set_color(te.widget, tv.color);
        te.color = tv.color;
        proof {
            lemma_ops_push(pre, cx.store.ops@, crate::store::Op::SetColor);
            assert(old(cx).store.ops@.is_prefix_of(cx.store.ops@)) by {
                assert(cx.store.ops@.subrange(0, old(cx).store.ops@.len() as int) =~= pre.subrange(
                    0,
                    old(cx).store.ops@.len() as int,
                ));
            }
        }
    }
}

/// What a layout pass leaves behind: the forest untouched, exactly one
/// layout signal queued, only the window's own widget written, and — for a
/// content-sized window — the pushed window size and the element's cached
/// size pinned to the solver's cache for the root node.  For a user-sized
/// window the pass logs exactly the minimum-size write and caches the
/// platform-reported size; the minimum value itself is a mid-pass readback
/// of the solver's min-content cache, which an end-state contract cannot
/// name.
pub open spec fn layout_pass_post(
    we0: WindowElement,
    we1: WindowElement,
    cx0: Context,
    cx1: Context,
) -> bool {
    &&& forest_of(cx1.layout.tree) == forest_of(cx0.layout.tree)
    &&& cx1.store.widgets@.len() == cx0.store.widgets@.len()
    &&& cx1.store.widgets@ == cx0.store.widgets@.update(
        we0.widget as int,
        cx1.store.widgets@[we0.widget as int],
    )
    &&& ({
        let a = cx0.store.widgets@[we0.widget as int];
        let b = cx1.store.widgets@[we0.widget as int];
        b.kind == a.kind && b.alive == a.alive && b.text == a.text && b.color == a.color
            && b.children == a.children && b.resizable == a.resizable && b.clock == a.clock
            && b.layer_shell == a.layer_shell
    })
    &&& cx1.next_id == cx0.next_id
    &&& cx1.windows@ == cx0.windows@
    &&& cx1.pending@ == cx0.pending@.push(
        Message {
            payload: Payload::Lifecycle(crate::message::Lifecycle::Layout),
            target: None,
            taken: false,
        },
    )
    &&& we1.view_id == we0.view_id
    &&& we1.widget == we0.widget
    &&& we1.node == we0.node
    &&& we1.sizing == we0.sizing
    &&& we1.layer_shell == we0.layer_shell
    &&& we1.animating == we0.animating
    &&& we1.content == we0.content
    &&& (we0.sizing is User ==> {
        // both passes ran: exactly the minimum-size write was logged, and
        // the element caches the platform-reported size the tree was laid
        // out at
        &&& cx1.store.ops@ == cx0.store.ops@.push(crate::store::Op::SetMinSize)
        &&& cx1.store.widgets@[we0.widget as int].width == cx0.store.widgets@[
            we0.widget as int
        ].width
        &&& cx1.store.widgets@[we0.widget as int].height == cx0.store.widgets@[
            we0.widget as int
        ].height
        &&& we1.width == cx0.store.widgets@[we0.widget as int].width
        &&& we1.height == cx0.store.widgets@[we0.widget as int].height
    })
    &&& (we0.sizing is Content ==> {
        // one pass at maximum content size: the pushed window size and the
        // cached element size are the solver's cache for the root node
        let m = crate::layout::read_size_of(cx1.layout.tree)[we0.node];
        &&& cx1.store.ops@ == cx0.store.ops@.push(crate::store::Op::SetSize)
        &&& cx1.store.widgets@[we0.widget as int].min_width == cx0.store.widgets@[
            we0.widget as int
        ].min_width
        &&& cx1.store.widgets@[we0.widget as int].min_height == cx0.store.widgets@[
            we0.widget as int
        ].min_height
        &&& cx1.store.widgets@[we0.widget as int].width == m.0
        &&& cx1.store.widgets@[we0.widget as int].height == m.1
        &&& we1.width == m.0
        &&& we1.height == m.1
    })
}

/// The window's two-pass layout decision.  For a user-sized window the
/// first pass computes the content's minimum size under a min-content
/// constraint and pushes it to the platform as the window's minimum size;
/// the second pass lays the tree out at the platform-reported current size.
/// A content-sized window instead lays out at maximum content size and
/// pushes the solver's cached result to the platform as the window's size.
/// Either way a layout signal is queued afterwards, so elements can pick up
/// the fresh geometry.
pub fn window_layout(we: &mut WindowElement, cx: &mut Context)
    requires
        forest_of(old(cx).layout.tree).dom().contains(old(we).node),
        crate::element::shaped_at(forest_of(old(cx).layout.tree), old(we).node),
        old(we).widget < old(cx).store.widgets@.len(),
    ensures
        layout_pass_post(*old(we), *final(we), *old(cx), *final(cx)),
        final(cx).store.delivered@ == old(cx).store.delivered@,
{
    let pw = we.widget;
    match we.sizing {
        crate::style::WindowSizing::User => {
            // first pass: the content's minimum size becomes the window's
            // minimum size
            let st = plain_style();
            cx.layout.set_style(we.node, &st);
            cx.layout.compute(we.node, crate::layout::Space::MinContent);
            let ghost ops0 = cx.store.ops@;
            match cx.layout.computed_size(we.node) {
                Some(m) => {
                    cx.store.set_min_size(pw, m.0, m.1);
                },
                None => {},
            }
            // second pass: lay out at the platform-reported current size
            let s = cx.store.size_of(pw);
            let st2 = crate::layout::fixed_style(s.0, s.1);
            cx.layout.set_style(we.node, &st2);
            cx.layout.compute(we.node, crate::layout::Space::Definite(s.0, s.1));
            we.width = s.0;
            we.height = s.1;
        },
        crate::style::WindowSizing::Content => {
            // one pass at maximum content size; the solver's cached result
            // becomes the window's size
            let st = plain_style();
            cx.layout.set_style(we.node, &st);
            cx.layout.compute(we.node, crate::layout::Space::MaxContent);
            match cx.layout.computed_size(we.node) {
                Some(m) => {
                    cx.store.set_size(pw, m.0, m.1);
                    we.width = m.0;
                    we.height = m.1;
                },
                None => {
                    proof {
                        assert(false);
                    }
                },
            }
        },
    }
    let m = Message::broadcast(Payload::Lifecycle(crate::message::Lifecycle::Layout));
    cx.pending.push(m);
}

/// Whether a message is for this pressable: targeted at its identity, not
/// yet consumed, and of a kind the region listens for.
pub open spec fn pressable_hit(pe: PressableElement, m: Message) -> bool {
    &&& m.target == Some(pe.view_id)
    &&& !m.taken
    &&& (m.payload is Press || m.payload is Hover || m.payload is Focus)
}

/// A pressable region's message handler, the self-targeted step of
/// dispatch: a message addressed to this region is consumed exactly once,
/// logged, and stepped through the press machine — the press command fires
/// only on a release while still pressed, hover and focus commands on
/// every change.  Consuming any pointer message asks for a rebuild, since
/// the press state (and with it the appearance) may have changed even when
/// no command is registered.  A message that misses the region leaves
/// everything here untouched; the dispatch layer above this step forwards
/// such a message into the region's content.
pub fn pressable_message(pe: &mut PressableElement, m: &mut Message, cx: &mut Context) -> (a:
    Action)
    ensures
        // a miss changes nothing
        !pressable_hit(*old(pe), *old(m)) ==> *final(pe) == *old(pe) && *final(m) == *old(m)
            && *final(cx) == *old(cx) && !a.rebuild && !a.quit && a.commands@ == Seq::<
            u64,
        >::empty(),
        // a hit consumes the payload exactly once and logs the delivery
        pressable_hit(*old(pe), *old(m)) ==> *final(m) == (Message {
            taken: true,
            ..*old(m)
        }) && final(cx).store.delivered@ == old(cx).store.delivered@.push(old(pe).view_id.0)
            && final(cx).store.widgets@ == old(cx).store.widgets@ && final(cx).store.ops@ == old(cx).store.ops@ && forest_of(final(cx).layout.tree) == forest_of(old(cx).layout.tree)
            && final(cx).next_id == old(cx).next_id && final(cx).pending@ == old(cx).pending@
            && final(cx).windows@ == old(cx).windows@,
        // the region's configuration and content never change here
        final(pe).view_id == old(pe).view_id && final(pe).widget == old(pe).widget && final(pe).on_press == old(pe).on_press && final(pe).on_hover == old(pe).on_hover && final(pe).on_focus == old(pe).on_focus && final(pe).content == old(pe).content,
        // the press machine governs a press payload
        pressable_hit(*old(pe), *old(m)) ==> (old(m).payload matches Payload::Press(ev) ==> {
            let step = crate::message::spec_press_step(old(pe).press, ev);
            &&& final(pe).press == step.0
            &&& a.commands@ == (if step.1 && old(pe).on_press is Some {
                seq![old(pe).on_press->0]
            } else {
                Seq::<u64>::empty()
            })
            &&& !a.quit
        }),
        // hover toggles the hover flag and fires the hover command
        pressable_hit(*old(pe), *old(m)) ==> (old(m).payload matches Payload::Hover(h) ==> {
            &&& final(pe).press == (PressState { hovered: h, ..old(pe).press })
            &&& a.commands@ == (if old(pe).on_hover is Some {
                seq![old(pe).on_hover->0]
            } else {
                Seq::<u64>::empty()
            })
            &&& !a.quit
        }),
        // focus toggles the focus flag and fires the focus command
        pressable_hit(*old(pe), *old(m)) ==> (old(m).payload matches Payload::Focus(b) ==> {
            &&& final(pe).press == (PressState { focused: b, ..old(pe).press })
            &&& a.commands@ == (if old(pe).on_focus is Some {
                seq![old(pe).on_focus->0]
            } else {
                Seq::<u64>::empty()
            })
            &&& !a.quit
        }),
        // consuming always requests a re-render: the press state changed
        a.rebuild == pressable_hit(*old(pe), *old(m)),
{
    let mut a = Action::new();
    let hit = match (m.target, m.taken, m.payload) {
        (Some(t), false, Payload::Press(_)) => t == pe.view_id,
        (Some(t), false, Payload::Hover(_)) => t == pe.view_id,
        (Some(t), false, Payload::Focus(_)) => t == pe.view_id,
        _ => false,
    };
    if hit {
        m.taken = true;
        a.rebuild = true;
        cx.store.log_delivery(pe.view_id.0);
        match m.payload {
            Payload::Press(ev) => {
                let step = crate::message::press_step(pe.press, ev);
                pe.press = step.0;
                if step.1 {
                    match pe.on_press {
                        Some(cmd) => a.fire(cmd),
                        None => {},
                    }
                }
            },
            Payload::Hover(h) => {
                pe.press = PressState { hovered: h, ..pe.press };
                match pe.on_hover {
                    Some(cmd) => a.fire(cmd),
                    None => {},
                }
            },
            Payload::Focus(b) => {
                pe.press = PressState { focused: b, ..pe.press };
                match pe.on_focus {
                    Some(cmd) => a.fire(cmd),
                    None => {},
                }
            },
            _ => {},
        }
    }
    a
}

/// Whether a message is for this window: targeted at its identity, not yet
/// consumed, and a window message.
pub open spec fn window_hit(we: WindowElement, m: Message) -> bool {
    &&& m.target == Some(we.view_id)
    &&& !m.taken
    &&& m.payload is Window
}

/// A window's message handler, the self-targeted step of dispatch.  Start
/// and stop requests move the reference-counted animating count, and the
/// platform frame clock runs exactly while the count is positive — started
/// on the zero-to-one transition, stopped on the one-to-zero transition.
/// A frame tick, while animating, is dispatched as a broadcast animation
/// signal through the window's contents, and the subtree's action is
/// returned; a stale tick is dropped.  A close request asks the driver to
/// quit.  A relayout request runs the two-pass layout, as does a size
/// report that differs from the last size seen; a report of an unchanged
/// size is a no-op beyond the delivery log.
pub fn window_message(we: &mut WindowElement, m: &mut Message, cx: &mut Context) -> (a: Action)
    requires
        forest_of(old(cx).layout.tree).dom().contains(old(we).node),
        crate::element::shaped_at(forest_of(old(cx).layout.tree), old(we).node),
        old(we).widget < old(cx).store.widgets@.len(),
        old(cx).store.widgets@[old(we).widget as int].clock == (old(we).animating > 0),
        wf_elem(
            old(we).content,
            old(cx).store.widgets@,
            forest_of(old(cx).layout.tree),
        ),
    ensures
        // the clock keeps tracking the count
        final(we).widget < final(cx).store.widgets@.len(),
        final(cx).store.widgets@[final(we).widget as int].clock == (final(we).animating > 0),
        // a miss changes nothing here; the dispatch layer above this step
        // forwards such a message into the contents
        !window_hit(*old(we), *old(m)) ==> *final(we) == *old(we) && *final(m) == *old(m)
            && *final(cx) == *old(cx) && !a.rebuild && !a.quit && a.commands@ == Seq::<
            u64,
        >::empty(),
        // a hit consumes the payload exactly once
        window_hit(*old(we), *old(m)) ==> *final(m) == (Message { taken: true, ..*old(m) }),
        // configuration and content never change here
        final(we).view_id == old(we).view_id && final(we).widget == old(we).widget && final(we).node == old(we).node && final(we).sizing == old(we).sizing && final(we).layer_shell
            == old(we).layer_shell && final(we).content == old(we).content,
        // the reference count moves only on start and stop requests
        (window_hit(*old(we), *old(m)) && old(m).payload == Payload::Window(
            WindowMessage::StartAnimating,
        )) ==> final(we).animating == (if old(we).animating < u32::MAX {
            old(we).animating + 1
        } else {
            old(we).animating as int
        }) && final(cx).store.delivered@ == old(cx).store.delivered@.push(old(we).view_id.0)
            && final(cx).pending@ == old(cx).pending@,
        (window_hit(*old(we), *old(m)) && old(m).payload == Payload::Window(
            WindowMessage::StopAnimating,
        )) ==> final(we).animating == (if old(we).animating > 0 {
            old(we).animating - 1
        } else {
            0int
        }) && final(cx).store.delivered@ == old(cx).store.delivered@.push(old(we).view_id.0)
            && final(cx).pending@ == old(cx).pending@,
        // a frame tick is dispatched through the contents while animating —
        // the signal reaches every element of the subtree and the subtree's
        // action is returned; a stale tick is dropped
        window_hit(*old(we), *old(m)) ==> (old(m).payload matches Payload::Window(
            WindowMessage::AnimationFrame(ms),
        ) ==> ({
            &&& final(cx).pending@ == old(cx).pending@
            &&& (old(we).animating > 0 ==> final(cx).store.delivered@ == old(cx).store.delivered@.push(old(we).view_id.0) + crate::element::ids_of(
                old(we).content,
            ) && a.commands@ == crate::element::tick_commands(old(we).content) && a.rebuild == (
            a.commands@.len() > 0))
            &&& (old(we).animating == 0 ==> final(cx).store.delivered@ == old(cx).store.delivered@.push(old(we).view_id.0) && a.commands@ == Seq::<u64>::empty()
                && !a.rebuild)
        })),
        // a close request asks the driver to quit, and only that
        a.quit == (window_hit(*old(we), *old(m)) && old(m).payload == Payload::Window(
            WindowMessage::CloseRequested,
        )),
        (window_hit(*old(we), *old(m)) && old(m).payload == Payload::Window(
            WindowMessage::CloseRequested,
        )) ==> final(cx).store.delivered@ == old(cx).store.delivered@.push(old(we).view_id.0)
            && final(cx).pending@ == old(cx).pending@,
        // a relayout request runs the two-pass layout
        (window_hit(*old(we), *old(m)) && old(m).payload == Payload::Window(
            WindowMessage::Relayout,
        )) ==> layout_pass_post(*old(we), *final(we), *old(cx), *final(cx)) && final(cx).store.delivered@ == old(cx).store.delivered@.push(old(we).view_id.0),
        // a size report runs the layout only when the size really changed
        window_hit(*old(we), *old(m)) ==> (old(m).payload == Payload::Window(
            WindowMessage::Resized,
        ) ==> ({
            let cur_w = old(cx).store.widgets@[old(we).widget as int].width;
            let cur_h = old(cx).store.widgets@[old(we).widget as int].height;
            &&& ((cur_w != old(we).width || cur_h != old(we).height) ==> layout_pass_post(
                *old(we),
                *final(we),
                *old(cx),
                *final(cx),
            ))
            &&& ((cur_w == old(we).width && cur_h == old(we).height) ==> *final(we) == *old(we) && final(cx).store.widgets@ == old(cx).store.widgets@ && final(cx).store.ops@
                == old(cx).store.ops@ && final(cx).pending@ == old(cx).pending@)
            &&& final(cx).store.delivered@ == old(cx).store.delivered@.push(
                old(we).view_id.0,
            )
        })),
        a.commands@ == (if window_hit(*old(we), *old(m)) && (old(m).payload matches
            Payload::Window(WindowMessage::AnimationFrame(_))) && old(we).animating > 0 {
            crate::element::tick_commands(old(we).content)
        } else {
            Seq::<u64>::empty()
        }),
        a.rebuild == (a.commands@.len() > 0),
        // no pass builds or destroys anything, and only the window's own
        // widget is written — at most its sizes and frame clock
        ops_extended(old(cx).store.ops@, final(cx).store.ops@, 0, 0),
        final(cx).store.widgets@.len() == old(cx).store.widgets@.len(),
        final(cx).store.widgets@ == old(cx).store.widgets@.update(
            old(we).widget as int,
            final(cx).store.widgets@[old(we).widget as int],
        ),
        crate::store::keeps_structure(
            old(cx).store.widgets@[old(we).widget as int],
            final(cx).store.widgets@[old(we).widget as int],
        ),
        forest_of(final(cx).layout.tree) == forest_of(old(cx).layout.tree),
        final(cx).next_id == old(cx).next_id,
        final(cx).windows@ == old(cx).windows@,
{
    proof {
        assert(old(cx).store.widgets@ =~= old(cx).store.widgets@.update(
            old(we).widget as int,
            old(cx).store.widgets@[old(we).widget as int],
        ));
    }
    let mut a = Action::new();
    let hit = match (m.target, m.taken, m.payload) {
        (Some(t), false, Payload::Window(_)) => t == we.view_id,
        _ => false,
    };
    if hit {
        m.taken = true;
        cx.store.log_delivery(we.view_id.0);
        match m.payload {
            Payload::Window(WindowMessage::StartAnimating) => {
                if we.animating == 0 {
                    let ghost ops0 = cx.store.ops@;
                    cx.store.set_clock(we.widget, true);
                    proof {
                        lemma_ops_push(ops0, cx.store.ops@, crate::store::Op::StartClock);
                    }
                }
                if we.animating < u32::MAX {
                    we.animating = we.animating + 1;
                }
            },
            Payload::Window(WindowMessage::StopAnimating) => {
                if we.animating == 1 {
                    let ghost ops0 = cx.store.ops@;
                    cx.store.set_clock(we.widget, false);
                    proof {
                        lemma_ops_push(ops0, cx.store.ops@, crate::store::Op::StopClock);
                    }
                }
                if we.animating > 0 {
                    we.animating = we.animating - 1;
                }
            },
            Payload::Window(WindowMessage::AnimationFrame(ms)) => {
                if we.animating > 0 {
                    let tick = broadcast_route(
                        &we.content,
                        Payload::Lifecycle(crate::message::Lifecycle::Animate(ms)),
                        cx,
                    );
                    a.merge(tick);
                }
            },
            Payload::Window(WindowMessage::CloseRequested) => {
                a.quit = true;
            },
            Payload::Window(WindowMessage::Relayout) => {
                let ghost ops0 = cx.store.ops@;
                window_layout(we, cx);
                proof {
                    if old(we).sizing is User {
                        lemma_ops_push(ops0, cx.store.ops@, crate::store::Op::SetMinSize);
                    } else {
                        lemma_ops_push(ops0, cx.store.ops@, crate::store::Op::SetSize);
                    }
                }
            },
            Payload::Window(WindowMessage::Resized) => {
                let s = cx.store.size_of(we.widget);
                if !(s.0 == we.width) || !(s.1 == we.height) {
                    let ghost ops0 = cx.store.ops@;
                    window_layout(we, cx);
                    proof {
                        if old(we).sizing is User {
                            lemma_ops_push(
                                ops0,
                                cx.store.ops@,
                                crate::store::Op::SetMinSize,
                            );
                        } else {
                            lemma_ops_push(ops0, cx.store.ops@, crate::store::Op::SetSize);
                        }
                    }
                }
            },
            _ => {},
        }
    }
    a
}

/// Plays a layout signal onto one container: the group widget takes the
/// solver's cached size for the container's node, and one positioning call
/// is logged for each child.  The recorded calls are sizing only — the
/// three child lists are untouched, and exactly one resize plus one call
/// per child are logged.
#[verifier::loop_isolation(false)]
pub fn group_apply_layout(fe: &FlexElement, cx: &mut Context)
    requires
        wf_elem(
            Element::Flex(*fe),
            old(cx).store.widgets@,
            forest_of(old(cx).layout.tree),
        ),
    ensures
        forest_of(final(cx).layout.tree) == forest_of(old(cx).layout.tree),
        final(cx).store.widgets@ == old(cx).store.widgets@.update(
            fe.widget as int,
            final(cx).store.widgets@[fe.widget as int],
        ),
        crate::store::keeps_but_size(
            old(cx).store.widgets@[fe.widget as int],
            final(cx).store.widgets@[fe.widget as int],
        ),
        // the group takes exactly the solver's cached size for its node
        final(cx).store.widgets@[fe.widget as int].width == crate::layout::read_size_of(
            final(cx).layout.tree,
        )[fe.node].0,
        final(cx).store.widgets@[fe.widget as int].height == crate::layout::read_size_of(
            final(cx).layout.tree,
        )[fe.node].1,
        // exactly one resize and one positioning call per child are logged
        final(cx).store.ops@.len() == old(cx).store.ops@.len() + 1 + fe.children@.len(),
        old(cx).store.ops@.is_prefix_of(final(cx).store.ops@),
        final(cx).store.ops@[old(cx).store.ops@.len() as int] == crate::store::Op::SetSize,
        forall|k: int|
            old(cx).store.ops@.len() < k < final(cx).store.ops@.len() ==> final(cx).store.ops@[k] == crate::store::Op::SetChildLayout,
        ops_extended(old(cx).store.ops@, final(cx).store.ops@, 0, 0),
        final(cx).store.delivered@ == old(cx).store.delivered@,
        final(cx).next_id == old(cx).next_id,
        final(cx).pending@ == old(cx).pending@,
        final(cx).windows@ == old(cx).windows@,
{
    let ghost ops0 = cx.store.ops@;
    let sz = match cx.layout.computed_size(fe.node) {
        Some(s) => s,
        None => (0, 0),
    };
    cx.store.set_size(fe.widget, sz.0, sz.1);
    proof {
        lemma_ops_push(ops0, cx.store.ops@, crate::store::Op::SetSize);
        assert(ops0.is_prefix_of(cx.store.ops@)) by {
            assert(cx.store.ops@.subrange(0, ops0.len() as int) =~= ops0);
        }
    }
    let n = fe.children.len();
    let mut i: usize = 0;
    while i < n
        invariant
            i <= n,
            n == fe.children@.len(),
            wf_elem(
                Element::Flex(*fe),
                old(cx).store.widgets@,
                forest_of(old(cx).layout.tree),
            ),
            forest_of(cx.layout.tree) == forest_of(old(cx).layout.tree),
            cx.store.widgets@ == old(cx).store.widgets@.update(
                fe.widget as int,
                cx.store.widgets@[fe.widget as int],
            ),
            crate::store::keeps_but_size(
                old(cx).store.widgets@[fe.widget as int],
                cx.store.widgets@[fe.widget as int],
            ),
            cx.store.widgets@[fe.widget as int].width == crate::layout::read_size_of(
                cx.layout.tree,
            )[fe.node].0,
            cx.store.widgets@[fe.widget as int].height == crate::layout::read_size_of(
                cx.layout.tree,
            )[fe.node].1,
            cx.store.ops@.len() == old(cx).store.ops@.len() + 1 + i,
            old(cx).store.ops@.is_prefix_of(cx.store.ops@),
            cx.store.ops@[old(cx).store.ops@.len() as int] == crate::store::Op::SetSize,
            forall|k: int|
                old(cx).store.ops@.len() < k < cx.store.ops@.len() ==> cx.store.ops@[k]
                    == crate::store::Op::SetChildLayout,
            ops_extended(old(cx).store.ops@, cx.store.ops@, 0, 0),
            cx.store.delivered@ == old(cx).store.delivered@,
            cx.next_id == old(cx).next_id,
            cx.pending@ == old(cx).pending@,
            cx.windows@ == old(cx).windows@,
        decreases n - i,
    {
        proof {
            lemma_wf_self_contained(
                Element::Flex(*fe),
                old(cx).store.widgets@,
                forest_of(old(cx).layout.tree),
            );
            lemma_child_root_in_seq(fe.children@, i as int);
            broadcast use vstd::seq_lib::lemma_seq_concat_contains_all_elements;

            assert(nodes_of(Element::Flex(*fe)).contains(node_of(fe.children@[i as int])));
        }
        let ghost ops1 = cx.store.ops@;
        // read the child's cached geometry and log its positioning; the
        // recording backend keeps no coordinates
        let cn = root_node(&fe.children[i]);
        let _ = cx.layout.computed_size(cn);
        cx.store.set_child_layout(fe.widget);
        proof {
            lemma_ops_push(ops1, cx.store.ops@, crate::store::Op::SetChildLayout);
            lemma_ops_extended_trans(old(cx).store.ops@, ops1, cx.store.ops@, 0, 0, 0, 0);
            assert(old(cx).store.ops@.is_prefix_of(cx.store.ops@)) by {
                assert(cx.store.ops@.subrange(0, old(cx).store.ops@.len() as int)
                    =~= ops1.subrange(0, old(cx).store.ops@.len() as int));
            }
        }
        i = i + 1;
    }
}

/// Reorders two children of a container: the element list, the parent
/// widget's child list and the parent node's layout children are permuted
/// identically, in one paired operation — a reorder is distinct from an
/// insert or a remove and leaves every subtree untouched.
#[verifier::loop_isolation(false)]
pub fn swap_children_at(
    es: &mut Vec<Element>,
    a: usize,
    b: usize,
    cx: &mut Context,
    pw: usize,
    pn: u64,
)
    requires
        a < b,
        b < old(es)@.len(),
        forall|j: int|
            0 <= j < old(es)@.len() ==> wf_elem(
                #[trigger] old(es)@[j],
                old(cx).store.widgets@,
                forest_of(old(cx).layout.tree),
            ),
        pw < old(cx).store.widgets@.len(),
        old(cx).store.widgets@[pw as int].children@ == child_widgets(old(es)@),
        !widgets_of_seq(old(es)@).contains(pw),
        forest_of(old(cx).layout.tree).dom().contains(pn),
        forest_of(old(cx).layout.tree)[pn] == child_nodes(old(es)@),
        !nodes_of_seq(old(es)@).contains(pn),
    ensures
        // all three child-index spaces are permuted identically
        final(es)@ == old(es)@.update(a as int, old(es)@[b as int]).update(
            b as int,
            old(es)@[a as int],
        ),
        final(cx).store.widgets@[pw as int].children@ == child_widgets(final(es)@),
        forest_of(final(cx).layout.tree)[pn] == child_nodes(final(es)@),
        // nothing else moves
        final(cx).store.widgets@ == old(cx).store.widgets@.update(
            pw as int,
            final(cx).store.widgets@[pw as int],
        ),
        crate::store::keeps_but_children(
            old(cx).store.widgets@[pw as int],
            final(cx).store.widgets@[pw as int],
        ),
        forest_of(final(cx).layout.tree) == forest_of(old(cx).layout.tree).insert(
            pn,
            forest_of(final(cx).layout.tree)[pn],
        ),
        forall|j: int|
            0 <= j < final(es)@.len() ==> wf_elem(
                #[trigger] final(es)@[j],
                final(cx).store.widgets@,
                forest_of(final(cx).layout.tree),
            ),
        ops_extended(old(cx).store.ops@, final(cx).store.ops@, 0, 0),
        final(cx).store.delivered@ == old(cx).store.delivered@,
        final(cx).next_id == old(cx).next_id,
        final(cx).pending@ == old(cx).pending@,
        final(cx).windows@ == old(cx).windows@,
{
    let ghost es0 = es@;
    let ghost f0 = forest_of(cx.layout.tree);
    proof {
        broadcast use vstd::seq_lib::lemma_seq_concat_contains_all_elements;

        lemma_wf_self_contained_seq(es0, cx.store.widgets@, forest_of(cx.layout.tree));
        lemma_child_root_in_seq(es0, a as int);
        lemma_child_root_in_seq(es0, b as int);
        assert(child_nodes(es0)[a as int] == node_of(es0[a as int]));
        assert(child_nodes(es0)[b as int] == node_of(es0[b as int]));
        assert(forest_of(cx.layout.tree).dom().contains(node_of(es0[a as int])));
        assert(forest_of(cx.layout.tree).dom().contains(node_of(es0[b as int])));
        assert(child_nodes(es0).len() == es0.len());
        assert(child_widgets(es0).len() == es0.len());
    }
    let na = root_node(&es[a]);
    let nb = root_node(&es[b]);
    cx.layout.replace_child(pn, a, nb);
    proof {
        assert(forest_of(cx.layout.tree)[pn][b as int] == node_of(es0[b as int]));
    }
    cx.layout.replace_child(pn, b, na);
    cx.store.swap_children(pw, a, b);
    proof {
        lemma_ops_push(
            old(cx).store.ops@,
            cx.store.ops@,
            crate::store::Op::SwapChildren,
        );
    }
    // swap the element list itself: take the later one out first so the
    // earlier index stays valid
    let eb = es.remove(b);
    let ea = es.remove(a);
    es.insert(a, eb);
    es.insert(b, ea);
    proof {
        broadcast use vstd::seq_lib::lemma_seq_concat_contains_all_elements;

        assert(es@ =~= es0.update(a as int, es0[b as int]).update(b as int, es0[a as int]));
        assert(cx.store.widgets@[pw as int].children@ =~= child_widgets(es@)) by {
            assert(child_widgets(es@) =~= child_widgets(es0).update(
                a as int,
                widget_of(es0[b as int]),
            ).update(b as int, widget_of(es0[a as int])));
        }
        assert(forest_of(cx.layout.tree)[pn] =~= child_nodes(es@)) by {
            assert(child_nodes(es@) =~= child_nodes(es0).update(
                a as int,
                node_of(es0[b as int]),
            ).update(b as int, node_of(es0[a as int])));
        }
        assert(forest_of(cx.layout.tree) =~= forest_of(old(cx).layout.tree).insert(
            pn,
            forest_of(cx.layout.tree)[pn],
        ));
        // every element's own widgets and nodes were untouched
        assert forall|j: int| 0 <= j < es@.len() implies wf_elem(
            #[trigger] es@[j],
            cx.store.widgets@,
            forest_of(cx.layout.tree),
        ) by {
            let c = es@[j];
            assert(c == es0[j] || c == es0[a as int] || c == es0[b as int]);
            let k: int = if c == es0[j] {
                j
            } else if c == es0[a as int] {
                a as int
            } else {
                b as int
            };
            assert(wf_elem(es0[k], old(cx).store.widgets@, f0));
            assert forall|w: usize| #[trigger] widgets_of(es0[k]).contains(w) implies w
                < cx.store.widgets@.len() && cx.store.widgets@[w as int] == old(cx).store.widgets@[w as int] by {
                lemma_seq_parts(es0, k);
                assert(widgets_of_seq(es0).contains(w));
                assert(w != pw);
            }
            assert forall|n: u64| #[trigger] nodes_of(es0[k]).contains(n) implies forest_of(
                cx.layout.tree,
            ).dom().contains(n) && forest_of(cx.layout.tree)[n] == f0[n] by {
                lemma_seq_parts(es0, k);
                assert(nodes_of_seq(es0).contains(n));
                assert(n != pn);
                assert(f0.dom().contains(n));
            }
            lemma_wf_frame(
                es0[k],
                old(cx).store.widgets@,
                f0,
                cx.store.widgets@,
                forest_of(cx.layout.tree),
            );
        }
    }
}

/// The replace of the type-erasure boundary: when the view's kind no longer
/// matches the element at a position, a fresh subtree is built, the
/// parent's widget-child and layout-child pointers are overwritten at the
/// same index — not inserted anew — and the old subtree is torn down.
/// Exactly one widget is built per new view node and one teardown logged
/// per old widget: replacement happens exactly at kind transitions.
#[verifier::rlimit(60)]
#[verifier::loop_isolation(false)]
pub fn replace_at(
    v: &ViewTree,
    es: &mut Vec<Element>,
    i: usize,
    cx: &mut Context,
    pw: usize,
    pn: u64,
)
    requires
        i < old(es)@.len(),
        !kind_same(*v, old(es)@[i as int]),
        forall|j: int|
            0 <= j < old(es)@.len() ==> wf_elem(
                #[trigger] old(es)@[j],
                old(cx).store.widgets@,
                forest_of(old(cx).layout.tree),
            ),
        nodes_of_seq(old(es)@).no_duplicates(),
        widgets_of_seq(old(es)@).no_duplicates(),
        ids_of_seq(old(es)@).no_duplicates(),
        forall|k: int|
            0 <= k < ids_of_seq(old(es)@).len() ==> #[trigger] ids_of_seq(old(es)@)[k] < old(cx).next_id,
        old(cx).next_id + elem_count(*v) <= u64::MAX,
        pw < old(cx).store.widgets@.len(),
        !widgets_of_seq(old(es)@).contains(pw),
        old(cx).store.widgets@[pw as int].children@ == child_widgets(old(es)@),
        forest_of(old(cx).layout.tree).dom().contains(pn),
        !nodes_of_seq(old(es)@).contains(pn),
        forest_of(old(cx).layout.tree)[pn] == child_nodes(old(es)@),
        forall|pp: u64, j: int|
            forest_of(old(cx).layout.tree).dom().contains(pp) && pp != pn && !nodes_of_seq(
                old(es)@,
            ).contains(pp) && 0 <= j < forest_of(old(cx).layout.tree)[pp].len() ==> !nodes_of_seq(
                old(es)@,
            ).contains(#[trigger] forest_of(old(cx).layout.tree)[pp][j]),
    ensures
        final(es)@ == old(es)@.update(i as int, final(es)@[i as int]),
        fits(*v, final(es)@[i as int]),
        fresh_state(final(es)@[i as int]),
        // the concrete widget at the position is replaced
        widget_of(final(es)@[i as int]) != widget_of(old(es)@[i as int]),
        // exactly one build per new view node, one teardown per old widget
        ops_extended(
            old(cx).store.ops@,
            final(cx).store.ops@,
            widget_count(*v),
            widgets_of(old(es)@[i as int]).len() as int,
        ),
        // the old subtree's widgets are all dead afterwards
        forall|w: usize|
            #[trigger] widgets_of(old(es)@[i as int]).contains(w) ==> w < old(cx).store.widgets@.len() && !final(cx).store.widgets@[w as int].alive,
        // everything else in the arena is untouched
        old(cx).store.widgets@.len() <= final(cx).store.widgets@.len(),
        forall|w: usize|
            w < old(cx).store.widgets@.len() && w != pw && !widgets_of(
                old(es)@[i as int],
            ).contains(w) ==> final(cx).store.widgets@[w as int] == old(cx).store.widgets@[
                w as int
            ],
        crate::store::keeps_but_children(
            old(cx).store.widgets@[pw as int],
            final(cx).store.widgets@[pw as int],
        ),
        // the three child lists stay paired, the index overwritten in place
        final(cx).store.widgets@[pw as int].children@ == child_widgets(final(es)@),
        forest_of(final(cx).layout.tree).dom().contains(pn),
        forest_of(final(cx).layout.tree)[pn] == child_nodes(final(es)@),
        forall|j: int|
            0 <= j < final(es)@.len() ==> wf_elem(
                #[trigger] final(es)@[j],
                final(cx).store.widgets@,
                forest_of(final(cx).layout.tree),
            ),
        nodes_of_seq(final(es)@).no_duplicates(),
        widgets_of_seq(final(es)@).no_duplicates(),
        ids_of_seq(final(es)@).no_duplicates(),
        forall|k: int|
            0 <= k < ids_of_seq(final(es)@).len() ==> #[trigger] ids_of_seq(final(es)@)[k]
                < final(cx).next_id,
        old(cx).next_id <= final(cx).next_id,
        final(cx).next_id <= old(cx).next_id + elem_count(*v),
        // forest frame: only the parent's entry and the swapped subtrees move
        forall|n: u64|
            #[trigger] forest_of(old(cx).layout.tree).dom().contains(n) && n != pn && !nodes_of(
                old(es)@[i as int],
            ).contains(n) ==> forest_of(final(cx).layout.tree).dom().contains(n) && forest_of(
                final(cx).layout.tree,
            )[n] == forest_of(old(cx).layout.tree)[n],
        forall|n: u64|
            #[trigger] nodes_of(old(es)@[i as int]).contains(n) ==> !forest_of(
                final(cx).layout.tree,
            ).dom().contains(n),
        forall|n: u64|
            #[trigger] forest_of(final(cx).layout.tree).dom().contains(n) ==> forest_of(
                old(cx).layout.tree,
            ).dom().contains(n) || nodes_of(final(es)@[i as int]).contains(n),
        final(cx).store.delivered@ == old(cx).store.delivered@,
        old(cx).pending@.is_prefix_of(final(cx).pending@),
        final(cx).windows@ == old(cx).windows@,
{
    let ghost es0 = es@;
    let ghost cx0 = *cx;
    let ghost f0 = forest_of(cx.layout.tree);
    proof {
        broadcast use vstd::seq_lib::lemma_seq_concat_contains_all_elements;

        lemma_counts_nonneg(*v);
        lemma_wf_self_contained_seq(es0, cx0.store.widgets@, f0);
        lemma_child_root_in_seq(es0, i as int);
        assert(child_nodes(es0)[i as int] == node_of(es0[i as int]));
        assert(child_widgets(es0)[i as int] == widget_of(es0[i as int]));
        assert(child_nodes(es0).len() == es0.len());
        assert(child_widgets(es0).len() == es0.len());
        assert(f0.dom().contains(node_of(es0[i as int])));
        // the list's flattened views split at the position
        lemma_seq_parts(es0, i as int);
        assert(nodes_of_seq(es0.take(i as int)) + (nodes_of(es0[i as int]) + nodes_of_seq(
            es0.skip(i as int + 1),
        )) =~= nodes_of_seq(es0));
        assert(widgets_of_seq(es0.take(i as int)) + (widgets_of(es0[i as int])
            + widgets_of_seq(es0.skip(i as int + 1))) =~= widgets_of_seq(es0));
        assert(ids_of_seq(es0.take(i as int)) + (ids_of(es0[i as int]) + ids_of_seq(
            es0.skip(i as int + 1),
        )) =~= ids_of_seq(es0));
        lemma_nodup_split(
            nodes_of_seq(es0.take(i as int)),
            nodes_of(es0[i as int]) + nodes_of_seq(es0.skip(i as int + 1)),
        );
        lemma_nodup_split(nodes_of(es0[i as int]), nodes_of_seq(es0.skip(i as int + 1)));
        lemma_nodup_split(
            widgets_of_seq(es0.take(i as int)),
            widgets_of(es0[i as int]) + widgets_of_seq(es0.skip(i as int + 1)),
        );
        lemma_nodup_split(widgets_of(es0[i as int]), widgets_of_seq(es0.skip(i as int + 1)));
        lemma_nodup_split(
            ids_of_seq(es0.take(i as int)),
            ids_of(es0[i as int]) + ids_of_seq(es0.skip(i as int + 1)),
        );
        lemma_nodup_split(ids_of(es0[i as int]), ids_of_seq(es0.skip(i as int + 1)));
    }
    let mut fresh_e = build(v, cx);
    let ghost mid = *cx;
    let nw = root_widget(&fresh_e);
    let nn = root_node(&fresh_e);
    proof {
        lemma_wf_self_contained(fresh_e, mid.store.widgets@, forest_of(mid.layout.tree));
        lemma_root_node_in_nodes(fresh_e);
        lemma_root_node_in_nodes(es0[i as int]);
        assert(forest_of(mid.layout.tree)[pn] == f0[pn]);
        assert(mid.store.widgets@[pw as int] == cx0.store.widgets@[pw as int]);
        assert(forest_of(mid.layout.tree).dom().contains(node_of(es0[i as int])));
    }
    cx.layout.replace_child(pn, i, nn);
    cx.store.replace_child(pw, i, nw);
    let stale = es.remove(i);
    es.insert(i, fresh_e);
    let ghost pre_tear = *cx;
    proof {
        broadcast use vstd::seq_lib::lemma_seq_concat_contains_all_elements;

        assert(es@ =~= es0.update(i as int, es@[i as int]));
        assert(stale == es0[i as int]);
        lemma_ops_push(mid.store.ops@, cx.store.ops@, crate::store::Op::ReplaceChild);
        let f1 = forest_of(cx.layout.tree);
        let ws1 = cx.store.widgets@;
        // the old subtree is still well-formed: only the parent's pointers
        // moved
        assert forall|q: usize| #[trigger] widgets_of(stale).contains(q) implies q < ws1.len()
            && ws1[q as int] == cx0.store.widgets@[q as int] by {
            assert(widgets_of_seq(es0).contains(q));
            assert(q != pw);
        }
        assert forall|q: u64| #[trigger] nodes_of(stale).contains(q) implies f1.dom().contains(
            q,
        ) && f1[q] == f0[q] by {
            assert(nodes_of_seq(es0).contains(q));
            assert(q != pn);
            assert(f0.dom().contains(q));
        }
        lemma_wf_frame(stale, cx0.store.widgets@, f0, ws1, f1);
        assert(elem_unique(stale));
        // and it is fully detached now
        assert forall|pp: u64, j: int|
            f1.dom().contains(pp) && !nodes_of(stale).contains(pp) && 0 <= j < f1[pp].len()
                implies !nodes_of(stale).contains(#[trigger] f1[pp][j]) by {
            if pp == pn {
                assert(f1[pn] == f0[pn].update(i as int, nn));
                if j == i as int {
                    assert(f1[pn][j] == nn);
                    if nodes_of(stale).contains(nn) {
                        assert(nodes_of_seq(es0).contains(nn));
                        assert(f0.dom().contains(nn));
                        assert(!f0.dom().contains(nn));
                    }
                } else {
                    assert(f1[pn][j] == child_nodes(es0)[j]);
                    assert(f1[pn][j] == node_of(es0[j]));
                    lemma_root_node_in_nodes(es0[j]);
                    if nodes_of(stale).contains(node_of(es0[j])) {
                        lemma_double_membership(es0, i as int, j);
                    }
                }
            } else if nodes_of_seq(es0).contains(pp) {
                crate::element::lemma_flat_member_nodes(es0, pp);
                let k = choose|k: int|
                    0 <= k < es0.len() && nodes_of(#[trigger] es0[k]).contains(pp);
                assert(k != i as int);
                lemma_wf_self_contained(es0[k], cx0.store.widgets@, f0);
                assert(f1[pp] == f0[pp]);
                assert(nodes_of(es0[k]).contains(f0[pp][j]));
                if nodes_of(stale).contains(f0[pp][j]) {
                    lemma_double_membership(es0, i as int, k);
                }
            } else if nodes_of(fresh_e).contains(pp) {
                assert(wf_elem(fresh_e, ws1, f1)) by {
                    assert forall|q: usize| #[trigger] widgets_of(fresh_e).contains(q)
                        implies q < ws1.len() && ws1[q as int] == mid.store.widgets@[
                        q as int
                    ] by {
                        assert(q != pw);
                    }
                    assert forall|q: u64| #[trigger] nodes_of(fresh_e).contains(q)
                        implies f1.dom().contains(q) && f1[q] == forest_of(
                        mid.layout.tree,
                    )[q] by {
                        assert(q != pn);
                    }
                    lemma_wf_frame(
                        fresh_e,
                        mid.store.widgets@,
                        forest_of(mid.layout.tree),
                        ws1,
                        f1,
                    );
                }
                lemma_wf_self_contained(fresh_e, ws1, f1);
                assert(nodes_of(fresh_e).contains(f1[pp][j]));
                if nodes_of(stale).contains(f1[pp][j]) {
                    assert(nodes_of_seq(es0).contains(f1[pp][j]));
                    assert(f0.dom().contains(f1[pp][j]));
                    assert(!f0.dom().contains(f1[pp][j]));
                }
            } else {
                assert(f0.dom().contains(pp) || nodes_of(fresh_e).contains(pp));
                assert(f1[pp] == f0[pp]);
                assert(!nodes_of_seq(es0).contains(f0[pp][j]));
                assert(nodes_of(stale).contains(f0[pp][j]) ==> nodes_of_seq(es0).contains(
                    f0[pp][j],
                ));
            }
        }
        assert(separated(nodes_of(stale), f1));
    }
    teardown(stale, cx);
    proof {
        broadcast use vstd::seq_lib::lemma_seq_concat_contains_all_elements;

        let f2 = forest_of(cx.layout.tree);
        let ws2 = cx.store.widgets@;
        assert(es@.take(i as int) =~= es0.take(i as int));
        assert(es@.skip(i as int + 1) =~= es0.skip(i as int + 1));
        assert(es@[i as int] == fresh_e);
        lemma_seq_parts(es@, i as int);
        lemma_ops_extended_trans(
            cx0.store.ops@,
            mid.store.ops@,
            pre_tear.store.ops@,
            widget_count(*v),
            0,
            0,
            0,
        );
        lemma_ops_extended_trans(
            cx0.store.ops@,
            pre_tear.store.ops@,
            cx.store.ops@,
            widget_count(*v),
            0,
            0,
            widgets_of(stale).len() as int,
        );
        assert(cx0.pending@.is_prefix_of(cx.pending@)) by {
            assert(cx.pending@.subrange(0, cx0.pending@.len() as int) =~= mid.pending@.subrange(
                0,
                cx0.pending@.len() as int,
            ));
        }
        // the new subtree and the siblings survived the teardown
        assert forall|j: int| 0 <= j < es@.len() implies wf_elem(
            #[trigger] es@[j],
            ws2,
            f2,
        ) by {
            let c = es@[j];
            if j == i as int {
                assert(wf_elem(fresh_e, pre_tear.store.widgets@, forest_of(
                    pre_tear.layout.tree,
                ))) by {
                    assert forall|q: usize| #[trigger] widgets_of(fresh_e).contains(q)
                        implies q < pre_tear.store.widgets@.len() && pre_tear.store.widgets@[
                        q as int
                    ] == mid.store.widgets@[q as int] by {
                        assert(q != pw);
                    }
                    assert forall|q: u64| #[trigger] nodes_of(fresh_e).contains(q)
                        implies forest_of(pre_tear.layout.tree).dom().contains(q) && forest_of(
                        pre_tear.layout.tree,
                    )[q] == forest_of(mid.layout.tree)[q] by {
                        assert(q != pn);
                    }
                    lemma_wf_frame(
                        fresh_e,
                        mid.store.widgets@,
                        forest_of(mid.layout.tree),
                        pre_tear.store.widgets@,
                        forest_of(pre_tear.layout.tree),
                    );
                }
                lemma_wf_self_contained(
                    fresh_e,
                    pre_tear.store.widgets@,
                    forest_of(pre_tear.layout.tree),
                );
                assert forall|q: usize| #[trigger] widgets_of(fresh_e).contains(q) implies q
                    < ws2.len() && ws2[q as int] == pre_tear.store.widgets@[q as int] by {
                    assert(!widgets_of(stale).contains(q)) by {
                        if widgets_of(stale).contains(q) {
                            assert(widgets_of_seq(es0).contains(q));
                            let k2 = choose|k2: int|
                                0 <= k2 < widgets_of_seq(es0).len() && widgets_of_seq(es0)[k2]
                                    == q;
                            assert(q < cx0.store.widgets@.len());
                        }
                    }
                }
                assert forall|q: u64| #[trigger] nodes_of(fresh_e).contains(q) implies f2.dom()
                    .contains(q) && f2[q] == forest_of(pre_tear.layout.tree)[q] by {
                    assert(!nodes_of(stale).contains(q)) by {
                        if nodes_of(stale).contains(q) {
                            assert(nodes_of_seq(es0).contains(q));
                            assert(f0.dom().contains(q));
                            assert(!f0.dom().contains(q));
                        }
                    }
                    assert(forest_of(pre_tear.layout.tree).dom().contains(q));
                }
                lemma_wf_frame(
                    fresh_e,
                    pre_tear.store.widgets@,
                    forest_of(pre_tear.layout.tree),
                    ws2,
                    f2,
                );
            } else {
                assert(c == es0[j]);
                lemma_wf_self_contained(es0[j], cx0.store.widgets@, f0);
                assert forall|q: usize| #[trigger] widgets_of(es0[j]).contains(q) implies q
                    < ws2.len() && ws2[q as int] == cx0.store.widgets@[q as int] by {
                    lemma_seq_parts(es0, j);
                    assert(widgets_of_seq(es0).contains(q));
                    assert(q != pw);
                    if widgets_of(stale).contains(q) {
                        lemma_double_membership_w2(es0, i as int, j);
                    }
                }
                assert forall|q: u64| #[trigger] nodes_of(es0[j]).contains(q) implies f2.dom()
                    .contains(q) && f2[q] == f0[q] by {
                    lemma_seq_parts(es0, j);
                    assert(nodes_of_seq(es0).contains(q));
                    assert(q != pn);
                    assert(f0.dom().contains(q));
                    assert(!nodes_of(stale).contains(q)) by {
                        if nodes_of(stale).contains(q) {
                            lemma_double_membership(es0, i as int, j);
                        }
                    }
                    assert(forest_of(pre_tear.layout.tree).dom().contains(q));
                }
                lemma_wf_frame(es0[j], cx0.store.widgets@, f0, ws2, f2);
            }
        }
        // the parent's bookkeeping survived: its entry holds the new root
        assert(!nodes_of(stale).contains(pn));
        assert(f2.dom().contains(pn));
        assert(f2[pn] == forest_of(pre_tear.layout.tree)[pn]);
        assert(f2[pn] =~= child_nodes(es@)) by {
            assert(child_nodes(es@) =~= child_nodes(es0).update(i as int, node_of(fresh_e)));
        }
        assert(!widgets_of(stale).contains(pw));
        assert(ws2[pw as int] == pre_tear.store.widgets@[pw as int]);
        assert(ws2[pw as int].children@ =~= child_widgets(es@)) by {
            assert(child_widgets(es@) =~= child_widgets(es0).update(
                i as int,
                widget_of(fresh_e),
            ));
        }
        // the widget at the position really changed
        assert(widget_of(fresh_e) != widget_of(stale)) by {
            assert(widgets_of(stale).contains(widget_of(stale)));
            assert(widget_of(stale) < cx0.store.widgets@.len());
            assert(widgets_of(fresh_e).contains(widget_of(fresh_e)));
        }
        // uniqueness of the updated list
        assert forall|q: u64| nodes_of_seq(es0.take(i as int)).contains(q) || nodes_of_seq(
            es0.skip(i as int + 1),
        ).contains(q) implies !nodes_of(fresh_e).contains(q) by {
            if nodes_of(fresh_e).contains(q) {
                assert(!f0.dom().contains(q));
                assert(nodes_of_seq(es0).contains(q));
            }
        }
        lemma_nodup_join(nodes_of(fresh_e), nodes_of_seq(es0.skip(i as int + 1)));
        lemma_nodup_join(
            nodes_of_seq(es0.take(i as int)),
            nodes_of(fresh_e) + nodes_of_seq(es0.skip(i as int + 1)),
        );
        assert(nodes_of_seq(es@).no_duplicates()) by {
            assert(nodes_of_seq(es@) =~= nodes_of_seq(es@.take(i as int)) + nodes_of(
                es@[i as int],
            ) + nodes_of_seq(es@.skip(i as int + 1)));
            assert(nodes_of_seq(es@) =~= nodes_of_seq(es0.take(i as int)) + (nodes_of(fresh_e)
                + nodes_of_seq(es0.skip(i as int + 1))));
        }
        assert forall|q: usize| widgets_of_seq(es0.take(i as int)).contains(q)
            || widgets_of_seq(es0.skip(i as int + 1)).contains(q) implies !widgets_of(
            fresh_e,
        ).contains(q) by {
            if widgets_of(fresh_e).contains(q) {
                assert(widgets_of_seq(es0).contains(q));
                assert(q < cx0.store.widgets@.len());
            }
        }
        lemma_nodup_join(widgets_of(fresh_e), widgets_of_seq(es0.skip(i as int + 1)));
        lemma_nodup_join(
            widgets_of_seq(es0.take(i as int)),
            widgets_of(fresh_e) + widgets_of_seq(es0.skip(i as int + 1)),
        );
        assert(widgets_of_seq(es@).no_duplicates()) by {
            assert(widgets_of_seq(es@) =~= widgets_of_seq(es@.take(i as int)) + widgets_of(
                es@[i as int],
            ) + widgets_of_seq(es@.skip(i as int + 1)));
            assert(widgets_of_seq(es@) =~= widgets_of_seq(es0.take(i as int)) + (widgets_of(
                fresh_e,
            ) + widgets_of_seq(es0.skip(i as int + 1))));
        }
        assert forall|q: u64| ids_of_seq(es0.take(i as int)).contains(q) || ids_of_seq(
            es0.skip(i as int + 1),
        ).contains(q) implies !ids_of(fresh_e).contains(q) by {
            if ids_of(fresh_e).contains(q) {
                assert(ids_of_seq(es0).contains(q));
                let k = choose|k: int|
                    0 <= k < ids_of_seq(es0).len() && ids_of_seq(es0)[k] == q;
            }
        }
        lemma_nodup_join(ids_of(fresh_e), ids_of_seq(es0.skip(i as int + 1)));
        lemma_nodup_join(
            ids_of_seq(es0.take(i as int)),
            ids_of(fresh_e) + ids_of_seq(es0.skip(i as int + 1)),
        );
        assert(ids_of_seq(es@).no_duplicates()) by {
            assert(ids_of_seq(es@) =~= ids_of_seq(es@.take(i as int)) + ids_of(es@[i as int])
                + ids_of_seq(es@.skip(i as int + 1)));
            assert(ids_of_seq(es@) =~= ids_of_seq(es0.take(i as int)) + (ids_of(fresh_e)
                + ids_of_seq(es0.skip(i as int + 1))));
        }
        assert forall|k: int| 0 <= k < ids_of_seq(es@).len() implies #[trigger] ids_of_seq(
            es@,
        )[k] < cx.next_id by {
            assert(ids_of_seq(es@).contains(ids_of_seq(es@)[k]));
            let q = ids_of_seq(es@)[k];
            assert(ids_of_seq(es@) =~= ids_of_seq(es@.take(i as int)) + ids_of(es@[i as int])
                + ids_of_seq(es@.skip(i as int + 1)));
            assert(ids_of_seq(es@) =~= ids_of_seq(es0.take(i as int)) + (ids_of(fresh_e)
                + ids_of_seq(es0.skip(i as int + 1))));
            if ids_of(fresh_e).contains(q) {
            } else {
                assert(ids_of_seq(es0).contains(q));
                let k2 = choose|k2: int|
                    0 <= k2 < ids_of_seq(es0).len() && ids_of_seq(es0)[k2] == q;
            }
        }
        // dead widgets and forest clauses
        assert forall|w: usize| #[trigger] widgets_of(stale).contains(w) implies w
            < cx0.store.widgets@.len() && !ws2[w as int].alive by {
            assert(widgets_of_seq(es0).contains(w));
            let k2 = choose|k2: int|
                0 <= k2 < widgets_of_seq(es0).len() && widgets_of_seq(es0)[k2] == w;
        }
        assert forall|n: u64| #[trigger] nodes_of(stale).contains(n) implies !f2.dom().contains(
            n,
        ) by {
            assert(nodes_of_seq(es0).contains(n));
            assert(f0.dom().contains(n));
            assert(forest_of(pre_tear.layout.tree).dom().contains(n));
        }
        assert forall|n: u64| #[trigger] f2.dom().contains(n) implies f0.dom().contains(n)
            || nodes_of(fresh_e).contains(n) by {
            assert(forest_of(pre_tear.layout.tree).dom().contains(n));
            assert(forest_of(mid.layout.tree).dom().contains(n));
        }
    }
}

/// Two distinct children of a duplicate-free list share no widget.
proof fn lemma_double_membership_w2(s: Seq<Element>, a: int, b: int)
    requires
        0 <= a < s.len(),
        0 <= b < s.len(),
        a != b,
        widgets_of_seq(s).no_duplicates(),
    ensures
        forall|q: usize| #[trigger] widgets_of(s[a]).contains(q) ==> !widgets_of(s[b]).contains(q),
{
    broadcast use vstd::seq_lib::lemma_seq_concat_contains_all_elements;

    let lo = if a < b {
        a
    } else {
        b
    };
    let hi = if a < b {
        b
    } else {
        a
    };
    lemma_seq_parts(s, lo);
    assert(widgets_of_seq(s.take(lo)) + (widgets_of(s[lo]) + widgets_of_seq(s.skip(lo + 1)))
        =~= widgets_of_seq(s));
    lemma_nodup_split(
        widgets_of_seq(s.take(lo)),
        widgets_of(s[lo]) + widgets_of_seq(s.skip(lo + 1)),
    );
    lemma_nodup_split(widgets_of(s[lo]), widgets_of_seq(s.skip(lo + 1)));
    assert forall|q: usize| #[trigger] widgets_of(s[a]).contains(q) implies !widgets_of(
        s[b],
    ).contains(q) by {
        assert(s.skip(lo + 1)[hi - lo - 1] == s[hi]);
        if widgets_of(s[a]).contains(q) && widgets_of(s[b]).contains(q) {
            assert(widgets_of(s[hi]).contains(q));
            assert(widgets_of_seq(s.skip(lo + 1)).contains(q)) by {
                lemma_seq_parts(s.skip(lo + 1), hi - lo - 1);
            }
            assert(widgets_of(s[lo]).contains(q));
        }
    }
}

/// The log `b` extends `a` with sizing calls only: the geometry application
/// of a layout signal resizes and positions, and never builds, destroys or
/// restructures.
pub open spec fn sizing_ops_only(a: Seq<crate::store::Op>, b: Seq<crate::store::Op>) -> bool {
    &&& a.is_prefix_of(b)
    &&& forall|i: int|
        a.len() <= i < b.len() ==> (#[trigger] b[i] == crate::store::Op::SetSize || b[i]
            == crate::store::Op::SetChildLayout)
}

/// Sizing-only log extension composes.
pub proof fn lemma_sizing_ops_trans(
    a: Seq<crate::store::Op>,
    b: Seq<crate::store::Op>,
    c: Seq<crate::store::Op>,
)
    requires
        sizing_ops_only(a, b),
        sizing_ops_only(b, c),
    ensures
        sizing_ops_only(a, c),
{
    assert(c.subrange(0, a.len() as int) =~= b.subrange(0, a.len() as int));
    assert forall|i: int|
        a.len() <= i < c.len() implies (#[trigger] c[i] == crate::store::Op::SetSize || c[i]
        == crate::store::Op::SetChildLayout) by {
        if i < b.len() {
            assert(b[i] == c.subrange(0, b.len() as int)[i]);
        }
    }
}

/// Routes a broadcast signal through a subtree, root to leaf: every live
/// element of the subtree sees it and is logged, in preorder — a broadcast
/// is offered to all and consumed by none.  On a layout signal each
/// container applies its own computed geometry before forwarding, and each
/// pressable takes its content's computed size, so only sizing calls are
/// logged.  On an animation tick the frame command of every animating
/// wrapper fires, and the action asks for a rebuild exactly when at least
/// one fired.
#[verifier::loop_isolation(false)]
pub fn broadcast_route(e: &Element, payload: Payload, cx: &mut Context) -> (a: Action)
    requires
        payload is Lifecycle,
        wf_elem(*e, old(cx).store.widgets@, forest_of(old(cx).layout.tree)),
    ensures
        // the signal reaches every element of the subtree, in order
        final(cx).store.delivered@ == old(cx).store.delivered@ + ids_of(*e),
        // the subtree stays well-formed; widgets are at most resized
        wf_elem(*e, final(cx).store.widgets@, forest_of(final(cx).layout.tree)),
        final(cx).store.widgets@.len() == old(cx).store.widgets@.len(),
        forall|w: int|
            0 <= w < old(cx).store.widgets@.len() ==> crate::store::keeps_but_size(
                old(cx).store.widgets@[w],
                #[trigger] final(cx).store.widgets@[w],
            ),
        // an animation tick logs no platform call at all; a layout signal
        // logs sizing calls only
        payload is Lifecycle && (payload matches Payload::Lifecycle(
            crate::message::Lifecycle::Animate(_),
        )) ==> final(cx).store.widgets@ == old(cx).store.widgets@ && final(cx).store.ops@
            == old(cx).store.ops@,
        sizing_ops_only(old(cx).store.ops@, final(cx).store.ops@),
        ops_extended(old(cx).store.ops@, final(cx).store.ops@, 0, 0),
        forest_of(final(cx).layout.tree) == forest_of(old(cx).layout.tree),
        final(cx).next_id == old(cx).next_id,
        final(cx).pending@ == old(cx).pending@,
        final(cx).windows@ == old(cx).windows@,
        // an animation tick fires exactly the animating wrappers' commands
        a.commands@ == (if payload matches Payload::Lifecycle(
            crate::message::Lifecycle::Animate(_),
        ) {
            crate::element::tick_commands(*e)
        } else {
            Seq::<u64>::empty()
        }),
        a.rebuild == (a.commands@.len() > 0),
        !a.quit,
    decreases *e,
{
    let mut a = Action::new();
    match e {
        Element::Text(t) => {
            cx.store.log_delivery(t.view_id.0);
            proof {
                assert(cx.store.delivered@ =~= old(cx).store.delivered@ + ids_of(*e));
                assert(cx.store.ops@.subrange(0, old(cx).store.ops@.len() as int) =~= old(cx).store.ops@);
            }
        },
        Element::Flex(f) => {
            cx.store.log_delivery(f.view_id.0);
            let apply = matches!(
                payload,
                Payload::Lifecycle(crate::message::Lifecycle::Layout)
            );
            if apply {
                group_apply_layout(f, cx);
            }
            let ghost base = cx.store.delivered@;
            let ghost ws_base = cx.store.widgets@;
            let ghost ops_base = cx.store.ops@;
            proof {
                if apply {
                    assert(sizing_ops_only(old(cx).store.ops@, ops_base)) by {
                        assert forall|i: int|
                            old(cx).store.ops@.len() <= i < ops_base.len() implies (
                        #[trigger] ops_base[i] == crate::store::Op::SetSize || ops_base[i]
                            == crate::store::Op::SetChildLayout) by {}
                    }
                } else {
                    assert(cx.store.ops@.subrange(0, old(cx).store.ops@.len() as int) =~= old(cx).store.ops@);
                }
                assert(wf_elem(*e, ws_base, forest_of(cx.layout.tree))) by {
                    lemma_wf_frame_sized(
                        *e,
                        old(cx).store.widgets@,
                        forest_of(old(cx).layout.tree),
                        ws_base,
                    );
                }
            }
            let n = f.children.len();
            let mut i: usize = 0;
            proof {
                assert(crate::element::tick_commands_seq(f.children@.take(0)) =~= Seq::<
                    u64,
                >::empty());
                assert(ids_of_seq(f.children@.take(0)) =~= Seq::<u64>::empty());
                assert(base =~= base + ids_of_seq(f.children@.take(0)));
                assert(a.commands@ =~= Seq::<u64>::empty());
                assert(ops_base.subrange(0, ops_base.len() as int) =~= ops_base);
            }
            while i < n
                invariant
                    i <= n,
                    n == f.children@.len(),
                    payload is Lifecycle,
                    wf_elem(*e, ws_base, forest_of(old(cx).layout.tree)),
                    forest_of(cx.layout.tree) == forest_of(old(cx).layout.tree),
                    cx.store.delivered@ == base + ids_of_seq(f.children@.take(i as int)),
                    cx.store.widgets@.len() == ws_base.len(),
                    forall|w: int|
                        0 <= w < ws_base.len() ==> crate::store::keeps_but_size(
                            ws_base[w],
                            #[trigger] cx.store.widgets@[w],
                        ),
                    (payload matches Payload::Lifecycle(
                        crate::message::Lifecycle::Animate(_),
                    )) ==> cx.store.widgets@ == ws_base && cx.store.ops@ == ops_base,
                    sizing_ops_only(ops_base, cx.store.ops@),
                    ops_extended(ops_base, cx.store.ops@, 0, 0),
                    cx.next_id == old(cx).next_id,
                    cx.pending@ == old(cx).pending@,
                    cx.windows@ == old(cx).windows@,
                    a.commands@ == (if payload matches Payload::Lifecycle(
                        crate::message::Lifecycle::Animate(_),
                    ) {
                        crate::element::tick_commands_seq(f.children@.take(i as int))
                    } else {
                        Seq::<u64>::empty()
                    }),
                    a.rebuild == (a.commands@.len() > 0),
                    !a.quit,
                decreases n - i,
            {
                proof {
                    assert(decreases_to!(*e => f.children@[i as int]));
                    assert(wf_elem(
                        f.children@[i as int],
                        cx.store.widgets@,
                        forest_of(cx.layout.tree),
                    )) by {
                        lemma_wf_frame_sized(
                            f.children@[i as int],
                            ws_base,
                            forest_of(old(cx).layout.tree),
                            cx.store.widgets@,
                        );
                    }
                }
                let ghost pre = *cx;
                let sub = broadcast_route(&f.children[i], payload, cx);
                a.merge(sub);
                proof {
                    assert(f.children@.take(i as int + 1).drop_last() =~= f.children@.take(
                        i as int,
                    ));
                    assert(f.children@.take(i as int + 1).last() == f.children@[i as int]);
                    lemma_seq_parts(f.children@.take(i as int + 1), i as int);
                    assert(f.children@.take(i as int + 1).take(i as int) =~= f.children@.take(
                        i as int,
                    ));
                    assert(f.children@.take(i as int + 1).skip(i as int + 1) =~= Seq::<
                        Element,
                    >::empty());
                    assert(cx.store.delivered@ =~= base + ids_of_seq(
                        f.children@.take(i as int + 1),
                    ));
                    assert(crate::element::tick_commands_seq(f.children@.take(i as int + 1))
                        =~= crate::element::tick_commands_seq(f.children@.take(i as int))
                        + crate::element::tick_commands(f.children@[i as int])) by {
                        lemma_tick_parts(f.children@.take(i as int + 1), i as int);
                    }
                    lemma_sizing_ops_trans(ops_base, pre.store.ops@, cx.store.ops@);
                    lemma_ops_extended_trans(
                        ops_base,
                        pre.store.ops@,
                        cx.store.ops@,
                        0,
                        0,
                        0,
                        0,
                    );
                    assert forall|w: int| 0 <= w < ws_base.len() implies
                        crate::store::keeps_but_size(
                        ws_base[w],
                        #[trigger] cx.store.widgets@[w],
                    ) by {
                        assert(crate::store::keeps_but_size(
                            pre.store.widgets@[w],
                            cx.store.widgets@[w],
                        ));
                    }
                }
                i = i + 1;
            }
            proof {
                assert(f.children@.take(n as int) =~= f.children@);
                assert(cx.store.delivered@ =~= old(cx).store.delivered@ + ids_of(*e));
                lemma_sizing_ops_trans(old(cx).store.ops@, ops_base, cx.store.ops@);
                lemma_ops_extended_trans(
                    old(cx).store.ops@,
                    ops_base,
                    cx.store.ops@,
                    0,
                    0,
                    0,
                    0,
                );
                assert forall|w: int| 0 <= w < old(cx).store.widgets@.len() implies
                    crate::store::keeps_but_size(
                    old(cx).store.widgets@[w],
                    #[trigger] cx.store.widgets@[w],
                ) by {
                    assert(crate::store::keeps_but_size(ws_base[w], cx.store.widgets@[w]));
                }
                lemma_wf_frame_sized(
                    *e,
                    old(cx).store.widgets@,
                    forest_of(old(cx).layout.tree),
                    cx.store.widgets@,
                );
            }
        },
        Element::Pressable(p) => {
            cx.store.log_delivery(p.view_id.0);
            let apply = matches!(
                payload,
                Payload::Lifecycle(crate::message::Lifecycle::Layout)
            );
            if apply {
                // the region's own widget takes its content's computed size
                proof {
                    lemma_wf_self_contained(
                        p.content,
                        cx.store.widgets@,
                        forest_of(cx.layout.tree),
                    );
                    lemma_root_node_in_nodes(p.content);
                }
                let cn = root_node(&p.content);
                let ghost ops0 = cx.store.ops@;
                let sz = match cx.layout.computed_size(cn) {
                    Some(szv) => szv,
                    None => (0, 0),
                };
                cx.store.set_size(p.widget, sz.0, sz.1);
                proof {
                    lemma_ops_push(ops0, cx.store.ops@, crate::store::Op::SetSize);
                    assert(ops0.is_prefix_of(cx.store.ops@)) by {
                        assert(cx.store.ops@.subrange(0, ops0.len() as int) =~= ops0);
                    }
                }
            }
            let ghost mid = *cx;
            proof {
                assert(decreases_to!(*e => p.content));
                assert(wf_elem(p.content, cx.store.widgets@, forest_of(cx.layout.tree))) by {
                    lemma_wf_frame_sized(
                        p.content,
                        old(cx).store.widgets@,
                        forest_of(old(cx).layout.tree),
                        cx.store.widgets@,
                    );
                }
                if !apply {
                    assert(cx.store.ops@.subrange(0, old(cx).store.ops@.len() as int) =~= old(cx).store.ops@);
                }
            }
            let sub = broadcast_route(&p.content, payload, cx);
            a.merge(sub);
            proof {
                assert(cx.store.delivered@ =~= old(cx).store.delivered@ + ids_of(*e));
                lemma_sizing_ops_trans(old(cx).store.ops@, mid.store.ops@, cx.store.ops@);
                lemma_ops_extended_trans(
                    old(cx).store.ops@,
                    mid.store.ops@,
                    cx.store.ops@,
                    0,
                    0,
                    0,
                    0,
                );
                assert forall|w: int| 0 <= w < old(cx).store.widgets@.len() implies
                    crate::store::keeps_but_size(
                    old(cx).store.widgets@[w],
                    #[trigger] cx.store.widgets@[w],
                ) by {
                    assert(crate::store::keeps_but_size(
                        mid.store.widgets@[w],
                        cx.store.widgets@[w],
                    ));
                }
                lemma_wf_frame_sized(
                    *e,
                    old(cx).store.widgets@,
                    forest_of(old(cx).layout.tree),
                    cx.store.widgets@,
                );
            }
        },
        Element::Window(w) => {
            cx.store.log_delivery(w.view_id.0);
            proof {
                assert(decreases_to!(*e => w.content));
                assert(cx.store.ops@.subrange(0, old(cx).store.ops@.len() as int) =~= old(cx).store.ops@);
            }
            let sub = broadcast_route(&w.content, payload, cx);
            a.merge(sub);
            proof {
                assert(cx.store.delivered@ =~= old(cx).store.delivered@ + ids_of(*e));
                lemma_wf_frame_sized(
                    *e,
                    old(cx).store.widgets@,
                    forest_of(old(cx).layout.tree),
                    cx.store.widgets@,
                );
            }
        },
        Element::Animate(an) => {
            cx.store.log_delivery(an.view_id.0);
            match payload {
                Payload::Lifecycle(crate::message::Lifecycle::Animate(_)) => {
                    if an.animating {
                        match an.on_frame {
                            Some(cmd) => a.fire(cmd),
                            None => {},
                        }
                    }
                },
                _ => {},
            }
            proof {
                assert(decreases_to!(*e => an.content));
                assert(cx.store.ops@.subrange(0, old(cx).store.ops@.len() as int) =~= old(cx).store.ops@);
            }
            let sub = broadcast_route(&an.content, payload, cx);
            a.merge(sub);
            proof {
                assert(cx.store.delivered@ =~= old(cx).store.delivered@ + ids_of(*e));
                lemma_wf_frame_sized(
                    *e,
                    old(cx).store.widgets@,
                    forest_of(old(cx).layout.tree),
                    cx.store.widgets@,
                );
            }
        },
    }
    a
}

/// The tick commands of a child list decompose around any index.
proof fn lemma_tick_parts(s: Seq<Element>, i: int)
    requires
        0 <= i < s.len(),
    ensures
        crate::element::tick_commands_seq(s) =~= crate::element::tick_commands_seq(s.take(i))
            + crate::element::tick_commands(s[i]) + crate::element::tick_commands_seq(
            s.skip(i + 1),
        ),
    decreases i,
{
    if i == 0 {
        assert(s.take(0) =~= Seq::<Element>::empty());
        assert(s.skip(1) =~= s.drop_first());
    } else {
        lemma_tick_parts(s.drop_first(), i - 1);
        assert(s.drop_first().take(i - 1) =~= s.take(i).drop_first());
        assert(s.drop_first().skip(i) =~= s.skip(i + 1));
        assert(s.take(i)[0] == s[0]);
        assert(crate::element::tick_commands_seq(s.take(i)) == crate::element::tick_commands(
            s[0],
        ) + crate::element::tick_commands_seq(s.take(i).drop_first()));
    }
}

/// The queue `b` extends `a` with layout broadcasts only: dispatch may
/// queue fresh-geometry signals and nothing else.
pub open spec fn pending_layouts(a: Seq<Message>, b: Seq<Message>) -> bool {
    &&& a.is_prefix_of(b)
    &&& forall|i: int|
        a.len() <= i < b.len() ==> #[trigger] b[i] == (Message {
            payload: Payload::Lifecycle(crate::message::Lifecycle::Layout),
            target: None,
            taken: false,
        })
}

/// Layout-only queue extension composes.
pub proof fn lemma_pending_layouts_trans(a: Seq<Message>, b: Seq<Message>, c: Seq<Message>)
    requires
        pending_layouts(a, b),
        pending_layouts(b, c),
    ensures
        pending_layouts(a, c),
{
    assert(c.subrange(0, a.len() as int) =~= b.subrange(0, a.len() as int));
    assert forall|i: int| a.len() <= i < c.len() implies #[trigger] c[i] == (Message {
        payload: Payload::Lifecycle(crate::message::Lifecycle::Layout),
        target: None,
        taken: false,
    }) by {
        if i < b.len() {
            assert(b[i] == c.subrange(0, b.len() as int)[i]);
        }
    }
}

/// Dispatches a targeted message through a subtree, root to leaf.  A
/// container that is not itself the target still recurses into its
/// children, so nested targets are always reached; the payload is consumed
/// exactly once, by the one live element whose identity matches and that
/// listens for it, and the action the subtree produced flows back up.
#[verifier::rlimit(100)]
#[verifier::loop_isolation(false)]
pub fn route(e: &mut Element, m: &mut Message, cx: &mut Context) -> (a: Action)
    requires
        old(m).target is Some,
        wf_elem(*old(e), old(cx).store.widgets@, forest_of(old(cx).layout.tree)),
        elem_unique(*old(e)),
    ensures
        // dispatch flips per-element state and sizes; the tree's skeleton is
        // untouched
        nodes_of(*final(e)) == nodes_of(*old(e)),
        widgets_of(*final(e)) == widgets_of(*old(e)),
        ids_of(*final(e)) == ids_of(*old(e)),
        node_of(*final(e)) == node_of(*old(e)),
        widget_of(*final(e)) == widget_of(*old(e)),
        id_of(*final(e)) == id_of(*old(e)),
        wf_elem(*final(e), final(cx).store.widgets@, forest_of(final(cx).layout.tree)),
        elem_unique(*final(e)),
        // the payload is consumed exactly once, by the matching element
        *final(m) == (if !old(m).taken && takes(*old(e), *old(m)) {
            Message { taken: true, ..*old(m) }
        } else {
            *old(m)
        }),
        // exactly the dispatch path is logged, and exactly its commands fire
        final(cx).store.delivered@ == old(cx).store.delivered@ + dispatch_log(
            *old(e),
            *old(m),
        ),
        a.commands@ == dispatch_cmds(*old(e), *old(m)),
        a.quit == dispatch_quit(*old(e), *old(m)),
        a.rebuild == (dispatch_rebuilds(*old(e), *old(m)) || a.commands@.len() > 0),
        // frames: nothing is built, destroyed or restructured
        forest_of(final(cx).layout.tree) == forest_of(old(cx).layout.tree),
        final(cx).store.widgets@.len() == old(cx).store.widgets@.len(),
        forall|w: usize|
            w < old(cx).store.widgets@.len() && !widgets_of(*old(e)).contains(w) ==> final(cx).store.widgets@[w as int] == old(cx).store.widgets@[w as int],
        forall|w: int|
            0 <= w < old(cx).store.widgets@.len() ==> crate::store::keeps_structure(
                old(cx).store.widgets@[w],
                #[trigger] final(cx).store.widgets@[w],
            ),
        ops_extended(old(cx).store.ops@, final(cx).store.ops@, 0, 0),
        final(cx).next_id == old(cx).next_id,
        final(cx).windows@ == old(cx).windows@,
        pending_layouts(old(cx).pending@, final(cx).pending@),
    decreases *old(e),
{
    proof {
        broadcast use vstd::seq_lib::lemma_seq_concat_contains_all_elements;
    }
    let mut a = Action::new();
    match &mut *e {
        Element::Text(_t) => {
            proof {
                assert(cx.store.delivered@ =~= old(cx).store.delivered@ + dispatch_log(
                    *old(e),
                    *old(m),
                ));
                assert(cx.store.ops@.subrange(0, old(cx).store.ops@.len() as int) =~= old(cx).store.ops@);
                assert(cx.pending@.subrange(0, old(cx).pending@.len() as int) =~= old(cx).pending@);
            }
        },
        Element::Flex(fx) => {
            let ghost orig = fx.children@;
            let ghost m0 = *old(m);
            let ghost cx0 = *old(cx);
            proof {
                assert(nodes_of(*old(e)) == seq![fx.node] + nodes_of_seq(orig));
                assert(widgets_of(*old(e)) == seq![fx.widget] + widgets_of_seq(orig));
                assert(ids_of(*old(e)) == seq![fx.view_id.0] + ids_of_seq(orig));
                lemma_nodup_split(seq![fx.node], nodes_of_seq(orig));
                lemma_nodup_split(seq![fx.widget], widgets_of_seq(orig));
                lemma_nodup_split(seq![fx.view_id.0], ids_of_seq(orig));
                lemma_singleton(fx.widget);
                assert(orig.take(0) =~= Seq::<Element>::empty());
                assert(dispatch_log_seq(orig.take(0), m0) =~= Seq::<u64>::empty());
                assert(dispatch_cmds_seq(orig.take(0), m0) =~= Seq::<u64>::empty());
                assert(cx.store.delivered@ =~= cx0.store.delivered@ + dispatch_log_seq(
                    orig.take(0),
                    m0,
                ));
                assert(cx.store.ops@.subrange(0, cx0.store.ops@.len() as int) =~= cx0.store.ops@);
                assert(cx.pending@.subrange(0, cx0.pending@.len() as int) =~= cx0.pending@);
            }
            let n = fx.children.len();
            let mut i: usize = 0;
            while i < n
                invariant
                    i <= n,
                    n == fx.children@.len(),
                    n == orig.len(),
                    m0.target is Some,
                    fx.widget == old(e)->Flex_0.widget,
                    fx.node == old(e)->Flex_0.node,
                    fx.view_id == old(e)->Flex_0.view_id,
                    fx.background_color == old(e)->Flex_0.background_color,
                    fx.style == old(e)->Flex_0.style,
                    forall|j: int| i <= j < n ==> fx.children@[j] == orig[j],
                    forall|j: int|
                        0 <= j < n ==> nodes_of(#[trigger] fx.children@[j]) == nodes_of(orig[j])
                            && widgets_of(fx.children@[j]) == widgets_of(orig[j]) && ids_of(
                            fx.children@[j],
                        ) == ids_of(orig[j]) && node_of(fx.children@[j]) == node_of(orig[j])
                            && widget_of(fx.children@[j]) == widget_of(orig[j]) && id_of(
                            fx.children@[j],
                        ) == id_of(orig[j]),
                    forall|j: int|
                        0 <= j < n ==> wf_elem(
                            #[trigger] fx.children@[j],
                            cx.store.widgets@,
                            forest_of(cx.layout.tree),
                        ),
                    nodes_of_seq(orig).no_duplicates(),
                    widgets_of_seq(orig).no_duplicates(),
                    ids_of_seq(orig).no_duplicates(),
                    !widgets_of_seq(orig).contains(fx.widget),
                    *m == (if !m0.taken && takes_seq(orig.take(i as int), m0) {
                        Message { taken: true, ..m0 }
                    } else {
                        m0
                    }),
                    cx.store.delivered@ == cx0.store.delivered@ + dispatch_log_seq(
                        orig.take(i as int),
                        m0,
                    ),
                    a.commands@ == dispatch_cmds_seq(orig.take(i as int), m0),
                    a.quit == dispatch_quit_seq(orig.take(i as int), m0),
                    a.rebuild == (dispatch_rebuilds_seq(orig.take(i as int), m0)
                        || a.commands@.len() > 0),
                    forest_of(cx.layout.tree) == forest_of(cx0.layout.tree),
                    cx.store.widgets@.len() == cx0.store.widgets@.len(),
                    forall|w: usize|
                        w < cx0.store.widgets@.len() && !widgets_of_seq(orig).contains(w)
                            ==> cx.store.widgets@[w as int] == cx0.store.widgets@[w as int],
                    forall|w: int|
                        0 <= w < cx0.store.widgets@.len() ==> crate::store::keeps_structure(
                            cx0.store.widgets@[w],
                            #[trigger] cx.store.widgets@[w],
                        ),
                    ops_extended(cx0.store.ops@, cx.store.ops@, 0, 0),
                    cx.next_id == cx0.next_id,
                    cx.windows@ == cx0.windows@,
                    pending_layouts(cx0.pending@, cx.pending@),
                decreases n - i,
            {
                let ghost pre = *cx;
                let ghost m_pre = *m;
                let ghost pre_ch = fx.children@;
                let mut ce = fx.children.remove(i);
                proof {
                    assert(ce == pre_ch[i as int]);
                    assert(ce == orig[i as int]);
                    lemma_seq_parts(orig, i as int);
                    assert(nodes_of_seq(orig.take(i as int)) + (nodes_of(orig[i as int])
                        + nodes_of_seq(orig.skip(i as int + 1))) =~= nodes_of_seq(orig));
                    assert(widgets_of_seq(orig.take(i as int)) + (widgets_of(orig[i as int])
                        + widgets_of_seq(orig.skip(i as int + 1))) =~= widgets_of_seq(orig));
                    assert(ids_of_seq(orig.take(i as int)) + (ids_of(orig[i as int])
                        + ids_of_seq(orig.skip(i as int + 1))) =~= ids_of_seq(orig));
                    lemma_nodup_split(
                        nodes_of_seq(orig.take(i as int)),
                        nodes_of(orig[i as int]) + nodes_of_seq(orig.skip(i as int + 1)),
                    );
                    lemma_nodup_split(
                        nodes_of(orig[i as int]),
                        nodes_of_seq(orig.skip(i as int + 1)),
                    );
                    lemma_nodup_split(
                        widgets_of_seq(orig.take(i as int)),
                        widgets_of(orig[i as int]) + widgets_of_seq(orig.skip(i as int + 1)),
                    );
                    lemma_nodup_split(
                        widgets_of(orig[i as int]),
                        widgets_of_seq(orig.skip(i as int + 1)),
                    );
                    lemma_nodup_split(
                        ids_of_seq(orig.take(i as int)),
                        ids_of(orig[i as int]) + ids_of_seq(orig.skip(i as int + 1)),
                    );
                    lemma_nodup_split(ids_of(orig[i as int]), ids_of_seq(orig.skip(i as int + 1)));
                    assert(elem_unique(ce));
                    assert(m.target is Some);
                    assert(decreases_to!(*old(e) => orig[i as int]));
                }
                let sub = route(&mut ce, m, cx);
                let ghost ce1 = ce;
                fx.children.insert(i, ce);
                a.merge(sub);
                proof {
                    assert(fx.children@ =~= pre_ch.update(i as int, ce1));
                    assert(fx.children@.len() == n);
                    assert(forall|j: int|
                        0 <= j < n && j != i ==> #[trigger] fx.children@[j] == pre_ch[j]);
                    // the child saw either the original message or an
                    // already-consumed one; either way its effects match the
                    // aggregates over the original message
                    assert(orig.take(i as int + 1) =~= orig.take(i as int).push(
                        orig[i as int],
                    ));
                    lemma_dispatch_push(orig.take(i as int), orig[i as int], m0);
                    if m_pre.taken && !m0.taken {
                        // something earlier consumed it: this child cannot
                        // hold the target again
                        assert(takes_seq(orig.take(i as int), m0));
                        lemma_takes_in_ids_seq(orig.take(i as int), m0);
                        assert(!takes(orig[i as int], m0)) by {
                            if takes(orig[i as int], m0) {
                                lemma_takes_in_ids(orig[i as int], m0);
                                assert(ids_of_seq(orig.take(i as int)).contains(
                                    (m0.target->Some_0).0,
                                ));
                                assert(ids_of(orig[i as int]).contains((m0.target->Some_0).0));
                            }
                        }
                        lemma_no_take_no_effect(orig[i as int], m0);
                        lemma_taken_not_takes(orig[i as int], m_pre);
                        lemma_no_take_no_effect(orig[i as int], m_pre);
                        assert(dispatch_log(orig[i as int], m_pre) =~= Seq::<u64>::empty());
                    } else if m0.taken {
                        lemma_taken_not_takes(orig[i as int], m0);
                        lemma_no_take_no_effect(orig[i as int], m0);
                    }
                    assert(cx.store.delivered@ =~= cx0.store.delivered@ + dispatch_log_seq(
                        orig.take(i as int + 1),
                        m0,
                    ));
                    assert(a.commands@ =~= dispatch_cmds_seq(orig.take(i as int + 1), m0));
                    lemma_ops_extended_trans(
                        cx0.store.ops@,
                        pre.store.ops@,
                        cx.store.ops@,
                        0,
                        0,
                        0,
                        0,
                    );
                    lemma_pending_layouts_trans(cx0.pending@, pre.pending@, cx.pending@);
                    assert forall|w: int| 0 <= w < cx0.store.widgets@.len() implies
                        crate::store::keeps_structure(
                        cx0.store.widgets@[w],
                        #[trigger] cx.store.widgets@[w],
                    ) by {
                        assert(crate::store::keeps_structure(
                            pre.store.widgets@[w],
                            cx.store.widgets@[w],
                        ));
                    }
                    // untouched siblings stay well-formed
                    assert forall|j: int| 0 <= j < n implies wf_elem(
                        #[trigger] fx.children@[j],
                        cx.store.widgets@,
                        forest_of(cx.layout.tree),
                    ) by {
                        if j == i as int {
                        } else {
                            let sib = fx.children@[j];
                            assert(sib == pre_ch[j]);
                            assert(wf_elem(sib, pre.store.widgets@, forest_of(pre.layout.tree)));
                            assert forall|w: usize| #[trigger] widgets_of(sib).contains(w)
                                implies w < cx.store.widgets@.len() && cx.store.widgets@[
                                w as int
                            ] == pre.store.widgets@[w as int] by {
                                assert(widgets_of(sib) == widgets_of(orig[j]));
                                lemma_seq_parts(orig, j);
                                broadcast use vstd::seq_lib::lemma_seq_concat_contains_all_elements;

                                assert(widgets_of_seq(orig).contains(w));
                                let k2 = choose|k2: int|
                                    0 <= k2 < widgets_of_seq(orig).len() && widgets_of_seq(
                                        orig,
                                    )[k2] == w;
                                assert(w < cx0.store.widgets@.len()) by {
                                    lemma_wf_self_contained(
                                        sib,
                                        pre.store.widgets@,
                                        forest_of(pre.layout.tree),
                                    );
                                }
                                assert(!widgets_of(orig[i as int]).contains(w)) by {
                                    if widgets_of(orig[i as int]).contains(w) {
                                        lemma_double_membership_w2(orig, i as int, j);
                                    }
                                }
                            }
                            assert forall|q: u64| #[trigger] nodes_of(sib).contains(q)
                                implies forest_of(cx.layout.tree).dom().contains(q)
                                && forest_of(cx.layout.tree)[q] == forest_of(
                                pre.layout.tree,
                            )[q] by {
                                assert(forest_of(cx.layout.tree) == forest_of(pre.layout.tree));
                                crate::element::lemma_wf_self_contained(
                                    sib,
                                    pre.store.widgets@,
                                    forest_of(pre.layout.tree),
                                );
                            }
                            lemma_wf_frame(
                                sib,
                                pre.store.widgets@,
                                forest_of(pre.layout.tree),
                                cx.store.widgets@,
                                forest_of(cx.layout.tree),
                            );
                        }
                    }
                    // the taken flag tracks whether some prefix consumed it
                    assert(*m == (if !m0.taken && takes_seq(orig.take(i as int + 1), m0) {
                        Message { taken: true, ..m0 }
                    } else {
                        m0
                    })) by {
                        if m_pre.taken {
                            assert(takes_seq(orig.take(i as int + 1), m0) || m0.taken);
                        }
                    }
                }
                i = i + 1;
            }
            proof {
                assert(orig.take(n as int) =~= orig);
                // the container itself never consumes a targeted message;
                // its aggregates are its children's
                assert(dispatch_log(*old(e), m0) == dispatch_log_seq(orig, m0));
                assert(dispatch_cmds(*old(e), m0) == dispatch_cmds_seq(orig, m0));
                assert(takes(*old(e), m0) == takes_seq(orig, m0));
                // skeleton and well-formedness of the container
                lemma_flat_congruence(fx.children@, orig);
                assert(child_widgets(fx.children@) =~= child_widgets(orig));
                assert(child_nodes(fx.children@) =~= child_nodes(orig));
                assert(fx.widget < cx0.store.widgets@.len());
                assert(cx.store.widgets@[fx.widget as int] == cx0.store.widgets@[
                    fx.widget as int
                ]);
            }
        },
        Element::Pressable(p) => {
            let hit = match (m.target, m.taken, m.payload) {
                (Some(t), false, Payload::Press(_)) => t == p.view_id,
                (Some(t), false, Payload::Hover(_)) => t == p.view_id,
                (Some(t), false, Payload::Focus(_)) => t == p.view_id,
                _ => false,
            };
            if hit {
                let sub = pressable_message(p, m, cx);
                a = sub;
                proof {
                    assert(cx.store.delivered@ =~= old(cx).store.delivered@ + dispatch_log(
                        *old(e),
                        *old(m),
                    ));
                    assert(cx.store.ops@.subrange(0, old(cx).store.ops@.len() as int) =~= old(cx).store.ops@);
                    assert(cx.pending@.subrange(0, old(cx).pending@.len() as int) =~= old(cx).pending@);
                }
            } else {
                proof {
                    assert(nodes_of(*old(e)) == nodes_of(old(e)->Pressable_0.content));
                    assert(widgets_of(*old(e)) == seq![p.widget] + widgets_of(
                        old(e)->Pressable_0.content,
                    ));
                    assert(ids_of(*old(e)) == seq![p.view_id.0] + ids_of(
                        old(e)->Pressable_0.content,
                    ));
                    lemma_nodup_split(
                        seq![p.widget],
                        widgets_of(old(e)->Pressable_0.content),
                    );
                    lemma_nodup_split(
                        seq![p.view_id.0],
                        ids_of(old(e)->Pressable_0.content),
                    );
                    lemma_singleton(p.widget);
                    assert(elem_unique(old(e)->Pressable_0.content));
                    assert(decreases_to!(*old(e) => old(e)->Pressable_0.content));
                }
                let sub = route(&mut p.content, m, cx);
                a = sub;
                proof {
                    // the region's own widget was untouched by the recursion
                    assert(p.widget < old(cx).store.widgets@.len());
                    assert(cx.store.widgets@[p.widget as int] == old(cx).store.widgets@[
                        p.widget as int
                    ]);
                }
            }
        },
        Element::Window(w) => {
            let hit = match (m.target, m.taken, m.payload) {
                (Some(t), false, Payload::Window(_)) => t == w.view_id,
                _ => false,
            };
            if hit {
                proof {
                    lemma_wf_implies_shape(
                        *old(e),
                        old(cx).store.widgets@,
                        forest_of(old(cx).layout.tree),
                    );
                }
                let sub = window_message(w, m, cx);
                a = sub;
                proof {
                    assert(nodes_of(*old(e)) == seq![w.node] + nodes_of(w.content));
                    assert(widgets_of(*old(e)) == seq![w.widget] + widgets_of(w.content));
                    lemma_nodup_split(seq![w.widget], widgets_of(w.content));
                    lemma_singleton(w.widget);
                    lemma_wf_self_contained(
                        old(e)->Window_0.content,
                        old(cx).store.widgets@,
                        forest_of(old(cx).layout.tree),
                    );
                    assert(w.content == old(e)->Window_0.content);
                    // the content and every other widget were untouched
                    assert forall|q: usize| #[trigger] widgets_of(w.content).contains(q)
                        implies q < cx.store.widgets@.len() && cx.store.widgets@[q as int]
                        == old(cx).store.widgets@[q as int] by {
                        assert(q != w.widget);
                        assert(q < old(cx).store.widgets@.len());
                    }
                    assert forall|q: u64| #[trigger] nodes_of(w.content).contains(q)
                        implies forest_of(cx.layout.tree).dom().contains(q) && forest_of(
                        cx.layout.tree,
                    )[q] == forest_of(old(cx).layout.tree)[q] by {
                        assert(forest_of(cx.layout.tree) == forest_of(old(cx).layout.tree));
                    }
                    lemma_wf_frame(
                        w.content,
                        old(cx).store.widgets@,
                        forest_of(old(cx).layout.tree),
                        cx.store.widgets@,
                        forest_of(cx.layout.tree),
                    );
                    if old(m).payload matches Payload::Window(
                        WindowMessage::AnimationFrame(_),
                    ) {
                        if old(e)->Window_0.animating > 0 {
                            assert(cx.store.delivered@ =~= old(cx).store.delivered@
                                + dispatch_log(*old(e), *old(m)));
                        } else {
                            assert(cx.store.delivered@ =~= old(cx).store.delivered@
                                + dispatch_log(*old(e), *old(m)));
                        }
                    } else {
                        assert(cx.store.delivered@ =~= old(cx).store.delivered@ + dispatch_log(
                            *old(e),
                            *old(m),
                        ));
                    }
                    assert(cx.pending@.subrange(0, old(cx).pending@.len() as int) =~= old(cx).pending@);
                }
            } else {
                proof {
                    assert(nodes_of(*old(e)) == seq![w.node] + nodes_of(
                        old(e)->Window_0.content,
                    ));
                    assert(widgets_of(*old(e)) == seq![w.widget] + widgets_of(
                        old(e)->Window_0.content,
                    ));
                    assert(ids_of(*old(e)) == seq![w.view_id.0] + ids_of(
                        old(e)->Window_0.content,
                    ));
                    lemma_nodup_split(seq![w.node], nodes_of(old(e)->Window_0.content));
                    lemma_nodup_split(seq![w.widget], widgets_of(old(e)->Window_0.content));
                    lemma_nodup_split(seq![w.view_id.0], ids_of(old(e)->Window_0.content));
                    lemma_singleton(w.widget);
                    assert(elem_unique(old(e)->Window_0.content));
                    assert(decreases_to!(*old(e) => old(e)->Window_0.content));
                }
                let sub = route(&mut w.content, m, cx);
                a = sub;
                proof {
                    assert(w.widget < old(cx).store.widgets@.len());
                    assert(cx.store.widgets@[w.widget as int] == old(cx).store.widgets@[
                        w.widget as int
                    ]);
                }
            }
        },
        Element::Animate(an) => {
            proof {
                assert(nodes_of(*old(e)) == nodes_of(old(e)->Animate_0.content));
                assert(widgets_of(*old(e)) == widgets_of(old(e)->Animate_0.content));
                assert(ids_of(*old(e)) == seq![an.view_id.0] + ids_of(
                    old(e)->Animate_0.content,
                ));
                lemma_nodup_split(seq![an.view_id.0], ids_of(old(e)->Animate_0.content));
                assert(elem_unique(old(e)->Animate_0.content));
                assert(decreases_to!(*old(e) => old(e)->Animate_0.content));
            }
            let sub = route(&mut an.content, m, cx);
            a = sub;
        },
    }
    a
}

} // verus!
