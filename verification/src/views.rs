//! View descriptors: the ephemeral, value-typed tree the application
//! produces each render pass.  A descriptor owns nothing persistent; build
//! and rebuild read it and the driver drops it.
//!
//! Callbacks are carried as application command identifiers: when a callback
//! fires, its identifier is appended to the resulting [`crate::message::Action`]
//! and the caller applies the command to its own data.

use vstd::prelude::*;

use crate::color::Color;
use crate::style::{Direction, FlexStyle, Font, LayerShell, WindowSizing, Wrap};

verus! {

/// A text run.
pub struct Text {
    pub text: String,
    pub color: Color,
    pub font: Font,
    pub wrap: Wrap,
}

/// A flex container of an ordered child sequence.
pub struct Flex {
    pub style: FlexStyle,
    pub background_color: Color,
    pub children: Vec<ViewTree>,
}

/// A clickable region wrapping one child, with optional press, hover and
/// focus commands.
pub struct Pressable {
    pub content: ViewTree,
    pub on_press: Option<u64>,
    pub on_hover: Option<u64>,
    pub on_focus: Option<u64>,
}

/// A toplevel window wrapping one child.
pub struct Window {
    pub content: ViewTree,
    pub sizing: WindowSizing,
    pub layer_shell: Option<LayerShell>,
}

/// A wrapper that keeps the window's frame clock running while `animating`
/// holds, and fires `on_frame` on every animation tick.
pub struct Animate {
    pub animating: bool,
    pub on_frame: Option<u64>,
    pub content: ViewTree,
}

/// One node of the declarative tree.
pub enum ViewTree {
    Text(Text),
    Flex(Flex),
    Pressable(Box<Pressable>),
    Window(Box<Window>),
    Animate(Box<Animate>),
}

/// How many platform widgets building this view creates: one per node,
/// except animate wrappers, which own no widget.
pub open spec fn widget_count(v: ViewTree) -> int
    decreases v,
{
    match v {
        ViewTree::Text(_) => 1,
        ViewTree::Flex(f) => 1 + widget_count_seq(f.children@),
        ViewTree::Pressable(p) => 1 + widget_count(p.content),
        ViewTree::Window(w) => 1 + widget_count(w.content),
        ViewTree::Animate(a) => widget_count(a.content),
    }
}

/// The widgets a sequence of views creates.
pub open spec fn widget_count_seq(s: Seq<ViewTree>) -> int
    decreases s,
{
    if s.len() == 0 {
        0
    } else {
        widget_count(s[0]) + widget_count_seq(s.drop_first())
    }
}

/// How many elements building this view creates; every element, the animate
/// wrapper included, is allocated one identity.
pub open spec fn elem_count(v: ViewTree) -> int
    decreases v,
{
    match v {
        ViewTree::Text(_) => 1,
        ViewTree::Flex(f) => 1 + elem_count_seq(f.children@),
        ViewTree::Pressable(p) => 1 + elem_count(p.content),
        ViewTree::Window(w) => 1 + elem_count(w.content),
        ViewTree::Animate(a) => 1 + elem_count(a.content),
    }
}

/// The elements a sequence of views creates.
pub open spec fn elem_count_seq(s: Seq<ViewTree>) -> int
    decreases s,
{
    if s.len() == 0 {
        0
    } else {
        elem_count(s[0]) + elem_count_seq(s.drop_first())
    }
}

/// Both counts are nonnegative, and the element count bounds the widget
/// count.
pub proof fn lemma_counts_nonneg(v: ViewTree)
    ensures
        0 <= widget_count(v) <= elem_count(v),
    decreases v,
{
    match v {
        ViewTree::Text(_) => {},
        ViewTree::Flex(f) => lemma_counts_nonneg_seq(f.children@),
        ViewTree::Pressable(p) => lemma_counts_nonneg(p.content),
        ViewTree::Window(w) => lemma_counts_nonneg(w.content),
        ViewTree::Animate(a) => lemma_counts_nonneg(a.content),
    }
}

/// Both counts are nonnegative over a sequence.
pub proof fn lemma_counts_nonneg_seq(s: Seq<ViewTree>)
    ensures
        0 <= widget_count_seq(s) <= elem_count_seq(s),
    decreases s,
{
    if s.len() > 0 {
        lemma_counts_nonneg(s[0]);
        lemma_counts_nonneg_seq(s.drop_first());
    }
}

/// How many animation-start requests building this view queues: one per
/// animate wrapper that starts animating, counted only where an enclosing
/// window exists to receive the request.
pub open spec fn anim_count(v: ViewTree, in_window: bool) -> int
    decreases v,
{
    match v {
        ViewTree::Text(_) => 0,
        ViewTree::Flex(f) => anim_count_seq(f.children@, in_window),
        ViewTree::Pressable(p) => anim_count(p.content, in_window),
        ViewTree::Window(w) => anim_count(w.content, true),
        ViewTree::Animate(a) => (if a.animating && in_window {
            1int
        } else {
            0int
        }) + anim_count(a.content, in_window),
    }
}

/// The animation-start requests a sequence of views queues.
pub open spec fn anim_count_seq(s: Seq<ViewTree>, in_window: bool) -> int
    decreases s,
{
    if s.len() == 0 {
        0
    } else {
        anim_count(s[0], in_window) + anim_count_seq(s.drop_first(), in_window)
    }
}

/// The start count is nonnegative.
pub proof fn lemma_anim_nonneg(v: ViewTree, in_window: bool)
    ensures
        0 <= anim_count(v, in_window),
    decreases v,
{
    match v {
        ViewTree::Text(_) => {},
        ViewTree::Flex(f) => lemma_anim_nonneg_seq(f.children@, in_window),
        ViewTree::Pressable(p) => lemma_anim_nonneg(p.content, in_window),
        ViewTree::Window(w) => lemma_anim_nonneg(w.content, true),
        ViewTree::Animate(a) => lemma_anim_nonneg(a.content, in_window),
    }
}

/// The start count of a sequence is nonnegative.
pub proof fn lemma_anim_nonneg_seq(s: Seq<ViewTree>, in_window: bool)
    ensures
        0 <= anim_count_seq(s, in_window),
    decreases s,
{
    if s.len() > 0 {
        lemma_anim_nonneg(s[0], in_window);
        lemma_anim_nonneg_seq(s.drop_first(), in_window);
    }
}

/// The start count of a child list decomposes around any index.
pub proof fn lemma_anim_parts(s: Seq<ViewTree>, i: int, b: bool)
    requires
        0 <= i < s.len(),
    ensures
        anim_count_seq(s, b) == anim_count_seq(s.take(i), b) + anim_count(s[i], b)
            + anim_count_seq(s.skip(i + 1), b),
    decreases i,
{
    if i == 0 {
        assert(s.take(0) =~= Seq::<ViewTree>::empty());
        assert(s.skip(1) =~= s.drop_first());
    } else {
        lemma_anim_parts(s.drop_first(), i - 1, b);
        assert(s.drop_first().take(i - 1) =~= s.take(i).drop_first());
        assert(s.drop_first().skip(i) =~= s.skip(i + 1));
        assert(s.take(i)[0] == s[0]);
        assert(anim_count_seq(s.take(i), b) == anim_count(s[0], b) + anim_count_seq(
            s.take(i).drop_first(),
            b,
        ));
    }
}

/// The counts of a child list decompose around any index.
pub proof fn lemma_view_counts_parts(s: Seq<ViewTree>, i: int)
    requires
        0 <= i < s.len(),
    ensures
        widget_count_seq(s) == widget_count_seq(s.take(i)) + widget_count(s[i]) + widget_count_seq(
            s.skip(i + 1),
        ),
        elem_count_seq(s) == elem_count_seq(s.take(i)) + elem_count(s[i]) + elem_count_seq(
            s.skip(i + 1),
        ),
    decreases i,
{
    if i == 0 {
        assert(s.take(0) =~= Seq::<ViewTree>::empty());
        assert(s.skip(1) =~= s.drop_first());
    } else {
        lemma_view_counts_parts(s.drop_first(), i - 1);
        assert(s.drop_first().take(i - 1) =~= s.take(i).drop_first());
        assert(s.drop_first().skip(i) =~= s.skip(i + 1));
        assert(s.take(i)[0] == s[0]);
        assert(widget_count_seq(s.take(i)) == widget_count(s[0]) + widget_count_seq(
            s.take(i).drop_first(),
        ));
        assert(elem_count_seq(s.take(i)) == elem_count(s[0]) + elem_count_seq(
            s.take(i).drop_first(),
        ));
    }
}

/// A text view with default styling.
pub fn text(s: String) -> (v: ViewTree)
    ensures
        v matches ViewTree::Text(t) && t.text@ == s@ && t.color == (Color {
            r: 255,
            g: 255,
            b: 255,
            a: 255,
        }) && t.font == crate::style::spec_normal_font() && t.wrap == Wrap::NoWrap,
{
    ViewTree::Text(
        Text { text: s, color: Color::white(), font: Font::normal(), wrap: Wrap::NoWrap },
    )
}

/// A horizontal flex container.
pub fn row(children: Vec<ViewTree>) -> (v: ViewTree)
    ensures
        v matches ViewTree::Flex(f) && f.children == children && f.style == FlexStyle::spec_plain(
            Direction::Horizontal,
        ) && f.background_color == (Color { r: 0, g: 0, b: 0, a: 0 }),
{
    ViewTree::Flex(
        Flex {
            style: FlexStyle::plain(Direction::Horizontal),
            background_color: Color::transparent(),
            children,
        },
    )
}

/// A vertical flex container.
pub fn column(children: Vec<ViewTree>) -> (v: ViewTree)
    ensures
        v matches ViewTree::Flex(f) && f.children == children && f.style == FlexStyle::spec_plain(
            Direction::Vertical,
        ) && f.background_color == (Color { r: 0, g: 0, b: 0, a: 0 }),
{
    ViewTree::Flex(
        Flex {
            style: FlexStyle::plain(Direction::Vertical),
            background_color: Color::transparent(),
            children,
        },
    )
}

/// A pressable region around `content` with no commands registered.
pub fn pressable(content: ViewTree) -> (v: ViewTree)
    ensures
        v matches ViewTree::Pressable(p) && p.content == content && p.on_press is None
            && p.on_hover is None && p.on_focus is None,
{
    ViewTree::Pressable(
        Box::new(Pressable { content, on_press: None, on_hover: None, on_focus: None }),
    )
}

/// A user-sized window around `content`.
pub fn window(content: ViewTree) -> (v: ViewTree)
    ensures
        v matches ViewTree::Window(w) && w.content == content && w.sizing == WindowSizing::User
            && w.layer_shell is None,
{
    ViewTree::Window(Box::new(Window { content, sizing: WindowSizing::User, layer_shell: None }))
}

impl Animate {
    /// An animate wrapper: while `animating` holds, the window's frame clock
    /// runs and each tick fires `on_frame`.
    pub fn new(animating: bool, on_frame: Option<u64>, content: ViewTree) -> (v: ViewTree)
        ensures
            v matches ViewTree::Animate(a) && a.animating == animating && a.on_frame == on_frame
                && a.content == content,
    {
        ViewTree::Animate(Box::new(Animate { animating, on_frame, content }))
    }
}

} // verus!
