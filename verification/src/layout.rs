//! The layout service boundary.
//!
//! The node forest lives in a `taffy::TaffyTree`; this module is the crate's
//! only trusted surface over it.  Contracts describe the one thing the
//! reconciler depends on: which children, in which order, each live node
//! has.  Styles and computed geometry pass through opaquely; nothing in the
//! crate's proofs rests on what the solver computes.

use vstd::prelude::*;

use crate::style::{Align, Direction, FlexStyle, Justify};

verus! {

/// Declares `taffy::TaffyTree` so it can stand in a field.
#[verifier::external_type_specification]
#[verifier::external_body]
#[verifier::reject_recursive_types(NodeContext)]
pub struct ExTaffyTree<NodeContext>(taffy::TaffyTree<NodeContext>);

/// An opaque style value of the solver.  Verus refuses the declaration of
/// `taffy::Style` (its string-storage trait bound cannot be stated here), so
/// the crate carries styles behind this box and never looks inside.
#[verifier::external_body]
pub struct Style {
    inner: taffy::Style,
}

/// Declares `taffy::FlexDirection` for the style converters below.
#[verifier::external_type_specification]
#[verifier::external_body]
pub struct ExFlexDirection(taffy::FlexDirection);

/// Declares `taffy::AlignContent` for the style converters below.
#[verifier::external_type_specification]
#[verifier::external_body]
pub struct ExAlignContent(taffy::AlignContent);

/// Declares `taffy::AlignItems` for the style converters below.
#[verifier::external_type_specification]
#[verifier::external_body]
pub struct ExAlignItems(taffy::AlignItems);

/// The children of every live node of a layout tree, in order, by the `u64`
/// form of their node identifiers.  The map's domain is the set of live
/// nodes.
pub uninterp spec fn forest_of(t: taffy::TaffyTree<()>) -> Map<u64, Seq<u64>>;

/// The cached computed size of every live node of a layout tree, saturated
/// to whole pixels.  The cache is part of the tree value (zero until a
/// compute pass overwrites it), so this is a function of the tree alone;
/// which values a compute pass puts there is the solver's business and is
/// never promised.
pub uninterp spec fn read_size_of(t: taffy::TaffyTree<()>) -> Map<u64, (u16, u16)>;

/// The layout node forest, owned by the context and mutated only on the UI
/// pass.
pub struct LayoutTree {
    pub tree: taffy::TaffyTree<()>,
}

impl LayoutTree {
    /// The forest this tree currently holds.
    pub open spec fn forest(&self) -> Map<u64, Seq<u64>> {
        forest_of(self.tree)
    }

    /// A fresh, empty forest.
    pub fn new() -> (t: LayoutTree)
        ensures
            forest_of(t.tree).dom() == Set::<u64>::empty(),
    {
        LayoutTree { tree: taffy_new() }
    }

    /// Creates a detached node with no children and returns its identifier.
    ///
    /// Relies on `taffy::TaffyTree::new_leaf`: it always succeeds, the key it
    /// returns is fresh among live nodes, and the node starts childless.  A
    /// node used as a container gains children through `insert_child`.
    #[verifier::external_body]
    pub fn new_node(&mut self, style: &Style) -> (id: u64)
        ensures
            !forest_of(old(self).tree).dom().contains(id),
            forest_of(final(self).tree) == forest_of(old(self).tree).insert(id, Seq::<u64>::empty()),
    {
        let id = self.tree.new_leaf(style.inner.clone()).expect("node creation is infallible");
        u64::from(id)
    }

    /// Inserts `child` at `index` of `parent`'s children, shifting the rest.
    ///
    /// Relies on `taffy::TaffyTree::insert_child_at_index`: within bounds and
    /// on live nodes it inserts exactly there and touches no other node's
    /// children.
    #[verifier::external_body]
    pub fn insert_child(&mut self, parent: u64, index: usize, child: u64)
        requires
            forest_of(old(self).tree).dom().contains(parent),
            forest_of(old(self).tree).dom().contains(child),
            index <= forest_of(old(self).tree)[parent].len(),
        ensures
            forest_of(final(self).tree) == forest_of(old(self).tree).insert(
                parent,
                forest_of(old(self).tree)[parent].insert(index as int, child),
            ),
    {
        self.tree.insert_child_at_index(parent.into(), index, child.into()).expect(
            "index was checked against the child count",
        );
    }

    /// Detaches the child at `index` of `parent`; the child node itself
    /// stays live.
    ///
    /// Relies on `taffy::TaffyTree::remove_child_at_index`: within bounds and
    /// with a live entry at the index it removes exactly that entry and
    /// touches no other node's children.  A dead entry would make its parent
    /// bookkeeping panic, so the entry is required to be live.
    #[verifier::external_body]
    pub fn remove_child(&mut self, parent: u64, index: usize)
        requires
            forest_of(old(self).tree).dom().contains(parent),
            index < forest_of(old(self).tree)[parent].len(),
            forest_of(old(self).tree).dom().contains(
                forest_of(old(self).tree)[parent][index as int],
            ),
        ensures
            forest_of(final(self).tree) == forest_of(old(self).tree).insert(
                parent,
                forest_of(old(self).tree)[parent].remove(index as int),
            ),
    {
        self.tree.remove_child_at_index(parent.into(), index).expect(
            "index was checked against the child count",
        );
    }

    /// Replaces the child at `index` of `parent`, keeping the index; the
    /// previous child stays live but detached.
    ///
    /// Relies on `taffy::TaffyTree::replace_child_at_index`: within bounds
    /// and with a live entry at the index it overwrites exactly that entry
    /// and touches no other node's children.  A dead entry would make its
    /// parent bookkeeping panic, so the entry is required to be live.
    #[verifier::external_body]
    pub fn replace_child(&mut self, parent: u64, index: usize, child: u64)
        requires
            forest_of(old(self).tree).dom().contains(parent),
            forest_of(old(self).tree).dom().contains(child),
            index < forest_of(old(self).tree)[parent].len(),
            forest_of(old(self).tree).dom().contains(
                forest_of(old(self).tree)[parent][index as int],
            ),
        ensures
            forest_of(final(self).tree) == forest_of(old(self).tree).insert(
                parent,
                forest_of(old(self).tree)[parent].update(index as int, child),
            ),
    {
        self.tree.replace_child_at_index(parent.into(), index, child.into()).expect(
            "index was checked against the child count",
        );
    }

    /// Removes a node from the forest.  The caller detaches it first: no
    /// live node's children may still hold it.
    ///
    /// Relies on `taffy::TaffyTree::remove`: it deletes the node, and the
    /// children of a node that did not list the removed one are untouched.
    /// Clearing the parent pointers of the removed node's own children would
    /// panic on a dead entry, so those entries are required to be live.
    #[verifier::external_body]
    pub fn remove_node(&mut self, node: u64)
        requires
            forest_of(old(self).tree).dom().contains(node),
            forall|j: int|
                0 <= j < forest_of(old(self).tree)[node].len() ==> forest_of(
                    old(self).tree,
                ).dom().contains(#[trigger] forest_of(old(self).tree)[node][j]),
        ensures
            forest_of(final(self).tree).dom() == forest_of(old(self).tree).dom().remove(node),
            forall|p: u64|
                forest_of(old(self).tree).dom().contains(p) && p != node && !forest_of(
                    old(self).tree,
                )[p].contains(node) ==> forest_of(final(self).tree)[p] == forest_of(old(self).tree)[p],
    {
        self.tree.remove(node.into()).expect("the node is live");
    }

    /// Recomputes geometry below `node` within the given space.  No node,
    /// and no node's children, are added or removed by a compute pass.
    ///
    /// Relies on `taffy::TaffyTree::compute_layout`: it only fills in
    /// geometry.  Its traversal recurses through child lists with no cycle
    /// guard and indexes each visited child, so the sub-forest below `node`
    /// is required to mirror a finite element tree (`shaped_at`): every
    /// reachable node is then live and the walk terminates.  A solver error
    /// leaves stale geometry, which the next layout pass overwrites.
    #[verifier::external_body]
    pub fn compute(&mut self, node: u64, space: Space)
        requires
            forest_of(old(self).tree).dom().contains(node),
            crate::element::shaped_at(forest_of(old(self).tree), node),
        ensures
            forest_of(final(self).tree) == forest_of(old(self).tree),
            read_size_of(final(self).tree).dom() == read_size_of(old(self).tree).dom(),
    {
        let available = match space {
            Space::MinContent => taffy::Size {
                width: taffy::AvailableSpace::MinContent,
                height: taffy::AvailableSpace::MinContent,
            },
            Space::MaxContent => taffy::Size {
                width: taffy::AvailableSpace::MaxContent,
                height: taffy::AvailableSpace::MaxContent,
            },
            Space::Definite(w, h) => taffy::Size {
                width: taffy::AvailableSpace::Definite(w.into()),
                height: taffy::AvailableSpace::Definite(h.into()),
            },
        };
        let _ = self.tree.compute_layout(node.into(), available);
    }

    /// The cached computed size of a node, saturated to whole pixels.  The
    /// values are the solver's; nothing is promised of them beyond being
    /// the tree's current cache entry for the node.
    ///
    /// Relies on `taffy::TaffyTree::layout`: for a live node it returns the
    /// stored rounded layout (zero-initialized before any compute pass) and
    /// cannot fail; the saturating casts cannot panic.
    #[verifier::external_body]
    pub fn computed_size(&self, node: u64) -> (r: Option<(u16, u16)>)
        requires
            forest_of(self.tree).dom().contains(node),
        ensures
            r == Some(read_size_of(self.tree)[node]),
    {
        match self.tree.layout(node.into()) {
            Ok(l) => Some((l.size.width as u16, l.size.height as u16)),
            Err(_) => None,
        }
    }

    /// Restyles a node; its children are untouched.
    ///
    /// Relies on `taffy::TaffyTree::set_style`: on a live node it only
    /// replaces the style and marks layout dirty.
    #[verifier::external_body]
    pub fn set_style(&mut self, node: u64, style: &Style)
        requires
            forest_of(old(self).tree).dom().contains(node),
        ensures
            forest_of(final(self).tree) == forest_of(old(self).tree),
    {
        self.tree.set_style(node.into(), style.inner.clone()).expect("the node is live");
    }

}

/// A tree with no nodes.
///
/// Relies on `taffy::TaffyTree::new`: the new tree has no nodes.
#[verifier::external_body]
fn taffy_new() -> (t: taffy::TaffyTree<()>)
    ensures
        forest_of(t).dom() == Set::<u64>::empty(),
{
    taffy::TaffyTree::new()
}

/// The space a window offers its content when geometry is recomputed.
#[derive(Clone, Copy, Debug, PartialEq, Eq, Structural)]
pub enum Space {
    /// Lay out at minimum content size.
    MinContent,
    /// Lay out at maximum content size.
    MaxContent,
    /// Lay out within this many pixels.
    Definite(u16, u16),
}

/// How many children a live node currently has.
///
/// Relies on `taffy::TaffyTree::children` to report the child list.
#[verifier::external_body]
pub fn taffy_children_len(t: &LayoutTree, node: u64) -> (n: usize)
    requires
        forest_of(t.tree).dom().contains(node),
    ensures
        n == forest_of(t.tree)[node].len(),
{
    match t.tree.children(node.into()) {
        Ok(c) => c.len(),
        Err(_) => 0,
    }
}

/// An unstyled node: the default style, as window root nodes use.
///
/// Relies on `taffy::Style::default` for a neutral style value.
#[verifier::external_body]
pub fn plain_style() -> Style {
    Style { inner: taffy::Style::default() }
}

/// The style of a text leaf: content hidden on overflow.
///
/// Relies on the `taffy::Style` fields `overflow` being plain data.
#[verifier::external_body]
pub fn text_style() -> Style {
    let inner = taffy::Style {
        overflow: taffy::Point { x: taffy::Overflow::Hidden, y: taffy::Overflow::Hidden },
        ..taffy::Style::default()
    };
    Style { inner }
}


/// A style pinning a node to a fixed size in pixels, as a user-sized window
/// root is pinned to the platform-reported size.
///
/// Relies on the `taffy::Style` field `size` being plain data.
#[verifier::external_body]
pub fn fixed_style(width: u16, height: u16) -> Style {
    let inner = taffy::Style {
        size: taffy::Size {
            width: taffy::Dimension::length(width.into()),
            height: taffy::Dimension::length(height.into()),
        },
        ..taffy::Style::default()
    };
    Style { inner }
}

/// The flex style a container's plain configuration denotes.
///
/// Relies on the `taffy::Style` flexbox fields being plain data.
#[verifier::external_body]
pub fn flex_style(s: &FlexStyle) -> Style {
    let gap = taffy::LengthPercentage::length(s.gap.into());
    let pad = taffy::LengthPercentage::length(s.padding.into());
    let inner = taffy::Style {
        display: taffy::Display::Flex,
        flex_direction: flex_direction(s.direction),
        justify_content: Some(justify_content(s.justify)),
        align_items: Some(align_items(s.align)),
        gap: taffy::Size { width: gap, height: gap },
        padding: taffy::Rect { left: pad, right: pad, top: pad, bottom: pad },
        flex_grow: s.grow.into(),
        ..taffy::Style::default()
    };
    Style { inner }
}

/// The solver's name for a main axis.
///
/// Relies on `taffy::FlexDirection` naming the same two axes.
#[verifier::external_body]
fn flex_direction(d: Direction) -> taffy::FlexDirection {
    match d {
        Direction::Horizontal => taffy::FlexDirection::Row,
        Direction::Vertical => taffy::FlexDirection::Column,
    }
}

/// The solver's name for each distribution.
///
/// Relies on `taffy::JustifyContent` naming the same distributions.
#[verifier::external_body]
fn justify_content(j: Justify) -> taffy::AlignContent {
    match j {
        Justify::Start => taffy::AlignContent::START,
        Justify::Center => taffy::AlignContent::CENTER,
        Justify::End => taffy::AlignContent::END,
        Justify::Stretch => taffy::AlignContent::STRETCH,
        Justify::SpaceBetween => taffy::AlignContent::SPACE_BETWEEN,
        Justify::SpaceEvenly => taffy::AlignContent::SPACE_EVENLY,
        Justify::SpaceAround => taffy::AlignContent::SPACE_AROUND,
        Justify::FlexStart => taffy::AlignContent::FLEX_START,
        Justify::FlexEnd => taffy::AlignContent::FLEX_END,
    }
}

/// The solver's name for each alignment.
///
/// Relies on `taffy::AlignItems` naming the same alignments.
#[verifier::external_body]
fn align_items(a: Align) -> taffy::AlignItems {
    match a {
        Align::Start => taffy::AlignItems::START,
        Align::Center => taffy::AlignItems::CENTER,
        Align::End => taffy::AlignItems::END,
        Align::Baseline => taffy::AlignItems::BASELINE,
        Align::Stretch => taffy::AlignItems::STRETCH,
        Align::FlexStart => taffy::AlignItems::FLEX_START,
        Align::FlexEnd => taffy::AlignItems::FLEX_END,
    }
}

} // verus!
