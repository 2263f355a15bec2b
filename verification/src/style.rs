//! Plain layout and text styling values.  These carry no geometry themselves;
//! the flexbox solver consumes them through the layout boundary.

use vstd::prelude::*;

verus! {

/// Main axis of a flex container.
#[derive(Clone, Copy, Debug, PartialEq, Eq, Structural)]
pub enum Direction {
    Horizontal,
    Vertical,
}

/// Cross-axis alignment of a container's items.
#[derive(Clone, Copy, Debug, PartialEq, Eq, Structural)]
pub enum Align {
    Start,
    Center,
    End,
    Baseline,
    Stretch,
    FlexStart,
    FlexEnd,
}

/// Main-axis distribution of a container's contents.
#[derive(Clone, Copy, Debug, PartialEq, Eq, Structural)]
pub enum Justify {
    Start,
    Center,
    End,
    Stretch,
    SpaceBetween,
    SpaceEvenly,
    SpaceAround,
    FlexStart,
    FlexEnd,
}

/// Whether a node takes part in flex flow or is placed absolutely.
#[derive(Clone, Copy, Debug, PartialEq, Eq, Structural)]
pub enum Position {
    Relative,
    Absolute,
}

/// Font weight, on the usual 1..=1000 scale.
#[derive(Clone, Copy, Debug, PartialEq, Eq, Structural)]
pub struct Weight(pub u16);

/// Font width.
#[derive(Clone, Copy, Debug, PartialEq, Eq, Structural)]
pub enum Stretch {
    UltraCondensed,
    ExtraCondensed,
    Condensed,
    SemiCondensed,
    Normal,
    SemiExpanded,
    Expanded,
    ExtraExpanded,
    UltraExpanded,
}

/// Line wrapping of a text run.
#[derive(Clone, Copy, Debug, PartialEq, Eq, Structural)]
pub enum Wrap {
    NoWrap,
    Word,
    Letter,
}

/// Text styling carried by a text view, compared on rebuild so unchanged text
/// is not reshaped.
#[derive(Clone, Copy, Debug, PartialEq, Eq, Structural)]
pub struct Font {
    /// Size in whole pixels.
    pub size: u16,
    pub weight: Weight,
    pub stretch: Stretch,
    pub italic: bool,
}

/// The default font: 16 px, regular weight, normal width, upright.
pub open spec fn spec_normal_font() -> Font {
    Font { size: 16, weight: Weight(400), stretch: Stretch::Normal, italic: false }
}

impl Font {
    /// The default font: 16 px, regular weight, normal width, upright.
    pub fn normal() -> (f: Font)
        ensures
            f == spec_normal_font(),
    {
        Font { size: 16, weight: Weight(400), stretch: Stretch::Normal, italic: false }
    }
}

/// The flex styling of a container, in whole pixels.
#[derive(Clone, Copy, Debug, PartialEq, Eq, Structural)]
pub struct FlexStyle {
    pub direction: Direction,
    pub justify: Justify,
    pub align: Align,
    /// Gap between items, in pixels.
    pub gap: u16,
    /// Padding on all four sides, in pixels.
    pub padding: u16,
    /// Flex-grow factor.
    pub grow: u16,
}

impl FlexStyle {
    /// A plain row or column: no gap, no padding, no growth.
    pub open spec fn spec_plain(direction: Direction) -> FlexStyle {
        FlexStyle {
            direction,
            justify: Justify::Start,
            align: Align::Stretch,
            gap: 0,
            padding: 0,
            grow: 0,
        }
    }

    /// A plain row or column: no gap, no padding, no growth.
    pub fn plain(direction: Direction) -> (s: FlexStyle)
        ensures
            s == FlexStyle::spec_plain(direction),
    {
        FlexStyle {
            direction,
            justify: Justify::Start,
            align: Align::Stretch,
            gap: 0,
            padding: 0,
            grow: 0,
        }
    }
}

/// How a window tracks its size: freely resized by the user, or fitted to its
/// content.
#[derive(Clone, Copy, Debug, PartialEq, Eq, Structural)]
pub enum WindowSizing {
    User,
    Content,
}

/// Which shell layer a window asks for.
#[derive(Clone, Copy, Debug, PartialEq, Eq, Structural)]
pub enum Layer {
    Background,
    Bottom,
    Top,
    Overlay,
}

/// How a shell-layer window reserves screen space.
#[derive(Clone, Copy, Debug, PartialEq, Eq, Structural)]
pub enum ExclusiveZone {
    Auto,
    Fixed(i32),
}

/// Keyboard interest of a shell-layer window.
#[derive(Clone, Copy, Debug, PartialEq, Eq, Structural)]
pub enum KeyboardInput {
    Never,
    Exclusive,
    OnDemand,
}

/// Configuration of a window anchored to a shell layer instead of managed as
/// an ordinary toplevel.
#[derive(Clone, Copy, Debug, PartialEq, Eq, Structural)]
pub struct LayerShell {
    pub layer: Layer,
    pub exclusive_zone: ExclusiveZone,
    pub keyboard: KeyboardInput,
    pub anchor_top: bool,
    pub anchor_right: bool,
    pub anchor_bottom: bool,
    pub anchor_left: bool,
}

impl LayerShell {
    /// The default layer-shell request: top layer, automatic zone, no
    /// keyboard, anchored nowhere.
    pub fn top() -> (l: LayerShell)
        ensures
            l == (LayerShell {
                layer: Layer::Top,
                exclusive_zone: ExclusiveZone::Auto,
                keyboard: KeyboardInput::Never,
                anchor_top: false,
                anchor_right: false,
                anchor_bottom: false,
                anchor_left: false,
            }),
    {
        LayerShell {
            layer: Layer::Top,
            exclusive_zone: ExclusiveZone::Auto,
            keyboard: KeyboardInput::Never,
            anchor_top: false,
            anchor_right: false,
            anchor_bottom: false,
            anchor_left: false,
        }
    }
}

} // verus!
