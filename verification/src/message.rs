//! Messages, actions, and the press state machine.
//!
//! Platform callbacks run outside the UI pass; they are modelled as
//! [`Message`] values queued for the driver.  Routing a message through the
//! element tree yields an [`Action`]: the requests the tree sends back up,
//! including the identifiers of the application commands whose callbacks
//! fired.  The caller applies those commands to its own data and re-renders.

use vstd::prelude::*;

verus! {

/// Stable identity of one element, allocated once at build time and kept for
/// the element's whole life; targeted messages address elements by it.
#[derive(Clone, Copy, Debug, PartialEq, Eq, Structural)]
pub struct ViewId(pub u64);

/// A pointer-press transition reported by the platform.
#[derive(Clone, Copy, Debug, PartialEq, Eq, Structural)]
pub enum Press {
    /// The pointer went down on the element.
    Pressed,
    /// The pointer was released while still on the element.
    Released,
    /// The gesture ended elsewhere: release off the element, or grab lost.
    Canceled,
}

/// The interactive state of a pressable region.
#[derive(Clone, Copy, Debug, PartialEq, Eq, Structural)]
pub struct PressState {
    pub pressed: bool,
    pub hovered: bool,
    pub focused: bool,
}

impl PressState {
    /// The idle state: not pressed, not hovered, not focused.
    pub fn idle() -> (p: PressState)
        ensures
            p == (PressState { pressed: false, hovered: false, focused: false }),
    {
        PressState { pressed: false, hovered: false, focused: false }
    }
}

/// A broadcast lifecycle signal, distinct from ordinary messages: fresh
/// geometry is available, or an animation time step of so many milliseconds
/// occurred.
#[derive(Clone, Copy, Debug, PartialEq, Eq, Structural)]
pub enum Lifecycle {
    Layout,
    Animate(u64),
}

/// Messages a window element consumes.
#[derive(Clone, Copy, Debug, PartialEq, Eq, Structural)]
pub enum WindowMessage {
    /// A frame tick of so many milliseconds.
    AnimationFrame(u64),
    /// A descendant starts animating; the clock runs while the count is
    /// positive.
    StartAnimating,
    /// A descendant stops animating.
    StopAnimating,
    /// The platform asked to close the window.
    CloseRequested,
    /// Geometry must be recomputed on demand.
    Relayout,
    /// The platform reports a new window size.
    Resized,
}

/// Everything a message can carry.
#[derive(Clone, Copy, Debug, PartialEq, Eq, Structural)]
pub enum Payload {
    Press(Press),
    Hover(bool),
    Focus(bool),
    Window(WindowMessage),
    Lifecycle(Lifecycle),
}

/// A payload with an optional target.  A targeted message is consumed by
/// exactly one element: the live one whose [`ViewId`] matches, provided that
/// element listens for the payload's kind.  A broadcast message (no target)
/// is shown to every element and never consumed.
#[derive(Clone, Copy, Debug, PartialEq, Eq, Structural)]
pub struct Message {
    pub payload: Payload,
    pub target: Option<ViewId>,
    /// Set once a targeted payload has been taken; nothing takes it twice.
    pub taken: bool,
}

impl Message {
    /// A message addressed to one element.
    pub fn new(payload: Payload, target: ViewId) -> (m: Message)
        ensures
            m == (Message { payload, target: Some(target), taken: false }),
    {
        Message { payload, target: Some(target), taken: false }
    }

    /// A broadcast message.
    pub fn broadcast(payload: Payload) -> (m: Message)
        ensures
            m == (Message { payload, target: None, taken: false }),
    {
        Message { payload, target: None, taken: false }
    }
}

/// The effect requests flowing back up from `message` and `rebuild` calls.
/// Requests compose as a union: any element asking for a rebuild makes the
/// whole action ask for one.
#[derive(Debug)]
pub struct Action {
    /// The tree asks the driver for a rebuild pass.
    pub rebuild: bool,
    /// The tree asks the driver to quit.
    pub quit: bool,
    /// Application command identifiers whose callbacks fired, in firing
    /// order.  The driver applies them to the application data.
    pub commands: Vec<u64>,
}

impl Action {
    /// The empty action: no request at all.
    pub fn new() -> (a: Action)
        ensures
            !a.rebuild,
            !a.quit,
            a.commands@ == Seq::<u64>::empty(),
    {
        Action { rebuild: false, quit: false, commands: Vec::new() }
    }

    /// Fold another action into this one.
    pub fn merge(&mut self, other: Action)
        ensures
            final(self).rebuild == (old(self).rebuild || other.rebuild),
            final(self).quit == (old(self).quit || other.quit),
            final(self).commands@ == old(self).commands@ + other.commands@,
    {
        self.rebuild = self.rebuild || other.rebuild;
        self.quit = self.quit || other.quit;
        let mut rest = other.commands;
        self.commands.append(&mut rest);
    }

    /// Record one fired command and ask for a rebuild, as a fired callback
    /// always may have changed the data the tree renders.
    pub fn fire(&mut self, command: u64)
        ensures
            final(self).rebuild,
            final(self).quit == old(self).quit,
            final(self).commands@ == old(self).commands@.push(command),
    {
        self.rebuild = true;
        self.commands.push(command);
    }
}

/// One step of the press machine: what the next state is, and whether the
/// registered press callback fires.  The callback fires only on a release
/// while the element was still pressed — never on the press itself, and never
/// when the gesture ends elsewhere.
pub open spec fn spec_press_step(p: PressState, ev: Press) -> (PressState, bool) {
    match ev {
        Press::Pressed => (PressState { pressed: true, ..p }, false),
        Press::Released => (PressState { pressed: false, ..p }, p.pressed),
        Press::Canceled => (PressState { pressed: false, ..p }, false),
    }
}

/// Executes one step of the press machine.
pub fn press_step(p: PressState, ev: Press) -> (r: (PressState, bool))
    ensures
        r == spec_press_step(p, ev),
{
    match ev {
        Press::Pressed => (PressState { pressed: true, hovered: p.hovered, focused: p.focused }, false),
        Press::Released => (
            PressState { pressed: false, hovered: p.hovered, focused: p.focused },
            p.pressed,
        ),
        Press::Canceled => (
            PressState { pressed: false, hovered: p.hovered, focused: p.focused },
            false,
        ),
    }
}

/// A press followed by a release on the same element fires the press
/// callback exactly once: never on the press itself, once on the release.
pub proof fn lemma_click_fires_once(p: PressState)
    ensures
        !spec_press_step(p, Press::Pressed).1,
        spec_press_step(spec_press_step(p, Press::Pressed).0, Press::Released).1,
{
}

/// A press whose gesture ends elsewhere never fires the callback: the
/// pointer may leave and the release happen off the element.
pub proof fn lemma_cancelled_press_never_fires(p: PressState)
    ensures
        !spec_press_step(p, Press::Pressed).1,
        !spec_press_step(spec_press_step(p, Press::Pressed).0, Press::Canceled).1,
        !spec_press_step(
            spec_press_step(spec_press_step(p, Press::Pressed).0, Press::Canceled).0,
            Press::Released,
        ).1,
{
}

} // verus!
