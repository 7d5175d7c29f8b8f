//! The pointer state machine: a left-button drag stirs the fluid at the
//! cursor, and nothing else does.

use vstd::prelude::*;

verus! {

/// A window event as far as the stirring logic reads it.
#[derive(Clone, Copy, Debug, PartialEq, Eq, Structural)]
pub enum PointerEvent {
    /// A mouse button changed state; `left` tells whether it is the left
    /// button, `pressed` whether it went down.
    Button { left: bool, pressed: bool },
    /// The cursor moved; it is now at `(x, y)` after moving by `(dx, dy)`.
    Moved { x: i16, y: i16, dx: i16, dy: i16 },
    /// Any other event.
    Other,
}

/// What a handled event asks the simulation to do.
#[derive(Clone, Copy, Debug, PartialEq, Eq, Structural)]
pub enum PointerAction {
    /// Stir the fluid at `(x, y)` in the direction `(dx, dy)`.
    Stir { x: i16, y: i16, dx: i16, dy: i16 },
    /// Leave the fluid alone.
    Nothing,
}

/// Whether the left button is held, as the events so far tell.
pub struct PointerState {
    pub pressed: bool,
}

/// Whether the left button is held after `event`, when `pressed` told it before.
pub open spec fn next_pressed(pressed: bool, event: PointerEvent) -> bool {
    match event {
        PointerEvent::Button { left, pressed: down } => if left { down } else { pressed },
        _ => pressed,
    }
}

/// What `event` asks for while the left button is held (`pressed`) or not.
pub open spec fn action_of(pressed: bool, event: PointerEvent) -> PointerAction {
    match event {
        PointerEvent::Moved { x, y, dx, dy } => if pressed {
            PointerAction::Stir { x, y, dx, dy }
        } else {
            PointerAction::Nothing
        },
        _ => PointerAction::Nothing,
    }
}

/// Whether the left button is held after the `events`, starting from `pressed`.
pub open spec fn pressed_after(pressed: bool, events: Seq<PointerEvent>) -> bool
    decreases events.len(),
{
    if events.len() == 0 {
        pressed
    } else {
        next_pressed(pressed_after(pressed, events.drop_last()), events.last())
    }
}

/// The state the last left-button event of `events` left it in, if any.
pub open spec fn last_left_button(events: Seq<PointerEvent>) -> Option<bool>
    decreases events.len(),
{
    if events.len() == 0 {
        None
    } else {
        match events.last() {
            PointerEvent::Button { left: true, pressed } => Some(pressed),
            _ => last_left_button(events.drop_last()),
        }
    }
}

impl PointerState {
    /// The state before any event: the button is up.
    pub fn new() -> (s: PointerState)
        ensures
            !s.pressed,
    {
        PointerState { pressed: false }
    }

    /// Handles one event: a left-button event records whether the button is
    /// down, and a cursor move stirs at the cursor while it is down.
    pub fn handle(&mut self, event: PointerEvent) -> (action: PointerAction)
        ensures
            final(self).pressed == next_pressed(old(self).pressed, event),
            action == action_of(old(self).pressed, event),
    {
        match event {
            PointerEvent::Button { left, pressed } => {
                if left {
                    self.pressed = pressed;
                }
                PointerAction::Nothing
            },
            PointerEvent::Moved { x, y, dx, dy } => {
                if self.pressed {
                    PointerAction::Stir { x, y, dx, dy }
                } else {
                    PointerAction::Nothing
                }
            },
            PointerEvent::Other => PointerAction::Nothing,
        }
    }
}

/// After any run of events the button is held exactly when the last left-button
/// event was a press, or, with none, when it was held at the start; in
/// particular a release stops all stirring until the next left press.
pub proof fn lemma_pressed_after_last_left_button(pressed: bool, events: Seq<PointerEvent>)
    ensures
        pressed_after(pressed, events) == match last_left_button(events) {
            Some(down) => down,
            None => pressed,
        },
    decreases events.len(),
{
    if events.len() > 0 {
        lemma_pressed_after_last_left_button(pressed, events.drop_last());
    }
}

/// Only a cursor move while the button is held stirs, and it stirs at the
/// cursor with the cursor's motion.
pub proof fn lemma_stir_only_while_pressed(pressed: bool, event: PointerEvent)
    ensures
        action_of(pressed, event) != PointerAction::Nothing <==> (pressed && event is Moved),
        event is Moved && pressed ==> action_of(pressed, event) == (PointerAction::Stir {
            x: event->x,
            y: event->y,
            dx: event->dx,
            dy: event->dy,
        }),
{
}

} // verus!
