//! What the mouse does to the selection: a drag with the left button
//! gathers the bees under it, the next one lets them go.

use vstd::prelude::*;

verus! {

/// A button of the mouse.
#[derive(Clone, Copy, Debug, PartialEq, Eq, Structural)]
pub enum Button {
    Left,
    Right,
    Middle,
    Other,
}

/// What the mouse is doing. A drag remembers where its button went down;
/// `P` is the caller's type for a place on the screen.
#[derive(Clone, Copy, Debug)]
pub enum MouseStates<P> {
    LeftDragging(P),
    RightDragging(P),
    MiddleDragging(P),
    Default,
}

/// What the end of a drag does to the selection.
#[derive(Clone, Copy, Debug)]
pub enum Selection<P> {
    /// The selection stays as it is.
    Keep,
    /// Every bee between the given place and the place of the mouse joins
    /// the selection.
    Gather(P),
    /// The selection is emptied.
    Release,
}

/// The state after `button` has gone down at `at`: a drag with that
/// button. Another button than the three leaves the state as it is.
pub fn press<P>(state: MouseStates<P>, button: Button, at: P) -> (next: MouseStates<P>)
    ensures
        next == match button {
            Button::Left => MouseStates::LeftDragging(at),
            Button::Right => MouseStates::RightDragging(at),
            Button::Middle => MouseStates::MiddleDragging(at),
            Button::Other => state,
        },
{
    match button {
        Button::Left => MouseStates::LeftDragging(at),
        Button::Right => MouseStates::RightDragging(at),
        Button::Middle => MouseStates::MiddleDragging(at),
        Button::Other => state,
    }
}

/// What the release of `button` does. Any release ends the drag. The left
/// button, let go at the end of a drag of its own, gathers the bees under
/// the drag when nothing is selected, and empties the selection otherwise.
pub fn release<P>(state: MouseStates<P>, button: Button, nothing_selected: bool) -> (next: (
    MouseStates<P>,
    Selection<P>,
))
    ensures
        next.0 is Default,
        next.1 == match (button, state) {
            (Button::Left, MouseStates::LeftDragging(start)) => if nothing_selected {
                Selection::Gather(start)
            } else {
                Selection::Release
            },
            _ => Selection::Keep,
        },
{
    let selection = match button {
        Button::Left => match state {
            MouseStates::LeftDragging(start) => if nothing_selected {
                Selection::Gather(start)
            } else {
                Selection::Release
            },
            _ => Selection::Keep,
        },
        _ => Selection::Keep,
    };
    (MouseStates::Default, selection)
}

} // verus!
