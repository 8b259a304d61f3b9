use vstd::prelude::*;

verus! {

/// The keys that the browser tells apart.
pub enum Key {
    Enter,
    Up,
    Down,
    Backspace,
    Right,
    Left,
    Char(char),
    /// Any other key.
    Other,
}

/// A key event: which key, and whether it was pressed (rather than repeated
/// or released).
pub struct KeyInput {
    pub key: Key,
    pub is_press: bool,
}

/// What the browser reacts to: a key, or the outcome of computing the size
/// of a directory.
pub enum UpdateEvent {
    Input(KeyInput),
    SizeCalculated { path: String, size: u64 },
    SizeError { path: String },
}

/// What the caller has to do after an event has been handled.
#[derive(Debug, PartialEq, Eq, Structural)]
pub enum Step {
    /// Nothing more: redraw and wait for the next event.
    Continue,
    /// Leave the browser.
    Quit,
    /// Walk the directory being listed again to refill the listing.
    Rescan,
    /// Walk the directory being listed twice over, each walk refilling the
    /// listing from empty and asking again for the size of every
    /// subdirectory.
    RescanTwice,
    /// Walk the directory again, then call `App::finish_depth_change`.
    RescanAndFinish,
}

} // verus!
