//! The two screens of the interactive editor and what a key press asks
//! of the program.

pub mod edit;
pub mod list;

use std::path::PathBuf;
use vstd::prelude::*;

verus! {

/// A key press, as the screens read it.
#[derive(Debug, Clone, Copy, PartialEq, Eq, Structural)]
pub enum Key {
    Char(char),
    Up,
    Down,
    Enter,
    Esc,
    Backspace,
    /// Any other key.
    Other,
}

/// What a key press asks of the program after the screen has handled it.
#[derive(Debug)]
pub enum Transition {
    /// Stay on the current screen.
    Stay,
    Quit,
    /// Open the session file at this path for editing.
    OpenEdit(PathBuf),
    /// Go back to the list of sessions (read afresh).
    BackToList,
}

/// `cur + delta`, kept inside `0..len` (`len > 0`).
pub open spec fn clamp_move(cur: int, delta: int, len: int) -> int {
    if cur + delta < 0 {
        0
    } else if cur + delta > len - 1 {
        len - 1
    } else {
        cur + delta
    }
}

/// `cur + delta`, kept inside `0..len` (`len > 0`).
pub fn clamped_move(cur: usize, delta: isize, len: usize) -> (r: usize)
    requires
        len > 0,
    ensures
        r == clamp_move(cur as int, delta as int, len as int),
{
    let c: i128 = cur as i128;
    let d: i128 = delta as i128;
    let l: i128 = len as i128;
    let t: i128 = c + d;
    if t < 0 {
        0
    } else if t > l - 1 {
        len - 1
    } else {
        t as usize
    }
}

} // verus!
