//! Window settings of the game configuration.

use vstd::prelude::*;

verus! {

/// Window size and title.
#[derive(Clone)]
pub struct WindowSettings {
    pub width: i32,
    pub height: i32,
    pub title: String,
}

impl Default for WindowSettings {
    fn default() -> (s: Self)
        ensures
            s.width == 1280,
            s.height == 720,
            s.title@ == "Brownshock"@,
    {
        Self { width: 1280, height: 720, title: "Brownshock".to_string() }
    }
}

} // verus!
