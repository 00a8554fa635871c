use vstd::prelude::*;

verus! {

/// The field size a front end starts a game with.
pub struct App {
    pub width: u32,
    pub height: u32,
}

/// Columns of the field when none is given.
pub const DEFAULT_WIDTH: u32 = 10;

/// Rows of the field when none is given.
pub const DEFAULT_HEIGHT: u32 = 20;

impl App {
    /// The sizes given, each one that is missing replaced by its default.
    pub fn from_dims(width: Option<u32>, height: Option<u32>) -> (r: App)
        ensures
            r.width == (match width {
                Some(w) => w,
                None => DEFAULT_WIDTH,
            }),
            r.height == (match height {
                Some(h) => h,
                None => DEFAULT_HEIGHT,
            }),
    {
        let width = match width {
            Some(w) => w,
            None => DEFAULT_WIDTH,
        };
        let height = match height {
            Some(h) => h,
            None => DEFAULT_HEIGHT,
        };
        App { width, height }
    }
}

} // verus!
