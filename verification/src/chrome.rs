//! The window's frame: when its look must be set, how, and how dragging begins.

use vstd::prelude::*;

verus! {

/// The border of the window, in the system's byte order: blue, green, red.
pub const CHROME_BORDER_COLOR: u32 = 0x00ef_e6df;

/// Asks for square corners.
pub const CORNERS_SQUARE: i32 = 1;

/// Asks for round corners.
pub const CORNERS_ROUND: i32 = 2;

/// How the window looked when its frame was last set.
#[derive(Debug, Clone, Copy, PartialEq, Eq, Structural)]
pub struct WindowAppearanceSync {
    pub last_maximized: bool,
    pub last_width: u32,
    pub last_height: u32,
}

impl WindowAppearanceSync {
    pub fn new(maximized: bool, width: u32, height: u32) -> (r: Self)
        ensures
            r == (WindowAppearanceSync {
                last_maximized: maximized,
                last_width: width,
                last_height: height,
            }),
    {
        WindowAppearanceSync { last_maximized: maximized, last_width: width, last_height: height }
    }

    /// Takes over how the window looks; its frame is to be set in any case.
    pub fn force(&mut self, maximized: bool, width: u32, height: u32)
        ensures
            *final(self) == (WindowAppearanceSync {
                last_maximized: maximized,
                last_width: width,
                last_height: height,
            }),
    {
        self.last_maximized = maximized;
        self.last_width = width;
        self.last_height = height;
    }

    /// Takes over how the window looks; tells whether that changed, so that its frame is to be
    /// set.
    pub fn sync_if_changed(&mut self, maximized: bool, width: u32, height: u32) -> (r: bool)
        ensures
            *final(self) == (WindowAppearanceSync {
                last_maximized: maximized,
                last_width: width,
                last_height: height,
            }),
            r == (*final(self) != *old(self)),
    {
        if maximized == self.last_maximized && width == self.last_width && height
            == self.last_height {
            return false;
        }
        self.force(maximized, width, height);
        true
    }
}

/// The corners and the border colour of a window: a maximised one has square corners and no
/// visible border.
pub fn window_appearance(maximized: bool) -> (r: (i32, u32))
    ensures
        r == if maximized {
            (CORNERS_SQUARE, 0u32)
        } else {
            (CORNERS_ROUND, CHROME_BORDER_COLOR)
        },
{
    if maximized {
        (CORNERS_SQUARE, 0)
    } else {
        (CORNERS_ROUND, CHROME_BORDER_COLOR)
    }
}

/// The low sixteen bits of a number.
pub open spec fn low_word(v: int) -> int {
    v % 0x1_0000
}

fn low_word_of(v: i32) -> (r: u32)
    ensures
        r == low_word(v as int),
        r < 0x1_0000,
{
    let shifted: u64 = (v as i64 + 0x8000_0000i64) as u64;
    (shifted % 0x1_0000) as u32
}

/// Where the pointer is, as the system's message about a press on the title bar carries it: the
/// vertical position in the upper half, the horizontal one in the lower.
pub fn drag_position(x: i32, y: i32) -> (r: u32)
    ensures
        r == low_word(y as int) * 0x1_0000 + low_word(x as int),
{
    low_word_of(y) * 0x1_0000 + low_word_of(x)
}

/// The low sixteen bits of a number are below 65536 and differ from it by a multiple of that.
pub proof fn low_words_leave_whole_words(v: int)
    ensures
        0 <= low_word(v) < 65536,
        (v - low_word(v)) % 65536 == 0,
{
}

} // verus!
