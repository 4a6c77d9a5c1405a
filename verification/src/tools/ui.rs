//! The layout of the window that shows the key mappings.

use vstd::prelude::*;

verus! {

/// Width of the window, in pixels.
pub const WINDOW_WIDTH: u32 = 800;

/// Height of the window, in pixels.
pub const WINDOW_HEIGHT: u32 = 600;

/// The most key mappings that the window shows.
pub const MAX_ROWS: usize = 15;

/// A rectangle of the window: the corner nearest the origin, and the size.
#[derive(Debug, Clone, Copy, PartialEq, Eq, Structural)]
pub struct Area {
    pub x: i32,
    pub y: i32,
    pub width: u32,
    pub height: u32,
}

/// The window's dimensions, width first.
pub fn get_window_size() -> (size: (u32, u32))
    ensures
        size == (WINDOW_WIDTH, WINDOW_HEIGHT),
{
    (WINDOW_WIDTH, WINDOW_HEIGHT)
}

/// The row that shows the mapping at position `index`: rows are 25 pixels
/// high, 30 pixels apart, and start 100 pixels below the top.
pub open spec fn row_area(index: int) -> Area {
    Area { x: 30, y: (100 + 30 * index) as i32, width: 740, height: 25 }
}

/// The rows that show `mappings` key mappings: one for each of the first
/// fifteen.
pub fn mapping_rows(mappings: usize) -> (rows: Vec<Area>)
    ensures
        rows@.len() == if mappings < MAX_ROWS {
            mappings
        } else {
            MAX_ROWS
        },
        forall|i: int| 0 <= i < rows@.len() ==> rows@[i] == row_area(i),
{
    let count: usize = if mappings < MAX_ROWS {
        mappings
    } else {
        MAX_ROWS
    };
    let mut rows: Vec<Area> = Vec::new();
    let mut i: usize = 0;
    let mut y: i32 = 100;
    while i < count
        invariant
            i <= count <= MAX_ROWS,
            y == 100 + 30 * i,
            rows@.len() == i,
            forall|j: int| 0 <= j < i ==> rows@[j] == row_area(j),
        decreases count - i,
    {
        rows.push(Area { x: 30, y, width: WINDOW_WIDTH - 60, height: 25 });
        y = y + 30;
        i += 1;
    }
    rows
}

/// What the window shows: a border, a header, a row for each key mapping
/// shown, and a footer.
#[derive(Debug, Clone, PartialEq, Eq)]
pub struct Layout {
    pub border: Area,
    pub header: Area,
    pub rows: Vec<Area>,
    pub footer: Area,
}

/// The border: 10 pixels inside the window's edge.
pub open spec fn border_area() -> Area {
    Area { x: 10, y: 10, width: 780, height: 580 }
}

/// The header: 60 pixels high, below the top of the border.
pub open spec fn header_area() -> Area {
    Area { x: 20, y: 20, width: 760, height: 60 }
}

/// The footer: 80 pixels high, 100 pixels above the window's lower edge.
pub open spec fn footer_area() -> Area {
    Area { x: 20, y: 500, width: 760, height: 80 }
}

/// The layout of the window for a grammar of `mappings` key mappings.
pub fn layout(mappings: usize) -> (shown: Layout)
    ensures
        shown.border == border_area(),
        shown.header == header_area(),
        shown.footer == footer_area(),
        shown.rows@.len() == if mappings < MAX_ROWS {
            mappings
        } else {
            MAX_ROWS
        },
        forall|i: int| 0 <= i < shown.rows@.len() ==> shown.rows@[i] == row_area(i),
{
    Layout {
        border: Area { x: 10, y: 10, width: WINDOW_WIDTH - 20, height: WINDOW_HEIGHT - 20 },
        header: Area { x: 20, y: 20, width: WINDOW_WIDTH - 40, height: 60 },
        rows: mapping_rows(mappings),
        footer: Area { x: 20, y: 500, width: WINDOW_WIDTH - 40, height: 80 },
    }
}

} // verus!
