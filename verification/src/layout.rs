//! Screen layout arithmetic: the split of the terminal into text area,
//! line-number gutter, status line and command line, plus scrolling state.

use vstd::prelude::*;

verus! {

/// Screen layout dimensions
#[derive(Debug, Clone)]
pub struct Layout {
    pub width: u16,
    pub height: u16,
    pub text_area_width: u16,
    pub text_area_height: u16,
    pub status_line_row: u16,
    pub line_number_width: u16,
    pub text_start_col: u16,
}

/// The fixed width of the line-number gutter (" 123 ").
pub const GUTTER_WIDTH: u16 = 5;

impl Layout {
    /// A layout is consistent when every derived field is the stated
    /// function of the terminal size.
    pub open spec fn wf(self) -> bool {
        &&& self.line_number_width == GUTTER_WIDTH
        &&& self.text_start_col == GUTTER_WIDTH
        &&& self.text_area_width == if self.width >= GUTTER_WIDTH { self.width - GUTTER_WIDTH } else { 0 }
        &&& self.text_area_height == if self.height >= 2 { self.height - 2 } else { 0 }
        &&& self.status_line_row == if self.height >= 2 { self.height - 2 } else { 0 }
    }

    pub fn new(width: u16, height: u16) -> (r: Layout)
        ensures
            r.wf(),
            r.width == width,
            r.height == height,
    {
        let line_number_width: u16 = GUTTER_WIDTH;
        let text_start_col: u16 = line_number_width;
        let text_area_width: u16 = if width >= text_start_col { width - text_start_col } else { 0 };
        let text_area_height: u16 = if height >= 2 { height - 2 } else { 0 };
        let status_line_row: u16 = if height >= 2 { height - 2 } else { 0 };
        Layout {
            width,
            height,
            text_area_width,
            text_area_height,
            status_line_row,
            line_number_width,
            text_start_col,
        }
    }

    pub fn update_size(&mut self, width: u16, height: u16)
        ensures
            final(self).wf(),
            final(self).width == width,
            final(self).height == height,
    {
        *self = Self::new(width, height);
    }

    /// Get the row for command line
    pub fn command_line_row(&self) -> (r: u16)
        ensures
            r == if self.height >= 1 { self.height - 1 } else { 0 },
    {
        if self.height >= 1 { self.height - 1 } else { 0 }
    }

    /// Check if a position is within the text area
    pub fn is_in_text_area(&self, col: u16, row: u16) -> (r: bool)
        ensures
            r == (self.text_start_col <= col < self.width && row < self.text_area_height),
    {
        col >= self.text_start_col && col < self.width && row < self.text_area_height
    }

    /// Convert screen coordinates to text buffer coordinates
    pub fn screen_to_buffer(&self, screen_col: u16, screen_row: u16) -> (r: (u16, u16))
        ensures
            r.0 == if screen_col >= self.text_start_col { screen_col - self.text_start_col } else { 0 },
            r.1 == screen_row,
    {
        let buffer_col: u16 = if screen_col >= self.text_start_col {
            screen_col - self.text_start_col
        } else {
            0
        };
        (buffer_col, screen_row)
    }

    /// Convert text buffer coordinates to screen coordinates
    pub fn buffer_to_screen(&self, buffer_col: u16, buffer_row: u16) -> (r: (u16, u16))
        requires
            buffer_col + self.text_start_col <= u16::MAX,
        ensures
            r.0 == buffer_col + self.text_start_col,
            r.1 == buffer_row,
    {
        (buffer_col + self.text_start_col, buffer_row)
    }

    /// Get the rectangle for the text area
    pub fn text_area_rect(&self) -> (r: Rect)
        ensures
            r.x == self.text_start_col,
            r.y == 0,
            r.width == self.text_area_width,
            r.height == self.text_area_height,
    {
        Rect { x: self.text_start_col, y: 0, width: self.text_area_width, height: self.text_area_height }
    }

    /// Get the rectangle for line numbers
    pub fn line_number_rect(&self) -> (r: Rect)
        ensures
            r.x == 0,
            r.y == 0,
            r.width == self.line_number_width,
            r.height == self.text_area_height,
    {
        Rect { x: 0, y: 0, width: self.line_number_width, height: self.text_area_height }
    }

    /// Get the rectangle for status line
    pub fn status_line_rect(&self) -> (r: Rect)
        ensures
            r.x == 0,
            r.y == self.status_line_row,
            r.width == self.width,
            r.height == 1,
    {
        Rect { x: 0, y: self.status_line_row, width: self.width, height: 1 }
    }

    /// Get the rectangle for command line
    pub fn command_line_rect(&self) -> (r: Rect)
        ensures
            r.y == if self.height >= 1 { self.height - 1 } else { 0 },
            r.x == 0,
            r.width == self.width,
            r.height == 1,
    {
        Rect { x: 0, y: self.command_line_row(), width: self.width, height: 1 }
    }
}

impl Default for Layout {
    fn default() -> (r: Layout)
        ensures
            r.wf(),
            r.width == 80,
            r.height == 24,
    {
        Layout::new(80, 24)
    }
}

/// Rectangle for layout positioning
#[derive(Debug, Clone, Copy)]
pub struct Rect {
    pub x: u16,
    pub y: u16,
    pub width: u16,
    pub height: u16,
}

impl Rect {
    pub fn new(x: u16, y: u16, width: u16, height: u16) -> (r: Rect)
        ensures
            r.x == x,
            r.y == y,
            r.width == width,
            r.height == height,
    {
        Rect { x, y, width, height }
    }

    pub fn contains(&self, x: u16, y: u16) -> (r: bool)
        requires
            self.x + self.width <= u16::MAX,
            self.y + self.height <= u16::MAX,
        ensures
            r == (self.x <= x < self.x + self.width && self.y <= y < self.y + self.height),
    {
        x >= self.x && x < self.x + self.width && y >= self.y && y < self.y + self.height
    }

    pub fn right(&self) -> (r: u16)
        requires
            self.x + self.width <= u16::MAX,
        ensures
            r == self.x + self.width,
    {
        self.x + self.width
    }

    pub fn bottom(&self) -> (r: u16)
        requires
            self.y + self.height <= u16::MAX,
        ensures
            r == self.y + self.height,
    {
        self.y + self.height
    }
}

/// Screen position
#[derive(Debug, Clone, Copy, PartialEq, Eq, Structural)]
pub struct Position {
    pub x: u16,
    pub y: u16,
}

impl Position {
    pub fn new(x: u16, y: u16) -> (r: Position)
        ensures
            r.x == x,
            r.y == y,
    {
        Position { x, y }
    }

    pub fn origin() -> (r: Position)
        ensures
            r.x == 0,
            r.y == 0,
    {
        Position::new(0, 0)
    }
}

/// Layout manager for the TUI.  Reading the live terminal size is the
/// caller's business; the manager only holds and recomputes the layout.
pub struct LayoutManager {
    layout: Layout,
}

impl LayoutManager {
    pub closed spec fn view(self) -> Layout {
        self.layout
    }

    pub fn new() -> (r: LayoutManager)
        ensures
            r@.wf(),
            r@.width == 80,
            r@.height == 24,
    {
        LayoutManager { layout: Layout::new(80, 24) }
    }

    pub fn get_layout(&self) -> (r: &Layout)
        ensures
            *r == self@,
    {
        &self.layout
    }

    pub fn update_size(&mut self, width: u16, height: u16)
        ensures
            final(self)@.wf(),
            final(self)@.width == width,
            final(self)@.height == height,
    {
        self.layout.update_size(width, height);
    }
}

impl Default for LayoutManager {
    fn default() -> (r: LayoutManager)
        ensures
            r@.wf(),
            r@.width == 80,
            r@.height == 24,
    {
        LayoutManager::new()
    }
}

/// Viewport state for scrolling
#[derive(Debug, Clone)]
pub struct Viewport {
    pub top_line: usize,
    pub left_col: usize,
    pub width: usize,
    pub height: usize,
}

impl Viewport {
    pub fn new(width: usize, height: usize) -> (r: Viewport)
        ensures
            r.top_line == 0,
            r.left_col == 0,
            r.width == width,
            r.height == height,
    {
        Viewport { top_line: 0, left_col: 0, width, height }
    }

    pub fn scroll_down(&mut self, lines: usize)
        requires
            old(self).top_line + lines <= usize::MAX,
        ensures
            *final(self) == (Viewport { top_line: (old(self).top_line + lines) as usize, ..*old(self) }),
    {
        self.top_line = self.top_line + lines;
    }

    pub fn scroll_up(&mut self, lines: usize)
        ensures
            final(self).top_line == if old(self).top_line >= lines { old(self).top_line - lines } else { 0 },
            final(self).left_col == old(self).left_col,
            final(self).width == old(self).width,
            final(self).height == old(self).height,
    {
        self.top_line = if self.top_line >= lines { self.top_line - lines } else { 0 };
    }

    pub fn scroll_right(&mut self, cols: usize)
        requires
            old(self).left_col + cols <= usize::MAX,
        ensures
            *final(self) == (Viewport { left_col: (old(self).left_col + cols) as usize, ..*old(self) }),
    {
        self.left_col = self.left_col + cols;
    }

    pub fn scroll_left(&mut self, cols: usize)
        ensures
            final(self).left_col == if old(self).left_col >= cols { old(self).left_col - cols } else { 0 },
            final(self).top_line == old(self).top_line,
            final(self).width == old(self).width,
            final(self).height == old(self).height,
    {
        self.left_col = if self.left_col >= cols { self.left_col - cols } else { 0 };
    }

    pub fn contains_line(&self, line: usize) -> (r: bool)
        requires
            self.top_line + self.height <= usize::MAX,
        ensures
            r == (self.top_line <= line < self.top_line + self.height),
    {
        line >= self.top_line && line < self.top_line + self.height
    }

    pub fn contains_col(&self, col: usize) -> (r: bool)
        requires
            self.left_col + self.width <= usize::MAX,
        ensures
            r == (self.left_col <= col < self.left_col + self.width),
    {
        col >= self.left_col && col < self.left_col + self.width
    }

    pub fn line_to_screen(&self, line: usize) -> (r: Option<usize>)
        requires
            self.top_line + self.height <= usize::MAX,
        ensures
            r == if self.top_line <= line < self.top_line + self.height {
                Some((line - self.top_line) as usize)
            } else {
                None::<usize>
            },
    {
        if self.contains_line(line) {
            Some(line - self.top_line)
        } else {
            None
        }
    }

    pub fn col_to_screen(&self, col: usize) -> (r: Option<usize>)
        requires
            self.left_col + self.width <= usize::MAX,
        ensures
            r == if self.left_col <= col < self.left_col + self.width {
                Some((col - self.left_col) as usize)
            } else {
                None::<usize>
            },
    {
        if self.contains_col(col) {
            Some(col - self.left_col)
        } else {
            None
        }
    }
}

} // verus!
