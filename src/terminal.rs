use vstd::prelude::*;

verus! {

/// Number of scrollback lines kept above the visible screen.
pub const DEFAULT_HISTORY_SIZE: usize = 10_000;

/// Grid dimensions of one terminal: visible columns and lines plus scrollback.
pub struct TerminalSize {
    pub columns: usize,
    pub screen_lines: usize,
    pub history_size: usize,
}

impl TerminalSize {
    pub fn new(columns: usize, screen_lines: usize) -> (r: Self)
        ensures
            r.columns == columns,
            r.screen_lines == screen_lines,
            r.history_size == DEFAULT_HISTORY_SIZE,
    {
        TerminalSize { columns, screen_lines, history_size: DEFAULT_HISTORY_SIZE }
    }

    /// Visible lines plus scrollback; saturates at `usize::MAX`.
    pub fn total_lines(&self) -> (r: usize)
        ensures
            r as int == if self.screen_lines + self.history_size <= usize::MAX {
                self.screen_lines + self.history_size
            } else {
                usize::MAX as int
            },
    {
        self.screen_lines.saturating_add(self.history_size)
    }

    pub fn screen_lines(&self) -> (r: usize)
        ensures
            r == self.screen_lines,
    {
        self.screen_lines
    }

    pub fn columns(&self) -> (r: usize)
        ensures
            r == self.columns,
    {
        self.columns
    }
}

} // verus!
