use vstd::prelude::*;

verus! {

/// Event sent from a session's reader thread to the window's event loop. `F` formats the
/// clipboard text that a program asked to read.
pub enum KoiEvent<F> {
    /// Terminal content changed and needs a redraw.
    Wakeup,
    /// A program set its title: the title and the pane id.
    Title(String, usize),
    /// The program of a pane exited: the pane id and the exit code.
    ChildExit(usize, i32),
    /// Terminal bell.
    Bell,
    /// A program asked to put text on the local clipboard.
    ClipboardStore(String),
    /// A program asked to read the local clipboard: the pane id and the formatter of the reply.
    ClipboardLoad(usize, F),
}

} // verus!
