//! What has been done to the terminal, and how it is put back.
use vstd::prelude::*;

verus! {

/// Resets the colours and starts a new line, once the terminal is put back.
pub const RESET: &'static str = "\x1b[0m\r\n";

/// One thing to do to the terminal.
#[derive(Copy, Clone, Debug, PartialEq, Eq, Structural)]
pub enum TermOp {
    EnableRawMode,
    DisableRawMode,
    EnterAlternateScreen,
    LeaveAlternateScreen,
    HideCursor,
    ShowCursor,
    /// Write `RESET`
    ResetColors,
}

/// The state that a terminal is in.
pub struct Terminal {
    pub raw: bool,
    pub alternate: bool,
    pub cursor_hidden: bool,
}

impl Terminal {
    /// The terminal after one operation.
    pub open spec fn after(self, op: TermOp) -> Terminal {
        match op {
            TermOp::EnableRawMode => Terminal { raw: true, ..self },
            TermOp::DisableRawMode => Terminal { raw: false, ..self },
            TermOp::EnterAlternateScreen => Terminal { alternate: true, ..self },
            TermOp::LeaveAlternateScreen => Terminal { alternate: false, ..self },
            TermOp::HideCursor => Terminal { cursor_hidden: true, ..self },
            TermOp::ShowCursor => Terminal { cursor_hidden: false, ..self },
            TermOp::ResetColors => self,
        }
    }

    /// The terminal after each of `ops` in turn.
    pub open spec fn after_all(self, ops: Seq<TermOp>) -> Terminal
        decreases ops.len(),
    {
        if ops.len() == 0 {
            self
        } else {
            self.after_all(ops.drop_last()).after(ops.last())
        }
    }
}

/// Owns the terminal state for the lifetime of a session.
#[derive(Debug)]
pub struct TermGuard {
    raw: bool,
    alt: bool,
}

/// What a guard remembers of the terminal.
pub struct TermView {
    pub raw: bool,
    pub alt: bool,
}

impl View for TermGuard {
    type V = TermView;

    closed spec fn view(&self) -> TermView {
        TermView { raw: self.raw, alt: self.alt }
    }
}

impl TermView {
    /// Whether the guard knows what was done to `t`. The cursor is hidden on the
    /// alternate screen only.
    pub open spec fn describes(self, t: Terminal) -> bool {
        &&& t.raw == self.raw
        &&& t.alternate == self.alt
        &&& t.cursor_hidden ==> self.alt
    }

    /// What switches to the alternate screen.
    pub open spec fn entering(self) -> Seq<TermOp> {
        if self.alt {
            Seq::empty()
        } else {
            seq![TermOp::EnterAlternateScreen, TermOp::HideCursor]
        }
    }

    /// What switches back from the alternate screen.
    pub open spec fn leaving(self) -> Seq<TermOp> {
        if self.alt {
            seq![TermOp::LeaveAlternateScreen, TermOp::ShowCursor]
        } else {
            Seq::empty()
        }
    }

    /// What puts the terminal back the way it was found.
    pub open spec fn restoring(self) -> Seq<TermOp> {
        (if self.alt {
            seq![TermOp::LeaveAlternateScreen]
        } else {
            Seq::empty()
        }) + (if self.raw {
            seq![TermOp::DisableRawMode]
        } else {
            Seq::empty()
        }) + seq![TermOp::ShowCursor, TermOp::ResetColors]
    }
}

impl TermGuard {
    /// Takes charge of a terminal: raw mode is to be enabled.
    pub fn new() -> (r: (Self, TermOp))
        ensures
            r.0@ == (TermView { raw: true, alt: false }),
            r.1 == TermOp::EnableRawMode,
    {
        (TermGuard { raw: true, alt: false }, TermOp::EnableRawMode)
    }

    pub fn enter_alt(&mut self) -> (ops: Vec<TermOp>)
        ensures
            ops@ == old(self)@.entering(),
            final(self)@ == (TermView { alt: true, ..old(self)@ }),
    {
        let mut ops: Vec<TermOp> = Vec::new();
        if !self.alt {
            self.alt = true;
            ops.push(TermOp::EnterAlternateScreen);
            ops.push(TermOp::HideCursor);
        }
        assert(ops@ =~= old(self)@.entering());
        ops
    }

    pub fn leave_alt(&mut self) -> (ops: Vec<TermOp>)
        ensures
            ops@ == old(self)@.leaving(),
            final(self)@ == (TermView { alt: false, ..old(self)@ }),
    {
        let mut ops: Vec<TermOp> = Vec::new();
        if self.alt {
            self.alt = false;
            ops.push(TermOp::LeaveAlternateScreen);
            ops.push(TermOp::ShowCursor);
        }
        assert(ops@ =~= old(self)@.leaving());
        ops
    }

    pub fn in_alt(&self) -> (r: bool)
        ensures
            r == self@.alt,
    {
        self.alt
    }
}

/// Puts the terminal back the way it was found: raw mode off, alternate screen left,
/// cursor visible, colours reset. Safe to call more than once.
pub fn restore(guard: &mut TermGuard) -> (ops: Vec<TermOp>)
    ensures
        ops@ == old(guard)@.restoring(),
        final(guard)@ == (TermView { raw: false, alt: false }),
{
    let mut ops: Vec<TermOp> = Vec::new();
    if guard.alt {
        guard.alt = false;
        ops.push(TermOp::LeaveAlternateScreen);
    }
    if guard.raw {
        guard.raw = false;
        ops.push(TermOp::DisableRawMode);
    }
    ops.push(TermOp::ShowCursor);
    ops.push(TermOp::ResetColors);
    assert(ops@ =~= old(guard)@.restoring());
    ops
}

/// Whatever was done through the guard, restoring leaves the terminal out of raw
/// mode, on the main screen and with a visible cursor; restoring once more changes
/// nothing.
pub proof fn restoring_undoes_everything(guard: TermView, t: Terminal)
    requires
        guard.describes(t),
    ensures
        ({
            let found = Terminal { raw: false, alternate: false, cursor_hidden: false };
            let restored = TermView { raw: false, alt: false };
            &&& t.after_all(guard.restoring()) == found
            &&& found.after_all(restored.restoring()) == found
        }),
{
    lemma_after_restoring(guard, t);
    let restored = TermView { raw: false, alt: false };
    lemma_after_restoring(restored, Terminal { raw: false, alternate: false, cursor_hidden: false });
}

proof fn lemma_after_restoring(guard: TermView, t: Terminal)
    requires
        guard.describes(t),
    ensures
        t.after_all(guard.restoring()) == (Terminal {
            raw: false,
            alternate: false,
            cursor_hidden: false,
        }),
{
    reveal_with_fuel(Terminal::after_all, 5);
    let ops = guard.restoring();
    let n = ops.len();
    assert(ops[n - 1] == TermOp::ResetColors);
    assert(ops[n - 2] == TermOp::ShowCursor);
    assert(ops.drop_last().drop_last() =~= ops.take(n - 2));
    let rest = ops.take(n - 2);
    if guard.alt {
        assert(rest[0] == TermOp::LeaveAlternateScreen);
    }
    if guard.raw {
        assert(rest.last() == TermOp::DisableRawMode);
    }
}

/// Switching screens through the guard keeps its picture of the terminal right.
pub proof fn the_guard_follows_the_screen(guard: TermView, t: Terminal)
    requires
        guard.describes(t),
    ensures
        (TermView { alt: true, ..guard }).describes(t.after_all(guard.entering())),
        (TermView { alt: false, ..guard }).describes(t.after_all(guard.leaving())),
{
    reveal_with_fuel(Terminal::after_all, 3);
    let a = guard.entering();
    let b = guard.leaving();
    if guard.alt {
        assert(b.drop_last() =~= seq![TermOp::LeaveAlternateScreen]);
    } else {
        assert(a.drop_last() =~= seq![TermOp::EnterAlternateScreen]);
    }
}

/// On the alternate screen the cursor is hidden; back on the main screen it is shown.
/// Raw mode stays as it is either way.
pub proof fn switching_screens_moves_the_cursor(guard: TermView, t: Terminal)
    requires
        guard.describes(t),
    ensures
        !guard.alt ==> t.after_all(guard.entering()) == (Terminal {
            raw: t.raw,
            alternate: true,
            cursor_hidden: true,
        }),
        guard.alt ==> t.after_all(guard.leaving()) == (Terminal {
            raw: t.raw,
            alternate: false,
            cursor_hidden: false,
        }),
        guard.alt ==> t.after_all(guard.entering()) == t,
        !guard.alt ==> t.after_all(guard.leaving()) == t,
{
    reveal_with_fuel(Terminal::after_all, 3);
    let a = guard.entering();
    let b = guard.leaving();
    if guard.alt {
        assert(b.drop_last() =~= seq![TermOp::LeaveAlternateScreen]);
    } else {
        assert(a.drop_last() =~= seq![TermOp::EnterAlternateScreen]);
    }
}

/// The terminal is put back in an order that works: the alternate screen and raw mode
/// are left before the colours are reset, which comes last and always.
pub proof fn colors_are_reset_last(guard: TermView)
    ensures
        guard.restoring().last() == TermOp::ResetColors,
        guard.restoring().contains(TermOp::ShowCursor),
        guard.restoring().contains(TermOp::DisableRawMode) <==> guard.raw,
        guard.restoring().contains(TermOp::LeaveAlternateScreen) <==> guard.alt,
{
    let ops = guard.restoring();
    let n = ops.len() as int;
    assert(ops[n - 2] == TermOp::ShowCursor);
    if guard.alt {
        assert(ops[0] == TermOp::LeaveAlternateScreen);
    }
    if guard.raw {
        assert(ops[n - 3] == TermOp::DisableRawMode);
    }
}

} // verus!
