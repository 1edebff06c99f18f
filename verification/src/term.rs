//! Terminal session setup/teardown.
//!
//! Playback runs inside the *alternate screen buffer*, so the player gets its own
//! "page" and the user's scrollback + cursor are restored untouched on exit. Every
//! exit path — normal end, error, Ctrl+C — takes the session down the same way,
//! and only the first of them does so.

use vstd::prelude::*;

verus! {

/// Alt screen, then hide cursor / disable wrap / black bg.
pub const ENTER: &'static str = "\x1b[?1049h\x1b[?25l\x1b[?7l\x1b[40m";

/// Re-enable wrap, show cursor, reset attrs, leave alt screen, newline.
pub const LEAVE: &'static str = "\x1b[?7h\x1b[?25h\x1b[0m\x1b[?1049l\n";

/// A terminal session: active from when the alternate screen was entered until
/// it was left.
#[derive(Debug)]
pub struct TermSession {
    active: bool,
}

impl TermSession {
    /// Whether the alternate screen was entered and not left.
    pub closed spec fn is_active(&self) -> bool {
        self.active
    }

    /// A session that is active as given.
    pub fn with(active: bool) -> (s: TermSession)
        ensures
            s.is_active() == active,
    {
        TermSession { active }
    }

    /// Enter the alternate screen: what to write for it.
    pub fn enter(&mut self) -> (text: &'static str)
        ensures
            text@ == ENTER@,
            final(self).is_active(),
    {
        self.active = true;
        ENTER
    }

    /// Restore the terminal: what to write for it. There is nothing to write
    /// unless the session was active, so a second teardown, or one before the
    /// setup, writes nothing.
    pub fn leave(&mut self) -> (text: Option<&'static str>)
        ensures
            text is Some <==> old(self).is_active(),
            text matches Some(t) ==> t@ == LEAVE@,
            !final(self).is_active(),
    {
        let active = self.active;
        self.active = false;
        if active {
            Some(LEAVE)
        } else {
            None
        }
    }
}

// ── Laws ────────────────────────────────────────────────────────────────

/// One thing that a sequence changes about the terminal.
pub enum ModeOp {
    AltScreen(bool),
    Cursor(bool),
    Wrap(bool),
    BlackBackground,
    PlainAttributes,
    NewLine,
}

/// The characters that change a thing about the terminal.
pub open spec fn mode_text(op: ModeOp) -> Seq<char> {
    match op {
        ModeOp::AltScreen(true) => "\x1b[?1049h"@,
        ModeOp::AltScreen(false) => "\x1b[?1049l"@,
        ModeOp::Cursor(true) => "\x1b[?25h"@,
        ModeOp::Cursor(false) => "\x1b[?25l"@,
        ModeOp::Wrap(true) => "\x1b[?7h"@,
        ModeOp::Wrap(false) => "\x1b[?7l"@,
        ModeOp::BlackBackground => "\x1b[40m"@,
        ModeOp::PlainAttributes => "\x1b[0m"@,
        ModeOp::NewLine => "\n"@,
    }
}

/// The characters that change several things, one after the other.
pub open spec fn modes_text(ops: Seq<ModeOp>) -> Seq<char>
    decreases ops.len(),
{
    if ops.len() == 0 {
        Seq::empty()
    } else {
        modes_text(ops.drop_last()) + mode_text(ops.last())
    }
}

/// What the session changes about a terminal.
pub struct Modes {
    pub alt_screen: bool,
    pub cursor: bool,
    pub wrap: bool,
    pub black_background: bool,
}

/// The terminal after one change.
pub open spec fn changed(m: Modes, op: ModeOp) -> Modes {
    match op {
        ModeOp::AltScreen(on) => Modes { alt_screen: on, ..m },
        ModeOp::Cursor(on) => Modes { cursor: on, ..m },
        ModeOp::Wrap(on) => Modes { wrap: on, ..m },
        ModeOp::BlackBackground => Modes { black_background: true, ..m },
        ModeOp::PlainAttributes => Modes { black_background: false, ..m },
        ModeOp::NewLine => m,
    }
}

/// The terminal after several changes.
pub open spec fn changed_by(m: Modes, ops: Seq<ModeOp>) -> Modes
    decreases ops.len(),
{
    if ops.len() == 0 {
        m
    } else {
        changed(changed_by(m, ops.drop_last()), ops.last())
    }
}

/// What entering changes.
pub open spec fn enter_ops() -> Seq<ModeOp> {
    seq![
        ModeOp::AltScreen(true),
        ModeOp::Cursor(false),
        ModeOp::Wrap(false),
        ModeOp::BlackBackground,
    ]
}

/// What leaving changes.
pub open spec fn leave_ops() -> Seq<ModeOp> {
    seq![
        ModeOp::Wrap(true),
        ModeOp::Cursor(true),
        ModeOp::PlainAttributes,
        ModeOp::AltScreen(false),
        ModeOp::NewLine,
    ]
}

/// Entering puts the player on a page of its own, with the cursor hidden and no
/// wrapping.
pub proof fn law_enter_takes_over(m: Modes)
    ensures
        ENTER@ == modes_text(enter_ops()),
        changed_by(m, enter_ops()) == (Modes {
            alt_screen: true,
            cursor: false,
            wrap: false,
            black_background: true,
        }),
{
    reveal_with_fuel(modes_text, 5);
    reveal_with_fuel(changed_by, 5);
    let ops = enter_ops();
    assert(ops.drop_last() =~= ops.take(3));
    assert(ops.take(3).drop_last() =~= ops.take(2));
    assert(ops.take(2).drop_last() =~= ops.take(1));
    assert(ops.take(1).drop_last() =~= Seq::empty());
    reveal_strlit("\x1b[?1049h\x1b[?25l\x1b[?7l\x1b[40m");
    reveal_strlit("\x1b[?1049h");
    reveal_strlit("\x1b[?25l");
    reveal_strlit("\x1b[?7l");
    reveal_strlit("\x1b[40m");
    assert(ENTER@ =~= modes_text(ops));
}

/// Leaving restores the terminal, whatever state it was left in: the cursor is
/// shown, lines wrap, attributes are reset, and the alternate screen is gone.
pub proof fn law_leave_restores(m: Modes)
    ensures
        LEAVE@ == modes_text(leave_ops()),
        changed_by(m, leave_ops()) == (Modes {
            alt_screen: false,
            cursor: true,
            wrap: true,
            black_background: false,
        }),
{
    reveal_with_fuel(modes_text, 6);
    reveal_with_fuel(changed_by, 6);
    let ops = leave_ops();
    assert(ops.drop_last() =~= ops.take(4));
    assert(ops.take(4).drop_last() =~= ops.take(3));
    assert(ops.take(3).drop_last() =~= ops.take(2));
    assert(ops.take(2).drop_last() =~= ops.take(1));
    assert(ops.take(1).drop_last() =~= Seq::empty());
    reveal_strlit("\x1b[?7h\x1b[?25h\x1b[0m\x1b[?1049l\n");
    reveal_strlit("\x1b[?7h");
    reveal_strlit("\x1b[?25h");
    reveal_strlit("\x1b[0m");
    reveal_strlit("\x1b[?1049l");
    reveal_strlit("\n");
    assert(LEAVE@ =~= modes_text(ops));
}

/// What happens to a session.
pub enum SessionEvent {
    Enter,
    Leave,
}

/// Whether a session is active after the given events.
pub open spec fn active_after(events: Seq<SessionEvent>) -> bool {
    events.len() > 0 && events.last() == SessionEvent::Enter
}

/// How often the terminal was restored.
pub open spec fn restores(events: Seq<SessionEvent>) -> nat
    decreases events.len(),
{
    if events.len() == 0 {
        0
    } else if events.last() == SessionEvent::Leave && active_after(events.drop_last()) {
        restores(events.drop_last()) + 1
    } else {
        restores(events.drop_last())
    }
}

/// How often the alternate screen was entered.
pub open spec fn entries(events: Seq<SessionEvent>) -> nat
    decreases events.len(),
{
    if events.len() == 0 {
        0
    } else if events.last() == SessionEvent::Enter {
        entries(events.drop_last()) + 1
    } else {
        entries(events.drop_last())
    }
}

/// The terminal is restored at most once for each time it was taken over, and
/// not before, however many teardowns race.
pub proof fn law_restored_at_most_once(events: Seq<SessionEvent>)
    ensures
        restores(events) + (if active_after(events) {
            1nat
        } else {
            0nat
        }) <= entries(events),
    decreases events.len(),
{
    if events.len() > 0 {
        law_restored_at_most_once(events.drop_last());
    }
}

/// One session with any number of teardowns, at least one, restores the terminal
/// exactly once.
pub proof fn law_restored_once(events: Seq<SessionEvent>)
    requires
        events.len() >= 2,
        events[0] == SessionEvent::Enter,
        forall|i: int| 1 <= i < events.len() ==> #[trigger] events[i] == SessionEvent::Leave,
    ensures
        restores(events) == 1,
        !active_after(events),
    decreases events.len(),
{
    reveal_with_fuel(restores, 3);
    let earlier = events.drop_last();
    assert(events.last() == events[events.len() - 1]);
    if events.len() > 2 {
        law_restored_once(earlier);
    } else {
        assert(earlier.drop_last() =~= Seq::empty());
        assert(earlier.last() == events[0]);
    }
}

} // verus!
