//! What holds of a session as a whole.
use crate::cli::{Cli, LogFormat, TsMode};
use crate::clock;
use crate::clock::Now;
use crate::input;
use crate::input::Key;
use crate::logfile;
use crate::logfile::LogView;
use crate::logo;
use crate::scrollback;
use crate::scrollback::{LineView, ScrollbackView};
use crate::session;
use crate::session::{ActionView, Intake, SessionView, Turn};
use crate::serial::PortConfigView;
use crate::term;
use crate::term::{TermOp, TermView, Terminal};
use crate::text;
use crate::timestamps;
use crate::timestamps::Progress;
use crate::tui;
use crate::tui::TuiAction;
use vstd::prelude::*;
use vstd::utf8::*;

verus! {

impl Turn {
    /// So many pieces of what was typed are taken in.
    pub open spec fn steps(self, n: nat, now: Now) -> Turn
        decreases n,
    {
        if n == 0 {
            self
        } else {
            self.steps((n - 1) as nat, now).step(now)
        }
    }

    /// The next piece of what was typed is taken in.
    #[verifier::opaque]
    pub open spec fn step(self, now: Now) -> Turn {
        self.next_typed(now)
    }

    /// The escape key is pressed, and then `b`.
    #[verifier::opaque]
    pub open spec fn command(self, b: u8, now: Now) -> Turn {
        self.typed(self.state.escape, now).typed(b, now)
    }
}

/// What goes into the log with `actions`.
pub open spec fn log_bytes(actions: Seq<ActionView>) -> Seq<u8>
    decreases actions.len(),
{
    if actions.len() == 0 {
        Seq::empty()
    } else {
        match actions.last() {
            ActionView::Log(b) => log_bytes(actions.drop_last()) + b,
            _ => log_bytes(actions.drop_last()),
        }
    }
}

/// What is done to the terminal with `actions`.
pub open spec fn term_ops(actions: Seq<ActionView>) -> Seq<TermOp>
    decreases actions.len(),
{
    if actions.len() == 0 {
        Seq::empty()
    } else {
        match actions.last() {
            ActionView::Term(ops) => term_ops(actions.drop_last()) + ops,
            _ => term_ops(actions.drop_last()),
        }
    }
}

/// What goes to the device with `actions`.
pub open spec fn sent_bytes(actions: Seq<ActionView>) -> Seq<u8>
    decreases actions.len(),
{
    if actions.len() == 0 {
        Seq::empty()
    } else {
        match actions.last() {
            ActionView::Send(b) => sent_bytes(actions.drop_last()) + b,
            _ => sent_bytes(actions.drop_last()),
        }
    }
}

/// Whether each escape byte in `data` is directly followed by a second one.
pub open spec fn in_pairs(data: Seq<u8>, escape: u8) -> bool
    decreases data.len(),
{
    if data.len() == 0 {
        true
    } else if data[0] == escape {
        data.len() >= 2 && data[1] == escape && in_pairs(data.skip(2), escape)
    } else {
        in_pairs(data.skip(1), escape)
    }
}

/// `data` with each pair of escape bytes made single.
pub open spec fn pairs_singled(data: Seq<u8>, escape: u8) -> Seq<u8>
    decreases data.len(),
{
    if data.len() == 0 {
        Seq::empty()
    } else if data.len() >= 2 && data[0] == escape && data[1] == escape {
        seq![escape] + pairs_singled(data.skip(2), escape)
    } else {
        seq![data[0]] + pairs_singled(data.skip(1), escape)
    }
}

/// Whether the escape key is pending after `data`, every press being sent on.
spec fn pending_after(data: Seq<u8>, escape: u8, pending: bool) -> bool
    decreases data.len(),
{
    if data.len() == 0 {
        pending
    } else {
        data.last() == escape && !pending_after(data.drop_last(), escape, pending)
    }
}

/// What of `data` is for the device.
spec fn kept_of(data: Seq<u8>, escape: u8, pending: bool) -> Seq<u8>
    decreases data.len(),
{
    if data.len() == 0 {
        Seq::empty()
    } else if data.last() == escape && !pending_after(data.drop_last(), escape, pending) {
        kept_of(data.drop_last(), escape, pending)
    } else {
        kept_of(data.drop_last(), escape, pending).push(data.last())
    }
}

/// Whether nothing but a second press follows the escape key in `data`.
spec fn no_commands(data: Seq<u8>, escape: u8, pending: bool) -> bool
    decreases data.len(),
{
    data.len() == 0 || (no_commands(data.drop_last(), escape, pending) && (pending_after(
        data.drop_last(),
        escape,
        pending,
    ) ==> data.last() == escape))
}

proof fn lemma_joined(x: Seq<u8>, y: Seq<u8>, escape: u8, pending: bool)
    ensures
        ({
            let middle = pending_after(x, escape, pending);
            &&& pending_after(x + y, escape, pending) == pending_after(y, escape, middle)
            &&& kept_of(x + y, escape, pending) == kept_of(x, escape, pending) + kept_of(
                y,
                escape,
                middle,
            )
            &&& no_commands(x + y, escape, pending) == (no_commands(x, escape, pending)
                && no_commands(y, escape, middle))
        }),
    decreases y.len(),
{
    if y.len() == 0 {
        assert(x + y =~= x);
        assert(kept_of(x, escape, pending) + kept_of(y, escape, pending_after(x, escape, pending))
            =~= kept_of(x, escape, pending));
    } else {
        lemma_joined(x, y.drop_last(), escape, pending);
        assert((x + y).drop_last() =~= x + y.drop_last());
        assert((x + y).last() == y.last());
        let middle = pending_after(x, escape, pending);
        assert(kept_of(x + y, escape, pending) =~= kept_of(x, escape, pending) + kept_of(
            y,
            escape,
            middle,
        ));
    }
}

proof fn lemma_pairs(data: Seq<u8>, escape: u8)
    requires
        in_pairs(data, escape),
    ensures
        no_commands(data, escape, false),
        !pending_after(data, escape, false),
        kept_of(data, escape, false) == pairs_singled(data, escape),
    decreases data.len(),
{
    reveal_with_fuel(no_commands, 3);
    reveal_with_fuel(pending_after, 3);
    reveal_with_fuel(kept_of, 3);
    if data.len() > 0 {
        let n = if data[0] == escape {
            2int
        } else {
            1int
        };
        let head = data.take(n);
        let rest = data.skip(n);
        lemma_pairs(rest, escape);
        assert(data =~= head + rest);
        assert(head.drop_last() =~= data.take(n - 1));
        if n == 2 {
            assert(head.drop_last().drop_last() =~= Seq::<u8>::empty());
        }
        assert(kept_of(head, escape, false) =~= seq![data[0]]);
        lemma_joined(head, rest, escape, false);
    }
}

proof fn lemma_plain_step(t: Turn, now: Now)
    requires
        t.state.rest.len() > 0,
        !t.state.escape_pending,
        t.state.rest[0] != t.state.escape,
    ensures
        t.step(now) == (Turn {
            state: SessionView {
                rest: t.state.rest.skip(1),
                to_port: t.state.to_port.push(t.state.rest[0]),
                ..t.state
            },
            ..t
        }),
{
    reveal(Turn::step);
}

proof fn lemma_press(t: Turn, now: Now)
    requires
        t.state.rest.len() > 0,
        !t.state.escape_pending,
        t.state.rest[0] == t.state.escape,
    ensures
        t.step(now) == (Turn {
            state: SessionView {
                rest: t.state.rest.skip(1),
                escape_pending: true,
                ..t.state
            },
            ..t
        }),
{
    reveal(Turn::step);
}

proof fn lemma_second_press(t: Turn, now: Now)
    requires
        t.state.rest.len() > 0,
        1 <= t.state.escape <= 26,
        t.state.escape_pending,
        t.state.rest[0] == t.state.escape,
    ensures
        t.step(now) == (Turn {
            state: SessionView {
                rest: t.state.rest.skip(1),
                to_port: t.state.to_port.push(t.state.escape),
                escape_pending: false,
                ..t.state
            },
            ..t
        }),
{
    reveal(Turn::step);
}

proof fn lemma_last_step(t: Turn, now: Now)
    requires
        t.state.rest.len() == 0,
    ensures
        t.step(now) == t.typing_done(now),
{
    reveal(Turn::step);
}

proof fn lemma_typed_steps(t: Turn, n: nat, now: Now)
    requires
        n <= t.state.rest.len(),
        1 <= t.state.escape <= 26,
        no_commands(t.state.rest, t.state.escape, t.state.escape_pending),
    ensures
        ({
            let done = t.state.rest.take(n as int);
            t.steps(n, now) == (Turn {
                state: SessionView {
                    rest: t.state.rest.skip(n as int),
                    to_port: t.state.to_port + kept_of(
                        done,
                        t.state.escape,
                        t.state.escape_pending,
                    ),
                    escape_pending: pending_after(done, t.state.escape, t.state.escape_pending),
                    ..t.state
                },
                ..t
            })
        }),
    decreases n,
{
    let e = t.state.escape;
    let pending = t.state.escape_pending;
    let data = t.state.rest;
    let done = data.take(n as int);
    if n == 0 {
        assert(data.skip(0) =~= data);
        assert(t.state.to_port + kept_of(done, e, pending) =~= t.state.to_port);
    } else {
        let before = t.steps((n - 1) as nat, now);
        lemma_typed_steps(t, (n - 1) as nat, now);
        assert(before.state.rest[0] == data[n - 1]);
        assert(done.drop_last() =~= data.take(n - 1));
        assert(done + data.skip(n as int) =~= data);
        lemma_joined(done, data.skip(n as int), e, pending);
        let b = data[n - 1];
        if before.state.escape_pending {
            lemma_second_press(before, now);
        } else if b == e {
            lemma_press(before, now);
        } else {
            lemma_plain_step(before, now);
        }
        assert(before.state.rest.skip(1) =~= data.skip(n as int));
        assert(before.step(now).state.to_port =~= t.state.to_port + kept_of(done, e, pending));
    }
}

proof fn lemma_sent_push(actions: Seq<ActionView>, a: ActionView)
    ensures
        sent_bytes(actions.push(a)) == (match a {
            ActionView::Send(b) => sent_bytes(actions) + b,
            _ => sent_bytes(actions),
        }),
{
    assert(actions.push(a).drop_last() =~= actions);
}

proof fn lemma_sent(t: Turn, data: Seq<u8>, now: Now)
    requires
        t.state.connected,
    ensures
        t.sent(data, now).state == t.state,
        sent_bytes(t.sent(data, now).actions) == sent_bytes(t.actions) + data,
{
    lemma_sent_push(t.actions, ActionView::Print(data));
    let shown = if t.state.echo {
        t.printed(data)
    } else {
        t
    };
    lemma_sent_push(shown.actions, ActionView::Send(data));
}

/// All of a chunk of typed input is taken in.
proof fn lemma_chunk(t: Turn, now: Now)
    requires
        t.state.connected,
        t.state.to_port.len() == 0,
        1 <= t.state.escape <= 26,
        no_commands(t.state.rest, t.state.escape, t.state.escape_pending),
    ensures
        ({
            let data = t.state.rest;
            let after = t.steps(data.len() + 1, now);
            &&& after.state == (SessionView {
                rest: Seq::empty(),
                to_port: Seq::empty(),
                intake: Intake::Idle,
                escape_pending: pending_after(data, t.state.escape, t.state.escape_pending),
                ..t.state
            })
            &&& sent_bytes(after.actions) == sent_bytes(t.actions) + kept_of(
                data,
                t.state.escape,
                t.state.escape_pending,
            )
        }),
{
    let data = t.state.rest;
    let e = t.state.escape;
    let kept = kept_of(data, e, t.state.escape_pending);
    lemma_typed_steps(t, data.len(), now);
    let u = t.steps(data.len(), now);
    assert(data.take(data.len() as int) =~= data);
    assert(data.skip(data.len() as int) =~= Seq::<u8>::empty());
    assert(t.state.to_port + kept =~= kept);
    lemma_last_step(u, now);
    assert(t.steps(data.len() + 1, now) == u.step(now));
    let idle = Turn {
        state: SessionView { intake: Intake::Idle, to_port: Seq::empty(), ..u.state },
        ..u
    };
    if kept.len() == 0 {
        assert(sent_bytes(t.actions) + kept =~= sent_bytes(t.actions));
    } else {
        lemma_sent(idle, kept, now);
    }
}

/// What is typed goes straight to the device, the escape key by pressing it twice.
/// Wherever the input is cut in two, and with or without echo, the device is sent all
/// of it with each pair of escape bytes made single; no command is run on the way.
pub proof fn typing_goes_straight_to_the_device(
    t: Turn,
    x: Seq<u8>,
    y: Seq<u8>,
    now: Now,
    later: Now,
)
    requires
        t.state.well_formed(),
        t.state.tui is None,
        t.state.connected,
        !t.state.escape_pending,
        in_pairs(x + y, t.state.escape),
    ensures
        ({
            let one = t.input(x).steps(x.len() + 1, now);
            let two = one.input(y).steps(y.len() + 1, later);
            &&& sent_bytes(two.actions) == sent_bytes(t.actions) + pairs_singled(
                x + y,
                t.state.escape,
            )
            &&& two.state == (SessionView {
                rest: Seq::empty(),
                to_port: Seq::empty(),
                intake: Intake::Idle,
                ..t.state
            })
            &&& one.state.intake == Intake::Idle
        }),
{
    let e = t.state.escape;
    lemma_pairs(x + y, e);
    lemma_joined(x, y, e, false);
    lemma_chunk(t.input(x), now);
    let one = t.input(x).steps(x.len() + 1, now);
    lemma_chunk(one.input(y), later);
    assert(sent_bytes(t.actions) + kept_of(x, e, false) + kept_of(
        y,
        e,
        pending_after(x, e, false),
    ) =~= sent_bytes(t.actions) + kept_of(x + y, e, false));
}

/// Input that holds no escape byte is sent in one piece and as it is, after it is
/// echoed where that is asked for.
pub proof fn plain_input_is_sent_in_one_piece(s: SessionView, data: Seq<u8>, now: Now)
    requires
        s.well_formed(),
        s.tui is None,
        s.connected,
        !s.escape_pending,
        data.len() > 0,
        !data.contains(s.escape),
    ensures
        s.fresh().input(data).steps(data.len() + 1, now).actions == (if s.echo {
            seq![ActionView::Print(data), ActionView::Send(data)]
        } else {
            seq![ActionView::Send(data)]
        }),
{
    let t = s.fresh().input(data);
    lemma_plain(data, s.escape);
    lemma_typed_steps(t, data.len(), now);
    let u = t.steps(data.len(), now);
    assert(data.take(data.len() as int) =~= data);
    assert(u.state.rest.len() == 0);
    assert(u.state.to_port =~= data);
    lemma_last_step(u, now);
    assert(t.steps(data.len() + 1, now) == u.step(now));
    assert(u.typing_done(now).actions =~= (if s.echo {
        seq![ActionView::Print(data), ActionView::Send(data)]
    } else {
        seq![ActionView::Send(data)]
    }));
}

proof fn lemma_plain(data: Seq<u8>, escape: u8)
    requires
        !data.contains(escape),
    ensures
        no_commands(data, escape, false),
        !pending_after(data, escape, false),
        kept_of(data, escape, false) == data,
    decreases data.len(),
{
    if data.len() > 0 {
        let head = data.drop_last();
        assert forall|i: int| 0 <= i < head.len() implies head[i] != escape by {
            assert(head[i] == data[i]);
            assert(data.contains(data[i]));
        }
        lemma_plain(head, escape);
        assert(data.contains(data.last()));
        assert(head.push(data.last()) =~= data);
    }
}

proof fn lemma_view_closed(t: Turn, now: Now)
    requires
        t.state.tui is Some,
    ensures
        t.closed_view(now).state == (SessionView {
            tui: None,
            term: TermView { alt: false, ..t.state.term },
            ..t.state
        }),
        sent_bytes(t.closed_view(now).actions) == sent_bytes(t.actions),
{
    let ops = t.state.term.leaving();
    let a = Turn {
        state: SessionView {
            tui: None,
            term: TermView { alt: false, ..t.state.term },
            ..t.state
        },
        ..t
    };
    lemma_sent_push(a.actions, ActionView::Term(ops));
    lemma_caught_up(a.adjusted(ops), now);
}

proof fn lemma_caught_up(t: Turn, now: Now)
    ensures
        t.caught_up(now).state == t.state,
        sent_bytes(t.caught_up(now).actions) == sent_bytes(t.actions),
{
    let missed = t.state.sb.since(t.state.tui_mark);
    let skipped = session::omitted(missed.len());
    let remark = text::decimal(skipped) + " earlier lines omitted"@;
    let line = encode_utf8(
        session::note_text(remark, "33"@, t.state.assembler.mid_line()),
    );
    lemma_sent_push(t.actions, ActionView::Print(line));
    let shown = t.shown(line);
    if let Some(l) = t.state.log {
        lemma_sent_push(shown.actions, ActionView::Log(l.note(remark, now.wall)));
    }
    let told = if skipped > 0 {
        t.noted(remark, "33"@, now)
    } else {
        t
    };
    let bytes = encode_utf8(session::replayed(missed.skip(skipped as int), t.state.ts));
    lemma_sent_push(told.actions, ActionView::Print(bytes));
}

/// What follows the key that leaves the scrollback view is ordinary input, even where
/// both are read at once: the device is sent it as if it had been typed afterwards.
#[verifier::rlimit(40)]
pub proof fn what_follows_the_view_is_typed(t: Turn, key: Seq<u8>, data: Seq<u8>, now: Now)
    requires
        t.state.well_formed(),
        t.state.tui is Some,
        t.state.connected,
        !t.state.escape_pending,
        !t.state.quit,
        t.state.keys.len() == 0,
        input::decoded(key) matches Some((k, n)) && n == key.len()
            && t.state.tui->0.after_key(k, t.state.sb.lines).1 == TuiAction::Leave,
        in_pairs(data, t.state.escape),
    ensures
        ({
            let left = t.input(key + data).taken(now).0;
            let after = left.steps(data.len() + 1, now);
            &&& left.state.tui is None
            &&& left.state.intake == Intake::Typing
            &&& left.state.rest == data
            &&& sent_bytes(after.actions) == sent_bytes(t.actions) + pairs_singled(
                data,
                t.state.escape,
            )
            &&& after.state.intake == Intake::Idle
            &&& after.state.tui is None
            &&& !after.state.quit
        }),
{
    let pressed = lemma_leaving(t, key, data, now);
    lemma_view_closed(pressed, now);
    lemma_pairs(data, t.state.escape);
    lemma_chunk(pressed.closed_view(now).browsing(), now);
}

proof fn lemma_leaving(t: Turn, key: Seq<u8>, data: Seq<u8>, now: Now) -> (pressed: Turn)
    requires
        t.state.tui is Some,
        t.state.keys.len() == 0,
        input::decoded(key) matches Some((k, n)) && n == key.len()
            && t.state.tui->0.after_key(k, t.state.sb.lines).1 == TuiAction::Leave,
    ensures
        pressed.actions == t.actions,
        pressed.state == (SessionView {
            keys: data,
            tui: pressed.state.tui,
            intake: Intake::Browsing,
            ..t.state
        }),
        pressed.state.tui is Some,
        t.input(key + data).taken(now).0 == pressed.closed_view(now).browsing(),
{
    let start = t.input(key + data);
    assert(start.state.keys =~= key + data);
    input::later_bytes_change_no_key(key, data);
    let (k, n) = input::decoded(key)->0;
    assert((key + data).skip(n as int) =~= data);
    let ready = Turn {
        state: SessionView { keys: data, intake: Intake::Browsing, ..t.state },
        ..t
    };
    assert(start.taken(now) == start.next_key(now));
    assert(start.next_key(now).0 == ready.keyed(k, now).browsing());
    let (view, action) = t.state.tui->0.after_key(k, t.state.sb.lines);
    let pressed = Turn { state: SessionView { tui: Some(view), ..ready.state }, ..ready };
    assert(ready.keyed(k, now) == pressed.obeyed(action, now));
    pressed
}

/// The escape key pressed twice is sent to the device once.
pub proof fn the_escape_key_can_be_sent(t: Turn, now: Now)
    requires
        t.state.well_formed(),
        !t.state.escape_pending,
    ensures
        t.typed(t.state.escape, now).typed(t.state.escape, now) == (Turn {
            state: SessionView {
                to_port: t.state.to_port.push(t.state.escape),
                ..t.state
            },
            ..t
        }),
{
}

/// The escape key and `q` end the session, and neither goes to the device.
pub proof fn escape_q_quits(t: Turn, now: Now)
    requires
        !t.state.escape_pending,
    ensures
        t.typed(t.state.escape, now).typed(0x71, now) == (Turn {
            state: SessionView { quit: true, ..t.state },
            ..t
        }),
{
}

/// Input while the device is gone is not sent: the user is told instead.
pub proof fn input_without_a_device_is_reported(t: Turn, data: Seq<u8>, now: Now)
    requires
        !t.state.connected,
        !t.state.echo,
    ensures
        t.sent(data, now) == t.noted("not connected — input discarded"@, "31"@, now),
{
}

/// Losing the device does not end a session that may reconnect: the port is let go
/// and looked for again. It does end one that may not.
pub proof fn unplugging_is_not_fatal(t: Turn, reason: Seq<char>, now: Now)
    ensures
        ({
            let after = t.disconnected(reason, now);
            &&& !after.state.connected
            &&& after.actions.len() > t.actions.len()
            &&& after.actions[t.actions.len() as int] == ActionView::ClosePort
            &&& t.state.reconnect ==> after.state.quit == t.state.quit && after.state.next_try
                == session::retry_after(now.mono)
            &&& !t.state.reconnect ==> after.state.quit
            &&& after.state.cfg == t.state.cfg
            &&& after.state.identity == t.state.identity
            &&& after.state.sb == t.state.sb
            &&& after.state.log == t.state.log
        }),
{
}

/// While the device is gone it is looked for once the pause is over, and then not
/// again before the next pause is.
pub proof fn attempts_are_spaced(t: Turn, now: Now, later: Now)
    requires
        !t.state.connected,
        t.state.reconnect,
        t.state.next_try <= now.mono,
        later.mono < session::retry_after(now.mono),
    ensures
        t.retried(now).actions == t.actions.push(ActionView::Reconnect),
        t.retried(now).retried(later) == t.retried(now),
{
}

/// A device that comes back is used with the settings it had. Its identity is not
/// forgotten, and lines and log go on.
pub proof fn reconnecting_keeps_the_settings(
    t: Turn,
    path: Seq<char>,
    identity: Option<Seq<char>>,
    now: Now,
)
    ensures
        ({
            let after = t.reconnected(path, identity, now).state;
            &&& after.connected
            &&& after.cfg.path == path
            &&& after.cfg.baud == t.state.cfg.baud
            &&& after.cfg.frame == t.state.cfg.frame
            &&& identity is None ==> after.identity == t.state.identity
            &&& after.sb == t.state.sb
            &&& after.log == t.state.log
            &&& after.assembler == t.state.assembler
        }),
{
}

proof fn lemma_log_push(actions: Seq<ActionView>, a: ActionView)
    ensures
        log_bytes(actions.push(a)) == (match a {
            ActionView::Log(b) => log_bytes(actions) + b,
            _ => log_bytes(actions),
        }),
        term_ops(actions.push(a)) == (match a {
            ActionView::Term(ops) => term_ops(actions) + ops,
            _ => term_ops(actions),
        }),
{
    assert(actions.push(a).drop_last() =~= actions);
}

proof fn lemma_logged(t: Turn, bytes: Seq<u8>)
    ensures
        t.state.log is Some ==> log_bytes(t.logged(bytes).actions) == log_bytes(t.actions) + bytes,
        t.logged(bytes).state == t.state,
        term_ops(t.logged(bytes).actions) == term_ops(t.actions),
{
    lemma_log_push(t.actions, ActionView::Log(bytes));
    if bytes.len() == 0 {
        assert(log_bytes(t.actions) + bytes =~= log_bytes(t.actions));
    }
}

proof fn lemma_printed(t: Turn, bytes: Seq<u8>)
    ensures
        log_bytes(t.printed(bytes).actions) == log_bytes(t.actions),
        t.printed(bytes).state == t.state,
{
    lemma_log_push(t.actions, ActionView::Print(bytes));
}

/// The log takes what arrives: a raw log every byte as it came, a clean log every
/// finished line.
pub proof fn the_log_takes_what_arrives(t: Turn, data: Seq<u8>, times: Seq<Now>)
    requires
        t.state.log is Some,
    ensures
        ({
            let log = t.state.log->0;
            let lines = t.state.assembler.fresh().feed(data, t.state.ts, times).lines;
            log_bytes(t.received(data, times).actions) == log_bytes(t.actions) + (if log.format
                == LogFormat::Raw {
                data
            } else {
                log.lines(lines)
            })
        }),
{
    let log = t.state.log->0;
    let p = t.state.assembler.fresh().feed(data, t.state.ts, times);
    let a = Turn {
        state: SessionView {
            assembler: p.state,
            rx_bytes: t.state.rx_bytes + data.len(),
            ..t.state
        },
        ..t
    };
    lemma_logged(a, log.chunk(data));
    let b = a.logged(log.chunk(data));
    lemma_printed(b, p.out);
    let c = b.printed(p.out);
    let d = Turn { state: SessionView { sb: c.state.sb.push_all(p.lines), ..c.state }, ..c };
    lemma_logged(d, log.lines(p.lines));
    logfile::logs_hold_the_stream_or_the_lines(log, data, data, p.lines);
    assert(t.received(data, times) == d.logged(log.lines(p.lines)));
    assert(log_bytes(t.actions) + log.chunk(data) + log.lines(p.lines) =~= log_bytes(t.actions) + (
    if log.format == LogFormat::Raw {
        data
    } else {
        log.lines(p.lines)
    }));
}

/// While the scrollback view is open nothing else is written to the terminal: device
/// output and status lines only go to the buffer and the log.
pub proof fn the_open_view_is_left_alone(
    t: Turn,
    data: Seq<u8>,
    times: Seq<Now>,
    remark: Seq<char>,
    color: Seq<char>,
    now: Now,
)
    requires
        t.state.tui is Some,
    ensures
        ({
            let after = t.received(data, times).actions;
            &&& t.actions.len() <= after.len()
            &&& after.take(t.actions.len() as int) == t.actions
            &&& forall|i: int|
                t.actions.len() <= i < after.len() ==> (#[trigger] after[i]) is Log
        }),
        ({
            let after = t.noted(remark, color, now).actions;
            &&& t.actions.len() <= after.len()
            &&& after.take(t.actions.len() as int) == t.actions
            &&& forall|i: int|
                t.actions.len() <= i < after.len() ==> (#[trigger] after[i]) is Log
        }),
{
    assert(t.received(data, times).actions.take(t.actions.len() as int) =~= t.actions);
    assert(t.noted(remark, color, now).actions.take(t.actions.len() as int) =~= t.actions);
}

/// Leaving the scrollback view replays the lines that arrived since it was opened:
/// all of them, or the newest where there are more than the limit or than the buffer
/// holds. How many of those held are left out is told first.
pub proof fn what_was_missed_is_replayed(
    s: SessionView,
    opened: ScrollbackView,
    lines: Seq<LineView>,
    now: Now,
)
    requires
        opened.cap >= 1,
        opened.lines.len() <= opened.cap,
        s.tui is None,
        s.tui_mark == opened.total(),
        s.sb == opened.push_all(lines),
    ensures
        ({
            let held = if lines.len() <= opened.cap {
                lines.len()
            } else {
                opened.cap
            };
            let shown = if held <= session::REPLAY_LIMIT {
                held
            } else {
                session::REPLAY_LIMIT as nat
            };
            let told = if shown < held {
                s.fresh().noted(
                    text::decimal((held - shown) as nat) + " earlier lines omitted"@,
                    "33"@,
                    now,
                )
            } else {
                s.fresh()
            };
            s.fresh().caught_up(now) == told.printed(
                encode_utf8(session::replayed(lines.skip(lines.len() - shown), s.ts)),
            )
        }),
{
    scrollback::a_mark_selects_what_came_after(opened, lines);
    let missed = s.sb.since(s.tui_mark);
    let skipped = session::omitted(missed.len());
    assert(missed.skip(skipped as int) =~= lines.skip(
        lines.len() - (missed.len() - skipped),
    ));
}

/// The bytes of `lines` as the device sent them, each followed by a line break.
pub open spec fn as_sent(lines: Seq<LineView>) -> Seq<u8>
    decreases lines.len(),
{
    if lines.len() == 0 {
        Seq::empty()
    } else {
        as_sent(lines.drop_last()) + lines.last().raw + seq![0x0d, 0x0a]
    }
}

/// A replayed line is what the device sent, byte for byte and escape sequences
/// included, with a line break after it. With timestamps on, its prefix stands in
/// front of it in grey, and nothing else does.
pub proof fn a_line_is_replayed_as_it_was_sent(line: LineView, ts: TsMode)
    requires
        valid_utf8(line.raw),
    ensures
        encode_utf8(session::replayed_line(line, ts)) == (if ts == TsMode::Off {
            Seq::empty()
        } else {
            encode_utf8("\x1b[90m"@) + encode_utf8(line.prefix(ts)) + encode_utf8("\x1b[39m"@)
        }) + line.raw + seq![0x0d, 0x0a],
        (line.raw + seq![0x0d, 0x0a]).is_suffix_of(
            encode_utf8(session::replayed_line(line, ts)),
        ),
{
    let sent = decode_utf8(line.raw);
    decode_utf8_encode_utf8(line.raw);
    reveal_strlit("\r\n");
    is_ascii_chars_encode_utf8("\r\n"@);
    assert(encode_utf8("\r\n"@) =~= seq![0x0du8, 0x0a]);
    scrollback::a_prefix_tells_one_time(line, line, ts);
    let dim = "\x1b[90m"@;
    let undim = "\x1b[39m"@;
    let front = if ts == TsMode::Off {
        Seq::empty()
    } else {
        dim + line.prefix(ts) + undim
    };
    text::encoding_joins(dim + line.prefix(ts), undim);
    text::encoding_joins(dim, line.prefix(ts));
    text::encoding_joins(front + sent, "\r\n"@);
    text::encoding_joins(front, sent);
    assert(encode_utf8(Seq::<char>::empty()) =~= Seq::<u8>::empty());
    assert(session::replayed_line(line, ts) == front + sent + "\r\n"@);
    let all = encode_utf8(session::replayed_line(line, ts));
    let tail = line.raw + seq![0x0du8, 0x0a];
    assert(all =~= encode_utf8(front) + tail);
    assert(all.subrange(all.len() - tail.len(), all.len() as int) =~= tail);
}

/// With timestamps off, a replay is what the device sent while the view was open,
/// byte for byte and escape sequences included, each line with its line break.
pub proof fn a_replay_is_what_was_sent(lines: Seq<LineView>)
    requires
        forall|i: int| 0 <= i < lines.len() ==> valid_utf8((#[trigger] lines[i]).raw),
    ensures
        encode_utf8(session::replayed(lines, TsMode::Off)) == as_sent(lines),
    decreases lines.len(),
{
    if lines.len() == 0 {
        assert(encode_utf8(Seq::<char>::empty()) =~= Seq::<u8>::empty());
    } else {
        let head = lines.drop_last();
        assert forall|i: int| 0 <= i < head.len() implies valid_utf8((#[trigger] head[i]).raw) by {
            assert(head[i] == lines[i]);
        }
        a_replay_is_what_was_sent(head);
        assert(valid_utf8(lines[lines.len() - 1].raw));
        a_line_is_replayed_as_it_was_sent(lines.last(), TsMode::Off);
        text::encoding_joins(
            session::replayed(head, TsMode::Off),
            session::replayed_line(lines.last(), TsMode::Off),
        );
        assert(as_sent(head) + lines.last().raw + seq![0x0du8, 0x0a] =~= as_sent(head) + (
        Seq::<u8>::empty() + lines.last().raw + seq![0x0du8, 0x0a]));
    }
}

/// Lines are replayed one after the other in the order they came, each on its own, in
/// every timestamp mode.
pub proof fn a_replay_is_made_of_its_lines(
    a: Seq<LineView>,
    line: LineView,
    b: Seq<LineView>,
    ts: TsMode,
)
    ensures
        session::replayed(a + seq![line] + b, ts) == session::replayed(a, ts)
            + session::replayed_line(line, ts) + session::replayed(b, ts),
    decreases b.len(),
{
    let all = a + seq![line] + b;
    if b.len() == 0 {
        assert(all =~= a.push(line));
        assert(a.push(line).drop_last() =~= a);
        assert(session::replayed(all, ts) =~= session::replayed(a, ts) + session::replayed_line(
            line,
            ts,
        ) + session::replayed(b, ts));
    } else {
        a_replay_is_made_of_its_lines(a, line, b.drop_last(), ts);
        assert(all.drop_last() =~= a + seq![line] + b.drop_last());
        assert(session::replayed(all, ts) =~= session::replayed(a, ts) + session::replayed_line(
            line,
            ts,
        ) + session::replayed(b, ts));
    }
}

/// A line that is replayed looks as it would have looked live: the replay writes the
/// very bytes that were written, or would have been, when the line arrived, in every
/// timestamp mode.
pub proof fn a_replay_looks_like_the_live_output(
    p: Progress,
    b: u8,
    data: Seq<u8>,
    ts: TsMode,
    times: Seq<Now>,
)
    requires
        p.state.at_line_start,
        !p.state.pending_cr,
        p.state.esc == timestamps::Esc::Outside,
        p.state.cur == p.state.pending_esc,
        times.len() >= data.len() + 2,
        b != 0x0d && b != 0x0a && b != 0x1b,
        forall|i: int| 0 <= i < data.len() ==> #[trigger] data[i] != 0x0d && data[i] != 0x0a,
        valid_utf8(p.state.cur + seq![b] + data),
    ensures
        ({
            let r = p.feed(seq![b] + data + seq![0x0a], ts, times);
            r.out == p.out + encode_utf8(session::replayed_line(r.lines.last(), ts))
        }),
{
    timestamps::a_line_bears_the_time_it_began(p, b, data, ts, times);
    let r = p.feed(seq![b] + data + seq![0x0au8], ts, times);
    let l = r.lines.last();
    a_line_is_replayed_as_it_was_sent(l, ts);
    assert(r.out =~= p.out + encode_utf8(session::replayed_line(l, ts)));
}

/// Opening the scrollback view marks what has been received so far, and shows the
/// newest lines.
pub proof fn opening_the_view_marks_the_buffer(t: Turn)
    ensures
        t.opened_view().state.tui_mark == t.state.sb.total(),
        t.opened_view().state.tui is Some,
        t.opened_view().state.tui->0.follow,
        t.opened_view().state.sb == t.state.sb,
        t.opened_view().actions.last() == ActionView::Draw,
{
}

/// However a session ends, the port is released and the terminal is back the way it
/// was found.
pub proof fn the_port_and_the_terminal_are_free_afterwards(
    s: SessionView,
    terminal: Terminal,
    now: Now,
)
    requires
        s.term.describes(terminal),
    ensures
        ({
            let after = s.fresh().ended(now);
            &&& !after.state.connected
            &&& s.connected ==> after.actions.contains(ActionView::ClosePort)
            &&& terminal.after_all(term_ops(after.actions)) == (Terminal {
                raw: false,
                alternate: false,
                cursor_hidden: false,
            })
        }),
{
    let left = Turn {
        state: SessionView {
            term: TermView { alt: false, ..s.term },
            connected: false,
            ..s
        },
        actions: Seq::empty(),
    };
    let a = left.adjusted(s.term.leaving());
    lemma_log_push(left.actions, ActionView::Term(s.term.leaving()));
    assert(term_ops(a.actions) =~= s.term.leaving());
    let b = if s.connected {
        a.act(ActionView::ClosePort)
    } else {
        a
    };
    lemma_log_push(a.actions, ActionView::ClosePort);
    let c = b.recorded("session ended"@, now);
    if let Some(l) = s.log {
        lemma_log_push(b.actions, ActionView::Log(l.note("session ended"@, now.wall)));
    }
    let d = Turn {
        state: SessionView { term: TermView { raw: false, alt: false }, ..c.state },
        ..c
    };
    let ops = c.state.term.restoring();
    lemma_log_push(d.actions, ActionView::Term(ops));
    let e = d.adjusted(ops);
    assert(ops.len() > 0);
    assert(e == s.fresh().ended(now));
    assert(term_ops(e.actions) == s.term.leaving() + ops);
    if s.connected {
        let i = a.actions.len() as int;
        assert(b.actions[i] == ActionView::ClosePort);
        assert(e.actions[i] == ActionView::ClosePort);
    }
    term::the_guard_follows_the_screen(s.term, terminal);
    let middle = terminal.after_all(s.term.leaving());
    term::restoring_undoes_everything(c.state.term, middle);
    lemma_after_all(terminal, s.term.leaving(), ops);
}

proof fn lemma_after_all(t: Terminal, a: Seq<TermOp>, b: Seq<TermOp>)
    ensures
        t.after_all(a + b) == t.after_all(a).after_all(b),
    decreases b.len(),
{
    if b.len() == 0 {
        assert(a + b =~= a);
    } else {
        lemma_after_all(t, a, b.drop_last());
        assert((a + b).drop_last() =~= a + b.drop_last());
    }
}

proof fn lemma_step_from(p: Progress, b: u8, ts: TsMode, now: Now)
    ensures
        ({
            let q = p.step(b, ts, now);
            let r = p.state.fresh().step(b, ts, now);
            q.state == r.state && q.lines == p.lines + r.lines && q.out == p.out + r.out
        }),
{
    let q = p.step(b, ts, now);
    let r = p.state.fresh().step(b, ts, now);
    assert(q.state =~= r.state);
    assert(q.lines =~= p.lines + r.lines);
    assert(q.out =~= p.out + r.out);
}

proof fn lemma_step_after(p: Progress, a: Progress, b: Progress, x: u8, ts: TsMode, now: Now)
    requires
        a.state == b.state,
        a.lines == p.lines + b.lines,
        a.out == p.out + b.out,
    ensures
        a.step(x, ts, now).state == b.step(x, ts, now).state,
        a.step(x, ts, now).lines == p.lines + b.step(x, ts, now).lines,
        a.step(x, ts, now).out == p.out + b.step(x, ts, now).out,
{
    lemma_step_from(a, x, ts, now);
    lemma_step_from(b, x, ts, now);
    let c = a.state.fresh().step(x, ts, now);
    assert(p.lines + b.lines + c.lines =~= p.lines + (b.lines + c.lines));
    assert(p.out + b.out + c.out =~= p.out + (b.out + c.out));
}

proof fn lemma_feed_from(p: Progress, data: Seq<u8>, ts: TsMode, times: Seq<Now>)
    ensures
        ({
            let q = p.feed(data, ts, times);
            let r = p.state.fresh().feed(data, ts, times);
            q.state == r.state && q.lines == p.lines + r.lines && q.out == p.out + r.out
        }),
    decreases data.len(),
{
    if data.len() == 0 {
        let r = p.state.fresh();
        assert(p.lines =~= p.lines + r.lines);
        assert(p.out =~= p.out + r.out);
    } else {
        lemma_feed_from(p, data.drop_last(), ts, times);
        let a = p.feed(data.drop_last(), ts, times);
        let b = p.state.fresh().feed(data.drop_last(), ts, times);
        lemma_step_after(p, a, b, data.last(), ts, times[data.len() - 1]);
    }
}

proof fn lemma_push_all(sb: ScrollbackView, a: Seq<LineView>, b: Seq<LineView>)
    ensures
        sb.push_all(a + b) == sb.push_all(a).push_all(b),
    decreases b.len(),
{
    if b.len() == 0 {
        assert(a + b =~= a);
    } else {
        lemma_push_all(sb, a, b.drop_last());
        assert((a + b).drop_last() =~= a + b.drop_last());
    }
}

proof fn lemma_received(t: Turn, data: Seq<u8>, times: Seq<Now>)
    ensures
        ({
            let p = t.state.assembler.fresh().feed(data, t.state.ts, times);
            t.received(data, times).state == (SessionView {
                assembler: p.state,
                rx_bytes: t.state.rx_bytes + data.len(),
                sb: t.state.sb.push_all(p.lines),
                ..t.state
            })
        }),
{
}

/// How device output is cut into chunks makes no difference to what is kept of it:
/// the lines, the byte count and the unfinished line are the same.
pub proof fn chunks_do_not_matter_to_a_session(t: Turn, a: Seq<u8>, b: Seq<u8>, times: Seq<Now>)
    requires
        times.len() >= a.len() + b.len(),
    ensures
        t.received(a + b, times).state == t.received(a, times).received(
            b,
            times.skip(a.len() as int),
        ).state,
{
    let ts = t.state.ts;
    let rest = times.skip(a.len() as int);
    let start = t.state.assembler.fresh();
    let p = start.feed(a, ts, times);
    let q = p.state.fresh().feed(b, ts, rest);
    timestamps::chunks_do_not_matter(start, a, b, ts, times);
    lemma_feed_from(p, b, ts, rest);
    let whole = start.feed(a + b, ts, times);
    assert(whole.lines == p.lines + q.lines);
    lemma_push_all(t.state.sb, p.lines, q.lines);
    let one = t.received(a, times);
    lemma_received(t, a, times);
    lemma_received(one, b, rest);
    lemma_received(t, a + b, times);
    assert((a + b).len() == a.len() + b.len());
}

/// What is written to the terminal with `actions`.
pub open spec fn printed_bytes(actions: Seq<ActionView>) -> Seq<u8>
    decreases actions.len(),
{
    if actions.len() == 0 {
        Seq::empty()
    } else {
        match actions.last() {
            ActionView::Print(b) => printed_bytes(actions.drop_last()) + b,
            _ => printed_bytes(actions.drop_last()),
        }
    }
}

proof fn lemma_print_push(actions: Seq<ActionView>, a: ActionView)
    ensures
        printed_bytes(actions.push(a)) == (match a {
            ActionView::Print(b) => printed_bytes(actions) + b,
            _ => printed_bytes(actions),
        }),
{
    assert(actions.push(a).drop_last() =~= actions);
}

proof fn lemma_printing(t: Turn, bytes: Seq<u8>)
    ensures
        t.state.tui is None ==> printed_bytes(t.printed(bytes).actions) == printed_bytes(t.actions)
            + bytes,
        printed_bytes(t.logged(bytes).actions) == printed_bytes(t.actions),
        t.printed(bytes).state == t.state,
        t.logged(bytes).state == t.state,
{
    lemma_print_push(t.actions, ActionView::Print(bytes));
    lemma_print_push(t.actions, ActionView::Log(bytes));
    if bytes.len() == 0 {
        assert(printed_bytes(t.actions) + bytes =~= printed_bytes(t.actions));
    }
}

/// What arrives is shown as it is cut into lines, every byte of it is counted, and the
/// finished lines are added to the buffer. Nothing else changes.
pub proof fn what_arrives_is_shown_counted_and_kept(t: Turn, data: Seq<u8>, times: Seq<Now>)
    ensures
        ({
            let p = t.state.assembler.fresh().feed(data, t.state.ts, times);
            let r = t.received(data, times);
            &&& t.state.tui is None ==> printed_bytes(r.actions) == printed_bytes(t.actions)
                + p.out
            &&& r.state == (SessionView {
                rx_bytes: t.state.rx_bytes + data.len(),
                sb: t.state.sb.push_all(p.lines),
                assembler: p.state,
                ..t.state
            })
        }),
{
    let p = t.state.assembler.fresh().feed(data, t.state.ts, times);
    let a = Turn {
        state: SessionView {
            assembler: p.state,
            rx_bytes: t.state.rx_bytes + data.len(),
            ..t.state
        },
        ..t
    };
    let x = match t.state.log {
        Some(l) => l.chunk(data),
        None => Seq::empty(),
    };
    let y = match t.state.log {
        Some(l) => l.lines(p.lines),
        None => Seq::empty(),
    };
    lemma_printing(a, x);
    let b = a.logged(x);
    lemma_printing(b, p.out);
    let c = b.printed(p.out);
    let d = Turn { state: SessionView { sb: c.state.sb.push_all(p.lines), ..c.state }, ..c };
    lemma_printing(d, y);
    assert(t.received(data, times) == d.logged(y));
}

/// With timestamps off and nothing held back, all that arrives is on the terminal as
/// soon as the device goes quiet: the very bytes it sent, with a carriage return put in
/// front of each line feed that came without one.
pub proof fn output_reaches_the_terminal(t: Turn, data: Seq<u8>, times: Seq<Now>, quiet: Now)
    requires
        t.state.tui is None,
        t.state.ts == TsMode::Off,
        t.state.assembler.well_formed(),
        t.state.assembler.pending_esc.len() == 0,
        !t.state.assembler.pending_cr,
        timestamps::printable(times),
        times.len() >= data.len(),
    ensures
        printed_bytes(t.received(data, times).flushed(quiet).actions) == printed_bytes(t.actions)
            + timestamps::with_line_breaks(data, false),
        t.received(data, times).flushed(quiet).state.assembler.pending_esc.len() == 0,
        !t.received(data, times).flushed(quiet).state.assembler.pending_cr,
{
    what_arrives_is_shown_counted_and_kept(t, data, times);
    let start = t.state.assembler.fresh();
    timestamps::output_passes_through(start, data, times);
    assert(start.written_and_held() =~= Seq::<u8>::empty());
    let p = start.feed(data, TsMode::Off, times);
    let r = t.received(data, times);
    let q = r.state.assembler.fresh();
    timestamps::flushing_writes_what_was_held(q, quiet);
    let f = q.flushed(quiet);
    let u = Turn { state: SessionView { assembler: f.state, ..r.state }, ..r };
    lemma_printing(u, f.out);
    assert(r.flushed(quiet) == u.printed(f.out));
    assert(p.out + f.out =~= p.written_and_held());
    assert(p.written_and_held() =~= timestamps::with_line_breaks(data, false));
    assert(printed_bytes(t.actions) + p.out + f.out =~= printed_bytes(t.actions) + (p.out
        + f.out));
}

/// A status line is on a line of its own, in its colour, and says what it is given to
/// say: in the middle of a line of the device it first ends that line.
pub proof fn a_status_line_has_its_own_line(remark: Seq<char>, color: Seq<char>)
    ensures
        ({
            let n = session::note_text(remark, color, false);
            &&& session::note_text(remark, color, true) == seq!['\r', '\n'] + n
            &&& text::occurs(remark, n)
            &&& (seq!['\x1b', '['] + color + seq!['m']).is_prefix_of(n)
            &&& "\x1b[0m\r\n"@.is_suffix_of(n)
        }),
{
    reveal_strlit("\r\n");
    reveal_strlit("\x1b[");
    reveal_strlit("m── ");
    reveal_strlit(" ──\x1b[0m\r\n");
    reveal_strlit("\x1b[0m\r\n");
    let n = session::note_text(remark, color, false);
    assert(session::note_text(remark, color, true) =~= seq!['\r', '\n'] + n);
    let front = "\x1b["@ + color + "m── "@;
    let back = " ──\x1b[0m\r\n"@;
    text::a_text_is_found_wherever_it_stands(front, remark, back, n);
    assert(n =~= front + remark + back);
    let head = seq!['\x1b', '['] + color + seq!['m'];
    assert(head =~= n.subrange(0, head.len() as int));
    let end = "\x1b[0m\r\n"@;
    assert(end =~= n.subrange(n.len() - end.len(), n.len() as int));
}

/// A status line goes to the terminal, unless the scrollback view is open, and to the
/// log, if there is one, in that order, and does nothing else.
pub proof fn a_status_line_is_told_and_logged(
    t: Turn,
    remark: Seq<char>,
    color: Seq<char>,
    now: Now,
)
    ensures
        ({
            let r = t.noted(remark, color, now);
            let line = encode_utf8(
                session::note_text(
                    remark,
                    color,
                    !t.state.assembler.at_line_start || t.state.assembler.pending_cr,
                ),
            );
            &&& r.state == t.state
            &&& r.actions == t.actions + (if t.state.tui is None {
                seq![ActionView::Print(line)]
            } else {
                Seq::empty()
            }) + (match t.state.log {
                Some(l) => seq![ActionView::Log(l.note(remark, now.wall))],
                None => Seq::empty(),
            })
        }),
{
    let r = t.noted(remark, color, now);
    let line = encode_utf8(
        session::note_text(
            remark,
            color,
            !t.state.assembler.at_line_start || t.state.assembler.pending_cr,
        ),
    );
    assert(r.actions =~= t.actions + (if t.state.tui is None {
        seq![ActionView::Print(line)]
    } else {
        Seq::empty()
    }) + (match t.state.log {
        Some(l) => seq![ActionView::Log(l.note(remark, now.wall))],
        None => Seq::empty(),
    }));
}

/// After the escape key, a letter that is no command does nothing at all: it is neither
/// sent nor does anything change.
#[verifier::rlimit(40)]
pub proof fn other_letters_do_nothing(t: Turn, b: u8, now: Now)
    requires
        !t.state.escape_pending,
        b != t.state.escape,
        b != 0x71 && b != 0x3f && b != 0x68 && b != 0x73 && b != 0x74 && b != 0x6c && b != 0x63 && b
            != 0x62 && b != 0x72 && b != 0x69,
    ensures
        t.command(b, now) == t,
{
    reveal(Turn::command);
}

#[verifier::rlimit(40)]
proof fn lemma_command_t(t: Turn, now: Now)
    requires
        !t.state.escape_pending,
    ensures
        t.command(0x74, now) == t.stamped_anew(now),
{
    reveal(Turn::command);
}

#[verifier::rlimit(40)]
proof fn lemma_command_b(t: Turn, now: Now)
    requires
        !t.state.escape_pending,
    ensures
        t.command(0x62, now) == t.broken(now),
{
    reveal(Turn::command);
}

#[verifier::rlimit(40)]
proof fn lemma_command_r(t: Turn, now: Now)
    requires
        !t.state.escape_pending,
    ensures
        t.command(0x72, now) == t.let_go(now),
{
    reveal(Turn::command);
}

#[verifier::rlimit(40)]
proof fn lemma_command_c(t: Turn, now: Now)
    requires
        !t.state.escape_pending,
    ensures
        t.command(0x63, now) == t.shown(encode_utf8(session::CLEAR@)),
{
    reveal(Turn::command);
}

#[verifier::rlimit(40)]
proof fn lemma_command_l(t: Turn, now: Now)
    requires
        !t.state.escape_pending,
    ensures
        t.command(0x6c, now) == t.log_toggled(now),
{
    reveal(Turn::command);
}

#[verifier::rlimit(40)]
proof fn lemma_command_help(t: Turn, now: Now)
    requires
        !t.state.escape_pending,
    ensures
        t.command(0x3f, now) == t.shown(encode_utf8(t.state.help_text())),
        t.command(0x68, now) == t.shown(encode_utf8(t.state.help_text())),
{
    reveal(Turn::command);
}

#[verifier::rlimit(40)]
proof fn lemma_command_i(t: Turn, now: Now)
    requires
        !t.state.escape_pending,
    ensures
        t.command(0x69, now) == t.noted(t.state.status_text(now), "36"@, now),
{
    reveal(Turn::command);
}

/// After the escape key, `s` opens the scrollback view.
#[verifier::rlimit(40)]
pub proof fn escape_s_opens_the_view(t: Turn, now: Now)
    requires
        !t.state.escape_pending,
    ensures
        t.command(0x73, now) == t.opened_view(),
{
    reveal(Turn::command);
}

/// After the escape key, `t` puts the next timestamp mode to use and says so by its
/// name.
pub proof fn escape_t_changes_the_timestamps(t: Turn, now: Now)
    requires
        !t.state.escape_pending,
    ensures
        ({
            let next = match t.state.ts {
                TsMode::Off => TsMode::Rel,
                TsMode::Rel => TsMode::Abs,
                TsMode::Abs => TsMode::Delta,
                TsMode::Delta => TsMode::Off,
            };
            t.command(0x74, now) == (Turn {
                state: SessionView { ts: next, ..t.state },
                ..t
            }).noted("timestamps: "@ + next.name(), "36"@, now)
        }),
{
    lemma_command_t(t, now);
}

/// After the escape key, `b` sends a break and says so. Without a port there is none.
pub proof fn escape_b_sends_a_break(t: Turn, now: Now)
    requires
        !t.state.escape_pending,
    ensures
        t.state.connected ==> t.command(0x62, now) == t.act(ActionView::SendBreak).noted(
            "break sent"@,
            "36"@,
            now,
        ),
        !t.state.connected ==> t.command(0x62, now) == t,
{
    lemma_command_b(t, now);
}

/// After the escape key, `r` lets the port go, and the device is looked for at once.
pub proof fn escape_r_lets_the_port_go(t: Turn, now: Now)
    requires
        !t.state.escape_pending,
    ensures
        ({
            let r = t.command(0x72, now);
            let gone = (Turn { state: SessionView { connected: false, ..t.state }, ..t }).act(
                ActionView::ClosePort,
            );
            &&& r.actions == gone.noted("reconnecting"@, "33"@, now).actions
            &&& r.state == (SessionView {
                connected: false,
                next_try: now.mono as nat,
                ..t.state
            })
            &&& t.state.reconnect ==> r.retried(now).actions == r.actions.push(
                ActionView::Reconnect,
            )
        }),
{
    lemma_command_r(t, now);
}

/// After the escape key, `c` clears the screen and moves the cursor to its corner.
pub proof fn escape_c_clears_the_screen(t: Turn, now: Now)
    requires
        !t.state.escape_pending,
        t.state.tui is None,
    ensures
        t.command(0x63, now) == t.act(
            ActionView::Print(seq![0x1b, 0x5b, 0x32, 0x4a, 0x1b, 0x5b, 0x48]),
        ),
{
    lemma_command_c(t, now);
    reveal_strlit("\x1b[2J\x1b[H");
    let clear = "\x1b[2J\x1b[H"@;
    is_ascii_chars_encode_utf8(clear);
    assert(encode_utf8(clear) =~= seq![0x1bu8, 0x5b, 0x32, 0x4a, 0x1b, 0x5b, 0x48]);
}

/// After the escape key, `l` starts a log where there is none. One that could be
/// created is in use from then on, one that could not is not, and either is told.
pub proof fn escape_l_starts_a_log(t: Turn, now: Now, later: Now)
    requires
        !t.state.escape_pending,
        t.state.log is None,
    ensures
        ({
            let r = t.command(0x6c, now);
            let log = t.state.next_log(now);
            let begun = SessionView { log: Some(log), opening: None, ..t.state };
            let refused = SessionView { opening: None, ..t.state };
            &&& r.actions == t.actions.push(ActionView::OpenLog(log.path))
            &&& log.format == t.state.log_format
            &&& log.path == logfile::log_path(None, t.state.cfg.path, t.state.dir, now.wall)
            &&& r.log_ready(true, later) == (Turn { state: begun, ..r }).noted(
                "logging to "@ + log.path,
                "36"@,
                later,
            )
            &&& r.log_ready(false, later) == (Turn { state: refused, ..r }).noted(
                "cannot start log: "@ + log.create_error(),
                "31"@,
                later,
            )
        }),
{
    lemma_command_l(t, now);
}

/// After the escape key, `l` stops the log there is: it is closed, and what is told of
/// it is not written to it any more.
pub proof fn escape_l_stops_the_log(t: Turn, now: Now)
    requires
        !t.state.escape_pending,
        t.state.log is Some,
    ensures
        ({
            let r = t.command(0x6c, now);
            &&& r.state == (SessionView { log: None, ..t.state })
            &&& r.actions == (Turn { state: r.state, ..t }).act(ActionView::CloseLog).noted(
                "logging stopped: "@ + t.state.log->0.path,
                "36"@,
                now,
            ).actions
            &&& log_bytes(r.actions) == log_bytes(t.actions)
        }),
{
    lemma_command_l(t, now);
    let remark = "logging stopped: "@ + t.state.log->0.path;
    let off = (Turn { state: SessionView { log: None, ..t.state }, ..t }).act(ActionView::CloseLog);
    let line = encode_utf8(session::note_text(remark, "36"@, off.state.assembler.mid_line()));
    lemma_log_push(t.actions, ActionView::CloseLog);
    lemma_log_push(off.actions, ActionView::Print(line));
}

/// After the escape key, `?` and `h` show the help and `i` tells the status; nothing
/// changes.
pub proof fn escape_help_and_status(t: Turn, now: Now)
    requires
        !t.state.escape_pending,
    ensures
        t.command(0x3f, now) == t.command(0x68, now),
        t.state.tui is None ==> t.command(0x3f, now) == t.act(
            ActionView::Print(encode_utf8(t.state.help_text())),
        ),
        t.command(0x69, now) == t.noted(t.state.status_text(now), "36"@, now),
        t.command(0x69, now).state == t.state,
{
    lemma_command_help(t, now);
    lemma_command_i(t, now);
}

/// With echo on, what is typed is on the terminal too, exactly as it is sent, and
/// without it is not.
pub proof fn echo_shows_what_is_sent(t: Turn, data: Seq<u8>, now: Now)
    requires
        t.state.connected,
        t.state.tui is None,
        data.len() > 0,
    ensures
        t.state.echo ==> t.sent(data, now).actions == t.actions.push(
            ActionView::Print(data),
        ).push(ActionView::Send(data)),
        !t.state.echo ==> t.sent(data, now).actions == t.actions.push(ActionView::Send(data)),
        t.sent(data, now).state == t.state,
{
}

/// Where time passes and nothing is held back, due or on screen, nothing happens.
pub proof fn a_quiet_tick_changes_nothing(t: Turn, now: Now)
    requires
        t.state.tui is None,
        t.state.connected || !t.state.reconnect || now.mono < t.state.next_try,
        t.state.assembler.pending_esc.len() == 0,
        !t.state.assembler.pending_cr,
    ensures
        t.ticked(now).actions == t.actions,
        t.state.keys.len() != 1 ==> t.ticked(now) == t,
{
    let p = t.state.assembler.fresh();
    timestamps::going_quiet_keeps_the_line(p, now);
    timestamps::flushing_writes_what_was_held(p, now);
    assert(p.flushed(now) == p);
    assert(t.flushed(now) == t);
}

/// A device that is gone is looked for a quarter of a second after it went, and every
/// quarter of a second from then on.
pub proof fn attempts_are_a_quarter_second_apart(t: Turn, reason: Seq<char>, now: Now, later: Now)
    requires
        t.state.reconnect,
        now.mono + 250_000_000 <= u64::MAX,
    ensures
        ({
            let gone = t.disconnected(reason, now);
            &&& later.mono < now.mono + 250_000_000 ==> gone.retried(later) == gone
            &&& later.mono >= now.mono + 250_000_000 ==> gone.retried(later).actions
                == gone.actions.push(ActionView::Reconnect) && gone.retried(later).state
                == (SessionView {
                next_try: session::retry_after(later.mono),
                ..gone.state
            })
        }),
{
}

/// Losing the device and finding it again are told with what is known: the reason it
/// went, and the new name where it has one. A new identity takes the place of the old.
pub proof fn losing_and_finding_are_told(
    t: Turn,
    reason: Seq<char>,
    path: Seq<char>,
    identity: Option<Seq<char>>,
    now: Now,
)
    ensures
        ({
            let closed = (Turn { state: SessionView { connected: false, ..t.state }, ..t }).act(
                ActionView::ClosePort,
            );
            &&& t.state.reconnect ==> t.disconnected(reason, now).actions == closed.noted(
                "disconnected ("@ + reason + "), waiting for the device"@,
                "33"@,
                now,
            ).actions
            &&& !t.state.reconnect ==> t.disconnected(reason, now).actions == closed.noted(
                "disconnected: "@ + reason,
                "31"@,
                now,
            ).actions
        }),
        ({
            let r = t.reconnected(path, identity, now);
            let back = Turn { state: r.state, ..t };
            &&& identity is Some ==> r.state.identity == identity
            &&& path == t.state.cfg.path ==> r == back.noted("reconnected"@, "32"@, now)
            &&& path != t.state.cfg.path ==> r == back.noted("reconnected as "@ + path, "32"@, now)
        }),
{
}

/// A signal to end ends the session and is told; a new size of the terminal only draws
/// the scrollback view again, where it is open.
pub proof fn signals_end_or_redraw(t: Turn, now: Now)
    ensures
        t.signalled(session::Signal::Terminate, now).state == (SessionView {
            quit: true,
            ..t.state
        }),
        t.signalled(session::Signal::Terminate, now).actions == t.noted(
            "terminating"@,
            "33"@,
            now,
        ).actions,
        t.signalled(session::Signal::Resize, now).state == t.state,
        t.signalled(session::Signal::Resize, now).actions == (if t.state.tui is Some {
            t.actions.push(ActionView::Draw)
        } else {
            t.actions
        }),
{
}

/// Only the signal to end, the command to quit, the loss of a device that is not to be
/// looked for, and the view's own quit end a session: data and time never do.
pub proof fn data_and_time_end_no_session(t: Turn, data: Seq<u8>, times: Seq<Now>, now: Now)
    requires
        t.state.tui is None,
    ensures
        t.received(data, times).state.quit == t.state.quit,
        t.ticked(now).state.quit == t.state.quit,
        t.sent(data, now).state.quit == t.state.quit,
        t.received(data, times).state.connected == t.state.connected,
        t.ticked(now).state.connected == t.state.connected,
        t.sent(data, now).state == t.state,
{
    what_arrives_is_shown_counted_and_kept(t, data, times);
}

/// The letters are the control bytes from 1 to 26 in the order of the alphabet, in
/// either case; what is no letter below 128 stands for Ctrl-A.
pub proof fn letters_are_control_bytes(c: char)
    requires
        (c as u32) < 128,
    ensures
        'a' <= c <= 'z' ==> session::control_code(c) == c as u32 - 'a' as u32 + 1,
        'A' <= c <= 'Z' ==> session::control_code(c) == c as u32 - 'A' as u32 + 1,
        !('a' <= c <= 'z') && !('A' <= c <= 'Z') ==> session::control_code(c) == 1,
{
}

/// A byte count below a kilobyte is told exactly.
pub proof fn few_bytes_are_told_exactly(n: nat)
    requires
        n < 1024,
    ensures
        session::bytes_text(n) == text::decimal(n) + seq![' ', 'B'],
{
    reveal_strlit(" B");
    assert(" B"@ =~= seq![' ', 'B']);
}

proof fn lemma_tenths(n: nat, unit: nat)
    requires
        unit > 0,
    ensures
        ({
            let tenths = clock::round_half_even(n * 10, unit);
            &&& 2 * (tenths * unit - 10 * n) <= unit
            &&& 2 * (10 * n - tenths * unit) <= unit
        }),
{
    clock::rounding_is_to_the_nearest(n * 10, unit);
}

/// From a kilobyte on a byte count is told in the largest of kilobytes, megabytes and
/// gigabytes that leaves at least one, to the nearest tenth of it.
pub proof fn many_bytes_are_told_to_a_tenth(n: nat) -> (tenths: nat)
    requires
        1024 <= n < 0x20_0000_0000_0000,
    ensures
        ({
            let (unit, name) = if n < 1024 * 1024 {
                (1024nat, seq![' ', 'K', 'B'])
            } else if n < 1024 * 1024 * 1024 {
                ((1024 * 1024) as nat, seq![' ', 'M', 'B'])
            } else {
                ((1024 * 1024 * 1024) as nat, seq![' ', 'G', 'B'])
            };
            &&& session::bytes_text(n) == text::decimal(tenths / 10) + seq!['.', "0123456789"@[(
            tenths % 10) as int]] + name
            &&& 2 * (tenths * unit - 10 * n) <= unit
            &&& 2 * (10 * n - tenths * unit) <= unit
        }),
{
    reveal_strlit(" KB");
    reveal_strlit(" MB");
    reveal_strlit(" GB");
    reveal_strlit("0123456789");
    assert(" KB"@ =~= seq![' ', 'K', 'B']);
    assert(" MB"@ =~= seq![' ', 'M', 'B']);
    assert(" GB"@ =~= seq![' ', 'G', 'B']);
    let unit: nat = if n < 1024 * 1024 {
        1024
    } else if n < 1024 * 1024 * 1024 {
        1024 * 1024
    } else {
        1024 * 1024 * 1024
    };
    lemma_tenths(n, unit);
    let tenths = clock::round_half_even(n * 10, unit);
    assert(text::digit(tenths % 10) == "0123456789"@[(tenths % 10) as int]);
    tenths
}

/// A baud rate is told as its number; none at all is told in words.
pub proof fn a_baud_rate_is_told(baud: u32)
    ensures
        baud > 0 ==> text::digits_value(session::baud_text(baud)) == baud,
        baud == 0 ==> session::baud_text(baud) == "line speed as-is"@,
{
    text::decimal_digits_keep_the_value(baud as nat);
}

/// A session begins with what it was asked for: the port open, nothing received, and
/// each setting in its place.
pub proof fn a_session_begins_as_asked(
    cli: Cli,
    cfg: PortConfigView,
    identity: Option<Seq<char>>,
    log: Option<LogView>,
    dir: Seq<char>,
)
    requires
        'a' <= cli.escape <= 'z',
    ensures
        ({
            let s = SessionView::initial(cli, cfg, identity, log, dir);
            &&& s.cfg == cfg && s.identity == identity && s.log == log && s.dir == dir
            &&& s.connected && !s.quit && s.tui is None && s.rx_bytes == 0 && s.sb.total() == 0
            &&& s.ts == cli.ts && s.echo == cli.echo && s.strict_port == cli.strict_port
            &&& s.log_format == cli.log_format
            &&& s.reconnect == !cli.no_reconnect
            &&& s.escape == cli.escape as u32 - 'a' as u32 + 1
            &&& cli.scrollback >= 1 ==> s.sb.cap == cli.scrollback
            &&& s.assembler.at_line_start && !s.assembler.pending_cr
            &&& s.assembler.pending_esc.len() == 0 && s.assembler.cur.len() == 0
            &&& s.term.raw && !s.term.alt
            &&& !s.escape_pending
        }),
{
}

/// A session starts by putting the terminal into raw mode, and then tells the port, how
/// it is set up, and where the log goes. Nothing is sent, and nothing changes.
pub proof fn a_session_starts_with_raw_mode(s: SessionView, now: Now)
    requires
        s.tui is None,
    ensures
        ({
            let t = s.fresh().started(now);
            &&& t.state == s
            &&& t.actions.len() >= 4
            &&& t.actions[0] == ActionView::Term(seq![TermOp::EnableRawMode])
            &&& t.actions[1] == ActionView::Print(
                encode_utf8(logo::raw_mode_text(logo::BANNER@) + "\r\n"@),
            )
            &&& sent_bytes(t.actions) == Seq::<u8>::empty()
        }),
{
    lemma_started(s, now);
    let t = s.fresh().started(now);
    assert forall|i: int| 0 <= i < t.actions.len() implies !((#[trigger] t.actions[i]) is Send) by {}
    lemma_nothing_sent(t.actions);
}

proof fn lemma_nothing_sent(actions: Seq<ActionView>)
    requires
        forall|i: int| 0 <= i < actions.len() ==> !((#[trigger] actions[i]) is Send),
    ensures
        sent_bytes(actions) == Seq::<u8>::empty(),
    decreases actions.len(),
{
    if actions.len() > 0 {
        let head = actions.drop_last();
        assert forall|i: int| 0 <= i < head.len() implies !((#[trigger] head[i]) is Send) by {
            assert(head[i] == actions[i]);
        }
        lemma_nothing_sent(head);
        assert(!(actions[actions.len() - 1] is Send));
    }
}

proof fn lemma_started(s: SessionView, now: Now)
    requires
        s.tui is None,
    ensures
        ({
            let t = s.fresh().started(now);
            &&& t.state == s
            &&& t.actions.len() >= 4
            &&& t.actions[0] == ActionView::Term(seq![TermOp::EnableRawMode])
            &&& t.actions[1] == ActionView::Print(
                encode_utf8(logo::raw_mode_text(logo::BANNER@) + "\r\n"@),
            )
            &&& forall|i: int| 0 <= i < t.actions.len() ==> !((#[trigger] t.actions[i]) is Send)
        }),
{
}

/// Leaving the scrollback view leaves the alternate screen and shows what was missed;
/// the view is closed, and the session goes on unless it was to end.
pub proof fn leaving_the_view_closes_it(t: Turn, now: Now)
    requires
        t.state.tui is Some,
    ensures
        t.closed_view(now).state == (SessionView {
            tui: None,
            term: TermView { alt: false, ..t.state.term },
            ..t.state
        }),
        t.obeyed(TuiAction::Leave, now) == t.closed_view(now),
        t.obeyed(TuiAction::Quit, now).state == (SessionView {
            quit: true,
            ..t.closed_view(now).state
        }),
        t.obeyed(TuiAction::Quit, now).actions == t.closed_view(now).actions,
        t.obeyed(TuiAction::Stay, now) == t.act(ActionView::Draw),
{
    let closed = (Turn {
        state: SessionView {
            tui: None,
            term: TermView { alt: false, ..t.state.term },
            ..t.state
        },
        ..t
    }).adjusted(t.state.term.leaving());
    lemma_caught_up_state(closed, now);
    assert(t.closed_view(now) == closed.caught_up(now));
}

proof fn lemma_caught_up_state(t: Turn, now: Now)
    ensures
        t.caught_up(now).state == t.state,
{
}

/// A lone escape byte becomes the escape key once nothing follows it, and leaves the
/// view; any other unfinished key is left to wait.
pub proof fn a_lone_escape_leaves_the_view(t: Turn, now: Now)
    requires
        t.state.tui is Some,
        t.state.tui->0.mode == tui::Mode::Normal,
        !t.state.tui->0.pending_escape,
    ensures
        t.state.keys == seq![0x1bu8] ==> t.escape_resolved(now).state.tui is None && t.escape_resolved(
            now,
        ).state.keys.len() == 0,
        t.state.keys != seq![0x1bu8] ==> t.escape_resolved(now) == t,
{
    if t.state.keys == seq![0x1bu8] {
        let u = Turn { state: SessionView { keys: Seq::empty(), ..t.state }, ..t };
        leaving_the_view_closes_it(u, now);
        assert(u.keyed(Key::Esc, now) == u.obeyed(TuiAction::Leave, now));
    }
}

/// The replay is at most a thousand lines; how many more there were is told.
pub proof fn a_replay_is_at_most_a_thousand_lines(n: nat)
    ensures
        n <= 1000 ==> session::omitted(n) == 0,
        n > 1000 ==> session::omitted(n) == n - 1000,
{
}

/// A count that a double cannot hold is off by one part in 2^53 at most, and any other
/// is held exactly.
pub proof fn a_double_is_near(n: nat)
    ensures
        n < 0x20_0000_0000_0000 ==> session::nearest_double(n) == n,
        (session::nearest_double(n) - n) * 0x20_0000_0000_0000 <= n,
        (n - session::nearest_double(n)) * 0x20_0000_0000_0000 <= n,
{
    if n >= 0x20_0000_0000_0000 {
        let unit = session::double_spacing(n, 1);
        lemma_double_spacing(n, 1);
        clock::rounding_is_to_the_nearest(n, unit);
    }
}

proof fn lemma_double_spacing(n: nat, unit: nat)
    requires
        unit >= 1,
        0x10_0000_0000_0000 * unit <= n,
    ensures
        session::double_spacing(n, unit) >= 1,
        0x10_0000_0000_0000 * session::double_spacing(n, unit) <= n,
    decreases n - unit,
{
    if !(n < 2 * unit || n < session::EXACT_DOUBLES * unit) {
        lemma_double_spacing(n, 2 * unit);
    }
}

proof fn lemma_grown(x: Seq<char>, y: Seq<char>, h: Seq<char>)
    requires
        (x + y).is_prefix_of(h),
    ensures
        x.is_prefix_of(h),
{
    assert(x =~= (x + y).subrange(0, x.len() as int));
    assert(x =~= h.subrange(0, x.len() as int));
}

proof fn lemma_help_line(e: Seq<char>, b: char, what: Seq<char>, front: Seq<char>, h: Seq<char>)
    requires
        what.len() >= 3,
        what[0] == ' ' && what[1] == b && what[2] == ' ',
        (front + session::help_line(e, what)).is_prefix_of(h),
    ensures
        text::occurs("Ctrl-"@ + e + seq![' ', b, ' '], h),
        front.is_prefix_of(h),
{
    let all = front + session::help_line(e, what);
    let needle = "Ctrl-"@ + e + seq![' ', b, ' '];
    let k = front.len() as int;
    assert(all.subrange(k, k + needle.len()) =~= needle);
    assert(h.subrange(k, k + needle.len()) =~= all.subrange(k, k + needle.len()));
    lemma_grown(front, session::help_line(e, what), h);
}

/// The help names every command by the escape key and its letter.
pub proof fn the_help_names_every_command(s: SessionView)
    ensures
        text::occurs("Ctrl-"@ + s.letter() + seq![' ', 'q', ' '], s.help_text()),
        text::occurs("Ctrl-"@ + s.letter() + seq![' ', '?', ' '], s.help_text()),
        text::occurs("Ctrl-"@ + s.letter() + seq![' ', 's', ' '], s.help_text()),
        text::occurs("Ctrl-"@ + s.letter() + seq![' ', 't', ' '], s.help_text()),
        text::occurs("Ctrl-"@ + s.letter() + seq![' ', 'l', ' '], s.help_text()),
        text::occurs("Ctrl-"@ + s.letter() + seq![' ', 'c', ' '], s.help_text()),
        text::occurs("Ctrl-"@ + s.letter() + seq![' ', 'b', ' '], s.help_text()),
        text::occurs("Ctrl-"@ + s.letter() + seq![' ', 'r', ' '], s.help_text()),
        text::occurs("Ctrl-"@ + s.letter() + seq![' ', 'i', ' '], s.help_text()),
{
    let e = s.letter();
    let h = s.help_text();
    let p0 = "\x1b[36m"@;
    let w0 = " q   quit and release the port"@;
    let p1 = p0 + session::help_line(e, w0);
    let w1 = " ?   this help"@;
    let p2 = p1 + session::help_line(e, w1);
    let w2 = " s   scrollback view (search, filter)"@;
    let p3 = p2 + session::help_line(e, w2);
    let w3 = " t   cycle timestamps (off, rel, abs, delta)"@;
    let p4 = p3 + session::help_line(e, w3);
    let w4 = " l   start or stop logging to a file"@;
    let p5 = p4 + session::help_line(e, w4);
    let w5 = " c   clear the screen"@;
    let p6 = p5 + session::help_line(e, w5);
    let w6 = " b   send a break"@;
    let p7 = p6 + session::help_line(e, w6);
    let w7 = " r   force a reconnect"@;
    let p8 = p7 + session::help_line(e, w7);
    let w8 = " i   session status"@;
    let p9 = p8 + session::help_line(e, w8);
    let own = " Ctrl-"@ + e + "   send Ctrl-"@ + e + " to the device"@;
    let p10 = p9 + session::help_line(e, own);
    assert(h == p10 + "\x1b[0m"@);
    assert(h =~= h.subrange(0, h.len() as int));
    lemma_grown(p10, "\x1b[0m"@, h);
    lemma_grown(p9, session::help_line(e, own), h);
    reveal_strlit(" i   session status");
    lemma_help_line(e, 'i', w8, p8, h);
    reveal_strlit(" r   force a reconnect");
    lemma_help_line(e, 'r', w7, p7, h);
    reveal_strlit(" b   send a break");
    lemma_help_line(e, 'b', w6, p6, h);
    reveal_strlit(" c   clear the screen");
    lemma_help_line(e, 'c', w5, p5, h);
    reveal_strlit(" l   start or stop logging to a file");
    lemma_help_line(e, 'l', w4, p4, h);
    reveal_strlit(" t   cycle timestamps (off, rel, abs, delta)");
    lemma_help_line(e, 't', w3, p3, h);
    reveal_strlit(" s   scrollback view (search, filter)");
    lemma_help_line(e, 's', w2, p2, h);
    reveal_strlit(" ?   this help");
    lemma_help_line(e, '?', w1, p1, h);
    reveal_strlit(" q   quit and release the port");
    lemma_help_line(e, 'q', w0, p0, h);
}

/// The help tells how to send the escape key itself.
pub proof fn the_help_tells_how_to_send_the_escape_key(s: SessionView)
    ensures
        text::occurs(
            " Ctrl-"@ + s.letter() + "   send Ctrl-"@ + s.letter() + " to the device"@,
            s.help_text(),
        ),
{
    let e = s.letter();
    let own = " Ctrl-"@ + e + "   send Ctrl-"@ + e + " to the device"@;
    let h = s.help_text();
    let end = "\r\n"@ + "\x1b[0m"@;
    let n = h.len() - end.len() - own.len();
    let line = session::help_line(e, own);
    assert(line =~= "Ctrl-"@ + e + own + "\r\n"@);
    assert(h.subrange(n, n + own.len()) =~= own);
}

/// The status tells the port, how it is set up, whether the device is there, for how
/// long the session runs, what was received in bytes and lines, the timestamp mode and
/// the log, in this order.
pub proof fn the_status_tells_everything(s: SessionView, now: Now)
    ensures
        s.status_text(now) == s.cfg.path + " · "@ + session::baud_text(s.cfg.baud) + " "@
            + s.cfg.frame.text() + (if s.connected {
            " · connected · up "@
        } else {
            " · waiting · up "@
        }) + timestamps::duration_text((now.mono / 1_000_000_000) as nat) + " · "@
            + session::bytes_text(s.rx_bytes) + " received · "@ + text::decimal(s.sb.total()) + (
        if s.sb.total() == 1 {
            " line · ts "@
        } else {
            " lines · ts "@
        }) + s.ts.name() + " · log "@ + (match s.log {
            Some(l) => l.path,
            None => "off"@,
        }),
{
    reveal_strlit(" · ");
    reveal_strlit("connected");
    reveal_strlit("waiting");
    reveal_strlit(" · up ");
    reveal_strlit(" · connected · up ");
    reveal_strlit(" · waiting · up ");
    reveal_strlit(" line");
    reveal_strlit(" lines");
    reveal_strlit(" · ts ");
    reveal_strlit(" line · ts ");
    reveal_strlit(" lines · ts ");
    assert(" · "@ + "connected"@ + " · up "@ =~= " · connected · up "@);
    assert(" · "@ + "waiting"@ + " · up "@ =~= " · waiting · up "@);
    assert(" line"@ + " · ts "@ =~= " line · ts "@);
    assert(" lines"@ + " · ts "@ =~= " lines · ts "@);
    let front = s.cfg.path + " · "@ + session::baud_text(s.cfg.baud) + " "@ + s.cfg.frame.text();
    let state = if s.connected {
        "connected"@
    } else {
        "waiting"@
    };
    assert(front + " · "@ + state + " · up "@ =~= front + (" · "@ + state + " · up "@));
    let mid = front + " · "@ + state + " · up "@ + timestamps::duration_text(
        (now.mono / 1_000_000_000) as nat,
    ) + " · "@ + session::bytes_text(s.rx_bytes) + " received · "@ + text::decimal(s.sb.total());
    let word = if s.sb.total() == 1 {
        " line"@
    } else {
        " lines"@
    };
    assert(mid + word + " · ts "@ =~= mid + (word + " · ts "@));
}

/// What the scrollback view is told of the session is what is the case.
pub proof fn the_view_is_told_the_status(s: SessionView, now: Now)
    ensures
        ({
            let v = s.status(now);
            &&& v.port == s.cfg.path && v.frame == s.cfg.frame.text()
            &&& v.baud == session::baud_text(s.cfg.baud)
            &&& v.connected == s.connected && v.rx_bytes == s.rx_bytes && v.ts == s.ts
            &&& v.logging <==> s.log is Some
            &&& v.uptime == timestamps::duration_text((now.mono / 1_000_000_000) as nat)
        }),
{
}

/// A key that keeps the view open changes the view and draws it again, and nothing
/// else.
pub proof fn keys_go_to_the_view(t: Turn, key: Key, now: Now)
    requires
        t.state.tui is Some,
        t.state.tui->0.after_key(key, t.state.sb.lines).1 == TuiAction::Stay,
    ensures
        t.keyed(key, now).state == (SessionView {
            tui: Some(t.state.tui->0.after_key(key, t.state.sb.lines).0),
            ..t.state
        }),
        t.keyed(key, now).actions == t.actions.push(ActionView::Draw),
{
}

/// The end of a session is put down in the log, as the last thing that goes into it.
pub proof fn the_log_ends_with_the_session(s: SessionView, now: Now)
    requires
        s.log is Some,
    ensures
        log_bytes(s.fresh().ended(now).actions) == s.log->0.note("session ended"@, now.wall),
{
    let l = s.log->0;
    let none = Seq::<ActionView>::empty();
    let a = if s.term.alt {
        none.push(ActionView::Term(s.term.leaving()))
    } else {
        none
    };
    let b = if s.connected {
        a.push(ActionView::ClosePort)
    } else {
        a
    };
    let note = l.note("session ended"@, now.wall);
    let c = b.push(ActionView::Log(note));
    lemma_log_push(none, ActionView::Term(s.term.leaving()));
    lemma_log_push(a, ActionView::ClosePort);
    lemma_log_push(b, ActionView::Log(note));
    let last = TermView { alt: false, ..s.term }.restoring();
    lemma_log_push(c, ActionView::Term(last));
    assert(log_bytes(none) =~= Seq::<u8>::empty());
    assert(log_bytes(c) =~= note);
    assert(s.fresh().ended(now).actions == c.push(ActionView::Term(last)));
}

/// The welcome starts with the port, then how it is set up, the speed in front of the
/// frame format, and tells how to quit and how to get help with the escape key in use.
pub proof fn the_welcome_tells_the_way_out(s: SessionView)
    ensures
        (s.cfg.path + " · "@ + session::baud_text(s.cfg.baud) + seq![' ']
            + s.cfg.frame.text()).is_prefix_of(s.welcome()),
        text::occurs("Ctrl-"@ + s.letter() + " q to quit"@, s.welcome()),
        ("Ctrl-"@ + s.letter() + " ? for help"@).is_suffix_of(s.welcome()),
{
    reveal_strlit(" ");
    reveal_strlit("Ctrl-");
    reveal_strlit(" · Ctrl-");
    reveal_strlit(" q to quit");
    reveal_strlit(" q to quit, Ctrl-");
    reveal_strlit(" ? for help");
    let w = s.welcome();
    let head = s.cfg.path + " · "@ + session::baud_text(s.cfg.baud) + seq![' ']
        + s.cfg.frame.text();
    assert(head =~= w.subrange(0, head.len() as int));
    let quit = "Ctrl-"@ + s.letter() + " q to quit"@;
    let k = head.len() as int + 3;
    assert(w.subrange(k, k + quit.len()) =~= quit);
    let help = "Ctrl-"@ + s.letter() + " ? for help"@;
    assert(help =~= w.subrange(w.len() - help.len(), w.len() as int));
}

} // verus!
