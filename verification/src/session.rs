//! A session: what happens on each event, as actions for the program around it.
use crate::cli::{Cli, FrameError, FrameMode, LogFormat, TsMode};
use crate::clock;
use crate::clock::Now;
use crate::input;
use crate::input::{Key, KeyDecoder};
use crate::logfile;
use crate::logfile::{LogView, LogWriter};
use crate::logo;
use crate::ports;
use crate::scrollback;
use crate::scrollback::{Line, LineView, Scrollback, ScrollbackView};
use crate::serial;
use crate::serial::{PortConfig, PortConfigView};
use crate::term;
use crate::term::{TermGuard, TermOp, TermView};
use crate::text;
use crate::timestamps;
use crate::timestamps::{AssemblerView, Feed, LineAssembler, Progress};
use crate::tui;
use crate::tui::{Screen, StatusView, Tui, TuiAction, TuiStatus, TuiView};
use std::collections::VecDeque;
use vstd::prelude::*;
use vstd::utf8::*;

verus! {

/// The code of a letter in lower case, cut down to one byte.
pub open spec fn lower_byte(c: char) -> nat {
    (if 'A' <= c <= 'Z' {
        c as nat + 32
    } else {
        c as nat
    }) % 256
}

/// The byte that a letter pressed with Ctrl stands for; Ctrl-A where it is no letter.
pub open spec fn control_code(c: char) -> u8 {
    let b = lower_byte(c);
    if 97 <= b <= 122 {
        (b - 96) as u8
    } else {
        0x01
    }
}

pub fn ctrl_byte(c: char) -> (r: u8)
    ensures
        r == control_code(c),
        1 <= r <= 26,
{
    let code: u32 = c as u32;
    let lower: u32 = if 'A' <= c && c <= 'Z' {
        code + 32
    } else {
        code
    };
    let b: u8 = (lower % 256) as u8;
    if 97 <= b && b <= 122 {
        b - 96
    } else {
        0x01
    }
}

/// The letter that gives a control byte.
pub open spec fn control_letter(escape: u8) -> char {
    (64 + escape) as char
}

pub fn escape_name(escape: u8) -> (r: char)
    requires
        escape <= 190,
    ensures
        r == control_letter(escape),
{
    (65u8 + escape - 1) as char
}

/// The escape key is the letter it was given as: Ctrl and its name press it.
pub proof fn the_escape_key_has_its_own_name(c: char)
    requires
        'a' <= c <= 'z' || 'A' <= c <= 'Z',
    ensures
        control_code(control_letter(control_code(c))) == control_code(c),
        control_letter(control_code(c)) == (if 'a' <= c {
            (c as nat - 32) as char
        } else {
            c
        }),
{
}

/// One of our own status lines, on a line of its own.
pub open spec fn note_text(remark: Seq<char>, color: Seq<char>, mid_line: bool) -> Seq<char> {
    (if mid_line {
        "\r\n"@
    } else {
        Seq::empty()
    }) + "\x1b["@ + color + "m── "@ + remark + " ──\x1b[0m\r\n"@
}

pub fn note_line(remark: &str, color: &str, mid_line: bool) -> (s: String)
    ensures
        s@ == note_text(remark@, color@, mid_line),
{
    let mut s = String::new();
    if mid_line {
        s.append("\r\n");
    }
    s.append("\x1b[");
    s.append(color);
    s.append("m── ");
    s.append(remark);
    s.append(" ──\x1b[0m\r\n");
    assert(s@ =~= note_text(remark@, color@, mid_line));
    s
}

/// A baud rate in words.
pub open spec fn baud_text(baud: u32) -> Seq<char> {
    if baud == 0 {
        "line speed as-is"@
    } else {
        text::decimal(baud as nat)
    }
}

/// A baud rate of 0 means "leave the line speed alone", which virtual ports need.
pub fn baud_label(baud: u32) -> (s: String)
    ensures
        s@ == baud_text(baud),
{
    if baud == 0 {
        "line speed as-is".to_owned()
    } else {
        let mut s = String::new();
        text::push_decimal(&mut s, baud as u64);
        assert(s@ =~= baud_text(baud));
        s
    }
}

/// Up to here doubles hold every whole number.
pub const EXACT_DOUBLES: u64 = 0x20_0000_0000_0000;

/// The distance between the doubles around `n`, found by doubling `unit`.
pub open spec fn double_spacing(n: nat, unit: nat) -> nat
    decreases n - unit,
{
    if unit == 0 || n < 2 * unit || n < EXACT_DOUBLES * unit {
        unit
    } else {
        double_spacing(n, 2 * unit)
    }
}

/// The double nearest to a whole number.
pub open spec fn nearest_double(n: nat) -> nat {
    if n < EXACT_DOUBLES {
        n
    } else {
        let unit = double_spacing(n, 1);
        clock::round_half_even(n, unit) * unit
    }
}

/// A number of tenths, with one decimal place.
pub open spec fn tenths_text(t: nat) -> Seq<char> {
    text::decimal(t / 10) + seq!['.', text::digit(t % 10)]
}

/// A byte count in the largest unit that leaves at least one, up to gigabytes. From
/// kilobytes on it has one decimal place; the count is held as a double, and halves
/// are rounded to the even digit.
pub open spec fn bytes_text(n: nat) -> Seq<char> {
    let v = nearest_double(n);
    if n < 1024 {
        text::decimal(n) + " B"@
    } else if n < 1024 * 1024 {
        tenths_text(clock::round_half_even(v * 10, 1024)) + " KB"@
    } else if n < 1024 * 1024 * 1024 {
        tenths_text(clock::round_half_even(v * 10, 1024 * 1024)) + " MB"@
    } else {
        tenths_text(clock::round_half_even(v * 10, 1024 * 1024 * 1024)) + " GB"@
    }
}

fn to_double(n: u64) -> (r: u128)
    ensures
        r == nearest_double(n as nat),
        r <= 0x1_0000_0000_0000_0000,
{
    if n < EXACT_DOUBLES {
        return n as u128;
    }
    let mut unit: u128 = 1;
    while n as u128 >= 0x20_0000_0000_0000 * unit
        invariant
            1 <= unit <= 2048,
            0x20_0000_0000_0000 * unit <= 2 * n || unit == 1,
            double_spacing(n as nat, 1) == double_spacing(n as nat, unit as nat),
            unit == 1 || unit == 2 || unit == 4 || unit == 8 || unit == 16 || unit == 32 || unit
                == 64 || unit == 128 || unit == 256 || unit == 512 || unit == 1024 || unit == 2048,
        ensures
            1 <= unit <= 2048,
            unit == double_spacing(n as nat, 1),
            unit == 1 || unit == 2 || unit == 4 || unit == 8 || unit == 16 || unit == 32 || unit
                == 64 || unit == 128 || unit == 256 || unit == 512 || unit == 1024 || unit == 2048,
        decreases 2048 - unit,
    {
        unit = 2 * unit;
    }
    let q = clock::round_div(n as u128, unit);
    proof {
        let top = 0x1_0000_0000_0000_0000nat / unit as nat;
        assert(top * unit == 0x1_0000_0000_0000_0000) by (nonlinear_arith)
            requires
                unit == 1 || unit == 2 || unit == 4 || unit == 8 || unit == 16 || unit == 32 || unit
                    == 64 || unit == 128 || unit == 256 || unit == 512 || unit == 1024 || unit
                    == 2048,
                top == 0x1_0000_0000_0000_0000nat / unit as nat,
        ;
        clock::lemma_round_bound(n as nat, unit as nat, top);
        assert(q * unit <= top * unit) by (nonlinear_arith)
            requires
                q <= top,
                unit >= 1,
        ;
    }
    q * unit
}

fn push_tenths(out: &mut String, t: u64)
    ensures
        final(out)@ == old(out)@ + tenths_text(t as nat),
{
    text::push_decimal(out, t / 10);
    out.push('.');
    out.push((48u8 + (t % 10) as u8) as char);
    assert(out@ =~= old(out)@ + tenths_text(t as nat));
}

pub fn human_bytes(n: u64) -> (s: String)
    ensures
        s@ == bytes_text(n as nat),
{
    let mut s = String::new();
    if n < 1024 {
        text::push_decimal(&mut s, n);
        s.append(" B");
        assert(s@ =~= bytes_text(n as nat));
        return s;
    }
    let v = to_double(n);
    let (size, unit): (u128, &str) = if n < 1024 * 1024 {
        (1024, " KB")
    } else if n < 1024 * 1024 * 1024 {
        (1024 * 1024, " MB")
    } else {
        (1024 * 1024 * 1024, " GB")
    };
    let t = clock::round_div(v * 10, size);
    proof {
        clock::lemma_round_bound((v * 10) as nat, size as nat, (v * 10) as nat / 1024 + 1);
    }
    push_tenths(&mut s, t as u64);
    s.append(unit);
    assert(s@ =~= bytes_text(n as nat));
    s
}

/// The pause between ticks, in milliseconds.
pub const TICK: u64 = 50;

/// Nanoseconds between attempts to reconnect.
pub const RECONNECT_EVERY: u64 = 250_000_000;

/// Cap on how much of the backlog is replayed when leaving the scrollback view.
pub const REPLAY_LIMIT: usize = 1000;

/// Clears the screen.
pub const CLEAR: &'static str = "\x1b[2J\x1b[H";

/// The signals that make a difference.
#[derive(Copy, Clone, Debug, PartialEq, Eq, Structural)]
pub enum Signal {
    /// The terminal changed its size
    Resize,
    /// The session is to end
    Terminate,
}

/// What happens to a session.
#[derive(Debug)]
pub enum Event {
    Rx(Vec<u8>),
    Disconnected(String),
    Stdin(Vec<u8>),
    Tick,
    Signal(Signal),
}

/// What the program around the session is to do, in order.
#[derive(Debug)]
pub enum Action {
    /// Write to the terminal
    Print(Vec<u8>),
    /// Write to the port, and report it when that fails
    Send(Vec<u8>),
    /// Close the port
    ClosePort,
    /// Send a break
    SendBreak,
    /// Create this file, and report how that went
    OpenLog(String),
    /// Append to the log file
    Log(Vec<u8>),
    /// Close the log file
    CloseLog,
    /// Look for the device, and report it once it is open again
    Reconnect,
    /// Do these things to the terminal
    Term(Vec<TermOp>),
    /// Draw the scrollback view
    Draw,
}

/// The contents of an action.
#[verifier::ext_equal]
pub enum ActionView {
    Print(Seq<u8>),
    Send(Seq<u8>),
    ClosePort,
    SendBreak,
    OpenLog(Seq<char>),
    Log(Seq<u8>),
    CloseLog,
    Reconnect,
    Term(Seq<TermOp>),
    Draw,
}

impl View for Action {
    type V = ActionView;

    open spec fn view(&self) -> ActionView {
        match self {
            Action::Print(b) => ActionView::Print(b@),
            Action::Send(b) => ActionView::Send(b@),
            Action::ClosePort => ActionView::ClosePort,
            Action::SendBreak => ActionView::SendBreak,
            Action::OpenLog(p) => ActionView::OpenLog(p@),
            Action::Log(b) => ActionView::Log(b@),
            Action::CloseLog => ActionView::CloseLog,
            Action::Reconnect => ActionView::Reconnect,
            Action::Term(ops) => ActionView::Term(ops@),
            Action::Draw => ActionView::Draw,
        }
    }
}

/// The views of actions.
pub open spec fn action_views(actions: Seq<Action>) -> Seq<ActionView> {
    actions.map_values(|a: Action| a@)
}

/// What becomes of the input at hand.
#[derive(Copy, Clone, Debug, PartialEq, Eq, Structural)]
pub enum Intake {
    /// There is none
    Idle,
    /// It goes to the device, but for the escape commands
    Typing,
    /// It is made of keys for the scrollback view
    Browsing,
}

/// The state of a session.
#[verifier::ext_equal]
pub struct SessionView {
    pub cfg: PortConfigView,
    pub term: TermView,
    pub connected: bool,
    pub assembler: AssemblerView,
    pub sb: ScrollbackView,
    pub log: Option<LogView>,
    /// The log file that is being created
    pub opening: Option<LogView>,
    pub log_format: LogFormat,
    /// The directory that relative log files go to
    pub dir: Seq<char>,
    pub identity: Option<Seq<char>>,
    pub ts: TsMode,
    pub escape: u8,
    pub echo: bool,
    pub reconnect: bool,
    pub strict_port: bool,
    pub escape_pending: bool,
    pub keys: Seq<u8>,
    pub tui: Option<TuiView>,
    /// Lines received before the scrollback view was opened
    pub tui_mark: nat,
    pub rx_bytes: nat,
    /// When the next attempt to reconnect is due
    pub next_try: nat,
    pub quit: bool,
    pub intake: Intake,
    /// The input not yet looked at
    pub rest: Seq<u8>,
    /// The input that goes to the device
    pub to_port: Seq<u8>,
}

/// A session together with what it asks for.
#[verifier::ext_equal]
pub struct Turn {
    pub state: SessionView,
    pub actions: Seq<ActionView>,
}

/// A line of the help text.
pub open spec fn help_line(letter: Seq<char>, what: Seq<char>) -> Seq<char> {
    "Ctrl-"@ + letter + what + "\r\n"@
}

/// A line as it is replayed: its timestamp, dimmed, and what the device sent.
pub open spec fn replayed_line(line: LineView, ts: TsMode) -> Seq<char> {
    (if line.prefix(ts).len() == 0 {
        Seq::empty()
    } else {
        timestamps::DIM@ + line.prefix(ts) + timestamps::UNDIM@
    }) + text::lossy_text(line.raw) + "\r\n"@
}

/// Lines as they are replayed.
pub open spec fn replayed(lines: Seq<LineView>, ts: TsMode) -> Seq<char>
    decreases lines.len(),
{
    if lines.len() == 0 {
        Seq::empty()
    } else {
        replayed(lines.drop_last(), ts) + replayed_line(lines.last(), ts)
    }
}

/// How many of `n` lines are left out of the replay.
pub open spec fn omitted(n: nat) -> nat {
    if n <= REPLAY_LIMIT {
        0
    } else {
        (n - REPLAY_LIMIT) as nat
    }
}

/// The time after which the next attempt to reconnect may follow one at `mono`.
pub open spec fn retry_after(mono: u64) -> nat {
    if mono + RECONNECT_EVERY <= u64::MAX {
        (mono + RECONNECT_EVERY) as nat
    } else {
        u64::MAX as nat
    }
}

impl SessionView {
    pub open spec fn well_formed(self) -> bool {
        &&& self.assembler.well_formed()
        &&& self.sb.well_formed()
        &&& self.sb.total() <= self.rx_bytes
        &&& 1 <= self.escape <= 26
    }

    /// Nothing asked for yet.
    pub open spec fn fresh(self) -> Turn {
        Turn { state: self, actions: Seq::empty() }
    }

    /// The escape key by its letter.
    pub open spec fn letter(self) -> Seq<char> {
        seq![control_letter(self.escape)]
    }

    /// The line under the banner.
    pub open spec fn welcome(self) -> Seq<char> {
        self.cfg.path + " · "@ + baud_text(self.cfg.baud) + " "@ + self.cfg.frame.text()
            + " · Ctrl-"@ + self.letter() + " q to quit, Ctrl-"@ + self.letter() + " ? for help"@
    }

    /// The session status in one line.
    pub open spec fn status_text(self, now: Now) -> Seq<char> {
        self.cfg.path + " · "@ + baud_text(self.cfg.baud) + " "@ + self.cfg.frame.text() + " · "@
            + (if self.connected {
            "connected"@
        } else {
            "waiting"@
        }) + " · up "@ + timestamps::duration_text(now.mono as nat / clock::NANOS as nat) + " · "@
            + bytes_text(self.rx_bytes) + " received · "@ + text::decimal(self.sb.total()) + (
        if self.sb.total() == 1 {
            " line"@
        } else {
            " lines"@
        }) + " · ts "@ + self.ts.name() + " · log "@ + (match self.log {
            Some(l) => l.path,
            None => "off"@,
        })
    }

    /// The help text.
    pub open spec fn help_text(self) -> Seq<char> {
        let e = self.letter();
        "\x1b[36m"@ + help_line(e, " q   quit and release the port"@) + help_line(
            e,
            " ?   this help"@,
        ) + help_line(e, " s   scrollback view (search, filter)"@) + help_line(
            e,
            " t   cycle timestamps (off, rel, abs, delta)"@,
        ) + help_line(e, " l   start or stop logging to a file"@) + help_line(
            e,
            " c   clear the screen"@,
        ) + help_line(e, " b   send a break"@) + help_line(e, " r   force a reconnect"@)
            + help_line(e, " i   session status"@) + help_line(
            e,
            " Ctrl-"@ + e + "   send Ctrl-"@ + e + " to the device"@,
        ) + "\x1b[0m"@
    }

    /// What the scrollback view tells about the session.
    pub open spec fn status(self, now: Now) -> StatusView {
        StatusView {
            port: self.cfg.path,
            baud: baud_text(self.cfg.baud),
            frame: self.cfg.frame.text(),
            connected: self.connected,
            rx_bytes: self.rx_bytes,
            ts: self.ts,
            logging: self.log is Some,
            uptime: timestamps::duration_text(now.mono as nat / clock::NANOS as nat),
        }
    }

    /// The log file that is begun when none is open.
    pub open spec fn next_log(self, now: Now) -> LogView {
        LogView {
            path: logfile::log_path(None, self.cfg.path, self.dir, now.wall),
            format: self.log_format,
        }
    }
}

impl Turn {
    /// One more action.
    pub open spec fn act(self, action: ActionView) -> Turn {
        Turn { actions: self.actions.push(action), ..self }
    }

    /// Output for the terminal. While the scrollback view is open there is none.
    pub open spec fn printed(self, bytes: Seq<u8>) -> Turn {
        if self.state.tui is Some || bytes.len() == 0 {
            self
        } else {
            self.act(ActionView::Print(bytes))
        }
    }

    /// Output of our own for the terminal. While the scrollback view is open there is
    /// none.
    pub open spec fn shown(self, bytes: Seq<u8>) -> Turn {
        if self.state.tui is Some {
            self
        } else {
            self.act(ActionView::Print(bytes))
        }
    }

    /// Output for the log, if there is one.
    pub open spec fn logged(self, bytes: Seq<u8>) -> Turn {
        if self.state.log is None || bytes.len() == 0 {
            self
        } else {
            self.act(ActionView::Log(bytes))
        }
    }

    /// Things to do to the terminal.
    pub open spec fn adjusted(self, ops: Seq<TermOp>) -> Turn {
        if ops.len() == 0 {
            self
        } else {
            self.act(ActionView::Term(ops))
        }
    }

    /// A remark of our own goes to the log, if there is one.
    pub open spec fn recorded(self, remark: Seq<char>, now: Now) -> Turn {
        match self.state.log {
            Some(l) => self.act(ActionView::Log(l.note(remark, now.wall))),
            None => self,
        }
    }

    /// One of our own status lines, on the terminal and in the log.
    pub open spec fn noted(self, remark: Seq<char>, color: Seq<char>, now: Now) -> Turn {
        self.shown(
            encode_utf8(note_text(remark, color, self.state.assembler.mid_line())),
        ).recorded(remark, now)
    }

    /// The terminal is set up, and the banner is printed with a line under it and
    /// where the log goes.
    pub open spec fn started(self, now: Now) -> Turn {
        let t = self.adjusted(seq![TermOp::EnableRawMode]).shown(
            encode_utf8(logo::raw_mode_text(logo::BANNER@) + "\r\n"@),
        ).noted(self.state.welcome(), "36"@, now).shown(seq![timestamps::CR, timestamps::LF]);
        match self.state.log {
            Some(l) => t.noted("logging to "@ + l.path, "36"@, now),
            None => t,
        }
    }

    /// Device output was cut into what is shown and into finished lines.
    pub open spec fn absorbed(self, data: Seq<u8>, shown: Seq<u8>, lines: Seq<LineView>) -> Turn {
        let t = (Turn {
            state: SessionView { rx_bytes: self.state.rx_bytes + data.len(), ..self.state },
            ..self
        }).logged(
            match self.state.log {
                Some(l) => l.chunk(data),
                None => Seq::empty(),
            },
        ).printed(shown);
        (Turn { state: SessionView { sb: t.state.sb.push_all(lines), ..t.state }, ..t }).logged(
            match self.state.log {
                Some(l) => l.lines(lines),
                None => Seq::empty(),
            },
        )
    }

    /// Device output, taken in at the given times.
    pub open spec fn received(self, data: Seq<u8>, times: Seq<Now>) -> Turn {
        let p = self.state.assembler.fresh().feed(data, self.state.ts, times);
        (Turn { state: SessionView { assembler: p.state, ..self.state }, ..self }).absorbed(
            data,
            p.out,
            p.lines,
        )
    }

    /// The device went away.
    pub open spec fn disconnected(self, reason: Seq<char>, now: Now) -> Turn {
        let t = (Turn { state: SessionView { connected: false, ..self.state }, ..self }).act(
            ActionView::ClosePort,
        );
        if self.state.reconnect {
            let n = t.noted(
                "disconnected ("@ + reason + "), waiting for the device"@,
                "33"@,
                now,
            );
            Turn { state: SessionView { next_try: retry_after(now.mono), ..n.state }, ..n }
        } else {
            t.noted("disconnected: "@ + reason, "31"@, now).quitting()
        }
    }

    /// What was held back is written out because the device went quiet.
    pub open spec fn flushed(self, now: Now) -> Turn {
        let p = self.state.assembler.fresh().flushed(now);
        (Turn { state: SessionView { assembler: p.state, ..self.state }, ..self }).printed(p.out)
    }

    /// A lone escape byte becomes a key once nothing follows it.
    pub open spec fn escape_resolved(self, now: Now) -> Turn {
        if self.state.keys == seq![0x1bu8] {
            (Turn { state: SessionView { keys: Seq::empty(), ..self.state }, ..self }).keyed(
                Key::Esc,
                now,
            )
        } else {
            self
        }
    }

    /// A look for the device, where it is gone and one is due.
    pub open spec fn retried(self, now: Now) -> Turn {
        if !self.state.connected && self.state.reconnect && now.mono >= self.state.next_try {
            (Turn {
                state: SessionView { next_try: retry_after(now.mono), ..self.state },
                ..self
            }).act(ActionView::Reconnect)
        } else {
            self
        }
    }

    /// The scrollback view is drawn, if it is open.
    pub open spec fn redrawn(self) -> Turn {
        if self.state.tui is Some {
            self.act(ActionView::Draw)
        } else {
            self
        }
    }

    /// Some time has passed.
    pub open spec fn ticked(self, now: Now) -> Turn {
        self.flushed(now).escape_resolved(now).retried(now).redrawn()
    }

    /// The device is back, maybe under another name.
    pub open spec fn reconnected(
        self,
        path: Seq<char>,
        identity: Option<Seq<char>>,
        now: Now,
    ) -> Turn {
        let t = Turn {
            state: SessionView {
                cfg: PortConfigView { path, ..self.state.cfg },
                identity: if identity is Some {
                    identity
                } else {
                    self.state.identity
                },
                connected: true,
                ..self.state
            },
            ..self
        };
        if path == self.state.cfg.path {
            t.noted("reconnected"@, "32"@, now)
        } else {
            t.noted("reconnected as "@ + path, "32"@, now)
        }
    }

    /// A signal arrived.
    pub open spec fn signalled(self, signal: Signal, now: Now) -> Turn {
        match signal {
            Signal::Resize => self.redrawn(),
            Signal::Terminate => self.noted("terminating"@, "33"@, now).quitting(),
        }
    }

    /// Input for the device.
    pub open spec fn sent(self, data: Seq<u8>, now: Now) -> Turn {
        let t = if self.state.echo {
            self.printed(data)
        } else {
            self
        };
        if self.state.connected {
            t.act(ActionView::Send(data))
        } else {
            t.noted("not connected — input discarded"@, "31"@, now)
        }
    }

    /// Logging is started or stopped.
    pub open spec fn log_toggled(self, now: Now) -> Turn {
        match self.state.log {
            Some(l) => (Turn { state: SessionView { log: None, ..self.state }, ..self }).act(
                ActionView::CloseLog,
            ).noted("logging stopped: "@ + l.path, "36"@, now),
            None => (Turn {
                state: SessionView { opening: Some(self.state.next_log(now)), ..self.state },
                ..self
            }).act(ActionView::OpenLog(self.state.next_log(now).path)),
        }
    }

    /// The log file was created: it is in use from here on.
    pub open spec fn log_begun(self, log: LogView, now: Now) -> Turn {
        (Turn {
            state: SessionView { log: Some(log), opening: None, ..self.state },
            ..self
        }).noted("logging to "@ + log.path, "36"@, now)
    }

    /// The log file could not be created.
    pub open spec fn log_refused(self, log: LogView, now: Now) -> Turn {
        (Turn { state: SessionView { opening: None, ..self.state }, ..self }).noted(
            "cannot start log: "@ + log.create_error(),
            "31"@,
            now,
        )
    }

    /// The log file was created, or could not be.
    pub open spec fn log_ready(self, created: bool, now: Now) -> Turn {
        match self.state.opening {
            None => self,
            Some(log) => if created {
                self.log_begun(log, now)
            } else {
                self.log_refused(log, now)
            },
        }
    }

    /// The scrollback view is opened.
    pub open spec fn opened_view(self) -> Turn {
        (Turn {
            state: SessionView {
                tui_mark: self.state.sb.total(),
                tui: Some(TuiView::initial()),
                keys: Seq::empty(),
                term: TermView { alt: true, ..self.state.term },
                ..self.state
            },
            ..self
        }).adjusted(self.state.term.entering()).redrawn()
    }

    /// What arrived while the scrollback view was open is replayed, the newest of it
    /// where it is much.
    pub open spec fn caught_up(self, now: Now) -> Turn {
        let missed = self.state.sb.since(self.state.tui_mark);
        let skipped = omitted(missed.len());
        (if skipped > 0 {
            self.noted(text::decimal(skipped) + " earlier lines omitted"@, "33"@, now)
        } else {
            self
        }).printed(encode_utf8(replayed(missed.skip(skipped as int), self.state.ts)))
    }

    /// The scrollback view is closed: what arrived meanwhile is replayed.
    pub open spec fn closed_view(self, now: Now) -> Turn {
        (Turn {
            state: SessionView {
                tui: None,
                term: TermView { alt: false, ..self.state.term },
                ..self.state
            },
            ..self
        }).adjusted(self.state.term.leaving()).caught_up(now)
    }

    /// What the scrollback view asks for after a key.
    pub open spec fn obeyed(self, action: TuiAction, now: Now) -> Turn {
        match action {
            TuiAction::Stay => self.redrawn(),
            TuiAction::Leave => self.closed_view(now),
            TuiAction::Quit => self.closed_view(now).quitting(),
        }
    }

    /// A key for the scrollback view.
    pub open spec fn keyed(self, key: Key, now: Now) -> Turn {
        match self.state.tui {
            None => self,
            Some(view) => {
                let (after, action) = view.after_key(key, self.state.sb.lines);
                (Turn {
                    state: SessionView { tui: Some(after), ..self.state },
                    ..self
                }).obeyed(action, now)
            },
        }
    }

    /// The session is to end.
    pub open spec fn quitting(self) -> Turn {
        Turn { state: SessionView { quit: true, ..self.state }, ..self }
    }

    /// The next timestamp mode is put to use.
    pub open spec fn stamped_anew(self, now: Now) -> Turn {
        (Turn {
            state: SessionView { ts: self.state.ts.successor(), ..self.state },
            ..self
        }).noted("timestamps: "@ + self.state.ts.successor().name(), "36"@, now)
    }

    /// A break is sent, if there is a port to send it on.
    pub open spec fn broken(self, now: Now) -> Turn {
        if self.state.connected {
            self.act(ActionView::SendBreak).noted("break sent"@, "36"@, now)
        } else {
            self
        }
    }

    /// The port is let go, to be looked for again at once.
    pub open spec fn let_go(self, now: Now) -> Turn {
        let t = (Turn { state: SessionView { connected: false, ..self.state }, ..self }).act(
            ActionView::ClosePort,
        ).noted("reconnecting"@, "33"@, now);
        Turn { state: SessionView { next_try: now.mono as nat, ..t.state }, ..t }
    }

    /// A byte is kept for the device.
    pub open spec fn kept(self, b: u8) -> Turn {
        Turn {
            state: SessionView { to_port: self.state.to_port.push(b), ..self.state },
            ..self
        }
    }

    /// The byte after the escape key.
    pub open spec fn commanded(self, b: u8, now: Now) -> Turn {
        if b == 0x71 {
            self.quitting()
        } else if b == 0x3f || b == 0x68 {
            self.shown(encode_utf8(self.state.help_text()))
        } else if b == 0x73 {
            self.opened_view()
        } else if b == 0x74 {
            self.stamped_anew(now)
        } else if b == 0x6c {
            self.log_toggled(now)
        } else if b == 0x63 {
            self.shown(encode_utf8(CLEAR@))
        } else if b == 0x62 {
            self.broken(now)
        } else if b == 0x72 {
            self.let_go(now)
        } else if b == 0x69 {
            self.noted(self.state.status_text(now), "36"@, now)
        } else if b == self.state.escape {
            self.kept(b)
        } else {
            self
        }
    }

    /// A byte typed while the live stream is on screen.
    pub open spec fn typed(self, b: u8, now: Now) -> Turn {
        if self.state.escape_pending {
            (Turn {
                state: SessionView { escape_pending: false, ..self.state },
                ..self
            }).commanded(b, now)
        } else if b == self.state.escape {
            Turn { state: SessionView { escape_pending: true, ..self.state }, ..self }
        } else {
            self.kept(b)
        }
    }

    /// Input arrived. It is taken in piece by piece.
    pub open spec fn input(self, data: Seq<u8>) -> Turn {
        Turn {
            state: if self.state.tui is Some {
                SessionView {
                    keys: self.state.keys + data,
                    intake: Intake::Browsing,
                    ..self.state
                }
            } else {
                SessionView {
                    rest: data,
                    to_port: Seq::empty(),
                    intake: Intake::Typing,
                    ..self.state
                }
            },
            ..self
        }
    }

    /// The input goes on to the scrollback view as long as it is open. Once it is
    /// left, the rest is ordinary input; where the session ends there is none.
    pub open spec fn browsing(self) -> Turn {
        Turn {
            state: if self.state.tui is Some {
                SessionView { intake: Intake::Browsing, ..self.state }
            } else if self.state.quit {
                SessionView { intake: Intake::Idle, ..self.state }
            } else {
                SessionView {
                    rest: self.state.keys,
                    keys: Seq::empty(),
                    to_port: Seq::empty(),
                    intake: Intake::Typing,
                    ..self.state
                }
            },
            ..self
        }
    }

    /// All that was typed has been looked at: what is for the device is sent.
    pub open spec fn typing_done(self, now: Now) -> Turn {
        let t = Turn {
            state: SessionView { intake: Intake::Idle, to_port: Seq::empty(), ..self.state },
            ..self
        };
        if self.state.to_port.len() == 0 {
            t
        } else {
            t.sent(self.state.to_port, now)
        }
    }

    /// The next byte typed is taken in; after the last one, what is for the device
    /// is sent.
    pub open spec fn next_typed(self, now: Now) -> Turn {
        let s = self.state;
        if s.rest.len() > 0 {
            (Turn { state: SessionView { rest: s.rest.skip(1), ..s }, ..self }).typed(
                s.rest[0],
                now,
            )
        } else {
            self.typing_done(now)
        }
    }

    /// The next key is taken in; the flag says whether there was a whole one.
    pub open spec fn next_key(self, now: Now) -> (Turn, bool) {
        let s = self.state;
        match input::decoded(s.keys) {
            None => (Turn { state: SessionView { intake: Intake::Idle, ..s }, ..self }, false),
            Some((key, n)) => (
                (Turn {
                    state: SessionView { keys: s.keys.skip(n as int), ..s },
                    ..self
                }).keyed(key, now).browsing(),
                true,
            ),
        }
    }

    /// The next piece of the input is taken in; the flag says whether there was one.
    pub open spec fn taken(self, now: Now) -> (Turn, bool) {
        match self.state.intake {
            Intake::Idle => (self, false),
            Intake::Browsing => self.next_key(now),
            Intake::Typing => (self.next_typed(now), true),
        }
    }

    /// An event, and what follows from it. Device output is taken in at the given
    /// times.
    pub open spec fn handled(self, ev: Event, now: Now, times: Seq<Now>) -> Turn {
        match ev {
            Event::Rx(data) => self.received(data@, times),
            Event::Disconnected(reason) => self.disconnected(reason@, now),
            Event::Stdin(data) => self.input(data@),
            Event::Tick => self.ticked(now),
            Event::Signal(signal) => self.signalled(signal, now),
        }
    }

    /// The end of the session: the port is released, the log is closed off and the
    /// terminal is put back.
    pub open spec fn ended(self, now: Now) -> Turn {
        let t = (Turn {
            state: SessionView {
                term: TermView { alt: false, ..self.state.term },
                connected: false,
                ..self.state
            },
            ..self
        }).adjusted(self.state.term.leaving());
        let closed = if self.state.connected {
            t.act(ActionView::ClosePort)
        } else {
            t
        };
        let noted = closed.recorded("session ended"@, now);
        (Turn {
            state: SessionView { term: TermView { raw: false, alt: false }, ..noted.state },
            ..noted
        }).adjusted(noted.state.term.restoring())
    }
}

/// A terminal session on a serial port. Events go in, actions come out.
pub struct Session {
    cfg: PortConfig,
    term: TermGuard,
    connected: bool,
    assembler: LineAssembler,
    sb: Scrollback,
    log: Option<LogWriter>,
    opening: Option<LogWriter>,
    log_format: LogFormat,
    dir: String,
    identity: Option<String>,
    ts: TsMode,
    escape: u8,
    echo: bool,
    reconnect: bool,
    strict_port: bool,
    escape_pending: bool,
    keys: KeyDecoder,
    tui: Option<Tui>,
    tui_mark: u64,
    rx_bytes: u64,
    next_try: u64,
    quit: bool,
    intake: Intake,
    rest: VecDeque<u8>,
    to_port: Vec<u8>,
}

/// The log, if there is one.
pub open spec fn opt_log(log: Option<LogWriter>) -> Option<LogView> {
    match log {
        Some(l) => Some(l@),
        None => None,
    }
}

/// The scrollback view, if it is open.
pub open spec fn opt_tui(view: Option<Tui>) -> Option<TuiView> {
    match view {
        Some(t) => Some(t@),
        None => None,
    }
}

impl View for Session {
    type V = SessionView;

    closed spec fn view(&self) -> SessionView {
        SessionView {
            cfg: self.cfg@,
            term: self.term@,
            connected: self.connected,
            assembler: self.assembler@,
            sb: self.sb@,
            log: opt_log(self.log),
            opening: opt_log(self.opening),
            log_format: self.log_format,
            dir: self.dir@,
            identity: tui::opt_string(self.identity),
            ts: self.ts,
            escape: self.escape,
            echo: self.echo,
            reconnect: self.reconnect,
            strict_port: self.strict_port,
            escape_pending: self.escape_pending,
            keys: self.keys@,
            tui: opt_tui(self.tui),
            tui_mark: self.tui_mark as nat,
            rx_bytes: self.rx_bytes as nat,
            next_try: self.next_try as nat,
            quit: self.quit,
            intake: self.intake,
            rest: self.rest@,
            to_port: self.to_port@,
        }
    }
}

/// A session and the actions collected so far.
spec fn turn(s: Session, out: Vec<Action>) -> Turn {
    Turn { state: s@, actions: action_views(out@) }
}

fn push_action(out: &mut Vec<Action>, action: Action)
    ensures
        action_views(final(out)@) == action_views(old(out)@).push(action@),
{
    let ghost before = action_views(out@);
    out.push(action);
    assert(action_views(out@) =~= before.push(action@));
}

impl Session {
    /// Writes to the terminal, unless the scrollback view covers it.
    fn write_out(&self, out: &mut Vec<Action>, data: &[u8])
        ensures
            turn(*self, *final(out)) == turn(*self, *old(out)).printed(data@),
    {
        if self.tui.is_none() && data.len() > 0 {
            push_action(out, Action::Print(text::copied(data)));
        }
        assert(turn(*self, *out) =~= turn(*self, *old(out)).printed(data@));
    }

    /// Writes something of our own to the terminal, unless the scrollback view covers
    /// it.
    fn show(&self, out: &mut Vec<Action>, data: &[u8])
        ensures
            turn(*self, *final(out)) == turn(*self, *old(out)).shown(data@),
    {
        if self.tui.is_none() {
            push_action(out, Action::Print(text::copied(data)));
        }
        assert(turn(*self, *out) =~= turn(*self, *old(out)).shown(data@));
    }

    /// Puts a remark of our own into the log.
    fn record(&self, out: &mut Vec<Action>, remark: &str, now: Now)
        requires
            now.wall.valid(),
        ensures
            turn(*self, *final(out)) == turn(*self, *old(out)).recorded(remark@, now),
    {
        if let Some(l) = &self.log {
            push_action(out, Action::Log(l.note_at(remark, &now.wall)));
        }
        assert(turn(*self, *out) =~= turn(*self, *old(out)).recorded(remark@, now));
    }

    fn log_out(&self, out: &mut Vec<Action>, data: Vec<u8>)
        ensures
            turn(*self, *final(out)) == turn(*self, *old(out)).logged(data@),
    {
        if self.log.is_some() && data.len() > 0 {
            push_action(out, Action::Log(data));
        }
        assert(turn(*self, *out) =~= turn(*self, *old(out)).logged(data@));
    }

    fn adjust(&self, out: &mut Vec<Action>, ops: Vec<TermOp>)
        ensures
            turn(*self, *final(out)) == turn(*self, *old(out)).adjusted(ops@),
    {
        if ops.len() > 0 {
            push_action(out, Action::Term(ops));
        }
        assert(turn(*self, *out) =~= turn(*self, *old(out)).adjusted(ops@));
    }

    fn redraw(&self, out: &mut Vec<Action>)
        ensures
            turn(*self, *final(out)) == turn(*self, *old(out)).redrawn(),
    {
        if self.tui.is_some() {
            push_action(out, Action::Draw);
        }
        assert(turn(*self, *out) =~= turn(*self, *old(out)).redrawn());
    }

    /// Writes one of our own status lines, kept visually distinct from device output.
    fn note(&self, out: &mut Vec<Action>, remark: &str, color: &str, now: Now)
        requires
            now.wall.valid(),
        ensures
            turn(*self, *final(out)) == turn(*self, *old(out)).noted(remark@, color@, now),
    {
        let line = note_line(remark, color, self.assembler.mid_line());
        self.show(out, line.as_str().as_bytes());
        self.record(out, remark, now);
    }
}

/// The lines that a mark on the buffer selects, as they are replayed.
fn replay(lines: &[&Line], from: usize, ts: TsMode) -> (s: String)
    requires
        from <= lines@.len(),
        forall|i: int| 0 <= i < lines@.len() ==> (#[trigger] lines@[i]).at.valid(),
    ensures
        s@ == replayed(scrollback::borrowed_views(lines@).skip(from as int), ts),
{
    let ghost all = scrollback::borrowed_views(lines@).skip(from as int);
    let mut s = String::new();
    let mut i: usize = from;
    assert(all.take(0) =~= Seq::empty());
    while i < lines.len()
        invariant
            from <= i <= lines@.len(),
            all == scrollback::borrowed_views(lines@).skip(from as int),
            forall|i: int| 0 <= i < lines@.len() ==> (#[trigger] lines@[i]).at.valid(),
            s@ == replayed(all.take(i - from), ts),
        decreases lines@.len() - i,
    {
        let ghost before = s@;
        let line = lines[i];
        let prefix = line.prefix(ts);
        if !prefix.as_str().is_empty() {
            s.append(timestamps::DIM);
            s.append(prefix.as_str());
            s.append(timestamps::UNDIM);
        }
        s.append(text::from_utf8_lossy(line.raw.as_slice()).as_str());
        s.append("\r\n");
        assert(all.take(i - from + 1).drop_last() =~= all.take(i - from));
        assert(s@ =~= before + replayed_line(line@, ts));
        i += 1;
    }
    assert(all.take(all.len() as int) =~= all);
    s
}

/// Stores finished lines; the result is what they add to the log.
fn store(sb: &mut Scrollback, log: &Option<LogWriter>, lines: Vec<Line>) -> (bytes: Vec<u8>)
    requires
        old(sb)@.well_formed(),
        old(sb)@.total() + lines@.len() <= u64::MAX,
        forall|i: int| 0 <= i < lines@.len() ==> (#[trigger] lines@[i]).at.valid(),
    ensures
        final(sb)@ == old(sb)@.push_all(scrollback::line_views(lines@)),
        final(sb)@.well_formed(),
        final(sb)@.total() == old(sb)@.total() + lines@.len(),
        bytes@ == (match opt_log(*log) {
            Some(l) => l.lines(scrollback::line_views(lines@)),
            None => Seq::empty(),
        }),
{
    let mut bytes: Vec<u8> = Vec::new();
    let ghost all = lines@;
    let ghost views = scrollback::line_views(all);
    assert(views.take(0) =~= Seq::empty());
    for line in it: lines
        invariant
            it.seq() == all,
            views == scrollback::line_views(all),
            forall|i: int| 0 <= i < all.len() ==> (#[trigger] all[i]).at.valid(),
            old(sb)@.total() + all.len() <= u64::MAX,
            sb@.well_formed(),
            sb@ == old(sb)@.push_all(views.take(it.index() as int)),
            sb@.total() == old(sb)@.total() + it.index(),
            bytes@ == (match opt_log(*log) {
                Some(l) => l.lines(views.take(it.index() as int)),
                None => Seq::empty(),
            }),
    {
        let ghost k = it.index() as int;
        assert(all[k].at.valid());
        assert(views.take(k + 1).drop_last() =~= views.take(k));
        if let Some(l) = log {
            bytes.extend_from_slice(l.write_line(&line).as_slice());
        }
        sb.push(line);
    }
    assert(views.take(views.len() as int) =~= views);
    bytes
}

proof fn lemma_line_feeds_bound(data: Seq<u8>)
    ensures
        timestamps::line_feeds(data) <= data.len(),
    decreases data.len(),
{
    if data.len() > 0 {
        lemma_line_feeds_bound(data.drop_last());
    }
}

proof fn lemma_fed_lines(state: AssemblerView, data: Seq<u8>, ts: TsMode, times: Seq<Now>)
    requires
        state.well_formed(),
        timestamps::printable(times),
        times.len() >= data.len(),
    ensures
        ({
            let lines = state.fresh().feed(data, ts, times).lines;
            &&& lines.len() <= data.len()
            &&& forall|i: int| 0 <= i < lines.len() ==> (#[trigger] lines[i]).at.valid()
        }),
{
    timestamps::feeding_keeps_lines_clean(state.fresh(), data, ts, times);
    timestamps::each_line_feed_ends_a_line(state.fresh(), data, ts, times);
    lemma_line_feeds_bound(data);
}

impl Session {
    fn absorb(&mut self, out: &mut Vec<Action>, data: &[u8], feed: Feed)
        requires
            old(self)@.well_formed(),
            old(self)@.rx_bytes + data@.len() <= u64::MAX,
            feed.lines@.len() <= data@.len(),
            forall|i: int| 0 <= i < feed.lines@.len() ==> (#[trigger] feed.lines@[i]).at.valid(),
        ensures
            turn(*final(self), *final(out)) == turn(*old(self), *old(out)).absorbed(
                data@,
                feed.out@,
                scrollback::line_views(feed.lines@),
            ),
            final(self)@.well_formed(),
    {
        let ghost start = turn(*old(self), *old(out));
        let ghost views = scrollback::line_views(feed.lines@);
        self.rx_bytes += data.len() as u64;
        assert(turn(*self, *out) =~= (Turn {
            state: SessionView { rx_bytes: start.state.rx_bytes + data@.len(), ..start.state },
            ..start
        }));
        let chunk: Vec<u8> = match &self.log {
            Some(l) => l.write_chunk(data),
            None => Vec::new(),
        };
        self.log_out(out, chunk);
        self.write_out(out, feed.out.as_slice());
        let ghost shown = turn(*self, *out);
        let bytes = store(&mut self.sb, &self.log, feed.lines);
        assert(turn(*self, *out) =~= (Turn {
            state: SessionView { sb: shown.state.sb.push_all(views), ..shown.state },
            ..shown
        }));
        self.log_out(out, bytes);
    }

    fn on_rx(&mut self, out: &mut Vec<Action>, data: &[u8])
        requires
            old(self)@.well_formed(),
            old(self)@.rx_bytes + data@.len() <= u64::MAX,
        ensures
            exists|times: Seq<Now>|
                times.len() == data@.len() && timestamps::printable(times) && turn(
                    *final(self),
                    *final(out),
                ) == #[trigger] turn(*old(self), *old(out)).received(data@, times),
            final(self)@.well_formed(),
    {
        let feed = self.assembler.feed(data, self.ts);
        let ghost times = choose|times: Seq<Now>|
            times.len() == data@.len() && timestamps::printable(times) && (Progress {
                state: self.assembler@,
                out: feed.out@,
                lines: scrollback::line_views(feed.lines@),
            }) == #[trigger] old(self)@.assembler.fresh().feed(data@, self.ts, times);
        proof {
            lemma_fed_lines(old(self)@.assembler, data@, self.ts, times);
            assert forall|i: int| 0 <= i < feed.lines@.len() implies (
            #[trigger] feed.lines@[i]).at.valid() by {
                assert(scrollback::line_views(feed.lines@)[i].at.valid());
            }
            assert(scrollback::line_views(feed.lines@).len() == feed.lines@.len());
        }
        self.absorb(out, data, feed);
        assert(turn(*self, *out) =~= turn(*old(self), *old(out)).received(data@, times));
    }

    /// Takes in device output that arrived at `now`.
    pub fn on_rx_at(&mut self, data: &[u8], now: Now) -> (out: Vec<Action>)
        requires
            old(self)@.well_formed(),
            old(self)@.rx_bytes + data@.len() <= u64::MAX,
            now.wall.valid(),
        ensures
            (Turn { state: final(self)@, actions: action_views(out@) })
                == old(self)@.fresh().received(
                data@,
                timestamps::throughout(now, data@.len()),
            ),
            final(self)@.well_formed(),
    {
        let mut out: Vec<Action> = Vec::new();
        let ghost times = timestamps::throughout(now, data@.len());
        let feed = self.assembler.feed_at(data, self.ts, now);
        proof {
            lemma_fed_lines(old(self)@.assembler, data@, self.ts, times);
            assert forall|i: int| 0 <= i < feed.lines@.len() implies (
            #[trigger] feed.lines@[i]).at.valid() by {
                assert(scrollback::line_views(feed.lines@)[i].at.valid());
            }
            assert(scrollback::line_views(feed.lines@).len() == feed.lines@.len());
            assert(action_views(out@) =~= Seq::empty());
        }
        self.absorb(&mut out, data, feed);
        assert(turn(*self, out) =~= old(self)@.fresh().received(data@, times));
        out
    }

    fn on_disconnect(&mut self, out: &mut Vec<Action>, reason: &str, now: Now)
        requires
            old(self)@.well_formed(),
            now.wall.valid(),
        ensures
            turn(*final(self), *final(out)) == turn(*old(self), *old(out)).disconnected(
                reason@,
                now,
            ),
            final(self)@.well_formed(),
    {
        self.connected = false;
        push_action(out, Action::ClosePort);
        let ghost start = turn(*old(self), *old(out));
        assert(turn(*self, *out) =~= (Turn {
            state: SessionView { connected: false, ..start.state },
            ..start
        }).act(ActionView::ClosePort));
        if !self.reconnect {
            let mut msg = "disconnected: ".to_owned();
            msg.append(reason);
            self.note(out, msg.as_str(), "31", now);
            self.quit = true;
        } else {
            let mut msg = "disconnected (".to_owned();
            msg.append(reason);
            msg.append("), waiting for the device");
            self.note(out, msg.as_str(), "33", now);
            self.next_try = now.mono.saturating_add(RECONNECT_EVERY);
        }
        assert(turn(*self, *out) =~= start.disconnected(reason@, now));
    }

    fn on_tick(&mut self, out: &mut Vec<Action>, now: Now)
        requires
            old(self)@.well_formed(),
            now.wall.valid(),
        ensures
            turn(*final(self), *final(out)) == turn(*old(self), *old(out)).ticked(now),
            final(self)@.well_formed(),
    {
        self.flush(out, now);
        self.resolve_escape(out, now);
        self.try_reconnect(out, now);
        self.redraw(out);
    }

    fn flush(&mut self, out: &mut Vec<Action>, now: Now)
        requires
            old(self)@.well_formed(),
            now.wall.valid(),
        ensures
            turn(*final(self), *final(out)) == turn(*old(self), *old(out)).flushed(now),
            final(self)@.well_formed(),
    {
        let ghost start = turn(*old(self), *old(out));
        let feed = self.assembler.flush_pending_at(now);
        assert(turn(*self, *out) =~= (Turn {
            state: SessionView {
                assembler: start.state.assembler.fresh().flushed(now).state,
                ..start.state
            },
            ..start
        }));
        self.write_out(out, feed.out.as_slice());
    }

    fn resolve_escape(&mut self, out: &mut Vec<Action>, now: Now)
        requires
            old(self)@.well_formed(),
            now.wall.valid(),
        ensures
            turn(*final(self), *final(out)) == turn(*old(self), *old(out)).escape_resolved(now),
            final(self)@.well_formed(),
    {
        let ghost start = turn(*old(self), *old(out));
        if let Some(key) = self.keys.flush_escape() {
            assert(turn(*self, *out) =~= (Turn {
                state: SessionView { keys: Seq::empty(), ..start.state },
                ..start
            }));
            self.handle_tui_key(out, key, now);
        } else {
            assert(turn(*self, *out) =~= start);
        }
    }

    fn try_reconnect(&mut self, out: &mut Vec<Action>, now: Now)
        requires
            old(self)@.well_formed(),
        ensures
            turn(*final(self), *final(out)) == turn(*old(self), *old(out)).retried(now),
            final(self)@.well_formed(),
    {
        if !self.connected && self.reconnect && now.mono >= self.next_try {
            self.next_try = now.mono.saturating_add(RECONNECT_EVERY);
            push_action(out, Action::Reconnect);
        }
        assert(turn(*self, *out) =~= turn(*old(self), *old(out)).retried(now));
    }

    fn on_signal(&mut self, out: &mut Vec<Action>, signal: Signal, now: Now)
        requires
            old(self)@.well_formed(),
            now.wall.valid(),
        ensures
            turn(*final(self), *final(out)) == turn(*old(self), *old(out)).signalled(signal, now),
            final(self)@.well_formed(),
    {
        match signal {
            Signal::Resize => self.redraw(out),
            Signal::Terminate => {
                self.note(out, "terminating", "33", now);
                self.quit = true;
            },
        }
        assert(turn(*self, *out) =~= turn(*old(self), *old(out)).signalled(signal, now));
    }

    fn on_stdin(&mut self, data: Vec<u8>)
        requires
            old(self)@.well_formed(),
        ensures
            final(self)@ == old(self)@.fresh().input(data@).state,
            final(self)@.well_formed(),
    {
        if self.tui.is_some() {
            self.keys.push(data.as_slice());
            self.intake = Intake::Browsing;
        } else {
            self.rest = queue(data.as_slice());
            self.to_port = Vec::new();
            self.intake = Intake::Typing;
        }
        assert(self@ =~= old(self)@.fresh().input(data@).state);
    }

    fn send(&self, out: &mut Vec<Action>, data: Vec<u8>, now: Now)
        requires
            now.wall.valid(),
        ensures
            turn(*self, *final(out)) == turn(*self, *old(out)).sent(data@, now),
    {
        if self.echo {
            self.write_out(out, data.as_slice());
        }
        if self.connected {
            push_action(out, Action::Send(data));
        } else {
            self.note(out, "not connected — input discarded", "31", now);
        }
        assert(turn(*self, *out) =~= turn(*self, *old(out)).sent(data@, now));
    }

    fn escape_command(&mut self, out: &mut Vec<Action>, b: u8, now: Now)
        requires
            old(self)@.well_formed(),
            now.wall.valid(),
        ensures
            turn(*final(self), *final(out)) == turn(*old(self), *old(out)).commanded(b, now),
            final(self)@.well_formed(),
    {
        match b {
            // q
            0x71 => self.stop(out),
            // ? and h
            0x3f | 0x68 => self.print_help(out),
            // s
            0x73 => self.enter_tui(out),
            // t
            0x74 => self.cycle_timestamps(out, now),
            // l
            0x6c => self.toggle_log(out, now),
            // c
            0x63 => self.show(out, CLEAR.as_bytes()),
            // b
            0x62 => self.send_break(out, now),
            // r
            0x72 => self.force_reconnect(out, now),
            // i
            0x69 => self.print_status(out, now),
            _ => {
                if b == self.escape {
                    self.keep(out, b);
                }
            },
        }
    }

    fn stop(&mut self, out: &Vec<Action>)
        requires
            old(self)@.well_formed(),
        ensures
            turn(*final(self), *out) == turn(*old(self), *out).quitting(),
            final(self)@.well_formed(),
    {
        self.quit = true;
        assert(turn(*self, *out) =~= turn(*old(self), *out).quitting());
    }

    fn keep(&mut self, out: &Vec<Action>, b: u8)
        requires
            old(self)@.well_formed(),
        ensures
            turn(*final(self), *out) == turn(*old(self), *out).kept(b),
            final(self)@.well_formed(),
    {
        self.to_port.push(b);
        assert(turn(*self, *out) =~= turn(*old(self), *out).kept(b));
    }

    fn cycle_timestamps(&mut self, out: &mut Vec<Action>, now: Now)
        requires
            old(self)@.well_formed(),
            now.wall.valid(),
        ensures
            turn(*final(self), *final(out)) == turn(*old(self), *old(out)).stamped_anew(now),
            final(self)@.well_formed(),
    {
        let ghost start = turn(*old(self), *old(out));
        self.ts = self.ts.next();
        let mut msg = "timestamps: ".to_owned();
        msg.append(self.ts.label());
        assert(turn(*self, *out) =~= (Turn {
            state: SessionView { ts: start.state.ts.successor(), ..start.state },
            ..start
        }));
        self.note(out, msg.as_str(), "36", now);
    }

    fn send_break(&self, out: &mut Vec<Action>, now: Now)
        requires
            now.wall.valid(),
        ensures
            turn(*self, *final(out)) == turn(*self, *old(out)).broken(now),
    {
        let ghost start = turn(*self, *old(out));
        if self.connected {
            push_action(out, Action::SendBreak);
            assert(turn(*self, *out) =~= start.act(ActionView::SendBreak));
            self.note(out, "break sent", "36", now);
        }
    }

    fn force_reconnect(&mut self, out: &mut Vec<Action>, now: Now)
        requires
            old(self)@.well_formed(),
            now.wall.valid(),
        ensures
            turn(*final(self), *final(out)) == turn(*old(self), *old(out)).let_go(now),
            final(self)@.well_formed(),
    {
        let ghost start = turn(*old(self), *old(out));
        self.connected = false;
        push_action(out, Action::ClosePort);
        assert(turn(*self, *out) =~= (Turn {
            state: SessionView { connected: false, ..start.state },
            ..start
        }).act(ActionView::ClosePort));
        self.note(out, "reconnecting", "33", now);
        self.next_try = now.mono;
        assert(turn(*self, *out) =~= start.let_go(now));
    }

    fn type_byte(&mut self, out: &mut Vec<Action>, b: u8, now: Now)
        requires
            old(self)@.well_formed(),
            now.wall.valid(),
        ensures
            turn(*final(self), *final(out)) == turn(*old(self), *old(out)).typed(b, now),
            final(self)@.well_formed(),
    {
        let ghost start = turn(*old(self), *old(out));
        if self.escape_pending {
            self.escape_pending = false;
            assert(turn(*self, *out) =~= (Turn {
                state: SessionView { escape_pending: false, ..start.state },
                ..start
            }));
            self.escape_command(out, b, now);
        } else if b == self.escape {
            self.escape_pending = true;
            assert(turn(*self, *out) =~= (Turn {
                state: SessionView { escape_pending: true, ..start.state },
                ..start
            }));
        } else {
            self.keep(out, b);
        }
    }

    fn toggle_log(&mut self, out: &mut Vec<Action>, now: Now)
        requires
            old(self)@.well_formed(),
            now.wall.valid(),
        ensures
            turn(*final(self), *final(out)) == turn(*old(self), *old(out)).log_toggled(now),
            final(self)@.well_formed(),
    {
        let ghost start = turn(*old(self), *old(out));
        match self.log.take() {
            Some(log) => {
                push_action(out, Action::CloseLog);
                assert(turn(*self, *out) =~= (Turn {
                    state: SessionView { log: None, ..start.state },
                    ..start
                }).act(ActionView::CloseLog));
                let mut msg = "logging stopped: ".to_owned();
                msg.append(log.path());
                self.note(out, msg.as_str(), "36", now);
            },
            None => {
                let log = LogWriter::open_at(
                    None,
                    self.log_format,
                    self.cfg.path.as_str(),
                    self.dir.as_str(),
                    &now.wall,
                );
                push_action(out, Action::OpenLog(log.path().to_owned()));
                self.opening = Some(log);
            },
        }
        assert(turn(*self, *out) =~= start.log_toggled(now));
    }

    fn print_status(&self, out: &mut Vec<Action>, now: Now)
        requires
            self@.well_formed(),
            now.wall.valid(),
        ensures
            turn(*self, *final(out)) == turn(*self, *old(out)).noted(
                self@.status_text(now),
                "36"@,
                now,
            ),
    {
        let mut msg = self.cfg.path.clone();
        msg.append(" · ");
        msg.append(baud_label(self.cfg.baud).as_str());
        msg.append(" ");
        msg.append(self.cfg.frame.to_string().as_str());
        msg.append(" · ");
        msg.append(
            if self.connected {
                "connected"
            } else {
                "waiting"
            },
        );
        msg.append(" · up ");
        msg.append(timestamps::format_duration(now.mono / clock::NANOS).as_str());
        msg.append(" · ");
        msg.append(human_bytes(self.rx_bytes).as_str());
        msg.append(" received · ");
        let lines = self.sb.total();
        text::push_decimal(&mut msg, lines);
        msg.append(
            if lines == 1 {
                " line"
            } else {
                " lines"
            },
        );
        msg.append(" · ts ");
        msg.append(self.ts.label());
        msg.append(" · log ");
        match &self.log {
            Some(l) => msg.append(l.path()),
            None => msg.append("off"),
        }
        assert(msg@ =~= self@.status_text(now));
        self.note(out, msg.as_str(), "36", now);
    }

    fn print_help(&self, out: &mut Vec<Action>)
        requires
            self@.well_formed(),
        ensures
            turn(*self, *final(out)) == turn(*self, *old(out)).shown(
                encode_utf8(self@.help_text()),
            ),
    {
        let e = escape_name(self.escape);
        let mut s = "\x1b[36m".to_owned();
        push_help(&mut s, e, " q   quit and release the port");
        push_help(&mut s, e, " ?   this help");
        push_help(&mut s, e, " s   scrollback view (search, filter)");
        push_help(&mut s, e, " t   cycle timestamps (off, rel, abs, delta)");
        push_help(&mut s, e, " l   start or stop logging to a file");
        push_help(&mut s, e, " c   clear the screen");
        push_help(&mut s, e, " b   send a break");
        push_help(&mut s, e, " r   force a reconnect");
        push_help(&mut s, e, " i   session status");
        let mut literal = " Ctrl-".to_owned();
        literal.push(e);
        literal.append("   send Ctrl-");
        literal.push(e);
        literal.append(" to the device");
        assert(literal@ =~= " Ctrl-"@ + self@.letter() + "   send Ctrl-"@ + self@.letter()
            + " to the device"@);
        push_help(&mut s, e, literal.as_str());
        s.append("\x1b[0m");
        assert(s@ =~= self@.help_text());
        self.show(out, s.as_str().as_bytes());
    }

    fn enter_tui(&mut self, out: &mut Vec<Action>)
        requires
            old(self)@.well_formed(),
        ensures
            turn(*final(self), *final(out)) == turn(*old(self), *old(out)).opened_view(),
            final(self)@.well_formed(),
    {
        let ghost start = turn(*old(self), *old(out));
        self.tui_mark = self.sb.total();
        self.tui = Some(Tui::new());
        self.keys = KeyDecoder::default();
        let ops = self.term.enter_alt();
        assert(turn(*self, *out) =~= (Turn {
            state: SessionView {
                tui_mark: start.state.sb.total(),
                tui: Some(TuiView::initial()),
                keys: Seq::empty(),
                term: TermView { alt: true, ..start.state.term },
                ..start.state
            },
            ..start
        }));
        self.adjust(out, ops);
        self.redraw(out);
    }

    fn leave_tui(&mut self, out: &mut Vec<Action>, now: Now)
        requires
            old(self)@.well_formed(),
            now.wall.valid(),
        ensures
            turn(*final(self), *final(out)) == turn(*old(self), *old(out)).closed_view(now),
            final(self)@.well_formed(),
    {
        let ghost start = turn(*old(self), *old(out));
        self.tui = None;
        let ops = self.term.leave_alt();
        assert(turn(*self, *out) =~= (Turn {
            state: SessionView {
                tui: None,
                term: TermView { alt: false, ..start.state.term },
                ..start.state
            },
            ..start
        }));
        self.adjust(out, ops);
        self.catch_up(out, now);
    }

    /// Replays what arrived while the scrollback view was open.
    fn catch_up(&self, out: &mut Vec<Action>, now: Now)
        requires
            self@.well_formed(),
            now.wall.valid(),
        ensures
            turn(*self, *final(out)) == turn(*self, *old(out)).caught_up(now),
    {
        let missed = self.sb.since(self.tui_mark);
        let ghost views = scrollback::borrowed_views(missed@);
        assert forall|i: int| 0 <= i < missed@.len() implies (
        #[trigger] missed@[i]).at.valid() by {
            assert(views[i].at == missed@[i].at);
            assert(views[i] == self@.sb.lines[self@.sb.older_than(self@.tui_mark) + i]);
        }
        let skipped: usize = missed.len().saturating_sub(REPLAY_LIMIT);
        if skipped > 0 {
            let mut msg = String::new();
            text::push_decimal(&mut msg, skipped as u64);
            msg.append(" earlier lines omitted");
            assert(msg@ =~= text::decimal(skipped as nat) + " earlier lines omitted"@);
            self.note(out, msg.as_str(), "33", now);
        }
        let s = replay(missed.as_slice(), skipped, self.ts);
        self.write_out(out, s.as_str().as_bytes());
    }

    fn handle_tui_key(&mut self, out: &mut Vec<Action>, key: Key, now: Now)
        requires
            old(self)@.well_formed(),
            now.wall.valid(),
        ensures
            turn(*final(self), *final(out)) == turn(*old(self), *old(out)).keyed(key, now),
            final(self)@.well_formed(),
    {
        if self.tui.is_some() {
            let action = self.press(key);
            self.obey(out, action, now);
        }
    }

    fn press(&mut self, key: Key) -> (action: TuiAction)
        requires
            old(self)@.well_formed(),
            old(self)@.tui is Some,
        ensures
            ({
                let (after, asked) = old(self)@.tui->0.after_key(key, old(self)@.sb.lines);
                &&& final(self)@ == (SessionView { tui: Some(after), ..old(self)@ })
                &&& action == asked
            }),
            final(self)@.well_formed(),
    {
        let mut view = self.tui.take().unwrap();
        let action = view.on_key(key, &self.sb);
        self.tui = Some(view);
        assert(self@ =~= (SessionView { tui: Some(view@), ..old(self)@ }));
        action
    }

    fn obey(&mut self, out: &mut Vec<Action>, action: TuiAction, now: Now)
        requires
            old(self)@.well_formed(),
            now.wall.valid(),
        ensures
            turn(*final(self), *final(out)) == turn(*old(self), *old(out)).obeyed(action, now),
            final(self)@.well_formed(),
    {
        match action {
            TuiAction::Stay => self.redraw(out),
            TuiAction::Leave => self.leave_tui(out, now),
            TuiAction::Quit => {
                self.leave_tui(out, now);
                self.stop(out);
            },
        }
    }
}

/// A queue of bytes.
fn queue(data: &[u8]) -> (q: VecDeque<u8>)
    ensures
        q@ == data@,
{
    let mut q: VecDeque<u8> = VecDeque::new();
    let mut i: usize = 0;
    assert(q@ =~= data@.take(0));
    while i < data.len()
        invariant
            i <= data@.len(),
            q@ == data@.take(i as int),
        decreases data@.len() - i,
    {
        q.push_back(data[i]);
        i += 1;
        assert(q@ =~= data@.take(i as int));
    }
    assert(data@.take(data@.len() as int) =~= data@);
    q
}

fn push_help(s: &mut String, letter: char, what: &str)
    ensures
        final(s)@ == old(s)@ + help_line(seq![letter], what@),
{
    s.append("Ctrl-");
    s.push(letter);
    s.append(what);
    s.append("\r\n");
    assert(s@ =~= old(s)@ + help_line(seq![letter], what@));
}

/// The configuration that the command line asks for, for the port at `path`.
pub fn port_config(cli: &Cli, path: String) -> (r: Result<PortConfig, FrameError>)
    ensures
        match r {
            Ok(cfg) => cfg.path@ == path@ && cfg.baud == cli.baud && cfg.frame.read_from(
                cli.mode@,
            ),
            Err(e) => e.found_in(cli.mode@),
        },
{
    match FrameMode::parse(cli.mode.as_str()) {
        Ok(frame) => Ok(PortConfig { path, baud: cli.baud, frame }),
        Err(e) => Err(e),
    }
}

impl SessionView {
    /// A session with an open port, before anything has happened.
    pub open spec fn initial(
        cli: Cli,
        cfg: PortConfigView,
        identity: Option<Seq<char>>,
        log: Option<LogView>,
        dir: Seq<char>,
    ) -> SessionView {
        SessionView {
            cfg,
            term: TermView { raw: true, alt: false },
            connected: true,
            assembler: AssemblerView::initial(),
            sb: ScrollbackView::empty(cli.scrollback as nat),
            log,
            opening: None,
            log_format: cli.log_format,
            dir,
            identity,
            ts: cli.ts,
            escape: control_code(cli.escape),
            echo: cli.echo,
            reconnect: !cli.no_reconnect,
            strict_port: cli.strict_port,
            escape_pending: false,
            keys: Seq::empty(),
            tui: None,
            tui_mark: 0,
            rx_bytes: 0,
            next_try: RECONNECT_EVERY as nat,
            quit: false,
            intake: Intake::Idle,
            rest: Seq::empty(),
            to_port: Seq::empty(),
        }
    }
}

/// Begins a session on a port that is open already: its log file too, where there is
/// one. Opening comes first so that failures print as ordinary, readable errors.
pub fn run(
    cli: &Cli,
    cfg: PortConfig,
    identity: Option<String>,
    log: Option<LogWriter>,
    dir: String,
) -> (r: (Session, Vec<Action>))
    ensures
        r.0@.well_formed(),
        exists|now: Now|
            now.wall.valid() && (Turn { state: r.0@, actions: action_views(r.1@) })
                == #[trigger] SessionView::initial(
                *cli,
                cfg@,
                tui::opt_string(identity),
                opt_log(log),
                dir@,
            ).fresh().started(now),
{
    let mut s = Session::new(cli, cfg, identity, log, dir);
    let now = s.now();
    let out = s.start(now);
    (s, out)
}

impl Session {
    /// A session with an open port, before anything has happened.
    pub fn new(
        cli: &Cli,
        cfg: PortConfig,
        identity: Option<String>,
        log: Option<LogWriter>,
        dir: String,
    ) -> (s: Self)
        ensures
            s@ == SessionView::initial(
                *cli,
                cfg@,
                tui::opt_string(identity),
                opt_log(log),
                dir@,
            ),
            s@.well_formed(),
    {
        let (term, _) = TermGuard::new();
        let s = Session {
            cfg,
            term,
            connected: true,
            assembler: LineAssembler::new(),
            sb: Scrollback::new(cli.scrollback),
            log,
            opening: None,
            log_format: cli.log_format,
            dir,
            identity,
            ts: cli.ts,
            escape: ctrl_byte(cli.escape),
            echo: cli.echo,
            reconnect: !cli.no_reconnect,
            strict_port: cli.strict_port,
            escape_pending: false,
            keys: KeyDecoder::default(),
            tui: None,
            tui_mark: 0,
            rx_bytes: 0,
            next_try: RECONNECT_EVERY,
            quit: false,
            intake: Intake::Idle,
            rest: VecDeque::new(),
            to_port: Vec::new(),
        };
        assert(s@ =~= SessionView::initial(
            *cli,
            cfg@,
            tui::opt_string(identity),
            opt_log(log),
            dir@,
        ));
        s
    }

    /// Reads the clocks of this session.
    pub fn now(&self) -> (now: Now)
        ensures
            now.wall.valid(),
    {
        self.assembler.now()
    }

    /// Whether the session is over.
    pub fn quit(&self) -> (r: bool)
        ensures
            r == self@.quit,
    {
        self.quit
    }

    /// Bytes received so far.
    pub fn rx_bytes(&self) -> (n: u64)
        ensures
            n == self@.rx_bytes,
    {
        self.rx_bytes
    }

    /// The port in use.
    pub fn config(&self) -> (r: &PortConfig)
        ensures
            r@ == self@.cfg,
    {
        &self.cfg
    }

    /// Sets up the terminal and greets.
    pub fn start(&mut self, now: Now) -> (out: Vec<Action>)
        requires
            old(self)@.well_formed(),
            now.wall.valid(),
        ensures
            (Turn { state: final(self)@, actions: action_views(out@) })
                == old(self)@.fresh().started(now),
            final(self)@ == old(self)@,
    {
        let mut out: Vec<Action> = Vec::new();
        assert(turn(*self, out) =~= self@.fresh());
        let mut ops: Vec<TermOp> = Vec::new();
        ops.push(TermOp::EnableRawMode);
        assert(ops@ =~= seq![TermOp::EnableRawMode]);
        self.adjust(&mut out, ops);
        self.banner(&mut out, now);
        if let Some(l) = &self.log {
            let mut msg = "logging to ".to_owned();
            msg.append(l.path());
            self.note(&mut out, msg.as_str(), "36", now);
        }
        out
    }

    fn banner(&self, out: &mut Vec<Action>, now: Now)
        requires
            self@.well_formed(),
            now.wall.valid(),
        ensures
            turn(*self, *final(out)) == turn(*self, *old(out)).shown(
                encode_utf8(logo::raw_mode_text(logo::BANNER@) + "\r\n"@),
            ).noted(self@.welcome(), "36"@, now).shown(seq![timestamps::CR, timestamps::LF]),
    {
        let art = logo::banner();
        self.show(out, art.as_str().as_bytes());
        let e = escape_name(self.escape);
        let mut msg = self.cfg.path.clone();
        msg.append(" · ");
        msg.append(baud_label(self.cfg.baud).as_str());
        msg.append(" ");
        msg.append(self.cfg.frame.to_string().as_str());
        msg.append(" · Ctrl-");
        msg.push(e);
        msg.append(" q to quit, Ctrl-");
        msg.push(e);
        msg.append(" ? for help");
        assert(msg@ =~= self@.welcome());
        self.note(out, msg.as_str(), "36", now);
        let mut gap: Vec<u8> = Vec::new();
        gap.push(timestamps::CR);
        gap.push(timestamps::LF);
        assert(gap@ =~= seq![timestamps::CR, timestamps::LF]);
        self.show(out, gap.as_slice());
    }

    /// Takes in an event. Device output is stamped as it is taken in; everything else
    /// happens at `now`. Input is only queued: `next_input` takes it in, all of it
    /// before there is more.
    pub fn handle(&mut self, ev: Event, now: Now) -> (out: Vec<Action>)
        requires
            old(self)@.well_formed(),
            now.wall.valid(),
            ev matches Event::Rx(data) ==> old(self)@.rx_bytes + data@.len() <= u64::MAX,
            ev is Stdin ==> old(self)@.intake == Intake::Idle,
        ensures
            exists|times: Seq<Now>|
                timestamps::printable(times) && (ev matches Event::Rx(data) ==> times.len()
                    == data@.len()) && (Turn {
                    state: final(self)@,
                    actions: action_views(out@),
                }) == #[trigger] old(self)@.fresh().handled(ev, now, times),
            final(self)@.well_formed(),
    {
        let mut out: Vec<Action> = Vec::new();
        let ghost start = old(self)@.fresh();
        assert(turn(*self, out) =~= start);
        let ghost mut times: Seq<Now> = Seq::empty();
        match ev {
            Event::Rx(data) => {
                self.on_rx(&mut out, data.as_slice());
                proof {
                    times = choose|times: Seq<Now>|
                        times.len() == data@.len() && timestamps::printable(times) && turn(
                            *self,
                            out,
                        ) == #[trigger] start.received(data@, times);
                }
            },
            Event::Disconnected(reason) => self.on_disconnect(&mut out, reason.as_str(), now),
            Event::Stdin(data) => self.on_stdin(data),
            Event::Tick => self.on_tick(&mut out, now),
            Event::Signal(signal) => self.on_signal(&mut out, signal, now),
        }
        assert(turn(*self, out) == start.handled(ev, now, times));
        out
    }

    /// Takes in the next piece of the input, if there is one. Once there is none, the
    /// session is ready for more.
    pub fn next_input(&mut self, now: Now) -> (r: Option<Vec<Action>>)
        requires
            old(self)@.well_formed(),
            now.wall.valid(),
        ensures
            ({
                let (t, more) = old(self)@.fresh().taken(now);
                &&& final(self)@ == t.state
                &&& r is Some <==> more
                &&& r matches Some(out) ==> action_views(out@) == t.actions
            }),
            r is None ==> final(self)@.intake == Intake::Idle,
            final(self)@.well_formed(),
    {
        match self.intake {
            Intake::Idle => None,
            Intake::Browsing => self.next_key(now),
            Intake::Typing => Some(self.next_typed(now)),
        }
    }

    fn next_key(&mut self, now: Now) -> (r: Option<Vec<Action>>)
        requires
            old(self)@.well_formed(),
            now.wall.valid(),
        ensures
            ({
                let (t, more) = old(self)@.fresh().next_key(now);
                &&& final(self)@ == t.state
                &&& r is Some <==> more
                &&& r matches Some(out) ==> action_views(out@) == t.actions
            }),
            final(self)@.well_formed(),
    {
        let ghost start = old(self)@;
        match self.keys.next_key() {
            None => {
                self.intake = Intake::Idle;
                assert(self@ =~= (SessionView { intake: Intake::Idle, ..start }));
                None
            },
            Some(key) => {
                let mut out: Vec<Action> = Vec::new();
                assert(turn(*self, out) =~= (Turn {
                    state: SessionView { keys: self@.keys, ..start },
                    actions: Seq::empty(),
                }));
                self.handle_tui_key(&mut out, key, now);
                self.keep_browsing(&out);
                Some(out)
            },
        }
    }

    fn keep_browsing(&mut self, out: &Vec<Action>)
        requires
            old(self)@.well_formed(),
        ensures
            turn(*final(self), *out) == turn(*old(self), *out).browsing(),
            final(self)@.well_formed(),
    {
        if self.tui.is_some() {
            self.intake = Intake::Browsing;
        } else if self.quit {
            self.intake = Intake::Idle;
        } else {
            // Left the scrollback view; the rest is ordinary input.
            let left = self.keys.take_all();
            self.rest = queue(left.as_slice());
            self.to_port = Vec::new();
            self.intake = Intake::Typing;
        }
        assert(turn(*self, *out) =~= turn(*old(self), *out).browsing());
    }

    fn next_typed(&mut self, now: Now) -> (out: Vec<Action>)
        requires
            old(self)@.well_formed(),
            now.wall.valid(),
        ensures
            (Turn { state: final(self)@, actions: action_views(out@) })
                == old(self)@.fresh().next_typed(now),
            final(self)@.well_formed(),
    {
        let ghost start = old(self)@.fresh();
        let mut out: Vec<Action> = Vec::new();
        match self.rest.pop_front() {
            None => {
                assert(turn(*self, out) =~= start);
                self.finish_typing(&mut out, now);
            },
            Some(b) => {
                assert(turn(*self, out) =~= (Turn {
                    state: SessionView { rest: start.state.rest.skip(1), ..start.state },
                    ..start
                }));
                self.type_byte(&mut out, b, now);
            },
        }
        out
    }

    fn finish_typing(&mut self, out: &mut Vec<Action>, now: Now)
        requires
            old(self)@.well_formed(),
            now.wall.valid(),
        ensures
            turn(*final(self), *final(out)) == turn(*old(self), *old(out)).typing_done(now),
            final(self)@.well_formed(),
    {
        let ghost start = turn(*old(self), *old(out));
        let mut data: Vec<u8> = Vec::new();
        std::mem::swap(&mut data, &mut self.to_port);
        self.intake = Intake::Idle;
        assert(turn(*self, *out) =~= (Turn {
            state: SessionView { intake: Intake::Idle, to_port: Seq::empty(), ..start.state },
            ..start
        }));
        if data.len() > 0 {
            self.send(out, data, now);
        }
    }

    /// The port could not be written to.
    pub fn write_failed(&mut self, reason: &str, now: Now) -> (out: Vec<Action>)
        requires
            old(self)@.well_formed(),
            now.wall.valid(),
        ensures
            (Turn { state: final(self)@, actions: action_views(out@) })
                == old(self)@.fresh().disconnected(reason@, now),
            final(self)@.well_formed(),
    {
        let mut out: Vec<Action> = Vec::new();
        assert(turn(*self, out) =~= old(self)@.fresh());
        self.on_disconnect(&mut out, reason, now);
        out
    }

    /// The log file asked for was created, or could not be.
    pub fn log_ready(&mut self, created: bool, now: Now) -> (out: Vec<Action>)
        requires
            old(self)@.well_formed(),
            now.wall.valid(),
        ensures
            (Turn { state: final(self)@, actions: action_views(out@) })
                == old(self)@.fresh().log_ready(created, now),
            final(self)@.well_formed(),
    {
        let mut out: Vec<Action> = Vec::new();
        assert(turn(*self, out) =~= old(self)@.fresh());
        if self.opening.is_some() {
            if created {
                self.begin_log(&mut out, now);
            } else {
                self.refuse_log(&mut out, now);
            }
        }
        out
    }

    fn begin_log(&mut self, out: &mut Vec<Action>, now: Now)
        requires
            old(self)@.well_formed(),
            old(self)@.opening is Some,
            now.wall.valid(),
        ensures
            turn(*final(self), *final(out)) == turn(*old(self), *old(out)).log_begun(
                old(self)@.opening->0,
                now,
            ),
            final(self)@.well_formed(),
    {
        let ghost start = turn(*old(self), *old(out));
        let log = self.opening.take().unwrap();
        let mut msg = "logging to ".to_owned();
        msg.append(log.path());
        self.log = Some(log);
        assert(turn(*self, *out) =~= (Turn {
            state: SessionView { log: Some(log@), opening: None, ..start.state },
            ..start
        }));
        self.note(out, msg.as_str(), "36", now);
    }

    fn refuse_log(&mut self, out: &mut Vec<Action>, now: Now)
        requires
            old(self)@.well_formed(),
            old(self)@.opening is Some,
            now.wall.valid(),
        ensures
            turn(*final(self), *final(out)) == turn(*old(self), *old(out)).log_refused(
                old(self)@.opening->0,
                now,
            ),
            final(self)@.well_formed(),
    {
        let ghost start = turn(*old(self), *old(out));
        let log = self.opening.take().unwrap();
        let mut msg = "cannot start log: ".to_owned();
        msg.append(log.create_error().as_str());
        assert(turn(*self, *out) =~= (Turn {
            state: SessionView { opening: None, ..start.state },
            ..start
        }));
        self.note(out, msg.as_str(), "31", now);
    }

    /// Where to look for the device: the configuration to open, if it is there.
    /// `exists_now` tells whether the path in use is there, and `entries` which
    /// devices are.
    pub fn find_target(&self, exists_now: bool, entries: &[(String, String)]) -> (r: Option<
        PortConfig,
    >)
        ensures
            match serial::reconnect_target(
                self@.cfg.path,
                exists_now,
                self@.identity,
                ports::pairs(entries@),
                self@.strict_port,
            ) {
                Some(path) => r matches Some(cfg) && cfg@ == (PortConfigView {
                    path,
                    ..self@.cfg
                }),
                None => r is None,
            },
    {
        let identity: Option<&str> = match &self.identity {
            Some(id) => Some(id.as_str()),
            None => None,
        };
        match serial::find_reconnect_target(
            self.cfg.path.as_str(),
            exists_now,
            identity,
            entries,
            self.strict_port,
        ) {
            Some(path) => Some(
                PortConfig { path, baud: self.cfg.baud, frame: self.cfg.frame },
            ),
            None => None,
        }
    }

    /// The device was opened again, at `path`.
    pub fn reconnected(&mut self, path: String, identity: Option<String>, now: Now) -> (out: Vec<
        Action,
    >)
        requires
            old(self)@.well_formed(),
            now.wall.valid(),
        ensures
            (Turn { state: final(self)@, actions: action_views(out@) })
                == old(self)@.fresh().reconnected(path@, tui::opt_string(identity), now),
            final(self)@.well_formed(),
    {
        let ghost start = old(self)@.fresh();
        let mut out: Vec<Action> = Vec::new();
        let same = text::same_text(path.as_str(), self.cfg.path.as_str());
        let mut msg = "reconnected".to_owned();
        if !same {
            msg = "reconnected as ".to_owned();
            msg.append(path.as_str());
        }
        self.cfg.path = path;
        if identity.is_some() {
            self.identity = identity;
        }
        self.connected = true;
        assert(turn(*self, out) =~= (Turn {
            state: SessionView {
                cfg: PortConfigView { path: path@, ..start.state.cfg },
                identity: if tui::opt_string(identity) is Some {
                    tui::opt_string(identity)
                } else {
                    start.state.identity
                },
                connected: true,
                ..start.state
            },
            ..start
        }));
        self.note(&mut out, msg.as_str(), "32", now);
        out
    }

    /// Lays out the scrollback view in a frame of the given size, if it is open.
    pub fn draw(&mut self, body_width: u16, body_height: u16, now: Now) -> (r: Option<Screen>)
        requires
            old(self)@.well_formed(),
        ensures
            match old(self)@.tui {
                None => r is None && final(self)@ == old(self)@,
                Some(view) => {
                    &&& r matches Some(screen)
                    &&& screen@ == view.screen(
                        old(self)@.sb,
                        old(self)@.assembler.cur,
                        old(self)@.status(now),
                        body_width,
                        body_height,
                    )
                    &&& final(self)@ == (SessionView {
                        tui: Some(view.settled(old(self)@.sb.lines)),
                        ..old(self)@
                    })
                },
            },
            final(self)@.well_formed(),
    {
        match self.tui.take() {
            None => {
                assert(self@ =~= old(self)@);
                None
            },
            Some(mut view) => {
                let status = self.status(now);
                let screen = view.draw(
                    &self.sb,
                    self.assembler.partial(),
                    &status,
                    body_width,
                    body_height,
                );
                self.tui = Some(view);
                assert(self@ =~= (SessionView {
                    tui: Some(old(self)@.tui->0.settled(old(self)@.sb.lines)),
                    ..old(self)@
                }));
                Some(screen)
            },
        }
    }

    /// Takes note of the height of the terminal once the scrollback view is drawn.
    pub fn drawn(&mut self, screen_height: Option<u16>)
        ensures
            final(self)@ == (SessionView {
                tui: match old(self)@.tui {
                    None => None,
                    Some(view) => Some(
                        TuiView { page: tui::page_length(screen_height), ..view },
                    ),
                },
                ..old(self)@
            }),
    {
        match self.tui.take() {
            None => {},
            Some(mut view) => {
                view.drawn(screen_height);
                self.tui = Some(view);
            },
        }
        assert(self@ =~= (SessionView {
            tui: match old(self)@.tui {
                None => None,
                Some(view) => Some(TuiView { page: tui::page_length(screen_height), ..view }),
            },
            ..old(self)@
        }));
    }

    fn status(&self, now: Now) -> (r: TuiStatus)
        ensures
            r@ == self@.status(now),
    {
        let logging: Option<String> = match &self.log {
            Some(l) => Some(l.path().to_owned()),
            None => None,
        };
        let r = TuiStatus {
            port: self.cfg.path.clone(),
            baud: baud_label(self.cfg.baud),
            frame: self.cfg.frame.to_string(),
            connected: self.connected,
            rx_bytes: self.rx_bytes,
            ts: self.ts,
            logging,
            uptime: timestamps::format_duration(now.mono / clock::NANOS),
        };
        assert(r@ =~= self@.status(now));
        r
    }

    /// Ends the session: the port is released, the log is closed off and the terminal
    /// is put back.
    pub fn shutdown(&mut self, now: Now) -> (out: Vec<Action>)
        requires
            old(self)@.well_formed(),
            now.wall.valid(),
        ensures
            (Turn { state: final(self)@, actions: action_views(out@) })
                == old(self)@.fresh().ended(now),
            final(self)@.well_formed(),
    {
        let ghost start = old(self)@.fresh();
        let mut out: Vec<Action> = Vec::new();
        let was_connected = self.connected;
        let ops = self.term.leave_alt();
        self.connected = false;
        assert(turn(*self, out) =~= (Turn {
            state: SessionView {
                term: TermView { alt: false, ..start.state.term },
                connected: false,
                ..start.state
            },
            ..start
        }));
        self.adjust(&mut out, ops);
        let ghost left = turn(*self, out);
        if was_connected {
            push_action(&mut out, Action::ClosePort);
            assert(turn(*self, out) =~= left.act(ActionView::ClosePort));
        }
        self.record(&mut out, "session ended", now);
        let ghost noted = turn(*self, out);
        let ops = term::restore(&mut self.term);
        assert(turn(*self, out) =~= (Turn {
            state: SessionView { term: TermView { raw: false, alt: false }, ..noted.state },
            ..noted
        }));
        self.adjust(&mut out, ops);
        out
    }
}

} // verus!
