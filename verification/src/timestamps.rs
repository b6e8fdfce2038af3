//! Device output cut into lines, with a timestamp in front of each.
use crate::cli::TsMode;
use crate::clock::{Clock, Elapsed, Now};
use crate::scrollback;
use crate::scrollback::{Line, LineView};
use crate::text;
use vstd::prelude::*;
use vstd::utf8::*;

verus! {

/// Switches to the colour that timestamps are printed in.
pub const DIM: &'static str = "\x1b[90m";

/// Switches back to the default colour.
pub const UNDIM: &'static str = "\x1b[39m";

/// Carriage return.
pub const CR: u8 = 0x0d;

/// Line feed.
pub const LF: u8 = 0x0a;

/// What a chunk of device output comes to.
#[derive(Debug)]
pub struct Feed {
    /// Bytes to write to the terminal, timestamp prefixes included.
    pub out: Vec<u8>,
    /// Lines completed by this chunk.
    pub lines: Vec<Line>,
}

impl Default for Feed {
    fn default() -> (f: Self)
        ensures
            f.out@ == Seq::<u8>::empty(),
            f.lines@ == Seq::<Line>::empty(),
    {
        Feed { out: Vec::new(), lines: Vec::new() }
    }
}

/// Where a line stands inside an escape sequence, so escapes can be told from
/// anything the reader would actually see.
#[derive(Copy, Clone, Debug, PartialEq, Eq, Structural)]
pub enum Esc {
    Outside,
    Start,
    Csi,
    Osc,
    OscTerminator,
}

/// Where the line stands after `b`.
pub open spec fn advanced(state: Esc, b: u8) -> Esc {
    match state {
        Esc::Outside => if b == 0x1b {
            Esc::Start
        } else {
            Esc::Outside
        },
        Esc::Start => if b == 0x5b {
            Esc::Csi
        } else if b == 0x5d || b == 0x50 || b == 0x58 || b == 0x5e || b == 0x5f {
            Esc::Osc
        } else {
            Esc::Outside
        },
        Esc::Csi => if 0x40 <= b <= 0x7e {
            Esc::Outside
        } else {
            Esc::Csi
        },
        Esc::Osc => if b == 0x07 {
            Esc::Outside
        } else if b == 0x1b {
            Esc::OscTerminator
        } else {
            Esc::Osc
        },
        Esc::OscTerminator => if b == 0x5c {
            Esc::Outside
        } else {
            Esc::Osc
        },
    }
}

/// Steps through an escape sequence.
pub fn advance(state: Esc, b: u8) -> (r: Esc)
    ensures
        r == advanced(state, b),
{
    match state {
        Esc::Outside => if b == 0x1b {
            Esc::Start
        } else {
            Esc::Outside
        },
        Esc::Start => match b {
            0x5b => Esc::Csi,
            0x5d | 0x50 | 0x58 | 0x5e | 0x5f => Esc::Osc,
            _ => Esc::Outside,
        },
        Esc::Csi => if 0x40 <= b && b <= 0x7e {
            Esc::Outside
        } else {
            Esc::Csi
        },
        Esc::Osc => match b {
            0x07 => Esc::Outside,
            0x1b => Esc::OscTerminator,
            _ => Esc::Osc,
        },
        Esc::OscTerminator => if b == 0x5c {
            Esc::Outside
        } else {
            Esc::Osc
        },
    }
}

/// The state of a line assembler.
#[verifier::ext_equal]
pub struct AssemblerView {
    /// The unfinished line
    pub cur: Seq<u8>,
    /// Nothing of the line was shown yet
    pub at_line_start: bool,
    /// A carriage return is held back
    pub pending_cr: bool,
    /// Escape bytes held back until something visible follows
    pub pending_esc: Seq<u8>,
    pub esc: Esc,
    /// When the previous line began
    pub prev_line: u64,
    /// When the unfinished line began
    pub line_started: Option<Now>,
}

/// An assembler together with what it has produced.
#[verifier::ext_equal]
pub struct Progress {
    pub state: AssemblerView,
    pub out: Seq<u8>,
    pub lines: Seq<LineView>,
}

impl AssemblerView {
    /// The state before anything was received.
    pub open spec fn initial() -> AssemblerView {
        AssemblerView {
            cur: Seq::empty(),
            at_line_start: true,
            pending_cr: false,
            pending_esc: Seq::empty(),
            esc: Esc::Outside,
            prev_line: 0,
            line_started: None,
        }
    }

    pub open spec fn well_formed(self) -> bool {
        &&& self.pending_esc.len() > 0 ==> self.at_line_start
        &&& self.line_started matches Some(t) ==> t.wall.valid()
        &&& forall|i: int|
            0 <= i < self.cur.len() ==> #[trigger] self.cur[i] != CR && self.cur[i] != LF
    }

    /// Whether the device has written something it has not terminated yet.
    pub open spec fn mid_line(self) -> bool {
        !self.at_line_start || self.pending_cr
    }

    /// Nothing produced yet.
    pub open spec fn fresh(self) -> Progress {
        Progress { state: self, out: Seq::empty(), lines: Seq::empty() }
    }

    /// The line that ends now: the time is the one it began at, or the present one
    /// when nothing of it was shown.
    pub open spec fn line(self, now: Now) -> LineView {
        let t = self.begun(now);
        LineView {
            raw: self.cur,
            at: t.wall,
            rel: Elapsed { nanos: t.mono },
            delta: self.gap(t),
        }
    }

    /// The time at which the current line began.
    pub open spec fn begun(self, now: Now) -> Now {
        match self.line_started {
            Some(t) => t,
            None => now,
        }
    }

    /// The time from the previous line to `t`.
    pub open spec fn gap(self, t: Now) -> Elapsed {
        Elapsed {
            nanos: if t.mono >= self.prev_line {
                (t.mono - self.prev_line) as u64
            } else {
                0
            },
        }
    }

    /// The timestamp in front of a line that begins now, colours included.
    pub open spec fn stamp(self, ts: TsMode, now: Now) -> Seq<u8> {
        if ts == TsMode::Off {
            Seq::empty()
        } else {
            let stub = LineView {
                raw: Seq::empty(),
                at: now.wall,
                rel: Elapsed { nanos: now.mono },
                delta: self.gap(now),
            };
            encode_utf8(DIM@) + encode_utf8(stub.prefix(ts)) + encode_utf8(UNDIM@)
        }
    }
}

impl Progress {
    /// Held escapes are written out.
    pub open spec fn released(self) -> Progress {
        Progress {
            out: self.out + self.state.pending_esc,
            state: AssemblerView { pending_esc: Seq::empty(), ..self.state },
            ..self
        }
    }

    /// The line ends: held escapes and a line break are written, and the line is
    /// handed on.
    pub open spec fn ended(self, now: Now) -> Progress {
        let r = self.released();
        Progress {
            out: r.out + seq![CR, LF],
            lines: r.lines.push(r.state.line(now)),
            state: AssemblerView {
                cur: Seq::empty(),
                at_line_start: true,
                prev_line: r.state.begun(now).mono,
                line_started: None,
                ..r.state
            },
        }
    }

    /// A lone carriage return starts the line over: what it held is dropped.
    pub open spec fn restarted(self) -> Progress {
        let r = self.released();
        Progress {
            out: r.out + seq![CR],
            state: AssemblerView {
                cur: Seq::empty(),
                at_line_start: true,
                line_started: None,
                ..r.state
            },
            ..r
        }
    }

    /// A byte that ends no line.
    pub open spec fn shown(self, b: u8, ts: TsMode, now: Now) -> Progress {
        let inside = self.state.esc != Esc::Outside || b == 0x1b;
        let state = AssemblerView {
            esc: advanced(self.state.esc, b),
            cur: self.state.cur.push(b),
            ..self.state
        };
        if self.state.at_line_start && inside {
            Progress {
                state: AssemblerView { pending_esc: state.pending_esc.push(b), ..state },
                ..self
            }
        } else if self.state.at_line_start {
            Progress {
                out: self.out + self.state.stamp(ts, now) + state.pending_esc.push(b),
                state: AssemblerView {
                    at_line_start: false,
                    line_started: Some(now),
                    pending_esc: Seq::empty(),
                    ..state
                },
                ..self
            }
        } else {
            Progress { out: self.out.push(b), state, ..self }
        }
    }

    /// A byte when no carriage return is held.
    pub open spec fn plain_step(self, b: u8, ts: TsMode, now: Now) -> Progress {
        if b == CR {
            Progress { state: AssemblerView { pending_cr: true, ..self.state }, ..self }
        } else if b == LF {
            self.ended(now)
        } else {
            self.shown(b, ts, now)
        }
    }

    /// One byte of device output.
    pub open spec fn step(self, b: u8, ts: TsMode, now: Now) -> Progress {
        if self.state.pending_cr {
            let p = Progress { state: AssemblerView { pending_cr: false, ..self.state }, ..self };
            if b == LF {
                p.ended(now)
            } else {
                p.restarted().plain_step(b, ts, now)
            }
        } else {
            self.plain_step(b, ts, now)
        }
    }

    /// A chunk of device output, byte by byte, each at its own time.
    pub open spec fn feed(self, data: Seq<u8>, ts: TsMode, times: Seq<Now>) -> Progress
        decreases data.len(),
    {
        if data.len() == 0 {
            self
        } else {
            self.feed(data.drop_last(), ts, times).step(
                data.last(),
                ts,
                times[data.len() - 1],
            )
        }
    }

    /// The device went quiet: what was held back is written out. A line whose
    /// escapes go out this way gets no timestamp any more.
    pub open spec fn flushed(self, now: Now) -> Progress {
        let p = if self.state.pending_esc.len() > 0 {
            let r = self.released();
            Progress {
                state: AssemblerView { at_line_start: false, line_started: Some(now), ..r.state },
                ..r
            }
        } else {
            self
        };
        if p.state.pending_cr {
            let q = Progress { state: AssemblerView { pending_cr: false, ..p.state }, ..p };
            q.restarted()
        } else {
            p
        }
    }
}

/// Whether all of `times` can be printed.
pub open spec fn printable(times: Seq<Now>) -> bool {
    forall|i: int| 0 <= i < times.len() ==> (#[trigger] times[i]).wall.valid()
}

/// The same time, `n` times over.
pub open spec fn throughout(now: Now, n: nat) -> Seq<Now> {
    Seq::new(n, |i: int| now)
}

/// Splits the incoming byte stream into lines and injects timestamp prefixes
/// without disturbing the escape sequences the device emits.
pub struct LineAssembler {
    cur: Vec<u8>,
    at_line_start: bool,
    pending_cr: bool,
    pending_esc: Vec<u8>,
    esc: Esc,
    clock: Clock,
    prev_line: u64,
    line_started: Option<Now>,
}

impl View for LineAssembler {
    type V = AssemblerView;

    closed spec fn view(&self) -> AssemblerView {
        AssemblerView {
            cur: self.cur@,
            at_line_start: self.at_line_start,
            pending_cr: self.pending_cr,
            pending_esc: self.pending_esc@,
            esc: self.esc,
            prev_line: self.prev_line,
            line_started: self.line_started,
        }
    }
}

/// An assembler and the feed it fills.
spec fn progress(state: LineAssembler, f: Feed) -> Progress {
    Progress { state: state@, out: f.out@, lines: scrollback::line_views(f.lines@) }
}

impl LineAssembler {
    pub fn new() -> (r: Self)
        ensures
            r@ == AssemblerView::initial(),
            r@.well_formed(),
    {
        let r = LineAssembler {
            cur: Vec::with_capacity(256),
            at_line_start: true,
            pending_cr: false,
            pending_esc: Vec::new(),
            esc: Esc::Outside,
            clock: Clock::start(),
            prev_line: 0,
            line_started: None,
        };
        assert(r@ =~= AssemblerView::initial());
        r
    }

    /// Reads the clocks of this assembler.
    pub fn now(&self) -> (now: Now)
        ensures
            now.wall.valid(),
    {
        self.clock.read()
    }

    pub fn partial(&self) -> (r: &[u8])
        ensures
            r@ == self@.cur,
    {
        self.cur.as_slice()
    }

    /// True when the device has written something it has not terminated yet.
    pub fn mid_line(&self) -> (r: bool)
        ensures
            r == self@.mid_line(),
    {
        !self.at_line_start || self.pending_cr
    }

    /// Takes in a chunk that arrives now. Lines are stamped with the time at which
    /// their first visible byte is taken in.
    pub fn feed(&mut self, data: &[u8], ts: TsMode) -> (f: Feed)
        requires
            old(self)@.well_formed(),
        ensures
            exists|times: Seq<Now>|
                times.len() == data@.len() && printable(times) && (Progress {
                    state: final(self)@,
                    out: f.out@,
                    lines: scrollback::line_views(f.lines@),
                }) == #[trigger] old(self)@.fresh().feed(data@, ts, times),
            final(self)@.well_formed(),
    {
        let mut f = Feed { out: Vec::new(), lines: Vec::new() };
        let mut now = self.now();
        let mut i: usize = 0;
        let ghost mut times: Seq<Now> = Seq::empty();
        assert(progress(*self, f) =~= old(self)@.fresh());
        while i < data.len()
            invariant
                i <= data@.len(),
                now.wall.valid(),
                times.len() == i,
                printable(times),
                self@.well_formed(),
                progress(*self, f) == old(self)@.fresh().feed(data@.take(i as int), ts, times),
            decreases data@.len() - i,
        {
            if self.at_line_start || self.pending_cr || data[i] == LF {
                now = self.now();
            }
            self.feed_byte(&mut f, data[i], ts, now);
            proof {
                lemma_later_times(old(self)@.fresh(), data@.take(i as int), ts, times, now);
                times = times.push(now);
            }
            assert(data@.take(i + 1).drop_last() =~= data@.take(i as int));
            i += 1;
        }
        assert(data@.take(data@.len() as int) =~= data@);
        f
    }

    /// Takes in a chunk that arrived at `now`.
    pub fn feed_at(&mut self, data: &[u8], ts: TsMode, now: Now) -> (f: Feed)
        requires
            old(self)@.well_formed(),
            now.wall.valid(),
        ensures
            (Progress {
                state: final(self)@,
                out: f.out@,
                lines: scrollback::line_views(f.lines@),
            }) == old(self)@.fresh().feed(data@, ts, throughout(now, data@.len())),
            final(self)@.well_formed(),
    {
        let mut f = Feed { out: Vec::new(), lines: Vec::new() };
        let ghost times = throughout(now, data@.len());
        let mut i: usize = 0;
        assert(progress(*self, f) =~= old(self)@.fresh());
        while i < data.len()
            invariant
                i <= data@.len(),
                now.wall.valid(),
                times == throughout(now, data@.len()),
                self@.well_formed(),
                progress(*self, f) == old(self)@.fresh().feed(data@.take(i as int), ts, times),
            decreases data@.len() - i,
        {
            self.feed_byte(&mut f, data[i], ts, now);
            assert(data@.take(i + 1).drop_last() =~= data@.take(i as int));
            assert(times[i as int] == now);
            i += 1;
        }
        assert(data@.take(data@.len() as int) =~= data@);
        f
    }

    fn feed_byte(&mut self, f: &mut Feed, b: u8, ts: TsMode, now: Now)
        requires
            old(self)@.well_formed(),
            now.wall.valid(),
        ensures
            progress(*final(self), *final(f)) == progress(*old(self), *old(f)).step(b, ts, now),
            final(self)@.well_formed(),
    {
        let ghost start = progress(*self, *f);
        if self.pending_cr {
            self.pending_cr = false;
            if b == LF {
                self.end_line(f, now);
                return;
            }
            // Lone CR: the device is redrawing the current line in place.
            self.restart_line(f);
        }
        if b == CR {
            self.pending_cr = true;
        } else if b == LF {
            // Raw mode has no ONLCR, so carriage returns are ours to add.
            self.end_line(f, now);
        } else {
            self.show(f, b, ts, now);
        }
        assert(progress(*self, *f) =~= start.step(b, ts, now));
    }

    fn show(&mut self, f: &mut Feed, b: u8, ts: TsMode, now: Now)
        requires
            old(self)@.well_formed(),
            now.wall.valid(),
            b != CR,
            b != LF,
        ensures
            progress(*final(self), *final(f)) == progress(*old(self), *old(f)).shown(b, ts, now),
            final(self)@.well_formed(),
    {
        let inside = self.esc != Esc::Outside || b == 0x1b;
        self.esc = advance(self.esc, b);
        self.cur.push(b);
        if self.at_line_start && inside {
            // Nothing visible yet: a line that turns out to hold only escapes gets
            // no timestamp at all.
            self.pending_esc.push(b);
        } else {
            if self.at_line_start {
                self.begin_line(f, ts, now);
                self.release_escapes(f);
            }
            f.out.push(b);
        }
        assert(progress(*self, *f) =~= progress(*old(self), *old(f)).shown(b, ts, now));
    }

    /// Writes out escapes that were being held for a timestamp that will never
    /// come, because the line ended without showing anything.
    fn release_escapes(&mut self, f: &mut Feed)
        ensures
            progress(*final(self), *final(f)) == progress(*old(self), *old(f)).released(),
    {
        f.out.extend_from_slice(self.pending_esc.as_slice());
        self.pending_esc.clear();
        assert(progress(*self, *f) =~= progress(*old(self), *old(f)).released());
    }

    fn end_line(&mut self, f: &mut Feed, now: Now)
        requires
            old(self)@.well_formed(),
            now.wall.valid(),
        ensures
            progress(*final(self), *final(f)) == progress(*old(self), *old(f)).ended(now),
            final(self)@.well_formed(),
    {
        self.release_escapes(f);
        f.out.push(CR);
        f.out.push(LF);
        self.finish_line(f, now);
        assert(progress(*self, *f) =~= progress(*old(self), *old(f)).ended(now));
    }

    fn restart_line(&mut self, f: &mut Feed)
        requires
            old(self)@.well_formed(),
        ensures
            progress(*final(self), *final(f)) == progress(*old(self), *old(f)).restarted(),
            final(self)@.well_formed(),
    {
        self.release_escapes(f);
        f.out.push(CR);
        self.cur.clear();
        self.at_line_start = true;
        self.line_started = None;
        assert(progress(*self, *f) =~= progress(*old(self), *old(f)).restarted());
    }

    /// Emits a CR that was held back waiting to see whether an LF follows, and any
    /// escapes still waiting on a line that has gone quiet.
    pub fn flush_pending(&mut self) -> (f: Feed)
        requires
            old(self)@.well_formed(),
        ensures
            exists|now: Now|
                now.wall.valid() && (Progress {
                    state: final(self)@,
                    out: f.out@,
                    lines: scrollback::line_views(f.lines@),
                }) == #[trigger] old(self)@.fresh().flushed(now),
            final(self)@.well_formed(),
    {
        let now = self.now();
        self.flush_pending_at(now)
    }

    /// Emits what was held back, at `now`.
    pub fn flush_pending_at(&mut self, now: Now) -> (f: Feed)
        requires
            old(self)@.well_formed(),
            now.wall.valid(),
        ensures
            (Progress {
                state: final(self)@,
                out: f.out@,
                lines: scrollback::line_views(f.lines@),
            }) == old(self)@.fresh().flushed(now),
            final(self)@.well_formed(),
    {
        let mut f = Feed { out: Vec::new(), lines: Vec::new() };
        assert(progress(*self, f) =~= old(self)@.fresh());
        if self.pending_esc.len() > 0 {
            self.release_escapes(&mut f);
            // The prefix can no longer go ahead of these, and printing it after them
            // would recolour the device's own text. Skip it for this line.
            self.at_line_start = false;
            self.line_started = Some(now);
        }
        if self.pending_cr {
            self.pending_cr = false;
            self.restart_line(&mut f);
        }
        assert(progress(*self, f) =~= old(self)@.fresh().flushed(now));
        f
    }

    fn begin_line(&mut self, f: &mut Feed, ts: TsMode, now: Now)
        requires
            now.wall.valid(),
        ensures
            final(self)@ == (AssemblerView {
                at_line_start: false,
                line_started: Some(now),
                ..old(self)@
            }),
            final(f).out@ == old(f).out@ + old(self)@.stamp(ts, now),
            final(f).lines == old(f).lines,
    {
        self.at_line_start = false;
        self.line_started = Some(now);
        if ts == TsMode::Off {
            assert(f.out@ =~= old(f).out@ + old(self)@.stamp(ts, now));
            return;
        }
        let stub = Line {
            raw: Vec::new(),
            at: now.wall,
            rel: Elapsed { nanos: now.mono },
            delta: Elapsed { nanos: now.mono.saturating_sub(self.prev_line) },
        };
        f.out.extend_from_slice(DIM.as_bytes());
        let prefix = stub.prefix(ts);
        f.out.extend_from_slice(prefix.as_str().as_bytes());
        f.out.extend_from_slice(UNDIM.as_bytes());
        assert(stub@ =~= LineView {
            raw: Seq::empty(),
            at: now.wall,
            rel: Elapsed { nanos: now.mono },
            delta: old(self)@.gap(now),
        });
        assert(f.out@ =~= old(f).out@ + old(self)@.stamp(ts, now));
    }

    fn finish_line(&mut self, f: &mut Feed, now: Now)
        requires
            now.wall.valid(),
        ensures
            progress(*final(self), *final(f)) == (Progress {
                out: old(f).out@,
                lines: scrollback::line_views(old(f).lines@).push(old(self)@.line(now)),
                state: AssemblerView {
                    cur: Seq::empty(),
                    at_line_start: true,
                    prev_line: old(self)@.begun(now).mono,
                    line_started: None,
                    ..old(self)@
                },
            }),
    {
        let started: Now = match self.line_started {
            Some(t) => t,
            None => now,
        };
        let mut raw: Vec<u8> = Vec::new();
        std::mem::swap(&mut raw, &mut self.cur);
        let line = Line {
            raw,
            at: started.wall,
            rel: Elapsed { nanos: started.mono },
            delta: Elapsed { nanos: started.mono.saturating_sub(self.prev_line) },
        };
        assert(line@ =~= old(self)@.line(now));
        f.lines.push(line);
        self.line_started = None;
        self.prev_line = started.mono;
        self.at_line_start = true;
        assert(scrollback::line_views(f.lines@) =~= scrollback::line_views(old(f).lines@).push(
            old(self)@.line(now),
        ));
    }
}

impl Default for LineAssembler {
    fn default() -> (r: Self)
        ensures
            r@ == AssemblerView::initial(),
            r@.well_formed(),
    {
        LineAssembler::new()
    }
}

/// A span of whole seconds as minutes and seconds, with hours from one hour on.
pub open spec fn duration_text(s: nat) -> Seq<char> {
    if s >= 3600 {
        text::decimal(s / 3600) + seq![':'] + text::two_digits(s / 60 % 60) + seq![':']
            + text::two_digits(s % 60)
    } else {
        text::decimal(s / 60) + seq![':'] + text::two_digits(s % 60)
    }
}

/// Prints a span given in whole seconds.
pub fn format_duration(secs: u64) -> (r: String)
    ensures
        r@ == duration_text(secs as nat),
{
    let mut r = String::new();
    if secs >= 3600 {
        text::push_decimal(&mut r, secs / 3600);
        r.push(':');
        text::push_two_digits(&mut r, secs / 60 % 60);
    } else {
        text::push_decimal(&mut r, secs / 60);
    }
    r.push(':');
    text::push_two_digits(&mut r, secs % 60);
    assert(r@ =~= duration_text(secs as nat));
    r
}

/// Whether `data` holds neither carriage returns nor line feeds.
pub open spec fn within_a_line(data: Seq<u8>) -> bool {
    forall|i: int| 0 <= i < data.len() ==> #[trigger] data[i] != CR && data[i] != LF
}

/// `data` with a carriage return put in front of each line feed that has none;
/// `after_cr` says whether a carriage return comes right before `data`.
pub open spec fn with_line_breaks(data: Seq<u8>, after_cr: bool) -> Seq<u8>
    decreases data.len(),
{
    if data.len() == 0 {
        Seq::empty()
    } else {
        let head = with_line_breaks(data.drop_last(), after_cr);
        let preceded = if data.len() == 1 {
            after_cr
        } else {
            data[data.len() - 2] == CR
        };
        if data.last() == LF && !preceded {
            head + seq![CR, LF]
        } else {
            head.push(data.last())
        }
    }
}

/// The number of line feeds in `data`.
pub open spec fn line_feeds(data: Seq<u8>) -> nat
    decreases data.len(),
{
    if data.len() == 0 {
        0
    } else {
        line_feeds(data.drop_last()) + if data.last() == LF {
            1nat
        } else {
            0nat
        }
    }
}

/// The bytes of `lines`, each followed by a line feed.
pub open spec fn rejoined(lines: Seq<LineView>) -> Seq<u8>
    decreases lines.len(),
{
    if lines.len() == 0 {
        Seq::empty()
    } else {
        rejoined(lines.drop_last()) + lines.last().raw.push(LF)
    }
}

impl Progress {
    /// What was written, and then what is held back.
    pub open spec fn written_and_held(self) -> Seq<u8> {
        self.out + self.state.pending_esc + if self.state.pending_cr {
            seq![CR]
        } else {
            Seq::empty()
        }
    }
}

proof fn lemma_later_times(p: Progress, data: Seq<u8>, ts: TsMode, times: Seq<Now>, now: Now)
    requires
        times.len() >= data.len(),
    ensures
        p.feed(data, ts, times.push(now)) == p.feed(data, ts, times),
    decreases data.len(),
{
    if data.len() > 0 {
        lemma_later_times(p, data.drop_last(), ts, times, now);
    }
}

/// How output is cut into chunks makes no difference.
pub proof fn chunks_do_not_matter(
    p: Progress,
    a: Seq<u8>,
    b: Seq<u8>,
    ts: TsMode,
    times: Seq<Now>,
)
    requires
        times.len() >= a.len() + b.len(),
    ensures
        p.feed(a + b, ts, times) == p.feed(a, ts, times).feed(
            b,
            ts,
            times.skip(a.len() as int),
        ),
    decreases b.len(),
{
    if b.len() == 0 {
        assert(a + b =~= a);
    } else {
        chunks_do_not_matter(p, a, b.drop_last(), ts, times);
        assert((a + b).drop_last() =~= a + b.drop_last());
        assert(times.skip(a.len() as int)[b.len() - 1] == times[(a + b).len() - 1]);
    }
}

/// The state stays well formed, and so do the lines handed on: their times can be
/// printed and they hold neither carriage returns nor line feeds.
pub proof fn feeding_keeps_lines_clean(p: Progress, data: Seq<u8>, ts: TsMode, times: Seq<Now>)
    requires
        p.state.well_formed(),
        printable(times),
        times.len() >= data.len(),
        forall|i: int|
            0 <= i < p.lines.len() ==> (#[trigger] p.lines[i]).at.valid() && within_a_line(
                p.lines[i].raw,
            ),
    ensures
        p.feed(data, ts, times).state.well_formed(),
        ({
            let lines = p.feed(data, ts, times).lines;
            forall|i: int|
                0 <= i < lines.len() ==> (#[trigger] lines[i]).at.valid() && within_a_line(
                    lines[i].raw,
                )
        }),
    decreases data.len(),
{
    if data.len() > 0 {
        feeding_keeps_lines_clean(p, data.drop_last(), ts, times);
        let q = p.feed(data.drop_last(), ts, times);
        let r = q.step(data.last(), ts, times[data.len() - 1]);
        assert(r.state.well_formed());
        assert forall|i: int| 0 <= i < r.lines.len() implies (#[trigger] r.lines[i]).at.valid()
            && within_a_line(r.lines[i].raw) by {
            if i < q.lines.len() {
                assert(r.lines[i] == q.lines[i]);
            }
        }
    }
}

proof fn lemma_well_formed_after(p: Progress, data: Seq<u8>, ts: TsMode, times: Seq<Now>)
    requires
        p.state.well_formed(),
        printable(times),
        times.len() >= data.len(),
    ensures
        p.feed(data, ts, times).state.well_formed(),
    decreases data.len(),
{
    if data.len() > 0 {
        lemma_well_formed_after(p, data.drop_last(), ts, times);
    }
}

proof fn lemma_pending_cr_after(p: Progress, data: Seq<u8>, ts: TsMode, times: Seq<Now>)
    ensures
        p.feed(data, ts, times).state.pending_cr == (if data.len() == 0 {
            p.state.pending_cr
        } else {
            data.last() == CR
        }),
{
}

/// With timestamps off, output passes through: what is written and what is still
/// held back are the bytes received, with a carriage return in front of each line
/// feed that came without one.
pub proof fn output_passes_through(p: Progress, data: Seq<u8>, times: Seq<Now>)
    requires
        p.state.well_formed(),
        printable(times),
        times.len() >= data.len(),
    ensures
        p.feed(data, TsMode::Off, times).written_and_held() == p.written_and_held()
            + with_line_breaks(data, p.state.pending_cr),
    decreases data.len(),
{
    let off = TsMode::Off;
    if data.len() == 0 {
        assert(p.written_and_held() + with_line_breaks(data, p.state.pending_cr)
            =~= p.written_and_held());
    } else {
        let head = data.drop_last();
        output_passes_through(p, head, times);
        lemma_well_formed_after(p, head, off, times);
        lemma_pending_cr_after(p, head, off, times);
        let q = p.feed(head, off, times);
        let r = q.step(data.last(), off, times[data.len() - 1]);
        let b = data.last();
        if b == LF && !q.state.pending_cr {
            assert(r.written_and_held() =~= q.written_and_held() + seq![CR, LF]);
        } else {
            assert(r.written_and_held() =~= q.written_and_held().push(b));
        }
        assert(r.written_and_held() =~= p.written_and_held() + with_line_breaks(
            data,
            p.state.pending_cr,
        ));
    }
}

/// When the line goes quiet everything held back is written, in the order received.
pub proof fn flushing_writes_what_was_held(p: Progress, now: Now)
    ensures
        p.flushed(now).out == p.written_and_held(),
        p.flushed(now).state.pending_esc.len() == 0,
        !p.flushed(now).state.pending_cr,
        p.flushed(now).lines == p.lines,
{
    assert(p.flushed(now).out =~= p.written_and_held());
}

/// The timestamp mode changes what is printed and nothing else: the lines handed on
/// and the state are the same in every mode.
pub proof fn modes_change_only_what_is_printed(
    p: Progress,
    data: Seq<u8>,
    one: TsMode,
    other: TsMode,
    times: Seq<Now>,
)
    ensures
        p.feed(data, one, times).lines == p.feed(data, other, times).lines,
        p.feed(data, one, times).state == p.feed(data, other, times).state,
    decreases data.len(),
{
    if data.len() > 0 {
        modes_change_only_what_is_printed(p, data.drop_last(), one, other, times);
        let a = p.feed(data.drop_last(), one, times);
        let b = p.feed(data.drop_last(), other, times);
        let x = data.last();
        assert(a.step(x, one, times[data.len() - 1]).lines =~= b.step(x, other, times[data.len() - 1]).lines);
        assert(a.step(x, one, times[data.len() - 1]).state =~= b.step(x, other, times[data.len() - 1]).state);
    }
}

/// Each line feed ends one line, and nothing else does.
pub proof fn each_line_feed_ends_a_line(p: Progress, data: Seq<u8>, ts: TsMode, times: Seq<Now>)
    ensures
        p.feed(data, ts, times).lines.len() == p.lines.len() + line_feeds(data),
    decreases data.len(),
{
    if data.len() > 0 {
        each_line_feed_ends_a_line(p, data.drop_last(), ts, times);
    }
}

/// Once a line has shown something, the rest of it is written as it comes: no second
/// timestamp, whatever the chunks.
pub proof fn a_line_is_stamped_once(p: Progress, data: Seq<u8>, ts: TsMode, times: Seq<Now>)
    requires
        !p.state.at_line_start,
        !p.state.pending_cr,
        within_a_line(data),
    ensures
        p.feed(data, ts, times).out == p.out + data,
        p.feed(data, ts, times).state.cur == p.state.cur + data,
        !p.feed(data, ts, times).state.at_line_start,
        !p.feed(data, ts, times).state.pending_cr,
    decreases data.len(),
{
    if data.len() == 0 {
        assert(p.out + data =~= p.out);
        assert(p.state.cur + data =~= p.state.cur);
    } else {
        let head = data.drop_last();
        assert forall|i: int| 0 <= i < head.len() implies #[trigger] head[i] != CR && head[i]
            != LF by {
            assert(head[i] == data[i]);
        }
        a_line_is_stamped_once(p, head, ts, times);
        assert(data[data.len() - 1] != CR && data[data.len() - 1] != LF);
        assert(p.out + data =~= (p.out + head).push(data.last()));
        assert(p.state.cur + data =~= (p.state.cur + head).push(data.last()));
    }
}

/// A line that has shown nothing but escapes writes nothing: they are held back, and
/// if the line ends there it gets no timestamp.
pub proof fn escapes_alone_are_not_stamped(
    p: Progress,
    data: Seq<u8>,
    ts: TsMode,
    times: Seq<Now>,
    now: Now,
)
    requires
        p.state.at_line_start,
        !p.state.pending_cr,
        within_a_line(data),
        p.feed(data, ts, times).state.at_line_start,
    ensures
        p.feed(data, ts, times).out == p.out,
        p.feed(data, ts, times).state.pending_esc == p.state.pending_esc + data,
        p.feed(data, ts, times).step(LF, ts, now).out == p.out + p.state.pending_esc + data + seq![
            CR,
            LF,
        ],
    decreases data.len(),
{
    let r = p.feed(data, ts, times);
    if data.len() == 0 {
        assert(p.state.pending_esc + data =~= p.state.pending_esc);
    } else {
        let head = data.drop_last();
        assert forall|i: int| 0 <= i < head.len() implies #[trigger] head[i] != CR && head[i]
            != LF by {
            assert(head[i] == data[i]);
        }
        assert(data[data.len() - 1] != CR && data[data.len() - 1] != LF);
        lemma_pending_cr_after(p, head, ts, times);
        if head.len() > 0 {
            assert(head[head.len() - 1] != CR);
        }
        escapes_alone_are_not_stamped(p, head, ts, times, now);
        assert(p.state.pending_esc + data =~= (p.state.pending_esc + head).push(data.last()));
    }
    lemma_pending_cr_after(p, data, ts, times);
    assert(r.step(LF, ts, now).out =~= p.out + p.state.pending_esc + data + seq![CR, LF]);
}

/// The timestamp of a line goes ahead of the escapes that were held for it, so the
/// device's colours apply to its own text.
pub proof fn the_stamp_precedes_held_escapes(p: Progress, b: u8, ts: TsMode, now: Now)
    requires
        p.state.at_line_start,
        !p.state.pending_cr,
        p.state.esc == Esc::Outside,
        b != CR,
        b != LF,
        b != 0x1b,
    ensures
        p.step(b, ts, now).out == p.out + p.state.stamp(ts, now) + p.state.pending_esc + seq![b],
{
    assert(p.step(b, ts, now).out =~= p.out + p.state.stamp(ts, now) + p.state.pending_esc
        + seq![b]);
}

/// No byte is lost: where the device sends no carriage returns, the lines handed on,
/// each with its line feed, and the unfinished line are the bytes received.
pub proof fn no_byte_is_lost(p: Progress, data: Seq<u8>, ts: TsMode, times: Seq<Now>)
    requires
        !p.state.pending_cr,
        forall|i: int| 0 <= i < data.len() ==> #[trigger] data[i] != CR,
    ensures
        ({
            let r = p.feed(data, ts, times);
            rejoined(r.lines) + r.state.cur == rejoined(p.lines) + p.state.cur + data
        }),
    decreases data.len(),
{
    if data.len() == 0 {
        assert(rejoined(p.lines) + p.state.cur + data =~= rejoined(p.lines) + p.state.cur);
    } else {
        let head = data.drop_last();
        assert forall|i: int| 0 <= i < head.len() implies #[trigger] head[i] != CR by {
            assert(head[i] == data[i]);
        }
        no_byte_is_lost(p, head, ts, times);
        lemma_pending_cr_after(p, head, ts, times);
        if head.len() > 0 {
            assert(head[head.len() - 1] != CR);
        }
        assert(data[data.len() - 1] != CR);
        let q = p.feed(head, ts, times);
        let r = q.step(data.last(), ts, times[data.len() - 1]);
        if data.last() == LF {
            assert(r.lines.drop_last() =~= q.lines);
            assert(r.lines.last().raw == q.state.cur);
            assert(rejoined(r.lines) + r.state.cur =~= (rejoined(q.lines) + q.state.cur).push(LF));
        } else {
            assert(r.lines == q.lines);
            assert(rejoined(r.lines) + r.state.cur =~= (rejoined(q.lines) + q.state.cur).push(
                data.last(),
            ));
        }
        assert(rejoined(p.lines) + p.state.cur + data =~= (rejoined(p.lines) + p.state.cur
            + head).push(data.last()));
    }
}

proof fn lemma_within_a_line(p: Progress, data: Seq<u8>, ts: TsMode, times: Seq<Now>)
    requires
        !p.state.pending_cr,
        forall|i: int| 0 <= i < data.len() ==> #[trigger] data[i] != 0x0d && data[i] != 0x0a,
    ensures
        p.feed(data, ts, times).lines == p.lines,
        p.feed(data, ts, times).state.cur == p.state.cur + data,
        p.feed(data, ts, times).state.prev_line == p.state.prev_line,
        !p.feed(data, ts, times).state.pending_cr,
        !p.state.at_line_start ==> p.feed(data, ts, times).state.line_started
            == p.state.line_started,
    decreases data.len(),
{
    if data.len() == 0 {
        assert(p.state.cur + data =~= p.state.cur);
    } else {
        let head = data.drop_last();
        assert forall|i: int| 0 <= i < head.len() implies #[trigger] head[i] != 0x0d && head[i]
            != 0x0a by {
            assert(head[i] == data[i]);
        }
        lemma_within_a_line(p, head, ts, times);
        if !p.state.at_line_start {
            a_line_is_stamped_once(p, head, ts, times);
        }
        assert(data[data.len() - 1] != 0x0d && data[data.len() - 1] != 0x0a);
        assert(p.state.cur + data =~= (p.state.cur + head).push(data.last()));
    }
}

/// A line break hands on the whole line, however long it is and whichever of the two
/// line breaks ends it: exactly one line more, made of all that came since the last
/// break, without the break itself, after which a new line begins.
pub proof fn a_line_break_hands_on_the_whole_line(
    p: Progress,
    data: Seq<u8>,
    ts: TsMode,
    times: Seq<Now>,
)
    requires
        !p.state.pending_cr,
        forall|i: int| 0 <= i < data.len() ==> #[trigger] data[i] != 0x0d && data[i] != 0x0a,
    ensures
        ({
            let r = p.feed(data + seq![0x0d, 0x0a], ts, times);
            &&& r.lines.len() == p.lines.len() + 1
            &&& r.lines.drop_last() == p.lines
            &&& r.lines.last().raw == p.state.cur + data
            &&& r.state.cur == Seq::<u8>::empty()
            &&& r.state.at_line_start
            &&& !r.state.pending_cr
        }),
        ({
            let r = p.feed(data + seq![0x0a], ts, times);
            &&& r.lines.len() == p.lines.len() + 1
            &&& r.lines.drop_last() == p.lines
            &&& r.lines.last().raw == p.state.cur + data
            &&& r.state.cur == Seq::<u8>::empty()
            &&& r.state.at_line_start
            &&& !r.state.pending_cr
        }),
{
    lemma_within_a_line(p, data, ts, times);
    let q = p.feed(data, ts, times);
    let one = data + seq![0x0au8];
    assert(one.drop_last() =~= data);
    let r = p.feed(one, ts, times);
    assert(r.lines.drop_last() =~= p.lines);
    let both = data + seq![0x0du8, 0x0a];
    assert(both.drop_last() =~= data + seq![0x0du8]);
    assert((data + seq![0x0du8]).drop_last() =~= data);
    let held = p.feed(data + seq![0x0du8], ts, times);
    assert(held == q.step(0x0d, ts, times[data.len() as int]));
    let r = p.feed(both, ts, times);
    assert(r == held.step(0x0a, ts, times[data.len() as int + 1]));
    assert(r.lines.drop_last() =~= p.lines);
}

/// A carriage return that no line feed follows starts the line over, which is how
/// devices redraw a progress bar: the line handed on is what came after it alone.
pub proof fn a_lone_carriage_return_starts_the_line_over(
    p: Progress,
    dropped: Seq<u8>,
    data: Seq<u8>,
    ts: TsMode,
    times: Seq<Now>,
)
    requires
        !p.state.pending_cr,
        times.len() >= dropped.len() + data.len() + 2,
        data.len() > 0,
        forall|i: int|
            0 <= i < dropped.len() ==> #[trigger] dropped[i] != 0x0d && dropped[i] != 0x0a,
        forall|i: int| 0 <= i < data.len() ==> #[trigger] data[i] != 0x0d && data[i] != 0x0a,
    ensures
        ({
            let r = p.feed(dropped + seq![0x0d] + data + seq![0x0a], ts, times);
            &&& r.lines.len() == p.lines.len() + 1
            &&& r.lines.drop_last() == p.lines
            &&& r.lines.last().raw == data
        }),
{
    lemma_within_a_line(p, dropped, ts, times);
    let first = dropped + seq![0x0du8];
    assert(first.drop_last() =~= dropped);
    let held = p.feed(first, ts, times);
    let b = seq![data[0]];
    let rest = data.skip(1);
    let begun = first + b;
    assert(begun.drop_last() =~= first);
    let q = p.feed(begun, ts, times);
    assert(q == held.step(data[0], ts, times[first.len() as int]));
    assert(q.state.cur =~= b);
    assert(q.lines == p.lines);
    assert forall|i: int| 0 <= i < rest.len() implies #[trigger] rest[i] != 0x0d && rest[i]
        != 0x0a by {
        assert(rest[i] == data[i + 1]);
    }
    let later = times.skip(begun.len() as int);
    a_line_break_hands_on_the_whole_line(q, rest, ts, later);
    chunks_do_not_matter(p, begun, rest + seq![0x0au8], ts, times);
    assert(begun + (rest + seq![0x0au8]) =~= first + data + seq![0x0au8]);
    assert(b + rest =~= data);
}

/// `data` without its carriage returns.
pub open spec fn without_returns(data: Seq<u8>) -> Seq<u8>
    decreases data.len(),
{
    if data.len() == 0 {
        Seq::empty()
    } else if data.last() == 0x0d {
        without_returns(data.drop_last())
    } else {
        without_returns(data.drop_last()).push(data.last())
    }
}

/// Nothing but the carriage returns is lost where the device ends its lines with a
/// carriage return and a line feed: the lines handed on, each with its line feed, and
/// the unfinished line are all the other bytes received.
pub proof fn line_breaks_lose_nothing_else(
    p: Progress,
    data: Seq<u8>,
    ts: TsMode,
    times: Seq<Now>,
)
    requires
        !p.state.pending_cr,
        forall|i: int|
            0 <= i < data.len() - 1 && #[trigger] data[i] == 0x0d ==> data[i + 1] == 0x0a,
    ensures
        ({
            let r = p.feed(data, ts, times);
            rejoined(r.lines) + r.state.cur == rejoined(p.lines) + p.state.cur + without_returns(
                data,
            )
        }),
    decreases data.len(),
{
    if data.len() == 0 {
        assert(rejoined(p.lines) + p.state.cur + without_returns(data) =~= rejoined(p.lines)
            + p.state.cur);
    } else {
        let head = data.drop_last();
        assert forall|i: int| 0 <= i < head.len() - 1 && #[trigger] head[i] == 0x0d implies head[i
            + 1] == 0x0a by {
            assert(head[i] == data[i]);
        }
        line_breaks_lose_nothing_else(p, head, ts, times);
        lemma_pending_cr_after(p, head, ts, times);
        let q = p.feed(head, ts, times);
        let b = data.last();
        if q.state.pending_cr {
            assert(head[head.len() - 1] == data[head.len() - 1]);
            assert(b == 0x0a);
        }
        let r = q.step(b, ts, times[data.len() - 1]);
        if b == 0x0a {
            assert(r.lines.drop_last() =~= q.lines);
            assert(r.lines.last().raw == q.state.cur);
            assert(rejoined(r.lines) + r.state.cur =~= (rejoined(q.lines) + q.state.cur).push(LF));
        } else if b == 0x0d {
            assert(r.lines == q.lines && r.state.cur == q.state.cur);
        } else {
            assert(r.lines == q.lines);
            assert(rejoined(r.lines) + r.state.cur =~= (rejoined(q.lines) + q.state.cur).push(b));
        }
        assert(b != 0x0d ==> rejoined(p.lines) + p.state.cur + without_returns(data) =~= (rejoined(
            p.lines,
        ) + p.state.cur + without_returns(head)).push(b));
    }
}

/// A line bears the time of its first visible byte, whenever the rest of it came, and
/// the span since the line before it began. What is printed in front of it is the
/// prefix that the line handed on has, in grey, and then the line as it came.
pub proof fn a_line_bears_the_time_it_began(
    p: Progress,
    b: u8,
    data: Seq<u8>,
    ts: TsMode,
    times: Seq<Now>,
)
    requires
        p.state.at_line_start,
        !p.state.pending_cr,
        p.state.esc == Esc::Outside,
        times.len() >= data.len() + 2,
        b != 0x0d && b != 0x0a && b != 0x1b,
        forall|i: int| 0 <= i < data.len() ==> #[trigger] data[i] != 0x0d && data[i] != 0x0a,
    ensures
        ({
            let r = p.feed(seq![b] + data + seq![0x0a], ts, times);
            let l = r.lines.last();
            &&& l.raw == p.state.cur + seq![b] + data
            &&& l.at == times[0].wall
            &&& l.rel.nanos == times[0].mono
            &&& times[0].mono >= p.state.prev_line ==> l.delta.nanos == times[0].mono
                - p.state.prev_line
            &&& times[0].mono < p.state.prev_line ==> l.delta.nanos == 0
            &&& r.state.prev_line == times[0].mono
            &&& r.out == p.out + (if ts == TsMode::Off {
                Seq::empty()
            } else {
                encode_utf8("\x1b[90m"@) + encode_utf8(l.prefix(ts)) + encode_utf8("\x1b[39m"@)
            }) + p.state.pending_esc + seq![b] + data + seq![0x0d, 0x0a]
        }),
{
    let one = seq![b];
    assert(one.drop_last() =~= Seq::<u8>::empty());
    assert(p.feed(one.drop_last(), ts, times) == p);
    let q = p.feed(one, ts, times);
    assert(q == p.step(b, ts, times[0]));
    the_stamp_precedes_held_escapes(p, b, ts, times[0]);
    let later = times.skip(1);
    let rest = data + seq![0x0au8];
    assert(rest.drop_last() =~= data);
    chunks_do_not_matter(p, one, rest, ts, times);
    assert(one + rest =~= seq![b] + data + seq![0x0au8]);
    lemma_within_a_line(q, data, ts, later);
    a_line_is_stamped_once(q, data, ts, later);
    lemma_open_line_holds_nothing(q, data, ts, later);
    let m = q.feed(data, ts, later);
    let r = q.feed(rest, ts, later);
    assert(r == m.step(0x0a, ts, later[data.len() as int]));
    assert(r.lines.last().raw =~= p.state.cur + seq![b] + data);
    let l = r.lines.last();
    assert(l.prefix(ts) == (LineView { raw: Seq::empty(), ..l }).prefix(ts));
    assert(m.out == q.out + data);
    assert(r.out =~= m.out + seq![0x0du8, 0x0a]);
    assert(p.state.stamp(ts, times[0]) =~= (if ts == TsMode::Off {
        Seq::empty()
    } else {
        encode_utf8("\x1b[90m"@) + encode_utf8(l.prefix(ts)) + encode_utf8("\x1b[39m"@)
    }));
    assert(r.out =~= p.out + p.state.stamp(ts, times[0]) + p.state.pending_esc + seq![b] + data
        + seq![0x0du8, 0x0a]);
}

proof fn lemma_open_line_holds_nothing(p: Progress, data: Seq<u8>, ts: TsMode, times: Seq<Now>)
    requires
        !p.state.at_line_start,
        !p.state.pending_cr,
        p.state.pending_esc.len() == 0,
        forall|i: int| 0 <= i < data.len() ==> #[trigger] data[i] != 0x0d && data[i] != 0x0a,
    ensures
        p.feed(data, ts, times).state.pending_esc.len() == 0,
    decreases data.len(),
{
    if data.len() > 0 {
        let head = data.drop_last();
        assert forall|i: int| 0 <= i < head.len() implies #[trigger] head[i] != 0x0d && head[i]
            != 0x0a by {
            assert(head[i] == data[i]);
        }
        lemma_open_line_holds_nothing(p, head, ts, times);
        a_line_is_stamped_once(p, head, ts, times);
        assert(data[data.len() - 1] != 0x0d && data[data.len() - 1] != 0x0a);
    }
}

/// Whether all of `data` was held back, with the line standing at `esc` after it.
#[verifier::opaque]
spec fn held_back(p: Progress, data: Seq<u8>, ts: TsMode, times: Seq<Now>, esc: Esc) -> bool {
    let q = p.feed(data, ts, times);
    &&& q.out == p.out
    &&& q.lines == p.lines
    &&& q.state.at_line_start
    &&& !q.state.pending_cr
    &&& q.state.pending_esc == p.state.pending_esc + data
    &&& q.state.esc == esc
}

proof fn lemma_none_held(p: Progress, ts: TsMode, times: Seq<Now>)
    requires
        p.state.at_line_start,
        !p.state.pending_cr,
    ensures
        held_back(p, Seq::empty(), ts, times, p.state.esc),
{
    reveal(held_back);
    let none = Seq::<u8>::empty();
    assert(p.feed(none, ts, times) == p);
    assert(p.state.pending_esc + none =~= p.state.pending_esc);
}

proof fn lemma_held(p: Progress, data: Seq<u8>, b: u8, ts: TsMode, times: Seq<Now>, esc: Esc)
    requires
        held_back(p, data, ts, times, esc),
        esc != Esc::Outside || b == 0x1b,
        b != 0x0d && b != 0x0a,
    ensures
        held_back(p, data.push(b), ts, times, advanced(esc, b)),
{
    reveal(held_back);
    assert(data.push(b).drop_last() =~= data);
    assert(p.state.pending_esc + data.push(b) =~= (p.state.pending_esc + data).push(b));
}

proof fn lemma_held_inside(
    p: Progress,
    start: Seq<u8>,
    body: Seq<u8>,
    esc: Esc,
    ts: TsMode,
    times: Seq<Now>,
)
    requires
        held_back(p, start, ts, times, esc),
        esc == Esc::Csi || esc == Esc::Osc,
        forall|i: int| 0 <= i < body.len() ==> #[trigger] body[i] != 0x0d && body[i] != 0x0a,
        esc == Esc::Csi ==> forall|i: int|
            0 <= i < body.len() ==> !(0x40 <= #[trigger] body[i] <= 0x7e),
        esc == Esc::Osc ==> forall|i: int|
            0 <= i < body.len() ==> #[trigger] body[i] != 0x07 && body[i] != 0x1b,
    ensures
        held_back(p, start + body, ts, times, esc),
    decreases body.len(),
{
    if body.len() == 0 {
        assert(start + body =~= start);
    } else {
        let head = body.drop_last();
        assert forall|i: int| 0 <= i < head.len() implies #[trigger] head[i] != 0x0d && head[i]
            != 0x0a && (esc == Esc::Csi ==> !(0x40 <= head[i] <= 0x7e)) && (esc == Esc::Osc
            ==> head[i] != 0x07 && head[i] != 0x1b) by {
            assert(head[i] == body[i]);
        }
        lemma_held_inside(p, start, head, esc, ts, times);
        assert(body[body.len() - 1] == body.last());
        lemma_held(p, start + head, body.last(), ts, times, esc);
        assert((start + head).push(body.last()) =~= start + body);
    }
}

proof fn lemma_string_held(p: Progress, kind: u8, body: Seq<u8>, ts: TsMode, times: Seq<Now>)
    requires
        p.state.at_line_start,
        !p.state.pending_cr,
        p.state.esc == Esc::Outside,
        kind == 0x5d || kind == 0x50 || kind == 0x58 || kind == 0x5e || kind == 0x5f,
        forall|i: int|
            0 <= i < body.len() ==> #[trigger] body[i] != 0x07 && body[i] != 0x1b && body[i]
                != 0x0d && body[i] != 0x0a,
    ensures
        held_back(p, seq![0x1b, kind] + body, ts, times, Esc::Osc),
{
    let none = Seq::<u8>::empty();
    lemma_none_held(p, ts, times);
    lemma_held(p, none, 0x1b, ts, times, Esc::Outside);
    lemma_held(p, none.push(0x1b), kind, ts, times, Esc::Start);
    assert(none.push(0x1b).push(kind) =~= seq![0x1bu8, kind]);
    lemma_held_inside(p, seq![0x1bu8, kind], body, Esc::Osc, ts, times);
}

/// A control sequence at the start of a line, whatever its parameters are, is held
/// back whole: nothing is printed, and the line is still to begin after it.
pub proof fn control_sequences_are_held_whole(
    p: Progress,
    params: Seq<u8>,
    last: u8,
    ts: TsMode,
    times: Seq<Now>,
)
    requires
        p.state.at_line_start,
        !p.state.pending_cr,
        p.state.esc == Esc::Outside,
        forall|i: int|
            0 <= i < params.len() ==> !(0x40 <= #[trigger] params[i] <= 0x7e) && params[i] != 0x0d
                && params[i] != 0x0a,
        0x40 <= last <= 0x7e,
    ensures
        ({
            let data = seq![0x1b, 0x5b] + params + seq![last];
            let r = p.feed(data, ts, times);
            &&& r.out == p.out
            &&& r.lines == p.lines
            &&& r.state.pending_esc == p.state.pending_esc + data
            &&& r.state.at_line_start
            &&& r.state.esc == Esc::Outside
        }),
{
    let none = Seq::<u8>::empty();
    lemma_none_held(p, ts, times);
    lemma_held(p, none, 0x1b, ts, times, Esc::Outside);
    lemma_held(p, none.push(0x1b), 0x5b, ts, times, Esc::Start);
    assert(none.push(0x1b).push(0x5b) =~= seq![0x1bu8, 0x5b]);
    lemma_held_inside(p, seq![0x1bu8, 0x5b], params, Esc::Csi, ts, times);
    lemma_held(p, seq![0x1bu8, 0x5b] + params, last, ts, times, Esc::Csi);
    assert((seq![0x1bu8, 0x5b] + params).push(last) =~= seq![0x1bu8, 0x5b] + params + seq![last]);
    reveal(held_back);
}

/// A string such as a window title at the start of a line is held back whole when a
/// BEL ends it: nothing is printed, and the line is still to begin after it.
pub proof fn strings_are_held_up_to_a_bel(
    p: Progress,
    kind: u8,
    body: Seq<u8>,
    ts: TsMode,
    times: Seq<Now>,
)
    requires
        p.state.at_line_start,
        !p.state.pending_cr,
        p.state.esc == Esc::Outside,
        kind == 0x5d || kind == 0x50 || kind == 0x58 || kind == 0x5e || kind == 0x5f,
        forall|i: int|
            0 <= i < body.len() ==> #[trigger] body[i] != 0x07 && body[i] != 0x1b && body[i]
                != 0x0d && body[i] != 0x0a,
    ensures
        ({
            let data = seq![0x1b, kind] + body + seq![0x07];
            let r = p.feed(data, ts, times);
            &&& r.out == p.out
            &&& r.lines == p.lines
            &&& r.state.pending_esc == p.state.pending_esc + data
            &&& r.state.at_line_start
            &&& r.state.esc == Esc::Outside
        }),
{
    lemma_string_held(p, kind, body, ts, times);
    let data = seq![0x1bu8, kind] + body;
    lemma_held(p, data, 0x07, ts, times, Esc::Osc);
    assert(data.push(0x07) =~= data + seq![0x07u8]);
    reveal(held_back);
}

/// A string at the start of a line is held back whole when an escape and a backslash
/// end it: nothing is printed, and the line is still to begin after it.
pub proof fn strings_are_held_up_to_a_backslash(
    p: Progress,
    kind: u8,
    body: Seq<u8>,
    ts: TsMode,
    times: Seq<Now>,
)
    requires
        p.state.at_line_start,
        !p.state.pending_cr,
        p.state.esc == Esc::Outside,
        kind == 0x5d || kind == 0x50 || kind == 0x58 || kind == 0x5e || kind == 0x5f,
        forall|i: int|
            0 <= i < body.len() ==> #[trigger] body[i] != 0x07 && body[i] != 0x1b && body[i]
                != 0x0d && body[i] != 0x0a,
    ensures
        ({
            let data = seq![0x1b, kind] + body + seq![0x1b, 0x5c];
            let r = p.feed(data, ts, times);
            &&& r.out == p.out
            &&& r.lines == p.lines
            &&& r.state.pending_esc == p.state.pending_esc + data
            &&& r.state.at_line_start
            &&& r.state.esc == Esc::Outside
        }),
{
    lemma_string_held(p, kind, body, ts, times);
    let data = seq![0x1bu8, kind] + body;
    lemma_held(p, data, 0x1b, ts, times, Esc::Osc);
    lemma_held(p, data.push(0x1b), 0x5c, ts, times, Esc::OscTerminator);
    assert(data.push(0x1b).push(0x5c) =~= data + seq![0x1bu8, 0x5c]);
    reveal(held_back);
}

/// Going quiet touches what was held back and nothing else: with nothing held it
/// changes nothing, held escapes take away the line's timestamp but leave the line,
/// and a held carriage return starts the line over.
pub proof fn going_quiet_keeps_the_line(p: Progress, now: Now)
    ensures
        p.state.pending_esc.len() == 0 && !p.state.pending_cr ==> p.flushed(now) == p,
        !p.state.pending_cr ==> p.flushed(now).state.cur == p.state.cur,
        p.state.pending_esc.len() > 0 && !p.state.pending_cr ==> !p.flushed(
            now,
        ).state.at_line_start && p.flushed(now).state.line_started == Some(now),
        p.state.pending_cr ==> p.flushed(now).state.cur == Seq::<u8>::empty() && p.flushed(
            now,
        ).state.at_line_start && p.flushed(now).state.line_started is None,
        p.flushed(now).state.prev_line == p.state.prev_line,
        p.flushed(now).state.esc == p.state.esc,
{
}

/// A span is printed as what it is: the digits between the colons are hours, minutes
/// and seconds, or minutes and seconds below one hour, and add up to it.
pub proof fn a_printed_duration_reads_back(s: nat)
    ensures
        ({
            let d = duration_text(s);
            let n = d.len() as int;
            if s < 3600 {
                &&& n >= 4
                &&& d[n - 3] == ':'
                &&& text::digits_value(d.take(n - 3)) * 60 + text::digits_value(d.skip(n - 2)) == s
                &&& text::digits_value(d.skip(n - 2)) < 60
            } else {
                &&& n >= 7
                &&& d[n - 3] == ':' && d[n - 6] == ':'
                &&& text::digits_value(d.take(n - 6)) * 3600 + text::digits_value(
                    d.subrange(n - 5, n - 3),
                ) * 60 + text::digits_value(d.skip(n - 2)) == s
                &&& text::digits_value(d.subrange(n - 5, n - 3)) < 60
                &&& text::digits_value(d.skip(n - 2)) < 60
            }
        }),
{
    let d = duration_text(s);
    let n = d.len() as int;
    text::two_digits_keep_the_value(s % 60);
    assert(d.skip(n - 2) =~= text::two_digits(s % 60));
    if s < 3600 {
        text::decimal_digits_keep_the_value(s / 60);
        assert(d.take(n - 3) =~= text::decimal(s / 60));
    } else {
        text::decimal_digits_keep_the_value(s / 3600);
        text::two_digits_keep_the_value(s / 60 % 60);
        assert(d.take(n - 6) =~= text::decimal(s / 3600));
        assert(d.subrange(n - 5, n - 3) =~= text::two_digits(s / 60 % 60));
        assert(s / 60 == 60 * (s / 3600) + s / 60 % 60);
    }
}

/// A carriage return that another one follows starts the line over as well: the line
/// handed on is what came between the last lone one and the line break.
pub proof fn only_the_last_restart_counts(
    p: Progress,
    dropped: Seq<u8>,
    data: Seq<u8>,
    ts: TsMode,
    times: Seq<Now>,
)
    requires
        !p.state.pending_cr,
        times.len() >= dropped.len() + data.len() + 3,
        forall|i: int|
            0 <= i < dropped.len() ==> #[trigger] dropped[i] != 0x0d && dropped[i] != 0x0a,
        forall|i: int| 0 <= i < data.len() ==> #[trigger] data[i] != 0x0d && data[i] != 0x0a,
    ensures
        ({
            let r = p.feed(dropped + seq![0x0d] + data + seq![0x0d, 0x0a], ts, times);
            &&& r.lines.len() == p.lines.len() + 1
            &&& r.lines.drop_last() == p.lines
            &&& r.lines.last().raw == data
        }),
{
    lemma_within_a_line(p, dropped, ts, times);
    let first = dropped + seq![0x0du8];
    assert(first.drop_last() =~= dropped);
    let held = p.feed(first, ts, times);
    if data.len() == 0 {
        let two = first + seq![0x0du8];
        assert(two.drop_last() =~= first);
        let again = p.feed(two, ts, times);
        assert(again == held.step(0x0d, ts, times[first.len() as int]));
        assert(again.state.cur == Seq::<u8>::empty());
        assert(again.state.pending_cr);
        assert(again.lines == p.lines);
        let all = two + seq![0x0au8];
        assert(all.drop_last() =~= two);
        let r = p.feed(all, ts, times);
        assert(r == again.step(0x0a, ts, times[two.len() as int]));
        assert(r.lines.drop_last() =~= p.lines);
        assert(r.lines.last().raw =~= data);
        assert(all =~= dropped + seq![0x0du8] + data + seq![0x0du8, 0x0a]);
    } else {
        let b = seq![data[0]];
        let rest = data.skip(1);
        let begun = first + b;
        assert(begun.drop_last() =~= first);
        let q = p.feed(begun, ts, times);
        assert(q == held.step(data[0], ts, times[first.len() as int]));
        assert(q.state.cur =~= b);
        assert(q.lines == p.lines);
        assert forall|i: int| 0 <= i < rest.len() implies #[trigger] rest[i] != 0x0d && rest[i]
            != 0x0a by {
            assert(rest[i] == data[i + 1]);
        }
        let end = seq![0x0du8, 0x0a];
        a_line_break_hands_on_the_whole_line(q, rest, ts, times.skip(begun.len() as int));
        chunks_do_not_matter(p, begun, rest + end, ts, times);
        assert(begun + (rest + end) =~= first + data + end);
        assert(b + rest =~= data);
    }
}

/// A line that shows nothing bears the time at which it ends.
pub proof fn an_empty_line_bears_the_time_it_ended(p: Progress, ts: TsMode, times: Seq<Now>)
    requires
        !p.state.pending_cr,
        p.state.line_started is None,
        times.len() >= 1,
    ensures
        ({
            let r = p.feed(seq![0x0a], ts, times);
            let l = r.lines.last();
            &&& l.at == times[0].wall
            &&& l.rel.nanos == times[0].mono
            &&& times[0].mono >= p.state.prev_line ==> l.delta.nanos == times[0].mono
                - p.state.prev_line
            &&& r.out == p.out + p.state.pending_esc + seq![0x0d, 0x0a]
        }),
{
    let one = seq![0x0au8];
    assert(one.drop_last() =~= Seq::<u8>::empty());
    assert(p.feed(one.drop_last(), ts, times) == p);
    let r = p.feed(one, ts, times);
    assert(r == p.step(0x0a, ts, times[0]));
    assert(r.out =~= p.out + p.state.pending_esc + seq![0x0du8, 0x0a]);
}

/// An escape at the start of a line takes the next byte with it where that starts no
/// longer sequence: both are held back, and the line is still to begin.
pub proof fn short_escapes_are_held(
    p: Progress,
    a: u8,
    ts: TsMode,
    times: Seq<Now>,
)
    requires
        p.state.at_line_start,
        !p.state.pending_cr,
        p.state.esc == Esc::Outside,
        a != 0x5b && a != 0x5d && a != 0x50 && a != 0x58 && a != 0x5e && a != 0x5f,
        a != 0x0d && a != 0x0a,
    ensures
        ({
            let data = seq![0x1b, a];
            let r = p.feed(data, ts, times);
            &&& r.out == p.out
            &&& r.lines == p.lines
            &&& r.state.pending_esc == p.state.pending_esc + data
            &&& r.state.at_line_start
            &&& r.state.esc == Esc::Outside
        }),
{
    let none = Seq::<u8>::empty();
    lemma_none_held(p, ts, times);
    lemma_held(p, none, 0x1b, ts, times, Esc::Outside);
    lemma_held(p, none.push(0x1b), a, ts, times, Esc::Start);
    assert(none.push(0x1b).push(a) =~= seq![0x1bu8, a]);
    reveal(held_back);
}

/// An escape inside a string that no backslash follows is part of the string, which
/// goes on and is still held back.
pub proof fn a_stray_escape_ends_no_string(
    p: Progress,
    kind: u8,
    body: Seq<u8>,
    a: u8,
    ts: TsMode,
    times: Seq<Now>,
)
    requires
        p.state.at_line_start,
        !p.state.pending_cr,
        p.state.esc == Esc::Outside,
        kind == 0x5d || kind == 0x50 || kind == 0x58 || kind == 0x5e || kind == 0x5f,
        forall|i: int|
            0 <= i < body.len() ==> #[trigger] body[i] != 0x07 && body[i] != 0x1b && body[i]
                != 0x0d && body[i] != 0x0a,
        a != 0x5c && a != 0x0d && a != 0x0a,
    ensures
        ({
            let data = seq![0x1b, kind] + body + seq![0x1b, a];
            let r = p.feed(data, ts, times);
            &&& r.out == p.out
            &&& r.lines == p.lines
            &&& r.state.pending_esc == p.state.pending_esc + data
            &&& r.state.at_line_start
            &&& r.state.esc != Esc::Outside
        }),
{
    lemma_string_held(p, kind, body, ts, times);
    let data = seq![0x1bu8, kind] + body;
    lemma_held(p, data, 0x1b, ts, times, Esc::Osc);
    lemma_held(p, data.push(0x1b), a, ts, times, Esc::OscTerminator);
    assert(data.push(0x1b).push(a) =~= data + seq![0x1bu8, a]);
    reveal(held_back);
}

} // verus!
