//! Received lines, and the ring buffer that keeps the newest of them.
use crate::ansi;
use crate::cli::TsMode;
use crate::clock;
use crate::clock::{Elapsed, WallTime};
use crate::text;
use std::collections::VecDeque;
use vstd::prelude::*;
use vstd::utf8::*;

verus! {

/// A line as the device sent it, with the time it began.
#[derive(Debug)]
pub struct Line {
    pub raw: Vec<u8>,
    pub at: WallTime,
    pub rel: Elapsed,
    pub delta: Elapsed,
}

/// The contents of a line.
#[verifier::ext_equal]
pub struct LineView {
    pub raw: Seq<u8>,
    pub at: WallTime,
    pub rel: Elapsed,
    pub delta: Elapsed,
}

impl View for Line {
    type V = LineView;

    open spec fn view(&self) -> LineView {
        LineView { raw: self.raw@, at: self.at, rel: self.rel, delta: self.delta }
    }
}

impl Clone for Line {
    fn clone(&self) -> (r: Self)
        ensures
            r@ == self@,
    {
        Line { raw: self.raw.clone(), at: self.at, rel: self.rel, delta: self.delta }
    }
}

impl LineView {
    /// The timestamp printed in front of the line.
    pub open spec fn prefix(self, ts: TsMode) -> Seq<char> {
        match ts {
            TsMode::Off => Seq::empty(),
            TsMode::Rel => seq!['['] + text::right_aligned(
                clock::seconds_text(self.rel.nanos as nat),
                9,
            ) + "] "@,
            TsMode::Abs => seq!['['] + clock::clock_text(self.at) + "] "@,
            TsMode::Delta => "[+"@ + text::right_aligned(
                clock::seconds_text(self.delta.nanos as nat),
                8,
            ) + "] "@,
        }
    }

    /// What a reader sees of the line.
    pub open spec fn text(self) -> Seq<char> {
        text::lossy_text(ansi::stripped(self.raw))
    }
}

impl Line {
    pub fn prefix(&self, ts: TsMode) -> (s: String)
        requires
            self.at.valid(),
        ensures
            s@ == self@.prefix(ts),
    {
        let mut s = String::new();
        match ts {
            TsMode::Off => {},
            TsMode::Rel => {
                s.push('[');
                text::push_right_aligned(&mut s, clock::seconds(self.rel).as_str(), 9);
                s.append("] ");
            },
            TsMode::Abs => {
                s.push('[');
                s.append(clock::format_time(&self.at, clock::CLOCK_FORMAT).as_str());
                s.append("] ");
            },
            TsMode::Delta => {
                s.append("[+");
                text::push_right_aligned(&mut s, clock::seconds(self.delta).as_str(), 8);
                s.append("] ");
            },
        }
        assert(s@ =~= self@.prefix(ts));
        s
    }

    pub fn text(&self) -> (s: String)
        ensures
            s@ == self@.text(),
            valid_utf8(ansi::stripped(self@.raw)) ==> s@ == decode_utf8(
                ansi::stripped(self@.raw),
            ),
    {
        text::from_utf8_lossy(ansi::strip(self.raw.as_slice()).as_slice())
    }
}

/// Ring buffer of received lines, used by the scrollback view.
pub struct Scrollback {
    lines: VecDeque<Line>,
    cap: usize,
    dropped: u64,
}

/// The contents of a ring buffer: the lines held, oldest first, how many fit, and
/// how many were evicted.
#[verifier::ext_equal]
pub struct ScrollbackView {
    pub lines: Seq<LineView>,
    pub cap: nat,
    pub dropped: nat,
}

impl ScrollbackView {
    /// A buffer that holds nothing yet. At least one line always fits.
    pub open spec fn empty(cap: nat) -> ScrollbackView {
        ScrollbackView { lines: Seq::empty(), cap: if cap == 0 { 1 } else { cap }, dropped: 0 }
    }

    pub open spec fn well_formed(self) -> bool {
        &&& self.cap >= 1
        &&& self.lines.len() <= self.cap
        &&& self.total() <= u64::MAX
        &&& forall|i: int| 0 <= i < self.lines.len() ==> (#[trigger] self.lines[i]).at.valid()
    }

    /// Number of lines ever received.
    pub open spec fn total(self) -> nat {
        self.dropped + self.lines.len()
    }

    /// The buffer after one more line: the oldest line makes room when it is full.
    pub open spec fn push(self, line: LineView) -> ScrollbackView {
        if self.lines.len() == self.cap {
            ScrollbackView {
                lines: self.lines.skip(1).push(line),
                dropped: self.dropped + 1,
                ..self
            }
        } else {
            ScrollbackView { lines: self.lines.push(line), ..self }
        }
    }

    /// The buffer after each of `lines` in turn.
    pub open spec fn push_all(self, lines: Seq<LineView>) -> ScrollbackView
        decreases lines.len(),
    {
        if lines.len() == 0 {
            self
        } else {
            self.push_all(lines.drop_last()).push(lines.last())
        }
    }

    /// How many of the lines held are older than `mark`.
    pub open spec fn older_than(self, mark: nat) -> nat {
        if mark <= self.dropped {
            0
        } else if mark - self.dropped <= self.lines.len() {
            (mark - self.dropped) as nat
        } else {
            self.lines.len()
        }
    }

    /// The lines held that were received since `mark`.
    pub open spec fn since(self, mark: nat) -> Seq<LineView> {
        self.lines.skip(self.older_than(mark) as int)
    }
}

/// The views of a sequence of lines.
pub open spec fn line_views(lines: Seq<Line>) -> Seq<LineView> {
    lines.map_values(|l: Line| l@)
}

/// The views of a sequence of borrowed lines.
pub open spec fn borrowed_views(lines: Seq<&Line>) -> Seq<LineView> {
    lines.map_values(|l: &Line| l@)
}

impl View for Scrollback {
    type V = ScrollbackView;

    closed spec fn view(&self) -> ScrollbackView {
        ScrollbackView {
            lines: line_views(self.lines@),
            cap: self.cap as nat,
            dropped: self.dropped as nat,
        }
    }
}

impl Scrollback {
    pub fn new(cap: usize) -> (sb: Self)
        ensures
            sb@ == ScrollbackView::empty(cap as nat),
            sb@.well_formed(),
    {
        let reserve: usize = if cap < 1024 { cap } else { 1024 };
        let sb = Scrollback {
            lines: VecDeque::with_capacity(reserve),
            cap: if cap == 0 { 1 } else { cap },
            dropped: 0,
        };
        assert(sb@ =~= ScrollbackView::empty(cap as nat));
        sb
    }

    pub fn push(&mut self, line: Line)
        requires
            old(self)@.well_formed(),
            old(self)@.total() < u64::MAX,
            line.at.valid(),
        ensures
            final(self)@ == old(self)@.push(line@),
            final(self)@.well_formed(),
    {
        if self.lines.len() == self.cap {
            let _ = self.lines.pop_front();
            self.dropped += 1;
        }
        self.lines.push_back(line);
        assert(self@ =~= old(self)@.push(line@));
    }

    pub fn len(&self) -> (n: usize)
        ensures
            n == self@.lines.len(),
    {
        self.lines.len()
    }

    pub fn dropped(&self) -> (n: u64)
        ensures
            n == self@.dropped,
    {
        self.dropped
    }

    /// Number of lines ever received, including those already evicted.
    pub fn total(&self) -> (n: u64)
        requires
            self@.well_formed(),
        ensures
            n == self@.total(),
    {
        self.dropped + self.lines.len() as u64
    }

    /// Lines received since `mark`, expressed in `total()` terms.
    pub fn since(&self, mark: u64) -> (v: Vec<&Line>)
        requires
            self@.well_formed(),
        ensures
            borrowed_views(v@) == self@.since(mark as nat),
    {
        let n: usize = self.lines.len();
        let newer: u64 = mark.saturating_sub(self.dropped);
        let skip: usize = if newer < n as u64 { newer as usize } else { n };
        let mut v: Vec<&Line> = Vec::new();
        let mut i: usize = skip;
        while i < n
            invariant
                skip <= i <= n,
                n == self.lines@.len(),
                v@.len() == i - skip,
                forall|j: int| 0 <= j < v@.len() ==> (#[trigger] v@[j])@ == self.lines@[skip + j]@,
            decreases n - i,
        {
            v.push(&self.lines[i]);
            i += 1;
        }
        assert(borrowed_views(v@) =~= self@.since(mark as nat));
        v
    }

    pub fn get(&self, i: usize) -> (r: Option<&Line>)
        ensures
            r is Some <==> i < self@.lines.len(),
            r matches Some(l) ==> l@ == self@.lines[i as int],
    {
        if i < self.lines.len() {
            Some(&self.lines[i])
        } else {
            None
        }
    }
}

/// Whatever is pushed, the buffer holds the newest lines, as many as fit, in the
/// order received, and the count of lines ever received grows by one for each.
pub proof fn newest_lines_are_kept(sb: ScrollbackView, lines: Seq<LineView>)
    requires
        sb.cap >= 1,
        sb.lines.len() <= sb.cap,
    ensures
        ({
            let all = sb.lines + lines;
            let after = sb.push_all(lines);
            let kept = if all.len() <= sb.cap { all.len() } else { sb.cap };
            &&& after.cap == sb.cap
            &&& after.lines == all.skip(all.len() - kept)
            &&& after.total() == sb.total() + lines.len()
        }),
    decreases lines.len(),
{
    if lines.len() > 0 {
        newest_lines_are_kept(sb, lines.drop_last());
        let before = sb.push_all(lines.drop_last());
        let all = sb.lines + lines;
        let part = sb.lines + lines.drop_last();
        let kept = if all.len() <= sb.cap { all.len() } else { sb.cap };
        assert(before.push(lines.last()).lines =~= all.skip(all.len() - kept));
    } else {
        assert(sb.lines + lines =~= sb.lines);
        assert(sb.lines.skip(0) =~= sb.lines);
    }
}

/// A mark taken before some lines arrive selects exactly those lines afterwards, or
/// what is left of them once older lines were evicted.
pub proof fn a_mark_selects_what_came_after(sb: ScrollbackView, lines: Seq<LineView>)
    requires
        sb.cap >= 1,
        sb.lines.len() <= sb.cap,
    ensures
        sb.push_all(lines).since(sb.total()) == (if lines.len() <= sb.cap {
            lines
        } else {
            lines.skip(lines.len() - sb.cap)
        }),
{
    newest_lines_are_kept(sb, lines);
    let all = sb.lines + lines;
    let after = sb.push_all(lines);
    let kept = if all.len() <= sb.cap { all.len() } else { sb.cap };
    if lines.len() <= sb.cap {
        assert(after.since(sb.total()) =~= lines);
    } else {
        assert(after.since(sb.total()) =~= lines.skip(lines.len() - sb.cap));
    }
}

/// Pushing keeps a buffer well formed while the line count stays below the limit.
pub proof fn push_keeps_buffers_well_formed(sb: ScrollbackView, lines: Seq<LineView>)
    requires
        sb.well_formed(),
        sb.total() + lines.len() <= u64::MAX,
        forall|i: int| 0 <= i < lines.len() ==> (#[trigger] lines[i]).at.valid(),
    ensures
        sb.push_all(lines).well_formed(),
        sb.push_all(lines).total() == sb.total() + lines.len(),
    decreases lines.len(),
{
    if lines.len() > 0 {
        let rest = lines.drop_last();
        assert forall|i: int| 0 <= i < rest.len() implies (#[trigger] rest[i]).at.valid() by {
            assert(rest[i] == lines[i]);
        }
        push_keeps_buffers_well_formed(sb, rest);
        let before = sb.push_all(rest);
        let after = before.push(lines.last());
        assert forall|i: int| 0 <= i < after.lines.len() implies (
        #[trigger] after.lines[i]).at.valid() by {
            if i < after.lines.len() - 1 {
                if before.lines.len() == before.cap {
                    assert(after.lines[i] == before.lines[i + 1]);
                } else {
                    assert(after.lines[i] == before.lines[i]);
                }
            }
        }
    }
}

/// A prefix tells one time of a line and nothing else of it: none, the time since the
/// start, the time of day, or the time since the line before. It fills the same
/// columns as long as the time fits its field.
pub proof fn a_prefix_tells_one_time(a: LineView, b: LineView, ts: TsMode)
    ensures
        ts == TsMode::Off <==> a.prefix(ts).len() == 0,
        ts == TsMode::Rel && a.rel == b.rel ==> a.prefix(ts) == b.prefix(ts),
        ts == TsMode::Abs && a.at == b.at ==> a.prefix(ts) == b.prefix(ts),
        ts == TsMode::Delta && a.delta == b.delta ==> a.prefix(ts) == b.prefix(ts),
        ts == TsMode::Rel && clock::seconds_text(a.rel.nanos as nat).len() <= 9 ==> a.prefix(
            ts,
        ).len() == 12,
        ts == TsMode::Delta && clock::seconds_text(a.delta.nanos as nat).len() <= 8 ==> a.prefix(
            ts,
        ).len() == 12,
        ts == TsMode::Rel ==> text::occurs(
            clock::seconds_text(a.rel.nanos as nat),
            a.prefix(ts),
        ),
        ts == TsMode::Abs ==> text::occurs(clock::clock_text(a.at), a.prefix(ts)),
        ts == TsMode::Delta ==> text::occurs(
            seq!['+'],
            a.prefix(ts),
        ) && text::occurs(clock::seconds_text(a.delta.nanos as nat), a.prefix(ts)),
{
    reveal_strlit("] ");
    reveal_strlit("[+");
    let p = a.prefix(ts);
    if ts == TsMode::Rel {
        let s = clock::seconds_text(a.rel.nanos as nat);
        text::alignment_only_adds_blanks(s, 9);
        let r = text::right_aligned(s, 9);
        let front = seq!['['] + r.take(r.len() - s.len());
        assert(r.skip(r.len() - s.len()) =~= s);
        text::a_text_is_found_wherever_it_stands(front, s, "] "@, s);
        assert(p =~= front + s + "] "@);
    } else if ts == TsMode::Abs {
        text::a_text_is_found_wherever_it_stands(seq!['['], clock::clock_text(a.at), "] "@, p);
    } else if ts == TsMode::Delta {
        let s = clock::seconds_text(a.delta.nanos as nat);
        text::alignment_only_adds_blanks(s, 8);
        let r = text::right_aligned(s, 8);
        let front = "[+"@ + r.take(r.len() - s.len());
        assert(r.skip(r.len() - s.len()) =~= s);
        text::a_text_is_found_wherever_it_stands(front, s, "] "@, s);
        assert(p =~= front + s + "] "@);
        text::a_text_is_found_wherever_it_stands(seq!['['], seq!['+'], p.skip(2), p);
        assert(p =~= seq!['['] + seq!['+'] + p.skip(2));
    }
}

/// What a reader sees of a line is all of it but its escape sequences: a line without
/// an escape byte is shown as it came, and a control sequence in front of it changes
/// nothing.
pub proof fn escape_sequences_are_not_seen(
    line: LineView,
    params: Seq<u8>,
    last: u8,
)
    requires
        valid_utf8(line.raw),
        forall|i: int| 0 <= i < params.len() ==> !(0x40 <= #[trigger] params[i] <= 0x7e),
        0x40 <= last <= 0x7e,
    ensures
        !line.raw.contains(0x1b) ==> encode_utf8(line.text()) == line.raw,
        (LineView { raw: seq![0x1b, 0x5b] + params + seq![last] + line.raw, ..line }).text()
            == line.text(),
{
    ansi::control_sequences_vanish(params, last, line.raw);
    if !line.raw.contains(0x1b) {
        assert forall|i: int| 0 <= i < line.raw.len() implies #[trigger] line.raw[i] != ansi::ESC by {
            assert(line.raw.contains(line.raw[i]));
        }
        ansi::plain_text_is_kept(line.raw);
        decode_utf8_encode_utf8(line.raw);
    }
}

/// A new buffer has room for what was asked for, and for one line at least; it has
/// received nothing.
pub proof fn a_new_buffer_is_empty(cap: nat, line: LineView)
    ensures
        ({
            let sb = ScrollbackView::empty(cap);
            &&& sb.lines.len() == 0
            &&& sb.total() == 0
            &&& cap >= 1 ==> sb.cap == cap
            &&& cap == 0 ==> sb.cap == 1
            &&& sb.push(line).lines == seq![line]
        }),
{
    assert(ScrollbackView::empty(cap).push(line).lines =~= seq![line]);
}

/// A mark selects the newest lines, as many as were received since it, as far as they
/// are still held.
pub proof fn a_mark_counts_lines(sb: ScrollbackView, mark: nat)
    ensures
        sb.since(mark).is_suffix_of(sb.lines),
        sb.dropped <= mark <= sb.total() ==> sb.since(mark).len() == sb.total() - mark,
        mark < sb.dropped ==> sb.since(mark) == sb.lines,
        mark > sb.total() ==> sb.since(mark).len() == 0,
{
    let s = sb.since(mark);
    assert(s =~= sb.lines.subrange(sb.lines.len() - s.len(), sb.lines.len() as int));
    if mark < sb.dropped {
        assert(sb.lines.skip(0) =~= sb.lines);
    }
}

} // verus!
