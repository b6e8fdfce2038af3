//! The scrollback view: scrolling, searching and filtering, and what is on screen.
use crate::cli::TsMode;
use crate::input::Key;
use crate::scrollback::{Line, LineView, Scrollback, ScrollbackView};
use crate::session;
use crate::text;
use ansi_to_tui::IntoText;
use vstd::arithmetic::div_mod::*;
use vstd::prelude::*;
use vstd::utf8::*;

verus! {

/// Background of the line in focus.
pub const CURSOR_BACKGROUND: u8 = 236;

/// Background of the other lines that match the search.
pub const MATCH_BACKGROUND: u8 = 238;

/// Colour of the frame.
pub const BORDER: u8 = 240;

/// Colour of the key hints.
pub const DIM: u8 = 245;

/// Colour of positions and prompts.
pub const ACCENT: u8 = 39;

/// Colour of the mark that the newest line is followed.
pub const FOLLOW: u8 = 41;

/// Colour of what narrows or marks the view.
pub const NOTICE: u8 = 215;

/// Colour of errors and of the recording mark.
pub const ALERT: u8 = 203;

/// The page length when the terminal does not tell its height.
pub const DEFAULT_PAGE: usize = 10;

/// `regex::Regex`, carried as it is.
#[verifier::external_type_specification]
#[verifier::external_body]
pub struct ExRegex(regex::Regex);

/// The pattern that `Regex::new` was given to make a compiled expression.
pub uninterp spec fn pattern_of(re: regex::Regex) -> Seq<char>;

/// What the regex crate says is wrong with a pattern, on a machine with words of so
/// many bits, if it does not accept it.
pub uninterp spec fn pattern_error(word_bits: nat, pattern: Seq<char>) -> Option<Seq<char>>;

/// Whether a pattern matches anywhere in a text.
pub uninterp spec fn pattern_matches(pattern: Seq<char>, haystack: Seq<char>) -> bool;

/// `Regex::new` compiles a pattern, or says what is wrong with it. Which patterns it
/// accepts depends on the pattern alone, up to a limit on the compiled size that
/// goes with the machine's word.
#[verifier::external_body]
fn compile(pattern: &str) -> (r: Result<regex::Regex, String>)
    ensures
        match r {
            Ok(re) => pattern_of(re) == pattern@ && pattern_error(
                usize::BITS as nat,
                pattern@,
            ) is None,
            Err(e) => pattern_error(usize::BITS as nat, pattern@) == Some(e@),
        },
{
    regex::Regex::new(pattern).map_err(|e| e.to_string())
}

/// `Regex::is_match` tells whether the pattern matches anywhere in a text. The answer
/// depends on the pattern and the text alone.
#[verifier::external_body]
fn is_match(re: &regex::Regex, haystack: &str) -> (r: bool)
    ensures
        r == pattern_matches(pattern_of(*re), haystack@),
{
    re.is_match(haystack)
}

/// The columns that each line of coloured text takes on screen, if the text can be
/// taken apart.
pub uninterp spec fn ansi_widths(raw: Seq<u8>) -> Option<Seq<usize>>;

/// ansi-to-tui's `into_text` turns bytes with escape sequences into styled lines; each
/// is handed out as the columns that ratatui's `Line::width` counts. The counts depend
/// on the bytes alone.
#[verifier::external_body]
fn line_widths(raw: &[u8]) -> (r: Option<Vec<usize>>)
    ensures
        match r {
            Some(v) => ansi_widths(raw@) == Some(v@),
            None => ansi_widths(raw@) is None,
        },
{
    raw.into_text().ok().map(|t| t.lines.iter().map(|l| l.width()).collect())
}

/// The columns of the first line; none where there is no line.
pub open spec fn first_of(widths: Option<Seq<usize>>) -> Option<usize> {
    match widths {
        None => None,
        Some(v) => Some(
            if v.len() == 0 {
                0
            } else {
                v[0]
            },
        ),
    }
}

/// The columns that the first line of coloured text takes on screen, if the text can
/// be taken apart.
pub open spec fn ansi_columns(raw: Seq<u8>) -> Option<usize> {
    first_of(ansi_widths(raw))
}

/// The columns of the first line, given those of all lines.
pub fn first_width(widths: Option<Vec<usize>>) -> (r: Option<usize>)
    ensures
        r == first_of(
            match widths {
                Some(v) => Some(v@),
                None => None,
            },
        ),
{
    match widths {
        None => None,
        Some(v) => Some(
            if v.len() == 0 {
                0
            } else {
                v[0]
            },
        ),
    }
}

fn ansi_width(raw: &[u8]) -> (r: Option<usize>)
    ensures
        r == ansi_columns(raw@),
{
    first_width(line_widths(raw))
}

/// The columns that plain text takes on screen.
pub uninterp spec fn plain_columns(s: Seq<char>) -> usize;

/// ratatui's `Line::width` of plain text. The count depends on the text alone.
#[verifier::external_body]
fn plain_width(s: &str) -> (r: usize)
    ensures
        r == plain_columns(s@),
{
    ratatui::text::Line::from(s).width()
}

/// What a key in the scrollback view asks the session to do.
#[derive(Copy, Clone, Debug, PartialEq, Eq, Structural)]
pub enum TuiAction {
    Stay,
    Leave,
    Quit,
}

/// What the scrollback view tells about the session.
#[derive(Debug)]
pub struct TuiStatus {
    pub port: String,
    pub baud: String,
    pub frame: String,
    pub connected: bool,
    pub rx_bytes: u64,
    pub ts: TsMode,
    pub logging: Option<String>,
    pub uptime: String,
}

/// The contents of a status.
#[verifier::ext_equal]
pub struct StatusView {
    pub port: Seq<char>,
    pub baud: Seq<char>,
    pub frame: Seq<char>,
    pub connected: bool,
    pub rx_bytes: nat,
    pub ts: TsMode,
    pub logging: bool,
    pub uptime: Seq<char>,
}

impl View for TuiStatus {
    type V = StatusView;

    open spec fn view(&self) -> StatusView {
        StatusView {
            port: self.port@,
            baud: self.baud@,
            frame: self.frame@,
            connected: self.connected,
            rx_bytes: self.rx_bytes as nat,
            ts: self.ts,
            logging: self.logging is Some,
            uptime: self.uptime@,
        }
    }
}

impl StatusView {
    /// The title of the frame.
    pub open spec fn title(self) -> Seq<char> {
        " "@ + self.port + " · "@ + self.baud + " "@ + self.frame + " · "@ + (if self.connected {
            "connected"@
        } else {
            "waiting"@
        }) + " · "@ + session::bytes_text(self.rx_bytes) + " · "@ + self.uptime + " "@
    }
}

/// What the keys are for.
#[derive(Copy, Clone, Debug, PartialEq, Eq, Structural)]
pub enum Mode {
    Normal,
    Search,
    Filter,
}

/// The scrollback view.
#[derive(Debug)]
pub struct Tui {
    pub mode: Mode,
    pub input: String,
    pub filter: Option<regex::Regex>,
    pub filter_src: String,
    pub search: Option<regex::Regex>,
    pub search_src: String,
    pub error: Option<String>,
    /// Index into the filtered view of the line kept in sight.
    pub cursor: usize,
    pub follow: bool,
    pub page: usize,
    pub pending_escape: bool,
}

/// The state of a scrollback view.
#[verifier::ext_equal]
pub struct TuiView {
    pub mode: Mode,
    pub input: Seq<char>,
    pub filter: Option<Seq<char>>,
    pub filter_src: Seq<char>,
    pub search: Option<Seq<char>>,
    pub search_src: Seq<char>,
    pub error: Option<Seq<char>>,
    pub cursor: nat,
    pub follow: bool,
    pub page: nat,
    pub pending_escape: bool,
}

/// The pattern of an expression, if there is one.
pub open spec fn opt_pattern(re: Option<regex::Regex>) -> Option<Seq<char>> {
    match re {
        Some(r) => Some(pattern_of(r)),
        None => None,
    }
}

/// What compiling a pattern came to.
pub open spec fn outcome(r: Result<regex::Regex, String>) -> Result<Seq<char>, Seq<char>> {
    match r {
        Ok(re) => Ok(pattern_of(re)),
        Err(e) => Err(e@),
    }
}

/// The text, if there is one.
pub open spec fn opt_string(s: Option<String>) -> Option<Seq<char>> {
    match s {
        Some(t) => Some(t@),
        None => None,
    }
}

impl View for Tui {
    type V = TuiView;

    open spec fn view(&self) -> TuiView {
        TuiView {
            mode: self.mode,
            input: self.input@,
            filter: opt_pattern(self.filter),
            filter_src: self.filter_src@,
            search: opt_pattern(self.search),
            search_src: self.search_src@,
            error: opt_string(self.error),
            cursor: self.cursor as nat,
            follow: self.follow,
            page: self.page as nat,
            pending_escape: self.pending_escape,
        }
    }
}

/// Whether a line passes a filter.
pub open spec fn passes(filter: Option<Seq<char>>, line: LineView) -> bool {
    match filter {
        None => true,
        Some(p) => pattern_matches(p, line.text()),
    }
}

/// The positions that are marked, in order.
pub open spec fn marked(marks: Seq<bool>) -> Seq<usize>
    decreases marks.len(),
{
    if marks.len() == 0 {
        Seq::empty()
    } else {
        let head = marked(marks.drop_last());
        if marks.last() {
            head.push((marks.len() - 1) as usize)
        } else {
            head
        }
    }
}

/// Which lines pass a filter.
pub open spec fn passing(filter: Option<Seq<char>>, lines: Seq<LineView>) -> Seq<bool> {
    Seq::new(lines.len(), |i: int| passes(filter, lines[i]))
}

/// The positions of the lines that pass a filter, in order.
pub open spec fn visible_in(filter: Option<Seq<char>>, lines: Seq<LineView>) -> Seq<usize> {
    marked(passing(filter, lines))
}

/// The last position in a view, or 0 where it holds nothing.
pub open spec fn last_of(view: Seq<usize>) -> nat {
    if view.len() == 0 {
        0
    } else {
        (view.len() - 1) as nat
    }
}

/// The smaller of two numbers.
pub open spec fn least(a: nat, b: nat) -> nat {
    if a <= b {
        a
    } else {
        b
    }
}

/// The position, from `step` steps off `start` on and around the end, of the first
/// mark.
pub open spec fn next_marked(marks: Seq<bool>, start: int, dir: int, step: int) -> Option<nat>
    decreases marks.len() + 1 - step,
{
    if step > marks.len() {
        None
    } else {
        let idx = (start + dir * step) % (marks.len() as int);
        if marks[idx] {
            Some(idx as nat)
        } else {
            next_marked(marks, start, dir, step + 1)
        }
    }
}

/// Which lines of a view match a pattern.
pub open spec fn matching(lines: Seq<LineView>, view: Seq<usize>, pattern: Seq<char>) -> Seq<bool> {
    Seq::new(view.len(), |i: int| pattern_matches(pattern, lines[view[i] as int].text()))
}

impl TuiView {
    /// A view that follows the newest line, unfiltered.
    pub open spec fn initial() -> TuiView {
        TuiView {
            mode: Mode::Normal,
            input: Seq::empty(),
            filter: None,
            filter_src: Seq::empty(),
            search: None,
            search_src: Seq::empty(),
            error: None,
            cursor: usize::MAX as nat,
            follow: true,
            page: DEFAULT_PAGE as nat,
            pending_escape: false,
        }
    }

    /// The positions of the lines in the view.
    pub open spec fn visible(self, lines: Seq<LineView>) -> Seq<usize> {
        visible_in(self.filter, lines)
    }

    /// The cursor, moved but kept inside the view. At the end the newest line is
    /// followed.
    pub open spec fn moved(self, delta: int, last: nat) -> TuiView {
        let to = least(self.cursor, last) + delta;
        let next = if to < 0 {
            0nat
        } else {
            least(to as nat, last)
        };
        TuiView { cursor: next, follow: next >= last, ..self }
    }

    /// The cursor on the next line that matches the search, around the end of the
    /// view; where nothing matches it stays.
    pub open spec fn jumped(self, lines: Seq<LineView>, dir: int) -> TuiView {
        let view = self.visible(lines);
        match self.search {
            None => self,
            Some(p) => if view.len() == 0 {
                self
            } else {
                match next_marked(
                    matching(lines, view, p),
                    least(self.cursor, last_of(view)) as int,
                    dir,
                    1,
                ) {
                    None => self,
                    Some(idx) => TuiView { cursor: idx, follow: false, ..self },
                }
            },
        }
    }

    /// What became of the pattern typed: the pattern itself, or what is wrong with it.
    pub open spec fn compiled(self) -> Result<Seq<char>, Seq<char>> {
        match pattern_error(usize::BITS as nat, self.input) {
            None => Ok(self.input),
            Some(e) => Err(e),
        }
    }

    /// What is wrong with a pattern is reported, in one line.
    pub open spec fn complained(self, e: Seq<char>) -> TuiView {
        TuiView { error: Some(text::trimmed(text::first_line_text(e))), ..self }
    }

    /// The pattern typed is put to use, once it is compiled. One that does not compile
    /// is reported and not applied.
    pub open spec fn applied_as(
        self,
        compiled: Result<Seq<char>, Seq<char>>,
        lines: Seq<LineView>,
    ) -> TuiView {
        match compiled {
            Err(e) => self.complained(e),
            Ok(p) => if self.mode == Mode::Search {
                (TuiView {
                    search: Some(p),
                    search_src: self.input,
                    error: None,
                    ..self
                }).jumped(lines, 1)
            } else {
                TuiView {
                    filter: Some(p),
                    filter_src: self.input,
                    error: None,
                    follow: true,
                    cursor: usize::MAX as nat,
                    ..self
                }
            },
        }
    }

    /// The pattern typed is put to use: an empty one is dropped.
    pub open spec fn applied(self, lines: Seq<LineView>) -> TuiView {
        if self.input.len() > 0 {
            self.applied_as(self.compiled(), lines)
        } else if self.mode == Mode::Search {
            TuiView { search: None, search_src: Seq::empty(), error: None, ..self }
        } else {
            TuiView { filter: None, filter_src: Seq::empty(), error: None, ..self }
        }
    }

    /// The pattern typed becomes the filter, once it is compiled. One that does not
    /// compile is reported and not applied.
    pub open spec fn filtered_as(self, compiled: Result<Seq<char>, Seq<char>>) -> TuiView {
        match compiled {
            Err(e) => self.complained(e),
            Ok(p) => TuiView {
                filter: Some(p),
                filter_src: self.input,
                error: None,
                ..self
            },
        }
    }

    /// The filter follows what is typed, as long as it compiles.
    pub open spec fn filtered_live(self) -> TuiView {
        if self.input.len() > 0 {
            self.filtered_as(self.compiled())
        } else {
            TuiView { filter: None, filter_src: Seq::empty(), error: None, ..self }
        }
    }

    /// The text typed becomes `input`.
    pub open spec fn edited(self, input: Seq<char>) -> TuiView {
        let t = TuiView { input, ..self };
        if self.mode == Mode::Filter {
            t.filtered_live()
        } else {
            t
        }
    }

    /// A key while a pattern is being typed.
    pub open spec fn after_editing_key(self, key: Key, lines: Seq<LineView>) -> TuiView {
        match key {
            Key::Esc => TuiView {
                mode: Mode::Normal,
                input: Seq::empty(),
                error: None,
                ..self
            },
            Key::Enter => TuiView { mode: Mode::Normal, ..self.applied(lines) },
            Key::Backspace => self.edited(
                if self.input.len() == 0 {
                    self.input
                } else {
                    self.input.drop_last()
                },
            ),
            Key::Char(c) => self.edited(self.input.push(c)),
            Key::Ctrl(c) => if c == 'u' {
                self.edited(Seq::empty())
            } else {
                self
            },
            _ => self,
        }
    }

    /// A key that moves around.
    pub open spec fn after_normal_key(self, key: Key, lines: Seq<LineView>) -> (
        TuiView,
        TuiAction,
    ) {
        let last = last_of(self.visible(lines));
        if key == Key::Char('q') || key == Key::Esc || key == Key::Ctrl('c') {
            (self, TuiAction::Leave)
        } else {
            (
                if key == Key::Ctrl('a') {
                    TuiView { pending_escape: true, ..self }
                } else if key == Key::Up || key == Key::Char('k') {
                    self.moved(-1, last)
                } else if key == Key::Down || key == Key::Char('j') {
                    self.moved(1, last)
                } else if key == Key::PageUp {
                    self.moved(-self.page, last)
                } else if key == Key::PageDown {
                    self.moved(self.page as int, last)
                } else if key == Key::Home || key == Key::Char('g') {
                    TuiView { cursor: 0, follow: false, ..self }
                } else if key == Key::End || key == Key::Char('G') {
                    TuiView { cursor: last, follow: true, ..self }
                } else if key == Key::Char('/') {
                    TuiView { mode: Mode::Search, input: self.search_src, error: None, ..self }
                } else if key == Key::Char('f') {
                    TuiView { mode: Mode::Filter, input: self.filter_src, error: None, ..self }
                } else if key == Key::Char('n') {
                    self.jumped(lines, 1)
                } else if key == Key::Char('N') {
                    self.jumped(lines, -1)
                } else {
                    self
                },
                TuiAction::Stay,
            )
        }
    }

    /// The view after a key, and what the session is to do.
    pub open spec fn after_key(self, key: Key, lines: Seq<LineView>) -> (TuiView, TuiAction) {
        let t = TuiView { pending_escape: false, ..self };
        if self.pending_escape && key == Key::Char('q') {
            (t, TuiAction::Quit)
        } else if self.mode == Mode::Normal {
            t.after_normal_key(key, lines)
        } else {
            (t.after_editing_key(key, lines), TuiAction::Stay)
        }
    }
}

/// The positions that are marked, in order.
pub fn positions(marks: &[bool]) -> (v: Vec<usize>)
    ensures
        v@ == marked(marks@),
        forall|i: int| 0 <= i < v@.len() ==> (#[trigger] v@[i]) < marks@.len(),
{
    let n: usize = marks.len();
    let mut v: Vec<usize> = Vec::new();
    let mut i: usize = 0;
    assert(marks@.take(0) =~= Seq::empty());
    while i < n
        invariant
            i <= n,
            n == marks@.len(),
            v@ == marked(marks@.take(i as int)),
        decreases n - i,
    {
        assert(marks@.take(i + 1).drop_last() =~= marks@.take(i as int));
        if marks[i] {
            v.push(i);
        }
        i += 1;
    }
    assert(marks@.take(n as int) =~= marks@);
    proof {
        lemma_marked(marks@);
    }
    v
}

/// The position of the next mark off `start`, forwards or backwards and around the
/// end.
pub fn next_mark(marks: &[bool], start: usize, dir: isize) -> (r: Option<usize>)
    requires
        start < marks@.len(),
        dir == 1 || dir == -1,
    ensures
        match next_marked(marks@, start as int, dir as int, 1) {
            Some(idx) => r == Some(idx as usize) && idx < marks@.len(),
            None => r is None,
        },
{
    let n: usize = marks.len();
    let mut idx: usize = start;
    let mut step: usize = 0;
    let ghost mut turns: int = 0;
    while step < n
        invariant
            dir == 1 || dir == -1,
            n == marks@.len(),
            0 <= step <= n,
            idx < n,
            start + (if dir == 1 {
                step as int
            } else {
                -(step as int)
            }) == turns * n + idx,
            next_marked(marks@, start as int, dir as int, 1) == next_marked(
                marks@,
                start as int,
                dir as int,
                step + 1,
            ),
        decreases n - step,
    {
        step += 1;
        if dir == 1 {
            if idx == n - 1 {
                idx = 0;
                proof {
                    assert((turns + 1) * n == turns * n + n) by (nonlinear_arith);
                    turns = turns + 1;
                }
            } else {
                idx += 1;
            }
        } else {
            if idx == 0 {
                idx = n - 1;
                proof {
                    assert((turns - 1) * n == turns * n - n) by (nonlinear_arith);
                    turns = turns - 1;
                }
            } else {
                idx -= 1;
            }
        }
        proof {
            if dir == 1 {
                assert(dir * step == step) by (nonlinear_arith)
                    requires
                        dir == 1,
                ;
            } else {
                assert(dir * step == -step) by (nonlinear_arith)
                    requires
                        dir == -1,
                ;
            }
            lemma_fundamental_div_mod_converse(start + dir * step, n as int, turns, idx as int);
        }
        if marks[idx] {
            return Some(idx);
        }
    }
    None
}

impl Tui {
    /// A view that follows the newest line, unfiltered.
    pub fn new() -> (r: Self)
        ensures
            r@ == TuiView::initial(),
    {
        let r = Tui {
            mode: Mode::Normal,
            input: String::new(),
            filter: None,
            filter_src: String::new(),
            search: None,
            search_src: String::new(),
            error: None,
            cursor: usize::MAX,
            follow: true,
            page: DEFAULT_PAGE,
            pending_escape: false,
        };
        assert(r@ =~= TuiView::initial());
        r
    }

    /// The positions of the lines in the view.
    pub fn visible(&self, sb: &Scrollback) -> (v: Vec<usize>)
        ensures
            v@ == self@.visible(sb@.lines),
            forall|i: int| 0 <= i < v@.len() ==> (#[trigger] v@[i]) < sb@.lines.len(),
    {
        let n: usize = sb.len();
        let ghost all = passing(self@.filter, sb@.lines);
        let mut marks: Vec<bool> = Vec::new();
        let mut i: usize = 0;
        while i < n
            invariant
                i <= n,
                n == sb@.lines.len(),
                all == passing(self@.filter, sb@.lines),
                marks@.len() == i,
                forall|j: int| 0 <= j < i ==> #[trigger] marks@[j] == all[j],
            decreases n - i,
        {
            let keep = match &self.filter {
                None => true,
                Some(re) => match sb.get(i) {
                    Some(l) => is_match(re, l.text().as_str()),
                    None => false,
                },
            };
            marks.push(keep);
            i += 1;
        }
        assert(marks@ =~= all);
        positions(marks.as_slice())
    }

    /// Takes in a key.
    pub fn on_key(&mut self, key: Key, sb: &Scrollback) -> (action: TuiAction)
        ensures
            (final(self)@, action) == old(self)@.after_key(key, sb@.lines),
    {
        if self.pending_escape {
            self.pending_escape = false;
            if key == Key::Char('q') {
                return TuiAction::Quit;
            }
        }
        assert(self@ =~= (TuiView { pending_escape: false, ..old(self)@ }));
        match self.mode {
            Mode::Normal => self.normal_key(key, sb),
            _ => {
                self.editing_key(key, sb);
                TuiAction::Stay
            },
        }
    }

    fn normal_key(&mut self, key: Key, sb: &Scrollback) -> (action: TuiAction)
        ensures
            (final(self)@, action) == old(self)@.after_normal_key(key, sb@.lines),
    {
        let view = self.visible(sb);
        let last: usize = if view.len() == 0 {
            0
        } else {
            view.len() - 1
        };
        match key {
            Key::Char('q') | Key::Esc => {
                return TuiAction::Leave;
            },
            Key::Ctrl('a') => {
                self.pending_escape = true;
            },
            Key::Ctrl('c') => {
                return TuiAction::Leave;
            },
            Key::Up | Key::Char('k') => self.move_cursor(true, 1, last),
            Key::Down | Key::Char('j') => self.move_cursor(false, 1, last),
            Key::PageUp => self.move_cursor(true, self.page, last),
            Key::PageDown => self.move_cursor(false, self.page, last),
            Key::Home | Key::Char('g') => {
                self.cursor = 0;
                self.follow = false;
            },
            Key::End | Key::Char('G') => {
                self.cursor = last;
                self.follow = true;
            },
            Key::Char('/') => {
                self.mode = Mode::Search;
                self.input = self.search_src.clone();
                self.error = None;
            },
            Key::Char('f') => {
                self.mode = Mode::Filter;
                self.input = self.filter_src.clone();
                self.error = None;
            },
            Key::Char('n') => self.jump_match(sb, 1),
            Key::Char('N') => self.jump_match(sb, -1),
            _ => {},
        }
        assert(self@ =~= old(self)@.after_normal_key(key, sb@.lines).0);
        TuiAction::Stay
    }

    fn editing_key(&mut self, key: Key, sb: &Scrollback)
        ensures
            final(self)@ == old(self)@.after_editing_key(key, sb@.lines),
    {
        match key {
            Key::Esc => {
                self.mode = Mode::Normal;
                self.input = String::new();
                self.error = None;
            },
            Key::Enter => {
                self.apply_input(sb);
                self.mode = Mode::Normal;
            },
            Key::Backspace => {
                let _ = self.input.pop();
                self.follow_input();
            },
            Key::Char(c) => {
                self.input.push(c);
                self.follow_input();
            },
            Key::Ctrl('u') => {
                self.input = String::new();
                self.follow_input();
            },
            _ => {},
        }
        assert(self@ =~= old(self)@.after_editing_key(key, sb@.lines));
    }

    fn follow_input(&mut self)
        ensures
            final(self)@ == old(self)@.edited(old(self)@.input),
    {
        if self.mode == Mode::Filter {
            self.apply_filter_live();
        }
    }

    /// Puts the pattern typed to use.
    fn apply_input(&mut self, sb: &Scrollback)
        ensures
            final(self)@ == old(self)@.applied(sb@.lines),
    {
        if self.input.as_str().is_empty() {
            if self.mode == Mode::Search {
                self.search = None;
                self.search_src = String::new();
            } else {
                self.filter = None;
                self.filter_src = String::new();
            }
            self.error = None;
            assert(self@ =~= old(self)@.applied(sb@.lines));
        } else {
            let compiled = compile(self.input.as_str());
            self.apply_compiled(compiled, sb);
        }
    }

    /// Puts the pattern typed to use, given what compiling it came to.
    pub fn apply_compiled(&mut self, compiled: Result<regex::Regex, String>, sb: &Scrollback)
        ensures
            final(self)@ == old(self)@.applied_as(outcome(compiled), sb@.lines),
    {
        match compiled {
            Ok(re) => {
                let ghost p = pattern_of(re);
                self.error = None;
                if self.mode == Mode::Search {
                    self.search = Some(re);
                    self.search_src = self.input.clone();
                    assert(self@ =~= (TuiView {
                        search: Some(p),
                        search_src: old(self)@.input,
                        error: None,
                        ..old(self)@
                    }));
                    self.jump_match(sb, 1);
                } else {
                    self.filter = Some(re);
                    self.filter_src = self.input.clone();
                    self.follow = true;
                    self.cursor = usize::MAX;
                }
            },
            Err(e) => {
                self.error = Some(text::first_line(e.as_str()));
            },
        }
        assert(self@ =~= old(self)@.applied_as(outcome(compiled), sb@.lines));
    }

    fn apply_filter_live(&mut self)
        ensures
            final(self)@ == old(self)@.filtered_live(),
    {
        if self.input.as_str().is_empty() {
            self.filter = None;
            self.filter_src = String::new();
            self.error = None;
            assert(self@ =~= old(self)@.filtered_live());
        } else {
            let compiled = compile(self.input.as_str());
            self.filter_compiled(compiled);
        }
    }

    /// Makes the pattern typed the filter, given what compiling it came to.
    pub fn filter_compiled(&mut self, compiled: Result<regex::Regex, String>)
        ensures
            final(self)@ == old(self)@.filtered_as(outcome(compiled)),
    {
        match compiled {
            Ok(re) => {
                self.filter = Some(re);
                self.filter_src = self.input.clone();
                self.error = None;
            },
            Err(e) => {
                self.error = Some(text::first_line(e.as_str()));
            },
        }
        assert(self@ =~= old(self)@.filtered_as(outcome(compiled)));
    }

    fn move_cursor(&mut self, up: bool, by: usize, last: usize)
        ensures
            final(self)@ == old(self)@.moved(
                if up {
                    -(by as int)
                } else {
                    by as int
                },
                last as nat,
            ),
    {
        let cur: usize = if self.cursor <= last {
            self.cursor
        } else {
            last
        };
        let next: usize = if up {
            cur.saturating_sub(by)
        } else if by <= last - cur {
            cur + by
        } else {
            last
        };
        self.cursor = next;
        self.follow = next >= last;
        assert(self@ =~= old(self)@.moved(
            if up {
                -(by as int)
            } else {
                by as int
            },
            last as nat,
        ));
    }

    /// Moves to the next line that matches the search, forwards or backwards.
    pub fn jump_match(&mut self, sb: &Scrollback, dir: isize)
        requires
            dir == 1 || dir == -1,
        ensures
            final(self)@ == old(self)@.jumped(sb@.lines, dir as int),
    {
        let view = self.visible(sb);
        let n: usize = view.len();
        let ghost lines = sb@.lines;
        let mut found: Option<usize> = None;
        if let Some(re) = &self.search {
            if n > 0 {
                let ghost all = matching(lines, view@, pattern_of(*re));
                let mut marks: Vec<bool> = Vec::new();
                let mut i: usize = 0;
                while i < n
                    invariant
                        i <= n,
                        n == view@.len(),
                        lines == sb@.lines,
                        forall|i: int| 0 <= i < n ==> (#[trigger] view@[i]) < lines.len(),
                        all == matching(lines, view@, pattern_of(*re)),
                        marks@.len() == i,
                        forall|j: int| 0 <= j < i ==> #[trigger] marks@[j] == all[j],
                    decreases n - i,
                {
                    let hit = match sb.get(view[i]) {
                        Some(l) => is_match(re, l.text().as_str()),
                        None => false,
                    };
                    assert(view@[i as int] < lines.len());
                    marks.push(hit);
                    i += 1;
                }
                assert(marks@ =~= all);
                let start: usize = if self.cursor < n {
                    self.cursor
                } else {
                    n - 1
                };
                found = next_mark(marks.as_slice(), start, dir);
            }
        }
        if let Some(idx) = found {
            self.cursor = idx;
            self.follow = false;
        }
        assert(self@ =~= old(self)@.jumped(lines, dir as int));
    }
}

proof fn lemma_marked(marks: Seq<bool>)
    requires
        marks.len() <= usize::MAX,
    ensures
        ({
            let v = marked(marks);
            &&& v.len() <= marks.len()
            &&& forall|i: int| 0 <= i < v.len() ==> (#[trigger] v[i]) < marks.len()
            &&& forall|i: int, j: int|
                0 <= i < j < v.len() ==> (#[trigger] v[i]) < (#[trigger] v[j])
            &&& forall|k: usize| #[trigger]
                v.contains(k) <==> k < marks.len() && marks[k as int]
        }),
    decreases marks.len(),
{
    let v = marked(marks);
    if marks.len() > 0 {
        let rest = marks.drop_last();
        lemma_marked(rest);
        let head = marked(rest);
        assert forall|k: usize| #[trigger] v.contains(k) <==> k < marks.len() && marks[k as int] by {
            if k < rest.len() {
                assert(rest[k as int] == marks[k as int]);
            }
            if v.contains(k) {
                let i = choose|i: int| 0 <= i < v.len() && v[i] == k;
                if i < head.len() {
                    assert(head[i] == k);
                    assert(head.contains(k));
                }
            }
            if k < marks.len() && marks[k as int] {
                if k < rest.len() {
                    assert(head.contains(k));
                    let i = choose|i: int| 0 <= i < head.len() && head[i] == k;
                    assert(v[i] == k);
                } else {
                    assert(v[v.len() - 1] == k);
                }
            }
        }
    }
}

/// Screen rows that text of so many columns needs once wrapped.
pub open spec fn rows_needed(columns: nat, inner_w: nat) -> nat {
    let w = if inner_w == 0 {
        1
    } else {
        inner_w
    };
    let h = columns / w + if columns % w > 0 {
        1nat
    } else {
        0nat
    };
    if h == 0 {
        1
    } else {
        h
    }
}

/// Screen rows a line of `width` columns needs once wrapped.
pub fn wrapped_height(width: usize, inner_w: usize) -> (r: usize)
    ensures
        r == rows_needed(width as nat, inner_w as nat),
        r >= 1,
{
    let w: usize = if inner_w == 0 {
        1
    } else {
        inner_w
    };
    let whole: usize = width / w;
    if width % w > 0 {
        proof {
            lemma_fundamental_div_mod(width as int, w as int);
            assert(whole < width) by (nonlinear_arith)
                requires
                    width == w * whole + width % w,
                    width % w > 0,
                    w >= 1,
            ;
        }
        whole + 1
    } else if whole == 0 {
        1
    } else {
        whole
    }
}

/// How many lines are shown, of lines with the given heights from the one in focus
/// upwards, when `placed` are in place and `left` screen rows are left.
pub open spec fn fitting(heights: Seq<usize>, placed: int, left: nat) -> int
    decreases heights.len() - placed,
{
    if placed >= heights.len() || heights[placed] > left {
        placed
    } else {
        fitting(heights, placed + 1, (left - heights[placed]) as nat)
    }
}

/// How many lines are shown on a screen with `left` rows. The line in focus is shown
/// however many rows it needs.
pub open spec fn lines_shown(heights: Seq<usize>, left: nat) -> int {
    if heights.len() == 0 {
        0
    } else {
        fitting(
            heights,
            1,
            if heights[0] > left {
                0
            } else {
                (left - heights[0]) as nat
            },
        )
    }
}

/// How many lines fit on a screen with `left` rows, of lines with the given heights
/// from the one in focus upwards.
pub fn lines_that_fit(heights: &[usize], left: usize) -> (n: usize)
    ensures
        n == lines_shown(heights@, left as nat),
        n <= heights@.len(),
        heights@.len() > 0 ==> n >= 1,
{
    let count: usize = heights.len();
    if count == 0 {
        return 0;
    }
    let mut rows_left: usize = left.saturating_sub(heights[0]);
    let mut n: usize = 1;
    while n < count && heights[n] <= rows_left
        invariant
            count == heights@.len(),
            1 <= n <= count,
            lines_shown(heights@, left as nat) == fitting(heights@, n as int, rows_left as nat),
        decreases count - n,
    {
        rows_left -= heights[n];
        n += 1;
    }
    n
}

/// Background of a line: the one in focus stands out, and so do matches.
pub open spec fn background_of(in_focus: bool, matches: bool) -> Option<u8> {
    if in_focus {
        Some(CURSOR_BACKGROUND)
    } else if matches {
        Some(MATCH_BACKGROUND)
    } else {
        None
    }
}

pub fn row_background(in_focus: bool, matches: bool) -> (r: Option<u8>)
    ensures
        r == background_of(in_focus, matches),
{
    if in_focus {
        Some(CURSOR_BACKGROUND)
    } else if matches {
        Some(MATCH_BACKGROUND)
    } else {
        None
    }
}

/// The rows left for finished lines when the unfinished one, of so many columns, is
/// shown below them. It is not where that would leave none.
pub open spec fn room_over_tail(columns: Option<usize>, inner_w: nat, inner_h: nat) -> Option<nat> {
    let h = rows_needed(
        match columns {
            Some(w) => w as nat,
            None => 0,
        },
        inner_w,
    );
    if h < inner_h {
        Some((inner_h - h) as nat)
    } else {
        None
    }
}

pub fn tail_room(columns: Option<usize>, inner_w: usize, inner_h: usize) -> (r: Option<usize>)
    ensures
        match room_over_tail(columns, inner_w as nat, inner_h as nat) {
            Some(n) => r == Some(n as usize) && n <= inner_h,
            None => r is None,
        },
{
    let w: usize = match columns {
        Some(w) => w,
        None => 0,
    };
    let h = wrapped_height(w, inner_w);
    if h < inner_h {
        Some(inner_h - h)
    } else {
        None
    }
}

/// The text of a row on screen.
#[derive(Debug)]
pub enum RowText {
    /// Text with escape sequences, of which the first line is shown
    Ansi(Vec<u8>),
    Plain(String),
}

/// A row on screen, before it is wrapped.
#[derive(Debug)]
pub struct Row {
    pub content: RowText,
    pub background: Option<u8>,
}

/// The text of a row.
#[verifier::ext_equal]
pub enum RowTextView {
    Ansi(Seq<u8>),
    Plain(Seq<char>),
}

/// The contents of a row.
#[verifier::ext_equal]
pub struct RowView {
    pub content: RowTextView,
    pub background: Option<u8>,
}

impl View for Row {
    type V = RowView;

    open spec fn view(&self) -> RowView {
        RowView {
            content: match self.content {
                RowText::Ansi(raw) => RowTextView::Ansi(raw@),
                RowText::Plain(s) => RowTextView::Plain(s@),
            },
            background: self.background,
        }
    }
}

/// A piece of text in one style.
#[derive(Debug)]
pub struct Span {
    pub text: String,
    pub fg: Option<u8>,
    pub bold: bool,
}

/// The contents of a piece of text.
#[verifier::ext_equal]
pub struct SpanView {
    pub text: Seq<char>,
    pub fg: Option<u8>,
    pub bold: bool,
}

impl View for Span {
    type V = SpanView;

    open spec fn view(&self) -> SpanView {
        SpanView { text: self.text@, fg: self.fg, bold: self.bold }
    }
}

/// What is on screen: a frame with a title, rows inside it with the unfinished line
/// below them, and a line of hints.
#[derive(Debug)]
pub struct Screen {
    pub title: String,
    pub rows: Vec<Row>,
    pub tail: Option<Vec<u8>>,
    pub hint: Vec<Span>,
}

/// The contents of a screen.
#[verifier::ext_equal]
pub struct ScreenView {
    pub title: Seq<char>,
    pub rows: Seq<RowView>,
    pub tail: Option<Seq<u8>>,
    pub hint: Seq<SpanView>,
}

/// The views of rows.
pub open spec fn row_views(rows: Seq<Row>) -> Seq<RowView> {
    rows.map_values(|r: Row| r@)
}

/// The views of spans.
pub open spec fn span_views(spans: Seq<Span>) -> Seq<SpanView> {
    spans.map_values(|s: Span| s@)
}

/// The bytes, if there are any.
pub open spec fn opt_bytes(v: Option<Vec<u8>>) -> Option<Seq<u8>> {
    match v {
        Some(b) => Some(b@),
        None => None,
    }
}

impl View for Screen {
    type V = ScreenView;

    open spec fn view(&self) -> ScreenView {
        ScreenView {
            title: self.title@,
            rows: row_views(self.rows@),
            tail: opt_bytes(self.tail),
            hint: span_views(self.hint@),
        }
    }
}

/// A line as it is shown: its timestamp, then what the device sent.
pub open spec fn row_bytes(line: LineView, ts: TsMode) -> Seq<u8> {
    encode_utf8(line.prefix(ts)) + line.raw
}

/// The text of a line on screen. Where the escape sequences cannot be taken apart the
/// plain text stands in.
pub open spec fn row_text(line: LineView, ts: TsMode) -> RowTextView {
    if ansi_columns(row_bytes(line, ts)) is Some {
        RowTextView::Ansi(row_bytes(line, ts))
    } else {
        RowTextView::Plain(line.text())
    }
}

/// The columns that a line takes.
pub open spec fn row_columns(line: LineView, ts: TsMode) -> nat {
    match ansi_columns(row_bytes(line, ts)) {
        Some(w) => w as nat,
        None => plain_columns(line.text()) as nat,
    }
}

/// The inside of the frame while the lines are laid out.
pub struct Pane {
    pub lines: Seq<LineView>,
    /// Positions of the lines in the view
    pub view: Seq<usize>,
    pub search: Option<Seq<char>>,
    pub ts: TsMode,
    /// Columns of a screen row
    pub width: nat,
    /// Index into the view of the line in focus
    pub cursor: nat,
}

impl Pane {
    /// The line at an index of the view.
    pub open spec fn line(self, idx: int) -> LineView {
        self.lines[self.view[idx] as int]
    }

    /// The screen rows that the line needs.
    pub open spec fn height(self, idx: int) -> nat {
        rows_needed(row_columns(self.line(idx), self.ts), self.width)
    }

    /// The line as it is shown.
    pub open spec fn row(self, idx: int) -> RowView {
        RowView {
            content: row_text(self.line(idx), self.ts),
            background: background_of(
                idx == self.cursor,
                match self.search {
                    Some(p) => pattern_matches(p, self.line(idx).text()),
                    None => false,
                },
            ),
        }
    }

    /// The index of the topmost line, when the lines down from `idx` are in place and
    /// `left` screen rows are left above them.
    pub open spec fn top(self, idx: int, left: nat) -> int
        decreases idx,
    {
        if idx <= 0 || self.height(idx - 1) > left {
            idx
        } else {
            self.top(idx - 1, (left - self.height(idx - 1)) as nat)
        }
    }

    /// The index of the topmost line on a screen with `left` rows. The line in focus
    /// is shown however many rows it needs.
    pub open spec fn first(self, left: nat) -> int {
        let h = self.height(self.cursor as int);
        self.top(
            self.cursor as int,
            if h > left {
                0
            } else {
                (left - h) as nat
            },
        )
    }

    /// The rows on a screen with `left` rows, top to bottom: they end with the line
    /// in focus.
    pub open spec fn rows(self, left: nat) -> Seq<RowView> {
        if self.view.len() == 0 {
            Seq::empty()
        } else {
            let first = self.first(left);
            Seq::new((self.cursor + 1 - first) as nat, |i: int| self.row(first + i))
        }
    }
}

/// Screen rows inside a frame of so many rows.
pub open spec fn inner_rows(body_height: u16) -> nat {
    if body_height >= 2 {
        (body_height - 2) as nat
    } else {
        0
    }
}

/// Screen columns inside a frame of so many columns.
pub open spec fn inner_columns(body_width: u16) -> nat {
    if body_width >= 3 {
        (body_width - 2) as nat
    } else {
        1
    }
}

/// The screen rows that the unfinished line needs.
pub open spec fn tail_height(partial: Seq<u8>, width: nat) -> nat {
    rows_needed(
        match ansi_columns(partial) {
            Some(w) => w as nat,
            None => 0,
        },
        width,
    )
}

impl TuiView {
    /// Whether the unfinished line is shown: only while the newest line is followed,
    /// and only where it leaves room.
    pub open spec fn shows_tail(self, partial: Seq<u8>, width: nat, height: nat) -> bool {
        self.follow && partial.len() > 0 && room_over_tail(
            ansi_columns(partial),
            width,
            height,
        ) is Some
    }

    /// The index into the view of the line in focus.
    pub open spec fn focus(self, lines: Seq<LineView>) -> nat {
        let last = last_of(self.visible(lines));
        if self.follow {
            last
        } else {
            least(self.cursor, last)
        }
    }

    /// The state once the screen is drawn.
    pub open spec fn settled(self, lines: Seq<LineView>) -> TuiView {
        TuiView {
            cursor: if self.follow {
                last_of(self.visible(lines))
            } else {
                self.cursor
            },
            ..self
        }
    }

    /// The lines as they are laid out in a frame of so many columns.
    pub open spec fn pane(self, lines: Seq<LineView>, ts: TsMode, width: nat) -> Pane {
        Pane {
            lines,
            view: self.visible(lines),
            search: self.search,
            ts,
            width,
            cursor: self.focus(lines),
        }
    }

    /// The line of hints.
    pub open spec fn hint(
        self,
        shown: nat,
        cursor: nat,
        dropped: nat,
        status: StatusView,
    ) -> Seq<SpanView> {
        match self.error {
            Some(e) => seq![colored(" regex: "@ + e + " "@, ALERT)],
            None => match self.mode {
                Mode::Search => seq![colored(" /"@, ACCENT), bold(self.input + "█"@)],
                Mode::Filter => seq![colored(" filter: "@, ACCENT), bold(self.input + "█"@)],
                Mode::Normal => self.position_hint(shown, cursor, dropped, status),
            },
        }
    }

    /// The line of hints while moving around.
    pub open spec fn position_hint(
        self,
        shown: nat,
        cursor: nat,
        dropped: nat,
        status: StatusView,
    ) -> Seq<SpanView> {
        let position = if shown == 0 {
            0
        } else {
            cursor + 1
        };
        seq![
            colored(" "@ + text::decimal(position) + "/"@ + text::decimal(shown) + " "@, ACCENT),
        ] + maybe(self.follow, colored("follow "@, FOLLOW)) + maybe(
            self.filter_src.len() > 0,
            colored("filter:"@ + self.filter_src + " "@, NOTICE),
        ) + maybe(
            self.search_src.len() > 0,
            colored("/"@ + self.search_src + " "@, NOTICE),
        ) + maybe(dropped > 0, colored(text::decimal(dropped) + " evicted "@, NOTICE)) + maybe(
            status.logging,
            colored("rec "@, ALERT),
        ) + seq![
            colored(
                "ts:"@ + status.ts.name() + " · / search · f filter · n/N · q back · ^A q quit"@,
                DIM,
            ),
        ]
    }

    /// What is on screen, in a frame of the given size.
    pub open spec fn screen(
        self,
        sb: ScrollbackView,
        partial: Seq<u8>,
        status: StatusView,
        body_width: u16,
        body_height: u16,
    ) -> ScreenView {
        let width = inner_columns(body_width);
        let height = inner_rows(body_height);
        let tail = self.shows_tail(partial, width, height);
        ScreenView {
            title: status.title(),
            rows: self.pane(sb.lines, status.ts, width).rows(
                if tail {
                    (height - tail_height(partial, width)) as nat
                } else {
                    height
                },
            ),
            tail: if tail {
                Some(partial)
            } else {
                None
            },
            hint: self.hint(
                self.visible(sb.lines).len(),
                self.focus(sb.lines),
                sb.dropped,
                status,
            ),
        }
    }
}

/// Text in a colour.
pub open spec fn colored(s: Seq<char>, fg: u8) -> SpanView {
    SpanView { text: s, fg: Some(fg), bold: false }
}

/// Text in bold.
pub open spec fn bold(s: Seq<char>) -> SpanView {
    SpanView { text: s, fg: None, bold: true }
}

/// The span, where the condition holds.
pub open spec fn maybe(cond: bool, span: SpanView) -> Seq<SpanView> {
    if cond {
        seq![span]
    } else {
        Seq::empty()
    }
}

fn push_span(spans: &mut Vec<Span>, s: String, fg: u8)
    ensures
        span_views(final(spans)@) == span_views(old(spans)@) + seq![colored(s@, fg)],
{
    let ghost before = span_views(spans@);
    let span = Span { text: s, fg: Some(fg), bold: false };
    assert(span@ =~= colored(s@, fg));
    spans.push(span);
    assert(span_views(spans@) =~= before + seq![colored(s@, fg)]);
}

/// What is typed, with a block for a cursor.
fn prompt(label: &str, input: &str) -> (spans: Vec<Span>)
    ensures
        span_views(spans@) == seq![colored(label@, ACCENT), bold(input@ + "█"@)],
{
    let mut spans: Vec<Span> = Vec::new();
    push_span(&mut spans, label.to_owned(), ACCENT);
    let mut typed = input.to_owned();
    typed.append("█");
    let ghost before = span_views(spans@);
    let span = Span { text: typed, fg: None, bold: true };
    assert(span@ =~= bold(input@ + "█"@));
    spans.push(span);
    assert(span_views(spans@) =~= before + seq![bold(input@ + "█"@)]);
    assert(span_views(spans@) =~= seq![colored(label@, ACCENT), bold(input@ + "█"@)]);
    spans
}

impl Tui {
    fn hint_line(&self, shown: usize, cursor: usize, sb: &Scrollback, status: &TuiStatus) -> (spans:
        Vec<Span>)
        requires
            shown > 0 ==> cursor < shown,
        ensures
            span_views(spans@) == self@.hint(shown as nat, cursor as nat, sb@.dropped, status@),
    {
        if let Some(e) = &self.error {
            let mut s = " regex: ".to_owned();
            s.append(e.as_str());
            s.append(" ");
            let mut spans: Vec<Span> = Vec::new();
            push_span(&mut spans, s, ALERT);
            assert(span_views(spans@) =~= self@.hint(
                shown as nat,
                cursor as nat,
                sb@.dropped,
                status@,
            ));
            return spans;
        }
        match self.mode {
            Mode::Search => prompt(" /", self.input.as_str()),
            Mode::Filter => prompt(" filter: ", self.input.as_str()),
            Mode::Normal => self.position_line(shown, cursor, sb, status),
        }
    }

    fn position_line(
        &self,
        shown: usize,
        cursor: usize,
        sb: &Scrollback,
        status: &TuiStatus,
    ) -> (spans: Vec<Span>)
        requires
            shown > 0 ==> cursor < shown,
        ensures
            span_views(spans@) == self@.position_hint(
                shown as nat,
                cursor as nat,
                sb@.dropped,
                status@,
            ),
    {
        let mut spans: Vec<Span> = Vec::new();
        let mut s = " ".to_owned();
        let position: usize = if shown == 0 {
            0
        } else {
            cursor + 1
        };
        text::push_decimal(&mut s, position as u64);
        s.append("/");
        text::push_decimal(&mut s, shown as u64);
        s.append(" ");
        push_span(&mut spans, s, ACCENT);
        if self.follow {
            push_span(&mut spans, "follow ".to_owned(), FOLLOW);
        }
        if !self.filter_src.as_str().is_empty() {
            let mut s = "filter:".to_owned();
            s.append(self.filter_src.as_str());
            s.append(" ");
            push_span(&mut spans, s, NOTICE);
        }
        if !self.search_src.as_str().is_empty() {
            let mut s = "/".to_owned();
            s.append(self.search_src.as_str());
            s.append(" ");
            push_span(&mut spans, s, NOTICE);
        }
        if sb.dropped() > 0 {
            let mut s = String::new();
            text::push_decimal(&mut s, sb.dropped());
            s.append(" evicted ");
            assert(s@ =~= text::decimal(sb@.dropped) + " evicted "@);
            push_span(&mut spans, s, NOTICE);
        }
        if status.logging.is_some() {
            push_span(&mut spans, "rec ".to_owned(), ALERT);
        }
        let mut s = "ts:".to_owned();
        s.append(status.ts.label());
        s.append(" · / search · f filter · n/N · q back · ^A q quit");
        push_span(&mut spans, s, DIM);
        assert(span_views(spans@) =~= self@.position_hint(
            shown as nat,
            cursor as nat,
            sb@.dropped,
            status@,
        ));
        spans
    }

    /// Lays out the screen. The frame around the lines has the given size.
    pub fn draw(
        &mut self,
        sb: &Scrollback,
        partial: &[u8],
        status: &TuiStatus,
        body_width: u16,
        body_height: u16,
    ) -> (screen: Screen)
        requires
            sb@.well_formed(),
        ensures
            final(self)@ == old(self)@.settled(sb@.lines),
            screen@ == old(self)@.screen(sb@, partial@, status@, body_width, body_height),
    {
        let view = self.visible(sb);
        let last: usize = if view.len() == 0 {
            0
        } else {
            view.len() - 1
        };
        if self.follow {
            self.cursor = last;
        }
        let cursor: usize = if self.cursor <= last {
            self.cursor
        } else {
            last
        };
        let ghost before = old(self)@;
        let ghost width = inner_columns(body_width);
        let ghost height = inner_rows(body_height);
        assert(self@ =~= before.settled(sb@.lines));
        assert(cursor == before.focus(sb@.lines));
        let title = title_line(status);
        let hint = self.hint_line(view.len(), cursor, sb, status);
        assert(self@.hint(view@.len(), cursor as nat, sb@.dropped, status@) == before.hint(
            view@.len(),
            cursor as nat,
            sb@.dropped,
            status@,
        ));
        let inner_h: usize = if body_height >= 2 {
            (body_height - 2) as usize
        } else {
            0
        };
        let inner_w: usize = if body_width >= 3 {
            (body_width - 2) as usize
        } else {
            1
        };
        let (tail, left) = self.lay_tail(partial, inner_w, inner_h);
        assert(self@.shows_tail(partial@, width, height) == before.shows_tail(
            partial@,
            width,
            height,
        ));
        let rows = self.lay_out(sb, view.as_slice(), cursor, status.ts, inner_w, left);
        let screen = Screen { title, rows, tail, hint };
        proof {
            let pane = before.pane(sb@.lines, status@.ts, width);
            assert(pane == (Pane {
                lines: sb@.lines,
                view: view@,
                search: self@.search,
                ts: status.ts,
                width: inner_w as nat,
                cursor: cursor as nat,
            }));
            let out = before.screen(sb@, partial@, status@, body_width, body_height);
            assert(screen@.rows == out.rows);
            assert(screen@.tail == out.tail);
            assert(screen@.hint == out.hint);
        }
        screen
    }

    /// The unfinished line sits at the bottom and takes room like any other.
    fn lay_tail(&self, partial: &[u8], inner_w: usize, inner_h: usize) -> (r: (
        Option<Vec<u8>>,
        usize,
    ))
        ensures
            ({
                let shown = self@.shows_tail(partial@, inner_w as nat, inner_h as nat);
                &&& opt_bytes(r.0) == (if shown {
                    Some(partial@)
                } else {
                    None
                })
                &&& r.1 == (if shown {
                    inner_h - tail_height(partial@, inner_w as nat)
                } else {
                    inner_h as int
                })
            }),
    {
        if self.follow && partial.len() > 0 {
            if let Some(room) = tail_room(ansi_width(partial), inner_w, inner_h) {
                return (Some(text::copied(partial)), room);
            }
        }
        (None, inner_h)
    }

    /// Fills upwards from the cursor so the line in focus is always shown in full,
    /// however many screen rows its wrapped text needs.
    fn lay_out(
        &self,
        sb: &Scrollback,
        view: &[usize],
        cursor: usize,
        ts: TsMode,
        inner_w: usize,
        left: usize,
    ) -> (rows: Vec<Row>)
        requires
            sb@.well_formed(),
            view@ == self@.visible(sb@.lines),
            forall|i: int| 0 <= i < view@.len() ==> (#[trigger] view@[i]) < sb@.lines.len(),
            view@.len() > 0 ==> cursor < view@.len(),
        ensures
            ({
                let pane = Pane {
                    lines: sb@.lines,
                    view: view@,
                    search: self@.search,
                    ts,
                    width: inner_w as nat,
                    cursor: cursor as nat,
                };
                row_views(rows@) == pane.rows(left as nat)
            }),
    {
        let ghost pane = Pane {
            lines: sb@.lines,
            view: view@,
            search: self@.search,
            ts,
            width: inner_w as nat,
            cursor: cursor as nat,
        };
        let mut rows: Vec<Row> = Vec::new();
        if view.len() == 0 {
            assert(row_views(rows@) =~= pane.rows(left as nat));
            return rows;
        }
        // Each line takes a row at least, so no more of them than rows can fit.
        let reach: usize = if cursor < left {
            cursor
        } else {
            left
        };
        let mut upwards: Vec<Row> = Vec::new();
        let mut heights: Vec<usize> = Vec::new();
        let total: usize = view.len();
        let mut up: usize = 0;
        while up <= reach
            invariant
                total == view@.len(),
                sb@.well_formed(),
                forall|i: int| 0 <= i < view@.len() ==> (#[trigger] view@[i]) < sb@.lines.len(),
                pane == (Pane {
                    lines: sb@.lines,
                    view: view@,
                    search: self@.search,
                    ts,
                    width: inner_w as nat,
                    cursor: cursor as nat,
                }),
                reach <= cursor < total,
                up <= reach + 1,
                upwards@.len() == up,
                heights@.len() == up,
                forall|j: int|
                    0 <= j < up ==> (#[trigger] upwards@[j])@ == pane.row(cursor - j),
                forall|j: int|
                    0 <= j < up ==> (#[trigger] heights@[j]) == pane.height(cursor - j),
            decreases reach + 1 - up,
        {
            let (row, h) = self.lay_row(sb, view, cursor, cursor - up, ts, inner_w);
            upwards.push(row);
            heights.push(h);
            up += 1;
        }
        let shown = lines_that_fit(heights.as_slice(), left);
        let idx: usize = cursor + 1 - shown;
        proof {
            let h = heights@[0];
            lemma_fitting(
                pane,
                heights@,
                left as nat,
                1,
                if h > left {
                    0
                } else {
                    (left - h) as nat
                },
            );
        }
        assert(pane.first(left as nat) == idx);
        while upwards.len() > shown
            invariant
                shown <= upwards@.len() <= cursor + 1,
                forall|j: int|
                    0 <= j < upwards@.len() ==> (#[trigger] upwards@[j])@ == pane.row(cursor - j),
            decreases upwards@.len(),
        {
            let _ = upwards.pop();
        }
        let ghost all = upwards@;
        let n: usize = upwards.len();
        while upwards.len() > 0
            invariant
                n == all.len(),
                n == cursor - idx + 1,
                rows@.len() + upwards@.len() == n,
                upwards@ == all.take(upwards@.len() as int),
                forall|j: int| 0 <= j < n ==> (#[trigger] all[j])@ == pane.row(cursor - j),
                forall|i: int|
                    0 <= i < rows@.len() ==> (#[trigger] rows@[i])@ == pane.row(idx + i),
            decreases upwards@.len(),
        {
            let ghost k = upwards@.len() - 1;
            if let Some(row) = upwards.pop() {
                assert(row == all[k]);
                rows.push(row);
            }
            assert(upwards@ =~= all.take(k));
        }
        assert(row_views(rows@) =~= pane.rows(left as nat));
        rows
    }

    /// One line as it is shown, and the screen rows it needs.
    fn lay_row(
        &self,
        sb: &Scrollback,
        view: &[usize],
        cursor: usize,
        idx: usize,
        ts: TsMode,
        inner_w: usize,
    ) -> (r: (Row, usize))
        requires
            sb@.well_formed(),
            idx < view@.len(),
            view@[idx as int] < sb@.lines.len(),
        ensures
            ({
                let pane = Pane {
                    lines: sb@.lines,
                    view: view@,
                    search: self@.search,
                    ts,
                    width: inner_w as nat,
                    cursor: cursor as nat,
                };
                r.0@ == pane.row(idx as int) && r.1 == pane.height(idx as int)
            }),
            r.1 >= 1,
    {
        let line = sb.get(view[idx]).unwrap();
        let mut raw: Vec<u8> = Vec::new();
        raw.extend_from_slice(line.prefix(ts).as_str().as_bytes());
        raw.extend_from_slice(line.raw.as_slice());
        assert(raw@ =~= row_bytes(line@, ts));
        let matches = match &self.search {
            Some(re) => idx != cursor && is_match(re, line.text().as_str()),
            None => false,
        };
        let background = row_background(idx == cursor, matches);
        match ansi_width(raw.as_slice()) {
            Some(w) => (
                Row { content: RowText::Ansi(raw), background },
                wrapped_height(w, inner_w),
            ),
            None => {
                let s = line.text();
                let w = plain_width(s.as_str());
                (Row { content: RowText::Plain(s), background }, wrapped_height(w, inner_w))
            },
        }
    }

    /// Takes note of the height of the terminal, where it is known: a page is what
    /// fits on it.
    pub fn drawn(&mut self, screen_height: Option<u16>)
        ensures
            final(self)@ == (TuiView { page: page_length(screen_height), ..old(self)@ }),
    {
        self.page = match screen_height {
            Some(h) => if h >= 5 {
                (h - 4) as usize
            } else {
                1
            },
            None => DEFAULT_PAGE,
        };
        assert(self@ =~= (TuiView { page: page_length(screen_height), ..old(self)@ }));
    }
}

/// The lines that a page holds on a terminal of the given height.
pub open spec fn page_length(screen_height: Option<u16>) -> nat {
    match screen_height {
        Some(h) => if h >= 5 {
            (h - 4) as nat
        } else {
            1
        },
        None => DEFAULT_PAGE as nat,
    }
}

fn title_line(status: &TuiStatus) -> (s: String)
    ensures
        s@ == status@.title(),
{
    let mut s = " ".to_owned();
    s.append(status.port.as_str());
    s.append(" · ");
    s.append(status.baud.as_str());
    s.append(" ");
    s.append(status.frame.as_str());
    s.append(" · ");
    s.append(
        if status.connected {
            "connected"
        } else {
            "waiting"
        },
    );
    s.append(" · ");
    s.append(session::human_bytes(status.rx_bytes).as_str());
    s.append(" · ");
    s.append(status.uptime.as_str());
    s.append(" ");
    assert(s@ =~= status@.title());
    s
}

/// Wrapped text has room in its rows, and would not in fewer.
pub proof fn wrapped_rows_hold_the_text(columns: nat, width: nat)
    requires
        width >= 1,
    ensures
        rows_needed(columns, width) >= 1,
        columns <= rows_needed(columns, width) * width,
        rows_needed(columns, width) > 1 ==> (rows_needed(columns, width) - 1) * width < columns,
{
    lemma_fundamental_div_mod(columns as int, width as int);
    let q = columns / width;
    let r = columns % width;
    assert(q * width == width * q) by (nonlinear_arith);
    assert((q + 1) * width == q * width + width) by (nonlinear_arith);
    if r == 0 && q > 0 {
        assert((q - 1) * width == q * width - width) by (nonlinear_arith);
    }
    if q == 0 {
        assert(q * width == 0) by (nonlinear_arith)
            requires
                q == 0,
        ;
    }
}

/// The view holds the positions of exactly the lines that pass the filter, in the
/// order received.
pub proof fn the_view_holds_exactly_what_passes(filter: Option<Seq<char>>, lines: Seq<LineView>)
    requires
        lines.len() <= usize::MAX,
    ensures
        ({
            let view = visible_in(filter, lines);
            &&& forall|i: int, j: int|
                0 <= i < j < view.len() ==> (#[trigger] view[i]) < (#[trigger] view[j])
            &&& forall|k: usize| #[trigger]
                view.contains(k) <==> k < lines.len() && passes(filter, lines[k as int])
        }),
{
    lemma_marked(passing(filter, lines));
}

/// Without a filter every line is in the view.
pub proof fn without_a_filter_all_lines_show(lines: Seq<LineView>)
    requires
        lines.len() <= usize::MAX,
    ensures
        visible_in(None, lines) == Seq::new(lines.len(), |i: int| i as usize),
{
    lemma_all_marked(passing(None, lines));
}

proof fn lemma_all_marked(marks: Seq<bool>)
    requires
        marks.len() <= usize::MAX,
        forall|i: int| 0 <= i < marks.len() ==> #[trigger] marks[i],
    ensures
        marked(marks) == Seq::new(marks.len(), |i: int| i as usize),
    decreases marks.len(),
{
    if marks.len() > 0 {
        let rest = marks.drop_last();
        assert forall|i: int| 0 <= i < rest.len() implies #[trigger] rest[i] by {
            assert(rest[i] == marks[i]);
        }
        lemma_all_marked(rest);
        assert(marks[marks.len() - 1]);
    }
    assert(marked(marks) =~= Seq::new(marks.len(), |i: int| i as usize));
}

/// Scrolling keeps the cursor inside the view, and the newest line is followed
/// exactly when the cursor is on it.
pub proof fn scrolling_stays_inside_the_view(t: TuiView, delta: int, last: nat)
    ensures
        t.moved(delta, last).cursor <= last,
        t.moved(delta, last).follow == (t.moved(delta, last).cursor == last),
        0 <= least(t.cursor, last) + delta <= last ==> t.moved(delta, last).cursor == least(
            t.cursor,
            last,
        ) + delta,
{
}

/// Whether the line at an index of the view matches.
pub open spec fn hit(lines: Seq<LineView>, view: Seq<usize>, pattern: Seq<char>, idx: int) -> bool {
    pattern_matches(pattern, lines[view[idx] as int].text())
}

proof fn lemma_next_marked(marks: Seq<bool>, start: int, dir: int, step: int) -> (k: int)
    requires
        marks.len() > 0,
        1 <= step <= marks.len() + 1,
    ensures
        match next_marked(marks, start, dir, step) {
            Some(idx) => step <= k <= marks.len() && idx == (start + dir * k) % (marks.len() as int)
                && 0 <= idx < marks.len() && marks[idx as int],
            None => k == marks.len() + 1,
        },
        forall|j: int|
            step <= j < k ==> !marks[#[trigger] ((start + dir * j) % (marks.len() as int))],
    decreases marks.len() + 1 - step,
{
    let idx = (start + dir * step) % (marks.len() as int);
    lemma_mod_bound(start + dir * step, marks.len() as int);
    if step > marks.len() {
        marks.len() as int + 1
    } else if marks[idx] {
        step
    } else {
        let k = lemma_next_marked(marks, start, dir, step + 1);
        assert forall|j: int| step <= j < k implies !marks[#[trigger] ((start + dir * j) % (
        marks.len() as int))] by {
            if j == step {
                assert((start + dir * j) % (marks.len() as int) == idx);
            }
        }
        k
    }
}

/// Searching moves to the nearest matching line in its direction, around the end of
/// the view: so many steps on there is a match, and on none of the steps before.
/// Where it stays put nothing in the view matches.
pub proof fn search_stops_at_the_nearest_match(
    t: TuiView,
    lines: Seq<LineView>,
    pattern: Seq<char>,
    dir: int,
)
    requires
        dir == 1 || dir == -1,
        t.search == Some(pattern),
        t.visible(lines).len() > 0,
    ensures
        ({
            let view = t.visible(lines);
            let n = view.len() as int;
            let start = least(t.cursor, last_of(view)) as int;
            let after = t.jumped(lines, dir);
            if exists|i: int| 0 <= i < n && #[trigger] hit(lines, view, pattern, i) {
                exists|k: int|
                    1 <= k <= n && after == (TuiView {
                        cursor: (#[trigger] stepped(start, dir, k, n)) as nat,
                        follow: false,
                        ..t
                    }) && hit(lines, view, pattern, stepped(start, dir, k, n)) && (forall|j: int|
                        1 <= j < k ==> !hit(
                            lines,
                            view,
                            pattern,
                            #[trigger] stepped(start, dir, j, n),
                        ))
            } else {
                after == t
            }
        }),
{
    let view = t.visible(lines);
    let n = view.len() as int;
    let start = least(t.cursor, last_of(view)) as int;
    let marks = matching(lines, view, pattern);
    let k = lemma_next_marked(marks, start, dir, 1);
    assert forall|j: int| 1 <= j < k implies !hit(
        lines,
        view,
        pattern,
        #[trigger] stepped(start, dir, j, n),
    ) by {
        lemma_mod_bound(start + dir * j, n);
        assert(!marks[(start + dir * j) % n]);
    }
    if exists|i: int| 0 <= i < n && #[trigger] hit(lines, view, pattern, i) {
        let i = choose|i: int| 0 <= i < n && #[trigger] hit(lines, view, pattern, i);
        if next_marked(marks, start, dir, 1) is None {
            let j = lemma_reach(start, dir, i, n);
            assert(!hit(lines, view, pattern, stepped(start, dir, j, n)));
        }
        assert(stepped(start, dir, k, n) == (start + dir * k) % n);
    } else {
        if let Some(idx) = next_marked(marks, start, dir, 1) {
            lemma_mod_bound(start + dir * k, n);
            assert(hit(lines, view, pattern, idx as int));
        }
    }
}

/// The index `k` steps off `start`, around the end of `n` indices.
pub open spec fn stepped(start: int, dir: int, k: int, n: int) -> int {
    (start + dir * k) % n
}

proof fn lemma_reach(start: int, dir: int, i: int, n: int) -> (k: int)
    requires
        dir == 1 || dir == -1,
        0 <= start < n,
        0 <= i < n,
    ensures
        1 <= k <= n,
        stepped(start, dir, k, n) == i,
{
    let gap = if dir == 1 {
        i - start
    } else {
        start - i
    };
    let k = if gap <= 0 {
        gap + n
    } else {
        gap
    };
    let turns: int = if gap > 0 {
        0
    } else {
        dir
    };
    assert(dir * k == if dir == 1 {
        k
    } else {
        -k
    }) by (nonlinear_arith)
        requires
            dir == 1 || dir == -1,
    ;
    assert(turns * n == if gap > 0 {
        0
    } else if dir == 1 {
        n
    } else {
        -n
    }) by (nonlinear_arith)
        requires
            dir == 1 || dir == -1,
            turns == if gap > 0 {
                0int
            } else {
                dir
            },
    ;
    lemma_fundamental_div_mod_converse(start + dir * k, n, turns, i);
    k
}

/// From a line that matches, searching on and then back, or back and then on, leads
/// to that line again.
pub proof fn searching_back_returns(
    t: TuiView,
    lines: Seq<LineView>,
    pattern: Seq<char>,
    dir: int,
)
    requires
        dir == 1 || dir == -1,
        t.search == Some(pattern),
        t.cursor < t.visible(lines).len(),
        hit(lines, t.visible(lines), pattern, t.cursor as int),
    ensures
        t.jumped(lines, dir).jumped(lines, -dir).cursor == t.cursor,
{
    let view = t.visible(lines);
    let n = view.len() as int;
    let c = t.cursor as int;
    let marks = matching(lines, view, pattern);
    let k = lemma_next_marked(marks, c, dir, 1);
    let whole = lemma_reach(c, dir, c, n);
    assert(marks[c]);
    assert((c + dir * whole) % n == c);
    assert(next_marked(marks, c, dir, 1) is Some);
    let u = t.jumped(lines, dir);
    let d = (c + dir * k) % n;
    lemma_mod_bound(c + dir * k, n);
    assert(u.cursor == d);
    assert(u.visible(lines) == view);
    let m = lemma_next_marked(marks, d, -dir, 1);
    assert forall|j: int| 1 <= j <= n implies (d + (-dir) * j) % n == #[trigger] ((c + dir * (k - j))
        % n) by {
        assert(c + dir * (k - j) == c + dir * k - dir * j) by (nonlinear_arith);
        assert((-dir) * j == -(dir * j)) by (nonlinear_arith);
        lemma_sub_mod_noop_left(c + dir * k, dir * j, n);
    }
    assert((c + dir * (k - k)) % n == c) by {
        assert(dir * (k - k) == 0) by (nonlinear_arith);
        lemma_small_mod(c as nat, n as nat);
    }
    assert((d + (-dir) * k) % n == c);
    assert(m <= k);
    if m < k {
        assert((d + (-dir) * m) % n == (c + dir * (k - m)) % n);
        assert(!marks[(c + dir * (k - m)) % n]);
    }
}

proof fn lemma_sub_mod_noop_left(x: int, y: int, m: int)
    requires
        m > 0,
    ensures
        (x % m - y) % m == (x - y) % m,
{
    lemma_fundamental_div_mod(x, m);
    let q = x / m;
    assert(x - y == m * q + (x % m - y));
    lemma_mod_multiples_vanish(q, x % m - y, m);
}

/// A pattern that does not compile is reported and not applied: filter, search and
/// view stay as they are.
pub proof fn a_bad_pattern_is_not_applied(t: TuiView, lines: Seq<LineView>)
    requires
        t.input.len() > 0,
        t.compiled() is Err,
    ensures
        t.applied(lines).error is Some,
        t.applied(lines) == (TuiView { error: t.applied(lines).error, ..t }),
        t.filtered_live() == t.applied(lines),
        t.filtered_live().visible(lines) == t.visible(lines),
{
}

impl TuiView {
    /// Whether the patterns in use are the ones that are shown as such.
    pub open spec fn consistent(self) -> bool {
        &&& self.filter == (if self.filter_src.len() == 0 {
            None
        } else {
            Some(self.filter_src)
        })
        &&& self.search == (if self.search_src.len() == 0 {
            None
        } else {
            Some(self.search_src)
        })
    }
}

/// Whatever is typed, the patterns in use are the ones that the hints show.
pub proof fn keys_keep_the_patterns_consistent(t: TuiView, key: Key, lines: Seq<LineView>)
    requires
        t.consistent(),
    ensures
        t.after_key(key, lines).0.consistent(),
        TuiView::initial().consistent(),
        t.settled(lines).consistent(),
{
}

/// While moving around, `q` goes back to the live stream and the escape key followed
/// by `q` ends the session.
pub proof fn q_leaves_and_escape_q_quits(t: TuiView, lines: Seq<LineView>, between: Seq<LineView>)
    requires
        t.mode == Mode::Normal,
        !t.pending_escape,
    ensures
        t.after_key(Key::Char('q'), lines).1 == TuiAction::Leave,
        t.after_key(Key::Esc, lines).1 == TuiAction::Leave,
        t.after_key(Key::Ctrl('a'), lines).1 == TuiAction::Stay,
        t.after_key(Key::Ctrl('a'), lines).0.after_key(Key::Char('q'), between).1
            == TuiAction::Quit,
{
}

impl Pane {
    /// The screen rows that the lines from one index of the view up to another need.
    pub open spec fn total_height(self, from: int, to: int) -> nat
        decreases to - from,
    {
        if from >= to {
            0
        } else {
            self.height(from) + self.total_height(from + 1, to)
        }
    }
}

proof fn lemma_top(pane: Pane, idx: int, left: nat)
    requires
        0 <= idx,
    ensures
        0 <= pane.top(idx, left) <= idx,
        pane.total_height(pane.top(idx, left), idx) <= left,
        pane.top(idx, left) > 0 ==> pane.total_height(pane.top(idx, left) - 1, idx) > left,
    decreases idx,
{
    let top = pane.top(idx, left);
    if idx > 0 && pane.height(idx - 1) <= left {
        let rest = (left - pane.height(idx - 1)) as nat;
        lemma_top(pane, idx - 1, rest);
        lemma_total_height_ends(pane, top, idx);
        if top > 0 {
            lemma_total_height_ends(pane, top - 1, idx);
        }
    } else if idx > 0 {
        lemma_total_height_ends(pane, idx - 1, idx);
    }
}

proof fn lemma_total_height_ends(pane: Pane, from: int, to: int)
    requires
        from < to,
    ensures
        pane.total_height(from, to) == pane.total_height(from, to - 1) + pane.height(to - 1),
    decreases to - from,
{
    if from + 1 < to {
        lemma_total_height_ends(pane, from + 1, to);
    } else {
        assert(pane.total_height(to, to) == 0);
        assert(pane.total_height(from, to - 1) == 0);
    }
}

proof fn lemma_fitting(pane: Pane, heights: Seq<usize>, rows: nat, placed: int, left: nat)
    requires
        heights.len() == (if pane.cursor < rows {
            pane.cursor
        } else {
            rows
        }) + 1,
        forall|j: int|
            0 <= j < heights.len() ==> (#[trigger] heights[j]) == pane.height(pane.cursor - j),
        1 <= placed <= heights.len(),
        left + placed <= rows || left == 0,
    ensures
        fitting(heights, placed, left) == pane.cursor + 1 - pane.top(
            pane.cursor + 1 - placed,
            left,
        ),
    decreases heights.len() - placed,
{
    let idx = pane.cursor + 1 - placed;
    if idx > 0 {
        lemma_height_positive(pane, idx - 1);
    }
    if placed < heights.len() {
        assert(heights[placed] == pane.height(idx - 1));
        if heights[placed] <= left {
            lemma_fitting(pane, heights, rows, placed + 1, (left - heights[placed]) as nat);
        }
    }
}

/// The line in focus is always on screen, below the lines that come right before it
/// in the view. They fit the screen, unless the line in focus alone is too long for
/// it, and no further line would fit.
pub proof fn the_line_in_focus_is_always_shown(pane: Pane, left: nat)
    requires
        pane.cursor < pane.view.len(),
    ensures
        ({
            let rows = pane.rows(left);
            let first = pane.first(left);
            &&& rows.len() > 0
            &&& rows.last() == pane.row(pane.cursor as int)
            &&& rows.last().background == Some(CURSOR_BACKGROUND)
            &&& 0 <= first <= pane.cursor
            &&& rows.len() == pane.cursor + 1 - first
            &&& forall|i: int| 0 <= i < rows.len() ==> #[trigger] rows[i] == pane.row(first + i)
            &&& first == pane.cursor || pane.total_height(first, pane.cursor as int + 1) <= left
            &&& first > 0 ==> pane.total_height(first - 1, pane.cursor as int + 1) > left
        }),
{
    let c = pane.cursor as int;
    let h = pane.height(c);
    let rest = if h > left {
        0
    } else {
        (left - h) as nat
    };
    let first = pane.first(left);
    lemma_top(pane, c, rest);
    lemma_total_height_ends(pane, first, c + 1);
    if first > 0 {
        lemma_total_height_ends(pane, first - 1, c + 1);
    }
    if first < c && h > left {
        lemma_height_positive(pane, first);
        assert(pane.total_height(first, c) >= pane.height(first));
    }
}

proof fn lemma_height_positive(pane: Pane, idx: int)
    ensures
        pane.height(idx) >= 1,
{
}

/// All that is on screen fits the frame, the unfinished line included, unless the
/// line in focus alone is too long for it.
pub proof fn the_screen_fits_the_frame(
    t: TuiView,
    sb: ScrollbackView,
    partial: Seq<u8>,
    status: StatusView,
    body_width: u16,
    body_height: u16,
)
    requires
        t.visible(sb.lines).len() > 0,
    ensures
        ({
            let width = inner_columns(body_width);
            let height = inner_rows(body_height);
            let pane = t.pane(sb.lines, status.ts, width);
            let screen = t.screen(sb, partial, status, body_width, body_height);
            let first = pane.cursor + 1 - screen.rows.len();
            let below = if screen.tail is Some {
                tail_height(partial, width)
            } else {
                0
            };
            &&& screen.rows.len() >= 1
            &&& screen.rows.len() == 1 || pane.total_height(first, pane.cursor as int + 1) + below
                <= height
            &&& screen.tail is Some ==> below < height
        }),
{
    let width = inner_columns(body_width);
    let height = inner_rows(body_height);
    let pane = t.pane(sb.lines, status.ts, width);
    let left = if t.shows_tail(partial, width, height) {
        (height - tail_height(partial, width)) as nat
    } else {
        height
    };
    the_line_in_focus_is_always_shown(pane, left);
}

/// A filter keeps a line exactly when its pattern matches what a reader sees of it;
/// every other line is left out.
pub proof fn a_filter_keeps_what_matches(pattern: Seq<char>, lines: Seq<LineView>, k: usize)
    requires
        lines.len() <= usize::MAX,
        k < lines.len(),
    ensures
        visible_in(Some(pattern), lines).contains(k) <==> pattern_matches(
            pattern,
            lines[k as int].text(),
        ),
{
    the_view_holds_exactly_what_passes(Some(pattern), lines);
}

/// While moving around, the arrow keys and their letters go one line up or down, from
/// the newest line where it is followed, and stop at the ends. Nothing but the place
/// changes.
pub proof fn arrow_keys_move_by_a_line(t: TuiView, lines: Seq<LineView>)
    requires
        t.mode == Mode::Normal,
        t.visible(lines).len() > 0,
    ensures
        ({
            let n = t.visible(lines).len();
            let at = if t.cursor < n {
                t.cursor as int
            } else {
                n - 1
            };
            let up = t.after_key(Key::Up, lines);
            let down = t.after_key(Key::Down, lines);
            &&& up == t.after_key(Key::Char('k'), lines)
            &&& down == t.after_key(Key::Char('j'), lines)
            &&& up.1 == TuiAction::Stay && down.1 == TuiAction::Stay
            &&& up.0 == (TuiView {
                cursor: if at == 0 {
                    0
                } else {
                    (at - 1) as nat
                },
                follow: n == 1,
                pending_escape: false,
                ..t
            })
            &&& down.0 == (TuiView {
                cursor: if at == n - 1 {
                    at as nat
                } else {
                    (at + 1) as nat
                },
                follow: at >= n - 2,
                pending_escape: false,
                ..t
            })
        }),
{
}

/// While moving around, a page is as many lines as the view was told, up or down, and
/// the ends of the view stop it.
pub proof fn page_keys_move_by_a_page(t: TuiView, lines: Seq<LineView>)
    requires
        t.mode == Mode::Normal,
        t.cursor < t.visible(lines).len(),
    ensures
        ({
            let n = t.visible(lines).len();
            let up = t.after_key(Key::PageUp, lines).0;
            let down = t.after_key(Key::PageDown, lines).0;
            &&& t.cursor >= t.page ==> up.cursor == t.cursor - t.page
            &&& t.cursor < t.page ==> up.cursor == 0
            &&& t.cursor + t.page < n ==> down.cursor == t.cursor + t.page
            &&& t.cursor + t.page >= n ==> down.cursor == n - 1
            &&& up.follow == (up.cursor == n - 1)
            &&& down.follow == (down.cursor == n - 1)
        }),
{
}

/// A page is what fits on the terminal between the frame and the hints, four rows in
/// all, but one line at least; where the height is unknown it is ten lines.
pub proof fn a_page_is_what_fits(h: u16)
    ensures
        h >= 5 ==> page_length(Some(h)) == h - 4,
        h < 5 ==> page_length(Some(h)) == 1,
        page_length(None) == 10,
        TuiView::initial().page == 10,
{
}

/// While moving around, the first line and the last are one key away. At the last the
/// newest line is followed, at the first it is not.
pub proof fn home_and_end_go_to_the_ends(t: TuiView, lines: Seq<LineView>)
    requires
        t.mode == Mode::Normal,
        t.visible(lines).len() > 0,
    ensures
        ({
            let n = t.visible(lines).len();
            let home = t.after_key(Key::Home, lines);
            let end = t.after_key(Key::End, lines);
            &&& home == t.after_key(Key::Char('g'), lines)
            &&& end == t.after_key(Key::Char('G'), lines)
            &&& home == (
                TuiView { cursor: 0, follow: false, pending_escape: false, ..t },
                TuiAction::Stay,
            )
            &&& end == (
                TuiView { cursor: (n - 1) as nat, follow: true, pending_escape: false, ..t },
                TuiAction::Stay,
            )
        }),
{
}

/// While moving around, a slash starts a search and `f` a filter, each with the pattern
/// that is in use; `n` searches on and `N` back. Nothing else changes.
pub proof fn letters_search_and_filter(t: TuiView, lines: Seq<LineView>)
    requires
        t.mode == Mode::Normal,
        !t.pending_escape,
    ensures
        t.after_key(Key::Char('/'), lines) == (
            TuiView { mode: Mode::Search, input: t.search_src, error: None, ..t },
            TuiAction::Stay,
        ),
        t.after_key(Key::Char('f'), lines) == (
            TuiView { mode: Mode::Filter, input: t.filter_src, error: None, ..t },
            TuiAction::Stay,
        ),
        t.after_key(Key::Char('n'), lines) == (t.jumped(lines, 1), TuiAction::Stay),
        t.after_key(Key::Char('N'), lines) == (t.jumped(lines, -1), TuiAction::Stay),
{
}

/// While moving around, Ctrl-C leaves as `q` does, and keys that mean nothing there
/// change nothing.
pub proof fn other_keys_do_nothing(t: TuiView, c: char, lines: Seq<LineView>)
    requires
        t.mode == Mode::Normal,
        !t.pending_escape,
        c != 'q' && c != 'k' && c != 'j' && c != 'g' && c != 'G' && c != '/' && c != 'f' && c != 'n'
            && c != 'N',
    ensures
        t.after_key(Key::Char(c), lines) == (t, TuiAction::Stay),
        t.after_key(Key::Tab, lines) == (t, TuiAction::Stay),
        t.after_key(Key::Enter, lines) == (t, TuiAction::Stay),
        t.after_key(Key::Backspace, lines) == (t, TuiAction::Stay),
        t.after_key(Key::Delete, lines) == (t, TuiAction::Stay),
        t.after_key(Key::Left, lines) == (t, TuiAction::Stay),
        t.after_key(Key::Right, lines) == (t, TuiAction::Stay),
        t.after_key(Key::Unknown, lines) == (t, TuiAction::Stay),
        t.after_key(Key::Ctrl('c'), lines).1 == TuiAction::Leave,
        t.after_key(Key::Char('q'), lines) == (t, TuiAction::Leave),
{
}

/// While a pattern is typed, every character is part of it, `q` too; Backspace takes
/// the last one off and Ctrl-U all of them. No key leaves the view.
pub proof fn typing_edits_the_pattern(t: TuiView, c: char, key: Key, lines: Seq<LineView>)
    requires
        t.mode != Mode::Normal,
        !t.pending_escape,
    ensures
        t.after_key(Key::Char(c), lines).0.input == t.input.push(c),
        t.after_key(Key::Char(c), lines).0.mode == t.mode,
        t.after_key(Key::Char(c), lines).0.after_key(Key::Backspace, lines).0.input == t.input,
        t.input.len() == 0 ==> t.after_key(Key::Backspace, lines).0.input == t.input,
        t.after_key(Key::Ctrl('u'), lines).0.input == Seq::<char>::empty(),
        t.after_key(key, lines).1 == TuiAction::Stay,
        t.after_key(Key::Esc, lines).0 == (TuiView {
            mode: Mode::Normal,
            input: Seq::empty(),
            error: None,
            ..t
        }),
        t.after_key(Key::Enter, lines).0.mode == Mode::Normal,
{
    let typed = t.after_key(Key::Char(c), lines).0;
    assert(t.input.push(c).drop_last() =~= t.input);
    assert(typed.input == t.input.push(c));
    assert(typed.after_key(Key::Backspace, lines).0.input == typed.input.drop_last());
}

/// While a search is typed the view stays as it is: nothing is searched or filtered
/// before it is finished.
pub proof fn a_search_waits_for_enter(t: TuiView, c: char, lines: Seq<LineView>)
    requires
        t.mode == Mode::Search,
        !t.pending_escape,
    ensures
        t.after_key(Key::Char(c), lines).0 == (TuiView { input: t.input.push(c), ..t }),
        t.after_key(Key::Char(c), lines).0.visible(lines) == t.visible(lines),
{
}

/// While a filter is typed it is in use already, as long as it compiles: the lines in
/// the view are those that what was typed so far matches, and all lines where nothing
/// is left of it.
pub proof fn a_filter_applies_while_it_is_typed(t: TuiView, c: char, lines: Seq<LineView>)
    requires
        t.mode == Mode::Filter,
        !t.pending_escape,
    ensures
        ({
            let typed = t.after_key(Key::Char(c), lines).0;
            &&& pattern_error(usize::BITS as nat, t.input.push(c)) is None ==> typed.filter == Some(
                t.input.push(c),
            ) && typed.filter_src == t.input.push(c) && typed.error is None && typed.visible(lines)
                == visible_in(Some(t.input.push(c)), lines)
            &&& pattern_error(usize::BITS as nat, t.input.push(c)) is Some ==> typed.filter
                == t.filter && typed.error is Some
            &&& typed.search == t.search && typed.cursor == t.cursor && typed.follow == t.follow
        }),
        t.after_key(Key::Ctrl('u'), lines).0.filter is None,
        t.after_key(Key::Ctrl('u'), lines).0.error is None,
{
    assert(t.input.push(c).len() > 0);
}

/// A finished filter shows the newest of the lines it keeps; a finished search goes on
/// to the nearest match; an empty pattern drops what was in use.
pub proof fn enter_puts_the_pattern_to_use(t: TuiView, lines: Seq<LineView>)
    requires
        t.mode != Mode::Normal,
        !t.pending_escape,
        pattern_error(usize::BITS as nat, t.input) is None,
    ensures
        ({
            let done = t.after_key(Key::Enter, lines).0;
            let p = if t.input.len() == 0 {
                None
            } else {
                Some(t.input)
            };
            &&& done.mode == Mode::Normal
            &&& done.error is None
            &&& t.mode == Mode::Filter ==> done.filter == p && done.filter_src == t.input
                && done.search == t.search
            &&& t.mode == Mode::Filter && t.input.len() > 0 ==> done.follow
            &&& t.mode == Mode::Search ==> done.search == p && done.search_src == t.input
                && done.filter == t.filter
            &&& t.mode == Mode::Search && t.input.len() > 0 ==> done == (TuiView {
                search: Some(t.input),
                search_src: t.input,
                error: None,
                mode: Mode::Normal,
                ..t
            }).jumped(lines, 1)
        }),
{
    if t.input.len() == 0 {
        assert(t.input =~= Seq::empty());
    }
}

/// What is wrong with a pattern is told by the first line of what the regex crate says.
pub proof fn a_complaint_is_one_line(t: TuiView, line: Seq<char>, rest: Seq<char>)
    requires
        !line.contains('\n'),
        line.len() > 0,
        !text::white_space(line[0]),
        !text::white_space(line.last()),
    ensures
        t.complained(line + seq!['\n'] + rest).error == Some(line),
        t.complained(line).error == Some(line),
{
    text::the_first_line_ends_at_the_first_break(line, rest);
    let none = Seq::<char>::empty();
    text::trimming_takes_white_space_off_both_ends(none, line, none);
    assert(none + line + none =~= line);
}

/// The line in focus is the newest where the newest is followed, and else the one the
/// cursor is on, or the last where the cursor is behind it.
pub proof fn the_focus_follows_the_newest_line(t: TuiView, lines: Seq<LineView>)
    requires
        t.visible(lines).len() > 0,
    ensures
        t.follow || t.cursor >= t.visible(lines).len() ==> t.focus(lines) == t.visible(lines).len()
            - 1,
        !t.follow && t.cursor < t.visible(lines).len() ==> t.focus(lines) == t.cursor,
        t.settled(lines).focus(lines) == t.focus(lines),
        !t.follow ==> t.settled(lines) == t,
{
}

/// A row on screen is the line as the device sent it, behind its timestamp where there
/// is one. Where its escape sequences cannot be taken apart, the text without them
/// stands in. The line in focus and those that match stand out.
pub proof fn a_row_shows_the_line(pane: Pane, idx: int)
    ensures
        ({
            let line = pane.lines[pane.view[idx] as int];
            let row = pane.row(idx);
            let bytes = encode_utf8(line.prefix(pane.ts)) + line.raw;
            let matches = pane.search is Some && pattern_matches(pane.search->0, line.text());
            &&& row.content matches RowTextView::Ansi(b) ==> b == bytes
            &&& row.content matches RowTextView::Plain(s) ==> s == line.text() && ansi_widths(
                bytes,
            ) is None
            &&& pane.ts == TsMode::Off ==> bytes == line.raw
            &&& idx == pane.cursor ==> row.background == Some(236u8)
            &&& idx != pane.cursor && matches ==> row.background == Some(238u8)
            &&& idx != pane.cursor && !matches ==> row.background is None
        }),
{
    let line = pane.lines[pane.view[idx] as int];
    if pane.ts == TsMode::Off {
        assert(encode_utf8(Seq::<char>::empty()) =~= Seq::<u8>::empty());
        assert(encode_utf8(line.prefix(pane.ts)) + line.raw =~= line.raw);
    }
}

/// The frame takes one row and one column on each side.
pub proof fn the_frame_takes_its_border(w: u16, h: u16)
    ensures
        h >= 2 ==> inner_rows(h) == h - 2,
        h < 2 ==> inner_rows(h) == 0,
        w >= 3 ==> inner_columns(w) == w - 2,
        w < 3 ==> inner_columns(w) == 1,
{
}

/// The unfinished line is on screen only while the newest line is followed, as it is,
/// and never takes the last row from the finished ones.
pub proof fn the_unfinished_line_comes_last(
    t: TuiView,
    sb: ScrollbackView,
    partial: Seq<u8>,
    status: StatusView,
    w: u16,
    h: u16,
)
    ensures
        ({
            let s = t.screen(sb, partial, status, w, h);
            &&& s.tail matches Some(b) ==> b == partial && t.follow && partial.len() > 0
            &&& !t.follow || partial.len() == 0 ==> s.tail is None
            &&& t.follow && partial.len() > 0 && tail_height(partial, inner_columns(w))
                < inner_rows(h) ==> s.tail == Some(partial)
        }),
{
}

/// The title tells the port and how it is set up, whether the device is there, how much
/// it has sent and for how long the session runs, in this order.
pub proof fn the_title_tells_the_status(s: StatusView)
    ensures
        s.title() == seq![' '] + s.port + " · "@ + s.baud + seq![' '] + s.frame + " · "@ + (
        if s.connected {
            "connected"@
        } else {
            "waiting"@
        }) + " · "@ + session::bytes_text(s.rx_bytes) + " · "@ + s.uptime + seq![' '],
{
    reveal_strlit(" ");
    assert(" "@ =~= seq![' ']);
}

/// The hints tell what is wrong before anything else, then what is being typed, and
/// only then where the view is.
pub proof fn hints_tell_the_most_urgent(
    t: TuiView,
    shown: nat,
    cursor: nat,
    dropped: nat,
    status: StatusView,
)
    ensures
        ({
            let h = t.hint(shown, cursor, dropped, status);
            &&& t.error matches Some(e) ==> h.len() == 1 && h[0].text == " regex: "@ + e + " "@
            &&& t.error is None && t.mode == Mode::Search ==> h.len() == 2 && h[0].text == " /"@
                && h[1].text == t.input + "█"@
            &&& t.error is None && t.mode == Mode::Filter ==> h.len() == 2 && h[0].text
                == " filter: "@ && h[1].text == t.input + "█"@
        }),
{
}

/// While moving around the hints start with the place in the view, counted from one,
/// and the number of lines in it, and end with the timestamp mode and the keys. Between
/// them stands what is the case: that the newest line is followed, the filter, the
/// search, how many lines were evicted, and that a log is written.
pub proof fn hints_tell_the_place(
    t: TuiView,
    shown: nat,
    cursor: nat,
    dropped: nat,
    status: StatusView,
)
    requires
        t.error is None,
        t.mode == Mode::Normal,
    ensures
        ({
            let h = t.hint(shown, cursor, dropped, status);
            let place = if shown == 0 {
                0
            } else {
                cursor + 1
            };
            let first = seq![colored(" "@ + text::decimal(place) + "/"@ + text::decimal(shown)
                + " "@, 39)];
            let last = seq![colored("ts:"@ + status.ts.name()
                + " · / search · f filter · n/N · q back · ^A q quit"@, 245)];
            let follow = if t.follow {
                seq![colored("follow "@, 41)]
            } else {
                Seq::empty()
            };
            let filter = if t.filter_src.len() > 0 {
                seq![colored("filter:"@ + t.filter_src + " "@, 215)]
            } else {
                Seq::empty()
            };
            let search = if t.search_src.len() > 0 {
                seq![colored("/"@ + t.search_src + " "@, 215)]
            } else {
                Seq::empty()
            };
            let evicted = if dropped > 0 {
                seq![colored(text::decimal(dropped) + " evicted "@, 215)]
            } else {
                Seq::empty()
            };
            let rec = if status.logging {
                seq![colored("rec "@, 203)]
            } else {
                Seq::empty()
            };
            h == first + follow + filter + search + evicted + rec + last
        }),
{
}

/// Of coloured text that makes several lines the first one counts, and text that makes
/// none takes no column.
pub proof fn the_first_line_is_measured(w: usize, rest: Seq<usize>)
    ensures
        first_of(Some(seq![w] + rest)) == Some(w),
        first_of(Some(Seq::empty())) == Some(0usize),
        first_of(None) is None,
{
    assert((seq![w] + rest)[0] == w);
}

} // verus!
