//! The log file: its name, and the bytes that go into it.
use crate::ansi;
use crate::cli::LogFormat;
use crate::clock;
use crate::clock::WallTime;
use crate::scrollback::{Line, LineView};
use crate::text;
use crate::timestamps;
use vstd::prelude::*;
use vstd::utf8::*;

verus! {

/// A log file that is being written. The functions that write to it give the bytes
/// to append.
#[derive(Debug)]
pub struct LogWriter {
    path: String,
    format: LogFormat,
}

/// A log file: where it is and what it holds.
#[verifier::ext_equal]
pub struct LogView {
    pub path: Seq<char>,
    pub format: LogFormat,
}

impl View for LogWriter {
    type V = LogView;

    closed spec fn view(&self) -> LogView {
        LogView { path: self.path@, format: self.format }
    }
}

/// The date and time in front of each entry of a log.
pub open spec fn stamp(at: WallTime) -> Seq<char> {
    clock::chrono_text(at.secs, at.nanos, at.offset, clock::STAMP_FORMAT@)
}

/// The name of a log file on a port, with the given stamp.
pub open spec fn name_with(port: Seq<char>, stamp: Seq<char>) -> Seq<char> {
    "mcom-"@ + text::leaf(port) + "-"@ + stamp + ".log"@
}

/// The name of a log file that was given none.
pub open spec fn default_name_text(port: Seq<char>, at: WallTime) -> Seq<char> {
    name_with(port, clock::chrono_text(at.secs, at.nanos, at.offset, clock::FILE_FORMAT@))
}

/// The full path of a file: a relative name is taken from the directory `dir`.
pub open spec fn full_path(dir: Seq<char>, name: Seq<char>) -> Seq<char> {
    if name.len() > 0 && name[0] == '/' {
        name
    } else if dir.len() == 0 || dir.last() == '/' {
        dir + name
    } else {
        dir + "/"@ + name
    }
}

/// The full path of the log file asked for: `None` or an empty path stands for the
/// default name.
pub open spec fn log_path(
    path: Option<Seq<char>>,
    port: Seq<char>,
    dir: Seq<char>,
    at: WallTime,
) -> Seq<char> {
    full_path(
        dir,
        match path {
            Some(p) => if p.len() > 0 {
                p
            } else {
                default_name_text(port, at)
            },
            None => default_name_text(port, at),
        },
    )
}

impl LogView {
    /// What to say when the file cannot be created.
    pub open spec fn create_error(self) -> Seq<char> {
        "cannot create "@ + text::debug_str(self.path)
    }

    /// What a chunk of device output adds to the log.
    pub open spec fn chunk(self, data: Seq<u8>) -> Seq<u8> {
        if self.format == LogFormat::Raw {
            data
        } else {
            Seq::empty()
        }
    }

    /// What a finished line adds to the log, with the given stamp.
    pub open spec fn line_with(self, raw: Seq<u8>, stamp: Seq<char>) -> Seq<u8> {
        if self.format == LogFormat::Clean {
            encode_utf8("["@ + stamp + "] "@) + ansi::stripped(raw) + seq![timestamps::LF]
        } else {
            Seq::empty()
        }
    }

    /// What a finished line adds to the log.
    pub open spec fn line(self, line: LineView) -> Seq<u8> {
        self.line_with(line.raw, stamp(line.at))
    }

    /// What a remark of our own adds to the log, with the given stamp.
    pub open spec fn note_with(self, remark: Seq<char>, stamp: Seq<char>) -> Seq<u8> {
        (if self.format == LogFormat::Raw {
            seq![timestamps::LF]
        } else {
            Seq::empty()
        }) + encode_utf8("["@ + stamp + "] --- "@ + remark + " ---\n"@)
    }

    /// What a remark of our own adds to the log.
    pub open spec fn note(self, remark: Seq<char>, at: WallTime) -> Seq<u8> {
        self.note_with(remark, stamp(at))
    }

    /// What several finished lines add to the log.
    pub open spec fn lines(self, lines: Seq<LineView>) -> Seq<u8>
        decreases lines.len(),
    {
        if lines.len() == 0 {
            Seq::empty()
        } else {
            self.lines(lines.drop_last()) + self.line(lines.last())
        }
    }
}

/// The name of a log file on a port, with the given stamp.
pub fn stamped_name(port: &str, stamp: &str) -> (s: String)
    ensures
        s@ == name_with(port@, stamp@),
{
    let mut s = "mcom-".to_owned();
    s.append(text::leaf_of(port).as_str());
    s.append("-");
    s.append(stamp);
    s.append(".log");
    assert(s@ =~= name_with(port@, stamp@));
    s
}

/// The name of a log file begun at `at`.
pub fn default_name_at(port: &str, at: &WallTime) -> (s: String)
    requires
        at.valid(),
    ensures
        s@ == default_name_text(port@, *at),
{
    stamped_name(port, clock::format_time(at, clock::FILE_FORMAT).as_str())
}

/// The name of a log file begun now.
pub fn default_name(port: &str) -> (s: String)
    ensures
        exists|at: WallTime| at.valid() && s@ == #[trigger] default_name_text(port@, at),
{
    let at = clock::local_now();
    default_name_at(port, &at)
}

fn first_char_is_slash(s: &str) -> (r: bool)
    ensures
        r == (s@.len() > 0 && s@[0] == '/'),
{
    s.unicode_len() > 0 && s.get_char(0) == '/'
}

fn join_path(dir: &str, name: &str) -> (s: String)
    ensures
        s@ == full_path(dir@, name@),
{
    if first_char_is_slash(name) {
        return name.to_owned();
    }
    let mut s = dir.to_owned();
    let n = dir.unicode_len();
    if n > 0 && dir.get_char(n - 1) != '/' {
        s.append("/");
    }
    s.append(name);
    assert(s@ =~= full_path(dir@, name@));
    s
}

impl LogWriter {
    /// A log that is begun now, in the directory `dir`.
    pub fn open(path: Option<&str>, format: LogFormat, port: &str, dir: &str) -> (r: Self)
        ensures
            r@.format == format,
            exists|at: WallTime|
                at.valid() && r@.path == #[trigger] log_path(
                    text::given(path),
                    port@,
                    dir@,
                    at,
                ),
    {
        let at = clock::local_now();
        LogWriter::open_at(path, format, port, dir, &at)
    }

    /// A log that was begun at `at`, in the directory `dir`.
    pub fn open_at(
        path: Option<&str>,
        format: LogFormat,
        port: &str,
        dir: &str,
        at: &WallTime,
    ) -> (r: Self)
        requires
            at.valid(),
        ensures
            r@ == (LogView {
                path: log_path(
                    text::given(path),
                    port@,
                    dir@,
                    *at,
                ),
                format,
            }),
    {
        if let Some(p) = path {
            if !p.is_empty() {
                return LogWriter { path: join_path(dir, p), format };
            }
        }
        let name = default_name_at(port, at);
        LogWriter { path: join_path(dir, name.as_str()), format }
    }

    pub fn path(&self) -> (r: &str)
        ensures
            r@ == self@.path,
    {
        self.path.as_str()
    }

    /// What to say when the file cannot be created.
    pub fn create_error(&self) -> (s: String)
        ensures
            s@ == self@.create_error(),
    {
        let mut s = "cannot create ".to_owned();
        s.append(text::quoted(self.path.as_str()).as_str());
        s
    }

    /// Raw logs mirror the byte stream; clean logs are written line by line instead.
    pub fn write_chunk(&self, data: &[u8]) -> (r: Vec<u8>)
        ensures
            r@ == self@.chunk(data@),
    {
        let mut r: Vec<u8> = Vec::new();
        if self.format == LogFormat::Raw {
            r.extend_from_slice(data);
        }
        assert(r@ =~= self@.chunk(data@));
        r
    }

    pub fn write_line(&self, line: &Line) -> (r: Vec<u8>)
        requires
            line.at.valid(),
        ensures
            r@ == self@.line(line@),
    {
        self.stamped_line(
            line.raw.as_slice(),
            clock::format_time(&line.at, clock::STAMP_FORMAT).as_str(),
        )
    }

    /// Puts down a finished line, with the given stamp.
    pub fn stamped_line(&self, raw: &[u8], stamp: &str) -> (r: Vec<u8>)
        ensures
            r@ == self@.line_with(raw@, stamp@),
    {
        let mut r: Vec<u8> = Vec::new();
        if self.format == LogFormat::Clean {
            let mut head = "[".to_owned();
            head.append(stamp);
            head.append("] ");
            r.extend_from_slice(head.as_str().as_bytes());
            r.extend_from_slice(ansi::strip(raw).as_slice());
            r.push(timestamps::LF);
        }
        assert(r@ =~= self@.line_with(raw@, stamp@));
        r
    }

    /// Puts down a remark of our own, now.
    pub fn note(&self, remark: &str) -> (r: Vec<u8>)
        ensures
            exists|at: WallTime| at.valid() && r@ == #[trigger] self@.note(remark@, at),
    {
        let at = clock::local_now();
        self.note_at(remark, &at)
    }

    /// Puts down a remark of our own, made at `at`.
    pub fn note_at(&self, remark: &str, at: &WallTime) -> (r: Vec<u8>)
        requires
            at.valid(),
        ensures
            r@ == self@.note(remark@, *at),
    {
        self.stamped_note(remark, clock::format_time(at, clock::STAMP_FORMAT).as_str())
    }

    /// Puts down a remark of our own, with the given stamp.
    pub fn stamped_note(&self, remark: &str, stamp: &str) -> (r: Vec<u8>)
        ensures
            r@ == self@.note_with(remark@, stamp@),
    {
        let mut r: Vec<u8> = Vec::new();
        // Raw logs mirror a byte stream that may sit mid-line.
        if self.format == LogFormat::Raw {
            r.push(timestamps::LF);
        }
        let mut s = "[".to_owned();
        s.append(stamp);
        s.append("] --- ");
        s.append(remark);
        s.append(" ---\n");
        r.extend_from_slice(s.as_str().as_bytes());
        assert(r@ =~= self@.note_with(remark@, stamp@));
        r
    }
}

/// A raw log holds the byte stream itself: chunks add up to it however they are cut,
/// and finished lines add nothing. A clean log takes nothing from chunks.
pub proof fn logs_hold_the_stream_or_the_lines(
    log: LogView,
    a: Seq<u8>,
    b: Seq<u8>,
    lines: Seq<LineView>,
)
    ensures
        log.chunk(a + b) == log.chunk(a) + log.chunk(b),
        log.format == LogFormat::Raw ==> log.chunk(a) == a && log.lines(lines) == Seq::<u8>::empty(),
        log.format == LogFormat::Clean ==> log.chunk(a) == Seq::<u8>::empty(),
    decreases lines.len(),
{
    assert(log.chunk(a + b) =~= log.chunk(a) + log.chunk(b));
    if lines.len() > 0 {
        logs_hold_the_stream_or_the_lines(log, a, b, lines.drop_last());
        if log.format == LogFormat::Raw {
            assert(log.lines(lines) =~= Seq::<u8>::empty());
        }
    }
}

/// A line of a clean log is its stamp and then what the device sent, free of escape
/// sequences; a line without any is kept as it is.
pub proof fn clean_log_lines_are_escape_free(log: LogView, line: LineView)
    requires
        log.format == LogFormat::Clean,
    ensures
        ({
            let head = encode_utf8("["@ + stamp(line.at) + "] "@);
            let body = log.line(line).subrange(head.len() as int, log.line(line).len() - 1);
            &&& head.is_prefix_of(log.line(line))
            &&& log.line(line).last() == timestamps::LF
            &&& ansi::escape_free(body)
            &&& ansi::escape_free(line.raw) ==> body == line.raw
        }),
{
    let head = encode_utf8("["@ + stamp(line.at) + "] "@);
    let all = log.line(line);
    let body = all.subrange(head.len() as int, all.len() - 1);
    assert(body =~= ansi::stripped(line.raw));
    ansi::stripped_is_escape_free(line.raw);
    if ansi::escape_free(line.raw) {
        ansi::plain_text_is_kept(line.raw);
    }
    assert(head =~= all.take(head.len() as int));
}

/// A log file always has a full path when the directory does.
pub proof fn log_paths_are_absolute(
    path: Option<Seq<char>>,
    port: Seq<char>,
    dir: Seq<char>,
    at: WallTime,
)
    requires
        dir.len() > 0,
        dir[0] == '/',
    ensures
        log_path(path, port, dir, at).len() > 0,
        log_path(path, port, dir, at)[0] == '/',
{
}

/// A log file asked for by a full path goes there, and one asked for by a relative path
/// goes under the directory; an empty path is no path, and stands for the default name,
/// which is put into the directory too.
pub proof fn a_log_goes_where_it_was_asked_for(
    p: Seq<char>,
    port: Seq<char>,
    dir: Seq<char>,
    at: WallTime,
)
    requires
        dir.len() > 0,
        dir.last() != '/',
    ensures
        p.len() > 0 && p[0] == '/' ==> log_path(Some(p), port, dir, at) == p,
        p.len() > 0 && p[0] != '/' ==> log_path(Some(p), port, dir, at) == dir + seq!['/'] + p,
        p.len() > 0 && p[0] != '/' ==> log_path(Some(p), port, dir + seq!['/'], at) == dir + seq![
            '/',
        ] + p,
        log_path(None, port, dir, at) == dir + seq!['/'] + default_name_text(port, at),
        log_path(Some(Seq::empty()), port, dir, at) == log_path(None, port, dir, at),
{
    reveal_strlit("/");
    reveal_strlit("mcom-");
    assert("/"@ =~= seq!['/']);
    assert(default_name_text(port, at)[0] == 'm');
}

/// The default name of a log file starts with the program's name, goes on with that of
/// the port without its directory, and ends with the stamp and `.log`. It has no
/// directory of its own.
pub proof fn a_default_name_tells_the_port(
    dir: Seq<char>,
    port: Seq<char>,
    stamp: Seq<char>,
)
    requires
        !port.contains('/'),
        !stamp.contains('/'),
    ensures
        name_with(dir + seq!['/'] + port, stamp) == name_with(port, stamp),
        name_with(port, stamp) == seq!['m', 'c', 'o', 'm', '-'] + port + seq!['-'] + stamp + seq![
            '.',
            'l',
            'o',
            'g',
        ],
        !name_with(port, stamp).contains('/'),
{
    text::a_path_ends_with_its_name(dir, port);
    reveal_strlit("mcom-");
    reveal_strlit("-");
    reveal_strlit(".log");
    assert("mcom-"@ =~= seq!['m', 'c', 'o', 'm', '-']);
    assert("-"@ =~= seq!['-']);
    assert(".log"@ =~= seq!['.', 'l', 'o', 'g']);
    let n = name_with(port, stamp);
    assert forall|i: int| 0 <= i < n.len() implies n[i] != '/' by {
        if 5 <= i < 5 + port.len() {
            assert(n[i] == port[i - 5]);
            assert(port.contains(port[i - 5]));
        } else if 6 + port.len() <= i < 6 + port.len() + stamp.len() {
            assert(n[i] == stamp[i - 6 - port.len()]);
            assert(stamp.contains(stamp[i - 6 - port.len()]));
        }
    }
}

/// A remark of our own is on a line of its own in either log: it holds the stamp and
/// the remark and ends with a line feed, and in a raw log, which may be in the middle
/// of a line, it starts with one.
pub proof fn a_remark_has_its_own_line(log: LogView, remark: Seq<char>, stamp: Seq<char>)
    ensures
        ({
            let n = log.note_with(remark, stamp);
            let line = encode_utf8(seq!['[']) + encode_utf8(stamp) + encode_utf8(
                "] --- "@,
            ) + encode_utf8(remark) + encode_utf8(" ---"@) + seq![0x0a];
            &&& log.format == LogFormat::Raw ==> n == seq![0x0a] + line
            &&& log.format == LogFormat::Clean ==> n == line
        }),
{
    reveal_strlit("[");
    reveal_strlit(" ---");
    reveal_strlit(" ---\n");
    assert("["@ =~= seq!['[']);
    assert(" ---\n"@ =~= " ---"@ + seq!['\n']);
    is_ascii_chars_encode_utf8(seq!['\n']);
    assert(encode_utf8(seq!['\n']) =~= seq![0x0au8]);
    text::encoding_joins(" ---"@, seq!['\n']);
    text::encoding_joins("["@ + stamp + "] --- "@ + remark, " ---\n"@);
    text::encoding_joins("["@ + stamp + "] --- "@, remark);
    text::encoding_joins("["@ + stamp, "] --- "@);
    text::encoding_joins("["@, stamp);
    let n = log.note_with(remark, stamp);
    let line = encode_utf8(seq!['[']) + encode_utf8(stamp) + encode_utf8("] --- "@) + encode_utf8(
        remark,
    ) + encode_utf8(" ---"@) + seq![0x0au8];
    assert(encode_utf8("["@ + stamp + "] --- "@ + remark + " ---\n"@) =~= line);
    if log.format == LogFormat::Raw {
        assert(n =~= seq![0x0au8] + line);
    } else {
        assert(n =~= line);
    }
}

/// A clean log has one line for each line of the device: its stamp in brackets, a blank
/// and the line, whose control sequences are gone wherever in it they stand.
pub proof fn a_clean_log_line_is_stamped_text(
    log: LogView,
    front: Seq<u8>,
    params: Seq<u8>,
    last: u8,
    back: Seq<u8>,
    stamp: Seq<char>,
)
    requires
        log.format == LogFormat::Clean,
        !front.contains(0x1b),
        !back.contains(0x1b),
        forall|i: int| 0 <= i < params.len() ==> !(0x40 <= #[trigger] params[i] <= 0x7e),
        0x40 <= last <= 0x7e,
    ensures
        log.line_with(front + (seq![0x1b, 0x5b] + params + seq![last] + back), stamp)
            == encode_utf8(seq!['['] + stamp + seq![']', ' ']) + front + back + seq![0x0a],
{
    reveal_strlit("[");
    reveal_strlit("] ");
    assert("["@ =~= seq!['[']);
    assert("] "@ =~= seq![']', ' ']);
    assert forall|i: int| 0 <= i < front.len() implies #[trigger] front[i] != ansi::ESC by {
        assert(front.contains(front[i]));
    }
    assert forall|i: int| 0 <= i < back.len() implies #[trigger] back[i] != ansi::ESC by {
        assert(back.contains(back[i]));
    }
    let tail = seq![0x1bu8, 0x5b] + params + seq![last] + back;
    ansi::plain_text_in_front_is_kept(front, tail);
    ansi::control_sequences_vanish(params, last, back);
    ansi::plain_text_is_kept(back);
    let head = encode_utf8(seq!['['] + stamp + seq![']', ' ']);
    assert(head + (front + back) + seq![0x0au8] =~= head + front + back + seq![0x0au8]);
}

/// Lines go into a clean log one after the other, in the order they came.
pub proof fn a_clean_log_keeps_the_order(
    log: LogView,
    a: Seq<LineView>,
    b: Seq<LineView>,
)
    ensures
        log.lines(a + b) == log.lines(a) + log.lines(b),
    decreases b.len(),
{
    if b.len() == 0 {
        assert(a + b =~= a);
        assert(log.lines(a) + log.lines(b) =~= log.lines(a));
    } else {
        a_clean_log_keeps_the_order(log, a, b.drop_last());
        assert((a + b).drop_last() =~= a + b.drop_last());
        assert(log.lines(a + b) =~= log.lines(a) + log.lines(b));
    }
}

/// A log file that cannot be created is told by its path.
pub proof fn a_log_that_fails_is_named(log: LogView)
    ensures
        text::debug_str(log.path).is_suffix_of(log.create_error()),
        "cannot create "@.is_prefix_of(log.create_error()),
{
    let e = log.create_error();
    let d = text::debug_str(log.path);
    assert(d =~= e.subrange(e.len() - d.len(), e.len() as int));
    assert("cannot create "@ =~= e.subrange(0, "cannot create "@.len() as int));
}

} // verus!
