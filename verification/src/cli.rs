//! Settings of a session, and the frame format given as text.
use crate::text;
use vstd::prelude::*;
use vstd::utf8::*;

verus! {

/// What the command line asks for.
#[derive(Debug)]
pub struct Cli {
    /// Serial port path (auto-detected when omitted)
    pub port: Option<String>,
    /// Baud rate; 0 leaves the line speed untouched, which is what virtual ports need
    pub baud: u32,
    /// Frame format: data bits, parity, stop bits
    pub mode: String,
    /// List available ports and exit
    pub list: bool,
    /// Timestamp mode
    pub ts: TsMode,
    /// Write the session to a file (auto-named when the path is empty)
    pub log: Option<String>,
    /// Log file contents: raw byte stream or stripped lines with timestamps
    pub log_format: LogFormat,
    /// Scrollback buffer size, in lines
    pub scrollback: usize,
    /// Exit instead of waiting for the device to come back
    pub no_reconnect: bool,
    /// On reconnect, only accept the exact same port path
    pub strict_port: bool,
    /// Escape key, given as the letter pressed with Ctrl
    pub escape: char,
    /// Send a local echo of everything typed
    pub echo: bool,
}

/// How lines are stamped.
#[derive(Copy, Clone, Debug, PartialEq, Eq, Structural)]
pub enum TsMode {
    /// No timestamps
    Off,
    /// Seconds since the session started
    Rel,
    /// Local wall-clock time
    Abs,
    /// Time since the previous line
    Delta,
}

impl TsMode {
    /// The mode that follows `self` in the cycle off, rel, abs, delta.
    pub open spec fn successor(self) -> TsMode {
        match self {
            TsMode::Off => TsMode::Rel,
            TsMode::Rel => TsMode::Abs,
            TsMode::Abs => TsMode::Delta,
            TsMode::Delta => TsMode::Off,
        }
    }

    /// The name of the mode.
    pub open spec fn name(self) -> Seq<char> {
        match self {
            TsMode::Off => "off"@,
            TsMode::Rel => "rel"@,
            TsMode::Abs => "abs"@,
            TsMode::Delta => "delta"@,
        }
    }

    pub fn next(self) -> (r: Self)
        ensures
            r == self.successor(),
    {
        match self {
            TsMode::Off => TsMode::Rel,
            TsMode::Rel => TsMode::Abs,
            TsMode::Abs => TsMode::Delta,
            TsMode::Delta => TsMode::Off,
        }
    }

    pub fn label(self) -> (r: &'static str)
        ensures
            r@ == self.name(),
    {
        match self {
            TsMode::Off => "off",
            TsMode::Rel => "rel",
            TsMode::Abs => "abs",
            TsMode::Delta => "delta",
        }
    }
}

/// Four steps through the timestamp modes lead back to the first, and no fewer do.
pub proof fn timestamp_modes_form_a_cycle(m: TsMode)
    ensures
        m.successor().successor().successor().successor() == m,
        m.successor() != m,
        m.successor().successor() != m,
        m.successor().successor().successor() != m,
{
}

/// Timestamps go from off to the time since the start, to the time of day, to the time
/// since the previous line and off again, and each mode is called by its own name.
pub proof fn timestamp_modes_come_in_order(m: TsMode)
    ensures
        m.successor() == TsMode::Rel <==> m == TsMode::Off,
        m.successor() == TsMode::Abs <==> m == TsMode::Rel,
        m.successor() == TsMode::Delta <==> m == TsMode::Abs,
        m.successor() == TsMode::Off <==> m == TsMode::Delta,
        m.name() == seq!['o', 'f', 'f'] <==> m == TsMode::Off,
        m.name() == seq!['r', 'e', 'l'] <==> m == TsMode::Rel,
        m.name() == seq!['a', 'b', 's'] <==> m == TsMode::Abs,
        m.name() == seq!['d', 'e', 'l', 't', 'a'] <==> m == TsMode::Delta,
{
    reveal_strlit("off");
    reveal_strlit("rel");
    reveal_strlit("abs");
    reveal_strlit("delta");
    assert("off"@ =~= seq!['o', 'f', 'f']);
    assert("rel"@ =~= seq!['r', 'e', 'l']);
    assert("abs"@ =~= seq!['a', 'b', 's']);
    assert("delta"@ =~= seq!['d', 'e', 'l', 't', 'a']);
    let n = m.name();
    if n == seq!['o', 'f', 'f'] {
        assert(n[0] == 'o');
    } else if n == seq!['r', 'e', 'l'] {
        assert(n[0] == 'r');
    } else if n == seq!['a', 'b', 's'] {
        assert(n[0] == 'a');
    } else if n == seq!['d', 'e', 'l', 't', 'a'] {
        assert(n[0] == 'd');
    }
}

/// What a log file holds.
#[derive(Copy, Clone, Debug, PartialEq, Eq, Structural)]
pub enum LogFormat {
    /// Exactly what the device sent, escape sequences included
    Raw,
    /// One line per line, escape sequences stripped, absolute timestamps
    Clean,
}

/// Data bits of a frame.
#[derive(Copy, Clone, Debug, PartialEq, Eq, Structural)]
pub enum DataBits {
    Five,
    Six,
    Seven,
    Eight,
}

/// Parity of a frame.
#[derive(Copy, Clone, Debug, PartialEq, Eq, Structural)]
pub enum Parity {
    NoParity,
    Odd,
    Even,
}

/// Stop bits of a frame.
#[derive(Copy, Clone, Debug, PartialEq, Eq, Structural)]
pub enum StopBits {
    One,
    Two,
}

/// Frame format parsed from strings like `8N1` or `7E2`.
#[derive(Copy, Clone, Debug, PartialEq, Eq, Structural)]
pub struct FrameMode {
    pub data_bits: DataBits,
    pub parity: Parity,
    pub stop_bits: StopBits,
}

/// Why a text is no frame format.
#[derive(Debug, PartialEq, Eq)]
pub enum FrameError {
    /// Not three bytes long
    Length(String),
    /// The first byte is none of 5 to 8
    DataBits(u8),
    /// The second byte is none of N, E and O
    Parity(u8),
    /// The third byte is neither 1 nor 2
    StopBits(u8),
}

/// The data bits that a byte stands for.
pub open spec fn data_bits_of(b: u8) -> Option<DataBits> {
    if b == 0x35 {
        Some(DataBits::Five)
    } else if b == 0x36 {
        Some(DataBits::Six)
    } else if b == 0x37 {
        Some(DataBits::Seven)
    } else if b == 0x38 {
        Some(DataBits::Eight)
    } else {
        None
    }
}

/// The parity that a letter of either case stands for.
pub open spec fn parity_of(b: u8) -> Option<Parity> {
    if b == 0x4e || b == 0x6e {
        Some(Parity::NoParity)
    } else if b == 0x45 || b == 0x65 {
        Some(Parity::Even)
    } else if b == 0x4f || b == 0x6f {
        Some(Parity::Odd)
    } else {
        None
    }
}

/// The stop bits that a byte stands for.
pub open spec fn stop_bits_of(b: u8) -> Option<StopBits> {
    if b == 0x31 {
        Some(StopBits::One)
    } else if b == 0x32 {
        Some(StopBits::Two)
    } else {
        None
    }
}

impl FrameMode {
    /// The three characters that name the format.
    pub open spec fn text(self) -> Seq<char> {
        seq![
            match self.data_bits {
                DataBits::Five => '5',
                DataBits::Six => '6',
                DataBits::Seven => '7',
                DataBits::Eight => '8',
            },
            match self.parity {
                Parity::NoParity => 'N',
                Parity::Even => 'E',
                Parity::Odd => 'O',
            },
            match self.stop_bits {
                StopBits::One => '1',
                StopBits::Two => '2',
            },
        ]
    }

    /// Whether `s` names this format.
    pub open spec fn read_from(self, s: Seq<char>) -> bool {
        let b = encode_utf8(s);
        &&& b.len() == 3
        &&& data_bits_of(b[0]) == Some(self.data_bits)
        &&& parity_of(b[1]) == Some(self.parity)
        &&& stop_bits_of(b[2]) == Some(self.stop_bits)
    }

    /// Reads a frame format. The result says which part of the text is wrong, the
    /// length first and then the bytes from left to right.
    pub fn parse(s: &str) -> (r: Result<Self, FrameError>)
        ensures
            match r {
                Ok(m) => m.read_from(s@),
                Err(e) => e.found_in(s@),
            },
    {
        let b = s.as_bytes();
        if b.len() != 3 {
            return Err(FrameError::Length(s.to_owned()));
        }
        let data_bits = match b[0] {
            0x35 => DataBits::Five,
            0x36 => DataBits::Six,
            0x37 => DataBits::Seven,
            0x38 => DataBits::Eight,
            c => return Err(FrameError::DataBits(c)),
        };
        let parity = match b[1] {
            0x4e | 0x6e => Parity::NoParity,
            0x45 | 0x65 => Parity::Even,
            0x4f | 0x6f => Parity::Odd,
            c => return Err(FrameError::Parity(c)),
        };
        let stop_bits = match b[2] {
            0x31 => StopBits::One,
            0x32 => StopBits::Two,
            c => return Err(FrameError::StopBits(c)),
        };
        Ok(FrameMode { data_bits, parity, stop_bits })
    }

    /// The format as text, such as `8N1`.
    pub fn to_string(&self) -> (s: String)
        ensures
            s@ == self.text(),
    {
        let mut s = String::new();
        s.push(
            match self.data_bits {
                DataBits::Five => '5',
                DataBits::Six => '6',
                DataBits::Seven => '7',
                DataBits::Eight => '8',
            },
        );
        s.push(
            match self.parity {
                Parity::NoParity => 'N',
                Parity::Even => 'E',
                Parity::Odd => 'O',
            },
        );
        s.push(
            match self.stop_bits {
                StopBits::One => '1',
                StopBits::Two => '2',
            },
        );
        assert(s@ =~= self.text());
        s
    }
}

/// What is printed for a frame format reads back as the same format.
pub proof fn frame_text_reads_back(m: FrameMode)
    ensures
        m.read_from(m.text()),
{
    is_ascii_chars_encode_utf8(m.text());
}

/// A text names one format at most, and none where something is wrong with it; only
/// one thing is reported as wrong.
pub proof fn frame_texts_are_unambiguous(
    s: Seq<char>,
    a: FrameMode,
    b: FrameMode,
    e: FrameError,
    f: FrameError,
)
    ensures
        a.read_from(s) && b.read_from(s) ==> a == b,
        !(a.read_from(s) && e.found_in(s)),
        e.found_in(s) && f.found_in(s) ==> e.sentence() == f.sentence(),
{
}

/// What each character of a frame format means: the first is the number of data bits,
/// the second gives the parity by its initial in either case, and the third is the
/// number of stop bits. Whatever is none of these is what is reported, from left to
/// right.
pub proof fn frame_characters_have_one_meaning(s: Seq<char>, m: FrameMode, e: FrameError)
    ensures
        m.read_from(s) ==> ({
            let b = encode_utf8(s);
            &&& b.len() == 3
            &&& b[0] - 0x30 == match m.data_bits {
                DataBits::Five => 5int,
                DataBits::Six => 6,
                DataBits::Seven => 7,
                DataBits::Eight => 8,
            }
            &&& match m.parity {
                Parity::NoParity => b[1] == 0x4e || b[1] == 0x6e,
                Parity::Even => b[1] == 0x45 || b[1] == 0x65,
                Parity::Odd => b[1] == 0x4f || b[1] == 0x6f,
            }
            &&& b[2] - 0x30 == match m.stop_bits {
                StopBits::One => 1int,
                StopBits::Two => 2,
            }
        }),
        e.found_in(s) ==> ({
            let b = encode_utf8(s);
            let bits = 0x35 <= b[0] <= 0x38;
            let parity = b[1] == 0x4e || b[1] == 0x6e || b[1] == 0x45 || b[1] == 0x65 || b[1]
                == 0x4f || b[1] == 0x6f;
            match e {
                FrameError::Length(t) => t@ == s && b.len() != 3,
                FrameError::DataBits(c) => c == b[0] && b.len() == 3 && !bits,
                FrameError::Parity(c) => c == b[1] && b.len() == 3 && bits && !parity,
                FrameError::StopBits(c) => c == b[2] && b.len() == 3 && bits && parity && c != 0x31
                    && c != 0x32,
            }
        }),
{
}

/// A frame format is printed with the same characters: the number of data bits, the
/// initial of the parity and the number of stop bits.
pub proof fn frame_text_tells_the_format(m: FrameMode)
    ensures
        m.text().len() == 3,
        m.text()[0] == '5' <==> m.data_bits == DataBits::Five,
        m.text()[0] == '6' <==> m.data_bits == DataBits::Six,
        m.text()[0] == '7' <==> m.data_bits == DataBits::Seven,
        m.text()[0] == '8' <==> m.data_bits == DataBits::Eight,
        m.text()[1] == 'N' <==> m.parity == Parity::NoParity,
        m.text()[1] == 'E' <==> m.parity == Parity::Even,
        m.text()[1] == 'O' <==> m.parity == Parity::Odd,
        m.text()[2] == '1' <==> m.stop_bits == StopBits::One,
        m.text()[2] == '2' <==> m.stop_bits == StopBits::Two,
{
}

impl FrameError {
    /// Whether this is what is wrong with `s`.
    pub open spec fn found_in(self, s: Seq<char>) -> bool {
        let b = encode_utf8(s);
        match self {
            FrameError::Length(t) => b.len() != 3 && t@ == s,
            FrameError::DataBits(c) => b.len() == 3 && c == b[0] && data_bits_of(c) is None,
            FrameError::Parity(c) => b.len() == 3 && data_bits_of(b[0]) is Some && c == b[1]
                && parity_of(c) is None,
            FrameError::StopBits(c) => b.len() == 3 && data_bits_of(b[0]) is Some && parity_of(
                b[1],
            ) is Some && c == b[2] && stop_bits_of(c) is None,
        }
    }

    /// The sentence that explains the error.
    pub open spec fn sentence(self) -> Seq<char> {
        match self {
            FrameError::Length(t) => "expected a 3-character frame format like 8N1, got "@
                + text::debug_str(t@),
            FrameError::DataBits(c) => "data bits must be 5..8, got "@ + text::debug_char(c as char),
            FrameError::Parity(c) => "parity must be N, E or O, got "@ + text::debug_char(c as char),
            FrameError::StopBits(c) => "stop bits must be 1 or 2, got "@ + text::debug_char(c as char),
        }
    }

    pub fn message(&self) -> (s: String)
        ensures
            s@ == self.sentence(),
    {
        match self {
            FrameError::Length(t) => {
                let mut s = "expected a 3-character frame format like 8N1, got ".to_owned();
                s.append(text::quoted(t.as_str()).as_str());
                s
            },
            FrameError::DataBits(c) => {
                let mut s = "data bits must be 5..8, got ".to_owned();
                s.append(text::quoted_char(*c as char).as_str());
                s
            },
            FrameError::Parity(c) => {
                let mut s = "parity must be N, E or O, got ".to_owned();
                s.append(text::quoted_char(*c as char).as_str());
                s
            },
            FrameError::StopBits(c) => {
                let mut s = "stop bits must be 1 or 2, got ".to_owned();
                s.append(text::quoted_char(*c as char).as_str());
                s
            },
        }
    }
}

/// What is wrong with a frame format is told in a sentence that ends with it.
pub proof fn a_frame_error_tells_what_is_wrong(t: String, c: u8)
    ensures
        text::debug_str(t@).is_suffix_of(FrameError::Length(t).sentence()),
        text::debug_char(c as char).is_suffix_of(FrameError::DataBits(c).sentence()),
        text::debug_char(c as char).is_suffix_of(FrameError::Parity(c).sentence()),
        text::debug_char(c as char).is_suffix_of(FrameError::StopBits(c).sentence()),
        "data bits"@.is_prefix_of(FrameError::DataBits(c).sentence()),
        "parity"@.is_prefix_of(FrameError::Parity(c).sentence()),
        "stop bits"@.is_prefix_of(FrameError::StopBits(c).sentence()),
{
    reveal_strlit("data bits");
    reveal_strlit("parity");
    reveal_strlit("stop bits");
    reveal_strlit("data bits must be 5..8, got ");
    reveal_strlit("parity must be N, E or O, got ");
    reveal_strlit("stop bits must be 1 or 2, got ");
    let s = FrameError::Length(t).sentence();
    let d = text::debug_str(t@);
    assert(d =~= s.subrange(s.len() - d.len(), s.len() as int));
    let d = text::debug_char(c as char);
    let s = FrameError::DataBits(c).sentence();
    assert(d =~= s.subrange(s.len() - d.len(), s.len() as int));
    assert("data bits"@ =~= s.subrange(0, 9));
    let s = FrameError::Parity(c).sentence();
    assert(d =~= s.subrange(s.len() - d.len(), s.len() as int));
    assert("parity"@ =~= s.subrange(0, 6));
    let s = FrameError::StopBits(c).sentence();
    assert(d =~= s.subrange(s.len() - d.len(), s.len() as int));
    assert("stop bits"@ =~= s.subrange(0, 9));
}

} // verus!
