//! The serial port: how it is set up, what its errors mean and where to look for it
//! again.
use crate::cli::FrameMode;
use crate::ports;
use crate::text;
use vstd::prelude::*;

verus! {

/// How long a read waits for data, in milliseconds.
pub const READ_TIMEOUT: u64 = 50;

/// How long a break holds the line, in milliseconds.
pub const BREAK_LENGTH: u64 = 250;

/// Empty reads before the device counts as gone.
pub const ZERO_READS_BEFORE_HANGUP: u32 = 20;

/// The pause after an empty read, in milliseconds.
pub const ZERO_READ_PAUSE: u64 = 10;

/// Which port to open and how.
#[derive(Debug)]
pub struct PortConfig {
    pub path: String,
    pub baud: u32,
    pub frame: FrameMode,
}

/// The contents of a port configuration.
#[verifier::ext_equal]
pub struct PortConfigView {
    pub path: Seq<char>,
    pub baud: u32,
    pub frame: FrameMode,
}

impl View for PortConfig {
    type V = PortConfigView;

    open spec fn view(&self) -> PortConfigView {
        PortConfigView { path: self.path@, baud: self.baud, frame: self.frame }
    }
}

impl Clone for PortConfig {
    fn clone(&self) -> (r: Self)
        ensures
            r@ == self@,
    {
        PortConfig { path: self.path.clone(), baud: self.baud, frame: self.frame }
    }
}

/// The kinds of input and output errors that make a difference here.
#[derive(Copy, Clone, Debug, PartialEq, Eq, Structural)]
pub enum ErrorKind {
    TimedOut,
    Interrupted,
    WouldBlock,
    NotFound,
    BrokenPipe,
    PermissionDenied,
    ResourceBusy,
    Other,
}

/// Why a port could not be opened.
#[derive(Copy, Clone, Debug, PartialEq, Eq, Structural)]
pub enum OpenFailure {
    NoDevice,
    Io(ErrorKind),
    Other,
}

/// What to tell the user about a port that could not be opened.
pub open spec fn open_hint(path: Seq<char>, failure: OpenFailure) -> Seq<char> {
    match failure {
        OpenFailure::NoDevice => path
            + " is not there — is the board plugged in? Try `mcom --list`."@,
        OpenFailure::Io(ErrorKind::PermissionDenied) => "no permission to open "@ + path
            + " — on Linux add yourself to the `dialout` group, or check that nothing else holds it: `lsof "@
            + path + "`"@,
        OpenFailure::Io(ErrorKind::ResourceBusy) => path
            + " is busy — another program still holds it. A detached `screen` session is the usual culprit: `screen -ls`, then `lsof "@
            + path + "`."@,
        _ => "cannot open "@ + path,
    }
}

pub fn describe_open_error(path: &str, failure: OpenFailure) -> (s: String)
    ensures
        s@ == open_hint(path@, failure),
{
    let mut s = String::new();
    match failure {
        OpenFailure::NoDevice => {
            s.append(path);
            s.append(" is not there — is the board plugged in? Try `mcom --list`.");
        },
        OpenFailure::Io(ErrorKind::PermissionDenied) => {
            s.append("no permission to open ");
            s.append(path);
            s.append(
                " — on Linux add yourself to the `dialout` group, or check that nothing else holds it: `lsof ",
            );
            s.append(path);
            s.append("`");
        },
        OpenFailure::Io(ErrorKind::ResourceBusy) => {
            s.append(path);
            s.append(
                " is busy — another program still holds it. A detached `screen` session is the usual culprit: `screen -ls`, then `lsof ",
            );
            s.append(path);
            s.append("`.");
        },
        _ => {
            s.append("cannot open ");
            s.append(path);
        },
    }
    assert(s@ =~= open_hint(path@, failure));
    s
}

/// What to tell the user about a port that could not be locked.
pub open spec fn lock_hint(path: Seq<char>, kind: ErrorKind) -> Seq<char> {
    if kind == ErrorKind::WouldBlock {
        path + " is locked by another process — check with `lsof "@ + path
            + "` (a detached `screen` session is the usual culprit)"@
    } else {
        "cannot lock "@ + path
    }
}

pub fn describe_lock_error(path: &str, kind: ErrorKind) -> (s: String)
    ensures
        s@ == lock_hint(path@, kind),
{
    let mut s = String::new();
    if kind == ErrorKind::WouldBlock {
        s.append(path);
        s.append(" is locked by another process — check with `lsof ");
        s.append(path);
        s.append("` (a detached `screen` session is the usual culprit)");
    } else {
        s.append("cannot lock ");
        s.append(path);
    }
    assert(s@ =~= lock_hint(path@, kind));
    s
}

/// Whether an error means that there was nothing to read, and no more than that.
pub open spec fn harmless(kind: ErrorKind) -> bool {
    kind == ErrorKind::TimedOut || kind == ErrorKind::Interrupted || kind == ErrorKind::WouldBlock
}

/// Read errors that mean the device went away rather than "nothing to read".
pub fn is_disconnect(kind: ErrorKind) -> (r: bool)
    ensures
        r == !harmless(kind),
{
    !matches!(kind, ErrorKind::TimedOut | ErrorKind::Interrupted | ErrorKind::WouldBlock)
}

/// The port to reconnect to. The original path comes back first. Failing that, and
/// unless pinned, another path is taken only where it is provably the same device:
/// the port on which the remembered identity sits now.
pub open spec fn reconnect_target(
    original: Seq<char>,
    exists_now: bool,
    identity: Option<Seq<char>>,
    entries: Seq<(Seq<char>, Seq<char>)>,
    strict: bool,
) -> Option<Seq<char>> {
    if exists_now {
        Some(original)
    } else if strict {
        None
    } else {
        match identity {
            None => None,
            Some(id) => ports::path_from(entries, id, 0),
        }
    }
}

/// Finds the port to reconnect to among the devices present.
pub fn find_reconnect_target(
    original: &str,
    exists_now: bool,
    identity: Option<&str>,
    entries: &[(String, String)],
    strict: bool,
) -> (r: Option<String>)
    ensures
        ports::opt_text(r) == reconnect_target(
            original@,
            exists_now,
            text::given(identity),
            ports::pairs(entries@),
            strict,
        ),
{
    if exists_now {
        return Some(original.to_owned());
    }
    if strict {
        return None;
    }
    match identity {
        None => None,
        Some(id) => ports::path_for_identity(entries, id),
    }
}

/// A port under a new name is only taken for the device when it carries the device's
/// identity, and never when the path is pinned or no identity is known.
pub proof fn a_new_name_is_the_same_device(
    original: Seq<char>,
    exists_now: bool,
    identity: Option<Seq<char>>,
    entries: Seq<(Seq<char>, Seq<char>)>,
    strict: bool,
)
    ensures
        reconnect_target(original, exists_now, identity, entries, strict) matches Some(p) ==> p
            == original || (!strict && (identity matches Some(id) && entries.contains((id, p)))),
{
    if let Some(id) = identity {
        ports::an_identity_resolves_to_its_own_device(entries, id);
    }
}

/// A device that is back is found: under its own name always, and under any other
/// name exactly when the name is not pinned, the device is known, and it is among those
/// present.
pub proof fn a_device_that_is_back_is_found(
    original: Seq<char>,
    exists_now: bool,
    identity: Option<Seq<char>>,
    entries: Seq<(Seq<char>, Seq<char>)>,
    strict: bool,
)
    ensures
        exists_now ==> reconnect_target(original, exists_now, identity, entries, strict) == Some(
            original,
        ),
        !exists_now ==> (reconnect_target(
            original,
            exists_now,
            identity,
            entries,
            strict,
        ) is Some <==> !strict && identity is Some && exists|j: int|
            0 <= j < entries.len() && (#[trigger] entries[j]).0 == identity->0),
{
    if let Some(id) = identity {
        ports::an_identity_resolves_to_its_own_device(entries, id);
    }
}

/// Whatever goes wrong with a port, the user is told which port it is.
pub proof fn hints_name_the_port(path: Seq<char>, failure: OpenFailure, kind: ErrorKind)
    ensures
        text::occurs(path, open_hint(path, failure)),
        text::occurs(path, lock_hint(path, kind)),
{
    let none = Seq::<char>::empty();
    let open = open_hint(path, failure);
    let n = path.len() as int;
    if failure == OpenFailure::NoDevice || failure == OpenFailure::Io(ErrorKind::ResourceBusy) {
        text::a_text_is_found_wherever_it_stands(none, path, open.skip(n), open);
        assert(open =~= none + path + open.skip(n));
    } else if failure == OpenFailure::Io(ErrorKind::PermissionDenied) {
        let front = "no permission to open "@;
        text::a_text_is_found_wherever_it_stands(front, path, open.skip(front.len() + n), open);
        assert(open =~= front + path + open.skip(front.len() + n));
    } else {
        text::a_text_is_found_wherever_it_stands("cannot open "@, path, none, open);
        assert(open =~= "cannot open "@ + path + none);
    }
    let lock = lock_hint(path, kind);
    if kind == ErrorKind::WouldBlock {
        text::a_text_is_found_wherever_it_stands(none, path, lock.skip(n), lock);
        assert(lock =~= none + path + lock.skip(n));
    } else {
        text::a_text_is_found_wherever_it_stands("cannot lock "@, path, none, lock);
        assert(lock =~= "cannot lock "@ + path + none);
    }
}

/// An error either says to try again or that the device is gone, never both: a
/// timeout, an interruption and a port with nothing to read are the ones to sit out.
pub proof fn errors_to_sit_out(kind: ErrorKind)
    ensures
        harmless(kind) <==> match kind {
            ErrorKind::TimedOut | ErrorKind::Interrupted | ErrorKind::WouldBlock => true,
            ErrorKind::NotFound
            | ErrorKind::BrokenPipe
            | ErrorKind::PermissionDenied
            | ErrorKind::ResourceBusy
            | ErrorKind::Other => false,
        },
{
}

/// What a read from the port came to.
#[derive(Debug)]
pub enum ReadOutcome {
    /// So many bytes
    Bytes(usize),
    /// An error, and what it says
    Failed(ErrorKind, String),
}

/// What the reader does next.
#[derive(Debug)]
pub enum ReaderStep {
    /// Hand the bytes on
    Forward,
    /// Pause, then read again
    Pause,
    /// Read again
    Again,
    /// The device is gone, for this reason
    HangUp(String),
}

/// Watches what is read from a port. A serial port signals "nothing yet" with a
/// timeout, never with a zero-length read; a run of those means the device is gone.
#[derive(Debug)]
pub struct Reader {
    zero_reads: u32,
}

impl View for Reader {
    type V = nat;

    /// Empty reads since the last data.
    closed spec fn view(&self) -> nat {
        self.zero_reads as nat
    }
}

/// The empty reads since the last data, after one more read.
pub open spec fn empty_reads(before: nat, outcome: ReadOutcome) -> nat {
    match outcome {
        ReadOutcome::Bytes(n) => if n == 0 {
            before + 1
        } else {
            0
        },
        ReadOutcome::Failed(_, _) => before,
    }
}

/// The empty reads since the last data, after all of `outcomes`.
pub open spec fn empty_reads_after(outcomes: Seq<ReadOutcome>) -> nat
    decreases outcomes.len(),
{
    if outcomes.len() == 0 {
        0
    } else {
        empty_reads(empty_reads_after(outcomes.drop_last()), outcomes.last())
    }
}

/// Only empty reads in a row count: after any data, as many as have come since, with
/// errors that are sat out neither counted nor ending the row.
pub proof fn empty_reads_count_from_the_last_data(
    before: Seq<ReadOutcome>,
    n: usize,
    since: Seq<ReadOutcome>,
)
    requires
        n > 0,
        forall|i: int|
            0 <= i < since.len() ==> (#[trigger] since[i]) is Failed || since[i]
                == ReadOutcome::Bytes(0),
    ensures
        empty_reads_after(before + seq![ReadOutcome::Bytes(n)] + since) == since.filter(
            |o: ReadOutcome| o is Bytes,
        ).len(),
    decreases since.len(),
{
    let all = before + seq![ReadOutcome::Bytes(n)] + since;
    let counted = |o: ReadOutcome| o is Bytes;
    reveal(Seq::filter);
    if since.len() == 0 {
        assert(all.last() == ReadOutcome::Bytes(n));
    } else {
        let head = since.drop_last();
        assert forall|i: int| 0 <= i < head.len() implies (#[trigger] head[i]) is Failed || head[i]
            == ReadOutcome::Bytes(0) by {
            assert(head[i] == since[i]);
        }
        empty_reads_count_from_the_last_data(before, n, head);
        assert(all.drop_last() =~= before + seq![ReadOutcome::Bytes(n)] + head);
        assert(all.last() == since[since.len() - 1]);
    }
}

impl Reader {
    pub fn new() -> (r: Self)
        ensures
            r@ == 0,
    {
        Reader { zero_reads: 0 }
    }

    /// Decides what follows a read. After a hang-up there is no next read.
    pub fn on_read(&mut self, outcome: ReadOutcome) -> (step: ReaderStep)
        requires
            old(self)@ < ZERO_READS_BEFORE_HANGUP,
        ensures
            final(self)@ == empty_reads(old(self)@, outcome),
            step is HangUp || final(self)@ < ZERO_READS_BEFORE_HANGUP,
            match outcome {
                ReadOutcome::Bytes(n) => if n > 0 {
                    step is Forward
                } else if old(self)@ + 1 < ZERO_READS_BEFORE_HANGUP {
                    step is Pause
                } else {
                    step matches ReaderStep::HangUp(why) && why@ == "device closed the port"@
                },
                ReadOutcome::Failed(kind, what) => if harmless(kind) {
                    step is Again
                } else {
                    step matches ReaderStep::HangUp(why) && why@ == what@
                },
            },
    {
        match outcome {
            ReadOutcome::Bytes(n) => if n > 0 {
                self.zero_reads = 0;
                ReaderStep::Forward
            } else {
                self.zero_reads += 1;
                if self.zero_reads >= ZERO_READS_BEFORE_HANGUP {
                    ReaderStep::HangUp("device closed the port".to_owned())
                } else {
                    ReaderStep::Pause
                }
            },
            ReadOutcome::Failed(kind, what) => if is_disconnect(kind) {
                ReaderStep::HangUp(what)
            } else {
                ReaderStep::Again
            },
        }
    }
}

/// Twenty empty reads in a row, and not one fewer, mean that the device is gone.
pub proof fn twenty_empty_reads_are_a_hangup(reads: Seq<ReadOutcome>)
    requires
        forall|i: int| 0 <= i < reads.len() ==> #[trigger] reads[i] == ReadOutcome::Bytes(0),
    ensures
        empty_reads_after(reads) == reads.len(),
        empty_reads_after(reads) >= ZERO_READS_BEFORE_HANGUP <==> reads.len() >= 20,
    decreases reads.len(),
{
    if reads.len() > 0 {
        let head = reads.drop_last();
        assert forall|i: int| 0 <= i < head.len() implies #[trigger] head[i]
            == ReadOutcome::Bytes(0) by {
            assert(head[i] == reads[i]);
        }
        twenty_empty_reads_are_a_hangup(head);
        assert(reads[reads.len() - 1] == ReadOutcome::Bytes(0));
    }
}

} // verus!
