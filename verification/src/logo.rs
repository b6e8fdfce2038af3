//! Startup art. Three variants are kept; `BANNER` selects the one in use.
use crate::text;
use vstd::prelude::*;

verus! {

/// Three lines, narrow enough to sit above a firmware log without pushing
/// anything off screen. This is what a session starts with.
pub const COMPACT: &'static str = "\
╔╦╗╔═╗╔═╗╔╦╗   serial, in color
║║║║  ║ ║║║║   ─┐ ┌─┐ ┌───┐ ┌──
╩ ╩╚═╝╚═╝╩ ╩    └─┘ └─┘   └─┘";

/// Block lettering over a bit stream. Too tall to print on every connect, but
/// it reads well in documentation and release notes.
pub const BLOCK: &'static str = "\
 ███╗   ███╗ ██████╗ ██████╗ ███╗   ███╗
 ████╗ ████║██╔════╝██╔═══██╗████╗ ████║
 ██╔████╔██║██║     ██║   ██║██╔████╔██║
 ██║╚██╔╝██║██║     ██║   ██║██║╚██╔╝██║
 ██║ ╚═╝ ██║╚██████╗╚██████╔╝██║ ╚═╝ ██║
 ╚═╝     ╚═╝ ╚═════╝ ╚═════╝ ╚═╝     ╚═╝
  ─┐ ┌─┐ ┌───┐ ┌─┐ ┌──────┐ ┌─┐ ┌──  115200 8N1
   └─┘ └─┘   └─┘ └─┘      └─┘ └─┘";

/// A connector and its cable, with no lettering at all.
pub const CONNECTOR: &'static str = "\
    ╭─────────────╮
 ═══┥ ● ● ● ● ● ● ┝═══   m c o m
    ╰─────────────╯      115200 8N1";

pub const BANNER: &'static str = COMPACT;

/// `art` with every line feed preceded by a carriage return, as a terminal in raw
/// mode needs it.
pub open spec fn raw_mode_text(art: Seq<char>) -> Seq<char>
    decreases art.len(),
{
    if art.len() == 0 {
        Seq::empty()
    } else if art.last() == '\n' {
        raw_mode_text(art.drop_last()) + "\r\n"@
    } else {
        raw_mode_text(art.drop_last()).push(art.last())
    }
}

/// The startup art, ready to be written to a terminal in raw mode, with a line
/// break after its last line.
pub fn banner() -> (s: String)
    ensures
        s@ == raw_mode_text(BANNER@) + "\r\n"@,
{
    let v = text::chars_of(BANNER);
    let mut s = String::new();
    let mut i: usize = 0;
    while i < v.len()
        invariant
            i <= v@.len(),
            s@ == raw_mode_text(v@.take(i as int)),
        decreases v@.len() - i,
    {
        assert(v@.take(i + 1).drop_last() =~= v@.take(i as int));
        if v[i] == '\n' {
            s.append("\r\n");
        } else {
            s.push(v[i]);
        }
        i += 1;
    }
    assert(v@.take(v@.len() as int) =~= v@);
    s.append("\r\n");
    s
}

/// Text for a terminal in raw mode is the same line by line: every line feed comes with
/// a carriage return in front, and nothing else is added or lost.
pub proof fn lines_are_kept_in_raw_mode(line: Seq<char>, rest: Seq<char>)
    requires
        !line.contains('\n'),
    ensures
        raw_mode_text(line) == line,
        raw_mode_text(line + seq!['\n'] + rest) == line + seq!['\r', '\n'] + raw_mode_text(rest),
    decreases line.len() + rest.len(),
{
    let all = line + seq!['\n'] + rest;
    reveal_strlit("\r\n");
    assert("\r\n"@ =~= seq!['\r', '\n']);
    if rest.len() > 0 {
        lines_are_kept_in_raw_mode(line, rest.drop_last());
        assert(all.drop_last() =~= line + seq!['\n'] + rest.drop_last());
        assert(all.last() == rest.last());
        assert(raw_mode_text(all) =~= line + seq!['\r', '\n'] + raw_mode_text(rest));
    } else {
        lemma_no_breaks(line);
        assert(all.drop_last() =~= line);
        assert(raw_mode_text(rest) =~= Seq::empty());
        assert(raw_mode_text(all) =~= line + seq!['\r', '\n'] + raw_mode_text(rest));
    }
}

proof fn lemma_no_breaks(line: Seq<char>)
    requires
        !line.contains('\n'),
    ensures
        raw_mode_text(line) == line,
    decreases line.len(),
{
    if line.len() > 0 {
        let head = line.drop_last();
        assert forall|i: int| 0 <= i < head.len() implies head[i] != '\n' by {
            assert(line.contains(line[i]));
        }
        lemma_no_breaks(head);
        assert(line.contains(line.last()));
        assert(head.push(line.last()) =~= line);
    } else {
        assert(raw_mode_text(line) =~= line);
    }
}

} // verus!
