//! Terminal escape sequences, and the length that a text has on the screen.

use crate::text::{chars_of, decimal, push_number};
use vstd::prelude::*;
use vstd::string::StringExecFns;

verus! {

/// The sequence that sets the text colour.
pub open spec fn fg(r: u8, g: u8, b: u8) -> Seq<char> {
    "\x1b[38;2;"@ + decimal(r as nat) + ";"@ + decimal(g as nat) + ";"@ + decimal(b as nat) + "m"@
}

/// The sequence that sets the background colour.
pub open spec fn bg(r: u8, g: u8, b: u8) -> Seq<char> {
    "\x1b[48;2;"@ + decimal(r as nat) + ";"@ + decimal(g as nat) + ";"@ + decimal(b as nat) + "m"@
}

/// A text in a colour.
pub open spec fn colored(r: u8, g: u8, b: u8, s: Seq<char>) -> Seq<char> {
    fg(r, g, b) + s + "\x1b[39m"@
}

/// A text in bold.
pub open spec fn bold(s: Seq<char>) -> Seq<char> {
    "\x1b[1m"@ + s + "\x1b[22m"@
}

/// A text in bold and in a colour.
pub open spec fn bold_colored(r: u8, g: u8, b: u8, s: Seq<char>) -> Seq<char> {
    "\x1b[1m"@ + fg(r, g, b) + s + "\x1b[39m\x1b[22m"@
}

/// Where in the grammar of escape sequences a text ends.
#[derive(Clone, Copy, Debug, PartialEq, Eq, Structural)]
pub enum Mode {
    /// Outside of any sequence.
    Ground,
    /// Right behind an escape character that no bracket has followed yet.
    Escape,
    /// Inside a sequence, before the `m` that ends it.
    Sequence,
}

/// A text, as far as its length on the screen is concerned.
pub struct Scan {
    pub shown: nat,
    pub mode: Mode,
}

/// The character that starts an escape sequence.
pub open spec fn esc() -> char {
    '\u{1b}'
}

/// What one more character makes of a scan.
pub open spec fn scan_step(a: Scan, c: char) -> Scan {
    match a.mode {
        Mode::Ground => if c == esc() {
            Scan { shown: a.shown, mode: Mode::Escape }
        } else {
            Scan { shown: a.shown + 1, mode: Mode::Ground }
        },
        Mode::Escape => if c == '[' {
            Scan { shown: a.shown, mode: Mode::Sequence }
        } else if c == esc() {
            Scan { shown: a.shown + 1, mode: Mode::Escape }
        } else {
            Scan { shown: a.shown + 2, mode: Mode::Ground }
        },
        Mode::Sequence => if c == 'm' {
            Scan { shown: a.shown, mode: Mode::Ground }
        } else {
            a
        },
    }
}

/// The scan of a text.
pub open spec fn scan(s: Seq<char>) -> Scan
    decreases s.len(),
{
    if s.len() == 0 {
        Scan { shown: 0, mode: Mode::Ground }
    } else {
        scan_step(scan(s.drop_last()), s.last())
    }
}

/// The number of characters that a text shows: all but its escape sequences.
/// An escape character that starts no sequence is shown.
pub open spec fn visible(s: Seq<char>) -> nat {
    if scan(s).mode == Mode::Escape {
        scan(s).shown + 1
    } else {
        scan(s).shown
    }
}

/// Whether a text leaves no escape sequence open.
pub open spec fn closed(s: Seq<char>) -> bool {
    scan(s).mode == Mode::Ground
}

/// Whether a text is free of escape characters.
pub open spec fn plain(s: Seq<char>) -> bool {
    forall|i: int| 0 <= i < s.len() ==> #[trigger] s[i] != esc()
}

/// The sequence that sets the text colour.
pub fn ansi_fg_rgb(r: u8, g: u8, b: u8) -> (s: String)
    ensures
        s@ == fg(r, g, b),
{
    let mut s = String::new();
    s.append("\x1b[38;2;");
    push_number(&mut s, r as u64);
    s.append(";");
    push_number(&mut s, g as u64);
    s.append(";");
    push_number(&mut s, b as u64);
    s.append("m");
    proof {
        assert(s@ =~= fg(r, g, b));
    }
    s
}

/// The sequence that sets the background colour.
pub fn ansi_bg_rgb(r: u8, g: u8, b: u8) -> (s: String)
    ensures
        s@ == bg(r, g, b),
{
    let mut s = String::new();
    s.append("\x1b[48;2;");
    push_number(&mut s, r as u64);
    s.append(";");
    push_number(&mut s, g as u64);
    s.append(";");
    push_number(&mut s, b as u64);
    s.append("m");
    proof {
        assert(s@ =~= bg(r, g, b));
    }
    s
}

/// The sequence that ends all colours and styles.
pub fn ansi_reset() -> (s: &'static str)
    ensures
        s@ == "\x1b[0m"@,
{
    "\x1b[0m"
}

/// A text in a colour.
pub fn color_text_rgb(r: u8, g: u8, b: u8, s: &str) -> (t: String)
    ensures
        t@ == colored(r, g, b, s@),
{
    let mut t = ansi_fg_rgb(r, g, b);
    t.append(s);
    t.append("\x1b[39m");
    t
}

/// A text in bold.
pub fn bold_text(s: &str) -> (t: String)
    ensures
        t@ == bold(s@),
{
    let mut t = String::new();
    t.append("\x1b[1m");
    t.append(s);
    t.append("\x1b[22m");
    proof {
        assert(t@ =~= bold(s@));
    }
    t
}

/// A text in bold and in a colour.
pub fn bold_color_rgb(r: u8, g: u8, b: u8, s: &str) -> (t: String)
    ensures
        t@ == bold_colored(r, g, b, s@),
{
    let color = ansi_fg_rgb(r, g, b);
    let mut t = String::new();
    t.append("\x1b[1m");
    t.append(color.as_str());
    t.append(s);
    t.append("\x1b[39m\x1b[22m");
    proof {
        assert(t@ =~= bold_colored(r, g, b, s@));
    }
    t
}

/// The length of a text on the screen.
pub fn visible_len(s: &str) -> (n: usize)
    ensures
        n == visible(s@),
        n <= s@.len(),
{
    let v = chars_of(s);
    let mut shown: usize = 0;
    let mut mode = Mode::Ground;
    let mut i: usize = 0;
    while i < v.len()
        invariant
            i <= v@.len(),
            scan(v@.take(i as int)) == (Scan { shown: shown as nat, mode: mode }),
            shown + (if mode == Mode::Escape { 1int } else { 0 }) <= i,
        decreases v.len() - i,
    {
        let c = v[i];
        proof {
            assert(v@.take(i + 1).drop_last() =~= v@.take(i as int));
        }
        match mode {
            Mode::Ground => {
                if c == '\u{1b}' {
                    mode = Mode::Escape;
                } else {
                    shown = shown + 1;
                }
            },
            Mode::Escape => {
                if c == '[' {
                    mode = Mode::Sequence;
                } else if c == '\u{1b}' {
                    shown = shown + 1;
                } else {
                    shown = shown + 2;
                    mode = Mode::Ground;
                }
            },
            Mode::Sequence => {
                if c == 'm' {
                    mode = Mode::Ground;
                }
            },
        }
        i = i + 1;
    }
    proof {
        assert(v@.take(v@.len() as int) =~= v@);
    }
    if mode == Mode::Escape {
        shown + 1
    } else {
        shown
    }
}

/// A closed text does not influence what follows it.
pub proof fn lemma_scan_concat(a: Seq<char>, b: Seq<char>)
    requires
        closed(a),
    ensures
        scan(a + b).mode == scan(b).mode,
        scan(a + b).shown == scan(a).shown + scan(b).shown,
        visible(a + b) == visible(a) + visible(b),
        closed(b) ==> closed(a + b),
    decreases b.len(),
{
    if b.len() == 0 {
        assert(a + b =~= a);
    } else {
        lemma_scan_concat(a, b.drop_last());
        assert((a + b).drop_last() =~= a + b.drop_last());
        assert((a + b).last() == b.last());
    }
}

/// A text without escape characters shows all of its characters.
pub proof fn lemma_scan_plain(s: Seq<char>)
    requires
        plain(s),
    ensures
        closed(s),
        visible(s) == s.len(),
    decreases s.len(),
{
    if s.len() > 0 {
        assert forall|i: int| 0 <= i < s.drop_last().len() implies #[trigger] s.drop_last()[i]
            != esc() by {
            assert(s[i] != esc());
        }
        lemma_scan_plain(s.drop_last());
        assert(s[s.len() - 1] != esc());
    }
}

} // verus!
