//! What holds of every frame: how wide its lines are, and that it has no colours
//! where none are wanted.

use crate::ansi::{
    bg, bold, bold_colored, closed, colored, esc, fg, lemma_scan_concat, lemma_scan_plain, plain,
    scan, scan_step, visible, Mode, Scan,
};
use crate::app::State;
use crate::color::Rgb;
use crate::double::Dyadic;
use crate::format::{memory_text, one_place, padded, percent_text, tenths, two_places};
use crate::process::ProcInfo;
use crate::interval::interval_text;
use crate::keys::browsing;
use crate::screen::{
    appended, bar, cpu_tag, cut, figures, filled_places, frame, gauge, left_text, marker, mode_tags,
    mode_text, row_text, scroll_bar, status_line, status_text, system_line, table_body, table_line,
    table_lines, totals, totals_text,
};
use crate::table::{
    backdrop, cells, filled, gap, guides, header_line, indent, joined_cells, painted, right_column,
    table_width, title, title_cell, title_text, titles, window,
};
use crate::text::{
    decimal, is_digit, lemma_value_decimal, missing, repeated, signed_decimal, spaces,
};
use vstd::prelude::*;
use vstd::utf8::encode_utf8;

verus! {

// Texts without escape characters

proof fn lemma_plain_concat(a: Seq<char>, b: Seq<char>)
    requires
        plain(a),
        plain(b),
    ensures
        plain(a + b),
{
    let r = a + b;
    assert forall|i: int| 0 <= i < r.len() implies #[trigger] r[i] != esc() by {
        if i < a.len() {
            assert(r[i] == a[i]);
        } else {
            assert(r[i] == b[i - a.len()]);
        }
    }
}

proof fn lemma_plain_repeated(c: char, n: nat)
    requires
        c != esc(),
    ensures
        plain(repeated(c, n)),
{
}

proof fn lemma_plain_decimal(n: nat)
    ensures
        plain(decimal(n)),
{
    lemma_value_decimal(n);
    assert forall|i: int| 0 <= i < decimal(n).len() implies #[trigger] decimal(n)[i] != esc() by {
        assert(is_digit(decimal(n)[i]));
    }
}

proof fn lemma_plain_percent(a: Dyadic)
    ensures
        plain(percent_text(a)),
{
    reveal_strlit(".");
    reveal_strlit("-");
    let n = tenths(a);
    lemma_plain_decimal(n / 10);
    lemma_plain_decimal(n % 10);
    lemma_plain_concat(decimal(n / 10), "."@);
    lemma_plain_concat(decimal(n / 10) + "."@, decimal(n % 10));
    lemma_plain_concat("-"@, one_place(n));
    let text = if a.mant < 0 {
        "-"@ + one_place(n)
    } else {
        one_place(n)
    };
    lemma_plain_repeated(' ', missing(text.len(), 5));
    lemma_plain_concat(spaces(missing(text.len(), 5)), text);
}

// Escape sequences

/// An escape sequence shows nothing and is closed by its `m`.
proof fn lemma_sequence(body: Seq<char>)
    requires
        forall|i: int| 0 <= i < body.len() ==> #[trigger] body[i] != 'm',
    ensures
        scan(seq![esc(), '['] + body) == (Scan { shown: 0, mode: Mode::Sequence }),
        scan(seq![esc(), '['] + body + seq!['m']) == (Scan { shown: 0, mode: Mode::Ground }),
    decreases body.len(),
{
    let head = seq![esc(), '['];
    let s = head + body;
    if body.len() == 0 {
        assert(s =~= head);
        assert(head.drop_last() =~= seq![esc()]);
        assert(seq![esc()].drop_last() =~= seq![]);
        reveal_with_fuel(scan, 4);
    } else {
        let b = body.drop_last();
        assert forall|i: int| 0 <= i < b.len() implies #[trigger] b[i] != 'm' by {
            assert(body[i] != 'm');
        }
        lemma_sequence(b);
        assert(s.drop_last() =~= head + b);
        assert(s.last() == body[body.len() - 1]);
    }
    let t = s + seq!['m'];
    assert(t.drop_last() =~= s);
    assert(t.last() == 'm');
}

/// The sequence that sets a colour shows nothing.
proof fn lemma_color_sequence(prefix: Seq<char>, r: u8, g: u8, b: u8)
    requires
        prefix == "\x1b[38;2;"@ || prefix == "\x1b[48;2;"@,
    ensures
        ({
            let s = prefix + decimal(r as nat) + ";"@ + decimal(g as nat) + ";"@ + decimal(b as nat)
                + "m"@;
            closed(s) && visible(s) == 0
        }),
{
    reveal_strlit("\x1b[38;2;");
    reveal_strlit("\x1b[48;2;");
    reveal_strlit(";");
    reveal_strlit("m");
    let x = decimal(r as nat);
    let y = decimal(g as nat);
    let z = decimal(b as nat);
    lemma_value_decimal(r as nat);
    lemma_value_decimal(g as nat);
    lemma_value_decimal(b as nat);
    let rest = prefix.skip(2);
    let body = rest + x + ";"@ + y + ";"@ + z;
    assert forall|i: int| 0 <= i < body.len() implies #[trigger] body[i] != 'm' by {
        let k1 = rest.len() + x.len();
        let k2 = k1 + 1 + y.len();
        if i < rest.len() {
            assert(body[i] == rest[i]);
            assert(rest[i] == prefix[i + 2]);
        } else if i < k1 {
            assert(body[i] == x[i - rest.len()]);
            assert(is_digit(x[i - rest.len()]));
        } else if i == k1 {
            assert(body[i] == ';');
        } else if i < k2 {
            assert(body[i] == y[i - k1 - 1]);
            assert(is_digit(y[i - k1 - 1]));
        } else if i == k2 {
            assert(body[i] == ';');
        } else {
            assert(body[i] == z[i - k2 - 1]);
            assert(is_digit(z[i - k2 - 1]));
        }
    }
    lemma_sequence(body);
    let s = prefix + x + ";"@ + y + ";"@ + z + "m"@;
    assert(prefix =~= seq![esc(), '['] + rest);
    assert(s =~= seq![esc(), '['] + body + seq!['m']);
}

proof fn lemma_fg(r: u8, g: u8, b: u8)
    ensures
        closed(fg(r, g, b)),
        visible(fg(r, g, b)) == 0,
{
    lemma_color_sequence("\x1b[38;2;"@, r, g, b);
}

proof fn lemma_bg(r: u8, g: u8, b: u8)
    ensures
        closed(bg(r, g, b)),
        visible(bg(r, g, b)) == 0,
{
    lemma_color_sequence("\x1b[48;2;"@, r, g, b);
}

/// The sequences for styles show nothing.
proof fn lemma_style_sequences()
    ensures
        closed("\x1b[1m"@) && visible("\x1b[1m"@) == 0,
        closed("\x1b[22m"@) && visible("\x1b[22m"@) == 0,
        closed("\x1b[39m"@) && visible("\x1b[39m"@) == 0,
        closed("\x1b[0m"@) && visible("\x1b[0m"@) == 0,
        closed("\x1b[7m"@) && visible("\x1b[7m"@) == 0,
        closed("\x1b[27m"@) && visible("\x1b[27m"@) == 0,
        closed("\x1b[39m\x1b[22m"@) && visible("\x1b[39m\x1b[22m"@) == 0,
        closed("\x1b[0m  "@) && visible("\x1b[0m  "@) == 2,
{
    reveal_strlit("\x1b[1m");
    reveal_strlit("\x1b[22m");
    reveal_strlit("\x1b[39m");
    reveal_strlit("\x1b[0m");
    reveal_strlit("\x1b[7m");
    reveal_strlit("\x1b[27m");
    reveal_strlit("\x1b[39m\x1b[22m");
    reveal_strlit("\x1b[0m  ");
    lemma_sequence(seq!['1']);
    lemma_sequence(seq!['2', '2']);
    lemma_sequence(seq!['3', '9']);
    lemma_sequence(seq!['0']);
    lemma_sequence(seq!['7']);
    lemma_sequence(seq!['2', '7']);
    assert("\x1b[1m"@ =~= seq![esc(), '['] + seq!['1'] + seq!['m']);
    assert("\x1b[22m"@ =~= seq![esc(), '['] + seq!['2', '2'] + seq!['m']);
    assert("\x1b[39m"@ =~= seq![esc(), '['] + seq!['3', '9'] + seq!['m']);
    assert("\x1b[0m"@ =~= seq![esc(), '['] + seq!['0'] + seq!['m']);
    assert("\x1b[7m"@ =~= seq![esc(), '['] + seq!['7'] + seq!['m']);
    assert("\x1b[27m"@ =~= seq![esc(), '['] + seq!['2', '7'] + seq!['m']);
    assert("\x1b[39m\x1b[22m"@ =~= "\x1b[39m"@ + "\x1b[22m"@);
    lemma_scan_concat("\x1b[39m"@, "\x1b[22m"@);
    assert("\x1b[0m  "@ =~= "\x1b[0m"@ + spaces(2));
    lemma_spaces(2);
    lemma_scan_concat("\x1b[0m"@, spaces(2));
}

proof fn lemma_spaces(n: nat)
    ensures
        closed(spaces(n)),
        visible(spaces(n)) == n,
{
    lemma_plain_repeated(' ', n);
    lemma_scan_plain(spaces(n));
}

/// Whatever an escape sequence follows, it shows nothing and leaves no sequence
/// open.
proof fn lemma_then_sequence(s: Seq<char>, body: Seq<char>)
    requires
        forall|i: int| 0 <= i < body.len() ==> #[trigger] body[i] != 'm',
    ensures
        scan(s + (seq![esc(), '['] + body)) == (Scan { shown: visible(s), mode: Mode::Sequence }),
        scan(s + (seq![esc(), '['] + body + seq!['m'])) == (Scan {
            shown: visible(s),
            mode: Mode::Ground,
        }),
    decreases body.len(),
{
    let head = seq![esc(), '['];
    let t = s + (head + body);
    if body.len() == 0 {
        let one = s + seq![esc()];
        assert(t.drop_last() =~= one);
        assert(t.last() == '[');
        assert(one.drop_last() =~= s);
        assert(one.last() == esc());
        assert(scan(one) == scan_step(scan(s), esc()));
    } else {
        let b = body.drop_last();
        assert forall|i: int| 0 <= i < b.len() implies #[trigger] b[i] != 'm' by {
            assert(body[i] != 'm');
        }
        lemma_then_sequence(s, b);
        assert(t.drop_last() =~= s + (head + b));
        assert(t.last() == body[body.len() - 1]);
    }
    let u = s + (head + body + seq!['m']);
    assert(u.drop_last() =~= t);
    assert(u.last() == 'm');
}

/// Whatever the ends of bold and of a colour follow, they show nothing and leave
/// no sequence open.
proof fn lemma_then_style_end(s: Seq<char>)
    ensures
        closed(s + "\x1b[22m"@) && visible(s + "\x1b[22m"@) == visible(s),
        closed(s + "\x1b[39m"@) && visible(s + "\x1b[39m"@) == visible(s),
        closed(s + "\x1b[39m\x1b[22m"@) && visible(s + "\x1b[39m\x1b[22m"@) == visible(s),
{
    reveal_strlit("\x1b[22m");
    reveal_strlit("\x1b[39m");
    reveal_strlit("\x1b[39m\x1b[22m");
    lemma_then_sequence(s, seq!['2', '2']);
    lemma_then_sequence(s, seq!['3', '9']);
    assert("\x1b[22m"@ =~= seq![esc(), '['] + seq!['2', '2'] + seq!['m']);
    assert("\x1b[39m"@ =~= seq![esc(), '['] + seq!['3', '9'] + seq!['m']);
    lemma_then_sequence(s + "\x1b[39m"@, seq!['2', '2']);
    assert(s + "\x1b[39m\x1b[22m"@ =~= (s + "\x1b[39m"@) + "\x1b[22m"@);
}

/// A text in bold is as wide as the text, and leaves no sequence open.
pub proof fn lemma_bold_width(s: Seq<char>)
    ensures
        closed(bold(s)),
        visible(bold(s)) == visible(s),
{
    lemma_style_sequences();
    lemma_scan_concat("\x1b[1m"@, s);
    lemma_then_style_end("\x1b[1m"@ + s);
}

/// A text in a colour is as wide as the text, and leaves no sequence open.
pub proof fn lemma_colored_width(r: u8, g: u8, b: u8, s: Seq<char>)
    ensures
        closed(colored(r, g, b, s)),
        visible(colored(r, g, b, s)) == visible(s),
{
    lemma_fg(r, g, b);
    lemma_scan_concat(fg(r, g, b), s);
    lemma_then_style_end(fg(r, g, b) + s);
}

/// A text in bold and in a colour is as wide as the text, and leaves no sequence
/// open.
pub proof fn lemma_bold_colored_width(r: u8, g: u8, b: u8, s: Seq<char>)
    ensures
        closed(bold_colored(r, g, b, s)),
        visible(bold_colored(r, g, b, s)) == visible(s),
{
    lemma_style_sequences();
    lemma_fg(r, g, b);
    lemma_scan_concat("\x1b[1m"@, fg(r, g, b));
    lemma_scan_concat("\x1b[1m"@ + fg(r, g, b), s);
    lemma_then_style_end("\x1b[1m"@ + fg(r, g, b) + s);
}

/// A text that leaves no sequence open does not influence what follows it, unless
/// that completes the start of a sequence.
proof fn lemma_scan_behind(a: Seq<char>, b: Seq<char>)
    requires
        scan(a).mode != Mode::Sequence,
        b.len() > 0,
        b[0] != '[',
    ensures
        scan(a + b) == (Scan { shown: visible(a) + scan(b).shown, mode: scan(b).mode }),
        visible(a + b) == visible(a) + visible(b),
    decreases b.len(),
{
    let s = a + b;
    let t = b.drop_last();
    assert(s.drop_last() =~= a + t);
    assert(s.last() == b.last());
    if b.len() == 1 {
        assert(a + t =~= a);
        assert(scan(t) == (Scan { shown: 0, mode: Mode::Ground }));
    } else {
        lemma_scan_behind(a, t);
    }
}

proof fn lemma_then_spaces(s: Seq<char>, n: nat)
    requires
        scan(s).mode != Mode::Sequence,
    ensures
        visible(s + spaces(n)) == visible(s) + n,
        n > 0 ==> closed(s + spaces(n)),
    decreases n,
{
    let t = s + spaces(n);
    if n == 0 {
        assert(t =~= s);
    } else {
        lemma_then_spaces(s, (n - 1) as nat);
        assert(t.drop_last() =~= s + spaces((n - 1) as nat));
        assert(t.last() == ' ');
    }
}

/// A cell is filled up to its width, and is wider only if its text is: spaces
/// are not seen behind a sequence that the text leaves open.
pub proof fn lemma_padded_width(cell: Seq<char>, width: nat, right: bool)
    requires
        right || scan(cell).mode != Mode::Sequence || width <= visible(cell),
    ensures
        closed(cell) ==> closed(padded(cell, width, right)),
        visible(padded(cell, width, right)) == (if visible(cell) < width {
            width
        } else {
            visible(cell)
        }),
{
    let n = missing(visible(cell), width);
    if right {
        lemma_spaces(n);
        lemma_scan_concat(spaces(n), cell);
    } else if n == 0 {
        assert(cell + spaces(n) =~= cell);
    } else {
        lemma_then_spaces(cell, n);
    }
}

// The first line

proof fn lemma_bar(s: State, pct: Dyadic, w: nat)
    ensures
        closed(bar(s, pct, w)),
        visible(bar(s, pct, w)) == w,
{
    let n = filled_places(pct, w);
    let c = crate::color::cpu_color(pct);
    let full = repeated('|', n);
    lemma_plain_repeated('|', n);
    lemma_scan_plain(full);
    lemma_spaces((w - n) as nat);
    lemma_scan_concat(full, spaces((w - n) as nat));
    lemma_fg(c.0, c.1, c.2);
    lemma_style_sequences();
    lemma_scan_concat(fg(c.0, c.1, c.2), full);
    lemma_scan_concat(fg(c.0, c.1, c.2) + full, "\x1b[39m"@);
    lemma_scan_concat(fg(c.0, c.1, c.2) + full + "\x1b[39m"@, spaces((w - n) as nat));
}

proof fn lemma_gauge(s: State, name: Seq<char>, pct: Dyadic, w: nat)
    ensures
        closed(gauge(s, name, pct, w)),
{
    reveal_strlit(" ");
    reveal_strlit("%");
    lemma_scan_plain(" "@);
    lemma_scan_plain("%"@);
    lemma_bold_width(name);
    lemma_bar(s, pct, w);
    lemma_plain_percent(pct);
    lemma_scan_plain(percent_text(pct));
    let a = bold(name) + " "@;
    let b = a + bar(s, pct, w);
    let c = b + " "@;
    let d = c + percent_text(pct);
    lemma_scan_concat(bold(name), " "@);
    lemma_scan_concat(a, bar(s, pct, w));
    lemma_scan_concat(b, " "@);
    lemma_scan_concat(c, percent_text(pct));
    lemma_scan_concat(d, "%"@);
}

proof fn lemma_appended(s: State, line: Seq<char>, name: Seq<char>, val: Seq<char>)
    requires
        scan(line).mode != Mode::Sequence,
        scan(val).mode != Mode::Sequence,
    ensures
        scan(appended(s, line, name, val)).mode != Mode::Sequence,
{
    reveal_strlit(" ");
    lemma_scan_plain(" "@);
    let b = " "@ + line + " "@;
    let c = b + bold(name);
    lemma_then_style_end(b + "\x1b[1m"@ + name);
    assert(c =~= b + "\x1b[1m"@ + name + "\x1b[22m"@);
    lemma_scan_concat(c, " "@);
    lemma_scan_concat(c + " "@, val);
}

/// The figures leave no sequence open if their texts leave none open.
pub proof fn lemma_figures_closed(s: State)
    requires
        scan(s.system_info.load@).mode != Mode::Sequence,
        scan(s.system_info.uptime@).mode != Mode::Sequence,
        scan(s.system_info.tasks@).mode != Mode::Sequence,
    ensures
        scan(figures(s)).mode != Mode::Sequence,
{
    let si = s.system_info;
    reveal_strlit(" ");
    lemma_scan_plain(" "@);
    let a = gauge(s, "CPU"@, si.cpu_percent@, 8);
    let b = gauge(s, "Mem"@, si.mem_percent@, 8);
    let c = gauge(s, "Swp"@, si.swap_percent@, 4);
    lemma_gauge(s, "CPU"@, si.cpu_percent@, 8);
    lemma_gauge(s, "Mem"@, si.mem_percent@, 8);
    lemma_gauge(s, "Swp"@, si.swap_percent@, 4);
    lemma_scan_concat(a, " "@);
    lemma_scan_concat(a + " "@, b);
    lemma_scan_concat(a + " "@ + b, " "@);
    lemma_scan_concat(a + " "@ + b + " "@, c);
    let gauges = a + " "@ + b + " "@ + c;
    lemma_appended(s, gauges, "Load 1/5/15min"@, si.load@);
    let l1 = appended(s, gauges, "Load 1/5/15min"@, si.load@);
    lemma_appended(s, l1, "Uptime"@, si.uptime@);
    let l2 = appended(s, l1, "Uptime"@, si.uptime@);
    lemma_appended(s, l2, "Tasks:"@, si.tasks@);
}

/// One more character makes a text wider by at most one.
proof fn lemma_visible_step(s: Seq<char>)
    requires
        s.len() > 0,
    ensures
        visible(s) <= visible(s.drop_last()) + 1,
{
}

/// What is cut off leaves exactly the width; what fits is not cut.
proof fn lemma_cut(line: Seq<char>, width: nat)
    ensures
        visible(line) <= width ==> cut(line, width) == line,
        visible(line) > width ==> visible(cut(line, width)) == width,
    decreases line.len(),
{
    if visible(line) > width {
        if line.len() == 0 {
            assert(visible(line) == 0);
        } else {
            lemma_visible_step(line);
            lemma_cut(line.drop_last(), width);
        }
    }
}

/// The first line is exactly as wide as the terminal: spaces are not seen behind
/// a sequence that the figures leave open.
pub proof fn lemma_system_line_width(s: State)
    requires
        scan(figures(s)).mode != Mode::Sequence || s.term_width <= visible(figures(s)),
    ensures
        visible(system_line(s)) == s.term_width,
{
    let f = figures(s);
    let line = cut(f, s.term_width);
    lemma_cut(f, s.term_width);
    let n = missing(visible(line), s.term_width);
    if n == 0 {
        assert(line + spaces(n) =~= line);
    } else {
        lemma_then_spaces(line, n);
    }
}

// The header

proof fn lemma_plain_title(col: int)
    ensures
        plain(title(col)),
{
    reveal_strlit("1 PID");
    reveal_strlit("2 User");
    reveal_strlit("3 Command/Program");
    reveal_strlit("4 PSS");
    reveal_strlit("5 USS");
    reveal_strlit("6 RSS");
    reveal_strlit("7 Swap");
    reveal_strlit("8 CPU%");
}

/// The width of a column with the spaces behind it.
pub open spec fn column_width(s: State, col: int) -> nat {
    (if s.widths[col] < title(col).len() {
        title(col).len()
    } else {
        s.widths[col]
    }) + gap(col)
}

/// The width of the first `n` columns.
pub open spec fn columns_width(s: State, n: nat) -> nat
    decreases n,
{
    if n == 0 {
        0
    } else {
        columns_width(s, (n - 1) as nat) + column_width(s, n - 1)
    }
}

proof fn lemma_title_cell(s: State, col: int)
    ensures
        closed(title_cell(s, col)),
        visible(title_cell(s, col)) == column_width(s, col),
{
    let t = title(col);
    lemma_plain_title(col);
    lemma_scan_plain(t);
    let n = missing(t.len(), s.widths[col]);
    lemma_spaces(n);
    lemma_spaces(gap(col));
    lemma_bold_width(t);
    lemma_bold_colored_width(0, 255, 255, t);
    lemma_bold_colored_width(255, 255, 255, t);
    let text = title_text(s, col);
    lemma_scan_concat(spaces(n), text);
    lemma_scan_concat(text, spaces(n));
    lemma_scan_concat(spaces(n) + text, spaces(gap(col)));
    lemma_scan_concat(text + spaces(n), spaces(gap(col)));
}

proof fn lemma_titles(s: State, n: nat)
    ensures
        closed(titles(s, n)),
        visible(titles(s, n)) == columns_width(s, n),
    decreases n,
{
    if n > 0 {
        lemma_titles(s, (n - 1) as nat);
        lemma_title_cell(s, n - 1);
        lemma_scan_concat(titles(s, (n - 1) as nat), title_cell(s, n - 1));
    }
}

proof fn lemma_filled(s: State, line: Seq<char>)
    requires
        closed(line),
    ensures
        closed(filled(s, line)),
        visible(filled(s, line)) == (if visible(line) < table_width(s) {
            table_width(s)
        } else {
            visible(line)
        }),
{
    let n = missing(visible(line), table_width(s));
    lemma_spaces(n);
    lemma_scan_concat(line, spaces(n));
}

proof fn lemma_backdrop(s: State, r: u8, g: u8, b: u8)
    ensures
        closed(backdrop(s, r, g, b)),
        visible(backdrop(s, r, g, b)) == 0,
{
    lemma_bg(r, g, b);
}

/// The header is as wide as the terminal, or as its columns if they are wider.
pub proof fn lemma_header_width(s: State)
    ensures
        visible(header_line(s)) == (if columns_width(s, 8) < table_width(s) {
            table_width(s)
        } else {
            columns_width(s, 8)
        }) + 2,
{
    let line = filled(s, titles(s, 8));
    let b = backdrop(s, 40, 40, 40);
    lemma_titles(s, 8);
    lemma_filled(s, titles(s, 8));
    lemma_backdrop(s, 40, 40, 40);
    lemma_style_sequences();
    lemma_scan_concat(line, b);
    lemma_scan_concat(line + b, "\x1b[0m  "@);
}

// The rows

proof fn lemma_painted(s: State, p: ProcInfo, color: Rgb, text: Seq<char>)
    requires
        !s.no_color || plain(text),
    ensures
        closed(painted(s, p, color, text)),
{
    let c = if p.is_kernel {
        crate::color::GRAY_KERNEL
    } else {
        color
    };
    if s.no_color {
        lemma_scan_plain(text);
    }
    lemma_colored_width(c.0, c.1, c.2, text);
}

proof fn lemma_plain_memory(kib: u64, is_thread: bool)
    ensures
        plain(memory_text(kib, is_thread)),
{
    reveal_strlit("---");
    reveal_strlit("0 KiB");
    reveal_strlit(" MiB");
    reveal_strlit(" KiB");
    reveal_strlit(".");
    let d = crate::double::saturated(
        crate::double::rounded(crate::double::whole(kib as int)),
    ) as nat;
    let one = crate::double::round_half_even(10 * d, 1024);
    let two = crate::double::round_half_even(100 * d, 1024);
    lemma_plain_decimal((d + 512) / 1024);
    lemma_plain_concat(decimal((d + 512) / 1024), " MiB"@);
    lemma_plain_decimal(one / 10);
    lemma_plain_decimal(one % 10);
    lemma_plain_concat(decimal(one / 10), "."@);
    lemma_plain_concat(decimal(one / 10) + "."@, decimal(one % 10));
    lemma_plain_concat(one_place(one), " MiB"@);
    lemma_plain_decimal(two / 100);
    lemma_plain_decimal(two / 10 % 10);
    lemma_plain_decimal(two % 10);
    lemma_plain_concat(decimal(two / 100), "."@);
    lemma_plain_concat(decimal(two / 100) + "."@, decimal(two / 10 % 10));
    lemma_plain_concat(decimal(two / 100) + "."@ + decimal(two / 10 % 10), decimal(two % 10));
    lemma_plain_concat(two_places(two), " MiB"@);
    lemma_plain_decimal(kib as nat);
    lemma_plain_concat(decimal(kib as nat), " KiB"@);
}

proof fn lemma_plain_guides(mask: u32, n: nat)
    ensures
        plain(guides(mask, n)),
        guides(mask, n).len() == 3 * n,
    decreases n,
{
    if n > 0 {
        reveal_strlit("│  ");
        reveal_strlit("   ");
        lemma_plain_guides(mask, (n - 1) as nat);
        lemma_plain_concat(guides(mask, (n - 1) as nat), "│  "@);
        lemma_plain_concat(guides(mask, (n - 1) as nat), "   "@);
    }
}

proof fn lemma_plain_indent(tree_mode: bool, p: ProcInfo)
    ensures
        plain(indent(tree_mode, p)),
{
    reveal_strlit("└─ ");
    reveal_strlit("├─ ");
    lemma_plain_guides(p.tree_mask, p.tree_depth as nat);
    lemma_plain_concat(guides(p.tree_mask, p.tree_depth as nat), "└─ "@);
    lemma_plain_concat(guides(p.tree_mask, p.tree_depth as nat), "├─ "@);
}

proof fn lemma_plain_window(command: Seq<char>, offset: nat)
    requires
        plain(command),
    ensures
        plain(window(command, offset)),
        window(command, offset).len() == 40,
{
    let max = if command.len() > 40 {
        (command.len() - 40) as nat
    } else {
        0
    };
    let from = if offset < max {
        offset as int
    } else {
        max as int
    };
    let shown = crate::procfs::shortened(command.skip(from), 40);
    assert forall|i: int| 0 <= i < shown.len() implies #[trigger] shown[i] != esc() by {
        assert(command[from + i] != esc());
    }
    lemma_plain_repeated(' ', missing(shown.len(), 40));
    lemma_plain_concat(shown, spaces(missing(shown.len(), 40)));
}

proof fn lemma_plain_signed(n: int)
    ensures
        plain(signed_decimal(n)),
{
    if n < 0 {
        lemma_plain_decimal((-n) as nat);
        lemma_plain_concat(seq!['-'], decimal((-n) as nat));
    } else {
        lemma_plain_decimal(n as nat);
    }
}

/// Whether the texts of a row are free of escape characters.
pub open spec fn plain_row(p: ProcInfo) -> bool {
    plain(p.user@) && plain(p.full_cmd@)
}

/// The texts in the cells of a row.
proof fn lemma_cells(s: State, p: ProcInfo, i: int)
    requires
        !s.no_color || plain_row(p),
        0 <= i < 8,
    ensures
        closed(cells(s, p)[i]),
        s.no_color ==> plain(cells(s, p)[i]),
{
    let id = signed_decimal(p.id() as int);
    let command = indent(s.tree_mode, p) + window(p.full_cmd@, s.cmd_offset);
    lemma_plain_signed(p.id() as int);
    lemma_plain_indent(s.tree_mode, p);
    if s.no_color {
        lemma_plain_window(p.full_cmd@, s.cmd_offset);
        lemma_plain_concat(indent(s.tree_mode, p), window(p.full_cmd@, s.cmd_offset));
    }
    lemma_plain_percent(p.cpu_percent@);
    lemma_plain_memory(p.pss_kb, p.is_thread);
    lemma_plain_memory(p.uss_kb, p.is_thread);
    lemma_plain_memory(p.rss_kb, p.is_thread);
    lemma_plain_memory(p.swap_kb, p.is_thread);
    let text = if i == 0 {
        id
    } else if i == 1 {
        p.user@
    } else if i == 2 {
        command
    } else if i == 3 {
        memory_text(p.pss_kb, p.is_thread)
    } else if i == 4 {
        memory_text(p.uss_kb, p.is_thread)
    } else if i == 5 {
        memory_text(p.rss_kb, p.is_thread)
    } else if i == 6 {
        memory_text(p.swap_kb, p.is_thread)
    } else {
        percent_text(p.cpu_percent@)
    };
    let color = choose|color: Rgb| cells(s, p)[i] == #[trigger] painted(s, p, color, text);
    lemma_cell_painted(s, p, i, text);
    lemma_painted(s, p, color, text);
}

proof fn lemma_cell_painted(s: State, p: ProcInfo, i: int, text: Seq<char>)
    requires
        0 <= i < 8,
        text == (if i == 0 {
            signed_decimal(p.id() as int)
        } else if i == 1 {
            p.user@
        } else if i == 2 {
            indent(s.tree_mode, p) + window(p.full_cmd@, s.cmd_offset)
        } else if i == 3 {
            memory_text(p.pss_kb, p.is_thread)
        } else if i == 4 {
            memory_text(p.uss_kb, p.is_thread)
        } else if i == 5 {
            memory_text(p.rss_kb, p.is_thread)
        } else if i == 6 {
            memory_text(p.swap_kb, p.is_thread)
        } else {
            percent_text(p.cpu_percent@)
        }),
    ensures
        exists|color: Rgb| cells(s, p)[i] == #[trigger] painted(s, p, color, text),
{
    let pss = crate::color::pss_color(p.pss_kb.wrapping_mul(1024), s.limit_red_bytes);
    let uss = crate::color::pss_color(p.uss_kb.wrapping_mul(1024), s.limit_red_bytes);
    let rss = crate::color::rss_color(p.rss_kb.wrapping_mul(1024), s.mem_total_bytes);
    let swap = crate::color::swap_color(p.swap_kb.wrapping_mul(1024), s.swap_total_bytes);
    let color = if i == 0 {
        if p.is_thread {
            crate::color::GRAY_THREAD
        } else {
            crate::color::YELLOW_BRIGHT
        }
    } else if i == 1 {
        crate::table::user_color(s, p.user@)
    } else if i == 2 {
        crate::color::WHITE_DIMMER
    } else if i == 7 {
        crate::color::cpu_color(p.cpu_percent@)
    } else if p.is_thread {
        crate::color::GRAY_THREAD
    } else if i == 3 {
        pss
    } else if i == 4 {
        uss
    } else if i == 5 {
        rss
    } else {
        swap
    };
    assert(cells(s, p)[i] == painted(s, p, color, text));
}

proof fn lemma_joined(s: State, p: ProcInfo, n: nat)
    requires
        !s.no_color || plain_row(p),
        n <= 8,
    ensures
        closed(joined_cells(s, cells(s, p), n)),
        s.no_color ==> plain(joined_cells(s, cells(s, p), n)),
    decreases n,
{
    if n > 0 {
        let cs = cells(s, p);
        let head = joined_cells(s, cs, (n - 1) as nat);
        let right = right_column(n - 1);
        let cell = padded(cs[n - 1], s.widths[n - 1], right);
        let pad = spaces(missing(visible(cs[n - 1]), s.widths[n - 1]));
        lemma_joined(s, p, (n - 1) as nat);
        lemma_cells(s, p, n - 1);
        lemma_padded_width(cs[n - 1], s.widths[n - 1], right);
        lemma_spaces(gap(n - 1));
        lemma_scan_concat(head, cell);
        lemma_scan_concat(head + cell, spaces(gap(n - 1)));
        if s.no_color {
            lemma_plain_repeated(' ', missing(visible(cs[n - 1]), s.widths[n - 1]));
            lemma_plain_concat(pad, cs[n - 1]);
            lemma_plain_concat(cs[n - 1], pad);
            lemma_plain_repeated(' ', gap(n - 1));
            lemma_plain_concat(head, cell);
            lemma_plain_concat(head + cell, spaces(gap(n - 1)));
        }
    }
}

proof fn lemma_marker(selected: bool, marked: bool)
    ensures
        plain(marker(selected, marked)),
{
    reveal_strlit("[*] ");
    reveal_strlit("[x] ");
    reveal_strlit("[ ] ");
    reveal_strlit("    ");
}

/// A row leaves no sequence open if it has colours, or if its texts are free of
/// escape characters.
pub proof fn lemma_row_closed(s: State, i: int)
    requires
        !s.no_color || plain_row(s.filtered_raw[i]),
    ensures
        closed(row_text(s, i)),
{
    let p = s.filtered_raw[i];
    let line = joined_cells(s, cells(s, p), 8);
    let mark = marker(i == s.kill_selected, s.marked_pids.contains(p.id()));
    lemma_joined(s, p, 8);
    lemma_marker(i == s.kill_selected, s.marked_pids.contains(p.id()));
    lemma_scan_plain(mark);
    lemma_style_sequences();
    lemma_scan_concat(mark, line);
    lemma_scan_concat("\x1b[7m"@, mark);
    lemma_scan_concat("\x1b[7m"@ + mark, line);
    lemma_scan_concat("\x1b[7m"@ + mark + line, "\x1b[27m"@);
}

proof fn lemma_scroll_bar(s: State, idx: nat)
    ensures
        closed(scroll_bar(s, idx)),
        visible(scroll_bar(s, idx)) == 2,
{
    reveal_strlit("  ");
    lemma_scan_plain("  "@);
    lemma_style_sequences();
    lemma_backdrop(s, 120, 120, 120);
    lemma_backdrop(s, 40, 40, 40);
    let a = backdrop(s, 120, 120, 120);
    let b = backdrop(s, 40, 40, 40);
    lemma_scan_concat(a, "  "@);
    lemma_scan_concat(b, "  "@);
    lemma_scan_concat(a + "  "@, "\x1b[0m"@);
    lemma_scan_concat(b + "  "@, "\x1b[0m"@);
}

proof fn lemma_scroll_bar_start(s: State, idx: nat)
    ensures
        scroll_bar(s, idx).len() > 0,
        scroll_bar(s, idx)[0] != '[',
{
    reveal_strlit("  ");
    reveal_strlit("\x1b[0m");
    reveal_strlit("\x1b[48;2;");
    assert(bg(120, 120, 120)[0] == esc());
    assert(bg(40, 40, 40)[0] == esc());
}

/// A line of the table is as wide as the terminal, or as its row and the scroll
/// bar if they are wider: spaces are not seen behind a sequence that the row
/// leaves open, which it can do only where there are no colours.
pub proof fn lemma_table_line_width(s: State, idx: nat)
    requires
        s.no_color && s.scroll_pos + idx < s.filtered_raw.len() ==> scan(
            row_text(s, (s.scroll_pos + idx) as int),
        ).mode != Mode::Sequence,
    ensures
        ({
            let i = (s.scroll_pos + idx) as int;
            visible(table_body(s, idx) + scroll_bar(s, idx)) == (if i < s.filtered_raw.len()
                && visible(row_text(s, i)) > table_width(s) {
                visible(row_text(s, i))
            } else {
                table_width(s)
            }) + 2
        }),
{
    let i = (s.scroll_pos + idx) as int;
    if i < s.filtered_raw.len() {
        let line = row_text(s, i);
        let n = missing(visible(line), table_width(s));
        if !s.no_color {
            lemma_row_closed(s, i);
        }
        lemma_then_spaces(line, n);
        if n == 0 {
            assert(line + spaces(n) =~= line);
        }
    } else {
        lemma_spaces(table_width(s));
    }
    lemma_scroll_bar(s, idx);
    lemma_scroll_bar_start(s, idx);
    lemma_scan_behind(table_body(s, idx), scroll_bar(s, idx));
}

// Colours

/// Whether a sequence that sets a 24-bit colour starts at a position: those for
/// the text start with `3`, those for the background with `4`.
pub open spec fn tinted_at(s: Seq<char>, i: int) -> bool {
    0 <= i && i + 2 < s.len() && s[i] == esc() && s[i + 1] == '[' && (s[i + 2] == '3' || s[i + 2]
        == '4')
}

/// Whether a text sets no 24-bit colour.
pub open spec fn untinted(s: Seq<char>) -> bool {
    forall|i: int| !#[trigger] tinted_at(s, i)
}

/// Whether all escape characters of a text start a sequence within it that sets
/// no 24-bit colour.
spec fn tame(s: Seq<char>) -> bool {
    forall|i: int|
        0 <= i < s.len() && #[trigger] s[i] == esc() ==> i + 2 < s.len() && s[i + 1] == '[' && s[i
            + 2] != '3' && s[i + 2] != '4'
}

proof fn lemma_tame_concat(a: Seq<char>, b: Seq<char>)
    requires
        tame(a),
        tame(b),
    ensures
        tame(a + b),
{
    let r = a + b;
    assert forall|i: int| 0 <= i < r.len() && #[trigger] r[i] == esc() implies i + 2 < r.len() && r[i
        + 1] == '[' && r[i + 2] != '3' && r[i + 2] != '4' by {
        if i < a.len() {
            assert(a[i] == esc());
        } else {
            let k = i - a.len();
            assert(b[k] == esc());
            assert(r[i + 1] == b[k + 1] && r[i + 2] == b[k + 2]);
        }
    }
}

/// A part of a text that is tame, with a tame text behind it that does not go on
/// with a sequence.
proof fn lemma_untinted_start(whole: Seq<char>, n: int, b: Seq<char>)
    requires
        tame(whole),
        0 <= n <= whole.len(),
        tame(b),
        b.len() > 0,
        b[0] == ' ' || b[0] == '\r',
    ensures
        untinted(whole.take(n) + b),
{
    let a = whole.take(n);
    let r = a + b;
    assert forall|i: int| !#[trigger] tinted_at(r, i) by {
        if tinted_at(r, i) {
            if i + 2 < n {
                assert(whole[i] == esc());
                assert(r[i + 2] == whole[i + 2]);
            } else if i < n {
                if i + 1 == n {
                    assert(r[i + 1] == b[0]);
                } else {
                    assert(r[i + 2] == b[0]);
                }
            } else {
                assert(b[i - n] == esc());
                assert(r[i + 2] == b[i - n + 2]);
            }
        }
    }
}

proof fn lemma_cut_prefix(line: Seq<char>, width: nat)
    ensures
        cut(line, width).len() <= line.len(),
        cut(line, width) == line.take(cut(line, width).len() as int),
    decreases line.len(),
{
    if visible(line) <= width || line.len() == 0 {
        assert(line.take(line.len() as int) =~= line);
    } else {
        lemma_cut_prefix(line.drop_last(), width);
        let n = cut(line.drop_last(), width).len() as int;
        assert(line.drop_last().take(n) =~= line.take(n));
    }
}

proof fn lemma_tame_literals()
    ensures
        tame("\x1b[1m"@),
        tame("\x1b[22m"@),
        tame("\x1b[0m"@),
        tame("\x1b[0m  "@),
        tame("\x1b[7m"@),
        tame("\x1b[27m"@),
        tame(" "@),
        tame("  "@),
        tame("%"@),
        tame("\r\n"@),
{
    reveal_strlit("\x1b[1m");
    reveal_strlit("\x1b[22m");
    reveal_strlit("\x1b[0m");
    reveal_strlit("\x1b[0m  ");
    reveal_strlit("\x1b[7m");
    reveal_strlit("\x1b[27m");
    reveal_strlit(" ");
    reveal_strlit("  ");
    reveal_strlit("%");
    reveal_strlit("\r\n");
}

proof fn lemma_tame_spaces(n: nat)
    ensures
        tame(spaces(n)),
{
    lemma_plain_repeated(' ', n);
}

proof fn lemma_tame_bold(s: Seq<char>)
    requires
        tame(s),
    ensures
        tame(bold(s)),
{
    lemma_tame_literals();
    lemma_tame_concat("\x1b[1m"@, s);
    lemma_tame_concat("\x1b[1m"@ + s, "\x1b[22m"@);
}

proof fn lemma_tame_gauge(s: State, name: Seq<char>, pct: Dyadic, w: nat)
    requires
        s.no_color,
        tame(name),
    ensures
        tame(gauge(s, name, pct, w)),
{
    let n = filled_places(pct, w);
    lemma_tame_literals();
    lemma_tame_bold(name);
    lemma_plain_repeated('|', n);
    lemma_tame_spaces((w - n) as nat);
    lemma_tame_concat(repeated('|', n), spaces((w - n) as nat));
    lemma_plain_percent(pct);
    let a = bold(name) + " "@;
    let b = a + bar(s, pct, w);
    let c = b + " "@;
    let d = c + percent_text(pct);
    lemma_tame_concat(bold(name), " "@);
    lemma_tame_concat(a, bar(s, pct, w));
    lemma_tame_concat(b, " "@);
    lemma_tame_concat(c, percent_text(pct));
    lemma_tame_concat(d, "%"@);
}

proof fn lemma_tame_appended(s: State, line: Seq<char>, name: Seq<char>, val: Seq<char>)
    requires
        tame(line),
        tame(name),
        tame(val),
    ensures
        tame(appended(s, line, name, val)),
{
    lemma_tame_literals();
    lemma_tame_bold(name);
    let a = " "@ + line;
    let b = a + " "@;
    let c = b + bold(name);
    let d = c + " "@;
    lemma_tame_concat(" "@, line);
    lemma_tame_concat(a, " "@);
    lemma_tame_concat(b, bold(name));
    lemma_tame_concat(c, " "@);
    lemma_tame_concat(d, val);
}

proof fn lemma_tame_figures(s: State)
    requires
        s.no_color,
        plain(s.system_info.load@),
        plain(s.system_info.uptime@),
        plain(s.system_info.tasks@),
    ensures
        tame(figures(s)),
{
    reveal_strlit("CPU");
    reveal_strlit("Mem");
    reveal_strlit("Swp");
    reveal_strlit("Load 1/5/15min");
    reveal_strlit("Uptime");
    reveal_strlit("Tasks:");
    let si = s.system_info;
    let a = gauge(s, "CPU"@, si.cpu_percent@, 8);
    let b = gauge(s, "Mem"@, si.mem_percent@, 8);
    let c = gauge(s, "Swp"@, si.swap_percent@, 4);
    lemma_tame_literals();
    lemma_tame_gauge(s, "CPU"@, si.cpu_percent@, 8);
    lemma_tame_gauge(s, "Mem"@, si.mem_percent@, 8);
    lemma_tame_gauge(s, "Swp"@, si.swap_percent@, 4);
    lemma_tame_concat(a, " "@);
    lemma_tame_concat(a + " "@, b);
    lemma_tame_concat(a + " "@ + b, " "@);
    lemma_tame_concat(a + " "@ + b + " "@, c);
    let gauges = a + " "@ + b + " "@ + c;
    lemma_tame_appended(s, gauges, "Load 1/5/15min"@, si.load@);
    let l1 = appended(s, gauges, "Load 1/5/15min"@, si.load@);
    lemma_tame_appended(s, l1, "Uptime"@, si.uptime@);
    let l2 = appended(s, l1, "Uptime"@, si.uptime@);
    lemma_tame_appended(s, l2, "Tasks:"@, si.tasks@);
}

proof fn lemma_tame_titles(s: State, n: nat)
    requires
        s.no_color,
    ensures
        tame(titles(s, n)),
    decreases n,
{
    if n > 0 {
        let col = n - 1;
        let t = title(col);
        let pad = spaces(missing(t.len(), s.widths[col]));
        lemma_tame_titles(s, (n - 1) as nat);
        lemma_plain_title(col);
        lemma_tame_bold(t);
        lemma_tame_spaces(missing(t.len(), s.widths[col]));
        lemma_tame_spaces(gap(col));
        lemma_tame_concat(pad, bold(t));
        lemma_tame_concat(bold(t), pad);
        lemma_tame_concat(pad + bold(t), spaces(gap(col)));
        lemma_tame_concat(bold(t) + pad, spaces(gap(col)));
        lemma_tame_concat(titles(s, (n - 1) as nat), title_cell(s, col));
    }
}

proof fn lemma_tame_header(s: State)
    requires
        s.no_color,
    ensures
        tame(header_line(s)),
{
    lemma_tame_literals();
    lemma_tame_titles(s, 8);
    let n = missing(visible(titles(s, 8)), table_width(s));
    lemma_tame_spaces(n);
    lemma_tame_concat(titles(s, 8), spaces(n));
    let line = filled(s, titles(s, 8));
    lemma_tame_concat(line, backdrop(s, 40, 40, 40));
    lemma_tame_concat(line + backdrop(s, 40, 40, 40), "\x1b[0m  "@);
}

proof fn lemma_tame_row(s: State, i: int)
    requires
        s.no_color,
        plain_row(s.filtered_raw[i]),
    ensures
        tame(row_text(s, i)),
{
    let p = s.filtered_raw[i];
    let line = joined_cells(s, cells(s, p), 8);
    let mark = marker(i == s.kill_selected, s.marked_pids.contains(p.id()));
    lemma_tame_literals();
    lemma_joined(s, p, 8);
    lemma_marker(i == s.kill_selected, s.marked_pids.contains(p.id()));
    lemma_tame_concat(mark, line);
    lemma_tame_concat("\x1b[7m"@, mark);
    lemma_tame_concat("\x1b[7m"@ + mark, line);
    lemma_tame_concat("\x1b[7m"@ + mark + line, "\x1b[27m"@);
}

/// Whether the texts of all rows are free of escape characters.
pub open spec fn plain_rows(rows: Seq<ProcInfo>) -> bool {
    forall|i: int| 0 <= i < rows.len() ==> plain_row(#[trigger] rows[i])
}

proof fn lemma_tame_table_line(s: State, idx: nat)
    requires
        s.no_color,
        plain_rows(s.filtered_raw),
    ensures
        tame(table_line(s, idx)),
{
    let i = (s.scroll_pos + idx) as int;
    lemma_tame_literals();
    if i < s.filtered_raw.len() {
        assert(plain_row(s.filtered_raw[i]));
        lemma_tame_row(s, i);
        let n = missing(visible(row_text(s, i)), table_width(s));
        lemma_tame_spaces(n);
        lemma_tame_concat(row_text(s, i), spaces(n));
    } else {
        lemma_tame_spaces(table_width(s));
    }
    let none: Seq<char> = seq![];
    assert(backdrop(s, 120, 120, 120) == none && backdrop(s, 40, 40, 40) == none);
    lemma_tame_concat(none, "  "@);
    lemma_tame_concat(none + "  "@, "\x1b[0m"@);
    lemma_tame_concat(table_body(s, idx), scroll_bar(s, idx));
    lemma_tame_concat(table_body(s, idx) + scroll_bar(s, idx), "\r\n"@);
}

proof fn lemma_tame_table(s: State, n: nat)
    requires
        s.no_color,
        plain_rows(s.filtered_raw),
    ensures
        tame(table_lines(s, n)),
    decreases n,
{
    if n > 0 {
        lemma_tame_table(s, (n - 1) as nat);
        lemma_tame_table_line(s, (n - 1) as nat);
        lemma_tame_concat(table_lines(s, (n - 1) as nat), table_line(s, (n - 1) as nat));
    }
}

proof fn lemma_plain_interval(h: u32)
    ensures
        plain(interval_text(h)),
{
    reveal_strlit("s");
    reveal_strlit(".");
    let a = decimal((h / 100) as nat);
    let b = decimal((h / 10 % 10) as nat);
    let c = decimal((h % 10) as nat);
    lemma_plain_decimal((h / 100) as nat);
    lemma_plain_decimal((h / 10 % 10) as nat);
    lemma_plain_decimal((h % 10) as nat);
    lemma_plain_concat(a, "s"@);
    lemma_plain_concat(a, "."@);
    lemma_plain_concat(a + "."@, b);
    lemma_plain_concat(a + "."@ + b, "s"@);
    lemma_plain_concat(a + "."@ + b, c);
    lemma_plain_concat(a + "."@ + b + c, "s"@);
}

proof fn lemma_plain_tags(s: State)
    ensures
        plain(mode_tags(s)),
        plain(cpu_tag(s)),
{
    reveal_strlit("[KERNEL] ");
    reveal_strlit("[TREE+THREADS]");
    reveal_strlit("[TREE]");
    reveal_strlit("[THREADS]");
    reveal_strlit(" [NANO CPU]");
    let a = if s.show_kernel {
        "[KERNEL] "@
    } else {
        seq![]
    };
    let b = if s.tree_mode && s.thread_mode {
        "[TREE+THREADS]"@
    } else if s.tree_mode {
        "[TREE]"@
    } else if s.thread_mode {
        "[THREADS]"@
    } else {
        seq![]
    };
    lemma_plain_concat(a, b);
}

proof fn lemma_plain_filter_text(s: State)
    requires
        plain(s.filter_string),
        browsing(s),
        s.filter_string.len() > 0,
    ensures
        plain(mode_text(s)),
{
    reveal_strlit("Filter: '");
    reveal_strlit("' | ");
    reveal_strlit(" ");
    reveal_strlit("↓");
    reveal_strlit("↑");
    reveal_strlit(" | Interval: ");
    reveal_strlit(" | / search");
    lemma_plain_tags(s);
    lemma_plain_interval(s.interval);
    lemma_plain_title(s.sort_col as int);
    let arrow = if s.sort_reverse {
        "↓"@
    } else {
        "↑"@
    };
    let a = "Filter: '"@ + s.filter_string;
    let b = a + "' | "@;
    let c = b + title(s.sort_col as int);
    let d = c + " "@;
    let e = d + arrow;
    let f = e + cpu_tag(s);
    let g = f + " | Interval: "@;
    let h = g + interval_text(s.interval);
    lemma_plain_concat("Filter: '"@, s.filter_string);
    lemma_plain_concat(a, "' | "@);
    lemma_plain_concat(b, title(s.sort_col as int));
    lemma_plain_concat(c, " "@);
    lemma_plain_concat(d, arrow);
    lemma_plain_concat(e, cpu_tag(s));
    lemma_plain_concat(f, " | Interval: "@);
    lemma_plain_concat(g, interval_text(s.interval));
    lemma_plain_concat(h, " | / search"@);
}

proof fn lemma_plain_mode_text(s: State)
    requires
        plain(s.filter_string),
    ensures
        plain(mode_text(s)),
{
    let n = decimal(s.marked_pids.len());
    lemma_plain_decimal(s.marked_pids.len());
    if s.kill_confirming {
        reveal_strlit("Kill ");
        reveal_strlit(" marked process(es)/thread(s)? y/n");
        lemma_plain_concat("Kill "@, n);
        lemma_plain_concat("Kill "@ + n, " marked process(es)/thread(s)? y/n"@);
    } else if s.kill_mode {
        reveal_strlit(
            "KILL MODE: ↑↓ select | Space mark/advance | Enter confirm | Esc cancel | Marked: ",
        );
        lemma_plain_concat(
            "KILL MODE: ↑↓ select | Space mark/advance | Enter confirm | Esc cancel | Marked: "@,
            n,
        );
    } else if s.searching {
        reveal_strlit("Search: ");
        reveal_strlit("_ (Enter accept, Esc clear)");
        lemma_plain_concat("Search: "@, s.filter_string);
        lemma_plain_concat("Search: "@ + s.filter_string, "_ (Enter accept, Esc clear)"@);
    } else if s.filter_string.len() > 0 {
        lemma_plain_filter_text(s);
    } else {
        reveal_strlit(
            " | +/- change | T tree | H threads | k kernel | m mem-override | q quit | F9 kill | ←→ cmd | ↑↓ scroll",
        );
        lemma_plain_tags(s);
        lemma_plain_interval(s.interval);
        let a = mode_tags(s) + cpu_tag(s);
        let b = a + interval_text(s.interval);
        lemma_plain_concat(mode_tags(s), cpu_tag(s));
        lemma_plain_concat(a, interval_text(s.interval));
        lemma_plain_concat(
            b,
            " | +/- change | T tree | H threads | k kernel | m mem-override | q quit | F9 kill | ←→ cmd | ↑↓ scroll"@,
        );
    }
}

proof fn lemma_plain_left(s: State)
    requires
        plain(s.filter_string),
    ensures
        plain(left_text(s)),
{
    reveal_strlit("  Cmd offset: ");
    reveal_strlit(" [MEM OVERRIDE]");
    lemma_plain_mode_text(s);
    lemma_plain_decimal(s.cmd_offset);
    lemma_plain_concat("  Cmd offset: "@, decimal(s.cmd_offset));
    let a = if s.cmd_offset > 0 {
        "  Cmd offset: "@ + decimal(s.cmd_offset)
    } else {
        seq![]
    };
    let b = if s.mem_override {
        " [MEM OVERRIDE]"@
    } else {
        seq![]
    };
    lemma_plain_concat(mode_text(s), a);
    lemma_plain_concat(mode_text(s) + a, b);
}

proof fn lemma_plain_status(s: State)
    requires
        plain(s.filter_string),
    ensures
        plain(status_text(s)),
{
    reveal_strlit("PSS: ");
    reveal_strlit("  Swap: ");
    reveal_strlit(" ");
    let t = totals(s.filtered_raw);
    let left = left_text(s);
    let right = totals_text(s.filtered_raw);
    lemma_plain_left(s);
    lemma_plain_memory(t.0, false);
    lemma_plain_memory(t.1, false);
    lemma_plain_concat("PSS: "@, memory_text(t.0, false));
    lemma_plain_concat("PSS: "@ + memory_text(t.0, false), "  Swap: "@);
    lemma_plain_concat(
        "PSS: "@ + memory_text(t.0, false) + "  Swap: "@,
        memory_text(t.1, false),
    );
    let a = encode_utf8(left).len();
    let b = encode_utf8(right).len();
    if a + b + 1 <= s.term_width {
        let n = (s.term_width - a - b - 1) as nat;
        lemma_plain_repeated(' ', n);
        lemma_plain_concat(left, spaces(n));
        lemma_plain_concat(left + spaces(n), right);
    } else {
        let room = missing(b + 1, s.term_width);
        let start = if room < left.len() {
            left.take(room as int)
        } else {
            left
        };
        assert forall|i: int| 0 <= i < start.len() implies #[trigger] start[i] != esc() by {
            assert(left[i] != esc());
        }
        lemma_plain_concat(start, " "@);
        lemma_plain_concat(start + " "@, right);
    }
}

proof fn lemma_behind(
    a: Seq<char>,
    b: Seq<char>,
    c: Seq<char>,
    d: Seq<char>,
    e: Seq<char>,
    f: Seq<char>,
    g: Seq<char>,
)
    ensures
        a + b + c + d + e + f + g == a + (b + c + d + e + f + g),
{
    assert(a + b + c =~= a + (b + c));
    assert(a + (b + c) + d =~= a + (b + c + d));
    assert(a + (b + c + d) + e =~= a + (b + c + d + e));
    assert(a + (b + c + d + e) + f =~= a + (b + c + d + e + f));
    assert(a + (b + c + d + e + f) + g =~= a + (b + c + d + e + f + g));
}

/// What stands on the screen behind the figures of the machine and `n` spaces.
spec fn below_figures(s: State, n: nat) -> Seq<char> {
    spaces(n) + "\r\n"@ + header_line(s) + "\r\n"@ + table_lines(s, s.page()) + status_line(s)
}

proof fn lemma_tame_rest(s: State, n: nat)
    requires
        s.no_color,
        plain(s.filter_string),
        plain_rows(s.filtered_raw),
    ensures
        tame(below_figures(s, n)),
        below_figures(s, n).len() > 0,
        below_figures(s, n)[0] == ' ' || below_figures(s, n)[0] == '\r',
{
    let status = status_text(s);
    let fill = spaces(missing(status.len(), s.term_width));
    reveal_strlit("\r\n");
    lemma_tame_literals();
    lemma_tame_spaces(n);
    lemma_tame_header(s);
    lemma_tame_table(s, s.page());
    lemma_plain_status(s);
    lemma_tame_spaces(missing(status.len(), s.term_width));
    lemma_tame_concat(status, fill);
    let a = spaces(n) + "\r\n"@;
    let b = a + header_line(s);
    let c = b + "\r\n"@;
    let d = c + table_lines(s, s.page());
    lemma_tame_concat(spaces(n), "\r\n"@);
    lemma_tame_concat(a, header_line(s));
    lemma_tame_concat(b, "\r\n"@);
    lemma_tame_concat(c, table_lines(s, s.page()));
    lemma_tame_concat(d, status_line(s));
    assert(b[0] == a[0] && c[0] == b[0] && d[0] == c[0]);
    assert(below_figures(s, n)[0] == d[0]);
}

/// Without colours, nothing on the screen sets a 24-bit colour, as long as the
/// texts of processes and of the machine hold no escape sequences themselves.
pub proof fn lemma_no_color(s: State)
    requires
        s.no_color,
        plain(s.filter_string),
        plain_rows(s.filtered_raw),
        plain(s.system_info.load@),
        plain(s.system_info.uptime@),
        plain(s.system_info.tasks@),
    ensures
        untinted(frame(s)),
{
    let f = figures(s);
    let line = cut(f, s.term_width);
    let n = missing(visible(line), s.term_width);
    let rest = below_figures(s, n);
    lemma_tame_figures(s);
    lemma_cut_prefix(f, s.term_width);
    lemma_tame_rest(s, n);
    lemma_untinted_start(f, line.len() as int, rest);
    lemma_behind(
        line,
        spaces(n),
        "\r\n"@,
        header_line(s),
        "\r\n"@,
        table_lines(s, s.page()),
        status_line(s),
    );
}

} // verus!
