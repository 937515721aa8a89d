//! The table of processes: its cells, the widths of its columns, its header.

use crate::ansi::{
    ansi_bg_rgb, bg, bold, bold_color_rgb, bold_colored, bold_text, color_text_rgb, colored,
    visible, visible_len,
};
use crate::app::{lengths, App, State};
use crate::color::{
    color_cpu, color_pss, color_rss, color_swap, cpu_color, pss_color, rss_color, swap_color, Rgb,
    BLUE_BRIGHT, CYAN_BRIGHT, GRAY_KERNEL, GRAY_THREAD, INDIGO_DESAT, RED_DESAT, WHITE_DIMMER,
    WHITE_PURE, YELLOW_BRIGHT,
};
use crate::format::{format_memory, format_percent, memory_text, pad_cell, padded, percent_text};
use crate::process::{rows_wf, ProcInfo};
use crate::procfs::{shorten, shortened};
use crate::text::{
    chars_of, left_aligned, lemma_regroup, missing, part, push_all, push_repeated, same,
    signed_chars, signed_decimal, spaces, string_of, strings,
};
use vstd::prelude::*;
use vstd::string::StringExecFns;

verus! {

/// The title of a column.
pub open spec fn title(col: int) -> Seq<char> {
    if col == 0 {
        "1 PID"@
    } else if col == 1 {
        "2 User"@
    } else if col == 2 {
        "3 Command/Program"@
    } else if col == 3 {
        "4 PSS"@
    } else if col == 4 {
        "5 USS"@
    } else if col == 5 {
        "6 RSS"@
    } else if col == 6 {
        "7 Swap"@
    } else {
        "8 CPU%"@
    }
}

/// Whether a column is aligned to the right: all but the user and the command.
pub open spec fn right_column(col: int) -> bool {
    col != 1 && col != 2
}

/// How many spaces follow a column.
pub open spec fn gap(col: int) -> nat {
    if col == 1 {
        1
    } else if col < 7 {
        2
    } else {
        0
    }
}

/// The lines that run past a row in the first `n` steps of the tree.
pub open spec fn guides(mask: u32, n: nat) -> Seq<char>
    decreases n,
{
    if n == 0 {
        seq![]
    } else {
        guides(mask, (n - 1) as nat) + if mask & (1u32 << (((n - 1) % 32) as u32)) != 0 {
            "│  "@
        } else {
            "   "@
        }
    }
}

/// What stands before the command of a row in the tree.
pub open spec fn indent(tree_mode: bool, p: ProcInfo) -> Seq<char> {
    if tree_mode && p.tree_depth > 0 {
        guides(p.tree_mask, p.tree_depth as nat) + if p.is_last_child {
            "└─ "@
        } else {
            "├─ "@
        }
    } else {
        seq![]
    }
}

/// The 40 characters of a command that are shown: those from `offset` on, or the
/// last ones if fewer than 40 are left there.
pub open spec fn window(command: Seq<char>, offset: nat) -> Seq<char> {
    let max = if command.len() > 40 {
        (command.len() - 40) as nat
    } else {
        0
    };
    left_aligned(
        shortened(
            command.skip(
                if offset < max {
                    offset as int
                } else {
                    max as int
                },
            ),
            40,
        ),
        40,
    )
}

/// A text of a row in its colour; the rows of the kernel are gray.
pub open spec fn painted(s: State, p: ProcInfo, color: Rgb, text: Seq<char>) -> Seq<char> {
    let c = if p.is_kernel {
        GRAY_KERNEL
    } else {
        color
    };
    if s.no_color {
        text
    } else {
        colored(c.0, c.1, c.2, text)
    }
}

/// The colour of a user: blue who is at the terminal, red root, indigo others.
pub open spec fn user_color(s: State, user: Seq<char>) -> Rgb {
    if user == s.current_user {
        BLUE_BRIGHT
    } else if user == "root"@ {
        RED_DESAT
    } else {
        INDIGO_DESAT
    }
}

/// The cell for an amount of memory; that of a thread is gray.
pub open spec fn memory_cell(s: State, p: ProcInfo, kib: u64, color: Rgb) -> Seq<char> {
    painted(
        s,
        p,
        if p.is_thread {
            GRAY_THREAD
        } else {
            color
        },
        memory_text(kib, p.is_thread),
    )
}

/// The cells of a row.
pub open spec fn cells(s: State, p: ProcInfo) -> Seq<Seq<char>> {
    seq![
        painted(
            s,
            p,
            if p.is_thread {
                GRAY_THREAD
            } else {
                YELLOW_BRIGHT
            },
            signed_decimal(p.id() as int),
        ),
        painted(s, p, user_color(s, p.user@), p.user@),
        painted(
            s,
            p,
            WHITE_DIMMER,
            indent(s.tree_mode, p) + window(p.full_cmd@, s.cmd_offset),
        ),
        memory_cell(s, p, p.pss_kb, pss_color(p.pss_kb.wrapping_mul(1024), s.limit_red_bytes)),
        memory_cell(s, p, p.uss_kb, pss_color(p.uss_kb.wrapping_mul(1024), s.limit_red_bytes)),
        memory_cell(s, p, p.rss_kb, rss_color(p.rss_kb.wrapping_mul(1024), s.mem_total_bytes)),
        memory_cell(s, p, p.swap_kb, swap_color(p.swap_kb.wrapping_mul(1024), s.swap_total_bytes)),
        painted(s, p, cpu_color(p.cpu_percent@), percent_text(p.cpu_percent@)),
    ]
}

/// The width that a row asks of a column.
pub open spec fn cell_width(s: State, p: ProcInfo, col: int) -> nat {
    if col == 0 {
        signed_decimal(p.id() as int).len()
    } else if col == 1 {
        p.user@.len()
    } else if col == 2 {
        (if s.tree_mode && p.tree_depth > 0 {
            p.tree_depth as nat * 3 + 42
        } else {
            40
        })
    } else if col == 3 {
        memory_text(p.pss_kb, p.is_thread).len()
    } else if col == 4 {
        memory_text(p.uss_kb, p.is_thread).len()
    } else if col == 5 {
        memory_text(p.rss_kb, p.is_thread).len()
    } else if col == 6 {
        memory_text(p.swap_kb, p.is_thread).len()
    } else {
        percent_text(p.cpu_percent@).len()
    }
}

/// The width of a column: that of its title or of its widest cell.
pub open spec fn widest(s: State, rows: Seq<ProcInfo>, col: int) -> nat
    decreases rows.len(),
{
    if rows.len() == 0 {
        title(col).len()
    } else {
        let a = widest(s, rows.drop_last(), col);
        let b = cell_width(s, rows.last(), col);
        if a < b {
            b
        } else {
            a
        }
    }
}

/// With the widths of the columns brought up to date.
pub open spec fn with_widths(s: State) -> State {
    State { widths: Seq::new(8, |col: int| widest(s, s.filtered_raw, col)), ..s }
}

/// The title of a column in bold; that of the column that is sorted by stands
/// out.
pub open spec fn title_text(s: State, col: int) -> Seq<char> {
    if s.no_color {
        bold(title(col))
    } else if col == s.sort_col {
        bold_colored(CYAN_BRIGHT.0, CYAN_BRIGHT.1, CYAN_BRIGHT.2, title(col))
    } else {
        bold_colored(WHITE_PURE.0, WHITE_PURE.1, WHITE_PURE.2, title(col))
    }
}

/// The title of a column as it stands in the header.
pub open spec fn title_cell(s: State, col: int) -> Seq<char> {
    let pad = spaces(missing(title(col).len(), s.widths[col]));
    (if right_column(col) {
        pad + title_text(s, col)
    } else {
        title_text(s, col) + pad
    }) + spaces(gap(col))
}

/// The titles of the first `n` columns.
pub open spec fn titles(s: State, n: nat) -> Seq<char>
    decreases n,
{
    if n == 0 {
        seq![]
    } else {
        titles(s, (n - 1) as nat) + title_cell(s, n - 1)
    }
}

/// The width of the table without its scroll bar.
pub open spec fn table_width(s: State) -> nat {
    if s.term_width > 2 {
        (s.term_width - 2) as nat
    } else {
        0
    }
}

/// A line, filled up to the width of the table.
pub open spec fn filled(s: State, line: Seq<char>) -> Seq<char> {
    line + spaces(missing(visible(line), table_width(s)))
}

/// A background colour, if there are colours.
pub open spec fn backdrop(s: State, r: u8, g: u8, b: u8) -> Seq<char> {
    if s.no_color {
        seq![]
    } else {
        bg(r, g, b)
    }
}

/// The header of the table.
pub open spec fn header_line(s: State) -> Seq<char> {
    filled(s, titles(s, 8)) + backdrop(s, 40, 40, 40) + "\x1b[0m  "@
}

/// The first `n` cells of a row, each filled up to the width of its column.
pub open spec fn joined_cells(s: State, cs: Seq<Seq<char>>, n: nat) -> Seq<char>
    decreases n,
{
    if n == 0 {
        seq![]
    } else {
        joined_cells(s, cs, (n - 1) as nat) + padded(cs[n - 1], s.widths[n - 1], right_column(n - 1))
            + spaces(gap(n - 1))
    }
}

/// The title of a column.
pub fn column_title(col: usize) -> (r: &'static str)
    ensures
        r@ == title(col as int),
{
    match col {
        0 => "1 PID",
        1 => "2 User",
        2 => "3 Command/Program",
        3 => "4 PSS",
        4 => "5 USS",
        5 => "6 RSS",
        6 => "7 Swap",
        _ => "8 CPU%",
    }
}

/// How many spaces follow a column.
fn gap_after(col: usize) -> (n: usize)
    ensures
        n == gap(col as int),
{
    if col == 1 {
        1
    } else if col < 7 {
        2
    } else {
        0
    }
}

/// What stands before the command of a row in the tree.
fn indent_of(tree_mode: bool, p: &ProcInfo) -> (s: String)
    ensures
        s@ == indent(tree_mode, *p),
{
    let mut s = String::new();
    if tree_mode && p.tree_depth > 0 {
        let mut i: u8 = 0;
        while i < p.tree_depth
            invariant
                i <= p.tree_depth,
                s@ == guides(p.tree_mask, i as nat),
            decreases p.tree_depth - i,
        {
            if p.tree_mask & (1u32 << ((i % 32) as u32)) != 0 {
                s.append("│  ");
            } else {
                s.append("   ");
            }
            i = i + 1;
        }
        if p.is_last_child {
            s.append("└─ ");
        } else {
            s.append("├─ ");
        }
    }
    proof {
        assert(s@ =~= indent(tree_mode, *p));
    }
    s
}

/// Appends the 40 characters of a command that are shown.
fn push_window(out: &mut String, command: &str, offset: usize)
    ensures
        final(out)@ == old(out)@ + window(command@, offset as nat),
{
    let ghost start = out@;
    let chars = chars_of(command);
    let max: usize = if chars.len() > 40 { chars.len() - 40 } else { 0 };
    let from: usize = if offset < max { offset } else { max };
    let rest = part(&chars, from, chars.len());
    proof {
        assert(rest@ =~= command@.skip(from as int));
    }
    let shown = shorten(&rest, 40);
    push_all(out, &shown);
    push_repeated(out, ' ', 40 - shown.len());
    proof {
        assert(out@ =~= start + window(command@, offset as nat));
    }
}

/// How many characters a text has.
fn count(s: &String) -> (n: usize)
    ensures
        n == s@.len(),
{
    chars_of(s.as_str()).len()
}

impl App {
    /// A text of a row in its colour.
    fn paint(&self, p: &ProcInfo, color: Rgb, text: &str) -> (r: String)
        ensures
            r@ == painted(self@, *p, color, text@),
    {
        let c = if p.is_kernel { GRAY_KERNEL } else { color };
        if self.no_color {
            text.to_owned()
        } else {
            color_text_rgb(c.0, c.1, c.2, text)
        }
    }

    /// The cell for an amount of memory.
    fn paint_memory(&self, p: &ProcInfo, kib: u64, color: Rgb) -> (r: String)
        ensures
            r@ == memory_cell(self@, *p, kib, color),
    {
        let text = format_memory(kib, p.is_thread);
        self.paint(
            p,
            if p.is_thread {
                GRAY_THREAD
            } else {
                color
            },
            text.as_str(),
        )
    }

    /// The cells of a row.
    pub fn format_row(&self, p: &ProcInfo) -> (r: Vec<String>)
        requires
            p.wf(),
        ensures
            strings(r@) == cells(self@, *p),
    {
        let mut r: Vec<String> = Vec::new();
        let id = string_of(&signed_chars(p.signal_id()));
        let id_color = if p.is_thread { GRAY_THREAD } else { YELLOW_BRIGHT };
        r.push(self.paint(p, id_color, id.as_str()));
        let user = chars_of(p.user.as_str());
        let user_color = if same(&user, &chars_of(self.current_user.as_str())) {
            BLUE_BRIGHT
        } else if same(&user, &chars_of("root")) {
            RED_DESAT
        } else {
            INDIGO_DESAT
        };
        r.push(self.paint(p, user_color, p.user.as_str()));
        let mut command = indent_of(self.tree_mode, p);
        push_window(&mut command, p.full_cmd.as_str(), self.cmd_offset);
        r.push(self.paint(p, WHITE_DIMMER, command.as_str()));
        let pss = color_pss(p.pss_kb.wrapping_mul(1024), self.limit_red_bytes);
        r.push(self.paint_memory(p, p.pss_kb, pss));
        let uss = color_pss(p.uss_kb.wrapping_mul(1024), self.limit_red_bytes);
        r.push(self.paint_memory(p, p.uss_kb, uss));
        let rss = color_rss(p.rss_kb.wrapping_mul(1024), self.mem_total_bytes);
        r.push(self.paint_memory(p, p.rss_kb, rss));
        let swap = color_swap(p.swap_kb.wrapping_mul(1024), self.swap_total_bytes);
        r.push(self.paint_memory(p, p.swap_kb, swap));
        let cpu = format_percent(p.cpu_percent);
        r.push(self.paint(p, color_cpu(p.cpu_percent), cpu.as_str()));
        proof {
            assert(strings(r@) =~= cells(self@, *p));
        }
        r
    }

    /// The width that a row asks of a column.
    fn width_of(&self, p: &ProcInfo, col: usize) -> (n: usize)
        requires
            p.wf(),
            col < 8,
        ensures
            n == cell_width(self@, *p, col as int),
    {
        match col {
            0 => signed_chars(p.signal_id()).len(),
            1 => count(&p.user),
            2 => if self.tree_mode && p.tree_depth > 0 {
                p.tree_depth as usize * 3 + 42
            } else {
                40
            },
            3 => count(&format_memory(p.pss_kb, p.is_thread)),
            4 => count(&format_memory(p.uss_kb, p.is_thread)),
            5 => count(&format_memory(p.rss_kb, p.is_thread)),
            6 => count(&format_memory(p.swap_kb, p.is_thread)),
            _ => count(&format_percent(p.cpu_percent)),
        }
    }

    /// The width of a column.
    fn widest_in(&self, col: usize) -> (n: usize)
        requires
            col < 8,
            rows_wf(self.filtered_raw@),
        ensures
            n == widest(self@, self.filtered_raw@, col as int),
    {
        let mut n: usize = chars_of(column_title(col)).len();
        let mut i: usize = 0;
        while i < self.filtered_raw.len()
            invariant
                i <= self.filtered_raw@.len(),
                col < 8,
                rows_wf(self.filtered_raw@),
                n == widest(self@, self.filtered_raw@.take(i as int), col as int),
            decreases self.filtered_raw.len() - i,
        {
            proof {
                assert(self.filtered_raw@[i as int].wf());
                assert(self.filtered_raw@.take(i + 1).drop_last() =~= self.filtered_raw@.take(
                    i as int,
                ));
            }
            let w = self.width_of(&self.filtered_raw[i], col);
            if n < w {
                n = w;
            }
            i = i + 1;
        }
        proof {
            assert(self.filtered_raw@.take(i as int) =~= self.filtered_raw@);
        }
        n
    }

    /// Brings the widths of the columns up to date.
    pub fn compute_widths(&mut self)
        requires
            rows_wf(old(self).filtered_raw@),
        ensures
            final(self)@ == with_widths(old(self)@),
    {
        let ghost start = self@;
        let mut widths: Vec<usize> = Vec::new();
        let mut col: usize = 0;
        while col < 8
            invariant
                col <= 8,
                widths@.len() == col,
                self@ == start,
                rows_wf(self.filtered_raw@),
                forall|c: int| 0 <= c < col ==> widths@[c] == widest(start, start.filtered_raw, c),
            decreases 8 - col,
        {
            widths.push(self.widest_in(col));
            col = col + 1;
        }
        self.widths = widths;
        proof {
            assert(lengths(self.widths@) =~= with_widths(start).widths);
            assert(self@ =~= with_widths(start));
        }
    }

    /// The title of a column in bold.
    fn title_text_of(&self, col: usize) -> (r: String)
        ensures
            r@ == title_text(self@, col as int),
    {
        let label = column_title(col);
        if self.no_color {
            bold_text(label)
        } else if col == self.sort_col {
            bold_color_rgb(CYAN_BRIGHT.0, CYAN_BRIGHT.1, CYAN_BRIGHT.2, label)
        } else {
            bold_color_rgb(WHITE_PURE.0, WHITE_PURE.1, WHITE_PURE.2, label)
        }
    }

    /// The title of a column as it stands in the header.
    fn push_title(&self, out: &mut String, col: usize)
        requires
            col < 8,
            self.widths@.len() == 8,
        ensures
            final(out)@ == old(out)@ + title_cell(self@, col as int),
    {
        let ghost start = out@;
        let len = chars_of(column_title(col)).len();
        let width = self.widths[col];
        let pad: usize = if len < width { width - len } else { 0 };
        let text = self.title_text_of(col);
        let ghost gaps = spaces(gap(col as int));
        proof {
            assert(self@.widths[col as int] == width);
        }
        if col != 1 && col != 2 {
            push_repeated(out, ' ', pad);
            out.append(text.as_str());
            proof {
                lemma_regroup(start, spaces(pad as nat), text@, gaps);
            }
        } else {
            out.append(text.as_str());
            push_repeated(out, ' ', pad);
            proof {
                lemma_regroup(start, text@, spaces(pad as nat), gaps);
            }
        }
        push_repeated(out, ' ', gap_after(col));
    }

    /// Fills a line up to the width of the table.
    pub(crate) fn fill(&self, line: &mut String)
        ensures
            final(line)@ == filled(self@, old(line)@),
    {
        let max: usize = if self.term_width > 2 { self.term_width - 2 } else { 0 };
        let v = visible_len(line.as_str());
        let pad: usize = if v < max { max - v } else { 0 };
        push_repeated(line, ' ', pad);
    }

    /// Appends a background colour, if there are colours.
    pub(crate) fn push_backdrop(&self, out: &mut String, r: u8, g: u8, b: u8)
        ensures
            final(out)@ == old(out)@ + backdrop(self@, r, g, b),
    {
        let ghost start = out@;
        if !self.no_color {
            out.append(ansi_bg_rgb(r, g, b).as_str());
        }
        proof {
            assert(out@ =~= start + backdrop(self@, r, g, b));
        }
    }

    /// The header of the table.
    pub fn build_header_line(&self) -> (line: String)
        requires
            self.widths@.len() == 8,
        ensures
            line@ == header_line(self@),
    {
        let mut line = String::new();
        let mut col: usize = 0;
        while col < 8
            invariant
                col <= 8,
                self.widths@.len() == 8,
                line@ == titles(self@, col as nat),
            decreases 8 - col,
        {
            self.push_title(&mut line, col);
            col = col + 1;
        }
        self.fill(&mut line);
        self.push_backdrop(&mut line, 40, 40, 40);
        line.append("\x1b[0m  ");
        line
    }

    /// The cells of a row, each filled up to the width of its column.
    pub(crate) fn join_cells(&self, p: &ProcInfo) -> (line: String)
        requires
            p.wf(),
            self.widths@.len() == 8,
        ensures
            line@ == joined_cells(self@, cells(self@, *p), 8),
    {
        let row = self.format_row(p);
        let ghost cs = cells(self@, *p);
        let mut line = String::new();
        let mut i: usize = 0;
        proof {
            assert(strings(row@).len() == 8);
        }
        while i < 8
            invariant
                i <= 8,
                row@.len() == 8,
                self.widths@.len() == 8,
                strings(row@) == cs,
                line@ == joined_cells(self@, cs, i as nat),
            decreases 8 - i,
        {
            proof {
                assert(cs[i as int] == row@[i as int]@);
                assert(self@.widths[i as int] == self.widths@[i as int]);
                reveal_strlit("left");
                reveal_strlit("right");
                assert("left"@.len() != "right"@.len());
            }
            let align = if i == 1 || i == 2 { "left" } else { "right" };
            let cell = pad_cell(row[i].as_str(), self.widths[i], align);
            line.append(cell.as_str());
            push_repeated(&mut line, ' ', gap_after(i));
            i = i + 1;
        }
        line
    }
}

} // verus!
