//! What the screen shows of the rows and figures.

use crate::ansi::{bg, colored, fg, visible};
use crate::app::State;
use crate::color::{cpu_color, pss_color, rss_color, swap_color, Rgb};
use crate::double::{
    abs, lemma_integer_rounded, lemma_integer_times, lemma_nearest_close,
    lemma_over_itself, lemma_round_close, over, round_half_even, rounded, times, whole, zero,
    Dyadic,
};
use crate::format::{memory_text, padded, percent_text, tenths, uptime_text};
use crate::interval::interval_text;
use crate::process::ProcInfo;
use crate::rounding::{
    at_most, lemma_nearest_signed_order, lemma_over_exact, lemma_over_order, lemma_rounded_order, lemma_times_order,
};
use crate::screen::{
    appended, bar, cut, figures, filled_places, frame, gauge, left_text, mode_text, row_text,
    scroll_bar, status_line, status_text, system_line, table_body, table_lines, thumb_height,
    thumb_top, totals,
};
use crate::shades::{lemma_share_ends, lemma_share_order, lemma_times_commutes, lemma_whole_sign};
use crate::table::{
    cell_width, cells, filled, guides, header_line, indent, joined_cells, title, title_cell, titles,
    widest, window, with_widths,
};
use crate::text::{decimal, right_aligned, signed_decimal, spaces};
use vstd::arithmetic::power2::pow2;
use vstd::prelude::*;
use vstd::utf8::encode_utf8;

verus! {

// Cells

/// The cells of a row are the number of the process or thread, the user, the
/// command line in its place in the tree, the four amounts of memory and the
/// share of the processors.
pub proof fn lemma_cells_show(s: State, p: ProcInfo)
    requires
        s.no_color,
    ensures
        cells(s, p).len() == 8,
        cells(s, p)[0] == signed_decimal(
            (if p.is_thread {
                p.tid
            } else {
                p.pid
            }) as int,
        ),
        cells(s, p)[1] == p.user@,
        !s.tree_mode || p.tree_depth == 0 ==> cells(s, p)[2] == window(p.full_cmd@, s.cmd_offset),
        s.tree_mode && p.tree_depth > 0 ==> cells(s, p)[2] == guides(
            p.tree_mask,
            p.tree_depth as nat,
        ) + (if p.is_last_child {
            "└─ "@
        } else {
            "├─ "@
        }) + window(p.full_cmd@, s.cmd_offset),
        cells(s, p)[3] == memory_text(p.pss_kb, p.is_thread),
        cells(s, p)[4] == memory_text(p.uss_kb, p.is_thread),
        cells(s, p)[5] == memory_text(p.rss_kb, p.is_thread),
        cells(s, p)[6] == memory_text(p.swap_kb, p.is_thread),
        cells(s, p)[7] == percent_text(p.cpu_percent@),
{
}

/// Where there are colours, each cell is what it is without them, in a colour:
/// dim for the threads of the kernel, gray for the numbers and the memory of
/// threads; the user at the terminal is blue, root red, and all others indigo;
/// and the others go by their size.
pub proof fn lemma_cells_coloured(s: State, p: ProcInfo, i: int)
    requires
        !s.no_color,
        0 <= i < 8,
        p.pss_kb < 0x40_0000_0000_0000,
        p.uss_kb < 0x40_0000_0000_0000,
        p.rss_kb < 0x40_0000_0000_0000,
        p.swap_kb < 0x40_0000_0000_0000,
    ensures
        ({
            let text = cells(State { no_color: true, ..s }, p)[i];
            let c: Rgb = if p.is_kernel {
                (70, 70, 70)
            } else if p.is_thread && i != 1 && i != 2 && i != 7 {
                (120, 120, 120)
            } else if i == 0 {
                (255, 220, 0)
            } else if i == 1 {
                if p.user@ == s.current_user {
                    (0, 128, 255)
                } else if p.user@ == "root"@ {
                    (255, 60, 60)
                } else {
                    (111, 81, 161)
                }
            } else if i == 2 {
                (200, 200, 200)
            } else if i == 3 {
                pss_color((1024 * p.pss_kb) as u64, s.limit_red_bytes)
            } else if i == 4 {
                pss_color((1024 * p.uss_kb) as u64, s.limit_red_bytes)
            } else if i == 5 {
                rss_color((1024 * p.rss_kb) as u64, s.mem_total_bytes)
            } else if i == 6 {
                swap_color((1024 * p.swap_kb) as u64, s.swap_total_bytes)
            } else {
                cpu_color(p.cpu_percent@)
            };
            cells(s, p)[i] == colored(c.0, c.1, c.2, text)
        }),
{
    let t = State { no_color: true, ..s };
    lemma_bytes(p.pss_kb);
    lemma_bytes(p.uss_kb);
    lemma_bytes(p.rss_kb);
    lemma_bytes(p.swap_kb);
    if i == 0 {
        lemma_first_cells(s, p);
        lemma_first_cells(t, p);
    } else if i == 1 {
        lemma_first_cells(s, p);
        lemma_first_cells(t, p);
    } else if i == 2 {
        lemma_first_cells(s, p);
        lemma_first_cells(t, p);
    } else {
        lemma_last_cells(s, p);
        lemma_last_cells(t, p);
    }
}

proof fn lemma_bytes(kib: u64)
    requires
        kib < 0x40_0000_0000_0000,
    ensures
        kib.wrapping_mul(1024) == 1024 * kib,
{
}

/// A text as it is without colours, or else in one.
spec fn dyed(s: State, p: ProcInfo, color: Rgb, text: Seq<char>) -> Seq<char> {
    if s.no_color {
        text
    } else if p.is_kernel {
        colored(70, 70, 70, text)
    } else {
        colored(color.0, color.1, color.2, text)
    }
}

proof fn lemma_first_cells(s: State, p: ProcInfo)
    ensures
        cells(s, p)[0] == dyed(
            s,
            p,
            if p.is_thread {
                (120, 120, 120)
            } else {
                (255, 220, 0)
            },
            signed_decimal(p.id() as int),
        ),
        cells(s, p)[1] == dyed(
            s,
            p,
            if p.user@ == s.current_user {
                (0, 128, 255)
            } else if p.user@ == "root"@ {
                (255, 60, 60)
            } else {
                (111, 81, 161)
            },
            p.user@,
        ),
        cells(s, p)[2] == dyed(
            s,
            p,
            (200, 200, 200),
            indent(s.tree_mode, p) + window(p.full_cmd@, s.cmd_offset),
        ),
{
}

proof fn lemma_last_cells(s: State, p: ProcInfo)
    ensures
        cells(s, p)[3] == dyed(
            s,
            p,
            if p.is_thread {
                (120, 120, 120)
            } else {
                pss_color(p.pss_kb.wrapping_mul(1024), s.limit_red_bytes)
            },
            memory_text(p.pss_kb, p.is_thread),
        ),
        cells(s, p)[4] == dyed(
            s,
            p,
            if p.is_thread {
                (120, 120, 120)
            } else {
                pss_color(p.uss_kb.wrapping_mul(1024), s.limit_red_bytes)
            },
            memory_text(p.uss_kb, p.is_thread),
        ),
        cells(s, p)[5] == dyed(
            s,
            p,
            if p.is_thread {
                (120, 120, 120)
            } else {
                rss_color(p.rss_kb.wrapping_mul(1024), s.mem_total_bytes)
            },
            memory_text(p.rss_kb, p.is_thread),
        ),
        cells(s, p)[6] == dyed(
            s,
            p,
            if p.is_thread {
                (120, 120, 120)
            } else {
                swap_color(p.swap_kb.wrapping_mul(1024), s.swap_total_bytes)
            },
            memory_text(p.swap_kb, p.is_thread),
        ),
        cells(s, p)[7] == dyed(s, p, cpu_color(p.cpu_percent@), percent_text(p.cpu_percent@)),
{
}

/// The cells of a row stand side by side, the user and the command at the left of
/// their columns and all others at the right.
pub proof fn lemma_row_layout(s: State, cs: Seq<Seq<char>>)
    ensures
        joined_cells(s, cs, 8) == padded(cs[0], s.widths[0], true) + spaces(2) + padded(
            cs[1],
            s.widths[1],
            false,
        ) + spaces(1) + padded(cs[2], s.widths[2], false) + spaces(2) + padded(
            cs[3],
            s.widths[3],
            true,
        ) + spaces(2) + padded(cs[4], s.widths[4], true) + spaces(2) + padded(
            cs[5],
            s.widths[5],
            true,
        ) + spaces(2) + padded(cs[6], s.widths[6], true) + spaces(2) + padded(
            cs[7],
            s.widths[7],
            true,
        ),
{
    reveal_with_fuel(joined_cells, 9);
    let all = joined_cells(s, cs, 7) + padded(cs[7], s.widths[7], true);
    assert(all + spaces(0) =~= all);
    assert(joined_cells(s, cs, 0) + padded(cs[0], s.widths[0], true) =~= padded(
        cs[0],
        s.widths[0],
        true,
    ));
}

/// A cell is filled up with spaces, before it at the right of a column and behind
/// it at the left.
pub proof fn lemma_padded_shows(cell: Seq<char>, width: nat)
    ensures
        visible(cell) >= width ==> padded(cell, width, true) == cell && padded(cell, width, false)
            == cell,
        visible(cell) < width ==> {
            &&& padded(cell, width, true) == spaces((width - visible(cell)) as nat) + cell
            &&& padded(cell, width, false) == cell + spaces((width - visible(cell)) as nat)
        },
{
    assert(spaces(0) + cell =~= cell);
    assert(cell + spaces(0) =~= cell);
}

/// A line of the table shows the row that is as far below the first as it is
/// scrolled, and is empty where there is none. In kill mode a row starts with its
/// mark, and the selected one is inverted.
pub proof fn lemma_line_shows(s: State, idx: nat)
    ensures
        ({
            let i = (s.scroll_pos + idx) as int;
            let p = s.filtered_raw[i];
            let line = joined_cells(s, cells(s, p), 8);
            let marked = s.marked_pids.contains(
                if p.is_thread {
                    p.tid
                } else {
                    p.pid
                },
            );
            &&& i >= s.filtered_raw.len() && s.term_width >= 2 ==> table_body(s, idx) == spaces(
                (s.term_width - 2) as nat,
            )
            &&& i < s.filtered_raw.len() ==> table_body(s, idx) == filled(s, row_text(s, i))
            &&& i < s.filtered_raw.len() && !s.kill_mode ==> row_text(s, i) == line
            &&& i < s.filtered_raw.len() && s.kill_mode && i != s.kill_selected ==> row_text(s, i)
                == (if marked {
                "[x] "@
            } else {
                "    "@
            }) + line
            &&& i < s.filtered_raw.len() && s.kill_mode && i == s.kill_selected ==> row_text(s, i)
                == "\x1b[7m"@ + (if marked {
                "[*] "@
            } else {
                "[ ] "@
            }) + line + "\x1b[27m"@
        }),
{
}

/// Each column is as wide as its title and as its widest cell, and no wider.
pub proof fn lemma_widths(s: State, col: int, i: int)
    requires
        0 <= col < 8,
        0 <= i < s.filtered_raw.len(),
    ensures
        with_widths(s).widths.len() == 8,
        with_widths(s).widths[col] >= title(col).len(),
        with_widths(s).widths[col] >= cell_width(s, s.filtered_raw[i], col),
        with_widths(s).widths[col] == title(col).len() || exists|j: int|
            0 <= j < s.filtered_raw.len() && with_widths(s).widths[col] == cell_width(
                s,
                #[trigger] s.filtered_raw[j],
                col,
            ),
        with_widths(s) == (State { widths: with_widths(s).widths, ..s }),
{
    lemma_widest(s, s.filtered_raw, col);
}

proof fn lemma_widest(s: State, rows: Seq<ProcInfo>, col: int)
    ensures
        widest(s, rows, col) >= title(col).len(),
        forall|i: int|
            0 <= i < rows.len() ==> widest(s, rows, col) >= cell_width(s, #[trigger] rows[i], col),
        widest(s, rows, col) == title(col).len() || exists|j: int|
            0 <= j < rows.len() && widest(s, rows, col) == cell_width(s, #[trigger] rows[j], col),
    decreases rows.len(),
{
    if rows.len() > 0 {
        let r = rows.drop_last();
        lemma_widest(s, r, col);
        let n = rows.len() - 1;
        assert(rows.last() == rows[n]);
        assert forall|i: int| 0 <= i < rows.len() implies widest(s, rows, col) >= cell_width(
            s,
            #[trigger] rows[i],
            col,
        ) by {
            if i < n {
                assert(r[i] == rows[i]);
            }
        }
        if widest(s, rows, col) == widest(s, r, col) && widest(s, r, col) != title(col).len() {
            let j = choose|j: int|
                0 <= j < r.len() && widest(s, r, col) == cell_width(s, #[trigger] r[j], col);
            assert(rows[j] == r[j]);
        }
    }
}

/// A command is shown through a window of forty characters, which starts where it
/// is scrolled to, but not behind the last forty; where it is shorter, spaces
/// follow.
pub proof fn lemma_window_shows(command: Seq<char>, offset: nat, i: int)
    requires
        0 <= i < 40,
    ensures
        ({
            let from = if command.len() <= 40 {
                0
            } else if offset <= command.len() - 40 {
                offset as int
            } else {
                command.len() - 40
            };
            &&& window(command, offset).len() == 40
            &&& from + i < command.len() ==> window(command, offset)[i] == command[from + i]
            &&& from + i >= command.len() ==> window(command, offset)[i] == ' '
        }),
{
}

/// In the tree, a vertical line stands at a level where the row's columns say so.
pub proof fn lemma_guides_show(mask: u32, n: nat, d: int)
    requires
        0 <= d < n,
    ensures
        guides(mask, n).len() == 3 * n,
        guides(mask, n)[3 * d] == (if mask & (1u32 << ((d % 32) as u32)) != 0 {
            '│'
        } else {
            ' '
        }),
        guides(mask, n)[3 * d + 1] == ' ',
        guides(mask, n)[3 * d + 2] == ' ',
    decreases n,
{
    reveal_strlit("│  ");
    reveal_strlit("   ");
    lemma_guides_len(mask, (n - 1) as nat);
    if d < n - 1 {
        lemma_guides_show(mask, (n - 1) as nat, d);
    }
}

proof fn lemma_guides_len(mask: u32, n: nat)
    ensures
        guides(mask, n).len() == 3 * n,
    decreases n,
{
    reveal_strlit("│  ");
    reveal_strlit("   ");
    if n > 0 {
        lemma_guides_len(mask, (n - 1) as nat);
    }
}

// Numbers

/// Memory is shown in kibibytes below one mebibyte and in mebibytes from then on:
/// with two decimals below ten, one below a hundred and none from then on, and
/// rounded to the nearest. Threads have none of their own.
pub proof fn lemma_memory_shown(kib: u64)
    requires
        kib < 0x20_0000_0000_0000,
    ensures
        memory_text(kib, true) == "---"@,
        kib == 0 ==> memory_text(kib, false) == "0 KiB"@,
        0 < kib < 1024 ==> memory_text(kib, false) == decimal(kib as nat) + " KiB"@,
        1024 <= kib < 10240 ==> exists|n: nat|
            2 * abs(1024 * n - 100 * kib) <= 1024 && memory_text(kib, false) == #[trigger] decimal(
                n / 100,
            ) + "."@ + decimal(n / 10 % 10) + decimal(n % 10) + " MiB"@,
        10240 <= kib < 102400 ==> exists|n: nat|
            2 * abs(1024 * n - 10 * kib) <= 1024 && memory_text(kib, false) == #[trigger] decimal(
                n / 10,
            ) + "."@ + decimal(n % 10) + " MiB"@,
        kib >= 102400 ==> exists|n: nat|
            2 * abs(1024 * n - kib) <= 1024 && memory_text(kib, false) == #[trigger] decimal(n)
                + " MiB"@,
{
    lemma_integer_rounded(kib as nat);
    let d = kib as nat;
    if 1024 <= kib < 10240 {
        let n = round_half_even(100 * d, 1024);
        lemma_round_close(100 * d, 1024);
        assert(memory_text(kib, false) == decimal(n / 100) + "."@ + decimal(n / 10 % 10) + decimal(
            n % 10,
        ) + " MiB"@);
    } else if 10240 <= kib < 102400 {
        let n = round_half_even(10 * d, 1024);
        lemma_round_close(10 * d, 1024);
        assert(memory_text(kib, false) == decimal(n / 10) + "."@ + decimal(n % 10) + " MiB"@);
    } else if kib >= 102400 {
        let n = (d + 512) / 1024;
        assert(memory_text(kib, false) == decimal(n) + " MiB"@);
    }
}

/// A share is shown with one decimal, rounded to the nearest, in at least five
/// places.
pub proof fn lemma_percent_shown(a: Dyadic)
    requires
        a.mant >= 0,
        a.exp <= 0,
    ensures
        exists|n: nat|
            2 * abs(10 * a.mant - n * pow2((-a.exp) as nat)) <= pow2((-a.exp) as nat)
                && percent_text(a) == right_aligned(
                #[trigger] decimal(n / 10) + "."@ + decimal(n % 10),
                5,
            ),
{
    let n = tenths(a);
    let p = pow2((-a.exp) as nat);
    vstd::arithmetic::power2::lemma_pow2_pos((-a.exp) as nat);
    if a.exp == 0 {
        vstd::arithmetic::power2::lemma2_to64();
        assert(a.mant * 1 == a.mant);
        assert(n * 1 == n);
        assert(10 * a.mant - n * p == 0) by (nonlinear_arith)
            requires
                p == 1,
                n == 10 * a.mant,
        ;
    } else {
        lemma_round_close((10 * a.mant) as nat, p);
    }
    assert(percent_text(a) == right_aligned(decimal(n / 10) + "."@ + decimal(n % 10), 5));
}

/// The uptime is shown in years of 365 days, days, hours, minutes and seconds
/// that add up to it.
pub proof fn lemma_uptime_shown(t: u64, y: nat, d: nat, h: nat, m: nat, s: nat)
    requires
        t == (((y * 365 + d) * 24 + h) * 60 + m) * 60 + s,
        d < 365,
        h < 24,
        m < 60,
        s < 60,
    ensures
        uptime_text(t) == decimal(y) + "y "@ + decimal(d) + "d "@ + decimal(h) + "h "@ + decimal(m)
            + "m "@ + decimal(s) + "s"@,
{
    let a = t as int % 31536000;
    assert(t == y * 31536000 + (d * 86400 + h * 3600 + m * 60 + s));
    assert(t as int / 31536000 == y && a == d * 86400 + h * 3600 + m * 60 + s);
    assert(a / 86400 == d && a % 86400 == h * 3600 + m * 60 + s);
    assert(a % 86400 / 3600 == h && a % 86400 % 3600 == m * 60 + s);
    assert(a % 86400 % 3600 / 60 == m && a % 86400 % 3600 % 60 == s);
}

/// The totals are the sums over the processes in the table: a process adds its
/// proportional memory and its swap, a thread nothing.
pub proof fn lemma_totals_added(rows: Seq<ProcInfo>, p: ProcInfo)
    ensures
        totals(Seq::<ProcInfo>::empty()) == (0u64, 0u64),
        p.is_thread ==> totals(rows.push(p)) == totals(rows),
        !p.is_thread && totals(rows).0 + p.pss_kb <= u64::MAX ==> totals(rows.push(p)).0 == totals(
            rows,
        ).0 + p.pss_kb,
        !p.is_thread && totals(rows).1 + p.swap_kb <= u64::MAX ==> totals(rows.push(p)).1 == totals(
            rows,
        ).1 + p.swap_kb,
{
    assert(rows.push(p).drop_last() =~= rows);
}

/// The status has what it has to say at its left and the totals of the rows in
/// the table at its right. Where there is no room for both, the left is cut.
pub proof fn lemma_status_shows(s: State)
    ensures
        ({
            let right = "PSS: "@ + memory_text(totals(s.filtered_raw).0, false) + "  Swap: "@
                + memory_text(totals(s.filtered_raw).1, false);
            let left = left_text(s);
            let a = encode_utf8(left).len();
            let b = encode_utf8(right).len();
            &&& a + 1 + b <= s.term_width ==> status_text(s) == left + spaces(
                (s.term_width - 1 - a - b) as nat,
            ) + right
            &&& a + 1 + b > s.term_width && left.len() + 1 + b > s.term_width && b + 1
                <= s.term_width ==> status_text(s) == left.take(s.term_width - b - 1) + spaces(1)
                + right
            &&& a + 1 + b > s.term_width && left.len() + 1 + b <= s.term_width ==> status_text(s)
                == left + spaces(1) + right
            &&& b + 1 > s.term_width ==> status_text(s) == spaces(1) + right
        }),
{
    let right = "PSS: "@ + memory_text(totals(s.filtered_raw).0, false) + "  Swap: "@ + memory_text(
        totals(s.filtered_raw).1,
        false,
    );
    let left = left_text(s);
    reveal_strlit(" ");
    assert(" "@ =~= spaces(1));
    assert(left.take(0) + spaces(1) + right =~= spaces(1) + right);
    assert(left.take(left.len() as int) =~= left);
}

/// What the status has to say depends on what the user is doing: answering,
/// choosing what to kill, searching, looking at a part of the rows, or at all.
pub proof fn lemma_status_says(s: State)
    ensures
        s.kill_confirming ==> mode_text(s) == "Kill "@ + decimal(s.marked_pids.len())
            + " marked process(es)/thread(s)? y/n"@,
        !s.kill_confirming && !s.kill_mode && s.searching ==> mode_text(s) == "Search: "@
            + s.filter_string + "_ (Enter accept, Esc clear)"@,
        !s.kill_confirming && !s.kill_mode && !s.searching && s.filter_string.len() > 0
            ==> mode_text(s) == "Filter: '"@ + s.filter_string + "' | "@ + title(s.sort_col as int)
            + " "@ + (if s.sort_reverse {
            "↓"@
        } else {
            "↑"@
        }) + (if s.interval < 50 {
            " [NANO CPU]"@
        } else {
            seq![]
        }) + " | Interval: "@ + interval_text(s.interval) + " | / search"@,
        left_text(s) == mode_text(s) + (if s.cmd_offset > 0 {
            "  Cmd offset: "@ + decimal(s.cmd_offset)
        } else {
            seq![]
        }) + (if s.mem_override {
            " [MEM OVERRIDE]"@
        } else {
            seq![]
        }),
{
}

// Columns

/// The titles are numbered as the keys are that sort by them.
pub proof fn lemma_titles()
    ensures
        title(0) == "1 PID"@,
        title(1) == "2 User"@,
        title(2) == "3 Command/Program"@,
        title(3) == "4 PSS"@,
        title(4) == "5 USS"@,
        title(5) == "6 RSS"@,
        title(6) == "7 Swap"@,
        title(7) == "8 CPU%"@,
{
}

/// A title stands over its column as the cells do, at the left for the user and
/// the command and else at the right, in bold; the one to sort by is cyan, the
/// others are white.
pub proof fn lemma_title_shown(s: State, col: int)
    requires
        0 <= col < 8,
    ensures
        ({
            let text = if s.no_color {
                "\x1b[1m"@ + title(col) + "\x1b[22m"@
            } else if col == s.sort_col {
                "\x1b[1m"@ + fg(0, 255, 255) + title(col) + "\x1b[39m\x1b[22m"@
            } else {
                "\x1b[1m"@ + fg(255, 255, 255) + title(col) + "\x1b[39m\x1b[22m"@
            };
            let pad = spaces(
                if title(col).len() < s.widths[col] {
                    (s.widths[col] - title(col).len()) as nat
                } else {
                    0
                },
            );
            let gap = if col == 1 {
                spaces(1)
            } else if col == 7 {
                spaces(0)
            } else {
                spaces(2)
            };
            title_cell(s, col) == (if col == 1 || col == 2 {
                text + pad
            } else {
                pad + text
            }) + gap
        }),
        titles(s, (col + 1) as nat) == titles(s, col as nat) + title_cell(s, col),
        titles(s, 0).len() == 0,
{
}

/// The frame is the line of the machine, the titles, as many lines of the table
/// as there is room for, and the status.
pub proof fn lemma_frame_shows(s: State, n: nat)
    ensures
        frame(s) == system_line(s) + "\r\n"@ + header_line(s) + "\r\n"@ + table_lines(
            s,
            if s.term_height > 3 {
                (s.term_height - 3) as nat
            } else {
                0
            },
        ) + status_line(s),
        table_lines(s, 0).len() == 0,
        table_lines(s, n + 1) == table_lines(s, n) + (table_body(s, n) + scroll_bar(s, n) + "\r\n"@),
{
}

/// Beside the lines of the table stands a scroll bar if there are more rows than
/// lines: its thumb covers as many lines as its height says from its top on.
pub proof fn lemma_scroll_bar_shows(s: State, idx: nat)
    ensures
        ({
            let rows = s.filtered_raw.len();
            let page = if s.term_height > 3 {
                (s.term_height - 3) as nat
            } else {
                0
            };
            let top = thumb_top(page, rows, s.scroll_pos);
            &&& rows <= page ==> scroll_bar(s, idx) == "  "@
            &&& rows > page && s.no_color ==> scroll_bar(s, idx) == "  "@ + "\x1b[0m"@
            &&& rows > page && !s.no_color && top <= idx < top + thumb_height(page, rows)
                ==> scroll_bar(s, idx) == bg(120, 120, 120) + "  "@ + "\x1b[0m"@
            &&& rows > page && !s.no_color && !(top <= idx < top + thumb_height(page, rows))
                ==> scroll_bar(s, idx) == bg(40, 40, 40) + "  "@ + "\x1b[0m"@
        }),
{
    assert(Seq::<char>::empty() + "  "@ =~= "  "@);
}

/// What is cut off a line is at its end.
pub proof fn lemma_cut_off(line: Seq<char>, width: nat)
    ensures
        cut(line, width).len() <= line.len(),
        cut(line, width) == line.take(cut(line, width).len() as int),
        visible(line) <= width ==> cut(line, width) == line,
        visible(cut(line, width)) <= width,
        forall|k: int|
            cut(line, width).len() < k <= line.len() ==> visible(#[trigger] line.take(k)) > width,
    decreases line.len(),
{
    if visible(line) <= width || line.len() == 0 {
        assert(line.take(line.len() as int) =~= line);
    } else {
        let t = line.drop_last();
        lemma_cut_off(t, width);
        let m = cut(t, width).len() as int;
        assert(t.take(m) =~= line.take(m));
        assert forall|k: int| m < k <= line.len() implies visible(#[trigger] line.take(k))
            > width by {
            if k < line.len() {
                assert(t.take(k) =~= line.take(k));
            } else {
                assert(line.take(k) =~= line);
            }
        }
    }
}

// Bars

/// A bar is empty at zero, full at a hundred percent, and the larger a share is,
/// the longer is its bar.
pub proof fn lemma_bar_grows(a: Dyadic, b: Dyadic, w: nat)
    requires
        at_most(a, b),
        w < 0x1_0000,
    ensures
        filled_places(a, w) <= filled_places(b, w) <= w,
        filled_places(zero(), w) == 0,
        filled_places(whole(100), w) == w,
{
    let hundred = whole(100);
    let n = whole(w as int);
    lemma_whole_sign(100);
    lemma_whole_sign(w as int);
    lemma_whole_sign(0);
    lemma_nearest_close(100, 1, 0);
    lemma_over_order(a, b, hundred);
    lemma_times_order(over(a, hundred), over(b, hundred), n);
    lemma_times_commutes(over(a, hundred), n);
    lemma_times_commutes(over(b, hundred), n);
    lemma_rounded_order(times(over(a, hundred), n), times(over(b, hundred), n));
    assert(over(zero(), hundred) == zero());
    assert(0 * n.mant == 0);
    assert(times(zero(), n) == zero());
    lemma_over_itself(hundred);
    lemma_integer_times(1, w as int);
    lemma_integer_rounded(w);
}

/// A bar has as many of its places filled as its share makes of them, rounded to
/// the nearest, halves up, but not more than it has.
pub proof fn lemma_bar_length(pct: Dyadic, w: nat, n: nat)
    requires
        ({
            let a = times(over(pct, whole(100)), whole(w as int));
            &&& a.mant > 0
            &&& a.exp < 0
            &&& 2 * n * pow2((-a.exp) as nat) <= 2 * a.mant + pow2((-a.exp) as nat)
            &&& 2 * a.mant + pow2((-a.exp) as nat) < 2 * (n + 1) * pow2((-a.exp) as nat)
        }),
        n <= u64::MAX,
    ensures
        filled_places(pct, w) == (if n <= w {
            n
        } else {
            w
        }),
{
    let a = times(over(pct, whole(100)), whole(w as int));
    let p = pow2((-a.exp) as nat) as int;
    let m = 2 * a.mant + p;
    vstd::arithmetic::power2::lemma_pow2_pos((-a.exp) as nat);
    assert(m == n * (2 * p) + (m - n * (2 * p)) && 0 <= m - n * (2 * p) < 2 * p)
        by (nonlinear_arith)
        requires
            2 * n * p <= m,
            m < 2 * (n + 1) * p,
    ;
    vstd::arithmetic::div_mod::lemma_fundamental_div_mod_converse(
        m,
        2 * p,
        n as int,
        m - n * (2 * p),
    );
}

/// The thumb of the scroll bar takes as much of the lines as the lines are of the
/// rows, give or take one line, and at least one.
pub proof fn lemma_thumb_height(page: nat, total: nat, k: nat)
    requires
        0 < page < total,
        page * total < 0x20_0000_0000_0000,
        0 < k,
        k * total < 0x20_0000_0000_0000,
    ensures
        thumb_height(page, total) >= 1,
        k * total <= page * page ==> thumb_height(page, total) >= k,
        page * page <= k * total ==> thumb_height(page, total) <= k,
        thumb_height(page, total) <= page,
{
    assert(page * page <= page * total && total <= page * total && total <= k * total)
        by (nonlinear_arith)
        requires
            0 < page <= total,
            k >= 1,
    ;
    lemma_thumb_between(page, total, k);
    lemma_thumb_between(page, total, page);
}

proof fn lemma_thumb_between(page: nat, total: nat, k: nat)
    requires
        0 < page < total,
        page * page < 0x20_0000_0000_0000,
        total < 0x20_0000_0000_0000,
        0 < k,
        k * total < 0x20_0000_0000_0000,
    ensures
        k * total <= page * page ==> thumb_height(page, total) >= k,
        page * page <= k * total ==> thumb_height(page, total) <= k,
{
    let a = whole((page * page) as int);
    let t = whole(total as int);
    let b = whole((k * total) as int);
    assert(page <= page * page && k <= k * total) by (nonlinear_arith)
        requires
            page >= 1,
            k >= 1,
            total >= 1,
    ;
    lemma_integer_times(page as int, page as int);
    lemma_whole_sign(total as int);
    lemma_over_exact(k, total);
    lemma_integer_rounded(k);
    if k * total <= page * page {
        lemma_nearest_signed_order((k * total) as int, (page * page) as int, 1, 0);
        lemma_over_order(b, a, t);
        lemma_rounded_order(over(b, t), over(a, t));
    }
    if page * page <= k * total {
        lemma_nearest_signed_order((page * page) as int, (k * total) as int, 1, 0);
        lemma_over_order(a, b, t);
        lemma_rounded_order(over(a, t), over(b, t));
    }
}

/// The thumb of the scroll bar is at the top where the table is not scrolled, at
/// the bottom where it is scrolled to its end, and moves down in between.
pub proof fn lemma_thumb_moves(page: nat, total: nat, a: nat, b: nat)
    requires
        page < total < 0x1_0000_0000,
        a <= b <= total - page,
        thumb_height(page, total) <= page,
    ensures
        thumb_top(page, total, 0) == 0,
        thumb_top(page, total, a) <= thumb_top(page, total, b),
        thumb_top(page, total, b) + thumb_height(page, total) <= page,
        thumb_top(page, total, (total - page) as nat) + thumb_height(page, total) == page,
        thumb_height(page, total) >= 1,
{
    let h = thumb_height(page, total);
    let room = page - h;
    let d = total - page;
    let r = whole(room);
    lemma_whole_sign(room);
    lemma_whole_sign(0);
    lemma_share_ends(d);
    lemma_share_order(a as int, b as int, d);
    lemma_share_order(b as int, d, d);
    let x = over(whole(a as int), whole(d));
    let y = over(whole(b as int), whole(d));
    lemma_times_order(x, y, r);
    lemma_times_order(y, whole(1), r);
    lemma_rounded_order(times(r, x), times(r, y));
    lemma_rounded_order(times(r, y), times(r, whole(1)));
    lemma_integer_times(room, 1);
    lemma_integer_times(room, 0);
    lemma_integer_rounded(room as nat);
    lemma_integer_rounded(0);
}

// The first line

/// A figure is added behind the others, with its name in bold, if there is one
/// and the line still fits into the terminal with it.
pub proof fn lemma_figure_added(s: State, line: Seq<char>, name: Seq<char>, val: Seq<char>)
    ensures
        ({
            let with = " "@ + line + " "@ + ("\x1b[1m"@ + name + "\x1b[22m"@) + " "@ + val;
            &&& val.len() > 0 && visible(with) <= s.term_width ==> appended(s, line, name, val)
                == with
            &&& val.len() == 0 || visible(with) > s.term_width ==> appended(s, line, name, val)
                == line
        }),
{
}

/// The first line shows the share of the processors, of memory and of swap in
/// use, then the load, the time since the start and the tasks, as far as they
/// fit.
pub proof fn lemma_figures_shown(s: State)
    ensures
        ({
            let si = s.system_info;
            let cpu = gauge(s, "CPU"@, si.cpu_percent@, 8);
            let mem = gauge(s, "Mem"@, si.mem_percent@, 8);
            let swap = gauge(s, "Swp"@, si.swap_percent@, 4);
            let a = appended(s, cpu + " "@ + mem + " "@ + swap, "Load 1/5/15min"@, si.load@);
            let b = appended(s, a, "Uptime"@, si.uptime@);
            figures(s) == appended(s, b, "Tasks:"@, si.tasks@)
        }),
        forall|name: Seq<char>, pct: Dyadic, w: nat| #[trigger]
            gauge(s, name, pct, w) == "\x1b[1m"@ + name + "\x1b[22m"@ + " "@ + bar(s, pct, w) + " "@
                + percent_text(pct) + "%"@,
        s.no_color ==> forall|pct: Dyadic, w: nat| #[trigger]
            bar(s, pct, w) == crate::text::repeated('|', filled_places(pct, w)) + spaces(
                (w - filled_places(pct, w)) as nat,
            ),
{
}

} // verus!
