//! The lines on the screen: the figures of the machine, the table, the status.

use crate::ansi::{
    ansi_bg_rgb, ansi_fg_rgb, ansi_reset, bg, bold, bold_text, fg, visible, visible_len,
};
use crate::app::{App, State};
use crate::color::{color_cpu, cpu_color};
use crate::double::{over, rounded, saturated, times, usual, whole, Double, Dyadic};
use crate::format::{format_memory, format_percent, memory_text, percent_text};
use crate::interval::{format_interval, interval_text, nano};
use crate::process::ProcInfo;
use crate::table::{
    backdrop, cells, column_title, filled, header_line, joined_cells, table_width, title,
};
use crate::text::{
    chars_of, decimal, left_aligned, lemma_regroup, missing, part, push_all, push_number,
    push_repeated, repeated, spaces, string_of,
};
use vstd::prelude::*;
use vstd::string::StringExecFns;
use vstd::utf8::encode_utf8;

verus! {

broadcast use vstd::std_specs::hash::group_hash_axioms;

// The figures of the machine

/// How many of `w` places a percentage fills.
pub open spec fn filled_places(pct: Dyadic, w: nat) -> nat {
    let n = saturated(rounded(times(over(pct, whole(100)), whole(w as int)))) as nat;
    if n < w {
        n
    } else {
        w
    }
}

/// A bar of `w` places for a percentage.
pub open spec fn bar(s: State, pct: Dyadic, w: nat) -> Seq<char> {
    let n = filled_places(pct, w);
    let c = cpu_color(pct);
    if s.no_color {
        repeated('|', n) + spaces((w - n) as nat)
    } else {
        fg(c.0, c.1, c.2) + repeated('|', n) + "\x1b[39m"@ + spaces((w - n) as nat)
    }
}

/// A percentage with its name and its bar.
pub open spec fn gauge(s: State, name: Seq<char>, pct: Dyadic, w: nat) -> Seq<char> {
    bold(name) + " "@ + bar(s, pct, w) + " "@ + percent_text(pct) + "%"@
}

/// A line with one more figure behind it, if that is known and fits.
pub open spec fn appended(s: State, line: Seq<char>, name: Seq<char>, val: Seq<char>) -> Seq<char> {
    let longer = " "@ + line + " "@ + bold(name) + " "@ + val;
    if val.len() > 0 && visible(longer) <= s.term_width {
        longer
    } else {
        line
    }
}

/// As much of a line as the screen has room for.
pub open spec fn cut(line: Seq<char>, width: nat) -> Seq<char>
    decreases line.len(),
{
    if visible(line) <= width || line.len() == 0 {
        line
    } else {
        cut(line.drop_last(), width)
    }
}

/// The figures of the machine, as far as they fit.
pub open spec fn figures(s: State) -> Seq<char> {
    let si = s.system_info;
    let gauges = gauge(s, "CPU"@, si.cpu_percent@, 8) + " "@ + gauge(s, "Mem"@, si.mem_percent@, 8)
        + " "@ + gauge(s, "Swp"@, si.swap_percent@, 4);
    appended(
        s,
        appended(s, appended(s, gauges, "Load 1/5/15min"@, si.load@), "Uptime"@, si.uptime@),
        "Tasks:"@,
        si.tasks@,
    )
}

/// The first line of the screen.
pub open spec fn system_line(s: State) -> Seq<char> {
    let line = cut(figures(s), s.term_width);
    line + spaces(missing(visible(line), s.term_width))
}

// The table

/// What marks a row in kill mode.
pub open spec fn marker(selected: bool, marked: bool) -> Seq<char> {
    if selected && marked {
        "[*] "@
    } else if marked {
        "[x] "@
    } else if selected {
        "[ ] "@
    } else {
        "    "@
    }
}

/// A row of the table, with its mark in kill mode.
pub open spec fn row_text(s: State, i: int) -> Seq<char> {
    let p = s.filtered_raw[i];
    let line = joined_cells(s, cells(s, p), 8);
    let selected = i == s.kill_selected;
    let mark = marker(selected, s.marked_pids.contains(p.id()));
    if !s.kill_mode {
        line
    } else if selected {
        "\x1b[7m"@ + mark + line + "\x1b[27m"@
    } else {
        mark + line
    }
}

/// The height of the thumb of the scroll bar.
pub open spec fn thumb_height(page: nat, total: nat) -> nat {
    let n = saturated(
        rounded(
            over(times(whole(page as int), whole(page as int)), whole(total as int)),
        ),
    );
    if n == 0 {
        1
    } else {
        n as nat
    }
}

/// The first line of the thumb of the scroll bar.
pub open spec fn thumb_top(page: nat, total: nat, scroll: nat) -> nat {
    let h = thumb_height(page, total);
    let room = if h < page {
        page - h
    } else {
        0
    };
    saturated(
        rounded(times(whole(room), over(whole(scroll as int), whole(total - page)))),
    ) as nat
}

/// The scroll bar at a line; there is none if all rows fit.
pub open spec fn scroll_bar(s: State, idx: nat) -> Seq<char> {
    let total = s.filtered_raw.len();
    let page = s.page();
    if total > page {
        let top = thumb_top(page, total, s.scroll_pos);
        let color = if top <= idx < top + thumb_height(page, total) {
            backdrop(s, 120, 120, 120)
        } else {
            backdrop(s, 40, 40, 40)
        };
        color + "  "@ + "\x1b[0m"@
    } else {
        "  "@
    }
}

/// A line of the table without its scroll bar.
pub open spec fn table_body(s: State, idx: nat) -> Seq<char> {
    if s.scroll_pos + idx < s.filtered_raw.len() {
        filled(s, row_text(s, (s.scroll_pos + idx) as int))
    } else {
        spaces(table_width(s))
    }
}

/// A line of the table.
pub open spec fn table_line(s: State, idx: nat) -> Seq<char> {
    table_body(s, idx) + scroll_bar(s, idx) + "\r\n"@
}

/// The first `n` lines of the table.
pub open spec fn table_lines(s: State, n: nat) -> Seq<char>
    decreases n,
{
    if n == 0 {
        seq![]
    } else {
        table_lines(s, (n - 1) as nat) + table_line(s, (n - 1) as nat)
    }
}

// The status

/// The proportional set size and the swap of all processes, modulo two to the
/// 64th.
pub open spec fn totals(rows: Seq<ProcInfo>) -> (u64, u64)
    decreases rows.len(),
{
    if rows.len() == 0 {
        (0, 0)
    } else {
        let t = totals(rows.drop_last());
        let p = rows.last();
        if p.is_thread {
            t
        } else {
            (t.0.wrapping_add(p.pss_kb), t.1.wrapping_add(p.swap_kb))
        }
    }
}

/// The totals of the table.
pub open spec fn totals_text(rows: Seq<ProcInfo>) -> Seq<char> {
    "PSS: "@ + memory_text(totals(rows).0, false) + "  Swap: "@ + memory_text(totals(rows).1, false)
}

/// Which rows the table shows.
pub open spec fn mode_tags(s: State) -> Seq<char> {
    (if s.show_kernel {
        "[KERNEL] "@
    } else {
        seq![]
    }) + (if s.tree_mode && s.thread_mode {
        "[TREE+THREADS]"@
    } else if s.tree_mode {
        "[TREE]"@
    } else if s.thread_mode {
        "[THREADS]"@
    } else {
        seq![]
    })
}

/// How processor time is measured.
pub open spec fn cpu_tag(s: State) -> Seq<char> {
    if nano(s.interval) {
        " [NANO CPU]"@
    } else {
        seq![]
    }
}

/// What the status says of the mode.
pub open spec fn mode_text(s: State) -> Seq<char> {
    if s.kill_confirming {
        "Kill "@ + decimal(s.marked_pids.len()) + " marked process(es)/thread(s)? y/n"@
    } else if s.kill_mode {
        "KILL MODE: ↑↓ select | Space mark/advance | Enter confirm | Esc cancel | Marked: "@
            + decimal(s.marked_pids.len())
    } else if s.searching {
        "Search: "@ + s.filter_string + "_ (Enter accept, Esc clear)"@
    } else if s.filter_string.len() > 0 {
        "Filter: '"@ + s.filter_string + "' | "@ + title(s.sort_col as int) + " "@ + (
        if s.sort_reverse {
            "↓"@
        } else {
            "↑"@
        }) + cpu_tag(s) + " | Interval: "@ + interval_text(s.interval) + " | / search"@
    } else {
        mode_tags(s) + cpu_tag(s) + interval_text(s.interval)
            + " | +/- change | T tree | H threads | k kernel | m mem-override | q quit | F9 kill | ←→ cmd | ↑↓ scroll"@
    }
}

/// The left part of the status.
pub open spec fn left_text(s: State) -> Seq<char> {
    mode_text(s) + (if s.cmd_offset > 0 {
        "  Cmd offset: "@ + decimal(s.cmd_offset)
    } else {
        seq![]
    }) + (if s.mem_override {
        " [MEM OVERRIDE]"@
    } else {
        seq![]
    })
}

/// The status: what it says of the mode on the left, the totals on the right.
/// Where both do not fit, as many characters of the left part as the totals
/// leave room for; lengths are in bytes.
pub open spec fn status_text(s: State) -> Seq<char> {
    let left = left_text(s);
    let right = totals_text(s.filtered_raw);
    let a = encode_utf8(left).len();
    let b = encode_utf8(right).len();
    if a + b + 1 <= s.term_width {
        left + spaces((s.term_width - a - b - 1) as nat) + right
    } else {
        let room = missing(b + 1, s.term_width);
        (if room < left.len() {
            left.take(room as int)
        } else {
            left
        }) + " "@ + right
    }
}

/// The background of the status.
pub open spec fn status_backdrop(s: State) -> Seq<char> {
    if s.kill_confirming {
        bg(180, 40, 40)
    } else if s.kill_mode {
        bg(40, 60, 100)
    } else if s.searching {
        bg(80, 100, 40)
    } else if s.show_kernel {
        bg(50, 50, 60)
    } else {
        bg(60, 60, 60)
    }
}

/// The last line of the screen.
pub open spec fn status_line(s: State) -> Seq<char> {
    let text = left_aligned(status_text(s), s.term_width);
    if s.no_color {
        text
    } else {
        status_backdrop(s) + fg(255, 255, 255) + text + "\x1b[0m"@
    }
}

/// All lines of the screen.
pub open spec fn frame(s: State) -> Seq<char> {
    system_line(s) + "\r\n"@ + header_line(s) + "\r\n"@ + table_lines(s, s.page()) + status_line(s)
}

/// Not scrolled further than there are rows.
pub open spec fn scroll_limited(s: State) -> State {
    State {
        scroll_pos: if s.scroll_pos < s.max_scroll() {
            s.scroll_pos
        } else {
            s.max_scroll()
        },
        ..s
    }
}

/// How many bytes a text takes.
fn bytes_in(s: &str) -> (n: usize)
    ensures
        n == encode_utf8(s@).len(),
{
    s.as_bytes().len()
}

/// How many of `w` places a percentage fills.
fn places(pct: Double, w: usize) -> (n: usize)
    requires
        pct.within(usual()),
    ensures
        n == filled_places(pct@, w as nat),
        n <= w,
{
    let hundred = Double::from_int(100);
    proof {
        crate::double::lemma_nearest_positive(100, 1, 0);
    }
    let n: u64 = pct.over(hundred).times(Double::from_int(w as i128)).rounded();
    if n < w as u64 {
        n as usize
    } else {
        w
    }
}

/// The height of the thumb of the scroll bar.
fn thumb_height_of(page: usize, total: usize) -> (n: u64)
    requires
        total > 0,
    ensures
        n == thumb_height(page as nat, total as nat),
{
    let p = Double::from_int(page as i128);
    let t = Double::from_int(total as i128);
    proof {
        crate::double::lemma_nearest_positive(total as nat, 1, 0);
    }
    let n: u64 = p.times(p).over(t).rounded();
    if n == 0 {
        1
    } else {
        n
    }
}

/// The first line of the thumb of the scroll bar.
fn thumb_top_of(page: usize, total: usize, scroll: usize) -> (n: u64)
    requires
        total > page,
    ensures
        n == thumb_top(page as nat, total as nat, scroll as nat),
{
    let h: u64 = thumb_height_of(page, total);
    let room: u64 = if h < page as u64 { page as u64 - h } else { 0 };
    let spare = Double::from_int((total - page) as i128);
    proof {
        crate::double::lemma_nearest_positive((total - page) as nat, 1, 0);
    }
    let way = Double::from_int(scroll as i128).over(spare);
    Double::from_int(room as i128).times(way).rounded()
}

/// The proportional set size and the swap of all processes.
fn totals_of(rows: &Vec<ProcInfo>) -> (r: (u64, u64))
    ensures
        r == totals(rows@),
{
    let mut pss: u64 = 0;
    let mut swap: u64 = 0;
    let mut i: usize = 0;
    while i < rows.len()
        invariant
            i <= rows@.len(),
            (pss, swap) == totals(rows@.take(i as int)),
        decreases rows.len() - i,
    {
        proof {
            assert(rows@.take(i + 1).drop_last() =~= rows@.take(i as int));
        }
        if !rows[i].is_thread {
            pss = pss.wrapping_add(rows[i].pss_kb);
            swap = swap.wrapping_add(rows[i].swap_kb);
        }
        i = i + 1;
    }
    proof {
        assert(rows@.take(i as int) =~= rows@);
    }
    (pss, swap)
}

/// The totals of the table.
fn format_totals(rows: &Vec<ProcInfo>) -> (s: String)
    ensures
        s@ == totals_text(rows@),
{
    let (pss, swap) = totals_of(rows);
    let mut s = String::new();
    s.append("PSS: ");
    s.append(format_memory(pss, false).as_str());
    s.append("  Swap: ");
    s.append(format_memory(swap, false).as_str());
    proof {
        assert(s@ =~= totals_text(rows@));
    }
    s
}

/// As much of a line as the screen has room for.
fn cut_to(line: &str, width: usize) -> (r: String)
    ensures
        r@ == cut(line@, width as nat),
{
    let chars = chars_of(line);
    let mut n: usize = chars.len();
    let mut r = string_of(&chars);
    proof {
        assert(chars@.take(n as int) =~= chars@);
    }
    while visible_len(r.as_str()) > width
        invariant
            n <= chars@.len(),
            r@ == chars@.take(n as int),
            cut(r@, width as nat) == cut(line@, width as nat),
        decreases n,
    {
        proof {
            assert(r@.len() > 0);
            assert(r@.drop_last() =~= chars@.take(n - 1));
        }
        n = n - 1;
        let start = part(&chars, 0, n);
        r = string_of(&start);
        proof {
            assert(r@ =~= chars@.take(n as int));
        }
    }
    r
}

proof fn lemma_one_more(head: Seq<char>, s: State, n: nat)
    ensures
        head + table_lines(s, n) + table_line(s, n) == head + table_lines(s, n + 1),
{
    let line = table_line(s, n);
    assert(table_lines(s, n + 1) == table_lines(s, n) + line);
    assert(head + table_lines(s, n) + line =~= head + (table_lines(s, n) + line));
}

impl App {
    /// Appends a bar of `w` places for a percentage.
    fn push_bar(&self, out: &mut String, pct: Double, w: usize)
        requires
            pct.within(usual()),
        ensures
            final(out)@ == old(out)@ + bar(self@, pct@, w as nat),
    {
        let ghost start = out@;
        let n = places(pct, w);
        let c = color_cpu(pct);
        if !self.no_color {
            out.append(ansi_fg_rgb(c.0, c.1, c.2).as_str());
        }
        push_repeated(out, '|', n);
        if !self.no_color {
            out.append("\x1b[39m");
        }
        push_repeated(out, ' ', w - n);
        proof {
            assert(out@ =~= start + bar(self@, pct@, w as nat));
        }
    }

    /// A percentage with its name and its bar.
    fn gauge_of(&self, name: &str, pct: Double, w: usize) -> (r: String)
        requires
            pct.within(usual()),
        ensures
            r@ == gauge(self@, name@, pct@, w as nat),
    {
        let mut r = bold_text(name);
        r.append(" ");
        self.push_bar(&mut r, pct, w);
        r.append(" ");
        r.append(format_percent(pct).as_str());
        r.append("%");
        proof {
            assert(r@ =~= gauge(self@, name@, pct@, w as nat));
        }
        r
    }

    /// A line with one more figure behind it, if that is known and fits.
    fn try_append(&self, line: String, name: &str, val: &str) -> (r: String)
        ensures
            r@ == appended(self@, line@, name@, val@),
    {
        if val.is_empty() {
            return line;
        }
        let mut longer = String::new();
        longer.append(" ");
        longer.append(line.as_str());
        longer.append(" ");
        longer.append(bold_text(name).as_str());
        longer.append(" ");
        longer.append(val);
        proof {
            assert(longer@ =~= " "@ + line@ + " "@ + bold(name@) + " "@ + val@);
        }
        if visible_len(longer.as_str()) <= self.term_width {
            longer
        } else {
            line
        }
    }

    /// The first line of the screen.
    pub fn build_system_line(&self) -> (r: String)
        requires
            self.system_info.wf(),
        ensures
            r@ == system_line(self@),
    {
        let si = &self.system_info;
        let mut line = self.gauge_of("CPU", si.cpu_percent, 8);
        line.append(" ");
        line.append(self.gauge_of("Mem", si.mem_percent, 8).as_str());
        line.append(" ");
        line.append(self.gauge_of("Swp", si.swap_percent, 4).as_str());
        line = self.try_append(line, "Load 1/5/15min", si.load.as_str());
        line = self.try_append(line, "Uptime", si.uptime.as_str());
        line = self.try_append(line, "Tasks:", si.tasks.as_str());
        proof {
            assert(line@ == figures(self@));
        }
        let mut r = cut_to(line.as_str(), self.term_width);
        let v = visible_len(r.as_str());
        let pad: usize = if v < self.term_width { self.term_width - v } else { 0 };
        push_repeated(&mut r, ' ', pad);
        r
    }

    /// A row of the table, with its mark in kill mode.
    fn row_text_of(&self, i: usize) -> (r: String)
        requires
            self.wf(),
            i < self.filtered_raw@.len(),
        ensures
            r@ == row_text(self@, i as int),
    {
        proof {
            assert(self@.filtered_raw[i as int].wf());
            assert(self.widths@.len() == self@.widths.len());
        }
        let p = &self.filtered_raw[i];
        let line = self.join_cells(p);
        if !self.kill_mode {
            return line;
        }
        let selected = i == self.kill_selected;
        let marked = self.marked_pids.contains(&p.signal_id());
        let mark = if selected && marked {
            "[*] "
        } else if marked {
            "[x] "
        } else if selected {
            "[ ] "
        } else {
            "    "
        };
        let mut r = String::new();
        if selected {
            r.append("\x1b[7m");
        }
        r.append(mark);
        r.append(line.as_str());
        if selected {
            r.append("\x1b[27m");
        }
        proof {
            assert(mark@ == marker(selected, marked));
            assert(r@ =~= row_text(self@, i as int));
        }
        r
    }

    /// Appends the scroll bar at a line.
    fn push_scroll_bar(&self, out: &mut String, idx: usize)
        ensures
            final(out)@ == old(out)@ + scroll_bar(self@, idx as nat),
    {
        let ghost start = out@;
        let total: usize = self.filtered_raw.len();
        let page = self.page();
        if total > page {
            let top: u64 = thumb_top_of(page, total, self.scroll_pos);
            let height: u64 = thumb_height_of(page, total);
            let at: u64 = idx as u64;
            if top <= at && at - top < height {
                self.push_backdrop(out, 120, 120, 120);
            } else {
                self.push_backdrop(out, 40, 40, 40);
            }
            out.append("  ");
            out.append(ansi_reset());
        } else {
            out.append("  ");
        }
        proof {
            assert(out@ =~= start + scroll_bar(self@, idx as nat));
        }
    }

    /// A line of the table without its scroll bar.
    fn table_body(&self, idx: usize) -> (line: String)
        requires
            self.wf(),
        ensures
            line@ == table_body(self@, idx as nat),
    {
        let total: usize = self.filtered_raw.len();
        if self.scroll_pos < total && idx < total - self.scroll_pos {
            let mut line = self.row_text_of(self.scroll_pos + idx);
            self.fill(&mut line);
            line
        } else {
            let width: usize = if self.term_width > 2 { self.term_width - 2 } else { 0 };
            let mut line = String::new();
            push_repeated(&mut line, ' ', width);
            proof {
                assert(line@ =~= spaces(table_width(self@)));
            }
            line
        }
    }

    /// Appends a line of the table.
    fn push_table_line(&self, out: &mut String, idx: usize)
        requires
            self.wf(),
        ensures
            final(out)@ == old(out)@ + table_line(self@, idx as nat),
    {
        let ghost start = out@;
        let body = self.table_body(idx);
        out.append(body.as_str());
        self.push_scroll_bar(out, idx);
        out.append("\r\n");
        proof {
            lemma_regroup(start, body@, scroll_bar(self@, idx as nat), "\r\n"@);
        }
    }

    /// Appends the lines of the table.
    fn push_table(&self, out: &mut String)
        requires
            self.wf(),
        ensures
            final(out)@ == old(out)@ + table_lines(self@, self@.page()),
    {
        let ghost head = out@;
        let page = self.page();
        let mut idx: usize = 0;
        proof {
            assert(head + table_lines(self@, 0) =~= head);
        }
        while idx < page
            invariant
                idx <= page,
                self.wf(),
                out@ == head + table_lines(self@, idx as nat),
            decreases page - idx,
        {
            self.push_table_line(out, idx);
            proof {
                lemma_one_more(head, self@, idx as nat);
            }
            idx = idx + 1;
        }
    }

    /// Which rows the table shows, and how processor time is measured.
    fn push_tags(&self, out: &mut String)
        ensures
            final(out)@ == old(out)@ + mode_tags(self@) + cpu_tag(self@),
    {
        let ghost start = out@;
        if self.show_kernel {
            out.append("[KERNEL] ");
        }
        if self.tree_mode && self.thread_mode {
            out.append("[TREE+THREADS]");
        } else if self.tree_mode {
            out.append("[TREE]");
        } else if self.thread_mode {
            out.append("[THREADS]");
        }
        if self.interval < 50 {
            out.append(" [NANO CPU]");
        }
        proof {
            assert(out@ =~= start + mode_tags(self@) + cpu_tag(self@));
        }
    }

    /// What the status says while a filter is active.
    fn filter_text(&self) -> (r: String)
        requires
            self.sort_col < 8,
            self.filter_string@.len() > 0,
            !self.kill_mode,
            !self.kill_confirming,
            !self.searching,
        ensures
            r@ == mode_text(self@),
    {
        let mut r = String::new();
        r.append("Filter: '");
        r.append(self.filter_string.as_str());
        r.append("' | ");
        r.append(column_title(self.sort_col));
        r.append(" ");
        if self.sort_reverse {
            r.append("↓");
        } else {
            r.append("↑");
        }
        if self.interval < 50 {
            r.append(" [NANO CPU]");
        }
        r.append(" | Interval: ");
        r.append(format_interval(self.interval).as_str());
        r.append(" | / search");
        proof {
            assert(r@ =~= mode_text(self@));
        }
        r
    }

    /// What the status says of the mode.
    fn mode_text_of(&self) -> (r: String)
        requires
            self.sort_col < 8,
        ensures
            r@ == mode_text(self@),
    {
        if !self.kill_confirming && !self.kill_mode && !self.searching
            && !self.filter_string.as_str().is_empty() {
            return self.filter_text();
        }
        let mut r = String::new();
        if self.kill_confirming {
            r.append("Kill ");
            push_number(&mut r, self.marked_pids.len() as u64);
            r.append(" marked process(es)/thread(s)? y/n");
        } else if self.kill_mode {
            r.append(
                "KILL MODE: ↑↓ select | Space mark/advance | Enter confirm | Esc cancel | Marked: ",
            );
            push_number(&mut r, self.marked_pids.len() as u64);
        } else if self.searching {
            r.append("Search: ");
            r.append(self.filter_string.as_str());
            r.append("_ (Enter accept, Esc clear)");
        } else {
            self.push_tags(&mut r);
            r.append(format_interval(self.interval).as_str());
            r.append(
                " | +/- change | T tree | H threads | k kernel | m mem-override | q quit | F9 kill | ←→ cmd | ↑↓ scroll",
            );
        }
        proof {
            assert(r@ =~= mode_text(self@));
        }
        r
    }

    /// The left part of the status.
    fn left_text_of(&self) -> (r: String)
        requires
            self.sort_col < 8,
        ensures
            r@ == left_text(self@),
    {
        let mut r = self.mode_text_of();
        if self.cmd_offset > 0 {
            r.append("  Cmd offset: ");
            push_number(&mut r, self.cmd_offset as u64);
        }
        if self.mem_override {
            r.append(" [MEM OVERRIDE]");
        }
        proof {
            assert(r@ =~= left_text(self@));
        }
        r
    }

    /// The status.
    fn status_text_of(&self) -> (r: String)
        requires
            self.sort_col < 8,
        ensures
            r@ == status_text(self@),
    {
        let left = self.left_text_of();
        let right = format_totals(&self.filtered_raw);
        let a: u128 = bytes_in(left.as_str()) as u128;
        let b: u128 = bytes_in(right.as_str()) as u128;
        let width: u128 = self.term_width as u128;
        let mut r = String::new();
        if a + b + 1 <= width {
            r.append(left.as_str());
            push_repeated(&mut r, ' ', (width - a - b - 1) as usize);
            r.append(right.as_str());
        } else {
            let room: usize = if b + 1 < width { (width - b - 1) as usize } else { 0 };
            let chars = chars_of(left.as_str());
            let n: usize = if room < chars.len() { room } else { chars.len() };
            let start = part(&chars, 0, n);
            push_all(&mut r, &start);
            r.append(" ");
            r.append(right.as_str());
            proof {
                assert(start@ =~= if room < chars@.len() {
                    chars@.take(room as int)
                } else {
                    chars@
                });
            }
        }
        proof {
            assert(r@ =~= status_text(self@));
        }
        r
    }

    /// The last line of the screen.
    fn status_line_of(&self) -> (r: String)
        requires
            self.sort_col < 8,
        ensures
            r@ == status_line(self@),
    {
        let mut r = String::new();
        if !self.no_color {
            let backdrop = if self.kill_confirming {
                ansi_bg_rgb(180, 40, 40)
            } else if self.kill_mode {
                ansi_bg_rgb(40, 60, 100)
            } else if self.searching {
                ansi_bg_rgb(80, 100, 40)
            } else if self.show_kernel {
                ansi_bg_rgb(50, 50, 60)
            } else {
                ansi_bg_rgb(60, 60, 60)
            };
            r.append(backdrop.as_str());
            r.append(ansi_fg_rgb(255, 255, 255).as_str());
        }
        let text = self.status_text_of();
        let len = chars_of(text.as_str()).len();
        r.append(text.as_str());
        push_repeated(&mut r, ' ', if len < self.term_width { self.term_width - len } else { 0 });
        if !self.no_color {
            r.append(ansi_reset());
        }
        proof {
            assert(r@ =~= status_line(self@));
        }
        r
    }

    /// Does not leave the table scrolled further than there are rows.
    pub(crate) fn limit_scroll(&mut self)
        ensures
            final(self)@ == scroll_limited(old(self)@),
    {
        let ghost start = self@;
        let max = self.max_scroll();
        if self.scroll_pos > max {
            self.scroll_pos = max;
        }
        proof {
            assert(self@ =~= scroll_limited(start));
        }
    }

    /// The lines of the screen, from its upper left corner on. The table is not
    /// left scrolled further than there are rows.
    pub fn render(&mut self) -> (out: String)
        requires
            old(self).wf(),
        ensures
            final(self)@ == scroll_limited(old(self)@),
            final(self).wf(),
            out@ == frame(scroll_limited(old(self)@)),
    {
        self.limit_scroll();
        let mut out = self.build_system_line();
        out.append("\r\n");
        proof {
            assert(self.widths@.len() == self@.widths.len());
        }
        out.append(self.build_header_line().as_str());
        out.append("\r\n");
        self.push_table(&mut out);
        out.append(self.status_line_of().as_str());
        out
    }
}

} // verus!
