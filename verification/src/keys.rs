//! What the keys do, and when the screen is drawn.

use crate::app::{lemma_table_wf, App, State};
use crate::interval::{
    allowed, lemma_interval_steps, longer, longer_interval, nanoseconds, shorter, shorter_interval,
};
use crate::process::{rows_wf, ProcInfo, SystemInfo};
use crate::screen::scroll_limited;
use crate::table::{widest, with_widths};
use crate::text::{chars_of, part, string_of};
use std::collections::HashSet;
use vstd::prelude::*;

verus! {

broadcast use vstd::std_specs::hash::group_hash_axioms;

/// A key.
#[derive(Clone, Copy, Debug, PartialEq, Eq, Structural)]
pub enum KeyPress {
    Char(char),
    /// A function key.
    Function(u8),
    Up,
    Down,
    Left,
    Right,
    Enter,
    Esc,
    Backspace,
    Delete,
    /// Any other key.
    Other,
}

/// What a key asks for.
pub struct Response {
    /// Whether the screen is to be drawn.
    pub dirty: bool,
    /// Whether the program is to end.
    pub quit: bool,
    /// The processes and threads that are to be terminated.
    pub kill: Option<HashSet<i32>>,
}

/// A character that can be part of a filter text.
pub open spec fn printable(c: char) -> bool {
    ' ' <= c <= '~'
}

/// Without the last character.
pub open spec fn popped(s: Seq<char>) -> Seq<char> {
    if s.len() > 0 {
        s.drop_last()
    } else {
        s
    }
}

/// Neither killing nor searching.
pub open spec fn browsing(s: State) -> bool {
    !s.kill_confirming && !s.kill_mode && !s.searching
}

/// Out of kill mode, with nothing marked.
pub open spec fn spared(s: State) -> State {
    State { kill_mode: false, kill_confirming: false, marked_pids: Set::empty(), ..s }
}

/// While the user is asked whether to kill: any answer leaves kill mode.
pub open spec fn answered(s: State, key: KeyPress) -> State {
    match key {
        KeyPress::Char(c) => if c == 'y' || c == 'Y' || c == 'n' || c == 'N' {
            spared(s)
        } else {
            s
        },
        KeyPress::Esc => spared(s),
        _ => s,
    }
}

/// In kill mode.
pub open spec fn picked(s: State, key: KeyPress) -> State {
    match key {
        KeyPress::Esc => spared(s),
        KeyPress::Up => State {
            kill_selected: if s.kill_selected > 0 {
                (s.kill_selected - 1) as nat
            } else {
                0
            },
            ..s
        },
        KeyPress::Down => s.advanced(),
        KeyPress::Char(c) => if c == ' ' {
            s.marked_and_advanced()
        } else {
            s
        },
        KeyPress::Enter => State { kill_confirming: s.marked_pids.len() > 0, ..s },
        _ => s,
    }
}

/// While a filter text is typed.
pub open spec fn searched(s: State, key: KeyPress) -> State {
    match key {
        KeyPress::Esc => State { filter_string: seq![], searching: false, ..s },
        KeyPress::Enter => State { searching: false, ..s },
        KeyPress::Backspace => State { filter_string: popped(s.filter_string), ..s },
        KeyPress::Delete => State { filter_string: popped(s.filter_string), ..s },
        KeyPress::Char(c) => if printable(c) {
            State { filter_string: s.filter_string.push(c), ..s }
        } else {
            s
        },
        _ => s,
    }
}

/// With another column to sort by, or the order reversed if it is the same one.
/// Numbers start in descending order, but for that of the process.
pub open spec fn column_chosen(s: State, col: usize) -> State {
    if col == s.sort_col {
        State { sort_reverse: !s.sort_reverse, ..s }
    } else {
        State { sort_col: col, sort_reverse: col > 2, ..s }
    }
}

/// With the rows and the widths of the table brought up to date.
pub open spec fn laid_out(s: State) -> State {
    with_widths(s.with_table())
}

/// With the command column scrolled to another place.
pub open spec fn shifted(s: State, offset: nat) -> State {
    laid_out(State { cmd_offset: offset, ..s })
}

/// What a character does to the table.
pub open spec fn commanded(s: State, c: char) -> State {
    if c == '/' {
        State { searching: true, ..s }
    } else if c == 'k' {
        State { show_kernel: !s.show_kernel, ..s }
    } else if c == 't' || c == 'T' {
        State {
            tree_mode: !s.tree_mode,
            collapsed_pids: if s.tree_mode {
                s.collapsed_pids
            } else {
                Set::empty()
            },
            ..s
        }
    } else if c == 'h' || c == 'H' {
        State { thread_mode: !s.thread_mode, ..s }
    } else if c == 'm' || c == 'M' {
        State { mem_override: !s.mem_override, ..s }
    } else if c == '+' || c == '=' {
        State { interval: longer(s.interval), ..s }
    } else if c == '-' {
        State { interval: shorter(s.interval), ..s }
    } else if '1' <= c <= '8' {
        column_chosen(s, (c as int - '1' as int) as usize)
    } else {
        s
    }
}

/// While the table is looked at.
pub open spec fn browsed(s: State, key: KeyPress) -> State {
    match key {
        KeyPress::Char(c) => commanded(s, c),
        KeyPress::Function(n) => if n == 9 && s.filtered_raw.len() > 0 {
            State {
                kill_mode: true,
                kill_selected: 0,
                marked_pids: Set::empty(),
                kill_confirming: false,
                ..s
            }
        } else {
            s
        },
        KeyPress::Esc => State { filter_string: seq![], ..s },
        KeyPress::Up => State {
            scroll_pos: if s.scroll_pos > 5 {
                (s.scroll_pos - 5) as nat
            } else {
                0
            },
            ..s
        },
        KeyPress::Down => State {
            scroll_pos: if s.scroll_pos + 5 < s.max_scroll() {
                s.scroll_pos + 5
            } else {
                s.max_scroll()
            },
            ..s
        },
        KeyPress::Left => shifted(
            s,
            if s.cmd_offset > 40 {
                (s.cmd_offset - 40) as nat
            } else {
                0
            },
        ),
        KeyPress::Right => shifted(
            s,
            if s.cmd_offset + 40 < 2000 {
                s.cmd_offset + 40
            } else {
                2000
            },
        ),
        _ => s,
    }
}

/// The state after a key.
pub open spec fn pressed(s: State, key: KeyPress) -> State {
    if s.kill_confirming {
        answered(s, key)
    } else if s.kill_mode {
        picked(s, key)
    } else if s.searching {
        searched(s, key)
    } else {
        browsed(s, key)
    }
}

/// Whether a key asks for the screen to be drawn.
pub open spec fn dirties(s: State, key: KeyPress) -> bool {
    if s.kill_confirming {
        match key {
            KeyPress::Char(c) => c == 'y' || c == 'Y' || c == 'n' || c == 'N',
            KeyPress::Esc => true,
            _ => false,
        }
    } else if s.kill_mode {
        match key {
            KeyPress::Esc => true,
            KeyPress::Up => true,
            KeyPress::Down => true,
            KeyPress::Char(c) => c == ' ',
            KeyPress::Enter => s.marked_pids.len() > 0,
            _ => false,
        }
    } else if s.searching {
        match key {
            KeyPress::Esc => true,
            KeyPress::Enter => true,
            KeyPress::Backspace => true,
            KeyPress::Delete => true,
            KeyPress::Char(c) => printable(c),
            _ => false,
        }
    } else {
        match key {
            KeyPress::Char(c) => {
                ||| c == '/' || c == 'k' || c == 't' || c == 'T' || c == 'h' || c == 'H' || c == 'm'
                    || c == 'M' || '1' <= c <= '8'
                ||| (c == '+' || c == '=') && longer(s.interval) != s.interval
                ||| c == '-' && shorter(s.interval) != s.interval
            },
            KeyPress::Function(n) => n == 9 && s.filtered_raw.len() > 0,
            KeyPress::Esc => true,
            KeyPress::Up => true,
            KeyPress::Down => true,
            KeyPress::Left => true,
            KeyPress::Right => true,
            _ => false,
        }
    }
}

/// Whether a key ends the program.
pub open spec fn quits(s: State, key: KeyPress) -> bool {
    browsing(s) && (key == KeyPress::Char('q') || key == KeyPress::Char('Q'))
}

/// What a key terminates.
pub open spec fn kills(s: State, key: KeyPress) -> Option<Set<i32>> {
    if s.kill_confirming && (key == KeyPress::Char('y') || key == KeyPress::Char('Y')) {
        Some(s.marked_pids)
    } else {
        None
    }
}

/// With new rows and figures.
pub open spec fn supplied(s: State, data: Option<(Seq<ProcInfo>, SystemInfo)>) -> State {
    match data {
        Some((rows, info)) => State { raw_data: rows, system_info: info, ..s },
        None => s,
    }
}

/// In kill mode: with the selection on one of the rows and on the screen.
pub open spec fn followed(s: State) -> State {
    if s.kill_mode && s.filtered_raw.len() > 0 {
        let t = State {
            kill_selected: if s.kill_selected < s.filtered_raw.len() {
                s.kill_selected
            } else {
                (s.filtered_raw.len() - 1) as nat
            },
            ..s
        };
        if t.kill_selected < t.scroll_pos {
            State { scroll_pos: t.kill_selected, ..t }
        } else {
            t.scrolled_to_selection()
        }
    } else {
        s
    }
}

/// While a filter text is typed: scrolled to the top.
pub open spec fn scrolled_for_search(s: State) -> State {
    if s.searching {
        State { scroll_pos: 0, ..s }
    } else {
        s
    }
}

/// Ready to be drawn, perhaps with new rows and figures.
pub open spec fn refreshed(s: State, data: Option<(Seq<ProcInfo>, SystemInfo)>) -> State {
    scrolled_for_search(scroll_limited(followed(laid_out(supplied(s, data)))))
}

/// Whether new rows and figures are taken up: not while something may be
/// killed.
pub open spec fn takes_data(s: State) -> bool {
    !s.kill_mode && !s.kill_confirming
}

/// How many nanoseconds after it was drawn the screen is drawn again.
pub open spec fn redraw_after(s: State) -> nat {
    if browsing(s) {
        nanoseconds(s.interval)
    } else {
        100_000_000
    }
}

/// Whether the screen is drawn.
pub open spec fn redraws(s: State, got_data: bool, dirty: bool, elapsed: nat) -> bool {
    (got_data && takes_data(s)) || dirty || elapsed >= redraw_after(s)
}

/// On a terminal of another size.
pub open spec fn resized(s: State, size: Option<(u16, u16)>) -> State {
    match size {
        Some((w, h)) => if w as nat != s.term_width || h as nat != s.term_height {
            with_widths(State { term_width: w as nat, term_height: h as nat, ..s })
        } else {
            s
        },
        None => s,
    }
}

/// What a refresh is given.
pub open spec fn given(data: Option<(Vec<ProcInfo>, SystemInfo)>) -> Option<
    (Seq<ProcInfo>, SystemInfo),
> {
    match data {
        Some((rows, info)) => Some((rows@, info)),
        None => None,
    }
}

fn quiet() -> (r: Response)
    ensures
        !r.dirty && !r.quit && r.kill is None,
{
    Response { dirty: false, quit: false, kill: None }
}

fn change(dirty: bool) -> (r: Response)
    ensures
        r.dirty == dirty && !r.quit && r.kill is None,
{
    Response { dirty, quit: false, kill: None }
}

/// Whether a response says what a key asks for.
pub open spec fn responds(r: Response, s: State, key: KeyPress) -> bool {
    &&& r.dirty == dirties(s, key)
    &&& r.quit == quits(s, key)
    &&& match r.kill {
        Some(set) => kills(s, key) == Some(set@),
        None => kills(s, key) is None,
    }
}

impl App {
    /// Leaves kill mode, with nothing marked.
    fn spare(&mut self) -> (marked: HashSet<i32>)
        ensures
            final(self)@ == spared(old(self)@),
            marked@ == old(self)@.marked_pids,
    {
        let ghost start = self@;
        let mut marked: HashSet<i32> = HashSet::new();
        std::mem::swap(&mut marked, &mut self.marked_pids);
        self.kill_mode = false;
        self.kill_confirming = false;
        proof {
            assert(self@ =~= spared(start));
        }
        marked
    }

    /// A key while the user is asked whether to kill.
    fn answer(&mut self, key: KeyPress) -> (r: Response)
        requires
            old(self)@.kill_confirming,
        ensures
            final(self)@ == answered(old(self)@, key),
            responds(r, old(self)@, key),
    {
        match key {
            KeyPress::Char(c) => {
                if c == 'y' || c == 'Y' {
                    let marked = self.spare();
                    Response { dirty: true, quit: false, kill: Some(marked) }
                } else if c == 'n' || c == 'N' {
                    let _ = self.spare();
                    change(true)
                } else {
                    quiet()
                }
            },
            KeyPress::Esc => {
                let _ = self.spare();
                change(true)
            },
            _ => quiet(),
        }
    }

    /// A key in kill mode.
    fn pick(&mut self, key: KeyPress) -> (r: Response)
        requires
            old(self)@.kill_mode,
            !old(self)@.kill_confirming,
        ensures
            final(self)@ == picked(old(self)@, key),
            responds(r, old(self)@, key),
    {
        let ghost start = self@;
        match key {
            KeyPress::Esc => {
                let _ = self.spare();
                change(true)
            },
            KeyPress::Up => {
                self.kill_selected = if self.kill_selected > 0 {
                    self.kill_selected - 1
                } else {
                    0
                };
                proof {
                    assert(self@ =~= picked(start, key));
                }
                change(true)
            },
            KeyPress::Down => {
                self.advance();
                change(true)
            },
            KeyPress::Char(c) => {
                if c == ' ' {
                    self.mark_and_advance();
                    change(true)
                } else {
                    quiet()
                }
            },
            KeyPress::Enter => {
                let any = self.marked_pids.len() > 0;
                self.kill_confirming = any;
                proof {
                    assert(self@ =~= picked(start, key));
                }
                change(any)
            },
            _ => quiet(),
        }
    }

    /// Removes the last character of the filter text.
    fn pop_filter(&mut self)
        ensures
            final(self)@ == (State { filter_string: popped(old(self)@.filter_string), ..old(self)@ }),
    {
        let ghost start = self@;
        let chars = chars_of(self.filter_string.as_str());
        if chars.len() > 0 {
            let rest = part(&chars, 0, chars.len() - 1);
            self.filter_string = string_of(&rest);
            proof {
                assert(rest@ =~= chars@.drop_last());
            }
        }
        proof {
            assert(self@ =~= State { filter_string: popped(start.filter_string), ..start });
        }
    }

    /// A key while a filter text is typed.
    fn search(&mut self, key: KeyPress) -> (r: Response)
        requires
            old(self)@.searching,
            !old(self)@.kill_mode,
            !old(self)@.kill_confirming,
        ensures
            final(self)@ == searched(old(self)@, key),
            responds(r, old(self)@, key),
    {
        let ghost start = self@;
        match key {
            KeyPress::Esc => {
                self.filter_string = String::new();
                self.searching = false;
                proof {
                    assert(self@ =~= searched(start, key));
                }
                change(true)
            },
            KeyPress::Enter => {
                self.searching = false;
                proof {
                    assert(self@ =~= searched(start, key));
                }
                change(true)
            },
            KeyPress::Backspace | KeyPress::Delete => {
                self.pop_filter();
                change(true)
            },
            KeyPress::Char(c) => {
                if ' ' <= c && c <= '~' {
                    self.filter_string.push(c);
                    proof {
                        assert(self@ =~= searched(start, key));
                    }
                    change(true)
                } else {
                    quiet()
                }
            },
            _ => quiet(),
        }
    }

    /// Sorts by another column, or reverses the order if it is the same one.
    fn choose_column(&mut self, col: usize)
        ensures
            final(self)@ == column_chosen(old(self)@, col),
    {
        let ghost start = self@;
        if col == self.sort_col {
            self.sort_reverse = !self.sort_reverse;
        } else {
            self.sort_col = col;
            self.sort_reverse = col > 2;
        }
        proof {
            assert(self@ =~= column_chosen(start, col));
        }
    }

    /// A character while the table is looked at.
    fn command(&mut self, c: char) -> (r: Response)
        requires
            browsing(old(self)@),
        ensures
            final(self)@ == commanded(old(self)@, c),
            responds(r, old(self)@, KeyPress::Char(c)),
    {
        let ghost start = self@;
        let mut dirty = true;
        if c == 'q' || c == 'Q' {
            return Response { dirty: false, quit: true, kill: None };
        } else if c == '/' {
            self.searching = true;
        } else if c == 'k' {
            self.show_kernel = !self.show_kernel;
        } else if c == 't' || c == 'T' {
            self.tree_mode = !self.tree_mode;
            if self.tree_mode {
                self.collapsed_pids.clear();
            }
        } else if c == 'h' || c == 'H' {
            self.thread_mode = !self.thread_mode;
        } else if c == 'm' || c == 'M' {
            self.mem_override = !self.mem_override;
        } else if c == '+' || c == '=' {
            let h: u32 = longer_interval(self.interval);
            dirty = h != self.interval;
            self.interval = h;
        } else if c == '-' {
            let h: u32 = shorter_interval(self.interval);
            dirty = h != self.interval;
            self.interval = h;
        } else if '1' <= c && c <= '8' {
            self.choose_column((c as u32 - '1' as u32) as usize);
        } else {
            dirty = false;
        }
        proof {
            assert(self@ =~= commanded(start, c));
        }
        change(dirty)
    }

    /// Brings the rows and the widths of the table up to date.
    fn lay_out(&mut self)
        requires
            old(self).wf(),
        ensures
            final(self)@ == laid_out(old(self)@),
            final(self).wf(),
    {
        self.apply_filter_and_sort();
        self.compute_widths();
    }

    /// Scrolls the command column to another place.
    fn shift(&mut self, offset: usize)
        requires
            old(self).wf(),
            offset <= 2000,
        ensures
            final(self)@ == shifted(old(self)@, offset as nat),
    {
        let ghost start = self@;
        self.cmd_offset = offset;
        proof {
            assert(self@ =~= State { cmd_offset: offset as nat, ..start });
        }
        self.lay_out();
    }

    /// A key while the table is looked at.
    fn browse(&mut self, key: KeyPress) -> (r: Response)
        requires
            old(self).wf(),
            browsing(old(self)@),
        ensures
            final(self)@ == browsed(old(self)@, key),
            responds(r, old(self)@, key),
    {
        let ghost start = self@;
        match key {
            KeyPress::Char(c) => self.command(c),
            KeyPress::Function(n) => {
                if n == 9 && self.filtered_raw.len() > 0 {
                    self.kill_mode = true;
                    self.kill_selected = 0;
                    self.marked_pids.clear();
                    self.kill_confirming = false;
                    proof {
                        assert(self@ =~= browsed(start, key));
                    }
                    change(true)
                } else {
                    quiet()
                }
            },
            KeyPress::Esc => {
                self.filter_string = String::new();
                proof {
                    assert(self@ =~= browsed(start, key));
                }
                change(true)
            },
            KeyPress::Up => {
                self.scroll_pos = if self.scroll_pos > 5 {
                    self.scroll_pos - 5
                } else {
                    0
                };
                proof {
                    assert(self@ =~= browsed(start, key));
                }
                change(true)
            },
            KeyPress::Down => {
                let max = self.max_scroll();
                self.scroll_pos = if self.scroll_pos < max && max - self.scroll_pos > 5 {
                    self.scroll_pos + 5
                } else {
                    max
                };
                proof {
                    assert(self@ =~= browsed(start, key));
                }
                change(true)
            },
            KeyPress::Left => {
                let offset: usize = if self.cmd_offset > 40 { self.cmd_offset - 40 } else { 0 };
                self.shift(offset);
                change(true)
            },
            KeyPress::Right => {
                let offset: usize = if self.cmd_offset + 40 < 2000 {
                    self.cmd_offset + 40
                } else {
                    2000
                };
                self.shift(offset);
                change(true)
            },
            _ => quiet(),
        }
    }

    /// Does what a key asks for, but for drawing, quitting and killing, which
    /// the response asks for.
    pub fn press(&mut self, key: KeyPress) -> (r: Response)
        requires
            old(self).wf(),
        ensures
            final(self)@ == pressed(old(self)@, key),
            responds(r, old(self)@, key),
            final(self).wf(),
    {
        proof {
            lemma_pressed_valid(self@, key);
        }
        if self.kill_confirming {
            self.answer(key)
        } else if self.kill_mode {
            self.pick(key)
        } else if self.searching {
            self.search(key)
        } else {
            self.browse(key)
        }
    }

    /// In kill mode: moves the selection to one of the rows and scrolls to it.
    fn follow(&mut self)
        ensures
            final(self)@ == followed(old(self)@),
    {
        let ghost start = self@;
        if self.kill_mode && self.filtered_raw.len() > 0 {
            if self.kill_selected >= self.filtered_raw.len() {
                self.kill_selected = self.filtered_raw.len() - 1;
            }
            let ghost t = State {
                kill_selected: if start.kill_selected < start.filtered_raw.len() {
                    start.kill_selected
                } else {
                    (start.filtered_raw.len() - 1) as nat
                },
                ..start
            };
            proof {
                assert(self@ =~= t);
            }
            if self.kill_selected < self.scroll_pos {
                self.scroll_pos = self.kill_selected;
                proof {
                    assert(self@ =~= State { scroll_pos: t.kill_selected, ..t });
                }
            } else {
                self.scroll_to_selection();
            }
        }
    }

    /// Takes up new rows and figures.
    fn supply(&mut self, data: Option<(Vec<ProcInfo>, SystemInfo)>)
        requires
            old(self).wf(),
            match data {
                Some((rows, info)) => rows_wf(rows@) && info.wf(),
                None => true,
            },
        ensures
            final(self)@ == supplied(old(self)@, given(data)),
            final(self).wf(),
    {
        let ghost start = self@;
        let ghost what = given(data);
        match data {
            Some((rows, info)) => {
                self.raw_data = rows;
                self.system_info = info;
            },
            None => {},
        }
        proof {
            assert(self@ =~= supplied(start, what));
        }
    }

    /// While a filter text is typed: scrolls to the top.
    fn scroll_for_search(&mut self)
        ensures
            final(self)@ == scrolled_for_search(old(self)@),
    {
        let ghost start = self@;
        if self.searching {
            self.scroll_pos = 0;
        }
        proof {
            assert(self@ =~= scrolled_for_search(start));
        }
    }

    /// Makes the table ready to be drawn, perhaps with new rows and figures.
    pub fn refresh(&mut self, data: Option<(Vec<ProcInfo>, SystemInfo)>)
        requires
            old(self).wf(),
            match data {
                Some((rows, info)) => rows_wf(rows@) && info.wf(),
                None => true,
            },
        ensures
            final(self)@ == refreshed(old(self)@, given(data)),
            final(self).wf(),
    {
        self.supply(data);
        self.lay_out();
        self.follow();
        self.limit_scroll();
        self.scroll_for_search();
    }

    /// Whether the screen is to be drawn, and if so, whether with the new rows
    /// and figures. `elapsed` is the time in nanoseconds since it was drawn.
    pub fn redraw(&self, got_data: bool, dirty: bool, elapsed: u128) -> (r: Option<bool>)
        ensures
            r == (if redraws(self@, got_data, dirty, elapsed as nat) {
                Some(got_data && takes_data(self@))
            } else {
                None
            }),
    {
        let update = got_data && !self.kill_mode && !self.kill_confirming;
        let after: u128 = if self.searching || self.kill_mode || self.kill_confirming {
            100_000_000
        } else {
            self.interval as u128 * 10_000_000
        };
        if update || dirty || elapsed >= after {
            Some(update)
        } else {
            None
        }
    }

    /// Adapts to the size of the terminal, if it is known; says whether it had
    /// changed.
    pub fn resize(&mut self, size: Option<(u16, u16)>) -> (changed: bool)
        requires
            old(self).wf(),
        ensures
            final(self)@ == resized(old(self)@, size),
            changed == (match size {
                Some((w, h)) => w != old(self).term_width || h != old(self).term_height,
                None => false,
            }),
            final(self).wf(),
    {
        let ghost start = self@;
        match size {
            Some((w, h)) => {
                if w as usize != self.term_width || h as usize != self.term_height {
                    self.term_width = w as usize;
                    self.term_height = h as usize;
                    proof {
                        assert(self@ =~= State {
                            term_width: w as nat,
                            term_height: h as nat,
                            ..start
                        });
                    }
                    self.compute_widths();
                    true
                } else {
                    false
                }
            },
            None => false,
        }
    }
}

// Laws

/// A key leads from a valid state to a valid one.
pub proof fn lemma_pressed_valid(s: State, key: KeyPress)
    requires
        s.valid(),
    ensures
        pressed(s, key).valid(),
{
    lemma_interval_steps(s.interval);
    lemma_table_wf(State { cmd_offset: 0, ..s });
    match key {
        KeyPress::Left | KeyPress::Right => {
            if browsing(s) {
                let offset = pressed(s, key).cmd_offset;
                lemma_table_wf(State { cmd_offset: offset, ..s });
            }
        },
        _ => {},
    }
}

/// A refresh leads from a valid state to a valid one.
pub proof fn lemma_refreshed_valid(s: State, data: Option<(Seq<ProcInfo>, SystemInfo)>)
    requires
        s.valid(),
        match data {
            Some((rows, info)) => rows_wf(rows) && info.wf(),
            None => true,
        },
    ensures
        refreshed(s, data).valid(),
{
    lemma_table_wf(supplied(s, data));
}

/// Nothing is terminated but what is marked, and only by a `y` in answer to the
/// question; the question is asked only in kill mode, by Enter, with something
/// marked; and kill mode begins only by F9, with nothing marked.
pub proof fn lemma_kill_confirmed(s: State, key: KeyPress)
    ensures
        kills(s, key) is Some ==> s.kill_confirming && kills(s, key) == Some(s.marked_pids) && (key
            == KeyPress::Char('y') || key == KeyPress::Char('Y')),
        !s.kill_confirming && pressed(s, key).kill_confirming ==> s.kill_mode && key
            == KeyPress::Enter && s.marked_pids.len() > 0,
        !s.kill_mode && pressed(s, key).kill_mode ==> browsing(s) && key == KeyPress::Function(9)
            && pressed(s, key).marked_pids == Set::<i32>::empty(),
{
}

/// Something is marked or no longer marked only by Space in kill mode, and then
/// it is the selected entry; otherwise marks are only dropped all at once.
pub proof fn lemma_marks(s: State, key: KeyPress)
    ensures
        pressed(s, key).marked_pids == s.marked_pids || pressed(s, key).marked_pids == Set::<
            i32,
        >::empty() || {
            &&& s.kill_mode && !s.kill_confirming && key == KeyPress::Char(' ')
            &&& s.kill_selected < s.filtered_raw.len()
            &&& forall|id: i32|
                id != s.filtered_raw[s.kill_selected as int].id() ==> (#[trigger] pressed(
                    s,
                    key,
                ).marked_pids.contains(id) == s.marked_pids.contains(id))
        },
{
}

/// Marking an entry twice leaves the marks as they were.
pub proof fn lemma_mark_twice(s: State, id: i32)
    ensures
        s.toggled(id).toggled(id) == s,
        s.toggled(id).marked_pids.contains(id) == !s.marked_pids.contains(id),
{
    assert(s.toggled(id).toggled(id) =~= s);
}

/// Esc leaves kill mode without terminating anything.
pub proof fn lemma_esc_spares(s: State)
    requires
        s.kill_mode || s.kill_confirming,
    ensures
        kills(s, KeyPress::Esc) is None,
        pressed(s, KeyPress::Esc) == spared(s),
{
}

/// Whether the user is asked only in kill mode and with something marked.
pub open spec fn coherent(s: State) -> bool {
    s.kill_confirming ==> s.kill_mode && s.marked_pids.len() > 0
}

/// The user is only ever asked in kill mode and with something marked.
pub proof fn lemma_coherent(
    s: State,
    key: KeyPress,
    data: Option<(Seq<ProcInfo>, SystemInfo)>,
    size: Option<(u16, u16)>,
)
    requires
        coherent(s),
    ensures
        coherent(pressed(s, key)),
        coherent(refreshed(s, data)),
        coherent(scroll_limited(s)),
        coherent(resized(s, size)),
{
}

/// In kill mode the rows stay as they are: new ones are not taken up.
pub proof fn lemma_frozen(s: State)
    requires
        s.kill_mode || s.kill_confirming,
    ensures
        !takes_data(s),
        refreshed(s, None).raw_data == s.raw_data,
        refreshed(s, None).system_info == s.system_info,
        refreshed(s, None).filtered_raw == s.table(),
{
}

/// Keys that switch something on switch it off again.
pub proof fn lemma_switches(s: State)
    requires
        browsing(s),
    ensures
        pressed(pressed(s, KeyPress::Char('k')), KeyPress::Char('k')) == s,
        pressed(pressed(s, KeyPress::Char('h')), KeyPress::Char('h')) == s,
        pressed(pressed(s, KeyPress::Char('m')), KeyPress::Char('m')) == s,
        pressed(pressed(s, KeyPress::Char('t')), KeyPress::Char('t')) == (State {
            collapsed_pids: Set::empty(),
            ..s
        }),
{
    assert(pressed(pressed(s, KeyPress::Char('t')), KeyPress::Char('t')) =~= State {
        collapsed_pids: Set::empty(),
        ..s
    });
}

/// The key of a column sorts by it; pressed again, it reverses the order, and
/// pressed once more, restores it.
pub proof fn lemma_columns(s: State, c: char)
    requires
        browsing(s),
        '1' <= c <= '8',
    ensures
        ({
            let key = KeyPress::Char(c);
            let a = pressed(s, key);
            let b = pressed(a, key);
            &&& a.sort_col == c as int - '1' as int
            &&& b == (State { sort_reverse: !a.sort_reverse, ..a })
            &&& pressed(b, key) == a
        }),
{
    let key = KeyPress::Char(c);
    let a = pressed(s, key);
    assert(pressed(pressed(a, key), key) =~= a);
}

/// The interval is made longer and shorter in steps that undo each other.
pub proof fn lemma_interval_keys(s: State)
    requires
        browsing(s),
        allowed(s.interval),
    ensures
        s.interval < 30000 ==> pressed(
            pressed(s, KeyPress::Char('+')),
            KeyPress::Char('-'),
        ) == s,
        s.interval > 5 ==> pressed(pressed(s, KeyPress::Char('-')), KeyPress::Char('+')) == s,
        s.interval == 30000 ==> pressed(s, KeyPress::Char('+')) == s,
        s.interval == 5 ==> pressed(s, KeyPress::Char('-')) == s,
{
    lemma_interval_steps(s.interval);
    if s.interval == 30000 {
        crate::interval::lemma_ends();
    }
    if s.interval == 5 {
        crate::interval::lemma_ends();
    }
}

/// The state after a text was typed.
pub open spec fn typed(s: State, text: Seq<char>) -> State
    decreases text.len(),
{
    if text.len() == 0 {
        s
    } else {
        pressed(typed(s, text.drop_last()), KeyPress::Char(text.last()))
    }
}

/// What is typed while searching is appended to the filter text, and changes
/// nothing else.
pub proof fn lemma_typed(s: State, text: Seq<char>)
    requires
        s.searching,
        !s.kill_mode,
        !s.kill_confirming,
        forall|i: int| 0 <= i < text.len() ==> printable(#[trigger] text[i]),
    ensures
        typed(s, text) == (State { filter_string: s.filter_string + text, ..s }),
    decreases text.len(),
{
    if text.len() == 0 {
        assert(s.filter_string + text =~= s.filter_string);
    } else {
        let t = text.drop_last();
        assert forall|i: int| 0 <= i < t.len() implies printable(#[trigger] t[i]) by {
            assert(printable(text[i]));
        }
        lemma_typed(s, t);
        assert(printable(text[text.len() - 1]));
        assert((s.filter_string + t).push(text.last()) =~= s.filter_string + text);
    }
}

/// A filter is set by `/`, the text and Enter, and cleared by Esc, at any time
/// before and after Enter.
pub proof fn lemma_filter_keys(s: State, text: Seq<char>)
    requires
        browsing(s),
        s.filter_string.len() == 0,
        forall|i: int| 0 <= i < text.len() ==> printable(#[trigger] text[i]),
    ensures
        ({
            let t = typed(pressed(s, KeyPress::Char('/')), text);
            &&& pressed(t, KeyPress::Enter) == (State { filter_string: text, ..s })
            &&& pressed(t, KeyPress::Esc) == s
            &&& pressed(pressed(t, KeyPress::Enter), KeyPress::Esc) == s
        }),
{
    let a = pressed(s, KeyPress::Char('/'));
    lemma_typed(a, text);
    let t = typed(a, text);
    assert(s.filter_string + text =~= text);
    assert(s.filter_string =~= seq![]);
    assert(pressed(t, KeyPress::Enter) =~= State { filter_string: text, ..s });
    assert(pressed(t, KeyPress::Esc) =~= s);
    assert(pressed(pressed(t, KeyPress::Enter), KeyPress::Esc) =~= s);
}

/// What is drawn is not scrolled further than there are rows.
pub proof fn lemma_scroll_bounded(s: State, data: Option<(Seq<ProcInfo>, SystemInfo)>)
    ensures
        refreshed(s, data).scroll_pos <= refreshed(s, data).max_scroll(),
{
}

/// In kill mode the selected row exists and is on the screen.
pub proof fn lemma_selection_shown(s: State, data: Option<(Seq<ProcInfo>, SystemInfo)>)
    requires
        s.kill_mode,
        !s.searching,
        supplied(s, data).table().len() > 0,
        s.page() > 0,
    ensures
        ({
            let r = refreshed(s, data);
            &&& r.kill_selected < r.filtered_raw.len()
            &&& r.scroll_pos <= r.kill_selected < r.scroll_pos + r.page()
        }),
{
}

/// The numbers of the first `n` rows.
pub open spec fn first_ids(rows: Seq<ProcInfo>, n: nat) -> Set<i32>
    decreases n,
{
    if n == 0 {
        Set::empty()
    } else {
        first_ids(rows, (n - 1) as nat).insert(rows[n - 1].id())
    }
}

proof fn lemma_first_ids(rows: Seq<ProcInfo>, n: nat)
    requires
        n <= rows.len(),
    ensures
        first_ids(rows, n).finite(),
        forall|id: i32| #[trigger]
            first_ids(rows, n).contains(id) ==> exists|i: int|
                0 <= i < n && (#[trigger] rows[i]).id() == id,
        n > 0 ==> first_ids(rows, n).len() > 0,
    decreases n,
{
    if n > 0 {
        lemma_first_ids(rows, (n - 1) as nat);
        let a = first_ids(rows, (n - 1) as nat);
        let r = first_ids(rows, n);
        assert forall|id: i32| #[trigger] r.contains(id) implies exists|i: int|
            0 <= i < n && (#[trigger] rows[i]).id() == id by {
            if id == rows[n - 1].id() {
                assert(rows[n - 1].id() == id);
            } else {
                assert(a.contains(id));
            }
        }
        assert(r.contains(rows[n - 1].id()));
        if r.len() == 0 {
            assert(r =~= Set::empty());
        }
    }
}

/// The state after F9 and `n` times Space.
pub open spec fn spaced(s: State, n: nat) -> State
    decreases n,
{
    if n == 0 {
        pressed(s, KeyPress::Function(9))
    } else {
        pressed(spaced(s, (n - 1) as nat), KeyPress::Char(' '))
    }
}

/// Whether no two rows have the same number.
pub open spec fn ids_differ(rows: Seq<ProcInfo>) -> bool {
    forall|i: int, j: int|
        0 <= i < j < rows.len() ==> (#[trigger] rows[i]).id() != (#[trigger] rows[j]).id()
}

proof fn lemma_spaced(s: State, n: nat)
    requires
        browsing(s),
        n <= s.filtered_raw.len(),
        s.filtered_raw.len() > 0,
        ids_differ(s.filtered_raw),
    ensures
        ({
            let r = spaced(s, n);
            &&& r.kill_mode && !r.kill_confirming
            &&& r.filtered_raw == s.filtered_raw
            &&& r.marked_pids == first_ids(s.filtered_raw, n)
            &&& r.kill_selected == (if n < s.filtered_raw.len() {
                n
            } else {
                (s.filtered_raw.len() - 1) as nat
            })
        }),
    decreases n,
{
    if n > 0 {
        let k = (n - 1) as nat;
        lemma_spaced(s, k);
        lemma_first_ids(s.filtered_raw, k);
        let before = spaced(s, k);
        let id = s.filtered_raw[k as int].id();
        assert(before.kill_selected == k);
        assert(!before.marked_pids.contains(id)) by {
            if before.marked_pids.contains(id) {
                let i = choose|i: int|
                    0 <= i < k && (#[trigger] s.filtered_raw[i]).id() == id;
                assert(s.filtered_raw[i].id() != s.filtered_raw[k as int].id());
            }
        }
    }
}

/// F9, `n` times Space, Enter and `y` terminate the first `n` entries of the
/// table and nothing else.
pub proof fn lemma_kill_many(s: State, n: nat)
    requires
        browsing(s),
        0 < n <= s.filtered_raw.len(),
        ids_differ(s.filtered_raw),
    ensures
        kills(pressed(spaced(s, n), KeyPress::Enter), KeyPress::Char('y')) == Some(
            first_ids(s.filtered_raw, n),
        ),
{
    lemma_spaced(s, n);
    lemma_first_ids(s.filtered_raw, n);
}

/// In the tree, the column to sort by does not matter.
pub proof fn lemma_tree_unsorted(s: State, col: usize, reverse: bool)
    requires
        s.tree_mode,
    ensures
        (State { sort_col: col, sort_reverse: reverse, ..s }).table() == s.table(),
{
}

// What each key does

/// In kill mode Down goes to the next row and Up back to it; on the last row Down
/// changes nothing, and on the first row Up changes nothing.
pub proof fn lemma_selection_moves(s: State)
    requires
        s.kill_mode,
        !s.kill_confirming,
        s.kill_selected < s.filtered_raw.len(),
    ensures
        s.kill_selected + 1 < s.filtered_raw.len() ==> {
            let down = pressed(s, KeyPress::Down);
            &&& down == (State { kill_selected: s.kill_selected + 1, ..s })
            &&& pressed(down, KeyPress::Up) == s
        },
        s.kill_selected + 1 == s.filtered_raw.len() ==> pressed(s, KeyPress::Down) == s,
        s.kill_selected > 0 ==> {
            let up = pressed(s, KeyPress::Up);
            &&& up == (State { kill_selected: (s.kill_selected - 1) as nat, ..s })
            &&& pressed(up, KeyPress::Down) == s
        },
        s.kill_selected == 0 ==> pressed(s, KeyPress::Up) == s,
        dirties(s, KeyPress::Down) && dirties(s, KeyPress::Up),
{
    let down = pressed(s, KeyPress::Down);
    assert(s.kill_selected + 1 < s.filtered_raw.len() ==> pressed(down, KeyPress::Up) =~= s);
    assert(s.kill_selected + 1 == s.filtered_raw.len() ==> down =~= s);
    let up = pressed(s, KeyPress::Up);
    assert(s.kill_selected > 0 ==> pressed(up, KeyPress::Down) =~= s);
    assert(s.kill_selected == 0 ==> up =~= s);
}

/// The state after Down was pressed `n` times.
pub open spec fn lowered(s: State, n: nat) -> State
    decreases n,
{
    if n == 0 {
        s
    } else {
        pressed(lowered(s, (n - 1) as nat), KeyPress::Down)
    }
}

/// F9, `n` times Down, Space, Enter and `y` terminate the row below `n` others,
/// and no other.
pub proof fn lemma_kill_one(s: State, n: nat)
    requires
        browsing(s),
        n < s.filtered_raw.len(),
    ensures
        ({
            let at = lowered(pressed(s, KeyPress::Function(9)), n);
            let asked = pressed(pressed(at, KeyPress::Char(' ')), KeyPress::Enter);
            &&& asked.kill_confirming
            &&& kills(asked, KeyPress::Char('y')) == Some(
                Set::<i32>::empty().insert(s.filtered_raw[n as int].id()),
            )
            &&& kills(asked, KeyPress::Char('Y')) == Some(
                Set::<i32>::empty().insert(s.filtered_raw[n as int].id()),
            )
            &&& kills(asked, KeyPress::Char('n')) is None
            &&& kills(asked, KeyPress::Esc) is None
        }),
{
    lemma_lowered(s, n);
    let at = lowered(pressed(s, KeyPress::Function(9)), n);
    let marked = pressed(at, KeyPress::Char(' '));
    let id = s.filtered_raw[n as int].id();
    assert(marked.marked_pids == Set::<i32>::empty().insert(id));
    assert(marked.marked_pids.len() == 1);
}

proof fn lemma_lowered(s: State, n: nat)
    requires
        browsing(s),
        n < s.filtered_raw.len(),
    ensures
        lowered(pressed(s, KeyPress::Function(9)), n) == (State {
            kill_mode: true,
            kill_selected: n,
            marked_pids: Set::empty(),
            kill_confirming: false,
            ..s
        }),
    decreases n,
{
    if n > 0 {
        lemma_lowered(s, (n - 1) as nat);
    }
    assert(lowered(pressed(s, KeyPress::Function(9)), n) =~= State {
        kill_mode: true,
        kill_selected: n,
        marked_pids: Set::empty(),
        kill_confirming: false,
        ..s
    });
}

/// F9 enters kill mode on the first row with nothing marked, if there is a row.
pub proof fn lemma_kill_mode_entered(s: State)
    requires
        browsing(s),
    ensures
        s.filtered_raw.len() > 0 ==> pressed(s, KeyPress::Function(9)) == (State {
            kill_mode: true,
            kill_selected: 0,
            marked_pids: Set::empty(),
            ..s
        }) && dirties(s, KeyPress::Function(9)),
        s.filtered_raw.len() == 0 ==> pressed(s, KeyPress::Function(9)) == s,
        forall|n: u8| n != 9 ==> #[trigger] pressed(s, KeyPress::Function(n)) == s,
{
}

/// Space marks the selected entry, or takes its mark away, and goes to the next
/// row, if there is one; it scrolls along, and changes nothing else.
pub proof fn lemma_space_marks(s: State)
    requires
        s.kill_mode,
        !s.kill_confirming,
        s.kill_selected < s.filtered_raw.len(),
    ensures
        ({
            let t = pressed(s, KeyPress::Char(' '));
            let id = s.filtered_raw[s.kill_selected as int].id();
            &&& t.marked_pids == (if s.marked_pids.contains(id) {
                s.marked_pids.remove(id)
            } else {
                s.marked_pids.insert(id)
            })
            &&& t.kill_selected == (if s.kill_selected + 1 < s.filtered_raw.len() {
                s.kill_selected + 1
            } else {
                s.kill_selected
            })
            &&& t == (State {
                marked_pids: t.marked_pids,
                kill_selected: t.kill_selected,
                scroll_pos: t.scroll_pos,
                ..s
            })
            &&& t.kill_selected < s.scroll_pos + s.page() ==> t.scroll_pos == s.scroll_pos
            &&& t.kill_selected >= s.scroll_pos + s.page() && s.page() > 0 ==> t.scroll_pos
                == t.kill_selected - s.page() + 1
            &&& s.page() > 1 && s.scroll_pos <= s.kill_selected < s.scroll_pos + s.page()
                ==> t.scroll_pos <= t.kill_selected < t.scroll_pos + s.page()
            &&& dirties(s, KeyPress::Char(' '))
        }),
{
}

/// Enter asks for confirmation if something is marked, and does nothing else.
pub proof fn lemma_enter_asks(s: State)
    requires
        s.kill_mode,
        !s.kill_confirming,
    ensures
        s.marked_pids.len() > 0 ==> pressed(s, KeyPress::Enter) == (State {
            kill_confirming: true,
            ..s
        }),
        s.marked_pids.len() == 0 ==> pressed(s, KeyPress::Enter) == s,
        kills(s, KeyPress::Enter) is None,
        !quits(s, KeyPress::Enter),
{
}

/// Yes terminates all that is marked, no terminates nothing; both leave kill mode
/// with nothing marked. Any other key is not an answer.
pub proof fn lemma_answers(s: State, key: KeyPress)
    requires
        s.kill_confirming,
    ensures
        ({
            let yes = key == KeyPress::Char('y') || key == KeyPress::Char('Y');
            let no = key == KeyPress::Char('n') || key == KeyPress::Char('N') || key
                == KeyPress::Esc;
            &&& yes ==> kills(s, key) == Some(s.marked_pids)
            &&& !yes ==> kills(s, key) is None
            &&& yes || no ==> pressed(s, key) == (State {
                kill_mode: false,
                kill_confirming: false,
                marked_pids: Set::empty(),
                ..s
            }) && dirties(s, key)
            &&& !yes && !no ==> pressed(s, key) == s
            &&& !quits(s, key)
        }),
{
}

/// While the table is looked at, Down scrolls by five rows and Up by five rows
/// back, as far as there are rows.
pub proof fn lemma_scroll_keys(s: State)
    requires
        browsing(s),
    ensures
        ({
            let end = if s.filtered_raw.len() > s.page() {
                s.filtered_raw.len() - s.page()
            } else {
                0
            };
            let down = pressed(s, KeyPress::Down);
            let up = pressed(s, KeyPress::Up);
            &&& down == (State { scroll_pos: down.scroll_pos, ..s })
            &&& up == (State { scroll_pos: up.scroll_pos, ..s })
            &&& s.scroll_pos + 5 <= end ==> down.scroll_pos == s.scroll_pos + 5 && pressed(
                down,
                KeyPress::Up,
            ) == s
            &&& s.scroll_pos + 5 > end ==> down.scroll_pos == end
            &&& s.scroll_pos >= 5 ==> up.scroll_pos == s.scroll_pos - 5
            &&& s.scroll_pos < 5 ==> up.scroll_pos == 0
            &&& dirties(s, KeyPress::Up) && dirties(s, KeyPress::Down)
        }),
        s.page() == (if s.term_height > 3 {
            s.term_height - 3
        } else {
            0
        }),
{
    let down = pressed(s, KeyPress::Down);
    if s.scroll_pos + 5 <= s.max_scroll() {
        assert(pressed(down, KeyPress::Up) =~= s);
    }
}

/// Right scrolls the commands by forty characters and Left back, between the
/// start and 2000; the rows and widths are brought up to date, and nothing else
/// changes.
pub proof fn lemma_command_keys(s: State)
    requires
        browsing(s),
        s.cmd_offset <= 2000,
    ensures
        ({
            let right = pressed(s, KeyPress::Right);
            let left = pressed(s, KeyPress::Left);
            &&& s.cmd_offset <= 1960 ==> right.cmd_offset == s.cmd_offset + 40
            &&& s.cmd_offset > 1960 ==> right.cmd_offset == 2000
            &&& s.cmd_offset >= 40 ==> left.cmd_offset == s.cmd_offset - 40
            &&& s.cmd_offset < 40 ==> left.cmd_offset == 0
            &&& right == (State {
                cmd_offset: right.cmd_offset,
                filtered_raw: s.table(),
                widths: right.widths,
                ..s
            })
            &&& left == (State {
                cmd_offset: left.cmd_offset,
                filtered_raw: s.table(),
                widths: left.widths,
                ..s
            })
            &&& right.widths == with_widths(State { filtered_raw: s.table(), ..s }).widths
            &&& left.widths == with_widths(State { filtered_raw: s.table(), ..s }).widths
            &&& dirties(s, KeyPress::Right) && dirties(s, KeyPress::Left)
        }),
{
    let right = pressed(s, KeyPress::Right);
    let left = pressed(s, KeyPress::Left);
    assert((State { cmd_offset: right.cmd_offset, ..s }).table() == s.table());
    assert((State { cmd_offset: left.cmd_offset, ..s }).table() == s.table());
    let shown = State { filtered_raw: s.table(), ..s };
    lemma_widths_follow(shown, State { cmd_offset: right.cmd_offset, ..shown });
    lemma_widths_follow(shown, State { cmd_offset: left.cmd_offset, ..shown });
    assert(right.widths == with_widths(State { cmd_offset: right.cmd_offset, ..shown }).widths);
    assert(left.widths == with_widths(State { cmd_offset: left.cmd_offset, ..shown }).widths);
}

/// Widths depend on the rows of the table and on whether it is a tree.
proof fn lemma_widths_follow(a: State, b: State)
    requires
        a.filtered_raw == b.filtered_raw,
        a.tree_mode == b.tree_mode,
    ensures
        with_widths(a).widths == with_widths(b).widths,
{
    assert forall|col: int| 0 <= col < 8 implies #[trigger] with_widths(a).widths[col]
        == with_widths(b).widths[col] by {
        lemma_widest_follows(a, b, a.filtered_raw, col);
    }
    assert(with_widths(a).widths =~= with_widths(b).widths);
}

proof fn lemma_widest_follows(a: State, b: State, rows: Seq<ProcInfo>, col: int)
    requires
        a.tree_mode == b.tree_mode,
    ensures
        widest(a, rows, col) == widest(b, rows, col),
    decreases rows.len(),
{
    if rows.len() > 0 {
        lemma_widest_follows(a, b, rows.drop_last(), col);
    }
}

/// The letters switch one thing each, capital or not: the threads of the kernel
/// (only the small letter), the tree, the threads, and reading memory at every
/// interval.
pub proof fn lemma_letters(s: State)
    requires
        browsing(s),
    ensures
        pressed(s, KeyPress::Char('k')) == (State { show_kernel: !s.show_kernel, ..s }),
        pressed(s, KeyPress::Char('K')) == s,
        pressed(s, KeyPress::Char('h')) == (State { thread_mode: !s.thread_mode, ..s }),
        pressed(s, KeyPress::Char('H')) == pressed(s, KeyPress::Char('h')),
        pressed(s, KeyPress::Char('m')) == (State { mem_override: !s.mem_override, ..s }),
        pressed(s, KeyPress::Char('M')) == pressed(s, KeyPress::Char('m')),
        s.tree_mode ==> pressed(s, KeyPress::Char('t')) == (State { tree_mode: false, ..s }),
        !s.tree_mode ==> pressed(s, KeyPress::Char('t')) == (State {
            tree_mode: true,
            collapsed_pids: Set::empty(),
            ..s
        }),
        pressed(s, KeyPress::Char('T')) == pressed(s, KeyPress::Char('t')),
        pressed(s, KeyPress::Char('/')) == (State { searching: true, ..s }),
        pressed(s, KeyPress::Esc) == (State { filter_string: seq![], ..s }),
        quits(s, KeyPress::Char('q')) && quits(s, KeyPress::Char('Q')),
{
}

/// The program ends by `q` or `Q` while the table is looked at, and by no other
/// key and at no other time.
pub proof fn lemma_quits(s: State, key: KeyPress)
    ensures
        quits(s, key) == (!s.kill_mode && !s.kill_confirming && !s.searching && (key
            == KeyPress::Char('q') || key == KeyPress::Char('Q'))),
        quits(s, key) ==> pressed(s, key) == s && kills(s, key) is None,
{
}

/// Names and numbers of processes sort upwards at first, sizes and shares
/// downwards; nothing but the order is changed.
pub proof fn lemma_columns_start(s: State, c: char)
    requires
        browsing(s),
        '1' <= c <= '8',
        s.sort_col != c as int - '1' as int,
    ensures
        pressed(s, KeyPress::Char(c)) == (State {
            sort_col: (c as int - '1' as int) as usize,
            sort_reverse: c >= '4',
            ..s
        }),
        dirties(s, KeyPress::Char(c)),
{
}

/// The keys for the interval lead to the next allowed one: none lies between.
pub proof fn lemma_interval_next(s: State, h: u32)
    requires
        browsing(s),
        allowed(s.interval),
        allowed(h),
    ensures
        ({
            let up = pressed(s, KeyPress::Char('+'));
            let down = pressed(s, KeyPress::Char('-'));
            &&& up == (State { interval: up.interval, ..s })
            &&& down == (State { interval: down.interval, ..s })
            &&& allowed(up.interval) && allowed(down.interval)
            &&& h > s.interval ==> s.interval < up.interval <= h
            &&& h < s.interval ==> h <= down.interval < s.interval
            &&& pressed(s, KeyPress::Char('=')) == up
        }),
{
    crate::interval::lemma_next(s.interval, h);
    lemma_interval_steps(s.interval);
}

/// Backspace and Delete take back what was typed last.
pub proof fn lemma_typing_undone(s: State, c: char)
    requires
        s.searching,
        !s.kill_mode,
        !s.kill_confirming,
        ' ' <= c <= '~',
    ensures
        pressed(s, KeyPress::Char(c)) == (State { filter_string: s.filter_string.push(c), ..s }),
        pressed(pressed(s, KeyPress::Char(c)), KeyPress::Backspace) == s,
        pressed(pressed(s, KeyPress::Char(c)), KeyPress::Delete) == s,
        s.filter_string.len() == 0 ==> pressed(s, KeyPress::Backspace) == s,
        pressed(s, KeyPress::Enter) == (State { searching: false, ..s }),
        pressed(s, KeyPress::Esc) == (State { filter_string: seq![], searching: false, ..s }),
{
    assert(s.filter_string.push(c).drop_last() =~= s.filter_string);
    assert(pressed(pressed(s, KeyPress::Char(c)), KeyPress::Backspace) =~= s);
    assert(pressed(pressed(s, KeyPress::Char(c)), KeyPress::Delete) =~= s);
}

/// Whatever a key changes is drawn.
pub proof fn lemma_changes_drawn(s: State, key: KeyPress)
    requires
        !dirties(s, key),
        coherent(s),
    ensures
        pressed(s, key) == s,
        kills(s, key) is None,
{
    assert(pressed(s, key) =~= s);
}

/// New rows and figures are shown as they come; without new ones the old ones
/// are. The rows of the table follow from them, and where nobody is killing or
/// searching, the place in the table is kept, as far as there are rows.
pub proof fn lemma_refresh_shows(s: State, rows: Seq<ProcInfo>, info: SystemInfo)
    ensures
        ({
            let r = refreshed(s, Some((rows, info)));
            &&& r.raw_data == rows
            &&& r.system_info == info
            &&& r.filtered_raw == (State { raw_data: rows, system_info: info, ..s }).table()
            &&& browsing(s) && s.scroll_pos + s.page() <= r.filtered_raw.len() ==> r.scroll_pos
                == s.scroll_pos
            &&& browsing(s) && s.scroll_pos + s.page() > r.filtered_raw.len() ==> r.scroll_pos == (
            if r.filtered_raw.len() > s.page() {
                r.filtered_raw.len() - s.page()
            } else {
                0
            })
            &&& s.searching ==> r.scroll_pos == 0
            &&& r == (State {
                raw_data: rows,
                system_info: info,
                filtered_raw: r.filtered_raw,
                widths: r.widths,
                scroll_pos: r.scroll_pos,
                kill_selected: r.kill_selected,
                ..s
            })
            &&& !s.kill_mode ==> r.kill_selected == s.kill_selected
            &&& r.widths == with_widths(State { filtered_raw: r.filtered_raw, ..s }).widths
        }),
        refreshed(s, None).raw_data == s.raw_data,
        refreshed(s, None).system_info == s.system_info,
        refreshed(s, None).filtered_raw == s.table(),
{
    let r = refreshed(s, Some((rows, info)));
    let t = laid_out(State { raw_data: rows, system_info: info, ..s });
    assert(r.widths == t.widths);
    lemma_widths_follow(
        State { raw_data: rows, system_info: info, ..s }.with_table(),
        State { filtered_raw: r.filtered_raw, ..s },
    );
}

/// The screen is drawn when something changed, when there is new data that may
/// be shown, and when the interval is over: a tenth of a second while something
/// is killed or searched for.
pub proof fn lemma_redrawn(s: State, got_data: bool, dirty: bool, elapsed: nat)
    ensures
        dirty ==> redraws(s, got_data, dirty, elapsed),
        got_data && !s.kill_mode && !s.kill_confirming ==> redraws(s, got_data, dirty, elapsed),
        !dirty && (!got_data || s.kill_mode || s.kill_confirming) && browsing(s) ==> redraws(
            s,
            got_data,
            dirty,
            elapsed,
        ) == (elapsed >= s.interval * 10_000_000),
        !dirty && (!got_data || s.kill_mode || s.kill_confirming) && !browsing(s) ==> redraws(
            s,
            got_data,
            dirty,
            elapsed,
        ) == (elapsed >= 100_000_000),
        takes_data(s) == (!s.kill_mode && !s.kill_confirming),
{
}

/// The size of the terminal is what it is.
pub proof fn lemma_resized(s: State, w: u16, h: u16)
    ensures
        resized(s, Some((w, h))).term_width == w,
        resized(s, Some((w, h))).term_height == h,
        resized(s, None) == s,
        s.term_width == w && s.term_height == h ==> resized(s, Some((w, h))) == s,
        ({
            let r = resized(s, Some((w, h)));
            r == (State {
                term_width: w as nat,
                term_height: h as nat,
                widths: r.widths,
                ..s
            })
        }),
        s.term_width != w || s.term_height != h ==> resized(s, Some((w, h))).widths == with_widths(
            s,
        ).widths,
{
    if s.term_width != w || s.term_height != h {
        lemma_widths_follow(State { term_width: w as nat, term_height: h as nat, ..s }, s);
    }
}

/// In kill mode the table is scrolled just far enough that the selection is on
/// the screen: not at all where it is, to it where it is above, and by as little
/// as possible where it is below.
pub proof fn lemma_selection_followed(s: State)
    requires
        s.kill_mode,
        !s.searching,
        s.page() > 0,
        s.kill_selected < s.table().len(),
        s.scroll_pos + s.page() <= s.table().len(),
    ensures
        ({
            let r = refreshed(s, None);
            &&& r.kill_selected == s.kill_selected
            &&& s.kill_selected < s.scroll_pos && s.kill_selected + s.page() <= s.table().len()
                ==> r.scroll_pos == s.kill_selected
            &&& s.scroll_pos <= s.kill_selected < s.scroll_pos + s.page() ==> r.scroll_pos
                == s.scroll_pos
            &&& s.kill_selected >= s.scroll_pos + s.page() ==> r.scroll_pos == s.kill_selected
                - s.page() + 1
        }),
{
}

/// A response says whether to draw and whether to end, and which processes and
/// threads to terminate: those that are marked, after a yes, and none otherwise.
pub proof fn lemma_response(r: Response, s: State, key: KeyPress)
    requires
        responds(r, s, key),
    ensures
        r.quit == (browsing(s) && (key == KeyPress::Char('q') || key == KeyPress::Char('Q'))),
        r.kill is Some == (s.kill_confirming && (key == KeyPress::Char('y') || key
            == KeyPress::Char('Y'))),
        r.kill matches Some(set) ==> set@ == s.marked_pids,
        !r.dirty && coherent(s) ==> pressed(s, key) == s,
{
    if !r.dirty && coherent(s) {
        lemma_changes_drawn(s, key);
    }
}

/// Esc leaves kill mode with nothing marked, and changes nothing else.
pub proof fn lemma_kill_mode_left(s: State)
    requires
        s.kill_mode,
        !s.kill_confirming,
    ensures
        pressed(s, KeyPress::Esc) == (State { kill_mode: false, marked_pids: Set::empty(), ..s }),
        dirties(s, KeyPress::Esc),
{
}

/// Keys without a meaning change nothing and ask for nothing.
pub proof fn lemma_other_keys(s: State, key: KeyPress)
    requires
        !s.kill_confirming,
        s.kill_mode ==> match key {
            KeyPress::Esc | KeyPress::Up | KeyPress::Down | KeyPress::Enter => false,
            KeyPress::Char(c) => c != ' ',
            _ => true,
        },
        !s.kill_mode && s.searching ==> match key {
            KeyPress::Esc | KeyPress::Enter | KeyPress::Backspace | KeyPress::Delete => false,
            KeyPress::Char(c) => !(' ' <= c <= '~'),
            _ => true,
        },
        !s.kill_mode && !s.searching ==> match key {
            KeyPress::Esc | KeyPress::Up | KeyPress::Down | KeyPress::Left | KeyPress::Right => false,
            KeyPress::Function(n) => n != 9,
            KeyPress::Char(c) => c != '/' && c != 'k' && c != 't' && c != 'T' && c != 'h' && c != 'H'
                && c != 'm' && c != 'M' && c != '+' && c != '=' && c != '-' && c != 'q' && c != 'Q'
                && !('1' <= c <= '8'),
            _ => true,
        },
    ensures
        pressed(s, key) == s,
        !dirties(s, key),
        !quits(s, key),
        kills(s, key) is None,
{
}

} // verus!
