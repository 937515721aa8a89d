//! The state of the user interface.

use crate::color::fraction;
use crate::double::{less, saturated, times, truncated, whole, Double};
use crate::filter::{flat_rows, lemma_filter, needle_of, passes, passing, selected};
use crate::interval::allowed;
use crate::order::{
    arranged, column_key, key_of, lemma_sorted_order, lemma_sorted_rows, row_less, sorted,
};
use crate::process::{rows_wf, ProcInfo, SystemInfo};
use crate::procfs::{entry_or, MemInfo};
use crate::text::{lowercase, occurs, signed_decimal, text_less};
use crate::tree::{
    chain, distinct, from_table, is_process, kept, lemma_chain_from, lemma_kept_matches, lemma_kept_unfiltered,
    lemma_listed_by_chain, lemma_listed_from_table, lemma_listed_once, lemma_match_kept,
    lemma_parent_kept, listing, tree_rows, Tree,
};
use std::collections::HashSet;
use vstd::prelude::*;

verus! {

broadcast use vstd::std_specs::hash::group_hash_axioms;

/// The memory that is assumed where the machine does not tell: 16 GiB, in
/// kibibytes.
pub const USUAL_MEM: u64 = 0x100_0000;

/// The swap that is assumed where the machine does not tell: 32 GiB, in
/// kibibytes.
pub const USUAL_SWAP: u64 = 0x200_0000;

/// The user interface.
pub struct App {
    pub term_width: usize,
    pub term_height: usize,
    /// The update interval, in hundredths of a second.
    pub interval: u32,
    pub no_color: bool,
    pub current_user: String,
    pub mem_total_bytes: u64,
    pub limit_red_bytes: u64,
    pub swap_total_bytes: u64,
    /// All rows, as they were gathered.
    pub raw_data: Vec<ProcInfo>,
    /// The rows of the table, in its order.
    pub filtered_raw: Vec<ProcInfo>,
    pub widths: Vec<usize>,
    pub sort_col: usize,
    pub sort_reverse: bool,
    pub filter_string: String,
    pub searching: bool,
    pub kill_mode: bool,
    pub kill_selected: usize,
    pub marked_pids: HashSet<i32>,
    pub kill_confirming: bool,
    pub cmd_offset: usize,
    pub tree_mode: bool,
    pub thread_mode: bool,
    pub show_kernel: bool,
    pub collapsed_pids: HashSet<i32>,
    pub system_info: SystemInfo,
    pub scroll_pos: usize,
    pub mem_override: bool,
}

/// What the user interface holds.
#[verifier::ext_equal]
pub struct State {
    pub term_width: nat,
    pub term_height: nat,
    pub interval: u32,
    pub no_color: bool,
    pub current_user: Seq<char>,
    pub mem_total_bytes: u64,
    pub limit_red_bytes: u64,
    pub swap_total_bytes: u64,
    pub raw_data: Seq<ProcInfo>,
    pub filtered_raw: Seq<ProcInfo>,
    pub widths: Seq<nat>,
    pub sort_col: usize,
    pub sort_reverse: bool,
    pub filter_string: Seq<char>,
    pub searching: bool,
    pub kill_mode: bool,
    pub kill_selected: nat,
    pub marked_pids: Set<i32>,
    pub kill_confirming: bool,
    pub cmd_offset: nat,
    pub tree_mode: bool,
    pub thread_mode: bool,
    pub show_kernel: bool,
    pub collapsed_pids: Set<i32>,
    pub system_info: SystemInfo,
    pub scroll_pos: nat,
    pub mem_override: bool,
}

/// Lengths as natural numbers.
pub open spec fn lengths(v: Seq<usize>) -> Seq<nat> {
    v.map_values(|n: usize| n as nat)
}

impl View for App {
    type V = State;

    open spec fn view(&self) -> State {
        State {
            term_width: self.term_width as nat,
            term_height: self.term_height as nat,
            interval: self.interval,
            no_color: self.no_color,
            current_user: self.current_user@,
            mem_total_bytes: self.mem_total_bytes,
            limit_red_bytes: self.limit_red_bytes,
            swap_total_bytes: self.swap_total_bytes,
            raw_data: self.raw_data@,
            filtered_raw: self.filtered_raw@,
            widths: lengths(self.widths@),
            sort_col: self.sort_col,
            sort_reverse: self.sort_reverse,
            filter_string: self.filter_string@,
            searching: self.searching,
            kill_mode: self.kill_mode,
            kill_selected: self.kill_selected as nat,
            marked_pids: self.marked_pids@,
            kill_confirming: self.kill_confirming,
            cmd_offset: self.cmd_offset as nat,
            tree_mode: self.tree_mode,
            thread_mode: self.thread_mode,
            show_kernel: self.show_kernel,
            collapsed_pids: self.collapsed_pids@,
            system_info: self.system_info,
            scroll_pos: self.scroll_pos as nat,
            mem_override: self.mem_override,
        }
    }
}

impl State {
    /// The interval is an allowed one, there are eight columns, the command
    /// column is scrolled by at most 2000 characters, and all numbers are of
    /// ordinary size.
    pub open spec fn valid(self) -> bool {
        &&& allowed(self.interval)
        &&& self.sort_col < 8
        &&& self.widths.len() == 8
        &&& self.cmd_offset <= 2000
        &&& rows_wf(self.raw_data)
        &&& rows_wf(self.filtered_raw)
        &&& self.system_info.wf()
    }

    /// How many rows of the table fit on the screen.
    pub open spec fn page(self) -> nat {
        if self.term_height > 3 {
            (self.term_height - 3) as nat
        } else {
            0
        }
    }

    /// How far the table can be scrolled.
    pub open spec fn max_scroll(self) -> nat {
        if self.filtered_raw.len() > self.page() {
            (self.filtered_raw.len() - self.page()) as nat
        } else {
            0
        }
    }

    /// The rows as a tree.
    pub open spec fn tree(self) -> Tree {
        Tree {
            rows: self.raw_data,
            shown: kept(self.raw_data, self.filter_string),
            collapsed: self.collapsed_pids,
            thread_mode: self.thread_mode,
        }
    }

    /// The rows of the table: the tree, or the rows that pass the filter, in the
    /// order of the chosen column.
    pub open spec fn table(self) -> Seq<ProcInfo> {
        if self.tree_mode {
            listing(self.tree())
        } else {
            arranged(
                selected(self.raw_data, self.filter_string),
                column_key(self.sort_col),
                self.sort_reverse,
            )
        }
    }

    /// Whether `a` may stand before `b` by the chosen column.
    pub open spec fn in_order(self, a: ProcInfo, b: ProcInfo) -> bool {
        if self.sort_reverse {
            !row_less(column_key(self.sort_col), a, b)
        } else {
            !row_less(column_key(self.sort_col), b, a)
        }
    }

    /// With the rows of the table brought up to date.
    pub open spec fn with_table(self) -> State {
        State { filtered_raw: self.table(), ..self }
    }

    /// With the entry of a process or thread marked, or no longer marked if it
    /// was.
    pub open spec fn toggled(self, id: i32) -> State {
        State {
            marked_pids: if self.marked_pids.contains(id) {
                self.marked_pids.remove(id)
            } else {
                self.marked_pids.insert(id)
            },
            ..self
        }
    }

    /// With the selection moved on by one row.
    pub open spec fn advanced(self) -> State {
        State {
            kill_selected: if self.kill_selected + 1 < self.filtered_raw.len() {
                self.kill_selected + 1
            } else if self.filtered_raw.len() > 0 {
                (self.filtered_raw.len() - 1) as nat
            } else {
                0
            },
            ..self
        }
    }

    /// Scrolled down just far enough that the selection is on the screen.
    pub open spec fn scrolled_to_selection(self) -> State {
        if self.kill_selected >= self.scroll_pos + self.page() {
            State {
                scroll_pos: if self.kill_selected > self.page() {
                    (self.kill_selected - self.page() + 1) as nat
                } else {
                    1
                },
                ..self
            }
        } else {
            self
        }
    }

    /// With the selected entry marked, or no longer marked if it was, and the
    /// selection moved on.
    pub open spec fn marked_and_advanced(self) -> State {
        if self.kill_selected < self.filtered_raw.len() {
            self.toggled(
                self.filtered_raw[self.kill_selected as int].id(),
            ).advanced().scrolled_to_selection()
        } else {
            self
        }
    }
}

/// The memory in use from which on a process is shown in red: 99 percent.
pub open spec fn red_from(mem_total: u64) -> u64 {
    saturated(truncated(times(whole(mem_total as int), fraction(99, 100))))
}

/// The state at the start.
pub open spec fn initial(
    interval: u32,
    no_color: bool,
    size: Option<(u16, u16)>,
    meminfo: Map<Seq<char>, u64>,
    user: Seq<char>,
    info: SystemInfo,
) -> State {
    let mem_total = entry_or(meminfo, "MemTotal"@, USUAL_MEM).wrapping_mul(1024);
    State {
        term_width: match size {
            Some((w, h)) => w as nat,
            None => 80,
        },
        term_height: match size {
            Some((w, h)) => h as nat,
            None => 24,
        },
        interval,
        no_color,
        current_user: user,
        mem_total_bytes: mem_total,
        limit_red_bytes: red_from(mem_total),
        swap_total_bytes: entry_or(meminfo, "SwapTotal"@, USUAL_SWAP).wrapping_mul(1024),
        raw_data: seq![],
        filtered_raw: seq![],
        widths: Seq::new(8, |i: int| 0nat),
        sort_col: 3,
        sort_reverse: true,
        filter_string: seq![],
        searching: false,
        kill_mode: false,
        kill_selected: 0,
        marked_pids: Set::empty(),
        kill_confirming: false,
        cmd_offset: 0,
        tree_mode: false,
        thread_mode: false,
        show_kernel: false,
        collapsed_pids: Set::empty(),
        system_info: info,
        scroll_pos: 0,
        mem_override: false,
    }
}

/// The name of the user: who called `sudo`, or else who logged in.
pub open spec fn user_name(sudo_user: Option<String>, user: Option<String>) -> Seq<char> {
    match sudo_user {
        Some(name) => name@,
        None => match user {
            Some(name) => name@,
            None => seq![],
        },
    }
}

/// A table of well-formed rows consists of well-formed rows.
pub proof fn lemma_table_wf(s: State)
    requires
        rows_wf(s.raw_data),
    ensures
        rows_wf(s.table()),
{
    let rows = s.raw_data;
    let t = s.table();
    assert forall|i: int| 0 <= i < t.len() implies (#[trigger] t[i]).wf() by {
        if s.tree_mode {
            lemma_listed_from_table(s.tree());
            assert(from_table(s.tree(), listing(s.tree())[i]));
            let p = choose|p: ProcInfo| #[trigger]
                rows.contains(p) && t[i] == p.placed(
                    t[i].tree_depth,
                    t[i].tree_mask,
                    t[i].is_last_child,
                );
            let k = choose|k: int| 0 <= k < rows.len() && rows[k] == p;
            assert(rows[k].wf());
        } else {
            let chosen = selected(rows, s.filter_string);
            let key = column_key(s.sort_col);
            lemma_sorted_rows(chosen, key);
            let o = sorted(chosen, key);
            assert(o.contains(t[i])) by {
                if s.sort_reverse {
                    assert(t[i] == o[o.len() - 1 - i]);
                } else {
                    assert(t[i] == o[i]);
                }
            }
            assert(chosen.contains(t[i]));
            lemma_filter(rows, passing(needle_of(s.filter_string)), t[i]);
            assert(rows.contains(t[i]));
            let k = choose|k: int| 0 <= k < rows.len() && rows[k] == t[i];
            assert(rows[k].wf());
        }
    }
}

/// Outside of the tree, the table holds the rows that pass the filter and no
/// others, none of them lost or doubled, and they stand in the order of the
/// chosen column.
pub proof fn lemma_table_flat(s: State)
    requires
        !s.tree_mode,
    ensures
        forall|p: ProcInfo| #[trigger]
            s.table().contains(p) <==> s.raw_data.contains(p) && (s.filter_string.len() == 0
                || passes(p, needle_of(s.filter_string))),
        s.table().to_multiset() == selected(s.raw_data, s.filter_string).to_multiset(),
        forall|j: int, k: int|
            0 <= j < k < s.table().len() ==> s.in_order(
                #[trigger] s.table()[j],
                #[trigger] s.table()[k],
            ),
{
    let chosen = selected(s.raw_data, s.filter_string);
    let key = column_key(s.sort_col);
    let o = sorted(chosen, key);
    let t = s.table();
    lemma_sorted_rows(chosen, key);
    o.lemma_reverse_to_multiset();
    assert forall|p: ProcInfo| #[trigger] t.contains(p) <==> s.raw_data.contains(p) && (
    s.filter_string.len() == 0 || passes(p, needle_of(s.filter_string))) by {
        lemma_filter(s.raw_data, passing(needle_of(s.filter_string)), p);
        if s.sort_reverse {
            if t.contains(p) {
                let i = choose|i: int| 0 <= i < t.len() && t[i] == p;
                assert(o[o.len() - 1 - i] == p);
            }
            if o.contains(p) {
                let i = choose|i: int| 0 <= i < o.len() && o[i] == p;
                assert(t[t.len() - 1 - i] == p);
            }
        }
    }
    assert forall|j: int, k: int| 0 <= j < k < t.len() implies s.in_order(
        #[trigger] t[j],
        #[trigger] t[k],
    ) by {
        if s.sort_reverse {
            lemma_sorted_order(chosen, key, o.len() - 1 - k, o.len() - 1 - j);
        } else {
            lemma_sorted_order(chosen, key, j, k);
        }
    }
}

impl App {
    pub open spec fn wf(self) -> bool {
        self@.valid()
    }

    /// The user interface at the start. `size` is that of the terminal if it is
    /// known, `meminfo` what is known of the memory of the machine.
    pub fn new(
        interval: u32,
        no_color: bool,
        size: Option<(u16, u16)>,
        meminfo: &MemInfo,
        sudo_user: Option<String>,
        user: Option<String>,
    ) -> (app: App)
        requires
            allowed(interval),
        ensures
            app@ == initial(
                interval,
                no_color,
                size,
                meminfo@,
                user_name(sudo_user, user),
                app.system_info,
            ),
            app.system_info.cpu_percent@ == crate::double::zero(),
            app.system_info.mem_percent@ == crate::double::zero(),
            app.system_info.swap_percent@ == crate::double::zero(),
            app.system_info.load@.len() == 0,
            app.system_info.uptime@.len() == 0,
            app.system_info.tasks@.len() == 0,
            app.wf(),
    {
        let (w, h): (u16, u16) = match size {
            Some(s) => s,
            None => (80, 24),
        };
        let mem_total_bytes: u64 = meminfo.get_or("MemTotal", USUAL_MEM).wrapping_mul(1024);
        let swap_total_bytes: u64 = meminfo.get_or("SwapTotal", USUAL_SWAP).wrapping_mul(
            1024,
        );
        let limit_red_bytes: u64 = Double::from_int(mem_total_bytes as i128).times(
            Double::ratio(99, 100),
        ).truncated();
        let current_user = match sudo_user {
            Some(name) => name,
            None => match user {
                Some(name) => name,
                None => String::new(),
            },
        };
        let mut widths: Vec<usize> = Vec::new();
        let mut i: usize = 0;
        while i < 8
            invariant
                i <= 8,
                widths@.len() == i,
                forall|k: int| 0 <= k < i ==> widths@[k] == 0,
            decreases 8 - i,
        {
            widths.push(0);
            i = i + 1;
        }
        let app = App {
            term_width: w as usize,
            term_height: h as usize,
            interval,
            no_color,
            current_user,
            mem_total_bytes,
            limit_red_bytes,
            swap_total_bytes,
            raw_data: Vec::new(),
            filtered_raw: Vec::new(),
            widths,
            sort_col: 3,
            sort_reverse: true,
            filter_string: String::new(),
            searching: false,
            kill_mode: false,
            kill_selected: 0,
            marked_pids: HashSet::new(),
            kill_confirming: false,
            cmd_offset: 0,
            tree_mode: false,
            thread_mode: false,
            show_kernel: false,
            collapsed_pids: HashSet::new(),
            system_info: SystemInfo::default(),
            scroll_pos: 0,
            mem_override: false,
        };
        proof {
            assert(app@ =~= initial(
                interval,
                no_color,
                size,
                meminfo@,
                user_name(sudo_user, user),
                app.system_info,
            ));
        }
        app
    }

    /// How many rows of the table fit on the screen.
    pub fn page(&self) -> (n: usize)
        ensures
            n == self@.page(),
    {
        if self.term_height > 3 {
            self.term_height - 3
        } else {
            0
        }
    }

    /// How far the table can be scrolled.
    pub fn max_scroll(&self) -> (n: usize)
        ensures
            n == self@.max_scroll(),
    {
        let page = self.page();
        if self.filtered_raw.len() > page {
            self.filtered_raw.len() - page
        } else {
            0
        }
    }

    /// Marks the selected entry, or no longer marks it if it was marked, and
    /// moves the selection on.
    pub fn mark_and_advance(&mut self)
        ensures
            final(self)@ == old(self)@.marked_and_advanced(),
    {
        let ghost start = self@;
        if self.kill_selected < self.filtered_raw.len() {
            let id = self.filtered_raw[self.kill_selected].signal_id();
            if self.marked_pids.contains(&id) {
                self.marked_pids.remove(&id);
            } else {
                self.marked_pids.insert(id);
            }
            proof {
                assert(self@ =~= start.toggled(id));
            }
            self.advance();
            self.scroll_to_selection();
        }
    }

    /// Moves the selection on by one row.
    pub(crate) fn advance(&mut self)
        ensures
            final(self)@ == old(self)@.advanced(),
    {
        let ghost start = self@;
        let n: usize = self.filtered_raw.len();
        if n == 0 {
            self.kill_selected = 0;
        } else if self.kill_selected < n - 1 {
            self.kill_selected = self.kill_selected + 1;
        } else {
            self.kill_selected = n - 1;
        }
        proof {
            assert(self@ =~= start.advanced());
        }
    }

    /// Scrolls down just far enough that the selection is on the screen.
    pub(crate) fn scroll_to_selection(&mut self)
        requires
            old(self).kill_selected < usize::MAX,
        ensures
            final(self)@ == old(self)@.scrolled_to_selection(),
    {
        let ghost start = self@;
        let page = self.page();
        if self.kill_selected >= self.scroll_pos && self.kill_selected - self.scroll_pos >= page {
            self.scroll_pos = if self.kill_selected > page {
                self.kill_selected - page + 1
            } else {
                1
            };
        }
        proof {
            assert(self@ =~= start.scrolled_to_selection());
        }
    }

    /// Brings the rows of the table up to date.
    pub fn apply_filter_and_sort(&mut self)
        requires
            old(self).wf(),
        ensures
            final(self)@ == old(self)@.with_table(),
            final(self).wf(),
    {
        let ghost start = self@;
        self.filtered_raw = if self.tree_mode {
            tree_rows(
                &self.raw_data,
                self.filter_string.as_str(),
                &self.collapsed_pids,
                self.thread_mode,
            )
        } else {
            flat_rows(
                &self.raw_data,
                self.filter_string.as_str(),
                key_of(self.sort_col),
                self.sort_reverse,
            )
        };
        proof {
            lemma_table_wf(start);
            assert(self@ =~= start.with_table());
        }
    }
}

// Which rows the table has

proof fn lemma_filter_counts(rows: Seq<ProcInfo>, pred: spec_fn(ProcInfo) -> bool, p: ProcInfo)
    ensures
        rows.filter(pred).to_multiset().count(p) == (if pred(p) {
            rows.to_multiset().count(p)
        } else {
            0
        }),
    decreases rows.len(),
{
    broadcast use vstd::seq_lib::group_to_multiset_ensures;

    reveal(Seq::filter);
    if rows.len() > 0 {
        let r = rows.drop_last();
        lemma_filter_counts(r, pred, p);
        assert(rows =~= r.push(rows.last()));
    }
}

/// Outside of the tree the table has each row as often as it was gathered if its
/// command line, its user or its number holds the filter text, and no other row;
/// upper and lower case make no difference. Without a text it has all rows.
pub proof fn lemma_table_filtered(s: State, p: ProcInfo)
    requires
        !s.tree_mode,
    ensures
        s.filter_string.len() == 0 ==> s.table().to_multiset().count(p)
            == s.raw_data.to_multiset().count(p),
        s.filter_string.len() > 0 ==> s.table().to_multiset().count(p) == (if occurs(
            lowercase(p.full_cmd@),
            lowercase(s.filter_string),
        ) || occurs(lowercase(p.user@), lowercase(s.filter_string)) || occurs(
            signed_decimal(p.pid as int),
            lowercase(s.filter_string),
        ) {
            s.raw_data.to_multiset().count(p)
        } else {
            0
        }),
{
    lemma_table_flat(s);
    lemma_filter_counts(s.raw_data, passing(needle_of(s.filter_string)), p);
}

/// Outside of the tree the rows stand in the order of the chosen column: by the
/// number of the process, the user, the command, the proportional, unique and
/// resident memory, the swap or the share of the processors; upwards, or
/// downwards if the order is reversed.
pub proof fn lemma_table_sorted(s: State, j: int, k: int)
    requires
        !s.tree_mode,
        0 <= j < k < s.table().len(),
    ensures
        ({
            let a = if s.sort_reverse {
                s.table()[k]
            } else {
                s.table()[j]
            };
            let b = if s.sort_reverse {
                s.table()[j]
            } else {
                s.table()[k]
            };
            &&& s.sort_col == 0 ==> a.pid <= b.pid
            &&& s.sort_col == 1 ==> !text_less(b.user@, a.user@)
            &&& s.sort_col == 2 ==> !text_less(b.cmd@, a.cmd@)
            &&& s.sort_col == 3 ==> a.pss_kb <= b.pss_kb
            &&& s.sort_col == 4 ==> a.uss_kb <= b.uss_kb
            &&& s.sort_col == 5 ==> a.rss_kb <= b.rss_kb
            &&& s.sort_col == 6 ==> a.swap_kb <= b.swap_kb
            &&& s.sort_col == 7 ==> !less(b.cpu_percent@, a.cpu_percent@)
        }),
{
    lemma_table_flat(s);
    assert(s.in_order(s.table()[j], s.table()[k]));
}

/// Reversing the order turns the table round.
pub proof fn lemma_table_reversed(s: State)
    requires
        !s.tree_mode,
    ensures
        (State { sort_reverse: !s.sort_reverse, ..s }).table() == s.table().reverse(),
{
    let t = State { sort_reverse: !s.sort_reverse, ..s };
    assert(t.table() =~= s.table().reverse());
}

/// In the tree, with a filter text, each process whose command line or number
/// holds the text is in the table, and so are all above it, where the processes
/// above it lead to the top and none is collapsed.
pub proof fn lemma_tree_match_shown(s: State, path: Seq<int>, k: int)
    requires
        s.tree_mode,
        s.filter_string.len() > 0,
        distinct(s.raw_data),
        chain(s.raw_data, path),
        0 <= k < path.len(),
        occurs(lowercase(s.raw_data[path[0]].full_cmd@), lowercase(s.filter_string)) || occurs(
            signed_decimal(s.raw_data[path[0]].pid as int),
            lowercase(s.filter_string),
        ),
        s.raw_data[path.last()].ppid == 0 || forall|i: int|
            0 <= i < s.raw_data.len() && !(#[trigger] s.raw_data[i]).is_thread
                ==> s.raw_data[i].pid != s.raw_data[path.last()].ppid,
        s.collapsed_pids == Set::<i32>::empty(),
    ensures
        exists|i: int|
            0 <= i < s.table().len() && !(#[trigger] s.table()[i]).is_thread && s.table()[i].pid
                == s.raw_data[path[k]].pid,
{
    let t = s.tree();
    let up = path.skip(k);
    lemma_chain_kept(s.raw_data, s.filter_string, path, path.len() - 1);
    lemma_chain_from(s.raw_data, path, k);
    assert forall|x: int| 0 <= x < up.len() implies t.shown.contains(
        t.rows[#[trigger] up[x]].pid,
    ) by {
        assert(up[x] == path[k + x]);
    }
    lemma_listed_by_chain(t, up);
    assert(s.table() == listing(t));
}

proof fn lemma_chain_kept(rows: Seq<ProcInfo>, filter: Seq<char>, path: Seq<int>, n: int)
    requires
        filter.len() > 0,
        distinct(rows),
        chain(rows, path),
        0 <= n < path.len(),
        occurs(lowercase(rows[path[0]].full_cmd@), lowercase(filter)) || occurs(
            signed_decimal(rows[path[0]].pid as int),
            lowercase(filter),
        ),
    ensures
        forall|k: int| 0 <= k <= n ==> kept(rows, filter).contains(rows[#[trigger] path[k]].pid),
    decreases n,
{
    if n == 0 {
        lemma_match_kept(rows, filter, path[0]);
    } else {
        lemma_chain_kept(rows, filter, path, n - 1);
        assert(path[n - 1] == path[n - 1]);
        lemma_parent_kept(rows, filter, path[n - 1], path[n]);
    }
}

/// In the tree, with a filter text, a process in the table is one whose command
/// line or number holds the text, or stands above one.
pub proof fn lemma_tree_shown_matches(s: State, i: int)
    requires
        s.tree_mode,
        s.filter_string.len() > 0,
        distinct(s.raw_data),
        0 <= i < s.table().len(),
        !s.table()[i].is_thread,
    ensures
        exists|path: Seq<int>| #[trigger]
            chain(s.raw_data, path) && s.raw_data[path.last()].pid == s.table()[i].pid && (occurs(
                lowercase(s.raw_data[path[0]].full_cmd@),
                lowercase(s.filter_string),
            ) || occurs(
                signed_decimal(s.raw_data[path[0]].pid as int),
                lowercase(s.filter_string),
            )),
{
    lemma_listed_once(s.tree());
    lemma_kept_matches(s.raw_data, s.filter_string, s.table()[i].pid);
}

/// In the tree, without a filter text, each process is in the table whose
/// processes above it lead to the top, if none is collapsed.
pub proof fn lemma_tree_complete(s: State, path: Seq<int>)
    requires
        s.tree_mode,
        s.filter_string.len() == 0,
        chain(s.raw_data, path),
        s.raw_data[path.last()].ppid == 0 || forall|i: int|
            0 <= i < s.raw_data.len() && !(#[trigger] s.raw_data[i]).is_thread
                ==> s.raw_data[i].pid != s.raw_data[path.last()].ppid,
        s.collapsed_pids == Set::<i32>::empty(),
    ensures
        exists|i: int|
            0 <= i < s.table().len() && !(#[trigger] s.table()[i]).is_thread && s.table()[i].pid
                == s.raw_data[path[0]].pid,
{
    assert(s.filter_string =~= seq![]);
    assert forall|k: int| 0 <= k < path.len() implies s.tree().shown.contains(
        s.raw_data[#[trigger] path[k]].pid,
    ) by {
        lemma_kept_unfiltered(s.raw_data, s.raw_data[path[k]].pid);
        assert(is_process(s.raw_data[path[k]], s.raw_data[path[k]].pid));
    }
    lemma_listed_by_chain(s.tree(), path);
    assert(s.table() == listing(s.tree()));
}

/// At the start the table is empty and sorted by proportional memory, the largest
/// first; nothing is filtered, marked or switched on. The terminal has the size
/// it has, or 80 columns and 24 lines; the memory and the swap are those of the
/// machine, in bytes, or 16 and 32 gibibytes; and memory is red from 99 percent
/// of it on.
pub proof fn lemma_start(
    interval: u32,
    no_color: bool,
    size: Option<(u16, u16)>,
    meminfo: Map<Seq<char>, u64>,
    user: Seq<char>,
    info: SystemInfo,
)
    ensures
        ({
            let s = initial(interval, no_color, size, meminfo, user, info);
            &&& s.interval == interval && s.no_color == no_color && s.current_user == user
            &&& s.sort_col == 3 && s.sort_reverse
            &&& s.raw_data.len() == 0 && s.filtered_raw.len() == 0 && s.filter_string.len() == 0
            &&& !s.searching && !s.kill_mode && !s.kill_confirming && !s.tree_mode && !s.thread_mode
                && !s.show_kernel && !s.mem_override
            &&& s.marked_pids == Set::<i32>::empty() && s.collapsed_pids == Set::<i32>::empty()
            &&& s.scroll_pos == 0 && s.cmd_offset == 0 && s.kill_selected == 0
            &&& s.widths.len() == 8
            &&& size matches Some((w, h)) ==> s.term_width == w && s.term_height == h
            &&& size is None ==> s.term_width == 80 && s.term_height == 24
            &&& meminfo.contains_key("MemTotal"@) && meminfo["MemTotal"@] < 0x40_0000_0000_0000
                ==> s.mem_total_bytes == 1024 * meminfo["MemTotal"@]
            &&& !meminfo.contains_key("MemTotal"@) ==> s.mem_total_bytes == 16 * 1024 * 1024 * 1024
            &&& meminfo.contains_key("SwapTotal"@) && meminfo["SwapTotal"@] < 0x40_0000_0000_0000
                ==> s.swap_total_bytes == 1024 * meminfo["SwapTotal"@]
            &&& !meminfo.contains_key("SwapTotal"@) ==> s.swap_total_bytes == 32 * 1024 * 1024
                * 1024
            &&& s.limit_red_bytes == saturated(
                truncated(
                    times(whole(s.mem_total_bytes as int), crate::double::nearest(99, 100, 0)),
                ),
            )
        }),
{
}

/// The user at the terminal is the one who called `sudo`, or else the one who is
/// logged in.
pub proof fn lemma_user_name(sudo_user: Option<String>, user: Option<String>)
    ensures
        sudo_user matches Some(name) ==> user_name(sudo_user, user) == name@,
        sudo_user is None && user is Some ==> user_name(sudo_user, user) == (user->0)@,
        sudo_user is None && user is None ==> user_name(sudo_user, user).len() == 0,
{
}

} // verus!
