//! The processes as a tree: each below its parent, its threads below its
//! children.

use crate::filter::{lemma_filter, needle, needle_of, node_passes, passes_in_tree};
use crate::order::{lemma_sorted_order, lemma_sorted_rows, sort_rows, sorted, Key};
use crate::process::{rows_wf, ProcInfo};
use crate::text::{lowercase, occurs, occurs_at, signed_decimal};
use std::collections::HashSet;
use vstd::prelude::*;

verus! {

broadcast use vstd::std_specs::hash::group_hash_axioms;

/// Whether a row is the process of a number.
pub open spec fn is_process(p: ProcInfo, pid: i32) -> bool {
    !p.is_thread && p.pid == pid
}

/// Whether there is a process of that number.
pub open spec fn has_process(rows: Seq<ProcInfo>, pid: i32) -> bool {
    exists|i: int| 0 <= i < rows.len() && is_process(#[trigger] rows[i], pid)
}

/// The process of a number; the last one if there are several.
pub open spec fn process_of(rows: Seq<ProcInfo>, pid: i32) -> Option<ProcInfo>
    decreases rows.len(),
{
    if rows.len() == 0 {
        None
    } else if is_process(rows.last(), pid) {
        Some(rows.last())
    } else {
        process_of(rows.drop_last(), pid)
    }
}

/// The parent of a process, if it is among the rows.
pub open spec fn parent(rows: Seq<ProcInfo>, pid: i32) -> Option<i32> {
    match process_of(rows, pid) {
        Some(p) => if has_process(rows, p.ppid) {
            Some(p.ppid)
        } else {
            None
        },
        None => None,
    }
}

/// The parent of the parent, and so on, `n` times.
pub open spec fn ancestor(rows: Seq<ProcInfo>, pid: i32, n: nat) -> Option<i32>
    decreases n,
{
    if n == 0 {
        Some(pid)
    } else {
        match ancestor(rows, pid, (n - 1) as nat) {
            Some(x) => parent(rows, x),
            None => None,
        }
    }
}

/// The processes at the top: those whose parent is not among the rows.
pub open spec fn at_top(rows: Seq<ProcInfo>) -> spec_fn(ProcInfo) -> bool {
    |p: ProcInfo| !p.is_thread && (p.ppid == 0 || !has_process(rows, p.ppid))
}

/// The rows right below a process: its children or its threads.
pub open spec fn right_below(pid: i32, threads: bool) -> spec_fn(ProcInfo) -> bool {
    |p: ProcInfo| p.is_thread == threads && p.ppid == pid
}

/// The numbers of processes.
pub open spec fn pids(rows: Seq<ProcInfo>) -> Seq<i32> {
    rows.map_values(|p: ProcInfo| p.pid)
}

/// The processes at the top, in the order of the rows.
pub open spec fn roots(rows: Seq<ProcInfo>) -> Seq<i32> {
    pids(rows.filter(at_top(rows)))
}

/// The children of a process, in the order of their numbers.
pub open spec fn children(rows: Seq<ProcInfo>, pid: i32) -> Seq<i32> {
    pids(sorted(rows.filter(right_below(pid, false)), Key::Pid))
}

/// The threads of a process, in the order of their numbers.
pub open spec fn threads(rows: Seq<ProcInfo>, pid: i32) -> Seq<ProcInfo> {
    sorted(rows.filter(right_below(pid, true)), Key::Tid)
}

/// Whether a process of that number passes a filter by itself.
pub open spec fn matched(rows: Seq<ProcInfo>, needle: Seq<char>, pid: i32) -> bool {
    exists|i: int|
        0 <= i < rows.len() && is_process(#[trigger] rows[i], pid) && passes_in_tree(
            rows[i],
            needle,
        )
}

/// Whether a process passes the filter, or `widen` holds and one below it does.
pub open spec fn leads_to_match(
    rows: Seq<ProcInfo>,
    needle: Seq<char>,
    widen: bool,
    pid: i32,
) -> bool {
    exists|q: i32, n: nat|
        matched(rows, needle, q) && (n == 0 || widen) && #[trigger] ancestor(rows, q, n) == Some(
            pid,
        )
}

/// The processes that a filter text leaves in the tree: those that pass it, and
/// all above them.
pub open spec fn kept(rows: Seq<ProcInfo>, filter: Seq<char>) -> Set<i32> {
    Set::new(|pid: i32| leads_to_match(rows, needle_of(filter), filter.len() > 0, pid))
}

/// What a tree is made of.
pub struct Tree {
    pub rows: Seq<ProcInfo>,
    /// The processes that are shown.
    pub shown: Set<i32>,
    /// The processes below which nothing is shown.
    pub collapsed: Set<i32>,
    pub thread_mode: bool,
}

/// How many processes have not been visited.
pub open spec fn unvisited(rows: Seq<ProcInfo>, visited: Set<i32>) -> nat
    decreases rows.len(),
{
    if rows.len() == 0 {
        0
    } else {
        unvisited(rows.drop_last(), visited) + if !rows.last().is_thread && !visited.contains(
            rows.last().pid,
        ) {
            1nat
        } else {
            0
        }
    }
}

/// The columns in which a vertical line runs below a row.
pub open spec fn mask_below(depth: u8, mask: u32, last: bool) -> u32 {
    if last {
        mask
    } else {
        mask | (1u32 << ((depth % 32) as u32))
    }
}

/// The threads of a process, placed at a depth.
pub open spec fn placed_threads(ts: Seq<ProcInfo>, depth: u8, mask: u32) -> Seq<ProcInfo> {
    Seq::new(ts.len(), |i: int| ts[i].placed(depth, mask, i == ts.len() - 1))
}

/// The rows of a process and of all below it, and the processes visited by
/// then. A process that was visited before is not listed again.
pub open spec fn visit(
    t: Tree,
    pid: i32,
    depth: u8,
    mask: u32,
    last: bool,
    visited: Set<i32>,
) -> (Seq<ProcInfo>, Set<i32>)
    decreases unvisited(t.rows, visited), 0nat,
{
    match process_of(t.rows, pid) {
        Some(p) => if visited.contains(pid) || !t.shown.contains(pid) {
            (seq![], visited)
        } else if t.collapsed.contains(pid) {
            (seq![p.placed(depth, mask, last)], visited.insert(pid))
        } else {
            proof {
                lemma_process_of(t.rows, pid);
                lemma_unvisited_less(t.rows, visited, pid);
            }
            let below = mask_below(depth, mask, last);
            let next = depth.wrapping_add(1);
            let ts = threads(t.rows, pid);
            let cs = children(t.rows, pid);
            let v = visit_first(
                t,
                cs,
                cs.len(),
                next,
                below,
                ts.len() > 0,
                visited.insert(pid),
            );
            let tail = if t.thread_mode {
                placed_threads(ts, next, below)
            } else {
                seq![]
            };
            (seq![p.placed(depth, mask, last)] + v.0 + tail, v.1)
        },
        None => (seq![], visited),
    }
}

/// The rows of the first `k` of some processes and of all below them. The last
/// process is the last of its row of siblings unless there are `more`.
pub open spec fn visit_first(
    t: Tree,
    list: Seq<i32>,
    k: nat,
    depth: u8,
    mask: u32,
    more: bool,
    visited: Set<i32>,
) -> (Seq<ProcInfo>, Set<i32>)
    decreases unvisited(t.rows, visited), k + 1,
{
    if k == 0 {
        (seq![], visited)
    } else {
        let a = visit_first(t, list, (k - 1) as nat, depth, mask, more, visited);
        proof {
            lemma_unvisited_fewer(t.rows, visited, visited.union(a.1));
        }
        let b = visit(
            t,
            list[k - 1],
            depth,
            mask,
            k == list.len() && !more,
            visited.union(a.1),
        );
        (a.0 + b.0, b.1)
    }
}

/// The rows of the whole tree.
pub open spec fn listing(t: Tree) -> Seq<ProcInfo> {
    visit_first(t, roots(t.rows), roots(t.rows).len(), 0, 0, false, Set::empty()).0
}

/// A process is found if and only if there is one, and it is the one asked for.
pub proof fn lemma_process_of(rows: Seq<ProcInfo>, pid: i32)
    ensures
        (process_of(rows, pid) is Some) == has_process(rows, pid),
        match process_of(rows, pid) {
            Some(p) => rows.contains(p) && is_process(p, pid),
            None => true,
        },
    decreases rows.len(),
{
    if rows.len() > 0 {
        let r = rows.drop_last();
        lemma_process_of(r, pid);
        if is_process(rows.last(), pid) {
            assert(rows[rows.len() - 1] == rows.last());
        } else {
            if has_process(r, pid) {
                let i = choose|i: int| 0 <= i < r.len() && is_process(#[trigger] r[i], pid);
                assert(is_process(rows[i], pid));
                let p = process_of(r, pid)->0;
                let k = choose|k: int| 0 <= k < r.len() && r[k] == p;
                assert(rows[k] == p);
            }
            if has_process(rows, pid) {
                let i = choose|i: int| 0 <= i < rows.len() && is_process(#[trigger] rows[i], pid);
                assert(r[i] == rows[i]);
            }
        }
    }
}

/// The more processes were visited, the fewer are left.
pub proof fn lemma_unvisited_fewer(rows: Seq<ProcInfo>, a: Set<i32>, b: Set<i32>)
    requires
        a.subset_of(b),
    ensures
        unvisited(rows, b) <= unvisited(rows, a),
    decreases rows.len(),
{
    if rows.len() > 0 {
        lemma_unvisited_fewer(rows.drop_last(), a, b);
    }
}

/// One more visit leaves fewer processes.
pub proof fn lemma_unvisited_less(rows: Seq<ProcInfo>, visited: Set<i32>, pid: i32)
    requires
        has_process(rows, pid),
        !visited.contains(pid),
    ensures
        unvisited(rows, visited.insert(pid)) < unvisited(rows, visited),
    decreases rows.len(),
{
    let i = choose|i: int| 0 <= i < rows.len() && is_process(#[trigger] rows[i], pid);
    let r = rows.drop_last();
    if i < rows.len() - 1 {
        assert(is_process(r[i], pid));
        lemma_unvisited_less(r, visited, pid);
    } else {
        lemma_unvisited_fewer(r, visited, visited.insert(pid));
    }
}

proof fn lemma_visit_grows(
    t: Tree,
    pid: i32,
    depth: u8,
    mask: u32,
    last: bool,
    visited: Set<i32>,
)
    ensures
        visited.subset_of(visit(t, pid, depth, mask, last, visited).1),
    decreases unvisited(t.rows, visited), 0nat,
{
    lemma_process_of(t.rows, pid);
    if process_of(t.rows, pid) is Some && !visited.contains(pid) && t.shown.contains(pid)
        && !t.collapsed.contains(pid) {
        lemma_unvisited_less(t.rows, visited, pid);
        let cs = children(t.rows, pid);
        lemma_visit_first_grows(
            t,
            cs,
            cs.len(),
            depth.wrapping_add(1),
            mask_below(depth, mask, last),
            threads(t.rows, pid).len() > 0,
            visited.insert(pid),
        );
    }
}

proof fn lemma_visit_first_grows(
    t: Tree,
    list: Seq<i32>,
    k: nat,
    depth: u8,
    mask: u32,
    more: bool,
    visited: Set<i32>,
)
    ensures
        visited.subset_of(visit_first(t, list, k, depth, mask, more, visited).1),
        k > 0 ==> visit_first(t, list, (k - 1) as nat, depth, mask, more, visited).1
            == visited.union(
            visit_first(t, list, (k - 1) as nat, depth, mask, more, visited).1,
        ),
    decreases unvisited(t.rows, visited), k + 1,
{
    if k > 0 {
        lemma_visit_first_grows(t, list, (k - 1) as nat, depth, mask, more, visited);
        let a = visit_first(t, list, (k - 1) as nat, depth, mask, more, visited);
        assert(visited.union(a.1) =~= a.1);
        lemma_unvisited_fewer(t.rows, visited, a.1);
        lemma_visit_grows(t, list[k - 1], depth, mask, k == list.len() && !more, a.1);
    }
}

/// Where the last process of that number stands, if there is one.
fn find_process(rows: &Vec<ProcInfo>, pid: i32) -> (r: Option<usize>)
    ensures
        match r {
            Some(i) => i < rows@.len() && process_of(rows@, pid) == Some(rows@[i as int]),
            None => process_of(rows@, pid) is None,
        },
        (r is Some) == has_process(rows@, pid),
{
    proof {
        lemma_process_of(rows@, pid);
        assert(rows@.take(rows@.len() as int) =~= rows@);
    }
    let mut i: usize = rows.len();
    while i > 0
        invariant
            i <= rows@.len(),
            process_of(rows@.take(i as int), pid) == process_of(rows@, pid),
            (process_of(rows@, pid) is Some) == has_process(rows@, pid),
        decreases i,
    {
        proof {
            assert(rows@.take(i as int).drop_last() =~= rows@.take(i - 1));
        }
        i = i - 1;
        if !rows[i].is_thread && rows[i].pid == pid {
            return Some(i);
        }
    }
    None
}

/// The rows right below a process: its children or its threads.
fn rows_below(rows: &Vec<ProcInfo>, pid: i32, threads: bool) -> (r: Vec<ProcInfo>)
    requires
        rows_wf(rows@),
    ensures
        r@ == rows@.filter(right_below(pid, threads)),
        rows_wf(r@),
{
    let ghost pred = right_below(pid, threads);
    let mut r: Vec<ProcInfo> = Vec::new();
    let mut i: usize = 0;
    proof {
        reveal(Seq::filter);
        assert(rows@.take(0).filter(pred) =~= Seq::<ProcInfo>::empty());
    }
    while i < rows.len()
        invariant
            i <= rows@.len(),
            rows_wf(rows@),
            rows_wf(r@),
            pred == right_below(pid, threads),
            r@ == rows@.take(i as int).filter(pred),
        decreases rows.len() - i,
    {
        proof {
            assert(rows@.take(i + 1).drop_last() =~= rows@.take(i as int));
            assert(rows@[i as int].wf());
            reveal(Seq::filter);
        }
        if rows[i].is_thread == threads && rows[i].ppid == pid {
            r.push(rows[i].clone());
        }
        i = i + 1;
    }
    proof {
        assert(rows@.take(rows@.len() as int) =~= rows@);
    }
    r
}

/// The numbers of processes.
fn pids_of(rows: &Vec<ProcInfo>) -> (r: Vec<i32>)
    ensures
        r@ == pids(rows@),
{
    let mut r: Vec<i32> = Vec::new();
    let mut i: usize = 0;
    while i < rows.len()
        invariant
            i <= rows@.len(),
            r@ == pids(rows@).take(i as int),
        decreases rows.len() - i,
    {
        r.push(rows[i].pid);
        proof {
            assert(pids(rows@).take(i + 1) =~= pids(rows@).take(i as int).push(rows@[i as int].pid));
        }
        i = i + 1;
    }
    proof {
        assert(pids(rows@).take(rows@.len() as int) =~= pids(rows@));
    }
    r
}

/// The processes at the top, in the order of the rows.
fn roots_of(rows: &Vec<ProcInfo>) -> (r: Vec<i32>)
    ensures
        r@ == roots(rows@),
{
    let ghost pred = at_top(rows@);
    let mut r: Vec<i32> = Vec::new();
    let mut i: usize = 0;
    proof {
        reveal(Seq::filter);
        assert(pids(rows@.take(0).filter(pred)) =~= Seq::<i32>::empty());
    }
    while i < rows.len()
        invariant
            i <= rows@.len(),
            pred == at_top(rows@),
            r@ == pids(rows@.take(i as int).filter(pred)),
        decreases rows.len() - i,
    {
        let ghost had = rows@.take(i as int).filter(pred);
        proof {
            assert(rows@.take(i + 1).drop_last() =~= rows@.take(i as int));
            reveal(Seq::filter);
        }
        if !rows[i].is_thread && (rows[i].ppid == 0 || find_process(rows, rows[i].ppid).is_none()) {
            r.push(rows[i].pid);
            proof {
                assert(pids(had.push(rows@[i as int])) =~= pids(had).push(rows@[i as int].pid));
            }
        }
        i = i + 1;
    }
    proof {
        assert(rows@.take(rows@.len() as int) =~= rows@);
    }
    r
}

/// Whether with each process its parent is in a set, but for one.
spec fn closed_but(rows: Seq<ProcInfo>, set: Set<i32>, open: Option<i32>) -> bool {
    forall|x: i32|
        #[trigger] set.contains(x) ==> match parent(rows, x) {
            Some(y) => set.contains(y) || open == Some(y),
            None => true,
        }
}

proof fn lemma_ancestors_in(rows: Seq<ProcInfo>, set: Set<i32>, q: i32, n: nat)
    requires
        closed_but(rows, set, None),
        set.contains(q),
    ensures
        match ancestor(rows, q, n) {
            Some(x) => set.contains(x),
            None => true,
        },
    decreases n,
{
    if n > 0 {
        lemma_ancestors_in(rows, set, q, (n - 1) as nat);
    }
}

/// The processes that a filter text leaves in the tree.
pub fn keep(rows: &Vec<ProcInfo>, filter: &str) -> (r: HashSet<i32>)
    ensures
        r@ == kept(rows@, filter@),
{
    let needle = needle(filter);
    let widen = !filter.is_empty();
    let ghost low = needle_of(filter@);
    let mut set: HashSet<i32> = HashSet::new();
    let mut i: usize = 0;
    while i < rows.len()
        invariant
            i <= rows@.len(),
            needle@ == low,
            low == needle_of(filter@),
            widen == (filter@.len() > 0),
            widen ==> closed_but(rows@, set@, None),
            forall|x: i32| #[trigger] set@.contains(x) ==> leads_to_match(rows@, low, widen, x),
            forall|j: int|
                0 <= j < i && !(#[trigger] rows@[j]).is_thread && passes_in_tree(rows@[j], low)
                    ==> set@.contains(rows@[j].pid),
        decreases rows.len() - i,
    {
        if !rows[i].is_thread && node_passes(&rows[i], needle.as_str()) {
            let start: i32 = rows[i].pid;
            proof {
                assert(is_process(rows@[i as int], start));
                assert(matched(rows@, low, start));
                assert(ancestor(rows@, start, 0) == Some(start));
                assert(leads_to_match(rows@, low, widen, start));
            }
            if widen {
                climb(rows, start, &mut set, Ghost(low));
            } else {
                set.insert(start);
            }
        }
        i = i + 1;
    }
    proof {
        assert forall|x: i32| leads_to_match(rows@, low, widen, x) implies #[trigger] set@.contains(
            x,
        ) by {
            let (q, n) = choose|q: i32, n: nat|
                matched(rows@, low, q) && (n == 0 || widen) && #[trigger] ancestor(rows@, q, n)
                    == Some(x);
            let j = choose|j: int|
                0 <= j < rows@.len() && is_process(#[trigger] rows@[j], q) && passes_in_tree(
                    rows@[j],
                    low,
                );
            assert(set@.contains(rows@[j].pid));
            if n > 0 {
                lemma_ancestors_in(rows@, set@, q, n);
            }
        }
        assert(set@ =~= kept(rows@, filter@));
    }
    set
}

/// Adds a process and all above it to a set.
fn climb(rows: &Vec<ProcInfo>, start: i32, set: &mut HashSet<i32>, Ghost(low): Ghost<Seq<char>>)
    requires
        has_process(rows@, start),
        leads_to_match(rows@, low, true, start),
        closed_but(rows@, old(set)@, None),
        forall|x: i32| #[trigger]
            old(set)@.contains(x) ==> leads_to_match(rows@, low, true, x),
    ensures
        closed_but(rows@, final(set)@, None),
        forall|x: i32| #[trigger]
            final(set)@.contains(x) ==> leads_to_match(rows@, low, true, x),
        old(set)@.subset_of(final(set)@),
        final(set)@.contains(start),
{
    let ghost had = set@;
    let mut cur: i32 = start;
    while !set.contains(&cur)
        invariant
            had.subset_of(set@),
            set@.contains(start) || cur == start,
            closed_but(rows@, set@, Some(cur)),
            forall|x: i32| #[trigger] set@.contains(x) ==> leads_to_match(rows@, low, true, x),
            leads_to_match(rows@, low, true, cur),
            has_process(rows@, cur),
        ensures
            closed_but(rows@, set@, None),
            had.subset_of(set@),
            set@.contains(start),
            forall|x: i32| #[trigger] set@.contains(x) ==> leads_to_match(rows@, low, true, x),
        decreases unvisited(rows@, set@),
    {
        proof {
            lemma_unvisited_less(rows@, set@, cur);
        }
        set.insert(cur);
        let up: Option<i32> = match find_process(rows, cur) {
            Some(i) => {
                let p: i32 = rows[i].ppid;
                if find_process(rows, p).is_some() {
                    Some(p)
                } else {
                    None
                }
            },
            None => None,
        };
        proof {
            assert(up == parent(rows@, cur));
        }
        match up {
            Some(p) => {
                proof {
                    let (q, n) = choose|q: i32, n: nat|
                        matched(rows@, low, q) && (n == 0 || true) && #[trigger] ancestor(
                            rows@,
                            q,
                            n,
                        ) == Some(cur);
                    assert(ancestor(rows@, q, (n + 1) as nat) == Some(p));
                }
                cur = p;
            },
            None => {
                break ;
            },
        }
    }
}

/// Appends the threads of a process.
fn list_threads(ts: &Vec<ProcInfo>, depth: u8, mask: u32, out: &mut Vec<ProcInfo>)
    ensures
        final(out)@ == old(out)@ + placed_threads(ts@, depth, mask),
{
    let ghost start = out@;
    let ghost all = placed_threads(ts@, depth, mask);
    let mut i: usize = 0;
    while i < ts.len()
        invariant
            i <= ts@.len(),
            all == placed_threads(ts@, depth, mask),
            out@ == start + all.take(i as int),
        decreases ts.len() - i,
    {
        let mut row = ts[i].clone();
        row.tree_depth = depth;
        row.tree_mask = mask;
        row.is_last_child = i == ts.len() - 1;
        proof {
            assert(row == all[i as int]);
            assert(all.take(i + 1) =~= all.take(i as int).push(row));
        }
        out.push(row);
        i = i + 1;
    }
    proof {
        assert(all.take(all.len() as int) =~= all);
    }
}

/// The rows that a tree is built from.
struct Forest<'a> {
    rows: &'a Vec<ProcInfo>,
    shown: &'a HashSet<i32>,
    collapsed: &'a HashSet<i32>,
    thread_mode: bool,
}

impl<'a> Forest<'a> {
    spec fn tree(self) -> Tree {
        Tree {
            rows: self.rows@,
            shown: self.shown@,
            collapsed: self.collapsed@,
            thread_mode: self.thread_mode,
        }
    }

    /// Appends the rows of a process and of all below it.
    fn list(
        &self,
        pid: i32,
        depth: u8,
        mask: u32,
        last: bool,
        visited: &mut HashSet<i32>,
        out: &mut Vec<ProcInfo>,
    )
        requires
            rows_wf(self.rows@),
        ensures
            final(out)@ == old(out)@ + visit(self.tree(), pid, depth, mask, last, old(visited)@).0,
            final(visited)@ == visit(self.tree(), pid, depth, mask, last, old(visited)@).1,
        decreases unvisited(self.rows@, old(visited)@), 0nat,
    {
        let ghost before = visited@;
        let ghost start = out@;
        let i: usize = match find_process(self.rows, pid) {
            Some(i) => i,
            None => {
                proof {
                    assert(out@ =~= start + Seq::<ProcInfo>::empty());
                }
                return ;
            },
        };
        if visited.contains(&pid) || !self.shown.contains(&pid) {
            proof {
                assert(out@ =~= start + Seq::<ProcInfo>::empty());
            }
            return ;
        }
        let mut row = self.rows[i].clone();
        row.tree_depth = depth;
        row.tree_mask = mask;
        row.is_last_child = last;
        let ghost first = row;
        proof {
            assert(first == self.rows@[i as int].placed(depth, mask, last));
            lemma_process_of(self.rows@, pid);
            lemma_unvisited_less(self.rows@, visited@, pid);
        }
        visited.insert(pid);
        out.push(row);
        if self.collapsed.contains(&pid) {
            proof {
                assert(out@ =~= start + seq![first]);
            }
            return ;
        }
        let below: u32 = if last { mask } else { mask | (1u32 << ((depth % 32) as u32)) };
        let next: u8 = depth.wrapping_add(1);
        let ts = sort_rows(&rows_below(self.rows, pid, true), Key::Tid, false);
        let cs = pids_of(&sort_rows(&rows_below(self.rows, pid, false), Key::Pid, false));
        self.list_all(&cs, next, below, ts.len() > 0, visited, out);
        if self.thread_mode {
            list_threads(&ts, next, below, out);
        }
        proof {
            let v = visit(self.tree(), pid, depth, mask, last, before);
            assert(out@ =~= start + v.0);
        }
    }

    /// Appends the rows of some processes and of all below them.
    fn list_all(
        &self,
        cs: &Vec<i32>,
        depth: u8,
        mask: u32,
        more: bool,
        visited: &mut HashSet<i32>,
        out: &mut Vec<ProcInfo>,
    )
        requires
            rows_wf(self.rows@),
        ensures
            final(out)@ == old(out)@ + visit_first(
                self.tree(),
                cs@,
                cs@.len(),
                depth,
                mask,
                more,
                old(visited)@,
            ).0,
            final(visited)@ == visit_first(
                self.tree(),
                cs@,
                cs@.len(),
                depth,
                mask,
                more,
                old(visited)@,
            ).1,
        decreases unvisited(self.rows@, old(visited)@), 1nat,
    {
        let ghost before = visited@;
        let ghost start = out@;
        let mut k: usize = 0;
        proof {
            assert(out@ =~= start + Seq::<ProcInfo>::empty());
        }
        while k < cs.len()
            invariant
                k <= cs@.len(),
                rows_wf(self.rows@),
                before == old(visited)@,
                out@ == start + visit_first(
                    self.tree(),
                    cs@,
                    k as nat,
                    depth,
                    mask,
                    more,
                    before,
                ).0,
                visited@ == visit_first(self.tree(), cs@, k as nat, depth, mask, more, before).1,
            decreases cs.len() - k,
        {
            proof {
                lemma_visit_first_grows(
                    self.tree(),
                    cs@,
                    (k + 1) as nat,
                    depth,
                    mask,
                    more,
                    before,
                );
                assert(before.subset_of(before.union(visited@)));
                lemma_unvisited_fewer(self.rows@, before, visited@);
            }
            let ghost had = out@;
            self.list(cs[k], depth, mask, k == cs.len() - 1 && !more, visited, out);
            proof {
                let a = visit_first(self.tree(), cs@, k as nat, depth, mask, more, before);
                let b = visit_first(self.tree(), cs@, (k + 1) as nat, depth, mask, more, before);
                assert(out@ =~= start + b.0);
            }
            k = k + 1;
        }
    }
}

/// The rows as a tree, as far as a filter text leaves them.
pub fn tree_rows(
    rows: &Vec<ProcInfo>,
    filter: &str,
    collapsed: &HashSet<i32>,
    thread_mode: bool,
) -> (r: Vec<ProcInfo>)
    requires
        rows_wf(rows@),
    ensures
        r@ == listing(
            (Tree {
                rows: rows@,
                shown: kept(rows@, filter@),
                collapsed: collapsed@,
                thread_mode: thread_mode,
            }),
        ),
{
    let shown = keep(rows, filter);
    let forest = Forest { rows, shown: &shown, collapsed, thread_mode };
    let mut visited: HashSet<i32> = HashSet::new();
    let mut out: Vec<ProcInfo> = Vec::new();
    forest.list_all(&roots_of(rows), 0, 0, false, &mut visited, &mut out);
    proof {
        assert(visited@.subset_of(visited@));
        assert(out@ =~= listing(forest.tree()));
    }
    out
}

// Laws of the tree

/// Whether no two processes have the same number.
pub open spec fn distinct(rows: Seq<ProcInfo>) -> bool {
    forall|i: int, j: int|
        0 <= i < j < rows.len() && !(#[trigger] rows[i]).is_thread && !(#[trigger] rows[j]).is_thread
            ==> rows[i].pid != rows[j].pid
}

/// Whether rows list exactly the processes that are in `after` and not in
/// `before`, each of them once.
spec fn lists(t: Tree, rs: Seq<ProcInfo>, before: Set<i32>, after: Set<i32>) -> bool {
    &&& before.subset_of(after)
    &&& forall|i: int|
        0 <= i < rs.len() && !(#[trigger] rs[i]).is_thread ==> {
            &&& after.contains(rs[i].pid)
            &&& !before.contains(rs[i].pid)
            &&& t.shown.contains(rs[i].pid)
        }
    &&& forall|x: i32| #[trigger]
        after.contains(x) && !before.contains(x) ==> has_process(rs, x)
    &&& distinct(rs)
    &&& !t.thread_mode ==> forall|i: int| 0 <= i < rs.len() ==> !(#[trigger] rs[i]).is_thread
}

/// Whether with each newly visited process its children are visited.
spec fn settled(t: Tree, before: Set<i32>, after: Set<i32>) -> bool {
    forall|x: i32, c: i32|
        #![trigger after.contains(x), children(t.rows, x).contains(c)]
        after.contains(x) && !before.contains(x) && !t.collapsed.contains(x) && children(
            t.rows,
            x,
        ).contains(c) && t.shown.contains(c) ==> after.contains(c)
}

proof fn lemma_below(rows: Seq<ProcInfo>, pid: i32, thread: bool, key: Key)
    ensures
        forall|p: ProcInfo| #[trigger]
            sorted(rows.filter(right_below(pid, thread)), key).contains(p) <==> rows.contains(p)
                && p.is_thread == thread && p.ppid == pid,
{
    let pred = right_below(pid, thread);
    lemma_sorted_rows(rows.filter(pred), key);
    assert forall|p: ProcInfo| #[trigger]
        sorted(rows.filter(pred), key).contains(p) <==> rows.contains(p) && p.is_thread == thread
            && p.ppid == pid by {
        lemma_filter(rows, pred, p);
    }
}

proof fn lemma_children(rows: Seq<ProcInfo>, pid: i32, c: i32)
    requires
        children(rows, pid).contains(c),
    ensures
        has_process(rows, c),
        exists|p: ProcInfo| #[trigger] rows.contains(p) && is_process(p, c) && p.ppid == pid,
{
    let s = sorted(rows.filter(right_below(pid, false)), Key::Pid);
    lemma_below(rows, pid, false, Key::Pid);
    let k = choose|k: int| 0 <= k < children(rows, pid).len() && children(rows, pid)[k] == c;
    assert(s.contains(s[k]));
    let i = choose|i: int| 0 <= i < rows.len() && rows[i] == s[k];
    assert(is_process(rows[i], c));
    assert(rows.contains(s[k]));
}

proof fn lemma_lists_concat(
    t: Tree,
    a: Seq<ProcInfo>,
    b: Seq<ProcInfo>,
    v0: Set<i32>,
    v1: Set<i32>,
    v2: Set<i32>,
)
    requires
        lists(t, a, v0, v1),
        lists(t, b, v1, v2),
    ensures
        lists(t, a + b, v0, v2),
{
    let r = a + b;
    assert forall|i: int| 0 <= i < r.len() && !(#[trigger] r[i]).is_thread implies {
        &&& v2.contains(r[i].pid)
        &&& !v0.contains(r[i].pid)
        &&& t.shown.contains(r[i].pid)
    } by {
        if i < a.len() {
            assert(r[i] == a[i]);
        } else {
            assert(r[i] == b[i - a.len()]);
        }
    }
    assert forall|x: i32| #[trigger] v2.contains(x) && !v0.contains(x) implies has_process(r, x) by {
        if v1.contains(x) {
            let i = choose|i: int| 0 <= i < a.len() && is_process(#[trigger] a[i], x);
            assert(r[i] == a[i]);
        } else {
            let i = choose|i: int| 0 <= i < b.len() && is_process(#[trigger] b[i], x);
            assert(r[a.len() + i] == b[i]);
        }
    }
    assert forall|i: int, j: int|
        0 <= i < j < r.len() && !(#[trigger] r[i]).is_thread && !(#[trigger] r[j]).is_thread implies r[i].pid
        != r[j].pid by {
        if j < a.len() {
            assert(a[i] == r[i] && a[j] == r[j]);
        } else if i >= a.len() {
            assert(b[i - a.len()] == r[i] && b[j - a.len()] == r[j]);
        } else {
            assert(a[i] == r[i] && b[j - a.len()] == r[j]);
        }
    }
    if !t.thread_mode {
        assert forall|i: int| 0 <= i < r.len() implies !(#[trigger] r[i]).is_thread by {
            if i < a.len() {
                assert(r[i] == a[i]);
            } else {
                assert(r[i] == b[i - a.len()]);
            }
        }
    }
}

proof fn lemma_visit_lists(t: Tree, pid: i32, depth: u8, mask: u32, last: bool, visited: Set<i32>)
    ensures
        ({
            let v = visit(t, pid, depth, mask, last, visited);
            &&& lists(t, v.0, visited, v.1)
            &&& settled(t, visited, v.1)
            &&& has_process(t.rows, pid) && t.shown.contains(pid) ==> v.1.contains(pid)
        }),
    decreases unvisited(t.rows, visited), 0nat,
{
    lemma_process_of(t.rows, pid);
    let v = visit(t, pid, depth, mask, last, visited);
    if process_of(t.rows, pid) is Some && !visited.contains(pid) && t.shown.contains(pid) {
        let p = process_of(t.rows, pid)->0;
        let head = seq![p.placed(depth, mask, last)];
        let mid = visited.insert(pid);
        assert(is_process(head[0], pid));
        assert(lists(t, head, visited, mid));
        if !t.collapsed.contains(pid) {
            lemma_unvisited_less(t.rows, visited, pid);
            let cs = children(t.rows, pid);
            let ts = threads(t.rows, pid);
            let next = depth.wrapping_add(1);
            let below = mask_below(depth, mask, last);
            let w = visit_first(t, cs, cs.len(), next, below, ts.len() > 0, mid);
            lemma_visit_first_lists(t, cs, cs.len(), next, below, ts.len() > 0, mid);
            let tail = if t.thread_mode {
                placed_threads(ts, next, below)
            } else {
                seq![]
            };
            lemma_below(t.rows, pid, true, Key::Tid);
            assert forall|i: int| 0 <= i < tail.len() implies (#[trigger] tail[i]).is_thread by {
                assert(ts.contains(ts[i]));
            }
            lemma_lists_concat(t, head, w.0, visited, mid, w.1);
            assert(lists(t, tail, w.1, w.1));
            lemma_lists_concat(t, head + w.0, tail, visited, w.1, w.1);
            assert forall|x: i32, c: i32|
                #![trigger v.1.contains(x), children(t.rows, x).contains(c)]
                v.1.contains(x) && !visited.contains(x) && !t.collapsed.contains(x) && children(
                    t.rows,
                    x,
                ).contains(c) && t.shown.contains(c) implies v.1.contains(c) by {
                if x == pid {
                    lemma_children(t.rows, pid, c);
                    let k = choose|k: int| 0 <= k < cs.len() && cs[k] == c;
                    assert(w.1.contains(cs[k]));
                }
            }
        }
    }
}

proof fn lemma_visit_first_lists(
    t: Tree,
    list: Seq<i32>,
    k: nat,
    depth: u8,
    mask: u32,
    more: bool,
    visited: Set<i32>,
)
    requires
        k <= list.len(),
    ensures
        ({
            let v = visit_first(t, list, k, depth, mask, more, visited);
            &&& lists(t, v.0, visited, v.1)
            &&& settled(t, visited, v.1)
            &&& forall|i: int|
                0 <= i < k && has_process(t.rows, #[trigger] list[i]) && t.shown.contains(list[i])
                    ==> v.1.contains(list[i])
        }),
    decreases unvisited(t.rows, visited), k + 1,
{
    if k > 0 {
        lemma_visit_first_grows(t, list, k, depth, mask, more, visited);
        lemma_visit_first_lists(t, list, (k - 1) as nat, depth, mask, more, visited);
        let a = visit_first(t, list, (k - 1) as nat, depth, mask, more, visited);
        lemma_unvisited_fewer(t.rows, visited, a.1);
        let last = k == list.len() && !more;
        let b = visit(t, list[k - 1], depth, mask, last, a.1);
        lemma_visit_lists(t, list[k - 1], depth, mask, last, a.1);
        lemma_lists_concat(t, a.0, b.0, visited, a.1, b.1);
    }
}

/// Without a filter text all processes are in the tree.
pub proof fn lemma_kept_unfiltered(rows: Seq<ProcInfo>, pid: i32)
    ensures
        kept(rows, seq![]).contains(pid) == has_process(rows, pid),
{
    let needle = needle_of(seq![]);
    if has_process(rows, pid) {
        let i = choose|i: int| 0 <= i < rows.len() && is_process(#[trigger] rows[i], pid);
        assert(passes_in_tree(rows[i], needle));
        assert(matched(rows, needle, pid));
        assert(ancestor(rows, pid, 0) == Some(pid));
    }
    if kept(rows, seq![]).contains(pid) {
        let (q, n) = choose|q: i32, n: nat|
            matched(rows, needle, q) && (n == 0 || false) && #[trigger] ancestor(rows, q, n)
                == Some(pid);
        assert(q == pid);
        let i = choose|i: int|
            0 <= i < rows.len() && is_process(#[trigger] rows[i], q) && passes_in_tree(
                rows[i],
                needle,
            );
        assert(is_process(rows[i], pid));
    }
}

/// A filter text leaves with each process the one above it in the tree.
pub proof fn lemma_kept_above(rows: Seq<ProcInfo>, filter: Seq<char>, pid: i32)
    requires
        filter.len() > 0,
        kept(rows, filter).contains(pid),
        parent(rows, pid) is Some,
    ensures
        kept(rows, filter).contains(parent(rows, pid)->0),
{
    let needle = needle_of(filter);
    let (q, n) = choose|q: i32, n: nat|
        matched(rows, needle, q) && (n == 0 || filter.len() > 0) && #[trigger] ancestor(rows, q, n)
            == Some(pid);
    assert(ancestor(rows, q, (n + 1) as nat) == parent(rows, pid));
}

/// In the tree each process stands at most once, and only if it is shown;
/// threads stand there only in thread mode.
pub proof fn lemma_listed_once(t: Tree)
    ensures
        distinct(listing(t)),
        forall|i: int|
            0 <= i < listing(t).len() && !(#[trigger] listing(t)[i]).is_thread ==> t.shown.contains(
                listing(t)[i].pid,
            ),
        !t.thread_mode ==> forall|i: int|
            0 <= i < listing(t).len() ==> !(#[trigger] listing(t)[i]).is_thread,
{
    let rs = roots(t.rows);
    lemma_visit_first_lists(t, rs, rs.len(), 0, 0, false, Set::empty());
}

/// All shown processes at the top stand in the tree; and with each process that
/// stands there and is not collapsed, so do all of its children that are shown.
pub proof fn lemma_listed_all(t: Tree)
    ensures
        forall|r: i32| #[trigger]
            roots(t.rows).contains(r) && t.shown.contains(r) ==> has_process(listing(t), r),
        forall|x: i32, c: i32|
            #![trigger children(t.rows, x).contains(c)]
            has_process(listing(t), x) && !t.collapsed.contains(x) && children(
                t.rows,
                x,
            ).contains(c) && t.shown.contains(c) ==> has_process(listing(t), c),
{
    let rs = roots(t.rows);
    let v = visit_first(t, rs, rs.len(), 0, 0, false, Set::empty());
    lemma_visit_first_lists(t, rs, rs.len(), 0, 0, false, Set::empty());
    assert forall|r: i32| #[trigger] rs.contains(r) && t.shown.contains(r) implies has_process(
        listing(t),
        r,
    ) by {
        let k = choose|k: int| 0 <= k < rs.len() && rs[k] == r;
        lemma_roots(t.rows, k);
        assert(v.1.contains(rs[k]));
    }
    assert forall|x: i32, c: i32|
        #![trigger children(t.rows, x).contains(c)]
        has_process(listing(t), x) && !t.collapsed.contains(x) && children(t.rows, x).contains(c)
            && t.shown.contains(c) implies has_process(listing(t), c) by {
        let i = choose|i: int| 0 <= i < v.0.len() && is_process(#[trigger] v.0[i], x);
        assert(v.1.contains(v.0[i].pid));
        assert(v.1.contains(c));
    }
}

/// Whether a row of the table stands in the tree.
pub open spec fn has_row(rs: Seq<ProcInfo>, q: ProcInfo) -> bool {
    exists|i: int|
        0 <= i < rs.len() && #[trigger] rs[i] == q.placed(
            rs[i].tree_depth,
            rs[i].tree_mask,
            rs[i].is_last_child,
        )
}

/// Whether with each newly visited process its threads are listed.
spec fn threaded(t: Tree, rs: Seq<ProcInfo>, before: Set<i32>, after: Set<i32>) -> bool {
    forall|x: i32, q: ProcInfo|
        #![trigger after.contains(x), threads(t.rows, x).contains(q)]
        after.contains(x) && !before.contains(x) && !t.collapsed.contains(x) && threads(
            t.rows,
            x,
        ).contains(q) ==> has_row(rs, q)
}

proof fn lemma_has_row_concat(a: Seq<ProcInfo>, b: Seq<ProcInfo>, q: ProcInfo)
    requires
        has_row(a, q) || has_row(b, q),
    ensures
        has_row(a + b, q),
{
    let r = a + b;
    if has_row(a, q) {
        let i = choose|i: int|
            0 <= i < a.len() && #[trigger] a[i] == q.placed(
                a[i].tree_depth,
                a[i].tree_mask,
                a[i].is_last_child,
            );
        assert(r[i] == a[i]);
    } else {
        let i = choose|i: int|
            0 <= i < b.len() && #[trigger] b[i] == q.placed(
                b[i].tree_depth,
                b[i].tree_mask,
                b[i].is_last_child,
            );
        assert(r[a.len() + i] == b[i]);
    }
}

proof fn lemma_visit_threaded(
    t: Tree,
    pid: i32,
    depth: u8,
    mask: u32,
    last: bool,
    visited: Set<i32>,
)
    requires
        t.thread_mode,
    ensures
        ({
            let v = visit(t, pid, depth, mask, last, visited);
            threaded(t, v.0, visited, v.1)
        }),
    decreases unvisited(t.rows, visited), 0nat,
{
    lemma_process_of(t.rows, pid);
    let v = visit(t, pid, depth, mask, last, visited);
    if process_of(t.rows, pid) is Some && !visited.contains(pid) && t.shown.contains(pid)
        && !t.collapsed.contains(pid) {
        lemma_unvisited_less(t.rows, visited, pid);
        let p = process_of(t.rows, pid)->0;
        let head = seq![p.placed(depth, mask, last)];
        let cs = children(t.rows, pid);
        let ts = threads(t.rows, pid);
        let next = depth.wrapping_add(1);
        let below = mask_below(depth, mask, last);
        let mid = visited.insert(pid);
        let w = visit_first(t, cs, cs.len(), next, below, ts.len() > 0, mid);
        lemma_visit_first_threaded(t, cs, cs.len(), next, below, ts.len() > 0, mid);
        let tail = placed_threads(ts, next, below);
        assert(v.0 == head + w.0 + tail);
        assert forall|x: i32, q: ProcInfo|
            #![trigger v.1.contains(x), threads(t.rows, x).contains(q)]
            v.1.contains(x) && !visited.contains(x) && !t.collapsed.contains(x) && threads(
                t.rows,
                x,
            ).contains(q) implies has_row(v.0, q) by {
            if x == pid {
                let k = choose|k: int| 0 <= k < ts.len() && ts[k] == q;
                assert(tail[k] == q.placed(next, below, k == ts.len() - 1));
                assert(has_row(tail, q));
                lemma_has_row_concat(head + w.0, tail, q);
            } else {
                assert(w.1.contains(x));
                assert(has_row(w.0, q));
                lemma_has_row_concat(head, w.0, q);
                lemma_has_row_concat(head + w.0, tail, q);
            }
        }
    }
}

proof fn lemma_visit_first_threaded(
    t: Tree,
    list: Seq<i32>,
    k: nat,
    depth: u8,
    mask: u32,
    more: bool,
    visited: Set<i32>,
)
    requires
        t.thread_mode,
    ensures
        ({
            let v = visit_first(t, list, k, depth, mask, more, visited);
            threaded(t, v.0, visited, v.1)
        }),
    decreases unvisited(t.rows, visited), k + 1,
{
    if k > 0 {
        lemma_visit_first_grows(t, list, k, depth, mask, more, visited);
        lemma_visit_first_threaded(t, list, (k - 1) as nat, depth, mask, more, visited);
        let a = visit_first(t, list, (k - 1) as nat, depth, mask, more, visited);
        lemma_unvisited_fewer(t.rows, visited, a.1);
        let last = k == list.len() && !more;
        let b = visit(t, list[k - 1], depth, mask, last, a.1);
        lemma_visit_threaded(t, list[k - 1], depth, mask, last, a.1);
        assert forall|x: i32, q: ProcInfo|
            #![trigger b.1.contains(x), threads(t.rows, x).contains(q)]
            b.1.contains(x) && !visited.contains(x) && !t.collapsed.contains(x) && threads(
                t.rows,
                x,
            ).contains(q) implies has_row(a.0 + b.0, q) by {
            if a.1.contains(x) {
                assert(has_row(a.0, q));
            } else {
                assert(has_row(b.0, q));
            }
            lemma_has_row_concat(a.0, b.0, q);
        }
    }
}

/// In thread mode, with each process that stands in the tree and is not
/// collapsed, all of its threads stand there.
pub proof fn lemma_listed_threads(t: Tree, q: ProcInfo)
    requires
        t.thread_mode,
        t.rows.contains(q),
        q.is_thread,
        has_process(listing(t), q.ppid),
        !t.collapsed.contains(q.ppid),
    ensures
        has_row(listing(t), q),
{
    let rs = roots(t.rows);
    let v = visit_first(t, rs, rs.len(), 0, 0, false, Set::empty());
    lemma_visit_first_lists(t, rs, rs.len(), 0, 0, false, Set::empty());
    lemma_visit_first_threaded(t, rs, rs.len(), 0, 0, false, Set::empty());
    lemma_below(t.rows, q.ppid, true, Key::Tid);
    let i = choose|i: int| 0 <= i < v.0.len() && is_process(#[trigger] v.0[i], q.ppid);
    assert(v.1.contains(v.0[i].pid));
    assert(threads(t.rows, q.ppid).contains(q));
}

/// Whether a row stands behind its parent and one step deeper.
pub open spec fn below_parent(rs: Seq<ProcInfo>, i: int) -> bool {
    exists|j: int|
        0 <= j < i && is_process(#[trigger] rs[j], rs[i].ppid) && rs[i].tree_depth
            == rs[j].tree_depth.wrapping_add(1)
}

/// Whether each row is one of the given processes, at the given depth, or stands
/// below its parent.
spec fn hangs(rs: Seq<ProcInfo>, list: Seq<i32>, depth: u8) -> bool {
    forall|i: int|
        0 <= i < rs.len() ==> below_parent(rs, i) || {
            &&& !(#[trigger] rs[i]).is_thread
            &&& rs[i].tree_depth == depth
            &&& list.contains(rs[i].pid)
        }
}

/// Whether each row is a row of the table at some place of the tree.
spec fn taken(t: Tree, rs: Seq<ProcInfo>) -> bool {
    forall|i: int| 0 <= i < rs.len() ==> from_table(t, #[trigger] rs[i])
}

/// Whether a row of the tree is a row of the table but for its place.
pub open spec fn from_table(t: Tree, row: ProcInfo) -> bool {
    exists|p: ProcInfo| #[trigger]
        t.rows.contains(p) && row == p.placed(row.tree_depth, row.tree_mask, row.is_last_child)
}

proof fn lemma_hangs_concat(a: Seq<ProcInfo>, b: Seq<ProcInfo>, list: Seq<i32>, depth: u8)
    requires
        hangs(a, list, depth),
        hangs(b, list, depth),
    ensures
        hangs(a + b, list, depth),
{
    let r = a + b;
    assert forall|i: int| 0 <= i < r.len() implies below_parent(r, i) || {
        &&& !(#[trigger] r[i]).is_thread
        &&& r[i].tree_depth == depth
        &&& list.contains(r[i].pid)
    } by {
        if i < a.len() {
            assert(r[i] == a[i]);
            if below_parent(a, i) {
                let j = choose|j: int|
                    0 <= j < i && is_process(#[trigger] a[j], a[i].ppid) && a[i].tree_depth
                        == a[j].tree_depth.wrapping_add(1);
                assert(r[j] == a[j]);
            }
        } else {
            let k = i - a.len();
            assert(r[i] == b[k]);
            if below_parent(b, k) {
                let j = choose|j: int|
                    0 <= j < k && is_process(#[trigger] b[j], b[k].ppid) && b[k].tree_depth
                        == b[j].tree_depth.wrapping_add(1);
                assert(r[a.len() + j] == b[j]);
            }
        }
    }
}

proof fn lemma_visit_taken(t: Tree, pid: i32, depth: u8, mask: u32, last: bool, visited: Set<i32>)
    ensures
        taken(t, visit(t, pid, depth, mask, last, visited).0),
    decreases unvisited(t.rows, visited), 0nat,
{
    lemma_process_of(t.rows, pid);
    let v = visit(t, pid, depth, mask, last, visited);
    if process_of(t.rows, pid) is Some && !visited.contains(pid) && t.shown.contains(pid) {
        let p = process_of(t.rows, pid)->0;
        assert(t.rows.contains(p));
        assert(from_table(t, p.placed(depth, mask, last)));
        if !t.collapsed.contains(pid) {
            lemma_unvisited_less(t.rows, visited, pid);
            let cs = children(t.rows, pid);
            let ts = threads(t.rows, pid);
            let next = depth.wrapping_add(1);
            let below = mask_below(depth, mask, last);
            let mid = visited.insert(pid);
            let w = visit_first(t, cs, cs.len(), next, below, ts.len() > 0, mid);
            lemma_visit_first_taken(t, cs, cs.len(), next, below, ts.len() > 0, mid);
            lemma_below(t.rows, pid, true, Key::Tid);
            assert forall|i: int| 0 <= i < v.0.len() implies from_table(t, #[trigger] v.0[i]) by {
                if 0 < i <= w.0.len() {
                    assert(from_table(t, w.0[i - 1]));
                } else if i > 0 {
                    let k = i - 1 - w.0.len();
                    assert(v.0[i] == ts[k].placed(next, below, k == ts.len() - 1));
                    assert(ts.contains(ts[k]));
                    assert(t.rows.contains(ts[k]));
                }
            }
        }
    }
}

proof fn lemma_visit_first_taken(
    t: Tree,
    list: Seq<i32>,
    k: nat,
    depth: u8,
    mask: u32,
    more: bool,
    visited: Set<i32>,
)
    ensures
        taken(t, visit_first(t, list, k, depth, mask, more, visited).0),
    decreases unvisited(t.rows, visited), k + 1,
{
    if k > 0 {
        lemma_visit_first_grows(t, list, k, depth, mask, more, visited);
        lemma_visit_first_taken(t, list, (k - 1) as nat, depth, mask, more, visited);
        let a = visit_first(t, list, (k - 1) as nat, depth, mask, more, visited);
        lemma_unvisited_fewer(t.rows, visited, a.1);
        let last = k == list.len() && !more;
        let b = visit(t, list[k - 1], depth, mask, last, a.1);
        lemma_visit_taken(t, list[k - 1], depth, mask, last, a.1);
        assert forall|i: int| 0 <= i < (a.0 + b.0).len() implies from_table(
            t,
            #[trigger] (a.0 + b.0)[i],
        ) by {
            if i < a.0.len() {
                assert(from_table(t, a.0[i]));
            } else {
                assert(from_table(t, b.0[i - a.0.len()]));
            }
        }
    }
}

/// Each row of the tree is a row of the table but for its place.
pub proof fn lemma_listed_from_table(t: Tree)
    ensures
        forall|i: int| 0 <= i < listing(t).len() ==> from_table(t, #[trigger] listing(t)[i]),
{
    let rs = roots(t.rows);
    lemma_visit_first_taken(t, rs, rs.len(), 0, 0, false, Set::empty());
}

proof fn lemma_visit_hangs(t: Tree, pid: i32, depth: u8, mask: u32, last: bool, visited: Set<i32>)
    requires
        distinct(t.rows),
    ensures
        hangs(visit(t, pid, depth, mask, last, visited).0, seq![pid], depth),
    decreases unvisited(t.rows, visited), 0nat,
{
    lemma_process_of(t.rows, pid);
    let v = visit(t, pid, depth, mask, last, visited);
    if process_of(t.rows, pid) is Some && !visited.contains(pid) && t.shown.contains(pid) {
        let p = process_of(t.rows, pid)->0;
        let head = p.placed(depth, mask, last);
        assert(seq![pid].contains(pid)) by {
            assert(seq![pid][0] == pid);
        }
        if !t.collapsed.contains(pid) {
            lemma_unvisited_less(t.rows, visited, pid);
            let cs = children(t.rows, pid);
            let ts = threads(t.rows, pid);
            let next = depth.wrapping_add(1);
            let below = mask_below(depth, mask, last);
            let mid = visited.insert(pid);
            let w = visit_first(t, cs, cs.len(), next, below, ts.len() > 0, mid);
            lemma_visit_first_hangs(t, cs, cs.len(), next, below, ts.len() > 0, mid);
            lemma_visit_first_taken(t, cs, cs.len(), next, below, ts.len() > 0, mid);
            lemma_below(t.rows, pid, true, Key::Tid);
            assert(v.0[0] == head);
            assert forall|i: int| 0 < i < v.0.len() implies #[trigger] below_parent(v.0, i) by {
                if i <= w.0.len() {
                    let row = w.0[i - 1];
                    assert(v.0[i] == row);
                    assert(from_table(t, w.0[i - 1]));
                    if below_parent(w.0, i - 1) {
                        let j = choose|j: int|
                            0 <= j < i - 1 && is_process(#[trigger] w.0[j], w.0[i - 1].ppid)
                                && w.0[i - 1].tree_depth == w.0[j].tree_depth.wrapping_add(1);
                        assert(v.0[j + 1] == w.0[j]);
                    } else {
                        lemma_children(t.rows, pid, row.pid);
                        let q = choose|q: ProcInfo| #[trigger]
                            t.rows.contains(q) && is_process(q, row.pid) && q.ppid == pid;
                        let o = choose|o: ProcInfo| #[trigger]
                            t.rows.contains(o) && row == o.placed(
                                row.tree_depth,
                                row.tree_mask,
                                row.is_last_child,
                            );
                        let a = choose|a: int| 0 <= a < t.rows.len() && t.rows[a] == q;
                        let b = choose|b: int| 0 <= b < t.rows.len() && t.rows[b] == o;
                        assert(a == b);
                        assert(is_process(v.0[0], row.ppid));
                    }
                } else {
                    let k = i - 1 - w.0.len();
                    let row = ts[k];
                    assert(v.0[i] == row.placed(next, below, k == ts.len() - 1));
                    assert(ts.contains(row));
                    assert(is_process(v.0[0], v.0[i].ppid));
                }
            }
        }
    }
}

proof fn lemma_visit_first_hangs(
    t: Tree,
    list: Seq<i32>,
    k: nat,
    depth: u8,
    mask: u32,
    more: bool,
    visited: Set<i32>,
)
    requires
        k <= list.len(),
        distinct(t.rows),
    ensures
        hangs(visit_first(t, list, k, depth, mask, more, visited).0, list, depth),
    decreases unvisited(t.rows, visited), k + 1,
{
    if k > 0 {
        lemma_visit_first_grows(t, list, k, depth, mask, more, visited);
        lemma_visit_first_hangs(t, list, (k - 1) as nat, depth, mask, more, visited);
        let a = visit_first(t, list, (k - 1) as nat, depth, mask, more, visited);
        lemma_unvisited_fewer(t.rows, visited, a.1);
        let last = k == list.len() && !more;
        let b = visit(t, list[k - 1], depth, mask, last, a.1);
        lemma_visit_hangs(t, list[k - 1], depth, mask, last, a.1);
        assert forall|i: int| 0 <= i < b.0.len() implies below_parent(b.0, i) || {
            &&& !(#[trigger] b.0[i]).is_thread
            &&& b.0[i].tree_depth == depth
            &&& list.contains(b.0[i].pid)
        } by {
            if !below_parent(b.0, i) {
                assert(seq![list[k - 1]].contains(b.0[i].pid));
                assert(b.0[i].pid == list[k - 1]);
            }
        }
        lemma_hangs_concat(a.0, b.0, list, depth);
    }
}

/// Where the processes of the table have different numbers, each row of the tree
/// is a process at the top, or it stands behind its parent and one step deeper.
pub proof fn lemma_listed_below_parent(t: Tree, i: int)
    requires
        distinct(t.rows),
        0 <= i < listing(t).len(),
    ensures
        below_parent(listing(t), i) || {
            &&& !listing(t)[i].is_thread
            &&& listing(t)[i].tree_depth == 0
            &&& roots(t.rows).contains(listing(t)[i].pid)
        },
{
    let rs = roots(t.rows);
    lemma_visit_first_hangs(t, rs, rs.len(), 0, 0, false, Set::empty());
    assert(listing(t)[i] == listing(t)[i]);
}

proof fn lemma_roots(rows: Seq<ProcInfo>, k: int)
    requires
        0 <= k < roots(rows).len(),
    ensures
        has_process(rows, roots(rows)[k]),
{
    let f = rows.filter(at_top(rows));
    assert(f.contains(f[k]));
    lemma_filter(rows, at_top(rows), f[k]);
    let i = choose|i: int| 0 <= i < rows.len() && rows[i] == f[k];
    assert(is_process(rows[i], roots(rows)[k]));
}

// What a filter text leaves

/// A filter text leaves in the tree every process whose command line, in lower
/// case, or whose number holds the text, in lower case.
pub proof fn lemma_match_kept(rows: Seq<ProcInfo>, filter: Seq<char>, i: int)
    requires
        filter.len() > 0,
        0 <= i < rows.len(),
        !rows[i].is_thread,
        occurs(lowercase(rows[i].full_cmd@), lowercase(filter)) || occurs(
            signed_decimal(rows[i].pid as int),
            lowercase(filter),
        ),
    ensures
        kept(rows, filter).contains(rows[i].pid),
{
    let pid = rows[i].pid;
    let needle = needle_of(filter);
    assert(is_process(rows[i], pid) && passes_in_tree(rows[i], needle));
    assert(matched(rows, needle, pid));
    assert(ancestor(rows, pid, 0) == Some(pid));
}

/// Where a process is left, so is the one above it.
pub proof fn lemma_parent_kept(rows: Seq<ProcInfo>, filter: Seq<char>, i: int, j: int)
    requires
        filter.len() > 0,
        distinct(rows),
        0 <= i < rows.len(),
        0 <= j < rows.len(),
        !rows[i].is_thread,
        !rows[j].is_thread,
        rows[i].ppid == rows[j].pid,
        kept(rows, filter).contains(rows[i].pid),
    ensures
        kept(rows, filter).contains(rows[j].pid),
{
    lemma_process_at(rows, i);
    assert(is_process(rows[j], rows[i].ppid));
    lemma_kept_above(rows, filter, rows[i].pid);
}

/// The process of a number is the row that has it.
proof fn lemma_process_at(rows: Seq<ProcInfo>, i: int)
    requires
        distinct(rows),
        0 <= i < rows.len(),
        !rows[i].is_thread,
    ensures
        process_of(rows, rows[i].pid) == Some(rows[i]),
{
    let pid = rows[i].pid;
    lemma_process_of(rows, pid);
    assert(is_process(rows[i], pid));
    let p = process_of(rows, pid)->0;
    let k = choose|k: int| 0 <= k < rows.len() && rows[k] == p;
    if k < i {
        assert(rows[k].pid != rows[i].pid);
    } else if i < k {
        assert(rows[i].pid != rows[k].pid);
    }
}

/// Whether each of some rows is the process right above the one before.
pub open spec fn chain(rows: Seq<ProcInfo>, path: Seq<int>) -> bool {
    &&& path.len() > 0
    &&& forall|k: int|
        0 <= k < path.len() ==> 0 <= #[trigger] path[k] < rows.len() && !rows[path[k]].is_thread
    &&& forall|k: int|
        0 < k < path.len() ==> rows[path[k - 1]].ppid == rows[#[trigger] path[k]].pid
}

/// What a filter text leaves in the tree is a process whose command line or number
/// holds the text, or stands above one.
pub proof fn lemma_kept_matches(rows: Seq<ProcInfo>, filter: Seq<char>, pid: i32)
    requires
        filter.len() > 0,
        distinct(rows),
        kept(rows, filter).contains(pid),
    ensures
        exists|path: Seq<int>| #[trigger]
            chain(rows, path) && rows[path.last()].pid == pid && (occurs(
                lowercase(rows[path[0]].full_cmd@),
                lowercase(filter),
            ) || occurs(signed_decimal(rows[path[0]].pid as int), lowercase(filter))),
{
    let needle = needle_of(filter);
    let (q, n) = choose|q: i32, n: nat|
        matched(rows, needle, q) && (n == 0 || filter.len() > 0) && #[trigger] ancestor(rows, q, n)
            == Some(pid);
    let i = choose|i: int|
        0 <= i < rows.len() && is_process(#[trigger] rows[i], q) && passes_in_tree(rows[i], needle);
    if needle.len() == 0 {
        assert(occurs_at(lowercase(rows[i].full_cmd@), needle, 0)) by {
            assert(lowercase(rows[i].full_cmd@).subrange(0, 0) =~= needle);
        }
    }
    lemma_chain_above(rows, i, n);
}

proof fn lemma_chain_above(rows: Seq<ProcInfo>, i: int, n: nat)
    requires
        distinct(rows),
        0 <= i < rows.len(),
        !rows[i].is_thread,
        ancestor(rows, rows[i].pid, n) is Some,
    ensures
        exists|path: Seq<int>| #[trigger]
            chain(rows, path) && path[0] == i && rows[path.last()].pid == ancestor(
                rows,
                rows[i].pid,
                n,
            )->0,
    decreases n,
{
    let pid = rows[i].pid;
    if n == 0 {
        let path = seq![i];
        assert(chain(rows, path) && path[0] == i && path.last() == i);
    } else {
        let m = (n - 1) as nat;
        lemma_chain_above(rows, i, m);
        let before = choose|path: Seq<int>| #[trigger]
            chain(rows, path) && path[0] == i && rows[path.last()].pid == ancestor(rows, pid, m)->0;
        let k = before.last();
        assert(before[before.len() - 1] == k);
        lemma_process_at(rows, k);
        let up = rows[k].ppid;
        assert(has_process(rows, up));
        let j = choose|j: int| 0 <= j < rows.len() && is_process(#[trigger] rows[j], up);
        let path = before.push(j);
        assert forall|x: int| 0 <= x < path.len() implies 0 <= #[trigger] path[x] < rows.len()
            && !rows[path[x]].is_thread by {
            if x < before.len() {
                assert(path[x] == before[x]);
            }
        }
        assert forall|x: int| 0 < x < path.len() implies rows[path[x - 1]].ppid
            == rows[#[trigger] path[x]].pid by {
            if x < before.len() {
                assert(path[x] == before[x] && path[x - 1] == before[x - 1]);
            } else {
                assert(path[x - 1] == before.last());
            }
        }
        assert(chain(rows, path) && path[0] == i && path.last() == j);
    }
}

/// From any of the processes of a chain on it is a chain.
pub(crate) proof fn lemma_chain_from(rows: Seq<ProcInfo>, path: Seq<int>, k: int)
    requires
        chain(rows, path),
        0 <= k < path.len(),
    ensures
        chain(rows, path.skip(k)),
        path.skip(k).last() == path.last(),
        path.skip(k)[0] == path[k],
{
    let up = path.skip(k);
    assert forall|x: int| 0 <= x < up.len() implies 0 <= #[trigger] up[x] < rows.len()
        && !rows[up[x]].is_thread by {
        assert(up[x] == path[k + x]);
    }
    assert forall|x: int| 0 < x < up.len() implies rows[up[x - 1]].ppid
        == rows[#[trigger] up[x]].pid by {
        assert(up[x] == path[k + x] && up[x - 1] == path[k + x - 1]);
    }
}

/// A shown process stands in the tree if all processes above it are shown, up to
/// one whose parent is not there, and none of them is collapsed.
pub proof fn lemma_listed_by_chain(t: Tree, path: Seq<int>)
    requires
        chain(t.rows, path),
        forall|k: int| 0 <= k < path.len() ==> t.shown.contains(t.rows[#[trigger] path[k]].pid),
        forall|k: int| 0 < k < path.len() ==> !t.collapsed.contains(t.rows[#[trigger] path[k]].pid),
        t.rows[path.last()].ppid == 0 || forall|i: int|
            0 <= i < t.rows.len() && !(#[trigger] t.rows[i]).is_thread ==> t.rows[i].pid
                != t.rows[path.last()].ppid,
    ensures
        exists|i: int|
            0 <= i < listing(t).len() && !(#[trigger] listing(t)[i]).is_thread && listing(t)[i].pid
                == t.rows[path[0]].pid,
    decreases path.len(),
{
    let rows = t.rows;
    let p = rows[path[0]];
    lemma_listed_all(t);
    assert(rows.contains(p));
    if path.len() == 1 {
        assert(path.last() == path[0]);
        let f = rows.filter(at_top(rows));
        if has_process(rows, p.ppid) && p.ppid != 0 {
            let i = choose|i: int| 0 <= i < rows.len() && is_process(#[trigger] rows[i], p.ppid);
            assert(rows[i].pid != p.ppid);
        }
        lemma_filter(rows, at_top(rows), p);
        assert(f.contains(p));
        let k = choose|k: int| 0 <= k < f.len() && f[k] == p;
        assert(roots(rows)[k] == p.pid);
        assert(roots(rows).contains(p.pid));
    } else {
        let up = path.skip(1);
        assert(up.last() == path.last());
        assert forall|k: int| 0 <= k < up.len() implies 0 <= #[trigger] up[k] < rows.len()
            && !rows[up[k]].is_thread && t.shown.contains(rows[up[k]].pid) by {
            assert(up[k] == path[k + 1]);
        }
        assert forall|k: int| 0 < k < up.len() implies rows[up[k - 1]].ppid
            == rows[#[trigger] up[k]].pid && !t.collapsed.contains(rows[up[k]].pid) by {
            assert(up[k] == path[k + 1] && up[k - 1] == path[k]);
        }
        lemma_listed_by_chain(t, up);
        let q = rows[path[1]];
        assert(up[0] == path[1]);
        let i = choose|i: int|
            0 <= i < listing(t).len() && !(#[trigger] listing(t)[i]).is_thread && listing(t)[i].pid
                == q.pid;
        assert(is_process(listing(t)[i], q.pid));
        assert(p.ppid == q.pid) by {
            assert(rows[path[1 - 1]].ppid == rows[path[1]].pid);
        }
        lemma_below(rows, q.pid, false, Key::Pid);
        let s = sorted(rows.filter(right_below(q.pid, false)), Key::Pid);
        assert(s.contains(p));
        let k = choose|k: int| 0 <= k < s.len() && s[k] == p;
        assert(children(rows, q.pid)[k] == p.pid);
        assert(children(rows, q.pid).contains(p.pid));
    }
    assert(has_process(listing(t), p.pid));
    let i = choose|i: int| 0 <= i < listing(t).len() && is_process(#[trigger] listing(t)[i], p.pid);
    assert(!listing(t)[i].is_thread);
}

// How the tree is drawn

/// Whether the mark of a row below a parent says whether it is the last one
/// there. The children of a process come in the order of their numbers and its
/// threads behind them, in the order of theirs.
pub open spec fn marked_last(rows: Seq<ProcInfo>, row: ProcInfo) -> bool {
    row.is_last_child == !exists|k: int|
        0 <= k < rows.len() && (#[trigger] rows[k]).ppid == row.ppid && (if row.is_thread {
            rows[k].is_thread && rows[k].tid > row.tid
        } else {
            rows[k].is_thread || rows[k].pid > row.pid
        })
}

/// Whether a row stands behind its parent, one step deeper, with the vertical
/// lines of the parent and one more where the parent is not the last one at its
/// place, and is itself marked as the last one where it is.
pub open spec fn drawn_below(rows: Seq<ProcInfo>, rs: Seq<ProcInfo>, i: int) -> bool {
    exists|j: int|
        0 <= j < i && is_process(#[trigger] rs[j], rs[i].ppid) && rs[i].tree_depth
            == rs[j].tree_depth.wrapping_add(1) && rs[i].tree_mask == (if rs[j].is_last_child {
            rs[j].tree_mask
        } else {
            rs[j].tree_mask | (1u32 << ((rs[j].tree_depth % 32) as u32))
        }) && marked_last(rows, rs[i])
}

/// Whether a row is one of some processes that stand side by side.
spec fn drawn_beside(row: ProcInfo, list: Seq<i32>, depth: u8, mask: u32, more: bool) -> bool {
    &&& !row.is_thread
    &&& row.tree_depth == depth
    &&& row.tree_mask == mask
    &&& exists|m: int|
        0 <= m < list.len() && #[trigger] list[m] == row.pid && row.is_last_child == (m + 1
            == list.len() && !more)
}

spec fn drawn(
    rows: Seq<ProcInfo>,
    rs: Seq<ProcInfo>,
    list: Seq<i32>,
    depth: u8,
    mask: u32,
    more: bool,
) -> bool {
    forall|i: int|
        0 <= i < rs.len() ==> #[trigger] drawn_below(rows, rs, i) || drawn_beside(
            rs[i],
            list,
            depth,
            mask,
            more,
        )
}

/// Whether no two threads have the same number.
pub open spec fn thread_ids_differ(rows: Seq<ProcInfo>) -> bool {
    forall|i: int, j: int|
        0 <= i < j < rows.len() && (#[trigger] rows[i]).is_thread && (#[trigger] rows[j]).is_thread
            ==> rows[i].tid != rows[j].tid
}

proof fn lemma_drawn_one(
    rows: Seq<ProcInfo>,
    a: Seq<ProcInfo>,
    r: Seq<ProcInfo>,
    i: int,
    by: int,
    list: Seq<i32>,
    depth: u8,
    mask: u32,
    more: bool,
)
    requires
        drawn_below(rows, a, i) || drawn_beside(a[i], list, depth, mask, more),
        0 <= i < a.len(),
        0 <= by,
        by + a.len() <= r.len(),
        forall|k: int| 0 <= k < a.len() ==> r[by + k] == #[trigger] a[k],
    ensures
        drawn_below(rows, r, by + i) || drawn_beside(r[by + i], list, depth, mask, more),
{
    assert(r[by + i] == a[i]);
    if drawn_below(rows, a, i) {
        lemma_drawn_shift(rows, a, r, i, by);
    }
}

proof fn lemma_drawn_concat(
    rows: Seq<ProcInfo>,
    a: Seq<ProcInfo>,
    b: Seq<ProcInfo>,
    list: Seq<i32>,
    depth: u8,
    mask: u32,
    more: bool,
)
    requires
        drawn(rows, a, list, depth, mask, more),
        drawn(rows, b, list, depth, mask, more),
    ensures
        drawn(rows, a + b, list, depth, mask, more),
{
    let r = a + b;
    let n = a.len() as int;
    assert forall|i: int| 0 <= i < r.len() implies #[trigger] drawn_below(rows, r, i)
        || drawn_beside(
        r[i],
        list,
        depth,
        mask,
        more,
    ) by {
        if i < n {
            assert(drawn_below(rows, a, i) || drawn_beside(a[i], list, depth, mask, more));
            lemma_drawn_one(rows, a, r, i, 0, list, depth, mask, more);
        } else {
            assert(drawn_below(rows, b, i - n) || drawn_beside(b[i - n], list, depth, mask, more));
            lemma_drawn_one(rows, b, r, i - n, n, list, depth, mask, more);
        }
    }
}

proof fn lemma_drawn_shift(
    rows: Seq<ProcInfo>,
    a: Seq<ProcInfo>,
    r: Seq<ProcInfo>,
    i: int,
    by: int,
)
    requires
        drawn_below(rows, a, i),
        0 <= i < a.len(),
        0 <= by,
        by + a.len() <= r.len(),
        forall|k: int| 0 <= k < a.len() ==> r[by + k] == #[trigger] a[k],
    ensures
        drawn_below(rows, r, by + i),
{
    let j = choose|j: int|
        0 <= j < i && is_process(#[trigger] a[j], a[i].ppid) && a[i].tree_depth
            == a[j].tree_depth.wrapping_add(1) && a[i].tree_mask == (if a[j].is_last_child {
            a[j].tree_mask
        } else {
            a[j].tree_mask | (1u32 << ((a[j].tree_depth % 32) as u32))
        }) && marked_last(rows, a[i]);
    assert(r[by + j] == a[j] && r[by + i] == a[i]);
}

/// The children of a process are sorted by their numbers.
proof fn lemma_children_sorted(rows: Seq<ProcInfo>, pid: i32, m: int)
    requires
        distinct(rows),
        0 <= m < children(rows, pid).len(),
    ensures
        forall|n: int| m < n < children(rows, pid).len() ==> children(rows, pid)[m] < #[trigger]
            children(rows, pid)[n],
        forall|k: int|
            0 <= k < rows.len() && !(#[trigger] rows[k]).is_thread && rows[k].ppid == pid
                ==> exists|n: int|
                0 <= n < children(rows, pid).len() && #[trigger] children(rows, pid)[n]
                    == rows[k].pid,
{
    let f = rows.filter(right_below(pid, false));
    let s = sorted(f, Key::Pid);
    lemma_below(rows, pid, false, Key::Pid);
    lemma_sorted_rows(f, Key::Pid);
    assert forall|n: int| m < n < children(rows, pid).len() implies children(rows, pid)[m]
        < #[trigger] children(rows, pid)[n] by {
        lemma_sorted_order(f, Key::Pid, m, n);
        assert(s[m].pid <= s[n].pid);
        lemma_filter_distinct(rows, right_below(pid, false));
        crate::order::lemma_ranking_exists(f, Key::Pid);
        let o = crate::order::ranking(f, Key::Pid);
        assert(s[m] == f[o[m]] && s[n] == f[o[n]]);
        assert(crate::order::stands_before(f, Key::Pid, o[m], o[n]));
        assert(f.contains(f[o[m]]) && f.contains(f[o[n]]));
        lemma_filter(rows, right_below(pid, false), f[o[m]]);
        lemma_filter(rows, right_below(pid, false), f[o[n]]);
        if o[m] < o[n] {
            assert(f[o[m]].pid != f[o[n]].pid);
        } else if o[n] < o[m] {
            assert(f[o[n]].pid != f[o[m]].pid);
        }
    }
    assert forall|k: int|
        0 <= k < rows.len() && !(#[trigger] rows[k]).is_thread && rows[k].ppid == pid implies exists|
        n: int,
    |
        0 <= n < children(rows, pid).len() && #[trigger] children(rows, pid)[n] == rows[k].pid by {
        assert(rows.contains(rows[k]));
        assert(s.contains(rows[k]));
        let n = choose|n: int| 0 <= n < s.len() && s[n] == rows[k];
        assert(children(rows, pid)[n] == rows[k].pid);
    }
}

/// What is chosen from processes of different numbers has different numbers.
proof fn lemma_filter_distinct(rows: Seq<ProcInfo>, pred: spec_fn(ProcInfo) -> bool)
    requires
        distinct(rows),
    ensures
        distinct(rows.filter(pred)),
    decreases rows.len(),
{
    reveal(Seq::filter);
    if rows.len() > 0 {
        let r = rows.drop_last();
        let f = rows.filter(pred);
        let g = r.filter(pred);
        assert forall|i: int, j: int|
            0 <= i < j < r.len() && !(#[trigger] r[i]).is_thread && !(#[trigger] r[j]).is_thread implies r[i].pid
            != r[j].pid by {
            assert(rows[i] == r[i] && rows[j] == r[j]);
        }
        lemma_filter_distinct(r, pred);
        if pred(rows.last()) {
            let p = rows.last();
            assert(f == g.push(p));
            assert forall|i: int, j: int|
                0 <= i < j < f.len() && !(#[trigger] f[i]).is_thread && !(
                #[trigger] f[j]).is_thread implies f[i].pid != f[j].pid by {
                if j < g.len() {
                    assert(g[i] == f[i] && g[j] == f[j]);
                } else {
                    assert(g.contains(g[i]));
                    lemma_filter(r, pred, g[i]);
                    let k = choose|k: int| 0 <= k < r.len() && r[k] == g[i];
                    assert(rows[k] == f[i] && rows[rows.len() - 1] == f[j]);
                }
            }
        }
    }
}

/// The mark of a child says whether it is the last one below its parent.
proof fn lemma_child_marked(rows: Seq<ProcInfo>, pid: i32, row: ProcInfo, m: int)
    requires
        distinct(rows),
        !row.is_thread,
        row.ppid == pid,
        0 <= m < children(rows, pid).len(),
        children(rows, pid)[m] == row.pid,
        row.is_last_child == (m + 1 == children(rows, pid).len() && threads(rows, pid).len() == 0),
    ensures
        marked_last(rows, row),
{
    let cs = children(rows, pid);
    let ts = threads(rows, pid);
    lemma_children_sorted(rows, pid, m);
    lemma_below(rows, pid, true, Key::Tid);
    if row.is_last_child {
        assert forall|k: int| 0 <= k < rows.len() && (#[trigger] rows[k]).ppid == pid implies !(
        rows[k].is_thread || rows[k].pid > row.pid) by {
            assert(rows.contains(rows[k]));
            if rows[k].is_thread {
                assert(ts.contains(rows[k]));
            } else {
                let n = choose|n: int| 0 <= n < cs.len() && #[trigger] cs[n] == rows[k].pid;
                if n < m {
                    lemma_children_sorted(rows, pid, n);
                }
            }
        }
    } else if ts.len() > 0 {
        assert(ts.contains(ts[0]));
        let k = choose|k: int| 0 <= k < rows.len() && rows[k] == ts[0];
        assert(rows[k].ppid == row.ppid && rows[k].is_thread);
    } else {
        assert(cs[m] < cs[m + 1]);
        assert(cs.contains(cs[m + 1]));
        lemma_children(rows, pid, cs[m + 1]);
        let q = choose|q: ProcInfo| #[trigger]
            rows.contains(q) && is_process(q, cs[m + 1]) && q.ppid == pid;
        let k = choose|k: int| 0 <= k < rows.len() && rows[k] == q;
        assert(rows[k].ppid == row.ppid && rows[k].pid > row.pid);
    }
}

/// The mark of a thread says whether it is the last one below its process.
proof fn lemma_thread_marked(rows: Seq<ProcInfo>, pid: i32, n: int, row: ProcInfo)
    requires
        thread_ids_differ(rows),
        0 <= n < threads(rows, pid).len(),
        row.is_thread,
        row.ppid == pid,
        row.tid == threads(rows, pid)[n].tid,
        row.is_last_child == (n == threads(rows, pid).len() - 1),
    ensures
        marked_last(rows, row),
{
    let ts = threads(rows, pid);
    let f = rows.filter(right_below(pid, true));
    lemma_below(rows, pid, true, Key::Tid);
    lemma_sorted_rows(f, Key::Tid);
    if row.is_last_child {
        assert forall|k: int| 0 <= k < rows.len() && (#[trigger] rows[k]).ppid == pid implies !(
        rows[k].is_thread && rows[k].tid > row.tid) by {
            assert(rows.contains(rows[k]));
            if rows[k].is_thread {
                assert(ts.contains(rows[k]));
                let j = choose|j: int| 0 <= j < ts.len() && ts[j] == rows[k];
                if j < n {
                    lemma_sorted_order(f, Key::Tid, j, n);
                }
            }
        }
    } else {
        lemma_sorted_order(f, Key::Tid, n, n + 1);
        assert(ts[n].tid <= ts[n + 1].tid);
        assert(ts.contains(ts[n]) && ts.contains(ts[n + 1]));
        let k = choose|k: int| 0 <= k < rows.len() && rows[k] == ts[n + 1];
        lemma_threads_differ(rows, pid, n);
        assert(rows[k].ppid == row.ppid && rows[k].is_thread && rows[k].tid > row.tid);
    }
}

/// Neighbouring threads of a process have different numbers.
proof fn lemma_threads_differ(rows: Seq<ProcInfo>, pid: i32, n: int)
    requires
        thread_ids_differ(rows),
        0 <= n,
        n + 1 < threads(rows, pid).len(),
    ensures
        threads(rows, pid)[n].tid != threads(rows, pid)[n + 1].tid,
{
    let pred = right_below(pid, true);
    let f = rows.filter(pred);
    let s = sorted(f, Key::Tid);
    lemma_sorted_rows(f, Key::Tid);
    crate::order::lemma_ranking_exists(f, Key::Tid);
    let o = crate::order::ranking(f, Key::Tid);
    assert(s[n] == f[o[n]] && s[n + 1] == f[o[n + 1]]);
    assert(crate::order::stands_before(f, Key::Tid, o[n], o[n + 1]));
    lemma_filter_threads_differ(rows, pred);
    assert(f.contains(f[o[n]]) && f.contains(f[o[n + 1]]));
    lemma_filter(rows, pred, f[o[n]]);
    lemma_filter(rows, pred, f[o[n + 1]]);
    if o[n] < o[n + 1] {
        assert(f[o[n]].tid != f[o[n + 1]].tid);
    } else if o[n + 1] < o[n] {
        assert(f[o[n + 1]].tid != f[o[n]].tid);
    }
}

proof fn lemma_filter_threads_differ(rows: Seq<ProcInfo>, pred: spec_fn(ProcInfo) -> bool)
    requires
        thread_ids_differ(rows),
    ensures
        thread_ids_differ(rows.filter(pred)),
    decreases rows.len(),
{
    reveal(Seq::filter);
    if rows.len() > 0 {
        let r = rows.drop_last();
        let f = rows.filter(pred);
        let g = r.filter(pred);
        assert forall|i: int, j: int|
            0 <= i < j < r.len() && (#[trigger] r[i]).is_thread && (#[trigger] r[j]).is_thread implies r[i].tid
            != r[j].tid by {
            assert(rows[i] == r[i] && rows[j] == r[j]);
        }
        lemma_filter_threads_differ(r, pred);
        if pred(rows.last()) {
            let p = rows.last();
            assert(f == g.push(p));
            assert forall|i: int, j: int|
                0 <= i < j < f.len() && (#[trigger] f[i]).is_thread && (
                #[trigger] f[j]).is_thread implies f[i].tid != f[j].tid by {
                if j < g.len() {
                    assert(g[i] == f[i] && g[j] == f[j]);
                } else {
                    assert(g.contains(g[i]));
                    lemma_filter(r, pred, g[i]);
                    let k = choose|k: int| 0 <= k < r.len() && r[k] == g[i];
                    assert(rows[k] == f[i] && rows[rows.len() - 1] == f[j]);
                }
            }
        }
    }
}

/// A row of the tree that is a process is the row of the table with its number.
proof fn lemma_row_taken(t: Tree, row: ProcInfo, pid: i32)
    requires
        distinct(t.rows),
        from_table(t, row),
        !row.is_thread,
        children(t.rows, pid).contains(row.pid),
    ensures
        row.ppid == pid,
{
    lemma_children(t.rows, pid, row.pid);
    let q = choose|q: ProcInfo| #[trigger]
        t.rows.contains(q) && is_process(q, row.pid) && q.ppid == pid;
    let o = choose|o: ProcInfo| #[trigger]
        t.rows.contains(o) && row == o.placed(row.tree_depth, row.tree_mask, row.is_last_child);
    let a = choose|a: int| 0 <= a < t.rows.len() && t.rows[a] == q;
    let b = choose|b: int| 0 <= b < t.rows.len() && t.rows[b] == o;
    assert(a == b);
}

proof fn lemma_child_drawn(t: Tree, pid: i32, w: Seq<ProcInfo>, rs: Seq<ProcInfo>, i: int)
    requires
        distinct(t.rows),
        0 < i <= w.len() < rs.len(),
        forall|k: int| 0 <= k < w.len() ==> rs[1 + k] == #[trigger] w[k],
        is_process(rs[0], pid),
        from_table(t, w[i - 1]),
        drawn_below(t.rows, w, i - 1) || drawn_beside(
            w[i - 1],
            children(t.rows, pid),
            rs[0].tree_depth.wrapping_add(1),
            mask_below(rs[0].tree_depth, rs[0].tree_mask, rs[0].is_last_child),
            threads(t.rows, pid).len() > 0,
        ),
    ensures
        drawn_below(t.rows, rs, i),
{
    let row = w[i - 1];
    assert(rs[1 + (i - 1)] == row);
    if drawn_below(t.rows, w, i - 1) {
        lemma_drawn_shift(t.rows, w, rs, i - 1, 1);
    } else {
        let cs = children(t.rows, pid);
        let more = threads(t.rows, pid).len() > 0;
        let m = choose|m: int|
            0 <= m < cs.len() && #[trigger] cs[m] == row.pid && row.is_last_child == (m + 1
                == cs.len() && !more);
        assert(cs.contains(row.pid));
        lemma_row_taken(t, row, pid);
        lemma_child_marked(t.rows, pid, row, m);
        assert(is_process(rs[0], rs[i].ppid));
    }
}

proof fn lemma_thread_drawn(t: Tree, pid: i32, rs: Seq<ProcInfo>, i: int, k: int)
    requires
        thread_ids_differ(t.rows),
        0 < i < rs.len(),
        is_process(rs[0], pid),
        0 <= k < threads(t.rows, pid).len(),
        rs[i] == threads(t.rows, pid)[k].placed(
            rs[0].tree_depth.wrapping_add(1),
            mask_below(rs[0].tree_depth, rs[0].tree_mask, rs[0].is_last_child),
            k == threads(t.rows, pid).len() - 1,
        ),
    ensures
        drawn_below(t.rows, rs, i),
{
    let ts = threads(t.rows, pid);
    lemma_below(t.rows, pid, true, Key::Tid);
    assert(ts.contains(ts[k]));
    lemma_thread_marked(t.rows, pid, k, rs[i]);
    assert(is_process(rs[0], rs[i].ppid));
}

/// A process, what its children's visits list and its threads, one behind the
/// other, are drawn below each other.
proof fn lemma_block_drawn(t: Tree, pid: i32, w: Seq<ProcInfo>, tail: Seq<ProcInfo>, rs: Seq<ProcInfo>)
    requires
        distinct(t.rows),
        thread_ids_differ(t.rows),
        rs.len() == 1 + w.len() + tail.len(),
        is_process(rs[0], pid),
        forall|k: int| 0 <= k < w.len() ==> rs[1 + k] == #[trigger] w[k],
        forall|k: int| 0 <= k < tail.len() ==> rs[1 + w.len() + k] == #[trigger] tail[k],
        taken(t, w),
        drawn(
            t.rows,
            w,
            children(t.rows, pid),
            rs[0].tree_depth.wrapping_add(1),
            mask_below(rs[0].tree_depth, rs[0].tree_mask, rs[0].is_last_child),
            threads(t.rows, pid).len() > 0,
        ),
        tail.len() == 0 || tail == placed_threads(
            threads(t.rows, pid),
            rs[0].tree_depth.wrapping_add(1),
            mask_below(rs[0].tree_depth, rs[0].tree_mask, rs[0].is_last_child),
        ),
    ensures
        forall|i: int| 0 < i < rs.len() ==> #[trigger] drawn_below(t.rows, rs, i),
{
    assert forall|i: int| 0 < i < rs.len() implies #[trigger] drawn_below(t.rows, rs, i) by {
        if i <= w.len() {
            assert(from_table(t, w[i - 1]));
            assert(drawn_below(t.rows, w, i - 1) || drawn_beside(
                w[i - 1],
                children(t.rows, pid),
                rs[0].tree_depth.wrapping_add(1),
                mask_below(rs[0].tree_depth, rs[0].tree_mask, rs[0].is_last_child),
                threads(t.rows, pid).len() > 0,
            ));
            lemma_child_drawn(t, pid, w, rs, i);
        } else {
            let k = i - 1 - w.len();
            assert(rs[1 + w.len() + k] == tail[k]);
            lemma_thread_drawn(t, pid, rs, i, k);
        }
    }
}

proof fn lemma_visit_drawn(t: Tree, pid: i32, depth: u8, mask: u32, last: bool, visited: Set<i32>)
    requires
        distinct(t.rows),
        thread_ids_differ(t.rows),
    ensures
        ({
            let rs = visit(t, pid, depth, mask, last, visited).0;
            &&& rs.len() > 0 ==> rs[0].pid == pid && !rs[0].is_thread && rs[0].tree_depth == depth
                && rs[0].tree_mask == mask && rs[0].is_last_child == last
            &&& forall|i: int| 0 < i < rs.len() ==> #[trigger] drawn_below(t.rows, rs, i)
        }),
    decreases unvisited(t.rows, visited), 0nat,
{
    lemma_process_of(t.rows, pid);
    let rs = visit(t, pid, depth, mask, last, visited).0;
    if process_of(t.rows, pid) is Some && !visited.contains(pid) && t.shown.contains(pid)
        && !t.collapsed.contains(pid) {
        lemma_unvisited_less(t.rows, visited, pid);
        let cs = children(t.rows, pid);
        let ts = threads(t.rows, pid);
        let next = depth.wrapping_add(1);
        let below = mask_below(depth, mask, last);
        let mid = visited.insert(pid);
        let more = ts.len() > 0;
        let w = visit_first(t, cs, cs.len(), next, below, more, mid).0;
        lemma_visit_first_drawn(t, cs, cs.len(), next, below, more, mid);
        lemma_visit_first_taken(t, cs, cs.len(), next, below, more, mid);
        let tail = if t.thread_mode {
            placed_threads(ts, next, below)
        } else {
            seq![]
        };
        let head = (process_of(t.rows, pid)->0).placed(depth, mask, last);
        assert(rs == seq![head] + w + tail);
        lemma_block_drawn(t, pid, w, tail, rs);
    }
}

proof fn lemma_visit_first_drawn(
    t: Tree,
    list: Seq<i32>,
    k: nat,
    depth: u8,
    mask: u32,
    more: bool,
    visited: Set<i32>,
)
    requires
        k <= list.len(),
        distinct(t.rows),
        thread_ids_differ(t.rows),
    ensures
        drawn(
            t.rows,
            visit_first(t, list, k, depth, mask, more, visited).0,
            list,
            depth,
            mask,
            more,
        ),
    decreases unvisited(t.rows, visited), k + 1,
{
    if k > 0 {
        lemma_visit_first_grows(t, list, k, depth, mask, more, visited);
        lemma_visit_first_drawn(t, list, (k - 1) as nat, depth, mask, more, visited);
        let a = visit_first(t, list, (k - 1) as nat, depth, mask, more, visited);
        lemma_visit_first_grows(t, list, (k - 1) as nat, depth, mask, more, visited);
        assert(visited.union(a.1) =~= a.1);
        lemma_unvisited_fewer(t.rows, visited, a.1);
        let last = k == list.len() && !more;
        let b = visit(t, list[k - 1], depth, mask, last, a.1);
        lemma_visit_drawn(t, list[k - 1], depth, mask, last, a.1);
        assert forall|i: int| 0 <= i < b.0.len() implies #[trigger] drawn_below(t.rows, b.0, i)
            || drawn_beside(b.0[i], list, depth, mask, more) by {
            if i == 0 {
                assert(list[k - 1] == b.0[0].pid);
            }
        }
        lemma_drawn_concat(t.rows, a.0, b.0, list, depth, mask, more);
    }
}

/// Where processes and threads have different numbers, each row of the tree is a
/// process at the top, at no depth and without vertical lines, marked as the last
/// one if it is the last at the top; or it stands behind its parent, one step
/// deeper, with the lines of the parent and one more where the parent is not the
/// last one, and is marked as the last one below its parent if it is.
pub proof fn lemma_listed_drawn(t: Tree, i: int)
    requires
        distinct(t.rows),
        thread_ids_differ(t.rows),
        0 <= i < listing(t).len(),
    ensures
        drawn_below(t.rows, listing(t), i) || {
            let row = listing(t)[i];
            &&& !row.is_thread
            &&& row.tree_depth == 0
            &&& row.tree_mask == 0
            &&& exists|m: int|
                0 <= m < roots(t.rows).len() && #[trigger] roots(t.rows)[m] == row.pid
                    && row.is_last_child == (m + 1 == roots(t.rows).len())
        },
{
    let rs = roots(t.rows);
    lemma_visit_first_drawn(t, rs, rs.len(), 0, 0, false, Set::empty());
    assert(drawn_below(t.rows, listing(t), i) || drawn_beside(listing(t)[i], rs, 0, 0, false));
}

/// The processes at the top are those without a parent in the table, or whose
/// parent has the number zero.
pub proof fn lemma_tops(rows: Seq<ProcInfo>, pid: i32)
    ensures
        roots(rows).contains(pid) <==> exists|i: int|
            0 <= i < rows.len() && !(#[trigger] rows[i]).is_thread && rows[i].pid == pid && (
            rows[i].ppid == 0 || forall|j: int|
                0 <= j < rows.len() && !(#[trigger] rows[j]).is_thread ==> rows[j].pid
                    != rows[i].ppid),
{
    let f = rows.filter(at_top(rows));
    if roots(rows).contains(pid) {
        let k = choose|k: int| 0 <= k < roots(rows).len() && roots(rows)[k] == pid;
        assert(f.contains(f[k]));
        lemma_filter(rows, at_top(rows), f[k]);
        let i = choose|i: int| 0 <= i < rows.len() && rows[i] == f[k];
        assert(!rows[i].is_thread && rows[i].pid == pid);
        if rows[i].ppid != 0 {
            assert forall|j: int| 0 <= j < rows.len() && !(#[trigger] rows[j]).is_thread implies rows[j].pid
                != rows[i].ppid by {
                if rows[j].pid == rows[i].ppid {
                    assert(is_process(rows[j], rows[i].ppid));
                }
            }
        }
    }
    if exists|i: int|
        0 <= i < rows.len() && !(#[trigger] rows[i]).is_thread && rows[i].pid == pid && (
        rows[i].ppid == 0 || forall|j: int|
            0 <= j < rows.len() && !(#[trigger] rows[j]).is_thread ==> rows[j].pid
                != rows[i].ppid) {
        let i = choose|i: int|
            0 <= i < rows.len() && !(#[trigger] rows[i]).is_thread && rows[i].pid == pid && (
            rows[i].ppid == 0 || forall|j: int|
                0 <= j < rows.len() && !(#[trigger] rows[j]).is_thread ==> rows[j].pid
                    != rows[i].ppid);
        if has_process(rows, rows[i].ppid) && rows[i].ppid != 0 {
            let j = choose|j: int|
                0 <= j < rows.len() && is_process(#[trigger] rows[j], rows[i].ppid);
            assert(rows[j].pid != rows[i].ppid);
        }
        lemma_filter(rows, at_top(rows), rows[i]);
        assert(rows.contains(rows[i]));
        let k = choose|k: int| 0 <= k < f.len() && f[k] == rows[i];
        assert(roots(rows)[k] == pid);
    }
}

// In which order the rows of the tree stand

/// Whether two rows with the same parent, one behind the other, stand in order:
/// children by their numbers, then threads by theirs.
pub open spec fn siblings_in_order(a: ProcInfo, b: ProcInfo) -> bool {
    if a.is_thread {
        b.is_thread && a.tid <= b.tid
    } else {
        b.is_thread || a.pid < b.pid
    }
}

spec fn ordered(t: Tree, rs: Seq<ProcInfo>) -> bool {
    forall|i: int, j: int|
        0 <= i < j < rs.len() && (#[trigger] rs[i]).ppid == (#[trigger] rs[j]).ppid && has_process(
            t.rows,
            rs[i].ppid,
        ) ==> siblings_in_order(rs[i], rs[j])
}

/// Whether the parent of each process of a number was visited, or is not there.
spec fn anchored(t: Tree, pid: i32, visited: Set<i32>) -> bool {
    match process_of(t.rows, pid) {
        Some(p) => visited.contains(p.ppid) || !has_process(t.rows, p.ppid),
        None => true,
    }
}

/// What a visit lists behind its first row stands below one of its rows.
proof fn lemma_visit_inside(
    t: Tree,
    pid: i32,
    depth: u8,
    mask: u32,
    last: bool,
    visited: Set<i32>,
    i: int,
)
    requires
        distinct(t.rows),
        0 < i < visit(t, pid, depth, mask, last, visited).0.len(),
    ensures
        has_process(
            visit(t, pid, depth, mask, last, visited).0,
            visit(t, pid, depth, mask, last, visited).0[i].ppid,
        ),
{
    let v = visit(t, pid, depth, mask, last, visited);
    let rs = v.0;
    lemma_process_of(t.rows, pid);
    lemma_visit_hangs(t, pid, depth, mask, last, visited);
    lemma_visit_lists(t, pid, depth, mask, last, visited);
    assert(rs[0].pid == pid && !rs[0].is_thread);
    if below_parent(rs, i) {
        let j = choose|j: int|
            0 <= j < i && is_process(#[trigger] rs[j], rs[i].ppid) && rs[i].tree_depth
                == rs[j].tree_depth.wrapping_add(1);
        assert(is_process(rs[j], rs[i].ppid));
    } else {
        assert(seq![pid].contains(rs[i].pid));
        assert(rs[i].pid == pid);
        assert(rs[0].pid != rs[i].pid);
    }
}

/// The parent of an anchored process is not listed by its visit.
proof fn lemma_visit_outside(
    t: Tree,
    pid: i32,
    depth: u8,
    mask: u32,
    last: bool,
    visited: Set<i32>,
    x: i32,
)
    requires
        visited.contains(x) || !has_process(t.rows, x),
    ensures
        !has_process(visit(t, pid, depth, mask, last, visited).0, x),
{
    let v = visit(t, pid, depth, mask, last, visited);
    lemma_visit_lists(t, pid, depth, mask, last, visited);
    lemma_visit_taken(t, pid, depth, mask, last, visited);
    if has_process(v.0, x) {
        let i = choose|i: int| 0 <= i < v.0.len() && is_process(#[trigger] v.0[i], x);
        assert(v.1.contains(v.0[i].pid) && !visited.contains(v.0[i].pid));
        assert(from_table(t, v.0[i]));
        lemma_taken_has(t, v.0[i]);
    }
}

proof fn lemma_taken_has(t: Tree, row: ProcInfo)
    requires
        from_table(t, row),
        !row.is_thread,
    ensures
        has_process(t.rows, row.pid),
{
    let p = choose|p: ProcInfo| #[trigger]
        t.rows.contains(p) && row == p.placed(row.tree_depth, row.tree_mask, row.is_last_child);
    let k = choose|k: int| 0 <= k < t.rows.len() && t.rows[k] == p;
    assert(is_process(t.rows[k], row.pid));
}

/// What several visits list is one of their processes, or stands below one of
/// their rows.
proof fn lemma_visit_first_inside(
    t: Tree,
    list: Seq<i32>,
    k: nat,
    depth: u8,
    mask: u32,
    more: bool,
    visited: Set<i32>,
    i: int,
)
    requires
        k <= list.len(),
        distinct(t.rows),
        0 <= i < visit_first(t, list, k, depth, mask, more, visited).0.len(),
    ensures
        ({
            let rs = visit_first(t, list, k, depth, mask, more, visited).0;
            has_process(rs, rs[i].ppid) || (!rs[i].is_thread && exists|m: int|
                0 <= m < k && #[trigger] list[m] == rs[i].pid)
        }),
    decreases k,
{
    if k > 0 {
        lemma_visit_first_grows(t, list, (k - 1) as nat, depth, mask, more, visited);
        let a = visit_first(t, list, (k - 1) as nat, depth, mask, more, visited);
        assert(visited.union(a.1) =~= a.1);
        let last = k == list.len() && !more;
        let b = visit(t, list[k - 1], depth, mask, last, a.1);
        let rs = a.0 + b.0;
        let n = a.0.len() as int;
        assert(rs == visit_first(t, list, k, depth, mask, more, visited).0);
        if i < n {
            lemma_visit_first_inside(t, list, (k - 1) as nat, depth, mask, more, visited, i);
            assert(rs[i] == a.0[i]);
            if has_process(a.0, a.0[i].ppid) {
                let j = choose|j: int|
                    0 <= j < a.0.len() && is_process(#[trigger] a.0[j], a.0[i].ppid);
                assert(is_process(rs[j], rs[i].ppid));
            }
        } else if i > n {
            lemma_visit_inside(t, list[k - 1], depth, mask, last, a.1, i - n);
            assert(rs[i] == b.0[i - n]);
            let j = choose|j: int|
                0 <= j < b.0.len() && is_process(#[trigger] b.0[j], b.0[i - n].ppid);
            assert(rs[n + j] == b.0[j]);
        } else {
            lemma_process_of(t.rows, list[k - 1]);
            assert(rs[i] == b.0[0]);
            assert(list[k - 1] == rs[i].pid);
        }
    }
}

proof fn lemma_visit_ordered(t: Tree, pid: i32, depth: u8, mask: u32, last: bool, visited: Set<i32>)
    requires
        distinct(t.rows),
        anchored(t, pid, visited),
    ensures
        ordered(t, visit(t, pid, depth, mask, last, visited).0),
    decreases unvisited(t.rows, visited), 0nat,
{
    lemma_process_of(t.rows, pid);
    let rs = visit(t, pid, depth, mask, last, visited).0;
    if process_of(t.rows, pid) is Some && !visited.contains(pid) && t.shown.contains(pid)
        && !t.collapsed.contains(pid) {
        lemma_unvisited_less(t.rows, visited, pid);
        let p = process_of(t.rows, pid)->0;
        let cs = children(t.rows, pid);
        let ts = threads(t.rows, pid);
        let next = depth.wrapping_add(1);
        let below = mask_below(depth, mask, last);
        let mid = visited.insert(pid);
        let more = ts.len() > 0;
        let w = visit_first(t, cs, cs.len(), next, below, more, mid).0;
        assert forall|m: int| 0 <= m < cs.len() implies anchored(t, #[trigger] cs[m], mid) by {
            lemma_child_anchored(t, pid, m, mid);
        }
        assert forall|m: int, n: int| 0 <= m < n < cs.len() implies #[trigger] cs[m]
            < #[trigger] cs[n] by {
            lemma_children_sorted(t.rows, pid, m);
        }
        lemma_visit_first_ordered(t, cs, cs.len(), next, below, more, mid, true);
        lemma_visit_outside(t, pid, depth, mask, last, visited, p.ppid);
        assert forall|i: int, j: int|
            0 <= i < j < rs.len() && (#[trigger] rs[i]).ppid == (#[trigger] rs[j]).ppid
                && has_process(t.rows, rs[i].ppid) implies siblings_in_order(rs[i], rs[j]) by {
            if i == 0 {
                lemma_visit_inside(t, pid, depth, mask, last, visited, j);
                assert(rs[0].ppid == p.ppid);
            } else if j <= w.len() {
                assert(rs[i] == w[i - 1] && rs[j] == w[j - 1]);
            } else if i > w.len() {
                let a = i - 1 - w.len();
                let b = j - 1 - w.len();
                lemma_threads_in_order(t.rows, pid, a, b);
                assert(rs[i].tid == ts[a].tid && rs[j].tid == ts[b].tid);
            } else {
                let b = j - 1 - w.len();
                assert(rs[i] == w[i - 1]);
                lemma_below(t.rows, pid, true, Key::Tid);
                assert(ts.contains(ts[b]));
                assert(rs[j].ppid == pid && rs[j].is_thread);
                lemma_visit_first_inside(t, cs, cs.len(), next, below, more, mid, i - 1);
                lemma_visit_first_lists(t, cs, cs.len(), next, below, more, mid);
                if has_process(w, pid) {
                    let k = choose|k: int| 0 <= k < w.len() && is_process(#[trigger] w[k], pid);
                    assert(!mid.contains(w[k].pid));
                }
            }
        }
    }
}

proof fn lemma_threads_in_order(rows: Seq<ProcInfo>, pid: i32, a: int, b: int)
    requires
        0 <= a < b < threads(rows, pid).len(),
    ensures
        threads(rows, pid)[a].tid <= threads(rows, pid)[b].tid,
        threads(rows, pid)[a].is_thread && threads(rows, pid)[b].is_thread,
        threads(rows, pid)[a].ppid == pid && threads(rows, pid)[b].ppid == pid,
{
    let f = rows.filter(right_below(pid, true));
    let ts = threads(rows, pid);
    lemma_below(rows, pid, true, Key::Tid);
    lemma_sorted_rows(f, Key::Tid);
    lemma_sorted_order(f, Key::Tid, a, b);
    assert(ts.contains(ts[a]) && ts.contains(ts[b]));
}

proof fn lemma_child_anchored(t: Tree, pid: i32, m: int, visited: Set<i32>)
    requires
        distinct(t.rows),
        visited.contains(pid),
        0 <= m < children(t.rows, pid).len(),
    ensures
        anchored(t, children(t.rows, pid)[m], visited),
        (process_of(t.rows, children(t.rows, pid)[m])->0).ppid == pid,
{
    let c = children(t.rows, pid)[m];
    assert(children(t.rows, pid).contains(c));
    lemma_children(t.rows, pid, c);
    let q = choose|q: ProcInfo| #[trigger]
        t.rows.contains(q) && is_process(q, c) && q.ppid == pid;
    let k = choose|k: int| 0 <= k < t.rows.len() && t.rows[k] == q;
    lemma_process_at(t.rows, k);
}

proof fn lemma_visit_first_ordered(
    t: Tree,
    list: Seq<i32>,
    k: nat,
    depth: u8,
    mask: u32,
    more: bool,
    visited: Set<i32>,
    sorted: bool,
)
    requires
        k <= list.len(),
        distinct(t.rows),
        forall|m: int| 0 <= m < list.len() ==> anchored(t, #[trigger] list[m], visited),
        sorted ==> forall|m: int, n: int|
            0 <= m < n < list.len() ==> #[trigger] list[m] < #[trigger] list[n],
        !sorted ==> forall|m: int|
            0 <= m < list.len() ==> match process_of(t.rows, #[trigger] list[m]) {
                Some(p) => !has_process(t.rows, p.ppid),
                None => true,
            },
    ensures
        ordered(t, visit_first(t, list, k, depth, mask, more, visited).0),
    decreases unvisited(t.rows, visited), k + 1,
{
    if k > 0 {
        let h = (k - 1) as nat;
        lemma_visit_first_grows(t, list, h, depth, mask, more, visited);
        lemma_visit_first_ordered(t, list, h, depth, mask, more, visited, sorted);
        let a = visit_first(t, list, h, depth, mask, more, visited);
        assert(visited.union(a.1) =~= a.1);
        lemma_unvisited_fewer(t.rows, visited, a.1);
        let pid = list[k - 1];
        let last = k == list.len() && !more;
        let b = visit(t, pid, depth, mask, last, a.1);
        assert(anchored(t, list[k - 1], visited));
        lemma_visit_ordered(t, pid, depth, mask, last, a.1);
        lemma_visit_first_lists(t, list, h, depth, mask, more, visited);
        lemma_visit_lists(t, pid, depth, mask, last, a.1);
        let rs = a.0 + b.0;
        let n = a.0.len() as int;
        assert forall|i: int, j: int|
            0 <= i < j < rs.len() && (#[trigger] rs[i]).ppid == (#[trigger] rs[j]).ppid
                && has_process(t.rows, rs[i].ppid) implies siblings_in_order(rs[i], rs[j]) by {
            if j < n {
                assert(rs[i] == a.0[i] && rs[j] == a.0[j]);
            } else if i >= n {
                assert(rs[i] == b.0[i - n] && rs[j] == b.0[j - n]);
            } else {
                assert(rs[i] == a.0[i] && rs[j] == b.0[j - n]);
                lemma_across(
                    t,
                    list,
                    k,
                    depth,
                    mask,
                    more,
                    visited,
                    sorted,
                    i,
                    j - n,
                );
            }
        }
    }
}

/// Rows of different visits with the same parent are in order.
proof fn lemma_across(
    t: Tree,
    list: Seq<i32>,
    k: nat,
    depth: u8,
    mask: u32,
    more: bool,
    visited: Set<i32>,
    sorted: bool,
    i: int,
    j: int,
)
    requires
        0 < k <= list.len(),
        distinct(t.rows),
        forall|m: int| 0 <= m < list.len() ==> anchored(t, #[trigger] list[m], visited),
        sorted ==> forall|m: int, n: int|
            0 <= m < n < list.len() ==> #[trigger] list[m] < #[trigger] list[n],
        !sorted ==> forall|m: int|
            0 <= m < list.len() ==> match process_of(t.rows, #[trigger] list[m]) {
                Some(p) => !has_process(t.rows, p.ppid),
                None => true,
            },
        ({
            let a = visit_first(t, list, (k - 1) as nat, depth, mask, more, visited);
            let b = visit(t, list[k - 1], depth, mask, k == list.len() && !more, a.1);
            &&& 0 <= i < a.0.len()
            &&& 0 <= j < b.0.len()
            &&& a.0[i].ppid == b.0[j].ppid
            &&& has_process(t.rows, a.0[i].ppid)
        }),
    ensures
        ({
            let a = visit_first(t, list, (k - 1) as nat, depth, mask, more, visited);
            let b = visit(t, list[k - 1], depth, mask, k == list.len() && !more, a.1);
            siblings_in_order(a.0[i], b.0[j])
        }),
{
    let h = (k - 1) as nat;
    let a = visit_first(t, list, h, depth, mask, more, visited);
    let pid = list[k - 1];
    let last = k == list.len() && !more;
    let b = visit(t, pid, depth, mask, last, a.1);
    let x = a.0[i].ppid;
    lemma_visit_first_grows(t, list, h, depth, mask, more, visited);
    lemma_visit_first_lists(t, list, h, depth, mask, more, visited);
    lemma_visit_lists(t, pid, depth, mask, last, a.1);
    lemma_visit_first_inside(t, list, h, depth, mask, more, visited, i);
    lemma_process_of(t.rows, pid);
    assert(anchored(t, list[k - 1], visited));
    if j > 0 {
        lemma_visit_inside(t, pid, depth, mask, last, a.1, j);
        let q = choose|q: int| 0 <= q < b.0.len() && is_process(#[trigger] b.0[q], x);
        assert(!a.1.contains(b.0[q].pid));
        if has_process(a.0, x) {
            let r = choose|r: int| 0 <= r < a.0.len() && is_process(#[trigger] a.0[r], x);
            assert(a.1.contains(a.0[r].pid));
        } else {
            let m = choose|m: int| 0 <= m < h && #[trigger] list[m] == a.0[i].pid;
            lemma_head_parent(t, list, h, depth, mask, more, visited, i, m);
        }
    } else {
        assert(b.0[0].ppid == (process_of(t.rows, pid)->0).ppid);
        if has_process(a.0, x) {
            let r = choose|r: int| 0 <= r < a.0.len() && is_process(#[trigger] a.0[r], x);
            assert(!visited.contains(a.0[r].pid));
        } else {
            let m = choose|m: int| 0 <= m < h && #[trigger] list[m] == a.0[i].pid;
            if sorted {
                assert(list[m] < list[k - 1]);
            }
        }
    }
}

/// The parent of one of some processes side by side was visited before them.
proof fn lemma_head_parent(
    t: Tree,
    list: Seq<i32>,
    k: nat,
    depth: u8,
    mask: u32,
    more: bool,
    visited: Set<i32>,
    i: int,
    m: int,
)
    requires
        k <= list.len(),
        distinct(t.rows),
        0 <= m < list.len(),
        anchored(t, list[m], visited),
        0 <= i < visit_first(t, list, k, depth, mask, more, visited).0.len(),
        !visit_first(t, list, k, depth, mask, more, visited).0[i].is_thread,
        visit_first(t, list, k, depth, mask, more, visited).0[i].pid == list[m],
        has_process(t.rows, visit_first(t, list, k, depth, mask, more, visited).0[i].ppid),
    ensures
        visited.contains(visit_first(t, list, k, depth, mask, more, visited).0[i].ppid),
        visit_first(t, list, k, depth, mask, more, visited).1.contains(
            visit_first(t, list, k, depth, mask, more, visited).0[i].ppid,
        ),
{
    let v = visit_first(t, list, k, depth, mask, more, visited);
    let row = v.0[i];
    lemma_visit_first_grows(t, list, k, depth, mask, more, visited);
    lemma_visit_first_taken(t, list, k, depth, mask, more, visited);
    assert(from_table(t, v.0[i]));
    let o = choose|o: ProcInfo| #[trigger]
        t.rows.contains(o) && row == o.placed(row.tree_depth, row.tree_mask, row.is_last_child);
    let b = choose|b: int| 0 <= b < t.rows.len() && t.rows[b] == o;
    lemma_process_at(t.rows, b);
}

/// Where processes have different numbers and none has the number zero, rows with
/// the same parent stand in order: the children by their numbers, and behind them
/// the threads by theirs.
pub proof fn lemma_listed_in_order(t: Tree, i: int, j: int)
    requires
        distinct(t.rows),
        forall|k: int| 0 <= k < t.rows.len() ==> (#[trigger] t.rows[k]).pid != 0,
        0 <= i < j < listing(t).len(),
        listing(t)[i].ppid == listing(t)[j].ppid,
        has_process(t.rows, listing(t)[i].ppid),
    ensures
        siblings_in_order(listing(t)[i], listing(t)[j]),
{
    let rs = roots(t.rows);
    assert forall|m: int| 0 <= m < rs.len() implies match process_of(t.rows, #[trigger] rs[m]) {
        Some(p) => !has_process(t.rows, p.ppid),
        None => true,
    } by {
        lemma_root_alone(t.rows, m);
    }
    lemma_visit_first_ordered(t, rs, rs.len(), 0, 0, false, Set::empty(), false);
}

proof fn lemma_root_alone(rows: Seq<ProcInfo>, m: int)
    requires
        distinct(rows),
        forall|k: int| 0 <= k < rows.len() ==> (#[trigger] rows[k]).pid != 0,
        0 <= m < roots(rows).len(),
    ensures
        process_of(rows, roots(rows)[m]) matches Some(p) ==> !has_process(rows, p.ppid),
{
    let f = rows.filter(at_top(rows));
    assert(f.contains(f[m]));
    lemma_filter(rows, at_top(rows), f[m]);
    let i = choose|i: int| 0 <= i < rows.len() && rows[i] == f[m];
    lemma_process_at(rows, i);
    if has_process(rows, rows[i].ppid) {
        let k = choose|k: int| 0 <= k < rows.len() && is_process(#[trigger] rows[k], rows[i].ppid);
        assert(rows[k].pid != 0);
    }
}

/// The processes at the top stand in the order in which they were gathered.
pub proof fn lemma_tops_in_order(rows: Seq<ProcInfo>, k: int, l: int)
    requires
        0 <= k < l < roots(rows).len(),
    ensures
        exists|i: int, j: int|
            0 <= i < j < rows.len() && (#[trigger] rows[i]).pid == roots(rows)[k] && (
            #[trigger] rows[j]).pid == roots(rows)[l] && !rows[i].is_thread && !rows[j].is_thread,
{
    let f = rows.filter(at_top(rows));
    lemma_filter_order(rows, at_top(rows), k, l);
    let (i, j) = choose|i: int, j: int|
        0 <= i < j < rows.len() && #[trigger] rows[i] == f[k] && #[trigger] rows[j] == f[l];
    assert(f.contains(f[k]) && f.contains(f[l]));
    lemma_filter(rows, at_top(rows), f[k]);
    lemma_filter(rows, at_top(rows), f[l]);
    assert(rows[i].pid == roots(rows)[k] && rows[j].pid == roots(rows)[l]);
}

proof fn lemma_filter_order(
    rows: Seq<ProcInfo>,
    pred: spec_fn(ProcInfo) -> bool,
    k: int,
    l: int,
)
    requires
        0 <= k < l < rows.filter(pred).len(),
    ensures
        exists|i: int, j: int|
            0 <= i < j < rows.len() && #[trigger] rows[i] == rows.filter(pred)[k]
                && #[trigger] rows[j] == rows.filter(pred)[l],
    decreases rows.len(),
{
    reveal(Seq::filter);
    let r = rows.drop_last();
    let f = rows.filter(pred);
    let g = r.filter(pred);
    if l < g.len() {
        lemma_filter_order(r, pred, k, l);
        let (i, j) = choose|i: int, j: int|
            0 <= i < j < r.len() && #[trigger] r[i] == g[k] && #[trigger] r[j] == g[l];
        assert(rows[i] == f[k] && rows[j] == f[l]);
    } else {
        assert(f == g.push(rows.last()));
        assert(g.contains(g[k]));
        lemma_filter(r, pred, g[k]);
        let i = choose|i: int| 0 <= i < r.len() && r[i] == g[k];
        assert(rows[i] == f[k] && rows[rows.len() - 1] == f[l]);
    }
}

} // verus!
