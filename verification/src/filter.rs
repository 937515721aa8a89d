//! Which rows a filter text lets through.

use crate::order::{arranged, sort_rows, Key};
use crate::process::{rows_wf, ProcInfo};
use crate::text::{
    chars_of, contains, lowercase, occurs, signed_chars, signed_decimal, to_lowercase,
};
use vstd::prelude::*;

verus! {

/// Whether a lower-case filter text stands in the lower-case command or in the
/// number of a process.
pub open spec fn in_command_or_pid(command: Seq<char>, pid: i32, needle: Seq<char>) -> bool {
    occurs(command, needle) || occurs(signed_decimal(pid as int), needle)
}

/// Whether a row of the flat list passes the filter, which is in lower case:
/// by its command, its number or its user.
pub open spec fn passes(p: ProcInfo, needle: Seq<char>) -> bool {
    in_command_or_pid(lowercase(p.full_cmd@), p.pid, needle) || occurs(
        lowercase(p.user@),
        needle,
    )
}

/// Whether a process of the tree passes the filter by itself: by its command or
/// its number.
pub open spec fn passes_in_tree(p: ProcInfo, needle: Seq<char>) -> bool {
    needle.len() == 0 || in_command_or_pid(lowercase(p.full_cmd@), p.pid, needle)
}

/// [`passes`] as a predicate on rows.
pub open spec fn passing(needle: Seq<char>) -> spec_fn(ProcInfo) -> bool {
    |p: ProcInfo| passes(p, needle)
}

/// The filter text in lower case.
pub open spec fn needle_of(filter: Seq<char>) -> Seq<char> {
    if filter.len() == 0 {
        seq![]
    } else {
        lowercase(filter)
    }
}

/// The rows of the flat list: all of them, or those that pass the filter.
pub open spec fn selected(rows: Seq<ProcInfo>, filter: Seq<char>) -> Seq<ProcInfo> {
    if filter.len() == 0 {
        rows
    } else {
        rows.filter(passing(needle_of(filter)))
    }
}

/// What a predicate lets through is what is there and satisfies it.
pub(crate) proof fn lemma_filter(
    rows: Seq<ProcInfo>,
    pred: spec_fn(ProcInfo) -> bool,
    p: ProcInfo,
)
    ensures
        rows.filter(pred).contains(p) <==> rows.contains(p) && pred(p),
    decreases rows.len(),
{
    reveal(Seq::filter);
    let f = rows.filter(pred);
    if rows.len() > 0 {
        let r = rows.drop_last();
        lemma_filter(r, pred, p);
        let g = r.filter(pred);
        assert(rows =~= r.push(rows.last()));
        if r.contains(p) {
            let i = choose|i: int| 0 <= i < r.len() && r[i] == p;
            assert(rows[i] == p);
        }
        if rows.contains(p) && p != rows.last() {
            let i = choose|i: int| 0 <= i < rows.len() && rows[i] == p;
            assert(r[i] == p);
        }
        if pred(rows.last()) {
            assert(f == g.push(rows.last()));
            assert(f[g.len() as int] == rows.last());
            if g.contains(p) {
                let i = choose|i: int| 0 <= i < g.len() && g[i] == p;
                assert(f[i] == p);
            }
            if f.contains(p) && p != rows.last() {
                let i = choose|i: int| 0 <= i < f.len() && f[i] == p;
                assert(g[i] == p);
            }
        }
        if p == rows.last() {
            assert(rows[rows.len() - 1] == p);
        }
    }
}

/// The filter text in lower case.
pub fn needle(filter: &str) -> (r: String)
    ensures
        r@ == needle_of(filter@),
{
    if filter.is_empty() {
        let r = String::new();
        proof {
            assert(r@ =~= seq![]);
        }
        r
    } else {
        to_lowercase(filter)
    }
}

/// Whether a lower-case filter text stands in the lower-case command or in the
/// number of a process.
pub fn found_in_command_or_pid(command: &str, pid: i32, needle: &str) -> (r: bool)
    ensures
        r == in_command_or_pid(command@, pid, needle@),
{
    let n = chars_of(needle);
    contains(&chars_of(command), &n) || contains(&signed_chars(pid), &n)
}

/// Whether a lower-case filter text stands in the command, the number or the user
/// of a process; the command and the user are in lower case too.
pub fn found_in_row(command: &str, pid: i32, user: &str, needle: &str) -> (r: bool)
    ensures
        r == (in_command_or_pid(command@, pid, needle@) || occurs(user@, needle@)),
{
    found_in_command_or_pid(command, pid, needle) || contains(&chars_of(user), &chars_of(needle))
}

/// Whether a row of the flat list passes the filter, which is in lower case.
pub fn row_passes(p: &ProcInfo, needle: &str) -> (r: bool)
    ensures
        r == passes(*p, needle@),
{
    let command = to_lowercase(p.full_cmd.as_str());
    let user = to_lowercase(p.user.as_str());
    found_in_row(command.as_str(), p.pid, user.as_str(), needle)
}

/// Whether a process of the tree passes the filter by itself.
pub fn node_passes(p: &ProcInfo, needle: &str) -> (r: bool)
    ensures
        r == passes_in_tree(*p, needle@),
{
    if needle.is_empty() {
        return true;
    }
    let command = to_lowercase(p.full_cmd.as_str());
    found_in_command_or_pid(command.as_str(), p.pid, needle)
}

/// The rows that pass a filter text, in the order of a key or in the reverse of
/// that order.
pub fn flat_rows(rows: &Vec<ProcInfo>, filter: &str, key: Key, reverse: bool) -> (r: Vec<ProcInfo>)
    requires
        rows_wf(rows@),
    ensures
        r@ == arranged(selected(rows@, filter@), key, reverse),
{
    if filter.is_empty() {
        return sort_rows(rows, key, reverse);
    }
    let needle = needle(filter);
    let ghost pred = passing(needle_of(filter@));
    let mut kept: Vec<ProcInfo> = Vec::new();
    let mut i: usize = 0;
    proof {
        assert(rows@.take(0).filter(pred) =~= Seq::<ProcInfo>::empty());
    }
    while i < rows.len()
        invariant
            i <= rows@.len(),
            rows_wf(rows@),
            rows_wf(kept@),
            needle@ == needle_of(filter@),
            pred == passing(needle_of(filter@)),
            kept@ == rows@.take(i as int).filter(pred),
        decreases rows.len() - i,
    {
        proof {
            assert(rows@.take(i + 1).drop_last() =~= rows@.take(i as int));
            assert(rows@[i as int].wf());
            reveal(Seq::filter);
        }
        if row_passes(&rows[i], needle.as_str()) {
            kept.push(rows[i].clone());
        }
        i = i + 1;
    }
    proof {
        assert(rows@.take(rows@.len() as int) =~= rows@);
    }
    sort_rows(&kept, key, reverse)
}

} // verus!
