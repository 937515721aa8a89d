//! The order of the rows under each column.

use crate::double::{lemma_less_transitive, less};
use crate::process::{rows_wf, ProcInfo};
use crate::text::{chars_of, precedes, text_less};
use vstd::prelude::*;

verus! {

/// What rows are ordered by.
#[derive(Clone, Copy, Debug, PartialEq, Eq, Structural)]
pub enum Key {
    Pid,
    User,
    Cmd,
    Pss,
    Uss,
    Rss,
    Swap,
    Cpu,
    /// The number of the thread.
    Tid,
    /// Nothing: the rows stay in their order.
    Unordered,
}

/// The key of a column of the table.
pub open spec fn column_key(col: usize) -> Key {
    if col == 0 {
        Key::Pid
    } else if col == 1 {
        Key::User
    } else if col == 2 {
        Key::Cmd
    } else if col == 3 {
        Key::Pss
    } else if col == 4 {
        Key::Uss
    } else if col == 5 {
        Key::Rss
    } else if col == 6 {
        Key::Swap
    } else if col == 7 {
        Key::Cpu
    } else {
        Key::Unordered
    }
}

/// Whether `a` comes before `b` when the rows are ordered by a key.
pub open spec fn row_less(key: Key, a: ProcInfo, b: ProcInfo) -> bool {
    match key {
        Key::Pid => a.pid < b.pid,
        Key::User => text_less(a.user@, b.user@),
        Key::Cmd => text_less(a.cmd@, b.cmd@),
        Key::Pss => a.pss_kb < b.pss_kb,
        Key::Uss => a.uss_kb < b.uss_kb,
        Key::Rss => a.rss_kb < b.rss_kb,
        Key::Swap => a.swap_kb < b.swap_kb,
        Key::Cpu => less(a.cpu_percent@, b.cpu_percent@),
        Key::Tid => a.tid < b.tid,
        Key::Unordered => false,
    }
}

/// Whether row `i` stands before row `j` in the order of a key; rows that
/// are equal there keep their order.
pub open spec fn stands_before(rows: Seq<ProcInfo>, key: Key, i: int, j: int) -> bool {
    row_less(key, rows[i], rows[j]) || (!row_less(key, rows[j], rows[i]) && i < j)
}

/// Whether `order` lists the first `n` rows in the order of a key.
pub open spec fn ranks(rows: Seq<ProcInfo>, key: Key, n: int, order: Seq<int>) -> bool {
    &&& order.len() == n
    &&& forall|k: int| 0 <= k < n ==> 0 <= #[trigger] order[k] < n
    &&& forall|i: int| 0 <= i < n ==> #[trigger] order.contains(i)
    &&& forall|j: int, k: int|
        0 <= j < k < n ==> stands_before(rows, key, #[trigger] order[j], #[trigger] order[k])
}

/// The order of all rows by a key.
pub open spec fn ranking(rows: Seq<ProcInfo>, key: Key) -> Seq<int> {
    choose|order: Seq<int>| ranks(rows, key, rows.len() as int, order)
}

/// The rows at some positions.
pub open spec fn picked(rows: Seq<ProcInfo>, order: Seq<int>) -> Seq<ProcInfo> {
    order.map_values(|i: int| rows[i])
}

/// The rows in the order of a key.
pub open spec fn sorted(rows: Seq<ProcInfo>, key: Key) -> Seq<ProcInfo> {
    picked(rows, ranking(rows, key))
}

/// The rows in the order of a key or in the reverse of that order.
pub open spec fn arranged(rows: Seq<ProcInfo>, key: Key, reverse: bool) -> Seq<ProcInfo> {
    if reverse {
        sorted(rows, key).reverse()
    } else {
        sorted(rows, key)
    }
}

proof fn lemma_text_less(a: Seq<char>, b: Seq<char>, c: Seq<char>)
    ensures
        text_less(a, b) && text_less(b, c) ==> text_less(a, c),
        !text_less(b, a) && !text_less(c, b) ==> !text_less(c, a),
        !(text_less(a, b) && text_less(b, a)),
    decreases a.len() + b.len() + c.len(),
{
    if a.len() > 0 && b.len() > 0 && c.len() > 0 {
        lemma_text_less(a.skip(1), b.skip(1), c.skip(1));
    } else if a.len() > 0 && b.len() > 0 {
        lemma_text_less(a.skip(1), b.skip(1), c);
    }
}

/// The order by a key is a strict weak order.
pub proof fn lemma_row_less(key: Key, a: ProcInfo, b: ProcInfo, c: ProcInfo)
    ensures
        row_less(key, a, b) && row_less(key, b, c) ==> row_less(key, a, c),
        !row_less(key, b, a) && !row_less(key, c, b) ==> !row_less(key, c, a),
        !(row_less(key, a, b) && row_less(key, b, a)),
{
    if key == Key::User {
        lemma_text_less(a.user@, b.user@, c.user@);
    } else if key == Key::Cmd {
        lemma_text_less(a.cmd@, b.cmd@, c.cmd@);
    } else if key == Key::Cpu {
        lemma_less_transitive(a.cpu_percent@, b.cpu_percent@, c.cpu_percent@);
    }
}

/// There is only one order of the rows by a key.
pub proof fn lemma_ranking_unique(
    rows: Seq<ProcInfo>,
    key: Key,
    n: int,
    a: Seq<int>,
    b: Seq<int>,
)
    requires
        ranks(rows, key, n, a),
        ranks(rows, key, n, b),
    ensures
        a == b,
{
    lemma_ranking_prefix(rows, key, n, a, b, n);
    assert(a =~= b);
}

proof fn lemma_ranking_prefix(
    rows: Seq<ProcInfo>,
    key: Key,
    n: int,
    a: Seq<int>,
    b: Seq<int>,
    k: int,
)
    requires
        ranks(rows, key, n, a),
        ranks(rows, key, n, b),
        0 <= k <= n,
    ensures
        forall|i: int| 0 <= i < k ==> a[i] == b[i],
    decreases k,
{
    if k > 0 {
        lemma_ranking_prefix(rows, key, n, a, b, k - 1);
        let i = k - 1;
        let x = a[i];
        let y = b[i];
        if x != y {
            assert(b.contains(x));
            let p = b.index_of(x);
            assert(a.contains(y));
            let q = a.index_of(y);
            lemma_row_less(key, rows[x], rows[y], rows[x]);
            lemma_row_less(key, rows[x], rows[x], rows[x]);
            lemma_row_less(key, rows[y], rows[y], rows[y]);
            if p < i {
                assert(stands_before(rows, key, a[p], a[i]));
                assert(false);
            }
            if q < i {
                assert(stands_before(rows, key, b[q], b[i]));
                assert(false);
            }
            assert(stands_before(rows, key, b[i], b[p]));
            assert(stands_before(rows, key, a[i], a[q]));
        }
    }
}

/// One more row goes behind all rows that it is not smaller than.
proof fn lemma_insert_rank(rows: Seq<ProcInfo>, key: Key, n: int, order: Seq<int>, pos: int)
    requires
        ranks(rows, key, n, order),
        n < rows.len(),
        0 <= pos <= n,
        forall|k: int| 0 <= k < pos ==> !row_less(key, rows[n], rows[#[trigger] order[k]]),
        forall|k: int| pos <= k < n ==> row_less(key, rows[n], rows[#[trigger] order[k]]),
    ensures
        ranks(rows, key, n + 1, order.insert(pos, n)),
{
    let r = order.insert(pos, n);
    assert forall|k: int| 0 <= k < n + 1 implies 0 <= #[trigger] r[k] < n + 1 by {
        if k < pos {
            assert(r[k] == order[k]);
        } else if k > pos {
            assert(r[k] == order[k - 1]);
        }
    }
    assert forall|i: int| 0 <= i < n + 1 implies #[trigger] r.contains(i) by {
        if i == n {
            assert(r[pos] == n);
        } else {
            assert(order.contains(i));
            let k = order.index_of(i);
            if k < pos {
                assert(r[k] == i);
            } else {
                assert(r[k + 1] == i);
            }
        }
    }
    assert forall|j: int, k: int| 0 <= j < k < n + 1 implies stands_before(
        rows,
        key,
        #[trigger] r[j],
        #[trigger] r[k],
    ) by {
        let x = if j < pos {
            order[j]
        } else if j == pos {
            n
        } else {
            order[j - 1]
        };
        let y = if k < pos {
            order[k]
        } else if k == pos {
            n
        } else {
            order[k - 1]
        };
        assert(r[j] == x && r[k] == y);
        if j != pos && k != pos {
            let jj = if j < pos {
                j
            } else {
                j - 1
            };
            let kk = if k < pos {
                k
            } else {
                k - 1
            };
            assert(stands_before(rows, key, order[jj], order[kk]));
        }
    }
}

/// The place of one more row, searched for from the end.
spec fn place(rows: Seq<ProcInfo>, key: Key, order: Seq<int>, row: ProcInfo, k: int) -> int
    decreases k,
{
    if k <= 0 {
        0
    } else if row_less(key, row, rows[order[k - 1]]) {
        place(rows, key, order, row, k - 1)
    } else {
        k
    }
}

proof fn lemma_place(
    rows: Seq<ProcInfo>,
    key: Key,
    n: int,
    order: Seq<int>,
    row: ProcInfo,
    k: int,
)
    requires
        ranks(rows, key, n, order),
        0 <= k <= n,
    ensures
        0 <= place(rows, key, order, row, k) <= k,
        forall|i: int|
            0 <= i < place(rows, key, order, row, k) ==> !row_less(
                key,
                row,
                rows[#[trigger] order[i]],
            ),
        forall|i: int|
            place(rows, key, order, row, k) <= i < k ==> row_less(
                key,
                row,
                rows[#[trigger] order[i]],
            ),
    decreases k,
{
    if k > 0 {
        if row_less(key, row, rows[order[k - 1]]) {
            lemma_place(rows, key, n, order, row, k - 1);
        } else {
            assert forall|i: int| 0 <= i < k implies !row_less(
                key,
                row,
                rows[#[trigger] order[i]],
            ) by {
                if i < k - 1 {
                    assert(stands_before(rows, key, order[i], order[k - 1]));
                    lemma_row_less(key, row, rows[order[i]], rows[order[k - 1]]);
                    lemma_row_less(key, rows[order[i]], rows[order[k - 1]], row);
                    lemma_row_less(key, rows[order[i]], rows[order[k - 1]], rows[order[i]]);
                }
            }
        }
    }
}

/// The rows of any table have an order by any key.
pub proof fn lemma_ranking_exists(rows: Seq<ProcInfo>, key: Key)
    ensures
        ranks(rows, key, rows.len() as int, ranking(rows, key)),
{
    let order = lemma_rank_first(rows, key, rows.len() as int);
    assert(ranks(rows, key, rows.len() as int, order));
}

proof fn lemma_rank_first(rows: Seq<ProcInfo>, key: Key, n: int) -> (order: Seq<int>)
    requires
        0 <= n <= rows.len(),
    ensures
        ranks(rows, key, n, order),
        picked(rows, order).to_multiset() == rows.take(n).to_multiset(),
    decreases n,
{
    if n == 0 {
        let order: Seq<int> = seq![];
        assert(picked(rows, order) =~= rows.take(0));
        order
    } else {
        let before = lemma_rank_first(rows, key, n - 1);
        let pos = place(rows, key, before, rows[n - 1], n - 1);
        lemma_place(rows, key, n - 1, before, rows[n - 1], n - 1);
        lemma_insert_rank(rows, key, n - 1, before, pos);
        let order = before.insert(pos, n - 1);
        assert(picked(rows, order) =~= picked(rows, before).insert(pos, rows[n - 1]));
        assert(rows.take(n) =~= rows.take(n - 1).push(rows[n - 1]));
        vstd::seq_lib::to_multiset_insert(picked(rows, before), pos, rows[n - 1]);
        vstd::seq_lib::to_multiset_build(rows.take(n - 1), rows[n - 1]);
        order
    }
}

/// Ordering neither adds nor loses rows.
pub proof fn lemma_sorted_rows(rows: Seq<ProcInfo>, key: Key)
    ensures
        sorted(rows, key).to_multiset() == rows.to_multiset(),
        sorted(rows, key).len() == rows.len(),
        forall|p: ProcInfo| sorted(rows, key).contains(p) <==> rows.contains(p),
{
    let n = rows.len() as int;
    let order = ranking(rows, key);
    let s = sorted(rows, key);
    lemma_ranking_exists(rows, key);
    let found = lemma_rank_first(rows, key, n);
    lemma_ranking_unique(rows, key, n, order, found);
    assert(rows.take(n) =~= rows);
    assert forall|p: ProcInfo| s.contains(p) <==> rows.contains(p) by {
        if s.contains(p) {
            let k = choose|k: int| 0 <= k < s.len() && s[k] == p;
            assert(rows[order[k]] == p);
        }
        if rows.contains(p) {
            let i = choose|i: int| 0 <= i < rows.len() && rows[i] == p;
            assert(order.contains(i));
            assert(s[order.index_of(i)] == p);
        }
    }
}

/// Of two rows, the one that comes first by the key stands first.
pub proof fn lemma_sorted_order(rows: Seq<ProcInfo>, key: Key, j: int, k: int)
    requires
        0 <= j < k < rows.len(),
    ensures
        !row_less(key, sorted(rows, key)[k], sorted(rows, key)[j]),
{
    let order = ranking(rows, key);
    lemma_ranking_exists(rows, key);
    assert(stands_before(rows, key, order[j], order[k]));
    lemma_row_less(key, rows[order[j]], rows[order[k]], rows[order[j]]);
}

/// Rows that are equal by the key keep their order.
pub proof fn lemma_sorted_stable(rows: Seq<ProcInfo>, key: Key, i: int, j: int)
    requires
        0 <= i < j < rows.len(),
        !row_less(key, rows[j], rows[i]),
    ensures
        ({
            let order = ranking(rows, key);
            &&& order.index_of(i) < order.index_of(j)
            &&& sorted(rows, key)[order.index_of(i)] == rows[i]
            &&& sorted(rows, key)[order.index_of(j)] == rows[j]
        }),
{
    let order = ranking(rows, key);
    lemma_ranking_exists(rows, key);
    assert(order.contains(i));
    assert(order.contains(j));
    let a = order.index_of(i);
    let b = order.index_of(j);
    if b < a {
        assert(stands_before(rows, key, order[b], order[a]));
    }
}

/// Whether a row comes before another by a key.
pub fn comes_before(key: Key, a: &ProcInfo, b: &ProcInfo) -> (r: bool)
    requires
        a.wf(),
        b.wf(),
    ensures
        r == row_less(key, *a, *b),
{
    match key {
        Key::Pid => a.pid < b.pid,
        Key::User => precedes(&chars_of(a.user.as_str()), &chars_of(b.user.as_str())),
        Key::Cmd => precedes(&chars_of(a.cmd.as_str()), &chars_of(b.cmd.as_str())),
        Key::Pss => a.pss_kb < b.pss_kb,
        Key::Uss => a.uss_kb < b.uss_kb,
        Key::Rss => a.rss_kb < b.rss_kb,
        Key::Swap => a.swap_kb < b.swap_kb,
        Key::Cpu => a.cpu_percent.less(b.cpu_percent),
        Key::Tid => a.tid < b.tid,
        Key::Unordered => false,
    }
}

/// The key of a column of the table.
pub fn key_of(col: usize) -> (r: Key)
    ensures
        r == column_key(col),
{
    match col {
        0 => Key::Pid,
        1 => Key::User,
        2 => Key::Cmd,
        3 => Key::Pss,
        4 => Key::Uss,
        5 => Key::Rss,
        6 => Key::Swap,
        7 => Key::Cpu,
        _ => Key::Unordered,
    }
}

pub open spec fn indices(order: Seq<usize>) -> Seq<int> {
    order.map_values(|i: usize| i as int)
}

/// Where one more row goes among rows that are in order.
fn search(rows: &Vec<ProcInfo>, key: Key, order: &Vec<usize>, row: &ProcInfo) -> (pos: usize)
    requires
        ranks(rows@, key, order@.len() as int, indices(order@)),
        order@.len() <= rows@.len(),
        rows_wf(rows@),
        row.wf(),
    ensures
        pos <= order@.len(),
        forall|k: int|
            0 <= k < pos ==> !row_less(key, *row, rows@[#[trigger] indices(order@)[k]]),
        forall|k: int|
            pos <= k < order@.len() ==> row_less(
                key,
                *row,
                rows@[#[trigger] indices(order@)[k]],
            ),
{
    let ghost ix = indices(order@);
    let mut low: usize = 0;
    let mut high: usize = order.len();
    while low < high
        invariant
            low <= high <= order@.len(),
            ranks(rows@, key, order@.len() as int, indices(order@)),
            order@.len() <= rows@.len(),
            rows_wf(rows@),
            row.wf(),
            ix == indices(order@),
            forall|k: int| 0 <= k < low ==> !row_less(key, *row, rows@[#[trigger] ix[k]]),
            forall|k: int| high <= k < order@.len() ==> row_less(key, *row, rows@[#[trigger] ix[k]]),
        decreases high - low,
    {
        let mid: usize = low + (high - low) / 2;
        let i: usize = order[mid];
        proof {
            assert(ix[mid as int] == i);
            assert(rows@[i as int].wf());
        }
        if comes_before(key, row, &rows[i]) {
            proof {
                assert forall|k: int| mid <= k < order@.len() implies row_less(
                    key,
                    *row,
                    rows@[#[trigger] ix[k]],
                ) by {
                    if k > mid {
                        assert(stands_before(rows@, key, ix[mid as int], ix[k]));
                        lemma_row_less(key, *row, rows@[ix[k]], rows@[ix[mid as int]]);
                        lemma_row_less(key, rows@[ix[mid as int]], rows@[ix[k]], *row);
                        lemma_row_less(key, rows@[ix[k]], *row, rows@[ix[mid as int]]);
                        lemma_row_less(
                            key,
                            rows@[ix[mid as int]],
                            rows@[ix[k]],
                            rows@[ix[mid as int]],
                        );
                    }
                }
            }
            high = mid;
        } else {
            proof {
                assert forall|k: int| 0 <= k < mid + 1 implies !row_less(
                    key,
                    *row,
                    rows@[#[trigger] ix[k]],
                ) by {
                    if k < mid {
                        assert(stands_before(rows@, key, ix[k], ix[mid as int]));
                        lemma_row_less(key, *row, rows@[ix[k]], rows@[ix[mid as int]]);
                        lemma_row_less(key, rows@[ix[k]], rows@[ix[mid as int]], *row);
                        lemma_row_less(key, rows@[ix[k]], rows@[ix[mid as int]], rows@[ix[k]]);
                    }
                }
            }
            low = mid + 1;
        }
    }
    low
}

/// The rows in the order of a key or in the reverse of that order.
pub fn sort_rows(rows: &Vec<ProcInfo>, key: Key, reverse: bool) -> (r: Vec<ProcInfo>)
    requires
        rows_wf(rows@),
    ensures
        r@ == arranged(rows@, key, reverse),
{
    let mut order: Vec<usize> = Vec::new();
    let mut n: usize = 0;
    while n < rows.len()
        invariant
            n <= rows@.len(),
            order@.len() == n,
            rows_wf(rows@),
            ranks(rows@, key, n as int, indices(order@)),
        decreases rows.len() - n,
    {
        proof {
            assert(rows@[n as int].wf());
        }
        let pos = search(rows, key, &order, &rows[n]);
        let ghost had = indices(order@);
        proof {
            lemma_insert_rank(rows@, key, n as int, had, pos as int);
        }
        order.insert(pos, n);
        proof {
            assert(indices(order@) =~= had.insert(pos as int, n as int));
        }
        n = n + 1;
    }
    let ghost ix = indices(order@);
    proof {
        lemma_ranking_exists(rows@, key);
        lemma_ranking_unique(rows@, key, n as int, ix, ranking(rows@, key));
    }
    let mut r: Vec<ProcInfo> = Vec::new();
    let mut k: usize = 0;
    let ghost want = arranged(rows@, key, reverse);
    while k < n
        invariant
            k <= n,
            n == rows@.len(),
            n == order@.len(),
            ix == indices(order@),
            ix == ranking(rows@, key),
            ranks(rows@, key, n as int, ix),
            want == arranged(rows@, key, reverse),
            want.len() == n,
            r@ == want.take(k as int),
        decreases n - k,
    {
        let i: usize = if reverse { order[n - 1 - k] } else { order[k] };
        proof {
            assert(ix[if reverse {
                n - 1 - k
            } else {
                k as int
            }] == i);
            assert(want[k as int] == rows@[i as int]);
            assert(want.take(k + 1) =~= want.take(k as int).push(rows@[i as int]));
        }
        r.push(rows[i].clone());
        k = k + 1;
    }
    proof {
        assert(want.take(n as int) =~= want);
    }
    r
}

} // verus!
