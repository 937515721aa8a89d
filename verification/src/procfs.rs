//! What the files below `/proc` and the list of users say.

use crate::paths::lemma_encode_concat;
use crate::text::{
    after_first, before, chars_of, fields, fields_of, lines, lines_of, occurs_at, parse_i32,
    parse_number, parsed, parsed_i32, part, piece, piece_of, same, starts_with, string_of, texts,
    trim, trimmed,
};
use std::collections::HashMap;
use vstd::prelude::*;
use vstd::string::StringExecFns;
use vstd::utf8::{char_is_scalar, encode_scalar, encode_utf8};

verus! {

broadcast use vstd::std_specs::hash::group_hash_axioms;

/// The names of users by their numbers.
pub type UserMap = HashMap<u32, String>;

/// The first line that starts with `prefix`.
pub open spec fn first_line(ls: Seq<Seq<char>>, prefix: Seq<char>) -> Option<Seq<char>>
    decreases ls.len(),
{
    if ls.len() == 0 {
        None
    } else if occurs_at(ls[0], prefix, 0) {
        Some(ls[0])
    } else {
        first_line(ls.skip(1), prefix)
    }
}

/// The 64-bit number that a word stands for.
pub open spec fn number(word: Seq<char>) -> Option<u64> {
    match parsed(word, u64::MAX as nat) {
        Some(n) => Some(n as u64),
        None => None,
    }
}

/// The number that the `k`-th word stands for, or zero.
pub open spec fn amount(words: Seq<Seq<char>>, k: int) -> u64 {
    if k < words.len() {
        match number(words[k]) {
            Some(n) => n,
            None => 0,
        }
    } else {
        0
    }
}

/// At most the first `n` characters.
pub open spec fn shortened(s: Seq<char>, n: nat) -> Seq<char> {
    if s.len() > n {
        s.take(n as int)
    } else {
        s
    }
}

/// The lines of a file.
fn lines_in(content: &str) -> (r: Vec<Vec<char>>)
    ensures
        texts(r@) == lines(content@),
        r@.len() == lines(content@).len(),
{
    lines_of(&chars_of(content))
}

/// Reads a 64-bit number.
fn read_number(word: &Vec<char>) -> (r: Option<u64>)
    ensures
        r == number(word@),
{
    parse_number(word, u64::MAX)
}

/// The number that the `k`-th word stands for, or zero.
fn amount_at(words: &Vec<Vec<char>>, k: usize) -> (r: u64)
    ensures
        r == amount(texts(words@), k as int),
{
    if k < words.len() {
        match read_number(&words[k]) {
            Some(n) => n,
            None => 0,
        }
    } else {
        0
    }
}

/// The first line that starts with `prefix`.
fn find_line(ls: &Vec<Vec<char>>, prefix: &str) -> (r: Option<usize>)
    ensures
        match r {
            Some(i) => i < ls@.len() && first_line(texts(ls@), prefix@) == Some(ls@[i as int]@),
            None => first_line(texts(ls@), prefix@) is None,
        },
{
    let p = chars_of(prefix);
    let ghost all = texts(ls@);
    let mut i: usize = 0;
    proof {
        assert(all.skip(0) =~= all);
    }
    while i < ls.len()
        invariant
            i <= ls@.len(),
            p@ == prefix@,
            all == texts(ls@),
            first_line(all.skip(i as int), prefix@) == first_line(all, prefix@),
        decreases ls.len() - i,
    {
        proof {
            assert(all.skip(i as int)[0] == ls@[i as int]@);
            assert(all.skip(i as int).skip(1) =~= all.skip(i + 1));
        }
        if starts_with(&ls[i], &p) {
            return Some(i);
        }
        i = i + 1;
    }
    None
}

// Memory of the machine

/// The key and the number of a line of `/proc/meminfo`.
pub open spec fn meminfo_entry(line: Seq<char>) -> Option<(Seq<char>, u64)> {
    let k = before(line, ':');
    if k >= line.len() {
        None
    } else {
        let words = fields(line.skip((k + 1) as int));
        if words.len() == 0 {
            None
        } else {
            match number(words[0]) {
                Some(n) => Some((trimmed(line.take(k as int)), n)),
                None => None,
            }
        }
    }
}

/// What lines of `/proc/meminfo` say, the last one about each key.
pub open spec fn meminfo(ls: Seq<Seq<char>>) -> Map<Seq<char>, u64>
    decreases ls.len(),
{
    if ls.len() == 0 {
        Map::empty()
    } else {
        match meminfo_entry(ls.last()) {
            Some((k, n)) => meminfo(ls.drop_last()).insert(k, n),
            None => meminfo(ls.drop_last()),
        }
    }
}

/// The entry for a key, or another number if there is none.
pub open spec fn entry_or(m: Map<Seq<char>, u64>, key: Seq<char>, other: u64) -> u64 {
    if m.contains_key(key) {
        m[key]
    } else {
        other
    }
}

/// What a list of keys and numbers says, the last one about each key.
pub open spec fn collected(entries: Seq<(String, u64)>) -> Map<Seq<char>, u64>
    decreases entries.len(),
{
    if entries.len() == 0 {
        Map::empty()
    } else {
        collected(entries.drop_last()).insert(entries.last().0@, entries.last().1)
    }
}

/// What `/proc/meminfo` says, in kibibytes.
pub struct MemInfo {
    pub entries: Vec<(String, u64)>,
}

impl View for MemInfo {
    type V = Map<Seq<char>, u64>;

    open spec fn view(&self) -> Map<Seq<char>, u64> {
        collected(self.entries@)
    }
}

impl MemInfo {
    /// The number for a key.
    pub fn get(&self, key: &str) -> (r: Option<u64>)
        ensures
            r == (if self@.contains_key(key@) {
                Some(self@[key@])
            } else {
                None
            }),
    {
        let k = chars_of(key);
        let mut i: usize = self.entries.len();
        proof {
            assert(self.entries@.take(i as int) =~= self.entries@);
        }
        while i > 0
            invariant
                i <= self.entries@.len(),
                k@ == key@,
                collected(self.entries@.take(i as int)).contains_key(key@)
                    == self@.contains_key(key@),
                self@.contains_key(key@) ==> collected(self.entries@.take(i as int))[key@]
                    == self@[key@],
            decreases i,
        {
            i = i - 1;
            proof {
                assert(self.entries@.take(i + 1).drop_last() =~= self.entries@.take(i as int));
            }
            if same(&chars_of(self.entries[i].0.as_str()), &k) {
                return Some(self.entries[i].1);
            }
        }
        None
    }

    /// The number for a key, or another one.
    pub fn get_or(&self, key: &str, other: u64) -> (r: u64)
        ensures
            r == entry_or(self@, key@, other),
    {
        match self.get(key) {
            Some(n) => n,
            None => other,
        }
    }
}

/// The key and the number of a line.
fn read_entry(line: &Vec<char>) -> (r: Option<(String, u64)>)
    ensures
        match r {
            Some(e) => meminfo_entry(line@) == Some((e.0@, e.1)),
            None => meminfo_entry(line@) is None,
        },
{
    let rest = match after_first(line, ':') {
        Some(t) => t,
        None => {
            return None;
        },
    };
    let words = fields_of(&rest);
    if words.len() == 0 {
        proof {
            assert(texts(words@).len() == 0);
        }
        return None;
    }
    proof {
        assert(texts(words@)[0] == words@[0]@);
    }
    match read_number(&words[0]) {
        Some(n) => {
            match piece_of(line, ':', 0) {
                Some(key) => Some((string_of(&trim(&key)), n)),
                None => None,
            }
        },
        None => None,
    }
}

/// Reads `/proc/meminfo`.
pub fn read_meminfo_buf(content: &str) -> (r: MemInfo)
    ensures
        r@ == meminfo(lines(content@)),
{
    let ls = lines_in(content);
    let ghost all = texts(ls@);
    let mut entries: Vec<(String, u64)> = Vec::new();
    let mut i: usize = 0;
    while i < ls.len()
        invariant
            i <= ls@.len(),
            all == texts(ls@),
            collected(entries@) == meminfo(all.take(i as int)),
        decreases ls.len() - i,
    {
        proof {
            assert(all.take(i + 1).drop_last() =~= all.take(i as int));
            assert(all.take(i + 1).last() == ls@[i as int]@);
        }
        match read_entry(&ls[i]) {
            Some(e) => {
                let ghost had = entries@;
                entries.push(e);
                proof {
                    assert(entries@.drop_last() =~= had);
                }
            },
            None => {},
        }
        i = i + 1;
    }
    proof {
        assert(all.take(all.len() as int) =~= all);
    }
    MemInfo { entries }
}

/// As much of the start of a text as fits into `n` bytes.
pub open spec fn within_bytes(s: Seq<char>, n: nat) -> Seq<char>
    decreases s.len(),
{
    if s.len() == 0 || encode_utf8(s).len() <= n {
        s
    } else {
        within_bytes(s.drop_last(), n)
    }
}

proof fn lemma_within_bytes(s: Seq<char>, i: int, n: nat)
    requires
        0 <= i <= s.len(),
        encode_utf8(s.take(i)).len() <= n,
        i < s.len() ==> encode_utf8(s.take(i + 1)).len() > n,
    ensures
        within_bytes(s, n) == s.take(i),
    decreases s.len(),
{
    if i == s.len() {
        assert(s.take(i) =~= s);
    } else {
        let rest = s.drop_last();
        lemma_encode_concat(s.take(i + 1), s.skip(i + 1));
        assert(s.take(i + 1) + s.skip(i + 1) =~= s);
        assert(rest.take(i) =~= s.take(i));
        if i < rest.len() {
            assert(rest.take(i + 1) =~= s.take(i + 1));
        }
        lemma_within_bytes(rest, i, n);
    }
}

/// How many bytes a character takes.
fn width_of(c: char) -> (n: usize)
    ensures
        n == encode_utf8(seq![c]).len(),
{
    let v = c as u32;
    proof {
        char_is_scalar(c);
        reveal_with_fuel(encode_utf8, 2);
        assert(encode_utf8(seq![c]) =~= encode_scalar(c as u32));
    }
    if v < 0x80 {
        1
    } else if v < 0x800 {
        2
    } else if v < 0x10000 {
        3
    } else {
        4
    }
}

/// As much of the start of a text as fits into `n` bytes.
fn first_bytes(content: &str, n: usize) -> (r: String)
    ensures
        r@ == within_bytes(content@, n as nat),
{
    let chars = chars_of(content);
    let mut used: usize = 0;
    let mut i: usize = 0;
    while i < chars.len() && width_of(chars[i]) <= n - used
        invariant
            i <= chars@.len(),
            used <= n,
            used == encode_utf8(chars@.take(i as int)).len(),
        decreases chars@.len() - i,
    {
        proof {
            lemma_encode_concat(chars@.take(i as int), seq![chars@[i as int]]);
            assert(chars@.take(i as int) + seq![chars@[i as int]] =~= chars@.take(i + 1));
        }
        used = used + width_of(chars[i]);
        i = i + 1;
    }
    proof {
        if i < chars@.len() {
            lemma_encode_concat(chars@.take(i as int), seq![chars@[i as int]]);
            assert(chars@.take(i as int) + seq![chars@[i as int]] =~= chars@.take(i + 1));
        }
        lemma_within_bytes(chars@, i as int, n as nat);
    }
    string_of(&part(&chars, 0, i))
}

/// Reads `/proc/meminfo` as far as its first 4096 bytes reach.
pub fn read_meminfo_small(content: &str) -> (r: MemInfo)
    ensures
        r@ == meminfo(lines(within_bytes(content@, 4096))),
{
    let start = first_bytes(content, 4096);
    read_meminfo_buf(start.as_str())
}

/// At most the first `n` characters.
pub(crate) fn shorten(s: &Vec<char>, n: usize) -> (r: Vec<char>)
    ensures
        r@ == shortened(s@, n as nat),
{
    if s.len() > n {
        let r = part(s, 0, n);
        proof {
            assert(r@ =~= s@.take(n as int));
        }
        r
    } else {
        let r = part(s, 0, s.len());
        proof {
            assert(r@ =~= s@);
        }
        r
    }
}

// Processor times of the machine

/// The numbers among words.
pub open spec fn numbers(words: Seq<Seq<char>>) -> Seq<u64>
    decreases words.len(),
{
    if words.len() == 0 {
        seq![]
    } else {
        match number(words.last()) {
            Some(n) => numbers(words.drop_last()).push(n),
            None => numbers(words.drop_last()),
        }
    }
}

/// The sum of numbers, modulo two to the 64th.
pub open spec fn sum(ns: Seq<u64>) -> u64
    decreases ns.len(),
{
    if ns.len() == 0 {
        0
    } else {
        sum(ns.drop_last()).wrapping_add(ns.last())
    }
}

/// All processor time and idle processor time, as `/proc/stat` counts them.
pub open spec fn cpu_times(content: Seq<char>) -> (u64, u64) {
    match first_line(lines(content), "cpu "@) {
        Some(line) => {
            let words = fields(line);
            let ns = if words.len() == 0 {
                seq![]
            } else {
                numbers(words.skip(1))
            };
            if ns.len() >= 4 {
                (sum(ns), ns[3])
            } else {
                (0, 0)
            }
        },
        None => (0, 0),
    }
}

/// Reads all and idle processor time from `/proc/stat`.
pub fn read_cpu_times_buf(content: &str) -> (r: (u64, u64))
    ensures
        r == cpu_times(content@),
{
    let ls = lines_in(content);
    let line = match find_line(&ls, "cpu ") {
        Some(i) => i,
        None => {
            return (0, 0);
        },
    };
    let words = fields_of(&ls[line]);
    let ghost all = texts(words@);
    if words.len() == 0 {
        return (0, 0);
    }
    let ghost rest = all.skip(1);
    let mut ns: Vec<u64> = Vec::new();
    let mut total: u64 = 0;
    let mut i: usize = 1;
    proof {
        assert(rest.take(0) =~= Seq::<Seq<char>>::empty());
    }
    while i < words.len()
        invariant
            1 <= i <= words@.len(),
            all == texts(words@),
            rest == all.skip(1),
            ns@ == numbers(rest.take(i - 1)),
            total == sum(ns@),
        decreases words.len() - i,
    {
        proof {
            assert(rest.take(i as int).drop_last() =~= rest.take(i - 1));
            assert(rest.take(i as int).last() == words@[i as int]@);
        }
        match read_number(&words[i]) {
            Some(n) => {
                let ghost had = ns@;
                ns.push(n);
                total = total.wrapping_add(n);
                proof {
                    assert(ns@.drop_last() =~= had);
                }
            },
            None => {},
        }
        i = i + 1;
    }
    proof {
        assert(rest.take(rest.len() as int) =~= rest);
    }
    if ns.len() >= 4 {
        (total, ns[3])
    } else {
        (0, 0)
    }
}

// Users

/// The number and the name of the user on a line of `/etc/passwd`.
pub open spec fn user_entry(line: Seq<char>) -> Option<(u32, Seq<char>)> {
    match piece(line, ':', 2) {
        Some(word) => match parsed(word, u32::MAX as nat) {
            Some(n) => Some((n as u32, line.take(before(line, ':') as int))),
            None => None,
        },
        None => None,
    }
}

/// The users on lines of `/etc/passwd`, the last one of each number.
pub open spec fn users(ls: Seq<Seq<char>>) -> Map<u32, Seq<char>>
    decreases ls.len(),
{
    if ls.len() == 0 {
        Map::empty()
    } else {
        match user_entry(ls.last()) {
            Some((n, name)) => users(ls.drop_last()).insert(n, name),
            None => users(ls.drop_last()),
        }
    }
}

/// The names in a user map.
pub open spec fn user_names(m: Map<u32, String>) -> Map<u32, Seq<char>> {
    m.map_values(|s: String| s@)
}

/// Reads the names of users from `/etc/passwd`.
pub fn build_user_map(content: &str) -> (r: UserMap)
    ensures
        user_names(r@) == users(lines(content@)),
{
    let ls = lines_in(content);
    let ghost all = texts(ls@);
    let mut m: HashMap<u32, String> = HashMap::new();
    let mut i: usize = 0;
    proof {
        assert(user_names(m@) =~= Map::<u32, Seq<char>>::empty());
    }
    while i < ls.len()
        invariant
            i <= ls@.len(),
            all == texts(ls@),
            user_names(m@) == users(all.take(i as int)),
        decreases ls.len() - i,
    {
        proof {
            assert(all.take(i + 1).drop_last() =~= all.take(i as int));
            assert(all.take(i + 1).last() == ls@[i as int]@);
        }
        let uid = match piece_of(&ls[i], ':', 2) {
            Some(word) => parse_number(&word, u32::MAX as u64),
            None => None,
        };
        match (piece_of(&ls[i], ':', 0), uid) {
            (Some(name), Some(n)) => {
                let ghost had = m@;
                let s = string_of(&name);
                m.insert(n as u32, s);
                proof {
                    assert(user_names(m@) =~= user_names(had).insert(n as u32, s@));
                }
            },
            _ => {},
        }
        i = i + 1;
    }
    proof {
        assert(all.take(all.len() as int) =~= all);
    }
    m
}

// Files of one process

/// The position of the last `c`.
pub open spec fn last_of(s: Seq<char>, c: char) -> Option<int>
    decreases s.len(),
{
    if s.len() == 0 {
        None
    } else if s.last() == c {
        Some(s.len() - 1)
    } else {
        last_of(s.drop_last(), c)
    }
}

/// The state of a process and its times in user and kernel mode, which stand
/// behind the name in `stat`.
pub open spec fn stat_fields(s: Seq<char>) -> Option<(char, u64, u64)> {
    match last_of(s, ')') {
        Some(r) => {
            let words = fields(s.skip(r + 2));
            if r + 2 <= s.len() && words.len() >= 13 {
                let state = if words[0].len() > 0 {
                    words[0][0]
                } else {
                    '?'
                };
                Some((state, amount(words, 11), amount(words, 12)))
            } else {
                None
            }
        },
        None => None,
    }
}

/// The name between the outermost parentheses of `stat`.
pub open spec fn stat_name(s: Seq<char>) -> Seq<char> {
    let open = before(s, '(');
    match last_of(s, ')') {
        Some(close) => if open < s.len() && close > open {
            s.subrange((open + 1) as int, close)
        } else {
            seq![]
        },
        None => seq![],
    }
}

/// What `stat` says of a process.
pub struct Stat {
    pub state: char,
    pub utime: u64,
    pub stime: u64,
    pub name: String,
}

/// The position of the last `c`.
fn find_last(s: &Vec<char>, c: char) -> (r: Option<usize>)
    ensures
        match r {
            Some(i) => i < s@.len() && last_of(s@, c) == Some(i as int),
            None => last_of(s@, c) is None,
        },
{
    let mut i: usize = s.len();
    proof {
        assert(s@.take(i as int) =~= s@);
    }
    while i > 0
        invariant
            i <= s@.len(),
            last_of(s@.take(i as int), c) == last_of(s@, c),
        decreases i,
    {
        if s[i - 1] == c {
            return Some(i - 1);
        }
        proof {
            assert(s@.take(i as int).drop_last() =~= s@.take(i - 1));
        }
        i = i - 1;
    }
    None
}

/// Reads `/proc/<pid>/stat`.
pub fn parse_stat(content: &str) -> (r: Option<Stat>)
    ensures
        match r {
            Some(st) => {
                &&& stat_fields(content@) == Some((st.state, st.utime, st.stime))
                &&& st.name@ == stat_name(content@)
            },
            None => stat_fields(content@) is None,
        },
{
    let s = chars_of(content);
    let close = match find_last(&s, ')') {
        Some(i) => i,
        None => {
            return None;
        },
    };
    if s.len() - close < 2 {
        return None;
    }
    let tail = part(&s, close + 2, s.len());
    proof {
        assert(tail@ =~= s@.skip(close + 2));
    }
    let words = fields_of(&tail);
    let ghost all = texts(words@);
    if words.len() < 13 {
        return None;
    }
    proof {
        assert(all[0] == words@[0]@);
    }
    let state = if words[0].len() > 0 { words[0][0] } else { '?' };
    let utime = amount_at(&words, 11);
    let stime = amount_at(&words, 12);
    let mut name = String::new();
    match piece_of(&s, '(', 0) {
        Some(head) => {
            let open = head.len();
            proof {
                crate::text::lemma_before(s@, '(');
            }
            if open < s.len() && close > open {
                name = string_of(&part(&s, open + 1, close));
            }
        },
        None => {},
    }
    proof {
        assert(name@ =~= stat_name(content@));
    }
    Some(Stat { state, utime, stime, name })
}

/// The second word of the first line that starts with `prefix`.
pub open spec fn status_word(s: Seq<char>, prefix: Seq<char>) -> Option<Seq<char>> {
    match first_line(lines(s), prefix) {
        Some(line) => if fields(line).len() > 1 {
            Some(fields(line)[1])
        } else {
            None
        },
        None => None,
    }
}

/// The parent of a process by its `status`; 1 if that does not say.
pub open spec fn status_ppid(s: Seq<char>) -> i32 {
    match status_word(s, "PPid:"@) {
        Some(word) => match parsed_i32(word) {
            Some(n) => n as i32,
            None => 1,
        },
        None => 1,
    }
}

/// The user of a process by its `status`; 0 if that does not say.
pub open spec fn status_uid(s: Seq<char>) -> u32 {
    match status_word(s, "Uid:"@) {
        Some(word) => match parsed(word, u32::MAX as nat) {
            Some(n) => n as u32,
            None => 0,
        },
        None => 0,
    }
}

/// The second word of the first line that starts with `prefix`.
fn word_after(ls: &Vec<Vec<char>>, prefix: &str, Ghost(s): Ghost<Seq<char>>) -> (r: Option<
    Vec<char>,
>)
    requires
        texts(ls@) == lines(s),
    ensures
        match r {
            Some(w) => status_word(s, prefix@) == Some(w@),
            None => status_word(s, prefix@) is None,
        },
{
    match find_line(ls, prefix) {
        Some(i) => {
            let words = fields_of(&ls[i]);
            let ghost all = texts(words@);
            if words.len() > 1 {
                proof {
                    assert(all[1] == words@[1]@);
                }
                let w = part(&words[1], 0, words[1].len());
                proof {
                    assert(w@ =~= words@[1]@);
                }
                Some(w)
            } else {
                None
            }
        },
        None => None,
    }
}

/// Reads the parent and the user of a process from `/proc/<pid>/status`.
pub fn parse_status(content: &str) -> (r: (i32, u32))
    ensures
        r == (status_ppid(content@), status_uid(content@)),
{
    let ls = lines_in(content);
    let ppid: i32 = match word_after(&ls, "PPid:", Ghost(content@)) {
        Some(w) => match parse_i32(&w) {
            Some(n) => n,
            None => 1,
        },
        None => 1,
    };
    let uid: u32 = match word_after(&ls, "Uid:", Ghost(content@)) {
        Some(w) => match parse_number(&w, u32::MAX as u64) {
            Some(n) => n as u32,
            None => 0,
        },
        None => 0,
    };
    (ppid, uid)
}

/// The amounts in `smaps_rollup`, in kibibytes.
#[derive(Clone, Copy, Debug, PartialEq, Eq, Structural)]
pub struct Rollup {
    pub pss: u64,
    pub rss: u64,
    pub private_clean: u64,
    pub private_dirty: u64,
    pub swap: u64,
}

/// What one line of `smaps_rollup` adds.
pub open spec fn rollup_step(a: Rollup, line: Seq<char>) -> Rollup {
    let words = fields(line);
    let n = amount(words, 1);
    if words.len() == 0 {
        a
    } else if words[0] == "Pss:"@ {
        Rollup { pss: n, ..a }
    } else if words[0] == "Rss:"@ {
        Rollup { rss: n, ..a }
    } else if words[0] == "Private_Clean:"@ {
        Rollup { private_clean: n, ..a }
    } else if words[0] == "Private_Dirty:"@ {
        Rollup { private_dirty: n, ..a }
    } else if words[0] == "Swap:"@ {
        Rollup { swap: n, ..a }
    } else {
        a
    }
}

/// What lines of `smaps_rollup` say, the last one about each amount.
pub open spec fn rollup(ls: Seq<Seq<char>>) -> Rollup
    decreases ls.len(),
{
    if ls.len() == 0 {
        Rollup { pss: 0, rss: 0, private_clean: 0, private_dirty: 0, swap: 0 }
    } else {
        rollup_step(rollup(ls.drop_last()), ls.last())
    }
}

/// The amount under a key.
pub open spec fn rollup_amount(a: Rollup, key: Seq<char>) -> u64 {
    if key == "Pss:"@ {
        a.pss
    } else if key == "Rss:"@ {
        a.rss
    } else if key == "Private_Clean:"@ {
        a.private_clean
    } else if key == "Private_Dirty:"@ {
        a.private_dirty
    } else {
        a.swap
    }
}

/// Whether a key is one of those that are read.
pub open spec fn rollup_key(key: Seq<char>) -> bool {
    key == "Pss:"@ || key == "Rss:"@ || key == "Private_Clean:"@ || key == "Private_Dirty:"@ || key
        == "Swap:"@
}

/// Whether a line is about a key.
pub open spec fn about(line: Seq<char>, key: Seq<char>) -> bool {
    fields(line).len() > 0 && fields(line)[0] == key
}

/// What the last line about a key says is what is read; without such a line it
/// is zero.
pub proof fn lemma_rollup_amount(ls: Seq<Seq<char>>, key: Seq<char>)
    requires
        rollup_key(key),
    ensures
        forall|i: int|
            0 <= i < ls.len() && #[trigger] about(ls[i], key) && (forall|j: int|
                i < j < ls.len() ==> !about(#[trigger] ls[j], key)) ==> rollup_amount(
                rollup(ls),
                key,
            ) == amount(fields(ls[i]), 1),
        (forall|j: int| 0 <= j < ls.len() ==> !about(#[trigger] ls[j], key)) ==> rollup_amount(
            rollup(ls),
            key,
        ) == 0,
    decreases ls.len(),
{
    if ls.len() > 0 {
        let r = ls.drop_last();
        lemma_rollup_amount(r, key);
        lemma_rollup_step(rollup(r), ls.last(), key);
        assert forall|i: int|
            0 <= i < ls.len() && #[trigger] about(ls[i], key) && (forall|j: int|
                i < j < ls.len() ==> !about(#[trigger] ls[j], key)) implies rollup_amount(
            rollup(ls),
            key,
        ) == amount(fields(ls[i]), 1) by {
            if i < ls.len() - 1 {
                assert(!about(ls[ls.len() - 1], key));
                assert(about(r[i], key));
                assert forall|j: int| i < j < r.len() implies !about(#[trigger] r[j], key) by {
                    assert(!about(ls[j], key));
                }
            }
        }
        if forall|j: int| 0 <= j < ls.len() ==> !about(#[trigger] ls[j], key) {
            assert(!about(ls[ls.len() - 1], key));
            assert forall|j: int| 0 <= j < r.len() implies !about(#[trigger] r[j], key) by {
                assert(!about(ls[j], key));
            }
        }
    }
}

proof fn lemma_rollup_step(a: Rollup, line: Seq<char>, key: Seq<char>)
    requires
        rollup_key(key),
    ensures
        rollup_amount(rollup_step(a, line), key) == (if about(line, key) {
            amount(fields(line), 1)
        } else {
            rollup_amount(a, key)
        }),
{
    reveal_strlit("Pss:");
    reveal_strlit("Rss:");
    reveal_strlit("Private_Clean:");
    reveal_strlit("Private_Dirty:");
    reveal_strlit("Swap:");
    assert("Pss:"@[0] == 'P' && "Rss:"@[0] == 'R' && "Swap:"@[0] == 'S');
    assert("Private_Clean:"@[8] == 'C' && "Private_Dirty:"@[8] == 'D');
    assert("Pss:"@.len() == 4 && "Private_Clean:"@.len() == 14);
}

/// The memory of a process, in kibibytes.
#[derive(Clone, Copy, Debug, PartialEq, Eq, Structural)]
pub struct Memory {
    pub pss_kb: u64,
    pub uss_kb: u64,
    pub rss_kb: u64,
    pub swap_kb: u64,
}

/// The memory of a process by its `smaps_rollup`. Its unique set is its private
/// memory, clean and dirty.
pub open spec fn rollup_memory(s: Seq<char>) -> Memory {
    let a = rollup(lines(s));
    Memory {
        pss_kb: a.pss,
        uss_kb: a.private_clean.wrapping_add(a.private_dirty),
        rss_kb: a.rss,
        swap_kb: a.swap,
    }
}

/// Reads the memory of a process from `/proc/<pid>/smaps_rollup`.
pub fn parse_smaps_rollup(content: &str) -> (r: Memory)
    ensures
        r == rollup_memory(content@),
{
    let ls = lines_in(content);
    let ghost all = texts(ls@);
    let key_pss = chars_of("Pss:");
    let key_rss = chars_of("Rss:");
    let key_clean = chars_of("Private_Clean:");
    let key_dirty = chars_of("Private_Dirty:");
    let key_swap = chars_of("Swap:");
    let mut a = Rollup { pss: 0, rss: 0, private_clean: 0, private_dirty: 0, swap: 0 };
    let mut i: usize = 0;
    while i < ls.len()
        invariant
            i <= ls@.len(),
            all == texts(ls@),
            key_pss@ == "Pss:"@,
            key_rss@ == "Rss:"@,
            key_clean@ == "Private_Clean:"@,
            key_dirty@ == "Private_Dirty:"@,
            key_swap@ == "Swap:"@,
            a == rollup(all.take(i as int)),
        decreases ls.len() - i,
    {
        proof {
            assert(all.take(i + 1).drop_last() =~= all.take(i as int));
            assert(all.take(i + 1).last() == ls@[i as int]@);
        }
        let words = fields_of(&ls[i]);
        let ghost ws = texts(words@);
        if words.len() > 0 {
            proof {
                assert(ws[0] == words@[0]@);
            }
            let n = amount_at(&words, 1);
            if same(&words[0], &key_pss) {
                a.pss = n;
            } else if same(&words[0], &key_rss) {
                a.rss = n;
            } else if same(&words[0], &key_clean) {
                a.private_clean = n;
            } else if same(&words[0], &key_dirty) {
                a.private_dirty = n;
            } else if same(&words[0], &key_swap) {
                a.swap = n;
            }
        }
        i = i + 1;
    }
    proof {
        assert(all.take(all.len() as int) =~= all);
    }
    Memory {
        pss_kb: a.pss,
        uss_kb: a.private_clean.wrapping_add(a.private_dirty),
        rss_kb: a.rss,
        swap_kb: a.swap,
    }
}

/// A command line whose arguments spaces separate, cut to 2040 characters.
pub open spec fn command_text(s: Seq<char>) -> Seq<char> {
    shortened(
        trimmed(
            s.map_values(
                |c: char|
                    if c == '\0' {
                        ' '
                    } else {
                        c
                    },
            ),
        ),
        2040,
    )
}

/// Reads the command line of a process from `/proc/<pid>/cmdline`.
pub fn parse_cmdline(content: &str) -> (r: String)
    ensures
        r@ == command_text(content@),
{
    let s = chars_of(content);
    let mut t: Vec<char> = Vec::new();
    let ghost f = |c: char|
        if c == '\0' {
            ' '
        } else {
            c
        };
    let mut i: usize = 0;
    while i < s.len()
        invariant
            i <= s@.len(),
            t@.len() == i,
            forall|k: int| 0 <= k < i ==> t@[k] == f(s@[k]),
            f == (|c: char|
                if c == '\0' {
                    ' '
                } else {
                    c
                }),
        decreases s.len() - i,
    {
        let c = s[i];
        t.push(if c == '\0' { ' ' } else { c });
        i = i + 1;
    }
    proof {
        assert(t@ =~= s@.map_values(f));
    }
    string_of(&shorten(&trim(&t), 2040))
}

// Load

/// The first words, a space between them.
pub open spec fn joined(words: Seq<Seq<char>>) -> Seq<char>
    decreases words.len(),
{
    if words.len() == 0 {
        seq![]
    } else if words.len() == 1 {
        words[0]
    } else {
        joined(words.drop_last()) + " "@ + words.last()
    }
}

/// The load averages over one, five and fifteen minutes.
pub open spec fn load_text(s: Seq<char>) -> Seq<char> {
    let words = fields(s);
    joined(if words.len() > 3 {
        words.take(3)
    } else {
        words
    })
}

/// Reads the load averages from `/proc/loadavg`.
pub fn parse_loadavg(content: &str) -> (r: String)
    ensures
        r@ == load_text(content@),
{
    let words = fields_of(&chars_of(content));
    let ghost all = texts(words@);
    let n: usize = if words.len() > 3 { 3 } else { words.len() };
    let mut r = String::new();
    let mut i: usize = 0;
    while i < n
        invariant
            i <= n <= words@.len(),
            all == texts(words@),
            r@ == joined(all.take(i as int)),
        decreases n - i,
    {
        proof {
            assert(all.take(i + 1).drop_last() =~= all.take(i as int));
            assert(all.take(i + 1).last() == words@[i as int]@);
        }
        if i > 0 {
            r.append(" ");
        }
        crate::text::push_all(&mut r, &words[i]);
        proof {
            assert(r@ =~= joined(all.take(i + 1)));
        }
        i = i + 1;
    }
    proof {
        assert(all.take(all.len() as int) =~= all);
    }
    r
}

/// The first word of a text.
pub open spec fn first_word(s: Seq<char>) -> Option<Seq<char>> {
    if fields(s).len() > 0 {
        Some(fields(s)[0])
    } else {
        None
    }
}

/// The first word of a file: the run time in `schedstat`, the seconds in
/// `/proc/uptime`.
pub fn first_field(content: &str) -> (r: Option<String>)
    ensures
        match r {
            Some(w) => first_word(content@) == Some(w@),
            None => first_word(content@) is None,
        },
{
    let words = fields_of(&chars_of(content));
    let ghost all = texts(words@);
    if words.len() > 0 {
        proof {
            assert(all[0] == words@[0]@);
        }
        Some(string_of(&words[0]))
    } else {
        None
    }
}

} // verus!
