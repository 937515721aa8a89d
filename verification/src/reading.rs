//! What is written in the files below `/proc` is what is read from them.

use crate::procfs::{
    about, amount, command_text, cpu_times, entry_or, first_line, last_of, lemma_rollup_amount,
    load_text, meminfo, meminfo_entry, number, numbers, rollup, rollup_memory, stat_fields,
    stat_name, status_ppid, status_uid, sum, user_entry, users, within_bytes,
};
use crate::text::{
    all_digits, before, decimal, fields, is_digit, is_space, lemma_read_back, lemma_read_back_i32,
    lemma_value_decimal, lines, occurs_at, parsed, piece, signed_decimal, trimmed,
    trimmed_end, trimmed_start, without_return, word_len,
};
use crate::worker::pid_named;
use vstd::prelude::*;
use vstd::utf8::encode_utf8;

verus! {

// Lines and words

/// Whether a character is not among those of a text.
pub open spec fn lacks(s: Seq<char>, c: char) -> bool {
    forall|i: int| 0 <= i < s.len() ==> #[trigger] s[i] != c
}

/// Whether a text is one word: not empty, and without white space.
pub open spec fn one_word(s: Seq<char>) -> bool {
    s.len() > 0 && forall|i: int| 0 <= i < s.len() ==> !is_space(#[trigger] s[i])
}

proof fn lemma_before_at(s: Seq<char>, c: char, n: int)
    requires
        0 <= n <= s.len(),
        forall|i: int| 0 <= i < n ==> #[trigger] s[i] != c,
        n < s.len() ==> s[n] == c,
    ensures
        before(s, c) == n,
    decreases n,
{
    if n > 0 {
        let t = s.skip(1);
        assert(s[0] != c);
        assert forall|i: int| 0 <= i < n - 1 implies #[trigger] t[i] != c by {
            assert(s[i + 1] != c);
        }
        lemma_before_at(t, c, n - 1);
    }
}

proof fn lemma_word_at(s: Seq<char>, n: int)
    requires
        0 <= n <= s.len(),
        forall|i: int| 0 <= i < n ==> !is_space(#[trigger] s[i]),
        n < s.len() ==> is_space(s[n]),
    ensures
        word_len(s) == n,
    decreases n,
{
    if n > 0 {
        let t = s.skip(1);
        assert(!is_space(s[0]));
        assert forall|i: int| 0 <= i < n - 1 implies !is_space(#[trigger] t[i]) by {
            assert(!is_space(s[i + 1]));
        }
        lemma_word_at(t, n - 1);
    }
}

/// A line is what stands before a line feed, with or without a carriage return.
pub proof fn lemma_line_read(line: Seq<char>, rest: Seq<char>)
    requires
        lacks(line, '\n'),
        line.len() == 0 || line.last() != '\r',
    ensures
        lines(line + "\n"@ + rest) == seq![line] + lines(rest),
        lines(line + "\r\n"@ + rest) == seq![line] + lines(rest),
        line.len() > 0 ==> lines(line) == seq![line],
        lines(Seq::<char>::empty()).len() == 0,
{
    reveal_strlit("\n");
    reveal_strlit("\r\n");
    let s = line + "\n"@ + rest;
    let k = line.len() as int;
    assert forall|i: int| 0 <= i < k implies #[trigger] s[i] != '\n' by {
        assert(s[i] == line[i]);
    }
    lemma_before_at(s, '\n', k);
    assert(s.take(k) =~= line);
    assert(s.skip(k + 1) =~= rest);
    let t = line + "\r\n"@ + rest;
    assert forall|i: int| 0 <= i < k + 1 implies #[trigger] t[i] != '\n' by {
        if i < k {
            assert(t[i] == line[i]);
        }
    }
    lemma_before_at(t, '\n', k + 1);
    assert(t.take(k + 1) =~= line.push('\r'));
    assert(line.push('\r').drop_last() =~= line);
    assert(t.skip(k + 2) =~= rest);
    if line.len() > 0 {
        lemma_before_at(line, '\n', k);
    }
}

/// The lines of two texts, the first of which is empty or ends with a line feed,
/// are those of the first and then those of the second.
pub proof fn lemma_lines_concat(a: Seq<char>, b: Seq<char>)
    requires
        a.len() == 0 || a.last() == '\n',
    ensures
        lines(a + b) == lines(a) + lines(b),
    decreases a.len(),
{
    if a.len() == 0 {
        assert(a + b =~= b);
        assert(lines(a) + lines(b) =~= lines(b));
    } else {
        let s = a + b;
        crate::text::lemma_before(a, '\n');
        lemma_before_found(a, '\n', a.len() - 1);
        let k = before(a, '\n') as int;
        lemma_before_is(a, '\n');
        assert forall|i: int| 0 <= i < k implies #[trigger] s[i] != '\n' by {
            assert(s[i] == a[i]);
        }
        lemma_before_at(s, '\n', k);
        let rest = a.skip(k + 1);
        assert(rest.len() == 0 || rest.last() == a.last());
        lemma_lines_concat(rest, b);
        assert(s.take(k) =~= a.take(k));
        assert(s.skip(k + 1) =~= rest + b);
        let l = seq![without_return(a.take(k))];
        assert(l + (lines(rest) + lines(b)) =~= (l + lines(rest)) + lines(b));
    }
}

/// Something stands before a character only as far as there is none.
proof fn lemma_before_is(s: Seq<char>, c: char)
    ensures
        before(s, c) <= s.len(),
        forall|i: int| 0 <= i < before(s, c) ==> #[trigger] s[i] != c,
        before(s, c) < s.len() ==> s[before(s, c) as int] == c,
    decreases s.len(),
{
    if s.len() > 0 && s[0] != c {
        let t = s.skip(1);
        lemma_before_is(t, c);
        assert forall|i: int| 0 <= i < before(s, c) implies #[trigger] s[i] != c by {
            if i > 0 {
                assert(t[i - 1] != c);
            }
        }
    }
}

proof fn lemma_before_found(s: Seq<char>, c: char, n: int)
    requires
        0 <= n < s.len(),
        s[n] == c,
    ensures
        before(s, c) <= n,
{
    lemma_before_is(s, c);
    if before(s, c) > n {
        assert(s[n] != c);
    }
}

/// The words of a text are what white space separates.
pub proof fn lemma_word_read(word: Seq<char>, rest: Seq<char>)
    requires
        one_word(word),
        rest.len() == 0 || is_space(rest[0]),
    ensures
        fields(word + rest) == seq![word] + fields(rest),
{
    let s = word + rest;
    let k = word.len() as int;
    assert forall|i: int| 0 <= i < k implies !is_space(#[trigger] s[i]) by {
        assert(s[i] == word[i]);
    }
    lemma_word_at(s, k);
    assert(s.take(k) =~= word);
    assert(s.skip(k) =~= rest);
}

/// White space before a word does not matter; spaces and tabs are white space,
/// letters, digits and signs are not.
pub proof fn lemma_space_skipped(c: char, rest: Seq<char>)
    requires
        c == ' ' || c == '\t',
    ensures
        fields(seq![c] + rest) == fields(rest),
        fields(Seq::<char>::empty()).len() == 0,
        forall|d: char| '!' <= d <= '~' ==> !#[trigger] is_space(d),
        is_space(c),
{
    let s = seq![c] + rest;
    assert(s.skip(1) =~= rest);
    assert(is_space(s[0]));
}

/// A text in which each of some words follows a space.
pub open spec fn spelled(words: Seq<Seq<char>>) -> Seq<char>
    decreases words.len(),
{
    if words.len() == 0 {
        seq![]
    } else {
        seq![' '] + (words[0] + spelled(words.skip(1)))
    }
}

/// The words of a text made of words are these.
pub proof fn lemma_words_read(words: Seq<Seq<char>>)
    requires
        forall|i: int| 0 <= i < words.len() ==> one_word(#[trigger] words[i]),
    ensures
        fields(spelled(words)) == words,
        spelled(words).len() > 0 ==> is_space(spelled(words)[0]),
    decreases words.len(),
{
    if words.len() == 0 {
        assert(fields(spelled(words)) =~= words);
    } else {
        let rest = words.skip(1);
        assert forall|i: int| 0 <= i < rest.len() implies one_word(#[trigger] rest[i]) by {
            assert(rest[i] == words[i + 1]);
        }
        lemma_words_read(rest);
        lemma_word_read(words[0], spelled(rest));
        lemma_space_skipped(' ', words[0] + spelled(rest));
        assert(seq![words[0]] + rest =~= words);
    }
}

proof fn lemma_spelled_lacks(words: Seq<Seq<char>>, c: char)
    requires
        c != ' ',
        forall|i: int| 0 <= i < words.len() ==> lacks(#[trigger] words[i], c),
    ensures
        lacks(spelled(words), c),
    decreases words.len(),
{
    if words.len() > 0 {
        let rest = words.skip(1);
        assert forall|i: int| 0 <= i < rest.len() implies lacks(#[trigger] rest[i], c) by {
            assert(rest[i] == words[i + 1]);
        }
        lemma_spelled_lacks(rest, c);
        let s = spelled(words);
        let t = spelled(rest);
        assert(lacks(words[0], c));
        assert forall|i: int| 0 <= i < s.len() implies #[trigger] s[i] != c by {
            if 0 < i <= words[0].len() {
                assert(s[i] == words[0][i - 1]);
            } else if i > 0 {
                assert(s[i] == t[i - 1 - words[0].len()]);
            }
        }
    }
}

// Numbers

/// A number of 64 bits in decimal is read as it is.
proof fn lemma_number_read(n: u64)
    ensures
        number(decimal(n as nat)) == Some(n),
        one_word(decimal(n as nat)),
{
    lemma_read_back(n as nat, u64::MAX as nat);
    lemma_value_decimal(n as nat);
    let d = decimal(n as nat);
    assert forall|i: int| 0 <= i < d.len() implies !is_space(#[trigger] d[i]) by {
        assert(is_digit(d[i]));
    }
}

/// An entry below `/proc` stands for a process if it is a number, which then is
/// that of the process.
pub proof fn lemma_pid_read(pid: i32, name: Seq<char>)
    requires
        pid >= 0,
    ensures
        pid_named(decimal(pid as nat)) == Some(pid),
        (exists|i: int| 0 <= i < name.len() && !('0' <= #[trigger] name[i] <= '9')) ==> pid_named(
            name,
        ) is None,
{
    lemma_read_back_i32(pid);
    lemma_value_decimal(pid as nat);
    if exists|i: int| 0 <= i < name.len() && !('0' <= #[trigger] name[i] <= '9') {
        let i = choose|i: int| 0 <= i < name.len() && !('0' <= #[trigger] name[i] <= '9');
        assert(!is_digit(name[i]));
        assert(!all_digits(name));
    }
}

// The files of a process

proof fn lemma_last_of(s: Seq<char>, c: char, n: int)
    requires
        0 <= n < s.len(),
        s[n] == c,
        forall|i: int| n < i < s.len() ==> #[trigger] s[i] != c,
    ensures
        last_of(s, c) == Some(n),
    decreases s.len(),
{
    if n < s.len() - 1 {
        let t = s.drop_last();
        assert(s[s.len() - 1] != c);
        assert forall|i: int| n < i < t.len() implies #[trigger] t[i] != c by {
            assert(s[i] != c);
        }
        lemma_last_of(t, c, n);
    }
}

/// A `stat` file says in brackets what the process is called, whatever stands in
/// there; the first word behind is its state, and the twelfth and thirteenth are
/// the ticks it has spent for itself and in the kernel.
pub proof fn lemma_stat_read(
    head: Seq<char>,
    name: Seq<char>,
    words: Seq<Seq<char>>,
    utime: u64,
    stime: u64,
)
    requires
        lacks(head, '('),
        words.len() >= 13,
        forall|i: int|
            0 <= i < words.len() ==> one_word(#[trigger] words[i]) && lacks(words[i], ')'),
        words[11] == decimal(utime as nat),
        words[12] == decimal(stime as nat),
    ensures
        ({
            let s = head + "("@ + name + ")"@ + spelled(words);
            &&& stat_fields(s) == Some((words[0][0], utime, stime))
            &&& stat_name(s) == name
        }),
{
    reveal_strlit("(");
    reveal_strlit(")");
    let s = head + "("@ + name + ")"@ + spelled(words);
    let t = spelled(words);
    let r = (head.len() + 1 + name.len()) as int;
    lemma_words_read(words);
    lemma_spelled_lacks(words, ')');
    assert forall|i: int| r < i < s.len() implies #[trigger] s[i] != ')' by {
        assert(s[i] == t[i - r - 1]);
    }
    lemma_last_of(s, ')', r);
    let rest = words.skip(1);
    let u = words[0] + spelled(rest);
    assert(one_word(words[0]));
    assert(s.skip(r + 2) =~= u);
    assert(t =~= seq![' '] + u);
    lemma_space_skipped(' ', u);
    assert(fields(u) == words);
    lemma_number_read(utime);
    lemma_number_read(stime);
    assert forall|i: int| 0 <= i < head.len() implies #[trigger] s[i] != '(' by {
        assert(s[i] == head[i]);
    }
    lemma_before_at(s, '(', head.len() as int);
    assert(s.subrange((head.len() + 1) as int, r) =~= name);
}

/// The amounts of memory are those behind their names in the last line that has
/// one; the unique set size is what is private, clean and dirty together.
pub proof fn lemma_memory_read(s: Seq<char>, at: Seq<int>, kb: Seq<u64>)
    requires
        at.len() == 5,
        kb.len() == 5,
        forall|k: int|
            0 <= k < 5 ==> 0 <= #[trigger] at[k] < lines(s).len() && fields(
                lines(s)[at[k]],
            ).len() > 1 && fields(lines(s)[at[k]])[1] == decimal(kb[k] as nat),
        fields(lines(s)[at[0]])[0] == "Pss:"@,
        fields(lines(s)[at[1]])[0] == "Rss:"@,
        fields(lines(s)[at[2]])[0] == "Private_Clean:"@,
        fields(lines(s)[at[3]])[0] == "Private_Dirty:"@,
        fields(lines(s)[at[4]])[0] == "Swap:"@,
        forall|k: int, j: int|
            0 <= k < 5 && #[trigger] at[k] < j < lines(s).len() && fields(
                #[trigger] lines(s)[j],
            ).len() > 0 ==> fields(lines(s)[j])[0] != fields(lines(s)[at[k]])[0],
        kb[2] + kb[3] <= u64::MAX,
    ensures
        rollup_memory(s).pss_kb == kb[0],
        rollup_memory(s).rss_kb == kb[1],
        rollup_memory(s).uss_kb == kb[2] + kb[3],
        rollup_memory(s).swap_kb == kb[4],
{
    let ls = lines(s);
    lemma_amount_read(ls, "Pss:"@, at[0], kb[0]);
    lemma_amount_read(ls, "Rss:"@, at[1], kb[1]);
    lemma_amount_read(ls, "Private_Clean:"@, at[2], kb[2]);
    lemma_amount_read(ls, "Private_Dirty:"@, at[3], kb[3]);
    lemma_amount_read(ls, "Swap:"@, at[4], kb[4]);
    lemma_keys_differ();
}

/// What no line tells of is zero.
pub proof fn lemma_memory_untold(s: Seq<char>, key: Seq<char>)
    requires
        forall|j: int|
            0 <= j < lines(s).len() && fields(#[trigger] lines(s)[j]).len() > 0 ==> fields(
                lines(s)[j],
            )[0] != key,
    ensures
        key == "Pss:"@ ==> rollup_memory(s).pss_kb == 0,
        key == "Rss:"@ ==> rollup_memory(s).rss_kb == 0,
        key == "Swap:"@ ==> rollup_memory(s).swap_kb == 0,
{
    lemma_keys_differ();
    if key == "Pss:"@ || key == "Rss:"@ || key == "Swap:"@ {
        lemma_rollup_amount(lines(s), key);
        assert forall|j: int| 0 <= j < lines(s).len() implies !about(
            #[trigger] lines(s)[j],
            key,
        ) by {}
    }
}

proof fn lemma_keys_differ()
    ensures
        "Pss:"@ != "Rss:"@ && "Pss:"@ != "Private_Clean:"@ && "Pss:"@ != "Private_Dirty:"@
            && "Pss:"@ != "Swap:"@,
        "Rss:"@ != "Private_Clean:"@ && "Rss:"@ != "Private_Dirty:"@ && "Rss:"@ != "Swap:"@,
        "Private_Clean:"@ != "Private_Dirty:"@ && "Private_Clean:"@ != "Swap:"@,
        "Private_Dirty:"@ != "Swap:"@,
{
    reveal_strlit("Pss:");
    reveal_strlit("Rss:");
    reveal_strlit("Private_Clean:");
    reveal_strlit("Private_Dirty:");
    reveal_strlit("Swap:");
    assert("Pss:"@[0] != "Rss:"@[0] && "Pss:"@[0] != "Swap:"@[0] && "Rss:"@[0] != "Swap:"@[0]);
    assert("Private_Clean:"@[8] != "Private_Dirty:"@[8]);
    assert("Pss:"@.len() == 4 && "Rss:"@.len() == 4 && "Swap:"@.len() == 5);
    assert("Private_Clean:"@.len() == 14 && "Private_Dirty:"@.len() == 14);
}

proof fn lemma_amount_read(ls: Seq<Seq<char>>, key: Seq<char>, i: int, n: u64)
    requires
        crate::procfs::rollup_key(key),
        0 <= i < ls.len(),
        fields(ls[i]).len() > 1,
        fields(ls[i])[0] == key,
        fields(ls[i])[1] == decimal(n as nat),
        forall|j: int|
            i < j < ls.len() && fields(#[trigger] ls[j]).len() > 0 ==> fields(ls[j])[0] != key,
    ensures
        crate::procfs::rollup_amount(rollup(ls), key) == n,
{
    lemma_rollup_amount(ls, key);
    lemma_number_read(n);
    assert(about(ls[i], key));
    assert forall|j: int| i < j < ls.len() implies !about(#[trigger] ls[j], key) by {}
    assert(amount(fields(ls[i]), 1) == n);
}

proof fn lemma_first_line(ls: Seq<Seq<char>>, prefix: Seq<char>, i: int)
    requires
        0 <= i < ls.len(),
        occurs_at(ls[i], prefix, 0),
        forall|j: int| 0 <= j < i ==> !occurs_at(#[trigger] ls[j], prefix, 0),
    ensures
        first_line(ls, prefix) == Some(ls[i]),
    decreases i,
{
    if i > 0 {
        let r = ls.skip(1);
        assert(!occurs_at(ls[0], prefix, 0));
        assert forall|j: int| 0 <= j < i - 1 implies !occurs_at(#[trigger] r[j], prefix, 0) by {
            assert(r[j] == ls[j + 1]);
        }
        lemma_first_line(r, prefix, i - 1);
    }
}

proof fn lemma_no_line(ls: Seq<Seq<char>>, prefix: Seq<char>)
    requires
        forall|j: int| 0 <= j < ls.len() ==> !occurs_at(#[trigger] ls[j], prefix, 0),
    ensures
        first_line(ls, prefix) is None,
    decreases ls.len(),
{
    if ls.len() > 0 {
        let r = ls.skip(1);
        assert(!occurs_at(ls[0], prefix, 0));
        assert forall|j: int| 0 <= j < r.len() implies !occurs_at(#[trigger] r[j], prefix, 0) by {
            assert(r[j] == ls[j + 1]);
        }
        lemma_no_line(r, prefix);
    }
}

/// The process above is the number behind `PPid:` in a `status` file, and the one
/// that is first of all if there is none.
pub proof fn lemma_parent_read(s: Seq<char>, i: int, ppid: i32)
    ensures
        0 <= i < lines(s).len() && occurs_at(lines(s)[i], "PPid:"@, 0) && (forall|j: int|
            0 <= j < i ==> !occurs_at(#[trigger] lines(s)[j], "PPid:"@, 0)) && fields(
            lines(s)[i],
        ).len() > 1 && fields(lines(s)[i])[1] == signed_decimal(ppid as int) ==> status_ppid(s)
            == ppid,
        (forall|j: int| 0 <= j < lines(s).len() ==> !occurs_at(#[trigger] lines(s)[j], "PPid:"@, 0))
            ==> status_ppid(s) == 1,
{
    let ls = lines(s);
    lemma_read_back_i32(ppid);
    if 0 <= i < ls.len() && occurs_at(ls[i], "PPid:"@, 0) && (forall|j: int|
        0 <= j < i ==> !occurs_at(#[trigger] ls[j], "PPid:"@, 0)) {
        lemma_first_line(ls, "PPid:"@, i);
    }
    if forall|j: int| 0 <= j < ls.len() ==> !occurs_at(#[trigger] ls[j], "PPid:"@, 0) {
        lemma_no_line(ls, "PPid:"@);
    }
}

/// The user is the first number behind `Uid:` in a `status` file, and root if
/// there is none.
pub proof fn lemma_uid_read(s: Seq<char>, i: int, uid: u32)
    ensures
        0 <= i < lines(s).len() && occurs_at(lines(s)[i], "Uid:"@, 0) && (forall|j: int|
            0 <= j < i ==> !occurs_at(#[trigger] lines(s)[j], "Uid:"@, 0)) && fields(
            lines(s)[i],
        ).len() > 1 && fields(lines(s)[i])[1] == decimal(uid as nat) ==> status_uid(s) == uid,
        (forall|j: int| 0 <= j < lines(s).len() ==> !occurs_at(#[trigger] lines(s)[j], "Uid:"@, 0))
            ==> status_uid(s) == 0,
{
    let ls = lines(s);
    lemma_read_back(uid as nat, u32::MAX as nat);
    if 0 <= i < ls.len() && occurs_at(ls[i], "Uid:"@, 0) && (forall|j: int|
        0 <= j < i ==> !occurs_at(#[trigger] ls[j], "Uid:"@, 0)) {
        lemma_first_line(ls, "Uid:"@, i);
    }
    if forall|j: int| 0 <= j < ls.len() ==> !occurs_at(#[trigger] ls[j], "Uid:"@, 0) {
        lemma_no_line(ls, "Uid:"@);
    }
}

proof fn lemma_trimmed_same(s: Seq<char>)
    requires
        s.len() > 0,
        !is_space(s[0]),
        !is_space(s.last()),
    ensures
        trimmed(s) == s,
        trimmed(s.push(' ')) == s,
{
    let t = s.push(' ');
    assert(t[0] == s[0]);
    assert(trimmed_start(t) == t);
    assert(t.drop_last() =~= s);
    assert(is_space(t.last()));
    assert(trimmed_end(s) == s);
    assert(trimmed_end(t) == trimmed_end(t.drop_last()));
}

/// A command line is the arguments with spaces in place of the zeros between
/// them and without the last zero, up to 2040 characters.
pub proof fn lemma_command_read(s: Seq<char>)
    requires
        s.len() > 0,
        !is_space(s[0]) && s[0] != '\0',
        !is_space(s.last()) && s.last() != '\0',
    ensures
        ({
            let c = command_text(s);
            &&& s.len() <= 2040 ==> c.len() == s.len()
            &&& s.len() > 2040 ==> c.len() == 2040
            &&& forall|i: int|
                0 <= i < c.len() ==> #[trigger] c[i] == (if s[i] == '\0' {
                    ' '
                } else {
                    s[i]
                })
            &&& command_text(s.push('\0')) == c
        }),
        command_text(Seq::<char>::empty()).len() == 0,
{
    let f = |c: char|
        if c == '\0' {
            ' '
        } else {
            c
        };
    let t = s.map_values(f);
    assert(t[0] == s[0] && t.last() == s.last());
    lemma_trimmed_same(t);
    assert(s.push('\0').map_values(f) =~= t.push(' '));
    assert(Seq::<char>::empty().map_values(f) =~= Seq::<char>::empty());
}

// The files of the machine

/// The load is the first three words of its file.
pub proof fn lemma_load_read(s: Seq<char>)
    ensures
        fields(s).len() >= 3 ==> load_text(s) == fields(s)[0] + " "@ + fields(s)[1] + " "@ + fields(
            s,
        )[2],
        fields(s).len() == 0 ==> load_text(s).len() == 0,
{
    let w = fields(s);
    if w.len() >= 3 {
        let a = w.take(3);
        assert(load_text(s) == crate::procfs::joined(a)) by {
            if w.len() == 3 {
                assert(a =~= w);
            }
        }
        let b = a.drop_last();
        assert(b.drop_last() =~= seq![w[0]]);
        assert(crate::procfs::joined(b.drop_last()) == w[0]);
        assert(b.last() == w[1] && a.last() == w[2]);
        assert(crate::procfs::joined(b) == w[0] + " "@ + w[1]);
    }
}

/// An entry of `/proc/meminfo` is the number behind a name and a colon; of
/// several with one name the last one counts, and there is none without a line.
pub proof fn lemma_meminfo_read(
    ls: Seq<Seq<char>>,
    i: int,
    name: Seq<char>,
    rest: Seq<char>,
    n: u64,
)
    requires
        0 <= i < ls.len(),
        one_word(name),
        lacks(name, ':'),
        ls[i] == name + ":"@ + rest,
        fields(rest).len() > 0,
        fields(rest)[0] == decimal(n as nat),
        forall|j: int|
            i < j < ls.len() ==> trimmed(
                (#[trigger] ls[j]).take(before(ls[j], ':') as int),
            ) != name,
    ensures
        meminfo(ls).contains_key(name),
        meminfo(ls)[name] == n,
        entry_or(meminfo(ls), name, 0) == n,
    decreases ls.len(),
{
    reveal_strlit(":");
    let last = ls.len() - 1;
    if i == last {
        let line = ls[i];
        let k = name.len() as int;
        assert forall|x: int| 0 <= x < k implies #[trigger] line[x] != ':' by {
            assert(line[x] == name[x]);
        }
        lemma_before_at(line, ':', k);
        assert(line.take(k) =~= name);
        assert(line.skip(k + 1) =~= rest);
        assert(!is_space(name[0]) && !is_space(name[name.len() - 1]));
        lemma_trimmed_same(name);
        lemma_number_read(n);
        assert(meminfo_entry(ls.last()) == Some((name, n)));
    } else {
        let r = ls.drop_last();
        assert forall|j: int| i < j < r.len() implies trimmed(
            (#[trigger] r[j]).take(before(r[j], ':') as int),
        ) != name by {
            assert(r[j] == ls[j]);
        }
        lemma_meminfo_read(r, i, name, rest, n);
        assert(ls[last] == ls.last());
    }
}

/// All processor time of the machine is the sum of the numbers in the first line
/// that starts with `cpu `, and the time it was idle is the fourth of them.
pub proof fn lemma_cpu_times_read(s: Seq<char>, i: int, ns: Seq<u64>)
    requires
        0 <= i < lines(s).len(),
        occurs_at(lines(s)[i], "cpu "@, 0),
        forall|j: int| 0 <= j < i ==> !occurs_at(#[trigger] lines(s)[j], "cpu "@, 0),
        ns.len() >= 4,
        fields(lines(s)[i]).len() == ns.len() + 1,
        forall|k: int|
            0 <= k < ns.len() ==> fields(lines(s)[i])[k + 1] == decimal(#[trigger] ns[k] as nat),
    ensures
        cpu_times(s).1 == ns[3],
        cpu_times(s).0 == sum(ns),
{
    let ls = lines(s);
    lemma_first_line(ls, "cpu "@, i);
    let words = fields(ls[i]).skip(1);
    assert forall|k: int| 0 <= k < ns.len() implies words[k] == decimal(#[trigger] ns[k] as nat) by {
        assert(words[k] == fields(ls[i])[k + 1]);
    }
    lemma_numbers_read(words, ns);
}

proof fn lemma_numbers_read(words: Seq<Seq<char>>, ns: Seq<u64>)
    requires
        words.len() == ns.len(),
        forall|k: int| 0 <= k < ns.len() ==> words[k] == decimal(#[trigger] ns[k] as nat),
    ensures
        numbers(words) == ns,
    decreases words.len(),
{
    if words.len() > 0 {
        let a = words.drop_last();
        let b = ns.drop_last();
        assert forall|k: int| 0 <= k < b.len() implies a[k] == decimal(#[trigger] b[k] as nat) by {
            assert(b[k] == ns[k]);
        }
        lemma_numbers_read(a, b);
        let n = ns[ns.len() - 1];
        lemma_number_read(n);
        assert(words.last() == decimal(n as nat));
        assert(b.push(n) =~= ns);
    } else {
        assert(numbers(words) =~= ns);
    }
}

/// A sum grows by what is added to it, as long as it fits.
pub proof fn lemma_sum_read(ns: Seq<u64>, n: u64)
    requires
        sum(ns) + n <= u64::MAX,
    ensures
        sum(ns.push(n)) == sum(ns) + n,
        sum(Seq::<u64>::empty()) == 0,
{
    assert(ns.push(n).drop_last() =~= ns);
}

proof fn lemma_piece(a: Seq<char>, rest: Seq<char>, k: nat)
    requires
        lacks(a, ':'),
    ensures
        piece(a + ":"@ + rest, ':', k + 1) == piece(rest, ':', k),
        before(a + ":"@ + rest, ':') == a.len(),
{
    reveal_strlit(":");
    let s = a + ":"@ + rest;
    assert forall|i: int| 0 <= i < a.len() implies #[trigger] s[i] != ':' by {
        assert(s[i] == a[i]);
    }
    lemma_before_at(s, ':', a.len() as int);
    assert(s.skip((a.len() + 1) as int) =~= rest);
}

/// A line of `/etc/passwd` gives its first piece as the name of the user whose
/// number its third piece is; of several lines with one number the last counts.
pub proof fn lemma_user_read(
    ls: Seq<Seq<char>>,
    i: int,
    name: Seq<char>,
    password: Seq<char>,
    uid: u32,
    rest: Seq<char>,
)
    requires
        0 <= i < ls.len(),
        lacks(name, ':'),
        lacks(password, ':'),
        ls[i] == name + ":"@ + (password + ":"@ + (decimal(uid as nat) + ":"@ + rest)),
        forall|j: int|
            i < j < ls.len() ==> match piece(#[trigger] ls[j], ':', 2) {
                Some(word) => parsed(word, u32::MAX as nat) != Some(uid as nat),
                None => true,
            },
    ensures
        users(ls).contains_key(uid),
        users(ls)[uid] == name,
    decreases ls.len(),
{
    reveal_strlit(":");
    let last = ls.len() - 1;
    if i == last {
        let digits = decimal(uid as nat);
        let third = digits + ":"@ + rest;
        let second = password + ":"@ + third;
        lemma_value_decimal(uid as nat);
        lemma_read_back(uid as nat, u32::MAX as nat);
        assert forall|x: int| 0 <= x < digits.len() implies #[trigger] digits[x] != ':' by {
            assert(is_digit(digits[x]));
        }
        lemma_piece(name, second, 1);
        lemma_piece(password, third, 0);
        lemma_piece(digits, rest, 0);
        assert(third.take(digits.len() as int) =~= digits);
        assert(piece(third, ':', 0) == Some(digits));
        assert(piece(ls[i], ':', 2) == Some(digits));
        assert(ls[i].take(name.len() as int) =~= name);
        assert(user_entry(ls.last()) == Some((uid, name)));
    } else {
        let r = ls.drop_last();
        assert forall|j: int| i < j < r.len() implies match piece(#[trigger] r[j], ':', 2) {
            Some(word) => parsed(word, u32::MAX as nat) != Some(uid as nat),
            None => true,
        } by {
            assert(r[j] == ls[j]);
        }
        lemma_user_read(r, i, name, password, uid, rest);
        assert(ls[last] == ls.last());
    }
}

/// A `stat` file without a closing bracket, or with fewer than thirteen words
/// behind the last one, says nothing.
pub proof fn lemma_stat_short(head: Seq<char>, words: Seq<Seq<char>>)
    requires
        words.len() < 13,
        forall|i: int|
            0 <= i < words.len() ==> one_word(#[trigger] words[i]) && lacks(words[i], ')'),
    ensures
        stat_fields(head + ")"@ + spelled(words)) is None,
        lacks(head, ')') ==> stat_fields(head) is None,
{
    reveal_strlit(")");
    let s = head + ")"@ + spelled(words);
    let t = spelled(words);
    let r = head.len() as int;
    lemma_words_read(words);
    lemma_spelled_lacks(words, ')');
    assert forall|i: int| r < i < s.len() implies #[trigger] s[i] != ')' by {
        assert(s[i] == t[i - r - 1]);
    }
    lemma_last_of(s, ')', r);
    if words.len() > 0 {
        let u = words[0] + spelled(words.skip(1));
        assert(s.skip(r + 2) =~= u);
        assert(t =~= seq![' '] + u);
        lemma_space_skipped(' ', u);
    }
    if lacks(head, ')') {
        lemma_last_of_none(head, ')');
    }
}

proof fn lemma_last_of_none(s: Seq<char>, c: char)
    requires
        lacks(s, c),
    ensures
        last_of(s, c) is None,
    decreases s.len(),
{
    if s.len() > 0 {
        let t = s.drop_last();
        assert(s[s.len() - 1] != c);
        assert forall|i: int| 0 <= i < t.len() implies #[trigger] t[i] != c by {
            assert(s[i] != c);
        }
        lemma_last_of_none(t, c);
    }
}

/// What fits into a number of bytes is the longest start of a text that does.
pub proof fn lemma_start_fits(s: Seq<char>, n: nat)
    ensures
        within_bytes(s, n).len() <= s.len(),
        within_bytes(s, n) == s.take(within_bytes(s, n).len() as int),
        encode_utf8(within_bytes(s, n)).len() <= n,
        forall|k: int|
            within_bytes(s, n).len() < k <= s.len() ==> encode_utf8(#[trigger] s.take(k)).len() > n,
    decreases s.len(),
{
    if s.len() == 0 || encode_utf8(s).len() <= n {
        assert(s.take(s.len() as int) =~= s);
    } else {
        let t = s.drop_last();
        lemma_start_fits(t, n);
        let m = within_bytes(t, n).len() as int;
        assert(t.take(m) =~= s.take(m));
        assert forall|k: int| m < k <= s.len() implies encode_utf8(#[trigger] s.take(k)).len()
            > n by {
            if k < s.len() {
                assert(t.take(k) =~= s.take(k));
            } else {
                assert(s.take(k) =~= s);
            }
        }
    }
}

} // verus!
