//! The names of process files, written into byte buffers.

use crate::text::{decimal, decimal_chars};
use vstd::prelude::*;
use vstd::utf8::{encode_utf8, is_ascii_chars, is_ascii_chars_encode_utf8};

verus! {

/// The name of a file of a process.
pub open spec fn proc_path(pid: i32, suffix: Seq<char>) -> Seq<char> {
    "/proc/"@ + decimal(pid as nat) + suffix
}

/// The name of a file of a thread.
pub open spec fn task_path(pid: i32, tid: i32, suffix: Seq<char>) -> Seq<char> {
    "/proc/"@ + decimal(pid as nat) + "/task/"@ + decimal(tid as nat) + "/"@ + suffix
}

/// A buffer after `bytes` were written to its start.
pub open spec fn overwritten(buf: Seq<u8>, bytes: Seq<u8>) -> Seq<u8> {
    bytes + buf.skip(bytes.len() as int)
}

/// A number of 31 bits has at most ten digits.
pub proof fn lemma_decimal_len(n: nat)
    requires
        n <= 0x7fff_ffff,
    ensures
        1 <= decimal(n).len() <= 10,
{
    reveal_with_fuel(decimal, 11);
}

/// The digits of a number are ASCII characters.
pub proof fn lemma_decimal_ascii(n: nat)
    ensures
        is_ascii_chars(decimal(n)),
    decreases n,
{
    if n >= 10 {
        lemma_decimal_ascii(n / 10);
    }
}

/// The encoding of a text is the encoding of its parts.
pub proof fn lemma_encode_concat(a: Seq<char>, b: Seq<char>)
    ensures
        encode_utf8(a + b) == encode_utf8(a) + encode_utf8(b),
    decreases a.len(),
{
    if a.len() == 0 {
        assert(a + b =~= b);
        assert(encode_utf8(a) + encode_utf8(b) =~= encode_utf8(b));
    } else {
        lemma_encode_concat(a.drop_first(), b);
        assert((a + b).drop_first() =~= a.drop_first() + b);
        assert((a + b)[0] == a[0]);
        assert(encode_utf8(a + b) =~= encode_utf8(a) + encode_utf8(b));
    }
}

/// The names of the files of a process and of its threads fit into a buffer of
/// 128 bytes, with the zero byte behind them.
pub proof fn lemma_paths_fit(pid: i32, tid: i32, suffix: Seq<char>)
    requires
        pid >= 0,
        tid >= 0,
        is_ascii_chars(suffix),
        suffix.len() <= 90,
    ensures
        encode_utf8(proc_path(pid, suffix)).len() < 128,
        encode_utf8(task_path(pid, tid, suffix)).len() < 128,
{
    let p = decimal(pid as nat);
    let t = decimal(tid as nat);
    reveal_strlit("/proc/");
    reveal_strlit("/task/");
    reveal_strlit("/");
    lemma_decimal_len(pid as nat);
    lemma_decimal_len(tid as nat);
    lemma_decimal_ascii(pid as nat);
    lemma_decimal_ascii(tid as nat);
    is_ascii_chars_encode_utf8(p);
    is_ascii_chars_encode_utf8(t);
    is_ascii_chars_encode_utf8(suffix);
    is_ascii_chars_encode_utf8("/proc/"@);
    is_ascii_chars_encode_utf8("/task/"@);
    is_ascii_chars_encode_utf8("/"@);
    lemma_encode_concat("/proc/"@, p);
    lemma_encode_concat("/proc/"@ + p, suffix);
    lemma_encode_concat("/proc/"@ + p, "/task/"@);
    lemma_encode_concat("/proc/"@ + p + "/task/"@, t);
    lemma_encode_concat("/proc/"@ + p + "/task/"@ + t, "/"@);
    lemma_encode_concat("/proc/"@ + p + "/task/"@ + t + "/"@, suffix);
}

/// Writes a number in decimal to the start of a buffer; returns how many bytes
/// that took.
pub fn write_i32(n: i32, buf: &mut [u8]) -> (len: usize)
    requires
        n >= 0,
        decimal(n as nat).len() <= old(buf)@.len(),
    ensures
        len == decimal(n as nat).len(),
        final(buf)@ == overwritten(old(buf)@, encode_utf8(decimal(n as nat))),
{
    let digits = decimal_chars(n as u64);
    let mut i: usize = 0;
    let ghost start = buf@;
    let ghost bytes = encode_utf8(digits@);
    proof {
        lemma_decimal_ascii(n as nat);
        is_ascii_chars_encode_utf8(digits@);
        assert(buf@ =~= bytes.take(0) + start.skip(0));
    }
    while i < digits.len()
        invariant
            i <= digits@.len(),
            bytes.len() == digits@.len(),
            bytes.len() <= start.len(),
            is_ascii_chars(digits@),
            forall|k: int| #![trigger bytes[k]] 0 <= k < digits@.len() ==> digits@[k] as u8 == bytes[k],
            buf@ == bytes.take(i as int) + start.skip(i as int),
        decreases digits.len() - i,
    {
        let c = digits[i];
        buf[i] = c as u8;
        proof {
            assert(bytes[i as int] == c as u8);
            assert(buf@ =~= bytes.take(i + 1) + start.skip(i + 1));
        }
        i = i + 1;
    }
    proof {
        assert(bytes.take(bytes.len() as int) =~= bytes);
    }
    i
}

/// Writes bytes behind those that a buffer `start` was overwritten with so far;
/// returns the position behind them.
fn put(buf: &mut [u8], bytes: &[u8], pos: usize, start: Ghost<Seq<u8>>, done: Ghost<Seq<u8>>) -> (end:
    usize)
    requires
        pos == done@.len(),
        pos + bytes@.len() <= start@.len(),
        old(buf)@ == overwritten(start@, done@),
    ensures
        end == pos + bytes@.len(),
        final(buf)@ == overwritten(start@, done@ + bytes@),
{
    let mut i: usize = 0;
    proof {
        assert(done@ + bytes@.take(0) =~= done@);
    }
    while i < bytes.len()
        invariant
            i <= bytes.len(),
            pos == done@.len(),
            pos + bytes@.len() <= start@.len(),
            start@.len() == buf.len(),
            buf@ == overwritten(start@, done@ + bytes@.take(i as int)),
        decreases bytes.len() - i,
    {
        buf[pos + i] = bytes[i];
        proof {
            assert(buf@ =~= overwritten(start@, done@ + bytes@.take(i + 1)));
        }
        i = i + 1;
    }
    proof {
        assert(bytes@.take(bytes@.len() as int) =~= bytes@);
    }
    pos + i
}

/// [`put`] for a number in decimal.
fn put_number(buf: &mut [u8], n: i32, pos: usize, start: Ghost<Seq<u8>>, done: Ghost<Seq<u8>>) -> (end:
    usize)
    requires
        n >= 0,
        pos == done@.len(),
        pos + encode_utf8(decimal(n as nat)).len() <= start@.len(),
        old(buf)@ == overwritten(start@, done@),
    ensures
        end == pos + encode_utf8(decimal(n as nat)).len(),
        final(buf)@ == overwritten(start@, done@ + encode_utf8(decimal(n as nat))),
{
    let ghost bytes = encode_utf8(decimal(n as nat));
    let ghost had = buf@;
    let ghost size = buf.len();
    proof {
        lemma_decimal_ascii(n as nat);
        is_ascii_chars_encode_utf8(decimal(n as nat));
        assert(pos + bytes.len() <= size);
    }
    let (head, tail) = buf.split_at_mut(pos);
    let len = write_i32(n, tail);
    proof {
        assert(had.subrange(0, pos as int) =~= done@);
        assert(had.subrange(pos as int, had.len() as int) =~= start@.skip(pos as int));
        assert(start@.skip(pos as int).skip(len as int) =~= start@.skip(pos + len));
        assert(buf@ =~= overwritten(start@, done@ + bytes));
    }
    pos + len
}

/// Writes the zero byte that ends a name.
fn put_end(buf: &mut [u8], pos: usize, start: Ghost<Seq<u8>>, done: Ghost<Seq<u8>>)
    requires
        pos == done@.len(),
        pos < start@.len(),
        old(buf)@ == overwritten(start@, done@),
    ensures
        final(buf)@ == overwritten(start@, done@.push(0)),
{
    buf[pos] = 0;
    proof {
        assert(buf@ =~= overwritten(start@, done@.push(0)));
    }
}

/// Writes the name of a file of a process, such as `/proc/12345/stat`, and a
/// zero byte behind it. Returns the length of the name.
pub fn build_proc_path(pid: i32, suffix: &str, buf: &mut [u8]) -> (len: usize)
    requires
        pid >= 0,
        encode_utf8(proc_path(pid, suffix@)).len() < old(buf)@.len(),
    ensures
        len == encode_utf8(proc_path(pid, suffix@)).len(),
        final(buf)@ == overwritten(old(buf)@, encode_utf8(proc_path(pid, suffix@)).push(0)),
{
    let ghost start = buf@;
    let ghost none = Seq::<u8>::empty();
    let ghost a = encode_utf8("/proc/"@);
    let ghost ab = encode_utf8("/proc/"@ + decimal(pid as nat));
    let ghost abc = encode_utf8(proc_path(pid, suffix@));
    proof {
        lemma_encode_concat("/proc/"@, decimal(pid as nat));
        lemma_encode_concat("/proc/"@ + decimal(pid as nat), suffix@);
        assert(overwritten(start, none) =~= start);
        assert(none + a =~= a);
    }
    let pos = put(buf, "/proc/".as_bytes(), 0, Ghost(start), Ghost(none));
    let pos = put_number(buf, pid, pos, Ghost(start), Ghost(a));
    let pos = put(buf, suffix.as_bytes(), pos, Ghost(start), Ghost(ab));
    put_end(buf, pos, Ghost(start), Ghost(abc));
    pos
}

/// Writes the name of a file of a thread, such as
/// `/proc/12345/task/12346/schedstat`, and a zero byte behind it. Returns the
/// length of the name.
pub fn build_task_path(pid: i32, tid: i32, suffix: &str, buf: &mut [u8]) -> (len: usize)
    requires
        pid >= 0,
        tid >= 0,
        encode_utf8(task_path(pid, tid, suffix@)).len() < old(buf)@.len(),
    ensures
        len == encode_utf8(task_path(pid, tid, suffix@)).len(),
        final(buf)@ == overwritten(old(buf)@, encode_utf8(task_path(pid, tid, suffix@)).push(0)),
{
    let ghost start = buf@;
    let ghost none = Seq::<u8>::empty();
    let ghost p = decimal(pid as nat);
    let ghost t = decimal(tid as nat);
    let ghost a = encode_utf8("/proc/"@);
    let ghost ab = encode_utf8("/proc/"@ + p);
    let ghost abc = encode_utf8("/proc/"@ + p + "/task/"@);
    let ghost abcd = encode_utf8("/proc/"@ + p + "/task/"@ + t);
    let ghost abcde = encode_utf8("/proc/"@ + p + "/task/"@ + t + "/"@);
    let ghost all = encode_utf8(task_path(pid, tid, suffix@));
    proof {
        lemma_encode_concat("/proc/"@, p);
        lemma_encode_concat("/proc/"@ + p, "/task/"@);
        lemma_encode_concat("/proc/"@ + p + "/task/"@, t);
        lemma_encode_concat("/proc/"@ + p + "/task/"@ + t, "/"@);
        lemma_encode_concat("/proc/"@ + p + "/task/"@ + t + "/"@, suffix@);
        assert(overwritten(start, none) =~= start);
        assert(none + a =~= a);
    }
    let pos = put(buf, "/proc/".as_bytes(), 0, Ghost(start), Ghost(none));
    let pos = put_number(buf, pid, pos, Ghost(start), Ghost(a));
    let pos = put(buf, "/task/".as_bytes(), pos, Ghost(start), Ghost(ab));
    let pos = put_number(buf, tid, pos, Ghost(start), Ghost(abc));
    let pos = put(buf, "/".as_bytes(), pos, Ghost(start), Ghost(abcd));
    let pos = put(buf, suffix.as_bytes(), pos, Ghost(start), Ghost(abcde));
    put_end(buf, pos, Ghost(start), Ghost(all));
    pos
}

} // verus!
