//! Text as sequences of characters: building it, cutting it up, reading
//! numbers from it.

use vstd::prelude::*;

verus! {

/// `String::push`: appends one character.
pub assume_specification[ String::push ](s: &mut String, c: char)
    ensures
        final(s)@ == old(s)@.push(c),
;

/// The lower-case equivalent of a text by the rules of Unicode.
pub uninterp spec fn lowercase(s: Seq<char>) -> Seq<char>;

/// `str::to_lowercase`: the lower-case equivalent of a text, which depends on
/// the text alone.
#[verifier::external_body]
pub(crate) fn to_lowercase(s: &str) -> (r: String)
    ensures
        r@ == lowercase(s@),
{
    s.to_lowercase()
}

/// The character of a digit below ten.
pub open spec fn digit(d: nat) -> char {
    (48 + d) as char
}

/// A natural number in decimal.
pub open spec fn decimal(n: nat) -> Seq<char>
    decreases n,
{
    if n < 10 {
        seq![digit(n)]
    } else {
        decimal(n / 10).push(digit(n % 10))
    }
}

/// An integer in decimal.
pub open spec fn signed_decimal(n: int) -> Seq<char> {
    if n < 0 {
        seq!['-'] + decimal((-n) as nat)
    } else {
        decimal(n as nat)
    }
}

/// `n` times the same character.
pub open spec fn repeated(c: char, n: nat) -> Seq<char> {
    Seq::new(n, |i: int| c)
}

/// `n` spaces.
pub open spec fn spaces(n: nat) -> Seq<char> {
    repeated(' ', n)
}

/// How many characters are missing to a width.
pub open spec fn missing(len: nat, width: nat) -> nat {
    if len < width {
        (width - len) as nat
    } else {
        0
    }
}

/// A text, filled up on the right to a width.
pub open spec fn left_aligned(s: Seq<char>, width: nat) -> Seq<char> {
    s + spaces(missing(s.len(), width))
}

/// A text, filled up on the left to a width.
pub open spec fn right_aligned(s: Seq<char>, width: nat) -> Seq<char> {
    spaces(missing(s.len(), width)) + s
}

/// The characters that Unicode calls white space.
pub open spec fn is_space(c: char) -> bool {
    ||| '\u{9}' <= c <= '\u{d}'
    ||| c == ' '
    ||| c == '\u{85}'
    ||| c == '\u{a0}'
    ||| c == '\u{1680}'
    ||| '\u{2000}' <= c <= '\u{200a}'
    ||| c == '\u{2028}'
    ||| c == '\u{2029}'
    ||| c == '\u{202f}'
    ||| c == '\u{205f}'
    ||| c == '\u{3000}'
}

/// How many characters stand before the first `c`.
pub open spec fn before(s: Seq<char>, c: char) -> nat
    decreases s.len(),
{
    if s.len() == 0 || s[0] == c {
        0
    } else {
        1 + before(s.skip(1), c)
    }
}

/// How many characters stand before the first white space.
pub open spec fn word_len(s: Seq<char>) -> nat
    decreases s.len(),
{
    if s.len() == 0 || is_space(s[0]) {
        0
    } else {
        1 + word_len(s.skip(1))
    }
}

/// A line without the carriage return at its end.
pub open spec fn without_return(s: Seq<char>) -> Seq<char> {
    if s.len() > 0 && s.last() == '\r' {
        s.drop_last()
    } else {
        s
    }
}

/// The lines of a text, without their terminators.
pub open spec fn lines(s: Seq<char>) -> Seq<Seq<char>>
    decreases s.len(),
{
    let k = before(s, '\n');
    if s.len() == 0 {
        seq![]
    } else if k >= s.len() {
        seq![s]
    } else {
        seq![without_return(s.take(k as int))] + lines(s.skip((k + 1) as int))
    }
}

/// The words between white space.
pub open spec fn fields(s: Seq<char>) -> Seq<Seq<char>>
    decreases s.len(),
{
    let k = word_len(s);
    if s.len() == 0 {
        seq![]
    } else if k == 0 {
        fields(s.skip(1))
    } else {
        proof {
            lemma_word_len(s);
        }
        seq![s.take(k as int)] + fields(s.skip(k as int))
    }
}

/// What stands before a character is no longer than the text.
pub proof fn lemma_before(s: Seq<char>, c: char)
    ensures
        before(s, c) <= s.len(),
    decreases s.len(),
{
    if s.len() > 0 && s[0] != c {
        lemma_before(s.skip(1), c);
    }
}

/// A word is no longer than the text.
pub proof fn lemma_word_len(s: Seq<char>)
    ensures
        word_len(s) <= s.len(),
    decreases s.len(),
{
    if s.len() > 0 && !is_space(s[0]) {
        lemma_word_len(s.skip(1));
    }
}

/// The `k`-th of the pieces that `c` separates.
pub open spec fn piece(s: Seq<char>, c: char, k: nat) -> Option<Seq<char>>
    decreases k,
{
    let n = before(s, c);
    if k == 0 {
        Some(s.take(n as int))
    } else if n >= s.len() {
        None
    } else {
        piece(s.skip((n + 1) as int), c, (k - 1) as nat)
    }
}

/// A text without the white space at its start.
pub open spec fn trimmed_start(s: Seq<char>) -> Seq<char>
    decreases s.len(),
{
    if s.len() > 0 && is_space(s[0]) {
        trimmed_start(s.skip(1))
    } else {
        s
    }
}

/// A text without the white space at its end.
pub open spec fn trimmed_end(s: Seq<char>) -> Seq<char>
    decreases s.len(),
{
    if s.len() > 0 && is_space(s.last()) {
        trimmed_end(s.drop_last())
    } else {
        s
    }
}

/// A text without the white space around it.
pub open spec fn trimmed(s: Seq<char>) -> Seq<char> {
    trimmed_end(trimmed_start(s))
}

pub open spec fn is_digit(c: char) -> bool {
    '0' <= c <= '9'
}

pub open spec fn all_digits(s: Seq<char>) -> bool {
    forall|i: int| 0 <= i < s.len() ==> is_digit(#[trigger] s[i])
}

/// The number that a row of digits stands for.
pub open spec fn value(s: Seq<char>) -> nat
    decreases s.len(),
{
    if s.len() == 0 {
        0
    } else {
        (10 * value(s.drop_last()) + (s.last() as int - 48)) as nat
    }
}

/// The number that a text of digits stands for, if it is at most `max`.
pub open spec fn parsed_digits(s: Seq<char>, max: nat) -> Option<nat> {
    if s.len() > 0 && all_digits(s) && value(s) <= max {
        Some(value(s))
    } else {
        None
    }
}

/// The number that a text stands for: digits, perhaps after a plus sign.
pub open spec fn parsed(s: Seq<char>, max: nat) -> Option<nat> {
    if s.len() > 0 && s[0] == '+' {
        parsed_digits(s.skip(1), max)
    } else {
        parsed_digits(s, max)
    }
}

/// The 32-bit integer that a text stands for: digits, perhaps after a sign.
pub open spec fn parsed_i32(s: Seq<char>) -> Option<int> {
    if s.len() > 0 && s[0] == '-' {
        match parsed_digits(s.skip(1), 0x8000_0000) {
            Some(n) => Some(-n),
            None => None,
        }
    } else {
        match parsed(s, 0x7fff_ffff) {
            Some(n) => Some(n as int),
            None => None,
        }
    }
}

/// Whether `needle` stands in `hay` at position `i`.
pub open spec fn occurs_at(hay: Seq<char>, needle: Seq<char>, i: int) -> bool {
    0 <= i && i + needle.len() <= hay.len() && hay.subrange(i, i + needle.len()) == needle
}

/// Whether `needle` stands somewhere in `hay`.
pub open spec fn occurs(hay: Seq<char>, needle: Seq<char>) -> bool {
    exists|i: int| #[trigger] occurs_at(hay, needle, i)
}

/// A character with the capitals of ASCII made small.
pub open spec fn small(c: char) -> char {
    if 'A' <= c <= 'Z' {
        ((c as int) + 32) as char
    } else {
        c
    }
}

/// Whether `a` stands before `b` in a dictionary that ignores the case of
/// ASCII letters.
pub open spec fn text_less(a: Seq<char>, b: Seq<char>) -> bool
    decreases a.len(),
{
    if b.len() == 0 {
        false
    } else if a.len() == 0 {
        true
    } else if small(a[0]) != small(b[0]) {
        small(a[0]) < small(b[0])
    } else {
        text_less(a.skip(1), b.skip(1))
    }
}

/// The contents of a list of texts.
pub open spec fn texts(v: Seq<Vec<char>>) -> Seq<Seq<char>> {
    v.map_values(|t: Vec<char>| t@)
}

/// The contents of a list of strings.
pub open spec fn strings(v: Seq<String>) -> Seq<Seq<char>> {
    v.map_values(|t: String| t@)
}

/// The characters of a text.
pub fn chars_of(s: &str) -> (r: Vec<char>)
    ensures
        r@ == s@,
{
    let mut r: Vec<char> = Vec::new();
    for c in it: s.chars()
        invariant
            r@ == it.seq().take(it.index() as int),
            it.seq() == s@,
    {
        r.push(c);
    }
    proof {
        assert(s@.take(s@.len() as int) == s@);
    }
    r
}

/// Appends characters.
pub fn push_all(out: &mut String, v: &Vec<char>)
    ensures
        final(out)@ == old(out)@ + v@,
{
    let ghost start = out@;
    let mut i: usize = 0;
    while i < v.len()
        invariant
            i <= v.len(),
            out@ == start + v@.take(i as int),
        decreases v.len() - i,
    {
        out.push(v[i]);
        i = i + 1;
        proof {
            assert(v@.take(i as int) == v@.take(i - 1).push(v@[i - 1]));
        }
    }
    proof {
        assert(v@.take(v@.len() as int) == v@);
    }
}

/// The text with these characters.
pub fn string_of(v: &Vec<char>) -> (r: String)
    ensures
        r@ == v@,
{
    let mut r = String::new();
    push_all(&mut r, v);
    proof {
        assert(r@ =~= v@);
    }
    r
}

fn digit_of(d: u8) -> (c: char)
    requires
        d < 10,
    ensures
        c == digit(d as nat),
{
    (48 + d) as char
}

/// A natural number in decimal.
pub fn decimal_chars(n: u64) -> (r: Vec<char>)
    ensures
        r@ == decimal(n as nat),
    decreases n,
{
    if n < 10 {
        let mut r: Vec<char> = Vec::new();
        r.push(digit_of(n as u8));
        proof {
            assert(r@ =~= seq![digit(n as nat)]);
        }
        r
    } else {
        let mut r = decimal_chars(n / 10);
        r.push(digit_of((n % 10) as u8));
        r
    }
}

/// Appends a natural number in decimal.
pub fn push_number(out: &mut String, n: u64)
    ensures
        final(out)@ == old(out)@ + decimal(n as nat),
{
    let v = decimal_chars(n);
    push_all(out, &v);
}

/// An integer in decimal.
pub fn signed_chars(n: i32) -> (r: Vec<char>)
    ensures
        r@ == signed_decimal(n as int),
{
    if n < 0 {
        let mut r: Vec<char> = Vec::new();
        r.push('-');
        let mut digits = decimal_chars((-(n as i64)) as u64);
        r.append(&mut digits);
        proof {
            assert(r@ =~= seq!['-'] + decimal((-n) as nat));
        }
        r
    } else {
        decimal_chars(n as u64)
    }
}

/// Appends the same character `n` times.
pub fn push_repeated(out: &mut String, c: char, n: usize)
    ensures
        final(out)@ == old(out)@ + repeated(c, n as nat),
{
    let ghost start = out@;
    let mut i: usize = 0;
    while i < n
        invariant
            i <= n,
            out@ == start + repeated(c, i as nat),
        decreases n - i,
    {
        out.push(c);
        i = i + 1;
        proof {
            assert(repeated(c, i as nat) =~= repeated(c, (i - 1) as nat).push(c));
        }
    }
}

/// Whether two texts are the same.
pub fn same(a: &Vec<char>, b: &Vec<char>) -> (r: bool)
    ensures
        r == (a@ == b@),
{
    if a.len() != b.len() {
        return false;
    }
    let mut i: usize = 0;
    while i < a.len()
        invariant
            i <= a.len(),
            a@.len() == b@.len(),
            forall|j: int| 0 <= j < i ==> a@[j] == b@[j],
        decreases a.len() - i,
    {
        if a[i] != b[i] {
            return false;
        }
        i = i + 1;
    }
    proof {
        assert(a@ =~= b@);
    }
    true
}

pub fn is_space_char(c: char) -> (r: bool)
    ensures
        r == is_space(c),
{
    ('\u{9}' <= c && c <= '\u{d}') || c == ' ' || c == '\u{85}' || c == '\u{a0}' || c == '\u{1680}'
        || ('\u{2000}' <= c && c <= '\u{200a}') || c == '\u{2028}' || c == '\u{2029}' || c
        == '\u{202f}' || c == '\u{205f}' || c == '\u{3000}'
}

/// The characters from `i` up to `j`.
pub fn part(s: &Vec<char>, i: usize, j: usize) -> (r: Vec<char>)
    requires
        i <= j <= s@.len(),
    ensures
        r@ == s@.subrange(i as int, j as int),
{
    let mut r: Vec<char> = Vec::new();
    let mut k: usize = i;
    while k < j
        invariant
            i <= k <= j <= s@.len(),
            r@ == s@.subrange(i as int, k as int),
        decreases j - k,
    {
        r.push(s[k]);
        k = k + 1;
        proof {
            assert(s@.subrange(i as int, k as int) =~= s@.subrange(i as int, k - 1).push(s@[k - 1]));
        }
    }
    r
}

/// The position of the first `c` at or after `i`, or the length.
fn find_from(s: &Vec<char>, c: char, i: usize) -> (r: usize)
    requires
        i <= s@.len(),
    ensures
        i <= r <= s@.len(),
        before(s@.skip(i as int), c) == r - i,
{
    let mut j: usize = i;
    proof {
        assert(s@.skip(i as int).skip(0) =~= s@.skip(i as int));
    }
    while j < s.len() && s[j] != c
        invariant
            i <= j <= s@.len(),
            before(s@.skip(i as int), c) == (j - i) + before(s@.skip(j as int), c),
        decreases s.len() - j,
    {
        proof {
            assert(s@.skip(j as int).skip(1) =~= s@.skip(j + 1));
        }
        j = j + 1;
    }
    j
}

/// The position of the first white space at or after `i`, or the length.
fn word_end(s: &Vec<char>, i: usize) -> (r: usize)
    requires
        i <= s@.len(),
    ensures
        i <= r <= s@.len(),
        word_len(s@.skip(i as int)) == r - i,
{
    let mut j: usize = i;
    while j < s.len() && !is_space_char(s[j])
        invariant
            i <= j <= s@.len(),
            word_len(s@.skip(i as int)) == (j - i) + word_len(s@.skip(j as int)),
        decreases s.len() - j,
    {
        proof {
            assert(s@.skip(j as int).skip(1) =~= s@.skip(j + 1));
        }
        j = j + 1;
    }
    j
}

/// The lines of a text.
pub fn lines_of(s: &Vec<char>) -> (r: Vec<Vec<char>>)
    ensures
        texts(r@) == lines(s@),
{
    let mut r: Vec<Vec<char>> = Vec::new();
    let mut i: usize = 0;
    proof {
        assert(s@.skip(0) =~= s@);
        assert(texts(r@) + lines(s@) =~= lines(s@));
    }
    while i < s.len()
        invariant
            i <= s@.len(),
            texts(r@) + lines(s@.skip(i as int)) == lines(s@),
        decreases s.len() - i,
    {
        let ghost rest = s@.skip(i as int);
        let ghost done = texts(r@);
        let j = find_from(s, '\n', i);
        if j == s.len() {
            let line = part(s, i, j);
            proof {
                assert(line@ =~= rest);
            }
            r.push(line);
            proof {
                assert(texts(r@) =~= done.push(line@));
                assert(lines(s@.skip(j as int)) =~= Seq::<Seq<char>>::empty());
                assert(texts(r@) + lines(s@.skip(j as int)) =~= done + lines(rest));
            }
            i = j;
        } else {
            let end: usize = if j > i && s[j - 1] == '\r' { j - 1 } else { j };
            let line = part(s, i, end);
            proof {
                let k = j - i;
                assert(rest.take(k) =~= s@.subrange(i as int, j as int));
                assert(line@ =~= without_return(rest.take(k)));
                assert(rest.skip(k + 1) =~= s@.skip(j + 1));
            }
            r.push(line);
            proof {
                assert(texts(r@) =~= done.push(line@));
                assert(texts(r@) + lines(s@.skip(j + 1)) =~= done + lines(rest));
            }
            i = j + 1;
        }
    }
    proof {
        assert(lines(s@.skip(i as int)) =~= Seq::<Seq<char>>::empty());
        assert(texts(r@) + lines(s@.skip(i as int)) =~= texts(r@));
    }
    r
}

/// The words of a text.
pub fn fields_of(s: &Vec<char>) -> (r: Vec<Vec<char>>)
    ensures
        texts(r@) == fields(s@),
{
    let mut r: Vec<Vec<char>> = Vec::new();
    let mut i: usize = 0;
    proof {
        assert(s@.skip(0) =~= s@);
        assert(texts(r@) + fields(s@) =~= fields(s@));
    }
    while i < s.len()
        invariant
            i <= s@.len(),
            texts(r@) + fields(s@.skip(i as int)) == fields(s@),
        decreases s.len() - i,
    {
        let ghost rest = s@.skip(i as int);
        let ghost done = texts(r@);
        let j = word_end(s, i);
        if j == i {
            proof {
                assert(rest.skip(1) =~= s@.skip(i + 1));
            }
            i = i + 1;
        } else {
            let word = part(s, i, j);
            proof {
                assert(word@ =~= rest.take(j - i));
                assert(rest.skip(j - i) =~= s@.skip(j as int));
            }
            r.push(word);
            proof {
                assert(texts(r@) =~= done.push(word@));
                assert(texts(r@) + fields(s@.skip(j as int)) =~= done + fields(rest));
            }
            i = j;
        }
    }
    proof {
        assert(fields(s@.skip(i as int)) =~= Seq::<Seq<char>>::empty());
        assert(texts(r@) + fields(s@.skip(i as int)) =~= texts(r@));
    }
    r
}

/// The `k`-th of the pieces that `c` separates.
pub fn piece_of(s: &Vec<char>, c: char, k: u8) -> (r: Option<Vec<char>>)
    ensures
        match r {
            Some(t) => piece(s@, c, k as nat) == Some(t@),
            None => piece(s@, c, k as nat) is None,
        },
{
    let mut i: usize = 0;
    let mut n: u8 = k;
    proof {
        assert(s@.skip(0) =~= s@);
    }
    loop
        invariant
            i <= s@.len(),
            piece(s@.skip(i as int), c, n as nat) == piece(s@, c, k as nat),
        decreases n,
    {
        let j = find_from(s, c, i);
        proof {
            assert(s@.skip(i as int).take(j - i) =~= s@.subrange(i as int, j as int));
            if j < s@.len() {
                assert(s@.skip(i as int).skip(j - i + 1) =~= s@.skip(j + 1));
            }
        }
        if n == 0 {
            return Some(part(s, i, j));
        }
        if j == s.len() {
            return None;
        }
        i = j + 1;
        n = n - 1;
    }
}

/// What follows the first `c`.
pub fn after_first(s: &Vec<char>, c: char) -> (r: Option<Vec<char>>)
    ensures
        match r {
            Some(t) => before(s@, c) < s@.len() && t@ == s@.skip((before(s@, c) + 1) as int),
            None => before(s@, c) >= s@.len(),
        },
{
    proof {
        assert(s@.skip(0) =~= s@);
    }
    let j = find_from(s, c, 0);
    if j == s.len() {
        None
    } else {
        let t = part(s, j + 1, s.len());
        proof {
            assert(t@ =~= s@.skip(j + 1));
        }
        Some(t)
    }
}

/// How many characters of white space stand at the start.
fn leading_space(s: &Vec<char>) -> (i: usize)
    ensures
        i <= s@.len(),
        trimmed_start(s@) == s@.skip(i as int),
{
    let mut i: usize = 0;
    proof {
        assert(s@.skip(0) =~= s@);
    }
    while i < s.len() && is_space_char(s[i])
        invariant
            i <= s@.len(),
            trimmed_start(s@.skip(i as int)) == trimmed_start(s@),
        decreases s.len() - i,
    {
        proof {
            assert(s@.skip(i as int).skip(1) =~= s@.skip(i + 1));
        }
        i = i + 1;
    }
    i
}

/// A text without the white space around it.
pub fn trim(s: &Vec<char>) -> (r: Vec<char>)
    ensures
        r@ == trimmed(s@),
{
    let i = leading_space(s);
    let mut j: usize = s.len();
    let ghost core = s@.skip(i as int);
    proof {
        assert(s@.subrange(i as int, j as int) =~= core);
    }
    while j > i && is_space_char(s[j - 1])
        invariant
            i <= j <= s@.len(),
            trimmed_end(s@.subrange(i as int, j as int)) == trimmed_end(core),
        decreases j,
    {
        proof {
            assert(s@.subrange(i as int, j as int).drop_last() =~= s@.subrange(i as int, j - 1));
        }
        j = j - 1;
    }
    part(s, i, j)
}

/// The number that the digits from `start` on stand for, if it is at most
/// `max`.
fn parse_digits(s: &Vec<char>, start: usize, max: u64) -> (r: Option<u64>)
    requires
        start <= s@.len(),
    ensures
        match r {
            Some(n) => parsed_digits(s@.skip(start as int), max as nat) == Some(n as nat),
            None => parsed_digits(s@.skip(start as int), max as nat) is None,
        },
{
    let ghost t = s@.skip(start as int);
    if start == s.len() {
        return None;
    }
    let mut i: usize = start;
    let mut n: u64 = 0;
    let mut over: bool = false;
    proof {
        assert(t.take(0) =~= Seq::<char>::empty());
    }
    while i < s.len()
        invariant
            start <= i <= s@.len(),
            start < s@.len(),
            t == s@.skip(start as int),
            all_digits(t.take(i - start)),
            over ==> value(t.take(i - start)) > max,
            !over ==> value(t.take(i - start)) == n && n <= max,
        decreases s.len() - i,
    {
        let c = s[i];
        proof {
            assert(t[i - start] == c);
        }
        if c < '0' || c > '9' {
            return None;
        }
        let d: u64 = (c as u32 - 48) as u64;
        let ghost p = t.take(i - start);
        proof {
            assert(t.take(i + 1 - start) =~= p.push(c));
            assert(p.push(c).drop_last() =~= p);
            assert forall|k: int| 0 <= k < p.push(c).len() implies is_digit(
                #[trigger] p.push(c)[k],
            ) by {
                if k < p.len() {
                    assert(is_digit(p[k]));
                }
            }
        }
        if !over {
            let wide: u128 = n as u128 * 10 + d as u128;
            if wide > max as u128 {
                over = true;
            } else {
                n = wide as u64;
            }
        }
        i = i + 1;
    }
    proof {
        assert(t.take(t.len() as int) =~= t);
    }
    if over {
        None
    } else {
        Some(n)
    }
}

/// The number that a text stands for, if it is at most `max`.
pub fn parse_number(s: &Vec<char>, max: u64) -> (r: Option<u64>)
    ensures
        match r {
            Some(n) => parsed(s@, max as nat) == Some(n as nat),
            None => parsed(s@, max as nat) is None,
        },
{
    proof {
        assert(s@.skip(0) =~= s@);
    }
    if s.len() > 0 && s[0] == '+' {
        parse_digits(s, 1, max)
    } else {
        parse_digits(s, 0, max)
    }
}

/// The 32-bit integer that a text stands for.
pub fn parse_i32(s: &Vec<char>) -> (r: Option<i32>)
    ensures
        match r {
            Some(n) => parsed_i32(s@) == Some(n as int),
            None => parsed_i32(s@) is None,
        },
{
    if s.len() > 0 && s[0] == '-' {
        match parse_digits(s, 1, 0x8000_0000) {
            Some(n) => Some((-(n as i64)) as i32),
            None => None,
        }
    } else {
        match parse_number(s, 0x7fff_ffff) {
            Some(n) => Some(n as i32),
            None => None,
        }
    }
}

/// Whether `needle` stands somewhere in `hay`.
pub fn contains(hay: &Vec<char>, needle: &Vec<char>) -> (r: bool)
    ensures
        r == occurs(hay@, needle@),
{
    if needle.len() > hay.len() {
        return false;
    }
    let last: usize = hay.len() - needle.len();
    let mut i: usize = 0;
    loop
        invariant
            i <= last,
            last + needle@.len() == hay.len(),
            forall|k: int| 0 <= k < i ==> !occurs_at(hay@, needle@, k),
        decreases last - i,
    {
        let mut j: usize = 0;
        while j < needle.len() && hay[i + j] == needle[j]
            invariant
                j <= needle@.len(),
                i <= last,
                last + needle@.len() == hay.len(),
                forall|k: int| 0 <= k < j ==> hay@[i + k] == needle@[k],
            decreases needle.len() - j,
        {
            j = j + 1;
        }
        if j == needle.len() {
            proof {
                assert(hay@.subrange(i as int, i + needle@.len()) =~= needle@);
                assert(occurs_at(hay@, needle@, i as int));
            }
            return true;
        }
        proof {
            if occurs_at(hay@, needle@, i as int) {
                assert(hay@.subrange(i as int, i + needle@.len())[j as int] == needle@[j as int]);
            }
        }
        if i == last {
            return false;
        }
        i = i + 1;
    }
}

/// Whether `s` starts with `prefix`.
pub fn starts_with(s: &Vec<char>, prefix: &Vec<char>) -> (r: bool)
    ensures
        r == occurs_at(s@, prefix@, 0),
{
    if prefix.len() > s.len() {
        return false;
    }
    let mut j: usize = 0;
    while j < prefix.len()
        invariant
            j <= prefix@.len() <= s@.len(),
            forall|k: int| 0 <= k < j ==> s@[k] == prefix@[k],
        decreases prefix.len() - j,
    {
        if s[j] != prefix[j] {
            proof {
                if occurs_at(s@, prefix@, 0) {
                    assert(s@.subrange(0, prefix@.len() as int)[j as int] == prefix@[j as int]);
                }
            }
            return false;
        }
        j = j + 1;
    }
    proof {
        assert(s@.subrange(0, prefix@.len() as int) =~= prefix@);
    }
    true
}

fn small_of(c: char) -> (r: char)
    ensures
        r == small(c),
{
    if 'A' <= c && c <= 'Z' {
        (c as u8 + 32) as char
    } else {
        c
    }
}

/// Whether `a` stands before `b` in a dictionary that ignores the case of
/// ASCII letters.
pub fn precedes(a: &Vec<char>, b: &Vec<char>) -> (r: bool)
    ensures
        r == text_less(a@, b@),
{
    let mut i: usize = 0;
    proof {
        assert(a@.skip(0) =~= a@);
        assert(b@.skip(0) =~= b@);
    }
    while i < a.len() && i < b.len()
        invariant
            i <= a@.len(),
            i <= b@.len(),
            text_less(a@, b@) == text_less(a@.skip(i as int), b@.skip(i as int)),
        decreases a.len() - i,
    {
        let x = small_of(a[i]);
        let y = small_of(b[i]);
        if x != y {
            return x < y;
        }
        proof {
            assert(a@.skip(i as int).skip(1) =~= a@.skip(i + 1));
            assert(b@.skip(i as int).skip(1) =~= b@.skip(i + 1));
        }
        i = i + 1;
    }
    i < b.len()
}

pub(crate) proof fn lemma_regroup(a: Seq<char>, b: Seq<char>, c: Seq<char>, d: Seq<char>)
    ensures
        a + b + c + d == a + (b + c + d),
{
    assert(a + b + c + d =~= a + (b + c + d));
}

/// A number that was written in decimal is read back.
pub proof fn lemma_read_back(n: nat, max: nat)
    requires
        n <= max,
    ensures
        parsed(decimal(n), max) == Some(n),
{
    lemma_value_decimal(n);
    assert(is_digit(decimal(n)[0]));
}

/// A number in decimal consists of digits, and of at least one.
pub(crate) proof fn lemma_value_decimal(n: nat)
    ensures
        value(decimal(n)) == n,
        all_digits(decimal(n)),
        decimal(n).len() > 0,
    decreases n,
{
    let s = decimal(n);
    if n < 10 {
        assert(s.drop_last() =~= Seq::<char>::empty());
        assert(value(s.drop_last()) == 0);
    } else {
        lemma_value_decimal(n / 10);
        let t = decimal(n / 10);
        assert(s.drop_last() =~= t);
        assert forall|i: int| 0 <= i < s.len() implies is_digit(#[trigger] s[i]) by {
            if i < t.len() {
                assert(s[i] == t[i]);
                assert(is_digit(t[i]));
            }
        }
    }
}

/// An integer that was written in decimal is read back.
pub proof fn lemma_read_back_i32(n: i32)
    ensures
        parsed_i32(signed_decimal(n as int)) == Some(n as int),
{
    let s = signed_decimal(n as int);
    if n < 0 {
        let d = decimal((-n) as nat);
        lemma_value_decimal((-n) as nat);
        assert(s.skip(1) =~= d);
    } else {
        lemma_read_back(n as nat, 0x7fff_ffff);
        lemma_value_decimal(n as nat);
        assert(is_digit(s[0]));
    }
}

/// A text stands before another in the dictionary where they differ first, the
/// case of ASCII letters aside, or where it ends first.
pub proof fn lemma_dictionary(a: Seq<char>, b: Seq<char>, k: int)
    requires
        0 <= k <= a.len(),
        k <= b.len(),
        forall|i: int|
            0 <= i < k ==> (#[trigger] a[i] == b[i] || ('A' <= a[i] <= 'Z' && b[i] as int == a[i]
                as int + 32) || ('A' <= b[i] <= 'Z' && a[i] as int == b[i] as int + 32)),
    ensures
        k == a.len() ==> text_less(a, b) == (k < b.len()),
        k == b.len() ==> !text_less(a, b),
        k < a.len() && k < b.len() && small(a[k]) != small(b[k]) ==> text_less(a, b) == (small(a[k])
            < small(b[k])),
        forall|c: char| 'A' <= c <= 'Z' ==> (#[trigger] small(c)) as int == c as int + 32,
        forall|c: char| !('A' <= c <= 'Z') ==> #[trigger] small(c) == c,
    decreases k,
{
    if k > 0 {
        let x = a.skip(1);
        let y = b.skip(1);
        assert(a[0] == b[0] || ('A' <= a[0] <= 'Z' && b[0] as int == a[0] as int + 32) || ('A'
            <= b[0] <= 'Z' && a[0] as int == b[0] as int + 32));
        assert forall|i: int| 0 <= i < k - 1 implies (#[trigger] x[i] == y[i] || ('A' <= x[i] <= 'Z'
            && y[i] as int == x[i] as int + 32) || ('A' <= y[i] <= 'Z' && x[i] as int == y[i] as int
            + 32)) by {
            assert(a[i + 1] == x[i] && b[i + 1] == y[i]);
        }
        lemma_dictionary(x, y, k - 1);
        assert(small(a[0]) == small(b[0]));
    }
}

/// A text occurs in another if and only if that is something, then the text, then
/// something.
pub proof fn lemma_occurs(hay: Seq<char>, needle: Seq<char>)
    ensures
        occurs(hay, needle) <==> exists|a: Seq<char>, b: Seq<char>| hay == #[trigger] (a + needle
            + b),
{
    if occurs(hay, needle) {
        let i = choose|i: int| #[trigger] occurs_at(hay, needle, i);
        let a = hay.take(i);
        let b = hay.skip(i + needle.len());
        assert(hay =~= a + needle + b);
    }
    if exists|a: Seq<char>, b: Seq<char>| hay == #[trigger] (a + needle + b) {
        let (a, b) = choose|a: Seq<char>, b: Seq<char>| hay == #[trigger] (a + needle + b);
        let i = a.len() as int;
        assert(hay.subrange(i, i + needle.len()) =~= needle);
        assert(occurs_at(hay, needle, i));
    }
}

/// A text is read as a number only if it consists of digits, perhaps after a
/// sign, and the number is not too large.
pub proof fn lemma_no_number(s: Seq<char>, i: int, max: nat)
    requires
        s.len() == 0 || (0 < i < s.len() && !('0' <= s[i] <= '9')) || (i == 0 && !('0' <= s[0]
            <= '9' || s[0] == '+' || s[0] == '-')),
    ensures
        parsed(s, max) is None,
        parsed_i32(s) is None,
{
    if s.len() > 0 {
        let t = s.skip(1);
        if i > 0 {
            assert(t[i - 1] == s[i]);
            assert(!is_digit(t[i - 1]));
        }
        assert(!is_digit(s[i]));
    }
}

/// A number that is too large is not read.
pub proof fn lemma_too_large(n: nat, max: nat)
    requires
        n > max,
    ensures
        parsed(decimal(n), max) is None,
        n > 0x7fff_ffff ==> parsed_i32(decimal(n)) is None,
        parsed(seq!['+'] + decimal(max), max) == Some(max),
{
    lemma_value_decimal(n);
    lemma_value_decimal(max);
    let d = decimal(n);
    assert(is_digit(d[0]));
    let p = seq!['+'] + decimal(max);
    assert(p.skip(1) =~= decimal(max));
}

} // verus!
