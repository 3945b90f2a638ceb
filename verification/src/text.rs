//! Building text one character at a time.

use vstd::prelude::*;
use vstd::string::StrSliceExecFns;

verus! {

/// `String::push` of the standard library: the character is appended to the
/// text, and nothing else changes.
#[verifier::external_body]
pub(crate) fn push_char(s: &mut String, c: char)
    ensures
        final(s)@ == old(s)@.push(c),
{
    s.push(c);
}

/// The character that writes the digit `d`.
pub open spec fn digit_char(d: nat) -> char {
    if d == 0 {
        '0'
    } else if d == 1 {
        '1'
    } else if d == 2 {
        '2'
    } else if d == 3 {
        '3'
    } else if d == 4 {
        '4'
    } else if d == 5 {
        '5'
    } else if d == 6 {
        '6'
    } else if d == 7 {
        '7'
    } else if d == 8 {
        '8'
    } else {
        '9'
    }
}

/// The decimal numeral of `n`, without leading zeros.
pub open spec fn decimal_text(n: nat) -> Seq<char>
    decreases n,
{
    if n < 10 {
        seq![digit_char(n)]
    } else {
        decimal_text(n / 10).push(digit_char(n % 10))
    }
}

/// The character that writes the digit `d`.
fn digit(d: usize) -> (c: char)
    requires
        d < 10,
    ensures
        c == digit_char(d as nat),
{
    if d == 0 {
        '0'
    } else if d == 1 {
        '1'
    } else if d == 2 {
        '2'
    } else if d == 3 {
        '3'
    } else if d == 4 {
        '4'
    } else if d == 5 {
        '5'
    } else if d == 6 {
        '6'
    } else if d == 7 {
        '7'
    } else if d == 8 {
        '8'
    } else {
        '9'
    }
}

/// Writes `n` in decimal.
pub fn decimal(n: usize) -> (out: String)
    ensures
        out@ == decimal_text(n as nat),
    decreases n,
{
    if n < 10 {
        let mut out = String::new();
        push_char(&mut out, digit(n));
        assert(out@ =~= seq![digit_char(n as nat)]);
        out
    } else {
        let mut out = decimal(n / 10);
        push_char(&mut out, digit(n % 10));
        out
    }
}

/// Whether a character is white space: what `char::is_whitespace` of the
/// standard library says of it.
pub uninterp spec fn white_space(c: char) -> bool;

/// `s` without the white space at its start.
pub open spec fn trim_start_text(s: Seq<char>) -> Seq<char>
    decreases s.len(),
{
    if s.len() > 0 && white_space(s[0]) {
        trim_start_text(s.skip(1))
    } else {
        s
    }
}

/// `s` without the white space at its end.
pub open spec fn trim_end_text(s: Seq<char>) -> Seq<char>
    decreases s.len(),
{
    if s.len() > 0 && white_space(s.last()) {
        trim_end_text(s.drop_last())
    } else {
        s
    }
}

/// `s` without the white space at its start and at its end.
pub open spec fn trim_text(s: Seq<char>) -> Seq<char> {
    trim_end_text(trim_start_text(s))
}

/// `char::is_whitespace` of the standard library: whether the character has
/// the Unicode property White_Space.
#[verifier::external_body]
pub(crate) fn is_white(c: char) -> (b: bool)
    ensures
        b == white_space(c),
{
    c.is_whitespace()
}

/// The characters of a text.
pub fn chars_of(s: &str) -> (out: Vec<char>)
    ensures
        out@ == s@,
{
    let mut out: Vec<char> = Vec::new();
    for c in it: s.chars()
        invariant
            it.seq() == s@,
            out@ == it.seq().take(it.index() as int),
    {
        out.push(c);
        assert(out@ =~= it.seq().take(it.index() + 1));
    }
    assert(out@ =~= s@);
    out
}

/// The text that holds the characters `cs[from..to]`.
pub fn text_of(cs: &Vec<char>, from: usize, to: usize) -> (out: String)
    requires
        from <= to <= cs@.len(),
    ensures
        out@ == cs@.subrange(from as int, to as int),
{
    let mut out = String::new();
    let mut i: usize = from;
    while i < to
        invariant
            from <= i <= to <= cs@.len(),
            out@ == cs@.subrange(from as int, i as int),
        decreases to - i,
    {
        push_char(&mut out, cs[i]);
        assert(out@ =~= cs@.subrange(from as int, i + 1));
        i += 1;
    }
    out
}

/// The text without the white space at its start and at its end.
pub fn trim(s: &str) -> (out: String)
    ensures
        out@ == trim_text(s@),
{
    let cs = chars_of(s);
    let mut start: usize = 0;
    assert(cs@.skip(0) =~= cs@);
    while start < cs.len() && is_white(cs[start])
        invariant
            start <= cs@.len(),
            trim_start_text(cs@) == trim_start_text(cs@.skip(start as int)),
        decreases cs@.len() - start,
    {
        assert(cs@.skip(start as int).skip(1) =~= cs@.skip(start + 1));
        start += 1;
    }
    let ghost rest = cs@.skip(start as int);
    assert(trim_start_text(cs@) == rest);
    let mut end: usize = cs.len();
    assert(cs@.subrange(start as int, end as int) =~= rest);
    while end > start && is_white(cs[end - 1])
        invariant
            start <= end <= cs@.len(),
            trim_end_text(rest) == trim_end_text(cs@.subrange(start as int, end as int)),
        decreases end,
    {
        assert(cs@.subrange(start as int, end as int).drop_last() =~= cs@.subrange(
            start as int,
            end - 1,
        ));
        end -= 1;
    }
    text_of(&cs, start, end)
}

/// Whether `s` is empty or begins with a character that is no white space.
pub open spec fn starts_clean(s: Seq<char>) -> bool {
    s.len() == 0 || !white_space(s[0])
}

/// What is trimmed at its start begins with no white space.
proof fn lemma_trim_start_clean(s: Seq<char>)
    ensures
        starts_clean(trim_start_text(s)),
    decreases s.len(),
{
    if s.len() > 0 && white_space(s[0]) {
        lemma_trim_start_clean(s.skip(1));
    }
}

/// Trimming the end brings no white space to the start.
proof fn lemma_trim_end_keeps_start(s: Seq<char>)
    requires
        starts_clean(s),
    ensures
        starts_clean(trim_end_text(s)),
    decreases s.len(),
{
    if s.len() > 0 && white_space(s.last()) {
        lemma_trim_end_keeps_start(s.drop_last());
    }
}

/// Trimming the end twice is trimming it once.
proof fn lemma_trim_end_twice(s: Seq<char>)
    ensures
        trim_end_text(trim_end_text(s)) == trim_end_text(s),
    decreases s.len(),
{
    if s.len() > 0 && white_space(s.last()) {
        lemma_trim_end_twice(s.drop_last());
    }
}

/// Trimming a trimmed text changes nothing.
pub proof fn lemma_trim_twice(s: Seq<char>)
    ensures
        trim_text(trim_text(s)) == trim_text(s),
{
    lemma_trim_start_clean(s);
    lemma_trim_end_keeps_start(trim_start_text(s));
    lemma_trim_end_twice(trim_start_text(s));
}

/// Whether `c` is one of the ten digits.
pub open spec fn is_digit(c: char) -> bool {
    '0' <= c <= '9'
}

/// Whether `s` is a decimal numeral: one digit or more, and nothing else.
pub open spec fn is_numeral(s: Seq<char>) -> bool {
    s.len() > 0 && forall|i: int| 0 <= i < s.len() ==> is_digit(#[trigger] s[i])
}

/// The number that a sequence of digits writes.
pub open spec fn decimal_value(s: Seq<char>) -> nat
    decreases s.len(),
{
    if s.len() == 0 {
        0
    } else {
        decimal_value(s.drop_last()) * 10 + (s.last() as u32 - '0' as u32) as nat
    }
}

/// A numeral is worth no less than any of its beginnings.
proof fn lemma_decimal_prefix(s: Seq<char>, k: int)
    requires
        0 <= k <= s.len(),
        forall|i: int| 0 <= i < s.len() ==> is_digit(#[trigger] s[i]),
    ensures
        decimal_value(s.take(k)) <= decimal_value(s),
    decreases s.len() - k,
{
    if k == s.len() {
        assert(s.take(k) =~= s);
    } else {
        lemma_decimal_prefix(s, k + 1);
        assert(s.take(k + 1).drop_last() =~= s.take(k));
        assert(is_digit(s[k]));
    }
}

/// Whether `word` is a decimal numeral.
pub fn is_number(word: &str) -> (b: bool)
    ensures
        b == is_numeral(word@),
{
    let n = word.unicode_len();
    if n == 0 {
        return false;
    }
    let mut i: usize = 0;
    while i < n
        invariant
            i <= n,
            n == word@.len(),
            forall|j: int| 0 <= j < i ==> is_digit(#[trigger] word@[j]),
        decreases n - i,
    {
        let c = word.get_char(i);
        if !('0' <= c && c <= '9') {
            return false;
        }
        i += 1;
    }
    true
}

/// The number that the numeral `word` writes, where the machine can hold it.
pub fn number_value(word: &str) -> (r: Option<usize>)
    requires
        is_numeral(word@),
    ensures
        match r {
            Some(v) => v == decimal_value(word@),
            None => decimal_value(word@) > usize::MAX,
        },
{
    let n = word.unicode_len();
    let mut value: usize = 0;
    let mut i: usize = 0;
    assert(word@.take(0) =~= Seq::<char>::empty());
    while i < n
        invariant
            i <= n,
            n == word@.len(),
            is_numeral(word@),
            value == decimal_value(word@.take(i as int)),
        decreases n - i,
    {
        let c = word.get_char(i);
        assert(is_digit(word@[i as int]));
        let d = (c as u32 - '0' as u32) as usize;
        proof {
            assert(word@.take(i + 1).drop_last() =~= word@.take(i as int));
            assert(word@.take(i + 1).last() == c);
            lemma_decimal_prefix(word@, i + 1);
        }
        if value > (usize::MAX - d) / 10 {
            assert(value * 10 + d > usize::MAX);
            return None;
        }
        value = value * 10 + d;
        i += 1;
    }
    assert(word@.take(n as int) =~= word@);
    Some(value)
}

} // verus!
