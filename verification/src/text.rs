//! Character-sequence helpers shared by the notation modules: decimal
//! rendering and parsing of integers, conversions between `String` and
//! `Vec<char>`, and character-range substrings.
use vstd::prelude::*;
use substring::Substring;

verus! {

/// The character of the decimal digit `d` (for `d < 10`).
pub open spec fn digit_char(d: nat) -> char {
    (48 + d) as char
}

/// Is `c` one of `'0'..='9'`?
pub open spec fn is_digit(c: char) -> bool {
    '0' <= c && c <= '9'
}

/// The numeric value of the digit character `c`.
pub open spec fn digit_value(c: char) -> nat {
    (c as int - 48) as nat
}

/// Decimal rendering of a natural number, most significant digit first,
/// without leading zeros.
pub open spec fn decimal(n: nat) -> Seq<char>
    decreases n,
{
    if n < 10 {
        seq![digit_char(n)]
    } else {
        decimal(n / 10).push(digit_char(n % 10))
    }
}

/// Decimal rendering of an integer: a `-` in front of negative values.
pub open spec fn decimal_int(n: int) -> Seq<char> {
    if n < 0 {
        seq!['-'] + decimal((-n) as nat)
    } else {
        decimal(n as nat)
    }
}

/// Value of a sequence of digit characters read in base ten.
pub open spec fn digits_value(s: Seq<char>) -> nat
    decreases s.len(),
{
    if s.len() == 0 {
        0
    } else {
        digits_value(s.drop_last()) * 10 + digit_value(s.last())
    }
}

/// Are all characters of `s` decimal digits?
pub open spec fn all_digits(s: Seq<char>) -> bool {
    forall|i: int| 0 <= i < s.len() ==> is_digit(#[trigger] s[i])
}

/// The part of `s` after an optional leading `+`.
pub open spec fn unsigned_body(s: Seq<char>) -> Seq<char> {
    if s.len() > 0 && s[0] == '+' {
        s.drop_first()
    } else {
        s
    }
}

/// The value that `usize::from_str` gives `s`: an optional `+` followed by
/// at least one digit, with no other character, and a value that fits.
pub open spec fn parsed_usize(s: Seq<char>) -> Option<nat> {
    let b = unsigned_body(s);
    if b.len() > 0 && all_digits(b) && digits_value(b) <= usize::MAX {
        Some(digits_value(b))
    } else {
        None
    }
}

/// Characters `start..end` of `s`, clamped to the end of `s`; empty when
/// `end <= start`.
pub open spec fn char_range(s: Seq<char>, start: nat, end: nat) -> Seq<char> {
    if end <= start {
        Seq::empty()
    } else {
        let a = if start < s.len() { start } else { s.len() };
        let b = if end < s.len() { end } else { s.len() };
        s.subrange(a as int, b as int)
    }
}

/// `Substring::substring` of the `substring` crate: the characters whose
/// character index lies in `start_index..end_index`, where an index past
/// the end of `s` stands for the end of `s`, and the empty string when
/// `end_index <= start_index`.
#[verifier::external_body]
pub(crate) fn substring(s: &str, start_index: usize, end_index: usize) -> (r: &str)
    ensures
        r@ == char_range(s@, start_index as nat, end_index as nat),
{
    s.substring(start_index, end_index)
}

/// `String::push` of std: appends the character `c` to `s`.
#[verifier::external_body]
pub(crate) fn push_char(s: &mut String, c: char)
    ensures
        final(s)@ == old(s)@.push(c),
{
    s.push(c)
}

/// The character of the digit `d`.
pub fn digit_of(d: u64) -> (c: char)
    requires
        d < 10,
    ensures
        c == digit_char(d as nat),
        is_digit(c),
{
    let b: u8 = d as u8 + 48u8;
    b as char
}

/// The decimal digits of `n`.
pub fn decimal_chars(n: u64) -> (v: Vec<char>)
    ensures
        v@ == decimal(n as nat),
    decreases n,
{
    if n < 10 {
        let mut v: Vec<char> = Vec::new();
        v.push(digit_of(n));
        v
    } else {
        let mut v = decimal_chars(n / 10);
        v.push(digit_of(n % 10));
        v
    }
}

/// A `String` holding the characters of `v`.
pub fn chars_to_string(v: &Vec<char>) -> (s: String)
    ensures
        s@ == v@,
{
    let mut s = String::new();
    let n = v.len();
    for i in 0..n
        invariant
            n == v.len(),
            s@ == v@.take(i as int),
    {
        push_char(&mut s, v[i]);
        assert(v@.take(i + 1) == v@.take(i as int).push(v@[i as int]));
    }
    assert(v@.take(n as int) == v@);
    s
}

/// The characters of `s`.
pub fn string_to_chars(s: &str) -> (v: Vec<char>)
    ensures
        v@ == s@,
{
    let n = s.unicode_len();
    let mut v: Vec<char> = Vec::new();
    for i in 0..n
        invariant
            n == s@.len(),
            v@ == s@.take(i as int),
    {
        v.push(s.get_char(i));
        assert(s@.take(i + 1) == s@.take(i as int).push(s@[i as int]));
    }
    assert(s@.take(n as int) == s@);
    v
}

/// Decimal rendering of `n`, as `usize::to_string` gives it.
pub fn usize_to_string(n: usize) -> (s: String)
    ensures
        s@ == decimal(n as nat),
{
    let v = decimal_chars(n as u64);
    chars_to_string(&v)
}

/// Decimal rendering of `n`, as `i32::to_string` gives it.
pub fn i32_to_string(n: i32) -> (s: String)
    ensures
        s@ == decimal_int(n as int),
{
    if n < 0 {
        let m: i64 = -(n as i64);
        let digits = decimal_chars(m as u64);
        let mut v: Vec<char> = Vec::new();
        v.push('-');
        let mut k: usize = 0;
        while k < digits.len()
            invariant
                k <= digits.len(),
                v@ == seq!['-'] + digits@.take(k as int),
            decreases digits.len() - k,
        {
            v.push(digits[k]);
            assert(digits@.take(k + 1) == digits@.take(k as int).push(digits@[k as int]));
            k += 1;
        }
        assert(digits@.take(k as int) == digits@);
        chars_to_string(&v)
    } else {
        let v = decimal_chars(n as u64);
        chars_to_string(&v)
    }
}

proof fn lemma_digits_value_prefix(s: Seq<char>, i: int)
    requires
        0 <= i <= s.len(),
    ensures
        digits_value(s.take(i)) <= digits_value(s),
    decreases s.len(),
{
    if i < s.len() {
        assert(s.drop_last().take(i) == s.take(i));
        lemma_digits_value_prefix(s.drop_last(), i);
    } else {
        assert(s.take(i) == s);
    }
}

/// Parses `s` as `usize::from_str` does: an optional `+` and then decimal
/// digits only; `None` where that fails or the value does not fit.
pub fn parse_usize(s: &str) -> (r: Option<usize>)
    ensures
        match parsed_usize(s@) {
            Some(n) => r == Some(n as usize),
            None => r is None,
        },
{
    let chars = string_to_chars(s);
    let start: usize = if chars.len() > 0 && chars[0] == '+' { 1 } else { 0 };
    let ghost b = unsigned_body(s@);
    assert(b == chars@.subrange(start as int, chars@.len() as int));
    if start >= chars.len() {
        return None;
    }
    let mut value: usize = 0;
    let mut i: usize = start;
    while i < chars.len()
        invariant
            start <= i <= chars.len(),
            b == unsigned_body(s@),
            b.len() > 0,
            b == chars@.subrange(start as int, chars@.len() as int),
            all_digits(b.take(i - start)),
            value == digits_value(b.take(i - start)),
        decreases chars.len() - i,
    {
        let c = chars[i];
        assert(b[i - start] == c);
        if !('0' <= c && c <= '9') {
            assert(!all_digits(b));
            assert(parsed_usize(s@) is None);
            return None;
        }
        let d: usize = (c as u32 - 48) as usize;
        assert(b.take(i + 1 - start).drop_last() == b.take(i - start));
        let next = match value.checked_mul(10) {
            Some(m) => m.checked_add(d),
            None => None,
        };
        match next {
            Some(nv) => {
                value = nv;
            },
            None => {
                proof {
                    if all_digits(b) {
                        lemma_digits_value_prefix(b, i + 1 - start);
                    }
                    assert(parsed_usize(s@) is None);
                }
                return None;
            },
        }
        i += 1;
    }
    assert(b.take(i - start) == b);
    Some(value)
}

/// Do `a` and `b` hold the same characters?
pub fn str_equal(a: &str, b: &str) -> (r: bool)
    ensures
        r == (a@ == b@),
{
    let n = a.unicode_len();
    if n != b.unicode_len() {
        return false;
    }
    for i in 0..n
        invariant
            n == a@.len(),
            n == b@.len(),
            forall|j: int| 0 <= j < i ==> a@[j] == b@[j],
    {
        if a.get_char(i) != b.get_char(i) {
            return false;
        }
    }
    assert(a@ =~= b@);
    true
}

/// Is `s` exactly the one character `c`?
pub fn is_single_char(s: &str, c: char) -> (r: bool)
    ensures
        r == (s@ == seq![c]),
{
    let n = s.unicode_len();
    if n != 1 {
        assert(s@.len() != seq![c].len());
        return false;
    }
    let r = s.get_char(0) == c;
    assert(r ==> s@ =~= seq![c]);
    r
}

/// The views of the strings in `v`.
pub open spec fn views(v: Seq<String>) -> Seq<Seq<char>> {
    v.map_values(|s: String| s@)
}

/// The sequences of `v` joined by the character `sep`.
pub open spec fn join_seqs(v: Seq<Seq<char>>, sep: char) -> Seq<char>
    decreases v.len(),
{
    if v.len() == 0 {
        Seq::empty()
    } else if v.len() == 1 {
        v[0]
    } else {
        join_seqs(v.drop_last(), sep) + seq![sep] + v.last()
    }
}

/// The strings of `v` joined by `sep`.
pub fn join_with(v: &Vec<String>, sep: char) -> (s: String)
    ensures
        s@ == join_seqs(views(v@), sep),
{
    let mut s = String::new();
    let n = v.len();
    for i in 0..n
        invariant
            n == v.len(),
            s@ == join_seqs(views(v@.take(i as int)), sep),
    {
        let ghost t = views(v@.take(i + 1));
        assert(t.drop_last() =~= views(v@.take(i as int)));
        if i > 0 {
            push_char(&mut s, sep);
        }
        s.append(v[i].as_str());
        assert(s@ == join_seqs(t, sep));
    }
    assert(v@.take(n as int) == v@);
    s
}

} // verus!
