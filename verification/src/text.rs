//! Strings as sequences of characters: conversion, building, splitting on a
//! separator and reading decimal numbers.

use vstd::prelude::*;

verus! {

/// The views of a sequence of strings, element by element.
pub open spec fn views(strings: Seq<String>) -> Seq<Seq<char>> {
    strings.map_values(|s: String| s@)
}

/// The characters of a string, one element per Unicode scalar value.
pub fn chars_of(s: &str) -> (chars: Vec<char>)
    ensures
        chars@ == s@,
{
    let mut chars: Vec<char> = Vec::new();
    for c in it: s.chars()
        invariant
            it.seq() == s@,
            chars@ == it.seq().take(it.index()),
    {
        chars.push(c);
    }
    chars
}

/// Tells whether one of `list` equals `s`.
pub fn holds(list: &Vec<String>, s: &String) -> (held: bool)
    ensures
        held == views(list@).contains(s@),
{
    let mut i: usize = 0;
    while i < list.len()
        invariant
            i <= list.len(),
            forall|j: int| 0 <= j < i ==> views(list@)[j] != s@,
        decreases list.len() - i,
    {
        if list[i] == *s {
            assert(views(list@)[i as int] == s@);
            return true;
        }
        i += 1;
    }
    false
}

/// Appends one character to a string.
///
/// Trusted: the body is `String::push`, which std documents as appending the
/// given character to the end of the string.
#[verifier::external_body]
pub(crate) fn push_char(s: &mut String, c: char)
    ensures
        final(s)@ == old(s)@.push(c),
{
    s.push(c)
}

/// Appends `chars[from..to]` to a string.
pub fn append_between(s: &mut String, chars: &Vec<char>, from: usize, to: usize)
    requires
        from <= to <= chars.len(),
    ensures
        final(s)@ == old(s)@ + chars@.subrange(from as int, to as int),
{
    let mut i: usize = from;
    assert(s@ == old(s)@ + chars@.subrange(from as int, i as int));
    while i < to
        invariant
            from <= i <= to <= chars.len(),
            s@ == old(s)@ + chars@.subrange(from as int, i as int),
        decreases to - i,
    {
        push_char(s, chars[i]);
        assert(chars@.subrange(from as int, i + 1) == chars@.subrange(from as int, i as int).push(
            chars@[i as int],
        ));
        i += 1;
    }
}

/// The string made of `chars[from..to]`.
pub fn string_between(chars: &Vec<char>, from: usize, to: usize) -> (s: String)
    requires
        from <= to <= chars.len(),
    ensures
        s@ == chars@.subrange(from as int, to as int),
{
    let mut s = String::new();
    append_between(&mut s, chars, from, to);
    s
}

/// Index of the first `sep` in `s` at or after `from`; `s.len()` where there is none.
pub open spec fn first_sep(s: Seq<char>, sep: char, from: int) -> int
    decreases s.len() - from,
{
    if from < 0 || from >= s.len() {
        s.len() as int
    } else if s[from] == sep {
        from
    } else {
        first_sep(s, sep, from + 1)
    }
}

/// The fields of `s` between occurrences of `sep`, in order. A string without
/// `sep` is its own single field; `n` separators give `n + 1` fields, some of
/// which may be empty.
pub open spec fn split_spec(s: Seq<char>, sep: char) -> Seq<Seq<char>>
    decreases s.len(),
{
    let p = first_sep(s, sep, 0);
    if 0 <= p < s.len() {
        seq![s.take(p)] + split_spec(s.skip(p + 1), sep)
    } else {
        seq![s]
    }
}

/// `first_sep` stays within `from..=s.len()`, points at a separator unless it
/// is `s.len()`, and nothing before it is one.
pub proof fn lemma_first_sep(s: Seq<char>, sep: char, from: int)
    requires
        0 <= from <= s.len(),
    ensures
        from <= first_sep(s, sep, from) <= s.len(),
        first_sep(s, sep, from) < s.len() ==> s[first_sep(s, sep, from)] == sep,
        forall|j: int| from <= j < first_sep(s, sep, from) ==> s[j] != sep,
    decreases s.len() - from,
{
    if from < s.len() && s[from] != sep {
        lemma_first_sep(s, sep, from + 1);
    }
}

/// Searching a suffix finds the same separator as searching the whole from
/// the suffix's start.
pub proof fn lemma_first_sep_skip(s: Seq<char>, sep: char, start: int, from: int)
    requires
        0 <= start <= s.len(),
        0 <= from <= s.len() - start,
    ensures
        first_sep(s.skip(start), sep, from) + start == first_sep(s, sep, start + from),
    decreases s.len() - start - from,
{
    let t = s.skip(start);
    if from < t.len() && t[from] != sep {
        lemma_first_sep_skip(s, sep, start, from + 1);
    }
}

/// Finds the first `sep` in `chars` at or after `from`.
pub fn find_sep(chars: &Vec<char>, sep: char, from: usize) -> (at: usize)
    requires
        from <= chars.len(),
    ensures
        at == first_sep(chars@, sep, from as int),
        from <= at <= chars.len(),
        at < chars.len() ==> chars[at as int] == sep,
{
    let mut at: usize = from;
    while at < chars.len() && chars[at] != sep
        invariant
            from <= at <= chars.len(),
            first_sep(chars@, sep, from as int) == first_sep(chars@, sep, at as int),
        decreases chars.len() - at,
    {
        at += 1;
    }
    at
}

/// Splits `line` at every `sep`.
pub fn split(line: &str, sep: char) -> (fields: Vec<String>)
    ensures
        views(fields@) == split_spec(line@, sep),
{
    let chars = chars_of(line);
    let n = chars.len();
    let mut fields: Vec<String> = Vec::new();
    let mut start: usize = 0;
    let mut p: usize = 0;
    proof {
        assert(line@.skip(0) == line@);
        assert(views(fields@) + split_spec(line@, sep) == split_spec(line@, sep));
    }
    loop
        invariant_except_break
            n == chars.len(),
            chars@ == line@,
            start <= p <= n,
            forall|j: int| start <= j < p ==> chars@[j] != sep,
            split_spec(line@, sep) == views(fields@) + split_spec(line@.skip(start as int), sep),
        ensures
            views(fields@) == split_spec(line@, sep),
        decreases n - p,
    {
        let ghost rest = line@.skip(start as int);
        proof {
            lemma_first_sep(line@, sep, p as int);
            lemma_first_sep_skip(line@, sep, start as int, 0);
            lemma_first_sep_from(line@, sep, start as int, p as int);
        }
        if p == n {
            let last = string_between(&chars, start, n);
            assert(last@ == rest);
            let ghost before = fields@;
            fields.push(last);
            assert(views(fields@) == views(before) + seq![rest]);
            break;
        }
        if chars[p] == sep {
            let field = string_between(&chars, start, p);
            let ghost before = fields@;
            fields.push(field);
            proof {
                assert(first_sep(rest, sep, 0) == p - start);
                assert(rest.take(p - start) == chars@.subrange(start as int, p as int));
                assert(rest.skip(p - start + 1) == line@.skip(p + 1));
                assert(views(fields@) == views(before) + seq![rest.take(p - start)]);
            }
            start = p + 1;
        }
        p += 1;
    }
    fields
}

/// Where nothing in `start..p` is a separator, the search from `start`
/// continues from `p`.
pub proof fn lemma_first_sep_from(s: Seq<char>, sep: char, start: int, p: int)
    requires
        0 <= start <= p <= s.len(),
        forall|j: int| start <= j < p ==> s[j] != sep,
    ensures
        first_sep(s, sep, start) == first_sep(s, sep, p),
    decreases p - start,
{
    if start < p {
        lemma_first_sep_from(s, sep, start + 1, p);
    }
}

/// Whether `word` stands in `s` at position `at`.
pub open spec fn word_at(s: Seq<char>, word: Seq<char>, at: int) -> bool {
    0 <= at && at + word.len() <= s.len() && s.subrange(at, at + word.len()) == word
}

/// Index of the first place at or after `from` where `word` stands in `s`;
/// `s.len()` where there is none.
pub open spec fn first_word(s: Seq<char>, word: Seq<char>, from: int) -> int
    decreases s.len() - from,
{
    if from < 0 || from >= s.len() || from + word.len() > s.len() {
        s.len() as int
    } else if word_at(s, word, from) {
        from
    } else {
        first_word(s, word, from + 1)
    }
}

/// The fields of `s` between occurrences of the non-empty `word`, found from
/// left to right. With an empty `word`, `s` is its own single field.
pub open spec fn split_word_spec(s: Seq<char>, word: Seq<char>) -> Seq<Seq<char>>
    decreases s.len(),
{
    let p = first_word(s, word, 0);
    if word.len() > 0 && 0 <= p && p + word.len() <= s.len() {
        seq![s.take(p)] + split_word_spec(s.skip(p + word.len()), word)
    } else {
        seq![s]
    }
}

/// `first_word` stays within `from..=s.len()`, and `word` stands there unless
/// it is `s.len()`.
pub proof fn lemma_first_word(s: Seq<char>, word: Seq<char>, from: int)
    requires
        0 <= from <= s.len(),
        word.len() > 0,
    ensures
        from <= first_word(s, word, from) <= s.len(),
        first_word(s, word, from) < s.len() ==> word_at(s, word, first_word(s, word, from)),
    decreases s.len() - from,
{
    if !(from + word.len() > s.len()) && !word_at(s, word, from) {
        lemma_first_word(s, word, from + 1);
    }
}

/// Searching a suffix finds the same place as searching the whole from the
/// suffix's start.
pub proof fn lemma_first_word_skip(s: Seq<char>, word: Seq<char>, start: int, from: int)
    requires
        0 <= start <= s.len(),
        0 <= from <= s.len() - start,
        word.len() > 0,
    ensures
        first_word(s.skip(start), word, from) + start == first_word(s, word, start + from),
    decreases s.len() - start - from,
{
    let t = s.skip(start);
    if !(from + word.len() > t.len()) {
        assert(t.subrange(from, from + word.len()) == s.subrange(
            start + from,
            start + from + word.len(),
        ));
        if !word_at(t, word, from) {
            lemma_first_word_skip(s, word, start, from + 1);
        }
    }
}

/// Where `word` stands nowhere in `start..p`, the search from `start`
/// continues from `p`.
pub proof fn lemma_first_word_from(s: Seq<char>, word: Seq<char>, start: int, p: int)
    requires
        0 <= start <= p <= s.len(),
        word.len() > 0,
        forall|j: int| start <= j < p ==> !word_at(s, word, j),
    ensures
        first_word(s, word, start) == first_word(s, word, p),
    decreases p - start,
{
    if start < p {
        lemma_first_word_from(s, word, start + 1, p);
        if start + word.len() > s.len() {
            assert(p + word.len() > s.len());
        }
    }
}

/// Tells whether `word` stands in `chars` at `at`.
pub fn stands(chars: &Vec<char>, word: &Vec<char>, at: usize) -> (found: bool)
    requires
        at <= chars.len(),
    ensures
        found == word_at(chars@, word@, at as int),
{
    if chars.len() - at < word.len() {
        return false;
    }
    let mut k: usize = 0;
    while k < word.len()
        invariant
            k <= word.len(),
            at + word.len() <= chars.len(),
            forall|j: int| 0 <= j < k ==> chars@[at + j] == word@[j],
        decreases word.len() - k,
    {
        if chars[at + k] != word[k] {
            assert(chars@.subrange(at as int, at + word.len())[k as int] != word@[k as int]);
            return false;
        }
        k += 1;
    }
    assert(chars@.subrange(at as int, at + word.len()) == word@);
    true
}

/// Splits `line` at every place where `word` stands, found from left to right.
pub fn split_word(line: &str, word: &str) -> (fields: Vec<String>)
    ensures
        views(fields@) == split_word_spec(line@, word@),
{
    let chars = chars_of(line);
    let sep = chars_of(word);
    let n = chars.len();
    let w = sep.len();
    let mut fields: Vec<String> = Vec::new();
    proof {
        assert(line@.skip(0) == line@);
        assert(views(fields@) + split_word_spec(line@, word@) == split_word_spec(line@, word@));
    }
    if w == 0 {
        let whole = string_between(&chars, 0, n);
        assert(whole@ == line@);
        fields.push(whole);
        assert(views(fields@) == seq![line@]);
        return fields;
    }
    let mut start: usize = 0;
    let mut p: usize = 0;
    loop
        invariant_except_break
            n == chars.len(),
            w == sep.len(),
            w > 0,
            chars@ == line@,
            sep@ == word@,
            start <= p <= n,
            forall|j: int| start <= j < p ==> !word_at(chars@, sep@, j),
            split_word_spec(line@, word@) == views(fields@) + split_word_spec(
                line@.skip(start as int),
                word@,
            ),
        ensures
            views(fields@) == split_word_spec(line@, word@),
        decreases n - p,
    {
        let ghost rest = line@.skip(start as int);
        proof {
            lemma_first_word(line@, word@, p as int);
            lemma_first_word_skip(line@, word@, start as int, 0);
            lemma_first_word_from(line@, word@, start as int, p as int);
        }
        if n - p < w {
            let last = string_between(&chars, start, n);
            assert(last@ == rest);
            let ghost before = fields@;
            fields.push(last);
            proof {
                assert(first_word(line@, word@, p as int) == n);
                assert(first_word(rest, word@, 0) + w > rest.len());
                assert(views(fields@) == views(before) + seq![rest]);
            }
            break;
        }
        if stands(&chars, &sep, p) {
            let field = string_between(&chars, start, p);
            let ghost before = fields@;
            fields.push(field);
            proof {
                assert(first_word(rest, word@, 0) == p - start);
                assert(rest.take(p - start) == chars@.subrange(start as int, p as int));
                assert(rest.skip(p - start + w) == line@.skip(p + w));
                assert(views(fields@) == views(before) + seq![rest.take(p - start)]);
            }
            start = p + w;
            p = p + w;
        } else {
            p += 1;
        }
    }
    fields
}

/// Whether `c` is one of the ten ASCII decimal digits.
pub open spec fn is_digit(c: char) -> bool {
    '0' <= c && c <= '9'
}

/// The number a decimal digit stands for.
pub open spec fn digit_value(c: char) -> nat {
    if is_digit(c) {
        (c as int - '0' as int) as nat
    } else {
        0
    }
}

/// Whether `s` is one or more decimal digits and nothing else.
pub open spec fn all_digits(s: Seq<char>) -> bool {
    s.len() > 0 && forall|i: int| 0 <= i < s.len() ==> is_digit(#[trigger] s[i])
}

/// The number that a run of decimal digits writes, most significant digit first.
pub open spec fn decimal_value(digits: Seq<char>) -> nat
    decreases digits.len(),
{
    if digits.len() == 0 {
        0
    } else {
        decimal_value(digits.drop_last()) * 10 + digit_value(digits.last())
    }
}

/// What an unsigned decimal numeral denotes: an optional `+`, then one or
/// more digits. Anything else, the empty string and a lone sign included,
/// denotes nothing.
pub open spec fn unsigned_decimal(s: Seq<char>) -> Option<nat> {
    let digits = if s.len() > 0 && s[0] == '+' {
        s.skip(1)
    } else {
        s
    };
    if all_digits(digits) {
        Some(decimal_value(digits))
    } else {
        None
    }
}

/// What a signed decimal numeral denotes: an optional `+` or `-`, then one or
/// more digits.
pub open spec fn signed_decimal(s: Seq<char>) -> Option<int> {
    if s.len() > 0 && s[0] == '-' {
        if all_digits(s.skip(1)) {
            Some(-(decimal_value(s.skip(1)) as int))
        } else {
            None
        }
    } else {
        match unsigned_decimal(s) {
            Some(v) => Some(v as int),
            None => None,
        }
    }
}

/// The `u64` that `s` writes, where it is an unsigned decimal numeral whose
/// value fits.
pub open spec fn decimal_u64(s: Seq<char>) -> Option<u64> {
    match unsigned_decimal(s) {
        Some(v) => if v <= u64::MAX {
            Some(v as u64)
        } else {
            None
        },
        None => None,
    }
}

/// The `i16` that `s` writes, where it is a signed decimal numeral whose
/// value fits.
pub open spec fn decimal_i16(s: Seq<char>) -> Option<i16> {
    match signed_decimal(s) {
        Some(v) => if i16::MIN <= v <= i16::MAX {
            Some(v as i16)
        } else {
            None
        },
        None => None,
    }
}

/// A prefix of a run of digits writes a number no greater than the whole run.
pub proof fn lemma_decimal_value_prefix(digits: Seq<char>, k: int)
    requires
        0 <= k <= digits.len(),
    ensures
        decimal_value(digits.take(k)) <= decimal_value(digits),
    decreases digits.len() - k,
{
    if k < digits.len() {
        lemma_decimal_value_prefix(digits, k + 1);
        assert(digits.take(k + 1).drop_last() == digits.take(k));
    } else {
        assert(digits.take(k) == digits);
    }
}

/// The value of `chars[from..]` where that is one or more digits writing a
/// number of at most `limit`; `None` otherwise.
fn digits_up_to(chars: &Vec<char>, from: usize, limit: u64) -> (value: Option<u64>)
    requires
        from <= chars.len(),
    ensures
        value == if all_digits(chars@.skip(from as int)) && decimal_value(chars@.skip(from as int))
            <= limit {
            Some(decimal_value(chars@.skip(from as int)) as u64)
        } else {
            None::<u64>
        },
{
    let n = chars.len();
    let ghost digits = chars@.skip(from as int);
    if from == n {
        return None;
    }
    let mut acc: u64 = 0;
    let mut i: usize = from;
    while i < n
        invariant
            from <= i <= n,
            n == chars.len(),
            digits == chars@.skip(from as int),
            forall|j: int| 0 <= j < i - from ==> is_digit(#[trigger] digits[j]),
            acc == decimal_value(digits.take(i - from)),
            acc <= limit,
        decreases n - i,
    {
        let c = chars[i];
        assert(c == digits[i - from]);
        if c < '0' || c > '9' {
            return None;
        }
        let d: u64 = (c as u32 - '0' as u32) as u64;
        proof {
            assert(digits.take(i - from + 1).drop_last() == digits.take(i - from));
            lemma_decimal_value_prefix(digits, i - from + 1);
        }
        if d > limit || acc > (limit - d) / 10 {
            return None;
        }
        acc = acc * 10 + d;
        i += 1;
    }
    assert(digits.take(n - from) == digits);
    Some(acc)
}

/// Reads an unsigned decimal numeral: an optional `+` followed by digits only.
pub fn parse_u64(s: &str) -> (value: Option<u64>)
    ensures
        value == decimal_u64(s@),
{
    let chars = chars_of(s);
    if chars.len() > 0 && chars[0] == '+' {
        digits_up_to(&chars, 1, u64::MAX)
    } else {
        assert(chars@.skip(0) == chars@);
        digits_up_to(&chars, 0, u64::MAX)
    }
}

/// Reads a signed decimal numeral: an optional `+` or `-` followed by digits only.
pub fn parse_i16(s: &str) -> (value: Option<i16>)
    ensures
        value == decimal_i16(s@),
{
    let chars = chars_of(s);
    if chars.len() > 0 && chars[0] == '-' {
        match digits_up_to(&chars, 1, 32768) {
            Some(v) => {
                let negated: i32 = 0 - (v as i32);
                Some(negated as i16)
            },
            None => None,
        }
    } else if chars.len() > 0 && chars[0] == '+' {
        match digits_up_to(&chars, 1, 32767) {
            Some(v) => Some(v as i16),
            None => None,
        }
    } else {
        assert(chars@.skip(0) == chars@);
        match digits_up_to(&chars, 0, 32767) {
            Some(v) => Some(v as i16),
            None => None,
        }
    }
}

} // verus!
