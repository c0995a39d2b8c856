//! Characters, decimal numbers and strings.

use vstd::prelude::*;

verus! {

/// Whether `c` has the Unicode property `White_Space`.
pub uninterp spec fn is_space(c: char) -> bool;

/// `char::is_whitespace` says whether a character has the Unicode property
/// `White_Space`. Which characters have it is not stated here: the result is
/// known by its name only.
pub assume_specification[ char::is_whitespace ](c: char) -> (r: bool)
    ensures
        r == is_space(c),
;

/// `String::push` appends one character to the end of a string.
pub assume_specification[ String::push ](s: &mut String, c: char)
    ensures
        final(s)@ == old(s)@.push(c),
;

/// `str::eq` compares two string slices character by character.
pub assume_specification[ <str as PartialEq>::eq ](a: &str, b: &str) -> (r: bool)
    ensures
        r == (a@ == b@),
;

/// Whether two texts hold the same characters.
pub fn same_text(a: &str, b: &str) -> (r: bool)
    ensures
        r == (a@ == b@),
{
    a.eq(b)
}

/// The character of the decimal digit `d`.
pub open spec fn digit_char(d: nat) -> char {
    ('0' as nat + d) as char
}

/// The decimal notation of `n`, without leading zeros.
pub open spec fn decimal(n: nat) -> Seq<char>
    decreases n,
{
    if n < 10 {
        seq![digit_char(n)]
    } else {
        decimal(n / 10).push(digit_char(n % 10))
    }
}

/// The decimal digits.
pub open spec fn is_digit(c: char) -> bool {
    '0' <= c && c <= '9'
}

/// The number that a sequence of decimal digits denotes.
pub open spec fn digits_value(s: Seq<char>) -> nat
    decreases s.len(),
{
    if s.len() == 0 {
        0
    } else {
        digits_value(s.drop_last()) * 10 + (s.last() as nat - '0' as nat) as nat
    }
}

/// Whether every character is a decimal digit.
pub open spec fn all_digits(s: Seq<char>) -> bool {
    forall|i: int| 0 <= i < s.len() ==> is_digit(#[trigger] s[i])
}

/// A numeric token: one or more decimal digits that denote a number which
/// fits in 32 bits.
pub open spec fn is_number(s: Seq<char>) -> bool {
    s.len() > 0 && all_digits(s) && digits_value(s) <= u32::MAX
}

/// The characters of `s`.
pub fn to_chars(s: &str) -> (chars: Vec<char>)
    ensures
        chars@ == s@,
{
    let mut chars: Vec<char> = Vec::new();
    for c in it: s.chars()
        invariant
            chars@ == it.seq().take(it.index() as int),
            it.seq() == s@,
    {
        chars.push(c);
    }
    chars
}

/// The string made of the characters of `chars` from `from` up to `to`.
pub fn string_of(chars: &Vec<char>, from: usize, to: usize) -> (s: String)
    requires
        from <= to <= chars.len(),
    ensures
        s@ == chars@.subrange(from as int, to as int),
{
    let mut s = String::new();
    let mut i: usize = from;
    while i < to
        invariant
            from <= i <= to <= chars.len(),
            s@ == chars@.subrange(from as int, i as int),
        decreases to - i,
    {
        s.push(chars[i]);
        assert(chars@.subrange(from as int, i as int).push(chars@[i as int])
            =~= chars@.subrange(from as int, i + 1));
        i += 1;
    }
    s
}

/// The decimal notation of `n`.
pub fn decimal_string(n: u32) -> (s: String)
    ensures
        s@ == decimal(n as nat),
{
    decimal_string_u64(n as u64)
}

/// The digits before position `k` denote no more than all digits.
pub proof fn lemma_digits_value_prefix(s: Seq<char>, k: int)
    requires
        0 <= k <= s.len(),
        all_digits(s),
    ensures
        digits_value(s.take(k)) <= digits_value(s),
    decreases s.len() - k,
{
    if k < s.len() {
        lemma_digits_value_prefix(s, k + 1);
        assert(s.take(k + 1).drop_last() =~= s.take(k));
    } else {
        assert(s.take(k) =~= s);
    }
}

/// Reads a numeric token.
pub fn parse_number(s: &str) -> (r: Option<u32>)
    ensures
        r is Some <==> is_number(s@),
        r is Some ==> r->Some_0 == digits_value(s@),
{
    let chars = to_chars(s);
    if chars.len() == 0 {
        return None;
    }
    let mut value: u64 = 0;
    let mut i: usize = 0;
    while i < chars.len()
        invariant
            i <= chars.len(),
            chars@ == s@,
            all_digits(chars@.take(i as int)),
            value == digits_value(chars@.take(i as int)),
            value <= u32::MAX,
        decreases chars.len() - i,
    {
        let c = chars[i];
        if !('0' <= c && c <= '9') {
            return None;
        }
        let d: u64 = (c as u32 - '0' as u32) as u64;
        proof {
            assert(chars@.take(i + 1).drop_last() =~= chars@.take(i as int));
            assert forall|k: int| 0 <= k < i + 1 implies is_digit(
                #[trigger] chars@.take(i + 1)[k],
            ) by {}
        }
        value = value * 10 + d;
        if value > u32::MAX as u64 {
            proof {
                if all_digits(s@) {
                    lemma_digits_value_prefix(s@, i + 1);
                }
            }
            return None;
        }
        i += 1;
    }
    assert(chars@.take(i as int) =~= chars@);
    Some(value as u32)
}

/// The whitespace characters.
pub open spec fn is_blank() -> spec_fn(char) -> bool {
    |c: char| is_space(c)
}

/// The first position from `i` on whose character is not one to strip.
pub open spec fn kept_from(s: Seq<char>, strip: spec_fn(char) -> bool, i: int) -> int
    decreases s.len() - i,
{
    if 0 <= i < s.len() && strip(s[i]) {
        kept_from(s, strip, i + 1)
    } else {
        i
    }
}

/// The position behind the last character before `j`, and not before `low`,
/// that is not one to strip.
pub open spec fn kept_to(s: Seq<char>, strip: spec_fn(char) -> bool, low: int, j: int) -> int
    decreases j - low,
{
    if low < j <= s.len() && strip(s[j - 1]) {
        kept_to(s, strip, low, j - 1)
    } else {
        j
    }
}

/// `s` without the characters to strip at its start and at its end.
pub open spec fn trimmed(s: Seq<char>, strip: spec_fn(char) -> bool) -> Seq<char> {
    between(s, strip, strip)
}

/// `s` without the characters of one kind at its start and those of another
/// kind at its end.
pub open spec fn between(
    s: Seq<char>,
    front: spec_fn(char) -> bool,
    back: spec_fn(char) -> bool,
) -> Seq<char> {
    let from = kept_from(s, front, 0);
    s.subrange(from, kept_to(s, back, from, s.len() as int))
}

/// What is kept starts at or behind `i`, within the text.
pub proof fn lemma_kept_from(s: Seq<char>, strip: spec_fn(char) -> bool, i: int)
    requires
        0 <= i <= s.len(),
    ensures
        i <= kept_from(s, strip, i) <= s.len(),
    decreases s.len() - i,
{
    if i < s.len() && strip(s[i]) {
        lemma_kept_from(s, strip, i + 1);
    }
}

/// What is kept ends between `low` and `j`.
pub proof fn lemma_kept_to(s: Seq<char>, strip: spec_fn(char) -> bool, low: int, j: int)
    requires
        0 <= low <= j <= s.len(),
    ensures
        low <= kept_to(s, strip, low, j) <= j,
    decreases j - low,
{
    if low < j && strip(s[j - 1]) {
        lemma_kept_to(s, strip, low, j - 1);
    }
}

/// The characters of `chars` without whitespace at both ends.
pub fn trim_blanks(chars: &Vec<char>) -> (r: Vec<char>)
    ensures
        r@ == trimmed(chars@, is_blank()),
{
    let mut from: usize = 0;
    while from < chars.len() && chars[from].is_whitespace()
        invariant
            from <= chars.len(),
            kept_from(chars@, is_blank(), from as int) == kept_from(chars@, is_blank(), 0),
        decreases chars.len() - from,
    {
        from += 1;
    }
    let mut to: usize = chars.len();
    while to > from && chars[to - 1].is_whitespace()
        invariant
            from <= to <= chars.len(),
            kept_to(chars@, is_blank(), from as int, to as int) == kept_to(
                chars@,
                is_blank(),
                from as int,
                chars.len() as int,
            ),
        decreases to - from,
    {
        to -= 1;
    }
    slice_of(chars, from, to)
}

/// The characters of `chars` from `from` up to `to`.
pub fn slice_of(chars: &Vec<char>, from: usize, to: usize) -> (r: Vec<char>)
    requires
        from <= to <= chars.len(),
    ensures
        r@ == chars@.subrange(from as int, to as int),
{
    let mut r: Vec<char> = Vec::new();
    let mut i: usize = from;
    while i < to
        invariant
            from <= i <= to <= chars.len(),
            r@ == chars@.subrange(from as int, i as int),
        decreases to - i,
    {
        r.push(chars[i]);
        assert(chars@.subrange(from as int, i as int).push(chars@[i as int]) =~= chars@.subrange(
            from as int,
            i + 1,
        ));
        i += 1;
    }
    r
}


/// An unsigned number in decimal notation: an optional `+` and one or more
/// digits.
pub open spec fn unsigned_digits(s: Seq<char>) -> Seq<char> {
    if s.len() > 0 && s[0] == '+' {
        s.skip(1)
    } else {
        s
    }
}

/// Whether `s` denotes a number that fits in 64 bits.
pub open spec fn is_unsigned(s: Seq<char>) -> bool {
    unsigned_digits(s).len() > 0 && all_digits(unsigned_digits(s)) && digits_value(
        unsigned_digits(s),
    ) <= u64::MAX
}

/// The number that `s` denotes.
pub open spec fn unsigned_value(s: Seq<char>) -> u64 {
    digits_value(unsigned_digits(s)) as u64
}

/// Reads an unsigned number of up to 64 bits.
pub fn parse_unsigned(chars: &Vec<char>) -> (r: Option<u64>)
    ensures
        r is Some <==> is_unsigned(chars@),
        r is Some ==> r->Some_0 == unsigned_value(chars@),
{
    let start: usize = if chars.len() > 0 && chars[0] == '+' {
        1
    } else {
        0
    };
    let ghost digits = unsigned_digits(chars@);
    if start >= chars.len() {
        return None;
    }
    let mut value: u128 = 0;
    let mut i: usize = start;
    while i < chars.len()
        invariant
            start <= i <= chars.len(),
            digits == chars@.subrange(start as int, chars.len() as int),
            digits == unsigned_digits(chars@),
            all_digits(digits.take(i - start)),
            value == digits_value(digits.take(i - start)),
            value <= u64::MAX,
        decreases chars.len() - i,
    {
        let c = chars[i];
        assert(digits[i - start] == c);
        if !('0' <= c && c <= '9') {
            return None;
        }
        let d: u128 = (c as u32 - '0' as u32) as u128;
        proof {
            assert(digits.take(i - start + 1).drop_last() =~= digits.take(i - start));
            assert forall|k: int| 0 <= k < i - start + 1 implies is_digit(
                #[trigger] digits.take(i - start + 1)[k],
            ) by {}
        }
        value = value * 10 + d;
        if value > u64::MAX as u128 {
            proof {
                if all_digits(digits) {
                    lemma_digits_value_prefix(digits, i - start + 1);
                }
            }
            return None;
        }
        i += 1;
    }
    assert(digits.take(i - start) =~= digits);
    Some(value as u64)
}

/// The decimal notation of `n`.
pub fn decimal_string_u64(n: u64) -> (s: String)
    ensures
        s@ == decimal(n as nat),
    decreases n,
{
    let digit: u8 = (n % 10) as u8;
    let c: char = (48u8 + digit) as char;
    if n < 10 {
        let mut s = String::new();
        s.push(c);
        s
    } else {
        let mut s = decimal_string_u64(n / 10);
        s.push(c);
        s
    }
}

/// The characters of each text of a list.
pub open spec fn texts(list: Seq<String>) -> Seq<Seq<char>> {
    Seq::new(list.len(), |i: int| list[i]@)
}

/// The characters of each word of a list.
pub open spec fn word_views(words: Seq<Vec<char>>) -> Seq<Seq<char>> {
    Seq::new(words.len(), |i: int| words[i]@)
}

/// Whether `pattern` stands in `s` at position `i`.
pub open spec fn occurs_at(s: Seq<char>, pattern: Seq<char>, i: int) -> bool {
    0 <= i && i + pattern.len() <= s.len() && s.subrange(i, i + pattern.len()) == pattern
}

/// Whether `s` starts with `pattern`.
pub open spec fn starts_with(s: Seq<char>, pattern: Seq<char>) -> bool {
    occurs_at(s, pattern, 0)
}

/// Whether `s` ends with `pattern`.
pub open spec fn ends_with(s: Seq<char>, pattern: Seq<char>) -> bool {
    occurs_at(s, pattern, s.len() - pattern.len())
}

/// The first position from `i` on at which `pattern` stands in `s`, or -1.
pub open spec fn find_from(s: Seq<char>, pattern: Seq<char>, i: int) -> int
    decreases s.len() + 1 - i,
{
    if i < 0 || i + pattern.len() > s.len() {
        -1
    } else if occurs_at(s, pattern, i) {
        i
    } else {
        find_from(s, pattern, i + 1)
    }
}

/// Whether `pattern` stands somewhere in `s`.
pub open spec fn contains(s: Seq<char>, pattern: Seq<char>) -> bool {
    find_from(s, pattern, 0) >= 0
}

/// What was found stands at or behind `i`, and the pattern stands there.
pub proof fn lemma_find_from(s: Seq<char>, pattern: Seq<char>, i: int)
    requires
        0 <= i,
    ensures
        find_from(s, pattern, i) == -1 || (i <= find_from(s, pattern, i) && occurs_at(
            s,
            pattern,
            find_from(s, pattern, i),
        )),
    decreases s.len() + 1 - i,
{
    if i + pattern.len() <= s.len() && !occurs_at(s, pattern, i) {
        lemma_find_from(s, pattern, i + 1);
    }
}

/// Whether `pattern` stands in `s` at position `i`.
pub fn stands_at(s: &Vec<char>, pattern: &Vec<char>, i: usize) -> (r: bool)
    ensures
        r == occurs_at(s@, pattern@, i as int),
{
    if pattern.len() > s.len() || i > s.len() - pattern.len() {
        return false;
    }
    let mut k: usize = 0;
    while k < pattern.len()
        invariant
            k <= pattern.len(),
            i + pattern.len() <= s.len(),
            forall|j: int| 0 <= j < k ==> s@[i + j] == pattern@[j],
        decreases pattern.len() - k,
    {
        if s[i + k] != pattern[k] {
            return false;
        }
        k += 1;
    }
    assert(s@.subrange(i as int, i + pattern.len()) =~= pattern@);
    true
}

/// Whether `s` starts with `pattern`.
pub fn has_prefix(s: &Vec<char>, pattern: &Vec<char>) -> (r: bool)
    ensures
        r == starts_with(s@, pattern@),
{
    stands_at(s, pattern, 0)
}

/// Whether `s` ends with `pattern`.
pub fn has_suffix(s: &Vec<char>, pattern: &Vec<char>) -> (r: bool)
    ensures
        r == ends_with(s@, pattern@),
{
    if pattern.len() > s.len() {
        return false;
    }
    stands_at(s, pattern, s.len() - pattern.len())
}

/// The first position from `i` on at which `pattern` stands in `s`.
pub fn find(s: &Vec<char>, pattern: &Vec<char>, i: usize) -> (r: Option<usize>)
    ensures
        match r {
            Some(at) => find_from(s@, pattern@, i as int) == at,
            None => find_from(s@, pattern@, i as int) == -1,
        },
{
    if pattern.len() > s.len() {
        return None;
    }
    let last: usize = s.len() - pattern.len();
    let mut at: usize = i;
    while at <= last
        invariant
            last == s.len() - pattern.len(),
            i <= at,
            find_from(s@, pattern@, at as int) == find_from(s@, pattern@, i as int),
        decreases last + 1 - at,
    {
        if stands_at(s, pattern, at) {
            return Some(at);
        }
        if at == last {
            assert(find_from(s@, pattern@, at + 1) == -1);
            return None;
        }
        at += 1;
    }
    None
}

} // verus!
