//! Character-level string utilities shared by the pipeline.

use cow_utils::CowUtils;
use vstd::prelude::*;

verus! {

/// Number of occurrences of `c` in `s`.
pub open spec fn count_char(s: Seq<char>, c: char) -> nat
    decreases s.len(),
{
    if s.len() == 0 {
        0
    } else {
        count_char(s.drop_last(), c) + if s.last() == c { 1nat } else { 0nat }
    }
}

/// Appends one character to a `String` (`String::push`).
#[verifier::external_body]
pub(crate) fn string_push(s: &mut String, c: char)
    ensures
        final(s)@ == old(s)@.push(c),
{
    s.push(c);
}

/// The characters of `s`, in order.
pub fn str_chars(s: &str) -> (v: Vec<char>)
    ensures
        v@ == s@,
{
    let mut v: Vec<char> = Vec::new();
    for c in it: s.chars()
        invariant
            v@ == it.seq().take(it.index() as int),
    {
        v.push(c);
    }
    v
}

/// Counts the newline characters of `text`, saturating at `u32::MAX`.
pub fn count_newlines(text: &str) -> (n: u32)
    ensures
        n == (if count_char(text@, '\n') > u32::MAX { u32::MAX as nat } else { count_char(text@, '\n') }),
{
    let chars = str_chars(text);
    let mut n: u32 = 0;
    let mut i: usize = 0;
    while i < chars.len()
        invariant
            0 <= i <= chars@.len(),
            chars@ == text@,
            n == (if count_char(chars@.take(i as int), '\n') > u32::MAX { u32::MAX as nat } else { count_char(chars@.take(i as int), '\n') }),
        decreases chars@.len() - i,
    {
        assert(chars@.take(i + 1).drop_last() == chars@.take(i as int));
        if chars[i] == '\n' {
            n = n.saturating_add(1);
        }
        i += 1;
    }
    assert(chars@.take(i as int) == chars@);
    n
}

/// Equality of two string slices.
pub fn str_eq(a: &str, b: &str) -> (r: bool)
    ensures
        r == (a@ == b@),
{
    let x = str_chars(a);
    let y = str_chars(b);
    chars_eq(&x, &y)
}

/// A copy of a string slice as an owned `String`.
pub fn string_clone(s: &str) -> (r: String)
    ensures
        r@ == s@,
{
    s.to_owned()
}

/// ASCII letter or digit.
pub open spec fn is_ascii_alnum(c: char) -> bool {
    (48 <= c as int <= 57) || (65 <= c as int <= 90) || (97 <= c as int <= 122)
}

/// ASCII decimal digit.
pub open spec fn is_ascii_digit(c: char) -> bool {
    48 <= c as int <= 57
}

/// A character with the Unicode `White_Space` property (`char::is_whitespace`).
pub open spec fn is_white_space(c: char) -> bool {
    let u = c as int;
    (9 <= u <= 13) || u == 32 || u == 0x85 || u == 0xA0 || u == 0x1680 || (0x2000 <= u <= 0x200A)
        || u == 0x2028 || u == 0x2029 || u == 0x202F || u == 0x205F || u == 0x3000
}

/// Executable `is_ascii_alnum`.
pub fn char_is_ascii_alnum(c: char) -> (r: bool)
    ensures
        r == is_ascii_alnum(c),
{
    let u = c as u32;
    (48 <= u && u <= 57) || (65 <= u && u <= 90) || (97 <= u && u <= 122)
}

/// Executable `is_ascii_digit`.
pub fn char_is_ascii_digit(c: char) -> (r: bool)
    ensures
        r == is_ascii_digit(c),
{
    let u = c as u32;
    48 <= u && u <= 57
}

/// Executable `is_white_space`.
pub fn char_is_white_space(c: char) -> (r: bool)
    ensures
        r == is_white_space(c),
{
    let u = c as u32;
    (9 <= u && u <= 13) || u == 32 || u == 0x85 || u == 0xA0 || u == 0x1680 || (0x2000 <= u && u
        <= 0x200A) || u == 0x2028 || u == 0x2029 || u == 0x202F || u == 0x205F || u == 0x3000
}

/// A `String` holding the given characters.
pub fn string_from_chars(v: &[char]) -> (r: String)
    ensures
        r@ == v@,
{
    let mut r = String::new();
    let mut i: usize = 0;
    while i < v.len()
        invariant
            0 <= i <= v@.len(),
            r@ == v@.take(i as int),
        decreases v@.len() - i,
    {
        string_push(&mut r, v[i]);
        assert(v@.take(i + 1) == v@.take(i as int).push(v@[i as int]));
        i += 1;
    }
    assert(v@.take(i as int) == v@);
    r
}

/// Appends a string slice to a `String`.
pub fn push_str(out: &mut String, s: &str)
    ensures
        final(out)@ == old(out)@ + s@,
{
    out.append(s);
}

/// The character a sanitized identifier holds in place of `c`.
pub open spec fn sanitized_char(c: char) -> char {
    if is_ascii_alnum(c) || c == '_' { c } else { '_' }
}

/// Sanitizes a string into a valid JavaScript identifier: every character other
/// than an ASCII letter, digit or `_` becomes `_`.
pub fn sanitize_to_identifier(s: &str) -> (r: String)
    ensures
        r@ == s@.map_values(|c: char| sanitized_char(c)),
{
    let chars = str_chars(s);
    let mut out: Vec<char> = Vec::new();
    let mut i: usize = 0;
    while i < chars.len()
        invariant
            0 <= i <= chars@.len(),
            chars@ == s@,
            out@ == chars@.take(i as int).map_values(|c: char| sanitized_char(c)),
        decreases chars@.len() - i,
    {
        let c = chars[i];
        let d = if char_is_ascii_alnum(c) || c == '_' { c } else { '_' };
        out.push(d);
        assert(chars@.take(i + 1).map_values(|c: char| sanitized_char(c))
            == chars@.take(i as int).map_values(|c: char| sanitized_char(c)).push(sanitized_char(c)));
        i += 1;
    }
    assert(chars@.take(i as int) == chars@);
    string_from_chars(&out)
}

/// Whether `text` holds a character that is not white space.
pub fn contains_non_whitespace(text: &str) -> (r: bool)
    ensures
        r == exists|i: int| 0 <= i < text@.len() && !is_white_space(#[trigger] text@[i]),
{
    let chars = str_chars(text);
    let mut i: usize = 0;
    while i < chars.len()
        invariant
            0 <= i <= chars@.len(),
            chars@ == text@,
            forall|j: int| 0 <= j < i ==> is_white_space(#[trigger] chars@[j]),
        decreases chars@.len() - i,
    {
        if !char_is_white_space(chars[i]) {
            return true;
        }
        i += 1;
    }
    false
}

/// Whether a namespace import name looks generated: it starts with `_` and
/// holds an ASCII digit.
pub fn is_generated_external_namespace_helper(name: &str) -> (r: bool)
    ensures
        r == (name@.len() > 0 && name@[0] == '_' && exists|i: int|
            0 <= i < name@.len() && is_ascii_digit(#[trigger] name@[i])),
{
    let chars = str_chars(name);
    if chars.len() == 0 || chars[0] != '_' {
        return false;
    }
    let mut i: usize = 0;
    while i < chars.len()
        invariant
            0 <= i <= chars@.len(),
            chars@ == name@,
            chars@.len() > 0 && chars@[0] == '_',
            forall|j: int| 0 <= j < i ==> !is_ascii_digit(#[trigger] chars@[j]),
        decreases chars@.len() - i,
    {
        if char_is_ascii_digit(chars[i]) {
            assert(is_ascii_digit(name@[i as int]));
            return true;
        }
        i += 1;
    }
    false
}

/// `s` with every occurrence of `from` replaced by `to`.
pub open spec fn replace_char(s: Seq<char>, from: char, to: Seq<char>) -> Seq<char>
    decreases s.len(),
{
    if s.len() == 0 {
        Seq::empty()
    } else {
        replace_char(s.drop_last(), from, to) + if s.last() == from {
            to
        } else {
            seq![s.last()]
        }
    }
}

/// `CowUtils::cow_replace` with a single-character pattern: every occurrence of
/// `from` in `s` is replaced by `to`, all other characters are kept in order.
#[verifier::external_body]
pub(crate) fn cow_replace_char(s: &str, from: char, to: &str) -> (r: String)
    ensures
        r@ == replace_char(s@, from, to@),
{
    s.cow_replace(from, to).into_owned()
}

/// Lexicographic order of character sequences by code point (the order of
/// `str`, whose bytewise UTF-8 order agrees with code-point order).
pub open spec fn seq_lt(a: Seq<char>, b: Seq<char>) -> bool
    decreases a.len(),
{
    if a.len() == 0 {
        b.len() > 0
    } else if b.len() == 0 {
        false
    } else if a[0] != b[0] {
        (a[0] as int) < (b[0] as int)
    } else {
        seq_lt(a.drop_first(), b.drop_first())
    }
}

/// `seq_lt` is a strict total order.
pub proof fn lemma_seq_lt_total(a: Seq<char>, b: Seq<char>)
    ensures
        !(seq_lt(a, b) && seq_lt(b, a)),
        a != b ==> seq_lt(a, b) || seq_lt(b, a),
        !seq_lt(a, a),
    decreases a.len(),
{
    if a.len() > 0 && b.len() > 0 && a[0] == b[0] {
        lemma_seq_lt_total(a.drop_first(), b.drop_first());
        if a != b {
            assert(a.drop_first() != b.drop_first()) by {
                if a.drop_first() == b.drop_first() {
                    assert(a =~= seq![a[0]] + a.drop_first());
                    assert(b =~= seq![b[0]] + b.drop_first());
                }
            }
        }
    }
    if a.len() > 0 {
        lemma_seq_lt_total(a.drop_first(), a.drop_first());
    }
    if a.len() == 0 && b.len() == 0 {
        assert(a =~= b);
    }
    if a.len() > 0 && b.len() > 0 && a[0] != b[0] {
        assert((a[0] as int) != (b[0] as int));
    }
}

/// `seq_lt` is transitive.
pub proof fn lemma_seq_lt_trans(a: Seq<char>, b: Seq<char>, c: Seq<char>)
    requires
        seq_lt(a, b),
        seq_lt(b, c),
    ensures
        seq_lt(a, c),
    decreases a.len(),
{
    if a.len() > 0 && b.len() > 0 && c.len() > 0 && a[0] == b[0] && b[0] == c[0] {
        lemma_seq_lt_trans(a.drop_first(), b.drop_first(), c.drop_first());
    }
}

/// `<` on string slices (`<str as PartialOrd>::lt`): lexicographic by code point.
#[verifier::external_body]
pub(crate) fn str_lt(a: &str, b: &str) -> (r: bool)
    ensures
        r == seq_lt(a@, b@),
{
    a < b
}

/// `suf` is a suffix of `s`.
pub open spec fn has_suffix(s: Seq<char>, suf: Seq<char>) -> bool {
    s.len() >= suf.len() && s.skip(s.len() - suf.len()) == suf
}

/// `pre` is a prefix of `s`.
pub open spec fn has_prefix(s: Seq<char>, pre: Seq<char>) -> bool {
    s.len() >= pre.len() && s.take(pre.len() as int) == pre
}

/// Whether `suf` is a suffix of `s`.
pub fn chars_ends_with(s: &Vec<char>, suf: &Vec<char>) -> (r: bool)
    ensures
        r == has_suffix(s@, suf@),
{
    if s.len() < suf.len() {
        return false;
    }
    let n = s.len();
    let off = n - suf.len();
    let mut i: usize = 0;
    while i < suf.len()
        invariant
            0 <= i <= suf@.len(),
            off == s@.len() - suf@.len(),
            off + suf@.len() == s@.len(),
            n == s@.len(),
            forall|j: int| 0 <= j < i ==> s@[off + j] == suf@[j],
        decreases suf@.len() - i,
    {
        assert(off + i < s@.len());
        if s[off + i] != suf[i] {
            assert(s@.skip(off as int)[i as int] != suf@[i as int]);
            return false;
        }
        i += 1;
    }
    assert(s@.skip(off as int) =~= suf@);
    true
}

/// Whether `pre` is a prefix of `s`.
pub fn chars_starts_with(s: &Vec<char>, pre: &Vec<char>) -> (r: bool)
    ensures
        r == has_prefix(s@, pre@),
{
    if s.len() < pre.len() {
        return false;
    }
    let mut i: usize = 0;
    while i < pre.len()
        invariant
            0 <= i <= pre@.len(),
            pre@.len() <= s@.len(),
            forall|j: int| 0 <= j < i ==> s@[j] == pre@[j],
        decreases pre@.len() - i,
    {
        if s[i] != pre[i] {
            assert(s@.take(pre@.len() as int)[i as int] != pre@[i as int]);
            return false;
        }
        i += 1;
    }
    assert(s@.take(pre@.len() as int) =~= pre@);
    true
}

/// The characters of a string literal, with their value stated.
pub fn literal_chars(s: &str) -> (v: Vec<char>)
    ensures
        v@ == s@,
{
    str_chars(s)
}

/// ASCII lower-case mapping of one character.
pub open spec fn ascii_lower(c: char) -> int {
    if 65 <= c as int <= 90 { c as int + 32 } else { c as int }
}

/// Executable `ascii_lower`.
pub fn ascii_lower_code(c: char) -> (r: u32)
    ensures
        r as int == ascii_lower(c),
{
    let x = c as u32;
    assert(x as int == c as int);
    if 65 <= x && x <= 90 { x + 32 } else { x }
}

/// ASCII case-insensitive equality (`eq_ignore_ascii_case`).
pub open spec fn eq_ignore_ascii_case(a: Seq<char>, b: Seq<char>) -> bool {
    a.len() == b.len() && forall|i: int| 0 <= i < a.len() ==> ascii_lower(#[trigger] a[i]) == ascii_lower(b[i])
}

/// Executable `eq_ignore_ascii_case`.
pub fn chars_eq_ignore_ascii_case(a: &Vec<char>, b: &Vec<char>) -> (r: bool)
    ensures
        r == eq_ignore_ascii_case(a@, b@),
{
    if a.len() != b.len() {
        return false;
    }
    let mut i: usize = 0;
    while i < a.len()
        invariant
            0 <= i <= a@.len(),
            a@.len() == b@.len(),
            forall|j: int| 0 <= j < i ==> ascii_lower(#[trigger] a@[j]) == ascii_lower(b@[j]),
        decreases a@.len() - i,
    {
        let lx = ascii_lower_code(a[i]);
        let ly = ascii_lower_code(b[i]);
        if lx != ly {
            assert(ascii_lower(a@[i as int]) != ascii_lower(b@[i as int]));
            return false;
        }
        assert(ascii_lower(a@[i as int]) == ascii_lower(b@[i as int]));
        i += 1;
    }
    true
}

/// Whether two character vectors are equal.
pub fn chars_eq(a: &Vec<char>, b: &Vec<char>) -> (r: bool)
    ensures
        r == (a@ == b@),
{
    if a.len() != b.len() {
        return false;
    }
    let mut i: usize = 0;
    while i < a.len()
        invariant
            0 <= i <= a@.len(),
            a@.len() == b@.len(),
            forall|j: int| 0 <= j < i ==> a@[j] == b@[j],
        decreases a@.len() - i,
    {
        if a[i] != b[i] {
            return false;
        }
        i += 1;
    }
    assert(a@ =~= b@);
    true
}

} // verus!
