//! Reading the `isolatedDeclarations`-related options of a `tsconfig.json`.

use vstd::prelude::*;

use crate::text::{
    char_is_white_space, chars_starts_with, has_prefix, is_white_space, literal_chars, str_chars,
};

verus! {

/// Where the comment scanner stands.
#[derive(PartialEq, Eq, Clone, Copy)]
pub enum ScanState {
    /// Outside strings and comments.
    Code,
    /// Inside a string literal.
    Str,
    /// Inside a `//` comment.
    Line,
    /// Inside a `/* */` comment.
    Block,
}

/// Rank of a state for the termination measure.
pub open spec fn state_rank(s: ScanState) -> int {
    match s {
        ScanState::Line | ScanState::Block => 1,
        _ => 0,
    }
}

/// The characters from `i` on, scanned in state `st`, with `//` and `/* */`
/// comments outside string literals removed and every other character kept.
/// Inside a string a backslash escapes the character after it. A line comment
/// ends before its newline; a block comment that is never closed stops at the
/// last character, which is kept.
pub open spec fn strip_comments_from(b: Seq<char>, i: int, st: ScanState) -> Seq<char>
    decreases b.len() - i, state_rank(st),
{
    if i < 0 || i >= b.len() {
        Seq::empty()
    } else {
        match st {
            ScanState::Str => {
                if b[i] == '\\' && i + 1 < b.len() {
                    seq![b[i], b[i + 1]] + strip_comments_from(b, i + 2, ScanState::Str)
                } else if b[i] == '"' {
                    seq![b[i]] + strip_comments_from(b, i + 1, ScanState::Code)
                } else {
                    seq![b[i]] + strip_comments_from(b, i + 1, ScanState::Str)
                }
            },
            ScanState::Line => {
                if b[i] == '\n' {
                    strip_comments_from(b, i, ScanState::Code)
                } else {
                    strip_comments_from(b, i + 1, ScanState::Line)
                }
            },
            ScanState::Block => {
                if i + 1 >= b.len() {
                    strip_comments_from(b, i, ScanState::Code)
                } else if b[i] == '*' && b[i + 1] == '/' {
                    strip_comments_from(b, i + 2, ScanState::Code)
                } else {
                    strip_comments_from(b, i + 1, ScanState::Block)
                }
            },
            ScanState::Code => {
                if b[i] == '"' {
                    seq!['"'] + strip_comments_from(b, i + 1, ScanState::Str)
                } else if i + 1 < b.len() && b[i] == '/' && b[i + 1] == '/' {
                    strip_comments_from(b, i + 2, ScanState::Line)
                } else if i + 1 < b.len() && b[i] == '/' && b[i + 1] == '*' {
                    strip_comments_from(b, i + 2, ScanState::Block)
                } else {
                    seq![b[i]] + strip_comments_from(b, i + 1, ScanState::Code)
                }
            },
        }
    }
}

/// Whether a character is a space, newline, carriage return or tab.
pub open spec fn is_json_blank(c: char) -> bool {
    c == ' ' || c == '\n' || c == '\r' || c == '\t'
}

/// Index of the first character from `k` on that is not blank.
pub open spec fn skip_blanks(r: Seq<char>, k: int) -> int
    decreases r.len() - k,
{
    if k >= r.len() || !is_json_blank(r[k]) {
        k
    } else {
        skip_blanks(r, k + 1)
    }
}

/// A comma is trailing when only blanks separate it from a `}` or `]`.
pub open spec fn is_trailing_comma(r: Seq<char>, j: int) -> bool {
    r[j] == ',' && skip_blanks(r, j + 1) < r.len() && (r[skip_blanks(r, j + 1)] == '}' || r[
        skip_blanks(r, j + 1)
    ] == ']')
}

/// The characters from `j` on without the trailing commas that stand outside
/// string literals; `in_str` says whether `j` is inside one. Inside a string a
/// backslash escapes the character after it.
pub open spec fn drop_trailing_commas_from(r: Seq<char>, j: int, in_str: bool) -> Seq<char>
    decreases r.len() - j,
{
    if j < 0 || j >= r.len() {
        Seq::empty()
    } else if in_str {
        if r[j] == '\\' && j + 1 < r.len() {
            seq![r[j], r[j + 1]] + drop_trailing_commas_from(r, j + 2, true)
        } else {
            seq![r[j]] + drop_trailing_commas_from(r, j + 1, r[j] != '"')
        }
    } else if r[j] == '"' {
        seq![r[j]] + drop_trailing_commas_from(r, j + 1, true)
    } else if is_trailing_comma(r, j) {
        drop_trailing_commas_from(r, j + 1, false)
    } else {
        seq![r[j]] + drop_trailing_commas_from(r, j + 1, false)
    }
}

/// What `strip_json_comments` makes of `input`: comments removed, then
/// trailing commas removed from that.
pub open spec fn strip_json_comments_spec(input: Seq<char>) -> Seq<char> {
    drop_trailing_commas_from(strip_comments_from(input, 0, ScanState::Code), 0, false)
}

/// Strips `//` and `/* */` comments (outside string literals) and trailing
/// commas before `}` or `]` (outside string literals) from JSON-like text.
pub fn strip_json_comments(input: &str) -> (r: String)
    ensures
        r@ == strip_json_comments_spec(input@),
{
    let bytes = str_chars(input);
    let len = bytes.len();
    let mut out: Vec<char> = Vec::new();
    let mut i: usize = 0;
    let mut st = ScanState::Code;
    while i < len
        invariant
            len == bytes@.len(),
            bytes@ == input@,
            i <= len,
            out@ + strip_comments_from(bytes@, i as int, st) == strip_comments_from(bytes@, 0, ScanState::Code),
        decreases len - i, state_rank(st),
    {
        let b = bytes[i];
        let ghost before = out@;
        match st {
            ScanState::Str => {
                if b == '\\' && i + 1 < len {
                    out.push(b);
                    out.push(bytes[i + 1]);
                    assert(out@ == before + seq![b, bytes@[i + 1]]);
                    i += 2;
                } else if b == '"' {
                    out.push(b);
                    st = ScanState::Code;
                    i += 1;
                } else {
                    out.push(b);
                    i += 1;
                }
            },
            ScanState::Line => {
                if b == '\n' {
                    st = ScanState::Code;
                } else {
                    i += 1;
                }
            },
            ScanState::Block => {
                if i + 1 >= len {
                    st = ScanState::Code;
                } else if b == '*' && bytes[i + 1] == '/' {
                    st = ScanState::Code;
                    i += 2;
                } else {
                    i += 1;
                }
            },
            ScanState::Code => {
                if b == '"' {
                    out.push('"');
                    st = ScanState::Str;
                    i += 1;
                } else if i + 1 < len && b == '/' && bytes[i + 1] == '/' {
                    st = ScanState::Line;
                    i += 2;
                } else if i + 1 < len && b == '/' && bytes[i + 1] == '*' {
                    st = ScanState::Block;
                    i += 2;
                } else {
                    out.push(b);
                    i += 1;
                }
            },
        }
    }
    assert(strip_comments_from(bytes@, i as int, st) == Seq::<char>::empty());
    assert(out@ + Seq::<char>::empty() == out@);
    let rb = out;
    let rlen = rb.len();
    let mut cleaned: Vec<char> = Vec::new();
    let mut j: usize = 0;
    let mut in_str = false;
    while j < rlen
        invariant
            rlen == rb@.len(),
            rb@ == strip_comments_from(input@, 0, ScanState::Code),
            j <= rlen,
            cleaned@ + drop_trailing_commas_from(rb@, j as int, in_str) == drop_trailing_commas_from(
                rb@,
                0,
                false,
            ),
        decreases rlen - j,
    {
        let c = rb[j];
        let ghost before = cleaned@;
        if in_str {
            if c == '\\' && j + 1 < rlen {
                cleaned.push(c);
                cleaned.push(rb[j + 1]);
                assert(cleaned@ == before + seq![c, rb@[j + 1]]);
                j += 2;
            } else {
                cleaned.push(c);
                in_str = c != '"';
                j += 1;
            }
        } else if c == '"' {
            cleaned.push(c);
            in_str = true;
            j += 1;
        } else {
            if c == ',' {
                let mut k = j + 1;
                while k < rlen && (rb[k] == ' ' || rb[k] == '\n' || rb[k] == '\r' || rb[k] == '\t')
                    invariant
                        j + 1 <= k <= rlen,
                        rlen == rb@.len(),
                        skip_blanks(rb@, k as int) == skip_blanks(rb@, j + 1),
                    decreases rlen - k,
                {
                    k += 1;
                }
                assert(skip_blanks(rb@, k as int) == k);
                if k < rlen && (rb[k] == '}' || rb[k] == ']') {
                    assert(is_trailing_comma(rb@, j as int));
                    j += 1;
                    continue;
                }
                assert(!is_trailing_comma(rb@, j as int));
            }
            cleaned.push(c);
            assert(cleaned@ == before + seq![rb@[j as int]]);
            j += 1;
        }
    }
    assert(cleaned@ + drop_trailing_commas_from(rb@, j as int, in_str) == cleaned@);
    crate::text::string_from_chars(&cleaned)
}

/// `p` occurs in `s` at index `i`.
pub open spec fn matches_at(s: Seq<char>, p: Seq<char>, i: int) -> bool {
    0 <= i && i + p.len() <= s.len() && s.subrange(i, i + p.len()) == p
}

/// The first index from `i` on at which `p` occurs in `s`.
pub open spec fn find_from(s: Seq<char>, p: Seq<char>, i: int) -> Option<int>
    decreases s.len() + 1 - i,
{
    if i < 0 || i + p.len() > s.len() {
        None
    } else if matches_at(s, p, i) {
        Some(i)
    } else {
        find_from(s, p, i + 1)
    }
}

/// The first index of the first char after the white space starting at `i`.
pub open spec fn ws_end(s: Seq<char>, i: int) -> int
    decreases s.len() - i,
{
    if i < 0 || i >= s.len() || !is_white_space(s[i]) {
        i
    } else {
        ws_end(s, i + 1)
    }
}

/// The index of the `}` closing a block whose body starts at `i`, at nesting
/// `depth`, skipping braces inside string literals (inside a string a
/// backslash escapes the character after it).
pub open spec fn closing_brace(s: Seq<char>, i: int, depth: int, in_string: bool) -> Option<int>
    decreases s.len() - i,
{
    if i < 0 || i >= s.len() {
        None
    } else if in_string {
        if s[i] == '\\' && i + 1 < s.len() {
            closing_brace(s, i + 2, depth, true)
        } else if s[i] == '"' {
            closing_brace(s, i + 1, depth, false)
        } else {
            closing_brace(s, i + 1, depth, true)
        }
    } else if s[i] == '"' {
        closing_brace(s, i + 1, depth, true)
    } else if s[i] == '{' {
        closing_brace(s, i + 1, depth + 1, false)
    } else if s[i] == '}' {
        if depth - 1 == 0 {
            Some(i)
        } else {
            closing_brace(s, i + 1, depth - 1, false)
        }
    } else {
        closing_brace(s, i + 1, depth, false)
    }
}

/// The characters of `"compilerOptions"` (quotes included).
pub open spec fn compiler_options_key() -> Seq<char> {
    seq!['"', 'c', 'o', 'm', 'p', 'i', 'l', 'e', 'r', 'O', 'p', 't', 'i', 'o', 'n', 's', '"']
}

/// The body of the `"compilerOptions": { ... }` block of `json`, or all of
/// `json` when no such block starts at the first occurrence of the key.
pub open spec fn compiler_options_spec(json: Seq<char>) -> Seq<char> {
    match find_from(json, compiler_options_key(), 0) {
        None => json,
        Some(pos) => {
            let a = ws_end(json, pos + compiler_options_key().len());
            if a < json.len() && json[a] == ':' {
                let c = ws_end(json, a + 1);
                if c < json.len() && json[c] == '{' {
                    match closing_brace(json, c + 1, 1, false) {
                        Some(e) => json.subrange(c + 1, e),
                        None => json.skip(c + 1),
                    }
                } else {
                    json
                }
            } else {
                json
            }
        },
    }
}

proof fn lemma_find_from_bounds(s: Seq<char>, p: Seq<char>, i: int)
    ensures
        find_from(s, p, i) matches Some(k) ==> i <= k && k + p.len() <= s.len() && matches_at(s, p, k),
    decreases s.len() + 1 - i,
{
    if !(i < 0 || i + p.len() > s.len()) && !matches_at(s, p, i) {
        lemma_find_from_bounds(s, p, i + 1);
    }
}

proof fn lemma_ws_end_bounds(s: Seq<char>, i: int)
    requires
        0 <= i <= s.len(),
    ensures
        i <= ws_end(s, i) <= s.len(),
    decreases s.len() - i,
{
    if !(i >= s.len() || !is_white_space(s[i])) {
        lemma_ws_end_bounds(s, i + 1);
    }
}

proof fn lemma_closing_brace_bounds(s: Seq<char>, i: int, depth: int, in_string: bool)
    requires
        0 <= i,
    ensures
        closing_brace(s, i, depth, in_string) matches Some(e) ==> i <= e < s.len(),
    decreases s.len() - i,
{
    if i < s.len() {
        if in_string {
            if s[i] == '\\' && i + 1 < s.len() {
                lemma_closing_brace_bounds(s, i + 2, depth, true);
            } else if s[i] == '"' {
                lemma_closing_brace_bounds(s, i + 1, depth, false);
            } else {
                lemma_closing_brace_bounds(s, i + 1, depth, true);
            }
        } else if s[i] == '"' {
            lemma_closing_brace_bounds(s, i + 1, depth, true);
        } else if s[i] == '{' {
            lemma_closing_brace_bounds(s, i + 1, depth + 1, false);
        } else if s[i] == '}' {
            if depth - 1 != 0 {
                lemma_closing_brace_bounds(s, i + 1, depth - 1, false);
            }
        } else {
            lemma_closing_brace_bounds(s, i + 1, depth, false);
        }
    }
}

/// First occurrence of `p` in `s` at or after `start`.
pub(crate) fn find_chars(s: &Vec<char>, p: &Vec<char>, start: usize) -> (r: Option<usize>)
    ensures
        match r {
            Some(k) => find_from(s@, p@, start as int) == Some(k as int),
            None => find_from(s@, p@, start as int).is_none(),
        },
{
    let mut i = start;
    while i <= s.len() && p.len() <= s.len() - i
        invariant
            start <= i,
            find_from(s@, p@, start as int) == find_from(s@, p@, i as int),
        decreases s@.len() + 1 - i,
    {
        let mut k: usize = 0;
        let mut ok = true;
        while k < p.len()
            invariant
                0 <= k <= p@.len(),
                i + p@.len() <= s@.len(),
                ok == (forall|m: int| 0 <= m < k ==> s@[i + m] == p@[m]),
            decreases p@.len() - k,
        {
            assert(i + k < s.len());
            if s[i + k] != p[k] {
                ok = false;
            }
            k += 1;
        }
        if ok {
            assert(s@.subrange(i as int, i + p@.len()) =~= p@);
            return Some(i);
        } else {
            assert(!matches_at(s@, p@, i as int)) by {
                if matches_at(s@, p@, i as int) {
                    assert forall|m: int| 0 <= m < p@.len() implies s@[i + m] == p@[m] by {
                        assert(s@.subrange(i as int, i + p@.len())[m] == s@[i + m]);
                    }
                }
            }
        }
        i += 1;
    }
    None
}

/// The end of the white space starting at `i`.
fn skip_ws(s: &Vec<char>, i: usize) -> (r: usize)
    requires
        i <= s@.len(),
    ensures
        r == ws_end(s@, i as int),
        i <= r <= s@.len(),
{
    let mut k = i;
    while k < s.len() && char_is_white_space(s[k])
        invariant
            i <= k <= s@.len(),
            ws_end(s@, i as int) == ws_end(s@, k as int),
        decreases s@.len() - k,
    {
        k += 1;
    }
    k
}

/// Extracts the `"compilerOptions": { ... }` block's contents from JSON text,
/// or the whole input when there is none.
pub fn extract_compiler_options(json: &str) -> (r: &str)
    ensures
        r@ == compiler_options_spec(json@),
{
    let s = str_chars(json);
    let key = literal_chars("\"compilerOptions\"");
    proof {
        reveal_strlit("\"compilerOptions\"");
        assert(key@ =~= compiler_options_key());
    }
    let pos = match find_chars(&s, &key, 0) {
        Some(p) => p,
        None => return json,
    };
    proof { lemma_find_from_bounds(s@, key@, 0); }
    assert(pos + key.len() <= s.len());
    let a = skip_ws(&s, pos + key.len());
    if !(a < s.len() && s[a] == ':') {
        return json;
    }
    let c = skip_ws(&s, a + 1);
    if !(c < s.len() && s[c] == '{') {
        return json;
    }
    let mut depth: usize = 1;
    let mut in_string = false;
    let mut i = c + 1;
    proof { lemma_closing_brace_bounds(s@, (c + 1) as int, 1, false); }
    while i < s.len()
        invariant
            c + 1 <= i <= s@.len(),
            c < s@.len(),
            s@ == json@,
            1 <= depth <= i,
            compiler_options_spec(json@) == match closing_brace(s@, i as int, depth as int, in_string) {
                Some(e) => json@.subrange(c + 1, e),
                None => json@.skip(c + 1),
            },
        decreases s@.len() - i,
    {
        let ch = s[i];
        if in_string {
            if ch == '\\' && i + 1 < s.len() {
                i += 1;
            } else if ch == '"' {
                in_string = false;
            }
        } else if ch == '"' {
            in_string = true;
        } else if ch == '{' {
            depth += 1;
        } else if ch == '}' {
            if depth - 1 == 0 {
                return json.substring_char(c + 1, i);
            }
            depth -= 1;
        }
        i += 1;
    }
    assert(json@.skip(c + 1) == json@.subrange(c + 1, s@.len() as int));
    json.substring_char(c + 1, s.len())
}

/// The boolean value of the first `"name"` field of `json`, if the key is
/// followed by `:` and then `true` or `false` (white space allowed between).
pub open spec fn bool_field_spec(json: Seq<char>, name: Seq<char>) -> Option<bool> {
    let pat = seq!['"'] + name + seq!['"'];
    match find_from(json, pat, 0) {
        None => None,
        Some(pos) => {
            let a = ws_end(json, pos + pat.len());
            if a < json.len() && json[a] == ':' {
                let rest = json.skip(ws_end(json, a + 1));
                if has_prefix(rest, seq!['t', 'r', 'u', 'e']) {
                    Some(true)
                } else if has_prefix(rest, seq!['f', 'a', 'l', 's', 'e']) {
                    Some(false)
                } else {
                    None
                }
            } else {
                None
            }
        },
    }
}

/// Finds a boolean field value in JSON text by field name.
pub fn find_bool_field(json: &str, field_name: &str) -> (r: Option<bool>)
    ensures
        r == bool_field_spec(json@, field_name@),
{
    let s = str_chars(json);
    let name = str_chars(field_name);
    let mut pat: Vec<char> = Vec::new();
    pat.push('"');
    let mut k: usize = 0;
    while k < name.len()
        invariant
            0 <= k <= name@.len(),
            pat@ == seq!['"'] + name@.take(k as int),
        decreases name@.len() - k,
    {
        pat.push(name[k]);
        assert(name@.take(k + 1) == name@.take(k as int).push(name@[k as int]));
        k += 1;
    }
    pat.push('"');
    assert(name@.take(k as int) == name@);
    assert(pat@ == seq!['"'] + field_name@ + seq!['"']);
    let pos = match find_chars(&s, &pat, 0) {
        Some(p) => p,
        None => return None,
    };
    proof { lemma_find_from_bounds(s@, pat@, 0); }
    assert(pos + pat.len() <= s.len());
    let a = skip_ws(&s, pos + pat.len());
    if !(a < s.len() && s[a] == ':') {
        return None;
    }
    let c = skip_ws(&s, a + 1);
    let mut rest: Vec<char> = Vec::new();
    let mut i = c;
    while i < s.len()
        invariant
            c <= i <= s@.len(),
            rest@ == s@.subrange(c as int, i as int),
        decreases s@.len() - i,
    {
        rest.push(s[i]);
        assert(s@.subrange(c as int, i + 1) == s@.subrange(c as int, i as int).push(s@[i as int]));
        i += 1;
    }
    assert(rest@ == s@.skip(c as int));
    let t = literal_chars("true");
    let f = literal_chars("false");
    proof {
        reveal_strlit("true");
        reveal_strlit("false");
        assert(t@ =~= seq!['t', 'r', 'u', 'e']);
        assert(f@ =~= seq!['f', 'a', 'l', 's', 'e']);
    }
    if chars_starts_with(&rest, &t) {
        Some(true)
    } else if chars_starts_with(&rest, &f) {
        Some(false)
    } else {
        None
    }
}

/// `isolatedDeclarations`-related configuration of a `tsconfig.json`.
pub struct IsolatedDeclarationsConfig {
    pub isolated_declarations: bool,
    pub strip_internal: bool,
}

/// The characters of `isolatedDeclarations`.
pub open spec fn isolated_declarations_key() -> Seq<char> {
    seq!['i', 's', 'o', 'l', 'a', 't', 'e', 'd', 'D', 'e', 'c', 'l', 'a', 'r', 'a', 't', 'i', 'o', 'n', 's']
}

/// The characters of `stripInternal`.
pub open spec fn strip_internal_key() -> Seq<char> {
    seq!['s', 't', 'r', 'i', 'p', 'I', 'n', 't', 'e', 'r', 'n', 'a', 'l']
}

impl IsolatedDeclarationsConfig {
    /// Parses `tsconfig.json` content: comments and trailing commas are removed,
    /// the search is scoped to the `compilerOptions` block, and a field that is
    /// absent or not a boolean counts as `false`.
    pub fn parse(content: &str) -> (r: Self)
        ensures
            ({
                let opts = compiler_options_spec(strip_json_comments_spec(content@));
                &&& r.isolated_declarations == (bool_field_spec(opts, isolated_declarations_key()) == Some(true))
                &&& r.strip_internal == (bool_field_spec(opts, strip_internal_key()) == Some(true))
            }),
    {
        let stripped = strip_json_comments(content);
        let compiler_options = extract_compiler_options(stripped.as_str());
        let k1 = "isolatedDeclarations";
        let k2 = "stripInternal";
        proof {
            reveal_strlit("isolatedDeclarations");
            reveal_strlit("stripInternal");
            assert(k1@ =~= isolated_declarations_key());
            assert(k2@ =~= strip_internal_key());
        }
        let isolated_declarations = match find_bool_field(compiler_options, k1) {
            Some(b) => b,
            None => false,
        };
        let strip_internal = match find_bool_field(compiler_options, k2) {
            Some(b) => b,
            None => false,
        };
        IsolatedDeclarationsConfig { isolated_declarations, strip_internal }
    }
}

} // verus!
