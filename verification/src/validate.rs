//! Validation of the terminals that appear in a manifest.
//!
//! A *key* is the read side of a mapping, a *terminal* the write side.
//! Request keys are struct terminals and request values JSON terminals;
//! response sutures swap the two. Regular expressions (between backticks)
//! are allowed on the read side only. Brackets hold pythonic indices and
//! slices: `[N]`, `[start:end]`, `[start:end:step]`.
use vstd::prelude::*;
use crate::error::Error;
use crate::json::JsonValue;
use crate::pattern::{regex_builds, regex_error, regex_new};
use crate::schema::Direction;
use crate::text::{chars_of, contains_char, count_char, decimal, find_char, find_from, join3, parse_i64, spec_parse_i64, split_chars, split_on, string_from, sub_chars};

verus! {

/// Maximum length, in UTF-8 bytes, of a regex pattern between backticks.
pub const MAX_REGEX_LEN: usize = 200;

// ===========================================================================
// Specifications
// ===========================================================================

pub open spec fn is_ascii_alpha(c: char) -> bool {
    ('a' <= c <= 'z') || ('A' <= c <= 'Z')
}

pub open spec fn is_ascii_whitespace(c: char) -> bool {
    c == ' ' || c == '\t' || c == '\n' || c == '\x0C' || c == '\r'
}

/// The characters allowed in terminals: `[A-Za-z0-9_$.[\]:?/`^()\-+\\*|]`.
pub open spec fn spec_is_terminal_char(c: char) -> bool {
    is_ascii_alpha(c) || ('0' <= c <= '9') || c == '_' || c == '$' || c == '.' || c == '['
        || c == ']' || c == ':' || c == '?' || c == '/' || c == '`' || c == '^' || c == '('
        || c == ')' || c == '-' || c == '+' || c == '\\' || c == '*' || c == '|'
}

/// A JSON terminal starts with `/`.
pub open spec fn json_terminal_ok(s: Seq<char>) -> bool {
    s.len() > 0 && s[0] == '/'
}

pub open spec fn has_double_dot(s: Seq<char>) -> bool {
    exists|i: int| 0 <= i < s.len() - 1 && s[i] == '.' && #[trigger] s[i + 1] == '.'
}

/// A struct terminal starts with a letter, does not end with `.`, and has no `..`.
pub open spec fn struct_terminal_ok(s: Seq<char>) -> bool {
    s.len() > 0 && is_ascii_alpha(s[0]) && s.last() != '.' && !has_double_dot(s)
}

/// Every character outside backtick regions is a terminal character.
/// A character is inside a region when an odd number of backticks precede it.
pub open spec fn charset_ok(s: Seq<char>) -> bool {
    forall|i: int|
        0 <= i < s.len() && s[i] != '`' && count_char(#[trigger] s.take(i), '`') % 2 == 0
            ==> spec_is_terminal_char(s[i])
}

/// The number of bytes of `c` in UTF-8.
pub open spec fn utf8_width(c: char) -> nat {
    if (c as u32) < 0x80 {
        1
    } else if (c as u32) < 0x800 {
        2
    } else if (c as u32) < 0x10000 {
        3
    } else {
        4
    }
}

/// The number of bytes of `s` in UTF-8.
pub open spec fn utf8_len(s: Seq<char>) -> nat
    decreases s.len(),
{
    if s.len() == 0 {
        0
    } else {
        utf8_len(s.drop_last()) + utf8_width(s.last())
    }
}

/// No capturing group from position `i` on: every unescaped `(` is followed by `?`.
/// A backslash escapes the character after it.
pub open spec fn no_capture_from(p: Seq<char>, i: int) -> bool
    decreases p.len() + 2 - i,
{
    if i >= p.len() || i < 0 {
        true
    } else if p[i] == '\\' {
        no_capture_from(p, i + 2)
    } else if p[i] == '(' {
        i + 1 < p.len() && p[i + 1] == '?' && no_capture_from(p, i + 2)
    } else {
        no_capture_from(p, i + 1)
    }
}

/// A pattern anchored at both ends: `^pattern$`.
pub open spec fn anchored(p: Seq<char>) -> Seq<char> {
    seq!['^'] + p + seq!['$']
}

/// What a regex between backticks must satisfy.
pub open spec fn pattern_ok(p: Seq<char>) -> bool {
    p.len() > 0 && utf8_len(p) <= MAX_REGEX_LEN && no_capture_from(p, 0) && regex_builds(
        anchored(p),
    )
}

/// Every backtick from position `i` on has a partner, and each pattern
/// between a pair is acceptable.
pub open spec fn backticks_ok(s: Seq<char>, i: int) -> bool
    decreases s.len() - i,
{
    if i >= s.len() || i < 0 {
        true
    } else if s[i] == '`' {
        let close = find_from(s, '`', i + 1);
        proof {
            crate::text::lemma_find_from(s, '`', i + 1);
        }
        if close >= s.len() {
            false
        } else {
            pattern_ok(s.subrange(i + 1, close)) && backticks_ok(s, close + 1)
        }
    } else {
        backticks_ok(s, i + 1)
    }
}

/// The message for a capturing group.
pub open spec fn capture_err(full: Seq<char>) -> Seq<char> {
    "capturing groups not allowed in regex, use (?:...) instead, in terminal: '"@ + full + "'"@
}

/// The message for the first check a regex between backticks fails, inside
/// the terminal `full`.
pub open spec fn pattern_err(p: Seq<char>, full: Seq<char>) -> Seq<char> {
    if p.len() == 0 {
        "empty regex pattern not allowed in terminal: '"@ + full + "'"@
    } else if utf8_len(p) > MAX_REGEX_LEN {
        "regex pattern exceeds max length (200 chars) in terminal: '"@ + full + "'"@
    } else if !no_capture_from(p, 0) {
        capture_err(full)
    } else {
        "invalid regex `"@ + p + "` in terminal '"@ + full + "': "@ + regex_error(anchored(p))->0
    }
}

/// The message for the first backtick fault from position `i` on: a
/// backtick without partner (at its UTF-8 byte offset), or a pattern that
/// fails. Empty where there is none.
pub open spec fn backticks_err(s: Seq<char>, i: int) -> Seq<char>
    decreases s.len() - i,
{
    if i >= s.len() || i < 0 {
        Seq::empty()
    } else if s[i] == '`' {
        let close = find_from(s, '`', i + 1);
        proof {
            crate::text::lemma_find_from(s, '`', i + 1);
        }
        if close >= s.len() {
            "unmatched backtick at position "@ + decimal(capped_len(utf8_len(s.take(i))) as nat)
                + " in terminal: '"@ + s + "'"@
        } else if !pattern_ok(s.subrange(i + 1, close)) {
            pattern_err(s.subrange(i + 1, close), s)
        } else {
            backticks_err(s, close + 1)
        }
    } else {
        backticks_err(s, i + 1)
    }
}

/// The parts of a bracket expression, split on `:`, each a valid integer
/// where one is required, with a non-zero step.
pub open spec fn bracket_inner_ok(inner: Seq<char>) -> bool {
    let parts = split_on(inner, ':');
    &&& inner.len() > 0
    &&& !(exists|i: int| 0 <= i < inner.len() && is_ascii_whitespace(#[trigger] inner[i]))
    &&& parts.len() <= 3
    &&& parts.len() == 1 ==> spec_parse_i64(parts[0]) is Some
    &&& parts.len() >= 2 ==> (parts[0].len() > 0 ==> spec_parse_i64(parts[0]) is Some)
    &&& parts.len() >= 2 ==> (parts[1].len() > 0 ==> spec_parse_i64(parts[1]) is Some)
    &&& parts.len() == 3 ==> (parts[2].len() > 0 ==> (spec_parse_i64(parts[2]) is Some
        && spec_parse_i64(parts[2])->0 != 0))
}

/// A message about a bracket expression inside a terminal.
pub open spec fn bracket_msg(head: Seq<char>, inner: Seq<char>, full: Seq<char>) -> Seq<char> {
    head + " '["@ + inner + "]' in terminal: '"@ + full + "'"@
}

/// The message for a part of a bracket expression that is not an integer.
pub open spec fn int_part_msg(part: Seq<char>, full: Seq<char>, label: Seq<char>) -> Seq<char> {
    "invalid "@ + label + " '"@ + part + "' in bracket expression, expected integer, in terminal: '"@
        + full + "'"@
}

/// The message for the first check a bracket expression fails.
pub open spec fn bracket_inner_err(inner: Seq<char>, full: Seq<char>) -> Seq<char> {
    let parts = split_on(inner, ':');
    if inner.len() == 0 {
        "empty brackets '[]' not allowed in terminal: '"@ + full + "'"@
    } else if exists|i: int| 0 <= i < inner.len() && is_ascii_whitespace(#[trigger] inner[i]) {
        bracket_msg("whitespace not allowed inside brackets"@, inner, full)
    } else if parts.len() > 3 {
        bracket_msg("too many ':' in bracket expression"@, inner, full)
    } else if parts.len() == 1 {
        int_part_msg(parts[0], full, "index"@)
    } else if parts[0].len() > 0 && spec_parse_i64(parts[0]) is None {
        int_part_msg(parts[0], full, "start"@)
    } else if parts[1].len() > 0 && spec_parse_i64(parts[1]) is None {
        int_part_msg(parts[1], full, "end"@)
    } else if parts.len() == 3 && parts[2].len() > 0 && spec_parse_i64(parts[2]) is None {
        int_part_msg(parts[2], full, "step"@)
    } else {
        bracket_msg("step cannot be 0 in bracket expression"@, inner, full)
    }
}

/// The message for the first bracket fault from position `i` on, or empty.
pub open spec fn brackets_err(s: Seq<char>, i: int) -> Seq<char>
    decreases s.len() - i,
{
    if i >= s.len() || i < 0 {
        Seq::empty()
    } else if s[i] == '`' {
        let close = find_from(s, '`', i + 1);
        proof {
            crate::text::lemma_find_from(s, '`', i + 1);
        }
        if close >= s.len() {
            Seq::empty()
        } else {
            brackets_err(s, close + 1)
        }
    } else if s[i] == '[' {
        let close = find_from(s, ']', i + 1);
        let open = find_from(s, '[', i + 1);
        proof {
            crate::text::lemma_find_from(s, ']', i + 1);
        }
        if open < close {
            "nested brackets not allowed in terminal: '"@ + s + "'"@
        } else if close >= s.len() {
            "unclosed '[' in terminal: '"@ + s + "'"@
        } else if !bracket_inner_ok(s.subrange(i + 1, close)) {
            bracket_inner_err(s.subrange(i + 1, close), s)
        } else {
            brackets_err(s, close + 1)
        }
    } else if s[i] == ']' {
        "unexpected ']' without matching '[' in terminal: '"@ + s + "'"@
    } else {
        brackets_err(s, i + 1)
    }
}

/// From position `i` on (outside backtick regions), every `[` is closed by a
/// `]` with no `[` in between and a valid expression inside, and no `]`
/// stands alone.
pub open spec fn brackets_ok(s: Seq<char>, i: int) -> bool
    decreases s.len() - i,
{
    if i >= s.len() || i < 0 {
        true
    } else if s[i] == '`' {
        let close = find_from(s, '`', i + 1);
        proof {
            crate::text::lemma_find_from(s, '`', i + 1);
        }
        if close >= s.len() {
            true
        } else {
            brackets_ok(s, close + 1)
        }
    } else if s[i] == '[' {
        let close = find_from(s, ']', i + 1);
        let open = find_from(s, '[', i + 1);
        proof {
            crate::text::lemma_find_from(s, ']', i + 1);
        }
        if open < close || close >= s.len() {
            false
        } else {
            bracket_inner_ok(s.subrange(i + 1, close)) && brackets_ok(s, close + 1)
        }
    } else if s[i] == ']' {
        false
    } else {
        brackets_ok(s, i + 1)
    }
}

/// What `validate_key` accepts.
pub open spec fn key_ok(s: Seq<char>, d: Direction) -> bool {
    &&& s.len() > 0
    &&& match d {
        Direction::Request => struct_terminal_ok(s),
        Direction::Response => json_terminal_ok(s),
    }
    &&& charset_ok(s)
    &&& backticks_ok(s, 0)
    &&& brackets_ok(s, 0)
}

/// What `validate_terminal` accepts.
pub open spec fn terminal_ok(s: Seq<char>, d: Direction) -> bool {
    &&& s.len() > 0
    &&& match d {
        Direction::Request => json_terminal_ok(s),
        Direction::Response => struct_terminal_ok(s),
    }
    &&& charset_ok(s)
    &&& !s.contains('`')
    &&& brackets_ok(s, 0)
}


// ===========================================================================
// Helpers
// ===========================================================================

fn suture_error(a: &str, b: &str, c: &str) -> (e: Error)
    ensures
        e matches Error::Suture(m) && m@ == a@ + b@ + c@,
{
    Error::Suture(join3(a, b, c))
}

/// `ctx` and `mid`, then the terminal in quotes.
fn terminal_error(ctx: &str, mid: &str, s: &str) -> (e: Error)
    ensures
        e matches Error::Suture(m) && m@ == ctx@ + mid@ + s@ + "'"@,
{
    let mut m = join3(ctx, mid, s);
    proof {
        broadcast use vstd::string::group_string_axioms;
    }
    m.append("'");
    Error::Suture(m)
}

/// `head`, the bracket expression, then the terminal in quotes.
fn bracket_error(head: &str, inner: &str, full: &str) -> (e: Error)
    ensures
        e matches Error::Suture(m) && m@ == head@ + " '["@ + inner@ + "]' in terminal: '"@ + full@
            + "'"@,
{
    let mut m = join3(head, " '[", inner);
    proof {
        broadcast use vstd::string::group_string_axioms;
    }
    m.append("]' in terminal: '");
    m.append(full);
    m.append("'");
    Error::Suture(m)
}

/// The byte offset of character `i` in the UTF-8 form of `cs`.
///
/// The offset saturates at `usize::MAX`, which no string in memory reaches.
fn byte_offset(cs: &[char], i: usize) -> (r: usize)
    ensures
        r == capped_len(utf8_len(cs@.take(if i < cs@.len() { i as int } else { cs@.len() as int }))),
{
    let mut total: usize = 0;
    let mut j: usize = 0;
    while j < i && j < cs.len()
        invariant
            j <= cs@.len(),
            j <= i,
            total == capped_len(utf8_len(cs@.take(j as int))),
        decreases i - j,
    {
        let w = char_width(cs[j]);
        proof {
            assert(cs@.take(j as int + 1).drop_last() =~= cs@.take(j as int));
            assert(cs@.take(j as int + 1).last() == cs@[j as int]);
        }
        total = total.saturating_add(w);
        j = j + 1;
    }
    proof {
        if i < cs@.len() {
            assert(j == i);
        } else {
            assert(j == cs@.len());
        }
    }
    total
}

/// `n`, or `usize::MAX` where `n` is larger.
pub open spec fn capped_len(n: nat) -> usize {
    if n > usize::MAX {
        usize::MAX
    } else {
        n as usize
    }
}

/// The number of UTF-8 bytes of one character.
fn char_width(c: char) -> (r: usize)
    ensures
        r == utf8_width(c),
{
    if (c as u32) < 0x80 {
        1
    } else if (c as u32) < 0x800 {
        2
    } else if (c as u32) < 0x10000 {
        3
    } else {
        4
    }
}

// ===========================================================================
// Character whitelist
// ===========================================================================

/// Allowed characters in terminals (both JSON and struct).
pub fn is_terminal_char(c: char) -> (r: bool)
    ensures
        r == spec_is_terminal_char(c),
{
    ('a' <= c && c <= 'z') || ('A' <= c && c <= 'Z') || ('0' <= c && c <= '9') || c == '_' || c
        == '$' || c == '.' || c == '[' || c == ']' || c == ':' || c == '?' || c == '/' || c == '`'
        || c == '^' || c == '(' || c == ')' || c == '-' || c == '+' || c == '\\' || c == '*' || c
        == '|'
}

/// True when `s` holds a backtick.
pub fn contains_backtick(s: &str) -> (r: bool)
    ensures
        r == s@.contains('`'),
{
    let cs = chars_of(s);
    contains_char(&cs, '`')
}

// ===========================================================================
// JSON and struct terminals
// ===========================================================================

/// The message for a JSON terminal that does not start with `/`.
pub open spec fn json_terminal_err(s: Seq<char>, ctx: Seq<char>) -> Seq<char> {
    ctx + " must start with '/', got: '"@ + s + "'"@
}

/// The message for the first rule a struct terminal breaks.
pub open spec fn struct_terminal_err(s: Seq<char>, ctx: Seq<char>) -> Seq<char> {
    ctx + (if s.len() == 0 || !is_ascii_alpha(s[0]) {
        " must start with a letter, got: '"@
    } else if s.last() == '.' {
        " must not end with '.', got: '"@
    } else {
        " must not contain consecutive dots '..', got: '"@
    }) + s + "'"@
}

/// The message for the first rule a key breaks.
pub open spec fn key_err(s: Seq<char>, d: Direction) -> Seq<char> {
    if s.len() == 0 {
        "key must not be empty"@
    } else if !(match d {
        Direction::Request => struct_terminal_ok(s),
        Direction::Response => json_terminal_ok(s),
    }) {
        match d {
            Direction::Request => struct_terminal_err(s, "request key"@),
            Direction::Response => json_terminal_err(s, "response key"@),
        }
    } else if !charset_ok(s) {
        charset_err(s, 0)
    } else if !backticks_ok(s, 0) {
        backticks_err(s, 0)
    } else {
        brackets_err(s, 0)
    }
}

/// The message for the first rule a terminal breaks.
pub open spec fn terminal_err(s: Seq<char>, d: Direction) -> Seq<char> {
    if s.len() == 0 {
        "terminal must not be empty"@
    } else if !(match d {
        Direction::Request => json_terminal_ok(s),
        Direction::Response => struct_terminal_ok(s),
    }) {
        match d {
            Direction::Request => json_terminal_err(s, "request value"@),
            Direction::Response => struct_terminal_err(s, "response value"@),
        }
    } else if !charset_ok(s) {
        charset_err(s, 0)
    } else if s.contains('`') {
        "regex is not allowed on the write side, got: '"@ + s + "'"@
    } else {
        brackets_err(s, 0)
    }
}

/// A JSON terminal must start with `/`.
pub fn validate_json_terminal(s: &str, ctx: &str) -> (r: Result<(), Error>)
    ensures
        r is Ok <==> json_terminal_ok(s@),
        r is Err ==> (r matches Err(Error::Suture(m)) && m@ == json_terminal_err(s@, ctx@)),
{
    let cs = chars_of(s);
    if cs.len() == 0 || cs[0] != '/' {
        return Err(terminal_error(ctx, " must start with '/', got: '", s));
    }
    Ok(())
}

/// A struct terminal must start with a letter, must not end with `.`, and
/// must not contain `..`.
pub fn validate_struct_terminal(s: &str, ctx: &str) -> (r: Result<(), Error>)
    ensures
        r is Ok <==> struct_terminal_ok(s@),
        r is Err ==> (r matches Err(Error::Suture(m)) && m@ == struct_terminal_err(s@, ctx@)),
{
    let cs = chars_of(s);
    let n = cs.len();
    if n == 0 || !(('a' <= cs[0] && cs[0] <= 'z') || ('A' <= cs[0] && cs[0] <= 'Z')) {
        return Err(terminal_error(ctx, " must start with a letter, got: '", s));
    }
    if cs[n - 1] == '.' {
        return Err(terminal_error(ctx, " must not end with '.', got: '", s));
    }
    let mut i: usize = 0;
    while i < n - 1
        invariant
            n == cs@.len(),
            cs@ == s@,
            n >= 1,
            i <= n - 1,
            is_ascii_alpha(s@[0]),
            s@.last() != '.',
            forall|j: int| 0 <= j < i && j < n - 1 ==> !(cs@[j] == '.' && #[trigger] cs@[j + 1] == '.'),
        decreases n - i,
    {
        if cs[i] == '.' && cs[i + 1] == '.' {
            return Err(terminal_error(ctx, " must not contain consecutive dots '..', got: '", s));
        }
        i = i + 1;
    }
    assert(!has_double_dot(s@)) by {
        if has_double_dot(s@) {
            let k = choose|k: int| 0 <= k < s@.len() - 1 && s@[k] == '.' && #[trigger] s@[k + 1]
                == '.';
            assert(!(cs@[k] == '.' && cs@[k + 1] == '.'));
        }
    }
    Ok(())
}

// ===========================================================================
// Character whitelist over a whole terminal
// ===========================================================================

/// The message for the first character from position `i` on that stands
/// outside backtick regions and is no terminal character (its position
/// given as a UTF-8 byte offset), or empty.
pub open spec fn charset_err(s: Seq<char>, i: int) -> Seq<char>
    decreases s.len() - i,
{
    if i >= s.len() || i < 0 {
        Seq::empty()
    } else if s[i] != '`' && count_char(s.take(i), '`') % 2 == 0 && !spec_is_terminal_char(s[i]) {
        "invalid character '"@ + seq![s[i]] + "' at position "@ + decimal(
            capped_len(utf8_len(s.take(i))) as nat,
        ) + " in terminal: '"@ + s + "'"@
    } else {
        charset_err(s, i + 1)
    }
}

/// Every character outside backtick regions must be a terminal character.
pub fn validate_charset(s: &str) -> (r: Result<(), Error>)
    ensures
        r is Ok <==> charset_ok(s@),
        r is Err ==> (r matches Err(Error::Suture(m)) && m@ == charset_err(s@, 0)),
{
    let cs = chars_of(s);
    let n = cs.len();
    let mut in_backtick = false;
    let mut pos: usize = 0;
    let mut i: usize = 0;
    while i < n
        invariant
            n == cs@.len(),
            cs@ == s@,
            i <= n,
            in_backtick == (count_char(s@.take(i as int), '`') % 2 == 1),
            forall|j: int|
                0 <= j < i && s@[j] != '`' && count_char(#[trigger] s@.take(j), '`') % 2 == 0
                    ==> spec_is_terminal_char(s@[j]),
            charset_err(s@, 0) == charset_err(s@, i as int),
            pos == capped_len(utf8_len(s@.take(i as int))),
        decreases n - i,
    {
        let c = cs[i];
        assert(s@.take(i + 1).drop_last() =~= s@.take(i as int));
        assert(s@.take(i + 1).last() == c);
        if c == '`' {
            in_backtick = !in_backtick;
        } else if !in_backtick && !is_terminal_char(c) {
            proof {
                broadcast use vstd::string::group_string_axioms;
            }
            let mut one: Vec<char> = Vec::new();
            one.push(c);
            let cstr = string_from(one.as_slice());
            let at = crate::text::decimal_text(pos);
            let mut m = join3("invalid character '", cstr.as_str(), "' at position ");
            m.append(at.as_str());
            m.append(" in terminal: '");
            m.append(s);
            m.append("'");
            assert(one@ =~= seq![s@[i as int]]);
            return Err(Error::Suture(m));
        }
        pos = pos.saturating_add(char_width(c));
        i = i + 1;
    }
    assert(s@.take(n as int) =~= s@);
    Ok(())
}

// ===========================================================================
// Backtick / regex validation
// ===========================================================================

/// Reject capturing groups: only `(?...)` groups are allowed.
pub fn validate_no_capturing_groups(pattern: &str, full: &str) -> (r: Result<(), Error>)
    ensures
        r is Ok <==> no_capture_from(pattern@, 0),
        r is Err ==> (r matches Err(Error::Suture(m)) && m@ == capture_err(full@)),
{
    let cs = chars_of(pattern);
    let n = cs.len();
    let mut i: usize = 0;
    while i < n
        invariant
            n == cs@.len(),
            cs@ == pattern@,
            no_capture_from(pattern@, 0) == no_capture_from(pattern@, i as int),
        decreases n - i,
    {
        if cs[i] == '\\' {
            if i + 1 >= n {
                assert(no_capture_from(pattern@, i + 2));
                return Ok(());
            }
            i = i + 2;
        } else if cs[i] == '(' {
            if i + 1 < n && cs[i + 1] == '?' {
                if i + 1 >= n {
                    return Ok(());
                }
                i = i + 2;
            } else {
                return Err(
                    suture_error(
                        "capturing groups not allowed in regex, use (?:...) instead, in terminal: '",
                        full,
                        "'",
                    ),
                );
            }
        } else {
            i = i + 1;
        }
    }
    Ok(())
}

/// The UTF-8 length of `s`.
fn utf8_length(s: &[char]) -> (r: usize)
    requires
        s@.len() <= 1000,
    ensures
        r == utf8_len(s@),
{
    let mut total: usize = 0;
    let mut i: usize = 0;
    while i < s.len()
        invariant
            i <= s@.len() <= 1000,
            total == utf8_len(s@.take(i as int)),
            total <= 4 * i,
        decreases s@.len() - i,
    {
        assert(s@.take(i + 1).drop_last() =~= s@.take(i as int));
        total = total + char_width(s[i]);
        i = i + 1;
    }
    assert(s@.take(s@.len() as int) =~= s@);
    total
}

proof fn lemma_utf8_len_at_least(s: Seq<char>)
    ensures
        utf8_len(s) >= s.len(),
    decreases s.len(),
{
    if s.len() > 0 {
        lemma_utf8_len_at_least(s.drop_last());
    }
}

/// Check one regex pattern found between backticks.
fn validate_pattern(pat: &[char], s: &str) -> (r: Result<(), Error>)
    ensures
        r is Ok <==> pattern_ok(pat@),
        r is Err ==> (r matches Err(Error::Suture(m)) && m@ == pattern_err(pat@, s@)),
{
    if pat.len() == 0 {
        return Err(suture_error("empty regex pattern not allowed in terminal: '", s, "'"));
    }
    if pat.len() > MAX_REGEX_LEN {
        proof {
            lemma_utf8_len_at_least(pat@);
        }
        return Err(
            suture_error(
                "regex pattern exceeds max length (200 chars) in terminal: '",
                s,
                "'",
            ),
        );
    }
    if utf8_length(pat) > MAX_REGEX_LEN {
        return Err(
            suture_error(
                "regex pattern exceeds max length (200 chars) in terminal: '",
                s,
                "'",
            ),
        );
    }
    let pattern = string_from(pat);
    validate_no_capturing_groups(pattern.as_str(), s)?;
    let mut src: Vec<char> = Vec::new();
    src.push('^');
    let mut i: usize = 0;
    while i < pat.len()
        invariant
            i <= pat@.len(),
            src@ == seq!['^'] + pat@.take(i as int),
        decreases pat@.len() - i,
    {
        src.push(pat[i]);
        i = i + 1;
        assert(src@ =~= seq!['^'] + pat@.take(i as int));
    }
    src.push('$');
    assert(pat@.take(pat@.len() as int) =~= pat@);
    assert(src@ =~= anchored(pat@));
    let source = string_from(&src);
    match regex_new(source.as_str()) {
        Ok(_) => Ok(()),
        Err(e) => {
            proof {
                broadcast use vstd::string::group_string_axioms;
            }
            let mut m = join3("invalid regex `", pattern.as_str(), "` in terminal '");
            m.append(s);
            m.append("': ");
            m.append(e.as_str());
            Err(Error::Suture(m))
        },
    }
}

/// Validate all backtick-delimited regex segments in a terminal: balanced
/// backticks, no empty pattern, at most 200 bytes, no capturing groups, and
/// the anchored pattern must compile.
pub fn validate_backticks(s: &str) -> (r: Result<(), Error>)
    ensures
        r is Ok <==> backticks_ok(s@, 0),
        r is Err ==> (r matches Err(Error::Suture(m)) && m@ == backticks_err(s@, 0)),
{
    let cs = chars_of(s);
    let n = cs.len();
    let mut i: usize = 0;
    while i < n
        invariant
            n == cs@.len(),
            cs@ == s@,
            i <= n,
            backticks_ok(s@, 0) == backticks_ok(s@, i as int),
            backticks_err(s@, 0) == backticks_err(s@, i as int),
        decreases n - i,
    {
        if cs[i] == '`' {
            let close = find_char(&cs, '`', i + 1);
            if close >= n {
                let at = crate::text::decimal_text(byte_offset(&cs, i));
                let head = join3("unmatched backtick at position ", at.as_str(), " in terminal: '");
                return Err(suture_error(head.as_str(), s, "'"));
            }
            let pat = sub_chars(&cs, i + 1, close);
            validate_pattern(&pat, s)?;
            i = close + 1;
        } else {
            i = i + 1;
        }
    }
    Ok(())
}

// ===========================================================================
// Bracket / pythonic iterator validation
// ===========================================================================

/// Validate that a slice part is a valid integer; returns its value.
pub fn validate_int_part(part: &str, full: &str, label: &str) -> (r: Result<i64, Error>)
    ensures
        match r {
            Ok(n) => spec_parse_i64(part@) == Some(n),
            Err(e) => spec_parse_i64(part@) is None && (e matches Error::Suture(m) && m@ == "invalid "@
                + label@ + " '"@ + part@ + "' in bracket expression, expected integer, in terminal: '"@
                + full@ + "'"@),
        },
{
    proof {
        broadcast use vstd::string::group_string_axioms;
    }
    let cs = chars_of(part);
    match parse_i64(&cs) {
        Some(n) => Ok(n),
        None => {
            let mut m = join3("invalid ", label, " '");
            m.append(part);
            m.append("' in bracket expression, expected integer, in terminal: '");
            m.append(full);
            m.append("'");
            Err(Error::Suture(m))
        },
    }
}

/// Validate the contents between `[` and `]`.
pub fn validate_bracket_inner(inner: &str, full: &str) -> (r: Result<(), Error>)
    ensures
        r is Ok <==> bracket_inner_ok(inner@),
        r is Err ==> (r matches Err(Error::Suture(m)) && m@ == bracket_inner_err(inner@, full@)),
{
    let cs = chars_of(inner);
    if cs.len() == 0 {
        return Err(suture_error("empty brackets '[]' not allowed in terminal: '", full, "'"));
    }
    let mut i: usize = 0;
    while i < cs.len()
        invariant
            cs@ == inner@,
            i <= cs@.len(),
            forall|j: int| 0 <= j < i ==> !is_ascii_whitespace(#[trigger] cs@[j]),
        decreases cs@.len() - i,
    {
        let c = cs[i];
        if c == ' ' || c == '\t' || c == '\n' || c == '\x0C' || c == '\r' {
            return Err(bracket_error("whitespace not allowed inside brackets", inner, full));
        }
        i = i + 1;
    }
    let parts = split_chars(&cs, ':');
    proof {
        crate::text::lemma_split_on_len(inner@, ':');
    }
    if parts.len() > 3 {
        return Err(bracket_error("too many ':' in bracket expression", inner, full));
    }
    if parts.len() == 1 {
        let p0 = string_from(&parts[0]);
        match validate_int_part(p0.as_str(), full, "index") {
            Ok(_) => {},
            Err(e) => return Err(e),
        }
        return Ok(());
    }
    if parts[0].len() > 0 {
        let p0 = string_from(&parts[0]);
        match validate_int_part(p0.as_str(), full, "start") {
            Ok(_) => {},
            Err(e) => return Err(e),
        }
    }
    if parts[1].len() > 0 {
        let p1 = string_from(&parts[1]);
        match validate_int_part(p1.as_str(), full, "end") {
            Ok(_) => {},
            Err(e) => return Err(e),
        }
    }
    if parts.len() == 3 && parts[2].len() > 0 {
        let p2 = string_from(&parts[2]);
        let step = match validate_int_part(p2.as_str(), full, "step") {
            Ok(v) => v,
            Err(e) => return Err(e),
        };
        if step == 0 {
            return Err(bracket_error("step cannot be 0 in bracket expression", inner, full));
        }
    }
    Ok(())
}

/// Validate every bracket expression outside backtick regions.
pub fn validate_brackets(s: &str) -> (r: Result<(), Error>)
    ensures
        r is Ok <==> brackets_ok(s@, 0),
        r is Err ==> (r matches Err(Error::Suture(m)) && m@ == brackets_err(s@, 0)),
{
    let cs = chars_of(s);
    let n = cs.len();
    let mut i: usize = 0;
    while i < n
        invariant
            n == cs@.len(),
            cs@ == s@,
            i <= n,
            brackets_ok(s@, 0) == brackets_ok(s@, i as int),
            brackets_err(s@, 0) == brackets_err(s@, i as int),
        decreases n - i,
    {
        if cs[i] == '`' {
            let close = find_char(&cs, '`', i + 1);
            if close >= n {
                return Ok(());
            }
            i = close + 1;
        } else if cs[i] == '[' {
            let close = find_char(&cs, ']', i + 1);
            let open = find_char(&cs, '[', i + 1);
            if open < close {
                return Err(suture_error("nested brackets not allowed in terminal: '", s, "'"));
            }
            if close >= n {
                return Err(suture_error("unclosed '[' in terminal: '", s, "'"));
            }
            let inner = string_from(&sub_chars(&cs, i + 1, close));
            match validate_bracket_inner(inner.as_str(), s) {
                Ok(()) => {},
                Err(e) => return Err(e),
            }
            i = close + 1;
        } else if cs[i] == ']' {
            return Err(
                suture_error("unexpected ']' without matching '[' in terminal: '", s, "'"),
            );
        } else {
            i = i + 1;
        }
    }
    Ok(())
}

// ===========================================================================
// Keys and terminals
// ===========================================================================

/// Validate a key (read side). Request keys are struct terminals, response
/// keys JSON terminals; regex and pythonic iterators are allowed.
pub fn validate_key(key: &str, direction: &Direction) -> (r: Result<(), Error>)
    ensures
        r is Ok <==> key_ok(key@, *direction),
        r is Err ==> (r matches Err(Error::Suture(m)) && m@ == key_err(key@, *direction)),
{
    if key.unicode_len() == 0 {
        return Err(Error::Suture("key must not be empty".to_string()));
    }
    let first = match direction {
        Direction::Request => validate_struct_terminal(key, "request key"),
        Direction::Response => validate_json_terminal(key, "response key"),
    };
    match first {
        Ok(()) => {},
        Err(e) => return Err(e),
    }
    match validate_charset(key) {
        Ok(()) => {},
        Err(e) => return Err(e),
    }
    match validate_backticks(key) {
        Ok(()) => {},
        Err(e) => return Err(e),
    }
    validate_brackets(key)
}

/// Validate a terminal (write side). Request values are JSON terminals,
/// response values struct terminals; regex is forbidden.
pub fn validate_terminal(s: &str, direction: &Direction) -> (r: Result<(), Error>)
    ensures
        r is Ok <==> terminal_ok(s@, *direction),
        r is Err ==> (r matches Err(Error::Suture(m)) && m@ == terminal_err(s@, *direction)),
{
    if s.unicode_len() == 0 {
        return Err(Error::Suture("terminal must not be empty".to_string()));
    }
    let first = match direction {
        Direction::Request => validate_json_terminal(s, "request value"),
        Direction::Response => validate_struct_terminal(s, "response value"),
    };
    match first {
        Ok(()) => {},
        Err(e) => return Err(e),
    }
    match validate_charset(s) {
        Ok(()) => {},
        Err(e) => return Err(e),
    }
    if contains_backtick(s) {
        return Err(suture_error("regex is not allowed on the write side, got: '", s, "'"));
    }
    validate_brackets(s)
}

/// Any JSON value is an acceptable constant.
pub fn validate_constant(_val: &JsonValue) -> (r: Result<(), Error>)
    ensures
        r is Ok,
{
    Ok(())
}

} // verus!
