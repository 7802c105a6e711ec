//! HyperList syntax coloring, matching the HyperList TUI 256-color scheme.
//!
//! A line is cut into spans, each with the role that decides its color:
//!   Red (196)     Properties (Name: ), multi-line +
//!   Green (46)    Qualifiers [...], semicolons
//!   Blue (33)     Operators (ALL-CAPS ending in colon-space), e.g. AND:
//!   Magenta (165) References <...>
//!   Cyan (51)     Parentheses (...), quoted strings "..."
//!   Yellow (226)  Substitutions {...}
//!   Orange (208)  Hash tags #tag
//! Emphasis markup `*bold*`, `_underline_` and `/italic/` loses its
//! delimiters and keeps the styling role.
use vstd::prelude::*;
use crate::text::{chars_of, lacks, string_of_range};

verus! {

/// What a span of a line is, which decides how it is drawn.
#[derive(Clone, Copy, Debug, PartialEq, Eq, Structural)]
pub enum Role {
    /// `ALL-CAPS: ` operator at the start of a line (bold blue).
    Operator,
    /// `Key: ` property chain at the start of a line, or a leading `+`.
    Property,
    /// `[...]` qualifier or `;` separator.
    Qualifier,
    /// `<...>` reference.
    Reference,
    /// `{...}` substitution.
    Substitution,
    /// `(...)` parenthesis.
    Parenthesis,
    /// `"..."` quoted string.
    Quoted,
    /// `#tag`.
    Tag,
    /// Text of `*bold*`.
    Bold,
    /// Text of `_underline_`.
    Underline,
    /// Text of `/italic/`.
    Italic,
    /// A character drawn as it is.
    Plain,
}

pub const C_PROPERTY: u8 = 196;
pub const C_QUALIFIER: u8 = 46;
pub const C_OPERATOR: u8 = 33;
pub const C_REFERENCE: u8 = 165;
pub const C_COMMENT: u8 = 51;
pub const C_STRING: u8 = 51;
pub const C_SUBST: u8 = 226;
pub const C_TAG: u8 = 208;

/// The 256-color foreground of a role, where it has one.
pub open spec fn spec_role_color(role: Role) -> Option<u8> {
    match role {
        Role::Operator => Some(C_OPERATOR),
        Role::Property => Some(C_PROPERTY),
        Role::Qualifier => Some(C_QUALIFIER),
        Role::Reference => Some(C_REFERENCE),
        Role::Substitution => Some(C_SUBST),
        Role::Parenthesis => Some(C_COMMENT),
        Role::Quoted => Some(C_STRING),
        Role::Tag => Some(C_TAG),
        _ => None,
    }
}

/// The 256-color foreground of a role, where it has one.
pub fn role_color(role: Role) -> (r: Option<u8>)
    ensures
        r == spec_role_color(role),
{
    match role {
        Role::Operator => Some(C_OPERATOR),
        Role::Property => Some(C_PROPERTY),
        Role::Qualifier => Some(C_QUALIFIER),
        Role::Reference => Some(C_REFERENCE),
        Role::Substitution => Some(C_SUBST),
        Role::Parenthesis => Some(C_COMMENT),
        Role::Quoted => Some(C_STRING),
        Role::Tag => Some(C_TAG),
        _ => None,
    }
}

/// One span of a colorized line.
#[derive(Clone, Debug)]
pub struct Span {
    pub role: Role,
    pub text: String,
}

/// What a [`Span`] holds.
#[verifier::ext_equal]
pub struct SpanModel {
    pub role: Role,
    pub text: Seq<char>,
}

impl View for Span {
    type V = SpanModel;

    open spec fn view(&self) -> SpanModel {
        SpanModel { role: self.role, text: self.text@ }
    }
}

/// The models of a sequence of spans.
pub open spec fn spans_model(spans: Seq<Span>) -> Seq<SpanModel> {
    spans.map_values(|s: Span| s@)
}

/// An optional index as an integer.
pub open spec fn opt_int(o: Option<usize>) -> Option<int> {
    match o {
        Some(e) => Some(e as int),
        None => None,
    }
}

// ---------------------------------------------------------------------------
// Character classes
// ---------------------------------------------------------------------------

/// Unicode's `Alphabetic` or `Numeric` property, as `char::is_alphanumeric`
/// checks it.
pub uninterp spec fn is_alnum(c: char) -> bool;

/// An ASCII letter or digit.
pub open spec fn is_ascii_alnum(c: char) -> bool {
    ('a' <= c <= 'z') || ('A' <= c <= 'Z') || ('0' <= c <= '9')
}

/// `char::is_alphanumeric`. Its result is named `is_alnum`; beyond that the
/// contract states only what holds for ASCII: letters and digits are
/// alphanumeric and no other ASCII character is.
#[verifier::external_body]
fn is_alphanumeric(c: char) -> (r: bool)
    ensures
        r == is_alnum(c),
        is_ascii_alnum(c) ==> r,
        (c as int) < 128 && !is_ascii_alnum(c) ==> !r,
{
    c.is_alphanumeric()
}

/// An ASCII upper-case letter.
pub open spec fn is_upper(c: char) -> bool {
    'A' <= c <= 'Z'
}

/// A character that may stand in an operator word.
pub open spec fn is_op_char(c: char) -> bool {
    is_upper(c) || c == '-' || c == '_' || ('0' <= c <= '9')
}

// ---------------------------------------------------------------------------
// Operators
// ---------------------------------------------------------------------------

/// End of the run of operator characters that starts at `i`.
pub open spec fn op_word_end(cs: Seq<char>, i: int) -> int
    decreases cs.len() - i,
{
    if 0 <= i < cs.len() && is_op_char(cs[i]) {
        op_word_end(cs, i + 1)
    } else {
        i
    }
}

/// `s` holds an ASCII upper-case letter.
pub open spec fn has_upper(s: Seq<char>) -> bool {
    exists|k: int| 0 <= k < s.len() && is_upper(#[trigger] s[k])
}

/// An operator at line start: a word of upper-case letters, digits, `-` and
/// `_` with at least one letter, followed by `": "`; the index just past the
/// space.
pub open spec fn spec_detect_operator(cs: Seq<char>) -> Option<int> {
    let w = op_word_end(cs, 0);
    if has_upper(cs.take(w)) && w + 1 < cs.len() && cs[w] == ':' && cs[w + 1] == ' ' {
        Some(w + 2)
    } else {
        None
    }
}

proof fn lemma_op_word_end(cs: Seq<char>, i: int)
    requires
        0 <= i <= cs.len(),
    ensures
        i <= op_word_end(cs, i) <= cs.len(),
        forall|k: int| i <= k < op_word_end(cs, i) ==> is_op_char(#[trigger] cs[k]),
        op_word_end(cs, i) < cs.len() ==> !is_op_char(cs[op_word_end(cs, i)]),
    decreases cs.len() - i,
{
    if i < cs.len() && is_op_char(cs[i]) {
        lemma_op_word_end(cs, i + 1);
    }
}

/// Detect an operator at line start: ALL-CAPS word followed by ": " (colon + space).
/// Returns the character index just past the trailing space on match.
pub fn detect_operator(chars: &[char]) -> (r: Option<usize>)
    ensures
        opt_int(r) == spec_detect_operator(chars@),
        r matches Some(k) ==> 2 <= k <= chars@.len(),
{
    let mut i: usize = 0;
    let mut seen_upper = false;
    while i < chars.len() && (('A' <= chars[i] && chars[i] <= 'Z') || chars[i] == '-' || chars[i]
        == '_' || ('0' <= chars[i] && chars[i] <= '9'))
        invariant
            i <= chars.len(),
            op_word_end(chars@, 0) == op_word_end(chars@, i as int),
            seen_upper == has_upper(chars@.take(i as int)),
        decreases chars.len() - i,
    {
        let ghost before = chars@.take(i as int);
        let ghost after = chars@.take(i + 1);
        proof {
            assert(after == before.push(chars@[i as int]));
            assert(after[i as int] == chars@[i as int]);
            if has_upper(before) {
                let k = choose|k: int| 0 <= k < before.len() && is_upper(#[trigger] before[k]);
                assert(after[k] == before[k]);
            }
            if has_upper(after) && !is_upper(chars@[i as int]) {
                let k = choose|k: int| 0 <= k < after.len() && is_upper(#[trigger] after[k]);
                assert(after[k] == before[k]);
            }
        }
        if 'A' <= chars[i] && chars[i] <= 'Z' {
            seen_upper = true;
        }
        i = i + 1;
    }
    if !seen_upper || i == 0 {
        return None;
    }
    if i < chars.len() && i + 1 < chars.len() && chars[i] == ':' && chars[i + 1] == ' ' {
        Some(i + 2)
    } else {
        None
    }
}

// ---------------------------------------------------------------------------
// Property chains
// ---------------------------------------------------------------------------

/// Characters that end a property scan with no match.
pub open spec fn is_seg_stop(c: char) -> bool {
    c == '\n' || c == '[' || c == '<' || c == '(' || c == '{' || c == '"'
}

/// Characters that end the look-ahead for another key.
pub open spec fn is_look_stop(c: char) -> bool {
    c == ' ' || c == '\n' || c == '[' || c == '<' || c == '(' || c == '{'
}

/// The first index at or after `i` that holds `':'` or a stop character, or
/// `cs.len()`.
pub open spec fn seg_end(cs: Seq<char>, i: int) -> int
    decreases cs.len() - i,
{
    if 0 <= i < cs.len() && !is_seg_stop(cs[i]) && cs[i] != ':' {
        seg_end(cs, i + 1)
    } else {
        i
    }
}

/// From `i` on, a `": "` comes before any look-ahead stop character.
pub open spec fn look_found(cs: Seq<char>, i: int) -> bool
    decreases cs.len() - i,
{
    if 0 <= i < cs.len() {
        if cs[i] == ':' && i + 1 < cs.len() && cs[i + 1] == ' ' {
            true
        } else if is_look_stop(cs[i]) {
            false
        } else {
            look_found(cs, i + 1)
        }
    } else {
        false
    }
}

pub proof fn lemma_seg_end(cs: Seq<char>, i: int)
    requires
        0 <= i <= cs.len(),
    ensures
        i <= seg_end(cs, i) <= cs.len(),
    decreases cs.len() - i,
{
    if i < cs.len() && !is_seg_stop(cs[i]) && cs[i] != ':' {
        lemma_seg_end(cs, i + 1);
    }
}

/// The property chain scan from segment start `i`, with `last` the end of the
/// chain matched so far.
pub open spec fn chain_from(cs: Seq<char>, i: int, last: int) -> Option<int>
    decreases cs.len() - i,
{
    if i < 0 || i > cs.len() {
        None
    } else {
        let k = seg_end(cs, i);
        if k >= cs.len() {
            if last > 0 {
                Some(last)
            } else {
                None
            }
        } else if is_seg_stop(cs[k]) {
            None
        } else if k + 1 < cs.len() && cs[k + 1] != ' ' {
            None
        } else if k == i {
            None
        } else {
            let ni = if k + 1 < cs.len() {
                k + 2
            } else {
                k + 1
            };
            proof {
                lemma_seg_end(cs, i);
            }
            if look_found(cs, ni) {
                chain_from(cs, ni, ni)
            } else {
                Some(ni)
            }
        }
    }
}

/// A property prefix at the start: one or more `"key: "` segments, chained
/// while the next word also ends in `": "`; the index just past the chain.
pub open spec fn spec_detect_property_chain(cs: Seq<char>) -> Option<int> {
    chain_from(cs, 0, 0)
}

/// The end of a segment scan that starts at `i`.
fn scan_segment(chars: &[char], i: usize) -> (k: usize)
    requires
        i <= chars.len(),
    ensures
        k as int == seg_end(chars@, i as int),
{
    let mut k = i;
    while k < chars.len() && !(chars[k] == '\n' || chars[k] == '[' || chars[k] == '<' || chars[k]
        == '(' || chars[k] == '{' || chars[k] == '"') && chars[k] != ':'
        invariant
            i <= k <= chars.len(),
            seg_end(chars@, i as int) == seg_end(chars@, k as int),
        decreases chars.len() - k,
    {
        k = k + 1;
    }
    k
}

/// Whether a `": "` comes before any look-ahead stop character from `i` on.
fn look_ahead(chars: &[char], i: usize) -> (r: bool)
    ensures
        r == look_found(chars@, i as int),
{
    let mut look = i;
    while look < chars.len()
        invariant
            i <= look,
            look_found(chars@, i as int) == look_found(chars@, look as int),
        decreases chars.len() - look,
    {
        let c = chars[look];
        if c == ':' && look + 1 < chars.len() && chars[look + 1] == ' ' {
            return true;
        }
        if c == ' ' || c == '\n' || c == '[' || c == '<' || c == '(' || c == '{' {
            return false;
        }
        look = look + 1;
    }
    false
}

/// Detect a property prefix at the start: one or more "key: " chains before
/// the line content begins. Matches patterns like `Name: value` or
/// `09.03: Silje: Opening` (colors the whole "09.03: Silje: " prefix).
pub fn detect_property_chain(chars: &[char]) -> (r: Option<usize>)
    ensures
        opt_int(r) == spec_detect_property_chain(chars@),
{
    let mut i: usize = 0;
    let mut last_match: usize = 0;
    loop
        invariant_except_break
            spec_detect_property_chain(chars@) == chain_from(chars@, i as int, last_match as int),
        invariant
            i <= chars.len(),
            last_match <= chars.len(),
        ensures
            spec_detect_property_chain(chars@) == (if last_match > 0 {
                Some(last_match as int)
            } else {
                None
            }),
        decreases chars.len() - i,
    {
        let k = scan_segment(chars, i);
        proof {
            lemma_seg_end(chars@, i as int);
        }
        if k >= chars.len() {
            break;
        }
        let c = chars[k];
        if c == '\n' || c == '[' || c == '<' || c == '(' || c == '{' || c == '"' {
            return None;
        }
        if k + 1 < chars.len() && chars[k + 1] != ' ' {
            return None;
        }
        if k == i {
            return None;
        }
        i = if k + 1 < chars.len() {
            k + 2
        } else {
            k + 1
        };
        last_match = i;
        if !look_ahead(chars, i) {
            break;
        }
    }
    if last_match > 0 {
        Some(last_match)
    } else {
        None
    }
}

// ---------------------------------------------------------------------------
// Bracket matching
// ---------------------------------------------------------------------------

/// The scan for the bracket that closes at nesting `depth`, from `i` on: the
/// first `close` that brings the count of `open`s minus `close`s (starting at
/// `depth`) down to zero.
pub open spec fn match_from(cs: Seq<char>, open: char, close: char, i: int, depth: int) -> Option<
    int,
>
    decreases cs.len() - i,
{
    if i < 0 || i >= cs.len() {
        None
    } else if cs[i] == open {
        match_from(cs, open, close, i + 1, depth + 1)
    } else if cs[i] == close {
        if depth - 1 == 0 {
            Some(i)
        } else {
            match_from(cs, open, close, i + 1, depth - 1)
        }
    } else {
        match_from(cs, open, close, i + 1, depth)
    }
}

/// The index of the `close` that balances the brackets counted from `start`.
pub open spec fn spec_find_matching(cs: Seq<char>, start: int, open: char, close: char) -> Option<
    int,
> {
    match_from(cs, open, close, start, 0)
}

pub proof fn lemma_match_from(cs: Seq<char>, open: char, close: char, i: int, depth: int)
    requires
        0 <= i,
    ensures
        match_from(cs, open, close, i, depth) matches Some(e) ==> i <= e < cs.len() && cs[e]
            == close,
    decreases cs.len() - i,
{
    if 0 <= i < cs.len() {
        if cs[i] == open {
            lemma_match_from(cs, open, close, i + 1, depth + 1);
        } else if cs[i] == close {
            lemma_match_from(cs, open, close, i + 1, depth - 1);
        } else {
            lemma_match_from(cs, open, close, i + 1, depth);
        }
    }
}

/// Index of the bracket that closes the one at `start`.
pub fn find_matching(chars: &[char], start: usize, open: char, close: char) -> (r: Option<usize>)
    ensures
        opt_int(r) == spec_find_matching(chars@, start as int, open, close),
{
    let mut depth: i128 = 0;
    let mut i = start;
    while i < chars.len()
        invariant
            start <= i,
            i <= chars.len() || i == start,
            -(i - start) <= depth <= i - start,
            spec_find_matching(chars@, start as int, open, close) == match_from(
                chars@,
                open,
                close,
                i as int,
                depth as int,
            ),
        decreases chars.len() - i,
    {
        if chars[i] == open {
            depth = depth + 1;
        } else if chars[i] == close {
            depth = depth - 1;
            if depth == 0 {
                return Some(i);
            }
        }
        i = i + 1;
    }
    None
}

/// The first index at or after `from` that holds `c`.
pub open spec fn find_char(cs: Seq<char>, c: char, from: int) -> Option<int>
    decreases cs.len() - from,
{
    if from < 0 || from >= cs.len() {
        None
    } else if cs[from] == c {
        Some(from)
    } else {
        find_char(cs, c, from + 1)
    }
}

pub proof fn lemma_find_char(cs: Seq<char>, c: char, from: int)
    requires
        0 <= from,
    ensures
        find_char(cs, c, from) matches Some(q) ==> from <= q < cs.len() && cs[q] == c,
    decreases cs.len() - from,
{
    if 0 <= from < cs.len() && cs[from] != c {
        lemma_find_char(cs, c, from + 1);
    }
}

/// The first index at or after `from` that holds `c`.
fn position_from(chars: &[char], c: char, from: usize) -> (r: Option<usize>)
    ensures
        opt_int(r) == find_char(chars@, c, from as int),
{
    let mut q = from;
    while q < chars.len()
        invariant
            from <= q,
            find_char(chars@, c, from as int) == find_char(chars@, c, q as int),
        decreases chars.len() - q,
    {
        if chars[q] == c {
            return Some(q);
        }
        q = q + 1;
    }
    None
}

// ---------------------------------------------------------------------------
// Tokens
// ---------------------------------------------------------------------------

/// A character that continues a `#tag`.
pub open spec fn is_tag_char(c: char) -> bool {
    is_alnum(c) || c == '_' || c == '-'
}

/// End of the tag characters that start at `j`.
pub open spec fn tag_end(cs: Seq<char>, j: int) -> int
    decreases cs.len() - j,
{
    if 0 <= j < cs.len() && is_tag_char(cs[j]) {
        tag_end(cs, j + 1)
    } else {
        j
    }
}

pub proof fn lemma_tag_end(cs: Seq<char>, j: int)
    requires
        0 <= j <= cs.len(),
    ensures
        j <= tag_end(cs, j) <= cs.len(),
    decreases cs.len() - j,
{
    if j < cs.len() && is_tag_char(cs[j]) {
        lemma_tag_end(cs, j + 1);
    }
}

/// One token of a line body, found at `i`: its role, the range `from..to`
/// of the characters it shows, and the index after it.
pub struct Token {
    pub role: Role,
    pub from: int,
    pub to: int,
    pub next: int,
}

/// A token that shows `from..to` and ends there.
pub open spec fn whole(role: Role, from: int, to: int) -> Token {
    Token { role, from, to, next: to }
}

/// A delimited emphasis at `i` that `c` closes: `c`, a character other than a
/// space (and, for italics, other than `/`), and a later `c`.
pub open spec fn emphasis_end(cs: Seq<char>, i: int, c: char) -> Option<int> {
    if cs[i] == c && i + 1 < cs.len() && cs[i + 1] != ' ' && (c != '/' || cs[i + 1] != '/') {
        find_char(cs, c, i + 1)
    } else {
        None
    }
}

/// The token at `i` (for `0 <= i < cs.len()`), tried in this order:
/// `[...]`, `<...>`, `{...}`, `(...)` with balanced nesting, `"..."`, `#tag`,
/// `;`, `*bold*`, `_underline_`, `/italic/`, and otherwise one plain character.
pub open spec fn token(cs: Seq<char>, i: int) -> Token {
    let c = cs[i];
    if c == '[' && spec_find_matching(cs, i, '[', ']') is Some {
        whole(Role::Qualifier, i, spec_find_matching(cs, i, '[', ']')->0 + 1)
    } else if c == '<' && spec_find_matching(cs, i, '<', '>') is Some {
        whole(Role::Reference, i, spec_find_matching(cs, i, '<', '>')->0 + 1)
    } else if c == '{' && spec_find_matching(cs, i, '{', '}') is Some {
        whole(Role::Substitution, i, spec_find_matching(cs, i, '{', '}')->0 + 1)
    } else if c == '(' && spec_find_matching(cs, i, '(', ')') is Some {
        whole(Role::Parenthesis, i, spec_find_matching(cs, i, '(', ')')->0 + 1)
    } else if c == '"' && find_char(cs, '"', i + 1) is Some {
        whole(Role::Quoted, i, find_char(cs, '"', i + 1)->0 + 1)
    } else if c == '#' && i + 1 < cs.len() && is_alnum(cs[i + 1]) {
        whole(Role::Tag, i, tag_end(cs, i + 1))
    } else if c == ';' {
        whole(Role::Qualifier, i, i + 1)
    } else if emphasis_end(cs, i, '*') is Some {
        let q = emphasis_end(cs, i, '*')->0;
        Token { role: Role::Bold, from: i + 1, to: q, next: q + 1 }
    } else if emphasis_end(cs, i, '_') is Some {
        let q = emphasis_end(cs, i, '_')->0;
        Token { role: Role::Underline, from: i + 1, to: q, next: q + 1 }
    } else if emphasis_end(cs, i, '/') is Some {
        let q = emphasis_end(cs, i, '/')->0;
        Token { role: Role::Italic, from: i + 1, to: q, next: q + 1 }
    } else {
        whole(Role::Plain, i, i + 1)
    }
}

/// A token lies inside the line and moves past `i`.
pub proof fn lemma_token(cs: Seq<char>, i: int)
    requires
        0 <= i < cs.len(),
    ensures
        i <= token(cs, i).from <= token(cs, i).to < token(cs, i).next + 1,
        i < token(cs, i).next <= cs.len(),
{
    lemma_match_from(cs, '[', ']', i, 0);
    lemma_match_from(cs, '<', '>', i, 0);
    lemma_match_from(cs, '{', '}', i, 0);
    lemma_match_from(cs, '(', ')', i, 0);
    lemma_find_char(cs, '"', i + 1);
    lemma_find_char(cs, '*', i + 1);
    lemma_find_char(cs, '_', i + 1);
    lemma_find_char(cs, '/', i + 1);
    if i + 1 <= cs.len() {
        lemma_tag_end(cs, i + 1);
    }
}

/// The span a token shows.
pub open spec fn token_span(cs: Seq<char>, t: Token) -> SpanModel {
    SpanModel { role: t.role, text: cs.subrange(t.from, t.to) }
}

/// The spans of the line body from `i` on.
pub open spec fn scan(cs: Seq<char>, i: int) -> Seq<SpanModel>
    decreases cs.len() - i,
{
    if i < 0 || i >= cs.len() {
        seq![]
    } else {
        let t = token(cs, i);
        proof {
            lemma_token(cs, i);
        }
        seq![token_span(cs, t)] + scan(cs, t.next)
    }
}

/// The spans of a whole line: an operator or else a property chain at the
/// start, or else a leading `+`, then the tokens of the rest.
pub open spec fn spec_colorize(cs: Seq<char>) -> Seq<SpanModel> {
    match spec_detect_operator(cs) {
        Some(e) => seq![SpanModel { role: Role::Operator, text: cs.take(e) }] + scan(cs, e),
        None => match spec_detect_property_chain(cs) {
            Some(e) => seq![SpanModel { role: Role::Property, text: cs.take(e) }] + scan(cs, e),
            None => if cs.len() > 0 && cs[0] == '+' {
                seq![SpanModel { role: Role::Property, text: seq!['+'] }] + scan(cs, 1)
            } else {
                scan(cs, 0)
            },
        },
    }
}

/// The token at `i`, computed: role, shown range and next index.
fn next_token(chars: &[char], i: usize) -> (r: (Role, usize, usize, usize))
    requires
        i < chars.len(),
    ensures
        r.0 == token(chars@, i as int).role,
        r.1 as int == token(chars@, i as int).from,
        r.2 as int == token(chars@, i as int).to,
        r.3 as int == token(chars@, i as int).next,
{
    proof {
        lemma_token(chars@, i as int);
    }
    let c = chars[i];
    if c == '[' {
        if let Some(end) = find_matching(chars, i, '[', ']') {
            return (Role::Qualifier, i, end + 1, end + 1);
        }
    }
    if c == '<' {
        if let Some(end) = find_matching(chars, i, '<', '>') {
            return (Role::Reference, i, end + 1, end + 1);
        }
    }
    if c == '{' {
        if let Some(end) = find_matching(chars, i, '{', '}') {
            return (Role::Substitution, i, end + 1, end + 1);
        }
    }
    if c == '(' {
        if let Some(end) = find_matching(chars, i, '(', ')') {
            return (Role::Parenthesis, i, end + 1, end + 1);
        }
    }
    if c == '"' {
        if let Some(q) = position_from(chars, '"', i + 1) {
            return (Role::Quoted, i, q + 1, q + 1);
        }
    }
    if c == '#' && i + 1 < chars.len() && is_alphanumeric(chars[i + 1]) {
        let mut j = i + 1;
        while j < chars.len() && (is_alphanumeric(chars[j]) || chars[j] == '_' || chars[j] == '-')
            invariant
                i + 1 <= j <= chars.len(),
                tag_end(chars@, (i + 1) as int) == tag_end(chars@, j as int),
            decreases chars.len() - j,
        {
            j = j + 1;
        }
        return (Role::Tag, i, j, j);
    }
    if c == ';' {
        return (Role::Qualifier, i, i + 1, i + 1);
    }
    if c == '*' && i + 1 < chars.len() && chars[i + 1] != ' ' {
        if let Some(q) = position_from(chars, '*', i + 1) {
            return (Role::Bold, i + 1, q, q + 1);
        }
    }
    if c == '_' && i + 1 < chars.len() && chars[i + 1] != ' ' {
        if let Some(q) = position_from(chars, '_', i + 1) {
            return (Role::Underline, i + 1, q, q + 1);
        }
    }
    if c == '/' && i + 1 < chars.len() && chars[i + 1] != ' ' && chars[i + 1] != '/' {
        if let Some(q) = position_from(chars, '/', i + 1) {
            return (Role::Italic, i + 1, q, q + 1);
        }
    }
    (Role::Plain, i, i + 1, i + 1)
}

/// Appends the span `chars[from..to]` with `role`.
fn push_span(out: &mut Vec<Span>, role: Role, chars: &Vec<char>, from: usize, to: usize)
    requires
        from <= to <= chars.len(),
    ensures
        spans_model(final(out)@) == spans_model(old(out)@).push(
            SpanModel { role, text: chars@.subrange(from as int, to as int) },
        ),
{
    let text = string_of_range(chars, from, to);
    let ghost before = out@;
    out.push(Span { role, text });
    assert(spans_model(out@) =~= spans_model(before).push(
        SpanModel { role, text: chars@.subrange(from as int, to as int) },
    ));
}

/// Colorize a single line of HyperList content: the spans it is drawn as.
pub fn colorize_line(line: &str) -> (spans: Vec<Span>)
    ensures
        spans_model(spans@) == spec_colorize(line@),
{
    let chars = chars_of(line);
    let mut out: Vec<Span> = Vec::new();
    if chars.len() == 0 {
        assert(spans_model(out@) =~= Seq::<SpanModel>::empty());
        return out;
    }
    let mut i: usize = 0;
    let slice = chars.as_slice();
    assert(spans_model(out@) =~= Seq::<SpanModel>::empty());
    if let Some(op_end) = detect_operator(slice) {
        push_span(&mut out, Role::Operator, &chars, 0, op_end);
        assert(chars@.subrange(0, op_end as int) == chars@.take(op_end as int));
        i = op_end;
    } else if let Some(prop_end) = detect_property_chain(slice) {
        proof {
            lemma_chain_positive(chars@, 0, 0);
        }
        push_span(&mut out, Role::Property, &chars, 0, prop_end);
        assert(chars@.subrange(0, prop_end as int) == chars@.take(prop_end as int));
        i = prop_end;
    }
    if i == 0 && chars[0] == '+' {
        push_span(&mut out, Role::Property, &chars, 0, 1);
        assert(chars@.subrange(0, 1) =~= seq!['+']);
        i = 1;
    }
    assert(spec_colorize(chars@) == spans_model(out@) + scan(chars@, i as int));
    while i < chars.len()
        invariant
            i <= chars.len(),
            slice@ == chars@,
            spec_colorize(chars@) == spans_model(out@) + scan(chars@, i as int),
        decreases chars.len() - i,
    {
        let (role, from, to, next) = next_token(slice, i);
        proof {
            lemma_token(chars@, i as int);
        }
        let ghost before = spans_model(out@);
        push_span(&mut out, role, &chars, from, to);
        assert(spans_model(out@) + scan(chars@, next as int) =~= before + scan(chars@, i as int));
        i = next;
    }
    out
}

/// A matched property chain ends past the start of the line.
proof fn lemma_chain_positive(cs: Seq<char>, i: int, last: int)
    requires
        0 <= i <= cs.len(),
        0 <= last <= cs.len(),
    ensures
        chain_from(cs, i, last) matches Some(e) ==> 0 < e <= cs.len(),
    decreases cs.len() - i,
{
    lemma_seg_end(cs, i);
    let k = seg_end(cs, i);
    if k < cs.len() && !is_seg_stop(cs[k]) && !(k + 1 < cs.len() && cs[k + 1] != ' ') && k != i {
        let ni = if k + 1 < cs.len() {
            k + 2
        } else {
            k + 1
        };
        if look_found(cs, ni) {
            lemma_chain_positive(cs, ni, ni);
        }
    }
}

/// The texts of the spans, one after another.
pub open spec fn spans_text(spans: Seq<SpanModel>) -> Seq<char>
    decreases spans.len(),
{
    if spans.len() == 0 {
        seq![]
    } else {
        spans[0].text + spans_text(spans.drop_first())
    }
}

/// The body scan from `i` shows the characters from `i` on unchanged when
/// no emphasis delimiter occurs in the line.
proof fn lemma_scan_text(cs: Seq<char>, i: int)
    requires
        0 <= i <= cs.len(),
        lacks(cs, '*'),
        lacks(cs, '_'),
        lacks(cs, '/'),
    ensures
        spans_text(scan(cs, i)) == cs.skip(i),
    decreases cs.len() - i,
{
    if i < cs.len() {
        lemma_token(cs, i);
        let t = token(cs, i);
        assert(cs[i] != '*' && cs[i] != '_' && cs[i] != '/');
        assert(t.from == i && t.to == t.next);
        lemma_scan_text(cs, t.next);
        let all = scan(cs, i);
        assert(all.drop_first() == scan(cs, t.next));
        assert(cs.skip(i) =~= cs.subrange(i, t.next) + cs.skip(t.next));
    } else {
        assert(cs.skip(i).len() == 0);
    }
}

/// A line without emphasis delimiters (`*`, `_`, `/`) is drawn with exactly
/// its own characters: colorizing only assigns roles to its parts.
pub proof fn lemma_colorize_keeps_text(cs: Seq<char>)
    requires
        lacks(cs, '*'),
        lacks(cs, '_'),
        lacks(cs, '/'),
    ensures
        spans_text(spec_colorize(cs)) == cs,
{
    let r = spec_colorize(cs);
    match spec_detect_operator(cs) {
        Some(e) => {
            lemma_op_word_end(cs, 0);
            lemma_scan_text(cs, e);
            assert(r.drop_first() == scan(cs, e));
            assert(cs =~= cs.take(e) + cs.skip(e));
        },
        None => match spec_detect_property_chain(cs) {
            Some(e) => {
                lemma_chain_positive(cs, 0, 0);
                lemma_scan_text(cs, e);
                assert(r.drop_first() == scan(cs, e));
                assert(cs =~= cs.take(e) + cs.skip(e));
            },
            None => {
                if cs.len() > 0 && cs[0] == '+' {
                    lemma_scan_text(cs, 1);
                    assert(r.drop_first() == scan(cs, 1));
                    assert(cs =~= seq!['+'] + cs.skip(1));
                } else {
                    lemma_scan_text(cs, 0);
                    assert(cs.skip(0) == cs);
                }
            },
        },
    }
}

/// `find_char` finds the first `c` at or after `from`.
proof fn lemma_find_char_first(cs: Seq<char>, c: char, from: int, q: int)
    requires
        0 <= from <= q < cs.len(),
        cs[q] == c,
        forall|k: int| from <= k < q ==> cs[k] != c,
    ensures
        find_char(cs, c, from) == Some(q),
    decreases q - from,
{
    if from < q {
        lemma_find_char_first(cs, c, from + 1, q);
    }
}

/// Emphasis: at a `*` (`_`, `/`) followed by a character other than a
/// space (and, for `/`, other than `/`), with a later `*` (`_`, `/`) at `q`
/// and none in between, the line shows one Bold (Underline, Italic) span of
/// everything in between, spaces and all, without the delimiters, and goes
/// on after `q`.
pub proof fn lemma_emphasis_span(cs: Seq<char>, i: int, q: int, c: char, role: Role)
    requires
        (c == '*' && role == Role::Bold) || (c == '_' && role == Role::Underline) || (c == '/' && role
            == Role::Italic),
        0 <= i < q < cs.len(),
        cs[i] == c,
        cs[q] == c,
        cs[i + 1] != ' ',
        c == '/' ==> cs[i + 1] != '/',
        forall|k: int| i < k < q ==> cs[k] != c,
    ensures
        scan(cs, i) == seq![SpanModel { role, text: cs.subrange(i + 1, q) }] + scan(cs, q + 1),
{
    if i + 1 < q {
        lemma_find_char_first(cs, c, i + 1, q);
    } else {
        assert(find_char(cs, c, i + 1) == Some(q));
    }
    lemma_token(cs, i);
    let t = token(cs, i);
    assert(t == Token { role, from: i + 1, to: q, next: q + 1 });
}

} // verus!
