//! Text shaping for the viewer: scrolling, markup and escape-sequence
//! stripping, truncation, `~` expansion and the config's fold level.
use vstd::prelude::*;
use crate::text::{chars_of, push_char, string_of, trim, trim_chars};
use crate::highlight::{detect_operator, spec_detect_operator};

verus! {

// ---------------------------------------------------------------------------
// Scrolling
// ---------------------------------------------------------------------------

/// First row shown when row `idx` of `total` rows is selected in a window of
/// `h` rows: everything fits, or the selection is kept centered without
/// scrolling past either end.
pub open spec fn spec_scroll_offset(idx: int, total: int, h: int) -> int {
    if total <= h {
        0
    } else {
        let half = h / 2;
        if idx < half {
            0
        } else if idx + half >= total {
            total - h
        } else {
            idx - half
        }
    }
}

/// First row to show so that the selected row stays in view.
pub fn scroll_offset(idx: usize, total: usize, h: usize) -> (off: usize)
    requires
        idx + h / 2 <= usize::MAX,
    ensures
        off == spec_scroll_offset(idx as int, total as int, h as int),
        total <= h ==> off == 0,
        0 < h && idx < total ==> off <= idx < off + h,
        h < total ==> off + h <= total,
{
    if total <= h {
        return 0;
    }
    let half = h / 2;
    if idx < half {
        0
    } else if idx + half >= total {
        total - h
    } else {
        idx - half
    }
}

// ---------------------------------------------------------------------------
// Markup
// ---------------------------------------------------------------------------

/// The emphasis delimiters of HyperList: `*`, `/` and `_`.
pub open spec fn is_emphasis(c: char) -> bool {
    c == '*' || c == '/' || c == '_'
}

/// `s` with every emphasis delimiter removed.
pub open spec fn drop_emphasis(s: Seq<char>) -> Seq<char>
    decreases s.len(),
{
    if s.len() == 0 {
        seq![]
    } else {
        drop_emphasis(s.drop_last()) + (if is_emphasis(s.last()) {
            seq![]
        } else {
            seq![s.last()]
        })
    }
}

/// The mark inside a checkbox: `_` (open), `x`/`X` (done), `O` (in
/// progress), `-` or a space.
pub open spec fn is_checkbox_mark(c: char) -> bool {
    c == '_' || c == 'x' || c == 'X' || c == 'O' || c == '-' || c == ' '
}

/// `t` starts with a checkbox token such as `[_]` or `[x]`.
pub open spec fn starts_with_checkbox(t: Seq<char>) -> bool {
    t.len() >= 3 && t[0] == '[' && is_checkbox_mark(t[1]) && t[2] == ']'
}

/// `t` without the colon of an operator it starts with (`AND: x` becomes
/// `AND x`), the operator as `detect_operator` finds it.
pub open spec fn drop_operator_colon(t: Seq<char>) -> Seq<char> {
    match spec_detect_operator(t) {
        Some(k) => t.take(k - 2) + t.skip(k - 1),
        None => t,
    }
}

/// The text a breadcrumb or popup shows of `s`: leading white space and a
/// leading checkbox token with the white space after it go, then the colon
/// of a leading operator, then
/// every emphasis delimiter, then surrounding white space.
pub open spec fn spec_strip_markup(s: Seq<char>) -> Seq<char> {
    let u = crate::text::trim_start(s);
    let body = if starts_with_checkbox(u) {
        crate::text::trim_start(u.skip(3))
    } else {
        u
    };
    trim(drop_emphasis(drop_operator_colon(body)))
}

/// Strip HyperList markup for breadcrumb / popup display where ANSI styling
/// isn't applied: a leading checkbox token (`[_]`, `[x]`, …) and the colon
/// of a leading operator (`AND: `) so the topic word shows, the emphasis
/// delimiters of bold `*…*`, italic `/…/` and underline `_…_`, and
/// surrounding white space.
pub fn strip_markup(s: &str) -> (r: String)
    ensures
        r@ == spec_strip_markup(s@),
{
    let chars = chars_of(s);
    let k = crate::text::lead_ws_len(&chars);
    proof {
        crate::text::lemma_lead_ws(chars@, 0);
    }
    let ghost u = chars@.skip(k as int);
    let mut start = k;
    if chars.len() - k >= 3 && chars[k] == '[' && (chars[k + 1] == '_' || chars[k + 1] == 'x'
        || chars[k + 1] == 'X' || chars[k + 1] == 'O' || chars[k + 1] == '-' || chars[k + 1] == ' ')
        && chars[k + 2] == ']' {
        start = k + 3;
        assert(u.skip(3) == chars@.skip(start as int));
    } else {
        assert(!starts_with_checkbox(u)) by {
            if starts_with_checkbox(u) {
                assert(u[0] == chars@[k as int]);
                assert(u[1] == chars@[k + 1]);
                assert(u[2] == chars@[k + 2]);
            }
        }
    }
    let rest = crate::text::slice_chars(&chars, start, chars.len());
    assert(rest@ == chars@.skip(start as int));
    let with_op = if start > k {
        crate::text::trim_start_chars(&rest)
    } else {
        rest
    };
    let body = match detect_operator(with_op.as_slice()) {
        Some(k) => {
            let mut head = crate::text::slice_chars(&with_op, 0, k - 2);
            let mut tail = crate::text::slice_chars(&with_op, k - 1, with_op.len());
            head.append(&mut tail);
            assert(head@ =~= drop_operator_colon(with_op@));
            head
        },
        None => with_op,
    };
    let mut kept: Vec<char> = Vec::new();
    let mut i: usize = 0;
    assert(body@.take(0).len() == 0);
    while i < body.len()
        invariant
            i <= body.len(),
            kept@ == drop_emphasis(body@.take(i as int)),
        decreases body.len() - i,
    {
        let c = body[i];
        assert(body@.take(i + 1).drop_last() == body@.take(i as int));
        assert(body@.take(i + 1).last() == c);
        if !(c == '*' || c == '/' || c == '_') {
            kept.push(c);
        }
        assert(kept@ =~= drop_emphasis(body@.take(i + 1)));
        i = i + 1;
    }
    assert(body@.take(i as int) == body@);
    let t = trim_chars(&kept);
    string_of(&t)
}

/// At most `n` characters of `s`; a longer `s` is cut to `n` and gets `…`.
pub open spec fn spec_first_n_chars(s: Seq<char>, n: int) -> Seq<char> {
    if s.len() > n {
        s.take(n) + seq!['…']
    } else {
        s
    }
}

/// The first `n` characters of `s`, with `…` appended when `s` is longer.
pub fn first_n_chars(s: &str, n: usize) -> (r: String)
    ensures
        r@ == spec_first_n_chars(s@, n as int),
{
    let chars = chars_of(s);
    let mut out = String::new();
    let mut count: usize = 0;
    while count < chars.len()
        invariant
            count <= chars.len(),
            count <= n,
            chars@ == s@,
            out@ == chars@.take(count as int),
        decreases chars.len() - count,
    {
        if count >= n {
            push_char(&mut out, '…');
            assert(out@ =~= chars@.take(n as int) + seq!['…']);
            return out;
        }
        push_char(&mut out, chars[count]);
        assert(chars@.take(count + 1) == chars@.take(count as int).push(chars@[count as int]));
        count = count + 1;
    }
    assert(chars@.take(count as int) == chars@);
    out
}

// ---------------------------------------------------------------------------
// Escape sequences
// ---------------------------------------------------------------------------

/// A CSI final character (0x40..=0x7E).
pub open spec fn is_csi_final(c: char) -> bool {
    '@' <= c && c <= '~'
}

/// The first index at or after `j` that holds a CSI final character, or
/// `cs.len()`.
pub open spec fn csi_stop(cs: Seq<char>, j: int) -> int
    decreases cs.len() - j,
{
    if 0 <= j < cs.len() && !is_csi_final(cs[j]) {
        csi_stop(cs, j + 1)
    } else {
        j
    }
}

/// The index after a CSI sequence whose parameters start at `j`.
pub open spec fn csi_end(cs: Seq<char>, j: int) -> int {
    let k = csi_stop(cs, j);
    if k < cs.len() {
        k + 1
    } else {
        k
    }
}

/// The index after an OSC sequence whose body starts at `j`: past a BEL or
/// an `ESC \` terminator, or `cs.len()`.
pub open spec fn osc_end(cs: Seq<char>, j: int) -> int
    decreases cs.len() - j,
{
    if j < 0 || j >= cs.len() {
        j
    } else if cs[j] == '\u{7}' {
        j + 1
    } else if cs[j] == '\u{1b}' && j + 1 < cs.len() && cs[j + 1] == '\\' {
        j + 2
    } else {
        osc_end(cs, j + 1)
    }
}

pub proof fn lemma_escape_ends(cs: Seq<char>, j: int)
    requires
        0 <= j <= cs.len(),
    ensures
        j <= csi_stop(cs, j) <= cs.len(),
        j <= csi_end(cs, j) <= cs.len(),
        j <= osc_end(cs, j) <= cs.len(),
    decreases cs.len() - j,
{
    if j < cs.len() {
        lemma_escape_ends(cs, j + 1);
    }
}

/// The characters of `cs` from `i` on without CSI (`ESC [ … final`) and OSC
/// (`ESC ] … BEL` or `ESC ] … ESC \`) sequences; everything else is kept
/// as it is.
pub open spec fn ansi_stripped(cs: Seq<char>, i: int) -> Seq<char>
    decreases cs.len() - i,
{
    if i < 0 || i >= cs.len() {
        seq![]
    } else if cs[i] == '\u{1b}' && i + 1 < cs.len() && cs[i + 1] == '[' {
        proof {
            lemma_escape_ends(cs, i + 2);
        }
        ansi_stripped(cs, csi_end(cs, i + 2))
    } else if cs[i] == '\u{1b}' && i + 1 < cs.len() && cs[i + 1] == ']' {
        proof {
            lemma_escape_ends(cs, i + 2);
        }
        ansi_stripped(cs, osc_end(cs, i + 2))
    } else {
        seq![cs[i]] + ansi_stripped(cs, i + 1)
    }
}

/// Strip ANSI SGR escape sequences (CSI ... m) and OSC sequences from a
/// string. Used by the branch-highlight dim path which re-colors a
/// previously highlighted line.
pub fn strip_ansi(s: &str) -> (r: String)
    ensures
        r@ == ansi_stripped(s@, 0),
{
    let mut out = String::new();
    let cs = chars_of(s);
    let ghost b = cs@;
    let mut i: usize = 0;
    while i < cs.len()
        invariant
            b == cs@,
            i <= cs.len(),
            ansi_stripped(b, 0) == out@ + ansi_stripped(b, i as int),
        decreases cs.len() - i,
    {
        let ghost i0 = i as int;
        if cs[i] == '\u{1b}' && i + 1 < cs.len() && cs[i + 1] == '[' {
            proof {
                lemma_escape_ends(b, i0 + 2);
            }
            let ghost start = i0 + 2;
            i = i + 2;
            while i < cs.len() && !('@' <= cs[i] && cs[i] <= '~')
                invariant
                    b == cs@,
                    start <= i <= cs.len(),
                    csi_stop(b, i as int) == csi_stop(b, start),
                decreases cs.len() - i,
            {
                i = i + 1;
            }
            if i < cs.len() {
                i = i + 1;
            }
            assert(i == csi_end(b, start));
        } else if cs[i] == '\u{1b}' && i + 1 < cs.len() && cs[i + 1] == ']' {
            proof {
                lemma_escape_ends(b, i0 + 2);
            }
            let ghost target = osc_end(b, i0 + 2);
            i = i + 2;
            while i < cs.len()
                invariant_except_break
                    osc_end(b, i as int) == target,
                invariant
                    b == cs@,
                    i <= cs.len(),
                ensures
                    i == target,
                decreases cs.len() - i,
            {
                if cs[i] == '\u{7}' {
                    i = i + 1;
                    break;
                }
                if cs[i] == '\u{1b}' && i + 1 < cs.len() && cs[i + 1] == '\\' {
                    i = i + 2;
                    break;
                }
                i = i + 1;
            }
        } else {
            push_char(&mut out, cs[i]);
            i = i + 1;
        }
        assert(ansi_stripped(b, 0) == out@ + ansi_stripped(b, i as int));
    }
    assert(ansi_stripped(b, i as int).len() == 0);
    out
}

/// Text without escape characters comes out of `strip_ansi` unchanged.
pub proof fn lemma_strip_ansi_plain(cs: Seq<char>, i: int)
    requires
        0 <= i <= cs.len(),
        crate::text::lacks(cs, '\u{1b}'),
    ensures
        ansi_stripped(cs, i) == cs.skip(i),
    decreases cs.len() - i,
{
    if i < cs.len() {
        lemma_strip_ansi_plain(cs, i + 1);
        assert(cs.skip(i) =~= seq![cs[i]] + cs.skip(i + 1));
    } else {
        assert(cs.skip(i).len() == 0);
    }
}

// ---------------------------------------------------------------------------
// Truncation
// ---------------------------------------------------------------------------

/// How many characters fit from index `k` on, with `w` columns used so far:
/// a character of width `cw` is taken while `w + cw + 1` (one column kept
/// for the ellipsis) stays within `max_w`.
pub open spec fn fit_count(widths: Seq<usize>, max_w: int, k: int, w: int) -> int
    decreases widths.len() - k,
{
    if k < 0 || k >= widths.len() {
        k
    } else if w + widths[k] + 1 > max_w {
        k
    } else {
        fit_count(widths, max_w, k + 1, w + widths[k])
    }
}

/// `s` cut to `max_w` display columns: empty for no room, unchanged when its
/// width `total` fits, else the characters that fit followed by `…`.
pub open spec fn spec_truncate_display(s: Seq<char>, widths: Seq<usize>, total: int, max_w: int) -> Seq<
    char,
> {
    if max_w == 0 {
        seq![]
    } else if total <= max_w {
        s
    } else {
        s.take(fit_count(widths, max_w, 0, 0)) + seq!['…']
    }
}

/// Cuts `s` to at most `max_w` display columns, ending in `…` when it was
/// cut. The caller measures: `widths[k]` is the display width of the `k`-th
/// character and `total_width` the width of the whole string.
pub fn truncate_display(s: &str, widths: &Vec<usize>, total_width: usize, max_w: usize) -> (r: String)
    requires
        widths.len() == s@.len(),
    ensures
        r@ == spec_truncate_display(s@, widths@, total_width as int, max_w as int),
{
    if max_w == 0 {
        return String::new();
    }
    let chars = chars_of(s);
    if total_width <= max_w {
        return string_of(&chars);
    }
    let mut out = String::new();
    let mut w: usize = 0;
    let mut k: usize = 0;
    while k < chars.len()
        invariant
            chars@ == s@,
            widths.len() == chars.len(),
            k <= chars.len(),
            w <= max_w,
            out@ == chars@.take(k as int),
            fit_count(widths@, max_w as int, 0, 0) == fit_count(widths@, max_w as int, k as int, w as int),
        ensures
            fit_count(widths@, max_w as int, 0, 0) == k,
            out@ == chars@.take(k as int),
            k <= chars.len(),
            chars@ == s@,
        decreases chars.len() - k,
    {
        let cw = widths[k];
        if (w as u128) + (cw as u128) + 1 > (max_w as u128) {
            break;
        }
        push_char(&mut out, chars[k]);
        assert(chars@.take(k + 1) == chars@.take(k as int).push(chars@[k as int]));
        w = w + cw;
        k = k + 1;
    }
    push_char(&mut out, '…');
    assert(out@ =~= chars@.take(k as int) + seq!['…']);
    out
}

// ---------------------------------------------------------------------------
// Home directory
// ---------------------------------------------------------------------------

/// `path` with a leading `~/` or a lone `~` replaced by the home directory,
/// when one is known.
pub open spec fn spec_expand_tilde(path: Seq<char>, home: Option<Seq<char>>) -> Seq<char> {
    if path.len() >= 2 && path[0] == '~' && path[1] == '/' {
        match home {
            Some(h) => h + seq!['/'] + path.skip(2),
            None => path,
        }
    } else if path == seq!['~'] {
        match home {
            Some(h) => h,
            None => path,
        }
    } else {
        path
    }
}

/// The model of an optional string slice.
pub open spec fn opt_str_model(o: Option<&str>) -> Option<Seq<char>> {
    match o {
        Some(h) => Some(h@),
        None => None,
    }
}

/// Expand a leading `~` or `~/` to the user's home directory `home` (the
/// caller reads it from the environment). Used by `<file:~/foo>` references.
pub fn expand_tilde(path: &str, home: Option<&str>) -> (r: String)
    ensures
        r@ == spec_expand_tilde(path@, opt_str_model(home)),
{
    let chars = chars_of(path);
    if chars.len() >= 2 && chars[0] == '~' && chars[1] == '/' {
        match home {
            Some(h) => {
                let mut out = String::from_str(h);
                push_char(&mut out, '/');
                let rest = crate::text::string_of_range(&chars, 2, chars.len());
                out.append(rest.as_str());
                assert(chars@.subrange(2, chars.len() as int) == chars@.skip(2));
                return out;
            },
            None => {},
        }
    } else if chars.len() == 1 && chars[0] == '~' {
        assert(chars@ =~= seq!['~']);
        match home {
            Some(h) => {
                return String::from_str(h);
            },
            None => {},
        }
    } else {
        if chars.len() == 1 {
            assert(chars@ != seq!['~']) by {
                assert(chars@[0] != '~');
            }
        }
    }
    String::from_str(path)
}

// ---------------------------------------------------------------------------
// Config settings
// ---------------------------------------------------------------------------

/// Position of the first `c` in `s`, or `s.len()`.
pub open spec fn first_of(s: Seq<char>, c: char) -> nat
    decreases s.len(),
{
    if s.len() == 0 || s[0] == c {
        0
    } else {
        1 + first_of(s.drop_first(), c)
    }
}

pub proof fn lemma_first_of(s: Seq<char>, c: char)
    ensures
        first_of(s, c) <= s.len(),
        forall|i: int| 0 <= i < first_of(s, c) ==> #[trigger] s[i] != c,
        first_of(s, c) < s.len() ==> s[first_of(s, c) as int] == c,
    decreases s.len(),
{
    if s.len() > 0 && s[0] != c {
        lemma_first_of(s.drop_first(), c);
        assert forall|i: int| 0 <= i < first_of(s, c) implies #[trigger] s[i] != c by {
            if i > 0 {
                assert(s[i] == s.drop_first()[i - 1]);
            }
        }
    }
}

/// `str::split` on one character: the pieces between occurrences of `sep`
/// (there is always at least one piece).
pub open spec fn split_on(s: Seq<char>, sep: char) -> Seq<Seq<char>>
    decreases s.len(),
{
    let k = first_of(s, sep) as int;
    if k >= s.len() {
        seq![s]
    } else {
        proof {
            lemma_first_of(s, sep);
        }
        seq![s.take(k)] + split_on(s.skip(k + 1), sep)
    }
}

/// The digits of `s` read as a decimal number.
pub open spec fn digits_value(s: Seq<char>) -> nat
    decreases s.len(),
{
    if s.len() == 0 {
        0
    } else {
        digits_value(s.drop_last()) * 10 + ((s.last() as int - '0' as int) as nat)
    }
}

/// Every character of `s` is an ASCII digit.
pub open spec fn all_digits(s: Seq<char>) -> bool {
    forall|i: int| 0 <= i < s.len() ==> '0' <= #[trigger] s[i] <= '9'
}

/// `usize::from_str`: an optional `+` and one or more ASCII digits whose
/// value fits in `usize`.
pub open spec fn spec_parse_usize(s: Seq<char>) -> Option<nat> {
    let d = if s.len() > 0 && s[0] == '+' {
        s.drop_first()
    } else {
        s
    };
    if d.len() > 0 && all_digits(d) && digits_value(d) <= usize::MAX {
        Some(digits_value(d))
    } else {
        None
    }
}

/// A longer run of digits is worth at least as much as its prefix.
pub proof fn lemma_digits_monotone(s: Seq<char>, k: int)
    requires
        0 <= k <= s.len(),
        all_digits(s),
    ensures
        digits_value(s.take(k)) <= digits_value(s),
    decreases s.len() - k,
{
    if k < s.len() {
        let t = s.take(k + 1);
        assert(t.drop_last() == s.take(k));
        assert(t.last() == s[k]);
        let v = digits_value(s.take(k));
        assert(v * 10 + ((s[k] as int - '0' as int) as nat) >= v) by (nonlinear_arith);
        assert(digits_value(t) >= v);
        lemma_digits_monotone(s, k + 1);
        assert(s.take(k + 1).len() == k + 1);
    } else {
        assert(s.take(k) == s);
    }
}

/// Reads a decimal `usize` the way `usize::from_str` does.
pub fn parse_usize(v: &Vec<char>) -> (r: Option<usize>)
    ensures
        match r {
            Some(n) => spec_parse_usize(v@) == Some(n as nat),
            None => spec_parse_usize(v@) is None,
        },
{
    let mut start: usize = 0;
    if v.len() > 0 && v[0] == '+' {
        start = 1;
    }
    let ghost d = if v@.len() > 0 && v@[0] == '+' {
        v@.drop_first()
    } else {
        v@
    };
    assert(d == v@.skip(start as int));
    if start >= v.len() {
        return None;
    }
    let mut value: usize = 0;
    let mut i = start;
    while i < v.len()
        invariant
            start <= i <= v.len(),
            d == v@.skip(start as int),
            d == (if v@.len() > 0 && v@[0] == '+' {
                v@.drop_first()
            } else {
                v@
            }),
            all_digits(d.take(i - start)),
            value == digits_value(d.take(i - start)),
        decreases v.len() - i,
    {
        let c = v[i];
        let ghost pre = d.take(i - start);
        let ghost next = d.take(i - start + 1);
        assert(next.drop_last() == pre);
        assert(next.last() == c);
        if !('0' <= c && c <= '9') {
            assert(!all_digits(d)) by {
                assert(d[i - start] == c);
            }
            return None;
        }
        let digit = (c as u32 - '0' as u32) as usize;
        assert(digit == (c as int - '0' as int));
        let times = value.checked_mul(10);
        let sum = match times {
            Some(t) => t.checked_add(digit),
            None => None,
        };
        match sum {
            Some(n) => {
                value = n;
            },
            None => {
                proof {
                    assert(digits_value(next) > usize::MAX);
                    if all_digits(d) {
                        lemma_digits_monotone(d, i - start + 1);
                    }
                }
                return None;
            },
        }
        assert forall|j: int| 0 <= j < next.len() implies '0' <= #[trigger] next[j] <= '9' by {
            if j < pre.len() {
                assert(next[j] == pre[j]);
            }
        }
        i = i + 1;
    }
    assert(d.take(i - start) == d);
    Some(value)
}

/// The characters `fold_level=`.
pub open spec fn fold_level_key() -> Seq<char> {
    seq!['f', 'o', 'l', 'd', '_', 'l', 'e', 'v', 'e', 'l', '=']
}

/// The fold level that the first `fold_level=` setting among comma-separated
/// (trimmed) settings names, when its value reads as a number.
pub open spec fn setting_from(parts: Seq<Seq<char>>) -> Option<nat>
    decreases parts.len(),
{
    if parts.len() == 0 {
        None
    } else {
        let p = trim(parts[0]);
        if p.len() >= 11 && p.take(11) == fold_level_key() {
            spec_parse_usize(p.skip(11))
        } else {
            setting_from(parts.drop_first())
        }
    }
}

/// The fold level that a config line sets with `fold_level=N`.
pub open spec fn spec_fold_level_setting(config: Seq<char>) -> Option<nat> {
    setting_from(split_on(config, ','))
}

/// Whether `p` starts with `fold_level=`.
fn has_fold_level_key(p: &Vec<char>) -> (r: bool)
    ensures
        r == (p@.len() >= 11 && p@.take(11) == fold_level_key()),
{
    if p.len() < 11 {
        return false;
    }
    let r = p[0] == 'f' && p[1] == 'o' && p[2] == 'l' && p[3] == 'd' && p[4] == '_' && p[5] == 'l'
        && p[6] == 'e' && p[7] == 'v' && p[8] == 'e' && p[9] == 'l' && p[10] == '=';
    if r {
        assert(p@.take(11) =~= fold_level_key());
    } else {
        assert(p@.take(11) != fold_level_key()) by {
            if p@.take(11) == fold_level_key() {
                assert(p@.take(11)[0] == p@[0]);
                assert(p@.take(11)[1] == p@[1]);
                assert(p@.take(11)[2] == p@[2]);
                assert(p@.take(11)[3] == p@[3]);
                assert(p@.take(11)[4] == p@[4]);
                assert(p@.take(11)[5] == p@[5]);
                assert(p@.take(11)[6] == p@[6]);
                assert(p@.take(11)[7] == p@[7]);
                assert(p@.take(11)[8] == p@[8]);
                assert(p@.take(11)[9] == p@[9]);
                assert(p@.take(11)[10] == p@[10]);
            }
        }
    }
    r
}

/// The fold level that the config line sets with `fold_level=N`, as the
/// first setting of that name reads: `None` when there is none or its value
/// is not a number.
pub fn fold_level_setting(config: &str) -> (r: Option<usize>)
    ensures
        match r {
            Some(n) => spec_fold_level_setting(config@) == Some(n as nat),
            None => spec_fold_level_setting(config@) is None,
        },
{
    let chars = chars_of(config);
    let mut start: usize = 0;
    assert(chars@.skip(0) == chars@);
    loop
        invariant
            start <= chars.len(),
            chars@ == config@,
            spec_fold_level_setting(config@) == setting_from(split_on(chars@.skip(start as int), ',')),
        decreases chars.len() - start,
    {
        let ghost rest = chars@.skip(start as int);
        let mut k = start;
        while k < chars.len() && chars[k] != ','
            invariant
                start <= k <= chars.len(),
                rest == chars@.skip(start as int),
                forall|j: int| 0 <= j < k - start ==> #[trigger] rest[j] != ',',
            decreases chars.len() - k,
        {
            k = k + 1;
        }
        proof {
            lemma_first_of(rest, ',');
            let f = first_of(rest, ',') as int;
            if f < k - start {
                assert(rest[f] == ',');
            }
            if k < chars.len() && k - start < f {
                assert(rest[k - start] == chars@[k as int]);
            }
            assert(f == k - start);
        }
        let piece = crate::text::slice_chars(&chars, start, k);
        let p = trim_chars(&piece);
        let ghost parts = split_on(rest, ',');
        proof {
            assert(piece@ == rest.take(k - start));
            if k < chars.len() {
                assert(rest.skip(k - start + 1) == chars@.skip(k + 1));
                assert(parts[0] == piece@);
                assert(parts.drop_first() == split_on(chars@.skip(k + 1), ','));
            } else {
                assert(rest.take(k - start) == rest);
                assert(parts == seq![rest]);
                assert(parts[0] == piece@);
                assert(parts.drop_first().len() == 0);
            }
        }
        if has_fold_level_key(&p) {
            let value = crate::text::slice_chars(&p, 11, p.len());
            assert(value@ == p@.skip(11));
            return parse_usize(&value);
        }
        if k >= chars.len() {
            assert(setting_from(parts.drop_first()) is None);
            return None;
        }
        start = k + 1;
    }
}

// ---------------------------------------------------------------------------
// Header and footer layout
// ---------------------------------------------------------------------------

/// How the header line is laid out.
#[derive(Clone, Copy, Debug, PartialEq, Eq, Structural)]
pub enum HeaderLayout {
    /// Only the file information.
    InfoOnly,
    /// Information, this many spaces, the breadcrumb and one space.
    Full(usize),
    /// The breadcrumb cut to this many columns, then right-aligned.
    Truncated(usize),
}

/// The header layout for an information part `info_w` columns wide and a
/// breadcrumb `crumb_w` columns wide in `cols` columns: the breadcrumb shows
/// when there is one and the information leaves more than three columns;
/// it is cut when both do not fit with two columns to spare.
pub open spec fn spec_header_layout(crumb_empty: bool, info_w: int, crumb_w: int, cols: int) -> HeaderLayout {
    if !crumb_empty && info_w + 3 < cols {
        if info_w + crumb_w + 2 <= cols {
            HeaderLayout::Full((cols - info_w - crumb_w - 1) as usize)
        } else {
            HeaderLayout::Truncated(
                if cols >= info_w + 2 {
                    (cols - (info_w + 2)) as usize
                } else {
                    0
                },
            )
        }
    } else {
        HeaderLayout::InfoOnly
    }
}

/// Lays out the header line.
pub fn header_layout(crumb_empty: bool, info_w: usize, crumb_w: usize, cols: usize) -> (r: HeaderLayout)
    requires
        info_w + crumb_w + 3 <= usize::MAX,
    ensures
        r == spec_header_layout(crumb_empty, info_w as int, crumb_w as int, cols as int),
{
    if !crumb_empty && info_w + 3 < cols {
        if info_w + crumb_w + 2 <= cols {
            HeaderLayout::Full(cols - info_w - crumb_w - 1)
        } else {
            HeaderLayout::Truncated(if cols >= info_w + 2 { cols - (info_w + 2) } else { 0 })
        }
    } else {
        HeaderLayout::InfoOnly
    }
}

/// Spaces between the information and a cut breadcrumb `trimmed_w`
/// columns wide, leaving one column at the end.
pub fn header_pad(cols: usize, info_w: usize, trimmed_w: usize) -> (pad: usize)
    requires
        info_w + trimmed_w + 1 <= cols,
    ensures
        pad == cols - info_w - trimmed_w - 1,
{
    cols - info_w - trimmed_w - 1
}

/// The footer layout: whether the left part (`left_w` columns) is kept
/// beside the right part (`right_w` columns, its trailing space included),
/// and the spaces in between or in front.
pub open spec fn spec_footer_layout(left_w: int, right_w: int, cols: int) -> (bool, int) {
    if left_w + right_w + 1 <= cols {
        (true, cols - left_w - right_w)
    } else {
        (false, if cols >= right_w { cols - right_w } else { 0 })
    }
}

/// Lays out the footer line: the version stays visible, the left part only
/// when there is room.
pub fn footer_layout(left_w: usize, right_w: usize, cols: usize) -> (r: (bool, usize))
    requires
        left_w + right_w + 1 <= usize::MAX,
    ensures
        r.0 == spec_footer_layout(left_w as int, right_w as int, cols as int).0,
        r.1 as int == spec_footer_layout(left_w as int, right_w as int, cols as int).1,
{
    if left_w + right_w + 1 <= cols {
        (true, cols - left_w - right_w)
    } else {
        (false, if cols >= right_w { cols - right_w } else { 0 })
    }
}

} // verus!
