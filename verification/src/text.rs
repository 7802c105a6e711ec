//! Character-level helpers shared by the parser, the highlighter and the
//! outline view: white space, trimming, line splitting and conversions
//! between `&str`/`String` and vectors of characters.
use vstd::prelude::*;

verus! {

// ---------------------------------------------------------------------------
// White space
// ---------------------------------------------------------------------------

/// The characters that carry Unicode's `White_Space` property.
pub open spec fn is_ws(c: char) -> bool {
    let u = c as int;
    ||| 0x09 <= u <= 0x0D
    ||| u == 0x20
    ||| u == 0x85
    ||| u == 0xA0
    ||| u == 0x1680
    ||| 0x2000 <= u <= 0x200A
    ||| u == 0x2028
    ||| u == 0x2029
    ||| u == 0x202F
    ||| u == 0x205F
    ||| u == 0x3000
}

/// Whether `c` carries Unicode's `White_Space` property (what
/// `char::is_whitespace` checks).
pub fn is_whitespace(c: char) -> (r: bool)
    ensures
        r == is_ws(c),
{
    let u = c as u32;
    (0x09 <= u && u <= 0x0D) || u == 0x20 || u == 0x85 || u == 0xA0 || u == 0x1680 || (0x2000 <= u
        && u <= 0x200A) || u == 0x2028 || u == 0x2029 || u == 0x202F || u == 0x205F || u == 0x3000
}

/// Every character of `s` is white space (also true of the empty sequence).
pub open spec fn all_ws(s: Seq<char>) -> bool {
    forall|i: int| 0 <= i < s.len() ==> is_ws(#[trigger] s[i])
}

/// `s` holds no character `c`.
pub open spec fn lacks(s: Seq<char>, c: char) -> bool {
    forall|i: int| 0 <= i < s.len() ==> #[trigger] s[i] != c
}

/// Length of the white-space prefix of `s`.
pub open spec fn lead_ws(s: Seq<char>) -> nat
    decreases s.len(),
{
    if s.len() > 0 && is_ws(s[0]) {
        1 + lead_ws(s.drop_first())
    } else {
        0
    }
}

/// Length of the white-space suffix of `s`.
pub open spec fn trail_ws(s: Seq<char>) -> nat
    decreases s.len(),
{
    if s.len() > 0 && is_ws(s.last()) {
        1 + trail_ws(s.drop_last())
    } else {
        0
    }
}

/// `str::trim_start`: `s` without its leading white space.
pub open spec fn trim_start(s: Seq<char>) -> Seq<char> {
    s.skip(lead_ws(s) as int)
}

/// `str::trim_end`: `s` without its trailing white space.
pub open spec fn trim_end(s: Seq<char>) -> Seq<char> {
    s.take(s.len() - trail_ws(s))
}

/// `str::trim`: `s` without leading and trailing white space.
pub open spec fn trim(s: Seq<char>) -> Seq<char> {
    trim_end(trim_start(s))
}

/// `lead_ws(s)` is the one index `k` such that `s[..k]` is white space and
/// `s[k]`, where it exists, is not.
pub proof fn lemma_lead_ws(s: Seq<char>, k: int)
    ensures
        lead_ws(s) <= s.len(),
        all_ws(s.take(lead_ws(s) as int)),
        lead_ws(s) < s.len() ==> !is_ws(s[lead_ws(s) as int]),
        (0 <= k <= s.len() && all_ws(s.take(k)) && (k < s.len() ==> !is_ws(s[k])))
            ==> k == lead_ws(s),
    decreases s.len(),
{
    if s.len() > 0 && is_ws(s[0]) {
        let t = s.drop_first();
        lemma_lead_ws(t, k - 1);
        let n = lead_ws(t) as int;
        assert forall|i: int| 0 <= i < n + 1 implies is_ws(#[trigger] s.take(n + 1)[i]) by {
            if i > 0 {
                assert(s.take(n + 1)[i] == t.take(n)[i - 1]);
            }
        }
        if 0 <= k <= s.len() && all_ws(s.take(k)) && (k < s.len() ==> !is_ws(s[k])) {
            if k == 0 {
                assert(!is_ws(s[0]));
            }
            assert forall|i: int| 0 <= i < k - 1 implies is_ws(#[trigger] t.take(k - 1)[i]) by {
                assert(t.take(k - 1)[i] == s.take(k)[i + 1]);
            }
            if k - 1 < t.len() {
                assert(t[k - 1] == s[k]);
            }
        }
        if n + 1 < s.len() {
            assert(s[n + 1] == t[n]);
        }
    } else {
        assert(s.take(0).len() == 0);
        if 0 <= k <= s.len() && all_ws(s.take(k)) && (k < s.len() ==> !is_ws(s[k])) {
            if k > 0 {
                assert(is_ws(s.take(k)[0]));
            }
        }
    }
}

/// `trail_ws(s)` is the one count `k` such that the last `k` characters are
/// white space and the one before them, where it exists, is not.
pub proof fn lemma_trail_ws(s: Seq<char>, k: int)
    ensures
        trail_ws(s) <= s.len(),
        all_ws(s.skip(s.len() - trail_ws(s))),
        trail_ws(s) < s.len() ==> !is_ws(s[s.len() - trail_ws(s) - 1]),
        (0 <= k <= s.len() && all_ws(s.skip(s.len() - k)) && (k < s.len() ==> !is_ws(
            s[s.len() - k - 1],
        ))) ==> k == trail_ws(s),
    decreases s.len(),
{
    if s.len() > 0 && is_ws(s.last()) {
        let t = s.drop_last();
        lemma_trail_ws(t, k - 1);
        let n = trail_ws(t) as int;
        assert forall|i: int| 0 <= i < n + 1 implies is_ws(
            #[trigger] s.skip(s.len() - (n + 1))[i],
        ) by {
            if i < n {
                assert(s.skip(s.len() - (n + 1))[i] == t.skip(t.len() - n)[i]);
            }
        }
        if 0 <= k <= s.len() && all_ws(s.skip(s.len() - k)) && (k < s.len() ==> !is_ws(
            s[s.len() - k - 1],
        )) {
            if k == 0 {
                assert(!is_ws(s[s.len() - 1]));
            }
            assert forall|i: int| 0 <= i < k - 1 implies is_ws(
                #[trigger] t.skip(t.len() - (k - 1))[i],
            ) by {
                assert(t.skip(t.len() - (k - 1))[i] == s.skip(s.len() - k)[i]);
            }
        }
    } else {
        if 0 <= k <= s.len() && all_ws(s.skip(s.len() - k)) && (k < s.len() ==> !is_ws(
            s[s.len() - k - 1],
        )) {
            if k > 0 {
                assert(is_ws(s.skip(s.len() - k)[k - 1]));
            }
        }
    }
}

/// The trimmed sequence is empty exactly when the sequence is all white space.
pub proof fn lemma_trim_empty(s: Seq<char>)
    ensures
        trim(s).len() == 0 <==> all_ws(s),
        trim_start(s).len() == 0 <==> all_ws(s),
{
    lemma_lead_ws(s, 0);
    let t = trim_start(s);
    lemma_trail_ws(t, 0);
    let n = lead_ws(s) as int;
    if all_ws(s) {
        lemma_lead_ws(s, s.len() as int);
        assert(s.take(s.len() as int) == s);
    }
    if t.len() == 0 {
        assert forall|i: int| 0 <= i < s.len() implies is_ws(s[i]) by {
            assert(s.take(n)[i] == s[i]);
        }
    }
    if trim(s).len() == 0 && t.len() > 0 {
        assert(t.skip(0) == t);
        assert(is_ws(t[0]));
        assert(t[0] == s[n]);
    }
}

/// Index of the first character of `v` that is not white space.
pub fn lead_ws_len(v: &Vec<char>) -> (k: usize)
    ensures
        k == lead_ws(v@),
{
    let mut k: usize = 0;
    while k < v.len() && is_whitespace(v[k])
        invariant
            k <= v.len(),
            all_ws(v@.take(k as int)),
        decreases v.len() - k,
    {
        assert(v@.take(k as int + 1) == v@.take(k as int).push(v@[k as int]));
        k = k + 1;
    }
    proof {
        lemma_lead_ws(v@, k as int);
    }
    k
}

/// Number of trailing white-space characters of `v`.
pub fn trail_ws_len(v: &Vec<char>) -> (k: usize)
    ensures
        k == trail_ws(v@),
{
    let mut k: usize = 0;
    while k < v.len() && is_whitespace(v[v.len() - 1 - k])
        invariant
            k <= v.len(),
            all_ws(v@.skip(v.len() - k)),
        decreases v.len() - k,
    {
        let ghost s = v@;
        assert forall|i: int| 0 <= i < k + 1 implies is_ws(#[trigger] s.skip(s.len() - (k + 1))[i]) by {
            if i > 0 {
                assert(s.skip(s.len() - (k + 1))[i] == s.skip(s.len() - k)[i - 1]);
            }
        }
        k = k + 1;
    }
    proof {
        lemma_trail_ws(v@, k as int);
    }
    k
}

/// The characters `v[from..to]` as a new vector.
pub fn slice_chars(v: &Vec<char>, from: usize, to: usize) -> (r: Vec<char>)
    requires
        from <= to <= v.len(),
    ensures
        r@ == v@.subrange(from as int, to as int),
{
    let mut r: Vec<char> = Vec::new();
    let mut i = from;
    while i < to
        invariant
            from <= i <= to <= v.len(),
            r@ == v@.subrange(from as int, i as int),
        decreases to - i,
    {
        r.push(v[i]);
        i = i + 1;
    }
    r
}

/// `str::trim_start` on a vector of characters.
pub fn trim_start_chars(v: &Vec<char>) -> (r: Vec<char>)
    ensures
        r@ == trim_start(v@),
{
    let k = lead_ws_len(v);
    proof {
        lemma_lead_ws(v@, 0);
    }
    slice_chars(v, k, v.len())
}

/// `str::trim` on a vector of characters.
pub fn trim_chars(v: &Vec<char>) -> (r: Vec<char>)
    ensures
        r@ == trim(v@),
{
    let t = trim_start_chars(v);
    let k = trail_ws_len(&t);
    proof {
        lemma_trail_ws(t@, 0);
    }
    slice_chars(&t, 0, t.len() - k)
}

/// Whether every character of `v` is white space (`str::trim().is_empty()`).
pub fn is_blank(v: &Vec<char>) -> (r: bool)
    ensures
        r == all_ws(v@),
        r == (trim(v@).len() == 0),
{
    proof {
        lemma_trim_empty(v@);
        lemma_lead_ws(v@, 0);
    }
    let k = lead_ws_len(v);
    if k == v.len() {
        assert(v@.take(k as int) == v@);
    }
    k == v.len()
}

// ---------------------------------------------------------------------------
// Lines
// ---------------------------------------------------------------------------

/// Position of the first `'\n'` in `s`, or `s.len()` when there is none.
pub open spec fn first_nl(s: Seq<char>) -> nat
    decreases s.len(),
{
    if s.len() == 0 || s[0] == '\n' {
        0
    } else {
        1 + first_nl(s.drop_first())
    }
}

/// `first_nl(s)` is the one index `k` before which `s` holds no newline and
/// at which, where `k < s.len()`, it holds one.
pub proof fn lemma_first_nl(s: Seq<char>, k: int)
    ensures
        first_nl(s) <= s.len(),
        lacks(s.take(first_nl(s) as int), '\n'),
        first_nl(s) < s.len() ==> s[first_nl(s) as int] == '\n',
        (0 <= k <= s.len() && lacks(s.take(k), '\n') && (k < s.len() ==> s[k] == '\n')) ==> k
            == first_nl(s),
    decreases s.len(),
{
    if s.len() == 0 || s[0] == '\n' {
        if 0 <= k <= s.len() && lacks(s.take(k), '\n') && (k < s.len() ==> s[k] == '\n') {
            if k > 0 {
                assert(s.take(k)[0] == s[0]);
            }
        }
    } else {
        let t = s.drop_first();
        lemma_first_nl(t, k - 1);
        let n = first_nl(t) as int;
        assert forall|i: int| 0 <= i < n + 1 implies #[trigger] s.take(n + 1)[i] != '\n' by {
            if i > 0 {
                assert(s.take(n + 1)[i] == t.take(n)[i - 1]);
            }
        }
        if n + 1 < s.len() {
            assert(s[n + 1] == t[n]);
        }
        if 0 <= k <= s.len() && lacks(s.take(k), '\n') && (k < s.len() ==> s[k] == '\n') {
            if k == 0 {
                assert(s[0] == '\n');
            }
            assert forall|i: int| 0 <= i < k - 1 implies #[trigger] t.take(k - 1)[i] != '\n' by {
                assert(t.take(k - 1)[i] == s.take(k)[i + 1]);
            }
            if k - 1 < t.len() {
                assert(t[k - 1] == s[k]);
            }
        }
    }
}

/// `s` without one trailing carriage return.
pub open spec fn strip_cr(s: Seq<char>) -> Seq<char> {
    if s.len() > 0 && s.last() == '\r' {
        s.drop_last()
    } else {
        s
    }
}

/// `v` without one trailing carriage return.
pub fn strip_cr_chars(v: &Vec<char>) -> (r: Vec<char>)
    ensures
        r@ == strip_cr(v@),
{
    if v.len() > 0 && v[v.len() - 1] == '\r' {
        slice_chars(v, 0, v.len() - 1)
    } else {
        slice_chars(v, 0, v.len())
    }
}

/// `str::lines`: pieces between `'\n'` characters; a `'\r'` right before a
/// `'\n'` is dropped, and a final line ending adds no empty line.
pub open spec fn lines(s: Seq<char>) -> Seq<Seq<char>>
    decreases s.len(),
{
    if s.len() == 0 {
        seq![]
    } else {
        let k = first_nl(s) as int;
        if k >= s.len() {
            seq![s]
        } else {
            seq![strip_cr(s.take(k))] + lines(s.skip(k + 1))
        }
    }
}

/// The lines of a sequence that starts with a line ending in `'\n'`.
pub proof fn lemma_lines_cons(line: Seq<char>, rest: Seq<char>)
    requires
        lacks(line, '\n'),
    ensures
        lines(line + seq!['\n'] + rest) == seq![strip_cr(line)] + lines(rest),
{
    let s = line + seq!['\n'] + rest;
    let k = line.len() as int;
    assert(s.take(k) == line);
    lemma_first_nl(s, k);
    assert(s.skip(k + 1) == rest);
}

/// The character sequences held by a vector of character vectors.
pub open spec fn views(v: Seq<Vec<char>>) -> Seq<Seq<char>> {
    v.map_values(|x: Vec<char>| x@)
}

/// Splits `v` into lines the way `str::lines` does.
pub fn split_lines(v: &Vec<char>) -> (r: Vec<Vec<char>>)
    ensures
        views(r@) == lines(v@),
{
    let mut out: Vec<Vec<char>> = Vec::new();
    let mut start: usize = 0;
    let mut i: usize = 0;
    assert(views(out@) =~= Seq::<Seq<char>>::empty());
    assert(v@.skip(0) == v@);
    while i < v.len()
        invariant
            start <= i <= v.len(),
            lacks(v@.subrange(start as int, i as int), '\n'),
            views(out@) + lines(v@.skip(start as int)) == lines(v@),
        decreases v.len() - i,
    {
        if v[i] == '\n' {
            let ghost t = v@.skip(start as int);
            let ghost k = (i - start) as int;
            proof {
                assert(t.take(k) == v@.subrange(start as int, i as int));
                lemma_first_nl(t, k);
                assert(t.skip(k + 1) == v@.skip(i + 1));
            }
            let mut end = i;
            if end > start && v[end - 1] == '\r' {
                end = end - 1;
            }
            let piece = slice_chars(v, start, end);
            let ghost old_out = views(out@);
            out.push(piece);
            proof {
                assert(piece@ == strip_cr(t.take(k)));
                assert(views(out@) =~= old_out.push(piece@));
                assert(seq![strip_cr(t.take(k))] + lines(v@.skip(i + 1)) == lines(t));
                assert(views(out@) + lines(v@.skip(i + 1)) =~= old_out + lines(t));
            }
            start = i + 1;
        } else {
            proof {
                assert(v@.subrange(start as int, i + 1) == v@.subrange(start as int, i as int).push(
                    v@[i as int],
                ));
            }
        }
        i = i + 1;
    }
    if start < v.len() {
        let ghost t = v@.skip(start as int);
        proof {
            assert(t == v@.subrange(start as int, i as int));
            assert(t.take(t.len() as int) == t);
            lemma_first_nl(t, t.len() as int);
        }
        let piece = slice_chars(v, start, v.len());
        let ghost old_out = views(out@);
        out.push(piece);
        proof {
            assert(views(out@) =~= old_out.push(piece@));
            assert(lines(t) == seq![t]);
        }
    } else {
        assert(v@.skip(start as int).len() == 0);
    }
    out
}

// ---------------------------------------------------------------------------
// Conversions
// ---------------------------------------------------------------------------

/// Collect the characters of a string slice.
pub fn chars_of(s: &str) -> (r: Vec<char>)
    ensures
        r@ == s@,
{
    let mut out: Vec<char> = Vec::new();
    for c in it: s.chars()
        invariant
            out@ == it.seq().take(it.index() as int),
    {
        out.push(c);
    }
    out
}

/// `String::push`: appends one character.
#[verifier::external_body]
pub(crate) fn push_char(s: &mut String, c: char)
    ensures
        final(s)@ == old(s)@.push(c),
{
    s.push(c);
}

/// A string made of the characters `v[from..to]`.
pub fn string_of_range(v: &Vec<char>, from: usize, to: usize) -> (r: String)
    requires
        from <= to <= v.len(),
    ensures
        r@ == v@.subrange(from as int, to as int),
{
    let mut s = String::new();
    let mut i = from;
    while i < to
        invariant
            from <= i <= to <= v.len(),
            s@ == v@.subrange(from as int, i as int),
        decreases to - i,
    {
        push_char(&mut s, v[i]);
        i = i + 1;
    }
    s
}

/// A string made of the characters of `v`.
pub fn string_of(v: &Vec<char>) -> (r: String)
    ensures
        r@ == v@,
{
    let r = string_of_range(v, 0, v.len());
    assert(v@.subrange(0, v.len() as int) == v@);
    r
}

} // verus!
