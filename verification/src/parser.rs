//! HyperList parser (HyperList 2.6 format).
//!
//! Indentation with tabs or asterisks, one item per physical line (multi-line
//! continuations start with `+`). A parsed item keeps its indent level, the
//! raw text (with formatting preserved), a folded flag, and whether it is a
//! continuation line.
use vstd::prelude::*;
use crate::text::{
    all_ws, is_blank, lacks, lead_ws, lemma_lines_cons,
    lemma_trim_empty, lines, push_char, split_lines, strip_cr, string_of, string_of_range,
    trim_start, trim_start_chars, chars_of, views, is_ws, first_nl, lemma_first_nl,
};

verus! {

/// One line of a HyperList document.
#[derive(Clone, Debug)]
pub struct Item {
    /// Zero-based indent depth.
    pub depth: usize,
    /// The line's text with indentation stripped (markup preserved).
    pub text: String,
    /// True when this item's subtree should render collapsed.
    pub folded: bool,
    /// True for continuation lines (starting with `+`); these don't add depth.
    pub continuation: bool,
}

/// A parsed HyperList document.
#[derive(Clone, Debug)]
pub struct Document {
    pub items: Vec<Item>,
    /// Optional config from the first line if wrapped in `((...))`.
    pub config: Option<String>,
}

/// What an [`Item`] holds, with its text as a sequence of characters.
#[verifier::ext_equal]
pub struct ItemModel {
    pub depth: nat,
    pub text: Seq<char>,
    pub folded: bool,
    pub continuation: bool,
}

/// What a [`Document`] holds.
#[verifier::ext_equal]
pub struct DocModel {
    pub items: Seq<ItemModel>,
    pub config: Option<Seq<char>>,
}

impl View for Item {
    type V = ItemModel;

    open spec fn view(&self) -> ItemModel {
        ItemModel {
            depth: self.depth as nat,
            text: self.text@,
            folded: self.folded,
            continuation: self.continuation,
        }
    }
}

/// The models of a sequence of items.
pub open spec fn items_model(items: Seq<Item>) -> Seq<ItemModel> {
    items.map_values(|it: Item| it@)
}

/// The model of an optional string.
pub open spec fn opt_model(c: Option<String>) -> Option<Seq<char>> {
    match c {
        Some(s) => Some(s@),
        None => None,
    }
}

impl View for Document {
    type V = DocModel;

    open spec fn view(&self) -> DocModel {
        DocModel { items: items_model(self.items@), config: opt_model(self.config) }
    }
}

impl Default for Item {
    fn default() -> (r: Item)
        ensures
            r@ == blank_item(),
    {
        Item { depth: 0, text: String::new(), folded: false, continuation: false }
    }
}

impl Default for Document {
    fn default() -> (r: Document)
        ensures
            r@.items.len() == 0,
            r@.config is None,
    {
        Document { items: Vec::new(), config: None }
    }
}

// ---------------------------------------------------------------------------
// Parsing
// ---------------------------------------------------------------------------

/// The item that a blank line becomes.
pub open spec fn blank_item() -> ItemModel {
    ItemModel { depth: 0, text: seq![], folded: false, continuation: false }
}

/// Characters that make up indentation: tabs, `*`, and spaces.
pub open spec fn is_indent_char(c: char) -> bool {
    c == '\t' || c == '*' || c == ' '
}

/// Length of the indentation prefix of `l`.
pub open spec fn indent_len(l: Seq<char>) -> nat
    decreases l.len(),
{
    if l.len() > 0 && is_indent_char(l[0]) {
        1 + indent_len(l.drop_first())
    } else {
        0
    }
}

/// Indent level of `l`: the tabs and `*`s of its indentation prefix (spaces
/// do not count).
pub open spec fn indent_depth(l: Seq<char>) -> nat
    decreases l.len(),
{
    if l.len() > 0 && is_indent_char(l[0]) {
        (if l[0] == ' ' {
            0nat
        } else {
            1nat
        }) + indent_depth(l.drop_first())
    } else {
        0
    }
}

/// The item that one line becomes.
pub open spec fn parse_line(l: Seq<char>) -> ItemModel {
    if all_ws(l) {
        blank_item()
    } else {
        let rest = l.skip(indent_len(l) as int);
        if rest.len() > 0 && rest[0] == '+' {
            ItemModel {
                depth: indent_depth(l),
                text: trim_start(rest.drop_first()),
                folded: false,
                continuation: true,
            }
        } else {
            ItemModel { depth: indent_depth(l), text: rest, folded: false, continuation: false }
        }
    }
}

/// A (trimmed) first line of the form `((...))` that holds the config.
pub open spec fn is_config_line(t: Seq<char>) -> bool {
    &&& t.len() >= 4
    &&& t[0] == '('
    &&& t[1] == '('
    &&& t[t.len() - 2] == ')'
    &&& t[t.len() - 1] == ')'
}

/// The items that lines become, one per line.
pub open spec fn parse_lines(ls: Seq<Seq<char>>) -> Seq<ItemModel> {
    ls.map_values(|l: Seq<char>| parse_line(l))
}

/// The item lines as they read once the lines are joined with newlines and
/// split again: every line but the last loses one more trailing `'\r'`.
pub open spec fn rejoined(ls: Seq<Seq<char>>) -> Seq<Seq<char>> {
    Seq::new(
        ls.len(),
        |i: int|
            if i + 1 < ls.len() {
                strip_cr(ls[i])
            } else {
                ls[i]
            },
    )
}

/// The document that `s` holds: an optional `((config))` first line, then one
/// item per line of the rest (see `rejoined`); every line is kept, blank
/// lines (the last one too) as blank items.
pub open spec fn spec_parse(s: Seq<char>) -> DocModel {
    let ls = lines(s);
    if ls.len() == 0 {
        DocModel { items: seq![], config: None }
    } else {
        let ft = trim_start(ls[0]);
        if is_config_line(ft) {
            DocModel {
                items: parse_lines(rejoined(ls.drop_first())),
                config: Some(ft.subrange(2, ft.len() - 2)),
            }
        } else {
            DocModel { items: parse_lines(rejoined(ls)), config: None }
        }
    }
}

/// Count leading tabs or `*`s as one indent level each; a mix is allowed
/// because HyperList historically used either. Spaces are skipped.
/// Returns the depth and the index where the rest of the line starts.
fn leading_indent(line: &Vec<char>) -> (r: (usize, usize))
    ensures
        r.0 == indent_depth(line@),
        r.1 == indent_len(line@),
        r.1 <= line.len(),
{
    let mut depth: usize = 0;
    let mut idx: usize = 0;
    assert(line@.skip(0) == line@);
    while idx < line.len() && (line[idx] == '\t' || line[idx] == '*' || line[idx] == ' ')
        invariant
            idx <= line.len(),
            depth <= idx,
            indent_depth(line@) == depth + indent_depth(line@.skip(idx as int)),
            indent_len(line@) == idx + indent_len(line@.skip(idx as int)),
        decreases line.len() - idx,
    {
        let c = line[idx];
        let ghost t = line@.skip(idx as int);
        assert(t.drop_first() == line@.skip(idx + 1));
        assert(t[0] == c);
        if c == ' ' {
            idx = idx + 1;
        } else {
            depth = depth + 1;
            idx = idx + 1;
        }
    }
    proof {
        if idx == line.len() {
            assert(line@.skip(idx as int).len() == 0);
        } else {
            assert(line@.skip(idx as int)[0] == line@[idx as int]);
        }
    }
    (depth, idx)
}

/// Parses one line into an item.
fn parse_one_line(line: &Vec<char>) -> (r: Item)
    ensures
        r@ == parse_line(line@),
{
    if is_blank(line) {
        return Item { depth: 0, text: String::new(), folded: false, continuation: false };
    }
    let (depth, idx) = leading_indent(line);
    let rest = crate::text::slice_chars(line, idx, line.len());
    assert(rest@ == line@.skip(idx as int));
    if rest.len() > 0 && rest[0] == '+' {
        let after = crate::text::slice_chars(&rest, 1, rest.len());
        assert(after@ == rest@.drop_first());
        let trimmed = trim_start_chars(&after);
        Item { depth, text: string_of(&trimmed), folded: false, continuation: true }
    } else {
        Item { depth, text: string_of(&rest), folded: false, continuation: false }
    }
}

/// Parses each line of `ls[from..]` into an item, each line but the last
/// without one more trailing `'\r'`.
fn parse_all_lines(ls: &Vec<Vec<char>>, from: usize) -> (r: Vec<Item>)
    requires
        from <= ls.len(),
    ensures
        items_model(r@) == parse_lines(rejoined(views(ls@).skip(from as int))),
{
    let ghost all = rejoined(views(ls@).skip(from as int));
    let mut out: Vec<Item> = Vec::new();
    let mut i: usize = from;
    assert(items_model(out@) =~= all.take(0).map_values(|l: Seq<char>| parse_line(l)));
    while i < ls.len()
        invariant
            from <= i <= ls.len(),
            all == rejoined(views(ls@).skip(from as int)),
            items_model(out@) == all.take(i - from).map_values(|l: Seq<char>| parse_line(l)),
        decreases ls.len() - i,
    {
        let it = if i + 1 < ls.len() {
            parse_one_line(&crate::text::strip_cr_chars(&ls[i]))
        } else {
            parse_one_line(&ls[i])
        };
        let ghost before = out@;
        out.push(it);
        proof {
            assert(views(ls@).skip(from as int)[i - from] == ls@[i as int]@);
            assert(it@ == parse_line(all[i - from]));
            assert(items_model(out@) =~= items_model(before).push(it@));
            assert(all.take(i - from + 1).map_values(|l: Seq<char>| parse_line(l)) =~= all.take(
                i - from,
            ).map_values(|l: Seq<char>| parse_line(l)).push(parse_line(all[i - from])));
        }
        i = i + 1;
    }
    assert(all.take(i - from) == all);
    out
}

/// Parses HyperList source text into a document.
pub fn parse(source: &str) -> (doc: Document)
    ensures
        doc@ == spec_parse(source@),
{
    let chars = chars_of(source);
    let ls = split_lines(&chars);
    if ls.len() == 0 {
        let items: Vec<Item> = Vec::new();
        assert(items_model(items@) =~= Seq::<ItemModel>::empty());
        return Document { items, config: None };
    }
    let first_trim = trim_start_chars(&ls[0]);
    assert(views(ls@)[0] == ls@[0]@);
    let n = first_trim.len();
    if n >= 4 && first_trim[0] == '(' && first_trim[1] == '(' && first_trim[n - 2] == ')'
        && first_trim[n - 1] == ')' {
        let config = string_of_range(&first_trim, 2, n - 2);
        assert(views(ls@).skip(1) == views(ls@).drop_first());
        let items = parse_all_lines(&ls, 1);
        Document { items, config: Some(config) }
    } else {
        assert(views(ls@).skip(0) == views(ls@));
        let items = parse_all_lines(&ls, 0);
        Document { items, config: None }
    }
}

// ---------------------------------------------------------------------------
// Serializing
// ---------------------------------------------------------------------------

/// `n` tab characters.
pub open spec fn tabs(n: nat) -> Seq<char> {
    Seq::new(n, |_i: int| '\t')
}

/// The line that an item is written as (without its line ending): blank for
/// an item without text, else one tab per level, `"+ "` for a continuation,
/// and the text.
pub open spec fn item_line(it: ItemModel) -> Seq<char> {
    if it.text.len() == 0 {
        seq![]
    } else {
        tabs(it.depth) + (if it.continuation {
            seq!['+', ' ']
        } else {
            seq![]
        }) + it.text
    }
}

/// The items written one per line, each line ending in `'\n'`.
pub open spec fn serialize_items(items: Seq<ItemModel>) -> Seq<char>
    decreases items.len(),
{
    if items.len() == 0 {
        seq![]
    } else {
        serialize_items(items.drop_last()) + item_line(items.last()) + seq!['\n']
    }
}

/// The config line `((config))` with its line ending, or nothing.
pub open spec fn config_line(config: Option<Seq<char>>) -> Seq<char> {
    match config {
        Some(c) => seq!['(', '('] + c + seq![')', ')', '\n'],
        None => seq![],
    }
}

/// The text that a document is written as.
pub open spec fn spec_serialize(doc: DocModel) -> Seq<char> {
    config_line(doc.config) + serialize_items(doc.items)
}

/// Serialize the document back to text. Uses tabs for indentation so the
/// result round-trips with Vim and the Ruby TUI.
pub fn serialize(doc: &Document) -> (out: String)
    ensures
        out@ == spec_serialize(doc@),
{
    let mut out = String::new();
    match &doc.config {
        Some(cfg) => {
            push_char(&mut out, '(');
            push_char(&mut out, '(');
            out.append(cfg.as_str());
            push_char(&mut out, ')');
            push_char(&mut out, ')');
            push_char(&mut out, '\n');
        },
        None => {},
    }
    let ghost head = out@;
    assert(head =~= config_line(doc@.config));
    let ghost model = doc@.items;
    let mut i: usize = 0;
    assert(model.take(0).len() == 0);
    while i < doc.items.len()
        invariant
            i <= doc.items.len(),
            model == items_model(doc.items@),
            out@ == head + serialize_items(model.take(i as int)),
        decreases doc.items.len() - i,
    {
        let it = &doc.items[i];
        let ghost before = out@;
        assert(model[i as int] == it@);
        assert(model.take(i + 1).drop_last() == model.take(i as int));
        if it.text.as_str().is_empty() {
            push_char(&mut out, '\n');
            assert(out@ =~= head + serialize_items(model.take(i + 1)));
        } else {
            let mut j: usize = 0;
            while j < it.depth
                invariant
                    j <= it.depth,
                    out@ == before + tabs(j as nat),
                decreases it.depth - j,
            {
                push_char(&mut out, '\t');
                assert(tabs(j as nat).push('\t') =~= tabs((j + 1) as nat));
                j = j + 1;
            }
            if it.continuation {
                push_char(&mut out, '+');
                push_char(&mut out, ' ');
            }
            out.append(it.text.as_str());
            push_char(&mut out, '\n');
            assert(out@ =~= head + serialize_items(model.take(i + 1)));
        }
        i = i + 1;
    }
    assert(model.take(i as int) == model);
    out
}

// ---------------------------------------------------------------------------
// Round trip
// ---------------------------------------------------------------------------

/// An item that `serialize` writes as a line that `parse` reads back as the
/// same item: not folded; its text holds no newline and does not end in
/// `'\r'`; a blank item has depth 0 and is no continuation; a continuation's
/// text starts with a character that is not white space; another item's text
/// is not all white space and starts with neither indentation nor `+`.
pub open spec fn canonical_item(it: ItemModel) -> bool {
    &&& !it.folded
    &&& lacks(it.text, '\n')
    &&& strip_cr(it.text) == it.text
    &&& if it.text.len() == 0 {
        it.depth == 0 && !it.continuation
    } else if it.continuation {
        !is_ws(it.text[0])
    } else {
        !all_ws(it.text) && !is_indent_char(it.text[0]) && it.text[0] != '+'
    }
}

/// A document that `serialize` writes as text that `parse` reads back as the
/// same document: every item is canonical, a config holds no newline, and
/// without a config the first line does not read as a `((config))` line.
pub open spec fn canonical(doc: DocModel) -> bool {
    &&& forall|i: int| 0 <= i < doc.items.len() ==> canonical_item(#[trigger] doc.items[i])
    &&& match doc.config {
        Some(c) => lacks(c, '\n'),
        None => doc.items.len() > 0 ==> !is_config_line(trim_start(item_line(doc.items[0]))),
    }
}

/// `serialize_items` unfolded from the front.
proof fn lemma_serialize_items_front(items: Seq<ItemModel>)
    requires
        items.len() > 0,
    ensures
        serialize_items(items) == item_line(items[0]) + seq!['\n'] + serialize_items(
            items.drop_first(),
        ),
    decreases items.len(),
{
    if items.len() == 1 {
        assert(items.drop_first().len() == 0);
        assert(items.drop_last().len() == 0);
        assert(serialize_items(items.drop_last()) =~= Seq::<char>::empty());
        assert(serialize_items(items) =~= item_line(items[0]) + seq!['\n']);
    } else {
        let a = items.drop_last();
        let b = items.drop_first();
        lemma_serialize_items_front(a);
        assert(a.drop_first() == b.drop_last());
        assert(b.last() == items.last());
        assert(serialize_items(items) =~= item_line(items[0]) + seq!['\n'] + serialize_items(b));
    }
}

/// The lines of serialized items are the items' lines.
proof fn lemma_lines_serialized(items: Seq<ItemModel>)
    requires
        forall|i: int| 0 <= i < items.len() ==> canonical_item(#[trigger] items[i]),
    ensures
        lines(serialize_items(items)) == items.map_values(|it: ItemModel| item_line(it)),
    decreases items.len(),
{
    if items.len() == 0 {
        assert(items.map_values(|it: ItemModel| item_line(it)) =~= Seq::<Seq<char>>::empty());
    } else {
        lemma_serialize_items_front(items);
        let b = items.drop_first();
        assert forall|i: int| 0 <= i < b.len() implies canonical_item(#[trigger] b[i]) by {
            assert(b[i] == items[i + 1]);
        }
        lemma_lines_serialized(b);
        lemma_item_line_shape(items[0]);
        lemma_lines_cons(item_line(items[0]), serialize_items(b));
        assert(items.map_values(|it: ItemModel| item_line(it)) =~= seq![item_line(items[0])]
            + b.map_values(|it: ItemModel| item_line(it)));
    }
}

/// A canonical item's line holds no newline and does not end in `'\r'`.
proof fn lemma_item_line_shape(it: ItemModel)
    requires
        canonical_item(it),
    ensures
        lacks(item_line(it), '\n'),
        strip_cr(item_line(it)) == item_line(it),
        item_line(it).len() > 0 <==> it.text.len() > 0,
{
    let l = item_line(it);
    if it.text.len() > 0 {
        let pre = tabs(it.depth) + (if it.continuation {
            seq!['+', ' ']
        } else {
            seq![]
        });
        assert(l == pre + it.text);
        assert forall|i: int| 0 <= i < l.len() implies #[trigger] l[i] != '\n' by {
            if i >= pre.len() {
                assert(l[i] == it.text[i - pre.len()]);
            }
        }
        assert(l.last() == it.text.last());
    }
}

/// Indentation made of `d` tabs in front of a sequence.
proof fn lemma_indent_tabs(d: nat, rest: Seq<char>)
    ensures
        indent_len(tabs(d) + rest) == d + indent_len(rest),
        indent_depth(tabs(d) + rest) == d + indent_depth(rest),
        (tabs(d) + rest).skip(d as int) == rest,
    decreases d,
{
    let l = tabs(d) + rest;
    if d > 0 {
        lemma_indent_tabs((d - 1) as nat, rest);
        assert(l.drop_first() =~= tabs((d - 1) as nat) + rest);
        assert(l[0] == '\t');
    } else {
        assert(l =~= rest);
    }
    assert(l.skip(d as int) =~= rest);
}

/// A sequence of tabs is all white space.
proof fn lemma_all_ws_concat(a: Seq<char>, b: Seq<char>)
    ensures
        all_ws(a + b) <==> all_ws(a) && all_ws(b),
{
    let s = a + b;
    if all_ws(a) && all_ws(b) {
        assert forall|i: int| 0 <= i < s.len() implies is_ws(#[trigger] s[i]) by {
            if i < a.len() {
                assert(s[i] == a[i]);
            } else {
                assert(s[i] == b[i - a.len()]);
            }
        }
    }
    if all_ws(s) {
        assert forall|i: int| 0 <= i < a.len() implies is_ws(#[trigger] a[i]) by {
            assert(s[i] == a[i]);
        }
        assert forall|i: int| 0 <= i < b.len() implies is_ws(#[trigger] b[i]) by {
            assert(s[i + a.len()] == b[i]);
        }
    }
}

/// A canonical item's line reads back as the item.
proof fn lemma_parse_item_line(it: ItemModel)
    requires
        canonical_item(it),
    ensures
        parse_line(item_line(it)) == it,
{
    let l = item_line(it);
    if it.text.len() == 0 {
        assert(all_ws(l));
        assert(parse_line(l).text =~= it.text);
    } else {
        let d = it.depth;
        let rest = (if it.continuation {
            seq!['+', ' ']
        } else {
            seq![]
        }) + it.text;
        assert(l =~= tabs(d) + rest);
        lemma_indent_tabs(d, rest);
        assert(all_ws(tabs(d)));
        lemma_all_ws_concat(tabs(d), rest);
        assert(rest[0] == (if it.continuation {
            '+'
        } else {
            it.text[0]
        }));
        assert(indent_len(rest) == 0);
        assert(indent_depth(rest) == 0);
        if it.continuation {
            assert(!is_ws(rest[0]));
            let after = rest.drop_first();
            assert(after =~= seq![' '] + it.text);
            assert(after.drop_first() =~= it.text);
            assert(lead_ws(it.text) == 0);
            assert(lead_ws(after) == 1);
            assert(trim_start(after) =~= it.text);
        } else {
            assert(rest =~= it.text);
            if all_ws(rest) {
                assert(false);
            }
        }
        assert(parse_line(l).text =~= it.text);
    }
}

/// A canonical document written by `serialize` and read back by `parse` is
/// the same document.
pub proof fn lemma_parse_serialize_roundtrip(doc: DocModel)
    requires
        canonical(doc),
    ensures
        spec_parse(spec_serialize(doc)) == doc,
{
    let items = doc.items;
    let ls = items.map_values(|it: ItemModel| item_line(it));
    let body = serialize_items(items);
    lemma_lines_serialized(items);
    assert forall|i: int| 0 <= i < ls.len() implies lacks(#[trigger] ls[i], '\n') && strip_cr(
        ls[i],
    ) == ls[i] by {
        lemma_item_line_shape(items[i]);
    }
    assert forall|i: int| 0 <= i < ls.len() implies #[trigger] parse_line(ls[i]) == items[i] by {
        lemma_parse_item_line(items[i]);
    }
    let parsed = ls.map_values(|l: Seq<char>| parse_line(l));
    assert(parsed =~= items);
    assert(parse_lines(ls) == parsed);
    match doc.config {
        Some(c) => {
            let first = seq!['(', '('] + c + seq![')', ')'];
            assert(spec_serialize(doc) =~= first + seq!['\n'] + body);
            assert forall|i: int| 0 <= i < first.len() implies #[trigger] first[i] != '\n' by {
                if 2 <= i < first.len() - 2 {
                    assert(first[i] == c[i - 2]);
                }
            }
            lemma_lines_cons(first, body);
            let all = lines(spec_serialize(doc));
            assert(all[0] == first);
            assert(all.drop_first() =~= ls);
            crate::text::lemma_lead_ws(first, 0);
            assert(first.take(0).len() == 0);
            assert(trim_start(first) =~= first);
            assert(first.subrange(2, first.len() - 2) =~= c);
            assert(all.len() > 0);
            assert(trim_start(all[0]) == first);
            assert(is_config_line(first));
            assert(parse_lines(all.drop_first()) == items);
            let r = spec_parse(spec_serialize(doc));
            assert(r.items == items);
            assert(r.config == Some(c));
            assert(doc.config == Some(c));
            assert(r == doc);
        },
        None => {
            assert(spec_serialize(doc) =~= body);
            if items.len() == 0 {
                assert(body.len() == 0);
            } else {
                assert(lines(body)[0] == item_line(items[0]));
            }
        },
    }
}

/// Number of leading tabs of `l`.
pub open spec fn lead_tabs(l: Seq<char>) -> nat
    decreases l.len(),
{
    if l.len() > 0 && l[0] == '\t' {
        1 + lead_tabs(l.drop_first())
    } else {
        0
    }
}

/// A line as `serialize` writes an item: empty; or tabs, then a text that
/// starts with neither white space, `*` nor `+`; or tabs, `"+ "`, then a
/// text that does not start with white space.
pub open spec fn canonical_line(l: Seq<char>) -> bool {
    let rest = l.skip(lead_tabs(l) as int);
    ||| l.len() == 0
    ||| rest.len() > 0 && !is_ws(rest[0]) && rest[0] != '*' && rest[0] != '+'
    ||| rest.len() > 2 && rest[0] == '+' && rest[1] == ' ' && !is_ws(rest[2])
}

/// Text as `serialize` writes it: no carriage return, every line ended by a
/// newline, and every line canonical, except that the first one may be a
/// `((config))` line with nothing in front of it.
pub open spec fn canonical_source(s: Seq<char>) -> bool {
    let ls = lines(s);
    &&& lacks(s, '\r')
    &&& s.len() == 0 || s.last() == '\n'
    &&& forall|i: int| 0 < i < ls.len() ==> canonical_line(#[trigger] ls[i])
    &&& ls.len() > 0 ==> if is_config_line(trim_start(ls[0])) {
        lead_ws(ls[0]) == 0
    } else {
        canonical_line(ls[0])
    }
}

/// The lines joined back, each followed by a newline.
pub open spec fn joined(ls: Seq<Seq<char>>) -> Seq<char>
    decreases ls.len(),
{
    if ls.len() == 0 {
        seq![]
    } else {
        ls[0] + seq!['\n'] + joined(ls.drop_first())
    }
}

/// Text without carriage returns whose last line is ended is its lines
/// joined back.
proof fn lemma_joined_lines(s: Seq<char>)
    requires
        lacks(s, '\r'),
        s.len() == 0 || s.last() == '\n',
    ensures
        joined(lines(s)) == s,
        forall|i: int| 0 <= i < lines(s).len() ==> lacks(#[trigger] lines(s)[i], '\n'),
        forall|i: int| 0 <= i < lines(s).len() ==> lacks(#[trigger] lines(s)[i], '\r'),
    decreases s.len(),
{
    if s.len() > 0 {
        lemma_first_nl(s, s.len() - 1);
        let k = first_nl(s) as int;
        if k >= s.len() {
            assert(lacks(s.take(k), '\n'));
            assert(s.take(k) == s);
            assert(s[s.len() - 1] != '\n');
        }
        let head = s.take(k);
        let tail = s.skip(k + 1);
        assert(strip_cr(head) == head) by {
            if head.len() > 0 {
                assert(head.last() == s[k - 1]);
            }
        }
        assert forall|i: int| 0 <= i < tail.len() implies #[trigger] tail[i] != '\r' by {
            assert(tail[i] == s[k + 1 + i]);
        }
        if tail.len() > 0 {
            assert(tail.last() == s.last());
        }
        lemma_joined_lines(tail);
        let ls = lines(s);
        assert(ls == seq![head] + lines(tail));
        assert(ls.drop_first() =~= lines(tail));
        assert(joined(ls) =~= s);
        assert forall|i: int| 0 <= i < ls.len() implies lacks(#[trigger] ls[i], '\n') && lacks(ls[i], '\r') by {
            if i > 0 {
                assert(ls[i] == lines(tail)[i - 1]);
            } else {
                assert forall|j: int| 0 <= j < head.len() implies #[trigger] head[j] != '\r' by {
                    assert(head[j] == s[j]);
                }
            }
        }
    }
}

/// A line is its leading tabs followed by the rest.
proof fn lemma_lead_tabs(l: Seq<char>)
    ensures
        lead_tabs(l) <= l.len(),
        l == tabs(lead_tabs(l)) + l.skip(lead_tabs(l) as int),
    decreases l.len(),
{
    if l.len() > 0 && l[0] == '\t' {
        let t = l.drop_first();
        lemma_lead_tabs(t);
        let n = lead_tabs(t);
        assert(l.skip(n + 1int) =~= t.skip(n as int));
        assert(tabs((n + 1) as nat) =~= seq!['\t'] + tabs(n));
        assert(l =~= seq![l[0]] + t);
        assert(l =~= tabs(lead_tabs(l)) + l.skip(lead_tabs(l) as int));
    } else {
        assert(l =~= tabs(0) + l.skip(0));
    }
}

/// A canonical line is written back as itself.
proof fn lemma_canonical_line(l: Seq<char>)
    requires
        canonical_line(l),
    ensures
        item_line(parse_line(l)) == l,
{
    if l.len() == 0 {
        assert(all_ws(l));
    } else {
        let d = lead_tabs(l);
        let rest = l.skip(d as int);
        lemma_lead_tabs(l);
        lemma_indent_tabs(d, rest);
        assert(rest.len() > 0);
        assert(!is_ws(rest[0]));
        assert(indent_len(rest) == 0);
        assert(indent_depth(rest) == 0);
        assert(!all_ws(l)) by {
            assert(l[d as int] == rest[0]);
        }
        let it = parse_line(l);
        if rest[0] == '+' {
            let after = rest.drop_first();
            let t = after.drop_first();
            assert(after =~= seq![' '] + t);
            assert(after[0] == ' ');
            assert(is_ws(after[0]));
            assert(lead_ws(t) == 0);
            assert(lead_ws(after) == 1);
            assert(trim_start(after) =~= t);
            assert(it.text == t);
            assert(it.continuation);
            assert(rest =~= seq!['+', ' '] + t);
            assert(item_line(it) =~= l);
        } else {
            assert(it.text == rest);
            assert(item_line(it) =~= l);
        }
    }
}

/// Writing the items read from canonical lines joins the lines back.
proof fn lemma_serialize_parsed_lines(ls: Seq<Seq<char>>)
    requires
        forall|i: int| 0 <= i < ls.len() ==> canonical_line(#[trigger] ls[i]),
    ensures
        serialize_items(parse_lines(ls)) == joined(ls),
    decreases ls.len(),
{
    if ls.len() > 0 {
        let items = parse_lines(ls);
        lemma_serialize_items_front(items);
        let rest = ls.drop_first();
        assert forall|i: int| 0 <= i < rest.len() implies canonical_line(#[trigger] rest[i]) by {
            assert(rest[i] == ls[i + 1]);
        }
        lemma_serialize_parsed_lines(rest);
        assert(items.drop_first() =~= parse_lines(rest));
        lemma_canonical_line(ls[0]);
        assert(item_line(items[0]) == ls[0]);
    }
}

/// Canonical text read by `parse` and written back by `serialize` is the
/// same text.
pub proof fn lemma_serialize_parse_roundtrip(s: Seq<char>)
    requires
        canonical_source(s),
    ensures
        spec_serialize(spec_parse(s)) == s,
{
    let ls = lines(s);
    lemma_joined_lines(s);
    assert forall|i: int| 0 <= i < ls.len() implies strip_cr(#[trigger] ls[i]) == ls[i] by {
        if ls[i].len() > 0 {
            assert(lacks(ls[i], '\r'));
            assert(ls[i].last() == ls[i][ls[i].len() - 1]);
        }
    }
    if ls.len() == 0 {
        assert(s.len() == 0);
        assert(spec_serialize(spec_parse(s)) =~= s);
    } else {
        let ft = trim_start(ls[0]);
        let rest = ls.drop_first();
        assert forall|i: int| 0 <= i < rest.len() implies canonical_line(#[trigger] rest[i]) by {
            assert(rest[i] == ls[i + 1]);
        }
        lemma_serialize_parsed_lines(rest);
        assert(rejoined(rest) =~= rest);
        assert(rejoined(ls) =~= ls);
        assert(joined(ls) == ls[0] + seq!['\n'] + joined(rest));
        if is_config_line(ft) {
            assert(ft =~= ls[0]);
            let c = ft.subrange(2, ft.len() - 2);
            assert(config_line(Some(c)) =~= ls[0] + seq!['\n']);
            assert(spec_serialize(spec_parse(s)) =~= s);
        } else {
            lemma_serialize_parsed_lines(ls);
            assert(spec_serialize(spec_parse(s)) =~= s);
        }
    }
}

// ---------------------------------------------------------------------------
// Tree structure
// ---------------------------------------------------------------------------

/// The first index `j >= from` whose item is not blank and has depth at most
/// `d`, or `items.len()` when there is none.
pub open spec fn scan_end(items: Seq<ItemModel>, d: nat, from: int) -> int
    decreases items.len() - from,
{
    if from < 0 || from >= items.len() {
        items.len() as int
    } else if items[from].depth <= d && items[from].text.len() > 0 {
        from
    } else {
        scan_end(items, d, from + 1)
    }
}

/// End (exclusive) of the subtree rooted at `idx`: the first later item that
/// is not blank and not deeper than `items[idx]`.
pub open spec fn subtree_end(items: Seq<ItemModel>, idx: int) -> int {
    scan_end(items, items[idx].depth, idx + 1)
}

/// `scan_end` is the first index at or after `from` that ends the scan.
pub proof fn lemma_scan_end(items: Seq<ItemModel>, d: nat, from: int)
    requires
        0 <= from <= items.len(),
    ensures
        from <= scan_end(items, d, from) <= items.len(),
        forall|j: int|
            from <= j < scan_end(items, d, from) ==> !(#[trigger] items[j].depth <= d
                && items[j].text.len() > 0),
        scan_end(items, d, from) < items.len() ==> items[scan_end(items, d, from)].depth <= d
            && items[scan_end(items, d, from)].text.len() > 0,
    decreases items.len() - from,
{
    if from < items.len() && !(items[from].depth <= d && items[from].text.len() > 0) {
        lemma_scan_end(items, d, from + 1);
    }
}

/// `c` is a direct child of `p`: it lies after `p` and before the end of
/// `p`'s subtree, one level deeper than `p`.
pub open spec fn is_child(items: Seq<ItemModel>, p: int, c: int) -> bool {
    &&& 0 <= p < items.len()
    &&& p < c < subtree_end(items, p)
    &&& items[c].depth == items[p].depth + 1
}

/// The indexes `from`, `from + 1`, ..., `to - 1`.
pub open spec fn index_range(from: int, to: int) -> Seq<usize> {
    Seq::new((to - from) as nat, |k: int| (from + k) as usize)
}

/// Whether an index names an item at depth `d + 1`.
pub open spec fn one_below(items: Seq<ItemModel>, d: nat) -> spec_fn(usize) -> bool {
    |i: usize| items[i as int].depth == d + 1
}

/// The direct children of item `p`: of the items after `p` up to its last
/// descendant, those one level deeper than `p`; none when `p` is out of
/// range.
pub open spec fn spec_children(items: Seq<ItemModel>, p: int) -> Seq<usize> {
    if 0 <= p < items.len() {
        index_range(p + 1, spec_last_descendant(items, p) + 1).filter(one_below(items, items[p].depth))
    } else {
        seq![]
    }
}

/// Return indexes of items that are direct children of `parent_idx` (depth
/// parent.depth+1, between parent and next item at depth <= parent.depth).
pub fn children(items: &[Item], parent_idx: usize) -> (out: Vec<usize>)
    requires
        parent_idx < items.len() ==> items[parent_idx as int].depth < usize::MAX,
    ensures
        out@ == spec_children(items_model(items@), parent_idx as int),
        parent_idx >= items.len() ==> out@.len() == 0,
        forall|a: int, b: int| 0 <= a < b < out@.len() ==> out@[a] < out@[b],
        forall|k: int|
            0 <= k < out@.len() ==> is_child(items_model(items@), parent_idx as int, #[trigger] out@[k] as int),
        forall|j: int|
            is_child(items_model(items@), parent_idx as int, j) ==> #[trigger] out@.contains(j as usize),
{
    let mut out: Vec<usize> = Vec::new();
    if parent_idx >= items.len() {
        return out;
    }
    let ghost m0 = items_model(items@);
    let ghost m = items_model(items@);
    let pdepth = items[parent_idx].depth;
    proof {
        lemma_scan_end(m, pdepth as nat, parent_idx + 1);
    }
    let ghost end = subtree_end(m, parent_idx as int);
    let mut i = parent_idx + 1;
    while i < items.len()
        invariant
            parent_idx < i <= items.len(),
            i <= end,
            m == items_model(items@),
            pdepth == m[parent_idx as int].depth,
            pdepth < usize::MAX,
            end == subtree_end(m, parent_idx as int),
            parent_idx + 1 <= end <= items.len(),
            forall|j: int|
                parent_idx + 1 <= j < end ==> !(#[trigger] m[j].depth <= pdepth && m[j].text.len()
                    > 0),
            end < items.len() ==> m[end].depth <= pdepth && m[end].text.len() > 0,
            forall|a: int, b: int| 0 <= a < b < out@.len() ==> out@[a] < out@[b],
            forall|k: int|
                0 <= k < out@.len() ==> parent_idx < #[trigger] out@[k] < i && m[out@[k] as int].depth
                    == pdepth + 1,
            forall|j: int|
                parent_idx < j < i && #[trigger] m[j].depth == pdepth + 1 ==> out@.contains(
                    j as usize,
                ),
            out@ == index_range(parent_idx + 1, i as int).filter(one_below(m, pdepth as nat)),
        ensures
            i == end,
        decreases items.len() - i,
    {
        let it = &items[i];
        assert(m[i as int] == it@);
        if it.depth <= pdepth && !it.text.as_str().is_empty() {
            assert(m[i as int].depth <= pdepth && m[i as int].text.len() > 0);
            break;
        }
        let ghost old_out = out@;
        proof {
            let r = index_range(parent_idx + 1, i as int);
            assert(index_range(parent_idx + 1, i + 1) =~= r.push(i));
            r.lemma_filter_push(i, one_below(m, pdepth as nat));
        }
        if it.depth == pdepth + 1 {
            out.push(i);
            assert(out@[out@.len() - 1] == i);
        }
        proof {
            assert forall|j: int|
                parent_idx < j < i + 1 && #[trigger] m[j].depth == pdepth + 1 implies out@.contains(
                j as usize,
            ) by {
                if j < i {
                    let k = choose|k: int| 0 <= k < old_out.len() && old_out[k] == j as usize;
                    assert(out@[k] == old_out[k]);
                } else {
                    assert(out@[out@.len() - 1] == i);
                }
            }
        }
        i = i + 1;
    }
    out
}

/// Index of the last item in the subtree rooted at `idx`: the item before the
/// first later item that is not blank and not deeper than `items[idx]` (blank
/// items inside belong to the subtree), or `idx` itself when out of range.
pub open spec fn spec_last_descendant(items: Seq<ItemModel>, idx: int) -> int {
    if idx < 0 || idx >= items.len() {
        idx
    } else {
        subtree_end(items, idx) - 1
    }
}

/// Index of the last item in the subtree rooted at `idx`.
pub fn last_descendant(items: &[Item], idx: usize) -> (last: usize)
    ensures
        last == spec_last_descendant(items_model(items@), idx as int),
{
    if idx >= items.len() {
        return idx;
    }
    let ghost m = items_model(items@);
    let rdepth = items[idx].depth;
    proof {
        lemma_scan_end(m, rdepth as nat, idx + 1);
    }
    let ghost end = subtree_end(m, idx as int);
    let mut last = idx;
    let mut i = idx + 1;
    while i < items.len()
        invariant
            idx < i <= items.len(),
            i <= end,
            last + 1 == i,
            m == items_model(items@),
            rdepth == m[idx as int].depth,
            end == subtree_end(m, idx as int),
            idx + 1 <= end <= items.len(),
            forall|j: int|
                idx + 1 <= j < end ==> !(#[trigger] m[j].depth <= rdepth && m[j].text.len() > 0),
            end < items.len() ==> m[end].depth <= rdepth && m[end].text.len() > 0,
        ensures
            i == end,
            last + 1 == i,
        decreases items.len() - i,
    {
        let it = &items[i];
        assert(m[i as int] == it@);
        if it.text.as_str().is_empty() {
            last = i;
            i = i + 1;
            continue;
        }
        if it.depth <= rdepth {
            assert(m[i as int].depth <= rdepth && m[i as int].text.len() > 0);
            break;
        }
        last = i;
        i = i + 1;
    }
    last
}

/// Every child of an item lies inside that item's subtree, as
/// `last_descendant` bounds it.
pub proof fn lemma_child_within_subtree(items: Seq<ItemModel>, p: int, c: int)
    requires
        is_child(items, p, c),
    ensures
        p < c <= spec_last_descendant(items, p),
{
}

/// The subtree of a child ends no later than the subtree of its parent.
pub proof fn lemma_child_subtree_nested(items: Seq<ItemModel>, p: int, c: int)
    requires
        is_child(items, p, c),
    ensures
        spec_last_descendant(items, c) <= spec_last_descendant(items, p),
{
    let d = items[p].depth;
    lemma_scan_end(items, d, p + 1);
    lemma_scan_end(items, items[c].depth, c + 1);
    let ep = subtree_end(items, p);
    let ec = subtree_end(items, c);
    if ep < ec {
        assert(items[ep].depth <= d && items[ep].text.len() > 0);
    }
}

/// Every item's depth is below `usize::MAX`, so that one level deeper is a
/// `usize` too.
pub open spec fn depths_ok(items: Seq<ItemModel>) -> bool {
    forall|i: int| 0 <= i < items.len() ==> #[trigger] items[i].depth < usize::MAX
}

/// Whether every item's depth is below `usize::MAX`.
pub fn depths_in_range(items: &[Item]) -> (r: bool)
    ensures
        r == depths_ok(items_model(items@)),
{
    let mut i: usize = 0;
    while i < items.len()
        invariant
            i <= items.len(),
            forall|j: int| 0 <= j < i ==> #[trigger] items_model(items@)[j].depth < usize::MAX,
        decreases items.len() - i,
    {
        assert(items_model(items@)[i as int] == items@[i as int]@);
        if items[i].depth == usize::MAX {
            assert(!(items_model(items@)[i as int].depth < usize::MAX));
            return false;
        }
        i = i + 1;
    }
    true
}

/// Sets the folded flag of item `j`, leaving everything else as it was.
pub fn set_folded(items: &mut Vec<Item>, j: usize, folded: bool)
    requires
        j < old(items).len(),
    ensures
        final(items)@.len() == old(items)@.len(),
        items_model(final(items)@) == items_model(old(items)@).update(
            j as int,
            ItemModel { folded, ..items_model(old(items)@)[j as int] },
        ),
    no_unwind
{
    items[j].folded = folded;
    assert(items_model(items@) =~= items_model(old(items)@).update(
        j as int,
        ItemModel { folded, ..items_model(old(items)@)[j as int] },
    ));
}

} // verus!
