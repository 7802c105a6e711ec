//! The outline view of a document: which items are visible under folding
//! and filtering, the selected item, and the moves, folds, filters,
//! highlights and jumps that change them.
use vstd::prelude::*;
use std::collections::HashSet;
use crate::text::{chars_of, trim_chars};
use crate::parser::{
    depths_ok, items_model, lemma_scan_end, set_folded, spec_last_descendant, subtree_end, Document,
    Item, ItemModel, opt_model, last_descendant, index_range, parse, spec_parse, depths_in_range,
};
use crate::display::{fold_level_setting, spec_fold_level_setting};

verus! {

broadcast use vstd::std_specs::hash::group_hash_axioms;

/// The outline of a document together with what the viewer shows of it.
pub struct Outline {
    doc: Document,
    /// Position of the selected item among the visible items.
    visible_idx: usize,
    /// Indexes of the items that pass the Show/Hide filter; `None` when no
    /// filter is active.
    filter_set: Option<HashSet<usize>>,
    /// Root of the highlighted branch, if any.
    highlight_root: Option<usize>,
    /// Presentation mode: only the current path is unfolded.
    presentation: bool,
}

/// What an [`Outline`] holds.
#[verifier::ext_equal]
pub struct OutlineModel {
    pub items: Seq<ItemModel>,
    pub config: Option<Seq<char>>,
    pub visible_idx: nat,
    pub filter: Option<Set<usize>>,
    pub highlight_root: Option<usize>,
    pub presentation: bool,
}

/// The model of an optional set of indexes.
pub open spec fn filter_model(f: Option<HashSet<usize>>) -> Option<Set<usize>> {
    match f {
        Some(s) => Some(s@),
        None => None,
    }
}

impl View for Outline {
    type V = OutlineModel;

    closed spec fn view(&self) -> OutlineModel {
        OutlineModel {
            items: items_model(self.doc.items@),
            config: opt_model(self.doc.config),
            visible_idx: self.visible_idx as nat,
            filter: filter_model(self.filter_set),
            highlight_root: self.highlight_root,
            presentation: self.presentation,
        }
    }
}

// ---------------------------------------------------------------------------
// Visibility
// ---------------------------------------------------------------------------

/// The item at `idx` has children: its next item is deeper, and some later
/// item that is not blank is deeper.
pub open spec fn spec_has_children(m: Seq<ItemModel>, idx: int) -> bool {
    &&& 0 <= idx < m.len()
    &&& exists|j: int| idx < j < m.len() && m[j].text.len() > 0 && #[trigger] m[j].depth > m[idx].depth
    &&& idx + 1 < m.len()
    &&& m[idx + 1].depth > m[idx].depth
}

/// The filter hides item `i`.
pub open spec fn filtered_out(f: Option<Set<usize>>, i: int) -> bool {
    match f {
        Some(s) => !s.contains(i as usize),
        None => false,
    }
}

/// `spec_last_descendant` is at or after the item and before the end.
pub proof fn lemma_last_descendant_bounds(m: Seq<ItemModel>, i: int)
    requires
        0 <= i < m.len(),
    ensures
        i <= spec_last_descendant(m, i) < m.len(),
{
    lemma_scan_end(m, m[i].depth, i + 1);
}

/// The visible items from index `i` on: items the filter passes, where a
/// folded item with children hides the rest of its subtree.
pub open spec fn vis_from(m: Seq<ItemModel>, f: Option<Set<usize>>, i: int) -> Seq<usize>
    decreases m.len() - i,
{
    if i < 0 || i >= m.len() {
        seq![]
    } else if filtered_out(f, i) {
        vis_from(m, f, i + 1)
    } else if m[i].folded && spec_has_children(m, i) {
        proof {
            lemma_last_descendant_bounds(m, i);
        }
        seq![i as usize] + vis_from(m, f, spec_last_descendant(m, i) + 1)
    } else {
        seq![i as usize] + vis_from(m, f, i + 1)
    }
}

/// The visible items of the outline, in document order.
pub open spec fn spec_visible(o: OutlineModel) -> Seq<usize> {
    vis_from(o.items, o.filter, 0)
}

/// The selected item, when the selection is on a visible item.
pub open spec fn spec_current(o: OutlineModel) -> Option<usize> {
    let v = spec_visible(o);
    if o.visible_idx < v.len() {
        Some(v[o.visible_idx as int])
    } else {
        None
    }
}

/// Visible items are strictly increasing indexes of items at or after `i`.
pub proof fn lemma_vis_from_sorted(m: Seq<ItemModel>, f: Option<Set<usize>>, i: int)
    requires
        0 <= i,
        m.len() <= usize::MAX,
    ensures
        forall|a: int, b: int|
            0 <= a < b < vis_from(m, f, i).len() ==> vis_from(m, f, i)[a] < vis_from(m, f, i)[b],
        forall|k: int|
            0 <= k < vis_from(m, f, i).len() ==> i <= #[trigger] vis_from(m, f, i)[k] < m.len(),
        i >= m.len() ==> vis_from(m, f, i).len() == 0,
        i < m.len() ==> vis_from(m, f, i).len() <= m.len() - i,
    decreases m.len() - i,
{
    if i < m.len() {
        if filtered_out(f, i) {
            lemma_vis_from_sorted(m, f, i + 1);
        } else {
            let next = if m[i].folded && spec_has_children(m, i) {
                spec_last_descendant(m, i) + 1
            } else {
                i + 1
            };
            lemma_last_descendant_bounds(m, i);
            lemma_vis_from_sorted(m, f, next);
            let r = vis_from(m, f, i);
            let t = vis_from(m, f, next);
            assert(r == seq![i as usize] + t);
            assert forall|k: int| 0 <= k < r.len() implies i <= #[trigger] r[k] < m.len() by {
                if k > 0 {
                    assert(r[k] == t[k - 1]);
                }
            }
            assert forall|a: int, b: int| 0 <= a < b < r.len() implies r[a] < r[b] by {
                if a > 0 {
                    assert(r[a] == t[a - 1]);
                }
                assert(r[b] == t[b - 1]);
            }
        }
    }
}

impl Outline {
    #[verifier::type_invariant]
    closed spec fn inv(self) -> bool {
        &&& depths_ok(items_model(self.doc.items@))
        &&& self.visible_idx < usize::MAX
        &&& self.doc.items@.len() <= usize::MAX
    }

    /// The outline of a document, with the first item selected, no filter,
    /// no highlight and presentation mode off.
    pub fn new(doc: Document) -> (o: Outline)
        requires
            depths_ok(doc@.items),
        ensures
            o@.items == doc@.items,
            o@.config == doc@.config,
            o@.visible_idx == 0,
            o@.filter is None,
            o@.highlight_root is None,
            !o@.presentation,
    {
        let _len = doc.items.len();
        Outline { doc, visible_idx: 0, filter_set: None, highlight_root: None, presentation: false }
    }

    /// Show another document; the selection position, filter, highlight and
    /// presentation mode stay as they were.
    pub fn load_document(&mut self, doc: Document)
        requires
            depths_ok(doc@.items),
        ensures
            final(self)@ == (OutlineModel { items: doc@.items, config: doc@.config, ..old(self)@ }),
    {
        proof {
            use_type_invariant(&*self);
        }
        let _len = doc.items.len();
        self.doc = doc;
    }

    /// Read `source` as the document to show: parse it, show it, and fold
    /// it to the level its config line sets with `fold_level=N`, if any.
    /// Returns false, and changes nothing, when an item's depth reaches
    /// `usize::MAX`.
    pub fn load_text(&mut self, source: &str) -> (ok: bool)
        ensures
            ok == depths_ok(spec_parse(source@).items),
            ok ==> final(self)@ == spec_load_text(old(self)@, source@),
            !ok ==> final(self)@ == old(self)@,
    {
        let doc = parse(source);
        if !depths_in_range(doc.items.as_slice()) {
            return false;
        }
        self.load_document(doc);
        let level = match &self.doc.config {
            Some(c) => fold_level_setting(c.as_str()),
            None => None,
        };
        if let Some(l) = level {
            self.fold_to_level(l);
        }
        true
    }

    /// The document shown.
    pub fn doc(&self) -> (d: &Document)
        ensures
            d@.items == self@.items,
            d@.config == self@.config,
    {
        &self.doc
    }

    /// Position of the selection among the visible items.
    pub fn visible_idx(&self) -> (r: usize)
        ensures
            r == self@.visible_idx,
    {
        self.visible_idx
    }

    /// Root of the highlighted branch, if any.
    pub fn highlight_root(&self) -> (r: Option<usize>)
        ensures
            r == self@.highlight_root,
    {
        self.highlight_root
    }

    /// Whether presentation mode is on.
    pub fn presentation(&self) -> (r: bool)
        ensures
            r == self@.presentation,
    {
        self.presentation
    }

    /// Whether a Show/Hide filter is active.
    pub fn filter_active(&self) -> (r: bool)
        ensures
            r == self@.filter is Some,
    {
        self.filter_set.is_some()
    }

    /// Whether the item at `idx` has children (see `spec_has_children`).
    pub fn has_children(&self, idx: usize) -> (r: bool)
        ensures
            r == spec_has_children(self@.items, idx as int),
    {
        has_children_in(&self.doc.items, idx)
    }

    /// Indexes of the visible items, in document order.
    pub fn visible_items(&self) -> (r: Vec<usize>)
        ensures
            r@ == spec_visible(self@),
            forall|a: int, b: int| 0 <= a < b < r@.len() ==> r@[a] < r@[b],
            forall|k: int| 0 <= k < r@.len() ==> #[trigger] r@[k] < self@.items.len(),
            r@.len() <= self@.items.len(),
    {
        let items = &self.doc.items;
        let ghost m = items_model(items@);
        let ghost f = filter_model(self.filter_set);
        let mut out: Vec<usize> = Vec::new();
        let mut skip_until: Option<usize> = None;
        let mut i: usize = 0;
        while i < items.len()
            invariant
                i <= items.len(),
                m == items_model(items@),
                f == filter_model(self.filter_set),
                vis_from(m, f, 0) == out@ + vis_from(
                    m,
                    f,
                    match skip_until {
                        Some(end) => if end >= i {
                            end + 1
                        } else {
                            i as int
                        },
                        None => i as int,
                    },
                ),
                skip_until matches Some(end) ==> end < items.len(),
            decreases items.len() - i,
        {
            if let Some(end) = skip_until {
                if i <= end {
                    i = i + 1;
                    continue;
                }
                skip_until = None;
            }
            let hidden = match &self.filter_set {
                Some(set) => !set.contains(&i),
                None => false,
            };
            if hidden {
                i = i + 1;
                continue;
            }
            out.push(i);
            if items[i].folded && has_children_in(items, i) {
                let last = last_descendant(items.as_slice(), i);
                proof {
                    lemma_last_descendant_bounds(m, i as int);
                }
                skip_until = Some(last);
            }
            i = i + 1;
        }
        proof {
            assert(m.len() == items.len());
            lemma_vis_from_sorted(m, f, 0);
        }
        out
    }

    /// Index of the selected item, when the selection is on a visible item.
    pub fn current_item_idx(&self) -> (r: Option<usize>)
        ensures
            r == spec_current(self@),
    {
        let v = self.visible_items();
        if self.visible_idx < v.len() {
            Some(v[self.visible_idx])
        } else {
            None
        }
    }

    /// Move the selection one visible item down, if there is one.
    pub fn move_down(&mut self)
        ensures
            final(self)@ == spec_move_down(old(self)@),
    {
        proof {
            use_type_invariant(&*self);
        }
        let n = self.visible_items().len();
        if self.visible_idx + 1 < n {
            self.visible_idx = self.visible_idx + 1;
        }
    }

    /// Move the selection one visible item up, if it is not at the top.
    pub fn move_up(&mut self)
        ensures
            final(self)@ == spec_move_up(old(self)@),
    {
        proof {
            use_type_invariant(&*self);
        }
        if self.visible_idx > 0 {
            self.visible_idx = self.visible_idx - 1;
        }
    }

    /// Move the selection `step` visible items down, stopping at the last one.
    pub fn page_down(&mut self, step: usize)
        requires
            old(self)@.visible_idx + step <= usize::MAX,
        ensures
            final(self)@ == spec_page_down(old(self)@, step as nat),
    {
        proof {
            use_type_invariant(&*self);
        }
        let n = self.visible_items().len();
        let last = if n > 0 {
            n - 1
        } else {
            0
        };
        let target = self.visible_idx + step;
        self.visible_idx = if target <= last {
            target
        } else {
            last
        };
    }

    /// Move the selection `step` visible items up, stopping at the first one.
    pub fn page_up(&mut self, step: usize)
        ensures
            final(self)@ == spec_page_up(old(self)@, step as nat),
    {
        proof {
            use_type_invariant(&*self);
        }
        self.visible_idx = if self.visible_idx >= step {
            self.visible_idx - step
        } else {
            0
        };
    }

    /// Select the first visible item.
    pub fn goto_first(&mut self)
        ensures
            final(self)@ == at_position(old(self)@, 0),
    {
        proof {
            use_type_invariant(&*self);
        }
        self.visible_idx = 0;
    }

    /// Select the last visible item.
    pub fn goto_last(&mut self)
        ensures
            final(self)@ == spec_goto_last(old(self)@),
    {
        proof {
            use_type_invariant(&*self);
        }
        let v = self.visible_items();
        let n = v.len();
        self.visible_idx = if n > 0 {
            n - 1
        } else {
            0
        };
    }

    /// Toggle the fold of the selected item when it has children.
    pub fn toggle_fold(&mut self)
        ensures
            final(self)@ == spec_toggle_fold(old(self)@),
    {
        proof {
            use_type_invariant(&*self);
        }
        if let Some(idx) = self.current_item_idx() {
            if has_children_in(&self.doc.items, idx) {
                let f = self.doc.items[idx].folded;
                set_folded(&mut self.doc.items, idx, !f);
                assert(self@.items =~= old(self)@.items.update(
                    idx as int,
                    with_folded(old(self)@.items[idx as int], !old(self)@.items[idx as int].folded),
                ));
            }
        }
    }

    /// Sets every item's folded flag as `refolded` describes for `mode`:
    /// shared body of the fold-all operations.
    fn refold(&mut self, mode: u8, level: usize)
        requires
            mode < 4,
        ensures
            final(self)@ == with_items(old(self)@, refolded(old(self)@.items, mode, level as nat)),
    {
        proof {
            use_type_invariant(&*self);
        }
        let ghost m0 = old(self)@.items;
        let ghost target = refolded(m0, mode, level as nat);
        let n = self.doc.items.len();
        let mut i: usize = 0;
        while i < n
            invariant
                n == self.doc.items.len(),
                i <= n,
                m0.len() == n,
                mode < 4,
                target == refolded(m0, mode, level as nat),
                forall|k: int| 0 <= k < i ==> #[trigger] self@.items[k] == target[k],
                forall|k: int| i <= k < n ==> #[trigger] self@.items[k] == m0[k],
                self@.items.len() == n,
                with_items(self@, m0) == old(self)@,
                depths_ok(items_model(self.doc.items@)),
                self.visible_idx < usize::MAX,
            decreases n - i,
        {
            let d = self.doc.items[i].depth;
            assert(self@.items[i as int] == m0[i as int]);
            let f = if mode == 0 {
                if d == 0 {
                    true
                } else {
                    self.doc.items[i].folded
                }
            } else if mode == 1 {
                false
            } else if mode == 2 {
                d >= level
            } else {
                true
            };
            set_folded(&mut self.doc.items, i, f);
            assert(self@.items[i as int] == target[i as int]);
            i = i + 1;
        }
        assert(self@.items =~= target);
    }

    /// Fold every top-level item.
    pub fn collapse_all(&mut self)
        ensures
            final(self)@ == with_items(old(self)@, collapsed_all(old(self)@.items)),
    {
        self.refold(0, 0);
    }

    /// Unfold every item.
    pub fn expand_all(&mut self)
        ensures
            final(self)@ == with_items(old(self)@, expanded_all(old(self)@.items)),
    {
        self.refold(1, 0);
    }

    /// Fold exactly the items at depth `level` or deeper.
    pub fn fold_to_level(&mut self, level: usize)
        ensures
            final(self)@ == with_items(old(self)@, folded_to_level(old(self)@.items, level as nat)),
    {
        self.refold(2, level);
    }
}

// ---------------------------------------------------------------------------
// Folding
// ---------------------------------------------------------------------------

/// `it` with its folded flag set to `folded`.
pub open spec fn with_folded(it: ItemModel, folded: bool) -> ItemModel {
    ItemModel { folded, ..it }
}

/// Items after collapsing all: every top-level item folded.
pub open spec fn collapsed_all(m: Seq<ItemModel>) -> Seq<ItemModel> {
    m.map_values(|it: ItemModel| if it.depth == 0 { with_folded(it, true) } else { it })
}

/// Items after expanding all: nothing folded.
pub open spec fn expanded_all(m: Seq<ItemModel>) -> Seq<ItemModel> {
    m.map_values(|it: ItemModel| with_folded(it, false))
}

/// Items folded to `level`: exactly the items at depth `level` or deeper are folded.
pub open spec fn folded_to_level(m: Seq<ItemModel>, level: nat) -> Seq<ItemModel> {
    m.map_values(|it: ItemModel| with_folded(it, it.depth >= level))
}

/// Items all folded.
pub open spec fn folded_all(m: Seq<ItemModel>) -> Seq<ItemModel> {
    m.map_values(|it: ItemModel| with_folded(it, true))
}

/// The outline showing the document parsed from `source`, folded to the
/// level its config line sets, if any.
pub open spec fn spec_load_text(o: OutlineModel, source: Seq<char>) -> OutlineModel {
    let d = spec_parse(source);
    let shown = OutlineModel { items: d.items, config: d.config, ..o };
    match d.config {
        Some(c) => match spec_fold_level_setting(c) {
            Some(l) => with_items(shown, folded_to_level(shown.items, l)),
            None => shown,
        },
        None => shown,
    }
}

/// The outline with the selection at position `vi`.
pub open spec fn at_position(o: OutlineModel, vi: nat) -> OutlineModel {
    OutlineModel { visible_idx: vi, ..o }
}

/// The outline with its items replaced.
pub open spec fn with_items(o: OutlineModel, items: Seq<ItemModel>) -> OutlineModel {
    OutlineModel { items, ..o }
}

/// One visible item down, if there is one.
pub open spec fn spec_move_down(o: OutlineModel) -> OutlineModel {
    if o.visible_idx + 1 < spec_visible(o).len() {
        at_position(o, o.visible_idx + 1)
    } else {
        o
    }
}

/// One visible item up, if not at the top.
pub open spec fn spec_move_up(o: OutlineModel) -> OutlineModel {
    if o.visible_idx > 0 {
        at_position(o, (o.visible_idx - 1) as nat)
    } else {
        o
    }
}

/// Position of the last visible item (0 when none is visible).
pub open spec fn last_position(o: OutlineModel) -> nat {
    if spec_visible(o).len() > 0 {
        (spec_visible(o).len() - 1) as nat
    } else {
        0
    }
}

/// `step` visible items down, at most to the last one.
pub open spec fn spec_page_down(o: OutlineModel, step: nat) -> OutlineModel {
    if o.visible_idx + step <= last_position(o) {
        at_position(o, o.visible_idx + step)
    } else {
        at_position(o, last_position(o))
    }
}

/// `step` visible items up, at most to the first one.
pub open spec fn spec_page_up(o: OutlineModel, step: nat) -> OutlineModel {
    if o.visible_idx >= step {
        at_position(o, (o.visible_idx - step) as nat)
    } else {
        at_position(o, 0)
    }
}

/// The last visible item selected.
pub open spec fn spec_goto_last(o: OutlineModel) -> OutlineModel {
    at_position(o, last_position(o))
}

/// The selected item's fold flipped, when it has children.
pub open spec fn spec_toggle_fold(o: OutlineModel) -> OutlineModel {
    match spec_current(o) {
        Some(idx) => if spec_has_children(o.items, idx as int) {
            with_items(
                o,
                o.items.update(idx as int, with_folded(o.items[idx as int], !o.items[idx as int].folded)),
            )
        } else {
            o
        },
        None => o,
    }
}

/// Items refolded: collapse all (`mode` 0), expand all (1), fold to
/// `level` (2), fold everything (3).
pub open spec fn refolded(m: Seq<ItemModel>, mode: u8, level: nat) -> Seq<ItemModel> {
    if mode == 0 {
        collapsed_all(m)
    } else if mode == 1 {
        expanded_all(m)
    } else if mode == 2 {
        folded_to_level(m, level)
    } else {
        folded_all(m)
    }
}

/// Whether the item at `idx` has children.
pub fn has_children_in(items: &Vec<Item>, idx: usize) -> (r: bool)
    ensures
        r == spec_has_children(items_model(items@), idx as int),
{
    let ghost m = items_model(items@);
    if idx >= items.len() {
        return false;
    }
    let cdepth = items[idx].depth;
    let mut j = idx + 1;
    while j < items.len()
        invariant
            idx < j <= items.len(),
            m == items_model(items@),
            cdepth == m[idx as int].depth,
            forall|k: int| idx < k < j ==> !(m[k].text.len() > 0 && #[trigger] m[k].depth > cdepth),
        decreases items.len() - j,
    {
        assert(m[j as int] == items@[j as int]@);
        if !items[j].text.as_str().is_empty() && items[j].depth > cdepth {
            assert(m[j as int].depth > cdepth);
            if idx + 1 < items.len() {
                assert(m[idx + 1] == items@[idx + 1]@);
            }
            return idx + 1 < items.len() && items[idx + 1].depth > cdepth;
        }
        j = j + 1;
    }
    false
}

// ---------------------------------------------------------------------------
// Ancestors
// ---------------------------------------------------------------------------

/// The walk up from index `i` looking for an item at depth `want - 1`: each
/// non-blank item one level above the level sought so far is an ancestor,
/// nearest first.
pub open spec fn anc_walk(m: Seq<ItemModel>, i: int, want: nat) -> Seq<usize>
    decreases i,
{
    if i <= 0 || want == 0 || i > m.len() {
        seq![]
    } else {
        let k = i - 1;
        if m[k].text.len() == 0 {
            anc_walk(m, k, want)
        } else if m[k].depth + 1 == want {
            seq![k as usize] + anc_walk(m, k, (want - 1) as nat)
        } else {
            anc_walk(m, k, want)
        }
    }
}

/// The ancestors of item `idx`, nearest first.
pub open spec fn ancestors(m: Seq<ItemModel>, idx: int) -> Seq<usize> {
    anc_walk(m, idx, m[idx].depth)
}

/// Ancestors lie before the item they were walked from.
pub proof fn lemma_anc_walk_bounds(m: Seq<ItemModel>, i: int, want: nat)
    ensures
        forall|k: int| 0 <= k < anc_walk(m, i, want).len() ==> #[trigger] anc_walk(m, i, want)[k] < i,
        forall|k: int| 0 <= k < anc_walk(m, i, want).len() ==> 0 <= #[trigger] anc_walk(m, i, want)[k],
    decreases i,
{
    if !(i <= 0 || want == 0 || i > m.len()) {
        let k = i - 1;
        if m[k].text.len() == 0 {
            lemma_anc_walk_bounds(m, k, want);
            assert(anc_walk(m, i, want) == anc_walk(m, k, want));
        } else if m[k].depth + 1 == want {
            lemma_anc_walk_bounds(m, k, (want - 1) as nat);
            let r = anc_walk(m, i, want);
            let t = anc_walk(m, k, (want - 1) as nat);
            assert(r == seq![k as usize] + t);
            assert forall|j: int| 0 <= j < r.len() implies #[trigger] r[j] < i && 0 <= r[j] by {
                if j > 0 {
                    assert(r[j] == t[j - 1]);
                }
            }
        } else {
            lemma_anc_walk_bounds(m, k, want);
            assert(anc_walk(m, i, want) == anc_walk(m, k, want));
        }
    }
}

/// The items with those at the listed indexes unfolded.
pub open spec fn unfold_listed(m: Seq<ItemModel>, ks: Seq<usize>) -> Seq<ItemModel> {
    Seq::new(m.len(), |j: int| if ks.contains(j as usize) { with_folded(m[j], false) } else { m[j] })
}

/// Indexes of the ancestors of item `idx`, nearest first.
pub fn ancestors_of(items: &Vec<Item>, idx: usize) -> (r: Vec<usize>)
    requires
        idx < items.len(),
        depths_ok(items_model(items@)),
    ensures
        r@ == ancestors(items_model(items@), idx as int),
        forall|k: int| 0 <= k < r@.len() ==> #[trigger] r@[k] < idx,
{
    let ghost m = items_model(items@);
    let mut out: Vec<usize> = Vec::new();
    let mut want = items[idx].depth;
    let mut i = idx;
    assert(m[idx as int] == items@[idx as int]@);
    while i > 0 && want > 0
        invariant
            i <= idx < items.len(),
            m == items_model(items@),
            depths_ok(m),
            ancestors(m, idx as int) == out@ + anc_walk(m, i as int, want as nat),
        decreases i,
    {
        i = i - 1;
        assert(m[i as int] == items@[i as int]@);
        assert(m[i as int].depth < usize::MAX);
        if items[i].text.as_str().is_empty() {
            continue;
        }
        if items[i].depth + 1 == want {
            out.push(i);
            want = want - 1;
        }
    }
    proof {
        assert(anc_walk(m, i as int, want as nat).len() == 0);
        assert(out@ == ancestors(m, idx as int));
        lemma_anc_walk_bounds(m, idx as int, m[idx as int].depth);
    }
    out
}

/// Unfolds the items at the indexes in `ks`.
fn unfold_indexes(items: &mut Vec<Item>, ks: &Vec<usize>)
    requires
        forall|k: int| 0 <= k < ks@.len() ==> #[trigger] ks@[k] < old(items).len(),
    ensures
        items_model(final(items)@) == unfold_listed(items_model(old(items)@), ks@),
        final(items)@.len() == old(items)@.len(),
    no_unwind
{
    let ghost m0 = items_model(items@);
    let _len = items.len();
    let mut t: usize = 0;
    while t < ks.len()
        invariant
            t <= ks.len(),
            items@.len() == m0.len(),
            m0.len() <= usize::MAX,
            forall|k: int| 0 <= k < ks@.len() ==> #[trigger] ks@[k] < m0.len(),
            items_model(items@) == unfold_listed(m0, ks@.take(t as int)),
        decreases ks.len() - t,
    {
        let k = ks[t];
        let ghost before = items_model(items@);
        set_folded(items, k, false);
        assert(items_model(items@) =~= unfold_listed(m0, ks@.take(t + 1))) by {
            assert forall|j: int| 0 <= j < m0.len() implies #[trigger] items_model(items@)[j]
                == unfold_listed(m0, ks@.take(t + 1))[j] by {
                let pre = ks@.take(t as int);
                let post = ks@.take(t + 1);
                assert(post == pre.push(k));
                assert(post[t as int] == k);
                if j == k as int {
                    assert(post.contains(k));
                    if pre.contains(j as usize) {
                        assert(before[j] == with_folded(m0[j], false));
                    } else {
                        assert(before[j] == m0[j]);
                    }
                } else {
                    assert(post.contains(j as usize) == pre.contains(j as usize)) by {
                        if post.contains(j as usize) {
                            let w = choose|w: int| 0 <= w < post.len() && post[w] == j as usize;
                            assert(j as usize != k);
                            assert(w < pre.len());
                            assert(pre[w] == post[w]);
                        }
                        if pre.contains(j as usize) {
                            let w = choose|w: int| 0 <= w < pre.len() && pre[w] == j as usize;
                            assert(post[w] == pre[w]);
                        }
                    }
                }
            }
        }
        t = t + 1;
    }
    assert(ks@.take(t as int) == ks@);
}

/// The first non-blank item before `from` at depth `d`, nearest first.
pub open spec fn prev_at_depth(m: Seq<ItemModel>, from: int, d: nat) -> Option<int>
    decreases from,
{
    if from <= 0 || from > m.len() {
        None
    } else if m[from - 1].text.len() > 0 && m[from - 1].depth == d {
        Some(from - 1)
    } else {
        prev_at_depth(m, from - 1, d)
    }
}

/// The first position of `x` in `v` from `k` on.
pub open spec fn position_of(v: Seq<usize>, x: usize, k: int) -> Option<int>
    decreases v.len() - k,
{
    if k < 0 || k >= v.len() {
        None
    } else if v[k] == x {
        Some(k)
    } else {
        position_of(v, x, k + 1)
    }
}

/// The first position of `x` in `v`.
pub fn position_in(v: &Vec<usize>, x: usize) -> (r: Option<usize>)
    ensures
        match r {
            Some(p) => position_of(v@, x, 0) == Some(p as int) && p < v@.len(),
            None => position_of(v@, x, 0) is None,
        },
{
    let mut k: usize = 0;
    while k < v.len()
        invariant
            k <= v.len(),
            position_of(v@, x, 0) == position_of(v@, x, k as int),
        decreases v.len() - k,
    {
        if v[k] == x {
            return Some(k);
        }
        k = k + 1;
    }
    None
}

/// The selection moved to position `pos` of `x` among the visible items,
/// when `x` is visible.
pub open spec fn select_item(o: OutlineModel, x: usize) -> OutlineModel {
    match position_of(spec_visible(o), x, 0) {
        Some(pos) => at_position(o, pos as nat),
        None => o,
    }
}

/// The selection moved to the parent of the selected item: the nearest
/// earlier non-blank item one level up, when it is visible.
pub open spec fn spec_goto_parent(o: OutlineModel) -> OutlineModel {
    match spec_current(o) {
        None => o,
        Some(idx) => if o.items[idx as int].depth == 0 {
            o
        } else {
            match prev_at_depth(o.items, idx as int, (o.items[idx as int].depth - 1) as nat) {
                Some(p) => select_item(o, p as usize),
                None => o,
            }
        },
    }
}

/// The selection moved to the first child of the selected item (the next
/// item), which is unfolded first when folded.
pub open spec fn spec_goto_first_child(o: OutlineModel) -> OutlineModel {
    match spec_current(o) {
        None => o,
        Some(idx) => if !spec_has_children(o.items, idx as int) {
            o
        } else {
            let o1 = if o.items[idx as int].folded {
                with_items(o, o.items.update(idx as int, with_folded(o.items[idx as int], false)))
            } else {
                o
            };
            select_item(o1, (idx + 1) as usize)
        },
    }
}

/// The items with item `idx` and its ancestors unfolded.
pub open spec fn path_unfolded(m: Seq<ItemModel>, idx: int) -> Seq<ItemModel> {
    unfold_listed(m, ancestors(m, idx).push(idx as usize))
}

/// Presentation mode switched. Switching it on folds everything, unfolds
/// the selected item and its ancestors, and keeps the selection on that
/// item.
pub open spec fn spec_toggle_presentation(o: OutlineModel) -> OutlineModel {
    if o.presentation {
        OutlineModel { presentation: false, ..o }
    } else {
        let folded = OutlineModel { presentation: true, items: folded_all(o.items), ..o };
        match spec_current(o) {
            None => folded,
            Some(idx) => select_item(
                with_items(folded, path_unfolded(folded.items, idx as int)),
                idx,
            ),
        }
    }
}

/// The highlight switched off when on, else rooted at the selected item.
pub open spec fn spec_toggle_highlight(o: OutlineModel) -> OutlineModel {
    if o.highlight_root is Some {
        OutlineModel { highlight_root: None, ..o }
    } else {
        match spec_current(o) {
            Some(idx) => OutlineModel { highlight_root: Some(idx), ..o },
            None => o,
        }
    }
}

/// Item `idx` is drawn normally under the highlight: no highlight is on, or
/// `idx` lies in the highlighted branch.
pub open spec fn spec_in_highlight(o: OutlineModel, idx: int) -> bool {
    match o.highlight_root {
        None => true,
        Some(root) => idx == root || (idx > root && idx <= spec_last_descendant(o.items, root as int)),
    }
}

impl Outline {
    /// Unfold the ancestors of item `target` so that it can show.
    fn unfold_path_to(&mut self, target: usize)
        requires
            target < old(self)@.items.len(),
        ensures
            final(self)@ == with_items(
                old(self)@,
                unfold_listed(old(self)@.items, ancestors(old(self)@.items, target as int)),
            ),
    {
        proof {
            use_type_invariant(&*self);
        }
        let ks = ancestors_of(&self.doc.items, target);
        unfold_indexes(&mut self.doc.items, &ks);
        assert(self@ =~= with_items(
            old(self)@,
            unfold_listed(old(self)@.items, ancestors(old(self)@.items, target as int)),
        ));
    }

    /// Move the selection to the parent of the selected item.
    pub fn goto_parent(&mut self)
        ensures
            final(self)@ == spec_goto_parent(old(self)@),
    {
        proof {
            use_type_invariant(&*self);
        }
        let idx = match self.current_item_idx() {
            Some(i) => i,
            None => return ,
        };
        let ghost m = self@.items;
        proof {
            lemma_current_in_range(self@);
        }
        assert(m[idx as int] == self.doc.items@[idx as int]@);
        if self.doc.items[idx].depth == 0 {
            return ;
        }
        let target_depth = self.doc.items[idx].depth - 1;
        if let Some(parent) = prev_at_depth_in(&self.doc.items, idx, target_depth) {
            let v = self.visible_items();
            if let Some(pos) = position_in(&v, parent) {
                self.visible_idx = pos;
            }
        }
    }

    /// Move the selection to the first child of the selected item, unfolding it.
    pub fn goto_first_child(&mut self)
        ensures
            final(self)@ == spec_goto_first_child(old(self)@),
    {
        proof {
            use_type_invariant(&*self);
        }
        let idx = match self.current_item_idx() {
            Some(i) => i,
            None => return ,
        };
        proof {
            lemma_current_in_range(self@);
        }
        if !has_children_in(&self.doc.items, idx) {
            return ;
        }
        if self.doc.items[idx].folded {
            set_folded(&mut self.doc.items, idx, false);
            assert(self@.items =~= old(self)@.items.update(
                idx as int,
                with_folded(old(self)@.items[idx as int], false),
            ));
        }
        let v = self.visible_items();
        if let Some(pos) = position_in(&v, idx + 1) {
            self.visible_idx = pos;
        }
    }

    /// Switch the branch highlight: off when on, else rooted at the
    /// selected item. Returns whether a highlight is on afterwards, or
    /// `None` when nothing changed.
    pub fn toggle_highlight_branch(&mut self) -> (r: Option<bool>)
        ensures
            final(self)@ == spec_toggle_highlight(old(self)@),
            r == (if old(self)@.highlight_root is Some {
                Some(false)
            } else if spec_current(old(self)@) is Some {
                Some(true)
            } else {
                None
            }),
    {
        proof {
            use_type_invariant(&*self);
        }
        if self.highlight_root.is_some() {
            self.highlight_root = None;
            Some(false)
        } else if let Some(idx) = self.current_item_idx() {
            self.highlight_root = Some(idx);
            Some(true)
        } else {
            None
        }
    }

    /// Whether item `idx` is drawn normally under the branch highlight.
    pub fn in_highlight_subtree(&self, idx: usize) -> (r: bool)
        ensures
            r == spec_in_highlight(self@, idx as int),
    {
        let root = match self.highlight_root {
            Some(r) => r,
            None => return true,
        };
        if idx == root {
            return true;
        }
        let last = last_descendant(self.doc.items.as_slice(), root);
        idx > root && idx <= last
    }

    /// Switch presentation mode; switching on folds everything but the
    /// path to the selected item, which stays selected. Returns the new
    /// mode.
    pub fn toggle_presentation(&mut self) -> (on: bool)
        ensures
            final(self)@ == spec_toggle_presentation(old(self)@),
            on == final(self)@.presentation,
    {
        proof {
            use_type_invariant(&*self);
        }
        if self.presentation {
            self.presentation = false;
            return false;
        }
        let cur = self.current_item_idx();
        proof {
            lemma_current_in_range(self@);
        }
        self.presentation = true;
        self.refold(3, 0);
        if let Some(idx) = cur {
            proof {
                use_type_invariant(&*self);
            }
            let mut ks = ancestors_of(&self.doc.items, idx);
            ks.push(idx);
            unfold_indexes(&mut self.doc.items, &ks);
            let v = self.visible_items();
            if let Some(pos) = position_in(&v, idx) {
                self.visible_idx = pos;
            }
        }
        true
    }
}

/// The nearest non-blank item before `from` at depth `d`.
pub fn prev_at_depth_in(items: &Vec<Item>, from: usize, d: usize) -> (r: Option<usize>)
    requires
        from <= items.len(),
    ensures
        match r {
            Some(p) => prev_at_depth(items_model(items@), from as int, d as nat) == Some(p as int),
            None => prev_at_depth(items_model(items@), from as int, d as nat) is None,
        },
{
    let ghost m = items_model(items@);
    let mut parent = from;
    while parent > 0
        invariant
            parent <= from <= items.len(),
            m == items_model(items@),
            prev_at_depth(m, from as int, d as nat) == prev_at_depth(m, parent as int, d as nat),
        decreases parent,
    {
        parent = parent - 1;
        assert(m[parent as int] == items@[parent as int]@);
        if !items[parent].text.as_str().is_empty() && items[parent].depth == d {
            return Some(parent);
        }
    }
    None
}

/// The selected item is an index of an item.
pub proof fn lemma_current_in_range(o: OutlineModel)
    requires
        o.items.len() <= usize::MAX,
    ensures
        spec_current(o) matches Some(idx) ==> idx < o.items.len(),
{
    lemma_vis_from_sorted(o.items, o.filter, 0);
}

// ---------------------------------------------------------------------------
// Rows of the main pane
// ---------------------------------------------------------------------------

/// The mark drawn before an item.
#[derive(Clone, Copy, Debug, PartialEq, Eq, Structural)]
pub enum Mark {
    /// A folded item with children.
    Folded,
    /// An unfolded item with children.
    Open,
    /// An item without children.
    Leaf,
}

/// One row of the main pane.
#[derive(Clone, Copy, Debug, PartialEq, Eq, Structural)]
pub enum Row {
    /// The only row when no item is visible.
    Placeholder,
    /// A blank item: an empty row.
    Blank,
    /// The item at index `idx`.
    Item {
        idx: usize,
        depth: usize,
        mark: Mark,
        /// The selection is on this row.
        selected: bool,
        /// The row lies outside the highlighted branch.
        dimmed: bool,
    },
}

/// The mark of item `idx`.
pub open spec fn spec_mark(m: Seq<ItemModel>, idx: int) -> Mark {
    if spec_has_children(m, idx) {
        if m[idx].folded {
            Mark::Folded
        } else {
            Mark::Open
        }
    } else {
        Mark::Leaf
    }
}

/// The row drawn for position `p` of the visible items.
pub open spec fn spec_row(o: OutlineModel, p: int) -> Row {
    let idx = spec_visible(o)[p];
    let it = o.items[idx as int];
    if it.text.len() == 0 {
        Row::Blank
    } else {
        Row::Item {
            idx,
            depth: it.depth as usize,
            mark: spec_mark(o.items, idx as int),
            selected: p == o.visible_idx,
            dimmed: !spec_in_highlight(o, idx as int),
        }
    }
}

/// The rows of the main pane: one per visible item, or a lone placeholder
/// when nothing is visible.
pub open spec fn spec_main_rows(o: OutlineModel) -> Seq<Row> {
    let v = spec_visible(o);
    if v.len() == 0 {
        seq![Row::Placeholder]
    } else {
        Seq::new(v.len(), |p: int| spec_row(o, p))
    }
}

impl Outline {
    /// The rows of the main pane, top to bottom.
    pub fn main_rows(&self) -> (rows: Vec<Row>)
        ensures
            rows@ == spec_main_rows(self@),
    {
        proof {
            use_type_invariant(self);
        }
        let v = self.visible_items();
        let ghost o = self@;
        let mut rows: Vec<Row> = Vec::new();
        if v.len() == 0 {
            rows.push(Row::Placeholder);
            assert(rows@ =~= spec_main_rows(o));
            return rows;
        }
        let mut p: usize = 0;
        while p < v.len()
            invariant
                o == self@,
                v@ == spec_visible(o),
                forall|k: int| 0 <= k < v@.len() ==> #[trigger] v@[k] < o.items.len(),
                p <= v.len(),
                rows@.len() == p,
                forall|k: int| 0 <= k < p ==> #[trigger] rows@[k] == spec_row(o, k),
            decreases v.len() - p,
        {
            let idx = v[p];
            assert(o.items[idx as int] == self.doc.items@[idx as int]@);
            let it = &self.doc.items[idx];
            let row = if it.text.as_str().is_empty() {
                Row::Blank
            } else {
                let mark = if has_children_in(&self.doc.items, idx) {
                    if it.folded {
                        Mark::Folded
                    } else {
                        Mark::Open
                    }
                } else {
                    Mark::Leaf
                };
                Row::Item {
                    idx,
                    depth: it.depth,
                    mark,
                    selected: p == self.visible_idx,
                    dimmed: !self.in_highlight_subtree(idx),
                }
            };
            rows.push(row);
            p = p + 1;
        }
        assert(rows@ =~= spec_main_rows(o));
        rows
    }
}

// ---------------------------------------------------------------------------
// Searching text
// ---------------------------------------------------------------------------

/// The Unicode lower-case mapping of a string, as `str::to_lowercase`
/// computes it.
pub uninterp spec fn lowercase(s: Seq<char>) -> Seq<char>;

/// A character lower-cased as ASCII: `A`..`Z` become `a`..`z`, anything
/// else stays.
pub open spec fn ascii_lower(c: char) -> char {
    if 'A' <= c && c <= 'Z' {
        ((c as int) + 32) as char
    } else {
        c
    }
}

/// Every character of `s` is ASCII.
pub open spec fn all_ascii(s: Seq<char>) -> bool {
    forall|k: int| 0 <= k < s.len() ==> (#[trigger] s[k] as int) < 128
}

/// `str::to_lowercase`. Its result is named `lowercase` of the argument;
/// beyond that the contract states only what holds for ASCII text: each
/// upper-case letter becomes its lower-case letter and every other
/// character stays.
#[verifier::external_body]
fn to_lowercase(s: &str) -> (r: String)
    ensures
        r@ == lowercase(s@),
        all_ascii(s@) ==> r@ == s@.map_values(|c: char| ascii_lower(c)),
{
    s.to_lowercase()
}

/// The views of a list of strings.
pub open spec fn strings_view(v: Seq<String>) -> Seq<Seq<char>> {
    v.map_values(|s: String| s@)
}

/// The lower-cased texts of the items.
pub open spec fn lowered_texts(m: Seq<ItemModel>) -> Seq<Seq<char>> {
    m.map_values(|it: ItemModel| lowercase(it.text))
}

/// The lower-cased text of every item.
fn lower_texts(items: &Vec<Item>) -> (r: Vec<String>)
    ensures
        strings_view(r@) == lowered_texts(items_model(items@)),
{
    let ghost m = items_model(items@);
    let mut out: Vec<String> = Vec::new();
    let mut i: usize = 0;
    while i < items.len()
        invariant
            i <= items.len(),
            m == items_model(items@),
            m.len() == items.len(),
            out@.len() == i,
            strings_view(out@) == lowered_texts(m).take(i as int),
        decreases items.len() - i,
    {
        assert(m[i as int] == items@[i as int]@);
        let lt = to_lowercase(items[i].text.as_str());
        let ghost before = out@;
        out.push(lt);
        assert(strings_view(out@) =~= lowered_texts(m).take(i + 1)) by {
            assert(out@ == before.push(lt));
            assert(lowered_texts(m)[i as int] == lowercase(m[i as int].text));
            assert(strings_view(out@)[i as int] == lt@);
        }
        i = i + 1;
    }
    assert(lowered_texts(m).take(i as int) =~= lowered_texts(m));
    out
}

/// `needle` occurs in `hay` at position `k`.
pub open spec fn occurs_at(hay: Seq<char>, needle: Seq<char>, k: int) -> bool {
    0 <= k && k + needle.len() <= hay.len() && hay.subrange(k, k + needle.len()) == needle
}

/// `needle` occurs in `hay` (`str::contains`).
pub open spec fn seq_contains(hay: Seq<char>, needle: Seq<char>) -> bool {
    exists|k: int| occurs_at(hay, needle, k)
}

/// Whether `needle` occurs in `hay`.
pub fn contains_chars(hay: &Vec<char>, needle: &Vec<char>) -> (r: bool)
    ensures
        r == seq_contains(hay@, needle@),
{
    if needle.len() > hay.len() {
        assert forall|k: int| !occurs_at(hay@, needle@, k) by {}
        return false;
    }
    let last = hay.len() - needle.len();
    let mut k: usize = 0;
    while k <= last
        invariant
            last == hay.len() - needle.len(),
            needle.len() <= hay.len(),
            forall|q: int| 0 <= q < k ==> !#[trigger] occurs_at(hay@, needle@, q),
        decreases last + 1 - k,
    {
        let mut j: usize = 0;
        while j < needle.len() && hay[k + j] == needle[j]
            invariant
                k <= last,
                last == hay.len() - needle.len(),
                j <= needle.len(),
                forall|q: int| 0 <= q < j ==> hay@[k + q] == #[trigger] needle@[q],
            decreases needle.len() - j,
        {
            j = j + 1;
        }
        if j == needle.len() {
            assert(hay@.subrange(k as int, k + needle.len()) =~= needle@);
            assert(occurs_at(hay@, needle@, k as int));
            return true;
        }
        assert(!occurs_at(hay@, needle@, k as int)) by {
            if occurs_at(hay@, needle@, k as int) {
                assert(hay@.subrange(k as int, k + needle.len())[j as int] == hay@[k + j]);
            }
        }
        if k == last {
            assert forall|q: int| !occurs_at(hay@, needle@, q) by {}
            return false;
        }
        k = k + 1;
    }
    false
}

/// Whether two character sequences are equal.
pub fn chars_equal(a: &Vec<char>, b: &Vec<char>) -> (r: bool)
    ensures
        r == (a@ == b@),
{
    if a.len() != b.len() {
        return false;
    }
    let mut i: usize = 0;
    while i < a.len()
        invariant
            a.len() == b.len(),
            i <= a.len(),
            forall|q: int| 0 <= q < i ==> a@[q] == b@[q],
        decreases a.len() - i,
    {
        if a[i] != b[i] {
            return false;
        }
        i = i + 1;
    }
    assert(a@ =~= b@);
    true
}

/// The first item from `i` on, other than item `skip`, whose trimmed text
/// is `needle`.
pub open spec fn first_exact(m: Seq<ItemModel>, needle: Seq<char>, skip: int, i: int) -> Option<int>
    decreases m.len() - i,
{
    if i < 0 || i >= m.len() {
        None
    } else if i != skip && crate::text::trim(m[i].text) == needle {
        Some(i)
    } else {
        first_exact(m, needle, skip, i + 1)
    }
}

/// The first index from `i` on, other than `skip`, whose (lower-cased) text
/// in `lts` contains `lneedle`.
pub open spec fn first_containing(lts: Seq<Seq<char>>, lneedle: Seq<char>, skip: int, i: int) -> Option<int>
    decreases lts.len() - i,
{
    if i < 0 || i >= lts.len() {
        None
    } else if i != skip && seq_contains(lts[i], lneedle) {
        Some(i)
    } else {
        first_containing(lts, lneedle, skip, i + 1)
    }
}

/// The item a reference names, leaving out item `skip` (the one that holds
/// the reference): the first whose trimmed text is `needle`, else the first
/// whose text contains it, ignoring case.
pub open spec fn spec_find_item(m: Seq<ItemModel>, needle: Seq<char>, skip: int) -> Option<int> {
    match first_exact(m, needle, skip, 0) {
        Some(i) => Some(i),
        None => first_containing(lowered_texts(m), lowercase(needle), skip, 0),
    }
}

/// The first index, other than `skip`, whose text in `lowered` contains
/// `lneedle`: the case-insensitive half of the search, on texts and needle
/// already lower-cased.
pub fn first_containing_in(lowered: &Vec<String>, lneedle: &str, skip: usize) -> (r: Option<usize>)
    ensures
        match r {
            Some(i) => first_containing(strings_view(lowered@), lneedle@, skip as int, 0) == Some(
                i as int,
            ) && i < lowered.len(),
            None => first_containing(strings_view(lowered@), lneedle@, skip as int, 0) is None,
        },
{
    let ghost lts = strings_view(lowered@);
    let nchars = chars_of(lneedle);
    let mut i: usize = 0;
    while i < lowered.len()
        invariant
            i <= lowered.len(),
            lts == strings_view(lowered@),
            nchars@ == lneedle@,
            first_containing(lts, lneedle@, skip as int, 0) == first_containing(
                lts,
                lneedle@,
                skip as int,
                i as int,
            ),
        decreases lowered.len() - i,
    {
        assert(lts[i as int] == lowered@[i as int]@);
        if i != skip && contains_chars(&chars_of(lowered[i].as_str()), &nchars) {
            return Some(i);
        }
        i = i + 1;
    }
    None
}

/// The item `needle` names, other than item `skip`: an exact match of the
/// trimmed text first, then a case-insensitive substring match.
pub fn find_item_by_text(items: &Vec<Item>, needle: &str, skip: usize) -> (r: Option<usize>)
    ensures
        match r {
            Some(i) => spec_find_item(items_model(items@), needle@, skip as int) == Some(i as int)
                && i < items.len(),
            None => spec_find_item(items_model(items@), needle@, skip as int) is None,
        },
{
    let ghost m = items_model(items@);
    let nchars = chars_of(needle);
    let mut i: usize = 0;
    while i < items.len()
        invariant
            i <= items.len(),
            m == items_model(items@),
            nchars@ == needle@,
            first_exact(m, needle@, skip as int, 0) == first_exact(m, needle@, skip as int, i as int),
        decreases items.len() - i,
    {
        assert(m[i as int] == items@[i as int]@);
        if i != skip {
            let t = trim_chars(&chars_of(items[i].text.as_str()));
            if chars_equal(&t, &nchars) {
                return Some(i);
            }
        }
        i = i + 1;
    }
    let lc = to_lowercase(needle);
    let lowered = lower_texts(items);
    let r = first_containing_in(&lowered, lc.as_str(), skip);
    proof {
        assert(lowered_texts(m).len() == m.len());
    }
    r
}

// ---------------------------------------------------------------------------
// References
// ---------------------------------------------------------------------------

/// A reference closes at `j`: `>` for `<...>`, `>>` for `<<...>>`.
pub open spec fn close_at(cs: Seq<char>, j: int, double: bool) -> bool {
    if double {
        0 <= j && j + 2 <= cs.len() && cs[j] == '>' && cs[j + 1] == '>'
    } else {
        0 <= j && j + 1 <= cs.len() && cs[j] == '>'
    }
}

/// The first position at or after `j` where the reference closes.
pub open spec fn close_from(cs: Seq<char>, j: int, double: bool) -> Option<int>
    decreases cs.len() - j,
{
    let cl = if double {
        2int
    } else {
        1int
    };
    if j < 0 || j + cl > cs.len() {
        None
    } else if close_at(cs, j, double) {
        Some(j)
    } else {
        close_from(cs, j + 1, double)
    }
}

/// The first reference from `i` on: the range of its inner text, after `<`
/// (or `<<`) up to the matching `>` (or `>>`).
pub open spec fn find_ref(cs: Seq<char>, i: int) -> Option<(int, int)>
    decreases cs.len() - i,
{
    if i < 0 || i >= cs.len() {
        None
    } else if cs[i] == '<' {
        let double = i + 1 < cs.len() && cs[i + 1] == '<';
        let start = if double {
            i + 2
        } else {
            i + 1
        };
        match close_from(cs, start, double) {
            Some(j) => Some((start, j)),
            None => find_ref(cs, i + 1),
        }
    } else {
        find_ref(cs, i + 1)
    }
}

pub proof fn lemma_close_from(cs: Seq<char>, j: int, double: bool)
    requires
        0 <= j,
    ensures
        close_from(cs, j, double) matches Some(e) ==> j <= e <= cs.len(),
    decreases cs.len() - j,
{
    let cl = if double {
        2int
    } else {
        1int
    };
    if !(j + cl > cs.len()) && !close_at(cs, j, double) {
        lemma_close_from(cs, j + 1, double);
    }
}

/// The characters `file:`.
pub open spec fn file_key() -> Seq<char> {
    seq!['f', 'i', 'l', 'e', ':']
}

/// What following a reference did.
#[derive(Clone, Debug)]
pub enum RefJump {
    /// The selected line holds no reference.
    NoReference,
    /// A `<file:path>` reference: the path, trimmed, for the caller to open.
    OpenFile(String),
    /// The selection moved to the item the reference names.
    Jumped(String),
    /// The named item exists but is hidden (by the filter).
    NotVisible(String),
    /// No item matches the reference.
    NotFound(String),
}

/// What a [`RefJump`] holds.
pub enum RefOutcome {
    NoReference,
    OpenFile(Seq<char>),
    Jumped(Seq<char>),
    NotVisible(Seq<char>),
    NotFound(Seq<char>),
}

impl View for RefJump {
    type V = RefOutcome;

    open spec fn view(&self) -> RefOutcome {
        match self {
            RefJump::NoReference => RefOutcome::NoReference,
            RefJump::OpenFile(p) => RefOutcome::OpenFile(p@),
            RefJump::Jumped(t) => RefOutcome::Jumped(t@),
            RefJump::NotVisible(t) => RefOutcome::NotVisible(t@),
            RefJump::NotFound(t) => RefOutcome::NotFound(t@),
        }
    }
}

/// Following the first reference on the selected line: a `file:` reference
/// is handed back; another one names an item other than the selected one
/// (see `spec_find_item`), whose ancestors are unfolded and which is
/// selected when visible.
pub open spec fn spec_goto_reference(o: OutlineModel) -> (OutlineModel, Option<RefOutcome>) {
    match spec_current(o) {
        None => (o, None),
        Some(idx) => {
            let cs = o.items[idx as int].text;
            match find_ref(cs, 0) {
                None => (o, Some(RefOutcome::NoReference)),
                Some((a, b)) => {
                    let inner = cs.subrange(a, b);
                    if inner.len() >= 5 && inner.take(5) == file_key() {
                        (o, Some(RefOutcome::OpenFile(crate::text::trim(inner.skip(5)))))
                    } else {
                        let target = crate::text::trim(inner);
                        match spec_find_item(o.items, target, idx as int) {
                            None => (o, Some(RefOutcome::NotFound(target))),
                            Some(found) => {
                                let o1 = with_items(
                                    o,
                                    unfold_listed(o.items, ancestors(o.items, found)),
                                );
                                match position_of(spec_visible(o1), found as usize, 0) {
                                    Some(pos) => (
                                        at_position(o1, pos as nat),
                                        Some(RefOutcome::Jumped(target)),
                                    ),
                                    None => (o1, Some(RefOutcome::NotVisible(target))),
                                }
                            },
                        }
                    }
                },
            }
        },
    }
}

/// The first reference in `cs`, as the range of its inner text.
fn find_reference(cs: &Vec<char>) -> (r: Option<(usize, usize)>)
    ensures
        match r {
            Some((a, b)) => find_ref(cs@, 0) == Some((a as int, b as int)) && a <= b <= cs.len(),
            None => find_ref(cs@, 0) is None,
        },
{
    let n = cs.len();
    let mut i: usize = 0;
    while i < n
        invariant
            n == cs.len(),
            i <= n,
            find_ref(cs@, 0) == find_ref(cs@, i as int),
        decreases n - i,
    {
        if cs[i] == '<' {
            let double = i + 1 < n && cs[i + 1] == '<';
            let start = if double {
                i + 2
            } else {
                i + 1
            };
            let cl: usize = if double {
                2
            } else {
                1
            };
            let mut j = start;
            while n - j >= cl && !(cs[j] == '>' && (!double || cs[j + 1] == '>'))
                invariant
                    n == cs.len(),
                    start <= j <= n,
                    start <= n,
                    cl == (if double {
                        2usize
                    } else {
                        1usize
                    }),
                    close_from(cs@, start as int, double) == close_from(cs@, j as int, double),
                decreases n - j,
            {
                j = j + 1;
            }
            if n - j >= cl {
                proof {
                    lemma_close_from(cs@, start as int, double);
                }
                return Some((start, j));
            }
        }
        i = i + 1;
    }
    None
}

impl Outline {
    /// Follow the first `<reference>` (or `<<reference>>`) on the selected
    /// line. `None` when no item is selected.
    pub fn goto_reference(&mut self) -> (r: Option<RefJump>)
        ensures
            final(self)@ == spec_goto_reference(old(self)@).0,
            match r {
                Some(j) => spec_goto_reference(old(self)@).1 == Some(j@),
                None => spec_goto_reference(old(self)@).1 is None,
            },
    {
        proof {
            use_type_invariant(&*self);
        }
        let idx = match self.current_item_idx() {
            Some(i) => i,
            None => return None,
        };
        proof {
            lemma_current_in_range(self@);
        }
        assert(self@.items[idx as int] == self.doc.items@[idx as int]@);
        let cs = chars_of(self.doc.items[idx].text.as_str());
        let (a, b) = match find_reference(&cs) {
            Some(r) => r,
            None => return Some(RefJump::NoReference),
        };
        let inner = crate::text::slice_chars(&cs, a, b);
        if inner.len() >= 5 && inner[0] == 'f' && inner[1] == 'i' && inner[2] == 'l' && inner[3]
            == 'e' && inner[4] == ':' {
            assert(inner@.take(5) =~= file_key());
            let rest = crate::text::slice_chars(&inner, 5, inner.len());
            assert(rest@ == inner@.skip(5));
            let path = trim_chars(&rest);
            return Some(RefJump::OpenFile(crate::text::string_of(&path)));
        }
        proof {
            if inner@.len() >= 5 && inner@.take(5) == file_key() {
                assert(inner@[0] == inner@.take(5)[0]);
                assert(inner@[1] == inner@.take(5)[1]);
                assert(inner@[2] == inner@.take(5)[2]);
                assert(inner@[3] == inner@.take(5)[3]);
                assert(inner@[4] == inner@.take(5)[4]);
            }
        }
        let target_chars = trim_chars(&inner);
        let target = crate::text::string_of(&target_chars);
        let found = match find_item_by_text(&self.doc.items, target.as_str(), idx) {
            Some(f) => f,
            None => return Some(RefJump::NotFound(target)),
        };
        self.unfold_path_to(found);
        let v = self.visible_items();
        match position_in(&v, found) {
            Some(pos) => {
                self.visible_idx = pos;
                Some(RefJump::Jumped(target))
            },
            None => Some(RefJump::NotVisible(target)),
        }
    }
}

// ---------------------------------------------------------------------------
// Templates
// ---------------------------------------------------------------------------

/// A template element: an item whose text, without trailing white space,
/// ends in `=`.
pub open spec fn is_template(t: Seq<char>) -> bool {
    crate::text::trim_end(t).len() > 0 && crate::text::trim_end(t).last() == '='
}

/// The first position in `from..to` of the visible items `v` that shows a
/// template element.
pub open spec fn first_template(m: Seq<ItemModel>, v: Seq<usize>, from: int, to: int) -> Option<int>
    decreases to - from,
{
    if from < 0 || from >= to || from >= v.len() {
        None
    } else if is_template(m[v[from] as int].text) {
        Some(from)
    } else {
        first_template(m, v, from + 1, to)
    }
}

/// Where looking for the next template element leads.
#[derive(Clone, Copy, Debug, PartialEq, Eq, Structural)]
pub enum TemplateJump {
    /// Found after the selection.
    Next,
    /// Found from the top, after wrapping around.
    Wrapped,
    /// No visible item is a template element.
    NoneFound,
}

/// The selection moved to the next visible template element after it,
/// else the first one from the top.
pub open spec fn spec_goto_next_template(o: OutlineModel) -> (OutlineModel, TemplateJump) {
    let v = spec_visible(o);
    let start = o.visible_idx + 1int;
    match first_template(o.items, v, start, v.len() as int) {
        Some(p) => (at_position(o, p as nat), TemplateJump::Next),
        None => {
            let wrap_end = if start < v.len() {
                start
            } else {
                v.len() as int
            };
            match first_template(o.items, v, 0, wrap_end) {
                Some(p) => (at_position(o, p as nat), TemplateJump::Wrapped),
                None => (o, TemplateJump::NoneFound),
            }
        },
    }
}

/// Whether the text ends in `=` once trailing white space is dropped.
fn ends_template(text: &String) -> (r: bool)
    ensures
        r == is_template(text@),
{
    let cs = chars_of(text.as_str());
    let k = crate::text::trail_ws_len(&cs);
    proof {
        crate::text::lemma_trail_ws(cs@, 0);
    }
    let end = cs.len() - k;
    end > 0 && cs[end - 1] == '='
}

/// The first position in `from..to` of `v` that shows a template element.
fn find_template(items: &Vec<Item>, v: &Vec<usize>, from: usize, to: usize) -> (r: Option<usize>)
    requires
        to <= v.len(),
        forall|k: int| 0 <= k < v@.len() ==> #[trigger] v@[k] < items.len(),
    ensures
        match r {
            Some(p) => first_template(items_model(items@), v@, from as int, to as int) == Some(
                p as int,
            ) && p < v.len(),
            None => first_template(items_model(items@), v@, from as int, to as int) is None,
        },
{
    let ghost m = items_model(items@);
    let mut p = from;
    while p < to
        invariant
            to <= v.len(),
            from <= p,
            m == items_model(items@),
            forall|k: int| 0 <= k < v@.len() ==> #[trigger] v@[k] < items.len(),
            first_template(m, v@, from as int, to as int) == first_template(m, v@, p as int, to as int),
        decreases to - p,
    {
        let it = v[p];
        assert(v@[p as int] < items.len());
        assert(m[it as int] == items@[it as int]@);
        if ends_template(&items[it].text) {
            return Some(p);
        }
        p = p + 1;
    }
    None
}

impl Outline {
    /// Select the next visible template element (an item ending in `=`),
    /// wrapping around to the top.
    pub fn goto_next_template(&mut self) -> (r: TemplateJump)
        ensures
            final(self)@ == spec_goto_next_template(old(self)@).0,
            r == spec_goto_next_template(old(self)@).1,
    {
        proof {
            use_type_invariant(&*self);
        }
        let visible = self.visible_items();
        let start = self.visible_idx + 1;
        if let Some(p) = find_template(&self.doc.items, &visible, start, visible.len()) {
            self.visible_idx = p;
            return TemplateJump::Next;
        }
        let wrap_end = if start < visible.len() {
            start
        } else {
            visible.len()
        };
        if let Some(p) = find_template(&self.doc.items, &visible, 0, wrap_end) {
            self.visible_idx = p;
            return TemplateJump::Wrapped;
        }
        TemplateJump::NoneFound
    }
}

// ---------------------------------------------------------------------------
// Show / Hide filter
// ---------------------------------------------------------------------------

/// Which items a keyword filter keeps.
#[derive(Clone, Copy, Debug, PartialEq, Eq, Structural)]
pub enum FilterMode {
    /// Items containing the keyword.
    Show,
    /// Items not containing the keyword.
    Hide,
}

/// Item `i` is not blank and its lower-cased text `lts[i]` contains the
/// lower-cased keyword `lkw` exactly when the mode is Show.
pub open spec fn wanted(m: Seq<ItemModel>, lts: Seq<Seq<char>>, lkw: Seq<char>, mode: FilterMode, i: int) -> bool {
    m[i].text.len() > 0 && (seq_contains(lts[i], lkw) == (mode == FilterMode::Show))
}

/// The items among the first `n` that the filter wants, with all their
/// ancestors so the path to each stays visible.
pub open spec fn kept_upto(m: Seq<ItemModel>, lts: Seq<Seq<char>>, lkw: Seq<char>, mode: FilterMode, n: int) -> Set<
    usize,
> {
    Set::new(
        |j: usize|
            exists|i: int|
                0 <= i < n && #[trigger] wanted(m, lts, lkw, mode, i) && (j as int == i
                    || ancestors(m, i).contains(j)),
    )
}

/// The set of items a keyword filter keeps.
pub open spec fn filter_set(m: Seq<ItemModel>, lkw: Seq<char>, mode: FilterMode) -> Set<usize> {
    kept_upto(m, lowered_texts(m), lkw, mode, m.len() as int)
}

/// The keep set of a Show/Hide filter, given the lower-cased text of each
/// item in `lowered` and the lower-cased keyword `lkw`.
pub fn filter_set_from_lowered(items: &Vec<Item>, lowered: &Vec<String>, lkw: &str, mode: FilterMode) -> (keep:
    HashSet<usize>)
    requires
        depths_ok(items_model(items@)),
        lowered.len() == items.len(),
    ensures
        keep@ == kept_upto(items_model(items@), strings_view(lowered@), lkw@, mode, items.len() as int),
{
    let ghost m = items_model(items@);
    let ghost lts = strings_view(lowered@);
    let kwc = chars_of(lkw);
    let mut keep: HashSet<usize> = HashSet::new();
    let mut i: usize = 0;
    assert(keep@ =~= kept_upto(m, lts, lkw@, mode, 0));
    while i < items.len()
        invariant
            i <= items.len(),
            lowered.len() == items.len(),
            m == items_model(items@),
            lts == strings_view(lowered@),
            depths_ok(m),
            kwc@ == lkw@,
            keep@ == kept_upto(m, lts, lkw@, mode, i as int),
        decreases items.len() - i,
    {
        assert(m[i as int] == items@[i as int]@);
        assert(lts[i as int] == lowered@[i as int]@);
        let ghost before = keep@;
        if !items[i].text.as_str().is_empty() {
            let hit = contains_chars(&chars_of(lowered[i].as_str()), &kwc);
            let want = match mode {
                FilterMode::Show => hit,
                FilterMode::Hide => !hit,
            };
            if want {
                assert(wanted(m, lts, lkw@, mode, i as int));
                keep.insert(i);
                let anc = ancestors_of(items, i);
                let mut t: usize = 0;
                while t < anc.len()
                    invariant
                        t <= anc.len(),
                        anc@ == ancestors(m, i as int),
                        keep@ == before.insert(i).union(anc@.take(t as int).to_set()),
                    decreases anc.len() - t,
                {
                    keep.insert(anc[t]);
                    assert(anc@.take(t + 1).to_set() =~= anc@.take(t as int).to_set().insert(anc@[t as int])) by {
                        assert(anc@.take(t + 1) == anc@.take(t as int).push(anc@[t as int]));
                        anc@.take(t as int).lemma_push_to_set_commute(anc@[t as int]);
                    }
                    assert(keep@ =~= before.insert(i).union(anc@.take(t + 1).to_set()));
                    t = t + 1;
                }
                assert(anc@.take(t as int) == anc@);
                proof {
                    lemma_kept_step(m, lts, lkw@, mode, i as int);
                    assert(keep@ =~= kept_upto(m, lts, lkw@, mode, i + 1));
                }
            } else {
                proof {
                    lemma_kept_step(m, lts, lkw@, mode, i as int);
                }
            }
        } else {
            proof {
                lemma_kept_step(m, lts, lkw@, mode, i as int);
            }
        }
        i = i + 1;
    }
    keep
}

/// Build the set of items to keep when filtering by `keyword` (case-
/// insensitive substring). Includes matched items plus their ancestors
/// so the structure stays navigable.
pub fn build_filter_set(items: &Vec<Item>, keyword: &str, mode: FilterMode) -> (keep: HashSet<usize>)
    requires
        depths_ok(items_model(items@)),
    ensures
        keep@ == filter_set(items_model(items@), lowercase(keyword@), mode),
{
    let kw = to_lowercase(keyword);
    let lowered = lower_texts(items);
    proof {
        assert(lowered_texts(items_model(items@)).len() == items.len());
    }
    filter_set_from_lowered(items, &lowered, kw.as_str(), mode)
}

/// One more item considered by the filter adds it and its ancestors when
/// it is wanted, and nothing otherwise.
proof fn lemma_kept_step(m: Seq<ItemModel>, lts: Seq<Seq<char>>, lkw: Seq<char>, mode: FilterMode, i: int)
    requires
        0 <= i < m.len(),
        m.len() <= usize::MAX,
    ensures
        kept_upto(m, lts, lkw, mode, i + 1) == (if wanted(m, lts, lkw, mode, i) {
            kept_upto(m, lts, lkw, mode, i).insert(i as usize).union(ancestors(m, i).to_set())
        } else {
            kept_upto(m, lts, lkw, mode, i)
        }),
{
    let a = kept_upto(m, lts, lkw, mode, i);
    let b = kept_upto(m, lts, lkw, mode, i + 1);
    if wanted(m, lts, lkw, mode, i) {
        let c = a.insert(i as usize).union(ancestors(m, i).to_set());
        assert forall|j: usize| b.contains(j) <==> c.contains(j) by {
            if b.contains(j) {
                let w = choose|w: int|
                    0 <= w < i + 1 && #[trigger] wanted(m, lts, lkw, mode, w) && (j as int == w
                        || ancestors(m, w).contains(j));
                if w < i {
                    assert(a.contains(j));
                } else if j as int != i {
                    assert(ancestors(m, i).to_set().contains(j));
                }
            }
            if c.contains(j) {
                if a.contains(j) {
                    let w = choose|w: int|
                        0 <= w < i && #[trigger] wanted(m, lts, lkw, mode, w) && (j as int == w
                            || ancestors(m, w).contains(j));
                    assert(b.contains(j));
                } else {
                    if j != i as usize {
                        assert(ancestors(m, i).to_set().contains(j));
                        assert(ancestors(m, i).contains(j));
                    }
                    assert(wanted(m, lts, lkw, mode, i) && (j as int == i || ancestors(m, i).contains(j)));
                    assert(b.contains(j));
                }
            }
        }
        assert(b =~= c);
    } else {
        assert forall|j: usize| b.contains(j) <==> a.contains(j) by {
            if b.contains(j) {
                let w = choose|w: int|
                    0 <= w < i + 1 && #[trigger] wanted(m, lts, lkw, mode, w) && (j as int == w
                        || ancestors(m, w).contains(j));
                assert(w != i);
            }
        }
        assert(b =~= a);
    }
}

/// The outline after a Show/Hide filter on `keyword`: an empty (trimmed)
/// keyword clears the filter; another one keeps `filter_set` of the
/// trimmed keyword and selects the first visible item.
pub open spec fn spec_apply_filter(o: OutlineModel, keyword: Seq<char>, mode: FilterMode) -> OutlineModel {
    let t = crate::text::trim(keyword);
    if t.len() == 0 {
        OutlineModel { filter: None, ..o }
    } else {
        OutlineModel { filter: Some(filter_set(o.items, lowercase(t), mode)), visible_idx: 0, ..o }
    }
}

impl Outline {
    /// Filter by `keyword`; returns `None` when the keyword is blank and the
    /// filter was cleared, else the number of items the filter keeps.
    pub fn apply_filter(&mut self, keyword: &str, mode: FilterMode) -> (r: Option<usize>)
        ensures
            final(self)@ == spec_apply_filter(old(self)@, keyword@, mode),
            match r {
                Some(n) => final(self)@.filter matches Some(f) && n == f.len(),
                None => final(self)@.filter is None,
            },
    {
        proof {
            use_type_invariant(&*self);
        }
        let kc = chars_of(keyword);
        let t = trim_chars(&kc);
        if t.len() == 0 {
            self.filter_set = None;
            return None;
        }
        let ts = crate::text::string_of(&t);
        let set = build_filter_set(&self.doc.items, ts.as_str(), mode);
        let n = set.len();
        self.filter_set = Some(set);
        self.visible_idx = 0;
        Some(n)
    }

    /// Remove the Show/Hide filter.
    pub fn clear_filter(&mut self)
        ensures
            final(self)@ == (OutlineModel { filter: None, ..old(self)@ }),
    {
        proof {
            use_type_invariant(&*self);
        }
        self.filter_set = None;
    }
}

// ---------------------------------------------------------------------------
// Breadcrumb and complexity
// ---------------------------------------------------------------------------

/// The separator between breadcrumb parts: ` › `.
pub open spec fn crumb_sep() -> Seq<char> {
    seq![' ', '›', ' ']
}

/// Parts joined with `sep` between them.
pub open spec fn join_with(parts: Seq<Seq<char>>, sep: Seq<char>) -> Seq<char>
    decreases parts.len(),
{
    if parts.len() == 0 {
        seq![]
    } else if parts.len() == 1 {
        parts[0]
    } else {
        join_with(parts.drop_last(), sep) + sep + parts.last()
    }
}

/// How an ancestor shows in the breadcrumb: markup stripped, at most 40
/// characters.
pub open spec fn crumb_part(t: Seq<char>) -> Seq<char> {
    crate::display::spec_first_n_chars(crate::display::spec_strip_markup(t), 40)
}

/// The breadcrumb parts of item `idx`: its ancestors, nearest first.
pub open spec fn crumb_parts(m: Seq<ItemModel>, idx: int) -> Seq<Seq<char>> {
    let a = ancestors(m, idx);
    Seq::new(a.len(), |k: int| crumb_part(m[a[k] as int].text))
}

/// A `parent › grandparent › root`-style trail of the selected item's
/// ancestors; empty at depth 0 or when nothing is selected.
pub open spec fn spec_breadcrumb(o: OutlineModel) -> Seq<char> {
    match spec_current(o) {
        None => seq![],
        Some(idx) => if o.items[idx as int].depth == 0 {
            seq![]
        } else {
            join_with(crumb_parts(o.items, idx as int), crumb_sep())
        },
    }
}

/// Number of items that are not blank.
pub open spec fn count_nonblank(m: Seq<ItemModel>) -> nat
    decreases m.len(),
{
    if m.len() == 0 {
        0
    } else {
        count_nonblank(m.drop_last()) + (if m.last().text.len() > 0 {
            1nat
        } else {
            0nat
        })
    }
}

/// Largest depth of an item that is not blank (0 when there is none).
pub open spec fn max_depth(m: Seq<ItemModel>) -> nat
    decreases m.len(),
{
    if m.len() == 0 {
        0
    } else {
        let d = max_depth(m.drop_last());
        if m.last().text.len() > 0 && m.last().depth > d {
            m.last().depth
        } else {
            d
        }
    }
}

impl Outline {
    /// Build a `parent › grandparent › root`-style trail of the current
    /// item's ancestors. Empty when at depth 0 or no item is selected.
    pub fn breadcrumb(&self) -> (r: String)
        ensures
            r@ == spec_breadcrumb(self@),
    {
        proof {
            use_type_invariant(self);
        }
        let idx = match self.current_item_idx() {
            Some(i) => i,
            None => return String::new(),
        };
        proof {
            lemma_current_in_range(self@);
        }
        assert(self@.items[idx as int] == self.doc.items@[idx as int]@);
        if self.doc.items[idx].depth == 0 {
            return String::new();
        }
        let ghost m = self@.items;
        let anc = ancestors_of(&self.doc.items, idx);
        let ghost parts = crumb_parts(m, idx as int);
        let mut out = String::new();
        let mut k: usize = 0;
        let n = anc.len();
        assert(parts.take(0).len() == 0);
        while k < n
            invariant
                n == anc.len(),
                k <= n,
                anc@ == ancestors(m, idx as int),
                forall|q: int| 0 <= q < anc@.len() ==> #[trigger] anc@[q] < idx,
                idx < m.len(),
                m == items_model(self.doc.items@),
                parts == crumb_parts(m, idx as int),
                out@ == join_with(parts.take(k as int), crumb_sep()),
            decreases n - k,
        {
            let a = anc[k];
            assert(m[a as int] == self.doc.items@[a as int]@);
            let stripped = crate::display::strip_markup(self.doc.items[a].text.as_str());
            let part = crate::display::first_n_chars(stripped.as_str(), 40);
            assert(part@ == parts[k as int]);
            let ghost before = out@;
            if k > 0 {
                push_sep(&mut out);
            }
            out.append(part.as_str());
            proof {
                let t = parts.take(k + 1);
                assert(t.drop_last() == parts.take(k as int));
                assert(t.last() == parts[k as int]);
                if k == 0 {
                    assert(out@ =~= join_with(t, crumb_sep()));
                } else {
                    assert(out@ =~= join_with(t, crumb_sep()));
                }
            }
            k = k + 1;
        }
        assert(parts.take(k as int) =~= parts);
        out
    }

    /// Number of non-blank items and the largest depth among them (the
    /// inputs of the complexity score).
    pub fn complexity(&self) -> (r: (usize, usize))
        ensures
            r.0 == count_nonblank(self@.items),
            r.1 == max_depth(self@.items),
    {
        let ghost m = self@.items;
        let mut n: usize = 0;
        let mut max_d: usize = 0;
        let mut i: usize = 0;
        while i < self.doc.items.len()
            invariant
                i <= self.doc.items.len(),
                m == items_model(self.doc.items@),
                n == count_nonblank(m.take(i as int)),
                n <= i,
                max_d == max_depth(m.take(i as int)),
            decreases self.doc.items.len() - i,
        {
            let ghost t = m.take(i + 1);
            assert(t.drop_last() == m.take(i as int));
            assert(t.last() == m[i as int]);
            assert(m[i as int] == self.doc.items@[i as int]@);
            if !self.doc.items[i].text.as_str().is_empty() {
                n = n + 1;
                if self.doc.items[i].depth > max_d {
                    max_d = self.doc.items[i].depth;
                }
            }
            i = i + 1;
        }
        assert(m.take(i as int) == m);
        (n, max_d)
    }
}

/// Appends the breadcrumb separator ` › `.
fn push_sep(out: &mut String)
    ensures
        final(out)@ == old(out)@ + crumb_sep(),
{
    crate::text::push_char(out, ' ');
    crate::text::push_char(out, '›');
    crate::text::push_char(out, ' ');
    assert(final(out)@ =~= old(out)@ + crumb_sep());
}

// ---------------------------------------------------------------------------
// Laws
// ---------------------------------------------------------------------------

/// Two item sequences that differ at most in folded flags.
pub open spec fn same_shape(a: Seq<ItemModel>, b: Seq<ItemModel>) -> bool {
    &&& a.len() == b.len()
    &&& forall|k: int| #![trigger a[k]] #![trigger b[k]] 0 <= k < a.len() ==> a[k].depth == b[k].depth
    &&& forall|k: int| #![trigger a[k]] #![trigger b[k]] 0 <= k < a.len() ==> a[k].text == b[k].text
}

proof fn lemma_scan_end_shape(a: Seq<ItemModel>, b: Seq<ItemModel>, d: nat, from: int)
    requires
        same_shape(a, b),
    ensures
        crate::parser::scan_end(a, d, from) == crate::parser::scan_end(b, d, from),
    decreases a.len() - from,
{
    if 0 <= from < a.len() {
        assert(a[from].depth == b[from].depth && a[from].text == b[from].text);
        lemma_scan_end_shape(a, b, d, from + 1);
    }
}

/// Up to item `idx`, the visible items do not depend on the folded flag of
/// `idx` itself.
proof fn lemma_vis_prefix(a: Seq<ItemModel>, b: Seq<ItemModel>, f: Option<Set<usize>>, i: int, idx: int, p: int)
    requires
        same_shape(a, b),
        0 <= i,
        a.len() <= usize::MAX,
        forall|k: int| 0 <= k < a.len() && k != idx ==> #[trigger] a[k] == b[k],
        0 <= p < vis_from(a, f, i).len(),
        vis_from(a, f, i)[p] == idx,
    ensures
        p < vis_from(b, f, i).len(),
        vis_from(b, f, i)[p] == idx,
    decreases a.len() - i,
{
    lemma_vis_from_sorted(a, f, i);
    if i < a.len() {
        if filtered_out(f, i) {
            lemma_vis_prefix(a, b, f, i + 1, idx, p);
        } else if p == 0 {
            assert(vis_from(a, f, i)[0] == i as usize);
            assert(vis_from(b, f, i)[0] == i as usize);
        } else {
            assert(a[i].depth == b[i].depth && a[i].text == b[i].text);
            lemma_scan_end_shape(a, b, a[i].depth, i + 1);
            lemma_last_descendant_bounds(a, i);
            let va = vis_from(a, f, i);
            // i is before idx, so its own fold is unchanged.
            assert(i < idx) by {
                assert(va[0] == i as usize);
                assert(va[0] < va[p]);
            }
            assert(a[i] == b[i]);
            assert(spec_has_children(a, i) == spec_has_children(b, i)) by {
                if spec_has_children(a, i) {
                    let j = choose|j: int| i < j < a.len() && a[j].text.len() > 0 && #[trigger] a[j].depth > a[i].depth;
                    assert(b[j].depth == a[j].depth);
                }
                if spec_has_children(b, i) {
                    let j = choose|j: int| i < j < b.len() && b[j].text.len() > 0 && #[trigger] b[j].depth > b[i].depth;
                    assert(b[j].depth == a[j].depth);
                }
                assert(a[i + 1].depth == b[i + 1].depth) by {
                    if i + 1 < a.len() {
                    }
                }
            }
            let next = if a[i].folded && spec_has_children(a, i) {
                spec_last_descendant(a, i) + 1
            } else {
                i + 1
            };
            assert(va == seq![i as usize] + vis_from(a, f, next));
            assert(vis_from(b, f, i) == seq![i as usize] + vis_from(b, f, next));
            assert(va[p] == vis_from(a, f, next)[p - 1]);
            lemma_vis_prefix(a, b, f, next, idx, p - 1);
        }
    }
}

/// One fold toggle flips the folded flag of the selected item exactly when
/// it has children, changes nothing else, and keeps the selection on that
/// item.
pub proof fn lemma_toggle_fold_once(o: OutlineModel, c: usize)
    requires
        o.items.len() <= usize::MAX,
        spec_current(o) == Some(c),
    ensures
        ({
            let o1 = spec_toggle_fold(o);
            &&& o1 == with_items(o, o1.items)
            &&& o1.items.len() == o.items.len()
            &&& o1.items[c as int] == with_folded(
                o.items[c as int],
                o.items[c as int].folded != spec_has_children(o.items, c as int),
            )
            &&& forall|k: int| 0 <= k < o.items.len() && k != c ==> #[trigger] o1.items[k] == o.items[k]
            &&& spec_current(o1) == Some(c)
        }),
{
    lemma_current_in_range(o);
    let o1 = spec_toggle_fold(o);
    if spec_has_children(o.items, c as int) {
        let a = o.items;
        let b = o1.items;
        assert(same_shape(a, b));
        lemma_vis_prefix(a, b, o.filter, 0, c as int, o.visible_idx as int);
        assert(spec_current(o1) == Some(c));
    } else {
        assert(o.items[c as int] == with_folded(o.items[c as int], o.items[c as int].folded));
        assert(o1 =~= with_items(o, o1.items));
    }
}

/// Toggling the fold of the selected item twice leaves the outline as it
/// was.
pub proof fn lemma_toggle_fold_twice(o: OutlineModel)
    requires
        o.items.len() <= usize::MAX,
    ensures
        spec_toggle_fold(spec_toggle_fold(o)) == o,
{
    lemma_current_in_range(o);
    match spec_current(o) {
        None => {},
        Some(idx) => {
            if spec_has_children(o.items, idx as int) {
                let o1 = spec_toggle_fold(o);
                let a = o.items;
                let b = o1.items;
                assert(same_shape(a, b));
                lemma_vis_prefix(a, b, o.filter, 0, idx as int, o.visible_idx as int);
                assert(spec_current(o1) == Some(idx));
                assert(spec_has_children(b, idx as int)) by {
                    let j = choose|j: int| idx < j < a.len() && a[j].text.len() > 0 && #[trigger] a[j].depth > a[idx as int].depth;
                    assert(b[j].depth == a[j].depth);
                }
                let o2 = spec_toggle_fold(o1);
                assert(o2.items =~= a);
                assert(o2 =~= o);
            }
        },
    }
}

/// Moving down and then up comes back to the same position, when moving
/// down moved.
pub proof fn lemma_move_down_up(o: OutlineModel)
    requires
        o.visible_idx + 1 < spec_visible(o).len(),
    ensures
        spec_move_up(spec_move_down(o)) == o,
{
    assert(spec_move_up(spec_move_down(o)) =~= o);
}

/// With nothing folded, every item from `i` on is visible.
proof fn lemma_vis_all(m: Seq<ItemModel>, i: int)
    requires
        0 <= i <= m.len(),
        m.len() <= usize::MAX,
        forall|k: int| 0 <= k < m.len() ==> !(#[trigger] m[k].folded),
    ensures
        vis_from(m, None, i) == Seq::new((m.len() - i) as nat, |k: int| (i + k) as usize),
    decreases m.len() - i,
{
    if i < m.len() {
        lemma_vis_all(m, i + 1);
        assert(!m[i].folded);
        assert(vis_from(m, None, i) =~= Seq::new((m.len() - i) as nat, |k: int| (i + k) as usize));
    } else {
        assert(vis_from(m, None, i) =~= Seq::new((m.len() - i) as nat, |k: int| (i + k) as usize));
    }
}

/// After expanding all, without a filter, every item is visible, in order.
pub proof fn lemma_expand_all_shows_everything(o: OutlineModel)
    requires
        o.filter is None,
        o.items.len() <= usize::MAX,
    ensures
        spec_visible(with_items(o, expanded_all(o.items))) == Seq::new(
            o.items.len(),
            |k: int| k as usize,
        ),
{
    let m = expanded_all(o.items);
    lemma_vis_all(m, 0);
    assert(Seq::new((m.len() - 0) as nat, |k: int| (0 + k) as usize) =~= Seq::new(
        o.items.len(),
        |k: int| k as usize,
    ));
}

/// The ancestors of an item are its nearest ancestor followed by that
/// ancestor's own ancestors.
proof fn lemma_ancestors_chain(m: Seq<ItemModel>, i: int, want: nat)
    requires
        0 <= i <= m.len(),
        m.len() <= usize::MAX,
        anc_walk(m, i, want).len() > 0,
    ensures
        ({
            let a = anc_walk(m, i, want)[0] as int;
            &&& 0 <= a < i
            &&& m[a].depth + 1 == want
            &&& anc_walk(m, i, want).drop_first() == ancestors(m, a)
        }),
    decreases i,
{
    let k = i - 1;
    if m[k].text.len() == 0 {
        assert(anc_walk(m, i, want) == anc_walk(m, k, want));
        lemma_ancestors_chain(m, k, want);
    } else if m[k].depth + 1 == want {
        assert(anc_walk(m, i, want) == seq![k as usize] + anc_walk(m, k, (want - 1) as nat));
        assert(anc_walk(m, i, want)[0] == k as usize);
        assert((k as usize) as int == k);
        assert(m[k].depth == (want - 1) as nat);
        assert(anc_walk(m, i, want).drop_first() =~= anc_walk(m, k, (want - 1) as nat));
    } else {
        assert(anc_walk(m, i, want) == anc_walk(m, k, want));
        lemma_ancestors_chain(m, k, want);
    }
}

/// Every ancestor of a kept item's ancestor chain is itself in the chain.
proof fn lemma_ancestors_closed(m: Seq<ItemModel>, i: int, j: usize)
    requires
        0 <= i < m.len(),
        m.len() <= usize::MAX,
        ancestors(m, i).contains(j),
    ensures
        forall|x: usize| ancestors(m, j as int).contains(x) ==> ancestors(m, i).contains(x),
    decreases i,
{
    let s = ancestors(m, i);
    lemma_anc_walk_bounds(m, i, m[i].depth);
    lemma_ancestors_chain(m, i, m[i].depth);
    let a = s[0];
    if a == j {
        assert forall|x: usize| ancestors(m, j as int).contains(x) implies s.contains(x) by {
            let w = choose|w: int| 0 <= w < ancestors(m, j as int).len() && ancestors(m, j as int)[w] == x;
            assert(s[w + 1] == s.drop_first()[w]);
        }
    } else {
        let w = choose|w: int| 0 <= w < s.len() && s[w] == j;
        assert(w > 0);
        assert(ancestors(m, a as int).contains(j)) by {
            assert(s.drop_first()[w - 1] == j);
        }
        lemma_ancestors_closed(m, a as int, j);
        assert forall|x: usize| ancestors(m, j as int).contains(x) implies s.contains(x) by {
            let v = choose|v: int| 0 <= v < ancestors(m, a as int).len() && ancestors(m, a as int)[v] == x;
            assert(s[v + 1] == s.drop_first()[v]);
        }
    }
}

/// The Show/Hide filter keeps the structure navigable: every ancestor of a
/// kept item is kept too.
pub proof fn lemma_filter_keeps_ancestors(m: Seq<ItemModel>, lkw: Seq<char>, mode: FilterMode, j: usize, x: usize)
    requires
        (j as int) < m.len(),
        m.len() <= usize::MAX,
        filter_set(m, lkw, mode).contains(j),
        ancestors(m, j as int).contains(x),
    ensures
        filter_set(m, lkw, mode).contains(x),
{
    let i = choose|i: int|
        0 <= i < m.len() && #[trigger] wanted(m, lowered_texts(m), lkw, mode, i) && (j as int == i || ancestors(m, i).contains(j));
    if j as int != i {
        lemma_ancestors_closed(m, i, j);
    }
    assert(wanted(m, lowered_texts(m), lkw, mode, i) && (x as int == i || ancestors(m, i).contains(x)));
}

/// In the visible items from `s` on, a folded item with children is
/// followed by nothing from its own subtree.
proof fn lemma_fold_hides_from(m: Seq<ItemModel>, f: Option<Set<usize>>, s: int, p: int)
    requires
        0 <= s,
        m.len() <= usize::MAX,
        0 <= p,
        p + 1 < vis_from(m, f, s).len(),
        m[vis_from(m, f, s)[p] as int].folded,
        spec_has_children(m, vis_from(m, f, s)[p] as int),
    ensures
        vis_from(m, f, s)[p + 1] > spec_last_descendant(m, vis_from(m, f, s)[p] as int),
    decreases m.len() - s,
{
    lemma_vis_from_sorted(m, f, s);
    if s < m.len() {
        if filtered_out(f, s) {
            lemma_fold_hides_from(m, f, s + 1, p);
        } else {
            let next = if m[s].folded && spec_has_children(m, s) {
                spec_last_descendant(m, s) + 1
            } else {
                s + 1
            };
            lemma_last_descendant_bounds(m, s);
            let v = vis_from(m, f, s);
            let t = vis_from(m, f, next);
            assert(v == seq![s as usize] + t);
            lemma_vis_from_sorted(m, f, next);
            if p == 0 {
                assert(v[0] == s as usize);
                assert(v[1] == t[0]);
                assert(t[0] >= next);
            } else {
                assert(v[p] == t[p - 1]);
                assert(v[p + 1] == t[p]);
                lemma_fold_hides_from(m, f, next, p - 1);
            }
        }
    }
}

/// Folding hides a subtree: the visible item after a folded item with
/// children lies past that item's last descendant.
pub proof fn lemma_folded_subtree_hidden(o: OutlineModel, p: int)
    requires
        o.items.len() <= usize::MAX,
        0 <= p,
        p + 1 < spec_visible(o).len(),
        o.items[spec_visible(o)[p] as int].folded,
        spec_has_children(o.items, spec_visible(o)[p] as int),
    ensures
        spec_visible(o)[p + 1] > spec_last_descendant(o.items, spec_visible(o)[p] as int),
{
    lemma_fold_hides_from(o.items, o.filter, 0, p);
}


/// No item is blank.
pub open spec fn no_blanks(m: Seq<ItemModel>) -> bool {
    forall|i: int| 0 <= i < m.len() ==> (#[trigger] m[i]).text.len() > 0
}

/// The items nest properly: the first is at depth 0 and each is at most one
/// level deeper than the one before it.
pub open spec fn well_nested(m: Seq<ItemModel>) -> bool {
    &&& m.len() > 0 ==> m[0].depth == 0
    &&& forall|i: int| 1 <= i < m.len() ==> (#[trigger] m[i]).depth <= m[i - 1].depth + 1
}

/// Whether an index names an item at depth `level` or less.
pub open spec fn at_most(m: Seq<ItemModel>, level: nat) -> spec_fn(usize) -> bool {
    |i: usize| (i as int) < m.len() && m[i as int].depth <= level
}

/// Filtering `s..n` where `s` passes and nothing in `s + 1..next` does
/// gives `s` followed by the filtered `next..n`.
proof fn lemma_filter_skip(s: int, next: int, n: int, p: spec_fn(usize) -> bool)
    requires
        0 <= s < next <= n <= usize::MAX,
        p(s as usize),
        forall|j: usize| s + 1 <= j < next ==> !#[trigger] p(j),
    ensures
        index_range(s, n).filter(p) == seq![s as usize] + index_range(next, n).filter(p),
{
    let mid = index_range(s + 1, next);
    let rest = index_range(next, n);
    assert forall|k: int| 0 <= k < mid.len() implies !p(#[trigger] mid[k]) by {
        assert(mid[k] == (s + 1 + k) as usize);
        assert(s + 1 <= mid[k] < next);
    }
    assert(mid.all(|x: usize| !p(x)));
    mid.lemma_all_neg_filter_empty(p);
    Seq::filter_distributes_over_add(mid, rest, p);
    assert(index_range(s + 1, n) =~= mid + rest);
    assert(index_range(s, n) =~= seq![s as usize] + index_range(s + 1, n));
    index_range(s + 1, n).lemma_filter_prepend(s as usize, p);
    assert(mid.filter(p) =~= Seq::<usize>::empty());
    assert(index_range(s + 1, n).filter(p) =~= rest.filter(p));
}

/// From a visible start `s`, when the items at depth `level` are folded and
/// those above it are not, the visible items are those at depth `level` or
/// less.
proof fn lemma_vis_levels(m: Seq<ItemModel>, level: nat, s: int)
    requires
        0 <= s <= m.len(),
        m.len() <= usize::MAX,
        no_blanks(m),
        forall|i: int| 1 <= i < m.len() ==> (#[trigger] m[i]).depth <= m[i - 1].depth + 1,
        s < m.len() ==> m[s].depth <= level,
        forall|i: int| 0 <= i < m.len() && (#[trigger] m[i]).depth == level ==> m[i].folded,
        forall|i: int| 0 <= i < m.len() && (#[trigger] m[i]).depth < level ==> !m[i].folded,
    ensures
        vis_from(m, None, s) == index_range(s, m.len() as int).filter(at_most(m, level)),
    decreases m.len() - s,
{
    let n = m.len() as int;
    let p = at_most(m, level);
    if s == n {
        let e = index_range(s, n);
        assert(e.all(|x: usize| !p(x)));
        e.lemma_all_neg_filter_empty(p);
        assert(vis_from(m, None, s) =~= e.filter(p));
    } else {
        let d = m[s].depth;
        let jump = m[s].folded && spec_has_children(m, s);
        let next = if jump {
            spec_last_descendant(m, s) + 1
        } else {
            s + 1
        };
        lemma_scan_end(m, d, s + 1);
        assert(forall|j: int| s + 1 <= j < next ==> m[j].depth > level) by {
            if jump {
                assert(d == level);
                assert forall|j: int| s + 1 <= j < next implies m[j].depth > level by {
                    assert(m[j].text.len() > 0);
                }
            }
        }
        assert(next < n ==> m[next].depth <= level) by {
            if !jump && s + 1 < n {
                assert(m[s + 1].depth <= d + 1);
                if d == level && m[s + 1].depth > level {
                    assert(m[s + 1].text.len() > 0 && m[s + 1].depth > m[s].depth);
                    assert(spec_has_children(m, s));
                }
            }
        }
        lemma_vis_levels(m, level, next);
        assert forall|j: usize| s + 1 <= j < next implies !#[trigger] p(j) by {
            assert(m[j as int].depth > level);
        }
        lemma_filter_skip(s, next, n, p);
        assert(vis_from(m, None, s) == seq![s as usize] + vis_from(m, None, next));
    }
}

/// Folding to `level` with no filter on, in an outline without blank items
/// whose items nest properly, leaves exactly the items at depth `level` or
/// less visible, in document order.
pub proof fn lemma_fold_to_level_visible(o: OutlineModel, level: nat)
    requires
        o.filter is None,
        o.items.len() <= usize::MAX,
        no_blanks(o.items),
        well_nested(o.items),
    ensures
        spec_visible(with_items(o, folded_to_level(o.items, level))) == index_range(
            0,
            o.items.len() as int,
        ).filter(at_most(o.items, level)),
{
    let m = folded_to_level(o.items, level);
    assert forall|i: int| 1 <= i < m.len() implies (#[trigger] m[i]).depth <= m[i - 1].depth + 1 by {
        assert(o.items[i].depth <= o.items[i - 1].depth + 1);
    }
    assert forall|i: int| 0 <= i < m.len() implies (#[trigger] m[i]).text.len() > 0 by {
        assert(o.items[i].text.len() > 0);
    }
    if m.len() > 0 {
        assert(m[0].depth == o.items[0].depth);
    }
    lemma_vis_levels(m, level, 0);
    assert(at_most(m, level) =~= at_most(o.items, level));
}

/// Collapsing all with no filter on, in an outline without blank items
/// whose items nest properly, leaves exactly the top-level items visible, in
/// document order.
pub proof fn lemma_collapse_all_visible(o: OutlineModel)
    requires
        o.filter is None,
        o.items.len() <= usize::MAX,
        no_blanks(o.items),
        well_nested(o.items),
    ensures
        spec_visible(with_items(o, collapsed_all(o.items))) == index_range(0, o.items.len() as int).filter(
            at_most(o.items, 0),
        ),
{
    let m = collapsed_all(o.items);
    assert forall|i: int| 1 <= i < m.len() implies (#[trigger] m[i]).depth <= m[i - 1].depth + 1 by {
        assert(o.items[i].depth <= o.items[i - 1].depth + 1);
    }
    assert forall|i: int| 0 <= i < m.len() implies (#[trigger] m[i]).text.len() > 0 by {
        assert(o.items[i].text.len() > 0);
    }
    if m.len() > 0 {
        assert(m[0].depth == o.items[0].depth);
    }
    lemma_vis_levels(m, 0, 0);
    assert(at_most(m, 0) =~= at_most(o.items, 0));
}

/// The nearest non-blank item before index `i`, or -1 when there is none.
pub open spec fn prev_nonblank(m: Seq<ItemModel>, i: int) -> int
    decreases i,
{
    if i <= 0 || i > m.len() {
        -1
    } else if m[i - 1].text.len() > 0 {
        i - 1
    } else {
        prev_nonblank(m, i - 1)
    }
}

/// Each non-blank item is at most one level deeper than the non-blank item
/// before it.
pub open spec fn steps_ok(m: Seq<ItemModel>) -> bool {
    forall|i: int|
        0 <= i < m.len() && m[i].text.len() > 0 && prev_nonblank(m, i) >= 0 ==> (#[trigger] m[i]).depth
            <= m[prev_nonblank(m, i)].depth + 1
}

/// `prev_nonblank` is a non-blank item before `i` at or after every other
/// non-blank item before `i`.
proof fn lemma_prev_nonblank(m: Seq<ItemModel>, i: int, j: int)
    requires
        0 <= j < i <= m.len(),
        m[j].text.len() > 0,
    ensures
        j <= prev_nonblank(m, i) < i,
        m[prev_nonblank(m, i)].text.len() > 0,
    decreases i,
{
    if m[i - 1].text.len() == 0 {
        lemma_prev_nonblank(m, i - 1, j);
    }
}

/// Between two non-blank items, the depths in between are all taken by
/// some non-blank item: every depth `v` from the first one's depth up to
/// below the second one's.
proof fn lemma_depth_between(m: Seq<ItemModel>, j: int, i: int, v: nat)
    requires
        0 <= j < i < m.len(),
        m[j].text.len() > 0,
        m[i].text.len() > 0,
        m[j].depth <= v < m[i].depth,
        steps_ok(m),
    ensures
        exists|k: int| j <= k < i && m[k].text.len() > 0 && #[trigger] m[k].depth == v,
    decreases i,
{
    lemma_prev_nonblank(m, i, j);
    let p = prev_nonblank(m, i);
    assert(m[i].depth <= m[p].depth + 1);
    if m[p].depth == v {
        assert(j <= p < i && m[p].text.len() > 0 && m[p].depth == v);
    } else {
        assert(m[p].depth > v);
        lemma_depth_between(m, j, p, v);
        let k = choose|k: int| j <= k < p && m[k].text.len() > 0 && #[trigger] m[k].depth == v;
        assert(j <= k < i && m[k].text.len() > 0 && m[k].depth == v);
    }
}

/// The walk for ancestors from `i` looking for depth `want - 1` reaches the
/// non-blank item `j` when every non-blank item between them is deeper than
/// `j` and some non-blank item from `j` on has depth `want - 1`.
proof fn lemma_walk_reaches(m: Seq<ItemModel>, j: int, i: int, want: nat)
    requires
        0 <= j < i <= m.len(),
        m.len() <= usize::MAX,
        m[j].text.len() > 0,
        m[j].depth < want,
        steps_ok(m),
        forall|k: int| j < k < i && m[k].text.len() > 0 ==> (#[trigger] m[k]).depth > m[j].depth,
        exists|k: int| j <= k < i && m[k].text.len() > 0 && (#[trigger] m[k]).depth + 1 == want,
    ensures
        anc_walk(m, i, want).contains(j as usize),
    decreases i,
{
    let k = i - 1;
    let w = choose|w: int| j <= w < i && m[w].text.len() > 0 && (#[trigger] m[w]).depth + 1 == want;
    if k == j {
        assert(w == j);
        assert(anc_walk(m, i, want) == seq![k as usize] + anc_walk(m, k, (want - 1) as nat));
        assert(anc_walk(m, i, want)[0] == j as usize);
    } else if m[k].text.len() == 0 {
        assert(w != k);
        lemma_walk_reaches(m, j, k, want);
        assert(anc_walk(m, i, want) == anc_walk(m, k, want));
    } else if m[k].depth + 1 == want {
        assert(m[k].depth > m[j].depth);
        let rest = anc_walk(m, k, (want - 1) as nat);
        lemma_depth_between(m, j, k, (want - 2) as nat);
        let u = choose|u: int| j <= u < k && m[u].text.len() > 0 && #[trigger] m[u].depth == (want - 2) as nat;
        assert(m[u].depth + 1 == (want - 1) as nat);
        lemma_walk_reaches(m, j, k, (want - 1) as nat);
        let x = choose|x: int| 0 <= x < rest.len() && rest[x] == j as usize;
        assert(anc_walk(m, i, want) == seq![k as usize] + rest);
        assert(anc_walk(m, i, want)[x + 1] == j as usize);
    } else {
        assert(w != k);
        lemma_walk_reaches(m, j, k, want);
        assert(anc_walk(m, i, want) == anc_walk(m, k, want));
    }
}

/// An item that no earlier visible folded item covers is visible.
proof fn lemma_uncovered_visible(m: Seq<ItemModel>, s: int, t: int)
    requires
        0 <= s <= t < m.len(),
        m.len() <= usize::MAX,
        forall|j: int|
            s <= j < t && (#[trigger] m[j]).folded && spec_has_children(m, j) ==> spec_last_descendant(m, j) < t,
    ensures
        vis_from(m, None, s).contains(t as usize),
    decreases t - s,
{
    if s == t {
        assert(vis_from(m, None, s)[0] == t as usize);
    } else {
        let next = if m[s].folded && spec_has_children(m, s) {
            spec_last_descendant(m, s) + 1
        } else {
            s + 1
        };
        lemma_last_descendant_bounds(m, s);
        lemma_uncovered_visible(m, next, t);
        let r = vis_from(m, None, next);
        let x = choose|x: int| 0 <= x < r.len() && r[x] == t as usize;
        assert(vis_from(m, None, s) == seq![s as usize] + r);
        assert(vis_from(m, None, s)[x + 1] == t as usize);
    }
}

/// Unfolding at least the ancestors of a non-blank item `t` leaves no
/// earlier folded item covering it, when no folded blank item covers it.
proof fn lemma_path_uncovered(m: Seq<ItemModel>, ks: Seq<usize>, t: int)
    requires
        0 <= t < m.len(),
        m.len() <= usize::MAX,
        m[t].text.len() > 0,
        steps_ok(m),
        forall|i: int|
            0 <= i < t && (#[trigger] m[i]).text.len() == 0 && m[i].folded && spec_has_children(m, i)
                ==> spec_last_descendant(m, i) < t,
        forall|x: usize| ancestors(m, t).contains(x) ==> #[trigger] ks.contains(x),
    ensures
        vis_from(unfold_listed(m, ks), None, 0).contains(t as usize),
{
    let a = ancestors(m, t);
    let u = unfold_listed(m, ks);
    assert forall|j: int|
        0 <= j < t && (#[trigger] u[j]).folded && spec_has_children(u, j) implies spec_last_descendant(u, j) < t by {
        lemma_scan_end(u, u[j].depth, j + 1);
        if spec_last_descendant(u, j) >= t {
            assert(u[t].depth > u[j].depth);
            if m[j].text.len() == 0 {
                assert(same_shape(m, u));
                lemma_scan_end_shape(m, u, m[j].depth, j + 1);
                let w = choose|w: int| j < w < u.len() && u[w].text.len() > 0 && #[trigger] u[w].depth > u[j].depth;
                assert(m[w].text.len() > 0 && m[w].depth > m[j].depth);
                assert(m[j + 1].depth == u[j + 1].depth);
                assert(spec_has_children(m, j));
                if ks.contains(j as usize) {
                    assert(!u[j].folded);
                } else {
                    assert(m[j].folded);
                }
            } else {
                assert forall|k: int| j < k < t && m[k].text.len() > 0 implies (#[trigger] m[k]).depth > m[j].depth by {
                    assert(u[k].depth == m[k].depth);
                }
                lemma_depth_between(m, j, t, (m[t].depth - 1) as nat);
                let w = choose|w: int| j <= w < t && m[w].text.len() > 0 && #[trigger] m[w].depth == (m[t].depth - 1) as nat;
                assert(m[w].depth + 1 == m[t].depth);
                lemma_walk_reaches(m, j, t, m[t].depth);
                assert(a.contains(j as usize));
                assert(ks.contains(j as usize));
                assert(!u[j].folded);
            }
        }
    }
    lemma_uncovered_visible(u, 0, t);
}

/// With no filter on, unfolding the ancestors of a non-blank item makes it
/// visible, when each non-blank item is at most one level deeper than the
/// non-blank item before it and no folded blank item with children has the
/// item in its subtree.
pub proof fn lemma_unfold_path_shows_target(o: OutlineModel, t: int)
    requires
        o.filter is None,
        0 <= t < o.items.len(),
        o.items.len() <= usize::MAX,
        o.items[t].text.len() > 0,
        steps_ok(o.items),
        forall|i: int|
            0 <= i < t && (#[trigger] o.items[i]).text.len() == 0 && o.items[i].folded && spec_has_children(
                o.items,
                i,
            ) ==> spec_last_descendant(o.items, i) < t,
    ensures
        spec_visible(with_items(o, unfold_listed(o.items, ancestors(o.items, t)))).contains(t as usize),
{
    lemma_path_uncovered(o.items, ancestors(o.items, t), t);
}

/// Items with the same texts have the same non-blank items.
proof fn lemma_prev_nonblank_same(a: Seq<ItemModel>, b: Seq<ItemModel>, i: int)
    requires
        a.len() == b.len(),
        forall|k: int| 0 <= k < a.len() ==> (#[trigger] a[k]).text == b[k].text,
    ensures
        prev_nonblank(a, i) == prev_nonblank(b, i),
    decreases i,
{
    if 0 < i <= a.len() {
        assert(a[i - 1].text == b[i - 1].text);
        lemma_prev_nonblank_same(a, b, i - 1);
    }
}

/// A value in a sequence has a first position there.
proof fn lemma_position_found(v: Seq<usize>, x: usize, k: int)
    requires
        0 <= k,
        exists|p: int| k <= p < v.len() && v[p] == x,
    ensures
        position_of(v, x, k) matches Some(p) && 0 <= p < v.len() && v[p] == x,
    decreases v.len() - k,
{
    if v[k] != x {
        let p = choose|p: int| k <= p < v.len() && v[p] == x;
        assert(p != k);
        lemma_position_found(v, x, k + 1);
    }
}

/// Switching presentation mode on keeps the selection on the selected item,
/// with no filter on, no blank items, and each item at most one level
/// deeper than the one before it.
pub proof fn lemma_presentation_keeps_selection(o: OutlineModel)
    requires
        !o.presentation,
        spec_current(o) is Some,
        o.filter is None,
        o.items.len() <= usize::MAX,
        no_blanks(o.items),
        steps_ok(o.items),
    ensures
        spec_current(spec_toggle_presentation(o)) == spec_current(o),
{
    lemma_current_in_range(o);
    match spec_current(o) {
        None => {},
        Some(idx) => {
            let m = o.items;
            let f = folded_all(m);
            lemma_prev_nonblank_same(f, m, 0);
            assert forall|i: int|
                0 <= i < f.len() && f[i].text.len() > 0 && prev_nonblank(f, i) >= 0 implies (#[trigger] f[i]).depth
                <= f[prev_nonblank(f, i)].depth + 1 by {
                lemma_prev_nonblank_same(f, m, i);
                assert(m[i].depth <= m[prev_nonblank(m, i)].depth + 1);
            }
            assert(m[idx as int].text.len() > 0);
            let ks = ancestors(f, idx as int).push(idx);
            assert forall|x: usize| ancestors(f, idx as int).contains(x) implies #[trigger] ks.contains(x) by {
                let w = choose|w: int| 0 <= w < ancestors(f, idx as int).len() && ancestors(f, idx as int)[w] == x;
                assert(ks[w] == x);
            }
            assert forall|i: int|
                0 <= i < idx && (#[trigger] f[i]).text.len() == 0 && f[i].folded && spec_has_children(f, i)
                    implies spec_last_descendant(f, i) < idx by {
                assert(m[i].text.len() > 0);
            }
            lemma_path_uncovered(f, ks, idx as int);
            let folded = OutlineModel { presentation: true, items: f, ..o };
            let shown = with_items(folded, path_unfolded(f, idx as int));
            let v = spec_visible(shown);
            assert(shown.items == unfold_listed(f, ks));
            assert(v.contains(idx));
            lemma_position_found(v, idx, 0);
            let pos = position_of(v, idx, 0)->Some_0;
            let r = spec_toggle_presentation(o);
            assert(r == at_position(shown, pos as nat));
            assert(spec_visible(r) == v);
            assert(r.visible_idx == pos);
        },
    }
}

// ---------------------------------------------------------------------------
// Laws of search, parent and template moves
// ---------------------------------------------------------------------------

/// `first_exact` finds the first item from `from` on, other than `skip`,
/// whose trimmed text is `needle`.
proof fn lemma_first_exact(m: Seq<ItemModel>, needle: Seq<char>, skip: int, from: int)
    requires
        0 <= from,
    ensures
        match first_exact(m, needle, skip, from) {
            Some(j) => from <= j < m.len() && j != skip && crate::text::trim(m[j].text) == needle
                && forall|k: int| from <= k < j && k != skip ==> crate::text::trim(#[trigger] m[k].text) != needle,
            None => forall|k: int| from <= k < m.len() && k != skip ==> crate::text::trim(#[trigger] m[k].text) != needle,
        },
    decreases m.len() - from,
{
    if from < m.len() && !(from != skip && crate::text::trim(m[from].text) == needle) {
        lemma_first_exact(m, needle, skip, from + 1);
    }
}

/// `first_containing` finds the first index from `from` on, other than
/// `skip`, whose text contains `lneedle`.
proof fn lemma_first_containing(lts: Seq<Seq<char>>, lneedle: Seq<char>, skip: int, from: int)
    requires
        0 <= from,
    ensures
        match first_containing(lts, lneedle, skip, from) {
            Some(j) => from <= j < lts.len() && j != skip && seq_contains(lts[j], lneedle)
                && forall|k: int| from <= k < j && k != skip ==> !seq_contains(#[trigger] lts[k], lneedle),
            None => forall|k: int| from <= k < lts.len() && k != skip ==> !seq_contains(#[trigger] lts[k], lneedle),
        },
    decreases lts.len() - from,
{
    if from < lts.len() && !(from != skip && seq_contains(lts[from], lneedle)) {
        lemma_first_containing(lts, lneedle, skip, from + 1);
    }
}

/// A reference names the first item, other than `skip`, whose trimmed text
/// equals it, whenever there is one: a text that only contains it, or
/// starts with it, never wins over an exact one.
pub proof fn lemma_find_item_exact(m: Seq<ItemModel>, needle: Seq<char>, skip: int, i: int)
    requires
        0 <= i < m.len(),
        i != skip,
        crate::text::trim(m[i].text) == needle,
    ensures
        spec_find_item(m, needle, skip) matches Some(j) && 0 <= j <= i && j != skip
            && crate::text::trim(m[j].text) == needle
            && forall|k: int| 0 <= k < j && k != skip ==> crate::text::trim(#[trigger] m[k].text) != needle,
{
    lemma_first_exact(m, needle, skip, 0);
}

/// Without an exact match, a reference names the first item, other than
/// `skip`, whose lower-cased text contains the lower-cased reference, and
/// nothing when there is none.
pub proof fn lemma_find_item_fallback(m: Seq<ItemModel>, needle: Seq<char>, skip: int)
    requires
        forall|k: int| 0 <= k < m.len() && k != skip ==> crate::text::trim(#[trigger] m[k].text) != needle,
    ensures
        match spec_find_item(m, needle, skip) {
            Some(j) => 0 <= j < m.len() && j != skip && seq_contains(lowercase(m[j].text), lowercase(needle))
                && forall|k: int|
                    0 <= k < j && k != skip ==> !seq_contains(lowercase(#[trigger] m[k].text), lowercase(needle)),
            None => forall|k: int|
                0 <= k < m.len() && k != skip ==> !seq_contains(lowercase(#[trigger] m[k].text), lowercase(needle)),
        },
{
    lemma_first_exact(m, needle, skip, 0);
    assert(first_exact(m, needle, skip, 0) is None);
    let lts = lowered_texts(m);
    let ln = lowercase(needle);
    lemma_first_containing(lts, ln, skip, 0);
    match first_containing(lts, ln, skip, 0) {
        Some(j) => {
            assert(lts[j] == lowercase(m[j].text));
            assert forall|k: int| 0 <= k < j && k != skip implies !seq_contains(lowercase(#[trigger] m[k].text), ln) by {
                assert(lts[k] == lowercase(m[k].text));
                assert(!seq_contains(lts[k], ln));
            }
        },
        None => {
            assert forall|k: int| 0 <= k < m.len() && k != skip implies !seq_contains(lowercase(#[trigger] m[k].text), ln) by {
                assert(lts[k] == lowercase(m[k].text));
                assert(!seq_contains(lts[k], ln));
            }
        },
    }
}

/// `prev_at_depth` finds the nearest non-blank item before `from` at
/// depth `d`.
proof fn lemma_prev_at_depth(m: Seq<ItemModel>, from: int, d: nat)
    requires
        0 <= from <= m.len(),
    ensures
        match prev_at_depth(m, from, d) {
            Some(p) => 0 <= p < from && m[p].text.len() > 0 && m[p].depth == d && forall|j: int|
                p < j < from ==> (#[trigger] m[j]).text.len() == 0 || m[j].depth != d,
            None => forall|j: int| 0 <= j < from ==> (#[trigger] m[j]).text.len() == 0 || m[j].depth != d,
        },
    decreases from,
{
    if from > 0 && !(m[from - 1].text.len() > 0 && m[from - 1].depth == d) {
        lemma_prev_at_depth(m, from - 1, d);
    }
}

/// `position_of` finds the first position of `x` from `k` on.
proof fn lemma_position_of(v: Seq<usize>, x: usize, k: int)
    requires
        0 <= k,
    ensures
        match position_of(v, x, k) {
            Some(p) => k <= p < v.len() && v[p] == x && forall|q: int| k <= q < p ==> #[trigger] v[q] != x,
            None => forall|q: int| k <= q < v.len() ==> #[trigger] v[q] != x,
        },
    decreases v.len() - k,
{
    if k < v.len() && v[k] != x {
        lemma_position_of(v, x, k + 1);
    }
}

/// Going to the parent of the selected item `c` changes only the selection,
/// and only to the nearest earlier non-blank item one level up from `c`;
/// when that item is visible, the selection lands on it. At depth 0
/// nothing changes.
pub proof fn lemma_goto_parent(o: OutlineModel, c: usize)
    requires
        o.items.len() <= usize::MAX,
        spec_current(o) == Some(c),
    ensures
        ({
            let o1 = spec_goto_parent(o);
            let d = o.items[c as int].depth - 1;
            &&& o1 == at_position(o, o1.visible_idx)
            &&& o.items[c as int].depth == 0 ==> o1 == o
            &&& spec_current(o1) matches Some(p) && (p == c || (p < c && o.items[p as int].text.len() > 0
                && o.items[p as int].depth == d && forall|j: int|
                p < j < c ==> (#[trigger] o.items[j]).text.len() == 0 || o.items[j].depth != d))
            &&& forall|p: int|
                0 <= p < c && o.items[p].text.len() > 0 && o.items[p].depth == d && (forall|j: int|
                    p < j < c ==> (#[trigger] o.items[j]).text.len() == 0 || o.items[j].depth != d)
                    && #[trigger] spec_visible(o).contains(p as usize) ==> spec_current(o1) == Some(p as usize)
        }),
{
    lemma_current_in_range(o);
    let m = o.items;
    let o1 = spec_goto_parent(o);
    let v = spec_visible(o);
    if m[c as int].depth == 0 {
        assert(o1 == at_position(o, o1.visible_idx));
    } else {
        let d = (m[c as int].depth - 1) as nat;
        lemma_prev_at_depth(m, c as int, d);
        match prev_at_depth(m, c as int, d) {
            Some(p) => {
                lemma_position_of(v, p as usize, 0);
                assert forall|p2: int|
                    0 <= p2 < c && m[p2].text.len() > 0 && m[p2].depth == d && (forall|j: int|
                        p2 < j < c ==> (#[trigger] m[j]).text.len() == 0 || m[j].depth != d)
                        && #[trigger] v.contains(p2 as usize) implies spec_current(o1) == Some(p2 as usize) by {
                    if p2 < p {
                        assert(m[p].text.len() == 0 || m[p].depth != d);
                    } else if p2 > p {
                        assert(m[p2].text.len() == 0 || m[p2].depth != d);
                    }
                    let w = choose|w: int| 0 <= w < v.len() && v[w] == p2 as usize;
                }
                match position_of(v, p as usize, 0) {
                    Some(pos) => {
                        assert(spec_visible(at_position(o, pos as nat)) == v);
                    },
                    None => {
                        assert(o1 == o);
                        assert(o1 == at_position(o, o1.visible_idx));
                    },
                }
            },
            None => {
                assert(o1 == at_position(o, o1.visible_idx));
                assert forall|p2: int|
                    0 <= p2 < c && m[p2].text.len() > 0 && m[p2].depth == d && (forall|j: int|
                        p2 < j < c ==> (#[trigger] m[j]).text.len() == 0 || m[j].depth != d)
                        && #[trigger] v.contains(p2 as usize) implies spec_current(o1) == Some(p2 as usize) by {
                    assert(m[p2].text.len() == 0 || m[p2].depth != d);
                }
            },
        }
    }
}

/// `t` ends in `=` followed by nothing but white space.
pub open spec fn ends_in_equals(t: Seq<char>) -> bool {
    exists|k: int| 0 <= k < t.len() && t[k] == '=' && crate::text::all_ws(#[trigger] t.skip(k + 1))
}

/// A template element is exactly an item whose text ends in `=` followed by
/// nothing but white space.
proof fn lemma_is_template(t: Seq<char>)
    ensures
        is_template(t) <==> ends_in_equals(t),
{
    crate::text::lemma_trail_ws(t, 0);
    let n = t.len() - crate::text::trail_ws(t);
    if is_template(t) {
        let e = crate::text::trim_end(t);
        assert(e.last() == t[n - 1]);
        assert(t.skip(n - 1 + 1) == t.skip(t.len() - crate::text::trail_ws(t)));
    }
    if ends_in_equals(t) {
        let k = choose|k: int| 0 <= k < t.len() && t[k] == '=' && crate::text::all_ws(#[trigger] t.skip(k + 1));
        let c = t.len() - k - 1;
        assert(t.skip(t.len() - c) == t.skip(k + 1));
        assert(!crate::text::is_ws(t[k]));
        crate::text::lemma_trail_ws(t, c);
        assert(crate::text::trim_end(t).len() == k + 1);
        assert(crate::text::trim_end(t).last() == t[k]);
    }
}

/// `first_template` finds the first position in `from..to` (within `v`)
/// that shows a template element.
proof fn lemma_first_template(m: Seq<ItemModel>, v: Seq<usize>, from: int, to: int)
    requires
        0 <= from,
    ensures
        match first_template(m, v, from, to) {
            Some(p) => from <= p < to && p < v.len() && is_template(m[v[p] as int].text) && forall|q: int|
                from <= q < p ==> !is_template(#[trigger] m[v[q] as int].text),
            None => forall|q: int| from <= q < to && q < v.len() ==> !is_template(#[trigger] m[v[q] as int].text),
        },
    decreases to - from,
{
    if from < to && from < v.len() && !is_template(m[v[from] as int].text) {
        lemma_first_template(m, v, from + 1, to);
    }
}

/// Looking for the next template element changes only the selection. It
/// lands on the first visible item after the selection whose text ends in
/// `=` (trailing white space aside); when there is none after it, on the
/// first such item from the top; and when no visible item ends so, nothing
/// changes.
pub proof fn lemma_next_template(o: OutlineModel)
    ensures
        ({
            let (o1, r) = spec_goto_next_template(o);
            let v = spec_visible(o);
            let m = o.items;
            let vi = o.visible_idx as int;
            &&& o1 == at_position(o, o1.visible_idx)
            &&& r == TemplateJump::NoneFound <==> forall|p: int|
                0 <= p < v.len() ==> !ends_in_equals(#[trigger] m[v[p] as int].text)
            &&& r == TemplateJump::NoneFound ==> o1 == o
            &&& r != TemplateJump::NoneFound ==> o1.visible_idx < v.len() && ends_in_equals(
                m[v[o1.visible_idx as int] as int].text,
            )
            &&& r == TemplateJump::Next ==> vi < o1.visible_idx && forall|p: int|
                vi < p < o1.visible_idx ==> !ends_in_equals(#[trigger] m[v[p] as int].text)
            &&& r == TemplateJump::Wrapped ==> o1.visible_idx <= vi && (forall|p: int|
                vi < p < v.len() ==> !ends_in_equals(#[trigger] m[v[p] as int].text)) && forall|p: int|
                0 <= p < o1.visible_idx ==> !ends_in_equals(#[trigger] m[v[p] as int].text)
        }),
{
    let v = spec_visible(o);
    let m = o.items;
    let start = o.visible_idx + 1int;
    assert forall|p: int| 0 <= p < v.len() implies (is_template(#[trigger] m[v[p] as int].text) <==> ends_in_equals(
        m[v[p] as int].text,
    )) by {
        lemma_is_template(m[v[p] as int].text);
    }
    lemma_first_template(m, v, start, v.len() as int);
    let wrap_end = if start < v.len() {
        start
    } else {
        v.len() as int
    };
    lemma_first_template(m, v, 0, wrap_end);
    let (o1, r) = spec_goto_next_template(o);
    if r == TemplateJump::NoneFound {
        assert(o1 == at_position(o, o1.visible_idx));
    }
}

} // verus!
