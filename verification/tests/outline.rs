use hyper::outline::{
    build_filter_set, filter_set_from_lowered, find_item_by_text, first_containing_in, FilterMode, Mark,
    Outline, RefJump, Row, TemplateJump,
};
use hyper::parser::parse;

const SAMPLE: &str = "Project\n\tPlan\n\t\tStep one\n\t\tStep two =\n\tBuild\n\t\tCode <Step one>\n\t\tDocs <file:~/notes.txt>\n\nOther\n\tLeaf\n";

fn outline(src: &str) -> Outline {
    Outline::new(parse(src))
}

fn select(o: &mut Outline, pos: usize) {
    o.goto_first();
    for _ in 0..pos {
        o.move_down();
    }
    assert_eq!(o.visible_idx(), pos);
}

#[test]
fn all_items_visible_at_start() {
    let o = outline(SAMPLE);
    assert_eq!(o.visible_items(), (0..10).collect::<Vec<usize>>());
    assert_eq!(o.current_item_idx(), Some(0));
}

#[test]
fn has_children_checks_the_next_item() {
    let o = outline(SAMPLE);
    assert!(o.has_children(0));
    assert!(o.has_children(1));
    assert!(!o.has_children(2));
    assert!(!o.has_children(7));
    assert!(o.has_children(8));
    assert!(!o.has_children(9));
    assert!(!o.has_children(42));
}

#[test]
fn moving_and_paging() {
    let mut o = outline(SAMPLE);
    o.move_up();
    assert_eq!(o.visible_idx(), 0);
    o.move_down();
    assert_eq!(o.visible_idx(), 1);
    o.move_up();
    assert_eq!(o.visible_idx(), 0);
    o.page_down(3);
    assert_eq!(o.visible_idx(), 3);
    o.page_down(100);
    assert_eq!(o.visible_idx(), 9);
    o.move_down();
    assert_eq!(o.visible_idx(), 9);
    o.page_up(2);
    assert_eq!(o.visible_idx(), 7);
    o.page_up(50);
    assert_eq!(o.visible_idx(), 0);
    o.goto_last();
    assert_eq!(o.visible_idx(), 9);
    o.goto_first();
    assert_eq!(o.visible_idx(), 0);
}

#[test]
fn toggle_fold_hides_subtree_and_back() {
    let mut o = outline(SAMPLE);
    o.toggle_fold();
    assert!(o.doc().items[0].folded);
    assert_eq!(o.visible_items(), vec![0, 8, 9]);
    o.toggle_fold();
    assert!(!o.doc().items[0].folded);
    assert_eq!(o.visible_items(), (0..10).collect::<Vec<usize>>());
}

#[test]
fn toggle_fold_on_leaf_does_nothing() {
    let mut o = outline(SAMPLE);
    select(&mut o, 2);
    o.toggle_fold();
    assert!(!o.doc().items[2].folded);
}

#[test]
fn collapse_expand_and_levels() {
    let mut o = outline(SAMPLE);
    o.collapse_all();
    assert_eq!(o.visible_items(), vec![0, 8]);
    o.expand_all();
    assert_eq!(o.visible_items(), (0..10).collect::<Vec<usize>>());
    o.fold_to_level(1);
    // The blank line belongs to Build's subtree, so it hides with it.
    assert_eq!(o.visible_items(), vec![0, 1, 4, 8, 9]);
    o.fold_to_level(2);
    assert_eq!(o.visible_items(), (0..10).collect::<Vec<usize>>());
    assert!(o.doc().items[2].folded && !o.doc().items[1].folded);
    o.fold_to_level(0);
    assert_eq!(o.visible_items(), vec![0, 8]);
}

#[test]
fn goto_parent_and_first_child() {
    let mut o = outline(SAMPLE);
    select(&mut o, 3);
    o.goto_parent();
    assert_eq!(o.current_item_idx(), Some(1));
    o.goto_parent();
    assert_eq!(o.current_item_idx(), Some(0));
    o.goto_parent();
    assert_eq!(o.current_item_idx(), Some(0));
    o.toggle_fold();
    o.goto_first_child();
    assert!(!o.doc().items[0].folded);
    assert_eq!(o.current_item_idx(), Some(1));
    select(&mut o, 2);
    o.goto_first_child();
    assert_eq!(o.current_item_idx(), Some(2));
}

#[test]
fn highlight_branch() {
    let mut o = outline(SAMPLE);
    assert!(o.in_highlight_subtree(9));
    assert_eq!(o.toggle_highlight_branch(), Some(true));
    assert_eq!(o.highlight_root(), Some(0));
    assert!(o.in_highlight_subtree(0));
    assert!(o.in_highlight_subtree(5));
    assert!(o.in_highlight_subtree(7));
    assert!(!o.in_highlight_subtree(8));
    assert_eq!(o.toggle_highlight_branch(), Some(false));
    assert_eq!(o.highlight_root(), None);
}

#[test]
fn presentation_mode() {
    let mut o = outline(SAMPLE);
    assert!(o.toggle_presentation());
    assert!(o.presentation());
    assert_eq!(o.visible_items(), vec![0, 1, 4, 8]);
    assert!(!o.doc().items[0].folded);
    assert!(o.doc().items[1].folded);
    assert!(!o.toggle_presentation());
    assert!(o.doc().items[1].folded);
}

#[test]
fn presentation_keeps_deep_selection() {
    let mut o = outline(SAMPLE);
    select(&mut o, 5);
    assert!(o.toggle_presentation());
    assert_eq!(o.visible_items(), vec![0, 1, 4, 5, 6, 7, 8]);
    assert_eq!(o.current_item_idx(), Some(5));
    assert_eq!(o.visible_idx(), 3);
    assert!(!o.doc().items[0].folded);
    assert!(!o.doc().items[4].folded);
    assert!(!o.doc().items[5].folded);
    assert!(o.doc().items[1].folded);
}

#[test]
fn presentation_keeps_selected_sibling() {
    let mut o = outline("A\n\tA1\n\tA2\nB\n");
    o.move_down();
    assert_eq!(o.current_item_idx(), Some(1));
    assert!(o.toggle_presentation());
    assert_eq!(o.current_item_idx(), Some(1));
    assert!(!o.doc().items[0].folded);
    assert!(!o.doc().items[1].folded);
    assert!(o.doc().items[2].folded);
    assert!(o.doc().items[3].folded);
}

#[test]
fn reference_jumps_to_item() {
    let mut o = outline(SAMPLE);
    o.fold_to_level(1);
    o.expand_all();
    select(&mut o, 5);
    match o.goto_reference() {
        Some(RefJump::Jumped(t)) => assert_eq!(t, "Step one"),
        other => panic!("unexpected {:?}", other),
    }
    assert_eq!(o.current_item_idx(), Some(2));
}

#[test]
fn reference_unfolds_path() {
    let mut o = outline("A\n\tB\n\t\tC\nSee <c>\n");
    o.collapse_all();
    o.goto_last();
    assert_eq!(o.current_item_idx(), Some(3));
    match o.goto_reference() {
        Some(RefJump::Jumped(t)) => assert_eq!(t, "c"),
        other => panic!("unexpected {:?}", other),
    }
    assert_eq!(o.current_item_idx(), Some(2));
    assert!(!o.doc().items[0].folded);
}

#[test]
fn reference_to_file() {
    let mut o = outline(SAMPLE);
    select(&mut o, 6);
    match o.goto_reference() {
        Some(RefJump::OpenFile(p)) => assert_eq!(p, "~/notes.txt"),
        other => panic!("unexpected {:?}", other),
    }
}

#[test]
fn reference_skips_its_own_line() {
    // The line holding the reference contains its text, but it is not the
    // item the reference names.
    let mut o = outline("Plain\nRoot <nothing here>\n");
    o.move_down();
    match o.goto_reference() {
        Some(RefJump::NotFound(t)) => assert_eq!(t, "nothing here"),
        other => panic!("unexpected {:?}", other),
    }
    assert_eq!(o.current_item_idx(), Some(1));
    o.move_up();
    assert!(matches!(o.goto_reference(), Some(RefJump::NoReference)));
}

#[test]
fn reference_lands_on_named_item() {
    let mut o = outline("See <Target>\nTarget item here\n");
    match o.goto_reference() {
        Some(RefJump::Jumped(t)) => assert_eq!(t, "Target"),
        other => panic!("unexpected {:?}", other),
    }
    assert_eq!(o.visible_idx(), 1);
    assert_eq!(o.current_item_idx(), Some(1));
}

#[test]
fn reference_unclosed_is_no_reference() {
    let mut o = outline("x < y and z\n");
    assert!(matches!(o.goto_reference(), Some(RefJump::NoReference)));
}

#[test]
fn reference_case_insensitive_and_double_angle() {
    let mut o = outline("Alpha\nBeta <<ALPHA>>\nGamma <alp>\n");
    o.move_down();
    match o.goto_reference() {
        Some(RefJump::Jumped(t)) => assert_eq!(t, "ALPHA"),
        other => panic!("unexpected {:?}", other),
    }
    assert_eq!(o.current_item_idx(), Some(0));
    o.goto_last();
    match o.goto_reference() {
        Some(RefJump::Jumped(t)) => assert_eq!(t, "alp"),
        other => panic!("unexpected {:?}", other),
    }
    assert_eq!(o.current_item_idx(), Some(0));
}

#[test]
fn reference_not_visible_under_filter() {
    let mut o = outline("Target\nLink <Target>\n");
    assert_eq!(o.apply_filter("link", FilterMode::Show), Some(1));
    assert_eq!(o.visible_items(), vec![1]);
    match o.goto_reference() {
        Some(RefJump::NotVisible(t)) => assert_eq!(t, "Target"),
        other => panic!("unexpected {:?}", other),
    }
}

#[test]
fn reference_without_selection() {
    let mut o = outline("");
    assert!(o.goto_reference().is_none());
}

#[test]
fn next_template_and_wrap() {
    let mut o = outline(SAMPLE);
    assert_eq!(o.goto_next_template(), TemplateJump::Next);
    assert_eq!(o.visible_idx(), 3);
    assert_eq!(o.goto_next_template(), TemplateJump::Wrapped);
    assert_eq!(o.visible_idx(), 3);
    let mut plain = outline("a\nb\n");
    assert_eq!(plain.goto_next_template(), TemplateJump::NoneFound);
    assert_eq!(plain.visible_idx(), 0);
}

#[test]
fn filter_show_keeps_ancestors() {
    let mut o = outline(SAMPLE);
    o.move_down();
    assert_eq!(o.apply_filter("  STEP ", FilterMode::Show), Some(6));
    assert!(o.filter_active());
    assert_eq!(o.visible_idx(), 0);
    assert_eq!(o.visible_items(), vec![0, 1, 2, 3, 4, 5]);
}

#[test]
fn filter_hide() {
    let mut o = outline(SAMPLE);
    assert_eq!(o.apply_filter("step", FilterMode::Hide), Some(6));
    assert_eq!(o.visible_items(), vec![0, 1, 4, 6, 8, 9]);
    o.clear_filter();
    assert!(!o.filter_active());
    assert_eq!(o.visible_items().len(), 10);
}

#[test]
fn blank_filter_clears() {
    let mut o = outline(SAMPLE);
    o.apply_filter("step", FilterMode::Show);
    o.move_down();
    assert_eq!(o.apply_filter("   ", FilterMode::Show), None);
    assert!(!o.filter_active());
    assert_eq!(o.visible_idx(), 1);
}

#[test]
fn breadcrumb_trail() {
    let mut o = outline(SAMPLE);
    assert_eq!(o.breadcrumb(), "");
    select(&mut o, 5);
    assert_eq!(o.breadcrumb(), "Build \u{203A} Project");
    let mut m = outline("Top *Bold* _x_\n\tA very long item text that goes on and on beyond forty chars\n\t\tleaf\n");
    m.goto_last();
    assert_eq!(m.breadcrumb(), "A very long item text that goes on and o… \u{203A} Top Bold x");
    // A leading `*` is indentation, so this item sits at depth 1.
    let mut s = outline("*Star\n\t\tkid\n");
    s.goto_last();
    assert_eq!(s.doc().items[0].depth, 1);
    assert_eq!(s.breadcrumb(), "Star");
}

#[test]
fn complexity_counts() {
    let o = outline(SAMPLE);
    assert_eq!(o.complexity(), (9, 2));
    let e = outline("");
    assert_eq!(e.complexity(), (0, 0));
}

#[test]
fn config_is_kept() {
    let o = outline("((fold_level=2))\nA\n");
    assert_eq!(o.doc().config.as_deref(), Some("fold_level=2"));
}

#[test]
fn loading_another_document_keeps_view_state() {
    let mut o = outline(SAMPLE);
    select(&mut o, 4);
    o.toggle_highlight_branch();
    o.load_document(parse("x\ny\n"));
    assert_eq!(o.doc().items.len(), 2);
    assert_eq!(o.visible_idx(), 4);
    assert_eq!(o.current_item_idx(), None);
    assert_eq!(o.highlight_root(), Some(4));
    assert!(!o.in_highlight_subtree(1));
}

#[test]
fn folded_items_hide_their_subtrees() {
    let mut o = outline(SAMPLE);
    o.fold_to_level(1);
    let v = o.visible_items();
    let items = &o.doc().items;
    for w in v.windows(2) {
        if items[w[0]].folded && o.has_children(w[0]) {
            assert!(w[1] > hyper::parser::last_descendant(items, w[0]));
        }
    }
}

#[test]
fn fold_to_level_shows_levels_up_to_it() {
    let src = "A\n\tB\n\t\tC\n\t\t\tD\n\tE\nF\n\tG\n";
    for level in 0..4 {
        let mut o = outline(src);
        o.fold_to_level(level);
        let expected: Vec<usize> =
            (0..o.doc().items.len()).filter(|&i| o.doc().items[i].depth <= level).collect();
        assert_eq!(o.visible_items(), expected);
    }
}

#[test]
fn collapse_all_shows_top_level() {
    let mut o = outline("A\n\tB\n\t\tC\n\tE\nF\n\tG\nH\n");
    o.collapse_all();
    assert_eq!(o.visible_items(), vec![0, 4, 6]);
}

#[test]
fn main_rows_describe_each_visible_item() {
    let mut o = outline("Root\n\tKid\n\n\tLeaf\nOther\n");
    o.toggle_fold();
    assert_eq!(o.main_rows(), vec![Row::Item { idx: 0, depth: 0, mark: Mark::Folded, selected: true, dimmed: false }, Row::Item { idx: 4, depth: 0, mark: Mark::Leaf, selected: false, dimmed: false }]);
    o.toggle_fold();
    o.move_down();
    assert_eq!(o.toggle_highlight_branch(), Some(true));
    assert_eq!(
        o.main_rows(),
        vec![
            Row::Item { idx: 0, depth: 0, mark: Mark::Open, selected: false, dimmed: true },
            Row::Item { idx: 1, depth: 1, mark: Mark::Leaf, selected: true, dimmed: false },
            Row::Blank,
            Row::Item { idx: 3, depth: 1, mark: Mark::Leaf, selected: false, dimmed: true },
            Row::Item { idx: 4, depth: 0, mark: Mark::Leaf, selected: false, dimmed: true },
        ]
    );
    let empty = outline("");
    assert_eq!(empty.main_rows(), vec![Row::Placeholder]);
}

#[test]
fn load_text_applies_fold_level() {
    let mut o = outline("x\n");
    assert!(o.load_text("((fold_level=1, other=2))\nA\n\tB\n\t\tC\nD\n"));
    assert_eq!(o.doc().config.as_deref(), Some("fold_level=1, other=2"));
    assert_eq!(o.doc().items.len(), 4);
    assert!(!o.doc().items[0].folded);
    assert!(o.doc().items[1].folded);
    assert_eq!(o.visible_items(), vec![0, 1, 3]);
    assert!(o.load_text("A\n\tB\n"));
    assert_eq!(o.doc().config, None);
    assert!(!o.doc().items[0].folded);
    assert_eq!(o.visible_items(), vec![0, 1]);
}

#[test]
fn search_on_lowered_texts() {
    let lowered: Vec<String> = vec!["see <alpha>".into(), "alpha beta".into(), "gamma".into()];
    assert_eq!(first_containing_in(&lowered, "alpha", 0), Some(1));
    assert_eq!(first_containing_in(&lowered, "alpha", 99), Some(0));
    assert_eq!(first_containing_in(&lowered, "delta", 99), None);
    assert_eq!(first_containing_in(&lowered, "", 0), Some(1));
}

#[test]
fn find_item_skips_the_given_item() {
    let doc = parse("Target\nSee TARGET\nTarget\n");
    assert_eq!(find_item_by_text(&doc.items, "Target", 0), Some(2));
    assert_eq!(find_item_by_text(&doc.items, "target", 0), Some(1));
    assert_eq!(find_item_by_text(&doc.items, "Target", 99), Some(0));
    assert_eq!(find_item_by_text(&doc.items, "nowhere", 99), None);
}

#[test]
fn filter_set_from_lowered_texts() {
    let doc = parse("Root\n\tWanted thing\n\tOther\nNext\n");
    let lowered: Vec<String> = doc.items.iter().map(|it| it.text.to_lowercase()).collect();
    let mut show: Vec<usize> =
        filter_set_from_lowered(&doc.items, &lowered, "wanted", FilterMode::Show).into_iter().collect();
    show.sort();
    assert_eq!(show, vec![0, 1]);
    let mut hide: Vec<usize> =
        filter_set_from_lowered(&doc.items, &lowered, "wanted", FilterMode::Hide).into_iter().collect();
    hide.sort();
    assert_eq!(hide, vec![0, 2, 3]);
    let mut built: Vec<usize> =
        build_filter_set(&doc.items, "WANTED", FilterMode::Show).into_iter().collect();
    built.sort();
    assert_eq!(built, vec![0, 1]);
}

#[test]
fn one_fold_toggle_keeps_selection() {
    let mut o = outline(SAMPLE);
    select(&mut o, 1);
    let before: Vec<bool> = o.doc().items.iter().map(|it| it.folded).collect();
    o.toggle_fold();
    assert_eq!(o.current_item_idx(), Some(1));
    assert_eq!(o.visible_idx(), 1);
    for (i, it) in o.doc().items.iter().enumerate() {
        assert_eq!(it.folded, if i == 1 { !before[i] } else { before[i] });
    }
    select(&mut o, 2);
    assert_eq!(o.current_item_idx(), Some(4));
    o.goto_first_child();
    assert_eq!(o.current_item_idx(), Some(5));
    o.toggle_fold();
    assert_eq!(o.current_item_idx(), Some(5));
    assert!(!o.doc().items[5].folded);
}

#[test]
fn reference_reaches_item_past_folded_blank() {
    let mut o = outline("X\n\nY\n\tZ\nSee <Z>\n");
    o.collapse_all();
    assert!(o.doc().items[1].folded);
    o.goto_last();
    assert_eq!(o.current_item_idx(), Some(4));
    match o.goto_reference() {
        Some(RefJump::Jumped(t)) => assert_eq!(t, "Z"),
        other => panic!("unexpected {:?}", other),
    }
    assert_eq!(o.current_item_idx(), Some(3));
}
