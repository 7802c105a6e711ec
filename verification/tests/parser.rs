use hyper::parser::{children, last_descendant, parse, serialize, Document, Item};

fn item(depth: usize, text: &str, continuation: bool) -> Item {
    Item { depth, text: text.to_string(), folded: false, continuation }
}

fn shape(doc: &Document) -> Vec<(usize, String, bool, bool)> {
    doc.items.iter().map(|it| (it.depth, it.text.clone(), it.folded, it.continuation)).collect()
}

#[test]
fn parse_empty_source() {
    let doc = parse("");
    assert!(doc.items.is_empty());
    assert!(doc.config.is_none());
}

#[test]
fn parse_tabs_and_stars_count_as_depth() {
    let doc = parse("Root\n\tChild\n**Grandchild\n\t*Mixed");
    assert_eq!(
        shape(&doc),
        vec![
            (0, "Root".to_string(), false, false),
            (1, "Child".to_string(), false, false),
            (2, "Grandchild".to_string(), false, false),
            (2, "Mixed".to_string(), false, false),
        ]
    );
}

#[test]
fn parse_spaces_are_skipped_without_depth() {
    let doc = parse("  \tIndented");
    assert_eq!(shape(&doc), vec![(1, "Indented".to_string(), false, false)]);
}

#[test]
fn parse_continuation_lines() {
    let doc = parse("Item\n\t+   more text");
    assert_eq!(
        shape(&doc),
        vec![(0, "Item".to_string(), false, false), (1, "more text".to_string(), false, true)]
    );
}

#[test]
fn parse_blank_lines_become_blank_items() {
    let doc = parse("A\n \t \nB");
    assert_eq!(
        shape(&doc),
        vec![
            (0, "A".to_string(), false, false),
            (0, String::new(), false, false),
            (0, "B".to_string(), false, false),
        ]
    );
}

#[test]
fn parse_config_line() {
    let doc = parse("  ((fold_level=2, x))\nA\n\tB\n");
    assert_eq!(doc.config.as_deref(), Some("fold_level=2, x"));
    assert_eq!(
        shape(&doc),
        vec![(0, "A".to_string(), false, false), (1, "B".to_string(), false, false)]
    );
}

#[test]
fn parse_first_line_without_closing_is_an_item() {
    let doc = parse("((open\nB");
    assert!(doc.config.is_none());
    assert_eq!(doc.items.len(), 2);
    assert_eq!(doc.items[0].text, "((open");
}

#[test]
fn parse_crlf_line_endings() {
    let doc = parse("A\r\n\tB\r\n");
    assert_eq!(
        shape(&doc),
        vec![(0, "A".to_string(), false, false), (1, "B".to_string(), false, false)]
    );
}

#[test]
fn parse_keeps_trailing_blank_lines() {
    let doc = parse("A\n\n");
    assert_eq!(
        shape(&doc),
        vec![(0, "A".to_string(), false, false), (0, String::new(), false, false)]
    );
    let doc = parse("A\n\n\n");
    assert_eq!(
        shape(&doc),
        vec![
            (0, "A".to_string(), false, false),
            (0, String::new(), false, false),
            (0, String::new(), false, false)
        ]
    );
}

#[test]
fn parse_unicode_text_is_kept() {
    let doc = parse("\tÆble – «ok» 漢字");
    assert_eq!(shape(&doc), vec![(1, "Æble – «ok» 漢字".to_string(), false, false)]);
}

#[test]
fn parse_non_breaking_space_line_is_blank() {
    let doc = parse("A\n\u{a0}\u{3000}\nB");
    assert_eq!(doc.items[1].text, "");
    assert_eq!(doc.items.len(), 3);
}

#[test]
fn serialize_writes_tabs_and_markers() {
    let doc = Document {
        items: vec![item(0, "Root", false), item(2, "Deep", false), item(1, "cont", true), item(0, "", false)],
        config: Some("fold_level=1".to_string()),
    };
    assert_eq!(serialize(&doc), "((fold_level=1))\nRoot\n\t\tDeep\n\t+ cont\n\n");
}

#[test]
fn serialize_blank_item_ignores_depth() {
    let doc = Document { items: vec![item(3, "", true)], config: None };
    assert_eq!(serialize(&doc), "\n");
}

#[test]
fn parse_serialize_roundtrip() {
    let doc = Document {
        items: vec![
            item(0, "Project", false),
            item(1, "Task: write", false),
            item(2, "details", true),
            item(0, "", false),
            item(0, "Done", false),
        ],
        config: Some("fold_level=3".to_string()),
    };
    let back = parse(&serialize(&doc));
    assert_eq!(shape(&back), shape(&doc));
    assert_eq!(back.config, doc.config);
}

#[test]
fn serialize_parse_serialize_is_stable() {
    let src = "((x))\nA\n*B\n  \t+ c\n\nD";
    let once = serialize(&parse(src));
    let twice = serialize(&parse(&once));
    assert_eq!(once, twice);
    assert_eq!(once, "((x))\nA\n\tB\n\t+ c\n\nD\n");
}

#[test]
fn children_direct_only() {
    let items = vec![
        item(0, "A", false),
        item(1, "B", false),
        item(2, "C", false),
        item(1, "D", false),
        item(0, "E", false),
        item(1, "F", false),
    ];
    assert_eq!(children(&items, 0), vec![1, 3]);
    assert_eq!(children(&items, 1), vec![2]);
    assert_eq!(children(&items, 4), vec![5]);
    assert_eq!(children(&items, 2), Vec::<usize>::new());
    assert_eq!(children(&items, 9), Vec::<usize>::new());
}

#[test]
fn children_pass_over_blank_items() {
    let items = vec![item(0, "A", false), item(1, "B", false), item(0, "", false), item(1, "C", false)];
    assert_eq!(children(&items, 0), vec![1, 3]);
}

#[test]
fn last_descendant_spans_subtree() {
    let items = vec![
        item(0, "A", false),
        item(1, "B", false),
        item(0, "", false),
        item(2, "C", false),
        item(0, "D", false),
    ];
    assert_eq!(last_descendant(&items, 0), 3);
    assert_eq!(last_descendant(&items, 1), 3);
    assert_eq!(last_descendant(&items, 4), 4);
    assert_eq!(last_descendant(&items, 7), 7);
}

#[test]
fn children_lie_within_last_descendant() {
    let items = vec![
        item(0, "A", false),
        item(1, "B", false),
        item(2, "C", false),
        item(1, "D", false),
        item(0, "E", false),
    ];
    for p in 0..items.len() {
        let last = last_descendant(&items, p);
        for c in children(&items, p) {
            assert!(p < c && c <= last);
            assert!(last_descendant(&items, c) <= last);
        }
    }
}

#[test]
fn default_values() {
    let it = Item::default();
    assert_eq!((it.depth, it.text.as_str(), it.folded, it.continuation), (0, "", false, false));
    let doc = Document::default();
    assert!(doc.items.is_empty() && doc.config.is_none());
}

#[test]
fn canonical_source_survives_parse_and_serialize() {
    let sources = [
        "((fold_level=2))\nProject\n\tPlan\n\t\t+ more about the plan\n\n\tBuild\n",
        "A\n\n\tB\n",
        "",
        "Top *bold* [x]\n\t\t\tdeep jump\n",
    ];
    for src in sources {
        assert_eq!(serialize(&parse(src)), src);
    }
}

#[test]
fn non_canonical_source_changes_on_the_way_back() {
    // A space indent, a carriage return and a missing final newline are all
    // written in the canonical form.
    assert_eq!(serialize(&parse("  A\r\n\tB")), "A\n\tB\n");
}

#[test]
fn children_are_deeper_by_one_within_subtree() {
    let doc = parse("R\n\tA\n\t\tA1\n\tB\n\n\tC\nS\n\tT\n");
    let expected: Vec<usize> = (1..=5).filter(|&i| doc.items[i].depth == 1).collect();
    assert_eq!(children(&doc.items, 0), expected);
    assert_eq!(children(&doc.items, 0), vec![1, 3, 5]);
    assert_eq!(children(&doc.items, 6), vec![7]);
    assert_eq!(children(&doc.items, 2), Vec::<usize>::new());
    assert_eq!(children(&doc.items, 99), Vec::<usize>::new());
}

#[test]
fn parse_drops_a_second_carriage_return_but_on_the_last_line() {
    let doc = parse("A\r\r\n\tB\r\r\n");
    assert_eq!(
        shape(&doc),
        vec![(0, "A".to_string(), false, false), (1, "B\r".to_string(), false, false)]
    );
    let doc = parse("((c))\nA\r\r\n\n");
    assert_eq!(doc.config.as_deref(), Some("c"));
    assert_eq!(
        shape(&doc),
        vec![(0, "A".to_string(), false, false), (0, String::new(), false, false)]
    );
}
