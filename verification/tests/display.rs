use hyper::display::{
    expand_tilde, first_n_chars, fold_level_setting, footer_layout, header_layout, header_pad,
    parse_usize, scroll_offset, strip_ansi, strip_markup, truncate_display, HeaderLayout,
};

#[test]
fn scroll_offset_keeps_selection_centered() {
    assert_eq!(scroll_offset(0, 5, 10), 0);
    assert_eq!(scroll_offset(7, 20, 10), 2);
    assert_eq!(scroll_offset(2, 20, 10), 0);
    assert_eq!(scroll_offset(18, 20, 10), 10);
    assert_eq!(scroll_offset(15, 20, 10), 10);
    assert_eq!(scroll_offset(3, 20, 0), 3);
}

#[test]
fn scroll_offset_selection_in_window() {
    for total in 0..30usize {
        for h in 1..12usize {
            for idx in 0..total {
                let off = scroll_offset(idx, total, h);
                assert!(off <= idx && idx < off + h);
                if total > h {
                    assert!(off + h <= total);
                } else {
                    assert_eq!(off, 0);
                }
            }
        }
    }
}

#[test]
fn strip_markup_removes_emphasis() {
    assert_eq!(strip_markup("  *bold* /it/ _u_ "), "bold it u");
    assert_eq!(strip_markup("plain"), "plain");
    assert_eq!(strip_markup("** //"), "");
}

#[test]
fn strip_markup_drops_checkbox() {
    assert_eq!(strip_markup("[x] Buy milk"), "Buy milk");
    assert_eq!(strip_markup("[_] *task*"), "task");
    assert_eq!(strip_markup("  [O] in progress"), "in progress");
    assert_eq!(strip_markup("[-] dropped"), "dropped");
    assert_eq!(strip_markup("[ ] open"), "open");
    assert_eq!(strip_markup("[y] not a box"), "[y] not a box");
}

#[test]
fn strip_markup_drops_operator_colon() {
    assert_eq!(strip_markup("AND: milk"), "AND milk");
    assert_eq!(strip_markup("[x] OR: *this*"), "OR this");
    assert_eq!(strip_markup("A: b"), "A b");
    assert_eq!(strip_markup("and: lower"), "and: lower");
    assert_eq!(strip_markup("NOTE:x"), "NOTE:x");
    assert_eq!(strip_markup("Time: 10:30"), "Time: 10:30");
}

#[test]
fn first_n_chars_cuts_with_ellipsis() {
    assert_eq!(first_n_chars("hello", 3), "hel…");
    assert_eq!(first_n_chars("hi", 3), "hi");
    assert_eq!(first_n_chars("abc", 3), "abc");
    assert_eq!(first_n_chars("", 0), "");
    assert_eq!(first_n_chars("a", 0), "…");
    assert_eq!(first_n_chars("ÆØÅæ", 2), "ÆØ…");
}

#[test]
fn strip_ansi_sequences() {
    assert_eq!(strip_ansi("\x1b[38;5;196mred\x1b[0m"), "red");
    assert_eq!(strip_ansi("\x1b]8;;https://x\x1b\\link\x1b]8;;\x1b\\"), "link");
    assert_eq!(strip_ansi("a\x1b]0;title\x07b"), "ab");
    assert_eq!(strip_ansi("x\x1b[1"), "x");
    assert_eq!(strip_ansi("\x1bz"), "\x1bz");
    assert_eq!(strip_ansi("é"), "é");
    assert_eq!(strip_ansi("\x1b[1mÆble\x1b[0m – 漢字"), "Æble – 漢字");
}

#[test]
fn truncate_display_by_width() {
    let ones = vec![1usize; 11];
    assert_eq!(truncate_display("hello world", &ones, 11, 5), "hell…");
    assert_eq!(truncate_display("hello world", &ones, 11, 0), "");
    assert_eq!(truncate_display("hello world", &ones, 11, 11), "hello world");
    assert_eq!(truncate_display("漢字漢", &vec![2, 2, 2], 6, 4), "漢…");
    assert_eq!(truncate_display("ab", &vec![1, 1], 2, 1), "…");
    assert_eq!(truncate_display("ab", &vec![1, 1], 2, 2), "ab");
    assert_eq!(truncate_display("abc", &vec![1, 1, 1], 3, 1), "…");
}

#[test]
fn expand_tilde_with_home() {
    assert_eq!(expand_tilde("~/x", Some("/home/u")), "/home/u/x");
    assert_eq!(expand_tilde("~", Some("/home/u")), "/home/u");
    assert_eq!(expand_tilde("~/x", None), "~/x");
    assert_eq!(expand_tilde("~", None), "~");
    assert_eq!(expand_tilde("/a", Some("/home/u")), "/a");
    assert_eq!(expand_tilde("~user", Some("/home/u")), "~user");
}

#[test]
fn parse_usize_like_from_str() {
    let p = |s: &str| parse_usize(&s.chars().collect());
    assert_eq!(p("+5"), Some(5));
    assert_eq!(p("007"), Some(7));
    assert_eq!(p(""), None);
    assert_eq!(p("+"), None);
    assert_eq!(p("-1"), None);
    assert_eq!(p("1 "), None);
    assert_eq!(p("18446744073709551615"), "18446744073709551615".parse::<usize>().ok());
    assert_eq!(p("99999999999999999999999"), None);
}

#[test]
fn fold_level_from_config() {
    assert_eq!(fold_level_setting("fold_level=3"), Some(3));
    assert_eq!(fold_level_setting("x, fold_level=+7 "), Some(7));
    assert_eq!(fold_level_setting(" fold_level=0"), Some(0));
    assert_eq!(fold_level_setting("a=1, fold_level= 2"), None);
    assert_eq!(fold_level_setting("fold_level=abc, fold_level=2"), None);
    assert_eq!(fold_level_setting(""), None);
    assert_eq!(fold_level_setting("fold_level"), None);
    assert_eq!(fold_level_setting("fold_level=99999999999999999999999"), None);
}

#[test]
fn header_layouts() {
    assert_eq!(header_layout(true, 10, 5, 80), HeaderLayout::InfoOnly);
    assert_eq!(header_layout(false, 10, 5, 13), HeaderLayout::InfoOnly);
    assert_eq!(header_layout(false, 10, 5, 80), HeaderLayout::Full(64));
    assert_eq!(header_layout(false, 10, 50, 40), HeaderLayout::Truncated(28));
    assert_eq!(header_pad(40, 10, 20), 9);
}

#[test]
fn footer_layouts() {
    assert_eq!(footer_layout(20, 10, 80), (true, 50));
    assert_eq!(footer_layout(75, 10, 80), (false, 70));
    assert_eq!(footer_layout(75, 100, 80), (false, 0));
}
