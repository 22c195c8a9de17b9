use iced_prompt::mode::{History, Item, Mode, ModeKind};
use iced_prompt::text::{contains_substring, split_lines, str_eq, trim_end};

#[test]
fn substring_search_finds_and_rejects() {
    assert!(contains_substring("hello world", "lo wo"));
    assert!(contains_substring("hello", ""));
    assert!(contains_substring("hello", "hello"));
    assert!(!contains_substring("hello", "hello!"));
    assert!(!contains_substring("abc", "cb"));
}

#[test]
fn trim_end_strips_trailing_whitespace_only() {
    assert_eq!(trim_end("abc \t\n"), "abc");
    assert_eq!(trim_end("  abc"), "  abc");
    assert_eq!(trim_end(""), "");
    assert_eq!(trim_end(" \n "), "");
}

#[test]
fn str_eq_compares_by_characters() {
    assert!(str_eq("abc", "abc"));
    assert!(!str_eq("abc", "abd"));
    assert!(!str_eq("abc", "ab"));
}

#[test]
fn split_lines_keeps_every_segment() {
    let parts = split_lines("one\ntwo\nthree");
    assert_eq!(parts, vec!["one", "two", "three"]);
    let with_empties = split_lines("a\n\nb\n");
    assert_eq!(with_empties, vec!["a", "", "b", ""]);
    assert_eq!(split_lines(""), vec![""]);
}

#[test]
fn mode_from_string_builds_one_item_per_line() {
    let mode = Mode::from_string("ls\npwd\nwhoami".to_string());
    assert_eq!(mode.kind, ModeKind::Default);
    assert_eq!(mode.items.len(), 3);
    assert_eq!(mode.order, vec![0, 1, 2]);
    assert_eq!(Item::value(&mode.items[1]), "pwd");
    assert_eq!(Item::id(&mode.items[2]), 2);
}

#[test]
fn mode_get_by_index_follows_the_order() {
    let mode = Mode::from_string("ls\npwd".to_string());
    let item = mode.get_by_index(1).unwrap();
    assert_eq!(Item::value(&item), "pwd");
    assert!(mode.get_by_index(2).is_none());
}

#[test]
fn mode_filter_keeps_matching_items_in_order() {
    let mode = Mode::from_string("List files\nquit\nlist disks".to_string());
    let filtered = mode.filter_by_value("LIST");
    assert_eq!(filtered.items, vec![0, 2]);
    let all = mode.filter_by_value("");
    assert_eq!(all.items, vec![0, 1, 2]);
}

#[test]
fn mode_with_filtered_order_overlays_the_view() {
    let mode = Mode::from_string("a\nb\nc".to_string());
    let filtered = mode.filter_by_value("b");
    let narrowed = mode.clone().with_filtered_order(&filtered);
    assert_eq!(narrowed.order, vec![1]);
    assert_eq!(narrowed.items.len(), 3);
}

#[test]
fn mode_scroll_offset_accumulates_item_heights() {
    let mode = Mode::from_string("a\nb\nc".to_string());
    let h = Item::height(&mode.items[0]);
    assert_eq!(mode.clone().scroll_offset_at_index(0), 0);
    assert_eq!(mode.clone().scroll_offset_at_index(2), 2 * h);
}

#[test]
fn mode_map_visits_items_in_order() {
    let mode = Mode::from_string("ls\npwd".to_string());
    let values = mode.map(|_, _, item| Item::value(item).clone());
    assert_eq!(values, vec!["ls".to_string(), "pwd".to_string()]);
}

#[test]
fn mode_history_push_pop_head_split() {
    let history = History::default()
        .push(Mode::from_string("a".to_string()))
        .push(Mode::from_string("b\nc".to_string()));
    assert_eq!(history.clone().len(), 2);

    let head = history.clone().head().unwrap();
    assert_eq!(head.order.len(), 2);

    let (top, rest) = history.clone().split().unwrap();
    assert_eq!(top.order.len(), 2);
    assert_eq!(rest.len(), 1);

    assert_eq!(history.pop().len(), 1);
    assert!(History::default().head().is_none());
}
