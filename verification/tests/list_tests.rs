use autocorrect::ignorer::Ignorer;
use xvw::filetree::{
    build_file_items, compare_pair, file_items_from, move_cursor, open_file_event, toggle_selection, update_item_children, visible_ids,
    DirEntryInfo, FileItem, FileTreeViewEvent,
};
use xvw::highlightpanel::{clear_prompt_detail, has_comment, navigate_selection, size_badge};
use xvw::listnav::{move_in_visible, position_of, select_current, sync_selection_to_filter, wrap_next, wrap_prev};
use xvw::readings::inspector_readings;
use xvw::searchlist::format_row_previews;
use xvw::stringlist::{
    adjust_minimum_length, filter_query, filtered_indices, minimum_length, preview_text, result_summary, sorted_indices,
    string_target, SortDirection, StringMatch,
};
use xvw::structtree::{FieldNode, StructTree};

fn m(offset: usize, text: &str) -> StringMatch {
    StringMatch { offset, byte_len: text.len(), text: text.to_string() }
}

#[test]
fn filter_is_trimmed_and_lower_case() {
    assert_eq!(filter_query("  ABC "), "abc");
    assert_eq!(filter_query("MiXeD"), "mixed");
    assert_eq!(filter_query("   "), "");
}

#[test]
fn minimum_length_is_a_positive_number() {
    assert_eq!(minimum_length(" 4 "), Some(4));
    assert_eq!(minimum_length("0"), None);
    assert_eq!(minimum_length("-3"), None);
    assert_eq!(minimum_length("four"), None);
    assert_eq!(adjust_minimum_length(4, -1), 3);
    assert_eq!(adjust_minimum_length(1, -5), 1);
    assert_eq!(adjust_minimum_length(usize::MAX, 1), usize::MAX);
}

#[test]
fn strings_filter_and_sort() {
    let results = vec![m(30, "Hello"), m(10, "world"), m(20, "HELLO there")];
    assert_eq!(filtered_indices(&results, "hello"), vec![0, 2]);
    assert_eq!(filtered_indices(&results, ""), vec![0, 1, 2]);
    let all = filtered_indices(&results, "");
    assert_eq!(sorted_indices(&results, all.clone(), None), vec![0, 1, 2]);
    assert_eq!(sorted_indices(&results, all.clone(), Some((0, SortDirection::Ascending))), vec![1, 2, 0]);
    assert_eq!(sorted_indices(&results, all.clone(), Some((0, SortDirection::Descending))), vec![0, 2, 1]);
    assert_eq!(sorted_indices(&results, all, Some((1, SortDirection::Ascending))), vec![0, 1, 2]);
    assert_eq!(string_target(&results, 1), Some((10, 5)));
    assert_eq!(string_target(&results, 3), None);
}

#[test]
fn strings_summaries_and_previews() {
    assert_eq!(result_summary(false, 1), "1 entry found");
    assert_eq!(result_summary(false, 3), "3 entries found");
    assert_eq!(result_summary(true, 10000), "10000+ entries found (showing first 10000 entries)");
    assert_eq!(preview_text("short"), "short");
    let long: String = std::iter::repeat('a').take(300).collect();
    let p = preview_text(&long);
    assert_eq!(p.chars().count(), 257);
    assert!(p.ends_with('\u{2026}'));
}

#[test]
fn search_previews_show_the_match() {
    let data = [0x41u8, 0x00, 0x42, 0x7f, 0x20, 0x43];
    assert_eq!(format_row_previews(Some(&data[..]), 1, 2), ("00 42 7F 20".to_string(), ".B. ".to_string()));
    assert_eq!(format_row_previews(Some(&data[..]), 10, 2), (String::new(), String::new()));
    assert_eq!(format_row_previews(None, 0, 2), (String::new(), String::new()));
}

#[test]
fn utf16_reading_decodes_the_unit() {
    let r = inspector_readings(&[0xAC, 0x20], false);
    assert_eq!(r.utf16, "'\u{20ac}'");
    let r = inspector_readings(&[0x00, 0xD8], false);
    assert_eq!(r.utf16, ".");
}

#[test]
fn list_selection_wraps() {
    assert_eq!(wrap_prev(3, Some(0)), Some(2));
    assert_eq!(wrap_prev(3, None), Some(2));
    assert_eq!(wrap_next(3, Some(2)), Some(0));
    assert_eq!(wrap_next(3, None), Some(0));
    assert_eq!(wrap_next(0, Some(1)), None);
    for p in 0..4 {
        assert_eq!(wrap_prev(4, wrap_next(4, Some(p))), Some(p));
    }
    let visible = vec![5, 2, 9];
    assert_eq!(position_of(&visible, 9), Some(2));
    assert_eq!(position_of(&visible, 7), None);
    assert_eq!(select_current(Some(2), &visible), Some(2));
    assert_eq!(move_in_visible(&visible, Some(9), true), Some((0, 5)));
    let (sel, _) = sync_selection_to_filter(Some(7), &visible);
    assert_eq!(sel, Some(5));
}

fn field(offset: usize, size: usize, children: Vec<FieldNode>) -> FieldNode {
    FieldNode { offset, size, children }
}

#[test]
fn structure_rows_follow_expansion() {
    let mut tree = StructTree::new();
    tree.set_parse_result(Some(vec![
        field(0, 8, vec![field(0, 4, vec![]), field(4, 4, vec![])]),
        field(8, 2, vec![]),
    ]));
    assert_eq!(tree.flattened_fields().len(), 2);
    assert!(tree.toggle_collapse_at(0));
    let rows = tree.flattened_fields();
    assert_eq!(rows.len(), 4);
    assert_eq!(rows[1].depth, 1);
    assert_eq!(rows[2].offset, 4);
    assert_eq!(rows[3].path, vec![1]);
    assert!(!tree.toggle_collapse_at(3));
    let nav = tree.select_item(2, Some(100)).unwrap();
    assert_eq!(nav.offset, 4);
    assert_eq!(tree.selected_index(), Some(2));
    tree.collapse_all();
    assert_eq!(tree.flattened_fields().len(), 2);
    tree.expand_all();
    assert_eq!(tree.flattened_fields().len(), 4);
}

fn entry(name: &str, is_dir: bool) -> DirEntryInfo {
    DirEntryInfo {
        id: format!("/root/{}", name),
        relative: name.to_string(),
        file_name: Some(name.to_string()),
        is_dir,
        is_git: name.ends_with(".git"),
    }
}

#[test]
fn folder_items_put_folders_first() {
    let entries = vec![entry("b.bin", false), entry("src", true), entry(".git", true), entry("a.bin", false)];
    let items = file_items_from(entries, &vec![false, false, false, false]);
    let labels: Vec<&str> = items.iter().map(|i| i.label.as_str()).collect();
    assert_eq!(labels, vec!["src", "a.bin", "b.bin"]);
    assert!(items[0].is_folder && !items[0].is_expanded);
    let entries = vec![entry("b.bin", false), entry("a.bin", false)];
    let items = file_items_from(entries, &vec![true, false]);
    assert_eq!(items.len(), 1);
}

#[test]
fn folder_items_without_ignore_files_keep_every_entry() {
    let ignorer = Ignorer::new("no-such-folder/for-ignore-files");
    let entries = vec![entry("b.bin", false), entry("src", true), entry(".git", true), entry("a.bin", false)];
    let items = build_file_items(&ignorer, entries);
    let labels: Vec<&str> = items.iter().map(|i| i.label.as_str()).collect();
    assert_eq!(labels, vec!["src", "a.bin", "b.bin"]);
    assert_eq!(items[0].children[0].id, "loading");
}

fn file(id: &str, is_folder: bool, children: Vec<FileItem>, is_expanded: bool) -> FileItem {
    FileItem { id: id.to_string(), label: id.to_string(), children, is_folder, is_expanded }
}

#[test]
fn tree_cursor_selection_and_children() {
    let mut items = vec![file("d", true, vec![file("d/x", false, vec![], false)], true), file("y", false, vec![], false)];
    let shown = visible_ids(&items);
    assert_eq!(shown, vec!["d".to_string(), "d/x".to_string(), "y".to_string()]);
    assert_eq!(move_cursor(&shown, Some(&"d/x".to_string()), 1), Some(2));
    assert_eq!(move_cursor(&shown, Some(&"d".to_string()), -1), Some(0));
    assert_eq!(move_cursor(&shown, Some(&"zz".to_string()), 1), Some(0));
    assert!(update_item_children(&mut items, "d", vec![file("d/z", false, vec![], false)]));
    assert_eq!(items[0].children[0].id, "d/z");
    assert!(!update_item_children(&mut items, "nope", vec![]));
    let mut selected = vec!["a".to_string()];
    toggle_selection(&mut selected, "b".to_string());
    toggle_selection(&mut selected, "a".to_string());
    assert_eq!(selected, vec!["b".to_string()]);
    let pair = vec![file("p", false, vec![], false), file("q", false, vec![], false)];
    assert_eq!(compare_pair(&pair), Some(("p".to_string(), "q".to_string())));
    assert!(open_file_event(&pair[0]).is_some());
    assert!(open_file_event(&items[0]).is_none());
    let nested = file("d/x", false, vec![], false);
    match open_file_event(&nested) {
        Some(FileTreeViewEvent::OpenFile(path)) => assert_eq!(path, "d/x"),
        None => panic!("a file opens"),
    }
}

#[test]
fn highlight_panel_texts() {
    assert_eq!(navigate_selection(10, 4), Some((10, 13)));
    assert_eq!(navigate_selection(10, 1), None);
    assert_eq!(size_badge(16), "16 B");
    assert_eq!(clear_prompt_detail(1), "Are you sure you want to clear all 1 highlight and comments? This action cannot be undone.");
    assert_eq!(clear_prompt_detail(2), "Are you sure you want to clear all 2 highlights and comments? This action cannot be undone.");
    assert!(has_comment(" x "));
    assert!(!has_comment("  "));
}

#[test]
fn toggling_a_row_twice_restores_the_rows() {
    let mut tree = StructTree::new();
    tree.set_parse_result(Some(vec![
        field(0, 8, vec![field(0, 4, vec![field(0, 2, vec![])]), field(4, 4, vec![])]),
        field(8, 2, vec![]),
    ]));
    assert!(tree.toggle_collapse_at(0));
    assert!(tree.toggle_collapse_at(1));
    let before: Vec<Vec<usize>> = tree.flattened_fields().iter().map(|r| r.path.clone()).collect();
    assert_eq!(before.len(), 5);
    assert!(tree.toggle_collapse_at(1));
    assert_eq!(tree.flattened_fields().len(), 4);
    assert!(tree.toggle_collapse_at(1));
    let after: Vec<Vec<usize>> = tree.flattened_fields().iter().map(|r| r.path.clone()).collect();
    assert_eq!(before, after);
}

#[test]
fn clicking_an_unselected_item_twice_restores_the_selection() {
    let mut selected = vec!["a".to_string(), "b".to_string()];
    toggle_selection(&mut selected, "c".to_string());
    assert_eq!(selected, vec!["a".to_string(), "b".to_string(), "c".to_string()]);
    toggle_selection(&mut selected, "c".to_string());
    assert_eq!(selected, vec!["a".to_string(), "b".to_string()]);
}
