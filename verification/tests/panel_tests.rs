use xvw::bars::{panel_title, position_preview, query_is_blank, tab_entry, tab_title, target_preview, TabKind};
use xvw::checksumview::{
    calculate_enabled, file_size_text, idle_reason, range_description, CalculationRange, ChecksumPanelState,
    ChecksumResults, EditorView, IdleReason,
};
use xvw::menubar::AppMenuBar;
use xvw::numtext::offset_label;
use xvw::pane::{DropPlacement, PaneNode, PaneTree, SplitDirection, TabDrag};
use xvw::searchlist::{no_matches_detail, search_badge, search_body, SearchBody, SearchJump, SearchPanelState, SearchStart, MAX_SEARCH_RESULTS};
use xvw::statustext::{offset_info, selection_info, size_info};
use xvw::stringlist::{strings_body, SortDirection, StringMatch, StringsBody};
use xvw::stringscan::{ScanSignature, StringsPanelState};
use xvw::statustext::TextEncoding;
use xvw::unixtime::format_unix_time;

#[test]
fn unix_times_read_as_calendar_dates() {
    assert_eq!(format_unix_time(0), "1970-01-01 00:00:00 UTC");
    assert_eq!(format_unix_time(951_782_400), "2000-02-29 00:00:00 UTC");
    assert_eq!(format_unix_time(1_700_000_000), "2023-11-14 22:13:20 UTC");
    assert_eq!(format_unix_time(-1), "Out of range");
    assert_eq!(format_unix_time(253_402_300_800), "Out of range");
}

#[test]
fn status_texts() {
    assert_eq!(offset_info(0x1234), "Offset: 0x00001234 (4660)");
    assert_eq!(selection_info(16, 32), "Sel: 0x00000010..0x0000001F (16 B)");
    assert_eq!(size_info(255), "Size: 255 B (0xFF)");
    assert_eq!(offset_label(0xABC), "0x00000ABC");
    assert_eq!(offset_label(0x1_0000_0000), "0x100000000");
}

#[test]
fn checksum_texts() {
    assert_eq!(range_description(&(16..32)), "Range: 0x00000010 - 0x0000001F (16 bytes)");
    assert_eq!(range_description(&(5..5)), "No selection (0 bytes)");
    assert_eq!(file_size_text(1024), "File Size: 1024 bytes");
    assert!(calculate_enabled(true, 4, false));
    assert!(!calculate_enabled(true, 0, false));
    assert!(!calculate_enabled(true, 4, true));
    assert_eq!(idle_reason(false, 4, true), IdleReason::NoFile);
    assert_eq!(idle_reason(true, 0, true), IdleReason::EmptySelection);
    assert_eq!(idle_reason(true, 2_000_000, true), IdleReason::TooLarge);
    assert_eq!(idle_reason(true, 2_000_000, false), IdleReason::Ready);
}

fn view(selected: Option<std::ops::Range<usize>>, cursor: usize, total: usize) -> Option<EditorView> {
    Some(EditorView { selected, cursor_offset: cursor, total_len: total })
}

fn results(range_start: usize, range_end: usize) -> ChecksumResults {
    ChecksumResults {
        sum8: 1,
        sum16: 2,
        sum32: 3,
        sum64: 4,
        crc16_ccitt: 5,
        crc16_arc: 6,
        crc32: 7,
        adler32: 8,
        md5: [0; 16],
        sha256: [0; 32],
        data_len: range_end - range_start,
        range_start,
        range_end,
    }
}

#[test]
fn checksum_panel_starts_and_skips_calculations() {
    let mut st = ChecksumPanelState::new();
    st.set_editor(true);
    assert_eq!(st.trigger_calculation(view(Some(2..6), 0, 100)), Some(2..6));
    assert!(st.is_calculating);
    assert!(!st.finish_calculation(results(0, 4)));
    assert!(st.results.is_none() && st.is_calculating);
    assert!(st.finish_calculation(results(2, 6)));
    assert!(st.results.is_some() && !st.is_calculating);
    assert!(!st.finish_calculation(results(2, 6)));
    assert_eq!(st.trigger_calculation(view(None, 7, 100)), None);
    assert!(st.results.is_none() && !st.is_calculating);
    assert_eq!(st.select_range(CalculationRange::EntireFile, view(None, 7, 100)), Some(0..100));
    assert_eq!(st.select_range(CalculationRange::EntireFile, view(None, 7, 100)), None);
    assert_eq!(st.trigger_calculation(view(None, 0, 2_000_000)), None);
    assert_eq!(st.toggle_auto(view(None, 0, 2_000_000)), None);
    assert!(!st.auto_calculate);
    assert_eq!(st.trigger_calculation(view(None, 0, 2_000_000)), Some(0..2_000_000));
    assert_eq!(st.on_editor_changed(view(None, 0, 10)), None);
    assert_eq!(st.trigger_calculation(None), None);
}

#[test]
fn search_panel_runs_and_walks_results() {
    let mut st = SearchPanelState::new();
    assert_eq!(st.trigger_search("ab", 2), SearchStart::Ignored);
    st.set_editor(true);
    assert_eq!(st.trigger_search("   ", 2), SearchStart::Cleared);
    assert_eq!(st.trigger_search("AB CD", 0), SearchStart::Ignored);
    assert_eq!(st.trigger_search("AB CD", 2), SearchStart::Started);
    assert!(st.is_searching);
    assert_eq!(search_badge(st.is_searching, st.is_truncated, &st.last_query, 0).unwrap(), "Scanning...");
    st.finish_search(vec![4, 10, 30]);
    assert_eq!(st.selected_index, Some(0));
    assert!(!st.is_truncated);
    assert_eq!(search_badge(false, false, &st.last_query, st.results.len()).unwrap(), "3 matches");
    assert_eq!(st.move_down(), Some(SearchJump::Select { start: 10, end: 12 }));
    assert_eq!(st.move_down(), Some(SearchJump::Select { start: 30, end: 32 }));
    assert_eq!(st.move_down(), Some(SearchJump::Select { start: 4, end: 6 }));
    assert_eq!(st.move_up(), Some(SearchJump::Select { start: 30, end: 32 }));
    assert_eq!(st.select_item(7), None);
    assert_eq!(st.selected_index, Some(2));
    st.clear_results();
    assert!(st.results.is_empty() && st.last_query.is_empty());
    assert_eq!(search_badge(false, false, "", 0), None);
}

#[test]
fn search_results_are_capped() {
    let mut st = SearchPanelState::new();
    st.set_editor(true);
    st.trigger_search("00", 1);
    st.finish_search((0..MAX_SEARCH_RESULTS + 1).collect());
    assert!(st.is_truncated);
    assert_eq!(st.results.len(), MAX_SEARCH_RESULTS);
    assert_eq!(search_badge(false, true, "00", st.results.len()).unwrap(), "10000+ matches");
}

#[test]
fn search_and_strings_bodies() {
    assert_eq!(search_body(false, false, true, ""), SearchBody::NoFile);
    assert_eq!(search_body(true, true, true, "x"), SearchBody::Scanning);
    assert_eq!(search_body(true, false, true, "x"), SearchBody::NoMatches);
    assert_eq!(search_body(true, false, true, ""), SearchBody::Prompt);
    assert_eq!(search_body(true, false, false, "x"), SearchBody::Results);
    assert_eq!(no_matches_detail("DE AD"), "No occurrences found for 'DE AD'");
    assert_eq!(strings_body(true, false, false, false, true, true), StringsBody::InvalidMinimum);
    assert_eq!(strings_body(true, true, false, true, false, true), StringsBody::NoMatches);
    assert_eq!(strings_body(true, true, false, false, true, true), StringsBody::NotScanned);
}

fn sig(content_state: usize) -> Option<ScanSignature> {
    Some(ScanSignature { encoding: TextEncoding::Utf8, content_state, byte_len: 64 })
}

fn found(texts: &[(usize, &str)]) -> Vec<StringMatch> {
    texts.iter().map(|(o, t)| StringMatch { offset: *o, byte_len: t.len(), text: t.to_string() }).collect()
}

#[test]
fn strings_scans_are_taken_only_when_current() {
    let mut st = StringsPanelState::new();
    assert!(!st.set_editor(Some(1), sig(0), Some(4)));
    let req = st.trigger_scan(sig(0), Some(4)).unwrap();
    assert_eq!(req.min_length, 4);
    let stale = req.generation;
    let req = st.trigger_scan(sig(0), Some(4)).unwrap();
    assert!(!st.finish_scan(stale, found(&[(0, "old")]), false, "", None));
    assert!(st.finish_scan(req.generation, found(&[(9, "zeta"), (2, "alpha")]), false, "", Some((0, SortDirection::Ascending))));
    assert_eq!(st.selected_index, Some(1));
    assert!(st.has_scanned);
    assert!(!st.scan_if_content_changed(sig(0)));
    assert!(st.scan_if_content_changed(sig(1)));
    assert!(st.results.is_empty() && !st.has_scanned);
}

#[test]
fn strings_results_come_back_with_their_editor() {
    let mut st = StringsPanelState::new();
    st.set_editor(Some(1), sig(0), Some(4));
    let req = st.trigger_scan(sig(0), Some(4)).unwrap();
    st.finish_scan(req.generation, found(&[(0, "hello")]), false, "", None);
    assert!(!st.set_editor(Some(2), sig(5), Some(4)));
    assert!(st.results.is_empty());
    assert!(st.set_editor(Some(1), sig(0), Some(4)));
    assert_eq!(st.results.len(), 1);
    assert_eq!(st.results[0].text, "hello");
    assert!(st.set_editor(Some(2), sig(5), Some(4)));
    assert!(!st.set_editor(Some(1), sig(3), Some(4)));
    assert!(st.results.is_empty());
}

#[test]
fn pane_tree_splits_and_removes_groups() {
    let mut tree: PaneTree<&str> = PaneTree::new();
    assert!(tree.is_empty());
    let a = tree.create_group();
    let (tab, group) = tree.open_tab(Some((a, "a")));
    assert_eq!((tab, group), (1, a));
    assert_eq!(tree.active_group_id(), Some(a));
    let b = tree.create_group();
    let tab2 = tree.split_group(a, SplitDirection::Horizontal, (b, "b"));
    assert_eq!(tab2, 2);
    assert_eq!(tree.all_groups(), vec![&"a", &"b"]);
    assert_eq!(tree.active_group_id(), Some(b));
    assert_eq!(tree.active_states(), vec![false, true]);
    assert_eq!(tree.find_group(b), Some(&"b"));
    tree.remove_group(b);
    assert_eq!(tree.all_groups(), vec![&"a"]);
    assert_eq!(tree.active_group_id(), Some(a));
    tree.remove_group(a);
    assert!(tree.is_empty());
    assert_eq!(tree.active_group_id(), None);
}

#[test]
fn pane_tree_split_direction_and_ids() {
    let mut tree: PaneTree<&str> = PaneTree::new();
    let a = tree.create_group();
    tree.open_tab(Some((a, "a")));
    let b = tree.create_group();
    tree.split_group(a, SplitDirection::Vertical, (b, "b"));
    match tree.root_node() {
        Some(PaneNode::VSplit { id, top, bottom }) => {
            assert_eq!(*id, 1);
            assert!(matches!(**top, PaneNode::Leaf { id, .. } if id == a));
            assert!(matches!(**bottom, PaneNode::Leaf { id, .. } if id == b));
        }
        _ => panic!("a vertical split puts the new group below"),
    }
    let c = tree.create_group();
    tree.split_group(b, SplitDirection::Horizontal, (c, "c"));
    tree.remove_group(a);
    match tree.root_node() {
        Some(PaneNode::HSplit { id, left, right }) => {
            assert_eq!(*id, 2);
            assert!(matches!(**left, PaneNode::Leaf { id, .. } if id == b));
            assert!(matches!(**right, PaneNode::Leaf { id, .. } if id == c));
        }
        _ => panic!("the surviving split keeps its id and direction"),
    }
}

#[test]
fn pane_tree_drop_splits_or_changes_nothing() {
    let mut tree: PaneTree<&str> = PaneTree::new();
    let a = tree.create_group();
    tree.open_tab(Some((a, "a")));
    let b = tree.create_group();
    tree.split_group(a, SplitDirection::Horizontal, (b, "b"));
    let c = tree.create_group();
    let drag = TabDrag { from_group_id: b, tab_id: 2 };
    tree.split_with_drop(drag, a, DropPlacement::Top, Some((c, "c")), None);
    assert_eq!(tree.all_groups(), vec![&"a", &"b"]);
    assert_eq!(tree.active_group_id(), Some(b));
    let missing = TabDrag { from_group_id: 99, tab_id: 2 };
    tree.split_with_drop(missing, a, DropPlacement::Top, Some((c, "c")), Some(true));
    assert_eq!(tree.all_groups(), vec![&"a", &"b"]);
    tree.split_with_drop(drag, a, DropPlacement::Top, Some((c, "c")), Some(true));
    assert_eq!(tree.all_groups(), vec![&"c", &"a"]);
    assert_eq!(tree.active_group_id(), Some(c));
    match tree.root_node() {
        Some(PaneNode::VSplit { id, top, bottom }) => {
            assert_eq!(*id, 2);
            assert!(matches!(**top, PaneNode::Leaf { id, .. } if id == c));
            assert!(matches!(**bottom, PaneNode::Leaf { id, .. } if id == a));
        }
        _ => panic!("a drop on the top edge puts the new group above"),
    }
    tree.move_tab(TabDrag { from_group_id: c, tab_id: 2 }, 42, true, true);
    assert_eq!(tree.all_groups(), vec![&"c", &"a"]);
    assert_eq!(tree.active_group_id(), Some(c));
    tree.move_tab(TabDrag { from_group_id: c, tab_id: 2 }, a, true, true);
    assert_eq!(tree.all_groups(), vec![&"a"]);
    assert_eq!(tree.active_group_id(), Some(a));
}

#[test]
fn menu_bar_moves_with_wrap() {
    let mut bar = AppMenuBar::new(5);
    assert!(!bar.on_move_left());
    assert!(bar.handle_trigger_click(0));
    assert!(bar.on_move_left());
    assert_eq!(bar.selected_ix, Some(4));
    assert!(bar.on_move_right());
    assert_eq!(bar.selected_ix, Some(0));
    assert!(bar.handle_trigger_click(0));
    assert!(!bar.has_activated_menu());
    assert!(!bar.on_cancel());
}

#[test]
fn tabs_and_go_to_bar() {
    let e = tab_entry(0, 3, true, false);
    assert_eq!(e.one_based_index, 1);
    assert!(e.can_close_others && e.can_close_right && e.shows_dirty_dot);
    let e = tab_entry(2, 3, true, true);
    assert!(!e.can_close_right && !e.shows_dirty_dot);
    assert!(query_is_blank("  \t"));
    assert!(!query_is_blank(" 0x10 "));
    assert_eq!(position_preview(255, 4096), "Pos: 0xFF / Size: 0x1000");
    let (t, w) = target_preview(5000, true, 4096);
    assert_eq!(t, "Target: 0x1388 (5000 dec)");
    assert_eq!(w, " \u{26a0} (max 0xFFF)");
    assert_eq!(panel_title(Some("a.bin".to_string()), true), "a.bin *");
    assert_eq!(panel_title(None, false), "(untitled)");
    assert_eq!(tab_title(TabKind::Editor, None), "Untitled");
    assert_eq!(tab_title(TabKind::VisualMap, None), "Visual Map");
}
