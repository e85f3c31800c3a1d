use xvw::hexview::{
    break_to_add, break_to_remove_backward, break_to_remove_forward, bounded_auto_fit_range, build_ascii_char_map, build_hex_text_source, check_character_mapping_and_auto_fit, copy_span,
    format_offset_08, hex_group_spans, utf8_cells, AUTO_FIT_SCAN_BYTES,
};
use xvw::highlight::{highlight_color_for_range, max_highlight_len, row_highlights, sort_highlights, HighlightIndex};
use xvw::rowcells::{
    ascii_cell_visuals, ascii_glyph_dimmed, comment_shows_on_row, cursor_group, group_visuals, header_label,
    items_in_row, line_index,
};
use xvw::scroll::{
    ascii_hit_offset, bottom_aligned_top, clamp_scroll_row, hit_offset_in_row, page_step, reveal_cursor_row,
    row_at_point, row_span, scroll_by_rows, scroll_row_limit, viewport_byte_range,
};

fn utf8_map(buffer: &[u8], row_offset: usize, row_len: usize) -> Vec<Option<(char, usize)>> {
    let cells = utf8_cells(buffer, row_offset, row_len);
    build_ascii_char_map(&cells, true, row_len)
}

#[test]
fn utf8_character_crossing_row_is_shown_at_previous_row_end() {
    let buffer = "€".as_bytes();
    let map = utf8_map(buffer, 0, 2);

    assert_eq!(map, vec![None, Some(('€', 3))]);
}

#[test]
fn utf8_continuation_bytes_on_next_row_are_not_rendered_again() {
    let buffer = "€".as_bytes();
    let map = utf8_map(buffer, 1, 2);

    assert_eq!(map, vec![None, None]);
}

#[test]
fn auto_fit_scan_is_bounded_around_the_viewport() {
    let range = bounded_auto_fit_range(1024 * 1024, 500_000, 500_512);

    assert_eq!(range.len(), AUTO_FIT_SCAN_BYTES);
    assert!(range.start <= 500_000);
    assert!(range.end >= 500_512);
}

#[test]
fn auto_fit_scan_stays_inside_small_files_and_end_of_file() {
    assert_eq!(bounded_auto_fit_range(1024, 100, 200), 0..1024);

    let range = bounded_auto_fit_range(1024 * 1024, 1_020_000, 1_020_512);
    assert_eq!(range.end, 1024 * 1024);
    assert!(range.start <= 1_020_000);
    assert_eq!(range.len(), AUTO_FIT_SCAN_BYTES);
}

#[test]
fn character_mapping_and_auto_fit_hold() {
    assert!(check_character_mapping_and_auto_fit());
}

#[test]
fn group_boundaries_use_the_same_fixed_grid_as_the_header() {
    let spans = hex_group_spans(3, 0, 1);
    // The texts of bytes 0x12, 0x34, 0x56 in hex, one byte per group; the
    // group formatter belongs to the editor core, which this library does
    // not hold, so the layout is tested from its output.
    let texts = vec!["12".to_string(), "34".to_string(), "56".to_string()];
    let source = build_hex_text_source(&spans, &texts);
    let cell_width = 8.0f32;

    assert_eq!(source.text, "12 34 56");
    assert_eq!(source.groups[0].text_start as f32 * cell_width, 0.0);
    assert_eq!(source.groups[1].text_start as f32 * cell_width, 24.0);
    assert_eq!(source.groups[2].text_start as f32 * cell_width, 48.0);
    assert_eq!(source.text.len() as f32 * cell_width, 64.0);
}

#[test]
fn group_grid_keeps_partial_group_slots_aligned() {
    let spans = hex_group_spans(1, 1, 4);
    assert_eq!(spans.len(), 1);
    assert_eq!(spans[0].start_slot, 1);
    // The text of byte 0x12 at slot 1 of a four-byte group in hex.
    let texts = vec!["..12....".to_string()];
    let source = build_hex_text_source(&spans, &texts);
    let cell_width = 8.0f32;

    assert_eq!(source.text, "..12....");
    assert_eq!(source.groups[0].text_start as f32 * cell_width, 0.0);
    assert_eq!(source.groups[0].text_end as f32 * cell_width, 64.0);
    assert_eq!(source.text.len() as f32 * cell_width, 64.0);
}

#[test]
fn selection_takes_precedence_over_an_overlapping_highlight() {
    let highlight_color = (0.1f32, 0.8f32, 0.5f32, 0.35f32);
    let highlights = [(0..16, highlight_color)];

    assert_eq!(highlight_color_for_range(4, 8, true, &highlights), None);
    assert_eq!(highlight_color_for_range(4, 8, false, &highlights), Some(highlight_color));
}

#[test]
fn shortest_covering_highlight_wins() {
    let highlights = [(0..16, 1u32), (4..6, 2u32), (5..9, 3u32), (20..30, 4u32)];
    assert_eq!(highlight_color_for_range(4, 5, false, &highlights), Some(2));
    assert_eq!(highlight_color_for_range(5, 6, false, &highlights), Some(2));
    assert_eq!(highlight_color_for_range(7, 8, false, &highlights), Some(3));
    assert_eq!(highlight_color_for_range(16, 20, false, &highlights), None);
}

#[test]
fn highlights_of_a_row_are_found_after_sorting() {
    let sorted = sort_highlights(vec![(40..48, 'c'), (0..4, 'a'), (10..30, 'b'), (10..12, 'd')]);
    let starts: Vec<usize> = sorted.iter().map(|h| h.0.start).collect();
    assert_eq!(starts, vec![0, 10, 10, 40]);
    assert_eq!(sorted[1].1, 'b');
    assert_eq!(max_highlight_len(&sorted), 20);
    let row = row_highlights(&sorted, 20, 16, 32);
    let colors: Vec<char> = row.iter().map(|h| h.1).collect();
    assert_eq!(colors, vec!['a', 'b', 'd']);
    let index = HighlightIndex::set_highlights(vec![(40..48, 'c'), (0..4, 'a'), (10..30, 'b')]);
    assert_eq!(index.max_len(), 20);
    let colors: Vec<char> = index.for_row(16, 32).iter().map(|h| h.1).collect();
    assert!(colors.contains(&'b'));
    assert!(!colors.contains(&'c'));
}

#[test]
fn offsets_are_eight_lower_case_digits() {
    assert_eq!(format_offset_08(0), "00000000");
    assert_eq!(format_offset_08(0xabc), "00000abc");
    assert_eq!(format_offset_08(0x1_2345_6789), "23456789");
}

#[test]
fn groups_of_a_row_end_at_aligned_offsets() {
    let spans = hex_group_spans(10, 6, 4);
    let bounds: Vec<(usize, usize, usize)> = spans.iter().map(|s| (s.chunk_start, s.chunk_end, s.start_slot)).collect();
    assert_eq!(bounds, vec![(0, 2, 2), (2, 6, 0), (6, 10, 0)]);
}

#[test]
fn group_visuals_mark_cursor_zero_selection_and_highlight() {
    let spans = hex_group_spans(8, 16, 2);
    let texts: Vec<String> = spans.iter().map(|_| "xxxx".to_string()).collect();
    let source = build_hex_text_source(&spans, &texts);
    let chunk = [0u8, 0, 1, 2, 0, 0, 3, 4];
    let highlights = [(22..24, 7u8)];
    let v = group_visuals(16, &chunk, &source.groups, 19, 20, 21, &highlights);
    assert_eq!(v.len(), 4);
    assert!(v[0].is_zero && !v[0].is_cursor && !v[0].is_selected);
    assert!(v[1].is_cursor && !v[1].is_zero);
    assert!(v[2].is_selected && v[2].is_zero && v[2].highlight.is_none());
    assert_eq!(v[3].highlight, Some(7));
    let none_selected = group_visuals(16, &chunk, &source.groups, 0, 5, 4, &highlights);
    assert!(none_selected.iter().all(|g| !g.is_selected));
}

#[test]
fn ascii_cells_follow_their_groups() {
    let highlights = [(3..4, 9u8)];
    let cells = ascii_cell_visuals(0, 6, 4, 1, 1, &highlights);
    let selected: Vec<bool> = cells.iter().map(|c| c.is_selected).collect();
    assert_eq!(selected, vec![true, true, true, true, false, false]);
    assert_eq!(cells[3].highlight, None);
    let cells = ascii_cell_visuals(0, 6, 4, 5, 4, &highlights);
    assert_eq!(cells[3].highlight, Some(9));
    assert_eq!(cells[2].highlight, None);
}

#[test]
fn control_glyphs_are_dimmed() {
    assert!(ascii_glyph_dimmed('\u{1}'));
    assert!(ascii_glyph_dimmed('\u{7f}'));
    assert!(ascii_glyph_dimmed('\u{b7}'));
    assert!(!ascii_glyph_dimmed('A'));
    assert!(!ascii_glyph_dimmed(' '));
}

#[test]
fn line_index_finds_the_row_of_an_offset() {
    let starts = [0usize, 16, 32, 40];
    assert_eq!(line_index(&starts, 0), 0);
    assert_eq!(line_index(&starts, 15), 0);
    assert_eq!(line_index(&starts, 16), 1);
    assert_eq!(line_index(&starts, 39), 2);
    assert_eq!(line_index(&starts, 1000), 3);
    assert_eq!(line_index(&[], 5), 0);
}

#[test]
fn comments_show_on_the_first_visible_row_of_their_highlight() {
    let starts = [0usize, 16, 32, 48];
    assert!(comment_shows_on_row(&starts, "note", 20, 4, 0, 1));
    assert!(!comment_shows_on_row(&starts, "note", 20, 4, 0, 2));
    assert!(!comment_shows_on_row(&starts, "   ", 20, 4, 0, 1));
    assert!(comment_shows_on_row(&starts, "long", 0, 40, 2, 2));
    assert!(!comment_shows_on_row(&starts, "long", 0, 40, 3, 3));
}

#[test]
fn header_columns_and_labels() {
    assert_eq!(items_in_row(16, 4), 4);
    assert_eq!(items_in_row(17, 4), 5);
    assert_eq!(items_in_row(0, 8), 1);
    assert_eq!(header_label(0), "+0");
    assert_eq!(header_label(12), "+C");
    assert_eq!(header_label(0x1f), "+1F");
}

#[test]
fn cursor_group_is_the_first_holding_the_cursor() {
    let spans = hex_group_spans(8, 0, 4);
    let texts: Vec<String> = spans.iter().map(|_| "x".to_string()).collect();
    let source = build_hex_text_source(&spans, &texts);
    assert_eq!(cursor_group(&source.groups, 5), Some(1));
    assert_eq!(cursor_group(&source.groups, 9), None);
}

#[test]
fn scrolling_keeps_rows_in_range() {
    assert_eq!(scroll_row_limit(100, 30), 70);
    assert_eq!(scroll_row_limit(10, 30), 0);
    assert_eq!(clamp_scroll_row(90, 100, 30), 70);
    assert_eq!(clamp_scroll_row(5, 100, 30), 5);
    assert_eq!(bottom_aligned_top(50, 30), 21);
    assert_eq!(bottom_aligned_top(5, 30), 0);
    assert_eq!(scroll_by_rows(10, -20, 70), 0);
    assert_eq!(scroll_by_rows(60, 20, 70), 70);
    assert_eq!(scroll_by_rows(10, 3, 70), 13);
    assert_eq!(page_step(30), 28);
    assert_eq!(page_step(2), 1);
}

#[test]
fn revealing_the_cursor_scrolls_only_when_needed() {
    assert_eq!(reveal_cursor_row(39, 10, 30, 100, 30), 10);
    assert_eq!(reveal_cursor_row(40, 10, 30, 100, 30), 11);
    assert_eq!(reveal_cursor_row(5, 10, 30, 100, 30), 5);
    assert_eq!(reveal_cursor_row(60, 10, 30, 100, 30), 31);
}

#[test]
fn viewport_and_hits() {
    let starts = [0usize, 16, 32, 48, 64];
    assert_eq!(viewport_byte_range(&starts, 1, 1, 80), (16, 64));
    assert_eq!(viewport_byte_range(&starts, 1, 5, 80), (16, 80));
    assert_eq!(row_at_point(2, 10, 5), 4);
    assert_eq!(row_span(&starts, 4, 70), (64, 6));
    assert_eq!(row_span(&starts, 1, 70), (16, 16));
    assert_eq!(ascii_hit_offset(16, 6, 4), 4);
    assert_eq!(ascii_hit_offset(18, 1, 4), 0);
    assert_eq!(hit_offset_in_row(16, 40, 16), 31);
    assert_eq!(hit_offset_in_row(16, 3, 16), 19);
}

#[test]
fn copies_take_the_selection_or_the_cursor_byte() {
    assert_eq!(copy_span(0, Some(0..4), 0), None);
    assert_eq!(copy_span(100, Some(10..20), 5), Some((10, 10)));
    assert_eq!(copy_span(100, None, 5), Some((5, 1)));
    assert_eq!(copy_span(100, None, 500), Some((99, 1)));
}

#[test]
fn custom_breaks_never_at_start() {
    assert_eq!(break_to_add(0), None);
    assert_eq!(break_to_add(16), Some(16));
    let breaks = vec![4usize, 16];
    assert_eq!(break_to_remove_backward(5, &breaks), Some(4));
    assert_eq!(break_to_remove_backward(4, &breaks), None);
    assert_eq!(break_to_remove_backward(0, &breaks), None);
    assert_eq!(break_to_remove_forward(16, &breaks), Some(16));
    assert_eq!(break_to_remove_forward(17, &breaks), None);
}
