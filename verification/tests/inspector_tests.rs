use xvw::inspector::{format_hex_values, inspector_header, row_actions, selection_end, CommitOutcome, InspectorEditState, InspectorField, SelectionEnds};
use xvw::readings::inspector_readings;

#[test]
fn test_inspector_field_lengths() {
    assert_eq!(InspectorField::Hex8.byte_len(), 1);
    assert_eq!(InspectorField::Hex16.byte_len(), 2);
    assert_eq!(InspectorField::Hex32.byte_len(), 4);
    assert_eq!(InspectorField::Hex64.byte_len(), 8);

    assert_eq!(InspectorField::Int8.byte_len(), 1);
    assert_eq!(InspectorField::UInt8.byte_len(), 1);
    assert_eq!(InspectorField::Int16.byte_len(), 2);
    assert_eq!(InspectorField::UInt16.byte_len(), 2);
    assert_eq!(InspectorField::Int32.byte_len(), 4);
    assert_eq!(InspectorField::UInt32.byte_len(), 4);
    assert_eq!(InspectorField::Int64.byte_len(), 8);
    assert_eq!(InspectorField::UInt64.byte_len(), 8);

    assert_eq!(InspectorField::Float32.byte_len(), 4);
    assert_eq!(InspectorField::Float64.byte_len(), 8);
}

#[test]
fn test_inspector_int8_parsing_and_overflow() {
    let field = InspectorField::Int8;
    assert_eq!(field.parse_and_serialize("0", false).unwrap(), vec![0]);
    assert_eq!(field.parse_and_serialize("127", false).unwrap(), vec![127]);
    assert_eq!(field.parse_and_serialize("-128", false).unwrap(), vec![0x80]);
    assert_eq!(field.parse_and_serialize("-1", false).unwrap(), vec![0xFF]);

    assert!(field.parse_and_serialize("128", false).is_err());
    assert!(field.parse_and_serialize("255", false).is_err());
    assert!(field.parse_and_serialize("-129", false).is_err());

    assert_eq!(field.parse_and_serialize("0x7F", false).unwrap(), vec![0x7F]);
    assert_eq!(field.parse_and_serialize("0x80", false).unwrap(), vec![0x80]);
    assert_eq!(field.parse_and_serialize("0xFF", false).unwrap(), vec![0xFF]);
    assert!(field.parse_and_serialize("0x100", false).is_err());
}

#[test]
fn test_inspector_uint8_parsing_and_overflow() {
    let field = InspectorField::UInt8;
    assert_eq!(field.parse_and_serialize("0", false).unwrap(), vec![0]);
    assert_eq!(field.parse_and_serialize("255", false).unwrap(), vec![255]);
    assert!(field.parse_and_serialize("256", false).is_err());
    assert!(field.parse_and_serialize("-1", false).is_err());
    assert_eq!(field.parse_and_serialize("0xFF", false).unwrap(), vec![0xFF]);
    assert!(field.parse_and_serialize("0x100", false).is_err());
}

#[test]
fn test_inspector_uint16_parsing_and_endianness() {
    let field = InspectorField::UInt16;
    let le = field.parse_and_serialize("4660", false).unwrap();
    assert_eq!(le, vec![0x34, 0x12]);

    let be = field.parse_and_serialize("4660", true).unwrap();
    assert_eq!(be, vec![0x12, 0x34]);

    let hex_le = field.parse_and_serialize("0x1234", false).unwrap();
    assert_eq!(hex_le, vec![0x34, 0x12]);

    assert!(field.parse_and_serialize("65536", false).is_err());
    assert!(field.parse_and_serialize("-1", false).is_err());
    assert!(field.parse_and_serialize("0x10000", false).is_err());
}

#[test]
fn test_inspector_int16_parsing_and_endianness() {
    let field = InspectorField::Int16;
    let le = field.parse_and_serialize("-32768", false).unwrap();
    assert_eq!(le, vec![0x00, 0x80]);

    let be = field.parse_and_serialize("-32768", true).unwrap();
    assert_eq!(be, vec![0x80, 0x00]);

    assert!(field.parse_and_serialize("32768", false).is_err());
    assert!(field.parse_and_serialize("-32769", false).is_err());
}

#[test]
fn test_inspector_int32_and_uint32() {
    let u32_field = InspectorField::UInt32;
    let val = u32_field.parse_and_serialize("4294967295", false).unwrap();
    assert_eq!(val, vec![0xFF, 0xFF, 0xFF, 0xFF]);
    assert!(u32_field.parse_and_serialize("4294967296", false).is_err());

    let i32_field = InspectorField::Int32;
    let val_neg = i32_field.parse_and_serialize("-1", false).unwrap();
    assert_eq!(val_neg, vec![0xFF, 0xFF, 0xFF, 0xFF]);
    assert!(i32_field.parse_and_serialize("2147483648", false).is_err());
}

#[test]
fn test_inspector_hex_fields() {
    let hex8 = InspectorField::Hex8;
    assert_eq!(hex8.parse_and_serialize("AB", false).unwrap(), vec![0xAB]);
    assert_eq!(hex8.parse_and_serialize("0xAB", false).unwrap(), vec![0xAB]);
    assert!(hex8.parse_and_serialize("100", false).is_err());

    let hex16 = InspectorField::Hex16;
    assert_eq!(hex16.parse_and_serialize("ABCD", false).unwrap(), vec![0xCD, 0xAB]);
    assert_eq!(hex16.parse_and_serialize("0xABCD", true).unwrap(), vec![0xAB, 0xCD]);
    assert!(hex16.parse_and_serialize("10000", false).is_err());
}

#[test]
fn test_inspector_current_input_value() {
    let bytes = [0x34, 0x12, 0x00, 0x00, 0x00, 0x00, 0x00, 0x00];
    assert_eq!(InspectorField::Hex8.current_input_value(&bytes, false), "0x34");
    assert_eq!(InspectorField::UInt8.current_input_value(&bytes, false), "52");
    assert_eq!(InspectorField::Int8.current_input_value(&bytes, false), "52");

    assert_eq!(InspectorField::UInt16.current_input_value(&bytes, false), "4660");
    assert_eq!(InspectorField::Hex16.current_input_value(&bytes, false), "0x1234");

    assert_eq!(InspectorField::UInt16.current_input_value(&bytes, true), "13330");
    assert_eq!(InspectorField::Hex16.current_input_value(&bytes, true), "0x3412");
}

#[test]
fn test_selection_range_clamping() {
    let cursor_offset = 10;
    let total = 15;
    let byte_len = 8;
    let end = selection_end(cursor_offset, byte_len, total);
    assert_eq!(end, 15);

    let byte_len = 2;
    let end = selection_end(cursor_offset, byte_len, total);
    assert_eq!(end, 12);
}

#[test]
fn edited_value_reads_back_as_typed() {
    for (field, text) in [
        (InspectorField::Int8, "-5"),
        (InspectorField::UInt16, "4660"),
        (InspectorField::Int32, "-123456"),
        (InspectorField::UInt64, "18446744073709551615"),
        (InspectorField::Hex32, "0xDEADBEEF"),
    ] {
        for big_endian in [false, true] {
            let bytes = field.parse_and_serialize(text, big_endian).unwrap();
            assert_eq!(field.current_input_value(&bytes, big_endian), text);
        }
    }
}

#[test]
fn refused_texts_give_their_messages() {
    assert!(InspectorField::UInt8.parse_and_serialize("", false).is_err());
    assert!(InspectorField::UInt8.parse_and_serialize("   ", false).is_err());
    assert!(InspectorField::UInt8.parse_and_serialize("12a", false).is_err());
    assert!(InspectorField::Hex8.parse_and_serialize("0xZZ", false).is_err());
    assert_eq!(InspectorField::UInt8.parse_and_serialize(" 42 ", false).unwrap(), vec![42]);
}

#[test]
fn short_reads_give_empty_input() {
    assert_eq!(InspectorField::UInt32.current_input_value(&[1, 2], false), "");
    assert_eq!(InspectorField::Int64.current_input_value(&[0xFF; 8], true), "-1");
    assert_eq!(InspectorField::Hex64.current_input_value(&[0x01, 0, 0, 0, 0, 0, 0, 0], false), "0x0000000000000001");
}

#[test]
fn hex_values_of_the_bytes_at_the_cursor() {
    let (h8, h16, h32, h64) = format_hex_values(&[0x34, 0x12, 0x00, 0x00], false);
    assert_eq!(h8, "0x34");
    assert_eq!(h16, "0x1234");
    assert_eq!(h32, "0x00001234");
    assert_eq!(h64, "--");
    let (h8, _, _, _) = format_hex_values(&[], false);
    assert_eq!(h8, "--");
}

#[test]
fn readings_of_the_bytes_at_the_cursor() {
    let r = inspector_readings(&[0x41, 0x00, 0x00, 0x00, 0x00, 0x00, 0x00, 0x00], false);
    assert_eq!(r.ascii, "'A'");
    assert_eq!(r.uint8, "65");
    assert_eq!(r.int16, "65");
    assert_eq!(r.utf8, "'A'");
    let r = inspector_readings(&[0xE2, 0x82, 0xAC], false);
    assert_eq!(r.utf8, "'\u{20ac}'");
    assert_eq!(r.int8, "-30");
    assert_eq!(r.ascii, ".");
    let r = inspector_readings(&[], false);
    assert_eq!(r.uint8, "--");
}

#[test]
fn row_actions_follow_the_value() {
    let a = row_actions(Some(InspectorField::UInt8), None, "52", false);
    assert!(a.can_copy && a.shows_edit && a.edit_enabled && !a.is_editing && !a.dimmed);
    let a = row_actions(Some(InspectorField::UInt8), Some(InspectorField::UInt8), "52", true);
    assert!(a.is_editing && a.shows_edit && !a.edit_enabled);
    let a = row_actions(Some(InspectorField::UInt8), None, "--", false);
    assert!(!a.can_copy && !a.shows_edit && a.dimmed);
    let a = row_actions(None, None, "-", false);
    assert!(!a.can_copy && !a.shows_edit && !a.dimmed);
}

#[test]
fn editing_cancels_and_commits() {
    let mut st = InspectorEditState::new();
    let sel = SelectionEnds { anchor: 3, active: 5 };
    assert!(st.start_editing(InspectorField::UInt16, 10, true, 100, sel).is_none());
    let start = st.start_editing(InspectorField::UInt16, 10, false, 100, sel).unwrap();
    assert_eq!(start.select_start, 10);
    assert_eq!(start.select_end, 12);
    assert!(start.restore.is_none());
    match st.commit_edit(false, Ok(vec![1, 2])) {
        CommitOutcome::Replace { start, end, bytes, .. } => {
            assert_eq!((start, end), (10, 12));
            assert_eq!(bytes, vec![1, 2]);
        }
        _ => panic!("expected a replacement"),
    }
    assert!(matches!(st.commit_edit(false, Ok(vec![1])), CommitOutcome::NotEditing));
    st.start_editing(InspectorField::UInt8, 4, false, 100, sel).unwrap();
    assert!(matches!(st.commit_edit(false, Err("bad".to_string())), CommitOutcome::Invalid));
    assert_eq!(st.cancel_edit_internal(), Some(sel));
}

#[test]
fn edits_end_when_the_cursor_moves_and_show_text_errors() {
    let mut st = InspectorEditState::new();
    let sel = SelectionEnds { anchor: 0, active: 0 };
    st.start_editing(InspectorField::UInt8, 4, false, 10, sel).unwrap();
    st.on_input_changed(Err("Value cannot be empty".to_string()));
    assert_eq!(st.edit_error.as_deref(), Some("Value cannot be empty"));
    st.on_input_changed(Ok(vec![1]));
    assert_eq!(st.edit_error, None);
    st.on_editor_changed(4, false);
    assert_eq!(st.editing_field, Some(InspectorField::UInt8));
    st.on_editor_changed(5, false);
    assert_eq!(st.editing_field, None);
    assert_eq!(st.original_selection, None);
}

#[test]
fn inspector_header_marks_read_only() {
    assert_eq!(inspector_header(None), "DATA INSPECTOR (READ ONLY)");
    assert_eq!(inspector_header(Some(true)), "DATA INSPECTOR (READ ONLY)");
    assert_eq!(inspector_header(Some(false)), "DATA INSPECTOR");
}

#[test]
fn parse_ignores_surrounding_space_and_byte_order_reverses() {
    let f = InspectorField::UInt16;
    assert_eq!(f.parse_and_serialize("  258\t", false), f.parse_and_serialize("258", false));
    assert_eq!(f.parse_and_serialize(" \n ", true), Err("Value cannot be empty".to_string()));
    let be = f.parse_and_serialize("0x1234", true).unwrap();
    let mut le = f.parse_and_serialize("0x1234", false).unwrap();
    le.reverse();
    assert_eq!(be, le);
    assert_eq!(be, vec![0x12, 0x34]);
    assert_eq!(f.parse_and_serialize("70000", true), f.parse_and_serialize("70000", false));
}
