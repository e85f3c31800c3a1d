//! The texts of the status bar: the cursor's offset, the value under the
//! cursor, the selection, the file size, the format badge and the text
//! encoding.
use vstd::prelude::*;
use crate::byteval::{be_number, lemma_read_two, lemma_read_unsigned_orders, read_unsigned, read_unsigned_exec};
use crate::numtext::{
    bin_padded,
    dec_digits,
    hex_digits,
    hex_min_width,
    hex_padded,
    push_bin_padded,
    push_decimal,
    push_hex,
    push_hex_padded,
    push_hex_min_width,
};
use crate::stringlist::push_str;
use crate::text::string_of;

verus! {

/// The text encoding of the character column.
#[derive(Clone, Copy, Debug, PartialEq, Eq, Structural)]
pub enum TextEncoding {
    Ascii,
    Utf8,
    Utf16Le,
    Utf16Be,
}

/// How many bytes the hex column groups into one value.
#[derive(Clone, Copy, Debug, PartialEq, Eq, Structural)]
pub enum ByteGroupSize {
    One,
    Two,
    Four,
    Eight,
}

impl ByteGroupSize {
    /// The bytes in a group: 1, 2, 4 or 8.
    pub open spec fn spec_byte_count(self) -> usize {
        match self {
            ByteGroupSize::One => 1,
            ByteGroupSize::Two => 2,
            ByteGroupSize::Four => 4,
            ByteGroupSize::Eight => 8,
        }
    }

    /// The bytes in a group.
    pub fn byte_count(&self) -> (r: usize)
        ensures
            r == self.spec_byte_count(),
    {
        match self {
            ByteGroupSize::One => 1,
            ByteGroupSize::Two => 2,
            ByteGroupSize::Four => 4,
            ByteGroupSize::Eight => 8,
        }
    }
}

/// The name of an encoding in the status bar.
pub fn encoding_label(encoding: TextEncoding) -> (r: &'static str)
    ensures
        encoding == TextEncoding::Ascii ==> r@ == "ASCII"@,
        encoding == TextEncoding::Utf8 ==> r@ == "UTF-8"@,
        encoding == TextEncoding::Utf16Le ==> r@ == "UTF-16 LE"@,
        encoding == TextEncoding::Utf16Be ==> r@ == "UTF-16 BE"@,
{
    match encoding {
        TextEncoding::Ascii => "ASCII",
        TextEncoding::Utf8 => "UTF-8",
        TextEncoding::Utf16Le => "UTF-16 LE",
        TextEncoding::Utf16Be => "UTF-16 BE",
    }
}

/// The hexadecimal pairs of the bytes, upper case, not separated.
pub open spec fn hex_run(bytes: Seq<u8>) -> Seq<char>
    decreases bytes.len(),
{
    if bytes.len() == 0 {
        Seq::empty()
    } else {
        hex_run(bytes.drop_last()) + hex_padded(bytes.last() as nat, 2)
    }
}

/// `Val: 0x` and the value of `w` hexadecimal digits, then its decimal
/// value in brackets.
pub open spec fn value_text(v: nat, width: nat) -> Seq<char> {
    "Val: 0x"@ + hex_padded(v, width) + " ("@ + dec_digits(v) + ")"@
}

/// The text that shows the value under the cursor, read from the bytes of
/// the cursor's group (`bytes`, those the file has of it): none for no
/// bytes. One byte shows in hexadecimal, decimal (with the character, when
/// printable) and binary; a whole group of 2, 4 or 8 bytes shows its value
/// in the chosen byte order; a partial group of 2 shows its first byte,
/// one of 4 or 8 its bytes in hexadecimal.
pub open spec fn byte_info(bytes: Seq<u8>, group: ByteGroupSize, big_endian: bool) -> Option<Seq<char>> {
    if bytes.len() == 0 {
        None
    } else {
        Some(
            match group {
                ByteGroupSize::One => {
                    let b = bytes[0];
                    let ascii = if 0x20 <= b <= 0x7e {
                        ", '"@ + seq![b as char] + "'"@
                    } else {
                        Seq::empty()
                    };
                    "Val: 0x"@ + hex_padded(b as nat, 2) + " ("@ + dec_digits(b as nat) + ascii + ", 0b"@
                        + bin_padded(b as nat, 8) + ")"@
                },
                ByteGroupSize::Two => if bytes.len() == 2 {
                    value_text(read_unsigned(bytes, big_endian), 4)
                } else {
                    value_text(bytes[0] as nat, 2)
                },
                ByteGroupSize::Four => if bytes.len() == 4 {
                    value_text(read_unsigned(bytes, big_endian), 8)
                } else {
                    "Val: 0x"@ + hex_run(bytes)
                },
                ByteGroupSize::Eight => if bytes.len() == 8 {
                    value_text(read_unsigned(bytes, big_endian), 16)
                } else {
                    "Val: 0x"@ + hex_run(bytes)
                },
            },
        )
    }
}

/// Appends the hexadecimal pairs of the bytes.
fn push_hex_run(out: &mut Vec<char>, bytes: &[u8])
    ensures
        final(out)@ == old(out)@ + hex_run(bytes@),
{
    let ghost start = out@;
    let mut i: usize = 0;
    while i < bytes.len()
        invariant
            i <= bytes@.len(),
            out@ == start + hex_run(bytes@.subrange(0, i as int)),
        decreases bytes@.len() - i,
    {
        proof {
            assert(bytes@.subrange(0, i + 1).drop_last() =~= bytes@.subrange(0, i as int));
            assert(bytes@.subrange(0, i + 1).last() == bytes@[i as int]);
        }
        push_hex_padded(out, bytes[i] as u128, 2);
        proof {
            assert(out@ =~= start + hex_run(bytes@.subrange(0, i + 1)));
        }
        i = i + 1;
    }
    assert(bytes@.subrange(0, i as int) =~= bytes@);
}

/// Appends the text of a value.
fn push_value_text(out: &mut Vec<char>, v: u64, width: usize)
    ensures
        final(out)@ == old(out)@ + value_text(v as nat, width as nat),
{
    let ghost start = out@;
    push_str(out, "Val: 0x");
    push_hex_padded(out, v as u128, width);
    push_str(out, " (");
    push_decimal(out, v as u128);
    push_str(out, ")");
    assert(out@ =~= start + value_text(v as nat, width as nat));
}

/// The text that shows the value under the cursor (see `byte_info`).
pub fn current_byte_info(bytes: &[u8], group: ByteGroupSize, big_endian: bool) -> (r: Option<String>)
    requires
        bytes@.len() <= group.spec_byte_count(),
    ensures
        match r {
            Some(s) => byte_info(bytes@, group, big_endian) == Some(s@),
            None => byte_info(bytes@, group, big_endian) is None,
        },
        bytes@.len() == group.spec_byte_count() && bytes@.len() >= 2 ==> (r matches Some(s) && s@ == value_text(
            if big_endian {
                be_number(bytes@)
            } else {
                be_number(bytes@.reverse())
            },
            2 * bytes@.len(),
        )),
{
    proof {
        if bytes@.len() == group.spec_byte_count() && bytes@.len() >= 2 {
            lemma_group_value_in_byte_order(bytes@, group, big_endian);
        }
    }
    if bytes.len() == 0 {
        return None;
    }
    let mut out: Vec<char> = Vec::new();
    match group {
        ByteGroupSize::One => {
            let b = bytes[0];
            push_str(&mut out, "Val: 0x");
            push_hex_padded(&mut out, b as u128, 2);
            push_str(&mut out, " (");
            push_decimal(&mut out, b as u128);
            if b >= 0x20 && b <= 0x7e {
                push_str(&mut out, ", '");
                out.push(b as char);
                push_str(&mut out, "'");
            }
            push_str(&mut out, ", 0b");
            push_bin_padded(&mut out, b as u128, 8);
            push_str(&mut out, ")");
            proof {
                let ascii = if 0x20 <= b <= 0x7e {
                    ", '"@ + seq![b as char] + "'"@
                } else {
                    Seq::<char>::empty()
                };
                assert(out@ =~= "Val: 0x"@ + hex_padded(b as nat, 2) + " ("@ + dec_digits(b as nat) + ascii
                    + ", 0b"@ + bin_padded(b as nat, 8) + ")"@);
            }
        },
        ByteGroupSize::Two => {
            if bytes.len() == 2 {
                let v = read_unsigned_exec(bytes, 2, big_endian);
                proof {
                    assert(bytes@.subrange(0, 2) =~= bytes@);
                }
                push_value_text(&mut out, v, 4);
            } else {
                push_value_text(&mut out, bytes[0] as u64, 2);
            }
        },
        ByteGroupSize::Four => {
            if bytes.len() == 4 {
                let v = read_unsigned_exec(bytes, 4, big_endian);
                proof {
                    assert(bytes@.subrange(0, 4) =~= bytes@);
                }
                push_value_text(&mut out, v, 8);
            } else {
                push_str(&mut out, "Val: 0x");
                push_hex_run(&mut out, bytes);
            }
        },
        ByteGroupSize::Eight => {
            if bytes.len() == 8 {
                let v = read_unsigned_exec(bytes, 8, big_endian);
                proof {
                    assert(bytes@.subrange(0, 8) =~= bytes@);
                }
                push_value_text(&mut out, v, 16);
            } else {
                push_str(&mut out, "Val: 0x");
                push_hex_run(&mut out, bytes);
            }
        },
    }
    Some(string_of(&out))
}

/// The text of a selection of the bytes `start..end`: its first and last
/// offsets in at least eight hexadecimal digits and its length.
pub fn selection_info(start: usize, end: usize) -> (r: String)
    ensures
        r@ == "Sel: 0x"@ + hex_min_width(start as nat, 8) + "..0x"@ + hex_min_width(
            (if end > 0 {
                end - 1
            } else {
                0
            }) as nat,
            8,
        ) + " ("@ + dec_digits((if end > start {
            end - start
        } else {
            0
        }) as nat) + " B)"@,
{
    let end_inclusive = end.saturating_sub(1);
    let len = end.saturating_sub(start);
    let mut out: Vec<char> = Vec::new();
    push_str(&mut out, "Sel: 0x");
    push_hex_min_width(&mut out, start as u128, 8);
    push_str(&mut out, "..0x");
    push_hex_min_width(&mut out, end_inclusive as u128, 8);
    push_str(&mut out, " (");
    push_decimal(&mut out, len as u128);
    push_str(&mut out, " B)");
    string_of(&out)
}

/// The text of the cursor's offset: at least eight hexadecimal digits,
/// and decimal.
pub fn offset_info(cursor_offset: usize) -> (r: String)
    ensures
        r@ == "Offset: 0x"@ + hex_min_width(cursor_offset as nat, 8) + " ("@ + dec_digits(cursor_offset as nat)
            + ")"@,
{
    let mut out: Vec<char> = Vec::new();
    push_str(&mut out, "Offset: 0x");
    push_hex_min_width(&mut out, cursor_offset as u128, 8);
    push_str(&mut out, " (");
    push_decimal(&mut out, cursor_offset as u128);
    push_str(&mut out, ")");
    string_of(&out)
}

/// The text of the file's size, in decimal and hexadecimal.
pub fn size_info(total_size: usize) -> (r: String)
    ensures
        r@ == "Size: "@ + dec_digits(total_size as nat) + " B (0x"@ + hex_digits(total_size as nat) + ")"@,
{
    let mut out: Vec<char> = Vec::new();
    push_str(&mut out, "Size: ");
    push_decimal(&mut out, total_size as u128);
    push_str(&mut out, " B (0x");
    push_hex(&mut out, total_size as u128);
    push_str(&mut out, ")");
    string_of(&out)
}

/// The badge of the number format: the radix, the group size and, for
/// groups of several bytes, the byte order.
pub fn format_badge(radix_label: &str, group_label: &str, group_bytes: usize, big_endian: bool) -> (r: String)
    ensures
        r@ == radix_label@ + " "@ + group_label@ + (if group_bytes > 1 {
            if big_endian {
                " BE"@
            } else {
                " LE"@
            }
        } else {
            Seq::<char>::empty()
        }),
{
    let mut out: Vec<char> = Vec::new();
    push_str(&mut out, radix_label);
    push_str(&mut out, " ");
    push_str(&mut out, group_label);
    if group_bytes > 1 {
        if big_endian {
            push_str(&mut out, " BE");
        } else {
            push_str(&mut out, " LE");
        }
    } else {
        assert(out@ =~= out@ + Seq::<char>::empty());
    }
    string_of(&out)
}

/// The count of parse errors: "1 error", or the number and "errors".
pub fn error_count_text(err_count: usize) -> (r: String)
    ensures
        err_count == 1 ==> r@ == "1 error"@,
        err_count != 1 ==> r@ == dec_digits(err_count as nat) + " errors"@,
{
    let mut out: Vec<char> = Vec::new();
    if err_count == 1 {
        push_str(&mut out, "1 error");
        assert(out@ =~= "1 error"@);
    } else {
        push_decimal(&mut out, err_count as u128);
        push_str(&mut out, " errors");
    }
    string_of(&out)
}

/// The text naming the structure definition in use.
pub fn struct_text(definition_id: &str) -> (r: String)
    ensures
        r@ == "Struct: "@ + definition_id@,
{
    let mut out: Vec<char> = Vec::new();
    push_str(&mut out, "Struct: ");
    push_str(&mut out, definition_id);
    string_of(&out)
}

/// The size a running parse goes through: the size it was given, or the
/// file's when it was given none.
pub fn parse_total(parse_total_size: usize, total_size: usize) -> (r: usize)
    ensures
        r == if parse_total_size > 0 {
            parse_total_size
        } else {
            total_size
        },
{
    if parse_total_size > 0 {
        parse_total_size
    } else {
        total_size
    }
}

/// A whole group of 2, 4 or 8 bytes shows the number its bytes spell in the
/// editor's byte order: most significant first when big-endian, least
/// significant first otherwise, in twice as many hexadecimal digits as it
/// has bytes. For two bytes `b0 b1` that is `256 * b0 + b1` big-endian and
/// `256 * b1 + b0` little-endian.
pub proof fn lemma_group_value_in_byte_order(bytes: Seq<u8>, group: ByteGroupSize, big_endian: bool)
    requires
        bytes.len() == group.spec_byte_count(),
        bytes.len() >= 2,
    ensures
        byte_info(bytes, group, big_endian) == Some(
            value_text(
                if big_endian {
                    be_number(bytes)
                } else {
                    be_number(bytes.reverse())
                },
                2 * bytes.len(),
            ),
        ),
        bytes.len() == 2 ==> byte_info(bytes, group, big_endian) == Some(
            value_text(
                (if big_endian {
                    256 * bytes[0] + bytes[1]
                } else {
                    256 * bytes[1] + bytes[0]
                }) as nat,
                4,
            ),
        ),
{
    lemma_read_unsigned_orders(bytes);
    if bytes.len() == 2 {
        lemma_read_two(bytes);
    }
}

} // verus!
