//! The read-only rows of the data inspector: integers, Unix times and the
//! character at the cursor in ASCII, UTF-8 and UTF-16.
use vstd::prelude::*;
use vstd::utf8::{decode_first_scalar, length_of_first_scalar, valid_first_scalar};
use crate::byteval::{
    be_number, lemma_read_two, lemma_read_unsigned_orders, lemma_read_write, read_unsigned, read_unsigned_exec, to_signed,
};
use crate::inspector::InspectorField;
use crate::unixtime::{format_unix_time, is_unix_time_text};
use crate::text::string_of;
use crate::numtext::power;

verus! {

/// `char::is_control`: the characters of category Cc.
pub open spec fn is_control(c: char) -> bool {
    let u = c as u32;
    u <= 0x1F || (0x7F <= u <= 0x9F)
}

/// A character between single quotes.
pub open spec fn quoted(c: char) -> Seq<char> {
    seq!['\'', c, '\'']
}

/// How a decoded character is shown: quoted, or `.` for a control character.
pub open spec fn char_reading(c: char) -> Seq<char> {
    if is_control(c) {
        seq!['.']
    } else {
        quoted(c)
    }
}

/// The text of an integer field, or `--` when there are too few bytes.
pub open spec fn field_reading(field: InspectorField, bytes: Seq<u8>, big_endian: bool) -> Seq<char> {
    if bytes.len() >= field.spec_byte_len() {
        field.spec_input_value(bytes, big_endian)
    } else {
        "--"@
    }
}

/// The first byte as ASCII: quoted when printable (space to `~`), else `.`.
pub open spec fn ascii_reading(bytes: Seq<u8>) -> Seq<char> {
    if bytes.len() == 0 {
        "--"@
    } else if 0x20 <= bytes[0] <= 0x7E {
        quoted(bytes[0] as char)
    } else {
        seq!['.']
    }
}

/// The first UTF-16 unit: its character, or `.` for a surrogate.
pub open spec fn utf16_reading(bytes: Seq<u8>, big_endian: bool) -> Seq<char> {
    if bytes.len() < 2 {
        "--"@
    } else {
        let v = read_unsigned(bytes.subrange(0, 2), big_endian);
        if 0xD800 <= v <= 0xDFFF {
            seq!['.']
        } else {
            char_reading(v as char)
        }
    }
}

/// The character whose UTF-8 encoding starts the bytes, or `.` when they do
/// not start with a well-formed encoding.
pub open spec fn utf8_reading(bytes: Seq<u8>) -> Seq<char> {
    if bytes.len() == 0 {
        "--"@
    } else if valid_first_scalar(bytes) {
        char_reading(decode_first_scalar(bytes) as char)
    } else {
        seq!['.']
    }
}

/// `char::from_u32`: the character whose code is `u`, when `u` is a Unicode
/// scalar value (below 0xD800, or from 0xE000 to 0x10FFFF).
#[verifier::external_body]
fn char_from_u32(u: u32) -> (r: Option<char>)
    ensures
        r is Some <==> (u < 0xD800 || (0xE000 <= u && u <= 0x10FFFF)),
        r matches Some(c) ==> c as u32 == u,
{
    char::from_u32(u)
}

/// Decodes the UTF-8 encoding of one character at `bytes[at..]`: the
/// character and the number of its bytes, or `None` when the bytes there do
/// not start with a well-formed encoding.
pub fn decode_utf8_at(bytes: &[u8], at: usize) -> (r: Option<(char, usize)>)
    requires
        at <= bytes@.len(),
    ensures
        ({
            let s = bytes@.subrange(at as int, bytes@.len() as int);
            &&& (r is Some <==> valid_first_scalar(s))
            &&& (r matches Some(p) ==> p.0 as u32 == decode_first_scalar(s) && p.1
                == length_of_first_scalar(s))
        }),
{
    let ghost s = bytes@.subrange(at as int, bytes@.len() as int);
    let len = bytes.len();
    if at >= len {
        return None;
    }
    let b0 = bytes[at];
    assert(s[0] == b0);
    if b0 <= 0x7f {
        assert(b0 & 0x7f == b0) by (bit_vector)
            requires
                b0 <= 0x7f,
        ;
        return Some((b0 as char, 1));
    }
    if 0xc0 <= b0 && b0 <= 0xdf {
        if len - at <= 1 {
            return None;
        }
        let b1 = bytes[at + 1];
        assert(s[1] == b1);
        if !(0x80 <= b1 && b1 <= 0xbf) {
            return None;
        }
        let cp: u32 = (((b0 & 0x1f) as u32) << 6) | ((b1 & 0x3f) as u32);
        assert(cp <= 0x7ff) by (bit_vector)
            requires
                cp == (((b0 & 0x1f) as u32) << 6) | ((b1 & 0x3f) as u32),
        ;
        if cp < 0x80 {
            return None;
        }
        return match char_from_u32(cp) {
            Some(c) => Some((c, 2)),
            None => None,
        };
    }
    if 0xe0 <= b0 && b0 <= 0xef {
        if len - at <= 2 {
            return None;
        }
        let b1 = bytes[at + 1];
        let b2 = bytes[at + 2];
        assert(s[1] == b1 && s[2] == b2);
        if !(0x80 <= b1 && b1 <= 0xbf && 0x80 <= b2 && b2 <= 0xbf) {
            return None;
        }
        let cp: u32 = (((b0 & 0x0f) as u32) << 12) | (((b1 & 0x3f) as u32) << 6) | ((b2 & 0x3f) as u32);
        assert(cp <= 0xffff) by (bit_vector)
            requires
                cp == (((b0 & 0x0f) as u32) << 12) | (((b1 & 0x3f) as u32) << 6) | ((b2 & 0x3f) as u32),
        ;
        if cp < 0x800 || (0xd800 <= cp && cp <= 0xdfff) {
            return None;
        }
        return match char_from_u32(cp) {
            Some(c) => Some((c, 3)),
            None => None,
        };
    }
    if 0xf0 <= b0 && b0 <= 0xf7 {
        if len - at <= 3 {
            return None;
        }
        let b1 = bytes[at + 1];
        let b2 = bytes[at + 2];
        let b3 = bytes[at + 3];
        assert(s[1] == b1 && s[2] == b2 && s[3] == b3);
        if !(0x80 <= b1 && b1 <= 0xbf && 0x80 <= b2 && b2 <= 0xbf && 0x80 <= b3 && b3 <= 0xbf) {
            return None;
        }
        let cp: u32 = (((b0 & 0x07) as u32) << 18) | (((b1 & 0x3f) as u32) << 12) | (((b2 & 0x3f)
            as u32) << 6) | ((b3 & 0x3f) as u32);
        if cp < 0x10000 || cp > 0x10ffff {
            return None;
        }
        return match char_from_u32(cp) {
            Some(c) => Some((c, 4)),
            None => None,
        };
    }
    None
}

/// A character is the character of its code.
proof fn lemma_char_of_code(c: char, u: u32)
    requires
        c as u32 == u,
    ensures
        (u as char) == c,
{
}

/// The text of a decoded character.
fn char_text(c: char) -> (s: Vec<char>)
    ensures
        s@ == char_reading(c),
{
    let u = c as u32;
    let mut out: Vec<char> = Vec::new();
    if u <= 0x1F || (0x7F <= u && u <= 0x9F) {
        out.push('.');
    } else {
        out.push('\'');
        out.push(c);
        out.push('\'');
    }
    assert(out@ =~= char_reading(c));
    out
}

/// The read-only rows of the inspector for the bytes at the cursor.
pub struct InspectorReadings {
    pub int8: String,
    pub uint8: String,
    pub int16: String,
    pub uint16: String,
    pub int32: String,
    pub uint32: String,
    pub int64: String,
    pub uint64: String,
    pub unix_time32: String,
    pub unix_time64: String,
    pub ascii: String,
    pub utf8: String,
    pub utf16: String,
}

fn field_text(field: InspectorField, bytes: &[u8], is_big_endian: bool) -> (s: String)
    requires
        !field.is_float(),
    ensures
        s@ == field_reading(field, bytes@, is_big_endian),
{
    if bytes.len() >= field.byte_len() {
        field.current_input_value(bytes, is_big_endian)
    } else {
        "--".to_owned()
    }
}

fn unix_time_text(bytes: &[u8], n: usize, is_big_endian: bool) -> (s: String)
    requires
        n == 4 || n == 8,
    ensures
        bytes@.len() < n ==> s@ == "--"@,
        bytes@.len() >= n ==> is_unix_time_text(
            to_signed(read_unsigned(bytes@.subrange(0, n as int), is_big_endian), n as nat),
            s@,
        ),
{
    if bytes.len() < n {
        return "--".to_owned();
    }
    let u = read_unsigned_exec(bytes, n, is_big_endian);
    proof {
        lemma_read_write(bytes@.subrange(0, n as int), is_big_endian);
        crate::byteval::lemma_power_256_values();
    }
    let v: i64 = if n == 4 {
        if u >= 0x8000_0000 {
            ((u as i128) - 0x1_0000_0000) as i64
        } else {
            u as i64
        }
    } else {
        if u >= 0x8000_0000_0000_0000 {
            ((u as i128) - 0x1_0000_0000_0000_0000) as i64
        } else {
            u as i64
        }
    };
    format_unix_time(v)
}

/// The read-only rows of the inspector for the bytes at the cursor: each
/// integer row is the text of its field (or `--`), the time rows read the
/// signed 32- and 64-bit values as Unix timestamps, and the text rows show
/// the character at the cursor.
pub fn inspector_readings(bytes: &[u8], is_big_endian: bool) -> (r: InspectorReadings)
    ensures
        r.int8@ == field_reading(InspectorField::Int8, bytes@, is_big_endian),
        r.uint8@ == field_reading(InspectorField::UInt8, bytes@, is_big_endian),
        r.int16@ == field_reading(InspectorField::Int16, bytes@, is_big_endian),
        r.uint16@ == field_reading(InspectorField::UInt16, bytes@, is_big_endian),
        r.int32@ == field_reading(InspectorField::Int32, bytes@, is_big_endian),
        r.uint32@ == field_reading(InspectorField::UInt32, bytes@, is_big_endian),
        r.int64@ == field_reading(InspectorField::Int64, bytes@, is_big_endian),
        r.uint64@ == field_reading(InspectorField::UInt64, bytes@, is_big_endian),
        bytes@.len() < 4 ==> r.unix_time32@ == "--"@,
        bytes@.len() >= 4 ==> is_unix_time_text(
            to_signed(read_unsigned(bytes@.subrange(0, 4), is_big_endian), 4),
            r.unix_time32@,
        ),
        bytes@.len() < 8 ==> r.unix_time64@ == "--"@,
        bytes@.len() >= 8 ==> is_unix_time_text(
            to_signed(read_unsigned(bytes@.subrange(0, 8), is_big_endian), 8),
            r.unix_time64@,
        ),
        r.ascii@ == ascii_reading(bytes@),
        r.utf8@ == utf8_reading(bytes@),
        r.utf16@ == utf16_reading(bytes@, is_big_endian),
        bytes@.len() >= 4 ==> is_unix_time_text(
            to_signed(
                if is_big_endian {
                    be_number(bytes@.subrange(0, 4))
                } else {
                    be_number(bytes@.subrange(0, 4).reverse())
                },
                4,
            ),
            r.unix_time32@,
        ),
        bytes@.len() >= 8 ==> is_unix_time_text(
            to_signed(
                if is_big_endian {
                    be_number(bytes@.subrange(0, 8))
                } else {
                    be_number(bytes@.subrange(0, 8).reverse())
                },
                8,
            ),
            r.unix_time64@,
        ),
        bytes@.len() >= 2 ==> ({
            let unit: int = if is_big_endian {
                256 * bytes@[0] + bytes@[1]
            } else {
                256 * bytes@[1] + bytes@[0]
            };
            r.utf16@ == if 0xD800 <= unit <= 0xDFFF {
                seq!['.']
            } else {
                char_reading(unit as char)
            }
        }),
{
    proof {
        if bytes@.len() >= 2 {
            lemma_utf16_unit_in_byte_order(bytes@, is_big_endian);
        }
        if bytes@.len() >= 4 {
            lemma_read_unsigned_orders(bytes@.subrange(0, 4));
        }
        if bytes@.len() >= 8 {
            lemma_read_unsigned_orders(bytes@.subrange(0, 8));
        }
    }
    let ascii = if bytes.len() == 0 {
        "--".to_owned()
    } else {
        let b = bytes[0];
        if 0x20 <= b && b <= 0x7E {
            let mut v: Vec<char> = Vec::new();
            v.push('\'');
            v.push(b as char);
            v.push('\'');
            assert(v@ =~= quoted(b as char));
            string_of(&v)
        } else {
            let mut v: Vec<char> = Vec::new();
            v.push('.');
            assert(v@ =~= seq!['.']);
            string_of(&v)
        }
    };
    let utf8 = if bytes.len() == 0 {
        "--".to_owned()
    } else {
        assert(bytes@.subrange(0, bytes@.len() as int) =~= bytes@);
        match decode_utf8_at(bytes, 0) {
            Some((c, _)) => {
                proof {
                    lemma_char_of_code(c, decode_first_scalar(bytes@));
                }
                string_of(&char_text(c))
            },
            None => {
                let mut v: Vec<char> = Vec::new();
                v.push('.');
                assert(v@ =~= seq!['.']);
                string_of(&v)
            },
        }
    };
    let utf16 = if bytes.len() < 2 {
        "--".to_owned()
    } else {
        let u = read_unsigned_exec(bytes, 2, is_big_endian);
        proof {
            lemma_read_write(bytes@.subrange(0, 2), is_big_endian);
            crate::byteval::lemma_power_256_values();
        }
        match char_from_u32(u as u32) {
            Some(c) => {
                proof {
                    lemma_char_of_code(c, u as u32);
                }
                string_of(&char_text(c))
            },
            None => {
                let mut v: Vec<char> = Vec::new();
                v.push('.');
                assert(v@ =~= seq!['.']);
                string_of(&v)
            },
        }
    };
    InspectorReadings {
        int8: field_text(InspectorField::Int8, bytes, is_big_endian),
        uint8: field_text(InspectorField::UInt8, bytes, is_big_endian),
        int16: field_text(InspectorField::Int16, bytes, is_big_endian),
        uint16: field_text(InspectorField::UInt16, bytes, is_big_endian),
        int32: field_text(InspectorField::Int32, bytes, is_big_endian),
        uint32: field_text(InspectorField::UInt32, bytes, is_big_endian),
        int64: field_text(InspectorField::Int64, bytes, is_big_endian),
        uint64: field_text(InspectorField::UInt64, bytes, is_big_endian),
        unix_time32: unix_time_text(bytes, 4, is_big_endian),
        unix_time64: unix_time_text(bytes, 8, is_big_endian),
        ascii,
        utf8,
        utf16,
    }
}

/// The UTF-16 reading decodes the first code unit in the chosen byte order:
/// big-endian, the first byte is the unit's high byte; little-endian, the
/// second is. A surrogate unit shows `.`; any other unit shows its
/// character.
pub proof fn lemma_utf16_unit_in_byte_order(bytes: Seq<u8>, big_endian: bool)
    requires
        bytes.len() >= 2,
    ensures
        ({
            let unit: int = if big_endian {
                256 * bytes[0] + bytes[1]
            } else {
                256 * bytes[1] + bytes[0]
            };
            utf16_reading(bytes, big_endian) == if 0xD800 <= unit <= 0xDFFF {
                seq!['.']
            } else {
                char_reading(unit as char)
            }
        }),
{
    let b = bytes.subrange(0, 2);
    lemma_read_two(b);
}

/// A character of the first plane that is not a control character, written
/// as one UTF-16 unit in either byte order, reads back as itself, quoted.
pub proof fn lemma_utf16_reads_written_char(c: char, big_endian: bool)
    requires
        (c as u32) < 0x10000,
        !is_control(c),
    ensures
        ({
            let hi = ((c as u32) / 256) as u8;
            let lo = ((c as u32) % 256) as u8;
            let bytes = if big_endian {
                seq![hi, lo]
            } else {
                seq![lo, hi]
            };
            utf16_reading(bytes, big_endian) == quoted(c)
        }),
{
    let u = c as u32;
    let hi = (u / 256) as u8;
    let lo = (u % 256) as u8;
    let bytes = if big_endian {
        seq![hi, lo]
    } else {
        seq![lo, hi]
    };
    lemma_utf16_unit_in_byte_order(bytes, big_endian);
    assert(256 * (hi as int) + (lo as int) == u as int);
    assert(!(0xD800 <= u <= 0xDFFF));
    assert((u as int) as char == c);
}

} // verus!
