//! The data inspector: the fields that show the bytes at the cursor as
//! integers, the text a field is edited with, and the bytes that an edit
//! writes back.
use vstd::prelude::*;
use crate::byteval::{
    lemma_le_bytes_len, lemma_power_256_values, lemma_power_monotone, lemma_read_write,
    read_unsigned, read_unsigned_exec, to_signed, to_unsigned, write_unsigned, write_unsigned_exec,
};
use crate::byteval::lemma_signed_round_trip;
use crate::numtext::{
    dec_digits, dec_signed, hex_padded, lemma_dec_digits_shape, lemma_hex_padded,
    lemma_parse_dec_digits, lemma_parse_dec_signed, parse_int, parse_int_spec, power, push_decimal,
    push_hex_padded, push_signed_decimal,
};
use crate::text::{
    chars_of, is_space, lemma_trim_idempotent, lemma_trim_unchanged, string_of, trim, trim_bounds,
};

verus! {

/// A row of the data inspector that can be edited.
#[derive(Clone, Copy, PartialEq, Eq, Debug, Structural)]
pub enum InspectorField {
    Hex8,
    Hex16,
    Hex32,
    Hex64,
    Int8,
    UInt8,
    Int16,
    UInt16,
    Int32,
    UInt32,
    Int64,
    UInt64,
    Float32,
    Float64,
}

/// The message for an empty value.
pub open spec fn empty_message() -> Seq<char> {
    "Value cannot be empty"@
}

/// Whether `t` starts with `0x` or `0X`.
pub open spec fn has_hex_prefix(t: Seq<char>) -> bool {
    t.len() >= 2 && t[0] == '0' && (t[1] == 'x' || t[1] == 'X')
}

/// `t` without a leading `0x` or `0X`.
pub open spec fn strip_hex_prefix(t: Seq<char>) -> Seq<char> {
    if has_hex_prefix(t) {
        t.skip(2)
    } else {
        t
    }
}

impl InspectorField {
    /// Number of bytes the field reads and writes.
    pub open spec fn spec_byte_len(self) -> nat {
        match self {
            InspectorField::Hex8 | InspectorField::Int8 | InspectorField::UInt8 => 1,
            InspectorField::Hex16 | InspectorField::Int16 | InspectorField::UInt16 => 2,
            InspectorField::Hex32 | InspectorField::Int32 | InspectorField::UInt32
            | InspectorField::Float32 => 4,
            _ => 8,
        }
    }

    /// Whether the field holds a floating-point number.
    pub open spec fn is_float(self) -> bool {
        self is Float32 || self is Float64
    }

    /// Whether the field shows raw hexadecimal.
    pub open spec fn is_hex(self) -> bool {
        self is Hex8 || self is Hex16 || self is Hex32 || self is Hex64
    }

    /// Whether the field is a signed integer.
    pub open spec fn is_signed(self) -> bool {
        self is Int8 || self is Int16 || self is Int32 || self is Int64
    }

    /// The label of the field's row.
    pub open spec fn spec_label(self) -> Seq<char> {
        match self {
            InspectorField::Hex8 => "Hex (1 byte)"@,
            InspectorField::Hex16 => "Hex (2 bytes)"@,
            InspectorField::Hex32 => "Hex (4 bytes)"@,
            InspectorField::Hex64 => "Hex (8 bytes)"@,
            InspectorField::Int8 => "Int8"@,
            InspectorField::UInt8 => "UInt8"@,
            InspectorField::Int16 => "Int16"@,
            InspectorField::UInt16 => "UInt16"@,
            InspectorField::Int32 => "Int32"@,
            InspectorField::UInt32 => "UInt32"@,
            InspectorField::Int64 => "Int64"@,
            InspectorField::UInt64 => "UInt64"@,
            InspectorField::Float32 => "Float32"@,
            InspectorField::Float64 => "Float64"@,
        }
    }

    /// The message for a value written in hexadecimal that cannot be stored.
    pub open spec fn hex_error_message(self) -> Seq<char> {
        match self {
            InspectorField::Hex8 => "Invalid Hex (1 byte) value (expected 0x00..0xFF)"@,
            InspectorField::Hex16 => "Invalid Hex (2 bytes) value (expected 0x0000..0xFFFF)"@,
            InspectorField::Hex32 => "Invalid Hex (4 bytes) value (expected 0x00000000..0xFFFFFFFF)"@,
            InspectorField::Hex64 => "Invalid Hex (8 bytes) value"@,
            InspectorField::Int8 => "Hex out of range for 1 byte (0x00..0xFF)"@,
            InspectorField::UInt8 => "Hex out of range for UInt8 (0x00..0xFF)"@,
            InspectorField::Int16 => "Hex out of range for 2 bytes (0x0000..0xFFFF)"@,
            InspectorField::UInt16 => "Hex out of range for UInt16 (0x0000..0xFFFF)"@,
            InspectorField::Int32 => "Hex out of range for 4 bytes"@,
            InspectorField::UInt32 => "Hex out of range for UInt32"@,
            InspectorField::Int64 => "Hex out of range for 8 bytes"@,
            InspectorField::UInt64 => "Hex out of range for UInt64"@,
            InspectorField::Float32 => "Invalid Float32 value"@,
            InspectorField::Float64 => "Invalid Float64 value"@,
        }
    }

    /// The message for a decimal value that cannot be stored.
    pub open spec fn decimal_error_message(self) -> Seq<char> {
        match self {
            InspectorField::Int8 => "Value out of range for Int8 (-128..127)"@,
            InspectorField::UInt8 => "Value out of range for UInt8 (0..255)"@,
            InspectorField::Int16 => "Value out of range for Int16 (-32768..32767)"@,
            InspectorField::UInt16 => "Value out of range for UInt16 (0..65535)"@,
            InspectorField::Int32 => "Value out of range for Int32 (-2147483648..2147483647)"@,
            InspectorField::UInt32 => "Value out of range for UInt32 (0..4294967295)"@,
            InspectorField::Int64 => "Value out of range for Int64"@,
            InspectorField::UInt64 => "Value out of range for UInt64"@,
            _ => self.hex_error_message(),
        }
    }

    /// The text an integer field is edited with, for the bytes at the cursor:
    /// empty when there are too few bytes, else `0x` and all hex digits for a
    /// hex field, else the decimal value.
    pub open spec fn spec_input_value(self, bytes: Seq<u8>, big_endian: bool) -> Seq<char> {
        let n = self.spec_byte_len();
        if bytes.len() < n {
            Seq::empty()
        } else {
            let u = read_unsigned(bytes.subrange(0, n as int), big_endian);
            if self.is_hex() {
                seq!['0', 'x'] + hex_padded(u, 2 * n)
            } else if self.is_signed() {
                dec_signed(to_signed(u, n))
            } else {
                dec_digits(u)
            }
        }
    }

    /// What an edit of an integer field with `text` gives: the bytes to
    /// write, or the message that says why there are none.
    pub open spec fn spec_parse(self, text: Seq<char>, big_endian: bool) -> Result<
        Seq<u8>,
        Seq<char>,
    > {
        let t = trim(text);
        let n = self.spec_byte_len();
        let m = power(256, n);
        if t.len() == 0 {
            Err(empty_message())
        } else if self.is_hex() || has_hex_prefix(t) {
            match parse_int_spec(strip_hex_prefix(t), 16, false, 0, m - 1) {
                Some(u) => Ok(write_unsigned(u as nat, n, big_endian)),
                None => Err(self.hex_error_message()),
            }
        } else {
            let lo: int = if self.is_signed() {
                -(m / 2)
            } else {
                0
            };
            let hi: int = if self.is_signed() {
                m / 2 - 1
            } else {
                m - 1
            };
            match parse_int_spec(t, 10, self.is_signed(), lo, hi) {
                Some(v) => Ok(write_unsigned(to_unsigned(v, n), n, big_endian)),
                None => Err(self.decimal_error_message()),
            }
        }
    }

    /// Number of bytes the field reads and writes.
    pub fn byte_len(&self) -> (n: usize)
        ensures
            n == self.spec_byte_len(),
    {
        match self {
            InspectorField::Hex8 | InspectorField::Int8 | InspectorField::UInt8 => 1,
            InspectorField::Hex16 | InspectorField::Int16 | InspectorField::UInt16 => 2,
            InspectorField::Hex32 | InspectorField::Int32 | InspectorField::UInt32
            | InspectorField::Float32 => 4,
            _ => 8,
        }
    }

    /// Whether the field holds a floating-point number.
    pub fn float_field(&self) -> (b: bool)
        ensures
            b == self.is_float(),
    {
        matches!(self, InspectorField::Float32 | InspectorField::Float64)
    }

    /// The label of the field's row.
    pub fn label(&self) -> (s: &'static str)
        ensures
            s@ == self.spec_label(),
    {
        match self {
            InspectorField::Hex8 => "Hex (1 byte)",
            InspectorField::Hex16 => "Hex (2 bytes)",
            InspectorField::Hex32 => "Hex (4 bytes)",
            InspectorField::Hex64 => "Hex (8 bytes)",
            InspectorField::Int8 => "Int8",
            InspectorField::UInt8 => "UInt8",
            InspectorField::Int16 => "Int16",
            InspectorField::UInt16 => "UInt16",
            InspectorField::Int32 => "Int32",
            InspectorField::UInt32 => "UInt32",
            InspectorField::Int64 => "Int64",
            InspectorField::UInt64 => "UInt64",
            InspectorField::Float32 => "Float32",
            InspectorField::Float64 => "Float64",
        }
    }

    fn hex_error(&self) -> (s: String)
        ensures
            s@ == self.hex_error_message(),
    {
        match self {
            InspectorField::Hex8 => "Invalid Hex (1 byte) value (expected 0x00..0xFF)".to_owned(),
            InspectorField::Hex16 => "Invalid Hex (2 bytes) value (expected 0x0000..0xFFFF)".to_owned(),
            InspectorField::Hex32 => "Invalid Hex (4 bytes) value (expected 0x00000000..0xFFFFFFFF)".to_owned(),
            InspectorField::Hex64 => "Invalid Hex (8 bytes) value".to_owned(),
            InspectorField::Int8 => "Hex out of range for 1 byte (0x00..0xFF)".to_owned(),
            InspectorField::UInt8 => "Hex out of range for UInt8 (0x00..0xFF)".to_owned(),
            InspectorField::Int16 => "Hex out of range for 2 bytes (0x0000..0xFFFF)".to_owned(),
            InspectorField::UInt16 => "Hex out of range for UInt16 (0x0000..0xFFFF)".to_owned(),
            InspectorField::Int32 => "Hex out of range for 4 bytes".to_owned(),
            InspectorField::UInt32 => "Hex out of range for UInt32".to_owned(),
            InspectorField::Int64 => "Hex out of range for 8 bytes".to_owned(),
            InspectorField::UInt64 => "Hex out of range for UInt64".to_owned(),
            InspectorField::Float32 => "Invalid Float32 value".to_owned(),
            InspectorField::Float64 => "Invalid Float64 value".to_owned(),
        }
    }

    fn decimal_error(&self) -> (s: String)
        ensures
            s@ == self.decimal_error_message(),
    {
        match self {
            InspectorField::Int8 => "Value out of range for Int8 (-128..127)".to_owned(),
            InspectorField::UInt8 => "Value out of range for UInt8 (0..255)".to_owned(),
            InspectorField::Int16 => "Value out of range for Int16 (-32768..32767)".to_owned(),
            InspectorField::UInt16 => "Value out of range for UInt16 (0..65535)".to_owned(),
            InspectorField::Int32 => "Value out of range for Int32 (-2147483648..2147483647)".to_owned(),
            InspectorField::UInt32 => "Value out of range for UInt32 (0..4294967295)".to_owned(),
            InspectorField::Int64 => "Value out of range for Int64".to_owned(),
            InspectorField::UInt64 => "Value out of range for UInt64".to_owned(),
            _ => self.hex_error(),
        }
    }

    /// The text the field is edited with, for the bytes at the cursor. Fields
    /// that hold floating-point numbers are formatted by the caller.
    pub fn current_input_value(&self, bytes: &[u8], is_big_endian: bool) -> (s: String)
        requires
            !self.is_float(),
        ensures
            s@ == self.spec_input_value(bytes@, is_big_endian),
    {
        let n = self.byte_len();
        if bytes.len() < n {
            return String::new();
        }
        let u = read_unsigned_exec(bytes, n, is_big_endian);
        proof {
            lemma_read_write(bytes@.subrange(0, n as int), is_big_endian);
        }
        let mut out: Vec<char> = Vec::new();
        match self {
            InspectorField::Hex8 | InspectorField::Hex16 | InspectorField::Hex32
            | InspectorField::Hex64 => {
                out.push('0');
                out.push('x');
                push_hex_padded(&mut out, u as u128, 2 * n);
            },
            InspectorField::Int8 | InspectorField::Int16 | InspectorField::Int32
            | InspectorField::Int64 => {
                let v = signed_value(u, n);
                push_signed_decimal(&mut out, v);
            },
            _ => {
                push_decimal(&mut out, u as u128);
            },
        }
        string_of(&out)
    }

    /// The bytes that an edit of the field with `text` writes, in the given
    /// byte order, or the message that says why the text is refused. Fields
    /// that hold floating-point numbers are parsed by the caller.
    pub fn parse_and_serialize(&self, text: &str, is_big_endian: bool) -> (r: Result<
        Vec<u8>,
        String,
    >)
        requires
            !self.is_float(),
        ensures
            match r {
                Ok(b) => self.spec_parse(text@, is_big_endian) == Ok::<Seq<u8>, Seq<char>>(b@)
                    && b@.len() == self.spec_byte_len(),
                Err(m) => self.spec_parse(text@, is_big_endian) == Err::<Seq<u8>, Seq<char>>(m@),
            },
    {
        proof {
            lemma_power_256_values();
        }
        let chars = chars_of(text);
        let (a, b) = trim_bounds(&chars);
        if a == b {
            return Err("Value cannot be empty".to_owned());
        }
        let t = copy_range(&chars, a, b);
        let n = self.byte_len();
        let m = modulus(n);
        let prefixed = t.len() >= 2 && t[0] == '0' && (t[1] == 'x' || t[1] == 'X');
        let is_hex = matches!(
            self,
            InspectorField::Hex8 | InspectorField::Hex16 | InspectorField::Hex32 | InspectorField::Hex64
        );
        let signed = matches!(
            self,
            InspectorField::Int8 | InspectorField::Int16 | InspectorField::Int32 | InspectorField::Int64
        );
        proof {
            lemma_write_len(n as nat);
        }
        if is_hex || prefixed {
            let start: usize = if prefixed {
                2
            } else {
                0
            };
            assert(t@.subrange(start as int, t@.len() as int) =~= strip_hex_prefix(t@));
            match parse_int(&t, start, 16, false, 0, (m - 1) as i128) {
                Some(u) => Ok(write_unsigned_exec(u as u64, n, is_big_endian)),
                None => Err(self.hex_error()),
            }
        } else {
            let lo: i128 = if signed {
                -((m / 2) as i128)
            } else {
                0
            };
            let hi: i128 = if signed {
                (m / 2 - 1) as i128
            } else {
                (m - 1) as i128
            };
            assert(t@.subrange(0, t@.len() as int) =~= t@);
            match parse_int(&t, 0, 10, signed, lo, hi) {
                Some(v) => {
                    let u: u64 = if v < 0 {
                        (v + m as i128) as u64
                    } else {
                        v as u64
                    };
                    Ok(write_unsigned_exec(u, n, is_big_endian))
                },
                None => Err(self.decimal_error()),
            }
        }
    }
}

/// Surrounding white space does not change what an edit of an integer field
/// gives: a text and its trim parse alike, and a text that is nothing but
/// white space is refused as empty.
pub proof fn lemma_parse_ignores_surrounding_space(
    field: InspectorField,
    text: Seq<char>,
    big_endian: bool,
)
    requires
        !field.is_float(),
    ensures
        field.spec_parse(trim(text), big_endian) == field.spec_parse(text, big_endian),
        trim(text).len() == 0 ==> field.spec_parse(text, big_endian) == Err::<Seq<u8>, Seq<char>>(
            empty_message(),
        ),
{
    lemma_trim_idempotent(text);
}

/// The byte order decides only the order of the bytes an edit writes: a text
/// is accepted in one order exactly when it is in the other, refused with the
/// same message, and the big-endian bytes are the little-endian ones reversed.
pub proof fn lemma_parse_byte_order(field: InspectorField, text: Seq<char>)
    requires
        !field.is_float(),
    ensures
        match (field.spec_parse(text, true), field.spec_parse(text, false)) {
            (Ok(be), Ok(le)) => be == le.reverse(),
            (Err(a), Err(b)) => a == b,
            _ => false,
        },
{
}

/// 16 to the power `2n` is 256 to the power `n`.
pub proof fn lemma_power_16_256(n: nat)
    ensures
        power(16, 2 * n) == power(256, n),
    decreases n,
{
    if n > 0 {
        lemma_power_16_256((n - 1) as nat);
        assert(power(16, 2 * n) == 16 * power(16, (2 * n - 1) as nat));
        assert(power(16, (2 * n - 1) as nat) == 16 * power(16, (2 * n - 2) as nat));
        assert((2 * n - 2) as nat == 2 * ((n - 1) as nat));
    }
}

/// Editing a field with the text it shows for some bytes writes back
/// exactly those bytes, in either byte order.
pub proof fn lemma_input_value_round_trip(field: InspectorField, bytes: Seq<u8>, big_endian: bool)
    requires
        !field.is_float(),
        bytes.len() >= field.spec_byte_len(),
    ensures
        field.spec_parse(field.spec_input_value(bytes, big_endian), big_endian) == Ok::<
            Seq<u8>,
            Seq<char>,
        >(bytes.subrange(0, field.spec_byte_len() as int)),
{
    let n = field.spec_byte_len();
    let sub = bytes.subrange(0, n as int);
    let u = read_unsigned(sub, big_endian);
    lemma_read_write(sub, big_endian);
    lemma_power_256_values();
    let m = power(256, n);
    let s = field.spec_input_value(bytes, big_endian);
    if field.is_hex() {
        let h = hex_padded(u, 2 * n);
        lemma_hex_padded(u, 2 * n);
        lemma_power_16_256(n);
        assert(s == seq!['0', 'x'] + h);
        assert(s.last() == h[h.len() - 1]);
        assert(!is_space(s.last()));
        assert(s[0] == '0');
        lemma_trim_unchanged(s);
        assert(strip_hex_prefix(s) =~= h);
        assert(48 <= (h[0] as u32));
    } else if field.is_signed() {
        let i = to_signed(u, n);
        lemma_signed_round_trip(u, n);
        lemma_parse_dec_signed(i, -(m / 2), m / 2 - 1);
        if i < 0 {
            let d = dec_digits((-i) as nat);
            lemma_dec_digits_shape((-i) as nat);
            assert(s == seq!['-'] + d);
            assert(s.last() == d[d.len() - 1]);
        } else {
            lemma_dec_digits_shape(i as nat);
            assert(s.last() == s[s.len() - 1]);
            if s.len() >= 2 {
                assert(48 <= (s[1] as u32) <= 57);
            }
        }
        lemma_trim_unchanged(s);
    } else {
        lemma_parse_dec_digits(u, false, 0, m - 1);
        lemma_dec_digits_shape(u);
        assert(s.last() == s[s.len() - 1]);
        if s.len() >= 2 {
            assert(48 <= (s[1] as u32) <= 57);
        }
        lemma_trim_unchanged(s);
    }
}

/// Writing `n` bytes gives `n` bytes, in either order.
proof fn lemma_write_len(n: nat)
    ensures
        forall|v: nat, be: bool| #[trigger] write_unsigned(v, n, be).len() == n,
{
    assert forall|v: nat, be: bool| #[trigger] write_unsigned(v, n, be).len() == n by {
        lemma_le_bytes_len(v, n);
    }
}

/// 256 to the power `n`.
fn modulus(n: usize) -> (m: u128)
    requires
        n <= 8,
    ensures
        m == power(256, n as nat),
        m >= 1,
        n >= 1 ==> m >= 256 && m % 2 == 0,
{
    proof {
        lemma_power_monotone(256, n as nat, 8);
        lemma_power_256_values();
    }
    let mut m: u128 = 1;
    let mut i: usize = 0;
    while i < n
        invariant
            i <= n <= 8,
            m == power(256, i as nat),
            power(256, n as nat) <= 0x1_0000_0000_0000_0000,
        decreases n - i,
    {
        proof {
            lemma_power_monotone(256, (i + 1) as nat, n as nat);
        }
        m = m * 256;
        i = i + 1;
    }
    proof {
        if n >= 1 {
            assert(m == 256 * power(256, (n - 1) as nat));
        }
    }
    if n == 0 {
        assert(power(256, 0) == 1);
    }
    m
}

/// The two's complement reading of the `n`-byte value `u`.
fn signed_value(u: u64, n: usize) -> (v: i128)
    requires
        1 <= n <= 8,
        u < power(256, n as nat),
    ensures
        v == to_signed(u as nat, n as nat),
        v > i128::MIN,
{
    let m = modulus(n);
    if 2 * (u as u128) >= m {
        (u as i128) - (m as i128)
    } else {
        u as i128
    }
}

/// The characters `s[a..b]`.
fn copy_range(s: &Vec<char>, a: usize, b: usize) -> (v: Vec<char>)
    requires
        a <= b <= s@.len(),
    ensures
        v@ == s@.subrange(a as int, b as int),
{
    let mut v: Vec<char> = Vec::new();
    let mut i = a;
    while i < b
        invariant
            a <= i <= b <= s@.len(),
            v@ =~= s@.subrange(a as int, i as int),
        decreases b - i,
    {
        v.push(s[i]);
        i = i + 1;
    }
    v
}

/// The four hexadecimal readings of the bytes at the cursor: each is the
/// text of the matching hex field, or `--` when there are too few bytes.
pub fn format_hex_values(bytes: &[u8], is_big_endian: bool) -> (r: (String, String, String, String))
    ensures
        r.0@ == (if bytes@.len() >= 1 {
            InspectorField::Hex8.spec_input_value(bytes@, is_big_endian)
        } else {
            "--"@
        }),
        r.1@ == (if bytes@.len() >= 2 {
            InspectorField::Hex16.spec_input_value(bytes@, is_big_endian)
        } else {
            "--"@
        }),
        r.2@ == (if bytes@.len() >= 4 {
            InspectorField::Hex32.spec_input_value(bytes@, is_big_endian)
        } else {
            "--"@
        }),
        r.3@ == (if bytes@.len() >= 8 {
            InspectorField::Hex64.spec_input_value(bytes@, is_big_endian)
        } else {
            "--"@
        }),
{
    (
        reading_or_dashes(InspectorField::Hex8, bytes, is_big_endian),
        reading_or_dashes(InspectorField::Hex16, bytes, is_big_endian),
        reading_or_dashes(InspectorField::Hex32, bytes, is_big_endian),
        reading_or_dashes(InspectorField::Hex64, bytes, is_big_endian),
    )
}

/// The text of `field` for the bytes, or `--` when there are too few.
fn reading_or_dashes(field: InspectorField, bytes: &[u8], is_big_endian: bool) -> (s: String)
    requires
        !field.is_float(),
    ensures
        s@ == (if bytes@.len() >= field.spec_byte_len() {
            field.spec_input_value(bytes@, is_big_endian)
        } else {
            "--"@
        }),
{
    if bytes.len() >= field.byte_len() {
        field.current_input_value(bytes, is_big_endian)
    } else {
        "--".to_owned()
    }
}

/// The end of the selection that a click on a row of `byte_len` bytes makes
/// from the cursor: it stops at the end of the file.
pub fn selection_end(cursor_offset: usize, byte_len: usize, total: usize) -> (end: usize)
    requires
        cursor_offset + byte_len <= usize::MAX,
    ensures
        end == if cursor_offset + byte_len < total {
            cursor_offset + byte_len
        } else {
            total as int
        },
{
    let end = cursor_offset + byte_len;
    if end < total {
        end
    } else {
        total
    }
}

/// A selection as the editor keeps it: where it started and where it ends.
#[derive(Clone, Copy, Debug, PartialEq, Eq, Structural)]
pub struct SelectionEnds {
    pub anchor: usize,
    pub active: usize,
}

/// What starting an edit does to the editor: the selection to put back
/// first (when an earlier edit was cancelled), then the bytes of the field
/// to select.
#[derive(Clone, Copy, Debug, PartialEq, Eq, Structural)]
pub struct EditStart {
    pub restore: Option<SelectionEnds>,
    pub select_start: usize,
    pub select_end: usize,
}

/// What committing an edit does: nothing (no edit running), cancel it (the
/// document is read-only), keep it open with an error (the text was
/// refused), or replace the field's bytes.
pub enum CommitOutcome {
    NotEditing,
    Cancelled { restore: Option<SelectionEnds> },
    Invalid,
    Replace { restore: Option<SelectionEnds>, start: usize, end: usize, bytes: Vec<u8> },
}

/// An edit in the data inspector: the field being edited, where its bytes
/// start, the error of the last refused text, and the selection to put
/// back when the edit ends.
pub struct InspectorEditState {
    pub editing_field: Option<InspectorField>,
    pub editing_offset: usize,
    pub edit_error: Option<String>,
    pub original_selection: Option<SelectionEnds>,
}

impl InspectorEditState {
    /// No edit running.
    pub fn new() -> (r: Self)
        ensures
            r.editing_field is None,
            r.edit_error is None,
            r.original_selection is None,
    {
        InspectorEditState { editing_field: None, editing_offset: 0, edit_error: None, original_selection: None }
    }

    /// Ends the edit without saving; gives the selection to put back.
    pub fn cancel_edit_internal(&mut self) -> (restore: Option<SelectionEnds>)
        ensures
            restore == old(self).original_selection,
            final(self).editing_field is None,
            final(self).original_selection is None,
            final(self).edit_error is None,
            final(self).editing_offset == old(self).editing_offset,
    {
        let restore = self.original_selection.take();
        self.editing_field = None;
        self.original_selection = None;
        self.edit_error = None;
        restore
    }

    /// Starts editing `field` at the cursor: refused for a read-only
    /// document or when fewer than the field's bytes are left
    /// (`available`). A running edit is cancelled first, and its selection
    /// put back; that selection (or else `current_selection`) is the one to
    /// put back when this edit ends. The field's bytes are selected.
    pub fn start_editing(
        &mut self,
        field: InspectorField,
        cursor_offset: usize,
        is_read_only: bool,
        available: usize,
        current_selection: SelectionEnds,
    ) -> (r: Option<EditStart>)
        requires
            cursor_offset + field.spec_byte_len() <= usize::MAX,
        ensures
            (is_read_only || available < field.spec_byte_len()) ==> r is None && final(self).editing_field
                == old(self).editing_field && final(self).editing_offset == old(self).editing_offset
                && final(self).original_selection == old(self).original_selection,
            !(is_read_only || available < field.spec_byte_len()) ==> {
                let restore = if old(self).editing_field is Some {
                    old(self).original_selection
                } else {
                    None
                };
                &&& r == Some(
                    EditStart {
                        restore,
                        select_start: cursor_offset,
                        select_end: (cursor_offset + field.spec_byte_len()) as usize,
                    },
                )
                &&& final(self).editing_field == Some(field)
                &&& final(self).editing_offset == cursor_offset
                &&& final(self).edit_error is None
                &&& final(self).original_selection == Some(
                    match restore {
                        Some(s) => s,
                        None => current_selection,
                    },
                )
            },
    {
        let len = field.byte_len();
        if is_read_only || available < len {
            return None;
        }
        let restore = if self.editing_field.is_some() {
            self.cancel_edit_internal()
        } else {
            None
        };
        let orig = match restore {
            Some(s) => s,
            None => current_selection,
        };
        self.original_selection = Some(orig);
        self.editing_field = Some(field);
        self.editing_offset = cursor_offset;
        self.edit_error = None;
        Some(EditStart { restore, select_start: cursor_offset, select_end: cursor_offset + len })
    }

    /// The editor changed: an edit ends, without its selection being put
    /// back, when the cursor left the field's bytes' start or the document
    /// became read-only.
    pub fn on_editor_changed(&mut self, cursor_offset: usize, is_read_only: bool)
        ensures
            (old(self).editing_field is Some && (cursor_offset != old(self).editing_offset || is_read_only))
                ==> final(self).editing_field is None && final(self).original_selection is None
                && final(self).edit_error is None && final(self).editing_offset == old(self).editing_offset,
            !(old(self).editing_field is Some && (cursor_offset != old(self).editing_offset || is_read_only))
                ==> final(self).editing_field == old(self).editing_field && final(self).original_selection
                == old(self).original_selection && final(self).edit_error == old(self).edit_error
                && final(self).editing_offset == old(self).editing_offset,
    {
        if self.editing_field.is_some() && (cursor_offset != self.editing_offset || is_read_only) {
            self.editing_field = None;
            self.original_selection = None;
            self.edit_error = None;
        }
    }

    /// The typed text changed and was read as `parse_result`: while editing,
    /// the error shown becomes the one of the text, or none when it reads.
    pub fn on_input_changed(&mut self, parse_result: Result<Vec<u8>, String>)
        ensures
            final(self).editing_field == old(self).editing_field,
            final(self).editing_offset == old(self).editing_offset,
            final(self).original_selection == old(self).original_selection,
            old(self).editing_field is None ==> final(self).edit_error == old(self).edit_error,
            old(self).editing_field is Some ==> final(self).edit_error == match parse_result {
                Ok(_) => None,
                Err(e) => Some(e),
            },
    {
        if self.editing_field.is_none() {
            return;
        }
        match parse_result {
            Ok(_) => {
                self.edit_error = None;
            },
            Err(e) => {
                self.edit_error = Some(e);
            },
        }
    }

    /// Commits the edit with the result of reading the typed text: cancels
    /// it for a read-only document, keeps it open with the error for a
    /// refused text, else replaces the field's bytes with the ones read and
    /// ends the edit.
    pub fn commit_edit(&mut self, is_read_only: bool, parse_result: Result<Vec<u8>, String>) -> (r: CommitOutcome)
        requires
            old(self).editing_field is Some ==> old(self).editing_offset + old(self).editing_field.unwrap().spec_byte_len()
                <= usize::MAX,
            old(self).editing_field is Some ==> match parse_result {
                Ok(b) => b@.len() == old(self).editing_field.unwrap().spec_byte_len(),
                Err(_) => true,
            },
        ensures
            old(self).editing_field is None ==> r is NotEditing,
            old(self).editing_field is Some && is_read_only ==> r == (CommitOutcome::Cancelled {
                restore: old(self).original_selection,
            }) && final(self).editing_field is None && final(self).original_selection is None,
            old(self).editing_field is Some && !is_read_only && parse_result is Err ==> r is Invalid
                && final(self).editing_field == old(self).editing_field && final(self).edit_error
                == Some(parse_result->Err_0) && final(self).original_selection == old(self).original_selection,
            old(self).editing_field is Some && !is_read_only && parse_result is Ok ==> {
                let f = old(self).editing_field.unwrap();
                &&& r matches CommitOutcome::Replace { restore, start, end, bytes } && restore
                    == old(self).original_selection && start == old(self).editing_offset && end
                    == old(self).editing_offset + f.spec_byte_len() && bytes@ == parse_result->Ok_0@
                &&& final(self).editing_field is None
                &&& final(self).edit_error is None
                &&& final(self).original_selection is None
            },
    {
        let field = match self.editing_field {
            Some(f) => f,
            None => {
                return CommitOutcome::NotEditing;
            },
        };
        if is_read_only {
            let restore = self.cancel_edit_internal();
            return CommitOutcome::Cancelled { restore };
        }
        match parse_result {
            Err(err) => {
                self.edit_error = Some(err);
                CommitOutcome::Invalid
            },
            Ok(bytes) => {
                let start = self.editing_offset;
                let end = start + field.byte_len();
                let restore = self.original_selection.take();
                self.editing_field = None;
                self.edit_error = None;
                CommitOutcome::Replace { restore, start, end, bytes }
            },
        }
    }
}

/// What a row of the inspector offers: whether it is the row being edited,
/// whether its value can be copied (not a placeholder), whether an edit
/// button shows and whether it can be pressed, and whether the value is
/// shown dimmed as missing.
#[derive(Clone, Copy, Debug, PartialEq, Eq, Structural)]
pub struct RowActions {
    pub is_editing: bool,
    pub can_copy: bool,
    pub shows_edit: bool,
    pub edit_enabled: bool,
    pub dimmed: bool,
}

/// The inspector's title, given whether the open editor is read only
/// (`None` when no editor is open): marked read only when there is no
/// editor or it cannot be written.
pub fn inspector_header(editor_read_only: Option<bool>) -> (r: &'static str)
    ensures
        r@ == (if editor_read_only == Some(false) {
            "DATA INSPECTOR"@
        } else {
            "DATA INSPECTOR (READ ONLY)"@
        }),
{
    let is_read_only = match editor_read_only {
        Some(ro) => ro,
        None => true,
    };
    if is_read_only {
        "DATA INSPECTOR (READ ONLY)"
    } else {
        "DATA INSPECTOR"
    }
}

/// A value that stands for a missing reading.
pub open spec fn is_placeholder(value: Seq<char>) -> bool {
    value == "--"@ || value == "-"@ || value.len() == 0
}

/// The actions of an inspector row showing `value`, for the editable field
/// `field` (none for a row that cannot be edited).
pub fn row_actions(
    field: Option<InspectorField>,
    editing_field: Option<InspectorField>,
    value: &str,
    is_read_only: bool,
) -> (r: RowActions)
    ensures
        r.is_editing == (field is Some && editing_field == field),
        r.can_copy == !is_placeholder(value@),
        r.shows_edit == (field is Some && !is_placeholder(value@)),
        r.edit_enabled == (r.shows_edit && !is_read_only),
        r.dimmed == (value@ == "--"@),
{
    let cs = chars_of(value);
    proof {
        reveal_strlit("--");
        reveal_strlit("-");
    }
    let is_double_dash = cs.len() == 2 && cs[0] == '-' && cs[1] == '-';
    let is_dash = cs.len() == 1 && cs[0] == '-';
    proof {
        if cs@.len() == 2 && cs@[0] == '-' && cs@[1] == '-' {
            assert(cs@ =~= "--"@);
        }
        if cs@.len() == 1 && cs@[0] == '-' {
            assert(cs@ =~= "-"@);
        }
    }
    let can_copy = !is_double_dash && !is_dash && cs.len() > 0;
    let is_editing = match (field, editing_field) {
        (Some(f), Some(e)) => f == e,
        _ => false,
    };
    let shows_edit = field.is_some() && can_copy;
    RowActions { is_editing, can_copy, shows_edit, edit_enabled: shows_edit && !is_read_only, dimmed: is_double_dash }
}

} // verus!
