//! Integers as text: the digit strings that the inspector shows, and the
//! parser that reads a value back in the grammar of `from_str_radix`.
use vstd::prelude::*;

verus! {

/// `base` raised to `e`, over the naturals.
pub open spec fn power(base: nat, e: nat) -> nat
    decreases e,
{
    if e == 0 {
        1
    } else {
        base * power(base, (e - 1) as nat)
    }
}

/// The character of digit `d` (below 16); letters are upper case.
pub open spec fn digit_char(d: nat) -> char {
    if d < 10 {
        (48 + d) as char
    } else {
        (55 + d) as char
    }
}

/// Decimal digits of `n`, most significant first, without leading zeros.
pub open spec fn dec_digits(n: nat) -> Seq<char>
    decreases n,
{
    if n < 10 {
        seq![digit_char(n)]
    } else {
        dec_digits(n / 10).push(digit_char(n % 10))
    }
}

/// Decimal text of a signed integer: a minus sign for negative values.
pub open spec fn dec_signed(i: int) -> Seq<char> {
    if i < 0 {
        seq!['-'] + dec_digits((-i) as nat)
    } else {
        dec_digits(i as nat)
    }
}

/// The `width` least significant hexadecimal digits of `n`, upper case,
/// most significant first (zero padded).
pub open spec fn hex_padded(n: nat, width: nat) -> Seq<char>
    decreases width,
{
    if width == 0 {
        Seq::empty()
    } else {
        hex_padded(n / 16, (width - 1) as nat).push(digit_char(n % 16))
    }
}

/// The value of character `c` as a digit in `radix` (at most 36), as
/// `char::to_digit` defines it: `0-9`, then letters of either case.
pub open spec fn char_digit(c: char, radix: nat) -> Option<nat> {
    let u = c as u32;
    let v: int = if 48 <= u <= 57 {
        u - 48
    } else if 97 <= u <= 122 {
        u - 87
    } else if 65 <= u <= 90 {
        u - 55
    } else {
        36
    };
    if v < radix {
        Some(v as nat)
    } else {
        None
    }
}

/// The value of a string of digits in `radix`; `None` when a character is not
/// a digit. The empty string has value zero.
pub open spec fn digits_value(s: Seq<char>, radix: nat) -> Option<nat>
    decreases s.len(),
{
    if s.len() == 0 {
        Some(0)
    } else {
        match (digits_value(s.drop_last(), radix), char_digit(s.last(), radix)) {
            (Some(p), Some(d)) => Some(p * radix + d),
            _ => None,
        }
    }
}

/// The integer that `from_str_radix` reads from `s` for an integer type whose
/// values are `lo..=hi`: an optional `+` (or `-` for a signed type), then at
/// least one digit; `None` for anything else and for values out of range.
pub open spec fn parse_int_spec(s: Seq<char>, radix: nat, signed: bool, lo: int, hi: int) -> Option<int> {
    if s.len() == 0 {
        None
    } else if (s[0] == '+' || s[0] == '-') && s.len() == 1 {
        None
    } else {
        let neg = s[0] == '-' && signed;
        let digits = if s[0] == '+' || neg {
            s.drop_first()
        } else {
            s
        };
        match digits_value(digits, radix) {
            None => None,
            Some(m) => {
                let v: int = if neg {
                    -m
                } else {
                    m as int
                };
                if lo <= v <= hi {
                    Some(v)
                } else {
                    None
                }
            },
        }
    }
}

/// The digit character for `d`.
pub fn digit(d: u8) -> (c: char)
    requires
        d < 16,
    ensures
        c == digit_char(d as nat),
{
    if d < 10 {
        (48 + d) as char
    } else {
        (55 + d) as char
    }
}

/// Appends the decimal digits of `n`.
pub fn push_decimal(out: &mut Vec<char>, n: u128)
    ensures
        final(out)@ == old(out)@ + dec_digits(n as nat),
    decreases n,
{
    if n >= 10 {
        push_decimal(out, n / 10);
    }
    let ghost mid = out@;
    out.push(digit((n % 10) as u8));
    proof {
        if n >= 10 {
            assert(mid == old(out)@ + dec_digits((n / 10) as nat));
            assert(out@ =~= old(out)@ + dec_digits((n / 10) as nat).push(digit_char((n % 10) as nat)));
        } else {
            assert(out@ =~= old(out)@ + dec_digits(n as nat));
        }
    }
}

/// Appends the decimal text of `v`, with a minus sign when negative.
pub fn push_signed_decimal(out: &mut Vec<char>, v: i128)
    requires
        v > i128::MIN,
    ensures
        final(out)@ == old(out)@ + dec_signed(v as int),
{
    if v < 0 {
        out.push('-');
        let ghost mid = out@;
        push_decimal(out, (-v) as u128);
        assert(out@ =~= old(out)@ + dec_signed(v as int));
    } else {
        push_decimal(out, v as u128);
    }
}

/// Appends the `width` least significant hexadecimal digits of `n`.
pub fn push_hex_padded(out: &mut Vec<char>, n: u128, width: usize)
    ensures
        final(out)@ == old(out)@ + hex_padded(n as nat, width as nat),
    decreases width,
{
    if width == 0 {
        assert(out@ =~= old(out)@ + hex_padded(n as nat, width as nat));
        return;
    }
    push_hex_padded(out, n / 16, width - 1);
    out.push(digit((n % 16) as u8));
    assert(out@ =~= old(out)@ + hex_padded(n as nat, width as nat));
}

/// The value of `c` as a digit in `radix`.
pub fn char_digit_value(c: char, radix: u32) -> (r: Option<u32>)
    requires
        2 <= radix <= 36,
    ensures
        match r {
            Some(d) => char_digit(c, radix as nat) == Some(d as nat),
            None => char_digit(c, radix as nat) is None,
        },
{
    let u = c as u32;
    let v: u32 = if 48 <= u && u <= 57 {
        u - 48
    } else if 97 <= u && u <= 122 {
        u - 87
    } else if 65 <= u && u <= 90 {
        u - 55
    } else {
        36
    };
    if v < radix {
        Some(v)
    } else {
        None
    }
}

/// A prefix of a digit string: when the prefix is no number, neither is the
/// whole; otherwise the whole is at least as large as the prefix.
pub proof fn lemma_digits_prefix(s: Seq<char>, k: int, radix: nat)
    requires
        0 <= k <= s.len(),
        radix >= 1,
    ensures
        digits_value(s.take(k), radix) is None ==> digits_value(s, radix) is None,
        (digits_value(s.take(k), radix) is Some && digits_value(s, radix) is Some) ==> digits_value(
            s.take(k),
            radix,
        )->0 <= digits_value(s, radix)->0,
    decreases s.len(),
{
    if k == s.len() {
        assert(s.take(k) =~= s);
    } else {
        let d = s.drop_last();
        assert(d.take(k) =~= s.take(k));
        lemma_digits_prefix(d, k, radix);
        match (digits_value(d, radix), char_digit(s.last(), radix)) {
            (Some(p), Some(x)) => {
                assert(p * radix + x >= p) by (nonlinear_arith)
                    requires
                        radix >= 1,
                ;
            },
            _ => {},
        }
    }
}

/// Reads the digits `s[from..]` in `radix`, giving up once the value exceeds
/// `limit`.
pub fn parse_digits(s: &Vec<char>, from: usize, radix: u32, limit: u128) -> (r: Option<u128>)
    requires
        from <= s@.len(),
        radix == 10 || radix == 16,
        limit <= 0x1_0000_0000_0000_0000,
    ensures
        match r {
            Some(m) => digits_value(s@.subrange(from as int, s@.len() as int), radix as nat) == Some(
                m as nat,
            ) && m <= limit,
            None => match digits_value(s@.subrange(from as int, s@.len() as int), radix as nat) {
                Some(v) => v > limit,
                None => true,
            },
        },
{
    let ghost digits = s@.subrange(from as int, s@.len() as int);
    let len = s.len();
    let mut m: u128 = 0;
    let mut i = from;
    assert(digits.take(0) =~= Seq::<char>::empty());
    while i < len
        invariant
            from <= i <= len,
            len == s@.len(),
            digits == s@.subrange(from as int, len as int),
            radix == 10 || radix == 16,
            limit <= 0x1_0000_0000_0000_0000,
            m <= limit,
            digits_value(digits.take(i - from), radix as nat) == Some(m as nat),
        decreases len - i,
    {
        let c = s[i];
        let ghost next = digits.take(i + 1 - from);
        assert(next.drop_last() =~= digits.take(i - from));
        assert(next.last() == c);
        match char_digit_value(c, radix) {
            None => {
                proof {
                    lemma_digits_prefix(digits, i + 1 - from, radix as nat);
                }
                return None;
            },
            Some(d) => {
                assert(m * radix + d <= 0x1_0000_0000_0000_0000 * 16 + 36) by (nonlinear_arith)
                    requires
                        m <= 0x1_0000_0000_0000_0000,
                        radix <= 16,
                        d < 36,
                ;
                let nm = m * (radix as u128) + (d as u128);
                if nm > limit {
                    proof {
                        lemma_digits_prefix(digits, i + 1 - from, radix as nat);
                    }
                    return None;
                }
                m = nm;
            },
        }
        i = i + 1;
    }
    assert(digits.take(len - from) =~= digits);
    Some(m)
}

/// Reads an integer from `s[start..]` as `from_str_radix` does for an integer
/// type whose values are `lo..=hi`.
pub fn parse_int(s: &Vec<char>, start: usize, radix: u32, signed: bool, lo: i128, hi: i128) -> (r:
    Option<i128>)
    requires
        start <= s@.len(),
        radix == 10 || radix == 16,
        -0x1_0000_0000_0000_0000 <= lo <= 0 <= hi <= 0x1_0000_0000_0000_0000,
    ensures
        match r {
            Some(v) => parse_int_spec(
                s@.subrange(start as int, s@.len() as int),
                radix as nat,
                signed,
                lo as int,
                hi as int,
            ) == Some(v as int),
            None => parse_int_spec(
                s@.subrange(start as int, s@.len() as int),
                radix as nat,
                signed,
                lo as int,
                hi as int,
            ) is None,
        },
{
    let ghost t = s@.subrange(start as int, s@.len() as int);
    let len = s.len();
    if start == len {
        return None;
    }
    let first = s[start];
    assert(t[0] == first);
    if (first == '+' || first == '-') && start + 1 == len {
        return None;
    }
    let neg = first == '-' && signed;
    let dstart: usize = if first == '+' || neg {
        start + 1
    } else {
        start
    };
    assert(s@.subrange(dstart as int, s@.len() as int) =~= if first == '+' || neg {
        t.drop_first()
    } else {
        t
    });
    let limit: u128 = if neg {
        (-lo) as u128
    } else {
        hi as u128
    };
    match parse_digits(s, dstart, radix, limit) {
        None => None,
        Some(m) => {
            if neg {
                Some(-(m as i128))
            } else {
                Some(m as i128)
            }
        },
    }
}

/// A digit character reads back as its digit.
pub proof fn lemma_digit_char_value(d: nat, radix: nat)
    requires
        d < radix <= 36,
        d < 16,
    ensures
        char_digit(digit_char(d), radix) == Some(d),
{
    if d < 10 {
        assert((digit_char(d) as u32) == 48 + d);
    } else {
        assert((digit_char(d) as u32) == 55 + d);
    }
}

/// The characters of `dec_digits` are decimal digits; the string is not empty.
pub proof fn lemma_dec_digits_shape(n: nat)
    ensures
        dec_digits(n).len() >= 1,
        forall|i: int|
            0 <= i < dec_digits(n).len() ==> 48 <= #[trigger] (dec_digits(n)[i] as u32) <= 57,
    decreases n,
{
    if n >= 10 {
        lemma_dec_digits_shape(n / 10);
        assert forall|i: int| 0 <= i < dec_digits(n).len() implies 48 <= #[trigger] (
        dec_digits(n)[i] as u32) <= 57 by {
            if i < dec_digits(n / 10).len() {
                assert(dec_digits(n)[i] == dec_digits(n / 10)[i]);
            }
        }
    }
}

/// Decimal digits read back give the number they were written from.
pub proof fn lemma_dec_digits_value(n: nat)
    ensures
        digits_value(dec_digits(n), 10) == Some(n),
    decreases n,
{
    let s = dec_digits(n);
    lemma_digit_char_value(n % 10, 10);
    if n < 10 {
        assert(s.drop_last() =~= Seq::<char>::empty());
        assert(digits_value(Seq::<char>::empty(), 10) == Some(0nat));
        assert(s.last() == digit_char(n));
    } else {
        lemma_dec_digits_value(n / 10);
        assert(s.drop_last() =~= dec_digits(n / 10));
        assert(s.last() == digit_char(n % 10));
    }
}

/// Padded hexadecimal digits: their number, their shape, and their value.
pub proof fn lemma_hex_padded(n: nat, w: nat)
    ensures
        hex_padded(n, w).len() == w,
        forall|i: int|
            0 <= i < w ==> {
                let u = #[trigger] (hex_padded(n, w)[i] as u32);
                (48 <= u <= 57) || (65 <= u <= 70)
            },
        n < power(16, w) ==> digits_value(hex_padded(n, w), 16) == Some(n),
    decreases w,
{
    if w > 0 {
        let p = hex_padded(n / 16, (w - 1) as nat);
        lemma_hex_padded(n / 16, (w - 1) as nat);
        assert(hex_padded(n, w).drop_last() =~= p);
        assert forall|i: int| 0 <= i < w implies {
            let u = #[trigger] (hex_padded(n, w)[i] as u32);
            (48 <= u <= 57) || (65 <= u <= 70)
        } by {
            if i < w - 1 {
                assert(hex_padded(n, w)[i] == p[i]);
            }
        }
        if n < power(16, w) {
            assert(n / 16 < power(16, (w - 1) as nat)) by {
                assert(power(16, w) == 16 * power(16, (w - 1) as nat));
            }
        }
    } else {
        assert(power(16, 0) == 1);
    }
}

/// Decimal text of an unsigned value is read back by the parser.
pub proof fn lemma_parse_dec_digits(n: nat, signed: bool, lo: int, hi: int)
    requires
        lo <= 0,
        n <= hi,
    ensures
        parse_int_spec(dec_digits(n), 10, signed, lo, hi) == Some(n as int),
{
    let s = dec_digits(n);
    lemma_dec_digits_shape(n);
    lemma_dec_digits_value(n);
    assert(48 <= (s[0] as u32) <= 57);
}

/// Decimal text of a signed value is read back by a signed parser.
pub proof fn lemma_parse_dec_signed(i: int, lo: int, hi: int)
    requires
        lo <= i <= hi,
        lo <= 0,
    ensures
        parse_int_spec(dec_signed(i), 10, true, lo, hi) == Some(i),
{
    if i < 0 {
        let m = (-i) as nat;
        let s = dec_signed(i);
        lemma_dec_digits_shape(m);
        lemma_dec_digits_value(m);
        assert(s.drop_first() =~= dec_digits(m));
        assert(s[0] == '-');
    } else {
        lemma_parse_dec_digits(i as nat, true, lo, hi);
    }
}

/// Hexadecimal digits of `n`, upper case, most significant first, without
/// leading zeros.
pub open spec fn hex_digits(n: nat) -> Seq<char>
    decreases n,
{
    if n < 16 {
        seq![digit_char(n)]
    } else {
        hex_digits(n / 16).push(digit_char(n % 16))
    }
}

/// The `width` least significant binary digits of `n`, most significant
/// first (zero padded).
pub open spec fn bin_padded(n: nat, width: nat) -> Seq<char>
    decreases width,
{
    if width == 0 {
        Seq::empty()
    } else {
        bin_padded(n / 2, (width - 1) as nat).push(digit_char(n % 2))
    }
}

/// Appends the hexadecimal digits of `n`, without leading zeros.
pub fn push_hex(out: &mut Vec<char>, n: u128)
    ensures
        final(out)@ == old(out)@ + hex_digits(n as nat),
    decreases n,
{
    if n >= 16 {
        push_hex(out, n / 16);
    }
    let ghost mid = out@;
    out.push(digit((n % 16) as u8));
    proof {
        if n >= 16 {
            assert(mid == old(out)@ + hex_digits((n / 16) as nat));
            assert(out@ =~= old(out)@ + hex_digits((n / 16) as nat).push(digit_char((n % 16) as nat)));
        } else {
            assert(out@ =~= old(out)@ + hex_digits(n as nat));
        }
    }
}

/// Appends the `width` least significant binary digits of `n`.
pub fn push_bin_padded(out: &mut Vec<char>, n: u128, width: usize)
    ensures
        final(out)@ == old(out)@ + bin_padded(n as nat, width as nat),
    decreases width,
{
    if width == 0 {
        assert(out@ =~= old(out)@ + bin_padded(n as nat, width as nat));
        return;
    }
    push_bin_padded(out, n / 2, width - 1);
    out.push(digit((n % 2) as u8));
    assert(out@ =~= old(out)@ + bin_padded(n as nat, width as nat));
}

/// `width - len` zero characters (none when `len` reaches `width`).
pub open spec fn zeros(len: nat, width: nat) -> Seq<char> {
    if len >= width {
        Seq::empty()
    } else {
        Seq::new((width - len) as nat, |_i: int| '0')
    }
}

/// Hexadecimal digits of `n`, upper case, zero padded to at least `width`
/// digits: what the format `{:0width$X}` writes.
pub open spec fn hex_min_width(n: nat, width: nat) -> Seq<char> {
    zeros(hex_digits(n).len(), width) + hex_digits(n)
}

/// Appends the hexadecimal digits of `n`, zero padded to at least `width`.
pub fn push_hex_min_width(out: &mut Vec<char>, n: u128, width: usize)
    ensures
        final(out)@ == old(out)@ + hex_min_width(n as nat, width as nat),
{
    let mut digits: Vec<char> = Vec::new();
    push_hex(&mut digits, n);
    assert(digits@ =~= hex_digits(n as nat));
    let mut k: usize = digits.len();
    while k < width
        invariant
            digits@.len() <= k,
            k <= width || k == digits@.len(),
            digits@ == hex_digits(n as nat),
            out@ == old(out)@ + Seq::new((k - digits@.len()) as nat, |_i: int| '0'),
        decreases width - k,
    {
        out.push('0');
        assert(out@ =~= old(out)@ + Seq::new((k + 1 - digits@.len()) as nat, |_i: int| '0'));
        k = k + 1;
    }
    let ghost padded = out@;
    assert(padded =~= old(out)@ + zeros(digits@.len() as nat, width as nat));
    let mut i: usize = 0;
    while i < digits.len()
        invariant
            i <= digits@.len(),
            out@ == padded + digits@.subrange(0, i as int),
        decreases digits@.len() - i,
    {
        out.push(digits[i]);
        assert(out@ =~= padded + digits@.subrange(0, i + 1));
        i = i + 1;
    }
    assert(digits@.subrange(0, i as int) =~= digits@);
    assert(out@ =~= old(out)@ + hex_min_width(n as nat, width as nat));
}

/// An offset as the panels show it: `0x` and at least eight upper case
/// hexadecimal digits.
pub fn offset_label(offset: usize) -> (s: String)
    ensures
        s@ == seq!['0', 'x'] + hex_min_width(offset as nat, 8),
{
    let mut cs: Vec<char> = Vec::new();
    cs.push('0');
    cs.push('x');
    push_hex_min_width(&mut cs, offset as u128, 8);
    assert(cs@ =~= seq!['0', 'x'] + hex_min_width(offset as nat, 8));
    crate::text::string_of(&cs)
}

} // verus!
