//! The integer arithmetic of the hex view: the byte range scanned to fit a
//! column, the character cells of a row, row offsets, highlights, group
//! spans and row scrolling.
use vstd::prelude::*;
use std::ops::Range;
use crate::numtext::{digit_char, power};
use crate::text::string_of;
use crate::readings::decode_utf8_at;
use vstd::utf8::{decode_first_scalar, length_of_first_scalar, valid_first_scalar};

verus! {

/// Bytes scanned around the viewport to fit a column to its content.
pub const AUTO_FIT_SCAN_BYTES: usize = 65536;

/// `v` clamped to `lo..=hi` (with `lo <= hi`).
pub open spec fn clamp(v: int, lo: int, hi: int) -> int {
    if v < lo {
        lo
    } else if v > hi {
        hi
    } else {
        v
    }
}

/// The scan range for a file of `total` bytes whose viewport shows
/// `vs..ve`: the whole file when it is small, else a window of
/// `AUTO_FIT_SCAN_BYTES` bytes that starts at the viewport when the viewport
/// is at least that long, and is centred on it otherwise, moved inside the
/// file.
pub open spec fn auto_fit_start(total: int, visible_start: int, visible_end: int) -> int {
    let vs = if visible_start < total {
        visible_start
    } else {
        total
    };
    let ve = clamp(visible_end, vs, total);
    let s = AUTO_FIT_SCAN_BYTES as int;
    let wanted = if ve - vs >= s {
        vs
    } else {
        let c = vs - (s - (ve - vs)) / 2;
        if c < 0 {
            0
        } else {
            c
        }
    };
    if wanted < total - s {
        wanted
    } else {
        total - s
    }
}

/// The byte range scanned to fit a column to its content.
pub fn bounded_auto_fit_range(total_size: usize, visible_start: usize, visible_end: usize) -> (r:
    Range<usize>)
    ensures
        total_size <= AUTO_FIT_SCAN_BYTES ==> r.start == 0 && r.end == total_size,
        total_size > AUTO_FIT_SCAN_BYTES ==> r.start == auto_fit_start(
            total_size as int,
            visible_start as int,
            visible_end as int,
        ) && r.end == r.start + AUTO_FIT_SCAN_BYTES,
        r.start <= r.end <= total_size,
        r.end - r.start == if total_size < AUTO_FIT_SCAN_BYTES {
            total_size as int
        } else {
            AUTO_FIT_SCAN_BYTES as int
        },
        ({
            let vs = if visible_start < total_size {
                visible_start
            } else {
                total_size
            };
            let ve = clamp(visible_end as int, vs as int, total_size as int);
            ve - vs <= AUTO_FIT_SCAN_BYTES ==> r.start <= vs && ve <= r.end
        }),
{
    let visible_start = if visible_start < total_size {
        visible_start
    } else {
        total_size
    };
    let visible_end = if visible_end < visible_start {
        visible_start
    } else if visible_end > total_size {
        total_size
    } else {
        visible_end
    };
    if total_size <= AUTO_FIT_SCAN_BYTES {
        return 0..total_size;
    }
    let visible_len = visible_end - visible_start;
    if visible_len >= AUTO_FIT_SCAN_BYTES {
        let start = if visible_start < total_size - AUTO_FIT_SCAN_BYTES {
            visible_start
        } else {
            total_size - AUTO_FIT_SCAN_BYTES
        };
        return start..start + AUTO_FIT_SCAN_BYTES;
    }
    let extra = AUTO_FIT_SCAN_BYTES - visible_len;
    let centered_start = visible_start.saturating_sub(extra / 2);
    let start = if centered_start < total_size - AUTO_FIT_SCAN_BYTES {
        centered_start
    } else {
        total_size - AUTO_FIT_SCAN_BYTES
    };
    start..start + AUTO_FIT_SCAN_BYTES
}

/// One cell of the character column: the character that starts there (or
/// that the row ends in) and the number of its bytes.
pub type CharCell = Option<(char, usize)>;

/// The character column of a row, built from position `local` on, where
/// `decoded[k]` is the character that starts `k` bytes into the row: each
/// character fills the cell it starts in and the scan moves past its bytes;
/// a UTF-8 character that runs past the row's end is shown in its last cell.
pub open spec fn char_map_from(
    decoded: Seq<CharCell>,
    is_utf8: bool,
    row_len: int,
    local: int,
    map: Seq<CharCell>,
) -> Seq<CharCell>
    decreases (if local < row_len {
        row_len - local
    } else {
        0
    }),
{
    if local >= row_len || local < 0 {
        map
    } else {
        match decoded[local] {
            Some((c, l)) => {
                let len: int = if l < 1 {
                    1
                } else {
                    l as int
                };
                let at = if is_utf8 && local + len > row_len {
                    row_len - 1
                } else {
                    local
                };
                char_map_from(
                    decoded,
                    is_utf8,
                    row_len,
                    local + len,
                    map.update(at, Some((c, len as usize))),
                )
            },
            None => char_map_from(decoded, is_utf8, row_len, local + 1, map),
        }
    }
}

/// The character column of a row of `row_len` bytes, given the character
/// that starts at each byte of the row (`decoded`), and whether the
/// encoding is UTF-8.
pub fn build_ascii_char_map(decoded: &Vec<CharCell>, is_utf8: bool, row_len: usize) -> (map: Vec<
    CharCell,
>)
    requires
        decoded@.len() >= row_len,
        row_len <= usize::MAX - 4,
        forall|k: int| 0 <= k < row_len ==> (#[trigger] decoded@[k] matches Some(p) ==> p.1 <= 4),
    ensures
        map@ == char_map_from(
            decoded@,
            is_utf8,
            row_len as int,
            0,
            Seq::new(row_len as nat, |i: int| None::<(char, usize)>),
        ),
        map@.len() == row_len,
{
    let mut map: Vec<CharCell> = Vec::new();
    let mut j: usize = 0;
    while j < row_len
        invariant
            j <= row_len,
            map@ =~= Seq::new(j as nat, |i: int| None::<(char, usize)>),
        decreases row_len - j,
    {
        map.push(None);
        j = j + 1;
    }
    let ghost initial = map@;
    let mut local: usize = 0;
    while local < row_len
        invariant
            local <= row_len + 4,
            row_len <= usize::MAX - 4,
            decoded@.len() >= row_len,
            map@.len() == row_len,
            forall|k: int| 0 <= k < row_len ==> (#[trigger] decoded@[k] matches Some(p) ==> p.1 <= 4),
            char_map_from(decoded@, is_utf8, row_len as int, local as int, map@) == char_map_from(
                decoded@,
                is_utf8,
                row_len as int,
                0,
                initial,
            ),
        decreases row_len + 4 - local,
    {
        match decoded[local] {
            Some((c, l)) => {
                let len = if l < 1 {
                    1
                } else {
                    l
                };
                let at = if is_utf8 && local + len > row_len {
                    row_len - 1
                } else {
                    local
                };
                map.set(at, Some((c, len)));
                local = local + len;
            },
            None => {
                local = local + 1;
            },
        }
    }
    map
}

/// The `w` least significant hexadecimal digits of `n`, lower case.
pub open spec fn lower_hex_padded(n: nat, w: nat) -> Seq<char>
    decreases w,
{
    if w == 0 {
        Seq::empty()
    } else {
        lower_hex_padded(n / 16, (w - 1) as nat).push(
            if n % 16 < 10 {
                digit_char(n % 16)
            } else {
                ((n % 16) + 87) as char
            },
        )
    }
}

/// The offset column of a row: eight lower-case hexadecimal digits (the
/// offset modulo 16^8).
pub fn format_offset_08(offset: usize) -> (s: String)
    ensures
        s@ == lower_hex_padded(offset as nat, 8),
{
    let mut buf: Vec<char> = Vec::new();
    let mut k: usize = 0;
    while k < 8
        invariant
            k <= 8,
            buf@.len() == k,
            forall|i: int|
                0 <= i < k ==> #[trigger] buf@[i] == lower_hex_padded(offset as nat, 8)[7 - i],
        decreases 8 - k,
    {
        let d = ((offset / pow16(k)) % 16) as u8;
        let c = if d < 10 {
            (48 + d) as char
        } else {
            (87 + d) as char
        };
        proof {
            lemma_lower_hex_digit(offset as nat, 8, k as nat);
        }
        buf.push(c);
        k = k + 1;
    }
    let mut out: Vec<char> = Vec::new();
    let mut i: usize = 0;
    while i < 8
        invariant
            i <= 8,
            buf@.len() == 8,
            out@.len() == i,
            forall|j: int|
                0 <= j < 8 ==> #[trigger] buf@[j] == lower_hex_padded(offset as nat, 8)[7 - j],
            forall|j: int|
                0 <= j < i ==> #[trigger] out@[j] == lower_hex_padded(offset as nat, 8)[j],
        decreases 8 - i,
    {
        out.push(buf[7 - i]);
        i = i + 1;
    }
    proof {
        lemma_lower_hex_len(offset as nat, 8);
    }
    assert(out@ =~= lower_hex_padded(offset as nat, 8));
    string_of(&out)
}

/// 16 to the power `k`, for `k` below 8.
fn pow16(k: usize) -> (p: usize)
    requires
        k < 8,
    ensures
        p == power(16, k as nat),
        p >= 1,
{
    let mut p: usize = 1;
    let mut i: usize = 0;
    while i < k
        invariant
            i <= k < 8,
            p == power(16, i as nat),
            1 <= p <= 0x1000_0000,
        decreases k - i,
    {
        proof {
            crate::byteval::lemma_power_monotone(16, (i + 1) as nat, 7);
            reveal_with_fuel(power, 8);
        }
        p = p * 16;
        i = i + 1;
    }
    p
}

/// Length of the lower-case padded digits.
proof fn lemma_lower_hex_len(n: nat, w: nat)
    ensures
        lower_hex_padded(n, w).len() == w,
    decreases w,
{
    if w > 0 {
        lemma_lower_hex_len(n / 16, (w - 1) as nat);
    }
}

/// The digit `k` places from the right of the padded digits is the `k`-th
/// base-16 digit of `n`.
proof fn lemma_lower_hex_digit(n: nat, w: nat, k: nat)
    requires
        k < w,
    ensures
        lower_hex_padded(n, w).len() == w,
        lower_hex_padded(n, w)[w - 1 - k] == (if (n / power(16, k)) % 16 < 10 {
            digit_char((n / power(16, k)) % 16)
        } else {
            (((n / power(16, k)) % 16) + 87) as char
        }),
    decreases w,
{
    lemma_lower_hex_len(n, w);
    lemma_lower_hex_len(n / 16, (w - 1) as nat);
    let p = lower_hex_padded(n / 16, (w - 1) as nat);
    assert(lower_hex_padded(n, w) == p.push(
        if n % 16 < 10 {
            digit_char(n % 16)
        } else {
            ((n % 16) + 87) as char
        },
    ));
    if k > 0 {
        lemma_lower_hex_digit(n / 16, (w - 1) as nat, (k - 1) as nat);
        crate::byteval::lemma_power_positive(16, (k - 1) as nat);
        let q = power(16, (k - 1) as nat);
        assert(power(16, k) == 16 * q);
        assert(n / 16 / q == n / power(16, k)) by {
            vstd::arithmetic::div_mod::lemma_div_denominator(n as int, 16, q as int);
        }
        assert(lower_hex_padded(n, w)[w - 1 - k] == p[w - 1 - k]);
        assert(((w - 1) as nat) - 1 - ((k - 1) as nat) == w - 1 - k);
    } else {
        assert(power(16, 0) == 1);
        assert(n / 1 == n);
    }
}

/// The part of a row that one group of the hex column shows: bytes
/// `chunk_start..chunk_end` of the row, starting at `start_slot` within
/// their group.
#[derive(Clone, Copy, Debug, PartialEq, Eq, Structural)]
pub struct GroupSpan {
    pub chunk_start: usize,
    pub chunk_end: usize,
    pub start_slot: usize,
}

/// The groups of a row of `chunk_len` bytes at file offset `line_offset`,
/// from byte `idx` on: each group ends at the next multiple of `g` in the
/// file, or at the end of the row.
pub open spec fn spans_from(chunk_len: int, line_offset: int, g: int, idx: int) -> Seq<GroupSpan>
    decreases chunk_len - idx,
{
    if idx >= chunk_len || g <= 0 || idx < 0 {
        Seq::empty()
    } else {
        let slot = (line_offset + idx) % g;
        let l = if chunk_len - idx < g - slot {
            chunk_len - idx
        } else {
            g - slot
        };
        seq![GroupSpan { chunk_start: idx as usize, chunk_end: (idx + l) as usize, start_slot: slot as usize }]
            + spans_from(chunk_len, line_offset, g, idx + l)
    }
}

/// The groups of a row, as the hex column shows them.
pub fn hex_group_spans(chunk_len: usize, line_offset: usize, group_bytes: usize) -> (spans: Vec<
    GroupSpan,
>)
    requires
        group_bytes >= 1,
        line_offset + chunk_len <= usize::MAX,
    ensures
        spans@ == spans_from(chunk_len as int, line_offset as int, group_bytes as int, 0),
{
    let mut spans: Vec<GroupSpan> = Vec::new();
    let mut idx: usize = 0;
    while idx < chunk_len
        invariant
            idx <= chunk_len,
            group_bytes >= 1,
            line_offset + chunk_len <= usize::MAX,
            spans@ + spans_from(chunk_len as int, line_offset as int, group_bytes as int, idx as int)
                == spans_from(chunk_len as int, line_offset as int, group_bytes as int, 0),
        decreases chunk_len - idx,
    {
        let slot = (line_offset + idx) % group_bytes;
        let l = if chunk_len - idx < group_bytes - slot {
            chunk_len - idx
        } else {
            group_bytes - slot
        };
        let ghost before = spans@;
        spans.push(GroupSpan { chunk_start: idx, chunk_end: idx + l, start_slot: slot });
        assert(spans@ + spans_from(chunk_len as int, line_offset as int, group_bytes as int, (idx + l) as int)
            =~= before + spans_from(chunk_len as int, line_offset as int, group_bytes as int, idx as int));
        idx = idx + l;
    }
    assert(spans@ =~= spans@ + spans_from(chunk_len as int, line_offset as int, group_bytes as int, idx as int));
    spans
}

/// The groups of a row tile it: they are not empty, each starts where the
/// one before ended, the first at 0 and the last ending at the row's end,
/// and none crosses a multiple of the group size in the file.
pub proof fn lemma_spans_tile_row(chunk_len: int, line_offset: int, g: int, idx: int)
    requires
        1 <= g <= usize::MAX,
        0 <= idx <= chunk_len,
        line_offset >= 0,
        line_offset + chunk_len <= usize::MAX,
    ensures
        ({
            let s = spans_from(chunk_len, line_offset, g, idx);
            &&& (s.len() == 0 <==> idx == chunk_len)
            &&& s.len() > 0 ==> s[0].chunk_start == idx && s[s.len() - 1].chunk_end == chunk_len
            &&& forall|i: int| 0 <= i < s.len() ==> {
                &&& idx <= #[trigger] s[i].chunk_start < s[i].chunk_end <= chunk_len
                &&& s[i].start_slot == (line_offset + s[i].chunk_start) % g
                &&& s[i].chunk_end - s[i].chunk_start <= g - s[i].start_slot
                &&& (s[i].chunk_end == chunk_len || (line_offset + s[i].chunk_end) % g == 0)
            }
            &&& forall|i: int| 0 <= i < s.len() - 1 ==> #[trigger] s[i].chunk_end == s[i + 1].chunk_start
        }),
    decreases chunk_len - idx,
{
    if idx < chunk_len {
        let slot = (line_offset + idx) % g;
        let l = if chunk_len - idx < g - slot {
            chunk_len - idx
        } else {
            g - slot
        };
        assert(0 <= slot < g);
        assert(l >= 1);
        lemma_spans_tile_row(chunk_len, line_offset, g, idx + l);
        let rest = spans_from(chunk_len, line_offset, g, idx + l);
        let s = spans_from(chunk_len, line_offset, g, idx);
        let first = GroupSpan {
            chunk_start: idx as usize,
            chunk_end: (idx + l) as usize,
            start_slot: slot as usize,
        };
        assert(first.chunk_start == idx && first.chunk_end == idx + l && first.start_slot == slot);
        assert(s =~= seq![first] + rest);
        assert(s[0] == first);
        if l == g - slot {
            assert((line_offset + idx + l) % g == 0) by {
                vstd::arithmetic::div_mod::lemma_fundamental_div_mod(line_offset + idx, g);
                vstd::arithmetic::div_mod::lemma_mod_multiples_basic((line_offset + idx) / g + 1, g);
                assert(line_offset + idx + l == ((line_offset + idx) / g + 1) * g) by (nonlinear_arith)
                    requires
                        line_offset + idx == g * ((line_offset + idx) / g) + slot,
                        l == g - slot,
                ;
            }
        }
        assert forall|i: int| 0 <= i < s.len() - 1 implies #[trigger] s[i].chunk_end == s[i + 1].chunk_start by {
            if i > 0 {
                assert(s[i] == rest[i - 1]);
                assert(s[i + 1] == rest[i]);
            }
        }
        assert forall|i: int| 0 <= i < s.len() implies {
            &&& idx <= #[trigger] s[i].chunk_start < s[i].chunk_end <= chunk_len
            &&& s[i].start_slot == (line_offset + s[i].chunk_start) % g
            &&& s[i].chunk_end - s[i].chunk_start <= g - s[i].start_slot
            &&& (s[i].chunk_end == chunk_len || (line_offset + s[i].chunk_end) % g == 0)
        } by {
            if i > 0 {
                assert(s[i] == rest[i - 1]);
            }
        }
    }
}

/// A group of the hex column with the place of its text in the row's text.
#[derive(Clone, Copy, Debug, PartialEq, Eq, Structural)]
pub struct HexGroupInfo {
    pub chunk_start: usize,
    pub chunk_end: usize,
    pub start_slot: usize,
    pub text_start: usize,
    pub text_end: usize,
}

/// The text of a hex row and where each group's text stands in it.
pub struct HexTextSource {
    pub text: String,
    pub groups: Vec<HexGroupInfo>,
}

/// The texts joined with single spaces.
pub open spec fn join_spaced(texts: Seq<Seq<char>>) -> Seq<char>
    decreases texts.len(),
{
    if texts.len() == 0 {
        Seq::empty()
    } else if texts.len() == 1 {
        texts[0]
    } else {
        join_spaced(texts.drop_last()) + seq![' '] + texts.last()
    }
}

/// The text of a hex row from the texts of its groups, in order, joined with
/// single spaces, and the place of each group's text in it.
pub fn build_hex_text_source(spans: &Vec<GroupSpan>, group_texts: &Vec<String>) -> (r: HexTextSource)
    requires
        spans@.len() == group_texts@.len(),
        join_spaced(group_texts@.map_values(|t: String| t@)).len() <= usize::MAX,
    ensures
        r.text@ == join_spaced(group_texts@.map_values(|t: String| t@)),
        r.groups@.len() == spans@.len(),
        forall|i: int|
            0 <= i < spans@.len() ==> {
                let gi = #[trigger] r.groups@[i];
                &&& gi.chunk_start == spans@[i].chunk_start
                &&& gi.chunk_end == spans@[i].chunk_end
                &&& gi.start_slot == spans@[i].start_slot
                &&& gi.text_end - gi.text_start == group_texts@[i]@.len()
                &&& r.text@.subrange(gi.text_start as int, gi.text_end as int) == group_texts@[i]@
                &&& gi.text_start == join_spaced(
                    group_texts@.map_values(|t: String| t@).take(i),
                ).len() + (if i > 0 {
                    1int
                } else {
                    0
                })
            },
{
    let ghost all = group_texts@.map_values(|t: String| t@);
    let mut text: Vec<char> = Vec::new();
    let mut groups: Vec<HexGroupInfo> = Vec::new();
    let mut i: usize = 0;
    proof {
        lemma_join_prefix_len(all, 0, all.len() as int);
    }
    while i < spans.len()
        invariant
            i <= spans@.len() == group_texts@.len() == all.len(),
            all == group_texts@.map_values(|t: String| t@),
            join_spaced(all).len() <= usize::MAX,
            text@ == join_spaced(all.take(i as int)),
            groups@.len() == i,
            forall|k: int|
                0 <= k < i ==> {
                    let gi = #[trigger] groups@[k];
                    &&& gi.chunk_start == spans@[k].chunk_start
                    &&& gi.chunk_end == spans@[k].chunk_end
                    &&& gi.start_slot == spans@[k].start_slot
                    &&& gi.text_end - gi.text_start == all[k].len()
                    &&& gi.text_start <= gi.text_end <= text@.len()
                    &&& text@.subrange(gi.text_start as int, gi.text_end as int) == all[k]
                    &&& gi.text_start == join_spaced(all.take(k)).len() + (if k > 0 {
                        1int
                    } else {
                        0
                    })
                },
        decreases spans@.len() - i,
    {
        let ghost before = text@;
        proof {
            lemma_join_prefix_len(all, i as int, all.len() as int);
        }
        if i > 0 {
            text.push(' ');
        }
        let text_start = text.len();
        let piece = crate::text::chars_of(group_texts[i].as_str());
        assert(piece@ == all[i as int]);
        let mut j: usize = 0;
        while j < piece.len()
            invariant
                j <= piece@.len(),
                text_start <= text@.len(),
                text@.len() == text_start + j,
                text@.subrange(0, text_start as int) == before + (if i > 0 {
                    seq![' ']
                } else {
                    Seq::<char>::empty()
                }),
                text@.subrange(text_start as int, text@.len() as int) == piece@.subrange(0, j as int),
                text_start + piece@.len() <= usize::MAX,
            decreases piece@.len() - j,
        {
            let ghost t0 = text@;
            text.push(piece[j]);
            assert(text@.subrange(0, text_start as int) =~= t0.subrange(0, text_start as int));
            assert(text@.subrange(text_start as int, text@.len() as int) =~= piece@.subrange(
                0,
                j + 1,
            ));
            j = j + 1;
        }
        let text_end = text.len();
        proof {
            assert(all.take(i + 1).drop_last() =~= all.take(i as int));
            assert(all.take(i + 1).last() == all[i as int]);
            assert(text@ =~= text@.subrange(0, text_start as int) + text@.subrange(text_start as int, text@.len() as int));
            assert(text@ =~= join_spaced(all.take(i + 1)));
            assert(text@.subrange(0, before.len() as int) =~= before);
            assert forall|k: int| 0 <= k < i implies text@.subrange(
                groups@[k].text_start as int,
                groups@[k].text_end as int,
            ) == all[k] by {
                let gk = groups@[k];
                assert(text@.subrange(gk.text_start as int, gk.text_end as int) =~= text@.subrange(
                    0,
                    before.len() as int,
                ).subrange(gk.text_start as int, gk.text_end as int));
            }
        }
        groups.push(
            HexGroupInfo {
                chunk_start: spans[i].chunk_start,
                chunk_end: spans[i].chunk_end,
                start_slot: spans[i].start_slot,
                text_start,
                text_end,
            },
        );
        i = i + 1;
    }
    assert(all.take(all.len() as int) =~= all);
    HexTextSource { text: string_of(&text), groups }
}

/// Joining a prefix of the texts gives no more characters than joining all.
proof fn lemma_join_prefix_len(all: Seq<Seq<char>>, k: int, n: int)
    requires
        0 <= k <= n == all.len(),
    ensures
        join_spaced(all.take(k)).len() <= join_spaced(all).len(),
        k < n ==> join_spaced(all.take(k)).len() + (if k > 0 {
            1int
        } else {
            0
        }) + all[k].len() <= join_spaced(all).len(),
    decreases n - k,
{
    if k == n {
        assert(all.take(k) =~= all);
    } else {
        let d = all.drop_last();
        assert(d.take(k) =~= all.take(k));
        if k < n - 1 {
            lemma_join_prefix_len(d, k, n - 1);
            assert(d[k] == all[k]);
        } else {
            assert(d =~= all.take(k));
        }
        if n == 1 {
            assert(all.take(0) =~= Seq::<Seq<char>>::empty());
        }
    }
}

/// The lower-case hexadecimal digit of `d` (below 16).
pub open spec fn lower_hex_char(d: nat) -> char {
    if d < 10 {
        digit_char(d)
    } else {
        (d + 87) as char
    }
}

/// Appends the `width` least significant hexadecimal digits of `n`, lower
/// case.
pub fn push_lower_hex_padded(out: &mut Vec<char>, n: u128, width: usize)
    ensures
        final(out)@ == old(out)@ + lower_hex_padded(n as nat, width as nat),
    decreases width,
{
    if width == 0 {
        assert(out@ =~= old(out)@ + lower_hex_padded(n as nat, width as nat));
        return;
    }
    push_lower_hex_padded(out, n / 16, width - 1);
    let d = (n % 16) as u8;
    let c = if d < 10 {
        (48 + d) as char
    } else {
        (87 + d) as char
    };
    out.push(c);
    assert(out@ =~= old(out)@ + lower_hex_padded(n as nat, width as nat));
}

/// `cell` is the UTF-8 character that starts at `offset` of the buffer,
/// with the number of its bytes: none past the buffer or where no
/// well-formed encoding starts.
pub open spec fn is_utf8_cell(buffer: Seq<u8>, offset: int, cell: CharCell) -> bool {
    let s = buffer.subrange(offset, buffer.len() as int);
    match cell {
        None => offset >= buffer.len() || !valid_first_scalar(s),
        Some(p) => offset < buffer.len() && valid_first_scalar(s) && p.0 as u32 == decode_first_scalar(s)
            && p.1 == length_of_first_scalar(s),
    }
}

/// No character starts inside another: the bytes of a UTF-8 character after
/// its first are continuation bytes, and no character starts at them (so a
/// row that begins inside a character shows nothing for those bytes).
pub proof fn lemma_continuation_starts_nothing(buffer: Seq<u8>, p: int, q: int)
    requires
        0 <= p < buffer.len(),
        valid_first_scalar(buffer.subrange(p, buffer.len() as int)),
        p < q < p + length_of_first_scalar(buffer.subrange(p, buffer.len() as int)),
    ensures
        is_utf8_cell(buffer, q, None),
{
    let s = buffer.subrange(p, buffer.len() as int);
    let t = buffer.subrange(q, buffer.len() as int);
    assert(t[0] == s[q - p]);
}

/// The UTF-8 character that starts at each byte of the row of `row_len`
/// bytes at `row_offset`.
pub fn utf8_cells(buffer: &[u8], row_offset: usize, row_len: usize) -> (cells: Vec<CharCell>)
    requires
        row_offset + row_len <= usize::MAX,
    ensures
        cells@.len() == row_len,
        forall|k: int| 0 <= k < row_len ==> is_utf8_cell(buffer@, row_offset + k, #[trigger] cells@[k]),
        forall|k: int| 0 <= k < row_len ==> (#[trigger] cells@[k] matches Some(p) ==> 1 <= p.1 <= 4),
{
    let mut cells: Vec<CharCell> = Vec::new();
    let mut k: usize = 0;
    while k < row_len
        invariant
            k <= row_len,
            row_offset + row_len <= usize::MAX,
            cells@.len() == k,
            forall|i: int| 0 <= i < k ==> is_utf8_cell(buffer@, row_offset + i, #[trigger] cells@[i]),
            forall|i: int| 0 <= i < k ==> (#[trigger] cells@[i] matches Some(p) ==> 1 <= p.1 <= 4),
        decreases row_len - k,
    {
        let at = row_offset + k;
        let cell = if at < buffer.len() {
            let d = decode_utf8_at(buffer, at);
            proof {
                let s = buffer@.subrange(at as int, buffer@.len() as int);
                if d is Some {
                    assert(length_of_first_scalar(s) <= 4);
                }
            }
            d
        } else {
            None
        };
        cells.push(cell);
        k = k + 1;
    }
    cells
}

/// Checks the character column and the auto-fit range on the cases the
/// hex view relies on: the three UTF-8 bytes of the euro sign at the start
/// of a two-byte row show the sign, with its three bytes, in the row's last
/// cell; a row that starts inside the character shows nothing; the scan
/// window of a large file is `AUTO_FIT_SCAN_BYTES` long and holds the
/// viewport; a small file is scanned whole; and near the end of a large
/// file the window ends at the file's end. Tells whether all of these hold.
pub fn check_character_mapping_and_auto_fit() -> (ok: bool)
    ensures
        ok,
{
    let mut buffer: Vec<u8> = Vec::new();
    buffer.push(0xE2);
    buffer.push(0x82);
    buffer.push(0xAC);
    let cells = utf8_cells(buffer.as_slice(), 0, 2);
    let map = build_ascii_char_map(&cells, true, 2);
    let cells2 = utf8_cells(buffer.as_slice(), 1, 2);
    let map2 = build_ascii_char_map(&cells2, true, 2);
    proof {
        let b = buffer@;
        assert(b =~= seq![0xE2u8, 0x82u8, 0xACu8]);
        assert(b.subrange(0, 3) =~= seq![0xE2u8, 0x82u8, 0xACu8]);
        assert(b.subrange(1, 3) =~= seq![0x82u8, 0xACu8]);
        assert(b.subrange(2, 3) =~= seq![0xACu8]);
        assert(vstd::utf8::codepoint_width_3(0xE2u8, 0x82u8, 0xACu8) == 0x20ACu32) by (bit_vector);
        assert(valid_first_scalar(b.subrange(0, 3)));
        assert(decode_first_scalar(b.subrange(0, 3)) == 0x20AC);
        assert(length_of_first_scalar(b.subrange(0, 3)) == 3);
        assert(!valid_first_scalar(b.subrange(1, 3)));
        assert(!valid_first_scalar(b.subrange(2, 3)));
        assert(is_utf8_cell(b, 0, cells@[0]));
        assert(is_utf8_cell(b, 1, cells@[1]));
        assert(is_utf8_cell(b, 1, cells2@[0]));
        assert(is_utf8_cell(b, 2, cells2@[1]));
        assert(cells@[0] is Some);
        assert(cells@[0].unwrap().0 as u32 == 0x20AC);
        assert(cells@[1] is None);
        reveal_with_fuel(char_map_from, 4);
    }
    let first_ok = match (map[0], map[1]) {
        (None, Some((c, l))) => c as u32 == 0x20AC && l == 3,
        _ => false,
    };
    let second_ok = match (map2[0], map2[1]) {
        (None, None) => true,
        _ => false,
    };
    let range = bounded_auto_fit_range(1024 * 1024, 500000, 500512);
    let small = bounded_auto_fit_range(1024, 100, 200);
    let range_eof = bounded_auto_fit_range(1024 * 1024, 1020000, 1020512);
    first_ok && second_ok && range.end - range.start == AUTO_FIT_SCAN_BYTES && range.start <= 500000
        && range.end >= 500512 && small.start == 0 && small.end == 1024 && range_eof.end == 1024 * 1024
        && range_eof.start <= 1020000 && range_eof.end - range_eof.start == AUTO_FIT_SCAN_BYTES
}

/// The bytes a copy takes: none from an empty file; the selection when
/// there is one; else the byte under the cursor, kept within the file. Given
/// as the first offset and the number of bytes.
pub fn copy_span(total: usize, selected: Option<Range<usize>>, cursor_offset: usize) -> (r: Option<(usize, usize)>)
    ensures
        total == 0 ==> r is None,
        total > 0 ==> r == Some(
            match selected {
                Some(s) => (s.start, if s.end > s.start {
                    (s.end - s.start) as usize
                } else {
                    0usize
                }),
                None => (if cursor_offset < total - 1 {
                    cursor_offset
                } else {
                    (total - 1) as usize
                }, 1usize),
            },
        ),
{
    if total == 0 {
        return None;
    }
    match selected {
        Some(s) => Some((s.start, s.end.saturating_sub(s.start))),
        None => {
            let last = total - 1;
            let off = if cursor_offset < last {
                cursor_offset
            } else {
                last
            };
            Some((off, 1))
        },
    }
}

/// Whether `breaks` holds `offset`.
fn holds_break(breaks: &Vec<usize>, offset: usize) -> (r: bool)
    ensures
        r == breaks@.contains(offset),
{
    let mut i: usize = 0;
    while i < breaks.len()
        invariant
            i <= breaks@.len(),
            forall|j: int| 0 <= j < i ==> breaks@[j] != offset,
        decreases breaks@.len() - i,
    {
        if breaks[i] == offset {
            return true;
        }
        i = i + 1;
    }
    false
}

/// The custom line break that Enter adds at the cursor: one at the cursor,
/// never at the very start of the file.
pub fn break_to_add(cursor_offset: usize) -> (r: Option<usize>)
    ensures
        r == (if cursor_offset > 0 {
            Some(cursor_offset)
        } else {
            None::<usize>
        }),
        r != Some(0usize),
{
    if cursor_offset > 0 {
        Some(cursor_offset)
    } else {
        None
    }
}

/// The custom line break removed backward from the cursor, among the file's
/// `breaks`: the one just before the cursor, if there is one.
pub fn break_to_remove_backward(cursor_offset: usize, breaks: &Vec<usize>) -> (r: Option<usize>)
    ensures
        r == (if cursor_offset > 0 && breaks@.contains((cursor_offset - 1) as usize) {
            Some((cursor_offset - 1) as usize)
        } else {
            None::<usize>
        }),
{
    if cursor_offset > 0 && holds_break(breaks, cursor_offset - 1) {
        Some(cursor_offset - 1)
    } else {
        None
    }
}

/// The custom line break removed forward from the cursor, among the file's
/// `breaks`: the one at the cursor, if there is one.
pub fn break_to_remove_forward(cursor_offset: usize, breaks: &Vec<usize>) -> (r: Option<usize>)
    ensures
        r == (if breaks@.contains(cursor_offset) {
            Some(cursor_offset)
        } else {
            None::<usize>
        }),
{
    if holds_break(breaks, cursor_offset) {
        Some(cursor_offset)
    } else {
        None
    }
}

} // verus!
