//! Integers stored in bytes, in either byte order, and their two's
//! complement reading.
use vstd::prelude::*;
use crate::numtext::power;

verus! {

/// The value of bytes read least significant first.
pub open spec fn le_value(b: Seq<u8>) -> nat
    decreases b.len(),
{
    if b.len() == 0 {
        0
    } else {
        b[0] as nat + 256 * le_value(b.drop_first())
    }
}

/// The `n` bytes of `v`, least significant first (`v` taken modulo 256^n).
pub open spec fn le_bytes(v: nat, n: nat) -> Seq<u8>
    decreases n,
{
    if n == 0 {
        Seq::empty()
    } else {
        seq![(v % 256) as u8] + le_bytes(v / 256, (n - 1) as nat)
    }
}

/// The unsigned value of `b` in the given byte order.
pub open spec fn read_unsigned(b: Seq<u8>, big_endian: bool) -> nat {
    if big_endian {
        le_value(b.reverse())
    } else {
        le_value(b)
    }
}

/// The `n` bytes of `v` in the given byte order.
pub open spec fn write_unsigned(v: nat, n: nat, big_endian: bool) -> Seq<u8> {
    if big_endian {
        le_bytes(v, n).reverse()
    } else {
        le_bytes(v, n)
    }
}

/// The two's complement reading of the `n`-byte unsigned value `u`.
pub open spec fn to_signed(u: nat, n: nat) -> int {
    if 2 * u >= power(256, n) {
        u - power(256, n)
    } else {
        u as int
    }
}

/// The `n`-byte two's complement pattern of `i`, as an unsigned value.
pub open spec fn to_unsigned(i: int, n: nat) -> nat {
    if i < 0 {
        (i + power(256, n)) as nat
    } else {
        i as nat
    }
}

/// A byte string's value is below 256 to the power of its length.
pub proof fn lemma_le_value_bound(b: Seq<u8>)
    ensures
        le_value(b) < power(256, b.len()),
    decreases b.len(),
{
    if b.len() > 0 {
        lemma_le_value_bound(b.drop_first());
        let r = le_value(b.drop_first());
        let p = power(256, (b.len() - 1) as nat);
        assert(b[0] as nat + 256 * r < 256 * p) by (nonlinear_arith)
            requires
                r < p,
                b[0] < 256,
        ;
    }
}

/// Writing then reading gives back the value, when it fits.
pub proof fn lemma_le_bytes_value(v: nat, n: nat)
    requires
        v < power(256, n),
    ensures
        le_bytes(v, n).len() == n,
        le_value(le_bytes(v, n)) == v,
    decreases n,
{
    if n > 0 {
        let p = power(256, (n - 1) as nat);
        assert(v / 256 < p) by (nonlinear_arith)
            requires
                v < 256 * p,
        ;
        lemma_le_bytes_value(v / 256, (n - 1) as nat);
        let b = le_bytes(v, n);
        assert(b.drop_first() =~= le_bytes(v / 256, (n - 1) as nat));
    }
}

/// Reading then writing gives back the bytes.
pub proof fn lemma_le_value_bytes(b: Seq<u8>)
    ensures
        le_bytes(le_value(b), b.len()) == b,
    decreases b.len(),
{
    if b.len() > 0 {
        let r = le_value(b.drop_first());
        let v = le_value(b);
        assert(v % 256 == b[0] as nat && v / 256 == r) by (nonlinear_arith)
            requires
                v == b[0] as nat + 256 * r,
                b[0] < 256,
        ;
        lemma_le_value_bytes(b.drop_first());
        assert(le_bytes(v, b.len()) =~= b);
    }
}

/// The reversal of a reversal.
pub proof fn lemma_reverse_reverse(s: Seq<u8>)
    ensures
        s.reverse().reverse() == s,
{
    assert(s.reverse().reverse() =~= s);
}

/// Writing then reading in one byte order gives back the value.
pub proof fn lemma_write_read(v: nat, n: nat, big_endian: bool)
    requires
        v < power(256, n),
    ensures
        write_unsigned(v, n, big_endian).len() == n,
        read_unsigned(write_unsigned(v, n, big_endian), big_endian) == v,
{
    lemma_le_bytes_value(v, n);
    lemma_reverse_reverse(le_bytes(v, n));
}

/// Reading then writing in one byte order gives back the bytes.
pub proof fn lemma_read_write(b: Seq<u8>, big_endian: bool)
    ensures
        read_unsigned(b, big_endian) < power(256, b.len()),
        write_unsigned(read_unsigned(b, big_endian), b.len(), big_endian) == b,
{
    if big_endian {
        lemma_le_value_bound(b.reverse());
        lemma_le_value_bytes(b.reverse());
        lemma_reverse_reverse(b);
    } else {
        lemma_le_value_bound(b);
        lemma_le_value_bytes(b);
    }
}

/// The two's complement reading and pattern undo each other.
pub proof fn lemma_signed_round_trip(u: nat, n: nat)
    requires
        u < power(256, n),
    ensures
        to_unsigned(to_signed(u, n), n) == u,
        -power(256, n) <= 2 * to_signed(u, n) < power(256, n),
{
}

/// Powers of 256 for the widths of integer fields.
pub proof fn lemma_power_256_values()
    ensures
        power(256, 1) == 0x100,
        power(256, 2) == 0x1_0000,
        power(256, 4) == 0x1_0000_0000,
        power(256, 8) == 0x1_0000_0000_0000_0000,
{
    reveal_with_fuel(power, 9);
}

/// One byte more at the low end: the step of a little-endian read.
proof fn lemma_le_value_step(b: Seq<u8>, i: int, n: int)
    requires
        0 <= i < n <= b.len(),
    ensures
        le_value(b.subrange(i, n)) == b[i] as nat + 256 * le_value(b.subrange(i + 1, n)),
{
    assert(b.subrange(i, n).drop_first() =~= b.subrange(i + 1, n));
}

/// One byte more at the high end: the step of a big-endian read.
proof fn lemma_be_value_step(b: Seq<u8>, i: int)
    requires
        0 <= i < b.len(),
    ensures
        le_value(b.subrange(0, i + 1).reverse()) == b[i] as nat + 256 * le_value(
            b.subrange(0, i).reverse(),
        ),
{
    let r = b.subrange(0, i + 1).reverse();
    assert(r.drop_first() =~= b.subrange(0, i).reverse());
    assert(r[0] == b[i]);
}

/// Reads the first `n` bytes (at most 8) as an unsigned value.
pub fn read_unsigned_exec(bytes: &[u8], n: usize, big_endian: bool) -> (v: u64)
    requires
        n <= 8,
        n <= bytes@.len(),
    ensures
        v as nat == read_unsigned(bytes@.subrange(0, n as int), big_endian),
{
    proof {
        lemma_power_256_values();
    }
    let ghost b = bytes@.subrange(0, n as int);
    let mut acc: u128 = 0;
    if big_endian {
        let mut i: usize = 0;
        assert(b.subrange(0, 0).reverse() =~= Seq::<u8>::empty());
        while i < n
            invariant
                i <= n <= 8,
                n <= bytes@.len(),
                b == bytes@.subrange(0, n as int),
                acc as nat == le_value(b.subrange(0, i as int).reverse()),
                acc < power(256, i as nat),
                power(256, 8) == 0x1_0000_0000_0000_0000,
            decreases n - i,
        {
            proof {
                lemma_be_value_step(b, i as int);
                lemma_power_monotone(256, i as nat, 8);
            }
            let x = bytes[i];
            assert(x as nat + 256 * acc < 256 * power(256, i as nat)) by (nonlinear_arith)
                requires
                    acc < power(256, i as nat),
                    x < 256,
            ;
            acc = (x as u128) + 256 * acc;
            i = i + 1;
        }
        assert(b.subrange(0, n as int) =~= b);
    } else {
        let mut i: usize = n;
        assert(b.subrange(n as int, n as int) =~= Seq::<u8>::empty());
        while i > 0
            invariant
                i <= n <= 8,
                n <= bytes@.len(),
                b == bytes@.subrange(0, n as int),
                acc as nat == le_value(b.subrange(i as int, n as int)),
                acc < power(256, (n - i) as nat),
                power(256, 8) == 0x1_0000_0000_0000_0000,
            decreases i,
        {
            proof {
                lemma_le_value_step(b, i - 1, n as int);
                lemma_power_monotone(256, (n - i) as nat, 8);
            }
            let x = bytes[i - 1];
            assert(x as nat + 256 * acc < 256 * power(256, (n - i) as nat)) by (nonlinear_arith)
                requires
                    acc < power(256, (n - i) as nat),
                    x < 256,
            ;
            acc = (x as u128) + 256 * acc;
            i = i - 1;
        }
        assert(b.subrange(0, n as int) =~= b);
    }
    proof {
        lemma_power_monotone(256, n as nat, 8);
    }
    acc as u64
}

/// Powers of a positive base are positive.
pub proof fn lemma_power_positive(base: nat, a: nat)
    requires
        base >= 1,
    ensures
        power(base, a) >= 1,
    decreases a,
{
    if a > 0 {
        lemma_power_positive(base, (a - 1) as nat);
        assert(base * power(base, (a - 1) as nat) >= 1) by (nonlinear_arith)
            requires
                base >= 1,
                power(base, (a - 1) as nat) >= 1,
        ;
    }
}

/// Larger exponents give larger powers.
pub proof fn lemma_power_monotone(base: nat, a: nat, b: nat)
    requires
        base >= 1,
        a <= b,
    ensures
        power(base, a) <= power(base, b),
        power(base, a) >= 1,
    decreases b,
{
    lemma_power_positive(base, a);
    if a < b {
        lemma_power_monotone(base, a, (b - 1) as nat);
        let p = power(base, (b - 1) as nat);
        assert(p <= base * p) by (nonlinear_arith)
            requires
                base >= 1,
                p >= 1,
        ;
    }
}

/// `le_bytes` writes exactly `n` bytes.
pub proof fn lemma_le_bytes_len(v: nat, n: nat)
    ensures
        le_bytes(v, n).len() == n,
    decreases n,
{
    if n > 0 {
        lemma_le_bytes_len(v / 256, (n - 1) as nat);
    }
}

/// The `n` bytes of `v` in the given byte order.
pub fn write_unsigned_exec(v: u64, n: usize, big_endian: bool) -> (out: Vec<u8>)
    requires
        n <= 8,
    ensures
        out@ == write_unsigned(v as nat, n as nat, big_endian),
{
    let mut le: Vec<u8> = Vec::new();
    let mut cur = v;
    let mut i: usize = 0;
    while i < n
        invariant
            i <= n,
            le@ + le_bytes(cur as nat, (n - i) as nat) == le_bytes(v as nat, n as nat),
        decreases n - i,
    {
        let ghost before = le@;
        le.push((cur % 256) as u8);
        proof {
            let k = (n - i) as nat;
            assert(le_bytes(cur as nat, k) =~= seq![(cur % 256) as u8] + le_bytes(
                (cur / 256) as nat,
                (k - 1) as nat,
            ));
            assert(le@ + le_bytes((cur / 256) as nat, (k - 1) as nat) =~= before + le_bytes(
                cur as nat,
                k,
            ));
        }
        cur = cur / 256;
        i = i + 1;
    }
    assert(le@ =~= le_bytes(v as nat, n as nat));
    proof {
        lemma_le_bytes_len(v as nat, n as nat);
    }
    if !big_endian {
        return le;
    }
    let mut out: Vec<u8> = Vec::new();
    let mut j: usize = 0;
    while j < n
        invariant
            j <= n,
            le@.len() == n,
            out@ =~= le@.reverse().subrange(0, j as int),
        decreases n - j,
    {
        out.push(le[n - 1 - j]);
        j = j + 1;
    }
    assert(out@ =~= le@.reverse());
    out
}

/// The number that bytes spell most significant first, as digits of base 256
/// are written.
pub open spec fn be_number(b: Seq<u8>) -> nat
    decreases b.len(),
{
    if b.len() == 0 {
        0
    } else {
        256 * be_number(b.drop_last()) + b.last() as nat
    }
}

/// Big-endian bytes are read most significant first, little-endian bytes
/// least significant first (the reversed bytes, most significant first).
pub proof fn lemma_read_unsigned_orders(b: Seq<u8>)
    ensures
        read_unsigned(b, true) == be_number(b),
        read_unsigned(b, false) == be_number(b.reverse()),
    decreases b.len(),
{
    if b.len() > 0 {
        lemma_read_unsigned_orders(b.drop_last());
        assert(b.reverse().drop_first() =~= b.drop_last().reverse());
        assert(b.reverse()[0] == b.last());
    }
    lemma_reverse_reverse(b);
    if b.len() > 0 {
        let r = b.reverse();
        lemma_read_unsigned_orders(r.drop_last());
        assert(r.reverse().drop_first() =~= r.drop_last().reverse());
        assert(r.reverse()[0] == r.last());
    }
}

/// Two bytes: big-endian, the first is the high byte; little-endian, the
/// second is.
pub proof fn lemma_read_two(b: Seq<u8>)
    requires
        b.len() == 2,
    ensures
        read_unsigned(b, true) == 256 * b[0] + b[1],
        read_unsigned(b, false) == 256 * b[1] + b[0],
{
    lemma_read_unsigned_orders(b);
    let r = b.reverse();
    assert(be_number(b.drop_last().drop_last()) == 0);
    assert(be_number(b.drop_last()) == b[0]);
    assert(be_number(b) == 256 * b[0] + b[1]);
    assert(be_number(r.drop_last().drop_last()) == 0);
    assert(be_number(r.drop_last()) == b[1]);
    assert(be_number(r) == 256 * b[1] + b[0]);
}

} // verus!
