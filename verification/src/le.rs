//! Little-endian integers in byte sequences.

use vstd::prelude::*;

verus! {

/// 256 to the power `n`.
pub open spec fn pow256(n: nat) -> nat
    decreases n,
{
    if n == 0 {
        1
    } else {
        256 * pow256((n - 1) as nat)
    }
}

/// The `n` little-endian bytes of `x` (the low `8 * n` bits of it).
pub open spec fn le_bytes(x: nat, n: nat) -> Seq<u8>
    decreases n,
{
    if n == 0 {
        Seq::empty()
    } else {
        seq![(x % 256) as u8] + le_bytes(x / 256, (n - 1) as nat)
    }
}

/// The number that a little-endian byte sequence spells.
pub open spec fn le_value(s: Seq<u8>) -> nat
    decreases s.len(),
{
    if s.len() == 0 {
        0
    } else {
        s[0] as nat + 256 * le_value(s.skip(1))
    }
}

pub broadcast proof fn le_bytes_len(x: nat, n: nat)
    ensures
        (#[trigger] le_bytes(x, n)).len() == n,
    decreases n,
{
    if n > 0 {
        le_bytes_len(x / 256, (n - 1) as nat);
    }
}

/// Reading back the bytes of a number gives the number, as long as it fits.
pub proof fn le_round_trip(x: nat, n: nat)
    requires
        x < pow256(n),
    ensures
        le_value(le_bytes(x, n)) == x,
        le_bytes(x, n).len() == n,
    decreases n,
{
    if n > 0 {
        le_round_trip(x / 256, (n - 1) as nat);
        let s = le_bytes(x, n);
        assert(s.skip(1) =~= le_bytes(x / 256, (n - 1) as nat));
    }
}

/// A number read from `n` bytes is below `256^n`, and writing it gives the
/// same bytes.
pub proof fn le_value_round_trip(s: Seq<u8>)
    ensures
        le_value(s) < pow256(s.len()),
        le_bytes(le_value(s), s.len()) == s,
    decreases s.len(),
{
    if s.len() > 0 {
        le_value_round_trip(s.skip(1));
        let v = le_value(s);
        assert(v % 256 == s[0] as nat);
        assert(v / 256 == le_value(s.skip(1)));
        assert(le_bytes(v, s.len()) =~= seq![s[0]] + s.skip(1));
        assert(s =~= seq![s[0]] + s.skip(1));
    } else {
        assert(le_bytes(0, 0) =~= s);
    }
}

pub proof fn pow256_values()
    ensures
        pow256(0) == 1,
        pow256(1) == 0x100,
        pow256(2) == 0x1_0000,
        pow256(4) == 0x1_0000_0000,
        pow256(8) == 0x1_0000_0000_0000_0000,
{
    reveal_with_fuel(pow256, 9);
}

/// Read the little-endian `u16` at `at`.
pub fn get_u16(data: &[u8], at: usize) -> (r: u16)
    requires
        at + 2 <= data@.len(),
    ensures
        r as nat == le_value(data@.subrange(at as int, at + 2)),
{
    proof {
        let s = data@.subrange(at as int, at + 2);
        reveal_with_fuel(le_value, 3);
        assert(s.skip(1)[0] == s[1]);
        assert(s.skip(1).skip(1).len() == 0);
    }
    data[at] as u16 + 256 * (data[at + 1] as u16)
}

/// Read the little-endian `u32` at `at`.
pub fn get_u32(data: &[u8], at: usize) -> (r: u32)
    requires
        at + 4 <= data@.len(),
    ensures
        r as nat == le_value(data@.subrange(at as int, at + 4)),
{
    assert(data@.len() == data.len());
    let lo = get_u16(data, at) as u32;
    let hi = get_u16(data, at + 2) as u32;
    proof {
        le_value_concat(data@.subrange(at as int, at + 2), data@.subrange(at + 2, at + 4));
        assert(data@.subrange(at as int, at + 2) + data@.subrange(at + 2, at + 4)
            =~= data@.subrange(at as int, at + 4));
        pow256_values();
    }
    lo + 0x1_0000 * hi
}

/// Read the little-endian `u64` at `at`.
pub fn get_u64(data: &[u8], at: usize) -> (r: u64)
    requires
        at + 8 <= data@.len(),
    ensures
        r as nat == le_value(data@.subrange(at as int, at + 8)),
{
    assert(data@.len() == data.len());
    let lo = get_u32(data, at) as u64;
    let hi = get_u32(data, at + 4) as u64;
    proof {
        le_value_concat(data@.subrange(at as int, at + 4), data@.subrange(at + 4, at + 8));
        assert(data@.subrange(at as int, at + 4) + data@.subrange(at + 4, at + 8)
            =~= data@.subrange(at as int, at + 8));
        pow256_values();
    }
    lo + 0x1_0000_0000 * hi
}

/// The value of a concatenation.
pub proof fn le_value_concat(a: Seq<u8>, b: Seq<u8>)
    ensures
        le_value(a + b) == le_value(a) + pow256(a.len()) * le_value(b),
    decreases a.len(),
{
    if a.len() == 0 {
        assert(a + b =~= b);
        assert(pow256(0) * le_value(b) == le_value(b)) by (nonlinear_arith)
            requires
                pow256(0) == 1,
        ;
    } else {
        assert((a + b).skip(1) =~= a.skip(1) + b);
        le_value_concat(a.skip(1), b);
        let p = pow256((a.len() - 1) as nat);
        let v = le_value(b);
        assert(256 * (le_value(a.skip(1)) + p * v) == 256 * le_value(a.skip(1)) + (256 * p) * v)
            by (nonlinear_arith);
    }
}

/// Append the little-endian bytes of a `u16`.
pub fn push_u16(out: &mut Vec<u8>, x: u16)
    ensures
        final(out)@ == old(out)@ + le_bytes(x as nat, 2),
{
    out.push((x % 256) as u8);
    out.push((x / 256) as u8);
    proof {
        reveal_with_fuel(le_bytes, 3);
        assert((x / 256) % 256 == x / 256);
        assert(out@ =~= old(out)@ + le_bytes(x as nat, 2));
    }
}

/// The bytes of a number split at byte `n`.
pub proof fn le_bytes_split(x: nat, n: nat, m: nat)
    ensures
        le_bytes(x, n + m) == le_bytes(x, n) + le_bytes(x / pow256(n), m),
    decreases n,
{
    if n == 0 {
        assert(x / 1 == x);
        assert(le_bytes(x, 0) + le_bytes(x, m) =~= le_bytes(x, m));
    } else {
        let k = (n - 1) as nat;
        le_bytes_split(x / 256, k, m);
        assert(pow256(k) > 0) by {
            pow256_positive(k);
        }
        vstd::arithmetic::div_mod::lemma_div_denominator(x as int, 256, pow256(k) as int);
        assert(le_bytes(x, n + m) =~= seq![(x % 256) as u8] + (le_bytes(x / 256, k) + le_bytes(
            (x / 256) / pow256(k),
            m,
        )));
        assert(le_bytes(x, n) + le_bytes(x / pow256(n), m) =~= seq![(x % 256) as u8] + (le_bytes(
            x / 256,
            k,
        ) + le_bytes((x / 256) / pow256(k), m)));
    }
}

pub proof fn pow256_positive(n: nat)
    ensures
        pow256(n) > 0,
    decreases n,
{
    if n > 0 {
        pow256_positive((n - 1) as nat);
    }
}

/// Only the low `8 * n` bits matter.
pub proof fn le_bytes_truncates(x: nat, n: nat)
    ensures
        le_bytes(x, n) == le_bytes(x % pow256(n), n),
    decreases n,
{
    pow256_positive(n);
    if n > 0 {
        let k = (n - 1) as nat;
        pow256_positive(k);
        let y = x % pow256(n);
        vstd::arithmetic::div_mod::lemma_mod_breakdown(x as int, 256, pow256(k) as int);
        assert(y == 256 * ((x / 256) % pow256(k)) + x % 256);
        le_bytes_truncates(x / 256, k);
        assert(y % 256 == x % 256);
        assert(y / 256 == (x / 256) % pow256(k));
    }
}

/// Append the little-endian bytes of a `u32`.
pub fn push_u32(out: &mut Vec<u8>, x: u32)
    ensures
        final(out)@ == old(out)@ + le_bytes(x as nat, 4),
{
    push_u16(out, (x % 0x1_0000) as u16);
    push_u16(out, (x / 0x1_0000) as u16);
    proof {
        pow256_values();
        le_bytes_split(x as nat, 2, 2);
        le_bytes_truncates(x as nat, 2);
        assert(out@ =~= old(out)@ + le_bytes(x as nat, 4));
    }
}

/// Append the little-endian bytes of a `u64`.
pub fn push_u64(out: &mut Vec<u8>, x: u64)
    ensures
        final(out)@ == old(out)@ + le_bytes(x as nat, 8),
{
    push_u32(out, (x % 0x1_0000_0000) as u32);
    push_u32(out, (x / 0x1_0000_0000) as u32);
    proof {
        pow256_values();
        le_bytes_split(x as nat, 4, 4);
        le_bytes_truncates(x as nat, 4);
        assert(out@ =~= old(out)@ + le_bytes(x as nat, 8));
    }
}

/// The bytes of a number stand in little-endian order: byte `i` is worth 256 to
/// the power `i`.
pub proof fn low_bytes_come_first(x: nat, n: nat, i: nat)
    requires
        i < n,
    ensures
        le_bytes(x, n)[i as int] == (x / pow256(i)) % 256,
    decreases n,
{
    le_bytes_len(x, n);
    if i == 0 {
        assert(pow256(0) == 1);
        assert(x / 1 == x);
    } else {
        assert(pow256(i) == 256 * pow256((i - 1) as nat));
        low_bytes_come_first(x / 256, (n - 1) as nat, (i - 1) as nat);
        le_bytes_len(x / 256, (n - 1) as nat);
        pow256_positive((i - 1) as nat);
        vstd::arithmetic::div_mod::lemma_div_denominator(
            x as int,
            256,
            pow256((i - 1) as nat) as int,
        );
        assert(le_bytes(x, n)[i as int] == le_bytes(x / 256, (n - 1) as nat)[i - 1]);
    }
}

} // verus!
