//! Text from raw bytes.

use vstd::prelude::*;
use vstd::utf8::{
    decode_utf8, encode_utf8, encode_utf8_decode_utf8, encode_utf8_valid_utf8, valid_utf8,
};

verus! {

/// What `String::from_utf8_lossy` makes of bytes that are not valid UTF-8.
pub uninterp spec fn lossy_text(bytes: Seq<u8>) -> Seq<char>;

/// The text of `bytes`: the decoded characters where the bytes are valid
/// UTF-8, the standard library's lossy reading where they are not.
pub open spec fn text_of(bytes: Seq<u8>) -> Seq<char> {
    if valid_utf8(bytes) {
        decode_utf8(bytes)
    } else {
        lossy_text(bytes)
    }
}

/// Calls `String::from_utf8_lossy` and takes ownership of the result. Claims
/// that valid UTF-8 is decoded as it stands, and that the replacement text for
/// anything else depends on the bytes alone; which characters that text holds
/// is left unsaid.
#[verifier::external_body]
pub(crate) fn utf8_lossy(bytes: &[u8]) -> (r: String)
    ensures
        r@ == (if valid_utf8(bytes@) {
            decode_utf8(bytes@)
        } else {
            lossy_text(bytes@)
        }),
{
    String::from_utf8_lossy(bytes).into_owned()
}

/// `String::push_str` appends the characters of its argument.
pub assume_specification[ String::push_str ](s: &mut String, string: &str)
    ensures
        final(s)@ == old(s)@ + string@,
;

/// Length of a text in bytes.
pub fn byte_len(s: &str) -> (r: usize)
    ensures
        r == encode_utf8(s@).len(),
{
    s.as_bytes().len()
}

/// The bytes of a text read back as that text.
pub proof fn text_round_trip(s: Seq<char>)
    ensures
        text_of(encode_utf8(s)) == s,
{
    encode_utf8_valid_utf8(s);
    encode_utf8_decode_utf8(s);
}

/// The character of one digit, in lower case above nine.
pub open spec fn digit(d: nat) -> char {
    if d < 10 {
        ('0' as int + d) as char
    } else {
        ('a' as int + (d - 10)) as char
    }
}

/// A number written in decimal, without leading zeros.
pub open spec fn decimal(n: nat) -> Seq<char>
    decreases n,
{
    if n < 10 {
        seq![digit(n)]
    } else {
        decimal(n / 10).push(digit(n % 10))
    }
}

/// The last `width` hexadecimal digits of a number, most significant first.
pub open spec fn hex(n: nat, width: nat) -> Seq<char>
    decreases width,
{
    if width == 0 {
        Seq::empty()
    } else {
        hex(n / 16, (width - 1) as nat).push(digit(n % 16))
    }
}

/// Appends one digit.
pub fn push_digit(s: &mut String, d: u64)
    requires
        d < 16,
    ensures
        final(s)@ == old(s)@.push(digit(d as nat)),
{
    proof {
        reveal_strlit("0");
        reveal_strlit("1");
        reveal_strlit("2");
        reveal_strlit("3");
        reveal_strlit("4");
        reveal_strlit("5");
        reveal_strlit("6");
        reveal_strlit("7");
        reveal_strlit("8");
        reveal_strlit("9");
        reveal_strlit("a");
        reveal_strlit("b");
        reveal_strlit("c");
        reveal_strlit("d");
        reveal_strlit("e");
        reveal_strlit("f");
    }
    let t: &str = match d {
        0 => "0",
        1 => "1",
        2 => "2",
        3 => "3",
        4 => "4",
        5 => "5",
        6 => "6",
        7 => "7",
        8 => "8",
        9 => "9",
        10 => "a",
        11 => "b",
        12 => "c",
        13 => "d",
        14 => "e",
        _ => "f",
    };
    assert(t@ =~= seq![digit(d as nat)]);
    s.push_str(t);
    assert(s@ =~= old(s)@.push(digit(d as nat)));
}

/// Appends a number in decimal.
pub fn push_decimal(s: &mut String, n: u64)
    ensures
        final(s)@ == old(s)@ + decimal(n as nat),
    decreases n,
{
    if n >= 10 {
        push_decimal(s, n / 10);
    }
    push_digit(s, n % 10);
    assert(s@ =~= old(s)@ + decimal(n as nat));
}

/// Appends the last `width` hexadecimal digits of a number.
pub fn push_hex(s: &mut String, n: u64, width: u8)
    ensures
        final(s)@ == old(s)@ + hex(n as nat, width as nat),
    decreases width,
{
    if width > 0 {
        push_hex(s, n / 16, width - 1);
        push_digit(s, n % 16);
    }
    assert(s@ =~= old(s)@ + hex(n as nat, width as nat));
}

/// A digit of a decimal numeral.
pub proof fn decimal_digits(n: nat, i: int)
    requires
        0 <= i < decimal(n).len(),
    ensures
        '0' <= decimal(n)[i] <= '9',
    decreases n,
{
    if n >= 10 && i < decimal(n / 10).len() {
        decimal_digits(n / 10, i);
    }
}

/// Different numbers are written differently.
pub proof fn decimal_injective(m: nat, n: nat)
    requires
        decimal(m) == decimal(n),
    ensures
        m == n,
    decreases m,
{
    let a = decimal(m);
    let b = decimal(n);
    decimal_nonempty(m / 10);
    decimal_nonempty(n / 10);
    assert(a.last() == digit(m % 10));
    assert(b.last() == digit(n % 10));
    assert(digit(m % 10) as int == '0' as int + m % 10);
    assert(digit(n % 10) as int == '0' as int + n % 10);
    assert(a.len() == b.len());
    if m >= 10 && n >= 10 {
        assert(a.drop_last() =~= decimal(m / 10));
        assert(b.drop_last() =~= decimal(n / 10));
        decimal_injective(m / 10, n / 10);
    }
}

/// Every number has at least one digit.
pub proof fn decimal_nonempty(n: nat)
    ensures
        decimal(n).len() >= 1,
{
    reveal_with_fuel(decimal, 2);
}

/// The bytes of a text.
pub fn bytes_in(s: &str) -> (r: Vec<u8>)
    ensures
        r@ == encode_utf8(s@),
{
    vstd::slice::slice_to_vec(s.as_bytes())
}

/// The bytes of two texts, one after the other, are those of the joined text.
pub proof fn encode_concat(a: Seq<char>, b: Seq<char>)
    ensures
        encode_utf8(a + b) == encode_utf8(a) + encode_utf8(b),
    decreases a.len(),
{
    if a.len() == 0 {
        assert(a + b =~= b);
        assert(encode_utf8(a) + encode_utf8(b) =~= encode_utf8(b));
    } else {
        encode_concat(a.drop_first(), b);
        assert((a + b).drop_first() =~= a.drop_first() + b);
        assert(encode_utf8(a + b) =~= encode_utf8(a) + encode_utf8(b));
    }
}

/// Each character below 128 is one byte, of the same value.
pub proof fn encode_ascii(s: Seq<char>)
    requires
        forall|i: int| 0 <= i < s.len() ==> #[trigger] s[i] < 128,
    ensures
        encode_utf8(s).len() == s.len(),
        forall|i: int| 0 <= i < s.len() ==> #[trigger] encode_utf8(s)[i] as int == s[i] as int,
    decreases s.len(),
{
    if s.len() > 0 {
        let tail = s.drop_first();
        assert forall|i: int| 0 <= i < tail.len() implies #[trigger] tail[i] < 128 by {
            assert(tail[i] == s[i + 1]);
        }
        encode_ascii(tail);
        let c = s[0] as u32;
        vstd::utf8::char_u32_cast(s[0], c);
        assert(s[0] < 128);
        assert(c < 128);
        assert((c & 0x7F) as u8 == c) by (bit_vector)
            requires
                c < 128,
        ;
        assert(encode_utf8(s) == seq![c as u8] + encode_utf8(tail));
        assert forall|i: int| 0 <= i < s.len() implies #[trigger] encode_utf8(s)[i] as int
            == s[i] as int by {
            if i > 0 {
                assert(encode_utf8(s)[i] == encode_utf8(tail)[i - 1]);
                assert(tail[i - 1] == s[i]);
            }
        }
    }
}

// ── reading numbers ────────────────────────────────────────────────────────
/// The bytes are decimal digits.
pub open spec fn digits(s: Seq<u8>) -> bool {
    forall|i: int| 0 <= i < s.len() ==> 0x30 <= #[trigger] s[i] <= 0x39
}

/// The number that decimal digits spell.
pub open spec fn digits_value(s: Seq<u8>) -> nat
    decreases s.len(),
{
    if s.len() == 0 {
        0
    } else {
        digits_value(s.drop_last()) * 10 + (s.last() - 0x30) as nat
    }
}

/// The number that a numeral spells: digits, at least one, behind a plus sign
/// or none, up to the largest 64-bit number.
pub open spec fn numeral(s: Seq<u8>) -> Option<u64> {
    let d = if s.len() > 0 && s[0] == 0x2B {
        s.skip(1)
    } else {
        s
    };
    if d.len() > 0 && digits(d) && digits_value(d) <= u64::MAX {
        Some(digits_value(d) as u64)
    } else {
        None
    }
}

proof fn digits_value_grows(s: Seq<u8>, n: int)
    requires
        0 <= n <= s.len(),
    ensures
        digits_value(s.take(n)) <= digits_value(s),
    decreases s.len() - n,
{
    if n < s.len() {
        digits_value_grows(s, n + 1);
        assert(s.take(n + 1).drop_last() =~= s.take(n));
    } else {
        assert(s.take(n) =~= s);
    }
}

/// Read a numeral.
pub fn parse_u64(s: &[u8]) -> (r: Option<u64>)
    ensures
        r == numeral(s@),
{
    let from: usize = if s.len() > 0 && s[0] == 0x2B {
        1
    } else {
        0
    };
    let ghost d = if s@.len() > 0 && s@[0] == 0x2B {
        s@.skip(1)
    } else {
        s@
    };
    if s.len() == from {
        return None;
    }
    let mut value: u64 = 0;
    let mut i: usize = from;
    assert(d.take(0) =~= Seq::empty());
    while i < s.len()
        invariant
            from <= i <= s@.len(),
            from <= 1,
            d.len() == s@.len() - from,
            d.len() > 0,
            forall|j: int| 0 <= j < d.len() ==> #[trigger] d[j] == s@[j + from],
            forall|j: int| 0 <= j < i - from ==> 0x30 <= #[trigger] d[j] <= 0x39,
            value == digits_value(d.take(i - from)),
            numeral(s@) == (if digits(d) && digits_value(d) <= u64::MAX {
                Some(digits_value(d) as u64)
            } else {
                None
            }),
        decreases s@.len() - i,
    {
        let b: u8 = s[i];
        assert(d[i - from] == b);
        if b < 0x30 || b > 0x39 {
            return None;
        }
        let ghost k = i - from;
        proof {
            assert(d.take(k + 1).drop_last() =~= d.take(k));
            digits_value_grows(d, k + 1);
        }
        let next: Option<u64> = match value.checked_mul(10) {
            Some(v) => v.checked_add((b - 0x30) as u64),
            None => None,
        };
        match next {
            Some(v) => {
                value = v;
            },
            None => {
                return None;
            },
        }
        i = i + 1;
    }
    assert(d.take(i - from) =~= d);
    Some(value)
}

/// A number in decimal reads back.
pub proof fn numeral_round_trip(n: u64)
    ensures
        numeral(encode_utf8(decimal(n as nat))) == Some(n),
{
    let t = decimal(n as nat);
    assert forall|i: int| 0 <= i < t.len() implies #[trigger] t[i] < 128 by {
        decimal_digits(n as nat, i);
    }
    encode_ascii(t);
    let s = encode_utf8(t);
    assert forall|i: int| 0 <= i < s.len() implies 0x30 <= #[trigger] s[i] <= 0x39 by {
        decimal_digits(n as nat, i);
    }
    decimal_nonempty(n as nat);
    assert(s[0] != 0x2B);
    decimal_value(n as nat, s);
}

proof fn decimal_value(n: nat, s: Seq<u8>)
    requires
        s.len() == decimal(n).len(),
        forall|i: int| 0 <= i < s.len() ==> #[trigger] s[i] as int == decimal(n)[i] as int,
    ensures
        digits_value(s) == n,
    decreases n,
{
    let t = decimal(n);
    assert(digit(n % 10) as int == '0' as int + n % 10);
    if n < 10 {
        assert(s.drop_last() =~= Seq::empty());
        assert(s.last() as int == t[0] as int);
        assert(digits_value(s.drop_last()) == 0);
    } else {
        let head = s.drop_last();
        assert forall|i: int| 0 <= i < head.len() implies #[trigger] head[i] as int == decimal(
            n / 10,
        )[i] as int by {
            assert(head[i] == s[i]);
            assert(t[i] == decimal(n / 10)[i]);
        }
        decimal_value(n / 10, head);
        assert(s.last() as int == t.last() as int);
    }
}

// ── laws ───────────────────────────────────────────────────────────────────
/// How numerals read: one digit spells itself, a further digit counts ten
/// times what stands before it, leading zeros and one leading plus sign make
/// no difference, and what is too large or holds anything else is no numeral.
pub proof fn numerals_are_decimal(s: Seq<u8>, b: u8)
    ensures
        numeral(Seq::empty()) is None,
        numeral(seq![b]) == (if 0x30 <= b <= 0x39 {
            Some((b - 0x30) as u64)
        } else {
            None
        }),
        numeral(s) matches Some(v) ==> numeral(s.push(b)) == (if 0x30 <= b <= 0x39 && v * 10 + (b
            - 0x30) <= u64::MAX {
            Some((v * 10 + (b - 0x30)) as u64)
        } else {
            None
        }),
        s.len() > 0 && s[0] != 0x2B ==> numeral(seq![0x2Bu8] + s) == numeral(s),
        forall|i: int|
            0 < i < s.len() && !(0x30 <= #[trigger] s[i] <= 0x39) ==> numeral(s) is None,
{
    reveal_with_fuel(digits_value, 2);
    let one = seq![b];
    assert(one.drop_last() =~= Seq::empty());
    if b != 0x2B {
        assert(one[0] == b);
    }
    if numeral(s) is Some {
        let plus = s[0] == 0x2B;
        let d = if plus {
            s.skip(1)
        } else {
            s
        };
        let t = s.push(b);
        let e = if plus {
            t.skip(1)
        } else {
            t
        };
        assert(e =~= d.push(b));
        assert(e.drop_last() =~= d);
        assert(digits_value(e) == digits_value(d) * 10 + (b - 0x30) as nat);
        if 0x30 <= b <= 0x39 {
            assert forall|i: int| 0 <= i < e.len() implies 0x30 <= #[trigger] e[i] <= 0x39 by {
                if i < d.len() {
                    assert(e[i] == d[i]);
                }
            }
        } else {
            assert(e[d.len() as int] == b);
        }
    }
    if s.len() > 0 && s[0] != 0x2B {
        assert((seq![0x2Bu8] + s).skip(1) =~= s);
    }
    assert forall|i: int| 0 < i < s.len() && !(0x30 <= #[trigger] s[i] <= 0x39) implies numeral(
        s,
    ) is None by {
        if s[0] == 0x2B {
            assert(s.skip(1)[i - 1] == s[i]);
        }
    }
}

/// Hexadecimal digits stand in place: counted from the right, digit `i` is the
/// one for the number's `i`-th group of four bits.
pub proof fn hex_digits_stand_in_place(n: nat, width: nat, i: nat)
    requires
        i < width,
    ensures
        hex(n, width).len() == width,
        hex(n, width)[width - 1 - i] == "0123456789abcdef"@[((n / vstd::arithmetic::power::pow(
            16,
            i,
        ) as nat) % 16) as int],
    decreases width,
{
    vstd::arithmetic::power::lemma_pow0(16);
    if i == 0 {
        hex_len(n / 16, (width - 1) as nat);
        hex_digit((n % 16) as nat);
        assert(n as int / 1 == n);
        assert(hex(n, width).last() == digit(n % 16));
    } else {
        hex_digits_stand_in_place(n / 16, (width - 1) as nat, (i - 1) as nat);
        let p = vstd::arithmetic::power::pow(16, (i - 1) as nat);
        vstd::arithmetic::power::lemma_pow_positive(16, (i - 1) as nat);
        vstd::arithmetic::power::lemma_pow_adds(16, 1, (i - 1) as nat);
        vstd::arithmetic::power::lemma_pow1(16);
        vstd::arithmetic::div_mod::lemma_div_denominator(n as int, 16, p);
        assert(16 * p == vstd::arithmetic::power::pow(16, i));
        assert((n / 16) / (p as nat) == n / ((16 * p) as nat));
        assert(hex(n, width)[width - 1 - i] == hex(n / 16, (width - 1) as nat)[width - 1 - i]);
    }
}

proof fn hex_len(n: nat, width: nat)
    ensures
        hex(n, width).len() == width,
    decreases width,
{
    if width > 0 {
        hex_len(n / 16, (width - 1) as nat);
    }
}

proof fn hex_digit(d: nat)
    requires
        d < 16,
    ensures
        digit(d) == "0123456789abcdef"@[d as int],
{
    reveal_strlit("0123456789abcdef");
}

} // verus!
