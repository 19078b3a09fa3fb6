//! Byte-level text helpers shared by the encoders: the bytes the formats give
//! a meaning to, and the decimal and boolean renderings of scalar values.

use vstd::prelude::*;
use vstd::utf8::*;

verus! {

/// `"`
pub const QUOTE: u8 = 0x22;

/// `,`
pub const COMMA: u8 = 0x2c;

/// `\n`
pub const LINE_FEED: u8 = 0x0a;

/// `\`
pub const BACKSLASH: u8 = 0x5c;

/// `:`
pub const COLON: u8 = 0x3a;

/// `{`
pub const OPEN_BRACE: u8 = 0x7b;

/// `}`
pub const CLOSE_BRACE: u8 = 0x7d;

/// `-`
pub const MINUS: u8 = 0x2d;

/// `0`
pub const ZERO: u8 = 0x30;

/// The separator in front of an item that follows `written` items of its
/// list: a comma in front of every item but the first.
pub open spec fn separator(written: nat) -> Seq<u8> {
    if written > 0 {
        seq![COMMA]
    } else {
        Seq::empty()
    }
}

/// The ASCII digit for `d`, where `0 <= d <= 9`.
pub open spec fn digit(d: int) -> u8 {
    (ZERO + d) as u8
}

/// The decimal digits of `n`, most significant first, without leading zeros.
pub open spec fn digits(n: nat) -> Seq<u8>
    decreases n,
{
    if n < 10 {
        seq![digit(n as int)]
    } else {
        digits(n / 10).push(digit((n % 10) as int))
    }
}

/// The decimal text of a signed integer: a minus sign for negative numbers,
/// then the digits of the magnitude.
pub open spec fn decimal(n: int) -> Seq<u8> {
    if n < 0 {
        seq![MINUS] + digits((-n) as nat)
    } else {
        digits(n as nat)
    }
}

/// The text of a boolean: `true` or `false`.
pub open spec fn bool_text(b: bool) -> Seq<u8> {
    if b {
        seq![0x74u8, 0x72u8, 0x75u8, 0x65u8]
    } else {
        seq![0x66u8, 0x61u8, 0x6cu8, 0x73u8, 0x65u8]
    }
}

/// Appends `data` to `out`.
pub fn append(out: &mut Vec<u8>, data: &[u8])
    ensures
        final(out)@ == old(out)@ + data@,
{
    out.extend_from_slice(data);
    assert(out@ =~= old(out)@ + data@);
}

/// Appends the text of `b` to `out`.
pub fn push_bool(out: &mut Vec<u8>, b: bool)
    ensures
        final(out)@ == old(out)@ + bool_text(b),
{
    if b {
        out.push(0x74);
        out.push(0x72);
        out.push(0x75);
        out.push(0x65);
    } else {
        out.push(0x66);
        out.push(0x61);
        out.push(0x6c);
        out.push(0x73);
        out.push(0x65);
    }
    assert(out@ =~= old(out)@ + bool_text(b));
}

/// Appends the decimal text of `n` to `out`.
pub fn push_decimal(out: &mut Vec<u8>, n: i64)
    ensures
        final(out)@ == old(out)@ + decimal(n as int),
{
    let mut rest: u64 = if n < 0 {
        out.push(MINUS);
        (-(n + 1)) as u64 + 1
    } else {
        n as u64
    };
    let ghost magnitude: nat = rest as nat;
    let ghost head: Seq<u8> = out@;
    // The digits come out least significant first.
    let mut low: Vec<u8> = Vec::new();
    loop
        invariant_except_break
            digits(magnitude) == digits(rest as nat) + low@.reverse(),
        ensures
            digits(magnitude) == low@.reverse(),
        decreases rest,
    {
        let d: u8 = (rest % 10) as u8;
        low.push(ZERO + d);
        proof {
            let before = low@.drop_last();
            assert(low@.reverse() =~= seq![digit(d as int)] + before.reverse());
            if rest >= 10 {
                assert(digits(rest as nat) == digits((rest / 10) as nat).push(digit(d as int)));
                assert(digits(magnitude) =~= digits((rest / 10) as nat) + low@.reverse());
            } else {
                assert(digits(rest as nat) == seq![digit(d as int)]);
                assert(digits(magnitude) =~= low@.reverse());
            }
        }
        if rest < 10 {
            break ;
        }
        rest = rest / 10;
    }
    let mut i: usize = low.len();
    while i > 0
        invariant
            i <= low@.len(),
            out@ == head + low@.reverse().take(low@.len() - i),
        decreases i,
    {
        i = i - 1;
        out.push(low[i]);
        proof {
            let r = low@.reverse();
            let k = low@.len() - i;
            assert(r.take(k) =~= r.take(k - 1).push(r[k - 1]));
        }
    }
    proof {
        assert(low@.reverse().take(low@.len() as int) =~= low@.reverse());
        if n < 0 {
            assert(out@ =~= old(out)@ + decimal(n as int));
        }
    }
}

/// The number of a character is at most `0x10ffff`.
pub proof fn lemma_char_range(c: char)
    ensures
        0 <= c as int <= 0x10ffff,
        c as u32 == c as int,
{
}

/// The UTF-8 encoding of an ASCII character is the character as one byte;
/// that of any other character is made of bytes from `0x80` on.
pub proof fn lemma_scalar_bytes(c: char)
    ensures
        c as u32 <= 0x7f ==> encode_scalar(c as u32) == seq![c as u8],
        c as u32 > 0x7f ==> forall|i: int|
            0 <= i < encode_scalar(c as u32).len() ==> #[trigger] encode_scalar(c as u32)[i]
                >= 0x80,
{
    let scalar = c as u32;
    char_is_scalar(c);
    let bytes = encode_scalar(scalar);
    if has_width_1_encoding(scalar) {
        assert(scalar & 0x7f == scalar) by (bit_vector)
            requires
                scalar <= 0x7f,
        ;
        assert(bytes =~= seq![c as u8]);
    } else if has_width_2_encoding(scalar) {
        assert((0xc0u8 | ((scalar >> 6) & 0x1f) as u8) >= 0x80 && (0x80u8 | (scalar & 0x3f) as u8)
            >= 0x80) by (bit_vector);
        assert(bytes[0] >= 0x80 && bytes[1] >= 0x80);
    } else if has_width_3_encoding(scalar) {
        assert((0xe0u8 | ((scalar >> 12) & 0x0f) as u8) >= 0x80 && (0x80u8 | ((scalar >> 6)
            & 0x3f) as u8) >= 0x80 && (0x80u8 | (scalar & 0x3f) as u8) >= 0x80) by (bit_vector);
        assert(bytes[0] >= 0x80 && bytes[1] >= 0x80 && bytes[2] >= 0x80);
    } else {
        assert((0xf0u8 | ((scalar >> 18) & 0x07) as u8) >= 0x80 && (0x80u8 | ((scalar >> 12)
            & 0x3f) as u8) >= 0x80 && (0x80u8 | ((scalar >> 6) & 0x3f) as u8) >= 0x80 && (0x80u8
            | (scalar & 0x3f) as u8) >= 0x80) by (bit_vector);
        assert(bytes[0] >= 0x80 && bytes[1] >= 0x80 && bytes[2] >= 0x80 && bytes[3] >= 0x80);
    }
}

/// Appends the UTF-8 encoding of `c` to `out`.
pub fn push_utf8(out: &mut Vec<u8>, c: char)
    ensures
        final(out)@ == old(out)@ + encode_scalar(c as u32),
{
    let scalar: u32 = c as u32;
    proof {
        char_is_scalar(c);
    }
    if scalar < 0x80 {
        assert(scalar & 0x7f < 0x100) by (bit_vector);
        out.push((scalar & 0x7f) as u8);
    } else if scalar < 0x800 {
        assert((scalar >> 6) & 0x1f < 0x100 && scalar & 0x3f < 0x100) by (bit_vector);
        out.push(0xc0 | ((scalar >> 6) & 0x1f) as u8);
        out.push(0x80 | (scalar & 0x3f) as u8);
    } else if scalar < 0x10000 {
        assert((scalar >> 12) & 0x0f < 0x100 && (scalar >> 6) & 0x3f < 0x100 && scalar & 0x3f
            < 0x100) by (bit_vector);
        out.push(0xe0 | ((scalar >> 12) & 0x0f) as u8);
        out.push(0x80 | ((scalar >> 6) & 0x3f) as u8);
        out.push(0x80 | (scalar & 0x3f) as u8);
    } else {
        assert((scalar >> 18) & 0x07 < 0x100 && (scalar >> 12) & 0x3f < 0x100 && (scalar >> 6)
            & 0x3f < 0x100 && scalar & 0x3f < 0x100) by (bit_vector);
        out.push(0xf0 | ((scalar >> 18) & 0x07) as u8);
        out.push(0x80 | ((scalar >> 12) & 0x3f) as u8);
        out.push(0x80 | ((scalar >> 6) & 0x3f) as u8);
        out.push(0x80 | (scalar & 0x3f) as u8);
    }
    assert(out@ =~= old(out)@ + encode_scalar(c as u32));
}

} // verus!
