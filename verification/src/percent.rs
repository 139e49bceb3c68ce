//! Percent-decoding of URL text.

use vstd::prelude::*;
use vstd::utf8::{decode_utf8, encode_utf8, valid_utf8};

use crate::outside;

verus! {

/// The value of a hexadecimal digit.
pub open spec fn hex_digit(b: u8) -> Option<u8> {
    if 48 <= b <= 57 {
        Some((b - 48) as u8)
    } else if 97 <= b <= 102 {
        Some((b - 87) as u8)
    } else if 65 <= b <= 70 {
        Some((b - 55) as u8)
    } else {
        None
    }
}

/// The bytes that percent-encoded bytes stand for: `%` and two hexadecimal
/// digits are one byte, a `+` is a space where `plus` says so, and everything
/// else is itself. None if a `%` lacks its digits.
pub open spec fn unescaped(b: Seq<u8>, plus: bool) -> Option<Seq<u8>>
    decreases b.len(),
{
    if b.len() == 0 {
        Some(seq![])
    } else if b[0] == 37 {
        if b.len() < 3 {
            None
        } else {
            match (hex_digit(b[1]), hex_digit(b[2]), unescaped(b.skip(3), plus)) {
                (Some(hi), Some(lo), Some(rest)) => Some(seq![(hi * 16 + lo) as u8] + rest),
                _ => None,
            }
        }
    } else {
        match unescaped(b.skip(1), plus) {
            Some(rest) => Some(
                seq![
                    if plus && b[0] == 43 {
                        32u8
                    } else {
                        b[0]
                    },
                ] + rest,
            ),
            None => None,
        }
    }
}

/// The text that percent-encoded text stands for, if it stands for text.
pub open spec fn decoded(s: Seq<char>, plus: bool) -> Option<Seq<char>> {
    match unescaped(encode_utf8(s), plus) {
        Some(bytes) => if valid_utf8(bytes) {
            Some(decode_utf8(bytes))
        } else {
            None
        },
        None => None,
    }
}

fn hex_value(b: u8) -> (r: Option<u8>)
    ensures
        r == hex_digit(b),
        r matches Some(d) ==> d < 16,
{
    if 48 <= b && b <= 57 {
        Some(b - 48)
    } else if 97 <= b && b <= 102 {
        Some(b - 87)
    } else if 65 <= b && b <= 70 {
        Some(b - 55)
    } else {
        None
    }
}

/// Decodes percent-encoded text once; a `+` stands for a space where `plus`
/// says so.
pub fn percent_decode(input: &str, plus: bool) -> (r: Option<String>)
    ensures
        crate::text::opt_view(r) == decoded(input@, plus),
{
    let bytes = input.as_bytes();
    let ghost b = bytes@;
    let n: usize = bytes.len();
    let mut out: Vec<u8> = Vec::new();
    let mut i: usize = 0;
    proof {
        assert(b.skip(0) =~= b);
        assert(extended(seq![], unescaped(b, plus)) == unescaped(b, plus)) by {
            match unescaped(b, plus) {
                Some(rest) => {
                    assert(Seq::<u8>::empty() + rest =~= rest);
                },
                None => {},
            }
        }
    }
    while i < n
        invariant
            i <= n == b.len(),
            b == bytes@,
            b == encode_utf8(input@),
            extended(out@, unescaped(b.skip(i as int), plus)) == unescaped(b, plus),
        decreases n - i,
    {
        let ghost rest = b.skip(i as int);
        let c: u8 = bytes[i];
        let ghost before = out@;
        if c == 37 {
            if n - i < 3 {
                return None;
            }
            let hi = match hex_value(bytes[i + 1]) {
                Some(d) => d,
                None => {
                    return None;
                },
            };
            let lo = match hex_value(bytes[i + 2]) {
                Some(d) => d,
                None => {
                    return None;
                },
            };
            out.push(hi * 16 + lo);
            proof {
                assert(rest.skip(3) =~= b.skip(i + 3));
                extend_by(before, (hi * 16 + lo) as u8, unescaped(b.skip(i + 3), plus));
            }
            i += 3;
        } else {
            let d: u8 = if plus && c == 43 {
                32
            } else {
                c
            };
            out.push(d);
            proof {
                assert(rest.skip(1) =~= b.skip(i + 1));
                extend_by(before, d, unescaped(b.skip(i + 1), plus));
            }
            i += 1;
        }
    }
    assert(out@ + Seq::<u8>::empty() =~= out@);
    outside::text_of(out.as_slice())
}

spec fn extended(done: Seq<u8>, rest: Option<Seq<u8>>) -> Option<Seq<u8>> {
    match rest {
        Some(r) => Some(done + r),
        None => None,
    }
}

proof fn extend_by(done: Seq<u8>, x: u8, rest: Option<Seq<u8>>)
    ensures
        extended(done.push(x), rest) == extended(
            done,
            match rest {
                Some(r) => Some(seq![x] + r),
                None => None::<Seq<u8>>,
            },
        ),
{
    match rest {
        Some(r) => {
            assert(done.push(x) + r =~= done + (seq![x] + r));
        },
        None => {},
    }
}

/// Bytes without a `%`, and without a `+` where it stands for a space, stand for
/// themselves.
pub proof fn plain_bytes_are_themselves(b: Seq<u8>, plus: bool)
    requires
        forall|i: int| 0 <= i < b.len() ==> #[trigger] b[i] != 37 && !(plus && b[i] == 43),
    ensures
        unescaped(b, plus) == Some(b),
    decreases b.len(),
{
    if b.len() > 0 {
        let rest = b.skip(1);
        assert forall|i: int| 0 <= i < rest.len() implies #[trigger] rest[i] != 37 && !(plus
            && rest[i] == 43) by {
            assert(b[i + 1] != 37 && !(plus && b[i + 1] == 43));
        }
        plain_bytes_are_themselves(rest, plus);
        assert(b =~= seq![b[0]] + rest);
    } else {
        assert(b =~= seq![]);
    }
}

/// The hexadecimal digits in order, capital or small.
pub open spec fn hex_char(d: u8, capital: bool) -> u8 {
    if d < 10 {
        (48 + d) as u8
    } else if capital {
        (55 + d) as u8
    } else {
        (87 + d) as u8
    }
}

/// A byte, written as a `%` and its two hexadecimal digits.
pub open spec fn escape(b: u8, capital: bool) -> Seq<u8> {
    seq![37u8, hex_char(b / 16, capital), hex_char(b % 16, capital)]
}

/// An escape stands for its byte, whatever the byte and whatever follows; bytes
/// that are not escaped stand for themselves, but for a plus sign where it
/// stands for a space.
pub proof fn escapes_stand_for_their_bytes(b: u8, capital: bool, rest: Seq<u8>, plus: bool)
    ensures
        unescaped(escape(b, capital) + rest, plus) == (match unescaped(rest, plus) {
            Some(r) => Some(seq![b] + r),
            None => None::<Seq<u8>>,
        }),
        b != 37 && !(plus && b == 43) ==> unescaped(seq![b] + rest, plus) == (match unescaped(
            rest,
            plus,
        ) {
            Some(r) => Some(seq![b] + r),
            None => None::<Seq<u8>>,
        }),
        unescaped(seq![43u8] + rest, true) == (match unescaped(rest, true) {
            Some(r) => Some(seq![32u8] + r),
            None => None::<Seq<u8>>,
        }),
        unescaped(seq![], plus) == Some(Seq::<u8>::empty()),
{
    let e = escape(b, capital) + rest;
    assert(e.skip(3) =~= rest);
    assert((seq![b] + rest).skip(1) =~= rest);
    assert((seq![43u8] + rest).skip(1) =~= rest);
    assert(16 * (b / 16) + b % 16 == b);
    assert(b / 16 < 16 && b % 16 < 16);
}

/// A percent sign that no two hexadecimal digits follow is refused.
pub proof fn broken_escapes_are_refused(rest: Seq<u8>, plus: bool)
    requires
        rest.len() < 2 || !(48 <= rest[0] <= 57 || 65 <= rest[0] <= 70 || 97 <= rest[0] <= 102)
            || !(48 <= rest[1] <= 57 || 65 <= rest[1] <= 70 || 97 <= rest[1] <= 102),
    ensures
        unescaped(seq![37u8] + rest, plus) is None,
{
    let e = seq![37u8] + rest;
    if rest.len() >= 2 {
        assert(e[1] == rest[0] && e[2] == rest[1]);
    }
}

/// Text without a percent sign, and without a plus sign where it stands for a
/// space, stands for itself.
pub proof fn plain_text_is_itself(s: Seq<char>, plus: bool)
    requires
        !s.contains('%'),
        !(plus && s.contains('+')),
    ensures
        decoded(s, plus) == Some(s),
{
    let b = encode_utf8(s);
    byte_stays(s, '%');
    byte_stays(s, '+');
    assert forall|i: int| 0 <= i < b.len() implies #[trigger] b[i] != 37 && !(plus && b[i]
        == 43) by {
        assert(b.contains(b[i]));
    }
    plain_bytes_are_themselves(b, plus);
    vstd::utf8::encode_utf8_valid_utf8(s);
    vstd::utf8::encode_utf8_decode_utf8(s);
}

/// An ASCII byte in encoded text is that character in the text.
proof fn byte_stays(s: Seq<char>, c: char)
    requires
        (c as u32) < 128,
    ensures
        encode_utf8(s).contains(c as u8) ==> s.contains(c),
    decreases s.len(),
{
    if s.len() > 0 {
        let rest = s.drop_first();
        let head = vstd::utf8::encode_scalar(s[0] as u32);
        byte_stays(rest, c);
        let b = encode_utf8(s);
        assert(b == head + encode_utf8(rest));
        if b.contains(c as u8) {
            let i = b.index_of(c as u8);
            if i < head.len() {
                assert(head[i] == c as u8);
                small_byte_is_its_character(s[0], i);
                vstd::utf8::char_u32_cast(s[0], s[0] as u32);
                vstd::utf8::char_u32_cast(c, c as u32);
                assert(s[0] == c);
            } else {
                assert(encode_utf8(rest)[i - head.len()] == c as u8);
                assert(encode_utf8(rest).contains(c as u8));
                let j = rest.index_of(c);
                assert(s[j + 1] == c);
            }
        }
    }
}

proof fn small_byte_is_its_character(c: char, i: int)
    requires
        0 <= i < vstd::utf8::encode_scalar(c as u32).len(),
        vstd::utf8::encode_scalar(c as u32)[i] < 128,
    ensures
        vstd::utf8::encode_scalar(c as u32)[i] as u32 == c as u32,
{
    let u = c as u32;
    let one = seq![c];
    vstd::utf8::encode_utf8_first_scalar(one);
    assert(one.drop_first() =~= seq![]);
    assert(encode_utf8(one.drop_first()) =~= seq![]);
    assert(encode_utf8(one) =~= vstd::utf8::encode_scalar(u));
    if u < 128 {
        assert((u & 0x7F) as u8 as u32 == u) by (bit_vector)
            requires
                u < 128,
        ;
    }
}

}
