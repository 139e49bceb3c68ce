//! Decimal text of integers, and integers read from text.

use vstd::prelude::*;

use crate::text;

verus! {

/// The character of one decimal digit.
pub open spec fn digit_char(d: int) -> char {
    ('0' as int + d) as char
}

/// The decimal digits of `n`, without leading zeros.
pub open spec fn digits(n: nat) -> Seq<char>
    decreases n,
{
    if n < 10 {
        seq![digit_char(n as int)]
    } else {
        digits(n / 10).push(digit_char((n % 10) as int))
    }
}

/// The decimal text of an integer, as its `Display` writes it.
pub open spec fn int_text(i: int) -> Seq<char> {
    if i < 0 {
        seq!['-'] + digits((-i) as nat)
    } else {
        digits(i as nat)
    }
}

/// The decimal digits of `n`, with zeros in front up to `width`.
pub open spec fn padded(n: nat, width: nat) -> Seq<char> {
    let d = digits(n);
    if d.len() >= width {
        d
    } else {
        Seq::new((width - d.len()) as nat, |i: int| '0') + d
    }
}

fn push_digits(n: u64, out: &mut String)
    ensures
        final(out)@ == old(out)@ + digits(n as nat),
    decreases n,
{
    if n >= 10 {
        push_digits(n / 10, out);
    }
    let d: u8 = (n % 10) as u8;
    out.push((48 + d) as char);
    proof {
        assert(digit_char(d as int) == (48u8 + d) as char);
        assert(out@ =~= old(out)@ + digits(n as nat));
    }
}

/// Decimal text of an unsigned number.
pub fn u64_text(n: u64) -> (r: String)
    ensures
        r@ == int_text(n as int),
{
    let mut out = String::new();
    push_digits(n, &mut out);
    assert(out@ =~= digits(n as nat));
    out
}

/// Decimal text of a count.
pub fn usize_text(n: usize) -> (r: String)
    ensures
        r@ == int_text(n as int),
{
    u64_text(n as u64)
}

/// Decimal text of a signed number.
pub fn i64_text(i: i64) -> (r: String)
    ensures
        r@ == int_text(i as int),
{
    let mut out = String::new();
    if i < 0 {
        out.push('-');
        let magnitude: u64 = if i == i64::MIN {
            0x8000_0000_0000_0000u64
        } else {
            (-i) as u64
        };
        push_digits(magnitude, &mut out);
        assert(out@ =~= seq!['-'] + digits((-i) as nat));
    } else {
        push_digits(i as u64, &mut out);
        assert(out@ =~= digits(i as nat));
    }
    out
}

/// Text of a truth value, as its `Display` writes it.
pub open spec fn bool_text(b: bool) -> Seq<char> {
    if b {
        "true"@
    } else {
        "false"@
    }
}

/// Text of a truth value.
pub fn write_bool(b: bool) -> (r: String)
    ensures
        r@ == bool_text(b),
{
    if b {
        text::copy_of("true")
    } else {
        text::copy_of("false")
    }
}

/// Whether a character is a decimal digit.
pub open spec fn is_digit(c: char) -> bool {
    '0' <= c <= '9'
}

/// The number that a run of decimal digits denotes.
pub open spec fn digits_value(s: Seq<char>) -> nat
    decreases s.len(),
{
    if s.len() == 0 {
        0
    } else {
        digits_value(s.drop_last()) * 10 + (s.last() as int - '0' as int) as nat
    }
}

/// Whether `s` is one digit or more, and nothing else.
pub open spec fn all_digits(s: Seq<char>) -> bool {
    s.len() > 0 && forall|i: int| 0 <= i < s.len() ==> is_digit(#[trigger] s[i])
}

/// The number of at most `max` that `s` denotes: a `+` may stand in front of
/// the digits. `None` if `s` is anything else.
pub open spec fn unsigned_value(s: Seq<char>, max: nat) -> Option<nat> {
    let body = if s.len() > 0 && s[0] == '+' {
        s.skip(1)
    } else {
        s
    };
    if all_digits(body) && digits_value(body) <= max {
        Some(digits_value(body))
    } else {
        None
    }
}

/// The number between `min` and `max` that `s` denotes: a `+` or a `-` may
/// stand in front of the digits. `None` if `s` is anything else.
pub open spec fn signed_value(s: Seq<char>, min: int, max: int) -> Option<int> {
    let negative = s.len() > 0 && s[0] == '-';
    let body = if s.len() > 0 && (s[0] == '+' || s[0] == '-') {
        s.skip(1)
    } else {
        s
    };
    let value = if negative {
        -(digits_value(body) as int)
    } else {
        digits_value(body) as int
    };
    if all_digits(body) && min <= value <= max {
        Some(value)
    } else {
        None
    }
}

/// The number in `x[from..]`, if that is all digits and at most `max`.
fn read_digits(x: &Vec<char>, from: usize, max: u64) -> (r: Option<u64>)
    requires
        from <= x@.len(),
    ensures
        r == (if all_digits(x@.skip(from as int)) && digits_value(x@.skip(from as int)) <= max {
            Some(digits_value(x@.skip(from as int)) as u64)
        } else {
            None::<u64>
        }),
{
    let ghost body = x@.skip(from as int);
    if from == x.len() {
        return None;
    }
    let mut over = false;
    let mut acc: u64 = 0;
    let mut i: usize = from;
    assert(body.take(0) =~= Seq::<char>::empty());
    while i < x.len()
        invariant
            from <= i <= x@.len(),
            body == x@.skip(from as int),
            forall|j: int| 0 <= j < i - from ==> is_digit(#[trigger] body[j]),
            !over ==> acc == digits_value(body.take(i - from)) && acc <= max,
            over ==> digits_value(body.take(i - from)) > max,
        decreases x@.len() - i,
    {
        let c = x[i];
        let ghost next = body.take(i + 1 - from);
        proof {
            assert(next.drop_last() =~= body.take(i - from));
            assert(next.last() == c);
            assert(body[i - from] == c);
        }
        if c < '0' || c > '9' {
            assert(!is_digit(body[i - from]));
            return None;
        }
        let d: u64 = (c as u8 - 48) as u64;
        if !over {
            if acc > max / 10 || d > max - acc * 10 {
                over = true;
            } else {
                acc = acc * 10 + d;
            }
        }
        i += 1;
    }
    assert(body.take(i - from) =~= body);
    if over {
        None
    } else {
        Some(acc)
    }
}

/// `str::parse::<usize>`.
pub fn parse_usize(s: &str) -> (r: Option<usize>)
    ensures
        r == (match unsigned_value(s@, usize::MAX as nat) {
            Some(n) => Some(n as usize),
            None => None::<usize>,
        }),
{
    let x = text::chars_of(s);
    let from: usize = if x.len() > 0 && x[0] == '+' {
        1
    } else {
        0
    };
    assert(x@.skip(0) =~= s@);
    match read_digits(&x, from, usize::MAX as u64) {
        Some(n) => Some(n as usize),
        None => None,
    }
}

/// `str::parse::<i64>`.
pub fn parse_i64(s: &str) -> (r: Option<i64>)
    ensures
        r == (match signed_value(s@, i64::MIN as int, i64::MAX as int) {
            Some(n) => Some(n as i64),
            None => None::<i64>,
        }),
{
    let x = text::chars_of(s);
    assert(x@.skip(0) =~= s@);
    if x.len() > 0 && x[0] == '-' {
        match read_digits(&x, 1, 0x8000_0000_0000_0000u64) {
            Some(n) => Some(if n == 0x8000_0000_0000_0000u64 { i64::MIN } else { -(n as i64) }),
            None => None,
        }
    } else {
        let from: usize = if x.len() > 0 && x[0] == '+' {
            1
        } else {
            0
        };
        match read_digits(&x, from, i64::MAX as u64) {
            Some(n) => Some(n as i64),
            None => None,
        }
    }
}

/// The truth value that a text denotes: exactly `true` or `false`.
pub open spec fn bool_value(s: Seq<char>) -> Option<bool> {
    if s == "true"@ {
        Some(true)
    } else if s == "false"@ {
        Some(false)
    } else {
        None
    }
}

/// `str::parse::<bool>`.
pub fn parse_bool(s: &str) -> (r: Option<bool>)
    ensures
        r == bool_value(s@),
{
    if text::same(s, "true") {
        Some(true)
    } else if text::same(s, "false") {
        Some(false)
    } else {
        None
    }
}

// -- laws -------------------------------------------------------------------

/// Decimal notation: a digit added at the end multiplies by ten and adds its
/// own value, which is that of the characters `0` to `9` in their order.
pub proof fn digits_count_in_tens(s: Seq<char>, c: char)
    requires
        '0' <= c <= '9',
    ensures
        digits_value(s.push(c)) == 10 * digits_value(s) + (c as int - 48),
        digits_value(seq![]) == 0,
{
    assert(s.push(c).drop_last() =~= s);
}

/// A number that is written reads back as itself: its text is digits alone,
/// and starts with a zero only if it is zero.
pub proof fn written_numbers_read_back(n: nat)
    ensures
        digits_value(digits(n)) == n,
        digits(n).len() > 0,
        forall|i: int| 0 <= i < digits(n).len() ==> '0' <= #[trigger] digits(n)[i] <= '9',
        digits(n)[0] == '0' <==> n == 0,
        n == 0 ==> digits(n).len() == 1,
    decreases n,
{
    let d = digits(n);
    if n < 10 {
        assert(d.drop_last().len() == 0);
        assert(digits_value(d.drop_last()) == 0);
        assert(d.last() as int == 48 + n);
    } else {
        written_numbers_read_back(n / 10);
        let rest = digits(n / 10);
        assert(d.drop_last() =~= rest);
        assert(d.last() as int == 48 + n % 10);
        assert(d[0] == rest[0]);
        assert forall|i: int| 0 <= i < d.len() implies '0' <= #[trigger] d[i] <= '9' by {
            if i < rest.len() {
                assert(d[i] == rest[i]);
            }
        }
    }
}

/// An integer that is written reads back as itself, and a minus sign stands
/// before exactly those below zero.
pub proof fn written_integers_read_back(i: int, min: int, max: int)
    requires
        min <= i <= max,
    ensures
        signed_value(int_text(i), min, max) == Some(i),
        int_text(i)[0] == '-' <==> i < 0,
        i >= 0 ==> unsigned_value(int_text(i), max as nat) == Some(i as nat),
        i >= 0 ==> unsigned_value(seq!['+'] + int_text(i), max as nat) == Some(i as nat),
        i >= 0 ==> signed_value(seq!['+'] + int_text(i), min, max) == Some(i),
{
    let n = if i < 0 {
        (-i) as nat
    } else {
        i as nat
    };
    written_numbers_read_back(n);
    let d = digits(n);
    assert(is_digit(d[0]));
    assert((seq!['-'] + d).skip(1) =~= d);
    assert((seq!['+'] + d).skip(1) =~= d);
    assert((seq!['-'] + d)[0] == '-');
    assert((seq!['+'] + d)[0] == '+');
}

/// Different integers are written differently.
pub proof fn integers_have_texts_of_their_own(a: int, b: int)
    requires
        int_text(a) == int_text(b),
    ensures
        a == b,
{
    let low = if a < b {
        a
    } else {
        b
    };
    let high = if a < b {
        b
    } else {
        a
    };
    written_integers_read_back(a, low, high);
    written_integers_read_back(b, low, high);
}

/// What is read as a number is a sign, or none, and digits alone: anything else
/// in a text, and an empty text, is no number. What is read keeps to the bounds.
pub proof fn only_digits_are_read(s: Seq<char>, min: int, max: int)
    ensures
        signed_value(s, min, max) is Some ==> s.len() > 0 && min <= signed_value(s, min, max)->0
            <= max,
        unsigned_value(s, max as nat) is Some ==> s.len() > 0 && unsigned_value(s, max as nat)->0
            <= max as nat,
        forall|i: int|
            0 <= i < s.len() && !('0' <= #[trigger] s[i] <= '9') && !(i == 0 && (s[0] == '+'
                || s[0] == '-')) ==> signed_value(s, min, max) is None,
        forall|i: int|
            0 <= i < s.len() && !('0' <= #[trigger] s[i] <= '9') && !(i == 0 && s[0] == '+')
                ==> unsigned_value(s, max as nat) is None,
{
    let body = s.skip(1);
    assert forall|i: int|
        0 <= i < s.len() && !('0' <= #[trigger] s[i] <= '9') && !(i == 0 && (s[0] == '+' || s[0]
            == '-')) implies signed_value(s, min, max) is None by {
        if s[0] == '+' || s[0] == '-' {
            assert(body[i - 1] == s[i]);
            assert(!is_digit(body[i - 1]));
        } else {
            assert(!is_digit(s[i]));
        }
    }
    assert forall|i: int|
        0 <= i < s.len() && !('0' <= #[trigger] s[i] <= '9') && !(i == 0 && s[0]
            == '+') implies unsigned_value(s, max as nat) is None by {
        if s[0] == '+' {
            assert(body[i - 1] == s[i]);
            assert(!is_digit(body[i - 1]));
        } else {
            assert(!is_digit(s[i]));
        }
    }
}

/// A truth value is written as `true` or `false`, and reads back from exactly
/// that.
pub proof fn truth_values_read_back(b: bool, s: Seq<char>)
    ensures
        bool_text(true) == "true"@,
        bool_text(false) == "false"@,
        bool_value(s) == Some(true) <==> s == "true"@,
        bool_value(s) == Some(false) <==> s == "false"@,
        bool_value(bool_text(b)) == Some(b),
{
    reveal_strlit("true");
    reveal_strlit("false");
    assert("true"@.len() == 4 && "false"@.len() == 5);
}

/// Padding puts zeros in front, up to the width, and does not change the number.
pub proof fn padding_adds_zeros(n: nat, width: nat)
    ensures
        digits_value(padded(n, width)) == n,
        padded(n, width).len() >= width,
        padded(n, width).len() == width || padded(n, width).len() == digits(n).len(),
{
    written_numbers_read_back(n);
    let d = digits(n);
    if d.len() < width {
        let zeros = Seq::new((width - d.len()) as nat, |i: int| '0');
        zeros_are_nothing((width - d.len()) as nat, d);
        assert(padded(n, width) =~= zeros + d);
    }
}

proof fn zeros_are_nothing(k: nat, d: Seq<char>)
    ensures
        digits_value(Seq::new(k, |i: int| '0') + d) == digits_value(d),
    decreases d.len(), k,
{
    let zeros = Seq::new(k, |i: int| '0');
    let all = zeros + d;
    if d.len() == 0 {
        assert(all =~= zeros);
        if k > 0 {
            zeros_are_nothing((k - 1) as nat, d);
            let fewer = Seq::new((k - 1) as nat, |i: int| '0');
            assert(zeros.drop_last() =~= fewer);
            assert(fewer + d =~= fewer);
            assert(zeros.last() == '0');
        }
    } else {
        zeros_are_nothing(k, d.drop_last());
        assert(all.drop_last() =~= zeros + d.drop_last());
        assert(all.last() == d.last());
    }
}

/// A number that is written is read exactly if it is not too large, with or
/// without a plus sign before it.
pub proof fn numbers_are_read_up_to_the_largest(n: nat, max: nat)
    ensures
        unsigned_value(digits(n), max) == if n <= max {
            Some(n)
        } else {
            None
        },
        unsigned_value(seq!['+'] + digits(n), max) == unsigned_value(digits(n), max),
        unsigned_value(seq!['-'] + digits(n), max) is None,
        unsigned_value(seq![], max) is None,
{
    let d = digits(n);
    written_numbers_read_back(n);
    assert(all_digits(d));
    let p = seq!['+'] + d;
    assert(p.skip(1) =~= d);
    let m = seq!['-'] + d;
    assert(m[0] == '-');
    assert(!is_digit(m[0]));
    assert(!all_digits(m));
    assert(!all_digits(Seq::<char>::empty()));
}

}
