//! Text as sequences of characters: ordering, splitting, trimming and joining.

use vstd::prelude::*;

verus! {

/// Outcome of a three-way comparison.
#[derive(Debug, Clone, Copy, PartialEq, Eq, Structural)]
pub enum Order {
    Less,
    Equal,
    Greater,
}

impl Order {
    pub open spec fn reversed(self) -> Order {
        match self {
            Order::Less => Order::Greater,
            Order::Equal => Order::Equal,
            Order::Greater => Order::Less,
        }
    }

    /// The opposite outcome.
    pub fn reverse(self) -> (r: Order)
        ensures
            r == self.reversed(),
    {
        match self {
            Order::Less => Order::Greater,
            Order::Equal => Order::Equal,
            Order::Greater => Order::Less,
        }
    }
}

/// Three-way comparison of two integers.
pub open spec fn int_order(a: int, b: int) -> Order {
    if a < b {
        Order::Less
    } else if a == b {
        Order::Equal
    } else {
        Order::Greater
    }
}

/// `a` comes strictly before `b` in lexicographic order of scalar values.
pub open spec fn precedes(a: Seq<char>, b: Seq<char>) -> bool
    decreases a.len(),
{
    if b.len() == 0 {
        false
    } else if a.len() == 0 {
        true
    } else if a[0] == b[0] {
        precedes(a.drop_first(), b.drop_first())
    } else {
        a[0] < b[0]
    }
}

/// Three-way lexicographic comparison.
pub open spec fn text_order(a: Seq<char>, b: Seq<char>) -> Order {
    if a == b {
        Order::Equal
    } else if precedes(a, b) {
        Order::Less
    } else {
        Order::Greater
    }
}

/// A text never comes before itself.
pub proof fn precedes_irreflexive(a: Seq<char>)
    ensures
        !precedes(a, a),
    decreases a.len(),
{
    if a.len() > 0 {
        precedes_irreflexive(a.drop_first());
    }
}

/// Of two different texts one comes before the other, and only one does.
pub proof fn precedes_total(a: Seq<char>, b: Seq<char>)
    ensures
        a == b || precedes(a, b) || precedes(b, a),
        !(precedes(a, b) && precedes(b, a)),
    decreases a.len(),
{
    if a.len() > 0 && b.len() > 0 && a[0] == b[0] {
        precedes_total(a.drop_first(), b.drop_first());
        if a.drop_first() == b.drop_first() {
            assert(a =~= seq![a[0]] + a.drop_first());
            assert(b =~= seq![b[0]] + b.drop_first());
        }
    } else if a.len() == 0 && b.len() == 0 {
        assert(a =~= b);
    }
}

/// The order of texts is transitive.
pub proof fn precedes_transitive(a: Seq<char>, b: Seq<char>, c: Seq<char>)
    requires
        precedes(a, b),
        precedes(b, c),
    ensures
        precedes(a, c),
    decreases a.len(),
{
    if a.len() > 0 && a[0] == b[0] && b[0] == c[0] {
        precedes_transitive(a.drop_first(), b.drop_first(), c.drop_first());
    }
}

/// The characters of a text.
pub fn chars_of(s: &str) -> (r: Vec<char>)
    ensures
        r@ == s@,
{
    let mut out: Vec<char> = Vec::new();
    for c in it: s.chars()
        invariant
            it.seq() == s@,
            out@ == s@.take(it.index() as int),
    {
        out.push(c);
    }
    out
}

/// `String::push`: the character is added at the end of the text.
pub assume_specification[ std::string::String::push ](s: &mut std::string::String, c: char)
    ensures
        final(s)@ == old(s)@.push(c),
;

/// The texts that a list of strings holds.
pub open spec fn views(v: Seq<String>) -> Seq<Seq<char>> {
    v.map_values(|s: String| s@)
}

/// The text made of `chars[from..to]`.
pub fn string_of(chars: &[char], from: usize, to: usize) -> (r: String)
    requires
        from <= to <= chars@.len(),
    ensures
        r@ == chars@.subrange(from as int, to as int),
{
    let mut out = String::new();
    let mut i: usize = from;
    while i < to
        invariant
            from <= i <= to <= chars@.len(),
            out@ == chars@.subrange(from as int, i as int),
        decreases to - i,
    {
        out.push(chars[i]);
        i += 1;
        assert(chars@.subrange(from as int, i as int) =~= chars@.subrange(
            from as int,
            i - 1,
        ).push(chars@[i - 1]));
    }
    out
}

/// A fresh copy of a text.
pub fn copy_of(s: &str) -> (r: String)
    ensures
        r@ == s@,
{
    s.to_owned()
}

/// Whether two texts are the same.
pub fn same(a: &str, b: &str) -> (r: bool)
    ensures
        r == (a@ == b@),
{
    let x = chars_of(a);
    let y = chars_of(b);
    if x.len() != y.len() {
        return false;
    }
    let mut i: usize = 0;
    while i < x.len()
        invariant
            i <= x@.len() == y@.len(),
            x@ == a@,
            y@ == b@,
            forall|j: int| 0 <= j < i ==> x@[j] == y@[j],
        decreases x@.len() - i,
    {
        if x[i] != y[i] {
            assert(a@[i as int] != b@[i as int]);
            return false;
        }
        i += 1;
    }
    assert(a@ =~= b@);
    true
}

/// Whether two texts differ only in the case of ASCII letters.
pub open spec fn same_ignoring_case(a: Seq<char>, b: Seq<char>) -> bool {
    a.len() == b.len() && forall|i: int| 0 <= i < a.len() ==> lowered(#[trigger] a[i]) == lowered(b[i])
}

/// An ASCII capital letter becomes its small form; nothing else changes.
pub open spec fn lowered(c: char) -> char {
    if 'A' <= c <= 'Z' {
        (c as u32 + 32) as char
    } else {
        c
    }
}

fn lower(c: char) -> (r: char)
    ensures
        r == lowered(c),
{
    if 'A' <= c && c <= 'Z' {
        ((c as u8) + 32) as char
    } else {
        c
    }
}

/// `str::eq_ignore_ascii_case` on texts.
pub fn eq_ignoring_case(a: &str, b: &str) -> (r: bool)
    ensures
        r == same_ignoring_case(a@, b@),
{
    let x = chars_of(a);
    let y = chars_of(b);
    if x.len() != y.len() {
        return false;
    }
    let mut i: usize = 0;
    while i < x.len()
        invariant
            i <= x@.len() == y@.len(),
            x@ == a@,
            y@ == b@,
            forall|j: int| 0 <= j < i ==> lowered(#[trigger] x@[j]) == lowered(y@[j]),
        decreases x@.len() - i,
    {
        if lower(x[i]) != lower(y[i]) {
            assert(lowered(a@[i as int]) != lowered(b@[i as int]));
            return false;
        }
        i += 1;
    }
    true
}

/// Three-way comparison of texts, as `str` orders them.
pub fn compare(a: &str, b: &str) -> (r: Order)
    ensures
        r == text_order(a@, b@),
{
    let x = chars_of(a);
    let y = chars_of(b);
    let mut i: usize = 0;
    proof {
        assert(x@.skip(0) =~= a@);
        assert(y@.skip(0) =~= b@);
    }
    while i < x.len() && i < y.len()
        invariant
            i <= x@.len(),
            i <= y@.len(),
            x@ == a@,
            y@ == b@,
            x@.take(i as int) == y@.take(i as int),
            precedes(a@, b@) == precedes(x@.skip(i as int), y@.skip(i as int)),
        decreases x@.len() - i,
    {
        let ghost u = x@.skip(i as int);
        let ghost v = y@.skip(i as int);
        if x[i] != y[i] {
            assert(u[0] == x@[i as int] && v[0] == y@[i as int]);
            assert(a@ != b@);
            return if x[i] < y[i] { Order::Less } else { Order::Greater };
        }
        proof {
            assert(u.drop_first() =~= x@.skip(i + 1));
            assert(v.drop_first() =~= y@.skip(i + 1));
            assert(x@.take(i + 1) =~= x@.take(i as int).push(x@[i as int]));
            assert(y@.take(i + 1) =~= y@.take(i as int).push(y@[i as int]));
        }
        i += 1;
    }
    proof {
        assert(x@.skip(i as int).len() == x@.len() - i);
        assert(y@.skip(i as int).len() == y@.len() - i);
    }
    if i < x.len() {
        assert(a@ != b@);
        Order::Greater
    } else if i < y.len() {
        assert(a@ != b@);
        Order::Less
    } else {
        assert(x@.take(i as int) =~= a@);
        assert(y@.take(i as int) =~= b@);
        Order::Equal
    }
}

/// How many items stand before the first `c`: all of them, if there is none.
pub open spec fn before<T>(s: Seq<T>, c: T) -> nat
    decreases s.len(),
{
    if s.len() == 0 || s[0] == c {
        0
    } else {
        1 + before(s.drop_first(), c)
    }
}

/// `before` is the one position up to which no `c` occurs and at which the
/// sequence ends or holds `c`.
pub proof fn before_is<T>(s: Seq<T>, c: T, k: nat)
    requires
        k <= s.len(),
        forall|j: int| 0 <= j < k ==> s[j] != c,
        k == s.len() || s[k as int] == c,
    ensures
        before(s, c) == k,
    decreases s.len(),
{
    if k > 0 {
        assert(s[0] != c);
        let t = s.drop_first();
        assert forall|j: int| 0 <= j < k - 1 implies t[j] != c by {
            assert(s[j + 1] != c);
        }
        before_is(t, c, (k - 1) as nat);
    }
}

/// What `before` says of the items.
pub proof fn before_bounds<T>(s: Seq<T>, c: T)
    ensures
        before(s, c) <= s.len(),
        forall|j: int| 0 <= j < before(s, c) ==> s[j] != c,
        before(s, c) < s.len() ==> s[before(s, c) as int] == c,
    decreases s.len(),
{
    if s.len() > 0 && s[0] != c {
        let t = s.drop_first();
        before_bounds(t, c);
        assert forall|j: int| 0 <= j < before(s, c) implies s[j] != c by {
            if j > 0 {
                assert(t[j - 1] != c);
            }
        }
    }
}

/// The pieces between the separators, `str::split` by one character: always
/// one piece more than there are separators.
pub open spec fn split<T>(s: Seq<T>, c: T) -> Seq<Seq<T>>
    decreases s.len(),
{
    let k = before(s, c);
    if k >= s.len() {
        seq![s]
    } else {
        seq![s.take(k as int)] + split(s.skip(k as int + 1), c)
    }
}

/// The pieces of `s` between the separators `c`.
pub fn split_at_each(s: &str, c: char) -> (r: Vec<String>)
    ensures
        views(r@) == split(s@, c),
        r@.len() > 0,
{
    let x = chars_of(s);
    let mut out: Vec<String> = Vec::new();
    let mut start: usize = 0;
    let mut i: usize = 0;
    proof {
        assert(x@.skip(0) =~= s@);
        assert(views(out@) + split(s@, c) =~= split(s@, c));
    }
    while i < x.len()
        invariant
            start <= i <= x@.len(),
            x@ == s@,
            forall|j: int| start <= j < i ==> x@[j] != c,
            views(out@) + split(x@.skip(start as int), c) == split(s@, c),
        decreases x@.len() - i,
    {
        if x[i] == c {
            let ghost rest = x@.skip(start as int);
            let ghost k = (i - start) as nat;
            let ghost out0 = out@;
            proof {
                before_is(rest, c, k);
                assert(rest.take(k as int) =~= x@.subrange(start as int, i as int));
                assert(rest.skip(k as int + 1) =~= x@.skip(i + 1));
            }
            out.push(string_of(&x, start, i));
            proof {
                assert(views(out@) =~= views(out0) + seq![rest.take(k as int)]);
                assert(views(out@) + split(x@.skip(i + 1), c) =~= views(out0) + split(rest, c));
            }
            start = i + 1;
        }
        i += 1;
    }
    let ghost rest = x@.skip(start as int);
    let ghost out0 = out@;
    proof {
        before_is(rest, c, rest.len());
        assert(rest =~= x@.subrange(start as int, x@.len() as int));
    }
    out.push(string_of(&x, start, x.len()));
    assert(views(out@) =~= views(out0) + split(rest, c));
    out
}

/// Whether `s` starts with `p`.
pub open spec fn has_prefix<T>(s: Seq<T>, p: Seq<T>) -> bool {
    p.len() <= s.len() && s.take(p.len() as int) == p
}

/// Whether `s` ends with `p`.
pub open spec fn has_suffix<T>(s: Seq<T>, p: Seq<T>) -> bool {
    p.len() <= s.len() && s.skip(s.len() - p.len()) == p
}

/// What follows the prefix `p`, if `s` has it.
pub open spec fn after_prefix(s: Seq<char>, p: Seq<char>) -> Option<Seq<char>> {
    if has_prefix(s, p) {
        Some(s.skip(p.len() as int))
    } else {
        None
    }
}

/// What stands before the suffix `p`, if `s` has it.
pub open spec fn before_suffix(s: Seq<char>, p: Seq<char>) -> Option<Seq<char>> {
    if has_suffix(s, p) {
        Some(s.take(s.len() - p.len()))
    } else {
        None
    }
}

/// The text that an optional string holds.
pub open spec fn opt_view(o: Option<String>) -> Option<Seq<char>> {
    match o {
        Some(s) => Some(s@),
        None => None,
    }
}

fn matches_at(x: &Vec<char>, at: usize, p: &Vec<char>) -> (r: bool)
    requires
        at + p@.len() <= x@.len(),
    ensures
        r == (x@.subrange(at as int, at + p@.len()) == p@),
{
    let end: usize = x.len();
    let mut i: usize = 0;
    while i < p.len()
        invariant
            i <= p@.len(),
            at + p@.len() <= x@.len() == end,
            forall|j: int| 0 <= j < i ==> x@[at + j] == p@[j],
        decreases p@.len() - i,
    {
        if x[at + i] != p[i] {
            assert(x@.subrange(at as int, at + p@.len())[i as int] != p@[i as int]);
            return false;
        }
        i += 1;
    }
    assert(x@.subrange(at as int, at + p@.len()) =~= p@);
    true
}

/// `str::strip_prefix`.
pub fn strip_prefix(s: &str, p: &str) -> (r: Option<String>)
    ensures
        opt_view(r) == after_prefix(s@, p@),
{
    let x = chars_of(s);
    let y = chars_of(p);
    if y.len() > x.len() {
        return None;
    }
    assert(x@.subrange(0, y@.len() as int) =~= s@.take(p@.len() as int));
    if matches_at(&x, 0, &y) {
        assert(x@.subrange(y@.len() as int, x@.len() as int) =~= s@.skip(p@.len() as int));
        Some(string_of(&x, y.len(), x.len()))
    } else {
        None
    }
}

/// `str::starts_with`.
pub fn starts_with(s: &str, p: &str) -> (r: bool)
    ensures
        r == has_prefix(s@, p@),
{
    strip_prefix(s, p).is_some()
}

/// `str::strip_suffix`.
pub fn strip_suffix(s: &str, p: &str) -> (r: Option<String>)
    ensures
        opt_view(r) == before_suffix(s@, p@),
{
    let x = chars_of(s);
    let y = chars_of(p);
    if y.len() > x.len() {
        return None;
    }
    let at: usize = x.len() - y.len();
    assert(x@.subrange(at as int, at + y@.len()) =~= s@.skip(s@.len() - p@.len()));
    if matches_at(&x, at, &y) {
        assert(x@.subrange(0, at as int) =~= s@.take(s@.len() - p@.len()));
        Some(string_of(&x, 0, at))
    } else {
        None
    }
}

/// `str::contains` of one character.
pub fn contains_char(s: &str, c: char) -> (r: bool)
    ensures
        r == s@.contains(c),
{
    let x = chars_of(s);
    let mut i: usize = 0;
    while i < x.len()
        invariant
            i <= x@.len(),
            x@ == s@,
            forall|j: int| 0 <= j < i ==> x@[j] != c,
        decreases x@.len() - i,
    {
        if x[i] == c {
            assert(s@[i as int] == c);
            return true;
        }
        i += 1;
    }
    false
}

/// The characters that Unicode calls white space.
pub open spec fn is_white(c: char) -> bool {
    ||| '\u{9}' <= c <= '\u{d}'
    ||| c == ' '
    ||| c == '\u{85}'
    ||| c == '\u{a0}'
    ||| c == '\u{1680}'
    ||| '\u{2000}' <= c <= '\u{200a}'
    ||| c == '\u{2028}'
    ||| c == '\u{2029}'
    ||| c == '\u{202f}'
    ||| c == '\u{205f}'
    ||| c == '\u{3000}'
}

fn white(c: char) -> (r: bool)
    ensures
        r == is_white(c),
{
    ('\u{9}' <= c && c <= '\u{d}') || c == ' ' || c == '\u{85}' || c == '\u{a0}' || c == '\u{1680}'
        || ('\u{2000}' <= c && c <= '\u{200a}') || c == '\u{2028}' || c == '\u{2029}'
        || c == '\u{202f}' || c == '\u{205f}' || c == '\u{3000}'
}

/// `s` without the white space it starts with.
pub open spec fn trimmed_start(s: Seq<char>) -> Seq<char>
    decreases s.len(),
{
    if s.len() > 0 && is_white(s[0]) {
        trimmed_start(s.drop_first())
    } else {
        s
    }
}

/// `s` without the white space it ends with.
pub open spec fn trimmed_end(s: Seq<char>) -> Seq<char>
    decreases s.len(),
{
    if s.len() > 0 && is_white(s.last()) {
        trimmed_end(s.drop_last())
    } else {
        s
    }
}

/// `s` without white space at either end.
pub open spec fn trimmed(s: Seq<char>) -> Seq<char> {
    trimmed_end(trimmed_start(s))
}

/// `str::trim`.
pub fn trim(s: &str) -> (r: String)
    ensures
        r@ == trimmed(s@),
{
    let x = chars_of(s);
    let mut from: usize = 0;
    assert(x@.skip(0) =~= s@);
    while from < x.len() && white(x[from])
        invariant
            from <= x@.len(),
            x@ == s@,
            trimmed_start(x@.skip(from as int)) == trimmed_start(s@),
        decreases x@.len() - from,
    {
        assert(x@.skip(from as int).drop_first() =~= x@.skip(from + 1));
        from += 1;
    }
    let mut to: usize = x.len();
    assert(x@.subrange(from as int, to as int) =~= x@.skip(from as int));
    while from < to && white(x[to - 1])
        invariant
            from <= to <= x@.len(),
            trimmed_end(x@.subrange(from as int, to as int)) == trimmed(s@),
        decreases to - from,
    {
        assert(x@.subrange(from as int, to as int).drop_last() =~= x@.subrange(
            from as int,
            to - 1,
        ));
        assert(x@.subrange(from as int, to as int).last() == x@[to - 1]);
        to -= 1;
    }
    proof {
        if from < to {
            assert(x@.subrange(from as int, to as int).last() == x@[to - 1]);
        }
    }
    string_of(&x, from, to)
}

/// `s` without the characters `c` that it starts with.
pub open spec fn without_leading(s: Seq<char>, c: char) -> Seq<char>
    decreases s.len(),
{
    if s.len() > 0 && s[0] == c {
        without_leading(s.drop_first(), c)
    } else {
        s
    }
}

/// `str::trim_start_matches` for one character.
pub fn trim_leading(s: &str, c: char) -> (r: String)
    ensures
        r@ == without_leading(s@, c),
{
    let x = chars_of(s);
    let mut from: usize = 0;
    assert(x@.skip(0) =~= s@);
    while from < x.len() && x[from] == c
        invariant
            from <= x@.len(),
            x@ == s@,
            without_leading(x@.skip(from as int), c) == without_leading(s@, c),
        decreases x@.len() - from,
    {
        assert(x@.skip(from as int).drop_first() =~= x@.skip(from + 1));
        from += 1;
    }
    assert(x@.subrange(from as int, x@.len() as int) =~= x@.skip(from as int));
    string_of(&x, from, x.len())
}

/// `s` with every `old_char` replaced by `new_char`.
pub open spec fn replaced(s: Seq<char>, old_char: char, new_char: char) -> Seq<char> {
    s.map_values(|c: char| if c == old_char { new_char } else { c })
}

/// `str::replace` of one character by another.
pub fn replace(s: &str, old_char: char, new_char: char) -> (r: String)
    ensures
        r@ == replaced(s@, old_char, new_char),
{
    let x = chars_of(s);
    let mut out = String::new();
    let mut i: usize = 0;
    while i < x.len()
        invariant
            i <= x@.len(),
            x@ == s@,
            out@ == replaced(s@, old_char, new_char).take(i as int),
        decreases x@.len() - i,
    {
        out.push(if x[i] == old_char { new_char } else { x[i] });
        proof {
            let all = replaced(s@, old_char, new_char);
            assert(all.take(i + 1) =~= all.take(i as int).push(all[i as int]));
        }
        i += 1;
    }
    assert(out@ =~= replaced(s@, old_char, new_char));
    out
}

/// The texts one after the other, `sep` between each two.
pub open spec fn joined(parts: Seq<Seq<char>>, sep: Seq<char>) -> Seq<char>
    decreases parts.len(),
{
    if parts.len() == 0 {
        seq![]
    } else if parts.len() == 1 {
        parts[0]
    } else {
        joined(parts.drop_last(), sep) + sep + parts.last()
    }
}

/// `[String]::join`.
pub fn join(parts: &Vec<String>, sep: &str) -> (r: String)
    ensures
        r@ == joined(views(parts@), sep@),
{
    let mut out = String::new();
    let mut i: usize = 0;
    let ghost all = views(parts@);
    assert(out@ =~= joined(all.take(0), sep@));
    while i < parts.len()
        invariant
            i <= parts@.len(),
            all == views(parts@),
            out@ == joined(all.take(i as int), sep@),
        decreases parts@.len() - i,
    {
        if i > 0 {
            out.append(sep);
        }
        out.append(parts[i].as_str());
        proof {
            let next = all.take(i + 1);
            assert(next.drop_last() =~= all.take(i as int));
            assert(next.last() == parts@[i as int]@);
            if i == 0 {
                assert(out@ =~= next[0]);
            }
        }
        i += 1;
    }
    assert(all.take(i as int) =~= all);
    out
}

/// Three-way comparison of integers.
pub fn compare_ints(a: i64, b: i64) -> (r: Order)
    ensures
        r == int_order(a as int, b as int),
{
    if a < b {
        Order::Less
    } else if a > b {
        Order::Greater
    } else {
        Order::Equal
    }
}

/// What stands before and after the first `c`, if there is one.
pub open spec fn cut(s: Seq<char>, c: char) -> Option<(Seq<char>, Seq<char>)> {
    let k = before(s, c);
    if k >= s.len() {
        None
    } else {
        Some((s.take(k as int), s.skip(k as int + 1)))
    }
}

/// `str::split_once` at one character.
pub fn split_once(s: &str, c: char) -> (r: Option<(String, String)>)
    ensures
        match r {
            Some((a, b)) => cut(s@, c) == Some((a@, b@)),
            None => cut(s@, c) is None,
        },
{
    let x = chars_of(s);
    let mut k: usize = 0;
    while k < x.len() && x[k] != c
        invariant
            k <= x@.len(),
            x@ == s@,
            forall|j: int| 0 <= j < k ==> x@[j] != c,
        decreases x@.len() - k,
    {
        k += 1;
    }
    proof {
        before_is(s@, c, k as nat);
    }
    if k == x.len() {
        None
    } else {
        assert(x@.subrange(0, k as int) =~= s@.take(k as int));
        assert(x@.subrange(k + 1, x@.len() as int) =~= s@.skip(k + 1));
        Some((string_of(&x, 0, k), string_of(&x, k + 1, x.len())))
    }
}

/// Two texts one after the other.
pub fn concat(a: &str, b: &str) -> (r: String)
    ensures
        r@ == a@ + b@,
{
    let mut out = copy_of(a);
    out.append(b);
    out
}

// -- laws -------------------------------------------------------------------

/// Comparing integers says which of them is less.
pub proof fn int_order_tells_the_less(a: int, b: int)
    ensures
        int_order(a, b) == Order::Less <==> a < b,
        int_order(a, b) == Order::Equal <==> a == b,
        int_order(a, b) == Order::Greater <==> b < a,
{
}

/// The opposite of less is greater, and the other way round.
pub proof fn reversing_swaps_less_and_greater()
    ensures
        Order::Less.reversed() == Order::Greater,
        Order::Greater.reversed() == Order::Less,
        Order::Equal.reversed() == Order::Equal,
{
}

/// Texts are compared by the first place where they differ: there the smaller
/// character comes first, and the text that ends there comes first. Texts that
/// differ nowhere are equal.
pub proof fn first_difference_decides(a: Seq<char>, b: Seq<char>, k: int)
    requires
        0 <= k <= a.len(),
        k <= b.len(),
        forall|j: int| 0 <= j < k ==> a[j] == b[j],
        k == a.len() || k == b.len() || a[k] != b[k],
    ensures
        precedes(a, b) <==> k < b.len() && (k == a.len() || a[k] < b[k]),
        text_order(a, b) == Order::Less <==> k < b.len() && (k == a.len() || a[k] < b[k]),
        text_order(a, b) == Order::Equal <==> k == a.len() && k == b.len(),
        text_order(a, b) == Order::Greater <==> k < a.len() && (k == b.len() || b[k] < a[k]),
    decreases k,
{
    if k > 0 {
        let x = a.drop_first();
        let y = b.drop_first();
        assert forall|j: int| 0 <= j < k - 1 implies x[j] == y[j] by {
            assert(a[j + 1] == b[j + 1]);
        }
        first_difference_decides(x, y, k - 1);
        assert(a[0] == b[0]);
        assert(a =~= seq![a[0]] + x);
        assert(b =~= seq![b[0]] + y);
    } else if a.len() == 0 && b.len() == 0 {
        assert(a =~= b);
    }
    if k == a.len() && k == b.len() {
        assert(a =~= b);
    }
}

proof fn joined_from_the_front(parts: Seq<Seq<char>>, sep: Seq<char>)
    requires
        parts.len() > 1,
    ensures
        joined(parts, sep) == parts[0] + sep + joined(parts.skip(1), sep),
    decreases parts.len(),
{
    let rest = parts.skip(1);
    if parts.len() == 2 {
        assert(parts.drop_last()[0] == parts[0]);
        assert(joined(parts.drop_last(), sep) == parts[0]);
        assert(rest[0] == parts.last());
    } else {
        joined_from_the_front(parts.drop_last(), sep);
        assert(parts.drop_last().skip(1) =~= rest.drop_last());
        assert(rest.last() == parts.last());
        assert(joined(parts, sep) =~= parts[0] + sep + joined(rest, sep));
    }
}

/// What is joined with a separator splits at it again into the same pieces, as
/// long as no piece holds the separator itself.
pub proof fn joined_pieces_split_again(parts: Seq<Seq<char>>, c: char)
    requires
        parts.len() > 0,
        forall|i: int| 0 <= i < parts.len() ==> !(#[trigger] parts[i]).contains(c),
    ensures
        split(joined(parts, seq![c]), c) == parts,
    decreases parts.len(),
{
    let s = joined(parts, seq![c]);
    let first = parts[0];
    assert forall|j: int| 0 <= j < first.len() implies first[j] != c by {
        assert(first.contains(first[j]));
    }
    if parts.len() == 1 {
        before_is(s, c, s.len());
        assert(split(s, c) =~= parts);
    } else {
        let rest = parts.skip(1);
        joined_from_the_front(parts, seq![c]);
        assert forall|i: int| 0 <= i < rest.len() implies !(#[trigger] rest[i]).contains(c) by {
            assert(rest[i] == parts[i + 1]);
        }
        joined_pieces_split_again(rest, c);
        assert(s[first.len() as int] == c);
        before_is(s, c, first.len());
        assert(s.take(first.len() as int) =~= first);
        assert(s.skip(first.len() as int + 1) =~= joined(rest, seq![c]));
        assert(split(s, c) =~= parts);
    }
}

/// The pieces of a text hold no separator, and joined with it they are the text.
pub proof fn split_pieces_join_again(s: Seq<char>, c: char)
    ensures
        split(s, c).len() > 0,
        forall|i: int| 0 <= i < split(s, c).len() ==> !(#[trigger] split(s, c)[i]).contains(c),
        joined(split(s, c), seq![c]) == s,
    decreases s.len(),
{
    before_bounds(s, c);
    let k = before(s, c) as int;
    let all = split(s, c);
    if k < s.len() {
        let rest = s.skip(k + 1);
        split_pieces_join_again(rest, c);
        assert forall|i: int| 0 <= i < all.len() implies !(#[trigger] all[i]).contains(c) by {
            if i > 0 {
                assert(all[i] == split(rest, c)[i - 1]);
            } else {
                assert(all[0] =~= s.take(k));
            }
        }
        assert(all.skip(1) =~= split(rest, c));
        joined_from_the_front(all, seq![c]);
        assert(s =~= s.take(k) + seq![c] + rest);
    } else {
        assert forall|i: int| 0 <= i < all.len() implies !(#[trigger] all[i]).contains(c) by {
            assert(all[i] == s);
        }
    }
}

/// A text is cut at its first separator; one without a separator is not cut.
pub proof fn cut_is_at_the_first(a: Seq<char>, c: char, b: Seq<char>)
    requires
        !a.contains(c),
    ensures
        cut(a + seq![c] + b, c) == Some((a, b)),
        cut(a, c) is None,
{
    let s = a + seq![c] + b;
    assert forall|j: int| 0 <= j < a.len() implies a[j] != c by {
        assert(a.contains(a[j]));
    }
    assert(s[a.len() as int] == c);
    before_is(s, c, a.len());
    before_is(a, c, a.len());
    assert(s.take(a.len() as int) =~= a);
    assert(s.skip(a.len() as int + 1) =~= b);
}

/// A text starts with a prefix exactly if it is the prefix and something after
/// it; what is left is that something. Likewise for a suffix.
pub proof fn prefix_and_suffix_come_off(p: Seq<char>, rest: Seq<char>, s: Seq<char>)
    ensures
        has_prefix(p + rest, p),
        after_prefix(p + rest, p) == Some(rest),
        after_prefix(s, p) matches Some(x) ==> s == p + x,
        has_prefix(s, p) ==> after_prefix(s, p) is Some,
        has_suffix(rest + p, p),
        before_suffix(rest + p, p) == Some(rest),
        before_suffix(s, p) matches Some(x) ==> s == x + p,
{
    let n = p.len() as int;
    assert((p + rest).take(n) =~= p);
    assert((p + rest).skip(n) =~= rest);
    assert((rest + p).skip(rest.len() as int) =~= p);
    assert((rest + p).take(rest.len() as int) =~= rest);
    if has_prefix(s, p) {
        assert(s =~= p + s.skip(n));
    }
    if has_suffix(s, p) {
        assert(s =~= s.take(s.len() - n) + p);
    }
}

/// Trimming takes off white space at both ends, all of it and nothing else.
pub proof fn trimming_takes_off_white_space(s: Seq<char>)
    ensures
        exists|i: int, j: int|
            0 <= i <= j <= s.len() && #[trigger] s.subrange(i, j) == trimmed(s) && (forall|k: int|
                (0 <= k < i || j <= k < s.len()) ==> is_white(#[trigger] s[k])),
        trimmed(s).len() > 0 ==> !is_white(trimmed(s)[0]) && !is_white(trimmed(s).last()),
{
    start_is_white(s);
    let t = trimmed_start(s);
    let i = s.len() - t.len();
    end_is_white(t);
    let j = i + trimmed(s).len();
    assert(s.subrange(i, j) =~= trimmed(s)) by {
        assert(t =~= s.skip(i));
        assert(trimmed(s) =~= t.take(trimmed(s).len() as int));
    }
    assert forall|k: int| (0 <= k < i || j <= k < s.len()) implies is_white(#[trigger] s[k]) by {
        if k >= j {
            assert(t[k - i] == s[k]);
        }
    }
    if trimmed(s).len() > 0 {
        assert(trimmed(s)[0] == t[0]);
    }
}

proof fn start_is_white(s: Seq<char>)
    ensures
        trimmed_start(s).len() <= s.len(),
        trimmed_start(s) == s.skip(s.len() - trimmed_start(s).len()),
        forall|k: int|
            0 <= k < s.len() - trimmed_start(s).len() ==> is_white(#[trigger] s[k]),
        trimmed_start(s).len() > 0 ==> !is_white(trimmed_start(s)[0]),
    decreases s.len(),
{
    if s.len() > 0 && is_white(s[0]) {
        let rest = s.drop_first();
        start_is_white(rest);
        assert(trimmed_start(s) =~= s.skip(s.len() - trimmed_start(s).len()));
        assert forall|k: int| 0 <= k < s.len() - trimmed_start(s).len() implies is_white(
            #[trigger] s[k],
        ) by {
            if k > 0 {
                assert(rest[k - 1] == s[k]);
            }
        }
    } else {
        assert(s =~= s.skip(0));
    }
}

proof fn end_is_white(s: Seq<char>)
    ensures
        trimmed_end(s).len() <= s.len(),
        trimmed_end(s) == s.take(trimmed_end(s).len() as int),
        forall|k: int| trimmed_end(s).len() <= k < s.len() ==> is_white(#[trigger] s[k]),
        trimmed_end(s).len() > 0 ==> !is_white(trimmed_end(s).last()),
    decreases s.len(),
{
    if s.len() > 0 && is_white(s.last()) {
        let rest = s.drop_last();
        end_is_white(rest);
        assert(trimmed_end(s) =~= s.take(trimmed_end(s).len() as int));
        assert forall|k: int| trimmed_end(s).len() <= k < s.len() implies is_white(
            #[trigger] s[k],
        ) by {
            if k < rest.len() {
                assert(rest[k] == s[k]);
            }
        }
    } else {
        assert(s =~= s.take(s.len() as int));
    }
}

/// Text without white space at its ends stays as it is when it is trimmed.
pub proof fn trimming_keeps_the_rest(s: Seq<char>)
    requires
        s.len() > 0 ==> !is_white(s[0]) && !is_white(s.last()),
    ensures
        trimmed(s) == s,
{
}

/// Spaces, tabs and line ends are white space; no visible ASCII character is.
pub proof fn white_space_is_not_seen(c: char)
    ensures
        c == ' ' || c == '\t' || c == '\n' || c == '\r' ==> is_white(c),
        '!' <= c <= '~' ==> !is_white(c),
{
}

/// Leading characters are taken off, all of them and no other.
pub proof fn leading_characters_come_off(s: Seq<char>, c: char)
    ensures
        without_leading(s, c).len() <= s.len(),
        without_leading(s, c) == s.skip(s.len() - without_leading(s, c).len()),
        forall|k: int| 0 <= k < s.len() - without_leading(s, c).len() ==> #[trigger] s[k] == c,
        without_leading(s, c).len() > 0 ==> without_leading(s, c)[0] != c,
    decreases s.len(),
{
    if s.len() > 0 && s[0] == c {
        let rest = s.drop_first();
        leading_characters_come_off(rest, c);
        assert(without_leading(s, c) =~= s.skip(s.len() - without_leading(s, c).len()));
        assert forall|k: int| 0 <= k < s.len() - without_leading(s, c).len() implies #[trigger] s[k]
            == c by {
            if k > 0 {
                assert(rest[k - 1] == s[k]);
            }
        }
    } else {
        assert(s =~= s.skip(0));
    }
}

/// Case is ignored for the letters `A` to `Z` and `a` to `z` alone: two texts
/// are the same then if at each place they have one character, or a capital
/// letter and its small form, which is 32 further on.
pub proof fn case_is_that_of_letters(a: Seq<char>, b: Seq<char>)
    ensures
        same_ignoring_case(a, b) <==> a.len() == b.len() && forall|i: int|
            0 <= i < a.len() ==> #[trigger] a[i] == b[i] || ('A' <= a[i] <= 'Z' && b[i] as int
                == a[i] as int + 32) || ('A' <= b[i] <= 'Z' && a[i] as int == b[i] as int + 32),
{
    if a.len() == b.len() {
        assert forall|i: int| 0 <= i < a.len() implies (lowered(#[trigger] a[i]) == lowered(b[i])
            <==> a[i] == b[i] || ('A' <= a[i] <= 'Z' && b[i] as int == a[i] as int + 32) || (
        'A' <= b[i] <= 'Z' && a[i] as int == b[i] as int + 32)) by {}
    }
}

/// Texts that are joined in two lots, the separator between them, are joined as
/// one; a single text is itself, and no text at all is empty.
pub proof fn joining_in_lots(a: Seq<Seq<char>>, b: Seq<Seq<char>>, sep: Seq<char>, one: Seq<char>)
    ensures
        a.len() > 0 && b.len() > 0 ==> joined(a + b, sep) == joined(a, sep) + sep + joined(b, sep),
        joined(seq![one], sep) == one,
        joined(seq![], sep) == Seq::<char>::empty(),
    decreases b.len(),
{
    if a.len() > 0 && b.len() > 0 {
        let last = b.last();
        let rest = b.drop_last();
        let all = a + b;
        assert(all.drop_last() =~= a + rest);
        assert(all.last() == last);
        if rest.len() == 0 {
            assert(a + rest =~= a);
            assert(b[0] == last);
        } else {
            joining_in_lots(a, rest, sep, one);
            assert(joined(all, sep) =~= joined(a, sep) + sep + joined(b, sep));
        }
    }
}

/// Each text that is joined is found in the result.
pub proof fn joined_holds_each(parts: Seq<Seq<char>>, sep: Seq<char>, i: int)
    requires
        0 <= i < parts.len(),
    ensures
        is_within(parts[i], joined(parts, sep)),
    decreases parts.len(),
{
    let n = parts.len() - 1;
    if parts.len() == 1 {
        assert(parts[0] =~= seq![] + parts[0] + seq![]);
        within_by(seq![], parts[i], seq![]);
    } else if i == n {
        let head = joined(parts.drop_last(), sep) + sep;
        within_by(head, parts[i], seq![]);
        assert(head + parts[i] + seq![] =~= joined(parts, sep));
    } else {
        let rest = parts.drop_last();
        joined_holds_each(rest, sep, i);
        assert(rest[i] == parts[i]);
        let s = joined(rest, sep);
        let (x, y) = choose|x: Seq<char>, y: Seq<char>| s == #[trigger] (x + parts[i] + y);
        within_by(x, parts[i], y + sep + parts.last());
        assert(x + parts[i] + (y + sep + parts.last()) =~= joined(parts, sep));
    }
}

/// Whether a text is found in another.
pub open spec fn is_within(t: Seq<char>, s: Seq<char>) -> bool {
    exists|x: Seq<char>, y: Seq<char>| s == #[trigger] (x + t + y)
}

/// A text is found in what is put around it, and in what is put around that.
pub proof fn within_by(x: Seq<char>, t: Seq<char>, y: Seq<char>)
    ensures
        is_within(t, x + t + y),
{
}

/// What is found in a text is found in a longer one around it.
pub proof fn within_more(t: Seq<char>, s: Seq<char>, x: Seq<char>, y: Seq<char>)
    requires
        is_within(t, s),
    ensures
        is_within(t, x + s + y),
{
    let (u, v) = choose|u: Seq<char>, v: Seq<char>| s == #[trigger] (u + t + v);
    within_by(x + u, t, v + y);
    assert(x + u + t + (v + y) =~= x + s + y);
}

/// What is found in a text that is found in another is found in that other.
pub proof fn within_through(t: Seq<char>, s: Seq<char>, all: Seq<char>)
    requires
        is_within(t, s),
        is_within(s, all),
    ensures
        is_within(t, all),
{
    let (x, y) = choose|x: Seq<char>, y: Seq<char>| all == #[trigger] (x + s + y);
    within_more(t, s, x, y);
}

/// Replacing one character by another changes that one, wherever it stands, and
/// no other.
pub proof fn replacing_changes_one_character(s: Seq<char>, from: char, to: char, i: int)
    ensures
        replaced(s, from, to).len() == s.len(),
        0 <= i < s.len() ==> replaced(s, from, to)[i] == if s[i] == from {
            to
        } else {
            s[i]
        },
        from != to ==> !replaced(s, from, to).contains(from),
{
    let t = replaced(s, from, to);
    if from != to && t.contains(from) {
        let k = t.index_of(from);
        assert(t[k] == from);
    }
}

/// The white space of Unicode, by code point.
pub proof fn white_space_by_code_point(c: char)
    ensures
        is_white(c) <==> 0x9 <= c as u32 <= 0xd || c as u32 == 0x20 || c as u32 == 0x85 || c as u32
            == 0xa0 || c as u32 == 0x1680 || 0x2000 <= c as u32 <= 0x200a || c as u32 == 0x2028
            || c as u32 == 0x2029 || c as u32 == 0x202f || c as u32 == 0x205f || c as u32 == 0x3000,
{
}

}
