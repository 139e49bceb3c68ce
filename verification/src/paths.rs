//! File paths as the bytes that the operating system holds.

use vstd::prelude::*;
use vstd::utf8::{decode_utf8, valid_utf8};

use crate::outside;
use crate::text;

verus! {

/// Where one component of a path stands in its bytes.
pub struct Span {
    pub start: usize,
    pub end: usize,
}

/// The bytes of a component.
pub open spec fn component(p: Seq<u8>, s: (int, int)) -> Seq<u8> {
    p.subrange(s.0, s.1)
}

/// The components of a path from the byte `at` on. Repeated slashes and
/// components that are a single dot are passed over.
pub open spec fn spans_from(p: Seq<u8>, at: int) -> Seq<(int, int)>
    decreases p.len() + 1 - at,
{
    if at < 0 || at >= p.len() {
        seq![]
    } else {
        proof {
            text::before_bounds(p.skip(at), 47u8);
        }
        let end = at + text::before(p.skip(at), 47u8);
        let rest = spans_from(p, end + 1);
        if end == at || p.subrange(at, end) == seq![46u8] {
            rest
        } else {
            seq![(at, end)] + rest
        }
    }
}

/// The components of a path: a leading slash, or a leading single dot, is one
/// of them; then come the names.
pub open spec fn spans(p: Seq<u8>) -> Seq<(int, int)> {
    if p.len() > 0 && p[0] == 47u8 {
        seq![(0int, 1int)] + spans_from(p, 1)
    } else if p.take(text::before(p, 47u8) as int) == seq![46u8] {
        seq![(0int, 1int)] + spans_from(p, 2)
    } else {
        spans_from(p, 0)
    }
}

/// The part of `p` after the components of `base`, if `p` starts with them.
pub open spec fn stripped(p: Seq<u8>, base: Seq<u8>) -> Option<Seq<u8>> {
    let a = spans(p);
    let b = spans(base);
    if b.len() <= a.len() && forall|i: int|
        0 <= i < b.len() ==> component(p, #[trigger] a[i]) == component(base, b[i]) {
        if a.len() == b.len() {
            Some(seq![])
        } else {
            Some(p.subrange(a[b.len() as int].0, a.last().1))
        }
    } else {
        None
    }
}

/// The name that a path ends in: none if it ends in a root, a leading dot or
/// a step to the parent.
pub open spec fn file_name(p: Seq<u8>) -> Option<Seq<u8>> {
    let a = spans(p);
    if a.len() == 0 {
        None
    } else {
        let name = component(p, a.last());
        if name == seq![47u8] || name == seq![46u8] || name == seq![46u8, 46u8] {
            None
        } else {
            Some(name)
        }
    }
}

/// Whether a path names a Markdown file: a name, and after it `.md`.
pub open spec fn is_markdown_path(p: Seq<u8>) -> bool {
    match file_name(p) {
        Some(name) => name.len() > 3 && text::has_suffix(name, seq![46u8, 109u8, 100u8]),
        None => false,
    }
}

/// Whether a name is text that starts with a dot.
pub open spec fn dot_prefixed(name: Seq<u8>) -> bool {
    valid_utf8(name) && name.len() > 0 && name[0] == 46u8
}

/// A path as text, its backslashes turned into slashes, if it is text.
pub open spec fn slashed(p: Seq<u8>) -> Option<Seq<char>> {
    if valid_utf8(p) {
        Some(text::replaced(decode_utf8(p), '\\', '/'))
    } else {
        None
    }
}

/// The text of a path inside `root`, relative to it: none if it lies outside,
/// is not text, or has a component that starts with a dot.
pub open spec fn relative_text(root: Seq<u8>, p: Seq<u8>) -> Option<Seq<char>> {
    match stripped(p, root) {
        None => None,
        Some(rel) => if forall|i: int|
            0 <= i < spans(rel).len() ==> visible(component(rel, #[trigger] spans(rel)[i])) {
            slashed(rel)
        } else {
            None
        },
    }
}

/// Whether a component is text that does not start with a dot.
pub open spec fn visible(c: Seq<u8>) -> bool {
    valid_utf8(c) && !(c.len() > 0 && c[0] == 46u8)
}

/// `p` taken relative to `base`: `p` itself if it starts with a slash.
pub open spec fn joined(base: Seq<u8>, p: Seq<u8>) -> Seq<u8> {
    if p.len() > 0 && p[0] == 47u8 {
        p
    } else if base.len() > 0 && base.last() != 47u8 {
        base + seq![47u8] + p
    } else {
        base + p
    }
}

/// Each component lies inside the path, after those before it.
pub proof fn spans_from_bounds(p: Seq<u8>, at: int)
    requires
        0 <= at,
    ensures
        forall|i: int|
            0 <= i < spans_from(p, at).len() ==> at <= (#[trigger] spans_from(p, at)[i]).0
                < spans_from(p, at)[i].1 <= p.len(),
        forall|i: int, j: int|
            0 <= i < j < spans_from(p, at).len() ==> (#[trigger] spans_from(p, at)[i]).1
                < (#[trigger] spans_from(p, at)[j]).0,
    decreases p.len() + 1 - at,
{
    if at < p.len() {
        let end = at + text::before(p.skip(at), 47u8);
        text::before_bounds(p.skip(at), 47u8);
        spans_from_bounds(p, end + 1);
        let all = spans_from(p, at);
        let rest = spans_from(p, end + 1);
        if end == at || p.subrange(at, end) == seq![46u8] {
            assert(all == rest);
        } else {
            assert(all =~= seq![(at, end)] + rest);
            assert(all[0] == (at, end));
            assert forall|i: int| 0 < i < all.len() implies #[trigger] all[i] == rest[i - 1] by {}
        }
    }
}

/// Each component lies inside the path, after those before it.
pub proof fn spans_bounds(p: Seq<u8>)
    ensures
        forall|i: int|
            0 <= i < spans(p).len() ==> 0 <= (#[trigger] spans(p)[i]).0 < spans(p)[i].1 <= p.len(),
        forall|i: int, j: int|
            0 <= i < j < spans(p).len() ==> (#[trigger] spans(p)[i]).1 <= (
            #[trigger] spans(p)[j]).0,
{
    text::before_bounds(p, 47u8);
    if p.len() > 0 && p[0] == 47u8 {
        spans_from_bounds(p, 1);
    } else if p.take(text::before(p, 47u8) as int) == seq![46u8] {
        assert(p.take(text::before(p, 47u8) as int).len() == 1);
        spans_from_bounds(p, 2);
    } else {
        spans_from_bounds(p, 0);
    }
}

pub open spec fn span_views(v: Seq<Span>) -> Seq<(int, int)> {
    v.map_values(|s: Span| (s.start as int, s.end as int))
}

fn components_from(p: &[u8], at: usize, out: &mut Vec<Span>)
    ensures
        span_views(final(out)@) == span_views(old(out)@) + spans_from(p@, at as int),
{
    let n: usize = p.len();
    let mut i: usize = at;
    let ghost first = span_views(out@);
    assert(first + spans_from(p@, at as int) =~= span_views(out@) + spans_from(p@, i as int));
    while i < n
        invariant
            n == p@.len(),
            span_views(out@) + spans_from(p@, i as int) == first + spans_from(p@, at as int),
        decreases n - i,
    {
        let mut end: usize = i;
        while end < n && p[end] != 47
            invariant
                i <= end <= n == p@.len(),
                forall|j: int| i <= j < end ==> p@[j] != 47u8,
            decreases n - end,
        {
            end += 1;
        }
        let ghost before = span_views(out@);
        proof {
            text::before_is(p@.skip(i as int), 47u8, (end - i) as nat);
            if end == i + 1 {
                assert(p@.subrange(i as int, end as int) =~= seq![p@[i as int]]);
            } else if p@.subrange(i as int, end as int) == seq![46u8] {
                assert(p@.subrange(i as int, end as int).len() == 1);
            }
        }
        if end > i && !(end == i + 1 && p[i] == 46) {
            out.push(Span { start: i, end });
            proof {
                assert(span_views(out@) =~= before.push((i as int, end as int)));
                if end == i + 1 {
                    assert(p@.subrange(i as int, end as int)[0] == p@[i as int]);
                }
                let rest = spans_from(p@, end + 1);
                assert(span_views(out@) + rest =~= before + (seq![(i as int, end as int)] + rest));
            }
        }
        if end == n {
            assert(spans_from(p@, end + 1) =~= seq![]);
            assert(spans_from(p@, n as int) =~= seq![]);
            i = n;
        } else {
            i = end + 1;
        }
    }
    assert(spans_from(p@, i as int) =~= seq![]);
    assert(span_views(out@) =~= first + spans_from(p@, at as int));
}

/// The components of a path.
pub fn components(p: &[u8]) -> (r: Vec<Span>)
    ensures
        span_views(r@) == spans(p@),
{
    let mut out: Vec<Span> = Vec::new();
    let n: usize = p.len();
    if n > 0 && p[0] == 47 {
        out.push(Span { start: 0, end: 1 });
        assert(span_views(out@) =~= seq![(0int, 1int)]);
        components_from(p, 1, &mut out);
        return out;
    }
    let dot = n > 0 && p[0] == 46 && (n == 1 || p[1] == 47);
    proof {
        text::before_bounds(p@, 47u8);
        if dot {
            text::before_is(p@, 47u8, 1);
            assert(p@.take(1) =~= seq![46u8]);
        } else if p@.take(text::before(p@, 47u8) as int) == seq![46u8] {
            assert(p@.take(text::before(p@, 47u8) as int).len() == 1);
            assert(p@.take(1)[0] == 46u8);
            assert(false);
        }
    }
    if dot {
        out.push(Span { start: 0, end: 1 });
        assert(span_views(out@) =~= seq![(0int, 1int)]);
        components_from(p, 2, &mut out);
    } else {
        components_from(p, 0, &mut out);
        assert(span_views(Seq::<Span>::empty()) + spans_from(p@, 0) =~= spans_from(p@, 0));
    }
    out
}

fn same_component(p: &[u8], a: &Span, q: &[u8], b: &Span) -> (r: bool)
    requires
        a.start <= a.end <= p@.len(),
        b.start <= b.end <= q@.len(),
    ensures
        r == (p@.subrange(a.start as int, a.end as int) == q@.subrange(
            b.start as int,
            b.end as int,
        )),
{
    let ghost x = p@.subrange(a.start as int, a.end as int);
    let ghost y = q@.subrange(b.start as int, b.end as int);
    let n: usize = a.end - a.start;
    if n != b.end - b.start {
        assert(x.len() != y.len());
        return false;
    }
    let mut i: usize = 0;
    while i < n
        invariant
            i <= n == a.end - a.start == b.end - b.start,
            a.end <= p@.len(),
            b.end <= q@.len(),
            x == p@.subrange(a.start as int, a.end as int),
            y == q@.subrange(b.start as int, b.end as int),
            forall|j: int| 0 <= j < i ==> x[j] == y[j],
        decreases n - i,
    {
        if p[a.start + i] != q[b.start + i] {
            assert(x[i as int] != y[i as int]);
            return false;
        }
        i += 1;
    }
    assert(x =~= y);
    true
}

/// A copy of `p[from..to]`.
pub fn bytes_of(p: &[u8], from: usize, to: usize) -> (r: Vec<u8>)
    requires
        from <= to <= p@.len(),
    ensures
        r@ == p@.subrange(from as int, to as int),
{
    let mut out: Vec<u8> = Vec::new();
    let mut i: usize = from;
    while i < to
        invariant
            from <= i <= to <= p@.len(),
            out@ == p@.subrange(from as int, i as int),
        decreases to - i,
    {
        out.push(p[i]);
        i += 1;
        assert(p@.subrange(from as int, i as int) =~= p@.subrange(from as int, i - 1).push(
            p@[i - 1],
        ));
    }
    out
}

/// A fresh copy of some bytes.
pub fn copy_bytes(p: &[u8]) -> (r: Vec<u8>)
    ensures
        r@ == p@,
{
    assert(p@.subrange(0, p@.len() as int) =~= p@);
    bytes_of(p, 0, p.len())
}

/// `Path::strip_prefix`: the part of `p` after `base`.
pub fn strip_prefix(p: &[u8], base: &[u8]) -> (r: Option<Vec<u8>>)
    ensures
        r is Some <==> stripped(p@, base@) is Some,
        r matches Some(rel) ==> stripped(p@, base@) == Some(rel@),
{
    let a = components(p);
    let b = components(base);
    proof {
        spans_bounds(p@);
        spans_bounds(base@);
        assert(spans(p@).len() == a@.len());
        assert(spans(base@).len() == b@.len());
    }
    if b.len() > a.len() {
        return None;
    }
    let mut i: usize = 0;
    while i < b.len()
        invariant
            i <= b@.len() <= a@.len(),
            span_views(a@) == spans(p@),
            span_views(b@) == spans(base@),
            forall|j: int|
                0 <= j < spans(p@).len() ==> 0 <= (#[trigger] spans(p@)[j]).0 < spans(p@)[j].1
                    <= p@.len(),
            forall|j: int|
                0 <= j < spans(base@).len() ==> 0 <= (#[trigger] spans(base@)[j]).0 < spans(
                    base@,
                )[j].1 <= base@.len(),
            forall|j: int|
                0 <= j < i ==> component(p@, #[trigger] spans(p@)[j]) == component(
                    base@,
                    spans(base@)[j],
                ),
        decreases b@.len() - i,
    {
        proof {
            assert(spans(p@)[i as int] == (a@[i as int].start as int, a@[i as int].end as int));
            assert(spans(base@)[i as int] == (b@[i as int].start as int, b@[i as int].end as int));
        }
        if !same_component(p, &a[i], base, &b[i]) {
            return None;
        }
        i += 1;
    }
    if a.len() == b.len() {
        let out: Vec<u8> = Vec::new();
        assert(out@ =~= seq![]);
        return Some(out);
    }
    proof {
        assert(spans(p@)[b@.len() as int] == (
            a@[b@.len() as int].start as int,
            a@[b@.len() as int].end as int,
        ));
        assert(spans(p@).last() == (a@.last().start as int, a@.last().end as int));
    }
    Some(bytes_of(p, a[b.len()].start, a[a.len() - 1].end))
}

/// Whether the path names a Markdown file.
pub fn is_markdown(p: &[u8]) -> (r: bool)
    ensures
        r == is_markdown_path(p@),
{
    let a = components(p);
    proof {
        spans_bounds(p@);
        assert(spans(p@).len() == a@.len());
    }
    if a.len() == 0 {
        return false;
    }
    let last = &a[a.len() - 1];
    let ghost name = component(p@, spans(p@).last());
    proof {
        assert(spans(p@).last() == (last.start as int, last.end as int));
    }
    if last.end - last.start <= 3 {
        return false;
    }
    let n: usize = last.end;
    proof {
        assert(name.len() > 3);
        assert(file_name(p@) == Some(name));
        let tail = name.skip(name.len() - 3);
        assert(tail[0] == p@[n - 3] && tail[1] == p@[n - 2] && tail[2] == p@[n - 1]);
        if tail[0] == 46u8 && tail[1] == 109u8 && tail[2] == 100u8 {
            assert(tail =~= seq![46u8, 109u8, 100u8]);
        } else {
            let md = seq![46u8, 109u8, 100u8];
            assert(md[0] == 46u8 && md[1] == 109u8 && md[2] == 100u8);
        }
    }
    p[n - 3] == 46 && p[n - 2] == 109 && p[n - 1] == 100
}

/// Whether a name is text that starts with a dot.
pub fn is_dot_prefixed(name: &[u8]) -> (r: bool)
    ensures
        r == dot_prefixed(name@),
{
    name.len() > 0 && name[0] == 46 && outside::text_of(name).is_some()
}

/// A path as text with forward slashes.
pub fn to_slashed(p: &[u8]) -> (r: Option<String>)
    ensures
        text::opt_view(r) == slashed(p@),
{
    match outside::text_of(p) {
        Some(s) => Some(text::replace(s.as_str(), '\\', '/')),
        None => None,
    }
}

/// The text of a path inside `root`, relative to it. Paths outside `root`,
/// paths that are not text and paths with a dot-prefixed component have none.
pub fn relative(root: &[u8], p: &[u8]) -> (r: Option<String>)
    ensures
        text::opt_view(r) == relative_text(root@, p@),
{
    let rel = match strip_prefix(p, root) {
        None => {
            return None;
        },
        Some(rel) => rel,
    };
    let parts = components(rel.as_slice());
    proof {
        spans_bounds(rel@);
        assert(spans(rel@).len() == parts@.len());
    }
    let mut i: usize = 0;
    while i < parts.len()
        invariant
            i <= parts@.len(),
            span_views(parts@) == spans(rel@),
            stripped(p@, root@) == Some(rel@),
            forall|j: int|
                0 <= j < spans(rel@).len() ==> 0 <= (#[trigger] spans(rel@)[j]).0 < spans(rel@)[j].1
                    <= rel@.len(),
            forall|j: int| 0 <= j < i ==> visible(component(rel@, #[trigger] spans(rel@)[j])),
        decreases parts@.len() - i,
    {
        proof {
            assert(spans(rel@)[i as int] == (
                parts@[i as int].start as int,
                parts@[i as int].end as int,
            ));
        }
        let name = bytes_of(rel.as_slice(), parts[i].start, parts[i].end);
        if name[0] == 46 || outside::text_of(name.as_slice()).is_none() {
            assert(!visible(component(rel@, spans(rel@)[i as int])));
            return None;
        }
        i += 1;
    }
    to_slashed(rel.as_slice())
}

/// `Path::join`.
pub fn join(base: &[u8], p: &[u8]) -> (r: Vec<u8>)
    ensures
        r@ == joined(base@, p@),
{
    if p.len() > 0 && p[0] == 47 {
        return copy_bytes(p);
    }
    let mut out = copy_bytes(base);
    if base.len() > 0 && base[base.len() - 1] != 47 {
        out.push(47);
    }
    let mut rest = copy_bytes(p);
    out.append(&mut rest);
    assert(out@ =~= joined(base@, p@));
    out
}

// -- laws -------------------------------------------------------------------

/// Components moved by `by` bytes.
pub open spec fn moved(a: Seq<(int, int)>, by: int) -> Seq<(int, int)> {
    a.map_values(|s: (int, int)| (s.0 + by, s.1 + by))
}

/// Whether a path starts with a name, and ends with one: it has no leading
/// slash or single dot, and no slash or single dot behind its last name.
pub open spec fn tight(p: Seq<u8>) -> bool {
    let a = spans_from(p, 0);
    a.len() > 0 && a[0].0 == 0 && a.last().1 == p.len()
}

/// What stands before a path moves its components.
pub proof fn spans_behind(pre: Seq<u8>, p: Seq<u8>, at: int)
    requires
        0 <= at <= p.len(),
    ensures
        spans_from(pre + p, pre.len() + at) == moved(spans_from(p, at), pre.len() as int),
    decreases p.len() + 1 - at,
{
    let all = pre + p;
    let m = pre.len() as int;
    if at < p.len() {
        assert(all.skip(m + at) =~= p.skip(at));
        text::before_bounds(p.skip(at), 47u8);
        let end = at + text::before(p.skip(at), 47u8);
        assert(all.subrange(m + at, m + end) =~= p.subrange(at, end));
        if end < p.len() {
            spans_behind(pre, p, end + 1);
        } else {
            assert(spans_from(all, m + end + 1) =~= seq![]);
            assert(spans_from(p, end + 1) =~= seq![]);
            assert(moved(seq![], m) =~= seq![]);
        }
        let rest = spans_from(p, end + 1);
        assert(moved(seq![(at, end)] + rest, m) =~= seq![(m + at, m + end)] + moved(rest, m));
    } else {
        assert(spans_from(all, m + at) =~= seq![]);
        assert(moved(spans_from(p, at), m) =~= seq![]);
    }
}

/// What stands behind a slash adds its components.
pub proof fn spans_joined(base: Seq<u8>, p: Seq<u8>, at: int)
    requires
        0 <= at <= base.len() + 1,
    ensures
        spans_from(base + seq![47u8] + p, at) == spans_from(base, at) + moved(
            spans_from(p, 0),
            base.len() as int + 1,
        ),
    decreases base.len() + 1 - at,
{
    let pre = base + seq![47u8];
    let all = pre + p;
    let n = base.len() as int;
    spans_behind(pre, p, 0);
    let tail = moved(spans_from(p, 0), n + 1);
    if at == n + 1 {
        assert(spans_from(base, at) + tail =~= tail);
    } else if at == n {
        text::before_is(all.skip(at), 47u8, 0);
        assert(spans_from(base, at) + tail =~= tail);
    } else {
        text::before_bounds(base.skip(at), 47u8);
        let k = text::before(base.skip(at), 47u8);
        let end = at + k;
        assert forall|j: int| 0 <= j < k implies all.skip(at)[j] != 47u8 by {
            assert(base.skip(at)[j] != 47u8);
        }
        if end < n {
            assert(base.skip(at)[k as int] == 47u8);
        }
        text::before_is(all.skip(at), 47u8, k);
        assert(all.subrange(at, end) =~= base.subrange(at, end));
        spans_joined(base, p, end + 1);
        let rest = spans_from(base, end + 1);
        assert((seq![(at, end)] + rest) + tail =~= seq![(at, end)] + (rest + tail));
    }
}

/// A slash at the end of a path adds no component.
proof fn spans_of_slash_ended(base: Seq<u8>, at: int)
    requires
        0 <= at <= base.len() + 1,
    ensures
        spans_from(base + seq![47u8], at) == spans_from(base, at),
{
    let none = Seq::<u8>::empty();
    spans_joined(base, none, at);
    assert(base + seq![47u8] + none =~= base + seq![47u8]);
    assert(spans_from(base, at) + moved(spans_from(none, 0), base.len() as int + 1) =~= spans_from(
        base,
        at,
    ));
}

/// A path that starts with a name has only names for components.
pub proof fn tight_spans(p: Seq<u8>)
    requires
        tight(p),
    ensures
        p.len() > 0,
        p[0] != 47u8,
        spans(p) == spans_from(p, 0),
{
    spans_from_bounds(p, 0);
    text::before_bounds(p, 47u8);
    assert(p.skip(0) =~= p);
    let end = text::before(p, 47u8) as int;
    if end == 0 || p.subrange(0, end) == seq![46u8] {
        spans_from_bounds(p, end + 1);
        assert(spans_from(p, 0) == spans_from(p, end + 1));
        assert(spans_from(p, 0)[0].0 >= end + 1);
    }
    assert(p.take(end) =~= p.subrange(0, end));
}

/// The components of a path that was joined: those of the one, then those of
/// the other.
pub proof fn spans_of_joined(base: Seq<u8>, p: Seq<u8>)
    requires
        tight(p),
        base.len() > 0,
    ensures
        joined(base, p).len() >= p.len(),
        joined(base, p) == base + joined(base, p).skip(base.len() as int),
        joined(base, p).skip(joined(base, p).len() - p.len()) == p,
        spans(joined(base, p)) == spans(base) + moved(
            spans_from(p, 0),
            joined(base, p).len() - p.len(),
        ),
{
    tight_spans(p);
    let all = joined(base, p);
    let body = if base.last() == 47u8 {
        base.drop_last()
    } else {
        base
    };
    let n = body.len() as int;
    assert(all =~= body + seq![47u8] + p);
    assert(all =~= base + all.skip(base.len() as int));
    assert(all.skip(all.len() - p.len()) =~= p);
    if base.last() == 47u8 {
        assert(base =~= body + seq![47u8]);
    }
    let tail = moved(spans_from(p, 0), n + 1);
    text::before_bounds(base, 47u8);
    let k = text::before(base, 47u8);
    if base[0] == 47u8 {
        spans_joined(body, p, 1);
        if base.last() == 47u8 {
            spans_of_slash_ended(body, 1);
        }
        assert(spans(all) =~= spans(base) + tail);
    } else {
        assert forall|j: int| 0 <= j < k implies all[j] != 47u8 by {
            assert(base[j] != 47u8);
        }
        if k < base.len() {
            assert(base[k as int] == 47u8);
            assert(all[k as int] == 47u8);
        } else {
            assert(base.last() != 47u8);
            assert(all[k as int] == 47u8);
        }
        text::before_is(all, 47u8, k);
        assert(all.take(k as int) =~= base.take(k as int));
        let from: int = if base.take(k as int) == seq![46u8] {
            2
        } else {
            0
        };
        if from == 2 {
            assert(base.take(k as int).len() == 1);
        }
        assert(from <= n + 1);
        spans_joined(body, p, from);
        if base.last() == 47u8 {
            spans_of_slash_ended(body, from);
        }
        assert(spans(all) =~= spans(base) + tail);
    }
}

/// Joining is undone by stripping: a path that starts and ends with a name,
/// joined to a base, is what lies behind that base.
pub proof fn joined_strips_back(base: Seq<u8>, p: Seq<u8>)
    requires
        tight(p),
    ensures
        stripped(joined(base, p), base) == Some(p),
{
    tight_spans(p);
    let all = joined(base, p);
    if base.len() == 0 {
        assert(all =~= p);
        text::before_bounds(base, 47u8);
        assert(base.take(0).len() == 0);
        assert(spans(base) =~= seq![]);
        assert(p.subrange(0, p.len() as int) =~= p);
    } else {
        spans_of_joined(base, p);
        spans_bounds(base);
        let a = spans(all);
        let b = spans(base);
        let m = all.len() - p.len();
        let tail = moved(spans_from(p, 0), m);
        assert forall|i: int| 0 <= i < b.len() implies component(all, #[trigger] a[i])
            == component(base, b[i]) by {
            assert(a[i] == b[i]);
            assert(all.subrange(b[i].0, b[i].1) =~= base.subrange(b[i].0, b[i].1));
        }
        assert(a[b.len() as int] == tail[0]);
        assert(a.last() == tail.last());
        assert(all.subrange(m, all.len() as int) =~= all.skip(m));
    }
}

/// The components from a component on are those that are left.
proof fn spans_from_a_component(p: Seq<u8>, at: int, i: int)
    requires
        0 <= at,
        0 <= i < spans_from(p, at).len(),
    ensures
        spans_from(p, spans_from(p, at)[i].0) == spans_from(p, at).skip(i),
    decreases p.len() + 1 - at,
{
    text::before_bounds(p.skip(at), 47u8);
    let end = at + text::before(p.skip(at), 47u8);
    let all = spans_from(p, at);
    let rest = spans_from(p, end + 1);
    if end == at || p.subrange(at, end) == seq![46u8] {
        assert(all == rest);
        spans_from_a_component(p, end + 1, i);
    } else if i == 0 {
        assert(all.skip(0) =~= all);
    } else {
        assert(all[i] == rest[i - 1]);
        spans_from_a_component(p, end + 1, i - 1);
        assert(all.skip(i) =~= rest.skip(i - 1));
    }
}

/// What stands behind the last component adds none.
proof fn spans_up_to_the_last(p: Seq<u8>, at: int)
    requires
        0 <= at,
        spans_from(p, at).len() > 0,
    ensures
        spans_from(p.take(spans_from(p, at).last().1), at) == spans_from(p, at),
    decreases p.len() + 1 - at,
{
    spans_from_bounds(p, at);
    text::before_bounds(p.skip(at), 47u8);
    let k = text::before(p.skip(at), 47u8);
    let end = at + k;
    let all = spans_from(p, at);
    let rest = spans_from(p, end + 1);
    let e = all.last().1;
    let cut = p.take(e);
    let plain = end == at || p.subrange(at, end) == seq![46u8];
    if plain || rest.len() > 0 {
        if !plain {
            assert(all.last() == rest.last());
        }
        spans_from_bounds(p, end + 1);
        assert(end + 1 <= rest.last().0 < e);
    } else {
        assert(all =~= seq![(at, end)]);
    }
    assert(end <= e <= p.len());
    assert forall|j: int| 0 <= j < k implies cut.skip(at)[j] != 47u8 by {
        assert(p.skip(at)[j] != 47u8);
    }
    if end < e {
        assert(p.skip(at)[k as int] == 47u8);
    }
    text::before_is(cut.skip(at), 47u8, k);
    assert(cut.subrange(at, end) =~= p.subrange(at, end));
    if rest.len() > 0 {
        spans_up_to_the_last(p, end + 1);
    } else {
        assert(spans_from(cut, end + 1) =~= seq![]);
    }
}

/// A run of names cut out of a path starts and ends with a name.
proof fn cut_is_tight(p: Seq<u8>, at: int, i: int)
    requires
        0 <= at,
        0 <= i < spans_from(p, at).len(),
    ensures
        tight(p.subrange(spans_from(p, at)[i].0, spans_from(p, at).last().1)),
{
    let all = spans_from(p, at);
    spans_from_bounds(p, at);
    let s = all[i].0;
    let e = all.last().1;
    spans_from_a_component(p, at, i);
    let left = all.skip(i);
    assert(left[0] == all[i]);
    assert(left.last() == all.last());
    spans_up_to_the_last(p, s);
    let cut = p.subrange(s, e);
    assert(p.take(e) =~= p.take(s) + cut);
    spans_behind(p.take(s), cut, 0);
    let own = spans_from(cut, 0);
    assert(moved(own, s) == left);
    assert(moved(own, s)[0] == (own[0].0 + s, own[0].1 + s));
    assert(moved(own, s).last() == (own.last().0 + s, own.last().1 + s));
}

/// A path that is told relative to a root, made absolute again and stripped of
/// that root, is the same path.
pub proof fn relative_leads_back(root: Seq<u8>, p: Seq<u8>)
    requires
        relative_text(root, p) is Some,
        stripped(p, root)->0.len() > 0,
    ensures
        stripped(joined(root, stripped(p, root)->0), root) == stripped(p, root),
{
    let rel = stripped(p, root)->0;
    let a = spans(p);
    let b = spans(root);
    spans_bounds(p);
    let k = b.len() as int;
    text::before_bounds(p, 47u8);
    text::before_bounds(root, 47u8);
    let dotted = p.take(text::before(p, 47u8) as int) == seq![46u8];
    if p.len() > 0 && p[0] == 47u8 {
        if k > 0 {
            let tail = spans_from(p, 1);
            assert(a[k] == tail[k - 1]);
            assert(a.last() == tail.last());
            cut_is_tight(p, 1, k - 1);
            joined_strips_back(root, rel);
        } else {
            if root.len() > 0 {
                spans_of_nonempty(root);
            }
            assert(root =~= seq![]);
            assert(rel =~= p.take(a.last().1));
            whole_of_absolute(p);
        }
    } else if dotted {
        assert(p.take(text::before(p, 47u8) as int).len() == 1);
        assert(p[0] == p.take(text::before(p, 47u8) as int)[0]);
        if k > 0 {
            let tail = spans_from(p, 2);
            assert(a[k] == tail[k - 1]);
            assert(a.last() == tail.last());
            cut_is_tight(p, 2, k - 1);
            joined_strips_back(root, rel);
        } else {
            assert(a[0] == (0int, 1int));
            let e = a.last().1;
            assert(rel == p.subrange(0, e));
            text::before_is(rel, 47u8, 1);
            assert(rel.take(1) =~= seq![46u8]);
            assert(spans(rel)[0] == (0int, 1int));
            assert(component(rel, spans(rel)[0]) =~= seq![46u8]);
            assert(!visible(component(rel, spans(rel)[0])));
        }
    } else {
        assert(a.last() == spans_from(p, 0).last());
        cut_is_tight(p, 0, k);
        joined_strips_back(root, rel);
    }
}

/// Nothing joined to a root leads back to that root.
pub proof fn root_leads_back(root: Seq<u8>)
    ensures
        stripped(joined(root, seq![]), root) == Some(Seq::<u8>::empty()),
{
    let none = Seq::<u8>::empty();
    let all = joined(root, none);
    spans_bounds(root);
    if root.len() > 0 && root.last() != 47u8 {
        assert(all =~= root + seq![47u8]);
        text::before_bounds(root, 47u8);
        let k = text::before(root, 47u8);
        assert forall|j: int| 0 <= j < k implies all[j] != 47u8 by {
            assert(root[j] != 47u8);
        }
        if k < root.len() {
            assert(root[k as int] == 47u8);
        }
        text::before_is(all, 47u8, k);
        assert(all.take(k as int) =~= root.take(k as int));
        if root.take(k as int) == seq![46u8] {
            assert(root.take(k as int).len() == 1);
            spans_of_slash_ended(root, 2);
        }
        spans_of_slash_ended(root, 1);
        spans_of_slash_ended(root, 0);
        assert(spans(all) =~= spans(root));
        assert forall|i: int| 0 <= i < spans(root).len() implies component(
            all,
            #[trigger] spans(all)[i],
        ) == component(root, spans(root)[i]) by {
            let s = spans(root)[i];
            assert(all.subrange(s.0, s.1) =~= root.subrange(s.0, s.1));
        }
    } else {
        assert(all =~= root);
    }
}

/// Only the empty path has no components.
proof fn spans_of_nonempty(root: Seq<u8>)
    requires
        root.len() > 0,
    ensures
        spans(root).len() > 0,
{
    text::before_bounds(root, 47u8);
    let k = text::before(root, 47u8) as int;
    assert(root.skip(0) =~= root);
    if root[0] != 47u8 && root.take(k) != seq![46u8] {
        assert(root.subrange(0, k) =~= root.take(k));
        assert(spans_from(root, 0) =~= seq![(0int, k)] + spans_from(root, k + 1));
    }
}

/// An absolute path without what stands behind its last name, stripped of
/// nothing, is itself.
proof fn whole_of_absolute(p: Seq<u8>)
    requires
        p.len() > 0,
        p[0] == 47u8,
    ensures
        stripped(joined(seq![], p.take(spans(p).last().1)), seq![]) == Some(
            p.take(spans(p).last().1),
        ),
{
    spans_bounds(p);
    let a = spans(p);
    let tail = spans_from(p, 1);
    let e = a.last().1;
    let cut = p.take(e);
    if tail.len() > 0 {
        assert(a.last() == tail.last());
        spans_up_to_the_last(p, 1);
    } else {
        assert(a =~= seq![(0int, 1int)]);
        assert(spans_from(cut, 1) =~= seq![]);
    }
    assert(spans(cut) =~= a);
    let none = Seq::<u8>::empty();
    assert(none.take(0).len() == 0);
    text::before_bounds(none, 47u8);
    assert(spans(none) =~= seq![]);
    assert(joined(none, cut) == cut);
    assert(cut.subrange(0, e) =~= cut);
}

/// A name that is text is dot-prefixed exactly if its first byte is a dot.
pub proof fn dots_are_told_by_the_first_byte(name: Seq<u8>)
    ensures
        valid_utf8(seq![46u8] + name) ==> dot_prefixed(seq![46u8] + name),
        name.len() > 0 && name[0] != 46u8 ==> !dot_prefixed(name),
        !dot_prefixed(seq![]),
{
}

}
