//! Paths of plain names: names that are not empty, do not start with a dot and
//! have no backslash, with one slash between each two. For these, a path as
//! text and a path as bytes are two forms of one thing.

use vstd::prelude::*;
use vstd::utf8::{
    decode_utf8, decode_utf8_encode_utf8, decode_utf8_split, encode_scalar, encode_utf8,
    encode_utf8_decode_utf8, encode_utf8_first_scalar, encode_utf8_valid_utf8,
    is_char_boundary_iff_not_is_continuation_byte, valid_utf8, valid_utf8_split,
};

use crate::paths;
use crate::store;
use crate::text;
use crate::vault;

verus! {

/// Whether a slash at `i`, if there is one, leads on to a plain name.
pub open spec fn leads_on(p: Seq<u8>, i: int) -> bool {
    p[i] == 47u8 ==> i + 1 < p.len() && p[i + 1] != 47u8 && p[i + 1] != 46u8
}

/// Whether a relative path is one of plain names.
pub open spec fn plain_path(p: Seq<u8>) -> bool {
    &&& p.len() > 0 && p[0] != 47u8 && p[0] != 46u8
    &&& forall|i: int| 0 <= i < p.len() ==> #[trigger] leads_on(p, i)
    &&& !p.contains(92u8)
}

/// Whether a slash at `i`, if there is one, leads on to a plain name.
pub open spec fn text_leads_on(t: Seq<char>, i: int) -> bool {
    t[i] == '/' ==> i + 1 < t.len() && t[i + 1] != '/' && t[i + 1] != '.'
}

/// Whether the text of a relative path is one of plain names.
pub open spec fn plain_text(t: Seq<char>) -> bool {
    &&& t.len() > 0 && t[0] != '/' && t[0] != '.'
    &&& forall|i: int| 0 <= i < t.len() ==> #[trigger] text_leads_on(t, i)
    &&& !t.contains('\\')
}

/// Whether a path lies beneath a directory, by plain names.
pub open spec fn beneath(start: Seq<u8>, p: Seq<u8>) -> bool {
    exists|b: Seq<u8>| #[trigger] plain_path(b) && p == paths::joined(start, b)
}

/// The encoding of one character.
proof fn encoding_of_one(c: char)
    ensures
        encode_utf8(seq![c]) == encode_scalar(c as u32),
{
    let rest = seq![c].drop_first();
    assert(rest.len() == 0);
    assert(encode_utf8(rest) =~= seq![]);
    assert(encode_utf8(seq![c]) =~= encode_scalar(c as u32));
}

/// The byte 47 stands for a slash alone, the byte 46 for a dot alone and the
/// byte 92 for a backslash alone: no other character has one of them in its
/// encoding.
proof fn scalar_bytes(c: char)
    ensures
        encode_scalar(c as u32).len() > 0,
        encode_scalar('/' as u32) == seq![47u8],
        encode_scalar('.' as u32) == seq![46u8],
        encode_scalar('\\' as u32) == seq![92u8],
        forall|i: int|
            0 <= i < encode_scalar(c as u32).len() ==> (#[trigger] encode_scalar(c as u32)[i]
                == 47u8 ==> c == '/') && (encode_scalar(c as u32)[i] == 46u8 ==> c == '.') && (
            encode_scalar(c as u32)[i] == 92u8 ==> c == '\\'),
{
    let u = c as u32;
    let one = seq![c];
    encode_utf8_first_scalar(one);
    encoding_of_one(c);
    let b = encode_scalar(u);
    assert('/' as u32 == 47u32);
    assert('.' as u32 == 46u32);
    assert('\\' as u32 == 92u32);
    assert((47u32 & 0x7F) as u8 == 47u8) by (bit_vector);
    assert((46u32 & 0x7F) as u8 == 46u8) by (bit_vector);
    assert((92u32 & 0x7F) as u8 == 92u8) by (bit_vector);
    assert(encode_scalar(47u32) =~= seq![47u8]);
    assert(encode_scalar(46u32) =~= seq![46u8]);
    assert(encode_scalar(92u32) =~= seq![92u8]);
    if u < 128 {
        assert((u & 0x7F) as u8 as u32 == u) by (bit_vector)
            requires
                u < 128,
        ;
        assert(b.len() == 1 && b[0] as u32 == u);
        assert(u == 47u32 ==> c == '/');
        assert(u == 46u32 ==> c == '.');
        assert(u == 92u32 ==> c == '\\');
    } else {
        assert forall|i: int| 0 <= i < b.len() implies #[trigger] b[i] >= 128 by {}
    }
}

/// The encoding of text in two parts is that of the one and then of the other.
proof fn encoding_splits(a: Seq<char>, b: Seq<char>)
    ensures
        encode_utf8(a + b) == encode_utf8(a) + encode_utf8(b),
    decreases a.len(),
{
    if a.len() == 0 {
        assert(a + b =~= b);
        assert(encode_utf8(a) + encode_utf8(b) =~= encode_utf8(b));
    } else {
        encoding_splits(a.drop_first(), b);
        assert((a + b).drop_first() =~= a.drop_first() + b);
        assert(encode_utf8(a + b) =~= encode_utf8(a) + encode_utf8(b));
    }
}

/// A backslash in text is a backslash in its encoding, and nothing else is.
proof fn backslashes_are_kept(t: Seq<char>)
    ensures
        encode_utf8(t).contains(92u8) <==> t.contains('\\'),
    decreases t.len(),
{
    if t.len() > 0 {
        let rest = t.drop_first();
        let head = encode_scalar(t[0] as u32);
        let b = encode_utf8(t);
        let tail = encode_utf8(rest);
        scalar_bytes(t[0]);
        backslashes_are_kept(rest);
        assert(b == head + tail);
        if b.contains(92u8) {
            let i = b.index_of(92u8);
            if i < head.len() {
                assert(head[i] == 92u8);
                assert(t[0] == '\\');
            } else {
                assert(tail[i - head.len()] == 92u8);
                assert(tail.contains(92u8));
                assert(rest[rest.index_of('\\')] == t[rest.index_of('\\') + 1]);
            }
        }
        if t.contains('\\') {
            let i = t.index_of('\\');
            if i == 0 {
                assert(b[0] == 92u8);
            } else {
                assert(rest[i - 1] == '\\');
                assert(rest.contains('\\'));
                assert(b[head.len() + tail.index_of(92u8)] == 92u8);
            }
        }
    }
}

proof fn slashes_lead_on(t: Seq<char>)
    requires
        forall|i: int| 0 <= i < t.len() ==> #[trigger] text_leads_on(t, i),
    ensures
        forall|i: int|
            0 <= i < encode_utf8(t).len() ==> #[trigger] leads_on(encode_utf8(t), i),
        t.len() > 0 <==> encode_utf8(t).len() > 0,
        t.len() > 0 ==> (encode_utf8(t)[0] == 47u8 <==> t[0] == '/'),
        t.len() > 0 ==> (encode_utf8(t)[0] == 46u8 <==> t[0] == '.'),
    decreases t.len(),
{
    if t.len() > 0 {
        let rest = t.drop_first();
        let head = encode_scalar(t[0] as u32);
        let b = encode_utf8(t);
        let tail = encode_utf8(rest);
        scalar_bytes(t[0]);
        assert forall|i: int| 0 <= i < rest.len() implies #[trigger] text_leads_on(rest, i) by {
            assert(text_leads_on(t, i + 1));
        }
        slashes_lead_on(rest);
        assert(b == head + tail);
        assert(b[0] == head[0]);
        assert forall|i: int| 0 <= i < b.len() implies #[trigger] leads_on(b, i) by {
            if i < head.len() {
                if b[i] == 47u8 {
                    assert(head[i] == 47u8);
                    assert(t[0] == '/');
                    assert(text_leads_on(t, 0));
                    assert(rest[0] == t[1]);
                    assert(b[1] == tail[0]);
                }
            } else {
                let j = i - head.len();
                assert(leads_on(tail, j));
                assert(b[i] == tail[j]);
                if j + 1 < tail.len() {
                    assert(b[i + 1] == tail[j + 1]);
                }
            }
        }
    }
}

/// Text of plain names is encoded as a path of plain names.
pub proof fn plain_text_is_a_plain_path(t: Seq<char>)
    requires
        plain_text(t),
    ensures
        plain_path(encode_utf8(t)),
{
    slashes_lead_on(t);
    backslashes_are_kept(t);
}

/// The components of a path of plain names, from one name on.
proof fn plain_spans(p: Seq<u8>, at: int)
    requires
        plain_path(p),
        0 <= at < p.len(),
        p[at] != 47u8,
        p[at] != 46u8,
    ensures
        ({
            let a = paths::spans_from(p, at);
            &&& a.len() > 0
            &&& a[0].0 == at
            &&& a.last().1 == p.len()
            &&& valid_utf8(p.skip(at)) ==> forall|i: int|
                0 <= i < a.len() ==> paths::visible(paths::component(p, #[trigger] a[i]))
        }),
    decreases p.len() - at,
{
    let q = p.skip(at);
    text::before_bounds(q, 47u8);
    let k = text::before(q, 47u8) as int;
    let end = at + k;
    let c = p.subrange(at, end);
    assert(q[0] == p[at]);
    assert(k > 0);
    assert(c[0] == p[at]);
    assert(c != seq![46u8]);
    let rest = paths::spans_from(p, end + 1);
    let all = paths::spans_from(p, at);
    assert(all == seq![(at, end)] + rest);
    if end < p.len() {
        assert(q[k] == p[end]);
        assert(leads_on(p, end));
        plain_spans(p, end + 1);
        assert(all.last() == rest.last());
    } else {
        assert(rest =~= seq![]);
    }
    if valid_utf8(q) {
        if end < p.len() {
            is_char_boundary_iff_not_is_continuation_byte(q, k);
            valid_utf8_split(q, k);
            let right = q.subrange(k, q.len() as int);
            assert(right[0] == 47u8);
            assert(vstd::utf8::pop_first_scalar(right) =~= p.skip(end + 1));
        }
        assert(q.subrange(0, k) =~= c);
        if end == p.len() {
            assert(q =~= c);
        }
        assert forall|i: int| 0 <= i < all.len() implies paths::visible(
            paths::component(p, #[trigger] all[i]),
        ) by {
            if i == 0 {
                assert(paths::component(p, all[0]) =~= c);
            } else {
                assert(all[i] == rest[i - 1]);
            }
        }
    }
}

/// A path of plain names starts and ends with a name.
proof fn plain_is_tight(p: Seq<u8>)
    requires
        plain_path(p),
    ensures
        paths::tight(p),
        p.last() != 47u8,
        valid_utf8(p) ==> forall|i: int|
            0 <= i < paths::spans(p).len() ==> paths::visible(
                paths::component(p, #[trigger] paths::spans(p)[i]),
            ),
{
    plain_spans(p, 0);
    assert(p.skip(0) =~= p);
    assert(leads_on(p, p.len() - 1));
    paths::tight_spans(p);
}

/// Text without a backslash is told as it is.
proof fn told_as_it_is(p: Seq<u8>)
    requires
        valid_utf8(p),
        !p.contains(92u8),
    ensures
        paths::slashed(p) == Some(decode_utf8(p)),
{
    let t = decode_utf8(p);
    decode_utf8_encode_utf8(p);
    backslashes_are_kept(t);
    assert forall|i: int| 0 <= i < t.len() implies t[i] != '\\' by {
        assert(t.contains(t[i]));
    }
    assert(text::replaced(t, '\\', '/') =~= t);
}

/// A path that is made absolute and told relative to the root again is the same
/// text, whatever the root. This is of plain names: a name that starts with a
/// dot is told nowhere, and a backslash is told as a slash.
pub proof fn absolute_path_leads_back(root: Seq<u8>, rel: Seq<char>)
    requires
        plain_text(rel),
    ensures
        paths::relative_text(root, paths::joined(root, encode_utf8(rel))) == Some(rel),
        vault::note_path(root, paths::joined(root, encode_utf8(rel))) == Some(rel),
{
    let p = encode_utf8(rel);
    plain_text_is_a_plain_path(rel);
    encode_utf8_valid_utf8(rel);
    encode_utf8_decode_utf8(rel);
    plain_is_tight(p);
    paths::joined_strips_back(root, p);
    told_as_it_is(p);
}

/// The path that a plain name path is joined to stands before it.
proof fn joined_is_behind(root: Seq<u8>, b: Seq<u8>)
    requires
        plain_path(b),
    ensures
        paths::joined(root, b) == paths::joined(root, seq![]) + b,
{
    let pre = if root.len() > 0 && root.last() != 47u8 {
        root + seq![47u8]
    } else {
        root
    };
    assert(paths::joined(root, seq![]) =~= pre);
    assert(paths::joined(root, b) =~= pre + b);
}

/// What is joined to a directory in the root is joined to the root by the path
/// of the directory and its own.
proof fn joined_twice(root: Seq<u8>, d: Seq<u8>, b: Seq<u8>)
    requires
        plain_path(d),
        plain_path(b),
    ensures
        plain_path(d + seq![47u8] + b),
        paths::joined(paths::joined(root, d), b) == paths::joined(root, d + seq![47u8] + b),
{
    let all = d + seq![47u8] + b;
    let n = d.len() as int;
    assert forall|i: int| 0 <= i < all.len() implies #[trigger] leads_on(all, i) by {
        if i < n {
            assert(leads_on(d, i));
            if i + 1 < n {
                assert(all[i + 1] == d[i + 1]);
            }
        } else if i == n {
            assert(all[n + 1] == b[0]);
        } else {
            assert(leads_on(b, i - n - 1));
            if i + 1 < all.len() {
                assert(all[i + 1] == b[i - n]);
            }
        }
    }
    assert(all[0] == d[0]);
    assert(!all.contains(92u8)) by {
        if all.contains(92u8) {
            let i = all.index_of(92u8);
            if i < n {
                assert(d[i] == 92u8);
            } else if i > n {
                assert(b[i - n - 1] == 92u8);
            }
        }
    }
    plain_is_tight(d);
    joined_is_behind(root, d);
    joined_is_behind(root, all);
    let start = paths::joined(root, d);
    assert(start.last() == d.last());
    assert(paths::joined(start, b) =~= paths::joined(root, seq![]) + all);
}

/// What follows a directory and a slash in a path of plain names is one too.
proof fn plain_behind(u: Seq<u8>, n: int)
    requires
        plain_path(u),
        0 < n < u.len(),
        u[n] == 47u8,
    ensures
        n + 1 < u.len(),
        plain_path(u.skip(n + 1)),
{
    let b = u.skip(n + 1);
    assert(leads_on(u, n));
    assert forall|i: int| 0 <= i < b.len() implies #[trigger] leads_on(b, i) by {
        assert(leads_on(u, i + n + 1));
        if i + 1 < b.len() {
            assert(b[i + 1] == u[i + n + 2]);
        }
    }
    assert(!b.contains(92u8)) by {
        if b.contains(92u8) {
            let i = b.index_of(92u8);
            assert(u[i + n + 1] == 92u8);
        }
    }
}

/// A slash in text stands at a slash in its encoding.
proof fn cut_at_a_slash(u: Seq<u8>, dir: Seq<char>)
    requires
        valid_utf8(u),
    ensures
        store::is_under(decode_utf8(u), dir) <==> text::has_prefix(
            u,
            encode_utf8(dir) + seq![47u8],
        ),
{
    reveal_strlit("/");
    let t = decode_utf8(u);
    let d = encode_utf8(dir);
    let n = d.len() as int;
    let slash = dir + "/"@;
    assert("/"@ =~= seq!['/']);
    if store::is_under(t, dir) {
        let x = t.skip(slash.len() as int);
        assert(t =~= slash + x);
        decode_utf8_encode_utf8(u);
        encoding_splits(slash, x);
        encoding_splits(dir, "/"@);
        scalar_bytes('/');
        encoding_of_one('/');
        assert(u.take(n + 1) =~= d + seq![47u8]);
    }
    if text::has_prefix(u, d + seq![47u8]) {
        let pre = d + seq![47u8];
        assert(u.take(n + 1)[n] == pre[n]);
        assert(u[n] == 47u8);
        is_char_boundary_iff_not_is_continuation_byte(u, n);
        valid_utf8_split(u, n);
        decode_utf8_split(u, n);
        assert(u.subrange(0, n) =~= u.take(n + 1).take(n));
        assert(pre.take(n) =~= d);
        encode_utf8_decode_utf8(dir);
        let right = u.subrange(n, u.len() as int);
        assert(right[0] == 47u8);
        let rest = decode_utf8(right);
        assert(rest[0] == '/') by {
            assert((47u8 & 0x7F) as u32 == 47u32) by (bit_vector);
            assert(vstd::utf8::decode_first_scalar(right) == 47u32);
        }
        assert(t == dir + rest);
        assert(t.take(slash.len() as int) =~= slash);
    }
}

/// A path of plain names lies beneath a directory of the root exactly if it
/// goes on from the path of the directory.
proof fn beneath_goes_on(root: Seq<u8>, d: Seq<u8>, u: Seq<u8>)
    requires
        plain_path(d),
        plain_path(u),
    ensures
        beneath(paths::joined(root, d), paths::joined(root, u)) <==> text::has_prefix(
            u,
            d + seq![47u8],
        ),
{
    let n = d.len() as int;
    let start = paths::joined(root, d);
    let p = paths::joined(root, u);
    joined_is_behind(root, u);
    if beneath(start, p) {
        let b = choose|b: Seq<u8>| #[trigger] plain_path(b) && p == paths::joined(start, b);
        let all = d + seq![47u8] + b;
        joined_twice(root, d, b);
        joined_is_behind(root, all);
        let pre = paths::joined(root, seq![]);
        assert(p.skip(pre.len() as int) =~= u);
        assert(p.skip(pre.len() as int) =~= all);
        assert(u.take(n + 1) =~= d + seq![47u8]);
    }
    if text::has_prefix(u, d + seq![47u8]) {
        let pre = d + seq![47u8];
        assert(u.take(n + 1)[n] == pre[n]);
        plain_behind(u, n);
        let b = u.skip(n + 1);
        assert(u =~= pre + b);
        joined_twice(root, d, b);
        assert(plain_path(b) && p == paths::joined(start, b));
    }
}

/// A file lies beneath a directory of the vault exactly if its note's path goes
/// on from the path of the directory.
pub proof fn beneath_is_under(root: Seq<u8>, dir: Seq<char>, p: Seq<u8>)
    requires
        plain_text(dir),
        beneath(root, p),
        vault::note_path(root, p) is Some,
    ensures
        beneath(paths::joined(root, encode_utf8(dir)), p) <==> store::is_under(
            vault::note_path(root, p)->0,
            dir,
        ),
{
    let u = choose|u: Seq<u8>| #[trigger] plain_path(u) && p == paths::joined(root, u);
    plain_text_is_a_plain_path(dir);
    plain_is_tight(u);
    paths::joined_strips_back(root, u);
    told_as_it_is(u);
    cut_at_a_slash(u, dir);
    beneath_goes_on(root, encode_utf8(dir), u);
}

/// What lies beneath a directory of the vault lies beneath its root.
pub proof fn beneath_a_directory(root: Seq<u8>, dir: Seq<char>, p: Seq<u8>)
    requires
        plain_text(dir),
        beneath(paths::joined(root, encode_utf8(dir)), p),
    ensures
        beneath(root, p),
{
    let d = encode_utf8(dir);
    let b = choose|b: Seq<u8>| #[trigger]
        plain_path(b) && p == paths::joined(paths::joined(root, d), b);
    plain_text_is_a_plain_path(dir);
    joined_twice(root, d, b);
}

proof fn last_name(p: Seq<u8>, at: int)
    requires
        plain_path(p),
        0 <= at < p.len(),
        p[at] != 47u8,
        p[at] != 46u8,
    ensures
        ({
            let s = paths::spans_from(p, at).last().0;
            &&& paths::spans_from(p, at).len() > 0
            &&& paths::spans_from(p, at).last().1 == p.len()
            &&& at <= s < p.len()
            &&& p[s] != 47u8 && p[s] != 46u8
            &&& forall|j: int| s <= j < p.len() ==> p[j] != 47u8
        }),
    decreases p.len() - at,
{
    plain_spans(p, at);
    let q = p.skip(at);
    text::before_bounds(q, 47u8);
    let k = text::before(q, 47u8) as int;
    let end = at + k;
    assert(q[0] == p[at]);
    let c = p.subrange(at, end);
    assert(c[0] == p[at]);
    let rest = paths::spans_from(p, end + 1);
    let all = paths::spans_from(p, at);
    assert(all == seq![(at, end)] + rest);
    if end < p.len() {
        assert(q[k] == p[end]);
        assert(leads_on(p, end));
        last_name(p, end + 1);
        assert(all.last() == rest.last());
    } else {
        assert(rest =~= seq![]);
        assert forall|j: int| at <= j < p.len() implies p[j] != 47u8 by {
            assert(q[j - at] == p[j]);
        }
    }
}

proof fn markdown_by_last_bytes(root: Seq<u8>, p: Seq<u8>)
    requires
        plain_path(p),
    ensures
        paths::is_markdown_path(paths::joined(root, p)) <==> p.len() >= 3 && p[p.len() - 3] == 46u8
            && p[p.len() - 2] == 109u8 && p[p.len() - 1] == 100u8,
{
    plain_is_tight(p);
    last_name(p, 0);
    paths::tight_spans(p);
    let own = paths::spans_from(p, 0);
    let s = own.last().0;
    let all = paths::joined(root, p);
    let n = p.len() as int;
    let name = p.subrange(s, n);
    let m = all.len() - n;
    if root.len() == 0 {
        assert(all =~= p);
    } else {
        paths::spans_of_joined(root, p);
        let moved = paths::moved(own, m);
        assert(moved.last() == (s + m, n + m));
        assert(paths::spans(all).last() == moved.last());
        assert(all.skip(m) =~= p);
    }
    let found = paths::component(all, paths::spans(all).last());
    assert(found =~= name) by {
        assert forall|j: int| 0 <= j < name.len() implies found[j] == name[j] by {
            if root.len() > 0 {
                assert(all[s + m + j] == all.skip(m)[s + j]);
            }
        }
    }
    assert(name[0] == p[s]);
    assert(paths::file_name(all) == Some(name));
    let end = seq![46u8, 109u8, 100u8];
    if n >= 3 && p[n - 3] == 46u8 && p[n - 2] == 109u8 && p[n - 1] == 100u8 {
        if s > n - 3 {
            if s == n - 2 {
                assert(p[n - 3] != 47u8);
            }
            before_a_name(p, s);
        }
        assert(s < n - 3);
        assert(name.skip(name.len() - 3) =~= end);
    }
    if name.len() > 3 && text::has_suffix(name, end) {
        let t = name.skip(name.len() - 3);
        assert(t[0] == p[n - 3] && t[1] == p[n - 2] && t[2] == p[n - 1]);
        assert(end[0] == 46u8 && end[1] == 109u8 && end[2] == 100u8);
    }
}

/// A name that is not the first has a slash before it.
proof fn before_a_name(p: Seq<u8>, s: int)
    requires
        plain_path(p),
        s == paths::spans_from(p, 0).last().0,
    ensures
        s == 0 || p[s - 1] == 47u8,
{
    slash_before_last(p, 0);
}

proof fn slash_before_last(p: Seq<u8>, at: int)
    requires
        plain_path(p),
        0 <= at < p.len(),
        p[at] != 47u8,
        p[at] != 46u8,
    ensures
        paths::spans_from(p, at).len() > 0,
        paths::spans_from(p, at).last().0 == at || p[paths::spans_from(p, at).last().0 - 1] == 47u8,
    decreases p.len() - at,
{
    let q = p.skip(at);
    text::before_bounds(q, 47u8);
    let k = text::before(q, 47u8) as int;
    let end = at + k;
    assert(q[0] == p[at]);
    let c = p.subrange(at, end);
    assert(c[0] == p[at]);
    let rest = paths::spans_from(p, end + 1);
    let all = paths::spans_from(p, at);
    assert(all == seq![(at, end)] + rest);
    if end < p.len() {
        assert(q[k] == p[end]);
        assert(leads_on(p, end));
        slash_before_last(p, end + 1);
        assert(all.last() == rest.last());
    } else {
        assert(rest =~= seq![]);
    }
}

proof fn last_byte_is_last_character(t: Seq<char>, c: char, b: u8)
    requires
        t.len() > 0,
        (c, b) == ('.', 46u8) || (c, b) == ('m', 109u8) || (c, b) == ('d', 100u8),
    ensures
        encode_utf8(t).len() > 0,
        encode_utf8(t).last() == b <==> t.last() == c,
        t.last() == c ==> encode_utf8(t) == encode_utf8(t.drop_last()).push(b),
{
    let rest = t.drop_last();
    let x = t.last();
    assert(t =~= rest + seq![x]);
    encoding_splits(rest, seq![x]);
    encoding_of_one(x);
    let e = encode_scalar(x as u32);
    small_letters(x, c, b);
    assert(encode_utf8(t).last() == e.last());
    if x == c {
        assert(encode_utf8(t) =~= encode_utf8(rest).push(b));
    }
}

proof fn small_letters(x: char, c: char, b: u8)
    requires
        (c, b) == ('.', 46u8) || (c, b) == ('m', 109u8) || (c, b) == ('d', 100u8),
    ensures
        encode_scalar(x as u32).len() > 0,
        encode_scalar(x as u32).last() == b <==> x == c,
        x == c ==> encode_scalar(x as u32) == seq![b],
{
    let u = x as u32;
    encode_utf8_first_scalar(seq![x]);
    encoding_of_one(x);
    let e = encode_scalar(u);
    vstd::utf8::char_u32_cast(x, u);
    vstd::utf8::char_u32_cast(c, c as u32);
    assert(c as u32 == b as u32);
    if u < 128 {
        assert((u & 0x7F) as u8 as u32 == u) by (bit_vector)
            requires
                u < 128,
        ;
        assert(e.len() == 1 && e[0] as u32 == u);
        if x == c {
            assert(e =~= seq![b]);
        }
    } else {
        assert(e.last() >= 128);
    }
}

/// A file is a note by its name: exactly if the path ends in `.md`. This is of
/// plain names; a name that is `.md` alone starts with a dot.
pub proof fn markdown_is_told_by_the_ending(root: Seq<u8>, rel: Seq<char>)
    requires
        plain_text(rel),
    ensures
        paths::is_markdown_path(paths::joined(root, encode_utf8(rel))) <==> rel.len() >= 3
            && rel[rel.len() - 3] == '.' && rel[rel.len() - 2] == 'm' && rel[rel.len() - 1] == 'd',
{
    let p = encode_utf8(rel);
    plain_text_is_a_plain_path(rel);
    markdown_by_last_bytes(root, p);
    last_byte_is_last_character(rel, 'd', 100u8);
    if rel.last() == 'd' {
        let a = rel.drop_last();
        if a.len() > 0 {
            last_byte_is_last_character(a, 'm', 109u8);
            assert(p[p.len() - 2] == encode_utf8(a).last());
            if a.last() == 'm' {
                let b = a.drop_last();
                if b.len() > 0 {
                    last_byte_is_last_character(b, '.', 46u8);
                    assert(p[p.len() - 3] == encode_utf8(b).last());
                } else {
                    assert(encode_utf8(b).len() == 0);
                }
            }
        } else {
            assert(encode_utf8(a).len() == 0);
        }
    }
}

proof fn hidden_spans(w: Seq<u8>)
    requires
        plain_path(w),
    ensures
        ({
            let h = seq![46u8] + w;
            let a = paths::spans_from(h, 0);
            &&& paths::tight(h)
            &&& a.len() > 0
            &&& a[0].0 == 0
            &&& paths::component(h, a[0]).len() > 0
            &&& paths::component(h, a[0])[0] == 46u8
        }),
{
    let h = seq![46u8] + w;
    plain_spans(w, 0);
    text::before_bounds(w, 47u8);
    let k = text::before(w, 47u8) as int;
    assert(w.skip(0) =~= w);
    assert(w[0] != 47u8);
    assert forall|j: int| 0 <= j < 1 + k implies h[j] != 47u8 by {
        if j > 0 {
            assert(h[j] == w[j - 1]);
        }
    }
    if k < w.len() {
        assert(h[1 + k] == w[k]);
    }
    assert(h.skip(0) =~= h);
    text::before_is(h, 47u8, (1 + k) as nat);
    let c = h.subrange(0, 1 + k);
    assert(c[0] == 46u8 && c[1] == w[0]);
    assert(c != seq![46u8]);
    let rest = paths::spans_from(h, k + 2);
    let all = paths::spans_from(h, 0);
    assert(all == seq![(0int, 1 + k)] + rest);
    let d = w.subrange(0, k);
    assert(d[0] == w[0]);
    let own = paths::spans_from(w, 0);
    assert(own == seq![(0int, k)] + paths::spans_from(w, k + 1));
    if k < w.len() {
        paths::spans_behind(seq![46u8], w, k + 1);
        assert(rest == paths::moved(paths::spans_from(w, k + 1), 1));
        assert(leads_on(w, k));
        plain_spans(w, k + 1);
        assert(own.last() == paths::spans_from(w, k + 1).last());
        assert(all.last() == rest.last());
    } else {
        assert(rest =~= seq![]);
        assert(paths::spans_from(w, k + 1) =~= seq![]);
    }
    assert(paths::component(h, all[0]) =~= c);
}

/// What has a name that starts with a dot is told nowhere: neither right in the
/// root nor in a directory of it.
pub proof fn hidden_names_are_told_nowhere(root: Seq<u8>, dir: Seq<u8>, w: Seq<u8>)
    requires
        plain_path(w),
        plain_path(dir),
    ensures
        paths::relative_text(root, paths::joined(root, seq![46u8] + w)) is None,
        paths::relative_text(
            root,
            paths::joined(root, dir + seq![47u8] + (seq![46u8] + w)),
        ) is None,
{
    let h = seq![46u8] + w;
    hidden_spans(w);
    paths::tight_spans(h);
    paths::joined_strips_back(root, h);
    assert(!paths::visible(paths::component(h, paths::spans(h)[0])));
    let p = dir + seq![47u8] + h;
    plain_spans(dir, 0);
    paths::spans_joined(dir, h, 0);
    let a = paths::spans_from(p, 0);
    let own = paths::spans_from(h, 0);
    let before = paths::spans_from(dir, 0);
    let tail = paths::moved(own, dir.len() as int + 1);
    assert(a == before + tail);
    assert(a[0] == before[0]);
    assert(a.last() == tail.last());
    assert(paths::tight(p));
    paths::tight_spans(p);
    paths::joined_strips_back(root, p);
    let i = before.len() as int;
    assert(a[i] == tail[0]);
    let c = paths::component(p, a[i]);
    paths::spans_from_bounds(h, 0);
    assert(c =~= paths::component(h, own[0])) by {
        let n = dir.len() as int + 1;
        assert forall|j: int| 0 <= j < own[0].1 implies p[n + j] == h[j] by {}
    }
    assert(!paths::visible(c));
}

proof fn first_name(p: Seq<u8>, name: Seq<u8>)
    requires
        plain_path(p),
        name.len() > 0,
        !name.contains(47u8),
        name.len() <= p.len(),
        p.take(name.len() as int) == name,
        name.len() == p.len() || p[name.len() as int] == 47u8,
    ensures
        paths::spans_from(p, 0).len() > 0,
        paths::spans_from(p, 0)[0] == (0int, name.len() as int),
{
    let k = name.len() as int;
    assert forall|j: int| 0 <= j < k implies p[j] != 47u8 by {
        assert(p.take(k)[j] == name[j]);
        assert(name.contains(name[j]));
    }
    text::before_is(p, 47u8, k as nat);
    assert(p.skip(0) =~= p);
    assert(p.subrange(0, k)[0] == p[0]);
    assert(p.subrange(0, k) != seq![46u8]);
}

proof fn name_behind_a_base(base: Seq<u8>, p: Seq<u8>, name: Seq<u8>)
    requires
        plain_path(p),
        name.len() > 0,
        !name.contains(47u8),
        name.len() <= p.len(),
        p.take(name.len() as int) == name,
        name.len() == p.len() || p[name.len() as int] == 47u8,
    ensures
        ({
            let all = paths::joined(base, p);
            let n = if base.len() == 0 {
                0
            } else {
                paths::spans(base).len() as int
            };
            &&& n < paths::spans(all).len()
            &&& paths::component(all, paths::spans(all)[n]) == name
        }),
{
    let all = paths::joined(base, p);
    plain_is_tight(p);
    paths::tight_spans(p);
    first_name(p, name);
    let own = paths::spans_from(p, 0);
    let m = all.len() - p.len();
    if base.len() == 0 {
        assert(all =~= p);
        assert(paths::component(all, own[0]) =~= name);
    } else {
        paths::spans_of_joined(base, p);
        let moved = paths::moved(own, m);
        let n = paths::spans(base).len() as int;
        assert(paths::spans(all)[n] == moved[0]);
        assert(moved[0] == (m, name.len() as int + m));
        let c = paths::component(all, moved[0]);
        assert(c =~= name) by {
            assert forall|j: int| 0 <= j < name.len() implies c[j] == name[j] by {
                assert(all.skip(m)[j] == p[j]);
                assert(p.take(name.len() as int)[j] == name[j]);
            }
        }
    }
}

/// What stands beside the vault is told nowhere: neither a path of another name
/// in the directory that the vault stands in, nor anything beneath it.
pub proof fn paths_beside_the_vault_are_told_nowhere(
    base: Seq<u8>,
    x: Seq<u8>,
    y: Seq<u8>,
    w: Seq<u8>,
)
    requires
        plain_path(x),
        plain_path(y),
        !x.contains(47u8),
        !y.contains(47u8),
        x != y,
        plain_path(y + seq![47u8] + w),
    ensures
        paths::relative_text(paths::joined(base, x), paths::joined(base, y)) is None,
        paths::relative_text(
            paths::joined(base, x),
            paths::joined(base, y + seq![47u8] + w),
        ) is None,
{
    let b = y + seq![47u8] + w;
    assert(x.take(x.len() as int) =~= x);
    assert(y.take(y.len() as int) =~= y);
    assert(b.take(y.len() as int) =~= y);
    assert(b[y.len() as int] == 47u8);
    name_behind_a_base(base, x, x);
    name_behind_a_base(base, y, y);
    name_behind_a_base(base, b, y);
    let n = if base.len() == 0 {
        0
    } else {
        paths::spans(base).len() as int
    };
    let root = paths::joined(base, x);
    let p = paths::joined(base, y);
    let q = paths::joined(base, b);
    assert(paths::component(p, paths::spans(p)[n]) != paths::component(
        root,
        paths::spans(root)[n],
    ));
    assert(paths::component(q, paths::spans(q)[n]) != paths::component(
        root,
        paths::spans(root)[n],
    ));
    assert(paths::stripped(p, root) is None);
    assert(paths::stripped(q, root) is None);
}

}
