//! The text of HTTP header values.

use vstd::prelude::*;

use crate::text;

verus! {

/// The text of a header value: its bytes, if all of them are visible ASCII
/// characters, spaces or tabs.
pub open spec fn header_text(v: Seq<u8>) -> Option<Seq<char>> {
    if forall|i: int| 0 <= i < v.len() ==> 32 <= #[trigger] v[i] < 127 || v[i] == 9 {
        Some(v.map_values(|b: u8| b as char))
    } else {
        None
    }
}

/// Reads a header value as text.
pub fn read_header(v: &[u8]) -> (r: Option<String>)
    ensures
        text::opt_view(r) == header_text(v@),
{
    let mut out = String::new();
    let mut i: usize = 0;
    while i < v.len()
        invariant
            i <= v@.len(),
            forall|j: int| 0 <= j < i ==> 32 <= #[trigger] v@[j] < 127 || v@[j] == 9,
            out@ == v@.take(i as int).map_values(|b: u8| b as char),
        decreases v@.len() - i,
    {
        let b: u8 = v[i];
        if !((b >= 32 && b < 127) || b == 9) {
            assert(!(32 <= v@[i as int] < 127 || v@[i as int] == 9));
            return None;
        }
        out.push(b as char);
        assert(v@.take(i + 1).map_values(|b: u8| b as char) =~= v@.take(i as int).map_values(
            |b: u8| b as char,
        ).push(b as char));
        i += 1;
    }
    assert(v@.take(i as int) =~= v@);
    Some(out)
}

/// The text of an optional header value.
pub open spec fn optional_header_text(v: Option<Vec<u8>>) -> Option<Seq<char>> {
    match v {
        Some(b) => header_text(b@),
        None => None,
    }
}

/// A header value of visible characters, spaces and tabs is the text of them,
/// one for one; one with any other byte is no text.
pub proof fn header_values_are_their_characters(v: Seq<u8>, i: int)
    ensures
        (forall|j: int| 0 <= j < v.len() ==> 32 <= #[trigger] v[j] < 127 || v[j] == 9) ==> (
        header_text(v) matches Some(t) && t.len() == v.len() && (0 <= i < v.len() ==> t[i] as int
            == v[i] as int)),
        0 <= i < v.len() && (v[i] < 32 && v[i] != 9 || v[i] >= 127) ==> header_text(v) is None,
{
    if forall|j: int| 0 <= j < v.len() ==> 32 <= #[trigger] v[j] < 127 || v[j] == 9 {
        if 0 <= i < v.len() {
            let b = v[i];
            assert(header_text(v)->0[i] == b as char);
        }
    }
}

}
