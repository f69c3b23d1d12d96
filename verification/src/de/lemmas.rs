//! Facts about the input functions of the decoder.
use vstd::prelude::*;

use crate::de::grammar::{ByteClass, scan_end, in_class, escaped, close_index, unescape, prepend};
use crate::de::error::ErrorView;

verus! {

/// A run of a byte class ends within the input, at or after where it starts.
pub proof fn lemma_scan_end_bounds(w: Seq<u8>, i: int, c: ByteClass)
    requires
        0 <= i <= w.len(),
    ensures
        i <= scan_end(w, i, c) <= w.len(),
        forall|k: int| i <= k < scan_end(w, i, c) ==> in_class(c, #[trigger] w[k]),
        scan_end(w, i, c) < w.len() ==> !in_class(c, w[scan_end(w, i, c)]),
    decreases w.len() - i,
{
    if i < w.len() && in_class(c, w[i]) {
        lemma_scan_end_bounds(w, i + 1, c);
    }
}


/// A run of class `c` from `start` that reaches `i` with `w[i]` in class
/// goes on past `i`; one that reaches `i` and stops there ends at `i`.
pub proof fn lemma_scan_end_step(w: Seq<u8>, start: int, i: int, c: ByteClass)
    requires
        0 <= start <= i <= w.len(),
        i <= scan_end(w, start, c),
    ensures
        i < w.len() && in_class(c, w[i]) ==> i + 1 <= scan_end(w, start, c),
        i == w.len() || !in_class(c, w[i]) ==> scan_end(w, start, c) == i,
    decreases i - start,
{
    lemma_scan_end_bounds(w, start, c);
    if start < i {
        lemma_scan_end_bounds(w, start + 1, c);
        lemma_scan_end_step(w, start + 1, i, c);
    } else {
        lemma_scan_end_bounds(w, i, c);
        if i < w.len() && in_class(c, w[i]) {
            lemma_scan_end_bounds(w, i + 1, c);
        }
    }
}

/// Whether a byte is escaped depends only on the bytes before it.
pub proof fn lemma_escaped_prefix(v: Seq<u8>, u: Seq<u8>, i: int)
    requires
        0 <= i <= v.len(),
        i <= u.len(),
        v.take(i) =~= u.take(i),
    ensures
        escaped(v, i) == escaped(u, i),
    decreases i,
{
    if i > 0 {
        assert(v[i - 1] == v.take(i)[i - 1]);
        assert(u[i - 1] == u.take(i)[i - 1]);
        assert(v.take(i - 1) =~= u.take(i - 1)) by {
            assert forall|k: int| 0 <= k < i - 1 implies #[trigger] v.take(i - 1)[k] == u.take(i - 1)[k] by {
                assert(v.take(i)[k] == u.take(i)[k]);
            }
        }
        lemma_escaped_prefix(v, u, i - 1);
    }
}

/// The search for a closing quote that passes a byte that is no unescaped
/// quote goes on after it.
pub proof fn lemma_close_index_step(v: Seq<u8>, i: int)
    requires
        0 <= i < v.len(),
        !(v[i] == 0x22u8 && !escaped(v, i)),
    ensures
        close_index(v, i) == close_index(v, i + 1),
{
}

/// The search for a closing quote from `i` ends at `i` or later, within
/// the body, at an unescaped quote where it ends before the end.
pub proof fn lemma_close_index_bounds(v: Seq<u8>, i: int)
    requires
        0 <= i <= v.len(),
    ensures
        i <= close_index(v, i) <= v.len(),
        close_index(v, i) < v.len() ==> v[close_index(v, i)] == 0x22u8 && !escaped(v, close_index(v, i)),
    decreases v.len() - i,
{
    if i < v.len() && !(v[i] == 0x22u8 && !escaped(v, i)) {
        lemma_close_index_bounds(v, i + 1);
    }
}


/// The errors in a string's body are errors of its escapes.
pub proof fn lemma_unescape_errors(s: Seq<u8>)
    ensures
        unescape(s) matches Err(e) ==> e is InvalidEscape || e is InvalidHexEscape || e is LoneSurrogate,
    decreases s.len(),
{
    if s.len() > 0 {
        if s[0] != 0x5cu8 {
            lemma_unescape_errors(s.drop_first());
        } else if s.len() >= 2 {
            lemma_unescape_errors(s.skip(2));
            if s.len() >= 6 {
                lemma_unescape_errors(s.skip(6));
            }
            if s.len() >= 12 {
                lemma_unescape_errors(s.skip(12));
            }
        }
    }
}

} // verus!
