//! Block scanner: locates the open and close markers of a given nesting
//! depth in a document and pairs them positionally, the i-th open marker
//! with the i-th close marker.

use vstd::prelude::*;
use crate::bytes::{
    find_occurrences, is_match_at, lemma_occurrences_are_matches, occurrences, usizes_as_ints,
};

verus! {

/// The quote byte of the fixed marker affix.
pub const QUOTE: u8 = 34;

/// The byte repeated `depth` times inside a marker.
pub const PERCENT: u8 = 37;

/// The number of bytes in a marker of the given depth: the three-byte
/// affix plus one repeated byte per depth level.
pub open spec fn marker_len(depth: int) -> int {
    depth + 3
}

/// The open marker of the given depth: three quotes followed by `depth`
/// percent bytes.
pub open spec fn open_marker_spec(depth: int) -> Seq<u8> {
    seq![QUOTE, QUOTE, QUOTE] + Seq::new(depth as nat, |j: int| PERCENT)
}

/// The close marker of the given depth: `depth` percent bytes followed by
/// three quotes.
pub open spec fn close_marker_spec(depth: int) -> Seq<u8> {
    Seq::new(depth as nat, |j: int| PERCENT) + seq![QUOTE, QUOTE, QUOTE]
}

/// The open-marker occurrences of a document at a depth.
pub open spec fn doc_opens(doc: Seq<u8>, depth: int) -> Seq<int> {
    occurrences(doc, open_marker_spec(depth))
}

/// The close-marker occurrences of a document at a depth.
pub open spec fn doc_closes(doc: Seq<u8>, depth: int) -> Seq<int> {
    occurrences(doc, close_marker_spec(depth))
}

/// The delimiter pairs of a document at a depth: the i-th open marker
/// paired with the i-th close marker, for as many of each as exist.
pub open spec fn doc_pairs(doc: Seq<u8>, depth: int) -> Seq<(int, int)> {
    let opens = doc_opens(doc, depth);
    let closes = doc_closes(doc, depth);
    let n = if opens.len() <= closes.len() {
        opens.len()
    } else {
        closes.len()
    };
    Seq::new(n, |i: int| (opens[i], closes[i]))
}

/// Where the body segment preceding pair `i` starts: the document start for
/// the first pair, and the end of the previous close marker otherwise.
pub open spec fn body_start(pairs: Seq<(int, int)>, l: int, i: int) -> int {
    if i == 0 {
        0
    } else {
        pairs[i - 1].1 + l
    }
}

/// Pair `i` of a pair list is well formed: its body segment, its code span
/// and its trailing marker all lie in order inside a document of `len`
/// bytes.
pub open spec fn pair_wf_at(pairs: Seq<(int, int)>, l: int, len: int, i: int) -> bool {
    &&& body_start(pairs, l, i) <= pairs[i].0
    &&& pairs[i].0 + l <= pairs[i].1
    &&& pairs[i].1 + l <= len
}

/// Every pair of the list is well formed.
pub open spec fn pairs_wf(pairs: Seq<(int, int)>, l: int, len: int) -> bool {
    forall|i: int| 0 <= i < pairs.len() ==> #[trigger] pair_wf_at(pairs, l, len, i)
}

/// A sequence of machine-integer pairs seen as mathematical-integer pairs.
pub open spec fn pairs_as_ints(s: Seq<(usize, usize)>) -> Seq<(int, int)> {
    s.map_values(|p: (usize, usize)| (p.0 as int, p.1 as int))
}

/// The open marker of the given depth.
pub fn open_marker(depth: usize) -> (r: Vec<u8>)
    requires
        depth <= usize::MAX - 3,
    ensures
        r@ == open_marker_spec(depth as int),
        r@.len() == marker_len(depth as int),
{
    let mut r: Vec<u8> = Vec::new();
    r.push(QUOTE);
    r.push(QUOTE);
    r.push(QUOTE);
    let mut j: usize = 0;
    while j < depth
        invariant
            j <= depth,
            r@ == seq![QUOTE, QUOTE, QUOTE] + Seq::new(j as nat, |k: int| PERCENT),
        decreases depth - j,
    {
        r.push(PERCENT);
        proof {
            assert(r@ =~= seq![QUOTE, QUOTE, QUOTE] + Seq::new((j + 1) as nat, |k: int| PERCENT));
        }
        j += 1;
    }
    r
}

/// The close marker of the given depth.
pub fn close_marker(depth: usize) -> (r: Vec<u8>)
    requires
        depth <= usize::MAX - 3,
    ensures
        r@ == close_marker_spec(depth as int),
        r@.len() == marker_len(depth as int),
{
    let mut r: Vec<u8> = Vec::new();
    let mut j: usize = 0;
    while j < depth
        invariant
            j <= depth,
            r@ == Seq::new(j as nat, |k: int| PERCENT),
        decreases depth - j,
    {
        r.push(PERCENT);
        proof {
            assert(r@ =~= Seq::new((j + 1) as nat, |k: int| PERCENT));
        }
        j += 1;
    }
    r.push(QUOTE);
    r.push(QUOTE);
    r.push(QUOTE);
    proof {
        assert(r@ =~= close_marker_spec(depth as int));
    }
    r
}

/// Scans a document for the markers of a depth and pairs them in document
/// order. Every reported index is a genuine marker occurrence, so each one
/// leaves room for a whole marker inside the document.
pub fn scan_pairs(doc: &Vec<u8>, depth: usize) -> (r: Vec<(usize, usize)>)
    requires
        1 <= depth,
        depth <= usize::MAX - 3,
    ensures
        pairs_as_ints(r@) == doc_pairs(doc@, depth as int),
        forall|i: int|
            0 <= i < r@.len() ==> is_match_at(
                doc@,
                open_marker_spec(depth as int),
                (#[trigger] r@[i]).0 as int,
            ) && is_match_at(doc@, close_marker_spec(depth as int), r@[i].1 as int),
{
    let open = open_marker(depth);
    let close = close_marker(depth);
    let opens = find_occurrences(doc, &open);
    let closes = find_occurrences(doc, &close);
    proof {
        lemma_occurrences_are_matches(doc@, open@);
        lemma_occurrences_are_matches(doc@, close@);
        assert forall|k: int| 0 <= k < opens@.len() implies is_match_at(
            doc@,
            open_marker_spec(depth as int),
            #[trigger] opens@[k] as int,
        ) by {
            assert(opens@[k] as int == usizes_as_ints(opens@)[k]);
        }
        assert forall|k: int| 0 <= k < closes@.len() implies is_match_at(
            doc@,
            close_marker_spec(depth as int),
            #[trigger] closes@[k] as int,
        ) by {
            assert(closes@[k] as int == usizes_as_ints(closes@)[k]);
        }
    }
    let n = if opens.len() <= closes.len() {
        opens.len()
    } else {
        closes.len()
    };
    let mut r: Vec<(usize, usize)> = Vec::new();
    let mut i: usize = 0;
    while i < n
        invariant
            i <= n,
            n <= opens@.len(),
            n <= closes@.len(),
            usizes_as_ints(opens@) == doc_opens(doc@, depth as int),
            usizes_as_ints(closes@) == doc_closes(doc@, depth as int),
            n == doc_pairs(doc@, depth as int).len(),
            pairs_as_ints(r@) == doc_pairs(doc@, depth as int).take(i as int),
            r@.len() == i,
            forall|k: int|
                0 <= k < opens@.len() ==> is_match_at(
                    doc@,
                    open_marker_spec(depth as int),
                    #[trigger] opens@[k] as int,
                ),
            forall|k: int|
                0 <= k < closes@.len() ==> is_match_at(
                    doc@,
                    close_marker_spec(depth as int),
                    #[trigger] closes@[k] as int,
                ),
            forall|k: int|
                0 <= k < r@.len() ==> is_match_at(
                    doc@,
                    open_marker_spec(depth as int),
                    (#[trigger] r@[k]).0 as int,
                ) && is_match_at(doc@, close_marker_spec(depth as int), r@[k].1 as int),
        decreases n - i,
    {
        let ghost old_r = r@;
        r.push((opens[i], closes[i]));
        proof {
            assert(r@ == old_r.push((opens@[i as int], closes@[i as int])));
            assert(usizes_as_ints(opens@)[i as int] == opens@[i as int] as int);
            assert(usizes_as_ints(closes@)[i as int] == closes@[i as int] as int);
            assert(doc_pairs(doc@, depth as int)[i as int] == (
                doc_opens(doc@, depth as int)[i as int],
                doc_closes(doc@, depth as int)[i as int],
            ));
            assert(pairs_as_ints(r@) =~= doc_pairs(doc@, depth as int).take(i as int + 1));
        }
        i += 1;
    }
    proof {
        assert(doc_pairs(doc@, depth as int).take(n as int) =~= doc_pairs(doc@, depth as int));
    }
    r
}

/// Whether every pair of the scanned list is well formed: the open marker
/// follows the previous close marker's end, and the close marker follows
/// the open marker's end.
pub fn check_pairs_wf(doc: &Vec<u8>, depth: usize, pairs: &Vec<(usize, usize)>) -> (r: bool)
    requires
        1 <= depth,
        depth <= usize::MAX - 3,
        forall|i: int|
            0 <= i < pairs@.len() ==> is_match_at(
                doc@,
                open_marker_spec(depth as int),
                (#[trigger] pairs@[i]).0 as int,
            ) && is_match_at(doc@, close_marker_spec(depth as int), pairs@[i].1 as int),
    ensures
        r == pairs_wf(pairs_as_ints(pairs@), marker_len(depth as int), doc@.len() as int),
{
    let l = depth + 3;
    let dlen = doc.len();
    let ghost pv = pairs_as_ints(pairs@);
    let ghost li = marker_len(depth as int);
    let ghost len = doc@.len() as int;
    let mut i: usize = 0;
    while i < pairs.len()
        invariant
            i <= pairs@.len(),
            l == depth + 3,
            depth <= usize::MAX - 3,
            pv == pairs_as_ints(pairs@),
            li == marker_len(depth as int),
            len == doc@.len() as int,
            len == dlen as int,
            forall|k: int|
                0 <= k < pairs@.len() ==> is_match_at(
                    doc@,
                    open_marker_spec(depth as int),
                    (#[trigger] pairs@[k]).0 as int,
                ) && is_match_at(doc@, close_marker_spec(depth as int), pairs@[k].1 as int),
            forall|k: int| 0 <= k < i ==> #[trigger] pair_wf_at(pv, li, len, k),
        decreases pairs@.len() - i,
    {
        let (a, b) = (pairs[i].0, pairs[i].1);
        proof {
            assert(is_match_at(doc@, open_marker_spec(depth as int), a as int));
            assert(is_match_at(doc@, close_marker_spec(depth as int), b as int));
            assert(open_marker_spec(depth as int).len() == li);
            assert(close_marker_spec(depth as int).len() == li);
        }
        let start: usize = if i == 0 {
            0
        } else {
            proof {
                assert(is_match_at(
                    doc@,
                    close_marker_spec(depth as int),
                    pairs@[i as int - 1].1 as int,
                ));
            }
            pairs[i - 1].1 + l
        };
        if !(start <= a && a + l <= b) {
            proof {
                assert(!pair_wf_at(pv, li, len, i as int));
            }
            return false;
        }
        proof {
            assert(pair_wf_at(pv, li, len, i as int));
        }
        i += 1;
    }
    true
}

} // verus!
