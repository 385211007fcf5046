//! Byte-sequence utilities: substring search, slicing and comparison, each
//! specified against a mathematical model over `Seq<u8>`.

use vstd::prelude::*;

verus! {

/// True when `pat` occurs in `text` starting exactly at index `i`.
pub open spec fn is_match_at(text: Seq<u8>, pat: Seq<u8>, i: int) -> bool {
    &&& 0 <= i
    &&& i + pat.len() <= text.len()
    &&& text.subrange(i, i + pat.len() as int) == pat
}

/// True when `pat` occurs somewhere in `text`.
pub open spec fn has_match(text: Seq<u8>, pat: Seq<u8>) -> bool {
    exists|i: int| is_match_at(text, pat, i)
}

/// The index of every occurrence of `pat` in `text` at or after `i`, in
/// increasing order. A pattern of length zero is treated as occurring
/// nowhere.
pub open spec fn occurrences_from(text: Seq<u8>, pat: Seq<u8>, i: int) -> Seq<int>
    decreases text.len() - i,
{
    if pat.len() == 0 || i < 0 || i + pat.len() > text.len() {
        Seq::empty()
    } else if text.subrange(i, i + pat.len() as int) == pat {
        seq![i] + occurrences_from(text, pat, i + 1)
    } else {
        occurrences_from(text, pat, i + 1)
    }
}

/// The index of every occurrence of `pat` in `text`, in increasing order.
pub open spec fn occurrences(text: Seq<u8>, pat: Seq<u8>) -> Seq<int> {
    occurrences_from(text, pat, 0)
}

/// A sequence of machine integers seen as mathematical integers.
pub open spec fn usizes_as_ints(s: Seq<usize>) -> Seq<int> {
    s.map_values(|x: usize| x as int)
}

/// Every index reported by `occurrences_from` is a genuine occurrence and
/// lies at or after the start of the search.
pub proof fn lemma_occurrences_from_are_matches(text: Seq<u8>, pat: Seq<u8>, i: int)
    ensures
        forall|k: int|
            0 <= k < occurrences_from(text, pat, i).len() ==> is_match_at(
                text,
                pat,
                #[trigger] occurrences_from(text, pat, i)[k],
            ) && i <= occurrences_from(text, pat, i)[k],
    decreases text.len() - i,
{
    if pat.len() == 0 || i < 0 || i + pat.len() > text.len() {
    } else {
        lemma_occurrences_from_are_matches(text, pat, i + 1);
        let occ = occurrences_from(text, pat, i);
        let rest = occurrences_from(text, pat, i + 1);
        if text.subrange(i, i + pat.len() as int) == pat {
            assert forall|k: int| 0 <= k < occ.len() implies is_match_at(text, pat, occ[k]) && i
                <= occ[k] by {
                if k == 0 {
                    assert(occ[k] == i);
                } else {
                    assert(occ[k] == rest[k - 1]);
                }
            }
        }
    }
}

/// Every index reported by `occurrences` is a genuine occurrence.
pub proof fn lemma_occurrences_are_matches(text: Seq<u8>, pat: Seq<u8>)
    ensures
        forall|k: int|
            0 <= k < occurrences(text, pat).len() ==> is_match_at(
                text,
                pat,
                #[trigger] occurrences(text, pat)[k],
            ),
{
    lemma_occurrences_from_are_matches(text, pat, 0);
}

/// Whether `pat` occurs in `text` starting exactly at index `i`.
pub fn match_at(text: &Vec<u8>, pat: &Vec<u8>, i: usize) -> (r: bool)
    requires
        i + pat@.len() <= text@.len(),
    ensures
        r == is_match_at(text@, pat@, i as int),
{
    let tlen = text.len();
    let mut j: usize = 0;
    while j < pat.len()
        invariant
            j <= pat@.len(),
            i + pat@.len() <= text@.len(),
            text@.len() == tlen,
            forall|k: int| 0 <= k < j ==> text@[i + k] == pat@[k],
        decreases pat@.len() - j,
    {
        if text[i + j] != pat[j] {
            proof {
                assert(text@.subrange(i as int, i + pat@.len() as int)[j as int] == text@[i + j]);
            }
            return false;
        }
        j += 1;
    }
    proof {
        assert(text@.subrange(i as int, i + pat@.len() as int) =~= pat@);
    }
    true
}

/// The index of every occurrence of `pat` in `text`, in increasing order.
pub fn find_occurrences(text: &Vec<u8>, pat: &Vec<u8>) -> (r: Vec<usize>)
    requires
        pat@.len() >= 1,
    ensures
        usizes_as_ints(r@) == occurrences(text@, pat@),
{
    let mut r: Vec<usize> = Vec::new();
    if text.len() < pat.len() {
        proof {
            assert(usizes_as_ints(r@) =~= occurrences(text@, pat@));
        }
        return r;
    }
    let last = text.len() - pat.len();
    let mut i: usize = 0;
    while i <= last
        invariant
            pat@.len() >= 1,
            text@.len() >= pat@.len(),
            last == text@.len() - pat@.len(),
            text@.len() <= usize::MAX,
            i <= last + 1,
            usizes_as_ints(r@) + occurrences_from(text@, pat@, i as int) == occurrences(
                text@,
                pat@,
            ),
        decreases last + 1 - i,
    {
        let ghost old_r = r@;
        if match_at(text, pat, i) {
            r.push(i);
            proof {
                assert(usizes_as_ints(r@) =~= usizes_as_ints(old_r) + seq![i as int]);
                assert(usizes_as_ints(r@) + occurrences_from(text@, pat@, i as int + 1)
                    =~= usizes_as_ints(old_r) + occurrences_from(text@, pat@, i as int));
            }
        }
        i += 1;
    }
    proof {
        assert(usizes_as_ints(r@) =~= usizes_as_ints(r@) + occurrences_from(
            text@,
            pat@,
            i as int,
        ));
    }
    r
}

/// Whether `pat` occurs anywhere in `text`.
pub fn contains_sub(text: &Vec<u8>, pat: &Vec<u8>) -> (r: bool)
    requires
        pat@.len() >= 1,
    ensures
        r == has_match(text@, pat@),
{
    if text.len() < pat.len() {
        proof {
            assert forall|k: int| !(#[trigger] is_match_at(text@, pat@, k)) by {}
        }
        return false;
    }
    let last = text.len() - pat.len();
    let mut i: usize = 0;
    while i <= last
        invariant
            pat@.len() >= 1,
            text@.len() >= pat@.len(),
            last == text@.len() - pat@.len(),
            text@.len() <= usize::MAX,
            i <= last + 1,
            forall|k: int| 0 <= k < i ==> !(#[trigger] is_match_at(text@, pat@, k)),
        decreases last + 1 - i,
    {
        if match_at(text, pat, i) {
            return true;
        }
        i += 1;
    }
    proof {
        assert forall|k: int| !(#[trigger] is_match_at(text@, pat@, k)) by {
            if 0 <= k < i {
            }
        }
    }
    false
}

/// A copy of `v[i..j]`.
pub fn subrange_vec(v: &Vec<u8>, i: usize, j: usize) -> (r: Vec<u8>)
    requires
        i <= j,
        j <= v@.len(),
    ensures
        r@ == v@.subrange(i as int, j as int),
{
    let mut r: Vec<u8> = Vec::new();
    let mut k: usize = i;
    while k < j
        invariant
            i <= k <= j,
            j <= v@.len(),
            r@ == v@.subrange(i as int, k as int),
        decreases j - k,
    {
        r.push(v[k]);
        proof {
            assert(r@ =~= v@.subrange(i as int, k as int + 1));
        }
        k += 1;
    }
    r
}

/// Appends a copy of `src` to `dst`.
pub fn extend_from(dst: &mut Vec<u8>, src: &Vec<u8>)
    ensures
        final(dst)@ == old(dst)@ + src@,
{
    let mut k: usize = 0;
    while k < src.len()
        invariant
            k <= src@.len(),
            dst@ == old(dst)@ + src@.subrange(0, k as int),
        decreases src@.len() - k,
    {
        dst.push(src[k]);
        proof {
            assert(dst@ =~= old(dst)@ + src@.subrange(0, k as int + 1));
        }
        k += 1;
    }
    proof {
        assert(old(dst)@ + src@.subrange(0, src@.len() as int) =~= old(dst)@ + src@);
    }
}

/// Whether the two byte vectors hold the same bytes.
pub fn bytes_eq(a: &Vec<u8>, b: &Vec<u8>) -> (r: bool)
    ensures
        r == (a@ == b@),
{
    if a.len() != b.len() {
        return false;
    }
    let mut i: usize = 0;
    while i < a.len()
        invariant
            a@.len() == b@.len(),
            i <= a@.len(),
            forall|k: int| 0 <= k < i ==> a@[k] == b@[k],
        decreases a@.len() - i,
    {
        if a[i] != b[i] {
            return false;
        }
        i += 1;
    }
    proof {
        assert(a@ =~= b@);
    }
    true
}

} // verus!
