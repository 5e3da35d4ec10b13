//! Substring search over byte sequences, backed by `memchr::memmem`.
use vstd::prelude::*;

verus! {

/// `needle` occurs in `hay` starting at offset `i`.
pub open spec fn occurs_at(hay: Seq<u8>, needle: Seq<u8>, i: int) -> bool {
    0 <= i && i + needle.len() <= hay.len() && hay.subrange(i, i + needle.len()) == needle
}

/// The first offset at or after `from` where `needle` occurs in `hay`.
pub open spec fn find_from(hay: Seq<u8>, needle: Seq<u8>, from: int) -> Option<int>
    decreases hay.len() + 1 - from,
{
    if from < 0 || from > hay.len() || from + needle.len() > hay.len() {
        None
    } else if occurs_at(hay, needle, from) {
        Some(from)
    } else {
        find_from(hay, needle, from + 1)
    }
}

/// The first offset where `needle` occurs in `hay`.
pub open spec fn find_first(hay: Seq<u8>, needle: Seq<u8>) -> Option<int> {
    find_from(hay, needle, 0)
}

/// `find_from` picks the smallest matching offset at or after `from`.
pub proof fn lemma_find_from(hay: Seq<u8>, needle: Seq<u8>, from: int)
    requires
        0 <= from,
    ensures
        match find_from(hay, needle, from) {
            Some(o) => from <= o && occurs_at(hay, needle, o) && forall|j: int|
                from <= j < o ==> !occurs_at(hay, needle, j),
            None => forall|j: int| from <= j ==> !occurs_at(hay, needle, j),
        },
    decreases hay.len() + 1 - from,
{
    if from > hay.len() || from + needle.len() > hay.len() {
    } else if occurs_at(hay, needle, from) {
    } else {
        lemma_find_from(hay, needle, from + 1);
    }
}

/// A match at `o`, with none between `from` and `o`, is what `find_from` returns.
pub proof fn lemma_find_from_is(hay: Seq<u8>, needle: Seq<u8>, from: int, o: int)
    requires
        0 <= from <= o,
        occurs_at(hay, needle, o),
        forall|j: int| from <= j < o ==> !occurs_at(hay, needle, j),
    ensures
        find_from(hay, needle, from) == Some(o),
    decreases o - from,
{
    if from < o {
        lemma_find_from_is(hay, needle, from + 1, o);
    }
}

/// An occurrence inside a window `w` of `hay` is an occurrence in `w`.
pub proof fn lemma_occurs_within(hay: Seq<u8>, w: Seq<u8>, a: int, needle: Seq<u8>, j: int)
    requires
        0 <= a <= j,
        a + w.len() <= hay.len(),
        hay.subrange(a, a + w.len()) == w,
        j + needle.len() <= a + w.len(),
        occurs_at(hay, needle, j),
    ensures
        occurs_at(w, needle, j - a),
{
    assert(w.subrange(j - a, j - a + needle.len()) =~= hay.subrange(j, j + needle.len()));
}

/// Where `needle` does not occur in `pre + needle` before `needle` itself, its
/// first occurrence in `pre + needle + rest` is right after `pre`.
pub proof fn lemma_first_after(pre: Seq<u8>, needle: Seq<u8>, rest: Seq<u8>)
    requires
        forall|j: int| 0 <= j < pre.len() ==> !occurs_at(pre + needle, needle, j),
    ensures
        find_first(pre + needle + rest, needle) == Some(pre.len() as int),
{
    let pn = pre + needle;
    let hay = pn + rest;
    let p = pre.len() as int;
    assert(hay.subrange(p, p + needle.len()) =~= needle);
    assert(hay.subrange(0, pn.len() as int) =~= pn);
    assert forall|j: int| 0 <= j < p implies !occurs_at(hay, needle, j) by {
        if occurs_at(hay, needle, j) {
            lemma_occurs_within(hay, pn, 0, needle, j);
        }
    }
    lemma_find_from_is(hay, needle, 0, p);
}

/// Relies on `memchr::memmem::find`: the offset of the first occurrence of
/// `needle` in `hay`, or `None` when there is none.
#[verifier::external_body]
pub(crate) fn find_bytes(hay: &[u8], needle: &[u8]) -> (r: Option<usize>)
    ensures
        match r {
            Some(i) => occurs_at(hay@, needle@, i as int) && forall|j: int|
                0 <= j < i ==> !occurs_at(hay@, needle@, j),
            None => forall|j: int| !occurs_at(hay@, needle@, j),
        },
{
    memchr::memmem::find(hay, needle)
}

/// Relies on `memchr::memmem::rfind`: the offset of the last occurrence of
/// `needle` in `hay`, or `None` when there is none.
#[verifier::external_body]
pub(crate) fn rfind_bytes(hay: &[u8], needle: &[u8]) -> (r: Option<usize>)
    ensures
        match r {
            Some(i) => occurs_at(hay@, needle@, i as int) && forall|j: int|
                i < j ==> !occurs_at(hay@, needle@, j),
            None => forall|j: int| !occurs_at(hay@, needle@, j),
        },
{
    memchr::memmem::rfind(hay, needle)
}

/// The first occurrence of `needle` in `hay`, as `find_first` states it.
pub fn find_first_exec(hay: &[u8], needle: &[u8]) -> (r: Option<usize>)
    ensures
        match find_first(hay@, needle@) {
            Some(o) => r matches Some(i) && i == o,
            None => r is None,
        },
        match r {
            Some(i) => occurs_at(hay@, needle@, i as int) && forall|j: int|
                0 <= j < i ==> !occurs_at(hay@, needle@, j),
            None => forall|j: int| !occurs_at(hay@, needle@, j),
        },
{
    let r = find_bytes(hay, needle);
    proof {
        lemma_find_from(hay@, needle@, 0);
        match r {
            Some(i) => lemma_find_from_is(hay@, needle@, 0, i as int),
            None => {},
        }
    }
    r
}

} // verus!
