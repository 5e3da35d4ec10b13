//! The boundary parameter of a `Content-Type` header value.
use vstd::prelude::*;
use crate::search::{occurs_at, find_first, lemma_first_after, find_first_exec};

verus! {

/// The literal `boundary=` that introduces the parameter.
pub open spec fn boundary_marker() -> Seq<u8> {
    seq![98u8, 111u8, 117u8, 110u8, 100u8, 97u8, 114u8, 121u8, 61u8]
}

/// The bytes after the first `boundary=` of a header value, if there is one.
pub open spec fn boundary_of(value: Seq<u8>) -> Option<Seq<u8>> {
    match find_first(value, boundary_marker()) {
        None => None,
        Some(p) => Some(value.subrange(p + boundary_marker().len(), value.len() as int)),
    }
}

/// The boundary that a header value such as `multipart/mixed; boundary=XYZ`
/// names: everything after the first `boundary=`, as it stands (no trimming,
/// no unquoting); `None` when the value has no `boundary=`.
pub fn parse_boundary(header_value: &[u8]) -> (r: Option<&[u8]>)
    ensures
        match boundary_of(header_value@) {
            Some(b) => r matches Some(x) && x@ == b,
            None => r is None,
        },
{
    let marker: [u8; 9] = [98u8, 111u8, 117u8, 110u8, 100u8, 97u8, 114u8, 121u8, 61u8];
    let needle = marker.as_slice();
    assert(needle@ =~= boundary_marker());
    let len = header_value.len();
    match find_first_exec(header_value, needle) {
        None => None,
        Some(p) => {
            assert(p + 9 <= len);
            Some(&header_value[p + 9..len])
        },
    }
}

/// A header value made of a prefix without `boundary=`, then `boundary=` and a
/// token, names exactly that token.
pub proof fn lemma_boundary_round_trip(prefix: Seq<u8>, token: Seq<u8>)
    requires
        forall|j: int|
            0 <= j < prefix.len() ==> !occurs_at(prefix + boundary_marker(), boundary_marker(), j),
    ensures
        boundary_of(prefix + boundary_marker() + token) == Some(token),
{
    let m = boundary_marker();
    let v = prefix + m + token;
    lemma_first_after(prefix, m, token);
    assert(v.subrange((prefix.len() + m.len()) as int, v.len() as int) =~= token);
}

} // verus!
