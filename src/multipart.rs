//! Splitting a fully buffered multipart payload into its parts.
use vstd::prelude::*;
use vstd::slice::slice_to_vec;
use crate::search::{
    occurs_at, find_from, find_first, lemma_find_from, lemma_find_from_is, lemma_occurs_within,
    lemma_first_after, find_bytes, rfind_bytes, find_first_exec,
};
use crate::header_block::{block_headers, header_entries, header_room, parse_header_block};

verus! {

/// Structural problems of a multipart payload.
#[derive(Debug, Clone, Copy, PartialEq, Eq, Structural)]
pub enum MultipartError {
    /// The payload lacks an opening boundary or a later closing one.
    MalformedMultipart,
    /// A part has no blank line between its headers and its body.
    MalformedPart,
}

/// One part of a multipart payload.
pub struct Part {
    pub headers: http::HeaderMap,
    pub body: Vec<u8>,
}

/// The boundary as it stands in the payload: the delimiter marker `--` and the boundary.
pub open spec fn boundary_token(boundary: Seq<u8>) -> Seq<u8> {
    seq![45u8, 45u8] + boundary
}

/// The blank line that ends a part's headers: CR LF CR LF.
pub open spec fn blank_line() -> Seq<u8> {
    seq![13u8, 10u8, 13u8, 10u8]
}

/// The offset of the boundary that closes the next part, for a cursor at `pos`
/// and a closing boundary at `end`; `None` once there is no part left: no
/// boundary follows, the cursor has reached the closing boundary, or the part
/// would be empty.
pub open spec fn next_boundary(token: Seq<u8>, buf: Seq<u8>, pos: int, end: int) -> Option<int> {
    match find_from(buf, token, pos) {
        None => None,
        Some(o) => if o == pos || pos >= end {
            None
        } else {
            Some(o)
        },
    }
}

/// The segments that `n` steps from cursor `pos` yield, fewer where the parts run out.
pub open spec fn segments(token: Seq<u8>, buf: Seq<u8>, pos: int, end: int, n: nat) -> Seq<Seq<u8>>
    decreases n,
{
    if n == 0 {
        seq![]
    } else {
        match next_boundary(token, buf, pos, end) {
            None => seq![],
            Some(o) => seq![buf.subrange(pos, o)] + segments(
                token,
                buf,
                o + token.len(),
                end,
                (n - 1) as nat,
            ),
        }
    }
}

/// The header map `m` of a part whose header block is `block`.
pub open spec fn headers_of(m: http::HeaderMap, block: Seq<u8>) -> bool {
    block_headers(block).len() < header_room() ==> header_entries(m) == block_headers(block)
}

/// `res` is what a segment gives: headers up to the first blank line, the
/// bytes after it as the body; an error where there is no blank line.
pub open spec fn part_of(seg: Seq<u8>, res: Result<Part, MultipartError>) -> bool {
    match find_first(seg, blank_line()) {
        None => res == Err::<Part, MultipartError>(MultipartError::MalformedPart),
        Some(k) => res matches Ok(p) && p.body@ == seg.subrange(k + 4, seg.len() as int)
            && headers_of(p.headers, seg.subrange(0, k)),
    }
}

/// An occurrence in a suffix of `buf` is one in `buf`, shifted by where the suffix starts.
pub proof fn lemma_occurs_shift(buf: Seq<u8>, token: Seq<u8>, p: int, j: int)
    requires
        0 <= p <= buf.len(),
        0 <= j,
    ensures
        occurs_at(buf.subrange(p, buf.len() as int), token, j) <==> occurs_at(buf, token, p + j),
{
    let suf = buf.subrange(p, buf.len() as int);
    if j + token.len() <= suf.len() {
        assert(suf.subrange(j, j + token.len()) =~= buf.subrange(p + j, p + j + token.len()));
    }
}

/// A part from its segment: the headers before the first blank line and the
/// bytes after it, copied out; `MalformedPart` when there is no blank line.
pub fn split_part(seg: &[u8]) -> (r: Result<Part, MultipartError>)
    ensures
        part_of(seg@, r),
{
    let marker: [u8; 4] = [13u8, 10u8, 13u8, 10u8];
    let needle = marker.as_slice();
    assert(needle@ =~= blank_line());
    let len = seg.len();
    match find_first_exec(seg, needle) {
        None => Err(MultipartError::MalformedPart),
        Some(k) => {
            assert(k + 4 <= len);
            let headers = parse_header_block(&seg[0..k]);
            let body = slice_to_vec(&seg[k + 4..len]);
            Ok(Part { headers, body })
        },
    }
}

/// A cursor over the parts of a multipart payload that it borrows.
pub struct Multipart<'a> {
    boundary: Vec<u8>,
    bytes: &'a [u8],
    pos: usize,
    end: usize,
}

impl<'a> Multipart<'a> {
    /// The boundary token, `--` and the boundary.
    pub closed spec fn token(&self) -> Seq<u8> {
        self.boundary@
    }

    /// The payload.
    pub closed spec fn buffer(&self) -> Seq<u8> {
        self.bytes@
    }

    /// Where the next part starts.
    pub closed spec fn cursor(&self) -> int {
        self.pos as int
    }

    /// Where the closing boundary starts.
    pub closed spec fn limit(&self) -> int {
        self.end as int
    }

    /// The token is non-empty, the cursor stays within the payload, and the
    /// token occurs where the closing boundary is said to start.
    pub closed spec fn wf(&self) -> bool {
        &&& self.boundary@.len() >= 2
        &&& self.pos <= self.bytes@.len()
        &&& occurs_at(self.bytes@, self.boundary@, self.end as int)
    }

    /// A cursor over the parts of `bytes`, separated by `boundary` with the
    /// delimiter marker `--` before it. The first occurrence of that token opens
    /// the payload (a preamble before it is skipped) and the last one closes it.
    /// Fails when there are not two occurrences, one ending before the other starts.
    pub fn new(boundary: &[u8], bytes: &'a [u8]) -> (r: Result<Multipart<'a>, MultipartError>)
        requires
            boundary@.len() + 2 <= usize::MAX,
        ensures
            r is Ok <==> exists|a: int, b: int|
                occurs_at(bytes@, boundary_token(boundary@), a) && occurs_at(
                    bytes@,
                    boundary_token(boundary@),
                    b,
                ) && a + boundary_token(boundary@).len() <= b,
            r is Err ==> r == Err::<Multipart<'a>, MultipartError>(
                MultipartError::MalformedMultipart,
            ),
            r matches Ok(m) ==> {
                &&& m.wf()
                &&& m.token() == boundary_token(boundary@)
                &&& m.buffer() == bytes@
                &&& find_first(bytes@, m.token()) == Some(m.cursor() - m.token().len())
                &&& occurs_at(bytes@, m.token(), m.limit())
                &&& forall|j: int| m.limit() < j ==> !occurs_at(bytes@, m.token(), j)
                &&& m.cursor() <= m.limit()
                &&& m.limit() + m.token().len() <= bytes@.len()
            },
    {
        let mut token: Vec<u8> = Vec::new();
        token.push(45u8);
        token.push(45u8);
        let mut i: usize = 0;
        while i < boundary.len()
            invariant
                i <= boundary@.len(),
                token@ == seq![45u8, 45u8] + boundary@.subrange(0, i as int),
            decreases boundary@.len() - i,
        {
            token.push(boundary[i]);
            i = i + 1;
            assert(token@ =~= seq![45u8, 45u8] + boundary@.subrange(0, i as int));
        }
        assert(token@ =~= boundary_token(boundary@));
        let ghost t = token@;
        proof {
            lemma_find_from(bytes@, t, 0);
        }
        let len = bytes.len();
        let tok = token.as_slice();
        assert(tok@ == t);
        let first = match find_bytes(bytes, tok) {
            None => {
                return Err(MultipartError::MalformedMultipart);
            },
            Some(f) => f,
        };
        proof {
            lemma_find_from_is(bytes@, t, 0, first as int);
            assert(occurs_at(bytes@, t, first as int));
            assert(first + t.len() <= len);
        }
        let last = match rfind_bytes(bytes, tok) {
            None => {
                return Err(MultipartError::MalformedMultipart);
            },
            Some(l) => l,
        };
        if first + tok.len() <= last {
            let pos = first + tok.len();
            Ok(Multipart { boundary: token, bytes, pos, end: last })
        } else {
            proof {
                assert forall|a: int, b: int|
                    occurs_at(bytes@, t, a) && occurs_at(bytes@, t, b) implies a + t.len() > b by {
                    assert(first <= a);
                    assert(b <= last);
                }
            }
            Err(MultipartError::MalformedMultipart)
        }
    }

    /// The next part: the bytes from the cursor up to the next boundary, split
    /// into headers and body, with the cursor moved past that boundary. `None`,
    /// with nothing changed, once no part is left; so it stays `None`.
    pub fn next(&mut self) -> (r: Option<Result<Part, MultipartError>>)
        requires
            old(self).wf(),
        ensures
            final(self).wf(),
            final(self).token() == old(self).token(),
            final(self).buffer() == old(self).buffer(),
            final(self).limit() == old(self).limit(),
            match next_boundary(
                old(self).token(),
                old(self).buffer(),
                old(self).cursor(),
                old(self).limit(),
            ) {
                None => r is None && final(self).cursor() == old(self).cursor(),
                Some(o) => {
                    &&& final(self).cursor() == o + old(self).token().len()
                    &&& r matches Some(res) && part_of(
                        old(self).buffer().subrange(old(self).cursor(), o),
                        res,
                    )
                },
            },
            forall|n: nat|
                #![trigger segments(old(self).token(), old(self).buffer(), old(self).cursor(), old(self).limit(), n + 1)]
                segments(
                    old(self).token(),
                    old(self).buffer(),
                    old(self).cursor(),
                    old(self).limit(),
                    n + 1,
                ) == if r is Some {
                    seq![old(self).buffer().subrange(old(self).cursor(), final(self).cursor() - old(self).token().len())]
                        + segments(
                        final(self).token(),
                        final(self).buffer(),
                        final(self).cursor(),
                        final(self).limit(),
                        n,
                    )
                } else {
                    Seq::empty()
                },
    {
        let ghost buf = self.bytes@;
        let ghost t = self.boundary@;
        let ghost p = self.pos as int;
        let len = self.bytes.len();
        let rest = &self.bytes[self.pos..len];
        let tok = self.boundary.as_slice();
        assert(rest@ == buf.subrange(p, buf.len() as int));
        let found = find_bytes(rest, tok);
        proof {
            lemma_find_from(buf, t, p);
        }
        let off = match found {
            None => {
                proof {
                    if let Some(o) = find_from(buf, t, p) {
                        lemma_occurs_shift(buf, t, p, o - p);
                    }
                }
                return None;
            },
            Some(i) => i,
        };
        let stop = self.pos + off;
        proof {
            lemma_occurs_shift(buf, t, p, off as int);
            assert forall|j: int| p <= j < stop implies !occurs_at(buf, t, j) by {
                lemma_occurs_shift(buf, t, p, j - p);
            }
            lemma_find_from_is(buf, t, p, stop as int);
        }
        if off == 0 || self.pos >= self.end {
            return None;
        }
        let seg = &self.bytes[self.pos..stop];
        self.pos = stop + tok.len();
        Some(split_part(seg))
    }
}

/// Segments, each followed by the boundary token.
pub open spec fn framed(token: Seq<u8>, segs: Seq<Seq<u8>>) -> Seq<u8>
    decreases segs.len(),
{
    if segs.len() == 0 {
        seq![]
    } else {
        segs[0] + token + framed(token, segs.drop_first())
    }
}

/// `token` does not occur in `s + token` before the token itself.
pub open spec fn free_of(s: Seq<u8>, token: Seq<u8>) -> bool {
    forall|j: int| 0 <= j < s.len() ==> !occurs_at(s + token, token, j)
}

proof fn lemma_framed_ends(token: Seq<u8>, segs: Seq<Seq<u8>>)
    requires
        segs.len() > 0,
    ensures
        framed(token, segs).len() >= token.len(),
        framed(token, segs).subrange(
            framed(token, segs).len() - token.len(),
            framed(token, segs).len() as int,
        ) == token,
    decreases segs.len(),
{
    let f = framed(token, segs);
    let rest = segs.drop_first();
    if rest.len() == 0 {
        assert(framed(token, rest) =~= seq![]);
        assert(f.subrange(f.len() - token.len(), f.len() as int) =~= token);
    } else {
        lemma_framed_ends(token, rest);
        let fr = framed(token, rest);
        assert(f.subrange(f.len() - token.len(), f.len() as int) =~= fr.subrange(
            fr.len() - token.len(),
            fr.len() as int,
        ));
    }
}

proof fn lemma_segments_run(token: Seq<u8>, buf: Seq<u8>, p: int, end: int, segs: Seq<Seq<u8>>)
    requires
        token.len() > 0,
        0 <= p,
        p + framed(token, segs).len() == end + token.len(),
        end + token.len() <= buf.len(),
        buf.subrange(p, end + token.len()) == framed(token, segs),
        forall|i: int| 0 <= i < segs.len() ==> segs[i].len() > 0 && free_of(#[trigger] segs[i], token),
    ensures
        segments(token, buf, p, end, segs.len() + 1) == segs,
    decreases segs.len(),
{
    if segs.len() == 0 {
        assert(segments(token, buf, p, end, 1) == Seq::<Seq<u8>>::empty());
        assert(segs =~= Seq::<Seq<u8>>::empty());
    } else {
        let s0 = segs[0];
        let rest = segs.drop_first();
        let f = framed(token, segs);
        let fr = framed(token, rest);
        let o = p + s0.len();
        let w = s0 + token;
        assert(f == w + fr);
        assert(buf.subrange(p, o + token.len()) =~= w) by {
            assert(buf.subrange(p, o + token.len()) =~= f.subrange(0, w.len() as int));
        }
        assert(buf.subrange(o, o + token.len()) =~= token) by {
            assert(buf.subrange(o, o + token.len()) =~= w.subrange(
                s0.len() as int,
                w.len() as int,
            ));
        }
        assert forall|j: int| p <= j < o implies !occurs_at(buf, token, j) by {
            if occurs_at(buf, token, j) {
                lemma_occurs_within(buf, w, p, token, j);
            }
        }
        lemma_find_from_is(buf, token, p, o);
        assert(next_boundary(token, buf, p, end) == Some(o));
        assert(buf.subrange(p, o) =~= s0) by {
            assert(buf.subrange(p, o) =~= w.subrange(0, s0.len() as int));
        }
        assert(buf.subrange(o + token.len(), end + token.len()) =~= fr) by {
            assert(buf.subrange(o + token.len(), end + token.len()) =~= f.subrange(
                w.len() as int,
                f.len() as int,
            ));
        }
        assert forall|i: int| 0 <= i < rest.len() implies rest[i].len() > 0 && free_of(
            #[trigger] rest[i],
            token,
        ) by {
            assert(rest[i] == segs[i + 1]);
        }
        lemma_segments_run(token, buf, o + token.len(), end, rest);
        assert(segs =~= seq![s0] + rest);
    }
}

/// A payload of the form preamble, boundary token, then each of `segs`
/// followed by the token, then an epilogue, where no token hides in the
/// preamble, in a part or in the epilogue, and no part is empty: the first
/// token opens it, the last one closes it, and the cursor yields exactly the
/// parts `segs`, in order, and then nothing more.
pub proof fn lemma_well_formed_payload(
    boundary: Seq<u8>,
    preamble: Seq<u8>,
    segs: Seq<Seq<u8>>,
    epilogue: Seq<u8>,
)
    requires
        segs.len() > 0,
        free_of(preamble, boundary_token(boundary)),
        forall|i: int|
            0 <= i < segs.len() ==> segs[i].len() > 0 && free_of(
                #[trigger] segs[i],
                boundary_token(boundary),
            ),
        forall|j: int|
            0 < j ==> !occurs_at(boundary_token(boundary) + epilogue, boundary_token(boundary), j),
    ensures
        ({
            let t = boundary_token(boundary);
            let buf = preamble + t + framed(t, segs) + epilogue;
            let end = (buf.len() - epilogue.len() - t.len()) as int;
            &&& find_first(buf, t) == Some(preamble.len() as int)
            &&& occurs_at(buf, t, end)
            &&& forall|j: int| end < j ==> !occurs_at(buf, t, j)
            &&& preamble.len() + t.len() <= end
            &&& segments(t, buf, (preamble.len() + t.len()) as int, end, segs.len() + 1) == segs
        }),
{
    let t = boundary_token(boundary);
    let f = framed(t, segs);
    let buf = preamble + t + f + epilogue;
    let end = (buf.len() - epilogue.len() - t.len()) as int;
    let p0 = (preamble.len() + t.len()) as int;
    assert(buf =~= preamble + t + (f + epilogue));
    lemma_first_after(preamble, t, f + epilogue);
    lemma_framed_ends(t, segs);
    let te = t + epilogue;
    assert(buf.subrange(end, buf.len() as int) =~= te) by {
        assert(buf.subrange(end, end + t.len()) =~= f.subrange(f.len() - t.len(), f.len() as int));
    }
    assert(buf.subrange(end, end + t.len()) =~= t);
    assert forall|j: int| end < j implies !occurs_at(buf, t, j) by {
        if occurs_at(buf, t, j) {
            lemma_occurs_within(buf, te, end, t, j);
        }
    }
    assert(buf.subrange(p0, end + t.len()) =~= f);
    lemma_segments_run(t, buf, p0, end, segs);
}

/// A cursor that `new` opened on a payload of the form that
/// `lemma_well_formed_payload` describes (its clauses on success as they stand)
/// yields exactly the parts `segs`, in order, and then nothing more.
pub proof fn lemma_opened_payload_yields(
    m: Multipart<'_>,
    boundary: Seq<u8>,
    preamble: Seq<u8>,
    segs: Seq<Seq<u8>>,
    epilogue: Seq<u8>,
)
    requires
        segs.len() > 0,
        free_of(preamble, boundary_token(boundary)),
        forall|i: int|
            0 <= i < segs.len() ==> segs[i].len() > 0 && free_of(
                #[trigger] segs[i],
                boundary_token(boundary),
            ),
        forall|j: int|
            0 < j ==> !occurs_at(boundary_token(boundary) + epilogue, boundary_token(boundary), j),
        m.token() == boundary_token(boundary),
        m.buffer() == preamble + m.token() + framed(m.token(), segs) + epilogue,
        find_first(m.buffer(), m.token()) == Some(m.cursor() - m.token().len()),
        occurs_at(m.buffer(), m.token(), m.limit()),
        forall|j: int| m.limit() < j ==> !occurs_at(m.buffer(), m.token(), j),
    ensures
        m.cursor() == preamble.len() + m.token().len(),
        m.limit() == m.buffer().len() - epilogue.len() - m.token().len(),
        segments(m.token(), m.buffer(), m.cursor(), m.limit(), segs.len() + 1) == segs,
{
    lemma_well_formed_payload(boundary, preamble, segs, epilogue);
    let t = m.token();
    let end = (m.buffer().len() - epilogue.len() - t.len()) as int;
    assert(!(m.limit() < end));
    assert(!(end < m.limit()));
}

/// Once the cursor has no part left, every later step yields nothing.
pub proof fn lemma_exhausted_stays(token: Seq<u8>, buf: Seq<u8>, pos: int, end: int, n: nat)
    requires
        next_boundary(token, buf, pos, end) is None,
    ensures
        segments(token, buf, pos, end, n) == Seq::<Seq<u8>>::empty(),
{
}

/// A boundary right at the cursor (an empty part) ends the iteration.
pub proof fn lemma_empty_part_ends(token: Seq<u8>, buf: Seq<u8>, pos: int, end: int)
    requires
        0 <= pos,
        occurs_at(buf, token, pos),
    ensures
        next_boundary(token, buf, pos, end) is None,
{
    lemma_find_from_is(buf, token, pos, pos);
}

} // verus!
