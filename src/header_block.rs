//! Decomposition of a part's header block into an `http::HeaderMap`.
use vstd::prelude::*;
use vstd::utf8::*;
use vstd::string::*;
use crate::search::{occurs_at, find_first, find_first_exec, lemma_find_from};

verus! {

#[verifier::external_type_specification]
#[verifier::external_body]
#[verifier::reject_recursive_types(T)]
pub struct ExHeaderMap<T>(http::HeaderMap<T>);

#[verifier::external_type_specification]
#[verifier::external_body]
pub struct ExHeaderValue(http::HeaderValue);

/// What a header map holds: each (lower-case) name with its value bytes.
pub uninterp spec fn header_entries(m: http::HeaderMap) -> Map<Seq<u8>, Seq<u8>>;

/// Relies on `http::HeaderMap::new`: a new map is empty.
#[verifier::external_body]
fn new_header_map() -> (r: http::HeaderMap)
    ensures
        header_entries(r) == no_headers(),
{
    http::HeaderMap::new()
}

/// The map with no headers.
pub open spec fn no_headers() -> Map<Seq<u8>, Seq<u8>> {
    Map::empty()
}

/// Below this many names a header map always has room for one more.
pub open spec fn header_room() -> nat {
    4096
}

/// A byte that `http::HeaderName` accepts in a name (RFC 7230 token characters).
pub open spec fn is_token_byte(b: u8) -> bool {
    ||| b == 33
    ||| 35 <= b <= 39
    ||| b == 42 || b == 43 || b == 45 || b == 46
    ||| 48 <= b <= 57
    ||| 65 <= b <= 90
    ||| 94 <= b <= 122
    ||| b == 124 || b == 126
}

/// The byte sequences that `http::HeaderName::from_bytes` accepts.
pub open spec fn is_header_name(n: Seq<u8>) -> bool {
    &&& 1 <= n.len() <= 65535
    &&& forall|i: int| 0 <= i < n.len() ==> is_token_byte(#[trigger] n[i])
}

/// ASCII upper-case letters mapped to lower case, every other byte kept.
pub open spec fn lower_byte(b: u8) -> u8 {
    if 65 <= b <= 90 {
        (b + 32) as u8
    } else {
        b
    }
}

/// The name under which `http::HeaderName` stores `n`.
pub open spec fn lower_name(n: Seq<u8>) -> Seq<u8> {
    n.map_values(|b: u8| lower_byte(b))
}

/// The byte sequences that `http::HeaderValue::from_str` accepts.
pub open spec fn is_header_value(v: Seq<u8>) -> bool {
    forall|i: int| 0 <= i < v.len() ==> (#[trigger] v[i] >= 32 && v[i] != 127) || v[i] == 9
}

/// Unicode `White_Space` characters, the ones `str::trim` removes.
pub open spec fn is_ws(c: char) -> bool {
    let u = c as u32;
    ||| 9 <= u <= 13
    ||| u == 32 || u == 0x85 || u == 0xA0 || u == 0x1680
    ||| 0x2000 <= u <= 0x200A
    ||| u == 0x2028 || u == 0x2029 || u == 0x202F || u == 0x205F || u == 0x3000
}

pub open spec fn trim_start_ws(s: Seq<char>) -> Seq<char>
    decreases s.len(),
{
    if s.len() > 0 && is_ws(s[0]) {
        trim_start_ws(s.drop_first())
    } else {
        s
    }
}

pub open spec fn trim_end_ws(s: Seq<char>) -> Seq<char>
    decreases s.len(),
{
    if s.len() > 0 && is_ws(s.last()) {
        trim_end_ws(s.drop_last())
    } else {
        s
    }
}

/// `s` without leading and trailing whitespace.
pub open spec fn trim_ws(s: Seq<char>) -> Seq<char> {
    trim_end_ws(trim_start_ws(s))
}

/// The UTF-8 text `b` without leading and trailing whitespace, as bytes.
pub open spec fn trim_bytes(b: Seq<u8>) -> Seq<u8> {
    encode_utf8(trim_ws(decode_utf8(b)))
}

/// `line` without one trailing carriage return.
pub open spec fn strip_cr(line: Seq<u8>) -> Seq<u8> {
    if line.len() > 0 && line.last() == 13 {
        line.drop_last()
    } else {
        line
    }
}

/// The entry a header line gives: for a `name: value` line (a trailing CR
/// dropped) whose name and trimmed value are valid, the lower-cased name and
/// the trimmed value; nothing for any other line.
pub open spec fn line_entry(line: Seq<u8>) -> Option<(Seq<u8>, Seq<u8>)> {
    let l = strip_cr(line);
    match find_first(l, seq![58u8]) {
        None => None,
        Some(c) => {
            let name = l.subrange(0, c);
            let value = trim_bytes(l.subrange(c + 1, l.len() as int));
            if is_header_name(name) && is_header_value(value) {
                Some((lower_name(name), value))
            } else {
                None
            }
        },
    }
}

/// `m` after one header line: its entry, if any, replaces the name's value.
pub open spec fn apply_line(m: Map<Seq<u8>, Seq<u8>>, line: Seq<u8>) -> Map<Seq<u8>, Seq<u8>> {
    match line_entry(line) {
        Some((name, value)) => m.insert(name, value),
        None => m,
    }
}

/// Of two lines that set the same name, the later one's value is what stays.
pub proof fn lemma_later_line_wins(m: Map<Seq<u8>, Seq<u8>>, first: Seq<u8>, second: Seq<u8>)
    requires
        line_entry(first) is Some,
        line_entry(second) is Some,
        line_entry(first)->Some_0.0 == line_entry(second)->Some_0.0,
    ensures
        apply_line(apply_line(m, first), second) == apply_line(m, second),
{
    let (k, v1) = line_entry(first)->Some_0;
    let (k2, v2) = line_entry(second)->Some_0;
    assert(m.insert(k, v1).insert(k2, v2) =~= m.insert(k2, v2));
}

/// `m` after the lines of `t` from offset `i` on, the current line starting at `start`.
pub open spec fn scan_lines(t: Seq<u8>, i: int, start: int, m: Map<Seq<u8>, Seq<u8>>) -> Map<
    Seq<u8>,
    Seq<u8>,
>
    decreases t.len() - i,
{
    if i >= t.len() {
        apply_line(m, t.subrange(start, t.len() as int))
    } else if t[i] == 10 {
        scan_lines(t, i + 1, i + 1, apply_line(m, t.subrange(start, i)))
    } else {
        scan_lines(t, i + 1, start, m)
    }
}

/// The headers of a header block: nothing unless it is UTF-8 text; else the
/// lines of the trimmed text, applied in order, later names overriding earlier.
pub open spec fn block_headers(block: Seq<u8>) -> Map<Seq<u8>, Seq<u8>> {
    if valid_utf8(block) {
        scan_lines(trim_bytes(block), 0, 0, no_headers())
    } else {
        no_headers()
    }
}

/// Lines joined with line feeds.
pub open spec fn join_lines(lines: Seq<Seq<u8>>) -> Seq<u8>
    decreases lines.len(),
{
    if lines.len() == 0 {
        seq![]
    } else if lines.len() == 1 {
        lines[0]
    } else {
        join_lines(lines.drop_last()) + seq![10u8] + lines.last()
    }
}

/// `m` after each of `lines`, in order.
pub open spec fn apply_lines(m: Map<Seq<u8>, Seq<u8>>, lines: Seq<Seq<u8>>) -> Map<
    Seq<u8>,
    Seq<u8>,
>
    decreases lines.len(),
{
    if lines.len() == 0 {
        m
    } else {
        apply_line(apply_lines(m, lines.drop_last()), lines.last())
    }
}

/// `line` has no line feed.
pub open spec fn single_line(line: Seq<u8>) -> bool {
    forall|j: int| 0 <= j < line.len() ==> line[j] != 10
}

/// `line` gives an entry for the name `k`.
pub open spec fn sets_name(line: Seq<u8>, k: Seq<u8>) -> bool {
    line_entry(line) matches Some(e) && e.0 == k
}

proof fn lemma_scan_last_line(t: Seq<u8>, i: int, start: int, m: Map<Seq<u8>, Seq<u8>>)
    requires
        0 <= start <= i <= t.len(),
        forall|j: int| i <= j < t.len() ==> t[j] != 10,
    ensures
        scan_lines(t, i, start, m) == apply_line(m, t.subrange(start, t.len() as int)),
    decreases t.len() - i,
{
    if i < t.len() {
        lemma_scan_last_line(t, i + 1, start, m);
    }
}

proof fn lemma_scan_split(a: Seq<u8>, last: Seq<u8>, i: int, start: int, m: Map<Seq<u8>, Seq<u8>>)
    requires
        0 <= start <= i <= a.len(),
        single_line(last),
    ensures
        scan_lines(a + seq![10u8] + last, i, start, m) == apply_line(
            scan_lines(a, i, start, m),
            last,
        ),
    decreases a.len() - i,
{
    let t = a + seq![10u8] + last;
    let n = a.len() as int;
    if i == n {
        let m2 = apply_line(m, t.subrange(start, i));
        lemma_scan_last_line(t, i + 1, i + 1, m2);
        assert(t.subrange(start, i) =~= a.subrange(start, n));
        assert(t.subrange(i + 1, t.len() as int) =~= last);
    } else {
        assert(t[i] == a[i]);
        if a[i] == 10 {
            assert(t.subrange(start, i) =~= a.subrange(start, i));
            lemma_scan_split(a, last, i + 1, i + 1, apply_line(m, a.subrange(start, i)));
        } else {
            lemma_scan_split(a, last, i + 1, start, m);
        }
    }
}

/// Scanning lines joined with line feeds applies them one by one, in order.
pub proof fn lemma_scan_joined(lines: Seq<Seq<u8>>, m: Map<Seq<u8>, Seq<u8>>)
    requires
        lines.len() >= 1,
        forall|i: int| 0 <= i < lines.len() ==> single_line(#[trigger] lines[i]),
    ensures
        scan_lines(join_lines(lines), 0, 0, m) == apply_lines(m, lines),
    decreases lines.len(),
{
    if lines.len() == 1 {
        assert(single_line(lines[0]));
        lemma_scan_last_line(lines[0], 0, 0, m);
        assert(lines[0].subrange(0, lines[0].len() as int) =~= lines[0]);
        assert(lines.drop_last() =~= Seq::<Seq<u8>>::empty());
        assert(apply_lines(m, lines.drop_last()) == m);
        assert(join_lines(lines) == lines[0]);
    } else {
        let init = lines.drop_last();
        assert forall|i: int| 0 <= i < init.len() implies single_line(#[trigger] init[i]) by {
            assert(init[i] == lines[i]);
        }
        assert(single_line(lines[lines.len() - 1]));
        lemma_scan_joined(init, m);
        lemma_scan_split(join_lines(init), lines.last(), 0, 0, m);
        assert(join_lines(lines) == join_lines(init) + seq![10u8] + lines.last());
    }
}

/// The headers of a UTF-8 block whose trimmed text is `lines` joined with line
/// feeds are those lines applied in order to an empty map.
pub proof fn lemma_block_lines(block: Seq<u8>, lines: Seq<Seq<u8>>)
    requires
        valid_utf8(block),
        lines.len() >= 1,
        forall|i: int| 0 <= i < lines.len() ==> single_line(#[trigger] lines[i]),
        trim_bytes(block) == join_lines(lines),
    ensures
        block_headers(block) == apply_lines(no_headers(), lines),
{
    lemma_scan_joined(lines, no_headers());
}

/// A name holds the value of the last line that sets it.
pub proof fn lemma_last_setting_line_wins(
    m: Map<Seq<u8>, Seq<u8>>,
    lines: Seq<Seq<u8>>,
    k: Seq<u8>,
    i: int,
)
    requires
        0 <= i < lines.len(),
        sets_name(lines[i], k),
        forall|j: int| i < j < lines.len() ==> !sets_name(#[trigger] lines[j], k),
    ensures
        apply_lines(m, lines).contains_key(k),
        apply_lines(m, lines)[k] == line_entry(lines[i])->Some_0.1,
    decreases lines.len(),
{
    let n = lines.len() - 1;
    if i < n {
        let init = lines.drop_last();
        assert(!sets_name(lines[n], k));
        assert forall|j: int| i < j < init.len() implies !sets_name(#[trigger] init[j], k) by {
            assert(init[j] == lines[j]);
        }
        assert(init[i] == lines[i]);
        lemma_last_setting_line_wins(m, init, k, i);
    }
}

/// A name that no line sets keeps what it had before.
pub proof fn lemma_unset_name_kept(m: Map<Seq<u8>, Seq<u8>>, lines: Seq<Seq<u8>>, k: Seq<u8>)
    requires
        forall|i: int| 0 <= i < lines.len() ==> !sets_name(#[trigger] lines[i], k),
    ensures
        apply_lines(m, lines).contains_key(k) == m.contains_key(k),
        m.contains_key(k) ==> apply_lines(m, lines)[k] == m[k],
    decreases lines.len(),
{
    if lines.len() > 0 {
        let init = lines.drop_last();
        assert(!sets_name(lines[lines.len() - 1], k));
        assert forall|i: int| 0 <= i < init.len() implies !sets_name(#[trigger] init[i], k) by {
            assert(init[i] == lines[i]);
        }
        lemma_unset_name_kept(m, init, k);
    }
}

/// A line without a colon sets nothing, wherever it stands among the lines.
pub proof fn lemma_colon_free_line_dropped(
    m: Map<Seq<u8>, Seq<u8>>,
    lines: Seq<Seq<u8>>,
    i: int,
    line: Seq<u8>,
)
    requires
        0 <= i <= lines.len(),
        forall|j: int| 0 <= j < line.len() ==> line[j] != 58,
    ensures
        apply_lines(m, lines.insert(i, line)) == apply_lines(m, lines),
    decreases lines.len(),
{
    let l = strip_cr(line);
    lemma_find_from(l, seq![58u8], 0);
    if let Some(c) = find_first(l, seq![58u8]) {
        assert(l.subrange(c, c + 1)[0] == 58);
        assert(line[c] == l[c]);
    }
    assert(line_entry(line) is None);
    let ins = lines.insert(i, line);
    if i == lines.len() {
        assert(ins.drop_last() =~= lines);
    } else {
        let init = lines.drop_last();
        assert(ins.drop_last() =~= init.insert(i, line));
        assert(ins.last() == lines.last());
        lemma_colon_free_line_dropped(m, init, i, line);
    }
}

/// Relies on `std::str::from_utf8`: the bytes as text exactly when they are UTF-8.
#[verifier::external_body]
fn utf8_text(b: &[u8]) -> (r: Option<&str>)
    ensures
        r is Some <==> valid_utf8(b@),
        r matches Some(s) ==> s.spec_bytes() == b@,
{
    std::str::from_utf8(b).ok()
}

/// Relies on `str::trim`: the text without leading and trailing `White_Space`.
#[verifier::external_body]
fn trim_text(s: &str) -> (r: &str)
    ensures
        r@ == trim_ws(s@),
{
    s.trim()
}

/// Relies on `http::HeaderName::from_bytes`, `http::HeaderValue::from_str` and
/// `http::HeaderMap::try_insert`: the pair is stored when both parts are valid,
/// replacing an earlier value of the same name; `try_insert` fails only once the
/// map has grown to thousands of names, and then leaves it as it was.
#[verifier::external_body]
fn insert_header(map: &mut http::HeaderMap, name: &[u8], value: &str) -> (r: bool)
    ensures
        r ==> is_header_name(name@) && is_header_value(value.spec_bytes()),
        r ==> header_entries(*final(map)) == header_entries(*old(map)).insert(
            lower_name(name@),
            value.spec_bytes(),
        ),
        !r ==> header_entries(*final(map)) == header_entries(*old(map)),
        !r && is_header_name(name@) && is_header_value(value.spec_bytes()) ==> header_entries(
            *old(map),
        ).len() >= header_room(),
{
    match (http::HeaderName::from_bytes(name), http::HeaderValue::from_str(value)) {
        (Ok(n), Ok(v)) => map.try_insert(n, v).is_ok(),
        _ => false,
    }
}

/// Next to an ASCII byte a UTF-8 sequence can be cut without splitting a character.
proof fn lemma_ascii_boundary(bytes: Seq<u8>, k: int)
    requires
        valid_utf8(bytes),
        0 <= k <= bytes.len(),
        k == 0 || k == bytes.len() || bytes[k] < 128 || bytes[k - 1] < 128,
    ensures
        is_char_boundary(bytes, k),
{
    is_char_boundary_start_end_of_seq(bytes);
    if k == 0 || k == bytes.len() {
    } else if bytes[k] < 128 {
        is_char_boundary_iff_not_is_continuation_byte(bytes, k);
    } else {
        is_char_boundary_iff_not_is_continuation_byte(bytes, k - 1);
        valid_utf8_split(bytes, k - 1);
        let suf = bytes.subrange(k - 1, bytes.len() as int);
        assert(is_char_boundary(suf, 1)) by {
            reveal_with_fuel(is_char_boundary, 2);
            reveal_with_fuel(valid_utf8, 2);
        }
        is_char_boundary_iff_not_is_continuation_byte(suf, 1);
        assert(suf[1] == bytes[k]);
        is_char_boundary_iff_not_is_continuation_byte(bytes, k);
    }
}

/// The text of `t` between byte offsets `lo` and `hi`, both next to ASCII bytes.
fn text_between<'a>(t: &'a str, lo: usize, hi: usize) -> (r: &'a str)
    requires
        lo <= hi <= t.spec_bytes().len(),
        lo == 0 || t.spec_bytes()[lo - 1] < 128,
        hi == t.spec_bytes().len() || t.spec_bytes()[hi as int] < 128,
    ensures
        r.spec_bytes() == t.spec_bytes().subrange(lo as int, hi as int),
{
    let ghost b = t.spec_bytes();
    proof {
        encode_utf8_valid_utf8(t@);
        lemma_ascii_boundary(b, lo as int);
    }
    let (_, tail) = t.split_at(lo);
    let ghost tb = tail.spec_bytes();
    proof {
        assert(tb =~= b.subrange(lo as int, b.len() as int));
        encode_utf8_valid_utf8(tail@);
        assert(hi - lo == tb.len() || tb[hi - lo] == b[hi as int]);
        lemma_ascii_boundary(tb, hi - lo);
    }
    let (mid, _) = tail.split_at(hi - lo);
    proof {
        assert(mid.spec_bytes() =~= b.subrange(lo as int, hi as int));
    }
    mid
}

/// Applies the line `t[start..end]` to `map`, as `apply_line` states, unless
/// the map has run out of room.
fn add_line(t: &str, start: usize, end: usize, map: &mut http::HeaderMap)
    requires
        start <= end <= t.spec_bytes().len(),
        start == 0 || t.spec_bytes()[start - 1] == 10,
        end == t.spec_bytes().len() || t.spec_bytes()[end as int] == 10,
    ensures
        header_entries(*final(map)) == apply_line(
            header_entries(*old(map)),
            t.spec_bytes().subrange(start as int, end as int),
        ) || (header_entries(*old(map)).len() >= header_room() && header_entries(*final(map))
            == header_entries(*old(map))),
{
    let ghost b = t.spec_bytes();
    let ghost line = b.subrange(start as int, end as int);
    let bytes = t.as_bytes();
    let mut stop = end;
    if stop > start && bytes[stop - 1] == 13 {
        stop = stop - 1;
    }
    let ghost l = strip_cr(line);
    assert(l =~= b.subrange(start as int, stop as int));
    let colon: [u8; 1] = [58u8];
    let hay = &bytes[start..stop];
    assert(hay@ =~= l);
    let needle_slice = colon.as_slice();
    assert(needle_slice@ =~= seq![58u8]);
    let found = find_first_exec(hay, needle_slice);
    match found {
        None => {},
        Some(c) => {
            assert(l.subrange(c as int, c + 1) =~= seq![58u8]);
            assert(l[c as int] == 58);
            assert(b[start + c] == 58);
            let name = &bytes[start..start + c];
            let value = text_between(t, start + c + 1, stop);
            let trimmed = trim_text(value);
            proof {
                assert(name@ =~= l.subrange(0, c as int));
                assert(value.spec_bytes() =~= l.subrange(c + 1, l.len() as int));
            }
            proof {
                encode_utf8_decode_utf8(value@);
                assert(trimmed.spec_bytes() == trim_bytes(value.spec_bytes()));
            }
            insert_header(map, name, trimmed);
        },
    }
}

/// A line never takes a name away.
proof fn lemma_apply_line_grows(m: Map<Seq<u8>, Seq<u8>>, line: Seq<u8>)
    requires
        m.dom().finite(),
    ensures
        apply_line(m, line).dom().finite(),
        apply_line(m, line).len() >= m.len(),
{
    if let Some((name, value)) = line_entry(line) {
        assert(apply_line(m, line).dom() == m.dom().insert(name));
    }
}

/// The header map of a part's header block: the lines of the block's trimmed
/// text, each `name: value` line with a valid name and value setting that name
/// (lower-cased) to the trimmed value, a later line overriding an earlier one;
/// every other line, and a block that is not UTF-8, contributes nothing.
/// A map stops taking new names once it holds thousands of them.
pub fn parse_header_block(block: &[u8]) -> (r: http::HeaderMap)
    ensures
        block_headers(block@).len() < header_room() ==> header_entries(r) == block_headers(
            block@,
        ),
        !valid_utf8(block@) ==> header_entries(r) == no_headers(),
{
    let mut map = new_header_map();
    let text = match utf8_text(block) {
        None => {
            return map;
        },
        Some(s) => s,
    };
    let t = trim_text(text);
    let bytes = t.as_bytes();
    let ghost tb = t.spec_bytes();
    proof {
        encode_utf8_decode_utf8(text@);
        assert(tb == trim_bytes(block@));
    }
    let n = bytes.len();
    let mut start: usize = 0;
    let mut i: usize = 0;
    let ghost mut gathered = no_headers();
    while i < n
        invariant
            bytes@ == tb,
            tb == t.spec_bytes(),
            n == tb.len(),
            start <= i <= n,
            start == 0 || tb[start - 1] == 10,
            scan_lines(tb, 0, 0, no_headers()) == scan_lines(tb, i as int, start as int, gathered),
            gathered.dom().finite(),
            header_entries(map) == gathered || gathered.len() >= header_room(),
        decreases n - i,
    {
        if bytes[i] == 10 {
            add_line(t, start, i, &mut map);
            proof {
                lemma_apply_line_grows(gathered, tb.subrange(start as int, i as int));
                gathered = apply_line(gathered, tb.subrange(start as int, i as int));
            }
            start = i + 1;
        }
        i = i + 1;
    }
    add_line(t, start, n, &mut map);
    proof {
        lemma_apply_line_grows(gathered, tb.subrange(start as int, n as int));
        gathered = apply_line(gathered, tb.subrange(start as int, n as int));
    }
    map
}

} // verus!
