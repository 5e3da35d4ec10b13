use bytes::Bytes;
use http::HeaderValue;
use multipart::header_block::parse_header_block;
use multipart::{parse_boundary, Multipart, MultipartError, Part};

fn collect(m: &mut Multipart<'_>) -> Vec<Result<Part, MultipartError>> {
    let mut out = Vec::new();
    while let Some(item) = m.next() {
        out.push(item);
    }
    out
}

fn header<'h>(part: &'h Part, name: &str) -> Option<&'h str> {
    part.headers.get(name).map(|v| v.to_str().unwrap())
}

#[test]
fn test_multipart() {
    let boundary = "abhjdahkdhfsikldhjfliawefrkhkahskda";

    let body = format!(
        r#"--{boundary}
Content-Type: application/http
Content-ID: response-

HTTP/1.1 200 OK
Content-Type: application/json; charset=UTF-8
Vary: Origin
Vary: X-Origin
Vary: Referer

{{
"name": "projects/35006771263/messages/0:1570471792141125%43c11b7043c11b70"
}}

--{boundary}
Content-Type: application/http
Content-ID: response-

HTTP/1.1 400 BAD REQUEST
Content-Type: application/json; charset=UTF-8
Vary: Origin
Vary: X-Origin
Vary: Referer

{{
"error": {{
    "code": 400,
    "message": "The registration token is not a valid FCM registration token",
    "status": "INVALID_ARGUMENT"
  }}
}}

--{boundary}
Content-Type: application/http
Content-ID: response-

HTTP/1.1 200 OK
Content-Type: application/json; charset=UTF-8
Vary: Origin
Vary: X-Origin
Vary: Referer

{{adnsdkjasdh
"name": "projects/35006771263/messages/0:1570471792141696%43c11b7043c11b70"
}}

--{boundary}--"#
    )
    .replace('\n', "\r\n")
    .replace("adnsdkjasdh", "\r\r\r\r\r\r\r\r");

    let content_type =
        HeaderValue::from_str(&format!("multipart/form-data; boundary={boundary}")).unwrap();
    let bytes = Bytes::from_iter(body.bytes());

    let mut multipart =
        Multipart::new(parse_boundary(content_type.as_bytes()).unwrap(), &bytes).unwrap();

    let mut count = 0;
    while let Some(item) = multipart.next() {
        let part = item.unwrap();
        let content_type = header(&part, "Content-Type").unwrap();
        let content_id = header(&part, "Content-ID").unwrap();

        println!("Content-Type: {content_type}");
        println!("Content-ID: {content_id}");
        println!();

        let a = String::from_utf8(part.body).unwrap();

        let r = a.contains('\r');

        assert!(r);

        println!("{a}");

        println!("------------------");
        count += 1;
    }
    assert_eq!(count, 3);
}

#[test]
fn three_parts_then_exhaustion() {
    let payload = b"--B\r\nContent-Type: application/json\r\nContent-ID: response-1\r\n\r\n{\"ok\":true}\r\n--B\r\nContent-Type: application/json\r\n\r\n\r\r\r\r\r\n--B\r\nContent-Type: application/json\r\nContent-ID: response-1\r\n\r\n{\"ok\":false}\r\n--B--";
    let mut m = Multipart::new(b"B", payload).unwrap();
    let parts = collect(&mut m);
    assert_eq!(parts.len(), 3);
    let p0 = parts[0].as_ref().unwrap();
    assert_eq!(header(p0, "content-type"), Some("application/json"));
    assert_eq!(header(p0, "Content-ID"), Some("response-1"));
    assert_eq!(p0.headers.len(), 2);
    assert_eq!(p0.body, b"{\"ok\":true}\r\n".to_vec());
    let p1 = parts[1].as_ref().unwrap();
    assert_eq!(header(p1, "Content-Type"), Some("application/json"));
    assert_eq!(p1.headers.len(), 1);
    assert_eq!(p1.body, b"\r\r\r\r\r\n".to_vec());
    let p2 = parts[2].as_ref().unwrap();
    assert_eq!(header(p2, "Content-ID"), Some("response-1"));
    assert_eq!(p2.body, b"{\"ok\":false}\r\n".to_vec());
    assert!(m.next().is_none());
}

#[test]
fn exhausted_cursor_stays_exhausted() {
    let payload = b"--B\r\nA: 1\r\n\r\nx\r\n--B--";
    let mut m = Multipart::new(b"B", payload).unwrap();
    assert!(m.next().is_some());
    for _ in 0..5 {
        assert!(m.next().is_none());
    }
}

#[test]
fn line_without_colon_is_dropped() {
    let payload = b"--B\r\nX-A: 1\r\nno colon here\r\nX-B: 2\r\n\r\nbody\r\n--B--";
    let mut m = Multipart::new(b"B", payload).unwrap();
    let part = m.next().unwrap().unwrap();
    assert_eq!(part.headers.len(), 2);
    assert_eq!(header(&part, "x-a"), Some("1"));
    assert_eq!(header(&part, "x-b"), Some("2"));
    assert_eq!(part.body, b"body\r\n".to_vec());
}

#[test]
fn empty_part_ends_iteration() {
    let payload = b"--B--B\r\nX: 1\r\n\r\nb\r\n--B--";
    let mut m = Multipart::new(b"B", payload).unwrap();
    assert!(m.next().is_none());
    assert!(m.next().is_none());
}

#[test]
fn boundary_after_marker() {
    assert_eq!(
        parse_boundary(b"multipart/mixed; boundary=XYZ"),
        Some(&b"XYZ"[..])
    );
    assert_eq!(
        parse_boundary(b"multipart/form-data; boundary=\"q\"; charset=x"),
        Some(&b"\"q\"; charset=x"[..])
    );
    assert_eq!(parse_boundary(b"boundary="), Some(&b""[..]));
}

#[test]
fn boundary_missing() {
    assert_eq!(parse_boundary(b"text/plain; charset=utf-8"), None);
    assert_eq!(parse_boundary(b"multipart/mixed; Boundary=XYZ"), None);
    assert_eq!(parse_boundary(b""), None);
}

#[test]
fn no_boundary_in_payload() {
    let r = Multipart::new(b"B", b"no delimiters at all");
    assert!(matches!(r, Err(MultipartError::MalformedMultipart)));
}

#[test]
fn single_boundary_in_payload() {
    let r = Multipart::new(b"B", b"--B\r\nA: 1\r\n\r\nx");
    assert!(matches!(r, Err(MultipartError::MalformedMultipart)));
}

#[test]
fn overlapping_boundaries_rejected() {
    // "----" holds the token "---" at 0 and 1, which overlap.
    let r = Multipart::new(b"-", b"----");
    assert!(matches!(r, Err(MultipartError::MalformedMultipart)));
}

#[test]
fn part_without_blank_line() {
    let payload = b"--B\r\nno blank line\r\n--B\r\nA: 1\r\n\r\nok\r\n--B--";
    let mut m = Multipart::new(b"B", payload).unwrap();
    let first = m.next().unwrap();
    assert!(matches!(first, Err(MultipartError::MalformedPart)));
    let second = m.next().unwrap().unwrap();
    assert_eq!(header(&second, "A"), Some("1"));
    assert_eq!(second.body, b"ok\r\n".to_vec());
    assert!(m.next().is_none());
}

#[test]
fn preamble_and_epilogue_skipped() {
    let payload = b"preamble text\r\n--B\r\nA: 1\r\n\r\nx\r\n--B--\r\nepilogue";
    let mut m = Multipart::new(b"B", payload).unwrap();
    let parts = collect(&mut m);
    assert_eq!(parts.len(), 1);
    let p = parts[0].as_ref().unwrap();
    assert_eq!(header(p, "a"), Some("1"));
    assert_eq!(p.body, b"x\r\n".to_vec());
}

#[test]
fn body_bytes_kept_as_is() {
    let payload: &[u8] = b"--B\r\nA: 1\r\n\r\n\x00\xff\r\n\r\nbin\r\r\n--B--";
    let mut m = Multipart::new(b"B", payload).unwrap();
    let p = m.next().unwrap().unwrap();
    assert_eq!(p.body, b"\x00\xff\r\n\r\nbin\r\r\n".to_vec());
}

#[test]
fn later_duplicate_header_wins() {
    let map = parse_header_block(b"X-Key: first\r\nx-key: second\r\nOther: o");
    assert_eq!(map.len(), 2);
    assert_eq!(map.get("X-KEY").unwrap().to_str().unwrap(), "second");
    assert_eq!(map.get("other").unwrap().to_str().unwrap(), "o");
}

#[test]
fn header_value_is_trimmed_name_is_not() {
    let map = parse_header_block(b"  \r\n A: untrimmed-name-ok-after-block-trim\r\nB:   spaced value \t \r\n C: dropped");
    assert_eq!(map.get("a").unwrap().to_str().unwrap(), "untrimmed-name-ok-after-block-trim");
    assert_eq!(map.get("b").unwrap().to_str().unwrap(), "spaced value");
    assert!(map.get("c").is_none());
    assert_eq!(map.len(), 2);
}

#[test]
fn unicode_whitespace_trimmed_from_value() {
    let map = parse_header_block("K:\u{3000}v\u{a0}".as_bytes());
    assert_eq!(map.get("k").unwrap().as_bytes(), b"v");
}

#[test]
fn invalid_header_names_and_values_dropped() {
    let map = parse_header_block(b"Bad Name: 1\r\n: empty\r\nGood: ok\r\nCtl: a\x7fb");
    assert_eq!(map.len(), 1);
    assert_eq!(map.get("good").unwrap().to_str().unwrap(), "ok");
}

#[test]
fn non_utf8_header_block_gives_no_headers() {
    let map = parse_header_block(b"A: 1\r\nB: \xff\xfe");
    assert!(map.is_empty());
}

#[test]
fn empty_header_block() {
    let map = parse_header_block(b"");
    assert!(map.is_empty());
    let mut m = Multipart::new(b"B", b"--B\r\n\r\nbody\r\n--B--").unwrap();
    let p = m.next().unwrap().unwrap();
    assert!(p.headers.is_empty());
    assert_eq!(p.body, b"body\r\n".to_vec());
}
