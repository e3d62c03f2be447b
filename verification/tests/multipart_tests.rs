use paddle_desktop::multipart::{
    classify_header_line, extract_boundary, parse_multipart, parse_part_headers, HeaderLine,
};

#[test]
fn boundary_from_content_type() {
    assert_eq!(
        extract_boundary("multipart/form-data; boundary=----WebKitFormBoundaryX"),
        Some("----WebKitFormBoundaryX".to_string())
    );
    assert_eq!(
        extract_boundary("multipart/form-data; boundary=\"abc def\""),
        Some("abc def".to_string())
    );
    assert_eq!(extract_boundary("multipart/form-data;boundary= \"\"q\"\" ;x=1"), Some("q".to_string()));
    assert_eq!(extract_boundary("multipart/form-data"), None);
    assert_eq!(extract_boundary(""), None);
    assert_eq!(extract_boundary("a; Boundary=x"), None);
    assert_eq!(
        extract_boundary("a; boundary=first; boundary=second"),
        Some("first".to_string())
    );
}

#[test]
fn header_lines() {
    assert_eq!(classify_header_line("content-disposition: form-data"), HeaderLine::Disposition);
    assert_eq!(classify_header_line("content-type: text/plain"), HeaderLine::ContentType);
    assert_eq!(classify_header_line("x-other: 1"), HeaderLine::Other);
}

#[test]
fn part_headers() {
    let (name, filename, ct) = parse_part_headers(
        "Content-Disposition: form-data; name=\"files\"; filename=\"a b.png\"\r\nContent-Type:   image/png  \r\n",
    );
    assert_eq!(name, "files");
    assert_eq!(filename, Some("a b.png".to_string()));
    assert_eq!(ct, Some("image/png".to_string()));
}

#[test]
fn filename_first_is_read_as_name_too() {
    let (name, filename, ct) =
        parse_part_headers("CONTENT-DISPOSITION: form-data; filename=\"x.txt\"; name=\"files\"");
    assert_eq!(name, "x.txt");
    assert_eq!(filename, Some("x.txt".to_string()));
    assert_eq!(ct, None);
}

fn form(boundary: &str, parts: &[(&str, &[u8])]) -> Vec<u8> {
    let mut body = Vec::new();
    for (head, data) in parts {
        body.extend_from_slice(format!("--{}\r\n{}\r\n\r\n", boundary, head).as_bytes());
        body.extend_from_slice(data);
        body.extend_from_slice(b"\r\n");
    }
    body.extend_from_slice(format!("--{}--\r\n", boundary).as_bytes());
    body
}

#[test]
fn parses_a_browser_form() {
    let body = form(
        "XyZ",
        &[
            ("Content-Disposition: form-data; name=\"target\"", b"pdf"),
            ("Content-Disposition: form-data; name=\"text\"", "你好 world".as_bytes()),
            (
                "Content-Disposition: form-data; name=\"files\"; filename=\"scan.pdf\"\r\nContent-Type: application/pdf",
                b"%PDF-1.4\r\n\r\nbinary",
            ),
        ],
    );
    let parts = parse_multipart(&body, "XyZ");
    assert_eq!(parts.len(), 3);
    assert_eq!(parts[0].name, "target");
    assert_eq!(parts[0].data, b"pdf");
    assert_eq!(parts[1].name, "text");
    assert_eq!(parts[1].data, "你好 world".as_bytes());
    assert_eq!(parts[2].filename, Some("scan.pdf".to_string()));
    assert_eq!(parts[2].content_type, Some("application/pdf".to_string()));
    assert_eq!(parts[2].data, b"%PDF-1.4\r\n\r\nbinary");
}

#[test]
fn lf_only_bodies() {
    let body = b"--b\nContent-Disposition: form-data; name=\"a\"\n\nvalue\n--b--\n";
    let parts = parse_multipart(body, "b");
    assert_eq!(parts.len(), 1);
    assert_eq!(parts[0].name, "a");
    assert_eq!(parts[0].data, b"value");
}

#[test]
fn nameless_and_headerless_parts_are_dropped() {
    let body = b"--b\r\nX-Other: 1\r\n\r\nzzz\r\n--b\r\nno blank line\r\n--b\r\n--b\r\nContent-Disposition: form-data; name=\"k\"\r\n\r\n\r\n--b--";
    let parts = parse_multipart(body, "b");
    assert_eq!(parts.len(), 1);
    assert_eq!(parts[0].name, "k");
    assert!(parts[0].data.is_empty());
}

#[test]
fn fewer_than_two_delimiters_gives_nothing() {
    assert!(parse_multipart(b"", "b").is_empty());
    assert!(parse_multipart(b"--b\r\nContent-Disposition: form-data; name=\"a\"\r\n\r\nv", "b").is_empty());
}

#[test]
fn stops_at_closing_delimiter() {
    let body = b"--b--\r\n--b\r\nContent-Disposition: form-data; name=\"a\"\r\n\r\nv\r\n--b--";
    assert!(parse_multipart(body, "b").is_empty());
}

#[test]
fn parts_count_below_delimiters() {
    let body = form("q", &[("Content-Disposition: form-data; name=\"a\"", b"1"), ("Content-Disposition: form-data; name=\"b\"", b"2")]);
    let parts = parse_multipart(&body, "q");
    assert_eq!(parts.len(), 2);
    assert_eq!(parts[1].data, b"2");
}

#[test]
fn written_boundaries_read_back() {
    for b in ["abc", "----WebKitFormBoundary7MA4YWxkTrZu0gW", "a b", "x=y", ""] {
        let plain = format!("multipart/form-data; boundary={}", b);
        let quoted = format!("multipart/form-data; boundary=\"{}\"", b);
        assert_eq!(extract_boundary(&plain), Some(b.to_string()));
        assert_eq!(extract_boundary(&quoted), Some(b.to_string()));
    }
}

#[test]
fn written_fields_read_back() {
    let fields: Vec<(&str, &[u8])> = vec![
        ("target", b"pdf"),
        ("note", b"-- not a delimiter --\r\n\r\nstill the note"),
        ("\u{540d}\u{5b57}", "\u{4f60}\u{597d}".as_bytes()),
        ("empty", b""),
        ("filename=", b"x"),
        ("a-b", b"\r\n"),
    ];
    for boundary in ["b", "Zx9", "WebKitFormBoundary7MA4YWxkTrZu0gW"] {
        let heads: Vec<String> = fields
            .iter()
            .map(|(n, _)| format!("Content-Disposition: form-data; name=\"{}\"", n))
            .collect();
        let parts_in: Vec<(&str, &[u8])> =
            heads.iter().zip(fields.iter()).map(|(h, (_, v))| (h.as_str(), *v)).collect();
        let body = form(boundary, &parts_in);
        let parts = parse_multipart(&body, boundary);
        assert_eq!(parts.len(), fields.len());
        for (p, (n, v)) in parts.iter().zip(fields.iter()) {
            assert_eq!(p.name, *n);
            assert_eq!(p.data, v.to_vec());
            assert_eq!(p.filename, None);
            assert_eq!(p.content_type, None);
        }
    }
}
