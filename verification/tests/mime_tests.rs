use paddle_desktop::mime::guess_mime;

#[test]
fn scripts_are_javascript() {
    assert_eq!(guess_mime("/a/b/app.js"), "text/javascript; charset=utf-8");
    assert_eq!(guess_mime("mod.mjs"), "text/javascript; charset=utf-8");
    assert_eq!(guess_mime("npm/pkg@1.0/+esm"), "text/javascript; charset=utf-8");
}

#[test]
fn known_suffixes() {
    assert_eq!(guess_mime("ocr.wasm"), "application/wasm");
    assert_eq!(guess_mime("index.html"), "text/html; charset=utf-8");
    assert_eq!(guess_mime("old.htm"), "text/html; charset=utf-8");
    assert_eq!(guess_mime("s.css"), "text/css; charset=utf-8");
    assert_eq!(guess_mime("m.json"), "application/json; charset=utf-8");
    assert_eq!(guess_mime("models.tar"), "application/x-tar");
    assert_eq!(guess_mime("a.png"), "image/png");
    assert_eq!(guess_mime("a.jpg"), "image/jpeg");
    assert_eq!(guess_mime("a.jpeg"), "image/jpeg");
    assert_eq!(guess_mime("icon.svg"), "image/svg+xml");
}

#[test]
fn unknown_or_uppercase_is_octet_stream() {
    assert_eq!(guess_mime("a.PNG"), "application/octet-stream");
    assert_eq!(guess_mime(""), "application/octet-stream");
    assert_eq!(guess_mime("README"), "application/octet-stream");
    assert_eq!(guess_mime("js"), "application/octet-stream");
}

#[test]
fn type_depends_on_last_five_characters() {
    for prefix in ["", "x", "models/", "/a/b/c.png/", "\u{4f60}\u{597d}"] {
        for suffix in ["o.wasm", "index.html", "a.tar", "+esm/x", "photo.jpeg", "noext"] {
            let whole = format!("{}{}", prefix, suffix);
            assert_eq!(guess_mime(&whole), guess_mime(suffix));
        }
    }
}

#[test]
fn type_depends_on_last_five_bytes() {
    for suffix in ["\u{e4}.js", "\u{4f60}.js", "\u{e4}\u{e4}.a", "\u{1f600}.x"] {
        assert!(suffix.len() >= 5 && suffix.chars().count() < 5);
        for prefix in ["", "a/", ".wasm/", "x.jpeg"] {
            let whole = format!("{}{}", prefix, suffix);
            assert_eq!(guess_mime(&whole), guess_mime(suffix));
        }
    }
    assert_eq!(guess_mime("a/\u{e4}.js"), "text/javascript; charset=utf-8");
}
