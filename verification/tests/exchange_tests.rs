use paddle_desktop::exchange::{category_of_file, preview_of};
use paddle_desktop::reply::{JsonReply, ReplyBody};
use paddle_desktop::store::{FileExchange, MAX_STORE_ITEMS};

fn form(boundary: &str, parts: &[(&str, &[u8])]) -> Vec<u8> {
    let mut body = Vec::new();
    for (head, data) in parts {
        body.extend_from_slice(format!("--{}\r\n{}\r\n\r\n", boundary, head).as_bytes());
        body.extend_from_slice(data);
        body.extend_from_slice(b"\r\n");
    }
    body.extend_from_slice(format!("--{}--\r\n", boundary).as_bytes());
    body
}

const CT: &str = "multipart/form-data; boundary=B0";

fn uploaded_ids(body: &ReplyBody) -> Vec<String> {
    match body {
        ReplyBody::Json(JsonReply::Uploaded(ids)) => ids.clone(),
        other => panic!("unexpected body {:?}", other),
    }
}

#[test]
fn categories() {
    assert_eq!(category_of_file("image/heic", "x"), "image");
    assert_eq!(category_of_file("application/octet-stream", "photo.webp"), "image");
    assert_eq!(category_of_file("application/pdf", "x"), "pdf");
    assert_eq!(category_of_file("x", "doc.pdf"), "pdf");
    assert_eq!(category_of_file("x", "notes.md"), "text");
    assert_eq!(category_of_file("text/plain", "data.bin"), "file");
}

#[test]
fn previews_keep_two_hundred_chars() {
    let long: String = "字".repeat(250);
    assert_eq!(preview_of(&long).chars().count(), 200);
    assert_eq!(preview_of("short"), "short");
}

#[test]
fn form_upload_stores_notes_then_files_newest_first() {
    let mut ex = FileExchange::new();
    let body = form(
        "B0",
        &[
            ("Content-Disposition: form-data; name=\"target\"", b" pdf "),
            ("Content-Disposition: form-data; name=\"text\"", "hello 你好".as_bytes()),
            ("Content-Disposition: form-data; name=\"files\"; filename=\"A.PNG\"", b"\x89PNG"),
            ("Content-Disposition: form-data; name=\"files\"; filename=\"n.txt\"\r\nContent-Type: text/plain", b"line1\nline2"),
            ("Content-Disposition: form-data; name=\"files\"; filename=\"empty.bin\"", b""),
        ],
    );
    let r = ex.upload(CT, &body, "192.168.1.9", 1700000000);
    assert_eq!(r.status, 200);
    let ids = uploaded_ids(&r.body);
    assert_eq!(ids.len(), 3);
    assert_eq!(ex.received_count(), 3);
    let events = match ex.events_reply().body {
        ReplyBody::Json(JsonReply::Events(list)) => list,
        other => panic!("{:?}", other),
    };
    // newest first: the last file, then the image, then the note
    assert_eq!(events[0].name, "n.txt");
    assert_eq!(events[0].category, "text");
    assert_eq!(events[0].preview, "line1\nline2");
    assert_eq!(events[0].mimetype, "text/plain");
    assert_eq!(events[0].id, ids[2]);
    assert_eq!(events[1].name, "A.PNG");
    assert_eq!(events[1].category, "image");
    assert_eq!(events[1].mimetype, "application/octet-stream");
    assert_eq!(events[1].preview, "");
    assert_eq!(events[2].name, "手机便签.txt");
    assert_eq!(events[2].category, "text");
    assert_eq!(events[2].preview, "hello 你好");
    assert_eq!(events[2].size, "hello 你好".len());
    for e in &events {
        assert_eq!(e.target, "pdf");
        assert_eq!(e.sender_ip, "192.168.1.9");
        assert_eq!(e.timestamp, 1700000000);
    }
    let file = ex.received_file_reply(&ids[1]);
    assert_eq!(file.status, 200);
    match file.body {
        ReplyBody::Bytes(b) => assert_eq!(b, b"\x89PNG"),
        other => panic!("{:?}", other),
    }
    assert!(file
        .headers
        .contains(&("Content-Disposition".to_string(), "inline; filename=\"A.PNG\"".to_string())));
}

#[test]
fn target_defaults_to_image() {
    let mut ex = FileExchange::new();
    let body = form("B0", &[("Content-Disposition: form-data; name=\"files\"; filename=\"x\"", b"1")]);
    let r = ex.upload(CT, &body, "", 5);
    assert_eq!(uploaded_ids(&r.body).len(), 1);
    match ex.events_reply().body {
        ReplyBody::Json(JsonReply::Events(list)) => {
            assert_eq!(list[0].target, "image");
            assert_eq!(list[0].category, "file");
        },
        other => panic!("{:?}", other),
    }
}

#[test]
fn form_without_items_still_succeeds() {
    let mut ex = FileExchange::new();
    let body = form("B0", &[("Content-Disposition: form-data; name=\"other\"", b"x")]);
    let r = ex.upload(CT, &body, "", 0);
    assert_eq!(r.status, 200);
    assert!(uploaded_ids(&r.body).is_empty());
    assert_eq!(ex.received_count(), 0);
}

#[test]
fn json_note_upload() {
    let mut ex = FileExchange::new();
    let body = br#"{"text":"abc","title":"memo","target":"ocr"}"#;
    let r = ex.upload("application/json", body, "10.0.0.2", 9);
    assert_eq!(r.status, 200);
    let id = match &r.body {
        ReplyBody::Json(JsonReply::Created(id)) => id.clone(),
        other => panic!("{:?}", other),
    };
    match ex.events_reply().body {
        ReplyBody::Json(JsonReply::Events(list)) => {
            assert_eq!(list.len(), 1);
            assert_eq!(list[0].id, id);
            assert_eq!(list[0].name, "memo.txt");
            assert_eq!(list[0].target, "ocr");
            assert_eq!(list[0].preview, "abc");
            assert_eq!(list[0].size, 3);
        },
        other => panic!("{:?}", other),
    }
}

#[test]
fn json_note_defaults_and_long_preview() {
    let mut ex = FileExchange::new();
    let text = "é".repeat(150);
    let body = format!("{{\"text\":\"{}\",\"title\":5}}", text);
    let r = ex.upload("application/json; charset=utf-8", body.as_bytes(), "", 1);
    assert_eq!(r.status, 200);
    match ex.events_reply().body {
        ReplyBody::Json(JsonReply::Events(list)) => {
            assert_eq!(list[0].name, "手机便签.txt");
            assert_eq!(list[0].target, "text");
            assert_eq!(list[0].size, 300);
            assert_eq!(list[0].preview, "é".repeat(100));
        },
        other => panic!("{:?}", other),
    }
}

#[test]
fn refused_uploads_change_nothing() {
    let mut ex = FileExchange::new();
    for (ct, body) in [
        ("application/json", &b"{\"text\":\"\"}"[..]),
        ("application/json", &b"not json"[..]),
        ("text/plain", &b"hello"[..]),
        ("multipart/form-data", &b"--x--"[..]),
        ("multipart/form-data; application/json", &b"{\"text\":\"a\"}"[..]),
    ] {
        let r = ex.upload(ct, body, "", 0);
        assert_eq!(r.status, 400, "{:?}", ct);
        match r.body {
            ReplyBody::Json(JsonReply::Failed(m)) => assert_eq!(m, "Invalid upload format"),
            other => panic!("{:?}", other),
        }
    }
    assert_eq!(ex.received_count(), 0);
}

#[test]
fn received_store_keeps_fifty_newest() {
    let mut ex = FileExchange::new();
    let mut last = String::new();
    for i in 0..60 {
        let body = format!("{{\"text\":\"note {}\"}}", i);
        let r = ex.upload("application/json", body.as_bytes(), "", i);
        if let ReplyBody::Json(JsonReply::Created(id)) = r.body {
            last = id;
        }
    }
    assert_eq!(ex.received_count(), MAX_STORE_ITEMS);
    match ex.events_reply().body {
        ReplyBody::Json(JsonReply::Events(list)) => {
            assert_eq!(list[0].preview, "note 59");
            assert_eq!(list[49].preview, "note 10");
            assert_eq!(list[0].id, last);
        },
        other => panic!("{:?}", other),
    }
}

#[test]
fn clear_empties_received_only() {
    let mut ex = FileExchange::new();
    let id = match ex.upload("application/json", b"{\"text\":\"x\"}", "", 0).body {
        ReplyBody::Json(JsonReply::Created(id)) => id,
        other => panic!("{:?}", other),
    };
    assert_eq!(ex.received_file_reply(&id).status, 200);
    let share_body = form("B0", &[("Content-Disposition: form-data; name=\"file\"; filename=\"s.txt\"", b"s")]);
    ex.share(CT, &share_body, 0);
    let r = ex.clear();
    assert_eq!(r.status, 200);
    assert!(matches!(r.body, ReplyBody::Json(JsonReply::Done)));
    assert_eq!(ex.received_count(), 0);
    assert_eq!(ex.shared_count(), 1);
    assert_eq!(ex.received_file_reply(&id).status, 404);
}

#[test]
fn share_takes_first_file_part() {
    let mut ex = FileExchange::new();
    let body = form(
        "B0",
        &[
            ("Content-Disposition: form-data; name=\"note\"", b"skip"),
            ("Content-Disposition: form-data; name=\"file\"", b"abc"),
            ("Content-Disposition: form-data; name=\"file\"; filename=\"second.txt\"", b"def"),
        ],
    );
    let r = ex.share("multipart/form-data; boundary=B0", &body, 77);
    assert_eq!(r.status, 200);
    let (id, name) = match &r.body {
        ReplyBody::Json(JsonReply::Shared(id, name)) => (id.clone(), name.clone()),
        other => panic!("{:?}", other),
    };
    assert_eq!(name, "shared_file");
    assert_eq!(ex.shared_count(), 1);
    let got = ex.shared_file_reply(&id);
    assert_eq!(got.status, 200);
    match got.body {
        ReplyBody::Bytes(b) => assert_eq!(b, b"abc"),
        other => panic!("{:?}", other),
    }
    assert!(got.headers.contains(&(
        "Content-Disposition".to_string(),
        "attachment; filename=\"shared_file\"".to_string()
    )));
    assert!(got.headers.contains(&("Content-Type".to_string(), "application/octet-stream".to_string())));
    match ex.shared_list_reply().body {
        ReplyBody::Json(JsonReply::Files(list)) => {
            assert_eq!(list.len(), 1);
            assert_eq!(list[0].timestamp, 77);
            assert_eq!(list[0].size, 3);
        },
        other => panic!("{:?}", other),
    }
}

#[test]
fn share_without_file_is_refused() {
    let mut ex = FileExchange::new();
    let body = form("B0", &[("Content-Disposition: form-data; name=\"file\"", b"")]);
    let r = ex.share("multipart/form-data; boundary=B0", &body, 0);
    assert_eq!(r.status, 400);
    match r.body {
        ReplyBody::Json(JsonReply::Failed(m)) => assert_eq!(m, "Invalid share upload"),
        other => panic!("{:?}", other),
    }
    let r2 = ex.share("text/plain", b"", 0);
    assert_eq!(r2.status, 400);
    assert_eq!(ex.shared_count(), 0);
}

#[test]
fn unknown_ids_are_not_found() {
    let ex = FileExchange::new();
    let r = ex.received_file_reply("deadbeef");
    assert_eq!(r.status, 404);
    match r.body {
        ReplyBody::Bytes(b) => assert_eq!(b, b"File not found"),
        other => panic!("{:?}", other),
    }
    assert_eq!(ex.shared_file_reply("x").status, 404);
}
