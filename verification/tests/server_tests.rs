use paddle_desktop::reply::{add_common_headers, respond_json, JsonReply, ReplyBody};
use paddle_desktop::server::{
    connect_info, get_header_value, info_reply, mobile_redirect_reply, preflight_reply,
    refused_reply, request_path, route, route_path, safe_filename_exec, static_reply, Method, PathStyle, Route,
    StaticFile,
};

fn static_of(r: Route) -> String {
    match r {
        Route::Static(p) => p,
        other => panic!("{:?}", other),
    }
}

#[test]
fn api_routes() {
    assert!(matches!(route(Method::Options, "/anything?x", PathStyle::Unix), Route::Preflight));
    assert!(matches!(route(Method::Get, "/api/connect/info", PathStyle::Unix), Route::ConnectInfo));
    assert!(matches!(route(Method::Get, "/api/connect/events?t=1", PathStyle::Unix), Route::Events));
    assert!(matches!(route(Method::Get, "/api/connect/shared", PathStyle::Unix), Route::SharedList));
    assert!(matches!(route(Method::Get, "/mobile", PathStyle::Unix), Route::MobileRedirect));
    assert!(matches!(route(Method::Get, "/mobile/", PathStyle::Unix), Route::MobileRedirect));
    assert!(matches!(route(Method::Post, "/api/connect/upload", PathStyle::Unix), Route::Upload));
    assert!(matches!(route(Method::Post, "/api/connect/share", PathStyle::Unix), Route::Share));
    assert!(matches!(route(Method::Post, "/api/connect/clear", PathStyle::Unix), Route::Clear));
    match route(Method::Get, "/api/connect/file/ab12cd34", PathStyle::Unix) {
        Route::ReceivedFile(id) => assert_eq!(id, "ab12cd34"),
        other => panic!("{:?}", other),
    }
    match route(Method::Get, "/api/connect/shared/%61%62", PathStyle::Unix) {
        Route::SharedFile(id) => assert_eq!(id, "ab"),
        other => panic!("{:?}", other),
    }
}

#[test]
fn other_requests_are_static_files() {
    assert_eq!(static_of(route(Method::Get, "/", PathStyle::Unix)), "index.html");
    assert_eq!(static_of(route(Method::Get, "///", PathStyle::Unix)), "index.html");
    assert_eq!(static_of(route(Method::Get, "/pdf.html?v=2", PathStyle::Unix)), "pdf.html");
    assert_eq!(static_of(route(Method::Post, "/api/connect/info", PathStyle::Unix)), "api/connect/info");
    assert_eq!(static_of(route(Method::Get, "/api/connect/upload", PathStyle::Unix)), "api/connect/upload");
    assert_eq!(static_of(route(Method::Other, "/mobile", PathStyle::Unix)), "mobile");
    assert_eq!(static_of(route_path(Method::Get, "models/a b.tar", PathStyle::Unix)), "models/a b.tar");
}

#[test]
fn paths_are_percent_decoded() {
    assert_eq!(request_path("/a%20b/%E4%BD%A0.png?q=%20"), "/a b/你.png");
    assert_eq!(request_path("/100%"), "/100%");
    assert_eq!(request_path("/%zz%4"), "/%zz%4");
    assert_eq!(request_path("/%FF"), "/\u{FFFD}");
    assert_eq!(request_path("?only"), "");
}

#[test]
fn header_lookup_ignores_ascii_case() {
    let headers = vec![
        ("Host".to_string(), "x".to_string()),
        ("content-type".to_string(), "multipart/form-data; boundary=z".to_string()),
        ("Content-Type".to_string(), "second".to_string()),
    ];
    assert_eq!(
        get_header_value(&headers, "Content-Type"),
        Some("multipart/form-data; boundary=z".to_string())
    );
    assert_eq!(get_header_value(&headers, "X-Missing"), None);
}

#[test]
fn safe_names() {
    assert_eq!(safe_filename_exec("a\"b\r\nc.txt"), "a_bc.txt");
    assert_eq!(safe_filename_exec("plain"), "plain");
}

#[test]
fn common_headers_drop_non_ascii_values() {
    let mut h = Vec::new();
    add_common_headers(&mut h, "text/plain");
    assert_eq!(h.len(), 6);
    assert_eq!(h[0], ("Content-Type".to_string(), "text/plain".to_string()));
    assert_eq!(h[1], ("Access-Control-Allow-Origin".to_string(), "*".to_string()));
    let mut h2 = Vec::new();
    add_common_headers(&mut h2, "text/plain; 名");
    assert_eq!(h2.len(), 5);
    assert_eq!(h2[0].0, "Access-Control-Allow-Origin");
}

#[test]
fn json_answers_are_not_cached() {
    let r = respond_json(201, JsonReply::Done);
    assert_eq!(r.status, 201);
    assert!(r.headers.contains(&("Cache-Control".to_string(), "no-cache".to_string())));
    assert!(r.headers.contains(&(
        "Content-Type".to_string(),
        "application/json; charset=utf-8".to_string()
    )));
}

#[test]
fn preflight_and_redirect() {
    let p = preflight_reply();
    assert_eq!(p.status, 204);
    assert_eq!(p.headers.len(), 6);
    assert!(matches!(p.body, ReplyBody::Bytes(ref b) if b.is_empty()));
    let m = mobile_redirect_reply();
    assert_eq!(m.status, 302);
    assert_eq!(m.headers, vec![("Location".to_string(), "/mobile.html".to_string())]);
}

#[test]
fn connection_info() {
    let ips = vec!["192.168.1.4".to_string(), "10.0.0.3".to_string()];
    match connect_info(&ips, 8000, 1234) {
        JsonReply::Info { port, primary_ip, all_ips, server_time, mobile_url } => {
            assert_eq!(port, 8000);
            assert_eq!(primary_ip, "192.168.1.4");
            assert_eq!(all_ips, ips);
            assert_eq!(server_time, 1234);
            assert_eq!(mobile_url, "http://192.168.1.4:8000/mobile.html");
        },
        other => panic!("{:?}", other),
    }
    match info_reply(&Vec::new(), 0, 1).body {
        ReplyBody::Json(JsonReply::Info { primary_ip, mobile_url, .. }) => {
            assert_eq!(primary_ip, "127.0.0.1");
            assert_eq!(mobile_url, "http://127.0.0.1:0/mobile.html");
        },
        other => panic!("{:?}", other),
    }
    match connect_info(&Vec::new(), 65535, 1) {
        JsonReply::Info { mobile_url, .. } => assert_eq!(mobile_url, "http://127.0.0.1:65535/mobile.html"),
        other => panic!("{:?}", other),
    }
}

#[test]
fn static_answers() {
    let html = static_reply(StaticFile::Read(b"<p>".to_vec()), "/srv/src/index.html");
    assert_eq!(html.status, 200);
    assert!(html.headers.contains(&("Content-Type".to_string(), "text/html; charset=utf-8".to_string())));
    assert!(html.headers.contains(&("Cache-Control".to_string(), "no-cache".to_string())));
    let wasm = static_reply(StaticFile::Read(vec![0, 97]), "/srv/ocr.wasm");
    assert!(wasm.headers.contains(&("Cache-Control".to_string(), "public, max-age=604800".to_string())));
    assert!(matches!(wasm.body, ReplyBody::Bytes(ref b) if b == &vec![0, 97]));
    let missing = static_reply(StaticFile::Missing, "/srv/x.js");
    assert_eq!(missing.status, 404);
    assert_eq!(missing.headers.len(), 6);
    assert!(matches!(missing.body, ReplyBody::Bytes(ref b) if b == b"404 Not Found"));
    let broken = static_reply(StaticFile::Unreadable, "/srv/x.js");
    assert_eq!(broken.status, 500);
    assert!(matches!(broken.body, ReplyBody::Bytes(ref b) if b == b"500 Internal Error"));
}

#[test]
fn paths_leaving_the_asset_directory_are_refused() {
    for style in [PathStyle::Unix, PathStyle::Windows] {
        assert!(matches!(route(Method::Get, "/..%2F..%2Fetc%2Fpasswd", style), Route::Refused));
        assert!(matches!(route(Method::Get, "/../secret", style), Route::Refused));
        assert!(matches!(route(Method::Get, "/..", style), Route::Refused));
        assert!(matches!(route(Method::Get, "/a/../../b", style), Route::Refused));
        assert!(matches!(route(Method::Get, "/a/./../../b", style), Route::Refused));
        assert!(matches!(route(Method::Post, "/../x", style), Route::Refused));
    }
    assert!(matches!(route(Method::Get, "/a%5C..%5C..%5Cb", PathStyle::Windows), Route::Refused));
    assert!(matches!(route(Method::Get, "/..%5Cb", PathStyle::Windows), Route::Refused));
    assert!(matches!(route(Method::Get, "/%5Cetc%5Cpasswd", PathStyle::Windows), Route::Refused));
    assert!(matches!(route(Method::Get, "/C:/Windows/win.ini", PathStyle::Windows), Route::Refused));
    assert!(matches!(route(Method::Get, "/a:b.png", PathStyle::Windows), Route::Refused));
}

#[test]
fn paths_that_stay_inside_are_served() {
    for style in [PathStyle::Unix, PathStyle::Windows] {
        assert_eq!(static_of(route(Method::Get, "/a/../b", style)), "a/../b");
        assert_eq!(static_of(route(Method::Get, "/a/..", style)), "a/..");
        assert_eq!(static_of(route(Method::Get, "/a//b/../../c", style)), "a//b/../../c");
        assert_eq!(static_of(route(Method::Get, "/x/1:2.png", style)), "x/1:2.png");
    }
    assert_eq!(static_of(route(Method::Get, "/a:b.png", PathStyle::Unix)), "a:b.png");
    assert_eq!(static_of(route(Method::Get, "/C:/x", PathStyle::Unix)), "C:/x");
    assert_eq!(static_of(route(Method::Get, "/%5Cetc", PathStyle::Unix)), "\\etc");
    assert_eq!(static_of(route(Method::Get, "/..%5Cb", PathStyle::Unix)), "..\\b");
    assert_eq!(static_of(route(Method::Get, "/a%5C..%5C..%5Cb", PathStyle::Unix)), "a\\..\\..\\b");
}

#[test]
fn dots_inside_names_are_not_parent_segments() {
    assert_eq!(static_of(route(Method::Get, "/a..b/c", PathStyle::Unix)), "a..b/c");
    assert_eq!(static_of(route(Method::Get, "/..foo", PathStyle::Unix)), "..foo");
    assert_eq!(static_of(route(Method::Get, "/foo../x", PathStyle::Unix)), "foo../x");
    assert_eq!(static_of(route(Method::Get, "/./index.html", PathStyle::Unix)), "./index.html");
    assert_eq!(static_of(route(Method::Get, "/.../x", PathStyle::Unix)), ".../x");
}

#[test]
fn refused_paths_answer_not_found() {
    let r = refused_reply();
    assert_eq!(r.status, 404);
    match r.body {
        ReplyBody::Bytes(b) => assert_eq!(b, b"404 Not Found".to_vec()),
        other => panic!("{:?}", other),
    }
    let missing = static_reply(StaticFile::Missing, "");
    assert_eq!(r.headers, missing.headers);
}
