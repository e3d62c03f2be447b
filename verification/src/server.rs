//! Deciding what a request is and what it is answered: the route of a
//! method and URL, and the answers that read the stores or the files.

use vstd::prelude::*;
use vstd::utf8::encode_utf8;
use crate::text::{
    chars_of, concat, slice_of, split, split_exec, starts_with, starts_with_exec, same,
    string_views, strings_of_all, chars_of_all, trim_start_char, trim_start_char_exec, views,
};
use crate::external::{lossy_text, percent_decode_bytes, percent_decoded, string_from_chars, utf8_lossy};
use crate::mime::{guess_mime, mime_for};
use crate::store::{
    first_with_id, received_ids, received_listing, received_summary_views, shared_ids,
    shared_listing, shared_summary_views, FileExchange, ReceivedView, SharedView,
};
use crate::reply::{
    add_common_headers, common_headers, header_line, header_views, json_headers, push_header,
    respond_json, respond_plain, HttpReply, JsonReply, ReplyBody,
};

verus! {

/// The request methods the server tells apart.
#[derive(PartialEq, Eq, Structural, Clone, Copy, Debug)]
pub enum Method {
    Get,
    Post,
    Options,
    Other,
}

/// How the platform the server runs on reads a file path: on Windows a
/// backslash also separates segments, and a leading backslash or a drive
/// letter with a colon makes the path leave any directory it is joined to.
#[derive(PartialEq, Eq, Structural, Clone, Copy, Debug)]
pub enum PathStyle {
    Unix,
    Windows,
}

/// What a request asks for.
#[derive(Debug)]
pub enum Route {
    /// A CORS preflight.
    Preflight,
    /// `GET /api/connect/info`
    ConnectInfo,
    /// `GET /api/connect/events`
    Events,
    /// `GET /api/connect/file/<id>`
    ReceivedFile(String),
    /// `GET /api/connect/shared`
    SharedList,
    /// `GET /api/connect/shared/<id>`
    SharedFile(String),
    /// `GET /mobile` or `/mobile/`
    MobileRedirect,
    /// `POST /api/connect/upload`
    Upload,
    /// `POST /api/connect/share`
    Share,
    /// `POST /api/connect/clear`
    Clear,
    /// Anything else: a file under the asset directory, by relative path.
    Static(String),
    /// A file path that names something outside the asset directory.
    Refused,
}

/// What a route holds.
pub enum RouteView {
    Preflight,
    ConnectInfo,
    Events,
    ReceivedFile(Seq<char>),
    SharedList,
    SharedFile(Seq<char>),
    MobileRedirect,
    Upload,
    Share,
    Clear,
    Static(Seq<char>),
    Refused,
}

impl View for Route {
    type V = RouteView;

    open spec fn view(&self) -> RouteView {
        match self {
            Route::Preflight => RouteView::Preflight,
            Route::ConnectInfo => RouteView::ConnectInfo,
            Route::Events => RouteView::Events,
            Route::ReceivedFile(id) => RouteView::ReceivedFile(id@),
            Route::SharedList => RouteView::SharedList,
            Route::SharedFile(id) => RouteView::SharedFile(id@),
            Route::MobileRedirect => RouteView::MobileRedirect,
            Route::Upload => RouteView::Upload,
            Route::Share => RouteView::Share,
            Route::Clear => RouteView::Clear,
            Route::Static(p) => RouteView::Static(p@),
            Route::Refused => RouteView::Refused,
        }
    }
}

/// The file a static request names: its path without leading slashes, or
/// `index.html` for the root.
pub open spec fn static_target(path: Seq<char>) -> Seq<char> {
    let clean = trim_start_char(path, '/');
    if clean.len() == 0 || clean == "/"@ {
        "index.html"@
    } else {
        clean
    }
}

/// The path with each separator of the platform written as `/`.
pub open spec fn slashed(t: Seq<char>, style: PathStyle) -> Seq<char> {
    Seq::new(t.len(), |i: int| if style == PathStyle::Windows && t[i] == '\\' { '/' } else { t[i] })
}

/// How a path segment moves the depth below the directory it starts in:
/// `..` goes up one, an empty segment or `.` stays, any other goes down one.
pub open spec fn segment_step(seg: Seq<char>) -> int {
    if seg == seq!['.', '.'] {
        -1
    } else if seg.len() == 0 || seg == seq!['.'] {
        0
    } else {
        1
    }
}

/// The depth reached after the given segments.
pub open spec fn depth_after(segs: Seq<Seq<char>>) -> int
    decreases segs.len(),
{
    if segs.len() == 0 {
        0
    } else {
        depth_after(segs.drop_last()) + segment_step(segs.last())
    }
}

/// Some run of leading segments climbs above the directory the path starts
/// in.
pub open spec fn climbs_out(segs: Seq<Seq<char>>) -> bool {
    exists|k: int| 0 <= k <= segs.len() && depth_after(#[trigger] segs.take(k)) < 0
}

/// A Windows drive prefix: an ASCII letter and a colon.
pub open spec fn drive_prefix(t: Seq<char>) -> bool {
    &&& t.len() >= 2
    &&& (('a' <= t[0] && t[0] <= 'z') || ('A' <= t[0] && t[0] <= 'Z'))
    &&& t[1] == ':'
}

/// A relative path that, joined to the asset directory, names something
/// outside it: its `..` segments climb above the directory, or, on
/// Windows, it starts at the root of a drive (a leading backslash) or names
/// a drive.
pub open spec fn leaves_assets(t: Seq<char>, style: PathStyle) -> bool {
    ||| climbs_out(split(slashed(t, style), '/'))
    ||| (style == PathStyle::Windows && ((t.len() > 0 && t[0] == '\\') || drive_prefix(t)))
}

/// The route of a request, from its method and decoded path; the API
/// routes are tried in order and anything else is a static file, refused
/// where its path could leave the asset directory.
pub open spec fn route_for(m: Method, path: Seq<char>, style: PathStyle) -> RouteView {
    if m == Method::Options {
        RouteView::Preflight
    } else if m == Method::Get && path == "/api/connect/info"@ {
        RouteView::ConnectInfo
    } else if m == Method::Get && path == "/api/connect/events"@ {
        RouteView::Events
    } else if m == Method::Get && starts_with(path, "/api/connect/file/"@) {
        RouteView::ReceivedFile(path.skip("/api/connect/file/"@.len() as int))
    } else if m == Method::Get && path == "/api/connect/shared"@ {
        RouteView::SharedList
    } else if m == Method::Get && starts_with(path, "/api/connect/shared/"@) {
        RouteView::SharedFile(path.skip("/api/connect/shared/"@.len() as int))
    } else if m == Method::Get && (path == "/mobile"@ || path == "/mobile/"@) {
        RouteView::MobileRedirect
    } else if m == Method::Post && path == "/api/connect/upload"@ {
        RouteView::Upload
    } else if m == Method::Post && path == "/api/connect/share"@ {
        RouteView::Share
    } else if m == Method::Post && path == "/api/connect/clear"@ {
        RouteView::Clear
    } else if leaves_assets(static_target(path), style) {
        RouteView::Refused
    } else {
        RouteView::Static(static_target(path))
    }
}

/// The path of a URL: what precedes the first `?`, percent-decoded, the
/// resulting bytes decoded leniently.
pub open spec fn url_path(url: Seq<char>) -> Seq<char> {
    lossy_text(percent_decoded(encode_utf8(split(url, '?')[0])))
}

fn is_literal(s: &Vec<char>, lit: &str) -> (r: bool)
    ensures
        r == (s@ == lit@),
{
    same(s, &chars_of(lit))
}

/// The decoded path of a request URL.
pub fn request_path(url: &str) -> (r: String)
    ensures
        r@ == url_path(url@),
{
    let pieces = split_exec(&chars_of(url), '?');
    proof {
        crate::text::lemma_split_nonempty(url@, '?');
    }
    assert(views(pieces@)[0] == pieces@[0]@);
    let raw = string_from_chars(&pieces[0]);
    let bytes = percent_decode_bytes(raw.as_str());
    utf8_lossy(bytes.as_slice())
}

fn slashed_exec(t: &Vec<char>, style: PathStyle) -> (r: Vec<char>)
    ensures
        r@ == slashed(t@, style),
{
    let mut r: Vec<char> = Vec::new();
    let mut i: usize = 0;
    while i < t.len()
        invariant
            i <= t.len(),
            r@ =~= slashed(t@, style).take(i as int),
        decreases t.len() - i,
    {
        if style == PathStyle::Windows && t[i] == '\\' {
            r.push('/');
        } else {
            r.push(t[i]);
        }
        i += 1;
    }
    r
}

fn segment_step_exec(seg: &Vec<char>) -> (r: i8)
    ensures
        r == segment_step(seg@),
{
    if seg.len() == 2 && seg[0] == '.' && seg[1] == '.' {
        assert(seg@ =~= seq!['.', '.']);
        -1
    } else if seg.len() == 0 || (seg.len() == 1 && seg[0] == '.') {
        assert(seg.len() == 1 ==> seg@ =~= seq!['.']);
        0
    } else {
        proof {
            if seg@ == seq!['.', '.'] {
                assert(seg@[0] == '.' && seg@[1] == '.');
            }
            if seg@ == seq!['.'] {
                assert(seg@[0] == '.');
            }
        }
        1
    }
}

/// Whether a relative path, joined to the asset directory, names something
/// outside it on a platform with the given path style.
pub fn leaves_assets_exec(t: &Vec<char>, style: PathStyle) -> (r: bool)
    ensures
        r == leaves_assets(t@, style),
{
    if style == PathStyle::Windows {
        if t.len() > 0 && t[0] == '\\' {
            return true;
        }
        if t.len() >= 2 && (('a' <= t[0] && t[0] <= 'z') || ('A' <= t[0] && t[0] <= 'Z'))
            && t[1] == ':' {
            return true;
        }
    }
    let segs = split_exec(&slashed_exec(t, style), '/');
    let ghost sv = views(segs@);
    let mut depth: usize = 0;
    let mut k: usize = 0;
    assert(sv.take(0) =~= Seq::<Seq<char>>::empty());
    while k < segs.len()
        invariant
            k <= segs.len(),
            sv == views(segs@),
            sv == split(slashed(t@, style), '/'),
            style == PathStyle::Windows ==> !((t@.len() > 0 && t@[0] == '\\') || drive_prefix(t@)),
            depth <= k,
            depth == depth_after(sv.take(k as int)),
            forall|j: int| 0 <= j <= k ==> depth_after(#[trigger] sv.take(j)) >= 0,
        decreases segs.len() - k,
    {
        let step = segment_step_exec(&segs[k]);
        assert(sv.take(k + 1).drop_last() =~= sv.take(k as int));
        assert(sv.take(k + 1).last() == segs@[k as int]@);
        if step < 0 {
            if depth == 0 {
                assert(sv.len() == segs.len());
                assert(depth_after(sv.take(k + 1)) < 0);
                assert(climbs_out(sv));
                return true;
            }
            depth -= 1;
        } else if step > 0 {
            depth += 1;
        }
        k += 1;
    }
    assert(sv.take(sv.len() as int) =~= sv);
    assert(!climbs_out(sv)) by {
        if climbs_out(sv) {
            let j = choose|j: int| 0 <= j <= sv.len() && depth_after(#[trigger] sv.take(j)) < 0;
            assert(depth_after(sv.take(j)) >= 0);
        }
    }
    false
}

/// The route of a request with a decoded path, on a platform with the given
/// path style.
pub fn route_path(method: Method, path: &str, style: PathStyle) -> (r: Route)
    ensures
        r@ == route_for(method, path@, style),
        r matches Route::Static(t) ==> !leaves_assets(t@, style),
{
    if method == Method::Options {
        return Route::Preflight;
    }
    let p = chars_of(path);
    let file_prefix = chars_of("/api/connect/file/");
    let shared_prefix = chars_of("/api/connect/shared/");
    if method == Method::Get && is_literal(&p, "/api/connect/info") {
        Route::ConnectInfo
    } else if method == Method::Get && is_literal(&p, "/api/connect/events") {
        Route::Events
    } else if method == Method::Get && starts_with_exec(&p, &file_prefix) {
        let id = slice_of(&p, file_prefix.len(), p.len());
        assert(id@ == p@.skip("/api/connect/file/"@.len() as int));
        Route::ReceivedFile(string_from_chars(&id))
    } else if method == Method::Get && is_literal(&p, "/api/connect/shared") {
        Route::SharedList
    } else if method == Method::Get && starts_with_exec(&p, &shared_prefix) {
        let id = slice_of(&p, shared_prefix.len(), p.len());
        assert(id@ == p@.skip("/api/connect/shared/"@.len() as int));
        Route::SharedFile(string_from_chars(&id))
    } else if method == Method::Get && (is_literal(&p, "/mobile") || is_literal(&p, "/mobile/")) {
        Route::MobileRedirect
    } else if method == Method::Post && is_literal(&p, "/api/connect/upload") {
        Route::Upload
    } else if method == Method::Post && is_literal(&p, "/api/connect/share") {
        Route::Share
    } else if method == Method::Post && is_literal(&p, "/api/connect/clear") {
        Route::Clear
    } else {
        let clean = trim_start_char_exec(&p, '/');
        let target = if clean.len() == 0 || is_literal(&clean, "/") {
            chars_of("index.html")
        } else {
            clean
        };
        assert(target@ == static_target(path@));
        if leaves_assets_exec(&target, style) {
            Route::Refused
        } else {
            Route::Static(string_from_chars(&target))
        }
    }
}

/// The route of a request, from its method and raw URL, on a platform with
/// the given path style.
pub fn route(method: Method, url: &str, style: PathStyle) -> (r: Route)
    ensures
        r@ == route_for(method, url_path(url@), style),
        r matches Route::Static(t) ==> !leaves_assets(t@, style),
{
    let path = request_path(url);
    route_path(method, path.as_str(), style)
}

// ----- request headers -----

/// `u8::to_ascii_lowercase`.
pub open spec fn ascii_lower(b: u8) -> u8 {
    if 65 <= b && b <= 90 {
        (b + 32) as u8
    } else {
        b
    }
}

/// `eq_ignore_ascii_case` on the UTF-8 bytes of two strings.
pub open spec fn eq_ignore_ascii_case(a: Seq<u8>, b: Seq<u8>) -> bool {
    a.len() == b.len() && forall|i: int| 0 <= i < a.len() ==> ascii_lower(#[trigger] a[i])
        == ascii_lower(b[i])
}

/// The value of the first header whose name matches `name` ignoring ASCII
/// case.
pub open spec fn header_value_in(hs: Seq<(Seq<char>, Seq<char>)>, name: Seq<char>) -> Option<
    Seq<char>,
>
    decreases hs.len(),
{
    if hs.len() == 0 {
        None
    } else if eq_ignore_ascii_case(encode_utf8(hs[0].0), encode_utf8(name)) {
        Some(hs[0].1)
    } else {
        header_value_in(hs.drop_first(), name)
    }
}

fn eq_ignore_ascii_case_exec(a: &[u8], b: &[u8]) -> (r: bool)
    ensures
        r == eq_ignore_ascii_case(a@, b@),
{
    if a.len() != b.len() {
        return false;
    }
    let mut i: usize = 0;
    while i < a.len()
        invariant
            i <= a.len() == b.len(),
            forall|j: int| 0 <= j < i ==> ascii_lower(#[trigger] a@[j]) == ascii_lower(b@[j]),
        decreases a.len() - i,
    {
        let x = if 65 <= a[i] && a[i] <= 90 {
            a[i] + 32
        } else {
            a[i]
        };
        let y = if 65 <= b[i] && b[i] <= 90 {
            b[i] + 32
        } else {
            b[i]
        };
        if x != y {
            assert(ascii_lower(a@[i as int]) != ascii_lower(b@[i as int]));
            return false;
        }
        i += 1;
    }
    true
}

/// The value of the first request header named `name` (ignoring ASCII
/// case).
pub fn get_header_value(headers: &Vec<(String, String)>, name: &str) -> (r: Option<String>)
    ensures
        match r {
            Some(v) => header_value_in(header_views(headers@), name@) == Some(v@),
            None => header_value_in(header_views(headers@), name@) is None,
        },
{
    let ghost hs = header_views(headers@);
    let mut i: usize = 0;
    assert(hs.skip(0) =~= hs);
    while i < headers.len()
        invariant
            i <= headers.len(),
            hs == header_views(headers@),
            header_value_in(hs, name@) == header_value_in(hs.skip(i as int), name@),
        decreases headers.len() - i,
    {
        assert(hs.skip(i as int)[0] == (headers@[i as int].0@, headers@[i as int].1@));
        if eq_ignore_ascii_case_exec(headers[i].0.as_str().as_bytes(), name.as_bytes()) {
            return Some(headers[i].1.clone());
        }
        assert(hs.skip(i as int).drop_first() =~= hs.skip(i + 1));
        i += 1;
    }
    None
}

// ----- answers -----

/// A file name made safe to quote in a header: double quotes become
/// underscores, carriage returns and line feeds are dropped.
pub open spec fn safe_filename(s: Seq<char>) -> Seq<char>
    decreases s.len(),
{
    if s.len() == 0 {
        Seq::<char>::empty()
    } else {
        let r = safe_filename(s.drop_last());
        if s.last() == '"' {
            r.push('_')
        } else if s.last() == '\r' || s.last() == '\n' {
            r
        } else {
            r.push(s.last())
        }
    }
}

/// The `Content-Disposition` value for a file of the given name.
pub open spec fn disposition(kind: Seq<char>, name: Seq<char>) -> Seq<char> {
    kind + "; filename=\""@ + safe_filename(name) + "\""@
}

/// A file name made safe to quote in a header.
pub fn safe_filename_exec(name: &str) -> (r: String)
    ensures
        r@ == safe_filename(name@),
{
    let s = chars_of(name);
    let mut out: Vec<char> = Vec::new();
    let mut i: usize = 0;
    assert(s@.take(0) =~= Seq::<char>::empty());
    while i < s.len()
        invariant
            i <= s.len(),
            out@ == safe_filename(s@.take(i as int)),
        decreases s.len() - i,
    {
        assert(s@.take(i + 1).drop_last() =~= s@.take(i as int));
        assert(s@.take(i + 1).last() == s@[i as int]);
        let c = s[i];
        if c == '"' {
            out.push('_');
        } else if c == '\r' || c == '\n' {
        } else {
            out.push(c);
        }
        i += 1;
    }
    assert(s@.take(s.len() as int) =~= s@);
    string_from_chars(&out)
}

fn disposition_exec(kind: &str, name: &str) -> (r: String)
    ensures
        r@ == disposition(kind@, name@),
{
    let a = concat(&chars_of(kind), &chars_of("; filename=\""));
    let b = concat(&a, &chars_of(safe_filename_exec(name).as_str()));
    let c = concat(&b, &chars_of("\""));
    string_from_chars(&c)
}

/// The answer to a CORS preflight: status 204, the common header lines for
/// `text/plain`, no body.
pub fn preflight_reply() -> (r: HttpReply)
    ensures
        r.status == 204,
        header_views(r.headers@) == common_headers("text/plain"@),
        r.body matches ReplyBody::Bytes(b) && b@.len() == 0,
{
    respond_plain(204, "text/plain", Vec::new())
}

/// The answer to `/mobile`: a redirect to `/mobile.html`.
pub fn mobile_redirect_reply() -> (r: HttpReply)
    ensures
        r.status == 302,
        header_views(r.headers@) == header_line("Location"@, "/mobile.html"@),
        r.body matches ReplyBody::Bytes(b) && b@.len() == 0,
{
    let mut headers: Vec<(String, String)> = Vec::new();
    assert(header_views(headers@) =~= Seq::<(Seq<char>, Seq<char>)>::empty());
    push_header(&mut headers, "Location", "/mobile.html");
    assert(header_views(headers@) =~= header_line("Location"@, "/mobile.html"@));
    HttpReply { status: 302, headers, body: ReplyBody::Bytes(Vec::new()) }
}

fn not_found_file() -> (r: HttpReply)
    ensures
        r.status == 404,
        header_views(r.headers@) == common_headers("text/plain"@),
        r.body matches ReplyBody::Bytes(b) && b@ == encode_utf8("File not found"@),
{
    respond_plain(404, "text/plain", vstd::slice::slice_to_vec("File not found".as_bytes()))
}

fn file_reply(data: Vec<u8>, mime: &str, name: &str, kind: &str) -> (r: HttpReply)
    ensures
        r.status == 200,
        header_views(r.headers@) == common_headers(mime@) + header_line(
            "Content-Disposition"@,
            disposition(kind@, name@),
        ),
        r.body == ReplyBody::Bytes(data),
{
    let mut headers: Vec<(String, String)> = Vec::new();
    assert(header_views(headers@) =~= Seq::<(Seq<char>, Seq<char>)>::empty());
    add_common_headers(&mut headers, mime);
    let disp = disposition_exec(kind, name);
    push_header(&mut headers, "Content-Disposition", disp.as_str());
    assert(header_views(headers@) =~= common_headers(mime@) + header_line(
        "Content-Disposition"@,
        disposition(kind@, name@),
    ));
    HttpReply { status: 200, headers, body: ReplyBody::Bytes(data) }
}

impl FileExchange {
    /// `{"events":[..]}`: the received items, newest first, without their
    /// bytes.
    pub fn events_reply(&self) -> (r: HttpReply)
        ensures
            r.status == 200,
            header_views(r.headers@) == json_headers(),
            r.body matches ReplyBody::Json(JsonReply::Events(list)) && received_summary_views(list@)
                == self.received_items().map_values(|v: ReceivedView| received_listing(v)),
    {
        respond_json(200, JsonReply::Events(self.received_summaries()))
    }

    /// `{"files":[..]}`: the shared items, newest first, without their
    /// bytes.
    pub fn shared_list_reply(&self) -> (r: HttpReply)
        ensures
            r.status == 200,
            header_views(r.headers@) == json_headers(),
            r.body matches ReplyBody::Json(JsonReply::Files(list)) && shared_summary_views(list@)
                == self.shared_items().map_values(|v: SharedView| shared_listing(v)),
    {
        respond_json(200, JsonReply::Files(self.shared_summaries()))
    }

    /// The bytes of the first received item with the given id, shown
    /// inline; `File not found` with status 404 where there is none.
    pub fn received_file_reply(&self, id: &str) -> (r: HttpReply)
        ensures
            first_with_id(received_ids(self.received_items()), id@) matches Some(i) ==> {
                let it = self.received_items()[i];
                &&& r.status == 200
                &&& header_views(r.headers@) == common_headers(it.mimetype) + header_line(
                    "Content-Disposition"@,
                    disposition("inline"@, it.name),
                )
                &&& r.body matches ReplyBody::Bytes(b) && b@ == it.data
            },
            first_with_id(received_ids(self.received_items()), id@) is None ==> {
                &&& r.status == 404
                &&& header_views(r.headers@) == common_headers("text/plain"@)
                &&& r.body matches ReplyBody::Bytes(b) && b@ == encode_utf8("File not found"@)
            },
    {
        match self.find_received(id) {
            Some(i) => {
                proof {
                    crate::store::lemma_first_with_id_from(
                        received_ids(self.received_items()),
                        id@,
                        0,
                    );
                }
                let (data, mime, name) = self.received_entry(i);
                file_reply(data, mime.as_str(), name.as_str(), "inline")
            },
            None => not_found_file(),
        }
    }

    /// The bytes of the first shared item with the given id, as a download;
    /// `File not found` with status 404 where there is none.
    pub fn shared_file_reply(&self, id: &str) -> (r: HttpReply)
        ensures
            first_with_id(shared_ids(self.shared_items()), id@) matches Some(i) ==> {
                let it = self.shared_items()[i];
                &&& r.status == 200
                &&& header_views(r.headers@) == common_headers(it.mimetype) + header_line(
                    "Content-Disposition"@,
                    disposition("attachment"@, it.name),
                )
                &&& r.body matches ReplyBody::Bytes(b) && b@ == it.data
            },
            first_with_id(shared_ids(self.shared_items()), id@) is None ==> {
                &&& r.status == 404
                &&& header_views(r.headers@) == common_headers("text/plain"@)
                &&& r.body matches ReplyBody::Bytes(b) && b@ == encode_utf8("File not found"@)
            },
    {
        match self.find_shared(id) {
            Some(i) => {
                proof {
                    crate::store::lemma_first_with_id_from(
                        shared_ids(self.shared_items()),
                        id@,
                        0,
                    );
                }
                let (data, mime, name) = self.shared_entry(i);
                file_reply(data, mime.as_str(), name.as_str(), "attachment")
            },
            None => not_found_file(),
        }
    }

    /// Empties the received store and answers `{"success":true}`.
    pub fn clear(&mut self) -> (r: HttpReply)
        requires
            old(self).wf(),
        ensures
            final(self).wf(),
            final(self).received_items() == Seq::<ReceivedView>::empty(),
            final(self).shared_items() == old(self).shared_items(),
            final(self).id_counter() == old(self).id_counter(),
            r.status == 200,
            header_views(r.headers@) == json_headers(),
            r.body == ReplyBody::Json(JsonReply::Done),
    {
        self.clear_received();
        respond_json(200, JsonReply::Done)
    }
}

// ----- connection info -----

/// The decimal digits of a number.
pub open spec fn decimal(n: nat) -> Seq<char>
    decreases n,
{
    if n < 10 {
        seq![(48 + n) as char]
    } else {
        decimal(n / 10).push((48 + n % 10) as char)
    }
}

fn decimal_exec(n: u64) -> (r: Vec<char>)
    ensures
        r@ == decimal(n as nat),
    decreases n,
{
    if n < 10 {
        let mut v: Vec<char> = Vec::new();
        v.push(((48 + n) as u8) as char);
        assert(v@ =~= decimal(n as nat));
        v
    } else {
        let mut v = decimal_exec(n / 10);
        v.push(((48 + n % 10) as u8) as char);
        v
    }
}

/// The address the phone page is offered at: the first LAN address, or the
/// loopback address where there is none.
pub open spec fn primary_ip(ips: Seq<Seq<char>>) -> Seq<char> {
    if ips.len() > 0 {
        ips[0]
    } else {
        "127.0.0.1"@
    }
}

/// The URL of the phone page.
pub open spec fn mobile_url(primary: Seq<char>, port: u16) -> Seq<char> {
    "http://"@ + primary + ":"@ + decimal(port as nat) + "/mobile.html"@
}

/// What the connection info says: the port, the primary address, all
/// addresses, the server time and the phone page URL.
pub fn connect_info(ips: &Vec<String>, port: u16, now: u64) -> (r: JsonReply)
    ensures
        r matches JsonReply::Info { port: p, primary_ip: pi, all_ips: all, server_time: t, mobile_url: u }
            && p == port && pi@ == primary_ip(string_views(ips@)) && string_views(all@)
            == string_views(ips@) && t == now && u@ == mobile_url(primary_ip(string_views(ips@)), port),
{
    let primary: String = if ips.len() > 0 {
        ips[0].clone()
    } else {
        "127.0.0.1".to_string()
    };
    let all = strings_of_all(&chars_of_all(ips));
    let a = concat(&chars_of("http://"), &chars_of(primary.as_str()));
    let b = concat(&a, &chars_of(":"));
    let c = concat(&b, &decimal_exec(port as u64));
    let d = concat(&c, &chars_of("/mobile.html"));
    JsonReply::Info {
        port,
        primary_ip: primary,
        all_ips: all,
        server_time: now,
        mobile_url: string_from_chars(&d),
    }
}

/// The answer to `GET /api/connect/info`.
pub fn info_reply(ips: &Vec<String>, port: u16, now: u64) -> (r: HttpReply)
    ensures
        r.status == 200,
        header_views(r.headers@) == json_headers(),
        r.body matches ReplyBody::Json(JsonReply::Info { port: p, primary_ip: pi, all_ips: all, server_time: t, mobile_url: u })
            && p == port && pi@ == primary_ip(string_views(ips@)) && string_views(all@)
            == string_views(ips@) && t == now && u@ == mobile_url(primary_ip(string_views(ips@)), port),
{
    respond_json(200, connect_info(ips, port, now))
}

// ----- static files -----

/// The answer to a refused static path: the same as for a missing file.
pub fn refused_reply() -> (r: HttpReply)
    ensures
        r.status == 404,
        header_views(r.headers@) == common_headers("text/plain"@) + cache_line("text/plain"@, 404),
        r.body matches ReplyBody::Bytes(b) && b@ == encode_utf8("404 Not Found"@),
{
    static_reply(StaticFile::Missing, "")
}

/// What became of reading a static file.
#[derive(Debug)]
pub enum StaticFile {
    /// There is no such file.
    Missing,
    /// The file exists but could not be read.
    Unreadable,
    /// The file's bytes.
    Read(Vec<u8>),
}

/// The cache policy of a static answer: HTML is never cached, other files
/// served are cached for a week.
pub open spec fn cache_line(content_type: Seq<char>, status: u16) -> Seq<(Seq<char>, Seq<char>)> {
    if starts_with(content_type, "text/html"@) {
        header_line("Cache-Control"@, "no-cache"@)
    } else if status == 200 {
        header_line("Cache-Control"@, "public, max-age=604800"@)
    } else {
        Seq::<(Seq<char>, Seq<char>)>::empty()
    }
}

/// The answer for a static file at `path`: its bytes under the content type
/// its path suggests, or a plain error (404 for a missing file, 500 for one
/// that could not be read), with the cache policy.
pub fn static_reply(file: StaticFile, path: &str) -> (r: HttpReply)
    ensures
        match file {
            StaticFile::Read(b) => {
                &&& r.status == 200
                &&& header_views(r.headers@) == common_headers(mime_for(path@)) + cache_line(
                    mime_for(path@),
                    200,
                )
                &&& r.body == ReplyBody::Bytes(b)
            },
            StaticFile::Unreadable => {
                &&& r.status == 500
                &&& header_views(r.headers@) == common_headers("text/plain"@) + cache_line(
                    "text/plain"@,
                    500,
                )
                &&& r.body matches ReplyBody::Bytes(b) && b@ == encode_utf8("500 Internal Error"@)
            },
            StaticFile::Missing => {
                &&& r.status == 404
                &&& header_views(r.headers@) == common_headers("text/plain"@) + cache_line(
                    "text/plain"@,
                    404,
                )
                &&& r.body matches ReplyBody::Bytes(b) && b@ == encode_utf8("404 Not Found"@)
            },
        },
{
    let (status, content_type, data): (u16, &str, Vec<u8>) = match file {
        StaticFile::Read(b) => (200, guess_mime(path), b),
        StaticFile::Unreadable => (
            500,
            "text/plain",
            vstd::slice::slice_to_vec("500 Internal Error".as_bytes()),
        ),
        StaticFile::Missing => (404, "text/plain", vstd::slice::slice_to_vec("404 Not Found".as_bytes())),
    };
    let mut headers: Vec<(String, String)> = Vec::new();
    assert(header_views(headers@) =~= Seq::<(Seq<char>, Seq<char>)>::empty());
    add_common_headers(&mut headers, content_type);
    let ghost base = header_views(headers@);
    if starts_with_exec(&chars_of(content_type), &chars_of("text/html")) {
        push_header(&mut headers, "Cache-Control", "no-cache");
    } else if status == 200 {
        push_header(&mut headers, "Cache-Control", "public, max-age=604800");
    } else {
        assert(base + Seq::<(Seq<char>, Seq<char>)>::empty() =~= base);
    }
    assert(header_views(headers@) == common_headers(content_type@) + cache_line(
        content_type@,
        status,
    ));
    HttpReply { status, headers, body: ReplyBody::Bytes(data) }
}

} // verus!
