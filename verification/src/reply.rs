//! What the server answers: a status, header lines and a body, the body
//! either raw bytes or one of the JSON documents of the API.

use vstd::prelude::*;
use vstd::utf8::encode_utf8;
use crate::external::{ascii_bytes, header_accepted};
use crate::store::{ReceivedSummary, SharedSummary};

verus! {

/// Header lines as text pairs.
pub open spec fn header_views(h: Seq<(String, String)>) -> Seq<(Seq<char>, Seq<char>)> {
    h.map_values(|p: (String, String)| (p.0@, p.1@))
}

/// The header line `name: value`, where the HTTP layer accepts it (both parts
/// ASCII); nothing otherwise.
pub open spec fn header_line(name: Seq<char>, value: Seq<char>) -> Seq<(Seq<char>, Seq<char>)> {
    if ascii_bytes(encode_utf8(name)) && ascii_bytes(encode_utf8(value)) {
        seq![(name, value)]
    } else {
        Seq::<(Seq<char>, Seq<char>)>::empty()
    }
}

/// Adds a header line, where the HTTP layer accepts it.
pub fn push_header(headers: &mut Vec<(String, String)>, name: &str, value: &str)
    ensures
        header_views(final(headers)@) == header_views(old(headers)@) + header_line(name@, value@),
{
    let ghost before = header_views(headers@);
    if header_accepted(name.as_bytes(), value.as_bytes()) {
        headers.push((name.to_string(), value.to_string()));
        assert(header_views(headers@) =~= before + header_line(name@, value@));
    } else {
        assert(before + header_line(name@, value@) =~= before);
    }
}

/// The header lines every API answer carries: its content type and the
/// cross-origin policy.
pub open spec fn common_headers(content_type: Seq<char>) -> Seq<(Seq<char>, Seq<char>)> {
    header_line("Content-Type"@, content_type) + header_line("Access-Control-Allow-Origin"@, "*"@)
        + header_line("Access-Control-Allow-Methods"@, "GET, POST, OPTIONS, DELETE"@)
        + header_line(
        "Access-Control-Allow-Headers"@,
        "Content-Type, Authorization, X-Requested-With"@,
    ) + header_line("Cross-Origin-Opener-Policy"@, "same-origin"@) + header_line(
        "Cross-Origin-Embedder-Policy"@,
        "credentialless"@,
    )
}

/// Adds the content type and the cross-origin header lines.
pub fn add_common_headers(headers: &mut Vec<(String, String)>, content_type: &str)
    ensures
        header_views(final(headers)@) == header_views(old(headers)@) + common_headers(
            content_type@,
        ),
{
    let ghost before = header_views(headers@);
    push_header(headers, "Content-Type", content_type);
    push_header(headers, "Access-Control-Allow-Origin", "*");
    push_header(headers, "Access-Control-Allow-Methods", "GET, POST, OPTIONS, DELETE");
    push_header(
        headers,
        "Access-Control-Allow-Headers",
        "Content-Type, Authorization, X-Requested-With",
    );
    push_header(headers, "Cross-Origin-Opener-Policy", "same-origin");
    push_header(headers, "Cross-Origin-Embedder-Policy", "credentialless");
    assert(header_views(headers@) =~= before + common_headers(content_type@));
}

/// The JSON documents of the API.
#[derive(Debug)]
pub enum JsonReply {
    /// `{"status":"ok","port":..,"primaryIp":..,"allIps":[..],"serverTime":..,"mobileUrl":..}`
    Info {
        port: u16,
        primary_ip: String,
        all_ips: Vec<String>,
        server_time: u64,
        mobile_url: String,
    },
    /// `{"events":[..]}`
    Events(Vec<ReceivedSummary>),
    /// `{"files":[..]}`
    Files(Vec<SharedSummary>),
    /// `{"success":true,"ids":[..],"count":..}`
    Uploaded(Vec<String>),
    /// `{"success":true,"id":..}`
    Created(String),
    /// `{"success":true,"id":..,"name":..}`
    Shared(String, String),
    /// `{"success":true}`
    Done,
    /// `{"error":..}`
    Failed(String),
}

/// The body of an answer.
#[derive(Debug)]
pub enum ReplyBody {
    Bytes(Vec<u8>),
    Json(JsonReply),
}

/// An answer to a request.
#[derive(Debug)]
pub struct HttpReply {
    pub status: u16,
    pub headers: Vec<(String, String)>,
    pub body: ReplyBody,
}

pub open spec fn json_headers() -> Seq<(Seq<char>, Seq<char>)> {
    common_headers("application/json; charset=utf-8"@) + header_line("Cache-Control"@, "no-cache"@)
}

/// A JSON answer: the JSON content type, the cross-origin lines and
/// `Cache-Control: no-cache`.
pub fn respond_json(status: u16, json: JsonReply) -> (r: HttpReply)
    ensures
        r.status == status,
        header_views(r.headers@) == json_headers(),
        r.body == ReplyBody::Json(json),
{
    let mut headers: Vec<(String, String)> = Vec::new();
    assert(header_views(headers@) =~= Seq::<(Seq<char>, Seq<char>)>::empty());
    add_common_headers(&mut headers, "application/json; charset=utf-8");
    push_header(&mut headers, "Cache-Control", "no-cache");
    assert(header_views(headers@) =~= json_headers());
    HttpReply { status, headers, body: ReplyBody::Json(json) }
}

/// A plain answer with the common header lines for a content type.
pub fn respond_plain(status: u16, content_type: &str, body: Vec<u8>) -> (r: HttpReply)
    ensures
        r.status == status,
        header_views(r.headers@) == common_headers(content_type@),
        r.body == ReplyBody::Bytes(body),
{
    let mut headers: Vec<(String, String)> = Vec::new();
    assert(header_views(headers@) =~= Seq::<(Seq<char>, Seq<char>)>::empty());
    add_common_headers(&mut headers, content_type);
    assert(header_views(headers@) =~= common_headers(content_type@));
    HttpReply { status, headers, body: ReplyBody::Bytes(body) }
}

} // verus!
