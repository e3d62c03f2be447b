//! Content type of a static asset, chosen by the end of its path.

use vstd::prelude::*;
use crate::text::{chars_of, ends_with, ends_with_exec};

verus! {

/// The content type served for a path: decided by its suffix alone, the
/// first rule that matches winning.
pub open spec fn mime_for(p: Seq<char>) -> Seq<char> {
    if ends_with(p, "+esm"@) || ends_with(p, ".mjs"@) || ends_with(p, ".js"@) {
        "text/javascript; charset=utf-8"@
    } else if ends_with(p, ".wasm"@) {
        "application/wasm"@
    } else if ends_with(p, ".html"@) || ends_with(p, ".htm"@) {
        "text/html; charset=utf-8"@
    } else if ends_with(p, ".css"@) {
        "text/css; charset=utf-8"@
    } else if ends_with(p, ".json"@) {
        "application/json; charset=utf-8"@
    } else if ends_with(p, ".tar"@) {
        "application/x-tar"@
    } else if ends_with(p, ".png"@) {
        "image/png"@
    } else if ends_with(p, ".jpg"@) || ends_with(p, ".jpeg"@) {
        "image/jpeg"@
    } else if ends_with(p, ".svg"@) {
        "image/svg+xml"@
    } else {
        "application/octet-stream"@
    }
}

fn has_suffix(p: &Vec<char>, suffix: &str) -> (r: bool)
    ensures
        r == ends_with(p@, suffix@),
{
    ends_with_exec(p, &chars_of(suffix))
}

/// The content type to serve a file under, from its path.
pub fn guess_mime(path_str: &str) -> (r: &'static str)
    ensures
        r@ == mime_for(path_str@),
{
    let p = chars_of(path_str);
    if has_suffix(&p, "+esm") || has_suffix(&p, ".mjs") || has_suffix(&p, ".js") {
        "text/javascript; charset=utf-8"
    } else if has_suffix(&p, ".wasm") {
        "application/wasm"
    } else if has_suffix(&p, ".html") || has_suffix(&p, ".htm") {
        "text/html; charset=utf-8"
    } else if has_suffix(&p, ".css") {
        "text/css; charset=utf-8"
    } else if has_suffix(&p, ".json") {
        "application/json; charset=utf-8"
    } else if has_suffix(&p, ".tar") {
        "application/x-tar"
    } else if has_suffix(&p, ".png") {
        "image/png"
    } else if has_suffix(&p, ".jpg") || has_suffix(&p, ".jpeg") {
        "image/jpeg"
    } else if has_suffix(&p, ".svg") {
        "image/svg+xml"
    } else {
        "application/octet-stream"
    }
}

} // verus!
