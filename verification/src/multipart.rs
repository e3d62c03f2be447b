//! `multipart/form-data` bodies: the boundary named in a `Content-Type`
//! header, and the parts between boundary delimiters.

use vstd::prelude::*;
use vstd::utf8::encode_utf8;
use crate::text::{
    chars_of, find, find_exec, find_from, lemma_find_from, lines, lines_exec, occurs_at, slice_of, split,
    split_exec, starts_with, starts_with_exec, trim, trim_char, trim_char_exec, trim_exec, views,
};
use crate::external::{lossy_text, lowercase_text, string_from_chars, to_lowercase, utf8_lossy};

verus! {

// ----- the boundary parameter -----

/// The boundary named by the first `;`-separated parameter that, trimmed,
/// starts with `boundary=`: the rest of it, trimmed, with surrounding
/// double quotes removed.
pub open spec fn boundary_among(pieces: Seq<Seq<char>>) -> Option<Seq<char>>
    decreases pieces.len(),
{
    if pieces.len() == 0 {
        None
    } else {
        let part = trim(pieces[0]);
        if starts_with(part, "boundary="@) {
            Some(trim_char(trim(part.skip("boundary="@.len() as int)), '"'))
        } else {
            boundary_among(pieces.drop_first())
        }
    }
}

/// The boundary of a `Content-Type` header value, if it names one.
pub open spec fn boundary_of(content_type: Seq<char>) -> Option<Seq<char>> {
    boundary_among(split(content_type, ';'))
}

/// The multipart boundary named in a `Content-Type` header value.
pub fn extract_boundary(content_type: &str) -> (r: Option<String>)
    ensures
        match r {
            Some(b) => boundary_of(content_type@) == Some(b@),
            None => boundary_of(content_type@) is None,
        },
{
    let pieces = split_exec(&chars_of(content_type), ';');
    let key = chars_of("boundary=");
    let mut k: usize = 0;
    assert(views(pieces@).skip(0) =~= views(pieces@));
    while k < pieces.len()
        invariant
            k <= pieces.len(),
            boundary_of(content_type@) == boundary_among(views(pieces@).skip(k as int)),
            key@ == "boundary="@,
        decreases pieces.len() - k,
    {
        let ghost rest = views(pieces@).skip(k as int);
        assert(rest[0] == pieces@[k as int]@);
        assert(rest.drop_first() =~= views(pieces@).skip(k + 1));
        let part = trim_exec(&pieces[k]);
        if starts_with_exec(&part, &key) {
            let value = slice_of(&part, key.len(), part.len());
            assert(value@ == part@.skip("boundary="@.len() as int));
            let b = trim_char_exec(&trim_exec(&value), '"');
            return Some(string_from_chars(&b));
        }
        k += 1;
    }
    None
}

// ----- the parts -----

/// What a part of a form holds.
pub struct PartView {
    pub name: Seq<char>,
    pub filename: Option<Seq<char>>,
    pub content_type: Option<Seq<char>>,
    pub data: Seq<u8>,
}

/// One part of a `multipart/form-data` body.
#[derive(Debug)]
pub struct FormPart {
    pub name: String,
    pub filename: Option<String>,
    pub content_type: Option<String>,
    pub data: Vec<u8>,
}

pub open spec fn opt_string_view(o: Option<String>) -> Option<Seq<char>> {
    match o {
        Some(s) => Some(s@),
        None => None,
    }
}

pub open spec fn opt_chars_view(o: Option<Vec<char>>) -> Option<Seq<char>> {
    match o {
        Some(s) => Some(s@),
        None => None,
    }
}

impl View for FormPart {
    type V = PartView;

    open spec fn view(&self) -> PartView {
        PartView {
            name: self.name@,
            filename: opt_string_view(self.filename),
            content_type: opt_string_view(self.content_type),
            data: self.data@,
        }
    }
}

pub open spec fn part_views(v: Seq<FormPart>) -> Seq<PartView> {
    v.map_values(|p: FormPart| p@)
}

/// How a header line of a part is read, by its lowercase form.
#[derive(PartialEq, Eq, Structural, Debug)]
pub enum HeaderLine {
    Disposition,
    ContentType,
    Other,
}

pub open spec fn header_kind(lowered: Seq<char>) -> HeaderLine {
    if starts_with(lowered, "content-disposition:"@) {
        HeaderLine::Disposition
    } else if starts_with(lowered, "content-type:"@) {
        HeaderLine::ContentType
    } else {
        HeaderLine::Other
    }
}

/// What a part header line is, given its lowercase form.
pub fn classify_header_line(lowered: &str) -> (r: HeaderLine)
    ensures
        r == header_kind(lowered@),
{
    let l = chars_of(lowered);
    if starts_with_exec(&l, &chars_of("content-disposition:")) {
        HeaderLine::Disposition
    } else if starts_with_exec(&l, &chars_of("content-type:")) {
        HeaderLine::ContentType
    } else {
        HeaderLine::Other
    }
}

/// The text of a quoted parameter `key"..."` in a line: what follows the
/// first occurrence of `key` up to the next double quote.
pub open spec fn quoted_after(line: Seq<char>, key: Seq<char>) -> Option<Seq<char>> {
    match find(line, key) {
        Some(p) => {
            let rest = line.skip(p + key.len());
            match find(rest, seq!['"']) {
                Some(q) => Some(rest.take(q)),
                None => None,
            }
        },
        None => None,
    }
}

/// What follows the first `n` characters (nothing where there are fewer).
pub open spec fn after(s: Seq<char>, n: int) -> Seq<char> {
    if n <= s.len() {
        s.skip(n)
    } else {
        Seq::<char>::empty()
    }
}

/// One header line applied to the name, file name and content type read so
/// far. A `Content-Disposition` line sets the name from `name="..."` and the
/// file name from `filename="..."` where they are present (the first
/// `name="` may be the one inside `filename="`); a `Content-Type` line sets
/// the content type to the trimmed rest of the line.
pub open spec fn header_step(
    st: (Seq<char>, Option<Seq<char>>, Option<Seq<char>>),
    raw: Seq<char>,
) -> (Seq<char>, Option<Seq<char>>, Option<Seq<char>>) {
    let line = trim(raw);
    let kind = header_kind(lowercase_text(line));
    if kind == HeaderLine::Disposition {
        let name = match quoted_after(line, "name=\""@) {
            Some(n) => n,
            None => st.0,
        };
        let filename = match quoted_after(line, "filename=\""@) {
            Some(f) => Some(f),
            None => st.1,
        };
        (name, filename, st.2)
    } else if kind == HeaderLine::ContentType {
        (st.0, st.1, Some(trim(after(line, "content-type:"@.len() as int))))
    } else {
        st
    }
}

pub open spec fn scan_headers(ls: Seq<Seq<char>>) -> (
    Seq<char>,
    Option<Seq<char>>,
    Option<Seq<char>>,
)
    decreases ls.len(),
{
    if ls.len() == 0 {
        (Seq::<char>::empty(), None, None)
    } else {
        header_step(scan_headers(ls.drop_last()), ls.last())
    }
}

/// Name, file name and content type declared by a part's header text.
pub open spec fn part_headers(text: Seq<char>) -> (Seq<char>, Option<Seq<char>>, Option<Seq<char>>) {
    scan_headers(lines(text))
}

fn quoted_after_exec(line: &Vec<char>, key: &Vec<char>) -> (r: Option<Vec<char>>)
    ensures
        opt_chars_view(r) == quoted_after(line@, key@),
{
    match find_exec(line, key) {
        None => None,
        Some(p) => {
            proof {
                lemma_find_from(line@, key@, 0);
                assert(occurs_at(line@, key@, p as int));
            }
            let n = line.len();
            let kl = key.len();
            assert(p + kl <= n);
            let rest = slice_of(line, p + kl, n);
            assert(rest@ == line@.skip(p + key@.len()));
            let quote = chars_of("\"");
            proof {
                reveal_strlit("\"");
            }
            assert(quote@ =~= seq!['"']);
            match find_exec(&rest, &quote) {
                None => None,
                Some(q) => {
                    proof {
                        lemma_find_from(rest@, quote@, 0);
                    }
                    let v = slice_of(&rest, 0, q);
                    assert(v@ == rest@.take(q as int));
                    Some(v)
                },
            }
        },
    }
}

fn header_step_exec(
    name: &mut Vec<char>,
    filename: &mut Option<Vec<char>>,
    ct: &mut Option<Vec<char>>,
    raw: &Vec<char>,
)
    ensures
        (final(name)@, opt_chars_view(*final(filename)), opt_chars_view(*final(ct))) == header_step(
            (old(name)@, opt_chars_view(*old(filename)), opt_chars_view(*old(ct))),
            raw@,
        ),
{
    let line = trim_exec(raw);
    let lowered = to_lowercase(string_from_chars(&line).as_str());
    let kind = classify_header_line(lowered.as_str());
    if kind == HeaderLine::Disposition {
        if let Some(n) = quoted_after_exec(&line, &chars_of("name=\"")) {
            *name = n;
        }
        if let Some(f) = quoted_after_exec(&line, &chars_of("filename=\"")) {
            *filename = Some(f);
        }
    } else if kind == HeaderLine::ContentType {
        let key = chars_of("content-type:");
        let rest = if key.len() <= line.len() {
            slice_of(&line, key.len(), line.len())
        } else {
            Vec::new()
        };
        assert(rest@ == after(line@, "content-type:"@.len() as int));
        *ct = Some(trim_exec(&rest));
    }
}

/// Name, file name and content type declared by a part's header text (the
/// header bytes decoded leniently).
pub fn parse_part_headers(text: &str) -> (r: (String, Option<String>, Option<String>))
    ensures
        (r.0@, opt_string_view(r.1), opt_string_view(r.2)) == part_headers(text@),
{
    let ls = lines_exec(&chars_of(text));
    let mut name: Vec<char> = Vec::new();
    let mut filename: Option<Vec<char>> = None;
    let mut ct: Option<Vec<char>> = None;
    let mut k: usize = 0;
    assert(views(ls@).take(0) =~= Seq::<Seq<char>>::empty());
    assert(name@ =~= Seq::<char>::empty());
    while k < ls.len()
        invariant
            k <= ls.len(),
            views(ls@) == lines(text@),
            (name@, opt_chars_view(filename), opt_chars_view(ct)) == scan_headers(
                views(ls@).take(k as int),
            ),
        decreases ls.len() - k,
    {
        assert(views(ls@).take(k + 1).drop_last() =~= views(ls@).take(k as int));
        assert(views(ls@).take(k + 1).last() == ls@[k as int]@);
        header_step_exec(&mut name, &mut filename, &mut ct, &ls[k]);
        k += 1;
    }
    assert(views(ls@).take(ls.len() as int) =~= views(ls@));
    let f = match filename {
        Some(v) => Some(string_from_chars(&v)),
        None => None,
    };
    let c = match ct {
        Some(v) => Some(string_from_chars(&v)),
        None => None,
    };
    (string_from_chars(&name), f, c)
}

// ----- delimiters and parts in the body -----

/// The delimiter line that separates parts: `--` followed by the boundary.
pub open spec fn delimiter_of(boundary: Seq<char>) -> Seq<u8> {
    seq![45u8, 45u8] + encode_utf8(boundary)
}

/// Positions, at or after `i`, of the delimiter occurrences found by a scan
/// from left to right that resumes after each occurrence (occurrences
/// never overlap).
pub open spec fn delims_from(body: Seq<u8>, d: Seq<u8>, i: int) -> Seq<int>
    decreases body.len() + 1 - i,
{
    if d.len() == 0 || i < 0 || i + d.len() > body.len() {
        Seq::<int>::empty()
    } else if occurs_at(body, d, i) {
        seq![i] + delims_from(body, d, i + d.len())
    } else {
        delims_from(body, d, i + 1)
    }
}

pub open spec fn delimiters(body: Seq<u8>, d: Seq<u8>) -> Seq<int> {
    delims_from(body, d, 0)
}

/// The closing delimiter: `--` right after a delimiter.
pub open spec fn closes_at(body: Seq<u8>, i: int) -> bool {
    i + 2 <= body.len() && body.subrange(i, i + 2) == seq![45u8, 45u8]
}

/// Where a part's content starts after a delimiter ending at `s0`: past one
/// line break (CRLF or LF).
pub open spec fn content_start(body: Seq<u8>, s0: int) -> int {
    if s0 + 2 <= body.len() && body.subrange(s0, s0 + 2) == seq![13u8, 10u8] {
        s0 + 2
    } else if s0 + 1 <= body.len() && body[s0] == 10u8 {
        s0 + 1
    } else {
        s0
    }
}

/// Where a part's content ends before the next delimiter at `e0`: before
/// one line break (CRLF or LF), not going back past `start`.
pub open spec fn content_end(body: Seq<u8>, start: int, e0: int) -> int {
    if e0 >= start + 2 && body.subrange(e0 - 2, e0) == seq![13u8, 10u8] {
        e0 - 2
    } else if e0 >= start + 1 && body[e0 - 1] == 10u8 {
        e0 - 1
    } else {
        e0
    }
}

/// The header and the data of a part's content, split at the first blank
/// line (CRLF CRLF, else LF LF).
pub open spec fn split_head(seg: Seq<u8>) -> Option<(Seq<u8>, Seq<u8>)> {
    match find(seg, seq![13u8, 10u8, 13u8, 10u8]) {
        Some(p) => Some((seg.take(p), seg.skip(p + 4))),
        None => match find(seg, seq![10u8, 10u8]) {
            Some(p) => Some((seg.take(p), seg.skip(p + 2))),
            None => None,
        },
    }
}

/// The part between a delimiter ending at `s0` and the next one at `e0`:
/// none where the content is empty, has no blank line, or declares neither
/// a name nor a file name.
pub open spec fn part_between(body: Seq<u8>, s0: int, e0: int) -> Option<PartView> {
    let start = content_start(body, s0);
    let end = content_end(body, start, e0);
    if start >= end {
        None
    } else {
        match split_head(body.subrange(start, end)) {
            None => None,
            Some(hd) => {
                let h = part_headers(lossy_text(hd.0));
                if h.0.len() > 0 || h.1 is Some {
                    Some(PartView { name: h.0, filename: h.1, content_type: h.2, data: hd.1 })
                } else {
                    None
                }
            },
        }
    }
}

/// The parts between consecutive delimiters from the `k`-th on, stopping at
/// a closing delimiter.
pub open spec fn parts_from(body: Seq<u8>, d: Seq<u8>, idx: Seq<int>, k: int) -> Seq<PartView>
    decreases idx.len() - k,
{
    if k < 0 || k + 1 >= idx.len() {
        Seq::<PartView>::empty()
    } else if closes_at(body, idx[k] + d.len()) {
        Seq::<PartView>::empty()
    } else {
        match part_between(body, idx[k] + d.len(), idx[k + 1]) {
            Some(p) => seq![p] + parts_from(body, d, idx, k + 1),
            None => parts_from(body, d, idx, k + 1),
        }
    }
}

/// The parts of a `multipart/form-data` body with the given boundary.
pub open spec fn multipart_parts(body: Seq<u8>, boundary: Seq<char>) -> Seq<PartView> {
    let d = delimiter_of(boundary);
    parts_from(body, d, delimiters(body, d), 0)
}

/// The delimiter positions lie inside the body, in order, without overlap.
pub proof fn lemma_delims_from(body: Seq<u8>, d: Seq<u8>, i: int)
    requires
        d.len() > 0,
        0 <= i,
    ensures
        ({
            let r = delims_from(body, d, i);
            &&& forall|j: int| 0 <= j < r.len() ==> i <= #[trigger] r[j] && r[j] + d.len() <= body.len()
            &&& forall|j: int| 0 <= j < r.len() - 1 ==> #[trigger] r[j] + d.len() <= r[j + 1]
        }),
    decreases body.len() + 1 - i,
{
    if !(i + d.len() > body.len()) {
        if occurs_at(body, d, i) {
            lemma_delims_from(body, d, i + d.len());
            let rest = delims_from(body, d, i + d.len());
            let r = seq![i] + rest;
            assert(r =~= delims_from(body, d, i));
            assert forall|j: int| 0 <= j < r.len() implies i <= #[trigger] r[j] && r[j] + d.len()
                <= body.len() by {
                if j > 0 {
                    assert(r[j] == rest[j - 1]);
                }
            }
            assert forall|j: int| 0 <= j < r.len() - 1 implies #[trigger] r[j] + d.len() <= r[j
                + 1] by {
                if j > 0 {
                    assert(r[j] == rest[j - 1]);
                    assert(r[j + 1] == rest[j]);
                } else {
                    assert(r[1] == rest[0]);
                }
            }
        } else {
            lemma_delims_from(body, d, i + 1);
            assert(delims_from(body, d, i) == delims_from(body, d, i + 1));
        }
    }
}

fn occurs_at_bytes(s: &[u8], p: &Vec<u8>, i: usize) -> (r: bool)
    ensures
        r == occurs_at(s@, p@, i as int),
{
    if i > s.len() || p.len() > s.len() - i {
        return false;
    }
    let mut k: usize = 0;
    while k < p.len()
        invariant
            k <= p.len(),
            i + p.len() <= s.len(),
            forall|j: int| 0 <= j < k ==> s@[i + j] == p@[j],
        decreases p.len() - k,
    {
        if s[i + k] != p[k] {
            assert(s@.subrange(i as int, i + p.len())[k as int] != p@[k as int]);
            return false;
        }
        k += 1;
    }
    assert(s@.subrange(i as int, i + p.len()) =~= p@);
    true
}

fn find_bytes(s: &[u8], p: &Vec<u8>) -> (r: Option<usize>)
    requires
        p.len() > 0,
    ensures
        match r {
            Some(i) => find(s@, p@) == Some(i as int) && i + p.len() <= s.len(),
            None => find(s@, p@) is None,
        },
{
    let mut i: usize = 0;
    while i <= s.len() && p.len() <= s.len() - i
        invariant
            p.len() > 0,
            find(s@, p@) == find_from(s@, p@, i as int),
        decreases s.len() + 1 - i,
    {
        if occurs_at_bytes(s, p, i) {
            return Some(i);
        }
        i += 1;
    }
    None
}

pub open spec fn idx_view(v: Seq<usize>) -> Seq<int> {
    v.map_values(|x: usize| x as int)
}

fn delimiter_positions(body: &[u8], d: &Vec<u8>) -> (r: Vec<usize>)
    requires
        d.len() > 0,
    ensures
        idx_view(r@) == delimiters(body@, d@),
{
    let n = body.len();
    let dl = d.len();
    let mut idx: Vec<usize> = Vec::new();
    let mut i: usize = 0;
    assert(idx_view(idx@) + delims_from(body@, d@, 0) =~= delims_from(body@, d@, 0));
    while i <= n && dl <= n - i
        invariant
            n == body.len(),
            dl == d.len() > 0,
            idx_view(idx@) + delims_from(body@, d@, i as int) == delims_from(body@, d@, 0),
        decreases n + 1 - i,
    {
        let ghost before = idx_view(idx@);
        if occurs_at_bytes(body, d, i) {
            idx.push(i);
            assert(idx_view(idx@) =~= before.push(i as int));
            assert(before + delims_from(body@, d@, i as int) =~= idx_view(idx@) + delims_from(
                body@,
                d@,
                i + dl,
            ));
            i = i + dl;
        } else {
            i += 1;
        }
    }
    assert(delims_from(body@, d@, i as int) =~= Seq::<int>::empty());
    assert(idx_view(idx@) + Seq::<int>::empty() =~= idx_view(idx@));
    idx
}

fn two_bytes(a: u8, b: u8) -> (r: Vec<u8>)
    ensures
        r@ == seq![a, b],
{
    let mut v: Vec<u8> = Vec::new();
    v.push(a);
    v.push(b);
    assert(v@ =~= seq![a, b]);
    v
}

fn part_between_exec(body: &[u8], s0: usize, e0: usize) -> (r: Option<FormPart>)
    requires
        s0 <= e0 <= body.len(),
    ensures
        match r {
            Some(p) => part_between(body@, s0 as int, e0 as int) == Some(p@),
            None => part_between(body@, s0 as int, e0 as int) is None,
        },
{
    let n = body.len();
    let start: usize = if n - s0 >= 2 && body[s0] == 13 && body[s0 + 1] == 10 {
        assert(body@.subrange(s0 as int, s0 + 2) =~= seq![13u8, 10u8]);
        s0 + 2
    } else if n - s0 >= 1 && body[s0] == 10 {
        proof {
            if s0 + 2 <= n {
                assert(body@.subrange(s0 as int, s0 + 2)[0] == body@[s0 as int]);
            }
        }
        s0 + 1
    } else {
        proof {
            if s0 + 2 <= n {
                assert(body@.subrange(s0 as int, s0 + 2)[0] == body@[s0 as int]);
                assert(body@.subrange(s0 as int, s0 + 2)[1] == body@[s0 + 1]);
            }
        }
        s0
    };
    assert(start == content_start(body@, s0 as int));
    let end: usize = if e0 >= 2 && e0 - 2 >= start && body[e0 - 2] == 13 && body[e0 - 1] == 10 {
        assert(body@.subrange(e0 - 2, e0 as int) =~= seq![13u8, 10u8]);
        e0 - 2
    } else if e0 >= 1 && e0 - 1 >= start && body[e0 - 1] == 10 {
        proof {
            if e0 >= start + 2 {
                assert(body@.subrange(e0 - 2, e0 as int)[1] == body@[e0 - 1]);
            }
        }
        e0 - 1
    } else {
        proof {
            if e0 >= start + 2 {
                assert(body@.subrange(e0 - 2, e0 as int)[0] == body@[e0 - 2]);
                assert(body@.subrange(e0 - 2, e0 as int)[1] == body@[e0 - 1]);
            }
        }
        e0
    };
    assert(end == content_end(body@, start as int, e0 as int));
    if start >= end {
        return None;
    }
    let seg = vstd::slice::slice_subrange(body, start, end);
    let mut blank: Vec<u8> = two_bytes(13, 10);
    blank.push(13);
    blank.push(10);
    assert(blank@ =~= seq![13u8, 10u8, 13u8, 10u8]);
    let (head, data) = match find_bytes(seg, &blank) {
        Some(p) => (
            vstd::slice::slice_to_vec(vstd::slice::slice_subrange(seg, 0, p)),
            vstd::slice::slice_to_vec(vstd::slice::slice_subrange(seg, p + 4, seg.len())),
        ),
        None => {
            let lf2 = two_bytes(10, 10);
            match find_bytes(seg, &lf2) {
                Some(p) => (
                    vstd::slice::slice_to_vec(vstd::slice::slice_subrange(seg, 0, p)),
                    vstd::slice::slice_to_vec(vstd::slice::slice_subrange(seg, p + 2, seg.len())),
                ),
                None => {
                    return None;
                },
            }
        },
    };
    assert(split_head(seg@) == Some((head@, data@)));
    let text = utf8_lossy(head.as_slice());
    let (name, filename, content_type) = parse_part_headers(text.as_str());
    if !name.as_str().is_empty() || filename.is_some() {
        Some(FormPart { name, filename, content_type, data })
    } else {
        None
    }
}

fn delimiter_bytes(boundary: &str) -> (d: Vec<u8>)
    ensures
        d@ == delimiter_of(boundary@),
{
    let mut d: Vec<u8> = two_bytes(45, 45);
    let b = boundary.as_bytes();
    let mut t: usize = 0;
    while t < b.len()
        invariant
            t <= b.len(),
            d@ == seq![45u8, 45u8] + b@.take(t as int),
        decreases b.len() - t,
    {
        d.push(b[t]);
        assert(b@.take(t + 1) =~= b@.take(t as int).push(b@[t as int]));
        t += 1;
    }
    assert(b@.take(b.len() as int) =~= b@);
    d
}

fn closes_exec(body: &[u8], s0: usize) -> (r: bool)
    requires
        s0 <= body.len(),
    ensures
        r == closes_at(body@, s0 as int),
{
    let n = body.len();
    if n - s0 >= 2 && body[s0] == 45 && body[s0 + 1] == 45 {
        assert(body@.subrange(s0 as int, s0 + 2) =~= seq![45u8, 45u8]);
        true
    } else {
        proof {
            if s0 + 2 <= n {
                assert(body@.subrange(s0 as int, s0 + 2)[0] == body@[s0 as int]);
                assert(body@.subrange(s0 as int, s0 + 2)[1] == body@[s0 + 1]);
            }
        }
        false
    }
}

/// The parts of a `multipart/form-data` body, split at the delimiter
/// `--boundary`: each part between two consecutive delimiters that declares
/// a name or a file name, in order, up to the closing delimiter.
#[verifier::rlimit(40)]
pub fn parse_multipart(body: &[u8], boundary: &str) -> (r: Vec<FormPart>)
    ensures
        part_views(r@) == multipart_parts(body@, boundary@),
{
    let d = delimiter_bytes(boundary);
    let dl = d.len();
    let idx = delimiter_positions(body, &d);
    let ghost all = idx_view(idx@);
    proof {
        lemma_delims_from(body@, d@, 0);
    }
    let mut parts: Vec<FormPart> = Vec::new();
    if idx.len() < 2 {
        assert(parts_from(body@, d@, all, 0) =~= Seq::<PartView>::empty());
        assert(part_views(parts@) =~= Seq::<PartView>::empty());
        return parts;
    }
    let mut k: usize = 0;
    assert(part_views(parts@) + parts_from(body@, d@, all, 0) =~= parts_from(body@, d@, all, 0));
    while k < idx.len() - 1
        invariant
            idx.len() >= 2,
            all == idx_view(idx@),
            all == delimiters(body@, d@),
            d@ == delimiter_of(boundary@),
            dl == d.len() > 0,
            forall|j: int| 0 <= j < all.len() ==> 0 <= #[trigger] all[j] && all[j] + dl <= body.len(),
            forall|j: int| 0 <= j < all.len() - 1 ==> #[trigger] all[j] + dl <= all[j + 1],
            part_views(parts@) + parts_from(body@, d@, all, k as int) == parts_from(
                body@,
                d@,
                all,
                0,
            ),
        decreases idx.len() - k,
    {
        assert(all[k as int] == idx@[k as int]);
        assert(all[k + 1] == idx@[k + 1]);
        assert(all[k as int] + dl <= all[k + 1]);
        let s0 = idx[k] + dl;
        if closes_exec(body, s0) {
            assert(parts_from(body@, d@, all, k as int) =~= Seq::<PartView>::empty());
            assert(part_views(parts@) + Seq::<PartView>::empty() =~= part_views(parts@));
            return parts;
        }
        let ghost before = part_views(parts@);
        assert(!closes_at(body@, all[k as int] + d@.len()));
        assert(k + 1 < all.len());
        match part_between_exec(body, s0, idx[k + 1]) {
            Some(p) => {
                assert(part_between(body@, all[k as int] + d@.len(), all[k + 1]) == Some(p@));
                assert(parts_from(body@, d@, all, k as int) == seq![p@] + parts_from(
                    body@,
                    d@,
                    all,
                    k + 1,
                ));
                parts.push(p);
                assert(part_views(parts@) =~= before.push(p@));
                assert(before + parts_from(body@, d@, all, k as int) =~= part_views(parts@)
                    + parts_from(body@, d@, all, k + 1));
            },
            None => {},
        }
        k += 1;
    }
    assert(parts_from(body@, d@, all, k as int) =~= Seq::<PartView>::empty());
    assert(part_views(parts@) + Seq::<PartView>::empty() =~= part_views(parts@));
    parts
}

} // verus!
