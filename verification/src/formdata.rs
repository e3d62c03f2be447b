//! How a browser writes the fields of a form as a `multipart/form-data`
//! body, and what the parser reads back from such a body.

use vstd::prelude::*;
use vstd::utf8::{
    encode_scalar, encode_utf8, has_width_1_encoding, last_continuation_byte,
    leading_byte_width_1, leading_byte_width_2, leading_byte_width_3, leading_byte_width_4,
    second_last_continuation_byte, third_last_continuation_byte, char_u32_cast,
    encode_utf8_decode_utf8, encode_utf8_valid_utf8,
};
use crate::multipart::{
    closes_at, content_end, content_start, delimiter_of, delims_from, header_kind, header_step,
    multipart_parts, part_between, part_headers, parts_from, quoted_after, scan_headers,
    split_head, HeaderLine, PartView,
};
use crate::text::{
    find, find_from, is_ws, lemma_find_from, lemma_split_single, lines, occurs_at, split, trim,
    trim_end, trim_start,
};
use crate::external::{ascii_lowercase, is_ascii_text, lossy_text, lowercase_of, lowercase_text};

verus! {

// ----- UTF-8 facts -----

proof fn lemma_width_1_byte(c: u32)
    by (bit_vector)
    requires
        c <= 0x7f,
    ensures
        leading_byte_width_1(c) as u32 == c,
{
}

proof fn lemma_wide_bytes_high(c: u32)
    by (bit_vector)
    ensures
        leading_byte_width_2(c) >= 0x80,
        leading_byte_width_3(c) >= 0x80,
        leading_byte_width_4(c) >= 0x80,
        last_continuation_byte(c) >= 0x80,
        second_last_continuation_byte(c) >= 0x80,
        third_last_continuation_byte(c) >= 0x80,
{
}

/// The encoding of a concatenation is the concatenation of the encodings.
pub proof fn lemma_encode_concat(a: Seq<char>, b: Seq<char>)
    ensures
        encode_utf8(a + b) == encode_utf8(a) + encode_utf8(b),
    decreases a.len(),
{
    if a.len() == 0 {
        assert(a + b =~= b);
        assert(encode_utf8(a) + encode_utf8(b) =~= encode_utf8(b));
    } else {
        assert((a + b).drop_first() =~= a.drop_first() + b);
        assert((a + b)[0] == a[0]);
        lemma_encode_concat(a.drop_first(), b);
        assert(encode_scalar(a[0] as u32) + (encode_utf8(a.drop_first()) + encode_utf8(b))
            =~= (encode_scalar(a[0] as u32) + encode_utf8(a.drop_first())) + encode_utf8(b));
    }
}

/// ASCII text is encoded one byte per character, each byte the character's
/// code.
pub proof fn lemma_encode_ascii(s: Seq<char>)
    requires
        forall|i: int| 0 <= i < s.len() ==> (s[i] as u32) < 128,
    ensures
        encode_utf8(s).len() == s.len(),
        forall|i: int| 0 <= i < s.len() ==> encode_utf8(s)[i] as u32 == s[i] as u32,
    decreases s.len(),
{
    if s.len() > 0 {
        let c = s[0] as u32;
        lemma_width_1_byte(c);
        assert(has_width_1_encoding(c));
        assert(encode_scalar(c) =~= seq![leading_byte_width_1(c)]);
        lemma_encode_ascii(s.drop_first());
        let e = encode_utf8(s);
        assert forall|i: int| 0 <= i < s.len() implies e[i] as u32 == s[i] as u32 by {
            if i > 0 {
                assert(e[i] == encode_utf8(s.drop_first())[i - 1]);
                assert(s.drop_first()[i - 1] == s[i]);
            }
        }
    }
}

/// An ASCII character's byte occurs in an encoding only where the character
/// occurs in the text.
pub proof fn lemma_encode_avoids(s: Seq<char>, c: char)
    requires
        (c as u32) < 128,
        forall|i: int| 0 <= i < s.len() ==> s[i] != c,
    ensures
        forall|j: int| 0 <= j < encode_utf8(s).len() ==> encode_utf8(s)[j] as u32 != c as u32,
    decreases s.len(),
{
    if s.len() > 0 {
        let x = s[0] as u32;
        lemma_encode_avoids(s.drop_first(), c);
        let head = encode_scalar(x);
        lemma_wide_bytes_high(x);
        if has_width_1_encoding(x) {
            lemma_width_1_byte(x);
            if x == c as u32 {
                char_u32_cast(s[0], x);
                char_u32_cast(c, x);
            }
        }
        assert(forall|j: int| 0 <= j < head.len() ==> head[j] as u32 != c as u32);
        let e = encode_utf8(s);
        assert(e =~= head + encode_utf8(s.drop_first()));
        assert forall|j: int| 0 <= j < e.len() implies e[j] as u32 != c as u32 by {
            if j >= head.len() {
                assert(e[j] == encode_utf8(s.drop_first())[j - head.len()]);
            }
        }
    }
}

// ----- writing a form -----

/// A line break as a browser writes it.
pub open spec fn crlf() -> Seq<u8> {
    seq![13u8, 10u8]
}

/// The text before a field's name in its header line.
pub open spec fn disposition_prefix() -> Seq<char> {
    "Content-Disposition: form-data; name=\""@
}

/// The header line of a plain (not file) field.
pub open spec fn disposition_line(name: Seq<char>) -> Seq<char> {
    disposition_prefix() + name + "\""@
}

/// One field as a browser writes it: the delimiter, a line break, the
/// header line, a blank line, the value and a line break.
pub open spec fn field_chunk(d: Seq<u8>, name: Seq<char>, value: Seq<u8>) -> Seq<u8> {
    d + crlf() + encode_utf8(disposition_line(name)) + crlf() + crlf() + value + crlf()
}

/// A body holding the given fields (name and value) in order, ended by the
/// closing delimiter.
pub open spec fn form_body(d: Seq<u8>, fields: Seq<(Seq<char>, Seq<u8>)>) -> Seq<u8>
    decreases fields.len(),
{
    if fields.len() == 0 {
        d + seq![45u8, 45u8] + crlf()
    } else {
        field_chunk(d, fields[0].0, fields[0].1) + form_body(d, fields.drop_first())
    }
}

/// The parts that the given fields should read back as.
pub open spec fn field_parts(fields: Seq<(Seq<char>, Seq<u8>)>) -> Seq<PartView> {
    fields.map_values(
        |f: (Seq<char>, Seq<u8>)| PartView { name: f.0, filename: None, content_type: None, data: f.1 },
    )
}

/// An ASCII letter or digit.
pub open spec fn is_alnum(c: char) -> bool {
    ('0' <= c && c <= '9') || ('a' <= c && c <= 'z') || ('A' <= c && c <= 'Z')
}

/// `d` occurs somewhere in `x`.
pub open spec fn occurs_in(x: Seq<u8>, d: Seq<u8>) -> bool {
    exists|p: int| occurs_at(x, d, p)
}

/// A name a browser can write in a header line: not empty, and without
/// double quotes or line breaks.
pub open spec fn writable_name(name: Seq<char>) -> bool {
    &&& name.len() > 0
    &&& forall|i: int| 0 <= i < name.len() ==> name[i] != '"' && name[i] != '\r' && name[i] != '\n'
}

/// A delimiter: `--` and then at least one byte that is neither a line
/// break, a double quote nor a dash.
spec fn delimiter_shape(d: Seq<u8>) -> bool {
    &&& d.len() >= 3
    &&& d[0] == 45u8
    &&& d[1] == 45u8
    &&& forall|k: int|
        2 <= k < d.len() ==> d[k] != 13u8 && d[k] != 10u8 && d[k] != 34u8 && d[k] != 45u8
}

proof fn lemma_delimiter_shape(boundary: Seq<char>)
    requires
        boundary.len() > 0,
        forall|i: int| 0 <= i < boundary.len() ==> is_alnum(boundary[i]),
    ensures
        delimiter_shape(delimiter_of(boundary)),
{
    lemma_encode_ascii(boundary);
    let e = encode_utf8(boundary);
    let d = delimiter_of(boundary);
    assert forall|k: int| 2 <= k < d.len() implies d[k] != 13u8 && d[k] != 10u8 && d[k] != 34u8
        && d[k] != 45u8 by {
        assert(d[k] == e[k - 2]);
        assert(is_alnum(boundary[k - 2]));
    }
}

/// What the header line's bytes look like: the prefix's characters one per
/// byte, the name's encoding, a closing double quote; no line breaks.
proof fn lemma_header_bytes(name: Seq<char>)
    requires
        writable_name(name),
    ensures
        ({
            let h = encode_utf8(disposition_line(name));
            let n = encode_utf8(name);
            &&& h.len() == 38 + n.len() + 1
            &&& h.subrange(38, 38 + n.len() as int) == n
            &&& h[38 + n.len() as int] == 34u8
            &&& forall|i: int| 0 <= i < 38 ==> #[trigger] h[i] != 45u8 || h[i + 1] != 45u8
            &&& forall|j: int| 0 <= j < h.len() ==> h[j] != 13u8 && h[j] != 10u8
        }),
{
    reveal_strlit("Content-Disposition: form-data; name=\"");
    reveal_strlit("\"");
    let pre = disposition_prefix();
    let q = "\""@;
    let line = disposition_line(name);
    assert(pre.len() == 38);
    assert(forall|i: int| 0 <= i < 38 ==> (pre[i] as u32) < 128);
    assert(forall|i: int| 0 <= i < 37 ==> #[trigger] pre[i] != '-' || pre[i + 1] != '-');
    assert(pre[37] == '"');
    assert(forall|i: int| 0 <= i < 38 ==> #[trigger] pre[i] != '\r' && pre[i] != '\n');
    lemma_encode_ascii(pre);
    lemma_encode_ascii(q);
    lemma_encode_concat(pre, name);
    lemma_encode_concat(pre + name, q);
    let ep = encode_utf8(pre);
    let n = encode_utf8(name);
    let h = encode_utf8(line);
    assert(h == ep + n + encode_utf8(q));
    assert(h.subrange(38, 38 + n.len() as int) =~= n);
    assert forall|i: int| 0 <= i < 38 implies #[trigger] h[i] != 45u8 || h[i + 1] != 45u8 by {
        assert(h[i] == ep[i]);
        assert(ep[i] as u32 == pre[i] as u32);
        if i < 37 {
            assert(h[i + 1] == ep[i + 1]);
            assert(ep[i + 1] as u32 == pre[i + 1] as u32);
            assert(pre[i] != '-' || pre[i + 1] != '-');
        }
    }
    assert forall|i: int| 0 <= i < line.len() implies line[i] != '\r' && line[i] != '\n' by {
        if i < 38 {
            assert(line[i] == pre[i]);
        } else if i < 38 + name.len() {
            assert(line[i] == name[i - 38]);
        } else {
            assert(line[i] == q[i - 38 - name.len()]);
        }
    }
    lemma_encode_avoids(line, '\r');
    lemma_encode_avoids(line, '\n');
}

// ----- where the delimiters are -----

/// Fields a browser can write so that the delimiter `d` stands only where
/// it was written: writable names, and neither a name's encoding nor a
/// value holding `d`.
pub open spec fn fields_fit(d: Seq<u8>, fields: Seq<(Seq<char>, Seq<u8>)>) -> bool {
    forall|i: int|
        0 <= i < fields.len() ==> {
            &&& writable_name(#[trigger] fields[i].0)
            &&& !occurs_in(encode_utf8(fields[i].0), d)
            &&& !occurs_in(fields[i].1, d)
        }
}

/// A scan for the delimiter passes over positions where it does not occur.
proof fn lemma_delims_skip(s: Seq<u8>, d: Seq<u8>, i: int, j: int)
    requires
        d.len() > 0,
        0 <= i <= j,
        forall|p: int| i <= p < j ==> !occurs_at(s, d, p),
    ensures
        delims_from(s, d, i) == delims_from(s, d, j),
    decreases j - i,
{
    if i < j && i + d.len() <= s.len() {
        lemma_delims_skip(s, d, i + 1, j);
    }
}

proof fn lemma_occurs_shift(s: Seq<u8>, a: int, d: Seq<u8>, q: int)
    requires
        0 <= a <= s.len(),
        0 <= q,
    ensures
        occurs_at(s, d, a + q) == occurs_at(s.skip(a), d, q),
{
    if a + q + d.len() <= s.len() {
        assert(s.subrange(a + q, a + q + d.len()) =~= s.skip(a).subrange(q, q + d.len()));
    }
}

/// Around a stretch `x` free of `d` and followed by a byte that `d` lacks,
/// `d` does not occur: a match would lie inside `x` or reach that byte.
proof fn lemma_segment_clear(s: Seq<u8>, d: Seq<u8>, a: int, x: Seq<u8>, c: u8)
    requires
        0 <= a,
        a + x.len() < s.len(),
        s.subrange(a, a + x.len()) == x,
        s[a + x.len()] == c,
        !occurs_in(x, d),
        forall|k: int| 0 <= k < d.len() ==> d[k] != c,
    ensures
        forall|p: int| a <= p <= a + x.len() ==> !occurs_at(s, d, p),
{
    assert forall|p: int| a <= p <= a + x.len() implies !occurs_at(s, d, p) by {
        if occurs_at(s, d, p) {
            if p + d.len() <= a + x.len() {
                assert(x.subrange(p - a, p - a + d.len()) =~= s.subrange(p, p + d.len()));
                assert(occurs_at(x, d, p - a));
            } else {
                let k = a + x.len() - p;
                assert(s.subrange(p, p + d.len())[k] == s[a + x.len()]);
            }
        }
    }
}

/// Inside a written field, after its delimiter, the delimiter does not
/// occur again.
proof fn lemma_chunk_clear(d: Seq<u8>, name: Seq<char>, value: Seq<u8>, tail: Seq<u8>)
    requires
        delimiter_shape(d),
        writable_name(name),
        !occurs_in(encode_utf8(name), d),
        !occurs_in(value, d),
    ensures
        forall|q: int|
            d.len() <= q < field_chunk(d, name, value).len() ==> !occurs_at(
                field_chunk(d, name, value) + tail,
                d,
                q,
            ),
{
    lemma_header_bytes(name);
    let h = encode_utf8(disposition_line(name));
    let n = encode_utf8(name);
    let c = field_chunk(d, name, value);
    let w = c + tail;
    let o1 = d.len() as int;
    let o2 = o1 + 2;
    let o3 = o2 + h.len();
    let o4 = o3 + 4;
    let o5 = o4 + value.len();
    assert(c.len() == o5 + 2);
    assert(w.subrange(o2, o3) =~= h);
    assert(w.subrange(o4, o5) =~= value);
    assert(w[o1] == 13u8 && w[o1 + 1] == 10u8);
    assert(w[o3] == 13u8 && w[o3 + 1] == 10u8 && w[o3 + 2] == 13u8 && w[o3 + 3] == 10u8);
    assert(w[o5] == 13u8 && w[o5 + 1] == 10u8);
    assert(w.subrange(o2 + 38, o2 + 38 + n.len()) =~= n) by {
        assert forall|k: int| 0 <= k < n.len() implies w[o2 + 38 + k] == n[k] by {
            assert(w.subrange(o2, o3)[38 + k] == h[38 + k]);
            assert(h.subrange(38, 38 + n.len() as int)[k] == n[k]);
        }
    }
    assert(w[o2 + 38 + n.len() as int] == 34u8) by {
        assert(w.subrange(o2, o3)[38 + n.len() as int] == h[38 + n.len() as int]);
    }
    lemma_segment_clear(w, d, o2 + 38, n, 34u8);
    lemma_segment_clear(w, d, o4, value, 13u8);
    assert forall|q: int| o1 <= q < c.len() implies !occurs_at(w, d, q) by {
        if occurs_at(w, d, q) {
            assert(w.subrange(q, q + d.len())[0] == w[q]);
            assert(w.subrange(q, q + d.len())[1] == w[q + 1]);
            if o2 <= q < o2 + 38 {
                assert(w.subrange(o2, o3)[q - o2] == h[q - o2]);
                assert(w.subrange(o2, o3)[q - o2 + 1] == h[q - o2 + 1]);
            }
        }
    }
}

/// Where a written field starts, the scan finds its delimiter and then the
/// next one at the end of the field.
proof fn lemma_chunk_delims(s: Seq<u8>, a: int, d: Seq<u8>, name: Seq<char>, value: Seq<u8>, rest: Seq<u8>)
    requires
        0 <= a <= s.len(),
        s.skip(a) == field_chunk(d, name, value) + rest,
        delimiter_shape(d),
        writable_name(name),
        !occurs_in(encode_utf8(name), d),
        !occurs_in(value, d),
    ensures
        delims_from(s, d, a) == seq![a] + delims_from(s, d, a + field_chunk(d, name, value).len()),
{
    let c = field_chunk(d, name, value);
    lemma_chunk_clear(d, name, value, rest);
    assert(s.skip(a).len() == s.len() - a);
    assert(c.len() >= d.len());
    assert(s.subrange(a, a + d.len()) =~= d) by {
        assert forall|k: int| 0 <= k < d.len() implies s[a + k] == d[k] by {
            assert(s.skip(a)[k] == s[a + k]);
            assert((c + rest)[k] == c[k]);
        }
    }
    assert forall|p: int| a + d.len() <= p < a + c.len() implies !occurs_at(s, d, p) by {
        lemma_occurs_shift(s, a, d, p - a);
    }
    lemma_delims_skip(s, d, a + d.len(), a + c.len());
}

/// The closing delimiter is the last one the scan finds.
proof fn lemma_close_delims(s: Seq<u8>, a: int, d: Seq<u8>)
    requires
        0 <= a <= s.len(),
        s.skip(a) == d + seq![45u8, 45u8] + crlf(),
        delimiter_shape(d),
    ensures
        delims_from(s, d, a) == seq![a],
{
    let w = s.skip(a);
    let e = a + d.len();
    assert(w.len() == s.len() - a);
    assert((d + seq![45u8, 45u8] + crlf()).len() == d.len() + 4);
    assert(s.len() == e + 4);
    assert(s.subrange(a, e) =~= d) by {
        assert forall|k: int| 0 <= k < d.len() implies s[a + k] == d[k] by {
            assert(w[k] == s[a + k]);
        }
    }
    assert(w[d.len() as int] == 45u8 && w[d.len() + 1int] == 45u8);
    assert(w[d.len() + 2int] == 13u8 && w[d.len() + 3int] == 10u8);
    assert forall|p: int| e <= p < s.len() implies !occurs_at(s, d, p) by {
        if occurs_at(s, d, p) {
            assert(s.subrange(p, p + d.len())[0] == s[p]);
            assert(s.subrange(p, p + d.len())[1] == s[p + 1]);
            assert(s.subrange(p, p + d.len())[2] == s[p + 2]);
            assert(s[p] == w[p - a]);
            assert(s[p + 1] == w[p + 1 - a]);
            assert(s[p + 2] == w[p + 2 - a]);
        }
    }
    lemma_delims_skip(s, d, e, s.len() as int);
    assert(delims_from(s, d, s.len() as int) =~= Seq::<int>::empty());
    assert(delims_from(s, d, a) == seq![a] + delims_from(s, d, e));
}

/// The scan over a written form finds one delimiter per field and the
/// closing one; after the `k`-th lies the rest of the form from field `k`.
proof fn lemma_form_delims(s: Seq<u8>, a: int, d: Seq<u8>, fields: Seq<(Seq<char>, Seq<u8>)>)
    requires
        0 <= a <= s.len(),
        s.skip(a) == form_body(d, fields),
        delimiter_shape(d),
        fields_fit(d, fields),
    ensures
        delims_from(s, d, a).len() == fields.len() + 1,
        forall|k: int|
            0 <= k <= fields.len() ==> a <= #[trigger] delims_from(s, d, a)[k] <= s.len() && s.skip(
                delims_from(s, d, a)[k],
            ) == form_body(d, fields.skip(k)),
        forall|k: int|
            0 <= k < fields.len() ==> #[trigger] delims_from(s, d, a)[k + 1] == delims_from(
                s,
                d,
                a,
            )[k] + field_chunk(d, fields[k].0, fields[k].1).len(),
    decreases fields.len(),
{
    let r = delims_from(s, d, a);
    if fields.len() == 0 {
        lemma_close_delims(s, a, d);
        assert(fields.skip(0) =~= fields);
    } else {
        let c = field_chunk(d, fields[0].0, fields[0].1);
        let rest = form_body(d, fields.drop_first());
        assert(fields_fit(d, fields.drop_first())) by {
            assert forall|i: int| 0 <= i < fields.drop_first().len() implies {
                &&& writable_name(#[trigger] fields.drop_first()[i].0)
                &&& !occurs_in(encode_utf8(fields.drop_first()[i].0), d)
                &&& !occurs_in(fields.drop_first()[i].1, d)
            } by {
                assert(fields.drop_first()[i] == fields[i + 1]);
            }
        }
        assert(writable_name(fields[0].0));
        lemma_chunk_delims(s, a, d, fields[0].0, fields[0].1, rest);
        let b = a + c.len();
        assert(s.skip(a).len() == s.len() - a);
        assert(b <= s.len());
        assert(s.skip(b) =~= rest) by {
            assert(s.skip(a).skip(c.len() as int) =~= s.skip(b));
            assert((c + rest).skip(c.len() as int) =~= rest);
        }
        lemma_form_delims(s, b, d, fields.drop_first());
        let r2 = delims_from(s, d, b);
        assert(r == seq![a] + r2);
        assert forall|k: int| 0 <= k <= fields.len() implies a <= #[trigger] r[k] <= s.len()
            && s.skip(r[k]) == form_body(d, fields.skip(k)) by {
            if k == 0 {
                assert(fields.skip(0) =~= fields);
            } else {
                assert(r[k] == r2[k - 1]);
                assert(fields.drop_first().skip(k - 1) =~= fields.skip(k));
            }
        }
        assert forall|k: int| 0 <= k < fields.len() implies #[trigger] r[k + 1] == r[k]
            + field_chunk(d, fields[k].0, fields[k].1).len() by {
            assert(r[k + 1] == r2[k]);
            if k > 0 {
                assert(r[k] == r2[k - 1]);
                assert(fields.drop_first()[k - 1] == fields[k]);
            }
        }
    }
}

// ----- reading a field back -----

/// The header line of a field is read as a `Content-Disposition` line: by
/// its ASCII lowercase when the name is ASCII, otherwise as given.
proof fn lemma_line_kind(name: Seq<char>)
    requires
        writable_name(name),
        !is_ascii_text(name) ==> header_kind(lowercase_of(disposition_line(name)))
            == HeaderLine::Disposition,
    ensures
        header_kind(lowercase_text(disposition_line(name))) == HeaderLine::Disposition,
{
    reveal_strlit("Content-Disposition: form-data; name=\"");
    reveal_strlit("\"");
    reveal_strlit("content-disposition:");
    let pre = disposition_prefix();
    let line = disposition_line(name);
    assert(forall|i: int| 0 <= i < 38 ==> line[i] == pre[i]);
    assert(forall|i: int| 0 <= i < name.len() ==> line[38 + i] == name[i]);
    if is_ascii_text(name) {
        assert(is_ascii_text(line)) by {
            assert forall|i: int| 0 <= i < line.len() implies (#[trigger] line[i] as u32) < 128 by {
                if 38 <= i < 38 + name.len() {
                    assert(line[i] == name[i - 38]);
                    assert((name[i - 38] as u32) < 128);
                }
            }
        }
        let low = ascii_lowercase(line);
        let key = "content-disposition:"@;
        assert(low.take(20) =~= key);
        assert(header_kind(low) == HeaderLine::Disposition);
    } else {
        let i = choose|i: int| 0 <= i < name.len() && (#[trigger] name[i] as u32) >= 128;
        assert(line[38 + i] == name[i]);
        assert(!is_ascii_text(line));
    }
}

/// The header line of a field reads back as its name alone, given that its
/// lowercase form is recognised as a `Content-Disposition` line.
proof fn lemma_line_headers(name: Seq<char>)
    requires
        writable_name(name),
        header_kind(lowercase_text(disposition_line(name))) == HeaderLine::Disposition,
    ensures
        part_headers(disposition_line(name)) == (name, Option::<Seq<char>>::None, Option::<
            Seq<char>,
        >::None),
{
    reveal_strlit("Content-Disposition: form-data; name=\"");
    reveal_strlit("\"");
    reveal_strlit("name=\"");
    reveal_strlit("filename=\"");
    let pre = disposition_prefix();
    let q = "\""@;
    let line = disposition_line(name);
    let nk = "name=\""@;
    let fk = "filename=\""@;
    assert(line.len() == 38 + name.len() + 1);
    assert(forall|i: int| 0 <= i < 38 ==> line[i] == pre[i]);
    assert(forall|i: int| 0 <= i < name.len() ==> line[38 + i] == name[i]);
    assert(line[38 + name.len() as int] == '"');
    // one line
    assert(!line.contains('\n')) by {
        if line.contains('\n') {
            let i = choose|i: int| 0 <= i < line.len() && line[i] == '\n';
            if i >= 38 && i < 38 + name.len() {
                assert(name[i - 38] == '\n');
            }
        }
    }
    lemma_split_single(line, '\n');
    let pieces = split(line, '\n');
    assert(pieces.drop_last() =~= Seq::<Seq<char>>::empty());
    assert(lines(line) =~= seq![line]);
    assert(seq![line].drop_last() =~= Seq::<Seq<char>>::empty());
    assert(scan_headers(seq![line]) == header_step(scan_headers(Seq::<Seq<char>>::empty()), line));
    // already trimmed
    assert(!is_ws(line[0]));
    assert(!is_ws(line.last()));
    assert(trim_start(line) == line);
    assert(trim_end(line) == line);
    // name="..."
    assert(line.subrange(32, 38) =~= nk);
    assert(forall|k: int| 0 <= k < 32 ==> #[trigger] pre[k] != 'n' || pre[k + 1] != 'a');
    assert forall|k: int| 0 <= k < 32 implies !occurs_at(line, nk, k) by {
        if occurs_at(line, nk, k) {
            assert(line.subrange(k, k + 6)[0] == line[k]);
            assert(line.subrange(k, k + 6)[1] == line[k + 1]);
            assert(pre[k] != 'n' || pre[k + 1] != 'a');
        }
    }
    lemma_find_from(line, nk, 0);
    assert(occurs_at(line, nk, 32));
    match find(line, nk) {
        Some(j) => {
            if j < 32 {
                assert(!occurs_at(line, nk, j));
            }
        },
        None => {},
    }
    assert(find(line, nk) == Some(32int));
    let rest = line.skip(38);
    assert(rest =~= name + q);
    let dq = seq!['"'];
    assert(occurs_at(rest, dq, name.len() as int)) by {
        assert(rest.subrange(name.len() as int, name.len() + 1int) =~= dq);
    }
    assert forall|k: int| 0 <= k < name.len() implies !occurs_at(rest, dq, k) by {
        if occurs_at(rest, dq, k) {
            assert(rest.subrange(k, k + 1)[0] == rest[k]);
        }
    }
    lemma_find_from(rest, dq, 0);
    assert(find(rest, dq) == Some(name.len() as int));
    assert(rest.take(name.len() as int) =~= name);
    assert(quoted_after(line, nk) == Some(name));
    // no filename="..."
    assert(forall|i: int| 0 <= i < 37 ==> #[trigger] pre[i] != '"');
    assert(pre[28] == 't');
    lemma_find_from(line, fk, 0);
    match find(line, fk) {
        Some(j) => {
            assert(line.subrange(j, j + 10)[9] == line[j + 9]);
            assert(line.subrange(j, j + 10)[0] == line[j]);
            if j + 9 < 37 {
                assert(pre[j + 9] != '"');
            } else if j + 9 == 37 {
                assert(line[28] == pre[28]);
            } else if j + 9 < 38 + name.len() {
                assert(name[j + 9 - 38] != '"');
            }
            assert(j + 10 == line.len());
            assert(line.skip(j + 10) =~= Seq::<char>::empty());
            assert(find(Seq::<char>::empty(), dq) is None);
            assert(quoted_after(line, fk) is None);
        },
        None => {},
    }
}

/// For each field whose name is not ASCII, the lowercase form that
/// `str::to_lowercase` gives of its header line (named, not stated, for
/// such text) reads as a `Content-Disposition` line.
pub open spec fn header_lines_read(fields: Seq<(Seq<char>, Seq<u8>)>) -> bool {
    forall|i: int|
        0 <= i < fields.len() && !is_ascii_text(#[trigger] fields[i].0) ==> header_kind(
            lowercase_of(disposition_line(fields[i].0)),
        ) == HeaderLine::Disposition
}

/// A written field, read between its delimiter and the next one, gives its
/// name and value back.
proof fn lemma_one_part(
    s: Seq<u8>,
    a: int,
    d: Seq<u8>,
    name: Seq<char>,
    value: Seq<u8>,
    rest: Seq<u8>,
)
    requires
        0 <= a <= s.len(),
        s.skip(a) == field_chunk(d, name, value) + rest,
        delimiter_shape(d),
        writable_name(name),
        !is_ascii_text(name) ==> header_kind(lowercase_of(disposition_line(name)))
            == HeaderLine::Disposition,
    ensures
        !closes_at(s, a + d.len()),
        part_between(s, a + d.len(), a + field_chunk(d, name, value).len()) == Some(
            PartView { name, filename: None, content_type: None, data: value },
        ),
{
    lemma_header_bytes(name);
    lemma_line_kind(name);
    lemma_line_headers(name);
    let h = encode_utf8(disposition_line(name));
    encode_utf8_valid_utf8(disposition_line(name));
    encode_utf8_decode_utf8(disposition_line(name));
    assert(lossy_text(h) == disposition_line(name));
    let c = field_chunk(d, name, value);
    let w = s.skip(a);
    assert(w.len() == s.len() - a);
    let o1 = d.len() as int;
    let o3 = o1 + 2 + h.len();
    let o5 = o3 + 4 + value.len();
    assert(c.len() == o5 + 2);
    assert forall|q: int| 0 <= q < w.len() implies #[trigger] s[a + q] == w[q] by {}
    let s0 = a + o1;
    assert(w[o1] == 13u8 && w[o1 + 1] == 10u8);
    assert(s.subrange(s0, s0 + 2)[0] == s[s0]);
    assert(!closes_at(s, s0));
    assert(s.subrange(s0, s0 + 2) =~= seq![13u8, 10u8]);
    let start = s0 + 2;
    assert(content_start(s, s0) == start);
    let e0 = a + c.len();
    assert(w[o5] == 13u8 && w[o5 + 1] == 10u8);
    assert(s.subrange(e0 - 2, e0) =~= seq![13u8, 10u8]);
    let end = e0 - 2;
    assert(content_end(s, start, e0) == end);
    let seg = s.subrange(start, end);
    assert(seg =~= h + crlf() + crlf() + value) by {
        assert forall|k: int| 0 <= k < seg.len() implies seg[k] == (h + crlf() + crlf()
            + value)[k] by {
            assert(seg[k] == s[start + k]);
            assert(s[start + k] == w[o1 + 2 + k]);
        }
    }
    let pat = seq![13u8, 10u8, 13u8, 10u8];
    assert(occurs_at(seg, pat, h.len() as int)) by {
        assert(seg.subrange(h.len() as int, h.len() + 4int) =~= pat);
    }
    assert forall|k: int| 0 <= k < h.len() implies !occurs_at(seg, pat, k) by {
        if occurs_at(seg, pat, k) {
            assert(seg.subrange(k, k + 4)[0] == seg[k]);
            assert(seg[k] == h[k]);
        }
    }
    lemma_find_from(seg, pat, 0);
    match find(seg, pat) {
        Some(j) => {
            if j < h.len() {
                assert(!occurs_at(seg, pat, j));
            }
        },
        None => {},
    }
    assert(find(seg, pat) == Some(h.len() as int));
    assert(seg.take(h.len() as int) =~= h);
    assert(seg.skip(h.len() + 4int) =~= value);
    assert(split_head(seg) == Some((h, value)));
}

/// The parts read from the `k`-th written field on are those fields.
proof fn lemma_parts(s: Seq<u8>, d: Seq<u8>, r: Seq<int>, k: int, fields: Seq<(Seq<char>, Seq<u8>)>)
    requires
        0 <= k <= fields.len(),
        delimiter_shape(d),
        fields_fit(d, fields),
        header_lines_read(fields),
        r.len() == fields.len() + 1,
        forall|i: int|
            0 <= i <= fields.len() ==> 0 <= #[trigger] r[i] <= s.len() && s.skip(r[i]) == form_body(
                d,
                fields.skip(i),
            ),
        forall|i: int|
            0 <= i < fields.len() ==> #[trigger] r[i + 1] == r[i] + field_chunk(
                d,
                fields[i].0,
                fields[i].1,
            ).len(),
    ensures
        parts_from(s, d, r, k) == field_parts(fields).skip(k),
    decreases fields.len() - k,
{
    if k == fields.len() {
        assert(field_parts(fields).skip(k) =~= Seq::<PartView>::empty());
    } else {
        let f = fields[k];
        let later = fields.skip(k);
        assert(later[0] == f);
        assert(later.drop_first() =~= fields.skip(k + 1));
        assert(writable_name(fields[k].0));
        assert(s.skip(r[k]) == form_body(d, later));
        assert(r[k + 1] == r[k] + field_chunk(d, fields[k].0, fields[k].1).len());
        lemma_one_part(s, r[k], d, f.0, f.1, form_body(d, fields.skip(k + 1)));
        lemma_parts(s, d, r, k + 1, fields);
        let want = field_parts(fields);
        assert(want[k] == PartView { name: f.0, filename: None, content_type: None, data: f.1 });
        assert(want.skip(k) =~= seq![want[k]] + want.skip(k + 1));
    }
}

/// A form written by a browser reads back as the fields it was written
/// from, name and value, in order, with no file name or content type: for
/// a boundary of ASCII letters and digits, and fields with writable names
/// whose encodings, like the values, do not hold the delimiter. For names
/// outside ASCII it also takes that `str::to_lowercase` keeps the header
/// line recognisable as a `Content-Disposition` line, which its named
/// result does not state.
pub proof fn law_written_form_reads_back(boundary: Seq<char>, fields: Seq<(Seq<char>, Seq<u8>)>)
    requires
        boundary.len() > 0,
        forall|i: int| 0 <= i < boundary.len() ==> is_alnum(#[trigger] boundary[i]),
        fields_fit(delimiter_of(boundary), fields),
        header_lines_read(fields),
    ensures
        multipart_parts(form_body(delimiter_of(boundary), fields), boundary) == field_parts(fields),
{
    let d = delimiter_of(boundary);
    let body = form_body(d, fields);
    lemma_delimiter_shape(boundary);
    assert(body.skip(0) =~= body);
    lemma_form_delims(body, 0, d, fields);
    let r = delims_from(body, d, 0);
    lemma_parts(body, d, r, 0, fields);
    assert(field_parts(fields).skip(0) =~= field_parts(fields));
}

} // verus!
