//! What the exchange does with uploads from phones and shares from this
//! computer: which parts become items, what the items hold, and where they
//! go in the stores.

use vstd::prelude::*;
use vstd::utf8::{decode_utf8, encode_utf8, valid_utf8};
use vstd::wrapping::u64_specs::wrapping_add;
use crate::text::{
    concat, chars_of, ends_with, ends_with_exec, find, find_exec, same, slice_of, starts_with,
    starts_with_exec, string_views, trim, trim_exec,
};
use crate::external::{
    json_str_member, json_str_member_of, lossy_text, lowercase_text, string_from_chars, to_lowercase,
    utf8_decode, utf8_lossy,
};
use crate::ids::{id_at, is_hex_id};
use crate::multipart::{
    boundary_of, extract_boundary, multipart_parts, parse_multipart, part_views, FormPart, PartView,
};
use crate::store::{capped, prepend_all, FileExchange, ReceivedItem, ReceivedView, SharedItem, SharedView};
use crate::reply::{header_views, json_headers, respond_json, HttpReply, JsonReply, ReplyBody};

verus! {

/// How many characters a preview keeps.
pub const PREVIEW_CHARS: usize = 200;

/// The first `n` characters (all of them where there are fewer).
pub open spec fn first_chars(s: Seq<char>, n: nat) -> Seq<char> {
    if s.len() > n {
        s.take(n as int)
    } else {
        s
    }
}

/// A part that carries a note typed on the phone.
pub open spec fn is_note_part(p: PartView) -> bool {
    p.name == "text"@ && p.data.len() > 0
}

/// A part that carries an uploaded file.
pub open spec fn is_file_part(p: PartView) -> bool {
    (p.name == "files"@ || p.filename is Some) && p.data.len() > 0
}

/// A part that carries a file to share.
pub open spec fn is_share_part(p: PartView) -> bool {
    (p.name == "file"@ || p.filename is Some) && p.data.len() > 0
}

/// Where the uploaded items are meant to go: the trimmed text of the last
/// part named `target` whose bytes are UTF-8, else `image`.
pub open spec fn upload_target(ps: Seq<PartView>) -> Seq<char>
    decreases ps.len(),
{
    if ps.len() == 0 {
        "image"@
    } else if ps.last().name == "target"@ && valid_utf8(ps.last().data) {
        trim(decode_utf8(ps.last().data))
    } else {
        upload_target(ps.drop_last())
    }
}

/// The category of an uploaded file, from its content type and its
/// lowercased name.
pub open spec fn file_category(mime: Seq<char>, lower_name: Seq<char>) -> Seq<char> {
    if starts_with(mime, "image/"@) || ends_with(lower_name, ".png"@) || ends_with(
        lower_name,
        ".jpg"@,
    ) || ends_with(lower_name, ".jpeg"@) || ends_with(lower_name, ".webp"@) || ends_with(
        lower_name,
        ".bmp"@,
    ) || ends_with(lower_name, ".gif"@) {
        "image"@
    } else if mime == "application/pdf"@ || ends_with(lower_name, ".pdf"@) {
        "pdf"@
    } else if ends_with(lower_name, ".txt"@) || ends_with(lower_name, ".md"@) || ends_with(
        lower_name,
        ".json"@,
    ) || ends_with(lower_name, ".log"@) || ends_with(lower_name, ".csv"@) {
        "text"@
    } else {
        "file"@
    }
}

/// The item a note part becomes.
pub open spec fn note_item(
    p: PartView,
    id: Seq<char>,
    target: Seq<char>,
    now: u64,
    sender: Seq<char>,
) -> ReceivedView {
    ReceivedView {
        id,
        name: "手机便签.txt"@,
        size: p.data.len() as usize,
        category: "text"@,
        target,
        mimetype: "text/plain; charset=utf-8"@,
        preview: first_chars(lossy_text(p.data), PREVIEW_CHARS as nat),
        timestamp: now,
        sender_ip: sender,
        data: p.data,
    }
}

/// The name an uploaded file is stored under.
pub open spec fn upload_name(p: PartView) -> Seq<char> {
    match p.filename {
        Some(f) => f,
        None => "unnamed_file"@,
    }
}

/// The content type an uploaded or shared file is stored under.
pub open spec fn part_mime(p: PartView) -> Seq<char> {
    match p.content_type {
        Some(c) => c,
        None => "application/octet-stream"@,
    }
}

/// The item a file part becomes.
pub open spec fn file_item(
    p: PartView,
    id: Seq<char>,
    target: Seq<char>,
    now: u64,
    sender: Seq<char>,
) -> ReceivedView {
    let category = file_category(part_mime(p), lowercase_text(upload_name(p)));
    ReceivedView {
        id,
        name: upload_name(p),
        size: p.data.len() as usize,
        category,
        target,
        mimetype: part_mime(p),
        preview: if category == "text"@ {
            first_chars(lossy_text(p.data), PREVIEW_CHARS as nat)
        } else {
            Seq::<char>::empty()
        },
        timestamp: now,
        sender_ip: sender,
        data: p.data,
    }
}

pub open spec fn count_notes(ps: Seq<PartView>) -> nat
    decreases ps.len(),
{
    if ps.len() == 0 {
        0
    } else if is_note_part(ps.last()) {
        count_notes(ps.drop_last()) + 1
    } else {
        count_notes(ps.drop_last())
    }
}

pub open spec fn count_files(ps: Seq<PartView>) -> nat
    decreases ps.len(),
{
    if ps.len() == 0 {
        0
    } else if is_file_part(ps.last()) {
        count_files(ps.drop_last()) + 1
    } else {
        count_files(ps.drop_last())
    }
}

/// The note items of the parts, in order, the `i`-th taking the `i`-th id.
pub open spec fn note_items(
    ps: Seq<PartView>,
    ids: Seq<Seq<char>>,
    target: Seq<char>,
    now: u64,
    sender: Seq<char>,
) -> Seq<ReceivedView>
    decreases ps.len(),
{
    if ps.len() == 0 {
        Seq::<ReceivedView>::empty()
    } else if is_note_part(ps.last()) {
        note_items(ps.drop_last(), ids.drop_last(), target, now, sender).push(
            note_item(ps.last(), ids.last(), target, now, sender),
        )
    } else {
        note_items(ps.drop_last(), ids, target, now, sender)
    }
}

/// The file items of the parts, in order, the `i`-th taking the `i`-th id.
pub open spec fn file_items(
    ps: Seq<PartView>,
    ids: Seq<Seq<char>>,
    target: Seq<char>,
    now: u64,
    sender: Seq<char>,
) -> Seq<ReceivedView>
    decreases ps.len(),
{
    if ps.len() == 0 {
        Seq::<ReceivedView>::empty()
    } else if is_file_part(ps.last()) {
        file_items(ps.drop_last(), ids.drop_last(), target, now, sender).push(
            file_item(ps.last(), ids.last(), target, now, sender),
        )
    } else {
        file_items(ps.drop_last(), ids, target, now, sender)
    }
}

/// The items a form upload creates, in the order they are made: first the
/// notes, then the files (a part can be both), taking the ids in turn.
pub open spec fn form_items(
    ps: Seq<PartView>,
    ids: Seq<Seq<char>>,
    now: u64,
    sender: Seq<char>,
) -> Seq<ReceivedView> {
    let n = count_notes(ps) as int;
    note_items(ps, ids.take(n), upload_target(ps), now, sender) + file_items(
        ps,
        ids.skip(n),
        upload_target(ps),
        now,
        sender,
    )
}

/// The counter after `n` ids were taken from it.
pub open spec fn advance(c: u64, n: nat) -> u64
    decreases n,
{
    if n == 0 {
        c
    } else {
        wrapping_add(advance(c, (n - 1) as nat), 1)
    }
}

pub proof fn lemma_prepend_all_concat<A>(a: Seq<A>, b: Seq<A>, o: Seq<A>)
    ensures
        prepend_all(a + b, o) == prepend_all(b, prepend_all(a, o)),
    decreases b.len(),
{
    if b.len() == 0 {
        assert(a + b =~= a);
    } else {
        lemma_prepend_all_concat(a, b.drop_last(), o);
        assert((a + b).drop_last() =~= a + b.drop_last());
        assert((a + b).last() == b.last());
    }
}

fn is_literal(s: &str, lit: &str) -> (r: bool)
    ensures
        r == (s@ == lit@),
{
    same(&chars_of(s), &chars_of(lit))
}

fn has_suffix(s: &Vec<char>, suffix: &str) -> (r: bool)
    ensures
        r == ends_with(s@, suffix@),
{
    ends_with_exec(s, &chars_of(suffix))
}

/// The category of an uploaded file, from its content type and its
/// lowercased name.
pub fn category_of_file(mime: &str, lower_name: &str) -> (r: &'static str)
    ensures
        r@ == file_category(mime@, lower_name@),
{
    let m = chars_of(mime);
    let l = chars_of(lower_name);
    if starts_with_exec(&m, &chars_of("image/")) || has_suffix(&l, ".png") || has_suffix(&l, ".jpg")
        || has_suffix(&l, ".jpeg") || has_suffix(&l, ".webp") || has_suffix(&l, ".bmp")
        || has_suffix(&l, ".gif") {
        "image"
    } else if is_literal(mime, "application/pdf") || has_suffix(&l, ".pdf") {
        "pdf"
    } else if has_suffix(&l, ".txt") || has_suffix(&l, ".md") || has_suffix(&l, ".json")
        || has_suffix(&l, ".log") || has_suffix(&l, ".csv") {
        "text"
    } else {
        "file"
    }
}

/// The first `PREVIEW_CHARS` characters of a text.
pub fn preview_of(text: &str) -> (r: String)
    ensures
        r@ == first_chars(text@, PREVIEW_CHARS as nat),
{
    let c = chars_of(text);
    if c.len() > PREVIEW_CHARS {
        string_from_chars(&slice_of(&c, 0, PREVIEW_CHARS))
    } else {
        string_from_chars(&c)
    }
}

fn copy_bytes(v: &Vec<u8>) -> (r: Vec<u8>)
    ensures
        r@ == v@,
{
    vstd::slice::slice_to_vec(v.as_slice())
}

fn is_note_exec(p: &FormPart) -> (r: bool)
    ensures
        r == is_note_part(p@),
{
    is_literal(p.name.as_str(), "text") && p.data.len() > 0
}

fn is_file_exec(p: &FormPart) -> (r: bool)
    ensures
        r == is_file_part(p@),
{
    (is_literal(p.name.as_str(), "files") || p.filename.is_some()) && p.data.len() > 0
}

fn is_share_exec(p: &FormPart) -> (r: bool)
    ensures
        r == is_share_part(p@),
{
    (is_literal(p.name.as_str(), "file") || p.filename.is_some()) && p.data.len() > 0
}

fn upload_target_exec(parts: &Vec<FormPart>) -> (r: String)
    ensures
        r@ == upload_target(part_views(parts@)),
{
    let ghost ps = part_views(parts@);
    let mut t = chars_of("image");
    let mut j: usize = 0;
    assert(ps.take(0) =~= Seq::<PartView>::empty());
    while j < parts.len()
        invariant
            j <= parts.len(),
            ps == part_views(parts@),
            t@ == upload_target(ps.take(j as int)),
        decreases parts.len() - j,
    {
        assert(ps.take(j + 1).drop_last() =~= ps.take(j as int));
        assert(ps.take(j + 1).last() == parts@[j as int]@);
        if is_literal(parts[j].name.as_str(), "target") {
            match utf8_decode(parts[j].data.as_slice()) {
                Some(s) => {
                    t = trim_exec(&chars_of(s.as_str()));
                },
                None => {},
            }
        }
        j += 1;
    }
    assert(ps.take(parts.len() as int) =~= ps);
    string_from_chars(&t)
}

fn note_item_exec(p: &FormPart, id: String, target: &String, now: u64, sender: &str) -> (r:
    ReceivedItem)
    ensures
        r@ == note_item(p@, id@, target@, now, sender@),
{
    let text = utf8_lossy(p.data.as_slice());
    ReceivedItem {
        id,
        name: "手机便签.txt".to_string(),
        size: p.data.len(),
        category: "text".to_string(),
        target: target.clone(),
        mimetype: "text/plain; charset=utf-8".to_string(),
        preview: preview_of(text.as_str()),
        timestamp: now,
        sender_ip: sender.to_string(),
        data: copy_bytes(&p.data),
    }
}

fn file_item_exec(p: &FormPart, id: String, target: &String, now: u64, sender: &str) -> (r:
    ReceivedItem)
    ensures
        r@ == file_item(p@, id@, target@, now, sender@),
{
    let fname = match &p.filename {
        Some(f) => f.clone(),
        None => "unnamed_file".to_string(),
    };
    let mime = match &p.content_type {
        Some(c) => c.clone(),
        None => "application/octet-stream".to_string(),
    };
    let lower = to_lowercase(fname.as_str());
    let category = category_of_file(mime.as_str(), lower.as_str());
    let preview = if is_literal(category, "text") {
        preview_of(utf8_lossy(p.data.as_slice()).as_str())
    } else {
        String::new()
    };
    ReceivedItem {
        id,
        name: fname,
        size: p.data.len(),
        category: category.to_string(),
        target: target.clone(),
        mimetype: mime,
        preview,
        timestamp: now,
        sender_ip: sender.to_string(),
        data: copy_bytes(&p.data),
    }
}

pub proof fn lemma_advance_add(c: u64, a: nat, b: nat)
    ensures
        advance(advance(c, a), b) == advance(c, a + b),
    decreases b,
{
    if b > 0 {
        lemma_advance_add(c, a, (b - 1) as nat);
    }
}

impl FileExchange {
    /// Stores the notes and files of an uploaded form. Every note part and
    /// every file part becomes an item (notes first, each group in form
    /// order), each put in front of the received store with a fresh id; the
    /// store is then cut back to its capacity. Returns the ids, in the order
    /// the items were made.
    pub fn upload_form(&mut self, parts: &Vec<FormPart>, sender_ip: &str, now: u64) -> (ids: Vec<
        String,
    >)
        requires
            old(self).wf(),
        ensures
            ({
                let ps = part_views(parts@);
                &&& ids.len() == count_notes(ps) + count_files(ps)
                &&& forall|i: int| 0 <= i < ids.len() ==> is_hex_id(#[trigger] ids@[i]@)
                &&& forall|i: int|
                    0 <= i < ids.len() ==> id_at(
                        #[trigger] ids@[i]@,
                        advance(old(self).id_counter(), i as nat),
                    )
                &&& final(self).received_items() == capped(
                    prepend_all(
                        form_items(ps, string_views(ids@), now, sender_ip@),
                        old(self).received_items(),
                    ),
                )
                &&& final(self).shared_items() == old(self).shared_items()
                &&& final(self).id_counter() == advance(old(self).id_counter(), ids.len() as nat)
            }),
            final(self).wf(),
    {
        let ghost ps = part_views(parts@);
        let ghost old_items = self.received_items();
        let ghost old_shared = self.shared_items();
        let ghost c0 = self.id_counter();
        let target = upload_target_exec(parts);
        let mut note_ids: Vec<String> = Vec::new();
        let mut j: usize = 0;
        assert(ps.take(0) =~= Seq::<PartView>::empty());
        assert(string_views(note_ids@) =~= Seq::<Seq<char>>::empty());
        while j < parts.len()
            invariant
                j <= parts.len(),
                ps == part_views(parts@),
                target@ == upload_target(ps),
                note_ids.len() == count_notes(ps.take(j as int)),
                self.received_items() == prepend_all(
                    note_items(ps.take(j as int), string_views(note_ids@), target@, now, sender_ip@),
                    old_items,
                ),
                self.shared_items() == old_shared,
                self.id_counter() == advance(c0, note_ids.len() as nat),
                forall|i: int| 0 <= i < note_ids.len() ==> is_hex_id(#[trigger] note_ids@[i]@),
                forall|i: int|
                    0 <= i < note_ids.len() ==> id_at(#[trigger] note_ids@[i]@, advance(c0, i as nat)),
            decreases parts.len() - j,
        {
            assert(ps.take(j + 1).drop_last() =~= ps.take(j as int));
            assert(ps.take(j + 1).last() == parts@[j as int]@);
            if is_note_exec(&parts[j]) {
                let ghost before = string_views(note_ids@);
                let id = self.fresh_id();
                let item = note_item_exec(&parts[j], id.clone(), &target, now, sender_ip);
                let ghost v = item@;
                let ghost prev = note_items(ps.take(j as int), before, target@, now, sender_ip@);
                self.put_received(item);
                note_ids.push(id);
                assert(string_views(note_ids@) =~= before.push(id@));
                assert(string_views(note_ids@).drop_last() =~= before);
                assert(note_items(ps.take(j + 1), string_views(note_ids@), target@, now, sender_ip@) == prev.push(v));
                assert(prev.push(v).drop_last() =~= prev);
                assert(prepend_all(prev.push(v), old_items) == seq![v] + prepend_all(prev, old_items));
            }
            j += 1;
        }
        assert(ps.take(parts.len() as int) =~= ps);
        let ghost after_notes = self.received_items();
        let ghost n1 = note_ids.len() as nat;
        let mut file_ids: Vec<String> = Vec::new();
        j = 0;
        assert(string_views(file_ids@) =~= Seq::<Seq<char>>::empty());
        while j < parts.len()
            invariant
                j <= parts.len(),
                ps == part_views(parts@),
                target@ == upload_target(ps),
                file_ids.len() == count_files(ps.take(j as int)),
                self.received_items() == prepend_all(
                    file_items(ps.take(j as int), string_views(file_ids@), target@, now, sender_ip@),
                    after_notes,
                ),
                self.shared_items() == old_shared,
                self.id_counter() == advance(advance(c0, n1), file_ids.len() as nat),
                forall|i: int| 0 <= i < file_ids.len() ==> is_hex_id(#[trigger] file_ids@[i]@),
                forall|i: int|
                    0 <= i < file_ids.len() ==> id_at(
                        #[trigger] file_ids@[i]@,
                        advance(advance(c0, n1), i as nat),
                    ),
                forall|i: int|
                    0 <= i < note_ids.len() ==> id_at(#[trigger] note_ids@[i]@, advance(c0, i as nat)),
                note_ids.len() == n1,
            decreases parts.len() - j,
        {
            assert(ps.take(j + 1).drop_last() =~= ps.take(j as int));
            assert(ps.take(j + 1).last() == parts@[j as int]@);
            if is_file_exec(&parts[j]) {
                let ghost before = string_views(file_ids@);
                let id = self.fresh_id();
                let item = file_item_exec(&parts[j], id.clone(), &target, now, sender_ip);
                let ghost v = item@;
                let ghost prev = file_items(ps.take(j as int), before, target@, now, sender_ip@);
                self.put_received(item);
                file_ids.push(id);
                assert(string_views(file_ids@) =~= before.push(id@));
                assert(string_views(file_ids@).drop_last() =~= before);
                assert(file_items(ps.take(j + 1), string_views(file_ids@), target@, now, sender_ip@) == prev.push(v));
                assert(prev.push(v).drop_last() =~= prev);
                assert(prepend_all(prev.push(v), after_notes) == seq![v] + prepend_all(prev, after_notes));
            }
            j += 1;
        }
        self.cap_received();
        let ghost nv = string_views(note_ids@);
        let ghost fv = string_views(file_ids@);
        let ghost note_ids_before = note_ids@;
        let ghost file_ids_before = file_ids@;
        let mut ids = note_ids;
        ids.append(&mut file_ids);
        assert(string_views(ids@) =~= nv + fv);
        assert(string_views(ids@).take(n1 as int) =~= nv);
        assert(string_views(ids@).skip(n1 as int) =~= fv);
        proof {
            lemma_prepend_all_concat(
                note_items(ps, nv, target@, now, sender_ip@),
                file_items(ps, fv, target@, now, sender_ip@),
                old_items,
            );
            lemma_advance_add(c0, n1, fv.len());
            assert forall|i: int| 0 <= i < ids.len() implies is_hex_id(#[trigger] ids@[i]@) by {
                assert(ids@[i]@ == (nv + fv)[i]);
            }
            assert forall|i: int| 0 <= i < ids.len() implies id_at(
                #[trigger] ids@[i]@,
                advance(c0, i as nat),
            ) by {
                if i >= n1 {
                    assert(ids@[i] == file_ids_before[i - n1]);
                    lemma_advance_add(c0, n1, (i - n1) as nat);
                } else {
                    assert(ids@[i] == note_ids_before[i]);
                }
            }
        }
        ids
    }
}

/// The fields a JSON note upload is read from: its `text` (empty where
/// missing), its `title` (a default where missing) and its `target` (`text`
/// where missing); none where the body is not JSON.
pub open spec fn json_upload(body: Seq<u8>) -> Option<(Seq<char>, Seq<char>, Seq<char>)> {
    match json_str_member_of(body, "text"@) {
        None => None,
        Some(t) => Some(
            (
                match t {
                    Some(x) => x,
                    None => Seq::<char>::empty(),
                },
                match json_str_member_of(body, "title"@) {
                    Some(Some(x)) => x,
                    _ => "手机便签"@,
                },
                match json_str_member_of(body, "target"@) {
                    Some(Some(x)) => x,
                    _ => "text"@,
                },
            ),
        ),
    }
}

/// The item a JSON note becomes: named after its title, holding the
/// UTF-8 bytes of its text; the preview is the text, or the leniently
/// decoded first `PREVIEW_CHARS` bytes of a longer one.
pub open spec fn json_item(
    fields: (Seq<char>, Seq<char>, Seq<char>),
    id: Seq<char>,
    now: u64,
    sender: Seq<char>,
) -> ReceivedView {
    let bytes = encode_utf8(fields.0);
    ReceivedView {
        id,
        name: fields.1 + ".txt"@,
        size: bytes.len() as usize,
        category: "text"@,
        target: fields.2,
        mimetype: "text/plain; charset=utf-8"@,
        preview: if bytes.len() > PREVIEW_CHARS {
            lossy_text(bytes.take(PREVIEW_CHARS as int))
        } else {
            fields.0
        },
        timestamp: now,
        sender_ip: sender,
        data: bytes,
    }
}

/// An upload of a form: the content type names `multipart/form-data` and a
/// boundary.
pub open spec fn is_form_upload(ct: Seq<char>) -> bool {
    find(ct, "multipart/form-data"@) is Some && boundary_of(ct) is Some
}

/// An upload of a note as JSON: the content type names `application/json`
/// (and not `multipart/form-data`), the body is JSON and its text is not
/// empty.
pub open spec fn is_json_note(ct: Seq<char>, body: Seq<u8>) -> bool {
    &&& find(ct, "multipart/form-data"@) is None
    &&& find(ct, "application/json"@) is Some
    &&& json_upload(body) matches Some(f)
    &&& f.0.len() > 0
}

/// The name a shared file is stored under.
pub open spec fn share_name(p: PartView) -> Seq<char> {
    match p.filename {
        Some(f) => f,
        None => "shared_file"@,
    }
}

/// The item a shared part becomes.
pub open spec fn shared_item(p: PartView, id: Seq<char>, now: u64) -> SharedView {
    SharedView {
        id,
        name: share_name(p),
        size: p.data.len() as usize,
        mimetype: part_mime(p),
        timestamp: now,
        data: p.data,
    }
}

/// The first part that carries a file to share.
pub open spec fn first_share_part(ps: Seq<PartView>) -> Option<PartView>
    decreases ps.len(),
{
    if ps.len() == 0 {
        None
    } else if is_share_part(ps[0]) {
        Some(ps[0])
    } else {
        first_share_part(ps.drop_first())
    }
}

/// The file a share request offers: the first file part of its form.
pub open spec fn share_request_part(ct: Seq<char>, body: Seq<u8>) -> Option<PartView> {
    match boundary_of(ct) {
        Some(b) => first_share_part(multipart_parts(body, b)),
        None => None,
    }
}

fn contains_text(s: &str, p: &str) -> (r: bool)
    ensures
        r == (find(s@, p@) is Some),
{
    find_exec(&chars_of(s), &chars_of(p)).is_some()
}

fn json_field_or(body: &[u8], key: &str, default: &str) -> (r: String)
    ensures
        r@ == (match json_str_member_of(body@, key@) {
            Some(Some(x)) => x,
            _ => default@,
        }),
{
    match json_str_member(body, key) {
        Some(Some(x)) => x,
        _ => default.to_string(),
    }
}

fn json_item_exec(text: &String, title: &String, target: &String, id: String, now: u64, sender: &str) -> (r:
    ReceivedItem)
    ensures
        r@ == json_item((text@, title@, target@), id@, now, sender@),
{
    let bytes = vstd::slice::slice_to_vec(text.as_str().as_bytes());
    assert(bytes@ == encode_utf8(text@));
    let preview = if bytes.len() > PREVIEW_CHARS {
        utf8_lossy(vstd::slice::slice_subrange(bytes.as_slice(), 0, PREVIEW_CHARS))
    } else {
        proof {
            vstd::utf8::encode_utf8_valid_utf8(text@);
            vstd::utf8::encode_utf8_decode_utf8(text@);
        }
        utf8_lossy(bytes.as_slice())
    };
    assert(bytes@.subrange(0, PREVIEW_CHARS as int) == bytes@.take(PREVIEW_CHARS as int));
    let name = string_from_chars(&concat(&chars_of(title.as_str()), &chars_of(".txt")));
    ReceivedItem {
        id,
        name,
        size: bytes.len(),
        category: "text".to_string(),
        target: target.clone(),
        mimetype: "text/plain; charset=utf-8".to_string(),
        preview,
        timestamp: now,
        sender_ip: sender.to_string(),
        data: bytes,
    }
}

impl FileExchange {
    /// Handles an upload from a phone. A form (`multipart/form-data` with a
    /// boundary) stores its notes and files as `upload_form` does and is
    /// answered with their ids; a JSON note with text is stored as one item
    /// and answered with its id; anything else is refused with status 400
    /// and changes nothing.
    pub fn upload(&mut self, content_type: &str, body: &[u8], sender_ip: &str, now: u64) -> (r:
        HttpReply)
        requires
            old(self).wf(),
        ensures
            final(self).wf(),
            final(self).shared_items() == old(self).shared_items(),
            header_views(r.headers@) == json_headers(),
            is_form_upload(content_type@) ==> {
                let ps = multipart_parts(body@, boundary_of(content_type@)->0);
                &&& r.status == 200
                &&& r.body matches ReplyBody::Json(JsonReply::Uploaded(ids))
                &&& ids.len() == count_notes(ps) + count_files(ps)
                &&& forall|i: int| 0 <= i < ids.len() ==> is_hex_id(#[trigger] ids@[i]@)
                &&& forall|i: int|
                    0 <= i < ids.len() ==> id_at(
                        #[trigger] ids@[i]@,
                        advance(old(self).id_counter(), i as nat),
                    )
                &&& final(self).received_items() == capped(
                    prepend_all(
                        form_items(ps, string_views(ids@), now, sender_ip@),
                        old(self).received_items(),
                    ),
                )
                &&& final(self).id_counter() == advance(old(self).id_counter(), ids.len() as nat)
            },
            is_json_note(content_type@, body@) ==> {
                &&& r.status == 200
                &&& r.body matches ReplyBody::Json(JsonReply::Created(id))
                &&& is_hex_id(id@)
                &&& id_at(id@, old(self).id_counter())
                &&& final(self).received_items() == capped(
                    seq![json_item(json_upload(body@)->0, id@, now, sender_ip@)] + old(
                        self,
                    ).received_items(),
                )
                &&& final(self).id_counter() == wrapping_add(old(self).id_counter(), 1)
            },
            !is_form_upload(content_type@) && !is_json_note(content_type@, body@) ==> {
                &&& r.status == 400
                &&& r.body matches ReplyBody::Json(JsonReply::Failed(m))
                &&& m@ == "Invalid upload format"@
                &&& final(self).received_items() == old(self).received_items()
                &&& final(self).id_counter() == old(self).id_counter()
            },
    {
        if contains_text(content_type, "multipart/form-data") {
            if let Some(boundary) = extract_boundary(content_type) {
                let parts = parse_multipart(body, boundary.as_str());
                let ids = self.upload_form(&parts, sender_ip, now);
                return respond_json(200, JsonReply::Uploaded(ids));
            }
        } else if contains_text(content_type, "application/json") {
            if let Some(t) = json_str_member(body, "text") {
                let text = match t {
                    Some(x) => x,
                    None => String::new(),
                };
                if !text.as_str().is_empty() {
                    let title = json_field_or(body, "title", "手机便签");
                    let target = json_field_or(body, "target", "text");
                    let id = self.store_json_note(&text, &title, &target, sender_ip, now);
                    return respond_json(200, JsonReply::Created(id));
                }
            }
        }
        respond_json(400, JsonReply::Failed("Invalid upload format".to_string()))
    }

    /// Stores a note sent as JSON, given its text, title and target: one
    /// item put in front of the received store (cut back to its capacity)
    /// under a fresh id, which is returned.
    pub fn store_json_note(
        &mut self,
        text: &String,
        title: &String,
        target: &String,
        sender_ip: &str,
        now: u64,
    ) -> (id: String)
        requires
            old(self).wf(),
        ensures
            final(self).wf(),
            final(self).shared_items() == old(self).shared_items(),
            is_hex_id(id@),
            id_at(id@, old(self).id_counter()),
            final(self).received_items() == capped(
                seq![json_item((text@, title@, target@), id@, now, sender_ip@)] + old(
                    self,
                ).received_items(),
            ),
            final(self).id_counter() == wrapping_add(old(self).id_counter(), 1),
    {
        let id = self.fresh_id();
        let item = json_item_exec(text, title, target, id.clone(), now, sender_ip);
        self.put_received(item);
        self.cap_received();
        id
    }

    /// Handles a file shared from this computer: the first file part of the
    /// form is put in front of the shared store (cut back to its capacity)
    /// under a fresh id, and answered with that id and its name; a request
    /// without one is refused with status 400 and changes nothing.
    pub fn share(&mut self, content_type: &str, body: &[u8], now: u64) -> (r: HttpReply)
        requires
            old(self).wf(),
        ensures
            final(self).wf(),
            final(self).received_items() == old(self).received_items(),
            header_views(r.headers@) == json_headers(),
            share_request_part(content_type@, body@) matches Some(p) ==> {
                &&& r.status == 200
                &&& r.body matches ReplyBody::Json(JsonReply::Shared(id, name))
                &&& is_hex_id(id@)
                &&& id_at(id@, old(self).id_counter())
                &&& name@ == share_name(p)
                &&& final(self).shared_items() == capped(
                    seq![shared_item(p, id@, now)] + old(self).shared_items(),
                )
                &&& final(self).id_counter() == wrapping_add(old(self).id_counter(), 1)
            },
            share_request_part(content_type@, body@) is None ==> {
                &&& r.status == 400
                &&& r.body matches ReplyBody::Json(JsonReply::Failed(m))
                &&& m@ == "Invalid share upload"@
                &&& final(self).shared_items() == old(self).shared_items()
                &&& final(self).id_counter() == old(self).id_counter()
            },
    {
        if let Some(boundary) = extract_boundary(content_type) {
            let parts = parse_multipart(body, boundary.as_str());
            let ghost ps = part_views(parts@);
            let ghost r0 = self.received_items();
            let ghost s0 = self.shared_items();
            let ghost c0 = self.id_counter();
            let mut j: usize = 0;
            assert(ps.skip(0) =~= ps);
            assert(share_request_part(content_type@, body@) == first_share_part(ps));
            while j < parts.len()
                invariant
                    j <= parts.len(),
                    share_request_part(content_type@, body@) == first_share_part(ps),
                    self.wf(),
                    r0 == old(self).received_items(),
                    s0 == old(self).shared_items(),
                    c0 == old(self).id_counter(),
                    self.received_items() == r0,
                    self.shared_items() == s0,
                    self.id_counter() == c0,
                    ps == part_views(parts@),
                    ps == multipart_parts(body@, boundary@),
                    first_share_part(ps) == first_share_part(ps.skip(j as int)),
                decreases parts.len() - j,
            {
                assert(ps.skip(j as int)[0] == parts@[j as int]@);
                let p = &parts[j];
                if is_share_exec(p) {
                    let fname = match &p.filename {
                        Some(f) => f.clone(),
                        None => "shared_file".to_string(),
                    };
                    let mime = match &p.content_type {
                        Some(c) => c.clone(),
                        None => "application/octet-stream".to_string(),
                    };
                    let id = self.fresh_id();
                    let item = SharedItem {
                        id: id.clone(),
                        name: fname.clone(),
                        size: p.data.len(),
                        mimetype: mime,
                        timestamp: now,
                        data: copy_bytes(&p.data),
                    };
                    assert(item@ == shared_item(p@, id@, now));
                    assert(first_share_part(ps.skip(j as int)) == Some(p@));
                    self.put_shared(item);
                    return respond_json(200, JsonReply::Shared(id, fname));
                }
                assert(ps.skip(j as int).drop_first() =~= ps.skip(j + 1));
                j += 1;
            }
        }
        respond_json(400, JsonReply::Failed("Invalid share upload".to_string()))
    }
}

} // verus!
