//! Properties that hold across the library's operations.

use vstd::prelude::*;
use crate::store::{
    capped, first_with_id, first_with_id_from, prepend_all, received_ids, shared_ids, ReceivedView, SharedView,
    MAX_STORE_ITEMS,
};
use crate::exchange::{
    count_files, count_notes, file_items, first_chars, form_items, is_file_part, is_note_part,
    json_item, note_items, upload_target,
};
use crate::multipart::PartView;
use vstd::utf8::{decode_utf8, encode_utf8};
use crate::server::safe_filename;
use crate::lan::{
    ifconfig_candidates, ifconfig_step, ip_rank, is_address_line, ipconfig_candidates, ipconfig_step, is_lan_ip,
    lan_ip_list, of_rank, ranked, scan_ifconfig, scan_ipconfig, is_indented, is_skipped_iface,
    is_primary_iface,
};
use crate::text::{
    find, first_word, lines, rfind_char, split, starts_with, trim, trim_end_char, trim_start,
    trim_start_char,
};
use crate::multipart::{boundary_among, boundary_of, closes_at, delimiter_of, delimiters, multipart_parts, parts_from};
use crate::server::{
    depth_after, drive_prefix, leaves_assets, route_for, slashed, static_target, Method, PathStyle,
    RouteView,
};
use crate::external::percent_decoded;
use crate::external::lowercase_text;
use crate::mime::mime_for;
use crate::exchange::{file_category, file_item, first_share_part, is_share_part, note_item, shared_item};
use crate::formdata::lemma_encode_ascii;
use crate::text::{ends_with, is_ws, lemma_split_append, lemma_split_single, trim_char, trim_end};
use crate::ids::{hex_digit, hex_digits, id_text, id_value, ID_MIX};
use vstd::wrapping::u64_specs::wrapping_mul;
use vstd::arithmetic::div_mod::{lemma_mod_mod, lemma_mod_multiples_vanish, lemma_mul_mod_noop_general, lemma_mul_mod_noop_left};
use vstd::arithmetic::mul::lemma_mul_is_associative;

verus! {

/// A store never holds more than its capacity.
pub proof fn law_store_capped<A>(s: Seq<A>)
    ensures
        capped(s).len() <= MAX_STORE_ITEMS,
        capped(s).len() == s.len() || capped(s).len() == MAX_STORE_ITEMS,
        forall|i: int| 0 <= i < capped(s).len() ==> capped(s)[i] == s[i],
{
}

/// The item last put in front is the first of the store, however many
/// came before.
pub proof fn law_newest_first<A>(added: Seq<A>, old: Seq<A>)
    requires
        added.len() > 0,
    ensures
        capped(prepend_all(added, old)).len() > 0,
        capped(prepend_all(added, old))[0] == added.last(),
{
}

/// Looking up the id of a received item just put in front finds that item.
pub proof fn law_received_lookup_after_put(item: ReceivedView, old: Seq<ReceivedView>)
    ensures
        first_with_id(received_ids(capped(seq![item] + old)), item.id) == Some(0int),
        capped(seq![item] + old)[0] == item,
{
    let s = capped(seq![item] + old);
    assert(s[0] == item);
    assert(received_ids(s)[0] == item.id);
}

/// Looking up the id of the newest item of an upload finds that item.
pub proof fn law_received_lookup_after_upload(added: Seq<ReceivedView>, old: Seq<ReceivedView>)
    requires
        added.len() > 0,
    ensures
        first_with_id(received_ids(capped(prepend_all(added, old))), added.last().id) == Some(
            0int,
        ),
{
    let s = capped(prepend_all(added, old));
    law_newest_first(added, old);
    assert(received_ids(s)[0] == added.last().id);
}

/// Looking up the id of a shared item just put in front finds that item.
pub proof fn law_shared_lookup_after_share(item: SharedView, old: Seq<SharedView>)
    ensures
        first_with_id(shared_ids(capped(seq![item] + old)), item.id) == Some(0int),
        capped(seq![item] + old)[0] == item,
{
    let s = capped(seq![item] + old);
    assert(s[0] == item);
    assert(shared_ids(s)[0] == item.id);
}

proof fn lemma_lookup_from(ids: Seq<Seq<char>>, i: int, k: int)
    requires
        0 <= k <= i < ids.len(),
        forall|j: int| 0 <= j < i ==> ids[j] != ids[i],
    ensures
        first_with_id_from(ids, ids[i], k) == Some(i),
    decreases i - k,
{
    if k < i {
        lemma_lookup_from(ids, i, k + 1);
    }
}

/// Looking an id up finds the newest item that carries it: any item whose
/// id no newer item shares is found by its id.
pub proof fn law_lookup_finds_item(ids: Seq<Seq<char>>, i: int)
    requires
        0 <= i < ids.len(),
        forall|j: int| 0 <= j < i ==> ids[j] != ids[i],
    ensures
        first_with_id(ids, ids[i]) == Some(i),
{
    lemma_lookup_from(ids, i, 0);
}

/// After the received store is cleared, no id is found in it.
pub proof fn law_nothing_found_after_clear(id: Seq<char>)
    ensures
        first_with_id(received_ids(Seq::<ReceivedView>::empty()), id) is None,
{
}

/// A preview is a prefix of its text, at most `n` characters long.
pub proof fn law_preview_is_prefix(s: Seq<char>, n: nat)
    ensures
        first_chars(s, n).len() <= n,
        first_chars(s, n).len() <= s.len(),
        first_chars(s, n) == s.take(first_chars(s, n).len() as int),
{
    if s.len() <= n {
        assert(s.take(s.len() as int) =~= s);
    }
}

/// A file name made safe holds no double quote, carriage return or line
/// feed, and is no longer than the name.
pub proof fn law_safe_filename(s: Seq<char>)
    ensures
        safe_filename(s).len() <= s.len(),
        forall|i: int|
            0 <= i < safe_filename(s).len() ==> {
                let c = #[trigger] safe_filename(s)[i];
                c != '"' && c != '\r' && c != '\n'
            },
    decreases s.len(),
{
    if s.len() > 0 {
        law_safe_filename(s.drop_last());
        let r = safe_filename(s.drop_last());
        assert forall|i: int| 0 <= i < safe_filename(s).len() implies {
            let c = #[trigger] safe_filename(s)[i];
            c != '"' && c != '\r' && c != '\n'
        } by {
            if i < r.len() {
                assert(safe_filename(s)[i] == r[i]);
            }
        }
    }
}

/// A physical LAN address lies in one of the private ranges `192.168.`,
/// `10.` or `172.`.
pub proof fn law_lan_ip_is_private(ip: Seq<char>)
    ensures
        is_lan_ip(ip) ==> starts_with(ip, "192.168."@) || starts_with(ip, "10."@) || starts_with(
            ip,
            "172."@,
        ),
{
}

/// The address list offered is never empty.
pub proof fn law_lan_list_nonempty(c: Seq<Seq<char>>)
    ensures
        lan_ip_list(c).len() > 0,
{
    if c.len() > 0 {
        law_ranked_permutation(c);
        assert(c.to_multiset().count(c[0]) > 0) by {
            c.to_multiset_ensures();
            assert(c.contains(c[0]));
        }
        if ranked(c).len() == 0 {
            assert(ranked(c) =~= Seq::<Seq<char>>::empty());
            ranked(c).to_multiset_ensures();
        }
    }
}

proof fn lemma_of_rank(c: Seq<Seq<char>>, k: int)
    ensures
        forall|i: int| 0 <= i < of_rank(c, k).len() ==> ip_rank(#[trigger] of_rank(c, k)[i]) == k,
        of_rank(c, k).len() <= c.len(),
    decreases c.len(),
{
    if c.len() > 0 {
        lemma_of_rank(c.drop_last(), k);
        let r = of_rank(c.drop_last(), k);
        if ip_rank(c.last()) == k {
            assert forall|i: int| 0 <= i < of_rank(c, k).len() implies ip_rank(
                #[trigger] of_rank(c, k)[i],
            ) == k by {
                if i < r.len() {
                    assert(of_rank(c, k)[i] == r[i]);
                }
            }
        }
    }
}

/// The addresses offered are ordered by preference.
pub proof fn law_ranked_sorted(c: Seq<Seq<char>>)
    ensures
        forall|i: int, j: int|
            0 <= i <= j < ranked(c).len() ==> ip_rank(#[trigger] ranked(c)[i]) <= ip_rank(
                #[trigger] ranked(c)[j],
            ),
{
    lemma_of_rank(c, 0);
    lemma_of_rank(c, 1);
    lemma_of_rank(c, 2);
    lemma_of_rank(c, 3);
    let a = of_rank(c, 0);
    let b = of_rank(c, 1);
    let d = of_rank(c, 2);
    let e = of_rank(c, 3);
    let r = ranked(c);
    assert(r == a + b + d + e);
    assert forall|i: int| 0 <= i < r.len() implies {
        let k: int = if i < a.len() {
            0
        } else if i < a.len() + b.len() {
            1
        } else if i < a.len() + b.len() + d.len() {
            2
        } else {
            3
        };
        ip_rank(#[trigger] r[i]) == k
    } by {
        if i < a.len() {
            assert(r[i] == a[i]);
        } else if i < a.len() + b.len() {
            assert(r[i] == b[i - a.len()]);
        } else if i < a.len() + b.len() + d.len() {
            assert(r[i] == d[i - a.len() - b.len()]);
        } else {
            assert(r[i] == e[i - a.len() - b.len() - d.len()]);
        }
    }
}

proof fn lemma_rank_cases(x: Seq<char>)
    ensures
        ip_rank(x) == 0 || ip_rank(x) == 1 || ip_rank(x) == 2 || ip_rank(x) == 3,
{
}

/// Sorting by preference neither drops nor adds an address.
pub proof fn law_ranked_permutation(c: Seq<Seq<char>>)
    ensures
        ranked(c).to_multiset() == c.to_multiset(),
    decreases c.len(),
{
    broadcast use vstd::seq_lib::group_to_multiset_ensures;

    if c.len() == 0 {
        assert(ranked(c) =~= Seq::<Seq<char>>::empty());
    } else {
        let p = c.drop_last();
        let x = c.last();
        law_ranked_permutation(p);
        assert(c =~= p.push(x));
        lemma_rank_cases(x);
        let a = of_rank(p, 0);
        let b = of_rank(p, 1);
        let d = of_rank(p, 2);
        let e = of_rank(p, 3);
        vstd::seq_lib::lemma_multiset_commutative(a, b);
        vstd::seq_lib::lemma_multiset_commutative(a + b, d);
        vstd::seq_lib::lemma_multiset_commutative(a + b + d, e);
        if ip_rank(x) == 0 {
            vstd::seq_lib::lemma_multiset_commutative(a.push(x), b);
            vstd::seq_lib::lemma_multiset_commutative(a.push(x) + b, d);
            vstd::seq_lib::lemma_multiset_commutative(a.push(x) + b + d, e);
        } else if ip_rank(x) == 1 {
            vstd::seq_lib::lemma_multiset_commutative(a, b.push(x));
            vstd::seq_lib::lemma_multiset_commutative(a + b.push(x), d);
            vstd::seq_lib::lemma_multiset_commutative(a + b.push(x) + d, e);
        } else if ip_rank(x) == 2 {
            vstd::seq_lib::lemma_multiset_commutative(a + b, d.push(x));
            vstd::seq_lib::lemma_multiset_commutative(a + b + d.push(x), e);
        } else {
            vstd::seq_lib::lemma_multiset_commutative(a + b + d, e.push(x));
        }
        assert(ranked(c).to_multiset() =~= c.to_multiset());
    }
}

/// The addresses read from `ifconfig` output are physical LAN addresses,
/// each listed once.
pub proof fn law_ifconfig_candidates_valid(text: Seq<char>)
    ensures
        forall|i: int|
            0 <= i < ifconfig_candidates(text).len() ==> is_lan_ip(
                #[trigger] ifconfig_candidates(text)[i],
            ),
        forall|i: int, j: int|
            0 <= i < j < ifconfig_candidates(text).len() ==> #[trigger] ifconfig_candidates(text)[i]
                != #[trigger] ifconfig_candidates(text)[j],
{
    lemma_scan_ifconfig(lines(text));
}

proof fn lemma_scan_ifconfig(ls: Seq<Seq<char>>)
    ensures
        forall|i: int|
            0 <= i < scan_ifconfig(ls).1.len() ==> is_lan_ip(#[trigger] scan_ifconfig(ls).1[i]),
        forall|i: int, j: int|
            0 <= i < j < scan_ifconfig(ls).1.len() ==> #[trigger] scan_ifconfig(ls).1[i]
                != #[trigger] scan_ifconfig(ls).1[j],
    decreases ls.len(),
{
    if ls.len() > 0 {
        lemma_scan_ifconfig(ls.drop_last());
        let st = scan_ifconfig(ls.drop_last());
        let f = st.1;
        let g = ifconfig_step(st, ls.last()).1;
        assert(g == scan_ifconfig(ls).1);
        lemma_step_keeps_valid(st, ls.last());
    }
}

proof fn lemma_step_keeps_valid(st: (Seq<char>, Seq<Seq<char>>), line: Seq<char>)
    requires
        forall|i: int| 0 <= i < st.1.len() ==> is_lan_ip(#[trigger] st.1[i]),
        forall|i: int, j: int| 0 <= i < j < st.1.len() ==> #[trigger] st.1[i] != #[trigger] st.1[j],
    ensures
        ({
            let g = ifconfig_step(st, line).1;
            &&& forall|i: int| 0 <= i < g.len() ==> is_lan_ip(#[trigger] g[i])
            &&& forall|i: int, j: int| 0 <= i < j < g.len() ==> #[trigger] g[i] != #[trigger] g[j]
        }),
{
    let f = st.1;
    let iface = st.0;
    let g = ifconfig_step(st, line).1;
    if is_indented(line) && iface.len() != 0 && !is_skipped_iface(iface) {
        if let Some(p) = find(line, "inet "@) {
            let ip = first_word(trim_start(line.skip(p + "inet "@.len())));
            if is_lan_ip(ip) && !f.contains(ip) {
                if is_primary_iface(iface) {
                    assert(g == seq![ip] + f);
                    assert forall|i: int, j: int| 0 <= i < j < g.len() implies #[trigger] g[i]
                        != #[trigger] g[j] by {
                        if i == 0 {
                            assert(g[j] == f[j - 1]);
                            assert(f.contains(f[j - 1]));
                        } else {
                            assert(g[i] == f[i - 1]);
                            assert(g[j] == f[j - 1]);
                        }
                    }
                    assert forall|i: int| 0 <= i < g.len() implies is_lan_ip(#[trigger] g[i]) by {
                        if i > 0 {
                            assert(g[i] == f[i - 1]);
                        }
                    }
                } else {
                    assert(g == f.push(ip));
                    assert forall|i: int, j: int| 0 <= i < j < g.len() implies #[trigger] g[i]
                        != #[trigger] g[j] by {
                        if j == f.len() {
                            assert(f.contains(f[i]));
                        }
                    }
                }
            }
        }
    }
}

/// The addresses read from `ipconfig` output are physical LAN addresses,
/// each listed once.
pub proof fn law_ipconfig_candidates_valid(text: Seq<char>)
    ensures
        forall|i: int|
            0 <= i < ipconfig_candidates(text).len() ==> is_lan_ip(
                #[trigger] ipconfig_candidates(text)[i],
            ),
        forall|i: int, j: int|
            0 <= i < j < ipconfig_candidates(text).len() ==> #[trigger] ipconfig_candidates(text)[i]
                != #[trigger] ipconfig_candidates(text)[j],
{
    lemma_scan_ipconfig(lines(text));
}

proof fn lemma_scan_ipconfig(ls: Seq<Seq<char>>)
    ensures
        forall|i: int| 0 <= i < scan_ipconfig(ls).len() ==> is_lan_ip(#[trigger] scan_ipconfig(ls)[i]),
        forall|i: int, j: int|
            0 <= i < j < scan_ipconfig(ls).len() ==> #[trigger] scan_ipconfig(ls)[i]
                != #[trigger] scan_ipconfig(ls)[j],
    decreases ls.len(),
{
    if ls.len() > 0 {
        lemma_scan_ipconfig(ls.drop_last());
        let f = scan_ipconfig(ls.drop_last());
        let line = ls.last();
        let g = ipconfig_step(f, line);
        assert(g == scan_ipconfig(ls));
        if is_address_line(line, lowercase_text(line)) {
            if let Some(c) = rfind_char(line, ':') {
                let ip = trim(line.skip(c + 1));
                if is_lan_ip(ip) && !f.contains(ip) {
                    assert(g == f.push(ip));
                    assert forall|i: int, j: int| 0 <= i < j < g.len() implies #[trigger] g[i]
                        != #[trigger] g[j] by {
                        if j == f.len() {
                            assert(f.contains(f[i]));
                        }
                    }
                }
            }
        }
    }
}

proof fn lemma_trim_start_char(s: Seq<char>, c: char)
    ensures
        trim_start_char(s, c).len() == 0 || trim_start_char(s, c)[0] != c,
    decreases s.len(),
{
    if s.len() > 0 && s[0] == c {
        lemma_trim_start_char(s.drop_first(), c);
    }
}

proof fn lemma_trim_end_char(s: Seq<char>, c: char)
    ensures
        trim_end_char(s, c).len() <= s.len(),
        trim_end_char(s, c) == s.take(trim_end_char(s, c).len() as int),
        trim_end_char(s, c).len() == 0 || trim_end_char(s, c).last() != c,
    decreases s.len(),
{
    if s.len() > 0 && s.last() == c {
        lemma_trim_end_char(s.drop_last(), c);
        let t = trim_end_char(s.drop_last(), c);
        assert(s.drop_last().take(t.len() as int) =~= s.take(t.len() as int));
    } else {
        assert(s.take(s.len() as int) =~= s);
    }
}

proof fn lemma_boundary_among(pieces: Seq<Seq<char>>)
    ensures
        boundary_among(pieces) matches Some(b) ==> b.len() == 0 || (b[0] != '"' && b.last()
            != '"'),
    decreases pieces.len(),
{
    if pieces.len() > 0 {
        let part = trim(pieces[0]);
        if starts_with(part, "boundary="@) {
            let v = trim(part.skip("boundary="@.len() as int));
            lemma_trim_start_char(v, '"');
            let t = trim_start_char(v, '"');
            lemma_trim_end_char(t, '"');
            let b = trim_end_char(t, '"');
            if b.len() > 0 {
                assert(b[0] == t[0]);
            }
        } else {
            lemma_boundary_among(pieces.drop_first());
        }
    }
}

/// A boundary read from a header never keeps surrounding double quotes.
pub proof fn law_boundary_unquoted(content_type: Seq<char>)
    ensures
        boundary_of(content_type) matches Some(b) ==> b.len() == 0 || (b[0] != '"' && b.last()
            != '"'),
{
    lemma_boundary_among(split(content_type, ';'));
}

/// A static file is only ever served from under the asset directory: its
/// path is relative (non-empty, no leading slash), no run of its leading
/// segments climbs above the directory, and on Windows it neither starts at
/// the root of a drive nor names a drive; any other static request is
/// refused.
pub proof fn law_static_route_stays_inside(m: Method, path: Seq<char>, style: PathStyle)
    ensures
        route_for(m, path, style) matches RouteView::Static(t) ==> {
            &&& t.len() > 0
            &&& t[0] != '/'
            &&& forall|k: int|
                0 <= k <= split(slashed(t, style), '/').len() ==> depth_after(
                    #[trigger] split(slashed(t, style), '/').take(k),
                ) >= 0
            &&& style == PathStyle::Windows ==> t[0] != '\\' && !drive_prefix(t)
        },
        route_for(m, path, style) is Refused ==> leaves_assets(static_target(path), style),
{
    lemma_trim_start_char(path, '/');
    let clean = trim_start_char(path, '/');
    if clean.len() == 0 || clean == "/"@ {
        reveal_strlit("index.html");
    }
}

proof fn lemma_parts_from_len(body: Seq<u8>, d: Seq<u8>, idx: Seq<int>, k: int)
    requires
        0 <= k,
    ensures
        parts_from(body, d, idx, k).len() + k + 1 <= idx.len() || parts_from(body, d, idx, k).len()
            == 0,
    decreases idx.len() - k,
{
    if !(k + 1 >= idx.len()) && !closes_at(body, idx[k] + d.len()) {
        lemma_parts_from_len(body, d, idx, k + 1);
    }
}

/// A body holds fewer parts than delimiter lines: each part lies between
/// two of them.
pub proof fn law_parts_between_delimiters(body: Seq<u8>, boundary: Seq<char>)
    ensures
        multipart_parts(body, boundary).len() == 0 || multipart_parts(body, boundary).len() + 1
            <= delimiters(body, delimiter_of(boundary)).len(),
{
    let d = delimiter_of(boundary);
    lemma_parts_from_len(body, d, delimiters(body, d), 0);
}

/// Bytes without a percent sign come out of percent-decoding unchanged.
pub proof fn law_percent_plain(b: Seq<u8>)
    requires
        forall|i: int| 0 <= i < b.len() ==> b[i] != 37u8,
    ensures
        percent_decoded(b) == b,
    decreases b.len(),
{
    if b.len() > 0 {
        law_percent_plain(b.drop_first());
        assert(seq![b[0]] + b.drop_first() =~= b);
    }
}

/// A note sent as JSON is stored as the UTF-8 bytes of its text, which
/// decode back to that text.
pub proof fn law_json_note_keeps_text(
    fields: (Seq<char>, Seq<char>, Seq<char>),
    id: Seq<char>,
    now: u64,
    sender: Seq<char>,
)
    ensures
        json_item(fields, id, now, sender).data == encode_utf8(fields.0),
        decode_utf8(json_item(fields, id, now, sender).data) == fields.0,
{
    vstd::utf8::encode_utf8_decode_utf8(fields.0);
}

proof fn lemma_note_items_len(ps: Seq<PartView>, ids: Seq<Seq<char>>, t: Seq<char>, now: u64, s: Seq<char>)
    ensures
        note_items(ps, ids, t, now, s).len() == count_notes(ps),
    decreases ps.len(),
{
    if ps.len() > 0 {
        if is_note_part(ps.last()) {
            lemma_note_items_len(ps.drop_last(), ids.drop_last(), t, now, s);
        } else {
            lemma_note_items_len(ps.drop_last(), ids, t, now, s);
        }
    }
}

proof fn lemma_file_items_len(ps: Seq<PartView>, ids: Seq<Seq<char>>, t: Seq<char>, now: u64, s: Seq<char>)
    ensures
        file_items(ps, ids, t, now, s).len() == count_files(ps),
    decreases ps.len(),
{
    if ps.len() > 0 {
        if is_file_part(ps.last()) {
            lemma_file_items_len(ps.drop_last(), ids.drop_last(), t, now, s);
        } else {
            lemma_file_items_len(ps.drop_last(), ids, t, now, s);
        }
    }
}

/// A form upload makes one item per note part and one per file part, so
/// it answers with exactly as many ids as it stored items.
pub proof fn law_form_items_count(ps: Seq<PartView>, ids: Seq<Seq<char>>, now: u64, sender: Seq<char>)
    ensures
        form_items(ps, ids, now, sender).len() == count_notes(ps) + count_files(ps),
{
    let n = count_notes(ps) as int;
    lemma_note_items_len(ps, ids.take(n), upload_target(ps), now, sender);
    lemma_file_items_len(ps, ids.skip(n), upload_target(ps), now, sender);
}

proof fn lemma_ends_with_after(p: Seq<char>, s: Seq<char>, x: Seq<char>)
    requires
        x.len() <= s.len(),
    ensures
        ends_with(p + s, x) == ends_with(s, x),
{
    assert((p + s).skip((p + s).len() - x.len()) =~= s.skip(s.len() - x.len()));
}

/// The content type depends on the last five characters of the path only:
/// whatever precedes a suffix of five or more characters, the type is that
/// of the suffix.
pub proof fn law_mime_by_last_five(p: Seq<char>, s: Seq<char>)
    requires
        s.len() >= 5,
    ensures
        mime_for(p + s) == mime_for(s),
{
    reveal_strlit("+esm");
    reveal_strlit(".mjs");
    reveal_strlit(".js");
    reveal_strlit(".wasm");
    reveal_strlit(".html");
    reveal_strlit(".htm");
    reveal_strlit(".css");
    reveal_strlit(".json");
    reveal_strlit(".tar");
    reveal_strlit(".png");
    reveal_strlit(".jpg");
    reveal_strlit(".jpeg");
    reveal_strlit(".svg");
    lemma_ends_with_after(p, s, "+esm"@);
    lemma_ends_with_after(p, s, ".mjs"@);
    lemma_ends_with_after(p, s, ".js"@);
    lemma_ends_with_after(p, s, ".wasm"@);
    lemma_ends_with_after(p, s, ".html"@);
    lemma_ends_with_after(p, s, ".htm"@);
    lemma_ends_with_after(p, s, ".css"@);
    lemma_ends_with_after(p, s, ".json"@);
    lemma_ends_with_after(p, s, ".tar"@);
    lemma_ends_with_after(p, s, ".png"@);
    lemma_ends_with_after(p, s, ".jpg"@);
    lemma_ends_with_after(p, s, ".jpeg"@);
    lemma_ends_with_after(p, s, ".svg"@);
}

/// `16^n`.
spec fn pow16(n: nat) -> nat
    decreases n,
{
    if n == 0 {
        1
    } else {
        16 * pow16((n - 1) as nat)
    }
}

proof fn lemma_hex_digit_injective(a: int, b: int)
    requires
        0 <= a < 16,
        0 <= b < 16,
        hex_digit(a) == hex_digit(b),
    ensures
        a == b,
{
    assert(a < 10 ==> hex_digit(a) as u32 == 48 + a);
    assert(a >= 10 ==> hex_digit(a) as u32 == 87 + a);
    assert(b < 10 ==> hex_digit(b) as u32 == 48 + b);
    assert(b >= 10 ==> hex_digit(b) as u32 == 87 + b);
}

/// Distinct numbers below `16^n` have distinct `n`-digit spellings.
proof fn lemma_hex_digits_injective(x: nat, y: nat, n: nat)
    requires
        x < pow16(n),
        y < pow16(n),
        hex_digits(x, n) == hex_digits(y, n),
    ensures
        x == y,
    decreases n,
{
    if n > 0 {
        let hx = hex_digits(x, n);
        let hy = hex_digits(y, n);
        assert(hx.drop_last() =~= hex_digits(x / 16, (n - 1) as nat));
        assert(hy.drop_last() =~= hex_digits(y / 16, (n - 1) as nat));
        assert(hx.last() == hex_digit((x % 16) as int));
        assert(hy.last() == hex_digit((y % 16) as int));
        lemma_hex_digit_injective((x % 16) as int, (y % 16) as int);
        lemma_hex_digits_injective(x / 16, y / 16, (n - 1) as nat);
    }
}

proof fn lemma_low_half(n: u64, a: u64, b: u64)
    by (bit_vector)
    requires
        (n ^ a) & 0xffff_ffffu64 == (n ^ b) & 0xffff_ffffu64,
    ensures
        a % 0x1_0000_0000u64 == b % 0x1_0000_0000u64,
{
}

proof fn lemma_masked_small(x: u64)
    by (bit_vector)
    ensures
        x & 0xffff_ffffu64 < 0x1_0000_0000u64,
{
}

/// The low 32 bits of `count * ID_MIX` are those of the low 32 bits of
/// `count` times the low 32 bits of `ID_MIX`.
proof fn lemma_mix_low_half(j: u64)
    ensures
        wrapping_mul(j, ID_MIX) as int % 0x1_0000_0000 == ((j as int % 0x1_0000_0000)
            * 0x27220a95) % 0x1_0000_0000,
{
    let m: int = 0x1_0000_0000;
    let p: int = j as int * ID_MIX as int;
    assert(m * m == 0x1_0000_0000_0000_0000);
    assert(wrapping_mul(j, ID_MIX) as int == p % (m * m));
    lemma_mod_mod(p, m, m);
    lemma_mul_mod_noop_general(j as int, ID_MIX as int, m);
    assert(ID_MIX as int % m == 0x27220a95);
}

/// Multiplying by the odd number `0x27220a95` is one-to-one modulo `2^32`:
/// `0x780970bd` undoes it.
proof fn lemma_mix_injective(x: int, y: int)
    requires
        0 <= x < 0x1_0000_0000,
        0 <= y < 0x1_0000_0000,
        (x * 0x27220a95) % 0x1_0000_0000 == (y * 0x27220a95) % 0x1_0000_0000,
    ensures
        x == y,
{
    let m: int = 0x1_0000_0000;
    let c: int = 0x27220a95;
    let inv: int = 0x780970bd;
    assert(c * inv == m * 307848804 + 1);
    lemma_mul_mod_noop_left(x * c, inv, m);
    lemma_mul_mod_noop_left(y * c, inv, m);
    lemma_mul_is_associative(x, c, inv);
    lemma_mul_is_associative(y, c, inv);
    assert(x * (c * inv) == m * (x * 307848804) + x) by (nonlinear_arith)
        requires
            c * inv == m * 307848804 + 1,
    ;
    assert(y * (c * inv) == m * (y * 307848804) + y) by (nonlinear_arith)
        requires
            c * inv == m * 307848804 + 1,
    ;
    lemma_mod_multiples_vanish(x * 307848804, x, m);
    lemma_mod_multiples_vanish(y * 307848804, y, m);
}

/// Two ids made from the same clock reading with counter values that
/// differ modulo `2^32` are different.
pub proof fn law_ids_differ_by_count(nanos: u128, j: u64, k: u64)
    requires
        j % 0x1_0000_0000 != k % 0x1_0000_0000,
    ensures
        id_text(nanos, j) != id_text(nanos, k),
{
    if id_text(nanos, j) == id_text(nanos, k) {
        let n = nanos as u64;
        let a = wrapping_mul(j, ID_MIX);
        let b = wrapping_mul(k, ID_MIX);
        lemma_masked_small(n ^ a);
        lemma_masked_small(n ^ b);
        assert(pow16(8) == 0x1_0000_0000) by {
            reveal_with_fuel(pow16, 9);
        }
        lemma_hex_digits_injective(id_value(nanos, j) as nat, id_value(nanos, k) as nat, 8);
        lemma_low_half(n, a, b);
        lemma_mix_low_half(j);
        lemma_mix_low_half(k);
        lemma_mix_injective(j as int % 0x1_0000_0000, k as int % 0x1_0000_0000);
    }
}

proof fn lemma_trim_start(s: Seq<char>)
    ensures
        trim_start(s).len() == 0 || !is_ws(trim_start(s)[0]),
    decreases s.len(),
{
    if s.len() > 0 && is_ws(s[0]) {
        lemma_trim_start(s.drop_first());
    }
}

proof fn lemma_trim_end(s: Seq<char>)
    ensures
        trim_end(s).len() <= s.len(),
        trim_end(s) == s.take(trim_end(s).len() as int),
        trim_end(s).len() == 0 || !is_ws(trim_end(s).last()),
    decreases s.len(),
{
    if s.len() > 0 && is_ws(s.last()) {
        lemma_trim_end(s.drop_last());
        let t = trim_end(s.drop_last());
        assert(s.drop_last().take(t.len() as int) =~= s.take(t.len() as int));
    } else {
        assert(s.take(s.len() as int) =~= s);
    }
}

/// Text that trimming leaves alone neither starts nor ends with whitespace.
proof fn lemma_trimmed_edges(s: Seq<char>)
    requires
        trim(s) == s,
        s.len() > 0,
    ensures
        !is_ws(s[0]),
        !is_ws(s.last()),
{
    lemma_trim_start(s);
    lemma_trim_end(trim_start(s));
    assert(trim_start(s)[0] == s[0]);
}

/// Text that trimming `c` leaves alone neither starts nor ends with `c`.
proof fn lemma_trimmed_char_edges(s: Seq<char>, c: char)
    requires
        trim_char(s, c) == s,
        s.len() > 0,
    ensures
        s[0] != c,
        s.last() != c,
{
    lemma_trim_start_char(s, c);
    lemma_trim_end_char(trim_start_char(s, c), c);
    assert(trim_start_char(s, c)[0] == s[0]);
}

/// Text whose ends are not whitespace is its own trim.
proof fn lemma_trim_fixed(s: Seq<char>)
    requires
        s.len() > 0,
        !is_ws(s[0]),
        !is_ws(s.last()),
    ensures
        trim(s) == s,
{
    assert(trim_start(s) == s);
}

/// The boundary read back from `multipart/form-data; boundary=` followed by
/// `v`, where `v` holds no `;`, neither starts nor ends with whitespace, and
/// gives `b` once surrounding double quotes are removed.
proof fn lemma_boundary_of_written(v: Seq<char>, b: Seq<char>)
    requires
        !v.contains(';'),
        v.len() > 0 ==> !is_ws(v[0]) && !is_ws(v.last()),
        trim_char(v, '"') == b,
    ensures
        boundary_of("multipart/form-data; boundary="@ + v) == Some(b),
{
    reveal_strlit("multipart/form-data; boundary=");
    reveal_strlit("multipart/form-data");
    reveal_strlit(" boundary=");
    reveal_strlit("boundary=");
    let a = "multipart/form-data"@;
    let k = "boundary="@;
    let w = " boundary="@ + v;
    assert("multipart/form-data; boundary="@ + v =~= (a + seq![';']) + w);
    assert(!a.contains(';')) by {
        if a.contains(';') {
            let i = choose|i: int| 0 <= i < a.len() && a[i] == ';';
            assert(a[i] != ';');
        }
    }
    assert(!w.contains(';')) by {
        if w.contains(';') {
            let i = choose|i: int| 0 <= i < w.len() && w[i] == ';';
            if i >= 10 {
                assert(v[i - 10] == ';');
            }
        }
    }
    lemma_split_single(a, ';');
    assert((a + seq![';']).drop_last() =~= a);
    assert(split(a + seq![';'], ';') == seq![a].push(Seq::<char>::empty()));
    lemma_split_append(a + seq![';'], w, ';');
    let pieces = split((a + seq![';']) + w, ';');
    assert(Seq::<char>::empty() + w =~= w);
    assert(pieces =~= seq![a, w]);
    lemma_trim_fixed(a);
    assert(!starts_with(a, k)) by {
        assert(a.take(9)[0] != k[0]);
    }
    let kv = k + v;
    assert(w.drop_first() =~= kv);
    assert(trim_start(w) == trim_start(kv));
    assert(trim_start(kv) == kv);
    assert(kv.last() == if v.len() > 0 { v.last() } else { '=' });
    assert(trim_end(kv) == kv);
    assert(trim(w) == kv);
    assert(kv.take(9) =~= k);
    assert(kv.skip(9) =~= v);
    if v.len() > 0 {
        lemma_trim_fixed(v);
    }
    assert(trim(v) == v);
    assert(pieces.drop_first() =~= seq![w]);
    assert(boundary_among(seq![w]) == Some(b));
}

/// A boundary written into a `Content-Type` header, bare or in double
/// quotes, is read back unchanged, when it holds no `;` and trimming
/// whitespace or double quotes leaves it alone.
pub proof fn law_boundary_round_trip(b: Seq<char>)
    requires
        !b.contains(';'),
        trim(b) == b,
        trim_char(b, '"') == b,
    ensures
        boundary_of("multipart/form-data; boundary="@ + b) == Some(b),
        boundary_of("multipart/form-data; boundary="@ + ("\""@ + b + "\""@)) == Some(b),
{
    reveal_strlit("\"");
    let q = "\""@;
    if b.len() > 0 {
        lemma_trimmed_edges(b);
        lemma_trimmed_char_edges(b, '"');
    }
    lemma_boundary_of_written(b, b);
    let v = q + b + q;
    assert(!v.contains(';')) by {
        if v.contains(';') {
            let i = choose|i: int| 0 <= i < v.len() && v[i] == ';';
            if 1 <= i <= b.len() {
                assert(b[i - 1] == ';');
            }
        }
    }
    assert(v.drop_first() =~= b + q);
    assert(trim_start_char(v, '"') == trim_start_char(b + q, '"'));
    if b.len() > 0 {
        assert((b + q)[0] == b[0]);
        assert(trim_start_char(b + q, '"') == b + q);
        assert((b + q).drop_last() =~= b);
        assert(trim_end_char(b + q, '"') == trim_end_char(b, '"'));
        lemma_trim_start_char(b, '"');
        assert(trim_start_char(b, '"') == b);
        assert(trim_char(v, '"') == b);
    } else {
        assert(b + q =~= q);
        assert(q.drop_first() =~= Seq::<char>::empty());
        assert(trim_start_char(Seq::<char>::empty(), '"') == Seq::<char>::empty());
        assert(trim_start_char(q, '"') == trim_start_char(q.drop_first(), '"'));
        assert(trim_char(v, '"') =~= b);
    }
    lemma_boundary_of_written(v, b);
}

/// A suffix of ASCII text that is longer than `s` cannot end `p + s` when
/// `s` holds a character outside ASCII; shorter ones end `p + s` as they end
/// `s`.
proof fn lemma_ends_with_after_bytes(p: Seq<char>, s: Seq<char>, x: Seq<char>, i: int)
    requires
        forall|k: int| 0 <= k < x.len() ==> (#[trigger] x[k] as u32) < 128,
        x.len() <= s.len() || (0 <= i < s.len() && (s[i] as u32) >= 128),
    ensures
        ends_with(p + s, x) == ends_with(s, x),
{
    if x.len() <= s.len() {
        lemma_ends_with_after(p, s, x);
    } else if ends_with(p + s, x) {
        let ps = p + s;
        let j = x.len() - s.len() + i;
        assert(ps.skip(ps.len() - x.len())[j] == ps[p.len() + i]);
        assert(ps[p.len() + i] == s[i]);
        assert((x[j] as u32) < 128);
    }
}

/// The content type depends on the last five bytes of the path only: the
/// same holds for a suffix of at least five bytes in UTF-8, though it may
/// be fewer than five characters.
pub proof fn law_mime_by_last_five_bytes(p: Seq<char>, s: Seq<char>)
    requires
        encode_utf8(s).len() >= 5,
    ensures
        mime_for(p + s) == mime_for(s),
{
    if s.len() >= 5 {
        law_mime_by_last_five(p, s);
    } else {
        if forall|k: int| 0 <= k < s.len() ==> (#[trigger] s[k] as u32) < 128 {
            lemma_encode_ascii(s);
        }
        let i = choose|k: int| 0 <= k < s.len() && (#[trigger] s[k] as u32) >= 128;
    reveal_strlit("+esm");
    reveal_strlit(".mjs");
    reveal_strlit(".js");
    reveal_strlit(".wasm");
    reveal_strlit(".html");
    reveal_strlit(".htm");
    reveal_strlit(".css");
    reveal_strlit(".json");
    reveal_strlit(".tar");
    reveal_strlit(".png");
    reveal_strlit(".jpg");
    reveal_strlit(".jpeg");
    reveal_strlit(".svg");
    lemma_ends_with_after_bytes(p, s, "+esm"@, i);
    lemma_ends_with_after_bytes(p, s, ".mjs"@, i);
    lemma_ends_with_after_bytes(p, s, ".js"@, i);
    lemma_ends_with_after_bytes(p, s, ".wasm"@, i);
    lemma_ends_with_after_bytes(p, s, ".html"@, i);
    lemma_ends_with_after_bytes(p, s, ".htm"@, i);
    lemma_ends_with_after_bytes(p, s, ".css"@, i);
    lemma_ends_with_after_bytes(p, s, ".json"@, i);
    lemma_ends_with_after_bytes(p, s, ".tar"@, i);
    lemma_ends_with_after_bytes(p, s, ".png"@, i);
    lemma_ends_with_after_bytes(p, s, ".jpg"@, i);
    lemma_ends_with_after_bytes(p, s, ".jpeg"@, i);
    lemma_ends_with_after_bytes(p, s, ".svg"@, i);
    }
}

/// A note is made of each part named `text` that holds bytes, and of no
/// other part: a form makes exactly as many note items as it has such
/// parts, each keeping that part's bytes, in order, under the note's file
/// name; an empty `text` part (the note box left blank) makes none.
pub proof fn law_notes_from_text_parts(
    ps: Seq<PartView>,
    ids: Seq<Seq<char>>,
    target: Seq<char>,
    now: u64,
    sender: Seq<char>,
)
    ensures
        ({
            let texts = ps.filter(|p: PartView| p.name == "text"@ && p.data.len() > 0);
            let notes = note_items(ps, ids, target, now, sender);
            &&& notes.len() == texts.len()
            &&& count_notes(ps) == texts.len()
            &&& forall|i: int|
                0 <= i < notes.len() ==> (#[trigger] notes[i]).data == texts[i].data && notes[i].name
                    == "手机便签.txt"@ && notes[i].size == texts[i].data.len() as usize
        }),
    decreases ps.len(),
{
    reveal(Seq::filter);
    let f = |p: PartView| p.name == "text"@ && p.data.len() > 0;
    assert(f =~= (|p: PartView| p.name == "text"@ && p.data.len() > 0));
    let texts = ps.filter(f);
    let notes = note_items(ps, ids, target, now, sender);
    if ps.len() > 0 {
        let last = ps.last();
        let rest = ps.drop_last();
        let texts0 = rest.filter(f);
        if f(last) {
            law_notes_from_text_parts(rest, ids.drop_last(), target, now, sender);
            let notes0 = note_items(rest, ids.drop_last(), target, now, sender);
            assert(texts == texts0.push(last));
            assert(notes == notes0.push(note_item(last, ids.last(), target, now, sender)));
            assert forall|i: int| 0 <= i < notes.len() implies (#[trigger] notes[i]).data
                == texts[i].data && notes[i].name == "手机便签.txt"@ && notes[i].size
                == texts[i].data.len() as usize by {
                if i < notes0.len() {
                    assert(notes[i] == notes0[i]);
                    assert(texts[i] == texts0[i]);
                }
            }
        } else {
            law_notes_from_text_parts(rest, ids, target, now, sender);
            assert(texts == texts0);
            assert(notes == note_items(rest, ids, target, now, sender));
        }
    }
}

/// How an uploaded file is categorised, from its content type and its
/// lowercased name: an `image/` type or an image suffix (`.png`, `.jpg`,
/// `.jpeg`, `.webp`, `.bmp`, `.gif`) makes an image; otherwise the type
/// `application/pdf` or the suffix `.pdf` makes a pdf; otherwise a text
/// suffix (`.txt`, `.md`, `.json`, `.log`, `.csv`) makes text; anything else
/// is a plain file.
pub proof fn law_file_category_table(mime: Seq<char>, lower_name: Seq<char>)
    ensures
        ({
            let image = starts_with(mime, "image/"@) || ends_with(lower_name, ".png"@) || ends_with(
                lower_name,
                ".jpg"@,
            ) || ends_with(lower_name, ".jpeg"@) || ends_with(lower_name, ".webp"@) || ends_with(
                lower_name,
                ".bmp"@,
            ) || ends_with(lower_name, ".gif"@);
            let pdf = mime == "application/pdf"@ || ends_with(lower_name, ".pdf"@);
            let text = ends_with(lower_name, ".txt"@) || ends_with(lower_name, ".md"@) || ends_with(
                lower_name,
                ".json"@,
            ) || ends_with(lower_name, ".log"@) || ends_with(lower_name, ".csv"@);
            &&& image ==> file_category(mime, lower_name) == "image"@
            &&& !image && pdf ==> file_category(mime, lower_name) == "pdf"@
            &&& !image && !pdf && text ==> file_category(mime, lower_name) == "text"@
            &&& !image && !pdf && !text ==> file_category(mime, lower_name) == "file"@
        }),
{
}

/// A file name is made safe by writing each double quote as `_` and
/// dropping each carriage return and line feed, every other character kept
/// in order.
pub proof fn law_safe_filename_exact(s: Seq<char>)
    ensures
        safe_filename(s) == s.filter(|c: char| c != '\r' && c != '\n').map_values(
            |c: char| if c == '"' { '_' } else { c },
        ),
    decreases s.len(),
{
    reveal(Seq::filter);
    if s.len() > 0 {
        law_safe_filename_exact(s.drop_last());
        let f0 = s.drop_last().filter(|c: char| c != '\r' && c != '\n');
        let f = s.filter(|c: char| c != '\r' && c != '\n');
        let m0 = f0.map_values(|c: char| if c == '"' { '_' } else { c });
        let m = f.map_values(|c: char| if c == '"' { '_' } else { c });
        let x = s.last();
        if x != '\r' && x != '\n' {
            assert(f == f0.push(x));
            assert(m =~= m0.push(if x == '"' { '_' } else { x }));
        } else {
            assert(f == f0);
        }
    } else {
        assert(s.filter(|c: char| c != '\r' && c != '\n').map_values(
            |c: char| if c == '"' { '_' } else { c },
        ) =~= Seq::<char>::empty());
    }
}

/// A name without double quotes, carriage returns or line feeds is its own
/// safe name.
pub proof fn law_safe_filename_keeps_plain(s: Seq<char>)
    requires
        forall|i: int| 0 <= i < s.len() ==> #[trigger] s[i] != '"' && s[i] != '\r' && s[i] != '\n',
    ensures
        safe_filename(s) == s,
    decreases s.len(),
{
    if s.len() > 0 {
        assert(s.last() == s[s.len() - 1]);
        law_safe_filename_keeps_plain(s.drop_last());
        assert(s.drop_last().push(s.last()) =~= s);
    }
}

/// An address line of `ifconfig` output under an interface whose
/// lowercased name starts with `utun`, `tun`, `tap`, `lo`, `docker`, `br-`,
/// `veth`, `p2p`, `awdl` or `llw` adds no candidate: the scan's state is
/// left as it was.
pub proof fn law_ifconfig_skips_virtual(st: (Seq<char>, Seq<Seq<char>>), line: Seq<char>)
    requires
        is_indented(line),
        starts_with(st.0, "utun"@) || starts_with(st.0, "tun"@) || starts_with(st.0, "tap"@)
            || starts_with(st.0, "lo"@) || starts_with(st.0, "docker"@) || starts_with(st.0, "br-"@)
            || starts_with(st.0, "veth"@) || starts_with(st.0, "p2p"@) || starts_with(st.0, "awdl"@)
            || starts_with(st.0, "llw"@),
    ensures
        ifconfig_step(st, line) == st,
{
}

/// A shared file is stored under the content type its part declares, and
/// under `application/octet-stream` only when the part declares none; it
/// keeps the part's bytes.
pub proof fn law_shared_mimetype(p: PartView, id: Seq<char>, now: u64)
    ensures
        p.content_type matches Some(c) ==> shared_item(p, id, now).mimetype == c,
        p.content_type is None ==> shared_item(p, id, now).mimetype == "application/octet-stream"@,
        shared_item(p, id, now).data == p.data,
        shared_item(p, id, now).size == p.data.len() as usize,
{
}

/// A file item is made of each part named `files` or carrying a file name
/// that holds bytes, and of no other part: as many items as such parts, in
/// order, each keeping the part's bytes, stored under the part's file name
/// (`unnamed_file` without one) and its declared content type
/// (`application/octet-stream` without one).
pub proof fn law_files_from_file_parts(
    ps: Seq<PartView>,
    ids: Seq<Seq<char>>,
    target: Seq<char>,
    now: u64,
    sender: Seq<char>,
)
    ensures
        ({
            let fs = ps.filter(
                |p: PartView| (p.name == "files"@ || p.filename is Some) && p.data.len() > 0,
            );
            let items = file_items(ps, ids, target, now, sender);
            &&& items.len() == fs.len()
            &&& count_files(ps) == fs.len()
            &&& forall|i: int|
                0 <= i < items.len() ==> {
                    &&& (#[trigger] items[i]).data == fs[i].data
                    &&& items[i].name == (match fs[i].filename {
                        Some(n) => n,
                        None => "unnamed_file"@,
                    })
                    &&& items[i].mimetype == (match fs[i].content_type {
                        Some(c) => c,
                        None => "application/octet-stream"@,
                    })
                }
        }),
    decreases ps.len(),
{
    reveal(Seq::filter);
    let f = |p: PartView| (p.name == "files"@ || p.filename is Some) && p.data.len() > 0;
    assert(f =~= (|p: PartView| (p.name == "files"@ || p.filename is Some) && p.data.len() > 0));
    let fs = ps.filter(f);
    let items = file_items(ps, ids, target, now, sender);
    if ps.len() > 0 {
        let last = ps.last();
        let rest = ps.drop_last();
        let fs0 = rest.filter(f);
        if f(last) {
            law_files_from_file_parts(rest, ids.drop_last(), target, now, sender);
            let items0 = file_items(rest, ids.drop_last(), target, now, sender);
            assert(fs == fs0.push(last));
            assert(items == items0.push(file_item(last, ids.last(), target, now, sender)));
            assert forall|i: int| 0 <= i < items.len() implies {
                &&& (#[trigger] items[i]).data == fs[i].data
                &&& items[i].name == (match fs[i].filename {
                    Some(n) => n,
                    None => "unnamed_file"@,
                })
                &&& items[i].mimetype == (match fs[i].content_type {
                    Some(c) => c,
                    None => "application/octet-stream"@,
                })
            } by {
                if i < items0.len() {
                    assert(items[i] == items0[i]);
                    assert(fs[i] == fs0[i]);
                }
            }
        } else {
            law_files_from_file_parts(rest, ids, target, now, sender);
            assert(fs == fs0);
            assert(items == file_items(rest, ids, target, now, sender));
        }
    }
}

/// A share takes the first part named `file` or carrying a file name that
/// holds bytes; there is none exactly when no part is such.
#[verifier::spinoff_prover]
pub proof fn law_share_takes_first_file_part(ps: Seq<PartView>)
    ensures
        first_share_part(ps) is None <==> forall|i: int|
            0 <= i < ps.len() ==> !(((#[trigger] ps[i]).name == "file"@ || ps[i].filename is Some)
                && ps[i].data.len() > 0),
        first_share_part(ps) matches Some(p) ==> exists|i: int|
            0 <= i < ps.len() && #[trigger] ps[i] == p && (p.name == "file"@ || p.filename is Some)
                && p.data.len() > 0 && forall|j: int|
                0 <= j < i ==> !(((#[trigger] ps[j]).name == "file"@ || ps[j].filename is Some)
                    && ps[j].data.len() > 0),
    decreases ps.len(),
{
    if ps.len() > 0 {
        let r = ps.drop_first();
        law_share_takes_first_file_part(r);
        if is_share_part(ps[0]) {
            assert(first_share_part(ps) == Some(ps[0]));
        } else {
            assert(first_share_part(ps) == first_share_part(r));
            match first_share_part(r) {
                None => {
                    assert forall|i: int| 0 <= i < ps.len() implies !(((#[trigger] ps[i]).name
                        == "file"@ || ps[i].filename is Some) && ps[i].data.len() > 0) by {
                        if i > 0 {
                            let q = r[i - 1];
                            assert(ps[i] == q);
                            assert(!((q.name == "file"@ || q.filename is Some) && q.data.len() > 0));
                        }
                    }
                },
                Some(p) => {
                    let k = choose|k: int|
                        0 <= k < r.len() && #[trigger] r[k] == p && (p.name == "file"@
                            || p.filename is Some) && p.data.len() > 0 && forall|j: int|
                            0 <= j < k ==> !(((#[trigger] r[j]).name == "file"@ || r[j].filename is Some)
                                && r[j].data.len() > 0);
                    assert(ps[k + 1] == p);
                    assert forall|j: int| 0 <= j < k + 1 implies !(((#[trigger] ps[j]).name == "file"@
                        || ps[j].filename is Some) && ps[j].data.len() > 0) by {
                        if j > 0 {
                            assert(ps[j] == r[j - 1]);
                        }
                    }
                },
            }
        }
    }
}

} // verus!
