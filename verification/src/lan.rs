//! Choosing the LAN addresses that the phone page is offered: which IPv4
//! addresses count as a physical LAN address, reading them out of
//! `ifconfig` / `ipconfig` output, and their order of preference.

use vstd::prelude::*;
use vstd::utf8::{decode_utf8, valid_utf8};
use crate::text::{
    chars_of, chars_of_all, contains_chars, find, find_exec, first_word, first_word_exec,
    lines, lines_exec, rfind_char, rfind_char_exec, slice_of, split, split_exec, starts_with,
    starts_with_exec, string_views, strings_of_all, trim, trim_exec, trim_start, trim_start_exec,
    views, same, lemma_find_from, lemma_rfind_char,
};
use crate::external::{lossy_text, lowercase_text, string_from_chars, to_lowercase, utf8_decode, utf8_lossy};

verus! {

pub open spec fn is_digit(c: char) -> bool {
    48 <= (c as u32) && (c as u32) <= 57
}

pub open spec fn all_digits(s: Seq<char>) -> bool {
    forall|i: int| 0 <= i < s.len() ==> is_digit(#[trigger] s[i])
}

/// The number that a string of decimal digits spells.
pub open spec fn decimal_value(s: Seq<char>) -> int
    decreases s.len(),
{
    if s.len() == 0 {
        0
    } else {
        decimal_value(s.drop_last()) * 10 + ((s.last() as u32) - 48)
    }
}

/// `str::parse::<u32>`: an optional leading `+`, then one or more ASCII
/// digits whose value fits in a `u32`.
pub open spec fn parse_u32(s: Seq<char>) -> Option<u32> {
    let digits = if s.len() >= 2 && s[0] == '+' {
        s.drop_first()
    } else {
        s
    };
    if digits.len() > 0 && all_digits(digits) && decimal_value(digits) <= u32::MAX {
        Some(decimal_value(digits) as u32)
    } else {
        None
    }
}

/// The address has exactly four dot-separated fields and its second field
/// parses as a number in `lo..=hi`.
pub open spec fn second_field_in(ip: Seq<char>, lo: u32, hi: u32) -> bool {
    let parts = split(ip, '.');
    &&& parts.len() == 4
    &&& parse_u32(parts[1]) matches Some(v)
    &&& lo <= v <= hi
}

/// A physical LAN address: not empty, not loopback, benchmark,
/// link-local, `0.`/`255.` or carrier-grade NAT (`100.64-127.`), and in one
/// of the private ranges `192.168.`, `10.` or `172.16-31.`.
pub open spec fn is_lan_ip(ip: Seq<char>) -> bool {
    if ip.len() == 0 {
        false
    } else if starts_with(ip, "127."@) || starts_with(ip, "198.18."@) || starts_with(
        ip,
        "198.19."@,
    ) || starts_with(ip, "169.254."@) || starts_with(ip, "0."@) || starts_with(ip, "255."@) {
        false
    } else if starts_with(ip, "100."@) && second_field_in(ip, 64, 127) {
        false
    } else if starts_with(ip, "192.168."@) || starts_with(ip, "10."@) {
        true
    } else {
        starts_with(ip, "172."@) && second_field_in(ip, 16, 31)
    }
}

/// `str::parse::<u32>`.
pub fn parse_u32_exec(s: &Vec<char>) -> (r: Option<u32>)
    ensures
        r == parse_u32(s@),
{
    let start: usize = if s.len() >= 2 && s[0] == '+' {
        1
    } else {
        0
    };
    let ghost digits = if s@.len() >= 2 && s@[0] == '+' {
        s@.drop_first()
    } else {
        s@
    };
    assert(digits =~= s@.subrange(start as int, s.len() as int));
    if start == s.len() {
        return None;
    }
    let mut acc: u64 = 0;
    let mut big = false;
    let mut i: usize = start;
    assert(s@.subrange(start as int, start as int) =~= Seq::<char>::empty());
    while i < s.len()
        invariant
            start <= i <= s.len(),
            digits == s@.subrange(start as int, s.len() as int),
            digits == (if s@.len() >= 2 && s@[0] == '+' {
                s@.drop_first()
            } else {
                s@
            }),
            all_digits(s@.subrange(start as int, i as int)),
            !big ==> acc == decimal_value(s@.subrange(start as int, i as int)) && acc <= u32::MAX,
            big ==> decimal_value(s@.subrange(start as int, i as int)) > u32::MAX,
        decreases s.len() - i,
    {
        let c = s[i];
        let u = c as u32;
        if u < 48 || u > 57 {
            assert(digits[i - start] == c);
            assert(!is_digit(digits[i - start]));

            return None;
        }
        assert(s@.subrange(start as int, i + 1).drop_last() =~= s@.subrange(
            start as int,
            i as int,
        ));
        if !big {
            let v = acc * 10 + (u - 48) as u64;
            if v > 4294967295u64 {
                big = true;
            } else {
                acc = v;
            }
        }
        i += 1;
    }
    if big {
        None
    } else {
        Some(acc as u32)
    }
}

fn second_field_in_exec(ip: &Vec<char>, lo: u32, hi: u32) -> (r: bool)
    ensures
        r == second_field_in(ip@, lo, hi),
{
    let parts = split_exec(ip, '.');
    if parts.len() != 4 {
        return false;
    }
    assert(views(parts@)[1] == parts@[1]@);
    match parse_u32_exec(&parts[1]) {
        Some(v) => lo <= v && v <= hi,
        None => false,
    }
}

fn has_prefix(s: &Vec<char>, p: &str) -> (r: bool)
    ensures
        r == starts_with(s@, p@),
{
    starts_with_exec(s, &chars_of(p))
}

fn is_lan_ip_chars(ip: &Vec<char>) -> (r: bool)
    ensures
        r == is_lan_ip(ip@),
{
    if ip.len() == 0 {
        return false;
    }
    if has_prefix(ip, "127.") || has_prefix(ip, "198.18.") || has_prefix(ip, "198.19.")
        || has_prefix(ip, "169.254.") || has_prefix(ip, "0.") || has_prefix(ip, "255.") {
        return false;
    }
    if has_prefix(ip, "100.") && second_field_in_exec(ip, 64, 127) {
        return false;
    }
    if has_prefix(ip, "192.168.") || has_prefix(ip, "10.") {
        return true;
    }
    has_prefix(ip, "172.") && second_field_in_exec(ip, 16, 31)
}

/// Whether an IPv4 address (in dotted text) is a physical LAN address worth
/// offering.
pub fn is_valid_physical_lan_ip(ip: &str) -> (r: bool)
    ensures
        r == is_lan_ip(ip@),
{
    is_lan_ip_chars(&chars_of(ip))
}

/// Interfaces that `ifconfig` lists but that are not physical LAN links
/// (tunnels, loopback, containers, bridges, peer-to-peer links).
pub open spec fn is_skipped_iface(iface: Seq<char>) -> bool {
    ||| starts_with(iface, "utun"@)
    ||| starts_with(iface, "tun"@)
    ||| starts_with(iface, "tap"@)
    ||| starts_with(iface, "lo"@)
    ||| starts_with(iface, "docker"@)
    ||| starts_with(iface, "br-"@)
    ||| starts_with(iface, "veth"@)
    ||| starts_with(iface, "p2p"@)
    ||| starts_with(iface, "awdl"@)
    ||| starts_with(iface, "llw"@)
}

/// Interfaces whose address is preferred over the others.
pub open spec fn is_primary_iface(iface: Seq<char>) -> bool {
    iface == "en0"@ || iface == "wlan0"@ || iface == "eth0"@
}

/// A line that continues the current interface's block.
pub open spec fn is_indented(line: Seq<char>) -> bool {
    line.len() > 0 && (line[0] == '\t' || line[0] == ' ')
}

/// One line of `ifconfig` output applied to the scan state: the current
/// interface name (lowercased) and the addresses found so far.
pub open spec fn ifconfig_step(st: (Seq<char>, Seq<Seq<char>>), line: Seq<char>) -> (
    Seq<char>,
    Seq<Seq<char>>,
) {
    let iface = st.0;
    let found = st.1;
    if !is_indented(line) {
        match find(line, ":"@) {
            Some(p) => (lowercase_text(trim(line.take(p))), found),
            None => (Seq::<char>::empty(), found),
        }
    } else if iface.len() == 0 || is_skipped_iface(iface) {
        st
    } else {
        match find(line, "inet "@) {
            Some(p) => {
                let ip = first_word(trim_start(line.skip(p + "inet "@.len())));
                if is_lan_ip(ip) && !found.contains(ip) {
                    if is_primary_iface(iface) {
                        (iface, seq![ip] + found)
                    } else {
                        (iface, found.push(ip))
                    }
                } else {
                    st
                }
            },
            None => st,
        }
    }
}

pub open spec fn scan_ifconfig(ls: Seq<Seq<char>>) -> (Seq<char>, Seq<Seq<char>>)
    decreases ls.len(),
{
    if ls.len() == 0 {
        (Seq::<char>::empty(), Seq::<Seq<char>>::empty())
    } else {
        ifconfig_step(scan_ifconfig(ls.drop_last()), ls.last())
    }
}

/// The LAN addresses read out of `ifconfig` output text, in the order
/// found (primary interfaces moved to the front), without repeats.
pub open spec fn ifconfig_candidates(out: Seq<char>) -> Seq<Seq<char>> {
    scan_ifconfig(lines(out)).1
}

/// A line of `ipconfig` output that names an IPv4 address, given the line
/// and its lowercase form.
pub open spec fn is_address_line(line: Seq<char>, lowered: Seq<char>) -> bool {
    ||| find(lowered, "ipv4"@) is Some
    ||| find(lowered, "ip address"@) is Some
    ||| find(line, "IPv4 地址"@) is Some
}

/// One line of `ipconfig` output applied to the addresses found so far.
pub open spec fn ipconfig_step(found: Seq<Seq<char>>, line: Seq<char>) -> Seq<Seq<char>> {
    if is_address_line(line, lowercase_text(line)) {
        match rfind_char(line, ':') {
            Some(c) => {
                let ip = trim(line.skip(c + 1));
                if is_lan_ip(ip) && !found.contains(ip) {
                    found.push(ip)
                } else {
                    found
                }
            },
            None => found,
        }
    } else {
        found
    }
}

pub open spec fn scan_ipconfig(ls: Seq<Seq<char>>) -> Seq<Seq<char>>
    decreases ls.len(),
{
    if ls.len() == 0 {
        Seq::<Seq<char>>::empty()
    } else {
        ipconfig_step(scan_ipconfig(ls.drop_last()), ls.last())
    }
}

/// The LAN addresses read out of `ipconfig` output text, in order, without
/// repeats.
pub open spec fn ipconfig_candidates(out: Seq<char>) -> Seq<Seq<char>> {
    scan_ipconfig(lines(out))
}

fn is_skipped_iface_chars(iface: &Vec<char>) -> (r: bool)
    ensures
        r == is_skipped_iface(iface@),
{
    has_prefix(iface, "utun") || has_prefix(iface, "tun") || has_prefix(iface, "tap") || has_prefix(
        iface,
        "lo",
    ) || has_prefix(iface, "docker") || has_prefix(iface, "br-") || has_prefix(iface, "veth")
        || has_prefix(iface, "p2p") || has_prefix(iface, "awdl") || has_prefix(iface, "llw")
}

fn is_literal(s: &Vec<char>, lit: &str) -> (r: bool)
    ensures
        r == (s@ == lit@),
{
    same(s, &chars_of(lit))
}

fn is_primary_iface_chars(iface: &Vec<char>) -> (r: bool)
    ensures
        r == is_primary_iface(iface@),
{
    is_literal(iface, "en0") || is_literal(iface, "wlan0") || is_literal(iface, "eth0")
}

/// Whether an interface name (already lowercased) is one whose addresses
/// are never offered.
pub fn is_skipped_interface(iface: &str) -> (r: bool)
    ensures
        r == is_skipped_iface(iface@),
{
    is_skipped_iface_chars(&chars_of(iface))
}

/// Whether an interface name (already lowercased) is a primary one, whose
/// address goes first.
pub fn is_primary_interface(iface: &str) -> (r: bool)
    ensures
        r == is_primary_iface(iface@),
{
    is_primary_iface_chars(&chars_of(iface))
}

fn has_infix(s: &Vec<char>, p: &str) -> (r: bool)
    ensures
        r == (find(s@, p@) is Some),
{
    find_exec(s, &chars_of(p)).is_some()
}

/// Whether an `ipconfig` line names an IPv4 address, given the line and its
/// lowercase form.
pub fn is_ipv4_address_line(line: &str, lowered: &str) -> (r: bool)
    ensures
        r == is_address_line(line@, lowered@),
{
    let l = chars_of(line);
    let low = chars_of(lowered);
    has_infix(&low, "ipv4") || has_infix(&low, "ip address") || has_infix(&l, "IPv4 地址")
}

fn ifconfig_step_exec(iface: &mut Vec<char>, found: &mut Vec<Vec<char>>, line: &Vec<char>)
    ensures
        (final(iface)@, views(final(found)@)) == ifconfig_step(
            (old(iface)@, views(old(found)@)),
            line@,
        ),
{
    if !(line.len() > 0 && (line[0] == '\t' || line[0] == ' ')) {
        let colon = chars_of(":");
        match find_exec(line, &colon) {
            Some(p) => {
                proof {
                    lemma_find_from(line@, colon@, 0);
                }
                let head = slice_of(line, 0, p);
                assert(head@ == line@.take(p as int));
                let name = trim_exec(&head);
                let lowered = to_lowercase(string_from_chars(&name).as_str());
                *iface = chars_of(lowered.as_str());
            },
            None => {
                *iface = Vec::new();
            },
        }
        return ;
    }
    if iface.len() == 0 || is_skipped_iface_chars(iface) {
        return ;
    }
    let pat = chars_of("inet ");
    match find_exec(line, &pat) {
        None => {},
        Some(p) => {
            proof {
                lemma_find_from(line@, pat@, 0);
            }
            let tail = slice_of(line, p + pat.len(), line.len());
            assert(tail@ == line@.skip(p + "inet "@.len()));
            let rest = trim_start_exec(&tail);
            let ip = first_word_exec(&rest);
            if is_lan_ip_chars(&ip) && !contains_chars(found, &ip) {
                let ghost before = views(found@);
                if is_primary_iface_chars(iface) {
                    found.insert(0, ip);
                    assert(views(found@) =~= seq![ip@] + before);
                } else {
                    found.push(ip);
                    assert(views(found@) =~= before.push(ip@));
                }
            }
        },
    }
}

fn ifconfig_candidates_exec(text: &Vec<char>) -> (r: Vec<Vec<char>>)
    ensures
        views(r@) == ifconfig_candidates(text@),
{
    let ls = lines_exec(text);
    let mut iface: Vec<char> = Vec::new();
    let mut found: Vec<Vec<char>> = Vec::new();
    let mut k: usize = 0;
    assert(views(ls@).take(0) =~= Seq::<Seq<char>>::empty());
    assert(views(found@) =~= Seq::<Seq<char>>::empty());
    while k < ls.len()
        invariant
            k <= ls.len(),
            views(ls@) == lines(text@),
            (iface@, views(found@)) == scan_ifconfig(views(ls@).take(k as int)),
        decreases ls.len() - k,
    {
        assert(views(ls@).take(k + 1).drop_last() =~= views(ls@).take(k as int));
        assert(views(ls@).take(k + 1).last() == ls@[k as int]@);
        ifconfig_step_exec(&mut iface, &mut found, &ls[k]);
        k += 1;
    }
    assert(views(ls@).take(ls.len() as int) =~= views(ls@));
    found
}

/// The LAN addresses in `ifconfig` output: none where the output is not
/// UTF-8, else the addresses of non-skipped interfaces in the order found,
/// those of a primary interface moved to the front, without repeats.
pub open spec fn ifconfig_output_candidates(stdout: Seq<u8>) -> Seq<Seq<char>> {
    if valid_utf8(stdout) {
        ifconfig_candidates(decode_utf8(stdout))
    } else {
        Seq::<Seq<char>>::empty()
    }
}

/// Reads the LAN address candidates out of the raw output of `ifconfig`.
pub fn lan_candidates_from_ifconfig(stdout: &[u8]) -> (r: Vec<String>)
    ensures
        string_views(r@) == ifconfig_output_candidates(stdout@),
{
    match utf8_decode(stdout) {
        Some(text) => ifconfig_text_candidates(text.as_str()),
        None => {
            let r: Vec<String> = Vec::new();
            assert(string_views(r@) =~= Seq::<Seq<char>>::empty());
            r
        },
    }
}

fn ipconfig_step_exec(found: &mut Vec<Vec<char>>, line: &Vec<char>)
    ensures
        views(final(found)@) == ipconfig_step(views(old(found)@), line@),
{
    let line_text = string_from_chars(line);
    let lowered = to_lowercase(line_text.as_str());
    if !is_ipv4_address_line(line_text.as_str(), lowered.as_str()) {
        return ;
    }
    match rfind_char_exec(line, ':') {
        None => {},
        Some(c) => {
            proof {
                lemma_rfind_char(line@, ':');
                assert(rfind_char(line@, ':') == Some(c as int));
            }
            let n = line.len();
            assert(c < n);
            let tail = slice_of(line, c + 1, n);
            assert(tail@ == line@.skip(c + 1));
            let ip = trim_exec(&tail);
            if is_lan_ip_chars(&ip) && !contains_chars(found, &ip) {
                let ghost before = views(found@);
                found.push(ip);
                assert(views(found@) =~= before.push(ip@));
            }
        },
    }
}

fn ipconfig_candidates_exec(text: &Vec<char>) -> (r: Vec<Vec<char>>)
    ensures
        views(r@) == ipconfig_candidates(text@),
{
    let ls = lines_exec(text);
    let mut found: Vec<Vec<char>> = Vec::new();
    let mut k: usize = 0;
    assert(views(ls@).take(0) =~= Seq::<Seq<char>>::empty());
    assert(views(found@) =~= Seq::<Seq<char>>::empty());
    while k < ls.len()
        invariant
            k <= ls.len(),
            views(ls@) == lines(text@),
            views(found@) == scan_ipconfig(views(ls@).take(k as int)),
        decreases ls.len() - k,
    {
        assert(views(ls@).take(k + 1).drop_last() =~= views(ls@).take(k as int));
        assert(views(ls@).take(k + 1).last() == ls@[k as int]@);
        ipconfig_step_exec(&mut found, &ls[k]);
        k += 1;
    }
    assert(views(ls@).take(ls.len() as int) =~= views(ls@));
    found
}

/// Reads the LAN address candidates out of the raw output of `ipconfig`,
/// decoded leniently (ill-formed bytes become U+FFFD).
pub fn lan_candidates_from_ipconfig(stdout: &[u8]) -> (r: Vec<String>)
    ensures
        string_views(r@) == ipconfig_candidates(lossy_text(stdout@)),
{
    let text = utf8_lossy(stdout);
    ipconfig_text_candidates(text.as_str())
}

/// Reads the LAN address candidates out of `ipconfig` output text.
pub fn ipconfig_text_candidates(text: &str) -> (r: Vec<String>)
    ensures
        string_views(r@) == ipconfig_candidates(text@),
{
    strings_of_all(&ipconfig_candidates_exec(&chars_of(text)))
}

/// Reads the LAN address candidates out of `ifconfig` output text.
pub fn ifconfig_text_candidates(text: &str) -> (r: Vec<String>)
    ensures
        string_views(r@) == ifconfig_candidates(text@),
{
    strings_of_all(&ifconfig_candidates_exec(&chars_of(text)))
}

/// Preference of an address: `192.168.` first, then `10.`, then `172.`,
/// then anything else.
pub open spec fn ip_rank(ip: Seq<char>) -> int {
    if starts_with(ip, "192.168."@) {
        0
    } else if starts_with(ip, "10."@) {
        1
    } else if starts_with(ip, "172."@) {
        2
    } else {
        3
    }
}

/// The addresses of rank `k`, in their original order.
pub open spec fn of_rank(c: Seq<Seq<char>>, k: int) -> Seq<Seq<char>>
    decreases c.len(),
{
    if c.len() == 0 {
        Seq::<Seq<char>>::empty()
    } else if ip_rank(c.last()) == k {
        of_rank(c.drop_last(), k).push(c.last())
    } else {
        of_rank(c.drop_last(), k)
    }
}

/// The addresses stably sorted by preference.
pub open spec fn ranked(c: Seq<Seq<char>>) -> Seq<Seq<char>> {
    of_rank(c, 0) + of_rank(c, 1) + of_rank(c, 2) + of_rank(c, 3)
}

/// The address list offered: the candidates stably sorted by preference,
/// or the loopback address alone where there is none.
pub open spec fn lan_ip_list(c: Seq<Seq<char>>) -> Seq<Seq<char>> {
    if c.len() == 0 {
        seq!["127.0.0.1"@]
    } else {
        ranked(c)
    }
}

fn ip_rank_exec(ip: &Vec<char>) -> (r: u8)
    ensures
        r as int == ip_rank(ip@),
{
    if has_prefix(ip, "192.168.") {
        0
    } else if has_prefix(ip, "10.") {
        1
    } else if has_prefix(ip, "172.") {
        2
    } else {
        3
    }
}

fn append_of_rank(out: &mut Vec<Vec<char>>, c: &Vec<Vec<char>>, k: u8)
    ensures
        views(final(out)@) == views(old(out)@) + of_rank(views(c@), k as int),
{
    let ghost start = views(out@);
    let mut i: usize = 0;
    assert(views(c@).take(0) =~= Seq::<Seq<char>>::empty());
    assert(views(out@) =~= start + of_rank(views(c@).take(0), k as int));
    while i < c.len()
        invariant
            i <= c.len(),
            views(out@) == start + of_rank(views(c@).take(i as int), k as int),
        decreases c.len() - i,
    {
        assert(views(c@).take(i + 1).drop_last() =~= views(c@).take(i as int));
        assert(views(c@).take(i + 1).last() == c@[i as int]@);
        if ip_rank_exec(&c[i]) == k {
            let ghost before = views(out@);
            let copy = slice_of(&c[i], 0, c[i].len());
            assert(copy@ =~= c@[i as int]@);
            out.push(copy);
            assert(views(out@) =~= before.push(c@[i as int]@));
            assert(views(out@) =~= start + of_rank(views(c@).take(i + 1), k as int));
        }
        i += 1;
    }
    assert(views(c@).take(c.len() as int) =~= views(c@));
}

/// The addresses to offer, from the candidates found: stably sorted by
/// preference, or the loopback address alone where none was found.
pub fn order_lan_ips(candidates: Vec<String>) -> (r: Vec<String>)
    ensures
        string_views(r@) == lan_ip_list(string_views(candidates@)),
{
    let c = chars_of_all(&candidates);
    if c.len() == 0 {
        let mut r: Vec<String> = Vec::new();
        r.push(string_from_chars(&chars_of("127.0.0.1")));
        assert(string_views(r@) =~= seq!["127.0.0.1"@]);
        return r;
    }
    let mut out: Vec<Vec<char>> = Vec::new();
    assert(views(out@) =~= Seq::<Seq<char>>::empty());
    append_of_rank(&mut out, &c, 0);
    append_of_rank(&mut out, &c, 1);
    append_of_rank(&mut out, &c, 2);
    append_of_rank(&mut out, &c, 3);
    assert(views(out@) =~= ranked(views(c@)));
    strings_of_all(&out)
}

} // verus!
