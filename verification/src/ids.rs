//! Identifiers for stored items: eight lowercase hexadecimal digits mixed
//! from the clock and a running counter.

use vstd::prelude::*;
use vstd::wrapping::u64_specs::{wrapping_add, wrapping_mul};
use crate::external::{clock_now, duration_nanos, since_unix_epoch, string_from_chars};

verus! {

/// The multiplier that spreads consecutive counter values over the id.
pub const ID_MIX: u64 = 0x517cc1b727220a95u64;

/// A lowercase hexadecimal digit.
pub open spec fn hex_digit(v: int) -> char {
    if v < 10 {
        (48 + v) as char
    } else {
        (87 + v) as char
    }
}

/// The last `n` hexadecimal digits of `x`, zero-padded (`{:0nx}` for an `x`
/// below `16^n`).
pub open spec fn hex_digits(x: nat, n: nat) -> Seq<char>
    decreases n,
{
    if n == 0 {
        Seq::<char>::empty()
    } else {
        hex_digits(x / 16, (n - 1) as nat).push(hex_digit((x % 16) as int))
    }
}

/// The number an id spells: the low 32 bits of the clock reading (in
/// nanoseconds, truncated to 64 bits) mixed by exclusive-or with the counter
/// times `ID_MIX`.
pub open spec fn id_value(nanos: u128, count: u64) -> u64 {
    ((nanos as u64) ^ wrapping_mul(count, ID_MIX)) & 0xffff_ffffu64
}

/// The id for a clock reading and a counter value.
pub open spec fn id_text(nanos: u128, count: u64) -> Seq<char> {
    hex_digits(id_value(nanos, count) as nat, 8)
}

/// The id made from the given counter value at some clock reading. The
/// reading is left open, and the low 32 bits of a reading can be anything,
/// so every eight-digit lowercase hexadecimal text is such an id for every
/// counter value: the clause records how an id is made, and pins down no
/// more than `is_hex_id` does. `id_text`, with the reading given, is exact.
pub open spec fn id_at(id: Seq<char>, count: u64) -> bool {
    exists|nanos: u128| id == #[trigger] id_text(nanos, count)
}

/// Text made of exactly eight lowercase hexadecimal digits.
pub open spec fn is_hex_id(s: Seq<char>) -> bool {
    &&& s.len() == 8
    &&& forall|i: int|
        0 <= i < 8 ==> {
            let c = #[trigger] s[i] as u32;
            (48 <= c <= 57) || (97 <= c <= 102)
        }
}

proof fn lemma_hex_digits(x: nat, n: nat)
    ensures
        hex_digits(x, n).len() == n,
        forall|i: int|
            0 <= i < n ==> {
                let c = #[trigger] hex_digits(x, n)[i] as u32;
                (48 <= c <= 57) || (97 <= c <= 102)
            },
    decreases n,
{
    if n > 0 {
        lemma_hex_digits(x / 16, (n - 1) as nat);
        let d = (x % 16) as int;
        assert(d < 10 ==> hex_digit(d) as u32 == 48 + d);
        assert(d >= 10 ==> hex_digit(d) as u32 == 87 + d);
    }
}

/// Every id is eight lowercase hexadecimal digits.
pub proof fn lemma_id_is_hex(nanos: u128, count: u64)
    ensures
        is_hex_id(id_text(nanos, count)),
{
    lemma_hex_digits(id_value(nanos, count) as nat, 8);
}

fn hex_digit_exec(v: u64) -> (c: char)
    requires
        v < 16,
    ensures
        c == hex_digit(v as int),
{
    if v < 10 {
        ((48 + v) as u8) as char
    } else {
        ((87 + v) as u8) as char
    }
}

fn hex_digits_exec(x: u64, n: u8) -> (r: Vec<char>)
    ensures
        r@ == hex_digits(x as nat, n as nat),
    decreases n,
{
    if n == 0 {
        Vec::new()
    } else {
        let mut r = hex_digits_exec(x / 16, n - 1);
        r.push(hex_digit_exec(x % 16));
        r
    }
}

/// The id for a clock reading (nanoseconds since the epoch) and a counter
/// value.
pub fn id_from(nanos: u128, count: u64) -> (r: String)
    ensures
        r@ == id_text(nanos, count),
{
    let mixed: u64 = (nanos as u64) ^ count.wrapping_mul(ID_MIX);
    let v: u64 = mixed & 0xffff_ffffu64;
    string_from_chars(&hex_digits_exec(v, 8))
}

/// A fresh id: reads the clock and takes the counter's value, which then
/// moves on by one (wrapping). The id is the one `id_text` gives for the
/// clock reading and the counter's old value, but the reading is not known
/// here: the contract fixes the counter's step and that the id is eight
/// lowercase hexadecimal digits, and leaves the id itself open (`id_from`
/// states it for a given reading).
pub fn generate_id(counter: &mut u64) -> (r: String)
    ensures
        *final(counter) == wrapping_add(*old(counter), 1),
        id_at(r@, *old(counter)),
        is_hex_id(r@),
{
    let count = *counter;
    *counter = count.wrapping_add(1);
    let now = clock_now();
    let nanos: u128 = match since_unix_epoch(&now) {
        Ok(d) => duration_nanos(&d),
        Err(_) => 0,
    };
    let r = id_from(nanos, count);
    proof {
        lemma_id_is_hex(nanos, count);
    }
    r
}

} // verus!
