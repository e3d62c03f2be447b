use paddle_desktop::ids::{generate_id, id_from, ID_MIX};

fn is_hex8(s: &str) -> bool {
    s.len() == 8 && s.chars().all(|c| c.is_ascii_digit() || ('a'..='f').contains(&c))
}

#[test]
fn ids_from_clock_and_counter() {
    assert_eq!(id_from(0, 0), "00000000");
    assert_eq!(id_from(0x1234abcd, 0), "1234abcd");
    assert_eq!(id_from(0, 1), "27220a95");
    assert_eq!(id_from(0x1_0000_0001, 0), "00000001");
    assert_eq!(id_from((1u128 << 64) | 5, 0), "00000005");
    let expected = format!("{:08x}", (0xdead_beefu64 ^ 7u64.wrapping_mul(ID_MIX)) & 0xffff_ffff);
    assert_eq!(id_from(0xdead_beef, 7), expected);
}

#[test]
fn generated_ids_advance_the_counter() {
    let mut counter = 1u64;
    let a = generate_id(&mut counter);
    let b = generate_id(&mut counter);
    assert_eq!(counter, 3);
    assert!(is_hex8(&a) && is_hex8(&b));
    let mut wrap = u64::MAX;
    let c = generate_id(&mut wrap);
    assert_eq!(wrap, 0);
    assert!(is_hex8(&c));
}

#[test]
fn counts_differing_in_low_bits_give_different_ids() {
    let nanos: u128 = 1_700_000_000_123_456_789;
    let ids: Vec<String> = (0u64..64).map(|c| id_from(nanos, c)).collect();
    for i in 0..ids.len() {
        for j in (i + 1)..ids.len() {
            assert_ne!(ids[i], ids[j]);
        }
    }
    assert_ne!(id_from(nanos, 5), id_from(nanos, 6));
    assert_eq!(id_from(nanos, 3), id_from(nanos, 3 + (1u64 << 32)));
}
