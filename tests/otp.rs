use totp_store::otp::{code_from_mac, truncate};
use totp_store::{hotp, totp, TotpProfile};

fn hex(s: &str) -> Vec<u8> {
    (0..s.len() / 2)
        .map(|i| u8::from_str_radix(&s[2 * i..2 * i + 2], 16).unwrap())
        .collect()
}

#[test]
fn hotp_generation() {
    let secret = "12345678901234567890".as_bytes();
    let results = [
        755224, 287082, 359152, 969429, 338314, 254676, 287922, 162583, 399871, 520489,
    ];
    for i in 0..10 {
        assert_eq!(hotp(secret, i as u64, 6), results[i]);
    }
}

#[test]
fn totp_generation() {
    let secret1 = "12345678901234567890".as_bytes();
    assert_eq!(totp(secret1, 59, 30, 8), 94287082);
    assert_eq!(totp(secret1, 1111111109, 30, 8), 07081804);
}

#[test]
fn truncate_rfc4226_first_mac() {
    let mac = hex("cc93cf18508d94934c64b65d8ba7667fb7cde4b0");
    assert_eq!(truncate(&mac), 0x4c93cf18);
}

#[test]
fn truncate_uses_offset_from_last_nibble() {
    let mac = hex("75a48a19d4cbe100644e8ac1397eea747a2d33ab");
    assert_eq!(truncate(&mac), 0x41397eea);
}

#[test]
fn truncate_clears_top_bit_at_largest_offset() {
    let mut mac = vec![0u8; 20];
    mac[15] = 0xff;
    mac[16] = 0x01;
    mac[17] = 0x02;
    mac[18] = 0x03;
    mac[19] = 0x0f;
    assert_eq!(truncate(&mac), 0x7f010203);
}

#[test]
fn code_from_mac_reduces_by_digits() {
    let mac = hex("cc93cf18508d94934c64b65d8ba7667fb7cde4b0");
    assert_eq!(code_from_mac(&mac, 6), 755224);
    assert_eq!(code_from_mac(&mac, 8), 84755224);
    assert_eq!(code_from_mac(&mac, 0), 0);
    assert_eq!(code_from_mac(&mac, 1), 4);
}

#[test]
fn code_from_mac_wide_digits_keep_truncated_value() {
    let mac = hex("cc93cf18508d94934c64b65d8ba7667fb7cde4b0");
    assert_eq!(code_from_mac(&mac, 10), 1284755224);
    assert_eq!(code_from_mac(&mac, 40), 1284755224);
}

#[test]
fn hotp_counter_one_eight_digits() {
    let secret = "12345678901234567890".as_bytes();
    assert_eq!(hotp(secret, 1, 8), 94287082);
}

#[test]
fn totp_divides_time_by_step() {
    let secret = "12345678901234567890".as_bytes();
    assert_eq!(totp(secret, 0, 30, 6), hotp(secret, 0, 6));
    assert_eq!(totp(secret, 29, 30, 6), 755224);
    assert_eq!(totp(secret, 30, 30, 6), 287082);
    assert_eq!(totp(secret, 95, 10, 6), hotp(secret, 9, 6));
}

#[test]
fn hotp_empty_secret_gives_a_code() {
    let code = hotp(&[], 0, 6);
    assert!(code < 1_000_000);
    assert_eq!(code, hotp(&[], 0, 6));
}

#[test]
fn profile_get_otp_is_totp_of_its_fields() {
    let p = TotpProfile {
        name: "rfc".to_string(),
        secret: "12345678901234567890".as_bytes().to_vec(),
        time_step: 30,
        digits: 8,
    };
    assert_eq!(p.get_otp(59), 94287082);
    assert_eq!(p.get_otp(1111111109), 7081804);
}
