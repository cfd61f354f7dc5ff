//! HOTP (RFC 4226) and TOTP (RFC 6238) code generation over HMAC-SHA-1.
use hmac::{Hmac, Mac};
use sha1::Sha1;
use vstd::arithmetic::div_mod::lemma_small_mod;
use vstd::prelude::*;

verus! {

/// The HMAC-SHA-1 tag of `msg` under the key `key`.
pub uninterp spec fn hmac_sha1_of(key: Seq<u8>, msg: Seq<u8>) -> Seq<u8>;

/// Relies on hmac's `Hmac<Sha1>`: `new_from_slice` accepts a key of any length
/// (longer keys are hashed, shorter ones padded), and the finalized tag is the
/// 20-byte HMAC-SHA-1 of the data fed to `update`.
#[verifier::external_body]
fn hmac_sha1(key: &[u8], msg: &[u8]) -> (r: Vec<u8>)
    ensures
        r@ == hmac_sha1_of(key@, msg@),
        r@.len() == 20,
{
    let mut mac = Hmac::<Sha1>::new_from_slice(key).unwrap();
    mac.update(msg);
    mac.finalize().into_bytes().to_vec()
}

/// `10` raised to the power `n`.
pub open spec fn pow10(n: nat) -> nat
    decreases n,
{
    if n == 0 {
        1
    } else {
        10 * pow10((n - 1) as nat)
    }
}

/// The big-endian 8-byte encoding of a counter, the message that HOTP authenticates.
pub open spec fn counter_bytes(c: u64) -> Seq<u8> {
    seq![
        (c >> 56u64) as u8,
        (c >> 48u64) as u8,
        (c >> 40u64) as u8,
        (c >> 32u64) as u8,
        (c >> 24u64) as u8,
        (c >> 16u64) as u8,
        (c >> 8u64) as u8,
        c as u8,
    ]
}

/// Dynamic truncation of a 20-byte MAC: the low nibble of the last byte selects
/// an offset, and the four bytes from there, with the top bit cleared, are read
/// as a big-endian integer.
pub open spec fn truncated(mac: Seq<u8>) -> int
    recommends
        mac.len() == 20,
{
    let o = (mac[19] & 0x0fu8) as int;
    (mac[o] & 0x7fu8) as int * 0x1000000 + mac[o + 1] as int * 0x10000 + mac[o + 2] as int * 0x100
        + mac[o + 3] as int
}

/// The code of `digits` decimal digits that a MAC yields.
pub open spec fn code_of(mac: Seq<u8>, digits: u32) -> int {
    truncated(mac) % (pow10(digits as nat) as int)
}

/// The HOTP code for `secret` at `counter`.
pub open spec fn hotp_value(secret: Seq<u8>, counter: u64, digits: u32) -> int {
    code_of(hmac_sha1_of(secret, counter_bytes(counter)), digits)
}

proof fn lemma_pow10_mono(a: nat, b: nat)
    requires
        a <= b,
    ensures
        pow10(a) <= pow10(b),
    decreases b,
{
    if a < b {
        lemma_pow10_mono(a, (b - 1) as nat);
    }
}

/// Reduces a truncated MAC value modulo `10^digits`; where `10^digits` exceeds
/// every 31-bit value the value comes back as it is.
fn reduce(t: u32, digits: u32) -> (r: u32)
    requires
        t < 0x80000000,
    ensures
        r as int == t as int % (pow10(digits as nat) as int),
{
    if digits >= 10 {
        proof {
            reveal_with_fuel(pow10, 11);
            lemma_pow10_mono(10, digits as nat);
            lemma_small_mod(t as nat, pow10(digits as nat));
        }
        t
    } else {
        proof {
            reveal_with_fuel(pow10, 9);
        }
        let mut p: u32 = 1;
        let mut i: u32 = 0;
        while i < digits
            invariant
                i <= digits,
                digits < 10,
                p as nat == pow10(i as nat),
                pow10(8) == 100000000,
            decreases digits - i,
        {
            proof {
                lemma_pow10_mono(i as nat, 8);
            }
            p = p * 10;
            i = i + 1;
        }
        t % p
    }
}

/// Dynamic truncation of a 20-byte MAC (RFC 4226, section 5.3).
pub fn truncate(input: &[u8]) -> (r: u32)
    requires
        input@.len() == 20,
    ensures
        r as int == truncated(input@),
        r < 0x80000000,
{
    let last: u8 = input[19];
    assert(last & 0x0f <= 15u8) by (bit_vector);
    let offset: usize = (last & 0x0f) as usize;
    let first: u8 = input[offset] & 0x7f;
    let high: u8 = input[offset];
    assert(high & 0x7f <= 0x7fu8) by (bit_vector);
    (first as u32) * 0x1000000 + (input[offset + 1] as u32) * 0x10000 + (input[offset + 2] as u32)
        * 0x100 + (input[offset + 3] as u32)
}

/// The code of `digits` digits that a 20-byte HMAC-SHA-1 tag yields.
pub fn code_from_mac(mac: &[u8], digits: u32) -> (r: u32)
    requires
        mac@.len() == 20,
    ensures
        r as int == code_of(mac@, digits),
{
    let t = truncate(mac);
    reduce(t, digits)
}

/// The HOTP code of `digits` digits for `secret` at `counter`.
pub fn hotp(secret: &[u8], counter: u64, digits: u32) -> (r: u32)
    ensures
        r as int == hotp_value(secret@, counter, digits),
{
    let msg: Vec<u8> = vec![
        (counter >> 56u64) as u8,
        (counter >> 48u64) as u8,
        (counter >> 40u64) as u8,
        (counter >> 32u64) as u8,
        (counter >> 24u64) as u8,
        (counter >> 16u64) as u8,
        (counter >> 8u64) as u8,
        counter as u8,
    ];
    assert(msg@ == counter_bytes(counter));
    let mac = hmac_sha1(secret, msg.as_slice());
    code_from_mac(mac.as_slice(), digits)
}

/// The TOTP code of `digits` digits for `secret` at Unix time `time`: the HOTP
/// code at counter `time / time_step`.
pub fn totp(secret: &[u8], time: u64, time_step: u64, digits: u32) -> (r: u32)
    requires
        time_step > 0,
    ensures
        r as int == hotp_value(secret@, time / time_step, digits),
{
    hotp(secret, time / time_step, digits)
}

} // verus!
