//! The plaintext record format of a profile set.
//!
//! Each profile is one record, and a profile set is its records one after
//! another. A record holds, in this order: the byte length of the name as a
//! little-endian `u64`, the name in UTF-8, the byte length of the secret as a
//! little-endian `u64`, the raw secret bytes, `time_step` as a little-endian
//! `u64` and `digits` as a little-endian `u32`.
use crate::profile::{ProfileModel, TotpProfile};
use vstd::bytes::{
    lemma_auto_spec_u32_to_from_le_bytes, lemma_auto_spec_u64_to_from_le_bytes,
    spec_u32_from_le_bytes, spec_u32_to_le_bytes, spec_u64_from_le_bytes, spec_u64_to_le_bytes,
    u32_from_le_bytes, u32_to_le_bytes, u64_from_le_bytes, u64_to_le_bytes,
};
use vstd::prelude::*;
use vstd::slice::slice_subrange;
use vstd::utf8::{decode_utf8, encode_utf8, encode_utf8_decode_utf8, encode_utf8_valid_utf8, valid_utf8};

verus! {

/// The models of a sequence of profiles.
pub open spec fn models(v: Seq<TotpProfile>) -> Seq<ProfileModel> {
    v.map_values(|p: TotpProfile| p@)
}

/// A profile whose name and secret lengths fit the record's `u64` length fields.
pub open spec fn storable(p: ProfileModel) -> bool {
    encode_utf8(p.name).len() <= u64::MAX && p.secret.len() <= u64::MAX
}

/// The record of one profile.
pub open spec fn encode_record(p: ProfileModel) -> Seq<u8> {
    let name = encode_utf8(p.name);
    spec_u64_to_le_bytes(name.len() as u64) + name + spec_u64_to_le_bytes(p.secret.len() as u64)
        + p.secret + spec_u64_to_le_bytes(p.time_step) + spec_u32_to_le_bytes(p.digits)
}

/// The records of a sequence of profiles, one after another.
pub open spec fn encode_records(s: Seq<ProfileModel>) -> Seq<u8>
    decreases s.len(),
{
    if s.len() == 0 {
        Seq::empty()
    } else {
        encode_record(s[0]) + encode_records(s.drop_first())
    }
}

/// Reads the record at the start of `t`: the profile and the record's length,
/// or `None` where `t` does not start with a well-formed record.
pub open spec fn parse_record(t: Seq<u8>) -> Option<(ProfileModel, int)> {
    if t.len() < 8 {
        None
    } else {
        let nl = spec_u64_from_le_bytes(t.subrange(0, 8)) as int;
        if t.len() < 16 + nl {
            None
        } else {
            let name = t.subrange(8, 8 + nl);
            let sl = spec_u64_from_le_bytes(t.subrange(8 + nl, 16 + nl)) as int;
            let s0 = 16 + nl + sl;
            if !valid_utf8(name) || t.len() < s0 + 12 {
                None
            } else {
                Some(
                    (
                        ProfileModel {
                            name: decode_utf8(name),
                            secret: t.subrange(16 + nl, s0),
                            time_step: spec_u64_from_le_bytes(t.subrange(s0, s0 + 8)),
                            digits: spec_u32_from_le_bytes(t.subrange(s0 + 8, s0 + 12)),
                        },
                        s0 + 12,
                    ),
                )
            }
        }
    }
}

/// Reads `t` as a sequence of records; `None` where it is not one.
pub open spec fn parse_records(t: Seq<u8>) -> Option<Seq<ProfileModel>>
    decreases t.len(),
{
    if t.len() == 0 {
        Some(Seq::empty())
    } else {
        match parse_record(t) {
            None => None,
            Some((p, n)) => if 0 < n <= t.len() {
                match parse_records(t.subrange(n, t.len() as int)) {
                    None => None,
                    Some(rest) => Some(seq![p] + rest),
                }
            } else {
                None
            },
        }
    }
}

proof fn lemma_encode_push(s: Seq<ProfileModel>, p: ProfileModel)
    ensures
        encode_records(s.push(p)) == encode_records(s) + encode_record(p),
    decreases s.len(),
{
    if s.len() == 0 {
        assert(s.push(p).drop_first() =~= Seq::<ProfileModel>::empty());
        assert(s.push(p)[0] == p);
        assert(encode_records(Seq::<ProfileModel>::empty()) == Seq::<u8>::empty());
        assert(encode_records(s.push(p)) =~= encode_record(p));
    } else {
        assert(s.push(p).drop_first() =~= s.drop_first().push(p));
        lemma_encode_push(s.drop_first(), p);
        assert(s.push(p)[0] == s[0]);
        assert(encode_records(s.push(p)) =~= encode_records(s) + encode_record(p));
    }
}

/// Appends the bytes of `s` to `out`.
pub(crate) fn append_slice(out: &mut Vec<u8>, s: &[u8])
    ensures
        final(out)@ == old(out)@ + s@,
{
    let mut i: usize = 0;
    while i < s.len()
        invariant
            i <= s@.len(),
            out@ == old(out)@ + s@.subrange(0, i as int),
        decreases s@.len() - i,
    {
        out.push(s[i]);
        i = i + 1;
        assert(out@ =~= old(out)@ + s@.subrange(0, i as int));
    }
    assert(s@.subrange(0, s@.len() as int) =~= s@);
}

/// Appends the record of `p` to `out`.
fn write_record(out: &mut Vec<u8>, p: &TotpProfile)
    ensures
        final(out)@ == old(out)@ + encode_record(p@),
        storable(p@),
{
    let name: &[u8] = p.name.as_str().as_bytes();
    append_slice(out, u64_to_le_bytes(name.len() as u64).as_slice());
    append_slice(out, name);
    append_slice(out, u64_to_le_bytes(p.secret.len() as u64).as_slice());
    append_slice(out, p.secret.as_slice());
    append_slice(out, u64_to_le_bytes(p.time_step).as_slice());
    append_slice(out, u32_to_le_bytes(p.digits).as_slice());
    assert(out@ =~= old(out)@ + encode_record(p@));
}

/// Encodes a sequence of profiles as their records, in order.
pub fn serialize_profiles(profiles: &Vec<TotpProfile>) -> (r: Vec<u8>)
    ensures
        r@ == encode_records(models(profiles@)),
        forall|i: int| 0 <= i < profiles@.len() ==> #[trigger] storable(profiles@[i]@),
{
    let mut out: Vec<u8> = Vec::new();
    let mut i: usize = 0;
    while i < profiles.len()
        invariant
            i <= profiles@.len(),
            out@ == encode_records(models(profiles@).take(i as int)),
            forall|j: int| 0 <= j < i ==> #[trigger] storable(profiles@[j]@),
        decreases profiles@.len() - i,
    {
        write_record(&mut out, &profiles[i]);
        proof {
            let ms = models(profiles@);
            assert(ms.take(i + 1) =~= ms.take(i as int).push(profiles@[i as int]@));
            lemma_encode_push(ms.take(i as int), profiles@[i as int]@);
        }
        i = i + 1;
    }
    assert(models(profiles@).take(profiles@.len() as int) =~= models(profiles@));
    out
}

/// `Some(v + r)` where `o` is `Some(r)`, else `None`.
pub open spec fn prefixed(v: Seq<ProfileModel>, o: Option<Seq<ProfileModel>>) -> Option<
    Seq<ProfileModel>,
> {
    match o {
        Some(r) => Some(v + r),
        None => None,
    }
}

proof fn lemma_parse_encode_record(p: ProfileModel, rest: Seq<u8>)
    requires
        storable(p),
    ensures
        parse_record(encode_record(p) + rest) == Some((p, encode_record(p).len() as int)),
        encode_record(p).len() >= 28,
{
    lemma_auto_spec_u64_to_from_le_bytes();
    lemma_auto_spec_u32_to_from_le_bytes();
    encode_utf8_valid_utf8(p.name);
    encode_utf8_decode_utf8(p.name);
    let name = encode_utf8(p.name);
    let t = encode_record(p) + rest;
    let nl = name.len() as int;
    let sl = p.secret.len() as int;
    let s0 = 16 + nl + sl;
    assert(t.subrange(0, 8) =~= spec_u64_to_le_bytes(nl as u64));
    assert(t.subrange(8, 8 + nl) =~= name);
    assert(t.subrange(8 + nl, 16 + nl) =~= spec_u64_to_le_bytes(sl as u64));
    assert(t.subrange(16 + nl, s0) =~= p.secret);
    assert(t.subrange(s0, s0 + 8) =~= spec_u64_to_le_bytes(p.time_step));
    assert(t.subrange(s0 + 8, s0 + 12) =~= spec_u32_to_le_bytes(p.digits));
}

/// Decoding the encoding of a sequence of storable profiles gives that sequence
/// back, binary secrets included.
pub proof fn lemma_round_trip(s: Seq<ProfileModel>)
    requires
        forall|i: int| 0 <= i < s.len() ==> #[trigger] storable(s[i]),
    ensures
        parse_records(encode_records(s)) == Some(s),
    decreases s.len(),
{
    if s.len() > 0 {
        let t = encode_records(s);
        let e = encode_record(s[0]);
        let tail = encode_records(s.drop_first());
        lemma_parse_encode_record(s[0], tail);
        assert(t == e + tail);
        assert(t.subrange(e.len() as int, t.len() as int) =~= tail);
        assert forall|i: int| 0 <= i < s.drop_first().len() implies #[trigger] storable(
            s.drop_first()[i],
        ) by {
            assert(s.drop_first()[i] == s[i + 1]);
        }
        lemma_round_trip(s.drop_first());
        assert(seq![s[0]] + s.drop_first() =~= s);
    }
}

/// Relies on `String::from_utf8`: it accepts exactly the well-formed UTF-8 byte
/// sequences, and the string then holds the characters that they encode.
#[verifier::external_body]
fn string_from_utf8(bytes: Vec<u8>) -> (r: Option<String>)
    ensures
        r is Some <==> valid_utf8(bytes@),
        r is Some ==> r->Some_0@ == decode_utf8(bytes@),
{
    String::from_utf8(bytes).ok()
}

/// Reads the record at the start of `t`: the profile and the record's length.
fn read_record(t: &[u8]) -> (r: Option<(TotpProfile, usize)>)
    ensures
        match r {
            None => parse_record(t@) is None,
            Some((p, n)) => parse_record(t@) == Some((p@, n as int)),
        },
{
    let len = t.len();
    if len < 8 {
        return None;
    }
    let nl64 = u64_from_le_bytes(slice_subrange(t, 0, 8));
    if ((len - 8) as u64) < nl64 {
        return None;
    }
    let nl = nl64 as usize;
    if len - 8 - nl < 8 {
        return None;
    }
    let name_bytes = slice_subrange(t, 8, 8 + nl);
    let sl64 = u64_from_le_bytes(slice_subrange(t, 8 + nl, 16 + nl));
    let rem = len - 16 - nl;
    if (rem as u64) < sl64 {
        return None;
    }
    let sl = sl64 as usize;
    if rem - sl < 12 {
        return None;
    }
    let mut name_vec: Vec<u8> = Vec::new();
    append_slice(&mut name_vec, name_bytes);
    let name = match string_from_utf8(name_vec) {
        None => {
            return None;
        },
        Some(n) => n,
    };
    let s0 = 16 + nl + sl;
    let mut secret: Vec<u8> = Vec::new();
    append_slice(&mut secret, slice_subrange(t, 16 + nl, s0));
    let time_step = u64_from_le_bytes(slice_subrange(t, s0, s0 + 8));
    let digits = u32_from_le_bytes(slice_subrange(t, s0 + 8, s0 + 12));
    let p = TotpProfile { name, secret, time_step, digits };
    assert(p@ == parse_record(t@)->Some_0.0);
    Some((p, s0 + 12))
}

/// Decodes a sequence of records into the profiles they hold, in order; `None`
/// where `bytes` is not a well-formed sequence of records.
pub fn deserialize_profiles(bytes: &[u8]) -> (r: Option<Vec<TotpProfile>>)
    ensures
        match r {
            None => parse_records(bytes@) is None,
            Some(v) => parse_records(bytes@) == Some(models(v@)),
        },
{
    let mut out: Vec<TotpProfile> = Vec::new();
    let mut pos: usize = 0;
    let len = bytes.len();
    assert(bytes@.subrange(0, len as int) =~= bytes@);
    assert(models(out@) =~= Seq::<ProfileModel>::empty());
    assert(prefixed(Seq::empty(), parse_records(bytes@)) =~= parse_records(bytes@)) by {
        match parse_records(bytes@) {
            None => {},
            Some(r) => {
                assert(Seq::<ProfileModel>::empty() + r =~= r);
            },
        }
    }
    while pos < len
        invariant
            len == bytes@.len(),
            pos <= len,
            parse_records(bytes@) == prefixed(
                models(out@),
                parse_records(bytes@.subrange(pos as int, len as int)),
            ),
        decreases len - pos,
    {
        let rest = slice_subrange(bytes, pos, len);
        match read_record(rest) {
            None => {
                return None;
            },
            Some((p, n)) => {
                let ghost old_models = models(out@);
                proof {
                    assert(rest@.subrange(n as int, rest@.len() as int) =~= bytes@.subrange(
                        pos + n,
                        len as int,
                    ));
                    match parse_records(bytes@.subrange(pos + n, len as int)) {
                        None => {},
                        Some(r) => {
                            assert(old_models + (seq![p@] + r) =~= old_models.push(p@) + r);
                        },
                    }
                }
                out.push(p);
                assert(models(out@) =~= old_models.push(p@));
                pos = pos + n;
            },
        }
    }
    assert(models(out@) + Seq::<ProfileModel>::empty() =~= models(out@));
    Some(out)
}

} // verus!
