//! A named passcode profile.
use crate::otp::{hotp_value, totp};
use vstd::prelude::*;

verus! {

/// What a profile holds, as mathematical values.
pub struct ProfileModel {
    pub name: Seq<char>,
    pub secret: Seq<u8>,
    pub time_step: u64,
    pub digits: u32,
}

/// A named OTP credential: the raw shared secret, the seconds per TOTP step
/// and the number of digits of each code.
#[derive(Debug, PartialEq, Eq)]
pub struct TotpProfile {
    pub name: String,
    pub secret: Vec<u8>,
    pub time_step: u64,
    pub digits: u32,
}

impl View for TotpProfile {
    type V = ProfileModel;

    open spec fn view(&self) -> ProfileModel {
        ProfileModel {
            name: self.name@,
            secret: self.secret@,
            time_step: self.time_step,
            digits: self.digits,
        }
    }
}

impl TotpProfile {
    /// The TOTP code of this profile at Unix time `time`.
    pub fn get_otp(&self, time: u64) -> (r: u32)
        requires
            self.time_step > 0,
        ensures
            r as int == hotp_value(self.secret@, time / self.time_step, self.digits),
    {
        totp(self.secret.as_slice(), time, self.time_step, self.digits)
    }
}

} // verus!
