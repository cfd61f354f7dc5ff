//! One-time passcodes (HOTP and TOTP over HMAC-SHA-1) and an encrypted,
//! authenticated store of named passcode profiles.
pub mod codec;
pub mod otp;
pub mod profile;
pub mod store;

pub use otp::{hotp, totp};
pub use profile::TotpProfile;
pub use store::{
    ExistingProfileError, ProfileNotFoundError, ProfileStore, StoreLoadError, StoreSaveError,
};
