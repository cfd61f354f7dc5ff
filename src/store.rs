//! The profile store: a set of uniquely named profiles, persisted as one file
//! sealed with AES-256-GCM-SIV.
use crate::profile::{ProfileModel, TotpProfile};
use crate::codec::{
    append_slice, deserialize_profiles, encode_records, lemma_round_trip, models, parse_records,
    serialize_profiles, storable,
};
use aes_gcm_siv::aead::{Aead, NewAead};
use aes_gcm_siv::{Aes256GcmSiv, Key, Nonce};
use rand::{thread_rng, Rng};
use std::path::PathBuf;
use vstd::prelude::*;
use vstd::slice::slice_subrange;
use vstd::utf8::{encode_utf8, encode_utf8_decode_utf8};

verus! {

/// std's `PathBuf`, the store file's path: carried through, never inspected.
#[verifier::external_type_specification]
#[verifier::external_body]
pub struct ExPathBuf(PathBuf);

/// No two profiles share a name.
pub open spec fn unique_names(s: Seq<ProfileModel>) -> bool {
    forall|i: int, j: int| 0 <= i < s.len() && 0 <= j < s.len() && i != j ==> s[i].name != s[j].name
}

/// The map from name to profile that a sequence of profiles stands for.
pub open spec fn profile_map(s: Seq<ProfileModel>) -> Map<Seq<char>, ProfileModel>
    decreases s.len(),
{
    if s.len() == 0 {
        Map::empty()
    } else {
        profile_map(s.drop_last()).insert(s.last().name, s.last())
    }
}

proof fn lemma_profile_map(s: Seq<ProfileModel>)
    requires
        unique_names(s),
    ensures
        forall|i: int|
            0 <= i < s.len() ==> #[trigger] profile_map(s).contains_key(s[i].name)
                && profile_map(s)[s[i].name] == s[i],
        forall|n: Seq<char>| #[trigger]
            profile_map(s).contains_key(n) ==> exists|i: int| 0 <= i < s.len() && s[i].name == n,
    decreases s.len(),
{
    if s.len() > 0 {
        let t = s.drop_last();
        assert forall|i: int, j: int|
            0 <= i < t.len() && 0 <= j < t.len() && i != j implies t[i].name != t[j].name by {
            assert(t[i] == s[i] && t[j] == s[j]);
        }
        lemma_profile_map(t);
        assert(profile_map(s) == profile_map(t).insert(s.last().name, s.last()));
        assert forall|i: int| 0 <= i < s.len() implies #[trigger] profile_map(s).contains_key(
            s[i].name,
        ) && profile_map(s)[s[i].name] == s[i] by {
            if i < s.len() - 1 {
                assert(t[i] == s[i]);
                assert(s[i].name != s[s.len() - 1].name);
                assert(profile_map(t).contains_key(t[i].name));
            }
        }
        assert forall|n: Seq<char>| #[trigger]
            profile_map(s).contains_key(n) implies exists|i: int|
            0 <= i < s.len() && s[i].name == n by {
            if n == s.last().name {
                assert(s[s.len() - 1].name == n);
            } else {
                assert(profile_map(t).contains_key(n));
                let i = choose|i: int| 0 <= i < t.len() && t[i].name == n;
                assert(s[i] == t[i]);
            }
        }
    }
}

proof fn lemma_profile_map_remove(s: Seq<ProfileModel>, k: int)
    requires
        unique_names(s),
        0 <= k < s.len(),
    ensures
        unique_names(s.remove(k)),
        profile_map(s.remove(k)) == profile_map(s).remove(s[k].name),
{
    let r = s.remove(k);
    assert forall|i: int, j: int|
        0 <= i < r.len() && 0 <= j < r.len() && i != j implies r[i].name != r[j].name by {
        let i2 = if i < k { i } else { i + 1 };
        let j2 = if j < k { j } else { j + 1 };
        assert(r[i] == s[i2] && r[j] == s[j2]);
    }
    lemma_profile_map(s);
    lemma_profile_map(r);
    let m = profile_map(s).remove(s[k].name);
    assert forall|n: Seq<char>| #[trigger] profile_map(r).contains_key(n) <==> m.contains_key(n) by {
        if profile_map(r).contains_key(n) {
            let i = choose|i: int| 0 <= i < r.len() && r[i].name == n;
            let i2 = if i < k { i } else { i + 1 };
            assert(r[i] == s[i2]);
        }
        if m.contains_key(n) {
            let i = choose|i: int| 0 <= i < s.len() && s[i].name == n;
            assert(i != k);
            let i2 = if i < k { i } else { i - 1 };
            assert(r[i2] == s[i]);
        }
    }
    assert forall|n: Seq<char>| #[trigger] profile_map(r).contains_key(n) implies profile_map(r)[n]
        == m[n] by {
        let i = choose|i: int| 0 <= i < r.len() && r[i].name == n;
        let i2 = if i < k { i } else { i + 1 };
        assert(r[i] == s[i2]);
    }
    assert(profile_map(r) =~= m);
}

/// Tells whether two strings hold the same characters, by their UTF-8 bytes.
fn same_text(a: &str, b: &str) -> (r: bool)
    ensures
        r == (a@ == b@),
{
    let x: &[u8] = a.as_bytes();
    let y: &[u8] = b.as_bytes();
    proof {
        encode_utf8_decode_utf8(a@);
        encode_utf8_decode_utf8(b@);
    }
    assert(x@ == encode_utf8(a@) && y@ == encode_utf8(b@));
    if x.len() != y.len() {
        return false;
    }
    let mut i: usize = 0;
    while i < x.len()
        invariant
            x@.len() == y@.len(),
            x@ == encode_utf8(a@),
            y@ == encode_utf8(b@),
            i <= x@.len(),
            forall|j: int| 0 <= j < i ==> x@[j] == y@[j],
        decreases x@.len() - i,
    {
        if x[i] != y[i] {
            assert(x@ != y@);
            return false;
        }
        i = i + 1;
    }
    assert(x@ =~= y@);
    true
}

/// aead's `Error`, the failure of an encryption or decryption: only told apart
/// from success.
#[verifier::external_type_specification]
#[verifier::external_body]
pub struct ExAeadError(aes_gcm_siv::aead::Error);

/// Bytes of nonce at the start of a store file.
pub const NONCE_LEN: usize = 12;

/// The longest plaintext that AES-GCM-SIV encrypts: 2^36 bytes.
pub const MAX_PLAINTEXT_LEN: u64 = 68719476736;

/// The AES-256-GCM-SIV encryption of `plain` under `key` and `nonce`: the
/// ciphertext followed by its 16-byte tag.
pub uninterp spec fn sealed(key: Seq<u8>, nonce: Seq<u8>, plain: Seq<u8>) -> Seq<u8>;

/// Relies on aes-gcm-siv's `Aes256GcmSiv::encrypt` (aead's `Aead`, no
/// associated data): it fails exactly when the plaintext is longer than
/// `P_MAX`, 2^36 bytes, and is otherwise a function of key, nonce and plaintext.
#[verifier::external_body]
fn aes_encrypt(key: &[u8; 32], nonce: &[u8], plain: &[u8]) -> (r: Result<Vec<u8>, aes_gcm_siv::aead::Error>)
    requires
        nonce@.len() == NONCE_LEN,
    ensures
        r is Ok <==> plain@.len() <= MAX_PLAINTEXT_LEN,
        r is Ok ==> r->Ok_0@ == sealed(key@, nonce@, plain@),
{
    let cipher = Aes256GcmSiv::new(Key::from_slice(key));
    cipher.encrypt(Nonce::from_slice(nonce), plain)
}

/// Relies on aes-gcm-siv's `Aes256GcmSiv::decrypt` (aead's `Aead`, no
/// associated data). In GCM-SIV the tag is computed from the plaintext, and the
/// ciphertext is the plaintext under a keystream that the tag selects;
/// decryption undoes the keystream and accepts only where the tag of what it
/// obtained equals the tag it was given. So it returns `Ok(p)` exactly when the
/// input is the encryption of `p` under the same key and nonce.
#[verifier::external_body]
fn aes_decrypt(key: &[u8; 32], nonce: &[u8], ct: &[u8]) -> (r: Result<Vec<u8>, aes_gcm_siv::aead::Error>)
    requires
        nonce@.len() == NONCE_LEN,
    ensures
        r is Ok ==> ct@ == sealed(key@, nonce@, r->Ok_0@),
        forall|p: Seq<u8>|
            p.len() <= MAX_PLAINTEXT_LEN && #[trigger] sealed(key@, nonce@, p) == ct@ ==> r is Ok
                && r->Ok_0@ == p,
{
    let cipher = Aes256GcmSiv::new(Key::from_slice(key));
    cipher.decrypt(Nonce::from_slice(nonce), ct)
}

/// Relies on rand's `thread_rng`, a cryptographically secure generator, for the
/// 12 bytes of a fresh nonce. Nothing is known of their value.
#[verifier::external_body]
fn random_nonce() -> (r: Vec<u8>)
    ensures
        r@.len() == NONCE_LEN,
{
    thread_rng().gen::<[u8; 12]>().to_vec()
}

/// `data` is a nonce followed by the encryption of `plain` under `key` and that nonce.
pub open spec fn authentic(key: Seq<u8>, data: Seq<u8>, plain: Seq<u8>) -> bool {
    &&& data.len() >= NONCE_LEN
    &&& data.subrange(NONCE_LEN as int, data.len() as int) == sealed(
        key,
        data.subrange(0, NONCE_LEN as int),
        plain,
    )
}

/// Profiles that a store can hold and write: uniquely named, each storable,
/// and short enough in all to be encrypted.
pub open spec fn valid_entries(ms: Seq<ProfileModel>) -> bool {
    &&& unique_names(ms)
    &&& forall|i: int| 0 <= i < ms.len() ==> #[trigger] storable(ms[i])
    &&& encode_records(ms).len() <= MAX_PLAINTEXT_LEN
}

/// Tells whether the profiles of `v` have pairwise different names.
fn names_unique(v: &Vec<TotpProfile>) -> (r: bool)
    ensures
        r == unique_names(models(v@)),
{
    let mut i: usize = 0;
    while i < v.len()
        invariant
            i <= v@.len(),
            forall|a: int, b: int|
                0 <= a < i && 0 <= b < v@.len() && a != b ==> v@[a].name@ != v@[b].name@,
        decreases v@.len() - i,
    {
        let mut j: usize = 0;
        while j < v.len()
            invariant
                i < v@.len(),
                j <= v@.len(),
                forall|a: int, b: int|
                    0 <= a < i && 0 <= b < v@.len() && a != b ==> v@[a].name@ != v@[b].name@,
                forall|b: int| 0 <= b < j && b != i ==> v@[i as int].name@ != v@[b].name@,
            decreases v@.len() - j,
        {
            if j != i && same_text(v[i].name.as_str(), v[j].name.as_str()) {
                assert(models(v@)[i as int].name == models(v@)[j as int].name);
                return false;
            }
            j = j + 1;
        }
        i = i + 1;
    }
    assert forall|a: int, b: int|
        0 <= a < models(v@).len() && 0 <= b < models(v@).len() && a != b implies models(
            v@,
        )[a].name != models(v@)[b].name by {
        assert(models(v@)[a] == v@[a]@ && models(v@)[b] == v@[b]@);
    }
    true
}

/// A name was looked up that no profile of the store holds.
#[derive(Debug)]
pub struct ProfileNotFoundError(pub String);

/// A profile was added under a name that another profile of the store holds.
#[derive(Debug)]
pub struct ExistingProfileError(pub String);

/// A set of uniquely named profiles, with the path of the file it is kept in
/// and the 256-bit key that seals that file.
pub struct ProfileStore {
    path: PathBuf,
    profiles: Vec<TotpProfile>,
    key: [u8; 32],
}

impl View for ProfileStore {
    type V = Map<Seq<char>, ProfileModel>;

    closed spec fn view(&self) -> Map<Seq<char>, ProfileModel> {
        profile_map(self.entries())
    }
}

impl ProfileStore {
    /// The profiles of the store, in the order they are kept and written in.
    pub closed spec fn entries(&self) -> Seq<ProfileModel> {
        models(self.profiles@)
    }

    /// The store's file.
    pub closed spec fn spec_path(&self) -> PathBuf {
        self.path
    }

    /// The store's key.
    pub closed spec fn spec_key(&self) -> Seq<u8> {
        self.key@
    }

    /// The store's names are unique.
    pub closed spec fn wf(&self) -> bool {
        unique_names(self.entries())
    }

    /// A well-formed store's map is that of its entries, whose names are unique.
    pub proof fn lemma_view(&self)
        requires
            self.wf(),
        ensures
            self@ == profile_map(self.entries()),
            unique_names(self.entries()),
    {
    }

    /// An empty store bound to `path` and `key`, not yet written.
    pub fn new(path: PathBuf, key: [u8; 32]) -> (r: Result<Self, StoreSaveError>)
        ensures
            r is Ok,
            r->Ok_0.wf(),
            r->Ok_0@ == Map::<Seq<char>, ProfileModel>::empty(),
            r->Ok_0.spec_path() == path,
            r->Ok_0.spec_key() == key@,
    {
        let store = ProfileStore { path, profiles: Vec::new(), key };
        assert(store.entries() =~= Seq::<ProfileModel>::empty());
        Ok(store)
    }

    /// The file that the store is kept in.
    pub fn path(&self) -> (r: &PathBuf)
        ensures
            *r == self.spec_path(),
    {
        &self.path
    }

    /// The store that `data`, the contents of the store file at `path`, holds
    /// under `key`: the nonce at its start, then the authenticated encryption
    /// of the profile records. Nothing of a file that fails authentication is
    /// used.
    pub fn load(path: PathBuf, key: [u8; 32], data: &[u8]) -> (r: Result<Self, StoreLoadError>)
        ensures
            match r {
                Ok(s) => s.wf() && s.spec_path() == path && s.spec_key() == key@ && exists|
                    p: Seq<u8>,
                | #[trigger] authentic(key@, data@, p) && parse_records(p) == Some(s.entries()),
                Err(StoreLoadError::CannotDecrypt) => forall|p: Seq<u8>|
                    p.len() <= MAX_PLAINTEXT_LEN ==> !#[trigger] authentic(key@, data@, p),
                Err(StoreLoadError::CannotDeserialize) => exists|p: Seq<u8>|
                    #[trigger] authentic(key@, data@, p) && !(parse_records(p) is Some
                        && unique_names(parse_records(p)->Some_0)),
                Err(StoreLoadError::CannotReadFile(_)) => false,
            },
            forall|ms: Seq<ProfileModel>|
                #[trigger] authentic(key@, data@, encode_records(ms)) && valid_entries(ms) ==> r is Ok
                    && r->Ok_0@ == profile_map(ms),
    {
        if data.len() < NONCE_LEN {
            return Err(StoreLoadError::CannotDecrypt);
        }
        let nonce = slice_subrange(data, 0, NONCE_LEN);
        let body = slice_subrange(data, NONCE_LEN, data.len());
        let plain = match aes_decrypt(&key, nonce, body) {
            Err(_) => {
                return Err(StoreLoadError::CannotDecrypt);
            },
            Ok(p) => p,
        };
        assert(authentic(key@, data@, plain@));
        proof {
            assert forall|ms: Seq<ProfileModel>|
                #[trigger] authentic(key@, data@, encode_records(ms)) && valid_entries(
                    ms,
                ) implies plain@ == encode_records(ms) && parse_records(plain@) == Some(ms) by {
                lemma_round_trip(ms);
            }
        }
        let profiles = match deserialize_profiles(plain.as_slice()) {
            None => {
                return Err(StoreLoadError::CannotDeserialize);
            },
            Some(v) => v,
        };
        if !names_unique(&profiles) {
            return Err(StoreLoadError::CannotDeserialize);
        }
        Ok(ProfileStore { path, profiles, key })
    }

    /// The store file's contents under the nonce `nonce`: the nonce, then the
    /// authenticated encryption of the profile records.
    pub fn encrypt_with_nonce(&self, nonce: &[u8]) -> (r: Result<Vec<u8>, StoreSaveError>)
        requires
            self.wf(),
            nonce@.len() == NONCE_LEN,
        ensures
            valid_entries(self.entries()) <==> r is Ok,
            r is Ok ==> r->Ok_0@ == nonce@ + sealed(
                self.spec_key(),
                nonce@,
                encode_records(self.entries()),
            ) && authentic(self.spec_key(), r->Ok_0@, encode_records(self.entries())),
            r is Err ==> r->Err_0 is CannotEncrypt,
    {
        let plain = serialize_profiles(&self.profiles);
        match aes_encrypt(&self.key, nonce, plain.as_slice()) {
            Err(_) => Err(StoreSaveError::CannotEncrypt),
            Ok(ct) => {
                let mut out: Vec<u8> = Vec::new();
                append_slice(&mut out, nonce);
                append_slice(&mut out, ct.as_slice());
                assert(out@.subrange(0, NONCE_LEN as int) =~= nonce@);
                assert(out@.subrange(NONCE_LEN as int, out@.len() as int) =~= ct@);
                Ok(out)
            },
        }
    }

    /// The store file's contents under a fresh random nonce.
    pub fn to_file_bytes(&self) -> (r: Result<Vec<u8>, StoreSaveError>)
        requires
            self.wf(),
        ensures
            valid_entries(self.entries()) <==> r is Ok,
            r is Ok ==> authentic(self.spec_key(), r->Ok_0@, encode_records(self.entries())),
            r is Err ==> r->Err_0 is CannotEncrypt,
    {
        let nonce = random_nonce();
        self.encrypt_with_nonce(nonce.as_slice())
    }

    /// The index of the profile named `name`, if there is one.
    fn find(&self, name: &str) -> (r: Option<usize>)
        ensures
            match r {
                Some(i) => i < self.profiles@.len() && self.profiles@[i as int].name@ == name@,
                None => forall|i: int|
                    0 <= i < self.profiles@.len() ==> self.profiles@[i].name@ != name@,
            },
    {
        let mut i: usize = 0;
        while i < self.profiles.len()
            invariant
                i <= self.profiles@.len(),
                forall|j: int| 0 <= j < i ==> self.profiles@[j].name@ != name@,
            decreases self.profiles@.len() - i,
        {
            if same_text(self.profiles[i].name.as_str(), name) {
                return Some(i);
            }
            i = i + 1;
        }
        None
    }

    proof fn lemma_absent(&self, name: Seq<char>)
        requires
            self.wf(),
            forall|i: int| 0 <= i < self.profiles@.len() ==> self.profiles@[i].name@ != name,
        ensures
            !self@.contains_key(name),
    {
        lemma_profile_map(self.entries());
        if self@.contains_key(name) {
            let i = choose|i: int| 0 <= i < self.entries().len() && self.entries()[i].name == name;
            assert(self.entries()[i] == self.profiles@[i]@);
        }
    }

    /// The profile named `name`; `None` where the store holds no such profile.
    pub fn get(&self, name: &str) -> (r: Option<&TotpProfile>)
        requires
            self.wf(),
        ensures
            match r {
                Some(p) => self@.contains_key(name@) && p@ == self@[name@],
                None => !self@.contains_key(name@),
            },
    {
        match self.find(name) {
            Some(i) => {
                proof {
                    lemma_profile_map(self.entries());
                    assert(self.entries()[i as int] == self.profiles@[i as int]@);
                    assert(profile_map(self.entries()).contains_key(self.entries()[i as int].name));
                }
                Some(&self.profiles[i])
            },
            None => {
                proof {
                    self.lemma_absent(name@);
                }
                None
            },
        }
    }

    /// Adds `new_profile` where no profile of the store has its name; otherwise
    /// fails with that name and leaves the store as it was.
    pub fn add(&mut self, new_profile: TotpProfile) -> (r: Result<(), ExistingProfileError>)
        requires
            old(self).wf(),
        ensures
            final(self).wf(),
            final(self).spec_path() == old(self).spec_path(),
            final(self).spec_key() == old(self).spec_key(),
            old(self)@.contains_key(new_profile.name@) ==> r is Err && r->Err_0.0@
                == new_profile.name@ && final(self)@ == old(self)@,
            !old(self)@.contains_key(new_profile.name@) ==> r is Ok && final(self)@ == old(
                self,
            )@.insert(new_profile.name@, new_profile@),
    {
        match self.find(new_profile.name.as_str()) {
            Some(i) => {
                proof {
                    lemma_profile_map(self.entries());
                    assert(self.entries()[i as int] == self.profiles@[i as int]@);
                }
                Err(ExistingProfileError(new_profile.name.clone()))
            },
            None => {
                proof {
                    self.lemma_absent(new_profile.name@);
                }
                let ghost before = self.entries();
                self.profiles.push(new_profile);
                proof {
                    assert(self.entries() =~= before.push(new_profile@));
                    assert(self.entries().drop_last() =~= before);
                    assert forall|i: int, j: int|
                        0 <= i < self.entries().len() && 0 <= j < self.entries().len() && i
                            != j implies self.entries()[i].name != self.entries()[j].name by {
                        if i < before.len() && j < before.len() {
                            assert(self.entries()[i] == before[i]);
                            assert(self.entries()[j] == before[j]);
                        } else if i < before.len() {
                            assert(before[i] == self.profiles@[i]@);
                        } else {
                            assert(before[j] == self.profiles@[j]@);
                        }
                    }
                }
                Ok(())
            },
        }
    }

    /// Removes and returns the profile named `name`; `None`, with the store
    /// unchanged, where there is no such profile.
    pub fn remove(&mut self, name: &str) -> (r: Option<TotpProfile>)
        requires
            old(self).wf(),
        ensures
            final(self).wf(),
            final(self).spec_path() == old(self).spec_path(),
            final(self).spec_key() == old(self).spec_key(),
            match r {
                Some(p) => old(self)@.contains_key(name@) && p@ == old(self)@[name@]
                    && final(self)@ == old(self)@.remove(name@),
                None => !old(self)@.contains_key(name@) && final(self)@ == old(self)@,
            },
    {
        match self.find(name) {
            Some(i) => {
                let ghost before = self.entries();
                proof {
                    lemma_profile_map(before);
                    assert(before[i as int] == self.profiles@[i as int]@);
                    lemma_profile_map_remove(before, i as int);
                }
                let p = self.profiles.remove(i);
                assert(self.entries() =~= before.remove(i as int));
                Some(p)
            },
            None => {
                proof {
                    self.lemma_absent(name@);
                }
                None
            },
        }
    }
}

/// Why a store could not be loaded.
#[derive(Debug)]
pub enum StoreLoadError {
    /// The file could not be read.
    CannotReadFile(std::io::Error),
    /// The file is not a sealed store under the key: too short, or failing authentication.
    CannotDecrypt,
    /// The authenticated plaintext is not a well-formed set of uniquely named profiles.
    CannotDeserialize,
}

/// Why a store could not be written.
#[derive(Debug)]
pub enum StoreSaveError {
    /// The file could not be written.
    CannotWriteFile(std::io::Error),
    /// The encoded profile set is too long to be encrypted.
    CannotEncrypt,
}

/// std's `io::Error`, carried in the error of a failed read or write.
#[verifier::external_type_specification]
#[verifier::external_body]
pub struct ExIoError(std::io::Error);

} // verus!
