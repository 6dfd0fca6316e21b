//! Vanity addresses: a key pair whose public address ends with a wanted suffix,
//! and the search that finds one.

use solana_sdk::signature::Signer;
use vstd::prelude::*;
use vstd::utf8::encode_utf8;

verus! {

/// A key pair as plain values: the address under which the public key is shown,
/// and the sixty-four bytes that hold the secret key followed by the public key.
#[derive(Debug)]
pub struct KeyMaterial {
    pub public_key: String,
    pub secret: Vec<u8>,
}

/// A key pair ready to be handed out.
#[derive(Debug, Clone)]
pub struct PetAddress {
    pub public_key: String,
    pub private_key: String,
    pub address: String,
}

/// A pooled address with the identifier and the creation time that the store gave it.
/// The time is kept as the text that is written to the store.
#[derive(Debug, Clone)]
pub struct PetAddressInfo {
    pub id: u64,
    pub address: PetAddress,
    pub created_at: String,
}

/// What a `PetAddress` holds.
pub struct PetAddressView {
    pub public_key: Seq<char>,
    pub private_key: Seq<char>,
    pub address: Seq<char>,
}

/// What a `PetAddressInfo` holds.
pub struct PetAddressInfoView {
    pub id: u64,
    pub address: PetAddressView,
    pub created_at: Seq<char>,
}

impl View for PetAddress {
    type V = PetAddressView;

    open spec fn view(&self) -> PetAddressView {
        PetAddressView {
            public_key: self.public_key@,
            private_key: self.private_key@,
            address: self.address@,
        }
    }
}

impl View for PetAddressInfo {
    type V = PetAddressInfoView;

    open spec fn view(&self) -> PetAddressInfoView {
        PetAddressInfoView { id: self.id, address: self.address@, created_at: self.created_at@ }
    }
}

/// Why a stored private key could not be turned back into a key pair.
#[derive(Debug, Clone, Copy, PartialEq, Eq)]
pub enum KeyError {
    /// The text is not Base58.
    Encoding,
    /// The bytes are not a key pair: not sixty-four of them, or the public half
    /// does not belong to the secret half.
    Keypair,
}

/// How long a search goes on.
#[derive(Debug, Clone, Copy, PartialEq, Eq)]
pub enum MatcherMode {
    /// Give up after this many key pairs.
    Bounded { max_attempts: usize },
    /// Go on until a key pair matches; only a cancellation ends the search.
    Unbounded,
}

/// The settings of the search: the suffix that an address must end with, and
/// how long the search goes on.
#[derive(Debug)]
pub struct MatcherConfig {
    pub suffix: String,
    pub mode: MatcherMode,
}

/// The Base58 text of some bytes, as `bs58` writes it with its default alphabet.
pub uninterp spec fn base58_text(bytes: Seq<u8>) -> Seq<char>;

/// The bytes that a Base58 text stands for, or none where `bs58` rejects the text.
pub uninterp spec fn base58_bytes(text: Seq<char>) -> Option<Seq<u8>>;

/// The address of the key pair that sixty-four bytes hold, or none where they
/// hold no key pair.
pub uninterp spec fn keypair_address(bytes: Seq<u8>) -> Option<Seq<char>>;

/// `bs58::decode::Error`, the error with which a text is rejected.
#[verifier::external_type_specification]
#[verifier::external_body]
pub struct ExBase58DecodeError(bs58::decode::Error);

/// `solana_sdk::signature::Keypair::new`, turned into plain values with
/// `Signer::pubkey` and `Keypair::to_bytes`. The key is random. What is said
/// of it holds of every key pair: its byte form is an array of sixty-four, the
/// secret key followed by its own public key, which `Keypair::try_from` takes
/// back as the same key pair with the same address.
#[verifier::external_body]
fn fresh_key_material() -> (km: KeyMaterial)
    ensures
        km.secret@.len() == 64,
        keypair_address(km.secret@) == Some(km.public_key@),
{
    let keypair = solana_sdk::signature::Keypair::new();
    KeyMaterial { public_key: keypair.pubkey().to_string(), secret: keypair.to_bytes().to_vec() }
}

/// `Keypair::try_from` on a byte slice, the result turned into plain values.
/// It accepts sixty-four bytes whose second half is the public key of the
/// first; an accepted key pair writes itself as the same bytes.
#[verifier::external_body]
fn key_material_from_bytes(bytes: &[u8]) -> (r: Option<KeyMaterial>)
    ensures
        match r {
            Some(km) => keypair_address(bytes@) == Some(km.public_key@) && km.secret@ == bytes@
                && bytes@.len() == 64,
            None => keypair_address(bytes@) is None,
        },
{
    match solana_sdk::signature::Keypair::try_from(bytes) {
        Ok(keypair) => Some(
            KeyMaterial {
                public_key: keypair.pubkey().to_string(),
                secret: keypair.to_bytes().to_vec(),
            },
        ),
        Err(_) => None,
    }
}

/// `bs58::encode(..).into_string()`: the Base58 text of the bytes, which
/// `bs58::decode` reads back as the same bytes.
#[verifier::external_body]
fn base58_encode(bytes: &[u8]) -> (text: String)
    ensures
        text@ == base58_text(bytes@),
        base58_bytes(text@) == Some(bytes@),
{
    bs58::encode(bytes).into_string()
}

/// `bs58::decode(..).into_vec()`: the bytes of a Base58 text, or the error with
/// which `bs58` rejects it.
#[verifier::external_body]
fn base58_decode(text: &str) -> (r: Result<Vec<u8>, bs58::decode::Error>)
    ensures
        match r {
            Ok(bytes) => base58_bytes(text@) == Some(bytes@),
            Err(_) => base58_bytes(text@) is None,
        },
{
    bs58::decode(text).into_vec()
}

/// Whether the bytes `text` end with the bytes `suffix`.
pub open spec fn is_suffix(suffix: Seq<u8>, text: Seq<u8>) -> bool {
    suffix.len() <= text.len() && text.subrange(text.len() - suffix.len(), text.len() as int)
        == suffix
}

/// The suffix that the pool is filled with.
pub open spec fn pet_suffix() -> Seq<u8> {
    seq![0x50u8, 0x65u8, 0x74u8]
}

/// The number of key pairs that one search with the standing settings tries.
pub const MAX_ATTEMPTS: usize = 1_000_000;

/// Tells whether `text` ends with `suffix`, byte for byte.
pub fn ends_with(text: &str, suffix: &str) -> (r: bool)
    ensures
        r == is_suffix(encode_utf8(suffix@), encode_utf8(text@)),
{
    let t = text.as_bytes();
    let s = suffix.as_bytes();
    if s.len() > t.len() {
        return false;
    }
    let off: usize = t.len() - s.len();
    let mut i: usize = 0;
    while i < s.len()
        invariant
            t@ == encode_utf8(text@),
            s@ == encode_utf8(suffix@),
            off + s.len() == t.len(),
            i <= s.len(),
            forall|j: int| 0 <= j < i ==> t@[off + j] == s@[j],
        decreases s.len() - i,
    {
        if t[off + i] != s[i] {
            assert(t@.subrange(off as int, t@.len() as int)[i as int] == t@[off + i]);
            return false;
        }
        i = i + 1;
    }
    assert(t@.subrange(off as int, t@.len() as int) =~= s@);
    true
}

impl MatcherMode {
    /// How many of `slice` further key pairs a search may still try after
    /// `attempts_made`: all of them without a bound, else no more than the bound leaves.
    pub open spec fn spec_budget(self, attempts_made: usize, slice: usize) -> usize {
        match self {
            MatcherMode::Unbounded => slice,
            MatcherMode::Bounded { max_attempts } => if attempts_made >= max_attempts {
                0
            } else if max_attempts - attempts_made < slice {
                (max_attempts - attempts_made) as usize
            } else {
                slice
            },
        }
    }

    /// Whether the search has used up its bound and gives up.
    pub open spec fn spec_exhausted(self, attempts_made: usize) -> bool {
        match self {
            MatcherMode::Unbounded => false,
            MatcherMode::Bounded { max_attempts } => attempts_made >= max_attempts,
        }
    }

    /// The number of key pairs to try next, out of a slice of `slice`.
    pub fn budget(&self, attempts_made: usize, slice: usize) -> (n: usize)
        ensures
            n == self.spec_budget(attempts_made, slice),
    {
        match self {
            MatcherMode::Unbounded => slice,
            MatcherMode::Bounded { max_attempts } => {
                if attempts_made >= *max_attempts {
                    0
                } else if *max_attempts - attempts_made < slice {
                    *max_attempts - attempts_made
                } else {
                    slice
                }
            },
        }
    }

    /// Tells whether a search that has tried `attempts_made` key pairs gives up.
    /// A search without a bound never does.
    pub fn exhausted(&self, attempts_made: usize) -> (r: bool)
        ensures
            r == self.spec_exhausted(attempts_made),
    {
        match self {
            MatcherMode::Unbounded => false,
            MatcherMode::Bounded { max_attempts } => attempts_made >= *max_attempts,
        }
    }
}

impl MatcherConfig {
    /// The standing settings: the suffix `Pet`, and a bound of a million key pairs.
    pub fn standing() -> (config: MatcherConfig)
        ensures
            config.suffix@ == "Pet"@,
            config.mode == (MatcherMode::Bounded { max_attempts: MAX_ATTEMPTS }),
    {
        MatcherConfig {
            suffix: "Pet".to_owned(),
            mode: MatcherMode::Bounded { max_attempts: MAX_ATTEMPTS },
        }
    }
}

impl PetAddress {
    /// Whether the address ends with `suffix`.
    pub open spec fn matches_suffix(&self, suffix: Seq<u8>) -> bool {
        is_suffix(suffix, encode_utf8(self.address@))
    }

    /// What `from_keypair` makes of a key pair.
    pub open spec fn of_key_material(km: KeyMaterial) -> PetAddressView {
        PetAddressView {
            public_key: km.public_key@,
            private_key: base58_text(km.secret@),
            address: km.public_key@,
        }
    }

    /// The address of a key pair: the public key as it is shown, twice, and the
    /// key pair's bytes in Base58.
    pub fn from_keypair(keypair: &KeyMaterial) -> (a: PetAddress)
        ensures
            a@ == Self::of_key_material(*keypair),
            base58_bytes(a.private_key@) == Some(keypair.secret@),
    {
        PetAddress {
            public_key: keypair.public_key.clone(),
            private_key: base58_encode(keypair.secret.as_slice()),
            address: keypair.public_key.clone(),
        }
    }

    /// The key pair that the private key holds.
    pub fn to_keypair(&self) -> (r: Result<KeyMaterial, KeyError>)
        ensures
            match r {
                Ok(km) => base58_bytes(self.private_key@) == Some(km.secret@) && keypair_address(
                    km.secret@,
                ) == Some(km.public_key@),
                Err(KeyError::Encoding) => base58_bytes(self.private_key@) is None,
                Err(KeyError::Keypair) => base58_bytes(self.private_key@) matches Some(b)
                    && keypair_address(b) is None,
            },
    {
        match base58_decode(self.private_key.as_str()) {
            Err(_) => Err(KeyError::Encoding),
            Ok(bytes) => match key_material_from_bytes(bytes.as_slice()) {
                Some(km) => Ok(km),
                None => Err(KeyError::Keypair),
            },
        }
    }

    /// A second copy of the address.
    pub fn duplicate(&self) -> (copy: PetAddress)
        ensures
            copy@ == self@,
    {
        PetAddress {
            public_key: self.public_key.clone(),
            private_key: self.private_key.clone(),
            address: self.address.clone(),
        }
    }

    /// Keeps a candidate exactly when its address ends with `suffix`.
    pub fn accept(candidate: PetAddress, suffix: &str) -> (r: Option<PetAddress>)
        ensures
            r is Some <==> candidate.matches_suffix(encode_utf8(suffix@)),
            r matches Some(a) ==> a == candidate,
    {
        if ends_with(candidate.address.as_str(), suffix) {
            Some(candidate)
        } else {
            None
        }
    }

    /// One attempt: makes one fresh key pair and keeps it if its address ends
    /// with `suffix`.
    pub fn attempt(suffix: &str) -> (r: Option<PetAddress>)
        ensures
            r matches Some(a) ==> a.matches_suffix(encode_utf8(suffix@)) && a.public_key@
                == a.address@,
            exists|km: KeyMaterial| attempt_result(km, encode_utf8(suffix@), r),
    {
        let km = fresh_key_material();
        let r = Self::accept(Self::from_keypair(&km), suffix);
        assert(attempt_result(km, encode_utf8(suffix@), r));
        r
    }

    /// Tries up to `max_attempts` fresh key pairs and returns the first whose
    /// address ends with `suffix`, with the number of key pairs tried.
    pub fn search(suffix: &str, max_attempts: usize) -> (r: (Option<PetAddress>, usize))
        ensures
            r.0 matches Some(a) ==> a.matches_suffix(encode_utf8(suffix@)) && a.public_key@
                == a.address@,
            r.1 <= max_attempts,
            r.0 is Some ==> r.1 >= 1,
            r.0 is None ==> r.1 == max_attempts,
            exists|kms: Seq<KeyMaterial>| search_result(kms, encode_utf8(suffix@), max_attempts, r),
    {
        let mut tried: usize = 0;
        let ghost mut kms: Seq<KeyMaterial> = Seq::empty();
        while tried < max_attempts
            invariant
                tried <= max_attempts,
                kms.len() == tried,
                forall|i: int|
                    0 <= i < kms.len() ==> (#[trigger] kms[i]).secret@.len() == 64
                        && keypair_address(kms[i].secret@) == Some(kms[i].public_key@)
                        && !key_matches(kms[i], encode_utf8(suffix@)),
            decreases max_attempts - tried,
        {
            tried = tried + 1;
            let found = Self::attempt(suffix);
            proof {
                let km = choose|km: KeyMaterial| attempt_result(km, encode_utf8(suffix@), found);
                kms = kms.push(km);
            }
            match found {
                Some(a) => {
                    assert(search_result(kms, encode_utf8(suffix@), max_attempts, (Some(a), tried)));
                    return (Some(a), tried);
                },
                None => {},
            }
        }
        assert(search_result(kms, encode_utf8(suffix@), max_attempts, (None::<PetAddress>, tried)));
        (None, tried)
    }

    /// One slice of a search in the given mode: tries up to `slice` further key
    /// pairs, and no more than the mode's bound leaves after `attempts_made`.
    /// The caller looks at its cancellation signal between slices.
    pub fn search_slice(suffix: &str, mode: MatcherMode, attempts_made: usize, slice: usize) -> (r:
        (Option<PetAddress>, usize))
        ensures
            r.0 matches Some(a) ==> a.matches_suffix(encode_utf8(suffix@)) && a.public_key@
                == a.address@,
            r.1 <= mode.spec_budget(attempts_made, slice),
            r.0 is Some ==> r.1 >= 1,
            r.0 is None ==> r.1 == mode.spec_budget(attempts_made, slice),
            exists|kms: Seq<KeyMaterial>|
                search_result(
                    kms,
                    encode_utf8(suffix@),
                    mode.spec_budget(attempts_made, slice),
                    r,
                ),
    {
        Self::search(suffix, mode.budget(attempts_made, slice))
    }

    /// One slice of a search with the given settings.
    pub fn search_with(config: &MatcherConfig, attempts_made: usize, slice: usize) -> (r: (
        Option<PetAddress>,
        usize,
    ))
        ensures
            r.0 matches Some(a) ==> a.matches_suffix(encode_utf8(config.suffix@)) && a.public_key@
                == a.address@,
            r.1 <= config.mode.spec_budget(attempts_made, slice),
            r.0 is Some ==> r.1 >= 1,
            r.0 is None ==> r.1 == config.mode.spec_budget(attempts_made, slice),
            exists|kms: Seq<KeyMaterial>|
                search_result(
                    kms,
                    encode_utf8(config.suffix@),
                    config.mode.spec_budget(attempts_made, slice),
                    r,
                ),
    {
        Self::search_slice(config.suffix.as_str(), config.mode, attempts_made, slice)
    }

    /// Searches with the standing settings: the suffix `Pet`, and a bound of a
    /// million key pairs, after which it gives up.
    pub fn generate() -> (r: Option<PetAddress>)
        ensures
            r matches Some(a) ==> a.matches_suffix(pet_suffix()) && a.public_key@ == a.address@,
            exists|kms: Seq<KeyMaterial>| generate_result(kms, r),
    {
        let suffix = "Pet";
        proof {
            reveal_strlit("Pet");
            lemma_pet_suffix_bytes();
        }
        let outcome = Self::search(suffix, MAX_ATTEMPTS);
        proof {
            let kms = choose|kms: Seq<KeyMaterial>|
                search_result(kms, encode_utf8(suffix@), MAX_ATTEMPTS, outcome);
            assert(generate_result(kms, outcome.0));
        }
        outcome.0
    }
}

/// The bytes of the text `Pet`.
pub proof fn lemma_pet_suffix_bytes()
    ensures
        encode_utf8("Pet"@) == pet_suffix(),
{
    reveal_strlit("Pet");
    let s = "Pet"@;
    assert(s =~= seq!['P', 'e', 't']);
    assert(vstd::utf8::is_ascii_chars(s));
    vstd::utf8::is_ascii_chars_encode_utf8(s);
    assert(encode_utf8(s) =~= pet_suffix());
}

/// Whether the address of a key pair ends with `suffix`.
pub open spec fn key_matches(km: KeyMaterial, suffix: Seq<u8>) -> bool {
    is_suffix(suffix, encode_utf8(km.public_key@))
}

/// What one attempt makes of the fresh key pair `km`: the address of the key
/// pair exactly when that address ends with `suffix`, and nothing otherwise.
/// The private key handed out is the key pair's bytes, and the key pair is
/// the one of the address.
pub open spec fn attempt_result(km: KeyMaterial, suffix: Seq<u8>, r: Option<PetAddress>) -> bool {
    &&& km.secret@.len() == 64
    &&& keypair_address(km.secret@) == Some(km.public_key@)
    &&& (r is Some <==> key_matches(km, suffix))
    &&& (r matches Some(a) ==> a@ == PetAddress::of_key_material(km) && base58_bytes(
        a.private_key@,
    ) == Some(km.secret@))
}

/// What a search makes of the fresh key pairs `kms` that it tried, in their
/// order: none but the last ends with `suffix`; where the search found an
/// address, it is the address of the last key pair, which ends with `suffix`;
/// where it found none, it tried `max_attempts` key pairs and no address ended
/// with `suffix`. The number returned is the number of key pairs tried.
pub open spec fn search_result(
    kms: Seq<KeyMaterial>,
    suffix: Seq<u8>,
    max_attempts: usize,
    r: (Option<PetAddress>, usize),
) -> bool {
    &&& kms.len() == r.1
    &&& r.1 <= max_attempts
    &&& forall|i: int|
        0 <= i < kms.len() ==> (#[trigger] kms[i]).secret@.len() == 64 && keypair_address(
            kms[i].secret@,
        ) == Some(kms[i].public_key@)
    &&& forall|i: int| 0 <= i < kms.len() - 1 ==> !key_matches(#[trigger] kms[i], suffix)
    &&& match r.0 {
        Some(a) => kms.len() >= 1 && key_matches(kms.last(), suffix) && a@
            == PetAddress::of_key_material(kms.last()) && base58_bytes(a.private_key@) == Some(
            kms.last().secret@,
        ),
        None => kms.len() == max_attempts && forall|i: int|
            0 <= i < kms.len() ==> !key_matches(#[trigger] kms[i], suffix),
    }
}

/// What a search with the standing settings makes of the key pairs `kms`
/// that it tried.
pub open spec fn generate_result(kms: Seq<KeyMaterial>, r: Option<PetAddress>) -> bool {
    search_result(kms, pet_suffix(), MAX_ATTEMPTS, (r, kms.len() as usize))
}

} // verus!
