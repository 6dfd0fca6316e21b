use petaddr::address::{
    ends_with, KeyError, KeyMaterial, MatcherConfig, MatcherMode, PetAddress, MAX_ATTEMPTS,
};

fn address_of(text: &str) -> PetAddress {
    PetAddress {
        public_key: text.to_string(),
        private_key: "secret".to_string(),
        address: text.to_string(),
    }
}

#[test]
fn ends_with_compares_the_end() {
    assert!(ends_with("7xKXPet", "Pet"));
    assert!(ends_with("Pet", "Pet"));
    assert!(ends_with("anything", ""));
    assert!(!ends_with("7xKXPe", "Pet"));
    assert!(!ends_with("et", "Pet"));
    assert!(!ends_with("Pet7", "Pet"));
}

#[test]
fn ends_with_is_case_sensitive() {
    assert!(!ends_with("7xKXpet", "Pet"));
    assert!(!ends_with("7xKXPET", "Pet"));
}

#[test]
fn ends_with_agrees_with_the_standard_library() {
    for (text, suffix) in [("abc", "bc"), ("abc", "abc"), ("abc", "abcd"), ("\u{e9}t\u{e9}", "\u{e9}"), ("", ""), ("", "a")] {
        assert_eq!(ends_with(text, suffix), text.ends_with(suffix));
    }
}

#[test]
fn accept_keeps_a_matching_candidate() {
    let kept = PetAddress::accept(address_of("9abcPet"), "Pet").unwrap();
    assert_eq!(kept.address, "9abcPet");
    assert_eq!(kept.public_key, "9abcPet");
    assert_eq!(kept.private_key, "secret");
}

#[test]
fn accept_drops_a_candidate_that_does_not_match() {
    assert!(PetAddress::accept(address_of("9abcPeT"), "Pet").is_none());
    assert!(PetAddress::accept(address_of(""), "Pet").is_none());
}

#[test]
fn attempt_with_empty_suffix_always_finds() {
    let a = PetAddress::attempt("").unwrap();
    assert_eq!(a.public_key, a.address);
    assert!(!a.address.is_empty());
    assert!(!a.private_key.is_empty());
}

#[test]
fn attempt_makes_a_fresh_key_each_time() {
    let a = PetAddress::attempt("").unwrap();
    let b = PetAddress::attempt("").unwrap();
    assert_ne!(a.address, b.address);
    assert_ne!(a.private_key, b.private_key);
}

#[test]
fn suffix_holds_of_every_address_found() {
    for suffix in ["a", "Z", "7"] {
        let (found, tried) = PetAddress::search(suffix, 100_000);
        let a = found.unwrap();
        assert!(a.address.ends_with(suffix));
        assert_eq!(a.public_key, a.address);
        assert!(tried >= 1 && tried <= 100_000);
    }
}

#[test]
fn search_gives_up_after_its_bound() {
    let (found, tried) = PetAddress::search("0OIl", 50);
    assert!(found.is_none());
    assert_eq!(tried, 50);
}

#[test]
fn search_without_attempts_finds_nothing() {
    let (found, tried) = PetAddress::search("", 0);
    assert!(found.is_none());
    assert_eq!(tried, 0);
}

#[test]
fn search_slice_respects_the_bound_of_the_mode() {
    let mode = MatcherMode::Bounded { max_attempts: 10 };
    let (found, tried) = PetAddress::search_slice("0OIl", mode, 7, 100);
    assert!(found.is_none());
    assert_eq!(tried, 3);
    let (found, tried) = PetAddress::search_slice("0OIl", mode, 10, 100);
    assert!(found.is_none());
    assert_eq!(tried, 0);
    let (found, tried) = PetAddress::search_slice("0OIl", MatcherMode::Unbounded, 1_000_000, 20);
    assert!(found.is_none());
    assert_eq!(tried, 20);
}

#[test]
fn matcher_mode_budget_and_exhaustion() {
    let bounded = MatcherMode::Bounded { max_attempts: 10 };
    assert_eq!(bounded.budget(0, 4), 4);
    assert_eq!(bounded.budget(8, 4), 2);
    assert_eq!(bounded.budget(10, 4), 0);
    assert_eq!(bounded.budget(11, 4), 0);
    assert!(!bounded.exhausted(9));
    assert!(bounded.exhausted(10));
    assert_eq!(MatcherMode::Unbounded.budget(usize::MAX, 4), 4);
    assert!(!MatcherMode::Unbounded.exhausted(usize::MAX));
}

#[test]
fn standing_bound_is_a_million() {
    assert_eq!(MAX_ATTEMPTS, 1_000_000);
}

#[test]
fn from_keypair_writes_the_secret_in_base58() {
    let km = KeyMaterial {
        public_key: "shown".to_string(),
        secret: vec![0x04, 0x30, 0x5e, 0x2b, 0x24, 0x73, 0xf0, 0x58],
    };
    let a = PetAddress::from_keypair(&km);
    assert_eq!(a.public_key, "shown");
    assert_eq!(a.address, "shown");
    assert_eq!(a.private_key, "he11owor1d");
}

#[test]
fn to_keypair_gives_back_the_key_pair() {
    let a = PetAddress::attempt("").unwrap();
    let km = a.to_keypair().unwrap();
    assert_eq!(km.public_key, a.address);
    assert_eq!(km.secret.len(), 64);
    let again = PetAddress::from_keypair(&km);
    assert_eq!(again.private_key, a.private_key);
    assert_eq!(again.address, a.address);
}

#[test]
fn to_keypair_agrees_with_the_key_pair_of_the_sdk() {
    let a = PetAddress::attempt("").unwrap();
    let bytes = bs58::decode(&a.private_key).into_vec().unwrap();
    let keypair = solana_sdk::signature::Keypair::try_from(&bytes[..]).unwrap();
    let shown = solana_sdk::signature::Signer::pubkey(&keypair).to_string();
    assert_eq!(shown, a.address);
    assert_eq!(a.to_keypair().unwrap().secret, bytes);
}

#[test]
fn to_keypair_rejects_text_that_is_not_base58() {
    let mut a = address_of("x");
    a.private_key = "0OIl".to_string();
    assert_eq!(a.to_keypair().unwrap_err(), KeyError::Encoding);
}

#[test]
fn to_keypair_rejects_bytes_that_are_no_key_pair() {
    let mut a = address_of("x");
    a.private_key = "he11owor1d".to_string();
    assert_eq!(a.to_keypair().unwrap_err(), KeyError::Keypair);
    let mut b = PetAddress::attempt("").unwrap();
    let mut bytes = bs58::decode(&b.private_key).into_vec().unwrap();
    bytes[63] ^= 1;
    b.private_key = bs58::encode(&bytes).into_string();
    assert_eq!(b.to_keypair().unwrap_err(), KeyError::Keypair);
}

#[test]
fn duplicate_copies_every_field() {
    let a = address_of("7xKXPet");
    let b = a.duplicate();
    assert_eq!(b.public_key, a.public_key);
    assert_eq!(b.private_key, a.private_key);
    assert_eq!(b.address, a.address);
}

#[test]
fn standing_settings_are_pet_and_a_million() {
    let config = MatcherConfig::standing();
    assert_eq!(config.suffix, "Pet");
    assert_eq!(config.mode, MatcherMode::Bounded { max_attempts: 1_000_000 });
}

#[test]
fn search_with_uses_suffix_and_mode_of_the_settings() {
    let config = MatcherConfig { suffix: "q".to_string(), mode: MatcherMode::Unbounded };
    let mut made = 0;
    let found = loop {
        let (found, tried) = PetAddress::search_with(&config, made, 1_000);
        made += tried;
        if let Some(a) = found {
            break a;
        }
        assert!(made < 1_000_000);
    };
    assert!(found.address.ends_with('q'));
    let spent = MatcherConfig { suffix: "q".to_string(), mode: MatcherMode::Bounded { max_attempts: 5 } };
    let (none, tried) = PetAddress::search_with(&spent, 5, 1_000);
    assert!(none.is_none());
    assert_eq!(tried, 0);
}
