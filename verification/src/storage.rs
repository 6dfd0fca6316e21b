//! The durable pool: entries under the keys of their identifiers, taken out in
//! the order of the identifiers, and the counter that numbers them, both kept
//! in a `sled` database.

use crate::address::{PetAddress, PetAddressInfo, PetAddressInfoView, PetAddressView};
use crate::codec::{decode_entry, decoded_entry, encode_entry, entry_text};
use crate::layout::{
    advance_counter, advanced_counter, be_bytes, counter_key, counter_value, entry_key,
    entry_prefix, has_prefix, key_before, lemma_be_round_trip, lemma_key_before_asymmetric,
    lemma_lex_lt_asymmetric, lex_lt, make_counter_key, make_entry_key, make_entry_prefix,
    stored_counter,
};
use vstd::prelude::*;

verus! {

/// `sled::Db`, a handle on an open database. Nothing of its inside is known here.
#[verifier::external_type_specification]
#[verifier::external_body]
pub struct ExDb(sled::Db);

/// `sled::Error`, the error of a database operation.
#[verifier::external_type_specification]
#[verifier::external_body]
pub struct ExDbError(sled::Error);

/// What a database holds: its keys, each with its value.
pub uninterp spec fn db_entries(db: sled::Db) -> Map<Seq<u8>, Seq<u8>>;

/// Why an operation of the store failed.
#[derive(Debug, Clone, Copy, PartialEq, Eq)]
pub enum StorageError {
    /// The database reported an error.
    Io,
    /// A stored line could not be read as an entry.
    Serialization,
    /// What is stored under the counter key is no counter, or the counter has
    /// reached the largest number.
    Counter,
}

/// The value under `k`, if there is one.
pub open spec fn value_at(m: Map<Seq<u8>, Seq<u8>>, k: Seq<u8>) -> Option<Seq<u8>> {
    if m.contains_key(k) {
        Some(m[k])
    } else {
        None
    }
}

/// The counter that a database holds.
pub open spec fn counter_of(m: Map<Seq<u8>, Seq<u8>>) -> Option<u64> {
    stored_counter(value_at(m, counter_key()))
}

/// Whether `k` is the key of the entry that is taken next: of the keys under
/// the entry prefix the shortest, and of the shortest the first byte by byte.
/// For the keys that the store writes this is the key of the least identifier.
pub open spec fn is_front(m: Map<Seq<u8>, Seq<u8>>, k: Seq<u8>) -> bool {
    &&& m.contains_key(k)
    &&& has_prefix(k, entry_prefix())
    &&& forall|k2: Seq<u8>| #[trigger]
        m.contains_key(k2) && has_prefix(k2, entry_prefix()) ==> k2 == k || key_before(k, k2)
}

/// Whether no key has the prefix.
pub open spec fn no_key_with_prefix(m: Map<Seq<u8>, Seq<u8>>, prefix: Seq<u8>) -> bool {
    forall|k: Seq<u8>| #[trigger] m.contains_key(k) ==> !has_prefix(k, prefix)
}

/// Whether `keys` are all the keys with the prefix, in scan order.
pub open spec fn lists_keys(m: Map<Seq<u8>, Seq<u8>>, prefix: Seq<u8>, keys: Seq<Vec<u8>>) -> bool {
    &&& forall|i: int|
        0 <= i < keys.len() ==> m.contains_key(#[trigger] keys[i]@) && has_prefix(keys[i]@, prefix)
    &&& forall|i: int, j: int| 0 <= i < j < keys.len() ==> lex_lt(#[trigger] keys[i]@, #[trigger] keys[j]@)
    &&& forall|k: Seq<u8>| #[trigger]
        m.contains_key(k) && has_prefix(k, prefix) ==> exists|i: int|
            0 <= i < keys.len() && #[trigger] keys[i]@ == k
}

/// The keys of the pooled entries.
pub open spec fn live_keys(m: Map<Seq<u8>, Seq<u8>>) -> Set<Seq<u8>> {
    Set::new(|k: Seq<u8>| m.contains_key(k) && has_prefix(k, entry_prefix()))
}

/// The key of the oldest entry: the key that is taken next, if there is one.
pub open spec fn front(m: Map<Seq<u8>, Seq<u8>>) -> Option<Seq<u8>> {
    if exists|k: Seq<u8>| is_front(m, k) {
        Some(choose|k: Seq<u8>| is_front(m, k))
    } else {
        None
    }
}

/// An address with the identifier and the time that the store gives it.
pub open spec fn info_of(id: u64, address: PetAddressView, created_at: Seq<char>) -> PetAddressInfoView {
    PetAddressInfoView { id, address, created_at }
}

/// The first step of storing: the counter goes up by one, and the new value
/// is the identifier.
pub open spec fn advance(m: Map<Seq<u8>, Seq<u8>>) -> (Map<Seq<u8>, Seq<u8>>, u64) {
    let id = (counter_of(m)->0 + 1) as u64;
    (m.insert(counter_key(), be_bytes(id)), id)
}

/// The second step of storing: the entry is written under the key of its identifier.
pub open spec fn write_entry(m: Map<Seq<u8>, Seq<u8>>, e: PetAddressInfoView) -> Map<Seq<u8>, Seq<u8>> {
    m.insert(entry_key(e.id), entry_text(e))
}

/// What storing an address does to the database, and the identifier that the
/// address gets: the counter goes up by one, and the entry is written under
/// the key of the new counter value.
pub open spec fn enqueue(m: Map<Seq<u8>, Seq<u8>>, address: PetAddressView, created_at: Seq<char>) -> (
    Map<Seq<u8>, Seq<u8>>,
    u64,
) {
    let step = advance(m);
    (write_entry(step.0, info_of(step.1, address, created_at)), step.1)
}

/// What taking the oldest entry does to the database, and the entry taken:
/// the entry under the front key is read, and that key removed. Nothing
/// changes where there is no entry or the front one cannot be read.
pub open spec fn dequeue(m: Map<Seq<u8>, Seq<u8>>) -> (Map<Seq<u8>, Seq<u8>>, Option<PetAddressInfoView>) {
    match front(m) {
        Some(k) => match decoded_entry(m[k]) {
            Some(e) => (m.remove(k), Some(e)),
            None => (m, None),
        },
        None => (m, None),
    }
}

/// The front key is the only one.
pub proof fn lemma_front_unique(m: Map<Seq<u8>, Seq<u8>>, k: Seq<u8>)
    requires
        is_front(m, k),
    ensures
        front(m) == Some(k),
{
    let c = choose|k: Seq<u8>| is_front(m, k);
    if c != k {
        assert(m.contains_key(c) && has_prefix(c, entry_prefix()));
        assert(m.contains_key(k) && has_prefix(k, entry_prefix()));
        assert(key_before(k, c));
        assert(key_before(c, k));
        lemma_key_before_asymmetric(k, c);
    }
}

/// Where no key has the entry prefix there is no front key.
pub proof fn lemma_front_none(m: Map<Seq<u8>, Seq<u8>>)
    requires
        no_key_with_prefix(m, entry_prefix()),
    ensures
        front(m) is None,
{
    if exists|k: Seq<u8>| is_front(m, k) {
        let c = choose|k: Seq<u8>| is_front(m, k);
        assert(m.contains_key(c));
    }
}

/// In a list of all the entry keys in scan order, the first of the shortest
/// keys is the front key.
pub proof fn lemma_front_of_listing(m: Map<Seq<u8>, Seq<u8>>, keys: Seq<Vec<u8>>, best: int)
    requires
        lists_keys(m, entry_prefix(), keys),
        0 <= best < keys.len(),
        forall|j: int| 0 <= j < keys.len() ==> keys[best]@.len() <= (#[trigger] keys[j])@.len(),
        forall|j: int| 0 <= j < best ==> keys[best]@.len() < (#[trigger] keys[j])@.len(),
    ensures
        is_front(m, keys[best]@),
{
    let k = keys[best]@;
    assert forall|k2: Seq<u8>| #[trigger]
        m.contains_key(k2) && has_prefix(k2, entry_prefix()) implies k2 == k || key_before(k, k2) by {
        let j = choose|j: int| 0 <= j < keys.len() && #[trigger] keys[j]@ == k2;
        assert(k.len() <= keys[j]@.len());
        if j > best {
            assert(lex_lt(keys[best]@, keys[j]@));
        }
    }
}

/// A list of all the entry keys, each once, has as many keys as the pool has entries.
pub proof fn lemma_listed_count(m: Map<Seq<u8>, Seq<u8>>, keys: Seq<Vec<u8>>)
    requires
        lists_keys(m, entry_prefix(), keys),
    ensures
        live_keys(m).finite(),
        live_keys(m).len() == keys.len(),
{
    let ks = keys.map_values(|v: Vec<u8>| v@);
    assert forall|i: int, j: int| 0 <= i < ks.len() && 0 <= j < ks.len() && i != j implies ks[i]
        != ks[j] by {
        if i < j {
            assert(lex_lt(keys[i]@, keys[j]@));
            lemma_lex_lt_asymmetric(ks[i], ks[j]);
        } else {
            assert(lex_lt(keys[j]@, keys[i]@));
            lemma_lex_lt_asymmetric(ks[j], ks[i]);
        }
    }
    assert(ks.no_duplicates());
    ks.unique_seq_to_set();
    vstd::seq_lib::seq_to_set_is_finite(ks);
    assert forall|k: Seq<u8>| live_keys(m).contains(k) implies ks.to_set().contains(k) by {
        assert(m.contains_key(k) && has_prefix(k, entry_prefix()));
        let i = choose|i: int| 0 <= i < keys.len() && #[trigger] keys[i]@ == k;
        assert(ks[i] == k);
    }
    assert forall|k: Seq<u8>| ks.to_set().contains(k) implies live_keys(m).contains(k) by {
        let i = choose|i: int| 0 <= i < ks.len() && ks[i] == k;
        assert(m.contains_key(keys[i]@));
    }
    assert(ks.to_set() =~= live_keys(m));
}

/// `sled::open`: opens the database at a path, or creates it. What it holds is
/// whatever was written there before, so nothing is said of it.
#[verifier::external_body]
fn db_open(path: &str) -> (r: Result<sled::Db, sled::Error>) {
    sled::open(path)
}

/// `sled::Tree::insert` on the database's default tree: where it succeeds, the
/// key holds the value and every other key is as before.
#[verifier::external_body]
fn db_insert(db: &mut sled::Db, key: &[u8], value: Vec<u8>) -> (r: Result<(), sled::Error>)
    ensures
        r is Ok ==> db_entries(*final(db)) == db_entries(*old(db)).insert(key@, value@),
{
    db.insert(key, value).map(|_| ())
}

/// `sled::Tree::remove`: where it succeeds, the key is gone and every other
/// key is as before.
#[verifier::external_body]
fn db_remove(db: &mut sled::Db, key: &[u8]) -> (r: Result<(), sled::Error>)
    ensures
        r is Ok ==> db_entries(*final(db)) == db_entries(*old(db)).remove(key@),
{
    db.remove(key).map(|_| ())
}

/// `sled::Tree::update_and_fetch` with the counter step as its function: where
/// it succeeds, the key holds what the step makes of the value that was there,
/// and that new value is returned.
#[verifier::external_body]
fn db_advance_counter(db: &mut sled::Db, key: &[u8]) -> (r: Result<Option<Vec<u8>>, sled::Error>)
    ensures
        r matches Ok(fetched) ==> fetched matches Some(v) && v@ == advanced_counter(
            value_at(db_entries(*old(db)), key@),
        ) && db_entries(*final(db)) == db_entries(*old(db)).insert(key@, v@),
{
    db.update_and_fetch(key, |stored| advance_counter(stored)).map(|o| o.map(|v| v.to_vec()))
}

/// `sled::Tree::get`: the value under a key, or nothing where the key is not there.
#[verifier::external_body]
fn db_get(db: &sled::Db, key: &[u8]) -> (r: Result<Option<Vec<u8>>, sled::Error>)
    ensures
        match r {
            Ok(Some(v)) => value_at(db_entries(*db), key@) == Some(v@),
            Ok(None) => value_at(db_entries(*db), key@) is None,
            Err(_) => true,
        },
{
    db.get(key).map(|o| o.map(|v| v.to_vec()))
}

/// All the keys of `sled::Tree::scan_prefix`: every key with the prefix, once,
/// in byte order.
#[verifier::external_body]
fn db_keys_with_prefix(db: &sled::Db, prefix: &[u8]) -> (r: Result<Vec<Vec<u8>>, sled::Error>)
    ensures
        r matches Ok(keys) ==> lists_keys(db_entries(*db), prefix@, keys@),
{
    let mut keys = Vec::new();
    for key in db.scan_prefix(prefix).keys() {
        keys.push(key?.to_vec());
    }
    Ok(keys)
}

/// `sled::Tree::flush`: writes what is pending to disk. It changes no key.
#[verifier::external_body]
fn db_flush(db: &sled::Db) -> (r: Result<(), sled::Error>) {
    db.flush().map(|_| ())
}

/// `chrono::Utc::now`, written as RFC 3339 text with `Z` for the offset and as
/// many fraction digits as the time has.
#[verifier::external_body]
pub(crate) fn current_timestamp() -> (text: String) {
    chrono::Utc::now().to_rfc3339_opts(chrono::SecondsFormat::AutoSi, true)
}

/// The identifier that a fetched counter value gives: the number that the
/// eight bytes spell.
pub fn id_of_counter(fetched: &[u8]) -> (r: Result<u64, StorageError>)
    ensures
        match r {
            Ok(id) => stored_counter(Some(fetched@)) == Some(id),
            Err(e) => e == StorageError::Counter && stored_counter(Some(fetched@)) is None,
        },
{
    match counter_value(fetched) {
        Some(n) => Ok(n),
        None => Err(StorageError::Counter),
    }
}

/// The identifier that follows what is stored under the counter key: one
/// more than the counter, where there is a counter and it is not at the
/// largest number. Nothing stored counts as zero.
pub open spec fn next_identifier(stored: Option<Seq<u8>>) -> Option<u64> {
    match stored_counter(stored) {
        Some(n) => if n < u64::MAX {
            Some((n + 1) as u64)
        } else {
            None
        },
        None => None,
    }
}

/// The identifier that follows what is stored under the counter key, or the
/// error that there is none.
pub fn next_of_counter(stored: Option<&[u8]>) -> (r: Result<u64, StorageError>)
    ensures
        match next_identifier(
            match stored {
                Some(b) => Some(b@),
                None => None,
            },
        ) {
            Some(id) => r == Ok::<u64, StorageError>(id),
            None => r == Err::<u64, StorageError>(StorageError::Counter),
        },
{
    match stored {
        None => Ok(1),
        Some(b) => match counter_value(b) {
            Some(n) => if n < u64::MAX {
                Ok(n + 1)
            } else {
                Err(StorageError::Counter)
            },
            None => Err(StorageError::Counter),
        },
    }
}

/// The place of the key that is taken next in a list of keys: the first of
/// the shortest keys. An empty list has none.
pub fn shortest_first(keys: &Vec<Vec<u8>>) -> (r: Option<usize>)
    ensures
        match r {
            Some(best) => best < keys.len() && (forall|j: int|
                0 <= j < keys.len() ==> keys[best as int]@.len() <= (#[trigger] keys[j])@.len())
                && (forall|j: int|
                0 <= j < best ==> keys[best as int]@.len() < (#[trigger] keys[j])@.len()),
            None => keys.len() == 0,
        },
{
    if keys.len() == 0 {
        return None;
    }
    let mut best: usize = 0;
    let mut i: usize = 1;
    while i < keys.len()
        invariant
            1 <= i <= keys.len(),
            best < i,
            forall|j: int| 0 <= j < i ==> keys[best as int]@.len() <= (#[trigger] keys[j])@.len(),
            forall|j: int| 0 <= j < best ==> keys[best as int]@.len() < (#[trigger] keys[j])@.len(),
        decreases keys.len() - i,
    {
        if keys[i].len() < keys[best].len() {
            best = i;
        }
        i = i + 1;
    }
    Some(best)
}

/// What reading the first scanned entry gives: the entry, or the error that
/// its line is no entry.
pub fn entry_of_line(line: &[u8]) -> (r: Result<PetAddressInfo, StorageError>)
    ensures
        match r {
            Ok(info) => decoded_entry(line@) == Some(info@),
            Err(e) => e == StorageError::Serialization && decoded_entry(line@) is None,
        },
{
    match decode_entry(line) {
        Some(info) => Ok(info),
        None => Err(StorageError::Serialization),
    }
}

/// The pool of addresses that are ready to be handed out.
pub struct PetStorage {
    db: sled::Db,
}

impl PetStorage {
    /// What the database of the store holds.
    pub closed spec fn entries(&self) -> Map<Seq<u8>, Seq<u8>> {
        db_entries(self.db)
    }

    /// Opens the store at `db_path`, with whatever it held when it was last closed.
    pub fn new(db_path: &str) -> (r: Result<PetStorage, StorageError>)
        ensures
            r matches Err(e) ==> e == StorageError::Io,
    {
        match db_open(db_path) {
            Ok(db) => Ok(PetStorage { db }),
            Err(_) => Err(StorageError::Io),
        }
    }

    /// Takes the next identifier: one more than the counter, which is moved on.
    /// A database without a counter counts from zero. Where what is stored is
    /// no counter, or the counter is at the largest number, nothing is written.
    pub fn next_id(&mut self) -> (r: Result<u64, StorageError>)
        ensures
            match r {
                Ok(id) => counter_of(old(self).entries()) == Some((id - 1) as u64) && 1 <= id && (
                    final(self).entries(),
                    id,
                ) == advance(old(self).entries()),
                Err(StorageError::Counter) => (counter_of(old(self).entries()) is None || counter_of(
                    old(self).entries(),
                ) == Some(u64::MAX)) && final(self).entries() == old(self).entries(),
                Err(StorageError::Io) => true,
                Err(StorageError::Serialization) => false,
            },
    {
        let key = make_counter_key();
        let stored = match db_get(&self.db, key.as_slice()) {
            Ok(stored) => stored,
            Err(_) => {
                return Err(StorageError::Io);
            },
        };
        let next = match &stored {
            Some(bytes) => next_of_counter(Some(bytes.as_slice())),
            None => next_of_counter(None),
        };
        let id = match next {
            Ok(id) => id,
            Err(e) => {
                return Err(e);
            },
        };
        match db_advance_counter(&mut self.db, key.as_slice()) {
            Err(_) => Err(StorageError::Io),
            Ok(None) => Err(StorageError::Io),
            Ok(Some(fetched)) => {
                proof {
                    lemma_be_round_trip(id);
                }
                id_of_counter(fetched.as_slice())
            },
        }
    }

    /// Writes an entry under the key of its identifier.
    pub fn put_entry(&mut self, info: &PetAddressInfo) -> (r: Result<(), StorageError>)
        ensures
            match r {
                Ok(_) => final(self).entries() == write_entry(old(self).entries(), info@),
                Err(e) => e == StorageError::Io,
            },
    {
        let key = make_entry_key(info.id);
        let value = encode_entry(info);
        match db_insert(&mut self.db, key.as_slice(), value) {
            Ok(_) => Ok(()),
            Err(_) => Err(StorageError::Io),
        }
    }

    /// Stores an address with the given creation time under the next
    /// identifier, and flushes the database before it returns.
    pub fn store_address_at(&mut self, address: PetAddress, created_at: String) -> (r: Result<
        u64,
        StorageError,
    >)
        ensures
            match r {
                Ok(id) => counter_of(old(self).entries()) matches Some(c) && c < u64::MAX && (
                    final(self).entries(),
                    id,
                ) == enqueue(old(self).entries(), address@, created_at@),
                Err(StorageError::Counter) => (counter_of(old(self).entries()) is None || counter_of(
                    old(self).entries(),
                ) == Some(u64::MAX)) && final(self).entries() == old(self).entries(),
                Err(StorageError::Io) => true,
                Err(StorageError::Serialization) => false,
            },
    {
        let id = match self.next_id() {
            Ok(id) => id,
            Err(e) => {
                return Err(e);
            },
        };
        let info = PetAddressInfo { id, address, created_at };
        match self.put_entry(&info) {
            Ok(_) => {},
            Err(e) => {
                return Err(e);
            },
        }
        match db_flush(&self.db) {
            Ok(_) => Ok(id),
            Err(_) => Err(StorageError::Io),
        }
    }

    /// Stores an address under the next identifier, with the present time as
    /// its creation time.
    pub fn store_address(&mut self, address: PetAddress) -> (r: Result<u64, StorageError>)
        ensures
            match r {
                Ok(id) => counter_of(old(self).entries()) matches Some(c) && c < u64::MAX
                    && exists|created_at: Seq<char>|
                    (final(self).entries(), id) == #[trigger] enqueue(
                        old(self).entries(),
                        address@,
                        created_at,
                    ),
                Err(StorageError::Counter) => (counter_of(old(self).entries()) is None || counter_of(
                    old(self).entries(),
                ) == Some(u64::MAX)) && final(self).entries() == old(self).entries(),
                Err(StorageError::Io) => true,
                Err(StorageError::Serialization) => false,
            },
    {
        let created_at = current_timestamp();
        self.store_address_at(address, created_at)
    }

    /// Takes the oldest entry out of the pool, which is the one with the least
    /// identifier, and flushes the database before it returns. An empty pool
    /// gives nothing, which is no error.
    pub fn get_next_address(&mut self) -> (r: Result<Option<PetAddressInfo>, StorageError>)
        ensures
            match r {
                Ok(None) => no_key_with_prefix(old(self).entries(), entry_prefix()) && final(self).entries() == old(self).entries(),
                Ok(Some(info)) => (final(self).entries(), Some(info@)) == dequeue(
                    old(self).entries(),
                ),
                Err(StorageError::Serialization) => front(old(self).entries()) matches Some(k)
                    && decoded_entry(old(self).entries()[k]) is None && final(self).entries()
                    == old(self).entries(),
                Err(StorageError::Io) => true,
                Err(StorageError::Counter) => false,
            },
    {
        let prefix = make_entry_prefix();
        let keys = match db_keys_with_prefix(&self.db, prefix.as_slice()) {
            Ok(keys) => keys,
            Err(_) => {
                return Err(StorageError::Io);
            },
        };
        let best = match shortest_first(&keys) {
            Some(best) => best,
            None => {
                return Ok(None);
            },
        };
        proof {
            lemma_front_of_listing(self.entries(), keys@, best as int);
            lemma_front_unique(self.entries(), keys@[best as int]@);
        }
        let line = match db_get(&self.db, keys[best].as_slice()) {
            Ok(Some(line)) => line,
            Ok(None) => {
                return Err(StorageError::Io);
            },
            Err(_) => {
                return Err(StorageError::Io);
            },
        };
        let info = match entry_of_line(line.as_slice()) {
            Ok(info) => info,
            Err(e) => {
                return Err(e);
            },
        };
        match db_remove(&mut self.db, keys[best].as_slice()) {
            Ok(_) => {},
            Err(_) => {
                return Err(StorageError::Io);
            },
        }
        match db_flush(&self.db) {
            Ok(_) => Ok(Some(info)),
            Err(_) => Err(StorageError::Io),
        }
    }

    /// The number of entries in the pool.
    pub fn count_addresses(&self) -> (r: Result<usize, StorageError>)
        ensures
            match r {
                Ok(n) => live_keys(self.entries()).finite() && n == live_keys(self.entries()).len(),
                Err(e) => e == StorageError::Io,
            },
    {
        let prefix = make_entry_prefix();
        match db_keys_with_prefix(&self.db, prefix.as_slice()) {
            Ok(keys) => {
                proof {
                    lemma_listed_count(self.entries(), keys@);
                }
                Ok(keys.len())
            },
            Err(_) => Err(StorageError::Io),
        }
    }

    /// Removes every entry from the pool and flushes the database. The
    /// counter stays as it is.
    pub fn clear_all_addresses(&mut self) -> (r: Result<(), StorageError>)
        ensures
            match r {
                Ok(_) => final(self).entries() == old(self).entries().remove_keys(
                    live_keys(old(self).entries()),
                ) && no_key_with_prefix(final(self).entries(), entry_prefix()) && value_at(
                    final(self).entries(),
                    counter_key(),
                ) == value_at(old(self).entries(), counter_key()),
                Err(e) => e == StorageError::Io,
            },
    {
        let prefix = make_entry_prefix();
        let keys = match db_keys_with_prefix(&self.db, prefix.as_slice()) {
            Ok(keys) => keys,
            Err(_) => {
                return Err(StorageError::Io);
            },
        };
        let ghost before = self.entries();
        let mut i: usize = 0;
        while i < keys.len()
            invariant
                i <= keys.len(),
                lists_keys(before, entry_prefix(), keys@),
                forall|k: Seq<u8>|
                    self.entries().contains_key(k) <==> before.contains_key(k) && !(exists|j: int|
                        0 <= j < i && #[trigger] keys@[j]@ == k),
                forall|k: Seq<u8>| self.entries().contains_key(k) ==> self.entries()[k] == before[k],
            decreases keys.len() - i,
        {
            match db_remove(&mut self.db, keys[i].as_slice()) {
                Ok(_) => {},
                Err(_) => {
                    return Err(StorageError::Io);
                },
            }
            i = i + 1;
        }
        proof {
            let after = self.entries();
            let want = before.remove_keys(live_keys(before));
            assert forall|k: Seq<u8>| after.contains_key(k) <==> want.contains_key(k) by {
                if before.contains_key(k) && has_prefix(k, entry_prefix()) {
                    let j = choose|j: int| 0 <= j < keys@.len() && #[trigger] keys@[j]@ == k;
                    assert(keys@[j]@ == k);
                }
            }
            assert(after =~= want);
            crate::layout::lemma_entry_key_has_prefix(0);
        }
        match db_flush(&self.db) {
            Ok(_) => Ok(()),
            Err(_) => Err(StorageError::Io),
        }
    }
}

} // verus!
