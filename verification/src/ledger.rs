//! The persistent ledger: a durable mapping from encoded path bytes to a
//! result value, backed by a sled tree. The tree itself is an outside
//! store; its contents are modelled as a map from key bytes to value bytes,
//! and every operation of the library is specified against that map.
use vstd::prelude::*;

verus! {

#[verifier::external_type_specification]
#[verifier::external_body]
pub struct ExDb(sled::Db);

#[verifier::external_type_specification]
#[verifier::external_body]
pub struct ExSledError(sled::Error);

/// What the store behind a handle holds: the map from stored key bytes to
/// stored value bytes.
pub uninterp spec fn db_view(db: sled::Db) -> Map<Seq<u8>, Seq<u8>>;

/// The contents of a store with nothing in it.
pub open spec fn empty_store() -> Map<Seq<u8>, Seq<u8>> {
    Map::empty()
}

/// A store operation failed; the write it was asked for may or may not have
/// been applied.
#[derive(Clone, Copy, Debug)]
pub struct StorageError;

fn storage_err(e: sled::Error) -> StorageError {
    let _ = e;
    StorageError
}

/// Relies on `sled::Config::{path, open}`: opens or creates the tree at the
/// given location. What is already stored there is whatever an earlier run
/// left, so nothing is claimed of the contents.
#[verifier::external_body]
fn db_open(path: &str) -> (r: Result<sled::Db, sled::Error>) {
    sled::Config::new().path(path).open()
}

/// Relies on `sled::Config::temporary`: with no path set, the tree lives at
/// a fresh scratch location, so it starts empty, and is removed on drop.
#[verifier::external_body]
fn db_open_temp() -> (r: Result<sled::Db, sled::Error>)
    ensures
        r is Ok ==> db_view(r->Ok_0) == empty_store(),
{
    sled::Config::new().temporary(true).open()
}

/// Relies on `sled::Tree::get`: a point lookup returning the stored value
/// for the key, or nothing when the key is absent.
#[verifier::external_body]
fn db_get(db: &sled::Db, key: &Vec<u8>) -> (r: Result<Option<Vec<u8>>, sled::Error>)
    ensures
        r matches Ok(found) ==> match found {
            Some(v) => db_view(*db).contains_key(key@) && db_view(*db)[key@] == v@,
            None => !db_view(*db).contains_key(key@),
        },
{
    match db.get(key.as_slice()) {
        Ok(Some(v)) => Ok(Some(v.to_vec())),
        Ok(None) => Ok(None),
        Err(e) => Err(e),
    }
}

/// Relies on `sled::Tree::insert`: maps the key to the value, overwriting
/// any earlier value. When it fails, the write either took effect before
/// the failure or did not happen at all.
#[verifier::external_body]
fn db_insert(db: &mut sled::Db, key: &Vec<u8>, value: &Vec<u8>) -> (r: Result<(), sled::Error>)
    ensures
        r is Ok ==> db_view(*final(db)) == db_view(*old(db)).insert(key@, value@),
        r is Err ==> db_view(*final(db)) == db_view(*old(db)) || db_view(*final(db)) == db_view(
            *old(db),
        ).insert(key@, value@),
{
    match db.insert(key.as_slice(), value.as_slice()) {
        Ok(_) => Ok(()),
        Err(e) => Err(e),
    }
}

/// Relies on `sled::Tree::iter`: walks the stored pairs; every pair it
/// yields is in the tree. A pair that fails to load mid-walk is left out.
#[verifier::external_body]
fn db_entries(db: &sled::Db) -> (r: Vec<(Vec<u8>, Vec<u8>)>)
    ensures
        forall|i: int|
            0 <= i < r@.len() ==> db_view(*db).contains_key(#[trigger] r@[i].0@) && db_view(
                *db,
            )[r@[i].0@] == r@[i].1@,
{
    let mut out = Vec::new();
    for item in db.iter() {
        if let Ok((k, v)) = item {
            out.push((k.to_vec(), v.to_vec()));
        }
    }
    out
}

/// Relies on `sled::Tree::flush`: blocks until prior writes are durable.
/// The contents are not changed, so nothing is claimed of them.
#[verifier::external_body]
fn db_flush(db: &sled::Db) -> (r: Result<(), sled::Error>) {
    match db.flush() {
        Ok(_) => Ok(()),
        Err(e) => Err(e),
    }
}

/// The ledger: owns the store handle exclusively; its view is the stored
/// map.
pub struct Ledger {
    db: sled::Db,
}

impl View for Ledger {
    type V = Map<Seq<u8>, Seq<u8>>;

    closed spec fn view(&self) -> Map<Seq<u8>, Seq<u8>> {
        db_view(self.db)
    }
}

impl Ledger {
    /// Open or create the store at `path`. Failing to open is fatal to the
    /// run; the contents are whatever an earlier run left behind.
    pub fn open(path: &str) -> (r: Result<Ledger, StorageError>) {
        match db_open(path) {
            Ok(db) => Ok(Ledger { db }),
            Err(e) => Err(storage_err(e)),
        }
    }

    /// A fresh, empty, self-deleting store at a scratch location.
    pub fn open_scratch() -> (r: Result<Ledger, StorageError>)
        ensures
            r matches Ok(l) ==> l@ == empty_store(),
    {
        match db_open_temp() {
            Ok(db) => Ok(Ledger { db }),
            Err(e) => Err(storage_err(e)),
        }
    }

    /// The stored value for `key`, or `None` when the key is absent.
    pub fn get(&self, key: &Vec<u8>) -> (r: Result<Option<Vec<u8>>, StorageError>)
        ensures
            r matches Ok(found) ==> match found {
                Some(v) => self@.contains_key(key@) && self@[key@] == v@,
                None => !self@.contains_key(key@),
            },
    {
        match db_get(&self.db, key) {
            Ok(found) => Ok(found),
            Err(e) => Err(storage_err(e)),
        }
    }

    /// Unconditional overwrite, used to record a resolved outcome.
    pub fn set(&mut self, key: &Vec<u8>, value: &Vec<u8>) -> (r: Result<(), StorageError>)
        ensures
            r is Ok ==> final(self)@ == old(self)@.insert(key@, value@),
            r is Err ==> final(self)@ == old(self)@ || final(self)@ == old(self)@.insert(
                key@,
                value@,
            ),
    {
        match db_insert(&mut self.db, key, value) {
            Ok(u) => Ok(u),
            Err(e) => Err(storage_err(e)),
        }
    }

    /// Insert `key -> default_value` only if `key` is absent; a no-op, not
    /// an overwrite, otherwise. Returns whether the key was newly added.
    /// Even a failed call never overwrites: the write is only attempted
    /// after the key was found absent, so an existing entry survives.
    pub fn register_if_absent(&mut self, key: &Vec<u8>, default_value: &Vec<u8>) -> (r: Result<
        bool,
        StorageError,
    >)
        ensures
            r matches Ok(added) ==> if old(self)@.contains_key(key@) {
                final(self)@ == old(self)@ && added == false
            } else {
                final(self)@ == old(self)@.insert(key@, default_value@) && added == true
            },
            r is Err ==> final(self)@ == old(self)@ || (!old(self)@.contains_key(key@)
                && final(self)@ == old(self)@.insert(key@, default_value@)),
    {
        match db_get(&self.db, key) {
            Err(e) => Err(storage_err(e)),
            Ok(Some(_)) => Ok(false),
            Ok(None) => match db_insert(&mut self.db, key, default_value) {
                Ok(_) => Ok(true),
                Err(e) => Err(storage_err(e)),
            },
        }
    }

    /// One pass over the stored pairs: every pair yielded is in the ledger.
    pub fn entries(&self) -> (r: Vec<(Vec<u8>, Vec<u8>)>)
        ensures
            forall|i: int|
                0 <= i < r@.len() ==> self@.contains_key(#[trigger] r@[i].0@) && self@[r@[i].0@]
                    == r@[i].1@,
    {
        db_entries(&self.db)
    }

    /// Block until all prior writes are durable; call before process exit.
    pub fn flush(&self) -> (r: Result<(), StorageError>) {
        match db_flush(&self.db) {
            Ok(u) => Ok(u),
            Err(e) => Err(storage_err(e)),
        }
    }
}

} // verus!
