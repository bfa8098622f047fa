//! The engine backed by the embedded `sled` database.
use vstd::prelude::*;
use vstd::utf8::{decode_utf8, encode_utf8, valid_utf8};

use crate::error::KvsError;
use crate::store::utf8_string;

verus! {

#[verifier::external_type_specification]
#[verifier::external_body]
pub struct ExDb(sled::Db);

#[verifier::external_type_specification]
#[verifier::external_body]
pub struct ExSledError(sled::Error);

/// What the database holds: its keys and values, as bytes.
pub uninterp spec fn sled_contents(db: sled::Db) -> Map<Seq<u8>, Seq<u8>>;

/// Relies on `sled::open`: opens, or creates, the database at `path`.
#[verifier::external_body]
fn sled_open(path: &str) -> (r: Result<sled::Db, sled::Error>) {
    sled::open(path)
}

/// Relies on `sled::Tree::get`: the bytes stored under `key`, if any.
#[verifier::external_body]
fn sled_get(db: &sled::Db, key: &str) -> (r: Result<Option<Vec<u8>>, sled::Error>)
    ensures
        r matches Ok(Some(v)) ==> sled_contents(*db).contains_key(encode_utf8(key@)) && v@
            == sled_contents(*db)[encode_utf8(key@)],
        r matches Ok(None) ==> !sled_contents(*db).contains_key(encode_utf8(key@)),
{
    match db.get(key) {
        Ok(Some(v)) => Ok(Some(v.to_vec())),
        Ok(None) => Ok(None),
        Err(e) => Err(e),
    }
}

/// Relies on `sled::Tree::insert`: stores `value` under `key`.
#[verifier::external_body]
fn sled_insert(db: &mut sled::Db, key: &str, value: &str) -> (r: Result<(), sled::Error>)
    ensures
        r is Ok ==> sled_contents(*final(db)) == sled_contents(*old(db)).insert(
            encode_utf8(key@),
            encode_utf8(value@),
        ),
{
    match db.insert(key, value.as_bytes()) {
        Ok(_) => Ok(()),
        Err(e) => Err(e),
    }
}

/// Relies on `sled::Tree::remove`: drops `key`, and hands back the bytes
/// that were stored under it, if any.
#[verifier::external_body]
fn sled_remove(db: &mut sled::Db, key: &str) -> (r: Result<Option<Vec<u8>>, sled::Error>)
    ensures
        r is Ok ==> sled_contents(*final(db)) == sled_contents(*old(db)).remove(encode_utf8(key@)),
        r matches Ok(Some(v)) ==> sled_contents(*old(db)).contains_key(encode_utf8(key@)) && v@
            == sled_contents(*old(db))[encode_utf8(key@)],
        r matches Ok(None) ==> !sled_contents(*old(db)).contains_key(encode_utf8(key@)),
{
    match db.remove(key) {
        Ok(Some(v)) => Ok(Some(v.to_vec())),
        Ok(None) => Ok(None),
        Err(e) => Err(e),
    }
}

/// Relies on `sled::Tree::flush`: writes what is buffered to disk.
#[verifier::external_body]
fn sled_flush(db: &sled::Db) -> (r: Result<usize, sled::Error>) {
    db.flush()
}

/// The path of the database file in the data directory `dir`.
pub fn sled_path(dir: &str) -> (r: String)
    ensures
        r@ == dir@ + "/current_sled_log"@,
{
    let mut file = dir.to_owned();
    file.append("/current_sled_log");
    file
}

/// What a lookup in the database answers: the stored text, nothing, or an
/// error where the stored bytes are not text or the database failed.
pub fn lookup_result(found: Result<Option<Vec<u8>>, sled::Error>) -> (r: Result<Option<String>, KvsError>)
    ensures
        match found {
            Ok(Some(b)) => if valid_utf8(b@) {
                r matches Ok(Some(s)) && s@ == decode_utf8(b@)
            } else {
                r == Err::<Option<String>, KvsError>(KvsError::Corrupt)
            },
            Ok(None) => r == Ok::<Option<String>, KvsError>(None),
            Err(_) => r == Err::<Option<String>, KvsError>(KvsError::Io),
        },
{
    match found {
        Ok(Some(bytes)) => match utf8_string(bytes) {
            Some(s) => Ok(Some(s)),
            None => Err(KvsError::Corrupt),
        },
        Ok(None) => Ok(None),
        Err(_) => Err(KvsError::Io),
    }
}

/// What a removal answers, given what the database held under the key: a
/// key that held nothing is `KeyNotFound`.
pub fn removal_result(removed: Option<Vec<u8>>) -> (r: Result<(), KvsError>)
    ensures
        r is Ok <==> removed is Some,
        r is Err ==> r == Err::<(), KvsError>(KvsError::KeyNotFound),
{
    match removed {
        Some(_) => Ok(()),
        None => Err(KvsError::KeyNotFound),
    }
}

/// A store kept in a `sled` database under a data directory.
pub struct SledKvStore {
    db: sled::Db,
}

impl View for SledKvStore {
    type V = Map<Seq<u8>, Seq<u8>>;

    /// The keys and values the database holds, as UTF-8 bytes.
    closed spec fn view(&self) -> Map<Seq<u8>, Seq<u8>> {
        sled_contents(self.db)
    }
}

impl SledKvStore {
    /// Opens the database at `sled_path(path)`, the file `current_sled_log`
    /// of the directory `path`.
    pub fn open(path: &str) -> (r: Result<SledKvStore, KvsError>)
        ensures
            r is Err ==> r == Err::<SledKvStore, KvsError>(KvsError::Io),
    {
        let file = sled_path(path);
        match sled_open(file.as_str()) {
            Ok(db) => Ok(SledKvStore { db }),
            Err(_) => Err(KvsError::Io),
        }
    }

    /// The value of `key`, or `None` where the database holds none.
    pub fn get(&mut self, key: String) -> (r: Result<Option<String>, KvsError>)
        ensures
            *final(self) == *old(self),
            r matches Ok(Some(v)) ==> old(self)@.contains_key(encode_utf8(key@)) && old(self)@[encode_utf8(
                key@,
            )] == encode_utf8(v@),
            r matches Ok(None) ==> !old(self)@.contains_key(encode_utf8(key@)),
            r is Err ==> r == Err::<Option<String>, KvsError>(KvsError::Io) || r == Err::<
                Option<String>,
                KvsError,
            >(KvsError::Corrupt),
    {
        let found = sled_get(&self.db, key.as_str());
        let ghost g = found;
        let r = lookup_result(found);
        proof {
            if let Ok(Some(b)) = g {
                if valid_utf8(b@) {
                    vstd::utf8::decode_utf8_encode_utf8(b@);
                }
            }
        }
        r
    }

    /// Stores `value` under `key` and flushes the database.
    pub fn set(&mut self, key: String, value: String) -> (r: Result<(), KvsError>)
        ensures
            r is Ok ==> final(self)@ == old(self)@.insert(encode_utf8(key@), encode_utf8(value@)),
            r is Err ==> r == Err::<(), KvsError>(KvsError::Io),
    {
        if sled_insert(&mut self.db, key.as_str(), value.as_str()).is_err() {
            return Err(KvsError::Io);
        }
        if sled_flush(&self.db).is_err() {
            return Err(KvsError::Io);
        }
        Ok(())
    }

    /// Removes `key` and flushes the database; a key that held nothing is
    /// `KeyNotFound`.
    pub fn remove(&mut self, key: String) -> (r: Result<(), KvsError>)
        ensures
            r is Ok ==> old(self)@.contains_key(encode_utf8(key@)) && final(self)@ == old(
                self,
            )@.remove(encode_utf8(key@)),
            r == Err::<(), KvsError>(KvsError::KeyNotFound) ==> !old(self)@.contains_key(
                encode_utf8(key@),
            ) && final(self)@ == old(self)@,
            r is Err ==> r == Err::<(), KvsError>(KvsError::Io) || r == Err::<(), KvsError>(
                KvsError::KeyNotFound,
            ),
    {
        let removed = match sled_remove(&mut self.db, key.as_str()) {
            Ok(x) => x,
            Err(_) => return Err(KvsError::Io),
        };
        proof {
            if removed is None {
                assert(old(self)@.remove(encode_utf8(key@)) =~= old(self)@);
            }
        }
        if sled_flush(&self.db).is_err() {
            return Err(KvsError::Io);
        }
        removal_result(removed)
    }
}

} // verus!
