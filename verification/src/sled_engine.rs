//! The alternate storage backend: an adapter over the sled embedded
//! database, behind the same capability set as the log-structured
//! engine.  Durability and compaction are internal to sled; the only
//! design burden here is the adapter boundary.

use vstd::prelude::*;

use vstd::utf8::{decode_utf8, encode_utf8, encode_utf8_decode_utf8};

use crate::codec::string_from_utf8;
use crate::engine::KvsEngine;
use crate::error::KvError;

verus! {

/// Declares sled::Db, the handle to an embedded database, so that it
/// can stand in signatures and fields; its value is opaque here.
#[verifier::external_type_specification]
#[verifier::external_body]
pub struct ExDb(sled::Db);

/// Declares sled::Error so that the wrappers can hand it back for
/// verified code to map into the library's own taxonomy.
#[verifier::external_type_specification]
#[verifier::external_body]
pub struct ExSledError(sled::Error);

/// What the sled tree holds: a map from key bytes to value bytes.
pub uninterp spec fn db_view(db: sled::Db) -> Map<Seq<u8>, Seq<u8>>;

/// Relies on sled::Tree::insert (through Db's deref): on success the
/// tree maps the key bytes to the value bytes, other keys untouched.
#[verifier::external_body]
fn db_insert(db: &mut sled::Db, key: &String, value: &String) -> (r: Result<(), sled::Error>)
    ensures
        r is Ok ==> db_view(*final(db)) == db_view(*old(db)).insert(
            encode_utf8(key@),
            encode_utf8(value@),
        ),
{
    match db.insert(key.as_bytes(), value.as_bytes()) {
        Result::Ok(_) => Result::Ok(()),
        Result::Err(e) => Result::Err(e),
    }
}

/// Relies on sled::Tree::get: on success, the value bytes stored at
/// the key bytes, if any; the tree is not changed.
#[verifier::external_body]
fn db_get(db: &sled::Db, key: &String) -> (r: Result<Option<Vec<u8>>, sled::Error>)
    ensures
        r matches Result::Ok(opt) ==> {
            &&& opt is Some <==> db_view(*db).contains_key(encode_utf8(key@))
            &&& (opt matches Option::Some(v) ==> v@ == db_view(*db)[encode_utf8(key@)])
        },
{
    match db.get(key.as_bytes()) {
        Result::Ok(Option::Some(v)) => Result::Ok(Option::Some(v.as_ref().to_vec())),
        Result::Ok(Option::None) => Result::Ok(Option::None),
        Result::Err(e) => Result::Err(e),
    }
}

/// Relies on sled::Tree::remove: on success the key bytes are gone and
/// other keys are untouched.
#[verifier::external_body]
fn db_remove(db: &mut sled::Db, key: &String) -> (r: Result<(), sled::Error>)
    ensures
        r is Ok ==> db_view(*final(db)) == db_view(*old(db)).remove(encode_utf8(key@)),
{
    match db.remove(key.as_bytes()) {
        Result::Ok(_) => Result::Ok(()),
        Result::Err(e) => Result::Err(e),
    }
}

/// Relies on sled::open: initializes or attaches to a database at the
/// path.  Nothing is known of the contents it comes back with.
#[verifier::external_body]
fn db_open(path: &String) -> (r: Result<sled::Db, sled::Error>) {
    sled::open(path.as_str())
}

/// Relies on the Display impl of sled::Error for a readable message.
#[verifier::external_body]
fn sled_error_text(e: &sled::Error) -> (r: String) {
    e.to_string()
}

/// The string-level reading of a byte-keyed map: each key whose UTF-8
/// encoding is present, mapped to the decoding of the stored bytes.
pub open spec fn kv_of(m: Map<Seq<u8>, Seq<u8>>) -> Map<Seq<char>, Seq<char>> {
    Map::new(
        |k: Seq<char>| m.contains_key(encode_utf8(k)),
        |k: Seq<char>| decode_utf8(m[encode_utf8(k)]),
    )
}

/// Storing a pair at the string level is storing its encodings at the
/// byte level: UTF-8 encoding is injective, so no other key moves.
proof fn lemma_kv_insert(m: Map<Seq<u8>, Seq<u8>>, k: Seq<char>, v: Seq<char>)
    ensures
        kv_of(m.insert(encode_utf8(k), encode_utf8(v))) == kv_of(m).insert(k, v),
{
    let m2 = m.insert(encode_utf8(k), encode_utf8(v));
    encode_utf8_decode_utf8(k);
    encode_utf8_decode_utf8(v);
    assert forall|k2: Seq<char>| k2 != k implies encode_utf8(k2) != encode_utf8(k) by {
        encode_utf8_decode_utf8(k2);
    }
    assert(kv_of(m2) =~= kv_of(m).insert(k, v));
}

/// Removing a key at the string level is removing its encoding at the
/// byte level.
proof fn lemma_kv_remove(m: Map<Seq<u8>, Seq<u8>>, k: Seq<char>)
    ensures
        kv_of(m.remove(encode_utf8(k))) == kv_of(m).remove(k),
{
    let m2 = m.remove(encode_utf8(k));
    encode_utf8_decode_utf8(k);
    assert forall|k2: Seq<char>| k2 != k implies encode_utf8(k2) != encode_utf8(k) by {
        encode_utf8_decode_utf8(k2);
    }
    assert(kv_of(m2) =~= kv_of(m).remove(k));
}

/// The alternate engine: a sled tree is the store.
pub struct SledKvsEngine {
    storage: sled::Db,
}

impl SledKvsEngine {
    /// Initialize or attach to a sled database at `path`.  Checking
    /// that the directory was not written by the other backend takes
    /// file inspection and is the caller's task.
    pub fn open(path: &String) -> (r: Result<SledKvsEngine, KvError>)
        ensures
            r matches Result::Err(e) ==> e is IoError,
    {
        match db_open(path) {
            Result::Ok(db) => Result::Ok(SledKvsEngine { storage: db }),
            Result::Err(e) => Result::Err(KvError::IoError(sled_error_text(&e))),
        }
    }
}

impl KvsEngine for SledKvsEngine {
    closed spec fn kv(&self) -> Map<Seq<char>, Seq<char>> {
        kv_of(db_view(self.storage))
    }

    closed spec fn inv(&self) -> bool {
        true
    }

    open spec fn infallible(&self) -> bool {
        false
    }

    fn set(&mut self, key: String, value: String) -> (r: Result<(), KvError>) {
        match db_insert(&mut self.storage, &key, &value) {
            Result::Ok(_) => {
                proof {
                    lemma_kv_insert(db_view(old(self).storage), key@, value@);
                }
                Result::Ok(())
            },
            Result::Err(e) => Result::Err(KvError::IoError(sled_error_text(&e))),
        }
    }

    fn get(&mut self, key: String) -> (r: Result<Option<String>, KvError>) {
        match db_get(&self.storage, &key) {
            Result::Ok(opt) => match opt {
                Option::Some(bytes) => match string_from_utf8(bytes) {
                    Option::Some(s) => Result::Ok(Option::Some(s)),
                    Option::None => Result::Err(
                        KvError::CorruptLog("stored value is not text".to_owned()),
                    ),
                },
                Option::None => Result::Ok(Option::None),
            },
            Result::Err(e) => Result::Err(KvError::IoError(sled_error_text(&e))),
        }
    }

    fn remove(&mut self, key: String) -> (r: Result<(), KvError>) {
        match db_get(&self.storage, &key) {
            Result::Ok(opt) => match opt {
                Option::Some(_) => match db_remove(&mut self.storage, &key) {
                    Result::Ok(_) => {
                        proof {
                            lemma_kv_remove(db_view(old(self).storage), key@);
                        }
                        Result::Ok(())
                    },
                    Result::Err(e) => Result::Err(KvError::IoError(sled_error_text(&e))),
                },
                Option::None => Result::Err(KvError::KeyNotFound),
            },
            Result::Err(e) => Result::Err(KvError::IoError(sled_error_text(&e))),
        }
    }
}

} // verus!
