//! The snapshot store: a persistent ordered byte-map. The sled crate
//! supplies it; the library trusts only the contracts below, which model the
//! store's contents as a value. The node owns its store exclusively for the
//! process lifetime: no other handle writes to it.

use vstd::prelude::*;

verus! {

#[verifier::external_type_specification]
#[verifier::external_body]
pub struct ExDb(sled::Db);

#[verifier::external_type_specification]
#[verifier::external_body]
pub struct ExSledError(sled::Error);

/// The contents of a snapshot store: the key/value map its inserts have
/// built.
pub uninterp spec fn db_contents(db: sled::Db) -> Map<Seq<u8>, Seq<u8>>;

/// Relies on sled::Tree::insert (reached through Db): sets the key to the
/// value. On failure nothing is promised of the store.
#[verifier::external_body]
pub(crate) fn db_insert(db: &mut sled::Db, key: &Vec<u8>, value: &Vec<u8>) -> (r: Result<
    (),
    sled::Error,
>)
    ensures
        r matches Ok(p) ==> db_contents(*final(db)) == db_contents(*old(db)).insert(key@, value@),
{
    match db.insert(key.as_slice(), value.as_slice()) {
        Ok(_) => Ok(()),
        Err(e) => Err(e),
    }
}

/// Relies on sled::Tree::get (reached through Db): returns the value the key
/// holds, if any, and does not change the store.
#[verifier::external_body]
pub(crate) fn db_get(db: &sled::Db, key: &Vec<u8>) -> (r: Result<Option<Vec<u8>>, sled::Error>)
    ensures
        r matches Ok(p) ==> (p matches Some(v) ==> db_contents(*db).contains_key(key@)
            && db_contents(*db)[key@] == v@),
        r matches Ok(p) ==> (p matches None ==> !db_contents(*db).contains_key(key@)),
{
    match db.get(key.as_slice()) {
        Ok(Some(iv)) => Ok(Some(iv.to_vec())),
        Ok(None) => Ok(None),
        Err(e) => Err(e),
    }
}

} // verus!
