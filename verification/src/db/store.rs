//! The transactional cache store: a durable mapping from encoded cache keys
//! to encoded cache values, held in a `redb` database file.
//!
//! All mutation goes through write transactions; a read-modify-write runs
//! inside one transaction, so no other writer observes an intermediate
//! state.

use vstd::prelude::*;
use super::types::{CacheKey, CacheValue, CacheValueV, spec_enc_key, spec_enc_value, spec_dec_value};

verus! {

#[verifier::external_type_specification]
#[verifier::external_body]
pub struct ExDatabase(redb::Database);

#[verifier::external_type_specification]
#[verifier::external_body]
pub struct ExWriteTransaction(redb::WriteTransaction);

/// The committed contents of a store: key bytes to value bytes.
pub uninterp spec fn db_map(db: redb::Database) -> Map<Seq<u8>, Seq<u8>>;

/// The contents a pending write transaction would commit.
pub uninterp spec fn txn_map(txn: redb::WriteTransaction) -> Map<Seq<u8>, Seq<u8>>;

/// The database a write transaction belongs to.
pub uninterp spec fn txn_db(txn: redb::WriteTransaction) -> redb::Database;

/// Relies on `redb::Database::create`: opens the store file, creating it if
/// absent. Its contents are whatever the file holds.
#[verifier::external_body]
fn database_create(path: &str) -> (r: Result<redb::Database, String>)
{
    redb::Database::create(path).map_err(|e| e.to_string())
}

/// Relies on `redb`'s read transactions over the single data table: a
/// present key yields exactly its stored bytes; a store whose table was
/// never written holds nothing.
#[verifier::external_body]
fn raw_get(db: &redb::Database, key: &[u8]) -> (r: Result<Option<Vec<u8>>, String>)
    ensures
        match r {
            Ok(Some(v)) => db_map(*db).contains_key(key@) && db_map(*db)[key@] == v@,
            Ok(None) => !db_map(*db).contains_key(key@),
            Err(_) => true,
        },
{
    let txn = match redb::ReadableDatabase::begin_read(db) {
        Ok(t) => t,
        Err(e) => return Err(e.to_string()),
    };
    let table = match txn.open_table(redb::TableDefinition::<&[u8], &[u8]>::new("data")) {
        Ok(t) => t,
        Err(redb::TableError::TableDoesNotExist(_)) => return Ok(None),
        Err(e) => return Err(e.to_string()),
    };
    let out = match redb::ReadableTable::get(&table, key) {
        Ok(Some(guard)) => Ok(Some(guard.value().to_vec())),
        Ok(None) => Ok(None),
        Err(e) => Err(e.to_string()),
    };
    out
}

/// Relies on `redb::Database::begin_write`: the new transaction belongs to
/// this database and starts from its committed contents.
#[verifier::external_body]
fn begin_write(db: &redb::Database) -> (r: Result<redb::WriteTransaction, String>)
    ensures
        match r {
            Ok(txn) => txn_map(txn) == db_map(*db) && txn_db(txn) == *db,
            Err(_) => true,
        },
{
    db.begin_write().map_err(|e| e.to_string())
}

/// Relies on `redb::Table::remove` in a write transaction: the binding, if
/// present, leaves the transaction's view and its stored bytes come back.
#[verifier::external_body]
fn txn_remove(txn: &mut redb::WriteTransaction, key: &[u8]) -> (r: Result<Option<Vec<u8>>, String>)
    ensures
        match r {
            Ok(Some(v)) => txn_map(*old(txn)).contains_key(key@) && txn_map(*old(txn))[key@] == v@
                && txn_map(*final(txn)) == txn_map(*old(txn)).remove(key@) && txn_db(*final(txn))
                == txn_db(*old(txn)),
            Ok(None) => !txn_map(*old(txn)).contains_key(key@) && txn_map(*final(txn)) == txn_map(
                *old(txn),
            ) && txn_db(*final(txn)) == txn_db(*old(txn)),
            Err(_) => true,
        },
{
    let mut table = match txn.open_table(redb::TableDefinition::<&[u8], &[u8]>::new("data")) {
        Ok(t) => t,
        Err(e) => return Err(e.to_string()),
    };
    let out = match table.remove(key) {
        Ok(Some(g)) => Ok(Some(g.value().to_vec())),
        Ok(None) => Ok(None),
        Err(e) => Err(e.to_string()),
    };
    out
}

/// Relies on `redb::Table::insert` in a write transaction: the binding
/// enters the transaction's view, replacing any former one.
#[verifier::external_body]
fn txn_insert(txn: &mut redb::WriteTransaction, key: &[u8], value: &[u8]) -> (r: Result<
    (),
    String,
>)
    ensures
        match r {
            Ok(()) => txn_map(*final(txn)) == txn_map(*old(txn)).insert(key@, value@) && txn_db(
                *final(txn),
            ) == txn_db(*old(txn)),
            Err(_) => true,
        },
{
    let mut table = match txn.open_table(redb::TableDefinition::<&[u8], &[u8]>::new("data")) {
        Ok(t) => t,
        Err(e) => return Err(e.to_string()),
    };
    let out = match table.insert(key, value) {
        Ok(_) => Ok(()),
        Err(e) => Err(e.to_string()),
    };
    out
}

/// Relies on `redb::WriteTransaction::commit`: on success the transaction's
/// view becomes the database's committed contents, atomically and durably;
/// a failed commit applies the transaction fully or not at all.
#[verifier::external_body]
fn txn_commit(db: &mut redb::Database, txn: redb::WriteTransaction) -> (r: Result<(), String>)
    requires
        txn_db(txn) == *old(db),
    ensures
        match r {
            Ok(()) => db_map(*final(db)) == txn_map(txn),
            Err(_) => db_map(*final(db)) == db_map(*old(db)) || db_map(*final(db)) == txn_map(
                txn,
            ),
        },
{
    txn.commit().map_err(|e| e.to_string())
}

/// The embedded transactional store for cached checker results.
#[derive(Debug)]
pub struct Db {
    inner: redb::Database,
}

impl View for Db {
    type V = Map<Seq<u8>, Seq<u8>>;

    closed spec fn view(&self) -> Map<Seq<u8>, Seq<u8>> {
        db_map(self.inner)
    }
}

/// What one key's stored value decodes to: the outer `None` when the stored
/// bytes are not a value's encoding, the inner `None` when the key is
/// absent.
pub open spec fn spec_lookup_value(m: Map<Seq<u8>, Seq<u8>>, kb: Seq<u8>) -> Option<
    Option<CacheValueV>,
> {
    if m.contains_key(kb) {
        match spec_dec_value(m[kb]) {
            Some(w) => Some(Some(w)),
            None => None,
        }
    } else {
        Some(None)
    }
}

/// The view of an optional cache value.
pub open spec fn spec_opt_value_view(o: Option<CacheValue>) -> Option<CacheValueV> {
    match o {
        Some(v) => Some(v@),
        None => None,
    }
}

impl Db {
    /// Open (or create) the store file. Failure to open is fatal to a run.
    pub fn new(path: &str) -> (r: Result<Db, String>)
    {
        match database_create(path) {
            Ok(inner) => Ok(Db { inner }),
            Err(e) => Err(e),
        }
    }

    /// Wrap an already-open database.
    pub fn from_database(db: redb::Database) -> (r: Db)
        ensures
            r@ == db_map(db),
    {
        Db { inner: db }
    }

    /// Read the value stored under `key`, if any. A failed read or a value
    /// that does not decode is surfaced as an error, never as stale data.
    pub fn get(&self, key: &CacheKey) -> (r: Result<Option<CacheValue>, String>)
        ensures
            match r {
                Ok(Some(v)) => self@.contains_key(spec_enc_key(key)) && spec_dec_value(
                    self@[spec_enc_key(key)],
                ) == Some(v@),
                Ok(None) => !self@.contains_key(spec_enc_key(key)),
                Err(_) => true,
            },
    {
        let kb = key.encode();
        match raw_get(&self.inner, kb.as_slice()) {
            Ok(Some(bytes)) => match CacheValue::decode(bytes.as_slice()) {
                Some(v) => Ok(Some(v)),
                None => Err("the stored bytes are not a valid cache value".to_owned()),
            },
            Ok(None) => Ok(None),
            Err(e) => Err(e),
        }
    }

    /// Store `value` under `key` unconditionally, in one transaction. On
    /// failure the store is unchanged, unless the commit itself failed after
    /// taking effect — then the binding is in place.
    pub fn set(&mut self, key: &CacheKey, value: CacheValue) -> (r: Result<(), String>)
        ensures
            match r {
                Ok(()) => final(self)@ == old(self)@.insert(
                    spec_enc_key(key),
                    spec_enc_value(value@),
                ),
                Err(_) => final(self)@ == old(self)@ || final(self)@ == old(self)@.insert(
                    spec_enc_key(key),
                    spec_enc_value(value@),
                ),
            },
    {
        let kb = key.encode();
        let vb = value.encode();
        let mut txn = match begin_write(&self.inner) {
            Ok(t) => t,
            Err(e) => return Err(e),
        };
        if let Err(e) = txn_insert(&mut txn, kb.as_slice(), vb.as_slice()) {
            return Err(e);
        }
        txn_commit(&mut self.inner, txn)
    }

    /// Atomic read-modify-write: read the current value (or absence), apply
    /// `f`, stamp the result with the present time, and store it — all in
    /// one write transaction. `f`'s error, a failed transaction, or a stored
    /// value that does not decode each abort without a blind overwrite.
    pub fn set_or_replace<F: FnOnce(Option<CacheValue>) -> Result<
        CacheValue,
        String,
    >>(&mut self, key: &CacheKey, f: F) -> (r: Result<(), String>)
        requires
            forall|arg: Option<CacheValue>| #[trigger] call_requires(f, (arg,)),
        ensures
            r is Err ==> final(self)@ == old(self)@ || (exists|bs: Seq<u8>|
                final(self)@ == old(self)@.insert(spec_enc_key(key), bs)),
            r is Ok ==> spec_lookup_value(old(self)@, spec_enc_key(key)) is Some,
            r is Ok ==> exists|oldarg: Option<CacheValue>, newv: CacheValue|
                {
                    &&& spec_opt_value_view(oldarg) == spec_lookup_value(
                        old(self)@,
                        spec_enc_key(key),
                    )->Some_0
                    &&& #[trigger] call_ensures(f, (oldarg,), Ok(newv))
                    &&& final(self)@.contains_key(spec_enc_key(key))
                    &&& final(self)@ == old(self)@.insert(
                        spec_enc_key(key),
                        final(self)@[spec_enc_key(key)],
                    )
                    &&& spec_dec_value(final(self)@[spec_enc_key(key)]) is Some
                    &&& spec_dec_value(
                        final(self)@[spec_enc_key(key)],
                    )->Some_0.diagnostics == newv@.diagnostics
                },
    {
        let kb = key.encode();
        let mut txn = match begin_write(&self.inner) {
            Ok(t) => t,
            Err(e) => return Err(e),
        };
        let old_bytes = match txn_remove(&mut txn, kb.as_slice()) {
            Ok(o) => o,
            Err(e) => return Err(e),
        };
        let old_val = match old_bytes {
            Some(b) => match CacheValue::decode(b.as_slice()) {
                Some(v) => Some(v),
                None => {
                    return Err("the stored bytes are not a valid cache value".to_owned());
                },
            },
            None => None,
        };
        let ghost oldarg = old_val;
        let mut newv = match f(old_val) {
            Ok(v) => v,
            Err(e) => return Err(e),
        };
        let ghost newv0 = newv;
        newv.update_unix_timestamp();
        let vb = newv.encode();
        if let Err(e) = txn_insert(&mut txn, kb.as_slice(), vb.as_slice()) {
            return Err(e);
        }
        match txn_commit(&mut self.inner, txn) {
            Ok(()) => {
                proof {
                    let kbs = spec_enc_key(key);
                    let m0 = old(self)@;
                    assert(self@ =~= m0.insert(kbs, vb@));
                    assert(spec_opt_value_view(oldarg) == spec_lookup_value(m0, kbs)->Some_0);
                    assert(call_ensures(f, (oldarg,), Ok(newv0)));
                    assert(newv@.diagnostics == newv0@.diagnostics);
                    assert(self@.contains_key(kbs) && self@[kbs] == vb@);
                    assert(spec_dec_value(vb@) == Some(newv@));
                }
                Ok(())
            },
            Err(e) => {
                proof {
                    let kbs = spec_enc_key(key);
                    let m0 = old(self)@;
                    if self@ != m0 {
                        assert(self@ == m0.remove(kbs).insert(kbs, vb@));
                        assert(m0.remove(kbs).insert(kbs, vb@) =~= m0.insert(kbs, vb@));
                    }
                }
                Err(e)
            },
        }
    }
}

/// Applied twice in sequence on an absent key, a read-modify-write first
/// observes absence, and then observes exactly the value the first call
/// wrote: values round-trip through the store.
pub proof fn lemma_set_or_replace_sequential(
    m: Map<Seq<u8>, Seq<u8>>,
    kb: Seq<u8>,
    w: CacheValueV,
)
    requires
        !m.contains_key(kb),
        super::types::spec_diags_fit(w.diagnostics),
    ensures
        spec_lookup_value(m, kb) == Some(None::<CacheValueV>),
        spec_lookup_value(m.insert(kb, spec_enc_value(w)), kb) == Some(Some(w)),
{
    super::types::lemma_value_roundtrip(w);
    let m2 = m.insert(kb, spec_enc_value(w));
    assert(m2.contains_key(kb));
    assert(m2[kb] == spec_enc_value(w));
}

} // verus!
