//! Storage interface and the in-memory backend.
//!
//! Storage is keyed by an opaque table name and a string key and holds raw
//! bytes; serializing typed values into those bytes is the embedding
//! application's business, as are the persistent backends. The in-memory
//! backend here is verified: `get` finds exactly what `set` stored.

use crate::value::keys_equal;
use vstd::prelude::*;

verus! {

/// A storage fault: the key was not found (carrying the key), or the backend
/// failed internally (carrying the fault's text).
#[derive(Debug)]
pub enum StorageError {
    KeyNotFound(String),
    Internal(String),
}

/// In-memory storage: rows of (table, key, value), later writes for the same
/// table and key shadowing earlier ones.
#[derive(Debug, Default)]
pub struct MemoryStorage {
    pub rows: Vec<(String, String, Vec<u8>)>,
}

/// View of the rows.
pub open spec fn rows_dv(rs: Seq<(String, String, Vec<u8>)>) -> Seq<(Seq<char>, Seq<char>, Seq<u8>)> {
    Seq::new(rs.len(), |i: int| (rs[i].0@, rs[i].1@, rs[i].2@))
}

/// The bytes stored under (table, key), if any (first match wins).
pub open spec fn row_of(rs: Seq<(Seq<char>, Seq<char>, Seq<u8>)>, table: Seq<char>, key: Seq<char>) -> Option<Seq<u8>>
    decreases rs.len(),
{
    if rs.len() == 0 {
        Option::None
    } else if rs[0].0 == table && rs[0].1 == key {
        Option::Some(rs[0].2)
    } else {
        row_of(rs.drop_first(), table, key)
    }
}

impl MemoryStorage {
    pub open spec fn dv(self) -> Seq<(Seq<char>, Seq<char>, Seq<u8>)> {
        rows_dv(self.rows@)
    }

    pub fn new() -> (r: MemoryStorage)
        ensures
            r.dv() =~= Seq::<(Seq<char>, Seq<char>, Seq<u8>)>::empty(),
    {
        MemoryStorage { rows: Vec::new() }
    }

    /// The bytes stored under (table, key); `KeyNotFound` carries the key
    /// exactly when nothing is stored there.
    pub fn get(&self, table: &str, key: &str) -> (r: Result<Vec<u8>, StorageError>)
        ensures
            match r {
                Result::Ok(v) => row_of(self.dv(), table@, key@) == Option::Some(v@),
                Result::Err(e) => row_of(self.dv(), table@, key@) is None && (e matches
                StorageError::KeyNotFound(k) && k@ == key@),
            },
    {
        let n = self.rows.len();
        let mut i: usize = 0;
        while i < n
            invariant
                n == self.rows@.len(),
                i <= n,
                forall|j: int|
                    0 <= j < i ==> !(self.dv()[j].0 == table@ && self.dv()[j].1 == key@),
            decreases n - i,
        {
            if keys_equal(self.rows[i].0.as_str(), table) && keys_equal(
                self.rows[i].1.as_str(),
                key,
            ) {
                proof {
                    lemma_row_at(self.dv(), table@, key@, i as int);
                }
                return Result::Ok(crate::crypto::copy_bytes(self.rows[i].2.as_slice()));
            }
            i = i + 1;
        }
        proof {
            lemma_row_absent(self.dv(), table@, key@);
        }
        let mut owned_key = String::new();
        owned_key.append(key);
        Result::Err(StorageError::KeyNotFound(owned_key))
    }

    /// Stores `value` under (table, key); storing never fails in memory.
    pub fn set(&mut self, table: &str, key: &str, value: &Vec<u8>) -> (r: Result<
        (),
        StorageError,
    >)
        ensures
            r is Ok,
            row_of(final(self).dv(), table@, key@) == Option::Some(value@),
            forall|t2: Seq<char>, k2: Seq<char>|
                !(t2 == table@ && k2 == key@) ==> row_of(final(self).dv(), t2, k2) == row_of(
                    old(self).dv(),
                    t2,
                    k2,
                ),
    {
        let mut owned_table = String::new();
        owned_table.append(table);
        let mut owned_key = String::new();
        owned_key.append(key);
        let owned_value = crate::crypto::copy_bytes(value.as_slice());
        self.rows.insert(0, (owned_table, owned_key, owned_value));
        proof {
            assert(self.dv().drop_first() =~= old(self).dv());
            assert(self.dv()[0] == (table@, key@, value@));
        }
        Result::Ok(())
    }
}

proof fn lemma_row_at(rs: Seq<(Seq<char>, Seq<char>, Seq<u8>)>, table: Seq<char>, key: Seq<char>, i: int)
    requires
        0 <= i < rs.len(),
        rs[i].0 == table,
        rs[i].1 == key,
        forall|j: int| 0 <= j < i ==> !(rs[j].0 == table && rs[j].1 == key),
    ensures
        row_of(rs, table, key) == Option::Some(rs[i].2),
    decreases i,
{
    if i > 0 {
        lemma_row_at(rs.drop_first(), table, key, i - 1);
    }
}

proof fn lemma_row_absent(rs: Seq<(Seq<char>, Seq<char>, Seq<u8>)>, table: Seq<char>, key: Seq<char>)
    requires
        forall|j: int| 0 <= j < rs.len() ==> !(rs[j].0 == table && rs[j].1 == key),
    ensures
        row_of(rs, table, key) is None,
    decreases rs.len(),
{
    if rs.len() > 0 {
        lemma_row_absent(rs.drop_first(), table, key);
    }
}

} // verus!
