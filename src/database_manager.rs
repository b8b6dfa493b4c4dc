use vstd::prelude::*;

use crate::error::CacheError;
use rusqlite::OptionalExtension;

verus! {

#[verifier::external_type_specification]
#[verifier::external_body]
pub struct ExConnection(rusqlite::Connection);

#[verifier::external_type_specification]
#[verifier::external_body]
pub struct ExSqliteError(rusqlite::Error);

/// Rows keyed by (cache name, key), holding (value, cost).
pub type StoredRows = Map<(Seq<char>, Seq<char>), (Seq<char>, int)>;

/// The rows of the `entries` table held by a connection, keyed by
/// (cache name, key) and mapping to (value, cost). A connection without that
/// table holds no rows.
pub uninterp spec fn stored_rows(c: rusqlite::Connection) -> Map<(Seq<char>, Seq<char>), (Seq<char>, int)>;

/// The rows of `m` that belong to caches other than `name`.
pub open spec fn rows_of_other_caches(
    m: Map<(Seq<char>, Seq<char>), (Seq<char>, int)>,
    name: Seq<char>,
) -> Map<(Seq<char>, Seq<char>), (Seq<char>, int)> {
    Map::new(|p: (Seq<char>, Seq<char>)| m.contains_key(p) && p.0 != name, |p| m[p])
}

/// Relies on rusqlite::Connection::open_in_memory: a fresh in-memory database,
/// which holds no tables and so no rows.
#[verifier::external_body]
fn sql_open_in_memory() -> (r: Result<rusqlite::Connection, rusqlite::Error>)
    ensures
        r is Ok ==> stored_rows(r->Ok_0) == StoredRows::empty(),
{
    rusqlite::Connection::open_in_memory()
}

/// Relies on rusqlite::Connection::execute running `CREATE TABLE IF NOT EXISTS`,
/// which adds no rows to the table and removes none. A failed statement is
/// rolled back by SQLite.
#[verifier::external_body]
fn sql_create_table(c: &mut rusqlite::Connection) -> (r: Result<usize, rusqlite::Error>)
    ensures
        stored_rows(*final(c)) == stored_rows(*old(c)),
{
    c.execute(
        "CREATE TABLE IF NOT EXISTS entries (
            id         INTEGER PRIMARY KEY,
            cache_name TEXT NOT NULL,
            key        TEXT NOT NULL,
            value      TEXT NOT NULL,
            cost       INTEGER NOT NULL,
            UNIQUE (cache_name, key)
        )",
        (),
    )
}

/// Relies on rusqlite::Connection::execute running `DROP TABLE IF EXISTS`,
/// after which the table and all its rows are gone. A failed statement is
/// rolled back by SQLite.
#[verifier::external_body]
fn sql_drop_table(c: &mut rusqlite::Connection) -> (r: Result<usize, rusqlite::Error>)
    ensures
        r is Ok ==> stored_rows(*final(c)) == StoredRows::empty(),
        r is Err ==> stored_rows(*final(c)) == stored_rows(*old(c)),
{
    c.execute("DROP TABLE IF EXISTS entries", ())
}

/// Relies on rusqlite::Connection::execute running one `INSERT OR REPLACE`
/// statement: the row for (name, key) afterwards holds exactly the given value
/// and cost, whether or not it existed, and no other row changes. A failed
/// statement is rolled back by SQLite.
#[verifier::external_body]
fn sql_upsert(c: &mut rusqlite::Connection, name: &str, key: &str, value: &str, cost: i64) -> (r: Result<usize, rusqlite::Error>)
    ensures
        r is Ok ==> stored_rows(*final(c)) == stored_rows(*old(c)).insert((name@, key@), (value@, cost as int)),
        r is Err ==> stored_rows(*final(c)) == stored_rows(*old(c)),
{
    c.execute(
        "INSERT OR REPLACE INTO entries (cache_name, key, value, cost) VALUES (?1, ?2, ?3, ?4)",
        (name, key, value, cost),
    )
}

/// Relies on rusqlite::Connection::execute running a `DELETE` of the row for
/// (name, key): it is gone afterwards, absent or not before, and no other row
/// changes. A failed statement is rolled back by SQLite.
#[verifier::external_body]
fn sql_delete(c: &mut rusqlite::Connection, name: &str, key: &str) -> (r: Result<usize, rusqlite::Error>)
    ensures
        r is Ok ==> stored_rows(*final(c)) == stored_rows(*old(c)).remove((name@, key@)),
        r is Err ==> stored_rows(*final(c)) == stored_rows(*old(c)),
{
    c.execute("DELETE FROM entries WHERE cache_name = ?1 AND key = ?2", (name, key))
}

/// Relies on rusqlite::Connection::execute running a `DELETE` of every row
/// whose cache name is `name`; rows of other caches stay. A failed statement
/// is rolled back by SQLite.
#[verifier::external_body]
fn sql_delete_cache(c: &mut rusqlite::Connection, name: &str) -> (r: Result<usize, rusqlite::Error>)
    ensures
        r is Ok ==> stored_rows(*final(c)) == rows_of_other_caches(stored_rows(*old(c)), name@),
        r is Err ==> stored_rows(*final(c)) == stored_rows(*old(c)),
{
    c.execute("DELETE FROM entries WHERE cache_name = ?1", (name,))
}

/// Relies on rusqlite::Connection::query_row with OptionalExtension::optional:
/// a `SELECT` of the value for (name, key) yields it when the row exists and
/// `None` when it does not. Reading changes no row.
#[verifier::external_body]
fn sql_select_value(c: &rusqlite::Connection, name: &str, key: &str) -> (r: Result<Option<String>, rusqlite::Error>)
    ensures
        r matches Ok(Some(v)) ==> stored_rows(*c).contains_key((name@, key@))
            && v@ == stored_rows(*c)[(name@, key@)].0,
        r matches Ok(None) ==> !stored_rows(*c).contains_key((name@, key@)),
{
    c.query_row(
        "SELECT value FROM entries WHERE cache_name = ?1 AND key = ?2 LIMIT 1",
        (name, key),
        |row| row.get(0),
    ).optional()
}

/// The persistent storage of one cache: its rows live in a table of an
/// embedded SQLite database, scoped by the cache's name, which is bound as a
/// data value and never spliced into statement text.
pub struct DatabaseManager {
    connection: rusqlite::Connection,
    table_name: String,
}

impl DatabaseManager {
    /// The name that scopes this store's rows.
    pub closed spec fn name(&self) -> Seq<char> {
        self.table_name@
    }

    /// This store's rows: key to (value, cost).
    pub closed spec fn rows(&self) -> Map<Seq<char>, (Seq<char>, int)> {
        Map::new(
            |k: Seq<char>| stored_rows(self.connection).contains_key((self.table_name@, k)),
            |k: Seq<char>| stored_rows(self.connection)[(self.table_name@, k)],
        )
    }

    /// Opens an in-memory store for the cache `table_name` and makes sure its
    /// table exists. The new store holds no rows.
    pub fn open(table_name: &str) -> (r: Result<DatabaseManager, CacheError>)
        ensures
            r matches Ok(db) ==> db.name() == table_name@ && db.rows() == Map::<Seq<char>, (Seq<char>, int)>::empty(),
            r matches Err(e) ==> e == CacheError::OpenFailure || e == CacheError::SchemaFailure,
    {
        let connection = match sql_open_in_memory() {
            Ok(c) => c,
            Err(_) => return Err(CacheError::OpenFailure),
        };
        let mut db = DatabaseManager { connection, table_name: table_name.to_string() };
        match db.create_table() {
            Ok(()) => {
                assert(db.rows() =~= Map::<Seq<char>, (Seq<char>, int)>::empty());
                Ok(db)
            }
            Err(e) => Err(e),
        }
    }

    /// Creates the backing table if it does not exist yet. Rows are untouched.
    pub fn create_table(&mut self) -> (r: Result<(), CacheError>)
        ensures
            final(self).name() == old(self).name(),
            final(self).rows() == old(self).rows(),
            r matches Err(e) ==> e == CacheError::SchemaFailure,
    {
        let r = sql_create_table(&mut self.connection);
        assert(self.rows() =~= old(self).rows());
        match r {
            Ok(_) => Ok(()),
            Err(_) => Err(CacheError::SchemaFailure),
        }
    }

    /// Drops the backing table together with every row in it.
    pub fn drop_table(&mut self) -> (r: Result<(), CacheError>)
        ensures
            final(self).name() == old(self).name(),
            r is Ok ==> final(self).rows() == Map::<Seq<char>, (Seq<char>, int)>::empty(),
            r matches Err(e) ==> e == CacheError::QueryFailure && final(self).rows() == old(self).rows(),
    {
        let r = sql_drop_table(&mut self.connection);
        match r {
            Ok(_) => {
                assert(self.rows() =~= Map::<Seq<char>, (Seq<char>, int)>::empty());
                Ok(())
            }
            Err(_) => {
                assert(self.rows() =~= old(self).rows());
                Err(CacheError::QueryFailure)
            }
        }
    }

    /// Inserts the row for `key`, or replaces its value and cost if it exists,
    /// in one statement.
    pub fn create_or_update(&mut self, key: &str, value: &str, cost: i64) -> (r: Result<(), CacheError>)
        ensures
            final(self).name() == old(self).name(),
            r is Ok ==> final(self).rows() == old(self).rows().insert(key@, (value@, cost as int)),
            r matches Err(e) ==> e == CacheError::QueryFailure && final(self).rows() == old(self).rows(),
    {
        let r = sql_upsert(&mut self.connection, self.table_name.as_str(), key, value, cost);
        match r {
            Ok(_) => {
                assert(self.rows() =~= old(self).rows().insert(key@, (value@, cost as int)));
                Ok(())
            }
            Err(_) => {
                assert(self.rows() =~= old(self).rows());
                Err(CacheError::QueryFailure)
            }
        }
    }

    /// The value stored for `key`, or `None` when there is none.
    pub fn find(&self, key: &str) -> (r: Result<Option<String>, CacheError>)
        ensures
            r matches Ok(Some(v)) ==> self.rows().contains_key(key@) && v@ == self.rows()[key@].0,
            r matches Ok(None) ==> !self.rows().contains_key(key@),
            r matches Err(e) ==> e == CacheError::QueryFailure,
    {
        match sql_select_value(&self.connection, self.table_name.as_str(), key) {
            Ok(v) => Ok(v),
            Err(_) => Err(CacheError::QueryFailure),
        }
    }

    /// Whether a row for `key` is stored.
    pub fn key_exists(&self, key: &str) -> (r: Result<bool, CacheError>)
        ensures
            r matches Ok(b) ==> b == self.rows().contains_key(key@),
            r matches Err(e) ==> e == CacheError::QueryFailure,
    {
        match self.find(key) {
            Ok(v) => Ok(v.is_some()),
            Err(e) => Err(e),
        }
    }

    /// Removes the row for `key`; removing an absent key is not an error.
    pub fn destroy(&mut self, key: &str) -> (r: Result<(), CacheError>)
        ensures
            final(self).name() == old(self).name(),
            r is Ok ==> final(self).rows() == old(self).rows().remove(key@),
            r matches Err(e) ==> e == CacheError::QueryFailure && final(self).rows() == old(self).rows(),
    {
        let r = sql_delete(&mut self.connection, self.table_name.as_str(), key);
        match r {
            Ok(_) => {
                assert(self.rows() =~= old(self).rows().remove(key@));
                Ok(())
            }
            Err(_) => {
                assert(self.rows() =~= old(self).rows());
                Err(CacheError::QueryFailure)
            }
        }
    }

    /// Removes every row of this store.
    pub fn destroy_all(&mut self) -> (r: Result<(), CacheError>)
        ensures
            final(self).name() == old(self).name(),
            r is Ok ==> final(self).rows() == Map::<Seq<char>, (Seq<char>, int)>::empty(),
            r matches Err(e) ==> e == CacheError::QueryFailure && final(self).rows() == old(self).rows(),
    {
        let r = sql_delete_cache(&mut self.connection, self.table_name.as_str());
        match r {
            Ok(_) => {
                assert(self.rows() =~= Map::<Seq<char>, (Seq<char>, int)>::empty());
                Ok(())
            }
            Err(_) => {
                assert(self.rows() =~= old(self).rows());
                Err(CacheError::QueryFailure)
            }
        }
    }
}

} // verus!
