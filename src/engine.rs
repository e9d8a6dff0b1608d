//! The embedded transactional engine, redb, as the library sees it.
//!
//! Each function here runs one whole redb transaction. What the database holds
//! is described by two maps: the single-valued records, keyed by table name
//! and key bytes, and the multimap links, which give each table name and key
//! the set of value byte strings stored under it.
use redb::{Builder, Database, Durability, MultimapTableDefinition, ReadableMultimapTable, ReadableTable, TableDefinition};
use vstd::prelude::*;

verus! {

#[verifier::external_type_specification]
#[verifier::external_body]
pub struct ExDatabase(redb::Database);

#[verifier::external_type_specification]
#[verifier::external_body]
pub struct ExRedbError(redb::Error);

/// Single-valued records: (table name, key bytes) to value bytes.
pub type Records = Map<(Seq<char>, Seq<u8>), Seq<u8>>;

/// Multimap contents: (table name, key bytes) to a set of value bytes.
pub type Links = Map<(Seq<char>, Seq<u8>), Set<Seq<u8>>>;

/// The committed single-valued records of `db`: (table name, key bytes) to value bytes.
pub uninterp spec fn stored_records(db: redb::Database) -> Records;

/// The committed multimap contents of `db`: (table name, key bytes) to the set
/// of value bytes stored under that key.
pub uninterp spec fn stored_links(db: redb::Database) -> Links;

/// The names of the tables, single-valued or multimap, that `db` holds.
pub uninterp spec fn stored_tables(db: redb::Database) -> Set<Seq<char>>;

/// The values that multimap table `table` of `db` holds under `key`; none for a
/// key that was never written.
pub open spec fn links_of(db: redb::Database, table: Seq<char>, key: Seq<u8>) -> Set<Seq<u8>> {
    if stored_links(db).contains_key((table, key)) {
        stored_links(db)[(table, key)]
    } else {
        Set::empty()
    }
}

/// The byte strings that a list of byte vectors holds.
pub open spec fn byte_strings(v: Seq<Vec<u8>>) -> Seq<Seq<u8>> {
    v.map_values(|b: Vec<u8>| b@)
}

/// Every function below that names a table requires the name to be
/// non-empty: redb's `TableDefinition::new` and `MultimapTableDefinition::new`
/// panic on an empty name.
///
/// Relies on redb's `Builder::create_with_backend` with an `InMemoryBackend`:
/// a new database that lives in memory and holds no table.
#[verifier::external_body]
pub(crate) fn create_in_memory() -> (r: Result<Database, redb::Error>)
    ensures
        r is Ok ==> stored_records(r->Ok_0) == Records::empty(),
        r is Ok ==> stored_links(r->Ok_0) == Links::empty(),
        r is Ok ==> stored_tables(r->Ok_0) == Set::<Seq<char>>::empty(),
{
    let backend = redb::backends::InMemoryBackend::new();
    Builder::new().create_with_backend(backend).map_err(redb::Error::from)
}

/// Relies on redb's `WriteTransaction::open_table` and `open_multimap_table`,
/// which create a table that is missing and leave an existing one as it is,
/// and on `commit`: nothing that was stored changes. On an error the
/// transaction is dropped, which aborts it, and no table is created.
#[verifier::external_body]
pub(crate) fn create_tables(db: &mut Database, tables: &Vec<&str>, multimap_tables: &Vec<&str>) -> (r: Result<(), redb::Error>)
    requires
        forall|i: int| 0 <= i < tables@.len() ==> (#[trigger] tables@[i])@.len() > 0,
        forall|i: int| 0 <= i < multimap_tables@.len() ==> (#[trigger] multimap_tables@[i])@.len() > 0,
    ensures
        stored_records(*final(db)) == stored_records(*old(db)),
        stored_links(*final(db)) == stored_links(*old(db)),
        r is Ok ==> forall|i: int| 0 <= i < tables@.len() ==> #[trigger] stored_tables(*final(db)).contains(tables@[i]@),
        r is Ok ==> forall|i: int| 0 <= i < multimap_tables@.len() ==> #[trigger] stored_tables(*final(db)).contains(multimap_tables@[i]@),
        r is Ok ==> stored_tables(*old(db)).subset_of(stored_tables(*final(db))),
        r is Err ==> stored_tables(*final(db)) == stored_tables(*old(db)),
{
    let txn = db.begin_write()?;
    for name in tables.iter() {
        txn.open_table(TableDefinition::<&[u8], &[u8]>::new(name))?;
    }
    for name in multimap_tables.iter() {
        txn.open_multimap_table(MultimapTableDefinition::<&[u8], &[u8]>::new(name))?;
    }
    txn.commit()?;
    Ok(())
}

/// Relies on redb's `Table::insert` in a write transaction, then `commit`, with
/// `Durability::Immediate` when `durable` and `Durability::Eventual` otherwise:
/// the value replaces what the key held, and `open_table` creates the table if
/// it is missing; on an error the transaction is dropped and nothing that this
/// handle reads changes. (A commit that fails after redb has flushed its header
/// leaves the database marked for repair; the write may then show after a reopen.)
#[verifier::external_body]
pub(crate) fn put_record(db: &mut Database, table: &str, key: &[u8], value: &[u8], durable: bool) -> (r: Result<(), redb::Error>)
    requires
        table@.len() > 0,
    ensures
        r is Ok ==> stored_records(*final(db)) == stored_records(*old(db)).insert((table@, key@), value@),
        r is Err ==> stored_records(*final(db)) == stored_records(*old(db)),
        stored_links(*final(db)) == stored_links(*old(db)),
        r is Ok ==> stored_tables(*final(db)) == stored_tables(*old(db)).insert(table@),
        r is Err ==> stored_tables(*final(db)) == stored_tables(*old(db)),
{
    let mut txn = db.begin_write()?;
    txn.set_durability(if durable { Durability::Immediate } else { Durability::Eventual });
    let mut t = txn.open_table(TableDefinition::<&[u8], &[u8]>::new(table))?;
    t.insert(key, value)?;
    drop(t);
    txn.commit()?;
    Ok(())
}

/// Relies on redb's `ReadOnlyTable::get` in a read transaction: the value that
/// the key holds, if any.
#[verifier::external_body]
pub(crate) fn get_record(db: &Database, table: &str, key: &[u8]) -> (r: Result<Option<Vec<u8>>, redb::Error>)
    requires
        table@.len() > 0,
    ensures
        r matches Ok(Some(v)) ==> stored_records(*db).contains_key((table@, key@))
            && v@ == stored_records(*db)[(table@, key@)],
        r matches Ok(None) ==> !stored_records(*db).contains_key((table@, key@)),
{
    let txn = db.begin_read()?;
    let t = txn.open_table(TableDefinition::<&[u8], &[u8]>::new(table))?;
    let found = t.get(key)?;
    Ok(found.map(|g| g.value().to_vec()))
}

/// Relies on redb's `MultimapTable::insert` in a write transaction, then
/// `commit`, with `Durability::Immediate` when `durable` and
/// `Durability::Eventual` otherwise: the value joins those of the key, and
/// `open_multimap_table` creates the table if it is missing; on an error the
/// transaction is dropped and nothing that this handle reads changes. (A commit
/// that fails after redb has flushed its header leaves the database marked for
/// repair; the write may then show after a reopen.)
#[verifier::external_body]
pub(crate) fn put_link(db: &mut Database, table: &str, key: &[u8], value: &[u8], durable: bool) -> (r: Result<(), redb::Error>)
    requires
        table@.len() > 0,
    ensures
        r is Ok ==> stored_links(*final(db)) == stored_links(*old(db)).insert(
            (table@, key@),
            links_of(*old(db), table@, key@).insert(value@),
        ),
        r is Err ==> stored_links(*final(db)) == stored_links(*old(db)),
        stored_records(*final(db)) == stored_records(*old(db)),
        r is Ok ==> stored_tables(*final(db)) == stored_tables(*old(db)).insert(table@),
        r is Err ==> stored_tables(*final(db)) == stored_tables(*old(db)),
{
    let mut txn = db.begin_write()?;
    txn.set_durability(if durable { Durability::Immediate } else { Durability::Eventual });
    let mut t = txn.open_multimap_table(MultimapTableDefinition::<&[u8], &[u8]>::new(table))?;
    t.insert(key, value)?;
    drop(t);
    txn.commit()?;
    Ok(())
}

/// Relies on redb's `ReadOnlyMultimapTable::get` in a read transaction: each
/// value of the key, once.
#[verifier::external_body]
pub(crate) fn get_links(db: &Database, table: &str, key: &[u8]) -> (r: Result<Vec<Vec<u8>>, redb::Error>)
    requires
        table@.len() > 0,
    ensures
        r matches Ok(vs) ==> byte_strings(vs@).no_duplicates()
            && byte_strings(vs@).to_set() == links_of(*db, table@, key@),
{
    let txn = db.begin_read()?;
    let t = txn.open_multimap_table(MultimapTableDefinition::<&[u8], &[u8]>::new(table))?;
    let mut values = Vec::new();
    for v in t.get(key)? {
        values.push(v?.value().to_vec());
    }
    Ok(values)
}

} // verus!
