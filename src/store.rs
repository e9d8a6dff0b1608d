//! Typed fields, tables and multimap tables over one redb database.
//!
//! A field is one value under a fixed name; a table maps keys to one value
//! each; a multimap table maps each key to a list of values in the order they
//! were added, each stored in redb's multimap as its position followed by its
//! bytes. Keys and values are stored as their `Codec` bytes, and every write
//! is one transaction.
use core::marker::PhantomData;
use redb::Database;
use vstd::prelude::*;
use crate::codec::{
    lemma_u64_canonical, lemma_u64_round_trip, put_bytes, put_u64, u64_at, u64_bytes, get_u64,
    Checkpoint, Codec, DecodeError, Payload, Root,
};
use crate::engine::{
    byte_strings, create_in_memory, create_tables, get_links, get_record, links_of, put_link,
    put_record, stored_links, stored_records, stored_tables, Links, Records,
};

verus! {

/// Why a store operation failed.
#[derive(Debug)]
pub enum StoreError {
    /// The engine failed: opening, a transaction, a table, or a commit.
    Database(redb::Error),
    /// Stored bytes are not a value of the expected type: the data is corrupt.
    Decode(DecodeError),
}

/// The key under which a field keeps its value.
pub open spec fn field_key() -> Seq<u8> {
    Seq::empty()
}

/// The bytes that table `table` of `db` holds under `key`, if any.
pub open spec fn record_of(db: Database, table: Seq<char>, key: Seq<u8>) -> Option<Seq<u8>> {
    if stored_records(db).contains_key((table, key)) {
        Some(stored_records(db)[(table, key)])
    } else {
        None
    }
}

/// What a read of one value promises: a value comes back exactly when bytes
/// are stored, and it is the one they encode; a decoding error comes only from
/// stored bytes that encode no value.
pub open spec fn read_result<V: Codec>(stored: Option<Seq<u8>>, r: Result<Option<V>, StoreError>) -> bool {
    &&& r matches Ok(Some(v)) ==> stored == Some(v.encoding())
    &&& r matches Ok(None) ==> stored is None
    &&& r matches Err(StoreError::Decode(_)) ==> stored matches Some(b) && forall|v: V| #[trigger] v.encoding() != b
}

/// What a write of `value` under (`table`, `key`) promises: on success the
/// record is replaced; a failure is an engine error and changes nothing; the
/// multimap tables never change and no table disappears.
pub open spec fn write_result(
    before: Database,
    after: Database,
    table: Seq<char>,
    key: Seq<u8>,
    value: Seq<u8>,
    r: Result<(), StoreError>,
) -> bool {
    &&& r is Ok ==> stored_records(after) == stored_records(before).insert((table, key), value)
    &&& r is Err ==> r->Err_0 is Database && stored_records(after) == stored_records(before)
    &&& stored_links(after) == stored_links(before)
    &&& stored_tables(before).subset_of(stored_tables(after))
}

fn read_value<V: Codec>(db: &Database, table: &str, key: &[u8]) -> (r: Result<Option<V>, StoreError>)
    requires
        table@.len() > 0,
    ensures
        read_result(record_of(*db, table@, key@), r),
{
    match get_record(db, table, key) {
        Err(e) => Err(StoreError::Database(e)),
        Ok(None) => Ok(None),
        Ok(Some(bytes)) => match V::decode(bytes.as_slice()) {
            Ok(v) => Ok(Some(v)),
            Err(e) => Err(StoreError::Decode(e)),
        },
    }
}

fn write_value<V: Codec>(db: &mut Database, table: &str, key: &[u8], value: &V, durable: bool) -> (r: Result<(), StoreError>)
    requires
        table@.len() > 0,
    ensures
        write_result(*old(db), *final(db), table@, key@, value.encoding(), r),
{
    let bytes = value.encode();
    match put_record(db, table, key, bytes.as_slice(), durable) {
        Ok(()) => Ok(()),
        Err(e) => Err(StoreError::Database(e)),
    }
}

/// A single value under a fixed name.
pub struct Field<V> {
    pub name: &'static str,
    /// Whether a commit waits until the write is on disk; when false the
    /// write may be lost in a crash, which suits frequent, non-critical values.
    pub durable: bool,
    pub marker: PhantomData<V>,
}

impl<V: Codec> Field<V> {
    /// The current value, or `None` when the field was never set.
    pub fn get(&self, store: &ReamDB) -> (r: Result<Option<V>, StoreError>)
        requires
            self.name@.len() > 0,
        ensures
            read_result(record_of(store.database(), self.name@, field_key()), r),
    {
        let key: Vec<u8> = Vec::new();
        assert(key@ =~= field_key());
        read_value(&store.db, self.name, key.as_slice())
    }

    /// Replaces the value of the field.
    pub fn set(&self, store: &mut ReamDB, value: &V) -> (r: Result<(), StoreError>)
        requires
            self.name@.len() > 0,
        ensures
            write_result(old(store).database(), final(store).database(), self.name@, field_key(), value.encoding(), r),
    {
        let key: Vec<u8> = Vec::new();
        assert(key@ =~= field_key());
        write_value(&mut store.db, self.name, key.as_slice(), value, self.durable)
    }
}

/// A table from keys to one value each.
pub struct Table<K, V> {
    pub name: &'static str,
    /// Whether a commit waits until the write is on disk; when false the
    /// write may be lost in a crash, which suits frequent, non-critical values.
    pub durable: bool,
    pub marker: PhantomData<(K, V)>,
}

impl<K: Codec, V: Codec> Table<K, V> {
    /// The value stored under `key`, or `None` when there is none.
    pub fn get(&self, store: &ReamDB, key: &K) -> (r: Result<Option<V>, StoreError>)
        requires
            self.name@.len() > 0,
        ensures
            read_result(record_of(store.database(), self.name@, key.encoding()), r),
    {
        let k = key.encode();
        read_value(&store.db, self.name, k.as_slice())
    }

    /// Stores `value` under `key`, replacing any earlier value.
    pub fn insert(&self, store: &mut ReamDB, key: &K, value: &V) -> (r: Result<(), StoreError>)
        requires
            self.name@.len() > 0,
        ensures
            write_result(old(store).database(), final(store).database(), self.name@, key.encoding(), value.encoding(), r),
    {
        let k = key.encode();
        write_value(&mut store.db, self.name, k.as_slice(), value, self.durable)
    }
}

/// The encodings of a list of values.
pub open spec fn encodings<V: Codec>(vs: Seq<V>) -> Seq<Seq<u8>> {
    vs.map_values(|v: V| v.encoding())
}

/// How a multimap table stores the value in position `i` of a key: the
/// position as eight little-endian bytes, then the value's bytes.
pub open spec fn entry(i: int, c: Seq<u8>) -> Seq<u8> {
    u64_bytes(i as u64) + c
}

/// The stored entries of the values `cs`, in order.
pub open spec fn entries(cs: Seq<Seq<u8>>) -> Seq<Seq<u8>> {
    Seq::new(cs.len(), |i: int| entry(i, cs[i]))
}

/// The stored set `stored` holds exactly the values `cs`, in that order.
pub open spec fn holds_in_order(stored: Set<Seq<u8>>, cs: Seq<Seq<u8>>) -> bool {
    cs.len() <= u64::MAX && entries(cs).to_set() == stored
}

/// What a read of a multimap key promises: on success, the values in the
/// order they were added; a decoding error exactly when the stored entries
/// are not those of any list of values.
pub open spec fn links_result<V: Codec>(stored: Set<Seq<u8>>, r: Result<Option<Vec<V>>, StoreError>) -> bool {
    &&& r is Ok ==> r->Ok_0 is Some
    &&& r matches Ok(Some(vs)) ==> holds_in_order(stored, encodings(vs@))
    &&& r matches Err(StoreError::Decode(_)) ==> forall|vs: Seq<V>| !#[trigger] holds_in_order(stored, encodings(vs))
}

/// What adding `value` under (`table`, `key`) promises: on success the value
/// comes after those the key held; a failure is an engine error and changes
/// nothing; no other key changes, the single-valued records never change and
/// no table disappears.
pub open spec fn link_result(
    before: Database,
    after: Database,
    table: Seq<char>,
    key: Seq<u8>,
    value: Seq<u8>,
    r: Result<(), StoreError>,
) -> bool {
    &&& r is Ok ==> forall|cs: Seq<Seq<u8>>|
        #[trigger] holds_in_order(links_of(before, table, key), cs) && cs.len() < u64::MAX
            ==> holds_in_order(links_of(after, table, key), cs.push(value))
    &&& r is Err ==> r->Err_0 is Database && stored_links(after) == stored_links(before)
    &&& forall|t: Seq<char>, k: Seq<u8>| (t, k) != (table, key) ==> #[trigger] links_of(after, t, k) == links_of(before, t, k)
    &&& stored_records(after) == stored_records(before)
    &&& stored_tables(before).subset_of(stored_tables(after))
}

/// An entry gives back its position and its value.
pub proof fn lemma_entry_parts(i: int, c: Seq<u8>)
    requires
        0 <= i <= u64::MAX,
    ensures
        entry(i, c).len() == 8 + c.len(),
        u64_at(entry(i, c), 0) == i,
        entry(i, c).subrange(8, entry(i, c).len() as int) == c,
{
    lemma_u64_round_trip(i as u64);
    assert(entry(i, c).subrange(0, 8) =~= u64_bytes(i as u64));
    assert(entry(i, c).subrange(8, entry(i, c).len() as int) =~= c);
}

pub proof fn lemma_entries_distinct(cs: Seq<Seq<u8>>)
    requires
        cs.len() <= u64::MAX,
    ensures
        entries(cs).no_duplicates(),
{
    assert forall|i: int, j: int| 0 <= i < entries(cs).len() && 0 <= j < entries(cs).len() && i != j
        implies entries(cs)[i] != entries(cs)[j] by {
        lemma_entry_parts(i, cs[i]);
        lemma_entry_parts(j, cs[j]);
    }
}

pub proof fn lemma_entry_count(raw: Seq<Seq<u8>>, cs: Seq<Seq<u8>>)
    requires
        raw.no_duplicates(),
        holds_in_order(raw.to_set(), cs),
    ensures
        raw.len() == cs.len(),
{
    lemma_entries_distinct(cs);
    raw.unique_seq_to_set();
    entries(cs).unique_seq_to_set();
}

/// A stored entry of `cs`: its position `i` and `cs[i]`.
pub proof fn lemma_member_entry(b: Seq<u8>, cs: Seq<Seq<u8>>) -> (i: int)
    requires
        cs.len() <= u64::MAX,
        entries(cs).to_set().contains(b),
    ensures
        0 <= i < cs.len(),
        b == entry(i, cs[i]),
        b.len() >= 8,
        u64_at(b, 0) == i,
        b.subrange(8, b.len() as int) == cs[i],
{
    let i = choose|i: int| 0 <= i < entries(cs).len() && entries(cs)[i] == b;
    lemma_entry_parts(i, cs[i]);
    i
}

/// The first `q` of `cs` are the entries at the positions that `slots` points to in `rb`.
pub open spec fn placed(cs: Seq<Seq<u8>>, slots: Seq<usize>, rb: Seq<Seq<u8>>, n: int, q: int) -> bool {
    forall|x: int| 0 <= x < q ==> #[trigger] placed_at(cs, slots, rb, n, x)
}

/// Position `x` holds the entry that `slots[x]` points to in `rb`.
pub open spec fn placed_at(cs: Seq<Seq<u8>>, slots: Seq<usize>, rb: Seq<Seq<u8>>, n: int, x: int) -> bool {
    slots[x] < n && entry(x, cs[x]) == rb[slots[x] as int]
}

proof fn lemma_placed_push(
    before: Seq<Seq<u8>>,
    after: Seq<Seq<u8>>,
    slots: Seq<usize>,
    rb: Seq<Seq<u8>>,
    n: int,
    q: int,
    e: Seq<u8>,
)
    requires
        0 <= q < slots.len(),
        before.len() == q,
        after == before.push(e),
        placed(before, slots, rb, n, q),
        slots[q] < n,
        0 <= slots[q] < rb.len(),
        entry(q, e) == rb[slots[q] as int],
    ensures
        placed(after, slots, rb, n, q + 1),
{
    assert forall|x: int| 0 <= x < q + 1 implies #[trigger] placed_at(after, slots, rb, n, x) by {
        if x < q {
            assert(placed_at(before, slots, rb, n, x));
            assert(after[x] == before[x]);
        } else {
            assert(after[x] == e);
        }
    }
}

/// Copies the bytes of `b` from `i` on.
fn copy_from(b: &[u8], i: usize) -> (r: Vec<u8>)
    requires
        i <= b@.len(),
    ensures
        r@ == b@.subrange(i as int, b@.len() as int),
{
    let mut out: Vec<u8> = Vec::new();
    let mut k: usize = i;
    while k < b.len()
        invariant
            i <= k <= b@.len(),
            out@ == b@.subrange(i as int, k as int),
        decreases b@.len() - k,
    {
        out.push(b[k]);
        assert(b@.subrange(i as int, k + 1) =~= b@.subrange(i as int, k as int).push(b@[k as int]));
        k = k + 1;
    }
    out
}

/// Puts the stored entries of one multimap key back in order and decodes
/// each value: the values whose entries are exactly `raw`, or an error
/// exactly when no list of values has those entries.
pub fn decode_links<V: Codec>(raw: &Vec<Vec<u8>>) -> (r: Result<Vec<V>, DecodeError>)
    requires
        byte_strings(raw@).no_duplicates(),
    ensures
        r matches Ok(vs) ==> holds_in_order(byte_strings(raw@).to_set(), encodings(vs@)),
        r is Err ==> forall|vs: Seq<V>| !#[trigger] holds_in_order(byte_strings(raw@).to_set(), encodings(vs)),
{
    let ghost stored = byte_strings(raw@).to_set();
    let ghost rb = byte_strings(raw@);
    let n: usize = raw.len();
    // slots[p] is the index in `raw` of the entry at position p, or n.
    let mut slots: Vec<usize> = Vec::new();
    let mut p: usize = 0;
    while p < n
        invariant
            p <= n,
            slots@.len() == p,
            forall|q: int| 0 <= q < p ==> slots@[q] == n,
        decreases n - p,
    {
        slots.push(n);
        p = p + 1;
    }
    let mut j: usize = 0;
    while j < n
        invariant
            n == raw@.len(),
            stored == byte_strings(raw@).to_set(),
            rb == byte_strings(raw@),
            rb.no_duplicates(),
            rb.to_set() == stored,
            j <= n,
            slots@.len() == n,
            forall|q: int| 0 <= q < n ==> #[trigger] slots@[q] == n || (slots@[q] < j && rb[slots@[q] as int].len() >= 8 && u64_at(rb[slots@[q] as int], 0) == q),
            forall|i: int| 0 <= i < j ==> rb[i].len() >= 8 && u64_at(rb[i], 0) < n && slots@[u64_at(#[trigger] rb[i], 0) as int] == i,
        decreases n - j,
    {
        let b: &[u8] = raw[j].as_slice();
        assert(b@ == rb[j as int]);
        if b.len() < 8 {
            proof {
                assert forall|vs: Seq<V>| !#[trigger] holds_in_order(stored, encodings(vs)) by {
                    if holds_in_order(stored, encodings(vs)) {
                        assert(stored.contains(rb[j as int]));
                        lemma_member_entry(rb[j as int], encodings(vs));
                    }
                }
            }
            return Err(DecodeError::InvalidLength);
        }
        let pos = get_u64(b, 0);
        if pos >= n as u64 {
            proof {
                assert forall|vs: Seq<V>| !#[trigger] holds_in_order(stored, encodings(vs)) by {
                    if holds_in_order(stored, encodings(vs)) {
                        assert(stored.contains(rb[j as int]));
                        lemma_entry_count(rb, encodings(vs));
                        lemma_member_entry(rb[j as int], encodings(vs));
                    }
                }
            }
            return Err(DecodeError::InvalidByte);
        }
        let pu = pos as usize;
        if slots[pu] != n {
            proof {
                let other = slots@[pu as int] as int;
                assert forall|vs: Seq<V>| !#[trigger] holds_in_order(stored, encodings(vs)) by {
                    if holds_in_order(stored, encodings(vs)) {
                        assert(stored.contains(rb[j as int]));
                        assert(stored.contains(rb[other]));
                        let i1 = lemma_member_entry(rb[j as int], encodings(vs));
                        let i2 = lemma_member_entry(rb[other], encodings(vs));
                        assert(rb[j as int] == rb[other]);
                    }
                }
            }
            return Err(DecodeError::InvalidByte);
        }
        slots.set(pu, j);
        j = j + 1;
    }
    let mut out: Vec<V> = Vec::new();
    let mut q: usize = 0;
    while q < n
        invariant
            n == raw@.len(),
            stored == byte_strings(raw@).to_set(),
            rb == byte_strings(raw@),
            rb.no_duplicates(),
            rb.to_set() == stored,
            q <= n,
            slots@.len() == n,
            forall|x: int| 0 <= x < n ==> #[trigger] slots@[x] == n || (slots@[x] < n && rb[slots@[x] as int].len() >= 8 && u64_at(rb[slots@[x] as int], 0) == x),
            forall|i: int| 0 <= i < n ==> rb[i].len() >= 8 && u64_at(rb[i], 0) < n && slots@[u64_at(#[trigger] rb[i], 0) as int] == i,
            out@.len() == q,
            placed(encodings(out@), slots@, rb, n as int, q as int),
        decreases n - q,
    {
        let at = slots[q];
        if at == n {
            proof {
                assert forall|vs: Seq<V>| !#[trigger] holds_in_order(stored, encodings(vs)) by {
                    if holds_in_order(stored, encodings(vs)) {
                        let cs = encodings(vs);
                        lemma_entry_count(rb, cs);
                        lemma_entry_parts(q as int, cs[q as int]);
                        assert(entries(cs)[q as int] == entry(q as int, cs[q as int]));
                        assert(stored.contains(entry(q as int, cs[q as int])));
                        let i = choose|i: int| 0 <= i < rb.len() && rb[i] == entry(q as int, cs[q as int]);
                        assert(slots@[u64_at(rb[i], 0) as int] == i);
                    }
                }
            }
            return Err(DecodeError::InvalidByte);
        }
        let b: &[u8] = raw[at].as_slice();
        assert(b@ == rb[at as int]);
        let tail = copy_from(b, 8);
        let v = match V::decode(tail.as_slice()) {
            Ok(v) => v,
            Err(e) => {
                proof {
                    assert forall|vs: Seq<V>| !#[trigger] holds_in_order(stored, encodings(vs)) by {
                        if holds_in_order(stored, encodings(vs)) {
                            let cs = encodings(vs);
                            assert(stored.contains(rb[at as int]));
                            let i = lemma_member_entry(rb[at as int], cs);
                            assert(vs[i].encoding() == tail@);
                        }
                    }
                }
                return Err(e);
            },
        };
            proof {
                lemma_u64_canonical(rb[at as int], 0);
                assert(u64_at(rb[at as int], 0) == q);
                assert(tail@ == rb[at as int].subrange(8, rb[at as int].len() as int));
                assert(rb[at as int] =~= rb[at as int].subrange(0, 8) + rb[at as int].subrange(8, rb[at as int].len() as int));
                assert(rb[at as int] =~= entry(q as int, v.encoding()));
            }
            let ghost before = out@;
            let ghost ve = v.encoding();
            out.push(v);
            assert(encodings(out@) =~= encodings(before).push(ve));
            assert(encodings(out@)[q as int] == ve);
            proof {
                lemma_placed_push(encodings(before), encodings(out@), slots@, rb, n as int, q as int, ve);
            }
        q = q + 1;
    }
    proof {
        let cs = encodings(out@);
        assert forall|x: Seq<u8>| entries(cs).to_set().contains(x) implies stored.contains(x) by {
            let i = choose|i: int| 0 <= i < entries(cs).len() && entries(cs)[i] == x;
            assert(entries(cs)[i] == entry(i, cs[i]));
            assert(placed_at(cs, slots@, rb, n as int, i));
            assert(rb.contains(rb[slots@[i] as int]));
        }
        assert forall|x: Seq<u8>| stored.contains(x) implies entries(cs).to_set().contains(x) by {
            let i = choose|i: int| 0 <= i < rb.len() && rb[i] == x;
            let at = u64_at(rb[i], 0) as int;
            assert(slots@[at] == i);
            assert(placed_at(cs, slots@, rb, n as int, at));
            assert(entries(cs)[at] == entry(at, cs[at]));
            assert(entries(cs).contains(x));
        }
        assert(entries(cs).to_set() =~= stored);
    }
    Ok(out)
}

/// A table from each key to a list of values, kept in the order they were added.
pub struct MultimapTable<K, V> {
    pub name: &'static str,
    /// Whether a commit waits until the write is on disk; when false the
    /// write may be lost in a crash, which suits frequent, non-critical values.
    pub durable: bool,
    pub marker: PhantomData<(K, V)>,
}

impl<K: Codec, V: Codec> MultimapTable<K, V> {
    /// The values stored under `key`, in the order they were added; an empty
    /// list for a key never written.
    pub fn get(&self, store: &ReamDB, key: &K) -> (r: Result<Option<Vec<V>>, StoreError>)
        requires
            self.name@.len() > 0,
        ensures
            links_result(links_of(store.database(), self.name@, key.encoding()), r),
    {
        let k = key.encode();
        let raw = match get_links(&store.db, self.name, k.as_slice()) {
            Ok(raw) => raw,
            Err(e) => return Err(StoreError::Database(e)),
        };
        match decode_links(&raw) {
            Ok(vs) => Ok(Some(vs)),
            Err(e) => Err(StoreError::Decode(e)),
        }
    }

    /// Adds `value` after the values of `key`; earlier values stay.
    pub fn insert(&self, store: &mut ReamDB, key: &K, value: &V) -> (r: Result<(), StoreError>)
        requires
            self.name@.len() > 0,
        ensures
            link_result(old(store).database(), final(store).database(), self.name@, key.encoding(), value.encoding(), r),
    {
        let k = key.encode();
        let v = value.encode();
        let raw = match get_links(&store.db, self.name, k.as_slice()) {
            Ok(raw) => raw,
            Err(e) => return Err(StoreError::Database(e)),
        };
        let n: u64 = raw.len() as u64;
        let mut e: Vec<u8> = Vec::new();
        put_u64(&mut e, n);
        put_bytes(&mut e, v.as_slice());
        let ghost before = store.db;
        match put_link(&mut store.db, self.name, k.as_slice(), e.as_slice(), self.durable) {
            Ok(()) => {
                proof {
                    let stored = links_of(before, self.name@, key.encoding());
                    assert forall|cs: Seq<Seq<u8>>|
                        #[trigger] holds_in_order(stored, cs) && cs.len() < u64::MAX implies holds_in_order(
                            links_of(store.database(), self.name@, key.encoding()),
                            cs.push(value.encoding()),
                        ) by {
                        lemma_entry_count(byte_strings(raw@), cs);
                        assert(e@ == entry(cs.len() as int, value.encoding()));
                        assert(entries(cs.push(value.encoding())) =~= entries(cs).push(e@));
                        entries(cs).lemma_push_to_set_commute(e@);
                    }
                }
                Ok(())
            },
            Err(err) => Err(StoreError::Database(err)),
        }
    }
}

pub const BEACON_BLOCK_TABLE: &'static str = "beacon_block";
pub const BEACON_STATE_TABLE: &'static str = "beacon_state";
pub const BLOBS_AND_PROOFS_TABLE: &'static str = "blobs_and_proofs";
pub const BLOCK_TIMELINESS_TABLE: &'static str = "block_timeliness";
pub const CHECKPOINT_STATES_TABLE: &'static str = "checkpoint_states";
pub const EQUIVOCATING_INDICES_FIELD: &'static str = "equivocating_indices_field";
pub const FINALIZED_CHECKPOINT_FIELD: &'static str = "finalized_checkpoint_field";
pub const GENESIS_TIME_FIELD: &'static str = "genesis_time_field";
pub const JUSTIFIED_CHECKPOINT_FIELD: &'static str = "justified_checkpoint_field";
pub const LATEST_MESSAGES_TABLE: &'static str = "latest_messages";
pub const PARENT_ROOT_INDEX_MULTIMAP_TABLE: &'static str = "parent_root_index_multimap";
pub const PROPOSER_BOOST_ROOT_FIELD: &'static str = "proposer_boost_root_field";
pub const SLOT_INDEX_TABLE: &'static str = "slot_index";
pub const STATE_ROOT_INDEX_TABLE: &'static str = "state_root_index";
pub const TIME_FIELD: &'static str = "time_field";
pub const UNREALIZED_FINALIZED_CHECKPOINT_FIELD: &'static str = "unrealized_finalized_checkpoint_field";
pub const UNREALIZED_JUSTIFICATIONS_TABLE: &'static str = "unrealized_justifications";
pub const UNREALIZED_JUSTIFIED_CHECKPOINT_FIELD: &'static str = "unrealized_justified_checkpoint_field";

/// Every name of the schema is non-empty.
pub proof fn lemma_schema_names_nonempty()
    ensures
        BEACON_BLOCK_TABLE@.len() > 0,
        BEACON_STATE_TABLE@.len() > 0,
        BLOBS_AND_PROOFS_TABLE@.len() > 0,
        BLOCK_TIMELINESS_TABLE@.len() > 0,
        CHECKPOINT_STATES_TABLE@.len() > 0,
        EQUIVOCATING_INDICES_FIELD@.len() > 0,
        FINALIZED_CHECKPOINT_FIELD@.len() > 0,
        GENESIS_TIME_FIELD@.len() > 0,
        JUSTIFIED_CHECKPOINT_FIELD@.len() > 0,
        LATEST_MESSAGES_TABLE@.len() > 0,
        PARENT_ROOT_INDEX_MULTIMAP_TABLE@.len() > 0,
        PROPOSER_BOOST_ROOT_FIELD@.len() > 0,
        SLOT_INDEX_TABLE@.len() > 0,
        STATE_ROOT_INDEX_TABLE@.len() > 0,
        TIME_FIELD@.len() > 0,
        UNREALIZED_FINALIZED_CHECKPOINT_FIELD@.len() > 0,
        UNREALIZED_JUSTIFICATIONS_TABLE@.len() > 0,
        UNREALIZED_JUSTIFIED_CHECKPOINT_FIELD@.len() > 0,
        forall|i: int| 0 <= i < schema_table_names().len() ==> (#[trigger] schema_table_names()[i])@.len() > 0,
        forall|i: int| 0 <= i < schema_multimap_table_names().len() ==> (#[trigger] schema_multimap_table_names()[i])@.len() > 0,
{
    reveal_strlit("beacon_block");
    assert(BEACON_BLOCK_TABLE@.len() > 0);
    reveal_strlit("beacon_state");
    assert(BEACON_STATE_TABLE@.len() > 0);
    reveal_strlit("blobs_and_proofs");
    assert(BLOBS_AND_PROOFS_TABLE@.len() > 0);
    reveal_strlit("block_timeliness");
    assert(BLOCK_TIMELINESS_TABLE@.len() > 0);
    reveal_strlit("checkpoint_states");
    assert(CHECKPOINT_STATES_TABLE@.len() > 0);
    reveal_strlit("equivocating_indices_field");
    assert(EQUIVOCATING_INDICES_FIELD@.len() > 0);
    reveal_strlit("finalized_checkpoint_field");
    assert(FINALIZED_CHECKPOINT_FIELD@.len() > 0);
    reveal_strlit("genesis_time_field");
    assert(GENESIS_TIME_FIELD@.len() > 0);
    reveal_strlit("justified_checkpoint_field");
    assert(JUSTIFIED_CHECKPOINT_FIELD@.len() > 0);
    reveal_strlit("latest_messages");
    assert(LATEST_MESSAGES_TABLE@.len() > 0);
    reveal_strlit("parent_root_index_multimap");
    assert(PARENT_ROOT_INDEX_MULTIMAP_TABLE@.len() > 0);
    reveal_strlit("proposer_boost_root_field");
    assert(PROPOSER_BOOST_ROOT_FIELD@.len() > 0);
    reveal_strlit("slot_index");
    assert(SLOT_INDEX_TABLE@.len() > 0);
    reveal_strlit("state_root_index");
    assert(STATE_ROOT_INDEX_TABLE@.len() > 0);
    reveal_strlit("time_field");
    assert(TIME_FIELD@.len() > 0);
    reveal_strlit("unrealized_finalized_checkpoint_field");
    assert(UNREALIZED_FINALIZED_CHECKPOINT_FIELD@.len() > 0);
    reveal_strlit("unrealized_justifications");
    assert(UNREALIZED_JUSTIFICATIONS_TABLE@.len() > 0);
    reveal_strlit("unrealized_justified_checkpoint_field");
    assert(UNREALIZED_JUSTIFIED_CHECKPOINT_FIELD@.len() > 0);
}

/// The names of the single-valued tables and fields of the schema.
pub open spec fn schema_table_names() -> Seq<&'static str> {
    seq![
        BEACON_BLOCK_TABLE,
        BEACON_STATE_TABLE,
        BLOBS_AND_PROOFS_TABLE,
        BLOCK_TIMELINESS_TABLE,
        CHECKPOINT_STATES_TABLE,
        EQUIVOCATING_INDICES_FIELD,
        FINALIZED_CHECKPOINT_FIELD,
        GENESIS_TIME_FIELD,
        JUSTIFIED_CHECKPOINT_FIELD,
        LATEST_MESSAGES_TABLE,
        PROPOSER_BOOST_ROOT_FIELD,
        SLOT_INDEX_TABLE,
        STATE_ROOT_INDEX_TABLE,
        TIME_FIELD,
        UNREALIZED_FINALIZED_CHECKPOINT_FIELD,
        UNREALIZED_JUSTIFICATIONS_TABLE,
        UNREALIZED_JUSTIFIED_CHECKPOINT_FIELD,
    ]
}

/// The names of the multimap tables of the schema.
pub open spec fn schema_multimap_table_names() -> Seq<&'static str> {
    seq![PARENT_ROOT_INDEX_MULTIMAP_TABLE]
}

/// Whether `db` holds every table of the schema.
pub open spec fn has_schema(db: Database) -> bool {
    &&& forall|i: int| 0 <= i < schema_table_names().len() ==> #[trigger] stored_tables(db).contains(schema_table_names()[i]@)
    &&& forall|i: int| 0 <= i < schema_multimap_table_names().len() ==> #[trigger] stored_tables(db).contains(schema_multimap_table_names()[i]@)
}

/// The names of the single-valued tables and fields of the schema.
pub fn schema_tables() -> (r: Vec<&'static str>)
    ensures
        r@ == schema_table_names(),
        forall|i: int| 0 <= i < r@.len() ==> (#[trigger] r@[i])@.len() > 0,
{
    proof {
        lemma_schema_names_nonempty();
    }
    let r = vec![
        BEACON_BLOCK_TABLE,
        BEACON_STATE_TABLE,
        BLOBS_AND_PROOFS_TABLE,
        BLOCK_TIMELINESS_TABLE,
        CHECKPOINT_STATES_TABLE,
        EQUIVOCATING_INDICES_FIELD,
        FINALIZED_CHECKPOINT_FIELD,
        GENESIS_TIME_FIELD,
        JUSTIFIED_CHECKPOINT_FIELD,
        LATEST_MESSAGES_TABLE,
        PROPOSER_BOOST_ROOT_FIELD,
        SLOT_INDEX_TABLE,
        STATE_ROOT_INDEX_TABLE,
        TIME_FIELD,
        UNREALIZED_FINALIZED_CHECKPOINT_FIELD,
        UNREALIZED_JUSTIFICATIONS_TABLE,
        UNREALIZED_JUSTIFIED_CHECKPOINT_FIELD,
    ];
    assert(r@ =~= seq![
        BEACON_BLOCK_TABLE,
        BEACON_STATE_TABLE,
        BLOBS_AND_PROOFS_TABLE,
        BLOCK_TIMELINESS_TABLE,
        CHECKPOINT_STATES_TABLE,
        EQUIVOCATING_INDICES_FIELD,
        FINALIZED_CHECKPOINT_FIELD,
        GENESIS_TIME_FIELD,
        JUSTIFIED_CHECKPOINT_FIELD,
        LATEST_MESSAGES_TABLE,
        PROPOSER_BOOST_ROOT_FIELD,
        SLOT_INDEX_TABLE,
        STATE_ROOT_INDEX_TABLE,
        TIME_FIELD,
        UNREALIZED_FINALIZED_CHECKPOINT_FIELD,
        UNREALIZED_JUSTIFICATIONS_TABLE,
        UNREALIZED_JUSTIFIED_CHECKPOINT_FIELD,
    ]);
    r
}

/// The names of the multimap tables of the schema.
pub fn schema_multimap_tables() -> (r: Vec<&'static str>)
    ensures
        r@ == schema_multimap_table_names(),
        forall|i: int| 0 <= i < r@.len() ==> (#[trigger] r@[i])@.len() > 0,
{
    proof {
        lemma_schema_names_nonempty();
    }
    let r = vec![PARENT_ROOT_INDEX_MULTIMAP_TABLE];
    assert(r@ =~= seq![PARENT_ROOT_INDEX_MULTIMAP_TABLE]);
    r
}

pub type BeaconBlockTable = Table<Root, Payload>;
pub type BeaconStateTable = Table<Root, Payload>;
pub type BlobsAndProofsTable = Table<Root, Payload>;
pub type BlockTimelinessTable = Table<Root, bool>;
pub type CheckpointStatesTable = Table<Checkpoint, Payload>;
pub type LatestMessagesTable = Table<u64, Payload>;
pub type UnrealizedJustificationsTable = Table<Root, Payload>;
pub type SlotIndexTable = Table<u64, Root>;
pub type StateRootIndexTable = Table<Root, Root>;
pub type ProposerBoostRootField = Field<Root>;
pub type UnrealizedFinalizedCheckpointField = Field<Checkpoint>;
pub type UnrealizedJustifiedCheckpointField = Field<Checkpoint>;
pub type FinalizedCheckpointField = Field<Checkpoint>;
pub type JustifiedCheckpointField = Field<Checkpoint>;
pub type GenesisTimeField = Field<u64>;
pub type TimeField = Field<u64>;
pub type EquivocatingIndicesField = Field<Vec<u64>>;

/// The parent-root index: each parent block root to the roots of its children.
pub struct ParentRootIndexMultimapTable {
    pub table: MultimapTable<Root, Root>,
}

impl ParentRootIndexMultimapTable {
    /// The roots of the children recorded for `key`, in the order they were added.
    pub fn get(&self, store: &ReamDB, key: Root) -> (r: Result<Option<Vec<Root>>, StoreError>)
        requires
            self.table.name@.len() > 0,
        ensures
            links_result(links_of(store.database(), self.table.name@, key.encoding()), r),
    {
        self.table.get(store, &key)
    }

    /// Records `value` as a child of `key`.
    pub fn insert(&self, store: &mut ReamDB, key: Root, value: Root) -> (r: Result<(), StoreError>)
        requires
            self.table.name@.len() > 0,
        ensures
            link_result(old(store).database(), final(store).database(), self.table.name@, key.encoding(), value.encoding(), r),
    {
        self.table.insert(store, &key, &value)
    }
}

/// Names the parent-root index among the store's indices; it holds no data.
pub struct ParentRootIndex {}

fn field<V>(name: &'static str, durable: bool) -> (r: Field<V>)
    ensures
        r.name == name,
        r.durable == durable,
{
    Field { name, durable, marker: PhantomData }
}

fn table<K, V>(name: &'static str, durable: bool) -> (r: Table<K, V>)
    ensures
        r.name == name,
        r.durable == durable,
{
    Table { name, durable, marker: PhantomData }
}

/// The handle on the database: the one owner of the engine connection.
pub struct ReamDB {
    db: Database,
}

impl ReamDB {
    /// The database that the handle owns.
    pub closed spec fn database(&self) -> Database {
        self.db
    }

    /// Gives up the handle and returns its database.
    pub fn into_database(self) -> (r: Database)
        ensures
            r == self.database(),
    {
        self.db
    }

    /// Takes an open database and creates, in one transaction, every table of
    /// the schema that it lacks. Nothing already stored changes.
    pub fn new(db: Database) -> (r: Result<ReamDB, StoreError>)
        ensures
            r matches Ok(s) ==> stored_records(s.database()) == stored_records(db) && stored_links(s.database())
                == stored_links(db),
            r matches Ok(s) ==> has_schema(s.database()) && stored_tables(db).subset_of(stored_tables(s.database())),
            r matches Err(e) ==> e is Database,
    {
        let mut db = db;
        let tables = schema_tables();
        let multimap_tables = schema_multimap_tables();
        match create_tables(&mut db, &tables, &multimap_tables) {
            Ok(()) => Ok(ReamDB { db }),
            Err(e) => Err(StoreError::Database(e)),
        }
    }

    /// A store in memory, with the whole schema and nothing stored: its
    /// contents are gone when it is dropped.
    pub fn new_in_memory() -> (r: Result<ReamDB, StoreError>)
        ensures
            r matches Ok(s) ==> stored_records(s.database()) == Records::empty() && stored_links(s.database())
                == Links::empty(),
            r matches Ok(s) ==> has_schema(s.database()),
            r matches Err(e) ==> e is Database,
    {
        match create_in_memory() {
            Ok(db) => ReamDB::new(db),
            Err(e) => Err(StoreError::Database(e)),
        }
    }

    /// The accessor for the beacon block records; it only names its table.
    pub fn beacon_block_provider(&self) -> (r: BeaconBlockTable)
        ensures
            r.name == BEACON_BLOCK_TABLE,
            r.durable,
            r.name@.len() > 0,
    {
        proof {
            lemma_schema_names_nonempty();
        }
        table(BEACON_BLOCK_TABLE, true)
    }

    /// The accessor for the beacon state records; it only names its table.
    pub fn beacon_state_provider(&self) -> (r: BeaconStateTable)
        ensures
            r.name == BEACON_STATE_TABLE,
            r.durable,
            r.name@.len() > 0,
    {
        proof {
            lemma_schema_names_nonempty();
        }
        table(BEACON_STATE_TABLE, true)
    }

    /// The accessor for the blobs and proofs records; it only names its table.
    pub fn blobs_and_proofs_provider(&self) -> (r: BlobsAndProofsTable)
        ensures
            r.name == BLOBS_AND_PROOFS_TABLE,
            r.durable,
            r.name@.len() > 0,
    {
        proof {
            lemma_schema_names_nonempty();
        }
        table(BLOBS_AND_PROOFS_TABLE, true)
    }

    /// The accessor for the block timeliness records; it only names its table.
    pub fn block_timeliness_provider(&self) -> (r: BlockTimelinessTable)
        ensures
            r.name == BLOCK_TIMELINESS_TABLE,
            r.durable,
            r.name@.len() > 0,
    {
        proof {
            lemma_schema_names_nonempty();
        }
        table(BLOCK_TIMELINESS_TABLE, true)
    }

    /// The accessor for the checkpoint states records; it only names its table.
    pub fn checkpoint_states_provider(&self) -> (r: CheckpointStatesTable)
        ensures
            r.name == CHECKPOINT_STATES_TABLE,
            r.durable,
            r.name@.len() > 0,
    {
        proof {
            lemma_schema_names_nonempty();
        }
        table(CHECKPOINT_STATES_TABLE, true)
    }

    /// The accessor for the latest messages records; it only names its table.
    pub fn latest_messages_provider(&self) -> (r: LatestMessagesTable)
        ensures
            r.name == LATEST_MESSAGES_TABLE,
            r.durable,
            r.name@.len() > 0,
    {
        proof {
            lemma_schema_names_nonempty();
        }
        table(LATEST_MESSAGES_TABLE, true)
    }

    /// The accessor for the unrealized justifications records; it only names its table.
    pub fn unrealized_justifications_provider(&self) -> (r: UnrealizedJustificationsTable)
        ensures
            r.name == UNREALIZED_JUSTIFICATIONS_TABLE,
            r.durable,
            r.name@.len() > 0,
    {
        proof {
            lemma_schema_names_nonempty();
        }
        table(UNREALIZED_JUSTIFICATIONS_TABLE, true)
    }

    /// The accessor for the parent root index multimap records; it only names its table.
    pub fn parent_root_index_multimap_provider(&self) -> (r: ParentRootIndexMultimapTable)
        ensures
            r.table.name == PARENT_ROOT_INDEX_MULTIMAP_TABLE,
            r.table.durable,
            r.table.name@.len() > 0,
    {
        proof {
            lemma_schema_names_nonempty();
        }
        ParentRootIndexMultimapTable {
            table: MultimapTable {
                name: PARENT_ROOT_INDEX_MULTIMAP_TABLE,
                durable: true,
                marker: PhantomData,
            },
        }
    }

    /// The accessor for the proposer boost root records; it only names its table.
    pub fn proposer_boost_root_provider(&self) -> (r: ProposerBoostRootField)
        ensures
            r.name == PROPOSER_BOOST_ROOT_FIELD,
            r.durable,
            r.name@.len() > 0,
    {
        proof {
            lemma_schema_names_nonempty();
        }
        field(PROPOSER_BOOST_ROOT_FIELD, true)
    }

    /// The accessor for the unrealized finalized checkpoint records; it only names its table.
    pub fn unrealized_finalized_checkpoint_provider(&self) -> (r: UnrealizedFinalizedCheckpointField)
        ensures
            r.name == UNREALIZED_FINALIZED_CHECKPOINT_FIELD,
            r.durable,
            r.name@.len() > 0,
    {
        proof {
            lemma_schema_names_nonempty();
        }
        field(UNREALIZED_FINALIZED_CHECKPOINT_FIELD, true)
    }

    /// The accessor for the unrealized justified checkpoint records; it only names its table.
    pub fn unrealized_justified_checkpoint_provider(&self) -> (r: UnrealizedJustifiedCheckpointField)
        ensures
            r.name == UNREALIZED_JUSTIFIED_CHECKPOINT_FIELD,
            r.durable,
            r.name@.len() > 0,
    {
        proof {
            lemma_schema_names_nonempty();
        }
        field(UNREALIZED_JUSTIFIED_CHECKPOINT_FIELD, true)
    }

    /// The accessor for the finalized checkpoint records; it only names its table.
    pub fn finalized_checkpoint_provider(&self) -> (r: FinalizedCheckpointField)
        ensures
            r.name == FINALIZED_CHECKPOINT_FIELD,
            r.durable,
            r.name@.len() > 0,
    {
        proof {
            lemma_schema_names_nonempty();
        }
        field(FINALIZED_CHECKPOINT_FIELD, true)
    }

    /// The accessor for the justified checkpoint records; it only names its table.
    pub fn justified_checkpoint_provider(&self) -> (r: JustifiedCheckpointField)
        ensures
            r.name == JUSTIFIED_CHECKPOINT_FIELD,
            r.durable,
            r.name@.len() > 0,
    {
        proof {
            lemma_schema_names_nonempty();
        }
        field(JUSTIFIED_CHECKPOINT_FIELD, true)
    }

    /// The accessor for the genesis time records; it only names its table.
    pub fn genesis_time_provider(&self) -> (r: GenesisTimeField)
        ensures
            r.name == GENESIS_TIME_FIELD,
            r.durable,
            r.name@.len() > 0,
    {
        proof {
            lemma_schema_names_nonempty();
        }
        field(GENESIS_TIME_FIELD, true)
    }

    /// The accessor for the time records; it only names its table.
    pub fn time_provider(&self) -> (r: TimeField)
        ensures
            r.name == TIME_FIELD,
            r.durable,
            r.name@.len() > 0,
    {
        proof {
            lemma_schema_names_nonempty();
        }
        field(TIME_FIELD, true)
    }

    /// The accessor for the equivocating indices records; it only names its table.
    pub fn equivocating_indices_provider(&self) -> (r: EquivocatingIndicesField)
        ensures
            r.name == EQUIVOCATING_INDICES_FIELD,
            r.durable,
            r.name@.len() > 0,
    {
        proof {
            lemma_schema_names_nonempty();
        }
        field(EQUIVOCATING_INDICES_FIELD, true)
    }

    /// The accessor for the slot index records; it only names its table.
    pub fn slot_index_provider(&self) -> (r: SlotIndexTable)
        ensures
            r.name == SLOT_INDEX_TABLE,
            r.durable,
            r.name@.len() > 0,
    {
        proof {
            lemma_schema_names_nonempty();
        }
        table(SLOT_INDEX_TABLE, true)
    }

    /// The accessor for the state root index records; it only names its table.
    pub fn state_root_index_provider(&self) -> (r: StateRootIndexTable)
        ensures
            r.name == STATE_ROOT_INDEX_TABLE,
            r.durable,
            r.name@.len() > 0,
    {
        proof {
            lemma_schema_names_nonempty();
        }
        table(STATE_ROOT_INDEX_TABLE, true)
    }
}

} // verus!
