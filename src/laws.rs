//! What holds across several store operations, proved from their contracts.
use vstd::prelude::*;
use crate::codec::Codec;
use crate::engine::{links_of, stored_records, Records};
use crate::store::{
    encodings, entries, entry, field_key, holds_in_order, lemma_entries_distinct,
    lemma_entry_count, lemma_entry_parts, lemma_member_entry, link_result, links_result,
    read_result, record_of, write_result, Field, MultimapTable, ReamDB, StoreError, Table,
};

verus! {

/// After a successful `set(v)`, a `get` of the field gives back a value with
/// the bytes of `v`: never `None`, never a decoding error.
pub proof fn lemma_field_set_then_get<V: Codec>(
    field: Field<V>,
    before: ReamDB,
    after: ReamDB,
    v: V,
    set: Result<(), StoreError>,
    got: Result<Option<V>, StoreError>,
)
    requires
        write_result(before.database(), after.database(), field.name@, field_key(), v.encoding(), set),
        set is Ok,
        read_result(record_of(after.database(), field.name@, field_key()), got),
    ensures
        got is Ok ==> got->Ok_0 is Some && got->Ok_0->Some_0.encoding() == v.encoding(),
        !(got matches Err(StoreError::Decode(_))),
{
    assert(stored_records(after.database()).contains_key((field.name@, field_key())));
}

/// On a store that holds nothing, a `get` of any field gives no value.
pub proof fn lemma_unset_field_is_none<V: Codec>(
    field: Field<V>,
    store: ReamDB,
    got: Result<Option<V>, StoreError>,
)
    requires
        stored_records(store.database()) == Records::empty(),
        read_result(record_of(store.database(), field.name@, field_key()), got),
    ensures
        !(got matches Ok(Some(_))),
        !(got matches Err(StoreError::Decode(_))),
{
}

/// On a store that holds nothing, a `get` of any key of any table gives no
/// value.
pub proof fn lemma_unset_key_is_none<K: Codec, V: Codec>(
    table: Table<K, V>,
    store: ReamDB,
    key: K,
    got: Result<Option<V>, StoreError>,
)
    requires
        stored_records(store.database()) == Records::empty(),
        read_result(record_of(store.database(), table.name@, key.encoding()), got),
    ensures
        !(got matches Ok(Some(_))),
        !(got matches Err(StoreError::Decode(_))),
{
}

/// Two successful inserts under one key: a `get` of that key gives back a
/// value with the bytes of the second, and every other key of every table
/// holds what it held before the first.
pub proof fn lemma_table_overwrite<K: Codec, V: Codec>(
    table: Table<K, V>,
    s0: ReamDB,
    s1: ReamDB,
    s2: ReamDB,
    key: K,
    v1: V,
    v2: V,
    w1: Result<(), StoreError>,
    w2: Result<(), StoreError>,
    got: Result<Option<V>, StoreError>,
)
    requires
        write_result(s0.database(), s1.database(), table.name@, key.encoding(), v1.encoding(), w1),
        write_result(s1.database(), s2.database(), table.name@, key.encoding(), v2.encoding(), w2),
        w2 is Ok,
        read_result(record_of(s2.database(), table.name@, key.encoding()), got),
    ensures
        got is Ok ==> got->Ok_0 is Some && got->Ok_0->Some_0.encoding() == v2.encoding(),
        !(got matches Err(StoreError::Decode(_))),
        forall|t: Seq<char>, k: Seq<u8>|
            (t, k) != (table.name@, key.encoding()) ==> #[trigger] record_of(s2.database(), t, k) == record_of(s0.database(), t, k),
{
    assert(stored_records(s2.database()).contains_key((table.name@, key.encoding())));
}

/// A write that fails reports an engine error and leaves every stored value
/// as it was.
pub proof fn lemma_failed_write_changes_nothing(
    before: ReamDB,
    after: ReamDB,
    table: Seq<char>,
    key: Seq<u8>,
    value: Seq<u8>,
    w: Result<(), StoreError>,
    other_table: Seq<char>,
    other_key: Seq<u8>,
)
    requires
        write_result(before.database(), after.database(), table, key, value, w),
        w is Err,
    ensures
        w->Err_0 is Database,
        record_of(after.database(), other_table, other_key) == record_of(before.database(), other_table, other_key),
{
}

/// A run of successful inserts `insert(k, c1), ..., insert(k, cn)` into a
/// multimap table, starting where `k` holds nothing: afterwards `k` holds
/// exactly `c1..cn` in that order, every other key holds what it held before,
/// and a `get` of `k` gives back values with the bytes of `c1..cn`, in order.
pub proof fn lemma_multimap_accumulates<K: Codec, V: Codec>(
    table: MultimapTable<K, V>,
    states: Seq<ReamDB>,
    key: K,
    values: Seq<V>,
    got: Result<Option<Vec<V>>, StoreError>,
)
    requires
        states.len() == values.len() + 1,
        values.len() < u64::MAX,
        links_of(states[0].database(), table.name@, key.encoding()) == Set::<Seq<u8>>::empty(),
        forall|i: int|
            0 <= i < values.len() ==> #[trigger] link_result(
                states[i].database(),
                states[i + 1].database(),
                table.name@,
                key.encoding(),
                values[i].encoding(),
                Ok(()),
            ),
        links_result(links_of(states.last().database(), table.name@, key.encoding()), got),
    ensures
        holds_in_order(links_of(states.last().database(), table.name@, key.encoding()), encodings(values)),
        forall|t: Seq<char>, k: Seq<u8>|
            (t, k) != (table.name@, key.encoding()) ==> #[trigger] links_of(states.last().database(), t, k)
                == links_of(states[0].database(), t, k),
        got is Ok ==> got->Ok_0 is Some && encodings(got->Ok_0->Some_0@) == encodings(values),
        !(got matches Err(StoreError::Decode(_))),
{
    lemma_multimap_prefix(table, states, key, values, values.len() as int);
    assert(values.subrange(0, values.len() as int) =~= values);
    let stored = links_of(states.last().database(), table.name@, key.encoding());
    if got is Ok {
        let vs = got->Ok_0->Some_0;
        lemma_order_unique(stored, encodings(vs@), encodings(values));
    }
}

/// A multimap key that holds nothing reads as an empty list, never as a
/// decoding error.
pub proof fn lemma_untouched_key_is_empty<V: Codec>(got: Result<Option<Vec<V>>, StoreError>)
    requires
        links_result(Set::<Seq<u8>>::empty(), got),
    ensures
        got is Ok ==> got->Ok_0 is Some && got->Ok_0->Some_0@.len() == 0,
        !(got matches Err(StoreError::Decode(_))),
{
    if got is Ok {
        let cs = encodings(got->Ok_0->Some_0@);
        if cs.len() > 0 {
            assert(entries(cs)[0] == entries(cs)[0]);
            assert(entries(cs).to_set().contains(entries(cs)[0]));
        }
    }
    let none = Seq::<V>::empty();
    assert(encodings(none) =~= Seq::<Seq<u8>>::empty());
    assert(entries(encodings(none)) =~= Seq::<Seq<u8>>::empty());
    assert(entries(encodings(none)).to_set() =~= Set::<Seq<u8>>::empty());
    assert(holds_in_order(Set::<Seq<u8>>::empty(), encodings(none)));
}

/// A successful insert of `v` under a key that holds `cs` in order: a read of
/// that key gives back `cs` followed by the bytes of `v`, never a decoding
/// error when every value of `cs` is one of `V`.
pub proof fn lemma_multimap_insert_then_get<K: Codec, V: Codec>(
    table: MultimapTable<K, V>,
    before: ReamDB,
    after: ReamDB,
    key: K,
    old_values: Seq<V>,
    v: V,
    got: Result<Option<Vec<V>>, StoreError>,
)
    requires
        holds_in_order(links_of(before.database(), table.name@, key.encoding()), encodings(old_values)),
        old_values.len() < u64::MAX,
        link_result(before.database(), after.database(), table.name@, key.encoding(), v.encoding(), Ok(())),
        links_result(links_of(after.database(), table.name@, key.encoding()), got),
    ensures
        got is Ok ==> got->Ok_0 is Some && encodings(got->Ok_0->Some_0@) == encodings(old_values).push(v.encoding()),
        !(got matches Err(StoreError::Decode(_))),
{
    let stored = links_of(after.database(), table.name@, key.encoding());
    let all = old_values.push(v);
    assert(encodings(all) =~= encodings(old_values).push(v.encoding()));
    assert(holds_in_order(stored, encodings(all)));
    if got is Ok {
        lemma_order_unique(stored, encodings(got->Ok_0->Some_0@), encodings(all));
    }
}

/// Two reads that find the same stored entries give the same values in the
/// same order.
pub proof fn lemma_order_unique(stored: Set<Seq<u8>>, a: Seq<Seq<u8>>, b: Seq<Seq<u8>>)
    requires
        holds_in_order(stored, a),
        holds_in_order(stored, b),
    ensures
        a == b,
{
    lemma_entries_distinct(a);
    lemma_entry_count(entries(a), b);
    assert forall|i: int| 0 <= i < a.len() implies a[i] == b[i] by {
        assert(entries(a)[i] == entry(i, a[i]));
        assert(stored.contains(entry(i, a[i])));
        lemma_entry_parts(i, a[i]);
        lemma_member_entry(entry(i, a[i]), b);
    }
    assert(a =~= b);
}

proof fn lemma_multimap_prefix<K: Codec, V: Codec>(
    table: MultimapTable<K, V>,
    states: Seq<ReamDB>,
    key: K,
    values: Seq<V>,
    n: int,
)
    requires
        states.len() == values.len() + 1,
        values.len() < u64::MAX,
        0 <= n <= values.len(),
        links_of(states[0].database(), table.name@, key.encoding()) == Set::<Seq<u8>>::empty(),
        forall|i: int|
            0 <= i < values.len() ==> #[trigger] link_result(
                states[i].database(),
                states[i + 1].database(),
                table.name@,
                key.encoding(),
                values[i].encoding(),
                Ok(()),
            ),
    ensures
        holds_in_order(links_of(states[n].database(), table.name@, key.encoding()), encodings(values.subrange(0, n))),
        forall|t: Seq<char>, k: Seq<u8>|
            (t, k) != (table.name@, key.encoding()) ==> #[trigger] links_of(states[n].database(), t, k)
                == links_of(states[0].database(), t, k),
    decreases n,
{
    if n == 0 {
        assert(encodings(values.subrange(0, 0)) =~= Seq::<Seq<u8>>::empty());
        assert(entries(encodings(values.subrange(0, 0))) =~= Seq::<Seq<u8>>::empty());
        assert(entries(encodings(values.subrange(0, 0))).to_set() =~= Set::<Seq<u8>>::empty());
    } else {
        lemma_multimap_prefix(table, states, key, values, n - 1);
        let i = n - 1;
        assert(states[i + 1] == states[n]);
        assert(link_result(
            states[i].database(),
            states[i + 1].database(),
            table.name@,
            key.encoding(),
            values[i].encoding(),
            Ok(()),
        ));
        let prev = encodings(values.subrange(0, n - 1));
        assert(holds_in_order(links_of(states[i].database(), table.name@, key.encoding()), prev));
        assert(encodings(values.subrange(0, n)) =~= prev.push(values[n - 1].encoding()));
        assert forall|t: Seq<char>, k: Seq<u8>|
            (t, k) != (table.name@, key.encoding()) implies #[trigger] links_of(states[n].database(), t, k)
                == links_of(states[0].database(), t, k) by {
            assert(links_of(states[n].database(), t, k) == links_of(states[i].database(), t, k));
        }
    }
}

} // verus!
