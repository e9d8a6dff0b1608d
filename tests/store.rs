use core::marker::PhantomData;
use ream_storage::codec::{Checkpoint, DecodeError, Payload, Root};
use ream_storage::store::{
    schema_multimap_tables, schema_tables, MultimapTable, ParentRootIndex, ReamDB, StoreError,
    Table, PARENT_ROOT_INDEX_MULTIMAP_TABLE, SLOT_INDEX_TABLE,
};

fn root(b: u8) -> Root {
    Root { bytes: [b; 32] }
}

fn fresh() -> ReamDB {
    ReamDB::new_in_memory().expect("in-memory store")
}

#[test]
fn field_is_none_before_set() {
    let store = fresh();
    assert_eq!(store.justified_checkpoint_provider().get(&store).unwrap(), None);
    assert_eq!(store.genesis_time_provider().get(&store).unwrap(), None);
    assert_eq!(store.proposer_boost_root_provider().get(&store).unwrap(), None);
}

#[test]
fn checkpoint_field_set_get_and_replace() {
    let mut store = fresh();
    let field = store.justified_checkpoint_provider();
    let c5 = Checkpoint { epoch: 5, root: root(0xaa) };
    field.set(&mut store, &c5).unwrap();
    assert_eq!(field.get(&store).unwrap(), Some(c5));
    let c6 = Checkpoint { epoch: 6, root: root(0xbb) };
    field.set(&mut store, &c6).unwrap();
    assert_eq!(field.get(&store).unwrap(), Some(c6));
    assert_eq!(store.finalized_checkpoint_provider().get(&store).unwrap(), None);
}

#[test]
fn equivocating_indices_are_replaced_whole() {
    let mut store = fresh();
    let field = store.equivocating_indices_provider();
    assert_eq!(field.get(&store).unwrap(), None);
    field.set(&mut store, &vec![3, 7]).unwrap();
    assert_eq!(field.get(&store).unwrap(), Some(vec![3, 7]));
    field.set(&mut store, &vec![3, 7, 9]).unwrap();
    assert_eq!(field.get(&store).unwrap(), Some(vec![3, 7, 9]));
}

#[test]
fn scalar_fields_hold_their_values() {
    let mut store = fresh();
    store.genesis_time_provider().set(&mut store, &1_606_824_023).unwrap();
    store.time_provider().set(&mut store, &u64::MAX).unwrap();
    store.proposer_boost_root_provider().set(&mut store, &root(0)).unwrap();
    assert_eq!(store.genesis_time_provider().get(&store).unwrap(), Some(1_606_824_023));
    assert_eq!(store.time_provider().get(&store).unwrap(), Some(u64::MAX));
    assert_eq!(store.proposer_boost_root_provider().get(&store).unwrap(), Some(root(0)));
}

#[test]
fn table_insert_overwrites() {
    let mut store = fresh();
    let slots = store.slot_index_provider();
    assert_eq!(slots.get(&store, &10).unwrap(), None);
    slots.insert(&mut store, &10, &root(1)).unwrap();
    slots.insert(&mut store, &10, &root(2)).unwrap();
    assert_eq!(slots.get(&store, &10).unwrap(), Some(root(2)));
    assert_eq!(slots.get(&store, &11).unwrap(), None);
}

#[test]
fn keyed_tables_are_independent() {
    let mut store = fresh();
    store.state_root_index_provider().insert(&mut store, &root(4), &root(5)).unwrap();
    store.block_timeliness_provider().insert(&mut store, &root(4), &true).unwrap();
    let payload = Payload { bytes: vec![1, 2, 3] };
    store.beacon_block_provider().insert(&mut store, &root(4), &payload).unwrap();
    let cp = Checkpoint { epoch: 2, root: root(4) };
    store.checkpoint_states_provider().insert(&mut store, &cp, &payload).unwrap();
    assert_eq!(store.state_root_index_provider().get(&store, &root(4)).unwrap(), Some(root(5)));
    assert_eq!(store.block_timeliness_provider().get(&store, &root(4)).unwrap(), Some(true));
    assert_eq!(store.beacon_block_provider().get(&store, &root(4)).unwrap(), Some(payload.clone()));
    assert_eq!(store.checkpoint_states_provider().get(&store, &cp).unwrap(), Some(payload));
    assert_eq!(store.beacon_state_provider().get(&store, &root(4)).unwrap(), None);
}

#[test]
fn parent_root_index_collects_children() {
    let mut store = fresh();
    let index = store.parent_root_index_multimap_provider();
    let parent = root(0x11);
    assert_eq!(index.get(&store, parent).unwrap(), Some(vec![]));
    index.insert(&mut store, parent, root(0x22)).unwrap();
    assert_eq!(index.get(&store, parent).unwrap(), Some(vec![root(0x22)]));
    index.insert(&mut store, parent, root(0x33)).unwrap();
    assert_eq!(index.get(&store, parent).unwrap(), Some(vec![root(0x22), root(0x33)]));
    assert_eq!(index.get(&store, root(0x12)).unwrap(), Some(vec![]));
}

#[test]
fn parent_root_index_same_pair_twice() {
    let mut store = fresh();
    let index = store.parent_root_index_multimap_provider();
    index.insert(&mut store, root(7), root(8)).unwrap();
    index.insert(&mut store, root(7), root(8)).unwrap();
    assert_eq!(index.get(&store, root(7)).unwrap(), Some(vec![root(8), root(8)]));
}

#[test]
fn parent_root_index_keeps_insertion_order() {
    let mut store = fresh();
    let index = store.parent_root_index_multimap_provider();
    index.insert(&mut store, root(0x01), root(0x33)).unwrap();
    index.insert(&mut store, root(0x01), root(0x22)).unwrap();
    index.insert(&mut store, root(0x01), root(0x00)).unwrap();
    assert_eq!(
        index.get(&store, root(0x01)).unwrap(),
        Some(vec![root(0x33), root(0x22), root(0x00)])
    );
    assert_eq!(index.get(&store, root(0x01)).unwrap(), index.get(&store, root(0x01)).unwrap());
}

#[test]
fn table_overwrite_leaves_other_keys() {
    let mut store = fresh();
    let msgs = store.latest_messages_provider();
    let m1 = Payload { bytes: vec![1] };
    let mj = Payload { bytes: vec![2] };
    let m2 = Payload { bytes: vec![3] };
    msgs.insert(&mut store, &4, &m1).unwrap();
    msgs.insert(&mut store, &5, &mj).unwrap();
    msgs.insert(&mut store, &4, &m2).unwrap();
    assert_eq!(msgs.get(&store, &4).unwrap(), Some(m2));
    assert_eq!(msgs.get(&store, &5).unwrap(), Some(mj));
}

#[test]
fn corrupt_bytes_give_decode_error() {
    let mut store = fresh();
    let raw: Table<u64, Payload> = Table { name: SLOT_INDEX_TABLE, durable: true, marker: PhantomData };
    raw.insert(&mut store, &3, &Payload { bytes: vec![1, 2] }).unwrap();
    match store.slot_index_provider().get(&store, &3) {
        Err(StoreError::Decode(e)) => assert_eq!(e, DecodeError::InvalidLength),
        other => panic!("expected a decoding error, got {:?}", other),
    }
    let raw_links: MultimapTable<Root, Payload> =
        MultimapTable { name: PARENT_ROOT_INDEX_MULTIMAP_TABLE, durable: true, marker: PhantomData };
    raw_links.insert(&mut store, &root(1), &Payload { bytes: vec![0; 5] }).unwrap();
    assert!(matches!(
        store.parent_root_index_multimap_provider().get(&store, root(1)),
        Err(StoreError::Decode(DecodeError::InvalidLength))
    ));
}

#[test]
fn failed_write_keeps_prior_value() {
    let mut store = fresh();
    let index = store.parent_root_index_multimap_provider();
    index.insert(&mut store, root(1), root(2)).unwrap();
    let wrong: Table<Root, Root> = Table { name: PARENT_ROOT_INDEX_MULTIMAP_TABLE, durable: true, marker: PhantomData };
    let r = wrong.insert(&mut store, &root(1), &root(3));
    assert!(matches!(r, Err(StoreError::Database(_))));
    assert_eq!(index.get(&store, root(1)).unwrap(), Some(vec![root(2)]));
}

#[test]
fn reopening_keeps_stored_values() {
    let mut store = fresh();
    let c = Checkpoint { epoch: 9, root: root(3) };
    store.finalized_checkpoint_provider().set(&mut store, &c).unwrap();
    store.parent_root_index_multimap_provider().insert(&mut store, root(1), root(2)).unwrap();
    let again = ReamDB::new(store.into_database()).expect("reopen");
    assert_eq!(again.finalized_checkpoint_provider().get(&again).unwrap(), Some(c));
    assert_eq!(again.parent_root_index_multimap_provider().get(&again, root(1)).unwrap(), Some(vec![root(2)]));
}

#[test]
fn schema_lists_every_table_once() {
    let mut names = schema_tables();
    names.extend(schema_multimap_tables());
    assert_eq!(names.len(), 18);
    let mut sorted = names.clone();
    sorted.sort();
    sorted.dedup();
    assert_eq!(sorted.len(), 18);
    assert!(names.contains(&"parent_root_index_multimap"));
    let _marker = ParentRootIndex {};
}
