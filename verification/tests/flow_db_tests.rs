use flow_store::entry_batch::EntryBatch;
use flow_store::error::Error;
use flow_store::flow_db::{
    FlowDBStore, COL_ENTRY_BATCH, COL_FLOW_MPT_NODES, COL_NUM, COL_PAD_DATA_LIST,
    COL_PAD_DATA_SYNC_HEIGHT,
};
use flow_store::types::{DataRoot, PadPair};
use kvdb::{DBTransaction, KeyValueDB};

fn batch_with(first: u8, count: usize) -> EntryBatch {
    let mut batch = EntryBatch::new();
    let mut data = Vec::new();
    for s in 0..count {
        data.extend_from_slice(&[first.wrapping_add(s as u8); 256]);
    }
    batch.insert_data(0, data).unwrap();
    batch
}

fn raw_db(rows: Vec<(u32, Vec<u8>, Vec<u8>)>) -> kvdb_memorydb::InMemory {
    let db = kvdb_memorydb::create(COL_NUM);
    let mut tx = DBTransaction::new();
    for (col, key, value) in rows.iter() {
        tx.put(*col, key, value);
    }
    db.write(tx).unwrap();
    db
}

#[test]
fn a_database_without_the_columns_is_refused() {
    assert!(matches!(FlowDBStore::new(kvdb_memorydb::create(3)), Err(Error::KvFailure)));
    assert!(matches!(FlowDBStore::new(kvdb_memorydb::create(0)), Err(Error::KvFailure)));
    assert!(FlowDBStore::new(kvdb_memorydb::create(4)).is_ok());
    assert!(FlowDBStore::new(kvdb_memorydb::create(9)).is_ok());
}

#[test]
fn batches_are_stored_under_their_index() {
    let mut db = FlowDBStore::memorydb();
    assert!(db.get_entry_batch(3).unwrap().is_none());
    assert_eq!(db.num_batches(), 0);
    db.put_entry_raw(vec![(3, batch_with(1, 2)), (0x0102, batch_with(9, 16))]).unwrap();
    assert_eq!(db.num_batches(), 2);
    let back = db.get_entry_batch(3).unwrap().unwrap();
    assert_eq!(back.to_bytes(), batch_with(1, 2).to_bytes());
    assert_eq!(db.get_entry_batch(0x0102).unwrap().unwrap().to_bytes(), batch_with(9, 16).to_bytes());
    assert!(db.get_entry_batch(4).unwrap().is_none());
    db.put_entry_raw(vec![(3, batch_with(7, 1)), (3, batch_with(8, 1))]).unwrap();
    assert_eq!(db.num_batches(), 2);
    assert_eq!(db.get_entry_batch(3).unwrap().unwrap().to_bytes(), batch_with(8, 1).to_bytes());
}

#[test]
fn rows_have_big_endian_keys() {
    let mut db = FlowDBStore::memorydb();
    db.put_entry_raw(vec![(0x0102, batch_with(9, 1))]).unwrap();
    db.put_pad_data(&[PadPair { start_index: 1, data_size: 2 }], 7).unwrap();
    db.put_pad_data_sync_height(0x0a0b).unwrap();
    let reopened = raw_db(vec![
        (COL_ENTRY_BATCH, vec![0, 0, 0, 0, 0, 0, 1, 2], batch_with(9, 1).to_bytes()),
        (COL_PAD_DATA_LIST, vec![0, 0, 0, 0, 0, 0, 0, 7], vec![
            0, 0, 0, 0, 0, 0, 0, 1, 0, 0, 0, 0, 0, 0, 0, 2,
        ]),
        (COL_PAD_DATA_SYNC_HEIGHT, b"sync_height".to_vec(), vec![0, 0, 0, 0, 0, 0, 0x0a, 0x0b]),
    ]);
    let other = FlowDBStore::new(reopened).unwrap();
    assert_eq!(
        other.get_entry_batch(0x0102).unwrap().unwrap().to_bytes(),
        db.get_entry_batch(0x0102).unwrap().unwrap().to_bytes()
    );
    assert_eq!(other.get_pad_data(7).unwrap(), db.get_pad_data(7).unwrap());
    assert_eq!(other.get_pad_data(7).unwrap(), Some(vec![PadPair { start_index: 1, data_size: 2 }]));
    assert_eq!(other.get_pad_data_sync_height().unwrap(), Some(0x0a0b));
    assert_eq!(db.get_pad_data_sync_height().unwrap(), Some(0x0a0b));
}

#[test]
fn complete_batches_are_reported_in_order() {
    let mut db = FlowDBStore::memorydb();
    let roots = db
        .put_entry_batch_list(vec![
            (0, batch_with(1, 16)),
            (1, batch_with(1, 15)),
            (2, batch_with(1, 16)),
            (5, batch_with(3, 16)),
        ])
        .unwrap();
    assert_eq!(roots.iter().map(|r| r.0).collect::<Vec<u64>>(), vec![0, 2, 5]);
    assert_eq!(roots[0].1.bytes, batch_with(1, 16).build_root(true).unwrap().bytes);
    assert_eq!(roots[1].1.bytes, batch_with(1, 16).build_root(false).unwrap().bytes);
    assert_ne!(roots[0].1.bytes, roots[1].1.bytes);
    assert_eq!(roots[2].1.bytes, batch_with(3, 16).build_root(false).unwrap().bytes);
    assert_eq!(db.num_batches(), 4);
    assert!(db.put_entry_batch_list(vec![]).unwrap().is_empty());
}

#[test]
fn listed_batches_are_deleted() {
    let mut db = FlowDBStore::memorydb();
    db.put_entry_raw((0..5).map(|i| (i, batch_with(i as u8, 1))).collect()).unwrap();
    db.delete_batch_list(&[1, 3, 9]).unwrap();
    assert_eq!(db.num_batches(), 3);
    assert!(db.get_entry_batch(0).unwrap().is_some());
    assert!(db.get_entry_batch(1).unwrap().is_none());
    assert!(db.get_entry_batch(2).unwrap().is_some());
    assert!(db.get_entry_batch(3).unwrap().is_none());
    assert!(db.get_entry_batch(4).unwrap().is_some());
    db.delete_batch_list(&[]).unwrap();
    assert_eq!(db.num_batches(), 3);
}

#[test]
fn truncation_cuts_and_removes() {
    let mut db = FlowDBStore::memorydb();
    db.put_entry_raw(vec![
        (0, batch_with(0, 16)),
        (1, batch_with(16, 16)),
        (2, batch_with(32, 16)),
        (300, batch_with(1, 3)),
    ])
    .unwrap();
    assert_eq!(db.truncate(24, 16), Ok(vec![]));
    assert_eq!(db.num_batches(), 2);
    assert_eq!(db.get_entry_batch(0).unwrap().unwrap().to_bytes(), batch_with(0, 16).to_bytes());
    let cut = db.get_entry_batch(1).unwrap().unwrap();
    assert_eq!(cut.to_bytes(), batch_with(16, 8).to_bytes());
    assert!(db.get_entry_batch(2).unwrap().is_none());
    assert!(db.get_entry_batch(300).unwrap().is_none());
    assert_eq!(db.truncate(16, 16), Ok(vec![]));
    assert_eq!(db.num_batches(), 1);
    assert_eq!(db.truncate(1000, 16), Ok(vec![]));
    assert_eq!(db.num_batches(), 1);
    assert_eq!(db.truncate(0, 16), Ok(vec![]));
    assert_eq!(db.num_batches(), 0);
    assert_eq!(db.truncate(7, 16), Ok(vec![]));
}

#[test]
fn truncation_names_the_units_to_seal_again() {
    let mut db = FlowDBStore::memorydb();
    let mut batch = batch_with(0, 16);
    for unit in [0u64, 1, 3] {
        batch
            .submit_seal_result(&flow_store::types::SealAnswer {
                seal_index: 5 * 4 + unit,
                version: 0,
                sealed_data: vec![1u8; 1024],
                miner_id: DataRoot::zero(),
                seal_context: DataRoot::zero(),
                context_end_seal: 0,
            })
            .unwrap();
    }
    db.put_entry_raw(vec![(5, batch)]).unwrap();
    assert_eq!(db.truncate(5 * 16 + 9, 16), Ok(vec![20, 21]));
    let cut = db.get_entry_batch(5).unwrap().unwrap();
    assert!(cut.get_sealed_data(0).is_none());
    assert!(cut.has_range(0, 9));
    assert!(!cut.has_range(9, 1));
}

#[test]
fn a_batch_with_a_subtree_outlives_the_cut_of_its_data() {
    let mut db = FlowDBStore::memorydb();
    let mut only_late = EntryBatch::new();
    only_late.insert_data(8, vec![1u8; 512]).unwrap();
    let mut with_subtree = EntryBatch::new();
    with_subtree.insert_data(8, vec![1u8; 512]).unwrap();
    with_subtree.set_subtree_list(vec![(0, 1, DataRoot::zero())]);
    db.put_entry_raw(vec![(1, only_late)]).unwrap();
    assert_eq!(db.truncate(16 + 4, 16), Ok(vec![]));
    assert!(db.get_entry_batch(1).unwrap().is_none());
    db.put_entry_raw(vec![(1, with_subtree)]).unwrap();
    assert_eq!(db.truncate(16 + 4, 16), Ok(vec![]));
    let kept = db.get_entry_batch(1).unwrap().unwrap();
    assert!(!kept.is_empty());
    assert!(!kept.has_range(8, 1));
}

#[test]
fn malformed_rows_are_codec_errors() {
    let db = raw_db(vec![
        (COL_ENTRY_BATCH, vec![0, 0, 0, 0, 0, 0, 0, 1], vec![1, 2, 3]),
        (COL_PAD_DATA_LIST, vec![0, 0, 0, 0, 0, 0, 0, 1], vec![0; 15]),
        (COL_PAD_DATA_SYNC_HEIGHT, b"sync_height".to_vec(), vec![0; 7]),
        (COL_FLOW_MPT_NODES, vec![0; 16], vec![0; 31]),
        (COL_FLOW_MPT_NODES, [b"layer_size".to_vec(), vec![0; 8]].concat(), vec![0; 9]),
    ]);
    let mut store = FlowDBStore::new(db).unwrap();
    assert!(matches!(store.get_entry_batch(1), Err(Error::Codec)));
    assert!(store.get_entry_batch(0).unwrap().is_none());
    assert_eq!(store.get_pad_data(1), Err(Error::Codec));
    assert_eq!(store.get_pad_data_sync_height(), Err(Error::Codec));
    assert!(matches!(store.get_node(0, 0), Err(Error::Codec)));
    assert_eq!(store.get_layer_size(0), Err(Error::Codec));
    assert_eq!(store.truncate(16 + 3, 16), Err(Error::Codec));
    assert_eq!(store.num_batches(), 1);
    assert_eq!(store.truncate(32, 16), Ok(vec![]));
    assert_eq!(store.truncate(16, 16), Ok(vec![]));
    assert_eq!(store.num_batches(), 0);
}

#[test]
fn a_malformed_last_key_stops_truncation() {
    let db = raw_db(vec![
        (COL_ENTRY_BATCH, vec![0, 0, 0, 0, 0, 0, 0, 1], EntryBatch::new().to_bytes()),
        (COL_ENTRY_BATCH, vec![1, 2, 3], vec![]),
    ]);
    let mut store = FlowDBStore::new(db).unwrap();
    assert_eq!(store.truncate(0, 16), Err(Error::Codec));
    assert_eq!(store.num_batches(), 2);
    assert!(store.get_entry_batch(1).unwrap().is_some());
}

#[test]
fn merkle_nodes_and_layer_sizes() {
    let mut db = FlowDBStore::memorydb();
    assert!(db.get_node(1, 2).unwrap().is_none());
    assert_eq!(db.get_layer_size(1), Ok(None));
    let a = DataRoot { bytes: [1u8; 32] };
    let b = DataRoot { bytes: [2u8; 32] };
    let c = DataRoot { bytes: [3u8; 32] };
    let mut tx = db.start_transaction();
    tx.save_node(1, 2, &a);
    tx.save_node_list(&[(1, 3, &b), (2, 0, &c)]);
    tx.save_layer_size(1, 4);
    tx.save_layer_size(2, 1);
    assert!(db.get_node(1, 2).unwrap().is_none());
    db.commit(tx).unwrap();
    assert_eq!(db.get_node(1, 2).unwrap().unwrap().bytes, a.bytes);
    assert_eq!(db.get_node(1, 3).unwrap().unwrap().bytes, b.bytes);
    assert_eq!(db.get_node(2, 0).unwrap().unwrap().bytes, c.bytes);
    assert!(db.get_node(2, 1).unwrap().is_none());
    assert_eq!(db.get_layer_size(1), Ok(Some(4)));
    assert_eq!(db.get_layer_size(2), Ok(Some(1)));
    assert_eq!(db.get_layer_size(3), Ok(None));
    let mut tx = db.start_transaction();
    tx.remove_node_list(&[(1, 2), (2, 0), (9, 9)]);
    tx.remove_layer_size(2);
    tx.save_node(1, 3, &c);
    db.commit(tx).unwrap();
    assert!(db.get_node(1, 2).unwrap().is_none());
    assert!(db.get_node(2, 0).unwrap().is_none());
    assert_eq!(db.get_node(1, 3).unwrap().unwrap().bytes, c.bytes);
    assert_eq!(db.get_layer_size(1), Ok(Some(4)));
    assert_eq!(db.get_layer_size(2), Ok(None));
    assert_eq!(db.num_batches(), 0);
    db.commit(db.start_transaction()).unwrap();
    assert_eq!(db.get_layer_size(1), Ok(Some(4)));
}
