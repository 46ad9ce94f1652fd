use flow_store::error::Error;
use flow_store::flow::{FlowConfig, FlowStore};
use flow_store::flow_db::FlowDBStore;
use flow_store::shard::ShardConfig;
use flow_store::types::{ChunkArray, DataRoot, PadPair, SealAnswer};

fn new_store() -> FlowStore {
    FlowStore::new(FlowDBStore::memorydb(), FlowDBStore::memorydb(), FlowConfig::default())
}

/// `count` sectors; every byte of sector `s` is `first + s`.
fn sectors(first: u8, count: usize) -> Vec<u8> {
    let mut data = Vec::with_capacity(count * 256);
    for s in 0..count {
        for _ in 0..256 {
            data.push(first.wrapping_add(s as u8));
        }
    }
    data
}

fn answer(seal_index: u64, version: u64, fill: u8) -> SealAnswer {
    SealAnswer {
        seal_index,
        version,
        sealed_data: vec![fill; 1024],
        miner_id: DataRoot { bytes: [7u8; 32] },
        seal_context: DataRoot { bytes: [9u8; 32] },
        context_end_seal: seal_index + 1,
    }
}

#[test]
fn fresh_append_then_read_leaves_out_sector_zero() {
    let mut store = new_store();
    let data = vec![1u8; 256 * 16];
    let roots = store.append_entries(ChunkArray { data: data.clone(), start_index: 0 }).unwrap();
    assert_eq!(roots.len(), 1);
    assert_eq!(roots[0].0, 0);
    let all = store.get_entries(0, 16).unwrap().unwrap();
    assert_eq!(all.start_index, 0);
    assert_eq!(all.data.len(), 256 * 15);
    assert_eq!(all.data, vec![1u8; 256 * 15]);
    let rest = store.get_entries(1, 16).unwrap().unwrap();
    assert_eq!(rest.start_index, 1);
    assert_eq!(rest.data, all.data);
}

#[test]
fn full_batch_is_reported_complete() {
    let mut store = new_store();
    let data = sectors(3, 16);
    let roots = store.append_entries(ChunkArray { data: data.clone(), start_index: 16 }).unwrap();
    assert_eq!(roots.len(), 1);
    assert_eq!(roots[0].0, 1);
    assert_ne!(roots[0].1.bytes, [0u8; 32]);
    assert_eq!(store.get_num_entries().unwrap(), 16);
    assert_eq!(store.get_entries(16, 32).unwrap().unwrap().data, data);
}

#[test]
fn half_batch_is_not_reported_complete() {
    let mut store = new_store();
    let roots = store.append_entries(ChunkArray { data: sectors(3, 8), start_index: 16 }).unwrap();
    assert!(roots.is_empty());
    let roots = store.append_entries(ChunkArray { data: sectors(11, 8), start_index: 24 }).unwrap();
    assert_eq!(roots.len(), 1);
    assert_eq!(roots[0].0, 1);
    let mut other = new_store();
    let whole = other.append_entries(ChunkArray { data: sectors(3, 16), start_index: 16 }).unwrap();
    assert_eq!(whole[0].1.bytes, roots[0].1.bytes);
}

#[test]
fn misaligned_append_is_refused() {
    let mut store = new_store();
    let r = store.append_entries(ChunkArray { data: vec![0u8; 255], start_index: 0 });
    assert_eq!(r.unwrap_err(), Error::InvalidArgument);
    assert_eq!(store.get_num_entries().unwrap(), 0);
    assert!(store.get_entries(0, 1).unwrap().is_none());
    assert!(store.pending_seals().is_empty());
}

#[test]
fn append_past_the_last_index_is_refused() {
    let mut store = new_store();
    let r = store.append_entries(ChunkArray { data: sectors(0, 2), start_index: u64::MAX - 1 });
    assert_eq!(r.unwrap_err(), Error::InvalidArgument);
    assert_eq!(store.get_num_entries().unwrap(), 0);
}

#[test]
fn append_of_nothing_changes_nothing() {
    let mut store = new_store();
    let roots = store.append_entries(ChunkArray { data: Vec::new(), start_index: 5 }).unwrap();
    assert!(roots.is_empty());
    assert_eq!(store.get_num_entries().unwrap(), 0);
}

#[test]
fn truncate_mid_seal() {
    let mut store = new_store();
    let data = sectors(0, 48);
    let roots = store
        .append_entries_with(ChunkArray { data: data.clone(), start_index: 0 }, true)
        .unwrap();
    assert_eq!(roots.iter().map(|r| r.0).collect::<Vec<u64>>(), vec![0, 1, 2]);
    assert_eq!(store.pending_seals(), (0..12).map(|k| (k, 0)).collect::<Vec<(u64, u64)>>());
    store
        .submit_seal_result(vec![answer(0, 0, 0xa0), answer(4, 0, 0xa4), answer(5, 0, 0xa5)])
        .unwrap();
    assert_eq!(
        store.pending_seals(),
        vec![(1, 0), (2, 0), (3, 0), (6, 0), (7, 0), (8, 0), (9, 0), (10, 0), (11, 0)]
    );
    assert_eq!(
        store.load_sealed_data(1).unwrap().unwrap().availabilities,
        vec![true, true, false, false]
    );
    assert_eq!(store.current_seal_version(), 0);

    store.truncate(20).unwrap();

    assert_eq!(store.current_seal_version(), 1);
    assert_eq!(store.pending_seals(), vec![(1, 0), (2, 0), (3, 0), (4, 1)]);
    assert_eq!(store.get_entries(16, 20).unwrap().unwrap().data, data[16 * 256..20 * 256].to_vec());
    assert!(store.get_entries(16, 21).unwrap().is_none());
    assert!(store.get_entries(20, 21).unwrap().is_none());
    assert_eq!(store.get_entries(1, 16).unwrap().unwrap().data, data[256..16 * 256].to_vec());
    assert_eq!(
        store.load_sealed_data(0).unwrap().unwrap().availabilities,
        vec![true, false, false, false]
    );
    assert_eq!(
        store.load_sealed_data(1).unwrap().unwrap().availabilities,
        vec![false, false, false, false]
    );
    assert!(store.load_sealed_data(2).unwrap().is_none());
    assert!(store.get_entries(32, 48).unwrap().is_none());
    assert_eq!(store.get_num_entries().unwrap(), 32);

    let tasks = store.pull_seal_chunk(1_000_000).unwrap().unwrap();
    assert_eq!(tasks.iter().map(|t| (t.seal_index, t.version)).collect::<Vec<_>>(), vec![
        (1, 0),
        (2, 0),
        (3, 0)
    ]);
    store.submit_seal_result(vec![answer(1, 0, 1), answer(2, 0, 2), answer(3, 0, 3)]).unwrap();
    let tasks = store.pull_seal_chunk(1_000_000).unwrap().unwrap();
    assert_eq!(tasks.len(), 1);
    assert_eq!(tasks[0].seal_index, 4);
    assert_eq!(tasks[0].version, 1);
    assert_eq!(tasks[0].non_sealed_data, data[16 * 256..20 * 256].to_vec());
}

#[test]
fn pull_and_submit_round_trip() {
    let mut store = new_store();
    assert!(store.pull_seal_chunk(1_000_000).unwrap().is_none());
    let data = sectors(10, 8);
    store.append_entries(ChunkArray { data: data.clone(), start_index: 0 }).unwrap();
    assert_eq!(store.pending_seals(), vec![(0, 0), (1, 0)]);
    let tasks = store.pull_seal_chunk(1_000_000).unwrap().unwrap();
    assert_eq!(tasks.len(), 2);
    assert_eq!(tasks[0].seal_index, 0);
    assert_eq!(tasks[1].seal_index, 1);
    assert_eq!(tasks[0].version, 0);
    assert_eq!(tasks[1].version, 0);
    assert_eq!(tasks[0].non_sealed_data, data[0..1024].to_vec());
    assert_eq!(tasks[1].non_sealed_data, data[1024..2048].to_vec());
    store.submit_seal_result(vec![answer(0, 0, 0xaa), answer(1, 0, 0xbb)]).unwrap();
    assert!(store.pending_seals().is_empty());
    assert!(store.pull_seal_chunk(1_000_000).unwrap().is_none());
    let back = store.get_entries(0, 8).unwrap().unwrap();
    assert_eq!(back.data, data[256..].to_vec());
    let loaded = store.load_sealed_data(0).unwrap().unwrap();
    assert_eq!(loaded.availabilities, vec![true, true, false, false]);
    assert_eq!(loaded.loaded_chunk.len(), 4);
    assert_eq!(loaded.loaded_chunk[0], vec![0xaa; 1024]);
    assert_eq!(loaded.loaded_chunk[1], vec![0xbb; 1024]);
    assert_eq!(loaded.loaded_chunk[2], vec![0u8; 1024]);
    assert_eq!(loaded.loaded_chunk[3], vec![0u8; 1024]);
}

#[test]
fn stale_seal_answer_is_dropped() {
    let mut store = new_store();
    let data = sectors(1, 8);
    store.append_entries_with(ChunkArray { data, start_index: 0 }, true).unwrap();
    store.submit_seal_result(vec![answer(0, 0, 0x11)]).unwrap();
    assert_eq!(store.pending_seals(), vec![(1, 0)]);
    let tasks = store.pull_seal_chunk(1_000_000).unwrap().unwrap();
    assert_eq!(tasks.len(), 1);
    assert_eq!((tasks[0].seal_index, tasks[0].version), (1, 0));

    store.truncate(6).unwrap();
    assert_eq!(store.current_seal_version(), 1);
    assert_eq!(store.pending_seals(), vec![(0, 1)]);

    store.submit_seal_result(vec![answer(1, 0, 0x22), answer(0, 0, 0x33)]).unwrap();
    assert_eq!(store.pending_seals(), vec![(0, 1)]);
    assert_eq!(
        store.load_sealed_data(0).unwrap().unwrap().availabilities,
        vec![false, false, false, false]
    );

    store.submit_seal_result(vec![answer(0, 1, 0x44)]).unwrap();
    assert!(store.pending_seals().is_empty());
    let loaded = store.load_sealed_data(0).unwrap().unwrap();
    assert_eq!(loaded.availabilities, vec![true, false, false, false]);
    assert_eq!(loaded.loaded_chunk[0], vec![0x44; 1024]);
}

#[test]
fn append_round_trip_across_batches() {
    let mut store = new_store();
    let data = sectors(100, 40);
    let roots = store.append_entries(ChunkArray { data: data.clone(), start_index: 5 }).unwrap();
    assert_eq!(roots.len(), 1);
    assert_eq!(roots[0].0, 1);
    let back = store.get_entries(5, 45).unwrap().unwrap();
    assert_eq!(back.start_index, 5);
    assert_eq!(back.data, data);
    assert_eq!(store.get_entries(17, 19).unwrap().unwrap().data, data[12 * 256..14 * 256].to_vec());
    assert!(store.get_entries(4, 45).unwrap().is_none());
    assert!(store.get_entries(5, 46).unwrap().is_none());
    assert_eq!(store.get_num_entries().unwrap(), 48);
}

#[test]
fn nothing_is_stored_outside_the_shard() {
    let mut store = new_store();
    store.update_shard_config(ShardConfig::new(2, 1).unwrap());
    assert_eq!(store.get_shard_config(), ShardConfig { num_shard: 2, shard_id: 1 });
    let data = sectors(0, 48);
    let roots = store
        .append_entries_with(ChunkArray { data: data.clone(), start_index: 0 }, true)
        .unwrap();
    assert_eq!(roots.len(), 1);
    assert_eq!(roots[0].0, 1);
    assert_eq!(store.get_num_entries().unwrap(), 16);
    assert!(store.load_sealed_data(0).unwrap().is_none());
    assert!(store.load_sealed_data(2).unwrap().is_none());
    assert!(store.get_entries(1, 16).unwrap().is_none());
    assert_eq!(store.get_entries(16, 32).unwrap().unwrap().data, data[16 * 256..32 * 256].to_vec());
    assert_eq!(store.pending_seals(), vec![(4, 0), (5, 0), (6, 0), (7, 0)]);
}

#[test]
fn one_pull_stays_in_one_batch_and_ascends() {
    let mut store = new_store();
    store.append_entries_with(ChunkArray { data: sectors(0, 48), start_index: 0 }, true).unwrap();
    let tasks = store.pull_seal_chunk(6).unwrap().unwrap();
    assert_eq!(tasks.iter().map(|t| t.seal_index).collect::<Vec<u64>>(), vec![0, 1, 2, 3]);
    let tasks = store.pull_seal_chunk(2).unwrap().unwrap();
    assert_eq!(tasks.iter().map(|t| t.seal_index).collect::<Vec<u64>>(), vec![0, 1]);
    assert!(store.pull_seal_chunk(0).unwrap().is_none());
    store
        .submit_seal_result(vec![answer(0, 0, 1), answer(1, 0, 1), answer(2, 0, 1), answer(3, 0, 1)])
        .unwrap();
    let tasks = store.pull_seal_chunk(6).unwrap().unwrap();
    assert_eq!(tasks.iter().map(|t| t.seal_index).collect::<Vec<u64>>(), vec![4, 5]);
    assert!(store.pull_seal_chunk(4).unwrap().is_none());
    assert_eq!(store.pending_seals().len(), 8);
}

#[test]
fn units_completed_without_a_sealer_are_not_queued() {
    let mut store = new_store();
    store.append_entries(ChunkArray { data: sectors(0, 16), start_index: 0 }).unwrap();
    assert!(store.pending_seals().is_empty());
    store.append_entries_with(ChunkArray { data: sectors(0, 16), start_index: 16 }, false).unwrap();
    assert!(store.pending_seals().is_empty());
    assert!(store.pull_seal_chunk(100).unwrap().is_none());
    store.append_entries(ChunkArray { data: sectors(0, 4), start_index: 32 }).unwrap();
    assert_eq!(store.pending_seals(), vec![(8, 0)]);
}

#[test]
fn truncate_twice_leaves_the_same_rows() {
    let mut store = new_store();
    let data = sectors(0, 48);
    store.append_entries_with(ChunkArray { data: data.clone(), start_index: 0 }, true).unwrap();
    store.submit_seal_result(vec![answer(4, 0, 9)]).unwrap();
    store.truncate(22).unwrap();
    let entries = store.get_num_entries().unwrap();
    let kept = store.get_entries(1, 22).unwrap().unwrap().data;
    let sealed: Vec<Vec<bool>> =
        (0..2).map(|b| store.load_sealed_data(b).unwrap().unwrap().availabilities).collect();
    store.truncate(22).unwrap();
    assert_eq!(store.get_num_entries().unwrap(), entries);
    assert_eq!(entries, 32);
    assert_eq!(store.get_entries(1, 22).unwrap().unwrap().data, kept);
    assert_eq!(kept, data[256..22 * 256].to_vec());
    let again: Vec<Vec<bool>> =
        (0..2).map(|b| store.load_sealed_data(b).unwrap().unwrap().availabilities).collect();
    assert_eq!(again, sealed);
    assert!(store.get_entries(22, 23).unwrap().is_none());
    assert_eq!(store.current_seal_version(), 2);
}

#[test]
fn truncate_sweeps_the_pending_set() {
    let mut store = new_store();
    store.append_entries_with(ChunkArray { data: sectors(0, 48), start_index: 0 }, true).unwrap();
    store.submit_seal_result(vec![answer(1, 0, 9), answer(2, 0, 9)]).unwrap();
    let before = store.current_seal_version();
    store.truncate(13).unwrap();
    let pending = store.pending_seals();
    assert_eq!(pending, vec![(0, 0), (1, 1), (2, 1)]);
    assert!(pending.iter().all(|(k, _)| *k < 13 / 4));
    assert!(pending.iter().filter(|(k, _)| *k == 1 || *k == 2).all(|(_, v)| *v > before));
    assert_eq!(store.get_num_entries().unwrap(), 16);
}

#[test]
fn truncate_at_a_batch_boundary() {
    let mut store = new_store();
    let data = sectors(0, 48);
    store.append_entries_with(ChunkArray { data: data.clone(), start_index: 0 }, true).unwrap();
    store.submit_seal_result(vec![answer(0, 0, 9), answer(3, 0, 9)]).unwrap();
    store.truncate(16).unwrap();
    assert_eq!(store.get_num_entries().unwrap(), 16);
    assert_eq!(store.pending_seals(), vec![(1, 0), (2, 0)]);
    assert_eq!(
        store.load_sealed_data(0).unwrap().unwrap().availabilities,
        vec![true, false, false, true]
    );
    assert_eq!(store.current_seal_version(), 1);
}

#[test]
fn truncate_of_an_empty_store() {
    let mut store = new_store();
    store.truncate(5).unwrap();
    assert_eq!(store.get_num_entries().unwrap(), 0);
    assert_eq!(store.current_seal_version(), 1);
    assert!(store.pending_seals().is_empty());
}

#[test]
fn reads_of_empty_ranges_are_refused() {
    let store = new_store();
    assert_eq!(store.get_entries(4, 4).unwrap_err(), Error::InvalidArgument);
    assert_eq!(store.get_entries(5, 4).unwrap_err(), Error::InvalidArgument);
    assert_eq!(store.get_available_entries(16, 16).unwrap_err(), Error::InvalidArgument);
    assert_eq!(store.get_available_entries(1, 16).unwrap_err(), Error::InvalidArgument);
    assert_eq!(store.get_available_entries(0, 17).unwrap_err(), Error::InvalidArgument);
    assert!(store.get_available_entries(0, 32).unwrap().is_empty());
}

#[test]
fn available_entries_join_runs_across_batches() {
    let mut store = new_store();
    let a = sectors(1, 4);
    let b = sectors(50, 10);
    let c = sectors(90, 2);
    store.append_entries(ChunkArray { data: a.clone(), start_index: 2 }).unwrap();
    store.append_entries(ChunkArray { data: b.clone(), start_index: 12 }).unwrap();
    store.append_entries(ChunkArray { data: c.clone(), start_index: 40 }).unwrap();
    let list = store.get_available_entries(0, 48).unwrap();
    assert_eq!(list.len(), 3);
    assert_eq!(list[0].start_index, 2);
    assert_eq!(list[0].data, a);
    assert_eq!(list[1].start_index, 12);
    assert_eq!(list[1].data, b);
    assert_eq!(list[2].start_index, 40);
    assert_eq!(list[2].data, c);
    let list = store.get_available_entries(16, 32).unwrap();
    assert_eq!(list.len(), 1);
    assert_eq!(list[0].start_index, 16);
    assert_eq!(list[0].data, b[4 * 256..].to_vec());
}

#[test]
fn answers_for_two_batches_reach_both() {
    let mut store = new_store();
    store.append_entries_with(ChunkArray { data: sectors(0, 32), start_index: 0 }, true).unwrap();
    store
        .submit_seal_result(vec![
            answer(1, 0, 0x01),
            answer(2, 0, 0x02),
            answer(3, 0, 0x03),
            answer(5, 0, 0x05),
        ])
        .unwrap();
    let first = store.load_sealed_data(0).unwrap().unwrap();
    let second = store.load_sealed_data(1).unwrap().unwrap();
    assert_eq!(first.availabilities, vec![false, true, true, true]);
    assert_eq!(first.loaded_chunk[3], vec![0x03; 1024]);
    assert_eq!(first.loaded_chunk[1], vec![0x01; 1024]);
    assert_eq!(first.loaded_chunk[2], vec![0x02; 1024]);
    assert_eq!(second.availabilities, vec![false, true, false, false]);
    assert_eq!(second.loaded_chunk[1], vec![0x05; 1024]);
    assert_eq!(store.pending_seals(), vec![(0, 0), (4, 0), (6, 0), (7, 0)]);
}

#[test]
fn a_refused_answer_changes_nothing() {
    let mut store = new_store();
    store.append_entries_with(ChunkArray { data: sectors(0, 16), start_index: 0 }, true).unwrap();
    let mut short = answer(1, 0, 1);
    short.sealed_data = vec![1u8; 1023];
    let r = store.submit_seal_result(vec![answer(0, 0, 1), short]);
    assert_eq!(r.unwrap_err(), Error::InvalidArgument);
    assert_eq!(store.pending_seals(), vec![(0, 0), (1, 0), (2, 0), (3, 0)]);
    assert_eq!(
        store.load_sealed_data(0).unwrap().unwrap().availabilities,
        vec![false, false, false, false]
    );
}

#[test]
fn overwriting_a_sector_queues_its_unit_again() {
    let mut store = new_store();
    store.append_entries_with(ChunkArray { data: sectors(0, 4), start_index: 0 }, true).unwrap();
    assert_eq!(store.pending_seals(), vec![(0, 0)]);
    store.submit_seal_result(vec![answer(0, 0, 0x77)]).unwrap();
    assert!(store.pending_seals().is_empty());
    assert_eq!(
        store.load_sealed_data(0).unwrap().unwrap().availabilities,
        vec![true, false, false, false]
    );
    store.append_entries_with(ChunkArray { data: sectors(9, 1), start_index: 1 }, true).unwrap();
    assert_eq!(store.pending_seals(), vec![(0, 0)]);
    assert_eq!(
        store.load_sealed_data(0).unwrap().unwrap().availabilities,
        vec![false, false, false, false]
    );
    let tasks = store.pull_seal_chunk(10).unwrap().unwrap();
    assert_eq!(tasks.len(), 1);
    assert_eq!(tasks[0].non_sealed_data, [sectors(0, 1), sectors(9, 1), sectors(2, 2)].concat());
}

#[test]
fn merkle_nodes_pass_through() {
    let mut store = new_store();
    assert!(store.get_node(0, 0).unwrap().is_none());
    assert_eq!(store.get_layer_size(0), Ok(None));
    let mut tx = store.start_node_transaction();
    tx.save_node(0, 0, &DataRoot { bytes: [4u8; 32] });
    tx.save_layer_size(0, 1);
    store.commit_node_transaction(tx).unwrap();
    assert_eq!(store.get_node(0, 0).unwrap().unwrap().bytes, [4u8; 32]);
    assert_eq!(store.get_layer_size(0), Ok(Some(1)));
    assert_eq!(store.get_num_entries().unwrap(), 0);
}

#[test]
fn proofs_in_a_batch() {
    let mut store = new_store();
    assert_eq!(store.gen_proof_in_batch(0, 3).unwrap_err(), Error::NotFound);
    store.append_entries(ChunkArray { data: sectors(0, 8), start_index: 16 }).unwrap();
    assert_eq!(store.gen_proof_in_batch(1, 3).unwrap_err(), Error::NotFound);
    let roots = store.append_entries(ChunkArray { data: sectors(8, 8), start_index: 24 }).unwrap();
    assert_eq!(roots.len(), 1);
    let proof = store.gen_proof_in_batch(1, 3).unwrap();
    assert!(proof.validate());
    assert_eq!(proof.lemma.len(), 6);
    assert_eq!(proof.path, vec![false, false, true, true]);
    assert_eq!(proof.lemma[5].bytes, roots[0].1.bytes);
    assert_eq!(store.gen_proof_in_batch(1, 16).unwrap_err(), Error::InvalidArgument);
    let mut forged = proof.clone();
    forged.lemma[0] = DataRoot { bytes: [0u8; 32] };
    assert!(!forged.validate());
}

#[test]
fn first_batch_has_a_zero_leaf() {
    let mut store = new_store();
    store.append_entries(ChunkArray { data: sectors(0, 16), start_index: 0 }).unwrap();
    let proof = store.gen_proof_in_batch(0, 0).unwrap();
    assert!(proof.validate());
    assert_eq!(proof.lemma[0].bytes, [0u8; 32]);
    let mut other = new_store();
    let mut data = sectors(0, 16);
    data[0] = 0xff;
    let roots = other.append_entries(ChunkArray { data, start_index: 0 }).unwrap();
    assert_eq!(roots[0].1.bytes, proof.lemma[5].bytes);
}

#[test]
fn subtree_lists_are_kept_with_the_batch() {
    let mut store = new_store();
    let list = vec![(0usize, 3usize, DataRoot { bytes: [5u8; 32] })];
    store.insert_subtree_list_for_batch(2, list).unwrap();
    assert_eq!(store.get_num_entries().unwrap(), 16);
    assert!(store.get_entries(32, 33).unwrap().is_none());
    assert_eq!(
        store.load_sealed_data(2).unwrap().unwrap().availabilities,
        vec![false, false, false, false]
    );
    store.append_entries(ChunkArray { data: sectors(0, 2), start_index: 32 }).unwrap();
    assert!(store.get_entries(32, 34).unwrap().is_some());
}

#[test]
fn deleting_batches_drops_their_seals() {
    let mut store = new_store();
    store.append_entries_with(ChunkArray { data: sectors(0, 48), start_index: 0 }, true).unwrap();
    store.delete_batch_list(&[1, 7]).unwrap();
    assert_eq!(store.get_num_entries().unwrap(), 32);
    assert!(store.load_sealed_data(1).unwrap().is_none());
    assert_eq!(
        store.pending_seals(),
        vec![(0, 0), (1, 0), (2, 0), (3, 0), (8, 0), (9, 0), (10, 0), (11, 0)]
    );
}

#[test]
fn pad_data_passes_through() {
    let mut store = new_store();
    assert_eq!(store.get_pad_data(3).unwrap(), None);
    assert_eq!(store.get_pad_data_sync_height().unwrap(), None);
    let pairs = vec![
        PadPair { start_index: 1, data_size: 2 },
        PadPair { start_index: 0x0102030405060708, data_size: u64::MAX },
    ];
    store.put_pad_data(&pairs, 3).unwrap();
    store.put_pad_data_sync_height(77).unwrap();
    assert_eq!(store.get_pad_data(3).unwrap(), Some(pairs));
    assert_eq!(store.get_pad_data(4).unwrap(), None);
    assert_eq!(store.get_pad_data_sync_height().unwrap(), Some(77));
    store.put_pad_data_sync_height(78).unwrap();
    assert_eq!(store.get_pad_data_sync_height().unwrap(), Some(78));
    assert_eq!(store.get_num_entries().unwrap(), 0);
}

#[test]
fn default_configuration() {
    let config = FlowConfig::default();
    assert_eq!(config.batch_size, 16);
    assert_eq!(config.merkle_node_cache_capacity, 32 * 1024 * 1024);
    assert_eq!(config.shard_config, ShardConfig { num_shard: 1, shard_id: 0 });
    assert!(config.is_valid());
    let mut other = config;
    other.batch_size = 8;
    assert!(!other.is_valid());
    let mut other = config;
    other.shard_config = ShardConfig { num_shard: 3, shard_id: 0 };
    assert!(!other.is_valid());
}

#[test]
fn pending_units_stay_sealable_through_a_long_run() {
    let mut store = new_store();
    store.pull_seal_chunk(0).unwrap();
    let mut seed: u64 = 12345;
    let mut next = move |bound: u64| {
        seed = seed.wrapping_mul(6364136223846793005).wrapping_add(1442695040888963407);
        (seed >> 33) % bound
    };
    for round in 0..200u64 {
        match next(5) {
            0 | 1 => {
                let start = next(60);
                let count = 1 + next(20) as usize;
                let data = sectors(round as u8, count);
                let roots = store.append_entries(ChunkArray { data: data.clone(), start_index: start }).unwrap();
                for pair in roots.windows(2) {
                    assert!(pair[0].0 < pair[1].0);
                }
                let from = if start == 0 { 1 } else { start };
                if from < start + count as u64 {
                    let back = store.get_entries(start, start + count as u64).unwrap().unwrap();
                    assert_eq!(back.data, data[((from - start) as usize) * 256..].to_vec());
                }
            },
            2 => {
                let cut = next(70);
                let before = store.current_seal_version();
                store.truncate(cut).unwrap();
                assert_eq!(store.current_seal_version(), before + 1);
                assert!(store.pending_seals().iter().all(|(k, v)| *k < cut / 4 && *v <= before + 1));
                assert!(store.get_entries(cut, cut + 1).unwrap().is_none());
            },
            3 => {
                if let Some(tasks) = store.pull_seal_chunk(1 + next(30) as usize).unwrap() {
                    assert!(!tasks.is_empty() && tasks.len() <= 4);
                    for pair in tasks.windows(2) {
                        assert!(pair[0].seal_index < pair[1].seal_index);
                        assert_eq!(pair[0].seal_index / 4, pair[1].seal_index / 4);
                    }
                    let answers: Vec<SealAnswer> = tasks
                        .iter()
                        .filter(|t| t.seal_index % 2 == round % 2)
                        .map(|t| answer(t.seal_index, t.version, round as u8))
                        .collect();
                    let sealed: Vec<u64> = answers.iter().map(|a| a.seal_index).collect();
                    store.submit_seal_result(answers).unwrap();
                    assert!(store.pending_seals().iter().all(|(k, _)| !sealed.contains(k)));
                    for k in sealed {
                        let loaded = store.load_sealed_data(k / 4).unwrap().unwrap();
                        assert!(loaded.availabilities[(k % 4) as usize]);
                        assert_eq!(loaded.loaded_chunk[(k % 4) as usize], vec![round as u8; 1024]);
                    }
                }
            },
            _ => {
                store.delete_batch_list(&[next(5)]).unwrap();
            },
        }
        let pending = store.pending_seals();
        for pair in pending.windows(2) {
            assert!(pair[0].0 < pair[1].0);
        }
        for (k, v) in pending.iter() {
            assert!(*v <= store.current_seal_version());
            let loaded = store.load_sealed_data(k / 4).unwrap().unwrap();
            assert!(!loaded.availabilities[(k % 4) as usize]);
            assert!(store.get_entries(k * 4 + 1, k * 4 + 4).unwrap().is_some());
        }
    }
}
