use flow_store::entry_batch::EntryBatch;
use flow_store::error::Error;
use flow_store::merkle::{hash_pair, MerkleTree};
use flow_store::types::{DataRoot, FlowProof, SealAnswer};

fn filled(first: u8, count: usize) -> Vec<u8> {
    let mut data = Vec::with_capacity(count * 256);
    for s in 0..count {
        data.extend_from_slice(&[first.wrapping_add(s as u8); 256]);
    }
    data
}

fn seal(seal_index: u64, bytes: Vec<u8>) -> SealAnswer {
    SealAnswer {
        seal_index,
        version: 0,
        sealed_data: bytes,
        miner_id: DataRoot::zero(),
        seal_context: DataRoot::zero(),
        context_end_seal: 0,
    }
}

fn hex(h: &DataRoot) -> String {
    let mut s = String::new();
    for b in h.bytes.iter() {
        s.push_str(&format!("{:02x}", b));
    }
    s
}

#[test]
fn pair_hash_is_keccak_256() {
    let zero = DataRoot::zero();
    assert_eq!(
        hex(&hash_pair(&zero, &zero)),
        "ad3228b676f7d3cd4284a5443f17f1962b36e491b30a40b2405849e597ba5fb5"
    );
    let one = DataRoot { bytes: [1u8; 32] };
    assert_ne!(hash_pair(&zero, &one).bytes, hash_pair(&one, &zero).bytes);
    assert_ne!(hash_pair(&zero, &one).bytes, one.bytes);
}

#[test]
fn tree_over_four_leaves() {
    let leaves: Vec<DataRoot> = (1..=4u8).map(|b| DataRoot { bytes: [b; 32] }).collect();
    let tree = MerkleTree::build(leaves.clone());
    assert_eq!(tree.num_leaves(), 4);
    let left = hash_pair(&leaves[0], &leaves[1]);
    let right = hash_pair(&leaves[2], &leaves[3]);
    let root = hash_pair(&left, &right);
    assert_eq!(tree.root().bytes, root.bytes);
    let proof = tree.gen_proof(2).unwrap();
    assert_eq!(proof.path, vec![true, false]);
    assert_eq!(proof.lemma.len(), 4);
    assert_eq!(proof.lemma[0].bytes, leaves[2].bytes);
    assert_eq!(proof.lemma[1].bytes, leaves[3].bytes);
    assert_eq!(proof.lemma[2].bytes, left.bytes);
    assert_eq!(proof.lemma[3].bytes, root.bytes);
    assert!(proof.validate());
    assert!(matches!(tree.gen_proof(4), Err(Error::InvalidArgument)));
    let single = MerkleTree::build(vec![leaves[0]]);
    assert_eq!(single.root().bytes, leaves[0].bytes);
    let proof = single.gen_proof(0).unwrap();
    assert_eq!(proof.lemma.len(), 2);
    assert!(proof.path.is_empty());
    assert!(proof.validate());
}

#[test]
fn proofs_that_do_not_hold_together() {
    let leaf = DataRoot { bytes: [1u8; 32] };
    assert!(!FlowProof { lemma: vec![], path: vec![] }.validate());
    assert!(!FlowProof { lemma: vec![leaf], path: vec![] }.validate());
    assert!(FlowProof { lemma: vec![leaf, leaf], path: vec![] }.validate());
    assert!(!FlowProof { lemma: vec![leaf, leaf], path: vec![true] }.validate());
    assert!(!FlowProof { lemma: vec![leaf, leaf, leaf], path: vec![true] }.validate());
    let parent = hash_pair(&leaf, &DataRoot::zero());
    assert!(FlowProof { lemma: vec![leaf, DataRoot::zero(), parent], path: vec![true] }.validate());
    assert!(!FlowProof { lemma: vec![leaf, DataRoot::zero(), parent], path: vec![false] }.validate());
}

#[test]
fn a_new_batch_is_empty() {
    let batch = EntryBatch::new();
    assert!(batch.is_empty());
    assert!(!batch.has_range(0, 1));
    assert!(batch.has_range(3, 0));
    assert!(!batch.has_range(17, 0));
    assert!(batch.get_unsealed_data(0, 1).is_none());
    assert_eq!(batch.get_unsealed_data(5, 0), Some(vec![]));
    assert!(batch.get_sealed_data(0).is_none());
    assert!(batch.get_non_sealed_data(0).is_none());
    assert!(batch.build_root(false).is_none());
    assert!(batch.into_data_list(0).is_empty());
    assert!(batch.get_subtree_list().is_empty());
    assert_eq!(batch.to_bytes(), vec![0u8; 8212]);
}

#[test]
fn writing_into_a_batch() {
    let mut batch = EntryBatch::new();
    assert_eq!(batch.insert_data(2, filled(10, 3)), Ok(vec![]));
    assert!(!batch.is_empty());
    assert_eq!(batch.get_unsealed_data(2, 3), Some(filled(10, 3)));
    assert_eq!(batch.get_unsealed_data(3, 1), Some(filled(11, 1)));
    assert!(batch.get_unsealed_data(1, 2).is_none());
    assert!(batch.get_unsealed_data(2, 4).is_none());
    assert!(!batch.unit_complete(0));
    assert_eq!(batch.insert_data(0, filled(20, 2)), Ok(vec![0]));
    assert!(batch.unit_complete(0));
    assert!(!batch.unit_complete(1));
    assert!(!batch.unit_complete(4));
    assert_eq!(batch.get_non_sealed_data(0), Some([filled(20, 2), filled(10, 2)].concat()));
    assert_eq!(batch.insert_data(5, filled(30, 11)), Ok(vec![1, 2, 3]));
    assert_eq!(batch.insert_data(15, filled(40, 1)), Ok(vec![3]));
    assert_eq!(batch.insert_data(3, Vec::new()), Ok(vec![]));
    assert!(batch.build_root(true).is_some());
}

#[test]
fn writes_that_a_batch_refuses() {
    let mut batch = EntryBatch::new();
    assert_eq!(batch.insert_data(0, vec![1u8; 255]), Err(Error::InvalidArgument));
    assert_eq!(batch.insert_data(15, filled(0, 2)), Err(Error::InvalidArgument));
    assert_eq!(batch.insert_data(17, Vec::new()), Err(Error::InvalidArgument));
    assert_eq!(batch.insert_data(0, filled(0, 17)), Err(Error::InvalidArgument));
    assert!(batch.is_empty());
    assert_eq!(batch.insert_data(16, Vec::new()), Ok(vec![]));
    assert_eq!(batch.insert_data(0, filled(0, 16)), Ok(vec![0, 1, 2, 3]));
}

#[test]
fn sealing_a_unit() {
    let mut batch = EntryBatch::new();
    batch.insert_data(0, filled(1, 8)).unwrap();
    assert_eq!(batch.submit_seal_result(&seal(5, vec![9u8; 1024])), Ok(()));
    assert_eq!(batch.get_sealed_data(1), Some(vec![9u8; 1024]));
    assert!(batch.get_sealed_data(0).is_none());
    assert!(batch.get_sealed_data(4).is_none());
    assert!(batch.get_non_sealed_data(1).is_none());
    assert_eq!(batch.get_non_sealed_data(0), Some(filled(1, 4)));
    assert_eq!(batch.get_unsealed_data(4, 4), Some(filled(5, 4)));
    assert_eq!(batch.submit_seal_result(&seal(2, vec![9u8; 1024])), Err(Error::InvalidArgument));
    assert_eq!(batch.submit_seal_result(&seal(0, vec![9u8; 1000])), Err(Error::InvalidArgument));
    assert!(batch.get_sealed_data(0).is_none());
    assert_eq!(batch.insert_data(7, filled(50, 1)), Ok(vec![1]));
    assert!(batch.get_sealed_data(1).is_none());
    assert_eq!(batch.get_non_sealed_data(1), Some([filled(5, 3), filled(50, 1)].concat()));
}

#[test]
fn cutting_a_batch() {
    let mut batch = EntryBatch::new();
    batch.insert_data(0, filled(1, 16)).unwrap();
    batch.submit_seal_result(&seal(0, vec![7u8; 1024])).unwrap();
    batch.submit_seal_result(&seal(1, vec![8u8; 1024])).unwrap();
    batch.submit_seal_result(&seal(3, vec![9u8; 1024])).unwrap();
    batch.set_subtree_list(vec![
        (0, 2, DataRoot { bytes: [1u8; 32] }),
        (8, 3, DataRoot { bytes: [2u8; 32] }),
        (5, 1, DataRoot { bytes: [3u8; 32] }),
    ]);
    assert_eq!(batch.truncate(6), vec![0]);
    assert_eq!(batch.get_unsealed_data(0, 6), Some(filled(1, 6)));
    assert!(batch.get_unsealed_data(0, 7).is_none());
    assert!(batch.get_sealed_data(0).is_none());
    assert!(batch.get_sealed_data(1).is_none());
    assert!(batch.get_sealed_data(3).is_none());
    assert_eq!(batch.get_non_sealed_data(0), Some(filled(1, 4)));
    assert!(batch.get_non_sealed_data(1).is_none());
    let kept: Vec<(usize, usize)> = batch.get_subtree_list().iter().map(|t| (t.0, t.1)).collect();
    assert_eq!(kept, vec![(0, 2), (5, 1)]);
    let bytes = batch.to_bytes();
    assert_eq!(batch.truncate(6), Vec::<u16>::new());
    assert_eq!(batch.to_bytes(), bytes);
    assert_eq!(batch.truncate(1), Vec::<u16>::new());
    assert_eq!(batch.get_unsealed_data(0, 1), Some(filled(1, 1)));
    assert!(!batch.is_empty());
}

#[test]
fn runs_of_written_sectors() {
    let mut batch = EntryBatch::new();
    batch.insert_data(0, filled(1, 2)).unwrap();
    batch.insert_data(3, filled(4, 1)).unwrap();
    batch.insert_data(4, filled(5, 2)).unwrap();
    batch.insert_data(15, filled(16, 1)).unwrap();
    let list = batch.into_data_list(32);
    assert_eq!(list.len(), 3);
    assert_eq!(list[0].start_index, 32);
    assert_eq!(list[0].data, filled(1, 2));
    assert_eq!(list[1].start_index, 35);
    assert_eq!(list[1].data, filled(4, 3));
    assert_eq!(list[2].start_index, 47);
    assert_eq!(list[2].data, filled(16, 1));
    let mut whole = EntryBatch::new();
    whole.insert_data(0, filled(0, 16)).unwrap();
    let list = whole.into_data_list(0);
    assert_eq!(list.len(), 1);
    assert_eq!(list[0].start_index, 0);
    assert_eq!(list[0].data, filled(0, 16));
}

#[test]
fn batches_round_trip_through_bytes() {
    let mut batch = EntryBatch::new();
    batch.insert_data(4, filled(1, 8)).unwrap();
    batch.submit_seal_result(&seal(2, vec![6u8; 1024])).unwrap();
    batch.set_subtree_list(vec![(4, 3, DataRoot { bytes: [0xcd; 32] }), (300, 1, DataRoot::zero())]);
    let bytes = batch.to_bytes();
    assert_eq!(bytes.len(), 8212 + 2 * 48);
    assert_eq!(bytes[0..16].to_vec(), vec![0, 0, 0, 0, 1, 1, 1, 1, 1, 1, 1, 1, 0, 0, 0, 0]);
    assert_eq!(bytes[16..20].to_vec(), vec![0, 0, 1, 0]);
    assert_eq!(bytes[20 + 4 * 256..20 + 12 * 256].to_vec(), filled(1, 8));
    assert_eq!(bytes[20 + 4096 + 2048..20 + 4096 + 3072].to_vec(), vec![6u8; 1024]);
    assert_eq!(bytes[8212..8228].to_vec(), vec![0, 0, 0, 0, 0, 0, 0, 4, 0, 0, 0, 0, 0, 0, 0, 3]);
    assert_eq!(bytes[8228..8260].to_vec(), vec![0xcd; 32]);
    assert_eq!(bytes[8260..8268].to_vec(), vec![0, 0, 0, 0, 0, 0, 1, 44]);
    let back = EntryBatch::from_bytes(&bytes).unwrap();
    assert_eq!(back.to_bytes(), bytes);
    assert_eq!(back.get_unsealed_data(4, 8), Some(filled(1, 8)));
    assert_eq!(back.get_sealed_data(2), Some(vec![6u8; 1024]));
    assert_eq!(back.get_subtree_list().len(), 2);
    assert_eq!(back.get_subtree_list()[1].0, 300);
}

#[test]
fn bytes_that_are_no_batch() {
    assert!(matches!(EntryBatch::from_bytes(&[]), Err(Error::Codec)));
    assert!(matches!(EntryBatch::from_bytes(&vec![0u8; 8211]), Err(Error::Codec)));
    assert!(matches!(EntryBatch::from_bytes(&vec![0u8; 8213]), Err(Error::Codec)));
    assert!(matches!(EntryBatch::from_bytes(&vec![0u8; 8212 + 47]), Err(Error::Codec)));
    assert!(EntryBatch::from_bytes(&vec![0u8; 8212]).is_ok());
    assert!(EntryBatch::from_bytes(&vec![0u8; 8212 + 48]).is_ok());
    let mut bytes = vec![0u8; 8212];
    bytes[3] = 2;
    assert!(matches!(EntryBatch::from_bytes(&bytes), Err(Error::Codec)));
    let mut bytes = vec![0u8; 8212];
    bytes[19] = 255;
    assert!(matches!(EntryBatch::from_bytes(&bytes), Err(Error::Codec)));
    let mut bytes = vec![0u8; 8212];
    bytes[20] = 255;
    assert!(EntryBatch::from_bytes(&bytes).is_ok());
    let mut bytes = vec![0u8; 8212];
    bytes[17] = 1;
    assert!(matches!(EntryBatch::from_bytes(&bytes), Err(Error::Codec)));
    for s in 4..7 {
        bytes[s] = 1;
    }
    assert!(matches!(EntryBatch::from_bytes(&bytes), Err(Error::Codec)));
    bytes[7] = 1;
    assert!(EntryBatch::from_bytes(&bytes).is_ok());
}

#[test]
fn roots_of_batches() {
    let mut batch = EntryBatch::new();
    batch.insert_data(0, filled(1, 15)).unwrap();
    assert!(batch.build_root(false).is_none());
    assert!(batch.to_merkle_tree(false).is_none());
    batch.insert_data(15, filled(16, 1)).unwrap();
    let plain = batch.build_root(false).unwrap();
    let first = batch.build_root(true).unwrap();
    assert_ne!(plain.bytes, first.bytes);
    let tree = batch.to_merkle_tree(false).unwrap();
    assert_eq!(tree.num_leaves(), 16);
    assert_eq!(tree.root().bytes, plain.bytes);
    let proof = tree.gen_proof(9).unwrap();
    assert_eq!(proof.path, vec![false, true, true, false]);
    assert!(proof.validate());
    let mut other = EntryBatch::new();
    other.insert_data(0, filled(1, 16)).unwrap();
    assert_eq!(other.build_root(false).unwrap().bytes, plain.bytes);
    other.insert_data(9, filled(99, 1)).unwrap();
    assert_ne!(other.build_root(false).unwrap().bytes, plain.bytes);
}
