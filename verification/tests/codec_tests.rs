use flow_store::codec::{
    decode_batch_index, decode_pad_pairs, decode_u64, encode_mpt_node_key, encode_pad_pairs,
    encode_u64, layer_size_key, try_decode_usize, BatchRoot,
};
use flow_store::error::Error;
use flow_store::types::{bytes_to_entries, ChunkArray, DataRoot, PadPair};

#[test]
fn numbers_are_big_endian() {
    assert_eq!(encode_u64(0x0102030405060708), vec![1, 2, 3, 4, 5, 6, 7, 8]);
    assert_eq!(encode_u64(0), vec![0; 8]);
    assert_eq!(encode_u64(u64::MAX), vec![255; 8]);
    assert_eq!(encode_u64(256), 256u64.to_be_bytes().to_vec());
    assert_eq!(decode_u64(&[1, 2, 3, 4, 5, 6, 7, 8]), Some(0x0102030405060708));
    assert_eq!(decode_u64(&[255; 8]), Some(u64::MAX));
    assert_eq!(decode_u64(&[1, 2, 3]), None);
    assert_eq!(decode_u64(&[0; 9]), None);
    assert_eq!(decode_u64(&[]), None);
}

#[test]
fn keys_sort_as_their_numbers() {
    let numbers = [0u64, 1, 255, 256, 65535, 65536, 1 << 40, u64::MAX - 1, u64::MAX];
    for a in numbers {
        for b in numbers {
            assert_eq!(encode_u64(a) < encode_u64(b), a < b);
        }
    }
}

#[test]
fn batch_indices_decode() {
    assert_eq!(try_decode_usize(&[0, 0, 0, 0, 0, 0, 1, 0]), Ok(256));
    assert_eq!(decode_batch_index(&[0, 0, 0, 0, 0, 0, 0, 9]), Ok(9));
    assert_eq!(try_decode_usize(&[0, 0, 1, 0]), Err(Error::Codec));
    assert_eq!(decode_batch_index(&[]), Err(Error::Codec));
    assert_eq!(decode_batch_index(&[0; 16]), Err(Error::Codec));
}

#[test]
fn merkle_node_keys() {
    assert_eq!(encode_mpt_node_key(1, 2), vec![0, 0, 0, 0, 0, 0, 0, 1, 0, 0, 0, 0, 0, 0, 0, 2]);
    let mut expected = b"layer_size".to_vec();
    expected.extend_from_slice(&[0, 0, 0, 0, 0, 0, 0, 3]);
    assert_eq!(layer_size_key(3), expected);
    assert_eq!(layer_size_key(3).len(), 18);
    assert_ne!(layer_size_key(0), encode_mpt_node_key(0, 0));
}

#[test]
fn pad_pairs_round_trip() {
    let pairs = vec![PadPair { start_index: 1, data_size: 2 }, PadPair { start_index: 3, data_size: 256 }];
    let bytes = encode_pad_pairs(&pairs);
    assert_eq!(bytes, vec![
        0, 0, 0, 0, 0, 0, 0, 1, 0, 0, 0, 0, 0, 0, 0, 2, 0, 0, 0, 0, 0, 0, 0, 3, 0, 0, 0, 0, 0, 0, 1, 0
    ]);
    assert_eq!(decode_pad_pairs(&bytes), Ok(pairs));
    assert_eq!(encode_pad_pairs(&[]), Vec::<u8>::new());
    assert_eq!(decode_pad_pairs(&[]), Ok(vec![]));
    assert_eq!(decode_pad_pairs(&[0; 15]), Err(Error::Codec));
    assert_eq!(decode_pad_pairs(&[0; 17]), Err(Error::Codec));
}

#[test]
fn batch_roots_round_trip() {
    let hash = DataRoot { bytes: [0xab; 32] };
    let single = BatchRoot::Single(hash).encode();
    assert_eq!(single.len(), 33);
    assert_eq!(single[0], 0);
    assert_eq!(single[1..].to_vec(), vec![0xab; 32]);
    match BatchRoot::decode(&single) {
        Ok(BatchRoot::Single(h)) => assert_eq!(h.bytes, [0xab; 32]),
        _ => panic!("not a single root"),
    }
    let multiple = BatchRoot::Multiple((5, hash)).encode();
    assert_eq!(multiple.len(), 41);
    assert_eq!(multiple[0..9].to_vec(), vec![1, 0, 0, 0, 0, 0, 0, 0, 5]);
    match BatchRoot::decode(&multiple) {
        Ok(BatchRoot::Multiple((count, h))) => {
            assert_eq!(count, 5);
            assert_eq!(h.bytes, [0xab; 32]);
        },
        _ => panic!("not a multiple root"),
    }
    assert!(matches!(BatchRoot::decode(&[2; 33]), Err(Error::Codec)));
    assert!(matches!(BatchRoot::decode(&[0; 32]), Err(Error::Codec)));
    assert!(matches!(BatchRoot::decode(&[1; 33]), Err(Error::Codec)));
    assert!(matches!(BatchRoot::decode(&[]), Err(Error::Codec)));
}

#[test]
fn error_messages() {
    assert_eq!(Error::InvalidArgument.message(), "invalid argument");
    assert_eq!(Error::NotFound.message(), "not found");
    assert_eq!(Error::Codec.message(), "malformed stored bytes");
    assert_eq!(Error::KvFailure.message(), "key-value store failure");
}

#[test]
fn chunks_and_their_parts() {
    assert_eq!(bytes_to_entries(0), 0);
    assert_eq!(bytes_to_entries(255), 0);
    assert_eq!(bytes_to_entries(256), 1);
    assert_eq!(bytes_to_entries(1024), 4);
    let mut data = Vec::new();
    for s in 0..4u8 {
        data.extend_from_slice(&[s; 256]);
    }
    let chunk = ChunkArray { data, start_index: 10 };
    let part = chunk.sub_array(11, 13).unwrap();
    assert_eq!(part.start_index, 11);
    assert_eq!(part.data.len(), 512);
    assert_eq!(part.data[0], 1);
    assert_eq!(part.data[511], 2);
    assert_eq!(chunk.sub_array(10, 14).unwrap().data, chunk.data);
    assert!(chunk.sub_array(9, 12).is_none());
    assert!(chunk.sub_array(10, 15).is_none());
    assert!(chunk.sub_array(12, 12).is_none());
    assert!(chunk.sub_array(13, 12).is_none());
}

#[test]
fn hashes_compare_by_their_bytes() {
    assert_eq!(DataRoot::zero().bytes, [0u8; 32]);
    let a = DataRoot { bytes: [1u8; 32] };
    let mut other = [1u8; 32];
    assert!(a.same(&DataRoot { bytes: other }));
    other[31] = 2;
    assert!(!a.same(&DataRoot { bytes: other }));
}
