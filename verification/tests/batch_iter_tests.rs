use flow_store::batch_iter::{batch_iter, batch_iter_sharded};
use flow_store::shard::{check_power_of_two, ShardConfig};

#[test]
fn pieces_of_a_range() {
    assert_eq!(batch_iter(5, 40, 16), vec![(5, 16), (16, 32), (32, 40)]);
    assert_eq!(batch_iter(0, 16, 16), vec![(0, 16)]);
    assert_eq!(batch_iter(0, 17, 16), vec![(0, 16), (16, 17)]);
    assert_eq!(batch_iter(15, 16, 16), vec![(15, 16)]);
    assert_eq!(batch_iter(3, 5, 1), vec![(3, 4), (4, 5)]);
}

#[test]
fn pieces_of_an_empty_range() {
    assert_eq!(batch_iter(0, 0, 16), vec![]);
    assert_eq!(batch_iter(16, 16, 16), vec![]);
    assert_eq!(batch_iter(20, 20, 16), vec![(20, 20)]);
    assert_eq!(batch_iter(40, 5, 16), vec![]);
    assert_eq!(batch_iter(20, 17, 16), vec![(20, 17)]);
}

#[test]
fn pieces_at_the_end_of_the_index_range() {
    assert_eq!(batch_iter(u64::MAX - 20, u64::MAX, 16), vec![
        (u64::MAX - 20, u64::MAX - 15),
        (u64::MAX - 15, u64::MAX)
    ]);
}

#[test]
fn pieces_cover_the_range_without_overlap() {
    for start in 0..40u64 {
        for end in start..60u64 {
            for size in [1usize, 3, 16, 100] {
                let list = batch_iter(start, end, size);
                let mut at = start;
                for (lo, hi) in list.iter() {
                    assert_eq!(*lo, at);
                    assert!(lo <= hi);
                    if start < end {
                        assert!(lo < hi);
                        assert_eq!(lo / size as u64, (hi - 1) / size as u64);
                    }
                    at = *hi;
                }
                assert_eq!(at, end);
            }
        }
    }
}

#[test]
fn sharded_pieces() {
    let odd = ShardConfig { num_shard: 2, shard_id: 1 };
    assert_eq!(batch_iter_sharded(0, 64, 16, odd), vec![(16, 32), (48, 64)]);
    let even = ShardConfig { num_shard: 2, shard_id: 0 };
    assert_eq!(batch_iter_sharded(5, 40, 16, even), vec![(5, 16), (32, 40)]);
    let all = ShardConfig::default();
    assert_eq!(batch_iter_sharded(5, 40, 16, all), batch_iter(5, 40, 16));
}

#[test]
fn shard_configurations() {
    assert_eq!(ShardConfig::default(), ShardConfig { num_shard: 1, shard_id: 0 });
    assert_eq!(ShardConfig::new(4, 3), Ok(ShardConfig { num_shard: 4, shard_id: 3 }));
    assert_eq!(ShardConfig::new(4, 4), Err(flow_store::error::Error::InvalidArgument));
    assert_eq!(ShardConfig::new(6, 1), Err(flow_store::error::Error::InvalidArgument));
    assert_eq!(ShardConfig::new(0, 0), Err(flow_store::error::Error::InvalidArgument));
    let shard = ShardConfig::new(4, 3).unwrap();
    assert!(shard.in_range(3));
    assert!(shard.in_range(7));
    assert!(!shard.in_range(4));
    assert!(ShardConfig::default().in_range(u64::MAX));
    assert!(check_power_of_two(1));
    assert!(check_power_of_two(1 << 31));
    assert!(!check_power_of_two(0));
    assert!(!check_power_of_two(12));
}
