use flow_store::pending::{contains_u64, PendingSet};
use flow_store::seal::{
    worker_available_after, PullClock, SealTaskManager, SEAL_TASK_PULL_TIMEOUT_SECONDS,
};

#[test]
fn the_pending_set_is_kept_in_order() {
    let mut set = PendingSet::new();
    assert_eq!(set.len(), 0);
    assert_eq!(set.first(), None);
    assert_eq!(set.get(3), None);
    set.insert(7, 1);
    set.insert(3, 1);
    set.insert(9, 2);
    set.insert(5, 0);
    assert_eq!(set.to_vec(), vec![(3, 1), (5, 0), (7, 1), (9, 2)]);
    assert_eq!(set.len(), 4);
    assert_eq!(set.nth(2), (7, 1));
    assert_eq!(set.first(), Some((3, 1)));
    assert_eq!(set.get(9), Some(2));
    assert_eq!(set.get(4), None);
    set.insert(7, 5);
    assert_eq!(set.to_vec(), vec![(3, 1), (5, 0), (7, 5), (9, 2)]);
    set.remove(5);
    set.remove(6);
    assert_eq!(set.to_vec(), vec![(3, 1), (7, 5), (9, 2)]);
    set.insert(u64::MAX, 0);
    set.insert(0, 0);
    assert_eq!(set.first(), Some((0, 0)));
    assert_eq!(set.nth(4), (u64::MAX, 0));
}

#[test]
fn splitting_off_the_tail() {
    let mut set = PendingSet::new();
    for k in [2u64, 4, 6, 8] {
        set.insert(k, k + 1);
    }
    set.split_off(5);
    assert_eq!(set.to_vec(), vec![(2, 3), (4, 5)]);
    set.split_off(4);
    assert_eq!(set.to_vec(), vec![(2, 3)]);
    set.split_off(100);
    assert_eq!(set.to_vec(), vec![(2, 3)]);
    set.split_off(0);
    assert_eq!(set.to_vec(), vec![]);
    set.split_off(0);
    assert_eq!(set.len(), 0);
}

#[test]
fn removing_whole_batches() {
    let mut set = PendingSet::new();
    for k in 0..12u64 {
        set.insert(k, 0);
    }
    set.remove_batches(&[1]);
    assert_eq!(set.to_vec(), vec![(0, 0), (1, 0), (2, 0), (3, 0), (8, 0), (9, 0), (10, 0), (11, 0)]);
    set.remove_batches(&[5, 0, 0]);
    assert_eq!(set.to_vec(), vec![(8, 0), (9, 0), (10, 0), (11, 0)]);
    set.remove_batches(&[]);
    assert_eq!(set.len(), 4);
    set.remove_batches(&[2]);
    assert_eq!(set.len(), 0);
    assert!(contains_u64(&[1, 2, 3], 2));
    assert!(!contains_u64(&[1, 2, 3], 4));
    assert!(!contains_u64(&[], 0));
}

#[test]
fn the_manager_counts_generations() {
    let mut manager = SealTaskManager::default();
    assert_eq!(manager.to_seal_version(), 0);
    assert_eq!(manager.to_seal_set.len(), 0);
    assert_eq!(manager.inc_seal_version(), 1);
    assert_eq!(manager.inc_seal_version(), 2);
    assert_eq!(manager.to_seal_version(), 2);
    manager.to_seal_set.insert(4, 2);
    manager.to_seal_set.insert(9, 2);
    manager.delete_batch_list(&[1]);
    assert_eq!(manager.to_seal_set.to_vec(), vec![(9, 2)]);
}

#[test]
fn sealers_count_as_available_after_they_asked() {
    assert_eq!(SEAL_TASK_PULL_TIMEOUT_SECONDS, 300);
    let mut manager = SealTaskManager::default();
    assert!(!manager.seal_worker_available());
    manager.update_pull_time();
    assert!(manager.seal_worker_available());
    let mut impatient = SealTaskManager::new(0);
    impatient.update_pull_time();
    assert!(!impatient.seal_worker_available());
    let mut clock = PullClock::new(10);
    assert!(!clock.seal_worker_available());
    clock.update_pull_time();
    assert!(clock.seal_worker_available());
    assert!(worker_available_after(299, 300));
    assert!(!worker_available_after(300, 300));
    assert!(!worker_available_after(0, 0));
}
