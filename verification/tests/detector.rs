use kernel_core::sync::deadlock::ResourceAllocation;

fn two_threads_two_mutexes() -> ResourceAllocation {
    let mut ra = ResourceAllocation::new();
    ra.addthread(0);
    ra.addthread(1);
    ra.add_res_type(1);
    ra.add_res_type(1);
    ra
}

#[test]
fn new_detector_is_empty_and_safe() {
    let mut ra = ResourceAllocation::new();
    assert_eq!(ra.resources_types_num(), 0);
    assert_eq!(ra.find(0), -1);
    ra.addthread(7);
    ra.add_res_type(3);
    assert_eq!(ra.resources_types_num(), 1);
    assert_eq!(ra.find(7), 0);
    assert_eq!(ra.find(8), -1);
    assert_eq!(ra.available, vec![3]);
    assert_eq!(ra.maximum, vec![3]);
    assert_eq!(ra.allocation, vec![vec![0]]);
    assert_eq!(ra.need, vec![vec![0]]);
    assert!(!ra.is_deadlocked(0));
    assert_eq!(ra.finish, vec![true]);
}

#[test]
fn rows_and_columns_grow_in_either_order() {
    let mut ra = ResourceAllocation::new();
    ra.add_res_type(2);
    ra.addthread(5);
    ra.add_res_type(1);
    ra.addthread(9);
    assert_eq!(ra.allocation, vec![vec![0, 0], vec![0, 0]]);
    assert_eq!(ra.need, vec![vec![0, 0], vec![0, 0]]);
    assert_eq!(ra.tid_list, vec![5, 9]);
    assert_eq!(ra.find(9), 1);
}

#[test]
fn grant_moves_an_instance_and_clears_the_wait() {
    let mut ra = two_threads_two_mutexes();
    ra.request(1, 0);
    assert_eq!(ra.need, vec![vec![0, 0], vec![1, 0]]);
    ra.allocate(1, 0);
    assert_eq!(ra.available, vec![0, 1]);
    assert_eq!(ra.allocation, vec![vec![0, 0], vec![1, 0]]);
    assert_eq!(ra.need, vec![vec![0, 0], vec![0, 0]]);
    ra.dealloc(1, 0);
    assert_eq!(ra.available, vec![1, 1]);
    assert_eq!(ra.allocation, vec![vec![0, 0], vec![0, 0]]);
}

#[test]
fn withdraw_takes_a_request_back() {
    let mut ra = two_threads_two_mutexes();
    ra.request(0, 1);
    ra.withdraw(0, 1);
    assert_eq!(ra.need, vec![vec![0, 0], vec![0, 0]]);
}

#[test]
fn release_gives_back_everything_a_thread_holds() {
    let mut ra = ResourceAllocation::new();
    ra.addthread(0);
    ra.add_res_type(3);
    ra.add_res_type(1);
    ra.allocate(0, 0);
    ra.allocate(0, 0);
    ra.allocate(0, 1);
    assert_eq!(ra.available, vec![1, 0]);
    ra.release(0);
    assert_eq!(ra.available, vec![3, 1]);
    assert_eq!(ra.allocation, vec![vec![0, 0]]);
    assert_eq!(ra.maximum, vec![3, 1]);
}

#[test]
fn renew_maximum_adds_a_free_instance() {
    let mut ra = ResourceAllocation::new();
    ra.addthread(0);
    ra.add_res_type(0);
    ra.renew_maximum(0);
    assert_eq!(ra.available, vec![1]);
    assert_eq!(ra.maximum, vec![1]);
}

#[test]
fn crossed_requests_are_not_safe() {
    // thread 0 holds mutex 0 and asks for mutex 1; thread 1 holds mutex 1
    let mut ra = two_threads_two_mutexes();
    ra.allocate(0, 0);
    ra.allocate(1, 1);
    ra.request(0, 1);
    // thread 1 can still finish and give mutex 1 back
    assert!(!ra.is_deadlocked(1));
    assert_eq!(ra.finish, vec![true, true]);
    // once thread 1 asks for mutex 0, nobody can finish
    ra.request(1, 0);
    assert!(ra.is_deadlocked(0));
    assert_eq!(ra.finish, vec![false, false]);
    // the check changes nothing but its marks
    assert_eq!(ra.available, vec![0, 0]);
    assert_eq!(ra.need, vec![vec![0, 1], vec![1, 0]]);
    assert_eq!(ra.allocation, vec![vec![1, 0], vec![0, 1]]);
}

#[test]
fn safe_order_may_need_several_rounds() {
    // thread 0 can finish only after thread 2, which can finish only after
    // thread 1
    let mut ra = ResourceAllocation::new();
    ra.addthread(0);
    ra.addthread(1);
    ra.addthread(2);
    ra.add_res_type(3);
    ra.allocate(1, 0);
    ra.allocate(2, 0);
    ra.allocate(2, 0);
    ra.request(0, 0);
    ra.request(0, 0);
    ra.request(0, 0);
    ra.request(2, 0);
    assert_eq!(ra.available, vec![0]);
    assert!(!ra.is_deadlocked(0));
    ra.request(1, 0);
    assert!(ra.is_deadlocked(0));
}

#[test]
fn grant_in_a_safe_state_stays_safe() {
    let mut ra = two_threads_two_mutexes();
    ra.allocate(1, 1);
    ra.request(0, 0);
    assert!(!ra.is_deadlocked(0));
    ra.allocate(0, 0);
    assert!(!ra.is_deadlocked(0));
}

#[test]
fn guarded_bookkeeping_never_fails() {
    let mut ra = ResourceAllocation::new();
    ra.addthread(0);
    ra.add_res_type(0);
    // nothing free: one more instance is taken note of, then granted
    ra.note_grant(0, 0);
    assert_eq!((ra.available[0], ra.maximum[0], ra.allocation[0][0]), (0, 1, 1));
    ra.note_release(0, 0);
    assert_eq!((ra.available[0], ra.maximum[0], ra.allocation[0][0]), (1, 1, 0));
    // nothing held: one more instance is taken note of instead
    ra.note_release(0, 0);
    assert_eq!((ra.available[0], ra.maximum[0], ra.allocation[0][0]), (2, 2, 0));
    ra.note_withdraw(0, 0);
    assert_eq!(ra.need[0][0], 0);
    ra.note_request(0, 0);
    assert_eq!(ra.need[0][0], 1);
}
