use arena_allocators::spin_lock::Guard;
use arena_allocators::SpinLock;

#[test]
fn guard_reads_and_changes_the_value() {
    let mut lock = SpinLock::new(5u64);
    let mut guard: Guard<'_, u64> = lock.lock();
    assert_eq!(*guard.get(), 5);
    *guard.get_mut() = 7;
    assert_eq!(*guard.get(), 7);
    SpinLock::unlock(guard);

    let guard = lock.lock();
    assert_eq!(*guard.get(), 7);
    SpinLock::unlock(guard);
}

#[test]
fn lock_can_be_taken_again_after_unlock() {
    let mut lock = SpinLock::new(vec![1u8, 2, 3]);
    for k in 0..10u8 {
        let mut guard = lock.lock();
        guard.get_mut().push(k);
        SpinLock::unlock(guard);
    }
    let guard = lock.lock();
    assert_eq!(guard.get().len(), 13);
    SpinLock::unlock(guard);
}
