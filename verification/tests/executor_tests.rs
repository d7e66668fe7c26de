use raw_executor::executor::{Executor, NextReady, SpawnError, NEVER_TICKS};

fn run_one(ex: &mut Executor<u32>) -> Option<(usize, u32)> {
    match ex.next_ready() {
        NextReady::Run(i, v) => Some((i, v)),
        _ => None,
    }
}

#[test]
fn singleton_yields_once_then_completes() {
    let mut ex: Executor<u32> = Executor::new();
    let id = ex.add_singleton();
    let t = ex.spawn_singleton(id, || 7u32);
    assert_eq!(ex.spawn(t), Ok(id));
    assert!(ex.is_spawned(id));
    assert!(ex.is_pending(id));

    // first cycle polls it; it stays pending
    ex.drain();
    let (i, v) = run_one(&mut ex).unwrap();
    assert_eq!(i, id);
    assert_eq!(v, 7);
    ex.finish_poll(i, v, false);
    assert!(matches!(ex.next_ready(), NextReady::Empty));
    assert!(ex.is_spawned(id));
    assert!(!ex.is_pending(id));

    // an external wake fires
    ex.wake_by_ref(id);
    assert!(ex.is_pending(id));

    // a spawn attempt before the second cycle fails
    let t2 = ex.spawn_singleton(id, || 9u32);
    assert_eq!(ex.spawn(t2), Err(SpawnError::AlreadySpawned));

    // second cycle polls it to completion
    ex.drain();
    let (i2, v2) = run_one(&mut ex).unwrap();
    assert_eq!(i2, id);
    ex.finish_poll(i2, v2, true);
    assert!(!ex.is_spawned(id));

    // a spawn attempt after completion succeeds
    let t3 = ex.spawn_singleton(id, || 11u32);
    assert_eq!(ex.spawn(t3), Ok(id));
}

#[test]
fn failed_spawn_never_runs_the_constructor() {
    let mut ex: Executor<u32> = Executor::new();
    let id = ex.add_singleton();
    let t = ex.spawn_singleton(id, || 1u32);
    assert_eq!(ex.spawn(t), Ok(id));

    let mut called = false;
    let t2 = ex.spawn_singleton(id, || {
        called = true;
        2u32
    });
    assert!(!called);
    assert_eq!(ex.spawn(t2), Err(SpawnError::AlreadySpawned));
    assert!(!called);
}

#[test]
fn successful_spawn_runs_the_constructor_in_place() {
    let mut ex: Executor<u32> = Executor::new();
    let id = ex.add_singleton();
    let mut called = false;
    let t = ex.spawn_singleton(id, || {
        called = true;
        41u32
    });
    assert!(called);
    assert_eq!(ex.spawn(t), Ok(id));
    ex.drain();
    let (_, v) = run_one(&mut ex).unwrap();
    assert_eq!(v, 41);
}

#[test]
fn pool_exhaustion_and_slot_reuse() {
    let mut ex: Executor<u32> = Executor::new();
    let start = ex.add_pool(2);

    let t1 = ex.spawn_pooled(start, 2, || 1u32);
    let r1 = ex.spawn(t1).unwrap();
    let t2 = ex.spawn_pooled(start, 2, || 2u32);
    let r2 = ex.spawn(t2).unwrap();
    assert_ne!(r1, r2);

    let t3 = ex.spawn_pooled(start, 2, || 3u32);
    assert_eq!(ex.spawn(t3), Err(SpawnError::PoolExhausted));

    // complete the first task, leave the second running
    ex.drain();
    loop {
        match ex.next_ready() {
            NextReady::Empty => break,
            NextReady::Run(i, v) => ex.finish_poll(i, v, i == r1),
            NextReady::Skipped(_) => {}
        }
    }
    assert!(!ex.is_spawned(r1));
    assert!(ex.is_spawned(r2));

    // spawning again reuses the first task's slot
    let t4 = ex.spawn_pooled(start, 2, || 4u32);
    let r4 = ex.spawn(t4).unwrap();
    assert_eq!(r4, r1);
}

#[test]
fn empty_pool_is_exhausted_from_the_start() {
    let mut ex: Executor<u32> = Executor::new();
    let start = ex.add_pool(0);
    let t = ex.spawn_pooled(start, 0, || 1u32);
    assert_eq!(ex.spawn(t), Err(SpawnError::PoolExhausted));
}

#[test]
fn wakes_between_drains_coalesce() {
    let mut ex: Executor<u32> = Executor::new();
    let id = ex.add_singleton();
    let t = ex.spawn_singleton(id, || 0u32);
    assert_eq!(ex.spawn(t), Ok(id));
    ex.drain();
    let (i, v) = run_one(&mut ex).unwrap();
    ex.finish_poll(i, v, false);
    assert!(matches!(ex.next_ready(), NextReady::Empty));

    ex.wake_by_ref(id);
    assert!(ex.is_run_queued(id));
    ex.wake_by_ref(id);
    ex.wake_by_ref(id);

    ex.drain();
    let mut polled = 0;
    loop {
        match ex.next_ready() {
            NextReady::Empty => break,
            NextReady::Run(i2, v2) => {
                assert_eq!(i2, id);
                polled += 1;
                ex.finish_poll(i2, v2, false);
            }
            NextReady::Skipped(_) => {}
        }
    }
    assert_eq!(polled, 1);
}

#[test]
fn allocated_refcount_frees_exactly_at_last_drop() {
    let mut ex: Executor<u32> = Executor::new();
    let t = ex.spawn_allocated(|| 5u32);
    let id = ex.spawn(t).unwrap();
    assert_eq!(ex.strong_count(id), 1);

    // three waker clones
    ex.waker_clone(id);
    ex.waker_clone(id);
    ex.waker_clone(id);
    assert_eq!(ex.strong_count(id), 4);

    // the task completes; the clones still hold the storage
    ex.drain();
    let (i, v) = run_one(&mut ex).unwrap();
    assert_eq!(i, id);
    ex.finish_poll(i, v, true);
    assert!(!ex.is_spawned(id));
    assert_eq!(ex.strong_count(id), 3);
    assert!(!ex.is_freed(id));

    ex.waker_drop(id);
    assert!(!ex.is_freed(id));
    ex.waker_drop(id);
    assert!(!ex.is_freed(id));
    ex.waker_drop(id);
    assert!(ex.is_freed(id));
    assert_eq!(ex.strong_count(id), 0);

    // the released slot is what the next allocated spawn reuses
    let t2 = ex.spawn_allocated(|| 6u32);
    let id2 = ex.spawn(t2).unwrap();
    assert_eq!(id2, id);
    assert!(!ex.is_freed(id2));
}

#[test]
fn wake_by_value_on_completed_task_releases_its_reference() {
    let mut ex: Executor<u32> = Executor::new();
    let t = ex.spawn_allocated(|| 5u32);
    let id = ex.spawn(t).unwrap();
    ex.waker_clone(id);
    assert_eq!(ex.strong_count(id), 2);

    ex.drain();
    let (i, v) = run_one(&mut ex).unwrap();
    ex.finish_poll(i, v, true);
    assert_eq!(ex.strong_count(id), 1);
    assert!(!ex.is_freed(id));

    // waking a completed task is absorbed; the consumed waker was the last
    // reference, so the storage is freed
    ex.wake(id);
    assert!(!ex.is_pending(id));
    assert!(ex.is_freed(id));
}

#[test]
fn completion_after_midpoll_wake_leaves_a_skipped_stale_entry() {
    let mut ex: Executor<u32> = Executor::new();
    let id = ex.add_singleton();
    let t = ex.spawn_singleton(id, || 3u32);
    assert_eq!(ex.spawn(t), Ok(id));

    ex.drain();
    let (i, v) = run_one(&mut ex).unwrap();
    // a wake races with the in-progress poll ...
    ex.wake_by_ref(id);
    // ... and the poll then reports completion
    ex.finish_poll(i, v, true);
    assert!(!ex.is_spawned(id));
    assert!(ex.is_pending(id));

    // the stale entry is skipped, never polled
    ex.drain();
    match ex.next_ready() {
        NextReady::Skipped(s) => assert_eq!(s, id),
        _ => panic!("expected the stale entry to be skipped"),
    }
    assert!(matches!(ex.next_ready(), NextReady::Empty));

    // after the skip the storage is claimable again
    let t2 = ex.spawn_singleton(id, || 8u32);
    assert_eq!(ex.spawn(t2), Ok(id));
}

#[test]
fn reached_timer_wakes_the_task_and_resets_its_slot() {
    let mut ex: Executor<u32> = Executor::new();
    let id = ex.add_singleton();
    let t = ex.spawn_singleton(id, || 0u32);
    assert_eq!(ex.spawn(t), Ok(id));
    ex.drain();
    let (i, v) = run_one(&mut ex).unwrap();
    ex.arm_timer(id, 100);
    ex.finish_poll(i, v, false);
    assert!(ex.is_timer_queued(id));
    assert_eq!(ex.expiry_ticks(id), 100);

    // before the expiry: not woken, and the deadline hint reports it
    let d = ex.next_expiration(50);
    assert_eq!(d, 100);
    assert!(!ex.is_pending(id));
    assert!(ex.is_timer_queued(id));

    // at the expiry: woken, slot reset to "never," nothing left pending
    let d2 = ex.next_expiration(100);
    assert_eq!(d2, NEVER_TICKS);
    assert!(ex.is_pending(id));
    assert!(!ex.is_timer_queued(id));
    assert_eq!(ex.expiry_ticks(id), NEVER_TICKS);

    // and the next cycle polls it
    ex.drain();
    let (i2, _) = run_one(&mut ex).unwrap();
    assert_eq!(i2, id);
}

#[test]
fn rearming_overwrites_and_never_disarms() {
    let mut ex: Executor<u32> = Executor::new();
    let id = ex.add_singleton();
    let t = ex.spawn_singleton(id, || 0u32);
    assert_eq!(ex.spawn(t), Ok(id));

    ex.arm_timer(id, 100);
    ex.arm_timer(id, 30);
    assert_eq!(ex.expiry_ticks(id), 30);
    assert_eq!(ex.next_expiration(10), 30);

    ex.arm_timer(id, NEVER_TICKS);
    assert!(!ex.is_timer_queued(id));
    assert_eq!(ex.expiry_ticks(id), NEVER_TICKS);
    assert_eq!(ex.next_expiration(10), NEVER_TICKS);
}

#[test]
fn deadline_hint_is_the_minimum_pending_expiry() {
    let mut ex: Executor<u32> = Executor::new();
    let a = ex.add_singleton();
    let b = ex.add_singleton();
    let ta = ex.spawn_singleton(a, || 0u32);
    assert_eq!(ex.spawn(ta), Ok(a));
    let tb = ex.spawn_singleton(b, || 0u32);
    assert_eq!(ex.spawn(tb), Ok(b));
    ex.arm_timer(a, 200);
    ex.arm_timer(b, 100);
    assert_eq!(ex.next_expiration(0), 100);
}

#[test]
fn completion_resets_a_pending_timer() {
    let mut ex: Executor<u32> = Executor::new();
    let id = ex.add_singleton();
    let t = ex.spawn_singleton(id, || 0u32);
    assert_eq!(ex.spawn(t), Ok(id));
    ex.drain();
    let (i, v) = run_one(&mut ex).unwrap();
    ex.arm_timer(id, 500);
    ex.finish_poll(i, v, true);
    assert!(!ex.is_timer_queued(id));
    assert_eq!(ex.expiry_ticks(id), NEVER_TICKS);
    assert_eq!(ex.next_expiration(1000), NEVER_TICKS);
}

#[test]
fn allocated_timer_reference_is_given_back_at_completion() {
    let mut ex: Executor<u32> = Executor::new();
    let t = ex.spawn_allocated(|| 0u32);
    let id = ex.spawn(t).unwrap();
    ex.drain();
    let (i, v) = run_one(&mut ex).unwrap();
    ex.arm_timer(id, 10);
    assert_eq!(ex.strong_count(id), 2);
    ex.finish_poll(i, v, true);
    // the poll's and the timer queue's references are both released, and no
    // waker is left: the storage is freed at once
    assert_eq!(ex.strong_count(id), 0);
    assert!(ex.is_freed(id));
}
