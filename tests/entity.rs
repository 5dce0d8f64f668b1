use scene_core::entity::{EntityManager, GENERATION_MASK, INDEX_MASK, INDEX_REUSE_THRESHOLD};

#[test]
fn create() {
    let mut manager = EntityManager::new();

    let first = manager.create();
    let second = manager.create();

    assert_eq!(first, 0);
    assert_eq!(second, 1);
}

#[test]
fn lifecycle() {
    let mut manager = EntityManager::new();

    let entity = manager.create();
    manager.destroy(entity);

    assert!(!manager.alive(entity))
}

#[test]
fn recycle() {
    let mut manager = EntityManager::new();

    for _ in 0..INDEX_REUSE_THRESHOLD + 1 {
        let entity = manager.create();
        manager.destroy(entity);
    }

    let entity = manager.create();

    assert_eq!(entity & INDEX_MASK, 0);
    assert_eq!((entity >> 24) & GENERATION_MASK, 1);
}

#[test]
fn fresh_allocator_counts_up_with_generation_zero() {
    let mut manager = EntityManager::new();
    for expected in 0..5u32 {
        let e = manager.create();
        assert_eq!(e & INDEX_MASK, expected);
        assert_eq!((e >> 24) & GENERATION_MASK, 0);
        assert!(manager.alive(e));
    }
}

#[test]
fn pooled_slots_wait_until_threshold_is_passed() {
    let mut manager = EntityManager::new();
    for _ in 0..INDEX_REUSE_THRESHOLD {
        let e = manager.create();
        manager.destroy(e);
    }
    // The pool holds exactly the threshold: a new slot is appended.
    let e = manager.create();
    assert_eq!(e, INDEX_REUSE_THRESHOLD as u32);
}

#[test]
fn recycled_slots_come_out_oldest_first() {
    let mut manager = EntityManager::new();
    for _ in 0..INDEX_REUSE_THRESHOLD + 1 {
        let e = manager.create();
        manager.destroy(e);
    }
    // The pool holds slots 0..=threshold: one is taken, then it is back at
    // the threshold and a new slot comes out.
    let a = manager.create();
    let b = manager.create();
    assert_eq!(a, 1 << 24);
    assert_eq!(b, INDEX_REUSE_THRESHOLD as u32 + 1);
    manager.destroy(a);
    manager.destroy(b);
    let c = manager.create();
    let d = manager.create();
    assert_eq!(c, (1 << 24) | 1);
    assert_eq!(d, (1 << 24) | 2);
    assert!(manager.alive(c));
    assert!(manager.alive(d));
    assert!(!manager.alive(a));
}

#[test]
fn stale_handle_is_not_alive_but_new_one_is() {
    let mut manager = EntityManager::new();
    for _ in 0..INDEX_REUSE_THRESHOLD + 1 {
        let e = manager.create();
        manager.destroy(e);
    }
    let fresh = manager.create();
    assert_eq!(fresh, (1 << 24) | 0);
    assert!(manager.alive(fresh));
    assert!(!manager.alive(0));
}

#[test]
fn generation_wraps_after_256_destructions() {
    let mut manager = EntityManager::new();
    let e = manager.create();
    for _ in 0..255 {
        manager.destroy(e);
        assert!(!manager.alive(e));
    }
    manager.destroy(e);
    // The 8-bit generation has wrapped: the stale handle aliases again.
    assert!(manager.alive(e));
}
