use sdm_engine::error::SdmError;
use sdm_engine::resource::Resource;

#[test]
fn new_resource_is_fully_free() {
    let r = Resource::new("pump", 4);
    assert_eq!(r.capacity(), 4);
    assert_eq!(r.free(), 4);
    assert_eq!(r.n_allocated(), 0);
    assert_eq!(r.name().as_str(), "pump");
}

#[test]
fn allocate_moves_tokens_and_counts() {
    let mut r = Resource::new("pump", 4);
    r.allocate(3).unwrap();
    assert_eq!(r.free(), 1);
    assert_eq!(r.n_allocated(), 3);
    assert_eq!(r.times_allocated(), 1);
}

#[test]
fn allocate_beyond_free_fails_without_mutation() {
    let mut r = Resource::new("pump", 4);
    r.allocate(3).unwrap();
    let e = r.allocate(2);
    assert_eq!(e, Err(SdmError::InsufficientResource));
    assert_eq!(r.free(), 1);
    assert_eq!(r.times_allocated(), 1);
}

#[test]
fn release_beyond_capacity_fails_without_mutation() {
    let mut r = Resource::new("pump", 4);
    let e = r.release(1);
    assert_eq!(e, Err(SdmError::OverRelease));
    assert_eq!(r.free(), 4);
}

#[test]
fn allocate_then_release_restores_free_count() {
    let mut r = Resource::new("pump", 4);
    r.allocate(1).unwrap();
    let before = r.free();
    r.allocate(2).unwrap();
    r.release(2).unwrap();
    assert_eq!(r.free(), before);
}

#[test]
fn free_count_stays_within_capacity() {
    let mut r = Resource::new("pump", 2);
    for q in [1u32, 2, 1, 3, 2, 1] {
        let _ = r.allocate(q);
        assert!(r.free() <= r.capacity());
        let _ = r.release(q);
        assert!(r.free() <= r.capacity());
        assert_eq!(r.n_allocated(), r.capacity() - r.free());
    }
}

#[test]
fn busy_time_counts_only_allocated_ticks() {
    let mut r = Resource::new("pump", 2);
    r.update_analytics();
    assert_eq!(r.busy_time(), 0);
    r.allocate(1).unwrap();
    r.update_analytics();
    r.update_analytics();
    assert_eq!(r.busy_time(), 2);
    r.release(1).unwrap();
    r.update_analytics();
    assert_eq!(r.busy_time(), 2);
}
