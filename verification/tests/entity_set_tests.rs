use sdm_engine::entity::Entity;
use sdm_engine::entity_set::{EntitySet, EntitySetMode};
use sdm_engine::error::SdmError;

#[test]
fn default_mode_is_fifo() {
    assert_eq!(EntitySetMode::default(), EntitySetMode::FIFO);
}

#[test]
fn fifo_round_trip_preserves_insertion_order() {
    let mut s = EntitySet::new("q", EntitySetMode::FIFO);
    for name in ["a", "b", "c", "d", "e"] {
        s.push(Entity::new(name, 0), 0).unwrap();
    }
    let mut served: Vec<String> = Vec::new();
    while let Some(e) = s.pop() {
        served.push(e.name().clone());
    }
    assert_eq!(served, ["a", "b", "c", "d", "e"]);
}

#[test]
fn lifo_round_trip_reverses_insertion_order() {
    let mut s = EntitySet::new("q", EntitySetMode::LIFO);
    for name in ["a", "b", "c"] {
        s.push(Entity::new(name, 0), 0).unwrap();
    }
    let mut served: Vec<String> = Vec::new();
    while let Some(e) = s.pop() {
        served.push(e.name().clone());
    }
    assert_eq!(served, ["c", "b", "a"]);
}

#[test]
fn priority_serves_descending() {
    let mut s = EntitySet::new("q", EntitySetMode::PRIORITY);
    s.push(Entity::new_with_priority("a", 1, 0), 0).unwrap();
    s.push(Entity::new_with_priority("b", 3, 0), 0).unwrap();
    s.push(Entity::new_with_priority("c", 2, 0), 0).unwrap();
    let mut served: Vec<String> = Vec::new();
    while let Some(e) = s.pop() {
        served.push(e.name().clone());
    }
    assert_eq!(served, ["b", "c", "a"]);
}

#[test]
fn priority_ties_serve_in_insertion_order() {
    let mut s = EntitySet::new("q", EntitySetMode::PRIORITY);
    s.push(Entity::new_with_priority("first", 2, 0), 0).unwrap();
    s.push(Entity::new_with_priority("second", 2, 0), 0).unwrap();
    s.push(Entity::new_with_priority("third", 2, 0), 0).unwrap();
    let mut served: Vec<String> = Vec::new();
    while let Some(e) = s.pop() {
        served.push(e.name().clone());
    }
    assert_eq!(served, ["first", "second", "third"]);
}

#[test]
fn priority_none_ranks_below_every_priority() {
    let mut s = EntitySet::new("q", EntitySetMode::PRIORITY);
    s.push(Entity::new("plain", 0), 0).unwrap();
    s.push(Entity::new_with_priority("urgent", -7, 0), 0).unwrap();
    let first = s.pop().unwrap();
    assert_eq!(first.name().as_str(), "urgent");
    let second = s.pop().unwrap();
    assert_eq!(second.name().as_str(), "plain");
}

#[test]
fn pop_from_empty_returns_none() {
    let mut s = EntitySet::new("q", EntitySetMode::FIFO);
    assert!(s.pop().is_none());
    assert!(s.is_empty());
}

#[test]
fn bounded_full_set_rejects_push() {
    let mut s = EntitySet::new_sized("q", EntitySetMode::FIFO, 2);
    s.push(Entity::new("a", 0), 0).unwrap();
    s.push(Entity::new("b", 0), 0).unwrap();
    assert!(s.is_full());
    let r = s.push(Entity::new("c", 0), 0);
    assert_eq!(r, Err(SdmError::CapacityExceeded));
    assert_eq!(s.size(), 2);
}

#[test]
fn size_never_exceeds_bound() {
    let mut s = EntitySet::new_sized("q", EntitySetMode::LIFO, 3);
    for i in 0..10u32 {
        let _ = s.push(Entity::new(&format!("e{}", i), 0), 0);
        assert!(s.size() <= 3);
        if i % 4 == 3 {
            s.pop();
        }
        assert!(s.size() <= s.max_size().unwrap());
    }
}

#[test]
fn remove_takes_first_matching_identifier() {
    let mut s = EntitySet::new("q", EntitySetMode::FIFO);
    let target = Entity::new("b", 0);
    let id = target.id();
    s.push(Entity::new("a", 0), 0).unwrap();
    s.push(target, 0).unwrap();
    s.push(Entity::new("c", 0), 0).unwrap();
    let removed = s.remove(id).unwrap();
    assert_eq!(removed.id(), id);
    assert_eq!(removed.name().as_str(), "b");
    assert_eq!(s.size(), 2);
    assert!(s.remove(id).is_none());
}

#[test]
fn apply_for_id_runs_callback_on_the_match() {
    let mut s = EntitySet::new("q", EntitySetMode::FIFO);
    s.push(Entity::new("other", 0), 0).unwrap();
    let e = Entity::new("a", 0);
    let id = e.id();
    s.push(e, 0).unwrap();
    let seen = std::cell::Cell::new(None);
    assert_eq!(s.apply_for_id(id, |e| seen.set(Some(e.id()))), Ok(()));
    assert_eq!(seen.get(), Some(id));
}

#[test]
fn apply_for_id_reports_not_found() {
    let mut s = EntitySet::new("q", EntitySetMode::FIFO);
    let e = Entity::new("a", 0);
    let id = e.id();
    s.push(e, 0).unwrap();
    let called = std::cell::Cell::new(false);
    assert_eq!(
        s.apply_for_id(id.wrapping_add(1), |_e| called.set(true)),
        Err(SdmError::NotFound)
    );
    assert!(!called.get());
}

#[test]
fn set_mode_switches_empty_set() {
    let mut s = EntitySet::new("q", EntitySetMode::FIFO);
    s.set_mode(EntitySetMode::LIFO);
    assert_eq!(s.mode(), EntitySetMode::LIFO);
}

#[test]
fn analytics_track_occupancy_and_residence() {
    let mut s = EntitySet::new("q", EntitySetMode::FIFO);
    s.push(Entity::new("a", 0), 0).unwrap();
    s.push(Entity::new("b", 0), 2).unwrap();
    // Ticks at times 3 and 4 with two entities held.
    s.update_analytics(3);
    s.update_analytics(4);
    // Occupancy sum: 2 + 2; with now = 4 ticks the mean is 4 / 4 = 1.
    assert_eq!(s.average_size_sum(), 4);
    assert_eq!(s.average_size(4), 1);
    // The oldest entity entered at 0, so its residence at the last tick is 4.
    assert_eq!(s.max_time_in_set(), 4);
    // Residences at time 4 are 4 and 2; the mean is 3.
    assert_eq!(s.average_time_in_set(4), 3);
}

#[test]
fn average_time_of_empty_set_is_zero() {
    let s = EntitySet::new("q", EntitySetMode::FIFO);
    assert_eq!(s.average_time_in_set(9), 0);
}
