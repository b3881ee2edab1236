use sdm_engine::entity::Entity;
use sdm_engine::event::Event;
use sdm_engine::process::Process;

#[test]
fn entity_carries_name_time_and_priority() {
    let mut e = Entity::new("car", 7);
    assert_eq!(e.name().as_str(), "car");
    assert_eq!(*e.priority(), None);
    assert_eq!(e.time_since_creation(12), 5);
    e.set_priority(3);
    assert_eq!(*e.priority(), Some(3));
    e.clear_priority();
    assert_eq!(*e.priority(), None);
}

#[test]
fn entity_with_priority_starts_with_it() {
    let e = Entity::new_with_priority("vip", -2, 0);
    assert_eq!(*e.priority(), Some(-2));
}

#[test]
fn entity_submodel_attachment_swaps() {
    let mut e = Entity::new("waiter", 0);
    assert_eq!(*e.submodel(), None);
    assert_eq!(e.attach_submodel(11), None);
    assert_eq!(e.attach_submodel(22), Some(11));
    assert_eq!(*e.submodel(), Some(22));
}

#[test]
fn entity_identifiers_differ() {
    let a = Entity::new("a", 0);
    let b = Entity::new("b", 0);
    assert_ne!(a.id(), b.id());
}

#[test]
fn event_carries_name_and_identifier() {
    let e = Event::new("arrival");
    assert_eq!(e.name().as_str(), "arrival");
    let f = Event::new("arrival");
    assert_ne!(e.id(), f.id());
}

#[test]
fn process_flags_and_duration() {
    let mut p = Process::new("serve", 8);
    assert_eq!(p.name().as_str(), "serve");
    assert_eq!(p.duration(), 8);
    assert!(!p.is_active());
    p.toggle_activate();
    assert!(p.is_active());
    p.change_duration(11);
    assert_eq!(p.duration(), 11);
}
