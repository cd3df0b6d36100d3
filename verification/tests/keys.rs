use causal_text::keys::BACKSPACE_CHARACTER;
use causal_text::keys::DELETE_PRIORITY;
use causal_text::keys::editor_id_to_letter;
use causal_text::keys::Event;
use causal_text::keys::EventKey;
use causal_text::keys::INSERT_PRIORITY;
use causal_text::keys::Moment;
use causal_text::keys::ORIGIN_CHARACTER;
use causal_text::keys::VERY_LARGE_PRIORITY;
use std::cmp::Ordering;

fn key(editor_id: i32, timestamp: u32, priority: u32) -> EventKey {
    EventKey::new(Moment::new(editor_id, timestamp), priority)
}

#[test]
fn letters_of_the_first_three_replicas() {
    assert_eq!(editor_id_to_letter(0), 'r');
    assert_eq!(editor_id_to_letter(1), 'w');
    assert_eq!(editor_id_to_letter(2), 'j');
}

#[test]
fn letter_of_any_other_replica_is_a_dot() {
    assert_eq!(editor_id_to_letter(3), '.');
    assert_eq!(editor_id_to_letter(-1), '.');
    assert_eq!(editor_id_to_letter(i32::MAX), '.');
    assert_eq!(editor_id_to_letter(i32::MIN), '.');
}

#[test]
fn constants_have_their_values() {
    assert_eq!(BACKSPACE_CHARACTER, '\u{8}');
    assert_eq!(ORIGIN_CHARACTER, '\t');
    assert_eq!(INSERT_PRIORITY, 1);
    assert_eq!(DELETE_PRIORITY, 2);
    assert_eq!(VERY_LARGE_PRIORITY, 1000);
}

#[test]
fn moment_with_larger_counter_comes_first() {
    let early = Moment::new(0, 1);
    let late = Moment::new(0, 2);
    assert_eq!(late.cmp(&early), Ordering::Less);
    assert_eq!(early.cmp(&late), Ordering::Greater);
    assert!(late < early);
    assert!(early > late);
}

#[test]
fn moments_with_equal_counters_go_by_replica_id() {
    let first = Moment::new(0, 7);
    let second = Moment::new(1, 7);
    assert_eq!(first.cmp(&second), Ordering::Less);
    assert_eq!(second.cmp(&first), Ordering::Greater);
    assert_eq!(first.partial_cmp(&second), Some(Ordering::Less));
    assert!(Moment::new(-1, 7) < first);
}

#[test]
fn counter_decides_before_replica_id() {
    let a = Moment::new(5, 9);
    let b = Moment::new(0, 8);
    assert_eq!(a.cmp(&b), Ordering::Less);
}

#[test]
fn equal_moments_compare_equal() {
    let a = Moment::new(3, 4);
    let b = Moment::new(3, 4);
    assert_eq!(a.cmp(&b), Ordering::Equal);
    assert!(a == b);
    assert!(a != Moment::new(3, 5));
    assert!(a != Moment::new(2, 4));
    assert_eq!(a.editor_id(), 3);
    assert_eq!(a.timestamp(), 4);
}

#[test]
fn key_with_larger_priority_comes_first() {
    let delete = key(0, 1, DELETE_PRIORITY);
    let insert = key(0, 5, INSERT_PRIORITY);
    assert_eq!(delete.cmp(&insert), Ordering::Less);
    assert_eq!(insert.cmp(&delete), Ordering::Greater);
    assert!(delete < insert);
}

#[test]
fn keys_with_equal_priority_go_by_moment() {
    let later = key(1, 4, 1);
    let earlier = key(0, 3, 1);
    assert_eq!(later.cmp(&earlier), Ordering::Less);
    assert_eq!(key(0, 3, 1).cmp(&key(1, 3, 1)), Ordering::Less);
    assert_eq!(key(2, 3, 1).cmp(&key(2, 3, 1)), Ordering::Equal);
    assert_eq!(key(2, 3, 1).partial_cmp(&key(2, 3, 1)), Some(Ordering::Equal));
}

#[test]
fn key_equality_is_by_moment_alone() {
    assert!(key(0, 1, 1) == key(0, 1, 2));
    assert!(key(0, 1, 1) != key(0, 2, 1));
    assert!(key(0, 1, 1) != key(1, 1, 1));
    assert!(!key(0, 1, 1).is(&key(0, 1, 2)));
    assert!(key(0, 1, 1).is(&key(0, 1, 1)));
    assert_ne!(key(0, 1, 1).cmp(&key(0, 1, 2)), Ordering::Equal);
}

#[test]
fn origin_key_has_the_reserved_fields() {
    let origin = EventKey::origin();
    assert_eq!(origin.moment().editor_id(), -1);
    assert_eq!(origin.moment().timestamp(), 0);
    assert_eq!(origin.priority(), 1000);
}

#[test]
fn origin_key_comes_before_every_edit() {
    let origin = EventKey::origin();
    assert_eq!(origin.cmp(&key(0, 1, 1)), Ordering::Less);
    assert_eq!(origin.cmp(&key(0, u32::MAX, 2)), Ordering::Less);
    assert_eq!(origin.cmp(&key(i32::MIN, u32::MAX, 999)), Ordering::Less);
}

#[test]
fn origin_event_is_its_own_cause() {
    let origin = Event::origin();
    assert!(origin.key().is(&EventKey::origin()));
    assert!(origin.cause().is(&EventKey::origin()));
    assert_eq!(origin.character(), '\t');
}

#[test]
fn events_compare_by_their_keys() {
    let a = Event::new(key(0, 1, 1), EventKey::origin(), 'a');
    let b = Event::new(key(0, 2, 1), key(0, 1, 1), 'b');
    let a_again = Event::new(key(0, 1, 1), key(5, 5, 1), 'z');
    assert_eq!(b.cmp(&a), Ordering::Less);
    assert_eq!(a.cmp(&b), Ordering::Greater);
    assert_eq!(a.cmp(&a_again), Ordering::Equal);
    assert!(a == a_again);
    assert!(a != b);
    assert!(b < a);
    assert_eq!(a.partial_cmp(&b), Some(Ordering::Greater));
}

#[test]
fn event_keeps_its_fields() {
    let event = Event::new(key(2, 9, 2), key(1, 8, 1), BACKSPACE_CHARACTER);
    assert!(event.key().is(&key(2, 9, 2)));
    assert!(event.cause().is(&key(1, 8, 1)));
    assert_eq!(event.character(), '\u{8}');
    let copy = event;
    assert!(copy.key().is(&event.key()));
}
