use causal_text::content::Content;
use causal_text::keys::BACKSPACE_CHARACTER;
use causal_text::keys::Event;
use causal_text::keys::EventKey;
use causal_text::keys::Moment;

fn key(editor_id: i32, timestamp: u32, priority: u32) -> EventKey {
    EventKey::new(Moment::new(editor_id, timestamp), priority)
}

fn insert(editor_id: i32, timestamp: u32, cause: EventKey, character: char) -> Event {
    Event::new(key(editor_id, timestamp, 1), cause, character)
}

fn delete(editor_id: i32, timestamp: u32, cause: EventKey) -> Event {
    Event::new(key(editor_id, timestamp, 2), cause, BACKSPACE_CHARACTER)
}

fn fields(event: &Event) -> (i32, u32, u32, i32, u32, u32, char) {
    (
        event.key().moment().editor_id(),
        event.key().moment().timestamp(),
        event.key().priority(),
        event.cause().moment().editor_id(),
        event.cause().moment().timestamp(),
        event.cause().priority(),
        event.character(),
    )
}

fn all_fields(events: &Vec<Event>) -> Vec<(i32, u32, u32, i32, u32, u32, char)> {
    events.iter().map(fields).collect()
}

const ORIGIN: (i32, u32, u32, i32, u32, u32, char) = (-1, 0, 1000, -1, 0, 1000, '\t');

#[test]
fn new_store_holds_the_origin_alone() {
    let content = Content::new();
    assert_eq!(all_fields(&content.flatten_all()), vec![ORIGIN]);
    assert_eq!(all_fields(&content.get_flat_sequence()), vec![ORIGIN]);
    assert!(content.get_final_events_stream().is_empty());
    assert_eq!(content.get_characters(), "");
    assert_eq!(content.event_at(&EventKey::origin()).map(|e| fields(&e)), Some(ORIGIN));
    assert!(content.event_at(&key(0, 1, 1)).is_none());
}

#[test]
fn chain_of_insertions_reads_in_order() {
    let mut content = Content::new();
    let a = insert(0, 1, EventKey::origin(), 'a');
    let b = insert(0, 2, a.key(), 'b');
    let c = insert(0, 3, b.key(), 'c');
    content.add_event(&a);
    content.add_event(&b);
    content.add_event(&c);
    assert_eq!(content.get_characters(), "abc");
    assert_eq!(
        all_fields(&content.flatten_all()),
        vec![ORIGIN, fields(&a), fields(&b), fields(&c)]
    );
    assert_eq!(
        all_fields(&content.get_final_events_stream()),
        vec![fields(&a), fields(&b), fields(&c)]
    );
}

#[test]
fn order_of_arrival_does_not_matter() {
    let a = insert(0, 1, EventKey::origin(), 'a');
    let b = insert(0, 2, a.key(), 'b');
    let c = insert(1, 1, EventKey::origin(), 'c');
    let d = delete(1, 3, b.key());
    let orders: Vec<Vec<Event>> = vec![
        vec![a, b, c, d],
        vec![d, c, b, a],
        vec![c, a, d, b],
        vec![b, d, a, c, a, b],
    ];
    for order in orders {
        let mut content = Content::new();
        for event in order.iter() {
            content.add_event(event);
        }
        assert_eq!(content.get_characters(), "ac");
        assert_eq!(
            all_fields(&content.flatten_all()),
            vec![ORIGIN, fields(&a), fields(&b), fields(&d), fields(&c)]
        );
    }
}

#[test]
fn adding_an_event_twice_changes_nothing() {
    let mut content = Content::new();
    let a = insert(0, 1, EventKey::origin(), 'a');
    content.add_event(&a);
    let once = all_fields(&content.flatten_all());
    content.add_event(&a);
    assert_eq!(all_fields(&content.flatten_all()), once);
    assert_eq!(content.get_characters(), "a");
}

#[test]
fn siblings_with_later_counter_come_first() {
    let mut content = Content::new();
    content.add_event(&insert(0, 1, EventKey::origin(), 'a'));
    content.add_event(&insert(1, 3, EventKey::origin(), 'x'));
    assert_eq!(content.get_characters(), "xa");
}

#[test]
fn siblings_with_equal_counter_go_by_replica_id() {
    let mut content = Content::new();
    content.add_event(&insert(1, 1, EventKey::origin(), 'b'));
    content.add_event(&insert(0, 1, EventKey::origin(), 'a'));
    assert_eq!(content.get_characters(), "ab");
}

#[test]
fn delete_is_visited_before_sibling_insertions() {
    let mut content = Content::new();
    let a = insert(0, 1, EventKey::origin(), 'a');
    content.add_event(&a);
    content.add_event(&insert(1, 5, a.key(), 'x'));
    content.add_event(&delete(0, 2, a.key()));
    assert_eq!(content.get_characters(), "x");
}

#[test]
fn delete_cancels_the_event_it_is_anchored_at() {
    let mut content = Content::new();
    let x = insert(0, 1, EventKey::origin(), 'x');
    content.add_event(&x);
    content.add_event(&delete(0, 2, x.key()));
    assert_eq!(content.get_characters(), "");
    assert!(content.get_final_events_stream().is_empty());
    assert_eq!(content.flatten_all().len(), 3);
}

#[test]
fn delete_without_its_target_has_no_effect() {
    let mut content = Content::new();
    let a = insert(0, 1, EventKey::origin(), 'a');
    let b = insert(0, 2, a.key(), 'b');
    content.add_event(&a);
    assert_eq!(content.get_characters(), "a");
    content.add_event(&delete(0, 3, b.key()));
    assert_eq!(content.get_characters(), "a");
    assert_eq!(all_fields(&content.flatten_all()), vec![ORIGIN, fields(&a)]);
}

#[test]
fn delete_applies_once_its_target_arrives() {
    let a = insert(0, 1, EventKey::origin(), 'a');
    let b = insert(0, 2, a.key(), 'b');
    let d = delete(0, 3, b.key());
    let mut late = Content::new();
    late.add_event(&a);
    late.add_event(&d);
    late.add_event(&b);
    assert_eq!(late.get_characters(), "a");
    let mut without = Content::new();
    without.add_event(&a);
    without.add_event(&b);
    assert_eq!(without.get_characters(), "ab");
}

#[test]
fn delete_of_an_event_that_is_not_last_has_no_effect() {
    let mut content = Content::new();
    let a = insert(0, 1, EventKey::origin(), 'a');
    let b = insert(0, 2, a.key(), 'b');
    content.add_event(&a);
    content.add_event(&b);
    content.add_event(&delete(1, 3, EventKey::origin()));
    assert_eq!(content.get_characters(), "ab");
}

#[test]
fn second_delete_of_one_event_has_no_effect() {
    let mut content = Content::new();
    let a = insert(0, 1, EventKey::origin(), 'a');
    let b = insert(0, 2, a.key(), 'b');
    content.add_event(&a);
    content.add_event(&b);
    content.add_event(&delete(0, 3, b.key()));
    content.add_event(&delete(1, 3, b.key()));
    assert_eq!(content.get_characters(), "a");
}

#[test]
fn flatten_below_a_cause_gives_its_subtree() {
    let mut content = Content::new();
    let a = insert(0, 1, EventKey::origin(), 'a');
    let b = insert(0, 2, a.key(), 'b');
    let c = insert(1, 1, EventKey::origin(), 'c');
    content.add_event(&a);
    content.add_event(&b);
    content.add_event(&c);
    assert_eq!(all_fields(&content.flatten(&a.key())), vec![fields(&a), fields(&b)]);
    assert_eq!(all_fields(&content.flatten(&c.key())), vec![fields(&c)]);
    assert!(content.flatten(&key(9, 9, 1)).is_empty());
}

#[test]
fn flatten_twice_gives_the_same() {
    let mut content = Content::new();
    let a = insert(0, 1, EventKey::origin(), 'a');
    content.add_event(&a);
    content.add_event(&insert(1, 1, EventKey::origin(), 'b'));
    content.add_event(&delete(1, 2, a.key()));
    let first = all_fields(&content.flatten_all());
    let second = all_fields(&content.flatten_all());
    assert_eq!(first, second);
    assert_eq!(first.len(), 4);
}

#[test]
fn send_copies_every_event() {
    let mut sender = Content::new();
    let a = insert(0, 1, EventKey::origin(), 'a');
    let b = insert(0, 2, a.key(), 'b');
    sender.add_event(&a);
    sender.add_event(&b);
    let mut recipient = Content::new();
    recipient.add_event(&insert(1, 1, EventKey::origin(), 'x'));
    sender.send(&mut recipient);
    assert_eq!(recipient.get_characters(), "abx");
    assert_eq!(sender.get_characters(), "ab");
    assert_eq!(recipient.event_at(&b.key()).map(|e| fields(&e)), Some(fields(&b)));
}

#[test]
fn send_twice_is_as_once() {
    let mut sender = Content::new();
    let a = insert(0, 1, EventKey::origin(), 'a');
    sender.add_event(&a);
    sender.add_event(&delete(0, 2, a.key()));
    sender.add_event(&insert(0, 3, EventKey::origin(), 'c'));
    let mut recipient = Content::new();
    recipient.add_event(&insert(1, 1, EventKey::origin(), 'x'));
    sender.send(&mut recipient);
    let once = all_fields(&recipient.flatten_all());
    let text = recipient.get_characters();
    sender.send(&mut recipient);
    assert_eq!(all_fields(&recipient.flatten_all()), once);
    assert_eq!(recipient.get_characters(), text);
    assert_eq!(text, "cx");
}

#[test]
fn send_in_both_directions_gives_the_same_store() {
    let mut left = Content::new();
    let a = insert(0, 1, EventKey::origin(), 'a');
    left.add_event(&a);
    left.add_event(&insert(0, 2, a.key(), 'b'));
    let mut right = Content::new();
    let x = insert(1, 1, EventKey::origin(), 'x');
    right.add_event(&x);
    right.add_event(&delete(1, 2, x.key()));
    right.add_event(&insert(1, 3, EventKey::origin(), 'y'));
    left.send(&mut right);
    right.send(&mut left);
    assert_eq!(all_fields(&left.flatten_all()), all_fields(&right.flatten_all()));
    assert_eq!(left.get_characters(), right.get_characters());
    assert_eq!(left.get_characters(), "yab");
}

#[test]
fn origin_that_comes_back_is_not_walked_twice() {
    let mut content = Content::new();
    content.add_event(&Event::origin());
    content.add_event(&insert(0, 1, EventKey::origin(), 'a'));
    assert_eq!(content.flatten_all().len(), 2);
    assert_eq!(content.get_characters(), "a");
}

#[test]
fn text_keeps_characters_beyond_ascii() {
    let mut content = Content::new();
    let a = insert(0, 1, EventKey::origin(), 'é');
    content.add_event(&a);
    content.add_event(&insert(0, 2, a.key(), '字'));
    assert_eq!(content.get_characters(), "é字");
}

#[test]
fn later_event_under_a_key_replaces_the_earlier() {
    let mut content = Content::new();
    let first = insert(0, 1, EventKey::origin(), 'a');
    let second = insert(0, 1, EventKey::origin(), 'b');
    content.add_event(&first);
    content.add_event(&second);
    assert_eq!(content.event_at(&first.key()).map(|e| e.character()), Some('b'));
    assert_eq!(content.get_characters(), "b");
    assert_eq!(content.flatten_all().len(), 2);
}

#[test]
fn event_is_found_under_its_key_only() {
    let mut content = Content::new();
    let a = insert(0, 1, EventKey::origin(), 'a');
    content.add_event(&a);
    assert_eq!(content.event_at(&a.key()).map(|e| fields(&e)), Some(fields(&a)));
    assert!(content.event_at(&key(0, 1, 2)).is_none());
    assert!(content.event_at(&key(1, 1, 1)).is_none());
}
