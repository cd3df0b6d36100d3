use causal_text::editor::Editor;
use causal_text::keys::BACKSPACE_CHARACTER;
use causal_text::keys::Event;
use causal_text::keys::EventKey;

fn text(editor: &Editor) -> String {
    editor.content().get_characters()
}

fn stream_text(editor: &Editor) -> String {
    editor.final_events_stream().iter().map(|event| event.character()).collect()
}

fn fields(event: &Event) -> (i32, u32, u32, i32, u32, u32, char) {
    (
        event.key().moment().editor_id(),
        event.key().moment().timestamp(),
        event.key().priority(),
        event.cause().moment().editor_id(),
        event.cause().moment().timestamp(),
        event.cause().priority(),
        event.character(),
    )
}

fn flat(editor: &Editor) -> Vec<(i32, u32, u32, i32, u32, u32, char)> {
    editor.content().get_flat_sequence().iter().map(fields).collect()
}

fn type_all(editor: &mut Editor, characters: &str) {
    for character in characters.chars() {
        editor.insert_character(character);
    }
}

#[test]
fn new_editor_is_empty() {
    let editor = Editor::new(4);
    assert_eq!(editor.editor_id(), 4);
    assert_eq!(editor.current_timestamp(), 1);
    assert_eq!(editor.cursor_position(), 0);
    assert!(editor.cursor_event_key().is(&EventKey::origin()));
    assert_eq!(editor.cursor_moment().editor_id(), -1);
    assert_eq!(editor.cursor_moment().timestamp(), 0);
    assert_eq!(text(&editor), "");
    assert!(editor.final_events_stream().is_empty());
    assert_eq!(flat(&editor), vec![(-1, 0, 1000, -1, 0, 1000, '\t')]);
}

#[test]
fn typing_three_characters_and_removing_one() {
    let mut editor = Editor::new(0);
    editor.insert_character('a');
    editor.insert_character('b');
    editor.insert_character('c');
    assert_eq!(text(&editor), "abc");
    assert_eq!(stream_text(&editor), "abc");
    assert_eq!(editor.cursor_position(), 3);
    editor.remove_previous_character();
    assert_eq!(text(&editor), "ab");
    assert_eq!(stream_text(&editor), "ab");
    assert_eq!(editor.cursor_position(), 2);
    assert_eq!(editor.current_timestamp(), 5);
}

#[test]
fn each_edit_takes_the_next_counter() {
    let mut editor = Editor::new(2);
    editor.insert_character('a');
    assert_eq!(editor.current_timestamp(), 2);
    editor.insert_character('b');
    assert_eq!(editor.current_timestamp(), 3);
    assert_eq!(
        flat(&editor),
        vec![
            (-1, 0, 1000, -1, 0, 1000, '\t'),
            (2, 1, 1, -1, 0, 1000, 'a'),
            (2, 2, 1, 2, 1, 1, 'b'),
        ]
    );
    assert_eq!(editor.cursor_moment().editor_id(), 2);
    assert_eq!(editor.cursor_moment().timestamp(), 2);
}

#[test]
fn delete_gets_the_higher_priority() {
    let mut editor = Editor::new(0);
    editor.insert_character('x');
    editor.insert_character(BACKSPACE_CHARACTER);
    assert_eq!(
        flat(&editor),
        vec![
            (-1, 0, 1000, -1, 0, 1000, '\t'),
            (0, 1, 1, -1, 0, 1000, 'x'),
            (0, 2, 2, 0, 1, 1, '\u{8}'),
        ]
    );
}

#[test]
fn insert_then_remove_leaves_nothing() {
    let mut editor = Editor::new(0);
    editor.insert_character('x');
    editor.remove_previous_character();
    assert_eq!(text(&editor), "");
    assert_eq!(editor.cursor_position(), 0);
    assert!(editor.cursor_event_key().is(&EventKey::origin()));
    let mut other = Editor::new(1);
    other.receive_events_from(&mut editor);
    assert_eq!(text(&other), "");
    assert!(other.final_events_stream().is_empty());
}

#[test]
fn insert_then_remove_in_the_middle_restores_the_text() {
    let mut editor = Editor::new(0);
    type_all(&mut editor, "abc");
    editor.move_cursor_left();
    editor.insert_character('x');
    assert_eq!(text(&editor), "abxc");
    editor.remove_previous_character();
    assert_eq!(text(&editor), "abc");
    assert_eq!(editor.cursor_position(), 2);
}

#[test]
fn remove_at_the_start_has_no_effect() {
    let mut editor = Editor::new(0);
    editor.remove_previous_character();
    assert_eq!(text(&editor), "");
    assert_eq!(editor.cursor_position(), 0);
    assert_eq!(editor.current_timestamp(), 2);
    editor.insert_character('a');
    assert_eq!(text(&editor), "a");
}

#[test]
fn concurrent_insertions_at_the_root_go_by_replica_id() {
    let mut a = Editor::new(0);
    let mut b = Editor::new(1);
    a.insert_character('a');
    b.insert_character('b');
    a.receive_events_from(&mut b);
    b.receive_events_from(&mut a);
    assert_eq!(text(&a), "ab");
    assert_eq!(text(&b), "ab");
    assert_eq!(flat(&a), flat(&b));
}

#[test]
fn concurrent_insertions_do_not_depend_on_who_merges_first() {
    let mut a = Editor::new(0);
    let mut b = Editor::new(1);
    a.insert_character('a');
    b.insert_character('b');
    b.receive_events_from(&mut a);
    a.receive_events_from(&mut b);
    assert_eq!(text(&a), "ab");
    assert_eq!(text(&b), "ab");
}

#[test]
fn later_insertion_at_the_same_place_comes_first() {
    let mut a = Editor::new(0);
    let mut b = Editor::new(1);
    a.insert_character('a');
    b.receive_events_from(&mut a);
    assert_eq!(b.current_timestamp(), 3);
    assert_eq!(b.cursor_position(), 0);
    b.insert_character('x');
    assert_eq!(text(&b), "xa");
    assert_eq!(b.cursor_position(), 1);
    a.receive_events_from(&mut b);
    assert_eq!(text(&a), "xa");
}

#[test]
fn receive_sets_the_clock_ahead_of_both() {
    let mut a = Editor::new(0);
    let mut b = Editor::new(1);
    type_all(&mut a, "abcd");
    assert_eq!(a.current_timestamp(), 5);
    b.receive_events_from(&mut a);
    assert_eq!(b.current_timestamp(), 6);
    assert_eq!(a.current_timestamp(), 5);
    a.receive_events_from(&mut b);
    assert_eq!(a.current_timestamp(), 7);
}

#[test]
fn receive_twice_is_as_once() {
    let mut a = Editor::new(0);
    let mut b = Editor::new(1);
    type_all(&mut a, "ab");
    a.remove_previous_character();
    type_all(&mut b, "xy");
    b.receive_events_from(&mut a);
    let once_text = text(&b);
    let once_stream = stream_text(&b);
    let once_flat = flat(&b);
    let once_position = b.cursor_position();
    b.receive_events_from(&mut a);
    assert_eq!(text(&b), once_text);
    assert_eq!(stream_text(&b), once_stream);
    assert_eq!(flat(&b), once_flat);
    assert_eq!(b.cursor_position(), once_position);
    assert_eq!(once_text, "axy");
}

#[test]
fn send_events_to_is_receive_from_the_other_side() {
    let mut a = Editor::new(0);
    let mut b = Editor::new(1);
    type_all(&mut a, "hi");
    a.send_events_to(&mut b);
    assert_eq!(text(&b), "hi");
    assert_eq!(text(&a), "hi");
    assert_eq!(b.current_timestamp(), 4);
    assert_eq!(a.current_timestamp(), 3);
}

#[test]
fn replicas_converge_after_exchanges_in_any_order() {
    let mut a = Editor::new(0);
    let mut b = Editor::new(1);
    type_all(&mut a, "ab");
    type_all(&mut b, "xy");
    a.send_events_to(&mut b);
    b.remove_previous_character();
    a.move_cursor_left();
    a.insert_character('c');
    b.send_events_to(&mut a);
    b.send_events_to(&mut a);
    a.send_events_to(&mut b);
    assert_eq!(text(&a), text(&b));
    assert_eq!(flat(&a), flat(&b));

    let mut c = Editor::new(0);
    let mut d = Editor::new(1);
    type_all(&mut c, "ab");
    type_all(&mut d, "xy");
    c.send_events_to(&mut d);
    d.remove_previous_character();
    c.move_cursor_left();
    c.insert_character('c');
    c.send_events_to(&mut d);
    d.send_events_to(&mut c);
    assert_eq!(text(&c), text(&d));
    assert_eq!(text(&c), text(&a));
    assert_eq!(text(&a), "acbx");
}

#[test]
fn three_replicas_converge() {
    let mut a = Editor::new(0);
    let mut b = Editor::new(1);
    let mut c = Editor::new(2);
    type_all(&mut a, "a");
    type_all(&mut b, "b");
    type_all(&mut c, "c");
    a.send_events_to(&mut b);
    b.send_events_to(&mut c);
    c.send_events_to(&mut a);
    a.send_events_to(&mut b);
    assert_eq!(text(&a), "abc");
    assert_eq!(text(&b), "abc");
    assert_eq!(text(&c), "abc");
}

#[test]
fn cursor_moves_within_the_text() {
    let mut editor = Editor::new(0);
    type_all(&mut editor, "ab");
    assert_eq!(editor.cursor_position(), 2);
    editor.move_cursor_right();
    assert_eq!(editor.cursor_position(), 2);
    editor.move_cursor_left();
    assert_eq!(editor.cursor_position(), 1);
    assert_eq!(editor.cursor_moment().timestamp(), 1);
    editor.move_cursor_left();
    assert_eq!(editor.cursor_position(), 0);
    assert!(editor.cursor_event_key().is(&EventKey::origin()));
    editor.move_cursor_left();
    assert_eq!(editor.cursor_position(), 0);
    editor.move_cursor_right();
    assert_eq!(editor.cursor_position(), 1);
    assert_eq!(editor.cursor_moment().timestamp(), 1);
    assert_eq!(editor.cursor_moment().editor_id(), 0);
}

#[test]
fn insertion_goes_where_the_cursor_is() {
    let mut editor = Editor::new(0);
    type_all(&mut editor, "ab");
    editor.move_cursor_left();
    editor.insert_character('x');
    assert_eq!(text(&editor), "axb");
    assert_eq!(editor.cursor_position(), 2);
    editor.move_cursor_left();
    editor.move_cursor_left();
    editor.insert_character('y');
    assert_eq!(text(&editor), "yaxb");
    assert_eq!(editor.cursor_position(), 1);
}

#[test]
fn cursor_follows_its_anchor_after_a_merge() {
    let mut a = Editor::new(0);
    let mut b = Editor::new(1);
    type_all(&mut a, "ab");
    b.receive_events_from(&mut a);
    b.insert_character('x');
    assert_eq!(text(&b), "xab");
    a.move_cursor_left();
    assert_eq!(a.cursor_position(), 1);
    a.receive_events_from(&mut b);
    assert_eq!(text(&a), "xab");
    assert_eq!(a.cursor_position(), 2);
    assert_eq!(a.cursor_moment().timestamp(), 1);
    a.insert_character('y');
    assert_eq!(text(&a), "xayb");
}

#[test]
fn cursor_keeps_its_position_when_its_anchor_is_gone() {
    let mut a = Editor::new(0);
    let mut b = Editor::new(1);
    type_all(&mut a, "ab");
    b.receive_events_from(&mut a);
    b.move_cursor_right();
    b.move_cursor_right();
    b.remove_previous_character();
    assert_eq!(text(&b), "a");
    a.receive_events_from(&mut b);
    assert_eq!(text(&a), "a");
    assert_eq!(a.cursor_position(), 2);
    assert_eq!(a.cursor_moment().timestamp(), 2);
    a.update_cursor_event_key();
    assert_eq!(a.cursor_moment().timestamp(), 2);
    a.move_cursor_right();
    assert_eq!(a.cursor_position(), 1);
    assert_eq!(a.cursor_moment().timestamp(), 1);
}

#[test]
fn update_cursor_event_key_keeps_a_valid_anchor() {
    let mut editor = Editor::new(0);
    type_all(&mut editor, "ab");
    editor.update_cursor_event_key();
    assert_eq!(editor.cursor_position(), 2);
    assert_eq!(editor.cursor_moment().timestamp(), 2);
}

#[test]
fn clear_empties_the_store_and_keeps_the_clock() {
    let mut editor = Editor::new(0);
    type_all(&mut editor, "abc");
    editor.clear();
    assert_eq!(text(&editor), "");
    assert!(editor.final_events_stream().is_empty());
    assert_eq!(editor.cursor_position(), 0);
    assert!(editor.cursor_event_key().is(&EventKey::origin()));
    assert_eq!(editor.current_timestamp(), 4);
    assert_eq!(flat(&editor).len(), 1);
    editor.insert_character('z');
    assert_eq!(text(&editor), "z");
    assert_eq!(
        flat(&editor),
        vec![(-1, 0, 1000, -1, 0, 1000, '\t'), (0, 4, 1, -1, 0, 1000, 'z')]
    );
}

#[test]
fn sender_does_not_see_later_edits_of_the_recipient() {
    let mut a = Editor::new(0);
    let mut b = Editor::new(1);
    type_all(&mut a, "a");
    a.send_events_to(&mut b);
    b.move_cursor_right();
    b.insert_character('b');
    assert_eq!(text(&b), "ab");
    assert_eq!(text(&a), "a");
}

#[test]
fn remote_delete_of_a_character_cancels_it_everywhere() {
    let mut a = Editor::new(0);
    let mut b = Editor::new(1);
    type_all(&mut a, "abc");
    a.send_events_to(&mut b);
    b.move_cursor_right();
    b.move_cursor_right();
    b.remove_previous_character();
    assert_eq!(text(&b), "ac");
    b.send_events_to(&mut a);
    assert_eq!(text(&a), "ac");
    assert_eq!(a.cursor_position(), 2);
}
