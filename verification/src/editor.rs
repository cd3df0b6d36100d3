//! One replica's editing session: its clock, its cursor, its store and the
//! visible events of the store, kept up to date after every change.

use crate::content::Content;
use crate::content::ContentView;
use crate::content::lemma_absorb_keeps;
use crate::content::lemma_absorb_wf;
use crate::content::lemma_flatten_keeps;
use crate::content::lemma_fresh_is_empty;
use crate::content::lemma_reduce_keeps;
use crate::content::lemma_with_event_wf;
use crate::filing::all_hold;
use crate::filing::lemma_entering_keeps;
use crate::keys::BACKSPACE_CHARACTER;
use crate::keys::DELETE_PRIORITY;
use crate::keys::Event;
use crate::keys::EventKey;
use crate::keys::INSERT_PRIORITY;
use crate::keys::Moment;
use crate::keys::origin_event;
use crate::keys::origin_key;
use vstd::prelude::*;

verus! {

/// Where the next edit of a replica goes: a position in the text, and the
/// event after which an insertion there is anchored.
#[derive(Copy, Clone, Debug)]
pub struct Cursor {
    pub position: usize,
    pub event_key: EventKey,
}

/// The state of a replica.
#[verifier::ext_equal]
pub struct EditorView {
    pub editor_id: i32,
    /// The counter that the next edit of this replica gets.
    pub counter: u32,
    /// The cursor's position: the number of visible events before it.
    pub position: int,
    /// The key of the event at which the cursor is anchored.
    pub anchor: EventKey,
    pub content: ContentView,
    /// The visible events, as last derived from the store.
    pub stream: Seq<Event>,
}

/// The priority that an edit with the given character gets.
pub open spec fn priority_of(character: char) -> u32 {
    if character == BACKSPACE_CHARACTER {
        DELETE_PRIORITY
    } else {
        INSERT_PRIORITY
    }
}

/// The anchor of a cursor at a position: the root at position 0, and else
/// the visible event just before the position. Where the text is too short
/// to have one, the anchor stays what it was.
pub open spec fn anchor_at(stream: Seq<Event>, position: int, anchor: EventKey) -> EventKey {
    if position == 0 {
        origin_key()
    } else if 0 < position <= stream.len() {
        stream[position - 1].key
    } else {
        anchor
    }
}

/// The position of a cursor that is anchored at a key: just after the last
/// visible event that the key names. Where the key names none, the position
/// is the fallback.
pub open spec fn position_of(stream: Seq<Event>, anchor: EventKey, fallback: int) -> int
    decreases stream.len(),
{
    if stream.len() == 0 {
        fallback
    } else if stream.last().key.same_edit(anchor) {
        stream.len() as int
    } else {
        position_of(stream.drop_last(), anchor, fallback)
    }
}

/// The property of having been made before a clock reached a counter.
pub open spec fn made_before(counter: int) -> spec_fn(Event) -> bool {
    |event: Event| event.key.moment.timestamp < counter
}

/// The property of being the root, for an event that has the moment of the
/// root.
pub open spec fn rooted() -> spec_fn(Event) -> bool {
    |event: Event| event.key.is_root() ==> event == origin_event()
}

impl EditorView {
    /// A replica that has made and seen nothing.
    pub open spec fn fresh(editor_id: i32) -> EditorView {
        EditorView {
            editor_id,
            counter: 1,
            position: 0,
            anchor: origin_key(),
            content: ContentView::fresh(),
            stream: ContentView::fresh().final_stream(),
        }
    }

    /// The store is well formed, the visible events are those of the store,
    /// the clock is ahead of every event in the store and of the cursor's
    /// anchor, and the store holds no event with the moment of the root but
    /// the root.
    pub open spec fn wf(self) -> bool {
        &&& self.content.wf()
        &&& self.stream == self.content.final_stream()
        &&& all_hold(self.content.sequence, made_before(self.counter as int))
        &&& all_hold(self.content.causal, made_before(self.counter as int))
        &&& all_hold(self.content.sequence, rooted())
        &&& all_hold(self.content.causal, rooted())
        &&& self.anchor.moment.timestamp < self.counter
        &&& 0 <= self.position
    }

    /// The key that the next edit gets.
    pub open spec fn next_key(self, character: char) -> EventKey {
        EventKey {
            moment: Moment { editor_id: self.editor_id, timestamp: self.counter },
            priority: priority_of(character),
        }
    }

    /// The event that the next edit makes: it is anchored at the cursor.
    pub open spec fn next_event(self, character: char) -> Event {
        Event { key: self.next_key(character), cause: self.anchor, character }
    }

    /// The replica after the event of an edit has been added to its store:
    /// the clock has moved on and the visible events are derived anew.
    pub open spec fn recorded(self, character: char) -> EditorView {
        let content = self.content.with_event(self.next_event(character));
        EditorView {
            counter: (self.counter + 1) as u32,
            content,
            stream: content.final_stream(),
            ..self
        }
    }

    /// The replica with its cursor anchored anew for its position.
    pub open spec fn anchored(self) -> EditorView {
        EditorView { anchor: anchor_at(self.stream, self.position, self.anchor), ..self }
    }

    /// The replica after its cursor has moved one place to the right, but
    /// not past the end of the text.
    pub open spec fn moved_right(self) -> EditorView {
        let position = if self.position + 1 <= self.stream.len() {
            self.position + 1
        } else {
            self.stream.len() as int
        };
        (EditorView { position, ..self }).anchored()
    }

    /// The replica after its cursor has moved one place to the left, if it
    /// was not at the start.
    pub open spec fn moved_left(self) -> EditorView {
        if self.position >= 1 {
            (EditorView { position: self.position - 1, ..self }).anchored()
        } else {
            self
        }
    }

    /// The replica after an edit at the cursor: the event is recorded, and
    /// the cursor moves left after a delete and right after an insertion.
    pub open spec fn typed(self, character: char) -> EditorView {
        if character == BACKSPACE_CHARACTER {
            self.recorded(character).moved_left()
        } else {
            self.recorded(character).moved_right()
        }
    }

    /// The replica after it has received all that another replica holds:
    /// its store has taken in the sender's, the cursor stays with its
    /// anchor, and the clock is ahead of both clocks.
    pub open spec fn received(self, sender: EditorView) -> EditorView {
        let content = self.content.merged(sender.content);
        let stream = content.final_stream();
        let later = if sender.counter > self.counter {
            sender.counter
        } else {
            self.counter
        };
        EditorView {
            counter: (later + 1) as u32,
            position: position_of(stream, self.anchor, self.position),
            content,
            stream,
            ..self
        }
    }

    /// The replica after its store has been emptied: the cursor is at the
    /// start, and the clock is as it was.
    pub open spec fn cleared(self) -> EditorView {
        EditorView {
            position: 0,
            anchor: origin_key(),
            content: ContentView::fresh(),
            stream: ContentView::fresh().final_stream(),
            ..self
        }
    }
}

/// One replica's editing session.
pub struct Editor {
    editor_id: i32,
    current_timestamp: u32,
    cursor: Cursor,
    content: Content,
    final_events_stream: Vec<Event>,
}

impl View for Editor {
    type V = EditorView;

    closed spec fn view(&self) -> EditorView {
        EditorView {
            editor_id: self.editor_id,
            counter: self.current_timestamp,
            position: self.cursor.position as int,
            anchor: self.cursor.event_key,
            content: self.content@,
            stream: self.final_events_stream@,
        }
    }
}

impl Editor {
    /// See `EditorView::wf`.
    pub open spec fn wf(&self) -> bool {
        self@.wf()
    }

    /// A replica with the given id that has made and seen nothing.
    pub fn new(editor_id: i32) -> (editor: Editor)
        ensures
            editor@ == EditorView::fresh(editor_id),
            editor@.stream == Seq::<Event>::empty(),
            editor.wf(),
    {
        proof {
            lemma_fresh_is_empty();
        }
        let content = Content::new();
        let final_events_stream = content.get_final_events_stream();
        Editor {
            editor_id,
            current_timestamp: 1,
            cursor: Cursor { position: 0, event_key: EventKey::origin() },
            content,
            final_events_stream,
        }
    }

    pub fn editor_id(&self) -> (id: i32)
        ensures
            id == self@.editor_id,
    {
        self.editor_id
    }

    /// The counter that the next edit of this replica gets.
    pub fn current_timestamp(&self) -> (counter: u32)
        ensures
            counter == self@.counter,
    {
        self.current_timestamp
    }

    pub fn cursor_position(&self) -> (position: usize)
        ensures
            position == self@.position,
    {
        self.cursor.position
    }

    /// The key of the event at which the cursor is anchored.
    pub fn cursor_event_key(&self) -> (key: EventKey)
        ensures
            key == self@.anchor,
    {
        self.cursor.event_key
    }

    /// The moment of the event at which the cursor is anchored.
    pub fn cursor_moment(&self) -> (moment: Moment)
        ensures
            moment == self@.anchor.moment,
    {
        self.cursor.event_key.moment
    }

    pub fn content(&self) -> (content: &Content)
        ensures
            content@ == self@.content,
    {
        &self.content
    }

    /// The visible events, as last derived from the store.
    pub fn final_events_stream(&self) -> (stream: &Vec<Event>)
        ensures
            stream@ == self@.stream,
    {
        &self.final_events_stream
    }

    /// Takes the next counter from the clock.
    fn next_timestamp(&mut self) -> (timestamp: u32)
        requires
            old(self)@.counter < u32::MAX,
        ensures
            timestamp == old(self)@.counter,
            final(self)@ == (EditorView { counter: (old(self)@.counter + 1) as u32, ..old(self)@ }),
    {
        let timestamp = self.current_timestamp;
        self.current_timestamp += 1;
        timestamp
    }

    /// Takes the next moment from the clock.
    fn next_moment(&mut self) -> (moment: Moment)
        requires
            old(self)@.counter < u32::MAX,
        ensures
            moment == old(self)@.next_key(' ').moment,
            final(self)@ == (EditorView { counter: (old(self)@.counter + 1) as u32, ..old(self)@ }),
    {
        Moment { editor_id: self.editor_id, timestamp: self.next_timestamp() }
    }

    /// Makes the key of the next edit.
    fn next_event_key(&mut self, character: char) -> (key: EventKey)
        requires
            old(self)@.counter < u32::MAX,
        ensures
            key == old(self)@.next_key(character),
            final(self)@ == (EditorView { counter: (old(self)@.counter + 1) as u32, ..old(self)@ }),
    {
        EventKey {
            moment: self.next_moment(),
            priority: match character {
                BACKSPACE_CHARACTER => DELETE_PRIORITY,
                _ => INSERT_PRIORITY,
            },
        }
    }
    /// Records an edit at the cursor in the store and derives the visible
    /// events anew.
    fn add_to_content(&mut self, character: char)
        requires
            old(self).wf(),
            old(self)@.counter < u32::MAX,
        ensures
            final(self)@ == old(self)@.recorded(character),
            final(self).wf(),
    {
        let key = self.next_event_key(character);
        let event = Event { key, cause: self.cursor.event_key, character };
        proof {
            lemma_recorded_wf(old(self)@, character);
        }
        self.content.add_event(&event);
        self.final_events_stream = self.content.get_final_events_stream();
    }

    /// Makes an edit at the cursor: an insertion of the character, after
    /// which the cursor stands to the right of it, or, for the delete
    /// character, a deletion of the character before the cursor, after which
    /// the cursor stands one place to the left.
    pub fn insert_character(&mut self, character: char)
        requires
            old(self).wf(),
            old(self)@.counter < u32::MAX,
        ensures
            final(self)@ == old(self)@.typed(character),
            final(self).wf(),
    {
        self.add_to_content(character);
        if character == BACKSPACE_CHARACTER {
            self.move_cursor_left();
        } else {
            self.move_cursor_right();
        }
    }

    /// Deletes the character before the cursor.
    pub fn remove_previous_character(&mut self)
        requires
            old(self).wf(),
            old(self)@.counter < u32::MAX,
        ensures
            final(self)@ == old(self)@.typed(BACKSPACE_CHARACTER),
            final(self).wf(),
    {
        self.insert_character(BACKSPACE_CHARACTER);
    }

    /// Anchors the cursor anew for its position.
    pub fn update_cursor_event_key(&mut self)
        requires
            old(self).wf(),
        ensures
            final(self)@ == old(self)@.anchored(),
            final(self).wf(),
    {
        proof {
            lemma_anchored_wf(self@);
        }
        let position = self.cursor.position;
        if position == 0 {
            self.cursor.event_key = EventKey::origin();
        } else if position - 1 < self.final_events_stream.len() {
            self.cursor.event_key = self.final_events_stream[position - 1].key;
        }
    }

    /// Moves the cursor one place to the right, but not past the end of the
    /// text.
    pub fn move_cursor_right(&mut self)
        requires
            old(self).wf(),
        ensures
            final(self)@ == old(self)@.moved_right(),
            final(self).wf(),
    {
        if self.cursor.position < self.final_events_stream.len() {
            self.cursor.position = self.cursor.position + 1;
        } else {
            self.cursor.position = self.final_events_stream.len();
        }
        self.update_cursor_event_key();
    }

    /// Moves the cursor one place to the left, if it is not at the start.
    pub fn move_cursor_left(&mut self)
        requires
            old(self).wf(),
        ensures
            final(self)@ == old(self)@.moved_left(),
            final(self).wf(),
    {
        if self.cursor.position >= 1 {
            self.cursor.position = self.cursor.position - 1;
            self.update_cursor_event_key();
        }
    }

    /// Empties the store and puts the cursor at the start. The clock goes
    /// on from where it was.
    pub fn clear(&mut self)
        requires
            old(self).wf(),
        ensures
            final(self)@ == old(self)@.cleared(),
            final(self)@.stream == Seq::<Event>::empty(),
            final(self).wf(),
    {
        proof {
            lemma_fresh_is_empty();
        }
        self.content = Content::new();
        self.final_events_stream = self.content.get_final_events_stream();
        self.cursor = Cursor { position: 0, event_key: EventKey::origin() };
    }

    /// Puts the cursor just after the visible event that its anchor names,
    /// and leaves it where it is if the anchor names none.
    fn find_and_set_new_cursor_position(&mut self)
        ensures
            final(self)@ == (EditorView {
                position: position_of(old(self)@.stream, old(self)@.anchor, old(self)@.position),
                ..old(self)@
            }),
    {
        let mut at: usize = 0;
        while at < self.final_events_stream.len()
            invariant
                at <= self.final_events_stream.len(),
                self@ == (EditorView {
                    position: position_of(
                        old(self)@.stream.take(at as int),
                        old(self)@.anchor,
                        old(self)@.position,
                    ),
                    ..old(self)@
                }),
            decreases self.final_events_stream.len() - at,
        {
            assert(self@.stream.take(at + 1).drop_last() =~= self@.stream.take(at as int));
            if self.final_events_stream[at].key == self.cursor.event_key {
                self.cursor.position = at + 1;
            }
            at += 1;
        }
        assert(self@.stream.take(at as int) =~= self@.stream);
    }

    /// Takes in all that another replica holds. The text is derived anew,
    /// the cursor stays with its anchor, and the clock is set ahead of both
    /// replicas' clocks.
    pub fn receive_events_from(&mut self, sender: &mut Editor)
        requires
            old(self).wf(),
            old(sender).wf(),
            old(self)@.counter < u32::MAX,
            old(sender)@.counter < u32::MAX,
        ensures
            final(self)@ == old(self)@.received(old(sender)@),
            final(self).wf(),
            final(sender)@ == old(sender)@,
            final(sender).wf(),
    {
        let later = if sender.current_timestamp > self.current_timestamp {
            sender.current_timestamp
        } else {
            self.current_timestamp
        };
        proof {
            lemma_received_wf(self@, sender@);
        }
        sender.content.send(&mut self.content);
        self.final_events_stream = self.content.get_final_events_stream();
        self.find_and_set_new_cursor_position();
        self.current_timestamp = 1 + later;
    }

    /// Hands all that this replica holds to another replica.
    pub fn send_events_to(&mut self, recipient: &mut Editor)
        requires
            old(self).wf(),
            old(recipient).wf(),
            old(self)@.counter < u32::MAX,
            old(recipient)@.counter < u32::MAX,
        ensures
            final(recipient)@ == old(recipient)@.received(old(self)@),
            final(recipient).wf(),
            final(self)@ == old(self)@,
            final(self).wf(),
    {
        recipient.receive_events_from(self);
    }
}

/// A replica stays well formed when it records an edit.
pub proof fn lemma_recorded_wf(editor: EditorView, character: char)
    requires
        editor.wf(),
        editor.counter < u32::MAX,
    ensures
        editor.recorded(character).wf(),
{
    let event = editor.next_event(character);
    let later = made_before(editor.counter + 1);
    lemma_with_event_wf(editor.content, event);
    lemma_entering_keeps(editor.content.sequence, event, later);
    lemma_entering_keeps(editor.content.causal, event, later);
    lemma_entering_keeps(editor.content.sequence, event, rooted());
    lemma_entering_keeps(editor.content.causal, event, rooted());
}

/// A replica stays well formed when its cursor is anchored anew.
pub proof fn lemma_anchored_wf(editor: EditorView)
    requires
        editor.wf(),
    ensures
        editor.anchored().wf(),
{
    lemma_stream_made_before(editor);
}

/// A replica stays well formed when its cursor moves.
pub proof fn lemma_moved_wf(editor: EditorView)
    requires
        editor.wf(),
    ensures
        editor.moved_left().wf(),
        editor.moved_right().wf(),
{
    if editor.position >= 1 {
        lemma_anchored_wf(EditorView { position: editor.position - 1, ..editor });
    }
    let position = if editor.position + 1 <= editor.stream.len() {
        editor.position + 1
    } else {
        editor.stream.len() as int
    };
    lemma_anchored_wf(EditorView { position, ..editor });
}

/// A replica stays well formed when it makes an edit.
pub proof fn lemma_typed_wf(editor: EditorView, character: char)
    requires
        editor.wf(),
        editor.counter < u32::MAX,
    ensures
        editor.typed(character).wf(),
{
    lemma_recorded_wf(editor, character);
    lemma_moved_wf(editor.recorded(character));
}

/// A replica stays well formed when it receives from another.
pub proof fn lemma_received_wf(receiver: EditorView, sender: EditorView)
    requires
        receiver.wf(),
        sender.wf(),
        receiver.counter < u32::MAX,
        sender.counter < u32::MAX,
    ensures
        receiver.received(sender).wf(),
{
    let later = if sender.counter > receiver.counter {
        sender.counter
    } else {
        receiver.counter
    };
    lemma_absorb_wf(receiver.content, sender.content.sequence);
    lemma_absorb_keeps(receiver.content, sender.content.sequence, made_before(later + 1));
    lemma_absorb_keeps(receiver.content, sender.content.sequence, rooted());
    lemma_position_kept(
        receiver.received(sender).stream,
        receiver.anchor,
        receiver.position,
    );
}

/// The position found for an anchor is not negative if the fallback is not.
proof fn lemma_position_kept(stream: Seq<Event>, anchor: EventKey, fallback: int)
    requires
        0 <= fallback,
    ensures
        0 <= position_of(stream, anchor, fallback),
    decreases stream.len(),
{
    if stream.len() > 0 && !stream.last().key.same_edit(anchor) {
        lemma_position_kept(stream.drop_last(), anchor, fallback);
    }
}

/// A replica stays well formed when it is cleared.
pub proof fn lemma_cleared_wf(editor: EditorView)
    requires
        editor.wf(),
    ensures
        editor.cleared().wf(),
{
    lemma_fresh_is_empty();
}

/// Every visible event of a well-formed replica was made before its clock
/// reached its counter.
pub proof fn lemma_stream_made_before(editor: EditorView)
    requires
        editor.wf(),
    ensures
        all_hold(editor.stream, made_before(editor.counter as int)),
{
    let bound = made_before(editor.counter as int);
    lemma_flatten_keeps(editor.content, origin_key(), bound);
    lemma_reduce_keeps(editor.content.flatten_all(), bound);
}

} // verus!
