//! The causal store of one replica: every event it knows, the tree that
//! their causes form, and the text that the tree stands for.

use core::cmp::Ordering;
use crate::filing::ahead;
use crate::filing::all_hold;
use crate::filing::file;
use crate::filing::Filing;
use crate::filing::lemma_entering_keeps;
use crate::filing::lemma_entering_keeps_sorted;
use crate::filing::lemma_rank_bounds;
use crate::filing::lemma_rank_is;
use crate::filing::put;
use crate::filing::rank_in;
use crate::filing::sorted;
use crate::keys::BACKSPACE_CHARACTER;
use crate::keys::Event;
use crate::keys::EventKey;
use crate::keys::ORIGIN_CHARACTER;
use crate::keys::origin_event;
use crate::keys::origin_key;
use vstd::prelude::*;

verus! {

/// What a store holds, as two lists: every event once for each key, in the
/// order of the keys, and every event once for each place in the causal
/// tree, by cause and under one cause by key.
#[verifier::ext_equal]
pub struct ContentView {
    pub sequence: Seq<Event>,
    pub causal: Seq<Event>,
}

/// An event that stands for a key in a search by key.
pub open spec fn probe(key: EventKey) -> Event {
    Event { key, cause: key, character: ORIGIN_CHARACTER }
}

/// Whether a walk that stands at `cause` goes down into `child`: the child
/// is anchored at the cause, is not the root, and was made after the cause.
/// In a well-formed store the last follows from the first two.
pub open spec fn enters(cause: EventKey, child: Event) -> bool {
    child.cause == cause && !child.key.is_root() && cause.moment.timestamp
        < child.key.moment.timestamp
}

/// One step of the reduction that turns the walk of the tree into the
/// visible events: the root is passed over, a delete takes away the last
/// visible event if that is the one it was anchored at and has no effect
/// otherwise, and every other event becomes visible.
pub open spec fn step(shown: Seq<Event>, event: Event) -> Seq<Event> {
    if event.key.is_root() {
        shown
    } else if event.is_delete() {
        if shown.len() > 0 && shown.last().key.same_edit(event.cause) {
            shown.drop_last()
        } else {
            shown
        }
    } else {
        shown.push(event)
    }
}

/// The visible events of a walk: its events reduced from left to right.
pub open spec fn reduce(flat: Seq<Event>) -> Seq<Event>
    decreases flat.len(),
{
    if flat.len() == 0 {
        Seq::empty()
    } else {
        step(reduce(flat.drop_last()), flat.last())
    }
}

/// The characters of a list of events, in order.
pub open spec fn characters_of(events: Seq<Event>) -> Seq<char> {
    Seq::new(events.len(), |i: int| events[i].character)
}

impl ContentView {
    /// A store that holds the root alone.
    pub open spec fn fresh() -> ContentView {
        ContentView { sequence: seq![origin_event()], causal: seq![origin_event()] }
    }

    /// Both lists are sorted, and every event in them comes after its
    /// cause, so that the causes form a tree.
    pub open spec fn wf(self) -> bool {
        &&& sorted(Filing::ByKey, self.sequence)
        &&& sorted(Filing::BySlot, self.causal)
        &&& forall|i: int| 0 <= i < self.sequence.len() ==> (#[trigger] self.sequence[i]).follows_cause()
        &&& forall|i: int| 0 <= i < self.causal.len() ==> (#[trigger] self.causal[i]).follows_cause()
    }

    /// The two lists hold the same events: every event is filed at its
    /// place in the tree, and no place holds an event that was replaced.
    /// This holds of a store as long as no two different events with one
    /// key have reached it.
    pub open spec fn coherent(self) -> bool {
        forall|event: Event| self.sequence.contains(event) <==> self.causal.contains(event)
    }

    /// The event stored under a key, if there is one.
    pub open spec fn event_at(self, key: EventKey) -> Option<Event> {
        let at = rank_in(Filing::ByKey, self.sequence, probe(key));
        if at < self.sequence.len() && self.sequence[at].key == key {
            Some(self.sequence[at])
        } else {
            None
        }
    }

    /// The store after an event has been added: under its key the event
    /// replaces what was there, and at its place in the tree it is filed
    /// unless the place is filled.
    pub open spec fn with_event(self, event: Event) -> ContentView {
        ContentView { sequence: put(self.sequence, event), causal: file(self.causal, event) }
    }

    /// The store after the events of a list have been added, first to last.
    pub open spec fn absorb(self, events: Seq<Event>) -> ContentView
        decreases events.len(),
    {
        if events.len() == 0 {
            self
        } else {
            self.absorb(events.drop_last()).with_event(events.last())
        }
    }

    /// The store after it has received all that another store holds.
    pub open spec fn merged(self, sender: ContentView) -> ContentView {
        self.absorb(sender.sequence)
    }

    /// The event at a cause, as a list of one or none.
    pub open spec fn head(self, cause: EventKey) -> Seq<Event> {
        match self.event_at(cause) {
            Some(event) => seq![event],
            None => Seq::empty(),
        }
    }

    /// The walk of the tree below a cause, depth first: the event at the
    /// cause, then the walk below each of its children, in the order of
    /// their keys.
    pub open spec fn flatten(self, cause: EventKey) -> Seq<Event>
        decreases u32::MAX - cause.moment.timestamp, self.causal.len() + 1,
    {
        self.head(cause) + self.walk(cause, 0)
    }

    /// The walks below the children of a cause that are filed at index
    /// `from` or later, one after the other.
    pub open spec fn walk(self, cause: EventKey, from: int) -> Seq<Event>
        decreases u32::MAX - cause.moment.timestamp, self.causal.len() - from,
    {
        if from < 0 || from >= self.causal.len() {
            Seq::empty()
        } else {
            let child = self.causal[from];
            let below = if enters(cause, child) {
                self.flatten(child.key)
            } else {
                Seq::empty()
            };
            below + self.walk(cause, from + 1)
        }
    }

    /// The walk of the whole tree, from the root.
    pub open spec fn flatten_all(self) -> Seq<Event> {
        self.flatten(origin_key())
    }

    /// The visible events: the walk of the whole tree, reduced.
    pub open spec fn final_stream(self) -> Seq<Event> {
        reduce(self.flatten_all())
    }

    /// The text: the characters of the visible events.
    pub open spec fn text(self) -> Seq<char> {
        characters_of(self.final_stream())
    }
}

/// A well-formed store stays so when an event that comes after its cause
/// is added.
pub proof fn lemma_with_event_wf(store: ContentView, event: Event)
    requires
        store.wf(),
        event.follows_cause(),
    ensures
        store.with_event(event).wf(),
{
    lemma_entering_keeps_sorted(store.sequence, event);
    lemma_entering_keeps_sorted(store.causal, event);
    lemma_entering_keeps(store.sequence, event, after_cause());
    lemma_entering_keeps(store.causal, event, after_cause());
}

/// The property of coming after one's cause.
pub open spec fn after_cause() -> spec_fn(Event) -> bool {
    |event: Event| event.follows_cause()
}

/// A well-formed store stays so when it takes in a list of events that
/// come after their causes.
pub proof fn lemma_absorb_wf(store: ContentView, events: Seq<Event>)
    requires
        store.wf(),
        all_hold(events, after_cause()),
    ensures
        store.absorb(events).wf(),
    decreases events.len(),
{
    if events.len() > 0 {
        let front = events.drop_last();
        assert forall|i: int| 0 <= i < front.len() implies after_cause()(#[trigger] front[i]) by {
            assert(front[i] == events[i]);
        }
        lemma_absorb_wf(store, front);
        assert(after_cause()(events[events.len() - 1]));
        lemma_with_event_wf(store.absorb(front), events.last());
    }
}

/// What holds of every event of a store and of every event of a list holds
/// of every event of the store that has taken the list in.
pub proof fn lemma_absorb_keeps(
    store: ContentView,
    events: Seq<Event>,
    property: spec_fn(Event) -> bool,
)
    requires
        all_hold(store.sequence, property),
        all_hold(store.causal, property),
        all_hold(events, property),
    ensures
        all_hold(store.absorb(events).sequence, property),
        all_hold(store.absorb(events).causal, property),
    decreases events.len(),
{
    if events.len() > 0 {
        let front = events.drop_last();
        assert forall|i: int| 0 <= i < front.len() implies property(#[trigger] front[i]) by {
            assert(front[i] == events[i]);
        }
        lemma_absorb_keeps(store, front, property);
        assert(property(events[events.len() - 1]));
        lemma_entering_keeps(store.absorb(front).sequence, events.last(), property);
        lemma_entering_keeps(store.absorb(front).causal, events.last(), property);
    }
}

/// A walk yields stored events only: what holds of every stored event
/// holds of every event of the walk below a cause.
pub proof fn lemma_flatten_keeps(
    store: ContentView,
    cause: EventKey,
    property: spec_fn(Event) -> bool,
)
    requires
        all_hold(store.sequence, property),
    ensures
        all_hold(store.flatten(cause), property),
    decreases u32::MAX - cause.moment.timestamp, store.causal.len() + 1,
{
    lemma_rank_bounds(Filing::ByKey, store.sequence, probe(cause));
    lemma_walk_keeps(store, cause, 0, property);
}

/// What holds of every stored event holds of every event of the walks
/// below the children of a cause.
pub proof fn lemma_walk_keeps(
    store: ContentView,
    cause: EventKey,
    from: int,
    property: spec_fn(Event) -> bool,
)
    requires
        all_hold(store.sequence, property),
    ensures
        all_hold(store.walk(cause, from), property),
    decreases u32::MAX - cause.moment.timestamp, store.causal.len() - from,
{
    if 0 <= from < store.causal.len() {
        let child = store.causal[from];
        if enters(cause, child) {
            lemma_flatten_keeps(store, child.key, property);
        }
        lemma_walk_keeps(store, cause, from + 1, property);
    }
}

/// The visible events are events of the walk: what holds of every event of
/// a walk holds of every visible one.
pub proof fn lemma_reduce_keeps(flat: Seq<Event>, property: spec_fn(Event) -> bool)
    requires
        all_hold(flat, property),
    ensures
        all_hold(reduce(flat), property),
    decreases flat.len(),
{
    if flat.len() > 0 {
        let front = flat.drop_last();
        assert forall|i: int| 0 <= i < front.len() implies property(#[trigger] front[i]) by {
            assert(front[i] == flat[i]);
        }
        lemma_reduce_keeps(front, property);
        assert(property(flat[flat.len() - 1]));
    }
}

/// In a well-formed store a walk goes down into every child of a cause but
/// the root: that a child was made after its cause need not be asked.
pub proof fn lemma_every_child_is_entered(store: ContentView, cause: EventKey, at: int)
    requires
        store.wf(),
        0 <= at < store.causal.len(),
    ensures
        enters(cause, store.causal[at]) <==> store.causal[at].cause == cause
            && !store.causal[at].key.is_root(),
{
    assert(store.causal[at].follows_cause());
}

/// A store that holds the root alone has the root as its walk, and no
/// visible event and no text.
pub proof fn lemma_fresh_is_empty()
    ensures
        ContentView::fresh().wf(),
        ContentView::fresh().coherent(),
        ContentView::fresh().flatten_all() == seq![origin_event()],
        ContentView::fresh().final_stream() == Seq::<Event>::empty(),
        ContentView::fresh().text() == Seq::<char>::empty(),
{
    let store = ContentView::fresh();
    let root = origin_key();
    lemma_rank_is(Filing::ByKey, store.sequence, probe(root), 0);
    assert(store.head(root) == seq![origin_event()]);
    assert(store.walk(root, 2) == Seq::<Event>::empty());
    assert(store.walk(root, 1) == Seq::<Event>::empty());
    assert(!enters(root, store.causal[0]));
    assert(store.walk(root, 0) =~= Seq::<Event>::empty());
    assert(store.flatten(root) =~= seq![origin_event()]);
    let flat = store.flatten_all();
    assert(flat.drop_last() =~= Seq::<Event>::empty());
    assert(reduce(flat.drop_last()) == Seq::<Event>::empty());
    assert(reduce(flat) == step(reduce(flat.drop_last()), flat.last()));
    assert(store.text() =~= Seq::<char>::empty());
}

/// The causal store of one replica.
pub struct Content {
    sequence: Vec<Event>,
    causal_sets: Vec<Event>,
}

/// Whether `a` stands before `b` in the given order.
fn is_ahead(by: Filing, a: &Event, b: &Event) -> (before: bool)
    ensures
        before == ahead(by, *a, *b),
{
    match by {
        Filing::ByKey => matches!(a.key.cmp(&b.key), Ordering::Less),
        Filing::BySlot => match a.cause.cmp(&b.cause) {
            Ordering::Less => true,
            Ordering::Equal => matches!(a.key.cmp(&b.key), Ordering::Less),
            Ordering::Greater => false,
        },
    }
}

/// The index at which an event belongs in a list.
fn locate(list: &Vec<Event>, event: &Event, by: Filing) -> (at: usize)
    ensures
        at == rank_in(by, list@, *event),
        at <= list.len(),
{
    let mut at: usize = 0;
    let mut searching = true;
    while searching && at < list.len()
        invariant
            at <= list.len(),
            forall|j: int| 0 <= j < at ==> ahead(by, #[trigger] list@[j], *event),
            !searching ==> at < list.len() && !ahead(by, list@[at as int], *event),
        decreases list.len() - at + if searching { 1int } else { 0int },
    {
        if is_ahead(by, &list[at], event) {
            at += 1;
        } else {
            searching = false;
        }
    }
    proof {
        lemma_rank_is(by, list@, *event, at as int);
    }
    at
}

impl View for Content {
    type V = ContentView;

    closed spec fn view(&self) -> ContentView {
        ContentView { sequence: self.sequence@, causal: self.causal_sets@ }
    }
}

impl Content {
    /// A well-formed store can be walked: see `ContentView::wf`.
    pub open spec fn wf(&self) -> bool {
        self@.wf()
    }

    /// A store that holds the root alone.
    pub fn new() -> (content: Content)
        ensures
            content@ == ContentView::fresh(),
            content@.text() == Seq::<char>::empty(),
            content.wf(),
    {
        proof {
            lemma_fresh_is_empty();
        }
        let mut sequence: Vec<Event> = Vec::new();
        sequence.push(Event::origin());
        let mut causal_sets: Vec<Event> = Vec::new();
        causal_sets.push(Event::origin());
        let content = Content { sequence, causal_sets };
        proof {
            assert(content@.sequence =~= seq![origin_event()]);
            assert(content@.causal =~= seq![origin_event()]);
        }
        content
    }

    /// Files the event at its place in the tree, unless the place is filled.
    fn update_causal_set(&mut self, event: &Event)
        ensures
            final(self)@.causal == file(old(self)@.causal, *event),
            final(self)@.sequence == old(self)@.sequence,
    {
        let at = locate(&self.causal_sets, event, Filing::BySlot);
        let filled = at < self.causal_sets.len() && self.causal_sets[at].cause.is(&event.cause)
            && self.causal_sets[at].key.is(&event.key);
        if !filled {
            self.causal_sets.insert(at, *event);
        }
    }

    /// Adds an event to the store. Adding an event that the store holds
    /// changes nothing.
    pub fn add_event(&mut self, event: &Event)
        ensures
            final(self)@ == old(self)@.with_event(*event),
            old(self).wf() && event.follows_cause() ==> final(self).wf(),
    {
        let at = locate(&self.sequence, event, Filing::ByKey);
        if at < self.sequence.len() && self.sequence[at].key.is(&event.key) {
            self.sequence.set(at, *event);
        } else {
            self.sequence.insert(at, *event);
        }
        self.update_causal_set(event);
        proof {
            if old(self).wf() && event.follows_cause() {
                lemma_with_event_wf(old(self)@, *event);
            }
        }
    }
    /// The event stored under a key, if there is one.
    pub fn event_at(&self, key: &EventKey) -> (found: Option<Event>)
        ensures
            found == self@.event_at(*key),
    {
        let at = locate(&self.sequence, &Event::new(*key, *key, ORIGIN_CHARACTER), Filing::ByKey);
        if at < self.sequence.len() && self.sequence[at].key.is(key) {
            Some(self.sequence[at])
        } else {
            None
        }
    }

    /// Walks the tree below a cause, depth first: the event at the cause,
    /// then what lies below each of its children, in the order of their
    /// keys. The root is never entered as a child, though it is its own
    /// cause.
    pub fn flatten(&self, cause: &EventKey) -> (flat: Vec<Event>)
        requires
            self.wf(),
        ensures
            flat@ == self@.flatten(*cause),
        decreases u32::MAX - cause.moment.timestamp,
    {
        let mut flat: Vec<Event> = match self.event_at(cause) {
            Some(event) => vec![event],
            None => Vec::new(),
        };
        assert(flat@ =~= self@.head(*cause));
        let mut at: usize = 0;
        while at < self.causal_sets.len()
            invariant
                self.wf(),
                at <= self.causal_sets.len(),
                flat@ + self@.walk(*cause, at as int) == self@.flatten(*cause),
            decreases self.causal_sets.len() - at,
        {
            let child = self.causal_sets[at];
            let ghost before = flat@;
            if child.cause.is(cause) && child.key != EventKey::origin() {
                assert(self@.causal[at as int].follows_cause());
                let mut below = self.flatten(&child.key);
                flat.append(&mut below);
            }
            assert(flat@ + self@.walk(*cause, at + 1) =~= before + self@.walk(*cause, at as int));
            at += 1;
        }
        assert(flat@ + self@.walk(*cause, at as int) =~= flat@);
        flat
    }

    /// Walks the whole tree, from the root.
    pub fn flatten_all(&self) -> (flat: Vec<Event>)
        requires
            self.wf(),
        ensures
            flat@ == self@.flatten_all(),
    {
        self.flatten(&EventKey::origin())
    }

    /// The events that are visible in the text, in order: the walk of the
    /// whole tree, in which each delete has taken away the event before it
    /// if that is the one it was anchored at.
    pub fn get_final_events_stream(&self) -> (events: Vec<Event>)
        requires
            self.wf(),
        ensures
            events@ == self@.final_stream(),
    {
        let flat = self.flatten_all();
        let mut events: Vec<Event> = Vec::new();
        let mut at: usize = 0;
        while at < flat.len()
            invariant
                at <= flat.len(),
                events@ == reduce(flat@.take(at as int)),
            decreases flat.len() - at,
        {
            let event = flat[at];
            assert(flat@.take(at + 1).drop_last() =~= flat@.take(at as int));
            if event.key != EventKey::origin() {
                if event.character == BACKSPACE_CHARACTER {
                    let shown = events.len();
                    if shown > 0 && events[shown - 1].key == event.cause {
                        events.pop();
                    }
                } else {
                    events.push(event);
                }
            }
            at += 1;
        }
        assert(flat@.take(at as int) =~= flat@);
        events
    }

    /// The text of the document.
    pub fn get_characters(&self) -> (text: String)
        requires
            self.wf(),
        ensures
            text@ == self@.text(),
    {
        let events = self.get_final_events_stream();
        let mut text = String::new();
        let mut at: usize = 0;
        while at < events.len()
            invariant
                at <= events.len(),
                text@ == characters_of(events@.take(at as int)),
            decreases events.len() - at,
        {
            push_character(&mut text, events[at].character);
            assert(text@ =~= characters_of(events@.take(at + 1)));
            at += 1;
        }
        assert(events@.take(at as int) =~= events@);
        text
    }

    /// Hands every event of this store to another store. The recipient
    /// gets copies; this store is left as it is.
    pub fn send(&self, recipient: &mut Content)
        ensures
            final(recipient)@ == old(recipient)@.merged(self@),
            self.wf() && old(recipient).wf() ==> final(recipient).wf(),
    {
        let mut at: usize = 0;
        while at < self.sequence.len()
            invariant
                at <= self.sequence.len(),
                recipient@ == old(recipient)@.absorb(self@.sequence.take(at as int)),
                self.wf() && old(recipient).wf() ==> recipient.wf(),
            decreases self.sequence.len() - at,
        {
            let event = &self.sequence[at];
            assert(self@.sequence.take(at + 1).drop_last() =~= self@.sequence.take(at as int));
            recipient.add_event(&Event::new(event.key, event.cause, event.character));
            at += 1;
        }
        assert(self@.sequence.take(at as int) =~= self@.sequence);
    }

    /// The walk of the whole tree, for display.
    pub fn get_flat_sequence(&self) -> (flat: Vec<Event>)
        requires
            self.wf(),
        ensures
            flat@ == self@.flatten_all(),
    {
        self.flatten_all()
    }
}

/// Appends one character to a string, by `String::push` of the standard
/// library: the string is as before, with the character at its end.
#[verifier::external_body]
fn push_character(text: &mut String, character: char)
    ensures
        final(text)@ == old(text)@.push(character),
{
    text.push(character);
}

} // verus!
