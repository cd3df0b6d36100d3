//! What an event does to the text when it arrives before the event it is
//! anchored at: nothing, until that event arrives.

use crate::content::ContentView;
use crate::content::enters;
use crate::content::probe;
use crate::convergence::in_order;
use crate::filing::Filing;
use crate::filing::ahead;
use crate::filing::lemma_entering_keeps_sorted;
use crate::filing::lemma_entries_after;
use crate::filing::lemma_rank_bounds;
use crate::filing::lemma_taken_iff_held;
use crate::filing::rank_in;
use crate::filing::sorted;
use crate::filing::tied;
use crate::keys::Event;
use crate::keys::EventKey;
use crate::keys::origin_key;
use vstd::prelude::*;

verus! {

/// An event is unanchored in a store when the store holds no event with
/// the key of its cause, and none with its own key. The root is held by
/// every store, so an event anchored at the root is never unanchored.
pub open spec fn unanchored(store: ContentView, event: Event) -> bool {
    &&& event.cause != origin_key()
    &&& event.key != origin_key()
    &&& forall|i: int|
        0 <= i < store.causal.len() ==> (#[trigger] store.causal[i]).key != event.cause
            && store.causal[i].key != event.key
    &&& forall|i: int|
        0 <= i < store.sequence.len() ==> (#[trigger] store.sequence[i]).key != event.key
}

/// In a store that is sorted by key, the event found under a key is the
/// entry with that key, and none is found exactly if no entry has it.
pub proof fn lemma_event_at_is_entry(store: ContentView, key: EventKey)
    requires
        sorted(Filing::ByKey, store.sequence),
    ensures
        match store.event_at(key) {
            Some(event) => store.sequence.contains(event) && event.key == key,
            None => forall|i: int|
                0 <= i < store.sequence.len() ==> (#[trigger] store.sequence[i]).key != key,
        },
{
    lemma_rank_bounds(Filing::ByKey, store.sequence, probe(key));
    lemma_taken_iff_held(Filing::ByKey, store.sequence, probe(key));
    if store.event_at(key) is None {
        assert forall|i: int| 0 <= i < store.sequence.len() implies (
        #[trigger] store.sequence[i]).key != key by {
            if store.sequence[i].key == key {
                assert(tied(Filing::ByKey, store.sequence[i], probe(key)));
            }
        }
    }
}

/// Adding an event leaves what is found under every other key as it was.
pub proof fn lemma_other_keys_keep_their_event(store: ContentView, event: Event, key: EventKey)
    requires
        sorted(Filing::ByKey, store.sequence),
        key != event.key,
    ensures
        store.with_event(event).event_at(key) == store.event_at(key),
{
    let after = store.with_event(event);
    lemma_entering_keeps_sorted(store.sequence, event);
    lemma_event_at_is_entry(store, key);
    lemma_event_at_is_entry(after, key);
    match store.event_at(key) {
        Some(found) => {
            lemma_entries_after(store.sequence, event, found);
            let i = choose|i: int| 0 <= i < after.sequence.len() && after.sequence[i] == found;
            match after.event_at(key) {
                Some(other) => {
                    let j = choose|j: int| 0 <= j < after.sequence.len() && after.sequence[j] == other;
                    if i < j {
                        assert(ahead(Filing::ByKey, after.sequence[i], after.sequence[j]));
                    } else if j < i {
                        assert(ahead(Filing::ByKey, after.sequence[j], after.sequence[i]));
                    }
                },
                None => {
                    assert(after.sequence[i].key != key);
                },
            }
        },
        None => {
            match after.event_at(key) {
                Some(other) => {
                    lemma_entries_after(store.sequence, event, other);
                    let j = choose|j: int| 0 <= j < store.sequence.len() && store.sequence[j] == other;
                    assert(store.sequence[j].key != key);
                },
                None => {},
            }
        },
    }
}

/// The index that an entry of the list by place has after an event has been
/// put at index `at`.
pub open spec fn shifted(from: int, at: int) -> int {
    if from < at {
        from
    } else {
        from + 1
    }
}

/// An unanchored event leaves the walk below every cause but its own and
/// its own key as it was.
pub proof fn lemma_flatten_unaffected(store: ContentView, event: Event, cause: EventKey)
    requires
        in_order(store),
        unanchored(store, event),
        cause != event.cause,
        cause != event.key,
    ensures
        store.with_event(event).flatten(cause) == store.flatten(cause),
    decreases u32::MAX - cause.moment.timestamp, store.causal.len() + 1,
{
    let after = store.with_event(event);
    let at = rank_in(Filing::BySlot, store.causal, event);
    lemma_place_is_free(store, event);
    lemma_other_keys_keep_their_event(store, event, cause);
    assert(after.head(cause) == store.head(cause));
    lemma_walk_unaffected(store, event, cause, 0);
    if at == 0 {
        assert(after.causal[0] == event);
        assert(!enters(cause, after.causal[0]));
        assert(after.walk(cause, 0) =~= after.walk(cause, 1));
    }
    assert(after.walk(cause, 0) == store.walk(cause, 0));
}

/// An unanchored event is filed where it belongs, since its place is free.
proof fn lemma_place_is_free(store: ContentView, event: Event)
    requires
        in_order(store),
        unanchored(store, event),
    ensures
        0 <= rank_in(Filing::BySlot, store.causal, event) <= store.causal.len(),
        store.with_event(event).causal == store.causal.insert(
            rank_in(Filing::BySlot, store.causal, event),
            event,
        ),
{
    lemma_rank_bounds(Filing::BySlot, store.causal, event);
}

/// An unanchored event leaves the walks below the children of every cause
/// but its own and its own key as they were.
pub proof fn lemma_walk_unaffected(store: ContentView, event: Event, cause: EventKey, from: int)
    requires
        in_order(store),
        unanchored(store, event),
        cause != event.cause,
        cause != event.key,
        0 <= from <= store.causal.len(),
    ensures
        store.with_event(event).walk(
            cause,
            shifted(from, rank_in(Filing::BySlot, store.causal, event)),
        ) == store.walk(cause, from),
    decreases u32::MAX - cause.moment.timestamp, store.causal.len() - from,
{
    let after = store.with_event(event);
    let at = rank_in(Filing::BySlot, store.causal, event);
    lemma_place_is_free(store, event);
    let to = shifted(from, at);
    if from < store.causal.len() {
        let child = store.causal[from];
        assert(after.causal[to] == child);
        if enters(cause, child) {
            lemma_flatten_unaffected(store, event, child.key);
        }
        lemma_walk_unaffected(store, event, cause, from + 1);
        if from + 1 == at {
            assert(after.causal[at] == event);
            assert(!enters(cause, after.causal[at]));
            assert(after.walk(cause, at) =~= after.walk(cause, at + 1));
        }
    }
}

/// An event that arrives before the event it is anchored at changes
/// nothing that can be seen: the walk of the tree, the visible events and
/// the text are as before. That holds of a delete whose target has not
/// arrived as of every other event.
pub proof fn lemma_unanchored_is_invisible(store: ContentView, event: Event)
    requires
        in_order(store),
        unanchored(store, event),
    ensures
        store.with_event(event).flatten_all() == store.flatten_all(),
        store.with_event(event).final_stream() == store.final_stream(),
        store.with_event(event).text() == store.text(),
{
    lemma_flatten_unaffected(store, event, origin_key());
}

} // verus!
