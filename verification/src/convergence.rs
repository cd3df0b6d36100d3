//! Why replicas agree: a store is fixed by the events it holds, and taking
//! events in gives the same store whatever the order and however often they
//! come.

use crate::content::ContentView;
use crate::editor::EditorView;
use crate::editor::position_of;
use crate::filing::ahead;
use crate::filing::Filing;
use crate::filing::holds_tied;
use crate::filing::lemma_entering_keeps_sorted;
use crate::filing::lemma_entries_after;
use crate::filing::lemma_sorted_unique;
use crate::filing::sorted;
use crate::filing::tied;
use crate::keys::Event;
use crate::keys::EventKey;
use vstd::prelude::*;

verus! {

/// In a consistent list a key names one event: two entries with the same
/// key are the same event.
pub open spec fn consistent(events: Seq<Event>) -> bool {
    forall|i: int, j: int|
        0 <= i < events.len() && 0 <= j < events.len() && (#[trigger] events[i]).key == (
        #[trigger] events[j]).key ==> events[i] == events[j]
}

/// Whether two lists hold the same events.
pub open spec fn same_entries(a: Seq<Event>, b: Seq<Event>) -> bool {
    forall|event: Event| a.contains(event) <==> b.contains(event)
}

/// Both lists of the store are sorted.
pub open spec fn in_order(store: ContentView) -> bool {
    sorted(Filing::ByKey, store.sequence) && sorted(Filing::BySlot, store.causal)
}

/// A store whose lists are sorted keeps them sorted when it takes events
/// in.
pub proof fn lemma_absorb_in_order(store: ContentView, events: Seq<Event>)
    requires
        in_order(store),
    ensures
        in_order(store.absorb(events)),
    decreases events.len(),
{
    if events.len() > 0 {
        let middle = store.absorb(events.drop_last());
        lemma_absorb_in_order(store, events.drop_last());
        lemma_entering_keeps_sorted(middle.sequence, events.last());
        lemma_entering_keeps_sorted(middle.causal, events.last());
    }
}

/// What a list holds, in terms of its front and its last entry.
proof fn lemma_last_and_front(by: Filing, events: Seq<Event>, entry: Event)
    requires
        events.len() > 0,
    ensures
        events.contains(entry) <==> events.drop_last().contains(entry) || entry == events.last(),
        holds_tied(by, events, entry) <==> holds_tied(by, events.drop_last(), entry) || tied(
            by,
            events.last(),
            entry,
        ),
        consistent(events) ==> consistent(events.drop_last()),
        consistent(events) && events.drop_last().contains(entry) && entry.key == events.last().key
            ==> entry == events.last(),
{
    let front = events.drop_last();
    let end = events.len() - 1;
    assert(events[end] == events.last());
    if events.contains(entry) {
        let i = choose|i: int| 0 <= i < events.len() && events[i] == entry;
        if i < end {
            assert(front[i] == entry);
        }
    }
    if front.contains(entry) {
        let i = choose|i: int| 0 <= i < front.len() && front[i] == entry;
        assert(events[i] == entry);
        if consistent(events) && entry.key == events.last().key {
            assert(events[i] == events[end]);
        }
    }
    if holds_tied(by, events, entry) {
        let i = choose|i: int| 0 <= i < events.len() && tied(by, #[trigger] events[i], entry);
        if i < end {
            assert(tied(by, front[i], entry));
        }
    }
    if holds_tied(by, front, entry) {
        let i = choose|i: int| 0 <= i < front.len() && tied(by, #[trigger] front[i], entry);
        assert(tied(by, events[i], entry));
    }
    if consistent(events) {
        assert forall|i: int, j: int|
            0 <= i < front.len() && 0 <= j < front.len() && (#[trigger] front[i]).key == (
            #[trigger] front[j]).key implies front[i] == front[j] by {
            assert(events[i].key == events[j].key);
        }
    }
}

/// What a store holds after it has taken in a consistent list of events.
/// By key it holds the events of the list, and of its own those whose key
/// the list does not name. By place it holds its own, and of the list those
/// whose place was free.
pub proof fn lemma_absorb_entries(store: ContentView, events: Seq<Event>, entry: Event)
    requires
        in_order(store),
        consistent(events),
    ensures
        store.absorb(events).sequence.contains(entry) <==> events.contains(entry) || (
        store.sequence.contains(entry) && !holds_tied(Filing::ByKey, events, entry)),
        store.absorb(events).causal.contains(entry) <==> store.causal.contains(entry) || (
        events.contains(entry) && !holds_tied(Filing::BySlot, store.causal, entry)),
    decreases events.len(),
{
    if events.len() == 0 {
    } else {
        let front = events.drop_last();
        let last = events.last();
        let middle = store.absorb(front);
        lemma_last_and_front(Filing::ByKey, events, entry);
        lemma_absorb_in_order(store, front);
        lemma_absorb_entries(store, front, entry);
        lemma_entries_after(middle.sequence, last, entry);
        lemma_entries_after(middle.causal, last, entry);
        if entry == last && holds_tied(Filing::BySlot, middle.causal, last) {
            let k = choose|k: int|
                0 <= k < middle.causal.len() && tied(Filing::BySlot, #[trigger] middle.causal[k], last);
            let held = middle.causal[k];
            assert(middle.causal.contains(held));
            lemma_absorb_entries(store, front, held);
            lemma_last_and_front(Filing::ByKey, events, held);
            if store.causal.contains(held) {
                let m = choose|m: int| 0 <= m < store.causal.len() && store.causal[m] == held;
                assert(tied(Filing::BySlot, store.causal[m], entry));
            }
        }
        if entry == last && holds_tied(Filing::BySlot, store.causal, last) {
            let m = choose|m: int|
                0 <= m < store.causal.len() && tied(Filing::BySlot, #[trigger] store.causal[m], last);
            let held = store.causal[m];
            assert(store.causal.contains(held));
            lemma_absorb_entries(store, front, held);
            let k = choose|k: int| 0 <= k < middle.causal.len() && middle.causal[k] == held;
            assert(tied(Filing::BySlot, middle.causal[k], last));
        }
    }
}

/// A store is fixed by the events it holds: two stores whose lists are
/// sorted and hold the same events are the same store, and so have the
/// same walk, the same visible events and the same text.
pub proof fn lemma_same_entries_same_store(a: ContentView, b: ContentView)
    requires
        in_order(a),
        in_order(b),
        same_entries(a.sequence, b.sequence),
        same_entries(a.causal, b.causal),
    ensures
        a == b,
        a.flatten_all() == b.flatten_all(),
        a.final_stream() == b.final_stream(),
        a.text() == b.text(),
{
    lemma_sorted_unique(Filing::ByKey, a.sequence, b.sequence);
    lemma_sorted_unique(Filing::BySlot, a.causal, b.causal);
}

/// A list that is sorted by key is consistent, since no two of its entries
/// have the same key.
pub proof fn lemma_sorted_is_consistent(events: Seq<Event>)
    requires
        sorted(Filing::ByKey, events),
    ensures
        consistent(events),
{
    assert forall|i: int, j: int|
        0 <= i < events.len() && 0 <= j < events.len() && (#[trigger] events[i]).key == (
        #[trigger] events[j]).key implies events[i] == events[j] by {
        if i < j {
            assert(ahead(Filing::ByKey, events[i], events[j]));
        } else if j < i {
            assert(ahead(Filing::ByKey, events[j], events[i]));
        }
    }
}

/// Lists that hold the same events name the same keys and the same places.
proof fn lemma_same_entries_same_ties(by: Filing, a: Seq<Event>, b: Seq<Event>, entry: Event)
    requires
        same_entries(a, b),
    ensures
        holds_tied(by, a, entry) <==> holds_tied(by, b, entry),
{
    if holds_tied(by, a, entry) {
        let i = choose|i: int| 0 <= i < a.len() && tied(by, #[trigger] a[i], entry);
        assert(a.contains(a[i]));
        let j = choose|j: int| 0 <= j < b.len() && b[j] == a[i];
        assert(tied(by, b[j], entry));
    }
    if holds_tied(by, b, entry) {
        let i = choose|i: int| 0 <= i < b.len() && tied(by, #[trigger] b[i], entry);
        assert(b.contains(b[i]));
        let j = choose|j: int| 0 <= j < a.len() && a[j] == b[i];
        assert(tied(by, a[j], entry));
    }
}

/// An entry of a list is tied with itself, so the list names its key and
/// its place.
proof fn lemma_entry_is_held(by: Filing, events: Seq<Event>, entry: Event)
    requires
        events.contains(entry),
    ensures
        holds_tied(by, events, entry),
{
    let i = choose|i: int| 0 <= i < events.len() && events[i] == entry;
    assert(tied(by, events[i], entry));
}

/// The order in which events arrive does not matter, nor how often each
/// arrives: a store that takes in two consistent lists that hold the same
/// events ends up the same.
pub proof fn lemma_absorb_any_order(store: ContentView, first: Seq<Event>, second: Seq<Event>)
    requires
        in_order(store),
        consistent(first),
        consistent(second),
        same_entries(first, second),
    ensures
        store.absorb(first) == store.absorb(second),
{
    let a = store.absorb(first);
    let b = store.absorb(second);
    lemma_absorb_in_order(store, first);
    lemma_absorb_in_order(store, second);
    assert forall|entry: Event| a.sequence.contains(entry) <==> b.sequence.contains(entry) by {
        lemma_absorb_entries(store, first, entry);
        lemma_absorb_entries(store, second, entry);
        lemma_same_entries_same_ties(Filing::ByKey, first, second, entry);
    }
    assert forall|entry: Event| a.causal.contains(entry) <==> b.causal.contains(entry) by {
        lemma_absorb_entries(store, first, entry);
        lemma_absorb_entries(store, second, entry);
    }
    lemma_same_entries_same_store(a, b);
}

/// Taking the same events in a second time changes nothing.
pub proof fn lemma_absorb_twice(store: ContentView, events: Seq<Event>)
    requires
        in_order(store),
        consistent(events),
    ensures
        store.absorb(events).absorb(events) == store.absorb(events),
{
    let once = store.absorb(events);
    let twice = once.absorb(events);
    lemma_absorb_in_order(store, events);
    lemma_absorb_in_order(once, events);
    assert forall|entry: Event| once.sequence.contains(entry) <==> twice.sequence.contains(
        entry,
    ) by {
        lemma_absorb_entries(store, events, entry);
        lemma_absorb_entries(once, events, entry);
        if events.contains(entry) {
            lemma_entry_is_held(Filing::ByKey, events, entry);
        }
    }
    assert forall|entry: Event| once.causal.contains(entry) <==> twice.causal.contains(entry) by {
        lemma_absorb_entries(store, events, entry);
        lemma_absorb_entries(once, events, entry);
        if events.contains(entry) && !once.causal.contains(entry) {
            let m = choose|m: int|
                0 <= m < store.causal.len() && tied(Filing::BySlot, #[trigger] store.causal[m], entry);
            let held = store.causal[m];
            assert(store.causal.contains(held));
            lemma_absorb_entries(store, events, held);
            let k = choose|k: int| 0 <= k < once.causal.len() && once.causal[k] == held;
            assert(tied(Filing::BySlot, once.causal[k], entry));
        }
        if events.contains(entry) && once.causal.contains(entry) {
            lemma_entry_is_held(Filing::BySlot, once.causal, entry);
        }
    }
    lemma_same_entries_same_store(once, twice);
}

/// Receiving all that a store holds a second time changes nothing: the
/// store, its walk, its visible events and its text are as after the first
/// time.
pub proof fn lemma_merge_idempotent(receiver: ContentView, sender: ContentView)
    requires
        in_order(receiver),
        in_order(sender),
    ensures
        receiver.merged(sender).merged(sender) == receiver.merged(sender),
{
    lemma_sorted_is_consistent(sender.sequence);
    lemma_absorb_twice(receiver, sender.sequence);
}

/// Two stores agree when a key names the same event in both.
pub open spec fn agree(a: ContentView, b: ContentView) -> bool {
    forall|i: int, j: int|
        0 <= i < a.sequence.len() && 0 <= j < b.sequence.len() && (#[trigger] a.sequence[i]).key
            == (#[trigger] b.sequence[j]).key ==> a.sequence[i] == b.sequence[j]
}

/// Between coherent stores that agree, the receiver holds an event after
/// a merge, by key and by place, exactly if one of the two held it before.
proof fn lemma_union_entry(receiver: ContentView, sender: ContentView, entry: Event)
    requires
        in_order(receiver),
        in_order(sender),
        receiver.coherent(),
        sender.coherent(),
        agree(receiver, sender),
    ensures
        receiver.merged(sender).sequence.contains(entry) <==> receiver.sequence.contains(entry)
            || sender.sequence.contains(entry),
        receiver.merged(sender).causal.contains(entry) <==> receiver.sequence.contains(entry)
            || sender.sequence.contains(entry),
{
    let events = sender.sequence;
    lemma_sorted_is_consistent(events);
    lemma_absorb_entries(receiver, events, entry);
    if receiver.sequence.contains(entry) && holds_tied(Filing::ByKey, events, entry) {
        let i = choose|i: int| 0 <= i < receiver.sequence.len() && receiver.sequence[i] == entry;
        let j = choose|j: int|
            0 <= j < events.len() && tied(Filing::ByKey, #[trigger] events[j], entry);
        assert(receiver.sequence[i] == events[j]);
        assert(events.contains(entry));
    }
    if events.contains(entry) && holds_tied(Filing::BySlot, receiver.causal, entry) {
        let j = choose|j: int| 0 <= j < events.len() && events[j] == entry;
        let m = choose|m: int|
            0 <= m < receiver.causal.len() && tied(
                Filing::BySlot,
                #[trigger] receiver.causal[m],
                entry,
            );
        let held = receiver.causal[m];
        assert(receiver.causal.contains(held));
        assert(receiver.sequence.contains(held));
        let i = choose|i: int| 0 <= i < receiver.sequence.len() && receiver.sequence[i] == held;
        assert(receiver.sequence[i] == events[j]);
    }
}

/// Between coherent stores that agree, a merge is a union: the receiver
/// ends up with its own events and the sender's, and is coherent again.
pub proof fn lemma_merged_is_union(receiver: ContentView, sender: ContentView)
    requires
        in_order(receiver),
        in_order(sender),
        receiver.coherent(),
        sender.coherent(),
        agree(receiver, sender),
    ensures
        in_order(receiver.merged(sender)),
        receiver.merged(sender).coherent(),
        forall|entry: Event|
            #[trigger] receiver.merged(sender).sequence.contains(entry)
                <==> receiver.sequence.contains(entry) || sender.sequence.contains(entry),
{
    let after = receiver.merged(sender);
    lemma_absorb_in_order(receiver, sender.sequence);
    assert forall|entry: Event| #[trigger]
        after.sequence.contains(entry) <==> receiver.sequence.contains(entry)
            || sender.sequence.contains(entry) by {
        lemma_union_entry(receiver, sender, entry);
    }
    assert forall|entry: Event| after.sequence.contains(entry) <==> after.causal.contains(
        entry,
    ) by {
        lemma_union_entry(receiver, sender, entry);
    }
}

/// Agreement does not depend on the side from which it is seen.
pub proof fn lemma_agree_is_mutual(a: ContentView, b: ContentView)
    requires
        agree(a, b),
    ensures
        agree(b, a),
{
    assert forall|i: int, j: int|
        0 <= i < b.sequence.len() && 0 <= j < a.sequence.len() && (#[trigger] b.sequence[i]).key
            == (#[trigger] a.sequence[j]).key implies b.sequence[i] == a.sequence[j] by {
        assert(a.sequence[j].key == b.sequence[i].key);
    }
}

/// Between coherent stores that agree, it does not matter who receives
/// from whom: both end up with the same store.
pub proof fn lemma_merge_commutes(a: ContentView, b: ContentView)
    requires
        in_order(a),
        in_order(b),
        a.coherent(),
        b.coherent(),
        agree(a, b),
    ensures
        a.merged(b) == b.merged(a),
{
    lemma_agree_is_mutual(a, b);
    lemma_absorb_in_order(a, b.sequence);
    lemma_absorb_in_order(b, a.sequence);
    let left = a.merged(b);
    let right = b.merged(a);
    assert forall|entry: Event| left.sequence.contains(entry) <==> right.sequence.contains(
        entry,
    ) by {
        lemma_union_entry(a, b, entry);
        lemma_union_entry(b, a, entry);
    }
    assert forall|entry: Event| left.causal.contains(entry) <==> right.causal.contains(entry) by {
        lemma_union_entry(a, b, entry);
        lemma_union_entry(b, a, entry);
    }
    lemma_same_entries_same_store(left, right);
}

/// Two coherent stores that hold the same events are the same store, and
/// so have the same text.
pub proof fn lemma_convergence(a: ContentView, b: ContentView)
    requires
        in_order(a),
        in_order(b),
        a.coherent(),
        b.coherent(),
        same_entries(a.sequence, b.sequence),
    ensures
        a == b,
        a.final_stream() == b.final_stream(),
        a.text() == b.text(),
{
    assert forall|entry: Event| a.causal.contains(entry) <==> b.causal.contains(entry) by {
        assert(a.sequence.contains(entry) <==> a.causal.contains(entry));
        assert(b.sequence.contains(entry) <==> b.causal.contains(entry));
    }
    lemma_same_entries_same_store(a, b);
}

/// A cursor that has been put where its anchor is stays there when it is
/// put there again.
pub proof fn lemma_position_settles(stream: Seq<Event>, anchor: EventKey, fallback: int)
    ensures
        position_of(stream, anchor, position_of(stream, anchor, fallback)) == position_of(
            stream,
            anchor,
            fallback,
        ),
    decreases stream.len(),
{
    if stream.len() > 0 && !stream.last().key.same_edit(anchor) {
        lemma_position_settles(stream.drop_last(), anchor, fallback);
    }
}

/// A replica that receives from the same sender twice in a row has, after
/// the second time, the store, the visible events, the text and the cursor
/// that it had after the first. Only its clock has moved on.
pub proof fn lemma_receive_twice(receiver: EditorView, sender: EditorView)
    requires
        receiver.wf(),
        sender.wf(),
    ensures
        receiver.received(sender).received(sender).content == receiver.received(sender).content,
        receiver.received(sender).received(sender).stream == receiver.received(sender).stream,
        receiver.received(sender).received(sender).content.text() == receiver.received(
            sender,
        ).content.text(),
        receiver.received(sender).received(sender).position == receiver.received(sender).position,
        receiver.received(sender).received(sender).anchor == receiver.received(sender).anchor,
{
    lemma_merge_idempotent(receiver.content, sender.content);
    let once = receiver.received(sender);
    lemma_position_settles(once.stream, receiver.anchor, receiver.position);
}

} // verus!
