//! Two replicas that edit and exchange: what stays true of the pair
//! whatever they do, and why they show the same text once they hold the
//! same events.

use crate::cancel::lemma_insert_then_remove_shows_nothing;
use crate::content::ContentView;
use crate::content::lemma_fresh_is_empty;
use crate::convergence::agree;
use crate::convergence::in_order;
use crate::convergence::lemma_agree_is_mutual;
use crate::convergence::lemma_convergence;
use crate::convergence::lemma_merged_is_union;
use crate::convergence::lemma_sorted_is_consistent;
use crate::convergence::same_entries;
use crate::editor::EditorView;
use crate::editor::lemma_anchored_wf;
use crate::editor::lemma_cleared_wf;
use crate::editor::lemma_moved_wf;
use crate::editor::lemma_received_wf;
use crate::editor::lemma_typed_wf;
use crate::editor::made_before;
use crate::filing::Filing;
use crate::filing::holds_tied;
use crate::filing::lemma_entries_after;
use crate::filing::tied;
use crate::keys::BACKSPACE_CHARACTER;
use crate::keys::Event;
use crate::keys::origin_event;
use vstd::prelude::*;

verus! {

/// A coherent store stays coherent when it takes in an event whose key is
/// new to it.
pub proof fn lemma_new_key_keeps_coherent(store: ContentView, event: Event)
    requires
        in_order(store),
        store.coherent(),
        !holds_tied(Filing::ByKey, store.sequence, event),
    ensures
        store.with_event(event).coherent(),
        forall|entry: Event|
            #[trigger] store.with_event(event).sequence.contains(entry) <==> entry == event
                || store.sequence.contains(entry),
{
    let after = store.with_event(event);
    assert forall|entry: Event|
        (#[trigger] after.sequence.contains(entry) <==> entry == event || store.sequence.contains(
            entry,
        )) && (after.sequence.contains(entry) <==> after.causal.contains(entry)) by {
        lemma_entries_after(store.sequence, event, entry);
        lemma_entries_after(store.causal, event, entry);
        if store.sequence.contains(entry) {
            let i = choose|i: int| 0 <= i < store.sequence.len() && store.sequence[i] == entry;
            if entry.key == event.key {
                assert(tied(Filing::ByKey, store.sequence[i], event));
            }
        }
        if holds_tied(Filing::BySlot, store.causal, event) {
            let m = choose|m: int|
                0 <= m < store.causal.len() && tied(Filing::BySlot, #[trigger] store.causal[m], event);
            let held = store.causal[m];
            assert(store.causal.contains(held));
            assert(store.sequence.contains(held));
            let i = choose|i: int| 0 <= i < store.sequence.len() && store.sequence[i] == held;
            assert(tied(Filing::ByKey, store.sequence[i], event));
        }
    }
}

/// Every event in the store that carries the replica's id was made before
/// the replica's clock reached its counter.
pub open spec fn own_events_are_past(editor: EditorView, store: ContentView) -> bool {
    forall|i: int|
        0 <= i < store.sequence.len() && (#[trigger] store.sequence[i]).key.moment.editor_id
            == editor.editor_id ==> store.sequence[i].key.moment.timestamp < editor.counter
}

/// What holds of two replicas with different ids that started empty and
/// have since edited, moved their cursors, cleared their stores and
/// received from each other, in any order: both are well formed, their
/// stores are coherent and agree, and each one's clock is ahead of all of
/// its own events, wherever they are.
pub open spec fn in_step(a: EditorView, b: EditorView) -> bool {
    &&& a.wf()
    &&& b.wf()
    &&& a.editor_id != b.editor_id
    &&& a.content.coherent()
    &&& b.content.coherent()
    &&& agree(a.content, b.content)
    &&& own_events_are_past(a, b.content)
    &&& own_events_are_past(b, a.content)
}

/// Two new replicas with different ids are in step.
pub proof fn lemma_new_replicas_in_step(first: i32, second: i32)
    requires
        first != second,
    ensures
        in_step(EditorView::fresh(first), EditorView::fresh(second)),
{
    lemma_fresh_is_empty();
}

/// Being in step does not depend on the side from which the pair is seen.
pub proof fn lemma_in_step_is_mutual(a: EditorView, b: EditorView)
    requires
        in_step(a, b),
    ensures
        in_step(b, a),
{
    lemma_agree_is_mutual(a.content, b.content);
}

/// Two replicas stay in step when one of them makes an edit.
pub proof fn lemma_edit_keeps_in_step(a: EditorView, b: EditorView, character: char)
    requires
        in_step(a, b),
        a.counter < u32::MAX,
    ensures
        in_step(a.typed(character), b),
        forall|entry: Event|
            #[trigger] a.typed(character).content.sequence.contains(entry) <==> entry
                == a.next_event(character) || a.content.sequence.contains(entry),
{
    let event = a.next_event(character);
    let mine = a.content.sequence;
    let theirs = b.content.sequence;
    let now = a.typed(character).content.sequence;
    lemma_typed_wf(a, character);
    assert(!holds_tied(Filing::ByKey, mine, event)) by {
        if holds_tied(Filing::ByKey, mine, event) {
            let i = choose|i: int| 0 <= i < mine.len() && tied(Filing::ByKey, #[trigger] mine[i], event);
            assert(made_before(a.counter as int)(mine[i]));
        }
    }
    lemma_new_key_keeps_coherent(a.content, event);
    assert(now == a.content.with_event(event).sequence);
    assert forall|i: int, j: int|
        0 <= i < now.len() && 0 <= j < theirs.len() && (#[trigger] now[i]).key == (
        #[trigger] theirs[j]).key implies now[i] == theirs[j] by {
        assert(now.contains(now[i]));
        if now[i] != event {
            let k = choose|k: int| 0 <= k < mine.len() && mine[k] == now[i];
            assert(mine[k].key == theirs[j].key);
        }
    }
    assert forall|i: int|
        0 <= i < now.len() && (#[trigger] now[i]).key.moment.editor_id
            == b.editor_id implies now[i].key.moment.timestamp < b.counter by {
        assert(now.contains(now[i]));
        if now[i] != event {
            let k = choose|k: int| 0 <= k < mine.len() && mine[k] == now[i];
            assert(mine[k].key.moment.editor_id == b.editor_id);
        }
    }
}

/// Two replicas stay in step when one of them moves its cursor.
pub proof fn lemma_move_keeps_in_step(a: EditorView, b: EditorView)
    requires
        in_step(a, b),
    ensures
        in_step(a.moved_left(), b),
        in_step(a.moved_right(), b),
        in_step(a.anchored(), b),
{
    lemma_moved_wf(a);
    lemma_anchored_wf(a);
}

/// Two replicas stay in step when one of them is cleared.
pub proof fn lemma_clear_keeps_in_step(a: EditorView, b: EditorView)
    requires
        in_step(a, b),
    ensures
        in_step(a.cleared(), b),
{
    lemma_cleared_wf(a);
    lemma_fresh_is_empty();
}

/// Two replicas stay in step when one of them receives from the other, and
/// the receiver then holds every event that either of them held.
pub proof fn lemma_receive_keeps_in_step(a: EditorView, b: EditorView)
    requires
        in_step(a, b),
        a.counter < u32::MAX,
        b.counter < u32::MAX,
    ensures
        in_step(a.received(b), b),
        forall|entry: Event|
            #[trigger] a.received(b).content.sequence.contains(entry)
                <==> a.content.sequence.contains(entry) || b.content.sequence.contains(entry),
{
    let mine = a.content.sequence;
    let theirs = b.content.sequence;
    let now = a.received(b).content.sequence;
    lemma_received_wf(a, b);
    lemma_merged_is_union(a.content, b.content);
    lemma_sorted_is_consistent(theirs);
    assert forall|i: int, j: int|
        0 <= i < now.len() && 0 <= j < theirs.len() && (#[trigger] now[i]).key == (
        #[trigger] theirs[j]).key implies now[i] == theirs[j] by {
        assert(now.contains(now[i]));
        if mine.contains(now[i]) {
            let k = choose|k: int| 0 <= k < mine.len() && mine[k] == now[i];
            assert(mine[k].key == theirs[j].key);
        } else {
            let k = choose|k: int| 0 <= k < theirs.len() && theirs[k] == now[i];
            assert(theirs[k].key == theirs[j].key);
        }
    }
    assert forall|i: int|
        0 <= i < now.len() && (#[trigger] now[i]).key.moment.editor_id
            == b.editor_id implies now[i].key.moment.timestamp < b.counter by {
        assert(now.contains(now[i]));
        if mine.contains(now[i]) {
            let k = choose|k: int| 0 <= k < mine.len() && mine[k] == now[i];
            assert(mine[k].key.moment.editor_id == b.editor_id);
        } else {
            let k = choose|k: int| 0 <= k < theirs.len() && theirs[k] == now[i];
            assert(made_before(b.counter as int)(theirs[k]));
        }
    }
}

/// Two replicas that are in step and hold the same events have the same
/// store, the same visible events and the same text.
pub proof fn lemma_in_step_converge(a: EditorView, b: EditorView)
    requires
        in_step(a, b),
        same_entries(a.content.sequence, b.content.sequence),
    ensures
        a.content == b.content,
        a.stream == b.stream,
        a.content.text() == b.content.text(),
{
    lemma_convergence(a.content, b.content);
}

/// After an exchange in both directions two replicas that were in step
/// hold the same events, and so show the same text.
pub proof fn lemma_exchange_converges(a: EditorView, b: EditorView)
    requires
        in_step(a, b),
        a.counter < u32::MAX - 1,
        b.counter < u32::MAX - 1,
    ensures
        in_step(a.received(b), b.received(a.received(b))),
        a.received(b).content == b.received(a.received(b)).content,
        a.received(b).stream == b.received(a.received(b)).stream,
        a.received(b).content.text() == b.received(a.received(b)).content.text(),
{
    let first = a.received(b);
    lemma_receive_keeps_in_step(a, b);
    lemma_in_step_is_mutual(first, b);
    lemma_receive_keeps_in_step(b, first);
    let second = b.received(first);
    lemma_in_step_is_mutual(second, first);
    assert forall|entry: Event| first.content.sequence.contains(entry)
        <==> second.content.sequence.contains(entry) by {
        assert(second.content.sequence.contains(entry) <==> b.content.sequence.contains(entry)
            || first.content.sequence.contains(entry));
        assert(first.content.sequence.contains(entry) <==> a.content.sequence.contains(entry)
            || b.content.sequence.contains(entry));
    }
    lemma_in_step_converge(first, second);
}

/// A replica that receives from a new replica that has inserted a
/// character and deleted it again, and that saw nothing of it before,
/// shows nothing.
pub proof fn lemma_taken_back_for_others_too(first: i32, second: i32, character: char)
    requires
        first != second,
        character != BACKSPACE_CHARACTER,
    ensures
        EditorView::fresh(second).received(
            EditorView::fresh(first).typed(character).typed(BACKSPACE_CHARACTER),
        ).stream == Seq::<Event>::empty(),
        EditorView::fresh(second).received(
            EditorView::fresh(first).typed(character).typed(BACKSPACE_CHARACTER),
        ).content.text() == Seq::<char>::empty(),
{
    let start = EditorView::fresh(first);
    let receiver = EditorView::fresh(second);
    let once = start.typed(character);
    let sender = once.typed(BACKSPACE_CHARACTER);
    lemma_fresh_is_empty();
    lemma_new_replicas_in_step(first, second);
    lemma_edit_keeps_in_step(start, receiver, character);
    lemma_edit_keeps_in_step(once, receiver, BACKSPACE_CHARACTER);
    lemma_in_step_is_mutual(sender, receiver);
    lemma_receive_keeps_in_step(receiver, sender);
    let after = receiver.received(sender);
    assert(start.content.sequence.contains(start.content.sequence[0]));
    assert forall|entry: Event| after.content.sequence.contains(entry)
        <==> sender.content.sequence.contains(entry) by {
        if receiver.content.sequence.contains(entry) {
            let i = choose|i: int|
                0 <= i < receiver.content.sequence.len() && receiver.content.sequence[i] == entry;
            assert(entry == origin_event());
            assert(once.content.sequence.contains(entry));
        }
    }
    lemma_in_step_converge(after, sender);
    lemma_insert_then_remove_shows_nothing(first, character);
}

} // verus!
