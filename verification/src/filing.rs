//! Ordered lists of events. A store keeps its events in two lists, one in
//! the order of their keys and one in the order of their places in the
//! causal tree; this module says what such a list is and how an event
//! enters it.

use crate::keys::Event;
use vstd::prelude::*;

verus! {

/// The two orders in which a store keeps events.
#[derive(Copy, Clone, Debug, PartialEq, Eq, Structural)]
pub enum Filing {
    /// By key: one entry for each key.
    ByKey,
    /// By cause and, under one cause, by key: one entry for each place.
    BySlot,
}

/// Whether `a` stands before `b` in the given order.
pub open spec fn ahead(by: Filing, a: Event, b: Event) -> bool {
    match by {
        Filing::ByKey => a.key.precedes(b.key),
        Filing::BySlot => a.files_before(b),
    }
}

/// Whether `a` and `b` would fill the same entry of a list in the given
/// order.
pub open spec fn tied(by: Filing, a: Event, b: Event) -> bool {
    match by {
        Filing::ByKey => a.key == b.key,
        Filing::BySlot => a.same_slot(b),
    }
}

/// A list is sorted when each entry stands before all that come after it.
/// No two entries of a sorted list are tied.
pub open spec fn sorted(by: Filing, list: Seq<Event>) -> bool {
    forall|i: int, j: int| 0 <= i < j < list.len() ==> ahead(by, #[trigger] list[i], #[trigger] list[j])
}

/// The number of entries at the front of the list that stand before the
/// event: in a sorted list, the index at which the event belongs.
pub open spec fn rank_in(by: Filing, list: Seq<Event>, event: Event) -> int
    decreases list.len(),
{
    if list.len() == 0 || !ahead(by, list[0], event) {
        0
    } else {
        1 + rank_in(by, list.drop_first(), event)
    }
}

/// Whether the entry at which the event belongs is filled by one tied with
/// it.
pub open spec fn taken(by: Filing, list: Seq<Event>, event: Event) -> bool {
    let at = rank_in(by, list, event);
    at < list.len() && tied(by, list[at], event)
}

/// The list by key after the event has entered it: the event replaces the
/// entry that has its key, or is put where it belongs.
pub open spec fn put(list: Seq<Event>, event: Event) -> Seq<Event> {
    let at = rank_in(Filing::ByKey, list, event);
    if taken(Filing::ByKey, list, event) {
        list.update(at, event)
    } else {
        list.insert(at, event)
    }
}

/// The list by place after the event has entered it: the list is left as it
/// is where the event's place is filled, and else the event is put where it
/// belongs.
pub open spec fn file(list: Seq<Event>, event: Event) -> Seq<Event> {
    let at = rank_in(Filing::BySlot, list, event);
    if taken(Filing::BySlot, list, event) {
        list
    } else {
        list.insert(at, event)
    }
}

/// Whether some entry of the list is tied with the event.
pub open spec fn holds_tied(by: Filing, list: Seq<Event>, event: Event) -> bool {
    exists|i: int| 0 <= i < list.len() && tied(by, #[trigger] list[i], event)
}

/// The rank of an event lies within the list.
pub proof fn lemma_rank_bounds(by: Filing, list: Seq<Event>, event: Event)
    ensures
        0 <= rank_in(by, list, event) <= list.len(),
    decreases list.len(),
{
    if list.len() > 0 && ahead(by, list[0], event) {
        lemma_rank_bounds(by, list.drop_first(), event);
    }
}

/// The rank of an event is the index up to which all entries stand before
/// it, and at which the entry does not.
pub proof fn lemma_rank_is(by: Filing, list: Seq<Event>, event: Event, at: int)
    requires
        0 <= at <= list.len(),
        forall|j: int| 0 <= j < at ==> ahead(by, #[trigger] list[j], event),
        at < list.len() ==> !ahead(by, list[at], event),
    ensures
        rank_in(by, list, event) == at,
    decreases list.len(),
{
    if at > 0 {
        let rest = list.drop_first();
        assert(ahead(by, list[0], event));
        assert forall|j: int| 0 <= j < at - 1 implies ahead(by, #[trigger] rest[j], event) by {
            assert(rest[j] == list[j + 1]);
        }
        if at - 1 < rest.len() {
            assert(rest[at - 1] == list[at]);
        }
        lemma_rank_is(by, rest, event, at - 1);
    }
}

/// In any list, the entries before the rank of an event stand before it, and
/// the entry at its rank does not.
pub proof fn lemma_rank_splits(by: Filing, list: Seq<Event>, event: Event)
    ensures
        0 <= rank_in(by, list, event) <= list.len(),
        forall|j: int| 0 <= j < rank_in(by, list, event) ==> ahead(by, #[trigger] list[j], event),
        rank_in(by, list, event) < list.len() ==> !ahead(
            by,
            list[rank_in(by, list, event)],
            event,
        ),
    decreases list.len(),
{
    if list.len() > 0 && ahead(by, list[0], event) {
        let rest = list.drop_first();
        lemma_rank_splits(by, rest, event);
        let at = rank_in(by, list, event);
        assert forall|j: int| 0 <= j < at implies ahead(by, #[trigger] list[j], event) by {
            if j > 0 {
                assert(list[j] == rest[j - 1]);
            }
        }
        if at < list.len() {
            assert(list[at] == rest[at - 1]);
        }
    }
}

/// Both orders are strict and total: of two events that are not tied,
/// exactly one stands before the other.
pub proof fn lemma_order_strict(by: Filing, a: Event, b: Event, c: Event)
    ensures
        !ahead(by, a, a),
        ahead(by, a, b) ==> !ahead(by, b, a) && !tied(by, a, b),
        ahead(by, a, b) && ahead(by, b, c) ==> ahead(by, a, c),
        ahead(by, a, b) || ahead(by, b, a) || tied(by, a, b),
        tied(by, a, b) ==> (ahead(by, a, c) <==> ahead(by, b, c)) && (ahead(by, c, a) <==> ahead(
            by,
            c,
            b,
        )),
{
}

/// In a sorted list the place of an event is filled exactly when some entry
/// is tied with it, and that entry stands at the event's rank.
pub proof fn lemma_taken_iff_held(by: Filing, list: Seq<Event>, event: Event)
    requires
        sorted(by, list),
    ensures
        taken(by, list, event) <==> holds_tied(by, list, event),
        forall|i: int|
            0 <= i < list.len() && tied(by, #[trigger] list[i], event) ==> i == rank_in(
                by,
                list,
                event,
            ),
{
    lemma_rank_splits(by, list, event);
    let at = rank_in(by, list, event);
    assert forall|i: int| 0 <= i < list.len() && tied(by, #[trigger] list[i], event) implies i
        == at by {
        lemma_order_strict(by, list[i], event, event);
        if i < at {
            assert(ahead(by, list[i], event));
        } else if i > at {
            lemma_order_strict(by, list[at], list[i], event);
            lemma_order_strict(by, list[i], event, list[at]);
            assert(ahead(by, list[at], list[i]));
        }
    }
    if taken(by, list, event) {
        assert(tied(by, list[at], event));
    }
}

/// A sorted list stays sorted when an event enters it.
pub proof fn lemma_entering_keeps_sorted(list: Seq<Event>, event: Event)
    ensures
        sorted(Filing::ByKey, list) ==> sorted(Filing::ByKey, put(list, event)),
        sorted(Filing::BySlot, list) ==> sorted(Filing::BySlot, file(list, event)),
{
    if sorted(Filing::ByKey, list) {
        lemma_stays_sorted(Filing::ByKey, list, event);
    }
    if sorted(Filing::BySlot, list) {
        lemma_stays_sorted(Filing::BySlot, list, event);
    }
}

proof fn lemma_stays_sorted(by: Filing, list: Seq<Event>, event: Event)
    requires
        sorted(by, list),
    ensures
        taken(by, list, event) ==> sorted(by, list.update(rank_in(by, list, event), event)),
        !taken(by, list, event) ==> sorted(by, list.insert(rank_in(by, list, event), event)),
{
    lemma_rank_splits(by, list, event);
    let at = rank_in(by, list, event);
    if taken(by, list, event) {
        let next = list.update(at, event);
        assert forall|i: int, j: int| 0 <= i < j < next.len() implies ahead(
            by,
            #[trigger] next[i],
            #[trigger] next[j],
        ) by {
            assert(ahead(by, list[i], list[j]));
            lemma_order_strict(by, list[at], event, list[j]);
            lemma_order_strict(by, list[at], event, list[i]);
        }
    } else {
        let next = list.insert(at, event);
        assert forall|i: int, j: int| 0 <= i < j < next.len() implies ahead(
            by,
            #[trigger] next[i],
            #[trigger] next[j],
        ) by {
            if j == at {
                assert(next[i] == list[i]);
            } else if i == at {
                assert(next[j] == list[j - 1]);
                lemma_order_strict(by, list[at], event, list[j - 1]);
                lemma_order_strict(by, event, list[at], list[j - 1]);
                if j - 1 > at {
                    assert(ahead(by, list[at], list[j - 1]));
                }
            } else {
                let a = if i < at { i } else { i - 1 };
                let b = if j < at { j } else { j - 1 };
                assert(next[i] == list[a]);
                assert(next[j] == list[b]);
                assert(ahead(by, list[a], list[b]));
            }
        }
    }
}

/// What a sorted list holds after an event has entered it. By key, the
/// event takes the place of the entry with its key; by place, the event
/// enters only where its place is free.
pub proof fn lemma_entries_after(list: Seq<Event>, event: Event, other: Event)
    ensures
        sorted(Filing::ByKey, list) ==> (put(list, event).contains(other) <==> other == event || (
            list.contains(other) && other.key != event.key)),
        sorted(Filing::BySlot, list) ==> (file(list, event).contains(other) <==> list.contains(
            other,
        ) || (other == event && !holds_tied(Filing::BySlot, list, event))),
{
    if sorted(Filing::ByKey, list) {
        let by = Filing::ByKey;
        lemma_taken_iff_held(by, list, event);
        lemma_rank_splits(by, list, event);
        let at = rank_in(by, list, event);
        let next = put(list, event);
        if taken(by, list, event) {
            assert(next[at] == event);
            if list.contains(other) && other.key != event.key {
                let i = choose|i: int| 0 <= i < list.len() && list[i] == other;
                assert(next[i] == other);
            }
            if next.contains(other) && other != event {
                let i = choose|i: int| 0 <= i < next.len() && next[i] == other;
                assert(list[i] == other);
                if other.key == event.key {
                    assert(tied(by, list[i], event));
                }
            }
        } else {
            assert(next[at] == event);
            if list.contains(other) {
                let i = choose|i: int| 0 <= i < list.len() && list[i] == other;
                if i < at {
                    assert(next[i] == other);
                } else {
                    assert(next[i + 1] == other);
                }
                if other.key == event.key {
                    assert(tied(by, list[i], event));
                }
            }
            if next.contains(other) && other != event {
                let i = choose|i: int| 0 <= i < next.len() && next[i] == other;
                if i < at {
                    assert(list[i] == other);
                } else {
                    assert(list[i - 1] == other);
                }
            }
        }
    }
    if sorted(Filing::BySlot, list) {
        let by = Filing::BySlot;
        lemma_taken_iff_held(by, list, event);
        lemma_rank_splits(by, list, event);
        let at = rank_in(by, list, event);
        let next = file(list, event);
        if !taken(by, list, event) {
            assert(next[at] == event);
            if list.contains(other) {
                let i = choose|i: int| 0 <= i < list.len() && list[i] == other;
                if i < at {
                    assert(next[i] == other);
                } else {
                    assert(next[i + 1] == other);
                }
            }
            if next.contains(other) && other != event {
                let i = choose|i: int| 0 <= i < next.len() && next[i] == other;
                if i < at {
                    assert(list[i] == other);
                } else {
                    assert(list[i - 1] == other);
                }
            }
        }
    }
}

/// A sorted list is fixed by what it holds: two sorted lists with the same
/// entries are the same list.
pub proof fn lemma_sorted_unique(by: Filing, a: Seq<Event>, b: Seq<Event>)
    requires
        sorted(by, a),
        sorted(by, b),
        forall|x: Event| a.contains(x) <==> b.contains(x),
    ensures
        a == b,
    decreases a.len(),
{
    if a.len() == 0 {
        if b.len() > 0 {
            assert(b.contains(b[0]));
        }
        assert(a =~= b);
    } else {
        assert(a.contains(a[0]));
        let k = choose|k: int| 0 <= k < b.len() && b[k] == a[0];
        assert(b.contains(b[0]));
        let m = choose|m: int| 0 <= m < a.len() && a[m] == b[0];
        lemma_order_strict(by, a[0], b[0], a[0]);
        if k > 0 {
            assert(ahead(by, b[0], b[k]));
            if m > 0 {
                assert(ahead(by, a[0], a[m]));
            }
        }
        assert(a[0] == b[0]);
        let ra = a.drop_first();
        let rb = b.drop_first();
        assert forall|x: Event| ra.contains(x) <==> rb.contains(x) by {
            if ra.contains(x) {
                let i = choose|i: int| 0 <= i < ra.len() && ra[i] == x;
                assert(a[i + 1] == x);
                assert(ahead(by, a[0], a[i + 1]));
                lemma_order_strict(by, a[0], x, x);
                assert(a.contains(x));
                let j = choose|j: int| 0 <= j < b.len() && b[j] == x;
                assert(rb[j - 1] == x);
            }
            if rb.contains(x) {
                let i = choose|i: int| 0 <= i < rb.len() && rb[i] == x;
                assert(b[i + 1] == x);
                assert(ahead(by, b[0], b[i + 1]));
                lemma_order_strict(by, b[0], x, x);
                assert(b.contains(x));
                let j = choose|j: int| 0 <= j < a.len() && a[j] == x;
                assert(ra[j - 1] == x);
            }
        }
        assert forall|i: int, j: int| 0 <= i < j < ra.len() implies ahead(
            by,
            #[trigger] ra[i],
            #[trigger] ra[j],
        ) by {
            assert(ahead(by, a[i + 1], a[j + 1]));
        }
        assert forall|i: int, j: int| 0 <= i < j < rb.len() implies ahead(
            by,
            #[trigger] rb[i],
            #[trigger] rb[j],
        ) by {
            assert(ahead(by, b[i + 1], b[j + 1]));
        }
        lemma_sorted_unique(by, ra, rb);
        assert(a =~= seq![a[0]] + ra);
        assert(b =~= seq![b[0]] + rb);
    }
}

/// Whether a property holds of every entry of a list.
pub open spec fn all_hold(list: Seq<Event>, property: spec_fn(Event) -> bool) -> bool {
    forall|i: int| 0 <= i < list.len() ==> property(#[trigger] list[i])
}

/// An event that enters a list brings nothing but itself: what holds of
/// the event and of every entry before holds of every entry after.
pub proof fn lemma_entering_keeps(list: Seq<Event>, event: Event, property: spec_fn(Event) -> bool)
    requires
        all_hold(list, property),
        property(event),
    ensures
        all_hold(put(list, event), property),
        all_hold(file(list, event), property),
{
    lemma_rank_bounds(Filing::ByKey, list, event);
    lemma_rank_bounds(Filing::BySlot, list, event);
    let by_key = put(list, event);
    let at = rank_in(Filing::ByKey, list, event);
    assert forall|i: int| 0 <= i < by_key.len() implies property(#[trigger] by_key[i]) by {
        if taken(Filing::ByKey, list, event) {
            if i != at {
                assert(by_key[i] == list[i]);
            }
        } else if i < at {
            assert(by_key[i] == list[i]);
        } else if i > at {
            assert(by_key[i] == list[i - 1]);
        }
    }
    let by_slot = file(list, event);
    let to = rank_in(Filing::BySlot, list, event);
    assert forall|i: int| 0 <= i < by_slot.len() implies property(#[trigger] by_slot[i]) by {
        if taken(Filing::BySlot, list, event) {
        } else if i < to {
            assert(by_slot[i] == list[i]);
        } else if i > to {
            assert(by_slot[i] == list[i - 1]);
        }
    }
}

} // verus!
