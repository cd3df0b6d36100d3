//! Why a delete takes back the insertion it is anchored at: when both are
//! new to a store and nothing else is anchored at either, the store shows
//! after the two what it showed before.

use crate::content::ContentView;
use crate::content::enters;
use crate::content::lemma_fresh_is_empty;
use crate::content::probe;
use crate::content::reduce;
use crate::content::step;
use crate::convergence::in_order;
use crate::editor::EditorView;
use crate::editor::made_before;
use crate::editor::rooted;
use crate::filing::Filing;
use crate::filing::lemma_entering_keeps_sorted;
use crate::filing::lemma_entries_after;
use crate::filing::lemma_rank_bounds;
use crate::filing::lemma_rank_is;
use crate::filing::rank_in;
use crate::keys::BACKSPACE_CHARACTER;
use crate::keys::Event;
use crate::keys::EventKey;
use crate::keys::origin_event;
use crate::keys::origin_key;
use crate::visibility::lemma_event_at_is_entry;
use crate::visibility::lemma_other_keys_keep_their_event;
use vstd::prelude::*;

verus! {

/// The visible events after a walk has been reduced onto events that are
/// visible already.
pub open spec fn reduce_onto(shown: Seq<Event>, flat: Seq<Event>) -> Seq<Event>
    decreases flat.len(),
{
    if flat.len() == 0 {
        shown
    } else {
        step(reduce_onto(shown, flat.drop_last()), flat.last())
    }
}

/// To reduce a walk is to reduce it onto nothing.
pub proof fn lemma_reduce_starts_empty(flat: Seq<Event>)
    ensures
        reduce(flat) == reduce_onto(Seq::empty(), flat),
    decreases flat.len(),
{
    if flat.len() > 0 {
        lemma_reduce_starts_empty(flat.drop_last());
    }
}

/// A walk in two parts is reduced part by part.
pub proof fn lemma_reduce_in_parts(shown: Seq<Event>, first: Seq<Event>, second: Seq<Event>)
    ensures
        reduce_onto(shown, first + second) == reduce_onto(reduce_onto(shown, first), second),
    decreases second.len(),
{
    if second.len() == 0 {
        assert(first + second =~= first);
    } else {
        assert((first + second).drop_last() =~= first + second.drop_last());
        lemma_reduce_in_parts(shown, first, second.drop_last());
    }
}

/// A store holds nothing with the key of the event, and nothing that is
/// anchored at it.
pub open spec fn new_to(store: ContentView, event: Event) -> bool {
    &&& forall|i: int|
        0 <= i < store.sequence.len() ==> (#[trigger] store.sequence[i]).key != event.key
    &&& forall|i: int|
        0 <= i < store.causal.len() ==> (#[trigger] store.causal[i]).key != event.key
            && store.causal[i].cause != event.key
}

/// An insertion and a delete that is anchored at it and was made after it,
/// both new to the store.
pub open spec fn cancelling(store: ContentView, insert: Event, delete: Event) -> bool {
    &&& !insert.is_delete()
    &&& !insert.key.is_root()
    &&& insert.cause.moment.timestamp < insert.key.moment.timestamp
    &&& delete.is_delete()
    &&& !delete.key.is_root()
    &&& delete.cause == insert.key
    &&& insert.key.moment.timestamp < delete.key.moment.timestamp
    &&& new_to(store, insert)
    &&& new_to(store, delete)
}

/// The store after the insertion and the delete have been added.
pub open spec fn with_both(store: ContentView, insert: Event, delete: Event) -> ContentView {
    store.with_event(insert).with_event(delete)
}

/// Where the delete is filed in the list by place.
pub open spec fn place_of_delete(store: ContentView, insert: Event, delete: Event) -> int {
    rank_in(Filing::BySlot, store.with_event(insert).causal, delete)
}

/// Where the insertion is filed in the list by place, once the delete is
/// filed too.
pub open spec fn place_of_insert(store: ContentView, insert: Event, delete: Event) -> int {
    let at = rank_in(Filing::BySlot, store.causal, insert);
    if place_of_delete(store, insert, delete) <= at {
        at + 1
    } else {
        at
    }
}

/// The index that an entry had before two events were filed at the places
/// `first` and `second`.
pub open spec fn back(index: int, first: int, second: int) -> int {
    index - (if first < index {
        1int
    } else {
        0int
    }) - (if second < index {
        1int
    } else {
        0int
    })
}

/// Where the two events are filed, and that every other entry is one of
/// the store before.
proof fn lemma_places(store: ContentView, insert: Event, delete: Event)
    requires
        in_order(store),
        cancelling(store, insert, delete),
    ensures
        in_order(store.with_event(insert)),
        in_order(with_both(store, insert, delete)),
        with_both(store, insert, delete).causal.len() == store.causal.len() + 2,
        0 <= place_of_insert(store, insert, delete) < store.causal.len() + 2,
        0 <= place_of_delete(store, insert, delete) < store.causal.len() + 2,
        place_of_insert(store, insert, delete) != place_of_delete(store, insert, delete),
        with_both(store, insert, delete).causal[place_of_insert(store, insert, delete)] == insert,
        with_both(store, insert, delete).causal[place_of_delete(store, insert, delete)] == delete,
        forall|i: int|
            0 <= i < store.causal.len() + 2 && i != place_of_insert(store, insert, delete) && i
                != place_of_delete(store, insert, delete) ==> 0 <= back(
                i,
                place_of_insert(store, insert, delete),
                place_of_delete(store, insert, delete),
            ) < store.causal.len() && #[trigger] with_both(store, insert, delete).causal[i]
                == store.causal[back(
                i,
                place_of_insert(store, insert, delete),
                place_of_delete(store, insert, delete),
            )],
{
    let middle = store.with_event(insert);
    let after = with_both(store, insert, delete);
    let at = rank_in(Filing::BySlot, store.causal, insert);
    let pd = place_of_delete(store, insert, delete);
    let px = place_of_insert(store, insert, delete);
    lemma_rank_bounds(Filing::BySlot, store.causal, insert);
    lemma_rank_bounds(Filing::BySlot, middle.causal, delete);
    lemma_entering_keeps_sorted(store.sequence, insert);
    lemma_entering_keeps_sorted(store.causal, insert);
    lemma_entering_keeps_sorted(middle.sequence, delete);
    lemma_entering_keeps_sorted(middle.causal, delete);
    assert(middle.causal == store.causal.insert(at, insert));
    if pd < middle.causal.len() {
        if pd == at {
            assert(middle.causal[pd] == insert);
        } else if pd < at {
            assert(middle.causal[pd] == store.causal[pd]);
        } else {
            assert(middle.causal[pd] == store.causal[pd - 1]);
        }
    }
    assert(after.causal == middle.causal.insert(pd, delete));
    assert forall|i: int| 0 <= i < store.causal.len() + 2 && i != px && i != pd implies 0 <= back(
        i,
        px,
        pd,
    ) < store.causal.len() && #[trigger] after.causal[i] == store.causal[back(i, px, pd)] by {
        if i < pd {
            assert(after.causal[i] == middle.causal[i]);
        } else {
            assert(after.causal[i] == middle.causal[i - 1]);
        }
    }
}

/// Below a cause at which nothing is anchored there is nothing to walk.
pub proof fn lemma_walk_without_children(store: ContentView, cause: EventKey, from: int)
    requires
        forall|i: int| 0 <= i < store.causal.len() ==> (#[trigger] store.causal[i]).cause != cause,
    ensures
        store.walk(cause, from) == Seq::<Event>::empty(),
    decreases store.causal.len() - from,
{
    if 0 <= from < store.causal.len() {
        lemma_walk_without_children(store, cause, from + 1);
        assert(!enters(cause, store.causal[from]));
        assert(store.walk(cause, from) =~= Seq::<Event>::empty());
    }
}

/// The event that was added last under a key is the one found there.
pub proof fn lemma_added_is_found(store: ContentView, event: Event)
    requires
        in_order(store),
    ensures
        store.with_event(event).event_at(event.key) == Some(event),
{
    let after = store.with_event(event);
    lemma_entering_keeps_sorted(store.sequence, event);
    lemma_event_at_is_entry(after, event.key);
    lemma_entries_after(store.sequence, event, event);
    match after.event_at(event.key) {
        Some(found) => {
            lemma_entries_after(store.sequence, event, found);
        },
        None => {
            let i = choose|i: int| 0 <= i < after.sequence.len() && after.sequence[i] == event;
            assert(after.sequence[i].key == event.key);
        },
    }
}

/// The walk below the delete is the delete alone, and the walk below the
/// insertion is the insertion and then the delete.
proof fn lemma_walk_of_the_pair(store: ContentView, insert: Event, delete: Event)
    requires
        in_order(store),
        cancelling(store, insert, delete),
    ensures
        with_both(store, insert, delete).flatten(delete.key) == seq![delete],
        with_both(store, insert, delete).flatten(insert.key) == seq![insert, delete],
{
    let middle = store.with_event(insert);
    let after = with_both(store, insert, delete);
    lemma_places(store, insert, delete);
    lemma_added_is_found(middle, delete);
    lemma_added_is_found(store, insert);
    lemma_other_keys_keep_their_event(middle, delete, insert.key);
    assert(after.head(delete.key) == seq![delete]);
    assert(after.head(insert.key) == seq![insert]);
    let pd = place_of_delete(store, insert, delete);
    let px = place_of_insert(store, insert, delete);
    assert forall|i: int| 0 <= i < after.causal.len() implies (#[trigger] after.causal[i]).cause
        != delete.key by {
        if i != px && i != pd {
            assert(after.causal[i] == store.causal[back(i, px, pd)]);
        }
    }
    lemma_walk_without_children(after, delete.key, 0);
    assert(after.flatten(delete.key) =~= seq![delete]);
    lemma_walk_below_insert(store, insert, delete, 0);
    assert(after.flatten(insert.key) =~= seq![insert, delete]);
}

/// Below the insertion the walk meets the delete and nothing else.
proof fn lemma_walk_below_insert(store: ContentView, insert: Event, delete: Event, from: int)
    requires
        in_order(store),
        cancelling(store, insert, delete),
        with_both(store, insert, delete).flatten(delete.key) == seq![delete],
        0 <= from <= store.causal.len() + 2,
    ensures
        with_both(store, insert, delete).walk(insert.key, from) == if from <= place_of_delete(
            store,
            insert,
            delete,
        ) {
            seq![delete]
        } else {
            Seq::<Event>::empty()
        },
    decreases store.causal.len() + 2 - from,
{
    let after = with_both(store, insert, delete);
    lemma_places(store, insert, delete);
    let pd = place_of_delete(store, insert, delete);
    let px = place_of_insert(store, insert, delete);
    if from < store.causal.len() + 2 {
        lemma_walk_below_insert(store, insert, delete, from + 1);
        let child = after.causal[from];
        if from == pd {
            assert(enters(insert.key, child));
            assert(after.walk(insert.key, from) =~= seq![delete]);
        } else {
            if from != px {
                assert(child == store.causal[back(from, px, pd)]);
            }
            assert(!enters(insert.key, child));
            assert(after.walk(insert.key, from) =~= after.walk(insert.key, from + 1));
        }
    }
}

/// An insertion followed by the delete anchored at it shows nothing.
proof fn lemma_pair_shows_nothing(shown: Seq<Event>, insert: Event, delete: Event)
    requires
        !insert.is_delete(),
        !insert.key.is_root(),
        delete.is_delete(),
        !delete.key.is_root(),
        delete.cause == insert.key,
    ensures
        reduce_onto(shown, seq![insert, delete]) == shown,
{
    let pair = seq![insert, delete];
    assert(pair.drop_last() =~= seq![insert]);
    assert(pair.drop_last().drop_last() =~= Seq::<Event>::empty());
    assert(reduce_onto(shown, pair.drop_last().drop_last()) == shown);
    assert(reduce_onto(shown, pair.drop_last()) == shown.push(insert));
    assert(shown.push(insert).drop_last() =~= shown);
}

/// Once the insertion and the delete are in the store, the walk below any
/// other cause is reduced to what it was reduced to before.
proof fn lemma_flatten_cancels(
    store: ContentView,
    insert: Event,
    delete: Event,
    shown: Seq<Event>,
    cause: EventKey,
)
    requires
        in_order(store),
        cancelling(store, insert, delete),
        cause != insert.key,
        cause != delete.key,
    ensures
        reduce_onto(shown, with_both(store, insert, delete).flatten(cause)) == reduce_onto(
            shown,
            store.flatten(cause),
        ),
    decreases u32::MAX - cause.moment.timestamp, store.causal.len() + 3,
{
    let middle = store.with_event(insert);
    let after = with_both(store, insert, delete);
    lemma_places(store, insert, delete);
    lemma_other_keys_keep_their_event(store, insert, cause);
    lemma_other_keys_keep_their_event(middle, delete, cause);
    assert(after.head(cause) == store.head(cause));
    let onto = reduce_onto(shown, store.head(cause));
    lemma_walk_cancels(store, insert, delete, onto, cause, 0);
    lemma_reduce_in_parts(shown, after.head(cause), after.walk(cause, 0));
    lemma_reduce_in_parts(shown, store.head(cause), store.walk(cause, 0));
}

/// Once the insertion and the delete are in the store, the walks below the
/// children of any other cause are reduced to what they were reduced to
/// before.
proof fn lemma_walk_cancels(
    store: ContentView,
    insert: Event,
    delete: Event,
    shown: Seq<Event>,
    cause: EventKey,
    from: int,
)
    requires
        in_order(store),
        cancelling(store, insert, delete),
        cause != insert.key,
        cause != delete.key,
        0 <= from <= store.causal.len() + 2,
    ensures
        reduce_onto(shown, with_both(store, insert, delete).walk(cause, from)) == reduce_onto(
            shown,
            store.walk(
                cause,
                back(
                    from,
                    place_of_insert(store, insert, delete),
                    place_of_delete(store, insert, delete),
                ),
            ),
        ),
    decreases u32::MAX - cause.moment.timestamp, store.causal.len() + 2 - from,
{
    let after = with_both(store, insert, delete);
    lemma_places(store, insert, delete);
    let pd = place_of_delete(store, insert, delete);
    let px = place_of_insert(store, insert, delete);
    let old_from = back(from, px, pd);
    if from < store.causal.len() + 2 {
        let child = after.causal[from];
        let rest = after.walk(cause, from + 1);
        if from == px {
            let below = if enters(cause, child) {
                after.flatten(child.key)
            } else {
                Seq::<Event>::empty()
            };
            if enters(cause, child) {
                lemma_walk_of_the_pair(store, insert, delete);
                lemma_pair_shows_nothing(shown, insert, delete);
            }
            assert(reduce_onto(shown, below) == shown);
            lemma_reduce_in_parts(shown, below, rest);
            lemma_walk_cancels(store, insert, delete, shown, cause, from + 1);
            assert(back(from + 1, px, pd) == old_from);
        } else if from == pd {
            assert(!enters(cause, child));
            assert(after.walk(cause, from) =~= rest);
            lemma_walk_cancels(store, insert, delete, shown, cause, from + 1);
            assert(back(from + 1, px, pd) == old_from);
        } else {
            assert(child == store.causal[old_from]);
            assert(back(from + 1, px, pd) == old_from + 1);
            let below = if enters(cause, child) {
                after.flatten(child.key)
            } else {
                Seq::<Event>::empty()
            };
            let below_before = if enters(cause, child) {
                store.flatten(child.key)
            } else {
                Seq::<Event>::empty()
            };
            if enters(cause, child) {
                lemma_flatten_cancels(store, insert, delete, shown, child.key);
            }
            let onto = reduce_onto(shown, below_before);
            lemma_walk_cancels(store, insert, delete, onto, cause, from + 1);
            lemma_reduce_in_parts(shown, below, rest);
            lemma_reduce_in_parts(shown, below_before, store.walk(cause, old_from + 1));
        }
    } else {
        assert(old_from == store.causal.len());
    }
}

/// A delete takes back the insertion it is anchored at. When an insertion
/// and the delete anchored at it are added to a store that holds neither
/// and nothing anchored at either, the visible events and the text of the
/// store are what they were before.
pub proof fn lemma_delete_cancels_insert(store: ContentView, insert: Event, delete: Event)
    requires
        in_order(store),
        cancelling(store, insert, delete),
    ensures
        with_both(store, insert, delete).final_stream() == store.final_stream(),
        with_both(store, insert, delete).text() == store.text(),
{
    lemma_flatten_cancels(store, insert, delete, Seq::empty(), origin_key());
    lemma_reduce_starts_empty(with_both(store, insert, delete).flatten_all());
    lemma_reduce_starts_empty(store.flatten_all());
}

/// After an insertion and a delete of the inserted character a replica
/// shows what it showed before. The delete is anchored where the cursor
/// stands after the insertion, so this holds where the cursor then stands
/// behind the inserted character.
pub proof fn lemma_remove_takes_back_insert(editor: EditorView, character: char)
    requires
        editor.wf(),
        editor.counter < u32::MAX - 1,
        character != BACKSPACE_CHARACTER,
        editor.typed(character).anchor == editor.next_key(character),
    ensures
        editor.typed(character).typed(BACKSPACE_CHARACTER).stream == editor.stream,
        editor.typed(character).typed(BACKSPACE_CHARACTER).content.text()
            == editor.content.text(),
{
    let insert = editor.next_event(character);
    let first = editor.typed(character);
    let delete = first.next_event(BACKSPACE_CHARACTER);
    let store = editor.content;
    assert(first.content == store.with_event(insert));
    assert(first.typed(BACKSPACE_CHARACTER).content == with_both(store, insert, delete));
    assert forall|i: int| 0 <= i < store.sequence.len() implies (#[trigger] store.sequence[i]).key
        != insert.key && store.sequence[i].key != delete.key by {
        assert(made_before(editor.counter as int)(store.sequence[i]));
    }
    assert forall|i: int| 0 <= i < store.causal.len() implies (#[trigger] store.causal[i]).key
        != insert.key && store.causal[i].key != delete.key && store.causal[i].cause != insert.key
        && store.causal[i].cause != delete.key by {
        assert(made_before(editor.counter as int)(store.causal[i]));
        assert(rooted()(store.causal[i]));
        assert(store.causal[i].follows_cause());
    }
    lemma_delete_cancels_insert(store, insert, delete);
}

/// The first insertion of a new replica is all that it shows, and the
/// cursor stands behind it.
pub proof fn lemma_first_insert(editor_id: i32, character: char)
    requires
        character != BACKSPACE_CHARACTER,
    ensures
        EditorView::fresh(editor_id).typed(character).stream == seq![
            EditorView::fresh(editor_id).next_event(character),
        ],
        EditorView::fresh(editor_id).typed(character).position == 1,
        EditorView::fresh(editor_id).typed(character).anchor == EditorView::fresh(
            editor_id,
        ).next_key(character),
{
    let editor = EditorView::fresh(editor_id);
    let insert = editor.next_event(character);
    let root = origin_key();
    let store = ContentView::fresh().with_event(insert);
    lemma_fresh_is_empty();
    lemma_rank_is(Filing::ByKey, ContentView::fresh().sequence, insert, 1);
    lemma_rank_is(Filing::BySlot, ContentView::fresh().causal, insert, 1);
    assert(store.sequence =~= seq![origin_event(), insert]);
    assert(store.causal =~= seq![origin_event(), insert]);
    lemma_added_is_found(ContentView::fresh(), insert);
    lemma_walk_without_children(store, insert.key, 0);
    assert(store.flatten(insert.key) =~= seq![insert]);
    lemma_rank_is(Filing::ByKey, store.sequence, probe(root), 0);
    assert(store.head(root) == seq![origin_event()]);
    assert(store.walk(root, 2) == Seq::<Event>::empty());
    assert(enters(root, store.causal[1]));
    assert(store.walk(root, 1) =~= seq![insert]);
    assert(!enters(root, store.causal[0]));
    assert(store.walk(root, 0) =~= seq![insert]);
    let flat = store.flatten_all();
    assert(flat =~= seq![origin_event(), insert]);
    assert(flat.drop_last() =~= seq![origin_event()]);
    assert(flat.drop_last().drop_last() =~= Seq::<Event>::empty());
    assert(reduce(flat.drop_last().drop_last()) == Seq::<Event>::empty());
    assert(reduce(flat.drop_last()) == Seq::<Event>::empty());
    assert(reduce(flat) =~= seq![insert]);
    assert(editor.recorded(character).stream == seq![insert]);
}

/// A new replica that inserts a character and then deletes the character
/// before the cursor shows nothing.
pub proof fn lemma_insert_then_remove_shows_nothing(editor_id: i32, character: char)
    requires
        character != BACKSPACE_CHARACTER,
    ensures
        EditorView::fresh(editor_id).typed(character).typed(BACKSPACE_CHARACTER).stream
            == Seq::<Event>::empty(),
        EditorView::fresh(editor_id).typed(character).typed(BACKSPACE_CHARACTER).content.text()
            == Seq::<char>::empty(),
{
    lemma_fresh_is_empty();
    lemma_first_insert(editor_id, character);
    lemma_remove_takes_back_insert(EditorView::fresh(editor_id), character);
}

} // verus!
