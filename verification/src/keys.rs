//! Logical timestamps, event identifiers and events, with the total order
//! that every replica uses to lay concurrent edits out in the same way.

use core::cmp::Ordering;
use vstd::prelude::*;
use vstd::std_specs::cmp::PartialEqSpecImpl;
use vstd::std_specs::cmp::PartialOrdSpecImpl;

verus! {

/// The character that stands for "delete the character before the cursor".
pub const BACKSPACE_CHARACTER: char = '\x08';

/// The character carried by the root of the causal tree. It is never shown.
pub const ORIGIN_CHARACTER: char = '\t';

/// Priority of an ordinary insertion.
pub const INSERT_PRIORITY: u32 = 1;

/// Priority of a delete-previous operation: it sorts before insertions that
/// share its cause.
pub const DELETE_PRIORITY: u32 = 2;

/// Priority reserved for the root of the causal tree.
pub const VERY_LARGE_PRIORITY: u32 = 1000;

/// Replica id reserved for the root of the causal tree.
pub const ORIGIN_EDITOR_ID: i32 = -1;

/// The letter shown for a replica: `r`, `w`, `j` for the first three ids and
/// a dot for every other one.
pub open spec fn letter_of(editor_id: i32) -> char {
    if editor_id == 0 {
        'r'
    } else if editor_id == 1 {
        'w'
    } else if editor_id == 2 {
        'j'
    } else {
        '.'
    }
}

pub fn editor_id_to_letter(editor_id: i32) -> (letter: char)
    ensures
        letter == letter_of(editor_id),
{
    match editor_id {
        0 => 'r',
        1 => 'w',
        2 => 'j',
        _ => '.',
    }
}

/// A logical timestamp: the replica that made an edit and that replica's
/// counter at the time.
#[derive(Copy, Clone, Debug, Eq, Hash)]
pub struct Moment {
    pub editor_id: i32,
    pub timestamp: u32,
}

impl Moment {
    /// Moments are ordered by counter, the larger first, and then by replica
    /// id, the smaller first.
    pub open spec fn precedes(self, other: Moment) -> bool {
        self.timestamp > other.timestamp || (self.timestamp == other.timestamp && self.editor_id
            < other.editor_id)
    }

    pub fn new(editor_id: i32, timestamp: u32) -> (moment: Moment)
        ensures
            moment.editor_id == editor_id,
            moment.timestamp == timestamp,
    {
        Moment { editor_id, timestamp }
    }

    pub fn editor_id(&self) -> (id: i32)
        ensures
            id == self.editor_id,
    {
        self.editor_id
    }

    pub fn timestamp(&self) -> (timestamp: u32)
        ensures
            timestamp == self.timestamp,
    {
        self.timestamp
    }

    /// Compares two moments in the order of `precedes`.
    pub fn cmp(&self, other: &Moment) -> (ordering: Ordering)
        ensures
            ordering == Ordering::Less <==> self.precedes(*other),
            ordering == Ordering::Equal <==> *self == *other,
            ordering == Ordering::Greater <==> other.precedes(*self),
    {
        if self.timestamp == other.timestamp {
            if self.editor_id < other.editor_id {
                Ordering::Less
            } else if self.editor_id == other.editor_id {
                Ordering::Equal
            } else {
                Ordering::Greater
            }
        } else if other.timestamp < self.timestamp {
            Ordering::Less
        } else {
            Ordering::Greater
        }
    }
}

impl PartialEq for Moment {
    fn eq(&self, other: &Self) -> (equal: bool) {
        self.editor_id == other.editor_id && self.timestamp == other.timestamp
    }
}

impl PartialEqSpecImpl for Moment {
    open spec fn obeys_eq_spec() -> bool {
        true
    }

    open spec fn eq_spec(&self, other: &Self) -> bool {
        self.editor_id == other.editor_id && self.timestamp == other.timestamp
    }
}

impl PartialOrd for Moment {
    fn partial_cmp(&self, other: &Self) -> (ordering: Option<Ordering>) {
        Some(self.cmp(other))
    }
}

impl PartialOrdSpecImpl for Moment {
    open spec fn obeys_partial_cmp_spec() -> bool {
        true
    }

    open spec fn partial_cmp_spec(&self, other: &Self) -> Option<Ordering> {
        if self.precedes(*other) {
            Some(Ordering::Less)
        } else if *self == *other {
            Some(Ordering::Equal)
        } else {
            Some(Ordering::Greater)
        }
    }
}

/// The identity of an edit: when and where it was made, and the class that
/// decides how early it is visited among the edits that share its cause.
#[derive(Copy, Clone, Debug, Eq, Hash)]
pub struct EventKey {
    pub moment: Moment,
    pub priority: u32,
}

/// The moment reserved for the root of the causal tree.
pub open spec fn origin_moment() -> Moment {
    Moment { editor_id: ORIGIN_EDITOR_ID, timestamp: 0 }
}

/// The key reserved for the root of the causal tree.
pub open spec fn origin_key() -> EventKey {
    EventKey { moment: origin_moment(), priority: VERY_LARGE_PRIORITY }
}

impl EventKey {
    /// Keys are ordered by priority, the larger first, and then by moment.
    pub open spec fn precedes(self, other: EventKey) -> bool {
        self.priority > other.priority || (self.priority == other.priority && self.moment.precedes(
            other.moment,
        ))
    }

    /// Two keys name the same edit when their moments are equal: the
    /// priority takes no part in the identity.
    pub open spec fn same_edit(self, other: EventKey) -> bool {
        self.moment == other.moment
    }

    /// Whether the key carries the moment of the root.
    pub open spec fn is_root(self) -> bool {
        self.moment == origin_moment()
    }

    pub fn new(moment: Moment, priority: u32) -> (key: EventKey)
        ensures
            key.moment == moment,
            key.priority == priority,
    {
        EventKey { moment, priority }
    }

    /// The key of the root of the causal tree.
    pub fn origin() -> (key: EventKey)
        ensures
            key == origin_key(),
    {
        EventKey {
            moment: Moment { editor_id: ORIGIN_EDITOR_ID, timestamp: 0 },
            priority: VERY_LARGE_PRIORITY,
        }
    }

    pub fn moment(&self) -> (moment: Moment)
        ensures
            moment == self.moment,
    {
        self.moment
    }

    pub fn priority(&self) -> (priority: u32)
        ensures
            priority == self.priority,
    {
        self.priority
    }

    /// Compares two keys in the order of `precedes`.
    pub fn cmp(&self, other: &EventKey) -> (ordering: Ordering)
        ensures
            ordering == Ordering::Less <==> self.precedes(*other),
            ordering == Ordering::Equal <==> *self == *other,
            ordering == Ordering::Greater <==> other.precedes(*self),
    {
        if self.priority == other.priority {
            self.moment.cmp(&other.moment)
        } else if other.priority < self.priority {
            Ordering::Less
        } else {
            Ordering::Greater
        }
    }

    /// Whether the two keys are equal field by field.
    pub fn is(&self, other: &EventKey) -> (same: bool)
        ensures
            same == (*self == *other),
    {
        self.priority == other.priority && self.moment.timestamp == other.moment.timestamp
            && self.moment.editor_id == other.moment.editor_id
    }
}

impl PartialEq for EventKey {
    fn eq(&self, other: &Self) -> (equal: bool) {
        self.moment == other.moment
    }
}

impl PartialEqSpecImpl for EventKey {
    open spec fn obeys_eq_spec() -> bool {
        true
    }

    open spec fn eq_spec(&self, other: &Self) -> bool {
        self.moment == other.moment
    }
}

impl PartialOrd for EventKey {
    fn partial_cmp(&self, other: &Self) -> (ordering: Option<Ordering>) {
        Some(self.cmp(other))
    }
}

impl PartialOrdSpecImpl for EventKey {
    open spec fn obeys_partial_cmp_spec() -> bool {
        true
    }

    open spec fn partial_cmp_spec(&self, other: &Self) -> Option<Ordering> {
        if self.precedes(*other) {
            Some(Ordering::Less)
        } else if *self == *other {
            Some(Ordering::Equal)
        } else {
            Some(Ordering::Greater)
        }
    }
}

/// One edit: its identity, the edit after which it is anchored, and the
/// character it carries.
#[derive(Copy, Clone, Debug, Eq, Hash)]
pub struct Event {
    pub key: EventKey,
    pub cause: EventKey,
    pub character: char,
}

/// The root of the causal tree: it is its own cause.
pub open spec fn origin_event() -> Event {
    Event { key: origin_key(), cause: origin_key(), character: ORIGIN_CHARACTER }
}

impl Event {
    /// An event comes after its cause: its counter is larger than that of
    /// its cause, unless it carries the moment of the root. Every event that
    /// a replica makes is such, since a replica's clock runs ahead of all it
    /// has seen.
    pub open spec fn follows_cause(self) -> bool {
        self.key.is_root() || self.cause.moment.timestamp < self.key.moment.timestamp
    }

    /// Whether the event is a delete-previous operation.
    pub open spec fn is_delete(self) -> bool {
        self.character == BACKSPACE_CHARACTER
    }

    /// Two events fill the same place in the causal tree when they have the
    /// same cause and the same key.
    pub open spec fn same_slot(self, other: Event) -> bool {
        self.cause == other.cause && self.key == other.key
    }

    /// The order in which a store files events: by cause, and under one
    /// cause by key.
    pub open spec fn files_before(self, other: Event) -> bool {
        self.cause.precedes(other.cause) || (self.cause == other.cause && self.key.precedes(
            other.key,
        ))
    }

    pub fn new(key: EventKey, cause: EventKey, character: char) -> (event: Event)
        ensures
            event.key == key,
            event.cause == cause,
            event.character == character,
    {
        Event { key, cause, character }
    }

    /// The root of the causal tree.
    pub fn origin() -> (event: Event)
        ensures
            event == origin_event(),
    {
        Event { key: EventKey::origin(), cause: EventKey::origin(), character: ORIGIN_CHARACTER }
    }

    pub fn key(&self) -> (key: EventKey)
        ensures
            key == self.key,
    {
        self.key
    }

    pub fn cause(&self) -> (cause: EventKey)
        ensures
            cause == self.cause,
    {
        self.cause
    }

    pub fn character(&self) -> (character: char)
        ensures
            character == self.character,
    {
        self.character
    }

    /// Compares two events by their keys.
    pub fn cmp(&self, other: &Event) -> (ordering: Ordering)
        ensures
            ordering == Ordering::Less <==> self.key.precedes(other.key),
            ordering == Ordering::Equal <==> self.key == other.key,
            ordering == Ordering::Greater <==> other.key.precedes(self.key),
    {
        self.key.cmp(&other.key)
    }
}

impl PartialEq for Event {
    fn eq(&self, other: &Self) -> (equal: bool) {
        self.key == other.key
    }
}

impl PartialEqSpecImpl for Event {
    open spec fn obeys_eq_spec() -> bool {
        true
    }

    open spec fn eq_spec(&self, other: &Self) -> bool {
        self.key.moment == other.key.moment
    }
}

impl PartialOrd for Event {
    fn partial_cmp(&self, other: &Self) -> (ordering: Option<Ordering>) {
        Some(self.cmp(other))
    }
}

impl PartialOrdSpecImpl for Event {
    open spec fn obeys_partial_cmp_spec() -> bool {
        true
    }

    open spec fn partial_cmp_spec(&self, other: &Self) -> Option<Ordering> {
        if self.key.precedes(other.key) {
            Some(Ordering::Less)
        } else if self.key == other.key {
            Some(Ordering::Equal)
        } else {
            Some(Ordering::Greater)
        }
    }
}

/// The order of moments is a strict total order.
pub proof fn lemma_moment_order_total(a: Moment, b: Moment, c: Moment)
    ensures
        !a.precedes(a),
        a.precedes(b) ==> !b.precedes(a),
        a.precedes(b) && b.precedes(c) ==> a.precedes(c),
        a.precedes(b) || b.precedes(a) || a == b,
{
}

/// The order of keys is a strict total order: of two keys that differ in
/// any field, exactly one precedes the other.
pub proof fn lemma_key_order_total(a: EventKey, b: EventKey, c: EventKey)
    ensures
        !a.precedes(a),
        a.precedes(b) ==> !b.precedes(a),
        a.precedes(b) && b.precedes(c) ==> a.precedes(c),
        a.precedes(b) || b.precedes(a) || a == b,
{
}

/// The order in which a store files events is a strict total order on the
/// places in the causal tree.
pub proof fn lemma_filing_order_total(a: Event, b: Event, c: Event)
    ensures
        !a.files_before(a),
        a.files_before(b) ==> !b.files_before(a),
        a.files_before(b) && b.files_before(c) ==> a.files_before(c),
        a.files_before(b) || b.files_before(a) || a.same_slot(b),
{
}

} // verus!
