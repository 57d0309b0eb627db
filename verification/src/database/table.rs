//! The table of records as a mathematical sequence in ascending order of
//! identifier, and what each operation of the store makes of it.
use vstd::prelude::*;
use crate::database::breed::Breed;
use crate::database::record::{RecordView, valid_name};
use crate::utils::text::{identifier_of, lemma_text_order, text_before, ulid_text};

verus! {

/// The number of records in a full page.
pub const PAGE_SIZE: usize = 5;

/// The outcome of an edit.
#[derive(Clone, Copy, Debug, PartialEq, Eq, Structural)]
pub enum SetState {
    /// The edit applied.
    Success,
    /// The record has been written since the client read it; nothing applied.
    ModifiedAtConflict,
    /// No record has the identifier.
    RecordNotFound,
}

impl SetState {
    /// The integer under which the outcome is reported by a storage engine.
    pub open spec fn code(self) -> i32 {
        match self {
            SetState::Success => 0i32,
            SetState::ModifiedAtConflict => 1i32,
            SetState::RecordNotFound => 2i32,
        }
    }

    /// The outcome that a reported code stands for, if any.
    pub open spec fn of_code(value: i32) -> Option<SetState> {
        if value == 0 {
            Some(SetState::Success)
        } else if value == 1 {
            Some(SetState::ModifiedAtConflict)
        } else if value == 2 {
            Some(SetState::RecordNotFound)
        } else {
            None
        }
    }

    /// What is reported of an edit once the storage engine has answered
    /// with the number of rows that its conditional write changed: an edit
    /// that the store accepts is a success only where the engine changed a
    /// row, and a conflict where it changed none, since another writer
    /// then moved the marker first.  Any other outcome stands as it is.
    pub open spec fn confirmed_by(self, rows: u64) -> SetState {
        if self == SetState::Success && rows == 0 {
            SetState::ModifiedAtConflict
        } else {
            self
        }
    }

    /// Settles what is reported of an edit from the store's outcome and
    /// the number of rows that the engine's conditional write changed.
    pub fn confirmed(self, rows: u64) -> (r: SetState)
        ensures
            r == self.confirmed_by(rows),
    {
        match self {
            SetState::Success => if rows == 0 {
                SetState::ModifiedAtConflict
            } else {
                SetState::Success
            },
            SetState::ModifiedAtConflict => SetState::ModifiedAtConflict,
            SetState::RecordNotFound => SetState::RecordNotFound,
        }
    }

    /// Decodes a reported code; codes other than 0, 1 and 2 stand for no
    /// outcome.
    pub fn from_code(value: i32) -> (r: Option<SetState>)
        ensures
            r == SetState::of_code(value),
            r matches Some(state) ==> state.code() == value,
    {
        if value == 0 {
            Some(SetState::Success)
        } else if value == 1 {
            Some(SetState::ModifiedAtConflict)
        } else if value == 2 {
            Some(SetState::RecordNotFound)
        } else {
            None
        }
    }
}

/// Which page a client asks for.
#[derive(Clone, Copy, Debug, PartialEq, Eq, Structural)]
pub enum PagingState {
    /// The records that follow the cursor.
    Next,
    /// The records that precede the cursor.
    Previous,
    /// The first records of the table; the cursor is ignored.
    First,
}

/// Identifiers increase strictly along the table, so none occurs twice.
pub open spec fn ascending(table: Seq<RecordView>) -> bool {
    forall|i: int, j: int| 0 <= i < j < table.len() ==> table[i].id < table[j].id
}

/// Every name in the table obeys the rule on names.
pub open spec fn names_valid(table: Seq<RecordView>) -> bool {
    forall|i: int| 0 <= i < table.len() ==> valid_name(#[trigger] table[i].name)
}

/// No identifier in the table exceeds `bound`.
pub open spec fn bounded_by(table: Seq<RecordView>, bound: u128) -> bool {
    forall|i: int| 0 <= i < table.len() ==> (#[trigger] table[i]).id <= bound
}

/// The greatest identifier of an ascending table, or 0 for an empty one.
pub open spec fn greatest_id(table: Seq<RecordView>) -> u128 {
    if table.len() == 0 {
        0
    } else {
        table.last().id
    }
}

/// Whether some record has the identifier.
pub open spec fn holds(table: Seq<RecordView>, id: u128) -> bool {
    exists|i: int| 0 <= i < table.len() && (#[trigger] table[i]).id == id
}

/// The place of a record with the identifier.
pub open spec fn index_of(table: Seq<RecordView>, id: u128) -> int {
    choose|i: int| 0 <= i < table.len() && (#[trigger] table[i]).id == id
}

/// The record with the identifier, if there is one.
pub open spec fn lookup(table: Seq<RecordView>, id: u128) -> Option<RecordView> {
    if holds(table, id) {
        Some(table[index_of(table, id)])
    } else {
        None
    }
}

/// The record whose identifier is written as the text, if there is one.
/// A text that is the text form of no identifier names no record.
pub open spec fn found(table: Seq<RecordView>, text: Seq<char>) -> Option<RecordView> {
    match identifier_of(text) {
        Some(id) => lookup(table, id),
        None => None,
    }
}

/// The table without the record that has the identifier.
pub open spec fn removed(table: Seq<RecordView>, id: u128) -> Seq<RecordView> {
    if holds(table, id) {
        table.remove(index_of(table, id))
    } else {
        table
    }
}

/// What an edit that presents `expected` as the last `modified_at` it saw
/// comes to.
pub open spec fn set_outcome(table: Seq<RecordView>, id: u128, expected: i64) -> SetState {
    match lookup(table, id) {
        None => SetState::RecordNotFound,
        Some(record) => if record.modified_at == expected {
            SetState::Success
        } else {
            SetState::ModifiedAtConflict
        },
    }
}

/// The `modified_at` that a write at `now` leaves on a record whose marker
/// was `stored`: `now` where that is later, else the microsecond after
/// `stored`, so that every write that applies moves the marker forward.
/// Only the last marker that the machine can hold has none after it.
pub open spec fn marker_after(stored: i64, now: i64) -> i64 {
    if now > stored {
        now
    } else if stored < i64::MAX {
        (stored + 1) as i64
    } else {
        stored
    }
}

/// Computes the `modified_at` that a write at `now` leaves on a record
/// whose marker was `stored`.
pub fn next_marker(stored: i64, now: i64) -> (r: i64)
    requires
        stored < i64::MAX,
    ensures
        r == marker_after(stored, now),
        r > stored,
        r >= now,
{
    if now > stored {
        now
    } else {
        stored + 1
    }
}

/// The record that an edit at `now` writes in place of `record`.
pub open spec fn edited(record: RecordView, name: Seq<char>, breed: Breed, now: i64) -> RecordView {
    RecordView { id: record.id, name, breed, modified_at: marker_after(record.modified_at, now) }
}

/// The table after an edit: where the edit applies, the record takes the
/// new name and breed and a later `modified_at`; otherwise the table is
/// unchanged.
pub open spec fn set_table(
    table: Seq<RecordView>,
    id: u128,
    name: Seq<char>,
    breed: Breed,
    expected: i64,
    now: i64,
) -> Seq<RecordView> {
    if set_outcome(table, id, expected) == SetState::Success {
        let at = index_of(table, id);
        table.update(at, edited(table[at], name, breed, now))
    } else {
        table
    }
}

/// The records whose identifier is less than `bound`, in table order.
pub open spec fn below(table: Seq<RecordView>, bound: u128) -> Seq<RecordView> {
    table.filter(|record: RecordView| record.id < bound)
}

/// The records whose identifier is greater than `bound`, in table order.
pub open spec fn above(table: Seq<RecordView>, bound: u128) -> Seq<RecordView> {
    table.filter(|record: RecordView| record.id > bound)
}

/// The first `count` records of a run, or all of it where it has fewer.
pub open spec fn leading(run: Seq<RecordView>, count: int) -> Seq<RecordView> {
    if run.len() <= count {
        run
    } else {
        run.take(count)
    }
}

/// The last `count` records of a run, or all of it where it has fewer.
pub open spec fn trailing(run: Seq<RecordView>, count: int) -> Seq<RecordView> {
    if run.len() <= count {
        run
    } else {
        run.skip(run.len() - count)
    }
}

/// The records whose identifier, written as text, sorts before the
/// cursor, in table order.
pub open spec fn before(table: Seq<RecordView>, cursor: Seq<char>) -> Seq<RecordView> {
    table.filter(|record: RecordView| text_before(ulid_text(record.id), cursor))
}

/// The records whose identifier, written as text, sorts after the cursor,
/// in table order.
pub open spec fn after(table: Seq<RecordView>, cursor: Seq<char>) -> Seq<RecordView> {
    table.filter(|record: RecordView| text_before(cursor, ulid_text(record.id)))
}

/// The page that a cursor and a direction select, in ascending order:
/// the first records of the table; the first records after the cursor;
/// or the last records before it.  The cursor is any text, and is held
/// against the text of each identifier as strings compare.
pub open spec fn page(table: Seq<RecordView>, cursor: Seq<char>, state: PagingState) -> Seq<
    RecordView,
> {
    match state {
        PagingState::First => leading(table, PAGE_SIZE as int),
        PagingState::Next => leading(after(table, cursor), PAGE_SIZE as int),
        PagingState::Previous => trailing(before(table, cursor), PAGE_SIZE as int),
    }
}

/// In an ascending table the place of an identifier is the only one.
pub proof fn lemma_index_unique(table: Seq<RecordView>, at: int)
    requires
        ascending(table),
        0 <= at < table.len(),
    ensures
        holds(table, table[at].id),
        index_of(table, table[at].id) == at,
        lookup(table, table[at].id) == Some(table[at]),
{
    let id = table[at].id;
    assert(holds(table, id));
    let found = index_of(table, id);
    assert(0 <= found < table.len() && table[found].id == id);
    if found < at {
        assert(table[found].id < table[at].id);
    } else if at < found {
        assert(table[at].id < table[found].id);
    }
}

/// A run in which every record passes a test is its own filter.
pub proof fn lemma_filter_keeps_all(run: Seq<RecordView>, test: spec_fn(RecordView) -> bool)
    requires
        forall|i: int| 0 <= i < run.len() ==> test(#[trigger] run[i]),
    ensures
        run.filter(test) == run,
    decreases run.len(),
{
    reveal(Seq::filter);
    if run.len() > 0 {
        lemma_filter_keeps_all(run.drop_last(), test);
        assert(run.drop_last().push(run.last()) =~= run);
    }
}

/// A run in which no record passes a test has an empty filter.
pub proof fn lemma_filter_drops_all(run: Seq<RecordView>, test: spec_fn(RecordView) -> bool)
    requires
        forall|i: int| 0 <= i < run.len() ==> !test(#[trigger] run[i]),
    ensures
        run.filter(test) == Seq::<RecordView>::empty(),
    decreases run.len(),
{
    reveal(Seq::filter);
    if run.len() > 0 {
        lemma_filter_drops_all(run.drop_last(), test);
    }
}

/// Where the records before `at` pass a test and the others fail it, the
/// filter is the part before `at`.
pub proof fn lemma_filter_prefix(run: Seq<RecordView>, test: spec_fn(RecordView) -> bool, at: int)
    requires
        0 <= at <= run.len(),
        forall|i: int| 0 <= i < at ==> test(#[trigger] run[i]),
        forall|i: int| at <= i < run.len() ==> !test(#[trigger] run[i]),
    ensures
        run.filter(test) == run.take(at),
{
    let head = run.take(at);
    let tail = run.skip(at);
    assert(head + tail =~= run);
    Seq::filter_distributes_over_add(head, tail, test);
    lemma_filter_keeps_all(head, test);
    lemma_filter_drops_all(tail, test);
    assert(head + Seq::<RecordView>::empty() =~= head);
}

/// Where the records before `at` fail a test and the others pass it, the
/// filter is the part from `at` on.
pub proof fn lemma_filter_suffix(run: Seq<RecordView>, test: spec_fn(RecordView) -> bool, at: int)
    requires
        0 <= at <= run.len(),
        forall|i: int| 0 <= i < at ==> !test(#[trigger] run[i]),
        forall|i: int| at <= i < run.len() ==> test(#[trigger] run[i]),
    ensures
        run.filter(test) == run.skip(at),
{
    let head = run.take(at);
    let tail = run.skip(at);
    assert(head + tail =~= run);
    Seq::filter_distributes_over_add(head, tail, test);
    lemma_filter_drops_all(head, test);
    lemma_filter_keeps_all(tail, test);
    assert(Seq::<RecordView>::empty() + tail =~= tail);
}

/// The records before a cursor are those before the first record that
/// does not sort before it.
pub proof fn lemma_before_is_prefix(table: Seq<RecordView>, cursor: Seq<char>, at: int)
    requires
        0 <= at <= table.len(),
        forall|i: int| 0 <= i < at ==> text_before(ulid_text((#[trigger] table[i]).id), cursor),
        forall|i: int|
            at <= i < table.len() ==> !text_before(ulid_text((#[trigger] table[i]).id), cursor),
    ensures
        before(table, cursor) == table.take(at),
{
    lemma_filter_prefix(
        table,
        |record: RecordView| text_before(ulid_text(record.id), cursor),
        at,
    );
}

/// The records after a cursor are those from the first record that sorts
/// after it.
pub proof fn lemma_after_is_suffix(table: Seq<RecordView>, cursor: Seq<char>, at: int)
    requires
        0 <= at <= table.len(),
        forall|i: int| 0 <= i < at ==> !text_before(cursor, ulid_text((#[trigger] table[i]).id)),
        forall|i: int|
            at <= i < table.len() ==> text_before(cursor, ulid_text((#[trigger] table[i]).id)),
    ensures
        after(table, cursor) == table.skip(at),
{
    lemma_filter_suffix(
        table,
        |record: RecordView| text_before(cursor, ulid_text(record.id)),
        at,
    );
}

/// Two tests that agree on every record of a run keep the same records.
pub proof fn lemma_filter_agrees(
    run: Seq<RecordView>,
    one: spec_fn(RecordView) -> bool,
    other: spec_fn(RecordView) -> bool,
)
    requires
        forall|i: int| 0 <= i < run.len() ==> one(#[trigger] run[i]) == other(run[i]),
    ensures
        run.filter(one) == run.filter(other),
    decreases run.len(),
{
    reveal(Seq::filter);
    if run.len() > 0 {
        lemma_filter_agrees(run.drop_last(), one, other);
    }
}

/// A cursor that is the text of an identifier selects by that identifier:
/// the records after it are those with a greater identifier, the records
/// before it those with a lesser one.
pub proof fn lemma_identifier_as_cursor(table: Seq<RecordView>, id: u128)
    ensures
        after(table, ulid_text(id)) == above(table, id),
        before(table, ulid_text(id)) == below(table, id),
{
    assert forall|i: int| 0 <= i < table.len() implies text_before(
        ulid_text(id),
        ulid_text((#[trigger] table[i]).id),
    ) == (table[i].id > id) by {
        lemma_text_order(id, table[i].id);
    }
    lemma_filter_agrees(
        table,
        |record: RecordView| text_before(ulid_text(id), ulid_text(record.id)),
        |record: RecordView| record.id > id,
    );
    assert forall|i: int| 0 <= i < table.len() implies text_before(
        ulid_text((#[trigger] table[i]).id),
        ulid_text(id),
    ) == (table[i].id < id) by {
        lemma_text_order(table[i].id, id);
    }
    lemma_filter_agrees(
        table,
        |record: RecordView| text_before(ulid_text(record.id), ulid_text(id)),
        |record: RecordView| record.id < id,
    );
}

} // verus!
