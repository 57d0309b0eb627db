//! The record store and the types that cross its boundary.
use vstd::prelude::*;
use crate::database::breed::Breed;
use crate::database::record::{
    AddPonyForm, DatabaseRecord, EditPonyForm, RecordView, ValidationError, name_check,
    valid_name, validate_name, views,
};
use crate::database::table::{
    PAGE_SIZE, PagingState, SetState, ascending, bounded_by, edited, found, greatest_id, holds,
    index_of, lemma_after_is_suffix, lemma_before_is_prefix, lemma_index_unique, marker_after,
    names_valid, next_marker, page, removed, set_outcome, set_table,
};
use crate::utils::text::{
    identifier_of, lemma_after_is_closed_upwards, lemma_before_is_closed_downwards,
    sorts_before, text_before, ulid_text,
};
use crate::utils::ulid::{DbUlid, DbUlidGen};

pub mod breed;
pub mod laws;
pub mod record;
pub mod table;

verus! {

/// Why a record was not created.
#[derive(Clone, Copy, Debug, PartialEq, Eq, Structural)]
pub enum AddError {
    /// The name breaks the rule on names.
    Validation(ValidationError),
    /// The generator had no identifier to give in this clock tick.  Nothing
    /// was written: the caller yields and asks again.
    Exhausted,
}

/// The record that a form creates under an identifier at a time.
pub open spec fn created(id: u128, data: &AddPonyForm, now: i64) -> RecordView {
    RecordView { id, name: data.name@, breed: data.breed, modified_at: now }
}

/// What the creation of a record comes to, given the value that the
/// generator drew: the name is checked first, then the value is issued
/// where it exceeds the floor.
pub open spec fn add_outcome(name: Seq<char>, floor: u128, candidate: Option<u128>) -> Result<
    DbUlid,
    AddError,
> {
    match name_check(name) {
        Err(reason) => Err(AddError::Validation(reason)),
        Ok(_) => match candidate {
            Some(value) if value > floor => Ok(DbUlid(value)),
            _ => Err(AddError::Exhausted),
        },
    }
}

/// What an edit comes to: the name is checked first; then a text that is
/// the text form of no identifier names no record; then the marker that
/// the client presents is held against the one that the record has.
pub open spec fn edit_outcome(
    table: Seq<RecordView>,
    id: Seq<char>,
    name: Seq<char>,
    expected: i64,
) -> Result<SetState, ValidationError> {
    match name_check(name) {
        Err(reason) => Err(reason),
        Ok(_) => match identifier_of(id) {
            None => Ok(SetState::RecordNotFound),
            Some(key) => Ok(set_outcome(table, key, expected)),
        },
    }
}

/// The table after an edit: it differs from the table before exactly
/// where the edit succeeds.
pub open spec fn edit_table(
    table: Seq<RecordView>,
    id: Seq<char>,
    name: Seq<char>,
    breed: Breed,
    expected: i64,
    now: i64,
) -> Seq<RecordView> {
    match (name_check(name), identifier_of(id)) {
        (Ok(_), Some(key)) => set_table(table, key, name, breed, expected, now),
        _ => table,
    }
}

/// The store: every record, in ascending order of identifier, and the
/// generator that names new ones.
pub struct Database {
    records: Vec<DatabaseRecord>,
    ulid_gen: DbUlidGen,
}

impl View for Database {
    type V = Seq<RecordView>;

    closed spec fn view(&self) -> Seq<RecordView> {
        views(self.records@)
    }
}

impl Database {
    /// The generator of the store.
    pub closed spec fn generator(&self) -> DbUlidGen {
        self.ulid_gen
    }

    /// Identifiers ascend along the table, every name obeys the rule on
    /// names, and no identifier exceeds the floor of the generator: one
    /// that was ever stored is never issued again.
    pub open spec fn wf(&self) -> bool {
        &&& ascending(self@)
        &&& names_valid(self@)
        &&& bounded_by(self@, self.generator().floor())
        &&& self.generator().wf()
    }

    /// An empty store.
    pub fn new() -> (r: Database)
        ensures
            r.wf(),
            r@ == Seq::<RecordView>::empty(),
            r.generator().floor() == 0,
            r.generator().issued() == Seq::<u128>::empty(),
    {
        let r = Database { records: Vec::new(), ulid_gen: DbUlidGen::new() };
        assert(r@ =~= Seq::<RecordView>::empty());
        r
    }

    /// A store that holds the given records, which come in ascending order
    /// of identifier and with names that obey the rule on names; any other
    /// run of records is turned down.  The identifiers that the store
    /// issues from then on exceed all of them.
    pub fn restore(records: Vec<DatabaseRecord>) -> (r: Option<Database>)
        ensures
            r is Some <==> ascending(views(records@)) && names_valid(views(records@)),
            r matches Some(db) ==> {
                &&& db.wf()
                &&& db@ == views(records@)
                &&& db.generator().floor() == greatest_id(views(records@))
                &&& db.generator().issued() == Seq::<u128>::empty()
            },
    {
        let ghost table = views(records@);
        let total: usize = records.len();
        let mut at: usize = 0;
        let mut floor: u128 = 0;
        while at < total
            invariant
                table == views(records@),
                at <= total == records@.len(),
                ascending(table.take(at as int)),
                names_valid(table.take(at as int)),
                floor == greatest_id(table.take(at as int)),
            decreases total - at,
        {
            assert(table[at as int] == records@[at as int]@);
            if validate_name(records[at].name.as_str()).is_err() {
                assert(!valid_name(table[at as int].name));
                return None;
            }
            if at > 0 && records[at].id.0 <= floor {
                assert(table.take(at as int).last() == table[at - 1]);
                assert(!(table[at - 1].id < table[at as int].id));
                return None;
            }
            proof {
                let grown = table.take(at + 1);
                let short = table.take(at as int);
                assert forall|i: int, j: int| 0 <= i < j < grown.len() implies grown[i].id
                    < grown[j].id by {
                    if j < at {
                        assert(short[i].id < short[j].id);
                    } else if i < at - 1 {
                        assert(short[i].id < short[at - 1].id);
                    } else {
                        assert(short[at - 1] == table[i]);
                    }
                }
                assert forall|i: int| 0 <= i < grown.len() implies valid_name(
                    #[trigger] grown[i].name,
                ) by {
                    if i < at {
                        assert(short[i] == grown[i]);
                    }
                }
            }
            floor = records[at].id.0;
            at = at + 1;
        }
        assert(table.take(at as int) =~= table);
        let r = Database { records, ulid_gen: DbUlidGen::starting_after(floor) };
        assert(bounded_by(r@, floor)) by {
            assert forall|i: int| 0 <= i < r@.len() implies (#[trigger] r@[i]).id <= floor by {
                if i < r@.len() - 1 {
                    assert(r@[i].id < r@[r@.len() - 1].id);
                }
            }
        }
        Some(r)
    }

    /// The number of records.
    pub fn len(&self) -> (r: usize)
        ensures
            r == self@.len(),
    {
        self.records.len()
    }

    /// The number of records whose identifier is less than `id`.
    fn search(&self, id: u128) -> (at: usize)
        requires
            ascending(self@),
        ensures
            at <= self@.len(),
            forall|i: int| 0 <= i < at ==> (#[trigger] self@[i]).id < id,
            forall|i: int| at <= i < self@.len() ==> (#[trigger] self@[i]).id >= id,
    {
        let mut low: usize = 0;
        let mut high: usize = self.records.len();
        while low < high
            invariant
                ascending(self@),
                self@.len() == self.records@.len(),
                0 <= low <= high <= self@.len(),
                forall|i: int| 0 <= i < low ==> (#[trigger] self@[i]).id < id,
                forall|i: int| high <= i < self@.len() ==> (#[trigger] self@[i]).id >= id,
            decreases high - low,
        {
            let middle: usize = low + (high - low) / 2;
            assert(self@[middle as int] == self.records@[middle as int]@);
            if self.records[middle].id.0 < id {
                assert forall|i: int| 0 <= i < middle + 1 implies (#[trigger] self@[i]).id < id by {
                    if i < middle {
                        assert(self@[i].id < self@[middle as int].id);
                    }
                }
                low = middle + 1;
            } else {
                assert forall|i: int| middle <= i < self@.len() implies (#[trigger] self@[i]).id
                    >= id by {
                    if middle < i {
                        assert(self@[middle as int].id < self@[i].id);
                    }
                }
                high = middle;
            }
        }
        low
    }

    /// The place of the record with the identifier, if there is one.
    fn find(&self, id: u128) -> (r: Option<usize>)
        requires
            ascending(self@),
        ensures
            match r {
                Some(at) => at < self@.len() && holds(self@, id) && index_of(self@, id) == at,
                None => !holds(self@, id),
            },
    {
        let at: usize = self.search(id);
        if at < self.records.len() {
            assert(self@[at as int] == self.records@[at as int]@);
            if self.records[at].id.0 == id {
                proof {
                    lemma_index_unique(self@, at as int);
                }
                return Some(at);
            }
        }
        assert(!holds(self@, id)) by {
            if holds(self@, id) {
                let found = index_of(self@, id);
                assert(self@[found].id == id);
                if found < at {
                    assert(self@[found].id < id);
                } else if found > at {
                    assert(self@[at as int].id < self@[found].id);
                }
            }
        }
        None
    }

    /// Copies of the records from place `from` up to place `to`.
    fn copy_range(&self, from: usize, to: usize) -> (r: Vec<DatabaseRecord>)
        requires
            from <= to <= self@.len(),
        ensures
            views(r@) == self@.subrange(from as int, to as int),
    {
        let mut out: Vec<DatabaseRecord> = Vec::new();
        let mut next: usize = from;
        while next < to
            invariant
                from <= next <= to <= self@.len(),
                self@.len() == self.records@.len(),
                out@.len() == next - from,
                views(out@) =~= self@.subrange(from as int, next as int),
            decreases to - next,
        {
            let ghost before = out@;
            let copy = self.records[next].clone();
            assert(self@[next as int] == self.records@[next as int]@);
            out.push(copy);
            assert forall|i: int| 0 <= i < out@.len() implies views(out@)[i] == self@[from + i] by {
                if i < before.len() {
                    assert(views(before)[i] == self@.subrange(from as int, next as int)[i]);
                    assert(out@[i] == before[i]);
                } else {
                    assert(out@[i] == copy);
                }
            }
            next = next + 1;
        }
        out
    }

    /// The record whose identifier is written as `id`, or `None` where
    /// there is none: in particular where `id` is the text form of no
    /// identifier.
    pub fn get(&self, id: &str) -> (r: Option<DatabaseRecord>)
        requires
            self.wf(),
        ensures
            match r {
                Some(record) => found(self@, id@) == Some(record@),
                None => found(self@, id@) is None,
            },
    {
        match DbUlid::parse_canonical(id) {
            None => None,
            Some(key) => match self.find(key.0) {
                Some(at) => {
                    assert(self@[at as int] == self.records@[at as int]@);
                    Some(self.records[at].clone())
                },
                None => None,
            },
        }
    }

    /// Every record, in ascending order of identifier.
    pub fn list(&self) -> (r: Vec<DatabaseRecord>)
        ensures
            views(r@) == self@,
    {
        let r = self.copy_range(0, self.records.len());
        assert(self@.subrange(0, self@.len() as int) =~= self@);
        r
    }

    /// Creates a record from a form and the value that the generator drew.
    /// The name is checked before anything else; an accepted value becomes
    /// the identifier of the new record, which takes `now` as its
    /// `modified_at`.  On an error nothing changes.
    pub fn insert(&mut self, candidate: Option<u128>, data: &AddPonyForm, now: i64) -> (r: Result<
        DbUlid,
        AddError,
    >)
        requires
            old(self).wf(),
        ensures
            final(self).wf(),
            r == add_outcome(data.name@, old(self).generator().floor(), candidate),
            match r {
                Ok(id) => {
                    &&& final(self)@ == old(self)@.push(created(id@, data, now))
                    &&& DbUlidGen::step(&old(self).generator(), Some(id), &final(self).generator())
                },
                Err(_) => {
                    &&& final(self)@ == old(self)@
                    &&& DbUlidGen::step(&old(self).generator(), None, &final(self).generator())
                },
            },
    {
        match validate_name(data.name.as_str()) {
            Err(reason) => Err(AddError::Validation(reason)),
            Ok(_) => match self.ulid_gen.accept(candidate) {
                Some(id) => {
                    self.append(id, data, now);
                    Ok(id)
                },
                None => Err(AddError::Exhausted),
            },
        }
    }

    /// Creates a record from a form, under a fresh identifier and with
    /// `now` as its `modified_at`.  A name that breaks the rule on names is
    /// turned down before an identifier is drawn.  `Exhausted` reports that
    /// the generator had none to give in this clock tick; on any error
    /// nothing is written.
    pub fn add(&mut self, data: &AddPonyForm, now: i64) -> (r: Result<DbUlid, AddError>)
        requires
            old(self).wf(),
        ensures
            final(self).wf(),
            match name_check(data.name@) {
                Err(reason) => r == Err::<DbUlid, AddError>(AddError::Validation(reason)),
                Ok(_) => r is Ok || r == Err::<DbUlid, AddError>(AddError::Exhausted),
            },
            match r {
                Ok(id) => {
                    &&& final(self)@ == old(self)@.push(created(id@, data, now))
                    &&& DbUlidGen::step(&old(self).generator(), Some(id), &final(self).generator())
                },
                Err(_) => {
                    &&& final(self)@ == old(self)@
                    &&& DbUlidGen::step(&old(self).generator(), None, &final(self).generator())
                },
            },
    {
        match validate_name(data.name.as_str()) {
            Err(reason) => Err(AddError::Validation(reason)),
            Ok(_) => {
                let candidate = self.ulid_gen.draw();
                self.insert(candidate, data, now)
            },
        }
    }

    /// Writes a new record at the end of the table.
    fn append(&mut self, id: DbUlid, data: &AddPonyForm, now: i64)
        requires
            ascending(old(self)@),
            names_valid(old(self)@),
            name_check(data.name@) is Ok,
            forall|i: int| 0 <= i < old(self)@.len() ==> (#[trigger] old(self)@[i]).id < id@,
        ensures
            ascending(final(self)@),
            names_valid(final(self)@),
            final(self)@ == old(self)@.push(created(id@, data, now)),
            final(self).generator() == old(self).generator(),
    {
        let record = DatabaseRecord {
            id,
            name: data.name.clone(),
            breed: data.breed,
            modified_at: now,
        };
        self.records.push(record);
        assert(self@ =~= old(self)@.push(created(id@, data, now)));
    }

    /// Decides on an edit without writing: the outcome and, where the edit
    /// succeeds, the place of the record.
    fn decide(&self, id: &str, data: &EditPonyForm) -> (r: (Result<SetState, ValidationError>, usize))
        requires
            self.wf(),
        ensures
            r.0 == edit_outcome(self@, id@, data.name@, data.modified_at),
            r.0 == Ok::<SetState, ValidationError>(SetState::Success) ==> {
                &&& r.1 < self@.len()
                &&& identifier_of(id@) == Some(self@[r.1 as int].id)
                &&& index_of(self@, self@[r.1 as int].id) == r.1
                &&& self@[r.1 as int].modified_at == data.modified_at
            },
    {
        match validate_name(data.name.as_str()) {
            Err(reason) => (Err(reason), 0),
            Ok(_) => match DbUlid::parse_canonical(id) {
                None => (Ok(SetState::RecordNotFound), 0),
                Some(key) => match self.find(key.0) {
                    None => (Ok(SetState::RecordNotFound), 0),
                    Some(at) => {
                        assert(self@[at as int] == self.records@[at as int]@);
                        if self.records[at].modified_at == data.modified_at {
                            (Ok(SetState::Success), at)
                        } else {
                            (Ok(SetState::ModifiedAtConflict), at)
                        }
                    },
                },
            },
        }
    }

    /// What `set` would return for an edit, without writing anything: for
    /// a caller that has the durable copy written first and applies the
    /// edit to the store only once that write went through.
    pub fn would_set(&self, id: &str, data: &EditPonyForm) -> (r: Result<SetState, ValidationError>)
        requires
            self.wf(),
        ensures
            r == edit_outcome(self@, id@, data.name@, data.modified_at),
    {
        self.decide(id, data).0
    }

    /// Edits the record whose identifier is written as `id`, provided that
    /// it has not been written since the client read it: the `modified_at`
    /// in the form must be the one that the record has now.  The check and
    /// the write are one step.  An edit that succeeds leaves a later
    /// `modified_at` than the record had: `now`, or the microsecond after
    /// the old marker where the clock has not moved past it.  Any other
    /// outcome leaves the store as it was.  The marker in the form is less
    /// than `i64::MAX`, the one marker that has none after it.
    pub fn set(&mut self, id: &str, data: &EditPonyForm, now: i64) -> (r: Result<
        SetState,
        ValidationError,
    >)
        requires
            old(self).wf(),
            data.modified_at < i64::MAX,
        ensures
            final(self).wf(),
            final(self).generator() == old(self).generator(),
            r == edit_outcome(old(self)@, id@, data.name@, data.modified_at),
            final(self)@ == edit_table(
                old(self)@,
                id@,
                data.name@,
                data.breed,
                data.modified_at,
                now,
            ),
            r == Ok::<SetState, ValidationError>(SetState::Success) ==> {
                &&& found(old(self)@, id@) matches Some(before)
                &&& found(final(self)@, id@) matches Some(after)
                &&& after.modified_at > before.modified_at
                &&& after.modified_at == marker_after(before.modified_at, now)
                &&& after.name == data.name@
                &&& after.breed == data.breed
            },
            r != Ok::<SetState, ValidationError>(SetState::Success) ==> final(self)@ == old(self)@,
    {
        let (outcome, at) = self.decide(id, data);
        match outcome {
            Ok(SetState::Success) => {
                assert(self@[at as int] == self.records@[at as int]@);
                let record = DatabaseRecord {
                    id: self.records[at].id,
                    name: data.name.clone(),
                    breed: data.breed,
                    modified_at: next_marker(self.records[at].modified_at, now),
                };
                self.records[at] = record;
                proof {
                    assert(self@ =~= old(self)@.update(
                        at as int,
                        edited(old(self)@[at as int], data.name@, data.breed, now),
                    ));
                    lemma_index_unique(old(self)@, at as int);
                    lemma_index_unique(self@, at as int);
                }
                Ok(SetState::Success)
            },
            other => other,
        }
    }

    /// Deletes the record whose identifier is written as `id` and returns
    /// it, or returns `None` and changes nothing where there is none.
    pub fn remove(&mut self, id: &str) -> (r: Option<DatabaseRecord>)
        requires
            old(self).wf(),
        ensures
            final(self).wf(),
            final(self).generator() == old(self).generator(),
            final(self)@ == match identifier_of(id@) {
                Some(key) => removed(old(self)@, key),
                None => old(self)@,
            },
            match r {
                Some(record) => found(old(self)@, id@) == Some(record@),
                None => found(old(self)@, id@) is None,
            },
    {
        match DbUlid::parse_canonical(id) {
            None => None,
            Some(key) => match self.find(key.0) {
                None => None,
                Some(at) => {
                    assert(self@[at as int] == self.records@[at as int]@);
                    let record = self.records.remove(at);
                    assert(self@ =~= old(self)@.remove(at as int));
                    Some(record)
                },
            },
        }
    }

    /// The number of records whose identifier, written as text, sorts
    /// before the cursor.
    fn count_before(&self, cursor: &str) -> (at: usize)
        requires
            ascending(self@),
        ensures
            at <= self@.len(),
            forall|i: int|
                0 <= i < at ==> text_before(ulid_text((#[trigger] self@[i]).id), cursor@),
            forall|i: int|
                at <= i < self@.len() ==> !text_before(
                    ulid_text((#[trigger] self@[i]).id),
                    cursor@,
                ),
    {
        let mut low: usize = 0;
        let mut high: usize = self.records.len();
        while low < high
            invariant
                ascending(self@),
                self@.len() == self.records@.len(),
                0 <= low <= high <= self@.len(),
                forall|i: int|
                    0 <= i < low ==> text_before(ulid_text((#[trigger] self@[i]).id), cursor@),
                forall|i: int|
                    high <= i < self@.len() ==> !text_before(
                        ulid_text((#[trigger] self@[i]).id),
                        cursor@,
                    ),
            decreases high - low,
        {
            let middle: usize = low + (high - low) / 2;
            assert(self@[middle as int] == self.records@[middle as int]@);
            let text = self.records[middle].id.to_text();
            if sorts_before(text.as_str(), cursor) {
                assert forall|i: int| 0 <= i < middle + 1 implies text_before(
                    ulid_text((#[trigger] self@[i]).id),
                    cursor@,
                ) by {
                    if i < middle {
                        assert(self@[i].id < self@[middle as int].id);
                    }
                    lemma_before_is_closed_downwards(
                        self@[i].id,
                        self@[middle as int].id,
                        cursor@,
                    );
                }
                low = middle + 1;
            } else {
                assert forall|i: int| middle <= i < self@.len() implies !text_before(
                    ulid_text((#[trigger] self@[i]).id),
                    cursor@,
                ) by {
                    if middle < i {
                        assert(self@[middle as int].id < self@[i].id);
                    }
                    if text_before(ulid_text(self@[i].id), cursor@) {
                        lemma_before_is_closed_downwards(
                            self@[middle as int].id,
                            self@[i].id,
                            cursor@,
                        );
                    }
                }
                high = middle;
            }
        }
        low
    }

    /// The number of records whose identifier, written as text, does not
    /// sort after the cursor.
    fn count_not_after(&self, cursor: &str) -> (at: usize)
        requires
            ascending(self@),
        ensures
            at <= self@.len(),
            forall|i: int|
                0 <= i < at ==> !text_before(cursor@, ulid_text((#[trigger] self@[i]).id)),
            forall|i: int|
                at <= i < self@.len() ==> text_before(
                    cursor@,
                    ulid_text((#[trigger] self@[i]).id),
                ),
    {
        let mut low: usize = 0;
        let mut high: usize = self.records.len();
        while low < high
            invariant
                ascending(self@),
                self@.len() == self.records@.len(),
                0 <= low <= high <= self@.len(),
                forall|i: int|
                    0 <= i < low ==> !text_before(cursor@, ulid_text((#[trigger] self@[i]).id)),
                forall|i: int|
                    high <= i < self@.len() ==> text_before(
                        cursor@,
                        ulid_text((#[trigger] self@[i]).id),
                    ),
            decreases high - low,
        {
            let middle: usize = low + (high - low) / 2;
            assert(self@[middle as int] == self.records@[middle as int]@);
            let text = self.records[middle].id.to_text();
            if sorts_before(cursor, text.as_str()) {
                assert forall|i: int| middle <= i < self@.len() implies text_before(
                    cursor@,
                    ulid_text((#[trigger] self@[i]).id),
                ) by {
                    if middle < i {
                        assert(self@[middle as int].id < self@[i].id);
                    }
                    lemma_after_is_closed_upwards(self@[middle as int].id, self@[i].id, cursor@);
                }
                high = middle;
            } else {
                assert forall|i: int| 0 <= i < middle + 1 implies !text_before(
                    cursor@,
                    ulid_text((#[trigger] self@[i]).id),
                ) by {
                    if i < middle {
                        assert(self@[i].id < self@[middle as int].id);
                    }
                    if text_before(cursor@, ulid_text(self@[i].id)) {
                        lemma_after_is_closed_upwards(
                            self@[i].id,
                            self@[middle as int].id,
                            cursor@,
                        );
                    }
                }
                low = middle + 1;
            }
        }
        low
    }

    /// One page of records in ascending order of identifier.  The cursor is
    /// a boundary only: it is held against the text of each identifier as
    /// strings compare, and need not name a record nor be the text of an
    /// identifier at all.
    pub fn get_paged_records(&self, cursor: &str, state: PagingState) -> (r: Vec<DatabaseRecord>)
        requires
            self.wf(),
        ensures
            views(r@) == page(self@, cursor@, state),
    {
        let total: usize = self.records.len();
        match state {
            PagingState::First => {
                let to: usize = if total <= PAGE_SIZE {
                    total
                } else {
                    PAGE_SIZE
                };
                let r = self.copy_range(0, to);
                assert(self@.subrange(0, self@.len() as int) =~= self@);
                r
            },
            PagingState::Next => {
                let from: usize = self.count_not_after(cursor);
                proof {
                    lemma_after_is_suffix(self@, cursor@, from as int);
                }
                let to: usize = if total - from <= PAGE_SIZE {
                    total
                } else {
                    from + PAGE_SIZE
                };
                let r = self.copy_range(from, to);
                assert(self@.skip(from as int).take(to - from) =~= self@.subrange(
                    from as int,
                    to as int,
                ));
                r
            },
            PagingState::Previous => {
                let to: usize = self.count_before(cursor);
                proof {
                    lemma_before_is_prefix(self@, cursor@, to as int);
                }
                let from: usize = if to <= PAGE_SIZE {
                    0
                } else {
                    to - PAGE_SIZE
                };
                let r = self.copy_range(from, to);
                assert(self@.take(to as int).skip(from as int) =~= self@.subrange(
                    from as int,
                    to as int,
                ));
                r
            },
        }
    }
}

} // verus!
