//! What holds of the store whatever it contains: reading after writing,
//! edits under a stale marker, deletion, and walking the pages.
use vstd::prelude::*;
use crate::database::breed::Breed;
use crate::database::record::RecordView;
use crate::database::table::{
    PAGE_SIZE, PagingState, SetState, after, ascending, before, bounded_by, edited, found,
    holds, index_of, lemma_after_is_suffix, lemma_before_is_prefix, lemma_filter_drops_all,
    lemma_filter_keeps_all, lemma_index_unique, lookup, page, removed, set_outcome, set_table,
};
use crate::utils::text::{
    lemma_after_is_closed_upwards, lemma_before_is_closed_downwards, lemma_identifier_of_text,
    lemma_text_order, parts_at, text_before, ulid_text,
};

verus! {

/// A record written under an identifier above all others is read back as
/// it was written, and every other record is read as before.
pub proof fn lemma_created_is_found(table: Seq<RecordView>, record: RecordView, other: u128)
    requires
        ascending(table),
        forall|i: int| 0 <= i < table.len() ==> (#[trigger] table[i]).id < record.id,
        other != record.id,
    ensures
        ascending(table.push(record)),
        lookup(table.push(record), record.id) == Some(record),
        lookup(table.push(record), other) == lookup(table, other),
{
    let grown = table.push(record);
    assert(ascending(grown)) by {
        assert forall|i: int, j: int| 0 <= i < j < grown.len() implies grown[i].id
            < grown[j].id by {
            if j < table.len() {
                assert(table[i].id < table[j].id);
            } else {
                assert(table[i].id < record.id);
            }
        }
    }
    lemma_index_unique(grown, table.len() as int);
    if holds(table, other) {
        let at = index_of(table, other);
        assert(grown[at] == table[at]);
        lemma_index_unique(grown, at);
    } else if holds(grown, other) {
        let at = index_of(grown, other);
        assert(table[at].id == other);
    }
}

/// A record is found under the text form of its identifier, and under no
/// other text: reading by text and reading by identifier agree.
pub proof fn lemma_found_by_text(table: Seq<RecordView>, id: u128)
    ensures
        found(table, ulid_text(id)) == lookup(table, id),
{
    lemma_identifier_of_text(id);
}

/// An identifier above the floor belongs to no record.  The floor never
/// falls and no stored identifier exceeds it, so an identifier that is
/// issued was never in the table, whatever has been deleted since.
pub proof fn lemma_issued_identifier_is_fresh(table: Seq<RecordView>, floor: u128, id: u128)
    requires
        bounded_by(table, floor),
        floor < id,
    ensures
        !holds(table, id),
        lookup(table, id) is None,
{
    if holds(table, id) {
        let at = index_of(table, id);
        assert(table[at].id <= floor);
    }
}

/// An edit that presents the `modified_at` that the record has applies:
/// the record takes the new name and breed and a `modified_at` that is
/// later than the one it had, whatever the clock shows, and every other
/// record is read as before.  Left out is only the last marker that the
/// machine can hold.
pub proof fn lemma_update_applies(
    table: Seq<RecordView>,
    id: u128,
    name: Seq<char>,
    breed: Breed,
    now: i64,
    other: u128,
)
    requires
        ascending(table),
        holds(table, id),
        lookup(table, id).unwrap().modified_at < i64::MAX,
        other != id,
    ensures
        ({
            let record = lookup(table, id).unwrap();
            let after = set_table(table, id, name, breed, record.modified_at, now);
            &&& set_outcome(table, id, record.modified_at) == SetState::Success
            &&& ascending(after)
            &&& lookup(after, id) == Some(edited(record, name, breed, now))
            &&& lookup(after, other) == lookup(table, other)
            &&& lookup(after, id).unwrap().modified_at > record.modified_at
            &&& lookup(after, id).unwrap().modified_at >= now
        }),
{
    let at = index_of(table, id);
    let record = table[at];
    let after = table.update(at, edited(record, name, breed, now));
    assert(ascending(after)) by {
        assert forall|i: int, j: int| 0 <= i < j < after.len() implies after[i].id
            < after[j].id by {
            assert(table[i].id < table[j].id);
        }
    }
    lemma_index_unique(after, at);
    if holds(table, other) {
        let place = index_of(table, other);
        assert(after[place] == table[place]);
        lemma_index_unique(after, place);
    } else if holds(after, other) {
        let place = index_of(after, other);
        assert(table[place].id == other);
    }
}

/// The marker of a record never falls, and it changes exactly when an
/// edit applies: after any edit the record has a later `modified_at` where
/// the outcome is a success, and the very same one otherwise.
pub proof fn lemma_marker_moves_only_forward(
    table: Seq<RecordView>,
    id: u128,
    name: Seq<char>,
    breed: Breed,
    expected: i64,
    now: i64,
)
    requires
        ascending(table),
        holds(table, id),
        expected < i64::MAX,
    ensures
        ({
            let before = lookup(table, id).unwrap();
            let after = lookup(set_table(table, id, name, breed, expected, now), id);
            &&& after is Some
            &&& after.unwrap().modified_at >= before.modified_at
            &&& after.unwrap().modified_at != before.modified_at <==> set_outcome(
                table,
                id,
                expected,
            ) == SetState::Success
        }),
{
    if set_outcome(table, id, expected) == SetState::Success {
        lemma_update_applies(table, id, name, breed, now, if id == 0 {
            1u128
        } else {
            0u128
        });
    }
}

/// An edit that presents another `modified_at` than the record has is
/// turned down as a conflict and leaves the table as it was: a later read
/// shows every field unchanged.
pub proof fn lemma_stale_update_rejected(
    table: Seq<RecordView>,
    id: u128,
    name: Seq<char>,
    breed: Breed,
    stale: i64,
    now: i64,
)
    requires
        holds(table, id),
        lookup(table, id).unwrap().modified_at != stale,
    ensures
        set_outcome(table, id, stale) == SetState::ModifiedAtConflict,
        set_table(table, id, name, breed, stale, now) == table,
{
}

/// An edit of an identifier that no record has reports so and leaves the
/// table as it was.
pub proof fn lemma_update_of_missing(
    table: Seq<RecordView>,
    id: u128,
    name: Seq<char>,
    breed: Breed,
    expected: i64,
    now: i64,
)
    requires
        !holds(table, id),
    ensures
        set_outcome(table, id, expected) == SetState::RecordNotFound,
        set_table(table, id, name, breed, expected, now) == table,
{
}

/// Of two edits of one record that both present the `modified_at` that it
/// had, the one that comes first applies and the other is turned down and
/// changes nothing, whichever of the two comes first and whatever the
/// clock shows at either.  Left out is only the last marker that the
/// machine can hold.
pub proof fn lemma_no_lost_update(
    table: Seq<RecordView>,
    id: u128,
    first_name: Seq<char>,
    first_breed: Breed,
    first_now: i64,
    second_name: Seq<char>,
    second_breed: Breed,
    second_now: i64,
)
    requires
        ascending(table),
        holds(table, id),
        lookup(table, id).unwrap().modified_at < i64::MAX,
    ensures
        ({
            let seen = lookup(table, id).unwrap().modified_at;
            let after = set_table(table, id, first_name, first_breed, seen, first_now);
            &&& set_outcome(table, id, seen) == SetState::Success
            &&& set_outcome(after, id, seen) == SetState::ModifiedAtConflict
            &&& set_table(after, id, second_name, second_breed, seen, second_now) == after
        }),
{
    let seen = lookup(table, id).unwrap().modified_at;
    lemma_update_applies(table, id, first_name, first_breed, first_now, if id == 0 {
        1u128
    } else {
        0u128
    });
    let after = set_table(table, id, first_name, first_breed, seen, first_now);
    assert(lookup(after, id) is Some);
    lemma_stale_update_rejected(after, id, second_name, second_breed, seen, second_now);
}

/// After a deletion no record has the identifier, and every other record
/// is read as before.  Deleting an identifier that no record has changes
/// nothing.
pub proof fn lemma_removed_is_gone(table: Seq<RecordView>, id: u128, other: u128)
    requires
        ascending(table),
        other != id,
    ensures
        ascending(removed(table, id)),
        lookup(removed(table, id), id) is None,
        lookup(removed(table, id), other) == lookup(table, other),
        !holds(table, id) ==> removed(table, id) == table,
{
    if holds(table, id) {
        let at = index_of(table, id);
        lemma_index_unique(table, at);
        let after = table.remove(at);
        assert forall|i: int| 0 <= i < after.len() implies #[trigger] after[i] == table[if i
            < at {
            i
        } else {
            i + 1
        }] by {}
        assert(ascending(after)) by {
            assert forall|i: int, j: int| 0 <= i < j < after.len() implies after[i].id
                < after[j].id by {
                let a = if i < at { i } else { i + 1 };
                let b = if j < at { j } else { j + 1 };
                assert(after[i] == table[a]);
                assert(after[j] == table[b]);
                assert(table[a].id < table[b].id);
            }
        }
        if holds(after, id) {
            let place = index_of(after, id);
            let origin = if place < at { place } else { place + 1 };
            assert(after[place] == table[origin]);
            lemma_index_unique(table, origin);
        }
        if holds(table, other) {
            let origin = index_of(table, other);
            let place = if origin < at { origin } else { origin - 1 };
            assert(after[place] == table[origin]);
            lemma_index_unique(after, place);
        } else if holds(after, other) {
            let place = index_of(after, other);
            let origin = if place < at { place } else { place + 1 };
            assert(after[place] == table[origin]);
        }
    }
}

/// In an ascending table the records before a cursor are the first so
/// many of the table.
pub proof fn lemma_before_splits(table: Seq<RecordView>, cursor: Seq<char>) -> (at: int)
    requires
        ascending(table),
    ensures
        0 <= at <= table.len(),
        forall|i: int| 0 <= i < at ==> text_before(ulid_text((#[trigger] table[i]).id), cursor),
        forall|i: int|
            at <= i < table.len() ==> !text_before(ulid_text((#[trigger] table[i]).id), cursor),
        before(table, cursor) == table.take(at),
    decreases table.len(),
{
    let at = if table.len() == 0 {
        0int
    } else if text_before(ulid_text(table.last().id), cursor) {
        assert forall|i: int| 0 <= i < table.len() implies text_before(
            ulid_text((#[trigger] table[i]).id),
            cursor,
        ) by {
            if i < table.len() - 1 {
                assert(table[i].id < table[table.len() - 1].id);
            }
            lemma_before_is_closed_downwards(table[i].id, table.last().id, cursor);
        }
        table.len() as int
    } else {
        let shorter = table.drop_last();
        let at = lemma_before_splits(shorter, cursor);
        assert forall|i: int| 0 <= i < at implies text_before(
            ulid_text((#[trigger] table[i]).id),
            cursor,
        ) by {
            assert(shorter[i] == table[i]);
        }
        assert forall|i: int| at <= i < table.len() implies !text_before(
            ulid_text((#[trigger] table[i]).id),
            cursor,
        ) by {
            if i < shorter.len() {
                assert(shorter[i] == table[i]);
            }
        }
        at
    };
    lemma_before_is_prefix(table, cursor, at);
    at
}

/// In an ascending table the records after a cursor are the last so many
/// of the table.
pub proof fn lemma_after_splits(table: Seq<RecordView>, cursor: Seq<char>) -> (at: int)
    requires
        ascending(table),
    ensures
        0 <= at <= table.len(),
        forall|i: int| 0 <= i < at ==> !text_before(cursor, ulid_text((#[trigger] table[i]).id)),
        forall|i: int|
            at <= i < table.len() ==> text_before(cursor, ulid_text((#[trigger] table[i]).id)),
        after(table, cursor) == table.skip(at),
    decreases table.len(),
{
    let at = if table.len() == 0 {
        0int
    } else if !text_before(cursor, ulid_text(table.last().id)) {
        assert forall|i: int| 0 <= i < table.len() implies !text_before(
            cursor,
            ulid_text((#[trigger] table[i]).id),
        ) by {
            if i < table.len() - 1 {
                assert(table[i].id < table[table.len() - 1].id);
            }
            if text_before(cursor, ulid_text(table[i].id)) {
                lemma_after_is_closed_upwards(table[i].id, table.last().id, cursor);
            }
        }
        table.len() as int
    } else {
        let shorter = table.drop_last();
        let at = lemma_after_splits(shorter, cursor);
        assert forall|i: int| 0 <= i < at implies !text_before(
            cursor,
            ulid_text((#[trigger] table[i]).id),
        ) by {
            assert(shorter[i] == table[i]);
        }
        assert forall|i: int| at <= i < table.len() implies text_before(
            cursor,
            ulid_text((#[trigger] table[i]).id),
        ) by {
            if i < shorter.len() {
                assert(shorter[i] == table[i]);
            }
        }
        at
    };
    lemma_after_is_suffix(table, cursor, at);
    at
}

/// The records after the text of an identifier of the table are those
/// that follow its record, and the records before it those that precede
/// its record.
proof fn lemma_split_at_record(table: Seq<RecordView>, place: int)
    requires
        ascending(table),
        0 <= place < table.len(),
    ensures
        after(table, ulid_text(table[place].id)) == table.skip(place + 1),
        before(table, ulid_text(table[place].id)) == table.take(place),
{
    let seam = ulid_text(table[place].id);
    assert forall|i: int| 0 <= i < table.len() implies {
        &&& text_before(seam, ulid_text((#[trigger] table[i]).id)) == (place < i)
        &&& text_before(ulid_text(table[i].id), seam) == (i < place)
    } by {
        lemma_text_order(table[place].id, table[i].id);
        lemma_text_order(table[i].id, table[place].id);
        if i < place {
            assert(table[i].id < table[place].id);
        } else if place < i {
            assert(table[place].id < table[i].id);
        }
    }
    lemma_after_is_suffix(table, seam, place + 1);
    lemma_before_is_prefix(table, seam, place);
}

/// A page holds at most `PAGE_SIZE` records, in ascending order, all of
/// them of the table and on the side of the cursor that was asked for.
pub proof fn lemma_page_shape(table: Seq<RecordView>, cursor: Seq<char>, state: PagingState)
    requires
        ascending(table),
    ensures
        page(table, cursor, state).len() <= PAGE_SIZE,
        ascending(page(table, cursor, state)),
        forall|i: int|
            0 <= i < page(table, cursor, state).len() ==> {
                let record = #[trigger] page(table, cursor, state)[i];
                &&& lookup(table, record.id) == Some(record)
                &&& state == PagingState::Next ==> text_before(cursor, ulid_text(record.id))
                &&& state == PagingState::Previous ==> text_before(ulid_text(record.id), cursor)
            },
{
    let window = page(table, cursor, state);
    let start: int = match state {
        PagingState::First => 0int,
        PagingState::Next => lemma_after_splits(table, cursor),
        PagingState::Previous => {
            let at = lemma_before_splits(table, cursor);
            if at <= PAGE_SIZE {
                0int
            } else {
                at - PAGE_SIZE
            }
        },
    };
    assert forall|i: int| 0 <= i < window.len() implies #[trigger] window[i] == table[start
        + i] by {}
    assert forall|i: int| 0 <= i < window.len() implies {
        let record = #[trigger] window[i];
        &&& lookup(table, record.id) == Some(record)
        &&& state == PagingState::Next ==> text_before(cursor, ulid_text(record.id))
        &&& state == PagingState::Previous ==> text_before(ulid_text(record.id), cursor)
    } by {
        assert(window[i] == table[start + i]);
        lemma_index_unique(table, start + i);
    }
    assert forall|i: int, j: int| 0 <= i < j < window.len() implies window[i].id
        < window[j].id by {
        assert(window[i] == table[start + i]);
        assert(window[j] == table[start + j]);
        assert(table[start + i].id < table[start + j].id);
    }
}

/// The page after a cursor and the records after the last identifier of
/// that page make up, in this order, the records after the cursor: no
/// record is shown twice and none is passed over.  A page with fewer than
/// `PAGE_SIZE` records is the last.
pub proof fn lemma_next_page_continues(table: Seq<RecordView>, cursor: Seq<char>)
    requires
        ascending(table),
    ensures
        ({
            let window = page(table, cursor, PagingState::Next);
            &&& window.len() == 0 ==> after(table, cursor).len() == 0
            &&& window.len() > 0 ==> after(table, cursor) == window + after(
                table,
                ulid_text(window.last().id),
            )
            &&& 0 < window.len() < PAGE_SIZE ==> after(table, ulid_text(window.last().id)).len()
                == 0
        }),
{
    let start = lemma_after_splits(table, cursor);
    let window = page(table, cursor, PagingState::Next);
    if window.len() > 0 {
        let stop = start + window.len();
        assert(window.last() == table[stop - 1]);
        lemma_split_at_record(table, stop - 1);
        assert(table.skip(start) =~= window + table.skip(stop));
    }
}

/// The records before the first identifier of the page before a cursor,
/// and that page, make up, in this order, the records before the cursor:
/// a client that pages backwards is shown no record twice and passes over
/// none.  A page with fewer than `PAGE_SIZE` records is the first of the
/// table.
pub proof fn lemma_previous_page_continues(table: Seq<RecordView>, cursor: Seq<char>)
    requires
        ascending(table),
    ensures
        ({
            let window = page(table, cursor, PagingState::Previous);
            &&& window.len() == 0 ==> before(table, cursor).len() == 0
            &&& window.len() > 0 ==> before(table, cursor) == before(
                table,
                ulid_text(window.first().id),
            ) + window
            &&& 0 < window.len() < PAGE_SIZE ==> before(
                table,
                ulid_text(window.first().id),
            ).len() == 0
        }),
{
    let stop = lemma_before_splits(table, cursor);
    let window = page(table, cursor, PagingState::Previous);
    if window.len() > 0 {
        let start = stop - window.len();
        assert(window.first() == table[start]);
        lemma_split_at_record(table, start);
        assert(table.take(stop) =~= table.take(start) + window);
    }
}

/// The first page and the records after its last identifier make up the
/// whole table.
pub proof fn lemma_first_page_continues(table: Seq<RecordView>, cursor: Seq<char>)
    requires
        ascending(table),
    ensures
        ({
            let window = page(table, cursor, PagingState::First);
            &&& window.len() == 0 ==> table.len() == 0
            &&& window.len() > 0 ==> table == window + after(table, ulid_text(window.last().id))
            &&& 0 < window.len() < PAGE_SIZE ==> after(table, ulid_text(window.last().id)).len()
                == 0
        }),
{
    let window = page(table, cursor, PagingState::First);
    if window.len() > 0 {
        let stop = window.len() as int;
        assert(window.last() == table[stop - 1]);
        lemma_split_at_record(table, stop - 1);
        assert(table =~= window + table.skip(stop));
    }
}

/// What a client gathers who asks for the page after a cursor, then for
/// the page after the last identifier shown, and so on, for at most
/// `steps` pages or until a page comes back empty.
pub open spec fn walk(table: Seq<RecordView>, cursor: Seq<char>, steps: nat) -> Seq<RecordView>
    decreases steps,
{
    if steps == 0 {
        Seq::empty()
    } else {
        let window = page(table, cursor, PagingState::Next);
        if window.len() == 0 {
            Seq::empty()
        } else {
            window + walk(table, ulid_text(window.last().id), (steps - 1) as nat)
        }
    }
}

/// A walk of enough pages gathers exactly the records after the cursor,
/// in ascending order, each once.
pub proof fn lemma_walk_is_complete(table: Seq<RecordView>, cursor: Seq<char>, steps: nat)
    requires
        ascending(table),
        after(table, cursor).len() <= steps * PAGE_SIZE,
    ensures
        walk(table, cursor, steps) == after(table, cursor),
    decreases steps,
{
    lemma_next_page_continues(table, cursor);
    let window = page(table, cursor, PagingState::Next);
    if window.len() == 0 {
        assert(after(table, cursor) =~= Seq::<RecordView>::empty());
    } else {
        let rest = after(table, ulid_text(window.last().id));
        assert(after(table, cursor).len() == window.len() + rest.len());
        assert(steps > 0);
        lemma_walk_is_complete(table, ulid_text(window.last().id), (steps - 1) as nat);
    }
}

/// The first page followed by a walk from its last identifier is the whole
/// table, in ascending order, with no record twice and none left out.
pub proof fn lemma_walk_from_first_is_the_table(
    table: Seq<RecordView>,
    cursor: Seq<char>,
    steps: nat,
)
    requires
        ascending(table),
        table.len() <= (steps + 1) * PAGE_SIZE,
    ensures
        ({
            let window = page(table, cursor, PagingState::First);
            if window.len() == 0 {
                table.len() == 0
            } else {
                table == window + walk(table, ulid_text(window.last().id), steps)
            }
        }),
{
    lemma_first_page_continues(table, cursor);
    let window = page(table, cursor, PagingState::First);
    if window.len() > 0 {
        let rest = after(table, ulid_text(window.last().id));
        assert(table.len() == window.len() + rest.len());
        lemma_walk_is_complete(table, ulid_text(window.last().id), steps);
    }
}

/// The page after a cursor that sorts before no identifier is empty, and
/// so is the page before a cursor that no identifier sorts before.
pub proof fn lemma_page_boundary(table: Seq<RecordView>, cursor: Seq<char>)
    ensures
        (forall|i: int|
            0 <= i < table.len() ==> !text_before(cursor, ulid_text((#[trigger] table[i]).id)))
            ==> page(table, cursor, PagingState::Next).len() == 0,
        (forall|i: int|
            0 <= i < table.len() ==> !text_before(ulid_text((#[trigger] table[i]).id), cursor))
            ==> page(table, cursor, PagingState::Previous).len() == 0,
{
    if forall|i: int|
        0 <= i < table.len() ==> !text_before(cursor, ulid_text((#[trigger] table[i]).id)) {
        lemma_filter_drops_all(
            table,
            |record: RecordView| text_before(cursor, ulid_text(record.id)),
        );
    }
    if forall|i: int|
        0 <= i < table.len() ==> !text_before(ulid_text((#[trigger] table[i]).id), cursor) {
        lemma_filter_drops_all(
            table,
            |record: RecordView| text_before(ulid_text(record.id), cursor),
        );
    }
}

/// The page after the greatest identifier of the table is empty, and so is
/// the page before the least.
pub proof fn lemma_page_at_the_ends(table: Seq<RecordView>, id: u128)
    ensures
        (forall|i: int| 0 <= i < table.len() ==> (#[trigger] table[i]).id <= id) ==> page(
            table,
            ulid_text(id),
            PagingState::Next,
        ).len() == 0,
        (forall|i: int| 0 <= i < table.len() ==> (#[trigger] table[i]).id >= id) ==> page(
            table,
            ulid_text(id),
            PagingState::Previous,
        ).len() == 0,
{
    assert forall|i: int| 0 <= i < table.len() implies {
        &&& text_before(ulid_text(id), ulid_text((#[trigger] table[i]).id)) == (id < table[i].id)
        &&& text_before(ulid_text(table[i].id), ulid_text(id)) == (table[i].id < id)
    } by {
        lemma_text_order(id, table[i].id);
        lemma_text_order(table[i].id, id);
    }
    lemma_page_boundary(table, ulid_text(id));
}

/// The empty cursor sorts before the text of every identifier: the page
/// after it is the first page, and the page before it is empty.
pub proof fn lemma_empty_cursor(table: Seq<RecordView>)
    ensures
        page(table, Seq::<char>::empty(), PagingState::Next) == page(
            table,
            Seq::<char>::empty(),
            PagingState::First,
        ),
        page(table, Seq::<char>::empty(), PagingState::Previous).len() == 0,
{
    let none = Seq::<char>::empty();
    assert forall|i: int| 0 <= i < table.len() implies {
        &&& text_before(none, ulid_text((#[trigger] table[i]).id))
        &&& !text_before(ulid_text(table[i].id), none)
    } by {
        let text = ulid_text(table[i].id);
        assert(parts_at(none, text, 0));
        if text_before(text, none) {
            let place = choose|place: int| parts_at(text, none, place);
            assert(place <= none.len());
        }
    }
    lemma_filter_keeps_all(table, |record: RecordView| text_before(none, ulid_text(record.id)));
    lemma_filter_drops_all(table, |record: RecordView| text_before(ulid_text(record.id), none));
}

} // verus!
