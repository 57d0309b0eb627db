//! Records, the forms that create and edit them, and the rule on names.
use vstd::prelude::*;
use vstd::string::StrSliceExecFns;
use crate::database::breed::Breed;
use crate::utils::ulid::DbUlid;

verus! {

/// The greatest number of characters in a name, each Unicode scalar value
/// counting as one.
pub const MAX_NAME_LEN: usize = 100;

/// Why a name was turned down.
#[derive(Clone, Copy, Debug, PartialEq, Eq, Structural)]
pub enum ValidationError {
    /// The name has no characters.
    EmptyName,
    /// The name has more than `MAX_NAME_LEN` characters.
    NameTooLong,
}

/// What the rule on names says of a name: it has at least one character and
/// at most `MAX_NAME_LEN`.
pub open spec fn name_check(name: Seq<char>) -> Result<(), ValidationError> {
    if name.len() == 0 {
        Err(ValidationError::EmptyName)
    } else if name.len() > MAX_NAME_LEN {
        Err(ValidationError::NameTooLong)
    } else {
        Ok(())
    }
}

/// Whether the store accepts a name.
pub open spec fn valid_name(name: Seq<char>) -> bool {
    1 <= name.len() <= MAX_NAME_LEN
}

/// Checks a name against the rule on names.
pub fn validate_name(name: &str) -> (r: Result<(), ValidationError>)
    ensures
        r == name_check(name@),
        r is Ok <==> valid_name(name@),
{
    let length: usize = name.unicode_len();
    if length == 0 {
        Err(ValidationError::EmptyName)
    } else if length > MAX_NAME_LEN {
        Err(ValidationError::NameTooLong)
    } else {
        Ok(())
    }
}

/// What a record holds, as plain values.
pub struct RecordView {
    pub id: u128,
    pub name: Seq<char>,
    pub breed: Breed,
    pub modified_at: i64,
}

/// One stored record.  `modified_at` counts microseconds since the Unix
/// epoch and marks the last write that applied.
#[derive(Debug)]
pub struct DatabaseRecord {
    pub id: DbUlid,
    pub name: String,
    pub breed: Breed,
    pub modified_at: i64,
}

impl View for DatabaseRecord {
    type V = RecordView;

    open spec fn view(&self) -> RecordView {
        RecordView {
            id: self.id@,
            name: self.name@,
            breed: self.breed,
            modified_at: self.modified_at,
        }
    }
}

impl Clone for DatabaseRecord {
    fn clone(&self) -> (r: DatabaseRecord)
        ensures
            r@ == self@,
    {
        DatabaseRecord {
            id: self.id,
            name: self.name.clone(),
            breed: self.breed,
            modified_at: self.modified_at,
        }
    }
}

/// The views of a run of records, in the same order.
pub open spec fn views(records: Seq<DatabaseRecord>) -> Seq<RecordView> {
    Seq::new(records.len(), |i: int| records[i]@)
}

/// What a client sends to create a record.
#[derive(Debug)]
pub struct AddPonyForm {
    pub name: String,
    pub breed: Breed,
}

/// What a client sends to edit a record: the new fields, and the
/// `modified_at` that the client last saw.
#[derive(Debug)]
pub struct EditPonyForm {
    pub name: String,
    pub breed: Breed,
    pub modified_at: i64,
}

/// The identifiers of the first and the last record of a page, from which
/// a client asks for the page before or after it.  An empty page has none.
pub fn page_bounds(page: &Vec<DatabaseRecord>) -> (r: Option<(DbUlid, DbUlid)>)
    ensures
        page@.len() == 0 ==> r is None,
        page@.len() > 0 ==> r == Some((page@.first().id, page@.last().id)),
{
    let count: usize = page.len();
    if count == 0 {
        None
    } else {
        Some((page[0].id, page[count - 1].id))
    }
}

} // verus!
