//! Record identifiers: 128-bit values that sort in the order they were
//! issued, their 26-character text form, and the generator that issues them.
use vstd::prelude::*;
use vstd::pervasive::unreached;
use crate::utils::text::{
    identifier_of, lemma_identifier_of_other_text, lemma_identifier_of_text,
    lemma_text_round_trip, text_value, ulid_text,
};

verus! {

#[verifier::external_type_specification]
#[verifier::external_body]
pub struct ExGenerator(ulid::Generator);

/// Calls `ulid::Ulid::to_string`, which writes the value in Crockford
/// base 32: 26 characters, five bits each, the most significant first.
#[verifier::external_body]
fn encode(value: u128) -> (r: String)
    ensures
        r@ == ulid_text(value),
{
    ulid::Ulid(value).to_string()
}

/// Calls `ulid::Ulid::from_string`.  It reads a text of 26 characters
/// that are digits of Crockford base 32, the letters in either case, and
/// keeps the lowest 128 bits of the number they spell; for any other text
/// it reports an error, which becomes `None`.
#[verifier::external_body]
fn decode(text: &str) -> (r: Option<u128>)
    ensures
        r == text_value(text@),
{
    match ulid::Ulid::from_string(text) {
        Ok(id) => Some(id.0),
        Err(_) => None,
    }
}

/// Calls `ulid::Generator::new`.
#[verifier::external_body]
fn new_source() -> (r: ulid::Generator) {
    ulid::Generator::new()
}

/// Calls `ulid::Generator::generate`, which reads the clock and a random
/// source, and fails when the random bits of the current millisecond are
/// used up.  Nothing is claimed of the value it returns: that each value
/// exceeds the one before is checked by `DbUlidGen::accept`, not taken on
/// trust.
#[verifier::external_body]
fn next_candidate(source: &mut ulid::Generator) -> (r: Option<u128>) {
    match source.generate() {
        Ok(id) => Some(id.0),
        Err(_) => None,
    }
}

/// The identifier of a record.
#[derive(Clone, Copy, Debug, PartialEq, Eq, Structural, PartialOrd, Ord, Hash)]
pub struct DbUlid(pub u128);

impl View for DbUlid {
    type V = u128;

    open spec fn view(&self) -> u128 {
        self.0
    }
}

impl DbUlid {
    /// The identifier that a text stands for, if it stands for one.
    pub open spec fn of_text(text: Seq<char>) -> Option<DbUlid> {
        match text_value(text) {
            Some(value) => Some(DbUlid(value)),
            None => None,
        }
    }

    /// The identifier whose text form a text is, if it is that of one.
    pub open spec fn written_as(text: Seq<char>) -> Option<DbUlid> {
        match identifier_of(text) {
            Some(value) => Some(DbUlid(value)),
            None => None,
        }
    }

    /// The 128-bit value of the identifier.
    pub fn get(&self) -> (r: u128)
        ensures
            r == self@,
    {
        self.0
    }

    /// The text form under which the identifier is stored and sent.
    pub fn to_text(&self) -> (r: String)
        ensures
            r@ == ulid_text(self@),
            DbUlid::of_text(r@) == Some(*self),
            DbUlid::written_as(r@) == Some(*self),
    {
        proof {
            lemma_text_round_trip(self.0);
            lemma_identifier_of_text(self.0);
        }
        encode(self.0)
    }

    /// Reads an identifier from its text form.
    pub fn parse(text: &str) -> (r: Option<DbUlid>)
        ensures
            r == DbUlid::of_text(text@),
    {
        match decode(text) {
            Some(value) => Some(DbUlid(value)),
            None => None,
        }
    }

    /// Reads an identifier from a text that is known to stand for one, as
    /// the text of a stored identifier is.
    pub fn from_text(text: &str) -> (r: DbUlid)
        requires
            DbUlid::of_text(text@) is Some,
        ensures
            DbUlid::of_text(text@) == Some(r),
    {
        match decode(text) {
            Some(value) => DbUlid(value),
            None => unreached(),
        }
    }

    /// Reads an identifier from its own text form and from no other text:
    /// a text in lower case, or one that spells more than 128 bits, stands
    /// for an identifier but is not the text form of one.
    pub fn parse_canonical(text: &str) -> (r: Option<DbUlid>)
        ensures
            r == DbUlid::written_as(text@),
            r matches Some(id) ==> ulid_text(id@) == text@,
    {
        proof {
            lemma_identifier_of_other_text(text@);
        }
        match decode(text) {
            Some(value) => {
                let written = encode(value);
                if written == text.to_owned() {
                    Some(DbUlid(value))
                } else {
                    None
                }
            },
            None => None,
        }
    }
}

/// Whether every element is greater than the one before it.
pub open spec fn strictly_increasing(ids: Seq<u128>) -> bool {
    forall|i: int, j: int| 0 <= i < j < ids.len() ==> ids[i] < ids[j]
}

/// Issues identifiers, each greater than every one issued before.  The
/// generator is used through `&mut`, so no two callers ever advance it at
/// once.
pub struct DbUlidGen {
    source: ulid::Generator,
    last: u128,
    history: Ghost<Seq<u128>>,
}

impl DbUlidGen {
    /// The identifiers issued so far, in the order of the calls.
    pub closed spec fn issued(&self) -> Seq<u128> {
        self.history@
    }

    /// The value that every identifier issued from now on exceeds.
    pub closed spec fn floor(&self) -> u128 {
        self.last
    }

    /// The issued identifiers increase strictly and none exceeds the floor.
    pub open spec fn wf(&self) -> bool {
        &&& strictly_increasing(self.issued())
        &&& forall|i: int| 0 <= i < self.issued().len() ==> self.issued()[i] <= self.floor()
    }

    /// What one attempt leaves behind: an accepted candidate is appended to
    /// the issued identifiers and becomes the floor; otherwise nothing changes.
    pub open spec fn step(before: &DbUlidGen, outcome: Option<DbUlid>, after: &DbUlidGen) -> bool {
        match outcome {
            Some(id) => {
                &&& before.floor() < id@
                &&& after.floor() == id@
                &&& after.issued() == before.issued().push(id@)
            },
            None => {
                &&& after.floor() == before.floor()
                &&& after.issued() == before.issued()
            },
        }
    }

    /// A generator that has issued nothing yet.
    pub fn new() -> (r: DbUlidGen)
        ensures
            r.wf(),
            r.floor() == 0,
            r.issued() == Seq::<u128>::empty(),
    {
        DbUlidGen { source: new_source(), last: 0, history: Ghost(Seq::empty()) }
    }

    /// A generator whose identifiers all exceed `floor`.
    pub fn starting_after(floor: u128) -> (r: DbUlidGen)
        ensures
            r.wf(),
            r.floor() == floor,
            r.issued() == Seq::<u128>::empty(),
    {
        DbUlidGen { source: new_source(), last: floor, history: Ghost(Seq::empty()) }
    }

    /// The greatest identifier issued so far, or the value that the
    /// generator started after where none was issued yet.
    pub fn last_issued(&self) -> (r: u128)
        ensures
            r == self.floor(),
    {
        self.last
    }

    /// Decides on a candidate value: it is issued exactly when it exceeds
    /// the floor.
    pub fn accept(&mut self, candidate: Option<u128>) -> (r: Option<DbUlid>)
        requires
            old(self).wf(),
        ensures
            final(self).wf(),
            DbUlidGen::step(old(self), r, final(self)),
            r == match candidate {
                Some(value) if value > old(self).floor() => Some(DbUlid(value)),
                _ => None::<DbUlid>,
            },
    {
        match candidate {
            Some(value) => {
                if value > self.last {
                    self.last = value;
                    self.history = Ghost(self.history@.push(value));
                    Some(DbUlid(value))
                } else {
                    None
                }
            },
            None => None,
        }
    }

    /// Draws a value from the outside generator.  Nothing is issued yet:
    /// `accept` decides on the value.
    pub(crate) fn draw(&mut self) -> (r: Option<u128>)
        ensures
            final(self).floor() == old(self).floor(),
            final(self).issued() == old(self).issued(),
    {
        next_candidate(&mut self.source)
    }

    /// Makes one attempt to issue an identifier.  `None` means that the
    /// current clock tick has no identifier left above the floor: the caller
    /// yields and calls again.
    pub fn generate(&mut self) -> (r: Option<DbUlid>)
        requires
            old(self).wf(),
        ensures
            final(self).wf(),
            DbUlidGen::step(old(self), r, final(self)),
    {
        let candidate = self.draw();
        self.accept(candidate)
    }

    /// Identifiers come out pairwise distinct and strictly increasing in the
    /// order of the calls.
    pub proof fn lemma_issued_in_call_order(&self, earlier: int, later: int)
        requires
            self.wf(),
            0 <= earlier < later < self.issued().len(),
        ensures
            self.issued()[earlier] < self.issued()[later],
            self.issued()[earlier] != self.issued()[later],
    {
    }
}

impl Default for DbUlidGen {
    fn default() -> (r: DbUlidGen)
        ensures
            r.wf(),
            r.floor() == 0,
            r.issued() == Seq::<u128>::empty(),
    {
        DbUlidGen::new()
    }
}

} // verus!
