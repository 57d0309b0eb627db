//! The breed attached to every record, and its persisted integer code.
use vstd::prelude::*;
use vstd::std_specs::convert::FromSpecImpl;

verus! {

/// The breed of a mare.  The persisted code of each variant is fixed:
/// rows already written encode it as a number.
#[derive(Clone, Copy, Debug, PartialEq, Eq, Structural)]
pub enum Breed {
    Earth,
    Pegasus,
    Unicorn,
}

impl Breed {
    /// The integer under which the breed is persisted.
    pub open spec fn code(self) -> i32 {
        match self {
            Breed::Earth => 0i32,
            Breed::Pegasus => 1i32,
            Breed::Unicorn => 2i32,
        }
    }

    /// The breed that a persisted code stands for, if any.
    pub open spec fn of_code(value: i32) -> Option<Breed> {
        if value == 0 {
            Some(Breed::Earth)
        } else if value == 1 {
            Some(Breed::Pegasus)
        } else if value == 2 {
            Some(Breed::Unicorn)
        } else {
            None
        }
    }

    /// The name shown to a reader.
    pub open spec fn name_spec(self) -> Seq<char> {
        match self {
            Breed::Earth => "Earth"@,
            Breed::Pegasus => "Pegasus"@,
            Breed::Unicorn => "Unicorn"@,
        }
    }

    /// Decodes a persisted code; codes other than 0, 1 and 2 stand for no breed.
    pub fn from_code(value: i32) -> (r: Option<Breed>)
        ensures
            r == Breed::of_code(value),
    {
        if value == 0 {
            Some(Breed::Earth)
        } else if value == 1 {
            Some(Breed::Pegasus)
        } else if value == 2 {
            Some(Breed::Unicorn)
        } else {
            None
        }
    }

    /// The name shown to a reader, as an owned string.
    pub fn name(&self) -> (r: String)
        ensures
            r@ == self.name_spec(),
    {
        match self {
            Breed::Earth => "Earth".to_owned(),
            Breed::Pegasus => "Pegasus".to_owned(),
            Breed::Unicorn => "Unicorn".to_owned(),
        }
    }

    /// Every breed is found again from its code.
    pub proof fn lemma_code_round_trip(self)
        ensures
            Breed::of_code(self.code()) == Some(self),
            0 <= self.code() <= 2,
    {
    }

    /// A code that stands for a breed is the code of that breed, and of no other.
    pub proof fn lemma_of_code_exact(value: i32)
        ensures
            Breed::of_code(value) is Some <==> 0 <= value <= 2,
            Breed::of_code(value) matches Some(b) ==> b.code() == value,
    {
    }
}

impl From<Breed> for i32 {
    fn from(value: Breed) -> (r: i32) {
        match value {
            Breed::Earth => 0,
            Breed::Pegasus => 1,
            Breed::Unicorn => 2,
        }
    }
}

impl FromSpecImpl<Breed> for i32 {
    open spec fn obeys_from_spec() -> bool {
        true
    }

    open spec fn from_spec(value: Breed) -> i32 {
        value.code()
    }
}

} // verus!
