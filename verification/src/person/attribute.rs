use vstd::prelude::*;
use vstd::std_specs::cmp::PartialEqSpecImpl;
use crate::utility::Date;

verus! {

/// A tag on a person. `==` compares tags by kind only: two `Married` tags are
/// equal whatever partner they name, and two `Pregnant` tags whatever they
/// carry.
#[derive(Clone, Copy, Debug, Eq)]
pub enum Attribute {
    Male,
    Female,
    Married(u32),
    Pregnant { father_id: u32, birth: Date, count: u32 },
    Fertile,
}

/// The kind of a tag: what it says, without what it carries.
#[derive(Clone, Copy, Debug, PartialEq, Eq, Structural)]
pub enum Kind {
    Male,
    Female,
    Married,
    Pregnant,
    Fertile,
}

impl Attribute {
    pub open spec fn kind(self) -> Kind {
        match self {
            Attribute::Male => Kind::Male,
            Attribute::Female => Kind::Female,
            Attribute::Married(_) => Kind::Married,
            Attribute::Pregnant { .. } => Kind::Pregnant,
            Attribute::Fertile => Kind::Fertile,
        }
    }

    /// Whether two tags are of the same kind, whatever they carry.
    pub open spec fn same_kind(self, other: Attribute) -> bool {
        self.kind() == other.kind()
    }
}

impl PartialEqSpecImpl for Attribute {
    open spec fn obeys_eq_spec() -> bool {
        true
    }

    open spec fn eq_spec(&self, rhs: &Attribute) -> bool {
        self.same_kind(*rhs)
    }
}

impl PartialEq for Attribute {
    fn eq(&self, rhs: &Attribute) -> (r: bool) {
        match (self, rhs) {
            (Attribute::Male, Attribute::Male) => true,
            (Attribute::Female, Attribute::Female) => true,
            (Attribute::Married(_), Attribute::Married(_)) => true,
            (Attribute::Pregnant { .. }, Attribute::Pregnant { .. }) => true,
            (Attribute::Fertile, Attribute::Fertile) => true,
            (_, _) => false,
        }
    }
}

} // verus!
