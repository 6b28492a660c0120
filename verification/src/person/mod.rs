pub mod attribute;
pub mod attribute_list;
pub mod person;
pub mod person_generator;
pub mod population;
pub mod rates;
pub mod roster;

pub use self::attribute::Attribute;
pub use self::attribute_list::AttributeList;
pub use self::person::Person;
pub use self::person_generator::PersonGenerator;
pub use self::population::Population;
