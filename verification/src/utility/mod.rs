pub mod date;
pub mod text;

pub use self::date::Date;
pub use self::date::{DAYS_PER_MONTH, DAYS_PER_YEAR, MONTHS_PER_YEAR};
