//! Swedish identity numbers ("personnummer"): birth-date parsing, age derivation
//! and the Luhn checksum.
pub mod birthday;
pub mod checksum;
mod clock;
pub mod error;
pub mod person;
pub mod table;

pub use birthday::{Birthday, Date};
pub use checksum::validate_pin;
pub use error::PersonError;
pub use person::Person;
pub use table::Csv;
