use vstd::prelude::*;
use vstd::string::StringSliceAdditionalSpecFns;
use vstd::utf8::encode_utf8;

use crate::birthday::{
    age_at, birthday_of, invalid_pin_reason, date_fields_are_digits, has_pin_length, is_calendar_date, Birthday, Date,
};
use crate::checksum::{pin_valid, validate_pin};
use crate::clock::local_today;
use crate::error::PersonError;

verus! {

/// The age at which a person counts as an adult.
pub const ADULT_AGE: u8 = 18;

/// A record of a name and an identity number, with the age derived from it.
#[derive(Debug)]
pub struct Person {
    pub name: String,
    pub pin: String,
    pub age: Result<u8, PersonError>,
}

/// `age` is what the identity number `b` gives on the date `t`: a length error,
/// a parse error, or the age derived from the encoded birth date.
pub open spec fn pin_age_on(b: Seq<u8>, t: Date, age: Result<u8, PersonError>) -> bool {
    if !has_pin_length(b) {
        age == Err::<u8, PersonError>(PersonError::InvalidPinLength(b.len() as usize))
    } else if !date_fields_are_digits(b) {
        age is Err && age->Err_0 is InvalidPin && age->Err_0->InvalidPin_0@ == invalid_pin_reason()
    } else {
        age == age_at(birthday_of(b), t)
    }
}

impl Person {
    /// A person whose age is derived on the date `today`.
    pub fn new_on(name: &str, pin: &str, today: &Date) -> (r: Person)
        ensures
            r.name@ == name@,
            r.pin@ == pin@,
            pin_age_on(pin.spec_bytes(), *today, r.age),
    {
        let age = match Birthday::from_str(pin) {
            Ok(b) => b.age_on(today),
            Err(e) => Err(e),
        };
        Person { name: name.to_owned(), pin: pin.to_owned(), age }
    }

    /// A person whose age is derived on the local date of the system clock.
    pub fn new(name: &str, pin: &str) -> (r: Person)
        ensures
            r.name@ == name@,
            r.pin@ == pin@,
            exists|t: Date| is_calendar_date(t) && pin_age_on(pin.spec_bytes(), t, r.age),
    {
        let today = local_today();
        Person::new_on(name, pin, &today)
    }

    /// The identity number parsed and the person is at least `ADULT_AGE` years old.
    pub fn is_adult(&self) -> (r: bool)
        ensures
            r == (self.age is Ok && self.age->Ok_0 >= ADULT_AGE),
    {
        match self.age {
            Ok(a) => a >= ADULT_AGE,
            Err(_) => false,
        }
    }

    /// The identity number fails the checksum, or no age could be derived from it.
    pub fn has_invalid_pin(&self) -> (r: bool)
        ensures
            r == (!pin_valid(encode_utf8(self.pin@)) || self.age is Err),
    {
        !validate_pin(self.pin.as_str()) || self.age.is_err()
    }
}

} // verus!
