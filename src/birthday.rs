use vstd::prelude::*;

use vstd::string::StringSliceAdditionalSpecFns;

use crate::clock::local_today;
use crate::error::PersonError;

verus! {

/// The oldest age, in whole years, that a living person is taken to reach.
pub const OLDEST_PERSON: u16 = 120;

/// The ASCII space used to pad short identity numbers.
pub const PAD: u8 = 32;

/// A birth date as read from an identity number. Month and day are not
/// checked against the calendar.
#[derive(Debug, Clone, Copy, PartialEq, Eq)]
pub struct Birthday {
    pub year: u16,
    pub month: u8,
    pub day: u8,
}

/// A calendar date used as "today" when an age is derived.
#[derive(Debug, Clone, Copy, PartialEq, Eq)]
pub struct Date {
    pub year: i32,
    pub month: u8,
    pub day: u8,
}

pub open spec fn is_digit(c: u8) -> bool {
    48 <= c <= 57
}

pub open spec fn all_digits(s: Seq<u8>) -> bool {
    forall|i: int| 0 <= i < s.len() ==> is_digit(#[trigger] s[i])
}

/// The decimal value of a run of ASCII digits.
pub open spec fn digits_value(s: Seq<u8>) -> nat
    decreases s.len(),
{
    if s.len() == 0 {
        0
    } else {
        digits_value(s.drop_last()) * 10 + (s.last() - 48) as nat
    }
}

pub open spec fn pow10(n: nat) -> nat
    decreases n,
{
    if n == 0 {
        1
    } else {
        10 * pow10((n - 1) as nat)
    }
}

/// The identity number padded on the left with spaces to twelve bytes.
pub open spec fn padded(b: Seq<u8>) -> Seq<u8> {
    Seq::new((12 - b.len()) as nat, |i: int| PAD) + b
}

pub open spec fn has_pin_length(b: Seq<u8>) -> bool {
    b.len() == 10 || b.len() == 12
}

/// The year field: two digits in the 10-byte form, four in the 12-byte form.
pub open spec fn year_field(b: Seq<u8>) -> Seq<u8> {
    if b.len() == 10 {
        padded(b).subrange(2, 4)
    } else {
        padded(b).subrange(0, 4)
    }
}

pub open spec fn month_field(b: Seq<u8>) -> Seq<u8> {
    padded(b).subrange(4, 6)
}

pub open spec fn day_field(b: Seq<u8>) -> Seq<u8> {
    padded(b).subrange(6, 8)
}

pub open spec fn date_fields_are_digits(b: Seq<u8>) -> bool {
    all_digits(year_field(b)) && all_digits(month_field(b)) && all_digits(day_field(b))
}

/// The year that an identity number encodes; the 10-byte form is read as 20yy.
pub open spec fn pin_year(b: Seq<u8>) -> nat {
    if b.len() == 10 {
        2000 + digits_value(year_field(b))
    } else {
        digits_value(year_field(b))
    }
}

/// The birth date that a well-formed identity number encodes.
pub open spec fn birthday_of(b: Seq<u8>) -> Birthday {
    Birthday {
        year: pin_year(b) as u16,
        month: digits_value(month_field(b)) as u8,
        day: digits_value(day_field(b)) as u8,
    }
}

/// The reason carried by `InvalidPin` when a date field is not all digits.
pub open spec fn invalid_pin_reason() -> Seq<char> {
    "Couldnt parse pin"@
}

/// `r` is what parsing the identity number `b` gives: a length error unless `b`
/// has 10 or 12 bytes, a parse error unless the date fields are digits, and
/// otherwise the encoded birth date.
pub open spec fn parse_outcome(b: Seq<u8>, r: Result<Birthday, PersonError>) -> bool {
    if !has_pin_length(b) {
        r == Err::<Birthday, PersonError>(PersonError::InvalidPinLength(b.len() as usize))
    } else if !date_fields_are_digits(b) {
        r is Err && r->Err_0 is InvalidPin && r->Err_0->InvalidPin_0@ == invalid_pin_reason()
    } else {
        r == Ok::<Birthday, PersonError>(birthday_of(b))
    }
}

/// The birthday has not yet come round in the year of `t`.
pub open spec fn before_birthday(b: Birthday, t: Date) -> bool {
    t.month < b.month || (t.month == b.month && t.day < b.day)
}

/// Whole years lived from `b` to `t`; negative when `b` lies after `t`.
pub open spec fn age_years(b: Birthday, t: Date) -> int {
    (t.year - b.year) - if before_birthday(b, t) {
        1int
    } else {
        0int
    }
}

/// The age at `t`, or why there is none.
pub open spec fn age_at(b: Birthday, t: Date) -> Result<u8, PersonError> {
    if age_years(b, t) < 0 {
        Err(PersonError::FutureBirthday)
    } else if age_years(b, t) > OLDEST_PERSON {
        Err(PersonError::LongDead)
    } else {
        Ok(age_years(b, t) as u8)
    }
}

/// A date as a clock can report it.
pub open spec fn is_calendar_date(t: Date) -> bool {
    1 <= t.month <= 12 && 1 <= t.day <= 31
}

/// The byte at `p` of the padded identity number.
fn padded_byte(bytes: &[u8], p: usize) -> (r: u8)
    requires
        bytes@.len() <= 12,
        p < 12,
    ensures
        r == padded(bytes@)[p as int],
{
    let pad = 12 - bytes.len();
    if p < pad {
        PAD
    } else {
        bytes[p - pad]
    }
}

/// The value of the padded bytes `from..to`, if they are all digits.
fn parse_field(bytes: &[u8], from: usize, to: usize) -> (r: Option<u16>)
    requires
        bytes@.len() <= 12,
        from <= to <= 12,
        to - from <= 4,
    ensures
        r.is_some() == all_digits(padded(bytes@).subrange(from as int, to as int)),
        r.is_some() ==> r.unwrap() as nat == digits_value(
            padded(bytes@).subrange(from as int, to as int),
        ),
        r.is_some() ==> r.unwrap() < pow10((to - from) as nat),
{
    let ghost pb = padded(bytes@);
    let mut v: u16 = 0;
    let mut p: usize = from;
    proof {
        lemma_pow10_small();
    }
    while p < to
        invariant
            bytes@.len() <= 12,
            from <= p <= to <= 12,
            to - from <= 4,
            pb == padded(bytes@),
            all_digits(pb.subrange(from as int, p as int)),
            v as nat == digits_value(pb.subrange(from as int, p as int)),
            v < pow10((p - from) as nat),
            pow10(4) == 10000,
        decreases to - p,
    {
        let c = padded_byte(bytes, p);
        let ghost s = pb.subrange(from as int, p as int + 1);
        if c < 48 || c > 57 {
            assert(s[p - from] == c);
            return None;
        }
        assert(s.drop_last() =~= pb.subrange(from as int, p as int));
        proof {
            lemma_pow10_mono((p - from + 1) as nat, 4);
        }
        v = v * 10 + (c - 48) as u16;
        p = p + 1;
    }
    Some(v)
}

proof fn lemma_pow10_small()
    ensures
        pow10(2) == 100,
        pow10(4) == 10000,
{
    assert(pow10(0) == 1);
    assert(pow10(1) == 10);
    assert(pow10(2) == 100);
    assert(pow10(3) == 1000);
}

proof fn lemma_pow10_mono(a: nat, b: nat)
    requires
        a <= b,
    ensures
        pow10(a) <= pow10(b),
    decreases b,
{
    if a < b {
        lemma_pow10_mono(a, (b - 1) as nat);
    }
}

impl Birthday {
    /// A birthday from year, month and day.
    pub fn new(year: u16, month: u8, day: u8) -> (r: Birthday)
        ensures
            r == (Birthday { year, month, day }),
    {
        Birthday { year, month, day }
    }

    /// Reads the birth date out of an identity number of 10 or 12 bytes.
    pub fn from_str(s: &str) -> (r: Result<Birthday, PersonError>)
        ensures
            parse_outcome(s.spec_bytes(), r),
    {
        let bytes = s.as_bytes();
        let len = bytes.len();
        proof {
            lemma_pow10_small();
        }
        if len != 10 && len != 12 {
            return Err(PersonError::InvalidPinLength(len));
        }
        let year = if len == 10 {
            match parse_field(bytes, 2, 4) {
                Some(y) => y + 2000,
                None => return Err(invalid_pin()),
            }
        } else {
            match parse_field(bytes, 0, 4) {
                Some(y) => y,
                None => return Err(invalid_pin()),
            }
        };
        let month = match parse_field(bytes, 4, 6) {
            Some(m) => m as u8,
            None => return Err(invalid_pin()),
        };
        let day = match parse_field(bytes, 6, 8) {
            Some(d) => d as u8,
            None => return Err(invalid_pin()),
        };
        Ok(Birthday::new(year, month, day))
    }

    /// The age in whole years on `today`: `FutureBirthday` when the birth date lies
    /// after `today`, `LongDead` above `OLDEST_PERSON`.
    pub fn age_on(&self, today: &Date) -> (r: Result<u8, PersonError>)
        ensures
            r == age_at(*self, *today),
    {
        if (today.year as i64) < (self.year as i64) {
            return Err(PersonError::FutureBirthday);
        }
        let mut dy: i64 = today.year as i64 - self.year as i64;
        if today.month < self.month || (today.month == self.month && today.day < self.day) {
            dy = dy - 1;
        }
        if dy < 0 {
            return Err(PersonError::FutureBirthday);
        }
        if dy > OLDEST_PERSON as i64 {
            return Err(PersonError::LongDead);
        }
        Ok(dy as u8)
    }

    /// The age in whole years on the local calendar date of the system clock.
    pub fn age(&self) -> (r: Result<u8, PersonError>)
        ensures
            exists|t: Date| is_calendar_date(t) && r == age_at(*self, t),
    {
        let today = local_today();
        self.age_on(&today)
    }
}

fn invalid_pin() -> (r: PersonError)
    ensures
        r is InvalidPin,
        r->InvalidPin_0@ == invalid_pin_reason(),
{
    PersonError::InvalidPin("Couldnt parse pin".to_owned())
}

/// `t1` falls on or before `t2`.
pub open spec fn date_le(t1: Date, t2: Date) -> bool {
    ||| t1.year < t2.year
    ||| t1.year == t2.year && t1.month < t2.month
    ||| t1.year == t2.year && t1.month == t2.month && t1.day <= t2.day
}

/// The age never falls as the reference date moves forward: a later date gives at
/// least the same age, a birth after the later date lies after the earlier one too,
/// and an age past the limit on the earlier date stays past it.
pub proof fn lemma_age_monotone(b: Birthday, t1: Date, t2: Date)
    requires
        date_le(t1, t2),
    ensures
        age_years(b, t1) <= age_years(b, t2),
        age_at(b, t1) is Ok && age_at(b, t2) is Ok ==> age_at(b, t1)->Ok_0 <= age_at(
            b,
            t2,
        )->Ok_0,
        age_at(b, t2) == Err::<u8, PersonError>(PersonError::FutureBirthday) ==> age_at(b, t1)
            == Err::<u8, PersonError>(PersonError::FutureBirthday),
        age_at(b, t1) == Err::<u8, PersonError>(PersonError::LongDead) ==> age_at(b, t2)
            == Err::<u8, PersonError>(PersonError::LongDead),
{
}

/// A reference date in a year before the birth year gives `FutureBirthday`.
pub proof fn lemma_earlier_year_is_future(b: Birthday, t: Date)
    requires
        t.year < b.year,
    ensures
        age_at(b, t) == Err::<u8, PersonError>(PersonError::FutureBirthday),
{
}

/// A gap of more than `OLDEST_PERSON` years between the birth year and the year of
/// the reference date gives `LongDead`, unless the gap is exactly one year more and
/// the birthday has not yet come round: the age is then `OLDEST_PERSON` itself.
pub proof fn lemma_long_dead(b: Birthday, t: Date)
    requires
        t.year - b.year > OLDEST_PERSON,
        !(t.year - b.year == OLDEST_PERSON + 1 && before_birthday(b, t)),
    ensures
        age_at(b, t) == Err::<u8, PersonError>(PersonError::LongDead),
{
}

/// The 10-byte form of an identity number and the 12-byte form that writes out the
/// century as "20" parse alike.
pub proof fn lemma_century_forms_agree(b: Seq<u8>)
    requires
        b.len() == 10,
    ensures
        forall|r: Result<Birthday, PersonError>|
            parse_outcome(b, r) == parse_outcome(seq![50u8, 48u8] + b, r),
{
    let c = seq![50u8, 48u8] + b;
    assert(padded(c) =~= c);
    assert(year_field(b) =~= b.subrange(0, 2));
    assert(month_field(b) =~= b.subrange(2, 4));
    assert(day_field(b) =~= b.subrange(4, 6));
    assert(month_field(c) =~= b.subrange(2, 4));
    assert(day_field(c) =~= b.subrange(4, 6));
    let y = year_field(c);
    let y1 = seq![50u8];
    let y2 = seq![50u8, 48u8];
    let y3 = seq![50u8, 48u8, b[0]];
    assert(y =~= y3.push(b[1]));
    assert(y3 =~= y2.push(b[0]));
    assert(y2 =~= y1.push(48u8));
    assert(y1 =~= Seq::<u8>::empty().push(50u8));
    assert(y.drop_last() =~= y3);
    assert(y3.drop_last() =~= y2);
    assert(y2.drop_last() =~= y1);
    assert(y1.drop_last() =~= Seq::<u8>::empty());
    assert(digits_value(Seq::<u8>::empty()) == 0);
    assert(y1.last() == 50u8 && y2.last() == 48u8 && y3.last() == b[0] && y.last() == b[1]);
    assert(digits_value(y1) == 2);
    assert(digits_value(y2) == 20);
    assert(digits_value(y3) == 200 + (b[0] - 48) as nat);
    let d1 = seq![b[0]];
    assert(b.subrange(0, 2).drop_last() =~= d1);
    assert(d1.drop_last() =~= Seq::<u8>::empty());
    assert(digits_value(d1) == (b[0] - 48) as nat);
    assert(all_digits(year_field(c)) == all_digits(year_field(b))) by {
        if all_digits(year_field(b)) {
            assert(is_digit(year_field(b)[0]) && is_digit(year_field(b)[1]));
        }
        if all_digits(year_field(c)) {
            assert(is_digit(y[2]) && is_digit(y[3]));
        }
    }
    assert(pin_year(c) == pin_year(b));
}

} // verus!
