use personnummer::{validate_pin, Birthday, Csv, Date, Person, PersonError};

fn date(year: i32, month: u8, day: u8) -> Date {
    Date { year, month, day }
}

#[test]
fn test_validate_pin() {
    assert!(validate_pin("0603179276"));
    assert!(validate_pin("0610092454"));
    assert!(validate_pin("7601010205"));
    assert!(!validate_pin("81121898765"));
    assert!(!validate_pin("8a121898765"));
    assert!(!validate_pin("f0610092454"));
    assert!(!validate_pin("12345"));
    assert!(!validate_pin(""));
}

#[test]
fn checksum_uses_last_ten_digits_of_long_form() {
    assert!(validate_pin("200603179276"));
    assert!(validate_pin("190610092454"));
    assert!(!validate_pin("200603179277"));
}

#[test]
fn checksum_rejects_wrong_check_digit() {
    assert!(!validate_pin("0603179275"));
    assert!(!validate_pin("7601010206"));
}

#[test]
fn checksum_skips_spaces() {
    assert!(validate_pin("060317 9276"));
    assert!(!validate_pin("060317-9276"));
}

#[test]
fn checksum_wrong_digit_counts() {
    assert!(!validate_pin("060317927"));
    assert!(!validate_pin("06031792761"));
    assert!(!validate_pin("0000000000000"));
}

#[test]
fn checksum_all_zero_pin_is_valid() {
    assert!(validate_pin("0000000000"));
}

#[test]
fn checksum_rejects_non_ascii() {
    assert!(!validate_pin("06031792é6"));
}

#[test]
fn checksum_is_repeatable() {
    for pin in ["0603179276", "8a121898765", "", "12345"] {
        assert_eq!(validate_pin(pin), validate_pin(pin));
    }
}

#[test]
fn parse_long_and_short_forms_agree() {
    let long = Birthday::from_str("200603179276");
    let short = Birthday::from_str("0603179276");
    assert_eq!(long, Ok(Birthday::new(2006, 3, 17)));
    assert_eq!(short, Ok(Birthday::new(2006, 3, 17)));
}

#[test]
fn parse_long_form_keeps_century() {
    assert_eq!(
        Birthday::from_str("197601010205"),
        Ok(Birthday { year: 1976, month: 1, day: 1 })
    );
}

#[test]
fn parse_short_form_is_read_as_twenty_first_century() {
    assert_eq!(
        Birthday::from_str("7601010205"),
        Ok(Birthday { year: 2076, month: 1, day: 1 })
    );
}

#[test]
fn parse_does_not_check_the_calendar() {
    assert_eq!(
        Birthday::from_str("0613329276"),
        Ok(Birthday { year: 2006, month: 13, day: 32 })
    );
}

#[test]
fn parse_wrong_length() {
    assert_eq!(Birthday::from_str("12345"), Err(PersonError::InvalidPinLength(5)));
    assert_eq!(Birthday::from_str(""), Err(PersonError::InvalidPinLength(0)));
    assert_eq!(
        Birthday::from_str("81121898765"),
        Err(PersonError::InvalidPinLength(11))
    );
}

#[test]
fn parse_non_digit_field() {
    assert!(matches!(
        Birthday::from_str("06a3179276"),
        Err(PersonError::InvalidPin(_))
    ));
    assert!(matches!(
        Birthday::from_str("2006031x9276"),
        Err(PersonError::InvalidPin(_))
    ));
    assert!(matches!(
        Birthday::from_str("+603179276"),
        Err(PersonError::InvalidPin(_))
    ));
}

#[test]
fn parse_ignores_checksum_part() {
    assert_eq!(
        Birthday::from_str("060317abcd"),
        Ok(Birthday::new(2006, 3, 17))
    );
}

#[test]
fn parse_non_ascii_does_not_panic() {
    // Two two-byte characters make twelve bytes in all.
    assert!(matches!(
        Birthday::from_str("åå03179276"),
        Err(PersonError::InvalidPin(_))
    ));
}

#[test]
fn parse_is_repeatable() {
    for pin in ["200603179276", "06a3179276", "12345"] {
        assert_eq!(Birthday::from_str(pin), Birthday::from_str(pin));
    }
}

#[test]
fn age_around_birthday() {
    let b = Birthday::new(2000, 6, 15);
    assert_eq!(b.age_on(&date(2020, 6, 14)), Ok(19));
    assert_eq!(b.age_on(&date(2020, 6, 15)), Ok(20));
    assert_eq!(b.age_on(&date(2020, 5, 31)), Ok(19));
    assert_eq!(b.age_on(&date(2020, 7, 1)), Ok(20));
}

#[test]
fn age_never_falls_as_date_moves_forward() {
    let b = Birthday::new(2000, 6, 15);
    let dates = [
        date(2000, 6, 15),
        date(2000, 12, 31),
        date(2001, 6, 14),
        date(2001, 6, 15),
        date(2019, 1, 1),
        date(2020, 6, 15),
    ];
    let mut last = 0u8;
    for d in dates {
        let a = b.age_on(&d).unwrap();
        assert!(a >= last);
        last = a;
    }
    assert_eq!(last, 20);
}

#[test]
fn age_on_birth_date_is_zero() {
    assert_eq!(Birthday::new(2024, 2, 29).age_on(&date(2024, 2, 29)), Ok(0));
}

#[test]
fn age_future_year() {
    let b = Birthday::new(2030, 1, 1);
    assert_eq!(b.age_on(&date(2026, 10, 19)), Err(PersonError::FutureBirthday));
}

#[test]
fn age_later_in_same_year_is_future() {
    let b = Birthday::new(2026, 12, 24);
    assert_eq!(b.age_on(&date(2026, 10, 19)), Err(PersonError::FutureBirthday));
    assert_eq!(
        Birthday::new(2026, 10, 20).age_on(&date(2026, 10, 19)),
        Err(PersonError::FutureBirthday)
    );
}

#[test]
fn age_long_dead() {
    let b = Birthday::new(1900, 1, 1);
    assert_eq!(b.age_on(&date(2021, 6, 1)), Err(PersonError::LongDead));
    assert_eq!(b.age_on(&date(2026, 10, 19)), Err(PersonError::LongDead));
}

#[test]
fn age_at_oldest_limit() {
    let b = Birthday::new(1900, 6, 15);
    assert_eq!(b.age_on(&date(2020, 6, 15)), Ok(120));
    assert_eq!(b.age_on(&date(2021, 6, 14)), Ok(120));
    assert_eq!(b.age_on(&date(2021, 6, 15)), Err(PersonError::LongDead));
}

#[test]
fn age_from_clock_is_plausible() {
    match Birthday::new(2000, 1, 1).age() {
        Ok(a) => assert!(a >= 25),
        Err(e) => panic!("unexpected error {:?}", e),
    }
}

#[test]
fn person_on_date() {
    let p = Person::new_on("Anna", "0603179276", &date(2026, 10, 19));
    assert_eq!(p.name, "Anna");
    assert_eq!(p.pin, "0603179276");
    assert_eq!(p.age, Ok(20));
    assert!(p.is_adult());
    assert!(!p.has_invalid_pin());
}

#[test]
fn person_minor() {
    let p = Person::new_on("Bo", "0610092454", &date(2020, 1, 1));
    assert_eq!(p.age, Ok(13));
    assert!(!p.is_adult());
    assert!(!p.has_invalid_pin());
}

#[test]
fn person_bad_checksum_is_invalid() {
    let p = Person::new_on("Cecilia", "0603179275", &date(2026, 10, 19));
    assert_eq!(p.age, Ok(20));
    assert!(p.is_adult());
    assert!(p.has_invalid_pin());
}

#[test]
fn person_parse_errors() {
    let p = Person::new("Dan", "12345");
    assert_eq!(p.age, Err(PersonError::InvalidPinLength(5)));
    assert!(!p.is_adult());
    assert!(p.has_invalid_pin());
    let q = Person::new("Eva", "06a3179276");
    assert!(matches!(q.age, Err(PersonError::InvalidPin(_))));
}

#[test]
fn person_future_birthday_is_invalid() {
    let p = Person::new_on("Fia", "7601010205", &date(2026, 10, 19));
    assert_eq!(p.age, Err(PersonError::FutureBirthday));
    assert!(p.has_invalid_pin());
}

fn strings(v: &[&str]) -> Vec<String> {
    v.iter().map(|s| s.to_string()).collect()
}

#[test]
fn csv_headers_are_lowercased() {
    let csv = Csv::new(
        &strings(&["Namn", "PERSONNUMMER"]),
        vec![strings(&["Anna", "0603179276"])],
    )
    .unwrap();
    assert_eq!(csv.headers, strings(&["namn", "personnummer"]));
    assert!(csv.contains_row("namn"));
    assert!(!csv.contains_row("Namn"));
    assert!(csv.contains_rows(&["namn", "personnummer"]));
    assert!(!csv.contains_rows(&["namn", "adress"]));
    assert!(csv.contains_rows(&[]));
}

#[test]
fn csv_without_records_has_no_rows() {
    let csv = Csv::new(&strings(&["namn", "personnummer"]), vec![]).unwrap();
    assert!(!csv.contains_row("namn"));
    assert!(!csv.contains_rows(&["namn"]));
    assert_eq!(csv.column("namn"), Some(0));
}

#[test]
fn csv_rejects_uneven_records() {
    let csv = Csv::new(
        &strings(&["namn", "personnummer"]),
        vec![strings(&["Anna", "0603179276"]), strings(&["Bo"])],
    );
    assert!(csv.is_none());
}

#[test]
fn csv_rows_and_columns() {
    let csv = Csv::new(
        &strings(&["Namn", "Personnummer", "namn"]),
        vec![
            strings(&["Anna", "0603179276", "A"]),
            strings(&["Bo", "0610092454", "B"]),
        ],
    )
    .unwrap();
    assert_eq!(csv.column("namn"), Some(2));
    assert_eq!(csv.column("personnummer"), Some(1));
    assert_eq!(csv.column("adress"), None);
    assert_eq!(csv.rows().len(), 2);
    assert_eq!(csv.rows()[1][1], "0610092454");
}
