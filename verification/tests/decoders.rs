use filmliste::{parse_date, parse_time, parse_url_suffix, Date, Error, Time};

#[test]
fn url_suffix() {
    assert_eq!(None, parse_url_suffix("foo://bar", "".to_owned()).unwrap());

    assert_eq!(
        Some("foo://bar/qux".to_owned()),
        parse_url_suffix("foo://bar", "/qux".to_owned()).unwrap()
    );

    assert_eq!(
        Some("foo://bar/qux".to_owned()),
        parse_url_suffix("foo://bar/baz", "10|qux".to_owned()).unwrap()
    );
}

#[test]
fn url_suffix_empty_field_is_none() {
    assert_eq!(Ok(None), parse_url_suffix("foo://bar", String::new()));
}

#[test]
fn url_suffix_index_beyond_url_fails() {
    assert_eq!(
        Err(Error::UrlSuffix),
        parse_url_suffix("foo://bar", "999|qux".to_owned())
    );
}

#[test]
fn url_suffix_index_at_end_keeps_whole_url() {
    assert_eq!(
        Ok(Some("foo://bar/qux".to_owned())),
        parse_url_suffix("foo://bar", "9|/qux".to_owned())
    );
    assert_eq!(
        Err(Error::UrlSuffix),
        parse_url_suffix("foo://bar", "10|/qux".to_owned())
    );
}

#[test]
fn url_suffix_index_zero_keeps_nothing() {
    assert_eq!(
        Ok(Some("qux".to_owned())),
        parse_url_suffix("foo://bar", "0|qux".to_owned())
    );
    assert_eq!(
        Ok(Some(String::new())),
        parse_url_suffix("foo://bar", "0|".to_owned())
    );
}

#[test]
fn url_suffix_index_must_be_decimal() {
    assert_eq!(
        Err(Error::NumericParse),
        parse_url_suffix("foo://bar", "|qux".to_owned())
    );
    assert_eq!(
        Err(Error::NumericParse),
        parse_url_suffix("foo://bar", "x|qux".to_owned())
    );
    assert_eq!(
        Err(Error::NumericParse),
        parse_url_suffix("foo://bar", "-1|qux".to_owned())
    );
    assert_eq!(
        Err(Error::NumericParse),
        parse_url_suffix("foo://bar", " 3|qux".to_owned())
    );
    assert_eq!(
        Err(Error::NumericParse),
        parse_url_suffix("foo://bar", "99999999999999999999999999|qux".to_owned())
    );
    assert_eq!(
        Ok(Some("fooqux".to_owned())),
        parse_url_suffix("foo://bar", "+3|qux".to_owned())
    );
}

#[test]
fn url_suffix_splits_at_the_first_bar() {
    assert_eq!(
        Ok(Some("foo|b|c".to_owned())),
        parse_url_suffix("foo://bar", "3||b|c".to_owned())
    );
}

#[test]
fn url_suffix_index_inside_a_character_fails() {
    // "é" takes two bytes: 1 is inside it, 2 is behind it.
    assert_eq!(
        Err(Error::UrlSuffix),
        parse_url_suffix("éa", "1|x".to_owned())
    );
    assert_eq!(
        Ok(Some("éx".to_owned())),
        parse_url_suffix("éa", "2|x".to_owned())
    );
    assert_eq!(
        Ok(Some("éaü|".to_owned())),
        parse_url_suffix("éa", "3|ü|".to_owned())
    );
}

#[test]
fn date_of_last_day_of_1999() {
    assert_eq!(
        Ok(Date { year: 1999, month: 12, day: 31 }),
        parse_date("31.12.1999")
    );
}

#[test]
fn date_of_empty_text_is_the_sentinel() {
    assert_eq!(Ok(Date { year: 1, month: 1, day: 1 }), parse_date(""));
}

#[test]
fn date_with_missing_component_fails() {
    assert_eq!(Err(Error::NumericParse), parse_date("12.1999"));
    assert_eq!(Err(Error::NumericParse), parse_date("1999"));
    assert_eq!(Err(Error::NumericParse), parse_date("."));
    assert_eq!(Err(Error::NumericParse), parse_date("31.12."));
}

#[test]
fn date_with_non_numeric_component_fails() {
    assert_eq!(Err(Error::NumericParse), parse_date("a.12.1999"));
    assert_eq!(Err(Error::NumericParse), parse_date("31.b.1999"));
    assert_eq!(Err(Error::NumericParse), parse_date("31.12.c"));
    assert_eq!(Err(Error::NumericParse), parse_date("31.12.19 99"));
    assert_eq!(Err(Error::NumericParse), parse_date("-1.12.1999"));
    assert_eq!(Err(Error::NumericParse), parse_date("4294967296.12.1999"));
}

#[test]
fn date_out_of_range_fails() {
    assert_eq!(Err(Error::NumericParse), parse_date("0.1.2000"));
    assert_eq!(Err(Error::NumericParse), parse_date("32.1.2000"));
    assert_eq!(Err(Error::NumericParse), parse_date("1.0.2000"));
    assert_eq!(Err(Error::NumericParse), parse_date("1.13.2000"));
    assert_eq!(Err(Error::NumericParse), parse_date("31.4.2000"));
    assert_eq!(Err(Error::NumericParse), parse_date("29.2.1900"));
    assert_eq!(Err(Error::NumericParse), parse_date("29.2.2023"));
    assert_eq!(Err(Error::NumericParse), parse_date("1.1.262143"));
    assert_eq!(Err(Error::NumericParse), parse_date("1.1.-262144"));
}

#[test]
fn date_in_range_is_read() {
    assert_eq!(
        Ok(Date { year: 2000, month: 2, day: 29 }),
        parse_date("29.2.2000")
    );
    assert_eq!(
        Ok(Date { year: 2024, month: 2, day: 29 }),
        parse_date("29.02.2024")
    );
    assert_eq!(
        Ok(Date { year: 262142, month: 12, day: 31 }),
        parse_date("31.12.262142")
    );
    assert_eq!(
        Ok(Date { year: -262143, month: 1, day: 1 }),
        parse_date("1.1.-262143")
    );
    assert_eq!(
        Ok(Date { year: -4, month: 2, day: 29 }),
        parse_date("29.2.-4")
    );
    assert_eq!(
        Ok(Date { year: 7, month: 8, day: 9 }),
        parse_date("+09.+08.+0007")
    );
}

#[test]
fn date_with_more_than_three_components_fails() {
    assert_eq!(Err(Error::NumericParse), parse_date("1.1.2000.5"));
    assert_eq!(Err(Error::NumericParse), parse_date("1.1.2000.rest"));
    assert_eq!(Err(Error::NumericParse), parse_date("1.1.2000."));
    assert_eq!(Err(Error::NumericParse), parse_date("1.1.2000.."));
    assert_eq!(Err(Error::NumericParse), parse_date(".1.1.2000"));
    assert_eq!(Err(Error::NumericParse), parse_date(".."));
    assert_eq!(Err(Error::NumericParse), parse_date("..."));
}

#[test]
fn time_with_more_than_three_components_fails() {
    assert_eq!(Err(Error::NumericParse), parse_time("10:00:00:5"));
    assert_eq!(Err(Error::NumericParse), parse_time("10:00:00:"));
    assert_eq!(Err(Error::NumericParse), parse_time(":10:00:00"));
    assert_eq!(Err(Error::NumericParse), parse_time("10:00:00:00:00"));
    assert_eq!(Err(Error::NumericParse), parse_time("::"));
}

#[test]
fn time_of_day_is_read() {
    assert_eq!(
        Ok(Time { hour: 10, minute: 0, second: 0 }),
        parse_time("10:00:00")
    );
    assert_eq!(
        Ok(Time { hour: 23, minute: 59, second: 59 }),
        parse_time("23:59:59")
    );
    assert_eq!(
        Ok(Time { hour: 0, minute: 30, second: 0 }),
        parse_time("00:30:00")
    );
}

#[test]
fn time_of_empty_text_is_midnight() {
    assert_eq!(Ok(Time { hour: 0, minute: 0, second: 0 }), parse_time(""));
}

#[test]
fn time_with_missing_or_bad_component_fails() {
    assert_eq!(Err(Error::NumericParse), parse_time("10:00"));
    assert_eq!(Err(Error::NumericParse), parse_time("10"));
    assert_eq!(Err(Error::NumericParse), parse_time("10:xx:00"));
    assert_eq!(Err(Error::NumericParse), parse_time("10.00.00"));
}

#[test]
fn time_out_of_range_fails() {
    assert_eq!(Err(Error::NumericParse), parse_time("24:00:00"));
    assert_eq!(Err(Error::NumericParse), parse_time("23:60:00"));
    assert_eq!(Err(Error::NumericParse), parse_time("23:59:60"));
}

#[test]
fn date_from_ymd_knows_the_calendar() {
    assert_eq!(
        Some(Date { year: 2015, month: 3, day: 14 }),
        Date::from_ymd(2015, 3, 14)
    );
    assert_eq!(None, Date::from_ymd(2015, 0, 14));
    assert_eq!(None, Date::from_ymd(2015, 2, 29));
    assert_eq!(None, Date::from_ymd(400000, 1, 1));
    assert_eq!(None, Date::from_ymd(-400000, 1, 1));
    assert_eq!(Date { year: 1, month: 1, day: 1 }, Date::none_given());
}

#[test]
fn time_from_hms_knows_the_clock() {
    assert_eq!(
        Some(Time { hour: 23, minute: 59, second: 59 }),
        Time::from_hms(23, 59, 59)
    );
    assert_eq!(None, Time::from_hms(24, 0, 0));
    assert_eq!(None, Time::from_hms(0, 60, 0));
    assert_eq!(None, Time::from_hms(0, 0, 60));
    assert_eq!(Time { hour: 0, minute: 0, second: 0 }, Time::none_given());
}
