use wiki_search::date::{parse_date, Date, TitleDate, WikiTimestamp};
use wiki_search::error::Error;

fn assert_parse(title_date: &TitleDate, s: &str) {
    let parsed = TitleDate::parse(s);
    assert_eq!(title_date, &parsed);
}

#[test]
fn title_date_parsing() {
    let date = Date { year: 2023, month: 1, day: 1 };
    let title_date = &TitleDate(Some(date));

    assert_parse(title_date, "Jan 1, 2023");
    assert_parse(title_date, "Jan 01, 2023");
    assert_parse(title_date, "Jan 1, 2023/Note");
    assert_parse(title_date, "2023-01");
    assert_parse(title_date, "2023");
}

#[test]
fn title_date_full_and_cjk_formats() {
    let d = TitleDate::parse("2023-04-09");
    assert_eq!(d, TitleDate(Some(Date { year: 2023, month: 4, day: 9 })));
    let d = TitleDate::parse("2023年04月09日");
    assert_eq!(d, TitleDate(Some(Date { year: 2023, month: 4, day: 9 })));
    let d = TitleDate::parse("2023 Apr");
    assert_eq!(d, TitleDate(Some(Date { year: 2023, month: 4, day: 1 })));
    let d = TitleDate::parse("Some_Diary_Jan 2, 2023");
    assert_eq!(d, TitleDate(None));
}

#[test]
fn title_date_rejects_out_of_window_years() {
    assert_eq!(TitleDate::parse("1600"), TitleDate(None));
    assert_eq!(TitleDate::parse("9999"), TitleDate(None));
    assert_eq!(TitleDate::parse("Feb 30, 2023"), TitleDate(None));
}

#[test]
fn title_date_timestamp() {
    let td = TitleDate(Some(Date { year: 2020, month: 1, day: 1 }));
    assert_eq!(td.timestamp(), Some(1_577_836_800));
    assert_eq!(TitleDate(None).timestamp(), None);
}

#[test]
fn parse_date_exact_value() {
    assert_eq!(parse_date("2020-01-01").unwrap(), 1_577_836_800);
    assert_eq!(parse_date("1970-01-01").unwrap(), 0);
}

#[test]
fn parse_date_rejects_bad_input() {
    assert!(matches!(parse_date(""), Err(Error::InvalidDate(_))));
    assert!(matches!(parse_date("2020-13-01"), Err(Error::InvalidDate(_))));
    assert!(matches!(parse_date("1600-01-01"), Err(Error::InvalidDate(_))));
    assert!(matches!(parse_date("garbage"), Err(Error::InvalidDate(_))));
    assert!(matches!(parse_date("2020-01-01x"), Err(Error::InvalidDate(_))));
}

#[test]
fn wiki_timestamp_parsing() {
    let w = WikiTimestamp::parse("20230102030405").unwrap();
    assert_eq!(w.timestamp(), 1_672_628_645);
    assert!(matches!(
        WikiTimestamp::parse("2023010203040"),
        Err(Error::InvalidDate(_))
    ));
    assert!(matches!(
        WikiTimestamp::parse("20230002030405"),
        Err(Error::InvalidDate(_))
    ));
}

#[test]
fn leap_years_in_calendar() {
    let feb29 = TitleDate::parse("Feb 29, 2020");
    assert_eq!(feb29, TitleDate(Some(Date { year: 2020, month: 2, day: 29 })));
    assert_eq!(TitleDate::parse("Feb 29, 2021"), TitleDate(None));
}
