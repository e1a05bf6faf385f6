use tech_log_parser::addin::{select_events, Parser, RecordLimit};
use tech_log_parser::date::{parse_date_file, LogDate};
use tech_log_parser::filters::{
    key_matches, same_text, DataFilter, DurationFilter, Filter, Match, PropFilter, StrFilter,
};
use tech_log_parser::stream::parse_buffer;

const LOG: &[u8] = b"00:01.000000-10,EXCP,0,process=rphost,Descr='bad thing'\r\n\
00:02.000000-20,CALL,0,process=rmngr\r\n\
00:03.000000-30,EXCP,0,process=1cv8c,Descr=other\r\n\
00:04.000000-40,SDBL,0,Sql='SELECT * FROM v8users'\r\n\
00:05.000000-50,EXCP,0,process=rphost\r\n";

fn date() -> LogDate {
    parse_date_file("24010415.log").unwrap()
}

#[test]
fn name_filter_keeps_only_matching_events_in_order() {
    let scan = parse_buffer(LOG, &date());
    let filters = vec![Filter::Name(StrFilter::Equal("EXCP".to_string()))];
    let mut limit = RecordLimit::new(0);
    let (kept, stopped) = select_events(&filters, &scan.events, &mut limit);
    assert_eq!(kept, vec![0, 2, 4]);
    assert!(!stopped);
}

#[test]
fn limit_stops_after_exactly_n() {
    let scan = parse_buffer(LOG, &date());
    let mut limit = RecordLimit::new(2);
    let (kept, stopped) = select_events(&[], &scan.events, &mut limit);
    assert_eq!(kept, vec![0, 1]);
    assert!(stopped);

    let mut limit = RecordLimit::new(9);
    let (kept, stopped) = select_events(&[], &scan.events, &mut limit);
    assert_eq!(kept.len(), 5);
    assert!(!stopped);
}

#[test]
fn record_limit_counts() {
    let mut limit = RecordLimit::new(2);
    assert!(limit.accept());
    assert!(!limit.accept());
    let mut unbounded = RecordLimit::new(-1);
    for _ in 0..10 {
        assert!(unbounded.accept());
    }
}

#[test]
fn prop_filter_ignores_key_case() {
    let scan = parse_buffer(LOG, &date());
    let filters = vec![Filter::Prop(PropFilter {
        name: "PROCESS".to_string(),
        filter: StrFilter::InList(vec!["rmngr".to_string(), "1cv8c".to_string()]),
    })];
    let mut limit = RecordLimit::new(0);
    assert_eq!(select_events(&filters, &scan.events, &mut limit).0, vec![1, 2]);
}

#[test]
fn contains_and_regex_filters() {
    let scan = parse_buffer(LOG, &date());
    let contains = vec![Filter::Prop(PropFilter {
        name: "Sql".to_string(),
        filter: StrFilter::Contains("FROM v8users".to_string()),
    })];
    let mut limit = RecordLimit::new(0);
    assert_eq!(select_events(&contains, &scan.events, &mut limit).0, vec![3]);

    let re = Match::new("^bad.*THING$").unwrap();
    let regex = vec![Filter::Prop(PropFilter { name: "descr".to_string(), filter: StrFilter::Match(re) })];
    assert_eq!(select_events(&regex, &scan.events, &mut limit).0, vec![0]);
    assert!(Match::new("(").is_none());
}

#[test]
fn duration_and_date_filters() {
    let scan = parse_buffer(LOG, &date());
    let filters = vec![
        Filter::Duration(DurationFilter::GreaterOrEqual(20)),
        Filter::Duration(DurationFilter::LessOrEqual(40)),
        Filter::Date(DataFilter::LessOrEqual(LogDate { minute: 0, second: 3, ..date() })),
    ];
    let mut limit = RecordLimit::new(0);
    assert_eq!(select_events(&filters, &scan.events, &mut limit).0, vec![1, 2]);
    assert!(DurationFilter::GreaterOrEqual(5).check(&5));
    assert!(!DurationFilter::LessOrEqual(4).check(&5));
    assert!(DataFilter::GreaterOrEqual(date()).check(&date()));
}

#[test]
fn text_comparisons() {
    assert!(same_text("abc", "abc"));
    assert!(!same_text("abc", "abd"));
    assert!(key_matches("OSThread", "osthread"));
    assert!(!key_matches("OSThread", "osthreads"));
    assert!(StrFilter::Contains("b".to_string()).check("abc"));
    assert!(!StrFilter::Equal("b".to_string()).check("abc"));
}

#[test]
fn adapter_remembers_last_error() {
    let mut p = Parser::new();
    assert_eq!(p.last_error(), "");
    p.save_error(Some("invalid file name".to_string()));
    assert_eq!(p.last_error(), "invalid file name");
    p.save_error(None);
    assert_eq!(p.last_error(), "");
}
