use tech_log_parser::date::{bom_length, file_name_valid, parse_date_file, LogDate};
use tech_log_parser::record::parse_record;
use tech_log_parser::scanner::{ParseError, Parser};
use tech_log_parser::stream::{parse_buffer, StreamBuffer};

const RECORD: &[u8] = b"57:20.886000-123,EXCP,0,process=rphost,OSThread=252,Exception=0874860b-2b41-45e1-bc2b-6e186eb37771\r\n";

fn base_date() -> LogDate {
    parse_date_file("24010415.log").unwrap()
}

fn names_and_props(bytes: &[u8]) -> Vec<(String, Vec<(String, String)>)> {
    let scan = parse_buffer(bytes, &base_date());
    scan.events
        .iter()
        .map(|e| {
            (
                e.name.to_string(),
                e.properties.as_slice().iter().map(|(k, v)| (k.to_string(), v.str())).collect(),
            )
        })
        .collect()
}

/// Feeds `chunks` one after another, reading records after each.
fn run_stream(chunks: &[&[u8]]) -> (Vec<(String, Vec<(String, String)>)>, Result<(), ParseError>) {
    let date = base_date();
    let mut stream = StreamBuffer::new();
    let mut out = Vec::new();
    for chunk in chunks {
        stream.feed(chunk);
        let scan = parse_buffer(stream.bytes(), &date);
        for e in scan.events.iter() {
            out.push((
                e.name.to_string(),
                e.properties.as_slice().iter().map(|(k, v)| (k.to_string(), v.str())).collect(),
            ));
        }
        if scan.invalid {
            return (out, Err(ParseError::InvalidFormat));
        }
        let consumed = scan.consumed;
        drop(scan);
        stream.consume(consumed);
    }
    (out, stream.end_of_input())
}

#[test]
fn file_name_gives_date_and_hour() {
    assert_eq!(
        parse_date_file("24010415.log"),
        Some(LogDate { year: 2024, month: 1, day: 4, hour: 15, minute: 0, second: 0, nanosecond: 0 })
    );
    assert_eq!(parse_date_file("2401041"), None);
    assert_eq!(parse_date_file("24013215"), None);
    assert_eq!(parse_date_file("24022915.log").map(|d| d.day), Some(29));
    assert_eq!(parse_date_file("23022915.log"), None);
    assert_eq!(parse_date_file("24010425.log"), None);
    assert_eq!(parse_date_file("2401+415.log"), None);
}

#[test]
fn byte_order_mark_is_detected() {
    assert_eq!(bom_length(&[0xEF, 0xBB, 0xBF, b'5']), 3);
    assert_eq!(bom_length(b"57:20"), 0);
    assert_eq!(bom_length(&[0xEF, 0xBB]), 0);
}

#[test]
fn example_record_parses_to_its_event() {
    let mut parser = Parser::new(RECORD);
    let event = parse_record(&mut parser, &base_date()).unwrap();
    assert_eq!(
        event.date,
        LogDate { year: 2024, month: 1, day: 4, hour: 15, minute: 57, second: 20, nanosecond: 886000000 }
    );
    assert_eq!(event.duration, 123);
    assert_eq!(event.name, "EXCP");
    assert_eq!(event.level, 0);
    let props: Vec<(String, String)> =
        event.properties.as_slice().iter().map(|(k, v)| (k.to_string(), v.str())).collect();
    assert_eq!(
        props,
        vec![
            ("process".to_string(), "rphost".to_string()),
            ("OSThread".to_string(), "252".to_string()),
            ("Exception".to_string(), "0874860b-2b41-45e1-bc2b-6e186eb37771".to_string()),
        ]
    );
    assert_eq!(parser.position(), RECORD.len());
}

#[test]
fn cut_record_is_incomplete() {
    let mut parser = Parser::new(&RECORD[..40]);
    assert_eq!(parse_record(&mut parser, &base_date()).err(), Some(ParseError::End));
}

#[test]
fn minute_out_of_range_is_invalid() {
    let mut parser = Parser::new(b"61:20.886000-123,EXCP,0,p=1\r\n");
    assert_eq!(parse_record(&mut parser, &base_date()).err(), Some(ParseError::InvalidFormat));
}

#[test]
fn duplicate_keys_are_kept_in_order() {
    let got = names_and_props(b"00:00.000000-1,A,1,k=1,k=2\r\n");
    assert_eq!(
        got,
        vec![("A".to_string(), vec![("k".to_string(), "1".to_string()), ("k".to_string(), "2".to_string())])]
    );
}

#[test]
fn buffer_scan_stops_at_partial_record() {
    let mut bytes = RECORD.to_vec();
    bytes.extend_from_slice(b"00:01.000000-5,CALL,2,a=b");
    let scan = parse_buffer(&bytes, &base_date());
    assert_eq!(scan.events.len(), 1);
    assert_eq!(scan.consumed, RECORD.len());
    assert!(!scan.invalid);
}

#[test]
fn buffer_scan_reports_malformed_record() {
    let mut bytes = RECORD.to_vec();
    bytes.extend_from_slice(b"zz:01.000000-5,CALL,2,a=b\r\n");
    let scan = parse_buffer(&bytes, &base_date());
    assert_eq!(scan.events.len(), 1);
    assert_eq!(scan.consumed, RECORD.len());
    assert!(scan.invalid);
}

#[test]
fn split_at_any_offset_gives_same_events() {
    let mut bytes = RECORD.to_vec();
    bytes.extend_from_slice(b"00:01.000000-5,CALL,2,Sql='SELECT 1\r\nFROM v8users',x=\"\"\r\n");
    bytes.extend_from_slice(b"00:02.000000-7,EXCP,1,Descr=boom\r\n");
    let whole = run_stream(&[&bytes]);
    assert_eq!(whole.0.len(), 3);
    assert_eq!(whole.1, Ok(()));
    for k in 0..=bytes.len() {
        let split = run_stream(&[&bytes[..k], &bytes[k..]]);
        assert_eq!(split, whole, "split at {}", k);
    }
}

#[test]
fn value_longer_than_a_chunk_still_parses() {
    let big = "x".repeat(5000);
    let record = format!("00:01.000000-5,CALL,2,Big='{}',after=1\r\n", big);
    let bytes = record.as_bytes();
    let chunks: Vec<&[u8]> = bytes.chunks(64).collect();
    let (events, end) = run_stream(&chunks);
    assert_eq!(end, Ok(()));
    assert_eq!(events.len(), 1);
    assert_eq!(events[0].1[0].1, big);
    assert_eq!(events[0].1[1], ("after".to_string(), "1".to_string()));
}

#[test]
fn leftover_bytes_at_end_are_invalid() {
    let (events, end) = run_stream(&[RECORD, b"00:01.0000"]);
    assert_eq!(events.len(), 1);
    assert_eq!(end, Err(ParseError::InvalidFormat));
}

#[test]
fn log_file_names() {
    assert!(file_name_valid("24010415.log"));
    assert!(!file_name_valid("24010415.txt"));
    assert!(!file_name_valid("2401041.log"));
    assert!(!file_name_valid("2401041a.log"));
    assert!(!file_name_valid("240104155.log"));
}
