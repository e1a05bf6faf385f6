use tech_log_parser::scanner::{EndError, ParseError, ParseResult, Parser};
use tech_log_parser::types::{Escape, LogStr};

#[test]
fn test1() -> ParseResult<()> {
    let buf = b"57:20.886000-123,EXCP,0,process=rphost,OSThread=252,Exception=0874860b-2b41-45e1-bc2b-6e186eb37771\r\n";
    let mut parser = Parser::new(buf);

    let min = parser.parse_number(b':')?;
    let sec = parser.parse_number(b'.')?;
    let msec = parser.parse_number(b'-')?;
    let duration = parser.parse_number(b',')?;
    let name = parser.parse_name(b',')?;
    let level = parser.parse_number(b',')?;

    assert_eq!(min, 57);
    assert_eq!(sec, 20);
    assert_eq!(msec, 886000);
    assert_eq!(duration, 123);
    assert_eq!(name, "EXCP");
    assert_eq!(level, 0);

    let name = parser.parse_name(b'=')?;
    let value = parser.parse_value()?;
    assert_eq!(name, "process");
    assert_eq!(value.str(), "rphost");

    let name = parser.parse_name(b'=')?;
    let value = parser.parse_value()?;
    assert_eq!(name, "OSThread");
    assert_eq!(value.str(), "252");

    let name = parser.parse_name(b'=')?;
    let value = parser.parse_value()?;
    assert_eq!(name, "Exception");
    assert_eq!(value.str(), "0874860b-2b41-45e1-bc2b-6e186eb37771");

    Ok(())
}

#[test]
fn test2() -> ParseResult<()> {
    let buf = b"Test1=\"Test2\"\r\n";
    let mut parser = Parser::new(buf);

    let name = parser.parse_name(b'=')?;
    let value = parser.parse_value()?;
    assert_eq!(name, "Test1");
    assert_eq!(value.str(), "Test2");

    Ok(())
}

#[test]
fn test3() -> ParseResult<()> {
    let buf = b"Test1='Test2'\r\n";
    let mut parser = Parser::new(buf);

    let name = parser.parse_name(b'=')?;
    let value = parser.parse_value()?;
    assert_eq!(name, "Test1");
    assert_eq!(value.str(), "Test2");

    Ok(())
}

#[test]
fn test4() -> ParseResult<()> {
    let buf = b"Test3='Test4''Test5'\r\n";
    let mut parser = Parser::new(buf);

    let name = parser.parse_name(b'=')?;
    let value = parser.parse_value()?;
    assert_eq!(name, "Test3");
    assert_eq!(value.str(), "Test4'Test5");

    Ok(())
}

#[test]
fn test5() -> ParseResult<()> {
    let buf = b"Empty1=,Empty2=\r\n";
    let mut parser = Parser::new(buf);

    let name = parser.parse_name(b'=')?;
    let value = parser.parse_value()?;
    assert_eq!(name, "Empty1");
    assert_eq!(value.str(), "");

    let name = parser.parse_name(b'=')?;
    let value = parser.parse_value()?;
    assert_eq!(name, "Empty2");
    assert_eq!(value.str(), "");

    Ok(())
}

#[test]
fn cursor_primitives() {
    let buf = b"ab,c";
    let mut parser = Parser::new(buf);
    assert_eq!(parser.peek(), Ok(b'a'));
    assert_eq!(parser.next(), Ok(b'a'));
    assert_eq!(parser.position(), 1);
    assert!(parser.skip(5).is_err());
    assert_eq!(parser.position(), 1);
    assert!(parser.skip_to(b',').is_ok());
    assert_eq!(parser.position(), 3);
    assert!(parser.skip_to(b',').is_err());
    assert!(parser.skip_to2(b'x', b'c').is_ok());
    assert_eq!(parser.position(), 4);
    assert!(parser.next().is_err());
    assert!(parser.peek().is_err());
}

#[test]
fn number_rejects_non_digit() {
    let mut parser = Parser::new(b"1x2:");
    assert_eq!(parser.parse_number(b':'), Err(ParseError::InvalidFormat));
}

#[test]
fn number_needs_its_delimiter() {
    let mut parser = Parser::new(b"123");
    assert_eq!(parser.parse_number(b':'), Err(ParseError::End));
}

#[test]
fn number_overflow_is_invalid() {
    let mut parser = Parser::new(b"99999999999999999999999:");
    assert_eq!(parser.parse_number(b':'), Err(ParseError::InvalidFormat));
}

#[test]
fn name_must_be_utf8() {
    let mut parser = Parser::new(b"\xff\xfe,");
    assert_eq!(parser.parse_name(b','), Err(ParseError::InvalidFormat));
}

#[test]
fn quoted_value_keeps_commas_and_line_breaks() -> ParseResult<()> {
    let mut parser = Parser::new(b"Descr='a,b\r\nc',Next=1\r\n");
    assert_eq!(parser.parse_name(b'=')?, "Descr");
    assert_eq!(parser.parse_value()?.str(), "a,b\r\nc");
    assert_eq!(parser.parse_name(b'=')?, "Next");
    assert_eq!(parser.parse_value()?.str(), "1");
    Ok(())
}

#[test]
fn double_quoted_escape_collapses() -> ParseResult<()> {
    let mut parser = Parser::new(b"K=\"say \"\"hi\"\"\"\r\n");
    parser.parse_name(b'=')?;
    assert_eq!(parser.parse_value()?.str(), "say \"hi\"");
    Ok(())
}

#[test]
fn unterminated_quote_asks_for_more() {
    let mut parser = Parser::new(b"K='abc");
    assert!(parser.parse_name(b'=').is_ok());
    assert_eq!(parser.parse_value().err(), Some(ParseError::End));
}

#[test]
fn plain_value_renders_bytes_and_replaces_bad_utf8() {
    assert_eq!(LogStr::new(b"a''b", Escape::Plain).str(), "a''b");
    assert_eq!(LogStr::new(b"a''b", Escape::Single).str(), "a'b");
    assert_eq!(LogStr::new(b"'''", Escape::Single).str(), "''");
    assert_eq!(LogStr::new(b"x\xffy", Escape::Plain).str(), "x\u{FFFD}y");
}

#[test]
fn end_error_converts_to_end() {
    assert_eq!(ParseError::from(EndError), ParseError::End);
}
