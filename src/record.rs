//! One log record: `MM:SS.ffffff-DDDD,Name,Level,Key=Value,...` ended by CR LF.
use vstd::prelude::*;
use crate::date::LogDate;
use crate::scanner::{
    quoted_from, spec_name, spec_number, spec_value, ParseError, ParseResult, Parser, Scanned,
};
use crate::types::{Escape, LogStr};

verus! {

/// A property as it reads: its key, and its value's raw bytes and escaping.
pub type PropView = (Seq<char>, (Seq<u8>, Escape));

/// A record's properties, in order; the first few are held inline.
#[verifier::external_body]
pub struct Props<'a> {
    inner: smallvec::SmallVec<[(&'a str, LogStr<'a>); 32]>,
}

/// The properties a list holds, in order.
pub uninterp spec fn props_of(v: Props) -> Seq<PropView>;

impl<'a> Props<'a> {
    /// Relies on SmallVec::new: the list starts empty.
    #[verifier::external_body]
    pub fn new() -> (r: Props<'a>)
        ensures
            props_of(r) == Seq::<PropView>::empty(),
    {
        Props { inner: smallvec::SmallVec::new() }
    }

    /// Relies on SmallVec::push: the item goes at the end, the others stay.
    #[verifier::external_body]
    pub fn push(&mut self, item: (&'a str, LogStr<'a>))
        ensures
            props_of(*final(self)) == props_of(*old(self)).push(prop_view(item)),
    {
        self.inner.push(item)
    }

    /// Relies on SmallVec::as_slice: the items, in order.
    #[verifier::external_body]
    pub fn as_slice(&self) -> (r: &[(&'a str, LogStr<'a>)])
        ensures
            r@.map_values(|p: (&'a str, LogStr<'a>)| prop_view(p)) == props_of(*self),
    {
        self.inner.as_slice()
    }
}

/// A parsed record.
pub struct Event<'a> {
    pub date: LogDate,
    /// Microseconds.
    pub duration: u64,
    pub name: &'a str,
    pub level: u32,
    /// In the order they stand in the record; a key may come more than once.
    pub properties: Props<'a>,
}

pub struct EventView {
    pub date: LogDate,
    pub duration: u64,
    pub name: Seq<char>,
    pub level: u32,
    pub properties: Seq<PropView>,
}

pub open spec fn prop_view<'a>(p: (&'a str, LogStr<'a>)) -> PropView {
    (p.0@, p.1@)
}

impl<'a> View for Event<'a> {
    type V = EventView;

    open spec fn view(&self) -> EventView {
        EventView {
            date: self.date,
            duration: self.duration,
            name: self.name@,
            level: self.level,
            properties: props_of(self.properties),
        }
    }
}

/// The bytes of `s` from `i` on.
pub open spec fn tail(s: Seq<u8>, i: nat) -> Seq<u8> {
    s.subrange(i as int, s.len() as int)
}

/// A quoted value read from offset `j` ends past `j`.
pub(crate) proof fn lemma_quoted_len(s: Seq<u8>, q: u8, j: nat, esc: bool)
    ensures
        quoted_from(s, q, j, esc) matches Ok((_, n)) ==> n > j,
    decreases s.len() - j,
{
    if j <= s.len() {
        match crate::text::index_of(s.subrange(j as int, s.len() as int), q) {
            None => {},
            Some(k) => {
                let at = j + k + 1;
                if at < s.len() && !(s[at as int] == 44u8 || s[at as int] == 13u8) {
                    lemma_quoted_len(s, q, at + 1, esc || s[at as int] == q);
                }
            },
        }
    }
}

/// A value read successfully takes at least one byte.
pub proof fn lemma_value_len(s: Seq<u8>)
    ensures
        spec_value(s) matches Ok((_, n)) ==> n >= 1,
{
    if s.len() > 0 && (s[0] == 34u8 || s[0] == 39u8) {
        lemma_quoted_len(s, s[0], 1, false);
    }
}

/// The properties of a record from offset `i` of `s` on, after those in `acc`,
/// through the line feed that ends the record.
pub open spec fn props_from(s: Seq<u8>, i: nat, acc: Seq<PropView>) -> Scanned<Seq<PropView>>
    decreases s.len() - i,
{
    if i > s.len() {
        Err(ParseError::End)
    } else {
        match spec_name(tail(s, i), 61u8) {
            Err(e) => Err(e),
            Ok((key, n1)) => match spec_value(tail(s, i + n1)) {
                Err(e) => Err(e),
                Ok((v, n2)) => {
                    proof {
                        lemma_value_len(tail(s, i + n1));
                    }
                    let j = i + n1 + n2;
                    let acc2 = acc.push((key, v));
                    if j >= s.len() {
                        Err(ParseError::End)
                    } else if s[j as int] == 10u8 {
                        Ok((acc2, j + 1))
                    } else {
                        props_from(s, j, acc2)
                    }
                },
            },
        }
    }
}

/// `date` with its minute, second and nanosecond replaced.
pub open spec fn with_time(date: LogDate, min: u64, sec: u64, nano: u64) -> LogDate {
    LogDate { minute: min as u32, second: sec as u32, nanosecond: nano as u32, ..date }
}

/// The fields of a record's time and header are in range.
pub open spec fn header_in_range(min: u64, sec: u64, frac: u64, level: u64) -> bool {
    min < 60 && sec < 60 && frac < 2_000_000 && level <= u32::MAX
}

/// The fields before the properties: minute, second, fraction of the second in
/// microseconds, duration, name and level.
pub type Header = (u64, u64, u64, u64, Seq<char>, u64);

pub open spec fn spec_header(s: Seq<u8>) -> Scanned<Header> {
    match spec_number(s, 58u8) {
        Err(e) => Err(e),
        Ok((min, a)) => match spec_number(tail(s, a), 46u8) {
            Err(e) => Err(e),
            Ok((sec, b0)) => match spec_number(tail(s, a + b0), 45u8) {
                Err(e) => Err(e),
                Ok((frac, c0)) => match spec_number(tail(s, a + b0 + c0), 44u8) {
                    Err(e) => Err(e),
                    Ok((dur, d0)) => match spec_name(tail(s, a + b0 + c0 + d0), 44u8) {
                        Err(e) => Err(e),
                        Ok((name, e0)) => match spec_number(tail(s, a + b0 + c0 + d0 + e0), 44u8) {
                            Err(e) => Err(e),
                            Ok((level, f0)) => Ok(
                                ((min, sec, frac, dur, name, level), a + b0 + c0 + d0 + e0 + f0),
                            ),
                        },
                    },
                },
            },
        },
    }
}

/// One record read from the start of `s`, its hour taken from `date`.
pub open spec fn spec_record(s: Seq<u8>, date: LogDate) -> Scanned<EventView> {
    match spec_header(s) {
        Err(e) => Err(e),
        Ok((h, f)) => match props_from(s, f, seq![]) {
            Err(e) => Err(e),
            Ok((props, g)) => if header_in_range(h.0, h.1, h.2, h.5) {
                Ok(
                    (
                        EventView {
                            date: with_time(date, h.0, h.1, (h.2 * 1000) as u64),
                            duration: h.3,
                            name: h.4,
                            level: h.5 as u32,
                            properties: props,
                        },
                        g,
                    ),
                )
            } else {
                Err(ParseError::InvalidFormat)
            },
        },
    }
}

/// Reads one record at the parser's cursor. `ParseError::End` says that the bytes
/// ran out first: the record may still complete once more bytes are there.
pub fn parse_record<'a>(parser: &mut Parser<'a>, date: &LogDate) -> (r: ParseResult<Event<'a>>)
    requires
        old(parser).wf(),
    ensures
        final(parser).wf(),
        final(parser).input() == old(parser).input(),
        match spec_record(old(parser).rest(), *date) {
            Ok((ev, n)) => r matches Ok(e) && e@ == ev && final(parser).advanced(old(parser), n),
            Err(err) => r.is_err() && r->Err_0 == err,
        },
{
    let ghost s0 = parser.rest();
    let ghost c0 = parser.cursor();
    let min = match parser.parse_number(58u8) {
        Ok(v) => v,
        Err(e) => return Err(e),
    };
    assert(parser.rest() =~= tail(s0, (parser.cursor() - c0) as nat));
    let sec = match parser.parse_number(46u8) {
        Ok(v) => v,
        Err(e) => return Err(e),
    };
    assert(parser.rest() =~= tail(s0, (parser.cursor() - c0) as nat));
    let frac = match parser.parse_number(45u8) {
        Ok(v) => v,
        Err(e) => return Err(e),
    };
    assert(parser.rest() =~= tail(s0, (parser.cursor() - c0) as nat));
    let duration = match parser.parse_number(44u8) {
        Ok(v) => v,
        Err(e) => return Err(e),
    };
    assert(parser.rest() =~= tail(s0, (parser.cursor() - c0) as nat));
    let name = match parser.parse_name(44u8) {
        Ok(v) => v,
        Err(e) => return Err(e),
    };
    assert(parser.rest() =~= tail(s0, (parser.cursor() - c0) as nat));
    let level = match parser.parse_number(44u8) {
        Ok(v) => v,
        Err(e) => return Err(e),
    };
    let ghost f = (parser.cursor() - c0) as nat;
    assert(spec_header(s0) == Ok::<(Header, nat), ParseError>(
        ((min, sec, frac, duration, name@, level), f),
    ));
    let mut properties = Props::new();
    loop
        invariant
            parser.wf(),
            parser.input() == old(parser).input(),
            s0 == old(parser).rest(),
            c0 == old(parser).cursor(),
            c0 <= parser.cursor(),
            spec_header(s0) == Ok::<(Header, nat), ParseError>(
                ((min, sec, frac, duration, name@, level), f),
            ),
            props_from(s0, f, seq![]) == props_from(
                s0,
                (parser.cursor() - c0) as nat,
                props_of(properties),
            ),
        decreases parser.input().len() - parser.cursor(),
    {
        let ghost i = (parser.cursor() - c0) as nat;
        let ghost acc = props_of(properties);
        assert(parser.rest() =~= tail(s0, i));
        let key = match parser.parse_name(61u8) {
            Ok(v) => v,
            Err(e) => return Err(e),
        };
        let ghost n1 = (parser.cursor() - c0 - i) as nat;
        assert(parser.rest() =~= tail(s0, i + n1));
        let value = match parser.parse_value() {
            Ok(v) => v,
            Err(e) => return Err(e),
        };
        proof {
            lemma_value_len(tail(s0, i + n1));
        }
        properties.push((key, value));
        let ghost j = (parser.cursor() - c0) as nat;
        proof {
            if j < s0.len() {
                assert(parser.rest()[0] == s0[j as int]);
            }
        }
        let next = match parser.peek() {
            Ok(b) => b,
            Err(_) => return Err(ParseError::End),
        };
        if next == 10u8 {
            match parser.skip(1) {
                Ok(()) => {},
                Err(_) => return Err(ParseError::End),
            }
            if min < 60 && sec < 60 && frac < 2_000_000 && level <= 0xFFFF_FFFF {
                let date = LogDate {
                    year: date.year,
                    month: date.month,
                    day: date.day,
                    hour: date.hour,
                    minute: min as u32,
                    second: sec as u32,
                    nanosecond: (frac * 1000) as u32,
                };
                return Ok(Event { date, duration, name, level: level as u32, properties });
            } else {
                return Err(ParseError::InvalidFormat);
            }
        }
    }
}

} // verus!
