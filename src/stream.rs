//! Turning a growing window of file bytes into events: the records that are
//! complete are read, the partial one at the end waits for more bytes.
use vstd::prelude::*;
use crate::date::LogDate;
use crate::record::{parse_record, props_from, spec_header, spec_record, tail, Event, EventView};
use crate::scanner::{ParseError, Parser};

verus! {

/// Properties read from offset `i` end past `i`.
pub(crate) proof fn lemma_props_len(s: Seq<u8>, i: nat, acc: Seq<crate::record::PropView>)
    ensures
        props_from(s, i, acc) matches Ok((_, g)) ==> g > i,
    decreases s.len() - i,
{
    if i <= s.len() {
        match crate::scanner::spec_name(tail(s, i), 61u8) {
            Err(_) => {},
            Ok((key, n1)) => match crate::scanner::spec_value(tail(s, i + n1)) {
                Err(_) => {},
                Ok((v, n2)) => {
                    crate::record::lemma_value_len(tail(s, i + n1));
                    let j = i + n1 + n2;
                    if j < s.len() && s[j as int] != 10u8 {
                        lemma_props_len(s, j, acc.push((key, v)));
                    }
                },
            },
        }
    }
}

/// A record read successfully takes at least one byte.
pub proof fn lemma_record_len(s: Seq<u8>, date: LogDate)
    ensures
        spec_record(s, date) matches Ok((_, n)) ==> n >= 1,
{
    if let Ok((_, f)) = spec_header(s) {
        lemma_props_len(s, f, seq![]);
    }
}

/// The records of `s` read one after another from offset `i`: their events, the
/// offset where reading stopped, and whether it stopped on malformed bytes (else
/// on bytes that are not yet a whole record).
pub open spec fn scan_records(s: Seq<u8>, date: LogDate, i: nat) -> (Seq<EventView>, nat, bool)
    decreases (if i <= s.len() {
        s.len() + 1 - i
    } else {
        0
    }),
{
    if i > s.len() {
        (seq![], i, false)
    } else {
        match spec_record(tail(s, i), date) {
            Ok((e, n)) => {
                proof {
                    lemma_record_len(tail(s, i), date);
                }
                let rest = scan_records(s, date, i + n);
                (seq![e] + rest.0, rest.1, rest.2)
            },
            Err(ParseError::End) => (seq![], i, false),
            Err(ParseError::InvalidFormat) => (seq![], i, true),
        }
    }
}

/// What one pass over a buffer found.
pub struct BufferScan<'a> {
    /// The complete records, in order.
    pub events: Vec<Event<'a>>,
    /// The offset just past the last of them.
    pub consumed: usize,
    /// Reading stopped on malformed bytes rather than on an unfinished record.
    pub invalid: bool,
}

pub open spec fn event_views<'a>(v: Seq<Event<'a>>) -> Seq<EventView> {
    v.map_values(|e: Event<'a>| e@)
}

/// Reads every complete record from the start of `buffer`.
pub fn parse_buffer<'a>(buffer: &'a [u8], date: &LogDate) -> (r: BufferScan<'a>)
    ensures
        event_views(r.events@) == scan_records(buffer@, *date, 0).0,
        r.consumed == scan_records(buffer@, *date, 0).1,
        r.invalid == scan_records(buffer@, *date, 0).2,
{
    let mut parser = Parser::new(buffer);
    let mut events: Vec<Event<'a>> = Vec::new();
    assert(event_views(events@) =~= seq![]);
    loop
        invariant
            parser.wf(),
            parser.input() == buffer@,
            scan_records(buffer@, *date, 0).0 == event_views(events@) + scan_records(
                buffer@,
                *date,
                parser.cursor(),
            ).0,
            scan_records(buffer@, *date, 0).1 == scan_records(buffer@, *date, parser.cursor()).1,
            scan_records(buffer@, *date, 0).2 == scan_records(buffer@, *date, parser.cursor()).2,
        decreases buffer@.len() - parser.cursor(),
    {
        let position = parser.position();
        proof {
            lemma_record_len(parser.rest(), *date);
        }
        match parse_record(&mut parser, date) {
            Ok(event) => {
                let ghost ev = event@;
                let ghost evs = events@;
                events.push(event);
                assert(event_views(events@) =~= event_views(evs) + seq![ev]);
                assert(scan_records(buffer@, *date, position as nat).0 =~= seq![ev]
                    + scan_records(buffer@, *date, parser.cursor()).0);
                assert(event_views(evs) + scan_records(buffer@, *date, position as nat).0
                    =~= event_views(events@) + scan_records(buffer@, *date, parser.cursor()).0);
            },
            Err(e) => {
                assert(scan_records(buffer@, *date, position as nat).0 =~= seq![]);
                assert(event_views(events@) + seq![] =~= event_views(events@));
                return BufferScan {
                    events,
                    consumed: position,
                    invalid: e == ParseError::InvalidFormat,
                };
            },
        }
    }
}

/// The bytes read from a file and not yet taken by a complete record.
pub struct StreamBuffer {
    buf: Vec<u8>,
}

impl View for StreamBuffer {
    type V = Seq<u8>;

    closed spec fn view(&self) -> Seq<u8> {
        self.buf@
    }
}

impl StreamBuffer {
    pub fn new() -> (r: StreamBuffer)
        ensures
            r@ == Seq::<u8>::empty(),
    {
        StreamBuffer { buf: Vec::new() }
    }

    /// Appends freshly read bytes.
    pub fn feed(&mut self, chunk: &[u8])
        ensures
            final(self)@ == old(self)@ + chunk@,
    {
        self.buf.extend_from_slice(chunk);
    }

    /// The bytes waiting to be read as records.
    pub fn bytes(&self) -> (r: &[u8])
        ensures
            r@ == self@,
    {
        self.buf.as_slice()
    }

    /// Drops the first `n` bytes, moving the rest to the front.
    pub fn consume(&mut self, n: usize)
        requires
            n <= old(self)@.len(),
        ensures
            final(self)@ == old(self)@.subrange(n as int, old(self)@.len() as int),
    {
        let len = self.buf.len();
        let mut i: usize = n;
        while i < len
            invariant
                n <= i <= len,
                len == old(self)@.len(),
                self.buf@.len() == len,
                forall|k: int| 0 <= k < i - n ==> self.buf@[k] == old(self)@[k + n],
                forall|k: int| i <= k < len ==> self.buf@[k] == old(self)@[k],
            decreases len - i,
        {
            let b = self.buf[i];
            self.buf.set(i - n, b);
            i = i + 1;
        }
        self.buf.truncate(len - n);
        assert(self.buf@ =~= old(self)@.subrange(n as int, len as int));
    }

    /// Called when the input has ended: bytes left over are a record cut short.
    pub fn end_of_input(&self) -> (r: Result<(), ParseError>)
        ensures
            r.is_ok() == (self@.len() == 0),
            r.is_err() ==> r == Err::<(), ParseError>(ParseError::InvalidFormat),
    {
        if self.buf.len() == 0 {
            Ok(())
        } else {
            Err(ParseError::InvalidFormat)
        }
    }
}

} // verus!
