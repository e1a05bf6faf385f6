//! A forward-only cursor over a borrowed byte span, with readers for the
//! field shapes of a log record.
use vstd::prelude::*;
use vstd::slice::slice_subrange;
use vstd::utf8::{decode_utf8, valid_utf8};
use crate::text::{find_byte, find_byte2, index_of, index_of2, utf8_str};
use crate::types::{Escape, LogStr};

verus! {

/// The input ended before the item being read was complete.
#[derive(Debug, PartialEq, Eq, Structural, Clone, Copy)]
pub struct EndError;

#[derive(Debug, PartialEq, Eq, Structural, Clone, Copy)]
pub enum ParseError {
    /// More bytes are needed.
    End,
    /// The bytes cannot be a record, whatever follows them.
    InvalidFormat,
}

impl From<EndError> for ParseError {
    fn from(e: EndError) -> (r: ParseError)
        ensures
            r == ParseError::End,
    {
        ParseError::End
    }
}

impl vstd::std_specs::convert::FromSpecImpl<EndError> for ParseError {
    open spec fn obeys_from_spec() -> bool {
        true
    }

    open spec fn from_spec(v: EndError) -> ParseError {
        ParseError::End
    }
}

pub type ParseResult<T> = Result<T, ParseError>;

/// What a reader returns on the remaining bytes: the item read and how many
/// bytes it took, or the error.
pub type Scanned<T> = Result<(T, nat), ParseError>;

pub open spec fn is_digit(b: u8) -> bool {
    48 <= b <= 57
}

/// Reading digits of `s` from `i` on, with `acc` the value of those before `i`,
/// up to and including the delimiter `d`.
pub open spec fn number_from(s: Seq<u8>, d: u8, i: nat, acc: nat) -> Scanned<u64>
    decreases s.len() - i,
{
    if i >= s.len() {
        Err(ParseError::End)
    } else if s[i as int] == d {
        Ok((acc as u64, i + 1))
    } else if is_digit(s[i as int]) && acc * 10 + (s[i as int] - 48) <= u64::MAX {
        number_from(s, d, i + 1, acc * 10 + (s[i as int] - 48) as nat)
    } else {
        Err(ParseError::InvalidFormat)
    }
}

/// An unsigned decimal number terminated by `d`.
pub open spec fn spec_number(s: Seq<u8>, d: u8) -> Scanned<u64> {
    number_from(s, d, 0, 0)
}

/// UTF-8 text terminated by `d`.
pub open spec fn spec_name(s: Seq<u8>, d: u8) -> Scanned<Seq<char>> {
    match index_of(s, d) {
        None => Err(ParseError::End),
        Some(k) => if valid_utf8(s.subrange(0, k as int)) {
            Ok((decode_utf8(s.subrange(0, k as int)), k + 1))
        } else {
            Err(ParseError::InvalidFormat)
        },
    }
}

/// The body of a value opened by the quote `q` at `s[0]`, scanning from `j`;
/// `esc` tells whether a doubled quote has been met.
pub open spec fn quoted_from(s: Seq<u8>, q: u8, j: nat, esc: bool) -> Scanned<(Seq<u8>, bool)>
    decreases s.len() - j,
{
    if j > s.len() {
        Err(ParseError::End)
    } else {
        match index_of(s.subrange(j as int, s.len() as int), q) {
            None => Err(ParseError::End),
            Some(k) => {
                let at = j + k + 1;
                if at >= s.len() {
                    Err(ParseError::End)
                } else if s[at as int] == 44u8 || s[at as int] == 13u8 {
                    Ok(((s.subrange(1, at - 1), esc), at + 1))
                } else {
                    quoted_from(s, q, at + 1, esc || s[at as int] == q)
                }
            },
        }
    }
}

pub open spec fn escape_of(q: u8) -> Escape {
    if q == 39u8 {
        Escape::Single
    } else {
        Escape::Double
    }
}

/// A value opened by the quote `q`.
pub open spec fn spec_quoted(s: Seq<u8>, q: u8) -> Scanned<(Seq<u8>, Escape)> {
    if s.len() == 0 {
        Err(ParseError::End)
    } else {
        match quoted_from(s, q, 1, false) {
            Ok(((raw, esc), n)) => Ok(((raw, if esc { escape_of(q) } else { Escape::Plain }), n)),
            Err(e) => Err(e),
        }
    }
}

/// A bare value, up to the next `,` or carriage return.
pub open spec fn spec_bare(s: Seq<u8>) -> Scanned<Seq<u8>> {
    match index_of2(s, 44u8, 13u8) {
        None => Err(ParseError::End),
        Some(k) => Ok((s.subrange(0, k as int), k + 1)),
    }
}

/// A value: quoted when it opens with a quote, bare otherwise.
pub open spec fn spec_value(s: Seq<u8>) -> Scanned<(Seq<u8>, Escape)> {
    if s.len() == 0 {
        Err(ParseError::End)
    } else if s[0] == 34u8 || s[0] == 39u8 {
        spec_quoted(s, s[0])
    } else {
        match spec_bare(s) {
            Ok((raw, n)) => Ok(((raw, Escape::Plain), n)),
            Err(e) => Err(e),
        }
    }
}

pub struct Parser<'a> {
    source: &'a [u8],
    pos: usize,
}

impl<'a> Parser<'a> {
    /// The whole span the cursor runs over.
    pub closed spec fn input(&self) -> Seq<u8> {
        self.source@
    }

    /// The cursor's offset from the start of the span.
    pub closed spec fn cursor(&self) -> nat {
        self.pos as nat
    }

    pub open spec fn wf(&self) -> bool {
        self.cursor() <= self.input().len()
    }

    /// The bytes not yet consumed.
    pub open spec fn rest(&self) -> Seq<u8> {
        self.input().subrange(self.cursor() as int, self.input().len() as int)
    }

    /// The cursor moved forward by `n` over the same span.
    pub open spec fn advanced(&self, old: &Parser<'a>, n: nat) -> bool {
        &&& self.input() == old.input()
        &&& self.cursor() == old.cursor() + n
        &&& self.wf()
    }

    pub fn new(buffer: &'a [u8]) -> (r: Parser<'a>)
        ensures
            r.input() == buffer@,
            r.cursor() == 0,
            r.wf(),
    {
        Parser { source: buffer, pos: 0 }
    }

    pub fn position(&self) -> (r: usize)
        ensures
            r == self.cursor(),
    {
        self.pos
    }

    pub fn next(&mut self) -> (r: Result<u8, EndError>)
        requires
            old(self).wf(),
        ensures
            old(self).rest().len() == 0 ==> r.is_err() && *final(self) == *old(self),
            old(self).rest().len() > 0 ==> r == Ok::<u8, EndError>(old(self).rest()[0])
                && final(self).advanced(old(self), 1),
    {
        if self.pos >= self.source.len() {
            Err(EndError)
        } else {
            let v = self.source[self.pos];
            self.pos = self.pos + 1;
            Ok(v)
        }
    }

    pub fn skip(&mut self, count: usize) -> (r: Result<(), EndError>)
        requires
            old(self).wf(),
        ensures
            count > old(self).rest().len() ==> r.is_err() && *final(self) == *old(self),
            count <= old(self).rest().len() ==> r.is_ok() && final(self).advanced(
                old(self),
                count as nat,
            ),
    {
        if count > self.source.len() - self.pos {
            Err(EndError)
        } else {
            self.pos = self.pos + count;
            Ok(())
        }
    }

    /// Moves past the first `ch` that is left.
    pub fn skip_to(&mut self, ch: u8) -> (r: Result<(), EndError>)
        requires
            old(self).wf(),
        ensures
            match index_of(old(self).rest(), ch) {
                None => r.is_err() && *final(self) == *old(self),
                Some(k) => r.is_ok() && final(self).advanced(old(self), k + 1),
            },
    {
        let rest = slice_subrange(self.source, self.pos, self.source.len());
        match find_byte(ch, rest) {
            None => Err(EndError),
            Some(i) => self.skip(i + 1),
        }
    }

    /// Moves past the first `ch1` or `ch2` that is left.
    pub fn skip_to2(&mut self, ch1: u8, ch2: u8) -> (r: Result<(), EndError>)
        requires
            old(self).wf(),
        ensures
            match index_of2(old(self).rest(), ch1, ch2) {
                None => r.is_err() && *final(self) == *old(self),
                Some(k) => r.is_ok() && final(self).advanced(old(self), k + 1),
            },
    {
        let rest = slice_subrange(self.source, self.pos, self.source.len());
        match find_byte2(ch1, ch2, rest) {
            None => Err(EndError),
            Some(i) => self.skip(i + 1),
        }
    }

    pub fn peek(&self) -> (r: Result<u8, EndError>)
        requires
            self.wf(),
        ensures
            self.rest().len() == 0 ==> r.is_err(),
            self.rest().len() > 0 ==> r == Ok::<u8, EndError>(self.rest()[0]),
    {
        if self.pos >= self.source.len() {
            Err(EndError)
        } else {
            Ok(self.source[self.pos])
        }
    }
    /// Reads an unsigned decimal number up to and including `delimiter`.
    pub fn parse_number(&mut self, delimiter: u8) -> (r: ParseResult<u64>)
        requires
            old(self).wf(),
        ensures
            final(self).wf(),
            final(self).input() == old(self).input(),
            match spec_number(old(self).rest(), delimiter) {
                Ok((v, n)) => r == Ok::<u64, ParseError>(v) && final(self).advanced(old(self), n),
                Err(e) => r == Err::<u64, ParseError>(e),
            },
    {
        let ghost s0 = self.rest();
        let ghost c0 = self.cursor();
        let mut number: u64 = 0;
        loop
            invariant
                self.wf(),
                self.input() == old(self).input(),
                c0 == old(self).cursor(),
                s0 == old(self).rest(),
                c0 <= self.cursor(),
                spec_number(s0, delimiter) == number_from(
                    s0,
                    delimiter,
                    (self.cursor() - c0) as nat,
                    number as nat,
                ),
            decreases self.input().len() - self.cursor(),
        {
            let ghost i = (self.cursor() - c0) as nat;
            proof {
                if i < s0.len() {
                    assert(self.rest()[0] == s0[i as int]);
                }
            }
            let next = match self.next() {
                Ok(b) => b,
                Err(_) => return Err(ParseError::End),
            };
            if next == delimiter {
                return Ok(number);
            }
            if next < 48u8 || next > 57u8 {
                return Err(ParseError::InvalidFormat);
            }
            let digit = (next - 48u8) as u64;
            match number.checked_mul(10) {
                None => return Err(ParseError::InvalidFormat),
                Some(m) => match m.checked_add(digit) {
                    None => return Err(ParseError::InvalidFormat),
                    Some(v) => {
                        number = v;
                    },
                },
            }
        }
    }

    /// Reads UTF-8 text up to `delimiter`, and moves past it.
    pub fn parse_name(&mut self, delimiter: u8) -> (r: ParseResult<&'a str>)
        requires
            old(self).wf(),
        ensures
            final(self).wf(),
            final(self).input() == old(self).input(),
            match spec_name(old(self).rest(), delimiter) {
                Ok((t, n)) => r matches Ok(s) && s@ == t && final(self).advanced(old(self), n),
                Err(e) => r == Err::<&'a str, ParseError>(e),
            },
    {
        let start = self.pos;
        let ghost s0 = self.rest();
        match self.skip_to(delimiter) {
            Err(_) => return Err(ParseError::End),
            Ok(()) => {},
        }
        let slice = slice_subrange(self.source, start, self.pos - 1);
        assert(slice@ =~= s0.subrange(0, (self.pos - 1 - start) as int));
        match utf8_str(slice) {
            Some(s) => Ok(s),
            None => Err(ParseError::InvalidFormat),
        }
    }

    /// Reads a bare value: the bytes up to the next `,` or carriage return, which
    /// is consumed too.
    pub fn parse_str(&mut self) -> (r: ParseResult<&'a [u8]>)
        requires
            old(self).wf(),
        ensures
            final(self).wf(),
            final(self).input() == old(self).input(),
            match spec_bare(old(self).rest()) {
                Ok((raw, n)) => r matches Ok(b) && b@ == raw && final(self).advanced(old(self), n),
                Err(e) => r == Err::<&'a [u8], ParseError>(e),
            },
    {
        let start = self.pos;
        let ghost s0 = self.rest();
        match self.skip_to2(44u8, 13u8) {
            Err(_) => return Err(ParseError::End),
            Ok(()) => {},
        }
        let slice = slice_subrange(self.source, start, self.pos - 1);
        assert(slice@ =~= s0.subrange(0, (self.pos - 1 - start) as int));
        Ok(slice)
    }

    /// Reads a value opened by `quote`, which must be the next byte. A doubled
    /// quote inside stands for one; the value ends at a quote followed by `,` or a
    /// carriage return.
    pub fn parse_str_quote(&mut self, quote: u8) -> (r: ParseResult<LogStr<'a>>)
        requires
            old(self).wf(),
        ensures
            final(self).wf(),
            final(self).input() == old(self).input(),
            match spec_quoted(old(self).rest(), quote) {
                Ok((v, n)) => r matches Ok(l) && l@ == v && final(self).advanced(old(self), n),
                Err(e) => r == Err::<LogStr<'a>, ParseError>(e),
            },
    {
        let ghost s0 = self.rest();
        let ghost c0 = self.cursor();
        match self.skip(1) {
            Err(_) => return Err(ParseError::End),
            Ok(()) => {},
        }
        let start = self.pos;
        let mut need_replace_quotes = false;
        loop
            invariant
                self.wf(),
                self.input() == old(self).input(),
                c0 == old(self).cursor(),
                s0 == old(self).rest(),
                s0.len() > 0,
                start == c0 + 1,
                c0 + 1 <= self.cursor(),
                quoted_from(s0, quote, 1, false) == quoted_from(
                    s0,
                    quote,
                    (self.cursor() - c0) as nat,
                    need_replace_quotes,
                ),
            decreases self.input().len() - self.cursor(),
        {
            let ghost j = (self.cursor() - c0) as nat;
            assert(self.rest() =~= s0.subrange(j as int, s0.len() as int));
            match self.skip_to(quote) {
                Err(_) => return Err(ParseError::End),
                Ok(()) => {},
            }
            let ghost at = (self.cursor() - c0) as nat;
            proof {
                if at < s0.len() {
                    assert(self.rest()[0] == s0[at as int]);
                }
            }
            let next = match self.next() {
                Ok(b) => b,
                Err(_) => return Err(ParseError::End),
            };
            if next == 44u8 || next == 13u8 {
                let s = slice_subrange(self.source, start, self.pos - 2);
                assert(s@ =~= s0.subrange(1, at - 1));
                let esc = if need_replace_quotes {
                    if quote == 39u8 {
                        Escape::Single
                    } else {
                        Escape::Double
                    }
                } else {
                    Escape::Plain
                };
                return Ok(LogStr::new(s, esc));
            } else if next == quote {
                need_replace_quotes = true;
            }
        }
    }

    /// Reads a value: quoted when the next byte is a quote, bare otherwise.
    pub fn parse_value(&mut self) -> (r: ParseResult<LogStr<'a>>)
        requires
            old(self).wf(),
        ensures
            final(self).wf(),
            final(self).input() == old(self).input(),
            match spec_value(old(self).rest()) {
                Ok((v, n)) => r matches Ok(l) && l@ == v && final(self).advanced(old(self), n),
                Err(e) => r == Err::<LogStr<'a>, ParseError>(e),
            },
    {
        let ch = match self.peek() {
            Ok(b) => b,
            Err(_) => return Err(ParseError::End),
        };
        if ch == 34u8 {
            self.parse_str_quote(34u8)
        } else if ch == 39u8 {
            self.parse_str_quote(39u8)
        } else {
            match self.parse_str() {
                Ok(b) => Ok(LogStr::new(b, Escape::Plain)),
                Err(e) => Err(e),
            }
        }
    }
}

} // verus!
