//! Field values as they appear in a record, and their rendering as text.
use vstd::prelude::*;
use crate::text::{lossy_of, utf8_lossy};

verus! {

/// How a value's raw bytes are unescaped.
#[derive(Debug, PartialEq, Eq, Structural, Clone, Copy)]
pub enum Escape {
    /// The bytes are the text.
    Plain,
    /// Each doubled `'` stands for one.
    Single,
    /// Each doubled `"` stands for one.
    Double,
}

pub open spec fn quote_byte(e: Escape) -> u8 {
    match e {
        Escape::Double => 34u8,
        _ => 39u8,
    }
}

/// `s` with each doubled `q`, taken from left to right, reduced to one.
pub open spec fn collapse(s: Seq<u8>, q: u8) -> Seq<u8>
    decreases s.len(),
{
    if s.len() == 0 {
        s
    } else if s.len() >= 2 && s[0] == q && s[1] == q {
        seq![q] + collapse(s.subrange(2, s.len() as int), q)
    } else {
        seq![s[0]] + collapse(s.drop_first(), q)
    }
}

/// The bytes a value stands for once its escapes are undone.
pub open spec fn unescaped(raw: Seq<u8>, e: Escape) -> Seq<u8> {
    match e {
        Escape::Plain => raw,
        _ => collapse(raw, quote_byte(e)),
    }
}

/// A field value: the raw bytes between its delimiters, and how they are escaped.
#[derive(Clone, Copy)]
pub struct LogStr<'a> {
    str: &'a [u8],
    replace_char: Escape,
}

impl<'a> View for LogStr<'a> {
    type V = (Seq<u8>, Escape);

    closed spec fn view(&self) -> (Seq<u8>, Escape) {
        (self.str@, self.replace_char)
    }
}

fn collapse_quotes(s: &[u8], q: u8) -> (r: Vec<u8>)
    ensures
        r@ == collapse(s@, q),
{
    let mut out: Vec<u8> = Vec::new();
    let mut i: usize = 0;
    let n = s.len();
    assert(s@.subrange(0, n as int) =~= s@);
    assert(out@ + collapse(s@, q) =~= collapse(s@, q));
    while i < n
        invariant
            n == s@.len(),
            i <= n,
            collapse(s@, q) == out@ + collapse(s@.subrange(i as int, n as int), q),
        decreases n - i,
    {
        let ghost t = s@.subrange(i as int, n as int);
        if i + 1 < n && s[i] == q && s[i + 1] == q {
            assert(t.subrange(2, t.len() as int) =~= s@.subrange(i + 2, n as int));
            out.push(q);
            i = i + 2;
        } else {
            assert(t.drop_first() =~= s@.subrange(i + 1, n as int));
            out.push(s[i]);
            i = i + 1;
        }
    }
    assert(s@.subrange(n as int, n as int) =~= Seq::<u8>::empty());
    assert(out@ + Seq::<u8>::empty() =~= out@);
    out
}

impl<'a> LogStr<'a> {
    pub fn new(str: &'a [u8], replace_char: Escape) -> (r: LogStr<'a>)
        ensures
            r@ == (str@, replace_char),
    {
        LogStr { str, replace_char }
    }

    /// The value as text: escapes undone, then decoded as UTF-8 with malformed
    /// sequences replaced.
    pub fn str(&self) -> (r: String)
        ensures
            r@ == lossy_of(unescaped(self@.0, self@.1)),
    {
        match self.replace_char {
            Escape::Plain => utf8_lossy(self.str),
            Escape::Single => {
                let v = collapse_quotes(self.str, 39u8);
                utf8_lossy(v.as_slice())
            },
            Escape::Double => {
                let v = collapse_quotes(self.str, 34u8);
                utf8_lossy(v.as_slice())
            },
        }
    }
}

} // verus!
