//! Predicates over events, deciding which of them are kept.
use vstd::prelude::*;
use vstd::string::StringSliceAdditionalSpecFns;
use vstd::utf8::{encode_utf8, encode_utf8_decode_utf8};
use crate::date::LogDate;
use crate::record::{prop_view, Event, EventView, PropView};
use crate::text::lossy_of;
use crate::types::{unescaped, LogStr};

verus! {

#[verifier::external_type_specification]
#[verifier::external_body]
pub struct ExRegex(regex::Regex);

/// Whether `needle` occurs in `hay`.
pub open spec fn is_infix(needle: Seq<char>, hay: Seq<char>) -> bool {
    exists|i: int| 0 <= i <= hay.len() - needle.len() && #[trigger] hay.subrange(i, i + needle.len()) == needle
}

/// Relies on str::contains with a `&str` pattern: whether `needle` occurs in `hay`.
#[verifier::external_body]
fn str_contains(hay: &str, needle: &str) -> (r: bool)
    ensures
        r == is_infix(needle@, hay@),
{
    hay.contains(needle)
}

/// Whether the regular expression `pattern`, compiled case-insensitive, with `.`
/// matching line ends and CR LF taken as a line end, matches somewhere in `text`.
pub uninterp spec fn regex_accepts(pattern: Seq<char>, text: Seq<char>) -> bool;

/// Relies on regex::RegexBuilder::build, with the options above; it fails on a
/// pattern that is not a regular expression.
#[verifier::external_body]
fn compile_regex(pattern: &str) -> (r: Option<regex::Regex>) {
    regex::RegexBuilder::new(pattern)
        .crlf(true)
        .case_insensitive(true)
        .dot_matches_new_line(true)
        .build()
        .ok()
}

/// A compiled regular expression, with the pattern it was compiled from.
pub struct Match {
    pattern: String,
    regex: Box<regex::Regex>,
}

/// Relies on regex::Regex::is_match: the answer depends on the pattern the regex
/// was compiled from (with the fixed options) and on the text alone. `Match::new`
/// is the only way to make a `Match`, and it keeps the pattern beside the regex it
/// compiled from it.
#[verifier::external_body]
fn regex_is_match(m: &Match, text: &str) -> (r: bool)
    ensures
        r == regex_accepts(m.pattern(), text@),
{
    m.regex.is_match(text)
}

impl Match {
    pub closed spec fn pattern(&self) -> Seq<char> {
        self.pattern@
    }

    /// Compiles `pattern`; `None` when it is not a regular expression.
    pub fn new(pattern: &str) -> (r: Option<Match>)
        ensures
            r matches Some(m) ==> m.pattern() == pattern@,
    {
        match compile_regex(pattern) {
            Some(re) => Some(Match { pattern: pattern.to_owned(), regex: Box::new(re) }),
            None => None,
        }
    }

    pub fn is_match(&self, text: &str) -> (r: bool)
        ensures
            r == regex_accepts(self.pattern(), text@),
    {
        regex_is_match(self, text)
    }
}

/// Whether two strings hold the same characters.
pub fn same_text(a: &str, b: &str) -> (r: bool)
    ensures
        r == (a@ == b@),
{
    let x = a.as_bytes();
    let y = b.as_bytes();
    proof {
        encode_utf8_decode_utf8(a@);
        encode_utf8_decode_utf8(b@);
    }
    if x.len() != y.len() {
        return false;
    }
    let mut i: usize = 0;
    while i < x.len()
        invariant
            x@ == a.spec_bytes(),
            y@ == b.spec_bytes(),
            x@.len() == y@.len(),
            i <= x@.len(),
            forall|k: int| 0 <= k < i ==> x@[k] == y@[k],
        decreases x@.len() - i,
    {
        if x[i] != y[i] {
            return false;
        }
        i = i + 1;
    }
    assert(x@ =~= y@);
    true
}

pub open spec fn ascii_lower(b: u8) -> u8 {
    if 65 <= b <= 90 {
        (b + 32) as u8
    } else {
        b
    }
}

/// Equal bytes once ASCII letters are folded to lower case.
pub open spec fn eq_ignore_ascii_case(a: Seq<u8>, b: Seq<u8>) -> bool {
    a.len() == b.len() && forall|i: int| 0 <= i < a.len() ==> ascii_lower(#[trigger] a[i]) == ascii_lower(b[i])
}

fn lower_byte(b: u8) -> (r: u8)
    ensures
        r == ascii_lower(b),
{
    if b >= 65u8 && b <= 90u8 {
        b + 32
    } else {
        b
    }
}

/// Whether two keys are equal, ASCII letters compared without regard to case.
pub fn key_matches(a: &str, b: &str) -> (r: bool)
    ensures
        r == eq_ignore_ascii_case(a.spec_bytes(), b.spec_bytes()),
{
    let x = a.as_bytes();
    let y = b.as_bytes();
    if x.len() != y.len() {
        return false;
    }
    let mut i: usize = 0;
    while i < x.len()
        invariant
            x@ == a.spec_bytes(),
            y@ == b.spec_bytes(),
            x@.len() == y@.len(),
            i <= x@.len(),
            forall|k: int| 0 <= k < i ==> ascii_lower(#[trigger] x@[k]) == ascii_lower(y@[k]),
        decreases x@.len() - i,
    {
        if lower_byte(x[i]) != lower_byte(y[i]) {
            return false;
        }
        i = i + 1;
    }
    true
}

pub enum StrFilter {
    Equal(String),
    Contains(String),
    Match(Match),
    InList(Vec<String>),
}

impl StrFilter {
    pub open spec fn accepts(&self, text: Seq<char>) -> bool {
        match self {
            StrFilter::Equal(s) => s@ == text,
            StrFilter::Contains(s) => is_infix(s@, text),
            StrFilter::Match(m) => regex_accepts(m.pattern(), text),
            StrFilter::InList(v) => exists|i: int| 0 <= i < v@.len() && #[trigger] v@[i]@ == text,
        }
    }

    pub fn check(&self, value: &str) -> (r: bool)
        ensures
            r == self.accepts(value@),
    {
        match self {
            StrFilter::Equal(s) => same_text(s.as_str(), value),
            StrFilter::Contains(s) => str_contains(value, s.as_str()),
            StrFilter::Match(m) => m.is_match(value),
            StrFilter::InList(v) => {
                let mut i: usize = 0;
                while i < v.len()
                    invariant
                        *self == StrFilter::InList(*v),
                        i <= v@.len(),
                        forall|k: int| 0 <= k < i ==> #[trigger] v@[k]@ != value@,
                    decreases v@.len() - i,
                {
                    if same_text(v[i].as_str(), value) {
                        assert(self->InList_0@[i as int]@ == value@);
                        return true;
                    }
                    i = i + 1;
                }
                false
            },
        }
    }
}

/// The text a value renders to.
pub open spec fn rendered(v: (Seq<u8>, crate::types::Escape)) -> Seq<char> {
    lossy_of(unescaped(v.0, v.1))
}

pub struct PropFilter {
    pub name: String,
    pub filter: StrFilter,
}

impl PropFilter {
    /// The property `p` has this filter's key, ASCII case aside, and a value that
    /// the string filter accepts.
    pub open spec fn accepts_prop(&self, p: PropView) -> bool {
        &&& eq_ignore_ascii_case(encode_utf8(p.0), encode_utf8(self.name@))
        &&& self.filter.accepts(rendered(p.1))
    }

    pub open spec fn accepts(&self, props: Seq<PropView>) -> bool {
        exists|i: int| 0 <= i < props.len() && self.accepts_prop(#[trigger] props[i])
    }

    /// Whether some property, the first ones first, has the key and a value
    /// that the string filter accepts.
    pub fn check<'a>(&self, props: &[(&'a str, LogStr<'a>)]) -> (r: bool)
        ensures
            r == self.accepts(props@.map_values(|p: (&'a str, LogStr<'a>)| prop_view(p))),
    {
        let ghost views = props@.map_values(|p: (&'a str, LogStr<'a>)| prop_view(p));
        let mut i: usize = 0;
        while i < props.len()
            invariant
                i <= props@.len(),
                views == props@.map_values(|p: (&'a str, LogStr<'a>)| prop_view(p)),
                forall|k: int| 0 <= k < i ==> !self.accepts_prop(#[trigger] views[k]),
            decreases props@.len() - i,
        {
            let (name, value) = props[i];
            assert(views[i as int] == prop_view(props@[i as int]));
            if key_matches(name, self.name.as_str()) {
                let text = value.str();
                if self.filter.check(text.as_str()) {
                    return true;
                }
            }
            i = i + 1;
        }
        false
    }
}

/// `a` is no later than `b`.
pub open spec fn date_le(a: LogDate, b: LogDate) -> bool {
    if a.year != b.year {
        a.year < b.year
    } else if a.month != b.month {
        a.month < b.month
    } else if a.day != b.day {
        a.day < b.day
    } else if a.hour != b.hour {
        a.hour < b.hour
    } else if a.minute != b.minute {
        a.minute < b.minute
    } else if a.second != b.second {
        a.second < b.second
    } else {
        a.nanosecond <= b.nanosecond
    }
}

fn date_no_later(a: &LogDate, b: &LogDate) -> (r: bool)
    ensures
        r == date_le(*a, *b),
{
    if a.year != b.year {
        a.year < b.year
    } else if a.month != b.month {
        a.month < b.month
    } else if a.day != b.day {
        a.day < b.day
    } else if a.hour != b.hour {
        a.hour < b.hour
    } else if a.minute != b.minute {
        a.minute < b.minute
    } else if a.second != b.second {
        a.second < b.second
    } else {
        a.nanosecond <= b.nanosecond
    }
}

pub enum DataFilter {
    GreaterOrEqual(LogDate),
    LessOrEqual(LogDate),
}

impl DataFilter {
    pub open spec fn accepts(&self, value: LogDate) -> bool {
        match self {
            DataFilter::GreaterOrEqual(d) => date_le(*d, value),
            DataFilter::LessOrEqual(d) => date_le(value, *d),
        }
    }

    pub fn check(&self, value: &LogDate) -> (r: bool)
        ensures
            r == self.accepts(*value),
    {
        match self {
            DataFilter::GreaterOrEqual(date) => date_no_later(date, value),
            DataFilter::LessOrEqual(date) => date_no_later(value, date),
        }
    }
}

pub enum DurationFilter {
    GreaterOrEqual(u128),
    LessOrEqual(u128),
}

impl DurationFilter {
    pub open spec fn accepts(&self, value: u128) -> bool {
        match self {
            DurationFilter::GreaterOrEqual(d) => value >= *d,
            DurationFilter::LessOrEqual(d) => value <= *d,
        }
    }

    pub fn check(&self, value: &u128) -> (r: bool)
        ensures
            r == self.accepts(*value),
    {
        match self {
            DurationFilter::GreaterOrEqual(dur) => *value >= *dur,
            DurationFilter::LessOrEqual(dur) => *value <= *dur,
        }
    }
}

pub enum Filter {
    Date(DataFilter),
    Duration(DurationFilter),
    Name(StrFilter),
    Prop(PropFilter),
}

impl Filter {
    pub open spec fn accepts(&self, e: EventView) -> bool {
        match self {
            Filter::Date(f) => f.accepts(e.date),
            Filter::Duration(f) => f.accepts(e.duration as u128),
            Filter::Name(f) => f.accepts(e.name),
            Filter::Prop(f) => f.accepts(e.properties),
        }
    }

    pub fn check<'a>(&self, event: &Event<'a>) -> (r: bool)
        ensures
            r == self.accepts(event@),
    {
        match self {
            Filter::Date(filter) => filter.check(&event.date),
            Filter::Duration(filter) => filter.check(&(event.duration as u128)),
            Filter::Name(filter) => filter.check(event.name),
            Filter::Prop(filter) => filter.check(event.properties.as_slice()),
        }
    }
}

/// Every filter of the list accepts `e`.
pub open spec fn all_accept(filters: Seq<Filter>, e: EventView) -> bool {
    forall|i: int| 0 <= i < filters.len() ==> #[trigger] filters[i].accepts(e)
}

/// Whether every filter accepts the event; stops at the first that does not.
pub fn passes<'a>(filters: &[Filter], event: &Event<'a>) -> (r: bool)
    ensures
        r == all_accept(filters@, event@),
{
    let mut i: usize = 0;
    while i < filters.len()
        invariant
            i <= filters@.len(),
            forall|k: int| 0 <= k < i ==> #[trigger] filters@[k].accepts(event@),
        decreases filters@.len() - i,
    {
        if !filters[i].check(event) {
            return false;
        }
        i = i + 1;
    }
    true
}

} // verus!
