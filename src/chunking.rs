//! Reading resumes across buffer boundaries: a result that did not run out of
//! bytes stays the same when more bytes follow, so the events of a byte stream do
//! not depend on how it was cut into chunks.
use vstd::prelude::*;
use crate::date::LogDate;
use crate::record::{props_from, spec_header, spec_record, tail, EventView, PropView};
use crate::stream::{lemma_record_len, scan_records};
use crate::scanner::{
    number_from, quoted_from, spec_name, spec_number, spec_value, ParseError,
};
use crate::text::{index_of, index_of2};

verus! {

proof fn lemma_tail_concat(s: Seq<u8>, t: Seq<u8>, i: nat)
    requires
        i <= s.len(),
    ensures
        tail(s + t, i) == tail(s, i) + t,
{
    assert(tail(s + t, i) =~= tail(s, i) + t);
}

proof fn lemma_index_of_extend(s: Seq<u8>, t: Seq<u8>, c: u8)
    ensures
        index_of(s, c) matches Some(k) ==> k < s.len() && index_of(s + t, c) == Some(k),
    decreases s.len(),
{
    if s.len() > 0 && s[0] != c {
        lemma_index_of_extend(s.drop_first(), t, c);
        assert((s + t).drop_first() =~= s.drop_first() + t);
    }
}

proof fn lemma_index_of2_extend(s: Seq<u8>, t: Seq<u8>, c1: u8, c2: u8)
    ensures
        index_of2(s, c1, c2) matches Some(k) ==> k < s.len() && index_of2(s + t, c1, c2) == Some(
            k,
        ),
    decreases s.len(),
{
    if s.len() > 0 && s[0] != c1 && s[0] != c2 {
        lemma_index_of2_extend(s.drop_first(), t, c1, c2);
        assert((s + t).drop_first() =~= s.drop_first() + t);
    }
}

/// Whether a reader's result on some bytes is final: it did not run out of them.
pub open spec fn settled<T>(r: Result<(T, nat), ParseError>, len: nat) -> bool {
    match r {
        Ok((_, n)) => n <= len,
        Err(e) => e == ParseError::InvalidFormat,
    }
}

proof fn lemma_number_extend(s: Seq<u8>, t: Seq<u8>, d: u8, i: nat, acc: nat)
    ensures
        number_from(s, d, i, acc) != Err::<(u64, nat), ParseError>(ParseError::End) ==> settled(
            number_from(s, d, i, acc),
            s.len(),
        ) && number_from(s + t, d, i, acc) == number_from(s, d, i, acc),
    decreases s.len() - i,
{
    if i < s.len() && s[i as int] != d && is_digit_step(s, d, i, acc) {
        lemma_number_extend(s, t, d, i + 1, acc * 10 + (s[i as int] - 48) as nat);
    }
}

spec fn is_digit_step(s: Seq<u8>, d: u8, i: nat, acc: nat) -> bool {
    crate::scanner::is_digit(s[i as int]) && acc * 10 + (s[i as int] - 48) <= u64::MAX
}

proof fn lemma_name_extend(s: Seq<u8>, t: Seq<u8>, d: u8)
    ensures
        spec_name(s, d) != Err::<(Seq<char>, nat), ParseError>(ParseError::End) ==> settled(
            spec_name(s, d),
            s.len(),
        ) && spec_name(s + t, d) == spec_name(s, d),
{
    lemma_index_of_extend(s, t, d);
    if let Some(k) = index_of(s, d) {
        assert((s + t).subrange(0, k as int) =~= s.subrange(0, k as int));
    }
}

proof fn lemma_quoted_from_extend(s: Seq<u8>, t: Seq<u8>, q: u8, j: nat, esc: bool)
    requires
        j >= 1,
    ensures
        quoted_from(s, q, j, esc) != Err::<((Seq<u8>, bool), nat), ParseError>(ParseError::End)
            ==> settled(quoted_from(s, q, j, esc), s.len()) && quoted_from(s + t, q, j, esc)
            == quoted_from(s, q, j, esc),
    decreases s.len() - j,
{
    if j <= s.len() {
        lemma_tail_concat(s, t, j);
        lemma_index_of_extend(tail(s, j), t, q);
        if let Some(k) = index_of(tail(s, j), q) {
            let at = j + k + 1;
            if at < s.len() {
                assert((s + t)[at as int] == s[at as int]);
                if s[at as int] == 44u8 || s[at as int] == 13u8 {
                    assert((s + t).subrange(1, at - 1) =~= s.subrange(1, at - 1));
                } else {
                    lemma_quoted_from_extend(s, t, q, at + 1, esc || s[at as int] == q);
                }
            }
        }
    }
}

proof fn lemma_value_extend(s: Seq<u8>, t: Seq<u8>)
    ensures
        spec_value(s) != Err::<((Seq<u8>, crate::types::Escape), nat), ParseError>(ParseError::End)
            ==> settled(spec_value(s), s.len()) && spec_value(s + t) == spec_value(s),
{
    if s.len() > 0 {
        assert((s + t)[0] == s[0]);
        if s[0] == 34u8 || s[0] == 39u8 {
            lemma_quoted_from_extend(s, t, s[0], 1, false);
        } else {
            lemma_index_of2_extend(s, t, 44u8, 13u8);
            if let Some(k) = index_of2(s, 44u8, 13u8) {
                assert((s + t).subrange(0, k as int) =~= s.subrange(0, k as int));
            }
        }
    }
}

proof fn lemma_props_extend(s: Seq<u8>, t: Seq<u8>, i: nat, acc: Seq<PropView>)
    ensures
        props_from(s, i, acc) != Err::<(Seq<PropView>, nat), ParseError>(ParseError::End)
            ==> settled(props_from(s, i, acc), s.len()) && props_from(s + t, i, acc) == props_from(
            s,
            i,
            acc,
        ),
    decreases s.len() - i,
{
    if i <= s.len() {
        lemma_tail_concat(s, t, i);
        lemma_name_extend(tail(s, i), t, 61u8);
        if let Ok((key, n1)) = spec_name(tail(s, i), 61u8) {
            lemma_tail_concat(s, t, i + n1);
            lemma_value_extend(tail(s, i + n1), t);
            if let Ok((v, n2)) = spec_value(tail(s, i + n1)) {
                crate::record::lemma_value_len(tail(s, i + n1));
                let j = i + n1 + n2;
                if j < s.len() {
                    assert((s + t)[j as int] == s[j as int]);
                    if s[j as int] != 10u8 {
                        lemma_props_extend(s, t, j, acc.push((key, v)));
                    }
                }
            }
        }
    }
}

/// A header that did not run out of bytes reads the same when more bytes follow.
pub(crate) proof fn lemma_header_extend(s: Seq<u8>, t: Seq<u8>)
    ensures
        spec_header(s) != Err::<(crate::record::Header, nat), ParseError>(ParseError::End)
            ==> settled(spec_header(s), s.len()) && spec_header(s + t) == spec_header(s),
{
    lemma_number_extend(s, t, 58u8, 0, 0);
    if let Ok((_, a)) = spec_number(s, 58u8) {
        lemma_tail_concat(s, t, a);
        lemma_number_extend(tail(s, a), t, 46u8, 0, 0);
        if let Ok((_, b0)) = spec_number(tail(s, a), 46u8) {
            lemma_tail_concat(s, t, a + b0);
            lemma_number_extend(tail(s, a + b0), t, 45u8, 0, 0);
            if let Ok((_, c0)) = spec_number(tail(s, a + b0), 45u8) {
                lemma_tail_concat(s, t, a + b0 + c0);
                lemma_number_extend(tail(s, a + b0 + c0), t, 44u8, 0, 0);
                if let Ok((_, d0)) = spec_number(tail(s, a + b0 + c0), 44u8) {
                    lemma_tail_concat(s, t, a + b0 + c0 + d0);
                    lemma_name_extend(tail(s, a + b0 + c0 + d0), t, 44u8);
                    if let Ok((_, e0)) = spec_name(tail(s, a + b0 + c0 + d0), 44u8) {
                        lemma_tail_concat(s, t, a + b0 + c0 + d0 + e0);
                        lemma_number_extend(tail(s, a + b0 + c0 + d0 + e0), t, 44u8, 0, 0);
                    }
                }
            }
        }
    }
}

/// A record that did not run out of bytes reads the same when more bytes follow.
pub proof fn lemma_record_extend(s: Seq<u8>, t: Seq<u8>, date: LogDate)
    ensures
        spec_record(s, date) != Err::<(crate::record::EventView, nat), ParseError>(ParseError::End)
            ==> settled(spec_record(s, date), s.len()) && spec_record(s + t, date) == spec_record(
            s,
            date,
        ),
{
    lemma_header_extend(s, t);
    if let Ok((_, f)) = spec_header(s) {
        lemma_props_extend(s, t, f, seq![]);
    }
}

/// Reading records from offset `i + j` of `s` is reading from offset `j` of the
/// bytes that start at `i`.
proof fn lemma_scan_shift(s: Seq<u8>, date: LogDate, i: nat, j: nat)
    requires
        i <= s.len(),
    ensures
        ({
            let x = scan_records(tail(s, i), date, j);
            let y = scan_records(s, date, i + j);
            y.0 == x.0 && y.1 == x.1 + i && y.2 == x.2
        }),
    decreases (if i + j <= s.len() {
        s.len() + 1 - (i + j)
    } else {
        0
    }),
{
    if i + j <= s.len() {
        assert(tail(tail(s, i), j) =~= tail(s, i + j));
        if let Ok((_, n)) = spec_record(tail(s, i + j), date) {
            lemma_record_len(tail(s, i + j), date);
            lemma_scan_shift(s, date, i, j + n);
        }
    }
}

/// Reading stops inside the bytes, and where it stops without an error the
/// record there is unfinished.
proof fn lemma_scan_stop(s: Seq<u8>, date: LogDate, i: nat)
    requires
        i <= s.len(),
    ensures
        scan_records(s, date, i).1 <= s.len(),
        !scan_records(s, date, i).2 ==> spec_record(tail(s, scan_records(s, date, i).1), date)
            == Err::<(EventView, nat), ParseError>(ParseError::End),
    decreases s.len() + 1 - i,
{
    lemma_record_extend(tail(s, i), seq![], date);
    if let Ok((_, n)) = spec_record(tail(s, i), date) {
        lemma_record_len(tail(s, i), date);
        lemma_scan_stop(s, date, i + n);
    }
}

/// Reading `s + t` goes through the records that reading `s` found, then on from
/// where that stopped; malformed bytes in `s` stop both alike.
proof fn lemma_scan_extend(s: Seq<u8>, t: Seq<u8>, date: LogDate, i: nat)
    requires
        i <= s.len(),
    ensures
        ({
            let a = scan_records(s, date, i);
            let b = scan_records(s + t, date, i);
            if a.2 {
                b == a
            } else {
                let c = scan_records(s + t, date, a.1);
                b.0 == a.0 + c.0 && b.1 == c.1 && b.2 == c.2
            }
        }),
    decreases s.len() + 1 - i,
{
    lemma_tail_concat(s, t, i);
    lemma_record_extend(tail(s, i), t, date);
    match spec_record(tail(s, i), date) {
        Ok((e, n)) => {
            lemma_record_len(tail(s, i), date);
            lemma_scan_extend(s, t, date, i + n);
            let a1 = scan_records(s, date, i + n);
            if !a1.2 {
                let c = scan_records(s + t, date, a1.1);
                let b1 = scan_records(s + t, date, i + n);
                assert(seq![e] + b1.0 =~= seq![e] + a1.0 + c.0);
            }
        },
        Err(_) => {
            assert(seq![] + scan_records(s + t, date, i).0 =~= scan_records(s + t, date, i).0);
        },
    }
}

/// All chunks, one after another.
pub open spec fn concat_all(chunks: Seq<Seq<u8>>) -> Seq<u8>
    decreases chunks.len(),
{
    if chunks.len() == 0 {
        seq![]
    } else {
        chunks[0] + concat_all(chunks.drop_first())
    }
}

/// Reading all of `s` at once: the events, the bytes left unread, and whether
/// malformed bytes stopped the reading.
pub open spec fn read_whole(s: Seq<u8>, date: LogDate) -> (Seq<EventView>, Seq<u8>, bool) {
    let r = scan_records(s, date, 0);
    (r.0, tail(s, r.1), r.2)
}

/// Reading chunk by chunk: each chunk is appended to the bytes still waiting,
/// the complete records are read and their bytes dropped, until malformed bytes
/// stop it.
pub open spec fn run_chunks(pending: Seq<u8>, chunks: Seq<Seq<u8>>, date: LogDate) -> (
    Seq<EventView>,
    Seq<u8>,
    bool,
)
    decreases chunks.len(),
{
    if chunks.len() == 0 {
        (seq![], pending, false)
    } else {
        let r = read_whole(pending + chunks[0], date);
        if r.2 {
            r
        } else {
            let rest = run_chunks(r.1, chunks.drop_first(), date);
            (r.0 + rest.0, rest.1, rest.2)
        }
    }
}

/// The waiting bytes hold no complete record yet.
pub open spec fn unfinished(pending: Seq<u8>, date: LogDate) -> bool {
    spec_record(pending, date) == Err::<(EventView, nat), ParseError>(ParseError::End)
}

#[verifier::rlimit(40)]
proof fn lemma_run_chunks(pending: Seq<u8>, chunks: Seq<Seq<u8>>, date: LogDate)
    requires
        unfinished(pending, date),
    ensures
        ({
            let a = run_chunks(pending, chunks, date);
            let b = read_whole(pending + concat_all(chunks), date);
            a.0 == b.0 && a.2 == b.2 && (!a.2 ==> a.1 == b.1)
        }),
    decreases chunks.len(),
{
    assert(tail(pending, 0) =~= pending);
    if chunks.len() == 0 {
        assert(pending + concat_all(chunks) =~= pending);
    } else {
        let rest = chunks.drop_first();
        let s = pending + chunks[0];
        let big = concat_all(rest);
        assert(pending + concat_all(chunks) =~= s + big);
        lemma_scan_extend(s, big, date, 0);
        lemma_scan_stop(s, date, 0);
        let r = scan_records(s, date, 0);
        let whole = scan_records(s + big, date, 0);
        if !r.2 {
            let waiting = tail(s, r.1);
            lemma_run_chunks(waiting, rest, date);
            lemma_tail_concat(s, big, r.1);
            lemma_scan_shift(s + big, date, r.1, 0);
            let x = scan_records(waiting + big, date, 0);
            let c = scan_records(s + big, date, r.1);
            assert(c.0 == x.0 && c.1 == x.1 + r.1 && c.2 == x.2);
            assert(whole.0 == r.0 + x.0);
            lemma_scan_stop(waiting + big, date, 0);
            assert(tail(waiting + big, x.1) =~= tail(s + big, whole.1));
            let tailrun = run_chunks(waiting, rest, date);
            assert(run_chunks(pending, chunks, date) == (r.0 + tailrun.0, tailrun.1, tailrun.2));
        } else {
            assert(whole == r);
            assert(run_chunks(pending, chunks, date) == read_whole(s, date));
        }
    }
}

/// However a byte stream is cut into chunks, reading it chunk by chunk yields the
/// events of reading it whole, in the same order, and stops on malformed bytes
/// alike; when it does not, the same bytes are left waiting.
pub proof fn lemma_chunks_read_as_whole(chunks: Seq<Seq<u8>>, date: LogDate)
    ensures
        ({
            let a = run_chunks(seq![], chunks, date);
            let b = read_whole(concat_all(chunks), date);
            a.0 == b.0 && a.2 == b.2 && (!a.2 ==> a.1 == b.1)
        }),
{
    assert(unfinished(seq![], date));
    lemma_run_chunks(seq![], chunks, date);
    assert(seq![] + concat_all(chunks) =~= concat_all(chunks));
}

/// Splitting the bytes at any offset and reading the two halves as two chunks
/// yields the events of reading them in one chunk.
pub proof fn lemma_split_anywhere(bytes: Seq<u8>, k: nat, date: LogDate)
    requires
        k <= bytes.len(),
    ensures
        run_chunks(seq![], seq![bytes.subrange(0, k as int), tail(bytes, k)], date).0
            == run_chunks(seq![], seq![bytes], date).0,
        run_chunks(seq![], seq![bytes.subrange(0, k as int), tail(bytes, k)], date).2
            == run_chunks(seq![], seq![bytes], date).2,
{
    let two = seq![bytes.subrange(0, k as int), tail(bytes, k)];
    let one = seq![bytes];
    assert(concat_all(two.drop_first().drop_first()) =~= seq![]);
    assert(two.drop_first()[0] == tail(bytes, k));
    assert(concat_all(two.drop_first()) =~= tail(bytes, k));
    assert(concat_all(two) =~= bytes);
    assert(concat_all(one.drop_first()) =~= seq![]);
    assert(concat_all(one) =~= bytes);
    lemma_chunks_read_as_whole(two, date);
    lemma_chunks_read_as_whole(one, date);
}

} // verus!
