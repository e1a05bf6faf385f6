//! Writing a field and reading it back: doubling quotes is undone exactly.
use vstd::prelude::*;
use crate::chunking::lemma_header_extend;
use crate::date::LogDate;
use crate::record::{header_in_range, props_from, spec_header, spec_record, tail, PropView};
use crate::scanner::{escape_of, quoted_from, spec_name, spec_value};
use crate::text::{index_of, lemma_index_of, lemma_index_of2};
use crate::types::{collapse, quote_byte, unescaped, Escape};

verus! {

/// `c` with each `q` written twice, as inside a value quoted by `q`.
pub open spec fn double_quotes(c: Seq<u8>, q: u8) -> Seq<u8>
    decreases c.len(),
{
    if c.len() == 0 {
        c
    } else if c[0] == q {
        seq![q, q] + double_quotes(c.drop_first(), q)
    } else {
        seq![c[0]] + double_quotes(c.drop_first(), q)
    }
}

proof fn lemma_collapse_double(c: Seq<u8>, q: u8)
    ensures
        collapse(double_quotes(c, q), q) == c,
    decreases c.len(),
{
    if c.len() > 0 {
        lemma_collapse_double(c.drop_first(), q);
        let d = double_quotes(c.drop_first(), q);
        if c[0] == q {
            let s = seq![q, q] + d;
            assert(s.subrange(2, s.len() as int) =~= d);
        } else {
            let s = seq![c[0]] + d;
            assert(s.drop_first() =~= d);
        }
        assert(c =~= seq![c[0]] + c.drop_first());
    }
}

proof fn lemma_double_without(c: Seq<u8>, q: u8)
    requires
        !c.contains(q),
    ensures
        double_quotes(c, q) == c,
    decreases c.len(),
{
    if c.len() > 0 {
        assert(!c.drop_first().contains(q)) by {
            if c.drop_first().contains(q) {
                let i = choose|i: int| 0 <= i < c.drop_first().len() && c.drop_first()[i] == q;
                assert(c[i + 1] == q);
            }
        }
        assert(c[0] != q) by {
            if c[0] == q {
                assert(c.contains(q));
            }
        }
        lemma_double_without(c.drop_first(), q);
        assert(c =~= seq![c[0]] + c.drop_first());
    }
}

/// Doubling splits at the first quote: the bytes before it are kept as they are.
proof fn lemma_double_split(a: Seq<u8>, b: Seq<u8>, q: u8)
    requires
        !a.contains(q),
    ensures
        double_quotes(a + seq![q] + b, q) == a + seq![q, q] + double_quotes(b, q),
    decreases a.len(),
{
    let c = a + seq![q] + b;
    if a.len() == 0 {
        assert(c =~= seq![q] + b);
        assert(c.drop_first() =~= b);
        assert(a + seq![q, q] + double_quotes(b, q) =~= seq![q, q] + double_quotes(b, q));
    } else {
        let a1 = a.drop_first();
        assert(!a1.contains(q)) by {
            if a1.contains(q) {
                let i = choose|i: int| 0 <= i < a1.len() && a1[i] == q;
                assert(a[i + 1] == q);
            }
        }
        assert(a[0] != q) by {
            if a[0] == q {
                assert(a.contains(q));
            }
        }
        lemma_double_split(a1, b, q);
        assert(c.drop_first() =~= a1 + seq![q] + b);
        assert(c[0] == a[0]);
        assert(a + seq![q, q] + double_quotes(b, q) =~= seq![a[0]] + (a1 + seq![q, q]
            + double_quotes(b, q)));
    }
}

proof fn lemma_index_of_facts(c: Seq<u8>, q: u8)
    ensures
        match index_of(c, q) {
            Some(k) => k < c.len() && c[k as int] == q && forall|i: int| 0 <= i < k ==> c[i] != q,
            None => !c.contains(q),
        },
    decreases c.len(),
{
    if c.len() > 0 && c[0] != q {
        lemma_index_of_facts(c.drop_first(), q);
        if index_of(c.drop_first(), q) is None {
            assert(!c.contains(q)) by {
                if c.contains(q) {
                    let i = choose|i: int| 0 <= i < c.len() && c[i] == q;
                    assert(c.drop_first()[i - 1] == q);
                }
            }
        } else {
            let k = index_of(c.drop_first(), q)->0;
            assert forall|i: int| 0 <= i < k + 1 implies c[i] != q by {
                if i > 0 {
                    assert(c[i] == c.drop_first()[i - 1]);
                }
            }
        }
    }
}

/// Reading on from offset `j`, where the doubled bytes of `c` and a closing quote
/// followed by `t` stand.
proof fn lemma_quoted_body(s: Seq<u8>, q: u8, t: u8, j: nat, c: Seq<u8>, esc: bool)
    requires
        q == 39u8 || q == 34u8,
        t == 44u8 || t == 13u8,
        j >= 1,
        j + double_quotes(c, q).len() + 2 <= s.len(),
        s.subrange(j as int, (j + double_quotes(c, q).len() + 2) as int) == double_quotes(c, q) + seq![q, t],
    ensures
        quoted_from(s, q, j, esc) == Ok::<((Seq<u8>, bool), nat), crate::scanner::ParseError>(
            (
                (s.subrange(1, (j + double_quotes(c, q).len()) as int), esc || c.contains(q)),
                j + double_quotes(c, q).len() + 2,
            ),
        ),
    decreases c.len(),
{
    let d = double_quotes(c, q);
    let rest = s.subrange(j as int, s.len() as int);
    lemma_index_of_facts(c, q);
    if let Some(k) = index_of(c, q) {
        let a = c.subrange(0, k as int);
        let b = c.subrange((k + 1) as int, c.len() as int);
        assert(c =~= a + seq![q] + b);
        assert(!a.contains(q)) by {
            if a.contains(q) {
                let i = choose|i: int| 0 <= i < a.len() && a[i] == q;
                assert(c[i] == q);
            }
        }
        lemma_double_split(a, b, q);
        let db = double_quotes(b, q);
        let w = s.subrange(j as int, (j + d.len() + 2) as int);
        assert(w =~= a + seq![q, q] + db + seq![q, t]);
        assert forall|i: int| 0 <= i < k implies rest[i] != q by {
            assert(rest[i] == w[i]);
            assert(w[i] == a[i]);
        }
        assert(rest[k as int] == w[k as int]);
        lemma_index_of(rest, q, Some(k));
        let at = j + k + 1;
        assert(s[at as int] == w[(k + 1) as int]);
        let j2 = (j + k + 2) as nat;
        assert(s.subrange(j2 as int, (j2 + db.len() + 2) as int) =~= w.subrange((k + 2) as int, w.len() as int));
        assert(w.subrange((k + 2) as int, w.len() as int) =~= db + seq![q, t]);
        lemma_quoted_body(s, q, t, j2, b, true);
    } else {
        lemma_double_without(c, q);
        assert forall|i: int| 0 <= i < c.len() implies rest[i] != q by {
            assert(rest[i] == s.subrange(j as int, (j + d.len() + 2) as int)[i]);
            if c[i] == q {
                assert(c.contains(q));
            }
        }
        assert(rest[c.len() as int] == s.subrange(j as int, (j + d.len() + 2) as int)[c.len() as int]);
        lemma_index_of(rest, q, Some(c.len()));
        let at = j + c.len() + 1;
        assert(s[at as int] == s.subrange(j as int, (j + d.len() + 2) as int)[(c.len() + 1) as int]);
    }
}

/// How a field written between quotes `q` reads: the doubled bytes, escaped when
/// a quote had to be doubled.
pub open spec fn quoted_view(c: Seq<u8>, q: u8) -> (Seq<u8>, Escape) {
    (double_quotes(c, q), if c.contains(q) { escape_of(q) } else { Escape::Plain })
}

/// A field written between quotes `q`, with each `q` inside it doubled, and
/// followed by `,` or a carriage return, reads back as exactly the bytes that were
/// written; reading those bytes again as a plain value gives them unchanged.
pub proof fn lemma_quoted_round_trip(c: Seq<u8>, q: u8, t: u8, after: Seq<u8>)
    requires
        q == 39u8 || q == 34u8,
        t == 44u8 || t == 13u8,
    ensures
        ({
            let s = seq![q] + double_quotes(c, q) + seq![q, t] + after;
            let r = spec_value(s);
            &&& r == Ok::<((Seq<u8>, Escape), nat), crate::scanner::ParseError>(
                (quoted_view(c, q), double_quotes(c, q).len() + 3),
            )
            &&& unescaped(r->Ok_0.0.0, r->Ok_0.0.1) == c
            &&& r->Ok_0.1 == double_quotes(c, q).len() + 3
            &&& unescaped(unescaped(r->Ok_0.0.0, r->Ok_0.0.1), Escape::Plain) == c
        }),
{
    let d = double_quotes(c, q);
    let s = seq![q] + d + seq![q, t] + after;
    assert(s.subrange(1, (1 + d.len() + 2) as int) =~= d + seq![q, t]);
    lemma_quoted_body(s, q, t, 1, c, false);
    assert(s.subrange(1, (1 + d.len()) as int) =~= d);
    assert(s[0] == q);
    if c.contains(q) {
        lemma_collapse_double(c, q);
        assert(quote_byte(escape_of(q)) == q);
    } else {
        lemma_double_without(c, q);
    }
}

/// A field that does not open with a quote and holds no `,` or carriage return,
/// followed by one of those, reads back as exactly its bytes, unescaped.
pub proof fn lemma_bare_round_trip(c: Seq<u8>, t: u8, after: Seq<u8>)
    requires
        t == 44u8 || t == 13u8,
        !c.contains(44u8),
        !c.contains(13u8),
        c.len() > 0 ==> c[0] != 34u8 && c[0] != 39u8,
    ensures
        spec_value(c + seq![t] + after) == Ok::<((Seq<u8>, Escape), nat), crate::scanner::ParseError>(
            ((c, Escape::Plain), c.len() + 1),
        ),
{
    let s = c + seq![t] + after;
    assert forall|i: int| 0 <= i < c.len() implies s[i] != 44u8 && s[i] != 13u8 by {
        assert(s[i] == c[i]);
        if c[i] == 44u8 {
            assert(c.contains(44u8));
        }
        if c[i] == 13u8 {
            assert(c.contains(13u8));
        }
    }
    assert(s[c.len() as int] == t);
    lemma_index_of2(s, 44u8, 13u8, Some(c.len()));
    assert(s.subrange(0, c.len() as int) =~= c);
}

/// One property written as `key='content'`, followed by `,`, or by CR LF when it
/// is the last.
pub open spec fn write_prop(key: Seq<u8>, c: Seq<u8>, q: u8, last: bool) -> Seq<u8> {
    key + seq![61u8, q] + double_quotes(c, q) + seq![q] + if last {
        seq![13u8, 10u8]
    } else {
        seq![44u8]
    }
}

/// Properties written one after another, the last ending the record.
pub open spec fn write_props(props: Seq<(Seq<u8>, Seq<u8>)>, q: u8) -> Seq<u8>
    decreases props.len(),
{
    if props.len() == 0 {
        seq![]
    } else if props.len() == 1 {
        write_prop(props[0].0, props[0].1, q, true)
    } else {
        write_prop(props[0].0, props[0].1, q, false) + write_props(props.drop_first(), q)
    }
}

/// A key that can be written as is: UTF-8 with no `=` and no line feed.
pub open spec fn plain_key(k: Seq<u8>) -> bool {
    vstd::utf8::valid_utf8(k) && !k.contains(61u8) && !k.contains(10u8)
}

/// The properties that written properties read back as.
pub open spec fn props_read(props: Seq<(Seq<u8>, Seq<u8>)>, q: u8) -> Seq<PropView> {
    props.map_values(|p: (Seq<u8>, Seq<u8>)| (vstd::utf8::decode_utf8(p.0), quoted_view(p.1, q)))
}

proof fn lemma_key_read(r: Seq<u8>, key: Seq<u8>)
    requires
        plain_key(key),
        key.len() < r.len(),
        r.subrange(0, (key.len() + 1) as int) == key + seq![61u8],
    ensures
        spec_name(r, 61u8) == Ok::<(Seq<char>, nat), crate::scanner::ParseError>(
            (vstd::utf8::decode_utf8(key), key.len() + 1),
        ),
{
    assert forall|k: int| 0 <= k < key.len() implies r[k] != 61u8 by {
        assert(r[k] == r.subrange(0, (key.len() + 1) as int)[k]);
        if key[k] == 61u8 {
            assert(key.contains(61u8));
        }
    }
    assert(r[key.len() as int] == r.subrange(0, (key.len() + 1) as int)[key.len() as int]);
    lemma_index_of(r, 61u8, Some(key.len()));
    assert(r.subrange(0, key.len() as int) =~= key);
}

/// One written property reads back as its key and quoted value.
proof fn lemma_prop_read(s: Seq<u8>, i: nat, key: Seq<u8>, c: Seq<u8>, q: u8, last: bool)
    requires
        q == 39u8 || q == 34u8,
        plain_key(key),
        i + write_prop(key, c, q, last).len() <= s.len(),
        s.subrange(i as int, (i + write_prop(key, c, q, last).len()) as int) == write_prop(
            key,
            c,
            q,
            last,
        ),
    ensures
        ({
            let n1 = key.len() + 1;
            let n2 = double_quotes(c, q).len() + 3;
            &&& spec_name(tail(s, i), 61u8) == Ok::<(Seq<char>, nat), crate::scanner::ParseError>(
                (vstd::utf8::decode_utf8(key), n1),
            )
            &&& spec_value(tail(s, i + n1)) == Ok::<
                ((Seq<u8>, Escape), nat),
                crate::scanner::ParseError,
            >((quoted_view(c, q), n2))
            &&& write_prop(key, c, q, last).len() == n1 + n2 + if last {
                1nat
            } else {
                0nat
            }
            &&& last ==> s[(i + n1 + n2) as int] == 10u8
        }),
{
    let first = write_prop(key, c, q, last);
    let d = double_quotes(c, q);
    let t: u8 = if last { 13u8 } else { 44u8 };
    let n1 = key.len() + 1;
    let w = s.subrange(i as int, (i + first.len()) as int);
    assert(tail(s, i).subrange(0, (key.len() + 1) as int) =~= key + seq![61u8]) by {
        assert forall|k: int| 0 <= k < key.len() + 1 implies #[trigger] tail(s, i).subrange(
            0,
            (key.len() + 1) as int,
        )[k] == (key + seq![61u8])[k] by {
            assert(tail(s, i)[k] == w[k]);
        }
    }
    lemma_key_read(tail(s, i), key);
    let after = tail(s, i + n1 + d.len() + 3);
    assert(tail(s, i + n1) =~= seq![q] + d + seq![q, t] + after) by {
        assert forall|k: int| 0 <= k < d.len() + 3 implies #[trigger] tail(s, i + n1)[k] == (
        seq![q] + d + seq![q, t])[k] by {
            assert(tail(s, i + n1)[k] == w[n1 + k]);
        }
    }
    lemma_quoted_round_trip(c, q, t, after);
    if last {
        assert(s[(i + n1 + d.len() + 3) as int] == w[(n1 + d.len() + 3) as int]);
    }
}

#[verifier::rlimit(40)]
proof fn lemma_props_written(
    s: Seq<u8>,
    i: nat,
    acc: Seq<PropView>,
    props: Seq<(Seq<u8>, Seq<u8>)>,
    q: u8,
)
    requires
        q == 39u8 || q == 34u8,
        props.len() >= 1,
        forall|k: int| 0 <= k < props.len() ==> plain_key(#[trigger] props[k].0),
        i + write_props(props, q).len() <= s.len(),
        s.subrange(i as int, (i + write_props(props, q).len()) as int) == write_props(props, q),
    ensures
        props_from(s, i, acc) == Ok::<(Seq<PropView>, nat), crate::scanner::ParseError>(
            (acc + props_read(props, q), i + write_props(props, q).len()),
        ),
    decreases props.len(),
{
    let w = write_props(props, q);
    let last = props.len() == 1;
    let key = props[0].0;
    let c = props[0].1;
    let first = write_prop(key, c, q, last);
    assert(plain_key(key));
    let view0 = (vstd::utf8::decode_utf8(key), quoted_view(c, q));
    if last {
        assert(w == first);
        lemma_prop_read(s, i, key, c, q, true);
        assert(props_read(props, q) =~= seq![view0]);
        assert(acc.push(view0) =~= acc + props_read(props, q));
    } else {
        let more = props.drop_first();
        let wm = write_props(more, q);
        assert(w =~= first + wm);
        assert(s.subrange(i as int, (i + first.len()) as int) =~= first) by {
            assert forall|k: int| 0 <= k < first.len() implies #[trigger] s.subrange(
                i as int,
                (i + first.len()) as int,
            )[k] == first[k] by {
                assert(s[i + k] == w[k]);
            }
        }
        lemma_prop_read(s, i, key, c, q, false);
        let j = i + first.len();
        assert(s.subrange(j as int, (j + wm.len()) as int) =~= wm) by {
            assert forall|k: int| 0 <= k < wm.len() implies #[trigger] s.subrange(
                j as int,
                (j + wm.len()) as int,
            )[k] == wm[k] by {
                assert(s[j + k] == w[first.len() + k]);
            }
        }
        assert forall|k: int| 0 <= k < more.len() implies plain_key(#[trigger] more[k].0) by {
            assert(more[k] == props[k + 1]);
        }
        assert(s[j as int] != 10u8) by {
            let k1 = more[0].0;
            assert(plain_key(k1));
            assert(s[j as int] == wm[0]);
            if more.len() == 1 {
                assert(wm == write_prop(k1, more[0].1, q, true));
            } else {
                assert(wm =~= write_prop(k1, more[0].1, q, false) + write_props(
                    more.drop_first(),
                    q,
                ));
            }
            if k1.len() > 0 {
                assert(wm[0] == k1[0]);
                if k1[0] == 10u8 {
                    assert(k1.contains(10u8));
                }
            } else {
                assert(wm[0] == 61u8);
            }
        }
        lemma_props_written(s, j, acc.push(view0), more, q);
        assert(props_read(props, q) =~= seq![view0] + props_read(more, q));
        assert(acc.push(view0) + props_read(more, q) =~= acc + props_read(props, q));
    }
}

/// A record whose header bytes read as a whole header with its fields in range,
/// followed by properties written as `key='content'` with each quote inside
/// doubled, reads back with exactly those properties, in order, and each value
/// renders to the content that was written.
pub proof fn lemma_record_round_trip(
    h: Seq<u8>,
    props: Seq<(Seq<u8>, Seq<u8>)>,
    q: u8,
    after: Seq<u8>,
    date: LogDate,
)
    requires
        q == 39u8 || q == 34u8,
        props.len() >= 1,
        forall|k: int| 0 <= k < props.len() ==> plain_key(#[trigger] props[k].0),
        spec_header(h).is_ok(),
        spec_header(h)->Ok_0.1 == h.len(),
        header_in_range(
            spec_header(h)->Ok_0.0.0,
            spec_header(h)->Ok_0.0.1,
            spec_header(h)->Ok_0.0.2,
            spec_header(h)->Ok_0.0.5,
        ),
    ensures
        ({
            let r = spec_record(h + write_props(props, q) + after, date);
            &&& r.is_ok()
            &&& r->Ok_0.1 == h.len() + write_props(props, q).len()
            &&& r->Ok_0.0.properties == props_read(props, q)
            &&& forall|k: int|
                0 <= k < props.len() ==> unescaped(
                    (#[trigger] r->Ok_0.0.properties[k]).1.0,
                    r->Ok_0.0.properties[k].1.1,
                ) == props[k].1
        }),
{
    let w = write_props(props, q);
    let s = h + w + after;
    assert(s =~= h + (w + after));
    lemma_header_extend(h, w + after);
    assert(s.subrange(h.len() as int, (h.len() + w.len()) as int) =~= w);
    lemma_props_written(s, h.len(), seq![], props, q);
    assert(seq![] + props_read(props, q) =~= props_read(props, q));
    let r = spec_record(s, date);
    assert forall|k: int| 0 <= k < props.len() implies unescaped(
        (#[trigger] r->Ok_0.0.properties[k]).1.0,
        r->Ok_0.0.properties[k].1.1,
    ) == props[k].1 by {
        lemma_quoted_round_trip(props[k].1, q, 44u8, seq![]);
    }
}

} // verus!
