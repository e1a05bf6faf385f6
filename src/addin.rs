//! State kept by the host-plugin adapter between calls.
use vstd::prelude::*;
use crate::filters::{all_accept, passes, Filter};
use crate::record::{Event, EventView};
use crate::stream::event_views;

verus! {

/// The adapter object: it remembers the message of the last failure.
pub struct Parser {
    last_error: Option<String>,
}

impl Parser {
    pub closed spec fn error(&self) -> Option<Seq<char>> {
        match self.last_error {
            Some(e) => Some(e@),
            None => None,
        }
    }

    pub fn new() -> (r: Self)
        ensures
            r.error() is None,
    {
        Parser { last_error: None }
    }

    /// Remembers the outcome of the last operation: its error message, or none.
    pub fn save_error(&mut self, err: Option<String>)
        ensures
            final(self).error() == match err {
                Some(e) => Some(e@),
                None => None::<Seq<char>>,
            },
    {
        self.last_error = err;
    }

    /// The message of the last failure, empty when the last operation succeeded.
    pub fn last_error(&self) -> (r: String)
        ensures
            r@ == match self.error() {
                Some(e) => e,
                None => Seq::<char>::empty(),
            },
    {
        match &self.last_error {
            Some(e) => e.as_str().to_owned(),
            None => String::new(),
        }
    }
}

/// Whether delivery goes on after the `k`-th event under `limit`: a limit of zero
/// or less sets no bound.
pub open spec fn continues_after(limit: int, k: int) -> bool {
    limit <= 0 || k < limit
}

/// Counts delivered events against a limit.
pub struct RecordLimit {
    limit: i32,
    count: i32,
}

impl RecordLimit {
    pub closed spec fn limit(&self) -> int {
        self.limit as int
    }

    /// Events counted so far.
    pub closed spec fn count(&self) -> int {
        self.count as int
    }

    /// More events may still be delivered.
    pub open spec fn open_for_more(&self) -> bool {
        self.limit() <= 0 || 0 <= self.count() < self.limit()
    }

    pub fn new(limit: i32) -> (r: RecordLimit)
        ensures
            r.limit() == limit,
            r.count() == 0,
    {
        RecordLimit { limit, count: 0 }
    }

    /// Counts one more delivered event; `false` when that was the last one allowed.
    pub fn accept(&mut self) -> (r: bool)
        requires
            old(self).open_for_more(),
        ensures
            final(self).limit() == old(self).limit(),
            old(self).limit() > 0 ==> final(self).count() == old(self).count() + 1,
            old(self).limit() <= 0 ==> final(self).count() == old(self).count(),
            r == continues_after(final(self).limit(), final(self).count()),
            r ==> final(self).open_for_more(),
    {
        if self.limit > 0 {
            self.count = self.count + 1;
            self.count < self.limit
        } else {
            true
        }
    }
}

/// The indices from `i` on of the events that every filter accepts, in order.
pub open spec fn kept_from(filters: Seq<Filter>, evs: Seq<EventView>, i: nat) -> Seq<nat>
    decreases evs.len() - i,
{
    if i >= evs.len() {
        seq![]
    } else if all_accept(filters, evs[i as int]) {
        seq![i] + kept_from(filters, evs, i + 1)
    } else {
        kept_from(filters, evs, i + 1)
    }
}

/// The indices of the events that every filter accepts, in order.
pub open spec fn kept(filters: Seq<Filter>, evs: Seq<EventView>) -> Seq<nat> {
    kept_from(filters, evs, 0)
}

/// Chooses, among `events`, those to deliver: each that every filter accepts, in
/// order, until `limit` has counted its last. Returns their indices, and whether
/// the limit was reached.
pub fn select_events<'a>(filters: &[Filter], events: &[Event<'a>], limit: &mut RecordLimit) -> (r: (
    Vec<usize>,
    bool,
))
    requires
        old(limit).open_for_more(),
    ensures
        final(limit).limit() == old(limit).limit(),
        ({
            let all = kept(filters@, event_views(events@));
            let room = old(limit).limit() - old(limit).count();
            if old(limit).limit() > 0 && all.len() >= room {
                &&& r.1
                &&& r.0@.map_values(|i: usize| i as nat) == all.take(room)
                &&& final(limit).count() == old(limit).limit()
            } else {
                &&& !r.1
                &&& r.0@.map_values(|i: usize| i as nat) == all
                &&& final(limit).open_for_more()
                &&& old(limit).limit() > 0 ==> final(limit).count() == old(limit).count()
                    + all.len()
            }
        }),
{
    let ghost evs = event_views(events@);
    let ghost all = kept(filters@, evs);
    let mut out: Vec<usize> = Vec::new();
    let mut i: usize = 0;
    assert(out@.map_values(|i: usize| i as nat) + kept_from(filters@, evs, 0) =~= all);
    while i < events.len()
        invariant
            i <= events@.len(),
            evs == event_views(events@),
            all == kept(filters@, evs),
            limit.open_for_more(),
            limit.limit() == old(limit).limit(),
            limit.limit() > 0 ==> limit.count() == old(limit).count() + out@.len(),
            limit.limit() <= 0 ==> limit.count() == old(limit).count(),
            all == out@.map_values(|i: usize| i as nat) + kept_from(filters@, evs, i as nat),
        decreases events@.len() - i,
    {
        let ghost before = out@.map_values(|i: usize| i as nat);
        assert(evs[i as int] == events@[i as int]@);
        if passes(filters, &events[i]) {
            out.push(i);
            assert(out@.map_values(|i: usize| i as nat) =~= before.push(i as nat));
            assert(all =~= out@.map_values(|i: usize| i as nat) + kept_from(filters@, evs, (i + 1) as nat));
            if !limit.accept() {
                proof {
                    lemma_kept_prefix(out@.map_values(|i: usize| i as nat), kept_from(filters@, evs, (i + 1) as nat));
                }
                return (out, true);
            }
        }
        i = i + 1;
    }
    assert(kept_from(filters@, evs, i as nat) =~= seq![]);
    assert(all =~= out@.map_values(|i: usize| i as nat));
    (out, false)
}

proof fn lemma_kept_prefix(a: Seq<nat>, b: Seq<nat>)
    ensures
        (a + b).take(a.len() as int) == a,
{
    assert((a + b).take(a.len() as int) =~= a);
}

/// Filtering keeps exactly the events that every filter accepts, in their order.
pub proof fn lemma_kept_exactly(filters: Seq<Filter>, evs: Seq<EventView>)
    ensures
        forall|j: int| 0 <= j < kept(filters, evs).len() ==> {
            let i = #[trigger] kept(filters, evs)[j];
            i < evs.len() && all_accept(filters, evs[i as int])
        },
        forall|j: int, k: int|
            0 <= j < k < kept(filters, evs).len() ==> kept(filters, evs)[j] < kept(filters, evs)[k],
        forall|i: int|
            0 <= i < evs.len() && all_accept(filters, #[trigger] evs[i]) ==> kept(filters, evs).contains(
                i as nat,
            ),
{
    lemma_kept_from(filters, evs, 0);
}

proof fn lemma_kept_from(filters: Seq<Filter>, evs: Seq<EventView>, i: nat)
    ensures
        forall|j: int| 0 <= j < kept_from(filters, evs, i).len() ==> {
            let x = #[trigger] kept_from(filters, evs, i)[j];
            i <= x < evs.len() && all_accept(filters, evs[x as int])
        },
        forall|j: int, k: int|
            0 <= j < k < kept_from(filters, evs, i).len() ==> kept_from(filters, evs, i)[j]
                < kept_from(filters, evs, i)[k],
        forall|x: int|
            i <= x < evs.len() && all_accept(filters, #[trigger] evs[x]) ==> kept_from(
                filters,
                evs,
                i,
            ).contains(x as nat),
    decreases evs.len() - i,
{
    if i < evs.len() {
        lemma_kept_from(filters, evs, i + 1);
        let rest = kept_from(filters, evs, i + 1);
        if all_accept(filters, evs[i as int]) {
            let cur = seq![i] + rest;
            assert forall|x: int|
                i <= x < evs.len() && all_accept(filters, #[trigger] evs[x]) implies cur.contains(
                x as nat,
            ) by {
                if x == i {
                    assert(cur[0] == i);
                } else {
                    let w = choose|w: int| 0 <= w < rest.len() && rest[w] == x as nat;
                    assert(cur[w + 1] == x as nat);
                }
            }
            assert forall|j: int| 0 <= j < cur.len() implies {
                let x = #[trigger] cur[j];
                i <= x < evs.len() && all_accept(filters, evs[x as int])
            } by {
                if j > 0 {
                    assert(cur[j] == rest[j - 1]);
                }
            }
            assert forall|j: int, k: int| 0 <= j < k < cur.len() implies cur[j] < cur[k] by {
                if j > 0 {
                    assert(cur[j] == rest[j - 1]);
                }
                assert(cur[k] == rest[k - 1]);
            }
        }
    }
}

} // verus!
