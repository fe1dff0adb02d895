use vstd::prelude::*;
use crate::span::SimpleSpan;
use crate::vecspet::{
    sorted_by_start, all_wf, all_strict, cover_count, occ_count, lemma_cover_count_split,
    lemma_cover_count_push, lemma_cover_count_insert, lemma_cover_count_drop_last,
    lemma_cover_count_none, lemma_cover_count_all_except, lemma_occ_count_split,
    lemma_occ_count_push, lemma_occ_count_insert, lemma_occ_count_drop_last,
    lemma_occ_count_positive,
};

verus! {

/// A start or end event of a span, produced by the sweep.
#[derive(Clone, Copy, PartialEq, Eq, Structural, Debug)]
pub enum Point {
    StartOf(SimpleSpan),
    EndOf(SimpleSpan),
}

impl Point {
    /// The coordinate of the event: the span's start for a start event, the
    /// span's end for an end event.
    pub open spec fn value_spec(self) -> i64 {
        match self {
            Point::StartOf(sp) => sp.start,
            Point::EndOf(sp) => sp.end,
        }
    }

    /// The coordinate of the event.
    pub fn value(&self) -> (r: i64)
        ensures
            r == self.value_spec(),
    {
        match self {
            Point::StartOf(sp) => sp.start,
            Point::EndOf(sp) => sp.end,
        }
    }
}

/// Enumerates the start and end events of a start-sorted span sequence in
/// ascending coordinate order, without sorting all endpoints up front: only a
/// small set of currently open spans is kept, ordered by end value. At equal
/// coordinates an end event comes before a start event, so touching spans
/// never appear to overlap. The sweep demands spans that cover at least one
/// point; zero-length spans cover nothing and are dropped by the span-set
/// builder before any sweep.
pub struct PointIterator {
    spans: Vec<SimpleSpan>,
    pos: usize,
    peeked_start: Option<SimpleSpan>,
    /// The open spans, ordered by descending end value: the least end sits at
    /// the back.
    ends: Vec<SimpleSpan>,
    /// The coordinate of the event handed out last.
    last: Ghost<i64>,
    /// The coordinate of the start event handed out last.
    last_start: Ghost<i64>,
    /// The spans whose end event has been handed out, in emission order.
    closed_spans: Ghost<Seq<SimpleSpan>>,
    /// Where the withheld span sits among the open ends.
    peek_at: Ghost<int>,
}

impl PointIterator {
    /// The spans being swept.
    pub closed spec fn spans_view(self) -> Seq<SimpleSpan> {
        self.spans@
    }

    /// The coordinate of the event handed out last.
    pub closed spec fn last_value(self) -> i64 {
        self.last@
    }

    /// The coordinate of the start event handed out last.
    pub closed spec fn last_start_value(self) -> i64 {
        self.last_start@
    }

    /// How many start events have been handed out: the starts come in input
    /// order, one per span.
    pub closed spec fn starts_taken(self) -> int {
        self.pos - (if self.peeked_start is Some {
            1int
        } else {
            0int
        })
    }

    /// The spans whose end event has been handed out, in emission order.
    pub closed spec fn closed_view(self) -> Seq<SimpleSpan> {
        self.closed_spans@
    }

    /// How many spans have been started and not yet ended.
    pub closed spec fn open_count(self) -> int {
        self.ends@.len() - (if self.peeked_start is Some {
            1int
        } else {
            0int
        })
    }

    /// How many events are still to come: two per unread span, one per open
    /// end, plus a withheld start.
    pub closed spec fn measure(self) -> int {
        2 * (self.spans@.len() - self.pos) + self.ends@.len() + (
        if self.peeked_start is Some {
            1int
        } else {
            0int
        })
    }

    /// The machine invariant: the input is start-sorted with productive spans,
    /// the open ends are ordered, every event still to come lies at or past
    /// the coordinate handed out last, and the per-point and per-value counts
    /// of the consumed spans are split between the ended and the open ones.
    pub closed spec fn wf(self) -> bool {
        &&& self.pos <= self.spans@.len()
        &&& sorted_by_start(self.spans@)
        &&& all_wf(self.spans@)
        &&& all_strict(self.spans@)
        &&& forall|k1: int, k2: int|
            0 <= k1 < k2 < self.ends@.len() ==> self.ends@[k1].end >= self.ends@[k2].end
        &&& forall|k: int| 0 <= k < self.ends@.len() ==> self.last@ <= #[trigger] self.ends@[k].end
        &&& forall|k: int|
            0 <= k < self.ends@.len() ==> #[trigger] self.ends@[k].end > self.last_start@
        &&& self.last_start@ <= self.last@
        &&& (self.peeked_start matches Some(p) ==> {
            &&& self.last@ <= p.start
            &&& p.start < p.end
            &&& 1 <= self.pos
            &&& p == self.spans@[self.pos - 1]
            &&& 0 <= self.peek_at@ < self.ends@.len()
            &&& self.ends@[self.peek_at@] == p
            &&& (self.pos < self.spans@.len() ==> p.start <= self.spans@[self.pos as int].start)
        })
        &&& forall|k: int|
            0 <= k < self.ends@.len() && !(self.peeked_start is Some && k == self.peek_at@)
                ==> (#[trigger] self.ends@[k]).start <= self.last@
        &&& forall|k: int|
            0 <= k < self.closed_spans@.len() ==> (#[trigger] self.closed_spans@[k]).end
                <= self.last@
        &&& (self.pos < self.spans@.len() ==> self.last@ <= self.spans@[self.pos as int].start)
        &&& self.ends@.len() <= self.pos
        &&& forall|q: i64|
            #[trigger] cover_count(self.spans@.take(self.pos as int), 0, q) == cover_count(
                self.closed_spans@,
                0,
                q,
            ) + cover_count(self.ends@, 0, q)
        &&& forall|x: SimpleSpan|
            #[trigger] occ_count(self.spans@.take(self.pos as int), 0, x) == occ_count(
                self.closed_spans@,
                0,
                x,
            ) + occ_count(self.ends@, 0, x)
    }

    /// Whether every event has been handed out.
    pub closed spec fn done(self) -> bool {
        self.pos == self.spans@.len() && self.peeked_start is None && self.ends@.len() == 0
    }

    /// Hands out the next event in ascending coordinate order, or `None` once
    /// every span has produced its start and its end. Start events come in
    /// input order, one per span; each end event closes a span started
    /// earlier; and within the stretch between the previous and the current
    /// coordinate, the number of open spans equals the number of input spans
    /// covering each point there.
    pub fn next(&mut self) -> (r: Option<Point>)
        requires
            old(self).wf(),
        ensures
            final(self).wf(),
            final(self).spans_view() == old(self).spans_view(),
            r is None ==> {
                &&& *final(self) == *old(self)
                &&& old(self).done()
                &&& old(self).open_count() == 0
                &&& old(self).starts_taken() == old(self).spans_view().len()
                &&& forall|x: SimpleSpan|
                    #[trigger] occ_count(old(self).closed_view(), 0, x) == occ_count(
                        old(self).spans_view(),
                        0,
                        x,
                    )
                &&& forall|j: int|
                    0 <= j < old(self).spans_view().len() ==> (#[trigger] old(
                        self,
                    ).spans_view()[j]).end <= old(self).last_value()
            },
            r matches Some(p) ==> {
                &&& final(self).measure() < old(self).measure()
                &&& final(self).measure() >= 0
                &&& old(self).last_value() <= p.value_spec()
                &&& final(self).last_value() == p.value_spec()
                &&& (p is StartOf ==> final(self).open_count() == old(self).open_count() + 1)
                &&& (p is EndOf ==> final(self).open_count() == old(self).open_count() - 1)
                &&& final(self).open_count() >= 0
                &&& final(self).open_count() <= final(self).spans_view().len()
                &&& old(self).open_count() <= old(self).spans_view().len()
                &&& forall|q: i64|
                    old(self).last_value() <= q < p.value_spec() ==> cover_count(
                        old(self).spans_view(),
                        0,
                        q,
                    ) == old(self).open_count()
                &&& (p matches Point::StartOf(sp) ==> {
                    &&& 0 <= old(self).starts_taken() < old(self).spans_view().len()
                    &&& sp == old(self).spans_view()[old(self).starts_taken()]
                    &&& final(self).starts_taken() == old(self).starts_taken() + 1
                    &&& final(self).closed_view() == old(self).closed_view()
                    &&& final(self).last_start_value() == sp.start
                    &&& p.value_spec() == sp.start
                })
                &&& (p matches Point::EndOf(sp) ==> {
                    &&& final(self).closed_view() == old(self).closed_view().push(sp)
                    &&& final(self).starts_taken() == old(self).starts_taken()
                    &&& final(self).last_start_value() == old(self).last_start_value()
                    &&& sp.end > old(self).last_start_value()
                    &&& p.value_spec() == sp.end
                    &&& occ_count(old(self).closed_view(), 0, sp) < occ_count(
                        old(self).spans_view().take(old(self).starts_taken()),
                        0,
                        sp,
                    )
                })
            },
    {
        if let Some(ps) = self.peeked_start {
            let nends = self.ends.len();
            if nends > 0 && self.ends[nends - 1].end <= ps.start {
                proof {
                    assert(self.ends@[self.peek_at@].end == ps.end > ps.start);
                    assert(self.ends@[nends - 1].end <= ps.start);
                    assert(self.peek_at@ != nends - 1);
                    assert(nends >= 2);
                }
                let e = self.ends.pop().unwrap();
                proof {
                    let pre = *old(self);
                    self.last@ = e.end;
                    self.closed_spans@ = pre.closed_spans@.push(e);
                    assert(self.ends@ == pre.ends@.drop_last());
                    lemma_count_pop_to_closed(
                        pre.spans@,
                        pre.pos as int,
                        pre.ends@,
                        pre.closed_spans@,
                        e,
                    );
                    lemma_end_was_started(pre, e);
                    lemma_decided_count(pre, e.end);
                }
                Some(Point::EndOf(e))
            } else {
                self.peeked_start = None;
                proof {
                    self.last@ = ps.start;
                    self.last_start@ = ps.start;
                    lemma_decided_count(*old(self), ps.start);
                    assert(old(self).spans_view().take(old(self).pos as int) == old(
                        self,
                    ).spans_view().take(old(self).starts_taken() + 1));
                }
                Some(Point::StartOf(ps))
            }
        } else if self.pos < self.spans.len() {
            let sp = self.spans[self.pos];
            self.pos = self.pos + 1;
            proof {
                assert(self.spans@.take(self.pos as int) == self.spans@.take(self.pos as int - 1).push(
                    sp,
                ));
                assert forall|q: i64|
                    #[trigger] cover_count(self.spans@.take(self.pos as int), 0, q) == cover_count(
                        self.spans@.take(self.pos as int - 1),
                        0,
                        q,
                    ) + (if sp.covers(q) {
                        1int
                    } else {
                        0int
                    }) by {
                    lemma_cover_count_push(self.spans@.take(self.pos as int - 1), sp, 0, q);
                }
                assert forall|x: SimpleSpan|
                    #[trigger] occ_count(self.spans@.take(self.pos as int), 0, x) == occ_count(
                        self.spans@.take(self.pos as int - 1),
                        0,
                        x,
                    ) + (if sp == x {
                        1int
                    } else {
                        0int
                    }) by {
                    lemma_occ_count_push(self.spans@.take(self.pos as int - 1), sp, 0, x);
                }
            }
            let nends = self.ends.len();
            if nends > 0 && self.ends[nends - 1].end <= sp.start {
                let e = self.ends.pop().unwrap();
                let ghost mid_ends = self.ends@;
                let i = self.push_end(sp);
                self.peeked_start = Some(sp);
                proof {
                    let pre = *old(self);
                    self.last@ = e.end;
                    self.last_start@ = pre.last_start@;
                    self.closed_spans@ = pre.closed_spans@.push(e);
                    self.peek_at@ = i as int;
                    assert(self.ends@ == mid_ends.insert(i as int, sp));
                    assert(self.ends@[i as int] == sp);
                    assert forall|q: i64|
                        #[trigger] cover_count(self.ends@, 0, q) == cover_count(pre.ends@, 0, q) + (
                        if sp.covers(q) {
                            1int
                        } else {
                            0int
                        }) - (if e.covers(q) {
                            1int
                        } else {
                            0int
                        }) by {
                        lemma_cover_count_insert(mid_ends, i as int, sp, 0, q);
                        lemma_cover_count_drop_last(pre.ends@, q);
                    }
                    assert forall|x: SimpleSpan|
                        #[trigger] occ_count(self.ends@, 0, x) == occ_count(pre.ends@, 0, x) + (
                        if sp == x {
                            1int
                        } else {
                            0int
                        }) - (if e == x {
                            1int
                        } else {
                            0int
                        }) by {
                        lemma_occ_count_insert(mid_ends, i as int, sp, 0, x);
                        lemma_occ_count_drop_last(pre.ends@, x);
                    }
                    assert forall|q: i64|
                        #[trigger] cover_count(self.closed_spans@, 0, q) == cover_count(
                            pre.closed_spans@,
                            0,
                            q,
                        ) + (if e.covers(q) {
                            1int
                        } else {
                            0int
                        }) by {
                        lemma_cover_count_push(pre.closed_spans@, e, 0, q);
                    }
                    assert forall|x: SimpleSpan|
                        #[trigger] occ_count(self.closed_spans@, 0, x) == occ_count(
                            pre.closed_spans@,
                            0,
                            x,
                        ) + (if e == x {
                            1int
                        } else {
                            0int
                        }) by {
                        lemma_occ_count_push(pre.closed_spans@, e, 0, x);
                    }
                    lemma_end_was_started(pre, e);
                    lemma_decided_count(pre, e.end);
                }
                Some(Point::EndOf(e))
            } else {
                let i = self.push_end(sp);
                let ghost pre_ends = old(self).ends@;
                proof {
                    self.last@ = sp.start;
                    self.last_start@ = sp.start;
                    assert(self.ends@ == pre_ends.insert(i as int, sp));
                    assert forall|q: i64|
                        #[trigger] cover_count(self.ends@, 0, q) == cover_count(pre_ends, 0, q) + (
                        if sp.covers(q) {
                            1int
                        } else {
                            0int
                        }) by {
                        lemma_cover_count_insert(pre_ends, i as int, sp, 0, q);
                    }
                    assert forall|x: SimpleSpan|
                        #[trigger] occ_count(self.ends@, 0, x) == occ_count(pre_ends, 0, x) + (
                        if sp == x {
                            1int
                        } else {
                            0int
                        }) by {
                        lemma_occ_count_insert(pre_ends, i as int, sp, 0, x);
                    }
                    lemma_decided_count(*old(self), sp.start);
                    assert(old(self).spans_view().take(old(self).pos as int) == old(
                        self,
                    ).spans_view().take(old(self).starts_taken()));
                }
                Some(Point::StartOf(sp))
            }
        } else if self.ends.len() > 0 {
            let e = self.ends.pop().unwrap();
            proof {
                let pre = *old(self);
                self.last@ = e.end;
                self.closed_spans@ = pre.closed_spans@.push(e);
                assert(self.ends@ == pre.ends@.drop_last());
                lemma_count_pop_to_closed(
                    pre.spans@,
                    pre.pos as int,
                    pre.ends@,
                    pre.closed_spans@,
                    e,
                );
                lemma_end_was_started(pre, e);
                lemma_decided_count(pre, e.end);
            }
            Some(Point::EndOf(e))
        } else {
            proof {
                assert forall|x: SimpleSpan|
                    #[trigger] occ_count(self.closed_spans@, 0, x) == occ_count(
                        self.spans@,
                        0,
                        x,
                    ) by {
                    assert(self.spans@.take(self.pos as int) == self.spans@);
                    assert(occ_count(self.ends@, 0, x) == 0);
                }
                assert forall|j: int|
                    0 <= j < self.spans@.len() implies (#[trigger] self.spans@[j]).end
                    <= self.last@ by {
                    lemma_occ_count_positive(self.spans@, 0, self.spans@[j]);
                    assert(occ_count(self.spans@, 0, self.spans@[j]) > 0);
                    lemma_occ_count_positive(self.closed_spans@, 0, self.spans@[j]);
                    let k = choose|k: int|
                        0 <= k < self.closed_spans@.len() && self.closed_spans@[k]
                            == self.spans@[j];
                    assert(self.closed_spans@[k].end <= self.last@);
                }
            }
            None
        }
    }

    /// Inserts a span among the open ends, keeping them ordered by descending
    /// end value, and tells where it was put.
    fn push_end(&mut self, sp: SimpleSpan) -> (i: usize)
        requires
            forall|k1: int, k2: int|
                0 <= k1 < k2 < old(self).ends@.len() ==> old(self).ends@[k1].end >= old(
                    self,
                ).ends@[k2].end,
        ensures
            0 <= i <= old(self).ends@.len(),
            final(self).ends@ == old(self).ends@.insert(i as int, sp),
            forall|k1: int, k2: int|
                0 <= k1 < k2 < final(self).ends@.len() ==> final(self).ends@[k1].end
                    >= final(self).ends@[k2].end,
            final(self).spans == old(self).spans,
            final(self).pos == old(self).pos,
            final(self).peeked_start == old(self).peeked_start,
            final(self).last == old(self).last,
            final(self).last_start == old(self).last_start,
            final(self).closed_spans == old(self).closed_spans,
            final(self).peek_at == old(self).peek_at,
    {
        let mut i: usize = 0;
        while i < self.ends.len() && self.ends[i].end > sp.end
            invariant
                0 <= i <= self.ends@.len(),
                forall|k: int| 0 <= k < i ==> #[trigger] self.ends@[k].end > sp.end,
                *self == *old(self),
            decreases self.ends@.len() - i,
        {
            i += 1;
        }
        let ghost ends0 = self.ends@;
        self.ends.insert(i, sp);
        proof {
            assert(self.ends@ == ends0.insert(i as int, sp));
            assert forall|k1: int, k2: int| 0 <= k1 < k2 < self.ends@.len() implies self.ends@[k1].end
                >= self.ends@[k2].end by {
                if k1 < i {
                    assert(self.ends@[k1] == ends0[k1]);
                } else if k1 > i {
                    assert(self.ends@[k1] == ends0[k1 - 1]);
                }
                if k2 < i {
                    assert(self.ends@[k2] == ends0[k2]);
                } else if k2 > i {
                    assert(self.ends@[k2] == ends0[k2 - 1]);
                }
            }
        }
        i
    }
}

/// When the least open end is popped and moved to the closed spans, the
/// per-point and per-value count equations carry over.
proof fn lemma_count_pop_to_closed(
    spans: Seq<SimpleSpan>,
    pos: int,
    ends: Seq<SimpleSpan>,
    closed: Seq<SimpleSpan>,
    e: SimpleSpan,
)
    requires
        0 <= pos <= spans.len(),
        ends.len() > 0,
        ends.last() == e,
        forall|q: i64|
            #[trigger] cover_count(spans.take(pos), 0, q) == cover_count(closed, 0, q)
                + cover_count(ends, 0, q),
        forall|x: SimpleSpan|
            #[trigger] occ_count(spans.take(pos), 0, x) == occ_count(closed, 0, x) + occ_count(
                ends,
                0,
                x,
            ),
    ensures
        forall|q: i64|
            #[trigger] cover_count(spans.take(pos), 0, q) == cover_count(closed.push(e), 0, q)
                + cover_count(ends.drop_last(), 0, q),
        forall|x: SimpleSpan|
            #[trigger] occ_count(spans.take(pos), 0, x) == occ_count(closed.push(e), 0, x)
                + occ_count(ends.drop_last(), 0, x),
{
    assert forall|q: i64|
        #[trigger] cover_count(spans.take(pos), 0, q) == cover_count(closed.push(e), 0, q)
            + cover_count(ends.drop_last(), 0, q) by {
        lemma_cover_count_drop_last(ends, q);
        lemma_cover_count_push(closed, e, 0, q);
    }
    assert forall|x: SimpleSpan|
        #[trigger] occ_count(spans.take(pos), 0, x) == occ_count(closed.push(e), 0, x) + occ_count(
            ends.drop_last(),
            0,
            x,
        ) by {
        lemma_occ_count_drop_last(ends, x);
        lemma_occ_count_push(closed, e, 0, x);
    }
}

/// An emitted end closes a span that was started and not yet ended: the
/// closed spans hold fewer copies of it than the started prefix.
proof fn lemma_end_was_started(pre: PointIterator, e: SimpleSpan)
    requires
        pre.wf(),
        pre.ends_view().len() > 0,
        pre.ends_view().last() == e,
        pre.peeked_start_view() matches Some(ps) ==> e.end <= ps.start,
    ensures
        occ_count(pre.closed_view(), 0, e) < occ_count(
            pre.spans_view().take(pre.starts_taken()),
            0,
            e,
        ),
{
    lemma_occ_count_positive(pre.ends_view(), 0, e);
    assert(pre.ends_view()[pre.ends_view().len() - 1] == e);
    assert(occ_count(pre.ends_view(), 0, e) > 0);
    lemma_occ_count_positive(pre.closed_view(), 0, e);
    match pre.peeked_start_view() {
        Some(ps) => {
            assert(pre.spans_view().take(pre.pos_view()) == pre.spans_view().take(
                pre.starts_taken(),
            ).push(ps));
            lemma_occ_count_push(pre.spans_view().take(pre.starts_taken()), ps, 0, e);
            assert(e.end <= ps.start < ps.end);
            assert(e != ps);
        },
        None => {
            assert(pre.spans_view().take(pre.pos_view()) == pre.spans_view().take(
                pre.starts_taken(),
            ));
        },
    }
    lemma_occ_count_positive(pre.spans_view().take(pre.starts_taken()), 0, e);
}

/// Between the coordinate handed out last and the coordinate of the event
/// about to be handed out, the number of input spans covering a point equals
/// the number of open spans.
proof fn lemma_decided_count(pre: PointIterator, v: i64)
    requires
        pre.wf(),
        pre.pos_view() < pre.spans_view().len() ==> v <= pre.spans_view()[pre.pos_view()].start,
        pre.peeked_start_view() matches Some(ps) ==> v <= ps.start,
        forall|k: int|
            0 <= k < pre.ends_view().len() && !(pre.peeked_start_view() is Some && k
                == pre.peek_at_view()) ==> v <= (#[trigger] pre.ends_view()[k]).end,
    ensures
        forall|q: i64|
            pre.last_value() <= q < v ==> cover_count(pre.spans_view(), 0, q) == pre.open_count(),
{
    assert forall|q: i64|
        pre.last_value() <= q < v implies cover_count(pre.spans_view(), 0, q)
        == pre.open_count() by {
        lemma_cover_count_split(pre.spans_view(), pre.pos_view(), 0, q);
        assert forall|j: int|
            pre.pos_view() <= j < pre.spans_view().len() implies !(
        #[trigger] pre.spans_view()[j]).covers(q) by {
            assert(pre.spans_view()[pre.pos_view()].start <= pre.spans_view()[j].start);
        }
        lemma_cover_count_none(pre.spans_view(), pre.pos_view(), q);
        assert(cover_count(pre.spans_view().take(pre.pos_view()), 0, q) == cover_count(
            pre.closed_view(),
            0,
            q,
        ) + cover_count(pre.ends_view(), 0, q));
        assert forall|k: int|
            0 <= k < pre.closed_view().len() implies !(#[trigger] pre.closed_view()[k]).covers(
            q,
        ) by {
            assert(pre.closed_view()[k].end <= pre.last_value());
        }
        lemma_cover_count_none(pre.closed_view(), 0, q);
        if pre.peeked_start_view() is Some {
            let kp = pre.peek_at_view();
            assert forall|k: int|
                0 <= k < pre.ends_view().len() && k != kp implies (
            #[trigger] pre.ends_view()[k]).covers(q) by {
                assert(pre.ends_view()[k].start <= pre.last_value());
                assert(v <= pre.ends_view()[k].end);
            }
            assert(!pre.ends_view()[kp].covers(q)) by {
                let ps = pre.peeked_start_view()->Some_0;
                assert(pre.ends_view()[kp] == ps);
                assert(q < v <= ps.start);
            }
            lemma_cover_count_all_except(pre.ends_view(), kp, 0, q);
        } else {
            assert forall|k: int|
                0 <= k < pre.ends_view().len() implies (#[trigger] pre.ends_view()[k]).covers(
                q,
            ) by {
                assert(pre.ends_view()[k].start <= pre.last_value());
                assert(v <= pre.ends_view()[k].end);
            }
            lemma_cover_count_all_except(pre.ends_view(), pre.ends_view().len() as int, 0, q);
        }
    }
}

impl PointIterator {
    /// The open ends, for the sweep's own proofs.
    pub(crate) closed spec fn ends_view(self) -> Seq<SimpleSpan> {
        self.ends@
    }

    /// The withheld start, for the sweep's own proofs.
    pub(crate) closed spec fn peeked_start_view(self) -> Option<SimpleSpan> {
        self.peeked_start
    }

    /// The withheld span's place among the open ends.
    pub(crate) closed spec fn peek_at_view(self) -> int {
        self.peek_at@
    }

    /// How many spans have been read from the input.
    pub(crate) closed spec fn pos_view(self) -> int {
        self.pos as int
    }
}

/// Starts the sweep over a start-sorted sequence of spans that each cover at
/// least one point.
pub fn enumerate_points(spans: &Vec<SimpleSpan>) -> (r: PointIterator)
    requires
        sorted_by_start(spans@),
        all_wf(spans@),
        all_strict(spans@),
    ensures
        r.wf(),
        r.spans_view() == spans@,
        r.open_count() == 0,
        r.measure() == 2 * spans@.len(),
        r.last_value() == i64::MIN,
        r.starts_taken() == 0,
        r.closed_view() == Seq::<SimpleSpan>::empty(),
{
    let mut copy: Vec<SimpleSpan> = Vec::new();
    let mut i: usize = 0;
    while i < spans.len()
        invariant
            0 <= i <= spans@.len(),
            copy@ == spans@.take(i as int),
        decreases spans@.len() - i,
    {
        let ghost c0 = copy@;
        copy.push(spans[i]);
        proof {
            assert(c0.push(spans@[i as int]) =~= spans@.take(i as int + 1));
        }
        i += 1;
    }
    proof {
        assert(spans@.take(i as int) =~= spans@);
    }
    let r = PointIterator {
        spans: copy,
        pos: 0,
        peeked_start: None,
        ends: Vec::new(),
        last: Ghost(i64::MIN),
        last_start: Ghost(i64::MIN),
        closed_spans: Ghost(Seq::empty()),
        peek_at: Ghost(0),
    };
    proof {
        assert(r.spans_view().take(0) =~= Seq::<SimpleSpan>::empty());
    }
    r
}

} // verus!
