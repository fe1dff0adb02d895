use vstd::prelude::*;
use crate::span::SimpleSpan;
use crate::points::{Point, enumerate_points};
use crate::vecspet::{
    VecSpet, covers_seq, sorted_by_start, all_wf, all_strict, lex_sorted, lex_le, merge_from,
    merge_spans, cover_count, lemma_canonical_sorted, lemma_merge_from_sorted,
    lemma_merge_from_cover_count, lemma_canonical_cover_count, lemma_cover_count_bounds,
    lemma_cover_count_none, lemma_canonical_uncovered_empty,
};

verus! {

pub open spec fn total_from(s: Seq<VecSpet>, k: int) -> int
    decreases s.len() - k,
        when 0 <= k <= s.len()
{
    if k < s.len() {
        s[k]@.len() + total_from(s, k + 1)
    } else {
        0
    }
}

/// How many spans the given span sets hold altogether.
pub open spec fn total_len(s: Seq<VecSpet>) -> int {
    total_from(s, 0)
}

/// How many of the span sets `s[k..]` cover the point `q`.
pub open spec fn sets_covering(s: Seq<VecSpet>, k: int, q: i64) -> int
    decreases s.len() - k,
{
    if 0 <= k < s.len() {
        (if covers_seq(s[k]@, q) {
            1int
        } else {
            0int
        }) + sets_covering(s, k + 1, q)
    } else {
        0
    }
}

/// At least one of the span sets `s[k..]` covers `q` exactly when the
/// covering count is positive: with a threshold of one, the overlap operation
/// computes the union of all its inputs.
pub proof fn lemma_sets_covering_positive(s: Seq<VecSpet>, k: int, q: i64)
    requires
        0 <= k <= s.len(),
    ensures
        sets_covering(s, k, q) >= 1 <==> exists|j: int|
            k <= j < s.len() && covers_seq((#[trigger] s[j])@, q),
    decreases s.len() - k,
{
    lemma_sets_covering_bounds(s, k, q);
    if k < s.len() {
        lemma_sets_covering_positive(s, k + 1, q);
        lemma_sets_covering_bounds(s, k + 1, q);
        if covers_seq(s[k]@, q) {
            assert(exists|j: int| k <= j < s.len() && covers_seq((#[trigger] s[j])@, q));
        }
        if exists|j: int| k <= j < s.len() && covers_seq((#[trigger] s[j])@, q) {
            let j = choose|j: int| k <= j < s.len() && covers_seq((#[trigger] s[j])@, q);
            if j > k {
                assert(exists|j2: int| k + 1 <= j2 < s.len() && covers_seq((#[trigger] s[j2])@, q));
            }
        }
        if exists|j: int| k + 1 <= j < s.len() && covers_seq((#[trigger] s[j])@, q) {
            let j = choose|j: int| k + 1 <= j < s.len() && covers_seq((#[trigger] s[j])@, q);
            assert(k <= j < s.len() && covers_seq(s[j]@, q));
        }
    }
}

pub(crate) proof fn lemma_sets_covering_bounds(s: Seq<VecSpet>, k: int, q: i64)
    requires
        0 <= k <= s.len(),
    ensures
        0 <= sets_covering(s, k, q) <= s.len() - k,
    decreases s.len() - k,
{
    if k < s.len() {
        lemma_sets_covering_bounds(s, k + 1, q);
    }
}

/// Merges the span sequences of all given span sets into one ascending
/// sequence: a point is covered by as many merged spans as there are sets
/// covering it, since the spans within one set are disjoint.
fn merge_all(spets: &Vec<VecSpet>) -> (r: Vec<SimpleSpan>)
    requires
        forall|k: int| 0 <= k < spets@.len() ==> (#[trigger] spets@[k]).wf(),
    ensures
        sorted_by_start(r@),
        all_wf(r@),
        all_strict(r@),
        r@.len() == total_len(spets@),
        forall|q: i64| #[trigger] cover_count(r@, 0, q) == sets_covering(spets@, 0, q),
{
    let mut out: Vec<SimpleSpan> = Vec::new();
    let mut k: usize = 0;
    while k < spets.len()
        invariant
            0 <= k <= spets@.len(),
            forall|k2: int| 0 <= k2 < spets@.len() ==> (#[trigger] spets@[k2]).wf(),
            lex_sorted(out@),
            all_wf(out@),
            all_strict(out@),
            out@.len() + total_from(spets@, k as int) == total_len(spets@),
            forall|q: i64|
                #[trigger] cover_count(out@, 0, q) + sets_covering(spets@, k as int, q)
                    == sets_covering(spets@, 0, q),
        decreases spets@.len() - k,
    {
        let ghost out0 = out@;
        let ghost src = spets@[k as int]@;
        proof {
            lemma_canonical_sorted(src);
            lemma_merge_from_sorted(out0, src, 0, 0);
        }
        let merged = merge_spans(&out, spets[k].spans());
        proof {
            assert(merged@ == merge_from(out0, src, 0, 0));
            assert forall|m: int| 0 <= m < merged@.len() implies merged@[m].wf() && merged@[m].start
                < merged@[m].end by {
                assert((exists|m2: int|
                    0 <= m2 < out0.len() && #[trigger] merge_from(out0, src, 0, 0)[m] == out0[m2])
                    || (exists|m2: int|
                    0 <= m2 < src.len() && merge_from(out0, src, 0, 0)[m] == src[m2]));
            }
            assert forall|q: i64|
                #[trigger] cover_count(merged@, 0, q) + sets_covering(spets@, k as int + 1, q)
                    == sets_covering(spets@, 0, q) by {
                lemma_merge_from_cover_count(out0, src, 0, 0, q);
                lemma_canonical_cover_count(src, 0, q);
                if covers_seq(src, q) {
                    let j = choose|j: int| 0 <= j < src.len() && src[j].covers(q);
                    assert(exists|j2: int| 0 <= j2 < src.len() && (#[trigger] src[j2]).covers(q));
                }
                if exists|j: int| 0 <= j < src.len() && (#[trigger] src[j]).covers(q) {
                    let j = choose|j: int| 0 <= j < src.len() && (#[trigger] src[j]).covers(q);
                    assert(covers_seq(src, q));
                }
            }
        }
        out = merged;
        k += 1;
    }
    proof {
        assert forall|k1: int, k2: int| 0 <= k1 < k2 < out@.len() implies out@[k1].start
            <= out@[k2].start by {
            assert(lex_le(out@[k1], out@[k2]));
        }
    }
    out
}

/// The span set covered by at least `n` of the given span sets at once: merge
/// every source, sweep the events in order, and record the stretches where
/// the number of open spans stays at or above `n`. A point lies in the result
/// exactly when at least `n` of the sets cover it; a threshold past the
/// number of sets gives the empty set. Intersection is the `n == 2` case over
/// two sets.
pub fn n_overlapping(n: usize, spets: &Vec<VecSpet>) -> (r: VecSpet)
    requires
        n >= 1,
        forall|k: int| 0 <= k < spets@.len() ==> (#[trigger] spets@[k]).wf(),
    ensures
        r.wf(),
        forall|q: i64| r.covers(q) <==> sets_covering(spets@, 0, q) >= n,
        spets@.len() < n ==> r@.len() == 0,
        total_len(spets@) < n ==> r@.len() == 0,
{
    let merged = merge_all(spets);
    let total: usize = merged.len();
    let mut it = enumerate_points(&merged);
    let mut result_spans: Vec<SimpleSpan> = Vec::new();
    let mut count: usize = 0;
    let mut pending_start: Option<i64> = None;
    loop
        invariant
            it.wf(),
            it.spans_view() == merged@,
            merged@.len() == total as int,
            n >= 1,
            count == it.open_count(),
            count <= total,
            (pending_start is Some) <==> count >= n,
            pending_start matches Some(v) ==> v <= it.last_value(),
            all_wf(result_spans@),
            sorted_by_start(result_spans@),
            forall|j: int|
                0 <= j < result_spans@.len() ==> (#[trigger] result_spans@[j]).end
                    <= it.last_value(),
            pending_start matches Some(v) ==> (result_spans@.len() > 0
                ==> result_spans@[result_spans@.len() - 1].end <= v),
            forall|q: i64|
                q < it.last_value() ==> ((covers_seq(result_spans@, q) || (
                pending_start matches Some(a)
                    && a <= q)) <==> #[trigger] cover_count(merged@, 0, q) >= n),
        ensures
            count == 0,
            pending_start is None,
            forall|j: int|
                0 <= j < merged@.len() ==> (#[trigger] merged@[j]).end <= it.last_value(),
            forall|j: int|
                0 <= j < result_spans@.len() ==> (#[trigger] result_spans@[j]).end
                    <= it.last_value(),
            all_wf(result_spans@),
            sorted_by_start(result_spans@),
            forall|q: i64|
                q < it.last_value() ==> (covers_seq(result_spans@, q) <==> #[trigger] cover_count(
                    merged@,
                    0,
                    q,
                ) >= n),
        decreases it.measure(),
    {
        let ghost it0 = it;
        let ghost result0 = result_spans@;
        let ghost pending0 = pending_start;
        let ghost count0 = count as int;
        let p = match it.next() {
            Some(p) => p,
            None => { break ; },
        };
        match p {
            Point::StartOf(sp) => {
                count = count + 1;
                if count == n {
                    pending_start = Some(sp.start());
                }
                proof {
                    assert(it.last_value() == sp.start);
                    assert forall|q: i64|
                        q < it.last_value() implies ((covers_seq(result_spans@, q) || (
                    pending_start matches Some(a)
                        && a <= q)) <==> #[trigger] cover_count(merged@, 0, q) >= n) by {
                        if q < it0.last_value() {
                            assert((covers_seq(result0, q) || (pending0 matches Some(a) && a <= q))
                                <==> cover_count(merged@, 0, q) >= n);
                            if pending0 is Some {
                                assert(pending_start == pending0);
                            } else {
                                assert(count0 < n);
                                if pending_start is Some {
                                    let a = pending_start->Some_0;
                                    assert(a == sp.start);
                                    assert(q < it0.last_value() <= sp.start);
                                }
                            }
                        } else {
                            assert(cover_count(merged@, 0, q) == count0);
                            assert forall|j: int|
                                0 <= j < result_spans@.len() implies !(
                            #[trigger] result_spans@[j]).covers(q) by {
                                assert(result_spans@[j].end <= it0.last_value() <= q);
                            }
                            if count0 >= n {
                                let a = pending0->Some_0;
                                assert(pending_start == pending0);
                                assert(a <= it0.last_value() <= q);
                            } else {
                                if pending_start is Some {
                                    let a = pending_start->Some_0;
                                    assert(a == sp.start);
                                    assert(q < sp.start);
                                }
                            }
                        }
                    }
                }
            },
            Point::EndOf(sp) => {
                let ghost emitted = count == n;
                if count == n {
                    let ghost rs0 = result_spans@;
                    let a = pending_start.unwrap();
                    result_spans.push(SimpleSpan::new(a, sp.end()));
                    proof {
                        assert(a <= it0.last_value() <= sp.end);
                        assert forall|i: int, j: int|
                            0 <= i < j < result_spans@.len() implies result_spans@[i].start
                            <= result_spans@[j].start by {
                            if j < rs0.len() {
                                assert(result_spans@[i] == rs0[i] && result_spans@[j] == rs0[j]);
                            } else if i < rs0.len() {
                                assert(result_spans@[i] == rs0[i]);
                                assert(rs0[i].start <= rs0[rs0.len() - 1].end);
                            }
                        }
                    }
                    pending_start = None;
                }
                count = count - 1;
                proof {
                    assert(it.last_value() == sp.end);
                    assert forall|q: i64|
                        q < it.last_value() implies ((covers_seq(result_spans@, q) || (
                    pending_start matches Some(a)
                        && a <= q)) <==> #[trigger] cover_count(merged@, 0, q) >= n) by {
                        if q < it0.last_value() {
                            assert((covers_seq(result0, q) || (pending0 matches Some(a2) && a2
                                <= q)) <==> cover_count(merged@, 0, q) >= n);
                            if emitted {
                                let a = pending0->Some_0;
                                let nsp = result_spans@[result0.len() as int];
                                assert(result_spans@ == result0.push(nsp));
                                assert(nsp.start == a && nsp.end == sp.end);
                                if covers_seq(result0, q) {
                                    let j = choose|j: int|
                                        0 <= j < result0.len() && result0[j].covers(q);
                                    assert(result_spans@[j].covers(q));
                                }
                                if a <= q {
                                    assert(q < it0.last_value() <= sp.end);
                                    assert(nsp.covers(q));
                                    assert(covers_seq(result_spans@, q));
                                }
                                if covers_seq(result_spans@, q) {
                                    let j = choose|j: int|
                                        0 <= j < result_spans@.len() && result_spans@[j].covers(q);
                                    if j < result0.len() {
                                        assert(result0[j].covers(q));
                                        assert(covers_seq(result0, q));
                                    } else {
                                        assert(a <= q);
                                    }
                                }
                            } else {
                                assert(result_spans@ == result0);
                                assert(pending_start == pending0);
                            }
                        } else {
                            assert(cover_count(merged@, 0, q) == count0);
                            if emitted {
                                let a = pending0->Some_0;
                                let nsp = result_spans@[result0.len() as int];
                                assert(nsp.start == a && nsp.end == sp.end);
                                assert(a <= it0.last_value() <= q < sp.end);
                                assert(nsp.covers(q));
                                assert(covers_seq(result_spans@, q));
                                assert(count0 == n);
                            } else if count0 > n {
                                let a = pending0->Some_0;
                                assert(pending_start == pending0);
                                assert(a <= it0.last_value() <= q);
                            } else {
                                assert(count0 < n);
                                assert(pending_start is None);
                                assert(result_spans@ == result0);
                                assert forall|j: int|
                                    0 <= j < result_spans@.len() implies !(
                                #[trigger] result_spans@[j]).covers(q) by {
                                    assert(result_spans@[j].end <= it0.last_value() <= q);
                                }
                            }
                        }
                    }
                }
            },
        }
    }
    proof {
        assert forall|q: i64|
            covers_seq(result_spans@, q) <==> #[trigger] cover_count(merged@, 0, q) >= n by {
            if q < it.last_value() {
            } else {
                if covers_seq(result_spans@, q) {
                    let j = choose|j: int|
                        0 <= j < result_spans@.len() && result_spans@[j].covers(q);
                    assert(result_spans@[j].end <= it.last_value());
                }
                assert forall|j: int|
                    0 <= j < merged@.len() implies !(#[trigger] merged@[j]).covers(q) by {
                    assert(merged@[j].end <= it.last_value());
                }
                lemma_cover_count_none(merged@, 0, q);
            }
        }
    }
    let r = VecSpet::from_sorted_iter(&result_spans);
    proof {
        assert forall|q: i64| r.covers(q) <==> sets_covering(spets@, 0, q) >= n by {
            assert(cover_count(merged@, 0, q) == sets_covering(spets@, 0, q));
        }
        if spets@.len() < n || total_len(spets@) < n {
            assert forall|q: i64| !covers_seq(r@, q) by {
                lemma_sets_covering_bounds(spets@, 0, q);
                lemma_cover_count_bounds(merged@, 0, q);
                assert(cover_count(merged@, 0, q) == sets_covering(spets@, 0, q));
                assert(cover_count(merged@, 0, q) < n);
                assert(!covers_seq(result_spans@, q));
                assert(!r.covers(q));
            }
            lemma_canonical_uncovered_empty(r@);
        }
    }
    r
}

} // verus!
