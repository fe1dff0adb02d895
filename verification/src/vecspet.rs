use vstd::prelude::*;
use crate::span::SimpleSpan;
use vstd::multiset::Multiset;

verus! {

broadcast use vstd::seq::group_seq_axioms;

/// The spans are ordered by ascending start value.
pub open spec fn sorted_by_start(s: Seq<SimpleSpan>) -> bool {
    forall|i: int, j: int| 0 <= i < j < s.len() ==> s[i].start <= s[j].start
}

/// Every span is well formed (start does not exceed end).
pub open spec fn all_wf(s: Seq<SimpleSpan>) -> bool {
    forall|i: int| 0 <= i < s.len() ==> s[i].wf()
}

/// Every span covers at least one point (start strictly below end).
pub open spec fn all_strict(s: Seq<SimpleSpan>) -> bool {
    forall|i: int| 0 <= i < s.len() ==> s[i].start < s[i].end
}

/// Canonical form of a span set: every span covers at least one point, and
/// consecutive spans are ascending and pairwise disjoint (under half-open
/// semantics, `end <= next start` means no point lies in both).
pub open spec fn is_canonical(s: Seq<SimpleSpan>) -> bool {
    &&& forall|i: int| 0 <= i < s.len() ==> s[i].start < s[i].end
    &&& forall|i: int| 0 <= i && i + 1 < s.len() ==> s[i].end <= s[i + 1].start
}

/// The point `q` lies in at least one span of the sequence.
pub open spec fn covers_seq(s: Seq<SimpleSpan>, q: i64) -> bool {
    exists|i: int| 0 <= i < s.len() && s[i].covers(q)
}

/// Sweeps the start-sorted spans `s[i..]` left to right, growing the candidate
/// span `[cs, ce)` and emitting it once the next span starts at or past `ce`.
/// A candidate that covers no point is dropped: zero-length spans contribute
/// no points.
pub open spec fn canon_from(s: Seq<SimpleSpan>, i: int, cs: i64, ce: i64) -> Seq<SimpleSpan>
    decreases s.len() - i,
{
    if i < 0 || i >= s.len() {
        if cs < ce {
            seq![SimpleSpan { start: cs, end: ce }]
        } else {
            Seq::empty()
        }
    } else if s[i].start >= ce {
        let rest = canon_from(s, i + 1, s[i].start, s[i].end);
        if cs < ce {
            seq![SimpleSpan { start: cs, end: ce }] + rest
        } else {
            rest
        }
    } else if s[i].end > ce {
        canon_from(s, i + 1, cs, s[i].end)
    } else {
        canon_from(s, i + 1, cs, ce)
    }
}

/// The canonical span set covering the same points as the start-sorted
/// sequence `s`: minimal, ascending, disjoint.
pub open spec fn canon(s: Seq<SimpleSpan>) -> Seq<SimpleSpan> {
    if s.len() == 0 {
        Seq::empty()
    } else {
        canon_from(s, 1, s[0].start, s[0].end)
    }
}

proof fn lemma_canon_from_canonical(s: Seq<SimpleSpan>, i: int, cs: i64, ce: i64)
    requires
        0 <= i <= s.len(),
        sorted_by_start(s),
        all_wf(s),
        cs <= ce,
        forall|j: int| i <= j < s.len() ==> cs <= s[j].start,
    ensures
        is_canonical(canon_from(s, i, cs, ce)),
        canon_from(s, i, cs, ce).len() > 0 ==> cs <= canon_from(s, i, cs, ce)[0].start,
    decreases s.len() - i,
{
    if i >= s.len() {
    } else if s[i].start >= ce {
        lemma_canon_from_canonical(s, i + 1, s[i].start, s[i].end);
        let rest = canon_from(s, i + 1, s[i].start, s[i].end);
        if cs < ce {
            let c = SimpleSpan { start: cs, end: ce };
            let r = canon_from(s, i, cs, ce);
            assert(r == seq![c] + rest);
            assert((seq![c] + rest).len() == 1 + rest.len());
            assert((seq![c] + rest)[0] == c);
            assert forall|k: int| 0 <= k < r.len() implies r[k].start < r[k].end by {
                if k > 0 {
                    assert((seq![c] + rest)[k] == rest[k - 1]);
                }
            }
            assert forall|k: int| 0 <= k && k + 1 < r.len() implies r[k].end <= r[k + 1].start by {
                assert((seq![c] + rest)[k + 1] == rest[k]);
                if k > 0 {
                    assert((seq![c] + rest)[k] == rest[k - 1]);
                    assert(rest[k - 1].end <= rest[k].start);
                } else {
                    assert(ce <= s[i].start <= rest[0].start);
                }
            }
        }
    } else if s[i].end > ce {
        lemma_canon_from_canonical(s, i + 1, cs, s[i].end);
    } else {
        lemma_canon_from_canonical(s, i + 1, cs, ce);
    }
}

proof fn lemma_canon_from_covers(s: Seq<SimpleSpan>, i: int, cs: i64, ce: i64, q: i64)
    requires
        0 <= i <= s.len(),
        sorted_by_start(s),
        all_wf(s),
        cs <= ce,
        forall|j: int| i <= j < s.len() ==> cs <= s[j].start,
    ensures
        covers_seq(canon_from(s, i, cs, ce), q) <==> (cs <= q < ce || exists|j: int|
            i <= j < s.len() && s[j].covers(q)),
    decreases s.len() - i,
{
    let r = canon_from(s, i, cs, ce);
    if i >= s.len() {
        if cs <= q < ce {
            assert(r[0].covers(q));
        }
        if covers_seq(r, q) {
            let k = choose|k: int| 0 <= k < r.len() && r[k].covers(q);
            assert(cs <= q < ce);
        }
    } else if s[i].start >= ce {
        lemma_canon_from_covers(s, i + 1, s[i].start, s[i].end, q);
        let rest = canon_from(s, i + 1, s[i].start, s[i].end);
        let tail_hit = exists|j: int| i + 1 <= j < s.len() && s[j].covers(q);
        if cs < ce {
            let c = SimpleSpan { start: cs, end: ce };
            assert(r == seq![c] + rest);
            assert((seq![c] + rest).len() == 1 + rest.len());
            if covers_seq(r, q) {
                let k = choose|k: int| 0 <= k < r.len() && r[k].covers(q);
                if k == 0 {
                    assert((seq![c] + rest)[0] == c);
                    assert(cs <= q < ce);
                } else {
                    assert((seq![c] + rest)[k] == rest[k - 1]);
                    assert(covers_seq(rest, q));
                }
            }
            if cs <= q < ce {
                assert((seq![c] + rest)[0] == c);
                assert(r[0].covers(q));
                assert(covers_seq(r, q));
            }
            if covers_seq(rest, q) {
                let k = choose|k: int| 0 <= k < rest.len() && rest[k].covers(q);
                assert((seq![c] + rest)[k + 1] == rest[k]);
                assert(r[k + 1].covers(q));
                assert(covers_seq(r, q));
            }
        } else {
            assert(r == rest);
        }
        if exists|j: int| i <= j < s.len() && s[j].covers(q) {
            let j = choose|j: int| i <= j < s.len() && s[j].covers(q);
            if j == i {
                assert(s[i].start <= q < s[i].end);
                assert(covers_seq(rest, q));
            } else {
                assert(tail_hit);
                assert(covers_seq(rest, q));
            }
        }
        if covers_seq(rest, q) && !(s[i].start <= q < s[i].end) {
            assert(tail_hit);
            let j = choose|j: int| i + 1 <= j < s.len() && s[j].covers(q);
            assert(i <= j < s.len() && s[j].covers(q));
        }
    } else if s[i].end > ce {
        lemma_canon_from_covers(s, i + 1, cs, s[i].end, q);
        // The widened candidate [cs, s[i].end) covers exactly the points of
        // [cs, ce) together with those of s[i], because cs <= s[i].start < ce.
        if cs <= q < s[i].end && !(cs <= q < ce) {
            assert(s[i].covers(q));
        }
        if exists|j: int| i <= j < s.len() && s[j].covers(q) {
            let j = choose|j: int| i <= j < s.len() && s[j].covers(q);
            if j == i {
                assert(cs <= q < s[i].end);
            } else {
                assert(exists|j2: int| i + 1 <= j2 < s.len() && s[j2].covers(q));
            }
        }
        if exists|j: int| i + 1 <= j < s.len() && s[j].covers(q) {
            let j = choose|j: int| i + 1 <= j < s.len() && s[j].covers(q);
            assert(i <= j < s.len() && s[j].covers(q));
        }
    } else {
        lemma_canon_from_covers(s, i + 1, cs, ce, q);
        if s[i].covers(q) {
            assert(cs <= q < ce);
        }
        if exists|j: int| i <= j < s.len() && s[j].covers(q) {
            let j = choose|j: int| i <= j < s.len() && s[j].covers(q);
            if j > i {
                assert(exists|j2: int| i + 1 <= j2 < s.len() && s[j2].covers(q));
            }
        }
        if exists|j: int| i + 1 <= j < s.len() && s[j].covers(q) {
            let j = choose|j: int| i + 1 <= j < s.len() && s[j].covers(q);
            assert(i <= j < s.len() && s[j].covers(q));
        }
    }
}

/// The canonical form of a start-sorted, well-formed span sequence is indeed
/// canonical: ascending, disjoint, with no zero-length spans.
pub proof fn lemma_canon_canonical(s: Seq<SimpleSpan>)
    requires
        sorted_by_start(s),
        all_wf(s),
    ensures
        is_canonical(canon(s)),
{
    if s.len() > 0 {
        lemma_canon_from_canonical(s, 1, s[0].start, s[0].end);
    }
}

/// Canonicalization keeps the covered point set: a point lies in the canonical
/// form exactly when some input span covers it.
pub proof fn lemma_canon_covers(s: Seq<SimpleSpan>)
    requires
        sorted_by_start(s),
        all_wf(s),
    ensures
        forall|q: i64| covers_seq(canon(s), q) <==> covers_seq(s, q),
{
    if s.len() > 0 {
        assert forall|q: i64| covers_seq(canon(s), q) <==> covers_seq(s, q) by {
            lemma_canon_from_covers(s, 1, s[0].start, s[0].end, q);
            if covers_seq(s, q) {
                let j = choose|j: int| 0 <= j < s.len() && s[j].covers(q);
                if j == 0 {
                    assert(s[0].start <= q < s[0].end);
                } else {
                    assert(exists|j2: int| 1 <= j2 < s.len() && s[j2].covers(q));
                }
            }
            if exists|j: int| 1 <= j < s.len() && s[j].covers(q) {
                let j = choose|j: int| 1 <= j < s.len() && s[j].covers(q);
                assert(covers_seq(s, q));
            }
        }
    }
}

proof fn lemma_canon_fixed_from(s: Seq<SimpleSpan>, i: int)
    requires
        is_canonical(s),
        1 <= i <= s.len(),
    ensures
        canon_from(s, i, s[i - 1].start, s[i - 1].end) == s.skip(i - 1),
    decreases s.len() - i,
{
    if i == s.len() {
        assert(canon_from(s, i, s[i - 1].start, s[i - 1].end) =~= s.skip(i - 1));
    } else {
        assert(s[i - 1].end <= s[i].start);
        lemma_canon_fixed_from(s, i + 1, );
        assert(seq![SimpleSpan { start: s[i - 1].start, end: s[i - 1].end }] + s.skip(i) =~= s.skip(
            i - 1,
        ));
    }
}

/// A canonical sequence is a fixed point of canonicalization.
pub proof fn lemma_canon_fixed(s: Seq<SimpleSpan>)
    requires
        is_canonical(s),
    ensures
        canon(s) == s,
{
    if s.len() > 0 {
        lemma_canon_fixed_from(s, 1);
        assert(s.skip(0) =~= s);
    }
}

/// Canonicalization is idempotent: rebuilding a span set from the spans of a
/// built span set changes nothing.
pub proof fn lemma_canon_idempotent(s: Seq<SimpleSpan>)
    requires
        sorted_by_start(s),
        all_wf(s),
    ensures
        canon(canon(s)) == canon(s),
{
    lemma_canon_canonical(s);
    lemma_canon_fixed(canon(s));
}

/// Disjointness of a canonical span set, stated over points: no point lies in
/// two different spans of the set.
pub proof fn lemma_canonical_disjoint(s: Seq<SimpleSpan>, i: int, j: int, q: i64)
    requires
        is_canonical(s),
        0 <= i < j < s.len(),
    ensures
        !(s[i].covers(q) && s[j].covers(q)),
{
    lemma_canonical_ends_ascend(s, i, j);
}

proof fn lemma_canonical_ends_ascend(s: Seq<SimpleSpan>, i: int, j: int)
    requires
        is_canonical(s),
        0 <= i < j < s.len(),
    ensures
        s[i].end <= s[j].start,
    decreases j - i,
{
    if i + 1 < j {
        lemma_canonical_ends_ascend(s, i + 1, j);
    }
}


/// Lexicographic order on spans: by start value, then end value.
pub open spec fn lex_le(a: SimpleSpan, b: SimpleSpan) -> bool {
    a.start < b.start || (a.start == b.start && a.end <= b.end)
}

/// The spans are in lexicographic order.
pub open spec fn lex_sorted(s: Seq<SimpleSpan>) -> bool {
    forall|i: int, j: int| 0 <= i < j < s.len() ==> lex_le(s[i], s[j])
}

/// The ascending merge of the suffixes `a[i..]` and `b[j..]`, preferring the
/// left source on ties.
pub open spec fn merge_from(a: Seq<SimpleSpan>, b: Seq<SimpleSpan>, i: int, j: int) -> Seq<
    SimpleSpan,
>
    decreases a.len() - i + b.len() - j,
        when 0 <= i <= a.len() && 0 <= j <= b.len()
{
    if 0 <= i < a.len() && (j >= b.len() || (0 <= j && lex_le(a[i], b[j]))) {
        seq![a[i]] + merge_from(a, b, i + 1, j)
    } else if 0 <= j < b.len() && 0 <= i {
        seq![b[j]] + merge_from(a, b, i, j + 1)
    } else {
        Seq::empty()
    }
}

/// The ascending merge of two lexicographically sorted span sequences.
pub open spec fn merge2(a: Seq<SimpleSpan>, b: Seq<SimpleSpan>) -> Seq<SimpleSpan> {
    merge_from(a, b, 0, 0)
}

/// The multiset of the elements of the suffix `s[i..]`.
pub open spec fn suffix_mset(s: Seq<SimpleSpan>, i: int) -> Multiset<SimpleSpan>
    decreases s.len() - i,
{
    if 0 <= i < s.len() {
        suffix_mset(s, i + 1).insert(s[i])
    } else {
        Multiset::empty()
    }
}

pub(crate) proof fn lemma_merge_from_sorted(a: Seq<SimpleSpan>, b: Seq<SimpleSpan>, i: int, j: int)
    requires
        lex_sorted(a),
        lex_sorted(b),
        0 <= i <= a.len(),
        0 <= j <= b.len(),
    ensures
        merge_from(a, b, i, j).len() == (a.len() - i) + (b.len() - j),
        lex_sorted(merge_from(a, b, i, j)),
        forall|k: int|
            0 <= k < merge_from(a, b, i, j).len() ==> ((exists|m: int|
                i <= m < a.len() && #[trigger] merge_from(a, b, i, j)[k] == a[m]) || (exists|m: int|
                j <= m < b.len() && merge_from(a, b, i, j)[k] == b[m])),
    decreases a.len() - i + b.len() - j,
{
    let r = merge_from(a, b, i, j);
    if i < a.len() && (j >= b.len() || lex_le(a[i], b[j])) {
        lemma_merge_from_sorted(a, b, i + 1, j);
        let rest = merge_from(a, b, i + 1, j);
        assert(r == seq![a[i]] + rest);
        assert((seq![a[i]] + rest).len() == 1 + rest.len());
        assert((seq![a[i]] + rest)[0] == a[i]);
        assert forall|k: int| 0 <= k < r.len() implies ((exists|m: int|
            i <= m < a.len() && #[trigger] r[k] == a[m]) || (exists|m: int|
            j <= m < b.len() && r[k] == b[m])) by {
            if k == 0 {
                assert(r[0] == a[i]);
            } else {
                assert((seq![a[i]] + rest)[k] == rest[k - 1]);
            }
        }
        assert forall|k1: int, k2: int| 0 <= k1 < k2 < r.len() implies lex_le(r[k1], r[k2]) by {
            assert((seq![a[i]] + rest)[k2] == rest[k2 - 1]);
            if k1 > 0 {
                assert((seq![a[i]] + rest)[k1] == rest[k1 - 1]);
            } else {
                assert(r[0] == a[i]);
                let e = rest[k2 - 1];
                if exists|m: int| i + 1 <= m < a.len() && e == a[m] {
                    let m = choose|m: int| i + 1 <= m < a.len() && e == a[m];
                    assert(lex_le(a[i], a[m]));
                } else {
                    let m = choose|m: int| j <= m < b.len() && e == b[m];
                    if m > j {
                        assert(lex_le(b[j], b[m]));
                    }
                }
            }
        }
    } else if j < b.len() {
        lemma_merge_from_sorted(a, b, i, j + 1);
        let rest = merge_from(a, b, i, j + 1);
        assert(r == seq![b[j]] + rest);
        assert((seq![b[j]] + rest).len() == 1 + rest.len());
        assert((seq![b[j]] + rest)[0] == b[j]);
        assert forall|k: int| 0 <= k < r.len() implies ((exists|m: int|
            i <= m < a.len() && #[trigger] r[k] == a[m]) || (exists|m: int|
            j <= m < b.len() && r[k] == b[m])) by {
            if k == 0 {
                assert(r[0] == b[j]);
            } else {
                assert((seq![b[j]] + rest)[k] == rest[k - 1]);
            }
        }
        assert forall|k1: int, k2: int| 0 <= k1 < k2 < r.len() implies lex_le(r[k1], r[k2]) by {
            assert((seq![b[j]] + rest)[k2] == rest[k2 - 1]);
            if k1 > 0 {
                assert((seq![b[j]] + rest)[k1] == rest[k1 - 1]);
            } else {
                assert(r[0] == b[j]);
                let e = rest[k2 - 1];
                if exists|m: int| i <= m < a.len() && e == a[m] {
                    let m = choose|m: int| i <= m < a.len() && e == a[m];
                    assert(!lex_le(a[i], b[j]));
                    assert(lex_le(b[j], a[i]));
                    if m > i {
                        assert(lex_le(a[i], a[m]));
                    }
                } else {
                    let m = choose|m: int| j + 1 <= m < b.len() && e == b[m];
                    assert(lex_le(b[j], b[m]));
                }
            }
        }
    }
}

proof fn lemma_merge_from_covers(a: Seq<SimpleSpan>, b: Seq<SimpleSpan>, i: int, j: int, q: i64)
    requires
        0 <= i <= a.len(),
        0 <= j <= b.len(),
    ensures
        covers_seq(merge_from(a, b, i, j), q) <==> ((exists|m: int|
            i <= m < a.len() && a[m].covers(q)) || (exists|m: int|
            j <= m < b.len() && b[m].covers(q))),
    decreases a.len() - i + b.len() - j,
{
    let r = merge_from(a, b, i, j);
    if i < a.len() && (j >= b.len() || lex_le(a[i], b[j])) {
        lemma_merge_from_covers(a, b, i + 1, j, q);
        let rest = merge_from(a, b, i + 1, j);
        assert(r == seq![a[i]] + rest);
        assert((seq![a[i]] + rest).len() == 1 + rest.len());
        assert((seq![a[i]] + rest)[0] == a[i]);
        if covers_seq(r, q) {
            let k = choose|k: int| 0 <= k < r.len() && r[k].covers(q);
            if k > 0 {
                assert((seq![a[i]] + rest)[k] == rest[k - 1]);
                assert(covers_seq(rest, q));
            }
        }
        if covers_seq(rest, q) {
            let k = choose|k: int| 0 <= k < rest.len() && rest[k].covers(q);
            assert((seq![a[i]] + rest)[k + 1] == rest[k]);
            assert(r[k + 1].covers(q));
        }
        if exists|m: int| i <= m < a.len() && a[m].covers(q) {
            let m = choose|m: int| i <= m < a.len() && a[m].covers(q);
            if m == i {
                assert(r[0].covers(q));
            } else {
                assert(exists|m2: int| i + 1 <= m2 < a.len() && a[m2].covers(q));
            }
        }
        if exists|m: int| i + 1 <= m < a.len() && a[m].covers(q) {
            let m = choose|m: int| i + 1 <= m < a.len() && a[m].covers(q);
            assert(i <= m < a.len() && a[m].covers(q));
        }
    } else if j < b.len() {
        lemma_merge_from_covers(a, b, i, j + 1, q);
        let rest = merge_from(a, b, i, j + 1);
        assert(r == seq![b[j]] + rest);
        assert((seq![b[j]] + rest).len() == 1 + rest.len());
        assert((seq![b[j]] + rest)[0] == b[j]);
        if covers_seq(r, q) {
            let k = choose|k: int| 0 <= k < r.len() && r[k].covers(q);
            if k > 0 {
                assert((seq![b[j]] + rest)[k] == rest[k - 1]);
                assert(covers_seq(rest, q));
            }
        }
        if covers_seq(rest, q) {
            let k = choose|k: int| 0 <= k < rest.len() && rest[k].covers(q);
            assert((seq![b[j]] + rest)[k + 1] == rest[k]);
            assert(r[k + 1].covers(q));
        }
        if exists|m: int| j <= m < b.len() && b[m].covers(q) {
            let m = choose|m: int| j <= m < b.len() && b[m].covers(q);
            if m == j {
                assert(r[0].covers(q));
            } else {
                assert(exists|m2: int| j + 1 <= m2 < b.len() && b[m2].covers(q));
            }
        }
        if exists|m: int| j + 1 <= m < b.len() && b[m].covers(q) {
            let m = choose|m: int| j + 1 <= m < b.len() && b[m].covers(q);
            assert(j <= m < b.len() && b[m].covers(q));
        }
    }
}

proof fn lemma_merge_from_mset(a: Seq<SimpleSpan>, b: Seq<SimpleSpan>, i: int, j: int)
    requires
        0 <= i <= a.len(),
        0 <= j <= b.len(),
    ensures
        suffix_mset(merge_from(a, b, i, j), 0) =~= suffix_mset(a, i).add(suffix_mset(b, j)),
    decreases a.len() - i + b.len() - j,
{
    let r = merge_from(a, b, i, j);
    if i < a.len() && (j >= b.len() || lex_le(a[i], b[j])) {
        lemma_merge_from_mset(a, b, i + 1, j);
        let rest = merge_from(a, b, i + 1, j);
        assert(r == seq![a[i]] + rest);
        lemma_suffix_mset_cons(a[i], rest);
    } else if j < b.len() {
        lemma_merge_from_mset(a, b, i, j + 1);
        let rest = merge_from(a, b, i, j + 1);
        assert(r == seq![b[j]] + rest);
        lemma_suffix_mset_cons(b[j], rest);
    }
}

proof fn lemma_suffix_mset_cons(x: SimpleSpan, rest: Seq<SimpleSpan>)
    ensures
        suffix_mset(seq![x] + rest, 0) =~= suffix_mset(rest, 0).insert(x),
{
    assert((seq![x] + rest).len() == 1 + rest.len());
    assert((seq![x] + rest)[0] == x);
    lemma_suffix_mset_shift(x, rest, 0);
}

proof fn lemma_suffix_mset_shift(x: SimpleSpan, rest: Seq<SimpleSpan>, k: int)
    requires
        0 <= k <= rest.len(),
    ensures
        suffix_mset(seq![x] + rest, k + 1) =~= suffix_mset(rest, k),
    decreases rest.len() - k,
{
    assert((seq![x] + rest).len() == 1 + rest.len());
    if k < rest.len() {
        lemma_suffix_mset_shift(x, rest, k + 1);
        assert((seq![x] + rest)[k + 1] == rest[k]);
    }
}

proof fn lemma_suffix_mset_count(s: Seq<SimpleSpan>, i: int, x: SimpleSpan)
    requires
        0 <= i <= s.len(),
    ensures
        suffix_mset(s, i).count(x) > 0 <==> exists|m: int| i <= m < s.len() && s[m] == x,
    decreases s.len() - i,
{
    if i < s.len() {
        lemma_suffix_mset_count(s, i + 1, x);
        if exists|m: int| i <= m < s.len() && s[m] == x {
            let m = choose|m: int| i <= m < s.len() && s[m] == x;
            if m > i {
                assert(exists|m2: int| i + 1 <= m2 < s.len() && s[m2] == x);
            }
        }
        if exists|m: int| i + 1 <= m < s.len() && s[m] == x {
            let m = choose|m: int| i + 1 <= m < s.len() && s[m] == x;
            assert(i <= m < s.len() && s[m] == x);
        }
    }
}

/// Two lexicographically sorted sequences holding the same multiset of spans
/// are the same sequence.
proof fn lemma_sorted_mset_unique(x: Seq<SimpleSpan>, y: Seq<SimpleSpan>)
    requires
        lex_sorted(x),
        lex_sorted(y),
        suffix_mset(x, 0) == suffix_mset(y, 0),
        x.len() == y.len(),
    ensures
        x == y,
    decreases x.len(),
{
    if x.len() > 0 {
        let mx = suffix_mset(x, 0);
        lemma_suffix_mset_count(x, 0, x[0]);
        lemma_suffix_mset_count(y, 0, x[0]);
        assert(mx.count(x[0]) > 0);
        let m = choose|m: int| 0 <= m < y.len() && y[m] == x[0];
        if m > 0 {
            assert(lex_le(y[0], y[m]));
        }
        lemma_suffix_mset_count(y, 0, y[0]);
        lemma_suffix_mset_count(x, 0, y[0]);
        let m2 = choose|m2: int| 0 <= m2 < x.len() && x[m2] == y[0];
        if m2 > 0 {
            assert(lex_le(x[0], x[m2]));
        }
        assert(lex_le(x[0], y[0]) && lex_le(y[0], x[0]));
        assert(x[0] == y[0]);
        let xt = x.subrange(1, x.len() as int);
        let yt = y.subrange(1, y.len() as int);
        assert(x == seq![x[0]] + xt);
        assert(y == seq![y[0]] + yt);
        lemma_suffix_mset_shift_sub(x);
        lemma_suffix_mset_shift_sub(y);
        assert(suffix_mset(xt, 0) =~= suffix_mset(x, 0).remove(x[0]));
        assert(suffix_mset(yt, 0) =~= suffix_mset(y, 0).remove(y[0]));
        assert forall|k1: int, k2: int| 0 <= k1 < k2 < xt.len() implies lex_le(xt[k1], xt[k2]) by {
            assert(xt[k1] == x[k1 + 1] && xt[k2] == x[k2 + 1]);
        }
        assert forall|k1: int, k2: int| 0 <= k1 < k2 < yt.len() implies lex_le(yt[k1], yt[k2]) by {
            assert(yt[k1] == y[k1 + 1] && yt[k2] == y[k2 + 1]);
        }
        lemma_sorted_mset_unique(xt, yt);
        assert(x =~= y);
    } else {
        assert(x =~= y);
    }
}

proof fn lemma_suffix_mset_shift_sub(x: Seq<SimpleSpan>)
    requires
        x.len() > 0,
    ensures
        suffix_mset(x.subrange(1, x.len() as int), 0) =~= suffix_mset(x, 0).remove(x[0]),
{
    let xt = x.subrange(1, x.len() as int);
    assert(x == seq![x[0]] + xt);
    lemma_suffix_mset_cons(x[0], xt);
    assert(suffix_mset(x, 0) =~= suffix_mset(xt, 0).insert(x[0]));
}

/// A canonical sequence is lexicographically sorted, and sorted by start.
pub(crate) proof fn lemma_canonical_sorted(s: Seq<SimpleSpan>)
    requires
        is_canonical(s),
    ensures
        lex_sorted(s),
        sorted_by_start(s),
        all_wf(s),
{
    assert forall|i: int, j: int| 0 <= i < j < s.len() implies s[i].end <= s[j].start by {
        lemma_canonical_ends_ascend(s, i, j);
    }
    assert forall|i: int, j: int| 0 <= i < j < s.len() implies lex_le(s[i], s[j]) by {
        assert(s[i].end <= s[j].start);
    }
}


/// The point `x` lies in some span of the sequence (integer-valued form).
pub open spec fn covered_at(s: Seq<SimpleSpan>, x: int) -> bool {
    exists|i: int| 0 <= i < s.len() && (#[trigger] s[i]).start <= x < s[i].end
}

/// Some span has `x` strictly in its interior.
pub open spec fn crosses(s: Seq<SimpleSpan>, x: int) -> bool {
    exists|i: int| 0 <= i < s.len() && (#[trigger] s[i]).start < x < s[i].end
}

/// Two consecutive spans of the sequence touch exactly at `x`.
pub open spec fn splits_at(s: Seq<SimpleSpan>, x: int) -> bool {
    exists|i: int| 0 <= i && i + 1 < s.len() && (#[trigger] s[i]).end == x && s[i + 1].start == x
}

proof fn lemma_canon_from_crosses(s: Seq<SimpleSpan>, i: int, cs: i64, ce: i64, x: int)
    requires
        0 <= i <= s.len(),
        sorted_by_start(s),
        all_wf(s),
        cs <= ce,
        forall|j: int| i <= j < s.len() ==> cs <= s[j].start,
    ensures
        crosses(canon_from(s, i, cs, ce), x) <==> (cs < x < ce || exists|j: int|
            i <= j < s.len() && (#[trigger] s[j]).start < x < s[j].end),
    decreases s.len() - i,
{
    let r = canon_from(s, i, cs, ce);
    if i >= s.len() {
        if cs < x < ce {
            assert(r[0].start < x < r[0].end);
        }
        if crosses(r, x) {
            let k = choose|k: int| 0 <= k < r.len() && (#[trigger] r[k]).start < x < r[k].end;
            assert(cs < x < ce);
        }
    } else if s[i].start >= ce {
        lemma_canon_from_crosses(s, i + 1, s[i].start, s[i].end, x);
        let rest = canon_from(s, i + 1, s[i].start, s[i].end);
        if cs < ce {
            let c = SimpleSpan { start: cs, end: ce };
            assert(r == seq![c] + rest);
            assert((seq![c] + rest).len() == 1 + rest.len());
            if crosses(r, x) {
                let k = choose|k: int| 0 <= k < r.len() && (#[trigger] r[k]).start < x < r[k].end;
                if k == 0 {
                    assert((seq![c] + rest)[0] == c);
                    assert(cs < x < ce);
                } else {
                    assert((seq![c] + rest)[k] == rest[k - 1]);
                    assert(crosses(rest, x));
                }
            }
            if cs < x < ce {
                assert((seq![c] + rest)[0] == c);
                assert(r[0].start < x < r[0].end);
                assert(crosses(r, x));
            }
            if crosses(rest, x) {
                let k = choose|k: int| 0 <= k < rest.len() && (#[trigger] rest[k]).start < x < rest[k].end;
                assert((seq![c] + rest)[k + 1] == rest[k]);
                assert(r[k + 1].start < x < r[k + 1].end);
                assert(crosses(r, x));
            }
        } else {
            assert(r == rest);
        }
        if exists|j: int| i <= j < s.len() && (#[trigger] s[j]).start < x < s[j].end {
            let j = choose|j: int| i <= j < s.len() && (#[trigger] s[j]).start < x < s[j].end;
            if j == i {
                assert(s[i].start < x < s[i].end);
            } else {
                assert(exists|j2: int| i + 1 <= j2 < s.len() && (#[trigger] s[j2]).start < x < s[j2].end);
            }
        }
        if exists|j: int| i + 1 <= j < s.len() && (#[trigger] s[j]).start < x < s[j].end {
            let j = choose|j: int| i + 1 <= j < s.len() && (#[trigger] s[j]).start < x < s[j].end;
            assert(i <= j < s.len() && s[j].start < x < s[j].end);
        }
    } else if s[i].end > ce {
        lemma_canon_from_crosses(s, i + 1, cs, s[i].end, x);
        if cs < x < s[i].end && !(cs < x < ce) {
            assert(s[i].start < x < s[i].end);
        }
        if exists|j: int| i <= j < s.len() && (#[trigger] s[j]).start < x < s[j].end {
            let j = choose|j: int| i <= j < s.len() && (#[trigger] s[j]).start < x < s[j].end;
            if j == i {
                assert(cs < x < s[i].end);
            } else {
                assert(exists|j2: int| i + 1 <= j2 < s.len() && (#[trigger] s[j2]).start < x < s[j2].end);
            }
        }
        if exists|j: int| i + 1 <= j < s.len() && (#[trigger] s[j]).start < x < s[j].end {
            let j = choose|j: int| i + 1 <= j < s.len() && (#[trigger] s[j]).start < x < s[j].end;
            assert(i <= j < s.len() && s[j].start < x < s[j].end);
        }
    } else {
        lemma_canon_from_crosses(s, i + 1, cs, ce, x);
        if s[i].start < x < s[i].end {
            assert(cs < x < ce);
        }
        if exists|j: int| i <= j < s.len() && (#[trigger] s[j]).start < x < s[j].end {
            let j = choose|j: int| i <= j < s.len() && (#[trigger] s[j]).start < x < s[j].end;
            if j > i {
                assert(exists|j2: int| i + 1 <= j2 < s.len() && (#[trigger] s[j2]).start < x < s[j2].end);
            }
        }
        if exists|j: int| i + 1 <= j < s.len() && (#[trigger] s[j]).start < x < s[j].end {
            let j = choose|j: int| i + 1 <= j < s.len() && (#[trigger] s[j]).start < x < s[j].end;
            assert(i <= j < s.len() && s[j].start < x < s[j].end);
        }
    }
}

proof fn lemma_canon_crosses(s: Seq<SimpleSpan>, x: int)
    requires
        sorted_by_start(s),
        all_wf(s),
    ensures
        crosses(canon(s), x) <==> crosses(s, x),
{
    if s.len() > 0 {
        lemma_canon_from_crosses(s, 1, s[0].start, s[0].end, x);
        if crosses(s, x) {
            let j = choose|j: int| 0 <= j < s.len() && (#[trigger] s[j]).start < x < s[j].end;
            if j > 0 {
                assert(exists|j2: int| 1 <= j2 < s.len() && (#[trigger] s[j2]).start < x < s[j2].end);
            }
        }
        if exists|j: int| 1 <= j < s.len() && (#[trigger] s[j]).start < x < s[j].end {
            let j = choose|j: int| 1 <= j < s.len() && (#[trigger] s[j]).start < x < s[j].end;
            assert(crosses(s, x));
        }
    }
}


proof fn lemma_canon_from_first(s: Seq<SimpleSpan>, i: int, cs: i64, ce: i64)
    requires
        0 <= i <= s.len(),
        sorted_by_start(s),
        all_wf(s),
        cs < ce,
        forall|j: int| i <= j < s.len() ==> cs <= s[j].start,
    ensures
        canon_from(s, i, cs, ce).len() > 0,
        canon_from(s, i, cs, ce)[0].start == cs,
    decreases s.len() - i,
{
    if i >= s.len() {
    } else if s[i].start >= ce {
        let rest = canon_from(s, i + 1, s[i].start, s[i].end);
        let c = SimpleSpan { start: cs, end: ce };
        assert(canon_from(s, i, cs, ce) == seq![c] + rest);
        assert((seq![c] + rest)[0] == c);
    } else if s[i].end > ce {
        lemma_canon_from_first(s, i + 1, cs, s[i].end);
    } else {
        lemma_canon_from_first(s, i + 1, cs, ce);
    }
}

/// The covering condition for the sweep state: the candidate or a span still
/// to come holds the point.
spec fn state_covers(s: Seq<SimpleSpan>, i: int, cs: i64, ce: i64, y: int) -> bool {
    (cs <= y < ce) || (exists|j: int| i <= j < s.len() && (#[trigger] s[j]).start <= y < s[j].end)
}

spec fn state_crosses(s: Seq<SimpleSpan>, i: int, cs: i64, ce: i64, x: int) -> bool {
    (cs < x < ce) || (exists|j: int| i <= j < s.len() && (#[trigger] s[j]).start < x < s[j].end)
}

proof fn lemma_canon_from_splits(s: Seq<SimpleSpan>, i: int, cs: i64, ce: i64, x: int)
    requires
        0 <= i <= s.len(),
        sorted_by_start(s),
        all_wf(s),
        all_strict(s),
        cs <= ce,
        forall|j: int| i <= j < s.len() ==> cs <= s[j].start,
    ensures
        splits_at(canon_from(s, i, cs, ce), x) <==> (state_covers(s, i, cs, ce, x - 1)
            && state_covers(s, i, cs, ce, x) && !state_crosses(s, i, cs, ce, x)),
    decreases s.len() - i,
{
    let r = canon_from(s, i, cs, ce);
    if i >= s.len() {
        if splits_at(r, x) {
            let k = choose|k: int|
                0 <= k && k + 1 < r.len() && (#[trigger] r[k]).end == x && r[k + 1].start == x;
            assert(false);
        }
        if state_covers(s, i, cs, ce, x - 1) && state_covers(s, i, cs, ce, x) {
            assert(cs <= x - 1 && x < ce);
            assert(state_crosses(s, i, cs, ce, x));
        }
    } else if s[i].start >= ce {
        lemma_canon_from_splits(s, i + 1, s[i].start, s[i].end, x);
        let rest = canon_from(s, i + 1, s[i].start, s[i].end);
        lemma_canon_from_first(s, i + 1, s[i].start, s[i].end);
        assert(rest.len() > 0 && rest[0].start == s[i].start);
        if cs < ce {
            let c = SimpleSpan { start: cs, end: ce };
            assert(r == seq![c] + rest);
            assert((seq![c] + rest).len() == 1 + rest.len());
            assert((seq![c] + rest)[0] == c);
            // splits of the concatenation: at the seam, or within the rest
            if splits_at(r, x) {
                let k = choose|k: int|
                    0 <= k && k + 1 < r.len() && (#[trigger] r[k]).end == x && r[k + 1].start == x;
                assert((seq![c] + rest)[k + 1] == rest[k]);
                if k == 0 {
                    assert(x == ce && rest[0].start == x);
                    assert(s[i].start == ce);
                    assert(cs <= x - 1 < ce);
                    assert(s[i].start <= x < s[i].end);
                    assert(state_covers(s, i, cs, ce, x));
                    assert forall|j: int|
                        i <= j < s.len() implies !((#[trigger] s[j]).start < x < s[j].end) by {
                        assert(s[i].start <= s[j].start);
                    }
                } else {
                    assert((seq![c] + rest)[k] == rest[k - 1]);
                    assert(splits_at(rest, x));
                    assert(state_covers(s, i + 1, s[i].start, s[i].end, x - 1));
                }
            }
            if splits_at(rest, x) {
                let k = choose|k: int|
                    0 <= k && k + 1 < rest.len() && (#[trigger] rest[k]).end == x && rest[k
                        + 1].start == x;
                assert((seq![c] + rest)[k + 1] == rest[k]);
                assert((seq![c] + rest)[k + 2] == rest[k + 1]);
                assert(splits_at(r, x));
            }
            if x == ce && s[i].start == ce {
                assert(r[0].end == x && r[1] == rest[0] && rest[0].start == x);
                assert(splits_at(r, x));
            }
        } else {
            assert(r == rest);
        }
        // relate the state conditions of the recursive call to this state
        assert forall|y: int|
            #[trigger] state_covers(s, i + 1, s[i].start, s[i].end, y) <==> (exists|j: int|
                i <= j < s.len() && (#[trigger] s[j]).start <= y < s[j].end) by {
            if state_covers(s, i + 1, s[i].start, s[i].end, y) {
                if s[i].start <= y < s[i].end {
                    assert(s[i].start <= y < s[i].end);
                } else {
                    let j = choose|j: int|
                        i + 1 <= j < s.len() && (#[trigger] s[j]).start <= y < s[j].end;
                    assert(i <= j < s.len() && s[j].start <= y < s[j].end);
                }
            }
            if exists|j: int| i <= j < s.len() && (#[trigger] s[j]).start <= y < s[j].end {
                let j = choose|j: int| i <= j < s.len() && (#[trigger] s[j]).start <= y < s[j].end;
                if j == i {
                    assert(s[i].start <= y < s[i].end);
                } else {
                    assert(exists|j2: int|
                        i + 1 <= j2 < s.len() && (#[trigger] s[j2]).start <= y < s[j2].end);
                }
            }
        }
        assert forall|y: int|
            #[trigger] state_crosses(s, i + 1, s[i].start, s[i].end, y) <==> (exists|j: int|
                i <= j < s.len() && (#[trigger] s[j]).start < y < s[j].end) by {
            if state_crosses(s, i + 1, s[i].start, s[i].end, y) {
                if s[i].start < y < s[i].end {
                    assert(s[i].start < y < s[i].end);
                } else {
                    let j = choose|j: int|
                        i + 1 <= j < s.len() && (#[trigger] s[j]).start < y < s[j].end;
                    assert(i <= j < s.len() && s[j].start < y < s[j].end);
                }
            }
            if exists|j: int| i <= j < s.len() && (#[trigger] s[j]).start < y < s[j].end {
                let j = choose|j: int| i <= j < s.len() && (#[trigger] s[j]).start < y < s[j].end;
                if j == i {
                    assert(s[i].start < y < s[i].end);
                } else {
                    assert(exists|j2: int|
                        i + 1 <= j2 < s.len() && (#[trigger] s[j2]).start < y < s[j2].end);
                }
            }
        }
        // a suffix span never reaches below ce
        assert forall|y: int| y < ce implies !state_covers(s, i, cs, cs, y) by {
            if exists|j: int| i <= j < s.len() && (#[trigger] s[j]).start <= y < s[j].end {
                let j = choose|j: int| i <= j < s.len() && (#[trigger] s[j]).start <= y < s[j].end;
                assert(s[i].start <= s[j].start);
            }
        }
    } else if s[i].end > ce {
        lemma_canon_from_splits(s, i + 1, cs, s[i].end, x);
        assert forall|y: int|
            #[trigger] state_covers(s, i + 1, cs, s[i].end, y) <==> state_covers(s, i, cs, ce, y) by {
            if state_covers(s, i + 1, cs, s[i].end, y) {
                if cs <= y < s[i].end && !(cs <= y < ce) {
                    assert(s[i].start <= y < s[i].end);
                }
                if exists|j: int| i + 1 <= j < s.len() && (#[trigger] s[j]).start <= y < s[j].end {
                    let j = choose|j: int|
                        i + 1 <= j < s.len() && (#[trigger] s[j]).start <= y < s[j].end;
                    assert(i <= j < s.len() && s[j].start <= y < s[j].end);
                }
            }
            if state_covers(s, i, cs, ce, y) {
                if exists|j: int| i <= j < s.len() && (#[trigger] s[j]).start <= y < s[j].end {
                    let j = choose|j: int|
                        i <= j < s.len() && (#[trigger] s[j]).start <= y < s[j].end;
                    if j == i {
                        assert(cs <= y < s[i].end);
                    } else {
                        assert(exists|j2: int|
                            i + 1 <= j2 < s.len() && (#[trigger] s[j2]).start <= y < s[j2].end);
                    }
                }
            }
        }
        assert forall|y: int|
            #[trigger] state_crosses(s, i + 1, cs, s[i].end, y) <==> state_crosses(s, i, cs, ce, y) by {
            if state_crosses(s, i + 1, cs, s[i].end, y) {
                if cs < y < s[i].end && !(cs < y < ce) {
                    assert(s[i].start < y < s[i].end);
                }
                if exists|j: int| i + 1 <= j < s.len() && (#[trigger] s[j]).start < y < s[j].end {
                    let j = choose|j: int|
                        i + 1 <= j < s.len() && (#[trigger] s[j]).start < y < s[j].end;
                    assert(i <= j < s.len() && s[j].start < y < s[j].end);
                }
            }
            if state_crosses(s, i, cs, ce, y) {
                if exists|j: int| i <= j < s.len() && (#[trigger] s[j]).start < y < s[j].end {
                    let j = choose|j: int|
                        i <= j < s.len() && (#[trigger] s[j]).start < y < s[j].end;
                    if j == i {
                        assert(cs < y < s[i].end);
                    } else {
                        assert(exists|j2: int|
                            i + 1 <= j2 < s.len() && (#[trigger] s[j2]).start < y < s[j2].end);
                    }
                }
            }
        }
    } else {
        lemma_canon_from_splits(s, i + 1, cs, ce, x);
        assert forall|y: int|
            #[trigger] state_covers(s, i + 1, cs, ce, y) <==> state_covers(s, i, cs, ce, y) by {
            if state_covers(s, i + 1, cs, ce, y) {
                if exists|j: int| i + 1 <= j < s.len() && (#[trigger] s[j]).start <= y < s[j].end {
                    let j = choose|j: int|
                        i + 1 <= j < s.len() && (#[trigger] s[j]).start <= y < s[j].end;
                    assert(i <= j < s.len() && s[j].start <= y < s[j].end);
                }
            }
            if state_covers(s, i, cs, ce, y) {
                if exists|j: int| i <= j < s.len() && (#[trigger] s[j]).start <= y < s[j].end {
                    let j = choose|j: int|
                        i <= j < s.len() && (#[trigger] s[j]).start <= y < s[j].end;
                    if j == i {
                        assert(cs <= y < ce);
                    } else {
                        assert(exists|j2: int|
                            i + 1 <= j2 < s.len() && (#[trigger] s[j2]).start <= y < s[j2].end);
                    }
                }
            }
        }
        assert forall|y: int|
            #[trigger] state_crosses(s, i + 1, cs, ce, y) <==> state_crosses(s, i, cs, ce, y) by {
            if state_crosses(s, i + 1, cs, ce, y) {
                if exists|j: int| i + 1 <= j < s.len() && (#[trigger] s[j]).start < y < s[j].end {
                    let j = choose|j: int|
                        i + 1 <= j < s.len() && (#[trigger] s[j]).start < y < s[j].end;
                    assert(i <= j < s.len() && s[j].start < y < s[j].end);
                }
            }
            if state_crosses(s, i, cs, ce, y) {
                if exists|j: int| i <= j < s.len() && (#[trigger] s[j]).start < y < s[j].end {
                    let j = choose|j: int|
                        i <= j < s.len() && (#[trigger] s[j]).start < y < s[j].end;
                    if j == i {
                        assert(cs < y < ce);
                    } else {
                        assert(exists|j2: int|
                            i + 1 <= j2 < s.len() && (#[trigger] s[j2]).start < y < s[j2].end);
                    }
                }
            }
        }
    }
}

/// Where the canonical form of a sequence splits two touching spans: exactly
/// at the points that are covered on both sides yet crossed by no single
/// input span.
proof fn lemma_canon_splits(s: Seq<SimpleSpan>, x: int)
    requires
        sorted_by_start(s),
        all_wf(s),
        all_strict(s),
    ensures
        splits_at(canon(s), x) <==> (covered_at(s, x - 1) && covered_at(s, x) && !crosses(s, x)),
{
    if s.len() == 0 {
        if splits_at(canon(s), x) {
            let k = choose|k: int|
                0 <= k && k + 1 < canon(s).len() && (#[trigger] canon(s)[k]).end == x && canon(
                    s,
                )[k + 1].start == x;
            assert(false);
        }
        if covered_at(s, x) {
            let j = choose|j: int| 0 <= j < s.len() && (#[trigger] s[j]).start <= x < s[j].end;
            assert(false);
        }
    } else {
        lemma_canon_from_splits(s, 1, s[0].start, s[0].end, x);
        assert forall|y: int|
            #[trigger] state_covers(s, 1, s[0].start, s[0].end, y) <==> covered_at(s, y) by {
            if state_covers(s, 1, s[0].start, s[0].end, y) {
                if s[0].start <= y < s[0].end {
                    assert(s[0].start <= y < s[0].end);
                    assert(covered_at(s, y));
                } else {
                    let j = choose|j: int|
                        1 <= j < s.len() && (#[trigger] s[j]).start <= y < s[j].end;
                    assert(covered_at(s, y));
                }
            }
            if covered_at(s, y) {
                let j = choose|j: int| 0 <= j < s.len() && (#[trigger] s[j]).start <= y < s[j].end;
                if j > 0 {
                    assert(exists|j2: int|
                        1 <= j2 < s.len() && (#[trigger] s[j2]).start <= y < s[j2].end);
                }
            }
        }
        assert forall|y: int|
            #[trigger] state_crosses(s, 1, s[0].start, s[0].end, y) <==> crosses(s, y) by {
            if state_crosses(s, 1, s[0].start, s[0].end, y) {
                if s[0].start < y < s[0].end {
                    assert((#[trigger] s[0]).start < y < s[0].end);
                    assert(crosses(s, y));
                } else {
                    let j = choose|j: int|
                        1 <= j < s.len() && (#[trigger] s[j]).start < y < s[j].end;
                    assert(crosses(s, y));
                }
            }
            if crosses(s, y) {
                let j = choose|j: int| 0 <= j < s.len() && (#[trigger] s[j]).start < y < s[j].end;
                if j > 0 {
                    assert(exists|j2: int|
                        1 <= j2 < s.len() && (#[trigger] s[j2]).start < y < s[j2].end);
                }
            }
        }
    }
}


proof fn lemma_covered_at_i64(s: Seq<SimpleSpan>, y: int)
    ensures
        covered_at(s, y) <==> (i64::MIN <= y <= i64::MAX && covers_seq(s, y as i64)),
{
    if covered_at(s, y) {
        let j = choose|j: int| 0 <= j < s.len() && (#[trigger] s[j]).start <= y < s[j].end;
        assert(s[j].covers(y as i64));
    }
    if i64::MIN <= y <= i64::MAX && covers_seq(s, y as i64) {
        let j = choose|j: int| 0 <= j < s.len() && s[j].covers(y as i64);
        assert((#[trigger] s[j]).start <= y < s[j].end);
    }
}

proof fn lemma_merge_from_crosses_int(a: Seq<SimpleSpan>, b: Seq<SimpleSpan>, i: int, j: int, x: int)
    requires
        0 <= i <= a.len(),
        0 <= j <= b.len(),
    ensures
        crosses(merge_from(a, b, i, j), x) <==> ((exists|m: int|
            i <= m < a.len() && (#[trigger] a[m]).start < x < a[m].end) || (exists|m: int|
            j <= m < b.len() && (#[trigger] b[m]).start < x < b[m].end)),
    decreases a.len() - i + b.len() - j,
{
    let r = merge_from(a, b, i, j);
    if i < a.len() && (j >= b.len() || lex_le(a[i], b[j])) {
        lemma_merge_from_crosses_int(a, b, i + 1, j, x);
        let rest = merge_from(a, b, i + 1, j);
        assert(r == seq![a[i]] + rest);
        assert((seq![a[i]] + rest).len() == 1 + rest.len());
        assert((seq![a[i]] + rest)[0] == a[i]);
        if crosses(r, x) {
            let k = choose|k: int| 0 <= k < r.len() && (#[trigger] r[k]).start < x < r[k].end;
            if k > 0 {
                assert((seq![a[i]] + rest)[k] == rest[k - 1]);
                assert(crosses(rest, x));
            }
        }
        if crosses(rest, x) {
            let k = choose|k: int| 0 <= k < rest.len() && (#[trigger] rest[k]).start < x < rest[k].end;
            assert((seq![a[i]] + rest)[k + 1] == rest[k]);
            assert((#[trigger] r[k + 1]).start < x < r[k + 1].end);
        }
        if exists|m: int| i <= m < a.len() && (#[trigger] a[m]).start < x < a[m].end {
            let m = choose|m: int| i <= m < a.len() && (#[trigger] a[m]).start < x < a[m].end;
            if m == i {
                assert((#[trigger] r[0]).start < x < r[0].end);
            } else {
                assert(exists|m2: int|
                    i + 1 <= m2 < a.len() && (#[trigger] a[m2]).start < x < a[m2].end);
            }
        }
        if exists|m: int| i + 1 <= m < a.len() && (#[trigger] a[m]).start < x < a[m].end {
            let m = choose|m: int| i + 1 <= m < a.len() && (#[trigger] a[m]).start < x < a[m].end;
            assert(i <= m < a.len() && a[m].start < x < a[m].end);
        }
    } else if j < b.len() {
        lemma_merge_from_crosses_int(a, b, i, j + 1, x);
        let rest = merge_from(a, b, i, j + 1);
        assert(r == seq![b[j]] + rest);
        assert((seq![b[j]] + rest).len() == 1 + rest.len());
        assert((seq![b[j]] + rest)[0] == b[j]);
        if crosses(r, x) {
            let k = choose|k: int| 0 <= k < r.len() && (#[trigger] r[k]).start < x < r[k].end;
            if k > 0 {
                assert((seq![b[j]] + rest)[k] == rest[k - 1]);
                assert(crosses(rest, x));
            }
        }
        if crosses(rest, x) {
            let k = choose|k: int| 0 <= k < rest.len() && (#[trigger] rest[k]).start < x < rest[k].end;
            assert((seq![b[j]] + rest)[k + 1] == rest[k]);
            assert((#[trigger] r[k + 1]).start < x < r[k + 1].end);
        }
        if exists|m: int| j <= m < b.len() && (#[trigger] b[m]).start < x < b[m].end {
            let m = choose|m: int| j <= m < b.len() && (#[trigger] b[m]).start < x < b[m].end;
            if m == j {
                assert((#[trigger] r[0]).start < x < r[0].end);
            } else {
                assert(exists|m2: int|
                    j + 1 <= m2 < b.len() && (#[trigger] b[m2]).start < x < b[m2].end);
            }
        }
        if exists|m: int| j + 1 <= m < b.len() && (#[trigger] b[m]).start < x < b[m].end {
            let m = choose|m: int| j + 1 <= m < b.len() && (#[trigger] b[m]).start < x < b[m].end;
            assert(j <= m < b.len() && b[m].start < x < b[m].end);
        }
    } else {
        if crosses(r, x) {
            let k = choose|k: int| 0 <= k < r.len() && (#[trigger] r[k]).start < x < r[k].end;
            assert(false);
        }
    }
}

/// Two canonical span sequences covering the same points, with the same
/// touching points, are the same sequence.
proof fn lemma_canonical_same_head(r1: Seq<SimpleSpan>, r2: Seq<SimpleSpan>)
    requires
        is_canonical(r1),
        is_canonical(r2),
        forall|y: int| covered_at(r1, y) <==> covered_at(r2, y),
        forall|x: int| splits_at(r1, x) <==> splits_at(r2, x),
        r1.len() > 0,
        r2.len() > 0,
    ensures
        r1[0] == r2[0],
{
    let m1 = r1[0].start;
    let m2 = r2[0].start;
    assert((#[trigger] r1[0]).start <= m1 < r1[0].end);
    assert(covered_at(r1, m1 as int));
    let ja = choose|j: int| 0 <= j < r2.len() && (#[trigger] r2[j]).start <= m1 < r2[j].end;
    assert(m2 <= r2[ja].start) by {
        if ja > 0 {
            lemma_canonical_ends_ascend(r2, 0, ja);
        }
    }
    assert((#[trigger] r2[0]).start <= m2 < r2[0].end);
    assert(covered_at(r2, m2 as int));
    let jb = choose|j: int| 0 <= j < r1.len() && (#[trigger] r1[j]).start <= m2 < r1[j].end;
    assert(m1 <= r1[jb].start) by {
        if jb > 0 {
            lemma_canonical_ends_ascend(r1, 0, jb);
        }
    }
    assert(m1 == m2);
    lemma_canonical_head_end(r1, r2);
    lemma_canonical_head_end(r2, r1);
}

/// Two canonical span sequences covering the same points, with the same
/// touching points, are the same sequence: a canonical span set is determined
/// by its point set and its touching boundaries.
pub proof fn lemma_canonical_unique(r1: Seq<SimpleSpan>, r2: Seq<SimpleSpan>)
    requires
        is_canonical(r1),
        is_canonical(r2),
        forall|y: int| covered_at(r1, y) <==> covered_at(r2, y),
        forall|x: int| splits_at(r1, x) <==> splits_at(r2, x),
    ensures
        r1 == r2,
    decreases r1.len(),
{
    if r1.len() == 0 {
        if r2.len() > 0 {
            assert((#[trigger] r2[0]).start <= r2[0].start < r2[0].end);
            assert(covered_at(r2, r2[0].start as int));
            let j = choose|j: int|
                0 <= j < r1.len() && (#[trigger] r1[j]).start <= r2[0].start < r1[j].end;
            assert(false);
        }
        assert(r1 =~= r2);
    } else if r2.len() == 0 {
        assert((#[trigger] r1[0]).start <= r1[0].start < r1[0].end);
        assert(covered_at(r1, r1[0].start as int));
        let j = choose|j: int|
            0 <= j < r2.len() && (#[trigger] r2[j]).start <= r1[0].start < r2[j].end;
        assert(false);
    } else {
        lemma_canonical_same_head(r1, r2);
        let e1 = r1[0].end;
        let e2 = r2[0].end;
        let t1 = r1.subrange(1, r1.len() as int);
        let t2 = r2.subrange(1, r2.len() as int);
        lemma_canonical_tail_facts(r1);
        lemma_canonical_tail_facts(r2);
        assert forall|y: int| covered_at(t1, y) <==> covered_at(t2, y) by {
            assert(covered_at(t1, y) <==> (covered_at(r1, y) && y >= e1));
            assert(covered_at(t2, y) <==> (covered_at(r2, y) && y >= e2));
        }
        assert forall|x: int| splits_at(t1, x) <==> splits_at(t2, x) by {
            assert(splits_at(t1, x) <==> (splits_at(r1, x) && x > e1));
            assert(splits_at(t2, x) <==> (splits_at(r2, x) && x > e2));
        }
        assert forall|k: int| 0 <= k < t1.len() implies t1[k].start < t1[k].end by {
            assert(t1[k] == r1[k + 1]);
        }
        assert forall|k: int| 0 <= k && k + 1 < t1.len() implies t1[k].end <= t1[k + 1].start by {
            assert(t1[k] == r1[k + 1] && t1[k + 1] == r1[k + 2]);
        }
        assert forall|k: int| 0 <= k < t2.len() implies t2[k].start < t2[k].end by {
            assert(t2[k] == r2[k + 1]);
        }
        assert forall|k: int| 0 <= k && k + 1 < t2.len() implies t2[k].end <= t2[k + 1].start by {
            assert(t2[k] == r2[k + 1] && t2[k + 1] == r2[k + 2]);
        }
        lemma_canonical_unique(t1, t2);
        assert(r1.len() == 1 + t1.len() && r2.len() == 1 + t2.len());
        assert forall|k: int| 0 <= k < r1.len() implies r1[k] == r2[k] by {
            if k > 0 {
                assert(r1[k] == t1[k - 1] && r2[k] == t2[k - 1]);
            }
        }
        assert(r1 =~= r2);
    }
}

/// In two canonical sequences with equal coverage and equal touching points
/// that begin at the same start, the first span of one cannot end before the
/// first span of the other.
proof fn lemma_canonical_head_end(r1: Seq<SimpleSpan>, r2: Seq<SimpleSpan>)
    requires
        is_canonical(r1),
        is_canonical(r2),
        forall|y: int| covered_at(r1, y) <==> covered_at(r2, y),
        forall|x: int| splits_at(r1, x) <==> splits_at(r2, x),
        r1.len() > 0,
        r2.len() > 0,
        r1[0].start == r2[0].start,
    ensures
        r1[0].end >= r2[0].end,
{
    if r1[0].end >= r2[0].end {
        return ;
    }
    let e1 = r1[0].end;
    assert((#[trigger] r2[0]).start <= e1 < r2[0].end);
    assert(covered_at(r2, e1 as int));
    let j = choose|j: int| 0 <= j < r1.len() && (#[trigger] r1[j]).start <= e1 < r1[j].end;
    assert(j != 0);
    assert(r1[0].end <= r1[1].start);
    if j > 1 {
        lemma_canonical_ends_ascend(r1, 1, j);
        assert(r1[1].start < r1[1].end <= r1[j].start);
    }
    assert(r1[j].start >= e1) by {
        lemma_canonical_ends_ascend(r1, 0, j);
    }
    assert(j == 1 && r1[1].start == e1);
    assert((#[trigger] r1[0]).end == e1 && r1[1].start == e1);
    assert(splits_at(r1, e1 as int));
    let i = choose|i: int|
        0 <= i && i + 1 < r2.len() && (#[trigger] r2[i]).end == e1 && r2[i + 1].start == e1;
    assert(i != 0);
    lemma_canonical_ends_ascend(r2, 0, i);
    assert(r2[0].end <= r2[i].start < r2[i].end);
    assert(false);
}


/// Coverage and touching points of a canonical sequence split into the first
/// span and the rest.
proof fn lemma_canonical_tail_facts(r: Seq<SimpleSpan>)
    requires
        is_canonical(r),
        r.len() > 0,
    ensures
        forall|y: int|
            #[trigger] covered_at(r.subrange(1, r.len() as int), y) <==> (covered_at(r, y) && y
                >= r[0].end),
        forall|x: int|
            #[trigger] splits_at(r.subrange(1, r.len() as int), x) <==> (splits_at(r, x) && x
                > r[0].end),
{
    let t = r.subrange(1, r.len() as int);
    let e = r[0].end;
    assert forall|y: int| #[trigger] covered_at(t, y) <==> (covered_at(r, y) && y >= e) by {
        if covered_at(t, y) {
            let k = choose|k: int| 0 <= k < t.len() && (#[trigger] t[k]).start <= y < t[k].end;
            assert(t[k] == r[k + 1]);
            assert((#[trigger] r[k + 1]).start <= y < r[k + 1].end);
            lemma_canonical_ends_ascend(r, 0, k + 1);
            assert(y >= r[k + 1].start >= e);
        }
        if covered_at(r, y) && y >= e {
            let k = choose|k: int| 0 <= k < r.len() && (#[trigger] r[k]).start <= y < r[k].end;
            assert(k != 0);
            assert(t[k - 1] == r[k]);
            assert((#[trigger] t[k - 1]).start <= y < t[k - 1].end);
        }
    }
    assert forall|x: int| #[trigger] splits_at(t, x) <==> (splits_at(r, x) && x > e) by {
        if splits_at(t, x) {
            let k = choose|k: int|
                0 <= k && k + 1 < t.len() && (#[trigger] t[k]).end == x && t[k + 1].start == x;
            assert(t[k] == r[k + 1] && t[k + 1] == r[k + 2]);
            assert((#[trigger] r[k + 1]).end == x && r[k + 2].start == x);
            lemma_canonical_ends_ascend(r, 0, k + 1);
            assert(x == r[k + 1].end > r[k + 1].start >= e);
        }
        if splits_at(r, x) && x > e {
            let k = choose|k: int|
                0 <= k && k + 1 < r.len() && (#[trigger] r[k]).end == x && r[k + 1].start == x;
            assert(k != 0);
            assert(t[k - 1] == r[k] && t[k] == r[k + 1]);
            assert((#[trigger] t[k - 1]).end == x && t[k].start == x);
        }
    }
}

/// The union of two canonical span sets, as a sequence: canonicalize the
/// ascending merge of the two span sequences.
pub open spec fn union_spec(a: Seq<SimpleSpan>, b: Seq<SimpleSpan>) -> Seq<SimpleSpan> {
    canon(merge2(a, b))
}

proof fn lemma_merge2_facts(a: Seq<SimpleSpan>, b: Seq<SimpleSpan>)
    requires
        is_canonical(a),
        is_canonical(b),
    ensures
        lex_sorted(merge2(a, b)),
        sorted_by_start(merge2(a, b)),
        all_wf(merge2(a, b)),
        all_strict(merge2(a, b)),
{
    lemma_canonical_sorted(a);
    lemma_canonical_sorted(b);
    lemma_merge_from_sorted(a, b, 0, 0);
    let m = merge2(a, b);
    assert forall|k1: int, k2: int| 0 <= k1 < k2 < m.len() implies m[k1].start <= m[k2].start by {
        assert(lex_le(m[k1], m[k2]));
    }
    assert forall|k: int| 0 <= k < m.len() implies m[k].wf() && m[k].start < m[k].end by {
        assert((exists|m2: int|
            0 <= m2 < a.len() && #[trigger] merge_from(a, b, 0, 0)[k] == a[m2]) || (exists|m2: int|
            0 <= m2 < b.len() && merge_from(a, b, 0, 0)[k] == b[m2]));
    }
}

proof fn lemma_merge2_covered(a: Seq<SimpleSpan>, b: Seq<SimpleSpan>, q: i64)
    ensures
        covers_seq(merge2(a, b), q) <==> (covers_seq(a, q) || covers_seq(b, q)),
{
    lemma_merge_from_covers(a, b, 0, 0, q);
    if covers_seq(a, q) {
        let m = choose|m: int| 0 <= m < a.len() && a[m].covers(q);
        assert(exists|m2: int| 0 <= m2 < a.len() && a[m2].covers(q));
    }
    if covers_seq(b, q) {
        let m = choose|m: int| 0 <= m < b.len() && b[m].covers(q);
        assert(exists|m2: int| 0 <= m2 < b.len() && b[m2].covers(q));
    }
}

proof fn lemma_merge2_crosses(a: Seq<SimpleSpan>, b: Seq<SimpleSpan>, x: int)
    ensures
        crosses(merge2(a, b), x) <==> (crosses(a, x) || crosses(b, x)),
{
    lemma_merge_from_crosses_int(a, b, 0, 0, x);
}

/// The union of two canonical span sets is canonical.
proof fn lemma_union_spec_canonical(a: Seq<SimpleSpan>, b: Seq<SimpleSpan>)
    requires
        is_canonical(a),
        is_canonical(b),
    ensures
        is_canonical(union_spec(a, b)),
{
    lemma_merge2_facts(a, b);
    lemma_canon_canonical(merge2(a, b));
}

/// The union of two canonical span sets covers a point exactly when one of
/// them does.
proof fn lemma_union_spec_covered(a: Seq<SimpleSpan>, b: Seq<SimpleSpan>, q: i64)
    requires
        is_canonical(a),
        is_canonical(b),
    ensures
        covers_seq(union_spec(a, b), q) <==> (covers_seq(a, q) || covers_seq(b, q)),
{
    lemma_merge2_facts(a, b);
    lemma_canon_covers(merge2(a, b));
    lemma_merge2_covered(a, b, q);
}

/// The union of two canonical span sets is crossed at a point exactly when
/// one of them is.
proof fn lemma_union_spec_crosses(a: Seq<SimpleSpan>, b: Seq<SimpleSpan>, x: int)
    requires
        is_canonical(a),
        is_canonical(b),
    ensures
        crosses(union_spec(a, b), x) <==> (crosses(a, x) || crosses(b, x)),
{
    lemma_merge2_facts(a, b);
    lemma_canon_crosses(merge2(a, b), x);
    lemma_merge2_crosses(a, b, x);
}

proof fn lemma_union3_covered(a: Seq<SimpleSpan>, b: Seq<SimpleSpan>, c: Seq<SimpleSpan>, y: int)
    requires
        is_canonical(a),
        is_canonical(b),
        is_canonical(c),
    ensures
        covered_at(merge2(union_spec(a, b), c), y) <==> (covered_at(a, y) || covered_at(b, y)
            || covered_at(c, y)),
        covered_at(merge2(a, union_spec(b, c)), y) <==> (covered_at(a, y) || covered_at(b, y)
            || covered_at(c, y)),
{
    let ab = union_spec(a, b);
    let bc = union_spec(b, c);
    lemma_covered_at_i64(merge2(ab, c), y);
    lemma_covered_at_i64(merge2(a, bc), y);
    lemma_covered_at_i64(a, y);
    lemma_covered_at_i64(b, y);
    lemma_covered_at_i64(c, y);
    if i64::MIN <= y <= i64::MAX {
        let q = y as i64;
        lemma_merge2_covered(ab, c, q);
        lemma_merge2_covered(a, bc, q);
        lemma_union_spec_covered(a, b, q);
        lemma_union_spec_covered(b, c, q);
    }
}

proof fn lemma_union3_crosses(a: Seq<SimpleSpan>, b: Seq<SimpleSpan>, c: Seq<SimpleSpan>, x: int)
    requires
        is_canonical(a),
        is_canonical(b),
        is_canonical(c),
    ensures
        crosses(merge2(union_spec(a, b), c), x) <==> (crosses(a, x) || crosses(b, x) || crosses(
            c,
            x,
        )),
        crosses(merge2(a, union_spec(b, c)), x) <==> (crosses(a, x) || crosses(b, x) || crosses(
            c,
            x,
        )),
{
    let ab = union_spec(a, b);
    let bc = union_spec(b, c);
    lemma_merge2_crosses(ab, c, x);
    lemma_merge2_crosses(a, bc, x);
    lemma_union_spec_crosses(a, b, x);
    lemma_union_spec_crosses(b, c, x);
}

/// Union is associative: joining three canonical span sets gives the same
/// canonical set under either grouping.
pub proof fn lemma_union_associative(a: Seq<SimpleSpan>, b: Seq<SimpleSpan>, c: Seq<SimpleSpan>)
    requires
        is_canonical(a),
        is_canonical(b),
        is_canonical(c),
    ensures
        union_spec(union_spec(a, b), c) == union_spec(a, union_spec(b, c)),
{
    let ab = union_spec(a, b);
    let bc = union_spec(b, c);
    lemma_union_spec_canonical(a, b);
    lemma_union_spec_canonical(b, c);
    let l = union_spec(ab, c);
    let r = union_spec(a, bc);
    lemma_union_spec_canonical(ab, c);
    lemma_union_spec_canonical(a, bc);
    let zl = merge2(ab, c);
    let zr = merge2(a, bc);
    lemma_merge2_facts(ab, c);
    lemma_merge2_facts(a, bc);
    assert forall|y: int| covered_at(l, y) <==> covered_at(r, y) by {
        lemma_covered_at_i64(l, y);
        lemma_covered_at_i64(r, y);
        if i64::MIN <= y <= i64::MAX {
            let q = y as i64;
            lemma_canon_covers(zl);
            lemma_canon_covers(zr);
            lemma_covered_at_i64(zl, y);
            lemma_covered_at_i64(zr, y);
            lemma_union3_covered(a, b, c, y);
        }
    }
    assert forall|x: int| splits_at(l, x) <==> splits_at(r, x) by {
        lemma_canon_splits(zl, x);
        lemma_canon_splits(zr, x);
        lemma_union3_covered(a, b, c, x - 1);
        lemma_union3_covered(a, b, c, x);
        lemma_union3_crosses(a, b, c, x);
    }
    lemma_canonical_unique(l, r);
}

/// Union is commutative: merging in either order yields the same canonical
/// span set.
pub proof fn lemma_union_commutative(a: Seq<SimpleSpan>, b: Seq<SimpleSpan>)
    requires
        is_canonical(a),
        is_canonical(b),
    ensures
        union_spec(a, b) == union_spec(b, a),
{
    lemma_canonical_sorted(a);
    lemma_canonical_sorted(b);
    lemma_merge_from_sorted(a, b, 0, 0);
    lemma_merge_from_sorted(b, a, 0, 0);
    lemma_merge_from_mset(a, b, 0, 0);
    lemma_merge_from_mset(b, a, 0, 0);
    assert(suffix_mset(merge2(a, b), 0) =~= suffix_mset(merge2(b, a), 0));
    lemma_sorted_mset_unique(merge2(a, b), merge2(b, a));
}


fn lex_le_exec(a: SimpleSpan, b: SimpleSpan) -> (r: bool)
    ensures
        r == lex_le(a, b),
{
    a.start < b.start || (a.start == b.start && a.end <= b.end)
}

/// Merges two lexicographically sorted span vectors into one ascending vector.
pub(crate) fn merge_spans(a: &Vec<SimpleSpan>, b: &Vec<SimpleSpan>) -> (r: Vec<SimpleSpan>)
    ensures
        r@ == merge2(a@, b@),
{
    let mut out: Vec<SimpleSpan> = Vec::new();
    let mut i: usize = 0;
    let mut j: usize = 0;
    while i < a.len() || j < b.len()
        invariant
            0 <= i <= a@.len(),
            0 <= j <= b@.len(),
            merge2(a@, b@) == out@ + merge_from(a@, b@, i as int, j as int),
        decreases a@.len() - i + b@.len() - j,
    {
        let ghost out0 = out@;
        if j >= b.len() || (i < a.len() && lex_le_exec(a[i], b[j])) {
            out.push(a[i]);
            proof {
                assert(out0 + merge_from(a@, b@, i as int, j as int) =~= out@ + merge_from(
                    a@,
                    b@,
                    i as int + 1,
                    j as int,
                ));
            }
            i += 1;
        } else {
            out.push(b[j]);
            proof {
                assert(out0 + merge_from(a@, b@, i as int, j as int) =~= out@ + merge_from(
                    a@,
                    b@,
                    i as int,
                    j as int + 1,
                ));
            }
            j += 1;
        }
    }
    proof {
        assert(out@ + merge_from(a@, b@, i as int, j as int) =~= out@);
    }
    out
}


/// Coalesces the spans of `s[i..]` into one span per run of elided gaps:
/// `d[k]` tells whether the gap after `s[k]` is elided, and `cs` is the start
/// of the span being grown.
pub open spec fn crush_from(s: Seq<SimpleSpan>, d: Seq<bool>, i: int, cs: i64) -> Seq<SimpleSpan>
    decreases s.len() - i,
        when 0 <= i < s.len() && d.len() == s.len() - 1
{
    if i == s.len() - 1 {
        seq![SimpleSpan { start: cs, end: s[i].end }]
    } else if d[i] {
        crush_from(s, d, i + 1, cs)
    } else {
        seq![SimpleSpan { start: cs, end: s[i].end }] + crush_from(s, d, i + 1, s[i + 1].start)
    }
}

/// The gap-coalesced form of `s` under the decisions `d`: consecutive spans
/// whose gap decision is true are fused into one span.
pub open spec fn crush(s: Seq<SimpleSpan>, d: Seq<bool>) -> Seq<SimpleSpan> {
    if s.len() == 0 {
        Seq::empty()
    } else {
        crush_from(s, d, 0, s[0].start)
    }
}

/// Every decision in `d` is an answer the predicate can give for that gap:
/// `d[k]` for the gap between `s[k]` and `s[k + 1]`.
pub open spec fn decisions_ok<F: Fn(i64, i64) -> bool>(
    f: F,
    s: Seq<SimpleSpan>,
    d: Seq<bool>,
) -> bool {
    &&& if s.len() == 0 {
        d.len() == 0
    } else {
        d.len() + 1 == s.len()
    }
    &&& forall|k: int|
        0 <= k < d.len() ==> call_ensures(f, (s[k].end, s[k + 1].start), d[k])
}

proof fn lemma_crush_from_canonical(s: Seq<SimpleSpan>, d: Seq<bool>, i: int, cs: i64)
    requires
        is_canonical(s),
        d.len() + 1 == s.len(),
        0 <= i < s.len(),
        cs <= s[i].start,
    ensures
        is_canonical(crush_from(s, d, i, cs)),
        crush_from(s, d, i, cs).len() >= 1,
        crush_from(s, d, i, cs)[0].start == cs,
    decreases s.len() - i,
{
    let r = crush_from(s, d, i, cs);
    if i == s.len() - 1 {
        assert(r == seq![SimpleSpan { start: cs, end: s[i].end }]);
        assert(r[0] == SimpleSpan { start: cs, end: s[i].end });
    } else if d[i] {
        assert(s[i].start < s[i].end <= s[i + 1].start);
        lemma_crush_from_canonical(s, d, i + 1, cs);
    } else {
        assert(s[i].end <= s[i + 1].start);
        lemma_crush_from_canonical(s, d, i + 1, s[i + 1].start);
        let c = SimpleSpan { start: cs, end: s[i].end };
        let rest = crush_from(s, d, i + 1, s[i + 1].start);
        assert(r == seq![c] + rest);
        assert((seq![c] + rest).len() == 1 + rest.len());
        assert((seq![c] + rest)[0] == c);
        assert forall|k: int| 0 <= k < r.len() implies r[k].start < r[k].end by {
            if k > 0 {
                assert((seq![c] + rest)[k] == rest[k - 1]);
            }
        }
        assert forall|k: int| 0 <= k && k + 1 < r.len() implies r[k].end <= r[k + 1].start by {
            assert((seq![c] + rest)[k + 1] == rest[k]);
            if k > 0 {
                assert((seq![c] + rest)[k] == rest[k - 1]);
                assert(rest[k - 1].end <= rest[k].start);
            } else {
                assert(rest[0].start == s[i + 1].start);
            }
        }
    }
}

/// Gap filling keeps the span set canonical.
pub proof fn lemma_crush_canonical(s: Seq<SimpleSpan>, d: Seq<bool>)
    requires
        is_canonical(s),
        if s.len() == 0 {
            d.len() == 0
        } else {
            d.len() + 1 == s.len()
        },
    ensures
        is_canonical(crush(s, d)),
{
    if s.len() > 0 {
        lemma_crush_from_canonical(s, d, 0, s[0].start);
    }
}

/// With every gap kept, gap filling returns the input unchanged.
pub proof fn lemma_crush_none(s: Seq<SimpleSpan>, d: Seq<bool>)
    requires
        is_canonical(s),
        if s.len() == 0 {
            d.len() == 0
        } else {
            d.len() + 1 == s.len()
        },
        forall|k: int| 0 <= k < d.len() ==> !d[k],
    ensures
        crush(s, d) == s,
{
    if s.len() > 0 {
        lemma_crush_none_from(s, d, 0);
        assert(s.skip(0) =~= s);
    }
}

proof fn lemma_crush_none_from(s: Seq<SimpleSpan>, d: Seq<bool>, i: int)
    requires
        is_canonical(s),
        d.len() + 1 == s.len(),
        0 <= i < s.len(),
        forall|k: int| 0 <= k < d.len() ==> !d[k],
    ensures
        crush_from(s, d, i, s[i].start) == s.skip(i),
    decreases s.len() - i,
{
    if i == s.len() - 1 {
        assert(s[i] == SimpleSpan { start: s[i].start, end: s[i].end });
        assert(crush_from(s, d, i, s[i].start) =~= s.skip(i));
    } else {
        lemma_crush_none_from(s, d, i + 1);
        assert(s[i] == SimpleSpan { start: s[i].start, end: s[i].end });
        assert(seq![s[i]] + s.skip(i + 1) =~= s.skip(i));
    }
}

/// With every gap elided, gap filling returns the single span from the first
/// start to the last end.
pub proof fn lemma_crush_all(s: Seq<SimpleSpan>, d: Seq<bool>)
    requires
        s.len() > 0,
        d.len() + 1 == s.len(),
        forall|k: int| 0 <= k < d.len() ==> d[k],
    ensures
        crush(s, d) == seq![SimpleSpan { start: s[0].start, end: s[s.len() - 1].end }],
{
    lemma_crush_all_from(s, d, 0, s[0].start);
}

proof fn lemma_crush_all_from(s: Seq<SimpleSpan>, d: Seq<bool>, i: int, cs: i64)
    requires
        d.len() + 1 == s.len(),
        0 <= i < s.len(),
        forall|k: int| 0 <= k < d.len() ==> d[k],
    ensures
        crush_from(s, d, i, cs) == seq![SimpleSpan { start: cs, end: s[s.len() - 1].end }],
    decreases s.len() - i,
{
    if i < s.len() - 1 {
        lemma_crush_all_from(s, d, i + 1, cs);
    }
}


/// How many of the spans `s[i..]` cover the point `q`.
pub open spec fn cover_count(s: Seq<SimpleSpan>, i: int, q: i64) -> int
    decreases s.len() - i,
{
    if 0 <= i < s.len() {
        (if s[i].covers(q) {
            1int
        } else {
            0int
        }) + cover_count(s, i + 1, q)
    } else {
        0
    }
}

/// How many of `s[i..]` equal the span `x`.
pub open spec fn occ_count(s: Seq<SimpleSpan>, i: int, x: SimpleSpan) -> int
    decreases s.len() - i,
{
    if 0 <= i < s.len() {
        (if s[i] == x {
            1int
        } else {
            0int
        }) + occ_count(s, i + 1, x)
    } else {
        0
    }
}

pub(crate) proof fn lemma_cover_count_split(s: Seq<SimpleSpan>, p: int, i: int, q: i64)
    requires
        0 <= i <= p <= s.len(),
    ensures
        cover_count(s, i, q) == cover_count(s.take(p), i, q) + cover_count(s, p, q),
    decreases p - i,
{
    if i < p {
        lemma_cover_count_split(s, p, i + 1, q);
        assert(s.take(p)[i] == s[i]);
    }
}

pub(crate) proof fn lemma_cover_count_push(s: Seq<SimpleSpan>, x: SimpleSpan, i: int, q: i64)
    requires
        0 <= i <= s.len(),
    ensures
        cover_count(s.push(x), i, q) == cover_count(s, i, q) + (if x.covers(q) {
            1int
        } else {
            0int
        }),
    decreases s.len() - i,
{
    if i < s.len() {
        lemma_cover_count_push(s, x, i + 1, q);
        assert(s.push(x)[i] == s[i]);
    } else {
        assert(s.push(x)[i] == x);
        assert(cover_count(s.push(x), i + 1, q) == 0);
    }
}

pub(crate) proof fn lemma_cover_count_insert(s: Seq<SimpleSpan>, at: int, x: SimpleSpan, i: int, q: i64)
    requires
        0 <= i <= at <= s.len(),
    ensures
        cover_count(s.insert(at, x), i, q) == cover_count(s, i, q) + (if x.covers(q) {
            1int
        } else {
            0int
        }),
    decreases at - i,
{
    if i < at {
        lemma_cover_count_insert(s, at, x, i + 1, q);
        assert(s.insert(at, x)[i] == s[i]);
    } else {
        assert(s.insert(at, x)[at] == x);
        lemma_cover_count_tail_shift(s, at, x, at, q);
    }
}

proof fn lemma_cover_count_tail_shift(s: Seq<SimpleSpan>, at: int, x: SimpleSpan, k: int, q: i64)
    requires
        0 <= at <= s.len(),
        at <= k <= s.len(),
    ensures
        cover_count(s.insert(at, x), k + 1, q) == cover_count(s, k, q),
    decreases s.len() - k,
{
    if k < s.len() {
        lemma_cover_count_tail_shift(s, at, x, k + 1, q);
        assert(s.insert(at, x)[k + 1] == s[k]);
    }
}

pub(crate) proof fn lemma_cover_count_drop_last(s: Seq<SimpleSpan>, q: i64)
    requires
        s.len() > 0,
    ensures
        cover_count(s, 0, q) == cover_count(s.drop_last(), 0, q) + (if s.last().covers(q) {
            1int
        } else {
            0int
        }),
{
    assert(s == s.drop_last().push(s.last()));
    lemma_cover_count_push(s.drop_last(), s.last(), 0, q);
}

pub(crate) proof fn lemma_cover_count_none(s: Seq<SimpleSpan>, i: int, q: i64)
    requires
        0 <= i <= s.len(),
        forall|j: int| i <= j < s.len() ==> !(#[trigger] s[j]).covers(q),
    ensures
        cover_count(s, i, q) == 0,
    decreases s.len() - i,
{
    if i < s.len() {
        lemma_cover_count_none(s, i + 1, q);
    }
}

pub(crate) proof fn lemma_cover_count_all_except(s: Seq<SimpleSpan>, except: int, i: int, q: i64)
    requires
        0 <= i <= s.len(),
        forall|j: int| 0 <= j < s.len() && j != except ==> (#[trigger] s[j]).covers(q),
        0 <= except < s.len() ==> !s[except].covers(q),
    ensures
        cover_count(s, i, q) == s.len() - i - (if i <= except < s.len() {
            1int
        } else {
            0int
        }),
    decreases s.len() - i,
{
    if i < s.len() {
        lemma_cover_count_all_except(s, except, i + 1, q);
    }
}

pub(crate) proof fn lemma_occ_count_split(s: Seq<SimpleSpan>, p: int, i: int, x: SimpleSpan)
    requires
        0 <= i <= p <= s.len(),
    ensures
        occ_count(s, i, x) == occ_count(s.take(p), i, x) + occ_count(s, p, x),
    decreases p - i,
{
    if i < p {
        lemma_occ_count_split(s, p, i + 1, x);
        assert(s.take(p)[i] == s[i]);
    }
}

pub(crate) proof fn lemma_occ_count_push(s: Seq<SimpleSpan>, y: SimpleSpan, i: int, x: SimpleSpan)
    requires
        0 <= i <= s.len(),
    ensures
        occ_count(s.push(y), i, x) == occ_count(s, i, x) + (if y == x {
            1int
        } else {
            0int
        }),
    decreases s.len() - i,
{
    if i < s.len() {
        lemma_occ_count_push(s, y, i + 1, x);
        assert(s.push(y)[i] == s[i]);
    } else {
        assert(s.push(y)[i] == y);
        assert(occ_count(s.push(y), i + 1, x) == 0);
    }
}

pub(crate) proof fn lemma_occ_count_insert(s: Seq<SimpleSpan>, at: int, y: SimpleSpan, i: int, x: SimpleSpan)
    requires
        0 <= i <= at <= s.len(),
    ensures
        occ_count(s.insert(at, y), i, x) == occ_count(s, i, x) + (if y == x {
            1int
        } else {
            0int
        }),
    decreases at - i,
{
    if i < at {
        lemma_occ_count_insert(s, at, y, i + 1, x);
        assert(s.insert(at, y)[i] == s[i]);
    } else {
        assert(s.insert(at, y)[at] == y);
        lemma_occ_count_tail_shift(s, at, y, at, x);
    }
}

proof fn lemma_occ_count_tail_shift(s: Seq<SimpleSpan>, at: int, y: SimpleSpan, k: int, x: SimpleSpan)
    requires
        0 <= at <= s.len(),
        at <= k <= s.len(),
    ensures
        occ_count(s.insert(at, y), k + 1, x) == occ_count(s, k, x),
    decreases s.len() - k,
{
    if k < s.len() {
        lemma_occ_count_tail_shift(s, at, y, k + 1, x);
        assert(s.insert(at, y)[k + 1] == s[k]);
    }
}

pub(crate) proof fn lemma_occ_count_drop_last(s: Seq<SimpleSpan>, x: SimpleSpan)
    requires
        s.len() > 0,
    ensures
        occ_count(s, 0, x) == occ_count(s.drop_last(), 0, x) + (if s.last() == x {
            1int
        } else {
            0int
        }),
{
    assert(s == s.drop_last().push(s.last()));
    lemma_occ_count_push(s.drop_last(), s.last(), 0, x);
}

pub(crate) proof fn lemma_occ_count_positive(s: Seq<SimpleSpan>, i: int, x: SimpleSpan)
    requires
        0 <= i <= s.len(),
    ensures
        occ_count(s, i, x) > 0 <==> exists|j: int| i <= j < s.len() && s[j] == x,
        occ_count(s, i, x) >= 0,
    decreases s.len() - i,
{
    if i < s.len() {
        lemma_occ_count_positive(s, i + 1, x);
        if exists|j: int| i <= j < s.len() && s[j] == x {
            let j = choose|j: int| i <= j < s.len() && s[j] == x;
            if j > i {
                assert(exists|j2: int| i + 1 <= j2 < s.len() && s[j2] == x);
            }
        }
        if exists|j: int| i + 1 <= j < s.len() && s[j] == x {
            let j = choose|j: int| i + 1 <= j < s.len() && s[j] == x;
            assert(i <= j < s.len() && s[j] == x);
        }
    }
}

/// In a canonical sequence, at most one span covers any point: the covering
/// count is the covering indicator.
pub(crate) proof fn lemma_canonical_cover_count(c: Seq<SimpleSpan>, i: int, q: i64)
    requires
        is_canonical(c),
        0 <= i <= c.len(),
    ensures
        cover_count(c, i, q) == (if exists|j: int| i <= j < c.len() && (#[trigger] c[j]).covers(q) {
            1int
        } else {
            0int
        }),
    decreases c.len() - i,
{
    if i < c.len() {
        lemma_canonical_cover_count(c, i + 1, q);
        if c[i].covers(q) {
            assert forall|j: int| i + 1 <= j < c.len() implies !(#[trigger] c[j]).covers(q) by {
                lemma_canonical_ends_ascend(c, i, j);
            }
            lemma_cover_count_none(c, i + 1, q);
            assert(exists|j: int| i <= j < c.len() && (#[trigger] c[j]).covers(q));
        } else {
            if exists|j: int| i <= j < c.len() && (#[trigger] c[j]).covers(q) {
                let j = choose|j: int| i <= j < c.len() && (#[trigger] c[j]).covers(q);
                assert(exists|j2: int| i + 1 <= j2 < c.len() && (#[trigger] c[j2]).covers(q));
            }
            if exists|j: int| i + 1 <= j < c.len() && (#[trigger] c[j]).covers(q) {
                let j = choose|j: int| i + 1 <= j < c.len() && (#[trigger] c[j]).covers(q);
                assert(i <= j < c.len() && c[j].covers(q));
            }
        }
    }
}

/// Merging preserves the per-point covering count: the merge of two suffixes
/// covers a point as often as the two suffixes together.
pub(crate) proof fn lemma_merge_from_cover_count(
    a: Seq<SimpleSpan>,
    b: Seq<SimpleSpan>,
    i: int,
    j: int,
    q: i64,
)
    requires
        0 <= i <= a.len(),
        0 <= j <= b.len(),
    ensures
        cover_count(merge_from(a, b, i, j), 0, q) == cover_count(a, i, q) + cover_count(b, j, q),
    decreases a.len() - i + b.len() - j,
{
    let r = merge_from(a, b, i, j);
    if i < a.len() && (j >= b.len() || lex_le(a[i], b[j])) {
        lemma_merge_from_cover_count(a, b, i + 1, j, q);
        let rest = merge_from(a, b, i + 1, j);
        assert(r == seq![a[i]] + rest);
        lemma_cover_count_cons(a[i], rest, q);
    } else if j < b.len() {
        lemma_merge_from_cover_count(a, b, i, j + 1, q);
        let rest = merge_from(a, b, i, j + 1);
        assert(r == seq![b[j]] + rest);
        lemma_cover_count_cons(b[j], rest, q);
    }
}

proof fn lemma_cover_count_cons(x: SimpleSpan, rest: Seq<SimpleSpan>, q: i64)
    ensures
        cover_count(seq![x] + rest, 0, q) == (if x.covers(q) {
            1int
        } else {
            0int
        }) + cover_count(rest, 0, q),
{
    assert((seq![x] + rest).len() == 1 + rest.len());
    assert((seq![x] + rest)[0] == x);
    lemma_cover_count_cons_shift(x, rest, 0, q);
}

proof fn lemma_cover_count_cons_shift(x: SimpleSpan, rest: Seq<SimpleSpan>, k: int, q: i64)
    requires
        0 <= k <= rest.len(),
    ensures
        cover_count(seq![x] + rest, k + 1, q) == cover_count(rest, k, q),
    decreases rest.len() - k,
{
    assert((seq![x] + rest).len() == 1 + rest.len());
    if k < rest.len() {
        lemma_cover_count_cons_shift(x, rest, k + 1, q);
        assert((seq![x] + rest)[k + 1] == rest[k]);
    }
}

pub(crate) proof fn lemma_cover_count_bounds(s: Seq<SimpleSpan>, i: int, q: i64)
    requires
        0 <= i <= s.len(),
    ensures
        0 <= cover_count(s, i, q) <= s.len() - i,
    decreases s.len() - i,
{
    if i < s.len() {
        lemma_cover_count_bounds(s, i + 1, q);
    }
}

/// A canonical sequence covering no point at all is empty.
pub proof fn lemma_canonical_uncovered_empty(s: Seq<SimpleSpan>)
    requires
        is_canonical(s),
        forall|q: i64| !covers_seq(s, q),
    ensures
        s.len() == 0,
{
    if s.len() > 0 {
        assert(s[0].covers(s[0].start));
        assert(covers_seq(s, s[0].start));
    }
}

/// The container: a canonical, ascending, pairwise-disjoint set of spans.
#[derive(Debug)]
pub struct VecSpet {
    spans: Vec<SimpleSpan>,
}

impl View for VecSpet {
    type V = Seq<SimpleSpan>;

    closed spec fn view(&self) -> Seq<SimpleSpan> {
        self.spans@
    }
}

impl Clone for VecSpet {
    fn clone(&self) -> (r: VecSpet)
        ensures
            r@ == self@,
    {
        let mut spans: Vec<SimpleSpan> = Vec::new();
        let mut i: usize = 0;
        while i < self.spans.len()
            invariant
                0 <= i <= self.spans@.len(),
                spans@ == self.spans@.take(i as int),
            decreases self.spans@.len() - i,
        {
            let ghost s0 = spans@;
            spans.push(self.spans[i]);
            proof {
                assert(s0.push(self.spans@[i as int]) =~= self.spans@.take(i as int + 1));
            }
            i += 1;
        }
        proof {
            assert(self.spans@.take(i as int) =~= self.spans@);
        }
        VecSpet { spans }
    }
}

impl PartialEq for VecSpet {
    fn eq(&self, other: &VecSpet) -> (r: bool) {
        if self.spans.len() != other.spans.len() {
            return false;
        }
        let mut i: usize = 0;
        while i < self.spans.len()
            invariant
                0 <= i <= self.spans@.len(),
                self.spans@.len() == other.spans@.len(),
                forall|j: int| 0 <= j < i ==> self.spans@[j] == other.spans@[j],
            decreases self.spans@.len() - i,
        {
            if self.spans[i] != other.spans[i] {
                return false;
            }
            i += 1;
        }
        proof {
            assert(self.spans@ =~= other.spans@);
        }
        true
    }
}

impl Eq for VecSpet {

}

impl vstd::std_specs::cmp::PartialEqSpecImpl for VecSpet {
    open spec fn obeys_eq_spec() -> bool {
        true
    }

    open spec fn eq_spec(&self, other: &VecSpet) -> bool {
        self@ == other@
    }
}

/// Canonicalizes a start-sorted span sequence by the left-to-right sweep that
/// `canon` describes.
fn canonicalize(v: &Vec<SimpleSpan>) -> (r: Vec<SimpleSpan>)
    requires
        sorted_by_start(v@),
        all_wf(v@),
    ensures
        r@ == canon(v@),
{
    let mut out: Vec<SimpleSpan> = Vec::new();
    if v.len() == 0 {
        return out;
    }
    let mut cs: i64 = v[0].start;
    let mut ce: i64 = v[0].end;
    let mut i: usize = 1;
    while i < v.len()
        invariant
            1 <= i <= v@.len(),
            sorted_by_start(v@),
            all_wf(v@),
            cs <= ce,
            forall|j: int| i <= j < v@.len() ==> cs <= v@[j].start,
            canon(v@) == out@ + canon_from(v@, i as int, cs, ce),
        decreases v@.len() - i,
    {
        let ghost out0 = out@;
        let ghost cs0 = cs;
        let ghost ce0 = ce;
        let sp = v[i];
        if sp.start >= ce {
            if cs < ce {
                out.push(SimpleSpan { start: cs, end: ce });
                proof {
                    assert(out0 + canon_from(v@, i as int, cs0, ce0) =~= out@ + canon_from(
                        v@,
                        i as int + 1,
                        sp.start,
                        sp.end,
                    ));
                }
            }
            cs = sp.start;
            ce = sp.end;
        } else if sp.end > ce {
            ce = sp.end;
        }
        i += 1;
    }
    if cs < ce {
        let ghost out0 = out@;
        out.push(SimpleSpan { start: cs, end: ce });
        proof {
            assert(out0 + canon_from(v@, i as int, cs, ce) =~= out@);
        }
    } else {
        proof {
            assert(out@ + canon_from(v@, i as int, cs, ce) =~= out@);
        }
    }
    out
}

impl VecSpet {
    /// The container invariant: the held spans are canonical.
    pub open spec fn wf(self) -> bool {
        is_canonical(self@)
    }

    /// The set of points the span set covers.
    pub open spec fn covers(self, q: i64) -> bool {
        covers_seq(self@, q)
    }

    /// Builds the canonical span set covering the same points as the given
    /// start-sorted spans; overlapping and duplicate spans are coalesced.
    pub fn from_sorted_iter(spans: &Vec<SimpleSpan>) -> (r: VecSpet)
        requires
            sorted_by_start(spans@),
            all_wf(spans@),
        ensures
            r.wf(),
            r@ == canon(spans@),
            forall|q: i64| r.covers(q) <==> covers_seq(spans@, q),
            is_canonical(spans@) ==> r@ == spans@,
    {
        proof {
            lemma_canon_canonical(spans@);
            lemma_canon_covers(spans@);
            if is_canonical(spans@) {
                lemma_canon_fixed(spans@);
            }
        }
        VecSpet { spans: canonicalize(spans) }
    }


    /// The union of two span sets: the canonical set covering every point
    /// covered by either input.
    #[verifier::rlimit(30)]
    pub fn union(&self, other: &VecSpet) -> (r: VecSpet)
        requires
            self.wf(),
            other.wf(),
        ensures
            r.wf(),
            r@ == union_spec(self@, other@),
            forall|q: i64| r.covers(q) <==> (self.covers(q) || other.covers(q)),
    {
        let merged = merge_spans(&self.spans, &other.spans);
        proof {
            lemma_canonical_sorted(self@);
            lemma_canonical_sorted(other@);
            lemma_merge_from_sorted(self@, other@, 0, 0);
            assert forall|k1: int, k2: int| 0 <= k1 < k2 < merged@.len() implies merged@[k1].start
                <= merged@[k2].start by {
                assert(lex_le(merged@[k1], merged@[k2]));
            }
            assert forall|k: int| 0 <= k < merged@.len() implies merged@[k].wf() by {
                assert((exists|m: int|
                    0 <= m < self@.len() && #[trigger] merge_from(self@, other@, 0, 0)[k]
                        == self@[m]) || (exists|m: int|
                    0 <= m < other@.len() && merge_from(self@, other@, 0, 0)[k] == other@[m]));
            }
            lemma_canon_canonical(merged@);
            assert forall|q: i64|
                covers_seq(canon(merged@), q) <==> (covers_seq(self@, q) || covers_seq(
                    other@,
                    q,
                )) by {
                lemma_canon_covers(merged@);
                lemma_merge_from_covers(self@, other@, 0, 0, q);
            }
        }
        VecSpet { spans: canonicalize(&merged) }
    }

    /// The points covered by both span sets: overlap thresholding with a
    /// requirement of two sources, over exactly these two sets.
    pub fn intersection(&self, other: &VecSpet) -> (r: VecSpet)
        requires
            self.wf(),
            other.wf(),
        ensures
            r.wf(),
            forall|q: i64| r.covers(q) <==> (self.covers(q) && other.covers(q)),
    {
        let mut spets: Vec<VecSpet> = Vec::new();
        spets.push(self.clone());
        spets.push(other.clone());
        proof {
            assert forall|k: int| 0 <= k < spets@.len() implies (#[trigger] spets@[k]).wf() by {
                if k == 0 {
                    assert(spets@[0]@ == self@);
                } else {
                    assert(spets@[1]@ == other@);
                }
            }
        }
        let r = crate::overlapping::n_overlapping(2, &spets);
        proof {
            assert forall|q: i64| r.covers(q) <==> (self.covers(q) && other.covers(q)) by {
                assert(crate::overlapping::sets_covering(spets@, 2, q) == 0);
                assert(crate::overlapping::sets_covering(spets@, 1, q) == (if covers_seq(
                    spets@[1]@,
                    q,
                ) {
                    1int
                } else {
                    0int
                }) + crate::overlapping::sets_covering(spets@, 2, q));
                assert(crate::overlapping::sets_covering(spets@, 0, q) == (if covers_seq(
                    spets@[0]@,
                    q,
                ) {
                    1int
                } else {
                    0int
                }) + crate::overlapping::sets_covering(spets@, 1, q));
                assert(spets@[0]@ == self@ && spets@[1]@ == other@);
            }
        }
        r
    }


    /// Walks the gaps between consecutive spans and fuses the spans around
    /// every gap that `should_crush` elides, given the gap's bounding end and
    /// start values; elision joins transitively across several gaps.
    pub fn filter_gaps<F: Fn(i64, i64) -> bool>(&self, should_crush: F) -> (r: VecSpet)
        requires
            self.wf(),
            forall|k: int|
                0 <= k && k + 1 < self@.len() ==> call_requires(
                    should_crush,
                    (#[trigger] self@[k].end, self@[k + 1].start),
                ),
        ensures
            r.wf(),
            exists|d: Seq<bool>|
                #[trigger] decisions_ok(should_crush, self@, d) && r@ == crush(self@, d),
    {
        let mut result: Vec<SimpleSpan> = Vec::new();
        if self.spans.len() == 0 {
            proof {
                let d = Seq::<bool>::empty();
                assert(decisions_ok(should_crush, self@, d) && crush(self@, d) =~= result@);
            }
            return VecSpet { spans: result };
        }
        let ghost mut d: Seq<bool> = Seq::empty();
        let mut pending_start: i64 = self.spans[0].start;
        let mut i: usize = 0;
        let n = self.spans.len();
        while i + 1 < n
            invariant
                self.wf(),
                forall|k: int|
                    0 <= k && k + 1 < self.spans@.len() ==> call_requires(
                        should_crush,
                        (#[trigger] self.spans@[k].end, self.spans@[k + 1].start),
                    ),
                n == self.spans@.len(),
                n >= 1,
                0 <= i <= n - 1,
                d.len() == i,
                pending_start <= self.spans@[i as int].start,
                forall|k: int|
                    0 <= k < i ==> call_ensures(
                        should_crush,
                        (self.spans@[k].end, self.spans@[k + 1].start),
                        d[k],
                    ),
                forall|d2: Seq<bool>|
                    (d2.len() == n - 1 && d2.subrange(0, i as int) == d) ==> #[trigger] crush(
                        self.spans@,
                        d2,
                    ) == result@ + crush_from(self.spans@, d2, i as int, pending_start),
            decreases n - 1 - i,
        {
            let c = should_crush(self.spans[i].end, self.spans[i + 1].start);
            let ghost d0 = d;
            let ghost ps0 = pending_start;
            let ghost r0 = result@;
            proof {
                d = d.push(c);
            }
            if !c {
                result.push(SimpleSpan::new(pending_start, self.spans[i].end));
                pending_start = self.spans[i + 1].start;
            }
            i += 1;
            proof {
                assert(self.spans@[i as int - 1].start < self.spans@[i as int].start);
                assert forall|d2: Seq<bool>|
                    (d2.len() == n - 1 && d2.subrange(0, i as int) == d) implies #[trigger] crush(
                    self.spans@,
                    d2,
                ) == result@ + crush_from(self.spans@, d2, i as int, pending_start) by {
                    assert(d2.subrange(0, i as int - 1) =~= d2.subrange(0, i as int).subrange(
                        0,
                        i as int - 1,
                    ));
                    assert(d.subrange(0, i as int - 1) =~= d0);
                    assert(d2.subrange(0, i as int - 1) == d0);
                    assert(d2[i as int - 1] == d2.subrange(0, i as int)[i as int - 1]);
                    assert(d2[i as int - 1] == c);
                    assert(crush(self.spans@, d2) == r0 + crush_from(
                        self.spans@,
                        d2,
                        i as int - 1,
                        ps0,
                    ));
                    if !c {
                        let cspan = SimpleSpan { start: ps0, end: self.spans@[i as int - 1].end };
                        assert(crush_from(self.spans@, d2, i as int - 1, ps0) == seq![cspan]
                            + crush_from(self.spans@, d2, i as int, pending_start));
                        assert(r0 + (seq![cspan] + crush_from(
                            self.spans@,
                            d2,
                            i as int,
                            pending_start,
                        )) =~= result@ + crush_from(self.spans@, d2, i as int, pending_start));
                    }
                }
            }
        }
        let ghost r0 = result@;
        result.push(SimpleSpan::new(pending_start, self.spans[n - 1].end));
        proof {
            assert(d.subrange(0, i as int) =~= d);
            assert(crush(self.spans@, d) == r0 + crush_from(self.spans@, d, i as int, pending_start));
            assert(crush_from(self.spans@, d, i as int, pending_start) == seq![SimpleSpan {
                start: pending_start,
                end: self.spans@[n - 1].end,
            }]);
            assert(r0 + crush_from(self.spans@, d, i as int, pending_start) =~= result@);
            assert(decisions_ok(should_crush, self@, d));
            lemma_crush_canonical(self@, d);
        }
        VecSpet { spans: result }
    }

    /// Whether the set covers no points.
    pub fn is_empty(&self) -> (r: bool)
        ensures
            r == (self@.len() == 0),
    {
        self.spans.len() == 0
    }

    /// The contained spans, in ascending order.
    pub fn spans(&self) -> (r: &Vec<SimpleSpan>)
        ensures
            r@ == self@,
    {
        &self.spans
    }
}

} // verus!
