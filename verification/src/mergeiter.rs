use vstd::prelude::*;

verus! {

/// The values are in ascending order.
pub open spec fn ascending(s: Seq<i64>) -> bool {
    forall|i: int, j: int| 0 <= i < j < s.len() ==> s[i] <= s[j]
}

/// Chains several ascending sources of values into one ascending stream:
/// every pull compares the sources' current heads and hands out the least.
/// The relative order of equal values from different sources is unspecified.
pub struct SortedChain {
    sources: Vec<Vec<i64>>,
    idxs: Vec<usize>,
    last: Ghost<i64>,
}

impl SortedChain {
    /// The chain invariant: one cursor per source, each within bounds, each
    /// source ascending, and every value still to come at or past the value
    /// handed out last.
    pub closed spec fn wf(self) -> bool {
        &&& self.idxs@.len() == self.sources@.len()
        &&& forall|k: int| 0 <= k < self.sources@.len() ==> ascending(#[trigger] self.sources@[k]@)
        &&& forall|k: int|
            0 <= k < self.idxs@.len() ==> #[trigger] self.idxs@[k] as int <= self.sources@[k]@.len()
        &&& forall|k: int|
            0 <= k < self.idxs@.len() && (self.idxs@[k] as int) < self.sources@[k]@.len()
                ==> self.last@ <= #[trigger] self.sources@[k]@[self.idxs@[k] as int]
    }

    /// Every source is used up.
    pub closed spec fn exhausted(self) -> bool {
        forall|k: int|
            0 <= k < self.idxs@.len() ==> #[trigger] self.idxs@[k] as int
                == self.sources@[k]@.len()
    }

    /// Whether source `k` still holds a value to hand out.
    pub closed spec fn has_head(self, k: int) -> bool {
        0 <= k < self.sources@.len() && (self.idxs@[k] as int) < self.sources@[k]@.len()
    }

    /// The next value source `k` would hand out.
    pub closed spec fn head(self, k: int) -> i64 {
        self.sources@[k]@[self.idxs@[k] as int]
    }

    /// The value handed out last.
    pub closed spec fn last_value(self) -> i64 {
        self.last@
    }

    /// The sources the chain draws from, as sequences.
    pub closed spec fn sources_view(self) -> Seq<Seq<i64>> {
        self.sources@.map_values(|v: Vec<i64>| v@)
    }

    /// The cursors: how many values each source has already handed out.
    pub closed spec fn cursors(self) -> Seq<usize> {
        self.idxs@
    }

    /// Hands out the least value any source still holds, or `None` once every
    /// source is used up; over successive calls the values ascend. Exactly the
    /// source that supplied the value advances, by exactly one item.
    pub fn next(&mut self) -> (r: Option<i64>)
        requires
            old(self).wf(),
        ensures
            final(self).wf(),
            final(self).sources_view() == old(self).sources_view(),
            r is None ==> *final(self) == *old(self) && old(self).exhausted(),
            r matches Some(v) ==> {
                &&& old(self).last_value() <= v
                &&& final(self).last_value() == v
                &&& exists|k: int|
                    old(self).has_head(k) && old(self).head(k) == v && final(self).cursors()
                        == old(self).cursors().update(k, (old(self).cursors()[k] + 1) as usize)
                &&& forall|k: int| old(self).has_head(k) ==> v <= old(self).head(k)
            },
    {
        let m = self.sources.len();
        let mut best: usize = m;
        let mut k: usize = 0;
        while k < m
            invariant
                *self == *old(self),
                old(self).wf(),
                m == self.sources@.len(),
                0 <= k <= m,
                best == m || best < k,
                best == m ==> forall|k2: int| 0 <= k2 < k ==> !self.has_head(k2),
                best < m ==> self.has_head(best as int) && (forall|k2: int|
                    0 <= k2 < k && self.has_head(k2) ==> self.head(best as int) <= self.head(k2)),
            decreases m - k,
        {
            if self.idxs[k] < self.sources[k].len() {
                if best == m || self.sources[k][self.idxs[k]]
                    < self.sources[best][self.idxs[best]] {
                    best = k;
                }
            }
            k += 1;
        }
        if best == m {
            proof {
                assert forall|k2: int| 0 <= k2 < self.idxs@.len() implies #[trigger] self.idxs@[k2]
                    as int == self.sources@[k2]@.len() by {
                    assert(!self.has_head(k2));
                }
                assert(old(self).exhausted());
            }
            None
        } else {
            let cur = self.idxs[best];
            let slen = self.sources[best].len();
            assert(cur < slen);
            let v = self.sources[best][cur];
            let ghost pre = *self;
            self.idxs[best] = cur + 1;
            proof {
                self.last@ = v;
                assert(self.idxs@ == pre.idxs@.update(best as int, (cur + 1) as usize));
                assert forall|k2: int|
                    0 <= k2 < self.idxs@.len() && (self.idxs@[k2] as int)
                        < self.sources@[k2]@.len() implies self.last@
                    <= #[trigger] self.sources@[k2]@[self.idxs@[k2] as int] by {
                    if k2 == best as int {
                        assert(ascending(self.sources@[k2]@));
                        assert(self.sources@[k2]@[cur as int]
                            <= self.sources@[k2]@[cur as int + 1]);
                    } else {
                        assert(self.idxs@[k2] == pre.idxs@[k2]);
                        assert(pre.has_head(k2));
                        assert(v <= pre.head(k2));
                    }
                }
            }
            Some(v)
        }
    }
}

/// Builds the chain over the given ascending sources, taking them whole:
/// the chain holds exactly the given sources, with every cursor at the start,
/// so it will hand out precisely their contents, merged in ascending order.
pub fn sorted_chain(containers: Vec<Vec<i64>>) -> (r: SortedChain)
    requires
        forall|k: int| 0 <= k < containers@.len() ==> ascending(#[trigger] containers@[k]@),
    ensures
        r.wf(),
        r.sources_view() == containers@.map_values(|v: Vec<i64>| v@),
        r.cursors().len() == containers@.len(),
        forall|k: int| 0 <= k < containers@.len() ==> #[trigger] r.cursors()[k] == 0,
{
    let m = containers.len();
    let mut idxs: Vec<usize> = Vec::new();
    let mut k: usize = 0;
    while k < m
        invariant
            0 <= k <= m,
            idxs@.len() == k,
            forall|j: int| 0 <= j < k ==> #[trigger] idxs@[j] == 0,
        decreases m - k,
    {
        idxs.push(0);
        k += 1;
    }
    SortedChain { sources: containers, idxs, last: Ghost(i64::MIN) }
}

} // verus!
