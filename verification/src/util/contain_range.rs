use std::collections::HashMap;
use std::ops::Range;
use vstd::prelude::*;

verus! {

broadcast use {vstd::std_specs::hash::group_hash_axioms, vstd::seq_lib::group_to_multiset_ensures};

/// How many times `v` was added to `adds` more than it was taken out by `dels`.
pub open spec fn net(adds: Seq<usize>, dels: Map<usize, usize>, v: usize) -> int {
    adds.to_multiset().count(v) - (if dels.contains_key(v) {
        dels[v] as int
    } else {
        0
    })
}

/// `v` is the least value whose count is positive.
pub open spec fn is_lowest_live(m: Map<usize, int>, v: usize) -> bool {
    m[v] > 0 && forall|u: usize| m[u] > 0 ==> v <= u
}

/// `v` is the greatest value whose count is positive.
pub open spec fn is_highest_live(m: Map<usize, int>, v: usize) -> bool {
    m[v] > 0 && forall|u: usize| m[u] > 0 ==> u <= v
}

/// Some value has a positive count.
pub open spec fn any_live(m: Map<usize, int>) -> bool {
    exists|u: usize| m[u] > 0
}

/// The counts after one more `v`.
pub open spec fn bumped(m: Map<usize, int>, v: usize, by: int) -> Map<usize, int> {
    m.insert(v, m[v] + by)
}

/// The range that covers every range added and not yet removed.
///
/// Removals are lazy: a removed bound stays stored until it would be the answer.
#[derive(Clone)]
pub struct ContainRange {
    mins: Vec<usize>,
    maxs: Vec<usize>,
    del_mins: HashMap<usize, usize>,
    del_maxs: HashMap<usize, usize>,
}

impl View for ContainRange {
    /// For each value, the number of live ranges that start at it and that end at it.
    type V = (Map<usize, int>, Map<usize, int>);

    closed spec fn view(&self) -> Self::V {
        (
            Map::new(|v: usize| true, |v: usize| net(self.mins@, self.del_mins@, v)),
            Map::new(|v: usize| true, |v: usize| net(self.maxs@, self.del_maxs@, v)),
        )
    }
}

/// The count of each value in `d`, 0 where it has none.
pub open spec fn counts(d: Map<usize, usize>) -> Map<usize, nat> {
    Map::new(|v: usize| true, |v: usize| if d.contains_key(v) { d[v] as nat } else { 0nat })
}

/// Every value has the count 0.
pub open spec fn all_zero(m: Map<usize, nat>) -> bool {
    forall|v: usize| m.contains_key(v) && m[v] == 0
}

/// Every value has a count no higher than in `m0`.
pub open spec fn no_higher(m: Map<usize, nat>, m0: Map<usize, nat>) -> bool {
    forall|v: usize| #[trigger] m[v] <= m0[v]
}

impl ContainRange {
    /// For each value, how many removals of a start at it still wait to be matched.
    pub closed spec fn pending_starts(&self) -> Map<usize, nat> {
        counts(self.del_mins@)
    }

    /// For each value, how many removals of an end at it still wait to be matched.
    pub closed spec fn pending_ends(&self) -> Map<usize, nat> {
        counts(self.del_maxs@)
    }
}

impl Default for ContainRange {
    fn default() -> (r: Self)
        ensures
            r@.0 == Map::new(|v: usize| true, |v: usize| 0int),
            r@.1 == Map::new(|v: usize| true, |v: usize| 0int),
            all_zero(r.pending_starts()),
            all_zero(r.pending_ends()),
    {
        Self::new()
    }
}

/// The index and value of the least element of `v`.
fn min_at(v: &Vec<usize>) -> (r: (usize, usize))
    requires
        v@.len() > 0,
    ensures
        r.0 < v@.len(),
        v@[r.0 as int] == r.1,
        forall|k: int| 0 <= k < v@.len() ==> r.1 <= v@[k],
{
    let mut best: usize = 0;
    let mut k: usize = 1;
    while k < v.len()
        invariant
            1 <= k <= v@.len(),
            best < v@.len(),
            forall|j: int| 0 <= j < k ==> v@[best as int] <= v@[j],
        decreases v@.len() - k,
    {
        if v[k] < v[best] {
            best = k;
        }
        k = k + 1;
    }
    (best, v[best])
}

/// The index and value of the greatest element of `v`.
fn max_at(v: &Vec<usize>) -> (r: (usize, usize))
    requires
        v@.len() > 0,
    ensures
        r.0 < v@.len(),
        v@[r.0 as int] == r.1,
        forall|k: int| 0 <= k < v@.len() ==> v@[k] <= r.1,
{
    let mut best: usize = 0;
    let mut k: usize = 1;
    while k < v.len()
        invariant
            1 <= k <= v@.len(),
            best < v@.len(),
            forall|j: int| 0 <= j < k ==> v@[j] <= v@[best as int],
        decreases v@.len() - k,
    {
        if v[k] > v[best] {
            best = k;
        }
        k = k + 1;
    }
    (best, v[best])
}

proof fn lemma_in_seq(s: Seq<usize>, v: usize)
    requires
        s.to_multiset().count(v) > 0,
    ensures
        exists|k: int| 0 <= k < s.len() && s[k] == v,
{
    assert(s.contains(v));
}

impl ContainRange {
    pub fn new() -> (r: Self)
        ensures
            r@.0 == Map::new(|v: usize| true, |v: usize| 0int),
            r@.1 == Map::new(|v: usize| true, |v: usize| 0int),
            all_zero(r.pending_starts()),
            all_zero(r.pending_ends()),
    {
        let r = Self {
            mins: Vec::new(),
            maxs: Vec::new(),
            del_mins: HashMap::new(),
            del_maxs: HashMap::new(),
        };
        assert(r@.0 =~= Map::new(|v: usize| true, |v: usize| 0int));
        assert(r@.1 =~= Map::new(|v: usize| true, |v: usize| 0int));
        r
    }

    /// Adds the range `start..end`.
    pub fn add(&mut self, start: usize, end: usize)
        ensures
            final(self)@.0 == bumped(old(self)@.0, start, 1),
            final(self)@.1 == bumped(old(self)@.1, end, 1),
            final(self).pending_starts() == old(self).pending_starts(),
            final(self).pending_ends() == old(self).pending_ends(),
    {
        self.mins.push(start);
        self.maxs.push(end);
        assert(final(self)@.0 =~= bumped(old(self)@.0, start, 1));
        assert(final(self)@.1 =~= bumped(old(self)@.1, end, 1));
        assert(final(self).pending_starts() =~= old(self).pending_starts());
        assert(final(self).pending_ends() =~= old(self).pending_ends());
    }

    /// Removes the range `start..end`.
    pub fn remove(&mut self, start: usize, end: usize)
        requires
            old(self).pending_starts()[start] < usize::MAX,
            old(self).pending_ends()[end] < usize::MAX,
        ensures
            final(self)@.0 == bumped(old(self)@.0, start, -1),
            final(self)@.1 == bumped(old(self)@.1, end, -1),
            final(self).pending_starts() == old(self).pending_starts().insert(
                start,
                old(self).pending_starts()[start] + 1,
            ),
            final(self).pending_ends() == old(self).pending_ends().insert(
                end,
                old(self).pending_ends()[end] + 1,
            ),
    {
        let cs: usize = match self.del_mins.get(&start) {
            Some(c) => *c,
            None => 0,
        };
        self.del_mins.insert(start, cs + 1);
        let ce: usize = match self.del_maxs.get(&end) {
            Some(c) => *c,
            None => 0,
        };
        self.del_maxs.insert(end, ce + 1);
        assert(final(self)@.0 =~= bumped(old(self)@.0, start, -1));
        assert(final(self)@.1 =~= bumped(old(self)@.1, end, -1));
        assert(final(self).pending_starts() =~= old(self).pending_starts().insert(
            start,
            old(self).pending_starts()[start] + 1,
        ));
        assert(final(self).pending_ends() =~= old(self).pending_ends().insert(
            end,
            old(self).pending_ends()[end] + 1,
        ));
    }

    /// The least start and the greatest end of the live ranges, each 0 where none is live.
    /// Drops the stored bounds whose removal is due; the counts stay as they were.
    pub fn range(&mut self) -> (r: Range<usize>)
        ensures
            final(self)@ == old(self)@,
            no_higher(final(self).pending_starts(), old(self).pending_starts()),
            no_higher(final(self).pending_ends(), old(self).pending_ends()),
            any_live(old(self)@.0) ==> is_lowest_live(old(self)@.0, r.start),
            !any_live(old(self)@.0) ==> r.start == 0,
            any_live(old(self)@.1) ==> is_highest_live(old(self)@.1, r.end),
            !any_live(old(self)@.1) ==> r.end == 0,
    {
        let ghost v0 = self@;
        let ghost ps0 = self.pending_starts();
        let ghost pe0 = self.pending_ends();
        let mut start: usize = 0;
        let mut found = false;
        while self.mins.len() > 0
            invariant_except_break
                !found,
                start == 0,
            invariant
                self@ == v0,
                no_higher(self.pending_starts(), ps0),
                no_higher(self.pending_ends(), pe0),
            ensures
                self@ == v0,
                !found ==> start == 0,
                found ==> is_lowest_live(v0.0, start),
                no_higher(self.pending_starts(), ps0),
                no_higher(self.pending_ends(), pe0),
                !found ==> self.mins@.len() == 0,
            decreases self.mins@.len(),
        {
            let (idx, min) = min_at(&self.mins);
            let c: usize = match self.del_mins.get(&min) {
                Some(c) => *c,
                None => 0,
            };
            if c > 0 {
                let ghost before = self@;
                let ghost old_ps = self.pending_starts();
                let ghost old_pe = self.pending_ends();
                if c == 1 {
                    self.del_mins.remove(&min);
                } else {
                    self.del_mins.insert(min, c - 1);
                }
                self.mins.remove(idx);
                assert(self@.0 =~= before.0);
                assert(self@.1 =~= before.1);
                assert forall|v: usize|
                    #![trigger self.pending_starts()[v]]
                    self.pending_starts()[v] <= ps0[v] by {
                    assert(no_higher(old_ps, ps0));
                    assert(old_ps[v] <= ps0[v]);
                    assert(self.pending_starts()[v] <= old_ps[v]);
                }
                assert(no_higher(self.pending_starts(), ps0));
                assert(self.pending_ends() =~= old_pe);
            } else {
                start = min;
                found = true;
                proof {
                    assert(self.mins@.to_multiset().count(min) > 0) by {
                        assert(self.mins@.contains(min));
                    }
                    assert forall|u: usize| v0.0[u] > 0 implies min <= u by {
                        lemma_in_seq(self.mins@, u);
                    }
                }
                break;
            }
        }
        proof {
            if !found {
                assert forall|u: usize| !(v0.0[u] > 0) by {
                    assert(self.mins@.to_multiset().count(u) == 0);
                }
            }
        }
        let mut end: usize = 0;
        let mut found_end = false;
        while self.maxs.len() > 0
            invariant_except_break
                !found_end,
                end == 0,
            invariant
                self@ == v0,
                no_higher(self.pending_starts(), ps0),
                no_higher(self.pending_ends(), pe0),
            ensures
                self@ == v0,
                !found_end ==> end == 0,
                found_end ==> is_highest_live(v0.1, end),
                no_higher(self.pending_starts(), ps0),
                no_higher(self.pending_ends(), pe0),
                !found_end ==> self.maxs@.len() == 0,
            decreases self.maxs@.len(),
        {
            let (idx, max) = max_at(&self.maxs);
            let c: usize = match self.del_maxs.get(&max) {
                Some(c) => *c,
                None => 0,
            };
            let has = self.del_maxs.contains_key(&max);
            if c > 0 {
                let ghost before = self@;
                let ghost old_pe = self.pending_ends();
                if c == 1 {
                    self.del_maxs.remove(&max);
                } else {
                    self.del_maxs.insert(max, c - 1);
                }
                self.maxs.remove(idx);
                assert(self@.0 =~= before.0);
                assert(self@.1 =~= before.1);
                assert forall|v: usize|
                    #![trigger self.pending_ends()[v]]
                    self.pending_ends()[v] <= pe0[v] by {
                    assert(no_higher(old_pe, pe0));
                    assert(old_pe[v] <= pe0[v]);
                    assert(self.pending_ends()[v] <= old_pe[v]);
                }
            } else {
                if has {
                    let ghost before = self@;
                    let ghost old_pe = self.pending_ends();
                    self.del_maxs.remove(&max);
                    assert(self@.0 =~= before.0);
                    assert(self@.1 =~= before.1);
                    assert forall|v: usize|
                        #![trigger self.pending_ends()[v]]
                        self.pending_ends()[v] <= pe0[v] by {
                        assert(no_higher(old_pe, pe0));
                    assert(old_pe[v] <= pe0[v]);
                    assert(self.pending_ends()[v] <= old_pe[v]);
                    }
                }
                end = max;
                found_end = true;
                proof {
                    assert(self.maxs@.to_multiset().count(max) > 0) by {
                        assert(self.maxs@.contains(max));
                    }
                    assert forall|u: usize| v0.1[u] > 0 implies u <= max by {
                        lemma_in_seq(self.maxs@, u);
                    }
                }
                break;
            }
        }
        proof {
            if !found_end {
                assert forall|u: usize| !(v0.1[u] > 0) by {
                    assert(self.maxs@.to_multiset().count(u) == 0);
                }
            }
        }
        start..end
    }
}

/// A tracker's counts are defined for every value.
pub proof fn lemma_counts_total(cr: &ContainRange)
    ensures
        forall|v: usize| cr@.0.contains_key(v) && cr@.1.contains_key(v),
{
}

/// Removing a range right after adding it leaves the live counts as they were.
pub proof fn lemma_remove_undoes_add(m: Map<usize, int>, v: usize)
    requires
        m.contains_key(v),
    ensures
        bumped(bumped(m, v, 1), v, -1) == m,
{
    assert(bumped(bumped(m, v, 1), v, -1) =~= m);
}

/// The range reported covers every live range: a start and an end that are live lie within it.
pub proof fn lemma_range_covers_live(
    starts: Map<usize, int>,
    ends: Map<usize, int>,
    s: usize,
    e: usize,
    lo: usize,
    hi: usize,
)
    requires
        starts[s] > 0,
        ends[e] > 0,
        any_live(starts) ==> is_lowest_live(starts, lo),
        any_live(ends) ==> is_highest_live(ends, hi),
    ensures
        lo <= s,
        e <= hi,
{
}

/// With nothing live, the range reported is `0..0`.
pub proof fn lemma_range_of_nothing(starts: Map<usize, int>, ends: Map<usize, int>, lo: usize, hi: usize)
    requires
        forall|v: usize| starts[v] <= 0,
        forall|v: usize| ends[v] <= 0,
        !any_live(starts) ==> lo == 0,
        !any_live(ends) ==> hi == 0,
    ensures
        lo == 0,
        hi == 0,
{
}

} // verus!
