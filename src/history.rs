use vstd::prelude::*;

verus! {

/// An unordered pair of participant identifiers, stored with the smaller
/// identifier first so that `(a, b)` and `(b, a)` give the same key.
#[derive(Clone, Copy, Debug, PartialEq, Eq, Structural, Hash)]
pub struct PairKey {
    pub lo: usize,
    pub hi: usize,
}

/// The canonical key of the unordered pair `{a, b}`.
pub open spec fn key_of(a: usize, b: usize) -> PairKey {
    if a <= b {
        PairKey { lo: a, hi: b }
    } else {
        PairKey { lo: b, hi: a }
    }
}

impl PairKey {
    pub open spec fn is_canonical(self) -> bool {
        self.lo <= self.hi
    }

    pub fn new(a: usize, b: usize) -> (k: PairKey)
        ensures
            k == key_of(a, b),
            k.is_canonical(),
    {
        if a <= b {
            PairKey { lo: a, hi: b }
        } else {
            PairKey { lo: b, hi: a }
        }
    }
}

/// The score recorded in `m` for the unordered pair `{a, b}`, if any.
pub open spec fn score_of(m: Map<PairKey, usize>, a: usize, b: usize) -> Option<usize> {
    if m.contains_key(key_of(a, b)) {
        Some(m[key_of(a, b)])
    } else {
        None
    }
}

/// Summary of how a `History` was built.
#[derive(Clone, Copy, Debug, PartialEq, Eq, Structural, Default)]
pub struct HistoryStats {
    pub files_read: usize,
    pub pairs: usize,
}

/// The score that `m` holds for `k`, or zero when `k` is not recorded.
pub open spec fn prior(m: Map<PairKey, usize>, k: PairKey) -> nat {
    if m.contains_key(k) {
        m[k] as nat
    } else {
        0
    }
}

/// How many of the observed `pairs` are the unordered pair `k`.
pub open spec fn observations(pairs: Seq<(usize, usize)>, k: PairKey) -> nat
    decreases pairs.len(),
{
    if pairs.len() == 0 {
        0
    } else {
        observations(pairs.drop_last(), k) + if key_of(pairs.last().0, pairs.last().1) == k {
            1nat
        } else {
            0nat
        }
    }
}

/// The scores after recording each of `pairs` once on top of `m`: a pair seen
/// for the first time starts at one, every further sighting adds one.
pub open spec fn merged(m: Map<PairKey, usize>, pairs: Seq<(usize, usize)>) -> Map<PairKey, usize> {
    Map::new(
        |k: PairKey| m.contains_key(k) || observations(pairs, k) > 0,
        |k: PairKey| (prior(m, k) + observations(pairs, k)) as usize,
    )
}

/// Whether recording `pairs` on top of `m` keeps every score within `usize`.
pub open spec fn merge_fits(m: Map<PairKey, usize>, pairs: Seq<(usize, usize)>) -> bool {
    forall|k: PairKey| #[trigger] m.contains_key(k) ==> m[k] + pairs.len() <= usize::MAX
}

/// All the pairs of `records`, one record after the other.
pub open spec fn all_pairs(records: Seq<Vec<(usize, usize)>>) -> Seq<(usize, usize)>
    decreases records.len(),
{
    if records.len() == 0 {
        seq![]
    } else {
        all_pairs(records.drop_last()) + records.last()@
    }
}

/// How many times each unordered pair of participants has been matched.
pub struct History {
    entries: Vec<(PairKey, usize)>,
    stats: HistoryStats,
    scores: Ghost<Map<PairKey, usize>>,
}

impl History {
    /// The score of each recorded pair, keyed canonically.
    pub closed spec fn view(&self) -> Map<PairKey, usize> {
        self.scores@
    }

    pub closed spec fn spec_stats(&self) -> HistoryStats {
        self.stats
    }

    pub closed spec fn wf(&self) -> bool {
        let e = self.entries@;
        let m = self.scores@;
        &&& m.dom().finite()
        &&& e.len() == m.len()
        &&& forall|i: int|
            0 <= i < e.len() ==> #[trigger] m.contains_key(e[i].0) && m[e[i].0] == e[i].1
        &&& forall|k: PairKey| #[trigger]
            m.contains_key(k) ==> exists|i: int| 0 <= i < e.len() && e[i].0 == k
        &&& forall|i: int, j: int|
            0 <= i < e.len() && 0 <= j < e.len() && i != j ==> #[trigger] e[i].0 != #[trigger] e[j].0
        &&& forall|k: PairKey| #[trigger] m.contains_key(k) ==> k.is_canonical()
    }

    /// A well-formed history records finitely many pairs.
    pub proof fn lemma_dom_finite(&self)
        requires
            self.wf(),
        ensures
            self@.dom().finite(),
    {
    }

    /// An empty history.
    pub fn new() -> (h: History)
        ensures
            h.wf(),
            h@ == Map::<PairKey, usize>::empty(),
            h.spec_stats() == (HistoryStats { files_read: 0, pairs: 0 }),
    {
        History {
            entries: Vec::new(),
            stats: HistoryStats { files_read: 0, pairs: 0 },
            scores: Ghost(Map::empty()),
        }
    }

    pub fn stats(&self) -> (r: HistoryStats)
        ensures
            r == self.spec_stats(),
    {
        self.stats
    }

    /// The number of distinct pairs recorded.
    pub fn len(&self) -> (r: usize)
        requires
            self.wf(),
        ensures
            r == self@.len(),
    {
        self.entries.len()
    }

    pub fn is_empty(&self) -> (r: bool)
        requires
            self.wf(),
        ensures
            r == (self@.len() == 0),
    {
        self.len() == 0
    }

    /// The position of the entry for `k`, if there is one.
    fn find(&self, k: PairKey) -> (r: Option<usize>)
        requires
            self.wf(),
        ensures
            match r {
                Some(i) => i < self.entries@.len() && self.entries@[i as int].0 == k,
                None => !self@.contains_key(k),
            },
    {
        let mut i: usize = 0;
        while i < self.entries.len()
            invariant
                self.wf(),
                i <= self.entries@.len(),
                forall|j: int| 0 <= j < i ==> self.entries@[j].0 != k,
            decreases self.entries@.len() - i,
        {
            if self.entries[i].0 == k {
                return Some(i);
            }
            i = i + 1;
        }
        None
    }

    /// Whether the pair has been recorded, in either order.
    pub fn contains(&self, pair: &(usize, usize)) -> (r: bool)
        requires
            self.wf(),
        ensures
            r == self@.contains_key(key_of(pair.0, pair.1)),
    {
        let k = PairKey::new(pair.0, pair.1);
        match self.find(k) {
            Some(_) => true,
            None => false,
        }
    }

    /// The score of the pair, looked up in either order.
    pub fn get(&self, pair: (usize, usize)) -> (r: Option<usize>)
        requires
            self.wf(),
        ensures
            r == score_of(self@, pair.0, pair.1),
    {
        let k = PairKey::new(pair.0, pair.1);
        match self.find(k) {
            Some(i) => Some(self.entries[i].1),
            None => None,
        }
    }

    /// Sets the score of the pair to `iteration`, whichever order it is given in.
    pub fn insert(&mut self, pair: (usize, usize), iteration: usize)
        requires
            old(self).wf(),
        ensures
            final(self).wf(),
            final(self)@ == old(self)@.insert(key_of(pair.0, pair.1), iteration),
            final(self).spec_stats() == old(self).spec_stats(),
    {
        let k = PairKey::new(pair.0, pair.1);
        match self.find(k) {
            Some(i) => {
                let ghost old_entries = self.entries@;
                self.entries.set(i, (k, iteration));
                self.scores = Ghost(self.scores@.insert(k, iteration));
                assert forall|k2: PairKey| #[trigger] self.scores@.contains_key(k2) implies exists|j: int|
                    0 <= j < self.entries@.len() && self.entries@[j].0 == k2 by {
                    let j = choose|j: int| 0 <= j < old_entries.len() && old_entries[j].0 == k2;
                    assert(self.entries@[j].0 == k2);
                }
            },
            None => {
                let ghost old_entries = self.entries@;
                self.entries.push((k, iteration));
                self.scores = Ghost(self.scores@.insert(k, iteration));
                assert forall|k2: PairKey| #[trigger] self.scores@.contains_key(k2) implies exists|j: int|
                    0 <= j < self.entries@.len() && self.entries@[j].0 == k2 by {
                    if k2 != k {
                        let j = choose|j: int| 0 <= j < old_entries.len() && old_entries[j].0 == k2;
                        assert(self.entries@[j].0 == k2);
                    } else {
                        assert(self.entries@[old_entries.len() as int].0 == k2);
                    }
                }
            },
        }
    }
}

impl Default for History {
    fn default() -> (h: History)
        ensures
            h.wf(),
            h@ == Map::<PairKey, usize>::empty(),
            h.spec_stats() == (HistoryStats { files_read: 0, pairs: 0 }),
    {
        History::new()
    }
}

/// `r` is the largest score in `m`, or zero when `m` is empty.
pub open spec fn is_max_score(m: Map<PairKey, usize>, r: usize) -> bool {
    if m.len() == 0 {
        r == 0
    } else {
        &&& exists|k: PairKey| #[trigger] m.contains_key(k) && m[k] == r
        &&& forall|k: PairKey| #[trigger] m.contains_key(k) ==> m[k] <= r
    }
}

/// `r` is the smallest score in `m`, or zero when `m` is empty.
pub open spec fn is_min_score(m: Map<PairKey, usize>, r: usize) -> bool {
    if m.len() == 0 {
        r == 0
    } else {
        &&& exists|k: PairKey| #[trigger] m.contains_key(k) && m[k] == r
        &&& forall|k: PairKey| #[trigger] m.contains_key(k) ==> r <= m[k]
    }
}

impl History {
    /// The largest score recorded, or 0 for an empty history.
    pub fn max(&self) -> (r: usize)
        requires
            self.wf(),
        ensures
            is_max_score(self@, r),
    {
        let mut best: usize = 0;
        let mut i: usize = 0;
        while i < self.entries.len()
            invariant
                self.wf(),
                i <= self.entries@.len(),
                i == 0 ==> best == 0,
                i > 0 ==> exists|j: int| 0 <= j < i && self.entries@[j].1 == best,
                forall|j: int| 0 <= j < i ==> self.entries@[j].1 <= best,
            decreases self.entries@.len() - i,
        {
            if i == 0 || self.entries[i].1 > best {
                best = self.entries[i].1;
            }
            i = i + 1;
        }
        proof {
            if self@.len() > 0 {
                let j = choose|j: int| 0 <= j < i && self.entries@[j].1 == best;
                assert(self@.contains_key(self.entries@[j].0));
                assert forall|k: PairKey| #[trigger] self@.contains_key(k) implies self@[k] <= best by {
                    let j2 = choose|j2: int| 0 <= j2 < self.entries@.len() && self.entries@[j2].0 == k;
                    assert(self@.contains_key(self.entries@[j2].0));
                }
            }
        }
        best
    }

    /// The smallest score recorded, or 0 for an empty history.
    pub fn min(&self) -> (r: usize)
        requires
            self.wf(),
        ensures
            is_min_score(self@, r),
    {
        let mut best: usize = 0;
        let mut i: usize = 0;
        while i < self.entries.len()
            invariant
                self.wf(),
                i <= self.entries@.len(),
                i == 0 ==> best == 0,
                i > 0 ==> exists|j: int| 0 <= j < i && self.entries@[j].1 == best,
                forall|j: int| 0 <= j < i ==> best <= self.entries@[j].1,
            decreases self.entries@.len() - i,
        {
            if i == 0 || self.entries[i].1 < best {
                best = self.entries[i].1;
            }
            i = i + 1;
        }
        proof {
            if self@.len() > 0 {
                let j = choose|j: int| 0 <= j < i && self.entries@[j].1 == best;
                assert(self@.contains_key(self.entries@[j].0));
                assert forall|k: PairKey| #[trigger] self@.contains_key(k) implies best <= self@[k] by {
                    let j2 = choose|j2: int| 0 <= j2 < self.entries@.len() && self.entries@[j2].0 == k;
                    assert(self@.contains_key(self.entries@[j2].0));
                }
            }
        }
        best
    }

    /// The highest number of times any pair has met, or 0 for an empty history.
    pub fn max_iteration(&self) -> (r: usize)
        requires
            self.wf(),
        ensures
            is_max_score(self@, r),
    {
        self.max()
    }
}

/// A pair is observed at most once per entry of `pairs`.
pub proof fn lemma_observations_bound(pairs: Seq<(usize, usize)>, k: PairKey)
    ensures
        observations(pairs, k) <= pairs.len(),
    decreases pairs.len(),
{
    if pairs.len() > 0 {
        lemma_observations_bound(pairs.drop_last(), k);
    }
}

/// Records every pair of `pairs` in `history`: a pair already present (in
/// either order) has its score raised by one, a new pair starts at one.
pub fn merge(history: &mut History, pairs: &Vec<(usize, usize)>)
    requires
        old(history).wf(),
        merge_fits(old(history)@, pairs@),
    ensures
        final(history).wf(),
        final(history)@ == merged(old(history)@, pairs@),
        final(history).spec_stats() == old(history).spec_stats(),
{
    let ghost m0 = history@;
    let mut i: usize = 0;
    assert(merged(m0, pairs@.take(0)) =~= m0);
    while i < pairs.len()
        invariant
            history.wf(),
            i <= pairs@.len(),
            merge_fits(m0, pairs@),
            history@ == merged(m0, pairs@.take(i as int)),
            history.spec_stats() == old(history).spec_stats(),
        decreases pairs@.len() - i,
    {
        let p = pairs[i];
        let ghost t = pairs@.take(i as int);
        let ghost t1 = pairs@.take(i + 1);
        let ghost k = key_of(p.0, p.1);
        assert(t1.drop_last() =~= t);
        assert(t1.last() == p);
        proof {
            lemma_observations_bound(t, k);
        }
        if history.contains(&p) {
            let it = history.get(p).unwrap();
            assert(it == prior(m0, k) + observations(t, k));
            history.insert(p, it + 1);
        } else {
            history.insert(p, 1);
        }
        assert(history@ =~= merged(m0, t1));
        i = i + 1;
    }
    assert(pairs@.take(pairs@.len() as int) =~= pairs@);
}

/// Observations of two runs add up.
pub proof fn lemma_observations_append(a: Seq<(usize, usize)>, b: Seq<(usize, usize)>, k: PairKey)
    ensures
        observations(a + b, k) == observations(a, k) + observations(b, k),
    decreases b.len(),
{
    if b.len() == 0 {
        assert(a + b =~= a);
    } else {
        assert((a + b).drop_last() =~= a + b.drop_last());
        assert((a + b).last() == b.last());
        lemma_observations_append(a, b.drop_last(), k);
    }
}

/// Merging two runs one after the other is merging their concatenation.
pub proof fn lemma_merged_append(m: Map<PairKey, usize>, a: Seq<(usize, usize)>, b: Seq<(usize, usize)>)
    requires
        merge_fits(m, a),
        a.len() <= usize::MAX,
    ensures
        merged(merged(m, a), b) =~= merged(m, a + b),
{
    assert forall|k: PairKey| #[trigger] merged(m, a + b).contains_key(k) == merged(merged(m, a), b).contains_key(k)
        && (merged(m, a + b).contains_key(k) ==> merged(m, a + b)[k] == merged(merged(m, a), b)[k]) by {
        lemma_observations_append(a, b, k);
        lemma_observations_bound(a, k);
    }
}

/// The records before position `i` hold no more pairs than all of them.
pub proof fn lemma_all_pairs_prefix(records: Seq<Vec<(usize, usize)>>, i: int)
    requires
        0 <= i <= records.len(),
    ensures
        all_pairs(records.take(i)).len() <= all_pairs(records).len(),
    decreases records.len() - i,
{
    if i < records.len() {
        assert(records.take(i + 1).drop_last() =~= records.take(i));
        lemma_all_pairs_prefix(records, i + 1);
    } else {
        assert(records.take(i) =~= records);
    }
}

impl History {
    /// Builds a history from past pairing records, merged in the order given.
    pub fn build_from(records: &Vec<Vec<(usize, usize)>>) -> (h: History)
        requires
            all_pairs(records@).len() <= usize::MAX,
        ensures
            h.wf(),
            h@ == merged(Map::empty(), all_pairs(records@)),
            h.spec_stats() == (HistoryStats { files_read: records@.len() as usize, pairs: h@.len() as usize }),
    {
        let mut history = History::new();
        let ghost empty = Map::<PairKey, usize>::empty();
        let mut i: usize = 0;
        assert(records@.take(0) =~= Seq::<Vec<(usize, usize)>>::empty());
        assert(merged(empty, all_pairs(records@.take(0))) =~= empty);
        while i < records.len()
            invariant
                history.wf(),
                i <= records@.len(),
                empty == Map::<PairKey, usize>::empty(),
                all_pairs(records@).len() <= usize::MAX,
                history@ == merged(empty, all_pairs(records@.take(i as int))),
            decreases records@.len() - i,
        {
            let ghost a = all_pairs(records@.take(i as int));
            let ghost b = records@[i as int]@;
            assert(records@.take(i + 1).drop_last() =~= records@.take(i as int));
            assert(all_pairs(records@.take(i + 1)) == a + b);
            proof {
                lemma_all_pairs_prefix(records@, i + 1);
                lemma_all_pairs_prefix(records@, i as int);
                assert forall|k: PairKey| #[trigger] history@.contains_key(k) implies history@[k] + b.len() <= usize::MAX by {
                    lemma_observations_bound(a, k);
                    assert(!empty.contains_key(k));
                    assert(history@[k] == (prior(empty, k) + observations(a, k)) as usize);
                }
                lemma_merged_append(empty, a, b);
            }
            merge(&mut history, &records[i]);
            i = i + 1;
        }
        assert(records@.take(records@.len() as int) =~= records@);
        let pairs = history.len();
        let h = History {
            entries: history.entries,
            stats: HistoryStats { files_read: records.len(), pairs },
            scores: history.scores,
        };
        h
    }
}

/// The score of a pair does not depend on the order in which it is asked for.
pub proof fn lemma_score_symmetric(h: History, a: usize, b: usize)
    requires
        h.wf(),
    ensures
        score_of(h@, a, b) == score_of(h@, b, a),
        h@.contains_key(key_of(a, b)) == h@.contains_key(key_of(b, a)),
{
}

/// Recording one sighting of a pair twice raises its score by exactly two,
/// whichever order each sighting names the pair in, and adds at most one
/// entry: a pair never seen before ends with score 2.
pub proof fn lemma_merge_twice(m: Map<PairKey, usize>, a: usize, b: usize)
    requires
        m.dom().finite(),
        prior(m, key_of(a, b)) + 2 <= usize::MAX,
    ensures
        merged(merged(m, seq![(a, b)]), seq![(b, a)]) == merged(merged(m, seq![(a, b)]), seq![(a, b)]),
        merged(merged(m, seq![(a, b)]), seq![(a, b)])[key_of(a, b)] == prior(m, key_of(a, b)) + 2,
        !m.contains_key(key_of(a, b)) ==> merged(merged(m, seq![(a, b)]), seq![(a, b)])[key_of(a, b)] == 2,
        merged(merged(m, seq![(a, b)]), seq![(b, a)]).dom() == m.dom().insert(key_of(a, b)),
{
    let k = key_of(a, b);
    let one = seq![(a, b)];
    let rev = seq![(b, a)];
    assert(one.drop_last() =~= Seq::<(usize, usize)>::empty());
    assert(rev.drop_last() =~= Seq::<(usize, usize)>::empty());
    assert(observations(Seq::<(usize, usize)>::empty(), k) == 0);
    assert forall|k2: PairKey| #[trigger] observations(one, k2) == (if k2 == k { 1nat } else { 0nat })
        && observations(rev, k2) == observations(one, k2) by {
        assert(observations(Seq::<(usize, usize)>::empty(), k2) == 0);
    }
    let m1 = merged(m, one);
    assert(m1.contains_key(k) && m1[k] == prior(m, k) + 1);
    assert(prior(m1, k) == prior(m, k) + 1);
    assert(merged(m1, rev) =~= merged(m1, one));
    assert(merged(m1, rev).dom() =~= m.dom().insert(k));
}

} // verus!
