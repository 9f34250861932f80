//! Aggregate counters.
//!
//! One unit of work produces a `FileResults`: a total record count and
//! two counter maps, one keyed by exponent and one keyed by exponent and
//! Kronecker symbol.  Each counter is a pair: how many discriminants
//! carry an `ell^n` factor, and how many of those grew.  Counters are
//! held in a vector with pairwise-distinct keys and viewed as a `Map`,
//! so merging two aggregates is a union of keys with pointwise sums -
//! an associative and commutative operation, which makes the reduction
//! over units independent of the order they are combined in.

use vstd::prelude::*;

verus! {

/// One counter pair under one key.
#[derive(Clone, Copy)]
pub struct CEntry {
    pub key: u64,
    pub with_factor: u64,
    pub with_growth: u64,
}

/// The map a counter list denotes.
pub open spec fn entries_map(s: Seq<CEntry>) -> Map<u64, (nat, nat)>
    decreases s.len(),
{
    if s.len() == 0 {
        Map::empty()
    } else {
        entries_map(s.drop_last()).insert(
            s.last().key,
            (s.last().with_factor as nat, s.last().with_growth as nat),
        )
    }
}

pub open spec fn keys_unique(s: Seq<CEntry>) -> bool {
    forall|i: int, j: int| 0 <= i < j < s.len() ==> s[i].key != s[j].key
}

/// The counts a map holds at `k`, `(0, 0)` where `k` is absent.
pub open spec fn cnt(m: Map<u64, (nat, nat)>, k: u64) -> (nat, nat) {
    if m.dom().contains(k) {
        m[k]
    } else {
        (0, 0)
    }
}

proof fn lemma_entries_map_at(s: Seq<CEntry>, i: int)
    requires
        keys_unique(s),
        0 <= i < s.len(),
    ensures
        entries_map(s).dom().contains(s[i].key),
        entries_map(s)[s[i].key] == (s[i].with_factor as nat, s[i].with_growth as nat),
    decreases s.len(),
{
    if i == s.len() - 1 {
    } else {
        lemma_entries_map_at(s.drop_last(), i);
        assert(s.drop_last()[i] == s[i]);
        assert(s.last().key != s[i].key);
    }
}

proof fn lemma_entries_map_absent(s: Seq<CEntry>, k: u64)
    requires
        forall|i: int| 0 <= i < s.len() ==> s[i].key != k,
    ensures
        !entries_map(s).dom().contains(k),
        cnt(entries_map(s), k) == (0nat, 0nat),
    decreases s.len(),
{
    if s.len() > 0 {
        assert(forall|i: int|
            0 <= i < s.drop_last().len() ==> s.drop_last()[i] == s[i] && s[i].key != k);
        lemma_entries_map_absent(s.drop_last(), k);
        assert(s[s.len() - 1].key != k);
    }
}

proof fn lemma_entries_map_update(s: Seq<CEntry>, i: int, e: CEntry)
    requires
        keys_unique(s),
        0 <= i < s.len(),
        e.key == s[i].key,
    ensures
        entries_map(s.update(i, e)) == entries_map(s).insert(
            e.key,
            (e.with_factor as nat, e.with_growth as nat),
        ),
        keys_unique(s.update(i, e)),
    decreases s.len(),
{
    let v = (e.with_factor as nat, e.with_growth as nat);
    assert(keys_unique(s.update(i, e))) by {
        assert(forall|j: int|
            0 <= j < s.len() ==> s.update(i, e)[j].key == s[j].key);
    }
    if i == s.len() - 1 {
        assert(s.update(i, e).drop_last() =~= s.drop_last());
        assert(s.update(i, e).last() == e);
        assert(entries_map(s.drop_last()).insert(e.key, v) =~= entries_map(s).insert(e.key, v));
    } else {
        assert(s.update(i, e).drop_last() =~= s.drop_last().update(i, e));
        assert(s.update(i, e).last() == s.last());
        assert(s.drop_last()[i] == s[i]);
        lemma_entries_map_update(s.drop_last(), i, e);
        let lk = s.last().key;
        let lv = (s.last().with_factor as nat, s.last().with_growth as nat);
        assert(lk != e.key);
        assert(entries_map(s.drop_last()).insert(e.key, v).insert(lk, lv) =~= entries_map(
            s.drop_last(),
        ).insert(lk, lv).insert(e.key, v));
    }
}

/// A counter map: a list of counter pairs with pairwise-distinct keys.
pub struct CounterMap {
    pub entries: Vec<CEntry>,
}

impl View for CounterMap {
    type V = Map<u64, (nat, nat)>;

    open spec fn view(&self) -> Map<u64, (nat, nat)> {
        entries_map(self.entries@)
    }
}

impl CounterMap {
    pub open spec fn wf(&self) -> bool {
        keys_unique(self.entries@)
    }

    pub fn new() -> (r: CounterMap)
        ensures
            r.wf(),
            r@ == Map::<u64, (nat, nat)>::empty(),
    {
        CounterMap { entries: Vec::new() }
    }

    fn find(&self, key: u64) -> (r: Option<usize>)
        ensures
            match r {
                Some(i) => i < self.entries@.len() && self.entries@[i as int].key == key,
                None => forall|i: int| 0 <= i < self.entries@.len() ==> self.entries@[i].key != key,
            },
    {
        let mut i: usize = 0;
        while i < self.entries.len()
            invariant
                i <= self.entries@.len(),
                forall|j: int| 0 <= j < i ==> self.entries@[j].key != key,
            decreases self.entries@.len() - i,
        {
            if self.entries[i].key == key {
                return Some(i);
            }
            i = i + 1;
        }
        None
    }

    /// The counts stored under `key`, `(0, 0)` where absent.
    pub fn get(&self, key: u64) -> (r: (u64, u64))
        requires
            self.wf(),
        ensures
            (r.0 as nat, r.1 as nat) == cnt(self@, key),
    {
        match self.find(key) {
            Some(i) => {
                proof {
                    lemma_entries_map_at(self.entries@, i as int);
                }
                let e = &self.entries[i];
                (e.with_factor, e.with_growth)
            },
            None => {
                proof {
                    lemma_entries_map_absent(self.entries@, key);
                }
                (0, 0)
            },
        }
    }

    /// Add `f` to the factor count and `g` to the growth count at `key`.
    pub fn add_counts(&mut self, key: u64, f: u64, g: u64)
        requires
            old(self).wf(),
            cnt(old(self)@, key).0 + f <= u64::MAX,
            cnt(old(self)@, key).1 + g <= u64::MAX,
        ensures
            final(self).wf(),
            final(self)@ == old(self)@.insert(
                key,
                ((cnt(old(self)@, key).0 + f) as nat, (cnt(old(self)@, key).1 + g) as nat),
            ),
    {
        match self.find(key) {
            Some(i) => {
                proof {
                    lemma_entries_map_at(self.entries@, i as int);
                }
                let e = self.entries[i];
                let updated = CEntry {
                    key,
                    with_factor: e.with_factor + f,
                    with_growth: e.with_growth + g,
                };
                proof {
                    lemma_entries_map_update(self.entries@, i as int, updated);
                }
                self.entries.set(i, updated);
            },
            None => {
                proof {
                    lemma_entries_map_absent(self.entries@, key);
                }
                let ghost before = self.entries@;
                self.entries.push(CEntry { key, with_factor: f, with_growth: g });
                proof {
                    assert(self.entries@.drop_last() =~= before);
                    assert(keys_unique(self.entries@)) by {
                        assert(forall|i: int|
                            0 <= i < before.len() ==> self.entries@[i] == before[i]);
                    }
                }
            },
        }
    }

    /// Record one more discriminant with a factor under `key`, and one
    /// more grown one when `growth` holds.
    pub fn bump(&mut self, key: u64, growth: bool)
        requires
            old(self).wf(),
            cnt(old(self)@, key).0 < u64::MAX,
            cnt(old(self)@, key).1 < u64::MAX,
        ensures
            final(self).wf(),
            final(self)@ == old(self)@.insert(
                key,
                (
                    (cnt(old(self)@, key).0 + 1) as nat,
                    (cnt(old(self)@, key).1 + (if growth {
                        1nat
                    } else {
                        0nat
                    })) as nat,
                ),
            ),
    {
        self.add_counts(key, 1, if growth {
            1
        } else {
            0
        });
    }
}

/// Union of keys with pointwise sums.
pub open spec fn map_sum(a: Map<u64, (nat, nat)>, b: Map<u64, (nat, nat)>) -> Map<u64, (nat, nat)> {
    Map::new(
        |k: u64| a.dom().contains(k) || b.dom().contains(k),
        |k: u64| (cnt(a, k).0 + cnt(b, k).0, cnt(a, k).1 + cnt(b, k).1),
    )
}

/// Every counter map sums with the empty map to itself.
proof fn lemma_map_sum_empty(a: Map<u64, (nat, nat)>)
    ensures
        map_sum(a, Map::empty()) == a,
{
    assert(map_sum(a, Map::empty()) =~= a);
}

proof fn lemma_map_sum_insert(a: Map<u64, (nat, nat)>, m: Map<u64, (nat, nat)>, k: u64, v: (nat, nat))
    ensures
        map_sum(a, m.insert(k, v)) == map_sum(a, m).insert(
            k,
            (cnt(a, k).0 + v.0, cnt(a, k).1 + v.1),
        ),
{
    assert(map_sum(a, m.insert(k, v)) =~= map_sum(a, m).insert(
        k,
        (cnt(a, k).0 + v.0, cnt(a, k).1 + v.1),
    ));
}

/// Pairwise sums everywhere below `u64::MAX`.
pub open spec fn fits(a: Map<u64, (nat, nat)>, b: Map<u64, (nat, nat)>) -> bool {
    forall|k: u64|
        #![trigger cnt(a, k)]
        cnt(a, k).0 + cnt(b, k).0 <= u64::MAX && cnt(a, k).1 + cnt(b, k).1 <= u64::MAX
}

impl CounterMap {
    /// Add every counter of `other` into `self`.
    pub fn merge_from(&mut self, other: &CounterMap)
        requires
            old(self).wf(),
            other.wf(),
            fits(old(self)@, other@),
        ensures
            final(self).wf(),
            final(self)@ == map_sum(old(self)@, other@),
    {
        let ghost a = old(self)@;
        let ghost os = other.entries@;
        proof {
            assert(os.take(0) =~= Seq::<CEntry>::empty());
            lemma_map_sum_empty(a);
        }
        let mut i: usize = 0;
        while i < other.entries.len()
            invariant
                self.wf(),
                other.wf(),
                fits(a, other@),
                os == other.entries@,
                i <= os.len(),
                self@ == map_sum(a, entries_map(os.take(i as int))),
            decreases os.len() - i,
        {
            let e = other.entries[i];
            proof {
                assert(os.take(i + 1).drop_last() =~= os.take(i as int));
                assert(os.take(i + 1).last() == os[i as int]);
                assert(forall|j: int| 0 <= j < i ==> os.take(i as int)[j] == os[j]);
                assert(forall|j: int| 0 <= j < i ==> os[j].key != e.key);
                lemma_entries_map_absent(os.take(i as int), e.key);
                lemma_entries_map_at(os, i as int);
                assert(cnt(other@, e.key) == (e.with_factor as nat, e.with_growth as nat));
                assert(cnt(self@, e.key) == (cnt(a, e.key).0 + 0, cnt(a, e.key).1 + 0));
                lemma_map_sum_insert(
                    a,
                    entries_map(os.take(i as int)),
                    e.key,
                    (e.with_factor as nat, e.with_growth as nat),
                );
            }
            self.add_counts(e.key, e.with_factor, e.with_growth);
            i = i + 1;
        }
        proof {
            assert(os.take(os.len() as int) =~= os);
        }
    }
}

/// The abstract value of a unit aggregate.
pub ghost struct AggView {
    pub total: nat,
    pub by_n: Map<u64, (nat, nat)>,
    pub by_n_kron: Map<u64, (nat, nat)>,
}

/// Results from processing one file pair, and the value every merge
/// step works on: a record total and the two counter maps.
pub struct FileResults {
    pub total: u64,
    pub by_n: CounterMap,
    pub by_n_kron: CounterMap,
}

impl View for FileResults {
    type V = AggView;

    open spec fn view(&self) -> AggView {
        AggView { total: self.total as nat, by_n: self.by_n@, by_n_kron: self.by_n_kron@ }
    }
}

pub open spec fn empty_agg() -> AggView {
    AggView { total: 0, by_n: Map::empty(), by_n_kron: Map::empty() }
}

/// Merge of two aggregates: totals add, counters sum pointwise under
/// the union of keys.
pub open spec fn merge_view(a: AggView, b: AggView) -> AggView {
    AggView {
        total: a.total + b.total,
        by_n: map_sum(a.by_n, b.by_n),
        by_n_kron: map_sum(a.by_n_kron, b.by_n_kron),
    }
}

pub open spec fn can_merge(a: AggView, b: AggView) -> bool {
    &&& a.total + b.total <= u64::MAX
    &&& fits(a.by_n, b.by_n)
    &&& fits(a.by_n_kron, b.by_n_kron)
}

impl FileResults {
    pub open spec fn wf(&self) -> bool {
        self.by_n.wf() && self.by_n_kron.wf()
    }

    /// An empty aggregate: zero records, no counters.
    pub fn new() -> (r: FileResults)
        ensures
            r.wf(),
            r@ == empty_agg(),
    {
        FileResults { total: 0, by_n: CounterMap::new(), by_n_kron: CounterMap::new() }
    }

    /// Fold `other` into `self`: key union, pointwise counter sums.
    pub fn merge(&mut self, other: &FileResults)
        requires
            old(self).wf(),
            other.wf(),
            can_merge(old(self)@, other@),
        ensures
            final(self).wf(),
            final(self)@ == merge_view(old(self)@, other@),
    {
        self.total = self.total + other.total;
        self.by_n.merge_from(&other.by_n);
        self.by_n_kron.merge_from(&other.by_n_kron);
    }
}

/// Law: merging aggregates is commutative.
pub proof fn lemma_merge_comm(a: AggView, b: AggView)
    ensures
        merge_view(a, b) == merge_view(b, a),
{
    assert(map_sum(a.by_n, b.by_n) =~= map_sum(b.by_n, a.by_n));
    assert(map_sum(a.by_n_kron, b.by_n_kron) =~= map_sum(b.by_n_kron, a.by_n_kron));
}

/// Law: merging aggregates is associative.
pub proof fn lemma_merge_assoc(a: AggView, b: AggView, c: AggView)
    ensures
        merge_view(merge_view(a, b), c) == merge_view(a, merge_view(b, c)),
{
    assert(map_sum(map_sum(a.by_n, b.by_n), c.by_n) =~= map_sum(
        a.by_n,
        map_sum(b.by_n, c.by_n),
    ));
    assert(map_sum(map_sum(a.by_n_kron, b.by_n_kron), c.by_n_kron) =~= map_sum(
        a.by_n_kron,
        map_sum(b.by_n_kron, c.by_n_kron),
    ));
}

proof fn lemma_fold_merge_pull_out(s: Seq<AggView>, j: int)
    requires
        0 <= j < s.len(),
    ensures
        fold_merge(s) == merge_view(fold_merge(s.remove(j)), s[j]),
    decreases s.len(),
{
    if j == s.len() - 1 {
        assert(s.remove(j) =~= s.drop_last());
    } else {
        let sdl = s.drop_last();
        lemma_fold_merge_pull_out(sdl, j);
        let a = fold_merge(sdl.remove(j));
        let x = s[j];
        let y = s.last();
        assert(sdl[j] == x);
        lemma_merge_assoc(a, x, y);
        lemma_merge_comm(x, y);
        lemma_merge_assoc(a, y, x);
        assert(s.remove(j).drop_last() =~= sdl.remove(j));
        assert(s.remove(j).last() == y);
    }
}

/// Law: the grand total does not depend on the order units are merged
/// in.  Two sequences of unit aggregates that hold the same aggregates
/// (as a multiset) fold to the same result.
pub proof fn lemma_fold_merge_order_independent(s1: Seq<AggView>, s2: Seq<AggView>)
    requires
        s1.to_multiset() == s2.to_multiset(),
    ensures
        fold_merge(s1) == fold_merge(s2),
    decreases s1.len(),
{
    s1.to_multiset_ensures();
    s2.to_multiset_ensures();
    if s1.len() == 0 {
        assert(s2.to_multiset().len() == 0);
        assert(s2.len() == 0);
    } else {
        let x = s1.last();
        assert(s1.contains(x)) by {
            assert(s1[s1.len() - 1] == x);
        }
        assert(s2.to_multiset().count(x) > 0);
        assert(s2.contains(x));
        let j = choose|j: int| 0 <= j < s2.len() && s2[j] == x;
        lemma_fold_merge_pull_out(s2, j);
        assert(s1.drop_last() =~= s1.remove(s1.len() - 1));
        assert(s1.drop_last().to_multiset() == s1.to_multiset().remove(x));
        assert(s2.remove(j).to_multiset() == s2.to_multiset().remove(x));
        lemma_fold_merge_order_independent(s1.drop_last(), s2.remove(j));
    }
}

/// Counters never exceed the record total, and growth counts never
/// exceed factor counts.
pub open spec fn agg_bounded(v: AggView) -> bool {
    &&& forall|k: u64|
        #![trigger cnt(v.by_n, k)]
        cnt(v.by_n, k).0 <= v.total && cnt(v.by_n, k).1 <= cnt(v.by_n, k).0
    &&& forall|k: u64|
        #![trigger cnt(v.by_n_kron, k)]
        cnt(v.by_n_kron, k).0 <= v.total && cnt(v.by_n_kron, k).1 <= cnt(v.by_n_kron, k).0
}

/// Two bounded aggregates with totals in range merge, and the merge is
/// bounded again.
pub proof fn lemma_bounded_can_merge(a: AggView, b: AggView)
    requires
        agg_bounded(a),
        agg_bounded(b),
        a.total + b.total <= u64::MAX,
    ensures
        can_merge(a, b),
        agg_bounded(merge_view(a, b)),
{
    let m = merge_view(a, b);
    assert forall|k: u64| #![trigger cnt(m.by_n, k)]
        cnt(m.by_n, k).0 <= m.total && cnt(m.by_n, k).1 <= cnt(m.by_n, k).0 by {
        assert(cnt(a.by_n, k).0 <= a.total);
        assert(cnt(b.by_n, k).0 <= b.total);
    }
    assert forall|k: u64| #![trigger cnt(m.by_n_kron, k)]
        cnt(m.by_n_kron, k).0 <= m.total && cnt(m.by_n_kron, k).1 <= cnt(m.by_n_kron, k).0 by {
        assert(cnt(a.by_n_kron, k).0 <= a.total);
        assert(cnt(b.by_n_kron, k).0 <= b.total);
    }
}

/// The aggregates a sequence of unit results denotes.
pub open spec fn aggs_of(s: Seq<FileResults>) -> Seq<AggView> {
    s.map_values(|r: FileResults| r@)
}

/// Left fold of `merge_view` over unit aggregates, starting empty.
pub open spec fn fold_merge(s: Seq<AggView>) -> AggView
    decreases s.len(),
{
    if s.len() == 0 {
        empty_agg()
    } else {
        merge_view(fold_merge(s.drop_last()), s.last())
    }
}

/// Sum of the record totals of a sequence of aggregates.
pub open spec fn total_sum(s: Seq<AggView>) -> nat
    decreases s.len(),
{
    if s.len() == 0 {
        0
    } else {
        total_sum(s.drop_last()) + s.last().total
    }
}

proof fn lemma_total_sum_take(s: Seq<AggView>, i: int)
    requires
        0 <= i <= s.len(),
    ensures
        total_sum(s.take(i)) <= total_sum(s),
    decreases s.len() - i,
{
    if i == s.len() {
        assert(s.take(i) =~= s);
    } else {
        assert(s.take(i + 1).drop_last() =~= s.take(i));
        assert(s.take(i + 1).last() == s[i]);
        lemma_total_sum_take(s, i + 1);
    }
}

/// Merge every unit result, in the order given.  Together with
/// `lemma_merge_comm` and `lemma_merge_assoc`, any other order yields
/// the same aggregate.
pub fn merge_all(units: &Vec<FileResults>) -> (grand: FileResults)
    requires
        forall|i: int| 0 <= i < units@.len() ==> (#[trigger] units@[i]).wf(),
        forall|i: int| 0 <= i < units@.len() ==> agg_bounded((#[trigger] units@[i])@),
        total_sum(aggs_of(units@)) <= u64::MAX,
    ensures
        grand.wf(),
        grand@ == fold_merge(aggs_of(units@)),
        agg_bounded(grand@),
{
    let ghost aggs = aggs_of(units@);
    let mut grand = FileResults::new();
    let mut i: usize = 0;
    proof {
        assert(aggs.take(0) =~= Seq::<AggView>::empty());
    }
    while i < units.len()
        invariant
            forall|j: int| 0 <= j < units@.len() ==> (#[trigger] units@[j]).wf(),
            forall|j: int| 0 <= j < units@.len() ==> agg_bounded((#[trigger] units@[j])@),
            total_sum(aggs) <= u64::MAX,
            aggs == aggs_of(units@),
            i <= units@.len(),
            grand.wf(),
            grand@ == fold_merge(aggs.take(i as int)),
            agg_bounded(grand@),
            grand@.total == total_sum(aggs.take(i as int)),
        decreases units@.len() - i,
    {
        proof {
            assert(aggs.take(i + 1).drop_last() =~= aggs.take(i as int));
            assert(aggs.take(i + 1).last() == aggs[i as int]);
            assert(aggs[i as int] == units@[i as int]@);
            lemma_total_sum_take(aggs, i + 1);
            lemma_bounded_can_merge(grand@, units@[i as int]@);
        }
        grand.merge(&units[i]);
        i = i + 1;
    }
    proof {
        assert(aggs.take(units@.len() as int) =~= aggs);
    }
    grand
}

} // verus!
