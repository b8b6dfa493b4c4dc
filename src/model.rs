use vstd::prelude::*;

verus! {

/// The recency order of a cache: (key, cost) pairs, least recently used first.
pub type Order = Seq<(Seq<char>, int)>;

/// Whether some slot of `s` holds key `k`.
pub open spec fn has_key(s: Order, k: Seq<char>) -> bool {
    exists|i: int| 0 <= i < s.len() && #[trigger] s[i].0 == k
}

/// No key occurs in two slots of `s`.
pub open spec fn keys_unique(s: Order) -> bool {
    forall|i: int, j: int| 0 <= i < s.len() && 0 <= j < s.len() && #[trigger] s[i].0 == #[trigger] s[j].0 ==> i == j
}

/// Every cost in `s` is non-negative.
pub open spec fn costs_nonneg(s: Order) -> bool {
    forall|i: int| 0 <= i < s.len() ==> #[trigger] s[i].1 >= 0
}

/// The sum of the costs in `s`.
pub open spec fn total_cost(s: Order) -> int
    decreases s.len(),
{
    if s.len() == 0 {
        0
    } else {
        total_cost(s.drop_last()) + s.last().1
    }
}

/// `s` without the slot of key `k`, the order of the others kept.
pub open spec fn without_key(s: Order, k: Seq<char>) -> Order
    decreases s.len(),
{
    if s.len() == 0 {
        s
    } else if s.last().0 != k {
        without_key(s.drop_last(), k).push(s.last())
    } else {
        without_key(s.drop_last(), k)
    }
}

/// The cost recorded for key `k` in `s` (meaningful when `has_key(s, k)`).
pub open spec fn cost_of(s: Order, k: Seq<char>) -> int {
    s[choose|i: int| 0 <= i < s.len() && s[i].0 == k].1
}

/// One more entry of cost `cost` can join `s` within both limits.
pub open spec fn fits(s: Order, cost: int, count_limit: int, cost_limit: int) -> bool {
    s.len() + 1 <= count_limit && total_cost(s) + cost <= cost_limit
}

/// What remains of `s` after evicting least recently used slots, from the
/// front, until an entry of cost `cost` fits.
pub open spec fn evict(s: Order, cost: int, count_limit: int, cost_limit: int) -> Order
    decreases s.len(),
{
    if s.len() == 0 || fits(s, cost, count_limit, cost_limit) {
        s
    } else {
        evict(s.drop_first(), cost, count_limit, cost_limit)
    }
}

/// The total of `s` is its first cost plus the total of the rest.
pub proof fn lemma_total_front(s: Order)
    requires
        s.len() > 0,
    ensures
        total_cost(s) == s[0].1 + total_cost(s.drop_first()),
    decreases s.len(),
{
    if s.len() > 1 {
        let d = s.drop_last();
        lemma_total_front(d);
        let t = s.drop_first();
        assert(t.drop_last() =~= d.drop_first());
        assert(t.last() == s.last());
        assert(d[0] == s[0]);
        assert(total_cost(t) == total_cost(t.drop_last()) + t.last().1);
    } else {
        assert(total_cost(s.drop_last()) == 0);
        assert(total_cost(s.drop_first()) == 0);
    }
}

/// With non-negative costs, the total is non-negative and no prefix costs more
/// than the whole.
pub proof fn lemma_total_prefix(s: Order, i: int)
    requires
        costs_nonneg(s),
        0 <= i <= s.len(),
    ensures
        0 <= total_cost(s.subrange(0, i)) <= total_cost(s),
    decreases s.len(),
{
    if s.len() > 0 {
        let d = s.drop_last();
        if i == s.len() {
            assert(s.subrange(0, i) =~= s);
            lemma_total_prefix(d, d.len() as int);
            assert(d.subrange(0, d.len() as int) =~= d);
        } else {
            lemma_total_prefix(d, i);
            assert(d.subrange(0, i) =~= s.subrange(0, i));
        }
    } else {
        assert(s.subrange(0, i).len() == 0);
    }
}

/// What `without_key` keeps: every slot of another key, in order, and nothing
/// else; uniqueness, signs of costs and the bound on the total carry over.
pub proof fn lemma_without_key(s: Order, k: Seq<char>)
    ensures
        !has_key(without_key(s, k), k),
        forall|j: Seq<char>| j != k ==> (has_key(without_key(s, k), j) <==> has_key(s, j)),
        forall|i: int| 0 <= i < without_key(s, k).len() ==> exists|m: int| 0 <= m < s.len() && s[m] == #[trigger] without_key(s, k)[i],
        keys_unique(s) ==> keys_unique(without_key(s, k)),
        costs_nonneg(s) ==> costs_nonneg(without_key(s, k)),
        costs_nonneg(s) ==> total_cost(without_key(s, k)) <= total_cost(s),
        without_key(s, k).len() <= s.len(),
        !has_key(s, k) ==> without_key(s, k) == s,
    decreases s.len(),
{
    let w = without_key(s, k);
    if s.len() > 0 {
        let d = s.drop_last();
        let wd = without_key(d, k);
        lemma_without_key(d, k);
        if costs_nonneg(s) {
            assert(costs_nonneg(d));
        }
        if keys_unique(s) {
            assert(keys_unique(d));
        }
        assert forall|i: int| 0 <= i < w.len() implies exists|m: int| 0 <= m < s.len() && s[m] == #[trigger] w[i] by {
            if i < wd.len() {
                let m = choose|m: int| 0 <= m < d.len() && d[m] == wd[i];
                assert(s[m] == w[i]);
            } else {
                assert(s[s.len() - 1] == w[i]);
            }
        }
        assert forall|j: Seq<char>| j != k implies (has_key(w, j) <==> has_key(s, j)) by {
            if has_key(w, j) {
                let i = choose|i: int| 0 <= i < w.len() && #[trigger] w[i].0 == j;
                let m = choose|m: int| 0 <= m < s.len() && s[m] == #[trigger] w[i];
                assert(s[m].0 == j);
            }
            if has_key(s, j) {
                let m = choose|m: int| 0 <= m < s.len() && #[trigger] s[m].0 == j;
                if m < d.len() {
                    assert(d[m].0 == j);
                    assert(has_key(d, j));
                    assert(has_key(wd, j) <==> has_key(d, j));
                    let i = choose|i: int| 0 <= i < wd.len() && #[trigger] wd[i].0 == j;
                    assert(w[i].0 == j);
                } else {
                    assert(w[w.len() - 1].0 == j);
                }
            }
        }
        if has_key(w, k) {
            let i = choose|i: int| 0 <= i < w.len() && #[trigger] w[i].0 == k;
            if i < wd.len() {
                assert(wd[i].0 == k);
            }
        }
        if keys_unique(s) {
            assert forall|a: int, b: int| 0 <= a < w.len() && 0 <= b < w.len() && #[trigger] w[a].0 == #[trigger] w[b].0 implies a == b by {
                if s.last().0 != k && (a == wd.len() || b == wd.len()) && a != b {
                    let o = if a == wd.len() { b } else { a };
                    let m = choose|m: int| 0 <= m < d.len() && d[m] == #[trigger] wd[o];
                    assert(s[m].0 == s[s.len() - 1].0);
                }
            }
        }
        if costs_nonneg(s) {
            assert forall|i: int| 0 <= i < w.len() implies #[trigger] w[i].1 >= 0 by {
                let m = choose|m: int| 0 <= m < s.len() && s[m] == #[trigger] w[i];
            }
            if s.last().0 != k {
                assert(w.drop_last() =~= wd);
            }
        }
        if !has_key(s, k) {
            assert(s.last().0 != k);
            if !has_key(d, k) {
                assert(wd =~= d);
            } else {
                let m = choose|m: int| 0 <= m < d.len() && #[trigger] d[m].0 == k;
                assert(s[m].0 == k);
            }
            assert(w =~= s);
        }
    }
}

/// Eviction drops a prefix, and what remains admits an entry of the given cost
/// when it is admissible at all.
pub proof fn lemma_evict(s: Order, cost: int, count_limit: int, cost_limit: int)
    requires
        1 <= count_limit,
        0 <= cost <= cost_limit,
    ensures
        evict(s, cost, count_limit, cost_limit).len() <= s.len(),
        evict(s, cost, count_limit, cost_limit) == s.subrange(
            s.len() - evict(s, cost, count_limit, cost_limit).len(),
            s.len() as int,
        ),
        fits(evict(s, cost, count_limit, cost_limit), cost, count_limit, cost_limit),
    decreases s.len(),
{
    if s.len() == 0 {
        assert(s.subrange(0, 0) =~= s);
    } else if fits(s, cost, count_limit, cost_limit) {
        assert(s.subrange(0, s.len() as int) =~= s);
    } else {
        let t = s.drop_first();
        lemma_evict(t, cost, count_limit, cost_limit);
        let e = evict(t, cost, count_limit, cost_limit);
        assert(t.subrange(t.len() - e.len(), t.len() as int) =~= s.subrange(s.len() - e.len(), s.len() as int));
    }
}

/// A contiguous part of `s` keeps uniqueness and signs of costs, and holds
/// only keys of `s`.
pub proof fn lemma_subrange(s: Order, a: int, b: int)
    requires
        0 <= a <= b <= s.len(),
    ensures
        keys_unique(s) ==> keys_unique(s.subrange(a, b)),
        costs_nonneg(s) ==> costs_nonneg(s.subrange(a, b)),
        forall|j: Seq<char>| has_key(s.subrange(a, b), j) ==> has_key(s, j),
{
    let t = s.subrange(a, b);
    if keys_unique(s) {
        assert forall|x: int, y: int| 0 <= x < t.len() && 0 <= y < t.len() && #[trigger] t[x].0 == #[trigger] t[y].0 implies x == y by {
            assert(s[x + a].0 == s[y + a].0);
        }
    }
    if costs_nonneg(s) {
        assert forall|x: int| 0 <= x < t.len() implies #[trigger] t[x].1 >= 0 by {
            assert(s[x + a].1 >= 0);
        }
    }
    assert forall|j: Seq<char>| has_key(t, j) implies has_key(s, j) by {
        let x = choose|x: int| 0 <= x < t.len() && #[trigger] t[x].0 == j;
        assert(s[x + a].0 == j);
    }
}

/// Appending a slot of a key not yet present keeps uniqueness.
pub proof fn lemma_push(s: Order, e: (Seq<char>, int))
    ensures
        forall|j: Seq<char>| has_key(s.push(e), j) <==> (has_key(s, j) || j == e.0),
        keys_unique(s) && !has_key(s, e.0) ==> keys_unique(s.push(e)),
        costs_nonneg(s) && e.1 >= 0 ==> costs_nonneg(s.push(e)),
        total_cost(s.push(e)) == total_cost(s) + e.1,
{
    let t = s.push(e);
    assert(t.drop_last() =~= s);
    assert forall|j: Seq<char>| has_key(t, j) <==> (has_key(s, j) || j == e.0) by {
        if has_key(s, j) {
            let x = choose|x: int| 0 <= x < s.len() && #[trigger] s[x].0 == j;
            assert(t[x].0 == j);
        }
        if j == e.0 {
            assert(t[s.len() as int].0 == j);
        }
        if has_key(t, j) {
            let x = choose|x: int| 0 <= x < t.len() && #[trigger] t[x].0 == j;
            if x < s.len() {
                assert(s[x].0 == j);
            }
        }
    }
    if keys_unique(s) && !has_key(s, e.0) {
        assert forall|x: int, y: int| 0 <= x < t.len() && 0 <= y < t.len() && #[trigger] t[x].0 == #[trigger] t[y].0 implies x == y by {
            if x < s.len() && y == s.len() {
                assert(s[x].0 == e.0);
            }
            if y < s.len() && x == s.len() {
                assert(s[y].0 == e.0);
            }
        }
    }
    if costs_nonneg(s) && e.1 >= 0 {
        assert forall|x: int| 0 <= x < t.len() implies #[trigger] t[x].1 >= 0 by {
            if x < s.len() {
                assert(s[x].1 >= 0);
            }
        }
    }
}

/// The abstract state of a cache: its recency order, its stored values, and
/// its two limits.
pub struct CacheModel {
    pub order: Order,
    pub values: Map<Seq<char>, Seq<char>>,
    pub count_limit: int,
    pub cost_limit: int,
}

impl CacheModel {
    /// Keys are unique, the stored values are exactly those of the keys in the
    /// order, and both limits hold.
    pub open spec fn wf(self) -> bool {
        &&& keys_unique(self.order)
        &&& costs_nonneg(self.order)
        &&& forall|k: Seq<char>| #[trigger] self.values.contains_key(k) <==> has_key(self.order, k)
        &&& self.order.len() <= self.count_limit
        &&& total_cost(self.order) <= self.cost_limit
    }

    /// The value stored for `k`, if any.
    pub open spec fn lookup(self, k: Seq<char>) -> Option<Seq<char>> {
        if self.values.contains_key(k) {
            Some(self.values[k])
        } else {
            None
        }
    }

    /// The sum of the costs of all entries.
    pub open spec fn total(self) -> int {
        total_cost(self.order)
    }

    /// An entry of cost `cost` can be admitted at all: the cost is
    /// non-negative and, once every other entry is evicted, it fits.
    pub open spec fn admits(self, cost: int) -> bool {
        0 <= cost <= self.cost_limit && 1 <= self.count_limit
    }

    /// The state after storing `v` under `k` with cost `cost`: the old entry of
    /// `k` is dropped, least recently used entries are evicted until the new
    /// one fits, and it joins as the most recently used.
    pub open spec fn set(self, k: Seq<char>, v: Seq<char>, cost: int) -> CacheModel {
        let order = evict(without_key(self.order, k), cost, self.count_limit, self.cost_limit).push((k, cost));
        CacheModel {
            order,
            values: Map::new(|j: Seq<char>| has_key(order, j), |j: Seq<char>| if j == k { v } else { self.values[j] }),
            count_limit: self.count_limit,
            cost_limit: self.cost_limit,
        }
    }

    /// The state after a read of `k`: a present key becomes the most recently
    /// used; nothing else changes.
    pub open spec fn touch(self, k: Seq<char>) -> CacheModel {
        if has_key(self.order, k) {
            CacheModel {
                order: without_key(self.order, k).push((k, cost_of(self.order, k))),
                ..self
            }
        } else {
            self
        }
    }

    /// The state after removing `k`.
    pub open spec fn remove(self, k: Seq<char>) -> CacheModel {
        CacheModel { order: without_key(self.order, k), values: self.values.remove(k), ..self }
    }

    /// The state after removing every entry.
    pub open spec fn clear(self) -> CacheModel {
        CacheModel { order: Seq::empty(), values: Map::empty(), ..self }
    }
}

/// Storing an admissible entry keeps the model well formed: keys stay
/// unique, and after eviction the entry count is within the count limit and
/// the total cost within the cost limit.
pub proof fn lemma_set_keeps_bounds(m: CacheModel, k: Seq<char>, v: Seq<char>, cost: int)
    requires
        m.wf(),
        m.admits(cost),
    ensures
        m.set(k, v, cost).wf(),
        m.set(k, v, cost).total() <= m.cost_limit,
        m.set(k, v, cost).order.len() <= m.count_limit,
{
    let w = without_key(m.order, k);
    lemma_without_key(m.order, k);
    lemma_evict(w, cost, m.count_limit, m.cost_limit);
    let e = evict(w, cost, m.count_limit, m.cost_limit);
    lemma_subrange(w, w.len() - e.len(), w.len() as int);
    assert(!has_key(e, k));
    lemma_push(e, (k, cost));
    let n = m.set(k, v, cost);
    assert forall|j: Seq<char>| #[trigger] n.values.contains_key(j) <==> has_key(n.order, j) by {}
}

/// Removing a key keeps the model well formed.
pub proof fn lemma_remove_keeps_bounds(m: CacheModel, k: Seq<char>)
    requires
        m.wf(),
    ensures
        m.remove(k).wf(),
{
    lemma_without_key(m.order, k);
    let n = m.remove(k);
    assert forall|j: Seq<char>| #[trigger] n.values.contains_key(j) <==> has_key(n.order, j) by {
        if j != k {
            assert(n.values.contains_key(j) == m.values.contains_key(j));
        }
    }
}

/// A read keeps the model well formed and changes no stored value.
pub proof fn lemma_touch_keeps_bounds(m: CacheModel, k: Seq<char>)
    requires
        m.wf(),
    ensures
        m.touch(k).wf(),
        m.touch(k).values == m.values,
        m.touch(k).total() == m.total(),
{
    if has_key(m.order, k) {
        let i = choose|i: int| 0 <= i < m.order.len() && m.order[i].0 == k;
        let w = without_key(m.order, k);
        lemma_without_key(m.order, k);
        lemma_push(w, (k, cost_of(m.order, k)));
        lemma_without_total(m.order, k, i);
        let n = m.touch(k);
        assert forall|j: Seq<char>| #[trigger] n.values.contains_key(j) <==> has_key(n.order, j) by {}
    }
}

/// Removing every entry leaves a well-formed, empty model.
pub proof fn lemma_clear_keeps_bounds(m: CacheModel)
    requires
        m.wf(),
    ensures
        m.clear().wf(),
        m.clear().total() == 0,
{
    let n = m.clear();
    lemma_total_prefix(m.order, 0);
    assert forall|j: Seq<char>| #[trigger] n.values.contains_key(j) <==> has_key(n.order, j) by {}
}

/// With unique keys, dropping the slot of `k` (at index `i`) lowers the total
/// by exactly its cost.
pub proof fn lemma_without_total(s: Order, k: Seq<char>, i: int)
    requires
        keys_unique(s),
        0 <= i < s.len(),
        s[i].0 == k,
    ensures
        total_cost(without_key(s, k)) + s[i].1 == total_cost(s),
        without_key(s, k).len() + 1 == s.len(),
        cost_of(s, k) == s[i].1,
    decreases s.len(),
{
    let d = s.drop_last();
    if i == s.len() - 1 {
        lemma_without_key(d, k);
        if has_key(d, k) {
            let m = choose|m: int| 0 <= m < d.len() && #[trigger] d[m].0 == k;
            assert(s[m].0 == k);
        }
    } else {
        assert(keys_unique(d));
        assert(d[i].0 == k);
        lemma_without_total(d, k, i);
        assert(s.last().0 != k);
        assert(without_key(s, k).drop_last() =~= without_key(d, k));
    }
}

/// With unique keys, dropping the slot of the first key drops the first slot.
pub proof fn lemma_without_first(s: Order)
    requires
        keys_unique(s),
        s.len() > 0,
    ensures
        without_key(s, s[0].0) == s.drop_first(),
    decreases s.len(),
{
    let k = s[0].0;
    let d = s.drop_last();
    if s.len() == 1 {
        assert(without_key(d, k) =~= d);
        assert(d =~= s.drop_first());
    } else {
        assert(s.last().0 != k);
        assert(keys_unique(d));
        assert(d[0].0 == k);
        lemma_without_first(d);
        assert(d.drop_first().push(s.last()) =~= s.drop_first());
    }
}

/// In a well-formed model there is one stored value per slot.
pub proof fn lemma_entry_count(m: CacheModel)
    requires
        m.wf(),
    ensures
        m.values.dom().finite(),
        m.values.dom().len() == m.order.len(),
{
    let keys = Seq::new(m.order.len(), |i: int| m.order[i].0);
    assert(keys.no_duplicates());
    assert(keys.to_set() =~= m.values.dom()) by {
        assert forall|k: Seq<char>| keys.to_set().contains(k) <==> m.values.dom().contains(k) by {
            if m.values.dom().contains(k) {
                let i = choose|i: int| 0 <= i < m.order.len() && #[trigger] m.order[i].0 == k;
                assert(keys[i] == k);
            }
            if keys.to_set().contains(k) {
                let i = choose|i: int| 0 <= i < keys.len() && keys[i] == k;
                assert(m.order[i].0 == k);
            }
        }
    }
    keys.unique_seq_to_set();
}

/// With unique keys, the cost recorded for the key of slot `i` is that slot's.
pub proof fn lemma_cost_of_at(s: Order, i: int)
    requires
        keys_unique(s),
        0 <= i < s.len(),
    ensures
        cost_of(s, s[i].0) == s[i].1,
{
    assert(s[i].0 == s[i].0);
}

/// Dropping the slot of `k` keeps the cost recorded for every other key.
pub proof fn lemma_cost_of_without(s: Order, k: Seq<char>, j: Seq<char>)
    requires
        keys_unique(s),
        has_key(s, j),
        j != k,
    ensures
        has_key(without_key(s, k), j),
        cost_of(without_key(s, k), j) == cost_of(s, j),
{
    let w = without_key(s, k);
    lemma_without_key(s, k);
    let i = choose|i: int| 0 <= i < w.len() && #[trigger] w[i].0 == j;
    let m = choose|m: int| 0 <= m < s.len() && s[m] == #[trigger] w[i];
    lemma_cost_of_at(w, i);
    lemma_cost_of_at(s, m);
}

/// Appending a slot of a new key records its cost and keeps the others'.
pub proof fn lemma_cost_of_push(s: Order, e: (Seq<char>, int), j: Seq<char>)
    requires
        keys_unique(s),
        !has_key(s, e.0),
    ensures
        cost_of(s.push(e), e.0) == e.1,
        has_key(s, j) ==> cost_of(s.push(e), j) == cost_of(s, j),
{
    let t = s.push(e);
    lemma_push(s, e);
    lemma_cost_of_at(t, s.len() as int);
    if has_key(s, j) {
        let i = choose|i: int| 0 <= i < s.len() && #[trigger] s[i].0 == j;
        lemma_cost_of_at(s, i);
        assert(t[i] == s[i]);
        lemma_cost_of_at(t, i);
    }
}

} // verus!
