use vstd::prelude::*;
use vstd::string::StringSliceAdditionalSpecFns;

use crate::database_manager::DatabaseManager;
use crate::error::CacheError;
use crate::model::{
    costs_nonneg, cost_of, has_key, keys_unique, lemma_push, lemma_remove_keeps_bounds,
    lemma_set_keeps_bounds, lemma_touch_keeps_bounds, lemma_clear_keeps_bounds, lemma_entry_count, lemma_cost_of_push,
    lemma_cost_of_without, lemma_subrange, lemma_total_front, lemma_without_first, lemma_total_prefix,
    lemma_without_key, lemma_without_total, total_cost, without_key, evict, fits, CacheModel, Order,
};

verus! {

/// The number of entries a cache made by `Cache::new` may hold.
pub const DEFAULT_COUNT_LIMIT: usize = 100;

/// The total cost a cache made by `Cache::new` may hold.
pub const DEFAULT_TOTAL_COST_LIMIT: i64 = 1000;

/// The recency order held by a vector of (key, cost) slots.
pub open spec fn slot_order(s: Seq<(String, i64)>) -> Order {
    s.map_values(|p: (String, i64)| (p.0@, p.1 as int))
}

/// The value part of each stored row.
pub open spec fn stored_values(rows: Map<Seq<char>, (Seq<char>, int)>) -> Map<Seq<char>, Seq<char>> {
    Map::new(|k: Seq<char>| rows.contains_key(k), |k: Seq<char>| rows[k].0)
}

/// The view of an optional string.
pub open spec fn opt_view(o: Option<String>) -> Option<Seq<char>> {
    match o {
        Some(s) => Some(s@),
        None => None,
    }
}

/// A named key/value cache bounded in entry count and total cost. Values live
/// in the storage backend; the cache keeps the recency order of the keys, with
/// their costs, and evicts the least recently used entries to make room.
pub struct Cache {
    name: String,
    count_limit: usize,
    total_cost_limit: i64,
    total: i64,
    slots: Vec<(String, i64)>,
    storage: DatabaseManager,
}

impl View for Cache {
    type V = CacheModel;

    closed spec fn view(&self) -> CacheModel {
        CacheModel {
            order: slot_order(self.slots@),
            values: stored_values(self.storage.rows()),
            count_limit: self.count_limit as int,
            cost_limit: self.total_cost_limit as int,
        }
    }
}

impl Cache {
    /// The cache's model is well formed, its running total is the model's
    /// total, its store is scoped by its name, and each stored row carries
    /// the cost that the recency order accounts for its key.
    pub closed spec fn wf(&self) -> bool {
        &&& self@.wf()
        &&& self.total as int == self@.total()
        &&& self.storage.name() == self.name@
        &&& self.costs_agree()
    }

    /// Each stored row's cost is the one recorded for its key in the order.
    closed spec fn costs_agree(&self) -> bool {
        forall|k: Seq<char>| #[trigger] self.storage.rows().contains_key(k)
            ==> self.storage.rows()[k].1 == cost_of(self@.order, k)
    }

    /// The name that scopes this cache's storage.
    pub closed spec fn spec_name(&self) -> Seq<char> {
        self.name@
    }

    /// A cache named `cache_name` with the default limits.
    pub fn new(cache_name: &str) -> (r: Result<Cache, CacheError>)
        ensures
            r matches Ok(c) ==> c.wf() && c.spec_name() == cache_name@ && c@.order.len() == 0
                && c@.values.dom().is_empty() && c@.count_limit == DEFAULT_COUNT_LIMIT
                && c@.cost_limit == DEFAULT_TOTAL_COST_LIMIT,
            r matches Err(e) ==> e == CacheError::OpenFailure || e == CacheError::SchemaFailure,
    {
        Cache::with_limits(cache_name, DEFAULT_COUNT_LIMIT, DEFAULT_TOTAL_COST_LIMIT)
    }

    /// A cache named `cache_name` that holds at most `count_limit` entries of
    /// total cost at most `total_cost_limit`. A negative cost limit is rejected.
    pub fn with_limits(cache_name: &str, count_limit: usize, total_cost_limit: i64) -> (r: Result<Cache, CacheError>)
        ensures
            total_cost_limit < 0 <==> r == Err::<Cache, CacheError>(CacheError::InvalidArgument),
            r matches Ok(c) ==> c.wf() && c.spec_name() == cache_name@ && c@.order.len() == 0
                && c@.values.dom().is_empty() && c@.count_limit == count_limit
                && c@.cost_limit == total_cost_limit,
            r matches Err(e) ==> e == CacheError::OpenFailure || e == CacheError::SchemaFailure
                || e == CacheError::InvalidArgument,
    {
        if total_cost_limit < 0 {
            return Err(CacheError::InvalidArgument);
        }
        let storage = match DatabaseManager::open(cache_name) {
            Ok(s) => s,
            Err(e) => return Err(e),
        };
        let c = Cache {
            name: cache_name.to_string(),
            count_limit,
            total_cost_limit,
            total: 0,
            slots: Vec::new(),
            storage,
        };
        assert(c@.values =~= Map::<Seq<char>, Seq<char>>::empty());
        assert(c@.order =~= Seq::<(Seq<char>, int)>::empty());
        Ok(c)
    }

    /// The name that scopes this cache's storage.
    pub fn name(&self) -> (r: &str)
        ensures
            r@ == self.spec_name(),
    {
        self.name.as_str()
    }

    /// The number of entries held.
    pub fn len(&self) -> (r: usize)
        requires
            self.wf(),
        ensures
            r == self@.order.len(),
            r == self@.values.dom().len(),
    {
        proof {
            lemma_entry_count(self@);
        }
        self.slots.len()
    }

    /// The sum of the costs of the entries held.
    pub fn total_cost(&self) -> (r: i64)
        requires
            self.wf(),
        ensures
            r == self@.total(),
    {
        self.total
    }

    /// The most entries this cache holds at once.
    pub fn count_limit(&self) -> (r: usize)
        ensures
            r == self@.count_limit,
    {
        self.count_limit
    }

    /// The largest total cost this cache holds at once.
    pub fn total_cost_limit(&self) -> (r: i64)
        ensures
            r == self@.cost_limit,
    {
        self.total_cost_limit
    }

    /// Stores `object` under `key`; its cost is its length in bytes.
    pub fn set_object(&mut self, key: &str, object: &str) -> (r: Result<(), CacheError>)
        requires
            old(self).wf(),
            object.spec_bytes().len() <= usize::MAX,
        ensures
            final(self).wf(),
            final(self).spec_name() == old(self).spec_name(),
            final(self)@.count_limit == old(self)@.count_limit,
            final(self)@.cost_limit == old(self)@.cost_limit,
            !old(self)@.admits(object.spec_bytes().len() as int) <==> r == Err::<(), CacheError>(CacheError::InvalidArgument),
            !old(self)@.admits(object.spec_bytes().len() as int) ==> final(self)@ == old(self)@,
            r is Ok ==> final(self)@ == old(self)@.set(key@, object@, object.spec_bytes().len() as int),
            r matches Err(e) ==> e == CacheError::InvalidArgument || e == CacheError::QueryFailure,
    {
        let len = object.len();
        proof {
            lemma_total_prefix(self@.order, 0);
        }
        if self.count_limit == 0 || len as u64 > self.total_cost_limit as u64 {
            return Err(CacheError::InvalidArgument);
        }
        self.store_entry(key, object, len as i64)
    }

    /// Stores `object` under `key` with cost `cost`. A negative cost, or one
    /// that could not fit even in an empty cache, is rejected and leaves the
    /// cache as it was.
    pub fn set_object_cost(&mut self, key: &str, object: &str, cost: i64) -> (r: Result<(), CacheError>)
        requires
            old(self).wf(),
        ensures
            final(self).wf(),
            final(self).spec_name() == old(self).spec_name(),
            final(self)@.count_limit == old(self)@.count_limit,
            final(self)@.cost_limit == old(self)@.cost_limit,
            !old(self)@.admits(cost as int) <==> r == Err::<(), CacheError>(CacheError::InvalidArgument),
            !old(self)@.admits(cost as int) ==> final(self)@ == old(self)@,
            r is Ok ==> final(self)@ == old(self)@.set(key@, object@, cost as int),
            r matches Err(e) ==> e == CacheError::InvalidArgument || e == CacheError::QueryFailure,
    {
        if cost < 0 || self.count_limit == 0 || cost > self.total_cost_limit {
            return Err(CacheError::InvalidArgument);
        }
        self.store_entry(key, object, cost)
    }

    /// The value stored under `key`, or `None` when there is none. A hit makes
    /// `key` the most recently used entry.
    pub fn object_for(&mut self, key: &str) -> (r: Result<Option<String>, CacheError>)
        requires
            old(self).wf(),
        ensures
            final(self).wf(),
            final(self).spec_name() == old(self).spec_name(),
            r matches Ok(o) ==> opt_view(o) == old(self)@.lookup(key@) && final(self)@ == old(self)@.touch(key@),
            r matches Err(e) ==> e == CacheError::QueryFailure && final(self)@ == old(self)@,
    {
        let ghost m0 = self@;
        match self.storage.find(key) {
            Err(e) => Err(e),
            Ok(None) => Ok(None),
            Ok(Some(v)) => {
                proof {
                    lemma_total_prefix(m0.order, 0);
                    assert(m0.values.contains_key(key@));
                }
                let (rest, rest_total, found) = Cache::split_key(&self.slots, key);
                let c = found.unwrap();
                proof {
                    let i = choose|i: int| 0 <= i < m0.order.len() && #[trigger] m0.order[i].0 == key@;
                    lemma_without_total(m0.order, key@, i);
                    lemma_without_key(m0.order, key@);
                    lemma_push(without_key(m0.order, key@), (key@, c as int));
                    lemma_touch_keeps_bounds(m0, key@);
                    let w = without_key(m0.order, key@);
                    assert forall|j: Seq<char>| #[trigger] self.storage.rows().contains_key(j)
                        implies self.storage.rows()[j].1 == cost_of(w.push((key@, c as int)), j) by {
                        lemma_cost_of_push(w, (key@, c as int), j);
                        if j != key@ {
                            assert(m0.values.contains_key(j));
                            lemma_cost_of_without(m0.order, key@, j);
                        }
                    }
                }
                self.slots = rest;
                self.slots.push((key.to_string(), c));
                self.total = rest_total + c;
                proof {
                    assert(slot_order(self.slots@) =~= m0.touch(key@).order);
                    assert(self@ == m0.touch(key@));
                }
                Ok(Some(v))
            },
        }
    }

    /// Removes the entry of `key`; removing an absent key is not an error.
    pub fn remove_object(&mut self, key: &str) -> (r: Result<(), CacheError>)
        requires
            old(self).wf(),
        ensures
            final(self).wf(),
            final(self).spec_name() == old(self).spec_name(),
            r is Ok ==> final(self)@ == old(self)@.remove(key@),
            r matches Err(e) ==> e == CacheError::QueryFailure && final(self)@ == old(self)@,
    {
        let ghost m0 = self@;
        proof {
            lemma_total_prefix(m0.order, 0);
        }
        let (rest, rest_total, _found) = Cache::split_key(&self.slots, key);
        match self.storage.destroy(key) {
            Ok(()) => {},
            Err(e) => {
                assert(self@ == m0);
                return Err(e);
            },
        }
        self.slots = rest;
        self.total = rest_total;
        proof {
            lemma_remove_keeps_bounds(m0, key@);
            assert(self@.values =~= m0.remove(key@).values);
            assert(self@ == m0.remove(key@));
            assert forall|j: Seq<char>| #[trigger] self.storage.rows().contains_key(j)
                implies self.storage.rows()[j].1 == cost_of(self@.order, j) by {
                assert(m0.values.contains_key(j));
                lemma_cost_of_without(m0.order, key@, j);
            }
        }
        Ok(())
    }

    /// Removes every entry.
    pub fn remove_all_objects(&mut self) -> (r: Result<(), CacheError>)
        requires
            old(self).wf(),
        ensures
            final(self).wf(),
            final(self).spec_name() == old(self).spec_name(),
            r is Ok ==> final(self)@ == old(self)@.clear(),
            r matches Err(e) ==> e == CacheError::QueryFailure && final(self)@ == old(self)@,
    {
        let ghost m0 = self@;
        match self.storage.destroy_all() {
            Ok(()) => {},
            Err(e) => {
                assert(self@ == m0);
                return Err(e);
            },
        }
        self.slots = Vec::new();
        self.total = 0;
        proof {
            lemma_clear_keeps_bounds(m0);
            assert(self@.values =~= m0.clear().values);
            assert(self@.order =~= m0.clear().order);
            assert(self@ == m0.clear());
        }
        Ok(())
    }

    /// Stores `value` under `key` with cost `cost`, which must be admissible:
    /// the old entry of `key` goes, least recently used entries are evicted
    /// until the new one fits, and it joins as the most recently used.
    fn store_entry(&mut self, key: &str, value: &str, cost: i64) -> (r: Result<(), CacheError>)
        requires
            old(self).wf(),
            old(self)@.admits(cost as int),
        ensures
            final(self).wf(),
            final(self).spec_name() == old(self).spec_name(),
            final(self)@.count_limit == old(self)@.count_limit,
            final(self)@.cost_limit == old(self)@.cost_limit,
            r is Ok ==> final(self)@ == old(self)@.set(key@, value@, cost as int),
            r matches Err(e) ==> e == CacheError::QueryFailure,
    {
        let ghost m0 = self@;
        let ghost target = evict(without_key(m0.order, key@), cost as int, m0.count_limit, m0.cost_limit);
        proof {
            lemma_total_prefix(m0.order, 0);
        }
        let (rest, rest_total, found) = Cache::split_key(&self.slots, key);
        if found.is_some() {
            match self.storage.destroy(key) {
                Ok(()) => {},
                Err(e) => {
                    assert(self@ == m0);
                    return Err(e);
                },
            }
        }
        self.slots = rest;
        self.total = rest_total;
        proof {
            lemma_remove_keeps_bounds(m0, key@);
            lemma_without_key(m0.order, key@);
            assert(self@.values =~= m0.remove(key@).values);
            assert(self@ == m0.remove(key@));
            assert forall|j: Seq<char>| #[trigger] self.storage.rows().contains_key(j)
                implies self.storage.rows()[j].1 == cost_of(self@.order, j) by {
                assert(m0.values.contains_key(j));
                lemma_cost_of_without(m0.order, key@, j);
            }
        }
        while self.slots.len() >= self.count_limit || self.total > self.total_cost_limit - cost
            invariant
                self.wf(),
                self.spec_name() == old(self).spec_name(),
                self@.count_limit == m0.count_limit,
                self@.cost_limit == m0.cost_limit,
                m0 == old(self)@,
                m0.admits(cost as int),
                evict(self@.order, cost as int, m0.count_limit, m0.cost_limit) == target,
                !self@.values.contains_key(key@),
                forall|j: Seq<char>| #[trigger] self@.values.contains_key(j) ==> m0.values.contains_key(j)
                    && self@.values[j] == m0.values[j],
            decreases self.slots.len(),
        {
            let ghost m = self@;
            proof {
                if self.slots.len() == 0 {
                    assert(fits(m.order, cost as int, m.count_limit, m.cost_limit));
                }
            }
            match self.storage.destroy(self.slots[0].0.as_str()) {
                Ok(()) => {},
                Err(e) => {
                    assert(self@ == m);
                    return Err(e);
                },
            }
            let first = self.slots.remove(0);
            proof {
                let k0 = m.order[0].0;
                assert(first.0@ == k0);
                lemma_total_front(m.order);
                lemma_without_first(m.order);
                lemma_remove_keeps_bounds(m, k0);
                lemma_total_prefix(m.order.drop_first(), 0);
                assert(slot_order(self.slots@) =~= m.order.drop_first());
                assert(self@.values =~= m.remove(k0).values);
                assert(self@ == m.remove(k0));
                assert forall|j: Seq<char>| #[trigger] self.storage.rows().contains_key(j)
                    implies self.storage.rows()[j].1 == cost_of(self@.order, j) by {
                    assert(m.values.contains_key(j));
                    lemma_cost_of_without(m.order, k0, j);
                }
            }
            self.total = self.total - first.1;
        }
        proof {
            assert(self@.order == target);
        }
        let ghost before = self@;
        match self.storage.create_or_update(key, value, cost) {
            Ok(()) => {},
            Err(e) => {
                assert(self@ == before);
                return Err(e);
            },
        }
        let ghost slots_before = self.slots@;
        self.slots.push((key.to_string(), cost));
        self.total = self.total + cost;
        proof {
            let n = m0.set(key@, value@, cost as int);
            assert(slot_order(self.slots@) =~= slot_order(slots_before).push((key@, cost as int)));
            lemma_push(target, (key@, cost as int));
            lemma_set_keeps_bounds(m0, key@, value@, cost as int);
            assert(n.order == target.push((key@, cost as int)));
            assert forall|j: Seq<char>| #[trigger] self@.values.contains_key(j) == n.values.contains_key(j) by {
                assert(before.values.contains_key(j) == has_key(before.order, j));
            }
            assert forall|j: Seq<char>| #[trigger] self@.values.contains_key(j) implies self@.values[j] == n.values[j] by {
                if j != key@ {
                    assert(before.values.contains_key(j) == has_key(before.order, j));
                }
            }
            assert(self@.values =~= n.values);
            assert(self@ == n);
            assert forall|j: Seq<char>| #[trigger] self.storage.rows().contains_key(j)
                implies self.storage.rows()[j].1 == cost_of(self@.order, j) by {
                lemma_cost_of_push(target, (key@, cost as int), j);
                if j != key@ {
                    assert(before.values.contains_key(j) == has_key(before.order, j));
                }
            }
        }
        Ok(())
    }

    /// The slots without the one of `key`, their total cost, and the cost of
    /// `key` when it was present.
    fn split_key(slots: &Vec<(String, i64)>, key: &str) -> (r: (Vec<(String, i64)>, i64, Option<i64>))
        requires
            keys_unique(slot_order(slots@)),
            costs_nonneg(slot_order(slots@)),
            total_cost(slot_order(slots@)) <= i64::MAX,
        ensures
            slot_order(r.0@) == without_key(slot_order(slots@), key@),
            r.1 as int == total_cost(slot_order(r.0@)),
            r.2 is Some <==> has_key(slot_order(slots@), key@),
            r.2 matches Some(c) ==> c as int == cost_of(slot_order(slots@), key@),
    {
        let ghost s = slot_order(slots@);
        let target = key.to_string();
        let mut out: Vec<(String, i64)> = Vec::new();
        let mut acc: i64 = 0;
        let mut found: Option<i64> = None;
        let n = slots.len();
        let mut i: usize = 0;
        proof {
            lemma_subrange(s, 0, 0);
            assert(slot_order(out@) =~= without_key(s.subrange(0, 0), key@));
        }
        while i < n
            invariant
                n == slots.len(),
                s == slot_order(slots@),
                target@ == key@,
                0 <= i <= n,
                keys_unique(s),
                costs_nonneg(s),
                total_cost(s) <= i64::MAX,
                slot_order(out@) == without_key(s.subrange(0, i as int), key@),
                acc as int == total_cost(slot_order(out@)),
                found matches Some(c) ==> exists|j: int| 0 <= j < i && #[trigger] s[j].0 == key@ && s[j].1 == c,
                found is None ==> !has_key(s.subrange(0, i as int), key@),
            decreases n - i,
        {
            let ghost p = s.subrange(0, i as int);
            let ghost q = s.subrange(0, i as int + 1);
            proof {
                assert(q.drop_last() =~= p);
                assert(q.last() == s[i as int]);
                lemma_subrange(s, 0, i as int);
                lemma_without_key(p, key@);
                lemma_total_prefix(s, i as int + 1);
            }
            if slots[i].0 == target {
                proof {
                    assert(s[i as int].0 == key@);
                }
                found = Some(slots[i].1);
            } else {
                let ghost before = out@;
                out.push((slots[i].0.clone(), slots[i].1));
                proof {
                    assert(slot_order(out@) =~= slot_order(before).push(s[i as int]));
                    lemma_push(slot_order(before), s[i as int]);
                    assert(s[i as int].1 >= 0);
                }
                acc = acc + slots[i].1;
            }
            proof {
                if found is None {
                    assert forall|j: int| 0 <= j < q.len() implies #[trigger] q[j].0 != key@ by {
                        if j < p.len() {
                            assert(q[j] == p[j]);
                            if p[j].0 == key@ {
                                assert(has_key(p, key@));
                            }
                        }
                    }
                }
            }
            i = i + 1;
        }
        proof {
            assert(s.subrange(0, n as int) =~= s);
            if let Some(c) = found {
                let j = choose|j: int| 0 <= j < n && #[trigger] s[j].0 == key@ && s[j].1 == c;
                lemma_without_total(s, key@, j);
            }
        }
        (out, acc, found)
    }
}

} // verus!
