use vstd::prelude::*;

use crate::model::{
    evict, fits, has_key, keys_unique, lemma_push, lemma_set_keeps_bounds, lemma_without_key, total_cost, without_key,
    CacheModel, Order,
};

verus! {

/// Storing `v` under `k` and then reading `k` yields `v`.
pub proof fn law_set_then_get(m: CacheModel, k: Seq<char>, v: Seq<char>, cost: int)
    requires
        m.wf(),
        m.admits(cost),
    ensures
        m.set(k, v, cost).lookup(k) == Some(v),
{
    let n = m.set(k, v, cost);
    assert(n.order[n.order.len() - 1].0 == k);
    assert(has_key(n.order, k));
}

/// Storing `v1` and then `v2` under the same key yields `v2`, and the key
/// holds exactly one slot.
pub proof fn law_overwrite(m: CacheModel, k: Seq<char>, v1: Seq<char>, c1: int, v2: Seq<char>, c2: int)
    requires
        m.wf(),
        m.admits(c1),
        m.admits(c2),
    ensures
        m.set(k, v1, c1).set(k, v2, c2).lookup(k) == Some(v2),
        keys_unique(m.set(k, v1, c1).set(k, v2, c2).order),
        has_key(m.set(k, v1, c1).set(k, v2, c2).order, k),
{
    let m1 = m.set(k, v1, c1);
    lemma_set_keeps_bounds(m, k, v1, c1);
    lemma_set_keeps_bounds(m1, k, v2, c2);
    law_set_then_get(m1, k, v2, c2);
}

/// After removing `k`, reading `k` finds nothing, whether or not it was
/// present.
pub proof fn law_remove_then_get(m: CacheModel, k: Seq<char>)
    ensures
        m.remove(k).lookup(k) == None::<Seq<char>>,
{
}

/// After clearing, reading any key finds nothing.
pub proof fn law_clear_then_get(m: CacheModel, k: Seq<char>)
    ensures
        m.clear().lookup(k) == None::<Seq<char>>,
{
}

/// The order of a model holding one slot.
proof fn lemma_single(k: Seq<char>, c: int) -> (s: Order)
    ensures
        s == Seq::<(Seq<char>, int)>::empty().push((k, c)),
        total_cost(s) == c,
        s.len() == 1,
        s[0] == (k, c),
{
    let s = Seq::<(Seq<char>, int)>::empty().push((k, c));
    assert(s.drop_last() =~= Seq::<(Seq<char>, int)>::empty());
    assert(total_cost(s.drop_last()) == 0);
    s
}

/// With room for two entries, storing three distinct keys `a`, `b`, `c` in
/// turn, into an empty cache and with costs that fit, evicts `a`, the least
/// recently used, and keeps `b` and `c`.
pub proof fn law_count_limit_evicts_least_recent(
    m: CacheModel,
    a: Seq<char>,
    va: Seq<char>,
    ca: int,
    b: Seq<char>,
    vb: Seq<char>,
    cb: int,
    c: Seq<char>,
    vc: Seq<char>,
    cc: int,
)
    requires
        m.wf(),
        m.order.len() == 0,
        m.count_limit == 2,
        a != b && b != c && a != c,
        m.admits(ca) && m.admits(cb) && m.admits(cc),
        ca + cb <= m.cost_limit,
        cb + cc <= m.cost_limit,
    ensures
        m.set(a, va, ca).set(b, vb, cb).set(c, vc, cc).lookup(a) == None::<Seq<char>>,
        m.set(a, va, ca).set(b, vb, cb).set(c, vc, cc).lookup(b) == Some(vb),
        m.set(a, va, ca).set(b, vb, cb).set(c, vc, cc).lookup(c) == Some(vc),
{
    let tl = m.cost_limit;
    let m1 = m.set(a, va, ca);
    lemma_without_key(m.order, a);
    let e0 = Seq::<(Seq<char>, int)>::empty();
    assert(without_key(m.order, a) =~= e0);
    assert(evict(e0, ca, 2, tl) == e0);
    let s1 = lemma_single(a, ca);
    assert(m1.order =~= s1);
    lemma_without_key(s1, b);
    assert(s1[0].0 != b);
    assert(!has_key(s1, b));
    assert(without_key(s1, b) == s1);
    assert(fits(s1, cb, 2, tl));
    assert(evict(s1, cb, 2, tl) == s1);
    let s2 = s1.push((b, cb));
    let m2 = m1.set(b, vb, cb);
    assert(m2.order =~= s2);
    lemma_push(s1, (b, cb));
    assert(s2[0].0 != c && s2[1].0 != c);
    assert(!has_key(s2, c));
    lemma_without_key(s2, c);
    assert(without_key(s2, c) == s2);
    assert(!fits(s2, cc, 2, tl));
    let s3 = lemma_single(b, cb);
    assert(s2.drop_first() =~= s3);
    assert(evict(s2, cc, 2, tl) == evict(s3, cc, 2, tl));
    assert(fits(s3, cc, 2, tl));
    assert(evict(s3, cc, 2, tl) == s3);
    let m3 = m2.set(c, vc, cc);
    let s4 = s3.push((c, cc));
    assert(m3.order =~= s4);
    lemma_push(s3, (c, cc));
    assert(s3[0].0 != a);
    assert(!has_key(s3, a));
    assert(has_key(s3, b));
    assert(has_key(m3.order, b));
    assert(has_key(m3.order, c));
}

/// With a cost limit of 10, storing an entry of cost 8 and then one of
/// cost 5 under another key, into an empty cache with room for two entries,
/// evicts the first before the second joins, and the total stays within 10.
pub proof fn law_cost_limit_evicts(m: CacheModel, k1: Seq<char>, v1: Seq<char>, k2: Seq<char>, v2: Seq<char>)
    requires
        m.wf(),
        m.order.len() == 0,
        m.cost_limit == 10,
        m.count_limit >= 2,
        k1 != k2,
    ensures
        m.set(k1, v1, 8).lookup(k1) == Some(v1),
        m.set(k1, v1, 8).set(k2, v2, 5).lookup(k1) == None::<Seq<char>>,
        m.set(k1, v1, 8).set(k2, v2, 5).lookup(k2) == Some(v2),
        m.set(k1, v1, 8).set(k2, v2, 5).total() <= 10,
{
    let cl = m.count_limit;
    law_set_then_get(m, k1, v1, 8);
    let m1 = m.set(k1, v1, 8);
    lemma_without_key(m.order, k1);
    let e0 = Seq::<(Seq<char>, int)>::empty();
    assert(without_key(m.order, k1) =~= e0);
    assert(evict(e0, 8, cl, 10) == e0);
    let s1 = lemma_single(k1, 8);
    assert(m1.order =~= s1);
    lemma_without_key(s1, k2);
    assert(s1[0].0 != k2);
    assert(!has_key(s1, k2));
    assert(without_key(s1, k2) == s1);
    assert(!fits(s1, 5, cl, 10));
    assert(s1.drop_first() =~= e0);
    assert(evict(s1, 5, cl, 10) == evict(e0, 5, cl, 10));
    assert(evict(e0, 5, cl, 10) == e0);
    let m2 = m1.set(k2, v2, 5);
    let s2 = lemma_single(k2, 5);
    assert(m2.order =~= s2);
    assert(s2[0].0 != k1);
    assert(!has_key(m2.order, k1));
    assert(has_key(m2.order, k2));
}

} // verus!
