//! Sums over the finite maps that hold per-account amounts.

use vstd::prelude::*;

verus! {

/// The sum of `f(v)` over every value `v` stored in `m`.
///
/// For a finite map it adds up every entry once, whatever order `choose`
/// takes them in (see `lemma_sum_remove`).
pub open spec fn sum_values<V>(m: Map<u64, V>, f: spec_fn(V) -> int) -> int
    decreases m.dom().len(),
{
    if m.dom().finite() && m.dom().len() > 0 {
        let k = m.dom().choose();
        f(m[k]) + sum_values(m.remove(k), f)
    } else {
        0
    }
}

/// Taking any one entry out of a finite map takes exactly its amount off the sum.
pub proof fn lemma_sum_remove<V>(m: Map<u64, V>, f: spec_fn(V) -> int, k: u64)
    requires
        m.dom().finite(),
        m.dom().contains(k),
    ensures
        sum_values(m, f) == f(m[k]) + sum_values(m.remove(k), f),
    decreases m.dom().len(),
{
    let c = m.dom().choose();
    if c != k {
        let mc = m.remove(c);
        let mk = m.remove(k);
        assert(mc.dom() =~= m.dom().remove(c));
        assert(mk.dom() =~= m.dom().remove(k));
        lemma_sum_remove(mc, f, k);
        lemma_sum_remove(mk, f, c);
        assert(mc.remove(k) =~= mk.remove(c));
    }
}

/// Writing `v` at `k` changes the sum by `f(v)` less what `k` held before.
pub proof fn lemma_sum_insert<V>(m: Map<u64, V>, f: spec_fn(V) -> int, k: u64, v: V)
    requires
        m.dom().finite(),
    ensures
        sum_values(m.insert(k, v), f) == sum_values(m, f) + f(v) - (if m.dom().contains(k) {
            f(m[k])
        } else {
            0
        }),
{
    let mi = m.insert(k, v);
    assert(mi.dom() =~= m.dom().insert(k));
    lemma_sum_remove(mi, f, k);
    if m.dom().contains(k) {
        lemma_sum_remove(m, f, k);
        assert(mi.remove(k) =~= m.remove(k));
    } else {
        assert(mi.remove(k) =~= m);
    }
}

/// When every entry is at least zero, the sum is at least any one entry.
pub proof fn lemma_sum_bounds_entry<V>(m: Map<u64, V>, f: spec_fn(V) -> int, k: u64)
    requires
        m.dom().finite(),
        m.dom().contains(k),
        forall|j: u64| m.dom().contains(j) ==> f(#[trigger] m[j]) >= 0,
    ensures
        sum_values(m, f) >= f(m[k]),
{
    lemma_sum_remove(m, f, k);
    lemma_sum_nonnegative(m.remove(k), f);
}

/// When every entry is at least zero, so is the sum.
pub proof fn lemma_sum_nonnegative<V>(m: Map<u64, V>, f: spec_fn(V) -> int)
    requires
        forall|j: u64| m.dom().contains(j) ==> f(#[trigger] m[j]) >= 0,
    ensures
        sum_values(m, f) >= 0,
    decreases m.dom().len(),
{
    if m.dom().finite() && m.dom().len() > 0 {
        let k = m.dom().choose();
        assert(m.remove(k).dom() =~= m.dom().remove(k));
        lemma_sum_nonnegative(m.remove(k), f);
    }
}

} // verus!

verus! {

/// The map that writing each `(key, value)` of `pairs` in turn leaves:
/// a later pair for the same key wins.
pub open spec fn map_of_pairs<V>(pairs: Seq<(u64, V)>) -> Map<u64, V>
    decreases pairs.len(),
{
    if pairs.len() == 0 {
        Map::empty()
    } else {
        map_of_pairs(pairs.drop_last()).insert(pairs.last().0, pairs.last().1)
    }
}

/// The set of the ids in `ids`.
pub open spec fn set_of(ids: Seq<u64>) -> Set<u64>
    decreases ids.len(),
{
    if ids.len() == 0 {
        Set::empty()
    } else {
        set_of(ids.drop_last()).insert(ids.last())
    }
}

} // verus!
