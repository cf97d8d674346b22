//! What a map promises of the bindings that follow it, and each binding of what it
//! keeps.

use vstd::prelude::*;
use crate::error::Result;
use crate::ser::{KeyFormat, Model, Serializer};
use crate::store::{Records, StoreState};
use super::bind::{
    all_pairs, counted, in_category, pairs_at, pairs_with, size_step, DeletedValues, DerivedFirst,
    Derive, DeriveMany, Histogram, KeyFirst, OneOf, PairIndex, PairUp, SizeCounter, ValueItself,
};
use super::bound::{changed, Binding, Both, BoundMap};
use super::secondary::{SecMap, SecSet};

verus! {

/// A change at a key gives it the new value, or takes it out, and leaves every other key
/// as it was.
pub proof fn law_change_at_a_key<K, V>(m: Map<K, V>, k: K, v: V, x: K)
    ensures
        changed(m, k, Some(v)).contains_key(k) && changed(m, k, Some(v))[k] == v,
        !changed(m, k, None).contains_key(k),
        x != k ==> changed(m, k, Some(v)).contains_key(x) == m.contains_key(x),
        x != k ==> changed(m, k, None).contains_key(x) == m.contains_key(x),
        x != k && m.contains_key(x) ==> changed(m, k, Some(v))[x] == m[x],
        x != k && m.contains_key(x) ==> changed(m, k, None)[x] == m[x],
{
}

impl<
    KF: KeyFormat,
    VF: Serializer,
    Y: Binding<KF, VF>,
    L: Binding<KF, VF>,
> BoundMap<KF, VF, Y, L> {
    /// A change that is answered with success is in the map, at its key and nowhere else,
    /// and every binding keeps what the changed entries tell.
    pub proof fn law_change_is_followed<T>(
        &self,
        before: &Self,
        a: StoreState,
        b: StoreState,
        k: Model<KF>,
        v: Option<Model<VF>>,
        spent: nat,
        r: Result<T>,
        x: Model<KF>,
    )
        requires
            self.turned(before, a, b, k, v, spent, r),
            r is Ok,
        ensures
            ({
                let was = before.backing().contents(a.records);
                let now = self.backing().contents(b.records);
                &&& now.contains_key(k) == (v is Some)
                &&& v matches Some(y) ==> now[k] == y
                &&& x != k ==> now.contains_key(x) == was.contains_key(x)
                &&& x != k && was.contains_key(x) ==> now[x] == was[x]
                &&& self.early().in_step(b.records, now)
                &&& self.late().in_step(b.records, now)
            }),
    {
    }
}

/// Two bindings that follow one map both keep what its entries tell.
pub proof fn law_both_follow<
    KF: KeyFormat,
    VF: Serializer,
    A: Binding<KF, VF>,
    B: Binding<KF, VF>,
>(both: &Both<A, B>, records: Records, m: Map<Model<KF>, Model<VF>>)
    requires
        both.in_step(records, m),
    ensures
        both.first.in_step(records, m),
        both.second.in_step(records, m),
{
}

/// An inverse map is made of the values themselves.
pub proof fn law_value_itself<KF: KeyFormat, VF: Serializer>(
    f: &ValueItself<VF>,
    k: Model<KF>,
    v: Model<VF>,
)
    ensures
        <ValueItself<VF> as Derive<KF, VF, VF>>::derived(f, k, v) == v,
{
}

/// One thing derived is a list of one.
pub proof fn law_one_of<KF: KeyFormat, VF: Serializer, D: Serializer, F: Derive<KF, VF, D>>(
    f: &OneOf<F>,
    k: Model<KF>,
    v: Model<VF>,
)
    ensures
        <OneOf<F> as DeriveMany<KF, VF, D>>::derived_all(f, k, v).len() == 1,
        <OneOf<F> as DeriveMany<KF, VF, D>>::derived_all(f, k, v)[0] == f.rule.derived(k, v),
{
}

/// A pair has the key of the entry and what is derived from it, in the order that is
/// asked for.
pub proof fn law_pair_orders<KF: KeyFormat, D: KeyFormat>(k: Model<KF>, d: Model<D>)
    ensures
        <KeyFirst as PairUp<KF, D, crate::ser::PairFormat<KF, D>>>::pair(&KeyFirst, k, d) == (k, d),
        <DerivedFirst as PairUp<KF, D, crate::ser::PairFormat<D, KF>>>::pair(&DerivedFirst, k, d)
            == (d, k),
{
}

/// A set of pairs that is in step holds the pair of a key and a derived value exactly
/// where that value is derived from the entry of the key.
pub proof fn law_pair_index_answers<
    KF: KeyFormat,
    VF: Serializer,
    D: KeyFormat,
    T: KeyFormat,
    M: SecSet<T>,
    F: DeriveMany<KF, VF, D>,
    P: PairUp<KF, D, T>,
>(
    index: &PairIndex<D, T, M, F, P>,
    records: Records,
    m: Map<Model<KF>, Model<VF>>,
    k: Model<KF>,
    d: Model<D>,
)
    requires
        index.in_step(records, m),
    ensures
        index.secondary.sec_set().contains(index.order.pair(k, d)) <==> m.contains_key(k)
            && index.rule.derived_all(k, m[k]).contains(d),
{
    let p = index.order.pair(k, d);
    if m.contains_key(k) && index.rule.derived_all(k, m[k]).contains(d) {
        let ds = index.rule.derived_all(k, m[k]);
        let i = choose|i: int| 0 <= i < ds.len() && ds[i] == d;
        assert(ds[i] == d);
        assert(pairs_with(&index.order, k, ds).contains(p));
        assert(pairs_at(&index.rule, &index.order, k, Some(m[k])).contains(p));
        assert(all_pairs(&index.rule, &index.order, m).contains(p));
    }
    if all_pairs(&index.rule, &index.order, m).contains(p) {
        let x = choose|x: Model<KF>| #[trigger] m.contains_key(x)
            && pairs_at(&index.rule, &index.order, x, Some(m[x])).contains(p);
        let ds = index.rule.derived_all(x, m[x]);
        let i = choose|i: int| 0 <= i < ds.len() && p == index.order.pair(x, #[trigger] ds[i]);
        index.order.pair_tells(k, d, x, ds[i]);
        assert(ds.contains(d));
    }
}

/// A counter that is in step holds the number of entries.
pub proof fn law_size_answers<KF: KeyFormat, VF: Serializer>(
    counter: &SizeCounter,
    records: Records,
    m: Map<Model<KF>, Model<VF>>,
)
    requires
        Binding::<KF, VF>::in_step(counter, records, m),
    ensures
        counter.counter.value(records) matches Some(n) && n as int == m.dom().len(),
{
}

/// A new key counts one more, a removed one counts one less, and a new value for a key
/// changes no number.
pub proof fn law_size_steps<V>(was: V, new: V)
    ensures
        size_step(None, Some(new)) == 1,
        size_step(Some(was), None) == -1,
        size_step(Some(was), Some(new)) == 0,
        size_step(None::<V>, None) == 0,
{
}

/// A histogram that is in step has for each category the number of entries that fall into
/// it, and no number where none does.
pub proof fn law_histogram_answers<
    KF: KeyFormat,
    VF: Serializer,
    C: KeyFormat,
    F: Derive<KF, VF, C>,
>(
    histogram: &Histogram<C, F>,
    records: Records,
    m: Map<Model<KF>, Model<VF>>,
    c: Model<C>,
    k: Model<KF>,
)
    requires
        Binding::<KF, VF>::in_step(histogram, records, m),
        m.dom().finite(),
        m.dom().len() <= i64::MAX,
    ensures
        histogram.counts@.contains_key(c) ==> histogram.counts@[c] as int == m.dom().filter(
            |x: Model<KF>| histogram.category.derived(x, m[x]) == c,
        ).len() && histogram.counts@[c] > 0,
        m.contains_key(k) && histogram.category.derived(k, m[k]) == c
            ==> histogram.counts@.contains_key(c),
{
    let s = in_category(&histogram.category, m, c);
    let t = m.dom().filter(|x: Model<KF>| histogram.category.derived(x, m[x]) == c);
    assert(s =~= t);
    vstd::set_lib::lemma_len_subset(t, m.dom());
    if m.contains_key(k) && histogram.category.derived(k, m[k]) == c {
        assert(s.contains(k));
        if s.len() == 0 {
            assert(s =~= Set::empty());
        }
    }
}

/// What is removed from the map goes, with its value, to the map of deleted values; what
/// is put or replaced leaves that map as it is.
pub proof fn law_deleted_values_are_kept<KF: KeyFormat, VF: Serializer, M: SecMap<KF, VF>>(
    after: &DeletedValues<KF, VF, M>,
    before: &DeletedValues<KF, VF, M>,
    a: Records,
    b: Records,
    m: Map<Model<KF>, Model<VF>>,
    m2: Map<Model<KF>, Model<VF>>,
    k: Model<KF>,
    was: Option<Model<VF>>,
    new: Option<Model<VF>>,
)
    requires
        before.in_step(a, m),
        after.in_step(b, m2),
        after.stepped(before, k, was, new),
    ensures
        ({
            let s = before.deleted.sec_map(a);
            let t = after.deleted.sec_map(b);
            &&& new is None ==> (was matches Some(v) ==> t == s.insert(k, v))
            &&& new is Some || was is None ==> t == s
        }),
{
}

} // verus!
