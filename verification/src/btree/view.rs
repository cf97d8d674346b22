//! Views of a range of an ordered map, in either direction.

use vstd::prelude::*;
use std::cmp::Ordering;
use crate::error::{DbError, Result};
use crate::ser::{group_key_order, models, KeyFormat, Model, Serializer};
use crate::store::{carried_out, keeps_state, opt_model, served, Records, Store, StoreState};
use super::contents::lists;
use super::map::write::{frames, spares};
use super::map::{lookup, BTreeMap};
use super::range::{
    entry_models, hi_ok, in_range, is_greatest, is_least, lemma_ranged_all, lists_keys, lo_ok,
    ranged,
};

verus! {

/// A key of a format.
pub type KeyOf<A> = <<A as OrderedMapAdapter>::KF as Serializer>::Item;

/// A value of a format.
pub type ValueOf<A> = <<A as OrderedMapAdapter>::VF as Serializer>::Item;

/// `r` is the entry of the map with the least key; `None` where the map is empty.
pub open spec fn is_first<KF: KeyFormat, V>(
    kf: &KF,
    m: Map<Model<KF>, V>,
    r: Option<(Model<KF>, V)>,
) -> bool {
    match r {
        None => m == Map::<Model<KF>, V>::empty(),
        Some((k, v)) => is_least(kf, m, k) && m[k] == v,
    }
}

/// `r` is the entry of the map with the greatest key; `None` where the map is empty.
pub open spec fn is_last<KF: KeyFormat, V>(
    kf: &KF,
    m: Map<Model<KF>, V>,
    r: Option<(Model<KF>, V)>,
) -> bool {
    match r {
        None => m == Map::<Model<KF>, V>::empty(),
        Some((k, v)) => is_greatest(kf, m, k) && m[k] == v,
    }
}

/// `r` is the entry that a view in this direction comes to first.
pub open spec fn is_end<KF: KeyFormat, V>(
    kf: &KF,
    m: Map<Model<KF>, V>,
    descending: bool,
    r: Option<(Model<KF>, V)>,
) -> bool {
    if descending {
        is_last(kf, m, r)
    } else {
        is_first(kf, m, r)
    }
}

/// The model of an optional entry.
pub open spec fn opt_entry<K: View, V: View>(e: Option<(K, V)>) -> Option<(K::V, V::V)> {
    match e {
        Some((k, v)) => Some((k@, v@)),
        None => None,
    }
}

/// No key lies between two bounds, whatever the map: they are the wrong way round, or
/// equal and one of them exclusive.
pub open spec fn crossed<KF: KeyFormat>(
    kf: &KF,
    lo: Option<Model<KF>>,
    lo_inc: bool,
    hi: Option<Model<KF>>,
    hi_inc: bool,
) -> bool {
    lo matches Some(l) && (hi matches Some(h) && (kf.lt(h, l) || (l == h && !(lo_inc && hi_inc))))
}

/// A spoiled map answers with corruption; over a closed store any other answers that it
/// is closed.
pub open spec fn refused<T>(broken: bool, st: StoreState, r: Result<T>) -> bool {
    &&& broken ==> (r matches Err(e) && e is DataCorruption)
    &&& !broken && st.closed ==> r == Err::<T, DbError>(DbError::StoreClosed)
}

/// A store that serves reads and refuses writes.
pub open spec fn locked(st: StoreState) -> bool {
    st.readable && st.read_only && !st.closed
}

/// Where the bounds leave no key the map is not asked; elsewhere it may refuse.
pub open spec fn asked<T>(
    broken: bool,
    st: StoreState,
    keyless: bool,
    r: Result<Option<T>>,
) -> bool {
    &&& keyless ==> (r matches Ok(e) && e is None)
    &&& !keyless ==> refused(broken, st, r)
}

/// What a change from `m` to `goal` that failed leaves: records but those of `recids` are as
/// they were, and the map is broken, as it was, or changed.
pub open spec fn half_done<K, V>(
    a: StoreState,
    b: StoreState,
    recids: Set<u64>,
    broken: bool,
    m: Map<K, V>,
    now: Map<K, V>,
    goal: Map<K, V>,
) -> bool {
    &&& keeps_state(a, b)
    &&& spares(a.records, b.records, recids)
    &&& broken || now == m || now == goal
}

/// Key `k` of `part` was taken out.
pub open spec fn lost_one<K, V>(m: Map<K, V>, now: Map<K, V>, part: Map<K, V>, k: K) -> bool {
    part.contains_key(k) && now == m.remove(k)
}

/// The same of taking an entry of `part` out.
pub open spec fn half_polled<K, V>(
    a: StoreState,
    b: StoreState,
    recids: Set<u64>,
    broken: bool,
    m: Map<K, V>,
    now: Map<K, V>,
    part: Map<K, V>,
) -> bool {
    &&& keeps_state(a, b)
    &&& spares(a.records, b.records, recids)
    &&& broken || now == m || exists|k: K| #[trigger] lost_one(m, now, part, k)
}

/// What an ordered map offers to the views over it. Bounds are in ascending order
/// whatever the direction of the view; a bound of `None` is open.
pub trait OrderedMapAdapter: Sized {
    type KF: KeyFormat;

    type VF: Serializer;

    spec fn format(&self) -> Self::KF;

    spec fn values(&self) -> Self::VF;

    /// The records hold this map.
    spec fn holds(&self, records: Records) -> bool;

    /// The entries of the map.
    spec fn entries_of(&self, records: Records) -> Map<Model<Self::KF>, Model<Self::VF>>;

    /// The recids of the records that belong to the map.
    spec fn recids(&self) -> Set<u64>;

    /// A failed update left the map unusable.
    spec fn broken(&self) -> bool;

    /// Whoever is told of changes can be told.
    spec fn attended(&self) -> bool;

    /// Nobody but the store can refuse a change.
    spec fn willing(&self) -> bool;

    /// The store can take whatever a put needs.
    spec fn put_ready(&self, st: StoreState) -> bool;

    /// The records hold this map, and it can take one more entry.
    spec fn can_take(&self, records: Records) -> bool;

    /// A change took the map in `a` to one with entries `m` in `b`; it allocated at
    /// most `spent` records and changed no record of others.
    spec fn changed(
        &self,
        before: &Self,
        a: StoreState,
        b: StoreState,
        m: Map<Model<Self::KF>, Model<Self::VF>>,
        spent: nat,
    ) -> bool;

    /// How many records a put can allocate.
    spec fn put_cost(&self) -> nat;

    /// Whoever is told of changes was told that a key went from one value to another, and
    /// had nothing against it.
    spec fn noticed(
        &self,
        k: Model<Self::KF>,
        was: Option<Model<Self::VF>>,
        new: Option<Model<Self::VF>>,
    ) -> bool;

    proof fn changed_means(
        &self,
        before: &Self,
        a: StoreState,
        b: StoreState,
        m: Map<Model<Self::KF>, Model<Self::VF>>,
        spent: nat,
    )
        requires
            self.changed(before, a, b, m, spent),
        ensures
            self.holds(b.records),
            self.entries_of(b.records) == m,
            frames(a, b, before.recids(), self.recids()),
            self.format() == before.format(),
            self.values() == before.values(),
            self.attended() == before.attended(),
            self.willing() == before.willing(),
            forall|k: Model<Self::KF>, w: Option<Model<Self::VF>>, n: Option<Model<Self::VF>>| #[trigger]
                self.noticed(k, w, n) == before.noticed(k, w, n),
    ;

    /// Two changes that allocate nothing are one.
    proof fn changed_twice(
        &self,
        mid: &Self,
        before: &Self,
        a: StoreState,
        b: StoreState,
        c: StoreState,
    )
        requires
            mid.changed(before, a, b, mid.entries_of(b.records), 0),
            self.changed(mid, b, c, self.entries_of(c.records), 0),
        ensures
            self.changed(before, a, c, self.entries_of(c.records), 0),
    ;

    /// Doing nothing is a change.
    proof fn unchanged(&self, a: StoreState)
        requires
            self.holds(a.records),
        ensures
            self.changed(self, a, a, self.entries_of(a.records), 0),
            self.entries_of(a.records).dom().finite(),
    ;

    proof fn put_ready_means(&self, st: StoreState)
        ensures
            self.put_ready(st) ==> self.can_take(st.records) && st.readable && st.writable,
            self.can_take(st.records) ==> self.holds(st.records),
    ;

    fn key_format(&self) -> (r: &Self::KF)
        ensures
            *r == self.format(),
    ;

    /// How two keys are ordered.
    fn compare(&self, a: &KeyOf<Self>, b: &KeyOf<Self>) -> (r: Ordering)
        ensures
            r is Less <==> self.format().lt(a@, b@),
            r is Greater <==> self.format().lt(b@, a@),
            r is Equal <==> a@ == b@,
    ;

    /// Whether keys are in their natural order.
    fn natural_order(&self) -> (r: bool)
        ensures
            r == self.format().natural(),
    ;

    fn value_equals(
        &self,
        a: &ValueOf<Self>,
        b: &ValueOf<Self>,
    ) -> (r: bool)
        ensures
            r == (a@ == b@),
    ;

    fn get<S: Store>(&self, store: &S, k: &KeyOf<Self>) -> (r: Result<
        Option<ValueOf<Self>>,
    >)
        ensures
            refused(self.broken(), store.state(), r),
            self.holds(store.state().records) ==> served(store.state(), r) && (
            r matches Ok(v) ==> opt_model(v) == lookup(self.entries_of(store.state().records), k@)),
    ;

    fn contains_key<S: Store>(&self, store: &S, k: &KeyOf<Self>) -> (r: Result<
        bool,
    >)
        ensures
            refused(self.broken(), store.state(), r),
            self.holds(store.state().records) ==> served(store.state(), r) && (
            r matches Ok(x) ==> x == (self.entries_of(store.state().records).contains_key(k@))),
    ;

    fn put<S: Store>(
        &mut self,
        store: &mut S,
        k: KeyOf<Self>,
        v: ValueOf<Self>,
    ) -> (r: Result<Option<ValueOf<Self>>>)
        requires
            old(self).attended(),
            old(self).format().fits(k@),
            old(self).values().fits(v@),
        ensures
            old(self).holds(old(store).state().records) && locked(old(store).state())
                ==> final(store).state().records == old(store).state().records
                    && r == Err::<Option<ValueOf<Self>>, DbError>(
                DbError::ReadOnly,
            ),
            refused(old(self).broken(), old(store).state(), r),
            final(self).format() == old(self).format(),
            final(self).values() == old(self).values(),
            final(self).attended() == old(self).attended(),
            final(self).willing() == old(self).willing(),
            old(self).put_ready(old(store).state()) ==> r is Ok,
            old(self).can_take(old(store).state().records) ==> {
                let m = old(self).entries_of(old(store).state().records);
                &&& r matches Ok(x) ==> opt_model(x) == lookup(m, k@)
                &&& r is Ok ==> old(self).noticed(k@, lookup(m, k@), Some(v@))
                &&& r is Ok ==> final(self).changed(
                    old(self),
                    old(store).state(),
                    final(store).state(),
                    m.insert(k@, v@),
                    old(self).put_cost(),
                )
                &&& r is Err ==> half_done(
                    old(store).state(),
                    final(store).state(),
                    old(self).recids(),
                    final(self).broken(),
                    m,
                    final(self).entries_of(final(store).state().records),
                    m.insert(k@, v@),
                )
            },
    ;

    fn put_if_absent<S: Store>(
        &mut self,
        store: &mut S,
        k: KeyOf<Self>,
        v: ValueOf<Self>,
    ) -> (r: Result<Option<ValueOf<Self>>>)
        requires
            old(self).attended(),
            old(self).format().fits(k@),
            old(self).values().fits(v@),
        ensures
            old(self).holds(old(store).state().records) && locked(old(store).state()) ==> {
                let m = old(self).entries_of(old(store).state().records);
                let hit = !m.contains_key(k@);
                &&& final(store).state().records == old(store).state().records
                &&& hit ==> r == Err::<Option<ValueOf<Self>>, DbError>(DbError::ReadOnly)
                &&& !hit ==> (r matches Ok(x) && opt_model(x) == Some(m[k@]))
            },
            refused(old(self).broken(), old(store).state(), r),
            final(self).format() == old(self).format(),
            final(self).values() == old(self).values(),
            final(self).attended() == old(self).attended(),
            final(self).willing() == old(self).willing(),
            old(self).put_ready(old(store).state()) ==> r is Ok,
            old(self).can_take(old(store).state().records) ==> {
                let m = old(self).entries_of(old(store).state().records);
                &&& r matches Ok(x) ==> opt_model(x) == lookup(m, k@)
                &&& r is Ok && !m.contains_key(k@) ==> old(self).noticed(k@, None, Some(v@))
                &&& r is Ok ==> final(self).changed(
                    old(self),
                    old(store).state(),
                    final(store).state(),
                    if m.contains_key(k@) {
                        m
                    } else {
                        m.insert(k@, v@)
                    },
                    old(self).put_cost(),
                )
                &&& r is Err ==> half_done(
                    old(store).state(),
                    final(store).state(),
                    old(self).recids(),
                    final(self).broken(),
                    m,
                    final(self).entries_of(final(store).state().records),
                    if m.contains_key(k@) {
                        m
                    } else {
                        m.insert(k@, v@)
                    },
                )
            },
    ;

    fn remove<S: Store>(
        &mut self,
        store: &mut S,
        k: &KeyOf<Self>,
    ) -> (r: Result<Option<ValueOf<Self>>>)
        requires
            old(self).attended(),
        ensures
            old(self).holds(old(store).state().records) && locked(old(store).state()) ==> {
                let m = old(self).entries_of(old(store).state().records);
                let hit = m.contains_key(k@);
                &&& final(store).state().records == old(store).state().records
                &&& hit ==> r == Err::<Option<ValueOf<Self>>, DbError>(DbError::ReadOnly)
                &&& !hit ==> (r matches Ok(x) && x is None)
            },
            refused(old(self).broken(), old(store).state(), r),
            final(self).format() == old(self).format(),
            final(self).values() == old(self).values(),
            final(self).attended() == old(self).attended(),
            final(self).willing() == old(self).willing(),
            old(self).holds(old(store).state().records) ==> {
                let m = old(self).entries_of(old(store).state().records);
                &&& old(self).willing() ==> carried_out(old(store).state(), r)
                &&& r matches Ok(x) ==> opt_model(x) == lookup(m, k@)
                &&& r is Ok && m.contains_key(k@) ==> old(self).noticed(k@, Some(m[k@]), None)
                &&& r is Ok ==> final(self).changed(
                    old(self),
                    old(store).state(),
                    final(store).state(),
                    m.remove(k@),
                    0,
                )
                &&& r is Err ==> half_done(
                    old(store).state(),
                    final(store).state(),
                    old(self).recids(),
                    final(self).broken(),
                    m,
                    final(self).entries_of(final(store).state().records),
                    m.remove(k@),
                )
            },
    ;

    fn remove_if<S: Store>(
        &mut self,
        store: &mut S,
        k: &KeyOf<Self>,
        v: &ValueOf<Self>,
    ) -> (r: Result<bool>)
        requires
            old(self).attended(),
        ensures
            old(self).holds(old(store).state().records) && locked(old(store).state()) ==> {
                let m = old(self).entries_of(old(store).state().records);
                let hit = m.contains_key(k@) && m[k@] == v@;
                &&& final(store).state().records == old(store).state().records
                &&& hit ==> r == Err::<bool, DbError>(DbError::ReadOnly)
                &&& !hit ==> r == Ok::<bool, DbError>(false)
            },
            refused(old(self).broken(), old(store).state(), r),
            final(self).format() == old(self).format(),
            final(self).values() == old(self).values(),
            final(self).attended() == old(self).attended(),
            final(self).willing() == old(self).willing(),
            old(self).holds(old(store).state().records) ==> {
                let m = old(self).entries_of(old(store).state().records);
                let hit = m.contains_key(k@) && m[k@] == v@;
                &&& old(self).willing() ==> carried_out(old(store).state(), r)
                &&& r matches Ok(x) ==> x == (hit)
                &&& r == Ok::<bool, DbError>(true) ==> old(self).noticed(k@, Some(v@), None)
                &&& r is Ok ==> final(self).changed(
                    old(self),
                    old(store).state(),
                    final(store).state(),
                    if hit {
                        m.remove(k@)
                    } else {
                        m
                    },
                    0,
                )
                &&& r is Err ==> half_done(
                    old(store).state(),
                    final(store).state(),
                    old(self).recids(),
                    final(self).broken(),
                    m,
                    final(self).entries_of(final(store).state().records),
                    if hit {
                        m.remove(k@)
                    } else {
                        m
                    },
                )
            },
    ;

    fn replace<S: Store>(
        &mut self,
        store: &mut S,
        k: &KeyOf<Self>,
        v: ValueOf<Self>,
    ) -> (r: Result<Option<ValueOf<Self>>>)
        requires
            old(self).attended(),
            old(self).values().fits(v@),
        ensures
            old(self).holds(old(store).state().records) && locked(old(store).state()) ==> {
                let m = old(self).entries_of(old(store).state().records);
                let hit = m.contains_key(k@);
                &&& final(store).state().records == old(store).state().records
                &&& hit ==> r == Err::<Option<ValueOf<Self>>, DbError>(DbError::ReadOnly)
                &&& !hit ==> (r matches Ok(x) && x is None)
            },
            refused(old(self).broken(), old(store).state(), r),
            final(self).format() == old(self).format(),
            final(self).values() == old(self).values(),
            final(self).attended() == old(self).attended(),
            final(self).willing() == old(self).willing(),
            old(self).holds(old(store).state().records) ==> {
                let m = old(self).entries_of(old(store).state().records);
                &&& old(self).willing() ==> carried_out(old(store).state(), r)
                &&& r matches Ok(x) ==> opt_model(x) == lookup(m, k@)
                &&& r is Ok && m.contains_key(k@) ==> old(self).noticed(
                    k@,
                    Some(m[k@]),
                    Some(v@),
                )
                &&& r is Ok ==> final(self).changed(
                    old(self),
                    old(store).state(),
                    final(store).state(),
                    if m.contains_key(k@) {
                        m.insert(k@, v@)
                    } else {
                        m
                    },
                    0,
                )
                &&& r is Err ==> half_done(
                    old(store).state(),
                    final(store).state(),
                    old(self).recids(),
                    final(self).broken(),
                    m,
                    final(self).entries_of(final(store).state().records),
                    if m.contains_key(k@) {
                        m.insert(k@, v@)
                    } else {
                        m
                    },
                )
            },
    ;

    fn replace_if<S: Store>(
        &mut self,
        store: &mut S,
        k: &KeyOf<Self>,
        ov: &ValueOf<Self>,
        nv: ValueOf<Self>,
    ) -> (r: Result<bool>)
        requires
            old(self).attended(),
            old(self).values().fits(nv@),
        ensures
            old(self).holds(old(store).state().records) && locked(old(store).state()) ==> {
                let m = old(self).entries_of(old(store).state().records);
                let hit = m.contains_key(k@) && m[k@] == ov@;
                &&& final(store).state().records == old(store).state().records
                &&& hit ==> r == Err::<bool, DbError>(DbError::ReadOnly)
                &&& !hit ==> r == Ok::<bool, DbError>(false)
            },
            refused(old(self).broken(), old(store).state(), r),
            final(self).format() == old(self).format(),
            final(self).values() == old(self).values(),
            final(self).attended() == old(self).attended(),
            final(self).willing() == old(self).willing(),
            old(self).holds(old(store).state().records) ==> {
                let m = old(self).entries_of(old(store).state().records);
                let hit = m.contains_key(k@) && m[k@] == ov@;
                &&& old(self).willing() ==> carried_out(old(store).state(), r)
                &&& r matches Ok(x) ==> x == (hit)
                &&& r == Ok::<bool, DbError>(true) ==> old(self).noticed(
                    k@,
                    Some(ov@),
                    Some(nv@),
                )
                &&& r is Ok ==> final(self).changed(
                    old(self),
                    old(store).state(),
                    final(store).state(),
                    if hit {
                        m.insert(k@, nv@)
                    } else {
                        m
                    },
                    0,
                )
                &&& r is Err ==> half_done(
                    old(store).state(),
                    final(store).state(),
                    old(self).recids(),
                    final(self).broken(),
                    m,
                    final(self).entries_of(final(store).state().records),
                    if hit {
                        m.insert(k@, nv@)
                    } else {
                        m
                    },
                )
            },
    ;

    /// The entry of the range with the least key.
    fn first_range<S: Store>(
        &self,
        store: &S,
        lo: Option<KeyOf<Self>>,
        lo_inc: bool,
        hi: Option<KeyOf<Self>>,
        hi_inc: bool,
    ) -> (r: Result<Option<(KeyOf<Self>, ValueOf<Self>)>>)
        ensures
            refused(self.broken(), store.state(), r),
            self.holds(store.state().records) ==> {
                let part = ranged(
                    &self.format(),
                    self.entries_of(store.state().records),
                    opt_model(lo),
                    lo_inc,
                    opt_model(hi),
                    hi_inc,
                );
                served(store.state(), r)
                    && (r matches Ok(e) ==> is_first(&self.format(), part, opt_entry(e)))
            },
    ;

    /// The entry of the range with the greatest key.
    fn last_range<S: Store>(
        &self,
        store: &S,
        lo: Option<KeyOf<Self>>,
        lo_inc: bool,
        hi: Option<KeyOf<Self>>,
        hi_inc: bool,
    ) -> (r: Result<Option<(KeyOf<Self>, ValueOf<Self>)>>)
        ensures
            refused(self.broken(), store.state(), r),
            self.holds(store.state().records) ==> {
                let part = ranged(
                    &self.format(),
                    self.entries_of(store.state().records),
                    opt_model(lo),
                    lo_inc,
                    opt_model(hi),
                    hi_inc,
                );
                served(store.state(), r)
                    && (r matches Ok(e) ==> is_last(&self.format(), part, opt_entry(e)))
            },
    ;

    /// The entries of the range, ascending.
    fn entry_iter_range<S: Store>(
        &self,
        store: &S,
        lo: Option<KeyOf<Self>>,
        lo_inc: bool,
        hi: Option<KeyOf<Self>>,
        hi_inc: bool,
    ) -> (r: Result<Vec<(KeyOf<Self>, ValueOf<Self>)>>)
        ensures
            refused(self.broken(), store.state(), r),
            self.holds(store.state().records) ==> {
                let part = ranged(
                    &self.format(),
                    self.entries_of(store.state().records),
                    opt_model(lo),
                    lo_inc,
                    opt_model(hi),
                    hi_inc,
                );
                served(store.state(), r)
                    && (r matches Ok(v) ==> lists(&self.format(), entry_models(v@), part))
            },
    ;

    /// The entries of the range, descending.
    fn descending_entry_iter_range<S: Store>(
        &self,
        store: &S,
        lo: Option<KeyOf<Self>>,
        lo_inc: bool,
        hi: Option<KeyOf<Self>>,
        hi_inc: bool,
    ) -> (r: Result<Vec<(KeyOf<Self>, ValueOf<Self>)>>)
        ensures
            refused(self.broken(), store.state(), r),
            self.holds(store.state().records) ==> {
                let part = ranged(
                    &self.format(),
                    self.entries_of(store.state().records),
                    opt_model(lo),
                    lo_inc,
                    opt_model(hi),
                    hi_inc,
                );
                served(store.state(), r)
                    && (r matches Ok(v) ==> lists(&self.format(), entry_models(v@).reverse(), part))
            },
    ;

    /// The number of entries in the range.
    fn size_long_range<S: Store>(
        &self,
        store: &S,
        lo: Option<KeyOf<Self>>,
        lo_inc: bool,
        hi: Option<KeyOf<Self>>,
        hi_inc: bool,
    ) -> (r: Result<u64>)
        ensures
            refused(self.broken(), store.state(), r),
            self.holds(store.state().records) ==> {
                let part = ranged(
                    &self.format(),
                    self.entries_of(store.state().records),
                    opt_model(lo),
                    lo_inc,
                    opt_model(hi),
                    hi_inc,
                );
                served(store.state(), r) && (part.len() <= u64::MAX ==> (r matches Ok(n) ==> n
                    == part.len()))
            },
    ;

    /// Takes the entry of the range with the least key out of the map.
    fn poll_first_range<S: Store>(
        &mut self,
        store: &mut S,
        lo: Option<KeyOf<Self>>,
        lo_inc: bool,
        hi: Option<KeyOf<Self>>,
        hi_inc: bool,
    ) -> (r: Result<Option<(KeyOf<Self>, ValueOf<Self>)>>)
        requires
            old(self).attended(),
        ensures
            old(self).holds(old(store).state().records) && locked(old(store).state()) ==> {
                let part = ranged(
                    &old(self).format(),
                    old(self).entries_of(old(store).state().records),
                    opt_model(lo),
                    lo_inc,
                    opt_model(hi),
                    hi_inc,
                );
                &&& final(store).state().records == old(store).state().records
                &&& part =~= Map::empty() ==> (r matches Ok(e) && e is None)
                &&& !(part =~= Map::empty())
                    ==> r == Err::<Option<(KeyOf<Self>, ValueOf<Self>)>, DbError>(DbError::ReadOnly)
            },
            refused(old(self).broken(), old(store).state(), r),
            final(self).format() == old(self).format(),
            final(self).values() == old(self).values(),
            final(self).attended() == old(self).attended(),
            final(self).willing() == old(self).willing(),
            old(self).holds(old(store).state().records) ==> {
                let m = old(self).entries_of(old(store).state().records);
                let part = ranged(
                    &old(self).format(),
                    m,
                    opt_model(lo),
                    lo_inc,
                    opt_model(hi),
                    hi_inc,
                );
                &&& old(self).willing() ==> carried_out(old(store).state(), r)
                &&& r matches Ok(e) ==> is_first(&old(self).format(), part, opt_entry(e))
                &&& r matches Ok(Some(e)) ==> old(self).noticed(e.0@, Some(e.1@), None)
                &&& r is Ok ==> final(self).changed(
                    old(self),
                    old(store).state(),
                    final(store).state(),
                    match opt_entry(r.unwrap()) {
                        Some((k, v)) => m.remove(k),
                        None => m,
                    },
                    0,
                )
                &&& r is Err ==> half_polled(
                    old(store).state(),
                    final(store).state(),
                    old(self).recids(),
                    final(self).broken(),
                    m,
                    final(self).entries_of(final(store).state().records),
                    part,
                )
            },
    ;

    /// Takes the entry of the range with the greatest key out of the map.
    fn poll_last_range<S: Store>(
        &mut self,
        store: &mut S,
        lo: Option<KeyOf<Self>>,
        lo_inc: bool,
        hi: Option<KeyOf<Self>>,
        hi_inc: bool,
    ) -> (r: Result<Option<(KeyOf<Self>, ValueOf<Self>)>>)
        requires
            old(self).attended(),
        ensures
            old(self).holds(old(store).state().records) && locked(old(store).state()) ==> {
                let part = ranged(
                    &old(self).format(),
                    old(self).entries_of(old(store).state().records),
                    opt_model(lo),
                    lo_inc,
                    opt_model(hi),
                    hi_inc,
                );
                &&& final(store).state().records == old(store).state().records
                &&& part =~= Map::empty() ==> (r matches Ok(e) && e is None)
                &&& !(part =~= Map::empty())
                    ==> r == Err::<Option<(KeyOf<Self>, ValueOf<Self>)>, DbError>(DbError::ReadOnly)
            },
            refused(old(self).broken(), old(store).state(), r),
            final(self).format() == old(self).format(),
            final(self).values() == old(self).values(),
            final(self).attended() == old(self).attended(),
            final(self).willing() == old(self).willing(),
            old(self).holds(old(store).state().records) ==> {
                let m = old(self).entries_of(old(store).state().records);
                let part = ranged(
                    &old(self).format(),
                    m,
                    opt_model(lo),
                    lo_inc,
                    opt_model(hi),
                    hi_inc,
                );
                &&& old(self).willing() ==> carried_out(old(store).state(), r)
                &&& r matches Ok(e) ==> is_last(&old(self).format(), part, opt_entry(e))
                &&& r matches Ok(Some(e)) ==> old(self).noticed(e.0@, Some(e.1@), None)
                &&& r is Ok ==> final(self).changed(
                    old(self),
                    old(store).state(),
                    final(store).state(),
                    match opt_entry(r.unwrap()) {
                        Some((k, v)) => m.remove(k),
                        None => m,
                    },
                    0,
                )
                &&& r is Err ==> half_polled(
                    old(store).state(),
                    final(store).state(),
                    old(self).recids(),
                    final(self).broken(),
                    m,
                    final(self).entries_of(final(store).state().records),
                    part,
                )
            },
    ;
}

impl<KF: KeyFormat, VF: Serializer> OrderedMapAdapter for BTreeMap<KF, VF> {
    type KF = KF;

    type VF = VF;

    open spec fn format(&self) -> KF {
        self.kf()
    }

    open spec fn values(&self) -> VF {
        self.vf()
    }

    open spec fn holds(&self, records: Records) -> bool {
        self.wf(records)
    }

    open spec fn entries_of(&self, records: Records) -> Map<Model<KF>, Model<VF>> {
        self.contents(records)
    }

    open spec fn recids(&self) -> Set<u64> {
        self.owned()
    }

    open spec fn broken(&self) -> bool {
        self.spoiled()
    }

    open spec fn attended(&self) -> bool {
        true
    }

    open spec fn willing(&self) -> bool {
        true
    }

    open spec fn can_take(&self, records: Records) -> bool {
        self.can_grow(records)
    }

    open spec fn put_ready(&self, st: StoreState) -> bool {
        self.can_put(st)
    }

    open spec fn changed(
        &self,
        before: &Self,
        a: StoreState,
        b: StoreState,
        m: Map<Model<KF>, Model<VF>>,
        spent: nat,
    ) -> bool {
        self.became(before, a, b, m, spent)
    }

    /// Nobody is told.
    open spec fn noticed(
        &self,
        k: Model<KF>,
        was: Option<Model<VF>>,
        new: Option<Model<VF>>,
    ) -> bool {
        true
    }

    open spec fn put_cost(&self) -> nat {
        self.height() + 2
    }

    proof fn changed_means(
        &self,
        before: &Self,
        a: StoreState,
        b: StoreState,
        m: Map<Model<KF>, Model<VF>>,
        spent: nat,
    ) {
        self.lemma_config(before);
    }

    proof fn changed_twice(
        &self,
        mid: &Self,
        before: &Self,
        a: StoreState,
        b: StoreState,
        c: StoreState,
    ) {
        self.lemma_became_chain(mid, before, a, b, c);
    }

    proof fn unchanged(&self, a: StoreState) {
        self.lemma_unchanged(a);
        self.law_contents_are_stored(a.records);
    }

    proof fn put_ready_means(&self, st: StoreState) {
    }

    fn key_format(&self) -> &KF {
        self.key_serializer()
    }

    fn compare(&self, a: &KF::Item, b: &KF::Item) -> Ordering {
        self.compare_keys(a, b)
    }

    fn natural_order(&self) -> bool {
        self.key_natural_order()
    }

    fn value_equals(&self, a: &VF::Item, b: &VF::Item) -> bool {
        BTreeMap::value_equals(self, a, b)
    }

    fn get<S: Store>(&self, store: &S, k: &KF::Item) -> Result<Option<VF::Item>> {
        BTreeMap::get(self, store, k)
    }

    fn contains_key<S: Store>(&self, store: &S, k: &KF::Item) -> Result<bool> {
        BTreeMap::contains_key(self, store, k)
    }

    fn put<S: Store>(
        &mut self,
        store: &mut S,
        k: KF::Item,
        v: VF::Item,
    ) -> Result<Option<VF::Item>> {
        let ghost a = store.state();
        let r = BTreeMap::put(self, store, k, v);
        proof {
            self.lemma_config(old(self));
            if old(self).can_grow(a.records) && r is Err {
                self.lemma_left(old(self), a, store.state(), old(self).height() + 2);
            }
        }
        r
    }

    fn put_if_absent<S: Store>(&mut self, store: &mut S, k: KF::Item, v: VF::Item) -> Result<
        Option<VF::Item>,
    > {
        let ghost a = store.state();
        let r = BTreeMap::put_if_absent(self, store, k, v);
        proof {
            self.lemma_config(old(self));
            if old(self).can_grow(a.records) && r is Err {
                self.lemma_left(old(self), a, store.state(), old(self).height() + 2);
            }
        }
        r
    }

    fn remove<S: Store>(&mut self, store: &mut S, k: &KF::Item) -> Result<Option<VF::Item>> {
        let ghost a = store.state();
        let r = BTreeMap::remove(self, store, k);
        proof {
            self.lemma_config(old(self));
            if old(self).wf(a.records) && r is Err {
                self.lemma_spared(old(self), a, store.state(), k@, 0);
            }
        }
        r
    }

    fn remove_if<S: Store>(&mut self, store: &mut S, k: &KF::Item, v: &VF::Item) -> Result<bool> {
        let ghost a = store.state();
        let r = BTreeMap::remove_if(self, store, k, v);
        proof {
            self.lemma_config(old(self));
            if old(self).wf(a.records) && r is Err {
                self.lemma_spared(old(self), a, store.state(), k@, 0);
                if self.left_alone(old(self), a, store.state(), 0) {
                    self.lemma_left(old(self), a, store.state(), 0);
                }
            }
        }
        r
    }

    fn replace<S: Store>(&mut self, store: &mut S, k: &KF::Item, v: VF::Item) -> Result<
        Option<VF::Item>,
    > {
        let ghost a = store.state();
        let r = BTreeMap::replace(self, store, k, v);
        proof {
            if old(self).wf(a.records) && r is Err {
                self.lemma_left(old(self), a, store.state(), 0);
            }
        }
        r
    }

    fn replace_if<S: Store>(
        &mut self,
        store: &mut S,
        k: &KF::Item,
        ov: &VF::Item,
        nv: VF::Item,
    ) -> Result<bool> {
        let ghost a = store.state();
        let r = BTreeMap::replace_if(self, store, k, ov, nv);
        proof {
            if old(self).wf(a.records) && r is Err {
                self.lemma_left(old(self), a, store.state(), 0);
            }
        }
        r
    }

    fn first_range<S: Store>(
        &self,
        store: &S,
        lo: Option<KF::Item>,
        lo_inc: bool,
        hi: Option<KF::Item>,
        hi_inc: bool,
    ) -> Result<Option<(KF::Item, VF::Item)>> {
        let mut it = match self.entry_iter(store, lo, lo_inc, hi, hi_inc) {
            Ok(it) => it,
            Err(e) => {
                return Err(e);
            },
        };
        match it.next(self, store) {
            None => Ok(None),
            Some(Ok(e)) => Ok(Some(e)),
            Some(Err(e)) => Err(e),
        }
    }

    fn last_range<S: Store>(
        &self,
        store: &S,
        lo: Option<KF::Item>,
        lo_inc: bool,
        hi: Option<KF::Item>,
        hi_inc: bool,
    ) -> Result<Option<(KF::Item, VF::Item)>> {
        let mut it = match self.descending_entry_iter(store, lo, lo_inc, hi, hi_inc) {
            Ok(it) => it,
            Err(e) => {
                return Err(e);
            },
        };
        match it.next(self, store) {
            None => Ok(None),
            Some(Ok(e)) => Ok(Some(e)),
            Some(Err(e)) => Err(e),
        }
    }

    fn entry_iter_range<S: Store>(
        &self,
        store: &S,
        lo: Option<KF::Item>,
        lo_inc: bool,
        hi: Option<KF::Item>,
        hi_inc: bool,
    ) -> Result<Vec<(KF::Item, VF::Item)>> {
        self.entries_in(store, lo, lo_inc, hi, hi_inc)
    }

    fn descending_entry_iter_range<S: Store>(
        &self,
        store: &S,
        lo: Option<KF::Item>,
        lo_inc: bool,
        hi: Option<KF::Item>,
        hi_inc: bool,
    ) -> Result<Vec<(KF::Item, VF::Item)>> {
        self.descending_entries_in(store, lo, lo_inc, hi, hi_inc)
    }

    fn size_long_range<S: Store>(
        &self,
        store: &S,
        lo: Option<KF::Item>,
        lo_inc: bool,
        hi: Option<KF::Item>,
        hi_inc: bool,
    ) -> Result<u64> {
        BTreeMap::size_long_range(self, store, lo, lo_inc, hi, hi_inc)
    }

    fn poll_first_range<S: Store>(
        &mut self,
        store: &mut S,
        lo: Option<KF::Item>,
        lo_inc: bool,
        hi: Option<KF::Item>,
        hi_inc: bool,
    ) -> Result<Option<(KF::Item, VF::Item)>> {
        let ghost a = store.state();
        let ghost m = self.contents(a.records);
        let ghost part = ranged(&self.kf(), m, opt_model(lo), lo_inc, opt_model(hi), hi_inc);
        let r = BTreeMap::poll_first_entry(self, store, lo, lo_inc, hi, hi_inc);
        proof {
            self.lemma_config(old(self));
            if old(self).wf(a.records) && r is Err {
                let b = store.state();
                if self.left_alone(old(self), a, b, 0) {
                    self.lemma_left(old(self), a, b, 0);
                } else {
                    let k = choose|k: Model<KF>| #[trigger]
                        part.contains_key(k) && self.taken_or_left(old(self), a, b, k);
                    self.lemma_spared(old(self), a, b, k, 0);
                    if self.contents(b.records) == m.remove(k) {
                        assert(lost_one(m, self.contents(b.records), part, k));
                    }
                }
            }
        }
        r
    }

    fn poll_last_range<S: Store>(
        &mut self,
        store: &mut S,
        lo: Option<KF::Item>,
        lo_inc: bool,
        hi: Option<KF::Item>,
        hi_inc: bool,
    ) -> Result<Option<(KF::Item, VF::Item)>> {
        let ghost a = store.state();
        let ghost m = self.contents(a.records);
        let ghost part = ranged(&self.kf(), m, opt_model(lo), lo_inc, opt_model(hi), hi_inc);
        let r = BTreeMap::poll_last_entry(self, store, lo, lo_inc, hi, hi_inc);
        proof {
            self.lemma_config(old(self));
            if old(self).wf(a.records) && r is Err {
                let b = store.state();
                if self.left_alone(old(self), a, b, 0) {
                    self.lemma_left(old(self), a, b, 0);
                } else {
                    let k = choose|k: Model<KF>| #[trigger]
                        part.contains_key(k) && self.taken_or_left(old(self), a, b, k);
                    self.lemma_spared(old(self), a, b, k, 0);
                    if self.contents(b.records) == m.remove(k) {
                        assert(lost_one(m, self.contents(b.records), part, k));
                    }
                }
            }
        }
        r
    }
}

/// A view of the keys of a map between two bounds, ascending or descending. It is
/// used together with the map and the store it is a view of.
pub struct RangeView<A: OrderedMapAdapter> {
    lo: Option<KeyOf<A>>,
    lo_inc: bool,
    hi: Option<KeyOf<A>>,
    hi_inc: bool,
    descending: bool,
}

impl<A: OrderedMapAdapter> RangeView<A> {
    pub closed spec fn low(&self) -> Option<Model<A::KF>> {
        opt_model(self.lo)
    }

    pub closed spec fn low_inc(&self) -> bool {
        self.lo_inc
    }

    pub closed spec fn high(&self) -> Option<Model<A::KF>> {
        opt_model(self.hi)
    }

    pub closed spec fn high_inc(&self) -> bool {
        self.hi_inc
    }

    pub closed spec fn reversed(&self) -> bool {
        self.descending
    }

    /// The low bound, and whether it is shown.
    pub open spec fn lower(&self) -> (Option<Model<A::KF>>, bool) {
        (self.low(), self.low_inc())
    }

    /// The high bound, and whether it is shown.
    pub open spec fn upper(&self) -> (Option<Model<A::KF>>, bool) {
        (self.high(), self.high_inc())
    }

    /// The view shows the key.
    pub open spec fn shows(&self, a: &A, k: Model<A::KF>) -> bool {
        in_range(&a.format(), k, self.low(), self.low_inc(), self.high(), self.high_inc())
    }

    /// The entries of the map that the view shows.
    pub open spec fn window(&self, a: &A, records: Records) -> Map<Model<A::KF>, Model<A::VF>> {
        ranged(
            &a.format(),
            a.entries_of(records),
            self.low(),
            self.low_inc(),
            self.high(),
            self.high_inc(),
        )
    }

    /// The bounds leave no key.
    pub open spec fn keyless(&self, a: &A) -> bool {
        crossed(&a.format(), self.low(), self.low_inc(), self.high(), self.high_inc())
    }

    /// The bounds leave no key below `k`.
    pub open spec fn none_below(&self, a: &A, k: Model<A::KF>, inc: bool) -> bool {
        self.keyless(a) || crossed(&a.format(), self.low(), self.low_inc(), Some(k), inc)
    }

    /// The bounds leave no key above `k`.
    pub open spec fn none_above(&self, a: &A, k: Model<A::KF>, inc: bool) -> bool {
        self.keyless(a) || crossed(&a.format(), Some(k), inc, self.high(), self.high_inc())
    }

    /// The bounds leave no key before `k` in the direction of the view.
    pub open spec fn none_before(&self, a: &A, k: Model<A::KF>, inc: bool) -> bool {
        if self.reversed() {
            self.none_above(a, k, inc)
        } else {
            self.none_below(a, k, inc)
        }
    }

    /// The bounds leave no key after `k` in the direction of the view.
    pub open spec fn none_after(&self, a: &A, k: Model<A::KF>, inc: bool) -> bool {
        if self.reversed() {
            self.none_below(a, k, inc)
        } else {
            self.none_above(a, k, inc)
        }
    }

    /// The whole map, ascending.
    pub fn full(a: &A) -> (r: Self)
        ensures
            r.low() is None,
            r.high() is None,
            !r.reversed(),
            forall|records: Records| #[trigger] r.window(a, records) == a.entries_of(records),
    {
        let r = RangeView { lo: None, lo_inc: true, hi: None, hi_inc: true, descending: false };
        proof {
            assert forall|records: Records| #[trigger] r.window(a, records) == a.entries_of(
                records,
            ) by {
                lemma_ranged_all(&a.format(), a.entries_of(records), true, true);
            }
        }
        r
    }

    pub fn new(
        lo: Option<KeyOf<A>>,
        lo_inc: bool,
        hi: Option<KeyOf<A>>,
        hi_inc: bool,
        descending: bool,
    ) -> (r: Self)
        ensures
            r.low() == opt_model(lo),
            r.low_inc() == lo_inc,
            r.high() == opt_model(hi),
            r.high_inc() == hi_inc,
            r.reversed() == descending,
    {
        RangeView { lo, lo_inc, hi, hi_inc, descending }
    }

    pub fn is_descending(&self) -> (r: bool)
        ensures
            r == self.reversed(),
    {
        self.descending
    }

    fn too_low(&self, a: &A, k: &KeyOf<A>) -> (r: bool)
        ensures
            r == !lo_ok(&a.format(), k@, self.low(), self.low_inc()),
    {
        super::range::below_lo(a.key_format(), k, self.lo.as_ref(), self.lo_inc)
    }

    fn too_high(&self, a: &A, k: &KeyOf<A>) -> (r: bool)
        ensures
            r == !hi_ok(&a.format(), k@, self.high(), self.high_inc()),
    {
        super::range::above_hi(a.key_format(), k, self.hi.as_ref(), self.hi_inc)
    }

    /// Whether the view shows a key.
    pub fn in_range(&self, a: &A, k: &KeyOf<A>) -> (r: bool)
        ensures
            r == self.shows(a, k@),
    {
        !self.too_low(a, k) && !self.too_high(a, k)
    }

    /// Whether no key lies between two bounds, whatever the map.
    fn range_empty(
        a: &A,
        lo: Option<&KeyOf<A>>,
        lo_inc: bool,
        hi: Option<&KeyOf<A>>,
        hi_inc: bool,
    ) -> (r: bool)
        ensures
            r == crossed(
                &a.format(),
                super::map::opt_ref_model(lo),
                lo_inc,
                super::map::opt_ref_model(hi),
                hi_inc,
            ),
            r ==> forall|k: Model<A::KF>| !#[trigger] in_range(
                &a.format(),
                k,
                super::map::opt_ref_model(lo),
                lo_inc,
                super::map::opt_ref_model(hi),
                hi_inc,
            ),
    {
        broadcast use group_key_order;

        match lo {
            None => false,
            Some(l) => match hi {
                None => false,
                Some(h) => match a.compare(l, h) {
                    Ordering::Greater => true,
                    Ordering::Equal => !(lo_inc && hi_inc),
                    Ordering::Less => false,
                },
            },
        }
    }

    /// A bound of a view within this one may lie at a bound of this one only where it
    /// does not show more.
    pub open spec fn bound_ok(&self, a: &A, k: Model<A::KF>, inc: bool) -> bool {
        &&& self.low() matches Some(l) ==> !a.format().lt(k, l)
            && !(k == l && inc && !self.low_inc())
        &&& self.high() matches Some(h) ==> !a.format().lt(h, k) && !(k == h && inc
            && !self.high_inc())
    }

    fn check_bound_key(&self, a: &A, k: &KeyOf<A>, inc: bool) -> (r: std::result::Result<(), ()>)
        ensures
            r is Ok == self.bound_ok(a, k@, inc),
    {
        broadcast use group_key_order;

        if let Some(lo) = &self.lo {
            match a.compare(k, lo) {
                Ordering::Less => {
                    return Err(());
                },
                Ordering::Equal => {
                    if inc && !self.lo_inc {
                        return Err(());
                    }
                },
                Ordering::Greater => {},
            }
        }
        if let Some(hi) = &self.hi {
            match a.compare(k, hi) {
                Ordering::Greater => {
                    return Err(());
                },
                Ordering::Equal => {
                    if inc && !self.hi_inc {
                        return Err(());
                    }
                },
                Ordering::Less => {},
            }
        }
        Ok(())
    }

    /// The greater of the low bound and `k`.
    fn eff_lower(&self, a: &A, k: &KeyOf<A>, inc: bool) -> (r: (KeyOf<A>, bool))
        ensures
            self.bound_ok(a, k@, inc) ==> r.0@ == k@ && r.1 == inc,
            crossed(&a.format(), Some(r.0@), r.1, self.high(), self.high_inc()) == self.none_above(
                a,
                k@,
                inc,
            ),
            forall|x: Model<A::KF>| #[trigger]
                lo_ok(&a.format(), x, Some(r.0@), r.1) == (lo_ok(
                    &a.format(),
                    x,
                    self.low(),
                    self.low_inc(),
                ) && lo_ok(&a.format(), x, Some(k@), inc)),
    {
        broadcast use group_key_order;

        match &self.lo {
            None => (a.key_format().dup(k), inc),
            Some(lo) => match a.compare(k, lo) {
                Ordering::Greater => (a.key_format().dup(k), inc),
                Ordering::Less => (a.key_format().dup(lo), self.lo_inc),
                Ordering::Equal => (a.key_format().dup(lo), self.lo_inc && inc),
            },
        }
    }

    /// The smaller of the high bound and `k`.
    fn eff_upper(&self, a: &A, k: &KeyOf<A>, inc: bool) -> (r: (KeyOf<A>, bool))
        ensures
            self.bound_ok(a, k@, inc) ==> r.0@ == k@ && r.1 == inc,
            crossed(&a.format(), self.low(), self.low_inc(), Some(r.0@), r.1) == self.none_below(
                a,
                k@,
                inc,
            ),
            forall|x: Model<A::KF>| #[trigger]
                hi_ok(&a.format(), x, Some(r.0@), r.1) == (hi_ok(
                    &a.format(),
                    x,
                    self.high(),
                    self.high_inc(),
                ) && hi_ok(&a.format(), x, Some(k@), inc)),
    {
        broadcast use group_key_order;

        match &self.hi {
            None => (a.key_format().dup(k), inc),
            Some(hi) => match a.compare(k, hi) {
                Ordering::Less => (a.key_format().dup(k), inc),
                Ordering::Greater => (a.key_format().dup(hi), self.hi_inc),
                Ordering::Equal => (a.key_format().dup(hi), self.hi_inc && inc),
            },
        }
    }

    fn dup_bound(a: &A, k: &Option<KeyOf<A>>) -> (r: Option<KeyOf<A>>)
        ensures
            opt_model(r) == opt_model(*k),
    {
        match k {
            None => None,
            Some(x) => Some(a.key_format().dup(x)),
        }
    }

    fn first_of<S: Store>(
        a: &A,
        store: &S,
        lo: Option<KeyOf<A>>,
        lo_inc: bool,
        hi: Option<KeyOf<A>>,
        hi_inc: bool,
    ) -> (r: Result<Option<(KeyOf<A>, ValueOf<A>)>>)
        ensures
            asked(
                a.broken(),
                store.state(),
                crossed(&a.format(), opt_model(lo), lo_inc, opt_model(hi), hi_inc),
                r,
            ),
            a.holds(store.state().records) ==> served(store.state(), r)
                && (r matches Ok(e) ==> is_first(
                &a.format(),
                ranged(
                    &a.format(),
                    a.entries_of(store.state().records),
                    opt_model(lo),
                    lo_inc,
                    opt_model(hi),
                    hi_inc,
                ),
                opt_entry(e),
            )),
    {
        let ghost part = ranged(
            &a.format(),
            a.entries_of(store.state().records),
            opt_model(lo),
            lo_inc,
            opt_model(hi),
            hi_inc,
        );
        if Self::range_empty(a, lo.as_ref(), lo_inc, hi.as_ref(), hi_inc) {
            assert(part =~= Map::empty());
            return Ok(None);
        }
        a.first_range(store, lo, lo_inc, hi, hi_inc)
    }

    fn last_of<S: Store>(
        a: &A,
        store: &S,
        lo: Option<KeyOf<A>>,
        lo_inc: bool,
        hi: Option<KeyOf<A>>,
        hi_inc: bool,
    ) -> (r: Result<Option<(KeyOf<A>, ValueOf<A>)>>)
        ensures
            asked(
                a.broken(),
                store.state(),
                crossed(&a.format(), opt_model(lo), lo_inc, opt_model(hi), hi_inc),
                r,
            ),
            a.holds(store.state().records) ==> served(store.state(), r)
                && (r matches Ok(e) ==> is_last(
                &a.format(),
                ranged(
                    &a.format(),
                    a.entries_of(store.state().records),
                    opt_model(lo),
                    lo_inc,
                    opt_model(hi),
                    hi_inc,
                ),
                opt_entry(e),
            )),
    {
        let ghost part = ranged(
            &a.format(),
            a.entries_of(store.state().records),
            opt_model(lo),
            lo_inc,
            opt_model(hi),
            hi_inc,
        );
        if Self::range_empty(a, lo.as_ref(), lo_inc, hi.as_ref(), hi_inc) {
            assert(part =~= Map::empty());
            return Ok(None);
        }
        a.last_range(store, lo, lo_inc, hi, hi_inc)
    }

    /// The first entry at or above `k`.
    fn backing_ceiling<S: Store>(
        &self,
        a: &A,
        store: &S,
        k: &KeyOf<A>,
    ) -> (r: Result<Option<(KeyOf<A>, ValueOf<A>)>>)
        ensures
            asked(a.broken(), store.state(), self.none_above(a, k@, true), r),
            a.holds(store.state().records)
                ==> served(store.state(), r) && (r matches Ok(e) ==> is_first(
                &a.format(),
                ranged(
                    &a.format(),
                    self.window(a, store.state().records),
                    Some(k@),
                    true,
                    None,
                    true,
                ),
                opt_entry(e),
            )),
    {
        let ghost w = self.window(a, store.state().records);
        let (b, bi) = self.eff_lower(a, k, true);
        proof {
            assert(ranged(
                &a.format(),
                a.entries_of(store.state().records),
                Some(b@),
                bi,
                self.high(),
                self.high_inc(),
            ) =~= ranged(&a.format(), w, Some(k@), true, None, true));
        }
        Self::first_of(a, store, Some(b), bi, Self::dup_bound(a, &self.hi), self.hi_inc)
    }

    /// The first entry above `k`.
    fn backing_higher<S: Store>(
        &self,
        a: &A,
        store: &S,
        k: &KeyOf<A>,
    ) -> (r: Result<Option<(KeyOf<A>, ValueOf<A>)>>)
        ensures
            asked(a.broken(), store.state(), self.none_above(a, k@, false), r),
            a.holds(store.state().records)
                ==> served(store.state(), r) && (r matches Ok(e) ==> is_first(
                &a.format(),
                ranged(
                    &a.format(),
                    self.window(a, store.state().records),
                    Some(k@),
                    false,
                    None,
                    true,
                ),
                opt_entry(e),
            )),
    {
        let ghost w = self.window(a, store.state().records);
        let (b, bi) = self.eff_lower(a, k, false);
        proof {
            assert(ranged(
                &a.format(),
                a.entries_of(store.state().records),
                Some(b@),
                bi,
                self.high(),
                self.high_inc(),
            ) =~= ranged(&a.format(), w, Some(k@), false, None, true));
        }
        Self::first_of(a, store, Some(b), bi, Self::dup_bound(a, &self.hi), self.hi_inc)
    }

    /// The last entry at or below `k`.
    fn backing_floor<S: Store>(
        &self,
        a: &A,
        store: &S,
        k: &KeyOf<A>,
    ) -> (r: Result<Option<(KeyOf<A>, ValueOf<A>)>>)
        ensures
            asked(a.broken(), store.state(), self.none_below(a, k@, true), r),
            a.holds(store.state().records)
                ==> served(store.state(), r) && (r matches Ok(e) ==> is_last(
                &a.format(),
                ranged(
                    &a.format(),
                    self.window(a, store.state().records),
                    None,
                    true,
                    Some(k@),
                    true,
                ),
                opt_entry(e),
            )),
    {
        let ghost w = self.window(a, store.state().records);
        let (b, bi) = self.eff_upper(a, k, true);
        proof {
            assert(ranged(
                &a.format(),
                a.entries_of(store.state().records),
                self.low(),
                self.low_inc(),
                Some(b@),
                bi,
            ) =~= ranged(&a.format(), w, None, true, Some(k@), true));
        }
        Self::last_of(a, store, Self::dup_bound(a, &self.lo), self.lo_inc, Some(b), bi)
    }

    /// The last entry below `k`.
    fn backing_lower<S: Store>(
        &self,
        a: &A,
        store: &S,
        k: &KeyOf<A>,
    ) -> (r: Result<Option<(KeyOf<A>, ValueOf<A>)>>)
        ensures
            asked(a.broken(), store.state(), self.none_below(a, k@, false), r),
            a.holds(store.state().records)
                ==> served(store.state(), r) && (r matches Ok(e) ==> is_last(
                &a.format(),
                ranged(
                    &a.format(),
                    self.window(a, store.state().records),
                    None,
                    true,
                    Some(k@),
                    false,
                ),
                opt_entry(e),
            )),
    {
        let ghost w = self.window(a, store.state().records);
        let (b, bi) = self.eff_upper(a, k, false);
        proof {
            assert(ranged(
                &a.format(),
                a.entries_of(store.state().records),
                self.low(),
                self.low_inc(),
                Some(b@),
                bi,
            ) =~= ranged(&a.format(), w, None, true, Some(k@), false));
        }
        Self::last_of(a, store, Self::dup_bound(a, &self.lo), self.lo_inc, Some(b), bi)
    }

    fn backing_first<S: Store>(
        &self,
        a: &A,
        store: &S,
    ) -> (r: Result<Option<(KeyOf<A>, ValueOf<A>)>>)
        ensures
            asked(a.broken(), store.state(), self.keyless(a), r),
            a.holds(store.state().records)
                ==> served(store.state(), r) && (r matches Ok(e) ==> is_first(
                &a.format(),
                self.window(a, store.state().records),
                opt_entry(e),
            )),
    {
        Self::first_of(
            a,
            store,
            Self::dup_bound(a, &self.lo),
            self.lo_inc,
            Self::dup_bound(a, &self.hi),
            self.hi_inc,
        )
    }

    fn backing_last<S: Store>(
        &self,
        a: &A,
        store: &S,
    ) -> (r: Result<Option<(KeyOf<A>, ValueOf<A>)>>)
        ensures
            asked(a.broken(), store.state(), self.keyless(a), r),
            a.holds(store.state().records)
                ==> served(store.state(), r) && (r matches Ok(e) ==> is_last(
                &a.format(),
                self.window(a, store.state().records),
                opt_entry(e),
            )),
    {
        Self::last_of(
            a,
            store,
            Self::dup_bound(a, &self.lo),
            self.lo_inc,
            Self::dup_bound(a, &self.hi),
            self.hi_inc,
        )
    }

    /// The first entry in the direction of the view.
    pub fn first_entry<S: Store>(
        &self,
        a: &A,
        store: &S,
    ) -> (r: Result<Option<(KeyOf<A>, ValueOf<A>)>>)
        ensures
            asked(a.broken(), store.state(), self.keyless(a), r),
            a.holds(store.state().records) ==> served(store.state(), r)
                && (r matches Ok(e) ==> is_end(
                &a.format(),
                self.window(a, store.state().records),
                self.reversed(),
                opt_entry(e),
            )),
    {
        if self.descending {
            self.backing_last(a, store)
        } else {
            self.backing_first(a, store)
        }
    }

    /// The last entry in the direction of the view.
    pub fn last_entry<S: Store>(
        &self,
        a: &A,
        store: &S,
    ) -> (r: Result<Option<(KeyOf<A>, ValueOf<A>)>>)
        ensures
            asked(a.broken(), store.state(), self.keyless(a), r),
            a.holds(store.state().records) ==> served(store.state(), r)
                && (r matches Ok(e) ==> is_end(
                &a.format(),
                self.window(a, store.state().records),
                !self.reversed(),
                opt_entry(e),
            )),
    {
        if self.descending {
            self.backing_first(a, store)
        } else {
            self.backing_last(a, store)
        }
    }

    /// The last entry before `k` in the direction of the view.
    pub fn lower_entry<S: Store>(
        &self,
        a: &A,
        store: &S,
        k: &KeyOf<A>,
    ) -> (r: Result<Option<(KeyOf<A>, ValueOf<A>)>>)
        ensures
            asked(a.broken(), store.state(), self.none_before(a, k@, false), r),
            a.holds(store.state().records) ==> served(store.state(), r)
                && (r matches Ok(e) ==> is_end(
                &a.format(),
                keys_before(
                    &a.format(),
                    self.window(a, store.state().records),
                    k@,
                    false,
                    self.reversed(),
                ),
                !self.reversed(),
                opt_entry(e),
            )),
    {
        if self.descending {
            self.backing_higher(a, store, k)
        } else {
            self.backing_lower(a, store, k)
        }
    }

    /// The last entry at or before `k` in the direction of the view.
    pub fn floor_entry<S: Store>(
        &self,
        a: &A,
        store: &S,
        k: &KeyOf<A>,
    ) -> (r: Result<Option<(KeyOf<A>, ValueOf<A>)>>)
        ensures
            asked(a.broken(), store.state(), self.none_before(a, k@, true), r),
            a.holds(store.state().records) ==> served(store.state(), r)
                && (r matches Ok(e) ==> is_end(
                &a.format(),
                keys_before(
                    &a.format(),
                    self.window(a, store.state().records),
                    k@,
                    true,
                    self.reversed(),
                ),
                !self.reversed(),
                opt_entry(e),
            )),
    {
        if self.descending {
            self.backing_ceiling(a, store, k)
        } else {
            self.backing_floor(a, store, k)
        }
    }

    /// The first entry at or after `k` in the direction of the view.
    pub fn ceiling_entry<S: Store>(
        &self,
        a: &A,
        store: &S,
        k: &KeyOf<A>,
    ) -> (r: Result<Option<(KeyOf<A>, ValueOf<A>)>>)
        ensures
            asked(a.broken(), store.state(), self.none_after(a, k@, true), r),
            a.holds(store.state().records) ==> served(store.state(), r)
                && (r matches Ok(e) ==> is_end(
                &a.format(),
                keys_after(
                    &a.format(),
                    self.window(a, store.state().records),
                    k@,
                    true,
                    self.reversed(),
                ),
                self.reversed(),
                opt_entry(e),
            )),
    {
        if self.descending {
            self.backing_floor(a, store, k)
        } else {
            self.backing_ceiling(a, store, k)
        }
    }

    /// The first entry after `k` in the direction of the view.
    pub fn higher_entry<S: Store>(
        &self,
        a: &A,
        store: &S,
        k: &KeyOf<A>,
    ) -> (r: Result<Option<(KeyOf<A>, ValueOf<A>)>>)
        ensures
            asked(a.broken(), store.state(), self.none_after(a, k@, false), r),
            a.holds(store.state().records) ==> served(store.state(), r)
                && (r matches Ok(e) ==> is_end(
                &a.format(),
                keys_after(
                    &a.format(),
                    self.window(a, store.state().records),
                    k@,
                    false,
                    self.reversed(),
                ),
                self.reversed(),
                opt_entry(e),
            )),
    {
        if self.descending {
            self.backing_lower(a, store, k)
        } else {
            self.backing_higher(a, store, k)
        }
    }

    pub fn lower_key<S: Store>(
        &self,
        a: &A,
        store: &S,
        k: &KeyOf<A>,
    ) -> (r: Result<Option<KeyOf<A>>>)
        ensures
            asked(a.broken(), store.state(), self.none_before(a, k@, false), r),
            a.holds(store.state().records) ==> served(store.state(), r)
                && (r matches Ok(e) ==> is_end_key(
                &a.format(),
                keys_before(
                    &a.format(),
                    self.window(a, store.state().records),
                    k@,
                    false,
                    self.reversed(),
                ),
                !self.reversed(),
                opt_model(e),
            )),
    {
        match self.lower_entry(a, store, k) {
            Ok(Some((x, _))) => Ok(Some(x)),
            Ok(None) => Ok(None),
            Err(e) => Err(e),
        }
    }

    pub fn floor_key<S: Store>(
        &self,
        a: &A,
        store: &S,
        k: &KeyOf<A>,
    ) -> (r: Result<Option<KeyOf<A>>>)
        ensures
            asked(a.broken(), store.state(), self.none_before(a, k@, true), r),
            a.holds(store.state().records) ==> served(store.state(), r)
                && (r matches Ok(e) ==> is_end_key(
                &a.format(),
                keys_before(
                    &a.format(),
                    self.window(a, store.state().records),
                    k@,
                    true,
                    self.reversed(),
                ),
                !self.reversed(),
                opt_model(e),
            )),
    {
        match self.floor_entry(a, store, k) {
            Ok(Some((x, _))) => Ok(Some(x)),
            Ok(None) => Ok(None),
            Err(e) => Err(e),
        }
    }

    pub fn ceiling_key<S: Store>(
        &self,
        a: &A,
        store: &S,
        k: &KeyOf<A>,
    ) -> (r: Result<Option<KeyOf<A>>>)
        ensures
            asked(a.broken(), store.state(), self.none_after(a, k@, true), r),
            a.holds(store.state().records) ==> served(store.state(), r)
                && (r matches Ok(e) ==> is_end_key(
                &a.format(),
                keys_after(
                    &a.format(),
                    self.window(a, store.state().records),
                    k@,
                    true,
                    self.reversed(),
                ),
                self.reversed(),
                opt_model(e),
            )),
    {
        match self.ceiling_entry(a, store, k) {
            Ok(Some((x, _))) => Ok(Some(x)),
            Ok(None) => Ok(None),
            Err(e) => Err(e),
        }
    }

    pub fn higher_key<S: Store>(
        &self,
        a: &A,
        store: &S,
        k: &KeyOf<A>,
    ) -> (r: Result<Option<KeyOf<A>>>)
        ensures
            asked(a.broken(), store.state(), self.none_after(a, k@, false), r),
            a.holds(store.state().records) ==> served(store.state(), r)
                && (r matches Ok(e) ==> is_end_key(
                &a.format(),
                keys_after(
                    &a.format(),
                    self.window(a, store.state().records),
                    k@,
                    false,
                    self.reversed(),
                ),
                self.reversed(),
                opt_model(e),
            )),
    {
        match self.higher_entry(a, store, k) {
            Ok(Some((x, _))) => Ok(Some(x)),
            Ok(None) => Ok(None),
            Err(e) => Err(e),
        }
    }

    pub fn first_key<S: Store>(&self, a: &A, store: &S) -> (r: Result<Option<KeyOf<A>>>)
        ensures
            asked(a.broken(), store.state(), self.keyless(a), r),
            a.holds(store.state().records) ==> served(store.state(), r)
                && (r matches Ok(e) ==> is_end_key(
                &a.format(),
                self.window(a, store.state().records),
                self.reversed(),
                opt_model(e),
            )),
    {
        match self.first_entry(a, store) {
            Ok(Some((x, _))) => Ok(Some(x)),
            Ok(None) => Ok(None),
            Err(e) => Err(e),
        }
    }

    pub fn last_key<S: Store>(&self, a: &A, store: &S) -> (r: Result<Option<KeyOf<A>>>)
        ensures
            asked(a.broken(), store.state(), self.keyless(a), r),
            a.holds(store.state().records) ==> served(store.state(), r)
                && (r matches Ok(e) ==> is_end_key(
                &a.format(),
                self.window(a, store.state().records),
                !self.reversed(),
                opt_model(e),
            )),
    {
        match self.last_entry(a, store) {
            Ok(Some((x, _))) => Ok(Some(x)),
            Ok(None) => Ok(None),
            Err(e) => Err(e),
        }
    }

    fn backing_poll_first<S: Store>(
        &self,
        a: &mut A,
        store: &mut S,
    ) -> (r: Result<Option<(KeyOf<A>, ValueOf<A>)>>)
        requires
            old(a).attended(),
        ensures
            old(a).holds(old(store).state().records) && locked(old(store).state()) ==> {
                let part = self.window(old(a), old(store).state().records);
                &&& final(store).state().records == old(store).state().records
                &&& part =~= Map::empty() ==> (r matches Ok(e) && e is None)
                &&& !(part =~= Map::empty())
                    ==> r == Err::<Option<(KeyOf<A>, ValueOf<A>)>, DbError>(DbError::ReadOnly)
            },
            asked(old(a).broken(), old(store).state(), self.keyless(old(a)), r),
            final(a).format() == old(a).format(),
            final(a).values() == old(a).values(),
            final(a).attended() == old(a).attended(),
            final(a).willing() == old(a).willing(),
            old(a).holds(old(store).state().records) ==> {
                let m = old(a).entries_of(old(store).state().records);
                &&& old(a).willing() ==> carried_out(old(store).state(), r)
                &&& r matches Ok(e) ==> is_first(
                    &old(a).format(),
                    self.window(old(a), old(store).state().records),
                    opt_entry(e),
                )
                &&& r matches Ok(Some(e)) ==> old(a).noticed(e.0@, Some(e.1@), None)
                &&& r is Ok ==> final(a).changed(
                    old(a),
                    old(store).state(),
                    final(store).state(),
                    match opt_entry(r.unwrap()) {
                        Some((k, v)) => m.remove(k),
                        None => m,
                    },
                    0,
                )
                &&& r is Err ==> half_polled(
                    old(store).state(),
                    final(store).state(),
                    old(a).recids(),
                    final(a).broken(),
                    m,
                    final(a).entries_of(final(store).state().records),
                    self.window(old(a), old(store).state().records),
                )
            },
    {
        if Self::range_empty(a, self.lo.as_ref(), self.lo_inc, self.hi.as_ref(), self.hi_inc) {
            proof {
                assert(self.window(a, store.state().records) =~= Map::empty());
                if a.holds(store.state().records) {
                    a.unchanged(store.state());
                }
            }
            return Ok(None);
        }
        let lo = Self::dup_bound(a, &self.lo);
        let hi = Self::dup_bound(a, &self.hi);
        a.poll_first_range(store, lo, self.lo_inc, hi, self.hi_inc)
    }

    fn backing_poll_last<S: Store>(
        &self,
        a: &mut A,
        store: &mut S,
    ) -> (r: Result<Option<(KeyOf<A>, ValueOf<A>)>>)
        requires
            old(a).attended(),
        ensures
            old(a).holds(old(store).state().records) && locked(old(store).state()) ==> {
                let part = self.window(old(a), old(store).state().records);
                &&& final(store).state().records == old(store).state().records
                &&& part =~= Map::empty() ==> (r matches Ok(e) && e is None)
                &&& !(part =~= Map::empty())
                    ==> r == Err::<Option<(KeyOf<A>, ValueOf<A>)>, DbError>(DbError::ReadOnly)
            },
            asked(old(a).broken(), old(store).state(), self.keyless(old(a)), r),
            final(a).format() == old(a).format(),
            final(a).values() == old(a).values(),
            final(a).attended() == old(a).attended(),
            final(a).willing() == old(a).willing(),
            old(a).holds(old(store).state().records) ==> {
                let m = old(a).entries_of(old(store).state().records);
                &&& old(a).willing() ==> carried_out(old(store).state(), r)
                &&& r matches Ok(e) ==> is_last(
                    &old(a).format(),
                    self.window(old(a), old(store).state().records),
                    opt_entry(e),
                )
                &&& r matches Ok(Some(e)) ==> old(a).noticed(e.0@, Some(e.1@), None)
                &&& r is Ok ==> final(a).changed(
                    old(a),
                    old(store).state(),
                    final(store).state(),
                    match opt_entry(r.unwrap()) {
                        Some((k, v)) => m.remove(k),
                        None => m,
                    },
                    0,
                )
                &&& r is Err ==> half_polled(
                    old(store).state(),
                    final(store).state(),
                    old(a).recids(),
                    final(a).broken(),
                    m,
                    final(a).entries_of(final(store).state().records),
                    self.window(old(a), old(store).state().records),
                )
            },
    {
        if Self::range_empty(a, self.lo.as_ref(), self.lo_inc, self.hi.as_ref(), self.hi_inc) {
            proof {
                assert(self.window(a, store.state().records) =~= Map::empty());
                if a.holds(store.state().records) {
                    a.unchanged(store.state());
                }
            }
            return Ok(None);
        }
        let lo = Self::dup_bound(a, &self.lo);
        let hi = Self::dup_bound(a, &self.hi);
        a.poll_last_range(store, lo, self.lo_inc, hi, self.hi_inc)
    }

    /// Takes the first entry in the direction of the view out of the map.
    pub fn poll_first_entry<S: Store>(
        &self,
        a: &mut A,
        store: &mut S,
    ) -> (r: Result<Option<(KeyOf<A>, ValueOf<A>)>>)
        requires
            old(a).attended(),
        ensures
            old(a).holds(old(store).state().records) && locked(old(store).state()) ==> {
                let part = self.window(old(a), old(store).state().records);
                &&& final(store).state().records == old(store).state().records
                &&& part =~= Map::empty() ==> (r matches Ok(e) && e is None)
                &&& !(part =~= Map::empty())
                    ==> r == Err::<Option<(KeyOf<A>, ValueOf<A>)>, DbError>(DbError::ReadOnly)
            },
            asked(old(a).broken(), old(store).state(), self.keyless(old(a)), r),
            final(a).format() == old(a).format(),
            final(a).values() == old(a).values(),
            final(a).attended() == old(a).attended(),
            final(a).willing() == old(a).willing(),
            old(a).holds(old(store).state().records) ==> {
                let m = old(a).entries_of(old(store).state().records);
                &&& old(a).willing() ==> carried_out(old(store).state(), r)
                &&& r matches Ok(e) ==> is_end(
                    &old(a).format(),
                    self.window(old(a), old(store).state().records),
                    self.reversed(),
                    opt_entry(e),
                )
                &&& r matches Ok(Some(e)) ==> old(a).noticed(e.0@, Some(e.1@), None)
                &&& r is Ok ==> final(a).changed(
                    old(a),
                    old(store).state(),
                    final(store).state(),
                    match opt_entry(r.unwrap()) {
                        Some((k, v)) => m.remove(k),
                        None => m,
                    },
                    0,
                )
                &&& r is Err ==> half_polled(
                    old(store).state(),
                    final(store).state(),
                    old(a).recids(),
                    final(a).broken(),
                    m,
                    final(a).entries_of(final(store).state().records),
                    self.window(old(a), old(store).state().records),
                )
            },
    {
        if self.descending {
            self.backing_poll_last(a, store)
        } else {
            self.backing_poll_first(a, store)
        }
    }

    /// Takes the last entry in the direction of the view out of the map.
    pub fn poll_last_entry<S: Store>(
        &self,
        a: &mut A,
        store: &mut S,
    ) -> (r: Result<Option<(KeyOf<A>, ValueOf<A>)>>)
        requires
            old(a).attended(),
        ensures
            old(a).holds(old(store).state().records) && locked(old(store).state()) ==> {
                let part = self.window(old(a), old(store).state().records);
                &&& final(store).state().records == old(store).state().records
                &&& part =~= Map::empty() ==> (r matches Ok(e) && e is None)
                &&& !(part =~= Map::empty())
                    ==> r == Err::<Option<(KeyOf<A>, ValueOf<A>)>, DbError>(DbError::ReadOnly)
            },
            asked(old(a).broken(), old(store).state(), self.keyless(old(a)), r),
            final(a).format() == old(a).format(),
            final(a).values() == old(a).values(),
            final(a).attended() == old(a).attended(),
            final(a).willing() == old(a).willing(),
            old(a).holds(old(store).state().records) ==> {
                let m = old(a).entries_of(old(store).state().records);
                &&& old(a).willing() ==> carried_out(old(store).state(), r)
                &&& r matches Ok(e) ==> is_end(
                    &old(a).format(),
                    self.window(old(a), old(store).state().records),
                    !self.reversed(),
                    opt_entry(e),
                )
                &&& r matches Ok(Some(e)) ==> old(a).noticed(e.0@, Some(e.1@), None)
                &&& r is Ok ==> final(a).changed(
                    old(a),
                    old(store).state(),
                    final(store).state(),
                    match opt_entry(r.unwrap()) {
                        Some((k, v)) => m.remove(k),
                        None => m,
                    },
                    0,
                )
                &&& r is Err ==> half_polled(
                    old(store).state(),
                    final(store).state(),
                    old(a).recids(),
                    final(a).broken(),
                    m,
                    final(a).entries_of(final(store).state().records),
                    self.window(old(a), old(store).state().records),
                )
            },
    {
        if self.descending {
            self.backing_poll_first(a, store)
        } else {
            self.backing_poll_last(a, store)
        }
    }

    pub fn get<S: Store>(&self, a: &A, store: &S, key: &KeyOf<A>) -> (r: Result<Option<ValueOf<A>>>)
        ensures
            asked(a.broken(), store.state(), !self.shows(a, key@), r),
            a.holds(store.state().records) ==> served(store.state(), r) && (
            r matches Ok(v) ==>
                opt_model(v) == lookup(self.window(a, store.state().records), key@)),
    {
        if self.in_range(a, key) {
            a.get(store, key)
        } else {
            Ok(None)
        }
    }

    pub fn contains_key<S: Store>(&self, a: &A, store: &S, key: &KeyOf<A>) -> (r: Result<bool>)
        ensures
            self.shows(a, key@) ==> refused(a.broken(), store.state(), r),
            !self.shows(a, key@) ==> r == Ok::<bool, DbError>(false),
            a.holds(store.state().records) ==> served(store.state(), r) && (
            r matches Ok(x) ==> x == (self.window(a, store.state().records).contains_key(key@))),
    {
        if self.in_range(a, key) {
            a.contains_key(store, key)
        } else {
            Ok(false)
        }
    }

    /// Puts a value under a key that the view shows.
    pub fn put<S: Store>(
        &self,
        a: &mut A,
        store: &mut S,
        key: KeyOf<A>,
        value: ValueOf<A>,
    ) -> (r: Result<Option<ValueOf<A>>>)
        requires
            old(a).attended(),
            self.shows(old(a), key@),
            old(a).format().fits(key@),
            old(a).values().fits(value@),
        ensures
            old(a).holds(old(store).state().records) && locked(old(store).state())
                ==> final(store).state().records == old(store).state().records
                    && r == Err::<Option<ValueOf<A>>, DbError>(
                DbError::ReadOnly,
            ),
            refused(old(a).broken(), old(store).state(), r),
            final(a).format() == old(a).format(),
            final(a).values() == old(a).values(),
            final(a).attended() == old(a).attended(),
            final(a).willing() == old(a).willing(),
            old(a).put_ready(old(store).state()) ==> r is Ok,
            old(a).can_take(old(store).state().records) ==> {
                let m = old(a).entries_of(old(store).state().records);
                let w = self.window(old(a), old(store).state().records);
                &&& r matches Ok(v) ==> opt_model(v) == lookup(m, key@)
                &&& r is Ok ==> old(a).noticed(key@, lookup(m, key@), Some(value@))
                &&& r is Ok ==> final(a).changed(
                    old(a),
                    old(store).state(),
                    final(store).state(),
                    m.insert(key@, value@),
                    old(a).put_cost(),
                )
                &&& r is Err ==> half_done(
                    old(store).state(),
                    final(store).state(),
                    old(a).recids(),
                    final(a).broken(),
                    m,
                    final(a).entries_of(final(store).state().records),
                    m.insert(key@, value@),
                )
            },
    {
        a.put(store, key, value)
    }

    pub fn put_if_absent<S: Store>(
        &self,
        a: &mut A,
        store: &mut S,
        key: KeyOf<A>,
        value: ValueOf<A>,
    ) -> (r: Result<Option<ValueOf<A>>>)
        requires
            old(a).attended(),
            self.shows(old(a), key@),
            old(a).format().fits(key@),
            old(a).values().fits(value@),
        ensures
            old(a).holds(old(store).state().records) && locked(old(store).state()) ==> {
                let m = old(a).entries_of(old(store).state().records);
                let hit = !m.contains_key(key@);
                &&& final(store).state().records == old(store).state().records
                &&& hit ==> r == Err::<Option<ValueOf<A>>, DbError>(DbError::ReadOnly)
                &&& !hit ==> (r matches Ok(x) && opt_model(x) == Some(m[key@]))
            },
            refused(old(a).broken(), old(store).state(), r),
            final(a).format() == old(a).format(),
            final(a).values() == old(a).values(),
            final(a).attended() == old(a).attended(),
            final(a).willing() == old(a).willing(),
            old(a).put_ready(old(store).state()) ==> r is Ok,
            old(a).can_take(old(store).state().records) ==> {
                let m = old(a).entries_of(old(store).state().records);
                let w = self.window(old(a), old(store).state().records);
                &&& r matches Ok(v) ==> opt_model(v) == lookup(m, key@)
                &&& r is Ok && !m.contains_key(key@) ==> old(a).noticed(
                    key@,
                    None,
                    Some(value@),
                )
                &&& r is Ok ==> final(a).changed(
                    old(a),
                    old(store).state(),
                    final(store).state(),
                    if m.contains_key(key@) {
                        m
                    } else {
                        m.insert(key@, value@)
                    },
                    old(a).put_cost(),
                )
                &&& r is Err ==> half_done(
                    old(store).state(),
                    final(store).state(),
                    old(a).recids(),
                    final(a).broken(),
                    m,
                    final(a).entries_of(final(store).state().records),
                    if m.contains_key(key@) {
                        m
                    } else {
                        m.insert(key@, value@)
                    },
                )
            },
    {
        a.put_if_absent(store, key, value)
    }

    /// Removes a key that the view shows; other keys stay.
    pub fn remove<S: Store>(
        &self,
        a: &mut A,
        store: &mut S,
        key: &KeyOf<A>,
    ) -> (r: Result<Option<ValueOf<A>>>)
        requires
            old(a).attended(),
        ensures
            old(a).holds(old(store).state().records) && locked(old(store).state()) ==> {
                let w = self.window(old(a), old(store).state().records);
                let hit = w.contains_key(key@);
                &&& final(store).state().records == old(store).state().records
                &&& hit ==> r == Err::<Option<ValueOf<A>>, DbError>(DbError::ReadOnly)
                &&& !hit ==> (r matches Ok(x) && x is None)
            },
            asked(old(a).broken(), old(store).state(), !self.shows(old(a), key@), r),
            !self.shows(old(a), key@) ==> *final(a) == *old(a) && *final(store) == *old(store),
            final(a).format() == old(a).format(),
            final(a).values() == old(a).values(),
            final(a).attended() == old(a).attended(),
            final(a).willing() == old(a).willing(),
            old(a).holds(old(store).state().records) ==> {
                let m = old(a).entries_of(old(store).state().records);
                let w = self.window(old(a), old(store).state().records);
                &&& old(a).willing() ==> carried_out(old(store).state(), r)
                &&& r matches Ok(v) ==> opt_model(v) == lookup(w, key@)
                &&& r is Ok && w.contains_key(key@) ==> old(a).noticed(key@, Some(m[key@]), None)
                &&& r is Ok ==> final(a).changed(
                    old(a),
                    old(store).state(),
                    final(store).state(),
                    if w.contains_key(key@) {
                        m.remove(key@)
                    } else {
                        m
                    },
                    0,
                )
                &&& r is Err ==> half_done(
                    old(store).state(),
                    final(store).state(),
                    old(a).recids(),
                    final(a).broken(),
                    m,
                    final(a).entries_of(final(store).state().records),
                    if w.contains_key(key@) {
                        m.remove(key@)
                    } else {
                        m
                    },
                )
            },
    {
        if self.in_range(a, key) {
            let ghost m = a.entries_of(store.state().records);
            assert(!m.contains_key(key@) ==> m.remove(key@) =~= m);
            a.remove(store, key)
        } else {
            proof {
                if a.holds(store.state().records) {
                    a.unchanged(store.state());
                }
            }
            Ok(None)
        }
    }

    pub fn remove_if<S: Store>(
        &self,
        a: &mut A,
        store: &mut S,
        key: &KeyOf<A>,
        value: &ValueOf<A>,
    ) -> (r: Result<bool>)
        requires
            old(a).attended(),
        ensures
            old(a).holds(old(store).state().records) && locked(old(store).state()) ==> {
                let w = self.window(old(a), old(store).state().records);
                let hit = w.contains_key(key@) && w[key@] == value@;
                &&& final(store).state().records == old(store).state().records
                &&& hit ==> r == Err::<bool, DbError>(DbError::ReadOnly)
                &&& !hit ==> r == Ok::<bool, DbError>(false)
            },
            self.shows(old(a), key@) ==> refused(old(a).broken(), old(store).state(), r),
            !self.shows(old(a), key@) ==> r == Ok::<bool, DbError>(false) && *final(a) == *old(a)
                && *final(store) == *old(store),
            final(a).format() == old(a).format(),
            final(a).values() == old(a).values(),
            final(a).attended() == old(a).attended(),
            final(a).willing() == old(a).willing(),
            old(a).holds(old(store).state().records) ==> {
                let m = old(a).entries_of(old(store).state().records);
                let w = self.window(old(a), old(store).state().records);
                let hit = w.contains_key(key@) && w[key@] == value@;
                &&& old(a).willing() ==> carried_out(old(store).state(), r)
                &&& r matches Ok(x) ==> x == (hit)
                &&& r == Ok::<bool, DbError>(true) ==> old(a).noticed(key@, Some(value@), None)
                &&& r is Ok ==> final(a).changed(
                    old(a),
                    old(store).state(),
                    final(store).state(),
                    if hit {
                        m.remove(key@)
                    } else {
                        m
                    },
                    0,
                )
                &&& r is Err ==> half_done(
                    old(store).state(),
                    final(store).state(),
                    old(a).recids(),
                    final(a).broken(),
                    m,
                    final(a).entries_of(final(store).state().records),
                    if hit {
                        m.remove(key@)
                    } else {
                        m
                    },
                )
            },
    {
        if self.in_range(a, key) {
            a.remove_if(store, key, value)
        } else {
            proof {
                if a.holds(store.state().records) {
                    a.unchanged(store.state());
                }
            }
            Ok(false)
        }
    }

    pub fn replace<S: Store>(
        &self,
        a: &mut A,
        store: &mut S,
        key: &KeyOf<A>,
        value: ValueOf<A>,
    ) -> (r: Result<Option<ValueOf<A>>>)
        requires
            old(a).attended(),
            old(a).values().fits(value@),
        ensures
            old(a).holds(old(store).state().records) && locked(old(store).state()) ==> {
                let w = self.window(old(a), old(store).state().records);
                let hit = w.contains_key(key@);
                &&& final(store).state().records == old(store).state().records
                &&& hit ==> r == Err::<Option<ValueOf<A>>, DbError>(DbError::ReadOnly)
                &&& !hit ==> (r matches Ok(x) && x is None)
            },
            asked(old(a).broken(), old(store).state(), !self.shows(old(a), key@), r),
            !self.shows(old(a), key@) ==> *final(a) == *old(a) && *final(store) == *old(store),
            final(a).format() == old(a).format(),
            final(a).values() == old(a).values(),
            final(a).attended() == old(a).attended(),
            final(a).willing() == old(a).willing(),
            old(a).holds(old(store).state().records) ==> {
                let m = old(a).entries_of(old(store).state().records);
                let w = self.window(old(a), old(store).state().records);
                &&& old(a).willing() ==> carried_out(old(store).state(), r)
                &&& r matches Ok(v) ==> opt_model(v) == lookup(w, key@)
                &&& r is Ok && w.contains_key(key@) ==> old(a).noticed(
                    key@,
                    Some(m[key@]),
                    Some(value@),
                )
                &&& r is Ok ==> final(a).changed(
                    old(a),
                    old(store).state(),
                    final(store).state(),
                    if w.contains_key(key@) {
                        m.insert(key@, value@)
                    } else {
                        m
                    },
                    0,
                )
                &&& r is Err ==> half_done(
                    old(store).state(),
                    final(store).state(),
                    old(a).recids(),
                    final(a).broken(),
                    m,
                    final(a).entries_of(final(store).state().records),
                    if w.contains_key(key@) {
                        m.insert(key@, value@)
                    } else {
                        m
                    },
                )
            },
    {
        if self.in_range(a, key) {
            a.replace(store, key, value)
        } else {
            proof {
                if a.holds(store.state().records) {
                    a.unchanged(store.state());
                }
            }
            Ok(None)
        }
    }

    pub fn replace_if<S: Store>(
        &self,
        a: &mut A,
        store: &mut S,
        key: &KeyOf<A>,
        old_value: &ValueOf<A>,
        new_value: ValueOf<A>,
    ) -> (r: Result<bool>)
        requires
            old(a).attended(),
            old(a).values().fits(new_value@),
        ensures
            old(a).holds(old(store).state().records) && locked(old(store).state()) ==> {
                let w = self.window(old(a), old(store).state().records);
                let hit = w.contains_key(key@) && w[key@] == old_value@;
                &&& final(store).state().records == old(store).state().records
                &&& hit ==> r == Err::<bool, DbError>(DbError::ReadOnly)
                &&& !hit ==> r == Ok::<bool, DbError>(false)
            },
            self.shows(old(a), key@) ==> refused(old(a).broken(), old(store).state(), r),
            !self.shows(old(a), key@) ==> r == Ok::<bool, DbError>(false) && *final(a) == *old(a)
                && *final(store) == *old(store),
            final(a).format() == old(a).format(),
            final(a).values() == old(a).values(),
            final(a).attended() == old(a).attended(),
            final(a).willing() == old(a).willing(),
            old(a).holds(old(store).state().records) ==> {
                let m = old(a).entries_of(old(store).state().records);
                let w = self.window(old(a), old(store).state().records);
                let hit = w.contains_key(key@) && w[key@] == old_value@;
                &&& old(a).willing() ==> carried_out(old(store).state(), r)
                &&& r matches Ok(x) ==> x == (hit)
                &&& r == Ok::<bool, DbError>(true) ==> old(a).noticed(
                    key@,
                    Some(old_value@),
                    Some(new_value@),
                )
                &&& r is Ok ==> final(a).changed(
                    old(a),
                    old(store).state(),
                    final(store).state(),
                    if hit {
                        m.insert(key@, new_value@)
                    } else {
                        m
                    },
                    0,
                )
                &&& r is Err ==> half_done(
                    old(store).state(),
                    final(store).state(),
                    old(a).recids(),
                    final(a).broken(),
                    m,
                    final(a).entries_of(final(store).state().records),
                    if hit {
                        m.insert(key@, new_value@)
                    } else {
                        m
                    },
                )
            },
    {
        if self.in_range(a, key) {
            a.replace_if(store, key, old_value, new_value)
        } else {
            proof {
                if a.holds(store.state().records) {
                    a.unchanged(store.state());
                }
            }
            Ok(false)
        }
    }

    /// The number of entries that the view shows.
    pub fn size_long<S: Store>(&self, a: &A, store: &S) -> (r: Result<u64>)
        ensures
            self.keyless(a) ==> r == Ok::<u64, DbError>(0),
            !self.keyless(a) ==> refused(a.broken(), store.state(), r),
            a.holds(store.state().records) ==> {
                let w = self.window(a, store.state().records);
                served(store.state(), r) && (w.len() <= u64::MAX ==> (r matches Ok(n) ==> n
                    == w.len()))
            },
    {
        if self.shows_nothing(a) {
            proof {
                assert(self.window(a, store.state().records) =~= Map::empty());
                assert(self.window(a, store.state().records).dom() =~= Set::empty());
            }
            return Ok(0);
        }
        a.size_long_range(
            store,
            Self::dup_bound(a, &self.lo),
            self.lo_inc,
            Self::dup_bound(a, &self.hi),
            self.hi_inc,
        )
    }

    /// Whether the bounds leave no key.
    fn shows_nothing(&self, a: &A) -> (r: bool)
        ensures
            r == self.keyless(a),
            r ==> forall|k: Model<A::KF>| !#[trigger] self.shows(a, k),
            r ==> forall|records: Records| #[trigger]
                self.window(a, records) == Map::<Model<A::KF>, Model<A::VF>>::empty(),
    {
        let r = Self::range_empty(a, self.lo.as_ref(), self.lo_inc, self.hi.as_ref(), self.hi_inc);
        proof {
            if r {
                assert forall|k: Model<A::KF>| !#[trigger] self.shows(a, k) by {
                    assert(!in_range(
                        &a.format(),
                        k,
                        opt_model(self.lo),
                        self.lo_inc,
                        opt_model(self.hi),
                        self.hi_inc,
                    ));
                }
                assert forall|records: Records| #[trigger] self.window(a, records) == Map::<
                    Model<A::KF>,
                    Model<A::VF>,
                >::empty() by {
                    let w = self.window(a, records);
                    assert forall|k: Model<A::KF>| !w.contains_key(k) by {
                        assert(!self.shows(a, k));
                    }
                    assert(w =~= Map::empty());
                }
            }
        }
        r
    }

    /// Whether the view shows no entry.
    pub fn is_empty<S: Store>(&self, a: &A, store: &S) -> (r: Result<bool>)
        ensures
            self.keyless(a) ==> r == Ok::<bool, DbError>(true),
            !self.keyless(a) ==> refused(a.broken(), store.state(), r),
            a.holds(store.state().records) ==> served(store.state(), r) && (
            r matches Ok(x) ==>
                x == (self.window(a, store.state().records)
                    == Map::<Model<A::KF>, Model<A::VF>>::empty())),
    {
        match self.first_entry(a, store) {
            Ok(Some(_)) => Ok(false),
            Ok(None) => Ok(true),
            Err(e) => Err(e),
        }
    }

    fn ascending_range<S: Store>(
        &self,
        a: &A,
        store: &S,
    ) -> (r: Result<Vec<(KeyOf<A>, ValueOf<A>)>>)
        ensures
            self.keyless(a) ==> (r matches Ok(v) && v@.len() == 0),
            !self.keyless(a) ==> refused(a.broken(), store.state(), r),
            a.holds(store.state().records) ==> served(store.state(), r)
                && (r matches Ok(v) ==> lists(
                &a.format(),
                entry_models(v@),
                self.window(a, store.state().records),
            )),
    {
        if self.shows_nothing(a) {
            return Ok(Vec::new());
        }
        a.entry_iter_range(
            store,
            Self::dup_bound(a, &self.lo),
            self.lo_inc,
            Self::dup_bound(a, &self.hi),
            self.hi_inc,
        )
    }

    fn descending_range<S: Store>(
        &self,
        a: &A,
        store: &S,
    ) -> (r: Result<Vec<(KeyOf<A>, ValueOf<A>)>>)
        ensures
            self.keyless(a) ==> (r matches Ok(v) && v@.len() == 0),
            !self.keyless(a) ==> refused(a.broken(), store.state(), r),
            a.holds(store.state().records) ==> served(store.state(), r)
                && (r matches Ok(v) ==> lists(
                &a.format(),
                entry_models(v@).reverse(),
                self.window(a, store.state().records),
            )),
    {
        if self.shows_nothing(a) {
            return Ok(Vec::new());
        }
        a.descending_entry_iter_range(
            store,
            Self::dup_bound(a, &self.lo),
            self.lo_inc,
            Self::dup_bound(a, &self.hi),
            self.hi_inc,
        )
    }

    /// The entries that the view shows, in its direction.
    pub fn iter<S: Store>(&self, a: &A, store: &S) -> (r: Result<Vec<(KeyOf<A>, ValueOf<A>)>>)
        ensures
            self.keyless(a) ==> (r matches Ok(v) && v@.len() == 0),
            !self.keyless(a) ==> refused(a.broken(), store.state(), r),
            a.holds(store.state().records) ==> served(store.state(), r)
                && (r matches Ok(v) ==> lists(
                &a.format(),
                oriented(entry_models(v@), self.reversed()),
                self.window(a, store.state().records),
            )),
    {
        if self.descending {
            self.descending_range(a, store)
        } else {
            self.ascending_range(a, store)
        }
    }

    /// The entries that the view shows, in its direction.
    pub fn entries<S: Store>(&self, a: &A, store: &S) -> (r: Result<Vec<(KeyOf<A>, ValueOf<A>)>>)
        ensures
            self.keyless(a) ==> (r matches Ok(v) && v@.len() == 0),
            !self.keyless(a) ==> refused(a.broken(), store.state(), r),
            a.holds(store.state().records) ==> served(store.state(), r)
                && (r matches Ok(v) ==> lists(
                &a.format(),
                oriented(entry_models(v@), self.reversed()),
                self.window(a, store.state().records),
            )),
    {
        self.iter(a, store)
    }

    /// The keys that the view shows, in its direction.
    pub fn keys<S: Store>(&self, a: &A, store: &S) -> (r: Result<Vec<KeyOf<A>>>)
        ensures
            self.keyless(a) ==> (r matches Ok(v) && v@.len() == 0),
            !self.keyless(a) ==> refused(a.broken(), store.state(), r),
            a.holds(store.state().records) ==> served(store.state(), r)
                && (r matches Ok(v) ==> lists_keys(
                &a.format(),
                oriented(models(v@), self.reversed()),
                self.window(a, store.state().records),
            )),
    {
        let ghost w = self.window(a, store.state().records);
        let mut all = match self.iter(a, store) {
            Ok(v) => v,
            Err(e) => {
                return Err(e);
            },
        };
        let ghost es = entry_models(all@);
        let mut out: Vec<KeyOf<A>> = Vec::new();
        let ghost total = all@.len();
        let mut i: usize = 0;
        while i < all.len()
            invariant
                i <= all@.len() == total,
                es == entry_models(all@),
                models(out@) == es.take(i as int).map_values(|e: (Model<A::KF>, Model<A::VF>)| e.0),
            decreases total - i,
        {
            let ghost before = models(out@);
            out.push(a.key_format().dup(&all[i].0));
            proof {
                let f = |e: (Model<A::KF>, Model<A::VF>)| e.0;
                assert(es[i as int].0 == all@[i as int].0@);
                assert(models(out@) =~= before.push(es[i as int].0));
                assert(es.take(i + 1) =~= es.take(i as int).push(es[i as int]));
                assert(es.take(i + 1).map_values(f) =~= es.take(i as int).map_values(f).push(
                    es[i as int].0,
                ));
            }
            i = i + 1;
        }
        proof {
            if a.holds(store.state().records) {
                assert(es.take(total as int) =~= es);
                let f = |e: (Model<A::KF>, Model<A::VF>)| e.0;
                lemma_keys_of_list(&a.format(), oriented(es, self.reversed()), w);
                assert(oriented(models(out@), self.reversed()) =~= oriented(
                    es,
                    self.reversed(),
                ).map_values(f));
            }
        }
        Ok(out)
    }

    /// Removes the entries that the view shows; the others stay.
    pub fn clear<S: Store>(&self, a: &mut A, store: &mut S) -> (r: Result<()>)
        requires
            old(a).attended(),
        ensures
            old(a).holds(old(store).state().records) && locked(old(store).state()) ==> {
                let w = self.window(old(a), old(store).state().records);
                &&& final(store).state().records == old(store).state().records
                &&& w =~= Map::empty() ==> r is Ok
                &&& !(w =~= Map::empty()) ==> r == Err::<(), DbError>(DbError::ReadOnly)
            },
            self.keyless(old(a)) ==> r is Ok && *final(a) == *old(a)
                && *final(store) == *old(store),
            !self.keyless(old(a)) ==> refused(old(a).broken(), old(store).state(), r),
            final(a).format() == old(a).format(),
            final(a).values() == old(a).values(),
            final(a).attended() == old(a).attended(),
            final(a).willing() == old(a).willing(),
            old(a).holds(old(store).state().records) && old(a).willing() ==> carried_out(
                old(store).state(),
                r,
            ),
            old(a).holds(old(store).state().records) && r is Ok ==> final(a).changed(
                old(a),
                old(store).state(),
                final(store).state(),
                old(a).entries_of(old(store).state().records).remove_keys(
                    self.window(old(a), old(store).state().records).dom(),
                ),
                0,
            ),
            old(a).holds(old(store).state().records) && r is Ok ==> {
                let w = self.window(old(a), old(store).state().records);
                forall|k: Model<A::KF>| #[trigger]
                    w.contains_key(k) ==> old(a).noticed(k, Some(w[k]), None)
            },
            old(a).holds(old(store).state().records) && r is Err ==> {
                let m = old(a).entries_of(old(store).state().records);
                let now = final(a).entries_of(final(store).state().records);
                &&& keeps_state(old(store).state(), final(store).state())
                &&& spares(
                    old(store).state().records,
                    final(store).state().records,
                    old(a).recids(),
                )
                &&& final(a).broken() || {
                    &&& now.submap_of(m)
                    &&& forall|k: Model<A::KF>| #[trigger]
                        m.contains_key(k) && !self.shows(old(a), k) ==> now.contains_key(k)
                }
            },
    {
        let ghost sa = store.state();
        let ghost ro = a.holds(sa.records) && locked(sa);
        let ghost good = a.holds(sa.records);
        let ghost m = a.entries_of(sa.records);
        let ghost w = self.window(a, sa.records);
        let all = match self.ascending_range(a, store) {
            Ok(v) => v,
            Err(e) => {
                return Err(e);
            },
        };
        let ghost es = entry_models(all@);
        proof {
            if good {
                a.unchanged(sa);
            }
        }
        let mut i: usize = 0;
        while i < all.len()
            invariant
                old(a).attended(),
                a.attended() == old(a).attended(),
                a.willing() == old(a).willing(),
                i <= all@.len(),
                es == entry_models(all@),
                sa == old(store).state(),
                ro == (old(a).holds(sa.records) && locked(sa)),
                ro ==> i == 0 && *a == *old(a) && *store == *old(store)
                    && lists(&old(a).format(), es, w),
                self.keyless(old(a)) ==> all@.len() == 0 && *a == *old(a) && *store == *old(store),
                !self.keyless(old(a)) ==> !old(a).broken() && !sa.closed,
                good == old(a).holds(sa.records),
                m == old(a).entries_of(sa.records),
                w == self.window(old(a), sa.records),
                good ==> lists(&old(a).format(), es, w),
                a.format() == old(a).format(),
                a.values() == old(a).values(),
                good ==> {
                    let now = a.entries_of(store.state().records);
                    &&& a.changed(old(a), sa, store.state(), now, 0)
                    &&& forall|k: Model<A::KF>| #[trigger]
                        now.contains_key(k) <==> m.contains_key(k) && forall|x: int|
                            0 <= x < i ==> (#[trigger] es[x]).0 != k
                    &&& forall|x: int|
                        0 <= x < i ==> old(a).noticed((#[trigger] es[x]).0, Some(es[x].1), None)
                    &&& forall|k: Model<A::KF>| #[trigger] now.contains_key(k) ==> now[k] == m[k]
                },
            decreases all@.len() - i,
        {
            let ghost sb = store.state();
            let ghost before = *a;
            let ghost then = a.entries_of(sb.records);
            proof {
                if good {
                    a.changed_means(old(a), sa, sb, then, 0);
                }
                assert(es[i as int].0 == all@[i as int].0@);
            }
            match a.remove(store, &all[i].0) {
                Ok(_) => {},
                Err(e) => {
                    proof {
                        if good {
                            let sc = store.state();
                            let ours = old(a).recids();
                            assert forall|x: u64| #[trigger]
                                sa.records.contains_key(x) && !ours.contains(x)
                                    implies sc.records.contains_key(x)
                                && sc.records[x] == sa.records[x] by {
                                assert(sb.records.contains_key(x));
                                assert(!before.recids().contains(x));
                            }
                            let now = a.entries_of(sc.records);
                            if !a.broken() {
                                assert forall|k: Model<A::KF>| #[trigger]
                                    m.contains_key(k) && !self.shows(old(a), k)
                                        implies now.contains_key(k) by {
                                    assert forall|x: int| 0 <= x < es.len()
                                        implies (#[trigger] es[x]).0 != k by {
                                        assert(w.contains_key(es[x].0));
                                    }
                                    assert(then.contains_key(k));
                                }
                                assert(now.submap_of(m));
                            }
                        }
                    }
                    return Err(e);
                },
            }
            proof {
                if good {
                    let now = a.entries_of(store.state().records);
                    a.changed_means(&before, sb, store.state(), then.remove(es[i as int].0), 0);
                    a.changed_twice(&before, old(a), sa, sb, store.state());
                    assert forall|k: Model<A::KF>| #[trigger] now.contains_key(k)
                        <==> m.contains_key(
                        k,
                    ) && forall|x: int| 0 <= x < i + 1 ==> (#[trigger] es[x]).0 != k by {
                        assert(now.contains_key(k) <==> then.contains_key(k)
                            && k != es[i as int].0);
                        if now.contains_key(k) {
                            assert forall|x: int| 0 <= x < i + 1
                                implies (#[trigger] es[x]).0 != k by {}
                        }
                    }
                }
            }
            i = i + 1;
        }
        proof {
            if good {
                let now = a.entries_of(store.state().records);
                let want = m.remove_keys(w.dom());
                assert forall|k: Model<A::KF>| now.contains_key(k) == want.contains_key(k) by {
                    if w.contains_key(k) {
                        let x = choose|x: int| 0 <= x < es.len() && (#[trigger] es[x]).0 == k;
                        assert(es[x].0 == k);
                    } else if m.contains_key(k) {
                        assert forall|x: int| 0 <= x < es.len()
                            implies (#[trigger] es[x]).0 != k by {
                            assert(w.contains_key(es[x].0));
                        }
                    }
                }
                assert(now =~= want);
            }
        }
        Ok(())
    }

    // ------------------------------------------------------------ views of views

    /// This view shows the keys of another in the other direction.
    pub open spec fn flips(&self, other: &Self) -> bool {
        &&& self.low() == other.low()
        &&& self.low_inc() == other.low_inc()
        &&& self.high() == other.high()
        &&& self.high_inc() == other.high_inc()
        &&& self.reversed() == !other.reversed()
    }

    /// Turning a view round changes nothing that it shows, and doing it twice nothing at
    /// all.
    pub proof fn law_flipped_twice(&self, flipped: &Self, again: &Self, a: &A, records: Records)
        requires
            flipped.flips(self),
            again.flips(flipped),
        ensures
            flipped.window(a, records) == self.window(a, records),
            again.window(a, records) == self.window(a, records),
            again.reversed() == self.reversed(),
    {
    }

    /// A view that shows fewer keys shows entries of the wider one only.
    pub proof fn law_narrower_is_part(&self, inner: &Self, a: &A, records: Records)
        requires
            forall|x: Model<A::KF>| #[trigger] inner.shows(a, x) ==> self.shows(a, x),
        ensures
            inner.window(a, records).submap_of(self.window(a, records)),
    {
        let w = inner.window(a, records);
        assert forall|x: Model<A::KF>| #[trigger] w.contains_key(x) implies self.window(
            a,
            records,
        ).contains_key(x) && self.window(a, records)[x] == w[x] by {
            assert(inner.shows(a, x));
            assert(self.shows(a, x));
        }
    }

    /// The same entries in the other direction.
    pub fn descending(&self, a: &A) -> (r: Self)
        ensures
            r.flips(self),
    {
        RangeView {
            lo: Self::dup_bound(a, &self.lo),
            lo_inc: self.lo_inc,
            hi: Self::dup_bound(a, &self.hi),
            hi_inc: self.hi_inc,
            descending: !self.descending,
        }
    }

    fn make_sub(&self, a: &A, lo: Option<(KeyOf<A>, bool)>, hi: Option<(KeyOf<A>, bool)>) -> (r:
        std::result::Result<Self, ()>)
        ensures
            r is Ok == ((lo matches Some((k, inc)) ==> self.bound_ok(a, k@, inc))
                && (hi matches Some(
                (k, inc),
            ) ==> self.bound_ok(a, k@, inc))),
            r matches Ok(v) ==> {
                &&& v.reversed() == self.reversed()
                &&& v.lower() == match lo {
                    Some((k, inc)) => (Some(k@), inc),
                    None => self.lower(),
                }
                &&& v.upper() == match hi {
                    Some((k, inc)) => (Some(k@), inc),
                    None => self.upper(),
                }
                &&& forall|x: Model<A::KF>| #[trigger]
                    v.shows(a, x) == (self.shows(a, x) && (lo matches Some((k, inc)) ==> lo_ok(
                        &a.format(),
                        x,
                        Some(k@),
                        inc,
                    )) && (hi matches Some((k, inc)) ==> hi_ok(&a.format(), x, Some(k@), inc)))
            },
    {
        let (n_lo, n_lo_inc) = match &lo {
            None => (Self::dup_bound(a, &self.lo), self.lo_inc),
            Some((k, inc)) => {
                match self.check_bound_key(a, k, *inc) {
                    Ok(_) => {},
                    Err(_) => {
                        return Err(());
                    },
                }
                let (b, bi) = self.eff_lower(a, k, *inc);
                (Some(b), bi)
            },
        };
        let (n_hi, n_hi_inc) = match &hi {
            None => (Self::dup_bound(a, &self.hi), self.hi_inc),
            Some((k, inc)) => {
                match self.check_bound_key(a, k, *inc) {
                    Ok(_) => {},
                    Err(_) => {
                        return Err(());
                    },
                }
                let (b, bi) = self.eff_upper(a, k, *inc);
                (Some(b), bi)
            },
        };
        Ok(
            RangeView {
                lo: n_lo,
                lo_inc: n_lo_inc,
                hi: n_hi,
                hi_inc: n_hi_inc,
                descending: self.descending,
            },
        )
    }

    /// The keys between two keys, given in the direction of the view.
    pub fn sub_map(
        &self,
        a: &A,
        from: KeyOf<A>,
        from_inc: bool,
        to: KeyOf<A>,
        to_inc: bool,
    ) -> (r: Self)
        requires
            !comes_after(&a.format(), from@, to@, self.reversed()),
            self.bound_ok(a, from@, from_inc),
            self.bound_ok(a, to@, to_inc),
        ensures
            r.reversed() == self.reversed(),
            !self.reversed() ==> r.lower() == (Some(from@), from_inc) && r.upper() == (
                Some(to@),
                to_inc,
            ),
            self.reversed() ==> r.upper() == (Some(from@), from_inc) && r.lower() == (
                Some(to@),
                to_inc,
            ),
            forall|x: Model<A::KF>| #[trigger]
                r.shows(a, x) == (self.shows(a, x) && after_bound(
                    &a.format(),
                    x,
                    from@,
                    from_inc,
                    self.reversed(),
                ) && after_bound(&a.format(), x, to@, to_inc, !self.reversed())),
    {
        let r = if !self.descending {
            self.make_sub(a, Some((from, from_inc)), Some((to, to_inc)))
        } else {
            self.make_sub(a, Some((to, to_inc)), Some((from, from_inc)))
        };
        match r {
            Ok(v) => v,
            Err(_) => vstd::pervasive::unreached(),
        }
    }

    /// The keys before a key, in the direction of the view.
    pub fn head_map(&self, a: &A, to: KeyOf<A>, inc: bool) -> (r: Self)
        requires
            self.bound_ok(a, to@, inc),
        ensures
            r.reversed() == self.reversed(),
            !self.reversed() ==> r.lower() == self.lower() && r.upper() == (Some(to@), inc),
            self.reversed() ==> r.upper() == self.upper() && r.lower() == (Some(to@), inc),
            forall|x: Model<A::KF>| #[trigger]
                r.shows(a, x) == (self.shows(a, x) && after_bound(
                    &a.format(),
                    x,
                    to@,
                    inc,
                    !self.reversed(),
                )),
    {
        let r = if self.descending {
            self.make_sub(a, Some((to, inc)), None)
        } else {
            self.make_sub(a, None, Some((to, inc)))
        };
        match r {
            Ok(v) => v,
            Err(_) => vstd::pervasive::unreached(),
        }
    }

    /// The keys from a key on, in the direction of the view.
    pub fn tail_map(&self, a: &A, from: KeyOf<A>, inc: bool) -> (r: Self)
        requires
            self.bound_ok(a, from@, inc),
        ensures
            r.reversed() == self.reversed(),
            !self.reversed() ==> r.lower() == (Some(from@), inc) && r.upper() == self.upper(),
            self.reversed() ==> r.upper() == (Some(from@), inc) && r.lower() == self.lower(),
            forall|x: Model<A::KF>| #[trigger]
                r.shows(a, x) == (self.shows(a, x) && after_bound(
                    &a.format(),
                    x,
                    from@,
                    inc,
                    self.reversed(),
                )),
    {
        let r = if self.descending {
            self.make_sub(a, None, Some((from, inc)))
        } else {
            self.make_sub(a, Some((from, inc)), None)
        };
        match r {
            Ok(v) => v,
            Err(_) => vstd::pervasive::unreached(),
        }
    }
}

/// In the direction of a view, `a` comes after `b`.
pub open spec fn comes_after<KF: KeyFormat>(
    kf: &KF,
    a: Model<KF>,
    b: Model<KF>,
    reversed: bool,
) -> bool {
    if reversed {
        kf.lt(a, b)
    } else {
        kf.lt(b, a)
    }
}

/// In the direction of a view, `x` comes after the bound, or lies on it where the
/// bound is inclusive.
pub open spec fn after_bound<KF: KeyFormat>(
    kf: &KF,
    x: Model<KF>,
    bound: Model<KF>,
    inc: bool,
    reversed: bool,
) -> bool {
    if reversed {
        hi_ok(kf, x, Some(bound), inc)
    } else {
        lo_ok(kf, x, Some(bound), inc)
    }
}

/// The entries after a key in the direction of a view, with the key itself where
/// `inc`.
pub open spec fn keys_after<KF: KeyFormat, V>(
    kf: &KF,
    m: Map<Model<KF>, V>,
    k: Model<KF>,
    inc: bool,
    reversed: bool,
) -> Map<Model<KF>, V> {
    if reversed {
        ranged(kf, m, None, true, Some(k), inc)
    } else {
        ranged(kf, m, Some(k), inc, None, true)
    }
}

/// The entries before a key in the direction of a view.
pub open spec fn keys_before<KF: KeyFormat, V>(
    kf: &KF,
    m: Map<Model<KF>, V>,
    k: Model<KF>,
    inc: bool,
    reversed: bool,
) -> Map<Model<KF>, V> {
    keys_after(kf, m, k, inc, !reversed)
}

/// As [`is_end`], for the key alone.
pub open spec fn is_end_key<KF: KeyFormat, V>(
    kf: &KF,
    m: Map<Model<KF>, V>,
    descending: bool,
    r: Option<Model<KF>>,
) -> bool {
    match r {
        None => m == Map::<Model<KF>, V>::empty(),
        Some(k) => if descending {
            is_greatest(kf, m, k)
        } else {
            is_least(kf, m, k)
        },
    }
}

/// A list turned round where the view is descending.
pub open spec fn oriented<T>(s: Seq<T>, reversed: bool) -> Seq<T> {
    if reversed {
        s.reverse()
    } else {
        s
    }
}

proof fn lemma_keys_of_list<KF: KeyFormat, V>(
    kf: &KF,
    r: Seq<(Model<KF>, V)>,
    m: Map<Model<KF>, V>,
)
    requires
        lists(kf, r, m),
    ensures
        lists_keys(kf, r.map_values(|e: (Model<KF>, V)| e.0), m),
{
    let ks = r.map_values(|e: (Model<KF>, V)| e.0);
    assert forall|i: int| 0 <= i < ks.len() implies m.contains_key(#[trigger] ks[i]) by {
        assert(m.contains_key(r[i].0));
    }
    assert forall|i: int, j: int| #![trigger ks[i], ks[j]] 0 <= i < j < ks.len() implies kf.lt(
        ks[i],
        ks[j],
    ) by {
        assert(kf.lt(r[i].0, r[j].0));
    }
    assert forall|k: Model<KF>| #[trigger] m.contains_key(k) implies exists|i: int|
        0 <= i < ks.len() && #[trigger] ks[i] == k by {
        let i = choose|i: int| 0 <= i < r.len() && (#[trigger] r[i]).0 == k;
        assert(ks[i] == k);
    }
}

impl<KF: KeyFormat, VF: Serializer> BTreeMap<KF, VF> {
    /// A view of the whole map, ascending.
    pub fn view(&self) -> (r: RangeView<Self>)
        ensures
            r.low() is None,
            r.high() is None,
            !r.reversed(),
            forall|records: Records| #[trigger] r.window(self, records) == self.contents(records),
    {
        RangeView::full(self)
    }

    /// A view of the keys from `from` up to `to`, which is left out.
    pub fn range(&self, from: KF::Item, to: KF::Item) -> (r: RangeView<Self>)
        requires
            !self.kf().lt(to@, from@),
        ensures
            !r.reversed(),
            r.lower() == (Some(from@), true),
            r.upper() == (Some(to@), false),
            forall|x: Model<KF>| #[trigger]
                r.shows(self, x) == in_range(&self.kf(), x, Some(from@), true, Some(to@), false),
    {
        self.view().sub_map(self, from, true, to, false)
    }

    /// A view of the keys between two keys.
    pub fn sub_map(
        &self,
        from: KF::Item,
        from_inc: bool,
        to: KF::Item,
        to_inc: bool,
    ) -> (r: RangeView<Self>)
        requires
            !self.kf().lt(to@, from@),
        ensures
            !r.reversed(),
            r.lower() == (Some(from@), from_inc),
            r.upper() == (Some(to@), to_inc),
            forall|x: Model<KF>| #[trigger]
                r.shows(self, x) == in_range(
                    &self.kf(),
                    x,
                    Some(from@),
                    from_inc,
                    Some(to@),
                    to_inc,
                ),
    {
        self.view().sub_map(self, from, from_inc, to, to_inc)
    }

    /// A view of the keys below a key.
    pub fn head_map(&self, to: KF::Item, inc: bool) -> (r: RangeView<Self>)
        ensures
            !r.reversed(),
            r.low() is None,
            r.upper() == (Some(to@), inc),
            forall|x: Model<KF>| #[trigger]
                r.shows(self, x) == hi_ok(&self.kf(), x, Some(to@), inc),
    {
        self.view().head_map(self, to, inc)
    }

    /// A view of the keys above a key.
    pub fn tail_map(&self, from: KF::Item, inc: bool) -> (r: RangeView<Self>)
        ensures
            !r.reversed(),
            r.lower() == (Some(from@), inc),
            r.high() is None,
            forall|x: Model<KF>| #[trigger]
                r.shows(self, x) == lo_ok(&self.kf(), x, Some(from@), inc),
    {
        self.view().tail_map(self, from, inc)
    }

    /// A view of the whole map, descending.
    pub fn descending(&self) -> (r: RangeView<Self>)
        ensures
            r.low() is None,
            r.high() is None,
            r.reversed(),
            forall|records: Records| #[trigger] r.window(self, records) == self.contents(records),
    {
        let r = self.view().descending(self);
        proof {
            assert forall|records: Records| #[trigger] r.window(self, records) == self.contents(
                records,
            ) by {
                lemma_ranged_all(&self.kf(), self.contents(records), r.low_inc(), r.high_inc());
            }
        }
        r
    }

    /// The entry with the least key.
    pub fn first_entry<S: Store>(&self, store: &S) -> (r: Result<Option<(KF::Item, VF::Item)>>)
        ensures
            self.refuses(store.state(), r),
            self.wf(store.state().records) ==> served(store.state(), r) && (
            r matches Ok(e) ==>
                is_first(&self.kf(), self.contents(store.state().records), opt_entry(e))),
    {
        self.view().first_entry(self, store)
    }

    /// The entry with the greatest key.
    pub fn last_entry<S: Store>(&self, store: &S) -> (r: Result<Option<(KF::Item, VF::Item)>>)
        ensures
            self.refuses(store.state(), r),
            self.wf(store.state().records) ==> served(store.state(), r) && (
            r matches Ok(e) ==>
                is_last(&self.kf(), self.contents(store.state().records), opt_entry(e))),
    {
        self.view().last_entry(self, store)
    }

    /// The last entry at or below a key.
    pub fn floor_entry<S: Store>(
        &self,
        store: &S,
        k: &KF::Item,
    ) -> (r: Result<Option<(KF::Item, VF::Item)>>)
        ensures
            self.refuses(store.state(), r),
            self.wf(store.state().records)
                ==> served(store.state(), r) && (r matches Ok(e) ==> is_last(
                &self.kf(),
                ranged(
                    &self.kf(),
                    self.contents(store.state().records),
                    None,
                    true,
                    Some(k@),
                    true,
                ),
                opt_entry(e),
            )),
    {
        self.view().floor_entry(self, store, k)
    }

    /// The first entry at or above a key.
    pub fn ceiling_entry<S: Store>(
        &self,
        store: &S,
        k: &KF::Item,
    ) -> (r: Result<Option<(KF::Item, VF::Item)>>)
        ensures
            self.refuses(store.state(), r),
            self.wf(store.state().records)
                ==> served(store.state(), r) && (r matches Ok(e) ==> is_first(
                &self.kf(),
                ranged(
                    &self.kf(),
                    self.contents(store.state().records),
                    Some(k@),
                    true,
                    None,
                    true,
                ),
                opt_entry(e),
            )),
    {
        self.view().ceiling_entry(self, store, k)
    }

    /// The last entry below a key.
    pub fn lower_entry<S: Store>(
        &self,
        store: &S,
        k: &KF::Item,
    ) -> (r: Result<Option<(KF::Item, VF::Item)>>)
        ensures
            self.refuses(store.state(), r),
            self.wf(store.state().records)
                ==> served(store.state(), r) && (r matches Ok(e) ==> is_last(
                &self.kf(),
                ranged(
                    &self.kf(),
                    self.contents(store.state().records),
                    None,
                    true,
                    Some(k@),
                    false,
                ),
                opt_entry(e),
            )),
    {
        self.view().lower_entry(self, store, k)
    }

    /// The first entry above a key.
    pub fn higher_entry<S: Store>(
        &self,
        store: &S,
        k: &KF::Item,
    ) -> (r: Result<Option<(KF::Item, VF::Item)>>)
        ensures
            self.refuses(store.state(), r),
            self.wf(store.state().records)
                ==> served(store.state(), r) && (r matches Ok(e) ==> is_first(
                &self.kf(),
                ranged(
                    &self.kf(),
                    self.contents(store.state().records),
                    Some(k@),
                    false,
                    None,
                    true,
                ),
                opt_entry(e),
            )),
    {
        self.view().higher_entry(self, store, k)
    }
}

} // verus!
