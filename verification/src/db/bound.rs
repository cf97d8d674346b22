//! A map that owns what follows it: its bindings are told of every change, and what
//! they keep stays what the entries of the map tell.

use vstd::prelude::*;
use crate::btree::map::write::{frames, spares};
use crate::btree::range::{is_greatest, is_least, lemma_keys_len, lists_keys, ranged};
use crate::btree::map::{lookup, opt_ref_model, BTreeMap};
use crate::db::secondary::serves;
use crate::error::{DbError, Result};
use crate::ser::{models, KeyFormat, Model, Serializer};
use crate::store::{keeps_state, opt_model, Records, Store, StoreState};

verus! {

/// The map after a change at a key.
pub open spec fn changed<K, V>(m: Map<K, V>, k: K, v: Option<V>) -> Map<K, V> {
    match v {
        Some(x) => m.insert(k, x),
        None => m.remove(k),
    }
}

/// Something that follows a map.
pub trait Binding<KF: KeyFormat, VF: Serializer>: Sized {
    /// What the binding keeps is what the entries `m` tell.
    spec fn in_step(&self, records: Records, m: Map<Model<KF>, Model<VF>>) -> bool;

    /// The records that belong to the binding.
    spec fn holdings(&self) -> Set<u64>;

    /// How many records it can take to follow a change to value `v`.
    spec fn needs(&self, v: Option<Model<VF>>) -> nat;

    /// Entries `m` can be changed so.
    spec fn admits(
        &self,
        m: Map<Model<KF>, Model<VF>>,
        k: Model<KF>,
        v: Option<Model<VF>>,
    ) -> bool;

    /// A change that is not admitted is answered with this error.
    spec fn refusal(
        &self,
        m: Map<Model<KF>, Model<VF>>,
        k: Model<KF>,
        v: Option<Model<VF>>,
        e: DbError,
    ) -> bool;

    /// What a change that is not admitted leaves of a binding.
    spec fn refused(
        &self,
        before: &Self,
        records: Records,
        m: Map<Model<KF>, Model<VF>>,
        k: Model<KF>,
        v: Option<Model<VF>>,
    ) -> bool;

    /// What following a change made of a binding.
    spec fn stepped(
        &self,
        before: &Self,
        k: Model<KF>,
        was: Option<Model<VF>>,
        new: Option<Model<VF>>,
    ) -> bool;

    /// There is space for what that many changes add to the binding.
    spec fn spare(&self, n: nat) -> bool;

    proof fn spare_less(&self, n: nat, k: nat)
        requires
            self.spare(n),
            k <= n,
        ensures
            self.spare(k),
    ;

    /// Any key can go, and that takes no record.
    spec fn light(&self) -> bool;

    proof fn lets_go(&self, m: Map<Model<KF>, Model<VF>>, k: Model<KF>)
        requires
            self.light(),
        ensures
            self.admits(m, k, None),
            self.needs(None) == 0,
    ;

    /// Every record of the binding is there.
    proof fn held(&self, records: Records, m: Map<Model<KF>, Model<VF>>)
        requires
            self.in_step(records, m),
        ensures
            forall|r: u64| #[trigger] self.holdings().contains(r) ==> records.contains_key(r),
    ;

    /// What happens to other records leaves the binding as it is.
    proof fn untouched(&self, a: Records, b: Records, m: Map<Model<KF>, Model<VF>>)
        requires
            self.in_step(a, m),
            forall|r: u64| #[trigger] self.holdings().contains(r) ==> b.contains_key(r)
                && b[r] == a[r],
        ensures
            self.in_step(b, m),
    ;

    /// The same of a binding that refused a change: its records are there, and what
    /// happens to others leaves it as it is.
    proof fn refused_untouched(
        &self,
        before: &Self,
        a: Records,
        b: Records,
        m: Map<Model<KF>, Model<VF>>,
        k: Model<KF>,
        v: Option<Model<VF>>,
    )
        requires
            self.refused(before, a, m, k, v),
        ensures
            forall|r: u64| #[trigger] self.holdings().contains(r) ==> a.contains_key(r),
            (forall|r: u64| #[trigger] self.holdings().contains(r) ==> b.contains_key(r)
                && b[r] == a[r]) ==> self.refused(before, b, m, k, v),
    ;

    /// Follows a change of the map at a key.
    fn follow<S: Store>(
        &mut self,
        store: &mut S,
        keys: &KF,
        values: &VF,
        key: &KF::Item,
        was: Option<&VF::Item>,
        new: Option<&VF::Item>,
    ) -> (r: Result<()>)
        ensures
            r is Ok && old(self).light() ==> final(self).light(),
            r is Ok ==> forall|n: nat| #[trigger]
                old(self).spare(n) && n > 0 ==> final(self).spare((n - 1) as nat),
            old(self).spare(1) ==> forall|m: Map<Model<KF>, Model<VF>>| #[trigger]
                old(self).in_step(old(store).state().records, m) && followable::<KF, VF>(
                    m,
                    key@,
                    opt_ref_model(was),
                ) ==> {
                    let a = old(store).state();
                    let b = final(store).state();
                    let v = opt_ref_model(new);
                    &&& keeps_state(a, b)
                    &&& spares(a.records, b.records, old(self).holdings())
                    &&& r is Ok ==> {
                        &&& frames(a, b, old(self).holdings(), final(self).holdings())
                        &&& b.room + old(self).needs(v) >= a.room
                        &&& final(self).in_step(b.records, changed(m, key@, v))
                        &&& final(self).stepped(old(self), key@, lookup(m, key@), v)
                    }
                    &&& serves(a, old(self).needs(v)) ==> {
                        &&& frames(a, b, old(self).holdings(), final(self).holdings())
                        &&& b.room + old(self).needs(v) >= a.room
                        &&& (r is Ok) == old(self).admits(m, key@, v)
                        &&& r matches Err(e) ==> old(self).refusal(m, key@, v, e) && final(self).refused(
                            old(self),
                            b.records,
                            m,
                            key@,
                            v,
                        )
                    }
                },
    ;
}

/// The entries hold `was` under the key and one more can be counted.
pub open spec fn followable<KF: KeyFormat, VF: Serializer>(
    m: Map<Model<KF>, Model<VF>>,
    k: Model<KF>,
    was: Option<Model<VF>>,
) -> bool {
    m.dom().finite() && m.len() < i64::MAX && lookup(m, k) == was
}

/// Binding `x` became `y` in following a change of the entries `m`, and the records of others
/// are as they were: where that is
/// answered with success it is in step with the changed entries, and where the store
/// serves it that is so exactly for a change that it admits, and any other is refused.
pub open spec fn follows<KF: KeyFormat, VF: Serializer, B: Binding<KF, VF>>(
    x: &B,
    y: &B,
    a: StoreState,
    b: StoreState,
    m: Map<Model<KF>, Model<VF>>,
    k: Model<KF>,
    v: Option<Model<VF>>,
    r: Result<()>,
) -> bool {
    &&& keeps_state(a, b)
    &&& spares(a.records, b.records, x.holdings())
    &&& r is Ok ==> {
        &&& frames(a, b, x.holdings(), y.holdings())
        &&& b.room + x.needs(v) >= a.room
        &&& y.in_step(b.records, changed(m, k, v))
        &&& y.stepped(x, k, lookup(m, k), v)
    }
    &&& serves(a, x.needs(v)) ==> {
        &&& frames(a, b, x.holdings(), y.holdings())
        &&& b.room + x.needs(v) >= a.room
        &&& (r is Ok) == x.admits(m, k, v)
        &&& r matches Err(e) ==> x.refusal(m, k, v, e) && y.refused(x, b.records, m, k, v)
    }
}

/// What a change of the entries `m` made of binding `x`, whether it admits the change or
/// not.
pub open spec fn told<KF: KeyFormat, VF: Serializer, B: Binding<KF, VF>>(
    x: &B,
    y: &B,
    records: Records,
    m: Map<Model<KF>, Model<VF>>,
    k: Model<KF>,
    v: Option<Model<VF>>,
) -> bool {
    if x.admits(m, k, v) {
        y.in_step(records, changed(m, k, v)) && y.stepped(x, k, lookup(m, k), v)
    } else {
        y.refused(x, records, m, k, v)
    }
}

/// What happens to the records of others leaves a binding that was told of a change as it
/// is and apart from them.
proof fn lemma_told_apart<KF: KeyFormat, VF: Serializer, B: Binding<KF, VF>>(
    x: &B,
    y: &B,
    a: StoreState,
    b: StoreState,
    owned: Set<u64>,
    owned2: Set<u64>,
    m: Map<Model<KF>, Model<VF>>,
    k: Model<KF>,
    v: Option<Model<VF>>,
)
    requires
        told::<KF, VF, B>(x, y, a.records, m, k, v),
        frames(a, b, owned, owned2),
        y.holdings().disjoint(owned),
    ensures
        told::<KF, VF, B>(x, y, b.records, m, k, v),
        y.holdings().disjoint(owned2),
{
    if x.admits(m, k, v) {
        lemma_apart(y, a, b, owned, owned2, changed(m, k, v));
    } else {
        y.refused_untouched(x, a.records, b.records, m, k, v);
        assert forall|r: u64| #[trigger] y.holdings().contains(r) implies b.records.contains_key(
            r,
        ) && b.records[r] == a.records[r] && !owned2.contains(r) by {
            assert(!owned.contains(r));
            assert(a.records.contains_key(r));
            assert(b.records.contains_key(r));
        }
    }
}

/// What happens to the records of others leaves a binding in step and apart from them.
proof fn lemma_apart<KF: KeyFormat, VF: Serializer, B: Binding<KF, VF>>(
    y: &B,
    a: StoreState,
    b: StoreState,
    owned: Set<u64>,
    owned2: Set<u64>,
    m: Map<Model<KF>, Model<VF>>,
)
    requires
        y.in_step(a.records, m),
        frames(a, b, owned, owned2),
        y.holdings().disjoint(owned),
    ensures
        y.in_step(b.records, m),
        y.holdings().disjoint(owned2),
{
    y.held(a.records, m);
    assert forall|r: u64| #[trigger] y.holdings().contains(r) implies b.records.contains_key(r)
        && b.records[r] == a.records[r] && !owned2.contains(r) by {
        assert(!owned.contains(r));
        assert(a.records.contains_key(r));
        assert(b.records.contains_key(r));
    }
    y.untouched(a.records, b.records, m);
}

/// What spares the records of a binding leaves it in step.
proof fn lemma_spared<KF: KeyFormat, VF: Serializer, B: Binding<KF, VF>>(
    y: &B,
    a: Records,
    b: Records,
    owned: Set<u64>,
    m: Map<Model<KF>, Model<VF>>,
)
    requires
        y.in_step(a, m),
        spares(a, b, owned),
        y.holdings().disjoint(owned),
    ensures
        y.in_step(b, m),
{
    y.held(a, m);
    assert forall|r: u64| #[trigger] y.holdings().contains(r) implies b.contains_key(r) && b[r]
        == a[r] by {
        assert(!owned.contains(r));
        assert(a.contains_key(r));
    }
    y.untouched(a, b, m);
}

/// Two changes leave alone what each of them does.
proof fn lemma_frames_both(
    a: StoreState,
    b: StoreState,
    c: StoreState,
    x: Set<u64>,
    x2: Set<u64>,
    y: Set<u64>,
    y2: Set<u64>,
)
    requires
        frames(a, b, x, x2),
        frames(b, c, y, y2),
    ensures
        frames(a, c, x.union(y), x2.union(y2)),
{
    let o = x.union(y);
    let o2 = x2.union(y2);
    assert forall|r: u64|
        #![trigger c.records.contains_key(r)]
        #![trigger o2.contains(r)]
        a.records.contains_key(r) && !o.contains(r) implies c.records.contains_key(r)
        && c.records[r] == a.records[r] && !o2.contains(r) by {
        assert(b.records.contains_key(r) && !x2.contains(r));
        assert(c.records.contains_key(r) && !y2.contains(r));
    }
}

/// Nothing follows the map.
#[derive(Debug, Clone, Copy)]
pub struct Free;

impl<KF: KeyFormat, VF: Serializer> Binding<KF, VF> for Free {
    open spec fn in_step(&self, records: Records, m: Map<Model<KF>, Model<VF>>) -> bool {
        true
    }

    open spec fn holdings(&self) -> Set<u64> {
        Set::empty()
    }

    open spec fn needs(&self, v: Option<Model<VF>>) -> nat {
        0
    }

    open spec fn admits(
        &self,
        m: Map<Model<KF>, Model<VF>>,
        k: Model<KF>,
        v: Option<Model<VF>>,
    ) -> bool {
        true
    }

    open spec fn refusal(
        &self,
        m: Map<Model<KF>, Model<VF>>,
        k: Model<KF>,
        v: Option<Model<VF>>,
        e: DbError,
    ) -> bool {
        false
    }

    open spec fn refused(
        &self,
        before: &Self,
        records: Records,
        m: Map<Model<KF>, Model<VF>>,
        k: Model<KF>,
        v: Option<Model<VF>>,
    ) -> bool {
        false
    }

    open spec fn stepped(
        &self,
        before: &Self,
        k: Model<KF>,
        was: Option<Model<VF>>,
        new: Option<Model<VF>>,
    ) -> bool {
        true
    }

    open spec fn spare(&self, n: nat) -> bool {
        true
    }

    proof fn spare_less(&self, n: nat, k: nat) {
    }

    open spec fn light(&self) -> bool {
        true
    }

    proof fn lets_go(&self, m: Map<Model<KF>, Model<VF>>, k: Model<KF>) {
    }

    proof fn held(&self, records: Records, m: Map<Model<KF>, Model<VF>>) {
    }

    proof fn untouched(&self, a: Records, b: Records, m: Map<Model<KF>, Model<VF>>) {
    }

    proof fn refused_untouched(
        &self,
        before: &Self,
        a: Records,
        b: Records,
        m: Map<Model<KF>, Model<VF>>,
        k: Model<KF>,
        v: Option<Model<VF>>,
    ) {
    }

    fn follow<S: Store>(
        &mut self,
        store: &mut S,
        keys: &KF,
        values: &VF,
        key: &KF::Item,
        was: Option<&VF::Item>,
        new: Option<&VF::Item>,
    ) -> Result<()> {
        Ok(())
    }
}

/// Two bindings that follow one map, each with records of its own.
pub struct Both<A, B> {
    pub first: A,
    pub second: B,
}

impl<KF: KeyFormat, VF: Serializer, A: Binding<KF, VF>, B: Binding<KF, VF>> Binding<
    KF,
    VF,
> for Both<A, B> {
    open spec fn in_step(&self, records: Records, m: Map<Model<KF>, Model<VF>>) -> bool {
        &&& self.first.in_step(records, m)
        &&& self.second.in_step(records, m)
        &&& self.first.holdings().disjoint(self.second.holdings())
    }

    open spec fn holdings(&self) -> Set<u64> {
        self.first.holdings().union(self.second.holdings())
    }

    open spec fn needs(&self, v: Option<Model<VF>>) -> nat {
        self.first.needs(v) + self.second.needs(v)
    }

    open spec fn admits(
        &self,
        m: Map<Model<KF>, Model<VF>>,
        k: Model<KF>,
        v: Option<Model<VF>>,
    ) -> bool {
        self.first.admits(m, k, v) && self.second.admits(m, k, v)
    }

    /// The answer is that of the first that refuses.
    open spec fn refusal(
        &self,
        m: Map<Model<KF>, Model<VF>>,
        k: Model<KF>,
        v: Option<Model<VF>>,
        e: DbError,
    ) -> bool {
        if self.first.admits(m, k, v) {
            self.second.refusal(m, k, v, e)
        } else {
            self.first.refusal(m, k, v, e)
        }
    }

    /// One that admits the change followed it, also where the other refused.
    open spec fn refused(
        &self,
        before: &Self,
        records: Records,
        m: Map<Model<KF>, Model<VF>>,
        k: Model<KF>,
        v: Option<Model<VF>>,
    ) -> bool {
        &&& told::<KF, VF, A>(&before.first, &self.first, records, m, k, v)
        &&& told::<KF, VF, B>(&before.second, &self.second, records, m, k, v)
        &&& self.first.holdings().disjoint(self.second.holdings())
    }

    open spec fn stepped(
        &self,
        before: &Self,
        k: Model<KF>,
        was: Option<Model<VF>>,
        new: Option<Model<VF>>,
    ) -> bool {
        self.first.stepped(&before.first, k, was, new) && self.second.stepped(
            &before.second,
            k,
            was,
            new,
        )
    }

    open spec fn spare(&self, n: nat) -> bool {
        self.first.spare(n) && self.second.spare(n)
    }

    proof fn spare_less(&self, n: nat, k: nat) {
        self.first.spare_less(n, k);
        self.second.spare_less(n, k);
    }

    open spec fn light(&self) -> bool {
        self.first.light() && self.second.light()
    }

    proof fn lets_go(&self, m: Map<Model<KF>, Model<VF>>, k: Model<KF>) {
        self.first.lets_go(m, k);
        self.second.lets_go(m, k);
    }

    proof fn held(&self, records: Records, m: Map<Model<KF>, Model<VF>>) {
        self.first.held(records, m);
        self.second.held(records, m);
    }

    proof fn untouched(&self, a: Records, b: Records, m: Map<Model<KF>, Model<VF>>) {
        let all = self.holdings();
        assert forall|r: u64| #[trigger] self.first.holdings().contains(r) implies b.contains_key(r)
            && b[r] == a[r] by {
            assert(all.contains(r));
        }
        assert forall|r: u64| #[trigger] self.second.holdings().contains(r)
            implies b.contains_key(r) && b[r] == a[r] by {
            assert(all.contains(r));
        }
        self.first.untouched(a, b, m);
        self.second.untouched(a, b, m);
    }

    proof fn refused_untouched(
        &self,
        before: &Self,
        a: Records,
        b: Records,
        m: Map<Model<KF>, Model<VF>>,
        k: Model<KF>,
        v: Option<Model<VF>>,
    ) {
        let all = self.holdings();
        let m2 = changed(m, k, v);
        if before.first.admits(m, k, v) {
            self.first.held(a, m2);
        } else {
            self.first.refused_untouched(&before.first, a, b, m, k, v);
        }
        if before.second.admits(m, k, v) {
            self.second.held(a, m2);
        } else {
            self.second.refused_untouched(&before.second, a, b, m, k, v);
        }
        if forall|r: u64| #[trigger] all.contains(r) ==> b.contains_key(r) && b[r] == a[r] {
            assert forall|r: u64| #[trigger] self.first.holdings().contains(r)
                implies b.contains_key(r) && b[r] == a[r] by {
                assert(all.contains(r));
            }
            assert forall|r: u64| #[trigger] self.second.holdings().contains(r)
                implies b.contains_key(r) && b[r] == a[r] by {
                assert(all.contains(r));
            }
            if before.first.admits(m, k, v) {
                self.first.untouched(a, b, m2);
            }
            if before.second.admits(m, k, v) {
                self.second.untouched(a, b, m2);
            }
        }
    }

    /// Both are told, also where the first fails; the answer is the first failure.
    fn follow<S: Store>(
        &mut self,
        store: &mut S,
        keys: &KF,
        values: &VF,
        key: &KF::Item,
        was: Option<&VF::Item>,
        new: Option<&VF::Item>,
    ) -> Result<()> {
        let ghost a = store.state();
        let one = self.first.follow(store, keys, values, key, was, new);
        let ghost mid = store.state();
        let two = self.second.follow(store, keys, values, key, was, new);
        let r = match one {
            Ok(_) => two,
            Err(e) => Err(e),
        };
        proof {
            let b = store.state();
            let k = key@;
            let v = opt_ref_model(new);
            assert forall|m: Map<Model<KF>, Model<VF>>| #[trigger]
                old(self).in_step(a.records, m) && followable::<KF, VF>(m, k, opt_ref_model(was))
                    && old(self).spare(1) implies {
                &&& keeps_state(a, b)
                &&& spares(a.records, b.records, old(self).holdings())
                &&& r is Ok ==> {
                    &&& frames(a, b, old(self).holdings(), self.holdings())
                    &&& b.room + old(self).needs(v) >= a.room
                    &&& self.in_step(b.records, changed(m, k, v))
                    &&& self.stepped(old(self), k, lookup(m, k), v)
                }
                &&& serves(a, old(self).needs(v)) ==> {
                    &&& frames(a, b, old(self).holdings(), self.holdings())
                    &&& b.room + old(self).needs(v) >= a.room
                    &&& (r is Ok) == old(self).admits(m, k, v)
                    &&& r matches Err(e) ==> old(self).refusal(m, k, v, e) && self.refused(
                        old(self),
                        b.records,
                        m,
                        k,
                        v,
                    )
                }
            } by {
                lemma_follow_both(
                    &old(self).first,
                    &self.first,
                    &old(self).second,
                    &self.second,
                    a,
                    mid,
                    b,
                    m,
                    k,
                    v,
                    one,
                    two,
                );
            }
        }
        r
    }
}

/// Two bindings followed a change one after the other.
proof fn lemma_follow_both<
    KF: KeyFormat,
    VF: Serializer,
    A: Binding<KF, VF>,
    B: Binding<KF, VF>,
>(
    x: &A,
    x2: &A,
    y: &B,
    y2: &B,
    a: StoreState,
    mid: StoreState,
    b: StoreState,
    m: Map<Model<KF>, Model<VF>>,
    k: Model<KF>,
    v: Option<Model<VF>>,
    one: Result<()>,
    two: Result<()>,
)
    requires
        x.in_step(a.records, m),
        y.in_step(a.records, m),
        x.holdings().disjoint(y.holdings()),
        follows::<KF, VF, A>(x, x2, a, mid, m, k, v, one),
        y.in_step(mid.records, m) ==> follows::<KF, VF, B>(y, y2, mid, b, m, k, v, two),
    ensures
        ({
            let h = x.holdings().union(y.holdings());
            let h2 = x2.holdings().union(y2.holdings());
            let n = x.needs(v) + y.needs(v);
            &&& keeps_state(a, b)
            &&& spares(a.records, b.records, h)
            &&& one is Ok && two is Ok ==> {
                &&& frames(a, b, h, h2)
                &&& b.room + n >= a.room
                &&& x2.in_step(b.records, changed(m, k, v))
                &&& y2.in_step(b.records, changed(m, k, v))
                &&& x2.holdings().disjoint(y2.holdings())
                &&& x2.stepped(x, k, lookup(m, k), v)
                &&& y2.stepped(y, k, lookup(m, k), v)
            }
            &&& serves(a, n) ==> {
                &&& frames(a, b, h, h2)
                &&& b.room + n >= a.room
                &&& (one is Ok) == x.admits(m, k, v)
                &&& (two is Ok) == y.admits(m, k, v)
                &&& one matches Err(e) ==> x.refusal(m, k, v, e)
                &&& two matches Err(e) ==> y.refusal(m, k, v, e)
                &&& told::<KF, VF, A>(x, x2, b.records, m, k, v)
                &&& told::<KF, VF, B>(y, y2, b.records, m, k, v)
                &&& x2.holdings().disjoint(y2.holdings())
            }
        }),
{
    let h = x.holdings().union(y.holdings());
    lemma_spared(y, a.records, mid.records, x.holdings(), m);
    assert forall|r: u64| #[trigger] a.records.contains_key(r) && !h.contains(r)
        implies b.records.contains_key(r) && b.records[r] == a.records[r] by {
        assert(!x.holdings().contains(r) && !y.holdings().contains(r));
        assert(mid.records.contains_key(r));
    }
    if one is Ok || serves(a, x.needs(v) + y.needs(v)) {
        lemma_apart(y, a, mid, x.holdings(), x2.holdings(), m);
        if two is Ok || serves(mid, y.needs(v)) {
            lemma_frames_both(
                a,
                mid,
                b,
                x.holdings(),
                x2.holdings(),
                y.holdings(),
                y2.holdings(),
            );
            if one is Ok {
                lemma_apart(x2, mid, b, y.holdings(), y2.holdings(), changed(m, k, v));
            } else {
                lemma_told_apart(x, x2, mid, b, y.holdings(), y2.holdings(), m, k, v);
            }
        }
    }
}

/// A sorted map with its bindings: those that cannot wait are told of a change first,
/// and where none of them fails the others.
pub struct BoundMap<KF: KeyFormat, VF: Serializer, Y, L> {
    map: BTreeMap<KF, VF>,
    sync: Y,
    deferred: L,
}

/// A map to which something was not bound, and why.
pub struct Refused<P, M> {
    pub error: DbError,
    pub map: P,
    pub secondary: M,
}

impl<KF: KeyFormat, VF: Serializer, Y, L> BoundMap<KF, VF, Y, L> {
    /// The map.
    pub closed spec fn backing(&self) -> BTreeMap<KF, VF> {
        self.map
    }

    /// The bindings that cannot wait.
    pub closed spec fn early(&self) -> Y {
        self.sync
    }

    /// The bindings that can wait.
    pub closed spec fn late(&self) -> L {
        self.deferred
    }

    pub fn map(&self) -> (r: &BTreeMap<KF, VF>)
        ensures
            *r == self.backing(),
    {
        &self.map
    }

    /// The bindings that cannot wait.
    pub fn sync(&self) -> (r: &Y)
        ensures
            *r == self.early(),
    {
        &self.sync
    }

    /// The bindings that can wait.
    pub fn deferred(&self) -> (r: &L)
        ensures
            *r == self.late(),
    {
        &self.deferred
    }

    /// The map and its bindings.
    pub fn into_parts(self) -> (r: (BTreeMap<KF, VF>, Y, L))
        ensures
            r == (self.backing(), self.early(), self.late()),
    {
        (self.map, self.sync, self.deferred)
    }

    /// A map with bindings.
    pub(crate) fn from_parts(map: BTreeMap<KF, VF>, sync: Y, deferred: L) -> (r: Self)
        ensures
            r.backing() == map,
            r.early() == sync,
            r.late() == deferred,
    {
        BoundMap { map, sync, deferred }
    }
}

impl<
    KF: KeyFormat,
    VF: Serializer,
    Y: Binding<KF, VF>,
    B: Binding<KF, VF>,
    L: Binding<KF, VF>,
> BoundMap<KF, VF, Both<Y, B>, L> {
    /// The map `p` with one more binding that cannot wait.
    pub open spec fn joins_early(&self, p: &BoundMap<KF, VF, Y, L>) -> bool {
        &&& self.backing() == p.backing()
        &&& self.early().first == p.early()
        &&& self.late() == p.late()
    }

    /// A binding that is in step and has records of its own can join.
    pub(crate) proof fn lemma_joined_early(&self, p: &BoundMap<KF, VF, Y, L>, records: Records)
        requires
            self.joins_early(p),
            p.in_step(records),
            self.early().second.in_step(records, p.contents(records)),
            self.early().second.holdings().disjoint(p.holdings()),
        ensures
            self.in_step(records),
    {
        let h = self.early().second.holdings();
        assert forall|r: u64| h.contains(r) implies !p.early().holdings().contains(r)
            && !p.late().holdings().contains(r) && !p.backing().owned().contains(r) by {
            assert(!p.holdings().contains(r));
            assert(!p.followers().contains(r));
        }
        assert forall|r: u64| self.followers().contains(r) implies !self.backing().owned().contains(
            r,
        ) by {
            if !h.contains(r) {
                assert(p.followers().contains(r));
            }
        }
    }
}

impl<
    KF: KeyFormat,
    VF: Serializer,
    Y: Binding<KF, VF>,
    L: Binding<KF, VF>,
    B: Binding<KF, VF>,
> BoundMap<KF, VF, Y, Both<L, B>> {
    /// The map `p` with one more binding that can wait.
    pub open spec fn joins_late(&self, p: &BoundMap<KF, VF, Y, L>) -> bool {
        &&& self.backing() == p.backing()
        &&& self.early() == p.early()
        &&& self.late().first == p.late()
    }

    /// A binding that is in step and has records of its own can join.
    pub(crate) proof fn lemma_joined_late(&self, p: &BoundMap<KF, VF, Y, L>, records: Records)
        requires
            self.joins_late(p),
            p.in_step(records),
            self.late().second.in_step(records, p.contents(records)),
            self.late().second.holdings().disjoint(p.holdings()),
        ensures
            self.in_step(records),
    {
        let h = self.late().second.holdings();
        assert forall|r: u64| h.contains(r) implies !p.early().holdings().contains(r)
            && !p.late().holdings().contains(r) && !p.backing().owned().contains(r) by {
            assert(!p.holdings().contains(r));
            assert(!p.followers().contains(r));
        }
        assert forall|r: u64| self.followers().contains(r) implies !self.backing().owned().contains(
            r,
        ) by {
            if !h.contains(r) {
                assert(p.followers().contains(r));
            }
        }
    }
}

impl<KF: KeyFormat, VF: Serializer> BoundMap<KF, VF, Free, Free> {
    /// A map that nothing follows yet.
    pub fn new(map: BTreeMap<KF, VF>) -> (r: Self)
        ensures
            r.backing() == map,
            forall|records: Records| #[trigger] map.wf(records) ==> r.in_step(records),
    {
        BoundMap { map, sync: Free, deferred: Free }
    }
}

impl<
    KF: KeyFormat,
    VF: Serializer,
    Y: Binding<KF, VF>,
    L: Binding<KF, VF>,
> BoundMap<KF, VF, Y, L> {
    /// The entries.
    pub open spec fn contents(&self, records: Records) -> Map<Model<KF>, Model<VF>> {
        self.backing().contents(records)
    }

    /// The bindings keep what the entries tell, and each has records of its own.
    pub open spec fn in_step(&self, records: Records) -> bool {
        let m = self.contents(records);
        &&& self.backing().wf(records)
        &&& self.early().in_step(records, m)
        &&& self.late().in_step(records, m)
        &&& self.early().holdings().disjoint(self.late().holdings())
        &&& self.followers().disjoint(self.backing().owned())
    }

    /// The records of the bindings.
    pub open spec fn followers(&self) -> Set<u64> {
        self.early().holdings().union(self.late().holdings())
    }

    /// The records of the map and its bindings.
    pub open spec fn holdings(&self) -> Set<u64> {
        self.backing().owned().union(self.followers())
    }

    /// How many records it can take to follow a change to value `v`.
    pub open spec fn needs(&self, v: Option<Model<VF>>) -> nat {
        self.early().needs(v) + self.late().needs(v)
    }

    /// There is space for what that many changes add to the bindings.
    pub open spec fn spare(&self, n: nat) -> bool {
        self.early().spare(n) && self.late().spare(n)
    }

    /// Any key can go, and following that takes no record.
    pub open spec fn light(&self) -> bool {
        self.early().light() && self.late().light()
    }

    /// Every binding admits the change.
    pub open spec fn admits(
        &self,
        m: Map<Model<KF>, Model<VF>>,
        k: Model<KF>,
        v: Option<Model<VF>>,
    ) -> bool {
        self.early().admits(m, k, v) && self.late().admits(m, k, v)
    }

    /// What a change that is not admitted leaves of the bindings: where one that cannot
    /// wait refused it, those that can were not told.
    pub open spec fn refused(
        &self,
        before: &Self,
        records: Records,
        m: Map<Model<KF>, Model<VF>>,
        k: Model<KF>,
        v: Option<Model<VF>>,
        e: DbError,
    ) -> bool {
        &&& told::<KF, VF, Y>(&before.early(), &self.early(), records, m, k, v)
        &&& if before.early().admits(m, k, v) {
            &&& before.late().refusal(m, k, v, e)
            &&& self.late().refused(&before.late(), records, m, k, v)
        } else {
            &&& before.early().refusal(m, k, v, e)
            &&& self.late() == before.late()
            &&& self.late().in_step(records, m)
        }
        &&& self.early().holdings().disjoint(self.late().holdings())
    }

    /// The map was given other entries `m`, and no records but its own and those of its
    /// bindings changed.
    pub open spec fn moved(
        &self,
        before: &Self,
        a: StoreState,
        b: StoreState,
        m: Map<Model<KF>, Model<VF>>,
    ) -> bool {
        &&& self.backing().same_config(&before.backing())
        &&& self.backing().wf(b.records)
        &&& self.contents(b.records) == m
        &&& frames(a, b, before.holdings(), self.holdings())
    }

    /// What a change that failed leaves: other records are as they were. Either the map
    /// failed and its bindings were not told, or it has changed.
    pub open spec fn broke_off(
        &self,
        before: &Self,
        a: StoreState,
        b: StoreState,
        k: Model<KF>,
        v: Option<Model<VF>>,
        spent: nat,
    ) -> bool {
        let failed = self.backing().left_alone(&before.backing(), a, b, spent) || (v is None
            && self.backing().taken_or_left(&before.backing(), a, b, k));
        &&& keeps_state(a, b)
        &&& spares(a.records, b.records, before.holdings())
        &&& failed && self.early() == before.early() && self.late() == before.late() || (
        self.backing().wf(b.records) && self.contents(b.records) == changed(
            before.contents(a.records),
            k,
            v,
        ))
    }

    /// The map failed, and its bindings were not told.
    proof fn lemma_map_failed(
        before: &Self,
        after: &Self,
        a: StoreState,
        b: StoreState,
        k: Model<KF>,
        v: Option<Model<VF>>,
        spent: nat,
    )
        requires
            after.early() == before.early(),
            after.late() == before.late(),
            after.backing().left_alone(&before.backing(), a, b, spent) || v is None
                && after.backing().taken_or_left(&before.backing(), a, b, k),
        ensures
            after.broke_off(before, a, b, k, v, spent),
    {
        after.backing().lemma_spared(&before.backing(), a, b, k, spent);
    }

    /// A change at key `k` was answered with `r`. Where that is success, the bindings
    /// are in step with the changed entries. Where the store serves it and has room for
    /// `spent` records of the map besides those of the bindings, the entries are changed
    /// in any case, and it is success exactly where every binding admits the change; any
    /// other is refused.
    pub open spec fn turned<T>(
        &self,
        before: &Self,
        a: StoreState,
        b: StoreState,
        k: Model<KF>,
        v: Option<Model<VF>>,
        spent: nat,
        r: Result<T>,
    ) -> bool {
        let m = before.contents(a.records);
        &&& r is Ok ==> {
            &&& self.moved(before, a, b, changed(m, k, v))
            &&& self.in_step(b.records)
            &&& self.early().stepped(&before.early(), k, lookup(m, k), v)
            &&& self.late().stepped(&before.late(), k, lookup(m, k), v)
            &&& before.light() ==> self.light()
            &&& forall|n: nat| #[trigger]
                before.spare(n) && n > 0 ==> self.spare((n - 1) as nat)
        }
        &&& serves(a, spent + before.needs(v)) ==> {
            &&& self.moved(before, a, b, changed(m, k, v))
            &&& (r is Ok) == before.admits(m, k, v)
            &&& r matches Err(e) ==> {
                &&& self.refused(before, b.records, m, k, v, e)
                &&& self.followers().disjoint(self.backing().owned())
            }
        }
        &&& r is Err ==> self.broke_off(before, a, b, k, v, spent)
    }

    /// Nothing was to be changed, and `r` says so where the store serves it.
    pub open spec fn stayed<T>(
        &self,
        before: &Self,
        a: StoreState,
        b: StoreState,
        spent: nat,
        r: Result<T>,
    ) -> bool {
        &&& r is Ok ==> {
            &&& self.moved(before, a, b, before.contents(a.records))
            &&& self.in_step(b.records)
            &&& self.early() == before.early()
            &&& self.late() == before.late()
        }
        &&& r is Err ==> keeps_state(a, b) && spares(a.records, b.records, before.holdings())
        &&& serves(a, spent) ==> r is Ok
    }

    /// A change of other records leaves the map and its bindings in step and apart.
    pub(crate) proof fn lemma_others(
        &self,
        a: StoreState,
        b: StoreState,
        x: Set<u64>,
        x2: Set<u64>,
    )
        requires
            self.in_step(a.records),
            frames(a, b, x, x2),
            x.disjoint(self.holdings()),
        ensures
            self.in_step(b.records),
            self.contents(b.records) == self.contents(a.records),
            x2.disjoint(self.holdings()),
    {
        let m = self.contents(a.records);
        let all = self.holdings();
        let map = self.backing();
        map.lemma_owned_records(a.records);
        self.early().held(a.records, m);
        self.late().held(a.records, m);
        assert forall|r: u64| #[trigger] all.contains(r) implies !x.contains(r)
            && b.records.contains_key(r) && b.records[r] == a.records[r] && !x2.contains(r) by {
            if map.owned().contains(r) {
            } else if self.early().holdings().contains(r) {
            } else {
                assert(self.late().holdings().contains(r));
            }
            assert(a.records.contains_key(r));
            assert(b.records.contains_key(r));
        }
        assert forall|r: u64| #[trigger] map.owned().contains(r) implies b.records.contains_key(r)
            && b.records[r] == a.records[r] by {
            assert(all.contains(r));
        }
        map.law_untouched(a.records, b.records);
        assert forall|r: u64| self.early().holdings().contains(r) implies !x.contains(r) by {
            assert(self.followers().contains(r));
            assert(all.contains(r));
        }
        assert forall|r: u64| self.late().holdings().contains(r) implies !x.contains(r) by {
            assert(self.followers().contains(r));
            assert(all.contains(r));
        }
        lemma_apart(&self.early(), a, b, x, x2, m);
        lemma_apart(&self.late(), a, b, x, x2, m);
    }

    /// Tells the bindings of a change.
    fn tell<S: Store>(
        &mut self,
        store: &mut S,
        key: &KF::Item,
        was: Option<&VF::Item>,
        new: Option<&VF::Item>,
    ) -> (r: Result<()>)
        ensures
            final(self).backing() == old(self).backing(),
            forall|m: Map<Model<KF>, Model<VF>>|
                #![trigger old(self).early().in_step(old(store).state().records, m)]
                old(self).early().in_step(old(store).state().records, m)
                    && old(self).late().in_step(old(store).state().records, m)
                    && old(self).early().holdings().disjoint(old(self).late().holdings())
                    && old(self).spare(1) && followable::<KF, VF>(m, key@, opt_ref_model(was))
                    ==> final(self).heard(
                    old(self),
                    old(store).state(),
                    final(store).state(),
                    m,
                    key@,
                    opt_ref_model(new),
                    r,
                ),
    {
        let ghost a = store.state();
        let ghost k = key@;
        let ghost v = opt_ref_model(new);
        let one = self.sync.follow(
            store,
            self.map.key_serializer(),
            self.map.value_serializer(),
            key,
            was,
            new,
        );
        let ghost mid = store.state();
        match one {
            Ok(_) => {
                let two = self.deferred.follow(
                    store,
                    self.map.key_serializer(),
                    self.map.value_serializer(),
                    key,
                    was,
                    new,
                );
                proof {
                    let b = store.state();
                    assert forall|m: Map<Model<KF>, Model<VF>>|
                        #![trigger old(self).early().in_step(a.records, m)]
                        old(self).early().in_step(a.records, m) && old(self).late().in_step(
                            a.records,
                            m,
                        ) && old(self).early().holdings().disjoint(old(self).late().holdings())
                            && old(self).spare(1) && followable::<KF, VF>(
                            m,
                            k,
                            opt_ref_model(was),
                        ) implies self.heard(
                        old(self),
                        a,
                        b,
                        m,
                        k,
                        v,
                        two,
                    ) by {
                        lemma_follow_both(
                            &old(self).sync,
                            &self.sync,
                            &old(self).deferred,
                            &self.deferred,
                            a,
                            mid,
                            b,
                            m,
                            k,
                            v,
                            one,
                            two,
                        );
                    }
                }
                two
            },
            Err(e) => {
                proof {
                    assert forall|m: Map<Model<KF>, Model<VF>>|
                        #![trigger old(self).early().in_step(a.records, m)]
                        old(self).early().in_step(a.records, m) && old(self).late().in_step(
                            a.records,
                            m,
                        ) && old(self).early().holdings().disjoint(old(self).late().holdings())
                            && old(self).spare(1) && followable::<KF, VF>(
                            m,
                            k,
                            opt_ref_model(was),
                        ) implies self.heard(
                        old(self),
                        a,
                        mid,
                        m,
                        k,
                        v,
                        one,
                    ) by {
                        if serves(a, old(self).needs(v)) {
                            lemma_apart(
                                &self.deferred,
                                a,
                                mid,
                                old(self).sync.holdings(),
                                self.sync.holdings(),
                                m,
                            );
                            self.deferred.held(a.records, m);
                            assert(frames(a, mid, old(self).followers(), self.followers()));
                        }
                    }
                }
                Err(e)
            },
        }
    }

    /// The bindings were told of a change of the entries `m`.
    spec fn heard(
        &self,
        before: &Self,
        a: StoreState,
        b: StoreState,
        m: Map<Model<KF>, Model<VF>>,
        k: Model<KF>,
        v: Option<Model<VF>>,
        r: Result<()>,
    ) -> bool {
        &&& keeps_state(a, b)
        &&& spares(a.records, b.records, before.followers())
        &&& r is Ok ==> {
            &&& frames(a, b, before.followers(), self.followers())
            &&& self.early().in_step(b.records, changed(m, k, v))
            &&& self.late().in_step(b.records, changed(m, k, v))
            &&& self.early().holdings().disjoint(self.late().holdings())
            &&& self.early().stepped(&before.early(), k, lookup(m, k), v)
            &&& self.late().stepped(&before.late(), k, lookup(m, k), v)
            &&& before.light() ==> self.light()
            &&& forall|n: nat| #[trigger]
                before.spare(n) && n > 0 ==> self.spare((n - 1) as nat)
        }
        &&& serves(a, before.needs(v)) ==> {
            &&& frames(a, b, before.followers(), self.followers())
            &&& (r is Ok) == before.admits(m, k, v)
            &&& r matches Err(e) ==> self.refused(before, b.records, m, k, v, e)
        }
    }

    /// A change of the map leaves its bindings as they were.
    proof fn lemma_map_moved(
        before: &Self,
        after: &BTreeMap<KF, VF>,
        a: StoreState,
        mid: StoreState,
        m2: Map<Model<KF>, Model<VF>>,
        spent: nat,
    )
        requires
            before.in_step(a.records),
            after.became(&before.backing(), a, mid, m2, spent),
        ensures
            before.early().in_step(mid.records, before.contents(a.records)),
            before.late().in_step(mid.records, before.contents(a.records)),
            before.followers().disjoint(after.owned()),
            before.contents(a.records).dom().finite(),
    {
        let m = before.contents(a.records);
        let all = before.followers();
        let owned = before.backing().owned();
        assert forall|r: u64| before.early().holdings().contains(r) implies !owned.contains(r) by {
            assert(all.contains(r));
        }
        assert forall|r: u64| before.late().holdings().contains(r) implies !owned.contains(r) by {
            assert(all.contains(r));
        }
        lemma_apart(&before.early(), a, mid, owned, after.owned(), m);
        lemma_apart(&before.late(), a, mid, owned, after.owned(), m);
        before.backing().lemma_finite(a.records);
    }

    /// What the bindings do leaves the map as it is.
    proof fn lemma_bindings_moved(
        before: &Self,
        after: &Self,
        a: StoreState,
        mid: StoreState,
        b: StoreState,
        m2: Map<Model<KF>, Model<VF>>,
        spent: nat,
    )
        requires
            before.in_step(a.records),
            after.backing().became(&before.backing(), a, mid, m2, spent),
            frames(mid, b, before.followers(), after.followers()),
        ensures
            after.moved(before, a, b, m2),
            after.followers().disjoint(after.backing().owned()),
    {
        Self::lemma_map_moved(before, &after.backing(), a, mid, m2, spent);
        let map = after.backing();
        map.lemma_owned_records(mid.records);
        let f2 = after.followers();
        assert forall|r: u64| #[trigger] map.owned().contains(r) implies b.records.contains_key(r)
            && b.records[r] == mid.records[r] && !f2.contains(r) by {
            assert(mid.records.contains_key(r));
            assert(!before.followers().contains(r));
            assert(b.records.contains_key(r));
        }
        map.law_untouched(mid.records, b.records);
        lemma_frames_both(
            a,
            mid,
            b,
            before.backing().owned(),
            map.owned(),
            before.followers(),
            after.followers(),
        );
    }

    /// The map changed at a key, and then the bindings were told.
    proof fn lemma_turned<T>(
        before: &Self,
        asked: &Self,
        after: &Self,
        a: StoreState,
        mid: StoreState,
        b: StoreState,
        k: Model<KF>,
        v: Option<Model<VF>>,
        spent: nat,
        t: Result<()>,
        r: Result<T>,
    )
        requires
            before.in_step(a.records),
            after.backing().became(
                &before.backing(),
                a,
                mid,
                changed(before.contents(a.records), k, v),
                spent,
            ),
            asked.early() == before.early(),
            asked.late() == before.late(),
            after.heard(asked, mid, b, before.contents(a.records), k, v, t),
            match t {
                Ok(_) => r is Ok,
                Err(e) => r == Err::<T, DbError>(e),
            },
        ensures
            after.turned(before, a, b, k, v, spent, r),
    {
        let m2 = changed(before.contents(a.records), k, v);
        Self::lemma_map_moved(before, &after.backing(), a, mid, m2, spent);
        let map = after.backing();
        let all = before.holdings();
        map.lemma_owned_records(mid.records);
        assert forall|x: u64| #[trigger] map.owned().contains(x) implies b.records.contains_key(x)
            && b.records[x] == mid.records[x] by {
            assert(mid.records.contains_key(x));
            assert(!asked.followers().contains(x));
        }
        map.law_untouched(mid.records, b.records);
        assert forall|x: u64| #[trigger] a.records.contains_key(x) && !all.contains(x)
            implies b.records.contains_key(x) && b.records[x] == a.records[x] by {
            assert(!before.backing().owned().contains(x) && !before.followers().contains(x));
            assert(mid.records.contains_key(x));
        }
        if t is Ok || serves(mid, before.needs(v)) {
            Self::lemma_bindings_moved(before, after, a, mid, b, m2, spent);
        }
        if t is Ok {
            assert forall|n: nat| #[trigger] before.spare(n) && n > 0 implies after.spare(
                (n - 1) as nat,
            ) by {
                assert(asked.spare(n));
            }
        }
    }

    /// The map was found as it was.
    proof fn lemma_stayed<T>(
        before: &Self,
        after: &Self,
        a: StoreState,
        b: StoreState,
        spent: nat,
        r: Result<T>,
    )
        requires
            before.in_step(a.records),
            r is Ok,
            after.backing().became(&before.backing(), a, b, before.contents(a.records), spent),
            after.early() == before.early(),
            after.late() == before.late(),
        ensures
            after.stayed(before, a, b, spent, r),
    {
        let m = before.contents(a.records);
        Self::lemma_map_moved(before, &after.backing(), a, b, m, spent);
        before.early().held(b.records, m);
        before.late().held(b.records, m);
        lemma_frames_both(
            a,
            b,
            b,
            before.backing().owned(),
            after.backing().owned(),
            before.followers(),
            after.followers(),
        );
    }

    /// Tells the bindings of a change that the map just made.
    fn inform<S: Store>(
        &mut self,
        store: &mut S,
        key: &KF::Item,
        was: Option<&VF::Item>,
        new: Option<&VF::Item>,
        Ghost(before): Ghost<Self>,
        Ghost(a): Ghost<StoreState>,
        Ghost(spent): Ghost<nat>,
    ) -> (r: Result<()>)
        ensures
            final(self).backing() == old(self).backing(),
            ({
                let m = before.contents(a.records);
                &&& before.in_step(a.records)
                &&& m.len() < i64::MAX
                &&& before.spare(1)
                &&& lookup(m, key@) == opt_ref_model(was)
                &&& old(self).early() == before.early()
                &&& old(self).late() == before.late()
                &&& old(self).backing().became(
                    &before.backing(),
                    a,
                    old(store).state(),
                    changed(m, key@, opt_ref_model(new)),
                    spent,
                )
            }) ==> final(self).turned(
                &before,
                a,
                final(store).state(),
                key@,
                opt_ref_model(new),
                spent,
                r,
            ),
    {
        let ghost asked = *self;
        let ghost mid = store.state();
        let ghost m = before.contents(a.records);
        let ghost m2 = changed(m, key@, opt_ref_model(new));
        let ghost good = before.in_step(a.records) && m.len() < i64::MAX && before.spare(1)
            && lookup(m, key@) == opt_ref_model(was) && self.early() == before.early()
                && self.late() == before.late()
            && self.backing().became(&before.backing(), a, mid, m2, spent);
        proof {
            if good {
                Self::lemma_map_moved(&before, &self.map, a, mid, m2, spent);
            }
        }
        let r = self.tell(store, key, was, new);
        proof {
            if good {
                Self::lemma_turned(
                    &before,
                    &asked,
                    self,
                    a,
                    mid,
                    store.state(),
                    key@,
                    opt_ref_model(new),
                    spent,
                    r,
                    r,
                );
            }
        }
        r
    }

    /// Puts a value under a key; answers the value that the map held. The value stands
    /// whatever the bindings answer.
    pub fn put<S: Store>(&mut self, store: &mut S, key: KF::Item, value: VF::Item) -> (r: Result<
        Option<VF::Item>,
    >)
        requires
            old(self).backing().kf().fits(key@),
            old(self).backing().vf().fits(value@),
        ensures
            old(self).backing().refuses(old(store).state(), r),
            final(self).backing().same_config(&old(self).backing()),
            ({
                let a = old(store).state();
                let b = final(store).state();
                let m = old(self).contents(a.records);
                old(self).in_step(a.records) && m.len() < i64::MAX && old(self).spare(1) ==> {
                    let h = old(self).backing().height() + 2;
                    &&& r matches Ok(w) ==> opt_model(w) == lookup(m, key@)
                    &&& final(self).turned(old(self), a, b, key@, Some(value@), h, r)
                }
            }),
    {
        let ghost a = store.state();
        let ghost h = self.backing().height() + 2;
        let k = self.map.key_serializer().dup(&key);
        let v = self.map.value_serializer().dup(&value);
        match self.map.put(store, key, value) {
            Ok(was) => {
                let held = was.as_ref();
                match self.inform(
                    store,
                    &k,
                    held,
                    Some(&v),
                    Ghost(*old(self)),
                    Ghost(a),
                    Ghost(h),
                ) {
                    Ok(_) => Ok(was),
                    Err(e) => Err(e),
                }
            },
            Err(e) => {
                proof {
                    if old(self).in_step(a.records) && old(self).contents(a.records).len()
                        < i64::MAX {
                        Self::lemma_map_failed(
                            old(self),
                            self,
                            a,
                            store.state(),
                            k@,
                            Some(v@),
                            h,
                        );
                    }
                }
                Err(e)
            },
        }
    }

    /// Puts a value under a key.
    pub fn put_only<S: Store>(&mut self, store: &mut S, key: KF::Item, value: VF::Item) -> (r:
        Result<()>)
        requires
            old(self).backing().kf().fits(key@),
            old(self).backing().vf().fits(value@),
        ensures
            old(self).backing().refuses(old(store).state(), r),
            final(self).backing().same_config(&old(self).backing()),
            ({
                let a = old(store).state();
                let b = final(store).state();
                let m = old(self).contents(a.records);
                old(self).in_step(a.records) && m.len() < i64::MAX && old(self).spare(1) ==> {
                    let h = old(self).backing().height() + 2;
                    final(self).turned(old(self), a, b, key@, Some(value@), h, r)
                }
            }),
    {
        match self.put(store, key, value) {
            Ok(_) => Ok(()),
            Err(e) => Err(e),
        }
    }

    /// Puts a value under a key that the map does not hold; answers the value that it
    /// does.
    pub fn put_if_absent<S: Store>(&mut self, store: &mut S, key: KF::Item, value: VF::Item) -> (r:
        Result<Option<VF::Item>>)
        requires
            old(self).backing().kf().fits(key@),
            old(self).backing().vf().fits(value@),
        ensures
            old(self).backing().refuses(old(store).state(), r),
            final(self).backing().same_config(&old(self).backing()),
            ({
                let a = old(store).state();
                let b = final(store).state();
                let m = old(self).contents(a.records);
                old(self).in_step(a.records) && m.len() < i64::MAX && old(self).spare(1) ==> {
                    let h = old(self).backing().height() + 2;
                    &&& r matches Ok(w) ==> opt_model(w) == lookup(m, key@)
                    &&& m.contains_key(key@) ==> final(self).stayed(old(self), a, b, h, r)
                    &&& !m.contains_key(key@) ==> final(self).turned(
                        old(self),
                        a,
                        b,
                        key@,
                        Some(value@),
                        h,
                        r,
                    )
                }
            }),
    {
        let ghost a = store.state();
        let ghost h = self.backing().height() + 2;
        let ghost good = self.in_step(a.records) && self.contents(a.records).len() < i64::MAX;
        let k = self.map.key_serializer().dup(&key);
        let v = self.map.value_serializer().dup(&value);
        match self.map.put_if_absent(store, key, value) {
            Ok(Some(w)) => {
                let r: Result<Option<VF::Item>> = Ok(Some(w));
                proof {
                    if good {
                        Self::lemma_stayed(old(self), self, a, store.state(), h, r);
                    }
                }
                r
            },
            Ok(None) => match self.inform(
                store,
                &k,
                None,
                Some(&v),
                Ghost(*old(self)),
                Ghost(a),
                Ghost(h),
            ) {
                Ok(_) => Ok(None),
                Err(e) => Err(e),
            },
            Err(e) => {
                proof {
                    if old(self).in_step(a.records) && old(self).contents(a.records).len()
                        < i64::MAX {
                        Self::lemma_map_failed(
                            old(self),
                            self,
                            a,
                            store.state(),
                            k@,
                            Some(v@),
                            h,
                        );
                    }
                }
                Err(e)
            },
        }
    }

    /// Removes a key; answers its value.
    pub fn remove<S: Store>(
        &mut self,
        store: &mut S,
        key: &KF::Item,
    ) -> (r: Result<Option<VF::Item>>)
        ensures
            old(self).backing().refuses(old(store).state(), r),
            final(self).backing().same_config(&old(self).backing()),
            ({
                let a = old(store).state();
                let b = final(store).state();
                let m = old(self).contents(a.records);
                old(self).in_step(a.records) && m.len() < i64::MAX && old(self).spare(1) ==> {
                    &&& r matches Ok(w) ==> opt_model(w) == lookup(m, key@)
                    &&& m.contains_key(key@)
                        ==> final(self).turned(old(self), a, b, key@, None, 0, r)
                    &&& !m.contains_key(key@) ==> final(self).stayed(old(self), a, b, 0, r)
                }
            }),
    {
        let ghost a = store.state();
        let ghost m = self.contents(a.records);
        let ghost good = self.in_step(a.records) && m.len() < i64::MAX;
        match self.map.remove(store, key) {
            Ok(Some(was)) => match self.inform(
                store,
                key,
                Some(&was),
                None,
                Ghost(*old(self)),
                Ghost(a),
                Ghost(0nat),
            ) {
                Ok(_) => Ok(Some(was)),
                Err(e) => Err(e),
            },
            Ok(None) => {
                let r: Result<Option<VF::Item>> = Ok(None);
                proof {
                    if good {
                        assert(m.remove(key@) =~= m);
                        Self::lemma_stayed(old(self), self, a, store.state(), 0, r);
                    }
                }
                r
            },
            Err(e) => {
                proof {
                    if old(self).in_step(a.records) && old(self).contents(a.records).len()
                        < i64::MAX {
                        Self::lemma_map_failed(
                            old(self),
                            self,
                            a,
                            store.state(),
                            key@,
                            None,
                            0,
                        );
                    }
                }
                Err(e)
            },
        }
    }

    /// Removes a key; answers whether the map held it.
    pub fn remove_only<S: Store>(&mut self, store: &mut S, key: &KF::Item) -> (r: Result<bool>)
        ensures
            old(self).backing().refuses(old(store).state(), r),
            final(self).backing().same_config(&old(self).backing()),
            ({
                let a = old(store).state();
                let b = final(store).state();
                let m = old(self).contents(a.records);
                old(self).in_step(a.records) && m.len() < i64::MAX && old(self).spare(1) ==> {
                    &&& r matches Ok(x) ==> x == m.contains_key(key@)
                    &&& m.contains_key(key@)
                        ==> final(self).turned(old(self), a, b, key@, None, 0, r)
                    &&& !m.contains_key(key@) ==> final(self).stayed(old(self), a, b, 0, r)
                }
            }),
    {
        match self.remove(store, key) {
            Ok(v) => Ok(v.is_some()),
            Err(e) => Err(e),
        }
    }

    /// Removes a key where its value equals `value`; answers whether it did.
    pub fn remove_if<S: Store>(
        &mut self,
        store: &mut S,
        key: &KF::Item,
        value: &VF::Item,
    ) -> (r: Result<bool>)
        ensures
            old(self).backing().refuses(old(store).state(), r),
            final(self).backing().same_config(&old(self).backing()),
            ({
                let a = old(store).state();
                let b = final(store).state();
                let m = old(self).contents(a.records);
                old(self).in_step(a.records) && m.len() < i64::MAX && old(self).spare(1) ==> {
                    let hit = m.contains_key(key@) && m[key@] == value@;
                    &&& r matches Ok(x) ==> x == hit
                    &&& hit ==> final(self).turned(old(self), a, b, key@, None, 0, r)
                    &&& !hit ==> final(self).stayed(old(self), a, b, 0, r)
                }
            }),
    {
        let ghost a = store.state();
        let ghost good = self.in_step(a.records) && self.contents(a.records).len() < i64::MAX;
        match self.map.remove_if(store, key, value) {
            Ok(true) => match self.inform(
                store,
                key,
                Some(value),
                None,
                Ghost(*old(self)),
                Ghost(a),
                Ghost(0nat),
            ) {
                Ok(_) => Ok(true),
                Err(e) => Err(e),
            },
            Ok(false) => {
                let r: Result<bool> = Ok(false);
                proof {
                    if good {
                        Self::lemma_stayed(old(self), self, a, store.state(), 0, r);
                    }
                }
                r
            },
            Err(e) => {
                proof {
                    if old(self).in_step(a.records) && old(self).contents(a.records).len()
                        < i64::MAX {
                        Self::lemma_map_failed(
                            old(self),
                            self,
                            a,
                            store.state(),
                            key@,
                            None,
                            0,
                        );
                    }
                }
                Err(e)
            },
        }
    }

    /// Replaces the value of a key that the map holds; answers the old value.
    pub fn replace<S: Store>(&mut self, store: &mut S, key: &KF::Item, value: VF::Item) -> (r:
        Result<Option<VF::Item>>)
        requires
            old(self).backing().vf().fits(value@),
        ensures
            old(self).backing().refuses(old(store).state(), r),
            final(self).backing().same_config(&old(self).backing()),
            ({
                let a = old(store).state();
                let b = final(store).state();
                let m = old(self).contents(a.records);
                old(self).in_step(a.records) && m.len() < i64::MAX && old(self).spare(1) ==> {
                    &&& r matches Ok(w) ==> opt_model(w) == lookup(m, key@)
                    &&& m.contains_key(key@) ==> final(self).turned(
                        old(self),
                        a,
                        b,
                        key@,
                        Some(value@),
                        0,
                        r,
                    )
                    &&& !m.contains_key(key@) ==> final(self).stayed(old(self), a, b, 0, r)
                }
            }),
    {
        let ghost a = store.state();
        let ghost good = self.in_step(a.records) && self.contents(a.records).len() < i64::MAX;
        let v = self.map.value_serializer().dup(&value);
        proof {
            self.map.lemma_same(a);
        }
        match self.map.replace(store, key, value) {
            Ok(Some(was)) => match self.inform(
                store,
                key,
                Some(&was),
                Some(&v),
                Ghost(*old(self)),
                Ghost(a),
                Ghost(0nat),
            ) {
                Ok(_) => Ok(Some(was)),
                Err(e) => Err(e),
            },
            Ok(None) => {
                let r: Result<Option<VF::Item>> = Ok(None);
                proof {
                    if good {
                        Self::lemma_stayed(old(self), self, a, store.state(), 0, r);
                    }
                }
                r
            },
            Err(e) => {
                proof {
                    if old(self).in_step(a.records) && old(self).contents(a.records).len()
                        < i64::MAX {
                        Self::lemma_map_failed(
                            old(self),
                            self,
                            a,
                            store.state(),
                            key@,
                            Some(v@),
                            0,
                        );
                    }
                }
                Err(e)
            },
        }
    }

    /// Replaces the value of a key where it equals `old_value`; answers whether it did.
    pub fn replace_if<S: Store>(
        &mut self,
        store: &mut S,
        key: &KF::Item,
        old_value: &VF::Item,
        new_value: VF::Item,
    ) -> (r: Result<bool>)
        requires
            old(self).backing().vf().fits(new_value@),
        ensures
            old(self).backing().refuses(old(store).state(), r),
            final(self).backing().same_config(&old(self).backing()),
            ({
                let a = old(store).state();
                let b = final(store).state();
                let m = old(self).contents(a.records);
                old(self).in_step(a.records) && m.len() < i64::MAX && old(self).spare(1) ==> {
                    let hit = m.contains_key(key@) && m[key@] == old_value@;
                    &&& r matches Ok(x) ==> x == hit
                    &&& hit ==> final(self).turned(old(self), a, b, key@, Some(new_value@), 0, r)
                    &&& !hit ==> final(self).stayed(old(self), a, b, 0, r)
                }
            }),
    {
        let ghost a = store.state();
        let ghost good = self.in_step(a.records) && self.contents(a.records).len() < i64::MAX;
        let v = self.map.value_serializer().dup(&new_value);
        proof {
            self.map.lemma_same(a);
        }
        match self.map.replace_if(store, key, old_value, new_value) {
            Ok(true) => match self.inform(
                store,
                key,
                Some(old_value),
                Some(&v),
                Ghost(*old(self)),
                Ghost(a),
                Ghost(0nat),
            ) {
                Ok(_) => Ok(true),
                Err(e) => Err(e),
            },
            Ok(false) => {
                let r: Result<bool> = Ok(false);
                proof {
                    if good {
                        Self::lemma_stayed(old(self), self, a, store.state(), 0, r);
                    }
                }
                r
            },
            Err(e) => {
                proof {
                    if old(self).in_step(a.records) && old(self).contents(a.records).len()
                        < i64::MAX {
                        Self::lemma_map_failed(
                            old(self),
                            self,
                            a,
                            store.state(),
                            key@,
                            Some(v@),
                            0,
                        );
                    }
                }
                Err(e)
            },
        }
    }

    /// Takes the entry with the least key of the range out of the map.
    pub fn poll_first_entry<S: Store>(
        &mut self,
        store: &mut S,
        lo: Option<KF::Item>,
        lo_inc: bool,
        hi: Option<KF::Item>,
        hi_inc: bool,
    ) -> (r: Result<Option<(KF::Item, VF::Item)>>)
        ensures
            old(self).backing().refuses(old(store).state(), r),
            final(self).backing().same_config(&old(self).backing()),
            ({
                let a = old(store).state();
                let b = final(store).state();
                let m = old(self).contents(a.records);
                old(self).in_step(a.records) && m.len() < i64::MAX && old(self).spare(1) ==> {
                    let kf = old(self).backing().kf();
                    let part = ranged(&kf, m, opt_model(lo), lo_inc, opt_model(hi), hi_inc);
                    &&& r matches Ok(None) ==> part =~= Map::empty()
                    &&& r matches Ok(Some(e)) ==> is_least(&kf, part, e.0@) && m[e.0@] == e.1@
                        && final(self).turned(old(self), a, b, e.0@, None, 0, r)
                    &&& part =~= Map::empty() ==> final(self).stayed(old(self), a, b, 0, r)
                    &&& serves(a, 0) && old(self).light() ==> r is Ok
                    &&& serves(a, 0) && !(part =~= Map::empty()) ==> exists|k: Model<KF>|
                        #[trigger]
                        is_least(&kf, part, k) && final(self).turned(old(self), a, b, k, None, 0, r)
                    &&& r is Err ==> keeps_state(a, b) && spares(
                        a.records,
                        b.records,
                        old(self).holdings(),
                    )
                }
            }),
    {
        let ghost a = store.state();
        let ghost m = self.contents(a.records);
        let ghost part = ranged(
            &self.map.kf(),
            m,
            opt_model(lo),
            lo_inc,
            opt_model(hi),
            hi_inc,
        );
        let ghost good = self.in_step(a.records) && m.len() < i64::MAX;
        match self.map.poll_first_entry(store, lo, lo_inc, hi, hi_inc) {
            Ok(Some((k, v))) => {
                let t = self.inform(
                    store,
                    &k,
                    Some(&v),
                    None,
                    Ghost(*old(self)),
                    Ghost(a),
                    Ghost(0nat),
                );
                proof {
                    if good && old(self).light() {
                        old(self).early().lets_go(m, k@);
                        old(self).late().lets_go(m, k@);
                    }
                }
                match t {
                    Ok(_) => Ok(Some((k, v))),
                    Err(e) => Err(e),
                }
            },
            Ok(None) => {
                let r: Result<Option<(KF::Item, VF::Item)>> = Ok(None);
                proof {
                    if good {
                        Self::lemma_stayed(old(self), self, a, store.state(), 0, r);
                    }
                }
                r
            },
            Err(e) => {
                proof {
                    if good {
                        let b = store.state();
                        let was = old(self).backing();
                        if self.map.left_alone(&was, a, b, 0) {
                            self.map.lemma_left(&was, a, b, 0);
                        } else {
                            let k = choose|k: Model<KF>| #[trigger]
                                part.contains_key(k) && self.map.taken_or_left(&was, a, b, k);
                            self.map.lemma_spared(&was, a, b, k, 0);
                        }
                    }
                }
                Err(e)
            },
        }
    }

    /// Takes the entry with the least key out of the map.
    pub fn pop_first<S: Store>(&mut self, store: &mut S) -> (r: Result<
        Option<(KF::Item, VF::Item)>,
    >)
        ensures
            old(self).backing().refuses(old(store).state(), r),
            final(self).backing().same_config(&old(self).backing()),
            ({
                let a = old(store).state();
                let b = final(store).state();
                let m = old(self).contents(a.records);
                old(self).in_step(a.records) && m.len() < i64::MAX && old(self).spare(1) ==> {
                    let kf = old(self).backing().kf();
                    let part = m;
                    &&& r matches Ok(None) ==> part =~= Map::empty()
                    &&& r matches Ok(Some(e)) ==> is_least(&kf, part, e.0@) && m[e.0@] == e.1@
                        && final(self).turned(old(self), a, b, e.0@, None, 0, r)
                    &&& part =~= Map::empty() ==> final(self).stayed(old(self), a, b, 0, r)
                    &&& serves(a, 0) && old(self).light() ==> r is Ok
                    &&& serves(a, 0) && !(part =~= Map::empty()) ==> exists|k: Model<KF>|
                        #[trigger]
                        is_least(&kf, part, k) && final(self).turned(old(self), a, b, k, None, 0, r)
                    &&& r is Err ==> keeps_state(a, b) && spares(
                        a.records,
                        b.records,
                        old(self).holdings(),
                    )
                }
            }),
    {
        let ghost a = store.state();
        let ghost m = self.contents(a.records);
        let ghost good = self.in_step(a.records) && m.len() < i64::MAX;
        match self.map.pop_first(store) {
            Ok(Some((k, v))) => {
                let t = self.inform(
                    store,
                    &k,
                    Some(&v),
                    None,
                    Ghost(*old(self)),
                    Ghost(a),
                    Ghost(0nat),
                );
                proof {
                    if good && old(self).light() {
                        old(self).early().lets_go(m, k@);
                        old(self).late().lets_go(m, k@);
                    }
                }
                match t {
                    Ok(_) => Ok(Some((k, v))),
                    Err(e) => Err(e),
                }
            },
            Ok(None) => {
                let r: Result<Option<(KF::Item, VF::Item)>> = Ok(None);
                proof {
                    if good {
                        Self::lemma_stayed(old(self), self, a, store.state(), 0, r);
                    }
                }
                r
            },
            Err(e) => {
                proof {
                    if good {
                        let b = store.state();
                        let was = old(self).backing();
                        if self.map.left_alone(&was, a, b, 0) {
                            self.map.lemma_left(&was, a, b, 0);
                        } else {
                            let k = choose|k: Model<KF>| #[trigger]
                                m.contains_key(k) && self.map.taken_or_left(&was, a, b, k);
                            self.map.lemma_spared(&was, a, b, k, 0);
                        }
                    }
                }
                Err(e)
            },
        }
    }

    /// Takes the entry with the greatest key of the range out of the map.
    pub fn poll_last_entry<S: Store>(
        &mut self,
        store: &mut S,
        lo: Option<KF::Item>,
        lo_inc: bool,
        hi: Option<KF::Item>,
        hi_inc: bool,
    ) -> (r: Result<Option<(KF::Item, VF::Item)>>)
        ensures
            old(self).backing().refuses(old(store).state(), r),
            final(self).backing().same_config(&old(self).backing()),
            ({
                let a = old(store).state();
                let b = final(store).state();
                let m = old(self).contents(a.records);
                old(self).in_step(a.records) && m.len() < i64::MAX && old(self).spare(1) ==> {
                    let kf = old(self).backing().kf();
                    let part = ranged(&kf, m, opt_model(lo), lo_inc, opt_model(hi), hi_inc);
                    &&& r matches Ok(None) ==> part =~= Map::empty()
                    &&& r matches Ok(Some(e)) ==> is_greatest(&kf, part, e.0@) && m[e.0@] == e.1@
                        && final(self).turned(old(self), a, b, e.0@, None, 0, r)
                    &&& part =~= Map::empty() ==> final(self).stayed(old(self), a, b, 0, r)
                    &&& serves(a, 0) && old(self).light() ==> r is Ok
                    &&& serves(a, 0) && !(part =~= Map::empty()) ==> exists|k: Model<KF>|
                        #[trigger]
                        is_greatest(&kf, part, k) && final(self).turned(old(self), a, b, k, None, 0, r)
                    &&& r is Err ==> keeps_state(a, b) && spares(
                        a.records,
                        b.records,
                        old(self).holdings(),
                    )
                }
            }),
    {
        let ghost a = store.state();
        let ghost m = self.contents(a.records);
        let ghost part = ranged(
            &self.map.kf(),
            m,
            opt_model(lo),
            lo_inc,
            opt_model(hi),
            hi_inc,
        );
        let ghost good = self.in_step(a.records) && m.len() < i64::MAX;
        match self.map.poll_last_entry(store, lo, lo_inc, hi, hi_inc) {
            Ok(Some((k, v))) => {
                let t = self.inform(
                    store,
                    &k,
                    Some(&v),
                    None,
                    Ghost(*old(self)),
                    Ghost(a),
                    Ghost(0nat),
                );
                proof {
                    if good && old(self).light() {
                        old(self).early().lets_go(m, k@);
                        old(self).late().lets_go(m, k@);
                    }
                }
                match t {
                    Ok(_) => Ok(Some((k, v))),
                    Err(e) => Err(e),
                }
            },
            Ok(None) => {
                let r: Result<Option<(KF::Item, VF::Item)>> = Ok(None);
                proof {
                    if good {
                        Self::lemma_stayed(old(self), self, a, store.state(), 0, r);
                    }
                }
                r
            },
            Err(e) => {
                proof {
                    if good {
                        let b = store.state();
                        let was = old(self).backing();
                        if self.map.left_alone(&was, a, b, 0) {
                            self.map.lemma_left(&was, a, b, 0);
                        } else {
                            let k = choose|k: Model<KF>| #[trigger]
                                part.contains_key(k) && self.map.taken_or_left(&was, a, b, k);
                            self.map.lemma_spared(&was, a, b, k, 0);
                        }
                    }
                }
                Err(e)
            },
        }
    }

    /// Takes the entry with the greatest key out of the map.
    pub fn pop_last<S: Store>(&mut self, store: &mut S) -> (r: Result<
        Option<(KF::Item, VF::Item)>,
    >)
        ensures
            old(self).backing().refuses(old(store).state(), r),
            final(self).backing().same_config(&old(self).backing()),
            ({
                let a = old(store).state();
                let b = final(store).state();
                let m = old(self).contents(a.records);
                old(self).in_step(a.records) && m.len() < i64::MAX && old(self).spare(1) ==> {
                    let kf = old(self).backing().kf();
                    let part = m;
                    &&& r matches Ok(None) ==> part =~= Map::empty()
                    &&& r matches Ok(Some(e)) ==> is_greatest(&kf, part, e.0@) && m[e.0@] == e.1@
                        && final(self).turned(old(self), a, b, e.0@, None, 0, r)
                    &&& part =~= Map::empty() ==> final(self).stayed(old(self), a, b, 0, r)
                    &&& serves(a, 0) && old(self).light() ==> r is Ok
                    &&& serves(a, 0) && !(part =~= Map::empty()) ==> exists|k: Model<KF>|
                        #[trigger]
                        is_greatest(&kf, part, k) && final(self).turned(old(self), a, b, k, None, 0, r)
                    &&& r is Err ==> keeps_state(a, b) && spares(
                        a.records,
                        b.records,
                        old(self).holdings(),
                    )
                }
            }),
    {
        let ghost a = store.state();
        let ghost m = self.contents(a.records);
        let ghost good = self.in_step(a.records) && m.len() < i64::MAX;
        match self.map.pop_last(store) {
            Ok(Some((k, v))) => {
                let t = self.inform(
                    store,
                    &k,
                    Some(&v),
                    None,
                    Ghost(*old(self)),
                    Ghost(a),
                    Ghost(0nat),
                );
                proof {
                    if good && old(self).light() {
                        old(self).early().lets_go(m, k@);
                        old(self).late().lets_go(m, k@);
                    }
                }
                match t {
                    Ok(_) => Ok(Some((k, v))),
                    Err(e) => Err(e),
                }
            },
            Ok(None) => {
                let r: Result<Option<(KF::Item, VF::Item)>> = Ok(None);
                proof {
                    if good {
                        Self::lemma_stayed(old(self), self, a, store.state(), 0, r);
                    }
                }
                r
            },
            Err(e) => {
                proof {
                    if good {
                        let b = store.state();
                        let was = old(self).backing();
                        if self.map.left_alone(&was, a, b, 0) {
                            self.map.lemma_left(&was, a, b, 0);
                        } else {
                            let k = choose|k: Model<KF>| #[trigger]
                                m.contains_key(k) && self.map.taken_or_left(&was, a, b, k);
                            self.map.lemma_spared(&was, a, b, k, 0);
                        }
                    }
                }
                Err(e)
            },
        }
    }

    /// Removes every entry, one after the other.
    pub fn clear<S: Store>(&mut self, store: &mut S) -> (r: Result<()>)
        ensures
            old(self).backing().refuses(old(store).state(), r),
            final(self).backing().same_config(&old(self).backing()),
            ({
                let a = old(store).state();
                let b = final(store).state();
                let m = old(self).contents(a.records);
                old(self).in_step(a.records) && m.len() < i64::MAX && old(self).spare(m.len()) ==> {
                    &&& serves(a, 0) && old(self).light() ==> r is Ok
                    &&& r is Ok ==> final(self).moved(old(self), a, b, Map::empty())
                        && final(self).in_step(b.records)
                    &&& r is Err ==> keeps_state(a, b) && spares(
                        a.records,
                        b.records,
                        old(self).holdings(),
                    )
                }
            }),
    {
        let ghost a = store.state();
        let ghost m = self.contents(a.records);
        let ghost good = self.in_step(a.records) && m.len() < i64::MAX && self.spare(m.len());
        proof {
            self.map.lemma_same(a);
        }
        let keys = match self.map.every_key(store) {
            Ok(v) => v,
            Err(e) => {
                return Err(e);
            },
        };
        let ghost ks = models(keys@);
        proof {
            if good {
                self.map.lemma_unchanged(a);
                Self::lemma_stayed(old(self), self, a, a, 0, Ok::<(), DbError>(()));
                self.map.lemma_finite(a.records);
                lemma_keys_len(&self.map.kf(), ks, m);
            }
        }
        let mut i: usize = 0;
        while i < keys.len()
            invariant
                !old(self).backing().spoiled() && !a.closed,
                i <= keys@.len(),
                ks == models(keys@),
                a == old(store).state(),
                m == old(self).contents(a.records),
                m.dom().finite() || !good,
                good == (old(self).in_step(a.records) && m.len() < i64::MAX
                    && old(self).spare(m.len())),
                good ==> lists_keys(&old(self).backing().kf(), ks, m),
                self.backing().same_config(&old(self).backing()),
                good ==> {
                    let now = self.contents(store.state().records);
                    &&& self.moved(old(self), a, store.state(), now)
                    &&& self.in_step(store.state().records)
                    &&& now.submap_of(m)
                    &&& old(self).light() ==> self.light()
                    &&& ks.len() == m.len()
                    &&& self.spare((ks.len() - i) as nat)
                    &&& forall|k: Model<KF>| #[trigger]
                        now.contains_key(k) ==> exists|x: int|
                            i <= x < ks.len() && #[trigger] ks[x] == k
                },
            decreases keys@.len() - i,
        {
            let ghost b = store.state();
            let ghost before = *self;
            let ghost then = self.contents(b.records);
            assert(ks[i as int] == keys@[i as int]@);
            proof {
                if good {
                    vstd::set_lib::lemma_len_subset(then.dom(), m.dom());
                    self.early().spare_less((ks.len() - i) as nat, 1);
                    self.late().spare_less((ks.len() - i) as nat, 1);
                    if self.light() {
                        self.early().lets_go(then, ks[i as int]);
                        self.late().lets_go(then, ks[i as int]);
                    }
                }
            }
            let removed = self.remove(store, &keys[i]);
            proof {
                BTreeMap::lemma_same_config(
                    &old(self).backing(),
                    &before.backing(),
                    &self.backing(),
                );
            }
            match removed {
                Ok(_) => {},
                Err(e) => {
                    proof {
                        if good {
                            let c = store.state();
                            let all = old(self).holdings();
                            assert forall|x: u64| #[trigger]
                                a.records.contains_key(x) && !all.contains(x)
                                    implies c.records.contains_key(x)
                                && c.records[x] == a.records[x] by {
                                assert(b.records.contains_key(x));
                                assert(!before.holdings().contains(x));
                            }
                        }
                    }
                    return Err(e);
                },
            }
            proof {
                if good {
                    let c = store.state();
                    let now = self.contents(c.records);
                    if !then.contains_key(ks[i as int]) {
                        before.early().spare_less((ks.len() - i) as nat, (ks.len() - i - 1) as nat);
                        before.late().spare_less((ks.len() - i) as nat, (ks.len() - i - 1) as nat);
                    } else {
                        assert(before.spare((ks.len() - i) as nat));
                    }
                    lemma_frames_chain(
                        a,
                        b,
                        c,
                        old(self).holdings(),
                        before.holdings(),
                        self.holdings(),
                    );
                    assert forall|k: Model<KF>| #[trigger] now.contains_key(k)
                        implies exists|x: int|
                        i + 1 <= x < ks.len() && #[trigger] ks[x] == k by {
                        assert(then.contains_key(k));
                        let x = choose|x: int| i <= x < ks.len() && #[trigger] ks[x] == k;
                        assert(x != i);
                        assert(ks[x] == k);
                    }
                }
            }
            i = i + 1;
        }
        proof {
            if good {
                assert(self.contents(store.state().records) =~= Map::empty());
            }
        }
        Ok(())
    }
}

/// What two changes in a row leave alone.
proof fn lemma_frames_chain(
    a: StoreState,
    b: StoreState,
    c: StoreState,
    x: Set<u64>,
    y: Set<u64>,
    z: Set<u64>,
)
    requires
        frames(a, b, x, y),
        frames(b, c, y, z),
    ensures
        frames(a, c, x, z),
{
    assert forall|r: u64|
        #![trigger c.records.contains_key(r)]
        #![trigger z.contains(r)]
        a.records.contains_key(r) && !x.contains(r) implies c.records.contains_key(r)
        && c.records[r] == a.records[r] && !z.contains(r) by {
        assert(b.records.contains_key(r) && !y.contains(r));
        assert(c.records.contains_key(r));
    }
}

} // verus!
