//! Listeners that are told of every change of a map.

use std::cmp::Ordering;
use vstd::prelude::*;
use crate::btree::map::{lookup, opt_ref_model, BTreeMap};
use crate::btree::view::{half_done, half_polled, lost_one, OrderedMapAdapter, RangeView};
use crate::btree::range::{is_greatest, is_least, lists_keys, ranged};
use crate::error::{DbError, Result};
use crate::ser::{models, KeyFormat, Model, Serializer};
use crate::store::{opt_model, served, Records, Store, StoreState};

verus! {

/// Is told of the changes of a map.
pub trait MapModificationListener<K, V> {
    /// The listener can be called.
    spec fn listens(&self) -> bool;

    /// A key got another value: `old_value` is `None` for a new key, `new_value` for one
    /// that was removed. `triggered` marks a change that nobody asked for. An error does
    /// not undo the change.
    fn modify(
        &self,
        key: &K,
        old_value: Option<&V>,
        new_value: Option<&V>,
        triggered: bool,
    ) -> (r: Result<()>)
        requires
            self.listens(),
    ;
}

/// The listener hears of a change and has nothing against it.
pub open spec fn hears_well<K, V, L: MapModificationListener<K, V>>(
    l: L,
    key: &K,
    old_value: Option<&V>,
    new_value: Option<&V>,
) -> bool {
    exists|r: Result<()>|
        r is Ok && #[trigger] call_ensures(
            L::modify,
            (&l, key, old_value, new_value, false),
            r,
        )
}

/// A listener that has to be told before anything else happens to the key.
pub trait SynchronousMapModificationListener<K, V>: MapModificationListener<K, V> {

}

/// A function as a listener.
pub struct FnListener<F>(pub F);

impl<K, V, F: Fn(&K, Option<&V>, Option<&V>, bool) -> Result<()>> MapModificationListener<
    K,
    V,
> for FnListener<F> {
    open spec fn listens(&self) -> bool {
        forall|k: &K, o: Option<&V>, n: Option<&V>, t: bool| #[trigger]
            call_requires(self.0, (k, o, n, t))
    }

    fn modify(
        &self,
        key: &K,
        old_value: Option<&V>,
        new_value: Option<&V>,
        triggered: bool,
    ) -> (r: Result<()>)
        ensures
            call_ensures(self.0, (key, old_value, new_value, triggered), r),
    {
        (self.0)(key, old_value, new_value, triggered)
    }
}

/// A function that listens is called with the key, with the value before the change and
/// with the value after it, in this order, and its answer is the answer.
pub proof fn law_function_hears_the_change<
    K,
    V,
    F: Fn(&K, Option<&V>, Option<&V>, bool) -> Result<()>,
>(
    f: F,
    key: &K,
    old_value: Option<&V>,
    new_value: Option<&V>,
    triggered: bool,
    r: Result<()>,
)
    requires
        call_ensures(
            <FnListener<F> as MapModificationListener<K, V>>::modify,
            (&FnListener(f), key, old_value, new_value, triggered),
            r,
        ),
    ensures
        call_ensures(f, (key, old_value, new_value, triggered), r),
{
}

/// The numbers that are left without `id`.
pub open spec fn dropped(ids: Seq<u64>, id: u64) -> Seq<u64> {
    if ids.contains(id) {
        ids.remove(ids.index_of_first(id).unwrap())
    } else {
        ids
    }
}

/// The listeners of a map, each under a number of its own.
pub struct Listeners<L> {
    entries: Vec<(u64, L)>,
}

impl<L> Listeners<L> {
    /// The numbers of the listeners, in the order in which they are told.
    pub closed spec fn ids(&self) -> Seq<u64> {
        Seq::new(self.entries@.len(), |i: int| self.entries@[i].0)
    }

    /// The listener with the `i`-th number.
    pub closed spec fn at(&self, i: int) -> L {
        self.entries@[i].1
    }

    /// These are the listeners of `before` and behind them a new one, or those of `before`
    /// where its number was taken.
    pub open spec fn joined_by(&self, before: &Self, id: u64, listener: L) -> bool {
        if before.ids().contains(id) {
            *self == *before
        } else {
            &&& self.ids() == before.ids().push(id)
            &&& self.at(before.ids().len() as int) == listener
            &&& forall|i: int|
                0 <= i < before.ids().len() ==> #[trigger] self.at(i) == before.at(i)
        }
    }

    /// These are the listeners of `before` without the one of a number, in their order.
    pub open spec fn left_by(&self, before: &Self, id: u64) -> bool {
        if before.ids().contains(id) {
            exists|p: int|
                0 <= p < before.ids().len() && #[trigger] before.ids()[p] == id && self.ids()
                    == before.ids().remove(p) && (forall|i: int|
                    0 <= i < self.ids().len() ==> #[trigger] self.at(i) == before.at(
                        if i < p {
                            i
                        } else {
                            i + 1
                        },
                    ))
        } else {
            *self == *before
        }
    }

    pub fn new() -> (r: Self)
        ensures
            r.ids() == Seq::<u64>::empty(),
    {
        let r = Listeners { entries: Vec::new() };
        assert(r.ids() =~= Seq::empty());
        r
    }

    /// Adds a listener; one whose number is taken is ignored.
    pub fn add(&mut self, id: u64, listener: L)
        ensures
            old(self).ids().contains(id) ==> *final(self) == *old(self),
            !old(self).ids().contains(id) ==> final(self).ids() == old(self).ids().push(id)
                && final(self).at(old(self).ids().len() as int) == listener,
            forall|i: int| 0 <= i < old(self).ids().len()
                ==> #[trigger] final(self).at(i) == old(self).at(i),
            final(self).joined_by(old(self), id, listener),
    {
        let mut i: usize = 0;
        while i < self.entries.len()
            invariant
                i <= self.entries@.len(),
                *self == *old(self),
                forall|j: int| 0 <= j < i ==> #[trigger] self.entries@[j].0 != id,
            decreases self.entries@.len() - i,
        {
            if self.entries[i].0 == id {
                assert(self.ids()[i as int] == id);
                return;
            }
            i = i + 1;
        }
        proof {
            if self.ids().contains(id) {
                let j = choose|j: int| 0 <= j < self.ids().len() && self.ids()[j] == id;
                assert(self.entries@[j].0 == id);
            }
        }
        self.entries.push((id, listener));
        assert(self.ids() =~= old(self).ids().push(id));
    }

    /// Removes the listener with a number, where there is one.
    pub fn remove(&mut self, id: u64)
        ensures
            final(self).ids() == dropped(old(self).ids(), id),
            !old(self).ids().contains(id) ==> *final(self) == *old(self),
            old(self).ids().contains(id) ==> {
                let p = old(self).ids().index_of_first(id).unwrap();
                forall|i: int|
                    0 <= i < final(self).ids().len()
                        ==> #[trigger] final(self).at(i) == old(self).at(
                        if i < p {
                            i
                        } else {
                            i + 1
                        },
                    )
            },
            final(self).left_by(old(self), id),
    {
        let mut i: usize = 0;
        while i < self.entries.len()
            invariant
                i <= self.entries@.len(),
                *self == *old(self),
                forall|j: int| 0 <= j < i ==> #[trigger] self.entries@[j].0 != id,
            decreases self.entries@.len() - i,
        {
            if self.entries[i].0 == id {
                proof {
                    let s = self.ids();
                    assert(s[i as int] == id);
                    s.index_of_first_ensures(id);
                    let k = s.index_of_first(id).unwrap();
                    if k < i {
                        assert(self.entries@[k].0 == id);
                    }
                }
                self.entries.remove(i);
                assert(self.ids() =~= old(self).ids().remove(i as int));
                return;
            }
            i = i + 1;
        }
        proof {
            if self.ids().contains(id) {
                let j = choose|j: int| 0 <= j < self.ids().len() && self.ids()[j] == id;
                assert(self.entries@[j].0 == id);
            }
        }
    }

    /// Tells every listener of a change, also after one has failed; answers the first
    /// failure.
    pub fn fire<K, V>(
        &self,
        key: &K,
        old_value: Option<&V>,
        new_value: Option<&V>,
    ) -> (r: Result<()>) where
        L: MapModificationListener<K, V>,

        requires
            self.listen::<K, V>(),
        ensures
            self.told(key, old_value, new_value, r),
    {
        let mut outcomes: Vec<Result<()>> = Vec::new();
        let mut i: usize = 0;
        while i < self.entries.len()
            invariant
                i <= self.entries@.len(),
                self.listen::<K, V>(),
                outcomes@.len() == i,
                forall|j: int|
                    0 <= j < i ==> call_ensures(
                        L::modify,
                        (&self.at(j), key, old_value, new_value, false),
                        #[trigger] outcomes@[j],
                    ),
            decreases self.entries@.len() - i,
        {
            assert(self.at(i as int).listens());
            let outcome = self.entries[i].1.modify(key, old_value, new_value, false);
            assert(call_ensures(
                L::modify,
                (&self.at(i as int), key, old_value, new_value, false),
                outcome,
            ));
            outcomes.push(outcome);
            i = i + 1;
        }
        assert(self.answered(key, old_value, new_value, outcomes@));
        first_failure(outcomes)
    }

    /// Every listener was told of a change, and these are their answers.
    pub open spec fn answered<K, V>(
        &self,
        key: &K,
        old_value: Option<&V>,
        new_value: Option<&V>,
        answers: Seq<Result<()>>,
    ) -> bool where L: MapModificationListener<K, V> {
        &&& answers.len() == self.ids().len()
        &&& forall|i: int|
            0 <= i < answers.len() ==> call_ensures(
                L::modify,
                (&self.at(i), key, old_value, new_value, false),
                #[trigger] answers[i],
            )
    }

    /// Every listener was told of a change, and `r` is the first failure among their
    /// answers.
    pub open spec fn told<K, V>(
        &self,
        key: &K,
        old_value: Option<&V>,
        new_value: Option<&V>,
        r: Result<()>,
    ) -> bool where L: MapModificationListener<K, V> {
        exists|answers: Seq<Result<()>>| #[trigger]
            self.answered(key, old_value, new_value, answers) && first_of(answers, r)
    }

    /// Every listener can be called.
    pub open spec fn listen<K, V>(&self) -> bool where L: MapModificationListener<K, V> {
        forall|i: int| 0 <= i < self.ids().len() ==> (#[trigger] self.at(i)).listens()
    }
}

/// `r` is the first failure among some outcomes, or success where there is none.
pub open spec fn first_of(outcomes: Seq<Result<()>>, r: Result<()>) -> bool {
    match r {
        Ok(_) => forall|i: int| 0 <= i < outcomes.len() ==> #[trigger] outcomes[i] is Ok,
        Err(_) => exists|i: int|
            0 <= i < outcomes.len() && #[trigger] outcomes[i] == r && forall|j: int|
                0 <= j < i ==> #[trigger] outcomes[j] is Ok,
    }
}

/// The first failure among some outcomes.
pub fn first_failure(outcomes: Vec<Result<()>>) -> (r: Result<()>)
    ensures
        first_of(outcomes@, r),
{
    let ghost all = outcomes@;
    let mut rest = outcomes;
    let mut found: Result<()> = Ok(());
    let ghost mut at: int = 0;
    while rest.len() > 0
        invariant
            rest@ == all.take(rest@.len() as int),
            rest@.len() <= all.len(),
            found is Ok ==> forall|i: int| rest@.len() <= i < all.len() ==> #[trigger] all[i] is Ok,
            found is Err ==> rest@.len() <= at < all.len() && all[at] == found && forall|j: int|
                rest@.len() <= j < at ==> #[trigger] all[j] is Ok,
        decreases rest@.len(),
    {
        match rest.pop() {
            Some(Err(e)) => {
                found = Err(e);
                proof {
                    at = rest@.len() as int;
                }
            },
            _ => {},
        }
    }
    found
}

/// A map that can tell listeners of its changes.
pub trait ModificationAwareMap<L> {
    /// The numbers of the listeners.
    spec fn listener_ids(&self) -> Seq<u64>;

    fn modification_listener_add(&mut self, id: u64, listener: L)
        ensures
            final(self).listener_ids() == if old(self).listener_ids().contains(id) {
                old(self).listener_ids()
            } else {
                old(self).listener_ids().push(id)
            },
    ;

    fn modification_listener_remove(&mut self, id: u64)
        ensures
            final(self).listener_ids() == dropped(old(self).listener_ids(), id),
    ;
}

/// What every map in a store offers besides its entries.
pub trait MapExtra<KF: KeyFormat, VF: Serializer> {
    /// The records hold the map.
    spec fn sound(&self, records: Records) -> bool;

    /// The number of entries.
    spec fn count(&self, records: Records) -> nat;

    spec fn key_codec(&self) -> KF;

    spec fn value_codec(&self) -> VF;

    fn size_long<S: Store>(&self, store: &S) -> (r: Result<u64>)
        ensures
            self.sound(store.state().records) && self.count(store.state().records) <= u64::MAX
                ==> served(store.state(), r) && (r matches Ok(n) ==> n == self.count(
                store.state().records,
            )),
    ;

    fn is_closed<S: Store>(&self, store: &S) -> (r: bool)
        ensures
            r == store.state().closed,
    ;

    fn key_serializer(&self) -> (r: &KF)
        ensures
            *r == self.key_codec(),
    ;

    fn value_serializer(&self) -> (r: &VF)
        ensures
            *r == self.value_codec(),
    ;
}

impl<KF: KeyFormat, VF: Serializer> MapExtra<KF, VF> for BTreeMap<KF, VF> {
    open spec fn sound(&self, records: Records) -> bool {
        self.wf(records)
    }

    open spec fn count(&self, records: Records) -> nat {
        self.contents(records).len()
    }

    open spec fn key_codec(&self) -> KF {
        self.kf()
    }

    open spec fn value_codec(&self) -> VF {
        self.vf()
    }

    fn size_long<S: Store>(&self, store: &S) -> Result<u64> {
        BTreeMap::size_long(self, store)
    }

    fn is_closed<S: Store>(&self, store: &S) -> bool {
        BTreeMap::is_closed(self, store)
    }

    fn key_serializer(&self) -> &KF {
        BTreeMap::key_serializer(self)
    }

    fn value_serializer(&self) -> &VF {
        BTreeMap::value_serializer(self)
    }
}

/// A sorted map that tells listeners of its changes: first those that cannot wait, and
/// where none of them fails the others.
pub struct ObservedMap<KF: KeyFormat, VF: Serializer, Y, L> {
    map: BTreeMap<KF, VF>,
    sync: Listeners<Y>,
    deferred: Listeners<L>,
}

impl<KF: KeyFormat, VF: Serializer, Y, L> ObservedMap<KF, VF, Y, L> {
    /// The numbers of the listeners that cannot wait.
    pub closed spec fn sync_ids(&self) -> Seq<u64> {
        self.sync.ids()
    }

    /// The map.
    pub closed spec fn backing(&self) -> BTreeMap<KF, VF> {
        self.map
    }

    pub closed spec fn sync_listeners(&self) -> Listeners<Y> {
        self.sync
    }

    pub closed spec fn deferred_listeners(&self) -> Listeners<L> {
        self.deferred
    }
}

impl<KF: KeyFormat, VF: Serializer, Y, L> ModificationAwareMap<L> for ObservedMap<KF, VF, Y, L> {
    closed spec fn listener_ids(&self) -> Seq<u64> {
        self.deferred.ids()
    }

    fn modification_listener_add(&mut self, id: u64, listener: L)
        ensures
            final(self).backing() == old(self).backing(),
            final(self).sync_listeners() == old(self).sync_listeners(),
            final(self).deferred_listeners().joined_by(
                &old(self).deferred_listeners(),
                id,
                listener,
            ),
    {
        self.deferred.add(id, listener);
    }

    fn modification_listener_remove(&mut self, id: u64)
        ensures
            final(self).sync_ids() == dropped(old(self).sync_ids(), id),
            final(self).backing() == old(self).backing(),
            final(self).sync_listeners().left_by(&old(self).sync_listeners(), id),
            final(self).deferred_listeners().left_by(&old(self).deferred_listeners(), id),
    {
        self.sync.remove(id);
        self.deferred.remove(id);
    }
}

impl<
    KF: KeyFormat,
    VF: Serializer,
    Y: SynchronousMapModificationListener<KF::Item, VF::Item>,
    L: MapModificationListener<KF::Item, VF::Item>,
> ObservedMap<KF, VF, Y, L> {
    /// Every listener can be called.
    pub open spec fn listens(&self) -> bool {
        self.sync_listeners().listen::<KF::Item, VF::Item>() && self.deferred_listeners().listen::<
            KF::Item,
            VF::Item,
        >()
    }

    /// There is no listener.
    pub open spec fn alone(&self) -> bool {
        self.sync_listeners().ids().len() == 0 && self.deferred_listeners().ids().len() == 0
    }

    /// The listeners are the same.
    pub open spec fn same_listeners(&self, other: &Self) -> bool {
        self.sync_listeners() == other.sync_listeners() && self.deferred_listeners()
            == other.deferred_listeners()
    }

    /// The listeners that cannot wait were told of a change, and where none of them
    /// failed the others too; `r` is the first failure.
    pub open spec fn informed(
        &self,
        key: &KF::Item,
        was: Option<&VF::Item>,
        new: Option<&VF::Item>,
        r: Result<()>,
    ) -> bool {
        ||| r is Err && self.sync_listeners().told(key, was, new, r)
        ||| self.sync_listeners().told(key, was, new, Ok(())) && self.deferred_listeners().told(
            key,
            was,
            new,
            r,
        )
    }

    /// The listeners were told that the value of a key changed, and `r` fails as the first
    /// of them did.
    pub open spec fn announced<T>(
        &self,
        key: Model<KF>,
        was: Option<Model<VF>>,
        new: Option<Model<VF>>,
        r: Result<T>,
    ) -> bool {
        exists|k: &KF::Item, o: Option<&VF::Item>, n: Option<&VF::Item>, t: Result<()>| #[trigger]
            self.informed(k, o, n, t) && k@ == key && opt_ref_model(o) == was && opt_ref_model(n)
                == new && match t {
                Ok(_) => r is Ok,
                Err(e) => r == Err::<T, DbError>(e),
            }
    }

    pub fn new(map: BTreeMap<KF, VF>) -> (r: Self)
        ensures
            r.backing() == map,
            r.alone(),
    {
        ObservedMap { map, sync: Listeners::new(), deferred: Listeners::new() }
    }

    /// A map with listeners that can wait.
    pub fn with_listeners(map: BTreeMap<KF, VF>, listeners: Listeners<L>) -> (r: Self)
        ensures
            r.backing() == map,
            r.sync_listeners().ids().len() == 0,
            r.deferred_listeners() == listeners,
    {
        ObservedMap { map, sync: Listeners::new(), deferred: listeners }
    }

    /// Adds a listener that cannot wait.
    pub fn modification_listener_add_sync(&mut self, id: u64, listener: Y)
        ensures
            final(self).backing() == old(self).backing(),
            final(self).deferred_listeners() == old(self).deferred_listeners(),
            old(self).sync_listeners().ids().contains(id) ==> final(self).sync_listeners() == old(
                self,
            ).sync_listeners(),
            !old(self).sync_listeners().ids().contains(id) ==> final(self).sync_listeners().ids()
                == old(self).sync_listeners().ids().push(id) && final(self).sync_listeners().at(
                old(self).sync_listeners().ids().len() as int,
            ) == listener,
            final(self).sync_listeners().joined_by(&old(self).sync_listeners(), id, listener),
    {
        self.sync.add(id, listener);
    }

    /// The map, to read.
    pub fn map(&self) -> (r: &BTreeMap<KF, VF>)
        ensures
            *r == self.backing(),
    {
        &self.map
    }

    fn tell(
        &self,
        key: &KF::Item,
        was: Option<&VF::Item>,
        new: Option<&VF::Item>,
    ) -> (r: Result<()>)
        requires
            self.listens(),
        ensures
            self.alone() ==> r is Ok,
            self.informed(key, was, new, r),
    {
        match self.sync.fire(key, was, new) {
            Ok(_) => self.deferred.fire(key, was, new),
            Err(e) => Err(e),
        }
    }

    /// The value of a key changed in the map, and the listeners were told; `served` says
    /// that the store carries it out. A failure leaves the map as it was, spoiled, or
    /// changed all the same.
    pub open spec fn turned<T>(
        &self,
        before: &Self,
        a: StoreState,
        b: StoreState,
        k: Model<KF>,
        new: Option<Model<VF>>,
        spent: nat,
        served: bool,
        r: Result<T>,
    ) -> bool {
        let m = before.backing().contents(a.records);
        let m2 = match new {
            Some(v) => m.insert(k, v),
            None => m.remove(k),
        };
        &&& r is Ok || served ==> {
            &&& before.announced(k, lookup(m, k), new, r)
            &&& self.backing().became(&before.backing(), a, b, m2, spent)
        }
        &&& r is Err ==> {
            ||| self.backing().left_alone(&before.backing(), a, b, spent)
            ||| self.backing().became(&before.backing(), a, b, m2, spent)
            ||| new is None && self.backing().taken_or_left(&before.backing(), a, b, k)
        }
        &&& served && before.alone() ==> r is Ok
    }

    /// Every listener hears of a change: with the key, with the value that the map had under
    /// it before and with the value that the map has now.
    pub proof fn law_change_is_heard<T>(
        &self,
        before: &Self,
        a: StoreState,
        b: StoreState,
        k: Model<KF>,
        new: Option<Model<VF>>,
        spent: nat,
        served: bool,
        r: Result<T>,
    ) -> (told: (&KF::Item, Option<&VF::Item>, Option<&VF::Item>))
        requires
            self.turned(before, a, b, k, new, spent, served, r),
            r is Ok,
        ensures
            ({
                let was = before.backing().contents(a.records);
                let now = self.backing().contents(b.records);
                &&& told.0@ == k
                &&& told.1 is Some <==> was.contains_key(k)
                &&& told.1 matches Some(v) ==> v@ == was[k]
                &&& told.2 is Some <==> now.contains_key(k)
                &&& told.2 matches Some(v) ==> v@ == now[k]
                &&& forall|i: int|
                    0 <= i < before.sync_listeners().ids().len() ==> hears_well(
                        #[trigger] before.sync_listeners().at(i),
                        told.0,
                        told.1,
                        told.2,
                    )
                &&& forall|i: int|
                    0 <= i < before.deferred_listeners().ids().len() ==> hears_well(
                        #[trigger] before.deferred_listeners().at(i),
                        told.0,
                        told.1,
                        told.2,
                    )
                &&& forall|x: Model<KF>| #[trigger]
                    was.contains_key(x) && x != k ==> now.contains_key(x) && now[x] == was[x]
                &&& forall|x: Model<KF>| #[trigger]
                    now.contains_key(x) && x != k ==> was.contains_key(x)
            }),
    {
        let was = lookup(before.backing().contents(a.records), k);
        let (key, o, n, t) = choose|
            key: &KF::Item,
            o: Option<&VF::Item>,
            n: Option<&VF::Item>,
            t: Result<()>,
        | #[trigger]
            before.informed(key, o, n, t) && key@ == k && opt_ref_model(o) == was
                && opt_ref_model(n) == new && match t {
                Ok(_) => r is Ok,
                Err(e) => r == Err::<T, DbError>(e),
            };
        assert(t is Ok);
        let x = choose|x: Seq<Result<()>>| #[trigger]
            before.sync_listeners().answered(key, o, n, x) && first_of(x, Ok(()));
        let y = choose|y: Seq<Result<()>>| #[trigger]
            before.deferred_listeners().answered(key, o, n, y) && first_of(y, t);
        assert forall|i: int| 0 <= i < before.sync_listeners().ids().len() implies hears_well(
            #[trigger] before.sync_listeners().at(i),
            key,
            o,
            n,
        ) by {
            assert(x[i] is Ok);
        }
        assert forall|i: int| 0 <= i < before.deferred_listeners().ids().len() implies hears_well(
            #[trigger] before.deferred_listeners().at(i),
            key,
            o,
            n,
        ) by {
            assert(y[i] is Ok);
        }
        (key, o, n)
    }

    /// The `i`-th listener of one sort or the other answers a change with an error.
    pub open spec fn objects_to(
        &self,
        key: &KF::Item,
        o: Option<&VF::Item>,
        n: Option<&VF::Item>,
        i: int,
        e: DbError,
    ) -> bool {
        ||| 0 <= i < self.sync_listeners().ids().len() && call_ensures(
            Y::modify,
            (&self.sync_listeners().at(i), key, o, n, false),
            Err(e),
        )
        ||| 0 <= i < self.deferred_listeners().ids().len() && call_ensures(
            L::modify,
            (&self.deferred_listeners().at(i), key, o, n, false),
            Err(e),
        )
    }

    /// Where the store carries a change out it stands, whatever the listeners answer, and a
    /// failure is the answer of one of them.
    pub proof fn law_failure_does_not_undo<T>(
        &self,
        before: &Self,
        a: StoreState,
        b: StoreState,
        k: Model<KF>,
        new: Option<Model<VF>>,
        spent: nat,
        e: DbError,
        r: Result<T>,
    )
        requires
            self.turned(before, a, b, k, new, spent, true, r),
            r == Err::<T, DbError>(e),
        ensures
            ({
                let now = self.backing().contents(b.records);
                &&& now.contains_key(k) == (new is Some)
                &&& new matches Some(v) ==> now[k] == v
            }),
            !before.alone(),
            exists|key: &KF::Item, o: Option<&VF::Item>, n: Option<&VF::Item>, i: int|
                key@ == k && #[trigger] before.objects_to(key, o, n, i, e),
    {
        let was = lookup(before.backing().contents(a.records), k);
        let (key, o, n, t) = choose|
            key: &KF::Item,
            o: Option<&VF::Item>,
            n: Option<&VF::Item>,
            t: Result<()>,
        | #[trigger]
            before.informed(key, o, n, t) && key@ == k && opt_ref_model(o) == was
                && opt_ref_model(n) == new && match t {
                Ok(_) => r is Ok,
                Err(e) => r == Err::<T, DbError>(e),
            };
        assert(t == Err::<(), DbError>(e));
        if before.sync_listeners().told(key, o, n, t) {
            let x = choose|x: Seq<Result<()>>| #[trigger]
                before.sync_listeners().answered(key, o, n, x) && first_of(x, t);
            let i = choose|i: int| 0 <= i < x.len() && #[trigger] x[i] == t;
            assert(before.objects_to(key, o, n, i, e));
        } else {
            let y = choose|y: Seq<Result<()>>| #[trigger]
                before.deferred_listeners().answered(key, o, n, y) && first_of(y, t);
            let i = choose|i: int| 0 <= i < y.len() && #[trigger] y[i] == t;
            assert(before.objects_to(key, o, n, i, e));
        }
    }

    /// There was nothing to change and nothing to tell.
    pub open spec fn stayed<T>(
        &self,
        before: &Self,
        a: StoreState,
        b: StoreState,
        spent: nat,
        served: bool,
        r: Result<T>,
    ) -> bool {
        &&& r is Ok ==> self.backing().became(
            &before.backing(),
            a,
            b,
            before.backing().contents(a.records),
            spent,
        )
        &&& r is Err ==> {
            let m = before.backing().contents(a.records);
            let now = self.backing().contents(b.records);
            half_done(a, b, before.backing().owned(), self.backing().spoiled(), m, now, m)
        }
        &&& served ==> r is Ok
    }

    /// Puts a value under a key and tells the listeners. The value stands whatever they
    /// answer.
    pub fn put<S: Store>(&mut self, store: &mut S, key: KF::Item, value: VF::Item) -> (r: Result<
        Option<VF::Item>,
    >)
        requires
            old(self).backing().kf().fits(key@),
            old(self).backing().vf().fits(value@),
            old(self).listens(),
        ensures
            final(self).same_listeners(old(self)),
            final(self).backing().same_config(&old(self).backing()),
            old(self).backing().refuses(old(store).state(), r),
            old(self).backing().read_only_in(old(store).state()) ==> {
                let m = old(self).backing().contents(old(store).state().records);
                &&& final(store).state().records == old(store).state().records
                &&& r == Err::<Option<VF::Item>, DbError>(DbError::ReadOnly)
            },
            ({
                let a = old(store).state();
                let b = final(store).state();
                let m = old(self).backing().contents(a.records);
                old(self).backing().can_grow(a.records) ==> {
                    let h = old(self).backing().height() + 2;
                    let served = old(self).backing().can_put(a);
                    &&& r matches Ok(v) ==> opt_model(v) == lookup(m, key@)
                    &&& final(self).turned(old(self), a, b, key@, Some(value@), h, served, r)
                }
            }),
    {
        let k = self.map.key_serializer().dup(&key);
        let v = self.map.value_serializer().dup(&value);
        match self.map.put(store, key, value) {
            Ok(was) => {
                let before = was.as_ref();
                let told = self.tell(&k, before, Some(&v));
                assert(old(self).informed(&k, before, Some(&v), told));
                match told {
                    Ok(_) => Ok(was),
                    Err(e) => Err(e),
                }
            },
            Err(e) => Err(e),
        }
    }

    /// Puts a value under a key and tells the listeners.
    pub fn put_only<S: Store>(&mut self, store: &mut S, key: KF::Item, value: VF::Item) -> (r:
        Result<()>)
        requires
            old(self).backing().kf().fits(key@),
            old(self).backing().vf().fits(value@),
            old(self).listens(),
        ensures
            final(self).same_listeners(old(self)),
            final(self).backing().same_config(&old(self).backing()),
            old(self).backing().refuses(old(store).state(), r),
            old(self).backing().read_only_in(old(store).state()) ==> {
                let m = old(self).backing().contents(old(store).state().records);
                &&& final(store).state().records == old(store).state().records
                &&& r == Err::<(), DbError>(DbError::ReadOnly)
            },
            ({
                let a = old(store).state();
                let b = final(store).state();
                let m = old(self).backing().contents(a.records);
                old(self).backing().can_grow(a.records) ==> {
                    let h = old(self).backing().height() + 2;
                    let served = old(self).backing().can_put(a);
                    final(self).turned(old(self), a, b, key@, Some(value@), h, served, r)
                }
            }),
    {
        let ghost a = store.state();
        let ghost km = key@;
        let ghost vm = value@;
        let put = self.put(store, key, value);
        proof {
            old(self).lemma_announced_too(
                km,
                lookup(old(self).backing().contents(a.records), km),
                Some(vm),
                put,
            );
        }
        match put {
            Ok(_) => Ok(()),
            Err(e) => Err(e),
        }
    }

    /// Puts a value under a key that has none and tells the listeners where it did.
    pub fn put_if_absent<S: Store>(&mut self, store: &mut S, key: KF::Item, value: VF::Item) -> (r:
        Result<Option<VF::Item>>)
        requires
            old(self).backing().kf().fits(key@),
            old(self).backing().vf().fits(value@),
            old(self).listens(),
        ensures
            final(self).same_listeners(old(self)),
            final(self).backing().same_config(&old(self).backing()),
            old(self).backing().refuses(old(store).state(), r),
            old(self).backing().read_only_in(old(store).state()) ==> {
                let m = old(self).backing().contents(old(store).state().records);
                &&& final(store).state().records == old(store).state().records
                &&& m.contains_key(key@) ==> (r matches Ok(v) && opt_model(v) == Some(m[key@]))
                &&& !m.contains_key(key@) ==> r == Err::<Option<VF::Item>, DbError>(DbError::ReadOnly)
            },
            ({
                let a = old(store).state();
                let b = final(store).state();
                let m = old(self).backing().contents(a.records);
                old(self).backing().can_grow(a.records) ==> {
                    let h = old(self).backing().height() + 2;
                    let served = old(self).backing().can_put(a);
                    &&& r matches Ok(v) ==> opt_model(v) == lookup(m, key@)
                    &&& m.contains_key(key@) ==> final(self).stayed(old(self), a, b, h, served, r)
                    &&& !m.contains_key(key@) ==> final(self).turned(
                        old(self),
                        a,
                        b,
                        key@,
                        Some(value@),
                        h,
                        served,
                        r,
                    )
                }
            }),
    {
        let ghost a = store.state();
        let k = self.map.key_serializer().dup(&key);
        let v = self.map.value_serializer().dup(&value);
        match self.map.put_if_absent(store, key, value) {
            Ok(Some(had)) => Ok(Some(had)),
            Ok(None) => {
                let told = self.tell(&k, None, Some(&v));
                assert(old(self).informed(&k, None, Some(&v), told));
                match told {
                    Ok(_) => Ok(None),
                    Err(e) => Err(e),
                }
            },
            Err(e) => {
                proof {
                    if old(self).map.can_grow(a.records) {
                        self.map.lemma_left(&old(self).map, a, store.state(), old(self).map.height() + 2);
                    }
                }
                Err(e)
            },
        }
    }

    /// Removes a key and tells the listeners where it was there.
    pub fn remove<S: Store>(
        &mut self,
        store: &mut S,
        key: &KF::Item,
    ) -> (r: Result<Option<VF::Item>>)
        requires
            old(self).listens(),
        ensures
            final(self).same_listeners(old(self)),
            final(self).backing().same_config(&old(self).backing()),
            old(self).backing().refuses(old(store).state(), r),
            old(self).backing().read_only_in(old(store).state()) ==> {
                let m = old(self).backing().contents(old(store).state().records);
                &&& final(store).state().records == old(store).state().records
                &&& m.contains_key(key@) ==> r == Err::<Option<VF::Item>, DbError>(DbError::ReadOnly)
                &&& !m.contains_key(key@) ==> (r matches Ok(v) && v is None)
            },
            ({
                let a = old(store).state();
                let b = final(store).state();
                let m = old(self).backing().contents(a.records);
                old(self).backing().wf(a.records) ==> {
                    let served = a.readable && a.writable;
                    &&& r matches Ok(v) ==> opt_model(v) == lookup(m, key@)
                    &&& m.contains_key(key@) ==> final(self).turned(
                        old(self),
                        a,
                        b,
                        key@,
                        None,
                        0,
                        served,
                        r,
                    )
                    &&& !m.contains_key(key@) ==> final(self).stayed(old(self), a, b, 0, served, r)
                }
            }),
    {
        let ghost a = store.state();
        let ghost m = self.backing().contents(store.state().records);
        assert(!m.contains_key(key@) ==> m.remove(key@) =~= m);
        match self.map.remove(store, key) {
            Ok(Some(was)) => {
                let told = self.tell(key, Some(&was), None);
                assert(old(self).informed(key, Some(&was), None, told));
                match told {
                    Ok(_) => Ok(Some(was)),
                    Err(e) => Err(e),
                }
            },
            Ok(None) => Ok(None),
            Err(e) => {
                proof {
                    if old(self).map.wf(a.records) {
                        self.map.lemma_spared(&old(self).map, a, store.state(), key@, 0);
                    }
                }
                Err(e)
            },
        }
    }

    /// Removes a key and tells the listeners where it was there; answers whether it was.
    pub fn remove_only<S: Store>(&mut self, store: &mut S, key: &KF::Item) -> (r: Result<bool>)
        requires
            old(self).listens(),
        ensures
            final(self).same_listeners(old(self)),
            final(self).backing().same_config(&old(self).backing()),
            old(self).backing().refuses(old(store).state(), r),
            old(self).backing().read_only_in(old(store).state()) ==> {
                let m = old(self).backing().contents(old(store).state().records);
                &&& final(store).state().records == old(store).state().records
                &&& m.contains_key(key@) ==> r == Err::<bool, DbError>(DbError::ReadOnly)
                &&& !m.contains_key(key@) ==> r == Ok::<bool, DbError>(false)
            },
            ({
                let a = old(store).state();
                let b = final(store).state();
                let m = old(self).backing().contents(a.records);
                old(self).backing().wf(a.records) ==> {
                    let served = a.readable && a.writable;
                    &&& r matches Ok(x) ==> x == m.contains_key(key@)
                    &&& m.contains_key(key@) ==> final(self).turned(
                        old(self),
                        a,
                        b,
                        key@,
                        None,
                        0,
                        served,
                        r,
                    )
                    &&& !m.contains_key(key@) ==> final(self).stayed(old(self), a, b, 0, served, r)
                }
            }),
    {
        let ghost a = store.state();
        let removed = self.remove(store, key);
        proof {
            old(self).lemma_announced_too(
                key@,
                lookup(old(self).backing().contents(a.records), key@),
                None,
                removed,
            );
        }
        match removed {
            Ok(v) => Ok(v.is_some()),
            Err(e) => Err(e),
        }
    }

    /// Removes a key where its value equals `value`, and tells the listeners where it
    /// did; answers whether it did.
    pub fn remove_if<S: Store>(
        &mut self,
        store: &mut S,
        key: &KF::Item,
        value: &VF::Item,
    ) -> (r: Result<bool>)
        requires
            old(self).listens(),
        ensures
            final(self).same_listeners(old(self)),
            final(self).backing().same_config(&old(self).backing()),
            old(self).backing().refuses(old(store).state(), r),
            old(self).backing().read_only_in(old(store).state()) ==> {
                let m = old(self).backing().contents(old(store).state().records);
                let hit = m.contains_key(key@) && m[key@] == value@;
                &&& final(store).state().records == old(store).state().records
                &&& hit ==> r == Err::<bool, DbError>(DbError::ReadOnly)
                &&& !hit ==> r == Ok::<bool, DbError>(false)
            },
            ({
                let a = old(store).state();
                let b = final(store).state();
                let m = old(self).backing().contents(a.records);
                old(self).backing().wf(a.records) ==> {
                    let served = a.readable && a.writable;
                    let hit = m.contains_key(key@) && m[key@] == value@;
                    &&& r matches Ok(x) ==> x == hit
                    &&& hit ==> final(self).turned(old(self), a, b, key@, None, 0, served, r)
                    &&& !hit ==> final(self).stayed(old(self), a, b, 0, served, r)
                }
            }),
    {
        let ghost a = store.state();
        match self.map.remove_if(store, key, value) {
            Ok(true) => {
                let told = self.tell(key, Some(value), None);
                assert(old(self).informed(key, Some(value), None, told));
                match told {
                    Ok(_) => Ok(true),
                    Err(e) => Err(e),
                }
            },
            Ok(false) => Ok(false),
            Err(e) => {
                proof {
                    if old(self).map.wf(a.records) {
                        self.map.lemma_spared(&old(self).map, a, store.state(), key@, 0);
                        if self.map.left_alone(&old(self).map, a, store.state(), 0) {
                            self.map.lemma_left(&old(self).map, a, store.state(), 0);
                        }
                    }
                }
                Err(e)
            },
        }
    }

    /// Gives a key that is there another value and tells the listeners where it did;
    /// answers the former value.
    pub fn replace<S: Store>(
        &mut self,
        store: &mut S,
        key: &KF::Item,
        value: VF::Item,
    ) -> (r: Result<Option<VF::Item>>)
        requires
            old(self).backing().vf().fits(value@),
            old(self).listens(),
        ensures
            final(self).same_listeners(old(self)),
            final(self).backing().same_config(&old(self).backing()),
            old(self).backing().refuses(old(store).state(), r),
            old(self).backing().read_only_in(old(store).state()) ==> {
                let m = old(self).backing().contents(old(store).state().records);
                &&& final(store).state().records == old(store).state().records
                &&& m.contains_key(key@) ==> r == Err::<Option<VF::Item>, DbError>(DbError::ReadOnly)
                &&& !m.contains_key(key@) ==> (r matches Ok(v) && v is None)
            },
            ({
                let a = old(store).state();
                let b = final(store).state();
                let m = old(self).backing().contents(a.records);
                old(self).backing().wf(a.records) ==> {
                    let served = a.readable && a.writable;
                    &&& r matches Ok(v) ==> opt_model(v) == lookup(m, key@)
                    &&& m.contains_key(key@) ==> final(self).turned(
                        old(self),
                        a,
                        b,
                        key@,
                        Some(value@),
                        0,
                        served,
                        r,
                    )
                    &&& !m.contains_key(key@) ==> final(self).stayed(old(self), a, b, 0, served, r)
                }
            }),
    {
        let ghost a = store.state();
        let v = self.map.value_serializer().dup(&value);
        proof {
            self.map.lemma_same(store.state());
        }
        match self.map.replace(store, key, value) {
            Ok(Some(was)) => {
                let told = self.tell(key, Some(&was), Some(&v));
                assert(old(self).informed(key, Some(&was), Some(&v), told));
                match told {
                    Ok(_) => Ok(Some(was)),
                    Err(e) => Err(e),
                }
            },
            Ok(None) => Ok(None),
            Err(e) => {
                proof {
                    if old(self).map.wf(a.records) {
                        self.map.lemma_left(&old(self).map, a, store.state(), 0);
                    }
                }
                Err(e)
            },
        }
    }

    /// Gives a key another value where its value equals `old_value`, and tells the
    /// listeners where it did; answers whether it did.
    pub fn replace_if<S: Store>(
        &mut self,
        store: &mut S,
        key: &KF::Item,
        old_value: &VF::Item,
        new_value: VF::Item,
    ) -> (r: Result<bool>)
        requires
            old(self).backing().vf().fits(new_value@),
            old(self).listens(),
        ensures
            final(self).same_listeners(old(self)),
            final(self).backing().same_config(&old(self).backing()),
            old(self).backing().refuses(old(store).state(), r),
            old(self).backing().read_only_in(old(store).state()) ==> {
                let m = old(self).backing().contents(old(store).state().records);
                let hit = m.contains_key(key@) && m[key@] == old_value@;
                &&& final(store).state().records == old(store).state().records
                &&& hit ==> r == Err::<bool, DbError>(DbError::ReadOnly)
                &&& !hit ==> r == Ok::<bool, DbError>(false)
            },
            ({
                let a = old(store).state();
                let b = final(store).state();
                let m = old(self).backing().contents(a.records);
                old(self).backing().wf(a.records) ==> {
                    let served = a.readable && a.writable;
                    let hit = m.contains_key(key@) && m[key@] == old_value@;
                    &&& r matches Ok(x) ==> x == hit
                    &&& hit ==> final(self).turned(
                        old(self),
                        a,
                        b,
                        key@,
                        Some(new_value@),
                        0,
                        served,
                        r,
                    )
                    &&& !hit ==> final(self).stayed(old(self), a, b, 0, served, r)
                }
            }),
    {
        let ghost a = store.state();
        let v = self.map.value_serializer().dup(&new_value);
        proof {
            self.map.lemma_same(store.state());
        }
        match self.map.replace_if(store, key, old_value, new_value) {
            Ok(true) => {
                let told = self.tell(key, Some(old_value), Some(&v));
                assert(old(self).informed(key, Some(old_value), Some(&v), told));
                match told {
                    Ok(_) => Ok(true),
                    Err(e) => Err(e),
                }
            },
            Ok(false) => Ok(false),
            Err(e) => {
                proof {
                    if old(self).map.wf(a.records) {
                        self.map.lemma_left(&old(self).map, a, store.state(), 0);
                    }
                }
                Err(e)
            },
        }
    }

    /// Takes the entry with the least key of the range out of the map and tells the
    /// listeners where there is one.
    pub fn poll_first_entry<S: Store>(
        &mut self,
        store: &mut S,
        lo: Option<KF::Item>,
        lo_inc: bool,
        hi: Option<KF::Item>,
        hi_inc: bool,
    ) -> (r: Result<Option<(KF::Item, VF::Item)>>)
        requires
            old(self).listens(),
        ensures
            final(self).same_listeners(old(self)),
            final(self).backing().same_config(&old(self).backing()),
            old(self).backing().refuses(old(store).state(), r),
            old(self).backing().read_only_in(old(store).state()) ==> {
                let m = old(self).backing().contents(old(store).state().records);
                let part = ranged(
                    &old(self).backing().kf(),
                    m,
                    opt_model(lo),
                    lo_inc,
                    opt_model(hi),
                    hi_inc,
                );
                &&& final(store).state().records == old(store).state().records
                &&& part =~= Map::empty() ==> (r matches Ok(x) && x is None)
                &&& !(part =~= Map::empty()) ==> r == Err::<Option<(KF::Item, VF::Item)>, DbError>(DbError::ReadOnly)
            },
            ({
                let a = old(store).state();
                let b = final(store).state();
                let m = old(self).backing().contents(a.records);
                old(self).backing().wf(a.records) ==> {
                    let kf = old(self).backing().kf();
                    let part = ranged(&kf, m, opt_model(lo), lo_inc, opt_model(hi), hi_inc);
                    let served = a.readable && a.writable;
                    &&& r matches Ok(None) ==> part =~= Map::empty()
                    &&& r matches Ok(Some(e)) ==> is_least(&kf, part, e.0@) && m[e.0@] == e.1@
                        && final(self).turned(old(self), a, b, e.0@, None, 0, served, r)
                    &&& r is Err ==> half_polled(
                        a,
                        b,
                        old(self).backing().owned(),
                        final(self).backing().spoiled(),
                        m,
                        final(self).backing().contents(b.records),
                        part,
                    )
                    &&& part =~= Map::empty() ==> final(self).stayed(old(self), a, b, 0, served, r)
                    &&& served && !(part =~= Map::empty()) ==> exists|k: Model<KF>| #[trigger]
                        is_least(&kf, part, k) && final(self).turned(
                            old(self),
                            a,
                            b,
                            k,
                            None,
                            0,
                            served,
                            r,
                        )
                }
            }),
    {
        let ghost a = store.state();
        let ghost m = self.map.contents(a.records);
        let ghost part = ranged(
            &self.map.kf(),
            m,
            opt_model(lo),
            lo_inc,
            opt_model(hi),
            hi_inc,
        );
        match self.map.poll_first_entry(store, lo, lo_inc, hi, hi_inc) {
            Ok(Some((k, v))) => {
                let told = self.tell(&k, Some(&v), None);
                assert(old(self).informed(&k, Some(&v), None, told));
                proof {
                    if old(self).map.wf(a.records) {
                        assert(lost_one(m, self.map.contents(store.state().records), part, k@));
                    }
                }
                match told {
                    Ok(_) => Ok(Some((k, v))),
                    Err(e) => Err(e),
                }
            },
            Ok(None) => Ok(None),
            Err(e) => {
                proof {
                    if old(self).map.wf(a.records) {
                        let b = store.state();
                        let was = old(self).map;
                        if self.map.left_alone(&was, a, b, 0) {
                            self.map.lemma_left(&was, a, b, 0);
                        } else {
                            let k = choose|k: Model<KF>| #[trigger]
                                part.contains_key(k) && self.map.taken_or_left(&was, a, b, k);
                            self.map.lemma_spared(&was, a, b, k, 0);
                            let now = self.map.contents(b.records);
                            if now == m.remove(k) {
                                assert(lost_one(m, now, part, k));
                            }
                        }
                    }
                }
                Err(e)
            },
        }
    }

    /// Takes the entry with the least key out of the map and tells the listeners where
    /// there is one.
    pub fn pop_first<S: Store>(&mut self, store: &mut S) -> (r: Result<
        Option<(KF::Item, VF::Item)>,
    >)
        requires
            old(self).listens(),
        ensures
            final(self).same_listeners(old(self)),
            final(self).backing().same_config(&old(self).backing()),
            old(self).backing().refuses(old(store).state(), r),
            old(self).backing().read_only_in(old(store).state()) ==> {
                let m = old(self).backing().contents(old(store).state().records);
                let part = m;
                &&& final(store).state().records == old(store).state().records
                &&& part =~= Map::empty() ==> (r matches Ok(x) && x is None)
                &&& !(part =~= Map::empty()) ==> r == Err::<Option<(KF::Item, VF::Item)>, DbError>(DbError::ReadOnly)
            },
            ({
                let a = old(store).state();
                let b = final(store).state();
                let m = old(self).backing().contents(a.records);
                old(self).backing().wf(a.records) ==> {
                    let kf = old(self).backing().kf();
                    let part = m;
                    let served = a.readable && a.writable;
                    &&& r matches Ok(None) ==> part =~= Map::empty()
                    &&& r matches Ok(Some(e)) ==> is_least(&kf, part, e.0@) && m[e.0@] == e.1@
                        && final(self).turned(old(self), a, b, e.0@, None, 0, served, r)
                    &&& r is Err ==> half_polled(
                        a,
                        b,
                        old(self).backing().owned(),
                        final(self).backing().spoiled(),
                        m,
                        final(self).backing().contents(b.records),
                        part,
                    )
                    &&& part =~= Map::empty() ==> final(self).stayed(old(self), a, b, 0, served, r)
                    &&& served && !(part =~= Map::empty()) ==> exists|k: Model<KF>| #[trigger]
                        is_least(&kf, part, k) && final(self).turned(
                            old(self),
                            a,
                            b,
                            k,
                            None,
                            0,
                            served,
                            r,
                        )
                }
            }),
    {
        let ghost a = store.state();
        let ghost m = self.map.contents(a.records);
        let ghost part = m;
        match self.map.pop_first(store) {
            Ok(Some((k, v))) => {
                let told = self.tell(&k, Some(&v), None);
                assert(old(self).informed(&k, Some(&v), None, told));
                proof {
                    if old(self).map.wf(a.records) {
                        assert(lost_one(m, self.map.contents(store.state().records), part, k@));
                    }
                }
                match told {
                    Ok(_) => Ok(Some((k, v))),
                    Err(e) => Err(e),
                }
            },
            Ok(None) => Ok(None),
            Err(e) => {
                proof {
                    if old(self).map.wf(a.records) {
                        let b = store.state();
                        let was = old(self).map;
                        if self.map.left_alone(&was, a, b, 0) {
                            self.map.lemma_left(&was, a, b, 0);
                        } else {
                            let k = choose|k: Model<KF>| #[trigger]
                                part.contains_key(k) && self.map.taken_or_left(&was, a, b, k);
                            self.map.lemma_spared(&was, a, b, k, 0);
                            let now = self.map.contents(b.records);
                            if now == m.remove(k) {
                                assert(lost_one(m, now, part, k));
                            }
                        }
                    }
                }
                Err(e)
            },
        }
    }

    /// Takes the entry with the greatest key of the range out of the map and tells the
    /// listeners where there is one.
    pub fn poll_last_entry<S: Store>(
        &mut self,
        store: &mut S,
        lo: Option<KF::Item>,
        lo_inc: bool,
        hi: Option<KF::Item>,
        hi_inc: bool,
    ) -> (r: Result<Option<(KF::Item, VF::Item)>>)
        requires
            old(self).listens(),
        ensures
            final(self).same_listeners(old(self)),
            final(self).backing().same_config(&old(self).backing()),
            old(self).backing().refuses(old(store).state(), r),
            old(self).backing().read_only_in(old(store).state()) ==> {
                let m = old(self).backing().contents(old(store).state().records);
                let part = ranged(
                    &old(self).backing().kf(),
                    m,
                    opt_model(lo),
                    lo_inc,
                    opt_model(hi),
                    hi_inc,
                );
                &&& final(store).state().records == old(store).state().records
                &&& part =~= Map::empty() ==> (r matches Ok(x) && x is None)
                &&& !(part =~= Map::empty()) ==> r == Err::<Option<(KF::Item, VF::Item)>, DbError>(DbError::ReadOnly)
            },
            ({
                let a = old(store).state();
                let b = final(store).state();
                let m = old(self).backing().contents(a.records);
                old(self).backing().wf(a.records) ==> {
                    let kf = old(self).backing().kf();
                    let part = ranged(&kf, m, opt_model(lo), lo_inc, opt_model(hi), hi_inc);
                    let served = a.readable && a.writable;
                    &&& r matches Ok(None) ==> part =~= Map::empty()
                    &&& r matches Ok(Some(e)) ==> is_greatest(&kf, part, e.0@) && m[e.0@] == e.1@
                        && final(self).turned(old(self), a, b, e.0@, None, 0, served, r)
                    &&& r is Err ==> half_polled(
                        a,
                        b,
                        old(self).backing().owned(),
                        final(self).backing().spoiled(),
                        m,
                        final(self).backing().contents(b.records),
                        part,
                    )
                    &&& part =~= Map::empty() ==> final(self).stayed(old(self), a, b, 0, served, r)
                    &&& served && !(part =~= Map::empty()) ==> exists|k: Model<KF>| #[trigger]
                        is_greatest(&kf, part, k) && final(self).turned(
                            old(self),
                            a,
                            b,
                            k,
                            None,
                            0,
                            served,
                            r,
                        )
                }
            }),
    {
        let ghost a = store.state();
        let ghost m = self.map.contents(a.records);
        let ghost part = ranged(
            &self.map.kf(),
            m,
            opt_model(lo),
            lo_inc,
            opt_model(hi),
            hi_inc,
        );
        match self.map.poll_last_entry(store, lo, lo_inc, hi, hi_inc) {
            Ok(Some((k, v))) => {
                let told = self.tell(&k, Some(&v), None);
                assert(old(self).informed(&k, Some(&v), None, told));
                proof {
                    if old(self).map.wf(a.records) {
                        assert(lost_one(m, self.map.contents(store.state().records), part, k@));
                    }
                }
                match told {
                    Ok(_) => Ok(Some((k, v))),
                    Err(e) => Err(e),
                }
            },
            Ok(None) => Ok(None),
            Err(e) => {
                proof {
                    if old(self).map.wf(a.records) {
                        let b = store.state();
                        let was = old(self).map;
                        if self.map.left_alone(&was, a, b, 0) {
                            self.map.lemma_left(&was, a, b, 0);
                        } else {
                            let k = choose|k: Model<KF>| #[trigger]
                                part.contains_key(k) && self.map.taken_or_left(&was, a, b, k);
                            self.map.lemma_spared(&was, a, b, k, 0);
                            let now = self.map.contents(b.records);
                            if now == m.remove(k) {
                                assert(lost_one(m, now, part, k));
                            }
                        }
                    }
                }
                Err(e)
            },
        }
    }

    /// Takes the entry with the greatest key out of the map and tells the listeners where
    /// there is one.
    pub fn pop_last<S: Store>(&mut self, store: &mut S) -> (r: Result<
        Option<(KF::Item, VF::Item)>,
    >)
        requires
            old(self).listens(),
        ensures
            final(self).same_listeners(old(self)),
            final(self).backing().same_config(&old(self).backing()),
            old(self).backing().refuses(old(store).state(), r),
            old(self).backing().read_only_in(old(store).state()) ==> {
                let m = old(self).backing().contents(old(store).state().records);
                let part = m;
                &&& final(store).state().records == old(store).state().records
                &&& part =~= Map::empty() ==> (r matches Ok(x) && x is None)
                &&& !(part =~= Map::empty()) ==> r == Err::<Option<(KF::Item, VF::Item)>, DbError>(DbError::ReadOnly)
            },
            ({
                let a = old(store).state();
                let b = final(store).state();
                let m = old(self).backing().contents(a.records);
                old(self).backing().wf(a.records) ==> {
                    let kf = old(self).backing().kf();
                    let part = m;
                    let served = a.readable && a.writable;
                    &&& r matches Ok(None) ==> part =~= Map::empty()
                    &&& r matches Ok(Some(e)) ==> is_greatest(&kf, part, e.0@) && m[e.0@] == e.1@
                        && final(self).turned(old(self), a, b, e.0@, None, 0, served, r)
                    &&& r is Err ==> half_polled(
                        a,
                        b,
                        old(self).backing().owned(),
                        final(self).backing().spoiled(),
                        m,
                        final(self).backing().contents(b.records),
                        part,
                    )
                    &&& part =~= Map::empty() ==> final(self).stayed(old(self), a, b, 0, served, r)
                    &&& served && !(part =~= Map::empty()) ==> exists|k: Model<KF>| #[trigger]
                        is_greatest(&kf, part, k) && final(self).turned(
                            old(self),
                            a,
                            b,
                            k,
                            None,
                            0,
                            served,
                            r,
                        )
                }
            }),
    {
        let ghost a = store.state();
        let ghost m = self.map.contents(a.records);
        let ghost part = m;
        match self.map.pop_last(store) {
            Ok(Some((k, v))) => {
                let told = self.tell(&k, Some(&v), None);
                assert(old(self).informed(&k, Some(&v), None, told));
                proof {
                    if old(self).map.wf(a.records) {
                        assert(lost_one(m, self.map.contents(store.state().records), part, k@));
                    }
                }
                match told {
                    Ok(_) => Ok(Some((k, v))),
                    Err(e) => Err(e),
                }
            },
            Ok(None) => Ok(None),
            Err(e) => {
                proof {
                    if old(self).map.wf(a.records) {
                        let b = store.state();
                        let was = old(self).map;
                        if self.map.left_alone(&was, a, b, 0) {
                            self.map.lemma_left(&was, a, b, 0);
                        } else {
                            let k = choose|k: Model<KF>| #[trigger]
                                part.contains_key(k) && self.map.taken_or_left(&was, a, b, k);
                            self.map.lemma_spared(&was, a, b, k, 0);
                            let now = self.map.contents(b.records);
                            if now == m.remove(k) {
                                assert(lost_one(m, now, part, k));
                            }
                        }
                    }
                }
                Err(e)
            },
        }
    }

    /// What was announced of one answer was announced of any with the same outcome.
    proof fn lemma_announced_too<T>(
        &self,
        key: Model<KF>,
        was: Option<Model<VF>>,
        new: Option<Model<VF>>,
        r: Result<T>,
    )
        ensures
            self.announced(key, was, new, r) && r is Ok ==> self.announced(
                key,
                was,
                new,
                Ok::<(), DbError>(()),
            ) && self.announced(key, was, new, Ok::<bool, DbError>(true)) && self.announced(
                key,
                was,
                new,
                Ok::<bool, DbError>(false),
            ),
            r matches Err(e) ==> self.announced(key, was, new, r) ==> self.announced(
                key,
                was,
                new,
                Err::<(), DbError>(e),
            ) && self.announced(key, was, new, Err::<bool, DbError>(e)),
    {
        if self.announced(key, was, new, r) {
            let (k, o, n, t) = choose|
                k: &KF::Item,
                o: Option<&VF::Item>,
                n: Option<&VF::Item>,
                t: Result<()>,
            | #[trigger]
                self.informed(k, o, n, t) && k@ == key && opt_ref_model(o) == was
                    && opt_ref_model(n)
                    == new && match t {
                    Ok(_) => r is Ok,
                    Err(e) => r == Err::<T, DbError>(e),
                };
            assert(self.informed(k, o, n, t));
        }
    }

    /// Removes every entry, one after the other, and tells the listeners of each.
    pub fn clear<S: Store>(&mut self, store: &mut S) -> (r: Result<()>)
        requires
            old(self).listens(),
        ensures
            final(self).same_listeners(old(self)),
            final(self).backing().same_config(&old(self).backing()),
            old(self).backing().refuses(old(store).state(), r),
            old(self).backing().read_only_in(old(store).state()) ==> {
                let m = old(self).backing().contents(old(store).state().records);
                &&& final(store).state().records == old(store).state().records
                &&& m =~= Map::empty() ==> r is Ok
                &&& !(m =~= Map::empty()) ==> r == Err::<(), DbError>(DbError::ReadOnly)
            },
            ({
                let a = old(store).state();
                let b = final(store).state();
                let m = old(self).backing().contents(a.records);
                old(self).backing().wf(a.records) ==> {
                    &&& a.readable && a.writable && old(self).alone() ==> r is Ok
                    &&& r is Ok ==> {
                        &&& final(self).backing().became(
                            &old(self).backing(),
                            a,
                            b,
                            Map::empty(),
                            0,
                        )
                        &&& forall|k: Model<KF>| #[trigger]
                            m.contains_key(k) ==> old(self).announced(
                                k,
                                Some(m[k]),
                                None,
                                Ok::<(), DbError>(()),
                            )
                    }
                }
            }),
    {
        let ghost a = store.state();
        let ghost m = self.backing().contents(a.records);
        let ghost good = self.backing().wf(a.records);
        let ghost ro = self.backing().read_only_in(a);
        proof {
            self.map.lemma_same(a);
            if good {
                self.map.lemma_unchanged(a);
            }
        }
        let keys = match self.map.every_key(store) {
            Ok(v) => v,
            Err(e) => {
                return Err(e);
            },
        };
        let ghost ks = models(keys@);
        let mut i: usize = 0;
        while i < keys.len()
            invariant
                !old(self).backing().spoiled() && !a.closed,
                old(self).listens(),
                i <= keys@.len(),
                ks == models(keys@),
                a == old(store).state(),
                m == old(self).backing().contents(a.records),
                good == old(self).backing().wf(a.records),
                ro == old(self).backing().read_only_in(a),
                ro ==> good && i == 0 && *self == *old(self) && *store == *old(store),
                good ==> lists_keys(&old(self).backing().kf(), ks, m),
                self.same_listeners(old(self)),
                self.backing().same_config(&old(self).backing()),
                good ==> {
                    let now = self.backing().contents(store.state().records);
                    &&& self.backing().became(&old(self).backing(), a, store.state(), now, 0)
                    &&& now.submap_of(m)
                    &&& forall|k: Model<KF>| #[trigger]
                        now.contains_key(k) ==> exists|x: int|
                            i <= x < ks.len() && #[trigger] ks[x] == k
                    &&& forall|k: Model<KF>| #[trigger]
                        m.contains_key(k) && !now.contains_key(k) ==> old(self).announced(
                            k,
                            Some(m[k]),
                            None,
                            Ok::<(), DbError>(()),
                        )
                },
            decreases keys@.len() - i,
        {
            let ghost b = store.state();
            let ghost before = *self;
            let ghost then = self.backing().contents(b.records);
            assert(ks[i as int] == keys@[i as int]@);
            let removed = self.remove(store, &keys[i]);
            proof {
                BTreeMap::lemma_same_config(
                    &old(self).backing(),
                    &before.backing(),
                    &self.backing(),
                );
                before.lemma_announced_too(
                    ks[i as int],
                    lookup(then, ks[i as int]),
                    None,
                    removed,
                );
                before.lemma_same_audience(
                    old(self),
                    ks[i as int],
                    lookup(then, ks[i as int]),
                    None,
                    Ok::<(), DbError>(()),
                );
            }
            match removed {
                Ok(_) => {},
                Err(e) => {
                    return Err(e);
                },
            }
            proof {
                if good {
                    self.backing().lemma_became_chain(
                        &before.backing(),
                        &old(self).backing(),
                        a,
                        b,
                        store.state(),
                    );
                    let now = self.backing().contents(store.state().records);
                    assert forall|k: Model<KF>| #[trigger] now.contains_key(k)
                        implies exists|x: int|
                        i + 1 <= x < ks.len() && #[trigger] ks[x] == k by {
                        assert(then.contains_key(k));
                        let x = choose|x: int| i <= x < ks.len() && #[trigger] ks[x] == k;
                        assert(x != i);
                        assert(ks[x] == k);
                    }
                    assert forall|k: Model<KF>| #[trigger] m.contains_key(k) && !now.contains_key(
                        k,
                    ) implies old(self).announced(k, Some(m[k]), None, Ok::<(), DbError>(())) by {
                        if then.contains_key(k) {
                            assert(k == ks[i as int]);
                        }
                    }
                }
            }
            i = i + 1;
        }
        proof {
            if good {
                assert(self.backing().contents(store.state().records) =~= Map::empty());
            }
        }
        Ok(())
    }

    /// The same listeners hear the same.
    proof fn lemma_same_audience<T>(
        &self,
        other: &Self,
        key: Model<KF>,
        was: Option<Model<VF>>,
        new: Option<Model<VF>>,
        r: Result<T>,
    )
        requires
            self.same_listeners(other),
        ensures
            self.announced(key, was, new, r) ==> other.announced(key, was, new, r),
    {
        if self.announced(key, was, new, r) {
            let (k, o, n, t) = choose|
                k: &KF::Item,
                o: Option<&VF::Item>,
                n: Option<&VF::Item>,
                t: Result<()>,
            | #[trigger]
                self.informed(k, o, n, t) && k@ == key && opt_ref_model(o) == was
                    && opt_ref_model(n)
                    == new && match t {
                    Ok(_) => r is Ok,
                    Err(e) => r == Err::<T, DbError>(e),
                };
            assert(other.informed(k, o, n, t));
        }
    }
}

impl<
    KF: KeyFormat,
    VF: Serializer,
    Y: SynchronousMapModificationListener<KF::Item, VF::Item>,
    L: MapModificationListener<KF::Item, VF::Item>,
> OrderedMapAdapter for ObservedMap<KF, VF, Y, L> {
    type KF = KF;

    type VF = VF;

    open spec fn format(&self) -> KF {
        self.backing().kf()
    }

    open spec fn values(&self) -> VF {
        self.backing().vf()
    }

    open spec fn holds(&self, records: Records) -> bool {
        self.backing().wf(records)
    }

    open spec fn entries_of(&self, records: Records) -> Map<Model<KF>, Model<VF>> {
        self.backing().contents(records)
    }

    open spec fn recids(&self) -> Set<u64> {
        self.backing().owned()
    }

    open spec fn broken(&self) -> bool {
        self.backing().spoiled()
    }

    open spec fn attended(&self) -> bool {
        self.listens()
    }

    open spec fn willing(&self) -> bool {
        self.alone()
    }

    open spec fn can_take(&self, records: Records) -> bool {
        self.backing().can_grow(records)
    }

    open spec fn put_ready(&self, st: StoreState) -> bool {
        self.backing().can_put(st) && self.alone()
    }

    open spec fn changed(
        &self,
        before: &Self,
        a: StoreState,
        b: StoreState,
        m: Map<Model<KF>, Model<VF>>,
        spent: nat,
    ) -> bool {
        self.same_listeners(before) && self.backing().became(&before.backing(), a, b, m, spent)
    }

    open spec fn put_cost(&self) -> nat {
        self.backing().height() + 2
    }

    open spec fn noticed(
        &self,
        k: Model<KF>,
        was: Option<Model<VF>>,
        new: Option<Model<VF>>,
    ) -> bool {
        self.announced(k, was, new, Ok::<(), DbError>(()))
    }

    proof fn changed_means(
        &self,
        before: &Self,
        a: StoreState,
        b: StoreState,
        m: Map<Model<KF>, Model<VF>>,
        spent: nat,
    ) {
        self.map.lemma_config(&before.map);
        assert forall|k: Model<KF>, w: Option<Model<VF>>, n: Option<Model<VF>>| #[trigger]
            self.noticed(k, w, n) == before.noticed(k, w, n) by {
            self.lemma_same_audience(before, k, w, n, Ok::<(), DbError>(()));
            before.lemma_same_audience(self, k, w, n, Ok::<(), DbError>(()));
        }
    }

    proof fn changed_twice(
        &self,
        mid: &Self,
        before: &Self,
        a: StoreState,
        b: StoreState,
        c: StoreState,
    ) {
        self.map.lemma_became_chain(&mid.map, &before.map, a, b, c);
    }

    proof fn unchanged(&self, a: StoreState) {
        self.map.lemma_unchanged(a);
        self.map.lemma_finite(a.records);
    }

    proof fn put_ready_means(&self, st: StoreState) {
    }

    fn key_format(&self) -> &KF {
        self.map.key_serializer()
    }

    fn compare(&self, a: &KF::Item, b: &KF::Item) -> Ordering {
        OrderedMapAdapter::compare(&self.map, a, b)
    }

    fn natural_order(&self) -> bool {
        OrderedMapAdapter::natural_order(&self.map)
    }

    fn value_equals(&self, a: &VF::Item, b: &VF::Item) -> bool {
        self.map.value_equals(a, b)
    }

    fn get<S: Store>(&self, store: &S, k: &KF::Item) -> Result<Option<VF::Item>> {
        self.map.get(store, k)
    }

    fn contains_key<S: Store>(&self, store: &S, k: &KF::Item) -> Result<bool> {
        self.map.contains_key(store, k)
    }

    fn put<S: Store>(&mut self, store: &mut S, k: KF::Item, v: VF::Item) -> Result<
        Option<VF::Item>,
    > {
        let ghost a = store.state();
        let r = ObservedMap::put(self, store, k, v);
        proof {
            self.map.lemma_config(&old(self).map);
            if old(self).map.can_grow(a.records) && r is Err {
                let b = store.state();
                let was = old(self).map;
                if self.map.left_alone(&was, a, b, old(self).map.height() + 2) {
                    self.map.lemma_left(&was, a, b, old(self).map.height() + 2);
                }
            }
        }
        r
    }

    fn put_if_absent<S: Store>(&mut self, store: &mut S, k: KF::Item, v: VF::Item) -> Result<
        Option<VF::Item>,
    > {
        let ghost a = store.state();
        let r = ObservedMap::put_if_absent(self, store, k, v);
        proof {
            self.map.lemma_config(&old(self).map);
            if old(self).map.can_grow(a.records) && r is Err {
                let b = store.state();
                let was = old(self).map;
                if self.map.left_alone(&was, a, b, old(self).map.height() + 2) {
                    self.map.lemma_left(&was, a, b, old(self).map.height() + 2);
                }
            }
        }
        r
    }

    fn remove<S: Store>(&mut self, store: &mut S, k: &KF::Item) -> Result<Option<VF::Item>> {
        let ghost m = self.map.contents(store.state().records);
        assert(!m.contains_key(k@) ==> m.remove(k@) =~= m);
        let ghost a = store.state();
        let r = ObservedMap::remove(self, store, k);
        proof {
            self.map.lemma_config(&old(self).map);
            if old(self).map.wf(a.records) && r is Err {
                let b = store.state();
                let was = old(self).map;
                if self.map.left_alone(&was, a, b, 0) {
                    self.map.lemma_left(&was, a, b, 0);
                } else if self.map.taken_or_left(&was, a, b, k@) {
                    self.map.lemma_spared(&was, a, b, k@, 0);
                }
            }
        }
        r
    }

    fn remove_if<S: Store>(&mut self, store: &mut S, k: &KF::Item, v: &VF::Item) -> Result<bool> {
        let ghost a = store.state();
        let r = ObservedMap::remove_if(self, store, k, v);
        proof {
            self.map.lemma_config(&old(self).map);
            if old(self).map.wf(a.records) && r is Err {
                let b = store.state();
                let was = old(self).map;
                if self.map.left_alone(&was, a, b, 0) {
                    self.map.lemma_left(&was, a, b, 0);
                } else if self.map.taken_or_left(&was, a, b, k@) {
                    self.map.lemma_spared(&was, a, b, k@, 0);
                }
            }
        }
        r
    }

    fn replace<S: Store>(&mut self, store: &mut S, k: &KF::Item, v: VF::Item) -> Result<
        Option<VF::Item>,
    > {
        let ghost a = store.state();
        let ghost vm = v@;
        let r = ObservedMap::replace(self, store, k, v);
        proof {
            old(self).lemma_announced_too(
                k@,
                lookup(old(self).map.contents(a.records), k@),
                Some(vm),
                r,
            );
            let held = old(self).map.contents(a.records);
            if old(self).map.wf(a.records) && r is Ok && held.contains_key(k@) {
                assert(lookup(held, k@) == Some(held[k@]));
                assert(old(self).announced(k@, Some(held[k@]), Some(vm), r));
                assert(old(self).noticed(k@, Some(held[k@]), Some(vm)));
            }
            self.map.lemma_config(&old(self).map);
            if old(self).map.wf(a.records) && r is Err {
                let b = store.state();
                let was = old(self).map;
                if self.map.left_alone(&was, a, b, 0) {
                    self.map.lemma_left(&was, a, b, 0);
                }
            }
        }
        r
    }

    fn replace_if<S: Store>(
        &mut self,
        store: &mut S,
        k: &KF::Item,
        ov: &VF::Item,
        nv: VF::Item,
    ) -> Result<bool> {
        let ghost a = store.state();
        let r = ObservedMap::replace_if(self, store, k, ov, nv);
        proof {
            self.map.lemma_config(&old(self).map);
            if old(self).map.wf(a.records) && r is Err {
                let b = store.state();
                let was = old(self).map;
                if self.map.left_alone(&was, a, b, 0) {
                    self.map.lemma_left(&was, a, b, 0);
                }
            }
        }
        r
    }

    fn first_range<S: Store>(
        &self,
        store: &S,
        lo: Option<KF::Item>,
        lo_inc: bool,
        hi: Option<KF::Item>,
        hi_inc: bool,
    ) -> Result<Option<(KF::Item, VF::Item)>> {
        OrderedMapAdapter::first_range(&self.map, store, lo, lo_inc, hi, hi_inc)
    }

    fn last_range<S: Store>(
        &self,
        store: &S,
        lo: Option<KF::Item>,
        lo_inc: bool,
        hi: Option<KF::Item>,
        hi_inc: bool,
    ) -> Result<Option<(KF::Item, VF::Item)>> {
        OrderedMapAdapter::last_range(&self.map, store, lo, lo_inc, hi, hi_inc)
    }

    fn entry_iter_range<S: Store>(
        &self,
        store: &S,
        lo: Option<KF::Item>,
        lo_inc: bool,
        hi: Option<KF::Item>,
        hi_inc: bool,
    ) -> Result<Vec<(KF::Item, VF::Item)>> {
        OrderedMapAdapter::entry_iter_range(&self.map, store, lo, lo_inc, hi, hi_inc)
    }

    fn descending_entry_iter_range<S: Store>(
        &self,
        store: &S,
        lo: Option<KF::Item>,
        lo_inc: bool,
        hi: Option<KF::Item>,
        hi_inc: bool,
    ) -> Result<Vec<(KF::Item, VF::Item)>> {
        OrderedMapAdapter::descending_entry_iter_range(&self.map, store, lo, lo_inc, hi, hi_inc)
    }

    fn size_long_range<S: Store>(
        &self,
        store: &S,
        lo: Option<KF::Item>,
        lo_inc: bool,
        hi: Option<KF::Item>,
        hi_inc: bool,
    ) -> Result<u64> {
        OrderedMapAdapter::size_long_range(&self.map, store, lo, lo_inc, hi, hi_inc)
    }

    fn poll_first_range<S: Store>(
        &mut self,
        store: &mut S,
        lo: Option<KF::Item>,
        lo_inc: bool,
        hi: Option<KF::Item>,
        hi_inc: bool,
    ) -> Result<Option<(KF::Item, VF::Item)>> {
        let r = ObservedMap::poll_first_entry(self, store, lo, lo_inc, hi, hi_inc);
        proof {
            self.map.lemma_config(&old(self).map);
        }
        r
    }

    fn poll_last_range<S: Store>(
        &mut self,
        store: &mut S,
        lo: Option<KF::Item>,
        lo_inc: bool,
        hi: Option<KF::Item>,
        hi_inc: bool,
    ) -> Result<Option<(KF::Item, VF::Item)>> {
        let r = ObservedMap::poll_last_entry(self, store, lo, lo_inc, hi, hi_inc);
        proof {
            self.map.lemma_config(&old(self).map);
        }
        r
    }
}

impl<
    KF: KeyFormat,
    VF: Serializer,
    Y: SynchronousMapModificationListener<KF::Item, VF::Item>,
    L: MapModificationListener<KF::Item, VF::Item>,
> ObservedMap<KF, VF, Y, L> {
    /// A view of the whole map; what is changed through it is told.
    pub fn view(&self) -> (r: RangeView<Self>)
        ensures
            r.low() is None,
            r.high() is None,
            !r.reversed(),
            forall|k: Model<KF>| #[trigger] r.shows(self, k),
    {
        RangeView::full(self)
    }
}

/// Removing a listener takes one number out where it is there, and leaves the others in
/// their order; a number that is not there changes nothing.
pub proof fn law_listener_removed(ids: Seq<u64>, id: u64, other: u64)
    requires
        ids.no_duplicates(),
    ensures
        !dropped(ids, id).contains(id),
        other != id ==> dropped(ids, id).contains(other) == ids.contains(other),
        !ids.contains(id) ==> dropped(ids, id) == ids,
        ids.contains(id) ==> dropped(ids, id).len() == ids.len() - 1,
        dropped(ids, id).no_duplicates(),
{
    if ids.contains(id) {
        ids.index_of_first_ensures(id);
        let p = ids.index_of_first(id).unwrap();
        let t = ids.remove(p);
        assert forall|i: int| 0 <= i < t.len() implies #[trigger] t[i] == ids[if i < p {
            i
        } else {
            i + 1
        }] by {}
        if t.contains(id) {
            let i = choose|i: int| 0 <= i < t.len() && t[i] == id;
        }
        if other != id && ids.contains(other) {
            let j = choose|j: int| 0 <= j < ids.len() && ids[j] == other;
            assert(t[if j < p {
                j
            } else {
                j - 1
            }] == other);
        }
        if t.contains(other) {
            let i = choose|i: int| 0 <= i < t.len() && t[i] == other;
            assert(ids[if i < p {
                i
            } else {
                i + 1
            }] == other);
        }
    }
}

/// Of the answers of all listeners the first that is a failure is the answer; where none
/// failed it is success.
pub proof fn law_first_failure(answers: Seq<Result<()>>, r: Result<()>, i: int)
    requires
        first_of(answers, r),
        0 <= i < answers.len(),
    ensures
        r is Ok ==> answers[i] is Ok,
        answers[i] is Err && (forall|j: int| 0 <= j < i ==> #[trigger] answers[j] is Ok) ==> r
            == answers[i],
{
    if r is Err && answers[i] is Err && (forall|j: int| 0 <= j < i ==> #[trigger] answers[j] is Ok) {
        let k = choose|k: int|
            0 <= k < answers.len() && #[trigger] answers[k] == r && forall|j: int|
                0 <= j < k ==> #[trigger] answers[j] is Ok;
        if k < i {
            assert(answers[k] is Ok);
        }
        if i < k {
            assert(answers[i] is Ok);
        }
    }
}

} // verus!
