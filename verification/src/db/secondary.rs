//! Containers that bindings keep up to date: in memory, or in a store.

use vstd::prelude::*;
use crate::btree::contents::lists;
use crate::btree::map::write::{frames, spares};
use crate::btree::map::{lookup, BTreeMap};
use crate::btree::range::{entry_models, lemma_lists_len, lists_keys};
use crate::db::set::{NoValue, NoValueFormat};
use crate::error::{DbError, Result};
use crate::ser::{group_key_order, models, KeyFormat, Model, Serializer};
use crate::store::{keeps_state, opt_model, Records, Store, StoreState};

verus! {

// ---------------------------------------------------------------- in memory

/// A sorted map in memory.
pub struct SecondaryMap<KF: KeyFormat, VF: Serializer> {
    key_format: KF,
    value_format: VF,
    entries: Vec<(KF::Item, VF::Item)>,
    held: Ghost<Map<Model<KF>, Model<VF>>>,
}

impl<KF: KeyFormat, VF: Serializer> View for SecondaryMap<KF, VF> {
    type V = Map<Model<KF>, Model<VF>>;

    closed spec fn view(&self) -> Map<Model<KF>, Model<VF>> {
        self.held@
    }
}

impl<KF: KeyFormat, VF: Serializer> SecondaryMap<KF, VF> {
    /// The entries list the map in order.
    pub closed spec fn wf(&self) -> bool {
        lists(&self.key_format, entry_models(self.entries@), self.held@)
    }

    pub closed spec fn kf(&self) -> KF {
        self.key_format
    }

    pub closed spec fn vf(&self) -> VF {
        self.value_format
    }

    /// An empty map.
    pub fn new(key_format: KF, value_format: VF) -> (r: Self)
        ensures
            r.wf(),
            r@ == Map::<Model<KF>, Model<VF>>::empty(),
            r.kf() == key_format,
            r.vf() == value_format,
    {
        SecondaryMap { key_format, value_format, entries: Vec::new(), held: Ghost(Map::empty()) }
    }

    fn find(&self, k: &KF::Item) -> (r: std::result::Result<usize, usize>)
        ensures
            match r {
                Ok(p) => p < self.entries@.len() && self.entries@[p as int].0@ == k@,
                Err(p) => p <= self.entries@.len() && (self.wf() ==> parts_at(
                    &self.key_format,
                    entry_models(self.entries@),
                    k@,
                    p as int,
                )),
            },
    {
        let ghost e = entry_models(self.entries@);
        let mut lo: usize = 0;
        let mut hi: usize = self.entries.len();
        while lo < hi
            invariant
                lo <= hi <= self.entries@.len(),
                e == entry_models(self.entries@),
                self.wf() ==> forall|i: int| 0 <= i < lo
                    ==> self.key_format.lt((#[trigger] e[i]).0, k@),
                self.wf() ==> forall|i: int|
                    hi <= i < e.len() ==> self.key_format.lt(k@, (#[trigger] e[i]).0),
            decreases hi - lo,
        {
            broadcast use group_key_order;

            let mid: usize = lo + (hi - lo) / 2;
            assert(e[mid as int].0 == self.entries@[mid as int].0@);
            if self.key_format.less(&self.entries[mid].0, k) {
                lo = mid + 1;
            } else if self.key_format.less(k, &self.entries[mid].0) {
                hi = mid;
            } else {
                return Ok(mid);
            }
        }
        Err(lo)
    }

    /// The value of a key.
    pub fn get(&self, k: &KF::Item) -> (r: Option<VF::Item>)
        ensures
            self.wf() ==> opt_model(r) == lookup(self@, k@),
    {
        let ghost e = entry_models(self.entries@);
        match self.find(k) {
            Ok(p) => {
                assert(e[p as int] == (self.entries@[p as int].0@, self.entries@[p as int].1@));
                Some(self.value_format.dup(&self.entries[p].1))
            },
            Err(p) => {
                proof {
                    if self.wf() {
                        lemma_not_listed(&self.key_format, e, self@, k@, p as int);
                    }
                }
                None
            },
        }
    }

    pub fn contains_key(&self, k: &KF::Item) -> (r: bool)
        ensures
            self.wf() ==> r == self@.contains_key(k@),
    {
        self.get(k).is_some()
    }

    pub fn len(&self) -> (r: usize)
        ensures
            self.wf() ==> r == self@.len(),
    {
        proof {
            if self.wf() {
                lemma_lists_len(&self.key_format, entry_models(self.entries@), self@);
            }
        }
        self.entries.len()
    }

    pub fn is_empty(&self) -> (r: bool)
        ensures
            self.wf() ==> r == (self@ == Map::<Model<KF>, Model<VF>>::empty()),
    {
        proof {
            let e = entry_models(self.entries@);
            if self.wf() {
                if e.len() == 0 {
                    assert(self@ =~= Map::empty());
                } else {
                    assert(self@.contains_key(e[0].0));
                }
            }
        }
        self.entries.len() == 0
    }

    /// The keys in order.
    pub fn keys(&self) -> (r: Vec<KF::Item>)
        ensures
            self.wf() ==> lists_keys(&self.kf(), models(r@), self@),
    {
        let ghost e = entry_models(self.entries@);
        let mut out: Vec<KF::Item> = Vec::new();
        let mut i: usize = 0;
        while i < self.entries.len()
            invariant
                i <= self.entries@.len(),
                out@.len() == i,
                forall|j: int| 0 <= j < i ==> (#[trigger] out@[j])@ == self.entries@[j].0@,
            decreases self.entries@.len() - i,
        {
            out.push(self.key_format.dup(&self.entries[i].0));
            i = i + 1;
        }
        proof {
            if self.wf() {
                let ks = models(out@);
                assert forall|x: int| 0 <= x < ks.len() implies #[trigger] ks[x] == e[x].0 by {}
                assert forall|x: int, y: int| #![trigger ks[x], ks[y]] 0 <= x < y < ks.len()
                    implies self.key_format.lt(
                    ks[x],
                    ks[y],
                ) by {
                    assert(self.key_format.lt(e[x].0, e[y].0));
                }
                assert forall|x: int| 0 <= x < ks.len()
                    implies self@.contains_key(#[trigger] ks[x]) by {
                    assert(self@.contains_key(e[x].0));
                }
                assert forall|k: Model<KF>| #[trigger] self@.contains_key(k) implies exists|x: int|
                    0 <= x < ks.len() && #[trigger] ks[x] == k by {
                    let x = choose|x: int| 0 <= x < e.len() && (#[trigger] e[x]).0 == k;
                    assert(ks[x] == k);
                }
            }
        }
        out
    }

    /// Puts a value under a key; answers the value that it replaced.
    pub fn put(&mut self, k: KF::Item, v: VF::Item) -> (r: Option<VF::Item>)
        ensures
            final(self).kf() == old(self).kf(),
            final(self).vf() == old(self).vf(),
            old(self).wf() ==> {
                &&& final(self).wf()
                &&& final(self)@ == old(self)@.insert(k@, v@)
                &&& opt_model(r) == lookup(old(self)@, k@)
            },
    {
        let ghost e = entry_models(self.entries@);
        let ghost km = k@;
        let ghost vm = v@;
        let ghost m = self.held@;
        match self.find(&k) {
            Ok(p) => {
                let before = self.value_format.dup(&self.entries[p].1);
                assert(e[p as int] == (self.entries@[p as int].0@, self.entries@[p as int].1@));
                self.entries.set(p, (k, v));
                proof {
                    if old(self).wf() {
                        lemma_lists_set(&self.key_format, e, m, p as int, vm);
                        assert(entry_models(self.entries@) =~= e.update(p as int, (km, vm)));
                    }
                    self.held@ = m.insert(km, vm);
                }
                Some(before)
            },
            Err(p) => {
                self.entries.insert(p, (k, v));
                proof {
                    if old(self).wf() {
                        lemma_lists_insert(&self.key_format, e, m, p as int, km, vm);
                        assert(entry_models(self.entries@) =~= e.insert(p as int, (km, vm)));
                    }
                    self.held@ = m.insert(km, vm);
                }
                None
            },
        }
    }

    /// Takes a key out; answers its value.
    pub fn remove(&mut self, k: &KF::Item) -> (r: Option<VF::Item>)
        ensures
            final(self).kf() == old(self).kf(),
            final(self).vf() == old(self).vf(),
            old(self).wf() ==> {
                &&& final(self).wf()
                &&& final(self)@ == old(self)@.remove(k@)
                &&& opt_model(r) == lookup(old(self)@, k@)
            },
    {
        let ghost e = entry_models(self.entries@);
        let ghost m = self.held@;
        match self.find(k) {
            Ok(p) => {
                assert(e[p as int] == (self.entries@[p as int].0@, self.entries@[p as int].1@));
                let (_, v) = self.entries.remove(p);
                proof {
                    if old(self).wf() {
                        lemma_lists_remove(&self.key_format, e, m, p as int);
                        assert(entry_models(self.entries@) =~= e.remove(p as int));
                    }
                    self.held@ = m.remove(k@);
                }
                Some(v)
            },
            Err(p) => {
                proof {
                    if self.wf() {
                        lemma_not_listed(&self.key_format, e, m, k@, p as int);
                        assert(m.remove(k@) =~= m);
                    }
                }
                None
            },
        }
    }
}

/// The first `p` keys come before `k`, and `k` before all others.
pub open spec fn parts_at<KF: KeyFormat, V>(
    kf: &KF,
    e: Seq<(Model<KF>, V)>,
    k: Model<KF>,
    p: int,
) -> bool {
    &&& 0 <= p <= e.len()
    &&& forall|i: int| 0 <= i < p ==> kf.lt((#[trigger] e[i]).0, k)
    &&& forall|i: int| p <= i < e.len() ==> kf.lt(k, (#[trigger] e[i]).0)
}

proof fn lemma_not_listed<KF: KeyFormat, V>(
    kf: &KF,
    e: Seq<(Model<KF>, V)>,
    m: Map<Model<KF>, V>,
    k: Model<KF>,
    p: int,
)
    requires
        lists(kf, e, m),
        parts_at(kf, e, k, p),
    ensures
        !m.contains_key(k),
{
    broadcast use group_key_order;

    if m.contains_key(k) {
        let i = choose|i: int| 0 <= i < e.len() && (#[trigger] e[i]).0 == k;
        assert(kf.lt(e[i].0, k) || kf.lt(k, e[i].0));
    }
}

proof fn lemma_lists_set<KF: KeyFormat, V>(
    kf: &KF,
    e: Seq<(Model<KF>, V)>,
    m: Map<Model<KF>, V>,
    p: int,
    v: V,
)
    requires
        lists(kf, e, m),
        0 <= p < e.len(),
    ensures
        lists(kf, e.update(p, (e[p].0, v)), m.insert(e[p].0, v)),
{
    broadcast use group_key_order;

    let k = e[p].0;
    let e2 = e.update(p, (k, v));
    let m2 = m.insert(k, v);
    assert forall|i: int, j: int| #![trigger e2[i], e2[j]] 0 <= i < j < e2.len() implies kf.lt(
        e2[i].0,
        e2[j].0,
    ) by {
        assert(kf.lt(e[i].0, e[j].0));
    }
    assert forall|i: int| #![trigger e2[i]] 0 <= i < e2.len() implies m2.contains_key(e2[i].0)
        && m2[e2[i].0] == e2[i].1 by {
        if i != p {
            assert(m.contains_key(e[i].0));
            if i < p {
                assert(kf.lt(e[i].0, e[p].0));
            } else {
                assert(kf.lt(e[p].0, e[i].0));
            }
        }
    }
    assert forall|x: Model<KF>| #[trigger] m2.contains_key(x) implies exists|i: int|
        0 <= i < e2.len() && (#[trigger] e2[i]).0 == x by {
        if x == k {
            assert(e2[p].0 == x);
        } else {
            assert(m.contains_key(x));
            let i = choose|i: int| 0 <= i < e.len() && (#[trigger] e[i]).0 == x;
            assert(e2[i].0 == x);
        }
    }
}

proof fn lemma_lists_insert<KF: KeyFormat, V>(
    kf: &KF,
    e: Seq<(Model<KF>, V)>,
    m: Map<Model<KF>, V>,
    p: int,
    k: Model<KF>,
    v: V,
)
    requires
        lists(kf, e, m),
        parts_at(kf, e, k, p),
    ensures
        lists(kf, e.insert(p, (k, v)), m.insert(k, v)),
        !m.contains_key(k),
{
    broadcast use group_key_order;

    lemma_not_listed(kf, e, m, k, p);
    let e2 = e.insert(p, (k, v));
    let m2 = m.insert(k, v);
    assert(e2[p] == (k, v));
    assert forall|i: int| 0 <= i < e2.len() && i != p implies #[trigger] e2[i] == if i < p {
        e[i]
    } else {
        e[i - 1]
    } by {}
    assert forall|i: int, j: int| #![trigger e2[i], e2[j]] 0 <= i < j < e2.len() implies kf.lt(
        e2[i].0,
        e2[j].0,
    ) by {
        if i < p && j < p {
            assert(kf.lt(e[i].0, e[j].0));
        } else if i < p && j > p {
            assert(kf.lt(e[i].0, e[j - 1].0));
        } else if i > p {
            assert(kf.lt(e[i - 1].0, e[j - 1].0));
        } else if i == p {
            assert(kf.lt(k, e[j - 1].0));
        } else {
            assert(kf.lt(e[i].0, k));
        }
    }
    assert forall|i: int| #![trigger e2[i]] 0 <= i < e2.len() implies m2.contains_key(e2[i].0)
        && m2[e2[i].0] == e2[i].1 by {
        if i < p {
            assert(m.contains_key(e[i].0));
        } else if i > p {
            assert(m.contains_key(e[i - 1].0));
        }
    }
    assert forall|x: Model<KF>| #[trigger] m2.contains_key(x) implies exists|i: int|
        0 <= i < e2.len() && (#[trigger] e2[i]).0 == x by {
        if x == k {
            assert(e2[p].0 == x);
        } else {
            assert(m.contains_key(x));
            let i = choose|i: int| 0 <= i < e.len() && (#[trigger] e[i]).0 == x;
            let j = if i < p {
                i
            } else {
                i + 1
            };
            assert(e2[j].0 == x);
        }
    }
}

proof fn lemma_lists_remove<KF: KeyFormat, V>(
    kf: &KF,
    e: Seq<(Model<KF>, V)>,
    m: Map<Model<KF>, V>,
    p: int,
)
    requires
        lists(kf, e, m),
        0 <= p < e.len(),
    ensures
        lists(kf, e.remove(p), m.remove(e[p].0)),
{
    broadcast use group_key_order;

    let k = e[p].0;
    let e2 = e.remove(p);
    let m2 = m.remove(k);
    assert forall|i: int| 0 <= i < e2.len() implies #[trigger] e2[i] == if i < p {
        e[i]
    } else {
        e[i + 1]
    } by {}
    assert forall|i: int, j: int| #![trigger e2[i], e2[j]] 0 <= i < j < e2.len() implies kf.lt(
        e2[i].0,
        e2[j].0,
    ) by {
        let x = if i < p {
            i
        } else {
            i + 1
        };
        let y = if j < p {
            j
        } else {
            j + 1
        };
        assert(kf.lt(e[x].0, e[y].0));
    }
    assert forall|i: int| #![trigger e2[i]] 0 <= i < e2.len() implies m2.contains_key(e2[i].0)
        && m2[e2[i].0] == e2[i].1 by {
        let x = if i < p {
            i
        } else {
            i + 1
        };
        assert(m.contains_key(e[x].0));
        if x < p {
            assert(kf.lt(e[x].0, e[p].0));
        } else {
            assert(kf.lt(e[p].0, e[x].0));
        }
    }
    assert forall|x: Model<KF>| #[trigger] m2.contains_key(x) implies exists|i: int|
        0 <= i < e2.len() && (#[trigger] e2[i]).0 == x by {
        assert(m.contains_key(x));
        let i = choose|i: int| 0 <= i < e.len() && (#[trigger] e[i]).0 == x;
        let j = if i < p {
            i
        } else {
            i - 1
        };
        assert(e2[j].0 == x);
    }
}

/// A sorted set in memory.
pub struct SecondarySet<T: KeyFormat> {
    map: SecondaryMap<T, NoValueFormat>,
}

impl<T: KeyFormat> View for SecondarySet<T> {
    type V = Set<Model<T>>;

    closed spec fn view(&self) -> Set<Model<T>> {
        self.map@.dom()
    }
}

impl<T: KeyFormat> SecondarySet<T> {
    pub closed spec fn wf(&self) -> bool {
        self.map.wf()
    }

    pub closed spec fn format(&self) -> T {
        self.map.kf()
    }

    /// An empty set.
    pub fn new(format: T) -> (r: Self)
        ensures
            r.wf(),
            r@ == Set::<Model<T>>::empty(),
            r.format() == format,
    {
        let r = SecondarySet { map: SecondaryMap::new(format, NoValueFormat) };
        assert(r@ =~= Set::empty());
        r
    }

    pub fn contains(&self, t: &T::Item) -> (r: bool)
        ensures
            self.wf() ==> r == self@.contains(t@),
    {
        self.map.contains_key(t)
    }

    pub fn len(&self) -> (r: usize)
        ensures
            self.wf() ==> r == self@.len(),
    {
        self.map.len()
    }

    pub fn is_empty(&self) -> (r: bool)
        ensures
            self.wf() ==> r == (self@ == Set::<Model<T>>::empty()),
    {
        proof {
            if self@ =~= Set::empty() {
                assert(self.map@ =~= Map::empty());
            }
        }
        self.map.is_empty()
    }
}

// ---------------------------------------------------------------- what bindings need

/// A map that a binding keeps up to date.
pub trait SecMap<KF: KeyFormat, VF: Serializer>: Sized {
    /// The entries.
    spec fn sec_map(&self, records: Records) -> Map<Model<KF>, Model<VF>>;

    /// Reads are served.
    spec fn sec_readable(&self, st: StoreState) -> bool;

    /// Reads and that many changes are served.
    spec fn sec_ready(&self, st: StoreState, n: nat) -> bool;

    /// The map can hold this entry.
    spec fn sec_takes(&self, k: Model<KF>, v: Model<VF>) -> bool;

    /// The recid that tells a map in a store from every other.
    spec fn sec_id(&self) -> Option<u64>;

    /// Of the store, only what belongs to the map changed.
    spec fn sec_changed(&self, before: &Self, a: StoreState, b: StoreState) -> bool;

    /// The map is sound.
    spec fn sec_wf(&self, records: Records) -> bool;

    /// The records that belong to the map.
    spec fn sec_owned(&self) -> Set<u64>;

    /// How many records one more entry can take.
    spec fn sec_room(&self) -> nat;

    /// Every record of the map is there, and it has finitely many entries.
    proof fn sec_held(&self, records: Records)
        requires
            self.sec_wf(records),
        ensures
            self.sec_map(records).dom().finite(),
            forall|r: u64| #[trigger] self.sec_owned().contains(r) ==> records.contains_key(r),
    ;

    /// What happens to other records leaves the map as it is.
    proof fn sec_untouched(&self, a: Records, b: Records)
        requires
            self.sec_wf(a),
            forall|r: u64| #[trigger] self.sec_owned().contains(r) ==> b.contains_key(r)
                && b[r] == a[r],
        ensures
            self.sec_wf(b),
            self.sec_map(b) == self.sec_map(a),
    ;

    /// A change leaves the records of others alone.
    proof fn sec_frames(x: &Self, y: &Self, a: StoreState, b: StoreState)
        requires
            y.sec_changed(x, a, b),
        ensures
            frames(a, b, x.sec_owned(), y.sec_owned()),
    ;

    proof fn sec_facts(&self, st: StoreState, n: nat)
        ensures
            self.sec_ready(st, n) ==> self.sec_readable(st) && self.sec_wf(st.records),
            self.sec_ready(st, n) ==> forall|k: nat| k <= n ==> #[trigger] self.sec_ready(st, k),
            self.sec_changed(self, st, st),
    ;

    proof fn sec_chain(x: &Self, y: &Self, z: &Self, a: StoreState, b: StoreState, c: StoreState)
        requires
            y.sec_changed(x, a, b),
            z.sec_changed(y, b, c),
        ensures
            z.sec_changed(x, a, c),
    ;

    fn sec_is_empty<S: Store>(&self, store: &S) -> (r: Result<bool>)
        ensures
            self.sec_readable(store.state()) ==> r == Ok::<bool, DbError>(
                self.sec_map(store.state().records) == Map::<Model<KF>, Model<VF>>::empty(),
            ),
            self.sec_wf(store.state().records) ==> (r matches Ok(x) ==> x == (self.sec_map(
                store.state().records,
            ) == Map::<Model<KF>, Model<VF>>::empty())),
    ;

    fn sec_get<S: Store>(&self, store: &S, k: &KF::Item) -> (r: Result<Option<VF::Item>>)
        ensures
            self.sec_readable(store.state()) ==> (r matches Ok(v) && opt_model(v) == lookup(
                self.sec_map(store.state().records),
                k@,
            )),
            self.sec_wf(store.state().records) ==> (r matches Ok(v) ==> opt_model(v) == lookup(
                self.sec_map(store.state().records),
                k@,
            )),
    ;

    /// Puts a value under a key.
    fn sec_put<S: Store>(&mut self, store: &mut S, k: KF::Item, v: VF::Item) -> (r: Result<()>)
        ensures
            final(self).sec_id() == old(self).sec_id(),
            old(self).sec_room() == 0 ==> final(self).sec_room() == 0,
            forall|x: Model<KF>, y: Model<VF>| #[trigger]
                final(self).sec_takes(x, y) == old(self).sec_takes(x, y),
            forall|n: nat| #[trigger]
                old(self).sec_ready(old(store).state(), n) && n > 0 && old(self).sec_takes(k@, v@)
                    ==> {
                        &&& r is Ok
                        &&& final(self).sec_changed(
                            old(self),
                            old(store).state(),
                            final(store).state(),
                        )
                        &&& final(self).sec_map(final(store).state().records)
                            == old(self).sec_map(old(store).state().records).insert(k@, v@)
                        &&& final(self).sec_ready(final(store).state(), (n - 1) as nat)
                    },
            !old(self).sec_takes(k@, v@) ==> (r matches Err(e) && e is RecordTooLarge)
                && *final(self) == *old(self) && final(store).state() == old(store).state(),
            ({
                let a = old(store).state();
                let b = final(store).state();
                let m = old(self).sec_map(a.records);
                old(self).sec_wf(a.records) && m.len() < i64::MAX && old(self).sec_takes(k@, v@)
                    ==> {
                    &&& serves(a, old(self).sec_room()) ==> r is Ok
                    &&& keeps_state(a, b) && spares(a.records, b.records, old(self).sec_owned())
                    &&& r is Ok ==> {
                        &&& final(self).sec_changed(old(self), a, b)
                        &&& final(self).sec_wf(b.records)
                        &&& final(self).sec_map(b.records) == m.insert(k@, v@)
                        &&& b.room + old(self).sec_room() >= a.room
                    }
                }
            }),
    ;

    /// Puts a value under a key that has none; answers the value that it has.
    fn sec_put_if_absent<S: Store>(
        &mut self,
        store: &mut S,
        k: KF::Item,
        v: VF::Item,
    ) -> (r: Result<Option<VF::Item>>)
        ensures
            final(self).sec_id() == old(self).sec_id(),
            forall|x: Model<KF>, y: Model<VF>| #[trigger]
                final(self).sec_takes(x, y) == old(self).sec_takes(x, y),
            forall|n: nat| #[trigger]
                old(self).sec_ready(old(store).state(), n) && n > 0 && old(self).sec_takes(k@, v@)
                    ==> {
                    let m = old(self).sec_map(old(store).state().records);
                    &&& r matches Ok(w) && opt_model(w) == lookup(m, k@)
                    &&& final(self).sec_changed(old(self), old(store).state(), final(store).state())
                    &&& final(self).sec_map(final(store).state().records) == if m.contains_key(k@) {
                            m
                        } else {
                            m.insert(k@, v@)
                        }
                    &&& final(self).sec_ready(final(store).state(), (n - 1) as nat)
                },
            !old(self).sec_takes(k@, v@) ==> (r matches Err(e) && e is RecordTooLarge)
                && *final(self) == *old(self) && final(store).state() == old(store).state(),
            ({
                let a = old(store).state();
                let b = final(store).state();
                let m = old(self).sec_map(a.records);
                old(self).sec_wf(a.records) && m.len() < i64::MAX && old(self).sec_takes(k@, v@)
                    ==> {
                    &&& serves(a, old(self).sec_room()) ==> r is Ok
                    &&& keeps_state(a, b) && spares(a.records, b.records, old(self).sec_owned())
                    &&& r matches Ok(w) ==> {
                        &&& opt_model(w) == lookup(m, k@)
                        &&& final(self).sec_changed(old(self), a, b)
                        &&& final(self).sec_wf(b.records)
                        &&& final(self).sec_map(b.records) == if m.contains_key(k@) {
                            m
                        } else {
                            m.insert(k@, v@)
                        }
                        &&& b.room + old(self).sec_room() >= a.room
                    }
                }
            }),
    ;

    /// Takes a key out.
    fn sec_remove<S: Store>(&mut self, store: &mut S, k: &KF::Item) -> (r: Result<()>)
        ensures
            final(self).sec_id() == old(self).sec_id(),
            forall|x: Model<KF>, y: Model<VF>| #[trigger]
                final(self).sec_takes(x, y) == old(self).sec_takes(x, y),
            forall|n: nat| #[trigger]
                old(self).sec_ready(old(store).state(), n) && n > 0 ==> {
                        &&& r is Ok
                        &&& final(self).sec_changed(
                            old(self),
                            old(store).state(),
                            final(store).state(),
                        )
                        &&& final(self).sec_map(final(store).state().records)
                            == old(self).sec_map(old(store).state().records).remove(k@)
                        &&& final(self).sec_ready(final(store).state(), (n - 1) as nat)
                    },
            ({
                let a = old(store).state();
                let b = final(store).state();
                let m = old(self).sec_map(a.records);
                old(self).sec_wf(a.records) ==> {
                    &&& serves(a, 0) ==> r is Ok
                    &&& keeps_state(a, b) && spares(a.records, b.records, old(self).sec_owned())
                    &&& r is Ok ==> {
                        &&& final(self).sec_changed(old(self), a, b)
                        &&& final(self).sec_wf(b.records)
                        &&& final(self).sec_map(b.records) == m.remove(k@)
                        &&& b.room >= a.room
                        &&& final(self).sec_room() == old(self).sec_room()
                    }
                }
            }),
    ;

    /// Takes a key out where it has this value.
    fn sec_remove_if_value<S: Store>(&mut self, store: &mut S, k: &KF::Item, v: &VF::Item) -> (r:
        Result<()>)
        ensures
            final(self).sec_id() == old(self).sec_id(),
            forall|x: Model<KF>, y: Model<VF>| #[trigger]
                final(self).sec_takes(x, y) == old(self).sec_takes(x, y),
            forall|n: nat| #[trigger]
                old(self).sec_ready(old(store).state(), n) && n > 0 ==> {
                        &&& r is Ok
                        &&& final(self).sec_changed(
                            old(self),
                            old(store).state(),
                            final(store).state(),
                        )
                        &&& final(self).sec_map(final(store).state().records) == removed_if(
                            old(self).sec_map(old(store).state().records),
                            k@,
                            v@,
                        )
                        &&& final(self).sec_ready(final(store).state(), (n - 1) as nat)
                    },
            ({
                let a = old(store).state();
                let b = final(store).state();
                let m = old(self).sec_map(a.records);
                old(self).sec_wf(a.records) ==> {
                    &&& serves(a, 0) ==> r is Ok
                    &&& keeps_state(a, b) && spares(a.records, b.records, old(self).sec_owned())
                    &&& r is Ok ==> {
                        &&& final(self).sec_changed(old(self), a, b)
                        &&& final(self).sec_wf(b.records)
                        &&& final(self).sec_map(b.records) == removed_if(m, k@, v@)
                        &&& b.room >= a.room
                        &&& final(self).sec_room() == old(self).sec_room()
                    }
                }
            }),
    ;

    fn sec_identity(&self) -> (r: Option<u64>)
        ensures
            r == self.sec_id(),
    ;
}

/// The store is read and written, and has that many free records.
pub open spec fn serves(st: StoreState, n: nat) -> bool {
    st.readable && st.writable && st.room >= n
}

/// The map without a key where it has this value.
pub open spec fn removed_if<K, V>(m: Map<K, V>, k: K, v: V) -> Map<K, V> {
    if m.contains_key(k) && m[k] == v {
        m.remove(k)
    } else {
        m
    }
}

impl<KF: KeyFormat, VF: Serializer> SecMap<KF, VF> for SecondaryMap<KF, VF> {
    open spec fn sec_map(&self, records: Records) -> Map<Model<KF>, Model<VF>> {
        self@
    }

    open spec fn sec_readable(&self, st: StoreState) -> bool {
        self.wf()
    }

    open spec fn sec_ready(&self, st: StoreState, n: nat) -> bool {
        self.wf()
    }

    open spec fn sec_takes(&self, k: Model<KF>, v: Model<VF>) -> bool {
        true
    }

    open spec fn sec_id(&self) -> Option<u64> {
        None
    }

    open spec fn sec_changed(&self, before: &Self, a: StoreState, b: StoreState) -> bool {
        a == b
    }

    open spec fn sec_wf(&self, records: Records) -> bool {
        self.wf()
    }

    open spec fn sec_owned(&self) -> Set<u64> {
        Set::empty()
    }

    open spec fn sec_room(&self) -> nat {
        0
    }

    proof fn sec_held(&self, records: Records) {
        lemma_lists_len(&self.key_format, entry_models(self.entries@), self.held@);
    }

    proof fn sec_untouched(&self, a: Records, b: Records) {
    }

    proof fn sec_frames(x: &Self, y: &Self, a: StoreState, b: StoreState) {
    }

    proof fn sec_facts(&self, st: StoreState, n: nat) {
    }

    proof fn sec_chain(x: &Self, y: &Self, z: &Self, a: StoreState, b: StoreState, c: StoreState) {
    }

    fn sec_is_empty<S: Store>(&self, store: &S) -> Result<bool> {
        Ok(self.is_empty())
    }

    fn sec_get<S: Store>(&self, store: &S, k: &KF::Item) -> Result<Option<VF::Item>> {
        Ok(self.get(k))
    }

    fn sec_put<S: Store>(&mut self, store: &mut S, k: KF::Item, v: VF::Item) -> Result<()> {
        self.put(k, v);
        Ok(())
    }

    fn sec_put_if_absent<S: Store>(&mut self, store: &mut S, k: KF::Item, v: VF::Item) -> Result<
        Option<VF::Item>,
    > {
        match self.get(&k) {
            Some(w) => Ok(Some(w)),
            None => {
                self.put(k, v);
                Ok(None)
            },
        }
    }

    fn sec_remove<S: Store>(&mut self, store: &mut S, k: &KF::Item) -> Result<()> {
        self.remove(k);
        Ok(())
    }

    fn sec_remove_if_value<S: Store>(
        &mut self,
        store: &mut S,
        k: &KF::Item,
        v: &VF::Item,
    ) -> Result<()> {
        match self.get(k) {
            Some(w) => {
                if self.value_format.equals(&w, v) {
                    self.remove(k);
                }
            },
            None => {},
        }
        Ok(())
    }

    fn sec_identity(&self) -> Option<u64> {
        None
    }
}

/// How much room `n` puts into a tree of that height can take.
pub open spec fn puts_room(n: nat, height: nat) -> nat {
    n * (height + n + 2)
}

proof fn lemma_puts_room(n: nat, h: nat, h2: nat, room: nat, room2: nat)
    requires
        n > 0,
        room >= puts_room(n, h),
        h2 <= h + 1,
        room2 + h + 2 >= room,
    ensures
        room2 >= puts_room((n - 1) as nat, h2),
{
    let k = (n - 1) as nat;
    assert(n * (h + n + 2) == k * (h + n + 2) + (h + n + 2)) by (nonlinear_arith)
        requires
            n == k + 1,
    ;
    assert(k * (h2 + k + 2) <= k * (h + n + 2)) by (nonlinear_arith)
        requires
            h2 + k + 2 <= h + n + 2,
    ;
    assert(0 <= k * (h + n + 2)) by (nonlinear_arith);
}

proof fn lemma_one_put(n: nat, h: nat)
    requires
        n > 0,
    ensures
        puts_room(n, h) >= h + 2,
{
    assert(n * (h + n + 2) >= h + 2) by (nonlinear_arith)
        requires
            n >= 1,
    ;
}

proof fn lemma_puts_room_less(n: nat, k: nat, h: nat)
    requires
        k <= n,
    ensures
        puts_room(k, h) <= puts_room(n, h),
{
    assert(k * (h + k + 2) <= n * (h + n + 2)) by (nonlinear_arith)
        requires
            k <= n,
    ;
}

impl<KF: KeyFormat, VF: Serializer> SecMap<KF, VF> for BTreeMap<KF, VF> {
    open spec fn sec_map(&self, records: Records) -> Map<Model<KF>, Model<VF>> {
        self.contents(records)
    }

    open spec fn sec_readable(&self, st: StoreState) -> bool {
        self.wf(st.records) && st.readable
    }

    open spec fn sec_ready(&self, st: StoreState, n: nat) -> bool {
        &&& self.wf(st.records)
        &&& st.readable
        &&& st.writable
        &&& st.room >= puts_room(n, self.height())
        &&& self.contents(st.records).len() + n <= i64::MAX
    }

    open spec fn sec_takes(&self, k: Model<KF>, v: Model<VF>) -> bool {
        self.kf().fits(k) && self.vf().fits(v)
    }

    open spec fn sec_id(&self) -> Option<u64> {
        Some(self.pointer())
    }

    open spec fn sec_changed(&self, before: &Self, a: StoreState, b: StoreState) -> bool {
        self.same_config(before) && frames(a, b, before.owned(), self.owned())
    }

    open spec fn sec_wf(&self, records: Records) -> bool {
        self.wf(records)
    }

    open spec fn sec_owned(&self) -> Set<u64> {
        self.owned()
    }

    open spec fn sec_room(&self) -> nat {
        self.height() + 2
    }

    proof fn sec_held(&self, records: Records) {
        self.lemma_owned_records(records);
        self.lemma_finite(records);
    }

    proof fn sec_untouched(&self, a: Records, b: Records) {
        assert forall|r: u64| #[trigger] self.owned().contains(r) implies b.contains_key(r)
            && b[r] == a[r] by {
            assert(self.sec_owned().contains(r));
        }
        self.law_untouched(a, b);
    }

    proof fn sec_frames(x: &Self, y: &Self, a: StoreState, b: StoreState) {
    }

    proof fn sec_facts(&self, st: StoreState, n: nat) {
        assert forall|k: nat| k <= n && self.sec_ready(st, n)
            implies #[trigger] self.sec_ready(st, k) by {
            lemma_puts_room_less(n, k, self.height());
        }
        self.lemma_same(st);
    }

    proof fn sec_chain(x: &Self, y: &Self, z: &Self, a: StoreState, b: StoreState, c: StoreState) {
        Self::lemma_same_config(x, y, z);
        let owned = x.owned();
        let owned1 = y.owned();
        let owned2 = z.owned();
        assert forall|r: u64|
            #![trigger c.records.contains_key(r)]
            #![trigger owned2.contains(r)]
            a.records.contains_key(r) && !owned.contains(r) implies c.records.contains_key(r)
            && c.records[r] == a.records[r] && !owned2.contains(r) by {
            assert(b.records.contains_key(r) && !owned1.contains(r));
            assert(c.records.contains_key(r));
        }
    }

    fn sec_is_empty<S: Store>(&self, store: &S) -> Result<bool> {
        self.is_empty(store)
    }

    fn sec_get<S: Store>(&self, store: &S, k: &KF::Item) -> Result<Option<VF::Item>> {
        self.get(store, k)
    }

    fn sec_put<S: Store>(&mut self, store: &mut S, k: KF::Item, v: VF::Item) -> Result<()> {
        proof {
            self.lemma_same(store.state());
        }
        if !self.key_serializer().can_write(&k) || !self.value_serializer().can_write(&v) {
            return Err(DbError::RecordTooLarge);
        }
        let ghost a = store.state();
        let ghost km = k@;
        let ghost vm = v@;
        let r = self.put(store, k, v);
        proof {
            let b = store.state();
            let m = old(self).contents(a.records);
            self.lemma_config(old(self));
            if old(self).can_grow(a.records) && r is Err {
                self.lemma_spared(old(self), a, b, km, old(self).height() + 2);
            }
            assert forall|n: nat| #[trigger] old(self).sec_ready(a, n) && n > 0 implies r is Ok
                && self.sec_ready(
                b,
                (n - 1) as nat,
            ) && self.sec_changed(old(self), a, b)
                && self.contents(b.records) == m.insert(km, vm) by {
                lemma_one_put(n, old(self).height());
                assert(old(self).can_put(a));
                lemma_puts_room(n, old(self).height(), self.height(), a.room, b.room);
                old(self).lemma_finite(a.records);
            }
        }
        match r {
            Ok(_) => Ok(()),
            Err(e) => Err(e),
        }
    }

    fn sec_put_if_absent<S: Store>(&mut self, store: &mut S, k: KF::Item, v: VF::Item) -> Result<
        Option<VF::Item>,
    > {
        proof {
            self.lemma_same(store.state());
        }
        if !self.key_serializer().can_write(&k) || !self.value_serializer().can_write(&v) {
            return Err(DbError::RecordTooLarge);
        }
        let ghost a = store.state();
        let ghost km = k@;
        let ghost vm = v@;
        let r = self.put_if_absent(store, k, v);
        proof {
            let b = store.state();
            let m = old(self).contents(a.records);
            self.lemma_config(old(self));
            if old(self).can_grow(a.records) && r is Err {
                self.lemma_spared(old(self), a, b, km, old(self).height() + 2);
            }
            assert forall|n: nat| #[trigger] old(self).sec_ready(a, n) && n > 0 implies r is Ok
                && self.sec_ready(
                b,
                (n - 1) as nat,
            ) && self.sec_changed(old(self), a, b) && opt_model(r.unwrap()) == lookup(m, km)
                && self.contents(b.records) == (if m.contains_key(km) {
                m
            } else {
                m.insert(km, vm)
            }) by {
                lemma_one_put(n, old(self).height());
                assert(old(self).can_put(a));
                lemma_puts_room(n, old(self).height(), self.height(), a.room, b.room);
                old(self).lemma_finite(a.records);
            }
        }
        r
    }

    fn sec_remove<S: Store>(&mut self, store: &mut S, k: &KF::Item) -> Result<()> {
        let ghost a = store.state();
        let r = self.remove(store, k);
        proof {
            let b = store.state();
            self.lemma_config(old(self));
            if old(self).wf(a.records) && r is Err {
                self.lemma_spared(old(self), a, b, k@, 0);
            }
            assert forall|n: nat| #[trigger] old(self).sec_ready(a, n) && n > 0 implies r is Ok
                && self.sec_ready(
                b,
                (n - 1) as nat,
            ) && self.sec_changed(old(self), a, b) by {
                lemma_puts_room_less(n, (n - 1) as nat, self.height());
                old(self).lemma_finite(a.records);
                lemma_removed_len(old(self).contents(a.records), k@);
            }
        }
        match r {
            Ok(_) => Ok(()),
            Err(e) => Err(e),
        }
    }

    fn sec_remove_if_value<S: Store>(
        &mut self,
        store: &mut S,
        k: &KF::Item,
        v: &VF::Item,
    ) -> Result<()> {
        let ghost a = store.state();
        let r = self.remove_if(store, k, v);
        proof {
            let b = store.state();
            self.lemma_config(old(self));
            if old(self).wf(a.records) && r is Err {
                self.lemma_spared(old(self), a, b, k@, 0);
            }
            assert forall|n: nat| #[trigger] old(self).sec_ready(a, n) && n > 0 implies r is Ok
                && self.sec_ready(
                b,
                (n - 1) as nat,
            ) && self.sec_changed(old(self), a, b) by {
                lemma_puts_room_less(n, (n - 1) as nat, self.height());
                old(self).lemma_finite(a.records);
                lemma_removed_len(old(self).contents(a.records), k@);
            }
        }
        match r {
            Ok(_) => Ok(()),
            Err(e) => Err(e),
        }
    }

    fn sec_identity(&self) -> Option<u64> {
        Some(self.state_id())
    }
}

proof fn lemma_removed_len<K, V>(m: Map<K, V>, k: K)
    requires
        m.dom().finite(),
    ensures
        m.remove(k).len() <= m.len(),
{
    if !m.contains_key(k) {
        assert(m.remove(k) =~= m);
    }
}

/// A set that a binding keeps up to date.
pub trait SecSet<T: KeyFormat> {
    /// The elements.
    spec fn sec_set(&self) -> Set<Model<T>>;

    /// The set is sound.
    spec fn sec_sound(&self) -> bool;

    /// The recid that tells a set in a store from every other.
    spec fn sec_set_id(&self) -> Option<u64>;

    fn sec_set_is_empty(&self) -> (r: Result<bool>)
        ensures
            self.sec_sound() ==> r == Ok::<bool, DbError>(
                self.sec_set() == Set::<Model<T>>::empty(),
            ),
    ;

    fn sec_add(&mut self, t: T::Item) -> (r: Result<()>)
        ensures
            final(self).sec_set_id() == old(self).sec_set_id(),
            old(self).sec_sound() ==> r is Ok && final(self).sec_sound() && final(self).sec_set()
                == old(self).sec_set().insert(t@),
    ;

    fn sec_set_remove(&mut self, t: &T::Item) -> (r: Result<()>)
        ensures
            final(self).sec_set_id() == old(self).sec_set_id(),
            old(self).sec_sound() ==> r is Ok && final(self).sec_sound() && final(self).sec_set()
                == old(self).sec_set().remove(t@),
    ;

    fn sec_set_identity(&self) -> (r: Option<u64>)
        ensures
            r == self.sec_set_id(),
    ;
}

impl<T: KeyFormat> SecSet<T> for SecondarySet<T> {
    open spec fn sec_set(&self) -> Set<Model<T>> {
        self@
    }

    open spec fn sec_sound(&self) -> bool {
        self.wf()
    }

    open spec fn sec_set_id(&self) -> Option<u64> {
        None
    }

    fn sec_set_is_empty(&self) -> Result<bool> {
        Ok(self.is_empty())
    }

    fn sec_add(&mut self, t: T::Item) -> Result<()> {
        let ghost m = self.map@;
        let ghost x = t@;
        self.map.put(t, NoValue);
        assert(m.insert(x, ()).dom() =~= m.dom().insert(x));
        Ok(())
    }

    fn sec_set_remove(&mut self, t: &T::Item) -> Result<()> {
        let ghost m = self.map@;
        self.map.remove(t);
        assert(m.remove(t@).dom() =~= m.dom().remove(t@));
        Ok(())
    }

    fn sec_set_identity(&self) -> Option<u64> {
        None
    }
}

} // verus!
