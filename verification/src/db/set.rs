//! A sorted set kept as a map without values.

use vstd::prelude::*;
use crate::btree::map::write::spares;
use crate::btree::map::BTreeMap;
use crate::btree::range::{hi_ok, in_range, lists_keys, lo_ok, ranged};
use crate::btree::view::{
    after_bound, asked, comes_after, is_end_key, keys_after, keys_before, locked, oriented, refused,
    OrderedMapAdapter, RangeView,
};
use crate::error::{DbError, Result};
use crate::io::{DataOutput2, SliceInput};
use crate::ser::{models, KeyFormat, Model, Serializer};
use crate::store::{carried_out, keeps_state, opt_model, served, Records, Store, StoreState};

verus! {

/// The value that says nothing.
#[derive(Debug, Clone, Copy, PartialEq, Eq, Structural)]
pub struct NoValue;

impl View for NoValue {
    type V = ();

    open spec fn view(&self) -> () {
        ()
    }
}

/// The codec of the value that says nothing: no bytes.
#[derive(Debug, Clone, Copy)]
pub struct NoValueSer;

impl Default for NoValueSer {
    fn default() -> (r: Self)
        ensures
            r == NoValueSer,
    {
        NoValueSer
    }
}

impl Serializer for NoValueSer {
    type Item = NoValue;

    open spec fn fits(&self, v: ()) -> bool {
        true
    }

    open spec fn enc(&self, v: ()) -> Seq<u8> {
        Seq::empty()
    }

    open spec fn dec(&self, s: Seq<u8>) -> Option<((), nat)> {
        Some(((), 0))
    }

    proof fn round_trip(&self, v: (), tail: Seq<u8>) {
    }

    proof fn dec_within(&self, s: Seq<u8>) {
    }

    fn can_write(&self, value: &NoValue) -> bool {
        true
    }

    fn serialize(&self, out: &mut DataOutput2, value: &NoValue) {
        assert(out@ + Seq::<u8>::empty() =~= out@);
    }

    fn deserialize(&self, input: &mut SliceInput<'_>) -> Result<NoValue> {
        Ok(NoValue)
    }

    fn equals(&self, a: &NoValue, b: &NoValue) -> bool {
        true
    }

    fn dup(&self, a: &NoValue) -> NoValue {
        NoValue
    }

    open spec fn width(&self) -> Option<usize> {
        Some(0)
    }

    proof fn width_is_exact(&self, v: ()) {
    }

    fn fixed_size(&self) -> Option<usize> {
        Some(0)
    }
}

/// The value format of a map that is used as a set: no bytes.
#[derive(Debug, Clone, Copy)]
pub struct NoValueFormat;

impl Default for NoValueFormat {
    fn default() -> (r: Self)
        ensures
            r == NoValueFormat,
    {
        NoValueFormat
    }
}

impl Serializer for NoValueFormat {
    type Item = NoValue;

    open spec fn fits(&self, v: ()) -> bool {
        true
    }

    open spec fn enc(&self, v: ()) -> Seq<u8> {
        Seq::empty()
    }

    open spec fn dec(&self, s: Seq<u8>) -> Option<((), nat)> {
        Some(((), 0))
    }

    proof fn round_trip(&self, v: (), tail: Seq<u8>) {
    }

    proof fn dec_within(&self, s: Seq<u8>) {
    }

    fn can_write(&self, value: &NoValue) -> bool {
        true
    }

    fn serialize(&self, out: &mut DataOutput2, value: &NoValue) {
        assert(out@ + Seq::<u8>::empty() =~= out@);
    }

    fn deserialize(&self, input: &mut SliceInput<'_>) -> Result<NoValue> {
        Ok(NoValue)
    }

    fn equals(&self, a: &NoValue, b: &NoValue) -> bool {
        true
    }

    fn dup(&self, a: &NoValue) -> NoValue {
        NoValue
    }

    open spec fn width(&self) -> Option<usize> {
        Some(0)
    }

    proof fn width_is_exact(&self, v: ()) {
    }

    fn fixed_size(&self) -> Option<usize> {
        Some(0)
    }
}

/// The map that is used as the set `s`.
pub open spec fn unit_map<K>(s: Set<K>) -> Map<K, ()> {
    Map::new(|k: K| s.contains(k), |k: K| ())
}

/// At most one element of `s` is missing.
pub open spec fn lacks_one<K>(s: Set<K>, now: Set<K>) -> bool {
    forall|x: K, y: K|
        #![trigger s.contains(x), s.contains(y)]
        s.contains(x) && s.contains(y) && !now.contains(x) && !now.contains(y) ==> x == y
}

/// A sorted set.
pub struct NavigableSet<KF: KeyFormat> {
    map: BTreeMap<KF, NoValueFormat>,
}

impl<KF: KeyFormat> NavigableSet<KF> {
    /// The map that is used as the set.
    pub closed spec fn backing(&self) -> BTreeMap<KF, NoValueFormat> {
        self.map
    }

    pub open spec fn kf(&self) -> KF {
        self.backing().kf()
    }

    pub open spec fn wf(&self, records: Records) -> bool {
        self.backing().wf(records)
    }

    /// The elements.
    pub open spec fn elements(&self, records: Records) -> Set<Model<KF>> {
        self.backing().contents(records).dom()
    }

    /// A change took the set in `a` to the set `s` in `b`, at most `spent` records
    /// were allocated, and no other record changed.
    pub open spec fn became(
        &self,
        before: &Self,
        a: StoreState,
        b: StoreState,
        s: Set<Model<KF>>,
        spent: nat,
    ) -> bool {
        &&& self.backing().became(&before.backing(), a, b, unit_map(s), spent)
        &&& self.wf(b.records)
        &&& self.elements(b.records) == s
    }

    /// What a change that failed leaves: the records of others are as they were, and the
    /// set is spoiled or has at least the elements `less` and at most `more`.
    pub open spec fn failed(
        &self,
        before: &Self,
        a: StoreState,
        b: StoreState,
        less: Set<Model<KF>>,
        more: Set<Model<KF>>,
    ) -> bool {
        let now = self.elements(b.records);
        &&& keeps_state(a, b)
        &&& spares(a.records, b.records, before.backing().owned())
        &&& self.backing().spoiled() || less.subset_of(now) && now.subset_of(more)
    }

    proof fn lemma_became(
        &self,
        before: &Self,
        a: StoreState,
        b: StoreState,
        m: Map<Model<KF>, ()>,
        spent: nat,
    )
        requires
            self.backing().became(&before.backing(), a, b, m, spent),
        ensures
            self.became(before, a, b, m.dom(), spent),
    {
        assert(unit_map(m.dom()) =~= m);
    }

    pub fn from_map(map: BTreeMap<KF, NoValueFormat>) -> (r: Self)
        ensures
            r.backing() == map,
    {
        NavigableSet { map }
    }

    pub fn backing_map(&self) -> (r: &BTreeMap<KF, NoValueFormat>)
        ensures
            *r == self.backing(),
    {
        &self.map
    }

    pub fn counter_recid(&self) -> (r: u64)
        ensures
            r == self.backing().counter(),
    {
        self.map.counter_recid()
    }

    pub fn root_recid_recid(&self) -> (r: u64)
        ensures
            r == self.backing().pointer(),
    {
        self.map.root_recid_recid()
    }

    pub fn is_closed<S: Store>(&self, store: &S) -> (r: bool)
        ensures
            r == store.state().closed,
    {
        self.map.is_closed(store)
    }

    /// Adds an element; answers whether it was new.
    pub fn add<S: Store>(&mut self, store: &mut S, element: KF::Item) -> (r: Result<bool>)
        requires
            old(self).kf().fits(element@),
        ensures
            old(self).backing().refuses(old(store).state(), r),
            old(self).backing().read_only_in(old(store).state()) ==> {
                let s = old(self).elements(old(store).state().records);
                &&& final(store).state().records == old(store).state().records
                &&& s.contains(element@) ==> r == Ok::<bool, DbError>(false)
                &&& !s.contains(element@) ==> r == Err::<bool, DbError>(DbError::ReadOnly)
            },
            old(self).backing().can_put(old(store).state()) ==> r is Ok,
            old(self).backing().can_grow(old(store).state().records) ==> {
                let s = old(self).elements(old(store).state().records);
                &&& r matches Ok(x) ==> x == (!s.contains(element@))
                &&& r is Err ==> final(self).failed(
                    old(self),
                    old(store).state(),
                    final(store).state(),
                    s,
                    s,
                )
                &&& r is Ok ==> final(self).became(
                    old(self),
                    old(store).state(),
                    final(store).state(),
                    s.insert(element@),
                    old(self).backing().height() + 2,
                )
            },
    {
        let ghost a = store.state();
        let ghost m = self.map.contents(a.records);
        let r = self.map.put_if_absent(store, element, NoValue);
        proof {
            if old(self).map.can_grow(a.records) && r is Err {
                self.map.lemma_left(
                    &old(self).map,
                    a,
                    store.state(),
                    old(self).map.height() + 2,
                );
            }
            if old(self).map.can_grow(a.records) && r is Ok {
                let m2 = if m.contains_key(element@) {
                    m
                } else {
                    m.insert(element@, ())
                };
                self.lemma_became(old(self), a, store.state(), m2, old(self).map.height() + 2);
                assert(m2.dom() =~= m.dom().insert(element@));
            }
        }
        match r {
            Ok(v) => Ok(v.is_none()),
            Err(e) => Err(e),
        }
    }

    pub fn contains<S: Store>(&self, store: &S, element: &KF::Item) -> (r: Result<bool>)
        ensures
            self.backing().refuses(store.state(), r),
            self.wf(store.state().records) ==> served(store.state(), r) && (
            r matches Ok(x) ==> x == (self.elements(store.state().records).contains(element@))),
    {
        self.map.contains_key(store, element)
    }

    /// Removes an element; answers whether it was there.
    pub fn remove<S: Store>(&mut self, store: &mut S, element: &KF::Item) -> (r: Result<bool>)
        ensures
            old(self).backing().refuses(old(store).state(), r),
            old(self).backing().read_only_in(old(store).state()) ==> {
                let s = old(self).elements(old(store).state().records);
                &&& final(store).state().records == old(store).state().records
                &&& s.contains(element@) ==> r == Err::<bool, DbError>(DbError::ReadOnly)
                &&& !s.contains(element@) ==> r == Ok::<bool, DbError>(false)
            },
            old(self).wf(old(store).state().records) ==> {
                let s = old(self).elements(old(store).state().records);
                &&& carried_out(old(store).state(), r)
                &&& r matches Ok(x) ==> x == (s.contains(element@))
                &&& r is Err ==> final(self).failed(
                    old(self),
                    old(store).state(),
                    final(store).state(),
                    s.remove(element@),
                    s,
                )
                &&& r is Ok ==> final(self).became(
                    old(self),
                    old(store).state(),
                    final(store).state(),
                    s.remove(element@),
                    0,
                )
            },
    {
        let ghost a = store.state();
        let ghost m = self.map.contents(a.records);
        let r = self.map.remove_only(store, element);
        proof {
            if old(self).wf(a.records) && r is Err {
                self.map.lemma_spared(&old(self).map, a, store.state(), element@, 0);
            }
            if old(self).wf(a.records) && r is Ok {
                self.lemma_became(old(self), a, store.state(), m.remove(element@), 0);
                assert(m.remove(element@).dom() =~= m.dom().remove(element@));
            }
        }
        r
    }

    pub fn size_long<S: Store>(&self, store: &S) -> (r: Result<u64>)
        ensures
            self.backing().refuses(store.state(), r),
            self.wf(store.state().records) && self.elements(
                store.state().records,
            ).len() <= u64::MAX ==> served(store.state(), r) && (
            r matches Ok(x) ==> x == (self.elements(store.state().records).len() as u64)),
    {
        self.map.size_long(store)
    }

    pub fn is_empty<S: Store>(&self, store: &S) -> (r: Result<bool>)
        ensures
            self.backing().refuses(store.state(), r),
            self.wf(store.state().records) ==> served(store.state(), r) && (
            r matches Ok(x) ==>
                x == (self.elements(store.state().records) == Set::<Model<KF>>::empty())),
    {
        proof {
            let m = self.map.contents(store.state().records);
            if m.dom() =~= Set::empty() {
                assert(m =~= Map::empty());
            }
        }
        self.map.is_empty(store)
    }

    pub fn clear<S: Store>(&mut self, store: &mut S) -> (r: Result<()>)
        ensures
            old(self).backing().read_only_in(old(store).state()) ==> {
                let s = old(self).elements(old(store).state().records);
                &&& final(store).state().records == old(store).state().records
                &&& s =~= Set::empty() ==> r is Ok
                &&& !(s =~= Set::empty()) ==> r == Err::<(), DbError>(DbError::ReadOnly)
            },
            old(self).backing().refuses(old(store).state(), r),
            final(self).backing().same_config(&old(self).backing()),
            old(self).wf(old(store).state().records) ==> carried_out(old(store).state(), r),
            old(self).wf(old(store).state().records) && r is Err ==> final(self).failed(
                old(self),
                old(store).state(),
                final(store).state(),
                Set::empty(),
                old(self).elements(old(store).state().records),
            ),
            old(self).wf(old(store).state().records) && r is Ok ==> final(self).became(
                old(self),
                old(store).state(),
                final(store).state(),
                Set::empty(),
                0,
            ),
    {
        let ghost a = store.state();
        let r = self.map.clear(store);
        proof {
            if old(self).wf(a.records) && r is Ok {
                self.lemma_became(old(self), a, store.state(), Map::empty(), 0);
                assert(Map::<Model<KF>, ()>::empty().dom() =~= Set::empty());
            }
        }
        r
    }

    /// All elements in order.
    pub fn to_vec<S: Store>(&self, store: &S) -> (r: Result<Vec<KF::Item>>)
        ensures
            self.backing().refuses(store.state(), r),
            self.wf(store.state().records) ==> served(store.state(), r)
                && (r matches Ok(v) ==> lists_keys(
                &self.kf(),
                models(v@),
                self.backing().contents(store.state().records),
            )),
    {
        self.map.view().keys(&self.map, store)
    }

    /// All elements, greatest first.
    pub fn descending_to_vec<S: Store>(&self, store: &S) -> (r: Result<Vec<KF::Item>>)
        ensures
            self.backing().refuses(store.state(), r),
            self.wf(store.state().records) ==> served(store.state(), r)
                && (r matches Ok(v) ==> lists_keys(
                &self.kf(),
                models(v@).reverse(),
                self.backing().contents(store.state().records),
            )),
    {
        self.map.descending().keys(&self.map, store)
    }

    /// The least element.
    pub fn first<S: Store>(&self, store: &S) -> (r: Result<Option<KF::Item>>)
        ensures
            self.backing().refuses(store.state(), r),
            self.wf(store.state().records) ==> served(store.state(), r)
                && (r matches Ok(x) ==> is_end_key(
                &self.kf(),
                self.backing().contents(store.state().records),
                false,
                opt_model(x),
            )),
    {
        match self.map.first_entry(store) {
            Ok(Some((k, _))) => Ok(Some(k)),
            Ok(None) => Ok(None),
            Err(e) => Err(e),
        }
    }

    /// The greatest element.
    pub fn last<S: Store>(&self, store: &S) -> (r: Result<Option<KF::Item>>)
        ensures
            self.backing().refuses(store.state(), r),
            self.wf(store.state().records) ==> served(store.state(), r)
                && (r matches Ok(x) ==> is_end_key(
                &self.kf(),
                self.backing().contents(store.state().records),
                true,
                opt_model(x),
            )),
    {
        match self.map.last_entry(store) {
            Ok(Some((k, _))) => Ok(Some(k)),
            Ok(None) => Ok(None),
            Err(e) => Err(e),
        }
    }

    /// The greatest element below `e`.
    pub fn lower<S: Store>(&self, store: &S, e: &KF::Item) -> (r: Result<Option<KF::Item>>)
        ensures
            self.backing().refuses(store.state(), r),
            self.wf(store.state().records) ==> served(store.state(), r)
                && (r matches Ok(x) ==> is_end_key(
                &self.kf(),
                ranged(
                    &self.kf(),
                    self.backing().contents(store.state().records),
                    None,
                    true,
                    Some(e@),
                    false,
                ),
                true,
                opt_model(x),
            )),
    {
        match self.map.lower_entry(store, e) {
            Ok(Some((k, _))) => Ok(Some(k)),
            Ok(None) => Ok(None),
            Err(e) => Err(e),
        }
    }

    /// The greatest element below `e` or equal to it.
    pub fn floor<S: Store>(&self, store: &S, e: &KF::Item) -> (r: Result<Option<KF::Item>>)
        ensures
            self.backing().refuses(store.state(), r),
            self.wf(store.state().records) ==> served(store.state(), r)
                && (r matches Ok(x) ==> is_end_key(
                &self.kf(),
                ranged(
                    &self.kf(),
                    self.backing().contents(store.state().records),
                    None,
                    true,
                    Some(e@),
                    true,
                ),
                true,
                opt_model(x),
            )),
    {
        match self.map.floor_entry(store, e) {
            Ok(Some((k, _))) => Ok(Some(k)),
            Ok(None) => Ok(None),
            Err(e) => Err(e),
        }
    }

    /// The least element above `e` or equal to it.
    pub fn ceiling<S: Store>(&self, store: &S, e: &KF::Item) -> (r: Result<Option<KF::Item>>)
        ensures
            self.backing().refuses(store.state(), r),
            self.wf(store.state().records) ==> served(store.state(), r)
                && (r matches Ok(x) ==> is_end_key(
                &self.kf(),
                ranged(
                    &self.kf(),
                    self.backing().contents(store.state().records),
                    Some(e@),
                    true,
                    None,
                    true,
                ),
                false,
                opt_model(x),
            )),
    {
        match self.map.ceiling_entry(store, e) {
            Ok(Some((k, _))) => Ok(Some(k)),
            Ok(None) => Ok(None),
            Err(e) => Err(e),
        }
    }

    /// The least element above `e`.
    pub fn higher<S: Store>(&self, store: &S, e: &KF::Item) -> (r: Result<Option<KF::Item>>)
        ensures
            self.backing().refuses(store.state(), r),
            self.wf(store.state().records) ==> served(store.state(), r)
                && (r matches Ok(x) ==> is_end_key(
                &self.kf(),
                ranged(
                    &self.kf(),
                    self.backing().contents(store.state().records),
                    Some(e@),
                    false,
                    None,
                    true,
                ),
                false,
                opt_model(x),
            )),
    {
        match self.map.higher_entry(store, e) {
            Ok(Some((k, _))) => Ok(Some(k)),
            Ok(None) => Ok(None),
            Err(e) => Err(e),
        }
    }

    /// Removes the least element and answers it.
    pub fn poll_first<S: Store>(&mut self, store: &mut S) -> (r: Result<Option<KF::Item>>)
        ensures
            old(self).backing().refuses(old(store).state(), r),
            old(self).backing().read_only_in(old(store).state()) ==> {
                let s = old(self).elements(old(store).state().records);
                &&& final(store).state().records == old(store).state().records
                &&& s =~= Set::empty() ==> (r matches Ok(x) && x is None)
                &&& !(s =~= Set::empty())
                    ==> r == Err::<Option<KF::Item>, DbError>(DbError::ReadOnly)
            },
            old(self).wf(old(store).state().records) ==> {
                let a = old(store).state();
                let s = old(self).elements(a.records);
                &&& carried_out(old(store).state(), r)
                &&& r is Err ==> {
                    let b = final(store).state();
                    &&& final(self).failed(old(self), a, b, Set::empty(), s)
                    &&& final(self).backing().spoiled() || lacks_one(s, final(self).elements(b.records))
                }
                &&& r matches Ok(x) ==> is_end_key(
                    &old(self).kf(),
                    old(self).backing().contents(a.records),
                    false,
                    opt_model(x),
                )
                &&& r is Ok ==> final(self).became(
                    old(self),
                    a,
                    final(store).state(),
                    match opt_model(r.unwrap()) {
                        Some(k) => s.remove(k),
                        None => s,
                    },
                    0,
                )
            },
    {
        let ghost a = store.state();
        let ghost m = self.map.contents(a.records);
        proof {
            crate::btree::range::lemma_ranged_all(&self.map.kf(), m, true, true);
        }
        let r = match self.map.poll_first_range(store, None, true, None, true) {
            Ok(Some((k, _))) => Ok(Some(k)),
            Ok(None) => Ok(None),
            Err(e) => Err(e),
        };
        proof {
            if old(self).wf(a.records) && r is Ok {
                match opt_model(r.unwrap()) {
                    Some(k) => {
                        self.lemma_became(old(self), a, store.state(), m.remove(k), 0);
                        assert(m.remove(k).dom() =~= m.dom().remove(k));
                    },
                    None => {
                        self.lemma_became(old(self), a, store.state(), m, 0);
                    },
                }
            }
        }
        r
    }

    /// Removes the greatest element and answers it.
    pub fn poll_last<S: Store>(&mut self, store: &mut S) -> (r: Result<Option<KF::Item>>)
        ensures
            old(self).backing().refuses(old(store).state(), r),
            old(self).backing().read_only_in(old(store).state()) ==> {
                let s = old(self).elements(old(store).state().records);
                &&& final(store).state().records == old(store).state().records
                &&& s =~= Set::empty() ==> (r matches Ok(x) && x is None)
                &&& !(s =~= Set::empty())
                    ==> r == Err::<Option<KF::Item>, DbError>(DbError::ReadOnly)
            },
            old(self).wf(old(store).state().records) ==> {
                let a = old(store).state();
                let s = old(self).elements(a.records);
                &&& carried_out(old(store).state(), r)
                &&& r is Err ==> {
                    let b = final(store).state();
                    &&& final(self).failed(old(self), a, b, Set::empty(), s)
                    &&& final(self).backing().spoiled() || lacks_one(s, final(self).elements(b.records))
                }
                &&& r matches Ok(x) ==> is_end_key(
                    &old(self).kf(),
                    old(self).backing().contents(a.records),
                    true,
                    opt_model(x),
                )
                &&& r is Ok ==> final(self).became(
                    old(self),
                    a,
                    final(store).state(),
                    match opt_model(r.unwrap()) {
                        Some(k) => s.remove(k),
                        None => s,
                    },
                    0,
                )
            },
    {
        let ghost a = store.state();
        let ghost m = self.map.contents(a.records);
        proof {
            crate::btree::range::lemma_ranged_all(&self.map.kf(), m, true, true);
        }
        let r = match self.map.poll_last_range(store, None, true, None, true) {
            Ok(Some((k, _))) => Ok(Some(k)),
            Ok(None) => Ok(None),
            Err(e) => Err(e),
        };
        proof {
            if old(self).wf(a.records) && r is Ok {
                match opt_model(r.unwrap()) {
                    Some(k) => {
                        self.lemma_became(old(self), a, store.state(), m.remove(k), 0);
                        assert(m.remove(k).dom() =~= m.dom().remove(k));
                    },
                    None => {
                        self.lemma_became(old(self), a, store.state(), m, 0);
                    },
                }
            }
        }
        r
    }

    /// The set in descending order.
    pub fn descending_set(&self) -> (r: NavigableSetView<KF>)
        ensures
            r.reversed(),
            forall|records: Records| #[trigger] r.window(self, records) == self.backing().contents(
                records,
            ),
    {
        NavigableSetView { view: self.map.descending() }
    }

    /// The elements between two bounds.
    pub fn sub_set(&self, from: KF::Item, from_inc: bool, to: KF::Item, to_inc: bool) -> (r:
        NavigableSetView<KF>)
        requires
            !self.kf().lt(to@, from@),
        ensures
            !r.reversed(),
            forall|x: Model<KF>| #[trigger]
                r.shows(self, x) == in_range(
                    &self.kf(),
                    x,
                    Some(from@),
                    from_inc,
                    Some(to@),
                    to_inc,
                ),
    {
        NavigableSetView { view: self.map.sub_map(from, from_inc, to, to_inc) }
    }

    /// The elements up to a bound.
    pub fn head_set(&self, to: KF::Item, inc: bool) -> (r: NavigableSetView<KF>)
        ensures
            !r.reversed(),
            forall|x: Model<KF>| #[trigger]
                r.shows(self, x) == hi_ok(&self.kf(), x, Some(to@), inc),
    {
        NavigableSetView { view: self.map.head_map(to, inc) }
    }

    /// The elements from a bound on.
    pub fn tail_set(&self, from: KF::Item, inc: bool) -> (r: NavigableSetView<KF>)
        ensures
            !r.reversed(),
            forall|x: Model<KF>| #[trigger]
                r.shows(self, x) == lo_ok(&self.kf(), x, Some(from@), inc),
    {
        NavigableSetView { view: self.map.tail_map(from, inc) }
    }
}

/// A view of the elements of a set between two bounds, ascending or descending. It
/// is used together with the set and the store it is a view of.
pub struct NavigableSetView<KF: KeyFormat> {
    view: RangeView<BTreeMap<KF, NoValueFormat>>,
}

impl<KF: KeyFormat> NavigableSetView<KF> {
    /// The view of the map that is used as the set.
    pub closed spec fn inner(&self) -> RangeView<BTreeMap<KF, NoValueFormat>> {
        self.view
    }

    pub open spec fn reversed(&self) -> bool {
        self.inner().reversed()
    }

    /// Element `k` lies between the bounds.
    pub open spec fn shows(&self, set: &NavigableSet<KF>, k: Model<KF>) -> bool {
        self.inner().shows(&set.backing(), k)
    }

    /// The elements between the bounds.
    pub open spec fn window(&self, set: &NavigableSet<KF>, records: Records) -> Map<Model<KF>, ()> {
        self.inner().window(&set.backing(), records)
    }

    /// The bounds leave no element.
    pub open spec fn keyless(&self, set: &NavigableSet<KF>) -> bool {
        self.inner().keyless(&set.backing())
    }

    pub fn contains<S: Store>(&self, set: &NavigableSet<KF>, store: &S, element: &KF::Item) -> (r:
        Result<bool>)
        ensures
            self.shows(set, element@) ==> refused(set.backing().spoiled(), store.state(), r),
            !self.shows(set, element@) ==> r == Ok::<bool, DbError>(false),
            set.wf(store.state().records) ==> served(store.state(), r) && (
            r matches Ok(x) ==>
                x == (self.window(set, store.state().records).contains_key(element@))),
    {
        self.view.contains_key(&set.map, store, element)
    }

    /// Removes an element that lies between the bounds; answers whether it was there.
    pub fn remove<S: Store>(
        &self,
        set: &mut NavigableSet<KF>,
        store: &mut S,
        element: &KF::Item,
    ) -> (r: Result<bool>)
        ensures
            self.shows(old(set), element@)
                ==> refused(old(set).backing().spoiled(), old(store).state(), r),
            !self.shows(old(set), element@) ==> r == Ok::<bool, DbError>(false)
                && *final(store) == *old(
                store,
            ),
            old(set).wf(old(store).state().records) && locked(old(store).state()) ==> {
                let hit = self.window(old(set), old(store).state().records).contains_key(element@);
                &&& final(store).state().records == old(store).state().records
                &&& hit ==> r == Err::<bool, DbError>(DbError::ReadOnly)
                &&& !hit ==> r == Ok::<bool, DbError>(false)
            },
            old(set).wf(old(store).state().records) ==> {
                let a = old(store).state();
                let hit = self.window(old(set), a.records).contains_key(element@);
                let s = old(set).elements(a.records);
                &&& carried_out(old(store).state(), r)
                &&& r matches Ok(x) ==> x == (hit)
                &&& r is Err ==> final(set).failed(
                    old(set),
                    old(store).state(),
                    final(store).state(),
                    s.remove(element@),
                    s,
                )
                &&& r is Ok ==> final(set).became(
                    old(set),
                    a,
                    final(store).state(),
                    if hit {
                        s.remove(element@)
                    } else {
                        s
                    },
                    0,
                )
            },
    {
        let ghost a = store.state();
        let ghost m = set.map.contents(a.records);
        let ghost hit = self.window(set, a.records).contains_key(element@);
        let r = self.view.remove(&mut set.map, store, element);
        proof {
            if old(set).wf(a.records) && r is Ok {
                let m2 = if hit {
                    m.remove(element@)
                } else {
                    m
                };
                set.lemma_became(old(set), a, store.state(), m2, 0);
                if hit {
                    assert(m2.dom() =~= m.dom().remove(element@));
                }
            }
        }
        match r {
            Ok(v) => Ok(v.is_some()),
            Err(e) => Err(e),
        }
    }

    /// Removes every element between the bounds.
    pub fn clear<S: Store>(&self, set: &mut NavigableSet<KF>, store: &mut S) -> (r: Result<()>)
        ensures
            self.keyless(old(set)) ==> r is Ok && *final(store) == *old(store),
            !self.keyless(old(set))
                ==> refused(old(set).backing().spoiled(), old(store).state(), r),
            old(set).wf(old(store).state().records) && locked(old(store).state()) ==> {
                let w = self.window(old(set), old(store).state().records);
                &&& final(store).state().records == old(store).state().records
                &&& w =~= Map::empty() ==> r is Ok
                &&& !(w =~= Map::empty()) ==> r == Err::<(), DbError>(DbError::ReadOnly)
            },
            old(set).wf(old(store).state().records) ==> carried_out(old(store).state(), r),
            old(set).wf(old(store).state().records) && r is Err ==> {
                let s = old(set).elements(old(store).state().records);
                final(set).failed(
                    old(set),
                    old(store).state(),
                    final(store).state(),
                    s.difference(self.window(old(set), old(store).state().records).dom()),
                    s,
                )
            },
            old(set).wf(old(store).state().records) && r is Ok ==> final(set).became(
                old(set),
                old(store).state(),
                final(store).state(),
                old(set).elements(old(store).state().records).difference(
                    self.window(old(set), old(store).state().records).dom(),
                ),
                0,
            ),
    {
        let ghost a = store.state();
        let ghost m = set.map.contents(a.records);
        let ghost w = self.window(set, a.records).dom();
        let r = self.view.clear(&mut set.map, store);
        proof {
            if old(set).wf(a.records) && r is Ok {
                set.lemma_became(old(set), a, store.state(), m.remove_keys(w), 0);
                assert(m.remove_keys(w).dom() =~= m.dom().difference(w));
            }
        }
        r
    }

    pub fn size_long<S: Store>(&self, set: &NavigableSet<KF>, store: &S) -> (r: Result<u64>)
        ensures
            self.keyless(set) ==> r == Ok::<u64, DbError>(0),
            !self.keyless(set) ==> refused(set.backing().spoiled(), store.state(), r),
            set.wf(store.state().records) ==> {
                let w = self.window(set, store.state().records);
                served(store.state(), r) && (w.len() <= u64::MAX ==> (r matches Ok(n) ==> n
                    == w.len()))
            },
    {
        self.view.size_long(&set.map, store)
    }

    pub fn is_empty<S: Store>(&self, set: &NavigableSet<KF>, store: &S) -> (r: Result<bool>)
        ensures
            self.keyless(set) ==> r == Ok::<bool, DbError>(true),
            !self.keyless(set) ==> refused(set.backing().spoiled(), store.state(), r),
            set.wf(store.state().records) ==> served(store.state(), r) && (
            r matches Ok(x) ==>
                x == (self.window(set, store.state().records) == Map::<Model<KF>, ()>::empty())),
    {
        self.view.is_empty(&set.map, store)
    }

    /// The elements in the direction of the view.
    pub fn to_vec<S: Store>(&self, set: &NavigableSet<KF>, store: &S) -> (r: Result<Vec<KF::Item>>)
        ensures
            self.keyless(set) ==> (r matches Ok(v) && v@.len() == 0),
            !self.keyless(set) ==> refused(set.backing().spoiled(), store.state(), r),
            set.wf(store.state().records) ==> served(store.state(), r)
                && (r matches Ok(v) ==> lists_keys(
                &set.kf(),
                oriented(models(v@), self.reversed()),
                self.window(set, store.state().records),
            )),
    {
        self.view.keys(&set.map, store)
    }

    /// The first element in the direction of the view.
    pub fn first<S: Store>(
        &self,
        set: &NavigableSet<KF>,
        store: &S,
    ) -> (r: Result<Option<KF::Item>>)
        ensures
            asked(set.backing().spoiled(), store.state(), self.keyless(set), r),
            set.wf(store.state().records) ==> served(store.state(), r)
                && (r matches Ok(x) ==> is_end_key(
                &set.kf(),
                self.window(set, store.state().records),
                self.reversed(),
                opt_model(x),
            )),
    {
        self.view.first_key(&set.map, store)
    }

    /// The last element in the direction of the view.
    pub fn last<S: Store>(&self, set: &NavigableSet<KF>, store: &S) -> (r: Result<Option<KF::Item>>)
        ensures
            asked(set.backing().spoiled(), store.state(), self.keyless(set), r),
            set.wf(store.state().records) ==> served(store.state(), r)
                && (r matches Ok(x) ==> is_end_key(
                &set.kf(),
                self.window(set, store.state().records),
                !self.reversed(),
                opt_model(x),
            )),
    {
        self.view.last_key(&set.map, store)
    }

    /// The last element before `e` in the direction of the view.
    pub fn lower<S: Store>(
        &self,
        set: &NavigableSet<KF>,
        store: &S,
        e: &KF::Item,
    ) -> (r: Result<Option<KF::Item>>)
        ensures
            asked(
                set.backing().spoiled(),
                store.state(),
                self.inner().none_before(&set.backing(), e@, false),
                r,
            ),
            set.wf(store.state().records) ==> served(store.state(), r)
                && (r matches Ok(x) ==> is_end_key(
                &set.kf(),
                keys_before(
                    &set.kf(),
                    self.window(set, store.state().records),
                    e@,
                    false,
                    self.reversed(),
                ),
                !self.reversed(),
                opt_model(x),
            )),
    {
        self.view.lower_key(&set.map, store, e)
    }

    /// The last element before `e` or equal to it.
    pub fn floor<S: Store>(
        &self,
        set: &NavigableSet<KF>,
        store: &S,
        e: &KF::Item,
    ) -> (r: Result<Option<KF::Item>>)
        ensures
            asked(
                set.backing().spoiled(),
                store.state(),
                self.inner().none_before(&set.backing(), e@, true),
                r,
            ),
            set.wf(store.state().records) ==> served(store.state(), r)
                && (r matches Ok(x) ==> is_end_key(
                &set.kf(),
                keys_before(
                    &set.kf(),
                    self.window(set, store.state().records),
                    e@,
                    true,
                    self.reversed(),
                ),
                !self.reversed(),
                opt_model(x),
            )),
    {
        self.view.floor_key(&set.map, store, e)
    }

    /// The first element after `e` or equal to it.
    pub fn ceiling<S: Store>(
        &self,
        set: &NavigableSet<KF>,
        store: &S,
        e: &KF::Item,
    ) -> (r: Result<Option<KF::Item>>)
        ensures
            asked(
                set.backing().spoiled(),
                store.state(),
                self.inner().none_after(&set.backing(), e@, true),
                r,
            ),
            set.wf(store.state().records) ==> served(store.state(), r)
                && (r matches Ok(x) ==> is_end_key(
                &set.kf(),
                keys_after(
                    &set.kf(),
                    self.window(set, store.state().records),
                    e@,
                    true,
                    self.reversed(),
                ),
                self.reversed(),
                opt_model(x),
            )),
    {
        self.view.ceiling_key(&set.map, store, e)
    }

    /// The first element after `e`.
    pub fn higher<S: Store>(
        &self,
        set: &NavigableSet<KF>,
        store: &S,
        e: &KF::Item,
    ) -> (r: Result<Option<KF::Item>>)
        ensures
            asked(
                set.backing().spoiled(),
                store.state(),
                self.inner().none_after(&set.backing(), e@, false),
                r,
            ),
            set.wf(store.state().records) ==> served(store.state(), r)
                && (r matches Ok(x) ==> is_end_key(
                &set.kf(),
                keys_after(
                    &set.kf(),
                    self.window(set, store.state().records),
                    e@,
                    false,
                    self.reversed(),
                ),
                self.reversed(),
                opt_model(x),
            )),
    {
        self.view.higher_key(&set.map, store, e)
    }

    /// Removes the first element in the direction of the view and answers it.
    pub fn poll_first<S: Store>(
        &self,
        set: &mut NavigableSet<KF>,
        store: &mut S,
    ) -> (r: Result<Option<KF::Item>>)
        ensures
            asked(old(set).backing().spoiled(), old(store).state(), self.keyless(old(set)), r),
            old(set).wf(old(store).state().records) && locked(old(store).state()) ==> {
                let w = self.window(old(set), old(store).state().records);
                &&& final(store).state().records == old(store).state().records
                &&& w =~= Map::empty() ==> (r matches Ok(x) && x is None)
                &&& !(w =~= Map::empty())
                    ==> r == Err::<Option<KF::Item>, DbError>(DbError::ReadOnly)
            },
            old(set).wf(old(store).state().records) ==> {
                let a = old(store).state();
                let s = old(set).elements(a.records);
                &&& carried_out(old(store).state(), r)
                &&& r is Err ==> {
                    let b = final(store).state();
                    &&& final(set).failed(old(set), a, b, Set::empty(), s)
                    &&& final(set).backing().spoiled() || lacks_one(s, final(set).elements(b.records))
                }
                &&& r matches Ok(x) ==> is_end_key(
                    &old(set).kf(),
                    self.window(old(set), a.records),
                    self.reversed(),
                    opt_model(x),
                )
                &&& r is Ok ==> final(set).became(
                    old(set),
                    a,
                    final(store).state(),
                    match opt_model(r.unwrap()) {
                        Some(k) => s.remove(k),
                        None => s,
                    },
                    0,
                )
            },
    {
        let ghost a = store.state();
        let ghost m = set.map.contents(a.records);
        let r = match self.view.poll_first_entry(&mut set.map, store) {
            Ok(Some((k, _))) => Ok(Some(k)),
            Ok(None) => Ok(None),
            Err(e) => Err(e),
        };
        proof {
            if old(set).wf(a.records) && r is Ok {
                match opt_model(r.unwrap()) {
                    Some(k) => {
                        set.lemma_became(old(set), a, store.state(), m.remove(k), 0);
                        assert(m.remove(k).dom() =~= m.dom().remove(k));
                    },
                    None => {
                        set.lemma_became(old(set), a, store.state(), m, 0);
                    },
                }
            }
        }
        r
    }

    /// Removes the last element in the direction of the view and answers it.
    pub fn poll_last<S: Store>(
        &self,
        set: &mut NavigableSet<KF>,
        store: &mut S,
    ) -> (r: Result<Option<KF::Item>>)
        ensures
            asked(old(set).backing().spoiled(), old(store).state(), self.keyless(old(set)), r),
            old(set).wf(old(store).state().records) && locked(old(store).state()) ==> {
                let w = self.window(old(set), old(store).state().records);
                &&& final(store).state().records == old(store).state().records
                &&& w =~= Map::empty() ==> (r matches Ok(x) && x is None)
                &&& !(w =~= Map::empty())
                    ==> r == Err::<Option<KF::Item>, DbError>(DbError::ReadOnly)
            },
            old(set).wf(old(store).state().records) ==> {
                let a = old(store).state();
                let s = old(set).elements(a.records);
                &&& carried_out(old(store).state(), r)
                &&& r is Err ==> {
                    let b = final(store).state();
                    &&& final(set).failed(old(set), a, b, Set::empty(), s)
                    &&& final(set).backing().spoiled() || lacks_one(s, final(set).elements(b.records))
                }
                &&& r matches Ok(x) ==> is_end_key(
                    &old(set).kf(),
                    self.window(old(set), a.records),
                    !self.reversed(),
                    opt_model(x),
                )
                &&& r is Ok ==> final(set).became(
                    old(set),
                    a,
                    final(store).state(),
                    match opt_model(r.unwrap()) {
                        Some(k) => s.remove(k),
                        None => s,
                    },
                    0,
                )
            },
    {
        let ghost a = store.state();
        let ghost m = set.map.contents(a.records);
        let r = match self.view.poll_last_entry(&mut set.map, store) {
            Ok(Some((k, _))) => Ok(Some(k)),
            Ok(None) => Ok(None),
            Err(e) => Err(e),
        };
        proof {
            if old(set).wf(a.records) && r is Ok {
                match opt_model(r.unwrap()) {
                    Some(k) => {
                        set.lemma_became(old(set), a, store.state(), m.remove(k), 0);
                        assert(m.remove(k).dom() =~= m.dom().remove(k));
                    },
                    None => {
                        set.lemma_became(old(set), a, store.state(), m, 0);
                    },
                }
            }
        }
        r
    }

    /// The same elements in the other direction.
    pub fn descending_set(&self, set: &NavigableSet<KF>) -> (r: Self)
        ensures
            r.reversed() == !self.reversed(),
            forall|k: Model<KF>| #[trigger] r.shows(set, k) == self.shows(set, k),
    {
        NavigableSetView { view: self.view.descending(&set.map) }
    }

    /// A narrower view; the bounds are in the direction of this one.
    pub fn sub_set(
        &self,
        set: &NavigableSet<KF>,
        from: KF::Item,
        from_inc: bool,
        to: KF::Item,
        to_inc: bool,
    ) -> (r: Self)
        requires
            !comes_after(&set.kf(), from@, to@, self.reversed()),
            self.inner().bound_ok(&set.backing(), from@, from_inc),
            self.inner().bound_ok(&set.backing(), to@, to_inc),
        ensures
            r.reversed() == self.reversed(),
            forall|x: Model<KF>| #[trigger]
                r.shows(set, x) == (self.shows(set, x) && after_bound(
                    &set.kf(),
                    x,
                    from@,
                    from_inc,
                    self.reversed(),
                ) && after_bound(&set.kf(), x, to@, to_inc, !self.reversed())),
    {
        NavigableSetView { view: self.view.sub_map(&set.map, from, from_inc, to, to_inc) }
    }

    /// The part of this view up to a bound.
    pub fn head_set(&self, set: &NavigableSet<KF>, to: KF::Item, inc: bool) -> (r: Self)
        requires
            self.inner().bound_ok(&set.backing(), to@, inc),
        ensures
            r.reversed() == self.reversed(),
            forall|x: Model<KF>| #[trigger]
                r.shows(set, x) == (self.shows(set, x) && after_bound(
                    &set.kf(),
                    x,
                    to@,
                    inc,
                    !self.reversed(),
                )),
    {
        NavigableSetView { view: self.view.head_map(&set.map, to, inc) }
    }

    /// The part of this view from a bound on.
    pub fn tail_set(&self, set: &NavigableSet<KF>, from: KF::Item, inc: bool) -> (r: Self)
        requires
            self.inner().bound_ok(&set.backing(), from@, inc),
        ensures
            r.reversed() == self.reversed(),
            forall|x: Model<KF>| #[trigger]
                r.shows(set, x) == (self.shows(set, x) && after_bound(
                    &set.kf(),
                    x,
                    from@,
                    inc,
                    self.reversed(),
                )),
    {
        NavigableSetView { view: self.view.tail_map(&set.map, from, inc) }
    }
}

/// The elements of a set are the keys of the map that it is kept in, and a change of the
/// set is that change of its elements.
pub proof fn law_set_elements<KF: KeyFormat>(
    set: &NavigableSet<KF>,
    before: &NavigableSet<KF>,
    a: StoreState,
    b: StoreState,
    s: Set<Model<KF>>,
    spent: nat,
    k: Model<KF>,
)
    requires
        set.became(before, a, b, s, spent),
    ensures
        set.elements(b.records).contains(k) <==> set.backing().contents(b.records).contains_key(k),
        set.elements(b.records).contains(k) <==> s.contains(k),
        unit_map(s).contains_key(k) <==> s.contains(k),
{
}

/// A set stores its elements with nothing beside them.
pub proof fn law_nothing_beside_elements()
    ensures
        NoValueFormat.enc(()) == Seq::<u8>::empty(),
        NoValueFormat.width() == Some(0usize),
{
}

} // verus!
