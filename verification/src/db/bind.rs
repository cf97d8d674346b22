//! Bindings: indexes, counters and other views that follow a map.
//!
//! To bind something to a map is to fill it, where it is empty, from the entries that
//! the map holds, and to have the map keep it: from then on the map tells it of every
//! change, with the key, the value before and the value after. Indexes cannot wait;
//! counters, histograms and the values of deleted keys can.

use std::marker::PhantomData;
use vstd::prelude::*;
use crate::btree::contents::lists;
use crate::btree::map::write::{frames, spares};
use crate::btree::map::{lookup, opt_ref_model, BTreeMap};
use crate::btree::range::{entry_models, lemma_lists_len};
use crate::db::atomic::AtomicLong;
use crate::db::bound::{changed, followable, Binding, Both, BoundMap, Refused};
use crate::db::secondary::{removed_if, serves, SecMap, SecSet, SecondaryMap};
use crate::error::{DbError, Result};
use crate::ser::{
    group_key_order, models, KeyFormat, LongFormat, Model, Models, PairFormat, Serializer, LONG,
};
use crate::store::{carried_out, keeps_state, served, Records, Store};

verus! {

// ---------------------------------------------------------------- what is derived

/// Something derived from an entry.
pub trait Derive<KF: KeyFormat, VF: Serializer, D: Serializer> {
    spec fn derived(&self, k: Model<KF>, v: Model<VF>) -> Model<D>;

    fn derive(&self, k: &KF::Item, v: &VF::Item) -> (r: D::Item)
        ensures
            r@ == self.derived(k@, v@),
    ;
}

/// Some things derived from an entry.
pub trait DeriveMany<KF: KeyFormat, VF: Serializer, D: Serializer> {
    spec fn derived_all(&self, k: Model<KF>, v: Model<VF>) -> Models<D>;

    fn derive_all(&self, k: &KF::Item, v: &VF::Item) -> (r: Vec<D::Item>)
        ensures
            models(r@) == self.derived_all(k@, v@),
    ;
}

/// The value of an entry.
#[derive(Debug, Clone, Copy)]
pub struct ValueItself<VF> {
    pub format: VF,
}

impl<KF: KeyFormat, VF: Serializer> Derive<KF, VF, VF> for ValueItself<VF> {
    open spec fn derived(&self, k: Model<KF>, v: Model<VF>) -> Model<VF> {
        v
    }

    fn derive(&self, k: &KF::Item, v: &VF::Item) -> VF::Item {
        self.format.dup(v)
    }
}

/// The one thing that another rule derives.
#[derive(Debug, Clone, Copy)]
pub struct OneOf<F> {
    pub rule: F,
}

impl<KF: KeyFormat, VF: Serializer, D: Serializer, F: Derive<KF, VF, D>> DeriveMany<KF, VF, D> for OneOf<
    F,
> {
    open spec fn derived_all(&self, k: Model<KF>, v: Model<VF>) -> Models<D> {
        seq![self.rule.derived(k, v)]
    }

    fn derive_all(&self, k: &KF::Item, v: &VF::Item) -> Vec<D::Item> {
        let mut out: Vec<D::Item> = Vec::new();
        out.push(self.rule.derive(k, v));
        assert(models(out@) =~= self.derived_all(k@, v@));
        out
    }
}

// ---------------------------------------------------------------- no map follows itself

/// Refuses to bind a map to itself. Both are maps of one store, the one that a change is
/// carried out in: there a root pointer belongs to one map only.
pub fn reject_self_bind<KF: KeyFormat, VF: Serializer>(
    primary: &BTreeMap<KF, VF>,
    secondary: &BTreeMap<KF, VF>,
) -> (r: Result<()>)
    ensures
        primary.pointer() != secondary.pointer() ==> r is Ok,
        primary.pointer() == secondary.pointer() ==> (r matches Err(e) && e is WrongConfiguration),
{
    reject_self_bind_id(primary, Some(secondary.state_id()))
}

fn reject_self_bind_id<KF: KeyFormat, VF: Serializer>(
    primary: &BTreeMap<KF, VF>,
    secondary: Option<u64>,
) -> (r: Result<()>)
    ensures
        secondary != Some(primary.pointer()) ==> r is Ok,
        secondary == Some(primary.pointer()) ==> (r matches Err(e) && e is WrongConfiguration),
{
    match secondary {
        Some(id) => if id == primary.state_id() {
            Err(
                DbError::wrong_config(
                    String::from_str("cannot bind a map to itself (direct self-cycle)"),
                ),
            )
        } else {
            Ok(())
        },
        None => Ok(()),
    }
}

// ---------------------------------------------------------------- a value for each key

/// Each key with what is derived from its entry.
pub open spec fn derived_map<KF: KeyFormat, VF: Serializer, D: Serializer, F: Derive<KF, VF, D>>(
    f: &F,
    m: Map<Model<KF>, Model<VF>>,
) -> Map<Model<KF>, Model<D>> {
    Map::new(|k: Model<KF>| m.contains_key(k), |k: Model<KF>| f.derived(k, m[k]))
}

/// A part of a map that lacks a key is smaller.
proof fn lemma_part_smaller<K, V>(part: Map<K, V>, m: Map<K, V>, k: K)
    requires
        m.dom().finite(),
        m.contains_key(k),
        !part.contains_key(k),
        forall|x: K| #[trigger] part.contains_key(x) ==> m.contains_key(x),
    ensures
        part.dom().finite(),
        part.len() < m.len(),
{
    let more = part.dom().insert(k);
    assert forall|x: K| #[trigger] more.contains(x) implies m.dom().contains(x) by {
        if x != k {
            assert(part.contains_key(x));
        }
    }
    vstd::set_lib::lemma_set_subset_finite(m.dom(), part.dom());
    vstd::set_lib::lemma_len_subset(more, m.dom());
}

/// As many things are derived as there are entries.
proof fn lemma_derived_len<KF: KeyFormat, VF: Serializer, D: Serializer, F: Derive<KF, VF, D>>(
    f: &F,
    m: Map<Model<KF>, Model<VF>>,
)
    ensures
        derived_map(f, m).len() == m.len(),
{
    assert(derived_map(f, m).dom() =~= m.dom());
}

/// There are no more derived keys than entries.
proof fn lemma_inverse_len<KF: KeyFormat, VF: Serializer, D: Serializer, F: Derive<KF, VF, D>>(
    f: &F,
    m: Map<Model<KF>, Model<VF>>,
)
    requires
        m.dom().finite(),
    ensures
        inverse_map(f, m).len() <= m.len(),
{
    let g = |k: Model<KF>| f.derived(k, m[k]);
    let all = m.dom().map(g);
    let inv = inverse_map(f, m).dom();
    assert forall|d: Model<D>| inv.contains(d) implies all.contains(d) by {
        let k = choose|k: Model<KF>| #[trigger] derives(f, m, k, d);
        assert(m.dom().contains(k) && g(k) == d);
    }
    m.dom().lemma_map_finite(g);
    vstd::set_lib::lemma_map_size_bound(m.dom(), all, g);
    vstd::set_lib::lemma_len_subset(inv, all);
}

/// The secondary can hold what is derived from each entry.
pub open spec fn values_taken<
    KF: KeyFormat,
    VF: Serializer,
    D: Serializer,
    M: SecMap<KF, D>,
    F: Derive<KF, VF, D>,
>(secondary: &M, f: &F, m: Map<Model<KF>, Model<VF>>) -> bool {
    forall|k: Model<KF>| #[trigger]
        m.contains_key(k) ==> secondary.sec_takes(k, f.derived(k, m[k]))
}

/// Fills an empty secondary with what is derived from each entry.
fn fill_values<
    S: Store,
    KF: KeyFormat,
    VF: Serializer,
    D: Serializer,
    M: SecMap<KF, D>,
    F: Derive<KF, VF, D>,
>(primary: &BTreeMap<KF, VF>, store: &mut S, secondary: &mut M, f: &F) -> (r: Result<()>)
    ensures
        ({
            let a = old(store).state();
            let b = final(store).state();
            let m = primary.contents(a.records);
            let s = old(secondary).sec_map(a.records);
            let own = old(secondary).sec_id() == Some(primary.pointer());
            &&& own ==> b == a && *final(secondary) == *old(secondary) && (r matches Err(e)
                && e is WrongConfiguration)
            &&& !own && primary.wf(a.records) && old(secondary).sec_wf(a.records)
                && m.len() <= i64::MAX && values_taken(old(secondary), f, m) ==> {
                &&& a.readable && old(secondary).sec_ready(a, m.len()) ==> r is Ok
                &&& r is Ok ==> {
                    &&& final(secondary).sec_changed(old(secondary), a, b)
                    &&& final(secondary).sec_wf(b.records)
                    &&& final(secondary).sec_map(b.records) == if s == Map::<
                        Model<KF>,
                        Model<D>,
                    >::empty() {
                        derived_map(f, m)
                    } else {
                        s
                    }
                }
            }
        }),
{
    match reject_self_bind_id(primary, secondary.sec_identity()) {
        Ok(_) => {},
        Err(e) => {
            return Err(e);
        },
    }
    let ghost a = store.state();
    let ghost first = *secondary;
    let ghost m = primary.contents(a.records);
    let ghost good = primary.wf(a.records) && secondary.sec_wf(a.records) && m.len() <= i64::MAX
        && values_taken(secondary, f, m);
    let ghost ready = good && a.readable && secondary.sec_ready(a, m.len());
    proof {
        secondary.sec_facts(a, m.len());
        if good {
            primary.lemma_finite(a.records);
        }
    }
    let empty = match secondary.sec_is_empty(store) {
        Ok(x) => x,
        Err(e) => {
            return Err(e);
        },
    };
    if !empty {
        return Ok(());
    }
    let entries = match primary.entries(store) {
        Ok(v) => v,
        Err(e) => {
            return Err(e);
        },
    };
    let ghost e = entry_models(entries@);
    let ghost mut given: Map<Model<KF>, Model<VF>> = Map::empty();
    proof {
        if good {
            lemma_lists_len(&primary.kf(), e, m);
            assert(derived_map::<KF, VF, D, F>(f, given) =~= Map::empty());
        }
    }
    let mut i: usize = 0;
    while i < entries.len()
        invariant
            i <= entries@.len(),
            e == entry_models(entries@),
            a == old(store).state(),
            first == *old(secondary),
            m == primary.contents(a.records),
            first.sec_id() != Some(primary.pointer()),
            good == (primary.wf(a.records) && first.sec_wf(a.records) && m.len() <= i64::MAX
                && values_taken(&first, f, m)),
            ready == (good && a.readable && first.sec_ready(a, m.len())),
            ready ==> secondary.sec_ready(store.state(), (e.len() - i) as nat),
            good ==> first.sec_map(a.records) == Map::<Model<KF>, Model<D>>::empty(),
            good ==> {
                &&& lists(&primary.kf(), e, m)
                &&& e.len() == m.len()
                &&& m.dom().finite()
                &&& secondary.sec_wf(store.state().records)
                &&& secondary.sec_changed(&first, a, store.state())
                &&& secondary.sec_map(store.state().records) == derived_map(f, given)
                &&& forall|j: int| 0 <= j < i ==> given.contains_key((#[trigger] e[j]).0)
                &&& forall|j: int| i <= j < e.len() ==> !given.contains_key((#[trigger] e[j]).0)
                &&& forall|k: Model<KF>| #[trigger]
                    given.contains_key(k) ==> m.contains_key(k) && given[k] == m[k]
                &&& values_taken(secondary, f, m)
            },
        decreases entries@.len() - i,
    {
        let ghost mid = *secondary;
        let ghost st = store.state();
        let k = primary.key_serializer().dup(&entries[i].0);
        let d = f.derive(&entries[i].0, &entries[i].1);
        let ghost km = k@;
        let ghost dm = d@;
        proof {
            assert(e[i as int] == (entries@[i as int].0@, entries@[i as int].1@));
            if good {
                assert(m.contains_key(e[i as int].0));
                assert(!given.contains_key(e[i as int].0));
                lemma_part_smaller(given, m, km);
                lemma_derived_len(f, given);
            }
        }
        match secondary.sec_put(store, k, d) {
            Ok(_) => {},
            Err(x) => {
                return Err(x);
            },
        }
        proof {
            if good {
                M::sec_chain(&first, &mid, secondary, a, st, store.state());
                let g2 = given.insert(km, m[km]);
                assert forall|j: int| i + 1 <= j < e.len() implies !g2.contains_key(
                    (#[trigger] e[j]).0,
                ) by {
                    broadcast use group_key_order;

                    assert(primary.kf().lt(e[i as int].0, e[j].0));
                    assert(!given.contains_key(e[j].0));
                }
                assert(derived_map(f, g2) =~= derived_map(f, given).insert(km, dm));
                given = g2;
            }
        }
        i = i + 1;
    }
    proof {
        if good {
            assert(given =~= m) by {
                assert forall|k: Model<KF>| m.contains_key(k) implies given.contains_key(k) by {
                    let j = choose|j: int| 0 <= j < e.len() && (#[trigger] e[j]).0 == k;
                    assert(given.contains_key(e[j].0));
                }
            }
        }
    }
    Ok(())
}

/// The index stays what the entries of the map tell, whatever change it follows.
pub proof fn law_value_index<KF: KeyFormat, VF: Serializer, D: Serializer, F: Derive<KF, VF, D>>(
    f: &F,
    m: Map<Model<KF>, Model<VF>>,
    k: Model<KF>,
    v: Option<Model<VF>>,
)
    ensures
        changed(
            derived_map(f, m),
            k,
            match v {
                Some(x) => Some(f.derived(k, x)),
                None => None,
            },
        ) == derived_map(f, changed(m, k, v)),
{
    match v {
        Some(x) => {
            assert(derived_map(f, m).insert(k, f.derived(k, x)) =~= derived_map(f, m.insert(k, x)));
        },
        None => {
            assert(derived_map(f, m).remove(k) =~= derived_map(f, m.remove(k)));
        },
    }
}

/// For each key what is derived from its entry.
pub struct ValueIndex<D, M, F> {
    pub secondary: M,
    pub rule: F,
    pub derived: PhantomData<D>,
}

impl<
    KF: KeyFormat,
    VF: Serializer,
    D: Serializer,
    M: SecMap<KF, D>,
    F: Derive<KF, VF, D>,
> Binding<KF, VF> for ValueIndex<D, M, F> {
    open spec fn in_step(&self, records: Records, m: Map<Model<KF>, Model<VF>>) -> bool {
        self.secondary.sec_wf(records) && self.secondary.sec_map(records) == derived_map(
            &self.rule,
            m,
        )
    }

    open spec fn holdings(&self) -> Set<u64> {
        self.secondary.sec_owned()
    }

    open spec fn needs(&self, v: Option<Model<VF>>) -> nat {
        match v {
            Some(_) => self.secondary.sec_room(),
            None => 0,
        }
    }

    open spec fn admits(
        &self,
        m: Map<Model<KF>, Model<VF>>,
        k: Model<KF>,
        v: Option<Model<VF>>,
    ) -> bool {
        v matches Some(x) ==> self.secondary.sec_takes(k, self.rule.derived(k, x))
    }

    open spec fn refusal(
        &self,
        m: Map<Model<KF>, Model<VF>>,
        k: Model<KF>,
        v: Option<Model<VF>>,
        e: DbError,
    ) -> bool {
        e is RecordTooLarge
    }

    /// The index stays as it was.
    open spec fn refused(
        &self,
        before: &Self,
        records: Records,
        m: Map<Model<KF>, Model<VF>>,
        k: Model<KF>,
        v: Option<Model<VF>>,
    ) -> bool {
        self.in_step(records, m) && self.rule == before.rule
    }

    open spec fn stepped(
        &self,
        before: &Self,
        k: Model<KF>,
        was: Option<Model<VF>>,
        new: Option<Model<VF>>,
    ) -> bool {
        self.rule == before.rule
    }

    open spec fn spare(&self, n: nat) -> bool {
        true
    }

    proof fn spare_less(&self, n: nat, k: nat) {
    }

    open spec fn light(&self) -> bool {
        true
    }

    proof fn lets_go(&self, m: Map<Model<KF>, Model<VF>>, k: Model<KF>) {
    }

    proof fn held(&self, records: Records, m: Map<Model<KF>, Model<VF>>) {
        self.secondary.sec_held(records);
    }

    proof fn untouched(&self, a: Records, b: Records, m: Map<Model<KF>, Model<VF>>) {
        assert forall|r: u64| #[trigger] self.secondary.sec_owned().contains(r)
            implies b.contains_key(r) && b[r] == a[r] by {
            assert(self.holdings().contains(r));
        }
        self.secondary.sec_untouched(a, b);
    }

    proof fn refused_untouched(
        &self,
        before: &Self,
        a: Records,
        b: Records,
        m: Map<Model<KF>, Model<VF>>,
        k: Model<KF>,
        v: Option<Model<VF>>,
    ) {
        self.secondary.sec_held(a);
        if forall|r: u64| #[trigger] self.holdings().contains(r) ==> b.contains_key(r) && b[r]
            == a[r] {
            self.untouched(a, b, m);
        }
    }

    fn follow<S: Store>(
        &mut self,
        store: &mut S,
        keys: &KF,
        values: &VF,
        key: &KF::Item,
        was: Option<&VF::Item>,
        new: Option<&VF::Item>,
    ) -> Result<()> {
        let ghost a = store.state();
        let ghost first = self.secondary;
        let r = match new {
            Some(v) => self.secondary.sec_put(store, keys.dup(key), self.rule.derive(key, v)),
            None => self.secondary.sec_remove(store, key),
        };
        proof {
            let b = store.state();
            let v = opt_ref_model(new);
            assert forall|m: Map<Model<KF>, Model<VF>>| #[trigger]
                old(self).in_step(a.records, m) && followable::<KF, VF>(
                    m,
                    key@,
                    opt_ref_model(was),
                ) implies {
                &&& keeps_state(a, b)
                &&& spares(a.records, b.records, old(self).holdings())
                &&& r is Ok ==> {
                    &&& frames(a, b, old(self).holdings(), self.holdings())
                    &&& b.room + old(self).needs(v) >= a.room
                    &&& self.in_step(b.records, changed(m, key@, v))
                }
                &&& serves(a, old(self).needs(v)) ==> {
                    &&& frames(a, b, old(self).holdings(), self.holdings())
                    &&& b.room + old(self).needs(v) >= a.room
                    &&& (r is Ok) == old(self).admits(m, key@, v)
                    &&& r matches Err(e) ==> old(self).refusal(m, key@, v, e) && self.refused(
                        old(self),
                        b.records,
                        m,
                        key@,
                        v,
                    )
                }
            } by {
                lemma_derived_len(&self.rule, m);
                law_value_index(&self.rule, m, key@, v);
                if r is Ok {
                    M::sec_frames(&first, &self.secondary, a, b);
                }
            }
        }
        r
    }
}

/// An index of a map that is in step answers for every key what is derived from its
/// entry.
pub proof fn law_value_index_answers<
    KF: KeyFormat,
    VF: Serializer,
    D: Serializer,
    M: SecMap<KF, D>,
    F: Derive<KF, VF, D>,
    Y: Binding<KF, VF>,
    L: Binding<KF, VF>,
>(map: &BoundMap<KF, VF, Both<Y, ValueIndex<D, M, F>>, L>, records: Records, k: Model<KF>)
    requires
        map.in_step(records),
    ensures
        ({
            let index = map.early().second;
            lookup(index.secondary.sec_map(records), k) == match lookup(map.contents(records), k) {
                Some(v) => Some(index.rule.derived(k, v)),
                None => None,
            }
        }),
{
}

/// Binds a map of what is derived from each entry: fills it where it is empty, and has
/// the map keep it.
pub fn secondary_value<
    S: Store,
    KF: KeyFormat,
    VF: Serializer,
    D: Serializer,
    M: SecMap<KF, D>,
    F: Derive<KF, VF, D>,
    Y: Binding<KF, VF>,
    L: Binding<KF, VF>,
>(primary: BoundMap<KF, VF, Y, L>, store: &mut S, secondary: M, f: F) -> (r:
    std::result::Result<
        BoundMap<KF, VF, Both<Y, ValueIndex<D, M, F>>, L>,
        Refused<BoundMap<KF, VF, Y, L>, M>,
    >)
    ensures
        r matches Err(x) ==> x.map == primary,
        r matches Ok(p) ==> p.joins_early(&primary) && p.early().second.rule == f,
        ({
            let a = old(store).state();
            let b = final(store).state();
            let m = primary.contents(a.records);
            let s = secondary.sec_map(a.records);
            let fill = s == Map::<Model<KF>, Model<D>>::empty();
            let own = secondary.sec_id() == Some(primary.backing().pointer());
            &&& own ==> b == a && (r matches Err(x) && x.error is WrongConfiguration && x.secondary
                == secondary)
            &&& !own && primary.backing().wf(a.records) && secondary.sec_wf(a.records)
                && m.len() <= i64::MAX && values_taken(&secondary, &f, m) ==> {
                &&& a.readable && secondary.sec_ready(a, m.len()) ==> r is Ok
                &&& r matches Ok(p) ==> {
                    let kept = p.early().second.secondary;
                    &&& kept.sec_changed(&secondary, a, b)
                    &&& kept.sec_wf(b.records)
                    &&& kept.sec_map(b.records) == if fill {
                        derived_map(&f, m)
                    } else {
                        s
                    }
                    &&& fill && primary.in_step(a.records) && secondary.sec_owned().disjoint(
                        primary.holdings(),
                    ) ==> p.in_step(b.records) && p.contents(b.records) == m
                }
            }
        }),
{
    let ghost a = store.state();
    let mut kept = secondary;
    match fill_values(primary.map(), store, &mut kept, &f) {
        Ok(_) => {
            let ghost b = store.state();
            let ghost before = primary;
            let (map, sync, deferred) = primary.into_parts();
            let index = ValueIndex { secondary: kept, rule: f, derived: PhantomData };
            let p = BoundMap::from_parts(map, Both { first: sync, second: index }, deferred);
            proof {
                if before.in_step(a.records) && kept.sec_changed(&secondary, a, b)
                    && secondary.sec_owned().disjoint(before.holdings()) {
                    M::sec_frames(&secondary, &kept, a, b);
                    before.lemma_others(a, b, secondary.sec_owned(), kept.sec_owned());
                    if index.in_step(b.records, before.contents(b.records)) {
                        p.lemma_joined_early(&before, b.records);
                    }
                }
            }
            Ok(p)
        },
        Err(e) => Err(Refused { error: e, map: primary, secondary: kept }),
    }
}

// ---------------------------------------------------------------- a key for each value

/// No two entries derive the same key.
pub open spec fn one_to_one<KF: KeyFormat, VF: Serializer, D: Serializer, F: Derive<KF, VF, D>>(
    f: &F,
    m: Map<Model<KF>, Model<VF>>,
) -> bool {
    forall|x: Model<KF>, y: Model<KF>|
        #![trigger m.contains_key(x), m.contains_key(y)]
        m.contains_key(x) && m.contains_key(y) && f.derived(x, m[x]) == f.derived(y, m[y])
            ==> x == y
}

/// The entry of `m` from which `d` is derived.
pub open spec fn derives<KF: KeyFormat, VF: Serializer, D: Serializer, F: Derive<KF, VF, D>>(
    f: &F,
    m: Map<Model<KF>, Model<VF>>,
    k: Model<KF>,
    d: Model<D>,
) -> bool {
    m.contains_key(k) && f.derived(k, m[k]) == d
}

/// Each derived key with the key of the entry.
pub open spec fn inverse_map<KF: KeyFormat, VF: Serializer, D: Serializer, F: Derive<KF, VF, D>>(
    f: &F,
    m: Map<Model<KF>, Model<VF>>,
) -> Map<Model<D>, Model<KF>> {
    Map::new(
        |d: Model<D>| exists|k: Model<KF>| #[trigger] derives(f, m, k, d),
        |d: Model<D>| choose|k: Model<KF>| #[trigger] derives(f, m, k, d),
    )
}

/// The index after an entry with a derived key is put, `None` where another entry has
/// that key.
pub open spec fn put_once<D, K>(s: Map<D, K>, d: D, k: K) -> Option<Map<D, K>> {
    if s.contains_key(d) {
        if s[d] == k {
            Some(s)
        } else {
            None
        }
    } else {
        Some(s.insert(d, k))
    }
}

fn put_unique<S: Store, DF: KeyFormat, KF: KeyFormat, M: SecMap<DF, KF>>(
    store: &mut S,
    secondary: &mut M,
    format: &KF,
    derived: DF::Item,
    primary_key: &KF::Item,
) -> (r: Result<()>)
    ensures
        final(secondary).sec_id() == old(secondary).sec_id(),
        forall|x: Model<DF>, y: Model<KF>| #[trigger]
            final(secondary).sec_takes(x, y) == old(secondary).sec_takes(x, y),
        forall|n: nat| #[trigger]
            old(secondary).sec_ready(old(store).state(), n) && n > 0 && old(secondary).sec_takes(
                derived@,
                primary_key@,
            ) ==> {
                let s = old(secondary).sec_map(old(store).state().records);
                let t = put_once(s, derived@, primary_key@);
                &&& final(secondary).sec_changed(
                    old(secondary),
                    old(store).state(),
                    final(store).state(),
                )
                &&& final(secondary).sec_ready(final(store).state(), (n - 1) as nat)
                &&& t matches Some(u) ==> r is Ok && final(secondary).sec_map(
                    final(store).state().records,
                ) == u
                &&& t is None ==> (r matches Err(e) && e is WrongConfiguration)
                    && final(secondary).sec_map(final(store).state().records) == s
            },
        !old(secondary).sec_takes(derived@, primary_key@) ==> (r matches Err(e) && e is RecordTooLarge)
            && *final(secondary) == *old(secondary) && final(store).state() == old(store).state(),
        ({
            let a = old(store).state();
            let b = final(store).state();
            let s = old(secondary).sec_map(a.records);
            let t = put_once(s, derived@, primary_key@);
            old(secondary).sec_wf(a.records) && s.len() < i64::MAX && old(secondary).sec_takes(
                derived@,
                primary_key@,
            ) ==> {
                &&& keeps_state(a, b)
                &&& spares(a.records, b.records, old(secondary).sec_owned())
                &&& r is Ok || serves(a, old(secondary).sec_room()) ==> {
                    &&& final(secondary).sec_changed(old(secondary), a, b)
                    &&& final(secondary).sec_wf(b.records)
                    &&& b.room + old(secondary).sec_room() >= a.room
                    &&& (r is Ok) == (t is Some)
                    &&& final(secondary).sec_map(b.records) == match t {
                        Some(u) => u,
                        None => s,
                    }
                    &&& r matches Err(e) ==> e is WrongConfiguration
                }
            }
        }),
{
    match secondary.sec_put_if_absent(store, derived, format.dup(primary_key)) {
        Ok(None) => Ok(()),
        Ok(Some(existing)) => if format.equals(&existing, primary_key) {
            Ok(())
        } else {
            Err(
                DbError::wrong_config(
                    String::from_str("unique secondary index: duplicate derived key"),
                ),
            )
        },
        Err(e) => Err(e),
    }
}

proof fn lemma_inverse_put<KF: KeyFormat, VF: Serializer, D: Serializer, F: Derive<KF, VF, D>>(
    f: &F,
    m: Map<Model<KF>, Model<VF>>,
    k: Model<KF>,
    v: Model<VF>,
)
    requires
        one_to_one(f, m),
        !m.contains_key(k),
    ensures
        ({
            let t = put_once(inverse_map(f, m), f.derived(k, v), k);
            &&& one_to_one(f, m.insert(k, v)) ==> t == Some(inverse_map(f, m.insert(k, v)))
            &&& !one_to_one(f, m.insert(k, v)) ==> t is None
        }),
{
    let d = f.derived(k, v);
    let s = inverse_map(f, m);
    let m2 = m.insert(k, v);
    if s.contains_key(d) {
        let x = choose|x: Model<KF>| #[trigger] derives(f, m, x, d);
        assert(derives(f, m, x, d));
        assert(s[d] == x);
        assert(m.contains_key(x) && x != k);
        assert(m2.contains_key(x) && m2.contains_key(k));
        assert(f.derived(x, m2[x]) == f.derived(k, m2[k]));
    } else {
        assert forall|x: Model<KF>, y: Model<KF>|
            #![trigger m2.contains_key(x), m2.contains_key(y)]
            m2.contains_key(x) && m2.contains_key(y) && f.derived(x, m2[x]) == f.derived(y, m2[y])
                implies x
            == y by {
            if x != y {
                if x == k {
                    assert(derives(f, m, y, d));
                } else if y == k {
                    assert(derives(f, m, x, d));
                } else {
                    assert(m.contains_key(x) && m.contains_key(y));
                }
            }
        }
        let t = inverse_map(f, m2);
        assert forall|y: Model<D>| s.insert(d, k).contains_key(y) == t.contains_key(y) by {
            if y == d {
                assert(derives(f, m2, k, d));
            } else if s.contains_key(y) {
                let x = choose|x: Model<KF>| #[trigger] derives(f, m, x, y);
                assert(derives(f, m2, x, y));
            } else if t.contains_key(y) {
                let x = choose|x: Model<KF>| #[trigger] derives(f, m2, x, y);
                assert(derives(f, m, x, y));
            }
        }
        assert forall|y: Model<D>| t.contains_key(y) implies s.insert(d, k)[y] == t[y] by {
            let x2 = choose|x: Model<KF>| #[trigger] derives(f, m2, x, y);
            assert(derives(f, m2, x2, y));
            if y == d {
                assert(derives(f, m2, k, d));
                assert(m2.contains_key(x2) && m2.contains_key(k));
            } else {
                assert(s.contains_key(y));
                let x = choose|x: Model<KF>| #[trigger] derives(f, m, x, y);
                assert(derives(f, m, x, y));
                assert(m2.contains_key(x) && m2.contains_key(x2));
            }
        }
        assert(s.insert(d, k) =~= t);
    }
}

proof fn lemma_inverse_drop<KF: KeyFormat, VF: Serializer, D: Serializer, F: Derive<KF, VF, D>>(
    f: &F,
    m: Map<Model<KF>, Model<VF>>,
    k: Model<KF>,
)
    requires
        one_to_one(f, m),
        m.contains_key(k),
    ensures
        one_to_one(f, m.remove(k)),
        removed_if(inverse_map(f, m), f.derived(k, m[k]), k) == inverse_map(f, m.remove(k)),
{
    let d = f.derived(k, m[k]);
    let s = inverse_map(f, m);
    let m2 = m.remove(k);
    let t = inverse_map(f, m2);
    assert forall|x: Model<KF>, y: Model<KF>|
        #![trigger m2.contains_key(x), m2.contains_key(y)]
        m2.contains_key(x) && m2.contains_key(y) && f.derived(x, m2[x]) == f.derived(y, m2[y])
            implies x
        == y by {
        assert(m.contains_key(x) && m.contains_key(y));
    }
    assert(derives(f, m, k, d));
    let x0 = choose|x: Model<KF>| #[trigger] derives(f, m, x, d);
    assert(m.contains_key(x0) && m.contains_key(k));
    assert(s[d] == k);
    assert forall|y: Model<D>| s.remove(d).contains_key(y) == t.contains_key(y) by {
        if s.contains_key(y) && y != d {
            let x = choose|x: Model<KF>| #[trigger] derives(f, m, x, y);
            assert(derives(f, m2, x, y));
        }
        if t.contains_key(y) {
            let x = choose|x: Model<KF>| #[trigger] derives(f, m2, x, y);
            assert(derives(f, m, x, y));
            assert(m.contains_key(x) && m.contains_key(k));
        }
    }
    assert forall|y: Model<D>| t.contains_key(y) implies s.remove(d)[y] == t[y] by {
        assert(s.remove(d).contains_key(y));
        let x = choose|x: Model<KF>| #[trigger] derives(f, m, x, y);
        assert(derives(f, m, x, y));
        let x2 = choose|x: Model<KF>| #[trigger] derives(f, m2, x, y);
        assert(derives(f, m2, x2, y));
        assert(m.contains_key(x) && m.contains_key(x2));
    }
    assert(s.remove(d) =~= t);
}

proof fn lemma_inverse_empty<KF: KeyFormat, VF: Serializer, D: Serializer, F: Derive<KF, VF, D>>(f: &F)
    ensures
        one_to_one(f, Map::<Model<KF>, Model<VF>>::empty()),
        inverse_map(f, Map::<Model<KF>, Model<VF>>::empty()) == Map::<Model<D>, Model<KF>>::empty(),
{
    assert(inverse_map(f, Map::<Model<KF>, Model<VF>>::empty()) =~= Map::<
        Model<D>,
        Model<KF>,
    >::empty());
}

/// A part of a map in which no two entries derive the same key is such a map.
proof fn lemma_part_one_to_one<KF: KeyFormat, VF: Serializer, D: Serializer, F: Derive<KF, VF, D>>(
    f: &F,
    part: Map<Model<KF>, Model<VF>>,
    m: Map<Model<KF>, Model<VF>>,
)
    requires
        one_to_one(f, m),
        forall|k: Model<KF>| #[trigger]
            part.contains_key(k) ==> m.contains_key(k) && part[k] == m[k],
    ensures
        one_to_one(f, part),
{
    assert forall|x: Model<KF>, y: Model<KF>|
        #![trigger part.contains_key(x), part.contains_key(y)]
        part.contains_key(x) && part.contains_key(y) && f.derived(x, part[x]) == f.derived(
            y,
            part[y],
        ) implies x == y by {
        assert(m.contains_key(x) && m.contains_key(y));
    }
}

/// The secondary can hold the key of each entry under the derived one.
pub open spec fn keys_taken<
    KF: KeyFormat,
    VF: Serializer,
    D: KeyFormat,
    M: SecMap<D, KF>,
    F: Derive<KF, VF, D>,
>(secondary: &M, f: &F, m: Map<Model<KF>, Model<VF>>) -> bool {
    forall|k: Model<KF>| #[trigger]
        m.contains_key(k) ==> secondary.sec_takes(f.derived(k, m[k]), k)
}

/// Fills an empty secondary with the key of each entry under the key that is derived
/// from it. Two entries that derive the same key are refused.
fn fill_keys<
    S: Store,
    KF: KeyFormat,
    VF: Serializer,
    D: KeyFormat,
    M: SecMap<D, KF>,
    F: Derive<KF, VF, D>,
>(primary: &BTreeMap<KF, VF>, store: &mut S, secondary: &mut M, f: &F) -> (r: Result<()>)
    ensures
        ({
            let a = old(store).state();
            let b = final(store).state();
            let m = primary.contents(a.records);
            let s = old(secondary).sec_map(a.records);
            let own = old(secondary).sec_id() == Some(primary.pointer());
            &&& own ==> b == a && *final(secondary) == *old(secondary) && (r matches Err(e)
                && e is WrongConfiguration)
            &&& !own && primary.wf(a.records) && old(secondary).sec_wf(a.records)
                && m.len() <= i64::MAX && keys_taken(old(secondary), f, m) ==> {
                let fill = s == Map::<Model<D>, Model<KF>>::empty();
                &&& r is Ok ==> {
                    &&& final(secondary).sec_changed(old(secondary), a, b)
                    &&& final(secondary).sec_wf(b.records)
                    &&& !fill ==> final(secondary).sec_map(b.records) == s
                    &&& fill ==> one_to_one(f, m) && final(secondary).sec_map(b.records)
                        == inverse_map(f, m)
                }
                &&& a.readable && old(secondary).sec_ready(a, m.len()) ==> {
                    &&& final(secondary).sec_changed(old(secondary), a, b)
                    &&& (r is Ok) == (fill ==> one_to_one(f, m))
                    &&& r matches Err(e) ==> e is WrongConfiguration
                }
            }
        }),
{
    match reject_self_bind_id(primary, secondary.sec_identity()) {
        Ok(_) => {},
        Err(e) => {
            return Err(e);
        },
    }
    let ghost a = store.state();
    let ghost first = *secondary;
    let ghost m = primary.contents(a.records);
    let ghost good = primary.wf(a.records) && secondary.sec_wf(a.records) && m.len() <= i64::MAX
        && keys_taken(secondary, f, m);
    let ghost ready = good && a.readable && secondary.sec_ready(a, m.len());
    proof {
        secondary.sec_facts(a, m.len());
        if good {
            primary.lemma_finite(a.records);
        }
    }
    let empty = match secondary.sec_is_empty(store) {
        Ok(x) => x,
        Err(e) => {
            return Err(e);
        },
    };
    if !empty {
        return Ok(());
    }
    let entries = match primary.entries(store) {
        Ok(v) => v,
        Err(e) => {
            return Err(e);
        },
    };
    let ghost e = entry_models(entries@);
    let ghost mut given: Map<Model<KF>, Model<VF>> = Map::empty();
    proof {
        lemma_inverse_empty::<KF, VF, D, F>(f);
        if good {
            lemma_lists_len(&primary.kf(), e, m);
        }
    }
    let mut i: usize = 0;
    while i < entries.len()
        invariant
            i <= entries@.len(),
            e == entry_models(entries@),
            a == old(store).state(),
            first == *old(secondary),
            m == primary.contents(a.records),
            first.sec_id() != Some(primary.pointer()),
            good == (primary.wf(a.records) && first.sec_wf(a.records) && m.len() <= i64::MAX
                && keys_taken(&first, f, m)),
            ready == (good && a.readable && first.sec_ready(a, m.len())),
            ready ==> secondary.sec_ready(store.state(), (e.len() - i) as nat),
            good ==> first.sec_map(a.records) == Map::<Model<D>, Model<KF>>::empty(),
            good ==> {
                &&& lists(&primary.kf(), e, m)
                &&& e.len() == m.len()
                &&& m.dom().finite()
                &&& secondary.sec_wf(store.state().records)
                &&& secondary.sec_changed(&first, a, store.state())
                &&& one_to_one(f, given)
                &&& secondary.sec_map(store.state().records) == inverse_map(f, given)
                &&& forall|j: int| 0 <= j < i ==> given.contains_key((#[trigger] e[j]).0)
                &&& forall|j: int| i <= j < e.len() ==> !given.contains_key((#[trigger] e[j]).0)
                &&& forall|k: Model<KF>| #[trigger]
                    given.contains_key(k) ==> m.contains_key(k) && given[k] == m[k]
                &&& keys_taken(secondary, f, m)
            },
        decreases entries@.len() - i,
    {
        let ghost mid = *secondary;
        let ghost st = store.state();
        let d = f.derive(&entries[i].0, &entries[i].1);
        let ghost km = entries@[i as int].0@;
        let ghost vm = entries@[i as int].1@;
        proof {
            assert(e[i as int] == (km, vm));
            if good {
                assert(m.contains_key(e[i as int].0));
                assert(!given.contains_key(e[i as int].0));
                lemma_part_smaller(given, m, km);
                lemma_inverse_len(f, given);
                lemma_inverse_put(f, given, km, vm);
                if one_to_one(f, m) {
                    lemma_part_one_to_one(f, given.insert(km, vm), m);
                }
            }
        }
        let done = put_unique(store, secondary, primary.key_serializer(), d, &entries[i].0);
        proof {
            if good {
                if done is Ok || ready {
                    M::sec_chain(&first, &mid, secondary, a, st, store.state());
                }
                if done is Ok {
                    let g2 = given.insert(km, vm);
                    assert forall|j: int| i + 1 <= j < e.len() implies !g2.contains_key(
                        (#[trigger] e[j]).0,
                    ) by {
                        broadcast use group_key_order;

                        assert(primary.kf().lt(e[i as int].0, e[j].0));
                        assert(!given.contains_key(e[j].0));
                    }
                    assert(put_once(inverse_map(f, given), f.derived(km, vm), km) is Some);
                    given = g2;
                }
            }
        }
        match done {
            Ok(_) => {},
            Err(x) => {
                return Err(x);
            },
        }
        i = i + 1;
    }
    proof {
        if good {
            assert(given =~= m) by {
                assert forall|k: Model<KF>| m.contains_key(k) implies given.contains_key(k) by {
                    let j = choose|j: int| 0 <= j < e.len() && (#[trigger] e[j]).0 == k;
                    assert(given.contains_key(e[j].0));
                }
            }
        }
    }
    Ok(())
}

/// The index without the derived key of a former entry.
pub open spec fn without_former<KF: KeyFormat, VF: Serializer, D: Serializer, F: Derive<KF, VF, D>>(
    f: &F,
    s: Map<Model<D>, Model<KF>>,
    k: Model<KF>,
    was: Option<Model<VF>>,
) -> Map<Model<D>, Model<KF>> {
    match was {
        Some(v) => removed_if(s, f.derived(k, v), k),
        None => s,
    }
}

/// The unique index stays what the entries of the map tell as long as no two entries
/// derive the same key; a change that would make two do so is the one that is refused.
pub proof fn law_key_index<KF: KeyFormat, VF: Serializer, D: Serializer, F: Derive<KF, VF, D>>(
    f: &F,
    m: Map<Model<KF>, Model<VF>>,
    k: Model<KF>,
    v: Option<Model<VF>>,
)
    requires
        one_to_one(f, m),
    ensures
        ({
            let s = without_former(f, inverse_map(f, m), k, lookup(m, k));
            match v {
                None => s == inverse_map(f, m.remove(k)),
                Some(x) => if one_to_one(f, m.insert(k, x)) {
                    put_once(s, f.derived(k, x), k) == Some(inverse_map(f, m.insert(k, x)))
                } else {
                    put_once(s, f.derived(k, x), k) is None
                },
            }
        }),
{
    let rest = m.remove(k);
    if m.contains_key(k) {
        lemma_inverse_drop(f, m, k);
    } else {
        assert(rest =~= m);
    }
    match v {
        Some(x) => {
            lemma_inverse_put(f, rest, k, x);
            assert(rest.insert(k, x) =~= m.insert(k, x));
        },
        None => {},
    }
}

/// For each derived key the key of its entry.
pub struct KeyIndex<D, M, F> {
    pub secondary: M,
    pub rule: F,
    pub derived: PhantomData<D>,
}

impl<
    KF: KeyFormat,
    VF: Serializer,
    D: KeyFormat,
    M: SecMap<D, KF>,
    F: Derive<KF, VF, D>,
> Binding<KF, VF> for KeyIndex<D, M, F> {
    open spec fn in_step(&self, records: Records, m: Map<Model<KF>, Model<VF>>) -> bool {
        &&& self.secondary.sec_wf(records)
        &&& one_to_one(&self.rule, m)
        &&& self.secondary.sec_map(records) == inverse_map(&self.rule, m)
    }

    open spec fn holdings(&self) -> Set<u64> {
        self.secondary.sec_owned()
    }

    open spec fn needs(&self, v: Option<Model<VF>>) -> nat {
        match v {
            Some(_) => self.secondary.sec_room(),
            None => 0,
        }
    }

    /// No other entry may derive the same key.
    open spec fn admits(
        &self,
        m: Map<Model<KF>, Model<VF>>,
        k: Model<KF>,
        v: Option<Model<VF>>,
    ) -> bool {
        v matches Some(x) ==> self.secondary.sec_takes(self.rule.derived(k, x), k) && one_to_one(
            &self.rule,
            m.insert(k, x),
        )
    }

    /// A derived key of another entry, or one that the index cannot hold.
    open spec fn refusal(
        &self,
        m: Map<Model<KF>, Model<VF>>,
        k: Model<KF>,
        v: Option<Model<VF>>,
        e: DbError,
    ) -> bool {
        v matches Some(x) && if self.secondary.sec_takes(self.rule.derived(k, x), k) {
            e is WrongConfiguration
        } else {
            e is RecordTooLarge
        }
    }

    /// The former derived key is gone, and the rows of all other entries stay.
    open spec fn refused(
        &self,
        before: &Self,
        records: Records,
        m: Map<Model<KF>, Model<VF>>,
        k: Model<KF>,
        v: Option<Model<VF>>,
    ) -> bool {
        &&& self.rule == before.rule
        &&& self.in_step(records, m.remove(k))
    }

    open spec fn stepped(
        &self,
        before: &Self,
        k: Model<KF>,
        was: Option<Model<VF>>,
        new: Option<Model<VF>>,
    ) -> bool {
        self.rule == before.rule
    }

    open spec fn spare(&self, n: nat) -> bool {
        true
    }

    proof fn spare_less(&self, n: nat, k: nat) {
    }

    open spec fn light(&self) -> bool {
        true
    }

    proof fn lets_go(&self, m: Map<Model<KF>, Model<VF>>, k: Model<KF>) {
    }

    proof fn held(&self, records: Records, m: Map<Model<KF>, Model<VF>>) {
        self.secondary.sec_held(records);
    }

    proof fn untouched(&self, a: Records, b: Records, m: Map<Model<KF>, Model<VF>>) {
        assert forall|r: u64| #[trigger] self.secondary.sec_owned().contains(r)
            implies b.contains_key(r) && b[r] == a[r] by {
            assert(self.holdings().contains(r));
        }
        self.secondary.sec_untouched(a, b);
    }

    proof fn refused_untouched(
        &self,
        before: &Self,
        a: Records,
        b: Records,
        m: Map<Model<KF>, Model<VF>>,
        k: Model<KF>,
        v: Option<Model<VF>>,
    ) {
        self.secondary.sec_held(a);
        if forall|r: u64| #[trigger] self.holdings().contains(r) ==> b.contains_key(r) && b[r]
            == a[r] {
            self.untouched(a, b, m.remove(k));
        }
    }

    /// A derived key that another entry has is refused; the former derived key is gone
    /// then.
    fn follow<S: Store>(
        &mut self,
        store: &mut S,
        keys: &KF,
        values: &VF,
        key: &KF::Item,
        was: Option<&VF::Item>,
        new: Option<&VF::Item>,
    ) -> Result<()> {
        let ghost a = store.state();
        let ghost first = self.secondary;
        proof {
            first.sec_facts(a, 0);
        }
        let one = match was {
            Some(v) => {
                let d = self.rule.derive(key, v);
                self.secondary.sec_remove_if_value(store, &d, key)
            },
            None => Ok(()),
        };
        let ghost mid = store.state();
        let ghost second = self.secondary;
        let r = match one {
            Ok(_) => match new {
                Some(v) => {
                    let d = self.rule.derive(key, v);
                    put_unique(store, &mut self.secondary, keys, d, key)
                },
                None => Ok(()),
            },
            Err(e) => Err(e),
        };
        proof {
            let b = store.state();
            let v = opt_ref_model(new);
            second.sec_facts(mid, 0);
            assert forall|m: Map<Model<KF>, Model<VF>>| #[trigger]
                old(self).in_step(a.records, m) && followable::<KF, VF>(
                    m,
                    key@,
                    opt_ref_model(was),
                ) implies {
                &&& keeps_state(a, b)
                &&& spares(a.records, b.records, old(self).holdings())
                &&& r is Ok ==> {
                    &&& frames(a, b, old(self).holdings(), self.holdings())
                    &&& b.room + old(self).needs(v) >= a.room
                    &&& self.in_step(b.records, changed(m, key@, v))
                }
                &&& serves(a, old(self).needs(v)) ==> {
                    &&& frames(a, b, old(self).holdings(), self.holdings())
                    &&& b.room + old(self).needs(v) >= a.room
                    &&& (r is Ok) == old(self).admits(m, key@, v)
                    &&& r matches Err(e) ==> old(self).refusal(m, key@, v, e) && self.refused(
                        old(self),
                        b.records,
                        m,
                        key@,
                        v,
                    )
                }
            } by {
                let rest = m.remove(key@);
                lemma_inverse_len(&self.rule, m);
                law_key_index(&self.rule, m, key@, None);
                law_key_index(&self.rule, m, key@, v);
                lemma_part_one_to_one(&self.rule, rest, m);
                lemma_inverse_len(&self.rule, rest);
                if !m.contains_key(key@) {
                    assert(rest =~= m);
                }
                if was is None {
                    assert(mid == a && second == first);
                }
                if one is Ok {
                    assert(second.sec_changed(&first, a, mid));
                    assert(second.sec_map(mid.records) == inverse_map(&self.rule, rest));
                    assert(second.sec_wf(mid.records));
                    assert(rest.len() <= m.len());
                    M::sec_frames(&first, &second, a, mid);
                    let owned = first.sec_owned();
                    assert forall|x: u64| #[trigger]
                        a.records.contains_key(x) && !owned.contains(x)
                            implies b.records.contains_key(x) && b.records[x] == a.records[x] by {
                        assert(mid.records.contains_key(x) && !second.sec_owned().contains(x));
                    }
                    if self.secondary.sec_changed(&second, mid, b) {
                        M::sec_chain(&first, &second, &self.secondary, a, mid, b);
                        M::sec_frames(&first, &self.secondary, a, b);
                    }
                }
            }
        }
        r
    }
}

/// A unique index of a map that is in step finds every entry by the key that is derived
/// from it, and nothing else.
pub proof fn law_key_index_answers<
    KF: KeyFormat,
    VF: Serializer,
    D: KeyFormat,
    M: SecMap<D, KF>,
    F: Derive<KF, VF, D>,
    Y: Binding<KF, VF>,
    L: Binding<KF, VF>,
>(map: &BoundMap<KF, VF, Both<Y, KeyIndex<D, M, F>>, L>, records: Records, k: Model<KF>, d: Model<D>)
    requires
        map.in_step(records),
    ensures
        ({
            let index = map.early().second;
            let m = map.contents(records);
            lookup(index.secondary.sec_map(records), d) == Some(k) <==> m.contains_key(k)
                && index.rule.derived(k, m[k]) == d
        }),
{
    let index = map.early().second;
    let m = map.contents(records);
    let s = inverse_map(&index.rule, m);
    if m.contains_key(k) && index.rule.derived(k, m[k]) == d {
        assert(derives(&index.rule, m, k, d));
        let x = choose|x: Model<KF>| #[trigger] derives(&index.rule, m, x, d);
        assert(m.contains_key(x) && m.contains_key(k));
    }
    if s.contains_key(d) {
        let x = choose|x: Model<KF>| #[trigger] derives(&index.rule, m, x, d);
        assert(derives(&index.rule, m, x, d));
        assert(s[d] == x);
    }
}

/// A unique index that refused a change finds every other entry by its derived key as
/// before, and nothing under a key that only the changed entry had.
pub proof fn law_refused_key_keeps_its_owner<
    KF: KeyFormat,
    VF: Serializer,
    D: KeyFormat,
    M: SecMap<D, KF>,
    F: Derive<KF, VF, D>,
>(
    index: &KeyIndex<D, M, F>,
    before: &KeyIndex<D, M, F>,
    records: Records,
    m: Map<Model<KF>, Model<VF>>,
    k: Model<KF>,
    v: Option<Model<VF>>,
    d: Model<D>,
    o: Model<KF>,
)
    requires
        index.refused(before, records, m, k, v),
    ensures
        lookup(index.secondary.sec_map(records), d) == Some(o) <==> o != k && m.contains_key(o)
            && before.rule.derived(o, m[o]) == d,
{
    let rest = m.remove(k);
    let s = inverse_map(&index.rule, rest);
    if rest.contains_key(o) && index.rule.derived(o, rest[o]) == d {
        assert(derives(&index.rule, rest, o, d));
        let x = choose|x: Model<KF>| #[trigger] derives(&index.rule, rest, x, d);
        assert(rest.contains_key(x) && rest.contains_key(o));
    }
    if s.contains_key(d) {
        let x = choose|x: Model<KF>| #[trigger] derives(&index.rule, rest, x, d);
        assert(derives(&index.rule, rest, x, d));
        assert(s[d] == x);
    }
}

/// Binds a map of the key of each entry under the key that is derived from it: fills it
/// where it is empty, and has the map keep it. Two entries that derive the same key are
/// refused.
pub fn secondary_key<
    S: Store,
    KF: KeyFormat,
    VF: Serializer,
    D: KeyFormat,
    M: SecMap<D, KF>,
    F: Derive<KF, VF, D>,
    Y: Binding<KF, VF>,
    L: Binding<KF, VF>,
>(primary: BoundMap<KF, VF, Y, L>, store: &mut S, secondary: M, f: F) -> (r:
    std::result::Result<
        BoundMap<KF, VF, Both<Y, KeyIndex<D, M, F>>, L>,
        Refused<BoundMap<KF, VF, Y, L>, M>,
    >)
    ensures
        r matches Err(x) ==> x.map == primary,
        r matches Ok(p) ==> p.joins_early(&primary) && p.early().second.rule == f,
        ({
            let a = old(store).state();
            let b = final(store).state();
            let m = primary.contents(a.records);
            let s = secondary.sec_map(a.records);
            let fill = s == Map::<Model<D>, Model<KF>>::empty();
            let own = secondary.sec_id() == Some(primary.backing().pointer());
            &&& own ==> b == a && (r matches Err(x) && x.error is WrongConfiguration && x.secondary
                == secondary)
            &&& !own && primary.backing().wf(a.records) && secondary.sec_wf(a.records)
                && m.len() <= i64::MAX && keys_taken(&secondary, &f, m) ==> {
                &&& a.readable && secondary.sec_ready(a, m.len()) ==> {
                    &&& (r is Ok) == (fill ==> one_to_one(&f, m))
                    &&& r matches Err(x) ==> x.error is WrongConfiguration
                }
                &&& r matches Ok(p) ==> {
                    let kept = p.early().second.secondary;
                    &&& kept.sec_changed(&secondary, a, b)
                    &&& kept.sec_wf(b.records)
                    &&& kept.sec_map(b.records) == if fill {
                        inverse_map(&f, m)
                    } else {
                        s
                    }
                    &&& fill && primary.in_step(a.records) && secondary.sec_owned().disjoint(
                        primary.holdings(),
                    ) ==> p.in_step(b.records) && p.contents(b.records) == m
                }
            }
        }),
{
    let ghost a = store.state();
    let mut kept = secondary;
    match fill_keys(primary.map(), store, &mut kept, &f) {
        Ok(_) => {
            let ghost b = store.state();
            let ghost before = primary;
            let (map, sync, deferred) = primary.into_parts();
            let index = KeyIndex { secondary: kept, rule: f, derived: PhantomData };
            let p = BoundMap::from_parts(map, Both { first: sync, second: index }, deferred);
            proof {
                if before.in_step(a.records) && kept.sec_changed(&secondary, a, b)
                    && secondary.sec_owned().disjoint(before.holdings()) {
                    M::sec_frames(&secondary, &kept, a, b);
                    before.lemma_others(a, b, secondary.sec_owned(), kept.sec_owned());
                    if index.in_step(b.records, before.contents(b.records)) {
                        p.lemma_joined_early(&before, b.records);
                    }
                }
            }
            Ok(p)
        },
        Err(e) => Err(Refused { error: e, map: primary, secondary: kept }),
    }
}

/// Binds a map of the key of each entry under its value: fills it where it is empty, and
/// has the map keep it. Two entries with the same value are refused.
pub fn map_inverse<
    S: Store,
    KF: KeyFormat,
    VF: KeyFormat,
    M: SecMap<VF, KF>,
    Y: Binding<KF, VF>,
    L: Binding<KF, VF>,
>(
    primary: BoundMap<KF, VF, Y, L>,
    store: &mut S,
    inverse: M,
    rule: ValueItself<VF>,
) -> (r: std::result::Result<
    BoundMap<KF, VF, Both<Y, KeyIndex<VF, M, ValueItself<VF>>>, L>,
    Refused<BoundMap<KF, VF, Y, L>, M>,
>)
    ensures
        r matches Err(x) ==> x.map == primary,
        r matches Ok(p) ==> p.joins_early(&primary) && p.early().second.rule == rule,
        ({
            let a = old(store).state();
            let b = final(store).state();
            let m = primary.contents(a.records);
            let s = inverse.sec_map(a.records);
            let fill = s == Map::<Model<VF>, Model<KF>>::empty();
            let own = inverse.sec_id() == Some(primary.backing().pointer());
            &&& own ==> b == a && (r matches Err(x) && x.error is WrongConfiguration && x.secondary
                == inverse)
            &&& !own && primary.backing().wf(a.records) && inverse.sec_wf(a.records)
                && m.len() <= i64::MAX
                    && keys_taken::<KF, VF, VF, M, ValueItself<VF>>(&inverse, &rule, m) ==> {
                &&& a.readable && inverse.sec_ready(a, m.len()) ==> {
                    &&& (r is Ok) == (fill ==> one_to_one::<KF, VF, VF, ValueItself<VF>>(&rule, m))
                    &&& r matches Err(x) ==> x.error is WrongConfiguration
                }
                &&& r matches Ok(p) ==> {
                    let kept = p.early().second.secondary;
                    &&& kept.sec_changed(&inverse, a, b)
                    &&& kept.sec_wf(b.records)
                    &&& kept.sec_map(b.records) == if fill {
                        inverse_map::<KF, VF, VF, ValueItself<VF>>(&rule, m)
                    } else {
                        s
                    }
                    &&& fill && primary.in_step(a.records) && inverse.sec_owned().disjoint(
                        primary.holdings(),
                    ) ==> p.in_step(b.records) && p.contents(b.records) == m
                }
            }
        }),
{
    secondary_key::<S, KF, VF, VF, M, ValueItself<VF>, Y, L>(primary, store, inverse, rule)
}

// ---------------------------------------------------------------- sets of pairs

/// A derived value of an entry with the key of the entry, in one order or the other.
pub trait PairUp<KF: KeyFormat, D: KeyFormat, T: KeyFormat> {
    spec fn pair(&self, k: Model<KF>, d: Model<D>) -> Model<T>;

    /// Different keys or values make different pairs.
    proof fn pair_tells(&self, k: Model<KF>, d: Model<D>, k2: Model<KF>, d2: Model<D>)
        ensures
            self.pair(k, d) == self.pair(k2, d2) ==> k == k2 && d == d2,
    ;

    fn pair_up(&self, k: KF::Item, d: D::Item) -> (r: T::Item)
        ensures
            r@ == self.pair(k@, d@),
    ;
}

/// The key first.
#[derive(Debug, Clone, Copy)]
pub struct KeyFirst;

impl<KF: KeyFormat, D: KeyFormat> PairUp<KF, D, PairFormat<KF, D>> for KeyFirst {
    open spec fn pair(&self, k: Model<KF>, d: Model<D>) -> (Model<KF>, Model<D>) {
        (k, d)
    }

    proof fn pair_tells(&self, k: Model<KF>, d: Model<D>, k2: Model<KF>, d2: Model<D>) {
    }

    fn pair_up(&self, k: KF::Item, d: D::Item) -> (KF::Item, D::Item) {
        (k, d)
    }
}

/// The derived value first.
#[derive(Debug, Clone, Copy)]
pub struct DerivedFirst;

impl<KF: KeyFormat, D: KeyFormat> PairUp<KF, D, PairFormat<D, KF>> for DerivedFirst {
    open spec fn pair(&self, k: Model<KF>, d: Model<D>) -> (Model<D>, Model<KF>) {
        (d, k)
    }

    proof fn pair_tells(&self, k: Model<KF>, d: Model<D>, k2: Model<KF>, d2: Model<D>) {
    }

    fn pair_up(&self, k: KF::Item, d: D::Item) -> (D::Item, KF::Item) {
        (d, k)
    }
}

/// The pairs of a key with some values.
pub open spec fn pairs_with<KF: KeyFormat, D: KeyFormat, T: KeyFormat, P: PairUp<KF, D, T>>(
    p: &P,
    k: Model<KF>,
    ds: Seq<Model<D>>,
) -> Set<Model<T>> {
    Set::new(|x: Model<T>| exists|i: int| 0 <= i < ds.len() && x == p.pair(k, #[trigger] ds[i]))
}

/// The pairs of an entry, where there is one.
pub open spec fn pairs_at<
    KF: KeyFormat,
    VF: Serializer,
    D: KeyFormat,
    T: KeyFormat,
    F: DeriveMany<KF, VF, D>,
    P: PairUp<KF, D, T>,
>(f: &F, p: &P, k: Model<KF>, v: Option<Model<VF>>) -> Set<Model<T>> {
    match v {
        Some(x) => pairs_with(p, k, f.derived_all(k, x)),
        None => Set::empty(),
    }
}

/// The pairs of all entries.
pub open spec fn all_pairs<
    KF: KeyFormat,
    VF: Serializer,
    D: KeyFormat,
    T: KeyFormat,
    F: DeriveMany<KF, VF, D>,
    P: PairUp<KF, D, T>,
>(f: &F, p: &P, m: Map<Model<KF>, Model<VF>>) -> Set<Model<T>> {
    Set::new(
        |x: Model<T>| exists|k: Model<KF>| #[trigger] m.contains_key(k)
            && pairs_at(f, p, k, Some(m[k])).contains(x),
    )
}

fn add_pairs<
    KF: KeyFormat,
    VF: Serializer,
    D: KeyFormat,
    T: KeyFormat,
    M: SecSet<T>,
    F: DeriveMany<KF, VF, D>,
    P: PairUp<KF, D, T>,
>(secondary: &mut M, f: &F, p: &P, format: &KF, dformat: &D, key: &KF::Item, v: &VF::Item) -> (r: Result<
    (),
>)
    ensures
        final(secondary).sec_set_id() == old(secondary).sec_set_id(),
        old(secondary).sec_sound() ==> {
            &&& r is Ok
            &&& final(secondary).sec_sound()
            &&& final(secondary).sec_set() == old(secondary).sec_set().union(
                pairs_at(f, p, key@, Some(v@)),
            )
        },
{
    let ds = f.derive_all(key, v);
    let ghost all = models(ds@);
    let ghost s0 = secondary.sec_set();
    let mut i: usize = 0;
    assert(s0.union(pairs_with(p, key@, all.take(0))) =~= s0);
    while i < ds.len()
        invariant
            i <= ds@.len(),
            all == models(ds@),
            secondary.sec_set_id() == old(secondary).sec_set_id(),
            s0 == old(secondary).sec_set(),
            old(secondary).sec_sound() ==> secondary.sec_sound() && secondary.sec_set() == s0.union(
                pairs_with(p, key@, all.take(i as int)),
            ),
        decreases ds@.len() - i,
    {
        let t = p.pair_up(format.dup(key), dformat.dup(&ds[i]));
        let ghost tm = t@;
        match secondary.sec_add(t) {
            Ok(_) => {},
            Err(e) => {
                return Err(e);
            },
        }
        proof {
            lemma_one_pair_more(p, key@, all, i as int);
            assert(all[i as int] == ds@[i as int]@);
            assert(s0.union(pairs_with(p, key@, all.take(i as int))).insert(tm) =~= s0.union(
                pairs_with(p, key@, all.take(i as int + 1)),
            ));
        }
        i = i + 1;
    }
    assert(all.take(i as int) =~= all);
    Ok(())
}

proof fn lemma_one_pair_more<KF: KeyFormat, D: KeyFormat, T: KeyFormat, P: PairUp<KF, D, T>>(
    p: &P,
    k: Model<KF>,
    ds: Seq<Model<D>>,
    i: int,
)
    requires
        0 <= i < ds.len(),
    ensures
        pairs_with(p, k, ds.take(i + 1)) == pairs_with(p, k, ds.take(i)).insert(p.pair(k, ds[i])),
{
    let a = pairs_with(p, k, ds.take(i + 1));
    let b = pairs_with(p, k, ds.take(i)).insert(p.pair(k, ds[i]));
    assert forall|x: Model<T>| a.contains(x) == b.contains(x) by {
        if a.contains(x) {
            let j = choose|j: int| 0 <= j < ds.take(i + 1).len()
                && x == p.pair(k, #[trigger] ds.take(i + 1)[j]);
            if j < i {
                assert(ds.take(i)[j] == ds[j]);
            }
        }
        if b.contains(x) {
            if x == p.pair(k, ds[i]) {
                assert(ds.take(i + 1)[i] == ds[i]);
            } else {
                let j = choose|j: int| 0 <= j < ds.take(i).len()
                    && x == p.pair(k, #[trigger] ds.take(i)[j]);
                assert(ds.take(i + 1)[j] == ds.take(i)[j]);
            }
        }
    }
    assert(a =~= b);
}

fn drop_pairs<
    KF: KeyFormat,
    VF: Serializer,
    D: KeyFormat,
    T: KeyFormat,
    M: SecSet<T>,
    F: DeriveMany<KF, VF, D>,
    P: PairUp<KF, D, T>,
>(secondary: &mut M, f: &F, p: &P, format: &KF, dformat: &D, key: &KF::Item, v: &VF::Item) -> (r: Result<
    (),
>)
    ensures
        final(secondary).sec_set_id() == old(secondary).sec_set_id(),
        old(secondary).sec_sound() ==> {
            &&& r is Ok
            &&& final(secondary).sec_sound()
            &&& final(secondary).sec_set() == old(secondary).sec_set().difference(
                pairs_at(f, p, key@, Some(v@)),
            )
        },
{
    let ds = f.derive_all(key, v);
    let ghost all = models(ds@);
    let ghost s0 = secondary.sec_set();
    let mut i: usize = 0;
    assert(s0.difference(pairs_with(p, key@, all.take(0))) =~= s0);
    while i < ds.len()
        invariant
            i <= ds@.len(),
            all == models(ds@),
            secondary.sec_set_id() == old(secondary).sec_set_id(),
            s0 == old(secondary).sec_set(),
            old(secondary).sec_sound() ==> secondary.sec_sound() && secondary.sec_set()
                == s0.difference(pairs_with(p, key@, all.take(i as int))),
        decreases ds@.len() - i,
    {
        let t = p.pair_up(format.dup(key), dformat.dup(&ds[i]));
        match secondary.sec_set_remove(&t) {
            Ok(_) => {},
            Err(e) => {
                return Err(e);
            },
        }
        proof {
            lemma_one_pair_more(p, key@, all, i as int);
            assert(all[i as int] == ds@[i as int]@);
            assert(s0.difference(pairs_with(p, key@, all.take(i as int))).remove(t@)
                =~= s0.difference(
                pairs_with(p, key@, all.take(i as int + 1)),
            ));
        }
        i = i + 1;
    }
    assert(all.take(i as int) =~= all);
    Ok(())
}

fn fill_pairs<
    S: Store,
    KF: KeyFormat,
    VF: Serializer,
    D: KeyFormat,
    T: KeyFormat,
    M: SecSet<T>,
    F: DeriveMany<KF, VF, D>,
    P: PairUp<KF, D, T>,
>(primary: &BTreeMap<KF, VF>, store: &S, secondary: &mut M, f: &F, p: &P, dformat: &D) -> (r: Result<
    (),
>)
    ensures
        ({
            let st = store.state();
            let m = primary.contents(st.records);
            let own = old(secondary).sec_set_id() == Some(primary.pointer());
            &&& own ==> *final(secondary) == *old(secondary) && (r matches Err(e)
                && e is WrongConfiguration)
            &&& !own && primary.wf(st.records) && old(secondary).sec_sound() ==> {
                &&& served(st, r)
                &&& r is Ok ==> {
                    &&& final(secondary).sec_sound()
                    &&& final(secondary).sec_set() == if old(secondary).sec_set() == Set::<
                        Model<T>,
                    >::empty() {
                        all_pairs(f, p, m)
                    } else {
                        old(secondary).sec_set()
                    }
                }
            }
        }),
{
    match reject_self_bind_id(primary, secondary.sec_set_identity()) {
        Ok(_) => {},
        Err(e) => {
            return Err(e);
        },
    }
    let empty = match secondary.sec_set_is_empty() {
        Ok(x) => x,
        Err(e) => {
            return Err(e);
        },
    };
    if !empty {
        return Ok(());
    }
    let ghost st = store.state();
    let ghost m = primary.contents(st.records);
    let ghost good = primary.wf(st.records) && secondary.sec_sound();
    let entries = match primary.entries(store) {
        Ok(v) => v,
        Err(e) => {
            return Err(e);
        },
    };
    let ghost e = entry_models(entries@);
    let ghost mut given: Map<Model<KF>, Model<VF>> = Map::empty();
    proof {
        assert(all_pairs::<KF, VF, D, T, F, P>(f, p, given) =~= Set::empty());
    }
    let mut i: usize = 0;
    while i < entries.len()
        invariant
            i <= entries@.len(),
            e == entry_models(entries@),
            st == store.state(),
            m == primary.contents(st.records),
            old(secondary).sec_set_id() != Some(primary.pointer()),
            good == (primary.wf(st.records) && old(secondary).sec_sound()),
            good ==> {
                &&& lists(&primary.kf(), e, m)
                &&& secondary.sec_sound()
                &&& secondary.sec_set() == all_pairs(f, p, given)
                &&& forall|j: int| 0 <= j < i ==> given.contains_key((#[trigger] e[j]).0)
                &&& forall|k: Model<KF>| #[trigger]
                    given.contains_key(k) ==> m.contains_key(k) && given[k] == m[k]
            },
        decreases entries@.len() - i,
    {
        let ghost km = entries@[i as int].0@;
        let ghost vm = entries@[i as int].1@;
        match add_pairs(
            secondary,
            f,
            p,
            primary.key_serializer(),
            dformat,
            &entries[i].0,
            &entries[i].1,
        ) {
            Ok(_) => {},
            Err(x) => {
                return Err(x);
            },
        }
        proof {
            assert(e[i as int] == (km, vm));
            if good {
                assert(m.contains_key(e[i as int].0) && m[km] == vm);
                lemma_pairs_put(f, p, given, km, vm);
                given = given.insert(km, vm);
            }
        }
        i = i + 1;
    }
    proof {
        if good {
            assert(given =~= m) by {
                assert forall|k: Model<KF>| m.contains_key(k) implies given.contains_key(k) by {
                    let j = choose|j: int| 0 <= j < e.len() && (#[trigger] e[j]).0 == k;
                    assert(given.contains_key(e[j].0));
                }
            }
        }
    }
    Ok(())
}

proof fn lemma_pairs_put<
    KF: KeyFormat,
    VF: Serializer,
    D: KeyFormat,
    T: KeyFormat,
    F: DeriveMany<KF, VF, D>,
    P: PairUp<KF, D, T>,
>(f: &F, p: &P, m: Map<Model<KF>, Model<VF>>, k: Model<KF>, v: Model<VF>)
    requires
        m.contains_key(k) ==> m[k] == v,
    ensures
        all_pairs(f, p, m.insert(k, v)) == all_pairs(f, p, m).union(pairs_at(f, p, k, Some(v))),
{
    let a = all_pairs(f, p, m.insert(k, v));
    let b = all_pairs(f, p, m).union(pairs_at(f, p, k, Some(v)));
    assert forall|x: Model<T>| a.contains(x) == b.contains(x) by {
        if a.contains(x) {
            let y = choose|y: Model<KF>| #[trigger] m.insert(k, v).contains_key(y) && pairs_at(
                f,
                p,
                y,
                Some(m.insert(k, v)[y]),
            ).contains(x);
            if y != k {
                assert(m.contains_key(y));
            }
        }
        if pairs_at(f, p, k, Some(v)).contains(x) {
            assert(m.insert(k, v).contains_key(k));
        } else if b.contains(x) {
            let y = choose|y: Model<KF>| #[trigger] m.contains_key(y)
                && pairs_at(f, p, y, Some(m[y])).contains(x);
            assert(m.insert(k, v).contains_key(y));
        }
    }
    assert(a =~= b);
}

/// Follows a change of the entries in a set of pairs.
fn move_pairs<
    KF: KeyFormat,
    VF: Serializer,
    D: KeyFormat,
    T: KeyFormat,
    M: SecSet<T>,
    F: DeriveMany<KF, VF, D>,
    P: PairUp<KF, D, T>,
>(
    secondary: &mut M,
    f: &F,
    p: &P,
    format: &KF,
    dformat: &D,
    key: &KF::Item,
    was: Option<&VF::Item>,
    new: Option<&VF::Item>,
) -> (r: Result<()>)
    ensures
        old(secondary).sec_sound() ==> {
            &&& r is Ok
            &&& final(secondary).sec_sound()
            &&& final(secondary).sec_set() == old(secondary).sec_set().difference(
                pairs_at(f, p, key@, opt_ref_model(was)),
            ).union(pairs_at(f, p, key@, opt_ref_model(new)))
        },
{
    let ghost s0 = secondary.sec_set();
    proof {
        assert(s0.difference(Set::empty()) =~= s0);
    }
    match was {
        Some(v) => match drop_pairs(secondary, f, p, format, dformat, key, v) {
            Ok(_) => {},
            Err(e) => {
                return Err(e);
            },
        },
        None => {},
    }
    let ghost s1 = secondary.sec_set();
    proof {
        assert(s1.union(Set::empty()) =~= s1);
    }
    match new {
        Some(v) => add_pairs(secondary, f, p, format, dformat, key, v),
        None => Ok(()),
    }
}

/// The set of pairs stays what the entries of the map tell, whatever change it follows.
pub proof fn law_pair_index<
    KF: KeyFormat,
    VF: Serializer,
    D: KeyFormat,
    T: KeyFormat,
    F: DeriveMany<KF, VF, D>,
    P: PairUp<KF, D, T>,
>(f: &F, p: &P, m: Map<Model<KF>, Model<VF>>, k: Model<KF>, v: Option<Model<VF>>)
    ensures
        all_pairs(f, p, m).difference(pairs_at(f, p, k, lookup(m, k))).union(pairs_at(f, p, k, v))
            == all_pairs(f, p, changed(m, k, v)),
{
    let rest = m.remove(k);
    let a = all_pairs(f, p, m).difference(pairs_at(f, p, k, lookup(m, k)));
    let b = all_pairs(f, p, rest);
    assert forall|x: Model<T>| a.contains(x) == b.contains(x) by {
        if a.contains(x) {
            let y = choose|y: Model<KF>| #[trigger] m.contains_key(y)
                && pairs_at(f, p, y, Some(m[y])).contains(x);
            assert(rest.contains_key(y));
        }
        if b.contains(x) {
            let y = choose|y: Model<KF>| #[trigger] rest.contains_key(y) && pairs_at(
                f,
                p,
                y,
                Some(rest[y]),
            ).contains(x);
            assert(m.contains_key(y));
            if m.contains_key(k) && pairs_at(f, p, k, Some(m[k])).contains(x) {
                let ds = f.derived_all(y, m[y]);
                let es = f.derived_all(k, m[k]);
                let i = choose|i: int| 0 <= i < ds.len() && x == p.pair(y, #[trigger] ds[i]);
                let j = choose|j: int| 0 <= j < es.len() && x == p.pair(k, #[trigger] es[j]);
                p.pair_tells(y, ds[i], k, es[j]);
            }
        }
    }
    assert(a =~= b);
    match v {
        Some(x) => {
            lemma_pairs_put(f, p, rest, k, x);
            assert(rest.insert(k, x) =~= m.insert(k, x));
        },
        None => {
            assert(b.union(Set::empty()) =~= b);
        },
    }
}

/// The pairs of the key of each entry with what is derived from it.
pub struct PairIndex<D, T, M, F, P> {
    pub secondary: M,
    pub rule: F,
    pub order: P,
    pub format: D,
    pub pairs: PhantomData<T>,
}

impl<
    KF: KeyFormat,
    VF: Serializer,
    D: KeyFormat,
    T: KeyFormat,
    M: SecSet<T>,
    F: DeriveMany<KF, VF, D>,
    P: PairUp<KF, D, T>,
> Binding<KF, VF> for PairIndex<D, T, M, F, P> {
    open spec fn in_step(&self, records: Records, m: Map<Model<KF>, Model<VF>>) -> bool {
        self.secondary.sec_sound() && self.secondary.sec_set() == all_pairs(
            &self.rule,
            &self.order,
            m,
        )
    }

    open spec fn holdings(&self) -> Set<u64> {
        Set::empty()
    }

    open spec fn needs(&self, v: Option<Model<VF>>) -> nat {
        0
    }

    open spec fn admits(
        &self,
        m: Map<Model<KF>, Model<VF>>,
        k: Model<KF>,
        v: Option<Model<VF>>,
    ) -> bool {
        true
    }

    open spec fn refusal(
        &self,
        m: Map<Model<KF>, Model<VF>>,
        k: Model<KF>,
        v: Option<Model<VF>>,
        e: DbError,
    ) -> bool {
        false
    }

    open spec fn refused(
        &self,
        before: &Self,
        records: Records,
        m: Map<Model<KF>, Model<VF>>,
        k: Model<KF>,
        v: Option<Model<VF>>,
    ) -> bool {
        false
    }

    open spec fn stepped(
        &self,
        before: &Self,
        k: Model<KF>,
        was: Option<Model<VF>>,
        new: Option<Model<VF>>,
    ) -> bool {
        self.rule == before.rule && self.order == before.order
    }

    open spec fn spare(&self, n: nat) -> bool {
        true
    }

    proof fn spare_less(&self, n: nat, k: nat) {
    }

    open spec fn light(&self) -> bool {
        true
    }

    proof fn lets_go(&self, m: Map<Model<KF>, Model<VF>>, k: Model<KF>) {
    }

    proof fn held(&self, records: Records, m: Map<Model<KF>, Model<VF>>) {
    }

    proof fn untouched(&self, a: Records, b: Records, m: Map<Model<KF>, Model<VF>>) {
    }

    proof fn refused_untouched(
        &self,
        before: &Self,
        a: Records,
        b: Records,
        m: Map<Model<KF>, Model<VF>>,
        k: Model<KF>,
        v: Option<Model<VF>>,
    ) {
    }

    fn follow<S: Store>(
        &mut self,
        store: &mut S,
        keys: &KF,
        values: &VF,
        key: &KF::Item,
        was: Option<&VF::Item>,
        new: Option<&VF::Item>,
    ) -> Result<()> {
        let ghost first = self.secondary;
        let r = move_pairs(
            &mut self.secondary,
            &self.rule,
            &self.order,
            keys,
            &self.format,
            key,
            was,
            new,
        );
        proof {
            let v = opt_ref_model(new);
            assert forall|m: Map<Model<KF>, Model<VF>>| #[trigger]
                old(self).in_step(store.state().records, m) && followable::<KF, VF>(
                    m,
                    key@,
                    opt_ref_model(was),
                ) implies r is Ok && self.in_step(
                store.state().records,
                changed(m, key@, v),
            ) by {
                law_pair_index(&self.rule, &self.order, m, key@, v);
            }
        }
        r
    }
}

/// Binds a set of the pairs of each key with the values that are derived from its entry:
/// fills it where it is empty, and has the map keep it.
pub fn secondary_values<
    S: Store,
    KF: KeyFormat,
    VF: Serializer,
    D: KeyFormat,
    M: SecSet<PairFormat<KF, D>>,
    F: DeriveMany<KF, VF, D>,
    Y: Binding<KF, VF>,
    L: Binding<KF, VF>,
>(primary: BoundMap<KF, VF, Y, L>, store: &S, secondary: M, f: F, dformat: D) -> (r:
    std::result::Result<
        BoundMap<KF, VF, Both<Y, PairIndex<D, PairFormat<KF, D>, M, F, KeyFirst>>, L>,
        Refused<BoundMap<KF, VF, Y, L>, M>,
    >)
    ensures
        r matches Err(x) ==> x.map == primary,
        r matches Ok(p) ==> p.joins_early(&primary) && p.early().second.rule == f
            && p.early().second.order == KeyFirst,
        ({
            let st = store.state();
            let m = primary.contents(st.records);
            let fill = secondary.sec_set() == Set::<(Model<KF>, Model<D>)>::empty();
            let own = secondary.sec_set_id() == Some(primary.backing().pointer());
            &&& own ==> (r matches Err(x) && x.error is WrongConfiguration && x.secondary
                == secondary)
            &&& !own && primary.backing().wf(st.records) && secondary.sec_sound() ==> {
                &&& st.readable ==> r is Ok
                &&& r matches Ok(p) ==> {
                    let kept = p.early().second.secondary;
                    &&& kept.sec_sound()
                    &&& kept.sec_set() == if fill {
                        all_pairs(&f, &KeyFirst, m)
                    } else {
                        secondary.sec_set()
                    }
                    &&& fill && primary.in_step(st.records) ==> p.in_step(st.records)
                }
            }
        }),
{
    let mut kept = secondary;
    match fill_pairs::<S, KF, VF, D, PairFormat<KF, D>, M, F, KeyFirst>(
        primary.map(),
        store,
        &mut kept,
        &f,
        &KeyFirst,
        &dformat,
    ) {
        Ok(_) => {
            let ghost st = store.state();
            let ghost before = primary;
            let (map, sync, deferred) = primary.into_parts();
            let index = PairIndex {
                secondary: kept,
                rule: f,
                order: KeyFirst,
                format: dformat,
                pairs: PhantomData,
            };
            let p = BoundMap::from_parts(map, Both { first: sync, second: index }, deferred);
            proof {
                if before.in_step(st.records) && index.in_step(
                    st.records,
                    before.contents(st.records),
                ) {
                    p.lemma_joined_early(&before, st.records);
                }
            }
            Ok(p)
        },
        Err(e) => Err(Refused { error: e, map: primary, secondary: kept }),
    }
}

/// Binds a set of the pairs of the keys that are derived from an entry with its key:
/// fills it where it is empty, and has the map keep it.
pub fn secondary_keys<
    S: Store,
    KF: KeyFormat,
    VF: Serializer,
    D: KeyFormat,
    M: SecSet<PairFormat<D, KF>>,
    F: DeriveMany<KF, VF, D>,
    Y: Binding<KF, VF>,
    L: Binding<KF, VF>,
>(primary: BoundMap<KF, VF, Y, L>, store: &S, secondary: M, f: F, dformat: D) -> (r:
    std::result::Result<
        BoundMap<KF, VF, Both<Y, PairIndex<D, PairFormat<D, KF>, M, F, DerivedFirst>>, L>,
        Refused<BoundMap<KF, VF, Y, L>, M>,
    >)
    ensures
        r matches Err(x) ==> x.map == primary,
        r matches Ok(p) ==> p.joins_early(&primary) && p.early().second.rule == f
            && p.early().second.order == DerivedFirst,
        ({
            let st = store.state();
            let m = primary.contents(st.records);
            let fill = secondary.sec_set() == Set::<(Model<D>, Model<KF>)>::empty();
            let own = secondary.sec_set_id() == Some(primary.backing().pointer());
            &&& own ==> (r matches Err(x) && x.error is WrongConfiguration && x.secondary
                == secondary)
            &&& !own && primary.backing().wf(st.records) && secondary.sec_sound() ==> {
                &&& st.readable ==> r is Ok
                &&& r matches Ok(p) ==> {
                    let kept = p.early().second.secondary;
                    &&& kept.sec_sound()
                    &&& kept.sec_set() == if fill {
                        all_pairs(&f, &DerivedFirst, m)
                    } else {
                        secondary.sec_set()
                    }
                    &&& fill && primary.in_step(st.records) ==> p.in_step(st.records)
                }
            }
        }),
{
    let mut kept = secondary;
    match fill_pairs::<S, KF, VF, D, PairFormat<D, KF>, M, F, DerivedFirst>(
        primary.map(),
        store,
        &mut kept,
        &f,
        &DerivedFirst,
        &dformat,
    ) {
        Ok(_) => {
            let ghost st = store.state();
            let ghost before = primary;
            let (map, sync, deferred) = primary.into_parts();
            let index = PairIndex {
                secondary: kept,
                rule: f,
                order: DerivedFirst,
                format: dformat,
                pairs: PhantomData,
            };
            let p = BoundMap::from_parts(map, Both { first: sync, second: index }, deferred);
            proof {
                if before.in_step(st.records) && index.in_step(
                    st.records,
                    before.contents(st.records),
                ) {
                    p.lemma_joined_early(&before, st.records);
                }
            }
            Ok(p)
        },
        Err(e) => Err(Refused { error: e, map: primary, secondary: kept }),
    }
}

// ---------------------------------------------------------------- counting

/// How a change at a key changes the number of entries.
pub open spec fn size_step<V>(was: Option<V>, new: Option<V>) -> i64 {
    match (was, new) {
        (None, Some(_)) => 1,
        (Some(_), None) => -1i64 as i64,
        _ => 0,
    }
}

/// Sets a counter that is zero to the number of entries.
fn start_counter<S: Store, KF: KeyFormat, VF: Serializer>(
    primary: &BTreeMap<KF, VF>,
    store: &mut S,
    counter: &AtomicLong,
) -> (r: Result<()>)
    ensures
        ({
            let a = old(store).state();
            let b = final(store).state();
            let m = primary.contents(a.records);
            &&& keeps_state(a, b)
            &&& b.records == a.records || exists|x: i64|
                b.records == a.records.insert(counter.at(), Some(#[trigger] LONG.enc(x)))
            &&& b.room >= a.room
            &&& primary.wf(a.records) && m.len() <= i64::MAX && counter.value(a.records) is Some
                ==> {
                &&& carried_out(a, r)
                &&& r is Ok ==> counter.value(b.records) == Some(
                    if counter.value(a.records).unwrap() == 0 {
                        m.len() as i64
                    } else {
                        counter.value(a.records).unwrap()
                    },
                )
            }
        }),
{
    let c: i64 = match counter.get(store) {
        Ok(x) => x,
        Err(e) => {
            return Err(e);
        },
    };
    if c == 0 {
        let n: u64 = match primary.size_long(store) {
            Ok(x) => x,
            Err(e) => {
                return Err(e);
            },
        };
        return counter.set(store, #[verifier::truncate] (n as i64));
    }
    Ok(())
}

/// Counts a change of the entries.
fn count_event<S: Store, V>(
    store: &mut S,
    counter: &AtomicLong,
    was: Option<&V>,
    new: Option<&V>,
) -> (r: Result<()>)
    ensures
        ({
            let a = old(store).state();
            let b = final(store).state();
            let d = size_step(was, new);
            &&& keeps_state(a, b)
            &&& d == 0 ==> r is Ok && b == a
            &&& b.room >= a.room
            &&& b.records == a.records || (a.records.contains_key(counter.at()) && exists|
                x: Option<Seq<u8>>,
            |
                b.records == #[trigger] a.records.insert(counter.at(), x))
            &&& counter.value(a.records) matches Some(c) ==> {
                &&& carried_out(a, r)
                &&& r is Ok ==> counter.value(b.records) == Some(c.wrapping_add(d))
            }
        }),
{
    match (was, new) {
        (None, Some(_)) => match counter.increment_and_get(store) {
            Ok(_) => Ok(()),
            Err(e) => Err(e),
        },
        (Some(_), None) => match counter.decrement_and_get(store) {
            Ok(_) => Ok(()),
            Err(e) => Err(e),
        },
        _ => Ok(()),
    }
}

/// A counter that holds the number of entries holds it after every change that it
/// follows.
pub proof fn law_size_follows<K, V>(m: Map<K, V>, k: K, v: Option<V>)
    requires
        m.dom().finite(),
    ensures
        changed(m, k, v).len() == m.len() + size_step(lookup(m, k), v),
{
    if !m.contains_key(k) {
        assert(m.remove(k) =~= m);
    }
}

/// The number of entries in a counter.
pub struct SizeCounter {
    pub counter: AtomicLong,
}

impl<KF: KeyFormat, VF: Serializer> Binding<KF, VF> for SizeCounter {
    open spec fn in_step(&self, records: Records, m: Map<Model<KF>, Model<VF>>) -> bool {
        &&& m.dom().finite()
        &&& m.len() <= i64::MAX
        &&& self.counter.value(records) == Some(m.len() as i64)
    }

    open spec fn holdings(&self) -> Set<u64> {
        set![self.counter.at()]
    }

    open spec fn needs(&self, v: Option<Model<VF>>) -> nat {
        0
    }

    open spec fn admits(
        &self,
        m: Map<Model<KF>, Model<VF>>,
        k: Model<KF>,
        v: Option<Model<VF>>,
    ) -> bool {
        true
    }

    open spec fn refusal(
        &self,
        m: Map<Model<KF>, Model<VF>>,
        k: Model<KF>,
        v: Option<Model<VF>>,
        e: DbError,
    ) -> bool {
        false
    }

    open spec fn refused(
        &self,
        before: &Self,
        records: Records,
        m: Map<Model<KF>, Model<VF>>,
        k: Model<KF>,
        v: Option<Model<VF>>,
    ) -> bool {
        false
    }

    open spec fn stepped(
        &self,
        before: &Self,
        k: Model<KF>,
        was: Option<Model<VF>>,
        new: Option<Model<VF>>,
    ) -> bool {
        self.counter == before.counter
    }

    open spec fn spare(&self, n: nat) -> bool {
        true
    }

    proof fn spare_less(&self, n: nat, k: nat) {
    }

    open spec fn light(&self) -> bool {
        true
    }

    proof fn lets_go(&self, m: Map<Model<KF>, Model<VF>>, k: Model<KF>) {
    }

    proof fn held(&self, records: Records, m: Map<Model<KF>, Model<VF>>) {
    }

    proof fn untouched(&self, a: Records, b: Records, m: Map<Model<KF>, Model<VF>>) {
        assert(Binding::<KF, VF>::holdings(self).contains(self.counter.at()));
    }

    proof fn refused_untouched(
        &self,
        before: &Self,
        a: Records,
        b: Records,
        m: Map<Model<KF>, Model<VF>>,
        k: Model<KF>,
        v: Option<Model<VF>>,
    ) {
    }

    fn follow<S: Store>(
        &mut self,
        store: &mut S,
        keys: &KF,
        values: &VF,
        key: &KF::Item,
        was: Option<&VF::Item>,
        new: Option<&VF::Item>,
    ) -> Result<()> {
        let ghost a = store.state();
        let r = count_event(store, &self.counter, was, new);
        proof {
            let b = store.state();
            let v = opt_ref_model(new);
            assert forall|m: Map<Model<KF>, Model<VF>>| #[trigger]
                Binding::<KF, VF>::in_step(old(self), a.records, m) && followable::<KF, VF>(
                    m,
                    key@,
                    opt_ref_model(was),
                ) && r is Ok implies Binding::<KF, VF>::in_step(
                self,
                b.records,
                changed(m, key@, v),
            ) by {
                law_size_follows(m, key@, v);
                assert(changed(m, key@, v).dom().finite());
                assert(size_step(was, new) == size_step(lookup(m, key@), v));
            }
        }
        r
    }
}

/// Binds a counter of the entries: a counter that is zero is set to their number, and
/// the map keeps it.
pub fn size<
    S: Store,
    KF: KeyFormat,
    VF: Serializer,
    Y: Binding<KF, VF>,
    L: Binding<KF, VF>,
>(primary: BoundMap<KF, VF, Y, L>, store: &mut S, counter: AtomicLong) -> (r: std::result::Result<
    BoundMap<KF, VF, Y, Both<L, SizeCounter>>,
    Refused<BoundMap<KF, VF, Y, L>, AtomicLong>,
>)
    ensures
        r matches Err(x) ==> x.map == primary && x.secondary == counter,
        r matches Ok(p) ==> p.joins_late(&primary) && p.late().second.counter == counter,
        ({
            let a = old(store).state();
            let b = final(store).state();
            let m = primary.contents(a.records);
            &&& keeps_state(a, b)
            &&& primary.backing().wf(a.records) && m.len() <= i64::MAX && counter.value(
                a.records,
            ) is Some ==> {
                let c = counter.value(a.records).unwrap();
                let n = if c == 0 {
                    m.len() as i64
                } else {
                    c
                };
                &&& a.readable && a.writable ==> r is Ok
                &&& r matches Ok(p) ==> {
                    &&& counter.value(b.records) == Some(n)
                    &&& n == m.len() && primary.in_step(a.records) && !primary.holdings().contains(
                        counter.at(),
                    ) ==> p.in_step(b.records) && p.contents(b.records) == m
                }
            }
        }),
{
    let ghost a = store.state();
    match start_counter(primary.map(), store, &counter) {
        Ok(_) => {
            let ghost b = store.state();
            let ghost before = primary;
            let ghost x = set![counter.at()];
            let (map, sync, deferred) = primary.into_parts();
            let size = SizeCounter { counter };
            let p = BoundMap::from_parts(map, sync, Both { first: deferred, second: size });
            proof {
                if before.in_step(a.records) && !before.holdings().contains(counter.at())
                    && counter.value(a.records) is Some {
                    before.backing().lemma_finite(a.records);
                    assert(frames(a, b, x, x));
                    assert(x.disjoint(before.holdings()));
                    before.lemma_others(a, b, x, x);
                    if Binding::<KF, VF>::in_step(&size, b.records, before.contents(b.records)) {
                        p.lemma_joined_late(&before, b.records);
                    }
                }
            }
            Ok(p)
        },
        Err(e) => Err(Refused { error: e, map: primary, secondary: counter }),
    }
}

/// The number under a key changed by `d`; no number is kept where it is zero.
pub open spec fn bumped<C>(h: Map<C, i64>, c: C, d: i64) -> Map<C, i64> {
    let n = (if h.contains_key(c) {
        h[c]
    } else {
        0i64
    }).wrapping_add(d);
    if n == 0 {
        h.remove(c)
    } else {
        h.insert(c, n)
    }
}

fn add_count<C: KeyFormat>(
    hist: &mut SecondaryMap<C, LongFormat>,
    c: C::Item,
    up: bool,
)
    ensures
        old(hist).wf() ==> final(hist).wf() && final(hist)@ == bumped(
            old(hist)@,
            c@,
            if up {
                1i64
            } else {
                -1i64 as i64
            },
        ),
{
    let had: i64 = match hist.get(&c) {
        Some(x) => x,
        None => 0,
    };
    let n: i64 = had.wrapping_add(
        if up {
            1
        } else {
            -1
        },
    );
    if n == 0 {
        hist.remove(&c);
    } else {
        hist.put(c, n);
    }
}

/// The keys whose entries fall into a category.
pub open spec fn in_category<KF: KeyFormat, VF: Serializer, C: Serializer, F: Derive<KF, VF, C>>(
    f: &F,
    m: Map<Model<KF>, Model<VF>>,
    c: Model<C>,
) -> Set<Model<KF>> {
    Set::new(|k: Model<KF>| m.contains_key(k) && f.derived(k, m[k]) == c)
}

/// How many entries fall into each category that has some.
pub open spec fn counted<KF: KeyFormat, VF: Serializer, C: Serializer, F: Derive<KF, VF, C>>(
    f: &F,
    m: Map<Model<KF>, Model<VF>>,
) -> Map<Model<C>, i64> {
    Map::new(
        |c: Model<C>| in_category(f, m, c).len() > 0,
        |c: Model<C>| in_category(f, m, c).len() as i64,
    )
}

proof fn lemma_counted_put<KF: KeyFormat, VF: Serializer, C: Serializer, F: Derive<KF, VF, C>>(
    f: &F,
    m: Map<Model<KF>, Model<VF>>,
    k: Model<KF>,
    v: Model<VF>,
)
    requires
        m.dom().finite(),
        !m.contains_key(k),
        m.len() < i64::MAX,
    ensures
        bumped(counted(f, m), f.derived(k, v), 1) == counted(f, m.insert(k, v)),
{
    let d = f.derived(k, v);
    let m2 = m.insert(k, v);
    let a = bumped(counted(f, m), d, 1);
    let b = counted(f, m2);
    assert forall|c: Model<C>| in_category(f, m, c).finite()
        && in_category(f, m, c).len() <= m.len() && (
    c != d ==> in_category(f, m2, c) == #[trigger] in_category(f, m, c)) by {
        vstd::set_lib::lemma_set_subset_finite(m.dom(), in_category(f, m, c));
        vstd::set_lib::lemma_len_subset(in_category(f, m, c), m.dom());
        if c != d {
            assert(in_category(f, m2, c) =~= in_category(f, m, c));
        }
    }
    assert(in_category(f, m2, d) =~= in_category(f, m, d).insert(k));
    assert(in_category(f, m2, d).len() == in_category(f, m, d).len() + 1);
    if in_category(f, m, d).len() > 0 {
        assert(counted(f, m).contains_key(d));
    }
    assert forall|c: Model<C>| a.contains_key(c) == #[trigger] b.contains_key(c)
        && (b.contains_key(c)
        ==> a[c] == b[c]) by {
        assert(in_category(f, m, c).finite());
    }
    assert(a =~= b);
}

proof fn lemma_counted_drop<KF: KeyFormat, VF: Serializer, C: Serializer, F: Derive<KF, VF, C>>(
    f: &F,
    m: Map<Model<KF>, Model<VF>>,
    k: Model<KF>,
)
    requires
        m.dom().finite(),
        m.contains_key(k),
        m.len() <= i64::MAX,
    ensures
        bumped(counted(f, m), f.derived(k, m[k]), -1i64 as i64) == counted(f, m.remove(k)),
{
    let d = f.derived(k, m[k]);
    let m2 = m.remove(k);
    let a = bumped(counted(f, m), d, -1i64 as i64);
    let b = counted(f, m2);
    assert forall|c: Model<C>| in_category(f, m, c).finite()
        && in_category(f, m, c).len() <= m.len() && (
    c != d ==> in_category(f, m2, c) == #[trigger] in_category(f, m, c)) by {
        vstd::set_lib::lemma_set_subset_finite(m.dom(), in_category(f, m, c));
        vstd::set_lib::lemma_len_subset(in_category(f, m, c), m.dom());
        if c != d {
            assert(in_category(f, m2, c) =~= in_category(f, m, c));
        }
    }
    assert(in_category(f, m2, d) =~= in_category(f, m, d).remove(k));
    assert(in_category(f, m, d).contains(k));
    assert(in_category(f, m2, d).len() == in_category(f, m, d).len() - 1);
    assert(counted(f, m).contains_key(d));
    assert forall|c: Model<C>| a.contains_key(c) == #[trigger] b.contains_key(c)
        && (b.contains_key(c)
        ==> a[c] == b[c]) by {
        assert(in_category(f, m, c).finite());
    }
    assert(a =~= b);
}

/// Fills an empty histogram with the number of entries of each category.
fn fill_histogram<S: Store, KF: KeyFormat, VF: Serializer, C: KeyFormat, F: Derive<KF, VF, C>>(
    primary: &BTreeMap<KF, VF>,
    store: &S,
    hist: &mut SecondaryMap<C, LongFormat>,
    category: &F,
) -> (r: Result<()>)
    ensures
        ({
            let st = store.state();
            let m = primary.contents(st.records);
            primary.wf(st.records) && old(hist).wf() && m.len() <= i64::MAX ==> {
                &&& served(st, r)
                &&& r is Ok ==> {
                    &&& final(hist).wf()
                    &&& final(hist)@ == if old(hist)@ == Map::<Model<C>, i64>::empty() {
                        counted(category, m)
                    } else {
                        old(hist)@
                    }
                }
            }
        }),
{
    if !hist.is_empty() {
        return Ok(());
    }
    let ghost st = store.state();
    let ghost m = primary.contents(st.records);
    let ghost good = primary.wf(st.records) && hist.wf() && m.len() <= i64::MAX;
    let entries = match primary.entries(store) {
        Ok(v) => v,
        Err(e) => {
            return Err(e);
        },
    };
    let ghost e = entry_models(entries@);
    let ghost mut given: Map<Model<KF>, Model<VF>> = Map::empty();
    proof {
        if good {
            lemma_lists_len(&primary.kf(), e, m);
            assert forall|c: Model<C>| in_category(category, given, c).len() == 0 by {
                assert(in_category(category, given, c) =~= Set::empty());
            }
            assert(counted::<KF, VF, C, F>(category, given) =~= Map::empty());
        }
    }
    let mut i: usize = 0;
    while i < entries.len()
        invariant
            i <= entries@.len(),
            e == entry_models(entries@),
            good ==> {
                &&& lists(&primary.kf(), e, m)
                &&& e.len() == m.len()
                &&& m.len() <= i64::MAX
                &&& hist.wf()
                &&& hist@ == counted(category, given)
                &&& given.dom().finite()
                &&& given.len() == i
                &&& forall|j: int| 0 <= j < i ==> given.contains_key((#[trigger] e[j]).0)
                &&& forall|j: int| i <= j < e.len() ==> !given.contains_key((#[trigger] e[j]).0)
                &&& forall|k: Model<KF>| #[trigger]
                    given.contains_key(k) ==> m.contains_key(k) && given[k] == m[k]
            },
        decreases entries@.len() - i,
    {
        let ghost km = entries@[i as int].0@;
        let ghost vm = entries@[i as int].1@;
        let c = category.derive(&entries[i].0, &entries[i].1);
        proof {
            assert(e[i as int] == (km, vm));
            if good {
                assert(!given.contains_key(e[i as int].0));
                assert(m.contains_key(e[i as int].0) && m[km] == vm);
                lemma_counted_put(category, given, km, vm);
                let g2 = given.insert(km, vm);
                assert forall|j: int| i + 1 <= j < e.len() implies !g2.contains_key(
                    (#[trigger] e[j]).0,
                ) by {
                    broadcast use group_key_order;

                    assert(primary.kf().lt(e[i as int].0, e[j].0));
                    assert(!given.contains_key(e[j].0));
                }
                given = g2;
            }
        }
        add_count(hist, c, true);
        i = i + 1;
    }
    proof {
        if good {
            assert(given =~= m) by {
                assert forall|k: Model<KF>| m.contains_key(k) implies given.contains_key(k) by {
                    let j = choose|j: int| 0 <= j < e.len() && (#[trigger] e[j]).0 == k;
                    assert(given.contains_key(e[j].0));
                }
            }
        }
    }
    Ok(())
}

/// A histogram after a change at a key.
pub open spec fn recounted<KF: KeyFormat, VF: Serializer, C: Serializer, F: Derive<KF, VF, C>>(
    f: &F,
    h: Map<Model<C>, i64>,
    k: Model<KF>,
    was: Option<Model<VF>>,
    new: Option<Model<VF>>,
) -> Map<Model<C>, i64> {
    let less = match was {
        Some(v) => bumped(h, f.derived(k, v), -1i64 as i64),
        None => h,
    };
    match new {
        Some(v) => bumped(less, f.derived(k, v), 1),
        None => less,
    }
}

/// Counts a change of the entries.
fn histogram_event<KF: KeyFormat, VF: Serializer, C: KeyFormat, F: Derive<KF, VF, C>>(
    hist: &mut SecondaryMap<C, LongFormat>,
    category: &F,
    key: &KF::Item,
    was: Option<&VF::Item>,
    new: Option<&VF::Item>,
)
    ensures
        old(hist).wf() ==> final(hist).wf() && final(hist)@ == recounted(
            category,
            old(hist)@,
            key@,
            opt_ref_model(was),
            opt_ref_model(new),
        ),
{
    match was {
        Some(v) => {
            add_count(hist, category.derive(key, v), false);
        },
        None => {},
    }
    match new {
        Some(v) => {
            add_count(hist, category.derive(key, v), true);
        },
        None => {},
    }
}

/// A histogram that counts the entries of a map counts them after every change that it
/// follows.
pub proof fn law_histogram_follows<KF: KeyFormat, VF: Serializer, C: Serializer, F: Derive<KF, VF, C>>(
    f: &F,
    m: Map<Model<KF>, Model<VF>>,
    k: Model<KF>,
    v: Option<Model<VF>>,
)
    requires
        m.dom().finite(),
        m.len() < i64::MAX,
    ensures
        recounted(f, counted(f, m), k, lookup(m, k), v) == counted(f, changed(m, k, v)),
{
    let rest = m.remove(k);
    if m.contains_key(k) {
        lemma_counted_drop(f, m, k);
    } else {
        assert(rest =~= m);
    }
    match v {
        Some(x) => {
            lemma_counted_put(f, rest, k, x);
            assert(rest.insert(k, x) =~= m.insert(k, x));
        },
        None => {},
    }
}

/// The number of entries of each category.
pub struct Histogram<C: KeyFormat, F> {
    pub counts: SecondaryMap<C, LongFormat>,
    pub category: F,
}

impl<KF: KeyFormat, VF: Serializer, C: KeyFormat, F: Derive<KF, VF, C>> Binding<
    KF,
    VF,
> for Histogram<C, F> {
    open spec fn in_step(&self, records: Records, m: Map<Model<KF>, Model<VF>>) -> bool {
        self.counts.wf() && self.counts@ == counted(&self.category, m)
    }

    open spec fn holdings(&self) -> Set<u64> {
        Set::empty()
    }

    open spec fn needs(&self, v: Option<Model<VF>>) -> nat {
        0
    }

    open spec fn admits(
        &self,
        m: Map<Model<KF>, Model<VF>>,
        k: Model<KF>,
        v: Option<Model<VF>>,
    ) -> bool {
        true
    }

    open spec fn refusal(
        &self,
        m: Map<Model<KF>, Model<VF>>,
        k: Model<KF>,
        v: Option<Model<VF>>,
        e: DbError,
    ) -> bool {
        false
    }

    open spec fn refused(
        &self,
        before: &Self,
        records: Records,
        m: Map<Model<KF>, Model<VF>>,
        k: Model<KF>,
        v: Option<Model<VF>>,
    ) -> bool {
        false
    }

    open spec fn stepped(
        &self,
        before: &Self,
        k: Model<KF>,
        was: Option<Model<VF>>,
        new: Option<Model<VF>>,
    ) -> bool {
        self.category == before.category
    }

    open spec fn spare(&self, n: nat) -> bool {
        true
    }

    proof fn spare_less(&self, n: nat, k: nat) {
    }

    open spec fn light(&self) -> bool {
        true
    }

    proof fn lets_go(&self, m: Map<Model<KF>, Model<VF>>, k: Model<KF>) {
    }

    proof fn held(&self, records: Records, m: Map<Model<KF>, Model<VF>>) {
    }

    proof fn untouched(&self, a: Records, b: Records, m: Map<Model<KF>, Model<VF>>) {
    }

    proof fn refused_untouched(
        &self,
        before: &Self,
        a: Records,
        b: Records,
        m: Map<Model<KF>, Model<VF>>,
        k: Model<KF>,
        v: Option<Model<VF>>,
    ) {
    }

    fn follow<S: Store>(
        &mut self,
        store: &mut S,
        keys: &KF,
        values: &VF,
        key: &KF::Item,
        was: Option<&VF::Item>,
        new: Option<&VF::Item>,
    ) -> Result<()> {
        histogram_event::<KF, VF, C, F>(&mut self.counts, &self.category, key, was, new);
        proof {
            let v = opt_ref_model(new);
            assert forall|m: Map<Model<KF>, Model<VF>>| #[trigger]
                old(self).in_step(store.state().records, m) && followable::<KF, VF>(
                    m,
                    key@,
                    opt_ref_model(was),
                ) implies self.in_step(store.state().records, changed(m, key@, v)) by {
                law_histogram_follows(&self.category, m, key@, v);
            }
        }
        Ok(())
    }
}

/// Binds a histogram of the entries: fills it where it is empty, and has the map keep it.
pub fn histogram<
    S: Store,
    KF: KeyFormat,
    VF: Serializer,
    C: KeyFormat,
    F: Derive<KF, VF, C>,
    Y: Binding<KF, VF>,
    L: Binding<KF, VF>,
>(
    primary: BoundMap<KF, VF, Y, L>,
    store: &S,
    hist: SecondaryMap<C, LongFormat>,
    category: F,
) -> (r: std::result::Result<
    BoundMap<KF, VF, Y, Both<L, Histogram<C, F>>>,
    Refused<BoundMap<KF, VF, Y, L>, SecondaryMap<C, LongFormat>>,
>)
    ensures
        r matches Err(x) ==> x.map == primary,
        r matches Ok(p) ==> p.joins_late(&primary) && p.late().second.category == category,
        ({
            let st = store.state();
            let m = primary.contents(st.records);
            let fill = hist@ == Map::<Model<C>, i64>::empty();
            primary.backing().wf(st.records) && hist.wf() && m.len() <= i64::MAX ==> {
                &&& st.readable ==> r is Ok
                &&& r matches Ok(p) ==> {
                    let kept = p.late().second.counts;
                    &&& kept.wf()
                    &&& kept@ == if fill {
                        counted(&category, m)
                    } else {
                        hist@
                    }
                    &&& fill && primary.in_step(st.records) ==> p.in_step(st.records)
                }
            }
        }),
{
    let mut kept = hist;
    match fill_histogram(primary.map(), store, &mut kept, &category) {
        Ok(_) => {
            let ghost st = store.state();
            let ghost before = primary;
            let (map, sync, deferred) = primary.into_parts();
            let index = Histogram { counts: kept, category };
            let p = BoundMap::from_parts(map, sync, Both { first: deferred, second: index });
            proof {
                if before.in_step(st.records) && index.in_step(
                    st.records,
                    before.contents(st.records),
                ) {
                    p.lemma_joined_late(&before, st.records);
                }
            }
            Ok(p)
        },
        Err(e) => Err(Refused { error: e, map: primary, secondary: kept }),
    }
}

// ---------------------------------------------------------------- what was deleted

/// The last value of each key that was removed.
pub struct DeletedValues<KF: KeyFormat, VF: Serializer, M> {
    pub deleted: M,
    pub held: Ghost<Map<Model<KF>, Model<VF>>>,
}

impl<KF: KeyFormat, VF: Serializer, M: SecMap<KF, VF>> Binding<KF, VF> for DeletedValues<
    KF,
    VF,
    M,
> {
    /// The map holds what was put into it.
    open spec fn in_step(&self, records: Records, m: Map<Model<KF>, Model<VF>>) -> bool {
        &&& self.deleted.sec_wf(records)
        &&& self.held@.dom().finite()
        &&& self.deleted.sec_map(records) == self.held@
    }

    open spec fn holdings(&self) -> Set<u64> {
        self.deleted.sec_owned()
    }

    open spec fn needs(&self, v: Option<Model<VF>>) -> nat {
        match v {
            Some(_) => 0,
            None => self.deleted.sec_room(),
        }
    }

    open spec fn admits(
        &self,
        m: Map<Model<KF>, Model<VF>>,
        k: Model<KF>,
        v: Option<Model<VF>>,
    ) -> bool {
        v is None && m.contains_key(k) ==> self.deleted.sec_takes(k, m[k])
    }

    open spec fn refusal(
        &self,
        m: Map<Model<KF>, Model<VF>>,
        k: Model<KF>,
        v: Option<Model<VF>>,
        e: DbError,
    ) -> bool {
        e is RecordTooLarge
    }

    /// The map stays as it was.
    open spec fn refused(
        &self,
        before: &Self,
        records: Records,
        m: Map<Model<KF>, Model<VF>>,
        k: Model<KF>,
        v: Option<Model<VF>>,
    ) -> bool {
        self.in_step(records, m) && self.held@ == before.held@
    }

    /// The value of a key that is removed is put, and nothing else changes.
    open spec fn stepped(
        &self,
        before: &Self,
        k: Model<KF>,
        was: Option<Model<VF>>,
        new: Option<Model<VF>>,
    ) -> bool {
        self.held@ == match (was, new) {
            (Some(v), None) => before.held@.insert(k, v),
            _ => before.held@,
        }
    }

    open spec fn spare(&self, n: nat) -> bool {
        self.held@.dom().finite() && self.held@.len() + n <= i64::MAX
    }

    proof fn spare_less(&self, n: nat, k: nat) {
    }

    open spec fn light(&self) -> bool {
        self.deleted.sec_room() == 0 && forall|k: Model<KF>, v: Model<VF>| #[trigger]
            self.deleted.sec_takes(k, v)
    }

    proof fn lets_go(&self, m: Map<Model<KF>, Model<VF>>, k: Model<KF>) {
    }

    proof fn held(&self, records: Records, m: Map<Model<KF>, Model<VF>>) {
        self.deleted.sec_held(records);
    }

    proof fn untouched(&self, a: Records, b: Records, m: Map<Model<KF>, Model<VF>>) {
        assert forall|r: u64| #[trigger] self.deleted.sec_owned().contains(r)
            implies b.contains_key(r) && b[r] == a[r] by {
            assert(self.holdings().contains(r));
        }
        self.deleted.sec_untouched(a, b);
    }

    proof fn refused_untouched(
        &self,
        before: &Self,
        a: Records,
        b: Records,
        m: Map<Model<KF>, Model<VF>>,
        k: Model<KF>,
        v: Option<Model<VF>>,
    ) {
        self.deleted.sec_held(a);
        if forall|r: u64| #[trigger] self.holdings().contains(r) ==> b.contains_key(r) && b[r]
            == a[r] {
            self.untouched(a, b, m);
        }
    }

    fn follow<S: Store>(
        &mut self,
        store: &mut S,
        keys: &KF,
        values: &VF,
        key: &KF::Item,
        was: Option<&VF::Item>,
        new: Option<&VF::Item>,
    ) -> Result<()> {
        let ghost a = store.state();
        let ghost first = self.deleted;
        proof {
            first.sec_facts(a, 0);
        }
        match (was, new) {
            (Some(v), None) => {
                let r = self.deleted.sec_put(store, keys.dup(key), values.dup(v));
                proof {
                    if r is Ok {
                        self.held@ = self.held@.insert(key@, v@);
                        let b = store.state();
                        if self.deleted.sec_changed(&first, a, b) {
                            M::sec_frames(&first, &self.deleted, a, b);
                        }
                    }
                }
                r
            },
            _ => {
                proof {
                    M::sec_frames(&first, &first, a, a);
                }
                Ok(())
            },
        }
    }
}

/// Binds a map that is given the value of every key that is removed.
pub fn map_put_after_delete<
    S: Store,
    KF: KeyFormat,
    VF: Serializer,
    M: SecMap<KF, VF>,
    Y: Binding<KF, VF>,
    L: Binding<KF, VF>,
>(
    primary: BoundMap<KF, VF, Y, L>,
    store: &S,
    deleted: M,
) -> (r: BoundMap<KF, VF, Y, Both<L, DeletedValues<KF, VF, M>>>)
    ensures
        r.joins_late(&primary),
        r.late().second.deleted == deleted,
        ({
            let records = store.state().records;
            &&& r.late().second.held@ == deleted.sec_map(records)
            &&& primary.in_step(records) && deleted.sec_wf(records)
                && deleted.sec_owned().disjoint(primary.holdings()) ==> r.in_step(records)
        }),
{
    let ghost before = primary;
    let ghost records = store.state().records;
    let (map, sync, deferred) = primary.into_parts();
    let sink = DeletedValues { deleted, held: Ghost(deleted.sec_map(records)) };
    let r = BoundMap::from_parts(map, sync, Both { first: deferred, second: sink });
    proof {
        if before.in_step(records) && deleted.sec_wf(records) && deleted.sec_owned().disjoint(
            before.holdings(),
        ) {
            deleted.sec_held(records);
            r.lemma_joined_late(&before, records);
        }
    }
    r
}

} // verus!
