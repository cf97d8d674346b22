//! Walks over keys alone: counting, emptiness and clearing.

use vstd::prelude::*;
use crate::btree::range::{
    above_hi, below_lo, lemma_keys_len, lemma_ranged_all, lists_keys, lo_ok, ranged,
};
use crate::btree::tree::lemma_levels_chain;
use crate::error::{DbError, Result};
use crate::ser::{group_key_order, models, sorted, KeyFormat, Model, Serializer, LONG};
use crate::store::{blames, carried_out, get_item, keeps_state, opt_model, served, Store};
use super::scan::{lemma_walked, scan_at, walked};
use super::write::spares;
use super::{every_recid, lemma_every_recid, opt_ref_model, BTreeMap, CycleGuard, CYCLE_SCAN_SOFT};

verus! {

/// A consumer of keys.
pub trait KeyVisitor<K: View> {
    /// The keys that came so far.
    spec fn seen(&self) -> Seq<K::V>;

    /// More keys are wanted.
    spec fn more(&self) -> bool;

    /// What the visitor holds agrees with the keys it saw.
    spec fn sound(&self) -> bool;

    /// Takes a key; answers whether more are wanted.
    fn visit(&mut self, k: &K) -> (r: bool)
        requires
            old(self).more(),
        ensures
            final(self).seen() == old(self).seen().push(k@),
            r == final(self).more(),
            old(self).sound() ==> final(self).sound(),
    ;
}

/// Counts keys.
pub struct KeyCount<K: View> {
    pub count: u64,
    pub keys: Ghost<Seq<K::V>>,
}

impl<K: View> KeyVisitor<K> for KeyCount<K> {
    open spec fn seen(&self) -> Seq<K::V> {
        self.keys@
    }

    open spec fn more(&self) -> bool {
        true
    }

    open spec fn sound(&self) -> bool {
        self.keys@.len() <= u64::MAX ==> self.count == self.keys@.len()
    }

    fn visit(&mut self, k: &K) -> bool {
        self.count = self.count.wrapping_add(1);
        proof {
            self.keys@ = self.keys@.push(k@);
        }
        true
    }
}

/// Stops at the first key.
pub struct AnyKey<K: View> {
    pub found: bool,
    pub keys: Ghost<Seq<K::V>>,
}

impl<K: View> KeyVisitor<K> for AnyKey<K> {
    open spec fn seen(&self) -> Seq<K::V> {
        self.keys@
    }

    open spec fn more(&self) -> bool {
        !self.found
    }

    open spec fn sound(&self) -> bool {
        self.found == (self.keys@.len() > 0)
    }

    fn visit(&mut self, k: &K) -> bool {
        self.found = true;
        proof {
            self.keys@ = self.keys@.push(k@);
        }
        false
    }
}

/// Collects copies of the keys.
pub struct KeyList<'a, KF: KeyFormat> {
    pub format: &'a KF,
    pub keys: Vec<KF::Item>,
}

impl<'a, KF: KeyFormat> KeyVisitor<KF::Item> for KeyList<'a, KF> {
    open spec fn seen(&self) -> Seq<Model<KF>> {
        models(self.keys@)
    }

    open spec fn more(&self) -> bool {
        true
    }

    open spec fn sound(&self) -> bool {
        true
    }

    fn visit(&mut self, k: &KF::Item) -> bool {
        let ghost before = models(self.keys@);
        self.keys.push(self.format.dup(k));
        assert(models(self.keys@) =~= before.push(k@));
        true
    }
}

/// The keys of the map below `k`, in order.
spec fn keys_below<KF: KeyFormat, V>(
    kf: &KF,
    ks: Seq<Model<KF>>,
    all: Map<Model<KF>, V>,
    lo: Option<Model<KF>>,
    lo_inc: bool,
) -> bool {
    &&& sorted(kf, ks)
    &&& forall|x: int| 0 <= x < ks.len() ==> all.contains_key(#[trigger] ks[x]) && !lo_ok(
        kf,
        ks[x],
        lo,
        lo_inc,
    )
    &&& forall|k: Model<KF>| #[trigger]
        all.contains_key(k) ==> lo_ok(kf, k, lo, lo_inc) || exists|x: int|
            0 <= x < ks.len() && #[trigger] ks[x] == k
}

impl<KF: KeyFormat, VF: Serializer> BTreeMap<KF, VF> {
    /// Hands the keys of the range to a visitor in order, until it has enough: no key is
    /// handed over when no more are wanted. Values are not read.
    pub fn walk_keys<S: Store, F: KeyVisitor<KF::Item>>(
        &self,
        store: &S,
        lo: Option<&KF::Item>,
        lo_inc: bool,
        hi: Option<&KF::Item>,
        hi_inc: bool,
        f: &mut F,
    ) -> (r: Result<()>)
        requires
            old(f).more(),
        ensures
            blames(store.state(), r),
            self.refuses(store.state(), r),
            old(f).sound() ==> final(f).sound(),
            self.wf(store.state().records) ==> served(store.state(), r),
            self.wf(store.state().records) && r is Ok ==> handed(
                &self.kf(),
                ranged(
                    &self.kf(),
                    self.contents(store.state().records),
                    opt_ref_model(lo),
                    lo_inc,
                    opt_ref_model(hi),
                    hi_inc,
                ),
                old(f).seen(),
                final(f).seen(),
                final(f).more(),
            ),
    {
        let ghost records = store.state().records;
        let ghost nodes = self.nodes(records);
        let ghost l = self.tree@.levels[0];
        let ghost m = self.contents(records);
        let ghost good = self.wf(records);
        let ghost lom = opt_ref_model(lo);
        let ghost him = opt_ref_model(hi);
        let ghost all = ranged(&self.key_format, m, lom, lo_inc, him, hi_inc);
        let (n, p, start) = match self.scan_start(store, lo, lo_inc) {
            Ok(x) => x,
            Err(e) => {
                return Err(e);
            },
        };
        let mut leaf = n;
        let mut pos: usize = p;
        let ghost mut i: int = start@;
        let mut cyc = CycleGuard::new(CYCLE_SCAN_SOFT);
        let mut lo_pending = lo.is_some();
        let ghost mut low = (lom, lo_inc);
        let ghost mut ks: Seq<Model<KF>> = Seq::empty();
        proof {
            lemma_every_recid();
            assert(f.seen() =~= old(f).seen() + ks);
        }
        loop
            invariant
                !self.poisoned,
                !store.state().closed,
                records == store.state().records,
                nodes == self.nodes(records),
                l == self.tree@.levels[0],
                m == self.contents(records),
                lom == opt_ref_model(lo),
                him == opt_ref_model(hi),
                all == ranged(&self.key_format, m, lom, lo_inc, him, hi_inc),
                good == self.wf(records),
                cyc.ok(),
                every_recid().finite(),
                forall|s: Set<u64>| #[trigger] s.subset_of(every_recid()),
                old(f).sound() ==> f.sound(),
                good ==> {
                    &&& leaf@ == nodes[l[i].0]
                    &&& scan_at(
                        &self.key_format,
                        l,
                        m,
                        i,
                        leaf@.keys,
                        pos as int,
                        low.0,
                        low.1,
                    )
                    &&& walked(l, cyc.visited(), i)
                    &&& lo_pending ==> low == (lom, lo_inc)
                    &&& f.seen() == old(f).seen() + ks
                    &&& keys_below(&self.key_format, ks, all, low.0, low.1)
                    &&& forall|x: Model<KF>|
                        m.contains_key(x) && #[trigger] lo_ok(&self.key_format, x, low.0, low.1)
                            ==> lo_ok(&self.key_format, x, lom, lo_inc)
                },
                f.more(),
            decreases
                cyc.fuel(every_recid()),
                if leaf@.keys.len() > pos {
                    leaf@.keys.len() - pos
                } else {
                    0
                },
        {
            if pos >= leaf.keys.len() {
                let link: u64 = leaf.link;
                proof {
                    if good {
                        self.lemma_scan_next(records, i, low.0, low.1);
                    }
                }
                if link == 0 {
                    proof {
                        if good {
                            assert(lists_keys(&self.key_format, ks, all));
                            assert(first_keys(&self.key_format, ks, all));
                            assert(handed(&self.kf(), all, old(f).seen(), f.seen(), f.more()));
                        }
                    }
                    return Ok(());
                }
                let ghost before = cyc;
                proof {
                    if good && cyc.visited().contains(link) {
                        let y = choose|y: int| #![trigger l[y]] 0 <= y <= i && l[y].0 == link;
                        assert(l[y].0 != link);
                    }
                }
                match cyc.visit(link) {
                    Ok(_) => {},
                    Err(e) => {
                        return Err(e);
                    },
                }
                leaf = match self.load(store, link) {
                    Ok(m) => m,
                    Err(e) => {
                        return Err(e);
                    },
                };
                pos = 0;
                proof {
                    if good {
                        lemma_walked(l, before.visited(), i, link);
                        i = i + 1;
                    }
                }
                continue;
            }
            let ghost km = leaf@.keys[pos as int];
            assert(km == leaf.keys@[pos as int]@);
            proof {
                if good {
                    self.lemma_scan_place(records, i, pos as int, low.0, low.1);
                }
            }
            let k = &leaf.keys[pos];
            if lo_pending {
                if below_lo(&self.key_format, k, lo, lo_inc) {
                    pos = pos + 1;
                    continue;
                }
                lo_pending = false;
            }
            if above_hi(&self.key_format, k, hi, hi_inc) {
                proof {
                    if good {
                        broadcast use group_key_order;

                        assert forall|x: Model<KF>| #[trigger] all.contains_key(x)
                            implies exists|y: int|
                            0 <= y < ks.len() && #[trigger] ks[y] == x by {
                            assert(m.contains_key(x));
                            if lo_ok(&self.key_format, x, low.0, low.1) {
                                assert(!self.key_format.lt(x, km));
                            }
                        }
                        assert(lists_keys(&self.key_format, ks, all));
                        assert(first_keys(&self.key_format, ks, all));
                        assert(handed(&self.kf(), all, old(f).seen(), f.seen(), f.more()));
                    }
                }
                return Ok(());
            }
            let ghost ks0 = ks;
            let ghost low0 = low;
            proof {
                low = (Some(km), false);
                ks = ks.push(km);
                if good {
                    self.lemma_walk_step(m, all, ks0, low0.0, low0.1, lom, lo_inc, him, hi_inc, km);
                }
            }
            let more = f.visit(k);
            proof {
                if good {
                    assert(f.seen() =~= old(f).seen() + ks);
                }
            }
            if !more {
                proof {
                    if good {
                        assert(first_keys(&self.key_format, ks, all));
                        assert(handed(&self.kf(), all, old(f).seen(), f.seen(), f.more()));
                    }
                }
                return Ok(());
            }
            pos = pos + 1;
        }
    }

    proof fn lemma_walk_step(
        &self,
        m: Map<Model<KF>, Model<VF>>,
        all: Map<Model<KF>, Model<VF>>,
        ks: Seq<Model<KF>>,
        low: Option<Model<KF>>,
        low_inc: bool,
        lo: Option<Model<KF>>,
        lo_inc: bool,
        hi: Option<Model<KF>>,
        hi_inc: bool,
        k: Model<KF>,
    )
        requires
            all == ranged(&self.key_format, m, lo, lo_inc, hi, hi_inc),
            keys_below(&self.key_format, ks, all, low, low_inc),
            forall|x: Model<KF>|
                m.contains_key(x) && #[trigger] lo_ok(&self.key_format, x, low, low_inc) ==> lo_ok(
                    &self.key_format,
                    x,
                    lo,
                    lo_inc,
                ),
            m.contains_key(k),
            lo_ok(&self.key_format, k, low, low_inc),
            crate::btree::range::hi_ok(&self.key_format, k, hi, hi_inc),
            forall|x: Model<KF>| #[trigger]
                m.contains_key(x) && lo_ok(&self.key_format, x, low, low_inc)
                    ==> !self.key_format.lt(
                    x,
                    k,
                ),
        ensures
            keys_below(&self.key_format, ks.push(k), all, Some(k), false),
            forall|x: Model<KF>|
                m.contains_key(x) && #[trigger] lo_ok(&self.key_format, x, Some(k), false)
                    ==> lo_ok(
                    &self.key_format,
                    x,
                    lo,
                    lo_inc,
                ),
            first_keys(&self.key_format, ks.push(k), all),
    {
        broadcast use group_key_order;

        let kf = &self.key_format;
        let ks2 = ks.push(k);
        assert forall|x: int| 0 <= x < ks.len() implies kf.lt(#[trigger] ks[x], k) by {
            assert(all.contains_key(ks[x]));
            if !kf.lt(ks[x], k) {
                // then ks[x] is at or above k, so above the bound too
                assert(lo_ok(kf, ks[x], low, low_inc));
            }
        }
        assert(sorted(kf, ks2)) by {
            assert forall|a: int, b: int| #![trigger ks2[a], ks2[b]] 0 <= a < b < ks2.len()
                implies kf.lt(
                ks2[a],
                ks2[b],
            ) by {
                if b == ks.len() {
                    assert(kf.lt(ks[a], k));
                } else {
                    assert(kf.lt(ks[a], ks[b]));
                }
            }
        }
        assert forall|x: int| 0 <= x < ks2.len() implies all.contains_key(#[trigger] ks2[x])
            && !lo_ok(
            kf,
            ks2[x],
            Some(k),
            false,
        ) by {
            if x < ks.len() {
                assert(kf.lt(ks[x], k));
            } else {
                assert(lo_ok(kf, k, lo, lo_inc));
            }
        }
        assert forall|x: Model<KF>| #[trigger] all.contains_key(x) implies lo_ok(
            kf,
            x,
            Some(k),
            false,
        ) || exists|y: int| 0 <= y < ks2.len() && #[trigger] ks2[y] == x by {
            assert(m.contains_key(x));
            if !lo_ok(kf, x, Some(k), false) {
                if x == k {
                    assert(ks2[ks.len() as int] == x);
                } else {
                    assert(!lo_ok(kf, x, low, low_inc));
                    let y = choose|y: int| 0 <= y < ks.len() && #[trigger] ks[y] == x;
                    assert(ks2[y] == x);
                }
            }
        }
        assert forall|x: Model<KF>|
            m.contains_key(x) && #[trigger] lo_ok(kf, x, Some(k), false) implies lo_ok(
            kf,
            x,
            lo,
            lo_inc,
        ) by {
            assert(lo_ok(kf, k, lo, lo_inc));
        }
        assert(first_keys(kf, ks2, all)) by {
            assert forall|x: Model<KF>, y: int|
                #![trigger all.contains_key(x), ks2[y]]
                all.contains_key(x) && 0 <= y < ks2.len() && kf.lt(x, ks2[y]) implies ks2.contains(
                x,
            ) by {
                if !lo_ok(kf, x, Some(k), false) {
                    let z = choose|z: int| 0 <= z < ks2.len() && #[trigger] ks2[z] == x;
                } else {
                    if y < ks.len() {
                        assert(kf.lt(ks[y], k));
                    }
                }
            }
        }
    }

    /// The number of entries. With a size counter it is read from there.
    pub fn size_long<S: Store>(&self, store: &S) -> (r: Result<u64>)
        ensures
            blames(store.state(), r),
            self.refuses(store.state(), r),
            self.wf(store.state().records) && self.contents(
                store.state().records,
            ).len() <= u64::MAX ==> served(store.state(), r) && (
            r matches Ok(x) ==> x == (self.contents(store.state().records).len() as u64)),
    {
        if self.counter_recid != 0 {
            match self.check_poison() {
                Ok(_) => {},
                Err(e) => {
                    return Err(e);
                },
            }
            return match get_item(store, self.counter_recid, &LONG) {
                Ok(Some(v)) => {
                    if v < 0 {
                        Err(DbError::corrupt("btree size counter record is negative"))
                    } else {
                        Ok(v as u64)
                    }
                },
                Ok(None) => Err(DbError::corrupt("btree size counter record missing")),
                Err(e) => Err(e),
            };
        }
        proof {
            lemma_ranged_all(
                &self.key_format,
                self.contents(store.state().records),
                true,
                true,
            );
        }
        self.size_long_range(store, None, true, None, true)
    }

    /// The number of entries in the range.
    pub fn size_long_range<S: Store>(
        &self,
        store: &S,
        lo: Option<KF::Item>,
        lo_inc: bool,
        hi: Option<KF::Item>,
        hi_inc: bool,
    ) -> (r: Result<u64>)
        ensures
            blames(store.state(), r),
            self.refuses(store.state(), r),
            self.wf(store.state().records) ==> {
                let part = ranged(
                    &self.kf(),
                    self.contents(store.state().records),
                    opt_model(lo),
                    lo_inc,
                    opt_model(hi),
                    hi_inc,
                );
                served(store.state(), r) && (part.len() <= u64::MAX ==> (r matches Ok(n) ==> n
                    == part.len()))
            },
    {
        let mut f: KeyCount<KF::Item> = KeyCount { count: 0, keys: Ghost(Seq::empty()) };
        match self.walk_keys(store, lo.as_ref(), lo_inc, hi.as_ref(), hi_inc, &mut f) {
            Ok(_) => {
                proof {
                    if self.wf(store.state().records) {
                        let part = ranged(
                            &self.kf(),
                            self.contents(store.state().records),
                            opt_model(lo),
                            lo_inc,
                            opt_model(hi),
                            hi_inc,
                        );
                        assert(f.keys@ =~= Seq::<Model<KF>>::empty() + f.keys@);
                        assert(handed(&self.kf(), part, Seq::empty(), f.seen(), true));
                        let ks = choose|ks: Seq<Model<KF>>|
                            f.seen() == Seq::<Model<KF>>::empty() + ks && #[trigger] first_keys(
                                &self.kf(),
                                ks,
                                part,
                            ) && lists_keys(&self.kf(), ks, part);
                        assert(f.keys@ =~= ks);
                        lemma_keys_len(&self.kf(), ks, part);
                    }
                }
                Ok(f.count)
            },
            Err(e) => Err(e),
        }
    }

    /// Whether the map has no entry.
    pub fn is_empty<S: Store>(&self, store: &S) -> (r: Result<bool>)
        ensures
            blames(store.state(), r),
            self.refuses(store.state(), r),
            self.wf(store.state().records) ==> served(store.state(), r) && (
            r matches Ok(x) ==>
                x == (self.contents(store.state().records)
                    == Map::<Model<KF>, Model<VF>>::empty())),
    {
        let mut f: AnyKey<KF::Item> = AnyKey { found: false, keys: Ghost(Seq::empty()) };
        match self.walk_keys(store, None, true, None, true, &mut f) {
            Ok(_) => {
                proof {
                    let m = self.contents(store.state().records);
                    if self.wf(store.state().records) {
                        lemma_ranged_all(&self.key_format, m, true, true);
                        let ks = choose|ks: Seq<Model<KF>>|
                            f.seen() == Seq::<Model<KF>>::empty() + ks && #[trigger] first_keys(
                                &self.kf(),
                                ks,
                                m,
                            ) && (ks.len() == 0 ==> lists_keys(&self.kf(), ks, m));
                        assert(f.keys@ =~= ks);
                        if ks.len() > 0 {
                            assert(m.contains_key(ks[0]));
                        } else {
                            assert(m =~= Map::empty());
                        }
                    }
                }
                Ok(!f.found)
            },
            Err(e) => Err(e),
        }
    }

    /// The keys, in order.
    pub(crate) fn every_key<S: Store>(&self, store: &S) -> (r: Result<Vec<KF::Item>>)
        ensures
            blames(store.state(), r),
            self.refuses(store.state(), r),
            self.wf(store.state().records) ==> served(store.state(), r) && (r matches Ok(v)
                ==> lists_keys(&self.kf(), models(v@), self.contents(store.state().records))),
    {
        let ghost m = self.contents(store.state().records);
        let mut f: KeyList<KF> = KeyList { format: &self.key_format, keys: Vec::new() };
        match self.walk_keys(store, None, true, None, true, &mut f) {
            Ok(_) => {},
            Err(e) => {
                return Err(e);
            },
        }
        proof {
            if self.wf(store.state().records) {
                lemma_ranged_all(&self.key_format, m, true, true);
                let ks = choose|ks: Seq<Model<KF>>|
                    f.seen() == models(Seq::<KF::Item>::empty()) + ks && #[trigger] first_keys(
                        &self.kf(),
                        ks,
                        m,
                    ) && lists_keys(&self.kf(), ks, m);
                assert(models(f.keys@) =~= ks);
            }
        }
        Ok(f.keys)
    }

    /// Removes every entry.
    pub fn clear<S: Store>(&mut self, store: &mut S) -> (r: Result<()>)
        ensures
            old(self).read_only_in(old(store).state()) ==> {
                let m = old(self).contents(old(store).state().records);
                &&& final(store).state().records == old(store).state().records
                &&& m =~= Map::empty() ==> r is Ok
                &&& !(m =~= Map::empty()) ==> r == Err::<(), DbError>(DbError::ReadOnly)
            },
            old(self).refuses(old(store).state(), r),
            final(self).same_config(old(self)),
            old(self).wf(old(store).state().records) ==> carried_out(old(store).state(), r) && (
            r is Ok ==> final(self).became(
                old(self),
                old(store).state(),
                final(store).state(),
                Map::empty(),
                0,
            )),
            old(self).wf(old(store).state().records) && r is Err ==> {
                let a = old(store).state();
                let b = final(store).state();
                let left = final(self).contents(b.records);
                &&& keeps_state(a, b)
                &&& spares(a.records, b.records, old(self).owned())
                &&& final(self).spoiled() || {
                    &&& final(self).became(old(self), a, b, left, 0) || {
                        &&& !old(self).inline() && old(self).counter() != 0
                        &&& final(self).uncounted().became(&old(self).uncounted(), a, b, left, 0)
                    }
                    &&& left.submap_of(old(self).contents(a.records))
                }
            },
    {
        let ghost a = store.state();
        let ghost good = self.wf(a.records);
        let ghost ro = self.read_only_in(a);
        let ghost m = self.contents(a.records);
        proof {
            if good {
                self.lemma_unchanged(a);
            }
        }
        let keys = match self.every_key(store) {
            Ok(v) => v,
            Err(e) => {
                return Err(e);
            },
        };
        let ghost ks = models(keys@);
        let mut i: usize = 0;
        while i < keys.len()
            invariant
                !old(self).poisoned && !a.closed,
                i <= keys@.len(),
                ks == models(keys@),
                ro == old(self).read_only_in(a),
                ro ==> i == 0 && *self == *old(self) && *store == *old(store),
                ro ==> lists_keys(&old(self).kf(), ks, m),
                good ==> lists_keys(&old(self).kf(), ks, m),
                good == old(self).wf(a.records),
                self.same_config(old(self)),
                a == old(store).state(),
                m == old(self).contents(a.records),
                good ==> {
                    let now = self.contents(store.state().records);
                    &&& self.became(old(self), a, store.state(), now, 0)
                    &&& now.submap_of(m)
                    &&& forall|k: Model<KF>| #[trigger]
                        now.contains_key(k) ==> exists|x: int|
                            i <= x < ks.len() && #[trigger] ks[x] == k
                },
            decreases keys@.len() - i,
        {
            let ghost b = store.state();
            let ghost before = *self;
            assert(ks[i as int] == keys@[i as int]@);
            match self.remove(store, &keys[i]) {
                Ok(_) => {},
                Err(e) => {
                    proof {
                        if good {
                            let c = store.state();
                            let owned = old(self).owned();
                            self.lemma_spared(&before, b, c, ks[i as int], 0);
                            assert forall|x: u64| #[trigger]
                                a.records.contains_key(x) && !owned.contains(x)
                                    implies c.records.contains_key(x)
                                && c.records[x] == a.records[x] by {
                                assert(b.records.contains_key(x));
                            }
                        }
                        if good && !self.spoiled() {
                            let c = store.state();
                            let left = self.contents(c.records);
                            assert(before.inline() == old(self).inline());
                            assert(before.counter() == old(self).counter());
                            if self.became(&before, b, c, left, 0) {
                                self.lemma_became_chain(&before, old(self), a, b, c);
                            } else {
                                let now = before.contents(b.records);
                                before.lemma_uncounted(old(self), a, b, now, 0);
                                self.uncounted().lemma_became_chain(
                                    &before.uncounted(),
                                    &old(self).uncounted(),
                                    a,
                                    b,
                                    c,
                                );
                            }
                        }
                    }
                    return Err(e);
                },
            }
            proof {
                if good {
                    self.lemma_became_chain(&before, old(self), a, b, store.state());
                    let now = self.contents(store.state().records);
                    let then = before.contents(b.records);
                    assert forall|k: Model<KF>| #[trigger] now.contains_key(k)
                        implies exists|x: int|
                        i + 1 <= x < ks.len() && #[trigger] ks[x] == k by {
                        assert(then.contains_key(k));
                        let x = choose|x: int| i <= x < ks.len() && #[trigger] ks[x] == k;
                        assert(x != i);
                        assert(ks[x] == k);
                    }
                }
            }
            i = i + 1;
        }
        proof {
            if good {
                assert(self.contents(store.state().records) =~= Map::empty());
            }
        }
        Ok(())
    }

    /// Two changes in a row.
    pub proof fn lemma_became_chain(
        &self,
        mid: &Self,
        old_map: &Self,
        a: crate::store::StoreState,
        b: crate::store::StoreState,
        c: crate::store::StoreState,
    )
        requires
            mid.became(old_map, a, b, mid.contents(b.records), 0),
            self.became(mid, b, c, self.contents(c.records), 0),
        ensures
            self.became(old_map, a, c, self.contents(c.records), 0),
    {
        lemma_levels_chain(old_map.tree@.levels, mid.tree@.levels, self.tree@.levels);
        let owned = old_map.owned();
        let owned1 = mid.owned();
        let owned2 = self.owned();
        assert forall|r: u64|
            #![trigger c.records.contains_key(r)]
            #![trigger owned2.contains(r)]
            a.records.contains_key(r) && !owned.contains(r) implies c.records.contains_key(r)
            && c.records[r] == a.records[r] && !owned2.contains(r) by {
            assert(b.records.contains_key(r) && !owned1.contains(r));
            assert(b.records[r] == a.records[r]);
            assert(c.records.contains_key(r));
            assert(c.records[r] == b.records[r]);
        }
    }
}

/// What a visitor saw of a map: its keys in order, all of them unless the visitor
/// had enough.
pub open spec fn handed<KF: KeyFormat, V>(
    kf: &KF,
    m: Map<Model<KF>, V>,
    before: Seq<Model<KF>>,
    after: Seq<Model<KF>>,
    more: bool,
) -> bool {
    exists|ks: Seq<Model<KF>>|
        {
            &&& after == before + ks
            &&& #[trigger] first_keys(kf, ks, m)
            &&& more || ks.len() == 0 ==> lists_keys(kf, ks, m)
        }
}

/// `ks` are the least keys of the map, in order.
pub open spec fn first_keys<KF: KeyFormat, V>(
    kf: &KF,
    ks: Seq<Model<KF>>,
    m: Map<Model<KF>, V>,
) -> bool {
    &&& sorted(kf, ks)
    &&& forall|i: int| 0 <= i < ks.len() ==> m.contains_key(#[trigger] ks[i])
    &&& forall|x: Model<KF>, y: int|
        #![trigger m.contains_key(x), ks[y]]
        m.contains_key(x) && 0 <= y < ks.len() && kf.lt(x, ks[y]) ==> ks.contains(x)
}

} // verus!
