//! The ascending iterator and what is built on ascending scans.

use vstd::prelude::*;
use crate::btree::contents::lists;
use crate::btree::node::{node_ok, Node, NodeBody, NodeM};
use crate::btree::range::{
    above_hi, below_lo, entry_models, hi_ok, is_least, lemma_lists_push, lemma_ranged_all,
    lemma_ranged_rest, lo_ok, ranged,
};
use crate::btree::tree::{
    above, covers, lemma_level_distinct, lemma_levels_at, level_node, level_ok, low, start_kept,
    starts_kept, Level,
};
use crate::error::{DbError, Result};
use crate::ser::{group_key_order, models, KeyFormat, Model, Serializer};
use crate::store::{blames, carried_out, opt_model, served, Records, Store, StoreState};
use super::scan::{ahead, keys_above, lemma_keys_above, lemma_walked, scan_at, walked};
use super::{
    every_recid, lemma_every_recid, starts_at, BTreeMap, CycleGuard, CYCLE_SCAN_SOFT,
};

verus! {

/// `k` lies beyond the keys of leaf `n`, where a link leads.
pub open spec fn beyond<KF: KeyFormat, V>(kf: &KF, n: NodeM<Model<KF>, V>, k: Model<KF>) -> bool {
    n.link != 0 && (n.high() matches Some(h) && kf.lt(h, k))
}

/// The link of leaf `n` leads to leaf `j`, which starts where `n` ends, and the walk went
/// through leaves before it only.
pub open spec fn leads_to<K, V>(l: Level<K>, visited: Set<u64>, n: NodeM<K, V>, j: int) -> bool {
    &&& 0 < j < l.len()
    &&& l[j].0 == n.link
    &&& low(l, j) == n.high()
    &&& walked(l, visited, j - 1)
}

/// The entries of leaf `n`, and beyond it those of `m`.
pub open spec fn overlay<KF: KeyFormat, V>(
    kf: &KF,
    n: NodeM<Model<KF>, V>,
    m: Map<Model<KF>, V>,
) -> Map<Model<KF>, V> {
    Map::new(
        |k: Model<KF>| n.keys.contains(k) || m.contains_key(k) && beyond(kf, n, k),
        |k: Model<KF>|
            if n.keys.contains(k) {
                n.body->values[n.keys.index_of(k)]
            } else {
                m[k]
            },
    )
}

impl<KF: KeyFormat, VF: Serializer> BTreeMap<KF, VF> {
    /// A leaf of the map, and beyond it the map, is the map from where the leaf starts.
    proof fn lemma_overlay(&self, records: Records, i: int)
        requires
            self.wf(records),
            self.value_inline,
            0 <= i < self.tree@.levels[0].len(),
        ensures
            ({
                let l = self.tree@.levels[0];
                let m = self.contents(records);
                let n = self.nodes(records)[l[i].0];
                let o = overlay(&self.key_format, n, m);
                &&& node_ok(&self.key_format, true, n)
                &&& n.body is Leaf
                &&& n.high() == l[i].1
                &&& (n.link != 0) == (i < l.len() - 1)
                &&& i < l.len() - 1 ==> l[i + 1].0 == n.link
                &&& forall|k: Model<KF>| #[trigger]
                    o.contains_key(k) <==> m.contains_key(k)
                        && above(&self.key_format, low(l, i), k)
                &&& forall|k: Model<KF>| #[trigger] o.contains_key(k) ==> o[k] == m[k]
            }),
    {
        broadcast use group_key_order;

        let kf = &self.key_format;
        let l = self.tree@.levels[0];
        let nodes = self.nodes(records);
        let m = self.contents(records);
        let n = nodes[l[i].0];
        let o = overlay(kf, n, m);
        assert(level_ok(kf, self.value_inline, nodes, self.tree@.levels[0], false));
        assert(level_node(kf, self.value_inline, nodes, l, i, false));
        assert forall|k: Model<KF>| #[trigger] o.contains_key(k) <==> m.contains_key(k) && above(
            kf,
            low(l, i),
            k,
        ) by {
            if n.keys.contains(k) {
                let p = n.keys.index_of(k);
                self.lemma_at_place(records, i, p);
            } else if m.contains_key(k) && beyond(kf, n, k) {
                if i > 0 {
                    assert(kf.lt(l[i - 1].1.unwrap(), l[i].1.unwrap()));
                }
            }
            if m.contains_key(k) && above(kf, low(l, i), k) && !beyond(kf, n, k) {
                assert(covers(kf, l, i, k));
                self.lemma_in_leaf(records, i, k);
            }
        }
        assert forall|k: Model<KF>| #[trigger] o.contains_key(k) implies o[k] == m[k] by {
            if n.keys.contains(k) {
                self.lemma_at_place(records, i, n.keys.index_of(k));
            }
        }
    }
}

/// An ascending iterator over a range of a map. It goes on where the map changes under way.
///
/// Where values stand in the leaves it keeps the leaf it is in; else it keeps only
/// the last key it gave and starts afresh from there.
pub struct EntryIter<KF: KeyFormat, VF: Serializer> {
    done: bool,
    hi: Option<KF::Item>,
    hi_inc: bool,
    inline: bool,
    leaf: Option<Node<KF, VF>>,
    pos: usize,
    lo: Option<KF::Item>,
    lo_inc: bool,
    lo_pending: bool,
    cyc: CycleGuard,
    low: Ghost<(Option<Model<KF>>, bool)>,
}

impl<KF: KeyFormat, VF: Serializer> EntryIter<KF, VF> {
    pub closed spec fn inv(&self) -> bool {
        &&& self.cyc.ok()
        &&& self.leaf matches Some(n) ==> self.pos <= n@.keys.len()
        &&& self.lo_pending ==> self.lo is Some
    }

    /// The iterator keeps this leaf of the map, as it was when it was read.
    spec fn keeps(&self, map: &BTreeMap<KF, VF>, n: NodeM<Model<KF>, Model<VF>>) -> bool {
        let kf = &map.key_format;
        let l = map.tree@.levels[0];
        &&& node_ok(kf, true, n)
        &&& n.body is Leaf
        &&& self.pos <= n.keys.len()
        &&& forall|i: int|
            0 <= i < n.keys.len()
                ==> lo_ok(kf, #[trigger] n.keys[i], self.low@.0, self.low@.1) == (i
                >= self.pos)
        &&& forall|k: Model<KF>| #[trigger]
            beyond(kf, n, k) ==> lo_ok(kf, k, self.low@.0, self.low@.1)
        &&& n.link != 0 ==> exists|j: int| #[trigger] leads_to(l, self.cyc.visited(), n, j)
        &&& self.lo_pending ==> self.low@ == (opt_model(self.lo), self.lo_inc)
    }

    /// The iterator can go on in this map. It need not have been made from the map as it
    /// is now.
    pub closed spec fn stands(&self, map: &BTreeMap<KF, VF>, records: Records) -> bool {
        &&& self.inline == map.value_inline
        &&& !self.inline && !self.done ==> self.low@ == (opt_model(self.lo), self.lo_inc)
        &&& self.inline && !self.done ==> (self.leaf matches Some(n) ==> self.keeps(map, n@))
    }

    /// The entries still to come.
    pub closed spec fn remaining(&self, map: &BTreeMap<KF, VF>, records: Records) -> Map<
        Model<KF>,
        Model<VF>,
    > {
        let m = map.contents(records);
        if self.done || self.inline && self.leaf is None {
            Map::empty()
        } else {
            ranged(
                &map.key_format,
                if self.inline {
                    overlay(&map.key_format, self.leaf.unwrap()@, m)
                } else {
                    m
                },
                self.low@.0,
                self.low@.1,
                opt_model(self.hi),
                self.hi_inc,
            )
        }
    }

    /// The iterator is past the key `x`.
    pub closed spec fn past(&self, kf: &KF, x: Model<KF>) -> bool {
        self.done || self.inline && self.leaf is None || !lo_ok(kf, x, self.low@.0, self.low@.1)
    }

    /// An iterator never turns back: a key that is past does not come any more, whatever the
    /// map holds by then.
    pub proof fn law_never_turns_back(
        &self,
        map: &BTreeMap<KF, VF>,
        records: Records,
        x: Model<KF>,
    )
        requires
            self.past(&map.kf(), x),
        ensures
            !self.remaining(map, records).contains_key(x),
    {
    }

    /// A change of the map does not stop an iterator. What was to come and is in the map as
    /// before still comes, and what comes was to come before or is in the map now.
    pub proof fn law_goes_on_through_changes(
        &self,
        map: &BTreeMap<KF, VF>,
        changed: &BTreeMap<KF, VF>,
        a: StoreState,
        b: StoreState,
        m: Map<Model<KF>, Model<VF>>,
        spent: nat,
    )
        requires
            map.wf(a.records),
            self.stands(map, a.records),
            changed.became(map, a, b, m, spent),
        ensures
            self.stands(changed, b.records),
            ({
                let before = self.remaining(map, a.records);
                let after = self.remaining(changed, b.records);
                &&& forall|k: Model<KF>| #[trigger]
                    before.contains_key(k) && m.contains_key(k) && m[k] == before[k]
                        ==> after.contains_key(k) && after[k] == before[k]
                &&& forall|k: Model<KF>| #[trigger]
                    after.contains_key(k) ==> (before.contains_key(k) && before[k] == after[k]) || (
                    m.contains_key(k) && m[k] == after[k])
            }),
    {
        if self.inline && !self.done && self.leaf is Some {
            let n = self.leaf.unwrap()@;
            if n.link != 0 {
                self.lemma_link_kept(map, changed, a.records, b.records, n);
            }
        }
    }

    proof fn lemma_link_kept(
        &self,
        map: &BTreeMap<KF, VF>,
        changed: &BTreeMap<KF, VF>,
        a: Records,
        b: Records,
        n: NodeM<Model<KF>, Model<VF>>,
    )
        requires
            map.wf(a),
            changed.wf(b),
            changed.same_config(map),
            changed.keeps_nodes(map),
            self.keeps(map, n),
            n.link != 0,
        ensures
            self.keeps(changed, n),
    {
        broadcast use group_key_order;

        let kf = &map.key_format;
        let l = map.tree@.levels[0];
        let l2 = changed.tree@.levels[0];
        let visited = self.cyc.visited();
        let j = choose|j: int| #[trigger] leads_to(l, visited, n, j);
        lemma_levels_at(map.tree@.levels, changed.tree@.levels, 0);
        reveal(starts_kept);
        assert(start_kept(l, l2, j));
        let j2 = choose|j2: int|
            #![trigger l2[j2]]
            0 <= j2 < l2.len() && l2[j2].0 == l[j].0 && low(l2, j2) == low(l, j);
        assert(level_ok(kf, map.value_inline, map.nodes(a), map.tree@.levels[0], false));
        assert(level_ok(
            kf,
            map.value_inline,
            changed.nodes(b),
            changed.tree@.levels[0],
            false,
        ));
        assert(l[j - 1].1 is Some);
        assert forall|x: u64| #[trigger] visited.contains(x) implies exists|y: int|
            #![trigger l2[y]]
            0 <= y <= j2 - 1 && l2[y].0 == x by {
            let y = choose|y: int| #![trigger l[y]] 0 <= y <= j - 1 && l[y].0 == x;
            assert(start_kept(l, l2, y));
            let y2 = choose|y2: int|
                #![trigger l2[y2]]
                0 <= y2 < l2.len() && l2[y2].0 == l[y].0 && low(l2, y2) == low(l, y);
            if y2 == j2 {
                lemma_level_distinct(kf, map.value_inline, map.nodes(a), l, false, y, j);
            } else if y2 > j2 {
                assert(l2[y2 - 1].1 is Some);
                if y > 0 {
                    assert(kf.lt(l[y - 1].1.unwrap(), l[j - 1].1.unwrap()));
                    assert(kf.lt(l2[j2 - 1].1.unwrap(), l2[y2 - 1].1.unwrap()));
                }
            }
            assert(l2[y2].0 == x);
        }
        assert(leads_to(l2, visited, n, j2));
    }

    /// Together with [`fuel`](Self::fuel) this bounds how many more entries can come.
    pub closed spec fn leaves(&self, map: &BTreeMap<KF, VF>, records: Records) -> nat {
        if self.done {
            0
        } else if self.inline {
            self.cyc.fuel(every_recid())
        } else {
            keys_above(&map.key_format, map.nodes(records), opt_model(self.lo), self.lo_inc)
        }
    }

    pub closed spec fn fuel(&self) -> nat {
        if self.done || !self.inline {
            0
        } else {
            match self.leaf {
                Some(n) => (n@.keys.len() - self.pos) as nat,
                None => 0,
            }
        }
    }

    /// What a step of the iterator gives.
    pub open spec fn step_post(
        old_iter: &Self,
        new_iter: &Self,
        map: &BTreeMap<KF, VF>,
        records: Records,
        r: Option<(Model<KF>, Model<VF>)>,
    ) -> bool {
        let before = old_iter.remaining(map, records);
        let after = new_iter.remaining(map, records);
        &&& new_iter.stands(map, records)
        &&& forall|x: Model<KF>|
            old_iter.past(&map.kf(), x) ==> #[trigger] new_iter.past(&map.kf(), x)
        &&& r matches Some((k, v)) ==> forall|x: Model<KF>|
            !map.kf().lt(k, x) ==> #[trigger] new_iter.past(&map.kf(), x)
        &&& match r {
            None => before == Map::<Model<KF>, Model<VF>>::empty() && after == before,
            Some((k, v)) => is_least(&map.kf(), before, k) && before[k] == v && after
                == before.remove(k),
        }
    }

    /// A step leaves less to do.
    pub open spec fn shrinks(
        old_iter: &Self,
        new_iter: &Self,
        map: &BTreeMap<KF, VF>,
        records: Records,
    ) -> bool {
        ||| new_iter.leaves(map, records) < old_iter.leaves(map, records)
        ||| new_iter.leaves(map, records) == old_iter.leaves(map, records) && new_iter.fuel()
            < old_iter.fuel()
    }

    /// An iterator that keeps the leaf where its range starts has the whole range to come.
    proof fn lemma_started(
        &self,
        map: &BTreeMap<KF, VF>,
        records: Records,
        i: int,
        n: NodeM<Model<KF>, Model<VF>>,
    )
        requires
            map.wf(records),
            map.value_inline,
            n == map.nodes(records)[map.tree@.levels[0][i].0],
            starts_at(&map.key_format, map.tree@.levels[0], i, self.low@.0),
            scan_at(
                &map.key_format,
                map.tree@.levels[0],
                map.contents(records),
                i,
                n.keys,
                self.pos as int,
                self.low@.0,
                self.low@.1,
            ),
            self.low@ == (opt_model(self.lo), self.lo_inc),
            self.cyc.visited() == Set::<u64>::empty(),
        ensures
            self.keeps(map, n),
            ranged(
                &map.key_format,
                overlay(&map.key_format, n, map.contents(records)),
                self.low@.0,
                self.low@.1,
                opt_model(self.hi),
                self.hi_inc,
            ) == ranged(
                &map.key_format,
                map.contents(records),
                self.low@.0,
                self.low@.1,
                opt_model(self.hi),
                self.hi_inc,
            ),
    {
        broadcast use group_key_order;

        let kf = &map.key_format;
        let l = map.tree@.levels[0];
        let m = map.contents(records);
        let o = overlay(kf, n, m);
        let pos = self.pos as int;
        map.lemma_overlay(records, i);
        if n.link != 0 {
            assert(leads_to(l, self.cyc.visited(), n, i + 1));
        }
        assert forall|x: int| 0 <= x < n.keys.len() implies lo_ok(
            kf,
            #[trigger] n.keys[x],
            self.low@.0,
            self.low@.1,
        ) == (x >= pos) by {
            map.lemma_at_place(records, i, x);
            assert(ahead(kf, l, i, n.keys, pos, n.keys[x]) == (x >= pos)) by {
                if pos > 0 {
                    if x > pos - 1 {
                        assert(kf.lt(n.keys[pos - 1], n.keys[x]));
                    } else if x < pos - 1 {
                        assert(kf.lt(n.keys[x], n.keys[pos - 1]));
                    }
                }
            }
        }
        let a = ranged(kf, o, self.low@.0, self.low@.1, opt_model(self.hi), self.hi_inc);
        let b = ranged(kf, m, self.low@.0, self.low@.1, opt_model(self.hi), self.hi_inc);
        assert forall|k: Model<KF>| a.contains_key(k) == b.contains_key(k) by {
            if a.contains_key(k) {
                assert(o.contains_key(k));
            }
            if b.contains_key(k) {
                assert(m.contains_key(k));
                assert(ahead(kf, l, i, n.keys, pos, k));
                assert(o.contains_key(k));
            }
        }
        assert forall|k: Model<KF>| #[trigger] a.contains_key(k) implies a[k] == b[k] by {
            assert(o.contains_key(k));
        }
        assert(a =~= b);
    }

    /// At the end of a leaf the next one holds what comes first.
    proof fn lemma_next_leaf(
        &self,
        map: &BTreeMap<KF, VF>,
        records: Records,
        n: NodeM<Model<KF>, Model<VF>>,
        i: int,
        to_come: Map<Model<KF>, Model<VF>>,
    )
        requires
            map.wf(records),
            map.value_inline,
            self.keeps(map, n),
            self.pos == n.keys.len(),
            n.link != 0,
            leads_to(map.tree@.levels[0], self.cyc.visited(), n, i),
            to_come == ranged(
                &map.key_format,
                overlay(&map.key_format, n, map.contents(records)),
                self.low@.0,
                self.low@.1,
                opt_model(self.hi),
                self.hi_inc,
            ),
        ensures
            ({
                let kf = &map.key_format;
                let l = map.tree@.levels[0];
                let n2 = map.nodes(records)[n.link];
                &&& map.nodes(records).contains_key(n.link)
                &&& node_ok(kf, true, n2)
                &&& n2.body is Leaf
                &&& forall|i: int|
                    0 <= i < n2.keys.len() ==> lo_ok(
                        kf,
                        #[trigger] n2.keys[i],
                        self.low@.0,
                        self.low@.1,
                    )
                &&& forall|k: Model<KF>| #[trigger]
                    beyond(kf, n2, k) ==> lo_ok(kf, k, self.low@.0, self.low@.1)
                &&& !self.cyc.visited().contains(n.link)
                &&& n2.link != 0 ==> leads_to(l, self.cyc.visited().insert(n.link), n2, i + 1)
                &&& to_come == ranged(
                    kf,
                    overlay(kf, n2, map.contents(records)),
                    self.low@.0,
                    self.low@.1,
                    opt_model(self.hi),
                    self.hi_inc,
                )
            }),
    {
        broadcast use group_key_order;

        let kf = &map.key_format;
        let l = map.tree@.levels[0];
        let m = map.contents(records);
        let n2 = map.nodes(records)[n.link];
        let o = overlay(kf, n, m);
        let o2 = overlay(kf, n2, m);
        assert(level_ok(kf, map.value_inline, map.nodes(records), map.tree@.levels[0], false));
        assert(level_node(kf, map.value_inline, map.nodes(records), l, i, false));
        assert(l[i - 1].1 == n.high());
        map.lemma_overlay(records, i);
        lemma_walked(l, self.cyc.visited(), i - 1, n.link);
        if self.cyc.visited().contains(n.link) {
            let y = choose|y: int| #![trigger l[y]] 0 <= y <= i - 1 && l[y].0 == n.link;
            lemma_level_distinct(kf, map.value_inline, map.nodes(records), l, false, y, i);
        }
        assert forall|x: int| 0 <= x < n2.keys.len() implies lo_ok(
            kf,
            #[trigger] n2.keys[x],
            self.low@.0,
            self.low@.1,
        ) by {
            map.lemma_at_place(records, i, x);
            assert(beyond(kf, n, n2.keys[x]));
        }
        assert forall|k: Model<KF>| #[trigger] beyond(kf, n2, k) implies lo_ok(
            kf,
            k,
            self.low@.0,
            self.low@.1,
        ) by {
            assert(kf.lt(l[i - 1].1.unwrap(), l[i].1.unwrap()));
            assert(beyond(kf, n, k));
        }
        let r2 = ranged(
            kf,
            o2,
            self.low@.0,
            self.low@.1,
            opt_model(self.hi),
            self.hi_inc,
        );
        assert forall|k: Model<KF>| to_come.contains_key(k) == r2.contains_key(k) by {
            if to_come.contains_key(k) {
                if n.keys.contains(k) {
                    assert(n.keys[n.keys.index_of(k)] == k);
                }
                assert(m.contains_key(k) && beyond(kf, n, k));
                assert(o2.contains_key(k));
            }
            if r2.contains_key(k) {
                assert(o2.contains_key(k));
                assert(m.contains_key(k) && beyond(kf, n, k));
                assert(o.contains_key(k));
            }
        }
        assert forall|k: Model<KF>| #[trigger] to_come.contains_key(k) implies to_come[k]
            == r2[k] by {
            if n.keys.contains(k) {
                assert(n.keys[n.keys.index_of(k)] == k);
            }
            assert(o2.contains_key(k));
        }
        assert(to_come =~= r2);
    }

    /// The entry at the place of the iterator comes first.
    proof fn lemma_place(
        &self,
        map: &BTreeMap<KF, VF>,
        records: Records,
        n: NodeM<Model<KF>, Model<VF>>,
        to_come: Map<Model<KF>, Model<VF>>,
    )
        requires
            self.keeps(map, n),
            self.pos < n.keys.len(),
            to_come == ranged(
                &map.key_format,
                overlay(&map.key_format, n, map.contents(records)),
                self.low@.0,
                self.low@.1,
                opt_model(self.hi),
                self.hi_inc,
            ),
        ensures
            ({
                let kf = &map.key_format;
                let k = n.keys[self.pos as int];
                &&& n.body->values.len() == n.keys.len()
                &&& lo_ok(kf, k, self.low@.0, self.low@.1)
                &&& forall|x: Model<KF>| #[trigger] to_come.contains_key(x) ==> !kf.lt(x, k)
                &&& to_come.contains_key(k) == hi_ok(kf, k, opt_model(self.hi), self.hi_inc)
                &&& to_come.contains_key(k) ==> to_come[k] == n.body->values[self.pos as int]
                &&& forall|i: int|
                    0 <= i < n.keys.len() ==> lo_ok(kf, #[trigger] n.keys[i], Some(k), false) == (i
                        > self.pos)
                &&& forall|x: Model<KF>| #[trigger] beyond(kf, n, x)
                    ==> lo_ok(kf, x, Some(k), false)
            }),
    {
        broadcast use group_key_order;

        let kf = &map.key_format;
        let pos = self.pos as int;
        let k = n.keys[pos];
        assert(n.keys.contains(k));
        let at = n.keys.index_of(k);
        if at < pos {
            assert(kf.lt(n.keys[at], n.keys[pos]));
        } else if at > pos {
            assert(kf.lt(n.keys[pos], n.keys[at]));
        }
        assert forall|x: Model<KF>| #[trigger] beyond(kf, n, x) implies kf.lt(k, x) by {
            let last = n.keys.last();
            if pos < n.keys.len() - 1 {
                assert(kf.lt(n.keys[pos], n.keys[n.keys.len() - 1]));
            }
            assert(!kf.lt(n.high().unwrap(), last));
        }
        assert forall|x: Model<KF>| #[trigger] to_come.contains_key(x) implies !kf.lt(x, k) by {
            if n.keys.contains(x) {
                let i = n.keys.index_of(x);
                assert(n.keys[i] == x);
                if i > pos {
                    assert(kf.lt(n.keys[pos], n.keys[i]));
                }
            }
        }
        assert forall|i: int| 0 <= i < n.keys.len() implies lo_ok(
            kf,
            #[trigger] n.keys[i],
            Some(k),
            false,
        ) == (i > pos) by {
            if i > pos {
                assert(kf.lt(n.keys[pos], n.keys[i]));
            } else if i < pos {
                assert(kf.lt(n.keys[i], n.keys[pos]));
            }
        }
    }

    fn advance_inline<S: Store>(&mut self, map: &BTreeMap<KF, VF>, store: &S) -> (r: Result<
        Option<(KF::Item, VF::Item)>,
    >)
        requires
            old(self).inv(),
            old(self).inline,
            !old(self).done,
        ensures
            blames(store.state(), r),
            final(self).inv(),
            map.wf(store.state().records) && old(self).stands(
                map,
                store.state().records,
            ) ==> served(store.state(), r) && (r matches Ok(e) ==> Self::step_post(
                old(self),
                final(self),
                map,
                store.state().records,
                match e {
                    Some((k, v)) => Some((k@, v@)),
                    None => None,
                },
            )),
            r matches Ok(Some(e)) ==> Self::shrinks(
                old(self),
                final(self),
                map,
                store.state().records,
            ),
    {
        let ghost records = store.state().records;
        let ghost nodes = map.nodes(records);
        let ghost l = map.tree@.levels[0];
        let ghost m = map.contents(records);
        let ghost good = map.wf(records) && self.stands(map, records);
        let ghost low0 = self.low@;
        let ghost him = opt_model(self.hi);
        let ghost to_come = self.remaining(map, records);
        let mut leaf = match self.leaf.take() {
            Some(n) => n,
            None => {
                self.done = true;
                return Ok(None);
            },
        };
        proof {
            lemma_every_recid();
        }
        let ghost fuel0 = self.cyc.fuel(every_recid());
        let ghost left0 = leaf@.keys.len() - self.pos;
        loop
            invariant
                records == store.state().records,
                nodes == map.nodes(records),
                l == map.tree@.levels[0],
                m == map.contents(records),
                good == (map.wf(records) && old(self).stands(
                    map,
                    records,
                )),
                self.cyc.ok(),
                self.inline,
                !self.done,
                self.leaf is None,
                self.pos <= leaf@.keys.len(),
                self.low@ == low0,
                old(self).low@ == low0,
                !old(self).done,
                old(self).inline,
                self.hi == old(self).hi,
                self.hi_inc == old(self).hi_inc,
                him == opt_model(self.hi),
                self.lo_pending ==> self.lo is Some,
                every_recid().finite(),
                forall|s: Set<u64>| #[trigger] s.subset_of(every_recid()),
                fuel0 == old(self).cyc.fuel(every_recid()),
                old(self).leaf matches Some(n0) && left0 == n0@.keys.len() - old(self).pos,
                self.cyc.fuel(every_recid()) < fuel0 || (self.cyc.fuel(every_recid()) == fuel0
                    && leaf@.keys.len() - self.pos <= left0),
                to_come == old(self).remaining(map, records),
                good ==> {
                    &&& self.inline == map.value_inline
                    &&& self.keeps(map, leaf@)
                    &&& to_come == ranged(
                        &map.key_format,
                        overlay(&map.key_format, leaf@, m),
                        low0.0,
                        low0.1,
                        him,
                        self.hi_inc,
                    )
                },
            decreases self.cyc.fuel(every_recid()), leaf@.keys.len() - self.pos,
        {
            if self.pos >= leaf.keys.len() {
                let link: u64 = leaf.link;
                let ghost left = leaf@;
                let ghost before = *self;
                if link == 0 {
                    self.done = true;
                    proof {
                        if good {
                            assert forall|k: Model<KF>| !to_come.contains_key(k) by {
                                if to_come.contains_key(k) {
                                    assert(left.keys[left.keys.index_of(k)] == k);
                                }
                            }
                            assert(to_come =~= Map::empty());
                        }
                    }
                    return Ok(None);
                }
                self.pos = 0;
                proof {
                    if good {
                        let j = choose|j: int| #[trigger] leads_to(l, before.cyc.visited(), left, j);
                        before.lemma_next_leaf(map, records, left, j, to_come);
                    }
                }
                match self.cyc.visit(link) {
                    Ok(_) => {},
                    Err(e) => {
                        return Err(e);
                    },
                }
                leaf = match map.load(store, link) {
                    Ok(x) => x,
                    Err(e) => {
                        return Err(e);
                    },
                };
                continue;
            }
            let pos: usize = self.pos;
            let ghost km = leaf@.keys[pos as int];
            assert(km == leaf.keys@[pos as int]@);
            proof {
                if good {
                    self.lemma_place(map, records, leaf@, to_come);
                }
            }
            if self.lo_pending {
                if below_lo(&map.key_format, &leaf.keys[pos], self.lo.as_ref(), self.lo_inc) {
                    self.pos = pos + 1;
                    continue;
                }
                self.lo_pending = false;
            }
            if above_hi(&map.key_format, &leaf.keys[pos], self.hi.as_ref(), self.hi_inc) {
                self.done = true;
                self.leaf = Some(leaf);
                proof {
                    if good {
                        broadcast use group_key_order;

                        assert forall|x: Model<KF>| !to_come.contains_key(x) by {
                            if to_come.contains_key(x) {
                                assert(!map.key_format.lt(x, km));
                            }
                        }
                        assert(to_come =~= Map::empty());
                    }
                }
                return Ok(None);
            }
            let k = map.key_format.dup(&leaf.keys[pos]);
            let v = match &leaf.body {
                NodeBody::Leaf { values, .. } => {
                    if pos >= values.len() {
                        self.done = true;
                        return Err(
                            DbError::corrupt("entry iterator reached a non-inline-leaf node"),
                        );
                    }
                    assert(models(values@)[pos as int] == values@[pos as int]@);
                    map.value_format.dup(&values[pos])
                },
                NodeBody::ExternalLeaf { .. } => {
                    self.done = true;
                    return Err(DbError::corrupt("entry iterator reached a non-inline-leaf node"));
                },
                NodeBody::Dir { .. } => {
                    self.done = true;
                    return Err(DbError::corrupt("entry iterator reached a non-inline-leaf node"));
                },
            };
            self.pos = pos + 1;
            let ghost leaf_now = leaf@;
            self.leaf = Some(leaf);
            proof {
                self.low@ = (Some(km), false);
                if good {
                    broadcast use group_key_order;

                    assert(is_least(&map.key_format, to_come, km));
                    lemma_ranged_rest(
                        &map.key_format,
                        overlay(&map.key_format, leaf_now, m),
                        low0.0,
                        low0.1,
                        him,
                        self.hi_inc,
                        km,
                    );
                    if leaf_now.link != 0 {
                        let j = choose|j: int| #[trigger]
                            leads_to(l, self.cyc.visited(), leaf_now, j);
                        assert(leads_to(l, self.cyc.visited(), leaf_now, j));
                    }
                    assert(self.keeps(map, leaf_now));
                }
            }
            return Ok(Some((k, v)));
        }
    }

    fn advance<S: Store>(&mut self, map: &BTreeMap<KF, VF>, store: &S) -> (r: Result<
        Option<(KF::Item, VF::Item)>,
    >)
        requires
            old(self).inv(),
        ensures
            blames(store.state(), r),
            final(self).inv(),
            old(self).done ==> r is Ok && r.unwrap() is None && *final(self) == *old(self),
            old(self).asks_first() ==> map.refuses(store.state(), r),
            map.wf(store.state().records) && old(self).stands(
                map,
                store.state().records,
            ) ==> served(store.state(), r) && (r matches Ok(e) ==> Self::step_post(
                old(self),
                final(self),
                map,
                store.state().records,
                match e {
                    Some((k, v)) => Some((k@, v@)),
                    None => None,
                },
            )),
            r matches Ok(Some(e)) ==> Self::shrinks(
                old(self),
                final(self),
                map,
                store.state().records,
            ),
    {
        if self.done {
            return Ok(None);
        }
        if self.inline {
            return self.advance_inline(map, store);
        }
        let ghost records = store.state().records;
        let ghost good = map.wf(records) && self.stands(map, records);
        let next = match map.first_external_entry(
            store,
            self.lo.as_ref(),
            self.lo_inc,
            self.hi.as_ref(),
            self.hi_inc,
        ) {
            Ok(x) => x,
            Err(e) => {
                return Err(e);
            },
        };
        match next {
            Some((k, v)) => {
                proof {
                    broadcast use group_key_order;

                    map.lemma_nodes_finite(store);
                    lemma_keys_above(
                        &map.key_format,
                        map.nodes(records),
                        opt_model(self.lo),
                        self.lo_inc,
                        k@,
                    );
                    if good {
                        lemma_ranged_rest(
                            &map.key_format,
                            map.contents(records),
                            self.low@.0,
                            self.low@.1,
                            opt_model(self.hi),
                            self.hi_inc,
                            k@,
                        );
                    }
                    self.low@ = (Some(k@), false);
                }
                self.lo = Some(map.key_format.dup(&k));
                self.lo_inc = false;
                Ok(Some((k, v)))
            },
            None => {
                self.done = true;
                Ok(None)
            },
        }
    }

    /// The next entry; after an error or the end nothing more comes.
    pub fn next<S: Store>(&mut self, map: &BTreeMap<KF, VF>, store: &S) -> (r: Option<
        Result<(KF::Item, VF::Item)>,
    >)
        requires
            old(self).inv(),
        ensures
            final(self).inv(),
            old(self).ended() ==> r is None && final(self).ended(),
            old(self).asks_first() && (map.spoiled() || store.state().closed) ==> (r matches Some(x)
                && map.refuses(store.state(), x)),
            r matches Some(x) ==> blames(store.state(), x) && (x is Err ==> final(self).ended()),
            map.wf(store.state().records) && old(self).stands(map, store.state().records)
                ==> (store.state().readable ==> !(r matches Some(Err(e)))),
            map.wf(store.state().records) && old(self).stands(map, store.state().records) && !(
            r matches Some(Err(e))) ==> Self::step_post(
                old(self),
                final(self),
                map,
                store.state().records,
                match r {
                    Some(Ok((k, v))) => Some((k@, v@)),
                    _ => None,
                },
            ),
            r matches Some(x) ==> (x is Ok ==> Self::shrinks(
                old(self),
                final(self),
                map,
                store.state().records,
            )),
    {
        match self.advance(map, store) {
            Ok(Some(e)) => Some(Ok(e)),
            Ok(None) => None,
            Err(e) => {
                self.done = true;
                Some(Err(e))
            },
        }
    }

    /// Nothing more comes.
    pub closed spec fn ended(&self) -> bool {
        self.done
    }

    /// The next entry is not known before the map is asked.
    pub closed spec fn asks_first(&self) -> bool {
        !self.done && !self.inline
    }
}

impl<KF: KeyFormat, VF: Serializer> BTreeMap<KF, VF> {
    /// An ascending iterator over the range; a bound of `None` is open.
    pub fn entry_iter<S: Store>(
        &self,
        store: &S,
        lo: Option<KF::Item>,
        lo_inc: bool,
        hi: Option<KF::Item>,
        hi_inc: bool,
    ) -> (r: Result<EntryIter<KF, VF>>)
        ensures
            blames(store.state(), r),
            r is Err ==> self.refuses(store.state(), r),
            r matches Ok(it) ==> it.inv() && (self.spoiled() || store.state().closed
                ==> it.asks_first()),
            self.wf(store.state().records) ==> served(store.state(), r)
                && (r matches Ok(it) ==> it.stands(self, store.state().records) && it.remaining(
                self,
                store.state().records,
            ) == ranged(
                &self.kf(),
                self.contents(store.state().records),
                opt_model(lo),
                lo_inc,
                opt_model(hi),
                hi_inc,
            )),
    {
        let ghost low = (opt_model(lo), lo_inc);
        if !self.value_inline {
            return Ok(
                EntryIter {
                    done: false,
                    hi,
                    hi_inc,
                    inline: false,
                    leaf: None,
                    pos: 0,
                    lo,
                    lo_inc,
                    lo_pending: false,
                    cyc: CycleGuard::new(CYCLE_SCAN_SOFT),
                    low: Ghost(low),
                },
            );
        }
        match self.scan_start(store, lo.as_ref(), lo_inc) {
            Ok((n, pos, i)) => {
                let lo_pending = lo.is_some();
                let ghost nm = n@;
                let it = EntryIter {
                    done: false,
                    hi,
                    hi_inc,
                    inline: true,
                    leaf: Some(n),
                    pos,
                    lo,
                    lo_inc,
                    lo_pending,
                    cyc: CycleGuard::new(CYCLE_SCAN_SOFT),
                    low: Ghost(low),
                };
                proof {
                    if self.wf(store.state().records) {
                        it.lemma_started(self, store.state().records, i@, nm);
                    }
                }
                Ok(it)
            },
            Err(e) => Err(e),
        }
    }

    /// An ascending iterator over the whole map.
    pub fn iter<S: Store>(&self, store: &S) -> (r: Result<EntryIter<KF, VF>>)
        ensures
            blames(store.state(), r),
            r is Err ==> self.refuses(store.state(), r),
            r matches Ok(it) ==> it.inv() && (self.spoiled() || store.state().closed
                ==> it.asks_first()),
            self.wf(store.state().records) ==> served(store.state(), r)
                && (r matches Ok(it) ==> it.stands(self, store.state().records) && it.remaining(
                self,
                store.state().records,
            ) == self.contents(store.state().records)),
    {
        proof {
            lemma_ranged_all(
                &self.key_format,
                self.contents(store.state().records),
                true,
                true,
            );
        }
        self.entry_iter(store, None, true, None, true)
    }

    /// The entries of the range in key order.
    pub fn entries_in<S: Store>(
        &self,
        store: &S,
        lo: Option<KF::Item>,
        lo_inc: bool,
        hi: Option<KF::Item>,
        hi_inc: bool,
    ) -> (r: Result<Vec<(KF::Item, VF::Item)>>)
        ensures
            blames(store.state(), r),
            self.refuses(store.state(), r),
            self.wf(store.state().records) ==> served(store.state(), r)
                && (r matches Ok(v) ==> lists(
                &self.kf(),
                entry_models(v@),
                ranged(
                    &self.kf(),
                    self.contents(store.state().records),
                    opt_model(lo),
                    lo_inc,
                    opt_model(hi),
                    hi_inc,
                ),
            )),
    {
        let ghost records = store.state().records;
        let ghost good = self.wf(records);
        let ghost all = ranged(
            &self.kf(),
            self.contents(records),
            opt_model(lo),
            lo_inc,
            opt_model(hi),
            hi_inc,
        );
        let mut it = match self.entry_iter(store, lo, lo_inc, hi, hi_inc) {
            Ok(it) => it,
            Err(e) => {
                return Err(e);
            },
        };
        let mut out: Vec<(KF::Item, VF::Item)> = Vec::new();
        let ghost mut given = Map::<Model<KF>, Model<VF>>::empty();
        proof {
            assert(lists(&self.kf(), entry_models(out@), given));
        }
        loop
            invariant
                it.inv(),
                self.spoiled() || store.state().closed ==> it.asks_first(),
                records == store.state().records,
                good == self.wf(records),
                all == ranged(
                    &self.kf(),
                    self.contents(records),
                    opt_model(lo),
                    lo_inc,
                    opt_model(hi),
                    hi_inc,
                ),
                good ==> {
                    let rem = it.remaining(self, records);
                    &&& it.stands(self, records)
                    &&& lists(&self.kf(), entry_models(out@), given)
                    &&& given.union_prefer_right(rem) == all
                    &&& forall|a: Model<KF>, b: Model<KF>|
                        #![trigger given.contains_key(a), rem.contains_key(b)]
                        given.contains_key(a) && rem.contains_key(b) ==> self.kf().lt(a, b)
                },
            decreases it.leaves(self, records), it.fuel(),
        {
            let ghost before = it;
            match it.next(self, store) {
                None => {
                    proof {
                        if good {
                            assert(given =~= all);
                        }
                    }
                    return Ok(out);
                },
                Some(Err(e)) => {
                    return Err(e);
                },
                Some(Ok((k, v))) => {
                    let ghost out0 = entry_models(out@);
                    let ghost km = k@;
                    let ghost vm = v@;
                    out.push((k, v));
                    proof {
                        if good {
                            broadcast use group_key_order;

                            let rem0 = before.remaining(self, records);
                            let rem = it.remaining(self, records);
                            lemma_lists_push(&self.kf(), out0, given, km, vm);
                            assert(entry_models(out@) =~= out0.push((km, vm)));
                            let given2 = given.insert(km, vm);
                            assert(given2.union_prefer_right(rem)
                                =~= given.union_prefer_right(rem0));
                            assert forall|a: Model<KF>, b: Model<KF>|
                                #![trigger given2.contains_key(a), rem.contains_key(b)]
                                given2.contains_key(a) && rem.contains_key(b)
                                    implies self.kf().lt(a, b) by {
                                assert(rem0.contains_key(b));
                                if a == km {
                                    assert(!self.kf().lt(b, km));
                                    self.kf().lt_total(km, b);
                                } else {
                                    assert(given.contains_key(a));
                                }
                            }
                            given = given2;
                        }
                    }
                },
            }
        }
    }

    /// All entries in key order.
    pub fn entries<S: Store>(&self, store: &S) -> (r: Result<Vec<(KF::Item, VF::Item)>>)
        ensures
            blames(store.state(), r),
            self.refuses(store.state(), r),
            self.wf(store.state().records) ==> served(store.state(), r)
                && (r matches Ok(v) ==> lists(
                &self.kf(),
                entry_models(v@),
                self.contents(store.state().records),
            )),
    {
        proof {
            lemma_ranged_all(
                &self.key_format,
                self.contents(store.state().records),
                true,
                true,
            );
        }
        self.entries_in(store, None, true, None, true)
    }

    /// Takes the entry with the least key of the range out of the map.
    pub fn poll_first_entry<S: Store>(
        &mut self,
        store: &mut S,
        lo: Option<KF::Item>,
        lo_inc: bool,
        hi: Option<KF::Item>,
        hi_inc: bool,
    ) -> (r: Result<Option<(KF::Item, VF::Item)>>)
        ensures
            old(self).refuses(old(store).state(), r),
            old(self).read_only_in(old(store).state()) ==> {
                let part = ranged(
                    &old(self).kf(),
                    old(self).contents(old(store).state().records),
                    opt_model(lo),
                    lo_inc,
                    opt_model(hi),
                    hi_inc,
                );
                &&& final(store).state().records == old(store).state().records
                &&& part =~= Map::empty() ==> (r matches Ok(x) && x is None)
                &&& !(part =~= Map::empty()) ==> r == Err::<Option<(KF::Item, VF::Item)>, DbError>(
                    DbError::ReadOnly,
                )
            },
            final(self).same_config(old(self)),
            old(self).wf(old(store).state().records) ==> {
                let m = old(self).contents(old(store).state().records);
                let part = ranged(
                    &old(self).kf(),
                    m,
                    opt_model(lo),
                    lo_inc,
                    opt_model(hi),
                    hi_inc,
                );
                &&& carried_out(old(store).state(), r)
                &&& r is Err ==> final(self).left_alone(
                    old(self),
                    old(store).state(),
                    final(store).state(),
                    0,
                ) || exists|k: Model<KF>| #[trigger]
                    part.contains_key(k) && final(self).taken_or_left(
                        old(self),
                        old(store).state(),
                        final(store).state(),
                        k,
                    )
                &&& r matches Ok(None) ==> part =~= Map::empty() && final(self).became(
                    old(self),
                    old(store).state(),
                    final(store).state(),
                    m,
                    0,
                )
                &&& r matches Ok(Some((k, v))) ==> is_least(&old(self).kf(), part, k@)
                    && m[k@] == v@
                    && final(self).became(
                    old(self),
                    old(store).state(),
                    final(store).state(),
                    m.remove(k@),
                    0,
                )
            },
    {
        let ghost a = store.state();
        let ghost m = self.contents(a.records);
        proof {
            if self.wf(a.records) {
                self.lemma_unchanged(a);
            }
        }
        let mut it = match self.entry_iter(store, lo, lo_inc, hi, hi_inc) {
            Ok(it) => it,
            Err(e) => {
                return Err(e);
            },
        };
        match it.next(self, store) {
            None => Ok(None),
            Some(Err(e)) => Err(e),
            Some(Ok((k, v))) => match self.remove_internal(store, &k, Some(&v)) {
                Ok(Some(_)) => Ok(Some((k, v))),
                Ok(None) => Err(DbError::corrupt("polled entry is not in the map")),
                Err(e) => Err(e),
            },
        }
    }

    /// Takes the entry with the least key out of the map.
    pub fn pop_first<S: Store>(&mut self, store: &mut S) -> (r: Result<
        Option<(KF::Item, VF::Item)>,
    >)
        ensures
            old(self).refuses(old(store).state(), r),
            old(self).read_only_in(old(store).state()) ==> {
                let m = old(self).contents(old(store).state().records);
                &&& final(store).state().records == old(store).state().records
                &&& m =~= Map::empty() ==> (r matches Ok(x) && x is None)
                &&& !(m =~= Map::empty()) ==> r == Err::<Option<(KF::Item, VF::Item)>, DbError>(
                    DbError::ReadOnly,
                )
            },
            final(self).same_config(old(self)),
            old(self).wf(old(store).state().records) ==> {
                let m = old(self).contents(old(store).state().records);
                &&& carried_out(old(store).state(), r)
                &&& r is Err ==> final(self).left_alone(
                    old(self),
                    old(store).state(),
                    final(store).state(),
                    0,
                ) || exists|k: Model<KF>| #[trigger]
                    m.contains_key(k) && final(self).taken_or_left(
                        old(self),
                        old(store).state(),
                        final(store).state(),
                        k,
                    )
                &&& r matches Ok(None) ==> m =~= Map::empty() && final(self).became(
                    old(self),
                    old(store).state(),
                    final(store).state(),
                    m,
                    0,
                )
                &&& r matches Ok(Some((k, v))) ==> is_least(&old(self).kf(), m, k@) && m[k@] == v@
                    && final(self).became(
                    old(self),
                    old(store).state(),
                    final(store).state(),
                    m.remove(k@),
                    0,
                )
            },
    {
        proof {
            lemma_ranged_all(
                &self.key_format,
                self.contents(store.state().records),
                true,
                true,
            );
        }
        self.poll_first_entry(store, None, true, None, true)
    }
}

} // verus!
