//! Scans in ascending key order.

use vstd::prelude::*;
use crate::btree::contents::{leaf_value, lemma_leaf_key_covers, lemma_lookup};
use crate::btree::node::{node_ok, Node, NodeM};
use crate::btree::range::{above_hi, below_lo, is_least, lo_ok, ranged};
use crate::btree::steps::{lemma_leaf_facts, lemma_value_record};
use crate::btree::tree::{
    above, covers, lemma_level_distinct, level_node, level_ok, low, within, Level,
};
use crate::error::Result;
use crate::ser::{group_key_order, search, splits_at, KeyFormat, Model, Serializer};
use crate::store::{blames, item_at, served, Records, Store};
use super::{
    every_recid, lemma_every_recid, opt_ref_model, starts_at, BTreeMap, CycleGuard,
    CYCLE_SCAN_SOFT,
};

verus! {

/// `k` lies ahead of place `pos` of leaf `i`.
pub open spec fn ahead<KF: KeyFormat>(
    kf: &KF,
    l: Level<Model<KF>>,
    i: int,
    keys: Seq<Model<KF>>,
    pos: int,
    k: Model<KF>,
) -> bool {
    above(kf, low(l, i), k) && (pos > 0 ==> kf.lt(keys[pos - 1], k))
}

/// Place `pos` of leaf `i` is where the keys above a low bound start.
pub open spec fn scan_at<KF: KeyFormat, V>(
    kf: &KF,
    l: Level<Model<KF>>,
    m: Map<Model<KF>, V>,
    i: int,
    keys: Seq<Model<KF>>,
    pos: int,
    lo: Option<Model<KF>>,
    lo_inc: bool,
) -> bool {
    &&& 0 <= i < l.len()
    &&& 0 <= pos <= keys.len()
    &&& forall|k: Model<KF>| #[trigger]
        m.contains_key(k) ==> lo_ok(kf, k, lo, lo_inc) == ahead(kf, l, i, keys, pos, k)
}

/// The walk went through leaves `..=i`.
pub open spec fn walked<K>(l: Level<K>, visited: Set<u64>, i: int) -> bool {
    forall|x: u64| #[trigger]
        visited.contains(x) ==> exists|y: int| #![trigger l[y]] 0 <= y <= i && l[y].0 == x
}

/// All keys in the nodes of a store.
pub open spec fn key_pool<K, V>(nodes: Map<u64, NodeM<K, V>>) -> Set<K> {
    Set::new(|k: K| exists|r: u64| #[trigger] nodes.contains_key(r) && nodes[r].keys.contains(k))
}

pub proof fn lemma_key_pool_finite<K, V>(nodes: Map<u64, NodeM<K, V>>)
    requires
        nodes.dom().finite(),
    ensures
        key_pool(nodes).finite(),
    decreases nodes.dom().len(),
{
    if nodes.dom().len() == 0 {
        assert(nodes.dom() =~= Set::empty());
        assert(key_pool(nodes) =~= Set::empty());
    } else {
        let r = nodes.dom().choose();
        let rest = nodes.remove(r);
        lemma_key_pool_finite(rest);
        let ks = nodes[r].keys.to_set();
        vstd::seq_lib::seq_to_set_is_finite(nodes[r].keys);
        assert(key_pool(nodes) =~= key_pool(rest).union(ks)) by {
            assert forall|k: K| key_pool(nodes).contains(k)
                implies key_pool(rest).union(ks).contains(
                k,
            ) by {
                let x = choose|x: u64| #[trigger]
                    nodes.contains_key(x) && nodes[x].keys.contains(k);
                if x != r {
                    assert(rest.contains_key(x));
                }
            }
            assert forall|k: K| key_pool(rest).union(ks).contains(k) implies key_pool(
                nodes,
            ).contains(k) by {
                if ks.contains(k) {
                    assert(nodes.contains_key(r));
                } else {
                    let x = choose|x: u64| #[trigger]
                        rest.contains_key(x) && rest[x].keys.contains(k);
                    assert(nodes.contains_key(x));
                }
            }
        }
    }
}

/// How many keys of a store lie above a low bound.
pub open spec fn keys_above<KF: KeyFormat, V>(
    kf: &KF,
    nodes: Map<u64, NodeM<Model<KF>, V>>,
    lo: Option<Model<KF>>,
    lo_inc: bool,
) -> nat {
    key_pool(nodes).filter(|k: Model<KF>| lo_ok(kf, k, lo, lo_inc)).len()
}

/// Past one of its keys there are fewer.
pub proof fn lemma_keys_above<KF: KeyFormat, V>(
    kf: &KF,
    nodes: Map<u64, NodeM<Model<KF>, V>>,
    lo: Option<Model<KF>>,
    lo_inc: bool,
    k: Model<KF>,
)
    requires
        nodes.dom().finite(),
        key_pool(nodes).contains(k),
        lo_ok(kf, k, lo, lo_inc),
    ensures
        keys_above(kf, nodes, Some(k), false) < keys_above(kf, nodes, lo, lo_inc),
{
    broadcast use group_key_order;

    lemma_key_pool_finite(nodes);
    let a = key_pool(nodes).filter(|x: Model<KF>| lo_ok(kf, x, lo, lo_inc));
    let b = key_pool(nodes).filter(|x: Model<KF>| lo_ok(kf, x, Some(k), false));
    assert(a.contains(k) && !b.contains(k));
    assert(b.subset_of(a.remove(k)));
    vstd::set_lib::lemma_len_subset(b, a.remove(k));
}

impl<KF: KeyFormat, VF: Serializer> BTreeMap<KF, VF> {
    /// The nodes of a store are finitely many.
    pub(super) proof fn lemma_nodes_finite<S: Store>(&self, store: &S)
        ensures
            self.nodes(store.state().records).dom().finite(),
    {
        store.records_finite();
        let d = self.nodes(store.state().records).dom();
        assert(d.subset_of(store.state().records.dom()));
        vstd::set_lib::lemma_set_subset_finite(store.state().records.dom(), d);
    }

    /// A key of the map that belongs to a leaf stands in it.
    pub(super) proof fn lemma_in_leaf(&self, records: Records, i: int, k: Model<KF>)
        requires
            self.wf(records),
            covers(&self.key_format, self.tree@.levels[0], i, k),
            self.contents(records).contains_key(k),
        ensures
            ({
                let n = self.nodes(records)[self.tree@.levels[0][i].0];
                exists|p: int| 0 <= p < n.keys.len() && #[trigger] n.keys[p] == k
            }),
    {
        let t = self.tree@;
        assert(level_ok(
            &self.key_format,
            self.value_inline,
            self.nodes(records),
            t.levels[0],
            false,
        ));
        lemma_lookup(
            &self.key_format,
            &self.value_format,
            self.value_inline,
            records,
            self.nodes(records),
            t.levels[0],
            i,
            k,
        );
    }

    /// What stands at a place of a leaf is in the map.
    pub(super) proof fn lemma_at_place(&self, records: Records, i: int, p: int)
        requires
            self.wf(records),
            0 <= i < self.tree@.levels[0].len(),
            0 <= p < self.nodes(records)[self.tree@.levels[0][i].0].keys.len(),
        ensures
            ({
                let n = self.nodes(records)[self.tree@.levels[0][i].0];
                let m = self.contents(records);
                &&& m.contains_key(n.keys[p])
                &&& m[n.keys[p]] == leaf_value(&self.value_format, records, n, p)
                &&& covers(&self.key_format, self.tree@.levels[0], i, n.keys[p])
            }),
    {
        let t = self.tree@;
        let nodes = self.nodes(records);
        assert(level_ok(&self.key_format, self.value_inline, nodes, t.levels[0], false));
        lemma_leaf_key_covers(&self.key_format, self.value_inline, nodes, t.levels[0], i, p);
        lemma_lookup(
            &self.key_format,
            &self.value_format,
            self.value_inline,
            records,
            nodes,
            t.levels[0],
            i,
            nodes[t.levels[0][i].0].keys[p],
        );
    }

    /// A scan starts at the place that a search in the first leaf gives.
    pub(super) proof fn lemma_scan_start(
        &self,
        records: Records,
        i: int,
        pos: int,
        lo: Option<Model<KF>>,
        lo_inc: bool,
    )
        requires
            self.wf(records),
            starts_at(&self.key_format, self.tree@.levels[0], i, lo),
            ({
                let n = self.nodes(records)[self.tree@.levels[0][i].0];
                match lo {
                    None => pos == 0,
                    Some(k) => {
                        ||| 0 <= pos < n.keys.len() && n.keys[pos] == k && lo_inc
                        ||| 0 < pos <= n.keys.len() && n.keys[pos - 1] == k && !lo_inc
                        ||| splits_at(&self.key_format, n.keys, k, pos)
                    },
                }
            }),
        ensures
            scan_at(
                &self.key_format,
                self.tree@.levels[0],
                self.contents(records),
                i,
                self.nodes(records)[self.tree@.levels[0][i].0].keys,
                pos,
                lo,
                lo_inc,
            ),
    {
        broadcast use group_key_order;

        let t = self.tree@;
        let l = t.levels[0];
        let nodes = self.nodes(records);
        let n = nodes[l[i].0];
        let kf = &self.key_format;
        let m = self.contents(records);
        assert(level_ok(kf, self.value_inline, nodes, t.levels[0], false));
        assert(level_node(kf, self.value_inline, nodes, l, i, false));
        assert forall|k: Model<KF>| #[trigger] m.contains_key(k) implies lo_ok(kf, k, lo, lo_inc)
            == ahead(kf, l, i, n.keys, pos, k) by {
            if let Some(b) = lo {
                if lo_ok(kf, k, lo, lo_inc) {
                    if pos > 0 {
                        let x = n.keys[pos - 1];
                        if 0 <= pos < n.keys.len() && n.keys[pos] == b && lo_inc {
                            assert(kf.lt(n.keys[pos - 1], n.keys[pos]));
                        }
                    }
                }
                if ahead(kf, l, i, n.keys, pos, k) && !lo_ok(kf, k, lo, lo_inc) {
                    // then k lies in the leaf, before its place
                    assert(covers(kf, l, i, k));
                    self.lemma_in_leaf(records, i, k);
                    let p = choose|p: int| 0 <= p < n.keys.len() && #[trigger] n.keys[p] == k;
                    if pos > 0 && p <= pos - 1 {
                        if p < pos - 1 {
                            assert(kf.lt(n.keys[p], n.keys[pos - 1]));
                        }
                    }
                    if pos < n.keys.len() && p >= pos {
                        let y = n.keys[pos];
                        if p > pos {
                            assert(kf.lt(n.keys[pos], n.keys[p]));
                        }
                    }
                }
            }
        }
    }

    /// Past the end of a leaf a scan goes on at the start of the next.
    pub(super) proof fn lemma_scan_next(
        &self,
        records: Records,
        i: int,
        lo: Option<Model<KF>>,
        lo_inc: bool,
    )
        requires
            self.wf(records),
            ({
                let n = self.nodes(records)[self.tree@.levels[0][i].0];
                scan_at(
                    &self.key_format,
                    self.tree@.levels[0],
                    self.contents(records),
                    i,
                    n.keys,
                    n.keys.len() as int,
                    lo,
                    lo_inc,
                )
            }),
        ensures
            ({
                let l = self.tree@.levels[0];
                let n = self.nodes(records)[l[i].0];
                let m = self.contents(records);
                &&& n.link == 0 <==> i == l.len() - 1
                &&& i < l.len() - 1 ==> {
                    &&& l[i + 1].0 == n.link
                    &&& self.nodes(records).contains_key(n.link)
                    &&& scan_at(
                        &self.key_format,
                        l,
                        m,
                        i + 1,
                        self.nodes(records)[n.link].keys,
                        0,
                        lo,
                        lo_inc,
                    )
                    &&& forall|y: int| 0 <= y <= i ==> (#[trigger] l[y]).0 != n.link
                }
                &&& i == l.len() - 1 ==> forall|k: Model<KF>| #[trigger]
                    m.contains_key(k) ==> !lo_ok(&self.key_format, k, lo, lo_inc)
            }),
    {
        broadcast use group_key_order;

        let t = self.tree@;
        let l = t.levels[0];
        let nodes = self.nodes(records);
        let n = nodes[l[i].0];
        let kf = &self.key_format;
        let m = self.contents(records);
        assert(level_ok(kf, self.value_inline, nodes, t.levels[0], false));
        assert(level_node(kf, self.value_inline, nodes, l, i, false));
        if i < l.len() - 1 {
            assert(level_node(kf, self.value_inline, nodes, l, i + 1, false));
            assert forall|y: int| 0 <= y <= i implies (#[trigger] l[y]).0 != n.link by {
                if l[y].0 == l[i + 1].0 {
                    lemma_level_distinct(kf, self.value_inline, nodes, l, false, y, i + 1);
                }
            }
        }
        assert forall|k: Model<KF>| #[trigger] m.contains_key(k) && ahead(
            kf,
            l,
            i,
            n.keys,
            n.keys.len() as int,
            k,
        ) implies l[i].1 is Some && kf.lt(l[i].1.unwrap(), k) by {
            if within(kf, k, l[i].1) {
                assert(covers(kf, l, i, k));
                self.lemma_in_leaf(records, i, k);
                let p = choose|p: int| 0 <= p < n.keys.len() && #[trigger] n.keys[p] == k;
                if p < n.keys.len() - 1 {
                    assert(kf.lt(n.keys[p], n.keys[n.keys.len() - 1]));
                }
            }
        }
        if i < l.len() - 1 {
            assert forall|k: Model<KF>| #[trigger] m.contains_key(k)
                implies lo_ok(kf, k, lo, lo_inc)
                == ahead(kf, l, i + 1, nodes[n.link].keys, 0, k) by {
                let h = l[i].1.unwrap();
                if kf.lt(h, k) {
                    // beyond this leaf
                    if n.keys.len() > 0 {
                        let last = n.keys[n.keys.len() - 1];
                        assert(within(kf, last, l[i].1));
                    }
                    if i > 0 {
                        assert(kf.lt(l[i - 1].1.unwrap(), h));
                    }
                    assert(ahead(kf, l, i, n.keys, n.keys.len() as int, k));
                }
            }
        }
    }

    /// The key at the place of a scan is the least of those ahead, and past it the
    /// scan is at the next place.
    pub(super) proof fn lemma_scan_place(
        &self,
        records: Records,
        i: int,
        pos: int,
        lo: Option<Model<KF>>,
        lo_inc: bool,
    )
        requires
            self.wf(records),
            0 <= pos < self.nodes(records)[self.tree@.levels[0][i].0].keys.len(),
            scan_at(
                &self.key_format,
                self.tree@.levels[0],
                self.contents(records),
                i,
                self.nodes(records)[self.tree@.levels[0][i].0].keys,
                pos,
                lo,
                lo_inc,
            ),
        ensures
            ({
                let l = self.tree@.levels[0];
                let n = self.nodes(records)[l[i].0];
                let m = self.contents(records);
                let k = n.keys[pos];
                &&& m.contains_key(k)
                &&& m[k] == leaf_value(&self.value_format, records, n, pos)
                &&& lo_ok(&self.key_format, k, lo, lo_inc)
                &&& forall|x: Model<KF>| #[trigger]
                    m.contains_key(x) && lo_ok(&self.key_format, x, lo, lo_inc)
                        ==> !self.key_format.lt(
                        x,
                        k,
                    )
                &&& scan_at(&self.key_format, l, m, i, n.keys, pos + 1, Some(k), false)
            }),
    {
        broadcast use group_key_order;

        let t = self.tree@;
        let l = t.levels[0];
        let nodes = self.nodes(records);
        let n = nodes[l[i].0];
        let kf = &self.key_format;
        let m = self.contents(records);
        let k = n.keys[pos];
        assert(level_ok(kf, self.value_inline, nodes, t.levels[0], false));
        assert(level_node(kf, self.value_inline, nodes, l, i, false));
        self.lemma_at_place(records, i, pos);
        assert(ahead(kf, l, i, n.keys, pos, k)) by {
            if pos > 0 {
                assert(kf.lt(n.keys[pos - 1], n.keys[pos]));
            }
        }
        assert forall|x: Model<KF>| #[trigger] m.contains_key(x) && lo_ok(kf, x, lo, lo_inc)
            implies !kf.lt(
            x,
            k,
        ) by {
            if kf.lt(x, k) {
                assert(covers(kf, l, i, x)) by {
                    assert(within(kf, k, l[i].1));
                }
                self.lemma_in_leaf(records, i, x);
                let p = choose|p: int| 0 <= p < n.keys.len() && #[trigger] n.keys[p] == x;
                if p > pos {
                    assert(kf.lt(n.keys[pos], n.keys[p]));
                } else if p < pos - 1 {
                    assert(kf.lt(n.keys[p], n.keys[pos - 1]));
                }
            }
        }
        assert forall|x: Model<KF>| #[trigger] m.contains_key(x)
            implies lo_ok(kf, x, Some(k), false)
            == ahead(kf, l, i, n.keys, pos + 1, x) by {
            if kf.lt(k, x) && i > 0 {
                assert(above(kf, low(l, i), k));
            }
        }
    }

    /// The value at the place of a scan can be read.
    pub(super) proof fn lemma_place_value(&self, records: Records, i: int, pos: int)
        requires
            self.wf(records),
            0 <= i < self.tree@.levels[0].len(),
            0 <= pos < self.nodes(records)[self.tree@.levels[0][i].0].keys.len(),
        ensures
            ({
                let n = self.nodes(records)[self.tree@.levels[0][i].0];
                &&& node_ok(&self.key_format, self.value_inline, n)
                &&& self.value_inline ==> n.body is Leaf
                &&& !self.value_inline ==> n.body is ExternalLeaf && n.body->recids[pos] != 0
                    && item_at(&self.value_format, records, n.body->recids[pos] as u64) == Some(
                    Some(leaf_value(&self.value_format, records, n, pos)),
                )
            }),
    {
        lemma_leaf_facts(
            &self.key_format,
            &self.value_format,
            self.value_inline,
            records,
            self.root_recid_recid,
            self.counter_recid,
            self.tree@,
            i,
        );
        if !self.value_inline {
            lemma_value_record(
                &self.key_format,
                &self.value_format,
                self.value_inline,
                records,
                self.root_recid_recid,
                self.counter_recid,
                self.tree@,
                i,
                pos,
            );
        }
    }

    /// The leaf in which a scan from `lo` starts, and the place in it.
    pub(super) fn scan_start<S: Store>(
        &self,
        store: &S,
        lo: Option<&KF::Item>,
        lo_inc: bool,
    ) -> (r: Result<(Node<KF, VF>, usize, Ghost<int>)>)
        ensures
            blames(store.state(), r),
            self.refuses(store.state(), r),
            r matches Ok((n, pos, i)) ==> {
                &&& node_ok(&self.key_format, self.value_inline, n@)
                &&& key_pool(self.nodes(store.state().records)).union(n@.keys.to_set()) == key_pool(
                    self.nodes(store.state().records),
                )
                &&& pos <= n@.keys.len()
            },
            self.wf(store.state().records) ==> served(store.state(), r)
                && (r matches Ok((n, pos, i))
                    ==> n@ == self.nodes(store.state().records)[self.tree@.levels[0][i@].0]
                        && starts_at(
                &self.key_format,
                self.tree@.levels[0],
                i@,
                opt_ref_model(lo),
            ) && scan_at(
                &self.key_format,
                self.tree@.levels[0],
                self.contents(store.state().records),
                i@,
                n@.keys,
                pos as int,
                opt_ref_model(lo),
                lo_inc,
            )),
            self.poisoned ==> r is Err,
    {
        let mut stack: Vec<u64> = Vec::new();
        let (n, id, path) = match self.descend(store, lo, &mut stack) {
            Ok(x) => x,
            Err(e) => {
                return Err(e);
            },
        };
        let pos: usize = match lo {
            None => 0,
            Some(k) => match search(&self.key_format, &n.keys, k) {
                Ok(p) => if lo_inc {
                    p
                } else {
                    p + 1
                },
                Err(ins) => ins,
            },
        };
        proof {
            let records = store.state().records;
            let nodes = self.nodes(records);
            self.lemma_loaded_keys(store, id, n@);
            if self.wf(records) {
                let i = path@[0];
                assert(starts_at(
                    &self.key_format,
                    self.tree@.levels[0],
                    path@[0],
                    opt_ref_model(lo),
                ));
                self.lemma_scan_start(records, i, pos as int, opt_ref_model(lo), lo_inc);
            }
        }
        Ok((n, pos, Ghost(path@[0])))
    }

    /// The keys of a node of the store are keys of the store.
    pub(super) proof fn lemma_loaded_keys<S: Store>(
        &self,
        store: &S,
        id: u64,
        n: NodeM<Model<KF>, Model<VF>>,
    )
        requires
            self.nodes(store.state().records).contains_key(id),
            n == self.nodes(store.state().records)[id],
        ensures
            key_pool(self.nodes(store.state().records)).union(n.keys.to_set()) == key_pool(
                self.nodes(store.state().records),
            ),
    {
        let nodes = self.nodes(store.state().records);
        assert(key_pool(nodes).union(n.keys.to_set()) =~= key_pool(nodes)) by {
            assert forall|k: Model<KF>| n.keys.to_set().contains(k)
                implies key_pool(nodes).contains(
                k,
            ) by {
                assert(nodes.contains_key(id) && nodes[id].keys.contains(k));
            }
        }
    }

    /// The first entry of a range, read afresh from the root.
    pub(super) fn first_external_entry<S: Store>(
        &self,
        store: &S,
        lo: Option<&KF::Item>,
        lo_inc: bool,
        hi: Option<&KF::Item>,
        hi_inc: bool,
    ) -> (r: Result<Option<(KF::Item, VF::Item)>>)
        ensures
            blames(store.state(), r),
            self.refuses(store.state(), r),
            r matches Ok(Some((k, v))) ==> lo_ok(
                &self.key_format,
                k@,
                opt_ref_model(lo),
                lo_inc,
            ) && key_pool(self.nodes(store.state().records)).contains(k@),
            self.wf(store.state().records) ==> {
                let m = ranged(
                    &self.key_format,
                    self.contents(store.state().records),
                    opt_ref_model(lo),
                    lo_inc,
                    opt_ref_model(hi),
                    hi_inc,
                );
                &&& served(store.state(), r)
                &&& r matches Ok(None) ==> m =~= Map::empty()
                &&& r matches Ok(Some((k, v))) ==> is_least(&self.key_format, m, k@) && m[k@] == v@
            },
    {
        let ghost records = store.state().records;
        let ghost nodes = self.nodes(records);
        let ghost l = self.tree@.levels[0];
        let ghost good = self.wf(records);
        let ghost lom = opt_ref_model(lo);
        let (n, p, start) = match self.scan_start(store, lo, lo_inc) {
            Ok(x) => x,
            Err(e) => {
                return Err(e);
            },
        };
        let mut leaf = n;
        let mut pos: usize = p;
        let ghost mut i: int = start@;
        let mut cyc = CycleGuard::new(CYCLE_SCAN_SOFT);
        proof {
            lemma_every_recid();
        }
        loop
            invariant
                records == store.state().records,
                nodes == self.nodes(records),
                l == self.tree@.levels[0],
                lom == opt_ref_model(lo),
                good == self.wf(records),
                cyc.ok(),
                every_recid().finite(),
                forall|s: Set<u64>| #[trigger] s.subset_of(every_recid()),
                node_ok(&self.key_format, self.value_inline, leaf@),
                key_pool(nodes).union(leaf@.keys.to_set()) == key_pool(nodes),
                !store.state().closed,
                !self.poisoned,
                good ==> {
                    &&& leaf@ == nodes[l[i].0]
                    &&& scan_at(
                        &self.key_format,
                        l,
                        self.contents(records),
                        i,
                        leaf@.keys,
                        pos as int,
                        lom,
                        lo_inc,
                    )
                    &&& walked(l, cyc.visited(), i)
                },
            decreases
                cyc.fuel(every_recid()),
                if leaf@.keys.len() > pos {
                    leaf@.keys.len() - pos
                } else {
                    0
                },
        {
            if pos >= leaf.keys.len() {
                let link: u64 = leaf.link;
                proof {
                    if good {
                        self.lemma_scan_next(records, i, lom, lo_inc);
                    }
                }
                if link == 0 {
                    return Ok(None);
                }
                let ghost before = cyc;
                proof {
                    if good && cyc.visited().contains(link) {
                        let y = choose|y: int| #![trigger l[y]] 0 <= y <= i && l[y].0 == link;
                        assert(l[y].0 != link);
                    }
                }
                match cyc.visit(link) {
                    Ok(_) => {},
                    Err(e) => {
                        return Err(e);
                    },
                }
                leaf = match self.load(store, link) {
                    Ok(m) => m,
                    Err(e) => {
                        return Err(e);
                    },
                };
                pos = 0;
                proof {
                    self.lemma_loaded_keys(store, link, leaf@);
                    if good {
                        lemma_walked(l, before.visited(), i, link);
                        i = i + 1;
                    }
                }
                continue;
            }
            let ghost km = leaf@.keys[pos as int];
            assert(km == leaf.keys@[pos as int]@);
            proof {
                if good {
                    self.lemma_scan_place(records, i, pos as int, lom, lo_inc);
                    self.lemma_place_value(records, i, pos as int);
                }
            }
            let k = &leaf.keys[pos];
            if below_lo(&self.key_format, k, lo, lo_inc) {
                pos = pos + 1;
                continue;
            }
            if above_hi(&self.key_format, k, hi, hi_inc) {
                proof {
                    if good {
                        broadcast use group_key_order;

                        let m = ranged(
                            &self.key_format,
                            self.contents(records),
                            lom,
                            lo_inc,
                            opt_ref_model(hi),
                            hi_inc,
                        );
                        assert forall|x: Model<KF>| !m.contains_key(x) by {
                            if m.contains_key(x) {
                                assert(self.contents(records).contains_key(x));
                                assert(!self.key_format.lt(x, km));
                            }
                        }
                        assert(m =~= Map::empty());
                    }
                }
                return Ok(None);
            }
            let key = self.key_format.dup(k);
            proof {
                assert(leaf@.keys.to_set().contains(km));
                assert(key_pool(nodes).union(leaf@.keys.to_set()).contains(km));
            }
            return match self.leaf_value_at(store, &leaf.body, pos) {
                Ok(v) => Ok(Some((key, v))),
                Err(e) => Err(e),
            };
        }
    }
}

/// One step further along the leaves.
pub proof fn lemma_walked<K>(l: Level<K>, visited: Set<u64>, i: int, next: u64)
    requires
        walked(l, visited, i),
        0 <= i < l.len() - 1,
        l[i + 1].0 == next,
    ensures
        walked(l, visited.insert(next), i + 1),
{
    assert forall|x: u64| #[trigger] visited.insert(next).contains(x) implies exists|y: int|
        #![trigger l[y]]
        0 <= y <= i + 1 && l[y].0 == x by {
        if x == next {
            assert(l[i + 1].0 == x);
        } else {
            assert(visited.contains(x));
            let y = choose|y: int| #![trigger l[y]] 0 <= y <= i && l[y].0 == x;
            assert(l[y].0 == x);
        }
    }
}

} // verus!
