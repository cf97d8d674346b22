//! A sorted map kept as a B-link tree in a record store.
//!
//! The map works on any store: where the store holds a well-formed tree every
//! operation does exactly what it promises, and where it does not the operation
//! reports corruption or answers from what it found, but it always ends.

pub mod bulk;
pub mod column;
pub mod descend;
pub mod get;
pub mod open;
pub mod iter;
pub mod laws;
pub mod scan;
pub mod split;
pub mod walk;
pub mod write;

use vstd::prelude::*;
use std::collections::HashSet;
use crate::error::{DbError, Result};
use crate::io::{rest, DataInput2, SliceInput};
use crate::ser::{
    group_key_order, search, splits_at, GroupFormat, KeyFormat, Model, Serializer, LONG,
};
use crate::store::{blames, get_item, item_at, served, Records, Store, StoreState};
use crate::btree::contents::{root_of, sized, slack, tree_map, tree_ok};
use crate::btree::node::{lemma_dec_node_ok, node_fits, node_ok, Node, NodeSerializer};
use crate::btree::tree::{
    above, covers, lemma_child_low, lemma_covers_unique, lemma_descend, lemma_level_distinct,
    level_node, level_ok, levels_kept, low, low_le, node_at, nodes_of, parent_node, parent_ok,
    within, Level, Nodes, Owner, Tree,
};

verus! {

/// Smallest accepted node size.
pub const MIN_MAX_NODE_SIZE: usize = 4;

/// Largest accepted node size.
pub const MAX_MAX_NODE_SIZE: usize = 1048576;

const CYCLE_DESCENT_SOFT: u64 = 4096;

const CYCLE_SCAN_SOFT: u64 = 65536;

// ---------------------------------------------------------------- cycle guard

/// Detects a walk that comes back to a node. The first `soft` steps are free; after
/// them every recid is remembered.
pub struct CycleGuard {
    steps: u64,
    soft: u64,
    seen: HashSet<u64>,
    visited: Ghost<Set<u64>>,
}

impl CycleGuard {
    /// All recids visited so far.
    pub closed spec fn visited(&self) -> Set<u64> {
        self.visited@
    }

    pub closed spec fn ok(&self) -> bool {
        &&& self.steps <= self.soft
        &&& self.seen@.subset_of(self.visited@)
        &&& self.seen@.finite()
    }

    /// How many more steps can be taken among the recids `d`.
    pub closed spec fn fuel(&self, d: Set<u64>) -> nat {
        ((self.soft - self.steps) + (d.len() - self.seen@.len())) as nat
    }

    pub fn new(soft: u64) -> (r: Self)
        ensures
            r.ok(),
            r.visited() == Set::<u64>::empty(),
    {
        broadcast use vstd::std_specs::hash::group_hash_axioms;

        CycleGuard { steps: 0, soft, seen: HashSet::new(), visited: Ghost(Set::empty()) }
    }

    /// Takes a step to `recid`; fails when the walk was there before.
    pub fn visit(&mut self, recid: u64) -> (r: Result<()>)
        requires
            old(self).ok(),
        ensures
            final(self).ok(),
            !old(self).visited().contains(recid) ==> r is Ok,
            r is Ok ==> final(self).visited() == old(self).visited().insert(recid),
            r matches Err(e) ==> crate::error::is_corrupt(e, "cycle in btree recid graph"@),
            r is Ok ==> forall|d: Set<u64>|
                #![trigger final(self).fuel(d)]
                d.finite() && old(self).visited().subset_of(d) && d.contains(recid)
                    ==> final(self).fuel(d) < old(self).fuel(d),
    {
        broadcast use vstd::std_specs::hash::group_hash_axioms;

        if self.steps < self.soft {
            self.steps = self.steps + 1;
            proof {
                self.visited@ = self.visited@.insert(recid);
                assert forall|d: Set<u64>|
                    #![trigger self.fuel(d)]
                    d.finite() && old(self).visited().subset_of(d) && d.contains(recid)
                        implies self.fuel(
                    d,
                ) < old(self).fuel(d) by {
                    vstd::set_lib::lemma_len_subset(self.seen@, d);
                }
            }
            return Ok(());
        }
        let fresh = self.seen.insert(recid);
        if !fresh {
            return Err(DbError::corrupt("cycle in btree recid graph"));
        }
        proof {
            self.visited@ = self.visited@.insert(recid);
            assert forall|d: Set<u64>|
                #![trigger self.fuel(d)]
                d.finite() && old(self).visited().subset_of(d) && d.contains(recid)
                    implies self.fuel(d)
                < old(self).fuel(d) by {
                vstd::set_lib::lemma_len_subset(self.seen@, d);
            }
        }
        Ok(())
    }
}

/// All recids.
pub open spec fn every_recid() -> Set<u64> {
    Set::new(|x: u64| true)
}

pub proof fn lemma_every_recid()
    ensures
        every_recid().finite(),
        forall|s: Set<u64>| #[trigger] s.subset_of(every_recid()),
{
    crate::store::lemma_u64_range_finite(u64::MAX as nat);
    assert(every_recid() =~= Set::new(|x: u64| x <= u64::MAX as nat));
}

/// The position that a search found or would insert at.
fn search_idx(r: std::result::Result<usize, usize>) -> (p: usize)
    ensures
        p == match r {
            Ok(p) => p,
            Err(p) => p,
        },
{
    match r {
        Ok(p) => p,
        Err(p) => p,
    }
}

/// What a map holds for a key.
pub open spec fn lookup<K, V>(m: Map<K, V>, k: K) -> Option<V> {
    if m.contains_key(k) {
        Some(m[k])
    } else {
        None
    }
}

/// `c` is where `k` stands among the keys, or where it would be inserted.
pub open spec fn position<KF: KeyFormat>(
    kf: &KF,
    keys: Seq<Model<KF>>,
    k: Model<KF>,
    c: int,
) -> bool {
    (0 <= c < keys.len() && keys[c] == k) || splits_at(kf, keys, k, c)
}

/// A sorted map.
pub struct BTreeMap<KF: KeyFormat, VF: Serializer> {
    key_format: KF,
    value_format: VF,
    max_node_size: usize,
    root_recid_recid: u64,
    value_inline: bool,
    counter_recid: u64,
    root_cacheable: bool,
    left_edges: Vec<u64>,
    cached_root: u64,
    poisoned: bool,
    last_struct_gen: u64,
    tree: Ghost<Tree<Model<KF>>>,
}

/// The first node of each level.
pub open spec fn left_edges_of<K>(t: Tree<K>) -> Seq<u64> {
    Seq::new(t.levels.len(), |l: int| t.levels[l][0].0)
}

/// Node `i` of the level is where a scan from `lo` starts: the first one without a
/// bound, else the one where `lo` belongs.
pub open spec fn starts_at<KF: KeyFormat>(
    kf: &KF,
    l: Level<Model<KF>>,
    i: int,
    lo: Option<Model<KF>>,
) -> bool {
    match lo {
        Some(k) => covers(kf, l, i, k),
        None => i == 0 && l.len() > 0,
    }
}

/// The start of a scan on every level from `from` up.
pub open spec fn path_from<KF: KeyFormat>(
    kf: &KF,
    t: Tree<Model<KF>>,
    path: Seq<int>,
    lo: Option<Model<KF>>,
    from: int,
) -> bool {
    &&& path.len() == t.levels.len()
    &&& forall|l: int|
        #![trigger path[l]]
        from <= l < path.len() ==> starts_at(kf, t.levels[l], path[l], lo)
    &&& forall|l: int| from <= l < path.len() - 1 ==> #[trigger] nested_at(kf, t, path, l)
}

/// The node on the level above starts no higher.
pub open spec fn nested_at<KF: KeyFormat>(
    kf: &KF,
    t: Tree<Model<KF>>,
    path: Seq<int>,
    l: int,
) -> bool {
    low_le(kf, low(t.levels[l + 1], path[l + 1]), low(t.levels[l], path[l]))
}

proof fn lemma_path_extend<KF: KeyFormat>(
    kf: &KF,
    t: Tree<Model<KF>>,
    path: Seq<int>,
    lo: Option<Model<KF>>,
    from: int,
    at: int,
)
    requires
        path_from(kf, t, path, lo, from),
        0 < from < t.levels.len(),
        starts_at(kf, t.levels[from - 1], at, lo),
        low_le(kf, low(t.levels[from], path[from]), low(t.levels[from - 1], at)),
    ensures
        path_from(kf, t, path.update(from - 1, at), lo, from - 1),
{
    let path2 = path.update(from - 1, at);
    assert forall|l: int| #![trigger path2[l]] from - 1 <= l < path2.len() implies starts_at(
        kf,
        t.levels[l],
        path2[l],
        lo,
    ) by {
        if l >= from {
            assert(path2[l] == path[l]);
        }
    }
    assert forall|l: int| from - 1 <= l < path2.len() - 1 implies #[trigger] nested_at(
        kf,
        t,
        path2,
        l,
    ) by {
        assert(path2[l + 1] == path[l + 1]);
        if l >= from {
            assert(path2[l] == path[l]);
            assert(nested_at(kf, t, path, l));
        }
    }
}

/// The recids of the directories on a path, from the root down.
pub open spec fn path_stack<K>(t: Tree<K>, path: Seq<int>) -> Seq<u64> {
    Seq::new(
        (t.levels.len() - 1) as nat,
        |x: int| t.levels[t.levels.len() - 1 - x][path[t.levels.len() - 1 - x]].0,
    )
}

impl<KF: KeyFormat, VF: Serializer> BTreeMap<KF, VF> {
    pub closed spec fn kf(&self) -> KF {
        self.key_format
    }

    /// The recid of the size counter; zero where there is none.
    pub closed spec fn counter(&self) -> u64 {
        self.counter_recid
    }

    /// Values stand in the leaves.
    pub closed spec fn inline(&self) -> bool {
        self.value_inline
    }

    pub closed spec fn vf(&self) -> VF {
        self.value_format
    }

    spec fn nodes(&self, records: Records) -> Nodes<KF, VF> {
        nodes_of(&self.key_format, &self.value_format, self.value_inline, records)
    }

    /// The records hold the tree of this map.
    pub closed spec fn wf(&self, records: Records) -> bool {
        &&& tree_ok(
            &self.key_format,
            &self.value_format,
            self.value_inline,
            records,
            self.root_recid_recid,
            self.counter_recid,
            self.tree@,
        )
        &&& self.left_edges@ == left_edges_of(self.tree@)
        &&& self.cached_root == 0 || self.cached_root == root_of(self.tree@)
        &&& !self.poisoned
        &&& 4 <= self.max_node_size <= 1048576
        &&& slack(self.nodes(records), self.tree@.levels[0])
    }

    /// The entries of the map.
    pub closed spec fn contents(&self, records: Records) -> Map<Model<KF>, Model<VF>> {
        tree_map(&self.key_format, &self.value_format, self.value_inline, records, self.tree@)
    }

    /// The recids of the records that belong to the map.
    pub closed spec fn owned(&self) -> Set<u64> {
        self.tree@.owner.dom()
    }

    /// The fixed parameters of the map.
    pub closed spec fn same_config(&self, other: &Self) -> bool {
        &&& self.key_format == other.key_format
        &&& self.value_format == other.value_format
        &&& self.max_node_size == other.max_node_size
        &&& self.root_recid_recid == other.root_recid_recid
        &&& self.value_inline == other.value_inline
        &&& self.counter_recid == other.counter_recid
        &&& self.root_cacheable == other.root_cacheable
    }

    /// The nodes of another state of the map are still its nodes, on the same level, and each
    /// still starts where it did.
    pub closed spec fn keeps_nodes(&self, other: &Self) -> bool {
        levels_kept(other.tree@.levels, self.tree@.levels)
    }

    /// No node of the map has more keys than the size that nodes are split at.
    pub closed spec fn nodes_within(&self, records: Records) -> bool {
        sized(self.nodes(records), self.tree@.levels, self.max_node_size as nat)
    }

    /// The map as one that has no size counter.
    pub closed spec fn uncounted(&self) -> Self {
        BTreeMap { counter_recid: 0, ..*self }
    }

    /// The number of levels of the tree.
    pub closed spec fn height(&self) -> nat {
        self.tree@.levels.len()
    }

    /// A structural update failed half-way: the handle refuses every further use.
    pub closed spec fn spoiled(&self) -> bool {
        self.poisoned
    }

    /// A spoiled handle answers with corruption; over a closed store any other answers
    /// that it is closed.
    pub open spec fn refuses<T>(&self, st: StoreState, r: Result<T>) -> bool {
        &&& self.spoiled() ==> (r matches Err(e) && e is DataCorruption)
        &&& !self.spoiled() && st.closed ==> r == Err::<T, DbError>(DbError::StoreClosed)
    }

    // ------------------------------------------------------------ reading nodes

    fn load_root_recid<S: Store>(&self, store: &S) -> (r: Result<u64>)
        ensures
            blames(store.state(), r),
            store.state().closed ==> r == Err::<u64, DbError>(DbError::StoreClosed),
            self.wf(store.state().records) ==> served(store.state(), r) && (
            r matches Ok(x) ==> x == (root_of(self.tree@))),
            store.state().readable && (item_at(
                &LONG,
                store.state().records,
                self.root_recid_recid,
            ) matches Some(Some(x)) && x > 0) ==> r is Ok,
            r matches Ok(x) ==> 0 < x <= i64::MAX && item_at(
                &LONG,
                store.state().records,
                self.root_recid_recid,
            ) == Some(Some(x as i64)),
    {
        match get_item(store, self.root_recid_recid, &LONG) {
            Ok(Some(r)) => {
                proof {
                    if self.wf(store.state().records) {
                        self.lemma_root(store.state().records);
                    }
                }
                if r <= 0 {
                    Err(DbError::corrupt("btree root pointer is not a valid recid"))
                } else {
                    Ok(r as u64)
                }
            },
            Ok(None) => Err(DbError::corrupt("btree root pointer is null")),
            Err(e) => Err(e),
        }
    }

    proof fn lemma_root(&self, records: Records)
        requires
            self.wf(records),
        ensures
            0 < root_of(self.tree@) <= i64::MAX,
            self.nodes(records).contains_key(root_of(self.tree@)),
            covers_all(self.tree@.levels.last()),
    {
        let t = self.tree@;
        let top = t.levels.len() - 1;
        assert(level_ok(
            &self.key_format,
            self.value_inline,
            self.nodes(records),
            t.levels[top],
            top > 0,
        ));
        assert(level_node(
            &self.key_format,
            self.value_inline,
            self.nodes(records),
            t.levels[top],
            0,
            top > 0,
        ));
    }

    fn check_poison(&self) -> (r: Result<()>)
        ensures
            !self.poisoned ==> r is Ok,
            self.poisoned ==> (r matches Err(e) && e is DataCorruption),
    {
        if self.poisoned {
            Err(
                DbError::corrupt(
                    "btree poisoned by a failed structural update; reopen the store (a root-grow failure surfaces as corruption at open)",
                ),
            )
        } else {
            Ok(())
        }
    }

    fn is_current_root<S: Store>(&self, store: &S, recid: u64) -> (r: Result<bool>)
        ensures
            blames(store.state(), r),
            self.wf(store.state().records) ==> served(store.state(), r) && (
            r matches Ok(x) ==> x == (recid == root_of(self.tree@))),
            store.state().readable && (item_at(
                &LONG,
                store.state().records,
                self.root_recid_recid,
            ) matches Some(Some(x)) && x > 0) ==> r is Ok,
            r matches Ok(b) ==> (item_at(&LONG, store.state().records, self.root_recid_recid)
                matches Some(Some(x)) && b == (x == recid)),
    {
        match self.load_root_recid(store) {
            Ok(x) => Ok(x == recid),
            Err(e) => Err(e),
        }
    }

    fn root_recid<S: Store>(&self, store: &S) -> (r: Result<u64>)
        ensures
            blames(store.state(), r),
            self.poisoned ==> (r matches Err(e) && e is DataCorruption),
            r matches Err(e) ==> !self.poisoned && store.state().closed
                ==> e == DbError::StoreClosed,
            r matches Ok(x) ==> x != 0 && !self.poisoned,
            self.wf(store.state().records) ==> served(store.state(), r) && (
            r matches Ok(x) ==> x == (root_of(self.tree@))),
    {
        match self.check_poison() {
            Ok(_) => {},
            Err(e) => {
                return Err(e);
            },
        }
        if self.cached_root != 0 {
            return Ok(self.cached_root);
        }
        self.load_root_recid(store)
    }

    fn load<S: Store>(&self, store: &S, recid: u64) -> (r: Result<Node<KF, VF>>)
        ensures
            blames(store.state(), r),
            store.state().readable && self.nodes(store.state().records).contains_key(recid)
                ==> r is Ok,
            r matches Ok(n) ==> {
                &&& recid != 0
                &&& store.state().records.contains_key(recid)
                &&& self.nodes(store.state().records).contains_key(recid)
                &&& n@ == self.nodes(store.state().records)[recid]
                &&& node_ok(&self.key_format, self.value_inline, n@)
                &&& node_fits(&self.key_format, &self.value_format, n@)
            },
            recid != 0 && store.state().closed ==> r == Err::<Node<KF, VF>, DbError>(
                DbError::StoreClosed,
            ),
    {
        if recid == 0 {
            return Err(DbError::corrupt("btree recid is zero"));
        }
        match store.get(recid) {
            Ok(Some(b)) => {
                let ns = NodeSerializer::new_mode(
                    &self.key_format,
                    &self.value_format,
                    self.max_node_size,
                    self.value_inline,
                );
                let mut input = SliceInput::new(b.as_slice());
                assert(rest(input.bytes(), input.cursor()) =~= b@);
                let r = ns.deserialize(&mut input, Some(b.len()));
                proof {
                    lemma_dec_node_ok(
                        &self.key_format,
                        &self.value_format,
                        self.value_inline,
                        b@,
                        Some(b@.len()),
                    );
                    store.records_finite();
                    assert(node_at(
                        &self.key_format,
                        &self.value_format,
                        self.value_inline,
                        store.state().records,
                        recid,
                    ) is Some == r is Ok);
                }
                r
            },
            Ok(None) => Err(DbError::corrupt("btree node record is null")),
            Err(e) => Err(e),
        }
    }

    // ------------------------------------------------------------ finding nodes

    /// The child of a directory under which a key belongs; `None` when the key lies
    /// beyond the directory.
    fn route_child(&self, dir: &Node<KF, VF>, key: &KF::Item) -> (r: Option<usize>)
        requires
            node_ok(&self.key_format, self.value_inline, dir@),
            dir@.dir(),
        ensures
            match r {
                Some(c) => c < dir@.children().len() && position(
                    &self.key_format,
                    dir@.keys,
                    key@,
                    c as int,
                ),
                None => !dir@.right() && splits_at(
                    &self.key_format,
                    dir@.keys,
                    key@,
                    dir@.keys.len() as int,
                ),
            },
    {
        let c: usize = search_idx(search(&self.key_format, &dir.keys, key));
        if c >= dir.children().len() {
            None
        } else {
            Some(c)
        }
    }

    /// Whether a key lies beyond a leaf.
    fn beyond_leaf(&self, leaf: &Node<KF, VF>, key: &KF::Item) -> (r: bool)
        ensures
            r == (!leaf@.right() && (leaf@.fence() matches Some(f) && self.key_format.lt(f, key@))),
    {
        if leaf.is_right() {
            return false;
        }
        match leaf.leaf_fence() {
            Some(f) => self.key_format.less(f, key),
            None => false,
        }
    }

    /// Whether a key lies beyond the keys of a directory.
    fn beyond_dir(&self, dir: &Node<KF, VF>, key: &KF::Item) -> (r: bool)
        requires
            node_ok(&self.key_format, self.value_inline, dir@),
        ensures
            r == splits_at(&self.key_format, dir@.keys, key@, dir@.keys.len() as int),
    {
        broadcast use group_key_order;

        match search(&self.key_format, &dir.keys, key) {
            Ok(p) => {
                proof {
                    let m = dir@.keys[p as int];
                }
                false
            },
            Err(ip) => {
                proof {
                    if ip < dir@.keys.len() {
                        let m = dir@.keys[ip as int];
                    }
                }
                ip == dir.keys.len()
            },
        }
    }

    /// `recid` is node `i` of level `l`, and `key` lies above its low bound.
    spec fn can_cover(
        &self,
        records: Records,
        recid: u64,
        key: Model<KF>,
        dir_level: bool,
        l: Level<Model<KF>>,
        i: int,
    ) -> bool {
        &&& level_ok(&self.key_format, self.value_inline, self.nodes(records), l, dir_level)
        &&& 0 <= i < l.len()
        &&& l[i].0 == recid
        &&& above(&self.key_format, low(l, i), key)
    }

    /// From a node whose keys are not all above `key`, the node of the same level
    /// where `key` belongs, found along the right links.
    fn covering_node<S: Store>(
        &self,
        store: &S,
        recid: u64,
        key: &KF::Item,
        dir_level: bool,
        Ghost(l): Ghost<Level<Model<KF>>>,
        Ghost(i): Ghost<int>,
    ) -> (r: Result<(Node<KF, VF>, u64)>)
        ensures
            blames(store.state(), r),
            r matches Ok((n, id)) ==> {
                &&& id != 0
                &&& store.state().records.contains_key(id)
                &&& self.nodes(store.state().records).contains_key(id)
                &&& n@ == self.nodes(store.state().records)[id]
                &&& node_ok(&self.key_format, self.value_inline, n@)
                &&& node_fits(&self.key_format, &self.value_format, n@)
                &&& dir_level ==> n@.right() || !splits_at(
                    &self.key_format,
                    n@.keys,
                    key@,
                    n@.keys.len() as int,
                )
                &&& !dir_level && !n@.right() ==> !(n@.fence() matches Some(f)
                    && self.key_format.lt(f, key@))
            },
            self.can_cover(
                store.state().records,
                recid,
                key@,
                dir_level,
                l,
                i,
            ) ==> served(store.state(), r) && (r matches Ok((n, id)) ==> exists|j: int|
                #![trigger l[j]]
                covers(&self.key_format, l, j, key@) && l[j].0 == id),
    {
        broadcast use group_key_order;

        let ghost nodes = self.nodes(store.state().records);
        let ghost good = self.can_cover(
            store.state().records,
            recid,
            key@,
            dir_level,
            l,
            i,
        );
        let ghost d = store.state().records.dom();
        proof {
            store.records_finite();
            if good {
                assert(level_node(&self.key_format, self.value_inline, nodes, l, i, dir_level));
            }
        }
        let mut cyc = CycleGuard::new(CYCLE_DESCENT_SOFT);
        let mut current: u64 = recid;
        let ghost mut at: int = i;
        let mut n = match self.load(store, recid) {
            Ok(n) => n,
            Err(e) => {
                return Err(e);
            },
        };
        loop
            invariant
                cyc.ok(),
                d == store.state().records.dom(),
                d.finite(),
                cyc.visited().subset_of(d),
                nodes == self.nodes(store.state().records),
                current != 0,
                store.state().records.contains_key(current),
                nodes.contains_key(current),
                n@ == nodes[current],
                node_ok(&self.key_format, self.value_inline, n@),
                node_fits(&self.key_format, &self.value_format, n@),
                good == (self.can_cover(
                    store.state().records,
                    recid,
                    key@,
                    dir_level,
                    l,
                    i,
                )),
                good ==> {
                    &&& i <= at < l.len()
                    &&& 0 <= i
                    &&& l[at].0 == current
                    &&& above(&self.key_format, low(l, at), key@)
                    &&& forall|x: u64| #[trigger]
                        cyc.visited().contains(x) ==> exists|y: int|
                            #![trigger l[y]]
                            i <= y <= at && l[y].0 == x
                },
            decreases cyc.fuel(d),
        {
            broadcast use group_key_order;

            let beyond = if dir_level {
                !n.is_right() && self.beyond_dir(&n, key)
            } else {
                self.beyond_leaf(&n, key)
            };
            proof {
                if good {
                    assert(level_node(
                        &self.key_format,
                        self.value_inline,
                        nodes,
                        l,
                        at,
                        dir_level,
                    ));
                    if beyond {
                        assert(l[at].1 is Some);
                        if dir_level {
                            let last = n@.keys[n@.keys.len() - 1];
                            assert(self.key_format.lt(last, key@));
                        }
                        assert(above(&self.key_format, low(l, at + 1), key@));
                    } else {
                        assert(within(&self.key_format, key@, l[at].1)) by {
                            if dir_level && !n@.right() {
                                if self.key_format.lt(n@.keys.last(), key@) {
                                    assert forall|x: int| 0 <= x < n@.keys.len()
                                        implies self.key_format.lt(
                                        #[trigger] n@.keys[x],
                                        key@,
                                    ) by {
                                        let y = n@.keys[n@.keys.len() - 1];
                                    }
                                    assert(splits_at(
                                        &self.key_format,
                                        n@.keys,
                                        key@,
                                        n@.keys.len() as int,
                                    ));
                                }
                            }
                        }
                        assert(covers(&self.key_format, l, at, key@));
                    }
                }
            }
            if !beyond {
                return Ok((n, current));
            }
            let next: u64 = n.link;
            proof {
                if good {
                    assert(l[at + 1].0 == next);
                    assert(level_node(
                        &self.key_format,
                        self.value_inline,
                        nodes,
                        l,
                        at + 1,
                        dir_level,
                    ));
                    if cyc.visited().contains(next) {
                        let y = choose|y: int| #![trigger l[y]] i <= y <= at && l[y].0 == next;
                        lemma_level_distinct(
                            &self.key_format,
                            self.value_inline,
                            nodes,
                            l,
                            dir_level,
                            y,
                            at + 1,
                        );
                    }
                }
            }
            let ghost before = cyc;
            match cyc.visit(next) {
                Ok(_) => {},
                Err(e) => {
                    return Err(e);
                },
            }
            match self.load(store, next) {
                Ok(m) => {
                    n = m;
                    current = next;
                    proof {
                        if good {
                            at = at + 1;
                            assert forall|x: u64| #[trigger] cyc.visited().contains(x)
                                implies exists|y: int|
                                #![trigger l[y]]
                                i <= y <= at && l[y].0 == x by {
                                if x == next {
                                    assert(l[at].0 == x);
                                } else {
                                    assert(before.visited().contains(x));
                                    let y = choose|y: int| #![trigger l[y]] i <= y <= at - 1
                                        && l[y].0 == x;
                                    assert(l[y].0 == x);
                                }
                            }
                        }
                    }
                },
                Err(e) => {
                    return Err(e);
                },
            }
        }
    }

    /// Walks from the root down to the leaf where a scan from `lo` starts. The
    /// directories on the way are pushed onto `stack`.
    fn descend<S: Store>(
        &self,
        store: &S,
        lo: Option<&KF::Item>,
        stack: &mut Vec<u64>,
    ) -> (r: Result<(Node<KF, VF>, u64, Ghost<Seq<int>>)>)
        ensures
            blames(store.state(), r),
            self.refuses(store.state(), r),
            r matches Ok((n, id, path)) ==> {
                &&& id != 0
                &&& store.state().records.contains_key(id)
                &&& self.nodes(store.state().records).contains_key(id)
                &&& n@ == self.nodes(store.state().records)[id]
                &&& node_ok(&self.key_format, self.value_inline, n@)
                &&& node_fits(&self.key_format, &self.value_format, n@)
                &&& !n@.dir()
            },
            self.wf(store.state().records)
                ==> served(store.state(), r)
                    && (r matches Ok((n, id, path))
                        ==> path_from(&self.key_format, self.tree@, path@, opt_ref_model(lo), 0)
                && self.tree@.levels[0][path@[0]].0 == id
                    && (old(stack)@.len() == 0 ==> final(stack)@ == path_stack(self.tree@, path@))),
    {
        broadcast use group_key_order;

        let ghost nodes = self.nodes(store.state().records);
        let ghost t = self.tree@;
        let ghost good = self.wf(store.state().records);
        let ghost d = store.state().records.dom();
        let ghost top = t.levels.len() - 1;
        let ghost mut lev: int = top;
        let ghost mut path: Seq<int> = Seq::new(t.levels.len(), |x: int| 0);
        let ghost lom = opt_ref_model(lo);
        let ghost empty = old(stack)@.len() == 0;
        proof {
            store.records_finite();
            if good {
                self.lemma_root(store.state().records);
            }
        }
        let mut cyc = CycleGuard::new(CYCLE_DESCENT_SOFT);
        let mut current: u64 = match self.root_recid(store) {
            Ok(r) => r,
            Err(e) => {
                return Err(e);
            },
        };
        let mut n = match self.load(store, current) {
            Ok(n) => n,
            Err(e) => {
                return Err(e);
            },
        };
        proof {
            if good {
                assert(t.levels[top].len() == 1);
                assert(starts_at(&self.key_format, t.levels[top], 0, lom));
                assert(level_ok(
                    &self.key_format,
                    self.value_inline,
                    nodes,
                    t.levels[top],
                    top > 0,
                ));
                assert(level_node(
                    &self.key_format,
                    self.value_inline,
                    nodes,
                    t.levels[top],
                    0,
                    top > 0,
                ));
                assert(path[top] == 0);
                if empty {
                    assert(stack@ =~= Seq::new(0, |x: int| 0u64));
                }
            }
        }
        while n.is_dir()
            invariant
                !self.poisoned,
                !store.state().closed,
                cyc.ok(),
                d == store.state().records.dom(),
                d.finite(),
                cyc.visited().subset_of(d),
                nodes == self.nodes(store.state().records),
                t == self.tree@,
                top == t.levels.len() - 1,
                lom == opt_ref_model(lo),
                current != 0,
                store.state().records.contains_key(current),
                nodes.contains_key(current),
                n@ == nodes[current],
                node_ok(&self.key_format, self.value_inline, n@),
                node_fits(&self.key_format, &self.value_format, n@),
                good == self.wf(store.state().records),
                good ==> {
                    &&& 0 <= lev <= top
                    &&& path_from(&self.key_format, t, path, lom, lev)
                    &&& t.levels[lev][path[lev]].0 == current
                    &&& 0 <= path[lev] < t.levels[lev].len()
                    &&& n@.dir() == (lev > 0)
                    &&& empty ==> stack@ == Seq::new(
                        (top - lev) as nat,
                        |x: int| t.levels[top - x][path[top - x]].0,
                    )
                    &&& forall|x: u64| #[trigger]
                        cyc.visited().contains(x) ==> t.owner.contains_key(x) && (t.owner[x]
                            matches Owner::Level(m) && m > lev)
                },
            decreases cyc.fuel(d),
        {
            broadcast use group_key_order;

            let ghost p = t.levels[lev];
            let ghost sub = t.levels[lev - 1];
            let ghost off = t.offs[lev - 1];
            proof {
                if good {
                    assert(level_ok(&self.key_format, self.value_inline, nodes, p, lev > 0));
                    assert(level_ok(&self.key_format, self.value_inline, nodes, sub, lev - 1 > 0));
                    assert(parent_ok(nodes, p, sub, off));
                    assert(level_node(
                        &self.key_format,
                        self.value_inline,
                        nodes,
                        p,
                        path[lev],
                        true,
                    ));
                    assert(parent_node(nodes, p, sub, off, path[lev]));
                    let e = t.levels[lev][path[lev]];
                    assert(t.owner[current] == Owner::<Model<KF>>::Level(lev as nat));
                }
            }
            match cyc.visit(current) {
                Ok(_) => {},
                Err(e) => {
                    return Err(e);
                },
            }
            let child = match lo {
                None => Some(0usize),
                Some(k) => self.route_child(&n, k),
            };
            match child {
                None => {
                    proof {
                        if good {
                            assert(lo is Some);
                            let last = n@.keys[n@.keys.len() - 1];
                            assert(within(&self.key_format, lo.unwrap()@, p[path[lev]].1));
                            assert(false);
                        }
                    }
                    current = n.link;
                },
                Some(c) => {
                    let ghost before = stack@;
                    stack.push(current);
                    current = n.children()[c];
                    proof {
                        if good {
                            match lo {
                                Some(k) => {
                                    lemma_descend(
                                        &self.key_format,
                                        self.value_inline,
                                        nodes,
                                        p,
                                        sub,
                                        off,
                                        path[lev],
                                        k@,
                                        c as int,
                                    );
                                },
                                None => {
                                    assert(off[0] == 0);
                                    assert(n@.children()[0] == sub[off[0] + 0].0);
                                },
                            }
                            lemma_child_low(
                                &self.key_format,
                                self.value_inline,
                                nodes,
                                p,
                                sub,
                                off,
                                path[lev],
                                c as int,
                            );
                            let at = off[path[lev]] + c;
                            let path2 = path.update(lev - 1, at);
                            assert(sub[at].0 == current);
                            assert(starts_at(&self.key_format, sub, at, lom));
                            lemma_path_extend(&self.key_format, t, path, lom, lev, at);
                            if empty {
                                assert(stack@ =~= Seq::new(
                                    (top - (lev - 1)) as nat,
                                    |x: int| t.levels[top - x][path2[top - x]].0,
                                ));
                            }
                            path = path2;
                            lev = lev - 1;
                            assert(level_node(
                                &self.key_format,
                                self.value_inline,
                                nodes,
                                sub,
                                at,
                                lev > 0,
                            ));
                        }
                    }
                },
            }
            n = match self.load(store, current) {
                Ok(m) => m,
                Err(e) => {
                    return Err(e);
                },
            };
        }
        proof {
            if good && empty {
                assert(stack@ =~= path_stack(t, path));
            }
        }
        Ok((n, current, Ghost(path)))
    }

    /// The leaf where a key belongs. The directories on the way are pushed onto
    /// `stack`.
    fn find_leaf<S: Store>(&self, store: &S, key: &KF::Item, stack: &mut Vec<u64>) -> (r: Result<
        (Node<KF, VF>, u64, Ghost<Seq<int>>),
    >)
        ensures
            blames(store.state(), r),
            self.refuses(store.state(), r),
            r matches Ok((n, id, path)) ==> {
                &&& id != 0
                &&& store.state().records.contains_key(id)
                &&& self.nodes(store.state().records).contains_key(id)
                &&& n@ == self.nodes(store.state().records)[id]
                &&& node_ok(&self.key_format, self.value_inline, n@)
                &&& node_fits(&self.key_format, &self.value_format, n@)
                &&& !n@.right() ==> !(n@.fence() matches Some(f) && self.key_format.lt(f, key@))
            },
            self.wf(store.state().records)
                ==> served(store.state(), r)
                    && (r matches Ok((n, id, path))
                        ==> path_from(&self.key_format, self.tree@, path@, Some(key@), 0)
                && self.tree@.levels[0][path@[0]].0 == id
                    && (old(stack)@.len() == 0 ==> final(stack)@ == path_stack(self.tree@, path@))),
            self.poisoned ==> r is Err,
    {
        let ghost nodes = self.nodes(store.state().records);
        let ghost t = self.tree@;
        let (n, current, path) = match self.descend(store, Some(key), stack) {
            Ok(x) => x,
            Err(e) => {
                return Err(e);
            },
        };
        let ghost l = t.levels[0];
        let ghost i = path@[0];
        match self.covering_node(store, current, key, false, Ghost(l), Ghost(i)) {
            Ok((m, id)) => {
                proof {
                    if self.wf(store.state().records) {
                        assert(level_ok(
                            &self.key_format,
                            self.value_inline,
                            nodes,
                            t.levels[0],
                            false,
                        ));
                        let j = choose|j: int|
                            #![trigger l[j]]
                            covers(&self.key_format, l, j, key@) && l[j].0 == id;
                        lemma_covers_unique(&self.key_format, l, i, j, key@);
                    }
                }
                Ok((m, id, path))
            },
            Err(e) => {
                proof {
                    if self.wf(store.state().records) {
                        assert(level_ok(
                            &self.key_format,
                            self.value_inline,
                            nodes,
                            t.levels[0],
                            false,
                        ));
                    }
                }
                Err(e)
            },
        }
    }
}

/// The model of an optional borrowed element.
pub open spec fn opt_ref_model<T: View>(v: Option<&T>) -> Option<T::V> {
    match v {
        Some(x) => Some(x@),
        None => None,
    }
}

/// A level of one node covers every key.
pub open spec fn covers_all<K>(l: Level<K>) -> bool {
    l.len() == 1 && l[0].1 is None
}

} // verus!
