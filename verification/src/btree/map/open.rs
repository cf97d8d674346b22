//! Making, opening and describing maps.

use vstd::prelude::*;
use std::cmp::Ordering;
use crate::btree::contents::{
    contents_of, is_contents, lemma_contents_of, lemma_contents_unique, lemma_nodes_write,
    lemma_tree_unique, lemma_trimmed, level_entries, sized, slack, tree_map, tree_ok, trimmed, used,
};
use crate::btree::node::{
    enc_node, lemma_flag_constants, node_fits, node_ok, Node, NodeBody, NodeM, NodeSerializer,
};
use crate::btree::tree::{
    lemma_levels_same, level_node, level_ok, nodes_of, parent_node, parent_ok, Owner, Tree,
};
use crate::error::{is_corrupt, DbError, Result};
use crate::io::DataOutput2;
use crate::ser::{KeyFormat, Model, Serializer, LONG};
use crate::store::{
    blames, get_item, item_at, keeps_state, lemma_enc_dec, put_item, served, turned_down, Records,
    Store, StoreState,
};
use super::{left_edges_of, BTreeMap, CycleGuard, CYCLE_DESCENT_SOFT};

verus! {

/// `t` is the tree of a map with these parameters.
pub open spec fn is_tree<KF: KeyFormat, VF: Serializer>(
    kf: &KF,
    vf: &VF,
    inline: bool,
    records: Records,
    root_recid_recid: u64,
    counter_recid: u64,
    t: Tree<Model<KF>>,
) -> bool {
    &&& tree_ok(kf, vf, inline, records, root_recid_recid, counter_recid, t)
    &&& slack(nodes_of(kf, vf, inline, records), t.levels[0])
}

/// The records hold a map with these parameters.
pub open spec fn stored<KF: KeyFormat, VF: Serializer>(
    kf: &KF,
    vf: &VF,
    inline: bool,
    records: Records,
    root_recid_recid: u64,
    counter_recid: u64,
) -> bool {
    exists|t: Tree<Model<KF>>|
        #[trigger] is_tree(kf, vf, inline, records, root_recid_recid, counter_recid, t)
}

pub open spec fn stored_tree<KF: KeyFormat, VF: Serializer>(
    kf: &KF,
    vf: &VF,
    inline: bool,
    records: Records,
    root_recid_recid: u64,
    counter_recid: u64,
) -> Tree<Model<KF>> {
    choose|t: Tree<Model<KF>>|
        #[trigger] is_tree(kf, vf, inline, records, root_recid_recid, counter_recid, t)
}

/// The entries of the map that the records hold.
pub open spec fn stored_map<KF: KeyFormat, VF: Serializer>(
    kf: &KF,
    vf: &VF,
    inline: bool,
    records: Records,
    root_recid_recid: u64,
    counter_recid: u64,
) -> Map<Model<KF>, Model<VF>> {
    tree_map(
        kf,
        vf,
        inline,
        records,
        stored_tree(kf, vf, inline, records, root_recid_recid, counter_recid),
    )
}

/// The recids of the map that the records hold.
pub open spec fn stored_recids<KF: KeyFormat, VF: Serializer>(
    kf: &KF,
    vf: &VF,
    inline: bool,
    records: Records,
    root_recid_recid: u64,
    counter_recid: u64,
) -> Set<u64> {
    used(
        nodes_of(kf, vf, inline, records),
        stored_tree(kf, vf, inline, records, root_recid_recid, counter_recid),
        root_recid_recid,
        counter_recid,
    )
}

impl<KF: KeyFormat, VF: Serializer> BTreeMap<KF, VF> {
    /// The recid of the record that holds the recid of the root.
    pub closed spec fn pointer(&self) -> u64 {
        self.root_recid_recid
    }

    pub closed spec fn node_size(&self) -> usize {
        self.max_node_size
    }

    /// Whatever handle the map is used through, its entries and its nodes are what the
    /// records hold, and an open handle owns at least the records that the map needs.
    pub proof fn law_contents_are_stored(&self, records: Records)
        requires
            self.wf(records),
        ensures
            stored(&self.kf(), &self.vf(), self.inline(), records, self.pointer(), self.counter()),
            self.contents(records) == stored_map(
                &self.kf(),
                &self.vf(),
                self.inline(),
                records,
                self.pointer(),
                self.counter(),
            ),
            stored_recids(
                &self.kf(),
                &self.vf(),
                self.inline(),
                records,
                self.pointer(),
                self.counter(),
            ).subset_of(self.owned()),
            self.contents(records).dom().finite(),
            self.nodes_within(records) == sized(
                nodes_of(&self.kf(), &self.vf(), self.inline(), records),
                stored_tree(
                    &self.kf(),
                    &self.vf(),
                    self.inline(),
                    records,
                    self.pointer(),
                    self.counter(),
                ).levels,
                self.node_size() as nat,
            ),
    {
        let kf = &self.key_format;
        let vf = &self.value_format;
        let rrr = self.root_recid_recid;
        let counter = self.counter_recid;
        assert(is_tree(kf, vf, self.value_inline, records, rrr, counter, self.tree@));
        let t = stored_tree(kf, vf, self.value_inline, records, rrr, counter);
        lemma_tree_unique(kf, vf, self.value_inline, records, rrr, counter, counter, self.tree@, t);
        lemma_trimmed(kf, vf, self.value_inline, records, rrr, counter, self.tree@);
        assert(used(self.nodes(records), t, rrr, counter) =~= used(
            self.nodes(records),
            self.tree@,
            rrr,
            counter,
        )) by {
            assert(t.levels == self.tree@.levels);
            assert forall|r: u64| crate::btree::contents::is_node(t, r)
                == crate::btree::contents::is_node(self.tree@, r) by {}
        }
    }

    /// A map has a root and a node size within bounds.
    pub proof fn lemma_parameters(&self, records: Records)
        requires
            self.wf(records),
        ensures
            self.pointer() != 0,
            4 <= self.node_size() <= 1048576,
    {
        assert(self.tree@.owner.contains_key(self.root_recid_recid));
    }

    // ------------------------------------------------------------ left edges

    /// The leftmost node of every level, leaves first.
    pub(super) fn build_left_edges<S: Store>(
        &self,
        store: &S,
        Ghost(t): Ghost<Tree<Model<KF>>>,
    ) -> (r: Result<Vec<u64>>)
        ensures
            blames(store.state(), r),
            tree_ok(
                &self.key_format,
                &self.value_format,
                self.value_inline,
                store.state().records,
                self.root_recid_recid,
                0,
                t,
            ) ==> served(store.state(), r) && (r matches Ok(v) ==> v@ == left_edges_of(t)),
            store.state().closed ==> r == Err::<Vec<u64>, DbError>(DbError::StoreClosed),
    {
        let ghost records = store.state().records;
        let ghost nodes = self.nodes(records);
        let ghost good = tree_ok(
            &self.key_format,
            &self.value_format,
            self.value_inline,
            records,
            self.root_recid_recid,
            0,
            t,
        );
        let ghost d = records.dom();
        let ghost top = t.levels.len() - 1;
        let ghost mut lev: int = top;
        proof {
            store.records_finite();
            if good {
                assert(level_ok(
                    &self.key_format,
                    self.value_inline,
                    nodes,
                    t.levels[top],
                    top > 0,
                ));
                assert(level_node(
                    &self.key_format,
                    self.value_inline,
                    nodes,
                    t.levels[top],
                    0,
                    top > 0,
                ));
                let e = t.levels[top][0];
                assert(t.owner.contains_key(e.0));
            }
        }
        let mut cyc = CycleGuard::new(CYCLE_DESCENT_SOFT);
        let mut spine: Vec<u64> = Vec::new();
        let mut current: u64 = match self.load_root_recid(store) {
            Ok(x) => x,
            Err(e) => {
                return Err(e);
            },
        };
        spine.push(current);
        let mut n = match self.load(store, current) {
            Ok(n) => n,
            Err(e) => {
                return Err(e);
            },
        };
        if !n.is_left() || !n.is_right() {
            return Err(
                DbError::corrupt(
                    "btree root is not root-shaped (incomplete root-grow); store is damaged",
                ),
            );
        }
        proof {
            if good {
                assert(spine@ =~= Seq::new((top - lev + 1) as nat, |x: int| t.levels[top - x][0].0));
            }
        }
        while n.is_dir()
            invariant
                cyc.ok(),
                d == store.state().records.dom(),
                d.finite(),
                cyc.visited().subset_of(d),
                records == store.state().records,
                nodes == self.nodes(records),
                top == t.levels.len() - 1,
                current != 0,
                records.contains_key(current),
                n@ == nodes[current],
                node_ok(&self.key_format, self.value_inline, n@),
                good == (tree_ok(
                    &self.key_format,
                    &self.value_format,
                    self.value_inline,
                    records,
                    self.root_recid_recid,
                    0,
                    t,
                )),
                !store.state().closed,
                good ==> {
                    &&& 0 <= lev <= top
                    &&& t.levels[lev][0].0 == current
                    &&& n@.dir() == (lev > 0)
                    &&& spine@ == Seq::new(
                        (top - lev + 1) as nat,
                        |x: int| t.levels[top - x][0].0,
                    )
                    &&& forall|x: u64| #[trigger]
                        cyc.visited().contains(x) ==> t.owner.contains_key(x) && (t.owner[x]
                            matches Owner::Level(m) && m > lev)
                },
            decreases cyc.fuel(d),
        {
            proof {
                if good {
                    let p = t.levels[lev];
                    let sub = t.levels[lev - 1];
                    let off = t.offs[lev - 1];
                    assert(level_ok(
                        &self.key_format,
                        self.value_inline,
                        nodes,
                        t.levels[lev],
                        lev > 0,
                    ));
                    assert(level_ok(
                        &self.key_format,
                        self.value_inline,
                        nodes,
                        t.levels[lev - 1],
                        lev - 1 > 0,
                    ));
                    assert(parent_ok(
                        nodes,
                        t.levels[lev - 1 + 1],
                        t.levels[lev - 1],
                        t.offs[lev - 1],
                    ));
                    assert(parent_node(nodes, p, sub, off, 0));
                    let e = t.levels[lev][0];
                    assert(t.owner[e.0] == Owner::<Model<KF>>::Level(lev as nat));
                    assert(n@.children()[0] == sub[off[0] + 0].0);
                    assert(level_node(
                        &self.key_format,
                        self.value_inline,
                        nodes,
                        sub,
                        0,
                        lev - 1 > 0,
                    ));
                }
            }
            match cyc.visit(current) {
                Ok(_) => {},
                Err(e) => {
                    return Err(e);
                },
            }
            current = n.children()[0];
            spine.push(current);
            n = match self.load(store, current) {
                Ok(m) => m,
                Err(e) => {
                    return Err(e);
                },
            };
            proof {
                if good {
                    lev = lev - 1;
                    assert(spine@ =~= Seq::new(
                        (top - lev + 1) as nat,
                        |x: int| t.levels[top - x][0].0,
                    ));
                }
            }
        }
        let mut edges: Vec<u64> = Vec::new();
        let mut x: usize = spine.len();
        while x > 0
            invariant
                x <= spine@.len(),
                edges@ == Seq::new(
                    (spine@.len() - x) as nat,
                    |y: int| spine@[spine@.len() - 1 - y],
                ),
            decreases x,
        {
            x = x - 1;
            edges.push(spine[x]);
            assert(edges@ =~= Seq::new(
                (spine@.len() - x) as nat,
                |y: int| spine@[spine@.len() - 1 - y],
            ));
        }
        proof {
            if good {
                assert(lev == 0);
                assert(edges@ =~= left_edges_of(t));
            }
        }
        Ok(edges)
    }

    /// On a transactional store a rollback takes the tree back behind the handle. The
    /// first use after it brings the handle up to the records again.
    pub fn refresh_left_edges_if_tx<S: Store>(&mut self, store: &S) -> (r: Result<()>)
        ensures
            blames(store.state(), r),
            final(self).same_config(old(self)),
            final(self).spoiled() == old(self).spoiled(),
            r is Err ==> old(self).refuses(store.state(), r) && *final(self) == *old(self),
            old(self).wf(store.state().records) ==> {
                &&& served(store.state(), r)
                &&& final(self).wf(store.state().records)
                &&& final(self).contents(store.state().records) == old(self).contents(
                    store.state().records,
                )
                &&& final(self).owned() == old(self).owned()
                &&& final(self).height() == old(self).height()
                &&& final(self).keeps_nodes(old(self))
                &&& final(self).nodes_within(store.state().records) == old(self).nodes_within(
                    store.state().records,
                )
            },
            old(self).outdated(store.state()) && !old(self).wf(store.state().records) && stored(
                &old(self).kf(),
                &old(self).vf(),
                old(self).inline(),
                store.state().records,
                old(self).pointer(),
                old(self).counter(),
            ) ==> served(store.state(), r) && (r is Ok ==> {
                &&& final(self).wf(store.state().records)
                &&& final(self).contents(store.state().records) == stored_map(
                    &old(self).kf(),
                    &old(self).vf(),
                    old(self).inline(),
                    store.state().records,
                    old(self).pointer(),
                    old(self).counter(),
                )
                &&& final(self).owned() == stored_recids(
                    &old(self).kf(),
                    &old(self).vf(),
                    old(self).inline(),
                    store.state().records,
                    old(self).pointer(),
                    old(self).counter(),
                )
            }),
    {
        proof {
            lemma_levels_same(self.tree@.levels);
        }
        if self.root_cacheable {
            return Ok(());
        }
        let gen: u64 = store.structural_generation();
        if gen == self.last_struct_gen {
            return Ok(());
        }
        match self.check_poison() {
            Ok(_) => {},
            Err(e) => {
                return Err(e);
            },
        }
        let ghost records = store.state().records;
        let ghost kept = self.wf(records);
        let ghost st = stored_tree(
            &self.key_format,
            &self.value_format,
            self.value_inline,
            records,
            self.root_recid_recid,
            self.counter_recid,
        );
        let ghost t2 = if kept {
            self.tree@
        } else {
            trimmed(self.nodes(records), st, self.root_recid_recid, self.counter_recid)
        };
        proof {
            if !kept && stored(
                &self.key_format,
                &self.value_format,
                self.value_inline,
                records,
                self.root_recid_recid,
                self.counter_recid,
            ) {
                lemma_trimmed(
                    &self.key_format,
                    &self.value_format,
                    self.value_inline,
                    records,
                    self.root_recid_recid,
                    self.counter_recid,
                    st,
                );
            }
        }
        let edges = match self.build_left_edges(store, Ghost(t2)) {
            Ok(x) => x,
            Err(e) => {
                return Err(e);
            },
        };
        self.left_edges = edges;
        self.last_struct_gen = gen;
        proof {
            self.tree@ = t2;
            if kept {
                old(self).law_contents_are_stored(records);
            } else if old(self).wf(records) {
                old(self).law_contents_are_stored(records);
            }
        }
        Ok(())
    }

    /// The store was rolled back since the handle was last used.
    pub closed spec fn outdated(&self, st: StoreState) -> bool {
        &&& !self.root_cacheable
        &&& self.last_struct_gen != st.generation
        &&& !self.poisoned
        &&& self.cached_root == 0
        &&& 4 <= self.max_node_size <= 1048576
    }

    // ------------------------------------------------------------ open

    pub(super) fn open_mode<S: Store>(
        store: &S,
        root_recid_recid: u64,
        key_format: KF,
        value_format: VF,
        max_node_size: usize,
        counter_recid: u64,
        value_inline: bool,
    ) -> (r: Result<Self>)
        ensures
            blames(store.state(), r),
            Self::open_post(
                store.state(),
                root_recid_recid,
                key_format,
                value_format,
                max_node_size,
                counter_recid,
                value_inline,
                r,
            ),
    {
        if max_node_size < 4 || max_node_size > 1048576 {
            return Err(DbError::corrupt("stored maxNodeSize out of range 4..=1048576"));
        }
        if root_recid_recid == 0 {
            return Err(DbError::corrupt("root_recid_recid must be a valid recid"));
        }
        let ghost records = store.state().records;
        let ghost nodes = nodes_of(&key_format, &value_format, value_inline, records);
        let ghost good = stored(
            &key_format,
            &value_format,
            value_inline,
            records,
            root_recid_recid,
            counter_recid,
        );
        let ghost st = stored_tree(
            &key_format,
            &value_format,
            value_inline,
            records,
            root_recid_recid,
            counter_recid,
        );
        let ghost t = trimmed(nodes, st, root_recid_recid, counter_recid);
        proof {
            if good {
                lemma_trimmed(
                    &key_format,
                    &value_format,
                    value_inline,
                    records,
                    root_recid_recid,
                    counter_recid,
                    st,
                );
            }
        }
        let root_cacheable = !store.is_tx();
        let init_gen: u64 = store.structural_generation();
        let mut map = BTreeMap {
            key_format,
            value_format,
            max_node_size,
            root_recid_recid,
            value_inline,
            counter_recid,
            root_cacheable,
            left_edges: Vec::new(),
            cached_root: 0,
            poisoned: false,
            last_struct_gen: init_gen,
            tree: Ghost(t),
        };
        if counter_recid != 0 {
            match get_item(store, counter_recid, &LONG) {
                Ok(Some(v)) => {
                    if v < 0 {
                        return Err(DbError::corrupt("btree size counter record is negative"));
                    }
                },
                Ok(None) => {
                    return Err(DbError::corrupt("btree size counter record missing"));
                },
                Err(e) => {
                    return Err(e);
                },
            }
        }
        let edges = match map.build_left_edges(store, Ghost(t)) {
            Ok(x) => x,
            Err(e) => {
                return Err(e);
            },
        };
        map.left_edges = edges;
        proof {
            if good {
                assert(map.wf(records));
                map.law_contents_are_stored(records);
            }
        }
        Ok(map)
    }

    /// What opening a map does.
    pub open spec fn open_post(
        st: StoreState,
        root_recid_recid: u64,
        key_format: KF,
        value_format: VF,
        max_node_size: usize,
        counter_recid: u64,
        value_inline: bool,
        r: Result<Self>,
    ) -> bool {
        let sized = 4 <= max_node_size <= 1048576;
        &&& !sized ==> (r matches Err(e) && is_corrupt(
            e,
            "stored maxNodeSize out of range 4..=1048576"@,
        ))
        &&& sized && root_recid_recid == 0 ==> (r matches Err(e) && is_corrupt(
            e,
            "root_recid_recid must be a valid recid"@,
        ))
        &&& sized && root_recid_recid != 0 && st.closed ==> r == Err::<Self, DbError>(
            DbError::StoreClosed,
        )
        &&& sized && root_recid_recid != 0 && st.readable && counter_recid != 0 ==> {
            &&& item_at(&LONG, st.records, counter_recid) == Some(None::<i64>) ==> (r matches Err(e)
                && is_corrupt(e, "btree size counter record missing"@))
            &&& item_at(&LONG, st.records, counter_recid) matches Some(Some(v)) ==> (v < 0 ==> (
            r matches Err(e) && is_corrupt(e, "btree size counter record is negative"@)))
            &&& !st.records.contains_key(counter_recid) ==> r == Err::<Self, DbError>(
                DbError::GetVoid(counter_recid),
            )
        }
        &&& r matches Ok(map) ==> {
            &&& map.kf() == key_format
            &&& map.vf() == value_format
            &&& map.node_size() == max_node_size
            &&& map.pointer() == root_recid_recid
            &&& map.counter() == counter_recid
            &&& map.inline() == value_inline
        }
        &&& sized && root_recid_recid != 0 && stored(
            &key_format,
            &value_format,
            value_inline,
            st.records,
            root_recid_recid,
            counter_recid,
        ) ==> served(st, r) && (r matches Ok(map) ==> {
            &&& map.wf(st.records)
            &&& map.nodes_within(st.records) == crate::btree::contents::sized(
                nodes_of(&key_format, &value_format, value_inline, st.records),
                stored_tree(
                    &key_format,
                    &value_format,
                    value_inline,
                    st.records,
                    root_recid_recid,
                    counter_recid,
                ).levels,
                max_node_size as nat,
            )
            &&& map.contents(st.records) == stored_map(
                &key_format,
                &value_format,
                value_inline,
                st.records,
                root_recid_recid,
                counter_recid,
            )
            &&& map.owned() == stored_recids(
                &key_format,
                &value_format,
                value_inline,
                st.records,
                root_recid_recid,
                counter_recid,
            )
            &&& map.height() == stored_tree(
                &key_format,
                &value_format,
                value_inline,
                st.records,
                root_recid_recid,
                counter_recid,
            ).levels.len()
        })
    }

    /// Opens a map without a size counter, with values in the leaves.
    pub fn open<S: Store>(
        store: &S,
        root_recid_recid: u64,
        key_format: KF,
        value_format: VF,
        max_node_size: usize,
    ) -> (r: Result<Self>)
        ensures
            blames(store.state(), r),
            Self::open_post(
                store.state(),
                root_recid_recid,
                key_format,
                value_format,
                max_node_size,
                0,
                true,
                r,
            ),
    {
        Self::open_mode(
            store,
            root_recid_recid,
            key_format,
            value_format,
            max_node_size,
            0,
            true,
        )
    }

    /// Opens a map with values in the leaves; a counter recid of zero means that it
    /// has no size counter.
    pub fn open_with_counter<S: Store>(
        store: &S,
        root_recid_recid: u64,
        key_format: KF,
        value_format: VF,
        max_node_size: usize,
        counter_recid: u64,
    ) -> (r: Result<Self>)
        ensures
            blames(store.state(), r),
            Self::open_post(
                store.state(),
                root_recid_recid,
                key_format,
                value_format,
                max_node_size,
                counter_recid,
                true,
                r,
            ),
    {
        Self::open_mode(
            store,
            root_recid_recid,
            key_format,
            value_format,
            max_node_size,
            counter_recid,
            true,
        )
    }

    /// Opens a map whose values stand in records of their own.
    pub fn open_external_values<S: Store>(
        store: &S,
        root_recid_recid: u64,
        key_format: KF,
        value_format: VF,
        max_node_size: usize,
        counter_recid: u64,
    ) -> (r: Result<Self>)
        ensures
            blames(store.state(), r),
            Self::open_post(
                store.state(),
                root_recid_recid,
                key_format,
                value_format,
                max_node_size,
                counter_recid,
                false,
                r,
            ),
    {
        Self::open_mode(
            store,
            root_recid_recid,
            key_format,
            value_format,
            max_node_size,
            counter_recid,
            false,
        )
    }

    // ------------------------------------------------------------ create

    /// What making a map does.
    pub open spec fn create_post(
        a: StoreState,
        b: StoreState,
        key_format: KF,
        value_format: VF,
        max_node_size: usize,
        counter_enable: bool,
        value_inline: bool,
        r: Result<Self>,
    ) -> bool {
        let sized = 4 <= max_node_size <= 1048576;
        &&& !sized ==> r is Err && r->Err_0 is WrongConfiguration && b == a
        &&& sized ==> turned_down(a, b, r)
        &&& keeps_state(a, b)
        &&& b.room + 3 >= a.room
        &&& r matches Ok(map) ==> {
            &&& map.kf() == key_format
            &&& map.vf() == value_format
            &&& map.node_size() == max_node_size
            &&& (map.counter() != 0) == counter_enable
            &&& map.inline() == value_inline
            &&& map.pointer() != 0
            &&& map.wf(b.records)
            &&& map.contents(b.records) == Map::<Model<KF>, Model<VF>>::empty()
            &&& map.height() == 1
            &&& map.nodes_within(b.records)
            &&& forall|x: u64| #[trigger]
                a.records.contains_key(x) ==> b.records.contains_key(x) && b.records[x]
                    == a.records[x] && !map.owned().contains(x)
        }
        &&& sized && a.readable && a.writable && a.room >= 3 ==> r is Ok
    }

    fn create_mode<S: Store>(
        store: &mut S,
        key_format: KF,
        value_format: VF,
        max_node_size: usize,
        counter_enable: bool,
        value_inline: bool,
    ) -> (r: Result<Self>)
        ensures
            Self::create_post(
                old(store).state(),
                final(store).state(),
                key_format,
                value_format,
                max_node_size,
                counter_enable,
                value_inline,
                r,
            ),
    {
        let ghost a = store.state();
        if max_node_size < 4 || max_node_size > 1048576 {
            return Err(DbError::wrong_config(String::from_str("maxNodeSize must be in 4..=1048576")));
        }
        let body: NodeBody<KF, VF> = if value_inline {
            NodeBody::Leaf { values: Vec::new(), fence: None }
        } else {
            NodeBody::ExternalLeaf { recids: Vec::new(), fence: None }
        };
        let leaf: Node<KF, VF> = Node { flags: 6, link: 0, keys: Vec::new(), body };
        proof {
            lemma_flag_constants();
        }
        let ns = NodeSerializer::new_mode(&key_format, &value_format, max_node_size, value_inline);
        let mut out = DataOutput2::with_capacity(ns.size_hint);
        ns.serialize(&mut out, &leaf);
        let root: u64 = match store.put(out.into_vec()) {
            Ok(x) => x,
            Err(e) => {
                return Err(e);
            },
        };
        let ghost b = store.state();
        let pointer: i64 = #[verifier::truncate] (root as i64);
        let rrr: u64 = match put_item(store, &pointer, &LONG) {
            Ok(x) => x,
            Err(e) => {
                return Err(e);
            },
        };
        let ghost c = store.state();
        let mut counter: u64 = 0;
        if counter_enable {
            match put_item(store, &0i64, &LONG) {
                Ok(x) => {
                    counter = x;
                },
                Err(e) => {
                    return Err(e);
                },
            }
        }
        let ghost d = store.state();
        proof {
            lemma_fresh_tree(
                &key_format,
                &value_format,
                value_inline,
                a.records,
                d.records,
                root,
                rrr,
                counter,
                leaf@,
            );
        }
        Self::open_mode(
            store,
            rrr,
            key_format,
            value_format,
            max_node_size,
            counter,
            value_inline,
        )
    }

    /// Makes an empty map without a size counter, with values in the leaves.
    pub fn create<S: Store>(
        store: &mut S,
        key_format: KF,
        value_format: VF,
        max_node_size: usize,
    ) -> (r: Result<Self>)
        ensures
            Self::create_post(
                old(store).state(),
                final(store).state(),
                key_format,
                value_format,
                max_node_size,
                false,
                true,
                r,
            ),
    {
        Self::create_mode(store, key_format, value_format, max_node_size, false, true)
    }

    /// Makes an empty map with values in the leaves, where asked for with a size
    /// counter.
    pub fn create_with_counter<S: Store>(
        store: &mut S,
        key_format: KF,
        value_format: VF,
        max_node_size: usize,
        counter_enable: bool,
    ) -> (r: Result<Self>)
        ensures
            Self::create_post(
                old(store).state(),
                final(store).state(),
                key_format,
                value_format,
                max_node_size,
                counter_enable,
                true,
                r,
            ),
    {
        Self::create_mode(store, key_format, value_format, max_node_size, counter_enable, true)
    }

    /// Makes an empty map whose values stand in records of their own.
    pub fn create_external_values<S: Store>(
        store: &mut S,
        key_format: KF,
        value_format: VF,
        max_node_size: usize,
        counter_enable: bool,
    ) -> (r: Result<Self>)
        ensures
            Self::create_post(
                old(store).state(),
                final(store).state(),
                key_format,
                value_format,
                max_node_size,
                counter_enable,
                false,
                r,
            ),
    {
        Self::create_mode(store, key_format, value_format, max_node_size, counter_enable, false)
    }

    // ------------------------------------------------------------ description

    pub fn root_recid_recid(&self) -> (r: u64)
        ensures
            r == self.pointer(),
    {
        self.root_recid_recid
    }

    pub fn max_node_size(&self) -> (r: usize)
        ensures
            r == self.node_size(),
    {
        self.max_node_size
    }

    pub fn counter_recid(&self) -> (r: u64)
        ensures
            r == self.counter(),
    {
        self.counter_recid
    }

    pub fn value_inline(&self) -> (r: bool)
        ensures
            r == self.inline(),
    {
        self.value_inline
    }

    pub fn is_closed<S: Store>(&self, store: &S) -> (r: bool)
        ensures
            r == store.state().closed,
    {
        store.is_closed()
    }

    /// How two keys are ordered.
    pub fn compare_keys(&self, a: &KF::Item, b: &KF::Item) -> (r: Ordering)
        ensures
            r is Less <==> self.kf().lt(a@, b@),
            r is Greater <==> self.kf().lt(b@, a@),
            r is Equal <==> a@ == b@,
    {
        proof {
            self.key_format.lt_total(a@, b@);
            self.key_format.lt_irreflexive(a@);
            if self.key_format.lt(a@, b@) && self.key_format.lt(b@, a@) {
                self.key_format.lt_transitive(a@, b@, a@);
            }
        }
        if self.key_format.less(a, b) {
            Ordering::Less
        } else if self.key_format.less(b, a) {
            Ordering::Greater
        } else {
            Ordering::Equal
        }
    }

    /// Whether keys are in their natural order.
    pub fn key_natural_order(&self) -> (r: bool)
        ensures
            r == self.kf().natural(),
    {
        self.key_format.natural_order()
    }

    /// What does not change keeps the formats and recids.
    pub proof fn lemma_config(&self, other: &Self)
        ensures
            self.same_config(other) ==> {
                &&& self.kf() == other.kf()
                &&& self.vf() == other.vf()
                &&& self.node_size() == other.node_size()
                &&& self.pointer() == other.pointer()
                &&& self.counter() == other.counter()
                &&& self.inline() == other.inline()
            },
    {
    }

    /// Whether two values are equal.
    pub fn value_equals(&self, a: &VF::Item, b: &VF::Item) -> (r: bool)
        ensures
            r == (a@ == b@),
    {
        self.value_format.equals(a, b)
    }

    /// What tells the map from every other map in its store: two maps in different
    /// stores can have the same.
    pub fn state_id(&self) -> (r: u64)
        ensures
            r == self.pointer(),
    {
        self.root_recid_recid
    }

    /// Whether two handles over one store are of the same map.
    pub fn shares_state_with(&self, other: &Self) -> (r: bool)
        ensures
            r == (self.pointer() == other.pointer()),
    {
        self.root_recid_recid == other.root_recid_recid
    }

    pub fn key_serializer(&self) -> (r: &KF)
        ensures
            *r == self.kf(),
    {
        &self.key_format
    }

    pub fn value_serializer(&self) -> (r: &VF)
        ensures
            *r == self.vf(),
    {
        &self.value_format
    }
}

/// The records of a new map hold an empty tree.
proof fn lemma_fresh_tree<KF: KeyFormat, VF: Serializer>(
    kf: &KF,
    vf: &VF,
    inline: bool,
    a: Records,
    d: Records,
    root: u64,
    rrr: u64,
    counter: u64,
    leaf: NodeM<Model<KF>, Model<VF>>,
)
    requires
        0 < root <= i64::MAX,
        rrr != 0,
        !a.contains_key(root),
        !a.contains_key(rrr),
        root != rrr,
        counter != 0 ==> !a.contains_key(counter) && counter != root && counter != rrr,
        node_ok(kf, inline, leaf),
        node_fits(kf, vf, leaf),
        leaf.keys.len() == 0,
        !leaf.dir(),
        leaf.left(),
        leaf.right(),
        ({
            let c = a.insert(root, Some(enc_node(kf, vf, leaf))).insert(
                rrr,
                Some(LONG.enc(root as i64)),
            );
            d == if counter != 0 {
                c.insert(counter, Some(LONG.enc(0)))
            } else {
                c
            }
        }),
    ensures
        stored(kf, vf, inline, d, rrr, counter),
        stored_map(kf, vf, inline, d, rrr, counter) == Map::<Model<KF>, Model<VF>>::empty(),
        stored_tree(kf, vf, inline, d, rrr, counter).levels.len() == 1,
        sized(
            nodes_of(kf, vf, inline, d),
            stored_tree(kf, vf, inline, d, rrr, counter).levels,
            0,
        ),
        forall|x: u64| #[trigger]
            a.contains_key(x) ==> d.contains_key(x) && d[x] == a[x] && !stored_recids(
                kf,
                vf,
                inline,
                d,
                rrr,
                counter,
            ).contains(x),
{
    let owner = Map::<u64, Owner<Model<KF>>>::empty().insert(root, Owner::Level(0)).insert(
        rrr,
        Owner::RootPointer,
    );
    let owner = if counter != 0 {
        owner.insert(counter, Owner::Counter)
    } else {
        owner
    };
    let t = Tree { levels: seq![seq![(root, None::<Model<KF>>)]], offs: Seq::empty(), owner };
    let nodes = nodes_of(kf, vf, inline, d);
    let l = t.levels[0];
    lemma_nodes_write(kf, vf, inline, a, root, leaf);
    let mid = a.insert(root, Some(enc_node(kf, vf, leaf)));
    crate::btree::contents::lemma_nodes_same(kf, vf, inline, mid, d, root);
    assert(nodes[root] == leaf);
    assert(level_node(kf, inline, nodes, l, 0, false));
    assert(level_ok(kf, inline, nodes, t.levels[0], false));
    lemma_enc_dec(&LONG, root as i64);
    lemma_enc_dec(&LONG, 0i64);
    let e = level_entries(vf, d, nodes, l);
    let m = Map::<Model<KF>, Model<VF>>::empty();
    assert(is_contents(e, m));
    crate::btree::contents::lemma_level_distinct_keys(kf, vf, inline, d, nodes, l);
    lemma_contents_of(e);
    lemma_contents_unique(e, contents_of(e), m);
    assert(is_tree(kf, vf, inline, d, rrr, counter, t));
    let st = stored_tree(kf, vf, inline, d, rrr, counter);
    lemma_tree_unique(kf, vf, inline, d, rrr, counter, counter, t, st);
    assert forall|x: u64| #[trigger] a.contains_key(x) implies d.contains_key(x) && d[x] == a[x]
        && !stored_recids(kf, vf, inline, d, rrr, counter).contains(x) by {
        if crate::btree::contents::is_node(st, x) {
            let (y, z) = choose|y: int, z: int|
                0 <= y < st.levels.len() && 0 <= z < st.levels[y].len() && (
                #[trigger] st.levels[y][z]).0 == x;
            assert(st.levels[y][z] == t.levels[y][z]);
        }
    }
}

} // verus!
