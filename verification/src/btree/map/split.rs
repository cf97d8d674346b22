//! Insertion: new entries, node splits and the way of a split up the tree.

use vstd::prelude::*;
use crate::btree::contents::{
    agree, contents_of, is_contents, lemma_contents_of, lemma_contents_unique,
    lemma_level_distinct_keys, lemma_nodes_same, lemma_nodes_write, lemma_sized_split,
    level_entries, owners_ok,
    root_of, slack, tree_map, tree_ok, values_ok,
};
use crate::btree::grow::{
    left_dir, left_leaf, lemma_dir_halves, lemma_leaf_halves, lemma_leaf_split_step,
    lemma_pend_fit, lemma_pend_place, lemma_pend_root, lemma_pend_split, lemma_same_leaves,
    lemma_with_child_ok, pend_ok, right_dir, right_leaf,
};
use crate::btree::node::{
    copy_range, enc_node, lemma_flag_constants, node_fits, node_ok, BodyM, Node, NodeBody, NodeM,
    LEFT, RIGHT,
};
use crate::btree::steps::{
    lemma_counter_step, lemma_insert_step, lemma_leaf_facts, lemma_value_record, lemma_with_entry,
    with_entry,
};
use crate::btree::tree::{
    above, bounds_sorted, covers, lemma_levels_chain, lemma_levels_push, lemma_levels_same,
    lemma_levels_split, level_node, level_ok, levels_kept, levels_ok, low, nodes_of, parent_ok,
    shift_off, split_level, split_off, with_child, within, Level, Owner, Tree,
};
use crate::error::{DbError, Result};
use crate::ser::{
    all_fit, group_key_order, models, search, splits_at, KeyFormat, Model, Serializer, LONG,
};
use crate::store::{
    carried_out, item_at, keeps_state, lemma_enc_dec, opt_model, put_item, served, update_item,
    Records, Store, StoreState,
};
use super::write::{frames, spares};
use super::{left_edges_of, lookup, nested_at, path_from, path_stack, starts_at, BTreeMap};

verus! {

/// What bringing in a separator at `level` leaves alone, and what it adds.
pub open spec fn grows<K>(t: Tree<K>, t2: Tree<K>, a: Records, b: Records, level: int) -> bool {
    &&& forall|r: u64|
        #![trigger t.owner.contains_key(r)]
        #![trigger t2.owner.contains_key(r)]
        t.owner.contains_key(r) ==> t2.owner.contains_key(r) && t2.owner[r] == t.owner[r] && (!(
        t.owner[r] is RootPointer) && !(t.owner[r] matches Owner::Level(l) && l >= level) ==> agree(
            a,
            b,
            r,
        ))
    &&& forall|r: u64|
        #![trigger t2.owner.contains_key(r)]
        t2.owner.contains_key(r) ==> t.owner.contains_key(r) || !a.contains_key(r)
    &&& forall|r: u64|
        #![trigger b.contains_key(r)]
        a.contains_key(r) && !t.owner.contains_key(r) ==> agree(a, b, r)
    &&& t.levels.len() <= t2.levels.len() <= t.levels.len() + 1
    &&& forall|l: int|
        #![trigger t2.levels[l]]
        0 <= l < level && l < t.levels.len() ==> t2.levels[l] == t.levels[l]
    &&& levels_kept(t.levels, t2.levels)
}

/// A key above the low bound of a node is not covered left of that node.
proof fn lemma_not_left<KF: KeyFormat>(
    kf: &KF,
    l: Level<Model<KF>>,
    i: int,
    j: int,
    k: Model<KF>,
    k2: Model<KF>,
)
    requires
        bounds_sorted(kf, l),
        0 <= i < l.len(),
        above(kf, low(l, i), k),
        covers(kf, l, j, k),
        above(kf, low(l, j), k2),
    ensures
        i <= j,
        above(kf, low(l, i), k2),
{
    broadcast use group_key_order;

    if j < i {
        assert(l[i - 1].1 is Some);
        if j < i - 1 {
            assert(kf.lt(l[j].1.unwrap(), l[i - 1].1.unwrap()));
        }
    } else if i < j && i > 0 {
        assert(l[i - 1].1 is Some && l[j - 1].1 is Some);
        assert(kf.lt(l[i - 1].1.unwrap(), l[j - 1].1.unwrap()));
    }
}

impl<KF: KeyFormat, VF: Serializer> BTreeMap<KF, VF> {
    /// The records hold the tree of this map with entries `m`; nothing is said of the
    /// counter.
    spec fn settled(&self, records: Records, m: Map<Model<KF>, Model<VF>>) -> bool {
        &&& tree_ok(
            &self.key_format,
            &self.value_format,
            self.value_inline,
            records,
            self.root_recid_recid,
            0,
            self.tree@,
        )
        &&& self.contents(records) == m
        &&& self.handle_ok()
    }

    spec fn handle_ok(&self) -> bool {
        &&& self.left_edges@ == left_edges_of(self.tree@)
        &&& self.cached_root == 0 || self.cached_root == root_of(self.tree@)
        &&& !self.poisoned
        &&& 4 <= self.max_node_size <= 1048576
    }

    /// As [`settled`](Self::settled), but a separator has still to be brought in.
    spec fn pending(
        &self,
        records: Records,
        level: int,
        s: Level<Model<KF>>,
        c: int,
        q: u64,
        sep: Model<KF>,
        m: Map<Model<KF>, Model<VF>>,
    ) -> bool {
        let t = self.tree@;
        let nodes = self.nodes(records);
        &&& pend_ok(&self.key_format, self.value_inline, nodes, t, level, s, c, q, sep)
        &&& owners_ok(t)
        &&& forall|r: u64| #[trigger] t.owner.contains_key(r) ==> r != 0 && records.contains_key(r)
        &&& values_ok(&self.value_format, records, nodes, t.levels[0], t.owner)
        &&& is_contents(level_entries(&self.value_format, records, nodes, t.levels[0]), m)
        &&& m.dom().finite()
        &&& t.owner.contains_key(self.root_recid_recid)
        &&& t.owner[self.root_recid_recid] == Owner::<Model<KF>>::RootPointer
        &&& root_of(t) <= i64::MAX
        &&& item_at(&LONG, records, self.root_recid_recid) == Some(Some(root_of(t) as i64))
        &&& self.handle_ok()
    }

    /// The stack holds the directories on the path from `level` up.
    spec fn stack_ok(&self, stack: Seq<u64>, path: Seq<int>, level: int, sep: Model<KF>) -> bool {
        let t = self.tree@;
        let top = t.levels.len() - 1;
        &&& path.len() == t.levels.len()
        &&& stack.len() == t.levels.len() - level
        &&& forall|x: int|
            #![trigger stack[x]]
            0 <= x < stack.len() ==> stack[x] == t.levels[top - x][path[top - x]].0
        &&& forall|l: int|
            #![trigger path[l]]
            level <= l < t.levels.len() ==> 0 <= path[l] < t.levels[l].len()
        &&& forall|l: int|
            level <= l < t.levels.len() - 1 ==> #[trigger] nested_at(&self.key_format, t, path, l)
        &&& level < t.levels.len() ==> above(
            &self.key_format,
            low(t.levels[level], path[level]),
            sep,
        )
    }

    /// A pending tree whose levels are in order is settled.
    proof fn lemma_settle(&self, records: Records, m: Map<Model<KF>, Model<VF>>)
        requires
            levels_ok(&self.key_format, self.value_inline, self.nodes(records), self.tree@),
            owners_ok(self.tree@),
            forall|r: u64| #[trigger]
                self.tree@.owner.contains_key(r) ==> r != 0 && records.contains_key(r),
            values_ok(
                &self.value_format,
                records,
                self.nodes(records),
                self.tree@.levels[0],
                self.tree@.owner,
            ),
            is_contents(
                level_entries(
                    &self.value_format,
                    records,
                    self.nodes(records),
                    self.tree@.levels[0],
                ),
                m,
            ),
            m.dom().finite(),
            self.tree@.owner.contains_key(self.root_recid_recid),
            self.tree@.owner[self.root_recid_recid] == Owner::<Model<KF>>::RootPointer,
            root_of(self.tree@) <= i64::MAX,
            item_at(&LONG, records, self.root_recid_recid) == Some(
                Some(root_of(self.tree@) as i64),
            ),
            self.handle_ok(),
        ensures
            self.settled(records, m),
    {
        let nodes = self.nodes(records);
        let l = self.tree@.levels[0];
        assert(level_ok(&self.key_format, self.value_inline, nodes, self.tree@.levels[0], false));
        lemma_level_distinct_keys(
            &self.key_format,
            &self.value_format,
            self.value_inline,
            records,
            nodes,
            l,
        );
        let e = level_entries(&self.value_format, records, nodes, l);
        lemma_contents_of(e);
        lemma_contents_unique(e, contents_of(e), m);
    }

    /// The leaf and value records under a pending tree.
    proof fn lemma_pending_leaves(
        &self,
        a: Records,
        b: Records,
        level: int,
        s: Level<Model<KF>>,
        c: int,
        q: u64,
        sep: Model<KF>,
        m: Map<Model<KF>, Model<VF>>,
        owner2: Map<u64, Owner<Model<KF>>>,
    )
        requires
            self.pending(a, level, s, c, q, sep, m),
            forall|r: u64|
                #![trigger self.tree@.owner.contains_key(r)]
                #![trigger owner2.contains_key(r)]
                self.tree@.owner.contains_key(r) && (self.tree@.owner[r] is Value
                    || self.tree@.owner[r] == Owner::<Model<KF>>::Level(0)) ==> agree(a, b, r)
                    && owner2.contains_key(r) && owner2[r] == self.tree@.owner[r],
        ensures
            values_ok(&self.value_format, b, self.nodes(b), self.tree@.levels[0], owner2),
            is_contents(
                level_entries(&self.value_format, b, self.nodes(b), self.tree@.levels[0]),
                m,
            ),
    {
        let t = self.tree@;
        let l = t.levels[0];
        assert(level_ok(&self.key_format, self.value_inline, self.nodes(a), t.levels[0], false));
        assert forall|i: int| #![trigger l[i]] 0 <= i < l.len() implies t.owner.contains_key(l[i].0)
            && t.owner[l[i].0] == Owner::<Model<KF>>::Level(0) by {
            let e = t.levels[0][i];
        }
        lemma_same_leaves(
            &self.key_format,
            &self.value_format,
            self.value_inline,
            a,
            b,
            l,
            t.owner,
            owner2,
            m,
        );
    }

    /// The first node of a level.
    fn left_edge(&self, level: usize) -> (r: Result<u64>)
        ensures
            level < self.left_edges@.len() ==> r == Ok::<u64, DbError>(
                self.left_edges@[level as int],
            ),
            level >= self.left_edges@.len() ==> (r matches Err(e) && e is DataCorruption),
    {
        if level < self.left_edges.len() {
            Ok(self.left_edges[level])
        } else {
            Err(
                DbError::corrupt(
                    "btree leftEdges/level mismatch (stale structural cache); reopen the store",
                ),
            )
        }
    }

    /// Puts a new root over the two halves of the old one.
    #[verifier::spinoff_prover]
    #[verifier::rlimit(30)]
    fn grow_root<S: Store>(
        &mut self,
        store: &mut S,
        old_child: u64,
        new_child: u64,
        sep: KF::Item,
        level: usize,
        Ghost(s): Ghost<Level<Model<KF>>>,
        Ghost(m): Ghost<Map<Model<KF>, Model<VF>>>,
    ) -> (r: Result<()>)
        requires
            old(self).key_format.fits(sep@),
            old_child != 0,
            new_child != 0,
        ensures
            final(self).same_config(old(self)),
            keeps_state(old(store).state(), final(store).state()),
            final(store).state().room + 1 >= old(store).state().room,
            old(self).pending(
                old(store).state().records,
                level as int,
                s,
                0,
                new_child,
                sep@,
                m,
            ) && s[0].0 == old_child && level == old(self).tree@.levels.len() ==> {
                &&& old(store).state().writable && old(store).state().room > 0 ==> r is Ok
                &&& r is Ok ==> final(self).settled(final(store).state().records, m) && grows(
                    old(self).tree@,
                    final(self).tree@,
                    old(store).state().records,
                    final(store).state().records,
                    level as int,
                )
                &&& r is Ok && old(self).nodes_within(old(store).state().records)
                    ==> final(self).nodes_within(final(store).state().records)
                &&& spares(
                    old(store).state().records,
                    final(store).state().records,
                    old(self).tree@.owner.dom(),
                )
            },
    {
        let ghost a = store.state();
        let ghost t = self.tree@;
        let ghost good = self.pending(a.records, level as int, s, 0, new_child, sep@, m) && s[0].0
            == old_child && level == t.levels.len();
        let mut keys: Vec<KF::Item> = Vec::new();
        let ghost sepm = sep@;
        keys.push(sep);
        let mut children: Vec<u64> = Vec::new();
        children.push(old_child);
        children.push(new_child);
        let root: Node<KF, VF> = Node {
            flags: 14,
            link: 0,
            keys,
            body: NodeBody::Dir { children },
        };
        proof {
            lemma_flag_constants();
            assert(root@.keys =~= seq![sepm]);
            assert(root@.children() =~= seq![old_child, new_child]);
            assert(crate::btree::node::no_zero(root@.children()));
        }
        let root_recid: u64 = match self.store_put(store, &root) {
            Ok(r) => r,
            Err(e) => {
                return Err(e);
            },
        };
        let ghost b = store.state();
        proof {
            if good {
                assert(!t.owner.contains_key(root_recid));
                lemma_nodes_write(
                    &self.key_format,
                    &self.value_format,
                    self.value_inline,
                    a.records,
                    root_recid,
                    root@,
                );
                lemma_pend_root(
                    &self.key_format,
                    self.value_inline,
                    self.nodes(a.records),
                    self.nodes(b.records),
                    t,
                    s,
                    new_child,
                    sepm,
                    root_recid,
                    root@,
                );
            }
        }
        let pointer: i64 = #[verifier::truncate] (root_recid as i64);
        match update_item(store, self.root_recid_recid, &pointer, &LONG) {
            Ok(_) => {},
            Err(e) => {
                return Err(e);
            },
        }
        let ghost c = store.state();
        if self.root_cacheable {
            self.cached_root = root_recid;
        } else {
            self.cached_root = 0;
        }
        if self.left_edges.len() != level {
            self.poison();
            return Err(
                DbError::corrupt(
                    "btree leftEdges/level mismatch (stale structural cache); reopen the store",
                ),
            );
        }
        self.left_edges.push(root_recid);
        proof {
            if good {
                let t2 = Tree {
                    levels: t.levels.push(seq![(root_recid, None)]),
                    offs: t.offs.push(seq![0int, 2]),
                    owner: t.owner.insert(root_recid, Owner::Level(t.levels.len())),
                };
                // the root pointer is no node of the tree
                let nb = self.nodes(b.records);
                let nc = self.nodes(c.records);
                assert forall|r: u64| r != self.root_recid_recid implies #[trigger] agree(
                    b.records,
                    c.records,
                    r,
                ) by {}
                lemma_pointer_frame(
                    &self.key_format,
                    &self.value_format,
                    self.value_inline,
                    b.records,
                    c.records,
                    self.root_recid_recid,
                    t2,
                );
                old(self).lemma_pending_leaves(
                    a.records,
                    c.records,
                    level as int,
                    s,
                    0,
                    new_child,
                    sepm,
                    m,
                    t2.owner,
                );
                assert(t2.levels[0] == t.levels[0]);
                lemma_levels_push(t.levels, seq![(root_recid, None)]);
                self.tree@ = t2;
                if old(self).nodes_within(a.records) {
                    assert(self.nodes(b.records) == self.nodes(a.records).insert(root_recid, root@));
                    assert forall|x: int, y: int|
                        #![trigger t2.levels[x][y]]
                        0 <= x < t2.levels.len() && 0 <= y < t2.levels[x].len() implies nb[t2.levels[x][y].0].keys.len()
                        <= self.max_node_size by {
                        if x < t.levels.len() {
                            let e = t.levels[x][y];
                        }
                    }
                    assert(self.nodes_within(b.records));
                }
                assert forall|x: int, y: int|
                    #![trigger t2.levels[x][y]]
                    0 <= x < t2.levels.len() && 0 <= y < t2.levels[x].len() implies agree(
                    b.records,
                    c.records,
                    t2.levels[x][y].0,
                ) by {
                    assert(t2.owner.contains_key(t2.levels[x][y].0));
                }
                self.lemma_within(b.records, c.records);
                assert(root_of(t2) == root_recid);
                assert(self.left_edges@ =~= left_edges_of(t2));
                lemma_enc_dec(&LONG, pointer);
                self.lemma_settle(c.records, m);
            }
        }
        Ok(())
    }

    /// The directory of `level` that takes a separator, where the separator goes in
    /// it, and whether the directory is the root.
    fn locate_parent<S: Store>(
        &self,
        store: &S,
        sep: &KF::Item,
        stack: &mut Vec<u64>,
        level: usize,
        Ghost(s): Ghost<Level<Model<KF>>>,
        Ghost(c): Ghost<int>,
        Ghost(q): Ghost<u64>,
        Ghost(path): Ghost<Seq<int>>,
        Ghost(m): Ghost<Map<Model<KF>, Model<VF>>>,
    ) -> (r: Result<(Node<KF, VF>, u64, usize, bool, Ghost<int>)>)
        ensures
            r is Ok ==> final(stack)@.len() + 1 == old(stack)@.len() || (old(stack)@.len() == 0
                && final(stack)@.len() == 0 && level < self.left_edges@.len()),
            old(stack)@.len() > 0 ==> final(stack)@ == old(stack)@.drop_last(),
            r matches Ok((n, id, ip, root, j)) ==> {
                &&& id != 0
                &&& node_ok(&self.key_format, self.value_inline, n@)
                &&& node_fits(&self.key_format, &self.value_format, n@)
                &&& n@.dir()
                &&& splits_at(&self.key_format, n@.keys, sep@, ip as int)
                &&& ip < n@.children().len()
            },
            self.pending(store.state().records, level as int, s, c, q, sep@, m) && self.stack_ok(
                old(stack)@,
                path,
                level as int,
                sep@,
            ) && level < self.tree@.levels.len() ==> served(store.state(), r) && (r matches Ok(
                (n, id, ip, root, j),
            ) ==> {
                let p = self.tree@.levels[level as int];
                &&& covers(&self.key_format, p, j@, sep@)
                &&& p[j@].0 == id
                &&& n@ == self.nodes(store.state().records)[id]
                &&& self.tree@.offs[level - 1][j@] + ip == c
                &&& root == (level == self.tree@.levels.len() - 1)
                &&& store.state().records.contains_key(id)
                &&& self.tree@.owner.contains_key(id)
                &&& self.tree@.owner[id] == Owner::<Model<KF>>::Level(level as nat)
                &&& bounds_sorted(&self.key_format, p)
            }),
    {
        let ghost records = store.state().records;
        let ghost t = self.tree@;
        let ghost nodes = self.nodes(records);
        let ghost good = self.pending(records, level as int, s, c, q, sep@, m) && self.stack_ok(
            stack@,
            path,
            level as int,
            sep@,
        ) && level < t.levels.len();
        let ghost p = t.levels[level as int];
        let ghost stack0 = stack@;
        let start: u64 = match stack.pop() {
            Some(x) => x,
            None => match self.left_edge(level) {
                Ok(x) => x,
                Err(e) => {
                    return Err(e);
                },
            },
        };
        assert(stack0.len() > 0 ==> stack@ =~= stack0.drop_last());
        proof {
            if good {
                assert(level_ok(
                    &self.key_format,
                    self.value_inline,
                    nodes,
                    t.levels[level as int],
                    level > 0,
                ));
                let last = stack0[stack0.len() - 1];
                assert(start == p[path[level as int]].0);
            }
        }
        let (n, current) = match self.covering_node(
            store,
            start,
            sep,
            true,
            Ghost(p),
            Ghost(path[level as int]),
        ) {
            Ok(x) => x,
            Err(e) => {
                return Err(e);
            },
        };
        let ghost j = choose|j: int|
            #![trigger p[j]]
            covers(&self.key_format, p, j, sep@) && p[j].0 == current;
        proof {
            if good {
                self.lemma_is_root(records, level as int, s, c, q, sep@, m, j);
                let e = t.levels[level as int][j];
                assert(t.owner.contains_key(e.0));
            }
        }
        let mut current_is_root = false;
        if n.is_left() && n.is_right() {
            match self.is_current_root(store, current) {
                Ok(b) => {
                    current_is_root = b;
                },
                Err(e) => {
                    return Err(e);
                },
            }
        }
        if !n.is_dir() {
            return Err(DbError::corrupt("propagate reached a leaf node"));
        }
        match search(&self.key_format, &n.keys, sep) {
            Ok(x) => {
                proof {
                    if good {
                        lemma_pend_place(
                            &self.key_format,
                            self.value_inline,
                            nodes,
                            t,
                            level as int,
                            s,
                            c,
                            q,
                            sep@,
                            j,
                            x as int,
                        );
                        self.key_format.lt_irreflexive(sep@);
                        assert(nodes[p[j].0].keys[x as int] == sep@);
                        assert(false);
                    }
                }
                Err(DbError::corrupt("duplicate parent separator"))
            },
            Err(ip) => {
                proof {
                    if good {
                        lemma_pend_place(
                            &self.key_format,
                            self.value_inline,
                            nodes,
                            t,
                            level as int,
                            s,
                            c,
                            q,
                            sep@,
                            j,
                            ip as int,
                        );
                    }
                }
                if ip >= n.children().len() {
                    return Err(DbError::corrupt("separator beyond its directory"));
                }
                Ok((n, current, ip, current_is_root, Ghost(j)))
            },
        }
    }

    /// Puts a separator and its child into a directory. A full directory is split:
    /// the answer is then the right half and the separator of the two halves.
    #[verifier::spinoff_prover]
    #[verifier::rlimit(40)]
    fn insert_separator<S: Store>(
        &mut self,
        store: &mut S,
        n: Node<KF, VF>,
        current: u64,
        ip: usize,
        sep: &KF::Item,
        new_child: u64,
        Ghost(level): Ghost<int>,
        Ghost(s): Ghost<Level<Model<KF>>>,
        Ghost(c): Ghost<int>,
        Ghost(j): Ghost<int>,
        Ghost(m): Ghost<Map<Model<KF>, Model<VF>>>,
    ) -> (r: Result<Option<(u64, KF::Item)>>)
        requires
            current != 0,
            new_child != 0,
            old(self).key_format.fits(sep@),
            node_ok(&old(self).key_format, old(self).value_inline, n@),
            node_fits(&old(self).key_format, &old(self).value_format, n@),
            n@.dir(),
            splits_at(&old(self).key_format, n@.keys, sep@, ip as int),
            ip < n@.children().len(),
        ensures
            final(self).same_config(old(self)),
            final(self).left_edges@ == old(self).left_edges@,
            keeps_state(old(store).state(), final(store).state()),
            final(store).state().room + 1 >= old(store).state().room,
            r matches Ok(Some((q, k))) ==> q != 0 && final(self).key_format.fits(k@),
            old(self).pending(old(store).state().records, level, s, c, new_child, sep@, m) && level
                < old(self).tree@.levels.len() && 0 <= j < old(self).tree@.levels[level].len()
                    && old(
                self,
            ).tree@.levels[level][j].0 == current && n@ == old(self).nodes(
                old(store).state().records,
            )[current] && old(self).tree@.offs[level - 1][j] + ip == c && old(
                store,
            ).state().records.contains_key(current) && old(self).tree@.owner.contains_key(current)
                && old(self).tree@.owner[current] == Owner::<Model<KF>>::Level(level as nat) ==> {
                let p = old(self).tree@.levels[level];
                let t = old(self).tree@;
                let t2 = final(self).tree@;
                let a = old(store).state().records;
                let b = final(store).state().records;
                &&& old(store).state().writable && old(store).state().room > 0 ==> r is Ok
                &&& r is Ok && old(self).nodes_within(a) ==> final(self).nodes_within(b)
                &&& spares(a, b, t.owner.dom())
                &&& r matches Ok(None) ==> final(self).settled(b, m) && grows(t, t2, a, b, level)
                &&& r matches Ok(Some((q, k))) ==> {
                    &&& final(self).pending(b, level + 1, p, j, q, k@, m)
                    &&& above(&old(self).key_format, low(p, j), k@)
                    &&& t2.owner == t.owner.insert(q, Owner::Level(level as nat))
                    &&& t2.levels == t.levels.update(level, split_level(p, j, q, k@))
                    &&& !t.owner.contains_key(q)
                    &&& !a.contains_key(q)
                    &&& forall|x: u64| x != q && x != current ==> #[trigger] agree(a, b, x)
                }
            },
    {
        let ghost a = store.state();
        let ghost t = self.tree@;
        let ghost nodes = self.nodes(a.records);
        let ghost nm = n@;
        let ghost p = t.levels[level];
        let ghost off = t.offs[level - 1];
        let ghost good = self.pending(a.records, level, s, c, new_child, sep@, m) && level
            < t.levels.len() && 0 <= j < p.len() && p[j].0 == current && nm == nodes[current]
            && off[j] + ip == c && a.records.contains_key(current) && t.owner.contains_key(current)
            && t.owner[current] == Owner::<Model<KF>>::Level(level as nat);
        let Node { flags, link, keys, body } = n;
        let mut keys = keys;
        let mut children = match body {
            NodeBody::Dir { children } => children,
            NodeBody::Leaf { .. } => {
                return Err(DbError::corrupt("propagate reached a leaf node"));
            },
            NodeBody::ExternalLeaf { .. } => {
                return Err(DbError::corrupt("propagate reached a leaf node"));
            },
        };
        let ghost n2 = with_child(nm, ip as int, sep@, new_child);
        proof {
            lemma_with_child_ok(
                &self.key_format,
                self.value_inline,
                nm,
                ip as int,
                sep@,
                new_child,
            );
        }
        keys.insert(ip, self.key_format.dup(sep));
        children.insert(ip + 1, new_child);
        assert(models(keys@) =~= n2.keys);
        assert(children@ =~= n2.children());
        assert(all_fit(&self.key_format, n2.keys));
        let keys_len: usize = keys.len();
        if (keys_len <= self.max_node_size || keys_len < 2) && keys_len < 0x1000_0000 {
            let updated: Node<KF, VF> = Node { flags, link, keys, body: NodeBody::Dir { children } };
            assert(updated@ == n2);
            match self.store_update(store, current, &updated) {
                Ok(_) => {},
                Err(e) => {
                    return Err(e);
                },
            }
            proof {
                if good {
                    self.lemma_fitted(
                        a.records,
                        store.state().records,
                        level,
                        s,
                        c,
                        new_child,
                        sep@,
                        m,
                        j,
                        ip as int,
                    );
                    self.tree@ = Tree {
                        levels: t.levels,
                        offs: t.offs.update(level - 1, shift_off(off, j)),
                        owner: t.owner,
                    };
                    assert(left_edges_of(self.tree@) =~= left_edges_of(t));
                    self.lemma_settle(store.state().records, m);
                    lemma_nodes_write(
                        &self.key_format,
                        &self.value_format,
                        self.value_inline,
                        a.records,
                        current,
                        n2,
                    );
                    if old(self).nodes_within(a.records) {
                        let nb = self.nodes(store.state().records);
                        assert forall|x: int, y: int|
                            #![trigger t.levels[x][y]]
                            0 <= x < t.levels.len() && 0 <= y < t.levels[x].len()
                                implies nb[t.levels[x][y].0].keys.len() <= self.max_node_size by {}
                    }
                }
            }
            return Ok(None);
        }
        let h: usize = keys_len / 2;
        let ghost sep2m = n2.keys[h - 1];
        let right_node: Node<KF, VF> = Node {
            flags: flags & !LEFT,
            link,
            keys: copy_range(&self.key_format, &keys, h, keys_len),
            body: NodeBody::Dir { children: copy_u64(&children, h, children.len()) },
        };
        proof {
            lemma_dir_halves(&self.key_format, self.value_inline, n2, h as int, 1);
            assert(right_node@.keys =~= n2.keys.skip(h as int));
            assert(right_node@.children() =~= n2.children().skip(h as int));
            assert(right_node@ == right_dir(n2, h as int));
        }
        let q: u64 = match self.store_put(store, &right_node) {
            Ok(q) => q,
            Err(e) => {
                return Err(e);
            },
        };
        let parent_sep = self.key_format.dup(&keys[h - 1]);
        let left_node: Node<KF, VF> = Node {
            flags: flags & !RIGHT,
            link: q,
            keys: copy_range(&self.key_format, &keys, 0, h),
            body: NodeBody::Dir { children: copy_u64(&children, 0, h) },
        };
        proof {
            lemma_dir_halves(&self.key_format, self.value_inline, n2, h as int, q);
            assert(left_node@.keys =~= n2.keys.take(h as int));
            assert(left_node@.children() =~= n2.children().take(h as int));
            assert(left_node@ == left_dir(n2, h as int, q));
            assert(parent_sep@ == models(keys@)[h - 1]);
            assert(self.key_format.fits(n2.keys[h - 1]));
        }
        match self.store_update(store, current, &left_node) {
            Ok(_) => {},
            Err(e) => {
                return Err(e);
            },
        }
        proof {
            if good {
                self.lemma_divided(
                    a.records,
                    store.state().records,
                    level,
                    s,
                    c,
                    new_child,
                    sep@,
                    m,
                    j,
                    ip as int,
                    h as int,
                    q,
                );
                self.tree@ = Tree {
                    levels: t.levels.update(level, split_level(p, j, q, sep2m)),
                    offs: t.offs.update(level - 1, split_off(shift_off(off, j), j, h as int)),
                    owner: t.owner.insert(q, Owner::Level(level as nat)),
                };
                assert(left_edges_of(self.tree@) =~= left_edges_of(t));
                assert(root_of(self.tree@) == root_of(t));
                assert(self.tree@.levels[0] == t.levels[0]);
                assert(self.pending(store.state().records, level + 1, p, j, q, sep2m, m));
                lemma_nodes_write(
                    &self.key_format,
                    &self.value_format,
                    self.value_inline,
                    a.records,
                    q,
                    right_node@,
                );
                lemma_nodes_write(
                    &self.key_format,
                    &self.value_format,
                    self.value_inline,
                    a.records.insert(
                        q,
                        Some(enc_node(&self.key_format, &self.value_format, right_node@)),
                    ),
                    current,
                    left_node@,
                );
                if old(self).nodes_within(a.records) {
                    let e = t.levels[level][j];
                    lemma_sized_split(
                        nodes,
                        t.levels,
                        self.max_node_size as nat,
                        level,
                        j,
                        q,
                        sep2m,
                        left_node@,
                        right_node@,
                    );
                }
            }
        }
        Ok(Some((q, parent_sep)))
    }

    /// The tree after a directory took a separator.
    #[verifier::spinoff_prover]
    proof fn lemma_fitted(
        &self,
        a: Records,
        b: Records,
        level: int,
        s: Level<Model<KF>>,
        c: int,
        q: u64,
        sep: Model<KF>,
        m: Map<Model<KF>, Model<VF>>,
        j: int,
        ip: int,
    )
        requires
            self.pending(a, level, s, c, q, sep, m),
            level < self.tree@.levels.len(),
            0 <= j < self.tree@.levels[level].len(),
            self.tree@.offs[level - 1][j] + ip == c,
            0 <= ip < self.nodes(a)[self.tree@.levels[level][j].0].children().len(),
            ({
                let id = self.tree@.levels[level][j].0;
                let n2 = with_child(self.nodes(a)[id], ip, sep, q);
                &&& id != 0
                &&& a.contains_key(id)
                &&& self.tree@.owner.contains_key(id)
                &&& self.tree@.owner[id] == Owner::<Model<KF>>::Level(level as nat)
                &&& node_ok(&self.key_format, self.value_inline, n2)
                &&& node_fits(&self.key_format, &self.value_format, n2)
                &&& b == a.insert(id, Some(enc_node(&self.key_format, &self.value_format, n2)))
            }),
        ensures
            ({
                let t = self.tree@;
                let t2 = Tree {
                    levels: t.levels,
                    offs: t.offs.update(level - 1, shift_off(t.offs[level - 1], j)),
                    owner: t.owner,
                };
                &&& levels_ok(&self.key_format, self.value_inline, self.nodes(b), t2)
                &&& owners_ok(t2)
                &&& values_ok(&self.value_format, b, self.nodes(b), t.levels[0], t.owner)
                &&& is_contents(
                    level_entries(&self.value_format, b, self.nodes(b), t.levels[0]),
                    m,
                )
                &&& grows(t, t2, a, b, level)
                &&& item_at(&LONG, b, self.root_recid_recid) == item_at(
                    &LONG,
                    a,
                    self.root_recid_recid,
                )
            }),
    {
        let t = self.tree@;
        let id = t.levels[level][j].0;
        let nodes = self.nodes(a);
        let n2 = with_child(nodes[id], ip, sep, q);
        lemma_nodes_write(
            &self.key_format,
            &self.value_format,
            self.value_inline,
            a,
            id,
            n2,
        );
        lemma_pend_fit(
            &self.key_format,
            self.value_inline,
            nodes,
            self.nodes(b),
            t,
            level,
            s,
            c,
            q,
            sep,
            j,
            ip,
        );
        self.lemma_pending_leaves(a, b, level, s, c, q, sep, m, t.owner);
        let t2 = Tree {
            levels: t.levels,
            offs: t.offs.update(level - 1, shift_off(t.offs[level - 1], j)),
            owner: t.owner,
        };
        assert forall|l: int, x: int|
            #![trigger t2.levels[l][x]]
            0 <= l < t2.levels.len() && 0 <= x < t2.levels[l].len() implies t2.owner.contains_key(
            t2.levels[l][x].0,
        ) && t2.owner[t2.levels[l][x].0] == Owner::<Model<KF>>::Level(l as nat) by {
            let e = t.levels[l][x];
        }
        lemma_levels_same(t.levels);
    }

    /// The tree after a full directory took a separator and was split.
    #[verifier::spinoff_prover]
    proof fn lemma_divided(
        &self,
        a: Records,
        b: Records,
        level: int,
        s: Level<Model<KF>>,
        c: int,
        q: u64,
        sep: Model<KF>,
        m: Map<Model<KF>, Model<VF>>,
        j: int,
        ip: int,
        h: int,
        q2: u64,
    )
        requires
            self.pending(a, level, s, c, q, sep, m),
            level < self.tree@.levels.len(),
            0 <= j < self.tree@.levels[level].len(),
            self.tree@.offs[level - 1][j] + ip == c,
            0 <= ip < self.nodes(a)[self.tree@.levels[level][j].0].children().len(),
            q2 != 0,
            !a.contains_key(q2),
            ({
                let id = self.tree@.levels[level][j].0;
                let n2 = with_child(self.nodes(a)[id], ip, sep, q);
                let na = left_dir(n2, h, q2);
                let nb = right_dir(n2, h);
                &&& 0 < h < n2.keys.len()
                &&& id != 0
                &&& a.contains_key(id)
                &&& self.tree@.owner.contains_key(id)
                &&& self.tree@.owner[id] == Owner::<Model<KF>>::Level(level as nat)
                &&& node_ok(&self.key_format, self.value_inline, na)
                &&& node_ok(&self.key_format, self.value_inline, nb)
                &&& node_fits(&self.key_format, &self.value_format, na)
                &&& node_fits(&self.key_format, &self.value_format, nb)
                &&& b == a.insert(
                    q2,
                    Some(enc_node(&self.key_format, &self.value_format, nb)),
                ).insert(id, Some(enc_node(&self.key_format, &self.value_format, na)))
            }),
        ensures
            ({
                let t = self.tree@;
                let p = t.levels[level];
                let n2 = with_child(self.nodes(a)[p[j].0], ip, sep, q);
                let sep2 = n2.keys[h - 1];
                let t2 = Tree {
                    levels: t.levels.update(level, split_level(p, j, q2, sep2)),
                    offs: t.offs.update(
                        level - 1,
                        split_off(shift_off(t.offs[level - 1], j), j, h),
                    ),
                    owner: t.owner.insert(q2, Owner::Level(level as nat)),
                };
                &&& pend_ok(
                    &self.key_format,
                    self.value_inline,
                    self.nodes(b),
                    t2,
                    level + 1,
                    p,
                    j,
                    q2,
                    sep2,
                )
                &&& owners_ok(t2)
                &&& values_ok(&self.value_format, b, self.nodes(b), t.levels[0], t2.owner)
                &&& is_contents(
                    level_entries(&self.value_format, b, self.nodes(b), t.levels[0]),
                    m,
                )
                &&& item_at(&LONG, b, self.root_recid_recid) == item_at(
                    &LONG,
                    a,
                    self.root_recid_recid,
                )
                &&& !t.owner.contains_key(q2)
                &&& forall|x: u64| x != q2 && x != p[j].0 ==> #[trigger] agree(a, b, x)
            }),
    {
        let t = self.tree@;
        let p = t.levels[level];
        let id = p[j].0;
        let nodes = self.nodes(a);
        let n2 = with_child(nodes[id], ip, sep, q);
        let na = left_dir(n2, h, q2);
        let nb = right_dir(n2, h);
        let mid = a.insert(q2, Some(enc_node(&self.key_format, &self.value_format, nb)));
        assert(!t.owner.contains_key(q2)) by {
            if t.owner.contains_key(q2) {
                assert(a.contains_key(q2));
            }
        }
        lemma_nodes_write(
            &self.key_format,
            &self.value_format,
            self.value_inline,
            a,
            q2,
            nb,
        );
        lemma_nodes_write(
            &self.key_format,
            &self.value_format,
            self.value_inline,
            mid,
            id,
            na,
        );
        lemma_pend_split(
            &self.key_format,
            self.value_inline,
            nodes,
            self.nodes(b),
            t,
            level,
            s,
            c,
            q,
            sep,
            j,
            ip,
            h,
            q2,
            na,
            nb,
        );
        self.lemma_pending_leaves(
            a,
            b,
            level,
            s,
            c,
            q,
            sep,
            m,
            t.owner.insert(q2, Owner::Level(level as nat)),
        );
    }

    /// Brings the separator of a split into the level above, and splits on up to the
    /// root where directories are full.
    fn propagate_split<S: Store>(
        &mut self,
        store: &mut S,
        old_child: u64,
        new_child: u64,
        sep: KF::Item,
        child_was_root: bool,
        stack: &mut Vec<u64>,
        level: usize,
        Ghost(s): Ghost<Level<Model<KF>>>,
        Ghost(c): Ghost<int>,
        Ghost(path): Ghost<Seq<int>>,
        Ghost(m): Ghost<Map<Model<KF>, Model<VF>>>,
    ) -> (r: Result<()>)
        requires
            old(self).key_format.fits(sep@),
            old_child != 0,
            new_child != 0,
        ensures
            final(self).same_config(old(self)),
            keeps_state(old(store).state(), final(store).state()),
            old(self).pending(
                old(store).state().records,
                level as int,
                s,
                c,
                new_child,
                sep@,
                m,
            ) && s[c].0 == old_child && old(self).stack_ok(old(stack)@, path, level as int, sep@)
                && child_was_root == (level == old(self).tree@.levels.len()) ==> {
                &&& old(store).state().room > old(self).tree@.levels.len() - level ==> carried_out(
                    old(store).state(),
                    r,
                )
                &&& r is Ok && old(self).nodes_within(old(store).state().records)
                    ==> final(self).nodes_within(final(store).state().records)
                &&& spares(
                    old(store).state().records,
                    final(store).state().records,
                    old(self).tree@.owner.dom(),
                )
                &&& r is Ok ==> final(self).settled(final(store).state().records, m)
                &&& r is Ok ==> grows(
                    old(self).tree@,
                    final(self).tree@,
                    old(store).state().records,
                    final(store).state().records,
                    level as int,
                )
                &&& r is Ok ==> final(store).state().room + old(self).tree@.levels.len() - level + 1
                    >= old(store).state().room
            },
        decreases
            old(stack)@.len() + if old(self).left_edges@.len() > level {
                old(self).left_edges@.len() - level
            } else {
                0
            },
    {
        let ghost a = store.state();
        let ghost t = self.tree@;
        let ghost good = self.pending(a.records, level as int, s, c, new_child, sep@, m) && s[c].0
            == old_child && self.stack_ok(stack@, path, level as int, sep@) && child_was_root == (
        level == t.levels.len());
        if child_was_root {
            assert(good ==> c == 0);
            return self.grow_root(
                store,
                old_child,
                new_child,
                sep,
                level,
                Ghost(s),
                Ghost(m),
            );
        }
        let ghost p = t.levels[level as int];
        let ghost stack0 = stack@;
        let (n, current, ip, current_is_root, j) = match self.locate_parent(
            store,
            &sep,
            stack,
            level,
            Ghost(s),
            Ghost(c),
            Ghost(new_child),
            Ghost(path),
            Ghost(m),
        ) {
            Ok(x) => x,
            Err(e) => {
                return Err(e);
            },
        };
        let split = match self.insert_separator(
            store,
            n,
            current,
            ip,
            &sep,
            new_child,
            Ghost(level as int),
            Ghost(s),
            Ghost(c),
            Ghost(j@),
            Ghost(m),
        ) {
            Ok(x) => x,
            Err(e) => {
                return Err(e);
            },
        };
        match split {
            None => Ok(()),
            Some((q, parent_sep)) => {
                let ghost b = store.state();
                let ghost t2 = self.tree@;
                proof {
                    if good {
                        old(self).lemma_next_stack(
                            stack0,
                            stack@,
                            path,
                            level as int,
                            sep@,
                            t2,
                            j@,
                            q,
                            parent_sep@,
                        );
                        assert(self.stack_ok(stack@, path, level + 1, parent_sep@));
                    }
                }
                let edges: usize = self.left_edges.len();
                assert(good ==> level < edges);
                if level == usize::MAX {
                    return Err(
                        DbError::corrupt(
                            "btree leftEdges/level mismatch (stale structural cache); reopen the store",
                        ),
                    );
                }
                let r = self.propagate_split(
                    store,
                    current,
                    q,
                    parent_sep,
                    current_is_root,
                    stack,
                    level + 1,
                    Ghost(p),
                    Ghost(j@),
                    Ghost(path),
                    Ghost(m),
                );
                proof {
                    if good {
                        let d = store.state().records;
                        let owned = t.owner.dom();
                        assert forall|x: u64| #[trigger]
                            a.records.contains_key(x) && !owned.contains(x) implies d.contains_key(x)
                            && d[x] == a.records[x] by {
                            assert(agree(a.records, b.records, x));
                            assert(b.records.contains_key(x));
                            assert(!t2.owner.dom().contains(x));
                        }
                    }
                    if good && r is Ok {
                        lemma_levels_split(t.levels, level as int, j@, q, parent_sep@);
                        lemma_grows_chain(
                            t,
                            t2,
                            self.tree@,
                            a.records,
                            b.records,
                            store.state().records,
                            level as int,
                            q,
                            current,
                        );
                    }
                }
                r
            },
        }
    }

    /// Whether the node that takes the separator is the root.
    proof fn lemma_is_root(
        &self,
        records: Records,
        level: int,
        s: Level<Model<KF>>,
        c: int,
        q: u64,
        sep: Model<KF>,
        m: Map<Model<KF>, Model<VF>>,
        j: int,
    )
        requires
            self.pending(records, level, s, c, q, sep, m),
            level < self.tree@.levels.len(),
            0 <= j < self.tree@.levels[level].len(),
        ensures
            ({
                let id = self.tree@.levels[level][j].0;
                let n = self.nodes(records)[id];
                &&& id == root_of(self.tree@) <==> level == self.tree@.levels.len() - 1
                &&& level == self.tree@.levels.len() - 1 ==> n.left() && n.right()
                &&& n.dir()
                &&& id != 0
                &&& records.contains_key(id)
                &&& root_of(self.tree@) > 0
            }),
    {
        let t = self.tree@;
        let top = t.levels.len() - 1;
        let nodes = self.nodes(records);
        assert(level_ok(&self.key_format, self.value_inline, nodes, t.levels[level], level > 0));
        assert(level_node(&self.key_format, self.value_inline, nodes, t.levels[level], j, true));
        let e = t.levels[level][j];
        let r = t.levels[top][0];
        assert(level_ok(&self.key_format, self.value_inline, nodes, t.levels[top], top > 0));
        assert(t.owner[e.0] == Owner::<Model<KF>>::Level(level as nat));
        assert(t.owner[r.0] == Owner::<Model<KF>>::Level(top as nat));
        assert(t.owner.contains_key(r.0));
    }

    /// The stack for the next level up.
    proof fn lemma_next_stack(
        &self,
        stack0: Seq<u64>,
        stack: Seq<u64>,
        path: Seq<int>,
        level: int,
        sep: Model<KF>,
        t2: Tree<Model<KF>>,
        j: int,
        q: u64,
        sep2: Model<KF>,
    )
        requires
            self.stack_ok(stack0, path, level, sep),
            0 <= level < self.tree@.levels.len(),
            stack == stack0.drop_last(),
            bounds_sorted(&self.key_format, self.tree@.levels[level]),
            covers(&self.key_format, self.tree@.levels[level], j, sep),
            above(&self.key_format, low(self.tree@.levels[level], j), sep2),
            t2.levels == self.tree@.levels.update(
                level,
                split_level(self.tree@.levels[level], j, q, sep2),
            ),
        ensures
            forall|map: Self|
                #![trigger map.stack_ok(stack, path, level + 1, sep2)]
                map.tree@ == t2 && map.key_format == self.key_format ==> map.stack_ok(
                    stack,
                    path,
                    level + 1,
                    sep2,
                ),
    {
        broadcast use group_key_order;

        let t = self.tree@;
        let top = t.levels.len() - 1;
        assert forall|map: Self|
            #![trigger map.stack_ok(stack, path, level + 1, sep2)]
            map.tree@ == t2 && map.key_format == self.key_format implies map.stack_ok(
            stack,
            path,
            level + 1,
            sep2,
        ) by {
            assert forall|x: int| #![trigger stack[x]] 0 <= x < stack.len() implies stack[x]
                == t2.levels[top - x][path[top - x]].0 by {
                assert(stack[x] == stack0[x]);
            }
            assert forall|l: int| level + 1 <= l < t2.levels.len() - 1 implies #[trigger] nested_at(
                &self.key_format,
                t2,
                path,
                l,
            ) by {
                assert(nested_at(&self.key_format, t, path, l));
            }
            if level + 1 < t.levels.len() {
                assert(nested_at(&self.key_format, t, path, level));
                lemma_not_left(&self.key_format, t.levels[level], path[level], j, sep, sep2);
            }
        }
    }

    /// A leaf with one entry too many is about to be split: `mid` is what the records
    /// would be if the leaf `n2` were written whole.
    spec fn split_ready(
        &self,
        a: StoreState,
        current: u64,
        n2: NodeM<Model<KF>, Model<VF>>,
        was_root: bool,
        stack: Seq<u64>,
        mid: Records,
        i: int,
        path: Seq<int>,
        m: Map<Model<KF>, Model<VF>>,
    ) -> bool {
        let t = self.tree@;
        let l = t.levels[0];
        &&& tree_ok(
            &self.key_format,
            &self.value_format,
            self.value_inline,
            mid,
            self.root_recid_recid,
            0,
            t,
        )
        &&& self.contents(mid) == m
        &&& mid == a.records.insert(
            current,
            Some(enc_node(&self.key_format, &self.value_format, n2)),
        )
        &&& a.records.contains_key(current)
        &&& 0 <= i < l.len()
        &&& l[i].0 == current
        &&& self.nodes(mid)[current] == n2
        &&& was_root == (t.levels.len() == 1)
        &&& path_ready(&self.key_format, t, stack, path, i)
        &&& self.handle_ok()
        &&& n2.keys.len() <= 0x0fff_ffff
        &&& forall|x: int|
            #![trigger l[x]]
            0 <= x < l.len() && x != i ==> self.nodes(mid)[l[x].0].keys.len() < 0x0fff_ffff
        &&& self.counter_recid != 0 ==> {
            &&& t.owner.contains_key(self.counter_recid)
            &&& t.owner[self.counter_recid] is Counter
            &&& 0 < m.len() <= i64::MAX
            &&& item_at(&LONG, a.records, self.counter_recid) == Some(Some((m.len() - 1) as i64))
        }
    }

    /// The tree after the two halves of a leaf were written.
    #[verifier::spinoff_prover]
    proof fn lemma_split_done(
        &self,
        a: StoreState,
        b: Records,
        current: u64,
        n2: NodeM<Model<KF>, Model<VF>>,
        was_root: bool,
        stack: Seq<u64>,
        mid: Records,
        i: int,
        path: Seq<int>,
        m: Map<Model<KF>, Model<VF>>,
        h: int,
        q: u64,
    )
        requires
            self.split_ready(a, current, n2, was_root, stack, mid, i, path, m),
            0 < h < n2.keys.len(),
            q != 0,
            !a.records.contains_key(q),
            node_fits(&self.key_format, &self.value_format, left_leaf(n2, h, q)),
            node_fits(&self.key_format, &self.value_format, right_leaf(n2, h)),
            b == a.records.insert(
                q,
                Some(enc_node(&self.key_format, &self.value_format, right_leaf(n2, h))),
            ).insert(
                current,
                Some(enc_node(&self.key_format, &self.value_format, left_leaf(n2, h, q))),
            ),
        ensures
            ({
                let t = self.tree@;
                let sep = n2.keys[h - 1];
                let t2 = Tree {
                    levels: t.levels.update(0, split_level(t.levels[0], i, q, sep)),
                    offs: t.offs,
                    owner: t.owner.insert(q, Owner::Level(0)),
                };
                &&& forall|map: Self|
                    #![trigger map.pending(b, 1, t.levels[0], i, q, sep, m)]
                    map.tree@ == t2 && map.same_config(self) && map.handle_ok() ==> map.pending(
                        b,
                        1,
                        t.levels[0],
                        i,
                        q,
                        sep,
                        m,
                    )
                &&& slack(self.nodes(b), t2.levels[0])
                &&& !t.owner.contains_key(q)
                &&& self.counter_recid != 0 ==> agree(a.records, b, self.counter_recid)
            }),
    {
        let t = self.tree@;
        let l = t.levels[0];
        let sep = n2.keys[h - 1];
        let na = left_leaf(n2, h, q);
        let nb = right_leaf(n2, h);
        let t2 = Tree {
            levels: t.levels.update(0, split_level(t.levels[0], i, q, sep)),
            offs: t.offs,
            owner: t.owner.insert(q, Owner::Level(0)),
        };
        assert(!t.owner.contains_key(q)) by {
            if t.owner.contains_key(q) {
                assert(mid.contains_key(q));
            }
        }
        lemma_leaf_facts(
            &self.key_format,
            &self.value_format,
            self.value_inline,
            mid,
            self.root_recid_recid,
            0,
            t,
            i,
        );
        let enc_a = Some(enc_node(&self.key_format, &self.value_format, na));
        let enc_b = Some(enc_node(&self.key_format, &self.value_format, nb));
        assert(b =~= mid.insert(q, enc_b).insert(current, enc_a));
        lemma_leaf_split_step(
            &self.key_format,
            &self.value_format,
            self.value_inline,
            mid,
            b,
            self.root_recid_recid,
            t,
            i,
            h,
            q,
        );
        lemma_leaf_halves(&self.key_format, self.value_inline, n2, h, q);
        lemma_nodes_write(
            &self.key_format,
            &self.value_format,
            self.value_inline,
            mid,
            q,
            nb,
        );
        lemma_nodes_write(
            &self.key_format,
            &self.value_format,
            self.value_inline,
            mid.insert(q, enc_b),
            current,
            na,
        );
        let l2 = t2.levels[0];
        assert forall|x: int| #![trigger l2[x]] 0 <= x < l2.len()
            implies self.nodes(b)[l2[x].0].keys.len()
            < 0x0fff_ffff by {
            if x == i {
            } else if x == i + 1 {
            } else {
                let ox = if x < i {
                    x
                } else {
                    x - 1
                };
                let e = t.levels[0][ox];
                assert(t.owner.contains_key(e.0));
                assert(l2[x] == l[ox]);
                if l[ox].0 == current {
                    crate::btree::tree::lemma_level_distinct(
                        &self.key_format,
                        self.value_inline,
                        self.nodes(mid),
                        l,
                        false,
                        ox,
                        i,
                    );
                }
            }
        }
        assert(root_of(t2) == root_of(t)) by {
            if t.levels.len() == 1 {
                assert(t2.levels.last()[0].0 == l[0].0);
            }
        }
        assert(item_at(&LONG, b, self.root_recid_recid) == item_at(
            &LONG,
            mid,
            self.root_recid_recid,
        ));
    }

    /// Writing the counter leaves a pending tree as it is.
    proof fn lemma_pending_counter(
        &self,
        b: Records,
        c: Records,
        s: Level<Model<KF>>,
        i: int,
        q: u64,
        sep: Model<KF>,
        m: Map<Model<KF>, Model<VF>>,
    )
        requires
            self.pending(b, 1, s, i, q, sep, m),
            slack(self.nodes(b), self.tree@.levels[0]),
            self.counter_recid != 0,
            self.tree@.owner.contains_key(self.counter_recid),
            self.tree@.owner[self.counter_recid] is Counter,
            exists|x: Option<Seq<u8>>| c == #[trigger] b.insert(self.counter_recid, x),
        ensures
            self.pending(c, 1, s, i, q, sep, m),
            slack(self.nodes(c), self.tree@.levels[0]),
            self.nodes_within(b) ==> self.nodes_within(c),
    {
        let t = self.tree@;
        let nb = self.nodes(b);
        let nc = self.nodes(c);
        assert forall|r: u64| r != self.counter_recid implies #[trigger] agree(b, c, r) by {}
        assert forall|l: int, x: int|
            #![trigger t.levels[l][x]]
            0 <= l < t.levels.len() && 0 <= x < t.levels[l].len() implies nc.contains_key(
            t.levels[l][x].0,
        ) && nc[t.levels[l][x].0] == nb[t.levels[l][x].0] by {
            let r = t.levels[l][x].0;
            assert(level_ok(&self.key_format, self.value_inline, nb, t.levels[l], l > 0));
            assert(level_node(&self.key_format, self.value_inline, nb, t.levels[l], x, l > 0));
            assert(t.owner.contains_key(r));
            assert(agree(b, c, r));
            lemma_nodes_same(
                &self.key_format,
                &self.value_format,
                self.value_inline,
                b,
                c,
                r,
            );
        }
        assert forall|l: int| #![trigger t.levels[l]] 0 <= l < t.levels.len() implies level_ok(
            &self.key_format,
            self.value_inline,
            nc,
            t.levels[l],
            l > 0,
        ) by {
            let lv = t.levels[l];
            assert forall|x: int| #![trigger lv[x]] 0 <= x < lv.len() implies nc.contains_key(
                lv[x].0,
            ) && nc[lv[x].0] == nb[lv[x].0] by {
                let e = t.levels[l][x];
            }
            crate::btree::tree::lemma_level_frame(
                &self.key_format,
                self.value_inline,
                nb,
                nc,
                lv,
                l > 0,
            );
        }
        assert forall|l: int|
            #![trigger t.offs[l]]
            0 <= l < t.offs.len() && l != 0 implies parent_ok(
            nc,
            t.levels[l + 1],
            t.levels[l],
            t.offs[l],
        ) by {
            let p = t.levels[l + 1];
            assert(parent_ok(nb, p, t.levels[l], t.offs[l]));
            assert forall|x: int| #![trigger p[x]] 0 <= x < p.len()
                implies nc[p[x].0] == nb[p[x].0] by {
                let e = t.levels[l + 1][x];
            }
            crate::btree::tree::lemma_parent_frame(nb, nc, p, t.levels[l], t.offs[l]);
        }
        if 1 < t.levels.len() {
            let p = t.levels[1];
            assert forall|x: int| #![trigger p[x]] 0 <= x < p.len()
                implies nc[p[x].0] == nb[p[x].0] by {
                let e = t.levels[1][x];
            }
            crate::btree::tree::lemma_parent_frame(nb, nc, p, s, t.offs[0]);
        }
        self.lemma_pending_leaves(b, c, 1, s, i, q, sep, m, t.owner);
        let l = t.levels[0];
        assert forall|x: int| #![trigger l[x]] 0 <= x < l.len() implies nc[l[x].0].keys.len()
            < 0x0fff_ffff by {
            let e = t.levels[0][x];
        }
        assert(agree(b, c, self.root_recid_recid));
    }

    /// The stack of a descent, as the level above the leaves needs it.
    proof fn lemma_first_stack(
        &self,
        t: Tree<Model<KF>>,
        stack: Seq<u64>,
        path: Seq<int>,
        sep: Model<KF>,
    )
        requires
            t.levels.len() > 0,
            path_ready(&self.key_format, t, stack, path, path[0]),
            self.tree@.levels.len() == t.levels.len(),
            forall|l: int|
                #![trigger self.tree@.levels[l]]
                1 <= l < t.levels.len() ==> self.tree@.levels[l] == t.levels[l],
            above(&self.key_format, low(t.levels[0], path[0]), sep),
        ensures
            self.stack_ok(stack, path, 1, sep),
    {
        broadcast use group_key_order;

        let t2 = self.tree@;
        let top = t.levels.len() - 1;
        assert forall|x: int| #![trigger stack[x]] 0 <= x < stack.len() implies stack[x]
            == t2.levels[top - x][path[top - x]].0 by {
            let e = t2.levels[top - x];
        }
        assert forall|l: int| #![trigger path[l]] 1 <= l < t.levels.len() implies 0 <= path[l]
            < t2.levels[l].len() by {
            let e = t2.levels[l];
        }
        assert forall|l: int| 1 <= l < t2.levels.len() - 1 implies #[trigger] nested_at(
            &self.key_format,
            t2,
            path,
            l,
        ) by {
            assert(nested_at(&self.key_format, t, path, l));
            assert(t2.levels[l] == t.levels[l] && t2.levels[l + 1] == t.levels[l + 1]);
        }
        if 1 < t.levels.len() {
            assert(nested_at(&self.key_format, t, path, 0));
            assert(t2.levels[1] == t.levels[1]);
        }
    }

    /// Bringing in separators leaves the leaves as they are.
    proof fn lemma_split_slack(&self, t2: Tree<Model<KF>>, c: Records, d: Records)
        requires
            slack(self.nodes(c), t2.levels[0]),
            t2.levels.len() > 0,
            owners_ok(t2),
            level_ok(&self.key_format, self.value_inline, self.nodes(c), t2.levels[0], false),
            grows(t2, self.tree@, c, d, 1),
            self.tree@.levels[0] == t2.levels[0],
        ensures
            slack(self.nodes(d), self.tree@.levels[0]),
    {
        let l = t2.levels[0];
        assert forall|x: int| #![trigger l[x]] 0 <= x < l.len()
            implies self.nodes(d)[l[x].0].keys.len()
            < 0x0fff_ffff by {
            let e = t2.levels[0][x];
            assert(t2.owner.contains_key(e.0));
            assert(agree(c, d, e.0));
            assert(level_node(&self.key_format, self.value_inline, self.nodes(c), l, x, false));
            lemma_nodes_same(
                &self.key_format,
                &self.value_format,
                self.value_inline,
                c,
                d,
                e.0,
            );
        }
    }

    /// Splits an overfull leaf and brings the separator in.
    #[verifier::spinoff_prover]
    #[verifier::rlimit(40)]
    fn split_leaf_and_propagate<S: Store>(
        &mut self,
        store: &mut S,
        current: u64,
        n2: Node<KF, VF>,
        was_root: bool,
        stack: &mut Vec<u64>,
        Ghost(mid): Ghost<Records>,
        Ghost(i): Ghost<int>,
        Ghost(path): Ghost<Seq<int>>,
        Ghost(m): Ghost<Map<Model<KF>, Model<VF>>>,
    ) -> (r: Result<()>)
        requires
            current != 0,
            node_ok(&old(self).key_format, old(self).value_inline, n2@),
            all_fit(&old(self).key_format, n2@.keys),
            n2@.body matches BodyM::Leaf { values, .. }
                ==> all_fit(&old(self).value_format, values),
            n2@.fence() matches Some(f) ==> old(self).key_format.fits(f),
            !n2@.dir(),
            2 <= n2@.keys.len() <= 0x1000_0000,
        ensures
            final(self).same_config(old(self)),
            keeps_state(old(store).state(), final(store).state()),
            old(store).state().read_only && !old(store).state().closed
                ==> final(store).state().records
                == old(store).state().records && r == Err::<(), DbError>(DbError::ReadOnly),
            r is Err && !final(self).spoiled() ==> {
                &&& final(self).tree == old(self).tree
                &&& final(self).left_edges == old(self).left_edges
                &&& final(self).cached_root == old(self).cached_root
                &&& final(store).state().room + 1 >= old(store).state().room
                &&& forall|x: u64| #[trigger]
                    old(store).state().records.contains_key(x) ==> agree(
                        old(store).state().records,
                        final(store).state().records,
                        x,
                    )
            },
            old(self).split_ready(
                old(store).state(),
                current,
                n2@,
                was_root,
                old(stack)@,
                mid,
                i,
                path,
                m,
            ) ==> {
                let b = final(store).state().records;
                let t = old(self).tree@;
                let t2 = final(self).tree@;
                &&& old(store).state().room > t.levels.len() ==> carried_out(
                    old(store).state(),
                    r,
                )
                &&& r is Ok ==> tree_ok(
                    &old(self).key_format,
                    &old(self).value_format,
                    old(self).value_inline,
                    b,
                    old(self).root_recid_recid,
                    0,
                    t2,
                )
                &&& r is Ok && old(self).nodes_within(old(store).state().records)
                    && n2@.keys.len() <= old(self).max_node_size + 1 ==> final(self).nodes_within(b)
                &&& spares(old(store).state().records, b, t.owner.dom())
                &&& r is Ok ==> final(self).contents(b) == m
                &&& r is Ok ==> final(self).handle_ok()
                &&& r is Ok ==> slack(final(self).nodes(b), t2.levels[0])
                &&& r is Ok ==> levels_kept(t.levels, t2.levels)
                &&& r is Ok && old(self).counter_recid != 0 ==> t2.owner.contains_key(
                    old(self).counter_recid,
                ) && t2.owner[old(self).counter_recid] is Counter && item_at(
                    &LONG,
                    b,
                    old(self).counter_recid,
                ) == Some(Some(m.len() as i64))
                &&& r is Ok ==> frames(
                    old(store).state(),
                    final(store).state(),
                    t.owner.dom(),
                    t2.owner.dom(),
                )
                &&& r is Ok ==> t.levels.len() <= t2.levels.len() <= t.levels.len() + 1
                &&& r is Ok ==> final(store).state().room + t.levels.len() + 1 >= old(store).state().room
            },
    {
        let ghost a = store.state();
        let ghost t = self.tree@;
        let ghost good = self.split_ready(a, current, n2@, was_root, stack@, mid, i, path, m);
        let ghost nm = n2@;
        let total: usize = n2.keys.len();
        let h: usize = total / 2;
        let Node { flags, link, keys, body } = n2;
        let sep = self.key_format.dup(&keys[h - 1]);
        let left_fence = self.key_format.dup(&keys[h - 1]);
        assert(sep@ == models(keys@)[h - 1]);
        proof {
            assert(self.key_format.fits(nm.keys[h - 1]));
        }
        let left_keys = copy_range(&self.key_format, &keys, 0, h);
        let right_keys = copy_range(&self.key_format, &keys, h, total);
        let (left_body, right_body) = match body {
            NodeBody::Leaf { values, fence } => (
                NodeBody::Leaf {
                    values: copy_range(&self.value_format, &values, 0, h),
                    fence: Some(left_fence),
                },
                NodeBody::Leaf { values: copy_range(&self.value_format, &values, h, total), fence },
            ),
            NodeBody::ExternalLeaf { recids, fence } => (
                NodeBody::ExternalLeaf {
                    recids: copy_i64(&recids, 0, h),
                    fence: Some(left_fence),
                },
                NodeBody::ExternalLeaf { recids: copy_i64(&recids, h, total), fence },
            ),
            NodeBody::Dir { .. } => {
                return Err(DbError::corrupt("put reached a directory node"));
            },
        };
        let right_node: Node<KF, VF> = Node {
            flags: flags & !LEFT,
            link,
            keys: right_keys,
            body: right_body,
        };
        proof {
            lemma_leaf_halves(&self.key_format, self.value_inline, nm, h as int, 1);
            assert(nm.keys.subrange(h as int, total as int) =~= nm.keys.skip(h as int));
            assert(nm.keys.subrange(0, h as int) =~= nm.keys.take(h as int));
            match nm.body {
                BodyM::Leaf { values, .. } => {
                    assert(values.subrange(h as int, total as int) =~= values.skip(h as int));
                    assert(values.subrange(0, h as int) =~= values.take(h as int));
                },
                BodyM::ExternalLeaf { recids, .. } => {
                    assert(recids.subrange(h as int, total as int) =~= recids.skip(h as int));
                    assert(recids.subrange(0, h as int) =~= recids.take(h as int));
                },
                BodyM::Dir { .. } => {},
            }
            assert(right_node@ == right_leaf(nm, h as int));
        }
        let q: u64 = match self.store_put(store, &right_node) {
            Ok(q) => q,
            Err(e) => {
                return Err(e);
            },
        };
        let left_node: Node<KF, VF> = Node {
            flags: flags & !RIGHT,
            link: q,
            keys: left_keys,
            body: left_body,
        };
        proof {
            lemma_leaf_halves(&self.key_format, self.value_inline, nm, h as int, q);
            assert(left_node@ == left_leaf(nm, h as int, q));
        }
        match self.store_update(store, current, &left_node) {
            Ok(_) => {},
            Err(e) => {
                return Err(e);
            },
        }
        let ghost b = store.state();
        proof {
            if good {
                self.lemma_split_done(
                    a,
                    b.records,
                    current,
                    nm,
                    was_root,
                    stack@,
                    mid,
                    i,
                    path,
                    m,
                    h as int,
                    q,
                );
                assert(sep@ == nm.keys[h - 1]);
                self.tree@ = Tree {
                    levels: t.levels.update(0, split_level(t.levels[0], i, q, sep@)),
                    offs: t.offs,
                    owner: t.owner.insert(q, Owner::Level(0)),
                };
                assert(left_edges_of(self.tree@) =~= left_edges_of(t));
                assert(root_of(self.tree@) == root_of(t));
                assert(self.pending(b.records, 1, t.levels[0], i, q, sep@, m));
                lemma_nodes_write(
                    &self.key_format,
                    &self.value_format,
                    self.value_inline,
                    a.records,
                    q,
                    right_node@,
                );
                lemma_nodes_write(
                    &self.key_format,
                    &self.value_format,
                    self.value_inline,
                    a.records.insert(
                        q,
                        Some(enc_node(&self.key_format, &self.value_format, right_node@)),
                    ),
                    current,
                    left_node@,
                );
                if old(self).nodes_within(a.records) && nm.keys.len() <= self.max_node_size + 1 {
                    lemma_sized_split(
                        self.nodes(a.records),
                        t.levels,
                        self.max_node_size as nat,
                        0,
                        i,
                        q,
                        sep@,
                        left_node@,
                        right_node@,
                    );
                    assert(self.nodes_within(b.records));
                }
            }
        }
        let ghost t2 = self.tree@;
        let counter_res = self.add_to_counter(store, 1);
        let ghost c = store.state();
        proof {
            if good {
                if self.counter_recid != 0 && counter_res is Ok {
                    self.lemma_pending_counter(b.records, c.records, t.levels[0], i, q, sep@, m);
                }
                self.lemma_first_stack(t, stack@, path, sep@);
            }
        }
        match self.propagate_split(
            store,
            current,
            q,
            sep,
            was_root,
            stack,
            1,
            Ghost(t.levels[0]),
            Ghost(i),
            Ghost(path),
            Ghost(m),
        ) {
            Ok(_) => {},
            Err(e) => {
                self.poison();
                proof {
                    if good {
                        lemma_split_spares(
                            a.records,
                            c.records,
                            store.state().records,
                            t,
                            t2,
                            q,
                            current,
                            self.counter_recid,
                        );
                    }
                }
                return Err(e);
            },
        }
        proof {
            if good {
                lemma_split_spares(
                    a.records,
                    c.records,
                    store.state().records,
                    t,
                    t2,
                    q,
                    current,
                    self.counter_recid,
                );
            }
        }
        proof {
            if good && counter_res is Ok {
                let t3 = self.tree@;
                let d = store.state();
                assert(t3.levels[0] == t2.levels[0]);
                lemma_levels_split(t.levels, 0, i, q, nm.keys[h - 1]);
                lemma_levels_chain(t.levels, t2.levels, t3.levels);
                self.lemma_split_slack(t2, c.records, d.records);
                lemma_split_frame(a, c, d, t, t2, t3, q, current, self.counter_recid);
                if self.counter_recid != 0 {
                    assert(t2.owner.contains_key(self.counter_recid));
                    assert(agree(c.records, d.records, self.counter_recid));
                    assert(item_at(&LONG, b.records, self.counter_recid) == item_at(
                        &LONG,
                        a.records,
                        self.counter_recid,
                    ));
                    lemma_enc_dec(&LONG, m.len() as i64);
                }
            }
        }
        match counter_res {
            Ok(_) => Ok(()),
            Err(e) => {
                self.poison();
                Err(e)
            },
        }
    }

    /// The leaf with one entry more, and the recid of its value record where values
    /// stand outside.
    fn enlarge_leaf<S: Store>(
        &self,
        store: &mut S,
        n: Node<KF, VF>,
        ip: usize,
        key: KF::Item,
        value: VF::Item,
    ) -> (r: Result<(Node<KF, VF>, u64)>)
        requires
            node_ok(&self.key_format, self.value_inline, n@),
            node_fits(&self.key_format, &self.value_format, n@),
            !n@.dir(),
            self.key_format.fits(key@),
            self.value_format.fits(value@),
            splits_at(&self.key_format, n@.keys, key@, ip as int),
            !n@.right() ==> !(n@.fence() matches Some(f) && self.key_format.lt(f, key@)),
        ensures
            keeps_state(old(store).state(), final(store).state()),
            final(store).state().room + 1 >= old(store).state().room,
            old(store).state().writable && old(store).state().room > 0 ==> r is Ok,
            r is Err ==> final(store).state().records == old(store).state().records,
            r matches Err(e) ==> (old(store).state().read_only && !old(store).state().closed ==> e
                == DbError::ReadOnly),
            !self.value_inline && old(store).state().read_only && !old(store).state().closed
                ==> r is Err,
            r matches Ok((n2, recid)) ==> {
                &&& n2@ == with_entry(n@, ip as int, key@, value@, recid as i64)
                &&& node_ok(&self.key_format, self.value_inline, n2@)
                &&& all_fit(&self.key_format, n2@.keys)
                &&& n2@.body matches BodyM::Leaf { values, .. } ==> all_fit(
                    &self.value_format,
                    values,
                )
                &&& n2@.fence() matches Some(f) ==> self.key_format.fits(f)
                &&& self.value_inline ==> recid == 0 && final(store).state() == old(store).state()
                &&& !self.value_inline ==> 0 < recid <= i64::MAX && !old(
                    store,
                ).state().records.contains_key(recid) && final(store).state().records == old(
                    store,
                ).state().records.insert(recid, Some(self.value_format.enc(value@)))
            },
    {
        let ghost nm = n@;
        let ghost km = key@;
        let Node { flags, link, keys, body } = n;
        let mut keys = keys;
        let mut recid: u64 = 0;
        let body = match body {
            NodeBody::Leaf { values, fence } => {
                let mut values = values;
                let ghost before = values@;
                let ghost vm = value@;
                values.insert(ip, value);
                proof {
                    assert(models(values@) =~= models(before).insert(ip as int, vm));
                    assert(all_fit(&self.value_format, models(values@)));
                }
                NodeBody::Leaf { values, fence }
            },
            NodeBody::ExternalLeaf { recids, fence } => {
                match put_item(store, &value, &self.value_format) {
                    Ok(x) => {
                        recid = x;
                    },
                    Err(e) => {
                        return Err(e);
                    },
                }
                let mut recids = recids;
                recids.insert(ip, #[verifier::truncate] (recid as i64));
                NodeBody::ExternalLeaf { recids, fence }
            },
            NodeBody::Dir { .. } => {
                return Err(DbError::corrupt("put reached a directory node"));
            },
        };
        keys.insert(ip, key);
        let n2 = Node { flags, link, keys, body };
        proof {
            assert(models(keys@) =~= nm.keys.insert(ip as int, km));
            assert(all_fit(&self.key_format, n2@.keys));
            assert(n2@ == with_entry(nm, ip as int, km, value@, recid as i64));
            assert forall|p: int| 0 <= p < nm.keys.len() implies above(
                &self.key_format,
                None,
                #[trigger] nm.keys[p],
            ) && within(&self.key_format, nm.keys[p], nm.high()) by {
                broadcast use group_key_order;

                if !nm.right() {
                    let last = nm.keys[nm.keys.len() - 1];
                }
            }
            lemma_with_entry(
                &self.key_format,
                self.value_inline,
                nm,
                ip as int,
                km,
                value@,
                recid as i64,
                None,
                nm.high(),
            );
        }
        Ok((n2, recid))
    }

    /// Puts a value under a key; with `only_if_absent`, only where the map has none.
    /// Answers the value that the map held.
    fn put_internal<S: Store>(
        &mut self,
        store: &mut S,
        key: KF::Item,
        value: VF::Item,
        only_if_absent: bool,
    ) -> (r: Result<Option<VF::Item>>)
        requires
            old(self).key_format.fits(key@),
            old(self).value_format.fits(value@),
        ensures
            old(self).refuses(old(store).state(), r),
            old(self).read_only_in(old(store).state()) ==> {
                let m = old(self).contents(old(store).state().records);
                let kept = m.contains_key(key@) && only_if_absent;
                &&& final(store).state().records == old(store).state().records
                &&& kept ==> (r matches Ok(v) && opt_model(v) == Some(m[key@]))
                &&& !kept ==> r == Err::<Option<VF::Item>, DbError>(DbError::ReadOnly)
            },
            final(self).same_config(old(self)),
            old(self).can_put(old(store).state()) ==> r is Ok,
            old(self).can_grow(old(store).state().records) ==> {
                let m = old(self).contents(old(store).state().records);
                &&& r is Err ==> final(self).left_alone(
                    old(self),
                    old(store).state(),
                    final(store).state(),
                    old(self).height() + 2,
                )
                &&& r matches Ok(v) ==> opt_model(v) == lookup(m, key@)
                &&& r is Ok ==> final(self).became(
                    old(self),
                    old(store).state(),
                    final(store).state(),
                    if m.contains_key(key@) && only_if_absent {
                        m
                    } else {
                        m.insert(key@, value@)
                    },
                    old(self).height() + 2,
                )
            },
    {
        match self.refresh_left_edges_if_tx(store) {
            Ok(_) => {
                let ghost fresh = self.tree@;
                let ghost ready = old(self).can_grow(store.state().records);
                let r = self.put_refreshed(store, key, value, only_if_absent);
                proof {
                    if ready {
                        if r is Ok || !self.spoiled() {
                            lemma_levels_chain(
                                old(self).tree@.levels,
                                fresh.levels,
                                self.tree@.levels,
                            );
                        }
                    }
                }
                r
            },
            Err(e) => Err(e),
        }
    }

    fn put_refreshed<S: Store>(
        &mut self,
        store: &mut S,
        key: KF::Item,
        value: VF::Item,
        only_if_absent: bool,
    ) -> (r: Result<Option<VF::Item>>)
        requires
            old(self).key_format.fits(key@),
            old(self).value_format.fits(value@),
        ensures
            old(self).refuses(old(store).state(), r),
            old(self).read_only_in(old(store).state()) ==> {
                let m = old(self).contents(old(store).state().records);
                let kept = m.contains_key(key@) && only_if_absent;
                &&& final(store).state().records == old(store).state().records
                &&& kept ==> (r matches Ok(v) && opt_model(v) == Some(m[key@]))
                &&& !kept ==> r == Err::<Option<VF::Item>, DbError>(DbError::ReadOnly)
            },
            final(self).same_config(old(self)),
            old(self).can_put(old(store).state()) ==> r is Ok,
            old(self).can_grow(old(store).state().records) ==> {
                let m = old(self).contents(old(store).state().records);
                &&& r is Err ==> final(self).left_alone(
                    old(self),
                    old(store).state(),
                    final(store).state(),
                    old(self).height() + 2,
                )
                &&& r matches Ok(v) ==> opt_model(v) == lookup(m, key@)
                &&& r is Ok ==> final(self).became(
                    old(self),
                    old(store).state(),
                    final(store).state(),
                    if m.contains_key(key@) && only_if_absent {
                        m
                    } else {
                        m.insert(key@, value@)
                    },
                    old(self).height() + 2,
                )
            },
    {
        let ghost a = store.state();
        let ghost seen = self.wf(a.records);
        let ghost t = self.tree@;
        proof {
            if seen {
                self.lemma_unchanged(a);
            }
        }
        let mut stack: Vec<u64> = Vec::new();
        let (n, current, path) = match self.find_leaf(store, &key, &mut stack) {
            Ok(x) => x,
            Err(e) => {
                return Err(e);
            },
        };
        let ghost i = path@[0];
        let pos = search(&self.key_format, &n.keys, &key);
        proof {
            if seen {
                match pos {
                    Ok(p) => {
                        self.lemma_search(a.records, path@, key@, p as int);
                    },
                    Err(p) => {
                        self.lemma_search(a.records, path@, key@, p as int);
                    },
                }
                lemma_leaf_facts(
                    &self.key_format,
                    &self.value_format,
                    self.value_inline,
                    a.records,
                    self.root_recid_recid,
                    self.counter_recid,
                    t,
                    i,
                );
            }
        }
        if n.is_dir() {
            return Err(DbError::corrupt("put reached a directory node"));
        }
        match pos {
            Ok(p) => {
                proof {
                    if seen && !self.value_inline {
                        lemma_value_record(
                            &self.key_format,
                            &self.value_format,
                            self.value_inline,
                            a.records,
                            self.root_recid_recid,
                            self.counter_recid,
                            t,
                            i,
                            p as int,
                        );
                    }
                }
                let old_value = match self.leaf_value_at(store, &n.body, p) {
                    Ok(v) => v,
                    Err(e) => {
                        return Err(e);
                    },
                };
                if only_if_absent {
                    return Ok(Some(old_value));
                }
                match self.publish_leaf_set(store, current, n, p, &value, Ghost(i)) {
                    Ok(_) => Ok(Some(old_value)),
                    Err(e) => {
                        proof {
                            if seen {
                                self.lemma_left_alone(old(self), a, store.state(), 0);
                            }
                        }
                        Err(e)
                    },
                }
            },
            Err(ip) => {
                match self.insert_entry(
                    store,
                    current,
                    n,
                    ip,
                    key,
                    value,
                    &mut stack,
                    Ghost(path@),
                ) {
                    Ok(_) => Ok(None),
                    Err(e) => Err(e),
                }
            },
        }
    }

    /// Puts a new entry into its leaf, which is split where it is full.
    #[verifier::spinoff_prover]
    #[verifier::rlimit(60)]
    fn insert_entry<S: Store>(
        &mut self,
        store: &mut S,
        current: u64,
        n: Node<KF, VF>,
        ip: usize,
        key: KF::Item,
        value: VF::Item,
        stack: &mut Vec<u64>,
        Ghost(path): Ghost<Seq<int>>,
    ) -> (r: Result<()>)
        requires
            current != 0,
            node_ok(&old(self).key_format, old(self).value_inline, n@),
            node_fits(&old(self).key_format, &old(self).value_format, n@),
            !n@.dir(),
            old(self).key_format.fits(key@),
            old(self).value_format.fits(value@),
            splits_at(&old(self).key_format, n@.keys, key@, ip as int),
            !n@.right() ==> !(n@.fence() matches Some(f) && old(self).key_format.lt(f, key@)),
        ensures
            final(self).same_config(old(self)),
            old(self).read_only_in(old(store).state()) ==> final(store).state().records == old(
                store,
            ).state().records && r == Err::<(), DbError>(DbError::ReadOnly),
            old(self).can_grow(old(store).state().records) && path_from(
                &old(self).key_format,
                old(self).tree@,
                path,
                Some(key@),
                0,
            ) && old(self).tree@.levels[0][path[0]].0 == current && old(self).nodes(
                old(store).state().records,
            )[current] == n@ && old(stack)@ == path_stack(old(self).tree@, path) ==> {
                let m = old(self).contents(old(store).state().records);
                &&& old(self).can_put(old(store).state()) ==> r is Ok
                &&& r is Err ==> final(self).left_alone(
                    old(self),
                    old(store).state(),
                    final(store).state(),
                    old(self).height() + 2,
                )
                &&& r is Ok ==> final(self).became(
                    old(self),
                    old(store).state(),
                    final(store).state(),
                    m.insert(key@, value@),
                    old(self).height() + 2,
                )
            },
    {
        let ghost a = store.state();
        let ghost t = self.tree@;
        let ghost i = path[0];
        let ghost m = self.contents(a.records);
        let ghost good = self.can_grow(a.records) && path_from(
            &self.key_format,
            t,
            path,
            Some(key@),
            0,
        ) && t.levels[0][path[0]].0 == current && self.nodes(a.records)[current] == n@ && stack@
            == path_stack(t, path);
        proof {
            if good {
                assert(starts_at(&self.key_format, t.levels[0], path[0], Some(key@)));
                lemma_leaf_facts(
                    &self.key_format,
                    &self.value_format,
                    self.value_inline,
                    a.records,
                    self.root_recid_recid,
                    self.counter_recid,
                    t,
                    i,
                );
            }
        }
        let ghost nm = n@;
        let was_left = n.is_left();
        let was_right = n.is_right();
        let ghost km = key@;
        let ghost vm = value@;
        let (n2, recid) = match self.enlarge_leaf(store, n, ip, key, value) {
            Ok(x) => x,
            Err(e) => {
                proof {
                    if good {
                        self.lemma_left_alone(old(self), a, store.state(), self.height() + 2);
                    }
                }
                return Err(e);
            },
        };
        let ghost b = store.state();
        let ghost owner2 = if self.value_inline {
            t.owner
        } else {
            t.owner.insert(recid, Owner::Value(km))
        };
        let ghost t2 = Tree { levels: t.levels, offs: t.offs, owner: owner2 };
        let ghost mid = b.records.insert(
            current,
            Some(enc_node(&self.key_format, &self.value_format, n2@)),
        );
        proof {
            if good {
                lemma_insert_step(
                    &self.key_format,
                    &self.value_format,
                    self.value_inline,
                    a.records,
                    mid,
                    self.root_recid_recid,
                    self.counter_recid,
                    t,
                    i,
                    ip as int,
                    km,
                    vm,
                    recid,
                    owner2,
                );
                self.tree@ = t2;
                assert(left_edges_of(t2) =~= left_edges_of(t));
                assert(self.contents(mid) == m.insert(km, vm));
            }
        }
        let keys_len: usize = n2.keys.len();
        if (keys_len <= self.max_node_size || keys_len < 2) && keys_len < 0x1000_0000 {
            match self.store_update(store, current, &n2) {
                Ok(_) => {},
                Err(e) => {
                    proof {
                        if good {
                            self.tree@ = t;
                            self.lemma_left_alone(old(self), a, store.state(), self.height() + 2);
                        }
                    }
                    return Err(e);
                },
            }
            match self.add_to_counter(store, 1) {
                Ok(_) => {},
                Err(e) => {
                    self.poison();
                    proof {
                        if good {
                            let e = t.levels[0][i];
                            assert(spares(a.records, store.state().records, t.owner.dom()));
                        }
                    }
                    return Err(e);
                },
            }
            proof {
                if good {
                    self.lemma_put_fitted(
                        old(self),
                        a,
                        mid,
                        store.state(),
                        t,
                        i,
                        n2@,
                        recid,
                        m,
                        km,
                        vm,
                    );
                }
            }
            return Ok(());
        }
        let mut was_root = false;
        if was_left && was_right {
            match self.is_current_root(store, current) {
                Ok(x) => {
                    was_root = x;
                },
                Err(e) => {
                    proof {
                        if good {
                            self.tree@ = t;
                            self.lemma_left_alone(old(self), a, store.state(), self.height() + 2);
                        }
                    }
                    return Err(e);
                },
            }
        }
        proof {
            if good {
                self.lemma_split_ready(
                    a,
                    b,
                    current,
                    nm,
                    n2@,
                    t,
                    stack@,
                    mid,
                    i,
                    path,
                    km,
                    vm,
                    recid,
                    was_root,
                );
            }
        }
        proof {
            if good {
                assert forall|x: int, y: int|
                    #![trigger t.levels[x][y]]
                    0 <= x < t.levels.len() && 0 <= y < t.levels[x].len() implies agree(
                    a.records,
                    b.records,
                    t.levels[x][y].0,
                ) by {
                    assert(t.owner.contains_key(t.levels[x][y].0));
                }
                old(self).lemma_within(a.records, b.records);
                if old(self).nodes_within(a.records) {
                    let e = t.levels[0][i];
                    assert(nm.keys.len() <= self.max_node_size);
                }
            }
        }
        match self.split_leaf_and_propagate(
            store,
            current,
            n2,
            was_root,
            stack,
            Ghost(mid),
            Ghost(i),
            Ghost(path),
            Ghost(m.insert(km, vm)),
        ) {
            Ok(_) => {},
            Err(e) => {
                proof {
                    if good {
                        let d = store.state().records;
                        let owned = t.owner.dom();
                        assert forall|x: u64| #[trigger]
                            a.records.contains_key(x) && !owned.contains(x) implies d.contains_key(x)
                            && d[x] == a.records[x] by {
                            assert(b.records.contains_key(x) && !t2.owner.dom().contains(x));
                        }
                    }
                    if good && !self.spoiled() {
                        self.tree@ = t;
                        assert forall|x: u64| #[trigger] a.records.contains_key(x) implies agree(
                            a.records,
                            store.state().records,
                            x,
                        ) by {
                            assert(b.records.contains_key(x));
                            assert(agree(b.records, store.state().records, x));
                        }
                        self.lemma_left_alone(old(self), a, store.state(), self.height() + 2);
                    }
                }
                return Err(e);
            },
        }
        proof {
            if good {
                self.lemma_put_split(old(self), a, b, store.state(), t2, recid, m.insert(km, vm));
            }
        }
        Ok(())
    }

    /// A put will succeed: the store works and has room for what a put can allocate.
    pub open spec fn can_put(&self, st: StoreState) -> bool {
        &&& self.can_grow(st.records)
        &&& st.readable
        &&& st.writable
        &&& st.room >= self.height() + 2
    }

    /// The map can take one more entry: a counter can count it.
    pub open spec fn can_grow(&self, records: Records) -> bool {
        self.wf(records) && self.contents(records).len() < i64::MAX
    }

    /// What a change that failed leaves: a spoiled handle and the records of others, or the
    /// map as it was.
    pub open spec fn left_alone(
        &self,
        old_map: &Self,
        a: StoreState,
        b: StoreState,
        spent: nat,
    ) -> bool {
        ||| self.spoiled() && keeps_state(a, b) && spares(a.records, b.records, old_map.owned())
        ||| self.became(old_map, a, b, old_map.contents(a.records), spent)
    }

    /// What a removal that failed leaves: a spoiled handle, the map as it was, or the map
    /// without the key. Where a value record could not be freed, the entry is gone and a
    /// size counter still counts it.
    pub open spec fn taken_or_left(
        &self,
        old_map: &Self,
        a: StoreState,
        b: StoreState,
        k: Model<KF>,
    ) -> bool {
        let m = old_map.contents(a.records).remove(k);
        let c = old_map.counter();
        ||| self.left_alone(old_map, a, b, 0)
        ||| self.became(old_map, a, b, m, 0)
        ||| {
            &&& !old_map.inline() && c != 0
            &&& self.uncounted().became(&old_map.uncounted(), a, b, m, 0)
            &&& b.records.contains_key(c) && b.records[c] == a.records[c]
        }
    }

    /// Records that nobody had change nothing.
    pub(super) proof fn lemma_left_alone(&self, old_map: &Self, a: StoreState, b: StoreState, spent: nat)
        requires
            old_map.wf(a.records),
            self.same_config(old_map),
            self.tree == old_map.tree,
            self.left_edges == old_map.left_edges,
            self.cached_root == old_map.cached_root,
            self.poisoned == old_map.poisoned,
            keeps_state(a, b),
            b.room + spent >= a.room,
            forall|x: u64| #[trigger]
                a.records.contains_key(x) ==> agree(a.records, b.records, x),
        ensures
            self.became(old_map, a, b, old_map.contents(a.records), spent),
    {
        lemma_levels_same(self.tree@.levels);
        assert forall|r: u64| #[trigger] old_map.owned().contains(r) implies b.records.contains_key(
            r,
        ) && b.records[r] == a.records[r] by {
            assert(old_map.tree@.owner.contains_key(r));
            assert(agree(a.records, b.records, r));
        }
        old_map.law_untouched(a.records, b.records);
        assert forall|r: u64|
            #![trigger b.records.contains_key(r)]
            a.records.contains_key(r)
                && !old_map.owned().contains(r) implies b.records.contains_key(
            r,
        ) && b.records[r] == a.records[r] by {
            assert(agree(a.records, b.records, r));
        }
    }

    /// The map after a put that needed no split.
    proof fn lemma_put_fitted(
        &self,
        old_map: &Self,
        a: StoreState,
        mid: Records,
        d: StoreState,
        t: Tree<Model<KF>>,
        i: int,
        n2: NodeM<Model<KF>, Model<VF>>,
        recid: u64,
        m: Map<Model<KF>, Model<VF>>,
        k: Model<KF>,
        v: Model<VF>,
    )
        requires
            old_map.wf(a.records),
            old_map.tree@ == t,
            self.same_config(old_map),
            self.handle_ok(),
            self.tree@.levels == t.levels,
            self.tree@.offs == t.offs,
            m == old_map.contents(a.records),
            m.len() < i64::MAX,
            m.insert(k, v).len() == m.len() + 1,
            tree_ok(
                &self.key_format,
                &self.value_format,
                self.value_inline,
                mid,
                self.root_recid_recid,
                0,
                self.tree@,
            ),
            self.contents(mid) == m.insert(k, v),
            crate::btree::contents::leaf_replaced(
                &self.key_format,
                &self.value_format,
                self.value_inline,
                a.records,
                mid,
                t.levels[0],
                i,
                n2,
            ),
            n2.keys.len() <= self.max_node_size,
            0 <= i < t.levels[0].len(),
            self.tree@.owner == if self.value_inline {
                t.owner
            } else {
                t.owner.insert(recid, Owner::Value(k))
            },
            !self.value_inline ==> !a.records.contains_key(recid),
            forall|r: u64|
                r != t.levels[0][i].0 && (self.value_inline || r != recid) ==> #[trigger] agree(
                    a.records,
                    mid,
                    r,
                ),
            keeps_state(a, d),
            d.room + 2 >= a.room,
            self.counter_recid == 0 ==> d.records == mid,
            self.counter_recid != 0 ==> d.records == mid.insert(
                self.counter_recid,
                Some(LONG.enc((m.len() + 1) as i64)),
            ) && self.tree@.owner.contains_key(self.counter_recid)
                && self.tree@.owner[self.counter_recid] is Counter,
        ensures
            self.became(old_map, a, d, m.insert(k, v), old_map.height() + 2),
    {
        let t2 = self.tree@;
        if self.counter_recid != 0 {
            lemma_counter_step(
                &self.key_format,
                &self.value_format,
                self.value_inline,
                mid,
                self.root_recid_recid,
                self.counter_recid,
                t2,
                (m.len() + 1) as i64,
            );
        }
        let l = t.levels[0];
        assert forall|x: int| #![trigger l[x]] 0 <= x < l.len()
            implies self.nodes(mid)[l[x].0].keys.len()
            < 0x0fff_ffff by {
            assert(old_map.nodes(a.records)[l[x].0].keys.len() < 0x0fff_ffff);
        }
        assert(slack(self.nodes(mid), t2.levels[0]));
        lemma_levels_same(t.levels);
        if old_map.nodes_within(a.records) {
            assert forall|x: int, y: int|
                #![trigger t.levels[x][y]]
                0 <= x < t.levels.len() && 0 <= y < t.levels[x].len() && t.levels[x][y].0
                    != t.levels[0][i].0 implies agree(a.records, mid, t.levels[x][y].0) by {
                assert(t.owner.contains_key(t.levels[x][y].0));
            }
            let e = t.levels[0][i];
            assert(self.nodes(mid)[l[i].0] == n2);
            old_map.lemma_within(a.records, mid);
        }
        self.lemma_counter_slack(mid, d.records);
        assert(self.wf(d.records));
        assert forall|r: u64|
            #![trigger d.records.contains_key(r)]
            #![trigger t2.owner.dom().contains(r)]
            a.records.contains_key(r) && !t.owner.dom().contains(r)
                implies d.records.contains_key(r)
            && d.records[r] == a.records[r] && !t2.owner.dom().contains(r) by {
            let e = t.levels[0][i];
            assert(t.owner.contains_key(e.0));
            assert(agree(a.records, mid, r));
        }
    }

    /// What a split needs holds after a search and an enlarged leaf.
    #[verifier::spinoff_prover]
    proof fn lemma_split_ready(
        &self,
        a: StoreState,
        b: StoreState,
        current: u64,
        nm: NodeM<Model<KF>, Model<VF>>,
        n2: NodeM<Model<KF>, Model<VF>>,
        t: Tree<Model<KF>>,
        stack: Seq<u64>,
        mid: Records,
        i: int,
        path: Seq<int>,
        k: Model<KF>,
        v: Model<VF>,
        recid: u64,
        was_root: bool,
    )
        requires
            tree_ok(
                &self.key_format,
                &self.value_format,
                self.value_inline,
                a.records,
                self.root_recid_recid,
                self.counter_recid,
                t,
            ),
            slack(
                nodes_of(&self.key_format, &self.value_format, self.value_inline, a.records),
                t.levels[0],
            ),
            keeps_state(a, b),
            b.room + 1 >= a.room,
            self.handle_ok(),
            self.tree@.levels == t.levels,
            tree_ok(
                &self.key_format,
                &self.value_format,
                self.value_inline,
                mid,
                self.root_recid_recid,
                0,
                self.tree@,
            ),
            mid == b.records.insert(
                current,
                Some(enc_node(&self.key_format, &self.value_format, n2)),
            ),
            ({
                let m = tree_map(
                    &self.key_format,
                    &self.value_format,
                    self.value_inline,
                    a.records,
                    t,
                );
                &&& self.contents(mid) == m.insert(k, v)
                &&& m.insert(k, v).len() == m.len() + 1
                &&& m.len() < i64::MAX
            }),
            crate::btree::contents::leaf_replaced(
                &self.key_format,
                &self.value_format,
                self.value_inline,
                a.records,
                mid,
                t.levels[0],
                i,
                n2,
            ),
            n2.keys.len() == nm.keys.len() + 1,
            0 <= i < t.levels[0].len(),
            t.levels[0][i].0 == current,
            nodes_of(&self.key_format, &self.value_format, self.value_inline, a.records)[current] == nm,
            path_from(&self.key_format, t, path, Some(k), 0),
            path[0] == i,
            stack == path_stack(t, path),
            b.records == if self.value_inline {
                a.records
            } else {
                a.records.insert(recid, Some(self.value_format.enc(v)))
            },
            !self.value_inline ==> !a.records.contains_key(recid),
            was_root == (nm.left() && nm.right() && current == root_of(t)),
            self.counter_recid != 0 ==> self.tree@.owner.contains_key(self.counter_recid)
                && self.tree@.owner[self.counter_recid] is Counter,
        ensures
            self.split_ready(
                b,
                current,
                n2,
                was_root,
                stack,
                mid,
                i,
                path,
                tree_map(&self.key_format, &self.value_format, self.value_inline, a.records, t).insert(k, v),
            ),
    {
        let na = nodes_of(&self.key_format, &self.value_format, self.value_inline, a.records);
        let l = t.levels[0];
        lemma_leaf_facts(
            &self.key_format,
            &self.value_format,
            self.value_inline,
            a.records,
            self.root_recid_recid,
            self.counter_recid,
            t,
            i,
        );
        assert(l[i].0 == current);
        assert(self.nodes(mid)[current] == n2);
        assert(na[l[i].0].keys.len() < 0x0fff_ffff);
        assert(was_root == (t.levels.len() == 1)) by {
            let top = t.levels.len() - 1;
            assert(level_ok(&self.key_format, self.value_inline, na, t.levels[top], top > 0));
            let e = t.levels[0][i];
            let r = t.levels[top][0];
            assert(t.owner[e.0] == Owner::<Model<KF>>::Level(0));
            assert(t.owner[r.0] == Owner::<Model<KF>>::Level(top as nat));
        }
        assert forall|x: int| #![trigger path[x]] 0 <= x < t.levels.len() implies 0 <= path[x]
            < t.levels[x].len() by {
            assert(starts_at(&self.key_format, t.levels[x], path[x], Some(k)));
        }
        assert forall|x: int| 0 <= x < t.levels.len() - 1 implies #[trigger] nested_at(
            &self.key_format,
            self.tree@,
            path,
            x,
        ) by {
            assert(nested_at(&self.key_format, t, path, x));
        }
        assert(path_stack(t, path) =~= path_stack(self.tree@, path));
        assert forall|x: int| #![trigger l[x]] 0 <= x < l.len() && x != i implies self.nodes(
            mid,
        )[l[x].0].keys.len() < 0x0fff_ffff by {
            assert(na[l[x].0].keys.len() < 0x0fff_ffff);
        }
    }

    /// The map after a put that split leaves.
    proof fn lemma_put_split(
        &self,
        old_map: &Self,
        a: StoreState,
        b: StoreState,
        d: StoreState,
        t2: Tree<Model<KF>>,
        recid: u64,
        m: Map<Model<KF>, Model<VF>>,
    )
        requires
            old_map.wf(a.records),
            self.same_config(old_map),
            t2.levels.len() == old_map.tree@.levels.len(),
            levels_kept(old_map.tree@.levels, self.tree@.levels),
            old_map.nodes_within(a.records) ==> self.nodes_within(d.records),
            forall|r: u64|
                old_map.value_inline || r != recid ==> #[trigger] agree(a.records, b.records, r),
            t2.owner.dom() == if old_map.value_inline {
                old_map.tree@.owner.dom()
            } else {
                old_map.tree@.owner.dom().insert(recid)
            },
            !old_map.value_inline ==> !a.records.contains_key(recid),
            keeps_state(a, d),
            b.room + 1 >= a.room,
            tree_ok(
                &self.key_format,
                &self.value_format,
                self.value_inline,
                d.records,
                self.root_recid_recid,
                0,
                self.tree@,
            ),
            self.contents(d.records) == m,
            self.handle_ok(),
            slack(self.nodes(d.records), self.tree@.levels[0]),
            self.counter_recid != 0 ==> m.len() <= i64::MAX && self.tree@.owner.contains_key(
                self.counter_recid,
            ) && self.tree@.owner[self.counter_recid] is Counter && item_at(
                &LONG,
                d.records,
                self.counter_recid,
            ) == Some(Some(m.len() as i64)),
            frames(b, d, t2.owner.dom(), self.tree@.owner.dom()),
            t2.levels.len() <= self.tree@.levels.len() <= t2.levels.len() + 1,
            d.room + t2.levels.len() + 1 >= b.room,
        ensures
            self.became(old_map, a, d, m, old_map.height() + 2),
    {
        let owned = old_map.tree@.owner.dom();
        let owned2 = self.tree@.owner.dom();
        let owned1 = t2.owner.dom();
        assert forall|r: u64|
            #![trigger d.records.contains_key(r)]
            #![trigger owned2.contains(r)]
            a.records.contains_key(r) && !owned.contains(r) implies d.records.contains_key(r)
            && d.records[r] == a.records[r] && !owned2.contains(r) by {
            assert(agree(a.records, b.records, r));
            assert(b.records.contains_key(r) && !owned1.contains(r));
            assert(d.records.contains_key(r));
            assert(d.records[r] == a.records[r]);
        }
    }

    /// Puts a value under a key; answers the value that the map held.
    pub fn put<S: Store>(&mut self, store: &mut S, key: KF::Item, value: VF::Item) -> (r: Result<
        Option<VF::Item>,
    >)
        requires
            old(self).kf().fits(key@),
            old(self).vf().fits(value@),
        ensures
            old(self).refuses(old(store).state(), r),
            old(self).read_only_in(old(store).state()) ==> final(store).state().records == old(
                store,
            ).state().records && r == Err::<Option<VF::Item>, DbError>(DbError::ReadOnly),
            final(self).same_config(old(self)),
            old(self).can_put(old(store).state()) ==> r is Ok,
            old(self).can_grow(old(store).state().records) ==> {
                let m = old(self).contents(old(store).state().records);
                &&& r is Err ==> final(self).left_alone(
                    old(self),
                    old(store).state(),
                    final(store).state(),
                    old(self).height() + 2,
                )
                &&& r matches Ok(v) ==> opt_model(v) == lookup(m, key@)
                &&& r is Ok ==> final(self).became(
                    old(self),
                    old(store).state(),
                    final(store).state(),
                    m.insert(key@, value@),
                    old(self).height() + 2,
                )
            },
    {
        self.put_internal(store, key, value, false)
    }

    /// Puts a value under a key that the map does not hold; answers the value that it
    /// does.
    pub fn put_if_absent<S: Store>(&mut self, store: &mut S, key: KF::Item, value: VF::Item) -> (r:
        Result<Option<VF::Item>>)
        requires
            old(self).kf().fits(key@),
            old(self).vf().fits(value@),
        ensures
            old(self).refuses(old(store).state(), r),
            old(self).read_only_in(old(store).state()) ==> {
                let m = old(self).contents(old(store).state().records);
                let kept = m.contains_key(key@);
                &&& final(store).state().records == old(store).state().records
                &&& kept ==> (r matches Ok(v) && opt_model(v) == Some(m[key@]))
                &&& !kept ==> r == Err::<Option<VF::Item>, DbError>(DbError::ReadOnly)
            },
            final(self).same_config(old(self)),
            old(self).can_put(old(store).state()) ==> r is Ok,
            old(self).can_grow(old(store).state().records) ==> {
                let m = old(self).contents(old(store).state().records);
                &&& r is Err ==> final(self).left_alone(
                    old(self),
                    old(store).state(),
                    final(store).state(),
                    old(self).height() + 2,
                )
                &&& r matches Ok(v) ==> opt_model(v) == lookup(m, key@)
                &&& r is Ok ==> final(self).became(
                    old(self),
                    old(store).state(),
                    final(store).state(),
                    if m.contains_key(key@) {
                        m
                    } else {
                        m.insert(key@, value@)
                    },
                    old(self).height() + 2,
                )
            },
    {
        self.put_internal(store, key, value, true)
    }

    /// Puts a value under a key.
    pub fn put_only<S: Store>(
        &mut self,
        store: &mut S,
        key: KF::Item,
        value: VF::Item,
    ) -> (r: Result<()>)
        requires
            old(self).kf().fits(key@),
            old(self).vf().fits(value@),
        ensures
            old(self).refuses(old(store).state(), r),
            old(self).read_only_in(old(store).state()) ==> final(store).state().records == old(
                store,
            ).state().records && r == Err::<(), DbError>(DbError::ReadOnly),
            final(self).same_config(old(self)),
            old(self).can_put(old(store).state()) ==> r is Ok,
            old(self).can_grow(old(store).state().records) ==> {
                let m = old(self).contents(old(store).state().records);
                &&& r is Err ==> final(self).left_alone(
                    old(self),
                    old(store).state(),
                    final(store).state(),
                    old(self).height() + 2,
                )
                &&& r is Ok ==> final(self).became(
                    old(self),
                    old(store).state(),
                    final(store).state(),
                    m.insert(key@, value@),
                    old(self).height() + 2,
                )
            },
    {
        match self.put_internal(store, key, value, false) {
            Ok(_) => Ok(()),
            Err(e) => Err(e),
        }
    }
}

/// Copies of the elements `[from, to)`.
fn copy_u64(v: &Vec<u64>, from: usize, to: usize) -> (r: Vec<u64>)
    requires
        from <= to <= v@.len(),
    ensures
        r@ == v@.subrange(from as int, to as int),
{
    let mut r: Vec<u64> = Vec::new();
    let mut i: usize = from;
    while i < to
        invariant
            from <= i <= to <= v@.len(),
            r@ == v@.subrange(from as int, i as int),
        decreases to - i,
    {
        r.push(v[i]);
        i = i + 1;
        assert(r@ =~= v@.subrange(from as int, i as int));
    }
    r
}

fn copy_i64(v: &Vec<i64>, from: usize, to: usize) -> (r: Vec<i64>)
    requires
        from <= to <= v@.len(),
    ensures
        r@ == v@.subrange(from as int, to as int),
{
    let mut r: Vec<i64> = Vec::new();
    let mut i: usize = from;
    while i < to
        invariant
            from <= i <= to <= v@.len(),
            r@ == v@.subrange(from as int, i as int),
        decreases to - i,
    {
        r.push(v[i]);
        i = i + 1;
        assert(r@ =~= v@.subrange(from as int, i as int));
    }
    r
}

/// `path` leads down to leaf `i`, and the stack holds the directories on it.
pub open spec fn path_ready<KF: KeyFormat>(
    kf: &KF,
    t: Tree<Model<KF>>,
    stack: Seq<u64>,
    path: Seq<int>,
    i: int,
) -> bool {
    &&& path.len() == t.levels.len()
    &&& path[0] == i
    &&& stack == path_stack(t, path)
    &&& forall|l: int|
        #![trigger path[l]]
        0 <= l < t.levels.len() ==> 0 <= path[l] < t.levels[l].len()
    &&& forall|l: int| 0 <= l < t.levels.len() - 1 ==> #[trigger] nested_at(kf, t, path, l)
}

/// A split leaves the records of others alone, also where it fails half-way.
proof fn lemma_split_spares<K>(
    a: Records,
    c: Records,
    d: Records,
    t: Tree<K>,
    t2: Tree<K>,
    q: u64,
    current: u64,
    counter: u64,
)
    requires
        t2.owner == t.owner.insert(q, Owner::Level(0)),
        !a.contains_key(q),
        t.owner.contains_key(current),
        counter != 0 ==> t.owner.contains_key(counter),
        forall|x: u64|
            x != q && x != current && (counter == 0 || x != counter) ==> #[trigger] agree(a, c, x),
        spares(c, d, t2.owner.dom()),
    ensures
        spares(a, d, t.owner.dom()),
{
    let owned = t.owner.dom();
    assert forall|x: u64| #[trigger] a.contains_key(x) && !owned.contains(x) implies d.contains_key(
        x,
    ) && d[x] == a[x] by {
        assert(agree(a, c, x));
        assert(c.contains_key(x) && !t2.owner.dom().contains(x));
    }
}

/// A split leaves the records of others alone, and the new tree none of them.
proof fn lemma_split_frame<K>(
    a: StoreState,
    c: StoreState,
    d: StoreState,
    t: Tree<K>,
    t2: Tree<K>,
    t3: Tree<K>,
    q: u64,
    current: u64,
    counter: u64,
)
    requires
        grows(t2, t3, c.records, d.records, 1),
        t2.owner == t.owner.insert(q, Owner::Level(0)),
        !a.records.contains_key(q),
        t.owner.contains_key(current),
        counter != 0 ==> t.owner.contains_key(counter),
        forall|r: u64|
            r != q && r != current && (counter != 0 ==> r != counter) ==> #[trigger] agree(
                a.records,
                c.records,
                r,
            ),
        keeps_state(a, d),
    ensures
        frames(a, d, t.owner.dom(), t3.owner.dom()),
{
    let owned = t.owner.dom();
    let owned2 = t3.owner.dom();
    assert forall|r: u64|
        #![trigger d.records.contains_key(r)]
        #![trigger owned2.contains(r)]
        a.records.contains_key(r) && !owned.contains(r) implies d.records.contains_key(r)
        && d.records[r] == a.records[r] && !owned2.contains(r) by {
        assert(agree(a.records, c.records, r));
        assert(c.records.contains_key(r) && !t2.owner.contains_key(r));
        assert(agree(c.records, d.records, r));
        if t3.owner.contains_key(r) {
            assert(t2.owner.contains_key(r) || !c.records.contains_key(r));
        }
    }
}

/// One more level on the way up.
proof fn lemma_grows_chain<K>(
    t: Tree<K>,
    t2: Tree<K>,
    t3: Tree<K>,
    a: Records,
    b: Records,
    c: Records,
    level: int,
    q: u64,
    current: u64,
)
    requires
        grows(t2, t3, b, c, level + 1),
        t2.owner == t.owner.insert(q, Owner::Level(level as nat)),
        t2.levels.len() == t.levels.len(),
        forall|l: int|
            #![trigger t2.levels[l]]
            0 <= l < level && l < t.levels.len() ==> t2.levels[l] == t.levels[l],
        levels_kept(t.levels, t2.levels),
        !t.owner.contains_key(q),
        !a.contains_key(q),
        0 <= level,
        t.owner.contains_key(current),
        t.owner[current] == Owner::<K>::Level(level as nat),
        forall|r: u64| r != q && r != current ==> #[trigger] agree(a, b, r),
    ensures
        grows(t, t3, a, c, level),
{
    assert forall|r: u64|
        #![trigger t.owner.contains_key(r)]
        #![trigger t3.owner.contains_key(r)]
        t.owner.contains_key(r) implies t3.owner.contains_key(r) && t3.owner[r] == t.owner[r] && (!(
    t.owner[r] is RootPointer) && !(t.owner[r] matches Owner::Level(l) && l >= level) ==> agree(
        a,
        c,
        r,
    )) by {
        assert(t2.owner.contains_key(r));
        if !(t.owner[r] is RootPointer) && !(t.owner[r] matches Owner::Level(l) && l >= level) {
            assert(agree(a, b, r));
        }
    }
    assert forall|r: u64| #![trigger t3.owner.contains_key(r)] t3.owner.contains_key(r)
        implies t.owner.contains_key(r)
        || !a.contains_key(r) by {
        if r != q && r != current {
            assert(agree(a, b, r));
        }
    }
    assert forall|r: u64|
        #![trigger c.contains_key(r)]
        a.contains_key(r) && !t.owner.contains_key(r) implies agree(a, c, r) by {
        assert(agree(a, b, r));
        assert(b.contains_key(r) && !t2.owner.contains_key(r));
    }
    assert forall|l: int|
        #![trigger t3.levels[l]]
        0 <= l < level && l < t.levels.len() implies t3.levels[l] == t.levels[l] by {
        assert(t2.levels[l] == t.levels[l]);
    }
    lemma_levels_chain(t.levels, t2.levels, t3.levels);
}

/// Writing the root pointer leaves the levels as they are.
pub(super) proof fn lemma_pointer_frame<KF: KeyFormat, VF: Serializer>(
    kf: &KF,
    vf: &VF,
    inline: bool,
    a: Records,
    b: Records,
    rrr: u64,
    t: Tree<Model<KF>>,
)
    requires
        levels_ok(kf, inline, nodes_of(kf, vf, inline, a), t),
        owners_ok(t),
        t.owner.contains_key(rrr) ==> !(t.owner[rrr] is Level),
        forall|r: u64| r != rrr ==> #[trigger] agree(a, b, r),
    ensures
        levels_ok(kf, inline, nodes_of(kf, vf, inline, b), t),
{
    let na = nodes_of(kf, vf, inline, a);
    let nb = nodes_of(kf, vf, inline, b);
    assert forall|l: int, x: int|
        #![trigger t.levels[l][x]]
        0 <= l < t.levels.len() && 0 <= x < t.levels[l].len() implies nb.contains_key(
        t.levels[l][x].0,
    ) && nb[t.levels[l][x].0] == na[t.levels[l][x].0] by {
        let r = t.levels[l][x].0;
        assert(level_ok(kf, inline, na, t.levels[l], l > 0));
        assert(level_node(kf, inline, na, t.levels[l], x, l > 0));
        assert(t.owner.contains_key(r));
        assert(agree(a, b, r));
        lemma_nodes_same(kf, vf, inline, a, b, r);
    }
    assert forall|l: int| #![trigger t.levels[l]] 0 <= l < t.levels.len() implies level_ok(
        kf,
        inline,
        nb,
        t.levels[l],
        l > 0,
    ) by {
        let lv = t.levels[l];
        assert forall|x: int| #![trigger lv[x]] 0 <= x < lv.len() implies nb.contains_key(lv[x].0)
            && nb[lv[x].0] == na[lv[x].0] by {
            let e = t.levels[l][x];
        }
        crate::btree::tree::lemma_level_frame(kf, inline, na, nb, lv, l > 0);
    }
    assert forall|l: int| #![trigger t.offs[l]] 0 <= l < t.offs.len() implies parent_ok(
        nb,
        t.levels[l + 1],
        t.levels[l],
        t.offs[l],
    ) by {
        let p = t.levels[l + 1];
        assert(parent_ok(na, p, t.levels[l], t.offs[l]));
        assert forall|x: int| #![trigger p[x]] 0 <= x < p.len()
            implies nb[p[x].0] == na[p[x].0] by {
            let e = t.levels[l + 1][x];
        }
        crate::btree::tree::lemma_parent_frame(na, nb, p, t.levels[l], t.offs[l]);
    }
}

} // verus!
