//! Changes of the map: put, replace and remove.

use vstd::prelude::*;
use crate::btree::contents::{
    agree, leaf_replaced, leaf_value, lemma_lookup, lemma_nodes_same, lemma_nodes_write,
    lemma_tree_frame, owners_ok, slack,
};
use crate::btree::node::{enc_node, node_fits, node_ok, Node, NodeBody, NodeM, NodeSerializer};
use crate::btree::tree::{
    covers, lemma_levels_same, level_node, level_ok, levels_ok, node_at, Tree,
};
use crate::btree::steps::{
    lemma_counter_step, lemma_leaf_facts, lemma_remove_step, lemma_set_step, lemma_value_record,
    without_entry,
};
use crate::error::{DbError, Result};
use crate::io::DataOutput2;
use crate::ser::{all_fit, models, search, splits_at, KeyFormat, Model, Serializer, LONG};
use crate::store::{
    blames, carried_out, get_item, item_at, keeps_state, opt_model, put_post, update_item, Records, Store,
    StoreState,
};
use super::{left_edges_of, lookup, path_from, starts_at, BTreeMap};

verus! {

/// The store after a change of the map: other records are as they were.
pub open spec fn frames(a: StoreState, b: StoreState, owned: Set<u64>, owned2: Set<u64>) -> bool {
    &&& keeps_state(a, b)
    &&& forall|r: u64|
        #![trigger b.records.contains_key(r)]
        #![trigger owned2.contains(r)]
        a.records.contains_key(r) && !owned.contains(r) ==> b.records.contains_key(r)
            && b.records[r] == a.records[r] && !owned2.contains(r)
}

/// Records outside of `owned` are as they were.
pub open spec fn spares(a: Records, b: Records, owned: Set<u64>) -> bool {
    forall|r: u64| #[trigger]
        a.contains_key(r) && !owned.contains(r) ==> b.contains_key(r) && b[r] == a[r]
}

impl<KF: KeyFormat, VF: Serializer> BTreeMap<KF, VF> {
    /// A change took the map in `a` to one with entries `m` in `b`, at most `spent`
    /// records were allocated, no other record changed, and nodes that kept to their size
    /// still do.
    pub open spec fn became(
        &self,
        old_map: &Self,
        a: StoreState,
        b: StoreState,
        m: Map<Model<KF>, Model<VF>>,
        spent: nat,
    ) -> bool {
        &&& self.same_config(old_map)
        &&& self.keeps_nodes(old_map)
        &&& self.wf(b.records)
        &&& self.contents(b.records) == m
        &&& old_map.nodes_within(a.records) ==> self.nodes_within(b.records)
        &&& frames(a, b, old_map.owned(), self.owned())
        &&& b.room + spent >= a.room
        &&& old_map.height() <= self.height() <= old_map.height() + if spent > 0 {
            1int
        } else {
            0
        }
    }

    /// The map can be read, and its store refuses writes.
    pub open spec fn read_only_in(&self, st: StoreState) -> bool {
        self.wf(st.records) && st.readable && st.read_only && !st.closed
    }

    pub(super) fn store_update<S: Store>(
        &self,
        store: &mut S,
        recid: u64,
        node: &Node<KF, VF>,
    ) -> (r: Result<()>)
        requires
            node_ok(&self.key_format, self.value_inline, node@),
            node_fits(&self.key_format, &self.value_format, node@),
        ensures
            old(store).state().writable && old(store).state().records.contains_key(recid)
                ==> r is Ok,
            r is Ok ==> final(store).state().records == old(store).state().records.insert(
                recid,
                Some(enc_node(&self.key_format, &self.value_format, node@)),
            ),
            r is Err ==> final(store).state().records == old(store).state().records,
            keeps_state(old(store).state(), final(store).state()),
            final(store).state().room >= old(store).state().room,
            old(store).state().read_only && !old(store).state().closed ==> r == Err::<(), DbError>(
                DbError::ReadOnly,
            ),
    {
        store.update(recid, Some(self.node_bytes(node)))
    }

    pub(super) fn store_put<S: Store>(&self, store: &mut S, node: &Node<KF, VF>) -> (r: Result<u64>)
        requires
            node_ok(&self.key_format, self.value_inline, node@),
            node_fits(&self.key_format, &self.value_format, node@),
        ensures
            put_post(
                old(store).state(),
                final(store).state(),
                Some(enc_node(&self.key_format, &self.value_format, node@)),
                r,
            ),
    {
        store.put(self.node_bytes(node))
    }

    fn node_bytes(&self, node: &Node<KF, VF>) -> (r: Vec<u8>)
        requires
            node_ok(&self.key_format, self.value_inline, node@),
            node_fits(&self.key_format, &self.value_format, node@),
        ensures
            r@ == enc_node(&self.key_format, &self.value_format, node@),
    {
        let ns = NodeSerializer::new_mode(
            &self.key_format,
            &self.value_format,
            self.max_node_size,
            self.value_inline,
        );
        let mut out = DataOutput2::with_capacity(ns.size_hint);
        ns.serialize(&mut out, node);
        assert(out@ =~= enc_node(&self.key_format, &self.value_format, node@));
        out.into_vec()
    }

    /// Adds to the size counter, where there is one.
    pub(super) fn add_to_counter<S: Store>(&self, store: &mut S, delta: i64) -> (r: Result<()>)
        ensures
            self.counter_recid == 0 ==> r is Ok && final(store).state() == old(store).state(),
            keeps_state(old(store).state(), final(store).state()),
            final(store).state().room >= old(store).state().room,
            self.counter_recid != 0 && old(store).state().writable && old(store).state().readable
                && (item_at(&LONG, old(store).state().records, self.counter_recid) matches Some(
                Some(c),
            )) ==> r is Ok,
            r is Err ==> final(store).state().records == old(store).state().records,
            self.counter_recid != 0 && r is Ok ==> (item_at(
                &LONG,
                old(store).state().records,
                self.counter_recid,
            ) matches Some(Some(c)) && final(store).state().records == old(
                store,
            ).state().records.insert(self.counter_recid, Some(LONG.enc(c.wrapping_add(delta)))))
                && old(store).state().records.contains_key(self.counter_recid),
    {
        if self.counter_recid == 0 {
            return Ok(());
        }
        match get_item(store, self.counter_recid, &LONG) {
            Ok(Some(cur)) => {
                let next: i64 = cur.wrapping_add(delta);
                update_item(store, self.counter_recid, &next, &LONG)
            },
            Ok(None) => Err(DbError::corrupt("btree size counter record missing")),
            Err(e) => Err(e),
        }
    }

    /// Refuses every further use of the map.
    pub(super) fn poison(&mut self)
        ensures
            final(self).poisoned,
            final(self).same_config(old(self)),
            final(self).tree == old(self).tree,
    {
        self.poisoned = true;
    }

    /// The value at a place of a leaf.
    pub(super) fn leaf_value_at<S: Store>(
        &self,
        store: &S,
        body: &NodeBody<KF, VF>,
        pos: usize,
    ) -> (r: Result<VF::Item>)
        requires
            match body {
                NodeBody::Leaf { values, .. } => pos < values@.len(),
                NodeBody::ExternalLeaf { recids, .. } => pos < recids@.len(),
                NodeBody::Dir { .. } => true,
            },
        ensures
            blames(store.state(), r),
            body is Leaf ==> (r matches Ok(v) && v@ == body@->values[pos as int]),
            body is Dir ==> r is Err,
            body is ExternalLeaf && store.state().readable && body@->recids[pos as int] != 0 && (
            item_at(&self.value_format, store.state().records, body@->recids[pos as int] as u64)
                matches Some(Some(_))) ==> r is Ok,
            body is ExternalLeaf ==> (r matches Ok(v) ==> item_at(
                &self.value_format,
                store.state().records,
                body@->recids[pos as int] as u64,
            ) == Some(Some(v@))),
            r matches Ok(v) ==> body is Leaf || self.value_format.fits(v@),
    {
        match body {
            NodeBody::Leaf { values, .. } => {
                assert(models(values@)[pos as int] == values@[pos as int]@);
                Ok(self.value_format.dup(&values[pos]))
            },
            NodeBody::ExternalLeaf { recids, .. } => {
                let recid: i64 = recids[pos];
                if recid == 0 {
                    return Err(DbError::corrupt("btree recid is zero"));
                }
                let id: u64 = #[verifier::truncate] (recid as u64);
                match get_item(store, id, &self.value_format) {
                    Ok(Some(v)) => {
                        proof {
                            self.value_format.dec_within(store.state().records[id].unwrap());
                        }
                        Ok(v)
                    },
                    Ok(None) => Err(DbError::corrupt("external value record missing")),
                    Err(e) => Err(e),
                }
            },
            NodeBody::Dir { .. } => Err(DbError::corrupt("value access on a directory node")),
        }
    }

    /// What a search in the leaf of a key says about the map.
    pub(super) proof fn lemma_search(&self, records: Records, path: Seq<int>, k: Model<KF>, c: int)
        requires
            self.wf(records),
            path_from(&self.key_format, self.tree@, path, Some(k), 0),
        ensures
            ({
                let i = path[0];
                let n = self.nodes(records)[self.tree@.levels[0][i].0];
                let m = self.contents(records);
                &&& 0 <= i < self.tree@.levels[0].len()
                &&& covers(&self.key_format, self.tree@.levels[0], i, k)
                &&& 0 <= c < n.keys.len() && n.keys[c] == k ==> m.contains_key(k) && m[k]
                    == leaf_value(&self.value_format, records, n, c)
                &&& splits_at(&self.key_format, n.keys, k, c) ==> !m.contains_key(k)
            }),
    {
        let t = self.tree@;
        let i = path[0];
        assert(starts_at(&self.key_format, t.levels[0], path[0], Some(k)));
        lemma_leaf_facts(
            &self.key_format,
            &self.value_format,
            self.value_inline,
            records,
            self.root_recid_recid,
            self.counter_recid,
            t,
            i,
        );
        lemma_lookup(
            &self.key_format,
            &self.value_format,
            self.value_inline,
            records,
            self.nodes(records),
            t.levels[0],
            i,
            k,
        );
        let n = self.nodes(records)[t.levels[0][i].0];
        if splits_at(&self.key_format, n.keys, k, c) {
            assert forall|x: int| 0 <= x < n.keys.len() implies #[trigger] n.keys[x] != k by {
                self.key_format.lt_irreflexive(k);
            }
        }
    }

    /// Nodes that stay, lose keys or keep to their size leave all nodes within it.
    pub(super) proof fn lemma_within(&self, a: Records, b: Records)
        requires
            forall|l: int|
                #![trigger self.tree@.levels[l]]
                0 <= l < self.tree@.levels.len() ==> level_ok(
                    &self.key_format,
                    self.value_inline,
                    self.nodes(a),
                    self.tree@.levels[l],
                    l > 0,
                ),
            forall|l: int, i: int|
                #![trigger self.tree@.levels[l][i]]
                0 <= l < self.tree@.levels.len() && 0 <= i < self.tree@.levels[l].len() ==> {
                    let id = self.tree@.levels[l][i].0;
                    ||| agree(a, b, id)
                    ||| self.nodes(b)[id].keys.len() <= self.nodes(a)[id].keys.len()
                    ||| self.nodes(b)[id].keys.len() <= self.max_node_size
                },
        ensures
            self.nodes_within(a) ==> self.nodes_within(b),
    {
        let t = self.tree@;
        assert forall|l: int, i: int|
            #![trigger t.levels[l][i]]
            self.nodes_within(a) && 0 <= l < t.levels.len() && 0 <= i < t.levels[l].len()
                implies self.nodes(b)[t.levels[l][i].0].keys.len() <= self.max_node_size by {
            let id = t.levels[l][i].0;
            let lv = t.levels[l];
            assert(level_ok(&self.key_format, self.value_inline, self.nodes(a), lv, l > 0));
            assert(level_node(&self.key_format, self.value_inline, self.nodes(a), lv, i, l > 0));
            if agree(a, b, id) {
                lemma_nodes_same(
                    &self.key_format,
                    &self.value_format,
                    self.value_inline,
                    a,
                    b,
                    id,
                );
            }
        }
    }

    /// Writing the counter leaves the leaves as they are.
    pub(super) proof fn lemma_counter_slack(&self, b: Records, c: Records)
        requires
            slack(self.nodes(b), self.tree@.levels[0]),
            owners_ok(self.tree@),
            levels_ok(&self.key_format, self.value_inline, self.nodes(b), self.tree@),
            self.counter_recid == 0 ==> c == b,
            self.counter_recid != 0 ==> self.tree@.owner.contains_key(self.counter_recid)
                && self.tree@.owner[self.counter_recid] is Counter && exists|x: Option<Seq<u8>>|
                c == #[trigger] b.insert(self.counter_recid, x),
        ensures
            slack(self.nodes(c), self.tree@.levels[0]),
            self.nodes_within(b) ==> self.nodes_within(c),
    {
        let t = self.tree@;
        let l = t.levels[0];
        assert forall|x: int, y: int|
            #![trigger t.levels[x][y]]
            0 <= x < t.levels.len() && 0 <= y < t.levels[x].len() implies agree(
            b,
            c,
            t.levels[x][y].0,
        ) by {
            assert(t.owner.contains_key(t.levels[x][y].0));
        }
        self.lemma_within(b, c);
        assert forall|i: int| #![trigger l[i]] 0 <= i < l.len()
            implies self.nodes(c)[l[i].0].keys.len()
            < 0x0fff_ffff by {
            let e = t.levels[0][i];
            assert(t.owner.contains_key(e.0));
            assert(level_ok(
                &self.key_format,
                self.value_inline,
                self.nodes(b),
                t.levels[0],
                false,
            ));
            assert(level_node(&self.key_format, self.value_inline, self.nodes(b), l, i, false));
            assert(node_at(&self.key_format, &self.value_format, self.value_inline, c, e.0)
                == node_at(
                &self.key_format,
                &self.value_format,
                self.value_inline,
                b,
                e.0,
            ));
            assert(self.nodes(b)[l[i].0] == self.nodes(c)[l[i].0]);
        }
    }

    /// Doing nothing changes nothing.
    pub proof fn lemma_same(&self, a: StoreState)
        ensures
            self.same_config(self),
            frames(a, a, self.owned(), self.owned()),
    {
    }

    /// What two changes keep, both keep.
    pub proof fn lemma_same_config(x: &Self, y: &Self, z: &Self)
        requires
            y.same_config(x),
            z.same_config(y),
        ensures
            z.same_config(x),
    {
    }

    /// A map has finitely many entries.
    pub proof fn lemma_finite(&self, records: Records)
        requires
            self.wf(records),
        ensures
            self.contents(records).dom().finite(),
    {
    }

    /// Every record of the map is there.
    pub proof fn lemma_owned_records(&self, records: Records)
        requires
            self.wf(records),
        ensures
            forall|r: u64| #[trigger] self.owned().contains(r) ==> r != 0
                && records.contains_key(r),
    {
        assert forall|r: u64| #[trigger] self.owned().contains(r) implies r != 0
            && records.contains_key(r) by {
            assert(self.tree@.owner.contains_key(r));
        }
    }

    /// What happens to other records leaves the map as it is.
    pub proof fn law_untouched(&self, a: Records, b: Records)
        requires
            self.wf(a),
            forall|r: u64| #[trigger] self.owned().contains(r) ==> b.contains_key(r)
                && b[r] == a[r],
        ensures
            self.wf(b),
            self.contents(b) == self.contents(a),
            self.nodes_within(a) ==> self.nodes_within(b),
    {
        let t = self.tree@;
        assert forall|r: u64| #[trigger] t.owner.contains_key(r) implies agree(a, b, r) by {
            assert(self.owned().contains(r));
        }
        assert forall|x: int, y: int|
            #![trigger t.levels[x][y]]
            0 <= x < t.levels.len() && 0 <= y < t.levels[x].len() implies agree(
            a,
            b,
            t.levels[x][y].0,
        ) by {
            assert(t.owner.contains_key(t.levels[x][y].0));
        }
        self.lemma_within(a, b);
        lemma_tree_frame(
            &self.key_format,
            &self.value_format,
            self.value_inline,
            a,
            b,
            self.root_recid_recid,
            t,
        );
        let l = t.levels[0];
        assert forall|i: int| #![trigger l[i]] 0 <= i < l.len()
            implies self.nodes(b)[l[i].0].keys.len()
            < 0x0fff_ffff by {
            let e = t.levels[0][i];
            assert(level_ok(
                &self.key_format,
                self.value_inline,
                self.nodes(a),
                t.levels[0],
                false,
            ));
            assert(level_node(&self.key_format, self.value_inline, self.nodes(a), l, i, false));
            assert(t.owner.contains_key(e.0));
            lemma_nodes_same(
                &self.key_format,
                &self.value_format,
                self.value_inline,
                a,
                b,
                e.0,
            );
        }
    }

    /// A change that failed left the records of others alone.
    pub proof fn lemma_spared(
        &self,
        old_map: &Self,
        a: StoreState,
        b: StoreState,
        k: Model<KF>,
        spent: nat,
    )
        requires
            self.left_alone(old_map, a, b, spent) || self.taken_or_left(old_map, a, b, k),
        ensures
            keeps_state(a, b),
            spares(a.records, b.records, old_map.owned()),
            ({
                let m = old_map.contents(a.records);
                let now = self.contents(b.records);
                self.spoiled() || now == m || now == m.remove(k)
            }),
    {
        assert(old_map.uncounted().owned() == old_map.owned());
    }

    /// A change that failed left the map as it was.
    pub proof fn lemma_left(&self, old_map: &Self, a: StoreState, b: StoreState, spent: nat)
        requires
            self.left_alone(old_map, a, b, spent),
        ensures
            keeps_state(a, b),
            spares(a.records, b.records, old_map.owned()),
            self.spoiled() || self.contents(b.records) == old_map.contents(a.records),
    {
    }

    /// A change of the map is one of the map without its counter.
    pub proof fn lemma_uncounted(
        &self,
        old_map: &Self,
        a: StoreState,
        b: StoreState,
        m: Map<Model<KF>, Model<VF>>,
        spent: nat,
    )
        requires
            self.became(old_map, a, b, m, spent),
        ensures
            self.uncounted().became(&old_map.uncounted(), a, b, m, spent),
            self.uncounted().contents(b.records) == self.contents(b.records),
    {
    }

    /// Nothing changed.
    pub proof fn lemma_unchanged(&self, a: StoreState)
        requires
            self.wf(a.records),
        ensures
            self.became(self, a, a, self.contents(a.records), 0),
    {
        lemma_levels_same(self.tree@.levels);
        assert forall|r: u64| a.records.contains_key(r) && !self.owned().contains(r) implies
            !self.owned().contains(r) by {}
    }

    /// Gives the entry at a place of a leaf another value.
    pub(super) fn publish_leaf_set<S: Store>(
        &self,
        store: &mut S,
        current: u64,
        n: Node<KF, VF>,
        pos: usize,
        value: &VF::Item,
        Ghost(i): Ghost<int>,
    ) -> (r: Result<()>)
        requires
            node_ok(&self.key_format, self.value_inline, n@),
            node_fits(&self.key_format, &self.value_format, n@),
            pos < n@.keys.len(),
            self.value_format.fits(value@),
        ensures
            keeps_state(old(store).state(), final(store).state()),
            final(store).state().room >= old(store).state().room,
            r is Err ==> final(store).state().records == old(store).state().records,
            self.wf(old(store).state().records) && 0 <= i < self.tree@.levels[0].len()
                && self.tree@.levels[0][i].0 == current && self.nodes(
                old(store).state().records,
            )[current] == n@ ==> {
                &&& old(store).state().writable ==> r is Ok
                &&& old(store).state().read_only && !old(store).state().closed
                    ==> final(store).state().records == old(store).state().records
                        && r == Err::<(), DbError>(
                    DbError::ReadOnly,
                )
                &&& r is Ok ==> self.became(
                    self,
                    old(store).state(),
                    final(store).state(),
                    self.contents(old(store).state().records).insert(
                        n@.keys[pos as int],
                        value@,
                    ),
                    0,
                )
            },
    {
        let ghost a = store.state();
        let ghost good = self.wf(a.records) && 0 <= i < self.tree@.levels[0].len()
            && self.tree@.levels[0][i].0 == current && self.nodes(a.records)[current] == n@;
        let ghost nm = n@;
        proof {
            lemma_levels_same(self.tree@.levels);
            if good {
                lemma_leaf_facts(
                    &self.key_format,
                    &self.value_format,
                    self.value_inline,
                    a.records,
                    self.root_recid_recid,
                    self.counter_recid,
                    self.tree@,
                    i,
                );
                if !self.value_inline {
                    lemma_value_record(
                        &self.key_format,
                        &self.value_format,
                        self.value_inline,
                        a.records,
                        self.root_recid_recid,
                        self.counter_recid,
                        self.tree@,
                        i,
                        pos as int,
                    );
                }
            }
        }
        let Node { flags, link, keys, body } = n;
        let r = match body {
            NodeBody::Leaf { values, fence } => {
                let mut vals = values;
                let ghost before = vals@;
                vals.set(pos, self.value_format.dup(value));
                let updated = Node { flags, link, keys, body: NodeBody::Leaf { values: vals, fence } };
                proof {
                    assert(models(vals@) =~= models(before).update(pos as int, value@));
                    assert(all_fit(&self.value_format, models(vals@)));
                    assert(updated@.body->Leaf_values == models(vals@));
                }
                self.store_update(store, current, &updated)
            },
            NodeBody::ExternalLeaf { recids, fence } => {
                let recid: i64 = recids[pos];
                if recid == 0 {
                    Err(DbError::corrupt("btree recid is zero"))
                } else {
                    update_item(
                        store,
                        #[verifier::truncate] (recid as u64),
                        value,
                        &self.value_format,
                    )
                }
            },
            NodeBody::Dir { .. } => Err(DbError::corrupt("value set on a directory node")),
        };
        proof {
            if good && r is Ok {
                lemma_set_step(
                    &self.key_format,
                    &self.value_format,
                    self.value_inline,
                    a.records,
                    store.state().records,
                    self.root_recid_recid,
                    self.counter_recid,
                    self.tree@,
                    i,
                    pos as int,
                    value@,
                );
                let n2 = choose|n2: NodeM<Model<KF>, Model<VF>>|
                    n2.keys == nm.keys && #[trigger] leaf_replaced(
                        &self.key_format,
                        &self.value_format,
                        self.value_inline,
                        a.records,
                        store.state().records,
                        self.tree@.levels[0],
                        i,
                        n2,
                    );
                let t = self.tree@;
                let b = store.state().records;
                assert(slack(self.nodes(b), t.levels[0]));
                assert forall|x: int, y: int|
                    #![trigger t.levels[x][y]]
                    0 <= x < t.levels.len() && 0 <= y < t.levels[x].len() && t.levels[x][y].0
                        != current implies agree(a.records, b, t.levels[x][y].0) by {
                    assert(t.owner.contains_key(t.levels[x][y].0));
                }
                let e = t.levels[0][i];
                self.lemma_within(a.records, b);
            }
        }
        r
    }

    /// Replaces the value of a key that the map holds; with `expected`, only where the
    /// value equals it. Answers the old value where it was replaced.
    fn replace_internal<S: Store>(
        &self,
        store: &mut S,
        key: &KF::Item,
        expected: Option<&VF::Item>,
        new_value: VF::Item,
    ) -> (r: Result<Option<VF::Item>>)
        requires
            self.value_format.fits(new_value@),
        ensures
            self.refuses(old(store).state(), r),
            self.read_only_in(old(store).state()) ==> {
                let m = self.contents(old(store).state().records);
                let hit = m.contains_key(key@) && (expected matches Some(x) ==> m[key@] == x@);
                &&& final(store).state().records == old(store).state().records
                &&& hit ==> r == Err::<Option<VF::Item>, DbError>(DbError::ReadOnly)
                &&& !hit ==> (r matches Ok(v) && v is None)
            },
            self.wf(old(store).state().records) ==> {
                let m = self.contents(old(store).state().records);
                let hit = m.contains_key(key@) && (expected matches Some(x) ==> m[key@] == x@);
                &&& carried_out(old(store).state(), r)
                &&& r is Err ==> self.left_alone(
                    self,
                    old(store).state(),
                    final(store).state(),
                    0,
                )
                &&& r matches Ok(v) ==> opt_model(v) == (if hit {
                    Some(m[key@])
                } else {
                    None
                })
                &&& r is Ok ==> self.became(
                    self,
                    old(store).state(),
                    final(store).state(),
                    if hit {
                        m.insert(key@, new_value@)
                    } else {
                        m
                    },
                    0,
                )
            },
    {
        let ghost a = store.state();
        let ghost seen = self.wf(a.records);
        proof {
            if seen {
                self.lemma_unchanged(a);
            }
        }
        let mut stack: Vec<u64> = Vec::new();
        let (n, current, path) = match self.find_leaf(store, key, &mut stack) {
            Ok(x) => x,
            Err(e) => {
                return Err(e);
            },
        };
        let pos = search(&self.key_format, &n.keys, key);
        proof {
            if seen {
                match pos {
                    Ok(p) => {
                        self.lemma_search(a.records, path@, key@, p as int);
                    },
                    Err(p) => {
                        self.lemma_search(a.records, path@, key@, p as int);
                    },
                }
                lemma_leaf_facts(
                    &self.key_format,
                    &self.value_format,
                    self.value_inline,
                    a.records,
                    self.root_recid_recid,
                    self.counter_recid,
                    self.tree@,
                    path@[0],
                );
            }
        }
        if n.is_dir() {
            return Err(DbError::corrupt("replace reached a directory node"));
        }
        let p: usize = match pos {
            Ok(p) => p,
            Err(_) => {
                return Ok(None);
            },
        };
        proof {
            if seen && !self.value_inline {
                lemma_value_record(
                    &self.key_format,
                    &self.value_format,
                    self.value_inline,
                    a.records,
                    self.root_recid_recid,
                    self.counter_recid,
                    self.tree@,
                    path@[0],
                    p as int,
                );
            }
        }
        let old_value = match self.leaf_value_at(store, &n.body, p) {
            Ok(v) => v,
            Err(e) => {
                return Err(e);
            },
        };
        if let Some(exp) = expected {
            if !self.value_format.equals(&old_value, exp) {
                return Ok(None);
            }
        }
        match self.publish_leaf_set(store, current, n, p, &new_value, Ghost(path@[0])) {
            Ok(_) => Ok(Some(old_value)),
            Err(e) => {
                proof {
                    if seen {
                        self.lemma_left_alone(self, a, store.state(), 0);
                    }
                }
                Err(e)
            },
        }
    }

    /// Replaces the value of a key that the map holds; answers the old value.
    pub fn replace<S: Store>(&self, store: &mut S, key: &KF::Item, value: VF::Item) -> (r: Result<
        Option<VF::Item>,
    >)
        requires
            self.vf().fits(value@),
        ensures
            self.refuses(old(store).state(), r),
            self.read_only_in(old(store).state()) ==> {
                let m = self.contents(old(store).state().records);
                let hit = m.contains_key(key@);
                &&& final(store).state().records == old(store).state().records
                &&& hit ==> r == Err::<Option<VF::Item>, DbError>(DbError::ReadOnly)
                &&& !hit ==> (r matches Ok(v) && v is None)
            },
            self.wf(old(store).state().records) ==> {
                let m = self.contents(old(store).state().records);
                &&& carried_out(old(store).state(), r)
                &&& r is Err ==> self.left_alone(
                    self,
                    old(store).state(),
                    final(store).state(),
                    0,
                )
                &&& r matches Ok(v) ==> opt_model(v) == lookup(m, key@)
                &&& r is Ok ==> self.became(
                    self,
                    old(store).state(),
                    final(store).state(),
                    if m.contains_key(key@) {
                        m.insert(key@, value@)
                    } else {
                        m
                    },
                    0,
                )
            },
    {
        self.replace_internal(store, key, None, value)
    }

    /// Replaces the value of a key where it equals `old_value`; answers whether it did.
    pub fn replace_if<S: Store>(
        &self,
        store: &mut S,
        key: &KF::Item,
        old_value: &VF::Item,
        new_value: VF::Item,
    ) -> (r: Result<bool>)
        requires
            self.vf().fits(new_value@),
        ensures
            self.refuses(old(store).state(), r),
            self.read_only_in(old(store).state()) ==> {
                let m = self.contents(old(store).state().records);
                let hit = m.contains_key(key@) && m[key@] == old_value@;
                &&& final(store).state().records == old(store).state().records
                &&& hit ==> r == Err::<bool, DbError>(DbError::ReadOnly)
                &&& !hit ==> r == Ok::<bool, DbError>(false)
            },
            self.wf(old(store).state().records) ==> {
                let m = self.contents(old(store).state().records);
                let hit = m.contains_key(key@) && m[key@] == old_value@;
                &&& carried_out(old(store).state(), r)
                &&& r is Err ==> self.left_alone(
                    self,
                    old(store).state(),
                    final(store).state(),
                    0,
                )
                &&& r matches Ok(x) ==> x == (hit)
                &&& r is Ok ==> self.became(
                    self,
                    old(store).state(),
                    final(store).state(),
                    if hit {
                        m.insert(key@, new_value@)
                    } else {
                        m
                    },
                    0,
                )
            },
    {
        match self.replace_internal(store, key, Some(old_value), new_value) {
            Ok(v) => Ok(v.is_some()),
            Err(e) => Err(e),
        }
    }

    /// An entry whose value record was not freed is gone from the map all the same.
    proof fn lemma_undeleted(&self, old_map: &Self, a: StoreState, b: StoreState, i: int, p: int)
        requires
            old_map.wf(a.records),
            !old_map.value_inline,
            old_map.counter_recid == 0,
            self.same_config(old_map),
            self.left_edges == old_map.left_edges,
            self.cached_root == old_map.cached_root,
            self.poisoned == old_map.poisoned,
            keeps_state(a, b),
            b.room >= a.room,
            0 <= i < old_map.tree@.levels[0].len(),
            ({
                let t = old_map.tree@;
                let id = t.levels[0][i].0;
                let n = old_map.nodes(a.records)[id];
                let n2 = without_entry(n, p);
                &&& 0 <= p < n.keys.len()
                &&& node_fits(&self.key_format, &self.value_format, n2)
                &&& b.records == a.records.insert(
                    id,
                    Some(enc_node(&self.key_format, &self.value_format, n2)),
                )
                &&& self.tree@ == (Tree {
                    levels: t.levels,
                    offs: t.offs,
                    owner: t.owner.remove(n.body->recids[p] as u64),
                })
            }),
        ensures
            ({
                let id = old_map.tree@.levels[0][i].0;
                let k = old_map.nodes(a.records)[id].keys[p];
                self.became(old_map, a, b, old_map.contents(a.records).remove(k), 0)
            }),
    {
        let t = old_map.tree@;
        let t2 = self.tree@;
        let e = t.levels[0][i];
        let n = old_map.nodes(a.records)[e.0];
        let recid = n.body->recids[p] as u64;
        let deleted = b.records.remove(recid);
        lemma_leaf_facts(
            &self.key_format,
            &self.value_format,
            self.value_inline,
            a.records,
            self.root_recid_recid,
            self.counter_recid,
            t,
            i,
        );
        lemma_value_record(
            &self.key_format,
            &self.value_format,
            self.value_inline,
            a.records,
            self.root_recid_recid,
            self.counter_recid,
            t,
            i,
            p,
        );
        lemma_remove_step(
            &self.key_format,
            &self.value_format,
            self.value_inline,
            a.records,
            deleted,
            self.root_recid_recid,
            self.counter_recid,
            t,
            i,
            p,
            t2.owner,
        );
        lemma_levels_same(t.levels);
        assert(left_edges_of(t2) =~= left_edges_of(t));
        assert(slack(self.nodes(deleted), t.levels[0]));
        assert(self.wf(deleted));
        assert forall|r: u64| #[trigger] self.owned().contains(r) implies b.records.contains_key(r)
            && b.records[r] == deleted[r] by {
            assert(deleted.contains_key(r)) by {
                assert(t2.owner.contains_key(r));
            }
        }
        self.law_untouched(deleted, b.records);
        assert(t.owner.contains_key(e.0));
        lemma_nodes_write(
            &self.key_format,
            &self.value_format,
            self.value_inline,
            a.records,
            e.0,
            without_entry(n, p),
        );
        self.lemma_within(a.records, b.records);
    }

    /// Removes a key; with `expected`, only where its value equals it. Answers the
    /// value where it was removed.
    #[verifier::spinoff_prover]
    #[verifier::rlimit(40)]
    pub(super) fn remove_internal<S: Store>(
        &mut self,
        store: &mut S,
        key: &KF::Item,
        expected: Option<&VF::Item>,
    ) -> (r: Result<Option<VF::Item>>)
        ensures
            old(self).refuses(old(store).state(), r),
            old(self).read_only_in(old(store).state()) ==> {
                let m = old(self).contents(old(store).state().records);
                let hit = m.contains_key(key@) && (expected matches Some(x) ==> m[key@] == x@);
                &&& final(store).state().records == old(store).state().records
                &&& hit ==> r == Err::<Option<VF::Item>, DbError>(DbError::ReadOnly)
                &&& !hit ==> (r matches Ok(v) && v is None)
            },
            old(self).wf(old(store).state().records) ==> {
                let m = old(self).contents(old(store).state().records);
                let hit = m.contains_key(key@) && (expected matches Some(x) ==> m[key@] == x@);
                &&& carried_out(old(store).state(), r)
                &&& r is Err ==> final(self).taken_or_left(
                    old(self),
                    old(store).state(),
                    final(store).state(),
                    key@,
                )
                &&& r is Err && !hit ==> final(self).left_alone(
                    old(self),
                    old(store).state(),
                    final(store).state(),
                    0,
                )
                &&& r matches Ok(v) ==> opt_model(v) == (if hit {
                    Some(m[key@])
                } else {
                    None
                })
                &&& r is Ok ==> final(self).became(
                    old(self),
                    old(store).state(),
                    final(store).state(),
                    if hit {
                        m.remove(key@)
                    } else {
                        m
                    },
                    0,
                )
            },
            final(self).same_config(old(self)),
    {
        let ghost a = store.state();
        let ghost seen = self.wf(a.records);
        let ghost good = seen;
        let ghost t = self.tree@;
        let ghost m = self.contents(a.records);
        proof {
            if seen {
                self.lemma_unchanged(a);
            }
        }
        let mut stack: Vec<u64> = Vec::new();
        let (n, current, path) = match self.find_leaf(store, key, &mut stack) {
            Ok(x) => x,
            Err(e) => {
                return Err(e);
            },
        };
        let pos = search(&self.key_format, &n.keys, key);
        let ghost i = path@[0];
        proof {
            if seen {
                match pos {
                    Ok(p) => {
                        self.lemma_search(a.records, path@, key@, p as int);
                    },
                    Err(p) => {
                        self.lemma_search(a.records, path@, key@, p as int);
                    },
                }
                lemma_leaf_facts(
                    &self.key_format,
                    &self.value_format,
                    self.value_inline,
                    a.records,
                    self.root_recid_recid,
                    self.counter_recid,
                    t,
                    i,
                );
            }
        }
        if n.is_dir() {
            return Err(DbError::corrupt("remove reached a directory node"));
        }
        let p: usize = match pos {
            Ok(p) => p,
            Err(_) => {
                return Ok(None);
            },
        };
        proof {
            if seen && !self.value_inline {
                lemma_value_record(
                    &self.key_format,
                    &self.value_format,
                    self.value_inline,
                    a.records,
                    self.root_recid_recid,
                    self.counter_recid,
                    t,
                    i,
                    p as int,
                );
            }
        }
        let old_value = match self.leaf_value_at(store, &n.body, p) {
            Ok(v) => v,
            Err(e) => {
                return Err(e);
            },
        };
        if let Some(exp) = expected {
            if !self.value_format.equals(&old_value, exp) {
                return Ok(None);
            }
        }
        let ghost nm = n@;
        let ghost n2 = without_entry(nm, p as int);
        let Node { flags, link, keys, body } = n;
        let mut keys = keys;
        let ghost keys0 = keys@;
        let _removed = keys.remove(p);
        assert(models(keys@) =~= nm.keys.remove(p as int));
        let mut value_recid: u64 = 0;
        let body = match body {
            NodeBody::Leaf { values, fence } => {
                let mut values = values;
                let ghost before = values@;
                let _v = values.remove(p);
                assert(models(values@) =~= models(before).remove(p as int));
                NodeBody::Leaf { values, fence }
            },
            NodeBody::ExternalLeaf { recids, fence } => {
                let mut recids = recids;
                let x: i64 = recids.remove(p);
                if x == 0 {
                    return Err(DbError::corrupt("btree recid is zero"));
                }
                value_recid = #[verifier::truncate] (x as u64);
                NodeBody::ExternalLeaf { recids, fence }
            },
            NodeBody::Dir { .. } => {
                return Err(DbError::corrupt("remove reached a directory node"));
            },
        };
        let updated = Node { flags, link, keys, body };
        proof {
            assert(updated@ == n2);
            crate::btree::steps::lemma_without_entry(
                &self.key_format,
                self.value_inline,
                nm,
                p as int,
                None,
                None,
            );
            assert(node_fits(&self.key_format, &self.value_format, n2));
        }
        match self.store_update(store, current, &updated) {
            Ok(_) => {},
            Err(e) => {
                proof {
                    if seen {
                        self.lemma_left_alone(old(self), a, store.state(), 0);
                    }
                }
                return Err(e);
            },
        }
        let ghost owner2 = if self.value_inline {
            t.owner
        } else {
            t.owner.remove(nm.body->recids[p as int] as u64)
        };
        let ghost t2 = Tree { levels: t.levels, offs: t.offs, owner: owner2 };
        if !self.value_inline {
            match store.delete(value_recid) {
                Ok(_) => {},
                Err(e) => {
                    proof {
                        if good {
                            self.tree@ = t2;
                            if self.counter_recid == 0 {
                                self.lemma_undeleted(old(self), a, store.state(), i, p as int);
                            } else {
                                assert(t.owner.contains_key(self.counter_recid));
                                assert(t.owner.contains_key(current));
                                self.uncounted().lemma_undeleted(
                                    &old(self).uncounted(),
                                    a,
                                    store.state(),
                                    i,
                                    p as int,
                                );
                                assert(self.uncounted().became(
                                    &old(self).uncounted(),
                                    a,
                                    store.state(),
                                    m.remove(key@),
                                    0,
                                ));
                            }
                        }
                    }
                    return Err(e);
                },
            }
        }
        let ghost b = store.state();
        proof {
            if good {
                lemma_remove_step(
                    &self.key_format,
                    &self.value_format,
                    self.value_inline,
                    a.records,
                    b.records,
                    self.root_recid_recid,
                    self.counter_recid,
                    t,
                    i,
                    p as int,
                    owner2,
                );
                self.tree@ = t2;
                lemma_levels_same(t.levels);
                if self.counter_recid != 0 {
                    assert(item_at(&LONG, b.records, self.counter_recid) == item_at(
                        &LONG,
                        a.records,
                        self.counter_recid,
                    ));
                }
            }
        }
        match self.add_to_counter(store, -1) {
            Ok(_) => {},
            Err(e) => {
                proof {
                    if good {
                        let e = t.levels[0][i];
                        assert(spares(a.records, store.state().records, t.owner.dom()));
                    }
                }
                self.poison();
                return Err(e);
            },
        }
        proof {
            if good {
                if self.counter_recid != 0 {
                    lemma_counter_step(
                        &self.key_format,
                        &self.value_format,
                        self.value_inline,
                        b.records,
                        self.root_recid_recid,
                        self.counter_recid,
                        t2,
                        (m.len() - 1) as i64,
                    );
                }
                assert(self.contents(store.state().records) == m.remove(key@));
                assert(slack(self.nodes(b.records), t.levels[0]));
                assert forall|x: int, y: int|
                    #![trigger t.levels[x][y]]
                    0 <= x < t.levels.len() && 0 <= y < t.levels[x].len() && t.levels[x][y].0
                        != current implies agree(a.records, b.records, t.levels[x][y].0) by {
                    assert(t.owner.contains_key(t.levels[x][y].0));
                }
                let e = t.levels[0][i];
                self.lemma_within(a.records, b.records);
                self.lemma_counter_slack(b.records, store.state().records);
                assert(left_edges_of(t2) =~= left_edges_of(t));
                assert(self.wf(store.state().records));
                assert(frames(a, store.state(), t.owner.dom(), t2.owner.dom()));
            }
        }
        Ok(Some(old_value))
    }

    /// Removes a key; answers its value.
    pub fn remove<S: Store>(
        &mut self,
        store: &mut S,
        key: &KF::Item,
    ) -> (r: Result<Option<VF::Item>>)
        ensures
            old(self).refuses(old(store).state(), r),
            old(self).read_only_in(old(store).state()) ==> {
                let m = old(self).contents(old(store).state().records);
                let hit = m.contains_key(key@);
                &&& final(store).state().records == old(store).state().records
                &&& hit ==> r == Err::<Option<VF::Item>, DbError>(DbError::ReadOnly)
                &&& !hit ==> (r matches Ok(v) && v is None)
            },
            old(self).wf(old(store).state().records) ==> {
                let m = old(self).contents(old(store).state().records);
                &&& carried_out(old(store).state(), r)
                &&& r is Err ==> final(self).taken_or_left(
                    old(self),
                    old(store).state(),
                    final(store).state(),
                    key@,
                )
                &&& r matches Ok(v) ==> opt_model(v) == lookup(m, key@)
                &&& r is Ok ==> final(self).became(
                    old(self),
                    old(store).state(),
                    final(store).state(),
                    m.remove(key@),
                    0,
                )
            },
            final(self).same_config(old(self)),
    {
        let ghost m = self.contents(store.state().records);
        let r = self.remove_internal(store, key, None);
        assert(!m.contains_key(key@) ==> m.remove(key@) =~= m);
        r
    }

    /// Removes a key where its value equals `value`; answers whether it did.
    pub fn remove_if<S: Store>(
        &mut self,
        store: &mut S,
        key: &KF::Item,
        value: &VF::Item,
    ) -> (r: Result<bool>)
        ensures
            old(self).refuses(old(store).state(), r),
            old(self).read_only_in(old(store).state()) ==> {
                let m = old(self).contents(old(store).state().records);
                let hit = m.contains_key(key@) && m[key@] == value@;
                &&& final(store).state().records == old(store).state().records
                &&& hit ==> r == Err::<bool, DbError>(DbError::ReadOnly)
                &&& !hit ==> r == Ok::<bool, DbError>(false)
            },
            old(self).wf(old(store).state().records) ==> {
                let m = old(self).contents(old(store).state().records);
                let hit = m.contains_key(key@) && m[key@] == value@;
                &&& carried_out(old(store).state(), r)
                &&& r is Err ==> final(self).taken_or_left(
                    old(self),
                    old(store).state(),
                    final(store).state(),
                    key@,
                )
                &&& r is Err && !hit ==> final(self).left_alone(
                    old(self),
                    old(store).state(),
                    final(store).state(),
                    0,
                )
                &&& r matches Ok(x) ==> x == (hit)
                &&& r is Ok ==> final(self).became(
                    old(self),
                    old(store).state(),
                    final(store).state(),
                    if hit {
                        m.remove(key@)
                    } else {
                        m
                    },
                    0,
                )
            },
            final(self).same_config(old(self)),
    {
        match self.remove_internal(store, key, Some(value)) {
            Ok(v) => Ok(v.is_some()),
            Err(e) => Err(e),
        }
    }

    /// Removes a key; answers whether the map held it.
    pub fn remove_only<S: Store>(&mut self, store: &mut S, key: &KF::Item) -> (r: Result<bool>)
        ensures
            old(self).refuses(old(store).state(), r),
            old(self).read_only_in(old(store).state()) ==> {
                let m = old(self).contents(old(store).state().records);
                let hit = m.contains_key(key@);
                &&& final(store).state().records == old(store).state().records
                &&& hit ==> r == Err::<bool, DbError>(DbError::ReadOnly)
                &&& !hit ==> r == Ok::<bool, DbError>(false)
            },
            old(self).wf(old(store).state().records) ==> {
                let m = old(self).contents(old(store).state().records);
                &&& carried_out(old(store).state(), r)
                &&& r is Err ==> final(self).taken_or_left(
                    old(self),
                    old(store).state(),
                    final(store).state(),
                    key@,
                )
                &&& r matches Ok(x) ==> x == (m.contains_key(key@))
                &&& r is Ok ==> final(self).became(
                    old(self),
                    old(store).state(),
                    final(store).state(),
                    m.remove(key@),
                    0,
                )
            },
            final(self).same_config(old(self)),
    {
        match self.remove(store, key) {
            Ok(v) => Ok(v.is_some()),
            Err(e) => Err(e),
        }
    }
}

} // verus!
