//! Building a whole map from entries in key order.

use vstd::prelude::*;
use std::cmp::Ordering;
use crate::btree::contents::{
    agree, contents_of, is_node, lemma_contents_of, lemma_contents_unique,
    lemma_level_distinct_keys, lemma_nodes_same, lemma_tree_unique, level_entries, lists,
    owners_ok, root_of, slack, tree_ok, value_record_ok, values_ok,
};
use crate::btree::node::{enc_node, node_fits, node_ok, Node, NodeBody, NodeM, NodeSerializer};
use crate::btree::pump::{
    built_tree, filled, lemma_pump_entries, node_written, packed_leaf, pump_frames, usual_fill,
    NodeSink, TreePump,
};
use crate::btree::range::{entry_models, lemma_lists_len, lemma_lists_push};
use crate::btree::tree::{level_node, level_ok, levels_ok, nodes_of, Owner, Tree};
use crate::error::{DbError, Result};
use crate::io::DataOutput2;
use crate::ser::{group_key_order, models, KeyFormat, Model, Serializer, LONG};
use crate::store::{
    keeps_state, lemma_enc_dec, put_item, turned_down, Records, Store, StoreState,
};
use super::open::{is_tree, stored, stored_map, stored_recids, stored_tree};
use super::split::lemma_pointer_frame;
use super::BTreeMap;

verus! {

/// Writes the nodes of a map with values in its leaves.
pub struct BTreeSink<'a, KF: KeyFormat, VF: Serializer> {
    key_format: &'a KF,
    value_format: &'a VF,
    max_node_size: usize,
}

impl<'a, KF: KeyFormat, VF: Serializer> BTreeSink<'a, KF, VF> {
    fn write<S: Store>(&self, store: &mut S, recid: u64, node: &Node<KF, VF>) -> (r: Result<()>)
        requires
            node_ok(self.key_format, true, node@),
            node_fits(self.key_format, self.value_format, node@),
        ensures
            node_written(
                old(store).state(),
                final(store).state(),
                recid,
                self.bytes_of(node@),
                r,
            ),
    {
        let ns = NodeSerializer::new(self.key_format, self.value_format, self.max_node_size);
        let mut out = DataOutput2::with_capacity(ns.size_hint);
        ns.serialize(&mut out, node);
        assert(out@ =~= enc_node(self.key_format, self.value_format, node@));
        store.update(recid, Some(out.into_vec()))
    }
}

impl<'a, KF: KeyFormat, VF: Serializer> NodeSink for BTreeSink<'a, KF, VF> {
    type KF = KF;

    type VF = VF;

    closed spec fn kf(&self) -> KF {
        *self.key_format
    }

    closed spec fn vf(&self) -> VF {
        *self.value_format
    }

    closed spec fn bytes_of(&self, n: NodeM<Model<KF>, Model<VF>>) -> Seq<u8> {
        enc_node(self.key_format, self.value_format, n)
    }

    fn key_format(&self) -> &KF {
        self.key_format
    }

    fn compare_keys(&self, a: &KF::Item, b: &KF::Item) -> Ordering {
        broadcast use group_key_order;

        if self.key_format.less(a, b) {
            Ordering::Less
        } else if self.key_format.less(b, a) {
            Ordering::Greater
        } else {
            Ordering::Equal
        }
    }

    fn write_leaf<S: Store>(
        &self,
        store: &mut S,
        recid: u64,
        flags: i32,
        link: u64,
        keys: Vec<KF::Item>,
        values: Vec<VF::Item>,
    ) -> Result<()> {
        let ghost n = packed_leaf::<Model<KF>, Model<VF>>(
            flags,
            link,
            models(keys@),
            models(values@),
        );
        let fence: Option<KF::Item> = if flags & 2 == 0 {
            Some(self.key_format.dup(&keys[keys.len() - 1]))
        } else {
            None
        };
        let node: Node<KF, VF> = Node { flags, link, keys, body: NodeBody::Leaf { values, fence } };
        assert(node@ == n);
        self.write(store, recid, &node)
    }

    fn write_dir<S: Store>(
        &self,
        store: &mut S,
        recid: u64,
        flags: i32,
        link: u64,
        keys: Vec<KF::Item>,
        children: Vec<u64>,
    ) -> Result<()> {
        let node: Node<KF, VF> = Node { flags, link, keys, body: NodeBody::Dir { children } };
        self.write(store, recid, &node)
    }
}

/// A finished tree: its root, the tree and its entries.
pub(super) type Pumped<KF, VF> = (u64, Ghost<Tree<Model<KF>>>, Ghost<Map<Model<KF>, Model<VF>>>);

/// How many records a bulk build of `n` entries can allocate.
pub open spec fn bulk_room(n: nat) -> nat {
    2 * ((n + 1) * (n + 2)) + 2
}

/// The keys of the entries ascend strictly.
pub open spec fn ascending<KF: KeyFormat, V>(kf: &KF, s: Seq<(Model<KF>, V)>) -> bool {
    forall|i: int, j: int| #![trigger s[i], s[j]] 0 <= i < j < s.len() ==> kf.lt(s[i].0, s[j].0)
}

/// A store that takes no records turns a bulk build down when the first leaf is full or the
/// entries are at an end; keys that are out of order before are found first.
pub open spec fn refused_at<KF: KeyFormat, V, T>(
    kf: &KF,
    a: StoreState,
    b: StoreState,
    fill: int,
    entries: Seq<(Model<KF>, V)>,
    r: Result<T>,
) -> bool {
    let seen = if entries.len() <= fill {
        entries
    } else {
        entries.take(fill + 1)
    };
    if ascending(kf, seen) {
        turned_down(a, b, r)
    } else {
        r == Err::<T, DbError>(DbError::NotSorted) && b.records == a.records
    }
}

impl<KF: KeyFormat, VF: Serializer> BTreeMap<KF, VF> {
    /// What a bulk build does.
    pub open spec fn bulk_post(
        a: StoreState,
        b: StoreState,
        key_format: KF,
        value_format: VF,
        max_node_size: usize,
        fill: int,
        entries: Seq<(Model<KF>, Model<VF>)>,
        counter_enable: bool,
        r: Result<Self>,
    ) -> bool {
        let sized = 4 <= max_node_size <= 1048576;
        let enough = a.readable && a.writable && a.room >= bulk_room(entries.len()) && entries.len()
            < i64::MAX;
        &&& !sized ==> r is Err && r->Err_0 is WrongConfiguration && b == a
        &&& keeps_state(a, b)
        &&& r is Ok || enough ==> forall|x: u64| #[trigger]
            a.records.contains_key(x) ==> b.records.contains_key(x) && b.records[x] == a.records[x]
        &&& sized && !ascending(&key_format, entries) ==> r is Err
        &&& sized && (a.closed || a.read_only) ==> refused_at(&key_format, a, b, fill, entries, r)
        &&& sized && enough && !ascending(&key_format, entries) ==> r == Err::<Self, DbError>(
            DbError::NotSorted,
        )
        &&& r matches Ok(map) ==> {
            &&& map.kf() == key_format
            &&& map.vf() == value_format
            &&& map.node_size() == max_node_size
            &&& (map.counter() != 0) == counter_enable
            &&& map.inline()
        }
        &&& sized && enough && ascending(&key_format, entries) ==> r is Ok
        &&& r is Ok && entries.len() < i64::MAX ==> {
            let map = r.unwrap();
            &&& map.wf(b.records)
            &&& lists(&key_format, entries, map.contents(b.records))
            &&& filled(
                nodes_of(&key_format, &value_format, true, b.records),
                stored_tree(
                    &key_format,
                    &value_format,
                    true,
                    b.records,
                    map.pointer(),
                    map.counter(),
                ),
                fill as nat,
            )
            &&& fill <= max_node_size ==> map.nodes_within(b.records)
            &&& forall|x: u64| #[trigger] a.records.contains_key(x) ==> !map.owned().contains(x)
        }
    }

    /// Builds a map from entries whose keys ascend strictly. Nodes are filled with
    /// `node_fill` keys, and values stand in the leaves.
    pub fn create_from_sorted_fill<S: Store>(
        store: &mut S,
        key_format: KF,
        value_format: VF,
        max_node_size: usize,
        node_fill: usize,
        entries: Vec<(KF::Item, VF::Item)>,
        counter_enable: bool,
    ) -> (r: Result<Self>)
        requires
            4 <= max_node_size <= 1048576 ==> 2 <= node_fill <= max_node_size,
            forall|i: int|
                #![trigger entries@[i]]
                0 <= i < entries@.len() ==> key_format.fits(entries@[i].0@) && value_format.fits(
                    entries@[i].1@,
                ),
        ensures
            Self::bulk_post(
                old(store).state(),
                final(store).state(),
                key_format,
                value_format,
                max_node_size,
                node_fill as int,
                entry_models(entries@),
                counter_enable,
                r,
            ),
    {
        let ghost a = store.state();
        let ghost es = entry_models(entries@);
        let ghost n = es.len();
        if max_node_size < 4 || max_node_size > 1048576 {
            return Err(DbError::wrong_config(String::from_str("maxNodeSize must be in 4..=1048576")));
        }
        let count: i64 = #[verifier::truncate] (entries.len() as i64);
        let root: u64;
        let ghost mut t: Tree<Model<KF>> = arbitrary();
        let ghost mut m: Map<Model<KF>, Model<VF>> = Map::empty();
        {
            let sink = BTreeSink { key_format: &key_format, value_format: &value_format, max_node_size };
            match Self::pump_all(store, &sink, max_node_size, node_fill, entries) {
                Ok((x, gt, gm)) => {
                    root = x;
                    proof {
                        t = gt@;
                        m = gm@;
                    }
                },
                Err(e) => {
                    return Err(e);
                },
            }
        }
        let ghost b = store.state();
        let pointer: i64 = #[verifier::truncate] (root as i64);
        let rrr: u64 = match put_item(store, &pointer, &LONG) {
            Ok(x) => x,
            Err(e) => {
                return Err(e);
            },
        };
        let mut counter: u64 = 0;
        if counter_enable {
            match put_item(store, &count, &LONG) {
                Ok(x) => {
                    counter = x;
                },
                Err(e) => {
                    return Err(e);
                },
            }
        }
        let ghost d = store.state();
        proof {
            lemma_lists_len(&key_format, es, m);
            if n < i64::MAX {
                lemma_bulk_tree(
                    &key_format,
                    &value_format,
                    a.records,
                    b.records,
                    d.records,
                    root,
                    rrr,
                    counter,
                    t,
                    m,
                    node_fill as nat,
                );
            }
            assert forall|x: u64| #[trigger] a.records.contains_key(x)
                implies d.records.contains_key(
                x,
            ) && d.records[x] == a.records[x] by {
                assert(b.records.contains_key(x));
            }
        }
        Self::open_mode(
            store,
            rrr,
            key_format,
            value_format,
            max_node_size,
            counter,
            true,
        )
    }

    /// Puts all entries through a pump.
    fn pump_all<'a, S: Store>(
        store: &mut S,
        sink: &BTreeSink<'a, KF, VF>,
        max_node_size: usize,
        node_fill: usize,
        entries: Vec<(KF::Item, VF::Item)>,
    ) -> (r: Result<Pumped<KF, VF>>)
        requires
            2 <= node_fill <= max_node_size <= 1048576,
            forall|i: int|
                #![trigger entries@[i]]
                0 <= i < entries@.len() ==> sink.key_format.fits(entries@[i].0@)
                    && sink.value_format.fits(entries@[i].1@),
        ensures
            ({
                let a = old(store).state();
                let b = final(store).state();
                let es = entry_models(entries@);
                let n = es.len();
                let ordered = ascending(sink.key_format, es);
                let enough = a.writable && a.room >= bulk_room(n);
                &&& keeps_state(a, b)
                &&& r is Ok || enough ==> forall|x: u64| #[trigger]
                    a.records.contains_key(x) ==> b.records.contains_key(x) && b.records[x]
                        == a.records[x]
                &&& !ordered ==> r is Err
                &&& !ordered && enough ==> r == Err::<Pumped<KF, VF>, DbError>(DbError::NotSorted)
                &&& a.closed || a.read_only ==> refused_at(
                    sink.key_format,
                    a,
                    b,
                    node_fill as int,
                    es,
                    r,
                )
                &&& ordered && enough ==> r is Ok && b.room >= 2
                &&& r matches Ok((root, t, m)) ==> {
                    &&& 0 < root <= i64::MAX
                    &&& root_of(t@) == root
                    &&& lists(sink.key_format, es, m@)
                    &&& built_tree(
                        sink.key_format,
                        sink.value_format,
                        a.records,
                        b.records,
                        Set::empty(),
                        m@,
                        t@,
                    )
                    &&& filled(
                        nodes_of(sink.key_format, sink.value_format, true, b.records),
                        t@,
                        node_fill as nat,
                    )
                }
            }),
    {
        let ghost a = store.state();
        let ghost es = entry_models(entries@);
        let ghost n = es.len();
        let ghost enough = a.writable && a.room >= bulk_room(n);
        let ghost frozen = a.closed || a.read_only;
        let mut pump: TreePump<BTreeSink<KF, VF>> = TreePump::new(sink, max_node_size, node_fill);
        let len: usize = entries.len();
        let ghost all = entries@;
        let mut source = entries;
        let mut rest: Vec<(KF::Item, VF::Item)> = Vec::new();
        while source.len() > 0
            invariant
                rest@.len() + source@.len() == all.len(),
                forall|x: int| 0 <= x < source@.len() ==> #[trigger] source@[x] == all[x],
                forall|x: int|
                    0 <= x < rest@.len() ==> #[trigger] rest@[x] == all[all.len() - 1 - x],
            decreases source@.len(),
        {
            match source.pop() {
                Some(e) => {
                    rest.push(e);
                },
                None => {},
            }
        }
        let mut i: usize = 0;
        proof {
            assert(es.take(0) =~= Seq::empty());
            assert(pump.ready(a.records));
        }
        while i < len
            invariant
                i <= len,
                len == n,
                len == all.len(),
                rest@.len() == len - i,
                all == entries@,
                es == entry_models(all),
                forall|x: int|
                    0 <= x < rest@.len() ==> #[trigger] rest@[x] == all[all.len() - 1 - x],
                forall|x: int|
                    #![trigger all[x]]
                    0 <= x < all.len() ==> sink.key_format.fits(all[x].0@)
                        && sink.value_format.fits(all[x].1@),
                pump.ready(store.state().records),
                pump.sink_of() == *sink,
                lists(sink.key_format, es.take(i as int), pump.given()),
                pump.last_key() == if i == 0 {
                    None
                } else {
                    Some(es[i - 1].0)
                },
                pump.levels_count() <= 1 + i,
                keeps_state(a, store.state()),
                store.state().room + 2 * (i * (n + 2)) >= a.room,
                pump_frames(a, store.state(), Set::empty(), pump.owned()),
                a == old(store).state(),
                enough == (a.writable && a.room >= bulk_room(n)),
                frozen == (a.closed || a.read_only),
                pump.fill() == node_fill,
                frozen ==> store.state() == a && pump.held() == i && i <= node_fill,
            decreases len - i,
        {
            let e = match rest.pop() {
                Some(e) => e,
                None => {
                    assert(false);
                    return Err(DbError::NotSorted);
                },
            };
            let (k, v) = e;
            let ghost b = store.state();
            let ghost before = pump;
            proof {
                assert(all[i as int] == (k, v));
                assert(es[i as int] == (k@, v@));
                lemma_bulk_room(i as nat, n);
            }
            match pump.put(store, k, v) {
                Ok(_) => {},
                Err(e) => {
                    proof {
                        if i > 0 && !sink.key_format.lt(es[i - 1].0, es[i as int].0) {
                            assert(!ascending(sink.key_format, es));
                        }
                        if frozen {
                            let seen = if n <= node_fill {
                                es
                            } else {
                                es.take(node_fill + 1)
                            };
                            if i > 0 && !sink.key_format.lt(es[i - 1].0, es[i as int].0) {
                                assert(seen[i - 1] == es[i - 1] && seen[i as int] == es[i as int]);
                                assert(!ascending(sink.key_format, seen));
                            } else {
                                assert(i == node_fill);
                                lemma_bulk_put(sink.key_format, es, before.given(), i as int);
                                assert(seen =~= es.take(i + 1));
                            }
                        }
                    }
                    return Err(e);
                },
            }
            proof {
                lemma_bulk_put(sink.key_format, es, before.given(), i as int);
                lemma_frames_twice(a, b, store.state(), before.owned(), pump.owned());
            }
            i = i + 1;
        }
        let ghost b = store.state();
        let ghost m = pump.given();
        let ghost owned = pump.owned();
        proof {
            assert(es.take(n as int) =~= es);
            lemma_bulk_room(n, n);
        }
        match pump.finish_tree(store) {
            Ok((root, t)) => {
                proof {
                    lemma_bulk_built(
                        sink.key_format,
                        sink.value_format,
                        a,
                        b,
                        store.state(),
                        owned,
                        m,
                        t@,
                    );
                }
                Ok((root, t, Ghost(m)))
            },
            Err(e) => Err(e),
        }
    }

    /// Builds a map without a size counter from entries whose keys ascend strictly.
    pub fn create_from_sorted<S: Store>(
        store: &mut S,
        key_format: KF,
        value_format: VF,
        max_node_size: usize,
        entries: Vec<(KF::Item, VF::Item)>,
    ) -> (r: Result<Self>)
        requires
            forall|i: int|
                #![trigger entries@[i]]
                0 <= i < entries@.len() ==> key_format.fits(entries@[i].0@) && value_format.fits(
                    entries@[i].1@,
                ),
        ensures
            Self::bulk_post(
                old(store).state(),
                final(store).state(),
                key_format,
                value_format,
                max_node_size,
                usual_fill(max_node_size),
                entry_models(entries@),
                false,
                r,
            ),
    {
        Self::create_from_sorted_counter(
            store,
            key_format,
            value_format,
            max_node_size,
            entries,
            false,
        )
    }

    /// Builds a map from entries whose keys ascend strictly, where asked for with a
    /// size counter.
    pub fn create_from_sorted_counter<S: Store>(
        store: &mut S,
        key_format: KF,
        value_format: VF,
        max_node_size: usize,
        entries: Vec<(KF::Item, VF::Item)>,
        counter_enable: bool,
    ) -> (r: Result<Self>)
        requires
            forall|i: int|
                #![trigger entries@[i]]
                0 <= i < entries@.len() ==> key_format.fits(entries@[i].0@) && value_format.fits(
                    entries@[i].1@,
                ),
        ensures
            Self::bulk_post(
                old(store).state(),
                final(store).state(),
                key_format,
                value_format,
                max_node_size,
                usual_fill(max_node_size),
                entry_models(entries@),
                counter_enable,
                r,
            ),
    {
        let fill: usize = TreePump::<BTreeSink<KF, VF>>::default_fill(max_node_size);
        Self::create_from_sorted_fill(
            store,
            key_format,
            value_format,
            max_node_size,
            fill,
            entries,
            counter_enable,
        )
    }
}

proof fn lemma_bulk_room(i: nat, n: nat)
    requires
        i <= n,
    ensures
        2 * (i * (n + 2)) + 2 * (n + 2) + 2 <= bulk_room(n),
        (i + 1) * (n + 2) == i * (n + 2) + (n + 2),
{
    assert(i * (n + 2) <= n * (n + 2)) by (nonlinear_arith)
        requires
            i <= n,
    ;
    assert((n + 1) * (n + 2) == n * (n + 2) + (n + 2)) by (nonlinear_arith);
    assert((i + 1) * (n + 2) == i * (n + 2) + (n + 2)) by (nonlinear_arith);
}

/// The entries put so far are listed by what was taken so far.
proof fn lemma_bulk_put<KF: KeyFormat, V>(
    kf: &KF,
    es: Seq<(Model<KF>, V)>,
    m: Map<Model<KF>, V>,
    i: int,
)
    requires
        0 <= i < es.len(),
        lists(kf, es.take(i), m),
        i > 0 ==> kf.lt(es[i - 1].0, es[i].0),
    ensures
        lists(kf, es.take(i + 1), m.insert(es[i].0, es[i].1)),
{
    broadcast use group_key_order;

    let r = es.take(i);
    assert forall|k: Model<KF>| #[trigger] m.contains_key(k) implies kf.lt(k, es[i].0) by {
        let j = choose|j: int| 0 <= j < r.len() && (#[trigger] r[j]).0 == k;
        if j < i - 1 {
            assert(kf.lt(r[j].0, r[i - 1].0));
        }
    }
    lemma_lists_push(kf, r, m, es[i].0, es[i].1);
    assert(es.take(i + 1) =~= r.push((es[i].0, es[i].1)));
}

proof fn lemma_frames_twice(
    a: StoreState,
    b: StoreState,
    c: StoreState,
    owned: Set<u64>,
    owned2: Set<u64>,
)
    requires
        pump_frames(a, b, Set::empty(), owned),
        pump_frames(b, c, owned, owned2),
    ensures
        pump_frames(a, c, Set::empty(), owned2),
{
    assert forall|r: u64| #[trigger] a.records.contains_key(r) implies c.records.contains_key(r)
        && c.records[r] == a.records[r] && !owned2.contains(r) by {
        assert(b.records.contains_key(r));
    }
}

proof fn lemma_bulk_built<KF: KeyFormat, VF: Serializer>(
    kf: &KF,
    vf: &VF,
    a: StoreState,
    b: StoreState,
    c: StoreState,
    owned: Set<u64>,
    m: Map<Model<KF>, Model<VF>>,
    t: Tree<Model<KF>>,
)
    requires
        pump_frames(a, b, Set::empty(), owned),
        built_tree(kf, vf, b.records, c.records, owned, m, t),
    ensures
        built_tree(kf, vf, a.records, c.records, Set::empty(), m, t),
{
    assert forall|r: u64| #[trigger] t.owner.contains_key(r) implies !a.records.contains_key(r) by {
        if a.records.contains_key(r) {
            assert(b.records.contains_key(r));
        }
    }
    assert forall|r: u64| #[trigger] a.records.contains_key(r) implies c.records.contains_key(r)
        && c.records[r] == a.records[r] && !t.owner.contains_key(r) by {
        assert(b.records.contains_key(r));
    }
}

/// The nodes that a pump wrote are a map once the root pointer and the counter are
/// written.
proof fn lemma_bulk_tree<KF: KeyFormat, VF: Serializer>(
    kf: &KF,
    vf: &VF,
    a: Records,
    b: Records,
    d: Records,
    root: u64,
    rrr: u64,
    counter: u64,
    t: Tree<Model<KF>>,
    m: Map<Model<KF>, Model<VF>>,
    fill: nat,
)
    requires
        built_tree(kf, vf, a, b, Set::empty(), m, t),
        filled(nodes_of(kf, vf, true, b), t, fill),
        0 < root <= i64::MAX,
        root_of(t) == root,
        rrr != 0,
        !b.contains_key(rrr),
        counter != 0 ==> counter != rrr && !b.contains_key(counter) && m.len() <= i64::MAX,
        d == if counter != 0 {
            b.insert(rrr, Some(LONG.enc(root as i64))).insert(
                counter,
                Some(LONG.enc(m.len() as i64)),
            )
        } else {
            b.insert(rrr, Some(LONG.enc(root as i64)))
        },
    ensures
        stored(kf, vf, true, d, rrr, counter),
        stored_map(kf, vf, true, d, rrr, counter) == m,
        filled(nodes_of(kf, vf, true, d), stored_tree(kf, vf, true, d, rrr, counter), fill),
        forall|x: u64| #[trigger]
            a.contains_key(x) ==> !stored_recids(kf, vf, true, d, rrr, counter).contains(x),
{
    let nb = nodes_of(kf, vf, true, b);
    let nd = nodes_of(kf, vf, true, d);
    let c = b.insert(rrr, Some(LONG.enc(root as i64)));
    assert forall|r: u64| r != rrr implies #[trigger] agree(b, c, r) by {}
    lemma_pointer_frame(kf, vf, true, b, c, rrr, t);
    assert forall|r: u64| r != counter implies #[trigger] agree(c, d, r) by {}
    if counter != 0 {
        lemma_pointer_frame(kf, vf, true, c, d, counter, t);
    }
    let owner = t.owner.insert(rrr, Owner::RootPointer);
    let owner = if counter != 0 {
        owner.insert(counter, Owner::Counter)
    } else {
        owner
    };
    let t2 = Tree { levels: t.levels, offs: t.offs, owner };
    let l = t.levels[0];
    assert(level_ok(kf, true, nb, t.levels[0], false));
    assert forall|i: int| #![trigger l[i]] 0 <= i < l.len() implies nd[l[i].0] == nb[l[i].0]
        && nb[l[i].0].body is Leaf by {
        assert(level_node(kf, true, nb, l, i, false));
        assert(t.owner.contains_key(t.levels[0][i].0));
        lemma_nodes_same(kf, vf, true, b, d, l[i].0);
    }
    lemma_pump_entries(kf, vf, b, d, l);
    lemma_enc_dec(&LONG, root as i64);
    lemma_enc_dec(&LONG, m.len() as i64);
    let e = level_entries(vf, d, nd, l);
    assert(levels_ok(kf, true, nd, t2)) by {
        assert(levels_ok(kf, true, nd, t));
    }
    assert(level_ok(kf, true, nd, t2.levels[0], false));
    lemma_level_distinct_keys(kf, vf, true, d, nd, l);
    lemma_contents_of(e);
    lemma_contents_unique(e, contents_of(e), m);
    assert(owners_ok(t2)) by {
        assert forall|x: int, i: int|
            #![trigger t2.levels[x][i]]
            0 <= x < t2.levels.len() && 0 <= i < t2.levels[x].len() implies t2.owner.contains_key(
            t2.levels[x][i].0,
        ) && t2.owner[t2.levels[x][i].0] == Owner::<Model<KF>>::Level(x as nat) by {
            assert(t.owner.contains_key(t.levels[x][i].0));
        }
    }
    assert(values_ok(vf, d, nd, l, t2.owner)) by {
        assert forall|i: int, p: int|
            0 <= i < l.len() && 0 <= p < nd[l[i].0].keys.len() implies #[trigger] value_record_ok(
            vf,
            d,
            t2.owner,
            nd[l[i].0],
            p,
        ) by {}
    }
    assert(slack(nd, l));
    assert(tree_ok(kf, vf, true, d, rrr, counter, t2));
    assert(is_tree(kf, vf, true, d, rrr, counter, t2));
    let st = stored_tree(kf, vf, true, d, rrr, counter);
    lemma_tree_unique(kf, vf, true, d, rrr, counter, counter, t2, st);
    assert forall|x: int, i: int|
        #![trigger st.levels[x][i]]
        0 <= x < st.levels.len() && 0 <= i < st.levels[x].len()
            implies nd[st.levels[x][i].0] == nb[t.levels[x][i].0] by {
        let lv = t.levels[x];
        assert(level_ok(kf, true, nb, t.levels[x], x > 0));
        assert(level_node(kf, true, nb, lv, i, x > 0));
        assert(t.owner.contains_key(t.levels[x][i].0));
        lemma_nodes_same(kf, vf, true, b, d, lv[i].0);
    }
    assert forall|x: u64| #[trigger] a.contains_key(x) implies !stored_recids(
        kf,
        vf,
        true,
        d,
        rrr,
        counter,
    ).contains(x) by {
        assert(b.contains_key(x) && !t.owner.contains_key(x));
        if is_node(st, x) {
            let (y, z) = choose|y: int, z: int|
                0 <= y < st.levels.len() && 0 <= z < st.levels[y].len() && (
                #[trigger] st.levels[y][z]).0 == x;
            assert(st.levels[y][z] == t.levels[y][z]);
        }
    }
}

} // verus!
