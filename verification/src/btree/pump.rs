//! Building a tree bottom-up from entries that come in order. Every node is written
//! once: the recid of its right neighbour is allocated before it is written.

use vstd::prelude::*;
use std::cmp::Ordering;
use crate::error::{DbError, Result};
use crate::ser::{all_fit, group_key_order, models, sorted, KeyFormat, Model, Serializer};
use crate::store::{keeps_state, turned_down, Records, Store, StoreState};
use super::contents::{
    agree, is_contents, leaf_entries, lemma_nodes_same, lemma_nodes_write, level_entries,
};
use super::node::{enc_node, flag_right, node_fits, node_ok, no_zero, BodyM, NodeM};
use super::tree::{
    above, keys_in, level_node, level_ok, low, nodes_of, one_parent, parent_node, parent_ok,
    within, Level, Owner, Tree,
};

verus! {

/// A leaf with these entries. Unless it is rightmost its fence is its last key.
pub open spec fn packed_leaf<K, V>(flags: i32, link: u64, keys: Seq<K>, values: Seq<V>) -> NodeM<
    K,
    V,
> {
    NodeM {
        flags,
        link,
        keys,
        body: BodyM::Leaf {
            values,
            fence: if flag_right(flags) {
                None
            } else {
                Some(keys.last())
            },
        },
    }
}

/// A directory with these children.
pub open spec fn packed_dir<K, V>(flags: i32, link: u64, keys: Seq<K>, children: Seq<u64>) -> NodeM<
    K,
    V,
> {
    NodeM { flags, link, keys, body: BodyM::Dir { children } }
}

/// Writing the bytes of a node into an allocated record.
pub open spec fn node_written(
    a: StoreState,
    b: StoreState,
    recid: u64,
    bytes: Seq<u8>,
    r: Result<()>,
) -> bool {
    &&& a.writable && a.records.contains_key(recid) ==> r is Ok
    &&& r is Ok ==> b.records == a.records.insert(recid, Some(bytes))
    &&& keeps_state(a, b)
    &&& b.room >= a.room
    &&& turned_down(a, b, r)
}

/// Three quarters of the node size, but at least two keys.
pub open spec fn usual_fill(max_node_size: usize) -> int {
    if max_node_size * 3 <= usize::MAX {
        if max_node_size * 3 / 4 >= 2 {
            max_node_size * 3 / 4
        } else {
            2
        }
    } else {
        usize::MAX as int / 4
    }
}

/// The bytes of a node.
pub type NodeBytes = Seq<u8>;

/// Writes the nodes that a pump has finished.
pub trait NodeSink: Sized {
    type KF: KeyFormat;

    type VF: Serializer;

    spec fn kf(&self) -> Self::KF;

    spec fn vf(&self) -> Self::VF;

    /// The bytes that are written for a node.
    spec fn bytes_of(&self, n: NodeM<Model<Self::KF>, Model<Self::VF>>) -> NodeBytes;

    fn key_format(&self) -> (r: &Self::KF)
        ensures
            *r == self.kf(),
    ;

    /// How two keys are ordered.
    fn compare_keys(&self, a: &SinkKey<Self>, b: &SinkKey<Self>) -> (r: Ordering)
        ensures
            r is Less <==> self.kf().lt(a@, b@),
            r is Greater <==> self.kf().lt(b@, a@),
            r is Equal <==> a@ == b@,
    ;

    fn write_leaf<S: Store>(
        &self,
        store: &mut S,
        recid: u64,
        flags: i32,
        link: u64,
        keys: Vec<SinkKey<Self>>,
        values: Vec<SinkValue<Self>>,
    ) -> (r: Result<()>)
        requires
            flag_right(flags) || keys@.len() > 0,
            node_ok(
                &self.kf(),
                true,
                packed_leaf::<Model<Self::KF>, Model<Self::VF>>(
                    flags,
                    link,
                    models(keys@),
                    models(values@),
                ),
            ),
            node_fits(
                &self.kf(),
                &self.vf(),
                packed_leaf(flags, link, models(keys@), models(values@)),
            ),
        ensures
            node_written(
                old(store).state(),
                final(store).state(),
                recid,
                self.bytes_of(packed_leaf(flags, link, models(keys@), models(values@))),
                r,
            ),
    ;

    fn write_dir<S: Store>(
        &self,
        store: &mut S,
        recid: u64,
        flags: i32,
        link: u64,
        keys: Vec<SinkKey<Self>>,
        children: Vec<u64>,
    ) -> (r: Result<()>)
        requires
            node_ok(
                &self.kf(),
                true,
                packed_dir::<Model<Self::KF>, Model<Self::VF>>(
                    flags,
                    link,
                    models(keys@),
                    children@,
                ),
            ),
            node_fits(
                &self.kf(),
                &self.vf(),
                packed_dir(flags, link, models(keys@), children@),
            ),
        ensures
            node_written(
                old(store).state(),
                final(store).state(),
                recid,
                self.bytes_of(packed_dir(flags, link, models(keys@), children@)),
                r,
            ),
    ;
}

/// The sink writes nodes in the wire format.
pub open spec fn encodes<P: NodeSink>(sink: &P) -> bool {
    forall|n: NodeM<Model<P::KF>, Model<P::VF>>| #[trigger]
        sink.bytes_of(n) == enc_node(&sink.kf(), &sink.vf(), n)
}

/// A key that a sink takes.
pub type SinkKey<P> = <<P as NodeSink>::KF as Serializer>::Item;

/// A value that a sink takes.
pub type SinkValue<P> = <<P as NodeSink>::VF as Serializer>::Item;

/// The node of a level that is being filled, and the nodes of the level that are
/// done.
pub struct PumpLevel<P: NodeSink> {
    keys: Vec<SinkKey<P>>,
    values: Vec<SinkValue<P>>,
    children: Vec<u64>,
    /// The recid of the next node, where one is allocated.
    pending: u64,
    /// No node of the level is done yet.
    first: bool,
    done: Ghost<Level<Model<P::KF>>>,
    off: Ghost<Seq<int>>,
}

impl<P: NodeSink> PumpLevel<P> {
    fn new() -> (r: Self)
        ensures
            r.keys@.len() == 0,
            r.values@.len() == 0,
            r.children@.len() == 0,
            r.pending == 0,
            r.first,
            r.done@ == Seq::<(u64, Option<Model<P::KF>>)>::empty(),
            r.off@ == seq![0int],
    {
        let ghost start: Seq<int> = seq![0int];
        PumpLevel {
            keys: Vec::new(),
            values: Vec::new(),
            children: Vec::new(),
            pending: 0,
            first: true,
            done: Ghost(Seq::empty()),
            off: Ghost(start),
        }
    }
}

/// Node `i` of the finished nodes of a level.
pub open spec fn built_node<KF: KeyFormat, V>(
    kf: &KF,
    nodes: Map<u64, NodeM<Model<KF>, V>>,
    l: Level<Model<KF>>,
    i: int,
    pending: u64,
    dir: bool,
) -> bool {
    let n = nodes[l[i].0];
    &&& nodes.contains_key(l[i].0)
    &&& node_ok(kf, true, n)
    &&& n.dir() == dir
    &&& n.high() == l[i].1
    &&& l[i].1 is Some
    &&& n.left() == (i == 0)
    &&& !n.right()
    &&& n.link == if i + 1 < l.len() {
        l[i + 1].0
    } else {
        pending
    }
    &&& keys_in(kf, n.keys, low(l, i), l[i].1)
    &&& l[i].0 != pending
}

/// The finished nodes of a level.
pub open spec fn built<KF: KeyFormat, V>(
    kf: &KF,
    nodes: Map<u64, NodeM<Model<KF>, V>>,
    l: Level<Model<KF>>,
    pending: u64,
    dir: bool,
) -> bool {
    &&& forall|i: int|
        0 <= i < l.len() ==> #[trigger] built_node(kf, nodes, l, i, pending, dir)
    &&& forall|i: int, j: int|
        #![trigger l[i], l[j]]
        0 <= i < j < l.len() ==> kf.lt(l[i].1.unwrap(), l[j].1.unwrap())
}

/// The finished nodes `s` of a level are the children of the finished directories
/// `p` above and of the one that is being filled; all but the last `lack` of them.
pub open spec fn adopted<K, V>(
    nodes: Map<u64, NodeM<K, V>>,
    p: Level<K>,
    off: Seq<int>,
    s: Level<K>,
    kids: Seq<u64>,
    keys: Seq<K>,
    lack: int,
) -> bool {
    &&& off.len() == p.len() + 1
    &&& off[0] == 0
    &&& forall|j: int| 0 <= j < p.len() ==> #[trigger] parent_node(nodes, p, s, off, j)
    &&& off[p.len() as int] >= 0
    &&& off[p.len() as int] + kids.len() + lack == s.len()
    &&& kids.len() == keys.len()
    &&& forall|c: int|
        #![trigger kids[c]]
        #![trigger keys[c]]
        0 <= c < kids.len() ==> kids[c] == s[off[p.len() as int] + c].0 && s[off[p.len() as int]
            + c].1 == Some(keys[c])
}

/// How many children level `x` lacks.
pub open spec fn lacking(lack: Set<int>, x: int) -> int {
    if lack.contains(x) {
        1
    } else {
        0
    }
}

/// Finished nodes that did not change.
proof fn lemma_built_frame<KF: KeyFormat, V>(
    kf: &KF,
    a: Map<u64, NodeM<Model<KF>, V>>,
    b: Map<u64, NodeM<Model<KF>, V>>,
    l: Level<Model<KF>>,
    pending: u64,
    dir: bool,
)
    requires
        built(kf, a, l, pending, dir),
        forall|i: int|
            #![trigger l[i]]
            0 <= i < l.len() ==> b.contains_key(l[i].0) && b[l[i].0] == a[l[i].0],
    ensures
        built(kf, b, l, pending, dir),
{
    assert forall|i: int| 0 <= i < l.len()
        implies #[trigger] built_node(kf, b, l, i, pending, dir) by {
        assert(built_node(kf, a, l, i, pending, dir));
        let e = l[i];
    }
}

proof fn lemma_adopted_frame<K, V>(
    a: Map<u64, NodeM<K, V>>,
    b: Map<u64, NodeM<K, V>>,
    p: Level<K>,
    off: Seq<int>,
    s: Level<K>,
    kids: Seq<u64>,
    keys: Seq<K>,
    lack: int,
)
    requires
        adopted(a, p, off, s, kids, keys, lack),
        forall|i: int| #![trigger p[i]] 0 <= i < p.len() ==> b[p[i].0] == a[p[i].0],
    ensures
        adopted(b, p, off, s, kids, keys, lack),
{
    assert forall|j: int| 0 <= j < p.len() implies #[trigger] parent_node(b, p, s, off, j) by {
        assert(parent_node(a, p, s, off, j));
        let e = p[j];
    }
}

/// One more finished node.
proof fn lemma_built_push<KF: KeyFormat, V>(
    kf: &KF,
    a: Map<u64, NodeM<Model<KF>, V>>,
    b: Map<u64, NodeM<Model<KF>, V>>,
    l: Level<Model<KF>>,
    pending: u64,
    dir: bool,
    recid: u64,
    link: u64,
    n: NodeM<Model<KF>, V>,
)
    requires
        built(kf, a, l, pending, dir),
        l.len() > 0 ==> recid == pending,
        recid != link,
        forall|i: int|
            #![trigger l[i]]
            0 <= i < l.len() ==> b.contains_key(l[i].0) && b[l[i].0] == a[l[i].0] && l[i].0 != link,
        b.contains_key(recid),
        b[recid] == n,
        node_ok(kf, true, n),
        n.dir() == dir,
        n.left() == (l.len() == 0),
        !n.right(),
        n.link == link,
        n.keys.len() > 0,
        n.high() == Some(n.keys.last()),
        keys_in(kf, n.keys, low(l, l.len() as int), None),
    ensures
        built(kf, b, l.push((recid, Some(n.keys.last()))), link, dir),
{
    broadcast use group_key_order;

    let l2 = l.push((recid, Some(n.keys.last())));
    let last = n.keys[n.keys.len() - 1];
    assert forall|i: int| 0 <= i < l2.len()
        implies #[trigger] built_node(kf, b, l2, i, link, dir) by {
        if i < l.len() {
            assert(built_node(kf, a, l, i, pending, dir));
            assert(l2[i] == l[i]);
            assert(low(l2, i) == low(l, i)) by {
                if i > 0 {
                    assert(l2[i - 1] == l[i - 1]);
                }
            }
            if i + 1 < l.len() {
                assert(l2[i + 1] == l[i + 1]);
            }
        } else {
            assert(low(l2, i) == low(l, l.len() as int)) by {
                if i > 0 {
                    assert(l2[i - 1] == l[i - 1]);
                }
            }
            assert(keys_in(kf, n.keys, low(l2, i), l2[i].1)) by {
                assert forall|p: int| 0 <= p < n.keys.len() implies above(
                    kf,
                    low(l2, i),
                    #[trigger] n.keys[p],
                ) && within(kf, n.keys[p], l2[i].1) by {
                    if p < n.keys.len() - 1 {
                        assert(kf.lt(n.keys[p], n.keys[n.keys.len() - 1]));
                    }
                }
            }
        }
    }
    assert forall|i: int, j: int|
        #![trigger l2[i], l2[j]]
        0 <= i < j < l2.len() implies kf.lt(l2[i].1.unwrap(), l2[j].1.unwrap()) by {
        if j < l.len() {
            assert(kf.lt(l[i].1.unwrap(), l[j].1.unwrap()));
        } else {
            let h = l[l.len() - 1];
            assert(built_node(kf, a, l, l.len() - 1, pending, dir));
            assert(above(kf, low(l, l.len() as int), last));
            if i < l.len() - 1 {
                assert(kf.lt(l[i].1.unwrap(), l[l.len() - 1].1.unwrap()));
            }
        }
    }
}

/// The last node of a level closes it.
proof fn lemma_level_closed<KF: KeyFormat, V>(
    kf: &KF,
    a: Map<u64, NodeM<Model<KF>, V>>,
    b: Map<u64, NodeM<Model<KF>, V>>,
    l: Level<Model<KF>>,
    pending: u64,
    dir: bool,
    recid: u64,
    n: NodeM<Model<KF>, V>,
)
    requires
        built(kf, a, l, pending, dir),
        l.len() > 0 ==> recid == pending,
        forall|i: int|
            #![trigger l[i]]
            0 <= i < l.len() ==> b.contains_key(l[i].0) && b[l[i].0] == a[l[i].0],
        b.contains_key(recid),
        b[recid] == n,
        node_ok(kf, true, n),
        n.dir() == dir,
        n.left() == (l.len() == 0),
        n.right(),
        keys_in(kf, n.keys, low(l, l.len() as int), None),
    ensures
        level_ok(kf, true, b, l.push((recid, None)), dir),
{
    let l2 = l.push((recid, None::<Model<KF>>));
    assert forall|i: int| 0 <= i < l2.len()
        implies #[trigger] level_node(kf, true, b, l2, i, dir) by {
        assert(low(l2, i) == low(l, i)) by {
            if i > 0 {
                assert(l2[i - 1] == l[i - 1]);
            }
        }
        if i < l.len() {
            assert(built_node(kf, a, l, i, pending, dir));
            assert(l2[i] == l[i]);
            if i + 1 < l.len() {
                assert(l2[i + 1] == l[i + 1]);
            }
        }
    }
    assert forall|i: int| #![trigger l2[i]] 0 <= i < l2.len()
        implies (l2[i].1 is None) == (i == l2.len()
        - 1) by {
        if i < l.len() {
            assert(built_node(kf, a, l, i, pending, dir));
        }
    }
    assert forall|i: int, j: int|
        #![trigger l2[i], l2[j]]
        0 <= i < j < l2.len() - 1 implies kf.lt(l2[i].1.unwrap(), l2[j].1.unwrap()) by {
        assert(kf.lt(l[i].1.unwrap(), l[j].1.unwrap()));
    }
}

/// The last directory of a level takes the last node of the level below.
proof fn lemma_parents_closed<K, V>(
    a: Map<u64, NodeM<K, V>>,
    b: Map<u64, NodeM<K, V>>,
    p: Level<K>,
    off: Seq<int>,
    s: Level<K>,
    kids: Seq<u64>,
    keys: Seq<K>,
    recid: u64,
    child: u64,
    n: NodeM<K, V>,
)
    requires
        adopted(a, p, off, s, kids, keys, 0),
        forall|i: int| #![trigger p[i]] 0 <= i < p.len() ==> b[p[i].0] == a[p[i].0],
        b[recid] == n,
        n.keys == keys,
        n.children() == kids.push(child),
    ensures
        parent_ok(b, p.push((recid, None)), s.push((child, None)), off.push(s.len() as int + 1)),
{
    let p2 = p.push((recid, None::<K>));
    let s2 = s.push((child, None::<K>));
    let off2 = off.push(s.len() as int + 1);
    assert forall|j: int| 0 <= j < p2.len() implies #[trigger] parent_node(b, p2, s2, off2, j) by {
        if j < p.len() {
            assert(parent_node(a, p, s, off, j));
            assert(p2[j] == p[j]);
            assert(off2[j] == off[j] && off2[j + 1] == off[j + 1]);
            let m = b[p[j].0];
            assert(one_parent(m, s2, off2[j])) by {
                assert forall|c: int|
                    #![trigger m.children()[c]]
                    #![trigger m.keys[c]]
                    0 <= c < m.children().len() implies m.children()[c] == s2[off2[j] + c].0 && (c
                    < m.keys.len() ==> s2[off2[j] + c].1 == Some(m.keys[c])) by {
                    assert(m.children()[c] == s[off[j] + c].0);
                    assert(s2[off[j] + c] == s[off[j] + c]);
                }
            }
        } else {
            assert(off2[j] == off[j]);
            assert(one_parent(n, s2, off2[j])) by {
                assert forall|c: int|
                    #![trigger n.children()[c]]
                    #![trigger n.keys[c]]
                    0 <= c < n.children().len() implies n.children()[c] == s2[off2[j] + c].0 && (c
                    < n.keys.len() ==> s2[off2[j] + c].1 == Some(n.keys[c])) by {
                    if c < kids.len() {
                        assert(kids[c] == s[off[j] + c].0);
                        assert(s2[off[j] + c] == s[off[j] + c]);
                    }
                }
            }
        }
    }
    assert(off2[0] == off[0]);
}

/// The entries of a leaf that is being filled.
pub open spec fn pairs<K, V>(keys: Seq<K>, values: Seq<V>) -> Seq<(K, V)> {
    Seq::new(keys.len(), |i: int| (keys[i], values[i]))
}

/// The entries of a level of leaves with values in them do not depend on the other
/// records.
pub(super) proof fn lemma_pump_entries<KF: KeyFormat, VF: Serializer>(
    kf: &KF,
    vf: &VF,
    a: Records,
    b: Records,
    l: Level<Model<KF>>,
)
    requires
        ({
            let na = nodes_of(kf, vf, true, a);
            let nb = nodes_of(kf, vf, true, b);
            forall|i: int|
                #![trigger l[i]]
                0 <= i < l.len() ==> nb[l[i].0] == na[l[i].0] && na[l[i].0].body is Leaf
        }),
    ensures
        level_entries(vf, b, nodes_of(kf, vf, true, b), l) == level_entries(
            vf,
            a,
            nodes_of(kf, vf, true, a),
            l,
        ),
{
    let ea = level_entries(vf, a, nodes_of(kf, vf, true, a), l);
    let eb = level_entries(vf, b, nodes_of(kf, vf, true, b), l);
    assert forall|i: int| 0 <= i < l.len() implies ea[i] == eb[i] by {
        let e = l[i];
        assert(ea[i] =~= eb[i]);
    }
    assert(ea =~= eb);
}

/// Builds a tree.
pub struct TreePump<'a, P: NodeSink> {
    sink: &'a P,
    node_fill: usize,
    levels: Vec<PumpLevel<P>>,
    prev_key: Option<SinkKey<P>>,
    owner: Ghost<Map<u64, Owner<Model<P::KF>>>>,
    given: Ghost<Map<Model<P::KF>, Model<P::VF>>>,
}

impl<'a, P: NodeSink> TreePump<'a, P> {
    spec fn nodes(&self, records: Records) -> Map<u64, NodeM<Model<P::KF>, Model<P::VF>>> {
        nodes_of(&self.sink.kf(), &self.sink.vf(), true, records)
    }

    spec fn done(&self, x: int) -> Level<Model<P::KF>> {
        self.levels@[x].done@
    }

    /// Level `x` is in order.
    spec fn level_good(&self, records: Records, x: int) -> bool {
        let lv = self.levels@[x];
        let kf = self.sink.kf();
        let d = lv.done@;
        &&& built(&kf, self.nodes(records), d, lv.pending, x > 0)
        &&& lv.first == (d.len() == 0)
        &&& lv.pending == 0 <==> d.len() == 0
        &&& lv.pending != 0 ==> self.owner@.contains_key(lv.pending) && self.owner@[lv.pending]
            == Owner::<Model<P::KF>>::Level(x as nat) && records[lv.pending] is None
        &&& forall|i: int|
            #![trigger d[i]]
            0 <= i < d.len() ==> self.owner@.contains_key(d[i].0) && self.owner@[d[i].0] == Owner::<
                Model<P::KF>,
            >::Level(x as nat)
        &&& forall|i: int|
            #![trigger d[i]]
            0 <= i < d.len() ==> self.nodes(records)[d[i].0].keys.len() == self.node_fill
        &&& sorted(&kf, models(lv.keys@))
        &&& all_fit(&kf, models(lv.keys@))
        &&& keys_in(&kf, models(lv.keys@), low(d, d.len() as int), None)
        &&& lv.keys@.len() <= self.node_fill
        &&& x == 0 ==> lv.values@.len() == lv.keys@.len() && all_fit(
            &self.sink.vf(),
            models(lv.values@),
        ) && lv.children@.len() == 0
        &&& x > 0 ==> lv.values@.len() == 0 && no_zero(lv.children@)
    }

    /// The nodes of the level below are children of level `x`.
    spec fn level_adopted(&self, records: Records, x: int, lack: int) -> bool {
        let lv = self.levels@[x];
        adopted(
            self.nodes(records),
            lv.done@,
            lv.off@,
            self.levels@[x - 1].done@,
            lv.children@,
            models(lv.keys@),
            lack,
        )
    }

    /// From a level on, one that has finished nodes holds keys of the next.
    spec fn topped(&self, from: int) -> bool {
        forall|x: int|
            #![trigger self.levels@[x]]
            from <= x < self.levels@.len() && self.levels@[x].done@.len() > 0
                ==> self.levels@[x].keys@.len() > 0
    }

    /// The pump is in order, but for the levels that lack their last child.
    spec fn in_order(&self, records: Records, lack: Set<int>) -> bool {
        let len = self.levels@.len() as int;
        &&& len > 0
        &&& encodes(self.sink)
        &&& 2 <= self.node_fill <= 1048576
        &&& forall|x: int| 0 <= x < len ==> #[trigger] self.level_good(records, x)
        &&& forall|x: int|
            1 <= x < len ==> #[trigger] self.level_adopted(
                records,
                x,
                lacking(lack, x),
            )
        &&& self.levels@[len - 1].done@.len() == if lack.contains(len) {
            1int
        } else {
            0
        }
        &&& forall|r: u64| #[trigger]
            self.owner@.contains_key(r) ==> r != 0 && records.contains_key(r)
        &&& forall|r: u64| #[trigger] self.owner@.contains_key(r) ==> self.owner@[r] is Level
    }

    /// What a step of the pump does to the store and to the levels below `from`.
    spec fn grew(&self, before: &Self, a: StoreState, b: StoreState, from: int) -> bool {
        &&& self.sink == before.sink
        &&& self.node_fill == before.node_fill
        &&& self.given == before.given
        &&& keeps_state(a, b)
        &&& self.levels@.len() >= before.levels@.len()
        &&& forall|x: int|
            0 <= x < from && x < before.levels@.len() ==> #[trigger] self.levels@[x]
                == before.levels@[x]
        &&& forall|r: u64| #[trigger]
            before.owner@.contains_key(r) ==> self.owner@.contains_key(r) && self.owner@[r]
                == before.owner@[r]
        &&& forall|r: u64| #[trigger]
            self.owner@.contains_key(r) ==> before.owner@.contains_key(r)
                || !a.records.contains_key(r)
        &&& forall|r: u64|
            a.records.contains_key(r)
                && !(before.owner@.contains_key(r) && (before.owner@[r] matches Owner::Level(
                m,
            ) && m >= from)) ==> #[trigger] agree(a.records, b.records, r)
        &&& forall|r: u64|
            a.records.contains_key(r) && a.records[r] is Some ==> #[trigger] agree(
                a.records,
                b.records,
                r,
            )
    }

    /// After the node of a level was written: that node is done, and the level above
    /// lacks it.
    #[verifier::spinoff_prover]
    #[verifier::rlimit(60)]
    proof fn lemma_flushed(
        &self,
        after: &Self,
        a: StoreState,
        b: StoreState,
        l: int,
        recid: u64,
        link: u64,
        n: NodeM<Model<P::KF>, Model<P::VF>>,
        lack: Set<int>,
    )
        requires
            self.in_order(a.records, lack),
            0 <= l < self.levels@.len(),
            !lack.contains(l + 1),
            self.levels@[l].pending != 0 ==> recid == self.levels@[l].pending,
            self.levels@[l].pending == 0 ==> !a.records.contains_key(recid) && recid != 0,
            !a.records.contains_key(link),
            link != 0,
            link != recid,
            b.records == a.records.insert(link, None).insert(
                recid,
                Some(enc_node(&self.sink.kf(), &self.sink.vf(), n)),
            ),
            keeps_state(a, b),
            node_ok(&self.sink.kf(), true, n),
            node_fits(&self.sink.kf(), &self.sink.vf(), n),
            n.keys == models(self.levels@[l].keys@),
            n.keys.len() == self.node_fill,
            n.dir() == (l > 0),
            n.left() == self.levels@[l].first,
            !n.right(),
            n.link == link,
            n.high() == Some(n.keys.last()),
            l > 0 ==> n.children() == self.levels@[l].children@,
            after.sink == self.sink,
            after.node_fill == self.node_fill,
            after.given == self.given,
            after.owner@ == self.owner@.insert(recid, Owner::Level(l as nat)).insert(
                link,
                Owner::Level(l as nat),
            ),
            after.levels@.len() == self.levels@.len(),
            forall|x: int|
                0 <= x < self.levels@.len() && x != l ==> #[trigger] after.levels@[x]
                    == self.levels@[x],
            ({
                let lv = self.levels@[l];
                let lv2 = after.levels@[l];
                &&& lv2.keys@.len() == 0
                &&& lv2.values@.len() == 0
                &&& lv2.children@.len() == 0
                &&& lv2.pending == link
                &&& !lv2.first
                &&& lv2.done@ == lv.done@.push((recid, Some(n.keys.last())))
                &&& lv2.off@ == lv.off@.push(lv.off@[lv.done@.len() as int] + lv.children@.len())
            }),
        ensures
            after.in_order(b.records, lack.insert(l + 1)),
            after.grew(self, a, b, l),
            forall|x: int, i: int|
                #![trigger self.levels@[x].done@[i]]
                0 <= x < self.levels@.len() && 0 <= i < self.levels@[x].done@.len()
                    ==> self.nodes(b.records)[self.levels@[x].done@[i].0] == self.nodes(
                    a.records,
                )[self.levels@[x].done@[i].0],
            self.nodes(b.records)[recid] == n,
    {
        let kf = self.sink.kf();
        let vf = self.sink.vf();
        let na = self.nodes(a.records);
        let nb = self.nodes(b.records);
        let mid = a.records.insert(link, None);
        let lack2 = lack.insert(l + 1);
        let len = self.levels@.len() as int;
        assert(self.level_good(a.records, l));
        lemma_nodes_write(&kf, &vf, true, mid, recid, n);
        assert forall|r: u64| r != recid && r != link implies #[trigger] agree(
            a.records,
            b.records,
            r,
        ) by {}
        assert forall|r: u64| r != recid && #[trigger] na.contains_key(r) implies nb.contains_key(r)
            && nb[r] == na[r] by {
            assert(a.records.contains_key(r));
            assert(agree(a.records, b.records, r));
            lemma_nodes_same(&kf, &vf, true, a.records, b.records, r);
        }
        assert forall|x: int, i: int|
            #![trigger self.levels@[x].done@[i]]
            0 <= x < len && 0 <= i < self.levels@[x].done@.len() implies ({
            let r = self.levels@[x].done@[i].0;
            &&& nb.contains_key(r)
            &&& nb[r] == na[r]
            &&& r != recid
            &&& r != link
        }) by {
            let d = self.levels@[x].done@;
            assert(self.level_good(a.records, x));
            assert(built_node(&kf, na, d, i, self.levels@[x].pending, x > 0));
            assert(self.owner@.contains_key(d[i].0));
            if d[i].0 == recid {
                if self.levels@[l].pending != 0 {
                    assert(self.owner@[recid] == Owner::<Model<P::KF>>::Level(l as nat));
                    assert(x == l);
                }
            }
        }
        assert forall|x: int| 0 <= x < len implies #[trigger] after.level_good(b.records, x) by {
            assert(self.level_good(a.records, x));
            let d = self.levels@[x].done@;
            assert forall|i: int| #![trigger d[i]] 0 <= i < d.len() implies nb.contains_key(d[i].0)
                && nb[d[i].0] == na[d[i].0] && d[i].0 != link && d[i].0 != recid by {
                let e = self.levels@[x].done@[i];
            }
            if x != l {
                assert(after.levels@[x] == self.levels@[x]);
                lemma_built_frame(&kf, na, nb, d, self.levels@[x].pending, x > 0);
                assert forall|i: int| #![trigger d[i]] 0 <= i < d.len()
                    implies after.owner@.contains_key(
                    d[i].0,
                ) && after.owner@[d[i].0] == Owner::<Model<P::KF>>::Level(x as nat) by {
                    assert(self.owner@.contains_key(d[i].0));
                }
                let pending = self.levels@[x].pending;
                if pending != 0 {
                    assert(self.owner@.contains_key(pending));
                    assert(a.records.contains_key(pending));
                    if self.levels@[l].pending != 0 {
                        assert(self.owner@[recid] == Owner::<Model<P::KF>>::Level(l as nat));
                    }
                    assert(pending != recid);
                    assert(agree(a.records, b.records, pending));
                }
            } else {
                lemma_built_push(&kf, na, nb, d, self.levels@[l].pending, l > 0, recid, link, n);
                let d2 = after.levels@[l].done@;
                assert forall|i: int| #![trigger d2[i]] 0 <= i < d2.len()
                    implies after.owner@.contains_key(
                    d2[i].0,
                ) && after.owner@[d2[i].0] == Owner::<Model<P::KF>>::Level(l as nat)
                    && nb[d2[i].0].keys.len() == self.node_fill by {
                    if i < d.len() {
                        assert(d2[i] == d[i]);
                        assert(self.owner@.contains_key(d[i].0));
                    }
                }
                assert(models(after.levels@[l].keys@) =~= Seq::empty());
            }
        }
        assert forall|x: int| 1 <= x < len implies #[trigger] after.level_adopted(
            b.records,
            x,
            lacking(lack2, x),
        ) by {
            let lk = lacking(lack, x);
            assert(self.level_adopted(a.records, x, lk));
            let p = self.levels@[x].done@;
            let s = self.levels@[x - 1].done@;
            let off = self.levels@[x].off@;
            let kids = self.levels@[x].children@;
            let ks = models(self.levels@[x].keys@);
            assert forall|i: int| #![trigger p[i]] 0 <= i < p.len()
                implies nb[p[i].0] == na[p[i].0] by {
                let e = self.levels@[x].done@[i];
            }
            lemma_adopted_frame(na, nb, p, off, s, kids, ks, lk);
            if x == l {
                assert(after.levels@[x - 1] == self.levels@[x - 1]);
                let p2 = after.levels@[l].done@;
                let off2 = after.levels@[l].off@;
                assert forall|j: int| 0 <= j < p2.len() implies #[trigger] parent_node(
                    nb,
                    p2,
                    s,
                    off2,
                    j,
                ) by {
                    if j < p.len() {
                        assert(parent_node(nb, p, s, off, j));
                        assert(p2[j] == p[j]);
                        assert(off2[j] == off[j] && off2[j + 1] == off[j + 1]);
                    } else {
                        assert(off2[j] == off[j]);
                        assert(one_parent(n, s, off[j])) by {
                            assert forall|c: int|
                                #![trigger n.children()[c]]
                                #![trigger n.keys[c]]
                                0 <= c < n.children().len()
                                    implies n.children()[c] == s[off[j] + c].0
                                && (c < n.keys.len() ==> s[off[j] + c].1 == Some(n.keys[c])) by {
                                assert(kids[c] == s[off[j] + c].0);
                            }
                        }
                    }
                }
                assert(models(after.levels@[l].keys@) =~= Seq::empty());
            } else if x == l + 1 {
                let s2 = after.levels@[l].done@;
                assert(after.levels@[x] == self.levels@[x]);
                assert forall|j: int| 0 <= j < p.len() implies #[trigger] parent_node(
                    nb,
                    p,
                    s2,
                    off,
                    j,
                ) by {
                    assert(parent_node(nb, p, s, off, j));
                    let m = nb[p[j].0];
                    assert(one_parent(m, s2, off[j])) by {
                        assert forall|c: int|
                            #![trigger m.children()[c]]
                            #![trigger m.keys[c]]
                            0 <= c < m.children().len() implies m.children()[c] == s2[off[j] + c].0
                            && (c < m.keys.len() ==> s2[off[j] + c].1 == Some(m.keys[c])) by {
                            assert(m.children()[c] == s[off[j] + c].0);
                            assert(s2[off[j] + c] == s[off[j] + c]);
                        }
                    }
                }
                assert forall|c: int|
                    #![trigger kids[c]]
                    #![trigger ks[c]]
                    0 <= c < kids.len() implies kids[c] == s2[off[p.len() as int] + c].0
                        && s2[off[p.len() as int]
                    + c].1 == Some(ks[c]) by {
                    assert(kids[c] == s[off[p.len() as int] + c].0);
                    assert(s2[off[p.len() as int] + c] == s[off[p.len() as int] + c]);
                }
            } else {
                assert(after.levels@[x] == self.levels@[x]);
                assert(after.levels@[x - 1] == self.levels@[x - 1]);
            }
        }
        if l == len - 1 {
            assert(lack2.contains(len));
        } else {
            assert(after.levels@[len - 1] == self.levels@[len - 1]);
            assert(lack2.contains(len) == lack.contains(len));
        }
        assert forall|r: u64| #[trigger] after.owner@.contains_key(r) implies r != 0
            && b.records.contains_key(r) by {
            if r != recid && r != link {
                assert(self.owner@.contains_key(r));
            }
        }
        assert(self.levels@[l].pending != 0 ==> self.owner@.contains_key(recid));
        assert forall|r: u64| #[trigger] self.owner@.contains_key(r)
            implies after.owner@.contains_key(r)
            && after.owner@[r] == self.owner@[r] by {
            assert(a.records.contains_key(r));
        }
    }

    /// The recid of the next node of a level.
    fn node_recid<S: Store>(&self, store: &mut S, level: usize) -> (r: Result<u64>)
        requires
            level < self.levels@.len(),
        ensures
            keeps_state(old(store).state(), final(store).state()),
            final(store).state().room + 1 >= old(store).state().room,
            old(store).state().writable && old(store).state().room > 0 ==> r is Ok,
            self.levels@[level as int].pending == 0 ==> turned_down(
                old(store).state(),
                final(store).state(),
                r,
            ),
            self.levels@[level as int].pending != 0 ==> r is Ok,
            r matches Ok(x) ==> {
                let p = self.levels@[level as int].pending;
                &&& p != 0 ==> x == p && final(store).state().records == old(
                    store,
                ).state().records
                &&& p == 0 ==> x != 0 && x <= i64::MAX
                    && !old(store).state().records.contains_key(x)
                    && final(store).state().records == old(store).state().records.insert(x, None)
            },
    {
        let pending: u64 = self.levels[level].pending;
        if pending != 0 {
            Ok(pending)
        } else {
            store.preallocate()
        }
    }

    /// Enters a finished node into the level above.
    fn push_up<S: Store>(
        &mut self,
        store: &mut S,
        level: usize,
        sep: SinkKey<P>,
        child: u64,
        Ghost(lack): Ghost<Set<int>>,
    ) -> (r: Result<()>)
        requires
            1 <= level <= old(self).levels@.len(),
            old(self).in_order(old(store).state().records, lack),
            lack.contains(level as int),
            forall|x: int| lack.contains(x) ==> x <= level,
            old(self).levels@[level - 1].done@.len() > 0,
            old(self).levels@[level - 1].done@.last() == (child, Some(sep@)),
            child != 0,
            old(self).sink.kf().fits(sep@),
        ensures
            final(self).sink == old(self).sink,
            keeps_state(old(store).state(), final(store).state()),
            final(store).state().room + 2 * (old(self).levels@.len() + 1 - level) >= old(
                store,
            ).state().room,
            r is Ok ==> {
                &&& final(self).in_order(final(store).state().records, lack.remove(level as int))
                &&& final(self).grew(
                    old(self),
                    old(store).state(),
                    final(store).state(),
                    level as int,
                )
                &&& final(self).levels@.len() <= old(self).levels@.len() + 1
                &&& final(self).prev_key == old(self).prev_key
                &&& old(self).topped(level as int) ==> final(self).topped(level as int)
            },
            old(store).state().writable && old(store).state().room >= 2 * (old(self).levels@.len()
                + 1 - level) ==> r is Ok,
        decreases old(self).levels@.len() + 1 - level, 1int,
    {
        let ghost a = store.state();
        let ghost p0 = *self;
        if self.levels.len() == level {
            self.levels.push(PumpLevel::new());
            proof {
                self.lemma_new_level(&p0, a.records, lack);
            }
        } else if self.levels[level].keys.len() == self.node_fill {
            match self.flush_dir(store, level, Ghost(lack)) {
                Ok(_) => {},
                Err(e) => {
                    return Err(e);
                },
            }
        }
        let ghost b = store.state();
        let ghost p1 = *self;
        let ghost sm = sep@;
        proof {
            assert(self.levels@[level - 1] == p0.levels@[level - 1]);
            assert(self.level_adopted(b.records, level as int, lacking(lack, level as int)));
            assert(self.level_good(b.records, level as int));
            assert(self.level_good(b.records, level - 1));
        }
        let lv = &mut self.levels[level];
        lv.keys.push(sep);
        lv.children.push(child);
        proof {
            assert(models(self.levels@[level as int].keys@) =~= models(
                p1.levels@[level as int].keys@,
            ).push(sm));
            p1.lemma_entered(self, b.records, level as int, sm, child, lack);
            self.lemma_grew_entered(&p1, &p0, a, b, level as int);
        }
        Ok(())
    }

    fn flush_dir<S: Store>(
        &mut self,
        store: &mut S,
        level: usize,
        Ghost(lack): Ghost<Set<int>>,
    ) -> (r: Result<()>)
        requires
            1 <= level < old(self).levels@.len(),
            old(self).in_order(old(store).state().records, lack),
            forall|x: int| lack.contains(x) ==> x <= level,
            old(self).levels@[level as int].keys@.len() == old(self).node_fill,
        ensures
            final(self).sink == old(self).sink,
            keeps_state(old(store).state(), final(store).state()),
            final(store).state().room + 2 * (old(self).levels@.len() + 1 - level) >= old(
                store,
            ).state().room,
            r is Ok ==> {
                &&& final(self).in_order(final(store).state().records, lack)
                &&& final(self).grew(
                    old(self),
                    old(store).state(),
                    final(store).state(),
                    level as int,
                )
                &&& final(self).levels@.len() <= old(self).levels@.len() + 1
                &&& final(self).levels@[level as int].keys@.len() == 0
                &&& final(self).prev_key == old(self).prev_key
                &&& old(self).topped(level + 1) ==> final(self).topped(level + 1)
            },
            old(store).state().writable && old(store).state().room >= 2 * (old(self).levels@.len()
                + 1 - level) ==> r is Ok,
        decreases old(self).levels@.len() + 1 - level, 0int,
    {
        let ghost a = store.state();
        let ghost p0 = *self;
        proof {
            assert(self.level_good(a.records, level as int));
            assert(self.level_adopted(
                a.records,
                level as int,
                lacking(lack, level as int),
            ));
        }
        let recid: u64 = match self.node_recid(store, level) {
            Ok(x) => x,
            Err(e) => {
                return Err(e);
            },
        };
        let link: u64 = match store.preallocate() {
            Ok(x) => x,
            Err(e) => {
                return Err(e);
            },
        };
        let mut keys: Vec<SinkKey<P>> = Vec::new();
        let mut children: Vec<u64> = Vec::new();
        let lv = &mut self.levels[level];
        let flags: i32 = if lv.first {
            12
        } else {
            8
        };
        std::mem::swap(&mut keys, &mut lv.keys);
        std::mem::swap(&mut children, &mut lv.children);
        lv.pending = link;
        lv.first = false;
        let ghost ks = models(keys@);
        let sep = self.sink.key_format().dup(&keys[keys.len() - 1]);
        proof {
            assert(sep@ == ks.last());
            self.owner@ = self.owner@.insert(recid, Owner::Level(level as nat)).insert(
                link,
                Owner::Level(level as nat),
            );
        }
        let ghost d2 = p0.levels@[level as int].done@.push((recid, Some(ks.last())));
        let ghost o2 = p0.levels@[level as int].off@.push(
            p0.levels@[level as int].off@[p0.levels@[level as int].done@.len() as int]
                + children@.len(),
        );
        let lv = &mut self.levels[level];
        lv.done = Ghost(d2);
        lv.off = Ghost(o2);
        let ghost n = packed_dir::<Model<P::KF>, Model<P::VF>>(flags, link, ks, children@);
        proof {
            lemma_pump_flags();
            assert(self.sink.kf().fits(ks[ks.len() - 1]));
        }
        match self.sink.write_dir(store, recid, flags, link, keys, children) {
            Ok(_) => {},
            Err(e) => {
                return Err(e);
            },
        }
        let ghost b = store.state();
        proof {
            assert(b.records =~= a.records.insert(link, None).insert(
                recid,
                Some(enc_node(&self.sink.kf(), &self.sink.vf(), n)),
            ));
            p0.lemma_flushed(self, a, b, level as int, recid, link, n, lack);
        }
        let ghost p1 = *self;
        let len: usize = self.levels.len();
        assert(level < len);
        match self.push_up(store, level + 1, sep, recid, Ghost(lack.insert(level + 1))) {
            Ok(_) => {},
            Err(e) => {
                return Err(e);
            },
        }
        proof {
            assert(lack.insert(level + 1).remove(level + 1) =~= lack);
            lemma_grew_twice(self, &p1, &p0, a, b, store.state(), level as int);
        }
        Ok(())
    }

    /// A new level above the highest.
    proof fn lemma_new_level(&self, before: &Self, records: Records, lack: Set<int>)
        requires
            before.in_order(records, lack),
            lack.contains(before.levels@.len() as int),
            forall|x: int| lack.contains(x) ==> x <= before.levels@.len(),
            self.sink == before.sink,
            self.node_fill == before.node_fill,
            self.owner == before.owner,
            self.levels@.len() == before.levels@.len() + 1,
            forall|x: int|
                0 <= x < before.levels@.len() ==> #[trigger] self.levels@[x] == before.levels@[x],
            ({
                let lv = self.levels@[before.levels@.len() as int];
                &&& lv.keys@.len() == 0
                &&& lv.values@.len() == 0
                &&& lv.children@.len() == 0
                &&& lv.pending == 0
                &&& lv.first
                &&& lv.done@ == Seq::<(u64, Option<Model<P::KF>>)>::empty()
                &&& lv.off@ == seq![0int]
            }),
        ensures
            self.in_order(records, lack),
    {
        let len = before.levels@.len() as int;
        assert forall|x: int| 0 <= x < len + 1 implies #[trigger] self.level_good(records, x) by {
            if x < len {
                assert(before.level_good(records, x));
                assert(self.levels@[x] == before.levels@[x]);
            } else {
                assert(models(self.levels@[x].keys@) =~= Seq::empty());
            }
        }
        assert forall|x: int| 1 <= x < len + 1 implies #[trigger] self.level_adopted(
            records,
            x,
            lacking(lack, x),
        ) by {
            assert(self.levels@[x - 1] == before.levels@[x - 1]);
            if x < len {
                assert(before.level_adopted(
                    records,
                    x,
                    lacking(lack, x),
                ));
                assert(self.levels@[x] == before.levels@[x]);
            } else {
                assert(models(self.levels@[x].keys@) =~= Seq::empty());
            }
        }
    }

    /// The level above has taken the node it lacked.
    proof fn lemma_entered(
        &self,
        after: &Self,
        records: Records,
        l: int,
        sep: Model<P::KF>,
        child: u64,
        lack: Set<int>,
    )
        requires
            self.in_order(records, lack),
            lack.contains(l),
            1 <= l < self.levels@.len(),
            self.levels@[l].keys@.len() < self.node_fill,
            self.levels@[l - 1].done@.len() > 0,
            self.levels@[l - 1].done@.last() == (child, Some(sep)),
            child != 0,
            self.sink.kf().fits(sep),
            after.sink == self.sink,
            after.node_fill == self.node_fill,
            after.owner == self.owner,
            after.levels@.len() == self.levels@.len(),
            forall|x: int|
                0 <= x < self.levels@.len() && x != l ==> #[trigger] after.levels@[x]
                    == self.levels@[x],
            ({
                let lv = self.levels@[l];
                let lv2 = after.levels@[l];
                &&& models(lv2.keys@) == models(lv.keys@).push(sep)
                &&& lv2.children@ == lv.children@.push(child)
                &&& lv2.values@ == lv.values@
                &&& lv2.pending == lv.pending
                &&& lv2.first == lv.first
                &&& lv2.done == lv.done
                &&& lv2.off == lv.off
            }),
        ensures
            after.in_order(records, lack.remove(l)),
    {
        broadcast use group_key_order;

        let kf = self.sink.kf();
        let len = self.levels@.len() as int;
        let nodes = self.nodes(records);
        assert(self.level_good(records, l));
        assert(self.level_good(records, l - 1));
        assert(self.level_adopted(records, l, lacking(lack, l)));
        let s = self.levels@[l - 1].done@;
        let p = self.levels@[l].done@;
        let off = self.levels@[l].off@;
        let base = off[p.len() as int];
        let kids = self.levels@[l].children@;
        let ks = models(self.levels@[l].keys@);
        let ks2 = ks.push(sep);
        let kids2 = kids.push(child);
        let q = s.len() - 1;
        assert forall|c: int| 0 <= c < ks.len() implies kf.lt(#[trigger] ks[c], sep) by {
            assert(s[base + c].1 == Some(ks[c]));
            assert(kf.lt(s[base + c].1.unwrap(), s[q].1.unwrap()));
        }
        assert(sorted(&kf, ks2)) by {
            assert forall|i: int, j: int| #![trigger ks2[i], ks2[j]] 0 <= i < j < ks2.len()
                implies kf.lt(
                ks2[i],
                ks2[j],
            ) by {
                if j < ks.len() {
                    assert(kf.lt(ks[i], ks[j]));
                } else {
                    assert(kf.lt(ks[i], sep));
                }
            }
        }
        assert(above(&kf, low(p, p.len() as int), sep)) by {
            if p.len() > 0 {
                let j = p.len() - 1;
                assert(parent_node(nodes, p, s, off, j));
                assert(built_node(&kf, nodes, p, j, self.levels@[l].pending, true));
                let n = nodes[p[j].0];
                let c = n.children().len() - 1;
                assert(n.children()[c] == s[off[j] + c].0);
                assert(s[off[j] + c].1 == Some(n.keys[c]));
                assert(kf.lt(s[off[j] + c].1.unwrap(), s[q].1.unwrap()));
            }
        }
        assert(keys_in(&kf, ks2, low(p, p.len() as int), None)) by {
            assert forall|x: int| 0 <= x < ks2.len() implies above(
                &kf,
                low(p, p.len() as int),
                #[trigger] ks2[x],
            ) && within(&kf, ks2[x], None) by {
                if x < ks.len() {
                    assert(ks2[x] == ks[x]);
                }
            }
        }
        assert forall|x: int| 0 <= x < len implies #[trigger] after.level_good(records, x) by {
            assert(self.level_good(records, x));
            if x != l {
                assert(after.levels@[x] == self.levels@[x]);
            }
        }
        let lack2 = lack.remove(l);
        assert forall|x: int| 1 <= x < len implies #[trigger] after.level_adopted(
            records,
            x,
            lacking(lack2, x),
        ) by {
            assert(self.level_adopted(
                records,
                x,
                lacking(lack, x),
            ));
            if x == l {
                assert(after.levels@[x - 1] == self.levels@[x - 1]);
                assert forall|c: int|
                    #![trigger kids2[c]]
                    #![trigger ks2[c]]
                    0 <= c < kids2.len() implies kids2[c] == s[base + c].0 && s[base + c].1 == Some(
                    ks2[c],
                ) by {
                    if c < kids.len() {
                        assert(kids[c] == s[base + c].0);
                    }
                }
            } else {
                assert(after.levels@[x] == self.levels@[x]);
                assert(after.levels@[x - 1].done == self.levels@[x - 1].done);
            }
        }
        assert(after.levels@[len - 1].done == self.levels@[len - 1].done);
    }

    proof fn lemma_grew_entered(
        &self,
        mid: &Self,
        before: &Self,
        a: StoreState,
        b: StoreState,
        l: int,
    )
        requires
            mid.levels@.len() == self.levels@.len(),
            self.sink == mid.sink,
            self.node_fill == mid.node_fill,
            self.given == mid.given,
            self.owner == mid.owner,
            forall|x: int|
                0 <= x < mid.levels@.len() && x != l
                    ==> #[trigger] self.levels@[x] == mid.levels@[x],
            mid.grew(before, a, b, l),
        ensures
            self.grew(before, a, b, l),
    {
        assert forall|x: int| 0 <= x < l && x < before.levels@.len()
            implies #[trigger] self.levels@[x]
            == before.levels@[x] by {
            assert(mid.levels@[x] == before.levels@[x]);
        }
    }

    // ------------------------------------------------------------ use

    /// The entries that were put.
    pub closed spec fn given(&self) -> Map<Model<P::KF>, Model<P::VF>> {
        self.given@
    }

    /// The last key that was put.
    pub closed spec fn last_key(&self) -> Option<Model<P::KF>> {
        crate::store::opt_model(self.prev_key)
    }

    /// The recids that the pump has allocated.
    pub closed spec fn owned(&self) -> Set<u64> {
        self.owner@.dom()
    }

    pub closed spec fn levels_count(&self) -> nat {
        self.levels@.len()
    }

    pub closed spec fn sink_of(&self) -> P {
        *self.sink
    }

    /// The number of entries that stand in no record yet.
    pub closed spec fn held(&self) -> nat {
        self.levels@[0].keys@.len()
    }

    /// The number of entries that fill a leaf.
    pub closed spec fn fill(&self) -> nat {
        self.node_fill as nat
    }

    /// The pump and the records it has written are in order.
    pub closed spec fn ready(&self, records: Records) -> bool {
        self.sound(records) && self.topped(0)
    }

    spec fn sound(&self, records: Records) -> bool {
        let lv = self.levels@[0];
        let kf = self.sink.kf();
        &&& self.in_order(records, Set::empty())
        &&& is_contents(
            level_entries(&self.sink.vf(), records, self.nodes(records), lv.done@).push(
                pairs(models(lv.keys@), models(lv.values@)),
            ),
            self.given@,
        )
        &&& self.given@.dom().finite()
        &&& crate::store::opt_model(self.prev_key) == if lv.keys@.len() > 0 {
            Some(models(lv.keys@).last())
        } else {
            low(lv.done@, lv.done@.len() as int)
        }
        &&& forall|k: Model<P::KF>| #[trigger]
            self.given@.contains_key(k) ==> (crate::store::opt_model(self.prev_key) matches Some(p)
                && !kf.lt(p, k))
    }

    /// A pump that fills nodes with `node_fill` keys.
    pub fn new(sink: &'a P, max_node_size: usize, node_fill: usize) -> (r: Self)
        requires
            2 <= node_fill <= max_node_size,
        ensures
            r.given() == Map::<Model<P::KF>, Model<P::VF>>::empty(),
            r.last_key() is None,
            r.owned() == Set::<u64>::empty(),
            r.levels_count() == 1,
            r.sink_of() == *sink,
            r.held() == 0,
            r.fill() == node_fill,
            node_fill <= 1048576 && encodes(sink) ==> forall|records: Records| #[trigger]
                r.ready(records),
    {
        let mut levels: Vec<PumpLevel<P>> = Vec::new();
        levels.push(PumpLevel::new());
        let r = TreePump {
            sink,
            node_fill,
            levels,
            prev_key: None,
            owner: Ghost(Map::empty()),
            given: Ghost(Map::empty()),
        };
        proof {
            assert forall|records: Records| node_fill <= 1048576 && encodes(sink)
                implies #[trigger] r.ready(records) by {
                assert(models(r.levels@[0].keys@) =~= Seq::empty());
                assert(models(r.levels@[0].values@) =~= Seq::empty());
                assert(r.level_good(records, 0));
            }
            assert(r.owned() =~= Set::empty());
        }
        r
    }

    /// The usual filling: three quarters of the node size, but at least two keys.
    pub fn default_fill(max_node_size: usize) -> (r: usize)
        ensures
            r == usual_fill(max_node_size),
    {
        let tripled: usize = match max_node_size.checked_mul(3) {
            Some(x) => x,
            None => usize::MAX,
        };
        let scaled: usize = tripled / 4;
        if scaled < 2 {
            2
        } else {
            scaled
        }
    }

    /// Writes the leaf that is full.
    #[verifier::spinoff_prover]
    fn flush_leaf<S: Store>(&mut self, store: &mut S) -> (r: Result<()>)
        requires
            old(self).sound(old(store).state().records),
            old(self).levels@[0].keys@.len() == old(self).node_fill,
        ensures
            final(self).sink == old(self).sink,
            keeps_state(old(store).state(), final(store).state()),
            final(store).state().room + 2 * (old(self).levels@.len() + 1) >= old(
                store,
            ).state().room,
            r is Ok ==> {
                &&& final(self).sound(final(store).state().records)
                &&& final(self).grew(old(self), old(store).state(), final(store).state(), 0)
                &&& final(self).levels@.len() <= old(self).levels@.len() + 1
                &&& final(self).levels@[0].keys@.len() == 0
                &&& final(self).prev_key == old(self).prev_key
                &&& old(self).topped(1) ==> final(self).topped(1)
            },
            old(store).state().writable && old(store).state().room >= 2 * (old(self).levels@.len()
                + 1) ==> r is Ok,
            turned_down(old(store).state(), final(store).state(), r),
    {
        let ghost a = store.state();
        let ghost p0 = *self;
        proof {
            assert(self.level_good(a.records, 0));
        }
        let recid: u64 = match self.node_recid(store, 0) {
            Ok(x) => x,
            Err(e) => {
                return Err(e);
            },
        };
        let link: u64 = match store.preallocate() {
            Ok(x) => x,
            Err(e) => {
                return Err(e);
            },
        };
        let mut keys: Vec<SinkKey<P>> = Vec::new();
        let mut values: Vec<SinkValue<P>> = Vec::new();
        let lv = &mut self.levels[0];
        let flags: i32 = if lv.first {
            4
        } else {
            0
        };
        std::mem::swap(&mut keys, &mut lv.keys);
        std::mem::swap(&mut values, &mut lv.values);
        lv.pending = link;
        lv.first = false;
        let ghost ks = models(keys@);
        let ghost vs = models(values@);
        let sep = self.sink.key_format().dup(&keys[keys.len() - 1]);
        assert(sep@ == ks.last());
        let ghost d2 = p0.levels@[0].done@.push((recid, Some(ks.last())));
        let ghost o2 = p0.levels@[0].off@.push(
            p0.levels@[0].off@[p0.levels@[0].done@.len() as int] + 0,
        );
        let lv = &mut self.levels[0];
        lv.done = Ghost(d2);
        lv.off = Ghost(o2);
        proof {
            self.owner@ = self.owner@.insert(recid, Owner::Level(0)).insert(link, Owner::Level(0));
            lemma_pump_flags();
            self.sink.kf().lt_irreflexive(ks.last());
            assert(self.sink.kf().fits(ks[ks.len() - 1]));
        }
        let ghost n = packed_leaf::<Model<P::KF>, Model<P::VF>>(flags, link, ks, vs);
        match self.sink.write_leaf(store, recid, flags, link, keys, values) {
            Ok(_) => {},
            Err(e) => {
                return Err(e);
            },
        }
        let ghost b = store.state();
        proof {
            assert(b.records =~= a.records.insert(link, None).insert(
                recid,
                Some(enc_node(&self.sink.kf(), &self.sink.vf(), n)),
            ));
            p0.lemma_flushed(self, a, b, 0, recid, link, n, Set::empty());
        }
        let ghost p1 = *self;
        match self.push_up(store, 1, sep, recid, Ghost(Set::<int>::empty().insert(1))) {
            Ok(_) => {},
            Err(e) => {
                return Err(e);
            },
        }
        proof {
            assert(Set::<int>::empty().insert(1).remove(1) =~= Set::empty());
            lemma_grew_twice(self, &p1, &p0, a, b, store.state(), 0);
            assert(self.levels@[0] == p1.levels@[0]);
            p0.lemma_leaf_flushed(
                &p1,
                self,
                a.records,
                b.records,
                store.state().records,
                recid,
                ks,
                vs,
                n,
            );
        }
        Ok(())
    }

    /// The entries after a leaf was written.
    proof fn lemma_leaf_flushed(
        &self,
        mid: &Self,
        after: &Self,
        a: Records,
        b: Records,
        c: Records,
        recid: u64,
        ks: Seq<Model<P::KF>>,
        vs: Seq<Model<P::VF>>,
        n: NodeM<Model<P::KF>, Model<P::VF>>,
    )
        requires
            self.sound(a),
            ks == models(self.levels@[0].keys@),
            vs == models(self.levels@[0].values@),
            ks.len() == vs.len(),
            n.keys == ks,
            n.body matches BodyM::Leaf { values, .. } && values == vs,
            mid.in_order(b, Set::empty().insert(1)),
            after.in_order(c, Set::empty()),
            after.levels@[0] == mid.levels@[0],
            mid.levels@[0].done@ == self.levels@[0].done@.push((recid, Some(ks.last()))),
            mid.levels@[0].keys@.len() == 0,
            mid.levels@[0].values@.len() == 0,
            after.sink == self.sink,
            mid.sink == self.sink,
            after.given == self.given,
            self.levels@[0].keys@.len() > 0,
            after.prev_key == self.prev_key,
            forall|i: int|
                #![trigger self.levels@[0].done@[i]]
                0 <= i < self.levels@[0].done@.len() ==> self.nodes(
                    b,
                )[self.levels@[0].done@[i].0] == self.nodes(a)[self.levels@[0].done@[i].0],
            self.nodes(b)[recid] == n,
            forall|r: u64|
                b.contains_key(r) && mid.owner@.contains_key(r) && mid.owner@[r] == Owner::<
                    Model<P::KF>,
                >::Level(0) ==> #[trigger] agree(b, c, r),
        ensures
            after.sound(c),
    {
        let kf = self.sink.kf();
        let vf = self.sink.vf();
        let na = self.nodes(a);
        let nb = self.nodes(b);
        let nc = self.nodes(c);
        let d = self.levels@[0].done@;
        let d2 = mid.levels@[0].done@;
        assert(self.level_good(a, 0));
        assert(mid.level_good(b, 0));
        assert(after.level_good(c, 0));
        assert forall|i: int| #![trigger d2[i]] 0 <= i < d2.len() implies nc[d2[i].0] == nb[d2[i].0]
            && nb[d2[i].0].body is Leaf by {
            assert(built_node(&kf, nb, d2, i, mid.levels@[0].pending, false));
            assert(mid.owner@.contains_key(d2[i].0));
            assert(agree(b, c, d2[i].0));
            lemma_nodes_same(&kf, &vf, true, b, c, d2[i].0);
        }
        lemma_pump_entries(&kf, &vf, b, c, d2);
        assert forall|i: int| #![trigger d[i]] 0 <= i < d.len() implies nb[d[i].0] == na[d[i].0]
            && na[d[i].0].body is Leaf by {
            let e = self.levels@[0].done@[i];
            assert(built_node(&kf, na, d, i, self.levels@[0].pending, false));
        }
        lemma_pump_entries(&kf, &vf, a, b, d);
        let ea = level_entries(&vf, a, na, d);
        let eb = level_entries(&vf, b, nb, d2);
        assert(leaf_entries(&vf, b, n) =~= pairs(ks, vs));
        assert(eb =~= ea.push(pairs(ks, vs))) by {
            let e1 = level_entries(&vf, b, nb, d);
            assert forall|i: int| 0 <= i < d2.len() implies eb[i] == ea.push(pairs(ks, vs))[i] by {
                if i < d.len() {
                    assert(d2[i] == d[i]);
                    assert(e1[i] == ea[i]);
                }
            }
        }
        let e2 = pairs(models(after.levels@[0].keys@), models(after.levels@[0].values@));
        assert(e2 =~= Seq::empty());
        let x = ea.push(pairs(ks, vs));
        let y = eb.push(e2);
        assert forall|i: int, p: int|
            #![trigger y[i][p]]
            0 <= i < y.len() && 0 <= p < y[i].len() implies after.given@.contains_key(y[i][p].0)
            && after.given@[y[i][p].0] == y[i][p].1 by {
            assert(y[i] == x[i]);
            let z = x[i][p];
        }
        assert forall|k: Model<P::KF>| #[trigger] after.given@.contains_key(k)
            implies super::contents::has_key(
            y,
            k,
        ) by {
            assert(super::contents::has_key(x, k));
            let (i, p) = choose|i: int, p: int|
                #![trigger x[i][p]]
                0 <= i < x.len() && 0 <= p < x[i].len() && x[i][p].0 == k;
            assert(y[i][p] == x[i][p]);
        }
        assert(models(after.levels@[0].keys@) =~= Seq::empty());
    }

    /// Puts the next entry; its key must be greater than the one before.
    pub fn put<S: Store>(
        &mut self,
        store: &mut S,
        key: SinkKey<P>,
        value: SinkValue<P>,
    ) -> (r: Result<()>)
        requires
            old(self).ready(old(store).state().records),
            old(self).sink_of().kf().fits(key@),
            old(self).sink_of().vf().fits(value@),
        ensures
            ({
                let misplaced = old(self).last_key() matches Some(p) && !old(
                    self,
                ).sink_of().kf().lt(p, key@);
                let a = old(store).state();
                let b = final(store).state();
                &&& keeps_state(a, b)
                &&& final(self).sink_of() == old(self).sink_of()
                &&& misplaced ==> r == Err::<(), DbError>(DbError::NotSorted) && b == a
                    && *final(self) == *old(self)
                &&& b.room + 2 * (old(self).levels_count() + 1) >= a.room
                &&& !misplaced && a.writable && a.room >= 2 * (old(self).levels_count() + 1)
                    ==> r is Ok
                &&& old(self).held() <= old(self).fill()
                &&& r is Ok ==> final(self).fill() == old(self).fill()
                &&& !misplaced && old(self).held() < old(self).fill() ==> r is Ok && b == a
                    && final(self).held() == old(self).held() + 1
                &&& !misplaced && old(self).held() == old(self).fill() ==> turned_down(a, b, r)
                &&& r is Ok ==> {
                    &&& final(self).ready(b.records)
                    &&& final(self).given() == old(self).given().insert(key@, value@)
                    &&& !old(self).given().contains_key(key@)
                    &&& final(self).last_key() == Some(key@)
                    &&& final(self).levels_count() <= old(self).levels_count() + 1
                    &&& pump_frames(a, b, old(self).owned(), final(self).owned())
                    &&& written_once(a.records, b.records)
                }
            }),
    {
        broadcast use group_key_order;

        let ghost a = store.state();
        let ghost p0 = *self;
        assert(self.level_good(a.records, 0));
        if let Some(prev) = &self.prev_key {
            match self.sink.compare_keys(prev, &key) {
                Ordering::Less => {},
                Ordering::Equal => {
                    return Err(DbError::NotSorted);
                },
                Ordering::Greater => {
                    return Err(DbError::NotSorted);
                },
            }
        }
        proof {
            assert forall|r: u64| a.records.contains_key(r) implies #[trigger] agree(
                a.records,
                a.records,
                r,
            ) by {}
        }
        if self.levels[0].keys.len() == self.node_fill {
            match self.flush_leaf(store) {
                Ok(_) => {},
                Err(e) => {
                    return Err(e);
                },
            }
        }
        let ghost b = store.state();
        let ghost p1 = *self;
        let ghost km = key@;
        let ghost vm = value@;
        let kept = self.sink.key_format().dup(&key);
        let lv = &mut self.levels[0];
        lv.keys.push(key);
        lv.values.push(value);
        self.prev_key = Some(kept);
        proof {
            self.given@ = self.given@.insert(km, vm);
            p1.lemma_put(self, b.records, km, vm);
            assert(p1.grew(&p0, a, b, 0));
            lemma_pump_frames(&p1, &p0, a, b);
            assert(self.topped(0)) by {
                assert forall|x: int|
                    #![trigger self.levels@[x]]
                    0 <= x < self.levels@.len() && self.levels@[x].done@.len() > 0
                        implies self.levels@[x].keys@.len() > 0 by {
                    if x > 0 {
                        assert(self.levels@[x] == p1.levels@[x]);
                    }
                }
            }
            assert forall|r: u64| #[trigger] a.records.contains_key(r) && a.records[r] is Some
                implies b.records.contains_key(r) && b.records[r] == a.records[r] by {
                assert(agree(a.records, b.records, r));
            }
        }
        Ok(())
    }

    proof fn lemma_put(&self, after: &Self, records: Records, k: Model<P::KF>, v: Model<P::VF>)
        requires
            self.sound(records),
            self.levels@[0].keys@.len() < self.node_fill,
            self.sink.kf().fits(k),
            self.sink.vf().fits(v),
            crate::store::opt_model(self.prev_key) matches Some(p) ==> self.sink.kf().lt(p, k),
            after.sink == self.sink,
            after.node_fill == self.node_fill,
            after.owner == self.owner,
            after.given@ == self.given@.insert(k, v),
            crate::store::opt_model(after.prev_key) == Some(k),
            after.levels@.len() == self.levels@.len(),
            forall|x: int|
                1 <= x < self.levels@.len() ==> #[trigger] after.levels@[x] == self.levels@[x],
            ({
                let lv = self.levels@[0];
                let lv2 = after.levels@[0];
                &&& models(lv2.keys@) =~= models(lv.keys@).push(k)
                &&& models(lv2.values@) =~= models(lv.values@).push(v)
                &&& lv2.children@ == lv.children@
                &&& lv2.pending == lv.pending
                &&& lv2.first == lv.first
                &&& lv2.done == lv.done
                &&& lv2.off == lv.off
            }),
        ensures
            after.sound(records),
            !self.given@.contains_key(k),
    {
        broadcast use group_key_order;

        let kf = self.sink.kf();
        let lv = self.levels@[0];
        let ks = models(lv.keys@);
        let vs = models(lv.values@);
        let ks2 = ks.push(k);
        let vs2 = vs.push(v);
        let d = lv.done@;
        let len = self.levels@.len() as int;
        assert(self.level_good(records, 0));
        assert(models(after.levels@[0].keys@) == ks2);
        assert(models(after.levels@[0].values@) == vs2);
        assert(sorted(&kf, ks2)) by {
            assert forall|i: int, j: int| #![trigger ks2[i], ks2[j]] 0 <= i < j < ks2.len()
                implies kf.lt(
                ks2[i],
                ks2[j],
            ) by {
                if j < ks.len() {
                    assert(kf.lt(ks[i], ks[j]));
                } else {
                    let z = ks[ks.len() - 1];
                    if i < ks.len() - 1 {
                        assert(kf.lt(ks[i], ks[ks.len() - 1]));
                    }
                }
            }
        }
        assert(keys_in(&kf, ks2, low(d, d.len() as int), None)) by {
            assert forall|x: int| 0 <= x < ks2.len() implies above(
                &kf,
                low(d, d.len() as int),
                #[trigger] ks2[x],
            ) && within(&kf, ks2[x], None) by {
                if x < ks.len() {
                    assert(ks2[x] == ks[x]);
                } else if ks.len() > 0 {
                    assert(above(&kf, low(d, d.len() as int), ks[ks.len() - 1]));
                }
            }
        }
        assert(ks2.len() == after.levels@[0].keys@.len());
        assert(vs2.len() == after.levels@[0].values@.len());
        assert(all_fit(&kf, ks2));
        assert(all_fit(&self.sink.vf(), vs2));
        assert(after.level_good(records, 0));
        assert forall|x: int| 0 <= x < len implies #[trigger] after.level_good(records, x) by {
            assert(self.level_good(records, x));
            if x > 0 {
                assert(after.levels@[x] == self.levels@[x]);
            }
        }
        let none = Set::<int>::empty();
        assert forall|x: int| 1 <= x < len implies #[trigger] after.level_adopted(
            records,
            x,
            lacking(none, x),
        ) by {
            assert(self.level_adopted(records, x, lacking(none, x)));
            assert(after.levels@[x] == self.levels@[x]);
            if x > 1 {
                assert(after.levels@[x - 1] == self.levels@[x - 1]);
            }
        }
        if len > 1 {
            assert(after.levels@[len - 1] == self.levels@[len - 1]);
        }
        let e = level_entries(&self.sink.vf(), records, self.nodes(records), d);
        let x = e.push(pairs(ks, vs));
        let y = e.push(pairs(ks2, vs2));
        let m2 = after.given@;
        assert forall|i: int, p: int|
            #![trigger y[i][p]]
            0 <= i < y.len() && 0 <= p < y[i].len() implies m2.contains_key(y[i][p].0)
            && m2[y[i][p].0] == y[i][p].1 by {
            if i < e.len() || p < ks.len() {
                assert(y[i][p] == x[i][p]);
                assert(self.given@.contains_key(x[i][p].0));
            }
        }
        assert forall|z: Model<P::KF>| #[trigger] m2.contains_key(z)
            implies super::contents::has_key(
            y,
            z,
        ) by {
            if z == k {
                assert(y[e.len() as int][ks.len() as int].0 == k);
            } else {
                assert(super::contents::has_key(x, z));
                let (i, p) = choose|i: int, p: int|
                    #![trigger x[i][p]]
                    0 <= i < x.len() && 0 <= p < x[i].len() && x[i][p].0 == z;
                assert(y[i][p] == x[i][p]);
            }
        }
    }

    /// The levels below `i` are closed: `f` are their nodes, `offs` where children
    /// start.
    spec fn closed_below(
        &self,
        a: Records,
        b: Records,
        i: int,
        f: Seq<Level<Model<P::KF>>>,
        offs: Seq<Seq<int>>,
        owner: Map<u64, Owner<Model<P::KF>>>,
    ) -> bool {
        let kf = self.sink.kf();
        let nb = self.nodes(b);
        &&& f.len() == i
        &&& offs.len() == i - 1
        &&& forall|x: int, k: int|
            #![trigger self.levels@[x].done@[k]]
            0 <= x < self.levels@.len() && 0 <= k < self.levels@[x].done@.len() ==> {
                let r = self.levels@[x].done@[k].0;
                nb.contains_key(r) && nb[r] == self.nodes(a)[r]
            }
        &&& forall|y: int|
            #![trigger f[y]]
            0 <= y < i ==> level_ok(&kf, true, nb, f[y], y > 0)
                && f[y] == self.levels@[y].done@.push(
                (f[y].last().0, None),
            ) && owner.contains_key(f[y].last().0) && owner[f[y].last().0] == Owner::<
                Model<P::KF>,
            >::Level(y as nat) && nb[f[y].last().0].keys.len() == self.levels@[y].keys@.len()
        &&& forall|y: int|
            #![trigger offs[y]]
            0 <= y < offs.len() ==> parent_ok(nb, f[y + 1], f[y], offs[y])
        &&& forall|r: u64| #[trigger]
            self.owner@.contains_key(r) ==> owner.contains_key(r) && owner[r] == self.owner@[r]
        &&& forall|r: u64| #[trigger]
            owner.contains_key(r) ==> r != 0 && b.contains_key(r) && owner[r] is Level && (
            self.owner@.contains_key(r) || !a.contains_key(r))
        &&& forall|r: u64|
            a.contains_key(r) && !self.owner@.contains_key(r) ==> #[trigger] agree(a, b, r)
        &&& forall|r: u64|
            a.contains_key(r) && a[r] is Some ==> #[trigger] agree(a, b, r)
    }

    /// Writing the last node of level `i` closes it.
    #[verifier::spinoff_prover]
    #[verifier::rlimit(60)]
    proof fn lemma_closed(
        &self,
        a: Records,
        b: Records,
        c: Records,
        i: int,
        f: Seq<Level<Model<P::KF>>>,
        offs: Seq<Seq<int>>,
        owner: Map<u64, Owner<Model<P::KF>>>,
        recid: u64,
        n: NodeM<Model<P::KF>, Model<P::VF>>,
    )
        requires
            self.in_order(a, Set::empty()),
            0 <= i < self.levels@.len(),
            i > 0 ==> self.closed_below(a, b, i, f, offs, owner),
            i == 0 ==> b == a && f.len() == 0 && offs.len() == 0 && owner == self.owner@,
            self.levels@[i].pending != 0 ==> recid == self.levels@[i].pending,
            self.levels@[i].pending == 0 ==> !b.contains_key(recid) && recid != 0,
            c == b.insert(recid, Some(enc_node(&self.sink.kf(), &self.sink.vf(), n))),
            node_ok(&self.sink.kf(), true, n),
            node_fits(&self.sink.kf(), &self.sink.vf(), n),
            n.keys == models(self.levels@[i].keys@),
            n.dir() == (i > 0),
            n.left() == self.levels@[i].first,
            n.right(),
            i > 0 ==> n.children() == self.levels@[i].children@.push(f[i - 1].last().0),
        ensures
            self.closed_below(
                a,
                c,
                i + 1,
                f.push(self.levels@[i].done@.push((recid, None))),
                if i > 0 {
                    offs.push(self.levels@[i].off@.push(f[i - 1].len() as int))
                } else {
                    offs
                },
                owner.insert(recid, Owner::Level(i as nat)),
            ),
            self.nodes(c)[recid] == n,
    {
        let kf = self.sink.kf();
        let vf = self.sink.vf();
        let na = self.nodes(a);
        let nb = self.nodes(b);
        let nc = self.nodes(c);
        let d = self.levels@[i].done@;
        let f2 = f.push(d.push((recid, None)));
        let owner2 = owner.insert(recid, Owner::Level(i as nat));
        let len = self.levels@.len() as int;
        assert(self.level_good(a, i));
        lemma_nodes_write(&kf, &vf, true, b, recid, n);
        assert(self.levels@[i].pending != 0 ==> self.owner@.contains_key(recid));
        assert forall|r: u64| r != recid implies #[trigger] agree(b, c, r) by {}
        // the finished nodes are none of the new ones
        assert forall|x: int, k: int|
            #![trigger self.levels@[x].done@[k]]
            0 <= x < len && 0 <= k < self.levels@[x].done@.len() implies ({
            let r = self.levels@[x].done@[k].0;
            nc.contains_key(r) && nc[r] == na[r] && r != recid
        }) by {
            let dx = self.levels@[x].done@;
            assert(self.level_good(a, x));
            assert(built_node(&kf, na, dx, k, self.levels@[x].pending, x > 0));
            assert(self.owner@.contains_key(dx[k].0));
            assert(owner.contains_key(dx[k].0));
            if dx[k].0 == recid {
                if self.levels@[i].pending != 0 {
                    assert(self.owner@[recid] == Owner::<Model<P::KF>>::Level(i as nat));
                    assert(x == i);
                }
            }
            let e = self.levels@[x].done@[k];
        }
        assert forall|k: int| #![trigger d[k]] 0 <= k < d.len() implies nc.contains_key(d[k].0)
            && nc[d[k].0] == na[d[k].0] by {
            let e = self.levels@[i].done@[k];
        }
        lemma_level_closed(&kf, na, nc, d, self.levels@[i].pending, i > 0, recid, n);
        // the closed levels stay
        assert forall|y: int| 0 <= y < i implies (#[trigger] f[y]).last().0 != recid by {
            assert(owner[f[y].last().0] == Owner::<Model<P::KF>>::Level(y as nat));
            if self.levels@[i].pending != 0 {
                assert(owner[recid] == Owner::<Model<P::KF>>::Level(i as nat));
            } else {
                assert(owner.contains_key(f[y].last().0));
            }
        }
        assert forall|y: int, k: int|
            #![trigger f[y][k]]
            0 <= y < i && 0 <= k < f[y].len() implies nc.contains_key(f[y][k].0) && nc[f[y][k].0]
            == nb[f[y][k].0] by {
            let fy = f[y];
            assert(level_ok(&kf, true, nb, f[y], y > 0));
            assert(level_node(&kf, true, nb, fy, k, y > 0));
            if k < fy.len() - 1 {
                let e = self.levels@[y].done@[k];
                assert(fy[k] == e);
            } else {
                assert(fy.last().0 != recid);
            }
        }
        assert forall|y: int| #![trigger f2[y]] 0 <= y < i + 1 implies level_ok(
            &kf,
            true,
            nc,
            f2[y],
            y > 0,
        ) && f2[y] == self.levels@[y].done@.push((f2[y].last().0, None)) && owner2.contains_key(
            f2[y].last().0,
        ) && owner2[f2[y].last().0] == Owner::<Model<P::KF>>::Level(y as nat)
            && nc[f2[y].last().0].keys.len() == self.levels@[y].keys@.len() by {
            if y < i {
                let e = f[y][f[y].len() - 1];
                let fy = f[y];
                assert forall|k: int| #![trigger fy[k]] 0 <= k < fy.len() implies nc.contains_key(
                    fy[k].0,
                ) && nc[fy[k].0] == nb[fy[k].0] by {
                    let e = f[y][k];
                }
                super::tree::lemma_level_frame(&kf, true, nb, nc, fy, y > 0);
                assert(fy.last().0 != recid);
            }
        }
        let offs2 = if i > 0 {
            offs.push(self.levels@[i].off@.push(f[i - 1].len() as int))
        } else {
            offs
        };
        assert forall|y: int| #![trigger offs2[y]] 0 <= y < offs2.len() implies parent_ok(
            nc,
            f2[y + 1],
            f2[y],
            offs2[y],
        ) by {
            if y < offs.len() {
                let p = f[y + 1];
                assert(parent_ok(nb, f[y + 1], f[y], offs[y]));
                assert forall|k: int| #![trigger p[k]] 0 <= k < p.len()
                    implies nc[p[k].0] == nb[p[k].0] by {
                    let e = f[y + 1][k];
                }
                super::tree::lemma_parent_frame(nb, nc, p, f[y], offs[y]);
            } else {
                let none = Set::<int>::empty();
                assert(self.level_adopted(a, i, lacking(none, i)));
                let s = self.levels@[i - 1].done@;
                let child = f[i - 1].last().0;
                assert(f[i - 1] == s.push((child, None)));
                lemma_parents_closed(
                    na,
                    nc,
                    d,
                    self.levels@[i].off@,
                    s,
                    self.levels@[i].children@,
                    models(self.levels@[i].keys@),
                    recid,
                    child,
                    n,
                );
            }
        }
        assert forall|r: u64| #[trigger] self.owner@.contains_key(r) implies owner2.contains_key(r)
            && owner2[r] == self.owner@[r] by {
            assert(owner.contains_key(r));
            if r == recid && self.levels@[i].pending == 0 {
                assert(b.contains_key(r));
            }
        }
        assert forall|r: u64| #[trigger] owner2.contains_key(r) implies r != 0 && c.contains_key(r)
            && owner2[r] is Level && (self.owner@.contains_key(r) || !a.contains_key(r)) by {
            if r != recid {
                assert(owner.contains_key(r));
            } else if self.levels@[i].pending == 0 {
                if a.contains_key(r) && !self.owner@.contains_key(r) {
                    assert(agree(a, b, r));
                }
            }
        }
        assert forall|r: u64|
            a.contains_key(r) && !self.owner@.contains_key(r) implies #[trigger] agree(a, c, r) by {
            if i > 0 {
                assert(agree(a, b, r));
            }
            assert(r != recid);
            assert(agree(b, c, r));
        }
        assert forall|r: u64| a.contains_key(r) && a[r] is Some implies #[trigger] agree(a, c, r) by {
            assert(agree(a, b, r));
            assert(r != recid);
            assert(agree(b, c, r));
        }
    }

    /// Writes the last directory of a level.
    #[verifier::spinoff_prover]
    fn close_dir<S: Store>(
        &mut self,
        store: &mut S,
        i: usize,
        child: u64,
        Ghost(p0): Ghost<Self>,
        Ghost(a): Ghost<Records>,
        Ghost(fin): Ghost<Seq<Level<Model<P::KF>>>>,
        Ghost(offs): Ghost<Seq<Seq<int>>>,
        Ghost(owner): Ghost<Map<u64, Owner<Model<P::KF>>>>,
        Ghost(recid0): Ghost<u64>,
    ) -> (r: Result<u64>)
        requires
            1 <= i < old(self).levels@.len() == p0.levels@.len(),
            old(self).sink == p0.sink,
            old(self).levels@[i as int] == p0.levels@[i as int],
            p0.in_order(a, Set::empty()),
            p0.closed_below(a, old(store).state().records, i as int, fin, offs, owner),
            fin[0].last().0 == recid0,
            child == fin[i - 1].last().0,
            child != 0,
        ensures
            final(self).sink == old(self).sink,
            final(self).levels@.len() == old(self).levels@.len(),
            forall|x: int|
                i < x < old(self).levels@.len() ==> #[trigger] final(self).levels@[x] == old(
                    self,
                ).levels@[x],
            keeps_state(old(store).state(), final(store).state()),
            final(store).state().room + 1 >= old(store).state().room,
            old(store).state().writable && old(store).state().room > 0 ==> r is Ok,
            r matches Ok(recid) ==> {
                &&& recid != 0
                &&& p0.levels@[i as int].pending != 0 || recid <= i64::MAX && !a.contains_key(recid)
                &&& p0.closed_below(
                    a,
                    final(store).state().records,
                    i + 1,
                    fin.push(p0.levels@[i as int].done@.push((recid, None))),
                    offs.push(p0.levels@[i as int].off@.push(fin[i - 1].len() as int)),
                    owner.insert(recid, Owner::Level(i as nat)),
                )
                &&& p0.nodes(final(store).state().records)[recid0] == p0.nodes(
                    old(store).state().records,
                )[recid0]
            },
    {
        let ghost b = store.state();
        proof {
            assert(p0.level_good(a, i as int));
            let none = Set::<int>::empty();
            assert(p0.level_adopted(a, i as int, lacking(none, i as int)));
            lemma_pump_flags();
            if p0.levels@[i as int].pending != 0 {
                assert(p0.owner@.contains_key(p0.levels@[i as int].pending));
                assert(owner.contains_key(p0.levels@[i as int].pending));
            }
        }
        let recid: u64 = match self.node_recid(store, i) {
            Ok(x) => x,
            Err(e) => {
                return Err(e);
            },
        };
        let mut keys: Vec<SinkKey<P>> = Vec::new();
        let mut children: Vec<u64> = Vec::new();
        let flags: i32 = if self.levels[i].first {
            14
        } else {
            10
        };
        let lv = &mut self.levels[i];
        std::mem::swap(&mut keys, &mut lv.keys);
        std::mem::swap(&mut children, &mut lv.children);
        children.push(child);
        let ghost n = packed_dir::<Model<P::KF>, Model<P::VF>>(flags, 0, models(keys@), children@);
        match self.sink.write_dir(store, recid, flags, 0, keys, children) {
            Ok(_) => {},
            Err(e) => {
                return Err(e);
            },
        }
        proof {
            assert(store.state().records =~= b.records.insert(
                recid,
                Some(enc_node(&p0.sink.kf(), &p0.sink.vf(), n)),
            ));
            p0.lemma_closed(
                a,
                b.records,
                store.state().records,
                i as int,
                fin,
                offs,
                owner,
                recid,
                n,
            );
            if a.contains_key(recid) {
                if p0.owner@.contains_key(recid) {
                    assert(owner.contains_key(recid));
                } else {
                    assert(agree(a, b.records, recid));
                }
            }
            assert(recid0 != recid) by {
                let e = fin[0];
                assert(owner[fin[0].last().0] == Owner::<Model<P::KF>>::Level(0));
                assert(owner.contains_key(fin[0].last().0));
                if p0.levels@[i as int].pending != 0 {
                    assert(owner[recid] == Owner::<Model<P::KF>>::Level(i as nat));
                }
            }
            lemma_nodes_write(&p0.sink.kf(), &p0.sink.vf(), true, b.records, recid, n);
            let e = fin[0];
            assert(level_ok(&p0.sink.kf(), true, p0.nodes(b.records), fin[0], false));
            assert(level_node(
                &p0.sink.kf(),
                true,
                p0.nodes(b.records),
                fin[0],
                fin[0].len() - 1,
                false,
            ));
        }
        Ok(recid)
    }

    /// Writes the last node of every level; answers the root and the tree.
    #[verifier::spinoff_prover]
    #[verifier::rlimit(30)]
    pub(super) fn finish_tree<S: Store>(self, store: &mut S) -> (r: Result<
        (u64, Ghost<Tree<Model<P::KF>>>),
    >)
        requires
            self.ready(old(store).state().records),
        ensures
            keeps_state(old(store).state(), final(store).state()),
            final(store).state().room + self.levels_count() >= old(store).state().room,
            old(store).state().writable && old(store).state().room >= self.levels_count()
                ==> r is Ok,
            turned_down(old(store).state(), final(store).state(), r),
            r matches Ok((root, t)) ==> {
                &&& 0 < root <= i64::MAX
                &&& super::contents::root_of(t@) == root
                &&& built_tree(
                    &self.sink_of().kf(),
                    &self.sink_of().vf(),
                    old(store).state().records,
                    final(store).state().records,
                    self.owned(),
                    self.given(),
                    t@,
                )
                &&& filled(
                    nodes_of(
                        &self.sink_of().kf(),
                        &self.sink_of().vf(),
                        true,
                        final(store).state().records,
                    ),
                    t@,
                    self.fill(),
                )
                &&& written_once(old(store).state().records, final(store).state().records)
                &&& !old(store).state().records.contains_key(root)
            },
    {
        let ghost a = store.state();
        let ghost p0 = self;
        let mut me = self;
        proof {
            assert(p0.level_good(a.records, 0));
            assert forall|r: u64| a.records.contains_key(r) implies #[trigger] agree(
                a.records,
                a.records,
                r,
            ) by {}
            lemma_pump_flags();
        }
        let recid0: u64 = match me.node_recid(store, 0) {
            Ok(x) => x,
            Err(e) => {
                return Err(e);
            },
        };
        let mut keys: Vec<SinkKey<P>> = Vec::new();
        let mut values: Vec<SinkValue<P>> = Vec::new();
        let flags: i32 = if me.levels[0].first {
            6
        } else {
            2
        };
        let lv = &mut me.levels[0];
        std::mem::swap(&mut keys, &mut lv.keys);
        std::mem::swap(&mut values, &mut lv.values);
        let ghost n0 = packed_leaf::<Model<P::KF>, Model<P::VF>>(
            flags,
            0,
            models(keys@),
            models(values@),
        );
        match me.sink.write_leaf(store, recid0, flags, 0, keys, values) {
            Ok(_) => {},
            Err(e) => {
                return Err(e);
            },
        }
        let ghost mut fin: Seq<Level<Model<P::KF>>> = Seq::empty();
        let ghost mut offs: Seq<Seq<int>> = Seq::empty();
        let ghost mut owner = p0.owner@;
        proof {
            assert(store.state().records =~= a.records.insert(
                recid0,
                Some(enc_node(&p0.sink.kf(), &p0.sink.vf(), n0)),
            ));
            p0.lemma_closed(
                a.records,
                a.records,
                store.state().records,
                0,
                fin,
                offs,
                owner,
                recid0,
                n0,
            );
            fin = fin.push(p0.levels@[0].done@.push((recid0, None)));
            owner = owner.insert(recid0, Owner::Level(0));
        }
        let mut child: u64 = recid0;
        let mut i: usize = 1;
        let len: usize = me.levels.len();
        while i < len
            invariant
                1 <= i <= len == p0.levels@.len(),
                p0 == self,
                a == old(store).state(),
                !a.closed && !a.read_only,
                me.levels@.len() == len,
                me.sink == p0.sink,
                forall|x: int| i <= x < len ==> #[trigger] me.levels@[x] == p0.levels@[x],
                p0.in_order(a.records, Set::empty()),
                p0.closed_below(a.records, store.state().records, i as int, fin, offs, owner),
                p0.nodes(store.state().records)[recid0] == n0,
                fin[0].last().0 == recid0,
                child == fin[i - 1].last().0,
                child != 0,
                i == 1 || p0.levels@[i - 1].pending != 0 || child <= i64::MAX,
                p0.levels@[i - 1].pending != 0 || !a.records.contains_key(child),
                i == 1 ==> child == recid0,
                keeps_state(a, store.state()),
                store.state().room + i >= a.room,
            decreases len - i,
        {
            let recid: u64 = match me.close_dir(
                store,
                i,
                child,
                Ghost(p0),
                Ghost(a.records),
                Ghost(fin),
                Ghost(offs),
                Ghost(owner),
                Ghost(recid0),
            ) {
                Ok(x) => x,
                Err(e) => {
                    return Err(e);
                },
            };
            proof {
                let fin0 = fin;
                offs = offs.push(p0.levels@[i as int].off@.push(fin[i - 1].len() as int));
                fin = fin.push(p0.levels@[i as int].done@.push((recid, None)));
                owner = owner.insert(recid, Owner::Level(i as nat));
                assert(fin[0] == fin0[0]);
            }
            child = recid;
            i = i + 1;
        }
        let ghost t = Tree { levels: fin, offs, owner };
        proof {
            p0.lemma_finished(a.records, store.state().records, fin, offs, owner, recid0, n0);
            assert(p0.levels@[len - 1].done@.len() == 0);
            assert(p0.level_good(a.records, len - 1));
        }
        Ok((child, Ghost(t)))
    }

    /// The closed levels are a tree with all the entries.
    #[verifier::spinoff_prover]
    #[verifier::rlimit(60)]
    proof fn lemma_finished(
        &self,
        a: Records,
        b: Records,
        f: Seq<Level<Model<P::KF>>>,
        offs: Seq<Seq<int>>,
        owner: Map<u64, Owner<Model<P::KF>>>,
        recid0: u64,
        n0: NodeM<Model<P::KF>, Model<P::VF>>,
    )
        requires
            self.ready(a),
            self.closed_below(a, b, self.levels@.len() as int, f, offs, owner),
            f[0].last().0 == recid0,
            self.nodes(b)[recid0] == n0,
            n0.keys == models(self.levels@[0].keys@),
            n0.body matches BodyM::Leaf { values, .. } && values == models(self.levels@[0].values@),
        ensures
            built_tree(
                &self.sink.kf(),
                &self.sink.vf(),
                a,
                b,
                self.owner@.dom(),
                self.given@,
                Tree { levels: f, offs, owner },
            ),
            f.last() == self.levels@[self.levels@.len() - 1].done@.push((f.last().last().0, None)),
            filled(self.nodes(b), Tree { levels: f, offs, owner }, self.node_fill as nat),
            written_once(a, b),
    {
        let kf = self.sink.kf();
        let vf = self.sink.vf();
        let na = self.nodes(a);
        let nb = self.nodes(b);
        let len = self.levels@.len() as int;
        let t = Tree { levels: f, offs, owner };
        let d = self.levels@[0].done@;
        assert(self.level_good(a, 0));
        assert(self.levels@[len - 1].done@.len() == 0);
        let top = f[len - 1];
        assert(f[0] == d.push((recid0, None)));
        assert forall|l: int, k: int|
            #![trigger f[l][k]]
            0 <= l < f.len() && 0 <= k < f[l].len() implies owner.contains_key(f[l][k].0)
            && owner[f[l][k].0] == Owner::<Model<P::KF>>::Level(l as nat) by {
            let fl = f[l];
            if k < fl.len() - 1 {
                let e = self.levels@[l].done@[k];
                assert(self.level_good(a, l));
                assert(fl[k] == e);
                assert(self.owner@.contains_key(e.0));
            }
        }
        // entries
        assert forall|k: int| #![trigger d[k]] 0 <= k < d.len() implies nb[d[k].0] == na[d[k].0]
            && na[d[k].0].body is Leaf by {
            let e = self.levels@[0].done@[k];
            assert(built_node(&kf, na, d, k, self.levels@[0].pending, false));
        }
        lemma_pump_entries(&kf, &vf, a, b, d);
        let ps = pairs(models(self.levels@[0].keys@), models(self.levels@[0].values@));
        assert(leaf_entries(&vf, b, n0) =~= ps);
        let eb = level_entries(&vf, b, nb, f[0]);
        let e1 = level_entries(&vf, b, nb, d);
        assert(eb =~= e1.push(ps)) by {
            assert forall|k: int| 0 <= k < f[0].len() implies eb[k] == e1.push(ps)[k] by {
                if k < d.len() {
                    assert(f[0][k] == d[k]);
                }
            }
        }
        assert forall|k: int| #![trigger f[0][k]] 0 <= k < f[0].len()
            implies nb[f[0][k].0].keys.len()
            < 0x0fff_ffff && nb[f[0][k].0].body is Leaf by {
            if k < d.len() {
                let e = self.levels@[0].done@[k];
                assert(f[0][k] == d[k]);
            }
        }
        assert forall|l: int, k: int|
            #![trigger t.levels[l][k]]
            0 <= l < t.levels.len() && 0 <= k < t.levels[l].len()
            implies ({
            let n = nb[t.levels[l][k].0].keys.len();
            if k < t.levels[l].len() - 1 {
                n == self.node_fill
            } else {
                n <= self.node_fill && (k > 0 ==> n > 0)
            }
        }) by {
            let dl = self.levels@[l].done@;
            assert(f[l] == dl.push((f[l].last().0, None)));
            assert(self.level_good(a, l));
            if k < t.levels[l].len() - 1 {
                let e = self.levels@[l].done@[k];
                assert(t.levels[l][k] == e);
                assert(dl[k] == e);
            }
        }
        assert forall|r: u64| #[trigger] a.contains_key(r) && a[r] is Some implies b.contains_key(r)
            && b[r] == a[r] by {
            assert(agree(a, b, r));
        }
        let owned = self.owner@.dom();
        assert forall|r: u64| #[trigger] a.contains_key(r) && !owned.contains(r)
            implies b.contains_key(
            r,
        ) && b[r] == a[r] && !owner.contains_key(r) by {
            assert(agree(a, b, r));
        }
    }

    /// Writes the last node of every level; answers the root.
    pub fn finish<S: Store>(self, store: &mut S) -> (r: Result<u64>)
        requires
            self.ready(old(store).state().records),
        ensures
            keeps_state(old(store).state(), final(store).state()),
            final(store).state().room + self.levels_count() >= old(store).state().room,
            old(store).state().writable && old(store).state().room >= self.levels_count()
                ==> r is Ok,
            turned_down(old(store).state(), final(store).state(), r),
            r matches Ok(root) ==> !old(store).state().records.contains_key(root) && written_once(
                old(store).state().records,
                final(store).state().records,
            ),
            r matches Ok(root) ==> 0 < root <= i64::MAX && exists|t: Tree<Model<P::KF>>|
                super::contents::root_of(t) == root && #[trigger] built_tree(
                    &self.sink_of().kf(),
                    &self.sink_of().vf(),
                    old(store).state().records,
                    final(store).state().records,
                    self.owned(),
                    self.given(),
                    t,
                ) && filled(
                    nodes_of(
                        &self.sink_of().kf(),
                        &self.sink_of().vf(),
                        true,
                        final(store).state().records,
                    ),
                    t,
                    self.fill(),
                ),
    {
        match self.finish_tree(store) {
            Ok((root, t)) => Ok(root),
            Err(e) => Err(e),
        }
    }
}

/// Every node but the last one of its level has exactly `fill` keys, and the last one what
/// is left: no more, and some where it is not the only one.
pub open spec fn filled<K, V>(nodes: Map<u64, NodeM<K, V>>, t: Tree<K>, fill: nat) -> bool {
    forall|l: int, k: int|
        #![trigger t.levels[l][k]]
        0 <= l < t.levels.len() && 0 <= k < t.levels[l].len() ==> {
            let n = nodes[t.levels[l][k].0].keys.len();
            if k < t.levels[l].len() - 1 {
                n == fill
            } else {
                n <= fill && (k > 0 ==> n > 0)
            }
        }
}

/// A record that holds something is not written again.
pub open spec fn written_once(a: Records, b: Records) -> bool {
    forall|r: u64| #[trigger]
        a.contains_key(r) && a[r] is Some ==> b.contains_key(r) && b[r] == a[r]
}

/// The records hold this tree with these entries, and no record of others changed.
pub open spec fn built_tree<KF: KeyFormat, VF: Serializer>(
    kf: &KF,
    vf: &VF,
    a: Records,
    b: Records,
    owned: Set<u64>,
    m: Map<Model<KF>, Model<VF>>,
    t: Tree<Model<KF>>,
) -> bool {
    let nodes = nodes_of(kf, vf, true, b);
    &&& super::tree::levels_ok(kf, true, nodes, t)
    &&& super::contents::owners_ok(t)
    &&& super::contents::slack(nodes, t.levels[0])
    &&& forall|i: int|
        #![trigger t.levels[0][i]]
        0 <= i < t.levels[0].len() ==> nodes[t.levels[0][i].0].body is Leaf
    &&& is_contents(level_entries(vf, b, nodes, t.levels[0]), m)
    &&& m.dom().finite()
    &&& forall|r: u64| #[trigger] t.owner.contains_key(r) ==> r != 0 && b.contains_key(r)
    &&& forall|r: u64| #[trigger]
        t.owner.contains_key(r) ==> owned.contains(r) || !a.contains_key(r)
    &&& forall|r: u64| #[trigger] t.owner.contains_key(r) ==> t.owner[r] is Level
    &&& forall|r: u64| #[trigger]
        a.contains_key(r) && !owned.contains(r) ==> b.contains_key(r) && b[r] == a[r]
            && !t.owner.contains_key(r)
}

/// The pump changed no record of others.
pub open spec fn pump_frames(
    a: StoreState,
    b: StoreState,
    owned: Set<u64>,
    owned2: Set<u64>,
) -> bool {
    &&& owned.subset_of(owned2)
    &&& forall|r: u64| #[trigger]
        a.records.contains_key(r) && !owned.contains(r) ==> b.records.contains_key(r)
            && b.records[r]
            == a.records[r] && !owned2.contains(r)
}

proof fn lemma_pump_frames<'a, P: NodeSink>(
    after: &TreePump<'a, P>,
    before: &TreePump<'a, P>,
    a: StoreState,
    b: StoreState,
)
    requires
        after.grew(before, a, b, 0),
    ensures
        pump_frames(a, b, before.owner@.dom(), after.owner@.dom()),
{
    let owned = before.owner@.dom();
    let owned2 = after.owner@.dom();
    assert forall|r: u64| #[trigger] a.records.contains_key(r) && !owned.contains(r)
        implies b.records.contains_key(
        r,
    ) && b.records[r] == a.records[r] && !owned2.contains(r) by {
        assert(agree(a.records, b.records, r));
    }
    assert(owned.subset_of(owned2)) by {
        assert forall|r: u64| owned.contains(r) implies owned2.contains(r) by {
            assert(before.owner@.contains_key(r));
        }
    }
}

/// Two steps in a row.
proof fn lemma_grew_twice<'a, P: NodeSink>(
    after: &TreePump<'a, P>,
    mid: &TreePump<'a, P>,
    before: &TreePump<'a, P>,
    a: StoreState,
    b: StoreState,
    c: StoreState,
    l: int,
)
    requires
        mid.grew(before, a, b, l),
        after.grew(mid, b, c, l + 1),
        forall|r: u64| #[trigger] before.owner@.contains_key(r) ==> a.records.contains_key(r),
        forall|r: u64| #[trigger] mid.owner@.contains_key(r) ==> b.records.contains_key(r),
    ensures
        after.grew(before, a, c, l),
{
    assert forall|x: int| 0 <= x < l && x < before.levels@.len() implies #[trigger] after.levels@[x]
        == before.levels@[x] by {
        assert(mid.levels@[x] == before.levels@[x]);
    }
    assert forall|r: u64| #[trigger] after.owner@.contains_key(r)
        implies before.owner@.contains_key(r)
        || !a.records.contains_key(r) by {
        if a.records.contains_key(r) && !before.owner@.contains_key(r) {
            assert(agree(a.records, b.records, r));
            if mid.owner@.contains_key(r) {
            }
        }
    }
    assert forall|r: u64|
        a.records.contains_key(r)
            && !(before.owner@.contains_key(r) && (before.owner@[r] matches Owner::Level(
            m,
        ) && m >= l)) implies #[trigger] agree(a.records, c.records, r) by {
        assert(agree(a.records, b.records, r));
        if mid.owner@.contains_key(r) {
            assert(before.owner@.contains_key(r));
        }
        assert(agree(b.records, c.records, r));
    }
    assert forall|r: u64| a.records.contains_key(r) && a.records[r] is Some implies #[trigger] agree(
        a.records,
        c.records,
        r,
    ) by {
        assert(agree(a.records, b.records, r));
        assert(agree(b.records, c.records, r));
    }
    assert forall|r: u64| #[trigger] before.owner@.contains_key(r)
        implies after.owner@.contains_key(r)
        && after.owner@[r] == before.owner@[r] by {
        assert(mid.owner@.contains_key(r));
    }
}

proof fn lemma_pump_flags()
    ensures
        ({
            &&& 0i32 & 8 == 0 && 0i32 & 4 == 0 && 0i32 & 2 == 0
            &&& 4i32 & 8 == 0 && 4i32 & 4 != 0 && 4i32 & 2 == 0
            &&& 2i32 & 8 == 0 && 2i32 & 4 == 0 && 2i32 & 2 != 0
            &&& 6i32 & 8 == 0 && 6i32 & 4 != 0 && 6i32 & 2 != 0
            &&& 8i32 & 8 != 0 && 8i32 & 4 == 0 && 8i32 & 2 == 0
            &&& 12i32 & 8 != 0 && 12i32 & 4 != 0 && 12i32 & 2 == 0
            &&& 10i32 & 8 != 0 && 10i32 & 4 == 0 && 10i32 & 2 != 0
            &&& 14i32 & 8 != 0 && 14i32 & 4 != 0 && 14i32 & 2 != 0
        }),
{
    assert(0i32 & 8 == 0 && 0i32 & 4 == 0 && 0i32 & 2 == 0 && 4i32 & 8 == 0 && 4i32 & 4 != 0 && 4i32
        & 2 == 0 && 2i32 & 8 == 0 && 2i32 & 4 == 0 && 2i32 & 2 != 0 && 6i32 & 8 == 0 && 6i32 & 4
        != 0 && 6i32 & 2 != 0 && 8i32 & 8 != 0 && 8i32 & 4 == 0 && 8i32 & 2 == 0 && 12i32 & 8 != 0
        && 12i32 & 4 != 0 && 12i32 & 2 == 0 && 10i32 & 8 != 0 && 10i32 & 4 == 0 && 10i32 & 2 != 0
        && 14i32 & 8 != 0 && 14i32 & 4 != 0 && 14i32 & 2 != 0) by (bit_vector);
}

} // verus!
