//! The shape of a B-link tree: levels of linked nodes, each level covering the
//! whole key space, and directories whose children are the level below.

use vstd::prelude::*;
use crate::ser::{group_key_order, sorted, splits_at, KeyFormat, Model, Serializer};
use crate::store::Records;
use super::node::{dec_node, node_ok, BodyM, NodeM};

verus! {

/// The nodes of one level from left to right: recid and inclusive high bound. The
/// last one has no bound.
pub type Level<K> = Seq<(u64, Option<K>)>;

/// The nodes that a store holds.
pub type Nodes<KF, VF> = Map<u64, NodeM<Model<KF>, Model<VF>>>;

/// What a record of a map is for.
pub enum Owner<K> {
    Level(nat),
    Value(K),
    RootPointer,
    Counter,
}

/// The shape of a tree, leaves first: the levels; for each directory level the
/// position in the level below at which the children of each node start; and the
/// records that belong to the map.
pub struct Tree<K> {
    pub levels: Seq<Level<K>>,
    pub offs: Seq<Seq<int>>,
    pub owner: Map<u64, Owner<K>>,
}

/// The node in record `recid`.
pub open spec fn node_at<KF: KeyFormat, VF: Serializer>(
    kf: &KF,
    vf: &VF,
    inline: bool,
    records: Records,
    recid: u64,
) -> Option<NodeM<Model<KF>, Model<VF>>> {
    if recid != 0 && records.contains_key(recid) {
        match records[recid] {
            Some(b) => match dec_node(kf, vf, inline, b, Some(b.len())) {
                Some((n, used)) => Some(n),
                None => None,
            },
            None => None,
        }
    } else {
        None
    }
}

/// All nodes in the store.
pub open spec fn nodes_of<KF: KeyFormat, VF: Serializer>(
    kf: &KF,
    vf: &VF,
    inline: bool,
    records: Records,
) -> Nodes<KF, VF> {
    Map::new(
        |r: u64| node_at(kf, vf, inline, records, r) is Some,
        |r: u64| node_at(kf, vf, inline, records, r).unwrap(),
    )
}

/// The exclusive low bound of node `i` of a level.
pub open spec fn low<K>(l: Level<K>, i: int) -> Option<K> {
    if i <= 0 {
        None
    } else {
        l[i - 1].1
    }
}

/// `k` lies above an exclusive low bound.
pub open spec fn above<KF: KeyFormat>(kf: &KF, lo: Option<Model<KF>>, k: Model<KF>) -> bool {
    match lo {
        Some(b) => kf.lt(b, k),
        None => true,
    }
}

/// `k` lies within an inclusive high bound.
pub open spec fn within<KF: KeyFormat>(kf: &KF, k: Model<KF>, hi: Option<Model<KF>>) -> bool {
    match hi {
        Some(b) => !kf.lt(b, k),
        None => true,
    }
}

/// Node `i` of the level is where `k` belongs.
pub open spec fn covers<KF: KeyFormat>(
    kf: &KF,
    l: Level<Model<KF>>,
    i: int,
    k: Model<KF>,
) -> bool {
    &&& 0 <= i < l.len()
    &&& above(kf, low(l, i), k)
    &&& within(kf, k, l[i].1)
}

pub open spec fn keys_in<KF: KeyFormat>(
    kf: &KF,
    keys: Seq<Model<KF>>,
    lo: Option<Model<KF>>,
    hi: Option<Model<KF>>,
) -> bool {
    forall|p: int|
        0 <= p < keys.len() ==> above(kf, lo, #[trigger] keys[p]) && within(kf, keys[p], hi)
}

/// Node `i` of a level is as the level says.
pub open spec fn level_node<KF: KeyFormat, V>(
    kf: &KF,
    inline: bool,
    nodes: Map<u64, NodeM<Model<KF>, V>>,
    l: Level<Model<KF>>,
    i: int,
    dir: bool,
) -> bool {
    let n = nodes[l[i].0];
    &&& nodes.contains_key(l[i].0)
    &&& node_ok(kf, inline, n)
    &&& n.dir() == dir
    &&& n.high() == l[i].1
    &&& n.left() == (i == 0)
    &&& n.right() == (i == l.len() - 1)
    &&& i < l.len() - 1 ==> n.link == l[i + 1].0
    &&& keys_in(kf, n.keys, low(l, i), l[i].1)
}

/// The high bounds ascend.
pub open spec fn bounds_sorted<KF: KeyFormat>(kf: &KF, l: Level<Model<KF>>) -> bool {
    &&& forall|i: int| #![trigger l[i]] 0 <= i < l.len() ==> (l[i].1 is None) == (i == l.len() - 1)
    &&& forall|i: int, j: int|
        #![trigger l[i], l[j]]
        0 <= i < j < l.len() - 1 ==> kf.lt(l[i].1.unwrap(), l[j].1.unwrap())
}

/// The nodes form this level.
pub open spec fn level_ok<KF: KeyFormat, V>(
    kf: &KF,
    inline: bool,
    nodes: Map<u64, NodeM<Model<KF>, V>>,
    l: Level<Model<KF>>,
    dir: bool,
) -> bool {
    &&& l.len() > 0
    &&& bounds_sorted(kf, l)
    &&& forall|i: int| 0 <= i < l.len() ==> #[trigger] level_node(kf, inline, nodes, l, i, dir)
}

/// The children of directory `n` are the nodes of the level below from `base` on,
/// and its keys are their high bounds.
pub open spec fn one_parent<K, V>(n: NodeM<K, V>, s: Level<K>, base: int) -> bool {
    forall|c: int|
        #![trigger n.children()[c]]
        #![trigger n.keys[c]]
        0 <= c < n.children().len() ==> n.children()[c] == s[base + c].0 && (c < n.keys.len()
            ==> s[base + c].1 == Some(n.keys[c]))
}

pub open spec fn parent_node<K, V>(
    nodes: Map<u64, NodeM<K, V>>,
    p: Level<K>,
    s: Level<K>,
    off: Seq<int>,
    j: int,
) -> bool {
    let n = nodes[p[j].0];
    &&& 0 <= off[j]
    &&& off[j + 1] == off[j] + n.children().len()
    &&& off[j + 1] <= s.len()
    &&& one_parent(n, s, off[j])
}

/// The directories of level `p` have the nodes of level `s` as children.
pub open spec fn parent_ok<K, V>(
    nodes: Map<u64, NodeM<K, V>>,
    p: Level<K>,
    s: Level<K>,
    off: Seq<int>,
) -> bool {
    &&& off.len() == p.len() + 1
    &&& off[0] == 0
    &&& off[p.len() as int] == s.len()
    &&& forall|j: int| 0 <= j < p.len() ==> #[trigger] parent_node(nodes, p, s, off, j)
}

/// The nodes form this tree.
pub open spec fn levels_ok<KF: KeyFormat, V>(
    kf: &KF,
    inline: bool,
    nodes: Map<u64, NodeM<Model<KF>, V>>,
    t: Tree<Model<KF>>,
) -> bool {
    &&& t.levels.len() > 0
    &&& t.offs.len() == t.levels.len() - 1
    &&& t.levels.last().len() == 1
    &&& forall|l: int|
        #![trigger t.levels[l]]
        0 <= l < t.levels.len() ==> level_ok(kf, inline, nodes, t.levels[l], l > 0)
    &&& forall|l: int|
        #![trigger t.offs[l]]
        0 <= l < t.offs.len() ==> parent_ok(nodes, t.levels[l + 1], t.levels[l], t.offs[l])
}

// ---------------------------------------------------------------- levels

pub proof fn lemma_level_distinct<KF: KeyFormat, V>(
    kf: &KF,
    inline: bool,
    nodes: Map<u64, NodeM<Model<KF>, V>>,
    l: Level<Model<KF>>,
    dir: bool,
    i: int,
    j: int,
)
    requires
        level_ok(kf, inline, nodes, l, dir),
        0 <= i < l.len(),
        0 <= j < l.len(),
        l[i].0 == l[j].0,
    ensures
        i == j,
{
    broadcast use group_key_order;

    assert(level_node(kf, inline, nodes, l, i, dir));
    assert(level_node(kf, inline, nodes, l, j, dir));
    if i < j {
        assert(l[i].1 == l[j].1);
    } else if j < i {
        assert(l[i].1 == l[j].1);
    }
}

/// A key belongs to one node of a level only.
pub proof fn lemma_covers_unique<KF: KeyFormat>(
    kf: &KF,
    l: Level<Model<KF>>,
    i: int,
    j: int,
    k: Model<KF>,
)
    requires
        bounds_sorted(kf, l),
        covers(kf, l, i, k),
        covers(kf, l, j, k),
    ensures
        i == j,
{
    broadcast use group_key_order;

    if i < j {
        assert(l[j - 1].1 is Some);
        if i < j - 1 {
            assert(kf.lt(l[i].1.unwrap(), l[j - 1].1.unwrap()));
        }
    } else if j < i {
        assert(l[i - 1].1 is Some);
        if j < i - 1 {
            assert(kf.lt(l[j].1.unwrap(), l[i - 1].1.unwrap()));
        }
    }
}

pub proof fn lemma_level_frame<KF: KeyFormat, V>(
    kf: &KF,
    inline: bool,
    a: Map<u64, NodeM<Model<KF>, V>>,
    b: Map<u64, NodeM<Model<KF>, V>>,
    l: Level<Model<KF>>,
    dir: bool,
)
    requires
        level_ok(kf, inline, a, l, dir),
        forall|i: int|
            #![trigger l[i]]
            0 <= i < l.len() ==> b.contains_key(l[i].0) && b[l[i].0] == a[l[i].0],
    ensures
        level_ok(kf, inline, b, l, dir),
{
    assert forall|i: int| 0 <= i < l.len() implies #[trigger] level_node(
        kf,
        inline,
        b,
        l,
        i,
        dir,
    ) by {
        assert(level_node(kf, inline, a, l, i, dir));
    }
}

pub proof fn lemma_parent_frame<K, V>(
    a: Map<u64, NodeM<K, V>>,
    b: Map<u64, NodeM<K, V>>,
    p: Level<K>,
    s: Level<K>,
    off: Seq<int>,
)
    requires
        parent_ok(a, p, s, off),
        forall|i: int| #![trigger p[i]] 0 <= i < p.len() ==> b[p[i].0] == a[p[i].0],
    ensures
        parent_ok(b, p, s, off),
{
    assert forall|j: int| 0 <= j < p.len() implies #[trigger] parent_node(
        b,
        p,
        s,
        off,
        j,
    ) by {
        assert(parent_node(a, p, s, off, j));
    }
}

/// Replacing a node by one with the same place and bounds keeps the level.
pub proof fn lemma_level_update<KF: KeyFormat, V>(
    kf: &KF,
    inline: bool,
    nodes: Map<u64, NodeM<Model<KF>, V>>,
    l: Level<Model<KF>>,
    dir: bool,
    i: int,
    n: NodeM<Model<KF>, V>,
)
    requires
        level_ok(kf, inline, nodes, l, dir),
        0 <= i < l.len(),
        node_ok(kf, inline, n),
        n.flags == nodes[l[i].0].flags,
        n.link == nodes[l[i].0].link,
        n.high() == l[i].1,
        keys_in(kf, n.keys, low(l, i), l[i].1),
    ensures
        level_ok(kf, inline, nodes.insert(l[i].0, n), l, dir),
{
    let nodes2 = nodes.insert(l[i].0, n);
    assert(level_node(kf, inline, nodes, l, i, dir));
    assert forall|x: int| 0 <= x < l.len() implies #[trigger] level_node(
        kf,
        inline,
        nodes2,
        l,
        x,
        dir,
    ) by {
        assert(level_node(kf, inline, nodes, l, x, dir));
        if l[x].0 == l[i].0 {
            lemma_level_distinct(kf, inline, nodes, l, dir, x, i);
        }
    }
}

/// The level after node `i` was split at `sep` with right half `q`.
pub open spec fn split_level<K>(l: Level<K>, i: int, q: u64, sep: K) -> Level<K> {
    l.update(i, (l[i].0, Some(sep))).insert(i + 1, (q, l[i].1))
}

/// Node `recid` is in the level and starts at the low bound `lo`.
pub open spec fn starts_in<K>(l: Level<K>, recid: u64, lo: Option<K>) -> bool {
    exists|j: int| #![trigger l[j]] 0 <= j < l.len() && l[j].0 == recid && low(l, j) == lo
}

/// Node `i` of level `l` is in level `l2` too, with the same low bound.
pub open spec fn start_kept<K>(l: Level<K>, l2: Level<K>, i: int) -> bool {
    starts_in(l2, l[i].0, low(l, i))
}

/// Every node of level `l` is in level `l2` too, with the same low bound.
#[verifier::opaque]
pub open spec fn starts_kept<K>(l: Level<K>, l2: Level<K>) -> bool {
    forall|i: int| 0 <= i < l.len() ==> #[trigger] start_kept(l, l2, i)
}

pub proof fn lemma_starts_same<K>(l: Level<K>)
    ensures
        starts_kept(l, l),
{
    reveal(starts_kept);
    assert forall|i: int| 0 <= i < l.len() implies #[trigger] start_kept(l, l, i) by {
        assert(l.contains(l[i]));
    }
}

pub proof fn lemma_starts_split<K>(l: Level<K>, i: int, q: u64, sep: K)
    requires
        0 <= i < l.len(),
    ensures
        starts_kept(l, split_level(l, i, q, sep)),
{
    reveal(starts_kept);
    let l2 = split_level(l, i, q, sep);
    assert forall|x: int| 0 <= x < l.len() implies #[trigger] start_kept(l, l2, x) by {
        if x <= i {
            assert(l2[x].0 == l[x].0);
            assert(x > 0 ==> l2[x - 1] == l[x - 1]);
        } else {
            assert(l2[x + 1].0 == l[x].0);
            assert(l2[x].1 == l[x - 1].1);
        }
    }
}

pub proof fn lemma_starts_chain<K>(l: Level<K>, l2: Level<K>, l3: Level<K>)
    requires
        starts_kept(l, l2),
        starts_kept(l2, l3),
    ensures
        starts_kept(l, l3),
{
    reveal(starts_kept);
    assert forall|x: int| 0 <= x < l.len() implies #[trigger] start_kept(l, l3, x) by {
        assert(start_kept(l, l2, x));
        let y = choose|y: int|
            #![trigger l2[y]]
            0 <= y < l2.len() && l2[y].0 == l[x].0 && low(l2, y) == low(l, x);
        assert(start_kept(l2, l3, y));
        let j = choose|j: int|
            #![trigger l3[j]]
            0 <= j < l3.len() && l3[j].0 == l2[y].0 && low(l3, j) == low(l2, y);
        assert(l3[j].0 == l[x].0);
    }
}

pub proof fn lemma_starts_in<K>(l: Level<K>, l2: Level<K>, recid: u64, lo: Option<K>)
    requires
        starts_kept(l, l2),
        starts_in(l, recid, lo),
    ensures
        starts_in(l2, recid, lo),
{
    reveal(starts_kept);
    let j = choose|j: int|
        #![trigger l[j]]
        0 <= j < l.len() && l[j].0 == recid && low(l, j) == lo;
    assert(start_kept(l, l2, j));
}

/// Every level of `a` is in `b` too, with every node where it was.
#[verifier::opaque]
pub open spec fn levels_kept<K>(a: Seq<Level<K>>, b: Seq<Level<K>>) -> bool {
    &&& a.len() <= b.len()
    &&& forall|l: int| #![trigger a[l]] 0 <= l < a.len() ==> starts_kept(a[l], b[l])
}

pub proof fn lemma_levels_at<K>(a: Seq<Level<K>>, b: Seq<Level<K>>, l: int)
    requires
        levels_kept(a, b),
        0 <= l < a.len(),
    ensures
        a.len() <= b.len(),
        starts_kept(a[l], b[l]),
{
    reveal(levels_kept);
}

pub proof fn lemma_levels_same<K>(a: Seq<Level<K>>)
    ensures
        levels_kept(a, a),
{
    reveal(levels_kept);
    assert forall|l: int| #![trigger a[l]] 0 <= l < a.len() implies starts_kept(a[l], a[l]) by {
        lemma_starts_same(a[l]);
    }
}

pub proof fn lemma_levels_split<K>(a: Seq<Level<K>>, at: int, i: int, q: u64, sep: K)
    requires
        0 <= at < a.len(),
        0 <= i < a[at].len(),
    ensures
        levels_kept(a, a.update(at, split_level(a[at], i, q, sep))),
{
    reveal(levels_kept);
    let b = a.update(at, split_level(a[at], i, q, sep));
    assert forall|l: int| #![trigger a[l]] 0 <= l < a.len() implies starts_kept(a[l], b[l]) by {
        lemma_starts_same(a[l]);
        lemma_starts_split(a[at], i, q, sep);
    }
}

pub proof fn lemma_levels_push<K>(a: Seq<Level<K>>, top: Level<K>)
    ensures
        levels_kept(a, a.push(top)),
{
    reveal(levels_kept);
    let b = a.push(top);
    assert forall|l: int| #![trigger a[l]] 0 <= l < a.len() implies starts_kept(a[l], b[l]) by {
        lemma_starts_same(a[l]);
    }
}

pub proof fn lemma_levels_chain<K>(a: Seq<Level<K>>, b: Seq<Level<K>>, c: Seq<Level<K>>)
    requires
        levels_kept(a, b),
        levels_kept(b, c),
    ensures
        levels_kept(a, c),
{
    reveal(levels_kept);
    assert forall|l: int| #![trigger a[l]] 0 <= l < a.len() implies starts_kept(a[l], c[l]) by {
        assert(starts_kept(a[l], b[l]));
        assert(starts_kept(b[l], c[l]));
        lemma_starts_chain(a[l], b[l], c[l]);
    }
}

/// Splitting a node at a key between its bounds keeps the level.
#[verifier::spinoff_prover]
pub proof fn lemma_level_split<KF: KeyFormat, V>(
    kf: &KF,
    inline: bool,
    nodes: Map<u64, NodeM<Model<KF>, V>>,
    l: Level<Model<KF>>,
    dir: bool,
    i: int,
    q: u64,
    sep: Model<KF>,
    a: NodeM<Model<KF>, V>,
    b: NodeM<Model<KF>, V>,
)
    requires
        level_ok(kf, inline, nodes, l, dir),
        0 <= i < l.len(),
        q != 0,
        forall|x: int| #![trigger l[x]] 0 <= x < l.len() ==> l[x].0 != q,
        node_ok(kf, inline, a),
        node_ok(kf, inline, b),
        a.dir() == dir,
        b.dir() == dir,
        a.left() == nodes[l[i].0].left(),
        !a.right(),
        !b.left(),
        b.right() == nodes[l[i].0].right(),
        a.link == q,
        b.link == nodes[l[i].0].link,
        a.high() == Some(sep),
        b.high() == l[i].1,
        above(kf, low(l, i), sep),
        l[i].1 matches Some(h) ==> kf.lt(sep, h),
        keys_in(kf, a.keys, low(l, i), Some(sep)),
        keys_in(kf, b.keys, Some(sep), l[i].1),
    ensures
        level_ok(kf, inline, nodes.insert(q, b).insert(l[i].0, a), split_level(l, i, q, sep), dir),
{
    broadcast use group_key_order;

    let l2 = split_level(l, i, q, sep);
    let nodes2 = nodes.insert(q, b).insert(l[i].0, a);
    assert(l2.len() == l.len() + 1);
    assert(forall|x: int| 0 <= x < i ==> l2[x] == l[x]);
    assert(l2[i] == (l[i].0, Some(sep)));
    assert(l2[i + 1] == (q, l[i].1));
    assert(forall|x: int| i + 1 < x < l2.len() ==> l2[x] == l[x - 1]);
    assert(level_node(kf, inline, nodes, l, i, dir));
    assert forall|x: int| #![trigger l2[x]] 0 <= x < l2.len() implies (l2[x].1 is None) == (x
        == l2.len() - 1) by {
        if x < i {
            assert(l2[x] == l[x]);
        } else if x > i + 1 {
            assert(l2[x] == l[x - 1]);
        } else {
            assert(l[i].1 is None == (i == l.len() - 1));
        }
    }
    assert forall|x: int, y: int|
        #![trigger l2[x], l2[y]]
        0 <= x < y < l2.len() - 1 implies kf.lt(l2[x].1.unwrap(), l2[y].1.unwrap()) by {
        let ox = if x <= i {
            x
        } else {
            x - 1
        };
        let oy = if y <= i {
            y
        } else {
            y - 1
        };
        let lx = l[ox];
        let ly = l[oy];
        if y == i {
            assert(x < i);
            assert(low(l, i) == l[i - 1].1);
            if x < i - 1 {
                assert(kf.lt(l[x].1.unwrap(), l[i - 1].1.unwrap()));
            }
        } else if x == i {
            if y == i + 1 {
            } else {
                assert(kf.lt(l[i].1.unwrap(), l[y - 1].1.unwrap()));
            }
        } else {
            assert(ox < oy);
        }
    }
    assert forall|x: int| 0 <= x < l2.len() implies #[trigger] level_node(
        kf,
        inline,
        nodes2,
        l2,
        x,
        dir,
    ) by {
        if x < i {
            assert(level_node(kf, inline, nodes, l, x, dir));
            if l[x].0 == l[i].0 {
                lemma_level_distinct(kf, inline, nodes, l, dir, x, i);
            }
            assert(l2[x + 1].0 == l[x + 1].0);
            assert(low(l2, x) == low(l, x));
        } else if x == i {
            assert(low(l2, x) == low(l, x));
        } else if x == i + 1 {
            assert(l[i].0 != q);
            assert(low(l2, x) == Some(sep));
            if i < l.len() - 1 {
                assert(l2[i + 2].0 == l[i + 1].0);
            }
        } else {
            let o = l[x - 1];
            assert(level_node(kf, inline, nodes, l, x - 1, dir));
            if l[x - 1].0 == l[i].0 {
                lemma_level_distinct(kf, inline, nodes, l, dir, x - 1, i);
            }
            if x < l2.len() - 1 {
                assert(l2[x + 1].0 == l[x].0);
            }
            assert(low(l2, x) == low(l, x - 1)) by {
                if x == i + 2 {
                    assert(l2[i + 1].1 == l[i].1);
                } else {
                    assert(l2[x - 1] == l[x - 2]);
                }
            }
        }
    }
}

// ---------------------------------------------------------------- parents

/// The directory at the place where a key belongs leads to the node below where
/// the key belongs.
pub proof fn lemma_descend<KF: KeyFormat, V>(
    kf: &KF,
    inline: bool,
    nodes: Map<u64, NodeM<Model<KF>, V>>,
    p: Level<Model<KF>>,
    s: Level<Model<KF>>,
    off: Seq<int>,
    j: int,
    k: Model<KF>,
    c: int,
)
    requires
        level_ok(kf, inline, nodes, p, true),
        bounds_sorted(kf, s),
        parent_ok(nodes, p, s, off),
        covers(kf, p, j, k),
        0 <= c <= nodes[p[j].0].keys.len(),
        (c < nodes[p[j].0].keys.len() && nodes[p[j].0].keys[c] == k) || splits_at(
            kf,
            nodes[p[j].0].keys,
            k,
            c,
        ),
    ensures
        c < nodes[p[j].0].children().len(),
        covers(kf, s, off[j] + c, k),
        nodes[p[j].0].children()[c] == s[off[j] + c].0,
{
    broadcast use group_key_order;

    let n = nodes[p[j].0];
    assert(level_node(kf, inline, nodes, p, j, true));
    assert(parent_node(nodes, p, s, off, j));
    let i = off[j] + c;
    if !n.right() {
        let last = n.keys[n.keys.len() - 1];
        assert(n.children().len() == n.keys.len());
        assert(p[j].1 == Some(n.keys.last()));
        if c == n.keys.len() {
            assert(kf.lt(last, k));
        }
    }
    assert(c < n.children().len());
    assert(n.children()[c] == s[i].0);
    // the high bound
    if c < n.keys.len() {
        assert(s[i].1 == Some(n.keys[c]));
    } else {
        assert(n.right());
        assert(j == p.len() - 1);
        assert(i == s.len() - 1);
        assert(s[i].1 is None);
    }
    // the low bound
    if c > 0 {
        assert(n.children()[c - 1] == s[i - 1].0);
        assert(s[i - 1].1 == Some(n.keys[c - 1]));
        assert(kf.lt(n.keys[c - 1], k));
    } else if i > 0 {
        lemma_first_child_low(kf, inline, nodes, p, s, off, j);
    }
}

/// The first child of a directory has the low bound of the directory.
pub proof fn lemma_first_child_low<KF: KeyFormat, V>(
    kf: &KF,
    inline: bool,
    nodes: Map<u64, NodeM<Model<KF>, V>>,
    p: Level<Model<KF>>,
    s: Level<Model<KF>>,
    off: Seq<int>,
    j: int,
)
    requires
        level_ok(kf, inline, nodes, p, true),
        parent_ok(nodes, p, s, off),
        0 <= j < p.len(),
    ensures
        low(s, off[j]) == low(p, j),
        j > 0 ==> off[j] > 0,
{
    if j > 0 {
        assert(parent_node(nodes, p, s, off, j - 1));
        assert(level_node(kf, inline, nodes, p, j - 1, true));
        let m = nodes[p[j - 1].0];
        let c = m.children().len() - 1;
        assert(m.children()[c] == s[off[j - 1] + c].0);
        assert(s[off[j] - 1].1 == Some(m.keys[c]));
        assert(p[j - 1].1 == Some(m.keys.last()));
    }
}

/// Bound `a` is not above bound `b`; `None` is below everything.
pub open spec fn low_le<KF: KeyFormat>(
    kf: &KF,
    a: Option<Model<KF>>,
    b: Option<Model<KF>>,
) -> bool {
    match a {
        None => true,
        Some(x) => b matches Some(y) && !kf.lt(y, x),
    }
}

/// A child starts no lower than its directory.
pub proof fn lemma_child_low<KF: KeyFormat, V>(
    kf: &KF,
    inline: bool,
    nodes: Map<u64, NodeM<Model<KF>, V>>,
    p: Level<Model<KF>>,
    s: Level<Model<KF>>,
    off: Seq<int>,
    j: int,
    c: int,
)
    requires
        level_ok(kf, inline, nodes, p, true),
        parent_ok(nodes, p, s, off),
        0 <= j < p.len(),
        0 <= c < nodes[p[j].0].children().len(),
    ensures
        low_le(kf, low(p, j), low(s, off[j] + c)),
        0 <= off[j] + c < s.len(),
{
    broadcast use group_key_order;

    let n = nodes[p[j].0];
    assert(parent_node(nodes, p, s, off, j));
    assert(level_node(kf, inline, nodes, p, j, true));
    if c == 0 {
        lemma_first_child_low(kf, inline, nodes, p, s, off, j);
        if let Some(x) = low(p, j) {
            kf.lt_irreflexive(x);
        }
    } else {
        assert(n.children()[c - 1] == s[off[j] + c - 1].0);
        assert(s[off[j] + c - 1].1 == Some(n.keys[c - 1]));
        assert(above(kf, low(p, j), n.keys[c - 1]));
        if let Some(x) = low(p, j) {
            kf.lt_total(x, n.keys[c - 1]);
            if kf.lt(n.keys[c - 1], x) {
                kf.lt_transitive(x, n.keys[c - 1], x);
                kf.lt_irreflexive(x);
            }
        }
    }
}

/// A directory after its child `c` was split: the new separator and child.
pub open spec fn with_child<K, V>(n: NodeM<K, V>, c: int, sep: K, child: u64) -> NodeM<K, V> {
    NodeM {
        flags: n.flags,
        link: n.link,
        keys: n.keys.insert(c, sep),
        body: BodyM::Dir { children: n.children().insert(c + 1, child) },
    }
}

/// The starts of the children after one was added under directory `j`.
pub open spec fn shift_off(off: Seq<int>, j: int) -> Seq<int> {
    Seq::new(
        off.len(),
        |x: int|
            if x <= j {
                off[x]
            } else {
                off[x] + 1
            },
    )
}

/// A directory with the new separator and child is a directory of its level.
#[verifier::spinoff_prover]
proof fn lemma_with_child<KF: KeyFormat, V>(
    kf: &KF,
    inline: bool,
    nodes: Map<u64, NodeM<Model<KF>, V>>,
    p: Level<Model<KF>>,
    s: Level<Model<KF>>,
    off: Seq<int>,
    j: int,
    c: int,
    q: u64,
    sep: Model<KF>,
)
    requires
        level_ok(kf, inline, nodes, p, true),
        parent_ok(nodes, p, s, off),
        0 <= j < p.len(),
        0 <= c < nodes[p[j].0].children().len(),
        above(kf, low(s, off[j] + c), sep),
        s[off[j] + c].1 matches Some(h) ==> kf.lt(sep, h),
        q != 0,
    ensures
        ({
            let n2 = with_child(nodes[p[j].0], c, sep, q);
            &&& node_ok(kf, inline, n2)
            &&& n2.high() == p[j].1
            &&& keys_in(kf, n2.keys, low(p, j), p[j].1)
        }),
{
    broadcast use group_key_order;

    let n = nodes[p[j].0];
    let n2 = with_child(n, c, sep, q);
    let i = off[j] + c;
    assert(level_node(kf, inline, nodes, p, j, true));
    assert(parent_node(nodes, p, s, off, j));
    assert(n.children()[c] == s[i].0);
    // where the separator stands among the keys
    assert(c > 0 ==> kf.lt(n.keys[c - 1], sep)) by {
        if c > 0 {
            assert(n.children()[c - 1] == s[i - 1].0);
            assert(s[i - 1].1 == Some(n.keys[c - 1]));
        }
    }
    assert(c < n.keys.len() ==> kf.lt(sep, n.keys[c])) by {
        if c < n.keys.len() {
            assert(s[i].1 == Some(n.keys[c]));
        }
    }
    assert(sorted(kf, n2.keys)) by {
        assert forall|x: int, y: int|
            #![trigger n2.keys[x], n2.keys[y]]
            0 <= x < y < n2.keys.len() implies kf.lt(n2.keys[x], n2.keys[y]) by {
            let ox = if x < c {
                x
            } else {
                x - 1
            };
            let oy = if y < c {
                y
            } else {
                y - 1
            };
            if x != c && y != c {
                assert(n2.keys[x] == n.keys[ox] && n2.keys[y] == n.keys[oy]);
            } else if x == c {
                assert(n2.keys[y] == n.keys[y - 1]);
                if y - 1 > c {
                    assert(kf.lt(n.keys[c], n.keys[y - 1]));
                }
            } else {
                assert(n2.keys[x] == n.keys[x]);
                if x < c - 1 {
                    assert(kf.lt(n.keys[x], n.keys[c - 1]));
                }
            }
        }
    }
    assert(super::node::no_zero(n2.children())) by {
        assert forall|x: int| 0 <= x < n2.children().len()
            implies #[trigger] n2.children()[x] != 0 by {
            if x <= c {
                assert(n2.children()[x] == n.children()[x]);
            } else if x > c + 1 {
                assert(n2.children()[x] == n.children()[x - 1]);
            }
        }
    }
    assert(node_ok(kf, inline, n2));
    assert(n2.high() == p[j].1) by {
        if !n.right() {
            assert(c < n.keys.len());
            assert(n2.keys.last() == n.keys.last());
        }
    }
    assert forall|x: int| 0 <= x < n2.keys.len() implies above(kf, low(p, j), #[trigger] n2.keys[x])
        && within(kf, n2.keys[x], p[j].1) by {
        if x < c {
            assert(n2.keys[x] == n.keys[x]);
        } else if x > c {
            assert(n2.keys[x] == n.keys[x - 1]);
        } else {
            lemma_first_child_low(kf, inline, nodes, p, s, off, j);
            if c > 0 {
                assert(above(kf, low(p, j), n.keys[c - 1]));
            }
            if c < n.keys.len() {
                assert(within(kf, n.keys[c], p[j].1));
            } else {
                assert(n.right());
            }
        }
    }
}

/// The children of a directory with the new separator and child.
proof fn lemma_with_child_children<K, V>(
    n: NodeM<K, V>,
    s: Level<K>,
    base: int,
    c: int,
    q: u64,
    sep: K,
)
    requires
        one_parent(n, s, base),
        n.body is Dir,
        0 <= c < n.children().len(),
        0 <= base,
        base + n.children().len() <= s.len(),
        n.keys.len() <= n.children().len() <= n.keys.len() + 1,
    ensures
        one_parent(with_child(n, c, sep, q), split_level(s, base + c, q, sep), base),
{
    let n2 = with_child(n, c, sep, q);
    let s2 = split_level(s, base + c, q, sep);
    assert forall|y: int|
        #![trigger n2.children()[y]]
        #![trigger n2.keys[y]]
        0 <= y < n2.children().len() implies n2.children()[y] == s2[base + y].0 && (y
        < n2.keys.len() ==> s2[base + y].1 == Some(n2.keys[y])) by {
        if y < c {
            assert(n.children()[y] == s[base + y].0);
            assert(n2.keys[y] == n.keys[y]);
        } else if y == c {
            assert(n.children()[c] == s[base + c].0);
        } else if y == c + 1 {
            assert(n.children()[c] == s[base + c].0);
            if y < n2.keys.len() {
                assert(n2.keys[y] == n.keys[c]);
            }
        } else {
            assert(n.children()[y - 1] == s[base + y - 1].0);
            if y < n2.keys.len() {
                assert(n2.keys[y] == n.keys[y - 1]);
            }
        }
    }
}

/// Adding the new separator and child to the parent matches the split below.
#[verifier::spinoff_prover]
pub proof fn lemma_parent_insert<KF: KeyFormat, V>(
    kf: &KF,
    inline: bool,
    nodes: Map<u64, NodeM<Model<KF>, V>>,
    p: Level<Model<KF>>,
    s: Level<Model<KF>>,
    off: Seq<int>,
    j: int,
    c: int,
    q: u64,
    sep: Model<KF>,
)
    requires
        level_ok(kf, inline, nodes, p, true),
        parent_ok(nodes, p, s, off),
        0 <= j < p.len(),
        0 <= c < nodes[p[j].0].children().len(),
        above(kf, low(s, off[j] + c), sep),
        s[off[j] + c].1 matches Some(h) ==> kf.lt(sep, h),
        q != 0,
    ensures
        ({
            let n2 = with_child(nodes[p[j].0], c, sep, q);
            let nodes2 = nodes.insert(p[j].0, n2);
            &&& node_ok(kf, inline, n2)
            &&& n2.high() == p[j].1
            &&& keys_in(kf, n2.keys, low(p, j), p[j].1)
            &&& level_ok(kf, inline, nodes2, p, true)
            &&& parent_ok(nodes2, p, split_level(s, off[j] + c, q, sep), shift_off(off, j))
        }),
{
    let n = nodes[p[j].0];
    let n2 = with_child(n, c, sep, q);
    let i = off[j] + c;
    let s2 = split_level(s, i, q, sep);
    let off2 = shift_off(off, j);
    let nodes2 = nodes.insert(p[j].0, n2);
    assert(level_node(kf, inline, nodes, p, j, true));
    assert(parent_node(nodes, p, s, off, j));
    lemma_with_child(kf, inline, nodes, p, s, off, j, c, q, sep);
    lemma_level_update(kf, inline, nodes, p, true, j, n2);
    lemma_with_child_children(n, s, off[j], c, q, sep);
    assert forall|x: int| 0 <= x < p.len() implies #[trigger] parent_node(
        nodes2,
        p,
        s2,
        off2,
        x,
    ) by {
        assert(parent_node(nodes, p, s, off, x));
        if x != j {
            let m = nodes[p[x].0];
            if p[x].0 == p[j].0 {
                lemma_level_distinct(kf, inline, nodes, p, true, x, j);
            }
            lemma_off_order(nodes, p, s, off, x, j);
            assert(one_parent(m, s2, off2[x])) by {
                assert forall|y: int|
                    #![trigger m.children()[y]]
                    #![trigger m.keys[y]]
                    0 <= y < m.children().len() implies m.children()[y] == s2[off2[x] + y].0 && (y
                    < m.keys.len() ==> s2[off2[x] + y].1 == Some(m.keys[y])) by {
                    assert(m.children()[y] == s[off[x] + y].0);
                    if x < j {
                        assert(off[x] + y < i);
                    } else {
                        assert(off[x] + y > i);
                        assert(s2[off[x] + y + 1] == s[off[x] + y]);
                    }
                }
            }
        }
    }
}

/// The children of different directories do not overlap.
pub proof fn lemma_off_order<K, V>(
    nodes: Map<u64, NodeM<K, V>>,
    p: Level<K>,
    s: Level<K>,
    off: Seq<int>,
    x: int,
    y: int,
)
    requires
        parent_ok(nodes, p, s, off),
        0 <= x < p.len(),
        0 <= y < p.len(),
    ensures
        x < y ==> off[x + 1] <= off[y],
        y < x ==> off[y + 1] <= off[x],
    decreases
            if x < y {
                y - x
            } else {
                x - y
            },
{
    if x + 1 < y {
        assert(parent_node(nodes, p, s, off, y - 1));
        lemma_off_order(nodes, p, s, off, x, y - 1);
    } else if y + 1 < x {
        assert(parent_node(nodes, p, s, off, x - 1));
        lemma_off_order(nodes, p, s, off, x - 1, y);
    }
}

/// The starts of the children after directory `j` was split before its child `h`.
pub open spec fn split_off(off: Seq<int>, j: int, h: int) -> Seq<int> {
    off.insert(j + 1, off[j] + h)
}

/// Splitting a directory keeps the children.
#[verifier::spinoff_prover]
pub proof fn lemma_parent_split<KF: KeyFormat, V>(
    kf: &KF,
    inline: bool,
    nodes: Map<u64, NodeM<Model<KF>, V>>,
    p: Level<Model<KF>>,
    s: Level<Model<KF>>,
    off: Seq<int>,
    j: int,
    h: int,
    q: u64,
    a: NodeM<Model<KF>, V>,
    b: NodeM<Model<KF>, V>,
    sep: Model<KF>,
)
    requires
        level_ok(kf, inline, nodes, p, true),
        parent_ok(nodes, p, s, off),
        0 <= j < p.len(),
        0 < h < nodes[p[j].0].children().len(),
        forall|x: int| #![trigger p[x]] 0 <= x < p.len() ==> p[x].0 != q,
        a.body == (BodyM::<Model<KF>, V>::Dir { children: nodes[p[j].0].children().take(h) }),
        b.body == (BodyM::<Model<KF>, V>::Dir { children: nodes[p[j].0].children().skip(h) }),
        a.keys == nodes[p[j].0].keys.take(h),
        b.keys == nodes[p[j].0].keys.skip(h),
        h <= nodes[p[j].0].keys.len(),
    ensures
        parent_ok(
            nodes.insert(q, b).insert(p[j].0, a),
            split_level(p, j, q, sep),
            s,
            split_off(off, j, h),
        ),
{
    let n = nodes[p[j].0];
    let p2 = split_level(p, j, q, sep);
    let off2 = split_off(off, j, h);
    let nodes2 = nodes.insert(q, b).insert(p[j].0, a);
    assert(parent_node(nodes, p, s, off, j));
    assert(forall|x: int| 0 <= x < j ==> p2[x] == p[x]);
    assert(p2[j].0 == p[j].0);
    assert(p2[j + 1].0 == q);
    assert(forall|x: int| j + 1 < x < p2.len() ==> p2[x] == p[x - 1]);
    assert forall|x: int| 0 <= x < p2.len() implies #[trigger] parent_node(
        nodes2,
        p2,
        s,
        off2,
        x,
    ) by {
        if x < j {
            assert(parent_node(nodes, p, s, off, x));
            if p[x].0 == p[j].0 {
                lemma_level_distinct(kf, inline, nodes, p, true, x, j);
            }
        } else if x == j {
            assert(one_parent(a, s, off2[j])) by {
                assert forall|y: int|
                    #![trigger a.children()[y]]
                    #![trigger a.keys[y]]
                    0 <= y < a.children().len() implies a.children()[y] == s[off2[j] + y].0 && (y
                    < a.keys.len() ==> s[off2[j] + y].1 == Some(a.keys[y])) by {
                    assert(n.children()[y] == s[off[j] + y].0);
                }
            }
        } else if x == j + 1 {
            assert(p[j].0 != q);
            assert(one_parent(b, s, off2[x])) by {
                assert forall|y: int|
                    #![trigger b.children()[y]]
                    #![trigger b.keys[y]]
                    0 <= y < b.children().len() implies b.children()[y] == s[off2[x] + y].0 && (y
                    < b.keys.len() ==> s[off2[x] + y].1 == Some(b.keys[y])) by {
                    assert(n.children()[y + h] == s[off[j] + y + h].0);
                    if y < b.keys.len() {
                        assert(b.keys[y] == n.keys[y + h]);
                    }
                }
            }
        } else {
            let o = p[x - 1];
            assert(parent_node(nodes, p, s, off, x - 1));
            if p[x - 1].0 == p[j].0 {
                lemma_level_distinct(kf, inline, nodes, p, true, x - 1, j);
            }
        }
    }
}

} // verus!
