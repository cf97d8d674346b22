//! What a tree holds as a map, and how changes of its leaves change the map.

use vstd::prelude::*;
use crate::ser::{group_key_order, KeyFormat, Model, Serializer, LONG};
use crate::store::{item_at, Records};
use super::node::{enc_node, law_node_round_trip, node_fits, node_ok, BodyM, NodeM};
use super::tree::{
    covers, keys_in, lemma_covers_unique, lemma_level_distinct, lemma_level_frame,
    lemma_level_update, lemma_parent_frame, level_node, level_ok, levels_ok, low, node_at,
    nodes_of, parent_node, parent_ok, split_level, Level, Owner, Tree,
};

verus! {

/// The entries of each leaf, from left to right.
pub type Leaves<K, V> = Seq<Seq<(K, V)>>;

/// `m` is the map of exactly the entries in `e`.
pub open spec fn is_contents<K, V>(e: Leaves<K, V>, m: Map<K, V>) -> bool {
    &&& forall|i: int, p: int|
        #![trigger e[i][p]]
        0 <= i < e.len() && 0 <= p < e[i].len() ==> m.contains_key(e[i][p].0) && m[e[i][p].0]
            == e[i][p].1
    &&& forall|k: K| #[trigger] m.contains_key(k) ==> has_key(e, k)
}

pub open spec fn has_key<K, V>(e: Leaves<K, V>, k: K) -> bool {
    exists|i: int, p: int|
        #![trigger e[i][p]]
        0 <= i < e.len() && 0 <= p < e[i].len() && e[i][p].0 == k
}

/// No key occurs twice.
pub open spec fn distinct_keys<K, V>(e: Leaves<K, V>) -> bool {
    forall|i: int, p: int, j: int, q: int|
        #![trigger e[i][p], e[j][q]]
        0 <= i < e.len() && 0 <= p < e[i].len() && 0 <= j < e.len() && 0 <= q < e[j].len()
            && e[i][p].0 == e[j][q].0 ==> i == j && p == q
}

/// The map of the entries in `e`.
pub open spec fn contents_of<K, V>(e: Leaves<K, V>) -> Map<K, V> {
    Map::new(
        |k: K| has_key(e, k),
        |k: K|
            {
                let (i, p) = choose|i: int, p: int|
                    #![trigger e[i][p]]
                    0 <= i < e.len() && 0 <= p < e[i].len() && e[i][p].0 == k;
                e[i][p].1
            },
    )
}

pub proof fn lemma_contents_of<K, V>(e: Leaves<K, V>)
    requires
        distinct_keys(e),
    ensures
        is_contents(e, contents_of(e)),
{
    let m = contents_of(e);
    assert forall|i: int, p: int|
        #![trigger e[i][p]]
        0 <= i < e.len() && 0 <= p < e[i].len() implies m.contains_key(e[i][p].0) && m[e[i][p].0]
        == e[i][p].1 by {
        let k = e[i][p].0;
        assert(has_key(e, k));
        let (j, q) = choose|j: int, q: int|
            #![trigger e[j][q]]
            0 <= j < e.len() && 0 <= q < e[j].len() && e[j][q].0 == k;
        assert(i == j && p == q);
    }
}

pub proof fn lemma_contents_unique<K, V>(e: Leaves<K, V>, a: Map<K, V>, b: Map<K, V>)
    requires
        is_contents(e, a),
        is_contents(e, b),
    ensures
        a == b,
{
    assert forall|k: K| a.contains_key(k) implies b.contains_key(k) && a[k] == b[k] by {
        assert(has_key(e, k));
        let (i, p) = choose|i: int, p: int|
            #![trigger e[i][p]]
            0 <= i < e.len() && 0 <= p < e[i].len() && e[i][p].0 == k;
        assert(b.contains_key(e[i][p].0));
    }
    assert forall|k: K| b.contains_key(k) implies a.contains_key(k) by {
        assert(has_key(e, k));
        let (i, p) = choose|i: int, p: int|
            #![trigger e[i][p]]
            0 <= i < e.len() && 0 <= p < e[i].len() && e[i][p].0 == k;
        assert(a.contains_key(e[i][p].0));
    }
    assert(a =~= b);
}

/// Inserting an entry with a new key.
pub proof fn lemma_contents_insert<K, V>(
    e: Leaves<K, V>,
    m: Map<K, V>,
    i: int,
    p: int,
    k: K,
    v: V,
)
    requires
        is_contents(e, m),
        0 <= i < e.len(),
        0 <= p <= e[i].len(),
        !m.contains_key(k),
    ensures
        is_contents(e.update(i, e[i].insert(p, (k, v))), m.insert(k, v)),
{
    let leaf = e[i].insert(p, (k, v));
    let e2 = e.update(i, leaf);
    let m2 = m.insert(k, v);
    assert forall|x: int, y: int|
        #![trigger e2[x][y]]
        0 <= x < e2.len() && 0 <= y < e2[x].len() implies m2.contains_key(e2[x][y].0)
        && m2[e2[x][y].0] == e2[x][y].1 by {
        if x == i {
            if y < p {
                assert(leaf[y] == e[i][y]);
            } else if y > p {
                assert(leaf[y] == e[i][y - 1]);
            }
        } else {
            assert(e2[x][y] == e[x][y]);
        }
    }
    assert forall|j: K| #[trigger] m2.contains_key(j) implies has_key(e2, j) by {
        if j == k {
            assert(e2[i][p] == (k, v));
        } else {
            assert(m.contains_key(j));
            let (x, y) = choose|x: int, y: int|
                #![trigger e[x][y]]
                0 <= x < e.len() && 0 <= y < e[x].len() && e[x][y].0 == j;
            if x == i {
                if y < p {
                    assert(e2[i][y] == e[i][y]);
                } else {
                    assert(e2[i][y + 1] == e[i][y]);
                }
            } else {
                assert(e2[x][y] == e[x][y]);
            }
        }
    }
}

/// Giving an entry another value.
pub proof fn lemma_contents_set<K, V>(e: Leaves<K, V>, m: Map<K, V>, i: int, p: int, v: V)
    requires
        is_contents(e, m),
        distinct_keys(e),
        0 <= i < e.len(),
        0 <= p < e[i].len(),
    ensures
        is_contents(e.update(i, e[i].update(p, (e[i][p].0, v))), m.insert(e[i][p].0, v)),
{
    let k = e[i][p].0;
    let leaf = e[i].update(p, (k, v));
    let e2 = e.update(i, leaf);
    let m2 = m.insert(k, v);
    assert forall|x: int, y: int|
        #![trigger e2[x][y]]
        0 <= x < e2.len() && 0 <= y < e2[x].len() implies m2.contains_key(e2[x][y].0)
        && m2[e2[x][y].0] == e2[x][y].1 by {
        let old = e[x][y];
        if x == i && y == p {
        } else {
            assert(e2[x][y] == e[x][y]);
            assert(e[x][y].0 != e[i][p].0);
        }
    }
    assert forall|j: K| #[trigger] m2.contains_key(j) implies has_key(e2, j) by {
        if j == k {
            assert(e2[i][p] == (k, v));
        } else {
            assert(m.contains_key(j));
            let (x, y) = choose|x: int, y: int|
                #![trigger e[x][y]]
                0 <= x < e.len() && 0 <= y < e[x].len() && e[x][y].0 == j;
            assert(e2[x][y] == e[x][y]);
        }
    }
}

/// Removing an entry.
pub proof fn lemma_contents_remove<K, V>(e: Leaves<K, V>, m: Map<K, V>, i: int, p: int)
    requires
        is_contents(e, m),
        distinct_keys(e),
        0 <= i < e.len(),
        0 <= p < e[i].len(),
    ensures
        is_contents(e.update(i, e[i].remove(p)), m.remove(e[i][p].0)),
{
    let k = e[i][p].0;
    let leaf = e[i].remove(p);
    let e2 = e.update(i, leaf);
    let m2 = m.remove(k);
    assert forall|x: int, y: int|
        #![trigger e2[x][y]]
        0 <= x < e2.len() && 0 <= y < e2[x].len() implies m2.contains_key(e2[x][y].0)
        && m2[e2[x][y].0] == e2[x][y].1 by {
        let oy = if x == i && y >= p {
            y + 1
        } else {
            y
        };
        assert(e2[x][y] == e[x][oy]);
        assert(e[x][oy].0 != e[i][p].0);
    }
    assert forall|j: K| #[trigger] m2.contains_key(j) implies has_key(e2, j) by {
        assert(m.contains_key(j));
        let (x, y) = choose|x: int, y: int|
            #![trigger e[x][y]]
            0 <= x < e.len() && 0 <= y < e[x].len() && e[x][y].0 == j;
        let ny = if x == i && y > p {
            y - 1
        } else {
            y
        };
        assert(e2[x][ny] == e[x][y]);
    }
}

/// Splitting a leaf changes nothing.
pub proof fn lemma_contents_split<K, V>(e: Leaves<K, V>, m: Map<K, V>, i: int, h: int)
    requires
        is_contents(e, m),
        0 <= i < e.len(),
        0 <= h <= e[i].len(),
    ensures
        is_contents(e.update(i, e[i].take(h)).insert(i + 1, e[i].skip(h)), m),
{
    let e2 = e.update(i, e[i].take(h)).insert(i + 1, e[i].skip(h));
    assert forall|x: int, y: int|
        #![trigger e2[x][y]]
        0 <= x < e2.len() && 0 <= y < e2[x].len() implies m.contains_key(e2[x][y].0)
        && m[e2[x][y].0] == e2[x][y].1 by {
        if x < i {
            assert(e2[x][y] == e[x][y]);
        } else if x == i {
            assert(e2[x][y] == e[i][y]);
        } else if x == i + 1 {
            assert(e2[x][y] == e[i][y + h]);
        } else {
            assert(e2[x][y] == e[x - 1][y]);
        }
    }
    assert forall|j: K| #[trigger] m.contains_key(j) implies has_key(e2, j) by {
        let (x, y) = choose|x: int, y: int|
            #![trigger e[x][y]]
            0 <= x < e.len() && 0 <= y < e[x].len() && e[x][y].0 == j;
        if x < i {
            assert(e2[x][y] == e[x][y]);
        } else if x > i {
            assert(e2[x + 1][y] == e[x][y]);
        } else if y < h {
            assert(e2[i][y] == e[i][y]);
        } else {
            assert(e2[i + 1][y - h] == e[i][y]);
        }
    }
}

/// `r` lists `m` in ascending key order.
pub open spec fn lists<KF: KeyFormat, V>(
    kf: &KF,
    r: Seq<(Model<KF>, V)>,
    m: Map<Model<KF>, V>,
) -> bool {
    &&& forall|i: int, j: int|
        #![trigger r[i], r[j]]
        0 <= i < j < r.len() ==> kf.lt(r[i].0, r[j].0)
    &&& forall|i: int|
        #![trigger r[i]]
        0 <= i < r.len() ==> m.contains_key(r[i].0) && m[r[i].0] == r[i].1
    &&& forall|k: Model<KF>| #[trigger]
        m.contains_key(k) ==> exists|i: int| 0 <= i < r.len() && (#[trigger] r[i]).0 == k
}

// ---------------------------------------------------------------- trees

/// The value at place `p` of a leaf.
pub open spec fn leaf_value<K, VF: Serializer>(
    vf: &VF,
    records: Records,
    n: NodeM<K, Model<VF>>,
    p: int,
) -> Model<VF> {
    match n.body {
        BodyM::Leaf { values, .. } => values[p],
        BodyM::ExternalLeaf { recids, .. } => item_at(
            vf,
            records,
            recids[p] as u64,
        ).unwrap().unwrap(),
        BodyM::Dir { .. } => arbitrary(),
    }
}

pub open spec fn leaf_entries<K, VF: Serializer>(
    vf: &VF,
    records: Records,
    n: NodeM<K, Model<VF>>,
) -> Seq<(K, Model<VF>)> {
    Seq::new(n.keys.len(), |p: int| (n.keys[p], leaf_value(vf, records, n, p)))
}

/// The entries of the leaves of a level.
pub open spec fn level_entries<K, VF: Serializer>(
    vf: &VF,
    records: Records,
    nodes: Map<u64, NodeM<K, Model<VF>>>,
    l: Level<K>,
) -> Leaves<K, Model<VF>> {
    Seq::new(l.len(), |i: int| leaf_entries(vf, records, nodes[l[i].0]))
}

/// The value record at place `p` of a leaf is the map's own and holds a value.
pub open spec fn value_record_ok<K, VF: Serializer>(
    vf: &VF,
    records: Records,
    owner: Map<u64, Owner<K>>,
    n: NodeM<K, Model<VF>>,
    p: int,
) -> bool {
    n.body matches BodyM::ExternalLeaf { recids, .. } ==> {
        &&& owner.contains_key(recids[p] as u64)
        &&& owner[recids[p] as u64] == Owner::Value(n.keys[p])
        &&& item_at(vf, records, recids[p] as u64) matches Some(Some(v))
    }
}

pub open spec fn values_ok<K, VF: Serializer>(
    vf: &VF,
    records: Records,
    nodes: Map<u64, NodeM<K, Model<VF>>>,
    l: Level<K>,
    owner: Map<u64, Owner<K>>,
) -> bool {
    forall|i: int, p: int|
        0 <= i < l.len() && 0 <= p < nodes[l[i].0].keys.len() ==> #[trigger] value_record_ok(
            vf,
            records,
            owner,
            nodes[l[i].0],
            p,
        )
}

/// Every node belongs to its level.
pub open spec fn owners_ok<K>(t: Tree<K>) -> bool {
    forall|l: int, i: int|
        #![trigger t.levels[l][i]]
        0 <= l < t.levels.len() && 0 <= i < t.levels[l].len() ==> t.owner.contains_key(
            t.levels[l][i].0,
        ) && t.owner[t.levels[l][i].0] == Owner::<K>::Level(l as nat)
}

/// The recid of the root.
pub open spec fn root_of<K>(t: Tree<K>) -> u64 {
    t.levels.last()[0].0
}

/// The records hold this tree, its root pointer and, where there is one, its size
/// counter.
pub open spec fn tree_ok<KF: KeyFormat, VF: Serializer>(
    kf: &KF,
    vf: &VF,
    inline: bool,
    records: Records,
    root_recid_recid: u64,
    counter_recid: u64,
    t: Tree<Model<KF>>,
) -> bool {
    let nodes = nodes_of(kf, vf, inline, records);
    let m = tree_map(kf, vf, inline, records, t);
    &&& levels_ok(kf, inline, nodes, t)
    &&& owners_ok(t)
    &&& forall|r: u64| #[trigger] t.owner.contains_key(r) ==> r != 0 && records.contains_key(r)
    &&& values_ok(vf, records, nodes, t.levels[0], t.owner)
    &&& t.owner.contains_key(root_recid_recid)
    &&& t.owner[root_recid_recid] == Owner::<Model<KF>>::RootPointer
    &&& root_of(t) <= i64::MAX
    &&& item_at(&LONG, records, root_recid_recid) == Some(Some(root_of(t) as i64))
    &&& m.dom().finite()
    &&& counter_recid != 0 ==> {
        &&& t.owner.contains_key(counter_recid)
        &&& t.owner[counter_recid] == Owner::<Model<KF>>::Counter
        &&& m.len() <= i64::MAX
        &&& item_at(&LONG, records, counter_recid) == Some(Some(m.len() as i64))
    }
}

/// The map that a tree holds.
pub open spec fn tree_map<KF: KeyFormat, VF: Serializer>(
    kf: &KF,
    vf: &VF,
    inline: bool,
    records: Records,
    t: Tree<Model<KF>>,
) -> Map<Model<KF>, Model<VF>> {
    contents_of(
        level_entries(vf, records, nodes_of(kf, vf, inline, records), t.levels[0]),
    )
}

/// Keys of a leaf belong to it.
pub proof fn lemma_leaf_key_covers<KF: KeyFormat, V>(
    kf: &KF,
    inline: bool,
    nodes: Map<u64, NodeM<Model<KF>, V>>,
    l: Level<Model<KF>>,
    i: int,
    p: int,
)
    requires
        level_ok(kf, inline, nodes, l, false),
        0 <= i < l.len(),
        0 <= p < nodes[l[i].0].keys.len(),
    ensures
        covers(kf, l, i, nodes[l[i].0].keys[p]),
{
    assert(level_node(kf, inline, nodes, l, i, false));
}

/// No key occurs in two places of a level.
pub proof fn lemma_level_distinct_keys<KF: KeyFormat, VF: Serializer>(
    kf: &KF,
    vf: &VF,
    inline: bool,
    records: Records,
    nodes: Map<u64, NodeM<Model<KF>, Model<VF>>>,
    l: Level<Model<KF>>,
)
    requires
        level_ok(kf, inline, nodes, l, false),
    ensures
        distinct_keys(level_entries(vf, records, nodes, l)),
{
    broadcast use group_key_order;

    let e = level_entries(vf, records, nodes, l);
    assert forall|i: int, p: int, j: int, q: int|
        #![trigger e[i][p], e[j][q]]
        0 <= i < e.len() && 0 <= p < e[i].len() && 0 <= j < e.len() && 0 <= q < e[j].len()
            && e[i][p].0 == e[j][q].0 implies i == j && p == q by {
        let k = e[i][p].0;
        lemma_leaf_key_covers(kf, inline, nodes, l, i, p);
        lemma_leaf_key_covers(kf, inline, nodes, l, j, q);
        lemma_covers_unique(kf, l, i, j, k);
        assert(level_node(kf, inline, nodes, l, i, false));
        let keys = nodes[l[i].0].keys;
        if p < q {
            assert(kf.lt(keys[p], keys[q]));
        } else if q < p {
            assert(kf.lt(keys[q], keys[p]));
        }
    }
}

/// Looking a key up in the leaf where it belongs answers for the whole map.
pub proof fn lemma_lookup<KF: KeyFormat, VF: Serializer>(
    kf: &KF,
    vf: &VF,
    inline: bool,
    records: Records,
    nodes: Map<u64, NodeM<Model<KF>, Model<VF>>>,
    l: Level<Model<KF>>,
    i: int,
    k: Model<KF>,
)
    requires
        level_ok(kf, inline, nodes, l, false),
        covers(kf, l, i, k),
    ensures
        ({
            let m = contents_of(level_entries(vf, records, nodes, l));
            let n = nodes[l[i].0];
            &&& forall|p: int|
                0 <= p < n.keys.len() && #[trigger] n.keys[p] == k ==> m.contains_key(k) && m[k]
                    == leaf_value(vf, records, n, p)
            &&& (forall|p: int| 0 <= p < n.keys.len() ==> #[trigger] n.keys[p] != k)
                ==> !m.contains_key(k)
        }),
{
    let e = level_entries(vf, records, nodes, l);
    let m = contents_of(e);
    let n = nodes[l[i].0];
    lemma_level_distinct_keys(kf, vf, inline, records, nodes, l);
    lemma_contents_of(e);
    assert forall|p: int| 0 <= p < n.keys.len() && #[trigger] n.keys[p] == k
        implies m.contains_key(k)
        && m[k] == leaf_value(vf, records, n, p) by {
        assert(e[i][p] == (n.keys[p], leaf_value(vf, records, n, p)));
    }
    if m.contains_key(k) {
        let (j, q) = choose|j: int, q: int|
            #![trigger e[j][q]]
            0 <= j < e.len() && 0 <= q < e[j].len() && e[j][q].0 == k;
        lemma_leaf_key_covers(kf, inline, nodes, l, j, q);
        lemma_covers_unique(kf, l, i, j, k);
        assert(n.keys[q] == k);
    }
}

// ---------------------------------------------------------------- records

/// Writing a node changes that node and no other.
pub proof fn lemma_nodes_write<KF: KeyFormat, VF: Serializer>(
    kf: &KF,
    vf: &VF,
    inline: bool,
    records: Records,
    recid: u64,
    n: NodeM<Model<KF>, Model<VF>>,
)
    requires
        recid != 0,
        node_ok(kf, inline, n),
        node_fits(kf, vf, n),
    ensures
        nodes_of(kf, vf, inline, records.insert(recid, Some(enc_node(kf, vf, n)))) == nodes_of(
            kf,
            vf,
            inline,
            records,
        ).insert(recid, n),
        node_at(kf, vf, inline, records.insert(recid, Some(enc_node(kf, vf, n))), recid) == Some(n),
{
    let b = enc_node(kf, vf, n);
    law_node_round_trip(kf, vf, inline, n, Seq::empty());
    assert(b + Seq::<u8>::empty() =~= b);
    let r2 = records.insert(recid, Some(b));
    let a = nodes_of(kf, vf, inline, r2);
    let c = nodes_of(kf, vf, inline, records).insert(recid, n);
    assert forall|x: u64| a.contains_key(x) == c.contains_key(x) && (a.contains_key(x) ==> a[x]
        == c[x]) by {
        if x != recid {
            assert(node_at(kf, vf, inline, r2, x) == node_at(kf, vf, inline, records, x));
        } else {
            assert(node_at(kf, vf, inline, r2, x) == Some(n));
        }
    }
    assert(a =~= c);
}

/// Nodes whose records are the same are the same.
pub proof fn lemma_nodes_same<KF: KeyFormat, VF: Serializer>(
    kf: &KF,
    vf: &VF,
    inline: bool,
    a: Records,
    b: Records,
    recid: u64,
)
    requires
        a.contains_key(recid) == b.contains_key(recid),
        a.contains_key(recid) ==> a[recid] == b[recid],
    ensures
        nodes_of(kf, vf, inline, a).contains_key(recid) == nodes_of(
            kf,
            vf,
            inline,
            b,
        ).contains_key(recid),
        nodes_of(kf, vf, inline, a).contains_key(recid) ==> nodes_of(kf, vf, inline, a)[recid]
            == nodes_of(kf, vf, inline, b)[recid],
{
    assert(node_at(kf, vf, inline, a, recid) == node_at(kf, vf, inline, b, recid));
}

/// Record `r` is the same in both.
pub open spec fn agree(a: Records, b: Records, r: u64) -> bool {
    &&& a.contains_key(r) == b.contains_key(r)
    &&& a.contains_key(r) ==> a[r] == b[r]
}

/// The nodes of a level and their value records are the same in both.
pub open spec fn level_agrees<KF: KeyFormat, VF: Serializer>(
    kf: &KF,
    vf: &VF,
    inline: bool,
    a: Records,
    b: Records,
    l: Level<Model<KF>>,
) -> bool {
    &&& forall|i: int| #![trigger l[i]] 0 <= i < l.len() ==> agree(a, b, l[i].0)
    &&& forall|i: int, p: int|
        0 <= i < l.len() && 0 <= p < nodes_of(kf, vf, inline, a)[l[i].0].keys.len()
            ==> #[trigger] value_agrees(a, b, nodes_of(kf, vf, inline, a)[l[i].0], p)
}

pub open spec fn value_agrees<K, V>(a: Records, b: Records, n: NodeM<K, V>, p: int) -> bool {
    n.body matches BodyM::ExternalLeaf { recids, .. } ==> agree(a, b, recids[p] as u64)
}

/// Unchanged records hold unchanged entries.
pub proof fn lemma_entries_same<KF: KeyFormat, VF: Serializer>(
    kf: &KF,
    vf: &VF,
    inline: bool,
    a: Records,
    b: Records,
    l: Level<Model<KF>>,
    owner: Map<u64, Owner<Model<KF>>>,
    owner2: Map<u64, Owner<Model<KF>>>,
)
    requires
        level_ok(kf, inline, nodes_of(kf, vf, inline, a), l, false),
        level_agrees(kf, vf, inline, a, b, l),
        values_ok(vf, a, nodes_of(kf, vf, inline, a), l, owner),
        forall|r: u64|
            owner.contains_key(r) && owner[r] is Value ==> #[trigger] owner2.contains_key(r)
                && owner2[r] == owner[r],
    ensures
        level_ok(kf, inline, nodes_of(kf, vf, inline, b), l, false),
        values_ok(vf, b, nodes_of(kf, vf, inline, b), l, owner2),
        level_entries(vf, b, nodes_of(kf, vf, inline, b), l) == level_entries(
            vf,
            a,
            nodes_of(kf, vf, inline, a),
            l,
        ),
{
    let na = nodes_of(kf, vf, inline, a);
    let nb = nodes_of(kf, vf, inline, b);
    assert forall|i: int| #![trigger l[i]] 0 <= i < l.len() implies nb.contains_key(l[i].0)
        && nb[l[i].0] == na[l[i].0] by {
        assert(level_node(kf, inline, na, l, i, false));
        lemma_nodes_same(kf, vf, inline, a, b, l[i].0);
    }
    lemma_level_frame(kf, inline, na, nb, l, false);
    let ea = level_entries(vf, a, na, l);
    let eb = level_entries(vf, b, nb, l);
    assert forall|i: int, p: int|
        0 <= i < l.len() && 0 <= p < nb[l[i].0].keys.len() implies #[trigger] value_record_ok(
        vf,
        b,
        owner2,
        nb[l[i].0],
        p,
    ) && leaf_value(vf, b, nb[l[i].0], p) == leaf_value(vf, a, na[l[i].0], p) by {
        let n = na[l[i].0];
        assert(value_record_ok(vf, a, owner, na[l[i].0], p));
        assert(value_agrees(a, b, na[l[i].0], p));
        if let BodyM::ExternalLeaf { recids, .. } = n.body {
            let r = recids[p] as u64;
            assert(owner.contains_key(r) && owner[r] is Value);
            assert(owner2.contains_key(r));
            assert(agree(a, b, r));
            assert(item_at(vf, a, r) == item_at(vf, b, r));
        }
    }
    assert forall|i: int| 0 <= i < l.len() implies ea[i] == eb[i] by {
        assert forall|p: int| 0 <= p < ea[i].len() implies ea[i][p] == eb[i][p] by {
            assert(value_record_ok(vf, b, owner2, nb[l[i].0], p));
        }
        assert(ea[i] =~= eb[i]);
    }
    assert(ea =~= eb);
}

/// The tree does not depend on records that are not its own, nor on its counter.
pub proof fn lemma_tree_frame<KF: KeyFormat, VF: Serializer>(
    kf: &KF,
    vf: &VF,
    inline: bool,
    a: Records,
    b: Records,
    root_recid_recid: u64,
    t: Tree<Model<KF>>,
)
    requires
        tree_ok(kf, vf, inline, a, root_recid_recid, 0, t),
        forall|r: u64|
            #![trigger t.owner.contains_key(r)]
            t.owner.contains_key(r) ==> b.contains_key(r) && (!(t.owner[r] is Counter) ==> agree(
                a,
                b,
                r,
            )),
    ensures
        tree_ok(kf, vf, inline, b, root_recid_recid, 0, t),
        tree_map(kf, vf, inline, b, t) == tree_map(kf, vf, inline, a, t),
{
    let na = nodes_of(kf, vf, inline, a);
    let nb = nodes_of(kf, vf, inline, b);
    assert forall|l: int, x: int|
        #![trigger t.levels[l][x]]
        0 <= l < t.levels.len() && 0 <= x < t.levels[l].len() implies nb.contains_key(
        t.levels[l][x].0,
    ) && nb[t.levels[l][x].0] == na[t.levels[l][x].0] by {
        let r = t.levels[l][x].0;
        assert(level_ok(kf, inline, na, t.levels[l], l > 0));
        assert(level_node(kf, inline, na, t.levels[l], x, l > 0));
        assert(t.owner.contains_key(r));
        lemma_nodes_same(kf, vf, inline, a, b, r);
    }
    assert forall|l: int| #![trigger t.levels[l]] 0 <= l < t.levels.len() implies level_ok(
        kf,
        inline,
        nb,
        t.levels[l],
        l > 0,
    ) by {
        let lv = t.levels[l];
        assert forall|x: int| #![trigger lv[x]] 0 <= x < lv.len() implies nb.contains_key(lv[x].0)
            && nb[lv[x].0] == na[lv[x].0] by {
            let e = t.levels[l][x];
        }
        lemma_level_frame(kf, inline, na, nb, lv, l > 0);
    }
    assert forall|l: int| #![trigger t.offs[l]] 0 <= l < t.offs.len() implies parent_ok(
        nb,
        t.levels[l + 1],
        t.levels[l],
        t.offs[l],
    ) by {
        let p = t.levels[l + 1];
        assert(parent_ok(na, p, t.levels[l], t.offs[l]));
        assert forall|x: int| #![trigger p[x]] 0 <= x < p.len()
            implies nb[p[x].0] == na[p[x].0] by {
            let e = t.levels[l + 1][x];
        }
        lemma_parent_frame(na, nb, p, t.levels[l], t.offs[l]);
    }
    let leaves = t.levels[0];
    assert(level_agrees(kf, vf, inline, a, b, leaves)) by {
        assert forall|i: int| #![trigger leaves[i]] 0 <= i < leaves.len() implies agree(
            a,
            b,
            leaves[i].0,
        ) by {
            let e = t.levels[0][i];
            assert(t.owner.contains_key(e.0));
        }
        assert forall|i: int, p: int|
            0 <= i < leaves.len() && 0 <= p < na[leaves[i].0].keys.len()
                implies #[trigger] value_agrees(
            a,
            b,
            na[leaves[i].0],
            p,
        ) by {
            assert(value_record_ok(vf, a, t.owner, na[leaves[i].0], p));
        }
    }
    lemma_entries_same(kf, vf, inline, a, b, leaves, t.owner, t.owner);
    assert(t.owner.contains_key(root_recid_recid));
    assert(agree(a, b, root_recid_recid));
}

/// Leaf `i` is now `n2` and the other leaves are as they were.
pub open spec fn leaf_replaced<KF: KeyFormat, VF: Serializer>(
    kf: &KF,
    vf: &VF,
    inline: bool,
    a: Records,
    b: Records,
    l: Level<Model<KF>>,
    i: int,
    n2: NodeM<Model<KF>, Model<VF>>,
) -> bool {
    forall|x: int|
        #![trigger l[x]]
        0 <= x < l.len() ==> nodes_of(kf, vf, inline, b)[l[x].0] == if x == i {
            n2
        } else {
            nodes_of(kf, vf, inline, a)[l[x].0]
        }
}

/// No leaf has as many keys as the header can count: one more always fits.
pub open spec fn slack<K, V>(nodes: Map<u64, NodeM<K, V>>, l: Level<K>) -> bool {
    forall|i: int|
        #![trigger l[i]]
        0 <= i < l.len() ==> nodes[l[i].0].keys.len() < 0x0fff_ffff
}

/// No node of the levels has more than `n` keys.
pub open spec fn sized<K, V>(nodes: Map<u64, NodeM<K, V>>, levels: Seq<Level<K>>, n: nat) -> bool {
    forall|l: int, i: int|
        #![trigger levels[l][i]]
        0 <= l < levels.len() && 0 <= i < levels[l].len() ==> nodes[levels[l][i].0].keys.len() <= n
}

/// A node that is split in two of that size leaves every node of that size.
pub proof fn lemma_sized_split<K, V>(
    nodes: Map<u64, NodeM<K, V>>,
    levels: Seq<Level<K>>,
    n: nat,
    level: int,
    j: int,
    q: u64,
    sep: K,
    left: NodeM<K, V>,
    right: NodeM<K, V>,
)
    requires
        sized(nodes, levels, n),
        0 <= level < levels.len(),
        0 <= j < levels[level].len(),
        left.keys.len() <= n,
        right.keys.len() <= n,
    ensures
        sized(
            nodes.insert(q, right).insert(levels[level][j].0, left),
            levels.update(level, split_level(levels[level], j, q, sep)),
            n,
        ),
{
    let nodes2 = nodes.insert(q, right).insert(levels[level][j].0, left);
    let levels2 = levels.update(level, split_level(levels[level], j, q, sep));
    assert forall|l: int, i: int|
        #![trigger levels2[l][i]]
        0 <= l < levels2.len() && 0 <= i < levels2[l].len() implies nodes2[levels2[l][i].0].keys.len()
        <= n by {
        if l != level {
            let e = levels[l][i];
        } else if i <= j {
            let e = levels[l][i];
        } else if i > j + 1 {
            let e = levels[l][i - 1];
        }
    }
}

/// Changing one leaf changes its entries only.
pub proof fn lemma_leaf_changed<KF: KeyFormat, VF: Serializer>(
    kf: &KF,
    vf: &VF,
    inline: bool,
    a: Records,
    b: Records,
    t: Tree<Model<KF>>,
    owner2: Map<u64, Owner<Model<KF>>>,
    i: int,
    n2: NodeM<Model<KF>, Model<VF>>,
    k: Model<KF>,
)
    requires
        levels_ok(kf, inline, nodes_of(kf, vf, inline, a), t),
        owners_ok(t),
        values_ok(vf, a, nodes_of(kf, vf, inline, a), t.levels[0], t.owner),
        0 <= i < t.levels[0].len(),
        node_at(kf, vf, inline, b, t.levels[0][i].0) == Some(n2),
        node_ok(kf, inline, n2),
        n2.flags == nodes_of(kf, vf, inline, a)[t.levels[0][i].0].flags,
        n2.link == nodes_of(kf, vf, inline, a)[t.levels[0][i].0].link,
        n2.high() == t.levels[0][i].1,
        keys_in(kf, n2.keys, low(t.levels[0], i), t.levels[0][i].1),
        covers(kf, t.levels[0], i, k),
        // only the leaf and the value record of `k` change
        forall|r: u64|
            #![trigger t.owner.contains_key(r)]
            t.owner.contains_key(r) && r != t.levels[0][i].0 && (t.owner[r] is Level || (t.owner[r]
                matches Owner::Value(x) && x != k)) ==> agree(a, b, r) && owner2.contains_key(r)
                && owner2[r] == t.owner[r],
        owner2.contains_key(t.levels[0][i].0),
        owner2[t.levels[0][i].0] == t.owner[t.levels[0][i].0],
        forall|p: int|
            0 <= p < n2.keys.len() ==> #[trigger] value_record_ok(vf, b, owner2, n2, p),
    ensures
        levels_ok(
            kf,
            inline,
            nodes_of(kf, vf, inline, b),
            (Tree { levels: t.levels, offs: t.offs, owner: owner2 }),
        ),
        owners_ok((Tree { levels: t.levels, offs: t.offs, owner: owner2 })),
        values_ok(vf, b, nodes_of(kf, vf, inline, b), t.levels[0], owner2),
        level_entries(vf, b, nodes_of(kf, vf, inline, b), t.levels[0]) == level_entries(
            vf,
            a,
            nodes_of(kf, vf, inline, a),
            t.levels[0],
        ).update(i, leaf_entries(vf, b, n2)),
        leaf_replaced(kf, vf, inline, a, b, t.levels[0], i, n2),
{
    let na = nodes_of(kf, vf, inline, a);
    let nb = nodes_of(kf, vf, inline, b);
    let t2 = Tree { levels: t.levels, offs: t.offs, owner: owner2 };
    let leaves = t.levels[0];
    let id = leaves[i].0;
    let nm = na.insert(id, n2);
    assert(level_ok(kf, inline, na, t.levels[0], false));
    assert(t.owner[t.levels[0][i].0] == Owner::<Model<KF>>::Level(0));
    // every node but the leaf is unchanged
    assert forall|l: int, x: int|
        #![trigger t.levels[l][x]]
        0 <= l < t.levels.len() && 0 <= x < t.levels[l].len() implies nb.contains_key(
        t.levels[l][x].0,
    ) && nb[t.levels[l][x].0] == nm[t.levels[l][x].0] && owner2.contains_key(t.levels[l][x].0)
        && owner2[t.levels[l][x].0] == Owner::<Model<KF>>::Level(l as nat) by {
        let r = t.levels[l][x].0;
        assert(level_ok(kf, inline, na, t.levels[l], l > 0));
        assert(level_node(kf, inline, na, t.levels[l], x, l > 0));
        assert(t.owner.contains_key(r));
        if r != id {
            lemma_nodes_same(kf, vf, inline, a, b, r);
        }
    }
    lemma_level_update(kf, inline, na, leaves, false, i, n2);
    assert forall|l: int| #![trigger t.levels[l]] 0 <= l < t.levels.len() implies level_ok(
        kf,
        inline,
        nb,
        t.levels[l],
        l > 0,
    ) by {
        let lv = t.levels[l];
        if l > 0 {
            assert forall|x: int| #![trigger lv[x]] 0 <= x < lv.len()
                implies nb.contains_key(lv[x].0)
                && nb[lv[x].0] == na[lv[x].0] by {
                let e = t.levels[l][x];
                if e.0 == id {
                    assert(t.owner[t.levels[l][x].0] == Owner::<Model<KF>>::Level(l as nat));
                }
            }
            lemma_level_frame(kf, inline, na, nb, lv, true);
        } else {
            assert forall|x: int| #![trigger lv[x]] 0 <= x < lv.len()
                implies nb.contains_key(lv[x].0)
                && nb[lv[x].0] == nm[lv[x].0] by {
                let e = t.levels[l][x];
            }
            lemma_level_frame(kf, inline, nm, nb, lv, false);
        }
    }
    assert forall|l: int| #![trigger t.offs[l]] 0 <= l < t.offs.len() implies parent_ok(
        nb,
        t.levels[l + 1],
        t.levels[l],
        t.offs[l],
    ) by {
        let p = t.levels[l + 1];
        assert(parent_ok(na, p, t.levels[l], t.offs[l]));
        assert forall|x: int| #![trigger p[x]] 0 <= x < p.len()
            implies nb[p[x].0] == na[p[x].0] by {
            let e = t.levels[l + 1][x];
            if e.0 == id {
                assert(t.owner[t.levels[l + 1][x].0] == Owner::<Model<KF>>::Level((l + 1) as nat));
            }
        }
        lemma_parent_frame(na, nb, p, t.levels[l], t.offs[l]);
    }
    assert forall|x: int| #![trigger leaves[x]] 0 <= x < leaves.len()
        implies nb[leaves[x].0] == (if x
        == i {
        n2
    } else {
        na[leaves[x].0]
    }) by {
        let e = t.levels[0][x];
        if leaves[x].0 == id {
            lemma_level_distinct(kf, inline, na, leaves, false, x, i);
        }
    }
    // the entries
    let ea = level_entries(vf, a, na, leaves);
    let eb = level_entries(vf, b, nb, leaves);
    assert forall|x: int, p: int|
        0 <= x < leaves.len() && 0 <= p < nb[leaves[x].0].keys.len()
            implies #[trigger] value_record_ok(
        vf,
        b,
        owner2,
        nb[leaves[x].0],
        p,
    ) && (x != i ==> leaf_value(vf, b, nb[leaves[x].0], p) == leaf_value(
        vf,
        a,
        na[leaves[x].0],
        p,
    )) by {
        let e = t.levels[0][x];
        if x == i {
            assert(nb[leaves[x].0] == n2);
        } else {
            if leaves[x].0 == id {
                lemma_level_distinct(kf, inline, na, leaves, false, x, i);
            }
            let n = na[leaves[x].0];
            assert(nb[leaves[x].0] == n);
            assert(value_record_ok(vf, a, t.owner, na[leaves[x].0], p));
            if let BodyM::ExternalLeaf { recids, .. } = n.body {
                let r = recids[p] as u64;
                assert(t.owner.contains_key(r));
                lemma_leaf_key_covers(kf, inline, na, leaves, x, p);
                if n.keys[p] == k {
                    lemma_covers_unique(kf, leaves, x, i, k);
                }
                assert(agree(a, b, r));
                assert(item_at(vf, a, r) == item_at(vf, b, r));
            }
        }
    }
    assert forall|x: int| 0 <= x < leaves.len() implies eb[x] == ea.update(
        i,
        leaf_entries(vf, b, n2),
    )[x] by {
        let e = t.levels[0][x];
        if x == i {
        } else {
            if leaves[x].0 == id {
                lemma_level_distinct(kf, inline, na, leaves, false, x, i);
            }
            assert forall|p: int| 0 <= p < ea[x].len() implies ea[x][p] == eb[x][p] by {
                assert(value_record_ok(vf, b, owner2, nb[leaves[x].0], p));
            }
            assert(ea[x] =~= eb[x]);
        }
    }
    assert(eb =~= ea.update(i, leaf_entries(vf, b, n2)));
}

// ---------------------------------------------------------------- one tree

/// The records of a tree determine its levels.
pub proof fn lemma_tree_unique<KF: KeyFormat, VF: Serializer>(
    kf: &KF,
    vf: &VF,
    inline: bool,
    records: Records,
    root_recid_recid: u64,
    c1: u64,
    c2: u64,
    t1: Tree<Model<KF>>,
    t2: Tree<Model<KF>>,
)
    requires
        tree_ok(kf, vf, inline, records, root_recid_recid, c1, t1),
        tree_ok(kf, vf, inline, records, root_recid_recid, c2, t2),
    ensures
        t1.levels == t2.levels,
        tree_map(kf, vf, inline, records, t1) == tree_map(kf, vf, inline, records, t2),
{
    let nodes = nodes_of(kf, vf, inline, records);
    let h1 = t1.levels.len() as int;
    let h2 = t2.levels.len() as int;
    lemma_root_level(kf, inline, nodes, t1);
    lemma_root_level(kf, inline, nodes, t2);
    assert(t1.levels[h1 - 1] =~= t2.levels[h2 - 1]);
    if h1 <= h2 {
        lemma_depth_unique(kf, inline, nodes, t1, t2, h1 - 1);
    } else {
        lemma_depth_unique(kf, inline, nodes, t2, t1, h2 - 1);
    }
    assert(t1.levels =~= t2.levels) by {
        assert forall|l: int| 0 <= l < h1 implies t1.levels[l] == t2.levels[l] by {
            lemma_depth_unique(kf, inline, nodes, t1, t2, h1 - 1 - l);
        }
    }
}

proof fn lemma_root_level<KF: KeyFormat, V>(
    kf: &KF,
    inline: bool,
    nodes: Map<u64, NodeM<Model<KF>, V>>,
    t: Tree<Model<KF>>,
)
    requires
        levels_ok(kf, inline, nodes, t),
    ensures
        t.levels[t.levels.len() - 1] == seq![(root_of(t), None::<Model<KF>>)],
{
    let top = t.levels.len() - 1;
    assert(level_ok(kf, inline, nodes, t.levels[top], top > 0));
    assert(level_node(kf, inline, nodes, t.levels[top], 0, top > 0));
    assert(t.levels[top] =~= seq![(root_of(t), None::<Model<KF>>)]);
}

/// Two trees with the same root agree on every depth that both have, and the
/// leaves of the lower one are leaves.
proof fn lemma_depth_unique<KF: KeyFormat, V>(
    kf: &KF,
    inline: bool,
    nodes: Map<u64, NodeM<Model<KF>, V>>,
    t1: Tree<Model<KF>>,
    t2: Tree<Model<KF>>,
    d: int,
)
    requires
        levels_ok(kf, inline, nodes, t1),
        levels_ok(kf, inline, nodes, t2),
        t1.levels.last() == t2.levels.last(),
        0 <= d < t1.levels.len(),
        d < t2.levels.len(),
    ensures
        t1.levels[t1.levels.len() - 1 - d] == t2.levels[t2.levels.len() - 1 - d],
        (d == t1.levels.len() - 1) == (d == t2.levels.len() - 1),
    decreases d,
{
    let x1 = t1.levels.len() - 1 - d;
    let x2 = t2.levels.len() - 1 - d;
    assert(level_ok(kf, inline, nodes, t1.levels[x1], x1 > 0));
    assert(level_ok(kf, inline, nodes, t2.levels[x2], x2 > 0));
    if d > 0 {
        lemma_depth_unique(kf, inline, nodes, t1, t2, d - 1);
        let p = t1.levels[x1 + 1];
        let s1 = t1.levels[x1];
        let s2 = t2.levels[x2];
        let o1 = t1.offs[x1];
        let o2 = t2.offs[x2];
        assert(t2.levels[x2 + 1] == p);
        assert(parent_ok(nodes, p, s1, o1));
        assert(parent_ok(nodes, p, s2, o2));
        lemma_same_offsets(nodes, p, s1, s2, o1, o2, p.len() as int);
        assert forall|y: int| 0 <= y < s1.len() implies s1[y] == s2[y] by {
            lemma_same_child(nodes, p, s1, s2, o1, o2, p.len() as int, y);
            assert(level_node(kf, inline, nodes, s1, y, x1 > 0));
            assert(level_node(kf, inline, nodes, s2, y, x2 > 0));
        }
        assert(s1 =~= s2);
    }
    assert(level_node(kf, inline, nodes, t1.levels[x1], 0, x1 > 0));
    assert(level_node(kf, inline, nodes, t2.levels[x2], 0, x2 > 0));
}

proof fn lemma_same_offsets<K, V>(
    nodes: Map<u64, NodeM<K, V>>,
    p: Level<K>,
    s1: Level<K>,
    s2: Level<K>,
    o1: Seq<int>,
    o2: Seq<int>,
    j: int,
)
    requires
        parent_ok(nodes, p, s1, o1),
        parent_ok(nodes, p, s2, o2),
        0 <= j <= p.len(),
    ensures
        o1[j] == o2[j],
    decreases j,
{
    if j > 0 {
        lemma_same_offsets(nodes, p, s1, s2, o1, o2, j - 1);
        assert(parent_node(nodes, p, s1, o1, j - 1));
        assert(parent_node(nodes, p, s2, o2, j - 1));
    }
}

proof fn lemma_same_child<K, V>(
    nodes: Map<u64, NodeM<K, V>>,
    p: Level<K>,
    s1: Level<K>,
    s2: Level<K>,
    o1: Seq<int>,
    o2: Seq<int>,
    j: int,
    y: int,
)
    requires
        parent_ok(nodes, p, s1, o1),
        parent_ok(nodes, p, s2, o2),
        0 <= j <= p.len(),
        0 <= y < o1[j],
    ensures
        s1[y].0 == s2[y].0,
    decreases j,
{
    if j > 0 {
        assert(parent_node(nodes, p, s1, o1, j - 1));
        assert(parent_node(nodes, p, s2, o2, j - 1));
        lemma_same_offsets(nodes, p, s1, s2, o1, o2, j - 1);
        if y < o1[j - 1] {
            lemma_same_child(nodes, p, s1, s2, o1, o2, j - 1, y);
        } else {
            let n = nodes[p[j - 1].0];
            let c = n.children()[y - o1[j - 1]];
        }
    }
}

/// The records that a tree needs.
pub open spec fn used<K, V>(
    nodes: Map<u64, NodeM<K, V>>,
    t: Tree<K>,
    root_recid_recid: u64,
    counter_recid: u64,
) -> Set<u64> {
    Set::new(
        |r: u64|
            r == root_recid_recid || (counter_recid != 0 && r == counter_recid) || is_node(
                t,
                r,
            ) || is_value(nodes, t.levels[0], r),
    )
}

pub open spec fn is_node<K>(t: Tree<K>, r: u64) -> bool {
    exists|l: int, i: int|
        0 <= l < t.levels.len() && 0 <= i < t.levels[l].len() && (#[trigger] t.levels[l][i]).0 == r
}

pub open spec fn is_value<K, V>(nodes: Map<u64, NodeM<K, V>>, l: Level<K>, r: u64) -> bool {
    exists|i: int, p: int|
        0 <= i < l.len() && 0 <= p < nodes[l[i].0].keys.len() && #[trigger] value_recid_is(
            nodes[l[i].0],
            p,
            r,
        )
}

pub open spec fn value_recid_is<K, V>(n: NodeM<K, V>, p: int, r: u64) -> bool {
    n.body matches BodyM::ExternalLeaf { recids, .. } && recids[p] as u64 == r
}

/// A tree with only the records that it needs.
pub open spec fn trimmed<K, V>(
    nodes: Map<u64, NodeM<K, V>>,
    t: Tree<K>,
    root_recid_recid: u64,
    counter_recid: u64,
) -> Tree<K> {
    Tree {
        levels: t.levels,
        offs: t.offs,
        owner: t.owner.restrict(used(nodes, t, root_recid_recid, counter_recid)),
    }
}

pub proof fn lemma_trimmed<KF: KeyFormat, VF: Serializer>(
    kf: &KF,
    vf: &VF,
    inline: bool,
    records: Records,
    root_recid_recid: u64,
    counter_recid: u64,
    t: Tree<Model<KF>>,
)
    requires
        tree_ok(kf, vf, inline, records, root_recid_recid, counter_recid, t),
    ensures
        ({
            let nodes = nodes_of(kf, vf, inline, records);
            let t2 = trimmed(nodes, t, root_recid_recid, counter_recid);
            &&& tree_ok(kf, vf, inline, records, root_recid_recid, counter_recid, t2)
            &&& t2.owner.dom() == used(nodes, t, root_recid_recid, counter_recid)
            &&& t2.owner.dom().subset_of(t.owner.dom())
        }),
{
    let nodes = nodes_of(kf, vf, inline, records);
    let t2 = trimmed(nodes, t, root_recid_recid, counter_recid);
    let u = used(nodes, t, root_recid_recid, counter_recid);
    let l0 = t.levels[0];
    assert forall|i: int, p: int|
        0 <= i < l0.len() && 0 <= p < nodes[l0[i].0].keys.len() implies #[trigger] value_record_ok(
        vf,
        records,
        t2.owner,
        nodes[l0[i].0],
        p,
    ) by {
        assert(value_record_ok(vf, records, t.owner, nodes[l0[i].0], p));
        if let BodyM::ExternalLeaf { recids, .. } = nodes[l0[i].0].body {
            assert(value_recid_is(nodes[l0[i].0], p, recids[p] as u64));
            assert(u.contains(recids[p] as u64));
        }
    }
    assert forall|l: int, i: int|
        #![trigger t2.levels[l][i]]
        0 <= l < t2.levels.len() && 0 <= i < t2.levels[l].len() implies t2.owner.contains_key(
        t2.levels[l][i].0,
    ) && t2.owner[t2.levels[l][i].0] == Owner::<Model<KF>>::Level(l as nat) by {
        let e = t.levels[l][i];
        assert(u.contains(e.0));
    }
    assert(t2.owner.dom() =~= u) by {
        assert forall|r: u64| u.contains(r) implies t.owner.contains_key(r) by {
            if is_node(t, r) {
                let (l, i) = choose|l: int, i: int|
                    0 <= l < t.levels.len() && 0 <= i < t.levels[l].len() && (
                    #[trigger] t.levels[l][i]).0 == r;
                let e = t.levels[l][i];
            } else if is_value(nodes, t.levels[0], r) {
                let (i, p) = choose|i: int, p: int|
                    0 <= i < l0.len() && 0 <= p < nodes[l0[i].0].keys.len()
                        && #[trigger] value_recid_is(nodes[l0[i].0], p, r);
                assert(value_record_ok(vf, records, t.owner, nodes[l0[i].0], p));
            }
        }
    }
    assert forall|r: u64| #[trigger] t2.owner.contains_key(r) implies r != 0
        && records.contains_key(
        r,
    ) by {
        assert(t.owner.contains_key(r));
    }
}

} // verus!
