//! How the record changes of one operation change the tree and its map.

use vstd::prelude::*;
use crate::ser::{group_key_order, sorted, splits_at, KeyFormat, Model, Serializer, LONG};
use crate::store::{item_at, lemma_enc_dec, Records};
use super::contents::{
    agree, contents_of, is_contents, leaf_entries, leaf_value, lemma_contents_insert,
    lemma_contents_of, lemma_contents_remove, lemma_contents_set, lemma_contents_unique,
    leaf_replaced, lemma_leaf_changed, lemma_leaf_key_covers, lemma_level_distinct_keys,
    lemma_lookup, lemma_nodes_same, lemma_nodes_write, lemma_tree_frame, level_entries, owners_ok,
    tree_map, tree_ok, value_record_ok, values_ok,
};
use super::node::{enc_node, fence_ok, node_fits, node_ok, BodyM, NodeM};
use super::tree::{
    above, covers, keys_in, level_node, level_ok, levels_ok, low, node_at, nodes_of, within, Owner,
    Tree,
};

verus! {

/// What holds of a leaf of a tree.
pub proof fn lemma_leaf_facts<KF: KeyFormat, VF: Serializer>(
    kf: &KF,
    vf: &VF,
    inline: bool,
    a: Records,
    rrr: u64,
    counter: u64,
    t: Tree<Model<KF>>,
    i: int,
)
    requires
        tree_ok(kf, vf, inline, a, rrr, counter, t),
        0 <= i < t.levels[0].len(),
    ensures
        ({
            let nodes = nodes_of(kf, vf, inline, a);
            let id = t.levels[0][i].0;
            let n = nodes[id];
            &&& level_ok(kf, inline, nodes, t.levels[0], false)
            &&& level_node(kf, inline, nodes, t.levels[0], i, false)
            &&& id != 0
            &&& a.contains_key(id)
            &&& t.owner.contains_key(id)
            &&& t.owner[id] == Owner::<Model<KF>>::Level(0)
            &&& id != rrr
            &&& counter != 0 ==> id != counter
            &&& inline ==> n.body is Leaf
            &&& !inline ==> n.body is ExternalLeaf
            &&& is_contents(
                level_entries(vf, a, nodes, t.levels[0]),
                tree_map(kf, vf, inline, a, t),
            )
        }),
{
    let nodes = nodes_of(kf, vf, inline, a);
    assert(level_ok(kf, inline, nodes, t.levels[0], false));
    assert(level_node(kf, inline, nodes, t.levels[0], i, false));
    let e = t.levels[0][i];
    assert(t.owner.contains_key(e.0));
    lemma_level_distinct_keys(kf, vf, inline, a, nodes, t.levels[0]);
    lemma_contents_of(level_entries(vf, a, nodes, t.levels[0]));
}

/// The value record at a place of an external leaf.
pub proof fn lemma_value_record<KF: KeyFormat, VF: Serializer>(
    kf: &KF,
    vf: &VF,
    inline: bool,
    a: Records,
    rrr: u64,
    counter: u64,
    t: Tree<Model<KF>>,
    i: int,
    p: int,
)
    requires
        tree_ok(kf, vf, inline, a, rrr, counter, t),
        !inline,
        0 <= i < t.levels[0].len(),
        0 <= p < nodes_of(kf, vf, inline, a)[t.levels[0][i].0].keys.len(),
    ensures
        ({
            let n = nodes_of(kf, vf, inline, a)[t.levels[0][i].0];
            let r = n.body->recids[p] as u64;
            &&& n.body->recids[p] != 0
            &&& r != 0
            &&& t.owner.contains_key(r)
            &&& t.owner[r] == Owner::Value(n.keys[p])
            &&& a.contains_key(r)
            &&& item_at(vf, a, r) == Some(Some(leaf_value(vf, a, n, p)))
            &&& tree_map(kf, vf, inline, a, t).contains_key(n.keys[p])
            &&& tree_map(kf, vf, inline, a, t)[n.keys[p]] == leaf_value(vf, a, n, p)
        }),
{
    let nodes = nodes_of(kf, vf, inline, a);
    let n = nodes[t.levels[0][i].0];
    lemma_leaf_facts(kf, vf, inline, a, rrr, counter, t, i);
    assert(value_record_ok(vf, a, t.owner, nodes[t.levels[0][i].0], p));
    assert(t.owner.contains_key(n.body->recids[p] as u64));
    assert(0i64 as u64 == 0) by (bit_vector);
    lemma_leaf_key_covers(kf, inline, nodes, t.levels[0], i, p);
    lemma_lookup(kf, vf, inline, a, nodes, t.levels[0], i, n.keys[p]);
}

/// A changed leaf makes a changed tree.
proof fn lemma_close<KF: KeyFormat, VF: Serializer>(
    kf: &KF,
    vf: &VF,
    inline: bool,
    a: Records,
    b: Records,
    rrr: u64,
    t: Tree<Model<KF>>,
    t2: Tree<Model<KF>>,
    m2: Map<Model<KF>, Model<VF>>,
)
    requires
        tree_ok(kf, vf, inline, a, rrr, 0, t),
        t2.levels == t.levels,
        levels_ok(kf, inline, nodes_of(kf, vf, inline, b), t2),
        owners_ok(t2),
        values_ok(vf, b, nodes_of(kf, vf, inline, b), t2.levels[0], t2.owner),
        is_contents(level_entries(vf, b, nodes_of(kf, vf, inline, b), t2.levels[0]), m2),
        m2.dom().finite(),
        forall|r: u64| #[trigger] t2.owner.contains_key(r) ==> r != 0 && b.contains_key(r),
        t2.owner.contains_key(rrr),
        t2.owner[rrr] == Owner::<Model<KF>>::RootPointer,
        agree(a, b, rrr),
    ensures
        tree_ok(kf, vf, inline, b, rrr, 0, t2),
        tree_map(kf, vf, inline, b, t2) == m2,
{
    let nb = nodes_of(kf, vf, inline, b);
    assert(level_ok(kf, inline, nb, t2.levels[0], false));
    lemma_level_distinct_keys(kf, vf, inline, b, nb, t2.levels[0]);
    let e = level_entries(vf, b, nb, t2.levels[0]);
    lemma_contents_of(e);
    lemma_contents_unique(e, contents_of(e), m2);
}

/// The counter follows the number of entries.
pub proof fn lemma_counter_step<KF: KeyFormat, VF: Serializer>(
    kf: &KF,
    vf: &VF,
    inline: bool,
    b: Records,
    rrr: u64,
    counter: u64,
    t: Tree<Model<KF>>,
    x: i64,
)
    requires
        tree_ok(kf, vf, inline, b, rrr, 0, t),
        counter != 0,
        t.owner.contains_key(counter),
        t.owner[counter] == Owner::<Model<KF>>::Counter,
        tree_map(kf, vf, inline, b, t).len() == x,
    ensures
        tree_ok(kf, vf, inline, b.insert(counter, Some(LONG.enc(x))), rrr, counter, t),
        tree_map(kf, vf, inline, b.insert(counter, Some(LONG.enc(x))), t) == tree_map(
            kf,
            vf,
            inline,
            b,
            t,
        ),
{
    let c = b.insert(counter, Some(LONG.enc(x)));
    lemma_tree_frame(kf, vf, inline, b, c, rrr, t);
    lemma_enc_dec(&LONG, x);
}

/// Replacing the value at a place of a leaf.
#[verifier::spinoff_prover]
#[verifier::rlimit(60)]
pub proof fn lemma_set_step<KF: KeyFormat, VF: Serializer>(
    kf: &KF,
    vf: &VF,
    inline: bool,
    a: Records,
    b: Records,
    rrr: u64,
    counter: u64,
    t: Tree<Model<KF>>,
    i: int,
    p: int,
    v: Model<VF>,
)
    requires
        tree_ok(kf, vf, inline, a, rrr, counter, t),
        0 <= i < t.levels[0].len(),
        0 <= p < nodes_of(kf, vf, inline, a)[t.levels[0][i].0].keys.len(),
        vf.fits(v),
        ({
            let id = t.levels[0][i].0;
            let n = nodes_of(kf, vf, inline, a)[id];
            match n.body {
                BodyM::Leaf { values, fence } => {
                    let n2 = NodeM {
                        flags: n.flags,
                        link: n.link,
                        keys: n.keys,
                        body: BodyM::Leaf { values: values.update(p, v), fence },
                    };
                    node_fits(kf, vf, n2) && b == a.insert(id, Some(enc_node(kf, vf, n2)))
                },
                BodyM::ExternalLeaf { recids, fence } => b == a.insert(
                    recids[p] as u64,
                    Some(vf.enc(v)),
                ),
                BodyM::Dir { .. } => false,
            }
        }),
    ensures
        tree_ok(kf, vf, inline, b, rrr, counter, t),
        tree_map(kf, vf, inline, b, t) == tree_map(kf, vf, inline, a, t).insert(
            nodes_of(kf, vf, inline, a)[t.levels[0][i].0].keys[p],
            v,
        ),
        exists|n2: NodeM<Model<KF>, Model<VF>>|
            n2.keys == nodes_of(kf, vf, inline, a)[t.levels[0][i].0].keys
                && #[trigger] leaf_replaced(kf, vf, inline, a, b, t.levels[0], i, n2),
{
    let nodes = nodes_of(kf, vf, inline, a);
    let id = t.levels[0][i].0;
    let n = nodes[id];
    let k = n.keys[p];
    let m = tree_map(kf, vf, inline, a, t);
    let m2 = m.insert(k, v);
    let e = level_entries(vf, a, nodes, t.levels[0]);
    lemma_leaf_facts(kf, vf, inline, a, rrr, counter, t, i);
    lemma_leaf_key_covers(kf, inline, nodes, t.levels[0], i, p);
    lemma_lookup(kf, vf, inline, a, nodes, t.levels[0], i, k);
    lemma_level_distinct_keys(kf, vf, inline, a, nodes, t.levels[0]);
    let n2 = match n.body {
        BodyM::Leaf { values, fence } => NodeM {
            flags: n.flags,
            link: n.link,
            keys: n.keys,
            body: BodyM::Leaf { values: values.update(p, v), fence },
        },
        _ => n,
    };
    if inline {
        lemma_nodes_write(kf, vf, inline, a, id, n2);
    } else {
        let vr = n.body->recids[p] as u64;
        lemma_value_record(kf, vf, inline, a, rrr, counter, t, i, p);
        lemma_enc_dec(vf, v);
        lemma_nodes_same(kf, vf, inline, a, b, id);
        assert forall|x: int| 0 <= x < n2.keys.len() implies #[trigger] value_record_ok(
            vf,
            b,
            t.owner,
            n2,
            x,
        ) by {
            lemma_value_record(kf, vf, inline, a, rrr, counter, t, i, x);
            assert(value_record_ok(vf, a, t.owner, n, x));
        }
    }
    assert(node_at(kf, vf, inline, b, id) == Some(n2));
    lemma_leaf_changed(kf, vf, inline, a, b, t, t.owner, i, n2, k);
    assert(leaf_entries(vf, b, n2) =~= e[i].update(p, (k, v))) by {
        assert forall|x: int| 0 <= x < n2.keys.len()
            implies leaf_entries(vf, b, n2)[x] == e[i].update(
            p,
            (k, v),
        )[x] by {
            if !inline {
                lemma_value_record(kf, vf, inline, a, rrr, counter, t, i, x);
                lemma_value_record(kf, vf, inline, a, rrr, counter, t, i, p);
                if x != p {
                    broadcast use group_key_order;

                    assert(sorted(kf, n.keys));
                    assert(n.keys[x] != n.keys[p]) by {
                        if x < p {
                            assert(kf.lt(n.keys[x], n.keys[p]));
                        } else {
                            assert(kf.lt(n.keys[p], n.keys[x]));
                        }
                    }
                }
            }
        }
    }
    lemma_contents_set(e, m, i, p, v);
    assert((Tree { levels: t.levels, offs: t.offs, owner: t.owner }) == t);
    lemma_close(kf, vf, inline, a, b, rrr, t, t, m2);
    assert(m2.dom() =~= m.dom());
    if counter != 0 {
        assert(agree(a, b, counter));
    }
}

/// A leaf without the entry at place `p`.
pub open spec fn without_entry<K, V>(n: NodeM<K, V>, p: int) -> NodeM<K, V> {
    NodeM {
        flags: n.flags,
        link: n.link,
        keys: n.keys.remove(p),
        body: match n.body {
            BodyM::Leaf { values, fence } => BodyM::Leaf { values: values.remove(p), fence },
            BodyM::ExternalLeaf { recids, fence } => BodyM::ExternalLeaf {
                recids: recids.remove(p),
                fence,
            },
            BodyM::Dir { children } => BodyM::Dir { children },
        },
    }
}

/// A leaf with another entry at place `p`: its key, and its value or value recid.
pub open spec fn with_entry<K, V>(n: NodeM<K, V>, p: int, k: K, v: V, recid: i64) -> NodeM<K, V> {
    NodeM {
        flags: n.flags,
        link: n.link,
        keys: n.keys.insert(p, k),
        body: match n.body {
            BodyM::Leaf { values, fence } => BodyM::Leaf { values: values.insert(p, v), fence },
            BodyM::ExternalLeaf { recids, fence } => BodyM::ExternalLeaf {
                recids: recids.insert(p, recid),
                fence,
            },
            BodyM::Dir { children } => BodyM::Dir { children },
        },
    }
}

/// Removing an entry keeps a leaf in order.
pub proof fn lemma_without_entry<KF: KeyFormat, V>(
    kf: &KF,
    inline: bool,
    n: NodeM<Model<KF>, V>,
    p: int,
    lo: Option<Model<KF>>,
    hi: Option<Model<KF>>,
)
    requires
        node_ok(kf, inline, n),
        !n.dir(),
        0 <= p < n.keys.len(),
        keys_in(kf, n.keys, lo, hi),
    ensures
        node_ok(kf, inline, without_entry(n, p)),
        keys_in(kf, without_entry(n, p).keys, lo, hi),
        without_entry(n, p).high() == n.high(),
{
    broadcast use group_key_order;

    let n2 = without_entry(n, p);
    assert forall|x: int, y: int|
        #![trigger n2.keys[x], n2.keys[y]]
        0 <= x < y < n2.keys.len() implies kf.lt(n2.keys[x], n2.keys[y]) by {
        let ox = if x < p {
            x
        } else {
            x + 1
        };
        let oy = if y < p {
            y
        } else {
            y + 1
        };
        assert(n2.keys[x] == n.keys[ox] && n2.keys[y] == n.keys[oy]);
    }
    assert forall|x: int| 0 <= x < n2.keys.len() implies above(kf, lo, #[trigger] n2.keys[x])
        && within(kf, n2.keys[x], hi) by {
        let ox = if x < p {
            x
        } else {
            x + 1
        };
        assert(n2.keys[x] == n.keys[ox]);
    }
    assert(fence_ok(kf, n2.keys, n2.right(), n2.fence())) by {
        if let Some(f) = n.fence() {
            if n2.keys.len() > 0 {
                let last = n.keys[n.keys.len() - 1];
                if p == n.keys.len() - 1 {
                    assert(n2.keys.last() == n.keys[n.keys.len() - 2]);
                    assert(kf.lt(n.keys[n.keys.len() - 2], last));
                } else {
                    assert(n2.keys.last() == last);
                }
            }
        }
    }
}

/// Inserting an entry at its place keeps a leaf in order.
pub proof fn lemma_with_entry<KF: KeyFormat, V>(
    kf: &KF,
    inline: bool,
    n: NodeM<Model<KF>, V>,
    p: int,
    k: Model<KF>,
    v: V,
    recid: i64,
    lo: Option<Model<KF>>,
    hi: Option<Model<KF>>,
)
    requires
        node_ok(kf, inline, n),
        !n.dir(),
        splits_at(kf, n.keys, k, p),
        keys_in(kf, n.keys, lo, hi),
        above(kf, lo, k),
        within(kf, k, hi),
        n.high() == hi,
    ensures
        node_ok(kf, inline, with_entry(n, p, k, v, recid)),
        keys_in(kf, with_entry(n, p, k, v, recid).keys, lo, hi),
        with_entry(n, p, k, v, recid).high() == n.high(),
{
    broadcast use group_key_order;

    let n2 = with_entry(n, p, k, v, recid);
    assert forall|x: int, y: int|
        #![trigger n2.keys[x], n2.keys[y]]
        0 <= x < y < n2.keys.len() implies kf.lt(n2.keys[x], n2.keys[y]) by {
        let ox = if x < p {
            x
        } else {
            x - 1
        };
        let oy = if y < p {
            y
        } else {
            y - 1
        };
        if x == p {
            assert(n2.keys[y] == n.keys[oy]);
        } else if y == p {
            assert(n2.keys[x] == n.keys[ox]);
        } else {
            assert(n2.keys[x] == n.keys[ox] && n2.keys[y] == n.keys[oy]);
        }
    }
    assert forall|x: int| 0 <= x < n2.keys.len() implies above(kf, lo, #[trigger] n2.keys[x])
        && within(kf, n2.keys[x], hi) by {
        if x < p {
            assert(n2.keys[x] == n.keys[x]);
        } else if x > p {
            assert(n2.keys[x] == n.keys[x - 1]);
        }
    }
    assert(fence_ok(kf, n2.keys, n2.right(), n2.fence())) by {
        if let Some(f) = n.fence() {
            if p < n.keys.len() {
                assert(n2.keys.last() == n.keys.last());
            } else {
                assert(n2.keys.last() == k);
            }
        }
    }
}

/// Removing an entry and, where it has one, its value record.
#[verifier::spinoff_prover]
#[verifier::rlimit(60)]
pub proof fn lemma_remove_step<KF: KeyFormat, VF: Serializer>(
    kf: &KF,
    vf: &VF,
    inline: bool,
    a: Records,
    b: Records,
    rrr: u64,
    counter: u64,
    t: Tree<Model<KF>>,
    i: int,
    p: int,
    owner2: Map<u64, Owner<Model<KF>>>,
)
    requires
        tree_ok(kf, vf, inline, a, rrr, counter, t),
        0 <= i < t.levels[0].len(),
        0 <= p < nodes_of(kf, vf, inline, a)[t.levels[0][i].0].keys.len(),
        ({
            let id = t.levels[0][i].0;
            let n = nodes_of(kf, vf, inline, a)[id];
            let n2 = without_entry(n, p);
            let c = a.insert(id, Some(enc_node(kf, vf, n2)));
            &&& node_fits(kf, vf, n2)
            &&& inline ==> b == c && owner2 == t.owner
            &&& !inline ==> b == c.remove(n.body->recids[p] as u64) && owner2 == t.owner.remove(
                n.body->recids[p] as u64,
            )
        }),
    ensures
        ({
            let t2 = Tree { levels: t.levels, offs: t.offs, owner: owner2 };
            let k = nodes_of(kf, vf, inline, a)[t.levels[0][i].0].keys[p];
            &&& tree_ok(kf, vf, inline, b, rrr, 0, t2)
            &&& tree_map(kf, vf, inline, b, t2) == tree_map(kf, vf, inline, a, t).remove(k)
            &&& tree_map(kf, vf, inline, a, t).contains_key(k)
            &&& tree_map(kf, vf, inline, b, t2).len() == tree_map(kf, vf, inline, a, t).len() - 1
            &&& leaf_replaced(
                kf,
                vf,
                inline,
                a,
                b,
                t.levels[0],
                i,
                without_entry(nodes_of(kf, vf, inline, a)[t.levels[0][i].0], p),
            )
            &&& counter != 0 ==> agree(a, b, counter) && owner2.contains_key(counter)
                && owner2[counter] == Owner::<Model<KF>>::Counter
        }),
{
    let nodes = nodes_of(kf, vf, inline, a);
    let id = t.levels[0][i].0;
    let n = nodes[id];
    let k = n.keys[p];
    let n2 = without_entry(n, p);
    let m = tree_map(kf, vf, inline, a, t);
    let e = level_entries(vf, a, nodes, t.levels[0]);
    let t2 = Tree { levels: t.levels, offs: t.offs, owner: owner2 };
    lemma_leaf_facts(kf, vf, inline, a, rrr, counter, t, i);
    lemma_leaf_key_covers(kf, inline, nodes, t.levels[0], i, p);
    lemma_lookup(kf, vf, inline, a, nodes, t.levels[0], i, k);
    lemma_level_distinct_keys(kf, vf, inline, a, nodes, t.levels[0]);
    lemma_without_entry(kf, inline, n, p, low(t.levels[0], i), t.levels[0][i].1);
    let c = a.insert(id, Some(enc_node(kf, vf, n2)));
    lemma_nodes_write(kf, vf, inline, a, id, n2);
    assert(node_at(kf, vf, inline, c, id) == Some(n2));
    if !inline {
        lemma_value_record(kf, vf, inline, a, rrr, counter, t, i, p);
        assert(node_at(kf, vf, inline, b, id) == node_at(kf, vf, inline, c, id));
    }
    assert forall|x: int| 0 <= x < n2.keys.len() implies #[trigger] value_record_ok(
        vf,
        b,
        owner2,
        n2,
        x,
    ) && leaf_value(vf, b, n2, x) == leaf_value(
        vf,
        a,
        n,
        if x < p {
            x
        } else {
            x + 1
        },
    ) by {
        if !inline {
            let ox = if x < p {
                x
            } else {
                x + 1
            };
            lemma_value_record(kf, vf, inline, a, rrr, counter, t, i, ox);
            lemma_value_record(kf, vf, inline, a, rrr, counter, t, i, p);
            assert(n.keys[ox] != n.keys[p]) by {
                broadcast use group_key_order;

                if ox < p {
                    assert(kf.lt(n.keys[ox], n.keys[p]));
                } else {
                    assert(kf.lt(n.keys[p], n.keys[ox]));
                }
            }
        }
    }
    lemma_leaf_changed(kf, vf, inline, a, b, t, owner2, i, n2, k);
    assert(leaf_entries(vf, b, n2) =~= e[i].remove(p)) by {
        assert forall|x: int| 0 <= x < n2.keys.len()
            implies leaf_entries(vf, b, n2)[x] == e[i].remove(
            p,
        )[x] by {
            assert(value_record_ok(vf, b, owner2, n2, x));
        }
    }
    lemma_contents_remove(e, m, i, p);
    lemma_close(kf, vf, inline, a, b, rrr, t, t2, m.remove(k));
}

/// Inserting an entry and, where it has one, its value record, without a split.
#[verifier::spinoff_prover]
#[verifier::rlimit(60)]
pub proof fn lemma_insert_step<KF: KeyFormat, VF: Serializer>(
    kf: &KF,
    vf: &VF,
    inline: bool,
    a: Records,
    b: Records,
    rrr: u64,
    counter: u64,
    t: Tree<Model<KF>>,
    i: int,
    p: int,
    k: Model<KF>,
    v: Model<VF>,
    recid: u64,
    owner2: Map<u64, Owner<Model<KF>>>,
)
    requires
        tree_ok(kf, vf, inline, a, rrr, counter, t),
        covers(kf, t.levels[0], i, k),
        splits_at(kf, nodes_of(kf, vf, inline, a)[t.levels[0][i].0].keys, k, p),
        vf.fits(v),
        ({
            let id = t.levels[0][i].0;
            let n = nodes_of(kf, vf, inline, a)[id];
            let n2 = with_entry(n, p, k, v, recid as i64);
            &&& node_fits(kf, vf, n2)
            &&& inline ==> b == a.insert(id, Some(enc_node(kf, vf, n2))) && owner2 == t.owner
            &&& !inline ==> {
                &&& 0 < recid <= i64::MAX
                &&& !a.contains_key(recid)
                &&& b == a.insert(recid, Some(vf.enc(v))).insert(id, Some(enc_node(kf, vf, n2)))
                &&& owner2 == t.owner.insert(recid, Owner::Value(k))
            }
        }),
    ensures
        ({
            let t2 = Tree { levels: t.levels, offs: t.offs, owner: owner2 };
            let m = tree_map(kf, vf, inline, a, t);
            let n2 = with_entry(
                nodes_of(kf, vf, inline, a)[t.levels[0][i].0],
                p,
                k,
                v,
                recid as i64,
            );
            &&& tree_ok(kf, vf, inline, b, rrr, 0, t2)
            &&& !m.contains_key(k)
            &&& tree_map(kf, vf, inline, b, t2) == m.insert(k, v)
            &&& m.insert(k, v).len() == m.len() + 1
            &&& counter != 0 ==> agree(a, b, counter) && owner2.contains_key(counter)
                && owner2[counter] == Owner::<Model<KF>>::Counter
            &&& node_ok(kf, inline, n2)
            &&& n2.high() == t.levels[0][i].1
            &&& keys_in(kf, n2.keys, low(t.levels[0], i), t.levels[0][i].1)
            &&& node_at(kf, vf, inline, b, t.levels[0][i].0) == Some(n2)
            &&& leaf_replaced(kf, vf, inline, a, b, t.levels[0], i, n2)
        }),
{
    let nodes = nodes_of(kf, vf, inline, a);
    let id = t.levels[0][i].0;
    let n = nodes[id];
    let n2 = with_entry(n, p, k, v, recid as i64);
    let m = tree_map(kf, vf, inline, a, t);
    let e = level_entries(vf, a, nodes, t.levels[0]);
    let t2 = Tree { levels: t.levels, offs: t.offs, owner: owner2 };
    lemma_leaf_facts(kf, vf, inline, a, rrr, counter, t, i);
    assert forall|x: int| 0 <= x < n.keys.len() implies #[trigger] n.keys[x] != k by {
        kf.lt_irreflexive(k);
    }
    lemma_lookup(kf, vf, inline, a, nodes, t.levels[0], i, k);
    lemma_with_entry(
        kf,
        inline,
        n,
        p,
        k,
        v,
        recid as i64,
        low(t.levels[0], i),
        t.levels[0][i].1,
    );
    if inline {
        lemma_nodes_write(kf, vf, inline, a, id, n2);
    } else {
        lemma_nodes_write(kf, vf, inline, a.insert(recid, Some(vf.enc(v))), id, n2);
        lemma_enc_dec(vf, v);
        assert((recid as i64) as u64 == recid);
        assert(!t.owner.contains_key(recid));
    }
    assert(node_at(kf, vf, inline, b, id) == Some(n2));
    assert forall|x: int| 0 <= x < n2.keys.len() implies #[trigger] value_record_ok(
        vf,
        b,
        owner2,
        n2,
        x,
    ) && leaf_value(vf, b, n2, x) == (if x < p {
        leaf_value(vf, a, n, x)
    } else if x == p {
        v
    } else {
        leaf_value(vf, a, n, x - 1)
    }) by {
        if !inline {
            if x != p {
                let ox = if x < p {
                    x
                } else {
                    x - 1
                };
                lemma_value_record(kf, vf, inline, a, rrr, counter, t, i, ox);
            }
        }
    }
    lemma_leaf_changed(kf, vf, inline, a, b, t, owner2, i, n2, k);
    assert(leaf_entries(vf, b, n2) =~= e[i].insert(p, (k, v))) by {
        assert forall|x: int| 0 <= x < n2.keys.len()
            implies leaf_entries(vf, b, n2)[x] == e[i].insert(
            p,
            (k, v),
        )[x] by {
            assert(value_record_ok(vf, b, owner2, n2, x));
        }
    }
    lemma_contents_insert(e, m, i, p, k, v);
    lemma_close(kf, vf, inline, a, b, rrr, t, t2, m.insert(k, v));
}

} // verus!
