//! How a split moves up the tree: a level whose node was split while the level
//! above does not know the new node yet, and the steps that bring it in.

use vstd::prelude::*;
use crate::ser::{group_key_order, splits_at, KeyFormat, Model, Serializer};
use crate::store::{item_at, Records};
use super::contents::{
    agree, is_contents, lemma_entries_same, level_agrees, level_entries, owners_ok, tree_map,
    tree_ok, value_agrees, value_record_ok, values_ok,
};
use super::node::{lemma_flag_constants, lemma_flags, node_ok, BodyM, NodeM};
use super::tree::{
    above, bounds_sorted, covers, keys_in, lemma_covers_unique, lemma_descend, lemma_level_frame,
    lemma_level_split, lemma_parent_frame, lemma_parent_insert, lemma_parent_split, level_node,
    level_ok, levels_ok, low, nodes_of, one_parent, parent_node, parent_ok, shift_off,
    split_level, split_off, with_child, within, Level, Owner, Tree,
};

verus! {

/// The tree is in order but for this: node `c` of the level below `level`, which used
/// to be `s`, was split at `sep` with right half `q`, and `level` does not know it.
pub open spec fn pend_ok<KF: KeyFormat, V>(
    kf: &KF,
    inline: bool,
    nodes: Map<u64, NodeM<Model<KF>, V>>,
    t: Tree<Model<KF>>,
    level: int,
    s: Level<Model<KF>>,
    c: int,
    q: u64,
    sep: Model<KF>,
) -> bool {
    &&& 1 <= level <= t.levels.len()
    &&& t.offs.len() == t.levels.len() - 1
    &&& forall|l: int|
        #![trigger t.levels[l]]
        0 <= l < t.levels.len() ==> level_ok(kf, inline, nodes, t.levels[l], l > 0)
    &&& forall|l: int|
        #![trigger t.offs[l]]
        0 <= l < t.offs.len() && l != level - 1 ==> parent_ok(
            nodes,
            t.levels[l + 1],
            t.levels[l],
            t.offs[l],
        )
    &&& level < t.levels.len() ==> parent_ok(nodes, t.levels[level], s, t.offs[level - 1])
        && t.levels.last().len() == 1
    &&& level == t.levels.len() ==> s.len() == 1
    &&& t.levels[level - 1] == split_level(s, c, q, sep)
    &&& 0 <= c < s.len()
    &&& q != 0
    &&& bounds_sorted(kf, s)
    &&& above(kf, low(s, c), sep)
    &&& s[c].1 matches Some(h) ==> kf.lt(sep, h)
}

/// Changing nodes of one level keeps the others.
proof fn lemma_other_levels<KF: KeyFormat, V>(
    kf: &KF,
    inline: bool,
    a: Map<u64, NodeM<Model<KF>, V>>,
    b: Map<u64, NodeM<Model<KF>, V>>,
    t: Tree<Model<KF>>,
    level: int,
    l: int,
)
    requires
        owners_ok(t),
        0 <= l < t.levels.len(),
        l != level,
        level_ok(kf, inline, a, t.levels[l], l > 0),
        forall|r: u64|
            #![trigger t.owner.contains_key(r)]
            t.owner.contains_key(r) && t.owner[r] != Owner::<Model<KF>>::Level(level as nat)
                && a.contains_key(r) ==> b.contains_key(r) && b[r] == a[r],
        0 <= level,
    ensures
        level_ok(kf, inline, b, t.levels[l], l > 0),
        forall|x: int|
            #![trigger t.levels[l][x]]
            0 <= x < t.levels[l].len() ==> b.contains_key(t.levels[l][x].0) && b[t.levels[l][x].0]
                == a[t.levels[l][x].0],
{
    let lv = t.levels[l];
    assert forall|x: int| #![trigger lv[x]] 0 <= x < lv.len() implies b.contains_key(lv[x].0)
        && b[lv[x].0] == a[lv[x].0] by {
        let e = t.levels[l][x];
        assert(level_node(kf, inline, a, lv, x, l > 0));
        assert(t.owner.contains_key(e.0));
    }
    lemma_level_frame(kf, inline, a, b, lv, l > 0);
}

/// Where the separator belongs in the level above: its place is that of the child
/// that was split, and no key equals it.
pub proof fn lemma_pend_place<KF: KeyFormat, V>(
    kf: &KF,
    inline: bool,
    nodes: Map<u64, NodeM<Model<KF>, V>>,
    t: Tree<Model<KF>>,
    level: int,
    s: Level<Model<KF>>,
    c: int,
    q: u64,
    sep: Model<KF>,
    j: int,
    ip: int,
)
    requires
        pend_ok(kf, inline, nodes, t, level, s, c, q, sep),
        level < t.levels.len(),
        covers(kf, t.levels[level], j, sep),
        0 <= ip <= nodes[t.levels[level][j].0].keys.len(),
        (ip < nodes[t.levels[level][j].0].keys.len() && nodes[t.levels[level][j].0].keys[ip] == sep)
            || splits_at(kf, nodes[t.levels[level][j].0].keys, sep, ip),
    ensures
        splits_at(kf, nodes[t.levels[level][j].0].keys, sep, ip),
        t.offs[level - 1][j] + ip == c,
        ip < nodes[t.levels[level][j].0].children().len(),
{
    broadcast use group_key_order;

    let p = t.levels[level];
    let off = t.offs[level - 1];
    let n = nodes[p[j].0];
    assert(level_ok(kf, inline, nodes, t.levels[level], level > 0));
    lemma_descend(kf, inline, nodes, p, s, off, j, sep, ip);
    assert(covers(kf, s, c, sep)) by {
        if let Some(h) = s[c].1 {
            assert(kf.lt(sep, h));
        }
    }
    lemma_covers_unique(kf, s, off[j] + ip, c, sep);
    if ip < n.keys.len() && n.keys[ip] == sep {
        assert(parent_node(nodes, p, s, off, j));
        assert(n.children()[ip] == s[off[j] + ip].0);
        assert(s[c].1 == Some(sep));
        assert(false);
    }
}

/// The parent has room for the new separator.
#[verifier::spinoff_prover]
pub proof fn lemma_pend_fit<KF: KeyFormat, V>(
    kf: &KF,
    inline: bool,
    nodes: Map<u64, NodeM<Model<KF>, V>>,
    nodes2: Map<u64, NodeM<Model<KF>, V>>,
    t: Tree<Model<KF>>,
    level: int,
    s: Level<Model<KF>>,
    c: int,
    q: u64,
    sep: Model<KF>,
    j: int,
    ip: int,
)
    requires
        pend_ok(kf, inline, nodes, t, level, s, c, q, sep),
        owners_ok(t),
        level < t.levels.len(),
        0 <= j < t.levels[level].len(),
        t.offs[level - 1][j] + ip == c,
        0 <= ip < nodes[t.levels[level][j].0].children().len(),
        nodes2 == nodes.insert(
            t.levels[level][j].0,
            with_child(nodes[t.levels[level][j].0], ip, sep, q),
        ),
    ensures
        levels_ok(
            kf,
            inline,
            nodes2,
            (Tree {
                levels: t.levels,
                offs: t.offs.update(level - 1, shift_off(t.offs[level - 1], j)),
                owner: t.owner,
            }),
        ),
{
    let p = t.levels[level];
    let off = t.offs[level - 1];
    let t2 = Tree {
        levels: t.levels,
        offs: t.offs.update(level - 1, shift_off(off, j)),
        owner: t.owner,
    };
    assert(level_ok(kf, inline, nodes, t.levels[level], level > 0));
    let e = t.levels[level][j];
    assert(t.owner[e.0] == Owner::<Model<KF>>::Level(level as nat));
    lemma_parent_insert(kf, inline, nodes, p, s, off, j, ip, q, sep);
    assert forall|l: int| #![trigger t2.levels[l]] 0 <= l < t2.levels.len() implies level_ok(
        kf,
        inline,
        nodes2,
        t2.levels[l],
        l > 0,
    ) by {
        assert(level_ok(kf, inline, nodes, t.levels[l], l > 0));
        if l != level {
            lemma_other_levels(kf, inline, nodes, nodes2, t, level, l);
        }
    }
    assert forall|l: int| #![trigger t2.offs[l]] 0 <= l < t2.offs.len() implies parent_ok(
        nodes2,
        t2.levels[l + 1],
        t2.levels[l],
        t2.offs[l],
    ) by {
        if l != level - 1 {
            let o = t.offs[l];
            assert(parent_ok(nodes, t.levels[l + 1], t.levels[l], t.offs[l]));
            assert(level_ok(kf, inline, nodes, t.levels[l + 1], l + 1 > 0));
            lemma_other_levels(kf, inline, nodes, nodes2, t, level, l + 1);
            let up = t.levels[l + 1];
            assert forall|x: int| #![trigger up[x]] 0 <= x < up.len() implies nodes2[up[x].0]
                == nodes[up[x].0] by {
                let e2 = t.levels[l + 1][x];
            }
            lemma_parent_frame(nodes, nodes2, up, t.levels[l], t.offs[l]);
        }
    }
}

/// The parent is split in turn.
#[verifier::spinoff_prover]
pub proof fn lemma_pend_split<KF: KeyFormat, V>(
    kf: &KF,
    inline: bool,
    nodes: Map<u64, NodeM<Model<KF>, V>>,
    nodes2: Map<u64, NodeM<Model<KF>, V>>,
    t: Tree<Model<KF>>,
    level: int,
    s: Level<Model<KF>>,
    c: int,
    q: u64,
    sep: Model<KF>,
    j: int,
    ip: int,
    h: int,
    q2: u64,
    a: NodeM<Model<KF>, V>,
    b: NodeM<Model<KF>, V>,
)
    requires
        pend_ok(kf, inline, nodes, t, level, s, c, q, sep),
        owners_ok(t),
        level < t.levels.len(),
        0 <= j < t.levels[level].len(),
        t.offs[level - 1][j] + ip == c,
        0 <= ip < nodes[t.levels[level][j].0].children().len(),
        q2 != 0,
        !t.owner.contains_key(q2),
        ({
            let n2 = with_child(nodes[t.levels[level][j].0], ip, sep, q);
            &&& 0 < h < n2.keys.len()
            &&& a.flags == n2.flags & !2i32
            &&& b.flags == n2.flags & !4i32
            &&& a.link == q2
            &&& b.link == n2.link
            &&& a.keys == n2.keys.take(h)
            &&& b.keys == n2.keys.skip(h)
            &&& a.body == (BodyM::<Model<KF>, V>::Dir { children: n2.children().take(h) })
            &&& b.body == (BodyM::<Model<KF>, V>::Dir { children: n2.children().skip(h) })
        }),
        nodes2 == nodes.insert(q2, b).insert(t.levels[level][j].0, a),
    ensures
        ({
            let n2 = with_child(nodes[t.levels[level][j].0], ip, sep, q);
            let sep2 = n2.keys[h - 1];
            let t2 = Tree {
                levels: t.levels.update(level, split_level(t.levels[level], j, q2, sep2)),
                offs: t.offs.update(
                    level - 1,
                    split_off(shift_off(t.offs[level - 1], j), j, h),
                ),
                owner: t.owner.insert(q2, Owner::Level(level as nat)),
            };
            &&& node_ok(kf, inline, a)
            &&& node_ok(kf, inline, b)
            &&& pend_ok(kf, inline, nodes2, t2, level + 1, t.levels[level], j, q2, sep2)
            &&& owners_ok(t2)
        }),
{
    broadcast use group_key_order;

    let p = t.levels[level];
    let off = t.offs[level - 1];
    let cur = p[j].0;
    let n = nodes[cur];
    let n2 = with_child(n, ip, sep, q);
    let sep2 = n2.keys[h - 1];
    let mid = nodes.insert(cur, n2);
    let p2 = split_level(p, j, q2, sep2);
    let t2 = Tree {
        levels: t.levels.update(level, p2),
        offs: t.offs.update(level - 1, split_off(shift_off(off, j), j, h)),
        owner: t.owner.insert(q2, Owner::Level(level as nat)),
    };
    assert(level_ok(kf, inline, nodes, t.levels[level], level > 0));
    assert(level_node(kf, inline, nodes, p, j, true));
    let e = t.levels[level][j];
    assert(t.owner[e.0] == Owner::<Model<KF>>::Level(level as nat));
    lemma_parent_insert(kf, inline, nodes, p, s, off, j, ip, q, sep);
    lemma_flags(n2.flags);
    // the halves
    let last = n2.keys[n2.keys.len() - 1];
    assert(b.keys.last() == n2.keys.last());
    assert(a.keys.last() == sep2);
    assert(node_ok(kf, inline, a)) by {
        assert forall|x: int| 0 <= x < a.children().len()
            implies #[trigger] a.children()[x] != 0 by {
            assert(a.children()[x] == n2.children()[x]);
        }
    }
    assert(node_ok(kf, inline, b)) by {
        assert forall|x: int| 0 <= x < b.children().len()
            implies #[trigger] b.children()[x] != 0 by {
            assert(b.children()[x] == n2.children()[x + h]);
        }
        assert forall|x: int, y: int|
            #![trigger b.keys[x], b.keys[y]]
            0 <= x < y < b.keys.len() implies kf.lt(b.keys[x], b.keys[y]) by {
            assert(b.keys[x] == n2.keys[x + h] && b.keys[y] == n2.keys[y + h]);
        }
    }
    assert(above(kf, low(p, j), sep2));
    assert(p[j].1 matches Some(hi) ==> kf.lt(sep2, hi)) by {
        if let Some(hi) = p[j].1 {
            assert(hi == last);
        }
    }
    assert(keys_in(kf, a.keys, low(p, j), Some(sep2))) by {
        assert forall|x: int| 0 <= x < a.keys.len()
            implies above(kf, low(p, j), #[trigger] a.keys[x])
            && within(kf, a.keys[x], Some(sep2)) by {
            assert(a.keys[x] == n2.keys[x]);
            if x < h - 1 {
                assert(kf.lt(n2.keys[x], n2.keys[h - 1]));
            }
        }
    }
    assert(keys_in(kf, b.keys, Some(sep2), p[j].1)) by {
        assert forall|x: int| 0 <= x < b.keys.len()
            implies above(kf, Some(sep2), #[trigger] b.keys[x])
            && within(kf, b.keys[x], p[j].1) by {
            assert(b.keys[x] == n2.keys[x + h]);
            assert(kf.lt(n2.keys[h - 1], n2.keys[x + h]));
        }
    }
    assert forall|x: int| #![trigger p[x]] 0 <= x < p.len() implies p[x].0 != q2 by {
        let e2 = t.levels[level][x];
        assert(t.owner.contains_key(e2.0));
    }
    assert(mid.insert(q2, b).insert(cur, a) =~= nodes2);
    lemma_level_split(kf, inline, mid, p, true, j, q2, sep2, a, b);
    lemma_parent_split(
        kf,
        inline,
        mid,
        p,
        split_level(s, c, q, sep),
        shift_off(off, j),
        j,
        h,
        q2,
        a,
        b,
        sep2,
    );
    lemma_pend_split_rest(kf, inline, nodes, nodes2, t, t2, level, s, c, q, sep, p2, q2);
}

/// The levels that a split of a directory does not touch.
proof fn lemma_pend_split_rest<KF: KeyFormat, V>(
    kf: &KF,
    inline: bool,
    nodes: Map<u64, NodeM<Model<KF>, V>>,
    nodes2: Map<u64, NodeM<Model<KF>, V>>,
    t: Tree<Model<KF>>,
    t2: Tree<Model<KF>>,
    level: int,
    s: Level<Model<KF>>,
    c: int,
    q: u64,
    sep: Model<KF>,
    p2: Level<Model<KF>>,
    q2: u64,
)
    requires
        pend_ok(kf, inline, nodes, t, level, s, c, q, sep),
        owners_ok(t),
        level < t.levels.len(),
        t2.levels == t.levels.update(level, p2),
        t2.offs.len() == t.offs.len(),
        forall|l: int| 0 <= l < t.offs.len() && l != level - 1 ==> t2.offs[l] == t.offs[l],
        t2.owner == t.owner.insert(q2, Owner::Level(level as nat)),
        !t.owner.contains_key(q2),
        forall|r: u64|
            #![trigger t.owner.contains_key(r)]
            t.owner.contains_key(r) && t.owner[r] != Owner::<Model<KF>>::Level(level as nat)
                ==> nodes2.contains_key(r) == nodes.contains_key(r) && nodes2[r] == nodes[r],
        forall|x: int|
            #![trigger p2[x]]
            0 <= x < p2.len() ==> p2[x].0 == q2 || exists|y: int|
                #![trigger t.levels[level][y]]
                0 <= y < t.levels[level].len() && t.levels[level][y].0 == p2[x].0,
        level_ok(kf, inline, nodes2, p2, true),
        parent_ok(nodes2, p2, t.levels[level - 1], t2.offs[level - 1]),
    ensures
        owners_ok(t2),
        forall|l: int|
            #![trigger t2.levels[l]]
            0 <= l < t2.levels.len() ==> level_ok(kf, inline, nodes2, t2.levels[l], l > 0),
        forall|l: int|
            #![trigger t2.offs[l]]
            0 <= l < t2.offs.len() && l != level ==> parent_ok(
                nodes2,
                t2.levels[l + 1],
                t2.levels[l],
                t2.offs[l],
            ),
        level + 1 < t.levels.len() ==> parent_ok(
            nodes2,
            t2.levels[level + 1],
            t.levels[level],
            t2.offs[level],
        ) && t2.levels.last().len() == 1,
{
    assert forall|l: int| #![trigger t2.levels[l]] 0 <= l < t2.levels.len() implies level_ok(
        kf,
        inline,
        nodes2,
        t2.levels[l],
        l > 0,
    ) by {
        if l != level {
            assert(level_ok(kf, inline, nodes, t.levels[l], l > 0));
            lemma_other_levels(kf, inline, nodes, nodes2, t, level, l);
        }
    }
    assert forall|l: int, x: int|
        #![trigger t2.levels[l][x]]
        0 <= l < t2.levels.len() && 0 <= x < t2.levels[l].len() implies t2.owner.contains_key(
        t2.levels[l][x].0,
    ) && t2.owner[t2.levels[l][x].0] == Owner::<Model<KF>>::Level(l as nat) by {
        if l == level {
            let e = p2[x];
            if e.0 != q2 {
                let y = choose|y: int|
                    #![trigger t.levels[level][y]]
                    0 <= y < t.levels[level].len() && t.levels[level][y].0 == p2[x].0;
                assert(t.owner.contains_key(t.levels[level][y].0));
            }
        } else {
            let e = t.levels[l][x];
            assert(t.owner.contains_key(e.0));
        }
    }
    assert forall|l: int| #![trigger t.offs[l]] 0 <= l < t.offs.len() && l != level - 1
        implies parent_ok(
        nodes2,
        t.levels[l + 1],
        t.levels[l],
        t.offs[l],
    ) by {
        let o = t.offs[l];
        assert(parent_ok(nodes, t.levels[l + 1], t.levels[l], t.offs[l]));
        assert(level_ok(kf, inline, nodes, t.levels[l + 1], l + 1 > 0));
        lemma_other_levels(kf, inline, nodes, nodes2, t, level, l + 1);
        let up = t.levels[l + 1];
        assert forall|x: int| #![trigger up[x]] 0 <= x < up.len() implies nodes2[up[x].0]
            == nodes[up[x].0] by {
            let e2 = t.levels[l + 1][x];
        }
        lemma_parent_frame(nodes, nodes2, up, t.levels[l], t.offs[l]);
    }
    assert forall|l: int|
        #![trigger t2.offs[l]]
        0 <= l < t2.offs.len() && l != level implies parent_ok(
        nodes2,
        t2.levels[l + 1],
        t2.levels[l],
        t2.offs[l],
    ) by {
        if l != level - 1 {
            let o = t.offs[l];
            assert(parent_ok(nodes2, t.levels[l + 1], t.levels[l], t.offs[l]));
        }
    }
    if level + 1 < t.levels.len() {
        let o = t.offs[level];
        assert(parent_ok(nodes2, t.levels[level + 1], t.levels[level], t.offs[level]));
    }
}

/// A new root over the two halves of the old one.
#[verifier::spinoff_prover]
pub proof fn lemma_pend_root<KF: KeyFormat, V>(
    kf: &KF,
    inline: bool,
    nodes: Map<u64, NodeM<Model<KF>, V>>,
    nodes2: Map<u64, NodeM<Model<KF>, V>>,
    t: Tree<Model<KF>>,
    s: Level<Model<KF>>,
    q: u64,
    sep: Model<KF>,
    root: u64,
    n: NodeM<Model<KF>, V>,
)
    requires
        pend_ok(kf, inline, nodes, t, t.levels.len() as int, s, 0, q, sep),
        owners_ok(t),
        root != 0,
        !t.owner.contains_key(root),
        n.flags == 14,
        n.link == 0,
        n.keys == seq![sep],
        n.body == (BodyM::<Model<KF>, V>::Dir { children: seq![s[0].0, q] }),
        s[0].0 != 0,
        nodes2 == nodes.insert(root, n),
    ensures
        ({
            let t2 = Tree {
                levels: t.levels.push(seq![(root, None)]),
                offs: t.offs.push(seq![0int, 2]),
                owner: t.owner.insert(root, Owner::Level(t.levels.len())),
            };
            &&& node_ok(kf, inline, n)
            &&& levels_ok(kf, inline, nodes2, t2)
            &&& owners_ok(t2)
        }),
{
    let top = t.levels.len() as int;
    let newl: Level<Model<KF>> = seq![(root, None)];
    let t2 = Tree {
        levels: t.levels.push(newl),
        offs: t.offs.push(seq![0int, 2]),
        owner: t.owner.insert(root, Owner::Level(t.levels.len())),
    };
    lemma_flag_constants();
    assert(super::node::no_zero(n.children()));
    assert(node_ok(kf, inline, n));
    assert forall|r: u64| t.owner.contains_key(r) implies nodes2.contains_key(r)
        == nodes.contains_key(r) && nodes2[r] == nodes[r] by {}
    assert forall|l: int| #![trigger t2.levels[l]] 0 <= l < t2.levels.len() implies level_ok(
        kf,
        inline,
        nodes2,
        t2.levels[l],
        l > 0,
    ) by {
        if l < top {
            assert(t2.levels[l] == t.levels[l]);
            assert(level_ok(kf, inline, nodes, t.levels[l], l > 0));
            lemma_other_levels(kf, inline, nodes, nodes2, t, top, l);
        } else {
            assert(level_node(kf, inline, nodes2, newl, 0, true));
            assert forall|i: int| 0 <= i < newl.len() implies #[trigger] level_node(
                kf,
                inline,
                nodes2,
                newl,
                i,
                true,
            ) by {}
        }
    }
    assert forall|l: int| #![trigger t2.offs[l]] 0 <= l < t2.offs.len() implies parent_ok(
        nodes2,
        t2.levels[l + 1],
        t2.levels[l],
        t2.offs[l],
    ) by {
        if l < top - 1 {
            let o = t.offs[l];
            assert(parent_ok(nodes, t.levels[l + 1], t.levels[l], t.offs[l]));
            assert(level_ok(kf, inline, nodes, t.levels[l + 1], l + 1 > 0));
            lemma_other_levels(kf, inline, nodes, nodes2, t, top, l + 1);
            let up = t.levels[l + 1];
            assert forall|x: int| #![trigger up[x]] 0 <= x < up.len() implies nodes2[up[x].0]
                == nodes[up[x].0] by {
                let e2 = t.levels[l + 1][x];
            }
            lemma_parent_frame(nodes, nodes2, up, t.levels[l], t.offs[l]);
        } else {
            let lower = t.levels[top - 1];
            let off = seq![0int, 2];
            assert(lower =~= seq![(s[0].0, Some(sep)), (q, s[0].1)]);
            assert(one_parent(n, lower, 0));
            assert forall|j: int| 0 <= j < newl.len() implies #[trigger] parent_node(
                nodes2,
                newl,
                lower,
                off,
                j,
            ) by {}
        }
    }
    assert forall|l: int, x: int|
        #![trigger t2.levels[l][x]]
        0 <= l < t2.levels.len() && 0 <= x < t2.levels[l].len() implies t2.owner.contains_key(
        t2.levels[l][x].0,
    ) && t2.owner[t2.levels[l][x].0] == Owner::<Model<KF>>::Level(l as nat) by {
        if l < top {
            let e = t.levels[l][x];
            assert(t.owner.contains_key(e.0));
        }
    }
}

/// Leaves and values that did not change hold the same map.
pub proof fn lemma_same_leaves<KF: KeyFormat, VF: Serializer>(
    kf: &KF,
    vf: &VF,
    inline: bool,
    a: Records,
    b: Records,
    l: Level<Model<KF>>,
    owner: Map<u64, Owner<Model<KF>>>,
    owner2: Map<u64, Owner<Model<KF>>>,
    m: Map<Model<KF>, Model<VF>>,
)
    requires
        level_ok(kf, inline, nodes_of(kf, vf, inline, a), l, false),
        values_ok(vf, a, nodes_of(kf, vf, inline, a), l, owner),
        is_contents(level_entries(vf, a, nodes_of(kf, vf, inline, a), l), m),
        forall|i: int|
            #![trigger l[i]]
            0 <= i < l.len() ==> owner.contains_key(l[i].0) && owner[l[i].0] == Owner::<
                Model<KF>,
            >::Level(0),
        forall|r: u64|
            #![trigger owner.contains_key(r)]
            #![trigger owner2.contains_key(r)]
            owner.contains_key(r) && (owner[r] is Value || owner[r] == Owner::<Model<KF>>::Level(0))
                ==> agree(a, b, r) && owner2.contains_key(r) && owner2[r] == owner[r],
    ensures
        values_ok(vf, b, nodes_of(kf, vf, inline, b), l, owner2),
        is_contents(level_entries(vf, b, nodes_of(kf, vf, inline, b), l), m),
{
    let na = nodes_of(kf, vf, inline, a);
    assert(level_agrees(kf, vf, inline, a, b, l)) by {
        assert forall|i: int| #![trigger l[i]] 0 <= i < l.len() implies agree(a, b, l[i].0) by {
            assert(owner.contains_key(l[i].0));
        }
        assert forall|i: int, p: int|
            0 <= i < l.len() && 0 <= p < na[l[i].0].keys.len() implies #[trigger] value_agrees(
            a,
            b,
            na[l[i].0],
            p,
        ) by {
            assert(value_record_ok(vf, a, owner, na[l[i].0], p));
        }
    }
    lemma_entries_same(kf, vf, inline, a, b, l, owner, owner2);
}

/// The left half of a leaf: its first `h` entries, up to `sep`, linked to `q`.
pub open spec fn left_leaf<K, V>(n: NodeM<K, V>, h: int, q: u64) -> NodeM<K, V> {
    NodeM {
        flags: n.flags & !2i32,
        link: q,
        keys: n.keys.take(h),
        body: match n.body {
            BodyM::Leaf { values, .. } => BodyM::Leaf {
                values: values.take(h),
                fence: Some(n.keys[h - 1]),
            },
            BodyM::ExternalLeaf { recids, .. } => BodyM::ExternalLeaf {
                recids: recids.take(h),
                fence: Some(n.keys[h - 1]),
            },
            BodyM::Dir { children } => BodyM::Dir { children },
        },
    }
}

/// The right half of a leaf.
pub open spec fn right_leaf<K, V>(n: NodeM<K, V>, h: int) -> NodeM<K, V> {
    NodeM {
        flags: n.flags & !4i32,
        link: n.link,
        keys: n.keys.skip(h),
        body: match n.body {
            BodyM::Leaf { values, fence } => BodyM::Leaf { values: values.skip(h), fence },
            BodyM::ExternalLeaf { recids, fence } => BodyM::ExternalLeaf {
                recids: recids.skip(h),
                fence,
            },
            BodyM::Dir { children } => BodyM::Dir { children },
        },
    }
}

pub proof fn lemma_leaf_halves<KF: KeyFormat, V>(
    kf: &KF,
    inline: bool,
    n: NodeM<Model<KF>, V>,
    h: int,
    q: u64,
)
    requires
        node_ok(kf, inline, n),
        !n.dir(),
        0 < h < n.keys.len(),
        q != 0,
    ensures
        node_ok(kf, inline, left_leaf(n, h, q)),
        node_ok(kf, inline, right_leaf(n, h)),
        !left_leaf(n, h, q).dir(),
        !right_leaf(n, h).dir(),
        left_leaf(n, h, q).left() == n.left(),
        !left_leaf(n, h, q).right(),
        !right_leaf(n, h).left(),
        right_leaf(n, h).right() == n.right(),
        left_leaf(n, h, q).high() == Some(n.keys[h - 1]),
        right_leaf(n, h).high() == n.high(),
{
    broadcast use group_key_order;

    let a = left_leaf(n, h, q);
    let b = right_leaf(n, h);
    lemma_flags(n.flags);
    assert forall|x: int, y: int|
        #![trigger b.keys[x], b.keys[y]]
        0 <= x < y < b.keys.len() implies kf.lt(b.keys[x], b.keys[y]) by {
        assert(b.keys[x] == n.keys[x + h] && b.keys[y] == n.keys[y + h]);
    }
    assert(b.keys.last() == n.keys.last());
    assert(a.keys.last() == n.keys[h - 1]);
}

/// The left half of a directory.
pub open spec fn left_dir<K, V>(n: NodeM<K, V>, h: int, q: u64) -> NodeM<K, V> {
    NodeM {
        flags: n.flags & !2i32,
        link: q,
        keys: n.keys.take(h),
        body: BodyM::Dir { children: n.children().take(h) },
    }
}

/// The right half of a directory.
pub open spec fn right_dir<K, V>(n: NodeM<K, V>, h: int) -> NodeM<K, V> {
    NodeM {
        flags: n.flags & !4i32,
        link: n.link,
        keys: n.keys.skip(h),
        body: BodyM::Dir { children: n.children().skip(h) },
    }
}

pub proof fn lemma_dir_halves<KF: KeyFormat, V>(
    kf: &KF,
    inline: bool,
    n: NodeM<Model<KF>, V>,
    h: int,
    q: u64,
)
    requires
        node_ok(kf, inline, n),
        n.dir(),
        0 < h < n.keys.len(),
        q != 0,
    ensures
        node_ok(kf, inline, left_dir(n, h, q)),
        node_ok(kf, inline, right_dir(n, h)),
{
    let a = left_dir(n, h, q);
    let b = right_dir(n, h);
    lemma_flags(n.flags);
    assert forall|x: int, y: int|
        #![trigger b.keys[x], b.keys[y]]
        0 <= x < y < b.keys.len() implies kf.lt(b.keys[x], b.keys[y]) by {
        assert(b.keys[x] == n.keys[x + h] && b.keys[y] == n.keys[y + h]);
    }
    assert forall|x: int| 0 <= x < a.children().len() implies #[trigger] a.children()[x] != 0 by {
        assert(a.children()[x] == n.children()[x]);
    }
    assert forall|x: int| 0 <= x < b.children().len() implies #[trigger] b.children()[x] != 0 by {
        assert(b.children()[x] == n.children()[x + h]);
    }
}

/// A directory with another separator and child is a directory.
pub proof fn lemma_with_child_ok<KF: KeyFormat, V>(
    kf: &KF,
    inline: bool,
    n: NodeM<Model<KF>, V>,
    ip: int,
    sep: Model<KF>,
    q: u64,
)
    requires
        node_ok(kf, inline, n),
        n.dir(),
        splits_at(kf, n.keys, sep, ip),
        ip < n.children().len(),
        q != 0,
    ensures
        node_ok(kf, inline, with_child(n, ip, sep, q)),
{
    broadcast use group_key_order;

    let n2 = with_child(n, ip, sep, q);
    assert forall|x: int, y: int|
        #![trigger n2.keys[x], n2.keys[y]]
        0 <= x < y < n2.keys.len() implies kf.lt(n2.keys[x], n2.keys[y]) by {
        let ox = if x < ip {
            x
        } else {
            x - 1
        };
        let oy = if y < ip {
            y
        } else {
            y - 1
        };
        if x == ip {
            assert(n2.keys[y] == n.keys[oy]);
        } else if y == ip {
            assert(n2.keys[x] == n.keys[ox]);
        } else {
            assert(n2.keys[x] == n.keys[ox] && n2.keys[y] == n.keys[oy]);
        }
    }
    assert forall|x: int| 0 <= x < n2.children().len() implies #[trigger] n2.children()[x] != 0 by {
        if x <= ip {
            assert(n2.children()[x] == n.children()[x]);
        } else if x > ip + 1 {
            assert(n2.children()[x] == n.children()[x - 1]);
        }
    }
}

/// Splitting a leaf leaves the map as it is and a separator to be brought in.
#[verifier::spinoff_prover]
#[verifier::rlimit(60)]
pub proof fn lemma_leaf_split_step<KF: KeyFormat, VF: Serializer>(
    kf: &KF,
    vf: &VF,
    inline: bool,
    mid: Records,
    b: Records,
    rrr: u64,
    t: Tree<Model<KF>>,
    i: int,
    h: int,
    q: u64,
)
    requires
        tree_ok(kf, vf, inline, mid, rrr, 0, t),
        0 <= i < t.levels[0].len(),
        0 < h < nodes_of(kf, vf, inline, mid)[t.levels[0][i].0].keys.len(),
        0 < q,
        !mid.contains_key(q),
        ({
            let id = t.levels[0][i].0;
            let n = nodes_of(kf, vf, inline, mid)[id];
            &&& super::node::node_fits(kf, vf, left_leaf(n, h, q))
            &&& super::node::node_fits(kf, vf, right_leaf(n, h))
            &&& b == mid.insert(
                q,
                Some(super::node::enc_node(kf, vf, right_leaf(n, h))),
            ).insert(id, Some(super::node::enc_node(kf, vf, left_leaf(n, h, q))))
        }),
    ensures
        ({
            let n = nodes_of(kf, vf, inline, mid)[t.levels[0][i].0];
            let sep = n.keys[h - 1];
            let t2 = Tree {
                levels: t.levels.update(0, split_level(t.levels[0], i, q, sep)),
                offs: t.offs,
                owner: t.owner.insert(q, Owner::Level(0)),
            };
            &&& pend_ok(kf, inline, nodes_of(kf, vf, inline, b), t2, 1, t.levels[0], i, q, sep)
            &&& owners_ok(t2)
            &&& values_ok(vf, b, nodes_of(kf, vf, inline, b), t2.levels[0], t2.owner)
            &&& is_contents(
                level_entries(vf, b, nodes_of(kf, vf, inline, b), t2.levels[0]),
                tree_map(kf, vf, inline, mid, t),
            )
        }),
{
    broadcast use group_key_order;

    let nm = nodes_of(kf, vf, inline, mid);
    let nb = nodes_of(kf, vf, inline, b);
    let leaves = t.levels[0];
    let id = leaves[i].0;
    let n = nm[id];
    let sep = n.keys[h - 1];
    let ra = left_leaf(n, h, q);
    let rb = right_leaf(n, h);
    let m = tree_map(kf, vf, inline, mid, t);
    let l2 = split_level(leaves, i, q, sep);
    let t2 = Tree {
        levels: t.levels.update(0, l2),
        offs: t.offs,
        owner: t.owner.insert(q, Owner::Level(0)),
    };
    super::steps::lemma_leaf_facts(kf, vf, inline, mid, rrr, 0, t, i);
    lemma_leaf_halves(kf, inline, n, h, q);
    super::contents::lemma_nodes_write(kf, vf, inline, mid, q, rb);
    super::contents::lemma_nodes_write(
        kf,
        vf,
        inline,
        mid.insert(q, Some(super::node::enc_node(kf, vf, rb))),
        id,
        ra,
    );
    assert(nb =~= nm.insert(q, rb).insert(id, ra));
    assert(!t.owner.contains_key(q)) by {
        if t.owner.contains_key(q) {
            assert(mid.contains_key(q));
        }
    }
    assert forall|x: int| #![trigger leaves[x]] 0 <= x < leaves.len() implies leaves[x].0 != q by {
        let e = t.levels[0][x];
        assert(t.owner.contains_key(e.0));
    }
    // the level
    let last = n.keys[n.keys.len() - 1];
    assert(above(kf, low(leaves, i), sep));
    assert(leaves[i].1 matches Some(f) ==> kf.lt(sep, f)) by {
        if let Some(f) = leaves[i].1 {
            assert(kf.lt(sep, last));
            assert(within(kf, last, leaves[i].1));
        }
    }
    assert(keys_in(kf, ra.keys, low(leaves, i), Some(sep))) by {
        assert forall|x: int| 0 <= x < ra.keys.len() implies above(
            kf,
            low(leaves, i),
            #[trigger] ra.keys[x],
        ) && within(kf, ra.keys[x], Some(sep)) by {
            assert(ra.keys[x] == n.keys[x]);
            if x < h - 1 {
                assert(kf.lt(n.keys[x], n.keys[h - 1]));
            }
        }
    }
    assert(keys_in(kf, rb.keys, Some(sep), leaves[i].1)) by {
        assert forall|x: int| 0 <= x < rb.keys.len()
            implies above(kf, Some(sep), #[trigger] rb.keys[x])
            && within(kf, rb.keys[x], leaves[i].1) by {
            assert(rb.keys[x] == n.keys[x + h]);
            assert(kf.lt(n.keys[h - 1], n.keys[x + h]));
        }
    }
    lemma_level_split(kf, inline, nm, leaves, false, i, q, sep, ra, rb);
    // the other levels
    assert forall|l: int| #![trigger t2.levels[l]] 0 <= l < t2.levels.len() implies level_ok(
        kf,
        inline,
        nb,
        t2.levels[l],
        l > 0,
    ) by {
        if l > 0 {
            assert(level_ok(kf, inline, nm, t.levels[l], l > 0));
            lemma_other_levels(kf, inline, nm, nb, t, 0, l);
        }
    }
    assert forall|l: int| #![trigger t.offs[l]] 0 <= l < t.offs.len() implies parent_ok(
        nb,
        t.levels[l + 1],
        t.levels[l],
        t.offs[l],
    ) by {
        assert(parent_ok(nm, t.levels[l + 1], t.levels[l], t.offs[l]));
        assert(level_ok(kf, inline, nm, t.levels[l + 1], l + 1 > 0));
        lemma_other_levels(kf, inline, nm, nb, t, 0, l + 1);
        let up = t.levels[l + 1];
        assert forall|x: int| #![trigger up[x]] 0 <= x < up.len()
            implies nb[up[x].0] == nm[up[x].0] by {
            let e2 = t.levels[l + 1][x];
        }
        lemma_parent_frame(nm, nb, up, t.levels[l], t.offs[l]);
    }
    assert forall|l: int|
        #![trigger t2.offs[l]]
        0 <= l < t2.offs.len() && l != 0 implies parent_ok(
        nb,
        t2.levels[l + 1],
        t2.levels[l],
        t2.offs[l],
    ) by {
        let o = t.offs[l];
    }
    if 1 < t.levels.len() {
        let o = t.offs[0];
        assert(t2.levels.last() == t.levels.last());
    }
    lemma_leaf_split_values(kf, vf, inline, mid, b, rrr, t, i, h, q);
    // owners
    assert forall|l: int, x: int|
        #![trigger t2.levels[l][x]]
        0 <= l < t2.levels.len() && 0 <= x < t2.levels[l].len() implies t2.owner.contains_key(
        t2.levels[l][x].0,
    ) && t2.owner[t2.levels[l][x].0] == Owner::<Model<KF>>::Level(l as nat) by {
        if l == 0 {
            if x <= i {
                let e = t.levels[0][x];
                assert(t.owner.contains_key(e.0));
            } else if x > i + 1 {
                let e = t.levels[0][x - 1];
                assert(t.owner.contains_key(e.0));
            }
        } else {
            let e = t.levels[l][x];
            assert(t.owner.contains_key(e.0));
        }
    }
}

/// The entries of the leaves after a leaf was split.
#[verifier::spinoff_prover]
#[verifier::rlimit(60)]
proof fn lemma_leaf_split_values<KF: KeyFormat, VF: Serializer>(
    kf: &KF,
    vf: &VF,
    inline: bool,
    mid: Records,
    b: Records,
    rrr: u64,
    t: Tree<Model<KF>>,
    i: int,
    h: int,
    q: u64,
)
    requires
        tree_ok(kf, vf, inline, mid, rrr, 0, t),
        0 <= i < t.levels[0].len(),
        0 < h < nodes_of(kf, vf, inline, mid)[t.levels[0][i].0].keys.len(),
        !t.owner.contains_key(q),
        !mid.contains_key(q),
        ({
            let id = t.levels[0][i].0;
            let n = nodes_of(kf, vf, inline, mid)[id];
            &&& nodes_of(kf, vf, inline, b) == nodes_of(kf, vf, inline, mid).insert(
                q,
                right_leaf(n, h),
            ).insert(id, left_leaf(n, h, q))
            &&& forall|r: u64| r != id && r != q ==> #[trigger] agree(mid, b, r)
        }),
    ensures
        ({
            let n = nodes_of(kf, vf, inline, mid)[t.levels[0][i].0];
            let l2 = split_level(t.levels[0], i, q, n.keys[h - 1]);
            let owner2 = t.owner.insert(q, Owner::Level(0));
            &&& values_ok(vf, b, nodes_of(kf, vf, inline, b), l2, owner2)
            &&& is_contents(
                level_entries(vf, b, nodes_of(kf, vf, inline, b), l2),
                tree_map(kf, vf, inline, mid, t),
            )
        }),
{
    let nm = nodes_of(kf, vf, inline, mid);
    let nb = nodes_of(kf, vf, inline, b);
    let leaves = t.levels[0];
    let id = leaves[i].0;
    let n = nm[id];
    let ra = left_leaf(n, h, q);
    let rb = right_leaf(n, h);
    let m = tree_map(kf, vf, inline, mid, t);
    let l2 = split_level(leaves, i, q, n.keys[h - 1]);
    let owner2 = t.owner.insert(q, Owner::<Model<KF>>::Level(0));
    super::steps::lemma_leaf_facts(kf, vf, inline, mid, rrr, 0, t, i);
    let em = level_entries(vf, mid, nm, leaves);
    let eb = level_entries(vf, b, nb, l2);
    // values of a leaf of `mid` are the same in `b`
    assert forall|x: int, p: int|
        #![trigger super::contents::leaf_value(vf, mid, nm[leaves[x].0], p)]
        0 <= x < leaves.len() && 0 <= p < nm[leaves[x].0].keys.len() && !inline implies ({
        let r = nm[leaves[x].0].body->recids[p] as u64;
        &&& owner2.contains_key(r)
        &&& owner2[r] == Owner::Value(nm[leaves[x].0].keys[p])
        &&& item_at(vf, b, r) == Some(
            Some(super::contents::leaf_value(vf, mid, nm[leaves[x].0], p)),
        )
    }) by {
        super::steps::lemma_value_record(kf, vf, inline, mid, rrr, 0, t, x, p);
        let r = nm[leaves[x].0].body->recids[p] as u64;
        assert(agree(mid, b, r));
    }
    assert forall|x: int, p: int|
        0 <= x < l2.len() && 0 <= p < nb[l2[x].0].keys.len() implies #[trigger] value_record_ok(
        vf,
        b,
        owner2,
        nb[l2[x].0],
        p,
    ) && eb[x][p] == em.update(i, em[i].take(h)).insert(i + 1, em[i].skip(h))[x][p] by {
        let ox = if x <= i {
            x
        } else {
            x - 1
        };
        let op = if x == i + 1 {
            p + h
        } else {
            p
        };
        super::steps::lemma_leaf_facts(kf, vf, inline, mid, rrr, 0, t, ox);
        if ox != i && leaves[ox].0 == id {
            super::tree::lemma_level_distinct(kf, inline, nm, leaves, false, ox, i);
        }
        let e = t.levels[0][ox];
        assert(leaves[ox].0 != q);
        let v = super::contents::leaf_value(vf, mid, nm[leaves[ox].0], op);
        assert(em[ox][op] == (nm[leaves[ox].0].keys[op], v));
    }
    let e2 = em.update(i, em[i].take(h)).insert(i + 1, em[i].skip(h));
    assert forall|x: int| 0 <= x < l2.len() implies eb[x] == e2[x] by {
        let ox = if x <= i {
            x
        } else {
            x - 1
        };
        super::steps::lemma_leaf_facts(kf, vf, inline, mid, rrr, 0, t, ox);
        if ox != i && leaves[ox].0 == id {
            super::tree::lemma_level_distinct(kf, inline, nm, leaves, false, ox, i);
        }
        let e = t.levels[0][ox];
        assert(leaves[ox].0 != q);
        assert(eb[x].len() == e2[x].len());
        assert forall|p: int| 0 <= p < eb[x].len() implies eb[x][p] == e2[x][p] by {
            assert(value_record_ok(vf, b, owner2, nb[l2[x].0], p));
        }
        assert(eb[x] =~= e2[x]);
    }
    assert(eb =~= e2);
    super::contents::lemma_contents_split(em, m, i, h);
}

} // verus!
