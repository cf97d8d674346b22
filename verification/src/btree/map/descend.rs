//! Scans in descending key order.
//!
//! Leaves are linked to the right only. A descending scan finds the leaf on the left
//! of the one it has done by the separator left of the path that led there, and
//! keeps that path for the next step.

use vstd::prelude::*;
use crate::btree::contents::lists;
use crate::btree::node::{node_ok, Node, NodeM};
use crate::btree::range::{
    above_hi, below_lo, entry_models, hi_ok, in_range, is_greatest, lemma_lists_front,
    lemma_lists_push, lemma_ranged_all, lo_ok, ranged,
};
use crate::btree::tree::{
    above, bounds_sorted, covers, lemma_first_child_low, lemma_level_distinct, lemma_levels_at,
    lemma_starts_in, level_node, level_ok, levels_kept, low, low_le, parent_node, parent_ok,
    starts_in, Level, Owner, Tree,
};
use crate::error::{DbError, Result};
use crate::ser::{group_key_order, KeyFormat, Model, Serializer};
use crate::store::{blames, carried_out, opt_model, served, Records, Store, StoreState};
use super::scan::{key_pool, lemma_key_pool_finite};
use super::{
    every_recid, lemma_every_recid, opt_ref_model, BTreeMap, CycleGuard, CYCLE_DESCENT_SOFT,
};

verus! {

/// A directory on a kept path: its recid, the node as it was read, and the separator left of
/// it, if any, in the node above.
pub struct RevFrame<KF: KeyFormat, VF: Serializer> {
    recid: u64,
    node: Node<KF, VF>,
    sep: Option<KF::Item>,
    level: Ghost<int>,
}

/// One step of a descending scan: the entries of a leaf, ascending, the next inclusive
/// upper bound, and the low bound of the entries.
pub type DescendStep<KF, VF> = (
    Vec<(<KF as Serializer>::Item, <VF as Serializer>::Item)>,
    Option<<KF as Serializer>::Item>,
    Ghost<Option<Model<KF>>>,
);

/// The separator closest to the left of the first `n` directories of a path.
spec fn deepest<KF: KeyFormat, VF: Serializer>(stack: Seq<RevFrame<KF, VF>>, n: int) -> Option<
    Model<KF>,
>
    decreases n,
{
    if n <= 0 {
        None
    } else {
        match stack[n - 1].sep {
            Some(s) => Some(s@),
            None => deepest(stack, n - 1),
        }
    }
}

proof fn lemma_deepest_same<KF: KeyFormat, VF: Serializer>(
    a: Seq<RevFrame<KF, VF>>,
    b: Seq<RevFrame<KF, VF>>,
    n: int,
)
    requires
        n <= a.len(),
        n <= b.len(),
        forall|x: int| 0 <= x < n ==> a[x] == b[x],
    ensures
        deepest(a, n) == deepest(b, n),
    decreases n,
{
    if n > 0 {
        lemma_deepest_same(a, b, n - 1);
        assert(a[n - 1] == b[n - 1]);
    }
}

proof fn lemma_deepest_skip<KF: KeyFormat, VF: Serializer>(
    a: Seq<RevFrame<KF, VF>>,
    n: int,
    x: int,
)
    requires
        0 <= x <= n <= a.len(),
        forall|y: int| x <= y < n ==> (#[trigger] a[y]).sep is None,
    ensures
        deepest(a, n) == deepest(a, x),
    decreases n,
{
    if n > x {
        assert(a[n - 1].sep is None);
        lemma_deepest_skip(a, n - 1, x);
    }
}

/// All keys on a kept path.
spec fn frame_pool<KF: KeyFormat, VF: Serializer>(stack: Seq<RevFrame<KF, VF>>) -> Set<Model<KF>> {
    Set::new(
        |k: Model<KF>|
            exists|x: int|
                0 <= x < stack.len() && ((#[trigger] stack[x]).node@.keys.contains(k)
                    || opt_model(stack[x].sep) == Some(k)),
    )
}

proof fn lemma_frame_pool_finite<KF: KeyFormat, VF: Serializer>(stack: Seq<RevFrame<KF, VF>>)
    ensures
        frame_pool(stack).finite(),
    decreases stack.len(),
{
    if stack.len() == 0 {
        assert(frame_pool(stack) =~= Set::empty());
    } else {
        let s = stack.drop_last();
        lemma_frame_pool_finite(s);
        let f = stack.last();
        let ks = f.node@.keys.to_set();
        vstd::seq_lib::seq_to_set_is_finite(f.node@.keys);
        let sep = match f.sep {
            Some(x) => set![x@],
            None => Set::empty(),
        };
        let u = frame_pool(s).union(ks).union(sep);
        assert forall|k: Model<KF>| frame_pool(stack).contains(k) implies u.contains(k) by {
            let x = choose|x: int|
                0 <= x < stack.len() && ((#[trigger] stack[x]).node@.keys.contains(k) || opt_model(
                    stack[x].sep,
                ) == Some(k));
            if x < s.len() {
                assert(s[x] == stack[x]);
            }
        }
        vstd::set_lib::lemma_set_subset_finite(u, frame_pool(stack));
    }
}

/// Node `i` of the level is where a scan down from `hi` starts.
pub open spec fn ends_at<KF: KeyFormat>(
    kf: &KF,
    l: Level<Model<KF>>,
    i: int,
    hi: Option<Model<KF>>,
) -> bool {
    match hi {
        Some(k) => covers(kf, l, i, k),
        None => i == l.len() - 1 && l.len() > 0,
    }
}

/// The low bound of child `c` of directory `n`, which starts at `lo`.
spec fn child_low<K, V>(n: NodeM<K, V>, c: int, lo: Option<K>) -> Option<K> {
    if c > 0 {
        Some(n.keys[c - 1])
    } else {
        lo
    }
}

/// Directory `n`, as it was read, leads to nodes of the tree: it starts at `lo`, its
/// children are on the level below and start at its keys, and its link leads on where it
/// ends.
spec fn leads_down<KF: KeyFormat, V>(
    kf: &KF,
    levels: Seq<Level<Model<KF>>>,
    lv: int,
    recid: u64,
    n: NodeM<Model<KF>, V>,
    lo: Option<Model<KF>>,
) -> bool {
    &&& 0 < lv < levels.len()
    &&& starts_in(levels[lv], recid, lo)
    &&& forall|c: int|
        #![trigger n.children()[c]]
        0 <= c < n.children().len() ==> starts_in(
            levels[lv - 1],
            n.children()[c],
            child_low(n, c, lo),
        )
    &&& n.link != 0 ==> starts_in(levels[lv], n.link, n.high()) && (n.high() matches Some(h)
        && above(kf, lo, h))
}

/// Nodes that still start where they did are still led to.
proof fn lemma_leads_kept<KF: KeyFormat, V>(
    kf: &KF,
    a: Seq<Level<Model<KF>>>,
    b: Seq<Level<Model<KF>>>,
    lv: int,
    recid: u64,
    n: NodeM<Model<KF>, V>,
    lo: Option<Model<KF>>,
)
    requires
        levels_kept(a, b),
        leads_down(kf, a, lv, recid, n, lo),
    ensures
        leads_down(kf, b, lv, recid, n, lo),
{
    lemma_levels_at(a, b, lv);
    lemma_levels_at(a, b, lv - 1);
    lemma_starts_in(a[lv], b[lv], recid, lo);
    assert forall|c: int| #![trigger n.children()[c]] 0 <= c < n.children().len()
        implies starts_in(b[lv - 1], n.children()[c], child_low(n, c, lo)) by {
        lemma_starts_in(a[lv - 1], b[lv - 1], n.children()[c], child_low(n, c, lo));
    }
    if n.link != 0 {
        lemma_starts_in(a[lv], b[lv], n.link, n.high());
    }
}

/// A walk that stands at node `pos` of level `lv` went through higher levels, and on this
/// one left of it only.
spec fn came_down<K>(t: Tree<K>, visited: Set<u64>, lv: int, pos: int) -> bool {
    forall|x: u64| #[trigger]
        visited.contains(x) ==> t.owner.contains_key(x) && (t.owner[x] matches Owner::Level(m) && (m
            > lv || m == lv && exists|y: int|
            #![trigger t.levels[lv][y]]
            0 <= y < pos && y < t.levels[lv].len() && t.levels[lv][y].0 == x))
}

/// A node that starts higher lies further right.
proof fn lemma_low_order<KF: KeyFormat>(kf: &KF, l: Level<Model<KF>>, i: int, j: int)
    requires
        bounds_sorted(kf, l),
        0 <= i < l.len(),
        0 <= j < l.len(),
        low(l, j) matches Some(h) && above(kf, low(l, i), h),
    ensures
        i < j,
{
    broadcast use group_key_order;

    if j < i {
        assert(l[i - 1].1 is Some && l[j - 1].1 is Some);
        assert(kf.lt(l[j - 1].1.unwrap(), l[i - 1].1.unwrap()));
    }
}

impl<KF: KeyFormat, VF: Serializer> BTreeMap<KF, VF> {
    /// Frame `x` of a kept path leads to nodes of the tree.
    spec fn frame_ok(&self, stack: Seq<RevFrame<KF, VF>>, x: int) -> bool {
        let f = stack[x];
        leads_down(
            &self.key_format,
            self.tree@.levels,
            f.level@,
            f.recid,
            f.node@,
            deepest(stack, x + 1),
        )
    }

    spec fn frames_ok(&self, stack: Seq<RevFrame<KF, VF>>) -> bool {
        forall|x: int| 0 <= x < stack.len() ==> #[trigger] self.frame_ok(stack, x)
    }

    /// A part of a kept path is a kept path.
    proof fn lemma_frames_prefix(
        &self,
        a: Seq<RevFrame<KF, VF>>,
        b: Seq<RevFrame<KF, VF>>,
    )
        requires
            self.frames_ok(a),
            b.len() <= a.len(),
            forall|x: int| 0 <= x < b.len() ==> b[x] == a[x],
        ensures
            self.frames_ok(b),
    {
        assert forall|x: int| 0 <= x < b.len() implies #[trigger] self.frame_ok(b, x) by {
            assert(self.frame_ok(a, x));
            lemma_deepest_same(a, b, x + 1);
        }
    }

    /// A path with one more directory.
    proof fn lemma_frames_push(
        &self,
        a: Seq<RevFrame<KF, VF>>,
        f: RevFrame<KF, VF>,
        lo: Option<Model<KF>>,
    )
        requires
            self.frames_ok(a),
            leads_down(&self.key_format, self.tree@.levels, f.level@, f.recid, f.node@, lo),
            lo == match opt_model(f.sep) {
                Some(k) => Some(k),
                None => deepest(a, a.len() as int),
            },
        ensures
            self.frames_ok(a.push(f)),
            deepest(a.push(f), (a.len() + 1) as int) == lo,
    {
        let b = a.push(f);
        lemma_deepest_same(a, b, a.len() as int);
        assert(b[a.len() as int] == f);
        assert forall|x: int| 0 <= x < b.len() implies #[trigger] self.frame_ok(b, x) by {
            if x < a.len() {
                assert(self.frame_ok(a, x));
                lemma_deepest_same(a, b, x + 1);
            }
        }
    }

    /// A directory of the tree leads to nodes of the tree.
    proof fn lemma_dir_leads(&self, records: Records, lv: int, j: int)
        requires
            self.wf(records),
            0 < lv < self.tree@.levels.len(),
            0 <= j < self.tree@.levels[lv].len(),
        ensures
            ({
                let p = self.tree@.levels[lv];
                let n = self.nodes(records)[p[j].0];
                leads_down(&self.key_format, self.tree@.levels, lv, p[j].0, n, low(p, j))
            }),
    {
        let t = self.tree@;
        let nodes = self.nodes(records);
        let kf = &self.key_format;
        let p = t.levels[lv];
        let sub = t.levels[lv - 1];
        let off = t.offs[lv - 1];
        let n = nodes[p[j].0];
        let lo = low(p, j);
        assert(level_ok(kf, self.value_inline, nodes, t.levels[lv], lv > 0));
        assert(level_ok(kf, self.value_inline, nodes, t.levels[lv - 1], lv - 1 > 0));
        assert(parent_ok(nodes, t.levels[lv - 1 + 1], t.levels[lv - 1], t.offs[lv - 1]));
        assert(level_node(kf, self.value_inline, nodes, p, j, true));
        assert(parent_node(nodes, p, sub, off, j));
        lemma_first_child_low(kf, self.value_inline, nodes, p, sub, off, j);
        assert(p[j].0 == p[j].0 && starts_in(p, p[j].0, lo));
        assert forall|c: int| #![trigger n.children()[c]] 0 <= c < n.children().len()
            implies starts_in(sub, n.children()[c], child_low(n, c, lo)) by {
            assert(n.children()[c] == sub[off[j] + c].0);
            if c > 0 {
                assert(n.children()[c - 1] == sub[off[j] + (c - 1)].0);
                assert(low(sub, off[j] + c) == Some(n.keys[c - 1]));
            }
        }
        if n.link != 0 {
            assert(p[j + 1].0 == n.link);
            assert(low(p, j + 1) == n.high());
            assert(above(kf, lo, n.keys[n.keys.len() - 1]));
        }
    }

    /// A walk down does not come to a node twice.
    proof fn lemma_came_down(&self, records: Records, visited: Set<u64>, lv: int, pos: int)
        requires
            self.wf(records),
            0 <= lv < self.tree@.levels.len(),
            0 <= pos < self.tree@.levels[lv].len(),
            came_down(self.tree@, visited, lv, pos),
        ensures
            ({
                let recid = self.tree@.levels[lv][pos].0;
                &&& !visited.contains(recid)
                &&& forall|p2: int|
                    p2 > pos ==> #[trigger] came_down(self.tree@, visited.insert(recid), lv, p2)
                &&& forall|l2: int, p2: int|
                    l2 < lv ==> #[trigger] came_down(self.tree@, visited.insert(recid), l2, p2)
            }),
    {
        let t = self.tree@;
        let e = t.levels[lv][pos];
        assert(t.owner.contains_key(e.0) && t.owner[e.0] == Owner::<Model<KF>>::Level(lv as nat));
        assert(level_ok(
            &self.key_format,
            self.value_inline,
            self.nodes(records),
            t.levels[lv],
            lv > 0,
        ));
        if visited.contains(e.0) {
            let y = choose|y: int|
                #![trigger t.levels[lv][y]]
                0 <= y < pos && y < t.levels[lv].len() && t.levels[lv][y].0 == e.0;
            lemma_level_distinct(
                &self.key_format,
                self.value_inline,
                self.nodes(records),
                t.levels[lv],
                lv > 0,
                y,
                pos,
            );
        }
        let v2 = visited.insert(e.0);
        assert forall|p2: int| p2 > pos implies #[trigger] came_down(t, v2, lv, p2) by {
            assert forall|x: u64| #[trigger] v2.contains(x) implies t.owner.contains_key(x) && (
            t.owner[x] matches Owner::Level(m) && (m > lv || m == lv && exists|y: int|
                #![trigger t.levels[lv][y]]
                0 <= y < p2 && y < t.levels[lv].len() && t.levels[lv][y].0 == x)) by {
                if x == e.0 {
                    assert(t.levels[lv][pos].0 == x);
                } else {
                    assert(visited.contains(x));
                }
            }
        }
        assert forall|l2: int, p2: int| l2 < lv implies #[trigger] came_down(t, v2, l2, p2) by {
            assert forall|x: u64| #[trigger] v2.contains(x) implies t.owner.contains_key(x) && (
            t.owner[x] matches Owner::Level(m) && m > l2) by {
                if x != e.0 {
                    assert(visited.contains(x));
                }
            }
        }
    }

    /// Takes the directories off the path that lie right of the bound.
    fn trim_frames(
        &self,
        stack: &mut Vec<RevFrame<KF, VF>>,
        hi: Option<&KF::Item>,
    )
        ensures
            final(stack)@.len() <= old(stack)@.len(),
            forall|x: int| 0 <= x < final(stack)@.len() ==> final(stack)@[x] == old(stack)@[x],
            hi is None ==> final(stack)@.len() == 0,
            hi matches Some(b) ==> above(
                &self.key_format,
                deepest(final(stack)@, final(stack)@.len() as int),
                b@,
            ),
            self.frames_ok(old(stack)@) ==> self.frames_ok(final(stack)@),
    {
        let ghost s0 = stack@;
        match hi {
            None => {
                stack.clear();
            },
            Some(b) => {
                let mut keep: usize = stack.len();
                let mut x: usize = stack.len();
                let mut found = false;
                while x > 0 && !found
                    invariant
                        x <= keep <= s0.len(),
                        stack@ == s0,
                        forall|y: int| x <= y < keep && !found ==> (#[trigger] s0[y]).sep is None,
                        found ==> x < keep && (s0[x as int].sep matches Some(s)
                            && self.key_format.lt(s@, b@)) && forall|y: int|
                            x < y < keep ==> (#[trigger] s0[y]).sep is None,
                    decreases x + if found { 0int } else { 1 },
                {
                    x = x - 1;
                    match &stack[x].sep {
                        None => {},
                        Some(s) => {
                            if self.key_format.less(s, b) {
                                found = true;
                            } else {
                                keep = x;
                            }
                        },
                    }
                }
                stack.truncate(keep);
                proof {
                    let s1 = stack@;
                    lemma_deepest_same(s0, s1, keep as int);
                    if found {
                        lemma_deepest_skip(s0, keep as int, x + 1);
                    } else {
                        lemma_deepest_skip(s0, keep as int, 0);
                    }
                }
            },
        }
        proof {
            if self.frames_ok(s0) {
                self.lemma_frames_prefix(s0, stack@);
            }
        }
    }

    /// The separator closest to the left of a kept path.
    fn closest_separator(&self, stack: &Vec<RevFrame<KF, VF>>) -> (r: Option<KF::Item>)
        ensures
            opt_model(r) == deepest(stack@, stack@.len() as int),
            r matches Some(k) ==> frame_pool(stack@).contains(k@),
    {
        let mut x: usize = stack.len();
        while x > 0
            invariant
                x <= stack@.len(),
                deepest(stack@, x as int) == deepest(stack@, stack@.len() as int),
            decreases x,
        {
            x = x - 1;
            match &stack[x].sep {
                Some(s) => {
                    let k = self.key_format.dup(s);
                    assert(opt_model(stack@[x as int].sep) == Some(k@));
                    return Some(k);
                },
                None => {},
            }
        }
        None
    }

    /// Walks down towards the leaf where a scan down from `hi` starts, keeping the path.
    /// Answers a leaf that is not right of it, and the separator left of that leaf.
    #[verifier::spinoff_prover]
    #[verifier::rlimit(60)]
    fn descend_right<S: Store>(
        &self,
        store: &S,
        stack: &mut Vec<RevFrame<KF, VF>>,
        hi: Option<&KF::Item>,
        cyc: &mut CycleGuard,
    ) -> (r: Result<(Node<KF, VF>, Option<KF::Item>, Ghost<int>)>)
        requires
            self.frames_sound(old(stack)@),
            old(cyc).ok(),
            old(cyc).visited() == Set::<u64>::empty(),
            hi is None ==> old(stack)@.len() == 0,
            hi matches Some(b) ==> above(
                &self.key_format,
                deepest(old(stack)@, old(stack)@.len() as int),
                b@,
            ),
        ensures
            blames(store.state(), r),
            old(stack)@.len() == 0 ==> self.refuses(store.state(), r),
            self.frames_sound(final(stack)@),
            final(cyc).ok(),
            r matches Ok((n, s, i)) ==> {
                let pool = key_pool(self.nodes(store.state().records)).union(
                    frame_pool(old(stack)@),
                );
                &&& node_ok(&self.key_format, self.value_inline, n@)
                &&& !n@.dir()
                &&& n@.keys.to_set().subset_of(pool)
                &&& s matches Some(k) ==> pool.contains(k@)
                &&& frame_pool(final(stack)@).subset_of(pool)
            },
            self.wf(store.state().records) && self.frames_ok(
                old(stack)@,
            ) ==> served(store.state(), r) && (r matches Ok((n, s, i)) ==> {
                let l = self.tree@.levels[0];
                &&& 0 <= i@ < l.len()
                &&& n@ == self.nodes(store.state().records)[l[i@].0]
                &&& opt_model(s) == low(l, i@)
                &&& hi matches Some(b) ==> above(&self.key_format, low(l, i@), b@)
                &&& self.frames_ok(final(stack)@)
                &&& came_down(self.tree@, final(cyc).visited(), 0, i@)
            }),
    {
        let ghost records = store.state().records;
        let ghost nodes = self.nodes(records);
        let ghost t = self.tree@;
        let ghost top = t.levels.len() - 1;
        let ghost him = opt_ref_model(hi);
        let ghost pool = key_pool(nodes).union(frame_pool(old(stack)@));
        let ghost good = self.wf(records) && self.frames_ok(old(stack)@);
        proof {
            lemma_every_recid();
            if good {
                self.lemma_root(records);
                assert(level_ok(
                    &self.key_format,
                    self.value_inline,
                    nodes,
                    t.levels[top],
                    top > 0,
                ));
                assert(level_node(
                    &self.key_format,
                    self.value_inline,
                    nodes,
                    t.levels[top],
                    0,
                    top > 0,
                ));
            }
        }
        if stack.len() == 0 {
            let root: u64 = match self.root_recid(store) {
                Ok(x) => x,
                Err(e) => {
                    return Err(e);
                },
            };
            let node = match self.load(store, root) {
                Ok(x) => x,
                Err(e) => {
                    return Err(e);
                },
            };
            proof {
                self.lemma_loaded_keys(store, root, node@);
                assert forall|k: Model<KF>| node@.keys.to_set().contains(k)
                    implies pool.contains(k) by {
                    assert(key_pool(nodes).union(node@.keys.to_set()).contains(k));
                }
            }
            if !node.is_dir() {
                assert(frame_pool(stack@) =~= Set::empty());
                return Ok((node, None, Ghost(0)));
            }
            let ghost s0 = stack@;
            stack.push(RevFrame { recid: root, node, sep: None, level: Ghost(top) });
            proof {
                assert forall|k: Model<KF>| frame_pool(stack@).contains(k)
                    implies pool.contains(k) by {
                    let x = choose|x: int|
                        0 <= x < stack@.len() && ((#[trigger] stack@[x]).node@.keys.contains(k)
                            || opt_model(stack@[x].sep) == Some(k));
                    assert(node@.keys.to_set().contains(k));
                }
                if good {
                    self.lemma_dir_leads(records, top, 0);
                    self.lemma_frames_push(s0, stack@[0], None);
                    assert(stack@ =~= s0.push(stack@[0]));
                }
            }
        }
        let mut step_down = self.closest_separator(stack);
        let ghost mut pos = 0int;
        proof {
            if good {
                let f = stack@[stack@.len() - 1];
                assert(self.frame_ok(stack@, stack@.len() - 1));
                let p = t.levels[f.level@];
                pos = choose|j: int|
                    #![trigger p[j]]
                    0 <= j < p.len() && p[j].0 == f.recid && low(p, j) == deepest(
                        stack@,
                        stack@.len() as int,
                    );
            }
        }
        loop
            invariant
                old(stack)@.len() == 0 ==> !self.spoiled() && !store.state().closed,
                cyc.ok(),
                every_recid().finite(),
                forall|s: Set<u64>| #[trigger] s.subset_of(every_recid()),
                records == store.state().records,
                nodes == self.nodes(records),
                t == self.tree@,
                top == t.levels.len() - 1,
                him == opt_ref_model(hi),
                pool == key_pool(nodes).union(frame_pool(old(stack)@)),
                good == (self.wf(records) && self.frames_ok(
                    old(stack)@,
                )),
                stack@.len() > 0,
                self.frames_sound(stack@),
                frame_pool(stack@).subset_of(pool),
                step_down matches Some(k) ==> pool.contains(k@),
                good ==> {
                    let f = stack@[stack@.len() - 1];
                    let p = t.levels[f.level@];
                    &&& self.frames_ok(stack@)
                    &&& 0 < f.level@ < t.levels.len()
                    &&& 0 <= pos < p.len()
                    &&& p[pos].0 == f.recid
                    &&& low(p, pos) == deepest(stack@, stack@.len() as int)
                    &&& opt_model(step_down) == low(p, pos)
                    &&& him matches Some(k) ==> above(&self.key_format, low(p, pos), k)
                    &&& came_down(t, cyc.visited(), f.level@, pos)
                },
            decreases cyc.fuel(every_recid()),
        {
            let last: usize = stack.len() - 1;
            let ghost lv = stack@[last as int].level@;
            let ghost nm = stack@[last as int].node@;
            let recid: u64 = stack[last].recid;
            let ghost v0 = cyc.visited();
            proof {
                if good {
                    assert(self.frame_ok(stack@, last as int));
                    self.lemma_came_down(records, v0, lv, pos);
                }
            }
            match cyc.visit(recid) {
                Ok(_) => {},
                Err(e) => {
                    return Err(e);
                },
            }
            let idx: Option<usize> = match hi {
                None => {
                    if stack[last].node.link != 0 {
                        None
                    } else {
                        let len: usize = stack[last].node.children().len();
                        if len == 0 {
                            return Err(DbError::corrupt("dir node with no children"));
                        }
                        Some(len - 1)
                    }
                },
                Some(k) => self.route_child(&stack[last].node, k),
            };
            match idx {
                None => {
                    let (leaf, sep, next) = match self.ride_link(store, stack, Ghost(pool)) {
                        Ok(x) => x,
                        Err(e) => {
                            return Err(e);
                        },
                    };
                    proof {
                        if good {
                            let p = t.levels[lv];
                            assert(level_ok(
                                &self.key_format,
                                self.value_inline,
                                nodes,
                                t.levels[lv],
                                lv > 0,
                            ));
                            lemma_low_order(&self.key_format, p, pos, next@);
                            pos = next@;
                        }
                    }
                    if sep.is_some() {
                        step_down = sep;
                    }
                    match leaf {
                        Some(n) => {
                            return Ok((n, step_down, Ghost(0)));
                        },
                        None => {},
                    }
                },
                Some(c) => {
                    let (leaf, sep, next) = match self.take_child(
                        store,
                        stack,
                        c,
                        Ghost(pool),
                        Ghost(him),
                    ) {
                        Ok(x) => x,
                        Err(e) => {
                            return Err(e);
                        },
                    };
                    proof {
                        pos = next@;
                    }
                    if sep.is_some() {
                        step_down = sep;
                    }
                    match leaf {
                        Some(n) => {
                            return Ok((n, step_down, next));
                        },
                        None => {},
                    }
                },
            }
        }
    }

    /// Goes from the last directory of a kept path to its right neighbour.
    fn ride_link<S: Store>(
        &self,
        store: &S,
        stack: &mut Vec<RevFrame<KF, VF>>,
        Ghost(pool): Ghost<Set<Model<KF>>>,
    ) -> (r: Result<(Option<Node<KF, VF>>, Option<KF::Item>, Ghost<int>)>)
        requires
            old(stack)@.len() > 0,
            self.frames_sound(old(stack)@),
        ensures
            blames(store.state(), r),
            self.frames_sound(final(stack)@),
            frame_pool(old(stack)@).subset_of(pool) && key_pool(
                self.nodes(store.state().records),
            ).subset_of(pool) ==> (r matches Ok((leaf, sep, i)) ==> {
                &&& frame_pool(final(stack)@).subset_of(pool)
                &&& sep matches Some(k) ==> pool.contains(k@)
                &&& leaf matches Some(n) ==> n@.keys.to_set().subset_of(pool)
            }),
            r matches Ok((leaf, sep, i)) ==> {
                &&& leaf matches Some(n) ==> node_ok(&self.key_format, self.value_inline, n@)
                    && !n@.dir()
                &&& leaf is None ==> final(stack)@.len() > 0
            },
            self.wf(store.state().records) && self.frames_ok(old(stack)@)
                && old(stack)@.last().node@.link != 0 ==> served(store.state(), r)
                    && (r matches Ok((leaf, sep, i)) ==> {
                let s1 = final(stack)@;
                let n = old(stack)@.last().node@;
                let p = self.tree@.levels[s1.last().level@];
                &&& leaf is None
                &&& s1.len() == old(stack)@.len()
                &&& s1.last().level@ == old(stack)@.last().level@
                &&& self.frames_ok(s1)
                &&& 0 <= i@ < p.len()
                &&& p[i@].0 == s1.last().recid
                &&& low(p, i@) == n.high()
                &&& opt_model(sep) == n.high()
                &&& deepest(s1, s1.len() as int) == n.high()
            }),
    {
        let ghost s0 = stack@;
        let ghost records = store.state().records;
        let last: usize = stack.len() - 1;
        let ghost nm = stack@[last as int].node@;
        let ghost lv = stack@[last as int].level@;
        let ghost good = self.wf(records) && self.frames_ok(s0)
            && nm.link != 0;
        let ghost mut i = 0int;
        let link: u64 = stack[last].node.link;
        proof {
            if good {
                let p = self.tree@.levels[lv];
                assert(self.frame_ok(s0, last as int));
                i = choose|j: int|
                    #![trigger p[j]]
                    0 <= j < p.len() && p[j].0 == link && low(p, j) == nm.high();
                assert(level_ok(
                    &self.key_format,
                    self.value_inline,
                    self.nodes(records),
                    self.tree@.levels[lv],
                    lv > 0,
                ));
                assert(level_node(
                    &self.key_format,
                    self.value_inline,
                    self.nodes(records),
                    p,
                    i,
                    true,
                ));
                self.lemma_dir_leads(records, lv, i);
            }
        }
        let nkeys: usize = stack[last].node.keys.len();
        let sep: Option<KF::Item> = if nkeys > 0 {
            Some(self.key_format.dup(&stack[last].node.keys[nkeys - 1]))
        } else {
            None
        };
        let kept: Option<KF::Item> = if nkeys > 0 {
            Some(self.key_format.dup(&stack[last].node.keys[nkeys - 1]))
        } else {
            None
        };
        proof {
            if let Some(k) = opt_model(sep) {
                assert(nm.keys[nkeys - 1] == k);
                assert(nm.keys.contains(k));
                assert(frame_pool(stack@).contains(k));
            }
        }
        let node = match self.load(store, link) {
            Ok(x) => x,
            Err(e) => {
                return Err(e);
            },
        };
        let _gone = stack.pop();
        proof {
            self.lemma_loaded_keys(store, link, node@);
            if frame_pool(s0).subset_of(pool) && key_pool(
                self.nodes(store.state().records),
            ).subset_of(pool) {
                self.lemma_pool_push(
                    s0,
                    stack@,
                    node@,
                    opt_model(sep),
                    self.nodes(store.state().records),
                    pool,
                );
            }
        }
        if !node.is_dir() {
            return Ok((Some(node), sep, Ghost(i)));
        }
        let ghost s1 = stack@;
        stack.push(RevFrame { recid: link, node, sep: kept, level: Ghost(lv) });
        proof {
            if good {
                self.lemma_frames_prefix(s0, s1);
                self.lemma_frames_push(s1, stack@.last(), nm.high());
                assert(stack@ =~= s1.push(stack@.last()));
            }
        }
        Ok((None, sep, Ghost(i)))
    }

    /// Goes from the last directory of a kept path to one of its children, which is
    /// kept too unless it is a leaf.
    fn take_child<S: Store>(
        &self,
        store: &S,
        stack: &mut Vec<RevFrame<KF, VF>>,
        c: usize,
        Ghost(pool): Ghost<Set<Model<KF>>>,
        Ghost(hi): Ghost<Option<Model<KF>>>,
    ) -> (r: Result<(Option<Node<KF, VF>>, Option<KF::Item>, Ghost<int>)>)
        requires
            old(stack)@.len() > 0,
            self.frames_sound(old(stack)@),
            c < old(stack)@.last().node@.children().len(),
        ensures
            blames(store.state(), r),
            self.frames_sound(final(stack)@),
            frame_pool(old(stack)@).subset_of(pool) && key_pool(
                self.nodes(store.state().records),
            ).subset_of(pool) ==> (r matches Ok((leaf, sep, i)) ==> {
                &&& frame_pool(final(stack)@).subset_of(pool)
                &&& sep matches Some(k) ==> pool.contains(k@)
                &&& leaf matches Some(n) ==> n@.keys.to_set().subset_of(pool)
            }),
            r matches Ok((leaf, sep, i)) ==> {
                &&& leaf matches Some(n) ==> node_ok(&self.key_format, self.value_inline, n@)
                    && !n@.dir()
                &&& leaf is None ==> final(stack)@.len() > 0
            },
            self.can_take(store.state(), old(stack)@, c as int, hi)
                ==> served(store.state(), r) && (
            r matches Ok((leaf, sep, i)) ==> {
                let s0 = old(stack)@;
                let s1 = final(stack)@;
                let lv = s0.last().level@;
                let sub = self.tree@.levels[lv - 1];
                let lo = match opt_model(sep) {
                    Some(k) => Some(k),
                    None => deepest(s0, s0.len() as int),
                };
                &&& self.frames_ok(s1)
                &&& 0 <= i@ < sub.len()
                &&& low(sub, i@) == lo
                &&& hi matches Some(k) ==> above(&self.key_format, lo, k)
                &&& leaf matches Some(n) ==> lv == 1 && n@ == self.nodes(
                    store.state().records,
                )[sub[i@].0]
                &&& leaf is None ==> {
                    &&& lv > 1
                    &&& s1.len() == s0.len() + 1
                    &&& s1.last().level@ == lv - 1
                    &&& sub[i@].0 == s1.last().recid
                    &&& deepest(s1, s1.len() as int) == lo
                }
            }),
    {
        let ghost records = store.state().records;
        let ghost nodes = self.nodes(records);
        let ghost s0 = stack@;
        let ghost t = self.tree@;
        let ghost lv = s0.last().level@;
        let ghost good = self.can_take(store.state(), s0, c as int, hi);
        let ghost mut i = 0int;
        let last: usize = stack.len() - 1;
        let ghost nm = stack@[last as int].node@;
        let child: u64 = stack[last].node.children()[c];
        let sep: Option<KF::Item> = if c > 0 && c - 1 < stack[last].node.keys.len() {
            Some(self.key_format.dup(&stack[last].node.keys[c - 1]))
        } else {
            None
        };
        let kept: Option<KF::Item> = if c > 0 && c - 1 < stack[last].node.keys.len() {
            Some(self.key_format.dup(&stack[last].node.keys[c - 1]))
        } else {
            None
        };
        proof {
            if let Some(k) = opt_model(sep) {
                assert(nm.keys[c - 1] == k);
                assert(nm.keys.contains(k));
                assert(frame_pool(stack@).contains(k));
            }
            if good {
                broadcast use group_key_order;

                let lo = deepest(s0, s0.len() as int);
                let sub = t.levels[lv - 1];
                assert(self.frame_ok(s0, last as int));
                assert(nm.children()[c as int] == child);
                i = choose|j: int|
                    #![trigger sub[j]]
                    0 <= j < sub.len() && sub[j].0 == child && low(sub, j) == child_low(
                        nm,
                        c as int,
                        lo,
                    );
                assert(level_ok(
                    &self.key_format,
                    self.value_inline,
                    nodes,
                    t.levels[lv - 1],
                    lv - 1 > 0,
                ));
                assert(level_node(&self.key_format, self.value_inline, nodes, sub, i, lv - 1 > 0));
                if lv > 1 {
                    self.lemma_dir_leads(records, lv - 1, i);
                }
                if hi is Some && c > 0 && c < nm.keys.len() {
                    assert(self.key_format.lt(nm.keys[c - 1], nm.keys[c as int]));
                }
            }
        }
        let node = match self.load(store, child) {
            Ok(x) => x,
            Err(e) => {
                return Err(e);
            },
        };
        proof {
            self.lemma_loaded_keys(store, child, node@);
            if frame_pool(s0).subset_of(pool) && key_pool(nodes).subset_of(pool) {
                self.lemma_pool_push(s0, s0, node@, opt_model(sep), nodes, pool);
            }
        }
        if !node.is_dir() {
            return Ok((Some(node), sep, Ghost(i)));
        }
        stack.push(RevFrame { recid: child, node, sep: kept, level: Ghost(lv - 1) });
        proof {
            if good {
                self.lemma_frames_push(s0, stack@.last(), low(t.levels[lv - 1], i));
                assert(stack@ =~= s0.push(stack@.last()));
            }
        }
        Ok((None, sep, Ghost(i)))
    }

    /// Child `c` of the last directory of the path is the way down from `hi`.
    spec fn can_take(
        &self,
        st: StoreState,
        stack: Seq<RevFrame<KF, VF>>,
        c: int,
        hi: Option<Model<KF>>,
    ) -> bool {
        let n = stack.last().node@;
        &&& self.wf(st.records)
        &&& self.frames_ok(stack)
        &&& 0 <= c < n.children().len()
        &&& hi matches Some(k) ==> super::position(&self.key_format, n.keys, k, c) && above(
            &self.key_format,
            deepest(stack, stack.len() as int),
            k,
        )
    }

    /// Every node of a kept path is a directory in order.
    spec fn frames_sound(&self, stack: Seq<RevFrame<KF, VF>>) -> bool {
        forall|x: int|
            0 <= x < stack.len() ==> node_ok(
                &self.key_format,
                self.value_inline,
                (#[trigger] stack[x]).node@,
            ) && stack[x].node@.dir()
    }

    /// A longer path has no keys that the store or the path did not have.
    proof fn lemma_pool_push(
        &self,
        s0: Seq<RevFrame<KF, VF>>,
        s1: Seq<RevFrame<KF, VF>>,
        n: NodeM<Model<KF>, Model<VF>>,
        sep: Option<Model<KF>>,
        nodes: Map<u64, NodeM<Model<KF>, Model<VF>>>,
        pool: Set<Model<KF>>,
    )
        requires
            frame_pool(s0).subset_of(pool),
            s1.len() <= s0.len(),
            forall|x: int| 0 <= x < s1.len() ==> s1[x] == s0[x],
            key_pool(nodes).union(n.keys.to_set()) == key_pool(nodes),
            key_pool(nodes).subset_of(pool),
            sep matches Some(k) ==> pool.contains(k),
        ensures
            frame_pool(s1).subset_of(pool),
            n.keys.to_set().subset_of(pool),
            forall|f: RevFrame<KF, VF>|
                f.node@ == n && opt_model(f.sep) == sep ==> #[trigger] frame_pool(
                    s1.push(f),
                ).subset_of(pool),
    {
        assert forall|k: Model<KF>| n.keys.to_set().contains(k) implies pool.contains(k) by {
            assert(key_pool(nodes).union(n.keys.to_set()).contains(k));
        }
        assert forall|k: Model<KF>| frame_pool(s1).contains(k) implies pool.contains(k) by {
            let x = choose|x: int|
                0 <= x < s1.len() && ((#[trigger] s1[x]).node@.keys.contains(k) || opt_model(
                    s1[x].sep,
                ) == Some(k));
            assert(s0[x] == s1[x]);
            assert(frame_pool(s0).contains(k));
        }
        assert forall|f: RevFrame<KF, VF>|
            f.node@ == n && opt_model(f.sep) == sep implies #[trigger] frame_pool(
            s1.push(f),
        ).subset_of(pool) by {
            let s2 = s1.push(f);
            assert forall|k: Model<KF>| frame_pool(s2).contains(k) implies pool.contains(k) by {
                let x = choose|x: int|
                    0 <= x < s2.len() && ((#[trigger] s2[x]).node@.keys.contains(k) || opt_model(
                        s2[x].sep,
                    ) == Some(k));
                if x < s1.len() {
                    assert(s2[x] == s1[x]);
                    assert(frame_pool(s1).contains(k));
                } else {
                    assert(n.keys.contains(k) ==> n.keys.to_set().contains(k));
                }
            }
        }
    }

    /// One step of a descending scan: the entries of the range in the leaf where
    /// `hi` belongs, and the upper bound of the entries that are left.
    fn last_leaf_batch<S: Store>(
        &self,
        store: &S,
        stack: &mut Vec<RevFrame<KF, VF>>,
        lo: Option<&KF::Item>,
        lo_inc: bool,
        hi: Option<&KF::Item>,
        hi_inc: bool,
    ) -> (r: Result<DescendStep<KF, VF>>)
        requires
            self.frames_sound(old(stack)@),
        ensures
            blames(store.state(), r),
            old(stack)@.len() == 0 ==> self.refuses(store.state(), r),
            self.frames_sound(final(stack)@),
            r matches Ok((batch, next, from)) ==> {
                let pool = key_pool(self.nodes(store.state().records)).union(
                    frame_pool(old(stack)@),
                );
                &&& next matches Some(k) ==> pool.contains(k@)
                &&& frame_pool(final(stack)@).subset_of(pool)
            },
            self.wf(store.state().records) && self.frames_ok(
                old(stack)@,
            ) ==> served(store.state(), r) && (r matches Ok((batch, next, from)) ==> {
                let m = self.contents(store.state().records);
                let part = ranged(
                    &self.key_format,
                    m,
                    opt_ref_model(lo),
                    lo_inc,
                    opt_ref_model(hi),
                    hi_inc,
                );
                &&& lists(
                    &self.key_format,
                    entry_models(batch@),
                    ranged(&self.key_format, part, from@, false, None, true),
                )
                &&& next is None ==> forall|k: Model<KF>| #[trigger]
                    part.contains_key(k) ==> above(&self.key_format, from@, k)
                &&& next matches Some(s) ==> from@ == Some(s@) && self.frames_ok(final(stack)@)
                &&& hi matches Some(b) ==> (next matches Some(s) ==> self.key_format.lt(s@, b@))
            }),
    {
        broadcast use group_key_order;

        let ghost records = store.state().records;
        let ghost nodes = self.nodes(records);
        let ghost l = self.tree@.levels[0];
        let ghost m = self.contents(records);
        let ghost lom = opt_ref_model(lo);
        let ghost him = opt_ref_model(hi);
        let ghost pool = key_pool(nodes).union(frame_pool(old(stack)@));
        let ghost good = self.wf(records) && self.frames_ok(old(stack)@);
        let ghost part = ranged(&self.key_format, m, lom, lo_inc, him, hi_inc);
        let mut cyc = CycleGuard::new(CYCLE_DESCENT_SOFT);
        self.trim_frames(stack, hi);
        proof {
            lemma_every_recid();
            assert(frame_pool(stack@).subset_of(frame_pool(old(stack)@))) by {
                assert forall|k: Model<KF>| frame_pool(stack@).contains(k) implies frame_pool(
                    old(stack)@,
                ).contains(k) by {
                    let x = choose|x: int|
                        0 <= x < stack@.len() && ((#[trigger] stack@[x]).node@.keys.contains(k)
                            || opt_model(stack@[x].sep) == Some(k));
                    assert(old(stack)@[x] == stack@[x]);
                }
            }
            assert forall|x: int| 0 <= x < stack@.len() implies node_ok(
                &self.key_format,
                self.value_inline,
                (#[trigger] stack@[x]).node@,
            ) && stack@[x].node@.dir() by {
                assert(old(stack)@[x] == stack@[x]);
            }
        }
        let (node, step, at) = match self.descend_right(store, stack, hi, &mut cyc) {
            Ok(x) => x,
            Err(e) => {
                return Err(e);
            },
        };
        let mut n = node;
        let mut step_down = step;
        let ghost mut i = at@;
        loop
            invariant_except_break
                cyc.ok(),
            invariant
                old(stack)@.len() == 0 ==> !self.spoiled() && !store.state().closed,
                self.frames_sound(stack@),
                every_recid().finite(),
                forall|s: Set<u64>| #[trigger] s.subset_of(every_recid()),
                records == store.state().records,
                nodes == self.nodes(records),
                l == self.tree@.levels[0],
                him == opt_ref_model(hi),
                pool == key_pool(nodes).union(frame_pool(old(stack)@)),
                good == (self.wf(records) && self.frames_ok(
                    old(stack)@,
                )),
                frame_pool(stack@).subset_of(pool),
                step_down matches Some(k) ==> pool.contains(k@),
                node_ok(&self.key_format, self.value_inline, n@),
                n@.keys.to_set().subset_of(pool),
                good ==> {
                    &&& 0 <= i < l.len()
                    &&& n@ == nodes[l[i].0]
                    &&& him matches Some(b) ==> above(&self.key_format, low(l, i), b)
                    &&& self.skips_none(records, opt_model(step_down), i)
                    &&& self.frames_ok(stack@)
                    &&& came_down(self.tree@, cyc.visited(), 0, i + 1)
                },
            ensures
                good ==> ends_at(&self.key_format, l, i, him),
            decreases cyc.fuel(every_recid()),
        {
            proof {
                if good {
                    assert(level_ok(
                        &self.key_format,
                        self.value_inline,
                        nodes,
                        self.tree@.levels[0],
                        false,
                    ));
                    assert(level_node(&self.key_format, self.value_inline, nodes, l, i, false));
                }
            }
            let follow = n.link != 0 && match hi {
                None => true,
                Some(k) => self.beyond_leaf(&n, k),
            };
            if !follow {
                break;
            }
            let sz: usize = n.keys.len();
            proof {
                if good {
                    assert(l[i + 1].0 == n@.link);
                    assert(level_node(&self.key_format, self.value_inline, nodes, l, i + 1, false));
                    self.lemma_skip_leaf(records, opt_model(step_down), i);
                    self.lemma_came_down(records, cyc.visited(), 0, i + 1);
                }
            }
            if sz > 0 {
                step_down = Some(self.key_format.dup(&n.keys[sz - 1]));
                proof {
                    assert(n@.keys[sz - 1] == n.keys@[sz - 1]@);
                    assert(n@.keys.to_set().contains(n@.keys[sz - 1]));
                }
            }
            let link: u64 = n.link;
            match cyc.visit(link) {
                Ok(_) => {},
                Err(e) => {
                    return Err(e);
                },
            }
            n = match self.load(store, link) {
                Ok(x) => x,
                Err(e) => {
                    return Err(e);
                },
            };
            proof {
                self.lemma_loaded_keys(store, link, n@);
                assert forall|k: Model<KF>| n@.keys.to_set().contains(k)
                    implies pool.contains(k) by {
                    assert(key_pool(nodes).union(n@.keys.to_set()).contains(k));
                }
                i = i + 1;
            }
        }
        let (batch, saw_below_lo) = match self.leaf_batch(
            store,
            &n,
            lo,
            lo_inc,
            hi,
            hi_inc,
            Ghost(i),
        ) {
            Ok(x) => x,
            Err(e) => {
                return Err(e);
            },
        };
        let ghost from = opt_model(step_down);
        proof {
            if good {
                self.lemma_step_done(records, i, from, lom, lo_inc, him, hi_inc, saw_below_lo);
            }
        }
        if saw_below_lo {
            Ok((batch, None, Ghost(from)))
        } else {
            Ok((batch, step_down, Ghost(from)))
        }
    }

    /// The map has no entry between `s` and the start of leaf `i`.
    spec fn skips_none(&self, records: Records, s: Option<Model<KF>>, i: int) -> bool {
        let lo = low(self.tree@.levels[0], i);
        &&& low_le(&self.key_format, s, lo)
        &&& forall|k: Model<KF>| #[trigger]
            self.contents(records).contains_key(k) && above(&self.key_format, s, k) ==> above(
                &self.key_format,
                lo,
                k,
            )
    }

    /// Behind a leaf that was passed over, its last key is the bound of what is left.
    proof fn lemma_skip_leaf(&self, records: Records, s: Option<Model<KF>>, i: int)
        requires
            self.wf(records),
            0 <= i < self.tree@.levels[0].len() - 1,
            self.skips_none(records, s, i),
        ensures
            ({
                let l = self.tree@.levels[0];
                let n = self.nodes(records)[l[i].0];
                &&& n.keys.len() == 0 ==> self.skips_none(records, s, i + 1)
                &&& n.keys.len() > 0 ==> self.skips_none(records, Some(n.keys.last()), i + 1)
            }),
    {
        broadcast use group_key_order;

        let kf = &self.key_format;
        let l = self.tree@.levels[0];
        let nodes = self.nodes(records);
        let n = nodes[l[i].0];
        assert(level_ok(kf, self.value_inline, nodes, self.tree@.levels[0], false));
        assert(level_node(kf, self.value_inline, nodes, l, i, false));
        assert(l[i].1 is Some);
        let s2 = if n.keys.len() == 0 {
            s
        } else {
            Some(n.keys.last())
        };
        let lo2 = low(l, i + 1);
        assert(lo2 == l[i].1);
        if n.keys.len() > 0 {
            assert(above(kf, low(l, i), n.keys[n.keys.len() - 1]));
        } else if i > 0 {
            assert(kf.lt(l[i - 1].1.unwrap(), l[i].1.unwrap()));
        }
        assert forall|k: Model<KF>| #[trigger]
            self.contents(records).contains_key(k) && above(kf, s2, k) implies above(
            kf,
            lo2,
            k,
        ) by {
            if n.keys.len() > 0 {
                if let Some(b) = low(l, i) {
                    assert(kf.lt(b, n.keys.last()) && kf.lt(n.keys.last(), k));
                }
            }
            assert(above(kf, low(l, i), k));
            if !above(kf, lo2, k) {
                assert(covers(kf, l, i, k));
                self.lemma_in_leaf(records, i, k);
                let p = choose|p: int| 0 <= p < n.keys.len() && #[trigger] n.keys[p] == k;
                if p < n.keys.len() - 1 {
                    assert(kf.lt(n.keys[p], n.keys[n.keys.len() - 1]));
                }
            }
        }
    }

    /// What is left after a step.
    proof fn lemma_step_done(
        &self,
        records: Records,
        i: int,
        from: Option<Model<KF>>,
        lo: Option<Model<KF>>,
        lo_inc: bool,
        hi: Option<Model<KF>>,
        hi_inc: bool,
        saw: bool,
    )
        requires
            self.wf(records),
            ends_at(&self.key_format, self.tree@.levels[0], i, hi),
            self.skips_none(records, from, i),
            saw ==> exists|x: int|
                0 <= x < self.nodes(records)[self.tree@.levels[0][i].0].keys.len() && !lo_ok(
                    &self.key_format,
                    #[trigger] self.nodes(records)[self.tree@.levels[0][i].0].keys[x],
                    lo,
                    lo_inc,
                ),
        ensures
            ({
                let l = self.tree@.levels[0];
                let part = ranged(&self.key_format, self.contents(records), lo, lo_inc, hi, hi_inc);
                &&& ranged(&self.key_format, part, from, false, None, true) == ranged(
                    &self.key_format,
                    part,
                    low(l, i),
                    false,
                    None,
                    true,
                )
                &&& saw || from is None ==> forall|k: Model<KF>| #[trigger]
                    part.contains_key(k) ==> above(&self.key_format, from, k)
                &&& hi matches Some(b) ==> (from matches Some(s) ==> self.key_format.lt(s, b))
            }),
    {
        broadcast use group_key_order;

        let l = self.tree@.levels[0];
        let nodes = self.nodes(records);
        let kf = &self.key_format;
        let n = nodes[l[i].0];
        let part = ranged(kf, self.contents(records), lo, lo_inc, hi, hi_inc);
        assert(level_ok(kf, self.value_inline, nodes, self.tree@.levels[0], false));
        assert(level_node(kf, self.value_inline, nodes, l, i, false));
        let a = ranged(kf, part, from, false, None, true);
        let b = ranged(kf, part, low(l, i), false, None, true);
        assert forall|k: Model<KF>| a.contains_key(k) == b.contains_key(k) by {
            if part.contains_key(k) {
                assert(self.contents(records).contains_key(k));
            }
        }
        assert(a =~= b);
        if saw {
            let x = choose|x: int|
                0 <= x < n.keys.len() && !lo_ok(kf, #[trigger] n.keys[x], lo, lo_inc);
            assert(above(kf, low(l, i), n.keys[x]));
            assert forall|k: Model<KF>| #[trigger] part.contains_key(k) implies above(
                kf,
                from,
                k,
            ) by {
                if !above(kf, from, k) {
                    assert(kf.lt(k, n.keys[x]));
                }
            }
        }
    }

    /// The entries of a leaf that lie in the range, and whether the leaf has keys
    /// below it.
    fn leaf_batch<S: Store>(
        &self,
        store: &S,
        n: &Node<KF, VF>,
        lo: Option<&KF::Item>,
        lo_inc: bool,
        hi: Option<&KF::Item>,
        hi_inc: bool,
        Ghost(i): Ghost<int>,
    ) -> (r: Result<(Vec<(KF::Item, VF::Item)>, bool)>)
        requires
            node_ok(&self.key_format, self.value_inline, n@),
        ensures
            blames(store.state(), r),
            self.wf(store.state().records) && ends_at(
                &self.key_format,
                self.tree@.levels[0],
                i,
                opt_ref_model(hi),
            ) && n@ == self.nodes(store.state().records)[self.tree@.levels[0][i].0]
                ==> served(store.state(), r) && (r matches Ok(
                (batch, saw),
            ) ==> {
                let l = self.tree@.levels[0];
                let part = ranged(
                    &self.key_format,
                    self.contents(store.state().records),
                    opt_ref_model(lo),
                    lo_inc,
                    opt_ref_model(hi),
                    hi_inc,
                );
                &&& lists(
                    &self.key_format,
                    entry_models(batch@),
                    ranged(&self.key_format, part, low(l, i), false, None, true),
                )
                &&& saw ==> exists|x: int|
                    0 <= x < n@.keys.len() && !lo_ok(
                        &self.key_format,
                        #[trigger] n@.keys[x],
                        opt_ref_model(lo),
                        lo_inc,
                    )
            }),
    {
        let ghost records = store.state().records;
        let ghost l = self.tree@.levels[0];
        let ghost m = self.contents(records);
        let ghost lom = opt_ref_model(lo);
        let ghost him = opt_ref_model(hi);
        let ghost good = self.wf(records) && ends_at(
            &self.key_format,
            l,
            i,
            him,
        ) && n@ == self.nodes(records)[l[i].0];
        let ghost part = ranged(&self.key_format, m, lom, lo_inc, him, hi_inc);
        let ghost want = ranged(&self.key_format, part, low(l, i), false, None, true);
        let mut batch: Vec<(KF::Item, VF::Item)> = Vec::new();
        let mut saw = false;
        let sz: usize = n.keys.len();
        let mut pos: usize = 0;
        let mut stop = false;
        let ghost mut given = Map::<Model<KF>, Model<VF>>::empty();
        while pos < sz && !stop
            invariant
                pos <= sz == n@.keys.len(),
                records == store.state().records,
                l == self.tree@.levels[0],
                m == self.contents(records),
                lom == opt_ref_model(lo),
                him == opt_ref_model(hi),
                node_ok(&self.key_format, self.value_inline, n@),
                good == (self.wf(records) && ends_at(
                    &self.key_format,
                    l,
                    i,
                    him,
                ) && n@ == self.nodes(records)[l[i].0]),
                part == ranged(&self.key_format, m, lom, lo_inc, him, hi_inc),
                want == ranged(&self.key_format, part, low(l, i), false, None, true),
                saw ==> exists|x: int|
                    0 <= x < n@.keys.len() && !lo_ok(
                        &self.key_format,
                        #[trigger] n@.keys[x],
                        lom,
                        lo_inc,
                    ),
                good ==> lists(&self.key_format, entry_models(batch@), given),
                good ==> forall|k: Model<KF>| #[trigger]
                    given.contains_key(k) ==> exists|x: int|
                        0 <= x < pos && #[trigger] n@.keys[x] == k,
                good ==> forall|x: int|
                    0 <= x < pos && in_range(
                        &self.key_format,
                        #[trigger] n@.keys[x],
                        lom,
                        lo_inc,
                        him,
                        hi_inc,
                    ) ==> given.contains_key(n@.keys[x]),
                good ==> forall|k: Model<KF>| #[trigger]
                    given.contains_key(k) ==> want.contains_key(k) && want[k] == given[k],
                stop ==> pos < sz && !hi_ok(&self.key_format, n@.keys[pos as int], him, hi_inc),
            decreases sz - pos, if stop { 0int } else { 1 },
        {
            broadcast use group_key_order;

            let ghost km = n@.keys[pos as int];
            assert(km == n.keys@[pos as int]@);
            let k = &n.keys[pos];
            if below_lo(&self.key_format, k, lo, lo_inc) {
                saw = true;
                pos = pos + 1;
                continue;
            }
            if above_hi(&self.key_format, k, hi, hi_inc) {
                stop = true;
                continue;
            }
            proof {
                if good {
                    self.lemma_at_place(records, i, pos as int);
                    self.lemma_place_value(records, i, pos as int);
                }
            }
            let v = match self.leaf_value_at(store, &n.body, pos) {
                Ok(v) => v,
                Err(e) => {
                    return Err(e);
                },
            };
            let ghost b0 = entry_models(batch@);
            let ghost vm = v@;
            batch.push((self.key_format.dup(k), v));
            proof {
                assert(entry_models(batch@) =~= b0.push((km, vm)));
                if good {
                    assert forall|k2: Model<KF>| #[trigger] given.contains_key(k2)
                        implies self.key_format.lt(
                        k2,
                        km,
                    ) by {
                        let x = choose|x: int| 0 <= x < pos && #[trigger] n@.keys[x] == k2;
                        assert(self.key_format.lt(n@.keys[x], n@.keys[pos as int]));
                    }
                    lemma_lists_push(&self.key_format, b0, given, km, vm);
                    given = given.insert(km, vm);
                }
            }
            pos = pos + 1;
        }
        proof {
            if good {
                broadcast use group_key_order;

                let kf = &self.key_format;
                assert(level_ok(
                    kf,
                    self.value_inline,
                    self.nodes(records),
                    self.tree@.levels[0],
                    false,
                ));
                assert(level_node(kf, self.value_inline, self.nodes(records), l, i, false));
                assert forall|k: Model<KF>| #[trigger] want.contains_key(k)
                    implies given.contains_key(k) by {
                    assert(part.contains_key(k) && m.contains_key(k));
                    assert(covers(kf, l, i, k));
                    self.lemma_in_leaf(records, i, k);
                    let x = choose|x: int| 0 <= x < n@.keys.len() && #[trigger] n@.keys[x] == k;
                    if x >= pos {
                        assert(stop);
                        if x > pos {
                            assert(kf.lt(n@.keys[pos as int], n@.keys[x]));
                        }
                    }
                }
                assert(given =~= want);
            }
        }
        Ok((batch, saw))
    }
}

/// A descending iterator over a range of a map. It holds the entries of one leaf at a
/// time, and goes on where the map changes under way.
pub struct DescendingEntryIter<KF: KeyFormat, VF: Serializer> {
    lo: Option<KF::Item>,
    lo_inc: bool,
    upper: Option<KF::Item>,
    upper_inc: bool,
    upper_open: bool,
    buf: Vec<(KF::Item, VF::Item)>,
    stack: Vec<RevFrame<KF, VF>>,
    done: bool,
}

/// The entries of a listing.
pub open spec fn listed<K, V>(e: Seq<(K, V)>) -> Map<K, V> {
    Map::new(
        |k: K| exists|i: int| 0 <= i < e.len() && (#[trigger] e[i]).0 == k,
        |k: K| e[choose|i: int| 0 <= i < e.len() && (#[trigger] e[i]).0 == k].1,
    )
}

proof fn lemma_listed<KF: KeyFormat, V>(
    kf: &KF,
    e: Seq<(Model<KF>, V)>,
    m: Map<Model<KF>, V>,
)
    requires
        lists(kf, e, m),
    ensures
        listed(e) == m,
{
    assert forall|k: Model<KF>| #[trigger] listed(e).contains_key(k) implies m.contains_key(k)
        && m[k] == listed(e)[k] by {
        let i = choose|i: int| 0 <= i < e.len() && (#[trigger] e[i]).0 == k;
        assert(m[e[i].0] == e[i].1);
    }
    assert(listed(e) =~= m);
}

/// How many of the keys lie below `k`.
spec fn keys_under<KF: KeyFormat>(kf: &KF, pool: Set<Model<KF>>, k: Model<KF>) -> nat {
    pool.filter(|x: Model<KF>| kf.lt(x, k)).len()
}

proof fn lemma_keys_under<KF: KeyFormat>(
    kf: &KF,
    p1: Set<Model<KF>>,
    p2: Set<Model<KF>>,
    k: Model<KF>,
)
    requires
        p1.finite(),
        p2.subset_of(p1),
        p1.contains(k),
    ensures
        keys_under(kf, p2, k) < p1.len(),
        forall|x: Model<KF>| kf.lt(k, x)
            ==> keys_under(kf, p2, k) < #[trigger] keys_under(kf, p1, x),
        keys_under(kf, p2, k) <= keys_under(kf, p1, k),
{
    broadcast use group_key_order;

    let a = p2.filter(|x: Model<KF>| kf.lt(x, k));
    let b = p1.filter(|x: Model<KF>| kf.lt(x, k));
    vstd::set_lib::lemma_set_subset_finite(p1, p2);
    assert(a.subset_of(b));
    vstd::set_lib::lemma_len_subset(a, b);
    assert(!b.contains(k));
    assert(b.subset_of(p1.remove(k)));
    vstd::set_lib::lemma_len_subset(b, p1.remove(k));
    assert forall|x: Model<KF>| kf.lt(k, x) implies keys_under(kf, p2, k) < #[trigger] keys_under(
        kf,
        p1,
        x,
    ) by {
        let c = p1.filter(|y: Model<KF>| kf.lt(y, x));
        assert(c.contains(k));
        assert(b.subset_of(c.remove(k)));
        vstd::set_lib::lemma_len_subset(b, c.remove(k));
    }
}

impl<KF: KeyFormat, VF: Serializer> DescendingEntryIter<KF, VF> {
    pub closed spec fn inv(&self, map: &BTreeMap<KF, VF>) -> bool {
        map.frames_sound(self.stack@)
    }

    /// The entries still to come.
    pub closed spec fn remaining(&self, map: &BTreeMap<KF, VF>, records: Records) -> Map<
        Model<KF>,
        Model<VF>,
    > {
        self.unread(map, records).union_prefer_right(listed(entry_models(self.buf@)))
    }

    /// The entries that are not in the buffer.
    spec fn unread(&self, map: &BTreeMap<KF, VF>, records: Records) -> Map<Model<KF>, Model<VF>> {
        if self.done || (!self.upper_open && self.upper is None) {
            Map::empty()
        } else {
            ranged(
                &map.key_format,
                map.contents(records),
                opt_model(self.lo),
                self.lo_inc,
                self.bound(),
                self.upper_inc,
            )
        }
    }

    spec fn bound(&self) -> Option<Model<KF>> {
        if self.upper_open {
            None
        } else {
            opt_model(self.upper)
        }
    }

    /// The iterator can go on in this map. It need not have been made from the map as it
    /// is now.
    pub closed spec fn stands(&self, map: &BTreeMap<KF, VF>, records: Records) -> bool {
        let e = entry_models(self.buf@);
        &&& lists(&map.key_format, e, listed(e))
        &&& !self.done ==> {
            &&& map.frames_ok(self.stack@)
            &&& e.len() > 0 ==> !self.upper_open
            &&& self.bound() matches Some(u) ==> forall|i: int|
                0 <= i < e.len() ==> map.key_format.lt(u, (#[trigger] e[i]).0)
        }
    }

    /// The iterator is past the key `x`.
    pub closed spec fn past(&self, kf: &KF, x: Model<KF>) -> bool {
        let e = entry_models(self.buf@);
        &&& forall|i: int| 0 <= i < e.len() ==> kf.lt((#[trigger] e[i]).0, x)
        &&& self.done || !self.upper_open && (self.upper is None || !hi_ok(
            kf,
            x,
            self.bound(),
            self.upper_inc,
        ))
    }

    /// An iterator never turns back: a key that is past does not come any more, whatever the
    /// map holds by then.
    pub proof fn law_never_turns_back(
        &self,
        map: &BTreeMap<KF, VF>,
        records: Records,
        x: Model<KF>,
    )
        requires
            self.past(&map.kf(), x),
        ensures
            !self.remaining(map, records).contains_key(x),
    {
        broadcast use group_key_order;

    }

    /// A change of the map does not stop an iterator. What was to come and is in the map as
    /// before still comes, and what comes was to come before or is in the map now.
    pub proof fn law_goes_on_through_changes(
        &self,
        map: &BTreeMap<KF, VF>,
        changed: &BTreeMap<KF, VF>,
        a: StoreState,
        b: StoreState,
        m: Map<Model<KF>, Model<VF>>,
        spent: nat,
    )
        requires
            map.wf(a.records),
            self.stands(map, a.records),
            changed.became(map, a, b, m, spent),
        ensures
            self.stands(changed, b.records),
            ({
                let before = self.remaining(map, a.records);
                let after = self.remaining(changed, b.records);
                &&& forall|k: Model<KF>| #[trigger]
                    before.contains_key(k) && m.contains_key(k) && m[k] == before[k]
                        ==> after.contains_key(k) && after[k] == before[k]
                &&& forall|k: Model<KF>| #[trigger]
                    after.contains_key(k) ==> (before.contains_key(k) && before[k] == after[k]) || (
                    m.contains_key(k) && m[k] == after[k])
            }),
    {
        assert(changed.key_format == map.key_format);
        if !self.done {
            let stack = self.stack@;
            assert forall|x: int| 0 <= x < stack.len() implies #[trigger] changed.frame_ok(
                stack,
                x,
            ) by {
                assert(map.frame_ok(stack, x));
                lemma_leads_kept(
                    &map.key_format,
                    map.tree@.levels,
                    changed.tree@.levels,
                    stack[x].level@,
                    stack[x].recid,
                    stack[x].node@,
                    deepest(stack, x + 1),
                );
            }
        }
    }

    spec fn pool(&self, map: &BTreeMap<KF, VF>, records: Records) -> Set<Model<KF>> {
        key_pool(map.nodes(records)).union(frame_pool(self.stack@))
    }

    /// Together with [`fuel`](Self::fuel) this bounds how many more entries can come.
    pub closed spec fn leaves(&self, map: &BTreeMap<KF, VF>, records: Records) -> nat {
        if self.done {
            0
        } else if self.upper_open {
            self.pool(map, records).len() + 2
        } else {
            match self.upper {
                Some(k) => keys_under(&map.key_format, self.pool(map, records), k@) + 1,
                None => 1,
            }
        }
    }

    pub closed spec fn fuel(&self) -> nat {
        self.buf@.len()
    }

    /// What a step of the iterator gives.
    pub open spec fn step_post(
        old_iter: &Self,
        new_iter: &Self,
        map: &BTreeMap<KF, VF>,
        records: Records,
        r: Option<(Model<KF>, Model<VF>)>,
    ) -> bool {
        let before = old_iter.remaining(map, records);
        let after = new_iter.remaining(map, records);
        &&& new_iter.stands(map, records)
        &&& forall|x: Model<KF>|
            old_iter.past(&map.kf(), x) ==> #[trigger] new_iter.past(&map.kf(), x)
        &&& r matches Some((k, v)) ==> forall|x: Model<KF>|
            !map.kf().lt(x, k) ==> #[trigger] new_iter.past(&map.kf(), x)
        &&& match r {
            None => before == Map::<Model<KF>, Model<VF>>::empty() && after == before,
            Some((k, v)) => is_greatest(&map.kf(), before, k) && before[k] == v && after
                == before.remove(k),
        }
    }

    /// A step leaves less to do.
    pub open spec fn shrinks(
        old_iter: &Self,
        new_iter: &Self,
        map: &BTreeMap<KF, VF>,
        records: Records,
    ) -> bool {
        ||| new_iter.leaves(map, records) < old_iter.leaves(map, records)
        ||| new_iter.leaves(map, records) == old_iter.leaves(map, records) && new_iter.fuel()
            < old_iter.fuel()
    }

    /// The next entry is not known before the map is asked.
    pub closed spec fn asks_first(&self) -> bool {
        &&& !self.done
        &&& self.buf@.len() == 0 && self.stack@.len() == 0
        &&& self.upper_open || self.upper is Some
    }

    /// Nothing more comes.
    pub closed spec fn ended(&self) -> bool {
        self.done && self.buf@.len() == 0
    }

    /// The last entry of the buffer comes next.
    proof fn lemma_pop(&self, after: &Self, map: &BTreeMap<KF, VF>, records: Records)
        requires
            self.stands(map, records),
            self.buf@.len() > 0,
            after.buf@ == self.buf@.drop_last(),
            after.lo == self.lo,
            after.lo_inc == self.lo_inc,
            after.upper == self.upper,
            after.upper_inc == self.upper_inc,
            after.upper_open == self.upper_open,
            after.stack == self.stack,
            after.done == self.done,
        ensures
            Self::step_post(
                self,
                after,
                map,
                records,
                Some((self.buf@.last().0@, self.buf@.last().1@)),
            ),
    {
        broadcast use group_key_order;

        let kf = &map.key_format;
        let rem = self.remaining(map, records);
        let unread = self.unread(map, records);
        let e = entry_models(self.buf@);
        let b = listed(e);
        let n = e.len() - 1;
        let k = e[n].0;
        assert(b.contains_key(k));
        assert forall|x: Model<KF>| #[trigger] unread.contains_key(x) implies kf.lt(x, k) by {
            assert(self.bound() is Some);
            assert(kf.lt(self.bound().unwrap(), e[n].0));
        }
        assert(is_greatest(kf, rem, k)) by {
            assert forall|x: Model<KF>| #[trigger] rem.contains_key(x) implies !kf.lt(k, x) by {
                if b.contains_key(x) {
                    let j = choose|j: int| 0 <= j < e.len() && (#[trigger] e[j]).0 == x;
                    if j < n {
                        assert(kf.lt(e[j].0, e[n].0));
                    }
                } else {
                    assert(unread.contains_key(x));
                }
            }
        }
        let e2 = entry_models(after.buf@);
        assert(e2 =~= e.drop_last());
        crate::btree::range::lemma_lists_pop(kf, e, b);
        lemma_listed(kf, e2, b.remove(k));
        assert(after.unread(map, records) == unread);
        assert(!unread.contains_key(k));
        assert(rem.remove(k) =~= unread.union_prefer_right(b.remove(k)));
        assert forall|i: int| 0 <= i < e2.len() implies (#[trigger] e2[i]) == e[i] by {}
        assert forall|x: Model<KF>| !kf.lt(x, k) implies #[trigger] after.past(kf, x) by {
            assert forall|i: int| 0 <= i < e2.len() implies kf.lt((#[trigger] e2[i]).0, x) by {
                assert(kf.lt(e[i].0, e[n].0));
            }
            if !self.done && self.upper is Some {
                assert(kf.lt(self.bound().unwrap(), e[n].0));
            }
        }
    }

    /// Reads the next leaf.
    fn refill<S: Store>(&mut self, map: &BTreeMap<KF, VF>, store: &S) -> (r: Result<()>)
        requires
            old(self).inv(map),
            old(self).buf@.len() == 0,
            !old(self).done,
        ensures
            blames(store.state(), r),
            old(self).asks_first() ==> map.refuses(store.state(), r),
            final(self).inv(map),
            r is Ok ==> final(self).leaves(map, store.state().records) < old(self).leaves(
                map,
                store.state().records,
            ),
            map.wf(store.state().records)
                && old(self).stands(map, store.state().records) ==> served(
                store.state(),
                r,
            ),
            map.wf(store.state().records) && old(self).stands(map, store.state().records)
                && r is Ok ==> final(self).stands(map, store.state().records)
                    && final(self).remaining(
                map,
                store.state().records,
            ) == old(self).remaining(map, store.state().records) && forall|x: Model<KF>|
                old(self).past(&map.kf(), x) ==> #[trigger] final(self).past(&map.kf(), x),
            r is Err ==> final(self).buf@.len() == 0,
    {
        let ghost records = store.state().records;
        let ghost good = map.wf(records) && self.stands(map, records);
        let ghost p0 = self.pool(map, records);
        proof {
            map.lemma_nodes_finite(store);
            lemma_key_pool_finite(map.nodes(records));
            lemma_frame_pool_finite(self.stack@);
        }
        if !self.upper_open && self.upper.is_none() {
            self.done = true;
            return Ok(());
        }
        let (batch, next, from) = {
            let hi = if self.upper_open {
                None
            } else {
                self.upper.as_ref()
            };
            match map.last_leaf_batch(
                store,
                &mut self.stack,
                self.lo.as_ref(),
                self.lo_inc,
                hi,
                self.upper_inc,
            ) {
                Ok(x) => x,
                Err(e) => {
                    return Err(e);
                },
            }
        };
        self.buf = batch;
        let ghost p1 = self.pool(map, records);
        assert(p1.subset_of(p0));
        match next {
            None => {
                self.done = true;
            },
            Some(next_k) => {
                proof {
                    lemma_keys_under(&map.key_format, p0, p1, next_k@);
                }
                if !self.upper_open {
                    if let Some(prev) = &self.upper {
                        if !map.key_format.less(&next_k, prev) {
                            self.done = true;
                            self.buf.clear();
                            return Err(DbError::corrupt("descending scan bound did not decrease"));
                        }
                    }
                }
                self.upper = Some(next_k);
                self.upper_inc = true;
                self.upper_open = false;
            },
        }
        self.upper_open = false;
        proof {
            if good {
                old(self).lemma_refilled(self, map, records, from@);
            }
        }
        Ok(())
    }

    /// What a step brought is in the buffer, and what is left is unread.
    proof fn lemma_refilled(
        &self,
        after: &Self,
        map: &BTreeMap<KF, VF>,
        records: Records,
        from: Option<Model<KF>>,
    )
        requires
            map.wf(records),
            self.stands(map, records),
            self.buf@.len() == 0,
            !self.done,
            self.upper_open || self.upper is Some,
            after.lo == self.lo,
            after.lo_inc == self.lo_inc,
            ({
                let part = self.unread(map, records);
                &&& lists(
                    &map.key_format,
                    entry_models(after.buf@),
                    ranged(&map.key_format, part, from, false, None, true),
                )
                &&& after.done ==> forall|k: Model<KF>| #[trigger]
                    part.contains_key(k) ==> above(&map.key_format, from, k)
                &&& !after.done ==> !after.upper_open && after.upper_inc && after.upper is Some
                    && from == opt_model(after.upper) && map.frames_ok(after.stack@)
                &&& self.bound() matches Some(b) ==> (!after.done ==> map.key_format.lt(
                    from.unwrap(),
                    b,
                ))
            }),
        ensures
            after.stands(map, records),
            after.remaining(map, records) == self.remaining(map, records),
            forall|x: Model<KF>|
                self.past(&map.kf(), x) ==> #[trigger] after.past(&map.kf(), x),
    {
        broadcast use group_key_order;

        let kf = &map.key_format;
        let rem = self.remaining(map, records);
        let part = self.unread(map, records);
        assert(rem =~= part);
        let b = ranged(kf, part, from, false, None, true);
        let e = entry_models(after.buf@);
        lemma_listed(kf, e, b);
        let unread = after.unread(map, records);
        assert forall|x: Model<KF>| part.contains_key(x)
            == unread.union_prefer_right(b).contains_key(
            x,
        ) by {
            if part.contains_key(x) && !b.contains_key(x) {
                assert(!above(kf, from, x));
                assert(unread.contains_key(x));
            }
            if unread.contains_key(x) {
                assert(!after.done);
                assert(part.contains_key(x));
            }
        }
        assert(rem =~= unread.union_prefer_right(b));
        if !after.done {
            assert forall|i: int| 0 <= i < e.len() implies kf.lt(
                from.unwrap(),
                (#[trigger] e[i]).0,
            ) by {
                assert(b.contains_key(e[i].0));
            }
        }
        assert forall|x: Model<KF>| self.past(kf, x) implies #[trigger] after.past(kf, x) by {
            assert forall|i: int| 0 <= i < e.len() implies kf.lt((#[trigger] e[i]).0, x) by {
                assert(b.contains_key(e[i].0));
                assert(part.contains_key(e[i].0));
            }
        }
    }

    fn advance<S: Store>(&mut self, map: &BTreeMap<KF, VF>, store: &S) -> (r: Result<
        Option<(KF::Item, VF::Item)>,
    >)
        requires
            old(self).inv(map),
        ensures
            blames(store.state(), r),
            old(self).asks_first() ==> map.refuses(store.state(), r),
            final(self).inv(map),
            old(self).ended() ==> r is Ok && r.unwrap() is None && final(self).ended(),
            map.wf(store.state().records) && old(self).stands(
                map,
                store.state().records,
            ) ==> served(store.state(), r) && (r matches Ok(e) ==> Self::step_post(
                old(self),
                final(self),
                map,
                store.state().records,
                match e {
                    Some((k, v)) => Some((k@, v@)),
                    None => None,
                },
            )),
            r matches Ok(Some(e)) ==> Self::shrinks(
                old(self),
                final(self),
                map,
                store.state().records,
            ),
            r is Err ==> final(self).buf@.len() == 0,
    {
        let ghost records = store.state().records;
        let ghost good = map.wf(records) && self.stands(map, records);
        let ghost leaves0 = self.leaves(map, records);
        loop
            invariant
                self.inv(map),
                records == store.state().records,
                old(self).asks_first() && (map.spoiled() || store.state().closed)
                    ==> self.asks_first(),
                leaves0 == old(self).leaves(map, records),
                good == (map.wf(records) && old(self).stands(
                    map,
                    records,
                )),
                good ==> self.stands(map, records) && self.remaining(map, records) == old(
                    self,
                ).remaining(map, records) && forall|x: Model<KF>|
                    old(self).past(&map.kf(), x) ==> #[trigger] self.past(&map.kf(), x),
                old(self).ended() ==> self.ended(),
                self.leaves(map, records) < leaves0 || (self.leaves(map, records) == leaves0
                    && self.buf@ == old(self).buf@),
            decreases self.leaves(map, records),
        {
            let ghost before = *self;
            match self.buf.pop() {
                Some(e) => {
                    let (k, v) = e;
                    proof {
                        if good {
                            before.lemma_pop(self, map, records);
                        }
                        assert(self.leaves(map, records) == before.leaves(map, records));
                    }
                    return Ok(Some((k, v)));
                },
                None => {},
            }
            assert(self.buf@ =~= before.buf@);
            assert(good ==> self.stands(map, records));
            if self.done {
                proof {
                    if good {
                        self.lemma_drained(map, records);
                    }
                }
                return Ok(None);
            }
            let ghost drained = *self;
            match self.refill(map, store) {
                Ok(_) => {},
                Err(e) => {
                    return Err(e);
                },
            }
            assert forall|x: Model<KF>| good && old(self).past(&map.kf(), x)
                implies #[trigger] self.past(&map.kf(), x) by {
                assert(before.past(&map.kf(), x));
                assert(drained.past(&map.kf(), x));
            }
        }
    }

    /// With an empty buffer and nothing unread there is nothing left.
    proof fn lemma_drained(&self, map: &BTreeMap<KF, VF>, records: Records)
        requires
            self.stands(map, records),
            self.buf@.len() == 0,
            self.done,
        ensures
            self.remaining(map, records) == Map::<Model<KF>, Model<VF>>::empty(),
    {
        assert(self.remaining(map, records) =~= Map::empty());
    }

    /// The next entry; after an error or the end nothing more comes.
    pub fn next<S: Store>(&mut self, map: &BTreeMap<KF, VF>, store: &S) -> (r: Option<
        Result<(KF::Item, VF::Item)>,
    >)
        requires
            old(self).inv(map),
        ensures
            old(self).asks_first() && (map.spoiled() || store.state().closed) ==> (r matches Some(x)
                && map.refuses(store.state(), x)),
            final(self).inv(map),
            old(self).ended() ==> r is None && final(self).ended(),
            r matches Some(x) ==> blames(store.state(), x) && (x is Err ==> final(self).ended()),
            map.wf(store.state().records) && old(self).stands(map, store.state().records)
                ==> (store.state().readable ==> !(r matches Some(Err(e)))),
            map.wf(store.state().records) && old(self).stands(map, store.state().records) && !(
            r matches Some(Err(e))) ==> Self::step_post(
                old(self),
                final(self),
                map,
                store.state().records,
                match r {
                    Some(Ok((k, v))) => Some((k@, v@)),
                    _ => None,
                },
            ),
            r matches Some(x) ==> (x is Ok ==> Self::shrinks(
                old(self),
                final(self),
                map,
                store.state().records,
            )),
    {
        match self.advance(map, store) {
            Ok(Some(e)) => Some(Ok(e)),
            Ok(None) => None,
            Err(e) => {
                self.done = true;
                Some(Err(e))
            },
        }
    }
}

impl<KF: KeyFormat, VF: Serializer> BTreeMap<KF, VF> {
    /// A descending iterator over the range; a bound of `None` is open.
    pub fn descending_entry_iter<S: Store>(
        &self,
        store: &S,
        lo: Option<KF::Item>,
        lo_inc: bool,
        hi: Option<KF::Item>,
        hi_inc: bool,
    ) -> (r: Result<DescendingEntryIter<KF, VF>>)
        ensures
            blames(store.state(), r),
            r matches Ok(it) && it.inv(self) && it.asks_first()
                && it.stands(self, store.state().records)
                && it.remaining(self, store.state().records) == ranged(
                &self.kf(),
                self.contents(store.state().records),
                opt_model(lo),
                lo_inc,
                opt_model(hi),
                hi_inc,
            ),
    {
        let upper_open = hi.is_none();
        let it = DescendingEntryIter {
            lo,
            lo_inc,
            upper: hi,
            upper_inc: hi_inc,
            upper_open,
            buf: Vec::new(),
            stack: Vec::new(),
            done: false,
        };
        proof {
            let records = store.state().records;
            assert(it.remaining(self, records) =~= it.unread(self, records));
        }
        Ok(it)
    }

    /// The entries of the range in descending key order.
    pub fn descending_entries_in<S: Store>(
        &self,
        store: &S,
        lo: Option<KF::Item>,
        lo_inc: bool,
        hi: Option<KF::Item>,
        hi_inc: bool,
    ) -> (r: Result<Vec<(KF::Item, VF::Item)>>)
        ensures
            blames(store.state(), r),
            self.refuses(store.state(), r),
            self.wf(store.state().records) ==> served(store.state(), r)
                && (r matches Ok(v) ==> lists(
                &self.kf(),
                entry_models(v@).reverse(),
                ranged(
                    &self.kf(),
                    self.contents(store.state().records),
                    opt_model(lo),
                    lo_inc,
                    opt_model(hi),
                    hi_inc,
                ),
            )),
    {
        let ghost records = store.state().records;
        let ghost good = self.wf(records);
        let ghost all = ranged(
            &self.kf(),
            self.contents(records),
            opt_model(lo),
            lo_inc,
            opt_model(hi),
            hi_inc,
        );
        let mut it = match self.descending_entry_iter(store, lo, lo_inc, hi, hi_inc) {
            Ok(it) => it,
            Err(e) => {
                return Err(e);
            },
        };
        let mut out: Vec<(KF::Item, VF::Item)> = Vec::new();
        let ghost mut given = Map::<Model<KF>, Model<VF>>::empty();
        proof {
            assert(lists(&self.kf(), entry_models(out@).reverse(), given));
        }
        loop
            invariant
                it.inv(self),
                self.spoiled() || store.state().closed ==> it.asks_first(),
                records == store.state().records,
                good == self.wf(records),
                all == ranged(
                    &self.kf(),
                    self.contents(records),
                    opt_model(lo),
                    lo_inc,
                    opt_model(hi),
                    hi_inc,
                ),
                good ==> {
                    let rem = it.remaining(self, records);
                    &&& it.stands(self, records)
                    &&& lists(&self.kf(), entry_models(out@).reverse(), given)
                    &&& given.union_prefer_right(rem) == all
                    &&& forall|a: Model<KF>, b: Model<KF>|
                        #![trigger given.contains_key(a), rem.contains_key(b)]
                        given.contains_key(a) && rem.contains_key(b) ==> self.kf().lt(b, a)
                },
            decreases it.leaves(self, records), it.fuel(),
        {
            let ghost before = it;
            match it.next(self, store) {
                None => {
                    proof {
                        if good {
                            assert(given =~= all);
                        }
                    }
                    return Ok(out);
                },
                Some(Err(e)) => {
                    return Err(e);
                },
                Some(Ok((k, v))) => {
                    let ghost out0 = entry_models(out@);
                    let ghost km = k@;
                    let ghost vm = v@;
                    out.push((k, v));
                    proof {
                        if good {
                            broadcast use group_key_order;

                            let rem0 = before.remaining(self, records);
                            let rem = it.remaining(self, records);
                            lemma_lists_front(&self.kf(), out0.reverse(), given, km, vm);
                            assert(entry_models(out@) =~= out0.push((km, vm)));
                            assert(entry_models(out@).reverse()
                                =~= seq![(km, vm)] + out0.reverse());
                            let given2 = given.insert(km, vm);
                            assert(given2.union_prefer_right(rem)
                                =~= given.union_prefer_right(rem0));
                            assert forall|a: Model<KF>, b: Model<KF>|
                                #![trigger given2.contains_key(a), rem.contains_key(b)]
                                given2.contains_key(a) && rem.contains_key(b)
                                    implies self.kf().lt(b, a) by {
                                assert(rem0.contains_key(b));
                                if a == km {
                                    assert(!self.kf().lt(km, b));
                                    self.kf().lt_total(km, b);
                                } else {
                                    assert(given.contains_key(a));
                                }
                            }
                            given = given2;
                        }
                    }
                },
            }
        }
    }

    /// Takes the entry with the greatest key of the range out of the map.
    pub fn poll_last_entry<S: Store>(
        &mut self,
        store: &mut S,
        lo: Option<KF::Item>,
        lo_inc: bool,
        hi: Option<KF::Item>,
        hi_inc: bool,
    ) -> (r: Result<Option<(KF::Item, VF::Item)>>)
        ensures
            old(self).refuses(old(store).state(), r),
            old(self).read_only_in(old(store).state()) ==> {
                let part = ranged(
                    &old(self).kf(),
                    old(self).contents(old(store).state().records),
                    opt_model(lo),
                    lo_inc,
                    opt_model(hi),
                    hi_inc,
                );
                &&& final(store).state().records == old(store).state().records
                &&& part =~= Map::empty() ==> (r matches Ok(x) && x is None)
                &&& !(part =~= Map::empty()) ==> r == Err::<Option<(KF::Item, VF::Item)>, DbError>(
                    DbError::ReadOnly,
                )
            },
            final(self).same_config(old(self)),
            old(self).wf(old(store).state().records) ==> {
                let m = old(self).contents(old(store).state().records);
                let part = ranged(
                    &old(self).kf(),
                    m,
                    opt_model(lo),
                    lo_inc,
                    opt_model(hi),
                    hi_inc,
                );
                &&& carried_out(old(store).state(), r)
                &&& r is Err ==> final(self).left_alone(
                    old(self),
                    old(store).state(),
                    final(store).state(),
                    0,
                ) || exists|k: Model<KF>| #[trigger]
                    part.contains_key(k) && final(self).taken_or_left(
                        old(self),
                        old(store).state(),
                        final(store).state(),
                        k,
                    )
                &&& r matches Ok(None) ==> part =~= Map::empty() && final(self).became(
                    old(self),
                    old(store).state(),
                    final(store).state(),
                    m,
                    0,
                )
                &&& r matches Ok(Some((k, v))) ==> is_greatest(&old(self).kf(), part, k@) && m[k@]
                    == v@ && final(self).became(
                    old(self),
                    old(store).state(),
                    final(store).state(),
                    m.remove(k@),
                    0,
                )
            },
    {
        let ghost a = store.state();
        let ghost m = self.contents(a.records);
        proof {
            if self.wf(a.records) {
                self.lemma_unchanged(a);
            }
        }
        let mut it = match self.descending_entry_iter(store, lo, lo_inc, hi, hi_inc) {
            Ok(it) => it,
            Err(e) => {
                return Err(e);
            },
        };
        match it.next(self, store) {
            None => Ok(None),
            Some(Err(e)) => Err(e),
            Some(Ok((k, v))) => match self.remove_internal(store, &k, Some(&v)) {
                Ok(Some(_)) => Ok(Some((k, v))),
                Ok(None) => Err(DbError::corrupt("polled entry is not in the map")),
                Err(e) => Err(e),
            },
        }
    }

    /// Takes the entry with the greatest key out of the map.
    pub fn pop_last<S: Store>(&mut self, store: &mut S) -> (r: Result<
        Option<(KF::Item, VF::Item)>,
    >)
        ensures
            old(self).refuses(old(store).state(), r),
            old(self).read_only_in(old(store).state()) ==> {
                let m = old(self).contents(old(store).state().records);
                &&& final(store).state().records == old(store).state().records
                &&& m =~= Map::empty() ==> (r matches Ok(x) && x is None)
                &&& !(m =~= Map::empty()) ==> r == Err::<Option<(KF::Item, VF::Item)>, DbError>(
                    DbError::ReadOnly,
                )
            },
            final(self).same_config(old(self)),
            old(self).wf(old(store).state().records) ==> {
                let m = old(self).contents(old(store).state().records);
                &&& carried_out(old(store).state(), r)
                &&& r is Err ==> final(self).left_alone(
                    old(self),
                    old(store).state(),
                    final(store).state(),
                    0,
                ) || exists|k: Model<KF>| #[trigger]
                    m.contains_key(k) && final(self).taken_or_left(
                        old(self),
                        old(store).state(),
                        final(store).state(),
                        k,
                    )
                &&& r matches Ok(None) ==> m =~= Map::empty() && final(self).became(
                    old(self),
                    old(store).state(),
                    final(store).state(),
                    m,
                    0,
                )
                &&& r matches Ok(Some((k, v))) ==> is_greatest(&old(self).kf(), m, k@) && m[k@]
                    == v@ && final(self).became(
                    old(self),
                    old(store).state(),
                    final(store).state(),
                    m.remove(k@),
                    0,
                )
            },
    {
        proof {
            lemma_ranged_all(
                &self.key_format,
                self.contents(store.state().records),
                true,
                true,
            );
        }
        self.poll_last_entry(store, None, true, None, true)
    }
}

} // verus!
