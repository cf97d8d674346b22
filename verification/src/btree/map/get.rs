//! Lookups that read node bytes in place.

use vstd::prelude::*;
use crate::btree::contents::{leaf_value, lemma_lookup, value_record_ok};
use crate::btree::node::{
    dec_body, dec_link, dec_node, flag_right, node_ok, BodyM, Node, NodeBody, NodeM, DIR, RIGHT,
};
use crate::btree::tree::{
    covers, lemma_covers_unique, lemma_descend, lemma_level_distinct, level_node, level_ok,
    node_at, parent_node, parent_ok, Owner,
};
use crate::error::{DbError, Result};
use crate::io::{
    lemma_varint_len_bound, rest, varint, varint_len, varints_len, DataInput2, SliceInput,
};
use crate::ser::{
    dec_all, group_key_order, lemma_dec_all_within, models, search, splits_at, GroupFormat,
    KeyFormat, Model, Serializer, LONG, LONG_PACKED,
};
use crate::store::{blames, get_item, item_at, opt_model, served, Records, Store};
use super::{lookup, position, search_idx, BTreeMap, CycleGuard, CYCLE_DESCENT_SOFT};

verus! {

/// One step of a lookup.
pub struct GetAction<'a, KF: KeyFormat, VF: Serializer> {
    pub key: &'a KF::Item,
    pub kf: &'a KF,
    pub vf: &'a VF,
    pub value_inline: bool,
    /// The value, where the leaf holds it.
    pub value: Option<VF::Item>,
    /// The recid of the value, where it is a record of its own.
    pub stored_recid: Option<i64>,
    pub found: bool,
}

/// What a lookup step at node `n` answers: the recid to go on with, zero at the
/// end, and what was found.
pub open spec fn step_post<KF: KeyFormat, V>(
    kf: &KF,
    n: NodeM<Model<KF>, V>,
    k: Model<KF>,
    next: u64,
    found: bool,
    value: Option<V>,
    stored: Option<i64>,
) -> bool {
    if n.dir() {
        &&& !found
        &&& value is None
        &&& stored is None
        &&& exists|c: int| #[trigger]
            position(kf, n.keys, k, c) && next == if c < n.children().len() {
                n.children()[c]
            } else {
                n.link
            }
    } else if found {
        &&& next == 0
        &&& exists|p: int|
            0 <= p < n.keys.len() && #[trigger] n.keys[p] == k && match n.body {
                BodyM::Leaf { values, .. } => value == Some(values[p]) && stored is None,
                BodyM::ExternalLeaf { recids, .. } => stored == Some(recids[p]) && value is None,
                BodyM::Dir { .. } => false,
            }
    } else {
        &&& value is None
        &&& stored is None
        &&& exists|c: int| #[trigger]
            splits_at(kf, n.keys, k, c) && next == if c >= n.keys.len() && n.link != 0 {
                n.link
            } else {
                0
            }
    }
}

proof fn lemma_varints_append(s: Seq<u8>, c: nat)
    ensures
        varints_len(s, c + 1) == match varints_len(s, c) {
            Some(k) => match varint_len(s.skip(k as int), 10) {
                Some(n) => Some(k + n),
                None => None,
            },
            None => None::<nat>,
        },
    decreases c,
{
    if c == 0 {
        assert(s.skip(0) =~= s);
        match varint_len(s, 10) {
            Some(n) => {
                assert(varints_len(s.skip(n as int), 0) == Some(0nat));
                assert(varints_len(s, 1) == Some(n + 0));
            },
            None => {},
        }
    } else {
        lemma_varint_len_bound(s, 10);
        match varint_len(s, 10) {
            Some(n) => {
                let rest = s.skip(n as int);
                lemma_varints_append(rest, (c - 1) as nat);
                match varints_len(rest, (c - 1) as nat) {
                    Some(k) => {
                        lemma_varints_bound(rest, (c - 1) as nat);
                        assert(rest.skip(k as int) =~= s.skip((n + k) as int));
                    },
                    None => {},
                }
            },
            None => {},
        }
    }
}

proof fn lemma_varints_bound(s: Seq<u8>, c: nat)
    ensures
        varints_len(s, c) matches Some(k) ==> k <= s.len(),
    decreases c,
{
    if c > 0 {
        lemma_varint_len_bound(s, 10);
        if let Some(n) = varint_len(s, 10) {
            lemma_varints_bound(s.skip(n as int), (c - 1) as nat);
        }
    }
}

/// Skipping packed longs takes the bytes that reading them takes.
proof fn lemma_skip_is_decode(s: Seq<u8>, c: nat)
    ensures
        match dec_all(&LONG_PACKED, s, c) {
            Some((g, k)) => varints_len(s, c) == Some(k),
            None => varints_len(s, c) is None,
        },
    decreases c,
{
    if c > 0 {
        lemma_skip_is_decode(s, (c - 1) as nat);
        lemma_varints_append(s, (c - 1) as nat);
    }
}

/// The elements of a group are read one after the other.
proof fn lemma_dec_all_prefix<S: Serializer>(f: &S, s: Seq<u8>, n: nat, c: nat)
    requires
        c < n,
        dec_all(f, s, n) is Some,
    ensures
        dec_all(f, s, c) is Some,
        ({
            let g = dec_all(f, s, n).unwrap().0;
            let k = dec_all(f, s, c).unwrap().1;
            &&& g.len() == n
            &&& f.dec(s.skip(k as int)) is Some
            &&& f.dec(s.skip(k as int)).unwrap().0 == g[c as int]
        }),
    decreases n,
{
    lemma_dec_all_within(f, s, n);
    lemma_dec_all_within(f, s, (n - 1) as nat);
    if c < n - 1 {
        lemma_dec_all_prefix(f, s, (n - 1) as nat, c);
    }
}

/// The header, link and keys at the start of a node: flags, link, keys and the bytes
/// that they take.
pub open spec fn dec_head<KF: KeyFormat>(kf: &KF, s: Seq<u8>, size: nat) -> Option<
    (i32, u64, Seq<Model<KF>>, nat),
> {
    match varint(s, 5) {
        Some((v, a)) => {
            let flags = ((v as u32) % 16) as i32;
            let keys_len = ((v as u32) / 16) as nat;
            if keys_len > size {
                None
            } else {
                match dec_link(s.skip(a as int), flag_right(flags)) {
                    Some((link, b)) => match dec_all(kf, s.skip((a + b) as int), keys_len) {
                        Some((keys, c)) => Some((flags, link, keys, a + b + c)),
                        None => None,
                    },
                    None => None,
                }
            }
        },
        None => None,
    }
}

proof fn lemma_head<KF: KeyFormat, VF: Serializer>(
    kf: &KF,
    vf: &VF,
    inline: bool,
    s: Seq<u8>,
    size: nat,
)
    ensures
        dec_head(kf, s, size) matches Some((flags, link, keys, k)) ==> k <= s.len() && keys.len()
            < 0x1000_0000,
        dec_node(kf, vf, inline, s, Some(size)) matches Some((n, used)) ==> {
            &&& node_ok(kf, inline, n)
            &&& dec_head(kf, s, size) matches Some((flags, link, keys, k)) && n.flags == flags
                && n.link == link && n.keys == keys && (dec_body(
                kf,
                vf,
                inline,
                s.skip(k as int),
                flags,
                keys,
            ) matches Some((body, d)) && n.body == body)
        },
{
    crate::btree::node::lemma_dec_node_ok(kf, vf, inline, s, Some(size));
    lemma_varint_len_bound(s, 5);
    if let Some((v, a)) = varint(s, 5) {
        let flags = ((v as u32) % 16) as i32;
        let keys_len = ((v as u32) / 16) as nat;
        lemma_varint_len_bound(s.skip(a as int), 10);
        if let Some((link, b)) = dec_link(s.skip(a as int), flag_right(flags)) {
            lemma_dec_all_within(kf, s.skip((a + b) as int), keys_len);
        }
    }
}

fn read_head<KF: KeyFormat>(kf: &KF, input: &mut SliceInput<'_>, size: usize) -> (r: Result<
    (i32, u64, Vec<KF::Item>),
>)
    ensures
        final(input).bytes() == old(input).bytes(),
        match dec_head(kf, rest(old(input).bytes(), old(input).cursor()), size as nat) {
            Some((flags, link, keys, k)) => (r matches Ok((f, l, ks)) && f == flags && l == link
                && models(ks@) == keys) && final(input).cursor() == old(input).cursor() + k,
            None => r matches Err(e) && e is DataCorruption,
        },
{
    let ghost s = rest(input.bytes(), input.cursor());
    proof {
        lemma_varint_len_bound(s, 5);
    }
    let v: u64 = match input.unpack_capped(5) {
        Ok(v) => v,
        Err(e) => {
            return Err(e);
        },
    };
    let ghost a = varint(s, 5).unwrap().1;
    let h: u32 = #[verifier::truncate] (v as u32);
    let flags: i32 = (h % 16) as i32;
    let keys_len: usize = (h / 16) as usize;
    if keys_len > size {
        return Err(DbError::corrupt("node header keysLen exceeds record size"));
    }
    proof {
        assert(rest(input.bytes(), input.cursor()) =~= s.skip(a as int));
        lemma_varint_len_bound(s.skip(a as int), 10);
    }
    let link: u64 = if flags & RIGHT != 0 {
        0
    } else {
        match input.unpack_long() {
            Ok(l) => {
                if l == 0 {
                    return Err(DbError::corrupt("non-rightmost node with zero link"));
                }
                l
            },
            Err(e) => {
                return Err(e);
            },
        }
    };
    let ghost b = dec_link(s.skip(a as int), flag_right(flags)).unwrap().1;
    proof {
        assert(rest(input.bytes(), input.cursor()) =~= s.skip((a + b) as int));
    }
    match kf.deserialize_group(input, keys_len) {
        Ok(keys) => Ok((flags, link, keys)),
        Err(e) => Err(e),
    }
}

/// Child `idx` of the directory whose `count` children follow.
fn read_child(input: &mut SliceInput<'_>, idx: usize, Ghost(count): Ghost<nat>) -> (r: Result<u64>)
    requires
        idx < count,
    ensures
        r matches Err(e) ==> e is DataCorruption,
        dec_all(&LONG_PACKED, rest(old(input).bytes(), old(input).cursor()), count) matches Some(
            (g, k),
        ) ==> (crate::btree::node::no_zero(g) ==> r == Ok::<u64, DbError>(g[idx as int])),
{
    let ghost s = rest(input.bytes(), input.cursor());
    proof {
        lemma_skip_is_decode(s, idx as nat);
        lemma_dec_all_within(&LONG_PACKED, s, idx as nat);
        lemma_dec_all_within(&LONG_PACKED, s, count);
        if dec_all(&LONG_PACKED, s, count) is Some {
            lemma_dec_all_prefix(&LONG_PACKED, s, count, idx as nat);
        }
    }
    match input.unpack_long_skip(idx) {
        Ok(_) => {},
        Err(e) => {
            return Err(e);
        },
    }
    proof {
        let k = dec_all(&LONG_PACKED, s, idx as nat).unwrap().1;
        assert(rest(input.bytes(), input.cursor()) =~= s.skip(k as int));
    }
    match input.unpack_long() {
        Ok(child) => {
            if child == 0 {
                return Err(DbError::corrupt("directory child recid is zero"));
            }
            Ok(child)
        },
        Err(e) => Err(e),
    }
}

/// Element `p` of the group of `count` elements that follows.
fn read_value<F: Serializer>(
    f: &F,
    input: &mut SliceInput<'_>,
    count: usize,
    p: usize,
) -> (r: Result<F::Item>)
    requires
        p < count,
    ensures
        match dec_all(f, rest(old(input).bytes(), old(input).cursor()), count as nat) {
            Some((g, k)) => r matches Ok(v) && v@ == g[p as int],
            None => r matches Err(e) && e is DataCorruption,
        },
{
    let ghost s = rest(input.bytes(), input.cursor());
    proof {
        lemma_dec_all_within(f, s, count as nat);
    }
    match f.deserialize_group(input, count) {
        Ok(g) => {
            assert(models(g@)[p as int] == g@[p as int]@);
            Ok(f.dup(&g[p]))
        },
        Err(e) => Err(e),
    }
}

impl<'a, KF: KeyFormat, VF: Serializer> GetAction<'a, KF, VF> {
    pub fn new(key: &'a KF::Item, kf: &'a KF, vf: &'a VF, value_inline: bool) -> (r: Self)
        ensures
            r.key == key,
            r.kf == kf,
            r.vf == vf,
            r.value_inline == value_inline,
            !r.found,
            r.value is None,
            r.stored_recid is None,
    {
        GetAction { key, kf, vf, value_inline, value: None, stored_recid: None, found: false }
    }

    pub open spec fn same_query(&self, other: &Self) -> bool {
        &&& self.key == other.key
        &&& self.kf == other.kf
        &&& self.vf == other.vf
        &&& self.value_inline == other.value_inline
    }

    /// Looks the key up in the bytes of a node.
    pub fn on_bytes(&mut self, input: &mut SliceInput<'_>, size: usize) -> (r: Result<u64>)
        ensures
            final(self).same_query(old(self)),
            r matches Err(e) ==> e is DataCorruption,
            dec_head(
                old(self).kf,
                rest(old(input).bytes(), old(input).cursor()),
                size as nat,
            ) is None ==> r is Err,
            dec_node(
                old(self).kf,
                old(self).vf,
                old(self).value_inline,
                rest(old(input).bytes(), old(input).cursor()),
                Some(size as nat),
            ) matches Some((n, used)) ==> (r matches Ok(next) && step_post(
                old(self).kf,
                n,
                old(self).key@,
                next,
                final(self).found,
                opt_model(final(self).value),
                final(self).stored_recid,
            )),
    {
        let ghost s = rest(input.bytes(), input.cursor());
        let ghost parsed = dec_node(self.kf, self.vf, self.value_inline, s, Some(size as nat));
        let ghost node = parsed.unwrap().0;
        proof {
            lemma_head(self.kf, self.vf, self.value_inline, s, size as nat);
        }
        self.found = false;
        self.value = None;
        self.stored_recid = None;
        let (flags, link, keys) = match read_head(self.kf, input, size) {
            Ok(x) => x,
            Err(e) => {
                return Err(e);
            },
        };
        let ghost k = dec_head(self.kf, s, size as nat).unwrap().3;
        let ghost s3 = s.skip(k as int);
        assert(rest(input.bytes(), input.cursor()) =~= s3);
        let pos = search(self.kf, &keys, self.key);
        if flags & DIR != 0 {
            let child_idx: usize = search_idx(pos);
            let child_count: usize = if flags & RIGHT != 0 {
                keys.len() + 1
            } else {
                keys.len()
            };
            proof {
                if parsed is Some {
                    assert(position(self.kf, node.keys, self.key@, child_idx as int));
                }
            }
            if child_count == 0 {
                return Err(DbError::corrupt("directory node with no children"));
            }
            if child_idx >= child_count {
                return Ok(link);
            }
            let r = read_child(input, child_idx, Ghost(child_count as nat));
            r
        } else {
            match pos {
                Ok(p) => {
                    self.found = true;
                    proof {
                        if parsed is Some {
                            assert(node.keys[p as int] == self.key@);
                        }
                    }
                    if self.value_inline {
                        match read_value(self.vf, input, keys.len(), p) {
                            Ok(v) => {
                                self.value = Some(v);
                            },
                            Err(e) => {
                                return Err(e);
                            },
                        }
                    } else {
                        match read_value(&LONG, input, keys.len(), p) {
                            Ok(v) => {
                                self.stored_recid = Some(v);
                            },
                            Err(e) => {
                                return Err(e);
                            },
                        }
                    }
                    Ok(0)
                },
                Err(ip) => {
                    proof {
                        if parsed is Some {
                            assert(splits_at(self.kf, node.keys, self.key@, ip as int));
                        }
                    }
                    if ip >= keys.len() && link != 0 {
                        return Ok(link);
                    }
                    Ok(0)
                },
            }
        }
    }

    /// Looks the key up in a decoded node.
    pub fn on_object(&mut self, n: &Node<KF, VF>) -> (r: u64)
        requires
            node_ok(old(self).kf, old(self).value_inline, n@),
        ensures
            final(self).same_query(old(self)),
            step_post(
                old(self).kf,
                n@,
                old(self).key@,
                r,
                final(self).found,
                opt_model(final(self).value),
                final(self).stored_recid,
            ),
    {
        self.found = false;
        self.value = None;
        self.stored_recid = None;
        let pos = search(self.kf, &n.keys, self.key);
        if n.is_dir() {
            let child_idx: usize = search_idx(pos);
            assert(position(self.kf, n@.keys, self.key@, child_idx as int));
            let children = n.children();
            if child_idx >= children.len() {
                return n.link;
            }
            return children[child_idx];
        }
        match pos {
            Ok(p) => {
                self.found = true;
                assert(n@.keys[p as int] == self.key@);
                match &n.body {
                    NodeBody::Leaf { values, .. } => {
                        assert(models(values@)[p as int] == values@[p as int]@);
                        self.value = Some(self.vf.dup(&values[p]));
                    },
                    NodeBody::ExternalLeaf { recids, .. } => {
                        self.stored_recid = Some(recids[p]);
                    },
                    NodeBody::Dir { .. } => {},
                }
                0
            },
            Err(ip) => {
                assert(splits_at(self.kf, n@.keys, self.key@, ip as int));
                if ip >= n.keys.len() && n.link != 0 {
                    n.link
                } else {
                    0
                }
            },
        }
    }

    /// A null record is no node.
    pub fn on_null(&mut self) -> (r: Result<u64>)
        ensures
            r matches Err(e) && crate::error::is_corrupt(e, "btree node record is null"@),
            *final(self) == *old(self),
    {
        Err(DbError::corrupt("btree node record is null"))
    }
}

impl<KF: KeyFormat, VF: Serializer> BTreeMap<KF, VF> {
    /// Follows a lookup from the root until it ends.
    fn walk<S: Store>(&self, store: &S, action: &mut GetAction<'_, KF, VF>) -> (r: Result<()>)
        requires
            old(action).kf == &self.key_format,
            old(action).vf == &self.value_format,
            old(action).value_inline == self.value_inline,
        ensures
            blames(store.state(), r),
            self.refuses(store.state(), r),
            self.wf(store.state().records) ==> served(store.state(), r),
            self.wf(store.state().records) && r is Ok ==> {
                let m = self.contents(store.state().records);
                let k = old(action).key@;
                &&& final(action).found == m.contains_key(k)
                &&& final(action).found && self.value_inline ==> opt_model(final(action).value)
                    == Some(m[k])
                &&& final(action).found && !self.value_inline ==> (final(action).stored_recid
                    matches Some(x) && x != 0 && item_at(
                    &self.value_format,
                    store.state().records,
                    x as u64,
                ) == Some(Some(m[k])))
            },
    {
        broadcast use group_key_order;

        let ghost records = store.state().records;
        let ghost nodes = self.nodes(records);
        let ghost t = self.tree@;
        let ghost good = self.wf(records);
        let ghost d = records.dom();
        let ghost m = self.contents(records);
        let ghost k = action.key@;
        let ghost mut lev: int = t.levels.len() - 1;
        let ghost mut pos: int = 0;
        let ghost mut ic: int = 0;
        proof {
            store.records_finite();
            if good {
                self.lemma_root(records);
            }
        }
        let mut cyc = CycleGuard::new(CYCLE_DESCENT_SOFT);
        let mut current: u64 = match self.root_recid(store) {
            Ok(r) => r,
            Err(e) => {
                return Err(e);
            },
        };
        action.found = false;
        proof {
            if good {
                assert(covers(&self.key_format, t.levels[lev], 0, k));
            }
        }
        while current != 0
            invariant
                !self.poisoned,
                store.state().closed ==> current != 0 && cyc.visited() == Set::<u64>::empty(),
                cyc.ok(),
                records == store.state().records,
                d == records.dom(),
                d.finite(),
                cyc.visited().subset_of(d),
                nodes == self.nodes(records),
                t == self.tree@,
                m == self.contents(records),
                action.same_query(old(action)),
                old(action).kf == &self.key_format,
                old(action).vf == &self.value_format,
                old(action).value_inline == self.value_inline,
                k == old(action).key@,
                good == self.wf(records),
                good && current != 0 ==> {
                    &&& 0 <= lev < t.levels.len()
                    &&& 0 <= pos < t.levels[lev].len()
                    &&& t.levels[lev][pos].0 == current
                    &&& lev > 0 ==> covers(&self.key_format, t.levels[lev], pos, k)
                    &&& lev == 0 ==> 0 <= ic <= pos && covers(&self.key_format, t.levels[0], ic, k)
                        && (
                    ic < pos ==> !m.contains_key(k))
                    &&& forall|x: u64| #[trigger]
                        cyc.visited().contains(x) ==> t.owner.contains_key(x) && (t.owner[x]
                            matches Owner::Level(l) && (l > lev || (lev == 0 && l == 0 && exists|y:
                            int| #![trigger t.levels[0][y]] 0 <= y < pos && t.levels[0][y].0 == x)))
                },
                good && current == 0 ==> {
                    &&& action.found == m.contains_key(k)
                    &&& action.found && self.value_inline ==> opt_model(action.value) == Some(m[k])
                    &&& action.found && !self.value_inline ==> (action.stored_recid matches Some(x)
                        && x != 0 && item_at(&self.value_format, records, x as u64) == Some(
                        Some(m[k]),
                    ))
                },
            decreases cyc.fuel(d),
        {
            proof {
                if good {
                    let e = t.levels[lev][pos];
                    assert(level_ok(
                        &self.key_format,
                        self.value_inline,
                        nodes,
                        t.levels[lev],
                        lev > 0,
                    ));
                    assert(level_node(
                        &self.key_format,
                        self.value_inline,
                        nodes,
                        t.levels[lev],
                        pos,
                        lev > 0,
                    ));
                    assert(t.owner[current] == Owner::<Model<KF>>::Level(lev as nat));
                    if cyc.visited().contains(current) {
                        if lev == 0 {
                            let y = choose|y: int| #![trigger t.levels[0][y]] 0 <= y < pos
                                && t.levels[0][y].0 == current;
                            lemma_level_distinct(
                                &self.key_format,
                                self.value_inline,
                                nodes,
                                t.levels[0],
                                false,
                                y,
                                pos,
                            );
                        }
                    }
                }
            }
            let ghost before = cyc;
            match cyc.visit(current) {
                Ok(_) => {},
                Err(e) => {
                    return Err(e);
                },
            }
            let ghost here = current;
            current = match store.get(current) {
                Ok(Some(b)) => {
                    let mut input = SliceInput::new(b.as_slice());
                    assert(rest(input.bytes(), input.cursor()) =~= b@);
                    proof {
                        if good {
                            assert(node_at(
                                &self.key_format,
                                &self.value_format,
                                self.value_inline,
                                records,
                                here,
                            ) is Some);
                        }
                    }
                    match action.on_bytes(&mut input, b.len()) {
                        Ok(next) => next,
                        Err(e) => {
                            return Err(e);
                        },
                    }
                },
                Ok(None) => match action.on_null() {
                    Ok(next) => next,
                    Err(e) => {
                        return Err(e);
                    },
                },
                Err(e) => {
                    return Err(e);
                },
            };
            proof {
                if good {
                    let n = nodes[here];
                    if lev > 0 {
                        let p = t.levels[lev];
                        let sub = t.levels[lev - 1];
                        let off = t.offs[lev - 1];
                        assert(level_ok(
                            &self.key_format,
                            self.value_inline,
                            nodes,
                            sub,
                            lev - 1 > 0,
                        ));
                        assert(parent_ok(nodes, p, sub, off));
                        assert(parent_node(nodes, p, sub, off, pos));
                        let c = choose|c: int| #[trigger] position(&self.key_format, n.keys, k, c)
                            && current == if c < n.children().len() {
                            n.children()[c]
                        } else {
                            n.link
                        };
                        lemma_descend(
                            &self.key_format,
                            self.value_inline,
                            nodes,
                            p,
                            sub,
                            off,
                            pos,
                            k,
                            c,
                        );
                        pos = off[pos] + c;
                        lev = lev - 1;
                        ic = pos;
                        assert(level_node(
                            &self.key_format,
                            self.value_inline,
                            nodes,
                            sub,
                            pos,
                            lev > 0,
                        ));
                        assert(current != 0);
                    } else {
                        let l = t.levels[0];
                        if action.found {
                            let p = choose|p: int| 0 <= p < n.keys.len()
                                && #[trigger] n.keys[p] == k && match n.body {
                                BodyM::Leaf { values, .. } => opt_model(action.value)
                                    == Some(values[p]) && action.stored_recid is None,
                                BodyM::ExternalLeaf { recids, .. } => action.stored_recid
                                    == Some(recids[p]) && action.value is None,
                                BodyM::Dir { .. } => false,
                            };
                            lemma_leaf_hit(self, records, pos, p);
                            lemma_covers_unique(&self.key_format, l, ic, pos, k);
                        } else {
                            let c = choose|c: int| #[trigger] splits_at(&self.key_format, n.keys, k, c) && current == if c >= n.keys.len() && n.link != 0 {
                                n.link
                            } else {
                                0
                            };
                            assert forall|p: int| 0 <= p < n.keys.len()
                                implies #[trigger] n.keys[p] != k by {
                                self.key_format.lt_irreflexive(k);
                            }
                            if ic == pos {
                                lemma_lookup(
                                    &self.key_format,
                                    &self.value_format,
                                    self.value_inline,
                                    records,
                                    nodes,
                                    l,
                                    pos,
                                    k,
                                );
                            }
                            assert(!m.contains_key(k));
                            if current != 0 {
                                assert(pos < l.len() - 1);
                                assert(l[pos + 1].0 == current);
                                assert forall|x: u64| #[trigger] cyc.visited().contains(x)
                                    implies t.owner.contains_key(x)
                                        && (t.owner[x] matches Owner::Level(q)
                                            && (q > 0 || (q == 0
                                                && exists|y: int| #![trigger t.levels[0][y]] 0 <= y < pos + 1 && t.levels[0][y].0 == x))) by {
                                    if x == here {
                                        assert(t.levels[0][pos].0 == x);
                                    } else {
                                        assert(before.visited().contains(x));
                                    }
                                }
                                pos = pos + 1;
                            }
                        }
                    }
                }
            }
        }
        Ok(())
    }

    /// The value of a key.
    pub fn get<S: Store>(&self, store: &S, key: &KF::Item) -> (r: Result<Option<VF::Item>>)
        ensures
            blames(store.state(), r),
            self.refuses(store.state(), r),
            self.wf(store.state().records) ==> served(store.state(), r) && (
            r matches Ok(v) ==> opt_model(v) == lookup(self.contents(store.state().records), key@)),
    {
        let mut action = GetAction::new(
            key,
            &self.key_format,
            &self.value_format,
            self.value_inline,
        );
        match self.walk(store, &mut action) {
            Ok(_) => {},
            Err(e) => {
                return Err(e);
            },
        }
        if !action.found {
            return Ok(None);
        }
        if self.value_inline {
            Ok(action.value)
        } else {
            match action.stored_recid {
                None => Err(DbError::corrupt("external get: no value recid captured")),
                Some(recid) => {
                    if recid == 0 {
                        return Err(DbError::corrupt("btree recid is zero"));
                    }
                    match get_item(store, #[verifier::truncate] (recid as u64), &self.value_format) {
                        Ok(Some(v)) => Ok(Some(v)),
                        Ok(None) => Err(DbError::corrupt("external value record missing")),
                        Err(e) => Err(e),
                    }
                },
            }
        }
    }

    /// Whether the map holds a key.
    pub fn contains_key<S: Store>(&self, store: &S, key: &KF::Item) -> (r: Result<bool>)
        ensures
            blames(store.state(), r),
            self.refuses(store.state(), r),
            self.wf(store.state().records) ==> served(store.state(), r) && (
            r matches Ok(x) ==> x == (self.contents(store.state().records).contains_key(key@))),
    {
        let mut action = GetAction::new(
            key,
            &self.key_format,
            &self.value_format,
            self.value_inline,
        );
        match self.walk(store, &mut action) {
            Ok(_) => Ok(action.found),
            Err(e) => Err(e),
        }
    }
}

/// An entry found in a leaf is an entry of the map.
proof fn lemma_leaf_hit<KF: KeyFormat, VF: Serializer>(
    map: &BTreeMap<KF, VF>,
    records: Records,
    i: int,
    p: int,
)
    requires
        map.wf(records),
        0 <= i < map.tree@.levels[0].len(),
        0 <= p < map.nodes(records)[map.tree@.levels[0][i].0].keys.len(),
    ensures
        ({
            let n = map.nodes(records)[map.tree@.levels[0][i].0];
            let k = n.keys[p];
            let m = map.contents(records);
            &&& covers(&map.key_format, map.tree@.levels[0], i, k)
            &&& m.contains_key(k)
            &&& m[k] == leaf_value(&map.value_format, records, n, p)
            &&& (n.body matches BodyM::ExternalLeaf { recids, .. } ==> recids[p] != 0 && item_at(
                &map.value_format,
                records,
                recids[p] as u64,
            ) == Some(Some(m[k])))
            &&& (n.body is ExternalLeaf == !map.value_inline)
            &&& (n.body is Leaf == map.value_inline)
        }),
{
    let t = map.tree@;
    let nodes = map.nodes(records);
    let l = t.levels[0];
    let n = nodes[l[i].0];
    let k = n.keys[p];
    assert(level_ok(&map.key_format, map.value_inline, nodes, t.levels[0], false));
    assert(level_node(&map.key_format, map.value_inline, nodes, l, i, false));
    crate::btree::contents::lemma_leaf_key_covers(
        &map.key_format,
        map.value_inline,
        nodes,
        l,
        i,
        p,
    );
    lemma_lookup(&map.key_format, &map.value_format, map.value_inline, records, nodes, l, i, k);
    assert(value_record_ok(&map.value_format, records, t.owner, nodes[l[i].0], p));
    if let BodyM::ExternalLeaf { recids, .. } = n.body {
        assert(0i64 as u64 == 0) by (bit_vector);
        assert(t.owner.contains_key(recids[p] as u64));
    }
}

} // verus!
