//! What it means to find one's way through a map by the order of its keys.

use vstd::prelude::*;
use crate::error::{DbError, Result};
use crate::io::{lemma_packed_len, packed};
use crate::ser::{
    all_fit, enc_all, group_key_order, KeyFormat, Model, PairFormat, Serializer, LONG, LONG_PACKED,
};
use crate::store::StoreState;
use super::contents::lists;
use super::map::bulk::ascending;
use super::map::column::{column_map, Columns};
use super::map::{lookup, BTreeMap, MAX_MAX_NODE_SIZE, MIN_MAX_NODE_SIZE};
use super::node::{enc_node, hint_value, node_fits, node_ok, BodyM, NodeM};
use super::pump::usual_fill;
use super::range::{in_range, is_greatest, is_least, lists_keys, ranged};
use super::view::{
    after_bound, asked, comes_after, crossed, is_end, is_end_key, is_first, is_last, keys_after,
    keys_before, oriented, OrderedMapAdapter, RangeView,
};

verus! {

/// A key outside the bounds is not in a range, one between them is, and one that lies on
/// a bound is there where the bound is inclusive.
pub proof fn law_range_bounds<KF: KeyFormat>(
    kf: &KF,
    k: Model<KF>,
    lo: Model<KF>,
    hi: Model<KF>,
    lo_inc: bool,
    hi_inc: bool,
)
    ensures
        in_range(kf, k, None, lo_inc, None, hi_inc),
        kf.lt(k, lo) ==> !in_range(kf, k, Some(lo), lo_inc, None, hi_inc) && !in_range(
            kf,
            k,
            Some(lo),
            lo_inc,
            Some(hi),
            hi_inc,
        ),
        kf.lt(hi, k) ==> !in_range(kf, k, None, lo_inc, Some(hi), hi_inc) && !in_range(
            kf,
            k,
            Some(lo),
            lo_inc,
            Some(hi),
            hi_inc,
        ),
        kf.lt(lo, k) ==> in_range(kf, k, Some(lo), lo_inc, None, hi_inc),
        kf.lt(k, hi) ==> in_range(kf, k, None, lo_inc, Some(hi), hi_inc),
        kf.lt(lo, k) && kf.lt(k, hi) ==> in_range(kf, k, Some(lo), lo_inc, Some(hi), hi_inc),
        in_range(kf, lo, Some(lo), lo_inc, None, hi_inc) == lo_inc,
        in_range(kf, hi, None, lo_inc, Some(hi), hi_inc) == hi_inc,
        kf.lt(lo, hi) ==> in_range(kf, lo, Some(lo), lo_inc, Some(hi), hi_inc) == lo_inc,
        kf.lt(lo, hi) ==> in_range(kf, hi, Some(lo), lo_inc, Some(hi), hi_inc) == hi_inc,
        in_range(kf, k, Some(k), lo_inc, Some(k), hi_inc) == (lo_inc && hi_inc),
{
    broadcast use group_key_order;

}

/// A part of a map holds the entries of the map whose keys are in the range, with their
/// values, and nothing else.
pub proof fn law_part_of_a_map<KF: KeyFormat, V>(
    kf: &KF,
    m: Map<Model<KF>, V>,
    lo: Option<Model<KF>>,
    lo_inc: bool,
    hi: Option<Model<KF>>,
    hi_inc: bool,
    k: Model<KF>,
)
    ensures
        ({
            let part = ranged(kf, m, lo, lo_inc, hi, hi_inc);
            &&& part.contains_key(k) <==> m.contains_key(k) && in_range(
                kf,
                k,
                lo,
                lo_inc,
                hi,
                hi_inc,
            )
            &&& part.contains_key(k) ==> part[k] == m[k]
        }),
        lookup(m, k) is Some <==> m.contains_key(k),
        lookup(m, k) matches Some(v) ==> v == m[k],
{
}

/// Nothing lies between bounds that are crossed, and bounds that are not crossed are the
/// right way round.
pub proof fn law_crossed_bounds<KF: KeyFormat>(
    kf: &KF,
    lo: Model<KF>,
    hi: Model<KF>,
    lo_inc: bool,
    hi_inc: bool,
    k: Model<KF>,
)
    ensures
        crossed(kf, Some(lo), lo_inc, Some(hi), hi_inc) ==> !in_range(
            kf,
            k,
            Some(lo),
            lo_inc,
            Some(hi),
            hi_inc,
        ),
        kf.lt(lo, hi) ==> !crossed(kf, Some(lo), lo_inc, Some(hi), hi_inc),
        kf.lt(hi, lo) ==> crossed(kf, Some(lo), lo_inc, Some(hi), hi_inc),
        crossed(kf, Some(lo), lo_inc, Some(lo), hi_inc) == !(lo_inc && hi_inc),
        !crossed(kf, None, lo_inc, Some(hi), hi_inc),
        !crossed(kf, Some(lo), lo_inc, None, hi_inc),
        !crossed(kf, None::<Model<KF>>, lo_inc, None, hi_inc),
{
    broadcast use group_key_order;

}

/// The least key of a map is one of its keys and comes before every other; the greatest
/// comes after every other.
pub proof fn law_least_and_greatest<KF: KeyFormat, V>(
    kf: &KF,
    m: Map<Model<KF>, V>,
    k: Model<KF>,
    other: Model<KF>,
)
    requires
        m.contains_key(other),
        other != k,
    ensures
        is_least(kf, m, k) ==> m.contains_key(k) && kf.lt(k, other),
        is_greatest(kf, m, k) ==> m.contains_key(k) && kf.lt(other, k),
{
    broadcast use group_key_order;

}

/// What a map comes to first, going up or down: an entry of the map, with no key before
/// it; none only where the map has no key.
pub proof fn law_ends<KF: KeyFormat, V>(
    kf: &KF,
    m: Map<Model<KF>, V>,
    up: Option<(Model<KF>, V)>,
    down: Option<(Model<KF>, V)>,
    k: Model<KF>,
)
    requires
        is_end(kf, m, false, up),
        is_end(kf, m, true, down),
    ensures
        is_first(kf, m, up),
        is_last(kf, m, down),
        up matches Some(e) ==> m.contains_key(e.0) && m[e.0] == e.1,
        down matches Some(e) ==> m.contains_key(e.0) && m[e.0] == e.1,
        m.contains_key(k) ==> up is Some && down is Some,
        m.contains_key(k) ==> (up matches Some(e) && (k == e.0 || kf.lt(e.0, k))),
        m.contains_key(k) ==> (down matches Some(e) && (k == e.0 || kf.lt(k, e.0))),
{
    broadcast use group_key_order;

}

/// The same for the key alone.
pub proof fn law_end_keys<KF: KeyFormat, V>(
    kf: &KF,
    m: Map<Model<KF>, V>,
    up: Option<Model<KF>>,
    down: Option<Model<KF>>,
    k: Model<KF>,
)
    requires
        is_end_key(kf, m, false, up),
        is_end_key(kf, m, true, down),
    ensures
        up matches Some(x) ==> m.contains_key(x),
        down matches Some(x) ==> m.contains_key(x),
        m.contains_key(k) ==> (up matches Some(x) && (k == x || kf.lt(x, k))),
        m.contains_key(k) ==> (down matches Some(x) && (k == x || kf.lt(k, x))),
{
    broadcast use group_key_order;

}

/// The floor of a key is the last entry that does not come after it, and its lower
/// neighbour the last that comes before it.
pub proof fn law_floor_and_lower<KF: KeyFormat, V>(
    kf: &KF,
    m: Map<Model<KF>, V>,
    k: Model<KF>,
    floor: Option<(Model<KF>, V)>,
    lower: Option<(Model<KF>, V)>,
    other: Model<KF>,
)
    requires
        is_last(kf, ranged(kf, m, None, true, Some(k), true), floor),
        is_last(kf, ranged(kf, m, None, true, Some(k), false), lower),
    ensures
        floor matches Some(e) ==> m.contains_key(e.0) && m[e.0] == e.1 && !kf.lt(k, e.0),
        lower matches Some(e) ==> m.contains_key(e.0) && m[e.0] == e.1 && kf.lt(e.0, k),
        m.contains_key(other) && !kf.lt(k, other) ==> (floor matches Some(e) && !kf.lt(
            e.0,
            other,
        )),
        m.contains_key(other) && kf.lt(other, k) ==> (lower matches Some(e) && !kf.lt(e.0, other)),
        m.contains_key(k) ==> floor == Some((k, m[k])),
        !m.contains_key(k) ==> floor == lower,
{
    broadcast use group_key_order;

    let p = ranged(kf, m, None, true, Some(k), true);
    let q = ranged(kf, m, None, true, Some(k), false);
    assert(m.contains_key(other) && !kf.lt(k, other) ==> p.contains_key(other));
    assert(m.contains_key(other) && kf.lt(other, k) ==> q.contains_key(other));
    if m.contains_key(k) {
        assert(p.contains_key(k));
    } else {
        assert(p =~= q);
        if let Some(e) = floor {
            assert(q.contains_key(e.0));
        }
        if let Some(e) = lower {
            assert(p.contains_key(e.0));
        }
    }
}

/// The ceiling of a key is the first entry that does not come before it, and its higher
/// neighbour the first that comes after it.
pub proof fn law_ceiling_and_higher<KF: KeyFormat, V>(
    kf: &KF,
    m: Map<Model<KF>, V>,
    k: Model<KF>,
    ceiling: Option<(Model<KF>, V)>,
    higher: Option<(Model<KF>, V)>,
    other: Model<KF>,
)
    requires
        is_first(kf, ranged(kf, m, Some(k), true, None, true), ceiling),
        is_first(kf, ranged(kf, m, Some(k), false, None, true), higher),
    ensures
        ceiling matches Some(e) ==> m.contains_key(e.0) && m[e.0] == e.1 && !kf.lt(e.0, k),
        higher matches Some(e) ==> m.contains_key(e.0) && m[e.0] == e.1 && kf.lt(k, e.0),
        m.contains_key(other) && !kf.lt(other, k) ==> (ceiling matches Some(e) && !kf.lt(
            other,
            e.0,
        )),
        m.contains_key(other) && kf.lt(k, other) ==> (higher matches Some(e) && !kf.lt(other, e.0)),
        m.contains_key(k) ==> ceiling == Some((k, m[k])),
        !m.contains_key(k) ==> ceiling == higher,
{
    broadcast use group_key_order;

    let p = ranged(kf, m, Some(k), true, None, true);
    let q = ranged(kf, m, Some(k), false, None, true);
    assert(m.contains_key(other) && !kf.lt(other, k) ==> p.contains_key(other));
    assert(m.contains_key(other) && kf.lt(k, other) ==> q.contains_key(other));
    if m.contains_key(k) {
        assert(p.contains_key(k));
    } else {
        assert(p =~= q);
        if let Some(e) = ceiling {
            assert(q.contains_key(e.0));
        }
        if let Some(e) = higher {
            assert(p.contains_key(e.0));
        }
    }
}

/// Going down is going up in the reverse order: what comes before a key and what comes
/// after it change places.
pub proof fn law_directions<KF: KeyFormat, V>(
    kf: &KF,
    m: Map<Model<KF>, V>,
    k: Model<KF>,
    x: Model<KF>,
    inc: bool,
)
    ensures
        comes_after(kf, x, k, false) == kf.lt(k, x),
        comes_after(kf, x, k, true) == kf.lt(x, k),
        after_bound(kf, x, k, inc, false) == (kf.lt(k, x) || (inc && x == k)),
        after_bound(kf, x, k, inc, true) == (kf.lt(x, k) || (inc && x == k)),
        keys_after(kf, m, k, inc, false).contains_key(x) == (m.contains_key(x) && (kf.lt(k, x) || (
        inc && x == k))),
        keys_after(kf, m, k, inc, true).contains_key(x) == (m.contains_key(x) && (kf.lt(x, k) || (
        inc && x == k))),
        keys_before(kf, m, k, inc, false).contains_key(x) == (m.contains_key(x) && (kf.lt(x, k) || (
        inc && x == k))),
        keys_before(kf, m, k, inc, true).contains_key(x) == (m.contains_key(x) && (kf.lt(k, x) || (
        inc && x == k))),
        keys_after(kf, m, k, inc, false).contains_key(x) ==> keys_after(kf, m, k, inc, false)[x]
            == m[x],
        keys_after(kf, m, k, inc, true).contains_key(x) ==> keys_after(kf, m, k, inc, true)[x]
            == m[x],
{
}

/// A listing of a map names each of its keys once, in ascending order, with its value;
/// turned round the order is descending.
pub proof fn law_listing<KF: KeyFormat, V>(
    kf: &KF,
    r: Seq<(Model<KF>, V)>,
    m: Map<Model<KF>, V>,
    i: int,
    j: int,
    k: Model<KF>,
)
    requires
        lists(kf, r, m),
        0 <= i < j < r.len(),
    ensures
        kf.lt(oriented(r, false)[i].0, oriented(r, false)[j].0),
        kf.lt(oriented(r, true)[j].0, oriented(r, true)[i].0),
        m.contains_key(r[i].0) && m[r[i].0] == r[i].1,
        m.contains_key(r[j].0) && m[r[j].0] == r[j].1,
        m.contains_key(k) ==> r.contains((k, m[k])),
        oriented(r, true).len() == r.len(),
{
    let b = oriented(r, true);
    assert(b[i] == r[r.len() - 1 - i] && b[j] == r[r.len() - 1 - j]);
    if m.contains_key(k) {
        let n = choose|n: int| 0 <= n < r.len() && (#[trigger] r[n]).0 == k;
        assert(r[n] == (k, m[k]));
    }
}

/// The same of a listing of keys.
pub proof fn law_key_listing<KF: KeyFormat, V>(
    kf: &KF,
    ks: Seq<Model<KF>>,
    m: Map<Model<KF>, V>,
    i: int,
    j: int,
    k: Model<KF>,
)
    requires
        lists_keys(kf, ks, m),
        0 <= i < j < ks.len(),
    ensures
        kf.lt(ks[i], ks[j]),
        m.contains_key(ks[i]),
        m.contains_key(ks[j]),
        m.contains_key(k) ==> ks.contains(k),
{
}

/// A listing begins with the first entry and ends with the last.
pub proof fn law_listing_ends<KF: KeyFormat, V>(
    kf: &KF,
    r: Seq<(Model<KF>, V)>,
    m: Map<Model<KF>, V>,
    first: Option<(Model<KF>, V)>,
    last: Option<(Model<KF>, V)>,
)
    requires
        lists(kf, r, m),
        is_first(kf, m, first),
        is_last(kf, m, last),
    ensures
        r.len() == 0 <==> first is None,
        r.len() == 0 <==> last is None,
        r.len() > 0 ==> first == Some(r[0]) && last == Some(r.last()),
{
    broadcast use group_key_order;

    if r.len() > 0 {
        assert(m.contains_key(r[0].0) && m.contains_key(r.last().0));
        let (a, _) = first.unwrap();
        let (b, _) = last.unwrap();
        assert(m.contains_key(a) && m.contains_key(b));
        let i = choose|i: int| 0 <= i < r.len() && (#[trigger] r[i]).0 == a;
        let j = choose|j: int| 0 <= j < r.len() && (#[trigger] r[j]).0 == b;
        if i > 0 {
            assert(kf.lt(r[0].0, r[i].0));
        }
        if j < r.len() - 1 {
            assert(kf.lt(r[j].0, r[r.len() - 1].0));
        }
        assert(r[0] == (r[0].0, r[0].1) && r.last() == (r.last().0, r.last().1));
    } else {
        if let Some((a, _)) = first {
            assert(m.contains_key(a));
        }
        if let Some((b, _)) = last {
            assert(m.contains_key(b));
        }
    }
}

/// What a view shows: the entries of the map between its bounds, whichever way it goes.
pub proof fn law_window<A: OrderedMapAdapter>(
    v: &RangeView<A>,
    a: &A,
    records: crate::store::Records,
    k: Model<A::KF>,
)
    ensures
        v.window(a, records).contains_key(k) <==> a.entries_of(records).contains_key(k) && v.shows(
            a,
            k,
        ),
        v.window(a, records).contains_key(k) ==> v.window(a, records)[k] == a.entries_of(
            records,
        )[k],
        v.shows(a, k) <==> {
            &&& v.low() matches Some(l) ==> a.format().lt(l, k) || (v.low_inc() && k == l)
            &&& v.high() matches Some(h) ==> a.format().lt(k, h) || (v.high_inc() && k == h)
        },
{
}

/// A column of a map has the keys of the map, each with that cell of its row.
pub proof fn law_column<K, VF: Columns>(vf: &VF, m: Map<K, Model<VF>>, column: int, k: K)
    ensures
        column_map(vf, m, column).contains_key(k) <==> m.contains_key(k),
        m.contains_key(k) ==> column_map(vf, m, column)[k] == vf.cell(m[k], column),
{
}

/// The columns of pairs are their first and their second parts.
pub proof fn law_pair_columns<A: Serializer>(f: &PairFormat<A, A>, x: Model<A>, y: Model<A>)
    ensures
        f.width_of_row() == 2,
        f.cell((x, y), 0) == x,
        f.cell((x, y), 1) == y,
{
}

/// The entries of a bulk build ascend exactly where every key comes before the next.
pub proof fn law_ascending<KF: KeyFormat, V>(kf: &KF, s: Seq<(Model<KF>, V)>, i: int)
    requires
        0 <= i < s.len() - 1,
    ensures
        ascending(kf, s) ==> kf.lt(s[i].0, s[i + 1].0) && s[i].0 != s[i + 1].0,
        ascending(kf, s) ==> ascending(kf, s.drop_last()),
        ascending(kf, s.drop_last()) && kf.lt(s[s.len() - 2].0, s.last().0) ==> ascending(kf, s),
{
    broadcast use group_key_order;

    let t = s.drop_last();
    if ascending(kf, t) && kf.lt(s[s.len() - 2].0, s.last().0) {
        assert forall|x: int, y: int| #![trigger s[x], s[y]] 0 <= x < y < s.len() implies kf.lt(
            s[x].0,
            s[y].0,
        ) by {
            if y == s.len() - 1 && x < s.len() - 2 {
                assert(kf.lt(t[x].0, t[t.len() - 1].0));
            } else if y < s.len() - 1 {
                assert(kf.lt(t[x].0, t[y].0));
            }
        }
    }
    if ascending(kf, s) {
        assert forall|x: int, y: int| #![trigger t[x], t[y]] 0 <= x < y < t.len() implies kf.lt(
            t[x].0,
            t[y].0,
        ) by {
            assert(kf.lt(s[x].0, s[y].0));
        }
    }
}

/// Without another wish the nodes of a bulk build are filled to three quarters, and to two
/// keys at least.
pub proof fn law_usual_fill(max_node_size: usize)
    requires
        4 <= max_node_size <= 1048576,
    ensures
        4 * usual_fill(max_node_size) <= 3 * max_node_size < 4 * usual_fill(max_node_size) + 4,
        2 <= usual_fill(max_node_size) <= max_node_size,
{
}

/// Nodes have at least four places and at most 2^20.
pub proof fn law_node_sizes()
    ensures
        MIN_MAX_NODE_SIZE == 4,
        MAX_MAX_NODE_SIZE == 0x10_0000,
{
}

/// A node starts with one packed number: sixteen times the number of its keys, and eight
/// more in a directory, four more in a leftmost and two more in a rightmost node. Behind it
/// stand the link to the right, which a rightmost node has not, the keys, and what the keys
/// lead to: packed recids in a directory, in a leaf the values or the recids of their
/// records in eight bytes each, and then the fence.
pub proof fn law_node_layout<KF: KeyFormat, VF: Serializer>(
    kf: &KF,
    vf: &VF,
    inline: bool,
    n: NodeM<Model<KF>, Model<VF>>,
)
    requires
        node_ok(kf, inline, n),
    ensures
        n.body is Dir <==> n.flags / 8 % 2 == 1,
        n.left() <==> n.flags / 4 % 2 == 1,
        n.link == 0 <==> n.flags / 2 % 2 == 1,
        ({
            let head = packed((16 * n.keys.len() + n.flags) as nat);
            let link = if n.link == 0 {
                Seq::empty()
            } else {
                packed(n.link as nat)
            };
            let lead = match n.body {
                BodyM::Dir { children } => enc_all(&LONG_PACKED, children),
                BodyM::Leaf { values, fence } => match fence {
                    Some(f) => enc_all(vf, values) + kf.enc(f),
                    None => enc_all(vf, values),
                },
                BodyM::ExternalLeaf { recids, fence } => match fence {
                    Some(f) => enc_all(&LONG, recids) + kf.enc(f),
                    None => enc_all(&LONG, recids),
                },
            };
            enc_node(kf, vf, n) == head + link + enc_all(kf, n.keys) + lead
        }),
{
    let f = n.flags;
    assert(0 <= f < 16 ==> ((f & 8 != 0) == (f / 8 % 2 == 1)) && ((f & 4 != 0) == (f / 4 % 2 == 1))
        && ((f & 2 != 0) == (f / 2 % 2 == 1))) by (bit_vector);
}

/// A view that says it has no key after another one has none, in the map of any time; and
/// so before it. A view whose bounds are crossed has no key at all.
pub proof fn law_no_key_left<A: OrderedMapAdapter>(
    v: &RangeView<A>,
    a: &A,
    records: crate::store::Records,
    k: Model<A::KF>,
    x: Model<A::KF>,
    inc: bool,
)
    requires
        v.window(a, records).contains_key(x),
    ensures
        !v.keyless(a),
        v.none_after(a, k, inc) ==> !comes_after(&a.format(), x, k, v.reversed()) && (inc ==> x
            != k),
        v.none_before(a, k, inc) ==> !comes_after(&a.format(), k, x, v.reversed()) && (inc ==> x
            != k),
{
    broadcast use group_key_order;

}

/// A map that failed half-way answers everything with corruption, and any other map over a
/// closed store that the store is closed.
pub proof fn law_unusable_maps<KF: KeyFormat, VF: Serializer, T>(
    map: &BTreeMap<KF, VF>,
    st: StoreState,
    r: Result<T>,
    q: Result<Option<T>>,
    keyless: bool,
)
    requires
        map.refuses(st, r),
        asked(map.spoiled(), st, keyless, q),
    ensures
        map.spoiled() ==> (r matches Err(DbError::DataCorruption(_))),
        !map.spoiled() && st.closed ==> r == Err::<T, DbError>(DbError::StoreClosed),
        keyless ==> (q matches Ok(None)),
        !keyless && map.spoiled() ==> (q matches Err(DbError::DataCorruption(_))),
        !keyless && !map.spoiled() && st.closed ==> q == Err::<Option<T>, DbError>(
            DbError::StoreClosed,
        ),
{
}

/// The buffer that is made ready for a leaf is large enough for it, where keys and values
/// have a width.
pub proof fn law_room_for_a_leaf<KF: KeyFormat, VF: Serializer>(
    kf: &KF,
    vf: &VF,
    n: NodeM<Model<KF>, Model<VF>>,
    max: nat,
)
    requires
        node_ok(kf, true, n),
        node_fits(kf, vf, n),
        !n.dir(),
        kf.width() is Some,
        vf.width() is Some,
        n.keys.len() <= max,
    ensures
        enc_node(kf, vf, n).len() <= hint_value(kf.width(), vf.width(), max),
{
    let kb = kf.width().unwrap() as int;
    let vb = vf.width().unwrap() as int;
    let c = n.keys.len() as int;
    lemma_packed_len((n.keys.len() * 16 + n.flags) as nat);
    lemma_packed_len(n.link as nat);
    lemma_row_len(kf, n.keys, kb);
    if let BodyM::Leaf { values, fence } = n.body {
        lemma_row_len(vf, values, vb);
        if let Some(f) = fence {
            kf.width_is_exact(f);
        }
        let w = if vb > 9 {
            vb
        } else {
            9
        };
        assert(c * kb + c * vb <= (max + 1) * (kb + w)) by (nonlinear_arith)
            requires
                0 <= c <= max,
                0 <= kb,
                0 <= vb <= w,
        ;
    }
}

/// A row of elements of one width.
proof fn lemma_row_len<S: Serializer>(f: &S, g: Seq<Model<S>>, w: int)
    requires
        all_fit(f, g),
        f.width() matches Some(n) && n == w,
    ensures
        enc_all(f, g).len() == g.len() * w,
    decreases g.len(),
{
    if g.len() > 0 {
        assert(all_fit(f, g.drop_last()));
        lemma_row_len(f, g.drop_last(), w);
        f.width_is_exact(g.last());
        assert((g.len() - 1) * w + w == g.len() * w) by (nonlinear_arith);
    }
}

} // verus!
