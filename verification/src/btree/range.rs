//! Key ranges, and maps listed in key order.

use vstd::prelude::*;
use crate::ser::{group_key_order, KeyFormat, Model, Serializer};
use super::contents::lists;

verus! {

/// `k` lies above a low bound, or on it where the bound is inclusive.
pub open spec fn lo_ok<KF: KeyFormat>(
    kf: &KF,
    k: Model<KF>,
    lo: Option<Model<KF>>,
    inc: bool,
) -> bool {
    lo matches Some(b) ==> kf.lt(b, k) || (inc && k == b)
}

/// `k` lies below a high bound, or on it where the bound is inclusive.
pub open spec fn hi_ok<KF: KeyFormat>(
    kf: &KF,
    k: Model<KF>,
    hi: Option<Model<KF>>,
    inc: bool,
) -> bool {
    hi matches Some(b) ==> kf.lt(k, b) || (inc && k == b)
}

/// `k` lies in the range.
pub open spec fn in_range<KF: KeyFormat>(
    kf: &KF,
    k: Model<KF>,
    lo: Option<Model<KF>>,
    lo_inc: bool,
    hi: Option<Model<KF>>,
    hi_inc: bool,
) -> bool {
    lo_ok(kf, k, lo, lo_inc) && hi_ok(kf, k, hi, hi_inc)
}

/// The entries of a map whose keys lie in the range.
pub open spec fn ranged<KF: KeyFormat, V>(
    kf: &KF,
    m: Map<Model<KF>, V>,
    lo: Option<Model<KF>>,
    lo_inc: bool,
    hi: Option<Model<KF>>,
    hi_inc: bool,
) -> Map<Model<KF>, V> {
    Map::new(
        |k: Model<KF>| m.contains_key(k) && in_range(kf, k, lo, lo_inc, hi, hi_inc),
        |k: Model<KF>| m[k],
    )
}

/// `k` is the least key of the map.
pub open spec fn is_least<KF: KeyFormat, V>(kf: &KF, m: Map<Model<KF>, V>, k: Model<KF>) -> bool {
    &&& m.contains_key(k)
    &&& forall|k2: Model<KF>| #[trigger] m.contains_key(k2) ==> !kf.lt(k2, k)
}

/// `k` is the greatest key of the map.
pub open spec fn is_greatest<KF: KeyFormat, V>(
    kf: &KF,
    m: Map<Model<KF>, V>,
    k: Model<KF>,
) -> bool {
    &&& m.contains_key(k)
    &&& forall|k2: Model<KF>| #[trigger] m.contains_key(k2) ==> !kf.lt(k, k2)
}

/// The models of a list of entries.
pub open spec fn entry_models<K: View, V: View>(s: Seq<(K, V)>) -> Seq<(K::V, V::V)> {
    Seq::new(s.len(), |i: int| (s[i].0@, s[i].1@))
}

/// `ks` are the keys of the map in order.
pub open spec fn lists_keys<KF: KeyFormat, V>(
    kf: &KF,
    ks: Seq<Model<KF>>,
    m: Map<Model<KF>, V>,
) -> bool {
    &&& crate::ser::sorted(kf, ks)
    &&& forall|i: int| 0 <= i < ks.len() ==> m.contains_key(#[trigger] ks[i])
    &&& forall|k: Model<KF>| #[trigger]
        m.contains_key(k) ==> exists|i: int| 0 <= i < ks.len() && #[trigger] ks[i] == k
}

/// Whether a key lies below the range.
pub fn below_lo<KF: KeyFormat>(kf: &KF, k: &KF::Item, lo: Option<&KF::Item>, inc: bool) -> (r: bool)
    ensures
        r == !lo_ok(kf, k@, super::map::opt_ref_model(lo), inc),
{
    broadcast use group_key_order;

    match lo {
        None => false,
        Some(b) => kf.less(k, b) || (!inc && !kf.less(b, k)),
    }
}

/// Whether a key lies above the range.
pub fn above_hi<KF: KeyFormat>(kf: &KF, k: &KF::Item, hi: Option<&KF::Item>, inc: bool) -> (r: bool)
    ensures
        r == !hi_ok(kf, k@, super::map::opt_ref_model(hi), inc),
{
    broadcast use group_key_order;

    match hi {
        None => false,
        Some(b) => kf.less(b, k) || (!inc && !kf.less(k, b)),
    }
}

/// The whole range is the whole map.
pub proof fn lemma_ranged_all<KF: KeyFormat, V>(
    kf: &KF,
    m: Map<Model<KF>, V>,
    lo_inc: bool,
    hi_inc: bool,
)
    ensures
        ranged(kf, m, None, lo_inc, None, hi_inc) == m,
{
    assert(ranged(kf, m, None, lo_inc, None, hi_inc) =~= m);
}

/// Past its least key a range has one entry less.
pub proof fn lemma_ranged_rest<KF: KeyFormat, V>(
    kf: &KF,
    m: Map<Model<KF>, V>,
    lo: Option<Model<KF>>,
    lo_inc: bool,
    hi: Option<Model<KF>>,
    hi_inc: bool,
    k: Model<KF>,
)
    requires
        is_least(kf, ranged(kf, m, lo, lo_inc, hi, hi_inc), k),
    ensures
        ranged(kf, m, Some(k), false, hi, hi_inc)
            == ranged(kf, m, lo, lo_inc, hi, hi_inc).remove(k),
{
    broadcast use group_key_order;

    let a = ranged(kf, m, Some(k), false, hi, hi_inc);
    let r = ranged(kf, m, lo, lo_inc, hi, hi_inc);
    assert forall|x: Model<KF>| a.contains_key(x) == r.remove(k).contains_key(x) by {
        if r.contains_key(x) {
            assert(!kf.lt(x, k));
        }
    }
    assert(a =~= r.remove(k));
}

/// A list of entries grows by an entry with a greater key.
pub proof fn lemma_lists_push<KF: KeyFormat, V>(
    kf: &KF,
    r: Seq<(Model<KF>, V)>,
    m: Map<Model<KF>, V>,
    k: Model<KF>,
    v: V,
)
    requires
        lists(kf, r, m),
        forall|k2: Model<KF>| #[trigger] m.contains_key(k2) ==> kf.lt(k2, k),
    ensures
        lists(kf, r.push((k, v)), m.insert(k, v)),
{
    broadcast use group_key_order;

    let r2 = r.push((k, v));
    let m2 = m.insert(k, v);
    assert forall|i: int, j: int|
        #![trigger r2[i], r2[j]]
        0 <= i < j < r2.len() implies kf.lt(r2[i].0, r2[j].0) by {
        if j == r.len() {
            assert(m.contains_key(r[i].0));
        } else {
            assert(kf.lt(r[i].0, r[j].0));
        }
    }
    assert forall|i: int| #![trigger r2[i]] 0 <= i < r2.len() implies m2.contains_key(r2[i].0)
        && m2[r2[i].0] == r2[i].1 by {
        if i < r.len() {
            assert(m.contains_key(r[i].0));
        }
    }
    assert forall|x: Model<KF>| #[trigger] m2.contains_key(x) implies exists|i: int|
        0 <= i < r2.len() && (#[trigger] r2[i]).0 == x by {
        if x == k {
            assert(r2[r.len() as int].0 == k);
        } else {
            assert(m.contains_key(x));
            let i = choose|i: int| 0 <= i < r.len() && (#[trigger] r[i]).0 == x;
            assert(r2[i].0 == x);
        }
    }
}

/// A list of entries grows at the front by an entry with a smaller key.
pub proof fn lemma_lists_front<KF: KeyFormat, V>(
    kf: &KF,
    r: Seq<(Model<KF>, V)>,
    m: Map<Model<KF>, V>,
    k: Model<KF>,
    v: V,
)
    requires
        lists(kf, r, m),
        forall|k2: Model<KF>| #[trigger] m.contains_key(k2) ==> kf.lt(k, k2),
    ensures
        lists(kf, seq![(k, v)] + r, m.insert(k, v)),
{
    broadcast use group_key_order;

    let r2 = seq![(k, v)] + r;
    let m2 = m.insert(k, v);
    assert forall|i: int, j: int|
        #![trigger r2[i], r2[j]]
        0 <= i < j < r2.len() implies kf.lt(r2[i].0, r2[j].0) by {
        assert(r2[j] == r[j - 1]);
        assert(m.contains_key(r[j - 1].0));
        if i > 0 {
            assert(r2[i] == r[i - 1]);
            assert(kf.lt(r[i - 1].0, r[j - 1].0));
        }
    }
    assert forall|i: int| #![trigger r2[i]] 0 <= i < r2.len() implies m2.contains_key(r2[i].0)
        && m2[r2[i].0] == r2[i].1 by {
        if i > 0 {
            assert(r2[i] == r[i - 1]);
            assert(m.contains_key(r[i - 1].0));
        }
    }
    assert forall|x: Model<KF>| #[trigger] m2.contains_key(x) implies exists|i: int|
        0 <= i < r2.len() && (#[trigger] r2[i]).0 == x by {
        if x == k {
            assert(r2[0].0 == k);
        } else {
            assert(m.contains_key(x));
            let i = choose|i: int| 0 <= i < r.len() && (#[trigger] r[i]).0 == x;
            assert(r2[i + 1].0 == x);
        }
    }
}

/// A list has as many entries as its map.
pub proof fn lemma_lists_len<KF: KeyFormat, V>(
    kf: &KF,
    r: Seq<(Model<KF>, V)>,
    m: Map<Model<KF>, V>,
)
    requires
        lists(kf, r, m),
    ensures
        m.dom().finite(),
        r.len() == m.len(),
{
    broadcast use group_key_order;

    let ks = Seq::new(r.len(), |i: int| r[i].0);
    assert forall|i: int| 0 <= i < ks.len() implies m.contains_key(#[trigger] ks[i]) by {
        assert(m.contains_key(r[i].0));
    }
    assert forall|i: int, j: int| #![trigger ks[i], ks[j]] 0 <= i < j < ks.len() implies kf.lt(
        ks[i],
        ks[j],
    ) by {
        assert(kf.lt(r[i].0, r[j].0));
    }
    assert forall|k: Model<KF>| #[trigger] m.contains_key(k) implies exists|i: int|
        0 <= i < ks.len() && #[trigger] ks[i] == k by {
        let i = choose|i: int| 0 <= i < r.len() && (#[trigger] r[i]).0 == k;
        assert(ks[i] == k);
    }
    lemma_keys_len(kf, ks, m);
}

pub proof fn lemma_keys_len<KF: KeyFormat, V>(
    kf: &KF,
    ks: Seq<Model<KF>>,
    m: Map<Model<KF>, V>,
)
    requires
        lists_keys(kf, ks, m),
    ensures
        m.dom().finite(),
        ks.len() == m.len(),
{
    broadcast use group_key_order;

    assert(ks.no_duplicates()) by {
        assert forall|i: int, j: int| 0 <= i < ks.len() && 0 <= j < ks.len() && i != j implies ks[i]
            != ks[j] by {
            if i < j {
                assert(kf.lt(ks[i], ks[j]));
            } else {
                assert(kf.lt(ks[j], ks[i]));
            }
        }
    }
    ks.unique_seq_to_set();
    assert(ks.to_set() =~= m.dom()) by {
        assert forall|k: Model<KF>| ks.to_set().contains(k) == m.dom().contains(k) by {
            if m.contains_key(k) {
                let i = choose|i: int| 0 <= i < ks.len() && #[trigger] ks[i] == k;
                assert(ks.contains(k));
            }
        }
    }
    vstd::seq_lib::seq_to_set_is_finite(ks);
}

/// A map is listed in one way only.
pub proof fn law_listing_is_unique<KF: KeyFormat, V>(
    kf: &KF,
    r1: Seq<(Model<KF>, V)>,
    r2: Seq<(Model<KF>, V)>,
    m: Map<Model<KF>, V>,
)
    requires
        lists(kf, r1, m),
        lists(kf, r2, m),
    ensures
        r1 == r2,
    decreases r1.len(),
{
    broadcast use group_key_order;

    lemma_lists_len(kf, r1, m);
    lemma_lists_len(kf, r2, m);
    if r1.len() > 0 {
        let n = r1.len() - 1;
        let a = r1[n];
        let b = r2[n];
        // both end with the greatest key
        assert(a.0 == b.0) by {
            assert(m.contains_key(a.0) && m.contains_key(b.0));
            let i = choose|i: int| 0 <= i < r2.len() && (#[trigger] r2[i]).0 == a.0;
            let j = choose|j: int| 0 <= j < r1.len() && (#[trigger] r1[j]).0 == b.0;
            if i < n {
                assert(kf.lt(r2[i].0, r2[n].0));
            }
            if j < n {
                assert(kf.lt(r1[j].0, r1[n].0));
            }
        }
        let m2 = m.remove(a.0);
        lemma_lists_pop(kf, r1, m);
        lemma_lists_pop(kf, r2, m);
        law_listing_is_unique(kf, r1.drop_last(), r2.drop_last(), m2);
        assert(r1 =~= r1.drop_last().push(a));
        assert(r2 =~= r2.drop_last().push(b));
    } else {
        assert(r1 =~= r2);
    }
}

pub proof fn lemma_lists_pop<KF: KeyFormat, V>(
    kf: &KF,
    r: Seq<(Model<KF>, V)>,
    m: Map<Model<KF>, V>,
)
    requires
        lists(kf, r, m),
        r.len() > 0,
    ensures
        lists(kf, r.drop_last(), m.remove(r.last().0)),
{
    broadcast use group_key_order;

    let s = r.drop_last();
    let m2 = m.remove(r.last().0);
    assert forall|i: int| #![trigger s[i]] 0 <= i < s.len() implies m2.contains_key(s[i].0)
        && m2[s[i].0]
        == s[i].1 by {
        assert(s[i] == r[i]);
        assert(kf.lt(r[i].0, r[r.len() - 1].0));
    }
    assert forall|i: int, j: int|
        #![trigger s[i], s[j]]
        0 <= i < j < s.len() implies kf.lt(s[i].0, s[j].0) by {
        assert(s[i] == r[i] && s[j] == r[j]);
    }
    assert forall|k: Model<KF>| #[trigger] m2.contains_key(k) implies exists|i: int|
        0 <= i < s.len() && (#[trigger] s[i]).0 == k by {
        assert(m.contains_key(k));
        let i = choose|i: int| 0 <= i < r.len() && (#[trigger] r[i]).0 == k;
        assert(s[i].0 == k);
    }
}

} // verus!
