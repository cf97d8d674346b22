//! What holds of a map as a whole.

use vstd::prelude::*;
use crate::error::{DbError, Result};
use crate::ser::{KeyFormat, Model, Serializer};
use crate::store::{served, StoreState};
use crate::btree::contents::lists;
use crate::btree::range::{law_listing_is_unique, lemma_lists_len, lemma_lists_pop};
use crate::btree::tree::nodes_of;
use super::bulk::bulk_room;
use super::open::stored_tree;
use super::{lookup, BTreeMap};

verus! {

/// What a map holds once entries are put one after the other.
pub open spec fn all_put<K, V>(m: Map<K, V>, entries: Seq<(K, V)>) -> Map<K, V>
    decreases entries.len(),
{
    if entries.len() == 0 {
        m
    } else {
        all_put(m, entries.drop_last()).insert(entries.last().0, entries.last().1)
    }
}

impl<KF: KeyFormat, VF: Serializer> BTreeMap<KF, VF> {
    /// A key reads what was put last, and every other key what it read before.
    pub proof fn law_put_then_get(
        &self,
        before: &Self,
        a: StoreState,
        b: StoreState,
        k: Model<KF>,
        v: Model<VF>,
        other: Model<KF>,
        spent: nat,
    )
        requires
            self.became(before, a, b, before.contents(a.records).insert(k, v), spent),
        ensures
            lookup(self.contents(b.records), k) == Some(v),
            other != k ==> lookup(self.contents(b.records), other) == lookup(
                before.contents(a.records),
                other,
            ),
    {
    }

    /// A key that was removed reads nothing, and every other key what it read before.
    pub proof fn law_remove_then_get(
        &self,
        before: &Self,
        a: StoreState,
        b: StoreState,
        k: Model<KF>,
        other: Model<KF>,
    )
        requires
            self.became(before, a, b, before.contents(a.records).remove(k), 0),
        ensures
            lookup(self.contents(b.records), k) is None,
            other != k ==> lookup(self.contents(b.records), other) == lookup(
                before.contents(a.records),
                other,
            ),
    {
    }

    /// Of two values put under a key the later one counts.
    pub proof fn law_last_put_wins(
        &self,
        between: &Self,
        before: &Self,
        a: StoreState,
        b: StoreState,
        c: StoreState,
        k: Model<KF>,
        v: Model<VF>,
        w: Model<VF>,
        spent: nat,
        spent_too: nat,
    )
        requires
            between.became(before, a, b, before.contents(a.records).insert(k, v), spent),
            self.became(between, b, c, between.contents(b.records).insert(k, w), spent_too),
        ensures
            self.contents(c.records) == before.contents(a.records).insert(k, w),
    {
        assert(before.contents(a.records).insert(k, v).insert(k, w) =~= before.contents(
            a.records,
        ).insert(k, w));
    }

    /// Removing a key undoes putting it where it was not there.
    pub proof fn law_remove_undoes_put(
        &self,
        between: &Self,
        before: &Self,
        a: StoreState,
        b: StoreState,
        c: StoreState,
        k: Model<KF>,
        v: Model<VF>,
        spent: nat,
    )
        requires
            !before.contents(a.records).contains_key(k),
            between.became(before, a, b, before.contents(a.records).insert(k, v), spent),
            self.became(between, b, c, between.contents(b.records).remove(k), 0),
        ensures
            self.contents(c.records) == before.contents(a.records),
    {
        assert(before.contents(a.records).insert(k, v).remove(k) =~= before.contents(a.records));
    }

    /// A put makes the map larger by one where the key is new, and a removal smaller by
    /// one where it was there.
    pub proof fn law_sizes(
        &self,
        removed: &Self,
        before: &Self,
        a: StoreState,
        b: StoreState,
        c: StoreState,
        k: Model<KF>,
        v: Model<VF>,
        spent: nat,
    )
        requires
            before.wf(a.records),
            self.became(before, a, b, before.contents(a.records).insert(k, v), spent),
            removed.became(before, a, c, before.contents(a.records).remove(k), 0),
        ensures
            ({
                let m = before.contents(a.records);
                let there = m.contains_key(k);
                &&& self.contents(b.records).len() == m.len() + if there {
                    0int
                } else {
                    1
                }
                &&& removed.contents(c.records).len() == m.len() - if there {
                    1int
                } else {
                    0
                }
            }),
    {
        before.lemma_finite(a.records);
        let m = before.contents(a.records);
        assert(m.insert(k, v).dom() =~= m.dom().insert(k));
        assert(m.remove(k).dom() =~= m.dom().remove(k));
    }

    /// Maps with records of their own do not touch each other: whatever one becomes, the
    /// other keeps its entries, and they stay apart.
    pub proof fn law_other_maps_keep<KG: KeyFormat, VG: Serializer>(
        &self,
        before: &Self,
        other: &BTreeMap<KG, VG>,
        a: StoreState,
        b: StoreState,
        m: Map<Model<KF>, Model<VF>>,
        spent: nat,
    )
        requires
            self.became(before, a, b, m, spent),
            other.wf(a.records),
            other.owned().disjoint(before.owned()),
        ensures
            other.wf(b.records),
            other.contents(b.records) == other.contents(a.records),
            other.owned().disjoint(self.owned()),
    {
        other.lemma_owned_records(a.records);
        assert forall|r: u64| #[trigger] other.owned().contains(r) implies b.records.contains_key(r)
            && b.records[r] == a.records[r] && !self.owned().contains(r) by {
            assert(!before.owned().contains(r));
            assert(a.records.contains_key(r));
            assert(b.records.contains_key(r));
        }
        other.law_untouched(a.records, b.records);
    }

    /// The same of a change that failed: even where it spoiled the handle, other maps keep
    /// their entries.
    pub proof fn law_other_maps_survive_failure<KG: KeyFormat, VG: Serializer>(
        &self,
        before: &Self,
        other: &BTreeMap<KG, VG>,
        a: StoreState,
        b: StoreState,
        k: Model<KF>,
        spent: nat,
    )
        requires
            self.left_alone(before, a, b, spent) || self.taken_or_left(before, a, b, k),
            other.wf(a.records),
            other.owned().disjoint(before.owned()),
        ensures
            other.wf(b.records),
            other.contents(b.records) == other.contents(a.records),
    {
        self.lemma_spared(before, a, b, k, spent);
        other.lemma_owned_records(a.records);
        assert forall|r: u64| #[trigger] other.owned().contains(r) implies b.records.contains_key(r)
            && b.records[r] == a.records[r] by {
            assert(!before.owned().contains(r));
            assert(a.records.contains_key(r));
        }
        other.law_untouched(a.records, b.records);
    }

    /// A map that is opened again over its records has the same entries.
    pub proof fn law_reopened(&self, st: StoreState, r: Result<Self>)
        requires
            self.wf(st.records),
            Self::open_post(
                st,
                self.pointer(),
                self.kf(),
                self.vf(),
                self.node_size(),
                self.counter(),
                self.inline(),
                r,
            ),
        ensures
            served(st, r),
            r matches Ok(again) ==> again.wf(st.records) && again.contents(st.records)
                == self.contents(st.records),
    {
        self.law_contents_are_stored(st.records);
        self.lemma_parameters(st.records);
    }

    /// Listing a map downwards gives what listing it upwards gives, the last first.
    pub proof fn law_down_reverses_up(
        kf: &KF,
        m: Map<Model<KF>, Model<VF>>,
        up: Seq<(Model<KF>, Model<VF>)>,
        down: Seq<(Model<KF>, Model<VF>)>,
    )
        requires
            lists(kf, up, m),
            lists(kf, down.reverse(), m),
        ensures
            down == up.reverse(),
            up.len() == m.len(),
    {
        law_listing_is_unique(kf, up, down.reverse(), m);
        lemma_lists_len(kf, up, m);
        assert(down.reverse().reverse() =~= down);
    }

    /// A map that was built from entries is the map into which they were put one after
    /// the other.
    pub proof fn law_bulk_is_put_by_put(
        kf: &KF,
        entries: Seq<(Model<KF>, Model<VF>)>,
        m: Map<Model<KF>, Model<VF>>,
    )
        requires
            lists(kf, entries, m),
        ensures
            m == all_put(Map::empty(), entries),
        decreases entries.len(),
    {
        if entries.len() == 0 {
            assert(m =~= Map::empty()) by {
                assert forall|k: Model<KF>| !m.contains_key(k) by {}
            }
        } else {
            let e = entries.last();
            let n = entries.len() - 1;
            lemma_lists_pop(kf, entries, m);
            Self::law_bulk_is_put_by_put(kf, entries.drop_last(), m.remove(e.0));
            assert(m.contains_key(entries[n].0) && m[entries[n].0] == entries[n].1);
            assert(m =~= m.remove(e.0).insert(e.0, e.1));
        }
    }

    /// A bulk build takes entries whose keys ascend strictly and no others. The map has the
    /// value of every entry, and nothing else; every node but the last of its level has as
    /// many keys as were asked for, and the last one no more.
    pub proof fn law_bulk_build(
        a: StoreState,
        b: StoreState,
        kf: KF,
        vf: VF,
        size: usize,
        fill: int,
        entries: Seq<(Model<KF>, Model<VF>)>,
        counted: bool,
        r: Result<Self>,
        i: int,
        j: int,
        l: int,
        n: int,
    )
        requires
            Self::bulk_post(a, b, kf, vf, size, fill, entries, counted, r),
            4 <= size <= 1048576,
            0 < fill,
            entries.len() < i64::MAX,
            0 <= i < j < entries.len(),
        ensures
            r is Ok ==> kf.lt(entries[i].0, entries[j].0),
            !kf.lt(entries[i].0, entries[j].0) && a.readable && a.writable && a.room >= bulk_room(
                entries.len(),
            ) ==> r == Err::<Self, DbError>(DbError::NotSorted),
            r matches Ok(map) ==> lookup(map.contents(b.records), entries[i].0) == Some(
                entries[i].1,
            ) && map.contents(b.records).len() == entries.len(),
            r matches Ok(map) ==> {
                let t = stored_tree(&kf, &vf, true, b.records, map.pointer(), map.counter());
                let nodes = nodes_of(&kf, &vf, true, b.records);
                0 <= l < t.levels.len() && 0 <= n < t.levels[l].len() ==> {
                    let keys = nodes[t.levels[l][n].0].keys;
                    keys.len() <= fill && (n + 1 < t.levels[l].len() ==> keys.len() == fill)
                }
            },
    {
        if let Ok(map) = r {
            lemma_lists_len(&kf, entries, map.contents(b.records));
        }
    }
}

} // verus!
