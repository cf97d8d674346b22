//! Deleting a collection together with what it holds.

use vstd::prelude::*;
use crate::btree::map::BTreeMap;
use crate::error::{DbError, Result};
use crate::queue::blocking::PersistentBlockingQueue;
use crate::ser::{KeyFormat, Model, Serializer};
use crate::store::{keeps_state, turned_down, Records, Store};
use super::catalog::{catalog_bytes, Names, RECID_CATALOG};
use super::db::DB;
use super::makers::lemma_queue_published;
use super::schema::{field_key, without};
use super::set::NavigableSet;

verus! {

/// The catalog is `m`, and beside it the records outside of `owned` are as they were.
pub open spec fn only_owned_changed(a: Records, b: Records, m: Names, owned: Set<u64>) -> bool {
    &&& b.contains_key(RECID_CATALOG) && b[RECID_CATALOG] == Some(catalog_bytes(m))
    &&& forall|x: u64| #[trigger]
        a.contains_key(x) && x != RECID_CATALOG && !owned.contains(x) ==> b.contains_key(x)
            && b[x] == a[x]
}

impl<S: Store> DB<S> {
    /// What deleting an object does to the catalog, and what it answers.
    pub open spec fn unlinked(&self, before: &Self, name: Seq<char>, r: Result<bool>) -> bool {
        let m = before.names();
        let known = m.contains_key(field_key(name, "type"@));
        &&& before.is_shut() ==> *self == *before && r == Err::<bool, DbError>(DbError::StoreClosed)
        &&& !before.is_shut() && !known ==> *self == *before && r == Ok::<bool, DbError>(false)
        &&& !before.is_shut() && known ==> {
            &&& self.same_frame(before)
            &&& before.publishable() ==> r is Ok
            &&& r is Err ==> self.names() == m && self.state().records == before.state().records
            &&& turned_down(before.state(), self.state(), r)
            &&& r matches Ok(found) ==> found && self.names() == without(m, name)
        }
    }

    /// What a collection holds can go with its name: the name is not one of a single
    /// value, the records can be written, and the collection does not hold the catalog.
    pub open spec fn can_tear_down(&self, name: Seq<char>, owned: Set<u64>) -> bool {
        &&& Self::freed(self.names(), name) is None
        &&& self.state().readable && self.state().writable
        &&& !owned.contains(RECID_CATALOG)
    }

    /// Deletes a map: its name first, then its entries as far as that can be done. The
    /// emptied map stays usable.
    pub fn delete_map<KF: KeyFormat, VF: Serializer>(
        &mut self,
        name: &str,
        map: &mut BTreeMap<KF, VF>,
    ) -> (r: Result<bool>)
        requires
            old(self).wf(),
        ensures
            final(self).unlinked(old(self), name@, r),
            r != Ok::<bool, DbError>(true) ==> *final(map) == *old(map),
            r == Ok::<bool, DbError>(true) ==> final(map).same_config(old(map)),
            r == Ok::<bool, DbError>(true) && old(map).wf(old(self).state().records) && old(
                self,
            ).can_tear_down(name@, old(map).owned()) ==> {
                let b = final(self).state();
                &&& keeps_state(old(self).state(), b)
                &&& final(map).wf(b.records)
                &&& final(map).contents(b.records) == Map::<Model<KF>, Model<VF>>::empty()
                &&& only_owned_changed(
                    old(self).state().records,
                    b.records,
                    final(self).names(),
                    old(map).owned(),
                )
            },
    {
        let ghost a = self.state();
        let found = self.delete(name);
        match found {
            Ok(true) => {
                let ghost listed = self.state();
                proof {
                    if map.wf(a.records) && old(self).can_tear_down(name@, map.owned()) {
                        map.lemma_owned_records(a.records);
                        map.law_untouched(a.records, listed.records);
                    }
                }
                let _ = map.clear(self.store_mut());
                proof {
                    if old(map).wf(a.records)
                        && old(self).can_tear_down(name@, old(map).owned()) {
                        let b = self.state().records;
                        assert(b.contains_key(RECID_CATALOG));
                        assert forall|x: u64| #[trigger]
                            a.records.contains_key(x) && x != RECID_CATALOG
                                && !old(map).owned().contains(x) implies b.contains_key(x)
                            && b[x] == a.records[x] by {
                            assert(listed.records.contains_key(x));
                            assert(b.contains_key(x));
                        }
                    }
                }
                Ok(true)
            },
            other => other,
        }
    }

    /// Deletes a set: its name first, then its elements as far as that can be done. The
    /// emptied set stays usable.
    pub fn delete_set<KF: KeyFormat>(
        &mut self,
        name: &str,
        set: &mut NavigableSet<KF>,
    ) -> (r: Result<bool>)
        requires
            old(self).wf(),
        ensures
            final(self).unlinked(old(self), name@, r),
            r != Ok::<bool, DbError>(true) ==> *final(set) == *old(set),
            r == Ok::<bool, DbError>(true) ==> final(set).backing().same_config(
                &old(set).backing(),
            ),
            r == Ok::<bool, DbError>(true) && old(set).wf(old(self).state().records) && old(
                self,
            ).can_tear_down(name@, old(set).backing().owned()) ==> {
                let b = final(self).state();
                &&& keeps_state(old(self).state(), b)
                &&& final(set).wf(b.records)
                &&& final(set).elements(b.records) == Set::<Model<KF>>::empty()
                &&& only_owned_changed(
                    old(self).state().records,
                    b.records,
                    final(self).names(),
                    old(set).backing().owned(),
                )
            },
    {
        let ghost a = self.state();
        let found = self.delete(name);
        match found {
            Ok(true) => {
                let ghost listed = self.state();
                proof {
                    if set.wf(a.records) && old(self).can_tear_down(name@, set.backing().owned()) {
                        set.backing().lemma_owned_records(a.records);
                        set.backing().law_untouched(a.records, listed.records);
                        assert(set.wf(listed.records));
                    }
                }
                let _ = set.clear(self.store_mut());
                proof {
                    if old(set).wf(a.records)
                        && old(self).can_tear_down(name@, old(set).backing().owned()) {
                        let b = self.state().records;
                        assert(set.became(old(set), listed, self.state(), Set::empty(), 0));
                        assert(b.contains_key(RECID_CATALOG));
                        assert(b[RECID_CATALOG] == listed.records[RECID_CATALOG]);
                        assert forall|x: u64| #[trigger]
                            a.records.contains_key(x) && x != RECID_CATALOG
                                && !old(set).backing().owned().contains(
                                x,
                            ) implies b.contains_key(x) && b[x] == a.records[x] by {
                            assert(listed.records.contains_key(x));
                        }
                    }
                }
                Ok(true)
            },
            other => other,
        }
    }

    /// Deletes a queue: its name first; then the handle is closed, and the records of the
    /// queue go as far as that can be done.
    pub fn delete_queue<Se: Serializer>(
        &mut self,
        name: &str,
        queue: &mut PersistentBlockingQueue<Se>,
    ) -> (r: Result<bool>)
        requires
            old(self).wf(),
        ensures
            final(self).unlinked(old(self), name@, r),
            r != Ok::<bool, DbError>(true) ==> *final(queue) == *old(queue),
            r == Ok::<bool, DbError>(true) ==> final(queue).is_shut(),
            r == Ok::<bool, DbError>(true) && old(queue).wf(old(self).state().records) && old(
                self,
            ).can_tear_down(name@, old(queue).owned(old(self).state().records)) ==> {
                let a = old(self).state();
                let b = final(self).state();
                &&& keeps_state(a, b)
                &&& forall|x: u64| #[trigger]
                    b.records.contains_key(x) <==> a.records.contains_key(x) && !old(queue).owned(
                        a.records,
                    ).contains(x)
                &&& only_owned_changed(
                    a.records,
                    b.records,
                    final(self).names(),
                    old(queue).owned(a.records),
                )
            },
    {
        let ghost a = self.state();
        let found = self.delete(name);
        match found {
            Ok(true) => {
                let ghost listed = self.state();
                let ghost good = queue.wf(a.records) && old(self).can_tear_down(
                    name@,
                    queue.owned(a.records),
                );
                proof {
                    if good {
                        lemma_queue_published(queue, a, listed, without(old(self).names(), name@));
                    }
                }
                let ghost before = *queue;
                queue.close_handle();
                proof {
                    if good {
                        let c = before.chain(listed.records);
                        assert(before.holds(listed.records, c));
                        assert(queue.holds(listed.records, c));
                        queue.law_chain_is_unique(listed.records, c);
                        assert(queue.owned(listed.records) =~= before.owned(listed.records));
                    }
                }
                let _ = queue.purge_records(self.store_mut());
                proof {
                    if good {
                        let b = self.state().records;
                        assert(b.contains_key(RECID_CATALOG));
                        assert forall|x: u64| #[trigger] b.contains_key(x)
                            implies a.records.contains_key(
                            x,
                        ) by {}
                        assert forall|x: u64| #[trigger]
                            a.records.contains_key(x) && x != RECID_CATALOG && !before.owned(
                                a.records,
                            ).contains(x) implies b.contains_key(x) && b[x] == a.records[x] by {
                            assert(listed.records.contains_key(x));
                            assert(b.contains_key(x));
                        }
                    }
                }
                Ok(true)
            },
            other => other,
        }
    }
}

} // verus!
