//! Which collections are open: a collection has at most one handle that writes.

use vstd::prelude::*;
use crate::btree::map::BTreeMap;
use crate::error::{DbError, Result};
use crate::ser::{KeyFormat, Serializer};
use crate::store::Store;

verus! {

/// The header records of the collections that are open.
pub struct Leases {
    held: Vec<u64>,
}

impl View for Leases {
    type V = Set<u64>;

    closed spec fn view(&self) -> Set<u64> {
        Set::new(|x: u64| self.held@.contains(x))
    }
}

impl Leases {
    pub fn new() -> (r: Self)
        ensures
            r@ == Set::<u64>::empty(),
    {
        let r = Leases { held: Vec::new() };
        assert(r@ =~= Set::empty());
        r
    }

    /// Whether a collection is open.
    pub fn is_held(&self, header_recid: u64) -> (r: bool)
        ensures
            r == self@.contains(header_recid),
    {
        let mut i: usize = 0;
        while i < self.held.len()
            invariant
                i <= self.held@.len(),
                forall|j: int| 0 <= j < i ==> self.held@[j] != header_recid,
            decreases self.held@.len() - i,
        {
            if self.held[i] == header_recid {
                return true;
            }
            i = i + 1;
        }
        false
    }

    /// Takes the lease of a collection; one that is open is refused.
    pub fn acquire(&mut self, header_recid: u64) -> (r: Result<()>)
        ensures
            old(self)@.contains(header_recid) ==> final(self)@ == old(self)@ && r == Err::<
                (),
                DbError,
            >(DbError::AlreadyOpen { header_recid }),
            !old(self)@.contains(header_recid) ==> r is Ok && final(self)@ == old(self)@.insert(
                header_recid,
            ),
    {
        if self.is_held(header_recid) {
            return Err(DbError::AlreadyOpen { header_recid });
        }
        let ghost before = self.held@;
        self.held.push(header_recid);
        proof {
            assert forall|x: u64| #[trigger] self.held@.contains(x) == (before.contains(x) || x
                == header_recid) by {
                if before.contains(x) {
                    let j = choose|j: int| 0 <= j < before.len() && before[j] == x;
                    assert(self.held@[j] == x);
                }
                if x == header_recid {
                    assert(self.held@[before.len() as int] == x);
                }
            }
            assert(self@ =~= old(self)@.insert(header_recid));
        }
        Ok(())
    }

    /// Gives the lease of a collection back, where it is taken.
    pub fn release(&mut self, header_recid: u64)
        ensures
            final(self)@ == old(self)@.remove(header_recid),
    {
        let ghost before = self.held@;
        let mut rest: Vec<u64> = Vec::new();
        let mut i: usize = 0;
        while i < self.held.len()
            invariant
                i <= self.held@.len(),
                self.held@ == before,
                forall|x: u64| #[trigger]
                    rest@.contains(x) <==> (before.take(i as int).contains(x) && x != header_recid),
            decreases self.held@.len() - i,
        {
            let ghost part = rest@;
            let x: u64 = self.held[i];
            if x != header_recid {
                rest.push(x);
            }
            proof {
                let more = before.take(i as int + 1);
                assert(more =~= before.take(i as int).push(x));
                assert forall|y: u64| #[trigger]
                    rest@.contains(y) <==> (more.contains(y) && y != header_recid) by {
                    lemma_pushed(before.take(i as int), x, y);
                    lemma_pushed(part, x, y);
                }
            }
            i = i + 1;
        }
        self.held = rest;
        proof {
            assert(before.take(i as int) =~= before);
            assert(self@ =~= old(self)@.remove(header_recid));
        }
    }
}

proof fn lemma_pushed(s: Seq<u64>, x: u64, y: u64)
    ensures
        s.push(x).contains(y) == (s.contains(y) || y == x),
{
    let t = s.push(x);
    assert(t[s.len() as int] == x);
    if s.contains(y) {
        let j = choose|j: int| 0 <= j < s.len() && s[j] == y;
        assert(t[j] == y);
    }
}

impl<KF: KeyFormat, VF: Serializer> BTreeMap<KF, VF> {
    /// Opens a map that has no other handle and takes its lease.
    pub fn open_leased<S: Store>(
        store: &S,
        leases: &mut Leases,
        root_recid_recid: u64,
        key_format: KF,
        value_format: VF,
        max_node_size: usize,
    ) -> (r: Result<Self>)
        ensures
            ({
                let fit = 4 <= max_node_size <= 1048576 && root_recid_recid != 0;
                let taken = fit && old(leases)@.contains(root_recid_recid);
                &&& taken ==> r == Err::<Self, DbError>(
                    DbError::AlreadyOpen { header_recid: root_recid_recid },
                )
                &&& !taken ==> Self::open_post(
                    store.state(),
                    root_recid_recid,
                    key_format,
                    value_format,
                    max_node_size,
                    0,
                    true,
                    r,
                )
                &&& r is Ok ==> final(leases)@ == old(leases)@.insert(root_recid_recid)
                &&& r is Err ==> final(leases)@ == old(leases)@
            }),
    {
        if max_node_size >= 4 && max_node_size <= 1048576 && root_recid_recid != 0 {
            match leases.acquire(root_recid_recid) {
                Ok(_) => {},
                Err(e) => {
                    return Err(e);
                },
            }
            let r = Self::open(store, root_recid_recid, key_format, value_format, max_node_size);
            if r.is_err() {
                leases.release(root_recid_recid);
                assert(leases@ =~= old(leases)@);
            }
            r
        } else {
            Self::open(store, root_recid_recid, key_format, value_format, max_node_size)
        }
    }

    /// Gives the handle and its lease up.
    pub fn release(self, leases: &mut Leases)
        ensures
            final(leases)@ == old(leases)@.remove(self.pointer()),
    {
        leases.release(self.root_recid_recid());
    }
}

} // verus!
