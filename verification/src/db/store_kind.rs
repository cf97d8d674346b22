//! The stores that a database can be configured with.

use vstd::prelude::*;
use crate::db::db::{rollback_post, DbRollback};
use crate::error::{DbError, Result};
use crate::store::{
    keeps_state, Store, StoreKind, StoreOnHeap, StoreReadOnlyWrapper, StoreState,
};

verus! {

/// One of the stores that a maker chooses from at run time.
#[derive(Debug)]
pub enum ConfiguredStore {
    /// Records on the heap.
    Heap(StoreOnHeap),
    /// Records as byte arrays.
    ByteArray(StoreOnHeap),
    /// Records in place.
    Direct(StoreOnHeap),
    /// Records with a log: the one that is transactional.
    Wal(StoreOnHeap),
    /// Records on the heap that cannot be changed.
    ReadOnlyHeap(StoreReadOnlyWrapper<StoreOnHeap>),
    /// Records as byte arrays that cannot be changed.
    ReadOnlyByteArray(StoreReadOnlyWrapper<StoreOnHeap>),
    /// Records in place that cannot be changed.
    ReadOnlyDirect(StoreReadOnlyWrapper<StoreOnHeap>),
}

/// The state of a store of a kind that is not transactional: it does not go back to a
/// commit.
pub open spec fn plain(kind: StoreKind, st: StoreState) -> StoreState {
    StoreState { kind, tx: false, saved: Map::empty(), ..st }
}

impl Store for ConfiguredStore {
    open spec fn state(&self) -> StoreState {
        match self {
            ConfiguredStore::Heap(s) => plain(StoreKind::Heap, s.state()),
            ConfiguredStore::ByteArray(s) => plain(StoreKind::ByteArray, s.state()),
            ConfiguredStore::Direct(s) => plain(StoreKind::Direct, s.state()),
            ConfiguredStore::Wal(s) => StoreState { kind: StoreKind::Wal, ..s.state() },
            ConfiguredStore::ReadOnlyHeap(s) => plain(StoreKind::ReadOnlyHeap, s.state()),
            ConfiguredStore::ReadOnlyByteArray(s) => plain(StoreKind::ReadOnlyByteArray, s.state()),
            ConfiguredStore::ReadOnlyDirect(s) => plain(StoreKind::ReadOnlyDirect, s.state()),
        }
    }

    proof fn records_finite(&self) {
        match self {
            ConfiguredStore::Heap(s) => s.records_finite(),
            ConfiguredStore::ByteArray(s) => s.records_finite(),
            ConfiguredStore::Direct(s) => s.records_finite(),
            ConfiguredStore::Wal(s) => s.records_finite(),
            ConfiguredStore::ReadOnlyHeap(s) => s.records_finite(),
            ConfiguredStore::ReadOnlyByteArray(s) => s.records_finite(),
            ConfiguredStore::ReadOnlyDirect(s) => s.records_finite(),
        }
    }

    fn preallocate(&mut self) -> Result<u64> {
        match self {
            ConfiguredStore::Heap(s) => s.preallocate(),
            ConfiguredStore::ByteArray(s) => s.preallocate(),
            ConfiguredStore::Direct(s) => s.preallocate(),
            ConfiguredStore::Wal(s) => s.preallocate(),
            ConfiguredStore::ReadOnlyHeap(s) => s.preallocate(),
            ConfiguredStore::ReadOnlyByteArray(s) => s.preallocate(),
            ConfiguredStore::ReadOnlyDirect(s) => s.preallocate(),
        }
    }

    fn put(&mut self, data: Vec<u8>) -> Result<u64> {
        match self {
            ConfiguredStore::Heap(s) => s.put(data),
            ConfiguredStore::ByteArray(s) => s.put(data),
            ConfiguredStore::Direct(s) => s.put(data),
            ConfiguredStore::Wal(s) => s.put(data),
            ConfiguredStore::ReadOnlyHeap(s) => s.put(data),
            ConfiguredStore::ReadOnlyByteArray(s) => s.put(data),
            ConfiguredStore::ReadOnlyDirect(s) => s.put(data),
        }
    }

    fn get(&self, recid: u64) -> Result<Option<Vec<u8>>> {
        match self {
            ConfiguredStore::Heap(s) => s.get(recid),
            ConfiguredStore::ByteArray(s) => s.get(recid),
            ConfiguredStore::Direct(s) => s.get(recid),
            ConfiguredStore::Wal(s) => s.get(recid),
            ConfiguredStore::ReadOnlyHeap(s) => s.get(recid),
            ConfiguredStore::ReadOnlyByteArray(s) => s.get(recid),
            ConfiguredStore::ReadOnlyDirect(s) => s.get(recid),
        }
    }

    fn update(&mut self, recid: u64, data: Option<Vec<u8>>) -> Result<()> {
        match self {
            ConfiguredStore::Heap(s) => s.update(recid, data),
            ConfiguredStore::ByteArray(s) => s.update(recid, data),
            ConfiguredStore::Direct(s) => s.update(recid, data),
            ConfiguredStore::Wal(s) => s.update(recid, data),
            ConfiguredStore::ReadOnlyHeap(s) => s.update(recid, data),
            ConfiguredStore::ReadOnlyByteArray(s) => s.update(recid, data),
            ConfiguredStore::ReadOnlyDirect(s) => s.update(recid, data),
        }
    }

    fn delete(&mut self, recid: u64) -> Result<()> {
        match self {
            ConfiguredStore::Heap(s) => s.delete(recid),
            ConfiguredStore::ByteArray(s) => s.delete(recid),
            ConfiguredStore::Direct(s) => s.delete(recid),
            ConfiguredStore::Wal(s) => s.delete(recid),
            ConfiguredStore::ReadOnlyHeap(s) => s.delete(recid),
            ConfiguredStore::ReadOnlyByteArray(s) => s.delete(recid),
            ConfiguredStore::ReadOnlyDirect(s) => s.delete(recid),
        }
    }

    fn get_all_recids(&self) -> Result<Vec<u64>> {
        match self {
            ConfiguredStore::Heap(s) => s.get_all_recids(),
            ConfiguredStore::ByteArray(s) => s.get_all_recids(),
            ConfiguredStore::Direct(s) => s.get_all_recids(),
            ConfiguredStore::Wal(s) => s.get_all_recids(),
            ConfiguredStore::ReadOnlyHeap(s) => s.get_all_recids(),
            ConfiguredStore::ReadOnlyByteArray(s) => s.get_all_recids(),
            ConfiguredStore::ReadOnlyDirect(s) => s.get_all_recids(),
        }
    }

    fn is_closed(&self) -> bool {
        match self {
            ConfiguredStore::Heap(s) => s.is_closed(),
            ConfiguredStore::ByteArray(s) => s.is_closed(),
            ConfiguredStore::Direct(s) => s.is_closed(),
            ConfiguredStore::Wal(s) => s.is_closed(),
            ConfiguredStore::ReadOnlyHeap(s) => s.is_closed(),
            ConfiguredStore::ReadOnlyByteArray(s) => s.is_closed(),
            ConfiguredStore::ReadOnlyDirect(s) => s.is_closed(),
        }
    }

    fn is_read_only(&self) -> bool {
        match self {
            ConfiguredStore::Heap(s) => s.is_read_only(),
            ConfiguredStore::ByteArray(s) => s.is_read_only(),
            ConfiguredStore::Direct(s) => s.is_read_only(),
            ConfiguredStore::Wal(s) => s.is_read_only(),
            ConfiguredStore::ReadOnlyHeap(s) => s.is_read_only(),
            ConfiguredStore::ReadOnlyByteArray(s) => s.is_read_only(),
            ConfiguredStore::ReadOnlyDirect(s) => s.is_read_only(),
        }
    }

    fn is_tx(&self) -> bool {
        match self {
            ConfiguredStore::Wal(s) => s.is_tx(),
            _ => false,
        }
    }

    fn structural_generation(&self) -> u64 {
        match self {
            ConfiguredStore::Heap(s) => s.structural_generation(),
            ConfiguredStore::ByteArray(s) => s.structural_generation(),
            ConfiguredStore::Direct(s) => s.structural_generation(),
            ConfiguredStore::Wal(s) => s.structural_generation(),
            ConfiguredStore::ReadOnlyHeap(s) => s.structural_generation(),
            ConfiguredStore::ReadOnlyByteArray(s) => s.structural_generation(),
            ConfiguredStore::ReadOnlyDirect(s) => s.structural_generation(),
        }
    }

    fn commit(&mut self) -> Result<()> {
        match self {
            ConfiguredStore::Heap(s) => s.commit(),
            ConfiguredStore::ByteArray(s) => s.commit(),
            ConfiguredStore::Direct(s) => s.commit(),
            ConfiguredStore::Wal(s) => s.commit(),
            ConfiguredStore::ReadOnlyHeap(s) => s.commit(),
            ConfiguredStore::ReadOnlyByteArray(s) => s.commit(),
            ConfiguredStore::ReadOnlyDirect(s) => s.commit(),
        }
    }

    fn compact(&mut self) -> Result<()> {
        match self {
            ConfiguredStore::Heap(s) => s.compact(),
            ConfiguredStore::ByteArray(s) => s.compact(),
            ConfiguredStore::Direct(s) => s.compact(),
            ConfiguredStore::Wal(s) => s.compact(),
            ConfiguredStore::ReadOnlyHeap(s) => s.compact(),
            ConfiguredStore::ReadOnlyByteArray(s) => s.compact(),
            ConfiguredStore::ReadOnlyDirect(s) => s.compact(),
        }
    }

    open spec fn closes(&self) -> bool {
        true
    }

    fn close(&mut self) -> Result<()> {
        match self {
            ConfiguredStore::Heap(s) => s.close(),
            ConfiguredStore::ByteArray(s) => s.close(),
            ConfiguredStore::Direct(s) => s.close(),
            ConfiguredStore::Wal(s) => s.close(),
            ConfiguredStore::ReadOnlyHeap(s) => s.close(),
            ConfiguredStore::ReadOnlyByteArray(s) => s.close(),
            ConfiguredStore::ReadOnlyDirect(s) => s.close(),
        }
    }
}

/// The kinds of store that can append to a record in place.
pub open spec fn appends(k: StoreKind) -> bool {
    k == StoreKind::ByteArray || k == StoreKind::Direct || k == StoreKind::Wal
}

impl ConfiguredStore {
    /// How the records are kept.
    pub fn kind(&self) -> (r: StoreKind)
        ensures
            r == self.state().kind,
    {
        match self {
            ConfiguredStore::Heap(_) => StoreKind::Heap,
            ConfiguredStore::ByteArray(_) => StoreKind::ByteArray,
            ConfiguredStore::Direct(_) => StoreKind::Direct,
            ConfiguredStore::Wal(_) => StoreKind::Wal,
            ConfiguredStore::ReadOnlyHeap(_) => StoreKind::ReadOnlyHeap,
            ConfiguredStore::ReadOnlyByteArray(_) => StoreKind::ReadOnlyByteArray,
            ConfiguredStore::ReadOnlyDirect(_) => StoreKind::ReadOnlyDirect,
        }
    }

    /// Goes back to the last commit: only the kind with a log can.
    pub fn rollback(&mut self) -> (r: Result<()>)
        ensures
            rollback_post(old(self).state(), final(self).state(), r),
            old(self).state().kind != StoreKind::Wal ==> (r matches Err(e) && e is Unsupported),
    {
        match self {
            ConfiguredStore::Wal(s) => s.try_rollback(),
            _ => Err(DbError::Unsupported("rollback on a non-transactional store")),
        }
    }

    /// Appends bytes to a record, which may be null.
    pub fn try_append(&mut self, recid: u64, data: &[u8]) -> (r: Result<()>)
        ensures
            ({
                let a = old(self).state();
                let b = final(self).state();
                let had = match a.records[recid] {
                    Some(x) => x,
                    None => Seq::<u8>::empty(),
                };
                &&& keeps_state(a, b)
                &&& !appends(a.kind) ==> b == a && (r matches Err(e) && e is Unsupported)
                &&& appends(a.kind) && a.closed
                    ==> r == Err::<(), DbError>(DbError::StoreClosed)
                &&& appends(a.kind) && a.readable && !a.records.contains_key(recid)
                    ==> r == Err::<
                    (),
                    DbError,
                >(DbError::GetVoid(recid))
                &&& appends(a.kind) && a.readable && a.writable && a.records.contains_key(recid)
                    && had.len() + data@.len() <= usize::MAX ==> r is Ok
                &&& r is Ok ==> a.records.contains_key(recid) && b.records == a.records.insert(
                    recid,
                    Some(had + data@),
                )
                &&& r is Err ==> b.records == a.records
            }),
    {
        match self {
            ConfiguredStore::ByteArray(s) => append_to(s, recid, data),
            ConfiguredStore::Direct(s) => append_to(s, recid, data),
            ConfiguredStore::Wal(s) => append_to(s, recid, data),
            _ => Err(DbError::Unsupported("append on this backend")),
        }
    }
}

fn append_to<S: Store>(store: &mut S, recid: u64, data: &[u8]) -> (r: Result<()>)
    ensures
        ({
            let a = old(store).state();
            let b = final(store).state();
            let had = match a.records[recid] {
                Some(x) => x,
                None => Seq::<u8>::empty(),
            };
            &&& keeps_state(a, b)
            &&& a.closed ==> r == Err::<(), DbError>(DbError::StoreClosed)
            &&& a.readable && !a.records.contains_key(recid) ==> r == Err::<(), DbError>(
                DbError::GetVoid(recid),
            )
            &&& a.readable && a.writable && a.records.contains_key(recid) && had.len() + data@.len()
                <= usize::MAX ==> r is Ok
            &&& r is Ok ==> a.records.contains_key(recid) && b.records == a.records.insert(
                recid,
                Some(had + data@),
            )
            &&& r is Err ==> b.records == a.records
        }),
{
    let mut bytes: Vec<u8> = match store.get(recid) {
        Ok(Some(b)) => b,
        Ok(None) => Vec::new(),
        Err(e) => {
            return Err(e);
        },
    };
    let ghost had = bytes@;
    if data.len() > usize::MAX - bytes.len() {
        return Err(DbError::RecordTooLarge);
    }
    let mut i: usize = 0;
    while i < data.len()
        invariant
            i <= data@.len(),
            had.len() + data@.len() <= usize::MAX,
            bytes@ == had + data@.take(i as int),
        decreases data@.len() - i,
    {
        bytes.push(data[i]);
        assert(data@.take(i as int + 1) =~= data@.take(i as int).push(data@[i as int]));
        i = i + 1;
    }
    assert(data@.take(i as int) =~= data@);
    store.update(recid, Some(bytes))
}

impl DbRollback for ConfiguredStore {
    fn try_rollback(&mut self) -> Result<()> {
        self.rollback()
    }
}

/// A record grows in place where it is kept as bytes, in place or with a log; on the heap
/// and where nothing can be written it does not.
pub proof fn law_appending_kinds(k: StoreKind)
    ensures
        appends(k) <==> k != StoreKind::Heap && k != StoreKind::ReadOnlyHeap && k
            != StoreKind::ReadOnlyByteArray && k != StoreKind::ReadOnlyDirect,
{
}

} // verus!
