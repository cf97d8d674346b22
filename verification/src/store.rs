//! Record stores: bytes addressed by recid.

use vstd::prelude::*;
use crate::error::{DbError, Result};
use crate::io::{rest, DataInput2, DataOutput2, SliceInput};
use crate::ser::{Model, Serializer};

verus! {

/// The contents of a store: the allocated recids, each with its bytes, or with
/// none where the record is null.
pub type Records = Map<u64, Option<Seq<u8>>>;

/// How a store keeps its records.
#[derive(Debug, Clone, Copy, PartialEq, Eq, Structural)]
pub enum StoreKind {
    /// On the heap.
    Heap,
    /// As byte arrays.
    ByteArray,
    /// In place.
    Direct,
    /// With a log: the one that is transactional.
    Wal,
    /// On the heap, for reading.
    ReadOnlyHeap,
    /// As byte arrays, for reading.
    ReadOnlyByteArray,
    /// In place, for reading.
    ReadOnlyDirect,
}

/// The kind of a view that refuses writes.
pub open spec fn guarded_kind(k: StoreKind) -> StoreKind {
    match k {
        StoreKind::Heap => StoreKind::ReadOnlyHeap,
        StoreKind::ByteArray => StoreKind::ReadOnlyByteArray,
        StoreKind::Direct => StoreKind::ReadOnlyDirect,
        _ => k,
    }
}

/// What a store holds and what it can do.
pub struct StoreState {
    pub kind: StoreKind,
    pub records: Records,
    pub closed: bool,
    /// Every read is served.
    pub readable: bool,
    /// Every write is served.
    pub writable: bool,
    /// How many more records can be allocated.
    pub room: nat,
    /// Uncommitted changes can be rolled back.
    pub tx: bool,
    /// Counts the rollbacks.
    pub generation: u64,
    /// The records as of the last commit.
    pub saved: Records,
    /// Writes are refused because the store is read-only.
    pub read_only: bool,
    /// No record was ever allocated: the first one gets recid 1.
    pub fresh: bool,
}

/// A record store.
///
/// A store that is readable serves every read, one that is writable every write,
/// and a writable store still has room for that many new records. Outside these
/// an operation may fail, and a failed operation leaves the records as they were.
pub trait Store {
    spec fn state(&self) -> StoreState;

    /// Finitely many records, none at recid zero; nothing works on a closed store.
    proof fn records_finite(&self)
        ensures
            self.state().records.dom().finite(),
            !self.state().records.contains_key(0),
            self.state().closed ==> !self.state().readable && !self.state().writable,
            self.state().read_only ==> !self.state().writable,
    ;

    /// Allocates a null record.
    fn preallocate(&mut self) -> (r: Result<u64>)
        ensures
            put_post(old(self).state(), final(self).state(), None, r),
    ;

    /// Allocates a record with these bytes.
    fn put(&mut self, data: Vec<u8>) -> (r: Result<u64>)
        ensures
            put_post(old(self).state(), final(self).state(), Some(data@), r),
    ;

    /// The bytes of a record; `None` for a null record.
    fn get(&self, recid: u64) -> (r: Result<Option<Vec<u8>>>)
        ensures
            self.state().readable && self.state().records.contains_key(recid) ==> r is Ok,
            self.state().readable && !self.state().records.contains_key(recid) ==> r == Err::<
                Option<Vec<u8>>,
                DbError,
            >(DbError::GetVoid(recid)),
            r matches Ok(d) ==> self.state().records.contains_key(recid) && match d {
                Some(b) => self.state().records[recid] == Some(b@),
                None => self.state().records[recid] is None,
            },
            self.state().closed ==> r == Err::<Option<Vec<u8>>, DbError>(DbError::StoreClosed),
    ;

    /// Replaces the bytes of an allocated record.
    fn update(&mut self, recid: u64, data: Option<Vec<u8>>) -> (r: Result<()>)
        ensures
            old(self).state().writable && old(self).state().records.contains_key(recid) ==> r is Ok,
            r is Ok ==> old(self).state().records.contains_key(recid)
                && final(self).state().records == old(
                self,
            ).state().records.insert(recid, opt_view(data)),
            r is Err ==> final(self).state().records == old(self).state().records,
            keeps_state(old(self).state(), final(self).state()),
            final(self).state().room >= old(self).state().room,
            old(self).state().closed ==> r == Err::<(), DbError>(DbError::StoreClosed),
            old(self).state().read_only && !old(self).state().closed ==> r == Err::<(), DbError>(
                DbError::ReadOnly,
            ),
    ;

    /// Frees a record.
    fn delete(&mut self, recid: u64) -> (r: Result<()>)
        ensures
            old(self).state().writable && old(self).state().records.contains_key(recid) ==> r is Ok,
            r is Ok ==> old(self).state().records.contains_key(recid)
                && final(self).state().records == old(
                self,
            ).state().records.remove(recid),
            r is Err ==> final(self).state().records == old(self).state().records,
            keeps_state(old(self).state(), final(self).state()),
            final(self).state().room >= old(self).state().room,
            old(self).state().closed ==> r == Err::<(), DbError>(DbError::StoreClosed),
            old(self).state().read_only && !old(self).state().closed ==> r == Err::<(), DbError>(
                DbError::ReadOnly,
            ),
    ;

    /// All allocated recids, ascending.
    fn get_all_recids(&self) -> (r: Result<Vec<u64>>)
        ensures
            self.state().readable ==> r is Ok,
            self.state().closed ==> r == Err::<Vec<u64>, DbError>(DbError::StoreClosed),
            r matches Ok(v) ==> {
                &&& forall|i: int, j: int| 0 <= i < j < v@.len() ==> v@[i] < v@[j]
                &&& forall|x: u64| self.state().records.contains_key(x) <==> v@.contains(x)
            },
    ;

    fn is_closed(&self) -> (r: bool)
        ensures
            r == self.state().closed,
    ;

    /// Whether writes are refused because the store is read-only.
    fn is_read_only(&self) -> (r: bool)
        ensures
            r == self.state().read_only,
    ;

    /// Whether uncommitted changes can be rolled back.
    fn is_tx(&self) -> (r: bool)
        ensures
            r == self.state().tx,
    ;

    /// Changes with every rollback.
    fn structural_generation(&self) -> (r: u64)
        ensures
            r == self.state().generation,
    ;

    /// Makes the changes so far permanent.
    fn commit(&mut self) -> (r: Result<()>)
        ensures
            final(self).state().records == old(self).state().records,
            keeps_but_saved(old(self).state(), final(self).state()),
            r is Ok && old(self).state().tx ==> final(self).state().saved == old(
                self,
            ).state().records,
            r is Err || !old(self).state().tx
                ==> final(self).state().saved == old(self).state().saved,
            final(self).state().room >= old(self).state().room,
            old(self).state().readable ==> r is Ok,
            old(self).state().closed ==> r == Err::<(), DbError>(DbError::StoreClosed),
    ;

    /// Reclaims unused space.
    fn compact(&mut self) -> (r: Result<()>)
        ensures
            final(self).state().records == old(self).state().records,
            keeps_state(old(self).state(), final(self).state()),
            final(self).state().room >= old(self).state().room,
            old(self).state().writable ==> r is Ok,
            old(self).state().closed ==> r == Err::<(), DbError>(DbError::StoreClosed),
    ;

    /// Closing is answered with success.
    spec fn closes(&self) -> bool;

    /// Closes the store; closing again does nothing.
    fn close(&mut self) -> (r: Result<()>)
        ensures
            final(self).state().closed,
            final(self).state().kind == old(self).state().kind,
            final(self).state().records == old(self).state().records,
            old(self).closes() ==> r is Ok,
    ;
}

pub open spec fn opt_view(d: Option<Vec<u8>>) -> Option<Seq<u8>> {
    match d {
        Some(b) => Some(b@),
        None => None,
    }
}

/// Where the store is read, a failure says that a record is missing or damaged.
pub open spec fn blames<T>(st: StoreState, r: Result<T>) -> bool {
    st.readable ==> (r matches Err(e) ==> e is DataCorruption || e is GetVoid)
}

/// What no operation on records changes.
pub open spec fn keeps_state(a: StoreState, b: StoreState) -> bool {
    keeps_but_saved(a, b) && a.saved == b.saved
}

/// What a commit leaves as it was.
pub open spec fn keeps_but_saved(a: StoreState, b: StoreState) -> bool {
    &&& a.kind == b.kind
    &&& a.closed == b.closed
    &&& a.readable == b.readable
    &&& a.writable == b.writable
    &&& a.tx == b.tx
    &&& a.generation == b.generation
    &&& a.read_only == b.read_only
}

/// What allocating a record with content `data` does.
pub open spec fn put_post(
    a: StoreState,
    b: StoreState,
    data: Option<Seq<u8>>,
    r: Result<u64>,
) -> bool {
    &&& a.writable && a.room > 0 ==> r is Ok
    &&& r matches Ok(recid) ==> {
        &&& 0 < recid <= i64::MAX
        &&& !a.records.contains_key(recid)
        &&& b.records == a.records.insert(recid, data)
        &&& a.fresh ==> recid == 1
    }
    &&& r is Err ==> b.records == a.records
    &&& keeps_state(a, b)
    &&& b.room + 1 >= a.room
    &&& a.closed ==> r == Err::<u64, DbError>(DbError::StoreClosed)
    &&& a.read_only && !a.closed ==> r == Err::<u64, DbError>(DbError::ReadOnly)
}

/// A store that serves every read has an answer.
pub open spec fn served<T>(st: StoreState, r: Result<T>) -> bool {
    st.readable ==> r is Ok
}

/// A store that serves every read and every write carries a change out.
pub open spec fn carried_out<T>(st: StoreState, r: Result<T>) -> bool {
    st.readable && st.writable ==> r is Ok
}

/// A closed store answers that it is closed and a read-only one that it is read-only;
/// both keep their records.
pub open spec fn turned_down<T>(a: StoreState, b: StoreState, r: Result<T>) -> bool {
    &&& a.closed ==> r == Err::<T, DbError>(DbError::StoreClosed)
    &&& a.read_only && !a.closed ==> r == Err::<T, DbError>(DbError::ReadOnly)
    &&& a.closed || a.read_only ==> b.records == a.records
}

// ---------------------------------------------------------------- typed access

/// The value that record `recid` holds under `ser`: `None` where there is no such
/// record or its bytes do not decode, `Some(None)` for a null record.
pub open spec fn item_at<F: Serializer>(ser: &F, records: Records, recid: u64) -> Option<
    Option<Model<F>>,
> {
    if records.contains_key(recid) {
        match records[recid] {
            Some(b) => match ser.dec(b) {
                Some((v, n)) => Some(Some(v)),
                None => None,
            },
            None => Some(None),
        }
    } else {
        None
    }
}

/// Reads a record as a value.
pub fn get_item<S: Store, F: Serializer>(store: &S, recid: u64, ser: &F) -> (r: Result<
    Option<F::Item>,
>)
    ensures
        store.state().readable && item_at(ser, store.state().records, recid) is Some ==> r is Ok,
        store.state().readable && !store.state().records.contains_key(recid) ==> r == Err::<
            Option<F::Item>,
            DbError,
        >(DbError::GetVoid(recid)),
        store.state().readable && store.state().records.contains_key(recid) && r is Err ==> r->Err_0
            is DataCorruption,
        r matches Ok(v) ==> item_at(ser, store.state().records, recid) == Some(opt_model(v)),
        store.state().closed ==> r == Err::<Option<F::Item>, DbError>(DbError::StoreClosed),
{
    match store.get(recid) {
        Ok(Some(b)) => {
            let mut input = SliceInput::new(b.as_slice());
            assert(rest(input.bytes(), input.cursor()) =~= b@);
            match ser.deserialize(&mut input) {
                Ok(v) => {
                    proof {
                        store.records_finite();
                    }
                    Ok(Some(v))
                },
                Err(e) => {
                    proof {
                        assert(store.state().records[recid] == Some(b@));
                        store.records_finite();
                    }
                    Err(e)
                },
            }
        },
        Ok(None) => Ok(None),
        Err(e) => Err(e),
    }
}

pub open spec fn opt_model<T: View>(v: Option<T>) -> Option<T::V> {
    match v {
        Some(x) => Some(x@),
        None => None,
    }
}

/// The bytes of one value.
pub fn to_bytes<F: Serializer>(ser: &F, value: &F::Item) -> (r: Vec<u8>)
    requires
        ser.fits(value@),
    ensures
        r@ == ser.enc(value@),
{
    let mut out = DataOutput2::new();
    ser.serialize(&mut out, value);
    assert(out@ =~= ser.enc(value@));
    out.into_vec()
}

/// A record that was written with `ser` reads back.
pub proof fn lemma_enc_dec<F: Serializer>(ser: &F, v: Model<F>)
    requires
        ser.fits(v),
    ensures
        ser.dec(ser.enc(v)) == Some((v, ser.enc(v).len())),
{
    ser.round_trip(v, Seq::empty());
    assert(ser.enc(v) + Seq::<u8>::empty() =~= ser.enc(v));
}

/// Allocates a record that holds a value.
pub fn put_item<S: Store, F: Serializer>(
    store: &mut S,
    value: &F::Item,
    ser: &F,
) -> (r: Result<u64>)
    requires
        ser.fits(value@),
    ensures
        put_post(old(store).state(), final(store).state(), Some(ser.enc(value@)), r),
        r matches Ok(recid) ==> item_at(ser, final(store).state().records, recid) == Some(
            Some(value@),
        ),
{
    proof {
        lemma_enc_dec(ser, value@);
    }
    store.put(to_bytes(ser, value))
}

/// Replaces the value of a record.
pub fn update_item<S: Store, F: Serializer>(
    store: &mut S,
    recid: u64,
    value: &F::Item,
    ser: &F,
) -> (r: Result<()>)
    requires
        ser.fits(value@),
    ensures
        old(store).state().writable && old(store).state().records.contains_key(recid) ==> r is Ok,
        r is Ok ==> old(store).state().records.contains_key(recid) && final(store).state().records
            == old(store).state().records.insert(recid, Some(ser.enc(value@))) && item_at(
            ser,
            final(store).state().records,
            recid,
        ) == Some(Some(value@)),
        r is Err ==> final(store).state().records == old(store).state().records,
        keeps_state(old(store).state(), final(store).state()),
        final(store).state().room >= old(store).state().room,
        old(store).state().closed ==> r == Err::<(), DbError>(DbError::StoreClosed),
        old(store).state().read_only && !old(store).state().closed ==> r == Err::<(), DbError>(
            DbError::ReadOnly,
        ),
{
    proof {
        lemma_enc_dec(ser, value@);
    }
    store.update(recid, Some(to_bytes(ser, value)))
}

/// Replaces the value of a record if it is the expected one; `None` stands for a
/// null record.
pub fn compare_and_swap_item<S: Store, F: Serializer>(
    store: &mut S,
    recid: u64,
    expected: Option<&F::Item>,
    new: Option<&F::Item>,
    ser: &F,
) -> (r: Result<bool>)
    requires
        new matches Some(v) ==> ser.fits(v@),
    ensures
        keeps_state(old(store).state(), final(store).state()),
        final(store).state().room >= old(store).state().room,
        r != Ok::<bool, DbError>(true)
            ==> final(store).state().records == old(store).state().records,
        r matches Ok(swapped) ==> (item_at(ser, old(store).state().records, recid) matches Some(v)
            && swapped == (v == opt_model(expected))),
        r == Ok::<bool, DbError>(true) ==> final(store).state().records == old(
            store,
        ).state().records.insert(recid, opt_bytes(ser, opt_model(new))) && item_at(
            ser,
            final(store).state().records,
            recid,
        ) == Some(opt_model(new)),
        old(store).state().readable && old(store).state().writable && item_at(
            ser,
            old(store).state().records,
            recid,
        ) is Some ==> r is Ok,
        old(store).state().closed ==> r == Err::<bool, DbError>(DbError::StoreClosed),
        old(store).state().readable && old(store).state().read_only && !old(store).state().closed
            && item_at(ser, old(store).state().records, recid) == Some(opt_model(expected)) ==> r
            == Err::<bool, DbError>(DbError::ReadOnly),
        old(store).state().readable && !old(store).state().records.contains_key(recid) ==> r
            == Err::<bool, DbError>(DbError::GetVoid(recid)),
{
    proof {
        if let Some(v) = opt_model(new) {
            lemma_enc_dec(ser, v);
        }
    }
    let current = match get_item(store, recid, ser) {
        Ok(x) => x,
        Err(e) => {
            return Err(e);
        },
    };
    let same = match (&current, expected) {
        (Some(a), Some(b)) => ser.equals(a, b),
        (None, None) => true,
        _ => false,
    };
    if !same {
        return Ok(false);
    }
    let data = match new {
        Some(v) => Some(to_bytes(ser, v)),
        None => None,
    };
    match store.update(recid, data) {
        Ok(_) => Ok(true),
        Err(e) => Err(e),
    }
}

/// The content of a record that holds `v`.
pub open spec fn opt_bytes<F: Serializer>(ser: &F, v: Option<Model<F>>) -> Option<Seq<u8>> {
    match v {
        Some(x) => Some(ser.enc(x)),
        None => None,
    }
}

// ---------------------------------------------------------------- heap store

/// One place of a [`StoreOnHeap`].
#[derive(Debug)]
pub enum Slot {
    Void,
    Null,
    Data(Vec<u8>),
}

impl Slot {
    /// The record in this place; `None` where there is none.
    pub open spec fn content(self) -> Option<Option<Seq<u8>>> {
        match self {
            Slot::Void => None,
            Slot::Null => Some(None),
            Slot::Data(b) => Some(Some(b@)),
        }
    }

    fn dup(&self) -> (r: Slot)
        ensures
            r.content() == self.content(),
    {
        match self {
            Slot::Void => Slot::Void,
            Slot::Null => Slot::Null,
            Slot::Data(b) => {
                let c = b.clone();
                assert(c@ =~= b@);
                Slot::Data(c)
            },
        }
    }
}

/// The records that a row of places holds: place `i` is recid `i + 1`.
pub open spec fn slot_records(slots: Seq<Slot>) -> Records {
    Map::new(
        |r: u64| 1 <= r <= slots.len() && slots[r - 1].content() is Some,
        |r: u64| slots[r - 1].content().unwrap(),
    )
}

fn dup_slots(slots: &Vec<Slot>) -> (r: Vec<Slot>)
    ensures
        r@.len() == slots@.len(),
        slot_records(r@) == slot_records(slots@),
{
    let mut v: Vec<Slot> = Vec::new();
    let mut i: usize = 0;
    while i < slots.len()
        invariant
            i <= slots@.len(),
            v@.len() == i,
            forall|j: int| 0 <= j < i ==> (#[trigger] v@[j]).content() == slots@[j].content(),
        decreases slots@.len() - i,
    {
        v.push(slots[i].dup());
        i = i + 1;
    }
    assert(slot_records(v@) =~= slot_records(slots@));
    v
}

/// How many places a store in memory can have.
pub open spec fn max_slots() -> nat {
    if usize::MAX < i64::MAX {
        usize::MAX as nat
    } else {
        i64::MAX as nat
    }
}

/// A store in memory. A transactional one can go back to its last commit.
#[derive(Debug)]
pub struct StoreOnHeap {
    slots: Vec<Slot>,
    free: Vec<u64>,
    closed: bool,
    tx: bool,
    committed: Vec<Slot>,
    generation: u64,
}

impl StoreOnHeap {
    /// An empty store.
    pub fn new() -> (r: Self)
        ensures
            r.state().records == Map::<u64, Option<Seq<u8>>>::empty(),
            r.state().saved == Map::<u64, Option<Seq<u8>>>::empty(),
            !r.state().closed,
            r.state().readable,
            r.state().writable,
            r.state().room == max_slots(),
            !r.state().tx,
            r.state().generation == 0,
            !r.state().read_only,
            r.state().fresh,
            r.state().kind == StoreKind::Heap,
    {
        let r = StoreOnHeap {
            slots: Vec::new(),
            free: Vec::new(),
            closed: false,
            tx: false,
            committed: Vec::new(),
            generation: 0,
        };
        assert(r.state().records =~= Map::<u64, Option<Seq<u8>>>::empty());
        assert(r.state().saved =~= Map::<u64, Option<Seq<u8>>>::empty());
        r
    }

    /// An empty store whose changes can be rolled back.
    pub fn new_tx() -> (r: Self)
        ensures
            r.state().records == Map::<u64, Option<Seq<u8>>>::empty(),
            r.state().saved == Map::<u64, Option<Seq<u8>>>::empty(),
            !r.state().closed,
            r.state().readable,
            r.state().writable,
            r.state().room == max_slots(),
            r.state().tx,
            r.state().generation == 0,
            !r.state().read_only,
            r.state().fresh,
            r.state().kind == StoreKind::Heap,
    {
        let r = StoreOnHeap {
            slots: Vec::new(),
            free: Vec::new(),
            closed: false,
            tx: true,
            committed: Vec::new(),
            generation: 0,
        };
        assert(r.state().records =~= Map::<u64, Option<Seq<u8>>>::empty());
        assert(r.state().saved =~= Map::<u64, Option<Seq<u8>>>::empty());
        r
    }

    /// Goes back to the records of the last commit.
    pub fn rollback(&mut self) -> (r: Result<()>)
        ensures
            old(self).state().closed ==> r == Err::<(), DbError>(DbError::StoreClosed),
            !old(self).state().closed && !old(self).state().tx ==> (r matches Err(e)
                && e is Unsupported),
            !old(self).state().closed && old(self).state().tx ==> r is Ok,
            r is Ok ==> final(self).state().records == old(self).state().saved,
            r is Ok ==> final(self).state().generation == old(
                self,
            ).state().generation.wrapping_add(1),
            r is Err ==> final(self).state() == old(self).state(),
            final(self).state().saved == old(self).state().saved,
            final(self).state().kind == old(self).state().kind,
            final(self).state().closed == old(self).state().closed,
            final(self).state().readable == old(self).state().readable,
            final(self).state().writable == old(self).state().writable,
            final(self).state().tx == old(self).state().tx,
            final(self).state().read_only == old(self).state().read_only,
    {
        if self.closed {
            return Err(DbError::StoreClosed);
        }
        if !self.tx {
            return Err(DbError::Unsupported("rollback on a non-transactional store"));
        }
        self.slots = dup_slots(&self.committed);
        self.free = Vec::new();
        self.generation = self.generation.wrapping_add(1);
        Ok(())
    }

    fn put_slot(&mut self, slot: Slot) -> (r: Result<u64>)
        requires
            slot.content() is Some,
        ensures
            put_post(old(self).state(), final(self).state(), slot.content().unwrap(), r),
            final(self).state().saved == old(self).state().saved,
    {
        if self.closed {
            return Err(DbError::StoreClosed);
        }
        match self.free.pop() {
            Some(recid) => {
                if 1 <= recid && recid <= self.slots.len() as u64 && recid <= i64::MAX as u64 {
                    let i: usize = (recid - 1) as usize;
                    if matches!(self.slots[i], Slot::Void) {
                        let ghost before = self.slots@;
                        self.slots.set(i, slot);
                        assert(slot_records(self.slots@) =~= slot_records(before).insert(
                            recid,
                            slot.content().unwrap(),
                        ));
                        return Ok(recid);
                    }
                }
            },
            None => {},
        }
        if self.slots.len() == usize::MAX || self.slots.len() as u64 >= i64::MAX as u64 {
            return Err(DbError::StoreFull);
        }
        let ghost before = self.slots@;
        self.slots.push(slot);
        let recid: u64 = self.slots.len() as u64;
        assert(slot_records(self.slots@) =~= slot_records(before).insert(
            recid,
            slot.content().unwrap(),
        ));
        Ok(recid)
    }
}

impl Store for StoreOnHeap {
    closed spec fn state(&self) -> StoreState {
        StoreState {
            kind: StoreKind::Heap,
            records: slot_records(self.slots@),
            closed: self.closed,
            readable: !self.closed,
            writable: !self.closed,
            room: if self.slots@.len() < max_slots() {
                (max_slots() - self.slots@.len()) as nat
            } else {
                0
            },
            tx: self.tx,
            generation: self.generation,
            saved: slot_records(self.committed@),
            read_only: false,
            fresh: self.slots@.len() == 0,
        }
    }

    proof fn records_finite(&self) {
        let d = slot_records(self.slots@).dom();
        lemma_u64_range_finite(self.slots@.len());
        assert(d.subset_of(Set::new(|x: u64| x <= self.slots@.len())));
        vstd::set_lib::lemma_set_subset_finite(Set::new(|x: u64| x <= self.slots@.len()), d);
    }

    fn preallocate(&mut self) -> Result<u64> {
        self.put_slot(Slot::Null)
    }

    fn put(&mut self, data: Vec<u8>) -> Result<u64> {
        self.put_slot(Slot::Data(data))
    }

    fn get(&self, recid: u64) -> Result<Option<Vec<u8>>> {
        if self.closed {
            return Err(DbError::StoreClosed);
        }
        if recid == 0 || recid > self.slots.len() as u64 {
            return Err(DbError::GetVoid(recid));
        }
        match &self.slots[(recid - 1) as usize] {
            Slot::Void => Err(DbError::GetVoid(recid)),
            Slot::Null => Ok(None),
            Slot::Data(b) => {
                let c = b.clone();
                assert(c@ =~= b@);
                Ok(Some(c))
            },
        }
    }

    fn update(&mut self, recid: u64, data: Option<Vec<u8>>) -> Result<()> {
        if self.closed {
            return Err(DbError::StoreClosed);
        }
        if recid == 0 || recid > self.slots.len() as u64 {
            return Err(DbError::GetVoid(recid));
        }
        let i: usize = (recid - 1) as usize;
        if matches!(self.slots[i], Slot::Void) {
            return Err(DbError::GetVoid(recid));
        }
        let ghost before = self.slots@;
        let slot = match data {
            Some(b) => Slot::Data(b),
            None => Slot::Null,
        };
        self.slots.set(i, slot);
        assert(slot_records(self.slots@) =~= slot_records(before).insert(recid, opt_view(data)));
        Ok(())
    }

    fn delete(&mut self, recid: u64) -> Result<()> {
        if self.closed {
            return Err(DbError::StoreClosed);
        }
        if recid == 0 || recid > self.slots.len() as u64 {
            return Err(DbError::GetVoid(recid));
        }
        let i: usize = (recid - 1) as usize;
        if matches!(self.slots[i], Slot::Void) {
            return Err(DbError::GetVoid(recid));
        }
        let ghost before = self.slots@;
        self.slots.set(i, Slot::Void);
        self.free.push(recid);
        assert(slot_records(self.slots@) =~= slot_records(before).remove(recid));
        Ok(())
    }

    fn get_all_recids(&self) -> Result<Vec<u64>> {
        if self.closed {
            return Err(DbError::StoreClosed);
        }
        let mut v: Vec<u64> = Vec::new();
        let mut i: usize = 0;
        while i < self.slots.len()
            invariant
                i <= self.slots@.len(),
                forall|a: int, b: int| 0 <= a < b < v@.len() ==> v@[a] < v@[b],
                forall|a: int| 0 <= a < v@.len() ==> 1 <= #[trigger] v@[a] <= i,
                forall|a: int|
                    0 <= a < v@.len() ==> slot_records(self.slots@).contains_key(#[trigger] v@[a]),
                forall|x: u64|
                    slot_records(self.slots@).contains_key(x) && x <= i ==> v@.contains(x),
            decreases self.slots@.len() - i,
        {
            let ghost before = v@;
            if !matches!(self.slots[i], Slot::Void) {
                let recid: u64 = i as u64 + 1;
                v.push(recid);
                assert(slot_records(self.slots@).contains_key(recid));
            }
            proof {
                assert forall|x: u64|
                    slot_records(self.slots@).contains_key(x) && x <= i + 1 implies v@.contains(
                    x,
                ) by {
                    if x <= i {
                        assert(before.contains(x));
                        let w = choose|w: int| 0 <= w < before.len() && before[w] == x;
                        assert(v@[w] == x);
                    } else {
                        assert(v@[v@.len() - 1] == x);
                    }
                }
            }
            i = i + 1;
        }
        Ok(v)
    }

    fn is_closed(&self) -> bool {
        self.closed
    }

    fn is_read_only(&self) -> bool {
        false
    }

    fn is_tx(&self) -> bool {
        self.tx
    }

    fn structural_generation(&self) -> u64 {
        self.generation
    }

    fn commit(&mut self) -> Result<()> {
        if self.closed {
            return Err(DbError::StoreClosed);
        }
        if self.tx {
            self.committed = dup_slots(&self.slots);
        }
        Ok(())
    }

    fn compact(&mut self) -> Result<()> {
        if self.closed {
            return Err(DbError::StoreClosed);
        }
        Ok(())
    }

    open spec fn closes(&self) -> bool {
        true
    }

    fn close(&mut self) -> Result<()> {
        self.closed = true;
        Ok(())
    }
}

/// A store that serves reads from another one and refuses writes.
#[derive(Debug)]
pub struct StoreReadOnlyWrapper<S> {
    inner: S,
}

impl<S: Store> StoreReadOnlyWrapper<S> {
    /// The store that is read.
    pub closed spec fn source(&self) -> S {
        self.inner
    }

    pub fn new(inner: S) -> (r: Self)
        ensures
            r.source() == inner,
    {
        StoreReadOnlyWrapper { inner }
    }

    /// The state of a view of a store in state `st` that refuses writes.
    pub open spec fn guarded(st: StoreState) -> StoreState {
        StoreState {
            kind: guarded_kind(st.kind),
            records: st.records,
            closed: st.closed,
            readable: st.readable,
            writable: false,
            room: st.room,
            tx: false,
            generation: st.generation,
            saved: st.saved,
            read_only: true,
            fresh: st.fresh,
        }
    }

    fn refusal(&self) -> (r: DbError)
        ensures
            r == if self.source().state().closed {
                DbError::StoreClosed
            } else {
                DbError::ReadOnly
            },
    {
        if self.inner.is_closed() {
            DbError::StoreClosed
        } else {
            DbError::ReadOnly
        }
    }
}

impl<S: Store> Store for StoreReadOnlyWrapper<S> {
    open spec fn state(&self) -> StoreState {
        Self::guarded(self.source().state())
    }

    proof fn records_finite(&self) {
        self.inner.records_finite();
    }

    fn preallocate(&mut self) -> Result<u64> {
        Err(self.refusal())
    }

    fn put(&mut self, data: Vec<u8>) -> Result<u64> {
        Err(self.refusal())
    }

    fn get(&self, recid: u64) -> Result<Option<Vec<u8>>> {
        self.inner.get(recid)
    }

    fn update(&mut self, recid: u64, data: Option<Vec<u8>>) -> Result<()> {
        Err(self.refusal())
    }

    fn delete(&mut self, recid: u64) -> Result<()> {
        Err(self.refusal())
    }

    fn get_all_recids(&self) -> Result<Vec<u64>> {
        self.inner.get_all_recids()
    }

    fn is_closed(&self) -> bool {
        self.inner.is_closed()
    }

    fn is_read_only(&self) -> bool {
        true
    }

    fn is_tx(&self) -> bool {
        false
    }

    fn structural_generation(&self) -> u64 {
        self.inner.structural_generation()
    }

    fn commit(&mut self) -> Result<()> {
        proof {
            self.inner.records_finite();
        }
        if self.inner.is_closed() {
            return Err(DbError::StoreClosed);
        }
        Ok(())
    }

    fn compact(&mut self) -> Result<()> {
        Err(self.refusal())
    }

    open spec fn closes(&self) -> bool {
        self.source().closes()
    }

    fn close(&mut self) -> Result<()> {
        self.inner.close()
    }
}

pub(crate) proof fn lemma_u64_range_finite(n: nat)
    ensures
        Set::new(|x: u64| x <= n).finite(),
{
    let s = Set::new(|x: u64| x <= n);
    let ints = vstd::set_lib::set_int_range(0, u64::MAX as int + 1);
    vstd::set_lib::lemma_int_range(0, u64::MAX as int + 1);
    let m = ints.map(|x: int| x as u64);
    ints.lemma_map_finite(|x: int| x as u64);
    assert forall|x: u64| s.contains(x) implies m.contains(x) by {
        assert(ints.contains(x as int));
        assert((x as int) as u64 == x);
    }
    vstd::set_lib::lemma_set_subset_finite(m, s);
}

} // verus!
