//! Single values in records of their own, read and changed as a whole.

use vstd::prelude::*;
use vstd::utf8::encode_utf8;
use crate::error::{is_corrupt, DbError, Result};
use crate::io::{packed, rest, DataInput2, DataOutput2, SliceInput};
use crate::ser::{Model, Serializer, BOOLEAN, INT, LONG, STRING};
use crate::store::{
    compare_and_swap_item, get_item, item_at, keeps_state, opt_bytes, opt_model, update_item, Records,
    Store, StoreState,
};

verus! {

/// The value in a record.
pub open spec fn cell<F: Serializer>(ser: &F, records: Records, recid: u64) -> Option<Model<F>> {
    match item_at(ser, records, recid) {
        Some(Some(v)) => Some(v),
        _ => None,
    }
}

/// What reading a value answers.
pub open spec fn cell_read<F: Serializer>(
    ser: &F,
    st: StoreState,
    recid: u64,
    r: Result<F::Item>,
) -> bool {
    &&& r matches Ok(v) ==> cell(ser, st.records, recid) == Some(v@)
    &&& st.readable && cell(ser, st.records, recid) is Some ==> r is Ok
    &&& st.readable && item_at(ser, st.records, recid) == Some(None::<Model<F>>) ==> (r matches Err(
        e,
    ) && is_corrupt(e, "atomic record missing"@))
    &&& st.readable && !st.records.contains_key(recid) ==> r == Err::<F::Item, DbError>(
        DbError::GetVoid(recid),
    )
    &&& st.closed ==> r == Err::<F::Item, DbError>(DbError::StoreClosed)
}

/// Record `recid` was given the content `content`, or nothing changed.
pub open spec fn wrote(
    a: StoreState,
    b: StoreState,
    recid: u64,
    content: Option<Seq<u8>>,
    done: bool,
) -> bool {
    &&& keeps_state(a, b)
    &&& b.room >= a.room
    &&& done ==> a.records.contains_key(recid) && b.records == a.records.insert(recid, content)
    &&& !done ==> b.records == a.records
}

/// Writing a value leaves every record but its own as it was.
pub proof fn law_only_its_record_changes(
    a: StoreState,
    b: StoreState,
    recid: u64,
    content: Option<Seq<u8>>,
    done: bool,
    other: u64,
)
    requires
        wrote(a, b, recid, content, done),
        other != recid,
    ensures
        a.records.contains_key(other) == b.records.contains_key(other),
        a.records.contains_key(other) ==> a.records[other] == b.records[other],
        !done ==> b.records == a.records,
        done ==> b.records[recid] == content && b.records.dom() == a.records.dom(),
{
    if done {
        assert(b.records.dom() =~= a.records.dom());
    }
}

/// A closed store answers that it is closed, and a read-only one refuses a change.
pub open spec fn barred<T>(a: StoreState, changes: bool, r: Result<T>) -> bool {
    &&& a.closed ==> r == Err::<T, DbError>(DbError::StoreClosed)
    &&& !a.closed && a.readable && a.read_only && changes
        ==> r == Err::<T, DbError>(DbError::ReadOnly)
}

/// A record that does not exist is what a change of its value fails on.
pub open spec fn missed<T>(a: StoreState, recid: u64, r: Result<T>) -> bool {
    a.readable && !a.records.contains_key(recid) ==> r == Err::<T, DbError>(DbError::GetVoid(recid))
}

fn read_cell<S: Store, F: Serializer>(store: &S, recid: u64, ser: &F) -> (r: Result<F::Item>)
    ensures
        cell_read(ser, store.state(), recid, r),
{
    match get_item(store, recid, ser) {
        Ok(Some(v)) => Ok(v),
        Ok(None) => Err(DbError::corrupt("atomic record missing")),
        Err(e) => Err(e),
    }
}

/// Replaces the value `current`, which was just read.
fn replace_cell<S: Store, F: Serializer>(
    store: &mut S,
    recid: u64,
    current: &F::Item,
    new: &F::Item,
    ser: &F,
) -> (r: Result<()>)
    requires
        ser.fits(new@),
        cell(ser, old(store).state().records, recid) == Some(current@),
    ensures
        wrote(
            old(store).state(),
            final(store).state(),
            recid,
            Some(ser.enc(new@)),
            r is Ok,
        ),
        r is Ok ==> cell(ser, final(store).state().records, recid) == Some(new@),
        old(store).state().readable && old(store).state().writable ==> r is Ok,
        barred(old(store).state(), true, r),
{
    match compare_and_swap_item(store, recid, Some(current), Some(new), ser) {
        Ok(_) => Ok(()),
        Err(e) => Err(e),
    }
}

/// What is left of a number in 32 bits is the number, up to a multiple of 2^32.
proof fn lemma_low_bits(c: i64)
    ensures
        (c as int - (c as i32) as int) % 0x1_0000_0000 == 0,
{
    assert((c - (c as i32)) % 0x1_0000_0000 == 0) by (bit_vector);
}

/// A 64-bit number.
#[derive(Debug, Clone, Copy)]
pub struct AtomicLong {
    recid: u64,
}

impl AtomicLong {
    /// The recid of the record.
    pub closed spec fn at(&self) -> u64 {
        self.recid
    }

    /// The value.
    pub open spec fn value(&self, records: Records) -> Option<i64> {
        cell(&LONG, records, self.at())
    }

    pub fn new(recid: u64) -> (r: Self)
        ensures
            r.at() == recid,
    {
        AtomicLong { recid }
    }

    pub fn recid(&self) -> (r: u64)
        ensures
            r == self.at(),
    {
        self.recid
    }

    pub fn get<S: Store>(&self, store: &S) -> (r: Result<i64>)
        ensures
            cell_read(&LONG, store.state(), self.at(), r),
    {
        read_cell(store, self.recid, &LONG)
    }

    pub fn set<S: Store>(&self, store: &mut S, value: i64) -> (r: Result<()>)
        ensures
            barred(old(store).state(), true, r),
            wrote(
                old(store).state(),
                final(store).state(),
                self.at(),
                Some(LONG.enc(value)),
                r is Ok,
            ),
            r is Ok ==> self.value(final(store).state().records) == Some(value),
            old(store).state().writable && old(store).state().records.contains_key(self.at())
                ==> r is Ok,
    {
        update_item(store, self.recid, &value, &LONG)
    }

    /// Sets the value if it is the expected one; answers whether it was.
    pub fn compare_and_set<S: Store>(&self, store: &mut S, expect: i64, new: i64) -> (r: Result<
        bool,
    >)
        ensures
            missed(old(store).state(), self.at(), r),
            barred(old(store).state(), self.value(old(store).state().records) == Some(expect), r),
            wrote(
                old(store).state(),
                final(store).state(),
                self.at(),
                Some(LONG.enc(new)),
                r == Ok::<bool, DbError>(true),
            ),
            r == Ok::<bool, DbError>(true)
                ==> self.value(final(store).state().records) == Some(new),
            old(store).state().readable && old(store).state().writable && self.value(
                old(store).state().records,
            ) is Some ==> r == Ok::<bool, DbError>(
                self.value(old(store).state().records) == Some(expect),
            ),
            r matches Ok(set) ==> set == (self.value(old(store).state().records) == Some(expect)),
    {
        compare_and_swap_item(store, self.recid, Some(&expect), Some(&new), &LONG)
    }

    /// Sets the value; answers the one before.
    pub fn get_and_set<S: Store>(&self, store: &mut S, new: i64) -> (r: Result<i64>)
        ensures
            missed(old(store).state(), self.at(), r),
            barred(old(store).state(), self.value(old(store).state().records) is Some, r),
            wrote(
                old(store).state(),
                final(store).state(),
                self.at(),
                Some(LONG.enc(new)),
                r is Ok,
            ),
            r matches Ok(v) ==> self.value(old(store).state().records) == Some(v) && self.value(
                final(store).state().records,
            ) == Some(new),
            old(store).state().readable && old(store).state().writable && self.value(
                old(store).state().records,
            ) is Some ==> r is Ok,
    {
        let current = match self.get(store) {
            Ok(x) => x,
            Err(e) => {
                return Err(e);
            },
        };
        match replace_cell(store, self.recid, &current, &new, &LONG) {
            Ok(_) => Ok(current),
            Err(e) => Err(e),
        }
    }

    /// What adding `delta` does; sums wrap around.
    pub open spec fn added(
        &self,
        a: StoreState,
        b: StoreState,
        delta: i64,
        r: Result<i64>,
        before: bool,
    ) -> bool {
        &&& wrote(
            a,
            b,
            self.at(),
            Some(LONG.enc(self.value(a.records).unwrap().wrapping_add(delta))),
            r is Ok,
        )
        &&& r matches Ok(v) ==> self.value(a.records) matches Some(c) && v == (if before {
            c
        } else {
            c.wrapping_add(delta)
        }) && self.value(b.records) == Some(c.wrapping_add(delta))
        &&& a.readable && a.writable && self.value(a.records) is Some ==> r is Ok
        &&& barred(a, self.value(a.records) is Some, r)
        &&& missed(a, self.at(), r)
    }

    /// Adds to the value; answers the sum.
    pub fn add_and_get<S: Store>(&self, store: &mut S, delta: i64) -> (r: Result<i64>)
        ensures
            r matches Ok(v) ==> self.value(old(store).state().records) matches Some(c) && self.value(
                final(store).state().records,
            ) matches Some(d) && (d as int - c as int - delta) % 0x1_0000_0000_0000_0000 == 0 && v == d,
            self.added(old(store).state(), final(store).state(), delta, r, false),
    {
        let current: i64 = match self.get(store) {
            Ok(x) => x,
            Err(e) => {
                return Err(e);
            },
        };
        let next: i64 = current.wrapping_add(delta);
        match replace_cell(store, self.recid, &current, &next, &LONG) {
            Ok(_) => Ok(next),
            Err(e) => Err(e),
        }
    }

    /// Adds to the value; answers the value before.
    pub fn get_and_add<S: Store>(&self, store: &mut S, delta: i64) -> (r: Result<i64>)
        ensures
            r matches Ok(v) ==> self.value(old(store).state().records) matches Some(c) && self.value(
                final(store).state().records,
            ) matches Some(d) && (d as int - c as int - delta) % 0x1_0000_0000_0000_0000 == 0 && v == c,
            self.added(old(store).state(), final(store).state(), delta, r, true),
    {
        let current: i64 = match self.get(store) {
            Ok(x) => x,
            Err(e) => {
                return Err(e);
            },
        };
        let next: i64 = current.wrapping_add(delta);
        match replace_cell(store, self.recid, &current, &next, &LONG) {
            Ok(_) => Ok(current),
            Err(e) => Err(e),
        }
    }

    pub fn increment_and_get<S: Store>(&self, store: &mut S) -> (r: Result<i64>)
        ensures
            r matches Ok(v) ==> self.value(old(store).state().records) matches Some(c) && self.value(
                final(store).state().records,
            ) matches Some(d) && (d as int - c as int - 1) % 0x1_0000_0000_0000_0000 == 0 && v == d,
            self.added(old(store).state(), final(store).state(), 1, r, false),
    {
        self.add_and_get(store, 1)
    }

    pub fn get_and_increment<S: Store>(&self, store: &mut S) -> (r: Result<i64>)
        ensures
            r matches Ok(v) ==> self.value(old(store).state().records) matches Some(c) && self.value(
                final(store).state().records,
            ) matches Some(d) && (d as int - c as int - 1) % 0x1_0000_0000_0000_0000 == 0 && v == c,
            self.added(old(store).state(), final(store).state(), 1, r, true),
    {
        self.get_and_add(store, 1)
    }

    pub fn decrement_and_get<S: Store>(&self, store: &mut S) -> (r: Result<i64>)
        ensures
            r matches Ok(v) ==> self.value(old(store).state().records) matches Some(c) && self.value(
                final(store).state().records,
            ) matches Some(d) && (d as int - c as int + 1) % 0x1_0000_0000_0000_0000 == 0 && v == d,
            self.added(old(store).state(), final(store).state(), -1i64 as i64, r, false),
    {
        self.add_and_get(store, -1)
    }

    pub fn get_and_decrement<S: Store>(&self, store: &mut S) -> (r: Result<i64>)
        ensures
            r matches Ok(v) ==> self.value(old(store).state().records) matches Some(c) && self.value(
                final(store).state().records,
            ) matches Some(d) && (d as int - c as int + 1) % 0x1_0000_0000_0000_0000 == 0 && v == c,
            self.added(old(store).state(), final(store).state(), -1i64 as i64, r, true),
    {
        self.get_and_add(store, -1)
    }

    /// The low 32 bits of the value.
    pub fn int_value<S: Store>(&self, store: &S) -> (r: Result<i32>)
        ensures
            r matches Ok(v) ==> self.value(store.state().records) matches Some(c) && v == c as i32 && (
            c as int - v as int) % 0x1_0000_0000 == 0,
            store.state().readable && self.value(store.state().records) is Some ==> r is Ok,
    {
        match self.get(store) {
            Ok(v) => {
                proof {
                    lemma_low_bits(v);
                }
                Ok(#[verifier::truncate] (v as i32))
            },
            Err(e) => Err(e),
        }
    }

    pub fn long_value<S: Store>(&self, store: &S) -> (r: Result<i64>)
        ensures
            cell_read(&LONG, store.state(), self.at(), r),
    {
        self.get(store)
    }

    /// Adding moves the value by `delta`, up to a multiple of the size of the type, and by
    /// exactly `delta` where the sum is in range; the answer is the value before or after.
    pub proof fn law_adding(
        &self,
        a: StoreState,
        b: StoreState,
        delta: i64,
        r: Result<i64>,
        before: bool,
    )
        requires
            self.added(a, b, delta, r, before),
            r is Ok,
        ensures
            self.value(a.records) is Some,
            self.value(b.records) is Some,
            ({
                let c = self.value(a.records).unwrap() as int;
                let d = self.value(b.records).unwrap() as int;
                &&& (d - c - delta) % 0x1_0000_0000_0000_0000 == 0
                &&& i64::MIN <= c + delta <= i64::MAX ==> d == c + delta
                &&& r == Ok::<i64, DbError>(
                    if before {
                        self.value(a.records).unwrap()
                    } else {
                        self.value(b.records).unwrap()
                    },
                )
            }),
    {
    }

    /// Adding twice leaves what adding the sum once leaves.
    pub proof fn law_adds_accumulate(
        &self,
        a: StoreState,
        b: StoreState,
        c: StoreState,
        once: StoreState,
        d1: i64,
        d2: i64,
        d3: i64,
        r1: Result<i64>,
        r2: Result<i64>,
        r3: Result<i64>,
    )
        requires
            self.added(a, b, d1, r1, false),
            self.added(b, c, d2, r2, false),
            self.added(a, once, d3, r3, false),
            r1 is Ok && r2 is Ok && r3 is Ok,
            d3 == d1 + d2,
        ensures
            self.value(c.records) == self.value(once.records),
            r2 == r3,
    {
    }
}

/// A 32-bit number.
#[derive(Debug, Clone, Copy)]
pub struct AtomicInteger {
    recid: u64,
}

impl AtomicInteger {
    /// The recid of the record.
    pub closed spec fn at(&self) -> u64 {
        self.recid
    }

    /// The value.
    pub open spec fn value(&self, records: Records) -> Option<i32> {
        cell(&INT, records, self.at())
    }

    pub fn new(recid: u64) -> (r: Self)
        ensures
            r.at() == recid,
    {
        AtomicInteger { recid }
    }

    pub fn recid(&self) -> (r: u64)
        ensures
            r == self.at(),
    {
        self.recid
    }

    pub fn get<S: Store>(&self, store: &S) -> (r: Result<i32>)
        ensures
            cell_read(&INT, store.state(), self.at(), r),
    {
        read_cell(store, self.recid, &INT)
    }

    pub fn set<S: Store>(&self, store: &mut S, value: i32) -> (r: Result<()>)
        ensures
            barred(old(store).state(), true, r),
            wrote(
                old(store).state(),
                final(store).state(),
                self.at(),
                Some(INT.enc(value)),
                r is Ok,
            ),
            r is Ok ==> self.value(final(store).state().records) == Some(value),
            old(store).state().writable && old(store).state().records.contains_key(self.at())
                ==> r is Ok,
    {
        update_item(store, self.recid, &value, &INT)
    }

    /// Sets the value if it is the expected one; answers whether it was.
    pub fn compare_and_set<S: Store>(&self, store: &mut S, expect: i32, new: i32) -> (r: Result<
        bool,
    >)
        ensures
            missed(old(store).state(), self.at(), r),
            barred(old(store).state(), self.value(old(store).state().records) == Some(expect), r),
            wrote(
                old(store).state(),
                final(store).state(),
                self.at(),
                Some(INT.enc(new)),
                r == Ok::<bool, DbError>(true),
            ),
            r == Ok::<bool, DbError>(true)
                ==> self.value(final(store).state().records) == Some(new),
            old(store).state().readable && old(store).state().writable && self.value(
                old(store).state().records,
            ) is Some ==> r == Ok::<bool, DbError>(
                self.value(old(store).state().records) == Some(expect),
            ),
            r matches Ok(set) ==> set == (self.value(old(store).state().records) == Some(expect)),
    {
        compare_and_swap_item(store, self.recid, Some(&expect), Some(&new), &INT)
    }

    /// Sets the value; answers the one before.
    pub fn get_and_set<S: Store>(&self, store: &mut S, new: i32) -> (r: Result<i32>)
        ensures
            missed(old(store).state(), self.at(), r),
            barred(old(store).state(), self.value(old(store).state().records) is Some, r),
            wrote(
                old(store).state(),
                final(store).state(),
                self.at(),
                Some(INT.enc(new)),
                r is Ok,
            ),
            r matches Ok(v) ==> self.value(old(store).state().records) == Some(v) && self.value(
                final(store).state().records,
            ) == Some(new),
            old(store).state().readable && old(store).state().writable && self.value(
                old(store).state().records,
            ) is Some ==> r is Ok,
    {
        let current = match self.get(store) {
            Ok(x) => x,
            Err(e) => {
                return Err(e);
            },
        };
        match replace_cell(store, self.recid, &current, &new, &INT) {
            Ok(_) => Ok(current),
            Err(e) => Err(e),
        }
    }

    /// What adding `delta` does; sums wrap around.
    pub open spec fn added(
        &self,
        a: StoreState,
        b: StoreState,
        delta: i32,
        r: Result<i32>,
        before: bool,
    ) -> bool {
        &&& wrote(
            a,
            b,
            self.at(),
            Some(INT.enc(self.value(a.records).unwrap().wrapping_add(delta))),
            r is Ok,
        )
        &&& r matches Ok(v) ==> self.value(a.records) matches Some(c) && v == (if before {
            c
        } else {
            c.wrapping_add(delta)
        }) && self.value(b.records) == Some(c.wrapping_add(delta))
        &&& a.readable && a.writable && self.value(a.records) is Some ==> r is Ok
        &&& barred(a, self.value(a.records) is Some, r)
        &&& missed(a, self.at(), r)
    }

    /// Adds to the value; answers the sum.
    pub fn add_and_get<S: Store>(&self, store: &mut S, delta: i32) -> (r: Result<i32>)
        ensures
            r matches Ok(v) ==> self.value(old(store).state().records) matches Some(c) && self.value(
                final(store).state().records,
            ) matches Some(d) && (d as int - c as int - delta) % 0x1_0000_0000 == 0 && v == d,
            self.added(old(store).state(), final(store).state(), delta, r, false),
    {
        let current: i32 = match self.get(store) {
            Ok(x) => x,
            Err(e) => {
                return Err(e);
            },
        };
        let next: i32 = current.wrapping_add(delta);
        match replace_cell(store, self.recid, &current, &next, &INT) {
            Ok(_) => Ok(next),
            Err(e) => Err(e),
        }
    }

    /// Adds to the value; answers the value before.
    pub fn get_and_add<S: Store>(&self, store: &mut S, delta: i32) -> (r: Result<i32>)
        ensures
            r matches Ok(v) ==> self.value(old(store).state().records) matches Some(c) && self.value(
                final(store).state().records,
            ) matches Some(d) && (d as int - c as int - delta) % 0x1_0000_0000 == 0 && v == c,
            self.added(old(store).state(), final(store).state(), delta, r, true),
    {
        let current: i32 = match self.get(store) {
            Ok(x) => x,
            Err(e) => {
                return Err(e);
            },
        };
        let next: i32 = current.wrapping_add(delta);
        match replace_cell(store, self.recid, &current, &next, &INT) {
            Ok(_) => Ok(current),
            Err(e) => Err(e),
        }
    }

    pub fn increment_and_get<S: Store>(&self, store: &mut S) -> (r: Result<i32>)
        ensures
            r matches Ok(v) ==> self.value(old(store).state().records) matches Some(c) && self.value(
                final(store).state().records,
            ) matches Some(d) && (d as int - c as int - 1) % 0x1_0000_0000 == 0 && v == d,
            self.added(old(store).state(), final(store).state(), 1, r, false),
    {
        self.add_and_get(store, 1)
    }

    pub fn get_and_increment<S: Store>(&self, store: &mut S) -> (r: Result<i32>)
        ensures
            r matches Ok(v) ==> self.value(old(store).state().records) matches Some(c) && self.value(
                final(store).state().records,
            ) matches Some(d) && (d as int - c as int - 1) % 0x1_0000_0000 == 0 && v == c,
            self.added(old(store).state(), final(store).state(), 1, r, true),
    {
        self.get_and_add(store, 1)
    }

    pub fn int_value<S: Store>(&self, store: &S) -> (r: Result<i32>)
        ensures
            cell_read(&INT, store.state(), self.at(), r),
    {
        self.get(store)
    }

    pub fn long_value<S: Store>(&self, store: &S) -> (r: Result<i64>)
        ensures
            r matches Ok(v) ==> self.value(store.state().records) matches Some(c) && v == c,
            store.state().readable && self.value(store.state().records) is Some ==> r is Ok,
    {
        match self.get(store) {
            Ok(v) => Ok(v as i64),
            Err(e) => Err(e),
        }
    }

    /// Adding moves the value by `delta`, up to a multiple of the size of the type, and by
    /// exactly `delta` where the sum is in range; the answer is the value before or after.
    pub proof fn law_adding(
        &self,
        a: StoreState,
        b: StoreState,
        delta: i32,
        r: Result<i32>,
        before: bool,
    )
        requires
            self.added(a, b, delta, r, before),
            r is Ok,
        ensures
            self.value(a.records) is Some,
            self.value(b.records) is Some,
            ({
                let c = self.value(a.records).unwrap() as int;
                let d = self.value(b.records).unwrap() as int;
                &&& (d - c - delta) % 0x1_0000_0000 == 0
                &&& i32::MIN <= c + delta <= i32::MAX ==> d == c + delta
                &&& r == Ok::<i32, DbError>(
                    if before {
                        self.value(a.records).unwrap()
                    } else {
                        self.value(b.records).unwrap()
                    },
                )
            }),
    {
    }

    /// Adding twice leaves what adding the sum once leaves.
    pub proof fn law_adds_accumulate(
        &self,
        a: StoreState,
        b: StoreState,
        c: StoreState,
        once: StoreState,
        d1: i32,
        d2: i32,
        d3: i32,
        r1: Result<i32>,
        r2: Result<i32>,
        r3: Result<i32>,
    )
        requires
            self.added(a, b, d1, r1, false),
            self.added(b, c, d2, r2, false),
            self.added(a, once, d3, r3, false),
            r1 is Ok && r2 is Ok && r3 is Ok,
            d3 == d1 + d2,
        ensures
            self.value(c.records) == self.value(once.records),
            r2 == r3,
    {
    }
}

/// A truth value.
#[derive(Debug, Clone, Copy)]
pub struct AtomicBoolean {
    recid: u64,
}

impl AtomicBoolean {
    /// The recid of the record.
    pub closed spec fn at(&self) -> u64 {
        self.recid
    }

    /// The value.
    pub open spec fn value(&self, records: Records) -> Option<bool> {
        cell(&BOOLEAN, records, self.at())
    }

    pub fn new(recid: u64) -> (r: Self)
        ensures
            r.at() == recid,
    {
        AtomicBoolean { recid }
    }

    pub fn recid(&self) -> (r: u64)
        ensures
            r == self.at(),
    {
        self.recid
    }

    pub fn get<S: Store>(&self, store: &S) -> (r: Result<bool>)
        ensures
            cell_read(&BOOLEAN, store.state(), self.at(), r),
    {
        read_cell(store, self.recid, &BOOLEAN)
    }

    pub fn set<S: Store>(&self, store: &mut S, value: bool) -> (r: Result<()>)
        ensures
            barred(old(store).state(), true, r),
            wrote(
                old(store).state(),
                final(store).state(),
                self.at(),
                Some(BOOLEAN.enc(value)),
                r is Ok,
            ),
            r is Ok ==> self.value(final(store).state().records) == Some(value),
            old(store).state().writable && old(store).state().records.contains_key(self.at())
                ==> r is Ok,
    {
        update_item(store, self.recid, &value, &BOOLEAN)
    }

    /// Sets the value if it is the expected one; answers whether it was.
    pub fn compare_and_set<S: Store>(&self, store: &mut S, expect: bool, new: bool) -> (r: Result<
        bool,
    >)
        ensures
            missed(old(store).state(), self.at(), r),
            barred(old(store).state(), self.value(old(store).state().records) == Some(expect), r),
            wrote(
                old(store).state(),
                final(store).state(),
                self.at(),
                Some(BOOLEAN.enc(new)),
                r == Ok::<bool, DbError>(true),
            ),
            r == Ok::<bool, DbError>(true)
                ==> self.value(final(store).state().records) == Some(new),
            old(store).state().readable && old(store).state().writable && self.value(
                old(store).state().records,
            ) is Some ==> r == Ok::<bool, DbError>(
                self.value(old(store).state().records) == Some(expect),
            ),
            r matches Ok(set) ==> set == (self.value(old(store).state().records) == Some(expect)),
    {
        compare_and_swap_item(store, self.recid, Some(&expect), Some(&new), &BOOLEAN)
    }

    /// Sets the value; answers the one before.
    pub fn get_and_set<S: Store>(&self, store: &mut S, new: bool) -> (r: Result<bool>)
        ensures
            missed(old(store).state(), self.at(), r),
            barred(old(store).state(), self.value(old(store).state().records) is Some, r),
            wrote(
                old(store).state(),
                final(store).state(),
                self.at(),
                Some(BOOLEAN.enc(new)),
                r is Ok,
            ),
            r matches Ok(v) ==> self.value(old(store).state().records) == Some(v) && self.value(
                final(store).state().records,
            ) == Some(new),
            old(store).state().readable && old(store).state().writable && self.value(
                old(store).state().records,
            ) is Some ==> r is Ok,
    {
        let current = match self.get(store) {
            Ok(x) => x,
            Err(e) => {
                return Err(e);
            },
        };
        match replace_cell(store, self.recid, &current, &new, &BOOLEAN) {
            Ok(_) => Ok(current),
            Err(e) => Err(e),
        }
    }
}

// ---------------------------------------------------------------- strings

/// A string or none.
#[derive(Debug)]
pub struct NullableString {
    pub value: Option<String>,
}

impl View for NullableString {
    type V = Option<Seq<char>>;

    open spec fn view(&self) -> Option<Seq<char>> {
        match self.value {
            Some(s) => Some(s@),
            None => None,
        }
    }
}

/// The codec of a string or none: a byte that says which, and then the string.
#[derive(Debug, Clone, Copy)]
pub struct NullableStringSer;

/// The codec of a string or none.
pub const STRING_NULLABLE: NullableStringSer = NullableStringSer;

impl Default for NullableStringSer {
    fn default() -> (r: Self)
        ensures
            r == NullableStringSer,
    {
        NullableStringSer
    }
}

impl Serializer for NullableStringSer {
    type Item = NullableString;

    open spec fn fits(&self, v: Option<Seq<char>>) -> bool {
        v matches Some(s) ==> STRING.fits(s)
    }

    open spec fn enc(&self, v: Option<Seq<char>>) -> Seq<u8> {
        match v {
            None => seq![0u8],
            Some(s) => seq![1u8] + STRING.enc(s),
        }
    }

    open spec fn dec(&self, s: Seq<u8>) -> Option<(Option<Seq<char>>, nat)> {
        if s.len() == 0 {
            None
        } else if s[0] == 0 {
            Some((None, 1))
        } else {
            match STRING.dec(s.skip(1)) {
                Some((v, n)) => Some((Some(v), n + 1)),
                None => None,
            }
        }
    }

    proof fn round_trip(&self, v: Option<Seq<char>>, tail: Seq<u8>) {
        if let Some(s) = v {
            STRING.round_trip(s, tail);
            let b = self.enc(v) + tail;
            assert(b.skip(1) =~= STRING.enc(s) + tail);
        }
    }

    proof fn dec_within(&self, s: Seq<u8>) {
        STRING.dec_within(s.skip(1));
    }

    fn can_write(&self, value: &NullableString) -> bool {
        match &value.value {
            Some(s) => STRING.can_write(s),
            None => true,
        }
    }

    fn serialize(&self, out: &mut DataOutput2, value: &NullableString) {
        match &value.value {
            None => {
                out.write_u8(0);
            },
            Some(s) => {
                out.write_u8(1);
                STRING.serialize(out, s);
            },
        }
        assert(out@ =~= old(out)@ + self.enc(value@));
    }

    fn deserialize(&self, input: &mut SliceInput<'_>) -> Result<NullableString> {
        let ghost s = rest(input.bytes(), input.cursor());
        let present: u8 = match input.read_u8() {
            Ok(x) => x,
            Err(e) => {
                return Err(e);
            },
        };
        if present == 0 {
            return Ok(NullableString { value: None });
        }
        proof {
            assert(rest(input.bytes(), input.cursor()) =~= s.skip(1));
        }
        match STRING.deserialize(input) {
            Ok(v) => Ok(NullableString { value: Some(v) }),
            Err(e) => Err(e),
        }
    }

    fn equals(&self, a: &NullableString, b: &NullableString) -> bool {
        match (&a.value, &b.value) {
            (Some(x), Some(y)) => STRING.equals(x, y),
            (None, None) => true,
            _ => false,
        }
    }

    fn dup(&self, a: &NullableString) -> NullableString {
        NullableString {
            value: match &a.value {
                Some(s) => Some(s.clone()),
                None => None,
            },
        }
    }

    open spec fn width(&self) -> Option<usize> {
        None
    }

    proof fn width_is_exact(&self, v: Option<Seq<char>>) {
    }

    fn fixed_size(&self) -> Option<usize> {
        None
    }
}

/// A string or none. The record is always there; its content says whether there is
/// a string.
#[derive(Debug, Clone, Copy)]
pub struct AtomicString {
    recid: u64,
}

/// The model of a string or none.
pub open spec fn opt_string(v: Option<&String>) -> Option<Seq<char>> {
    match v {
        Some(s) => Some(s@),
        None => None,
    }
}

fn owned(v: Option<&String>) -> (r: NullableString)
    ensures
        r@ == opt_string(v),
{
    NullableString {
        value: match v {
            Some(s) => Some(s.clone()),
            None => None,
        },
    }
}

impl AtomicString {
    /// The recid of the record.
    pub closed spec fn at(&self) -> u64 {
        self.recid
    }

    /// The string or none that the record holds; a null record holds none.
    pub open spec fn value(&self, records: Records) -> Option<Option<Seq<char>>> {
        match item_at(&STRING_NULLABLE, records, self.at()) {
            Some(Some(v)) => Some(v),
            Some(None) => Some(None),
            None => None,
        }
    }

    pub fn new(recid: u64) -> (r: Self)
        ensures
            r.at() == recid,
    {
        AtomicString { recid }
    }

    pub fn recid(&self) -> (r: u64)
        ensures
            r == self.at(),
    {
        self.recid
    }

    pub fn get<S: Store>(&self, store: &S) -> (r: Result<Option<String>>)
        ensures
            r matches Ok(v) ==> self.value(store.state().records) == Some(opt_model(v)),
            store.state().readable && self.value(store.state().records) is Some ==> r is Ok,
            store.state().closed ==> r == Err::<Option<String>, DbError>(DbError::StoreClosed),
            missed(store.state(), self.at(), r),
    {
        match get_item(store, self.recid, &STRING_NULLABLE) {
            Ok(Some(v)) => Ok(v.value),
            Ok(None) => Ok(None),
            Err(e) => Err(e),
        }
    }

    pub fn set<S: Store>(&self, store: &mut S, value: Option<&String>) -> (r: Result<()>)
        requires
            STRING_NULLABLE.fits(opt_string(value)),
        ensures
            barred(old(store).state(), true, r),
            wrote(
                old(store).state(),
                final(store).state(),
                self.at(),
                Some(STRING_NULLABLE.enc(opt_string(value))),
                r is Ok,
            ),
            r is Ok ==> self.value(final(store).state().records) == Some(opt_string(value)),
            old(store).state().writable && old(store).state().records.contains_key(self.at())
                ==> r is Ok,
    {
        let v = owned(value);
        update_item(store, self.recid, &v, &STRING_NULLABLE)
    }

    pub fn set_str<S: Store>(&self, store: &mut S, value: &str) -> (r: Result<()>)
        requires
            STRING.fits(value@),
        ensures
            barred(old(store).state(), true, r),
            wrote(
                old(store).state(),
                final(store).state(),
                self.at(),
                Some(STRING_NULLABLE.enc(Some(value@))),
                r is Ok,
            ),
            r is Ok ==> self.value(final(store).state().records) == Some(Some(value@)),
            old(store).state().writable && old(store).state().records.contains_key(self.at())
                ==> r is Ok,
    {
        let v = NullableString { value: Some(String::from_str(value)) };
        update_item(store, self.recid, &v, &STRING_NULLABLE)
    }

    /// Sets the string if the record holds the expected one; answers whether it did.
    pub fn compare_and_set<S: Store>(
        &self,
        store: &mut S,
        expect: Option<&String>,
        new: Option<&String>,
    ) -> (r: Result<bool>)
        requires
            STRING_NULLABLE.fits(opt_string(new)),
        ensures
            missed(old(store).state(), self.at(), r),
            barred(
                old(store).state(),
                item_at(&STRING_NULLABLE, old(store).state().records, self.at())
                    == Some(Some(opt_string(expect))),
                r,
            ),
            wrote(
                old(store).state(),
                final(store).state(),
                self.at(),
                Some(STRING_NULLABLE.enc(opt_string(new))),
                r == Ok::<bool, DbError>(true),
            ),
            r == Ok::<bool, DbError>(true) ==> self.value(final(store).state().records) == Some(
                opt_string(new),
            ),
            old(store).state().readable && old(store).state().writable ==> (item_at(
                &STRING_NULLABLE,
                old(store).state().records,
                self.at(),
            ) matches Some(v) ==> r == Ok::<bool, DbError>(v == Some(opt_string(expect)))),
            r matches Ok(set) ==> (item_at(
                &STRING_NULLABLE,
                old(store).state().records,
                self.at(),
            ) matches Some(v) && set == (v == Some(opt_string(expect)))),
    {
        let e = owned(expect);
        let n = owned(new);
        compare_and_swap_item(store, self.recid, Some(&e), Some(&n), &STRING_NULLABLE)
    }
}

// ---------------------------------------------------------------- any value

/// A value of any type, or none: then the record is null.
#[derive(Debug, Clone)]
pub struct AtomicVar<Se> {
    recid: u64,
    serializer: Se,
}

/// The model of a value or none.
pub open spec fn opt_item<E: View>(v: Option<&E>) -> Option<E::V> {
    match v {
        Some(x) => Some(x@),
        None => None,
    }
}

impl<Se: Serializer> AtomicVar<Se> {
    /// The recid of the record.
    pub closed spec fn at(&self) -> u64 {
        self.recid
    }

    pub closed spec fn ser(&self) -> Se {
        self.serializer
    }

    /// The value or none that the record holds.
    pub open spec fn value(&self, records: Records) -> Option<Option<Model<Se>>> {
        item_at(&self.ser(), records, self.at())
    }

    pub fn new(recid: u64, serializer: Se) -> (r: Self)
        ensures
            r.at() == recid,
            r.ser() == serializer,
    {
        AtomicVar { recid, serializer }
    }

    pub fn recid(&self) -> (r: u64)
        ensures
            r == self.at(),
    {
        self.recid
    }

    pub fn serializer(&self) -> (r: &Se)
        ensures
            *r == self.ser(),
    {
        &self.serializer
    }

    pub fn get<S: Store>(&self, store: &S) -> (r: Result<Option<Se::Item>>)
        ensures
            r matches Ok(v) ==> self.value(store.state().records) == Some(opt_model(v)),
            store.state().readable && self.value(store.state().records) is Some ==> r is Ok,
            store.state().closed ==> r == Err::<Option<Se::Item>, DbError>(DbError::StoreClosed),
            missed(store.state(), self.at(), r),
    {
        get_item(store, self.recid, &self.serializer)
    }

    pub fn set<S: Store>(&self, store: &mut S, value: Option<&Se::Item>) -> (r: Result<()>)
        requires
            opt_item(value) matches Some(v) ==> self.ser().fits(v),
        ensures
            barred(old(store).state(), true, r),
            wrote(
                old(store).state(),
                final(store).state(),
                self.at(),
                opt_bytes(&self.ser(), opt_item(value)),
                r is Ok,
            ),
            r is Ok ==> self.value(final(store).state().records) == Some(opt_item(value)),
            old(store).state().writable && old(store).state().records.contains_key(self.at())
                ==> r is Ok,
    {
        match value {
            Some(v) => update_item(store, self.recid, v, &self.serializer),
            None => store.update(self.recid, None),
        }
    }

    pub fn set_value<S: Store>(&self, store: &mut S, value: &Se::Item) -> (r: Result<()>)
        requires
            self.ser().fits(value@),
        ensures
            barred(old(store).state(), true, r),
            wrote(
                old(store).state(),
                final(store).state(),
                self.at(),
                Some(self.ser().enc(value@)),
                r is Ok,
            ),
            r is Ok ==> self.value(final(store).state().records) == Some(Some(value@)),
            old(store).state().writable && old(store).state().records.contains_key(self.at())
                ==> r is Ok,
    {
        update_item(store, self.recid, value, &self.serializer)
    }

    /// Sets the value if the record holds the expected one; answers whether it did.
    pub fn compare_and_set<S: Store>(
        &self,
        store: &mut S,
        expect: Option<&Se::Item>,
        new: Option<&Se::Item>,
    ) -> (r: Result<bool>)
        requires
            opt_item(new) matches Some(v) ==> self.ser().fits(v),
        ensures
            missed(old(store).state(), self.at(), r),
            barred(
                old(store).state(),
                self.value(old(store).state().records) == Some(opt_item(expect)),
                r,
            ),
            wrote(
                old(store).state(),
                final(store).state(),
                self.at(),
                opt_bytes(&self.ser(), opt_item(new)),
                r == Ok::<bool, DbError>(true),
            ),
            r == Ok::<bool, DbError>(true) ==> self.value(final(store).state().records) == Some(
                opt_item(new),
            ),
            old(store).state().readable && old(store).state().writable && self.value(
                old(store).state().records,
            ) is Some ==> r == Ok::<bool, DbError>(
                self.value(old(store).state().records) == Some(opt_item(expect)),
            ),
            r matches Ok(set) ==> set == (self.value(old(store).state().records) == Some(
                opt_item(expect),
            )),
    {
        compare_and_swap_item(store, self.recid, expect, new, &self.serializer)
    }

    /// Sets the value; answers the one before.
    pub fn get_and_set<S: Store>(&self, store: &mut S, new: Option<&Se::Item>) -> (r: Result<
        Option<Se::Item>,
    >)
        requires
            opt_item(new) matches Some(v) ==> self.ser().fits(v),
        ensures
            missed(old(store).state(), self.at(), r),
            barred(old(store).state(), self.value(old(store).state().records) is Some, r),
            wrote(
                old(store).state(),
                final(store).state(),
                self.at(),
                opt_bytes(&self.ser(), opt_item(new)),
                r is Ok,
            ),
            r matches Ok(v) ==> self.value(old(store).state().records) == Some(opt_model(v))
                && self.value(final(store).state().records) == Some(opt_item(new)),
            old(store).state().readable && old(store).state().writable && self.value(
                old(store).state().records,
            ) is Some ==> r is Ok,
    {
        let current = match self.get(store) {
            Ok(x) => x,
            Err(e) => {
                return Err(e);
            },
        };
        let expect = match &current {
            Some(x) => Some(x),
            None => None,
        };
        match compare_and_swap_item(store, self.recid, expect, new, &self.serializer) {
            Ok(_) => Ok(current),
            Err(e) => Err(e),
        }
    }
}

/// No string is a zero byte, and a string is a one and then the string behind its packed
/// length.
pub proof fn law_nullable_layout(s: Seq<char>)
    ensures
        STRING_NULLABLE.enc(None) == seq![0u8],
        STRING_NULLABLE.enc(Some(s)) == seq![1u8] + packed(encode_utf8(s).len()) + encode_utf8(s),
{
    assert(STRING_NULLABLE.enc(Some(s)) =~= seq![1u8] + packed(encode_utf8(s).len()) + encode_utf8(
        s,
    ));
}

} // verus!
