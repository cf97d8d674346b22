//! Makers: they create named objects in a database and open them again.

use vstd::prelude::*;
use crate::btree::contents::lists;
use crate::btree::map::BTreeMap;
use crate::btree::map::bulk::{ascending, bulk_room};
use crate::btree::range::{entry_models, lists_keys};
use crate::db::atomic::{
    AtomicBoolean, AtomicInteger, AtomicLong, AtomicString, AtomicVar, NullableString, STRING_NULLABLE,
};
use crate::db::catalog::{catalog_bytes, NameCatalog, Names, RECID_CATALOG};
use crate::db::db::DB;
use crate::db::descriptor::{
    group_descriptor_or_custom, name_or_custom, ser_descriptor_or_custom, valid_group, valid_ser,
    verified, verify_group, verify_ser, GroupDescriptor, SerDescriptor,
};
use crate::db::objects::{
    is_a, inline_of, number_at, read_recid, read_tree_config, register_atomic, register_coded, register_map,
    register_set, tree_config, verify_type, with_atomic, with_coded, with_map, with_set, TreeConfig,
};
use crate::db::schema::{field_key, valid_name, validate_name};
use crate::db::set::{NavigableSet, NoValue, NoValueFormat};
use crate::error::{is_corrupt, DbError, Result};
use crate::queue::blocking::{header_at, mode_number, Mode, PersistentBlockingQueue, UNBOUNDED};
use crate::ser::{models, KeyFormat, Model, Serializer, BOOLEAN, INT, LONG};
use crate::store::{keeps_state, lemma_enc_dec, opt_model, put_item, turned_down, Store, StoreState};
use crate::text::joined3;

verus! {

/// A name that no new object can have is refused.
pub open spec fn name_refused<S: Store, T>(
    db: &DB<S>,
    after: &DB<S>,
    name: Seq<char>,
    r: Result<T>,
) -> bool {
    &&& *after == *db
    &&& !valid_name(name) ==> (r matches Err(e) && e is WrongConfiguration)
    &&& valid_name(name) && db.is_shut() ==> r == Err::<T, DbError>(DbError::StoreClosed)
    &&& valid_name(name) && !db.is_shut() ==> (r matches Err(e) && e is WrongConfiguration)
}

/// An object was registered: the catalog is `m`, and but for the catalog every record
/// that was there is as it was.
pub open spec fn registered<S: Store>(db: &DB<S>, after: &DB<S>, m: Names) -> bool {
    let a = db.state().records;
    let b = after.state().records;
    &&& after.names() == m
    &&& b.contains_key(RECID_CATALOG) && b[RECID_CATALOG] == Some(catalog_bytes(m))
    &&& forall|x: u64| #[trigger]
        a.contains_key(x) && x != RECID_CATALOG ==> b.contains_key(x) && b[x] == a[x]
}

/// What creating an object leaves as it was whatever happens.
pub open spec fn made<S: Store, T>(db: &DB<S>, after: &DB<S>, r: Result<T>) -> bool {
    &&& after.same_frame(db)
    &&& keeps_state(db.state(), after.state())
    &&& r is Err ==> after.names() == db.names()
}

/// A single record with these bytes was added.
pub open spec fn one_record<S: Store>(
    db: &DB<S>,
    after: &DB<S>,
    recid: u64,
    content: Option<Seq<u8>>,
) -> bool {
    &&& recid > 0
    &&& !db.state().records.contains_key(recid)
    &&& after.state().records == db.state().records.insert(recid, content).insert(
        RECID_CATALOG,
        Some(catalog_bytes(after.names())),
    )
}

/// Makes a 64-bit number in a record of its own.
#[derive(Debug)]
pub struct AtomicLongMaker {
    name: String,
    initial: i64,
}

impl AtomicLongMaker {
    pub closed spec fn title(&self) -> Seq<char> {
        self.name@
    }

    /// The value that a new object starts with.
    pub closed spec fn first(&self) -> i64 {
        self.initial
    }

    pub(super) fn begin(name: &str, initial: i64) -> (r: Self)
        ensures
            r.title() == name@,
            r.first() == initial,
    {
        AtomicLongMaker { name: String::from_str(name), initial }
    }

    /// What creating the object does.
    pub open spec fn create_post<S: Store>(
        &self,
        db: &DB<S>,
        after: &DB<S>,
        r: Result<AtomicLong>,
    ) -> bool {
        let n = self.title();
        &&& made(db, after, r)
        &&& after.state().room + 1 >= db.state().room
        &&& !db.free_name(n) ==> name_refused(db, after, n, r)
        &&& db.free_name(n) ==> turned_down(db.state(), after.state(), r)
        &&& db.free_name(n) && db.publishable() && db.state().room > 0 ==> r is Ok
        &&& r matches Ok(x) ==> {
            &&& db.free_name(n)
            &&& after.names() == with_atomic(db.names(), n, "AtomicLong"@, x.at())
            &&& one_record(db, after, x.at(), Some(LONG.enc(self.first())))
            &&& db.state().records.contains_key(RECID_CATALOG) ==> x.value(after.state().records)
                == Some(self.first())
        }
    }

    /// What opening the object answers.
    pub open spec fn open_post<S: Store>(&self, db: &DB<S>, r: Result<AtomicLong>) -> bool {
        let n = self.title();
        let m = db.names();
        &&& db.is_shut() ==> r == Err::<AtomicLong, DbError>(DbError::StoreClosed)
        &&& !db.is_shut() && !is_a(m, n, "AtomicLong"@) ==> (r matches Err(e) && e is WrongConfiguration)
        &&& !db.is_shut() && is_a(m, n, "AtomicLong"@) ==> match number_at(
            m,
            field_key(n, "recid"@),
            u64::MAX as nat,
        ) {
            Some(x) => if x > 0 {
                r matches Ok(o) && o.at() == x
            } else {
                r matches Err(e) && is_corrupt(e, "recid must be non-zero"@)
            },
            None => r matches Err(e) && e is DataCorruption,
        }
    }

    /// Creates the object; its name must be free.
    pub fn create<S: Store>(self, db: &mut DB<S>) -> (r: Result<AtomicLong>)
        requires
            old(db).wf(),
        ensures
            self.create_post(old(db), final(db), r),
    {
        match db.check_free(self.name.as_str()) {
            Ok(_) => {},
            Err(e) => {
                return Err(e);
            },
        }
        proof {
            lemma_enc_dec(&LONG, self.initial);
        }
        let recid: u64 = match put_item(db.store_mut(), &self.initial, &LONG) {
            Ok(x) => x,
            Err(e) => {
                return Err(e);
            },
        };
        let mut staged = db.catalog().dup();
        register_atomic(&mut staged, self.name.as_str(), "AtomicLong", recid);
        match db.publish(staged) {
            Ok(_) => Ok(AtomicLong::new(recid)),
            Err(e) => Err(e),
        }
    }

    /// Opens the object.
    pub fn open<S: Store>(self, db: &DB<S>) -> (r: Result<AtomicLong>)
        requires
            db.wf(),
        ensures
            self.open_post(db, r),
    {
        if db.is_closed() {
            return Err(DbError::StoreClosed);
        }
        match verify_type(db.catalog(), self.name.as_str(), "AtomicLong") {
            Ok(_) => {},
            Err(e) => {
                return Err(e);
            },
        }
        match read_recid(db.catalog(), self.name.as_str(), "recid") {
            Ok(recid) => Ok(AtomicLong::new(recid)),
            Err(e) => Err(e),
        }
    }

    /// Opens the object where there is one of its name, and creates it where there is
    /// none.
    pub fn create_or_open<S: Store>(self, db: &mut DB<S>) -> (r: Result<AtomicLong>)
        requires
            old(db).wf(),
        ensures
            ({
                let n = self.title();
                let known = old(db).names().contains_key(field_key(n, "type"@));
                &&& valid_name(n) && known ==> *final(db) == *old(db) && self.open_post(old(db), r)
                &&& !(valid_name(n) && known) ==> self.create_post(old(db), final(db), r)
            }),
    {
        match validate_name(self.name.as_str()) {
            Ok(_) => {},
            Err(e) => {
                return Err(e);
            },
        }
        if db.catalog().contains_key(joined3(self.name.as_str(), "#", "type").as_str()) {
            self.open(db)
        } else {
            self.create(db)
        }
    }
}

/// Makes a 32-bit number in a record of its own.
#[derive(Debug)]
pub struct AtomicIntegerMaker {
    name: String,
    initial: i32,
}

impl AtomicIntegerMaker {
    pub closed spec fn title(&self) -> Seq<char> {
        self.name@
    }

    /// The value that a new object starts with.
    pub closed spec fn first(&self) -> i32 {
        self.initial
    }

    pub(super) fn begin(name: &str, initial: i32) -> (r: Self)
        ensures
            r.title() == name@,
            r.first() == initial,
    {
        AtomicIntegerMaker { name: String::from_str(name), initial }
    }

    /// What creating the object does.
    pub open spec fn create_post<S: Store>(
        &self,
        db: &DB<S>,
        after: &DB<S>,
        r: Result<AtomicInteger>,
    ) -> bool {
        let n = self.title();
        &&& made(db, after, r)
        &&& after.state().room + 1 >= db.state().room
        &&& !db.free_name(n) ==> name_refused(db, after, n, r)
        &&& db.free_name(n) ==> turned_down(db.state(), after.state(), r)
        &&& db.free_name(n) && db.publishable() && db.state().room > 0 ==> r is Ok
        &&& r matches Ok(x) ==> {
            &&& db.free_name(n)
            &&& after.names() == with_atomic(db.names(), n, "AtomicInteger"@, x.at())
            &&& one_record(db, after, x.at(), Some(INT.enc(self.first())))
            &&& db.state().records.contains_key(RECID_CATALOG) ==> x.value(after.state().records)
                == Some(self.first())
        }
    }

    /// What opening the object answers.
    pub open spec fn open_post<S: Store>(&self, db: &DB<S>, r: Result<AtomicInteger>) -> bool {
        let n = self.title();
        let m = db.names();
        &&& db.is_shut() ==> r == Err::<AtomicInteger, DbError>(DbError::StoreClosed)
        &&& !db.is_shut() && !is_a(m, n, "AtomicInteger"@) ==> (r matches Err(e) && e is WrongConfiguration)
        &&& !db.is_shut() && is_a(m, n, "AtomicInteger"@) ==> match number_at(
            m,
            field_key(n, "recid"@),
            u64::MAX as nat,
        ) {
            Some(x) => if x > 0 {
                r matches Ok(o) && o.at() == x
            } else {
                r matches Err(e) && is_corrupt(e, "recid must be non-zero"@)
            },
            None => r matches Err(e) && e is DataCorruption,
        }
    }

    /// Creates the object; its name must be free.
    pub fn create<S: Store>(self, db: &mut DB<S>) -> (r: Result<AtomicInteger>)
        requires
            old(db).wf(),
        ensures
            self.create_post(old(db), final(db), r),
    {
        match db.check_free(self.name.as_str()) {
            Ok(_) => {},
            Err(e) => {
                return Err(e);
            },
        }
        proof {
            lemma_enc_dec(&INT, self.initial);
        }
        let recid: u64 = match put_item(db.store_mut(), &self.initial, &INT) {
            Ok(x) => x,
            Err(e) => {
                return Err(e);
            },
        };
        let mut staged = db.catalog().dup();
        register_atomic(&mut staged, self.name.as_str(), "AtomicInteger", recid);
        match db.publish(staged) {
            Ok(_) => Ok(AtomicInteger::new(recid)),
            Err(e) => Err(e),
        }
    }

    /// Opens the object.
    pub fn open<S: Store>(self, db: &DB<S>) -> (r: Result<AtomicInteger>)
        requires
            db.wf(),
        ensures
            self.open_post(db, r),
    {
        if db.is_closed() {
            return Err(DbError::StoreClosed);
        }
        match verify_type(db.catalog(), self.name.as_str(), "AtomicInteger") {
            Ok(_) => {},
            Err(e) => {
                return Err(e);
            },
        }
        match read_recid(db.catalog(), self.name.as_str(), "recid") {
            Ok(recid) => Ok(AtomicInteger::new(recid)),
            Err(e) => Err(e),
        }
    }

    /// Opens the object where there is one of its name, and creates it where there is
    /// none.
    pub fn create_or_open<S: Store>(self, db: &mut DB<S>) -> (r: Result<AtomicInteger>)
        requires
            old(db).wf(),
        ensures
            ({
                let n = self.title();
                let known = old(db).names().contains_key(field_key(n, "type"@));
                &&& valid_name(n) && known ==> *final(db) == *old(db) && self.open_post(old(db), r)
                &&& !(valid_name(n) && known) ==> self.create_post(old(db), final(db), r)
            }),
    {
        match validate_name(self.name.as_str()) {
            Ok(_) => {},
            Err(e) => {
                return Err(e);
            },
        }
        if db.catalog().contains_key(joined3(self.name.as_str(), "#", "type").as_str()) {
            self.open(db)
        } else {
            self.create(db)
        }
    }
}

/// Makes a truth value in a record of its own.
#[derive(Debug)]
pub struct AtomicBooleanMaker {
    name: String,
    initial: bool,
}

impl AtomicBooleanMaker {
    pub closed spec fn title(&self) -> Seq<char> {
        self.name@
    }

    /// The value that a new object starts with.
    pub closed spec fn first(&self) -> bool {
        self.initial
    }

    pub(super) fn begin(name: &str, initial: bool) -> (r: Self)
        ensures
            r.title() == name@,
            r.first() == initial,
    {
        AtomicBooleanMaker { name: String::from_str(name), initial }
    }

    /// What creating the object does.
    pub open spec fn create_post<S: Store>(
        &self,
        db: &DB<S>,
        after: &DB<S>,
        r: Result<AtomicBoolean>,
    ) -> bool {
        let n = self.title();
        &&& made(db, after, r)
        &&& after.state().room + 1 >= db.state().room
        &&& !db.free_name(n) ==> name_refused(db, after, n, r)
        &&& db.free_name(n) ==> turned_down(db.state(), after.state(), r)
        &&& db.free_name(n) && db.publishable() && db.state().room > 0 ==> r is Ok
        &&& r matches Ok(x) ==> {
            &&& db.free_name(n)
            &&& after.names() == with_atomic(db.names(), n, "AtomicBoolean"@, x.at())
            &&& one_record(db, after, x.at(), Some(BOOLEAN.enc(self.first())))
            &&& db.state().records.contains_key(RECID_CATALOG) ==> x.value(after.state().records)
                == Some(self.first())
        }
    }

    /// What opening the object answers.
    pub open spec fn open_post<S: Store>(&self, db: &DB<S>, r: Result<AtomicBoolean>) -> bool {
        let n = self.title();
        let m = db.names();
        &&& db.is_shut() ==> r == Err::<AtomicBoolean, DbError>(DbError::StoreClosed)
        &&& !db.is_shut() && !is_a(m, n, "AtomicBoolean"@) ==> (r matches Err(e) && e is WrongConfiguration)
        &&& !db.is_shut() && is_a(m, n, "AtomicBoolean"@) ==> match number_at(
            m,
            field_key(n, "recid"@),
            u64::MAX as nat,
        ) {
            Some(x) => if x > 0 {
                r matches Ok(o) && o.at() == x
            } else {
                r matches Err(e) && is_corrupt(e, "recid must be non-zero"@)
            },
            None => r matches Err(e) && e is DataCorruption,
        }
    }

    /// Creates the object; its name must be free.
    pub fn create<S: Store>(self, db: &mut DB<S>) -> (r: Result<AtomicBoolean>)
        requires
            old(db).wf(),
        ensures
            self.create_post(old(db), final(db), r),
    {
        match db.check_free(self.name.as_str()) {
            Ok(_) => {},
            Err(e) => {
                return Err(e);
            },
        }
        proof {
            lemma_enc_dec(&BOOLEAN, self.initial);
        }
        let recid: u64 = match put_item(db.store_mut(), &self.initial, &BOOLEAN) {
            Ok(x) => x,
            Err(e) => {
                return Err(e);
            },
        };
        let mut staged = db.catalog().dup();
        register_atomic(&mut staged, self.name.as_str(), "AtomicBoolean", recid);
        match db.publish(staged) {
            Ok(_) => Ok(AtomicBoolean::new(recid)),
            Err(e) => Err(e),
        }
    }

    /// Opens the object.
    pub fn open<S: Store>(self, db: &DB<S>) -> (r: Result<AtomicBoolean>)
        requires
            db.wf(),
        ensures
            self.open_post(db, r),
    {
        if db.is_closed() {
            return Err(DbError::StoreClosed);
        }
        match verify_type(db.catalog(), self.name.as_str(), "AtomicBoolean") {
            Ok(_) => {},
            Err(e) => {
                return Err(e);
            },
        }
        match read_recid(db.catalog(), self.name.as_str(), "recid") {
            Ok(recid) => Ok(AtomicBoolean::new(recid)),
            Err(e) => Err(e),
        }
    }

    /// Opens the object where there is one of its name, and creates it where there is
    /// none.
    pub fn create_or_open<S: Store>(self, db: &mut DB<S>) -> (r: Result<AtomicBoolean>)
        requires
            old(db).wf(),
        ensures
            ({
                let n = self.title();
                let known = old(db).names().contains_key(field_key(n, "type"@));
                &&& valid_name(n) && known ==> *final(db) == *old(db) && self.open_post(old(db), r)
                &&& !(valid_name(n) && known) ==> self.create_post(old(db), final(db), r)
            }),
    {
        match validate_name(self.name.as_str()) {
            Ok(_) => {},
            Err(e) => {
                return Err(e);
            },
        }
        if db.catalog().contains_key(joined3(self.name.as_str(), "#", "type").as_str()) {
            self.open(db)
        } else {
            self.create(db)
        }
    }
}

/// Makes a string that may be null in a record of its own.
#[derive(Debug)]
pub struct AtomicStringMaker {
    name: String,
    initial: NullableString,
}

impl AtomicStringMaker {
    pub closed spec fn title(&self) -> Seq<char> {
        self.name@
    }

    /// The value that a new object starts with.
    pub closed spec fn first(&self) -> NullableString {
        self.initial
    }

    pub(super) fn begin(name: &str, initial: NullableString) -> (r: Self)
        ensures
            r.title() == name@,
            r.first() == initial,
    {
        AtomicStringMaker { name: String::from_str(name), initial }
    }

    /// What creating the object does.
    pub open spec fn create_post<S: Store>(
        &self,
        db: &DB<S>,
        after: &DB<S>,
        r: Result<AtomicString>,
    ) -> bool {
        let n = self.title();
        &&& made(db, after, r)
        &&& after.state().room + 1 >= db.state().room
        &&& !db.free_name(n) ==> name_refused(db, after, n, r)
        &&& db.free_name(n) ==> turned_down(db.state(), after.state(), r)
        &&& db.free_name(n) && db.publishable() && db.state().room > 0 ==> r is Ok
        &&& r matches Ok(x) ==> {
            &&& db.free_name(n)
            &&& after.names() == with_atomic(db.names(), n, "AtomicString"@, x.at())
            &&& one_record(db, after, x.at(), Some(STRING_NULLABLE.enc(self.first()@)))
            &&& db.state().records.contains_key(RECID_CATALOG) ==> x.value(after.state().records)
                == Some(self.first()@)
        }
    }

    /// What opening the object answers.
    pub open spec fn open_post<S: Store>(&self, db: &DB<S>, r: Result<AtomicString>) -> bool {
        let n = self.title();
        let m = db.names();
        &&& db.is_shut() ==> r == Err::<AtomicString, DbError>(DbError::StoreClosed)
        &&& !db.is_shut() && !is_a(m, n, "AtomicString"@) ==> (r matches Err(e) && e is WrongConfiguration)
        &&& !db.is_shut() && is_a(m, n, "AtomicString"@) ==> match number_at(
            m,
            field_key(n, "recid"@),
            u64::MAX as nat,
        ) {
            Some(x) => if x > 0 {
                r matches Ok(o) && o.at() == x
            } else {
                r matches Err(e) && is_corrupt(e, "recid must be non-zero"@)
            },
            None => r matches Err(e) && e is DataCorruption,
        }
    }

    /// Creates the object; its name must be free.
    pub fn create<S: Store>(self, db: &mut DB<S>) -> (r: Result<AtomicString>)
        requires
            old(db).wf(),
            STRING_NULLABLE.fits(self.first()@),
        ensures
            self.create_post(old(db), final(db), r),
    {
        match db.check_free(self.name.as_str()) {
            Ok(_) => {},
            Err(e) => {
                return Err(e);
            },
        }
        proof {
            lemma_enc_dec(&STRING_NULLABLE, self.initial@);
        }
        let recid: u64 = match put_item(db.store_mut(), &self.initial, &STRING_NULLABLE) {
            Ok(x) => x,
            Err(e) => {
                return Err(e);
            },
        };
        let mut staged = db.catalog().dup();
        register_atomic(&mut staged, self.name.as_str(), "AtomicString", recid);
        match db.publish(staged) {
            Ok(_) => Ok(AtomicString::new(recid)),
            Err(e) => Err(e),
        }
    }

    /// Opens the object.
    pub fn open<S: Store>(self, db: &DB<S>) -> (r: Result<AtomicString>)
        requires
            db.wf(),
        ensures
            self.open_post(db, r),
    {
        if db.is_closed() {
            return Err(DbError::StoreClosed);
        }
        match verify_type(db.catalog(), self.name.as_str(), "AtomicString") {
            Ok(_) => {},
            Err(e) => {
                return Err(e);
            },
        }
        match read_recid(db.catalog(), self.name.as_str(), "recid") {
            Ok(recid) => Ok(AtomicString::new(recid)),
            Err(e) => Err(e),
        }
    }

    /// Opens the object where there is one of its name, and creates it where there is
    /// none.
    pub fn create_or_open<S: Store>(self, db: &mut DB<S>) -> (r: Result<AtomicString>)
        requires
            old(db).wf(),
            STRING_NULLABLE.fits(self.first()@),
        ensures
            ({
                let n = self.title();
                let known = old(db).names().contains_key(field_key(n, "type"@));
                &&& valid_name(n) && known ==> *final(db) == *old(db) && self.open_post(old(db), r)
                &&& !(valid_name(n) && known) ==> self.create_post(old(db), final(db), r)
            }),
    {
        match validate_name(self.name.as_str()) {
            Ok(_) => {},
            Err(e) => {
                return Err(e);
            },
        }
        if db.catalog().contains_key(joined3(self.name.as_str(), "#", "type").as_str()) {
            self.open(db)
        } else {
            self.create(db)
        }
    }
}

/// The codec in hand is the one that the catalog names.
pub open spec fn codec_fits(stored: Seq<char>, supplied: Option<Seq<char>>) -> bool {
    verified(stored, supplied, true, Ok(()))
}

/// The codec in hand is not the one that the catalog names: a configuration error where
/// the stored name makes sense, and corruption where it does not.
pub open spec fn codec_refused<T>(valid: bool, r: Result<T>) -> bool {
    &&& valid ==> (r matches Err(e) && e is WrongConfiguration)
    &&& !valid ==> (r matches Err(e) && e is DataCorruption)
}

/// What holding an element codec against an entry of the catalog comes to; `None` where
/// it fits.
pub open spec fn element_codec_checked<T>(
    m: Names,
    n: Seq<char>,
    supplied: Option<Seq<char>>,
    missing: Seq<char>,
    r: Result<T>,
) -> bool {
    let k = field_key(n, "serializer"@);
    &&& !m.contains_key(k) ==> (r matches Err(e) && is_corrupt(e, missing))
    &&& m.contains_key(k) && !codec_fits(m[k], supplied) ==> codec_refused(valid_ser(m[k]), r)
}

/// The catalog names this element codec.
pub open spec fn element_codec_is(m: Names, n: Seq<char>, supplied: Option<Seq<char>>) -> bool {
    let k = field_key(n, "serializer"@);
    m.contains_key(k) && codec_fits(m[k], supplied)
}

fn check_element_codec<Se: SerDescriptor>(
    cat: &NameCatalog,
    name: &str,
    ser: &Se,
    missing: &'static str,
) -> (r: Result<()>)
    requires
        cat.wf(),
    ensures
        element_codec_is(cat@, name@, ser.ser_name()) ==> r is Ok,
        !element_codec_is(cat@, name@, ser.ser_name()) ==> r is Err && element_codec_checked(
            cat@,
            name@,
            ser.ser_name(),
            missing@,
            r,
        ),
{
    match cat.get(joined3(name, "#", "serializer").as_str()) {
        None => Err(DbError::corrupt(missing)),
        Some(d) => verify_ser(d.as_str(), ser),
    }
}

fn check_group_codec<F: GroupDescriptor>(
    cat: &NameCatalog,
    name: &str,
    field: &str,
    format: &F,
    missing: &'static str,
) -> (r: Result<()>)
    requires
        cat.wf(),
    ensures
        group_codec_is(cat@, name@, field@, format.group_name()) ==> r is Ok,
        !group_codec_is(cat@, name@, field@, format.group_name()) ==> r is Err
            && group_codec_checked(cat@, name@, field@, format.group_name(), missing@, r),
{
    match cat.get(joined3(name, "#", field).as_str()) {
        None => Err(DbError::corrupt(missing)),
        Some(d) => verify_group(d.as_str(), format),
    }
}

/// The catalog names this group format.
pub open spec fn group_codec_is(
    m: Names,
    n: Seq<char>,
    field: Seq<char>,
    supplied: Option<Seq<char>>,
) -> bool {
    let k = field_key(n, field);
    m.contains_key(k) && codec_fits(m[k], supplied)
}

/// What holding a group format against an entry of the catalog comes to.
pub open spec fn group_codec_checked<T>(
    m: Names,
    n: Seq<char>,
    field: Seq<char>,
    supplied: Option<Seq<char>>,
    missing: Seq<char>,
    r: Result<T>,
) -> bool {
    let k = field_key(n, field);
    &&& !m.contains_key(k) ==> (r matches Err(e) && is_corrupt(e, missing))
    &&& m.contains_key(k) && !codec_fits(m[k], supplied) ==> codec_refused(valid_group(m[k]), r)
}

/// Makes a value with a codec of its own in a record of its own.
pub struct AtomicVarMaker<Se: Serializer> {
    name: String,
    serializer: Se,
    initial: Option<Se::Item>,
}

impl<Se: Serializer + SerDescriptor> AtomicVarMaker<Se> {
    pub closed spec fn title(&self) -> Seq<char> {
        self.name@
    }

    pub closed spec fn codec(&self) -> Se {
        self.serializer
    }

    /// The value that a new object starts with.
    pub closed spec fn first(&self) -> Option<Se::Item> {
        self.initial
    }

    pub(super) fn begin(name: &str, serializer: Se, initial: Option<Se::Item>) -> (r: Self)
        ensures
            r.title() == name@,
            r.codec() == serializer,
            r.first() == initial,
    {
        AtomicVarMaker { name: String::from_str(name), serializer, initial }
    }

    /// The content of the record of a new object.
    pub open spec fn content(&self) -> Option<Seq<u8>> {
        match self.first() {
            Some(v) => Some(self.codec().enc(v@)),
            None => None,
        }
    }

    /// What creating the object does.
    pub open spec fn create_post<S: Store>(
        &self,
        db: &DB<S>,
        after: &DB<S>,
        r: Result<AtomicVar<Se>>,
    ) -> bool {
        let n = self.title();
        &&& made(db, after, r)
        &&& after.state().room + 1 >= db.state().room
        &&& !db.free_name(n) ==> name_refused(db, after, n, r)
        &&& db.free_name(n) ==> turned_down(db.state(), after.state(), r)
        &&& db.free_name(n) && db.publishable() && db.state().room > 0 ==> r is Ok
        &&& r matches Ok(x) ==> {
            &&& db.free_name(n)
            &&& x.ser() == self.codec()
            &&& after.names() == with_coded(
                db.names(),
                n,
                "AtomicVar"@,
                "recid"@,
                x.at(),
                name_or_custom(self.codec().ser_name()),
            )
            &&& one_record(db, after, x.at(), self.content())
            &&& db.state().records.contains_key(RECID_CATALOG) ==> x.value(after.state().records)
                == Some(opt_model(self.first()))
        }
    }

    /// What opening the object answers.
    pub open spec fn open_post<S: Store>(&self, db: &DB<S>, r: Result<AtomicVar<Se>>) -> bool {
        let n = self.title();
        let m = db.names();
        let ours = is_a(m, n, "AtomicVar"@);
        let named = element_codec_is(m, n, self.codec().ser_name());
        &&& db.is_shut() ==> r == Err::<AtomicVar<Se>, DbError>(DbError::StoreClosed)
        &&& !db.is_shut() && !ours ==> (r matches Err(e) && e is WrongConfiguration)
        &&& !db.is_shut() && ours && !named ==> r is Err && element_codec_checked(
            m,
            n,
            self.codec().ser_name(),
            "catalog missing AtomicVar serializer"@,
            r,
        )
        &&& !db.is_shut() && ours && named ==> match number_at(
            m,
            field_key(n, "recid"@),
            u64::MAX as nat,
        ) {
            Some(x) => if x > 0 {
                r matches Ok(o) && o.at() == x && o.ser() == self.codec()
            } else {
                r matches Err(e) && is_corrupt(e, "recid must be non-zero"@)
            },
            None => r matches Err(e) && e is DataCorruption,
        }
    }

    /// Creates the object; its name must be free.
    pub fn create<S: Store>(self, db: &mut DB<S>) -> (r: Result<AtomicVar<Se>>)
        requires
            old(db).wf(),
            self.first() matches Some(v) ==> self.codec().fits(v@),
        ensures
            self.create_post(old(db), final(db), r),
    {
        match db.check_free(self.name.as_str()) {
            Ok(_) => {},
            Err(e) => {
                return Err(e);
            },
        }
        proof {
            if self.initial is Some {
                lemma_enc_dec(&self.serializer, self.initial.unwrap()@);
            }
        }
        let made = match &self.initial {
            Some(v) => put_item(db.store_mut(), v, &self.serializer),
            None => db.store_mut().preallocate(),
        };
        let recid: u64 = match made {
            Ok(x) => x,
            Err(e) => {
                return Err(e);
            },
        };
        let mut staged = db.catalog().dup();
        register_coded(
            &mut staged,
            self.name.as_str(),
            "AtomicVar",
            "recid",
            recid,
            ser_descriptor_or_custom(&self.serializer),
        );
        match db.publish(staged) {
            Ok(_) => Ok(AtomicVar::new(recid, self.serializer)),
            Err(e) => Err(e),
        }
    }

    /// Opens the object.
    pub fn open<S: Store>(self, db: &DB<S>) -> (r: Result<AtomicVar<Se>>)
        requires
            db.wf(),
        ensures
            self.open_post(db, r),
    {
        if db.is_closed() {
            return Err(DbError::StoreClosed);
        }
        match verify_type(db.catalog(), self.name.as_str(), "AtomicVar") {
            Ok(_) => {},
            Err(e) => {
                return Err(e);
            },
        }
        match check_element_codec(
            db.catalog(),
            self.name.as_str(),
            &self.serializer,
            "catalog missing AtomicVar serializer",
        ) {
            Ok(_) => {},
            Err(e) => {
                return Err(e);
            },
        }
        match read_recid(db.catalog(), self.name.as_str(), "recid") {
            Ok(recid) => Ok(AtomicVar::new(recid, self.serializer)),
            Err(e) => Err(e),
        }
    }

    /// Opens the object where there is one of its name, and creates it where there is
    /// none.
    pub fn create_or_open<S: Store>(self, db: &mut DB<S>) -> (r: Result<AtomicVar<Se>>)
        requires
            old(db).wf(),
            self.first() matches Some(v) ==> self.codec().fits(v@),
        ensures
            ({
                let n = self.title();
                let known = old(db).names().contains_key(field_key(n, "type"@));
                &&& valid_name(n) && known ==> *final(db) == *old(db) && self.open_post(old(db), r)
                &&& !(valid_name(n) && known) ==> self.create_post(old(db), final(db), r)
            }),
    {
        match validate_name(self.name.as_str()) {
            Ok(_) => {},
            Err(e) => {
                return Err(e);
            },
        }
        if db.catalog().contains_key(joined3(self.name.as_str(), "#", "type").as_str()) {
            self.open(db)
        } else {
            self.create(db)
        }
    }
}

/// The catalog type of a queue of a mode.
pub open spec fn queue_type_of(mode: Mode) -> Seq<char> {
    match mode {
        Mode::Fifo => "Queue"@,
        Mode::Lifo => "Stack"@,
        Mode::Circular => "CircularQueue"@,
    }
}

fn queue_type_name(mode: Mode) -> (r: &'static str)
    ensures
        r@ == queue_type_of(mode),
{
    match mode {
        Mode::Fifo => "Queue",
        Mode::Lifo => "Stack",
        Mode::Circular => "CircularQueue",
    }
}

/// Makes a queue, a stack or a circular queue.
pub struct QueueMaker<Se: Serializer> {
    name: String,
    serializer: Se,
    mode: Mode,
    capacity: u64,
}

impl<Se: Serializer + SerDescriptor> QueueMaker<Se> {
    pub closed spec fn title(&self) -> Seq<char> {
        self.name@
    }

    pub closed spec fn codec(&self) -> Se {
        self.serializer
    }

    pub closed spec fn order(&self) -> Mode {
        self.mode
    }

    pub closed spec fn limit(&self) -> u64 {
        self.capacity
    }

    pub(super) fn begin(name: &str, serializer: Se, mode: Mode, capacity: u64) -> (r: Self)
        ensures
            r.title() == name@,
            r.codec() == serializer,
            r.order() == mode,
            r.limit() == capacity,
    {
        QueueMaker { name: String::from_str(name), serializer, mode, capacity }
    }

    /// What creating the queue does.
    pub open spec fn create_post<S: Store>(
        &self,
        db: &DB<S>,
        after: &DB<S>,
        r: Result<PersistentBlockingQueue<Se>>,
    ) -> bool {
        let n = self.title();
        let usable = self.order() != Mode::Circular || 0 < self.limit() <= UNBOUNDED;
        let b = after.state().records;
        &&& made(db, after, r)
        &&& after.state().room + 1 >= db.state().room
        &&& !db.free_name(n) ==> name_refused(db, after, n, r)
        &&& db.free_name(n) && !usable ==> after.state() == db.state() && (r matches Err(e)
            && is_corrupt(e, "blocking queue: capacity must be in 1..=i64::MAX"@))
        &&& db.free_name(n) && usable ==> turned_down(db.state(), after.state(), r)
        &&& db.free_name(n) && usable && db.publishable() && db.state().room > 0 ==> r is Ok
        &&& r matches Ok(q) ==> {
            &&& db.free_name(n)
            &&& !q.is_shut()
            &&& q.ser() == self.codec()
            &&& registered(
                db,
                after,
                with_coded(
                    db.names(),
                    n,
                    queue_type_of(self.order()),
                    "headerRecid"@,
                    q.header_id(),
                    name_or_custom(self.codec().ser_name()),
                ),
            )
            &&& db.state().records.contains_key(RECID_CATALOG) ==> {
                &&& q.wf(b)
                &&& q.elements(b) == Seq::<Model<Se>>::empty()
                &&& q.header_of(b).mode == mode_number(self.order())
                &&& q.header_of(b).capacity == if self.order() == Mode::Circular {
                    self.limit()
                } else {
                    UNBOUNDED
                }
                &&& forall|x: u64| #[trigger]
                    db.state().records.contains_key(x) ==> !q.owned(b).contains(x)
            }
        }
    }

    /// What opening the queue answers.
    pub open spec fn open_post<S: Store>(
        &self,
        db: &DB<S>,
        r: Result<PersistentBlockingQueue<Se>>,
    ) -> bool {
        let n = self.title();
        let m = db.names();
        let ours = is_a(m, n, queue_type_of(self.order()));
        let named = element_codec_is(m, n, self.codec().ser_name());
        let at = number_at(m, field_key(n, "headerRecid"@), u64::MAX as nat);
        let st = db.state();
        &&& db.is_shut() ==> r == Err::<PersistentBlockingQueue<Se>, DbError>(DbError::StoreClosed)
        &&& !db.is_shut() && !ours ==> (r matches Err(e) && e is WrongConfiguration)
        &&& !db.is_shut() && ours && !named ==> r is Err && element_codec_checked(
            m,
            n,
            self.codec().ser_name(),
            "catalog missing queue serializer"@,
            r,
        )
        &&& !db.is_shut() && ours && named && !(at matches Some(x) && x > 0) ==> (r matches Err(e)
            && e is DataCorruption)
        &&& !db.is_shut() && ours && named && st.readable ==> (at matches Some(x) ==> (header_at(
            st.records,
            x as u64,
        ) matches Some(h) ==> (x > 0 ==> if 0 <= h.mode <= 2 && 0 < h.capacity <= UNBOUNDED
            && h.size
            <= h.capacity && h.mode == mode_number(self.order()) {
            r is Ok
        } else {
            r matches Err(e) && e is DataCorruption
        })))
        &&& r matches Ok(q) ==> {
            &&& ours && named && at == Some(q.header_id() as nat)
            &&& !q.is_shut()
            &&& q.ser() == self.codec()
            &&& header_at(st.records, q.header_id()) matches Some(h) && h.mode == mode_number(
                self.order(),
            )
        }
    }

    /// Creates the queue; its name must be free.
    pub fn create<S: Store>(self, db: &mut DB<S>) -> (r: Result<PersistentBlockingQueue<Se>>)
        requires
            old(db).wf(),
        ensures
            self.create_post(old(db), final(db), r),
    {
        match db.check_free(self.name.as_str()) {
            Ok(_) => {},
            Err(e) => {
                return Err(e);
            },
        }
        let ghost a = db.state();
        let codec = ser_descriptor_or_custom(&self.serializer);
        let queue = match PersistentBlockingQueue::create(
            db.store_mut(),
            self.serializer,
            self.mode,
            self.capacity,
        ) {
            Ok(q) => q,
            Err(e) => {
                return Err(e);
            },
        };
        let ghost b = db.state();
        let mut staged = db.catalog().dup();
        register_coded(
            &mut staged,
            self.name.as_str(),
            queue_type_name(self.mode),
            "headerRecid",
            queue.header_recid(),
            codec,
        );
        match db.publish(staged) {
            Ok(_) => {
                proof {
                    if a.records.contains_key(RECID_CATALOG) {
                        lemma_queue_published(&queue, b, db.state(), db.names());
                    }
                }
                Ok(queue)
            },
            Err(e) => Err(e),
        }
    }

    /// Opens the queue.
    pub fn open<S: Store>(self, db: &DB<S>) -> (r: Result<PersistentBlockingQueue<Se>>)
        requires
            db.wf(),
        ensures
            self.open_post(db, r),
    {
        if db.is_closed() {
            return Err(DbError::StoreClosed);
        }
        let ty = queue_type_name(self.mode);
        match verify_type(db.catalog(), self.name.as_str(), ty) {
            Ok(_) => {},
            Err(e) => {
                return Err(e);
            },
        }
        match check_element_codec(
            db.catalog(),
            self.name.as_str(),
            &self.serializer,
            "catalog missing queue serializer",
        ) {
            Ok(_) => {},
            Err(e) => {
                return Err(e);
            },
        }
        let header: u64 = match read_recid(db.catalog(), self.name.as_str(), "headerRecid") {
            Ok(x) => x,
            Err(e) => {
                return Err(e);
            },
        };
        let queue = match PersistentBlockingQueue::open(db.store(), header, self.serializer) {
            Ok(q) => q,
            Err(e) => {
                return Err(e);
            },
        };
        match queue.mode(db.store()) {
            Ok(m) => {
                if m != self.mode {
                    let mut text = joined3(
                        "queue '",
                        self.name.as_str(),
                        "' header mode does not match its catalog #type ",
                    );
                    text.append(ty);
                    return Err(DbError::corrupt_msg(text));
                }
            },
            Err(e) => {
                return Err(e);
            },
        }
        Ok(queue)
    }

    /// Opens the queue where there is an object of its name, and creates it where there
    /// is none.
    pub fn create_or_open<S: Store>(
        self,
        db: &mut DB<S>,
    ) -> (r: Result<PersistentBlockingQueue<Se>>)
        requires
            old(db).wf(),
        ensures
            ({
                let n = self.title();
                let known = old(db).names().contains_key(field_key(n, "type"@));
                &&& valid_name(n) && known ==> *final(db) == *old(db) && self.open_post(old(db), r)
                &&& !(valid_name(n) && known) ==> self.create_post(old(db), final(db), r)
            }),
    {
        match validate_name(self.name.as_str()) {
            Ok(_) => {},
            Err(e) => {
                return Err(e);
            },
        }
        if db.catalog().contains_key(joined3(self.name.as_str(), "#", "type").as_str()) {
            self.open(db)
        } else {
            self.create(db)
        }
    }
}

/// Writing the catalog leaves a queue as it is.
pub(super) proof fn lemma_queue_published<Se: Serializer>(
    q: &PersistentBlockingQueue<Se>,
    b: StoreState,
    c: StoreState,
    m: Names,
)
    requires
        q.wf(b.records),
        c.records == b.records.insert(RECID_CATALOG, Some(catalog_bytes(m))),
        !q.owned(b.records).contains(RECID_CATALOG),
    ensures
        q.wf(c.records),
        q.elements(c.records) == q.elements(b.records),
        q.header_of(c.records) == q.header_of(b.records),
        q.owned(c.records) == q.owned(b.records),
{
    let o = q.owned(b.records);
    let ch = q.chain(b.records);
    assert forall|x: u64| #[trigger] o.contains(x) implies c.records.contains_key(x) && c.records[x]
        == b.records[x] by {
        if x != q.header_id() {
            let i = choose|i: int| 0 <= i < ch.len() && ch[i] == x;
            assert(crate::queue::blocking::place_ok(&q.ser(), b.records, ch, i));
        }
    }
    q.law_untouched(b.records, c.records);
}

/// Makes a sorted map.
pub struct TreeMapMaker<KF: KeyFormat, VF: Serializer> {
    name: String,
    key_format: KF,
    value_format: VF,
    max_node_size: usize,
    counter_enable: bool,
    values_outside: bool,
}

impl<KF: KeyFormat, VF: Serializer> TreeMapMaker<KF, VF> {
    pub closed spec fn title(&self) -> Seq<char> {
        self.name@
    }

    pub closed spec fn kf(&self) -> KF {
        self.key_format
    }

    pub closed spec fn vf(&self) -> VF {
        self.value_format
    }

    pub closed spec fn node_size(&self) -> usize {
        self.max_node_size
    }

    pub closed spec fn counted(&self) -> bool {
        self.counter_enable
    }

    pub closed spec fn outside(&self) -> bool {
        self.values_outside
    }

    pub(super) fn begin(name: &str, key_format: KF, value_format: VF) -> (r: Self)
        ensures
            r.title() == name@,
            r.kf() == key_format,
            r.vf() == value_format,
            r.node_size() == 32,
            !r.counted(),
            !r.outside(),
    {
        TreeMapMaker {
            name: String::from_str(name),
            key_format,
            value_format,
            max_node_size: 32,
            counter_enable: false,
            values_outside: false,
        }
    }

    /// Sets the largest number of entries in a node.
    pub fn max_node_size(self, n: usize) -> (r: Self)
        ensures
            r.title() == self.title(),
            r.kf() == self.kf(),
            r.vf() == self.vf(),
            r.node_size() == n,
            r.counted() == self.counted(),
            r.outside() == self.outside(),
    {
        let mut r = self;
        r.max_node_size = n;
        r
    }

    /// Keeps the size in a record of its own.
    pub fn counter_enable(self) -> (r: Self)
        ensures
            r.title() == self.title(),
            r.kf() == self.kf(),
            r.vf() == self.vf(),
            r.node_size() == self.node_size(),
            r.counted(),
            r.outside() == self.outside(),
    {
        let mut r = self;
        r.counter_enable = true;
        r
    }

    /// Keeps every value in a record of its own.
    pub fn values_outside_nodes_enable(self) -> (r: Self)
        ensures
            r.title() == self.title(),
            r.kf() == self.kf(),
            r.vf() == self.vf(),
            r.node_size() == self.node_size(),
            r.counted() == self.counted(),
            r.outside(),
    {
        let mut r = self;
        r.values_outside = true;
        r
    }
}

/// Where a map stands.
pub open spec fn config_of<KF: KeyFormat, VF: Serializer>(map: &BTreeMap<KF, VF>) -> TreeConfig {
    TreeConfig {
        root: map.pointer(),
        node_size: map.node_size(),
        counter: map.counter(),
        inline: map.inline(),
    }
}

fn read_config<KF: KeyFormat, VF: Serializer>(map: &BTreeMap<KF, VF>) -> (r: TreeConfig)
    ensures
        r == config_of(map),
{
    TreeConfig {
        root: map.root_recid_recid(),
        node_size: map.max_node_size(),
        counter: map.counter_recid(),
        inline: map.value_inline(),
    }
}

/// A new tree stands in records of its own beside those that were there.
pub open spec fn stands_apart<S: Store, KF: KeyFormat, VF: Serializer>(
    db: &DB<S>,
    after: &DB<S>,
    map: &BTreeMap<KF, VF>,
) -> bool {
    &&& map.wf(after.state().records)
    &&& forall|x: u64| #[trigger] db.state().records.contains_key(x) ==> !map.owned().contains(x)
}

impl<KF: KeyFormat + GroupDescriptor, VF: Serializer + GroupDescriptor> TreeMapMaker<KF, VF> {
    /// The catalog with the entries of a new map.
    pub open spec fn named(&self, m: Names, map: &BTreeMap<KF, VF>) -> Names {
        with_map(
            m,
            self.title(),
            name_or_custom(self.kf().group_name()),
            name_or_custom(self.vf().group_name()),
            config_of(map),
        )
    }

    /// The map has the shape that was asked for.
    pub open spec fn shaped(&self, map: &BTreeMap<KF, VF>) -> bool {
        &&& map.kf() == self.kf()
        &&& map.vf() == self.vf()
        &&& map.node_size() == self.node_size()
        &&& (map.counter() != 0) == self.counted()
        &&& map.inline() == !self.outside()
    }

    /// What creating the map does.
    pub open spec fn create_post<S: Store>(
        &self,
        db: &DB<S>,
        after: &DB<S>,
        r: Result<BTreeMap<KF, VF>>,
    ) -> bool {
        let n = self.title();
        let sized = 4 <= self.node_size() <= 1048576;
        &&& made(db, after, r)
        &&& after.state().room + 3 >= db.state().room
        &&& !db.free_name(n) ==> name_refused(db, after, n, r)
        &&& db.free_name(n) && !sized ==> after.state() == db.state() && (r matches Err(e)
            && e is WrongConfiguration)
        &&& r matches Ok(map) ==> db.free_name(n) && self.shaped(&map) && after.names()
            == self.named(db.names(), &map)
        &&& db.free_name(n) && sized ==> turned_down(db.state(), after.state(), r)
        &&& db.free_name(n) && sized && db.publishable() && db.state().room >= 3
            ==> (r matches Ok(map)
            && {
            &&& registered(db, after, self.named(db.names(), &map))
            &&& stands_apart(db, after, &map)
            &&& map.contents(after.state().records) == Map::<Model<KF>, Model<VF>>::empty()
            &&& map.height() == 1
        })
    }

    /// What opening the map answers.
    pub open spec fn open_post<S: Store>(&self, db: &DB<S>, r: Result<BTreeMap<KF, VF>>) -> bool {
        let n = self.title();
        let m = db.names();
        let ours = !db.is_shut() && is_a(m, n, "TreeMap"@);
        let keys = group_codec_is(m, n, "keySerializer"@, self.kf().group_name());
        let values = group_codec_is(m, n, "valueSerializer"@, self.vf().group_name());
        &&& db.is_shut() ==> r == Err::<BTreeMap<KF, VF>, DbError>(DbError::StoreClosed)
        &&& !db.is_shut() && !ours ==> (r matches Err(e) && e is WrongConfiguration)
        &&& ours && !keys ==> r is Err && group_codec_checked(
            m,
            n,
            "keySerializer"@,
            self.kf().group_name(),
            "catalog missing keySerializer"@,
            r,
        )
        &&& ours && keys && !values ==> r is Err && group_codec_checked(
            m,
            n,
            "valueSerializer"@,
            self.vf().group_name(),
            "catalog missing valueSerializer"@,
            r,
        )
        &&& ours && keys && values ==> match tree_config(m, n, inline_of(m, n)) {
            Some(c) => BTreeMap::open_post(
                db.state(),
                c.root,
                self.kf(),
                self.vf(),
                c.node_size,
                c.counter,
                c.inline,
                r,
            ),
            None => r matches Err(e) && e is DataCorruption,
        }
    }

    /// Creates an empty map; its name must be free.
    pub fn create<S: Store>(self, db: &mut DB<S>) -> (r: Result<BTreeMap<KF, VF>>)
        requires
            old(db).wf(),
        ensures
            self.create_post(old(db), final(db), r),
    {
        match db.check_free(self.name.as_str()) {
            Ok(_) => {},
            Err(e) => {
                return Err(e);
            },
        }
        let keys = group_descriptor_or_custom(&self.key_format);
        let values = group_descriptor_or_custom(&self.value_format);
        let ghost a = db.state();
        let made = if self.values_outside {
            BTreeMap::create_external_values(
                db.store_mut(),
                self.key_format,
                self.value_format,
                self.max_node_size,
                self.counter_enable,
            )
        } else {
            BTreeMap::create_with_counter(
                db.store_mut(),
                self.key_format,
                self.value_format,
                self.max_node_size,
                self.counter_enable,
            )
        };
        let map = match made {
            Ok(m) => m,
            Err(e) => {
                return Err(e);
            },
        };
        let ghost b = db.state();
        let mut staged = db.catalog().dup();
        register_map(&mut staged, self.name.as_str(), keys, values, read_config(&map));
        match db.publish(staged) {
            Ok(_) => {
                proof {
                    if a.records.contains_key(RECID_CATALOG) && a.readable && a.writable
                        && a.room >= 3 {
                        lemma_tree_published(&map, a, b, db.state(), db.names());
                    }
                }
                Ok(map)
            },
            Err(e) => Err(e),
        }
    }

    /// Opens the map.
    pub fn open<S: Store>(self, db: &DB<S>) -> (r: Result<BTreeMap<KF, VF>>)
        requires
            db.wf(),
        ensures
            self.open_post(db, r),
    {
        if db.is_closed() {
            return Err(DbError::StoreClosed);
        }
        match verify_type(db.catalog(), self.name.as_str(), "TreeMap") {
            Ok(_) => {},
            Err(e) => {
                return Err(e);
            },
        }
        match check_group_codec(
            db.catalog(),
            self.name.as_str(),
            "keySerializer",
            &self.key_format,
            "catalog missing keySerializer",
        ) {
            Ok(_) => {},
            Err(e) => {
                return Err(e);
            },
        }
        match check_group_codec(
            db.catalog(),
            self.name.as_str(),
            "valueSerializer",
            &self.value_format,
            "catalog missing valueSerializer",
        ) {
            Ok(_) => {},
            Err(e) => {
                return Err(e);
            },
        }
        let c = match read_tree_config(db.catalog(), self.name.as_str(), None) {
            Ok(x) => x,
            Err(e) => {
                return Err(e);
            },
        };
        if c.inline {
            BTreeMap::open_with_counter(
                db.store(),
                c.root,
                self.key_format,
                self.value_format,
                c.node_size,
                c.counter,
            )
        } else {
            BTreeMap::open_external_values(
                db.store(),
                c.root,
                self.key_format,
                self.value_format,
                c.node_size,
                c.counter,
            )
        }
    }

    /// Opens the map where there is an object of its name, and creates it where there is
    /// none.
    pub fn create_or_open<S: Store>(self, db: &mut DB<S>) -> (r: Result<BTreeMap<KF, VF>>)
        requires
            old(db).wf(),
        ensures
            ({
                let known = old(db).names().contains_key(field_key(self.title(), "type"@));
                &&& old(db).is_shut() || known ==> *final(db) == *old(db)
                    && self.open_post(old(db), r)
                &&& !old(db).is_shut() && !known ==> self.create_post(old(db), final(db), r)
            }),
    {
        if db.is_closed() || db.catalog().contains_key(
            joined3(self.name.as_str(), "#", "type").as_str(),
        ) {
            self.open(db)
        } else {
            self.create(db)
        }
    }

    /// Creates a map from entries that ascend strictly by their keys.
    pub fn create_from<S: Store>(self, db: &mut DB<S>, entries: Vec<(KF::Item, VF::Item)>) -> (r:
        Result<BTreeMap<KF, VF>>)
        requires
            old(db).wf(),
            forall|i: int|
                #![trigger entries@[i]]
                0 <= i < entries@.len() ==> self.kf().fits(entries@[i].0@) && self.vf().fits(
                    entries@[i].1@,
                ),
        ensures
            ({
                let n = self.title();
                let a = old(db).state();
                let b = final(db).state();
                let e = entry_models(entries@);
                let sized = 4 <= self.node_size() <= 1048576;
                let enough = old(db).publishable() && a.room >= bulk_room(e.len())
                    && e.len() < i64::MAX;
                &&& made(old(db), final(db), r)
                &&& !valid_name(n) ==> name_refused(old(db), final(db), n, r)
                &&& valid_name(n) && self.outside() ==> *final(db) == *old(db) && (r matches Err(x)
                    && x is Unsupported)
                &&& valid_name(n) && !self.outside() && !old(db).free_name(n) ==> name_refused(
                    old(db),
                    final(db),
                    n,
                    r,
                )
                &&& !self.outside() && old(db).free_name(n) && !sized ==> b == a
                    && (r matches Err(x)
                    && x is WrongConfiguration)
                &&& !self.outside() && old(db).free_name(n) && sized && !ascending(&self.kf(), e)
                    ==> r is Err
                &&& !self.outside() && old(db).free_name(n) && sized && enough && !ascending(
                    &self.kf(),
                    e,
                ) ==> r == Err::<BTreeMap<KF, VF>, DbError>(DbError::NotSorted)
                &&& r matches Ok(map) ==> old(db).free_name(n) && self.shaped(&map) && registered(
                    old(db),
                    final(db),
                    self.named(old(db).names(), &map),
                )
                &&& !self.outside() && old(db).free_name(n) && sized && enough && ascending(
                    &self.kf(),
                    e,
                ) ==> (r matches Ok(map) && stands_apart(old(db), final(db), &map) && lists(
                    &self.kf(),
                    e,
                    map.contents(b.records),
                ))
            }),
    {
        match validate_name(self.name.as_str()) {
            Ok(_) => {},
            Err(e) => {
                return Err(e);
            },
        }
        if self.values_outside {
            return Err(DbError::Unsupported("createFrom rejects external-value maps"));
        }
        match db.check_free(self.name.as_str()) {
            Ok(_) => {},
            Err(e) => {
                return Err(e);
            },
        }
        let keys = group_descriptor_or_custom(&self.key_format);
        let values = group_descriptor_or_custom(&self.value_format);
        let ghost a = db.state();
        let ghost ok = 4 <= self.max_node_size <= 1048576 && a.readable && a.writable && a.room
            >= bulk_room(entries@.len()) && entries@.len() < i64::MAX && ascending(
            &self.key_format,
            entry_models(entries@),
        );
        let map = match BTreeMap::create_from_sorted_counter(
            db.store_mut(),
            self.key_format,
            self.value_format,
            self.max_node_size,
            entries,
            self.counter_enable,
        ) {
            Ok(m) => m,
            Err(e) => {
                return Err(e);
            },
        };
        let ghost b = db.state();
        let mut staged = db.catalog().dup();
        register_map(&mut staged, self.name.as_str(), keys, values, read_config(&map));
        match db.publish(staged) {
            Ok(_) => {
                proof {
                    if a.records.contains_key(RECID_CATALOG) && ok {
                        lemma_tree_published(&map, a, b, db.state(), db.names());
                    }
                }
                Ok(map)
            },
            Err(e) => Err(e),
        }
    }
}

/// Writing the catalog leaves a new tree as it is.
proof fn lemma_tree_published<KF: KeyFormat, VF: Serializer>(
    map: &BTreeMap<KF, VF>,
    a: StoreState,
    b: StoreState,
    c: StoreState,
    m: Names,
)
    requires
        map.wf(b.records),
        a.records.contains_key(RECID_CATALOG),
        forall|x: u64| #[trigger] a.records.contains_key(x) ==> !map.owned().contains(x),
        c.records == b.records.insert(RECID_CATALOG, Some(catalog_bytes(m))),
    ensures
        map.wf(c.records),
        map.contents(c.records) == map.contents(b.records),
{
    map.lemma_owned_records(b.records);
    assert forall|x: u64| #[trigger] map.owned().contains(x) implies c.records.contains_key(x)
        && c.records[x] == b.records[x] by {}
    map.law_untouched(b.records, c.records);
}

/// Makes a sorted set.
pub struct TreeSetMaker<KF: KeyFormat> {
    name: String,
    key_format: KF,
    max_node_size: usize,
    counter_enable: bool,
}

impl<KF: KeyFormat> TreeSetMaker<KF> {
    pub closed spec fn title(&self) -> Seq<char> {
        self.name@
    }

    pub closed spec fn kf(&self) -> KF {
        self.key_format
    }

    pub closed spec fn node_size(&self) -> usize {
        self.max_node_size
    }

    pub closed spec fn counted(&self) -> bool {
        self.counter_enable
    }

    pub(super) fn begin(name: &str, key_format: KF) -> (r: Self)
        ensures
            r.title() == name@,
            r.kf() == key_format,
            r.node_size() == 32,
            !r.counted(),
    {
        TreeSetMaker {
            name: String::from_str(name),
            key_format,
            max_node_size: 32,
            counter_enable: false,
        }
    }

    /// Sets the largest number of elements in a node.
    pub fn max_node_size(self, n: usize) -> (r: Self)
        ensures
            r.title() == self.title(),
            r.kf() == self.kf(),
            r.node_size() == n,
            r.counted() == self.counted(),
    {
        let mut r = self;
        r.max_node_size = n;
        r
    }

    /// Keeps the size in a record of its own.
    pub fn counter_enable(self) -> (r: Self)
        ensures
            r.title() == self.title(),
            r.kf() == self.kf(),
            r.node_size() == self.node_size(),
            r.counted(),
    {
        let mut r = self;
        r.counter_enable = true;
        r
    }
}

impl<KF: KeyFormat + GroupDescriptor> TreeSetMaker<KF> {
    /// The catalog with the entries of a new set.
    pub open spec fn named(&self, m: Names, set: &NavigableSet<KF>) -> Names {
        with_set(
            m,
            self.title(),
            name_or_custom(self.kf().group_name()),
            config_of(&set.backing()),
        )
    }

    /// The set has the shape that was asked for.
    pub open spec fn shaped(&self, set: &NavigableSet<KF>) -> bool {
        &&& set.kf() == self.kf()
        &&& set.backing().node_size() == self.node_size()
        &&& (set.backing().counter() != 0) == self.counted()
        &&& set.backing().inline()
    }

    /// What creating the set does.
    pub open spec fn create_post<S: Store>(
        &self,
        db: &DB<S>,
        after: &DB<S>,
        r: Result<NavigableSet<KF>>,
    ) -> bool {
        let n = self.title();
        let sized = 4 <= self.node_size() <= 1048576;
        &&& made(db, after, r)
        &&& after.state().room + 3 >= db.state().room
        &&& !db.free_name(n) ==> name_refused(db, after, n, r)
        &&& db.free_name(n) && !sized ==> after.state() == db.state() && (r matches Err(e)
            && e is WrongConfiguration)
        &&& r matches Ok(set) ==> db.free_name(n) && self.shaped(&set) && after.names()
            == self.named(db.names(), &set)
        &&& db.free_name(n) && sized ==> turned_down(db.state(), after.state(), r)
        &&& db.free_name(n) && sized && db.publishable() && db.state().room >= 3
            ==> (r matches Ok(set)
            && {
            &&& registered(db, after, self.named(db.names(), &set))
            &&& stands_apart(db, after, &set.backing())
            &&& set.elements(after.state().records) == Set::<Model<KF>>::empty()
        })
    }

    /// What opening the set answers.
    pub open spec fn open_post<S: Store>(&self, db: &DB<S>, r: Result<NavigableSet<KF>>) -> bool {
        let n = self.title();
        let m = db.names();
        let ours = !db.is_shut() && is_a(m, n, "TreeSet"@);
        let elements = group_codec_is(m, n, "serializer"@, self.kf().group_name());
        &&& db.is_shut() ==> r == Err::<NavigableSet<KF>, DbError>(DbError::StoreClosed)
        &&& !db.is_shut() && !ours ==> (r matches Err(e) && e is WrongConfiguration)
        &&& ours && !elements ==> r is Err && group_codec_checked(
            m,
            n,
            "serializer"@,
            self.kf().group_name(),
            "catalog missing serializer"@,
            r,
        )
        &&& ours && elements ==> match tree_config(m, n, Some(true)) {
            Some(c) => BTreeMap::open_post(
                db.state(),
                c.root,
                self.kf(),
                NoValueFormat,
                c.node_size,
                c.counter,
                true,
                match r {
                    Ok(set) => Ok(set.backing()),
                    Err(e) => Err(e),
                },
            ),
            None => r matches Err(e) && e is DataCorruption,
        }
    }

    /// Creates an empty set; its name must be free.
    pub fn create<S: Store>(self, db: &mut DB<S>) -> (r: Result<NavigableSet<KF>>)
        requires
            old(db).wf(),
        ensures
            self.create_post(old(db), final(db), r),
    {
        match db.check_free(self.name.as_str()) {
            Ok(_) => {},
            Err(e) => {
                return Err(e);
            },
        }
        let elements = group_descriptor_or_custom(&self.key_format);
        let ghost a = db.state();
        let map = match BTreeMap::create_with_counter(
            db.store_mut(),
            self.key_format,
            NoValueFormat,
            self.max_node_size,
            self.counter_enable,
        ) {
            Ok(m) => m,
            Err(e) => {
                return Err(e);
            },
        };
        let ghost b = db.state();
        let mut staged = db.catalog().dup();
        register_set(&mut staged, self.name.as_str(), elements, read_config(&map));
        match db.publish(staged) {
            Ok(_) => {
                proof {
                    if a.records.contains_key(RECID_CATALOG) && a.readable && a.writable
                        && a.room >= 3 {
                        lemma_tree_published(&map, a, b, db.state(), db.names());
                        assert(Map::<Model<KF>, ()>::empty().dom() =~= Set::<Model<KF>>::empty());
                    }
                }
                Ok(NavigableSet::from_map(map))
            },
            Err(e) => Err(e),
        }
    }

    /// Opens the set.
    pub fn open<S: Store>(self, db: &DB<S>) -> (r: Result<NavigableSet<KF>>)
        requires
            db.wf(),
        ensures
            self.open_post(db, r),
    {
        if db.is_closed() {
            return Err(DbError::StoreClosed);
        }
        match verify_type(db.catalog(), self.name.as_str(), "TreeSet") {
            Ok(_) => {},
            Err(e) => {
                return Err(e);
            },
        }
        match check_group_codec(
            db.catalog(),
            self.name.as_str(),
            "serializer",
            &self.key_format,
            "catalog missing serializer",
        ) {
            Ok(_) => {},
            Err(e) => {
                return Err(e);
            },
        }
        let c = match read_tree_config(db.catalog(), self.name.as_str(), Some(true)) {
            Ok(x) => x,
            Err(e) => {
                return Err(e);
            },
        };
        match BTreeMap::open_with_counter(
            db.store(),
            c.root,
            self.key_format,
            NoValueFormat,
            c.node_size,
            c.counter,
        ) {
            Ok(map) => Ok(NavigableSet::from_map(map)),
            Err(e) => Err(e),
        }
    }

    /// Opens the set where there is an object of its name, and creates it where there is
    /// none.
    pub fn create_or_open<S: Store>(self, db: &mut DB<S>) -> (r: Result<NavigableSet<KF>>)
        requires
            old(db).wf(),
        ensures
            ({
                let known = old(db).names().contains_key(field_key(self.title(), "type"@));
                &&& old(db).is_shut() || known ==> *final(db) == *old(db)
                    && self.open_post(old(db), r)
                &&& !old(db).is_shut() && !known ==> self.create_post(old(db), final(db), r)
            }),
    {
        if db.is_closed() || db.catalog().contains_key(
            joined3(self.name.as_str(), "#", "type").as_str(),
        ) {
            self.open(db)
        } else {
            self.create(db)
        }
    }

    /// Creates a set from elements that ascend strictly.
    pub fn create_from<S: Store>(self, db: &mut DB<S>, elements: Vec<KF::Item>) -> (r: Result<
        NavigableSet<KF>,
    >)
        requires
            old(db).wf(),
            forall|i: int|
                #![trigger elements@[i]]
                0 <= i < elements@.len() ==> self.kf().fits(elements@[i]@),
        ensures
            ({
                let n = self.title();
                let a = old(db).state();
                let b = final(db).state();
                let e = bare_entries(models(elements@));
                let sized = 4 <= self.node_size() <= 1048576;
                let enough = old(db).publishable() && a.room >= bulk_room(e.len())
                    && e.len() < i64::MAX;
                &&& made(old(db), final(db), r)
                &&& !old(db).free_name(n) ==> name_refused(old(db), final(db), n, r)
                &&& old(db).free_name(n) && !sized ==> b == a && (r matches Err(x)
                    && x is WrongConfiguration)
                &&& old(db).free_name(n) && sized && !ascending(&self.kf(), e) ==> r is Err
                &&& old(db).free_name(n) && sized && enough && !ascending(&self.kf(), e)
                    ==> r == Err::<
                    NavigableSet<KF>,
                    DbError,
                >(DbError::NotSorted)
                &&& r matches Ok(set) ==> old(db).free_name(n) && self.shaped(&set) && registered(
                    old(db),
                    final(db),
                    self.named(old(db).names(), &set),
                )
                &&& old(db).free_name(n) && sized && enough && ascending(&self.kf(), e) ==> (
                r matches Ok(set) && stands_apart(old(db), final(db), &set.backing()) && lists_keys(
                    &self.kf(),
                    models(elements@),
                    set.backing().contents(b.records),
                ))
            }),
    {
        match db.check_free(self.name.as_str()) {
            Ok(_) => {},
            Err(e) => {
                return Err(e);
            },
        }
        let descriptor = group_descriptor_or_custom(&self.key_format);
        let ghost a = db.state();
        let ghost keys = models(elements@);
        let entries = without_values(elements);
        assert(entry_models(entries@) =~= bare_entries(keys));
        let ghost ok = 4 <= self.max_node_size <= 1048576 && a.readable && a.writable && a.room
            >= bulk_room(entries@.len()) && entries@.len() < i64::MAX && ascending(
            &self.key_format,
            entry_models(entries@),
        );
        let map = match BTreeMap::create_from_sorted_counter(
            db.store_mut(),
            self.key_format,
            NoValueFormat,
            self.max_node_size,
            entries,
            self.counter_enable,
        ) {
            Ok(m) => m,
            Err(e) => {
                return Err(e);
            },
        };
        let ghost b = db.state();
        let mut staged = db.catalog().dup();
        register_set(&mut staged, self.name.as_str(), descriptor, read_config(&map));
        match db.publish(staged) {
            Ok(_) => {
                proof {
                    if a.records.contains_key(RECID_CATALOG) && ok {
                        lemma_tree_published(&map, a, b, db.state(), db.names());
                        assert(lists_keys(
                            &self.key_format,
                            keys,
                            map.contents(db.state().records),
                        )) by {
                            lemma_bare_lists(
                                &self.key_format,
                                keys,
                                map.contents(db.state().records),
                            );
                        }
                    }
                }
                Ok(NavigableSet::from_map(map))
            },
            Err(e) => Err(e),
        }
    }
}

/// Keys, each with nothing to it.
pub open spec fn bare_entries<K>(s: Seq<K>) -> Seq<(K, ())> {
    Seq::new(s.len(), |i: int| (s[i], ()))
}

proof fn lemma_bare_lists<KF: KeyFormat>(kf: &KF, s: Seq<Model<KF>>, m: Map<Model<KF>, ()>)
    requires
        lists(kf, bare_entries(s), m),
    ensures
        lists_keys(kf, s, m),
{
    let e = bare_entries(s);
    assert forall|i: int, j: int| #![trigger s[i], s[j]] 0 <= i < j < s.len()
        implies kf.lt(s[i], s[j]) by {
        assert(kf.lt(e[i].0, e[j].0));
    }
    assert forall|i: int| 0 <= i < s.len() implies m.contains_key(#[trigger] s[i]) by {
        assert(m.contains_key(e[i].0));
    }
    assert forall|k: Model<KF>| m.contains_key(k) implies s.contains(k) by {
        let i = choose|i: int| 0 <= i < e.len() && (#[trigger] e[i]).0 == k;
        assert(s[i] == k);
    }
}

fn without_values<K: View>(keys: Vec<K>) -> (r: Vec<(K, NoValue)>)
    ensures
        r@.len() == keys@.len(),
        forall|i: int| 0 <= i < keys@.len() ==> (#[trigger] r@[i]).0 == keys@[i],
{
    let ghost all = keys@;
    let mut keys = keys;
    let mut back: Vec<(K, NoValue)> = Vec::new();
    while keys.len() > 0
        invariant
            keys@.len() + back@.len() == all.len(),
            keys@ == all.take(keys@.len() as int),
            forall|i: int| 0 <= i < back@.len()
                ==> (#[trigger] back@[i]).0 == all[all.len() - 1 - i],
        decreases keys@.len(),
    {
        match keys.pop() {
            Some(k) => {
                back.push((k, NoValue));
            },
            None => {},
        }
    }
    let mut r: Vec<(K, NoValue)> = Vec::new();
    while back.len() > 0
        invariant
            r@.len() + back@.len() == all.len(),
            forall|i: int| 0 <= i < back@.len()
                ==> (#[trigger] back@[i]).0 == all[all.len() - 1 - i],
            forall|i: int| 0 <= i < r@.len() ==> (#[trigger] r@[i]).0 == all[i],
        decreases back@.len(),
    {
        match back.pop() {
            Some(p) => {
                r.push(p);
            },
            None => {},
        }
    }
    r
}

impl<S: Store> DB<S> {
    /// A maker of a sorted map.
    pub fn tree_map<KF: KeyFormat, VF: Serializer>(
        &self,
        name: &str,
        key_format: KF,
        value_format: VF,
    ) -> (r: TreeMapMaker<KF, VF>)
        ensures
            r.title() == name@,
            r.kf() == key_format,
            r.vf() == value_format,
            r.node_size() == 32,
            !r.counted(),
            !r.outside(),
    {
        TreeMapMaker::begin(name, key_format, value_format)
    }

    /// A maker of a sorted set.
    pub fn tree_set<KF: KeyFormat>(&self, name: &str, key_format: KF) -> (r: TreeSetMaker<KF>)
        ensures
            r.title() == name@,
            r.kf() == key_format,
            r.node_size() == 32,
            !r.counted(),
    {
        TreeSetMaker::begin(name, key_format)
    }

    /// A maker of a 64-bit number, at first 0.
    pub fn atomic_long(&self, name: &str) -> (r: AtomicLongMaker)
        ensures
            r.title() == name@,
            r.first() == 0,
    {
        AtomicLongMaker::begin(name, 0)
    }

    /// A maker of a 64-bit number with a first value.
    pub fn atomic_long_init(&self, name: &str, initial: i64) -> (r: AtomicLongMaker)
        ensures
            r.title() == name@,
            r.first() == initial,
    {
        AtomicLongMaker::begin(name, initial)
    }

    /// A maker of a 32-bit number, at first 0.
    pub fn atomic_integer(&self, name: &str) -> (r: AtomicIntegerMaker)
        ensures
            r.title() == name@,
            r.first() == 0,
    {
        AtomicIntegerMaker::begin(name, 0)
    }

    /// A maker of a 32-bit number with a first value.
    pub fn atomic_integer_init(&self, name: &str, initial: i32) -> (r: AtomicIntegerMaker)
        ensures
            r.title() == name@,
            r.first() == initial,
    {
        AtomicIntegerMaker::begin(name, initial)
    }

    /// A maker of a truth value, at first false.
    pub fn atomic_boolean(&self, name: &str) -> (r: AtomicBooleanMaker)
        ensures
            r.title() == name@,
            r.first() == false,
    {
        AtomicBooleanMaker::begin(name, false)
    }

    /// A maker of a truth value with a first value.
    pub fn atomic_boolean_init(&self, name: &str, initial: bool) -> (r: AtomicBooleanMaker)
        ensures
            r.title() == name@,
            r.first() == initial,
    {
        AtomicBooleanMaker::begin(name, initial)
    }

    /// A maker of a string, at first null.
    pub fn atomic_string(&self, name: &str) -> (r: AtomicStringMaker)
        ensures
            r.title() == name@,
            r.first()@ is None,
    {
        AtomicStringMaker::begin(name, NullableString { value: None })
    }

    /// A maker of a string with a first value.
    pub fn atomic_string_init(&self, name: &str, initial: &str) -> (r: AtomicStringMaker)
        ensures
            r.title() == name@,
            r.first()@ == Some(initial@),
    {
        AtomicStringMaker::begin(name, NullableString { value: Some(String::from_str(initial)) })
    }

    /// A maker of a value with a codec of its own.
    pub fn atomic_var<Se: Serializer + SerDescriptor>(
        &self,
        name: &str,
        serializer: Se,
        initial: Option<Se::Item>,
    ) -> (r: AtomicVarMaker<Se>)
        ensures
            r.title() == name@,
            r.codec() == serializer,
            r.first() == initial,
    {
        AtomicVarMaker::begin(name, serializer, initial)
    }

    /// A maker of a first-in, first-out queue.
    pub fn queue<Se: Serializer + SerDescriptor>(
        &self,
        name: &str,
        serializer: Se,
    ) -> (r: QueueMaker<Se>)
        ensures
            r.title() == name@,
            r.codec() == serializer,
            r.order() == Mode::Fifo,
            r.limit() == UNBOUNDED,
    {
        QueueMaker::begin(name, serializer, Mode::Fifo, UNBOUNDED)
    }

    /// A maker of a last-in, first-out stack.
    pub fn stack<Se: Serializer + SerDescriptor>(
        &self,
        name: &str,
        serializer: Se,
    ) -> (r: QueueMaker<Se>)
        ensures
            r.title() == name@,
            r.codec() == serializer,
            r.order() == Mode::Lifo,
            r.limit() == UNBOUNDED,
    {
        QueueMaker::begin(name, serializer, Mode::Lifo, UNBOUNDED)
    }

    /// A maker of a queue of limited size that drops its oldest element for a new one.
    pub fn circular_queue<Se: Serializer + SerDescriptor>(
        &self,
        name: &str,
        serializer: Se,
        capacity: u64,
    ) -> (r: QueueMaker<Se>)
        ensures
            r.title() == name@,
            r.codec() == serializer,
            r.order() == Mode::Circular,
            r.limit() == capacity,
    {
        QueueMaker::begin(name, serializer, Mode::Circular, capacity)
    }
}

} // verus!
