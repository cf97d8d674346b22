//! The database: a store with a catalog of named objects at recid 1.

use vstd::prelude::*;
use crate::db::catalog::{
    catalog_bytes, catalog_fits, catalog_of, law_catalog_round_trip, NameCatalog, Names, CATALOG_SER,
    RECID_CATALOG,
};
use crate::db::objects::{is_a, number_at};
use crate::db::schema::{
    catalog_ok, drop_object, field_key, is_atomic_type, lemma_name_has_no_hash, plain_atomic, renamed,
    rename_object, type_of, valid_name, validate_catalog, validate_name, without,
};
use crate::error::{error_text, DbError, Result};
use crate::io::DataOutput2;
use crate::ser::str_equal;
use crate::store::{
    keeps_but_saved, keeps_state, turned_down, Records, Store, StoreOnHeap, StoreReadOnlyWrapper,
    StoreState,
};
use crate::text::{after_chars, joined, joined3, parse_decimal};

verus! {

// ---------------------------------------------------------------- rolling back

/// What rolling back a store does.
pub open spec fn rollback_post(a: StoreState, b: StoreState, r: Result<()>) -> bool {
    &&& !a.tx ==> (r matches Err(e) && e is Unsupported)
    &&& a.tx && a.closed ==> r == Err::<(), DbError>(DbError::StoreClosed)
    &&& a.tx && a.readable && a.writable ==> r is Ok
    &&& r is Ok ==> {
        &&& b.records == a.saved
        &&& b.saved == a.saved
        &&& b.kind == a.kind
        &&& b.closed == a.closed
        &&& b.readable == a.readable
        &&& b.writable == a.writable
        &&& b.tx == a.tx
        &&& b.read_only == a.read_only
        &&& b.generation != a.generation
    }
    &&& r is Err ==> b == a
}

/// A store that goes back to its last commit, where it can.
pub trait DbRollback: Store {
    fn try_rollback(&mut self) -> (r: Result<()>)
        ensures
            rollback_post(old(self).state(), final(self).state(), r),
    ;
}

impl DbRollback for StoreOnHeap {
    fn try_rollback(&mut self) -> Result<()> {
        proof {
            self.records_finite();
        }
        if !self.is_tx() {
            return Err(DbError::Unsupported("rollback on a non-transactional store"));
        }
        self.rollback()
    }
}

impl<S: Store> DbRollback for StoreReadOnlyWrapper<S> {
    fn try_rollback(&mut self) -> Result<()> {
        Err(DbError::Unsupported("rollback on a read-only store"))
    }
}

// ---------------------------------------------------------------- the database

/// The catalog in a set of records.
pub open spec fn catalog_in(records: Records) -> Option<Names> {
    if records.contains_key(RECID_CATALOG) {
        match records[RECID_CATALOG] {
            Some(b) => catalog_of(b),
            None => None,
        }
    } else {
        None
    }
}

/// The records of a store that holds an empty catalog and nothing else.
pub open spec fn blank() -> Records {
    Map::<u64, Option<Seq<u8>>>::empty().insert(RECID_CATALOG, Some(catalog_bytes(Names::empty())))
}

/// What loading the catalog of a store does.
pub open spec fn load_post(
    a: StoreState,
    b: StoreState,
    loaded: Option<Names>,
    r: std::result::Result<(), DbError>,
) -> bool {
    let nothing = a.records == Map::<u64, Option<Seq<u8>>>::empty();
    &&& r is Ok <==> loaded is Some
    &&& loaded matches Some(m) ==> catalog_ok(m) && catalog_in(b.records) == Some(m)
    &&& a.closed ==> r == Err::<(), DbError>(DbError::StoreClosed)
    &&& keeps_but_saved(a, b)
    &&& b.room + 1 >= a.room
    &&& !nothing ==> b == a
    &&& nothing && r is Ok ==> loaded == Some(Names::empty()) && b.records == blank()
    &&& a.readable && nothing && a.read_only ==> b == a && (r matches Err(e)
        && e is WrongConfiguration)
    &&& a.readable && a.writable && nothing && a.room > 0 ==> {
        ||| loaded == Some(Names::empty()) && b.records == blank()
            && (a.tx ==> b.saved == b.records)
        ||| !a.fresh && b.records == a.records && (r matches Err(e) && e is WrongConfiguration)
    }
    &&& a.readable && !nothing ==> if !a.records.contains_key(RECID_CATALOG)
        || a.records[RECID_CATALOG] is None {
        r matches Err(e) && e is WrongConfiguration
    } else {
        match catalog_in(a.records) {
            Some(m) => if catalog_ok(m) {
                loaded == Some(m)
            } else {
                r matches Err(e) && e is DataCorruption
            },
            None => r matches Err(e) && e is DataCorruption,
        }
    }
}

/// A result without its value.
pub open spec fn unit<T>(r: Result<T>) -> Result<()> {
    match r {
        Ok(_) => Ok(()),
        Err(e) => Err(e),
    }
}

pub open spec fn loaded_names(r: Result<NameCatalog>) -> Option<Names> {
    match r {
        Ok(c) => Some(c@),
        Err(_) => None,
    }
}

proof fn lemma_blank()
    ensures
        catalog_in(blank()) == Some(Names::empty()),
        catalog_ok(Names::empty()),
{
    reveal(catalog_ok);
    let m = Names::empty();
    let e = Seq::<(Seq<char>, Seq<char>)>::empty();
    assert(crate::btree::contents::lists(&crate::ser::STRING, e, m));
    assert(catalog_fits(m));
    law_catalog_round_trip(m);
}

/// Writes the first, empty catalog into an empty store, or reads and checks the
/// catalog of a store that has one.
pub fn load_catalog<S: Store>(store: &mut S) -> (r: Result<NameCatalog>)
    ensures
        load_post(old(store).state(), final(store).state(), loaded_names(r), unit(r)),
        r matches Ok(c) ==> c.wf(),
{
    let ghost a = store.state();
    let recids = match store.get_all_recids() {
        Ok(v) => v,
        Err(e) => {
            proof {
                store.records_finite();
            }
            return Err(e);
        },
    };
    proof {
        store.records_finite();
        lemma_blank();
        if recids@.len() == 0 {
            assert forall|x: u64| !a.records.contains_key(x) by {
                assert(a.records.contains_key(x) <==> recids@.contains(x));
            }
            assert(a.records =~= Map::<u64, Option<Seq<u8>>>::empty());
        } else {
            assert(recids@.contains(recids@[0]));
        }
    }
    if recids.len() == 0 {
        if store.is_read_only() {
            return Err(
                DbError::wrong_config(
                    String::from_str(
                        "cannot open an empty store read-only: the catalog cannot be written",
                    ),
                ),
            );
        }
        let empty = NameCatalog::new();
        let mut out = DataOutput2::new();
        CATALOG_SER.serialize(&mut out, &empty);
        let bytes = out.into_vec();
        assert(bytes@ =~= catalog_bytes(Names::empty()));
        let recid: u64 = match store.put(bytes) {
            Ok(x) => x,
            Err(e) => {
                return Err(e);
            },
        };
        if recid != RECID_CATALOG {
            let _ = store.delete(recid);
            assert(a.writable ==> store.state().records =~= a.records);
            return Err(
                DbError::wrong_config(
                    String::from_str("store is not a fresh store: recid 1 is already taken"),
                ),
            );
        }
        assert(store.state().records =~= blank());
        match store.commit() {
            Ok(_) => {},
            Err(e) => {
                return Err(e);
            },
        }
        return Ok(empty);
    }
    let cat = match store.get(RECID_CATALOG) {
        Ok(Some(b)) => match CATALOG_SER.decode(b.as_slice()) {
            Ok(c) => c,
            Err(e) => {
                return Err(e);
            },
        },
        Ok(None) => {
            return Err(
                DbError::wrong_config(
                    String::from_str("store has data but no name catalog at recid 1 (wrong store?)"),
                ),
            );
        },
        Err(DbError::GetVoid(_)) => {
            return Err(
                DbError::wrong_config(
                    String::from_str("store has data but recid 1 is not allocated (wrong store?)"),
                ),
            );
        },
        Err(e) => {
            return Err(e);
        },
    };
    match validate_catalog(&cat) {
        Ok(_) => Ok(cat),
        Err(e) => Err(e),
    }
}

/// The names are those of the objects in the catalog, ascending by their keys.
pub open spec fn lists_names(v: Seq<String>, m: Names) -> bool {
    &&& forall|i: int|
        0 <= i < v.len() ==> m.contains_key(field_key((#[trigger] v[i])@, "type"@))
    &&& forall|n: Seq<char>|
        m.contains_key(#[trigger] field_key(n, "type"@)) ==> exists|i: int|
            0 <= i < v.len() && (#[trigger] v[i])@ == n
    &&& forall|i: int, j: int|
        #![trigger v[i], v[j]]
        0 <= i < j < v.len() ==> crate::ser::KeyFormat::lt(
            &crate::ser::STRING,
            field_key(v[i]@, "type"@),
            field_key(v[j]@, "type"@),
        )
}

/// A store with named objects in it.
pub struct DB<S> {
    store: S,
    catalog: NameCatalog,
    closed: bool,
    cleanup: Vec<String>,
}

impl<S: Store> DB<S> {
    /// The store.
    pub closed spec fn backing(&self) -> S {
        self.store
    }

    /// What the store holds and can do.
    pub open spec fn state(&self) -> StoreState {
        self.backing().state()
    }

    /// The catalog.
    pub closed spec fn names(&self) -> Names {
        self.catalog@
    }

    pub closed spec fn is_shut(&self) -> bool {
        self.closed
    }

    /// The files that go when the database is closed.
    pub closed spec fn files(&self) -> Seq<String> {
        self.cleanup@
    }

    pub closed spec fn wf(&self) -> bool {
        self.catalog.wf()
    }

    /// Nothing but the store and the catalog changed.
    pub open spec fn same_frame(&self, other: &Self) -> bool {
        self.is_shut() == other.is_shut() && self.files() == other.files() && self.wf()
    }

    /// Writing the catalog is served.
    pub open spec fn publishable(&self) -> bool {
        self.state().readable && self.state().writable && self.state().records.contains_key(
            RECID_CATALOG,
        )
    }

    /// The catalog of a database that was opened.
    pub open spec fn opened(r: Result<Self>) -> Option<Names> {
        match r {
            Ok(db) => Some(db.names()),
            Err(_) => None,
        }
    }

    /// Opens a store: writes the first catalog into an empty one, reads and checks the
    /// catalog of another.
    pub fn new(store: S) -> (r: Result<Self>)
        ensures
            r matches Ok(db) ==> db.wf() && !db.is_shut() && db.files() == Seq::<String>::empty(),
            exists|b: StoreState|
                #[trigger] load_post(store.state(), b, Self::opened(r), unit(r))
                    && (r matches Ok(db) ==> db.state() == b),
    {
        Self::with_cleanup(store, Vec::new())
    }

    /// Opens a store; these files go when the database is closed.
    pub fn with_cleanup(store: S, cleanup_paths: Vec<String>) -> (r: Result<Self>)
        ensures
            r matches Ok(db) ==> db.wf() && !db.is_shut() && db.files() == cleanup_paths@,
            exists|b: StoreState|
                #[trigger] load_post(store.state(), b, Self::opened(r), unit(r))
                    && (r matches Ok(db) ==> db.state() == b),
    {
        let ghost a = store.state();
        let mut store = store;
        match load_catalog(&mut store) {
            Ok(catalog) => {
                let ghost b = store.state();
                assert(load_post(a, b, Some(catalog@), Ok(())));
                let db = DB { store, catalog, closed: false, cleanup: cleanup_paths };
                assert(db.state() == b);
                Ok(db)
            },
            Err(e) => {
                assert(load_post(a, store.state(), None, Err(e)));
                Err(e)
            },
        }
    }

    /// The store.
    pub fn store(&self) -> (r: &S)
        ensures
            *r == self.backing(),
    {
        &self.store
    }

    /// The store, to work on with the collections that stand in it.
    pub fn store_mut(&mut self) -> (r: &mut S)
        ensures
            *r == old(self).backing(),
            final(self).backing() == *final(r),
            final(self).names() == old(self).names(),
            old(self).wf() ==> final(self).same_frame(old(self)),
    {
        &mut self.store
    }

    /// The files that go when the database is closed.
    pub fn cleanup_paths(&self) -> (r: &Vec<String>)
        ensures
            r@ == self.files(),
    {
        &self.cleanup
    }

    /// A copy of the catalog.
    pub fn get_name_catalog(&self) -> (r: Result<NameCatalog>)
        requires
            self.wf(),
        ensures
            self.is_shut() ==> r == Err::<NameCatalog, DbError>(DbError::StoreClosed),
            !self.is_shut() ==> (r matches Ok(c) && c.wf() && c@ == self.names()),
    {
        if self.closed {
            return Err(DbError::StoreClosed);
        }
        Ok(self.catalog.dup())
    }

    /// Whether there is an object of this name.
    pub fn name_exists(&self, name: &str) -> (r: Result<bool>)
        requires
            self.wf(),
        ensures
            self.is_shut() ==> r == Err::<bool, DbError>(DbError::StoreClosed),
            !self.is_shut() ==> r == Ok::<bool, DbError>(
                self.names().contains_key(field_key(name@, "type"@)),
            ),
    {
        if self.closed {
            return Err(DbError::StoreClosed);
        }
        Ok(self.catalog.contains_key(joined3(name, "#", "type").as_str()))
    }

    /// The type of the object of this name.
    pub fn get_type(&self, name: &str) -> (r: Result<Option<String>>)
        requires
            self.wf(),
        ensures
            self.is_shut() ==> r == Err::<Option<String>, DbError>(DbError::StoreClosed),
            !self.is_shut() ==> (r matches Ok(t) && match t {
                Some(s) => is_a(self.names(), name@, s@),
                None => !self.names().contains_key(field_key(name@, "type"@)),
            }),
    {
        if self.closed {
            return Err(DbError::StoreClosed);
        }
        match self.catalog.get(joined3(name, "#", "type").as_str()) {
            Some(t) => Ok(Some(t.clone())),
            None => Ok(None),
        }
    }

    /// Commits the store; on a read-only store there is nothing to commit.
    pub fn commit(&mut self) -> (r: Result<()>)
        requires
            old(self).wf(),
        ensures
            final(self).same_frame(old(self)),
            final(self).names() == old(self).names(),
            old(self).is_shut() ==> r == Err::<(), DbError>(DbError::StoreClosed) && *final(self)
                == *old(self),
            !old(self).is_shut() && old(self).state().read_only ==> r is Ok
                && *final(self) == *old(self),
            !old(self).is_shut() && old(self).state().readable ==> r is Ok,
            final(self).state().records == old(self).state().records,
            keeps_but_saved(old(self).state(), final(self).state()),
            !old(self).is_shut() && r is Ok && old(self).state().tx && !old(self).state().read_only
                ==> final(self).state().saved == old(self).state().records,
            r is Err ==> final(self).state().saved == old(self).state().saved,
    {
        if self.closed {
            return Err(DbError::StoreClosed);
        }
        if self.store.is_read_only() {
            return Ok(());
        }
        self.store.commit()
    }

    /// Reclaims unused space of the store.
    pub fn compact(&mut self) -> (r: Result<()>)
        requires
            old(self).wf(),
        ensures
            final(self).same_frame(old(self)),
            final(self).names() == old(self).names(),
            old(self).is_shut() ==> r == Err::<(), DbError>(DbError::StoreClosed) && *final(self)
                == *old(self),
            !old(self).is_shut() && old(self).state().writable ==> r is Ok,
            final(self).state().records == old(self).state().records,
            keeps_state(old(self).state(), final(self).state()),
    {
        if self.closed {
            return Err(DbError::StoreClosed);
        }
        self.store.compact()
    }

    pub fn is_closed(&self) -> (r: bool)
        ensures
            r == self.is_shut(),
    {
        self.closed
    }

    /// The store answers with success when it is closed.
    pub closed spec fn store_closes(&self) -> bool {
        self.store.closes()
    }

    /// Closes the database and its store without a commit; closing again does nothing.
    pub fn close(&mut self) -> (r: Result<()>)
        requires
            old(self).wf(),
        ensures
            old(self).is_shut() || old(self).store_closes() ==> r is Ok,
            final(self).is_shut(),
            final(self).wf(),
            final(self).names() == old(self).names(),
            final(self).files() == old(self).files(),
            old(self).is_shut() ==> *final(self) == *old(self),
            !old(self).is_shut() ==> final(self).state().closed,
            final(self).state().records == old(self).state().records,
            final(self).state().kind == old(self).state().kind,
    {
        if self.closed {
            return Ok(());
        }
        let r = self.store.close();
        self.closed = true;
        r
    }

    /// What writing the catalog does: the record first, and where that succeeds the
    /// catalog in memory.
    pub open spec fn published(&self, before: &Self, m: Names, r: Result<()>) -> bool {
        let a = before.state();
        let b = self.state();
        &&& self.same_frame(before)
        &&& keeps_state(a, b)
        &&& b.room >= a.room
        &&& before.publishable() ==> r is Ok
        &&& r is Ok ==> a.records.contains_key(RECID_CATALOG) && self.names() == m
            && b.records == a.records.insert(
            RECID_CATALOG,
            Some(catalog_bytes(m)),
        )
        &&& r is Err ==> self.names() == before.names() && b.records == a.records
        &&& turned_down(a, b, r)
    }

    /// Writes a catalog.
    pub(super) fn publish(&mut self, staged: NameCatalog) -> (r: Result<()>)
        requires
            old(self).wf(),
            staged.wf(),
        ensures
            final(self).published(old(self), staged@, r),
    {
        let mut out = DataOutput2::new();
        CATALOG_SER.serialize(&mut out, &staged);
        let bytes = out.into_vec();
        assert(bytes@ =~= catalog_bytes(staged@));
        match self.store.update(RECID_CATALOG, Some(bytes)) {
            Ok(_) => {
                self.catalog = staged;
                Ok(())
            },
            Err(e) => Err(e),
        }
    }

    pub(super) fn catalog(&self) -> (r: &NameCatalog)
        requires
            self.wf(),
        ensures
            r.wf(),
            r@ == self.names(),
    {
        &self.catalog
    }

    /// Whether a new object can have this name.
    pub open spec fn free_name(&self, name: Seq<char>) -> bool {
        valid_name(name) && !self.is_shut() && !self.names().contains_key(field_key(name, "type"@))
    }

    /// Refuses a name that a new object cannot have.
    pub(super) fn check_free(&self, name: &str) -> (r: Result<()>)
        requires
            self.wf(),
        ensures
            self.free_name(name@) ==> r is Ok,
            !valid_name(name@) ==> (r matches Err(e) && e is WrongConfiguration),
            valid_name(name@) && self.is_shut() ==> r == Err::<(), DbError>(DbError::StoreClosed),
            valid_name(name@) && !self.is_shut() && self.names().contains_key(
                field_key(name@, "type"@),
            ) ==> (r matches Err(e) && e is WrongConfiguration),
    {
        match validate_name(name) {
            Ok(_) => {},
            Err(e) => {
                return Err(e);
            },
        }
        if self.closed {
            return Err(DbError::StoreClosed);
        }
        if self.catalog.contains_key(joined3(name, "#", "type").as_str()) {
            return Err(DbError::wrong_config(joined("name already exists: ", name)));
        }
        Ok(())
    }

    /// Gives an object another name; nothing else about it changes.
    pub fn rename(&mut self, old_name: &str, new_name: &str) -> (r: Result<()>)
        requires
            old(self).wf(),
        ensures
            ({
                let m = old(self).names();
                let legal = valid_name(old_name@) && valid_name(new_name@);
                let known = m.contains_key(field_key(old_name@, "type"@));
                let free = !m.contains_key(field_key(new_name@, "type"@));
                &&& !legal ==> *final(self) == *old(self) && (r matches Err(e)
                    && e is WrongConfiguration)
                &&& legal && old(self).is_shut() ==> *final(self) == *old(self) && r == Err::<
                    (),
                    DbError,
                >(DbError::StoreClosed)
                &&& legal && !old(self).is_shut() && !(known && free)
                    ==> *final(self) == *old(self) && (
                r matches Err(e) && e is WrongConfiguration)
                &&& legal && !old(self).is_shut() && known && free ==> final(self).published(
                    old(self),
                    renamed(m, old_name@, new_name@),
                    r,
                )
            }),
    {
        match validate_name(old_name) {
            Ok(_) => {},
            Err(e) => {
                return Err(e);
            },
        }
        match validate_name(new_name) {
            Ok(_) => {},
            Err(e) => {
                return Err(e);
            },
        }
        if self.closed {
            return Err(DbError::StoreClosed);
        }
        if !self.catalog.contains_key(joined3(old_name, "#", "type").as_str()) {
            return Err(DbError::wrong_config(joined("no such name: ", old_name)));
        }
        if self.catalog.contains_key(joined3(new_name, "#", "type").as_str()) {
            return Err(
                DbError::wrong_config(joined("cannot rename onto existing name: ", new_name)),
            );
        }
        proof {
            lemma_name_has_no_hash(old_name@);
            lemma_name_has_no_hash(new_name@);
        }
        let staged = rename_object(&self.catalog, old_name, new_name);
        self.publish(staged)
    }

    /// The recid of the record that goes with an object that is a single value.
    pub open spec fn freed(m: Names, name: Seq<char>) -> Option<u64> {
        let ty = type_of(m, name);
        if plain_atomic(ty) || ty == "AtomicVar"@ {
            match number_at(m, field_key(name, "recid"@), u64::MAX as nat) {
                Some(n) => if n > 0 {
                    Some(n as u64)
                } else {
                    None
                },
                None => None,
            }
        } else {
            None
        }
    }

    /// Deletes an object; answers whether there was one. Its entries go first; then, of
    /// a single value, its record where it can be freed. The records of a collection
    /// stay, as a handle may still use them.
    pub fn delete(&mut self, name: &str) -> (r: Result<bool>)
        requires
            old(self).wf(),
        ensures
            ({
                let a = old(self).state();
                let b = final(self).state();
                let m = old(self).names();
                let known = m.contains_key(field_key(name@, "type"@));
                let listed = a.records.insert(
                    RECID_CATALOG,
                    Some(catalog_bytes(without(m, name@))),
                );
                &&& old(self).is_shut() ==> *final(self) == *old(self) && r == Err::<bool, DbError>(
                    DbError::StoreClosed,
                )
                &&& !old(self).is_shut() && !known ==> *final(self) == *old(self) && r == Ok::<
                    bool,
                    DbError,
                >(false)
                &&& !old(self).is_shut() && known ==> {
                    &&& final(self).same_frame(old(self))
                    &&& keeps_state(a, b)
                    &&& old(self).publishable() ==> r is Ok
                    &&& r is Err ==> final(self).names() == m && b.records == a.records
                    &&& turned_down(a, b, r)
                    &&& r matches Ok(found) ==> {
                        &&& found
                        &&& a.records.contains_key(RECID_CATALOG)
                        &&& final(self).names() == without(m, name@)
                        &&& match Self::freed(m, name@) {
                            Some(x) => if a.writable && listed.contains_key(x) {
                                b.records == listed.remove(x)
                            } else {
                                b.records == listed || b.records == listed.remove(x)
                            },
                            None => b.records == listed,
                        }
                    }
                }
            }),
    {
        if self.closed {
            return Err(DbError::StoreClosed);
        }
        let atomic: Option<u64> = match self.catalog.get(joined3(name, "#", "type").as_str()) {
            Some(t) => if is_atomic_type(t.as_str()) {
                match self.catalog.get(joined3(name, "#", "recid").as_str()) {
                    Some(s) => parse_decimal(s.as_str()),
                    None => None,
                }
            } else {
                None
            },
            None => {
                return Ok(false);
            },
        };
        let staged = drop_object(&self.catalog, name);
        match self.publish(staged) {
            Ok(_) => {},
            Err(e) => {
                return Err(e);
            },
        }
        match atomic {
            Some(recid) => {
                if recid != 0 {
                    let _ = self.store.delete(recid);
                }
            },
            None => {},
        }
        Ok(true)
    }

    /// The names of all objects, ascending by their catalog keys.
    pub fn get_all_names(&self) -> (r: Result<Vec<String>>)
        requires
            self.wf(),
        ensures
            self.is_shut() ==> r == Err::<Vec<String>, DbError>(DbError::StoreClosed),
            !self.is_shut() ==> (r matches Ok(v) && lists_names(v@, self.names())),
    {
        if self.closed {
            return Err(DbError::StoreClosed);
        }
        let ghost e = self.catalog.entries();
        let ghost m = self.names();
        proof {
            self.catalog.lemma_lists();
        }
        let n: usize = self.catalog.len();
        let mut v: Vec<String> = Vec::new();
        let ghost mut at: Seq<int> = Seq::empty();
        let mut i: usize = 0;
        while i < n
            invariant
                self.wf(),
                e == self.catalog.entries(),
                m == self.names(),
                n == e.len(),
                i <= n,
                crate::btree::contents::lists(&crate::ser::STRING, e, m),
                at.len() == v@.len(),
                forall|j: int|
                    0 <= j < at.len() ==> 0 <= #[trigger] at[j] < i && e[at[j]].0 == field_key(
                        v@[j]@,
                        "type"@,
                    ),
                forall|j: int, k: int| #![trigger at[j], at[k]] 0 <= j < k < at.len()
                    ==> at[j] < at[k],
                forall|x: int|
                    #![trigger e[x]]
                    0 <= x < i ==> forall|s: Seq<char>|
                        e[x].0 == #[trigger] field_key(s, "type"@) ==> exists|j: int|
                            0 <= j < v@.len() && (#[trigger] v@[j])@ == s,
            decreases n - i,
        {
            let k = self.catalog.key_at(i);
            let ghost before = v@;
            match name_of_type_key(k.as_str()) {
                Some(s) => {
                    v.push(s);
                    proof {
                        at = at.push(i as int);
                    }
                },
                None => {},
            }
            proof {
                assert forall|x: int| #![trigger e[x]] 0 <= x < i + 1 implies forall|s: Seq<char>|
                    e[x].0 == #[trigger] field_key(s, "type"@) ==> exists|j: int|
                        0 <= j < v@.len() && (#[trigger] v@[j])@ == s by {
                    assert forall|s: Seq<char>|
                        e[x].0 == #[trigger] field_key(s, "type"@) implies exists|j: int|
                        0 <= j < v@.len() && (#[trigger] v@[j])@ == s by {
                        if x < i {
                            let j = choose|j: int| 0 <= j < before.len()
                                && (#[trigger] before[j])@ == s;
                            assert(v@[j]@ == s);
                        } else {
                            assert(v@[v@.len() - 1]@ == s);
                        }
                    }
                }
            }
            i = i + 1;
        }
        proof {
            assert forall|j: int| 0 <= j < v@.len() implies m.contains_key(
                field_key((#[trigger] v@[j])@, "type"@),
            ) by {
                let _ = at[j];
                assert(m.contains_key(e[at[j]].0));
            }
            assert forall|s: Seq<char>|
                m.contains_key(#[trigger] field_key(s, "type"@)) implies exists|j: int|
                0 <= j < v@.len() && (#[trigger] v@[j])@ == s by {
                let x = choose|x: int| 0 <= x < e.len() && (#[trigger] e[x]).0 == field_key(s, "type"@);
                assert(e[x].0 == field_key(s, "type"@));
            }
            assert forall|j: int, k: int| #![trigger v@[j], v@[k]] 0 <= j < k < v@.len()
                implies crate::ser::KeyFormat::lt(
                &crate::ser::STRING,
                field_key(v@[j]@, "type"@),
                field_key(v@[k]@, "type"@),
            ) by {
                assert(at[j] < at[k]);
                assert(crate::ser::KeyFormat::lt(&crate::ser::STRING, e[at[j]].0, e[at[k]].0));
            }
        }
        assert(lists_names(v@, m));
        Ok(v)
    }
}

/// The name in the key of a type field.
fn name_of_type_key(k: &str) -> (r: Option<String>)
    ensures
        match r {
            Some(n) => k@ == field_key(n@, "type"@),
            None => forall|n: Seq<char>| k@ != #[trigger] field_key(n, "type"@),
        },
        forall|n: Seq<char>| k@ == #[trigger] field_key(n, "type"@) ==> (r matches Some(s) && s@ == n),
{
    proof {
        reveal_strlit("#");
        reveal_strlit("type");
        reveal_strlit("#type");
        assert("#type"@ =~= "#"@ + "type"@);
        assert forall|n: Seq<char>| k@ == #[trigger] field_key(n, "type"@) implies k@.len()
            == n.len() + 5 && k@.skip(n.len() as int) == "#type"@ && k@.take(n.len() as int) == n by {
            assert(k@.skip(n.len() as int) =~= "#type"@);
            assert(k@.take(n.len() as int) =~= n);
        }
    }
    let len: usize = k.unicode_len();
    if len < 5 {
        return None;
    }
    let tail = after_chars(k, len - 5);
    if !str_equal(tail, "#type") {
        return None;
    }
    let head = k.substring_char(0, len - 5);
    proof {
        assert(head@ =~= k@.take(len - 5));
        assert(k@ =~= head@ + tail@);
        assert(head@ + ("#"@ + "type"@) =~= head@ + "#"@ + "type"@);
    }
    Some(String::from_str(head))
}

impl<S: DbRollback> DB<S> {
    /// What rolling back does.
    pub open spec fn rolled_back(&self, before: &Self, r: Result<()>) -> bool {
        let a = before.state();
        let b = self.state();
        &&& self.same_frame(before)
        &&& before.is_shut() ==> *self == *before && r == Err::<(), DbError>(
            DbError::StoreClosed,
        )
        &&& !before.is_shut() && !a.tx ==> b == a && (r matches Err(e) && e is Unsupported)
        &&& r is Ok ==> b.records == a.saved && (if a.saved[RECID_CATALOG] is None {
            self.names() == Names::empty()
        } else {
            catalog_in(a.saved) == Some(self.names())
        })
        &&& !before.is_shut() && a.tx && a.readable && a.writable ==> b.records == a.saved
            && b.generation != a.generation
        &&& r is Ok ==> b.generation != a.generation
        &&& !before.is_shut() && a.tx && a.readable && a.writable ==> if !a.saved.contains_key(
            RECID_CATALOG,
        ) {
            r == Err::<(), DbError>(DbError::GetVoid(RECID_CATALOG))
        } else if a.saved[RECID_CATALOG] is None {
            r is Ok && self.names() == Names::empty()
        } else {
            match catalog_in(a.saved) {
                Some(m) => if catalog_ok(m) {
                    r is Ok && self.names() == m
                } else {
                    r matches Err(e) && e is DataCorruption
                },
                None => r matches Err(e) && e is DataCorruption,
            }
        }
        &&& r is Err ==> self.names() == before.names()
    }

    /// Goes back to the last commit and reads the catalog anew.
    pub fn rollback(&mut self) -> (r: Result<()>)
        requires
            old(self).wf(),
        ensures
            final(self).rolled_back(old(self), r),
    {
        if self.closed {
            return Err(DbError::StoreClosed);
        }
        match self.store.try_rollback() {
            Ok(_) => {},
            Err(e) => {
                return Err(e);
            },
        }
        let reloaded = match self.store.get(RECID_CATALOG) {
            Ok(Some(b)) => match CATALOG_SER.decode(b.as_slice()) {
                Ok(c) => c,
                Err(e) => {
                    return Err(e);
                },
            },
            Ok(None) => NameCatalog::new(),
            Err(e) => {
                return Err(e);
            },
        };
        proof {
            lemma_blank();
        }
        match validate_catalog(&reloaded) {
            Ok(_) => {
                self.catalog = reloaded;
                Ok(())
            },
            Err(e) => Err(e),
        }
    }
}

/// The one result of closing a store and then clearing up after it: the only error
/// where there is one, and both in words where there are two.
pub fn combine_close_errors(store_res: Result<()>, cleanup_res: Result<()>) -> (r: Result<()>)
    ensures
        store_res is Ok && cleanup_res is Ok ==> r is Ok,
        store_res is Ok && cleanup_res is Err ==> r == cleanup_res,
        store_res is Err && cleanup_res is Ok ==> r == store_res,
        store_res matches Err(s) && cleanup_res matches Err(c) && !(s is Io) && !(c is Io) ==> (
        r matches Err(DbError::DataCorruption(crate::error::Corruption::Msg(m))) && m@
            == "close failed on two counts: store close ["@ + error_text(store_res->Err_0)
            + "]; cleanup ["@ + error_text(cleanup_res->Err_0) + "]"@),
        store_res is Err && cleanup_res is Err ==> (r matches Err(e) && e is DataCorruption),
{
    match (store_res, cleanup_res) {
        (Ok(_), c) => c,
        (Err(e), Ok(_)) => Err(e),
        (Err(s), Err(c)) => {
            let mut m = joined(
                "close failed on two counts: store close [",
                s.message().as_str(),
            );
            m.append("]; cleanup [");
            m.append(c.message().as_str());
            m.append("]");
            Err(DbError::corrupt_msg(m))
        },
    }
}

} // verus!
