//! Configuring a database at run time.

use vstd::prelude::*;
use crate::db::db::{load_post, unit, DB};
use crate::db::store_kind::{plain, ConfiguredStore};
use crate::error::{DbError, Result};
use crate::store::{
    max_slots, Store, StoreKind, StoreOnHeap, StoreReadOnlyWrapper, StoreState,
};

verus! {

/// Where the records are kept.
#[derive(Debug)]
pub enum Backend {
    /// On the heap.
    Heap,
    /// In byte arrays.
    ByteArray,
    /// In memory, in place.
    MemoryDirect,
    /// In a file.
    File(String),
}

/// The options of a database.
#[derive(Debug)]
pub struct DBMaker {
    backend: Backend,
    transaction_enable: bool,
    read_only: bool,
    delete_after_close: bool,
    delete_after_open: bool,
}

/// The options as plain values.
pub struct Options {
    pub backend: Backend,
    pub transactional: bool,
    pub read_only: bool,
    pub delete_after_close: bool,
    pub delete_after_open: bool,
}

/// The options of a plain database over a backend.
pub open spec fn plain_options(backend: Backend) -> Options {
    Options {
        backend,
        transactional: false,
        read_only: false,
        delete_after_close: false,
        delete_after_open: false,
    }
}

/// Options that can be had together.
pub open spec fn options_ok(o: Options) -> bool {
    &&& !(o.read_only && o.transactional)
    &&& o.transactional ==> o.backend is File
    &&& o.delete_after_open ==> o.backend is File
    &&& o.delete_after_close ==> o.backend is File
    &&& !(o.delete_after_open && o.transactional)
}

/// How a database with these options keeps its records.
pub open spec fn kind_asked(o: Options) -> StoreKind {
    match o.backend {
        Backend::Heap => if o.read_only {
            StoreKind::ReadOnlyHeap
        } else {
            StoreKind::Heap
        },
        Backend::ByteArray => if o.read_only {
            StoreKind::ReadOnlyByteArray
        } else {
            StoreKind::ByteArray
        },
        Backend::MemoryDirect => if o.read_only {
            StoreKind::ReadOnlyDirect
        } else {
            StoreKind::Direct
        },
        Backend::File(_) => if o.transactional {
            StoreKind::Wal
        } else if o.read_only {
            StoreKind::ReadOnlyDirect
        } else {
            StoreKind::Direct
        },
    }
}

/// The state of the store that options ask for over a store in state `st`.
pub open spec fn configured_state(o: Options, st: StoreState) -> StoreState {
    let over = if o.read_only {
        StoreReadOnlyWrapper::<StoreOnHeap>::guarded(st)
    } else {
        st
    };
    if o.transactional {
        StoreState { kind: kind_asked(o), ..over }
    } else {
        plain(kind_asked(o), over)
    }
}

/// The file that goes when a database with these options is closed.
pub open spec fn files_of(o: Options) -> Seq<Seq<char>> {
    match o.backend {
        Backend::File(p) => if o.delete_after_close {
            seq![p@]
        } else {
            Seq::empty()
        },
        _ => Seq::empty(),
    }
}

impl DBMaker {
    /// The options so far.
    pub closed spec fn options(&self) -> Options {
        Options {
            backend: self.backend,
            transactional: self.transaction_enable,
            read_only: self.read_only,
            delete_after_close: self.delete_after_close,
            delete_after_open: self.delete_after_open,
        }
    }

    fn base(backend: Backend) -> (r: Self)
        ensures
            r.options() == plain_options(backend),
    {
        DBMaker {
            backend,
            transaction_enable: false,
            read_only: false,
            delete_after_close: false,
            delete_after_open: false,
        }
    }

    /// A database in memory.
    pub fn memory_db() -> (r: Self)
        ensures
            r.options() == plain_options(Backend::MemoryDirect),
    {
        Self::base(Backend::MemoryDirect)
    }

    /// A database in memory, in place.
    pub fn memory_direct_db() -> (r: Self)
        ensures
            r.options() == plain_options(Backend::MemoryDirect),
    {
        Self::base(Backend::MemoryDirect)
    }

    /// A database on the heap.
    pub fn heap_db() -> (r: Self)
        ensures
            r.options() == plain_options(Backend::Heap),
    {
        Self::base(Backend::Heap)
    }

    /// A database in byte arrays.
    pub fn memory_byte_array_db() -> (r: Self)
        ensures
            r.options() == plain_options(Backend::ByteArray),
    {
        Self::base(Backend::ByteArray)
    }

    /// A database in a file.
    pub fn file_db(path: String) -> (r: Self)
        ensures
            r.options() == plain_options(Backend::File(path)),
    {
        Self::base(Backend::File(path))
    }

    /// Changes are kept apart until they are committed. For a database in a file only.
    pub fn transaction_enable(self) -> (r: Self)
        ensures
            r.options() == (Options { transactional: true, ..self.options() }),
    {
        let mut r = self;
        r.transaction_enable = true;
        r
    }

    /// Nothing can be changed.
    pub fn read_only(self) -> (r: Self)
        ensures
            r.options() == (Options { read_only: true, ..self.options() }),
    {
        let mut r = self;
        r.read_only = true;
        r
    }

    /// The file goes when the database is closed.
    pub fn file_delete_after_close(self) -> (r: Self)
        ensures
            r.options() == (Options { delete_after_close: true, ..self.options() }),
    {
        let mut r = self;
        r.delete_after_close = true;
        r
    }

    /// The file goes once the database is open.
    pub fn file_delete_after_open(self) -> (r: Self)
        ensures
            r.options() == (Options { delete_after_open: true, ..self.options() }),
    {
        let mut r = self;
        r.delete_after_open = true;
        r
    }

    /// Accepted without effect.
    pub fn file_mmap_enable(self) -> (r: Self)
        ensures
            r == self,
    {
        self
    }

    /// Accepted without effect.
    pub fn file_mmap_enable_if_supported(self) -> (r: Self)
        ensures
            r == self,
    {
        self
    }

    /// Accepted without effect.
    pub fn executor_enable(self) -> (r: Self)
        ensures
            r == self,
    {
        self
    }

    /// Accepted without effect.
    pub fn cleaner_hack_enable(self) -> (r: Self)
        ensures
            r == self,
    {
        self
    }

    /// Accepted without effect.
    pub fn file_channel_enable(self) -> (r: Self)
        ensures
            r == self,
    {
        self
    }

    /// Accepted without effect.
    pub fn checksum_store_enable(self) -> (r: Self)
        ensures
            r == self,
    {
        self
    }

    /// Accepted without effect.
    pub fn close_on_jvm_shutdown(self) -> (r: Self)
        ensures
            r == self,
    {
        self
    }

    /// Accepted without effect.
    pub fn close_on_jvm_shutdown_weak_reference(self) -> (r: Self)
        ensures
            r == self,
    {
        self
    }

    /// Refuses options that cannot be had together.
    pub fn validate(&self) -> (r: Result<()>)
        ensures
            options_ok(self.options()) ==> r is Ok,
            !options_ok(self.options()) ==> (r matches Err(e) && e is WrongConfiguration),
    {
        if self.read_only && self.transaction_enable {
            return Err(
                DbError::wrong_config(
                    String::from_str("readOnly and transactionEnable are mutually exclusive"),
                ),
            );
        }
        let is_file = matches!(self.backend, Backend::File(_));
        if self.transaction_enable && !is_file {
            return Err(
                DbError::wrong_config(String::from_str("transactionEnable requires a file DB")),
            );
        }
        if self.delete_after_open && !is_file {
            return Err(
                DbError::wrong_config(String::from_str("fileDeleteAfterOpen requires a file DB")),
            );
        }
        if self.delete_after_close && !is_file {
            return Err(
                DbError::wrong_config(String::from_str("fileDeleteAfterClose requires a file DB")),
            );
        }
        if self.delete_after_open && self.transaction_enable {
            return Err(
                DbError::wrong_config(
                    String::from_str(
                        "fileDeleteAfterOpen is incompatible with transactionEnable (WAL)",
                    ),
                ),
            );
        }
        Ok(())
    }

    /// The file that holds the records.
    pub fn file_path(&self) -> (r: Option<String>)
        ensures
            match r {
                Some(p) => self.options().backend matches Backend::File(q) && q@ == p@,
                None => !(self.options().backend is File),
            },
    {
        match &self.backend {
            Backend::File(p) => Some(p.clone()),
            _ => None,
        }
    }

    /// The file that has to go once the database is open.
    pub fn delete_after_open_path(&self) -> (r: Option<String>)
        ensures
            match r {
                Some(p) => self.options().delete_after_open
                    && (self.options().backend matches Backend::File(
                    q,
                ) && q@ == p@),
                None => !self.options().delete_after_open || !(self.options().backend is File),
            },
    {
        if self.delete_after_open {
            self.file_path()
        } else {
            None
        }
    }

    /// Whether the store of a file has to be transactional.
    pub fn is_transactional(&self) -> (r: bool)
        ensures
            r == self.options().transactional,
    {
        self.transaction_enable
    }

    /// Opens a database over the records of a store: those of the file for a database in
    /// a file, and none for one in memory. A store that is transactional where the options
    /// are not, or the other way round, is refused.
    pub fn make_over(self, records: StoreOnHeap) -> (r: Result<DB<ConfiguredStore>>)
        ensures
            !options_ok(self.options()) || self.options().transactional != records.state().tx ==> (
            r matches Err(e) && e is WrongConfiguration),
            r matches Ok(db) ==> {
                &&& db.wf()
                &&& !db.is_shut()
                &&& db.state().kind == kind_asked(self.options())
                &&& db.state().tx == self.options().transactional
                &&& db.files().map_values(|p: String| p@) == files_of(self.options())
            },
            options_ok(self.options()) && self.options().transactional == records.state().tx
                ==> exists|b: StoreState|
                #[trigger] load_post(
                    configured_state(self.options(), records.state()),
                    b,
                    DB::<ConfiguredStore>::opened(r),
                    unit(r),
                ) && (r matches Ok(db) ==> db.state() == b),
    {
        match self.validate() {
            Ok(_) => {},
            Err(e) => {
                return Err(e);
            },
        }
        if self.transaction_enable != records.is_tx() {
            return Err(
                DbError::wrong_config(
                    String::from_str("transactionEnable and the store do not agree"),
                ),
            );
        }
        let mut cleanup: Vec<String> = Vec::new();
        if self.delete_after_close {
            match self.file_path() {
                Some(p) => {
                    cleanup.push(p);
                },
                None => {},
            }
        }
        let ghost o = self.options();
        let store = match self.backend {
            Backend::Heap => if self.read_only {
                ConfiguredStore::ReadOnlyHeap(StoreReadOnlyWrapper::new(records))
            } else {
                ConfiguredStore::Heap(records)
            },
            Backend::ByteArray => if self.read_only {
                ConfiguredStore::ReadOnlyByteArray(StoreReadOnlyWrapper::new(records))
            } else {
                ConfiguredStore::ByteArray(records)
            },
            Backend::MemoryDirect => if self.read_only {
                ConfiguredStore::ReadOnlyDirect(StoreReadOnlyWrapper::new(records))
            } else {
                ConfiguredStore::Direct(records)
            },
            Backend::File(_) => if self.transaction_enable {
                ConfiguredStore::Wal(records)
            } else if self.read_only {
                ConfiguredStore::ReadOnlyDirect(StoreReadOnlyWrapper::new(records))
            } else {
                ConfiguredStore::Direct(records)
            },
        };
        proof {
            assert(store.state() == configured_state(o, records.state()));
            assert(cleanup@.map_values(|p: String| p@) =~= files_of(o));
        }
        DB::with_cleanup(store, cleanup)
    }

    /// Opens a database in memory. One in a file is made over the records of its file.
    pub fn make(self) -> (r: Result<DB<ConfiguredStore>>)
        ensures
            ({
                let o = self.options();
                !options_ok(o) || o.read_only || o.backend is File ==> (r matches Err(e)
                    && e is WrongConfiguration)
            }),
            options_ok(self.options()) && !self.options().read_only && !(
            self.options().backend is File) ==> (r matches Ok(db) && {
                &&& db.wf()
                &&& !db.is_shut()
                &&& db.names() == crate::db::catalog::Names::empty()
                &&& db.state().records == crate::db::db::blank()
                &&& db.state().readable && db.state().writable
                &&& db.state().room + 1 >= max_slots()
                &&& db.state().kind == kind_asked(self.options())
                &&& !db.state().tx
                &&& db.files().len() == 0
            }),
    {
        match self.validate() {
            Ok(_) => {},
            Err(e) => {
                return Err(e);
            },
        }
        if matches!(self.backend, Backend::File(_)) {
            return Err(
                DbError::wrong_config(
                    String::from_str("a file DB is made over the records of its file"),
                ),
            );
        }
        let ghost o = self.options();
        let r = self.make_over(StoreOnHeap::new());
        proof {
            assert(max_slots() > 0);
            if r is Ok {
                assert(r.unwrap().files().map_values(|p: String| p@).len() == files_of(o).len());
            }
        }
        r
    }
}

/// A database that was made over an empty store of a kind.
pub open spec fn made_blank<S: Store>(kind: StoreKind, r: Result<DB<S>>) -> bool {
    r matches Ok(db) && {
        &&& db.wf()
        &&& !db.is_shut()
        &&& db.names() == crate::db::catalog::Names::empty()
        &&& db.state().records == crate::db::db::blank()
        &&& db.state().readable && db.state().writable
        &&& db.state().room + 1 >= max_slots()
        &&& db.state().kind == kind
        &&& !db.state().tx
        &&& db.files() == Seq::<String>::empty()
    }
}

impl DB<StoreOnHeap> {
    /// A new database on the heap.
    pub fn make_heap() -> (r: Result<Self>)
        ensures
            made_blank(StoreKind::Heap, r),
    {
        DB::new(StoreOnHeap::new())
    }
}

impl DB<ConfiguredStore> {
    /// A new database in byte arrays.
    pub fn make_byte_array() -> (r: Result<Self>)
        ensures
            made_blank(StoreKind::ByteArray, r),
    {
        DB::new(ConfiguredStore::ByteArray(StoreOnHeap::new()))
    }

    /// A new database in memory.
    pub fn make_memory_direct() -> (r: Result<Self>)
        ensures
            made_blank(StoreKind::Direct, r),
    {
        DB::new(ConfiguredStore::Direct(StoreOnHeap::new()))
    }
}

/// Options that stand against each other are refused, whatever the others are: a log that
/// is read-only, a log or a file to delete without a file, a log whose file goes at once.
/// Nothing else is refused.
pub proof fn law_conflicting_options(o: Options)
    ensures
        o.read_only && o.transactional ==> !options_ok(o),
        !(o.backend is File) && (o.transactional || o.delete_after_open || o.delete_after_close)
            ==> !options_ok(o),
        o.delete_after_open && o.transactional ==> !options_ok(o),
        !o.transactional && !o.delete_after_open && !o.delete_after_close ==> options_ok(o),
        o.backend is File && !o.transactional ==> options_ok(o),
        o.backend is File && !o.read_only && !o.delete_after_open ==> options_ok(o),
        options_ok(plain_options(o.backend)),
{
}

/// Each backend has its kind of store, and a read-only one of its own; only a transactional
/// database has a log.
pub proof fn law_kinds_of_store(o: Options)
    requires
        options_ok(o),
    ensures
        kind_asked(o) == StoreKind::Wal <==> o.transactional,
        !o.transactional && !o.read_only ==> kind_asked(o) == match o.backend {
            Backend::Heap => StoreKind::Heap,
            Backend::ByteArray => StoreKind::ByteArray,
            Backend::MemoryDirect => StoreKind::Direct,
            Backend::File(_) => StoreKind::Direct,
        },
        o.read_only ==> kind_asked(o) == crate::store::guarded_kind(
            kind_asked(Options { read_only: false, ..o }),
        ) && kind_asked(o) != kind_asked(Options { read_only: false, ..o }),
{
}

/// What options make of a store: the records stay, a read-only database cannot be written,
/// any other can be written as its store can, and only a transactional one rolls back.
pub proof fn law_configured_stores(o: Options, st: StoreState)
    requires
        options_ok(o),
        o.transactional == st.tx,
    ensures
        ({
            let c = configured_state(o, st);
            &&& c.records == st.records
            &&& c.kind == kind_asked(o)
            &&& c.tx == o.transactional
            &&& c.closed == st.closed
            &&& c.readable == st.readable
            &&& o.read_only ==> c.read_only && !c.writable
            &&& !o.read_only ==> c.writable == st.writable && c.read_only == st.read_only
            &&& o.transactional ==> c.saved == st.saved
        }),
{
}

/// The file of a database goes with it exactly where that is asked for.
pub proof fn law_files_to_delete(o: Options, path: String)
    ensures
        o.backend == Backend::File(path) && o.delete_after_close ==> files_of(o) == seq![path@],
        !o.delete_after_close || !(o.backend is File) ==> files_of(o).len() == 0,
{
}

} // verus!
