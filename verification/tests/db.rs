use mapdb::btree::map::BTreeMap;
use mapdb::db::atomic::{NullableString, STRING_NULLABLE};
use mapdb::db::catalog::{NameCatalog, CATALOG_SER, RECID_CATALOG};
use mapdb::db::db::combine_close_errors;
use mapdb::db::{ConfiguredStore, DBMaker, DB};
use mapdb::error::DbError;
use mapdb::io::{DataOutput2, SliceInput};
use mapdb::queue::blocking::{Mode, PersistentBlockingQueue};
use mapdb::ser::{
    ByteArrayFormat, LongFormat, ObjectArrayFormat, Serializer, StringGroupFormat, StringSer, LONG,
};
use mapdb::store::{put_item, Store, StoreKind, StoreOnHeap};

type AnyDB = DB<ConfiguredStore>;

fn memory() -> AnyDB {
    DBMaker::memory_db().make().unwrap()
}

fn file() -> DBMaker {
    DBMaker::file_db("unused.db".to_string())
}

fn wal() -> DBMaker {
    file().transaction_enable()
}

/// The records of a database, to open them again.
fn records_of(mut db: AnyDB) -> StoreOnHeap {
    let left = ConfiguredStore::Heap(StoreOnHeap::new());
    match std::mem::replace(db.store_mut(), left) {
        ConfiguredStore::Heap(s) => s,
        ConfiguredStore::ByteArray(s) => s,
        ConfiguredStore::Direct(s) => s,
        ConfiguredStore::Wal(s) => s,
        _ => panic!("read-only"),
    }
}

/// What a transactional database holds for the next one that opens it.
fn committed(mut db: AnyDB) -> StoreOnHeap {
    db.rollback().unwrap();
    records_of(db)
}

fn sg() -> StringGroupFormat {
    StringGroupFormat
}

fn bytes_of(cat: &NameCatalog) -> Vec<u8> {
    let mut out = DataOutput2::new();
    CATALOG_SER.serialize(&mut out, cat);
    out.into_vec()
}

fn s(v: &str) -> String {
    v.to_string()
}

#[test]
fn catalog_at_recid_1() {
    assert_eq!(RECID_CATALOG, 1);
    let mut db = memory();
    assert!(db.get_name_catalog().unwrap().is_empty());
    db.close().unwrap();
}

#[test]
fn tree_map_round_trip() {
    let mut db = memory();
    let mut m = db.tree_map("t", LongFormat, sg()).create(&mut db).unwrap();
    for i in 0..100 {
        m.put(db.store_mut(), i, format!("v{i}")).unwrap();
    }
    assert_eq!(m.get(db.store(), &50).unwrap(), Some("v50".to_string()));
    assert_eq!(m.first_entry(db.store()).unwrap().map(|(k, _)| k), Some(0));
    assert_eq!(m.last_entry(db.store()).unwrap().map(|(k, _)| k), Some(99));
    assert!(db.name_exists("t").unwrap());
    assert_eq!(db.get_type("t").unwrap().as_deref(), Some("TreeMap"));
    db.close().unwrap();
}

#[test]
fn tree_set_add_through_view() {
    let mut db = memory();
    let mut ts = db.tree_set("ts", LongFormat).create(&mut db).unwrap();
    assert!(ts.add(db.store_mut(), 3).unwrap());
    assert!(ts.add(db.store_mut(), 1).unwrap());
    assert!(ts.add(db.store_mut(), 2).unwrap());
    assert!(!ts.add(db.store_mut(), 2).unwrap());
    assert_eq!(ts.first(db.store()).unwrap(), Some(1));
    assert_eq!(ts.last(db.store()).unwrap(), Some(3));
    assert_eq!(ts.size_long(db.store()).unwrap(), 3);
    assert!(ts.contains(db.store(), &2).unwrap());
    assert_eq!(db.get_type("ts").unwrap().as_deref(), Some("TreeSet"));
    db.close().unwrap();
}

#[test]
fn tree_set_navigation_surface() {
    let mut db = memory();
    let mut ts = db.tree_set("ts", LongFormat).create(&mut db).unwrap();
    for k in [10, 20, 30, 40, 50] {
        assert!(ts.add(db.store_mut(), k).unwrap());
    }
    assert_eq!(ts.lower(db.store(), &30).unwrap(), Some(20));
    assert_eq!(ts.floor(db.store(), &30).unwrap(), Some(30));
    assert_eq!(ts.floor(db.store(), &35).unwrap(), Some(30));
    assert_eq!(ts.ceiling(db.store(), &30).unwrap(), Some(30));
    assert_eq!(ts.ceiling(db.store(), &35).unwrap(), Some(40));
    assert_eq!(ts.higher(db.store(), &30).unwrap(), Some(40));
    assert_eq!(ts.lower(db.store(), &10).unwrap(), None);
    assert_eq!(ts.higher(db.store(), &50).unwrap(), None);
    assert_eq!(ts.sub_set(20, true, 40, false).to_vec(&ts, db.store()).unwrap(), vec![20, 30]);
    assert_eq!(ts.head_set(30, true).to_vec(&ts, db.store()).unwrap(), vec![10, 20, 30]);
    assert_eq!(ts.tail_set(30, false).to_vec(&ts, db.store()).unwrap(), vec![40, 50]);
    assert_eq!(ts.descending_to_vec(db.store()).unwrap(), vec![50, 40, 30, 20, 10]);
    let tail = ts.tail_set(30, true);
    assert_eq!(tail.to_vec(&ts, db.store()).unwrap(), vec![30, 40, 50]);
    assert!(ts.add(db.store_mut(), 45).unwrap());
    assert_eq!(tail.to_vec(&ts, db.store()).unwrap(), vec![30, 40, 45, 50]);
    assert_eq!(tail.first(&ts, db.store()).unwrap(), Some(30));
    assert_eq!(tail.ceiling(&ts, db.store(), &41).unwrap(), Some(45));
    assert!(tail.remove(&mut ts, db.store_mut(), &45).unwrap());
    assert!(!ts.contains(db.store(), &45).unwrap());
    let desc = ts.descending_set();
    assert_eq!(desc.first(&ts, db.store()).unwrap(), Some(50));
    assert_eq!(desc.poll_first(&mut ts, db.store_mut()).unwrap(), Some(50));
    assert!(!ts.contains(db.store(), &50).unwrap());
    assert!(!ts.head_set(25, false).contains(&ts, db.store(), &30).unwrap());
    assert_eq!(ts.poll_first(db.store_mut()).unwrap(), Some(10));
    assert_eq!(ts.poll_last(db.store_mut()).unwrap(), Some(40));
    assert_eq!(ts.to_vec(db.store()).unwrap(), vec![20, 30]);
    assert_eq!(ts.size_long(db.store()).unwrap(), 2);
    db.close().unwrap();
}

#[test]
fn tree_set_nested_and_descending_views() {
    let mut db = memory();
    let mut ts = db.tree_set("ts", LongFormat).create(&mut db).unwrap();
    for k in [10, 20, 30, 40, 50, 60, 70] {
        assert!(ts.add(db.store_mut(), k).unwrap());
    }

    let sub = ts.sub_set(20, true, 60, true);
    assert_eq!(sub.to_vec(&ts, db.store()).unwrap(), vec![20, 30, 40, 50, 60]);
    assert_eq!(
        sub.sub_set(&ts, 30, true, 50, false).to_vec(&ts, db.store()).unwrap(),
        vec![30, 40]
    );
    assert_eq!(
        sub.sub_set(&ts, 20, false, 60, false).to_vec(&ts, db.store()).unwrap(),
        vec![30, 40, 50]
    );
    assert_eq!(sub.head_set(&ts, 40, true).to_vec(&ts, db.store()).unwrap(), vec![20, 30, 40]);
    assert_eq!(sub.head_set(&ts, 40, false).to_vec(&ts, db.store()).unwrap(), vec![20, 30]);
    assert_eq!(sub.tail_set(&ts, 40, true).to_vec(&ts, db.store()).unwrap(), vec![40, 50, 60]);
    assert_eq!(sub.tail_set(&ts, 40, false).to_vec(&ts, db.store()).unwrap(), vec![50, 60]);

    let desc = ts.descending_set();
    assert_eq!(desc.to_vec(&ts, db.store()).unwrap(), vec![70, 60, 50, 40, 30, 20, 10]);
    assert_eq!(desc.first(&ts, db.store()).unwrap(), Some(70));
    assert_eq!(desc.last(&ts, db.store()).unwrap(), Some(10));
    assert_eq!(desc.lower(&ts, db.store(), &40).unwrap(), Some(50));
    assert_eq!(desc.floor(&ts, db.store(), &40).unwrap(), Some(40));
    assert_eq!(desc.ceiling(&ts, db.store(), &40).unwrap(), Some(40));
    assert_eq!(desc.higher(&ts, db.store(), &40).unwrap(), Some(30));
    assert_eq!(desc.lower(&ts, db.store(), &70).unwrap(), None);
    assert_eq!(desc.higher(&ts, db.store(), &10).unwrap(), None);

    let dsub = desc.sub_set(&ts, 60, true, 20, true);
    assert_eq!(dsub.to_vec(&ts, db.store()).unwrap(), vec![60, 50, 40, 30, 20]);
    assert_eq!(dsub.first(&ts, db.store()).unwrap(), Some(60));
    assert_eq!(dsub.head_set(&ts, 40, true).to_vec(&ts, db.store()).unwrap(), vec![60, 50, 40]);
    assert_eq!(dsub.tail_set(&ts, 40, false).to_vec(&ts, db.store()).unwrap(), vec![30, 20]);
    assert_eq!(dsub.lower(&ts, db.store(), &40).unwrap(), Some(50));
    assert_eq!(dsub.floor(&ts, db.store(), &40).unwrap(), Some(40));
    assert_eq!(dsub.ceiling(&ts, db.store(), &40).unwrap(), Some(40));
    assert_eq!(dsub.higher(&ts, db.store(), &40).unwrap(), Some(30));
    assert_eq!(dsub.lower(&ts, db.store(), &60).unwrap(), None);
    assert_eq!(dsub.higher(&ts, db.store(), &20).unwrap(), None);

    assert_eq!(dsub.poll_first(&mut ts, db.store_mut()).unwrap(), Some(60));
    assert_eq!(dsub.poll_last(&mut ts, db.store_mut()).unwrap(), Some(20));
    assert!(ts.contains(db.store(), &70).unwrap());
    assert!(ts.contains(db.store(), &10).unwrap());
    assert_eq!(ts.to_vec(db.store()).unwrap(), vec![10, 30, 40, 50, 70]);
    assert_eq!(desc.first(&ts, db.store()).unwrap(), Some(70));

    ts.sub_set(30, true, 50, true).clear(&mut ts, db.store_mut()).unwrap();
    assert!(!ts.contains(db.store(), &30).unwrap());
    assert!(!ts.contains(db.store(), &40).unwrap());
    assert!(!ts.contains(db.store(), &50).unwrap());
    assert!(ts.contains(db.store(), &10).unwrap());
    assert!(ts.contains(db.store(), &70).unwrap());
    assert_eq!(ts.to_vec(db.store()).unwrap(), vec![10, 70]);

    assert_eq!(desc.poll_first(&mut ts, db.store_mut()).unwrap(), Some(70));
    assert_eq!(desc.poll_last(&mut ts, db.store_mut()).unwrap(), Some(10));
    assert!(desc.first(&ts, db.store()).unwrap().is_none());
    assert!(ts.is_empty(db.store()).unwrap());

    db.close().unwrap();
}

#[test]
fn atomics_all_kinds() {
    let mut db = memory();
    let al = db.atomic_long_init("al", 10).create(&mut db).unwrap();
    assert_eq!(al.get(db.store()).unwrap(), 10);
    assert_eq!(al.increment_and_get(db.store_mut()).unwrap(), 11);
    assert!(al.compare_and_set(db.store_mut(), 11, 20).unwrap());
    assert!(!al.compare_and_set(db.store_mut(), 11, 30).unwrap());

    let ai = db.atomic_integer("ai").create(&mut db).unwrap();
    assert_eq!(ai.get(db.store()).unwrap(), 0);
    assert_eq!(ai.add_and_get(db.store_mut(), 5).unwrap(), 5);

    let ab = db.atomic_boolean_init("ab", true).create(&mut db).unwrap();
    assert!(ab.get(db.store()).unwrap());
    ab.set(db.store_mut(), false).unwrap();
    assert!(!ab.get(db.store()).unwrap());

    let as_ = db.atomic_string("as").create(&mut db).unwrap();
    assert_eq!(as_.get(db.store()).unwrap(), None);
    as_.set_str(db.store_mut(), "hi").unwrap();
    assert_eq!(as_.get(db.store()).unwrap(), Some("hi".to_string()));

    let av = db
        .atomic_var("av", StringSer, Some("init".to_string()))
        .create(&mut db)
        .unwrap();
    assert_eq!(av.get(db.store()).unwrap(), Some("init".to_string()));
    av.set_value(db.store_mut(), &"next".to_string()).unwrap();
    assert_eq!(av.get(db.store()).unwrap(), Some("next".to_string()));
    db.close().unwrap();
}

#[test]
fn numeric_atomics_int_long_value() {
    let mut db = memory();
    let v = db.atomic_long_init("long", 42).create(&mut db).unwrap();
    let i = db.atomic_integer_init("int", 7).create(&mut db).unwrap();
    assert_eq!(v.int_value(db.store()).unwrap(), 42);
    assert_eq!(i.long_value(db.store()).unwrap(), 7);
    db.compact().unwrap();
    db.close().unwrap();
}

#[test]
fn persist_across_reopen_wal() {
    let records = {
        let mut db = wal().make_over(StoreOnHeap::new_tx()).unwrap();
        let mut t = db.tree_map("t", LongFormat, sg()).create(&mut db).unwrap();
        t.put(db.store_mut(), 7, "seven".to_string()).unwrap();
        db.atomic_long_init("counter", 99).create(&mut db).unwrap();
        db.commit().unwrap();
        committed(db)
    };
    let mut db = wal().make_over(records).unwrap();
    assert!(db.name_exists("t").unwrap());
    let t = db.tree_map("t", LongFormat, sg()).open(&db).unwrap();
    assert_eq!(t.get(db.store(), &7).unwrap(), Some("seven".to_string()));
    assert_eq!(db.atomic_long("counter").open(&db).unwrap().get(db.store()).unwrap(), 99);
    db.close().unwrap();
}

#[test]
fn create_or_open_returns_same_instance() {
    let mut db = memory();
    let mut a = db.tree_map("t", LongFormat, sg()).create_or_open(&mut db).unwrap();
    let b = db.tree_map("t", LongFormat, sg()).create_or_open(&mut db).unwrap();
    assert!(a.shares_state_with(&b));
    a.put(db.store_mut(), 1, s("one")).unwrap();
    assert_eq!(b.get(db.store(), &1).unwrap(), Some(s("one")));
    db.close().unwrap();
}

#[test]
fn create_twice_fails() {
    let mut db = memory();
    db.atomic_long("x").create(&mut db).unwrap();
    assert!(matches!(
        db.atomic_long("x").create(&mut db),
        Err(DbError::WrongConfiguration(_))
    ));
    db.close().unwrap();
}

#[test]
fn type_mismatch_fails() {
    let mut db = memory();
    db.atomic_long("x").create(&mut db).unwrap();
    assert!(matches!(
        db.tree_map("x", LongFormat, sg()).open(&db),
        Err(DbError::WrongConfiguration(_))
    ));
    db.close().unwrap();
}

#[test]
fn rename_and_delete() {
    let mut db = memory();
    let mut m = db.tree_map("old", LongFormat, sg()).create(&mut db).unwrap();
    m.put(db.store_mut(), 1, "a".to_string()).unwrap();
    db.rename("old", "new").unwrap();
    assert!(!db.name_exists("old").unwrap());
    assert!(db.name_exists("new").unwrap());
    let m2 = db.tree_map("new", LongFormat, sg()).open(&db).unwrap();
    assert_eq!(m2.get(db.store(), &1).unwrap(), Some("a".to_string()));

    assert!(db.delete("new").unwrap());
    assert!(!db.name_exists("new").unwrap());
    assert!(!db.delete("new").unwrap());
    db.close().unwrap();
}

#[test]
fn rollback_clears_cache_wal() {
    let mut db = wal().make_over(StoreOnHeap::new_tx()).unwrap();
    db.atomic_long_init("committed", 1).create(&mut db).unwrap();
    db.commit().unwrap();
    db.atomic_long_init("uncommitted", 2).create(&mut db).unwrap();
    assert!(db.name_exists("uncommitted").unwrap());
    db.rollback().unwrap();
    assert!(!db.name_exists("uncommitted").unwrap());
    assert!(db.name_exists("committed").unwrap());
    db.close().unwrap();
}

#[test]
fn rollback_unsupported_on_non_tx() {
    let mut db = memory();
    assert!(matches!(db.rollback(), Err(DbError::Unsupported(_))));
    db.close().unwrap();
}

#[test]
fn bad_name_rejected() {
    let mut db = memory();
    assert!(matches!(
        db.atomic_long("bad#name").create(&mut db),
        Err(DbError::WrongConfiguration(_))
    ));
    db.close().unwrap();
}

#[test]
fn transaction_enable_rejected_for_memory() {
    assert!(matches!(
        DBMaker::memory_db().transaction_enable().make(),
        Err(DbError::WrongConfiguration(_))
    ));
}

#[test]
fn get_all_names() {
    let mut db = memory();
    db.atomic_long("a").create(&mut db).unwrap();
    db.atomic_long("b").create(&mut db).unwrap();
    assert_eq!(db.get_all_names().unwrap().len(), 2);
    db.close().unwrap();
}

#[test]
fn close_is_idempotent() {
    let mut db = memory();
    db.close().unwrap();
    db.close().unwrap();
    assert!(db.is_closed());
    assert!(matches!(
        db.atomic_long("x").create(&mut db),
        Err(DbError::StoreClosed)
    ));
}

#[test]
fn fresh_stores_initialize_with_empty_catalog() {
    let mut a = memory();
    assert!(a.get_name_catalog().unwrap().is_empty());
    assert!(a.get_all_names().unwrap().is_empty());
    a.close().unwrap();
    let mut b = DBMaker::heap_db().make().unwrap();
    assert!(b.get_name_catalog().unwrap().is_empty());
    b.close().unwrap();
    let mut c = DBMaker::memory_byte_array_db().make().unwrap();
    assert!(c.get_name_catalog().unwrap().is_empty());
    c.close().unwrap();
    let mut d = DBMaker::memory_direct_db().make().unwrap();
    assert!(d.get_name_catalog().unwrap().is_empty());
    d.close().unwrap();
}

#[test]
fn reopen_store_with_valid_catalog_works() {
    let records = {
        let mut db = wal().make_over(StoreOnHeap::new_tx()).unwrap();
        db.atomic_long_init("counter", 7).create(&mut db).unwrap();
        db.commit().unwrap();
        committed(db)
    };
    let mut db = wal().make_over(records).unwrap();
    assert!(db.name_exists("counter").unwrap());
    assert_eq!(db.atomic_long("counter").open(&db).unwrap().get(db.store()).unwrap(), 7);
    db.close().unwrap();
}

#[test]
fn db_over_polluted_store_recid1_fails_cleanly() {
    let mut raw = StoreOnHeap::new();
    let recid = put_item(&mut raw, &123456789i64, &LONG).unwrap();
    assert_eq!(recid, RECID_CATALOG);
    let res = DB::new(raw);
    assert!(matches!(
        res.err(),
        Some(DbError::WrongConfiguration(_)) | Some(DbError::DataCorruption(_))
    ));
}

#[test]
fn create_open_semantics_across_reopen() {
    let records = {
        let mut db = wal().make_over(StoreOnHeap::new_tx()).unwrap();
        assert!(matches!(
            db.atomic_long("x").open(&db),
            Err(DbError::WrongConfiguration(_))
        ));
        db.atomic_long_init("x", 1).create_or_open(&mut db).unwrap();
        assert!(matches!(
            db.atomic_long("x").create(&mut db),
            Err(DbError::WrongConfiguration(_))
        ));
        let x = db.atomic_long("x").create_or_open(&mut db).unwrap();
        assert_eq!(x.get(db.store()).unwrap(), 1);
        db.commit().unwrap();
        committed(db)
    };
    let mut db = wal().make_over(records).unwrap();
    assert!(matches!(
        db.atomic_long("x").create(&mut db),
        Err(DbError::WrongConfiguration(_))
    ));
    assert_eq!(db.atomic_long("x").open(&db).unwrap().get(db.store()).unwrap(), 1);
    db.close().unwrap();
}

#[test]
fn delete_frees_atomic_and_allows_recreate() {
    let mut db = memory();
    let c = db.atomic_long_init("c", 5).create(&mut db).unwrap();
    assert!(db.name_exists("c").unwrap());
    assert!(db.delete("c").unwrap());
    assert!(matches!(db.store().get(c.recid()), Err(DbError::GetVoid(_))));
    assert!(!db.name_exists("c").unwrap());
    assert_eq!(db.get_type("c").unwrap(), None);
    assert!(!db.delete("c").unwrap());
    let recreated = db.atomic_long_init("c", 42).create(&mut db).unwrap();
    assert_eq!(recreated.get(db.store()).unwrap(), 42);
    db.close().unwrap();
}

#[test]
fn rename_onto_existing_and_nonexistent_throw() {
    let mut db = memory();
    db.atomic_long("a").create(&mut db).unwrap();
    db.atomic_long("b").create(&mut db).unwrap();
    assert!(matches!(db.rename("a", "b"), Err(DbError::WrongConfiguration(_))));
    assert!(db.name_exists("a").unwrap() && db.name_exists("b").unwrap());
    assert!(matches!(db.rename("nope", "x"), Err(DbError::WrongConfiguration(_))));
    db.close().unwrap();
}

#[test]
fn many_named_atomics_survive_reopen() {
    let n = 200;
    let records = {
        let mut db = wal().make_over(StoreOnHeap::new_tx()).unwrap();
        for i in 0..n {
            db.atomic_long_init(&format!("al{i}"), i as i64).create(&mut db).unwrap();
        }
        db.commit().unwrap();
        committed(db)
    };
    let mut db = wal().make_over(records).unwrap();
    assert_eq!(db.get_all_names().unwrap().len(), n);
    for i in 0..n {
        let a = db.atomic_long(&format!("al{i}")).open(&db).unwrap();
        assert_eq!(a.get(db.store()).unwrap(), i as i64);
    }
    db.close().unwrap();
}

#[test]
fn tree_map_byte_array_keys_and_values_round_trip() {
    let records = {
        let mut db = wal().make_over(StoreOnHeap::new_tx()).unwrap();
        let mut m = db.tree_map("b", ByteArrayFormat, ByteArrayFormat).create(&mut db).unwrap();
        for i in 0..200u32 {
            m.put(db.store_mut(), vec![(i >> 8) as u8, i as u8], vec![i as u8, 99]).unwrap();
        }
        assert_eq!(m.get(db.store(), &vec![0, 50]).unwrap(), Some(vec![50, 99]));
        db.commit().unwrap();
        committed(db)
    };
    let mut db = wal().make_over(records).unwrap();
    let m = db.tree_map("b", ByteArrayFormat, ByteArrayFormat).open(&db).unwrap();
    for i in 0..200u32 {
        assert_eq!(
            m.get(db.store(), &vec![(i >> 8) as u8, i as u8]).unwrap(),
            Some(vec![i as u8, 99])
        );
    }
    assert_eq!(m.first_entry(db.store()).unwrap().map(|(k, _)| k), Some(vec![0, 0]));
    db.close().unwrap();
}

#[test]
fn tree_set_deep_splits_survive_reopen() {
    let n: i64 = 600;
    let records = {
        let mut db = wal().make_over(StoreOnHeap::new_tx()).unwrap();
        let mut ts = db.tree_set("ts", LongFormat).max_node_size(8).create(&mut db).unwrap();
        for i in 0..n {
            ts.add(db.store_mut(), (i * 37) % n).unwrap();
        }
        assert_eq!(ts.size_long(db.store()).unwrap(), n as u64);
        assert!(!ts.add(db.store_mut(), 0).unwrap());
        assert!(ts.add(db.store_mut(), n).unwrap());
        ts.remove(db.store_mut(), &n).unwrap();
        assert_eq!(ts.first(db.store()).unwrap(), Some(0));
        assert_eq!(ts.last(db.store()).unwrap(), Some(n - 1));
        assert!(ts.remove(db.store_mut(), &123).unwrap());
        assert!(!ts.contains(db.store(), &123).unwrap());
        assert_eq!(ts.size_long(db.store()).unwrap(), (n - 1) as u64);
        db.commit().unwrap();
        committed(db)
    };
    let mut db = wal().make_over(records).unwrap();
    let ts = db.tree_set("ts", LongFormat).open(&db).unwrap();
    assert_eq!(ts.size_long(db.store()).unwrap(), (n - 1) as u64);
    let v = ts.to_vec(db.store()).unwrap();
    let mut prev = i64::MIN;
    for x in v {
        assert!(x > prev);
        prev = x;
    }
    db.close().unwrap();
}

#[test]
fn read_only_reopen_reads_but_rejects_writes() {
    let records = {
        let mut db = file().make_over(StoreOnHeap::new()).unwrap();
        let mut m = db.tree_map("m", LongFormat, sg()).create(&mut db).unwrap();
        m.put(db.store_mut(), 1, "one".to_string()).unwrap();
        m.put(db.store_mut(), 2, "two".to_string()).unwrap();
        db.commit().unwrap();
        records_of(db)
    };
    let mut ro = file().read_only().make_over(records).unwrap();
    let mut rm = ro.tree_map("m", LongFormat, sg()).open(&ro).unwrap();
    assert_eq!(rm.get(ro.store(), &1).unwrap(), Some("one".to_string()));
    assert_eq!(rm.get(ro.store(), &2).unwrap(), Some("two".to_string()));
    assert!(matches!(
        rm.put(ro.store_mut(), 3, "three".to_string()),
        Err(DbError::ReadOnly)
    ));
    ro.commit().unwrap();
    ro.close().unwrap();
}

#[test]
fn read_only_plus_transaction_enable_rejected() {
    assert!(matches!(
        file().read_only().transaction_enable().make(),
        Err(DbError::WrongConfiguration(_))
    ));
    assert!(matches!(
        file().transaction_enable().read_only().make(),
        Err(DbError::WrongConfiguration(_))
    ));
}

#[test]
fn read_only_on_empty_store_fails_cleanly() {
    let err = file().read_only().make_over(StoreOnHeap::new()).err().unwrap();
    assert!(matches!(err, DbError::WrongConfiguration(m) if m.to_lowercase().contains("read")));
}

#[test]
fn read_only_on_empty_memory_store_fails_cleanly() {
    let err = DBMaker::memory_db().read_only().make().err().unwrap();
    assert!(matches!(err, DbError::WrongConfiguration(m) if m.to_lowercase().contains("read")));
}

#[test]
fn file_mmap_enable_is_harmless_noop() {
    let records = {
        let maker = file().file_mmap_enable().file_mmap_enable_if_supported();
        let mut db = maker.make_over(StoreOnHeap::new()).unwrap();
        let mut m = db.tree_map("m", LongFormat, sg()).create(&mut db).unwrap();
        m.put(db.store_mut(), 1, "x".to_string()).unwrap();
        db.commit().unwrap();
        records_of(db)
    };
    let mut db = file().file_mmap_enable().make_over(records).unwrap();
    let m = db.tree_map("m", LongFormat, sg()).open(&db).unwrap();
    assert_eq!(m.get(db.store(), &1).unwrap(), Some("x".to_string()));
    db.close().unwrap();
}

#[test]
fn file_delete_after_open_requires_file_db() {
    assert!(matches!(
        DBMaker::memory_db().file_delete_after_open().make(),
        Err(DbError::WrongConfiguration(_))
    ));
}

#[test]
fn file_delete_after_open_rejects_wal() {
    assert!(matches!(
        file().transaction_enable().file_delete_after_open().make(),
        Err(DbError::WrongConfiguration(_))
    ));
}

#[test]
fn file_delete_after_close_rejected_on_memory_backend() {
    assert!(matches!(
        DBMaker::memory_db().file_delete_after_close().make(),
        Err(DbError::WrongConfiguration(_))
    ));
}

#[test]
fn a_file_database_needs_its_records() {
    assert!(matches!(file().make(), Err(DbError::WrongConfiguration(_))));
    assert!(matches!(wal().make(), Err(DbError::WrongConfiguration(_))));
}

#[test]
fn files_to_delete_are_named() {
    let open = file().file_delete_after_open();
    assert_eq!(open.delete_after_open_path(), Some(s("unused.db")));
    assert!(open.make_over(StoreOnHeap::new()).unwrap().cleanup_paths().is_empty());
    let close = file().file_delete_after_close();
    assert_eq!(close.delete_after_open_path(), None);
    assert_eq!(close.file_path(), Some(s("unused.db")));
    assert_eq!(close.make_over(StoreOnHeap::new()).unwrap().cleanup_paths(), &vec![s("unused.db")]);
    assert_eq!(DBMaker::heap_db().file_path(), None);
}

#[test]
fn legacy_maker_aliases_compose() {
    let mut db = DBMaker::memory_db()
        .executor_enable()
        .cleaner_hack_enable()
        .file_channel_enable()
        .checksum_store_enable()
        .close_on_jvm_shutdown()
        .close_on_jvm_shutdown_weak_reference()
        .make()
        .unwrap();
    db.close().unwrap();
}

#[test]
fn queue_families_persist_and_dispatch() {
    let records = {
        let mut db = wal().make_over(StoreOnHeap::new_tx()).unwrap();
        let fifo = db.queue("fifo", StringSer).create(&mut db).unwrap();
        fifo.add(db.store_mut(), s("first")).unwrap();
        let stack = db.stack("stack", StringSer).create(&mut db).unwrap();
        stack.add(db.store_mut(), s("top")).unwrap();
        let circular = db.circular_queue("circular", StringSer, 2).create(&mut db).unwrap();
        circular.add(db.store_mut(), s("a")).unwrap();
        circular.add(db.store_mut(), s("b")).unwrap();
        circular.add(db.store_mut(), s("c")).unwrap();
        db.commit().unwrap();
        committed(db)
    };
    let mut db = wal().make_over(records).unwrap();
    let fifo = db.queue("fifo", StringSer).open(&db).unwrap();
    assert_eq!(fifo.poll(db.store_mut()).unwrap(), Some(s("first")));
    let stack = db.stack("stack", StringSer).open(&db).unwrap();
    assert_eq!(stack.poll(db.store_mut()).unwrap(), Some(s("top")));
    let circular = db.circular_queue("circular", StringSer, 2).open(&db).unwrap();
    assert_eq!(circular.poll(db.store_mut()).unwrap(), Some(s("b")));
    assert_eq!(circular.poll(db.store_mut()).unwrap(), Some(s("c")));
    db.close().unwrap();
}

#[test]
fn counter_tracks_insert_remove_replace_and_clear() {
    let mut db = memory();
    let mut m =
        db.tree_map("c", LongFormat, sg()).counter_enable().create(&mut db).unwrap();
    assert!(m.counter_recid() > 0);
    for i in 0..100 {
        assert_eq!(m.put(db.store_mut(), i, format!("v{i}")).unwrap(), None);
        assert_eq!(m.size_long(db.store()).unwrap(), (i + 1) as u64);
    }
    assert_eq!(m.put(db.store_mut(), 0, s("changed")).unwrap(), Some(s("v0")));
    assert_eq!(m.size_long(db.store()).unwrap(), 100);
    assert_eq!(m.replace(db.store_mut(), &0, s("again")).unwrap(), Some(s("changed")));
    assert_eq!(m.size_long(db.store()).unwrap(), 100);
    assert_eq!(m.replace(db.store_mut(), &1000, s("x")).unwrap(), None);
    assert_eq!(m.size_long(db.store()).unwrap(), 100);
    for i in 0..40 {
        assert!(m.remove(db.store_mut(), &i).unwrap().is_some());
        assert_eq!(m.size_long(db.store()).unwrap(), (100 - (i + 1)) as u64);
    }
    assert_eq!(m.remove(db.store_mut(), &0).unwrap(), None);
    assert_eq!(m.size_long(db.store()).unwrap(), 60);
    m.clear(db.store_mut()).unwrap();
    assert_eq!(m.size_long(db.store()).unwrap(), 0);
    db.close().unwrap();
}

#[test]
fn counter_persists_across_reopen() {
    let stored;
    let records = {
        let mut db = wal().make_over(StoreOnHeap::new_tx()).unwrap();
        let mut m =
            db.tree_map("t", LongFormat, sg()).counter_enable().create(&mut db).unwrap();
        for i in 0..500 {
            m.put(db.store_mut(), i, format!("v{i}")).unwrap();
        }
        assert_eq!(m.size_long(db.store()).unwrap(), 500);
        stored = db.get_name_catalog().unwrap().get("t#counterRecid").unwrap().clone();
        assert!(stored.parse::<u64>().unwrap() > 0);
        db.commit().unwrap();
        committed(db)
    };
    let mut db = wal().make_over(records).unwrap();
    assert_eq!(db.get_name_catalog().unwrap().get("t#counterRecid"), Some(&stored));
    let mut re = db.tree_map("t", LongFormat, sg()).open(&db).unwrap();
    assert_eq!(re.counter_recid().to_string(), stored);
    assert_eq!(re.size_long(db.store()).unwrap(), 500);
    for i in 500..600 {
        re.put(db.store_mut(), i, format!("v{i}")).unwrap();
    }
    assert_eq!(re.size_long(db.store()).unwrap(), 600);
    db.commit().unwrap();
    db.close().unwrap();
}

#[test]
fn plain_tree_map_reopens_without_counter() {
    let records = {
        let mut db = wal().make_over(StoreOnHeap::new_tx()).unwrap();
        let mut m = db.tree_map("p", LongFormat, sg()).create(&mut db).unwrap();
        for i in 0..300 {
            m.put(db.store_mut(), i, format!("v{i}")).unwrap();
        }
        assert_eq!(m.counter_recid(), 0);
        assert_eq!(
            db.get_name_catalog().unwrap().get("p#counterRecid").map(String::as_str),
            Some("0")
        );
        db.commit().unwrap();
        committed(db)
    };
    let mut db = wal().make_over(records).unwrap();
    let m = db.tree_map("p", LongFormat, sg()).open(&db).unwrap();
    assert_eq!(m.counter_recid(), 0);
    assert_eq!(m.size_long(db.store()).unwrap(), 300);
    assert_eq!(m.get(db.store(), &42).unwrap(), Some(s("v42")));
    db.close().unwrap();
}

#[test]
fn tree_map_create_from_iterator_with_counter() {
    let mut db = memory();
    let n = 2000i64;
    let entries: Vec<(i64, String)> = (0..n).map(|i| (i, format!("v{i}"))).collect();
    let mut m = db
        .tree_map("bulk", LongFormat, sg())
        .counter_enable()
        .create_from(&mut db, entries)
        .unwrap();
    assert!(m.counter_recid() > 0);
    assert_eq!(m.size_long(db.store()).unwrap(), n as u64);
    assert_eq!(m.get(db.store(), &0).unwrap(), Some(s("v0")));
    assert_eq!(m.get(db.store(), &1999).unwrap(), Some(s("v1999")));
    assert_eq!(db.get_type("bulk").unwrap().as_deref(), Some("TreeMap"));
    assert_eq!(m.put(db.store_mut(), n, s("new")).unwrap(), None);
    assert_eq!(m.size_long(db.store()).unwrap(), (n + 1) as u64);
    db.close().unwrap();
}

#[test]
fn create_from_existing_name_and_unsorted_throw() {
    let mut db = memory();
    db.tree_map("dup", LongFormat, sg()).create(&mut db).unwrap();
    assert!(matches!(
        db.tree_map("dup", LongFormat, sg()).create_from(&mut db, vec![(1i64, s("a"))]),
        Err(DbError::WrongConfiguration(_))
    ));
    let bad = vec![(3i64, s("c")), (1, s("a")), (2, s("b"))];
    assert!(matches!(
        db.tree_map("us", LongFormat, sg()).create_from(&mut db, bad),
        Err(DbError::NotSorted)
    ));
    assert!(!db.name_exists("us").unwrap());
    db.close().unwrap();
}

#[test]
fn tree_set_counter_and_create_from() {
    let mut db = memory();
    let src: Vec<i64> = (0..1000).map(|i| i * 2).collect();
    let st = db
        .tree_set("bulkset", LongFormat)
        .counter_enable()
        .create_from(&mut db, src)
        .unwrap();
    assert_eq!(st.size_long(db.store()).unwrap(), 1000);
    assert_eq!(st.first(db.store()).unwrap(), Some(0));
    assert_eq!(st.last(db.store()).unwrap(), Some(1998));
    assert!(st.contains(db.store(), &500).unwrap());
    assert!(!st.contains(db.store(), &501).unwrap());
    assert_eq!(db.get_type("bulkset").unwrap().as_deref(), Some("TreeSet"));

    let bad = vec![5i64, 2];
    assert!(matches!(
        db.tree_set("badset", LongFormat).create_from(&mut db, bad),
        Err(DbError::NotSorted)
    ));
    assert!(!db.name_exists("badset").unwrap());
    db.close().unwrap();
}

#[test]
fn external_values_catalog_persistence() {
    let records = {
        let mut db = wal().make_over(StoreOnHeap::new_tx()).unwrap();
        let mut m = db
            .tree_map("tree", LongFormat, sg())
            .values_outside_nodes_enable()
            .counter_enable()
            .create(&mut db)
            .unwrap();
        m.put(db.store_mut(), 1, s("one")).unwrap();
        m.put(db.store_mut(), 2, s("two")).unwrap();
        assert!(!m.value_inline());
        assert_eq!(
            db.get_name_catalog().unwrap().get("tree#valueInline").map(String::as_str),
            Some("false")
        );
        db.commit().unwrap();
        committed(db)
    };
    let mut db = wal().make_over(records).unwrap();
    let m = db.tree_map("tree", LongFormat, sg()).open(&db).unwrap();
    assert!(!m.value_inline());
    assert_eq!(m.get(db.store(), &1).unwrap(), Some(s("one")));
    assert_eq!(m.size_long(db.store()).unwrap(), 2);
    db.close().unwrap();
}

#[test]
fn an_object_array_reopens_under_its_own_descriptor() {
    let records = {
        let mut db = wal().make_over(StoreOnHeap::new_tx()).unwrap();
        let mut m = db
            .tree_map("o", LongFormat, ObjectArrayFormat::new(StringSer))
            .create(&mut db)
            .unwrap();
        m.put(db.store_mut(), 1, "abcdefghij".repeat(100)).unwrap();
        db.commit().unwrap();
        committed(db)
    };
    let db = wal().make_over(records).unwrap();
    let m = db.tree_map("o", LongFormat, ObjectArrayFormat::new(StringSer)).open(&db).unwrap();
    assert_eq!(m.get(db.store(), &1).unwrap(), Some("abcdefghij".repeat(100)));
    assert!(matches!(
        db.tree_map("o", LongFormat, sg()).open(&db),
        Err(DbError::WrongConfiguration(_))
    ));
}

#[test]
fn wrong_descriptor_on_reopen_is_rejected() {
    let records = {
        let mut db = wal().make_over(StoreOnHeap::new_tx()).unwrap();
        db.tree_map("t", LongFormat, sg()).create(&mut db).unwrap();
        db.commit().unwrap();
        committed(db)
    };
    let mut db = wal().make_over(records).unwrap();
    assert!(matches!(
        db.tree_map("t", LongFormat, LongFormat).open(&db),
        Err(DbError::WrongConfiguration(_))
    ));
    db.close().unwrap();
}

fn recid1_bytes(store: &ConfiguredStore) -> Vec<u8> {
    store.get(RECID_CATALOG).unwrap().unwrap()
}

fn expect_catalog(pairs: &[(&str, &str)]) -> NameCatalog {
    let mut c = NameCatalog::new();
    for (k, v) in pairs {
        c.insert(k.to_string(), v.to_string());
    }
    c
}

fn assert_catalog_row(db: &AnyDB, expected: &[(&str, &str)]) {
    let cat = db.get_name_catalog().unwrap();
    let exp = expect_catalog(expected);
    assert_eq!(cat, exp, "catalog content mismatch");
    let bytes = recid1_bytes(db.store());
    let mut input = SliceInput::new(&bytes);
    let decoded = CATALOG_SER.deserialize(&mut input, Some(bytes.len())).unwrap();
    assert_eq!(decoded, exp, "recid-1 bytes decode mismatch");
}

#[test]
fn golden_atomic_long_row() {
    let mut db = DB::make_byte_array().unwrap();
    let a = db.atomic_long_init("al", 5).create(&mut db).unwrap();
    let recid = a.recid();
    assert_catalog_row(
        &db,
        &[("al#type", "AtomicLong"), ("al#recid", &recid.to_string())],
    );
    db.close().unwrap();
}

#[test]
fn golden_atomic_integer_boolean_string_rows() {
    let mut db = DB::make_byte_array().unwrap();
    let ai = db.atomic_integer_init("ai", 1).create(&mut db).unwrap();
    let ab = db.atomic_boolean_init("ab", true).create(&mut db).unwrap();
    let as_ = db.atomic_string("as").create(&mut db).unwrap();
    assert_catalog_row(
        &db,
        &[
            ("ai#type", "AtomicInteger"),
            ("ai#recid", &ai.recid().to_string()),
            ("ab#type", "AtomicBoolean"),
            ("ab#recid", &ab.recid().to_string()),
            ("as#type", "AtomicString"),
            ("as#recid", &as_.recid().to_string()),
        ],
    );
    db.close().unwrap();
}

#[test]
fn golden_atomic_var_row() {
    let mut db = DB::make_byte_array().unwrap();
    let av = db.atomic_var("av", StringSer, Some(s("x"))).create(&mut db).unwrap();
    assert_catalog_row(
        &db,
        &[
            ("av#type", "AtomicVar"),
            ("av#recid", &av.recid().to_string()),
            ("av#serializer", "STRING"),
        ],
    );
    db.close().unwrap();
}

#[test]
fn golden_tree_map_row() {
    let mut db = DB::make_byte_array().unwrap();
    let m = db.tree_map("t", LongFormat, sg()).max_node_size(32).create(&mut db).unwrap();
    assert_catalog_row(
        &db,
        &[
            ("t#type", "TreeMap"),
            ("t#keySerializer", "LONG"),
            ("t#valueSerializer", "STRING"),
            ("t#rootRecidRecid", &m.root_recid_recid().to_string()),
            ("t#maxNodeSize", "32"),
            ("t#counterRecid", "0"),
            ("t#valueInline", "true"),
        ],
    );
    db.close().unwrap();
}

#[test]
fn golden_tree_map_counter_and_external_rows() {
    let mut db = DB::make_byte_array().unwrap();
    let m = db
        .tree_map("t", LongFormat, sg())
        .max_node_size(16)
        .values_outside_nodes_enable()
        .counter_enable()
        .create(&mut db)
        .unwrap();
    assert_catalog_row(
        &db,
        &[
            ("t#type", "TreeMap"),
            ("t#keySerializer", "LONG"),
            ("t#valueSerializer", "STRING"),
            ("t#rootRecidRecid", &m.root_recid_recid().to_string()),
            ("t#maxNodeSize", "16"),
            ("t#counterRecid", &m.counter_recid().to_string()),
            ("t#valueInline", "false"),
        ],
    );
    db.close().unwrap();
}

#[test]
fn golden_tree_set_row() {
    let mut db = DB::make_byte_array().unwrap();
    let st = db.tree_set("s", LongFormat).max_node_size(32).create(&mut db).unwrap();
    assert_catalog_row(
        &db,
        &[
            ("s#type", "TreeSet"),
            ("s#serializer", "LONG"),
            ("s#rootRecidRecid", &st.root_recid_recid().to_string()),
            ("s#maxNodeSize", "32"),
            ("s#counterRecid", "0"),
        ],
    );
    db.close().unwrap();
}

#[test]
fn golden_queue_stack_circular_rows() {
    let mut db = DB::make_byte_array().unwrap();
    let q = db.queue("fifo", StringSer).create(&mut db).unwrap();
    let st = db.stack("lifo", StringSer).create(&mut db).unwrap();
    let c = db.circular_queue("circ", StringSer, 4).create(&mut db).unwrap();
    assert_catalog_row(
        &db,
        &[
            ("fifo#type", "Queue"),
            ("fifo#headerRecid", &q.header_recid().to_string()),
            ("fifo#serializer", "STRING"),
            ("lifo#type", "Stack"),
            ("lifo#headerRecid", &st.header_recid().to_string()),
            ("lifo#serializer", "STRING"),
            ("circ#type", "CircularQueue"),
            ("circ#headerRecid", &c.header_recid().to_string()),
            ("circ#serializer", "STRING"),
        ],
    );
    db.close().unwrap();
}

#[test]
fn legacy_absent_counter_and_value_inline_defaults() {
    let mut store = StoreOnHeap::new();
    let recid = store.put(bytes_of(&NameCatalog::new())).unwrap();
    assert_eq!(recid, RECID_CATALOG);
    let root_recid_recid = {
        let mut m = BTreeMap::create(&mut store, LongFormat, sg(), 32).unwrap();
        m.put(&mut store, 1, s("one")).unwrap();
        m.put(&mut store, 2, s("two")).unwrap();
        m.root_recid_recid()
    };
    let mut cat = NameCatalog::new();
    cat.insert("t#type".into(), "TreeMap".into());
    cat.insert("t#keySerializer".into(), "LONG".into());
    cat.insert("t#valueSerializer".into(), "STRING".into());
    cat.insert("t#rootRecidRecid".into(), root_recid_recid.to_string());
    cat.insert("t#maxNodeSize".into(), "32".into());
    store.update(RECID_CATALOG, Some(bytes_of(&cat))).unwrap();
    let mut db = DB::new(store).unwrap();
    let m = db.tree_map("t", LongFormat, sg()).open(&db).unwrap();
    assert_eq!(m.counter_recid(), 0);
    assert!(m.value_inline());
    assert_eq!(m.get(db.store(), &1).unwrap(), Some(s("one")));
    assert_eq!(m.get(db.store(), &2).unwrap(), Some(s("two")));
    db.close().unwrap();
}

#[test]
fn atomic_string_nullable_record_bytes() {
    let mut out = DataOutput2::new();
    STRING_NULLABLE.serialize(&mut out, &NullableString { value: None });
    assert_eq!(out.into_vec(), vec![0x00]);
    let mut out2 = DataOutput2::new();
    STRING_NULLABLE.serialize(&mut out2, &NullableString { value: Some("hi".to_string()) });
    assert_eq!(out2.into_vec(), vec![0x01, 0x82, b'h', b'i']);
}

fn assert_golden_bytes(cat: &NameCatalog, expected: &[u8]) {
    assert_eq!(bytes_of(cat), expected, "serialize != hand-derived bytes");
    let mut input = SliceInput::new(expected);
    let decoded = CATALOG_SER.deserialize(&mut input, Some(expected.len())).unwrap();
    assert_eq!(&decoded, cat, "decode(hand bytes) != catalog");
}

#[test]
fn golden_hand_derived_atomic_long_row_bytes() {
    let mut cat = NameCatalog::new();
    cat.insert("al#recid".into(), "7".into());
    cat.insert("al#type".into(), "AtomicLong".into());
    let expected: Vec<u8> = vec![
        0x4D, 0x44, 0x42, 0x43, 0x00, 0x00, 0x00, 0x01, 0x00, 0x82, 0x88, b'a', b'l', b'#', b'r',
        b'e', b'c', b'i', b'd', 0x81, b'7', 0x87, b'a', b'l', b'#', b't', b'y', b'p', b'e', 0x8A,
        b'A', b't', b'o', b'm', b'i', b'c', b'L', b'o', b'n', b'g',
    ];
    assert_golden_bytes(&cat, &expected);
}

#[test]
fn golden_hand_derived_atomic_var_row_bytes() {
    let mut cat = NameCatalog::new();
    cat.insert("v#recid".into(), "9".into());
    cat.insert("v#serializer".into(), "STRING".into());
    cat.insert("v#type".into(), "AtomicVar".into());
    let expected: Vec<u8> = vec![
        0x4D, 0x44, 0x42, 0x43, 0x00, 0x00, 0x00, 0x01, 0x00, 0x83, 0x87, b'v', b'#', b'r', b'e',
        b'c', b'i', b'd', 0x81, b'9', 0x8C, b'v', b'#', b's', b'e', b'r', b'i', b'a', b'l', b'i',
        b'z', b'e', b'r', 0x86, b'S', b'T', b'R', b'I', b'N', b'G', 0x86, b'v', b'#', b't', b'y',
        b'p', b'e', 0x89, b'A', b't', b'o', b'm', b'i', b'c', b'V', b'a', b'r',
    ];
    assert_golden_bytes(&cat, &expected);
}

fn treemap_catalog(key: &str, value: &str) -> NameCatalog {
    let mut c = NameCatalog::new();
    c.insert("t#type".into(), "TreeMap".into());
    c.insert("t#keySerializer".into(), "LONG".into());
    c.insert("t#valueSerializer".into(), "STRING".into());
    c.insert("t#rootRecidRecid".into(), "2".into());
    c.insert("t#maxNodeSize".into(), "32".into());
    if !key.is_empty() {
        c.insert(key.into(), value.into());
    }
    c
}

fn store_with(cat: &NameCatalog) -> StoreOnHeap {
    let mut store = StoreOnHeap::new();
    let recid = store.put(bytes_of(&NameCatalog::new())).unwrap();
    assert_eq!(recid, RECID_CATALOG);
    store.update(RECID_CATALOG, Some(bytes_of(cat))).unwrap();
    store
}

fn assert_db_new_rejects(cat: &NameCatalog) {
    let res = DB::new(store_with(cat));
    assert!(
        matches!(res, Err(DbError::DataCorruption(_))),
        "expected DataCorruption, got {:?}",
        res.err()
    );
}

#[test]
fn hostile_catalog_rejected_at_open() {
    assert!(DB::new(store_with(&treemap_catalog("", ""))).is_ok());
    assert_db_new_rejects(&treemap_catalog("t#maxNodeSize", "2"));
    assert_db_new_rejects(&treemap_catalog("t#bogus", "x"));
    assert_db_new_rejects(&treemap_catalog("t#type", "Frobnicator"));
    assert_db_new_rejects(&treemap_catalog("t#rootRecidRecid", "0"));
    assert_db_new_rejects(&treemap_catalog("t#rootRecidRecid", "abc"));
    assert_db_new_rejects(&treemap_catalog("t#valueInline", "maybe"));
}

#[test]
fn more_hostile_catalogs() {
    assert_db_new_rejects(&treemap_catalog("noseparator", "x"));
    assert_db_new_rejects(&treemap_catalog("u#maxNodeSize", "32"));
    assert_db_new_rejects(&treemap_catalog("t#keySerializer", "NOPE"));
    assert_db_new_rejects(&treemap_catalog("t#counterRecid", "-1"));
    assert_db_new_rejects(&treemap_catalog("t#rootRecidRecid", "18446744073709551616"));
    assert!(DB::new(store_with(&treemap_catalog("t#counterRecid", "0"))).is_ok());
    let mut missing = NameCatalog::new();
    missing.insert("q#type".into(), "Queue".into());
    missing.insert("q#serializer".into(), "STRING".into());
    assert_db_new_rejects(&missing);
}

#[test]
fn catalog_save_failure_leaves_in_memory_catalog_intact() {
    let records = {
        let mut db = file().make_over(StoreOnHeap::new()).unwrap();
        db.atomic_long_init("x", 1).create(&mut db).unwrap();
        db.commit().unwrap();
        records_of(db)
    };
    let mut db = file().read_only().make_over(records).unwrap();
    assert_eq!(db.get_type("x").unwrap().as_deref(), Some("AtomicLong"));
    assert!(db.rename("x", "y").is_err());
    assert_eq!(db.get_type("x").unwrap().as_deref(), Some("AtomicLong"));
    assert!(db.get_type("y").unwrap().is_none());
    db.close().unwrap();
}

#[test]
fn rollback_then_reopen_queue() {
    let mut db = wal().make_over(StoreOnHeap::new_tx()).unwrap();
    let q = db.queue("q", StringSer).create(&mut db).unwrap();
    q.add(db.store_mut(), s("committed")).unwrap();
    db.commit().unwrap();
    q.add(db.store_mut(), s("rolled-back")).unwrap();
    drop(q);
    db.rollback().unwrap();
    let q2 = db.queue("q", StringSer).open(&db).unwrap();
    assert_eq!(q2.poll(db.store_mut()).unwrap(), Some(s("committed")));
    assert_eq!(q2.poll(db.store_mut()).unwrap(), None);
    db.close().unwrap();
}

#[test]
fn deleting_a_map_keeps_its_records() {
    let mut db = memory();
    let mut map =
        db.tree_map("a", LongFormat, sg()).counter_enable().create(&mut db).unwrap();
    map.put(db.store_mut(), 1, s("x")).unwrap();
    assert!(db.delete("a").unwrap());
    map.clear(db.store_mut()).unwrap();
    assert_eq!(map.size_long(db.store()).unwrap(), 0);
    map.put(db.store_mut(), 3, s("z")).unwrap();
    assert_eq!(map.get(db.store(), &3).unwrap(), Some(s("z")));
    assert_eq!(map.size_long(db.store()).unwrap(), 1);
    assert!(!db.name_exists("a").unwrap());
}

#[test]
fn max_node_size_out_of_range_rejected_at_create() {
    let mut db = memory();
    let too_big = (1usize << 20) + 1;
    assert!(matches!(
        db.tree_map("m", LongFormat, sg()).max_node_size(too_big).create(&mut db),
        Err(DbError::WrongConfiguration(_))
    ));
    assert!(matches!(
        db.tree_set("s", LongFormat).max_node_size(too_big).create(&mut db),
        Err(DbError::WrongConfiguration(_))
    ));
    assert!(matches!(
        db.tree_map("lo", LongFormat, sg()).max_node_size(3).create(&mut db),
        Err(DbError::WrongConfiguration(_))
    ));
    assert!(!db.name_exists("m").unwrap());
    assert!(!db.name_exists("s").unwrap());
    assert!(!db.name_exists("lo").unwrap());
    db.tree_map("ok", LongFormat, sg()).max_node_size(1 << 20).create(&mut db).unwrap();
    db.close().unwrap();
}

#[test]
fn queue_open_rejects_header_mode_mismatch() {
    let mut store = StoreOnHeap::new();
    let recid = store.put(bytes_of(&NameCatalog::new())).unwrap();
    assert_eq!(recid, RECID_CATALOG);
    let q =
        PersistentBlockingQueue::create(&mut store, StringSer, Mode::Lifo, i64::MAX as u64).unwrap();
    let header = q.header_recid();
    drop(q);
    let mut cat = NameCatalog::new();
    cat.insert("s#type".into(), "Queue".into());
    cat.insert("s#headerRecid".into(), header.to_string());
    cat.insert("s#serializer".into(), "STRING".into());
    store.update(RECID_CATALOG, Some(bytes_of(&cat))).unwrap();
    let mut db = DB::new(store).unwrap();
    let res = db.queue("s", StringSer).open(&db);
    assert!(
        matches!(res, Err(DbError::DataCorruption(_))),
        "got {:?}",
        res.err()
    );
    db.close().unwrap();
}

#[test]
fn renaming_keeps_every_field_and_other_objects() {
    let mut db = DB::make_heap().unwrap();
    db.tree_map("a", LongFormat, sg()).create(&mut db).unwrap();
    db.atomic_long("ab").create(&mut db).unwrap();
    let before = db.get_name_catalog().unwrap();
    db.rename("a", "c").unwrap();
    let after = db.get_name_catalog().unwrap();
    assert_eq!(before.len(), after.len());
    assert_eq!(after.get("c#rootRecidRecid"), before.get("a#rootRecidRecid"));
    assert_eq!(after.get("ab#recid"), before.get("ab#recid"));
    assert_eq!(after.get("a#type"), None);
    assert_eq!(db.get_all_names().unwrap(), vec![s("ab"), s("c")]);
}

#[test]
fn a_close_error_outranks_a_cleanup_error() {
    assert!(combine_close_errors(Ok(()), Ok(())).is_ok());
    assert!(matches!(
        combine_close_errors(Ok(()), Err(DbError::NotSorted)),
        Err(DbError::NotSorted)
    ));
    assert!(matches!(
        combine_close_errors(Err(DbError::StoreClosed), Ok(())),
        Err(DbError::StoreClosed)
    ));
    assert!(combine_close_errors(Err(DbError::ReadOnly), Err(DbError::StoreFull)).is_err());
}

#[test]
fn an_append_extends_a_record() {
    let mut db = memory();
    let r = db.store_mut().put(vec![1, 2]).unwrap();
    db.store_mut().try_append(r, &[3]).unwrap();
    assert_eq!(db.store().get(r).unwrap(), Some(vec![1, 2, 3]));
    let absent = db.store_mut().try_append(r + 1, &[3]);
    assert!(matches!(absent, Err(DbError::GetVoid(x)) if x == r + 1));
}

#[test]
fn a_heap_store_does_not_append() {
    let mut db = DBMaker::heap_db().make().unwrap();
    let r = db.store_mut().put(vec![1, 2]).unwrap();
    assert!(matches!(db.store_mut().try_append(r, &[3]), Err(DbError::Unsupported(_))));
    assert_eq!(db.store().get(r).unwrap(), Some(vec![1, 2]));
}

#[test]
fn every_option_gives_its_kind_of_store() {
    let kind = |m: DBMaker| m.make().unwrap().store().kind();
    assert_eq!(kind(DBMaker::heap_db()), StoreKind::Heap);
    assert_eq!(kind(DBMaker::memory_byte_array_db()), StoreKind::ByteArray);
    assert_eq!(kind(DBMaker::memory_direct_db()), StoreKind::Direct);
    assert_eq!(DB::make_byte_array().unwrap().store().kind(), StoreKind::ByteArray);
    assert_eq!(DB::make_memory_direct().unwrap().store().kind(), StoreKind::Direct);
    let db = file().make_over(StoreOnHeap::new()).unwrap();
    assert_eq!(db.store().kind(), StoreKind::Direct);
    let db = file().read_only().make_over(records_of(db)).unwrap();
    assert_eq!(db.store().kind(), StoreKind::ReadOnlyDirect);
    let db = wal().make_over(StoreOnHeap::new_tx()).unwrap();
    assert_eq!(db.store().kind(), StoreKind::Wal);
    assert!(db.store().is_tx());
}

#[test]
fn a_log_needs_a_transactional_store_and_nothing_else_takes_one() {
    assert!(matches!(
        wal().make_over(StoreOnHeap::new()),
        Err(DbError::WrongConfiguration(_))
    ));
    assert!(matches!(
        file().make_over(StoreOnHeap::new_tx()),
        Err(DbError::WrongConfiguration(_))
    ));
}

#[test]
fn only_a_log_rolls_back() {
    for maker in [
        DBMaker::heap_db(),
        DBMaker::memory_byte_array_db(),
        DBMaker::memory_direct_db(),
    ] {
        let mut db = maker.make().unwrap();
        let r = db.store_mut().put(vec![1]).unwrap();
        assert!(matches!(db.rollback(), Err(DbError::Unsupported(_))));
        assert_eq!(db.store().get(r).unwrap(), Some(vec![1]));
    }
    let mut db = wal().make_over(StoreOnHeap::new_tx()).unwrap();
    let kept = db.store_mut().put(vec![1]).unwrap();
    db.commit().unwrap();
    let lost = db.store_mut().put(vec![2]).unwrap();
    db.rollback().unwrap();
    assert_eq!(db.store().get(kept).unwrap(), Some(vec![1]));
    assert!(matches!(db.store().get(lost), Err(DbError::GetVoid(_))));
    assert_eq!(db.store().kind(), StoreKind::Wal);
}

#[test]
fn error_texts_say_what_went_wrong() {
    assert_eq!(DbError::GetVoid(7).message(), "record does not exist (recid=7)");
    assert!(DbError::corrupt("bad header").message().contains("bad header"));
    assert!(DbError::wrong_config(s("no")).message().contains("no"));
    let io = DbError::from(std::io::Error::new(std::io::ErrorKind::Other, "disk gone"));
    assert!(io.message().contains("disk gone"));
    assert!(matches!(io, DbError::Io(_)));
}

#[test]
fn unicode_survives_the_string_codec() {
    let mut db = memory();
    let mut m = db.tree_map("u", sg(), sg()).create(&mut db).unwrap();
    m.put(db.store_mut(), s("grüße"), s("日本")).unwrap();
    m.put(db.store_mut(), s("z"), s("")).unwrap();
    assert_eq!(m.get(db.store(), &s("grüße")).unwrap(), Some(s("日本")));
    assert_eq!(m.entries(db.store()).unwrap()[0].0, "grüße");
}

#[test]
fn atomics_wrap_and_swap() {
    let mut db = memory();
    let a = db.atomic_long_init("a", i64::MAX).create(&mut db).unwrap();
    assert_eq!(a.increment_and_get(db.store_mut()).unwrap(), i64::MIN);
    assert_eq!(a.get_and_decrement(db.store_mut()).unwrap(), i64::MIN);
    assert_eq!(a.get_and_set(db.store_mut(), 5).unwrap(), i64::MAX);
    assert_eq!(a.get_and_add(db.store_mut(), 2).unwrap(), 5);
    assert_eq!(a.get(db.store()).unwrap(), 7);
    let v = db.atomic_var("v", StringSer, None).create(&mut db).unwrap();
    assert_eq!(v.get(db.store()).unwrap(), None);
    assert!(v.compare_and_set(db.store_mut(), None, Some(&s("x"))).unwrap());
    assert!(!v.compare_and_set(db.store_mut(), None, Some(&s("y"))).unwrap());
    assert_eq!(v.get_and_set(db.store_mut(), None).unwrap(), Some(s("x")));
}

#[test]
fn delete_map_clears_entries_but_keeps_structural_records() {
    let mut db = memory();
    let mut map = db.tree_map("a", LongFormat, sg()).counter_enable().create(&mut db).unwrap();
    map.put(db.store_mut(), 1, "x".to_string()).unwrap();
    map.put(db.store_mut(), 2, "y".to_string()).unwrap();
    assert!(db.delete_map("a", &mut map).unwrap());
    assert!(!db.name_exists("a").unwrap());
    assert_eq!(map.size_long(db.store()).unwrap(), 0);
    assert_eq!(map.get(db.store(), &1).unwrap(), None);
    map.put(db.store_mut(), 3, "z".to_string()).unwrap();
    assert_eq!(map.get(db.store(), &3).unwrap(), Some("z".to_string()));
    assert_eq!(map.size_long(db.store()).unwrap(), 1);
    db.close().unwrap();
}

#[test]
fn delete_queue_frees_records_and_closes_clones() {
    let mut db = memory();
    let mut q = db.queue("q", StringSer).create(&mut db).unwrap();
    q.add(db.store_mut(), "a".to_string()).unwrap();
    let header = q.header_recid();
    assert!(db.delete_queue("q", &mut q).unwrap());
    assert!(matches!(q.poll(db.store_mut()), Err(DbError::StoreClosed)));
    assert!(db.store().get(header).is_err());
    db.close().unwrap();
}

#[test]
fn deleting_a_set_empties_it_and_no_other() {
    let mut db = memory();
    let mut set = db.tree_set("s", LongFormat).create(&mut db).unwrap();
    let mut kept = db.tree_set("k", LongFormat).create(&mut db).unwrap();
    for i in 0..40 {
        set.add(db.store_mut(), i).unwrap();
        kept.add(db.store_mut(), -i).unwrap();
    }
    assert!(!db.delete_set("missing", &mut set).unwrap());
    assert_eq!(set.size_long(db.store()).unwrap(), 40);
    assert!(db.delete_set("s", &mut set).unwrap());
    assert_eq!(set.size_long(db.store()).unwrap(), 0);
    assert_eq!(kept.size_long(db.store()).unwrap(), 40);
    assert!(!db.name_exists("s").unwrap());
    assert!(db.name_exists("k").unwrap());
}
