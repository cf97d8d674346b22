use mapdb::btree::map::BTreeMap;
use mapdb::db::DBMaker;
use mapdb::error::{DbError, Result};
use mapdb::listener::{
    first_failure, FnListener, Listeners, MapExtra, MapModificationListener, ModificationAwareMap,
    ObservedMap, SynchronousMapModificationListener,
};
use mapdb::ser::{LongFormat, StringGroupFormat, StringSer};
use mapdb::store::{Store, StoreOnHeap};
use std::cell::RefCell;
use std::rc::Rc;
use std::sync::atomic::{AtomicUsize, Ordering};
use std::sync::Arc;

#[test]
fn fn_listener_is_async_by_default_and_fires() {
    let hits = Arc::new(AtomicUsize::new(0));
    let h = hits.clone();
    let listener = FnListener(move |_k: &i64, _o: Option<&i64>, _n: Option<&i64>, _t: bool| {
        h.fetch_add(1, Ordering::SeqCst);
        Ok(())
    });
    listener.modify(&1, None, Some(&2), false).unwrap();
    assert_eq!(hits.load(Ordering::SeqCst), 1);
}

struct SyncListener;

impl MapModificationListener<i64, i64> for SyncListener {
    fn listens(&self) -> bool {
        true
    }

    fn modify(&self, _k: &i64, _o: Option<&i64>, _n: Option<&i64>, _t: bool) -> Result<()> {
        Ok(())
    }
}

impl SynchronousMapModificationListener<i64, i64> for SyncListener {}

fn assert_marker<L: SynchronousMapModificationListener<i64, i64>>(_l: &L) {}

#[test]
fn sync_marker_is_a_map_listener() {
    let l = SyncListener;
    l.modify(&1, None, Some(&2), false).unwrap();
    assert_marker(&l);
}

#[derive(Clone)]
struct Log {
    events: Rc<RefCell<Vec<(i64, Option<String>, Option<String>)>>>,
    fails: bool,
}

impl Log {
    fn new(fails: bool) -> Self {
        Log { events: Rc::new(RefCell::new(Vec::new())), fails }
    }
}

impl MapModificationListener<i64, String> for Log {
    fn listens(&self) -> bool {
        true
    }

    fn modify(&self, k: &i64, o: Option<&String>, n: Option<&String>, _t: bool) -> Result<()> {
        self.events.borrow_mut().push((*k, o.cloned(), n.cloned()));
        if self.fails {
            return Err(DbError::Unsupported("told"));
        }
        Ok(())
    }
}

impl SynchronousMapModificationListener<i64, String> for Log {}

type Observed = ObservedMap<LongFormat, StringSer, Log, Log>;

#[test]
fn modification_listener_captures_insert_update_remove() {
    let mut store = StoreOnHeap::new();
    let map = BTreeMap::create(&mut store, LongFormat, StringSer, 8).unwrap();
    let log = Log::new(false);
    let mut m: Observed = ObservedMap::new(map);
    m.modification_listener_add(1, log.clone());
    m.put(&mut store, 5, "fifty".to_string()).unwrap();
    m.put(&mut store, 5, "sixty".to_string()).unwrap();
    assert_eq!(m.remove(&mut store, &5).unwrap(), Some("sixty".to_string()));
    let e = log.events.borrow();
    assert_eq!(e.len(), 3);
    assert_eq!(e[0], (5, None, Some("fifty".to_string())));
    assert_eq!(e[1], (5, Some("fifty".to_string()), Some("sixty".to_string())));
    assert_eq!(e[2], (5, Some("sixty".to_string()), None));
}

#[test]
fn a_listener_number_is_registered_once() {
    let mut store = StoreOnHeap::new();
    let map = BTreeMap::create(&mut store, LongFormat, StringSer, 8).unwrap();
    let log = Log::new(false);
    let mut m: Observed = ObservedMap::new(map);
    m.modification_listener_add(1, log.clone());
    m.modification_listener_add(1, log.clone());
    m.put(&mut store, 1, "one".to_string()).unwrap();
    assert_eq!(log.events.borrow().len(), 1);
    m.modification_listener_remove(1);
    m.put(&mut store, 2, "two".to_string()).unwrap();
    assert_eq!(log.events.borrow().len(), 1);
    assert_eq!(m.map().size_long(&store).unwrap(), 2);
}

#[test]
fn conditional_writes_tell_only_what_changed() {
    let mut store = StoreOnHeap::new();
    let map = BTreeMap::create(&mut store, LongFormat, StringSer, 8).unwrap();
    let log = Log::new(false);
    let mut m: Observed = ObservedMap::new(map);
    m.modification_listener_add_sync(9, log.clone());
    assert_eq!(m.put_if_absent(&mut store, 1, "a".to_string()).unwrap(), None);
    assert_eq!(m.put_if_absent(&mut store, 1, "b".to_string()).unwrap(), Some("a".to_string()));
    assert!(!m.replace_if(&mut store, &1, &"x".to_string(), "c".to_string()).unwrap());
    assert!(m.replace_if(&mut store, &1, &"a".to_string(), "c".to_string()).unwrap());
    assert_eq!(m.replace(&mut store, &2, "d".to_string()).unwrap(), None);
    assert_eq!(m.replace(&mut store, &1, "d".to_string()).unwrap(), Some("c".to_string()));
    assert!(!m.remove_if(&mut store, &1, &"c".to_string()).unwrap());
    assert!(m.remove_if(&mut store, &1, &"d".to_string()).unwrap());
    assert_eq!(m.remove(&mut store, &1).unwrap(), None);
    let e = log.events.borrow();
    assert_eq!(e.len(), 4);
    assert_eq!(e[0], (1, None, Some("a".to_string())));
    assert_eq!(e[1], (1, Some("a".to_string()), Some("c".to_string())));
    assert_eq!(e[2], (1, Some("c".to_string()), Some("d".to_string())));
    assert_eq!(e[3], (1, Some("d".to_string()), None));
}

#[test]
fn a_failing_listener_does_not_undo_the_write() {
    let mut store = StoreOnHeap::new();
    let map = BTreeMap::create(&mut store, LongFormat, StringSer, 8).unwrap();
    let bad = Log::new(true);
    let good = Log::new(false);
    let mut m: Observed = ObservedMap::new(map);
    m.modification_listener_add(1, bad.clone());
    m.modification_listener_add(2, good.clone());
    assert!(matches!(
        m.put(&mut store, 3, "three".to_string()),
        Err(DbError::Unsupported("told"))
    ));
    assert_eq!(m.map().get(&store, &3).unwrap(), Some("three".to_string()));
    assert_eq!(bad.events.borrow().len(), 1);
    assert_eq!(good.events.borrow().len(), 1);
}

#[test]
fn the_first_failure_is_the_answer() {
    assert!(first_failure(vec![Ok(()), Ok(())]).is_ok());
    assert!(first_failure(vec![]).is_ok());
    assert!(matches!(
        first_failure(vec![Ok(()), Err(DbError::NotSorted), Err(DbError::StoreClosed)]),
        Err(DbError::NotSorted)
    ));
}

#[test]
fn listeners_fire_in_order_of_registration() {
    let mut ls: Listeners<Log> = Listeners::new();
    let a = Log::new(true);
    let b = Log::new(true);
    ls.add(7, a.clone());
    ls.add(8, b.clone());
    ls.remove(99);
    assert!(ls.fire(&1, None, Some(&"x".to_string())).is_err());
    ls.remove(7);
    assert!(ls.fire(&2, Some(&"x".to_string()), None).is_err());
    assert_eq!(a.events.borrow().len(), 1);
    assert_eq!(b.events.borrow().len(), 2);
}

#[test]
fn a_map_answers_for_its_codecs_and_store() {
    let mut store = StoreOnHeap::new();
    let mut map = BTreeMap::create(&mut store, LongFormat, StringSer, 8).unwrap();
    map.put(&mut store, 1, "a".to_string()).unwrap();
    assert_eq!(MapExtra::size_long(&map, &store).unwrap(), 1);
    let _k: &LongFormat = MapExtra::key_serializer(&map);
    let _v: &StringSer = MapExtra::value_serializer(&map);
    assert!(!MapExtra::is_closed(&map, &store));
    store.close().unwrap();
    assert!(MapExtra::is_closed(&map, &store));
    assert!(matches!(map.get(&store, &1), Err(DbError::StoreClosed)));
}

#[test]
fn a_failing_sync_listener_keeps_the_others_from_being_told() {
    let mut store = StoreOnHeap::new();
    let map = BTreeMap::create(&mut store, LongFormat, StringSer, 8).unwrap();
    let bad = Log::new(true);
    let second = Log::new(false);
    let later = Log::new(false);
    let mut m: Observed = ObservedMap::new(map);
    m.modification_listener_add_sync(1, bad.clone());
    m.modification_listener_add_sync(2, second.clone());
    m.modification_listener_add(3, later.clone());
    assert!(m.put(&mut store, 3, "three".to_string()).is_err());
    assert_eq!(second.events.borrow().len(), 1);
    assert_eq!(later.events.borrow().len(), 0);
    m.modification_listener_remove(1);
    assert_eq!(m.put(&mut store, 3, "four".to_string()).unwrap(), Some("three".to_string()));
    assert_eq!(second.events.borrow().len(), 2);
    assert_eq!(later.events.borrow().len(), 1);
}

#[test]
fn a_maker_hands_its_listeners_to_the_map() {
    let mut db = DBMaker::memory_db().make().unwrap();
    let log = Log::new(false);
    let other = Log::new(false);
    let mut m: ObservedMap<LongFormat, StringGroupFormat, Log, Log> = db
        .tree_map("t", LongFormat, StringGroupFormat)
        .modification_listener(1, log.clone())
        .modification_listener(1, other.clone())
        .modification_listener(2, other.clone())
        .create(&mut db)
        .unwrap();
    m.put(db.store_mut(), 1, "one".to_string()).unwrap();
    assert_eq!(log.events.borrow().len(), 1);
    assert_eq!(other.events.borrow().len(), 1);
    let mut again: ObservedMap<LongFormat, StringGroupFormat, Log, Log> = db
        .tree_map("t", LongFormat, StringGroupFormat)
        .modification_listener(1, log.clone())
        .open(&db)
        .unwrap();
    assert_eq!(again.remove(db.store_mut(), &1).unwrap(), Some("one".to_string()));
    assert_eq!(log.events.borrow().len(), 2);
    assert_eq!(other.events.borrow().len(), 1);
    let wrong: Result<ObservedMap<LongFormat, StringGroupFormat, Log, Log>> = db
        .tree_map("t", LongFormat, StringGroupFormat)
        .modification_listener(1, log)
        .create(&mut db);
    assert!(matches!(wrong, Err(DbError::WrongConfiguration(_))));
}

#[test]
fn every_way_to_change_a_map_is_told() {
    let mut store = StoreOnHeap::new();
    let map = BTreeMap::create(&mut store, LongFormat, StringSer, 4).unwrap();
    let log = Log::new(false);
    let mut m: Observed = ObservedMap::new(map);
    m.modification_listener_add(1, log.clone());
    let v = || "v".to_string();
    for i in 0..9i64 {
        m.put_only(&mut store, i, v()).unwrap();
    }
    log.events.borrow_mut().clear();
    assert!(m.remove_only(&mut store, &4).unwrap());
    assert!(!m.remove_only(&mut store, &4).unwrap());
    assert_eq!(m.pop_first(&mut store).unwrap(), Some((0, v())));
    assert_eq!(m.pop_last(&mut store).unwrap(), Some((8, v())));
    let part = m.view().sub_map(&m, 2, true, 6, true);
    assert_eq!(part.poll_first_entry(&mut m, &mut store).unwrap(), Some((2, v())));
    assert_eq!(part.descending(&m).poll_first_entry(&mut m, &mut store).unwrap(), Some((6, v())));
    assert_eq!(part.remove(&mut m, &mut store, &3).unwrap(), Some(v()));
    part.put(&mut m, &mut store, 3, "w".to_string()).unwrap();
    part.clear(&mut m, &mut store).unwrap();
    let told: Vec<i64> = log.events.borrow().iter().map(|e| e.0).collect();
    assert_eq!(told, vec![4, 0, 8, 2, 6, 3, 3, 3, 5]);
    log.events.borrow_mut().clear();
    m.clear(&mut store).unwrap();
    let told: Vec<i64> = log.events.borrow().iter().map(|e| e.0).collect();
    assert_eq!(told, vec![1, 7]);
    assert!(m.map().is_empty(&store).unwrap());
}

#[test]
fn a_listener_that_fails_stops_clearing() {
    let mut store = StoreOnHeap::new();
    let map = BTreeMap::create(&mut store, LongFormat, StringSer, 4).unwrap();
    let mut m: Observed = ObservedMap::new(map);
    m.put(&mut store, 1, "a".to_string()).unwrap();
    m.put(&mut store, 2, "b".to_string()).unwrap();
    m.modification_listener_add_sync(1, Log::new(true));
    assert!(m.clear(&mut store).is_err());
    assert_eq!(m.map().size_long(&store).unwrap(), 1);
}
