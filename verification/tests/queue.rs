use mapdb::error::{DbError, Result};
use mapdb::io::{DataOutput2, SliceInput};
use mapdb::queue::blocking::{
    Header, Mode, NodeSer, PersistentBlockingQueue, QNode, Waiting, HEADER_SER, UNBOUNDED,
};
use mapdb::queue::long::{Answers, Entries, Node, QueueLong, QueueLongTakeUntil, QueueLongVisitor, NODE_SER};
use mapdb::ser::{Serializer, StringSer, STRING};
use mapdb::store::{put_item, Store, StoreOnHeap, StoreReadOnlyWrapper};

struct UntilTime(u64);

impl QueueLongTakeUntil for UntilTime {
    fn asked(&self) -> Answers {
        unreachable!()
    }

    fn sound(&self) -> bool {
        true
    }

    fn take(&mut self, _recid: u64, node: &Node) -> bool {
        node.timestamp <= self.0
    }
}

struct Seen(Vec<u64>);

impl QueueLongVisitor for Seen {
    fn seen(&self) -> Entries {
        unreachable!()
    }

    fn sound(&self) -> bool {
        true
    }

    fn visit(&mut self, _recid: u64, value: u64, timestamp: u64) {
        self.0.push(value);
        self.0.push(timestamp);
    }
}

struct Times(Vec<u64>);

impl QueueLongVisitor for Times {
    fn seen(&self) -> Entries {
        unreachable!()
    }

    fn sound(&self) -> bool {
        true
    }

    fn visit(&mut self, _recid: u64, _value: u64, timestamp: u64) {
        self.0.push(timestamp);
    }
}

fn s(v: &str) -> String {
    v.to_string()
}

#[test]
fn queuelong_node_golden() {
    let mut out = DataOutput2::new();
    NODE_SER.serialize(&mut out, &Node::new(0, 5, 10, 1));
    assert_eq!(out.into_vec(), vec![0x80, 0x85, 0x8A, 0x81]);

    let n = Node::new(200, 1, 128, 300);
    let mut o2 = DataOutput2::new();
    NODE_SER.serialize(&mut o2, &n);
    let bytes = o2.into_vec();
    assert_eq!(bytes, vec![0x01, 0xC8, 0x81, 0x01, 0x80, 0x02, 0xAC]);
    let mut inp = SliceInput::new(&bytes);
    assert_eq!(NODE_SER.deserialize(&mut inp).unwrap(), n);
}

fn fifo_remove_bump_reopen<S: Store>(store: &mut S) -> Result<()> {
    let queue = QueueLong::make(store)?;
    let a = queue.put(store, 10, 1)?;
    let b = queue.put(store, 20, 2)?;
    let c = queue.put(store, 30, 3)?;
    assert_eq!(queue.values(store)?, vec![1, 2, 3]);

    assert_eq!(queue.remove(store, b, true)?.value, 2);
    assert_eq!(queue.values(store)?, vec![1, 3]);
    queue.bump(store, a, 40)?;
    assert_eq!(queue.values(store)?, vec![3, 1]);
    queue.verify(store)?;

    let reopened =
        QueueLong::open(queue.tail_recid(), queue.head_recid(), queue.head_prev_recid())?;
    assert_eq!(reopened.tail(store)?, c);
    assert_eq!(reopened.take(store)?.unwrap().value, 3);
    assert_eq!(reopened.take(store)?.unwrap().value, 1);
    assert!(reopened.take(store)?.is_none());
    reopened.verify(store)?;
    store.close()?;
    Ok(())
}

#[test]
fn queuelong_fifo_remove_bump_reopen_heap() {
    fifo_remove_bump_reopen(&mut StoreOnHeap::new()).unwrap();
}

#[test]
fn queuelong_fifo_remove_bump_reopen_bytearray() {
    let mut db = mapdb::db::DBMaker::memory_byte_array_db().make().unwrap();
    fifo_remove_bump_reopen(db.store_mut()).unwrap();
}

#[test]
fn queuelong_fifo_remove_bump_reopen_direct() {
    let mut db = mapdb::db::DBMaker::memory_direct_db().make().unwrap();
    fifo_remove_bump_reopen(db.store_mut()).unwrap();
}

#[test]
fn queuelong_take_until_and_for_each() {
    let mut store = StoreOnHeap::new();
    let queue = QueueLong::make(&mut store).unwrap();
    queue.put(&mut store, 10, 1).unwrap();
    queue.put(&mut store, 20, 2).unwrap();
    queue.put(&mut store, 30, 3).unwrap();
    queue.take_until(&mut store, &mut UntilTime(20)).unwrap();
    assert_eq!(queue.values(&store).unwrap(), vec![3]);

    let mut seen = Seen(Vec::new());
    queue.for_each(&store, &mut seen).unwrap();
    assert_eq!(seen.0, vec![3, 30]);

    queue.clear(&mut store).unwrap();
    assert_eq!(queue.size(&store).unwrap(), 0);
    queue.verify(&store).unwrap();
    store.close().unwrap();
}

#[test]
fn queuelong_insert_preallocated_node() {
    let mut store = StoreOnHeap::new();
    let queue = QueueLong::make(&mut store).unwrap();
    let recid = store.preallocate().unwrap();
    queue.put_preallocated(&mut store, 7, 9, recid).unwrap();
    assert_eq!(queue.tail(&store).unwrap(), recid);
    assert_eq!(queue.values(&store).unwrap(), vec![9]);
    queue.verify(&store).unwrap();
    store.close().unwrap();
}

#[test]
fn blocking_fifo_stack_circular_and_reopen() {
    let mut store = StoreOnHeap::new();

    let fifo = PersistentBlockingQueue::create(&mut store, STRING, Mode::Fifo, u64::MAX).unwrap();
    fifo.add_all(&mut store, vec![s("a"), s("b"), s("c")]).unwrap();
    assert_eq!(fifo.poll(&mut store).unwrap(), Some(s("a")));
    assert!(fifo.remove_value(&mut store, &s("b")).unwrap());
    assert_eq!(fifo.peek(&store).unwrap(), Some(s("c")));
    fifo.verify(&store).unwrap();
    let reopened = PersistentBlockingQueue::open(&store, fifo.header_recid(), STRING).unwrap();
    assert!(matches!(
        reopened.take_step(&mut store, true).unwrap(),
        Waiting::Done(v) if v == "c"
    ));
    assert_eq!(reopened.poll(&mut store).unwrap(), None);

    let stack = PersistentBlockingQueue::create(&mut store, STRING, Mode::Lifo, u64::MAX).unwrap();
    stack.add_all(&mut store, vec![s("a"), s("b"), s("c")]).unwrap();
    assert_eq!(stack.poll(&mut store).unwrap(), Some(s("c")));
    assert_eq!(stack.poll(&mut store).unwrap(), Some(s("b")));
    stack.verify(&store).unwrap();

    let circular =
        PersistentBlockingQueue::create(&mut store, STRING, Mode::Circular, 3).unwrap();
    circular.add_all(&mut store, vec![s("a"), s("b"), s("c"), s("d")]).unwrap();
    assert_eq!(circular.len(&store).unwrap(), 3);
    assert_eq!(circular.poll(&mut store).unwrap(), Some(s("b")));
    assert_eq!(circular.poll(&mut store).unwrap(), Some(s("c")));
    assert_eq!(circular.poll(&mut store).unwrap(), Some(s("d")));
    circular.verify(&store).unwrap();
    store.close().unwrap();
}

#[test]
fn take_step_waits_until_something_is_put() {
    let mut store = StoreOnHeap::new();
    let queue = PersistentBlockingQueue::create(&mut store, STRING, Mode::Fifo, u64::MAX).unwrap();
    assert!(matches!(queue.take_step(&mut store, true).unwrap(), Waiting::Wait));
    queue.add(&mut store, s("ready")).unwrap();
    assert!(matches!(
        queue.take_step(&mut store, true).unwrap(),
        Waiting::Done(v) if v == "ready"
    ));
}

#[test]
fn a_closed_handle_refuses_every_step() {
    let mut store = StoreOnHeap::new();
    let mut queue =
        PersistentBlockingQueue::create(&mut store, STRING, Mode::Fifo, u64::MAX).unwrap();
    queue.close_handle();
    assert!(matches!(queue.take_step(&mut store, true), Err(DbError::StoreClosed)));
    assert!(matches!(queue.put_step(&mut store, &s("x"), true), Err(DbError::StoreClosed)));
    assert!(matches!(queue.poll(&mut store), Err(DbError::StoreClosed)));
    store.close().unwrap();
}

#[test]
fn blocking_poll_timeout_returns_none() {
    let mut store = StoreOnHeap::new();
    let queue = PersistentBlockingQueue::create(&mut store, STRING, Mode::Fifo, u64::MAX).unwrap();
    assert!(matches!(queue.take_step(&mut store, false).unwrap(), Waiting::GaveUp));
    store.close().unwrap();
}

#[test]
fn queuelong_bump_newest_in_place() {
    let mut store = StoreOnHeap::new();
    let queue = QueueLong::make(&mut store).unwrap();
    let _a = queue.put(&mut store, 10, 1).unwrap();
    let b = queue.put(&mut store, 20, 2).unwrap();
    queue.bump(&mut store, b, 99).unwrap();
    assert_eq!(queue.values(&store).unwrap(), vec![1, 2]);
    let mut timestamps = Times(Vec::new());
    queue.for_each(&store, &mut timestamps).unwrap();
    assert_eq!(timestamps.0, vec![10, 99]);
    queue.verify(&store).unwrap();
    store.close().unwrap();
}

#[test]
fn queuelong_rejects_fields_above_i64_max() {
    let mut store = StoreOnHeap::new();
    let queue = QueueLong::make(&mut store).unwrap();
    assert!(queue.put(&mut store, 0, (i64::MAX as u64) + 1).is_err());
    assert!(queue.put(&mut store, (i64::MAX as u64) + 1, 0).is_err());
    queue.put(&mut store, i64::MAX as u64, i64::MAX as u64).unwrap();
    store.close().unwrap();
}

#[test]
fn blocking_remove_head_element_size_one() {
    let mut store = StoreOnHeap::new();
    let queue = PersistentBlockingQueue::create(&mut store, STRING, Mode::Fifo, u64::MAX).unwrap();
    queue.add(&mut store, s("a")).unwrap();
    assert!(queue.remove_value(&mut store, &s("a")).unwrap());
    assert_eq!(queue.len(&store).unwrap(), 0);
    queue.verify(&store).unwrap();
    store.close().unwrap();
}

#[test]
fn blocking_remove_tail_and_middle_elements() {
    let mut store = StoreOnHeap::new();
    let queue = PersistentBlockingQueue::create(&mut store, STRING, Mode::Fifo, u64::MAX).unwrap();
    queue.add_all(&mut store, vec![s("a"), s("b"), s("c")]).unwrap();
    assert!(queue.remove_value(&mut store, &s("c")).unwrap());
    queue.verify(&store).unwrap();
    assert_eq!(queue.to_vec(&store).unwrap(), vec![s("a"), s("b")]);

    queue.clear(&mut store).unwrap();
    queue.add_all(&mut store, vec![s("a"), s("b"), s("c")]).unwrap();
    assert!(queue.remove_value(&mut store, &s("b")).unwrap());
    queue.verify(&store).unwrap();
    assert_eq!(queue.to_vec(&store).unwrap(), vec![s("a"), s("c")]);
    assert_eq!(queue.poll(&mut store).unwrap(), Some(s("a")));
    assert_eq!(queue.poll(&mut store).unwrap(), Some(s("c")));
    store.close().unwrap();
}

#[test]
fn blocking_offer_timeout_success_drain_and_contains() {
    let mut store = StoreOnHeap::new();
    let queue = PersistentBlockingQueue::create(&mut store, STRING, Mode::Fifo, u64::MAX).unwrap();
    assert!(matches!(
        queue.put_step(&mut store, &s("a"), true).unwrap(),
        Waiting::Done(())
    ));
    queue.add_all(&mut store, vec![s("b"), s("c")]).unwrap();

    assert!(queue.contains(&store, &s("b")).unwrap());
    assert!(!queue.contains(&store, &s("z")).unwrap());

    let mut out = Vec::new();
    assert_eq!(queue.drain_to(&mut store, &mut out, 2).unwrap(), 2);
    assert_eq!(out, vec![s("a"), s("b")]);
    assert_eq!(queue.len(&store).unwrap(), 1);
    assert_eq!(queue.poll(&mut store).unwrap(), Some(s("c")));
    store.close().unwrap();
}

#[test]
fn blocking_create_rejects_capacity_above_i64_max() {
    let mut store = StoreOnHeap::new();
    assert!(
        PersistentBlockingQueue::create(&mut store, STRING, Mode::Circular, u64::MAX).is_err()
    );
    store.close().unwrap();
}

fn header_bytes(h: &Header) -> Vec<u8> {
    let mut out = DataOutput2::new();
    HEADER_SER.serialize(&mut out, h);
    out.into_vec()
}

#[test]
fn header_fresh_fifo() {
    let h = Header { mode: 0, head: 0, tail: 0, size: 0, capacity: UNBOUNDED };
    assert_eq!(
        header_bytes(&h),
        vec![0x80, 0x80, 0x80, 0x80, 0x7F, 0x7F, 0x7F, 0x7F, 0x7F, 0x7F, 0x7F, 0x7F, 0xFF]
    );
}

#[test]
fn header_fresh_circular_cap3() {
    let h = Header { mode: 2, head: 0, tail: 0, size: 0, capacity: 3 };
    assert_eq!(header_bytes(&h), vec![0x82, 0x80, 0x80, 0x80, 0x83]);
}

#[test]
fn header_populated() {
    let h = Header { mode: 1, head: 1, tail: 2, size: 2, capacity: UNBOUNDED };
    assert_eq!(
        header_bytes(&h),
        vec![0x81, 0x81, 0x82, 0x82, 0x7F, 0x7F, 0x7F, 0x7F, 0x7F, 0x7F, 0x7F, 0x7F, 0xFF]
    );
    let bytes = header_bytes(&h);
    let mut inp = SliceInput::new(&bytes);
    assert_eq!(HEADER_SER.deserialize(&mut inp).unwrap(), h);
}

#[test]
fn node_string_value() {
    let ns = NodeSer { elem: &STRING };
    let mut out = DataOutput2::new();
    ns.serialize(&mut out, &QNode { next: 0, value: "a".to_string() });
    assert_eq!(out.into_vec(), vec![0x80, 0x81, 0x61]);

    let mut out2 = DataOutput2::new();
    ns.serialize(&mut out2, &QNode { next: 7, value: "bc".to_string() });
    assert_eq!(out2.into_vec(), vec![0x87, 0x82, 0x62, 0x63]);
}

fn open_with(h: Header) -> Result<PersistentBlockingQueue<StringSer>> {
    let mut store = StoreOnHeap::new();
    let recid = put_item(&mut store, &h, &HEADER_SER).unwrap();
    PersistentBlockingQueue::open(&store, recid, StringSer)
}

#[test]
fn open_rejects_size_exceeding_capacity() {
    let h = Header { mode: 2, head: 0, tail: 0, size: 2, capacity: 1 };
    assert!(matches!(open_with(h), Err(DbError::DataCorruption(_))));
}

#[test]
fn open_rejects_capacity_above_i64_max() {
    let h = Header { mode: 0, head: 0, tail: 0, size: 0, capacity: u64::MAX };
    assert!(matches!(open_with(h), Err(DbError::DataCorruption(_))));
}

#[test]
fn open_rejects_zero_capacity() {
    let h = Header { mode: 0, head: 0, tail: 0, size: 0, capacity: 0 };
    assert!(matches!(open_with(h), Err(DbError::DataCorruption(_))));
}

#[test]
fn open_accepts_wellformed_header() {
    let h = Header { mode: 0, head: 0, tail: 0, size: 0, capacity: UNBOUNDED };
    assert!(open_with(h).is_ok());
}

#[test]
fn open_rejects_an_unknown_mode() {
    let h = Header { mode: 3, head: 0, tail: 0, size: 0, capacity: UNBOUNDED };
    assert!(matches!(open_with(h), Err(DbError::DataCorruption(_))));
}

#[test]
fn purge_frees_every_record_of_a_queue() {
    let mut store = StoreOnHeap::new();
    let before = store.get_all_recids().unwrap();
    let queue = PersistentBlockingQueue::create(&mut store, STRING, Mode::Fifo, u64::MAX).unwrap();
    assert_eq!(queue.mode(&store).unwrap(), Mode::Fifo);
    queue.add_all(&mut store, vec![s("a"), s("b")]).unwrap();
    assert_eq!(store.get_all_recids().unwrap().len(), before.len() + 3);
    queue.purge_records(&mut store).unwrap();
    assert_eq!(store.get_all_recids().unwrap(), before);
}

#[test]
fn a_circular_queue_never_grows_past_its_capacity() {
    let mut store = StoreOnHeap::new();
    let q = PersistentBlockingQueue::create(&mut store, STRING, Mode::Circular, 2).unwrap();
    for i in 0..10 {
        assert!(q.offer(&mut store, format!("{i}")).unwrap());
        assert!(q.len(&store).unwrap() <= 2);
    }
    assert_eq!(q.to_vec(&store).unwrap(), vec![s("8"), s("9")]);
    assert_eq!(q.remaining_capacity(&store).unwrap(), 0);
}

#[test]
fn two_queues_in_one_store_do_not_touch_each_other() {
    let mut store = StoreOnHeap::new();
    let a = PersistentBlockingQueue::create(&mut store, STRING, Mode::Fifo, u64::MAX).unwrap();
    let b = QueueLong::make(&mut store).unwrap();
    a.add(&mut store, s("a")).unwrap();
    b.put(&mut store, 1, 2).unwrap();
    a.poll(&mut store).unwrap();
    assert_eq!(b.values(&store).unwrap(), vec![2]);
    b.clear(&mut store).unwrap();
    assert!(a.is_empty(&store).unwrap());
    a.verify(&store).unwrap();
    b.verify(&store).unwrap();
}

#[test]
fn a_read_only_store_keeps_a_queue_as_it_is() {
    let mut store = StoreOnHeap::new();
    let q = PersistentBlockingQueue::create(&mut store, StringSer, Mode::Fifo, 0).unwrap();
    q.add(&mut store, "a".to_string()).unwrap();
    q.add(&mut store, "b".to_string()).unwrap();
    let n = QueueLong::make(&mut store).unwrap();
    let first = n.put(&mut store, 1, 10).unwrap();
    let mut ro = StoreReadOnlyWrapper::new(store);
    assert!(matches!(q.offer(&mut ro, "c".to_string()), Err(DbError::ReadOnly)));
    assert!(matches!(q.poll(&mut ro), Err(DbError::ReadOnly)));
    assert!(matches!(q.remove_value(&mut ro, &"b".to_string()), Err(DbError::ReadOnly)));
    assert!(!q.remove_value(&mut ro, &"x".to_string()).unwrap());
    assert!(matches!(q.clear(&mut ro), Err(DbError::ReadOnly)));
    let mut out = Vec::new();
    assert!(matches!(q.drain_to(&mut ro, &mut out, 5), Err(DbError::ReadOnly)));
    assert!(matches!(q.purge_records(&mut ro), Err(DbError::ReadOnly)));
    assert_eq!(q.to_vec(&ro).unwrap(), vec!["a".to_string(), "b".to_string()]);
    assert!(matches!(n.put(&mut ro, 2, 20), Err(DbError::ReadOnly)));
    assert!(matches!(n.take(&mut ro), Err(DbError::ReadOnly)));
    assert!(matches!(n.bump(&mut ro, first, 9), Err(DbError::ReadOnly)));
    assert!(matches!(n.remove(&mut ro, first, true), Err(DbError::ReadOnly)));
    assert_eq!(n.values(&ro).unwrap(), vec![10]);
    let made = PersistentBlockingQueue::create(&mut ro, StringSer, Mode::Fifo, 0);
    assert!(matches!(made, Err(DbError::ReadOnly)));
}

#[test]
fn putting_several_stops_at_the_first_that_does_not_fit() {
    let mut store = StoreOnHeap::new();
    let header = Header { mode: 0, head: 0, tail: 0, size: 0, capacity: 2 };
    let recid = put_item(&mut store, &header, &HEADER_SER).unwrap();
    let q = PersistentBlockingQueue::open(&store, recid, StringSer).unwrap();
    let r = q.add_all(&mut store, vec![s("a"), s("b"), s("c")]);
    assert!(matches!(r, Err(DbError::Unsupported("blocking queue is full"))));
    assert_eq!(q.to_vec(&store).unwrap(), vec![s("a"), s("b")]);
    assert!(!q.offer(&mut store, s("d")).unwrap());
    assert!(matches!(q.put_step(&mut store, &s("d"), true), Ok(Waiting::Wait)));
    assert!(matches!(q.put_step(&mut store, &s("d"), false), Ok(Waiting::GaveUp)));
}
