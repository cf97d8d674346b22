use mapdb::btree::map::walk::KeyVisitor;
use mapdb::btree::map::BTreeMap;
use mapdb::btree::node::{Node, NodeBody, NodeM, NodeSerializer, DIR, LEFT, RIGHT};
use mapdb::btree::pump::{NodeBytes, NodeSink, TreePump};
use mapdb::error::{DbError, Result};
use mapdb::io::{DataOutput2, SliceInput};
use mapdb::lease::Leases;
use mapdb::ser::{ByteArrayFormat, LongFormat, Models, PairFormat, Serializer, StringSer, LONG};
use mapdb::store::{get_item, put_item, Store, StoreOnHeap, StoreReadOnlyWrapper, StoreState};
use std::cell::{Cell, RefCell};

type LNode = Node<LongFormat, LongFormat>;
type LMap = BTreeMap<LongFormat, LongFormat>;

fn is_corrupt<T>(r: Result<T>) -> bool {
    matches!(r, Err(DbError::DataCorruption(_)))
}

fn write<S: Store>(store: &mut S, recid: u64, node: &LNode) {
    let ns = NodeSerializer::new(&LongFormat, &LongFormat, 16);
    let mut out = DataOutput2::new();
    ns.serialize(&mut out, node);
    store.update(recid, Some(out.into_vec())).unwrap();
}

#[test]
fn golden_counter_record_is_be_i64() {
    let mut store = StoreOnHeap::new();
    let mut map =
        BTreeMap::create_with_counter(&mut store, LongFormat, LongFormat, 8, true).unwrap();
    for i in 0..5i64 {
        map.put(&mut store, i, i).unwrap();
    }
    let cr = map.counter_recid();
    assert!(cr > 0);
    let v = get_item(&store, cr, &LONG).unwrap().unwrap();
    assert_eq!(v, 5);
    let mut out = DataOutput2::new();
    LONG.serialize(&mut out, &5i64);
    assert_eq!(out.into_vec(), 5i64.to_be_bytes().to_vec());
    assert_eq!(store.get(cr).unwrap(), Some(5i64.to_be_bytes().to_vec()));
    assert_eq!(map.size_long(&store).unwrap(), 5);
}

#[test]
fn zero_root_pointer_open_errors() {
    let mut store = StoreOnHeap::new();
    let rrr = put_item(&mut store, &0i64, &LONG).unwrap();
    assert!(is_corrupt(BTreeMap::open(&store, rrr, LongFormat, LongFormat, 8)));
}

#[test]
fn zero_root_recid_recid_open_errors() {
    let store = StoreOnHeap::new();
    assert!(BTreeMap::open(&store, 0, LongFormat, LongFormat, 8).is_err());
}

#[test]
fn self_cyclic_root_dir_open_errors() {
    let mut store = StoreOnHeap::new();
    let d = store.preallocate().unwrap();
    let dir: LNode = Node {
        flags: DIR | LEFT | RIGHT,
        link: 0,
        keys: vec![5],
        body: NodeBody::Dir { children: vec![d, d] },
    };
    write(&mut store, d, &dir);
    let rrr = put_item(&mut store, &(d as i64), &LONG).unwrap();
    assert!(is_corrupt(BTreeMap::open(&store, rrr, LongFormat, LongFormat, 8)));
}

fn map_with_leaf_cycle() -> (StoreOnHeap, LMap) {
    let mut store = StoreOnHeap::new();
    let leaf_a = store.preallocate().unwrap();
    let leaf_b = store.preallocate().unwrap();
    let root = store.preallocate().unwrap();
    let a: LNode = Node {
        flags: LEFT,
        link: leaf_b,
        keys: vec![1],
        body: NodeBody::Leaf { values: vec![10], fence: Some(100) },
    };
    let b: LNode = Node {
        flags: 0,
        link: leaf_a,
        keys: vec![200],
        body: NodeBody::Leaf { values: vec![20], fence: Some(200) },
    };
    let r: LNode = Node {
        flags: DIR | LEFT | RIGHT,
        link: 0,
        keys: vec![100],
        body: NodeBody::Dir { children: vec![leaf_a, leaf_b] },
    };
    write(&mut store, leaf_a, &a);
    write(&mut store, leaf_b, &b);
    write(&mut store, root, &r);
    let rrr = put_item(&mut store, &(root as i64), &LONG).unwrap();
    let map = BTreeMap::open(&store, rrr, LongFormat, LongFormat, 8).unwrap();
    (store, map)
}

#[test]
fn get_through_leaf_cycle_errors_not_hangs() {
    let (store, map) = map_with_leaf_cycle();
    assert!(is_corrupt(map.get(&store, &300)));
}

#[test]
fn iteration_through_leaf_cycle_errors_not_hangs() {
    let (store, map) = map_with_leaf_cycle();
    let mut saw_err = false;
    let mut count = 0u64;
    let mut it = map.iter(&store).unwrap();
    while let Some(e) = it.next(&map, &store) {
        if e.is_err() {
            saw_err = true;
            break;
        }
        count += 1;
        assert!(count < 5_000_000, "iterator did not terminate");
    }
    assert!(saw_err, "leaf-link cycle must surface as an iterator error");
}

struct FailUpdateStore {
    inner: StoreOnHeap,
    fail_recid: Cell<u64>,
}

impl FailUpdateStore {
    fn new() -> Self {
        FailUpdateStore { inner: StoreOnHeap::new(), fail_recid: Cell::new(0) }
    }
}

impl Store for FailUpdateStore {
    fn state(&self) -> StoreState {
        self.inner.state()
    }
    fn records_finite(&self) {}
    fn preallocate(&mut self) -> Result<u64> {
        self.inner.preallocate()
    }
    fn put(&mut self, data: Vec<u8>) -> Result<u64> {
        self.inner.put(data)
    }
    fn get(&self, recid: u64) -> Result<Option<Vec<u8>>> {
        self.inner.get(recid)
    }
    fn update(&mut self, recid: u64, data: Option<Vec<u8>>) -> Result<()> {
        let f = self.fail_recid.get();
        if f != 0 && f == recid {
            return Err(DbError::corrupt("injected update failure"));
        }
        self.inner.update(recid, data)
    }
    fn delete(&mut self, recid: u64) -> Result<()> {
        self.inner.delete(recid)
    }
    fn get_all_recids(&self) -> Result<Vec<u64>> {
        self.inner.get_all_recids()
    }
    fn is_closed(&self) -> bool {
        self.inner.is_closed()
    }
    fn is_read_only(&self) -> bool {
        self.inner.is_read_only()
    }
    fn is_tx(&self) -> bool {
        self.inner.is_tx()
    }
    fn structural_generation(&self) -> u64 {
        self.inner.structural_generation()
    }
    fn commit(&mut self) -> Result<()> {
        self.inner.commit()
    }
    fn compact(&mut self) -> Result<()> {
        self.inner.compact()
    }
    fn closes(&self) -> bool {
        unreachable!()
    }
    fn close(&mut self) -> Result<()> {
        self.inner.close()
    }
}

#[test]
fn root_grow_failure_poisons_not_hangs() {
    let mut store = FailUpdateStore::new();
    let mut map = BTreeMap::create(&mut store, LongFormat, LongFormat, 4).unwrap();
    store.fail_recid.set(map.root_recid_recid());
    let mut hit_err = false;
    for i in 0..10i64 {
        if map.put(&mut store, i, i).is_err() {
            hit_err = true;
            break;
        }
    }
    assert!(hit_err, "the root-grow update failure must surface as an error");
    assert!(map.put(&mut store, 1000, 1000).is_err(), "poisoned map must reject writes");
    assert!(map.get(&store, &0).is_err(), "poisoned map must reject reads");

    let rrr = map.root_recid_recid();
    drop(map);
    store.fail_recid.set(0);
    let reopened = BTreeMap::open(&store, rrr, LongFormat, LongFormat, 4);
    assert!(
        is_corrupt(reopened),
        "reopen after a failed root-grow must report corruption, not hang"
    );
}

#[test]
fn byte_path_rejects_empty_non_right_dir() {
    let mut store = StoreOnHeap::new();
    let good_leaf = store.preallocate().unwrap();
    let bad_dir = store.preallocate().unwrap();
    let root = store.preallocate().unwrap();
    let leaf: LNode = Node {
        flags: LEFT,
        link: bad_dir,
        keys: vec![1],
        body: NodeBody::Leaf { values: vec![10], fence: Some(50) },
    };
    let bad: LNode = Node {
        flags: DIR,
        link: good_leaf,
        keys: vec![],
        body: NodeBody::Dir { children: vec![] },
    };
    let r: LNode = Node {
        flags: DIR | LEFT | RIGHT,
        link: 0,
        keys: vec![50],
        body: NodeBody::Dir { children: vec![good_leaf, bad_dir] },
    };
    write(&mut store, good_leaf, &leaf);
    write(&mut store, bad_dir, &bad);
    write(&mut store, root, &r);
    let rrr = put_item(&mut store, &(root as i64), &LONG).unwrap();
    let map = BTreeMap::open(&store, rrr, LongFormat, LongFormat, 8).unwrap();
    assert!(is_corrupt(map.get(&store, &100)));
}

#[test]
fn crafted_fake_root_descendant_does_not_replace_root() {
    let mut store = StoreOnHeap::new();
    let a = store.preallocate().unwrap();
    let c = store.preallocate().unwrap();
    let root = store.preallocate().unwrap();
    let node_a: LNode = Node {
        flags: LEFT | RIGHT,
        link: 0,
        keys: vec![10, 20, 30, 40],
        body: NodeBody::Leaf { values: vec![100, 200, 300, 400], fence: None },
    };
    let node_c: LNode = Node {
        flags: RIGHT,
        link: 0,
        keys: vec![100],
        body: NodeBody::Leaf { values: vec![1000], fence: None },
    };
    let node_r: LNode = Node {
        flags: DIR | LEFT | RIGHT,
        link: 0,
        keys: vec![50],
        body: NodeBody::Dir { children: vec![a, c] },
    };
    write(&mut store, a, &node_a);
    write(&mut store, c, &node_c);
    write(&mut store, root, &node_r);
    let rrr = put_item(&mut store, &(root as i64), &LONG).unwrap();
    let mut map = BTreeMap::open(&store, rrr, LongFormat, LongFormat, 4).unwrap();

    map.put(&mut store, 45, 450).unwrap();

    assert_eq!(map.get(&store, &100).unwrap(), Some(1000), "sibling C must not be orphaned");
    assert_eq!(map.get(&store, &10).unwrap(), Some(100));
    assert_eq!(map.get(&store, &40).unwrap(), Some(400));
    assert_eq!(map.get(&store, &45).unwrap(), Some(450));
    assert_eq!(map.root_recid_recid(), rrr);
}

#[test]
fn get_routed_to_null_child_errors_not_absent() {
    let mut store = StoreOnHeap::new();
    let child0 = store.preallocate().unwrap();
    let null_child = store.preallocate().unwrap();
    let root = store.preallocate().unwrap();
    write(
        &mut store,
        child0,
        &Node {
            flags: LEFT | RIGHT,
            link: 0,
            keys: vec![10],
            body: NodeBody::Leaf { values: vec![100], fence: None },
        },
    );
    write(
        &mut store,
        root,
        &Node {
            flags: DIR | LEFT | RIGHT,
            link: 0,
            keys: vec![50],
            body: NodeBody::Dir { children: vec![child0, null_child] },
        },
    );
    let rrr = put_item(&mut store, &(root as i64), &LONG).unwrap();
    let map = BTreeMap::open(&store, rrr, LongFormat, LongFormat, 16).unwrap();
    assert_eq!(map.get(&store, &10).unwrap(), Some(100));
    assert!(is_corrupt(map.get(&store, &100)));
}

fn filled(n: i64, size: usize) -> (StoreOnHeap, LMap) {
    let mut store = StoreOnHeap::new();
    let mut map = BTreeMap::create(&mut store, LongFormat, LongFormat, size).unwrap();
    for i in 0..n {
        let k = (i * 37) % n;
        assert_eq!(map.put(&mut store, k, k * 10).unwrap(), None);
    }
    (store, map)
}

#[test]
fn what_is_put_is_read_back() {
    let (mut store, mut map) = filled(500, 4);
    for k in 0..500 {
        assert_eq!(map.get(&store, &k).unwrap(), Some(k * 10));
    }
    assert_eq!(map.get(&store, &500).unwrap(), None);
    assert_eq!(map.put(&mut store, 7, 1).unwrap(), Some(70));
    assert_eq!(map.get(&store, &7).unwrap(), Some(1));
    assert_eq!(map.get(&store, &8).unwrap(), Some(80));
    assert_eq!(map.put_if_absent(&mut store, 7, 2).unwrap(), Some(1));
    assert_eq!(map.get(&store, &7).unwrap(), Some(1));
    map.put_only(&mut store, 501, 3).unwrap();
    assert!(map.contains_key(&store, &501).unwrap());
    assert_eq!(map.size_long(&store).unwrap(), 501);
}

#[test]
fn what_is_removed_is_gone_and_the_rest_stays() {
    let (mut store, mut map) = filled(300, 4);
    for k in (0..300).step_by(2) {
        assert_eq!(map.remove(&mut store, &k).unwrap(), Some(k * 10));
    }
    for k in 0..300 {
        let want = if k % 2 == 0 { None } else { Some(k * 10) };
        assert_eq!(map.get(&store, &k).unwrap(), want);
    }
    assert_eq!(map.remove(&mut store, &0).unwrap(), None);
    assert!(!map.remove_if(&mut store, &1, &11).unwrap());
    assert!(map.remove_if(&mut store, &1, &10).unwrap());
    assert!(map.remove_only(&mut store, &3).unwrap());
    assert!(!map.remove_only(&mut store, &3).unwrap());
    assert_eq!(map.size_long(&store).unwrap(), 148);
    map.clear(&mut store).unwrap();
    assert!(map.is_empty(&store).unwrap());
    assert_eq!(map.first_entry(&store).unwrap(), None);
}

#[test]
fn replacing_touches_present_keys_only() {
    let (mut store, map) = filled(20, 4);
    assert_eq!(map.replace(&mut store, &5, 1).unwrap(), Some(50));
    assert_eq!(map.replace(&mut store, &99, 1).unwrap(), None);
    assert!(!map.replace_if(&mut store, &5, &50, 2).unwrap());
    assert!(map.replace_if(&mut store, &5, &1, 2).unwrap());
    assert_eq!(map.get(&store, &5).unwrap(), Some(2));
    assert_eq!(map.get(&store, &99).unwrap(), None);
}

#[test]
fn ranges_list_in_both_directions() {
    let (store, map) = filled(200, 4);
    let up = map.entries_in(&store, Some(10), false, Some(20), true).unwrap();
    assert_eq!(up.iter().map(|e| e.0).collect::<Vec<_>>(), (11..=20).collect::<Vec<_>>());
    let mut down = map.descending_entries_in(&store, Some(10), false, Some(20), true).unwrap();
    down.reverse();
    assert_eq!(up, down);
    assert_eq!(map.size_long_range(&store, Some(10), true, Some(20), false).unwrap(), 10);
    assert_eq!(map.entries(&store).unwrap().len(), 200);
    assert_eq!(map.lower_entry(&store, &10).unwrap(), Some((9, 90)));
    assert_eq!(map.floor_entry(&store, &10).unwrap(), Some((10, 100)));
    assert_eq!(map.ceiling_entry(&store, &10).unwrap(), Some((10, 100)));
    assert_eq!(map.higher_entry(&store, &10).unwrap(), Some((11, 110)));
    assert_eq!(map.last_entry(&store).unwrap(), Some((199, 1990)));
}

#[test]
fn polling_takes_the_ends() {
    let (mut store, mut map) = filled(50, 4);
    assert_eq!(map.pop_first(&mut store).unwrap(), Some((0, 0)));
    assert_eq!(map.pop_last(&mut store).unwrap(), Some((49, 490)));
    assert_eq!(
        map.poll_first_entry(&mut store, Some(10), false, None, true).unwrap(),
        Some((11, 110))
    );
    assert_eq!(
        map.poll_last_entry(&mut store, None, true, Some(10), true).unwrap(),
        Some((10, 100))
    );
    assert_eq!(map.size_long(&store).unwrap(), 46);
}

#[test]
fn a_narrower_view_shows_no_more() {
    let (mut store, mut map) = filled(100, 4);
    let view = map.sub_map(10, true, 20, true);
    let inner = view.sub_map(&map, 12, false, 15, true);
    assert_eq!(inner.keys(&map, &store).unwrap(), vec![13, 14, 15]);
    let inner = view.head_map(&map, 15, false);
    assert_eq!(inner.keys(&map, &store).unwrap(), vec![10, 11, 12, 13, 14]);
    let down = inner.descending(&map);
    assert_eq!(down.keys(&map, &store).unwrap(), vec![14, 13, 12, 11, 10]);
    assert!(down.is_descending());
    assert_eq!(
        down.descending(&map).keys(&map, &store).unwrap(),
        inner.keys(&map, &store).unwrap()
    );
    assert_eq!(view.put(&mut map, &mut store, 12, 1).unwrap(), Some(120));
    view.clear(&mut map, &mut store).unwrap();
    assert_eq!(map.size_long(&store).unwrap(), 89);
    assert!(view.is_empty(&map, &store).unwrap());
}

#[test]
fn descending_views_mirror_navigation() {
    let (store, map) = filled(30, 4);
    let d = map.descending();
    assert_eq!(d.first_entry(&map, &store).unwrap(), Some((29, 290)));
    assert_eq!(d.last_key(&map, &store).unwrap(), Some(0));
    assert_eq!(d.lower_key(&map, &store, &10).unwrap(), Some(11));
    assert_eq!(d.higher_key(&map, &store, &10).unwrap(), Some(9));
    let t = d.tail_map(&map, 10, false);
    assert_eq!(t.first_key(&map, &store).unwrap(), Some(9));
    assert_eq!(t.size_long(&map, &store).unwrap(), 10);
    assert!(!t.in_range(&map, &10));
    assert!(t.contains_key(&map, &store, &3).unwrap());
    assert_eq!(t.get(&map, &store, &12).unwrap(), None);
}

#[test]
fn external_values_are_records_of_their_own() {
    let mut store = StoreOnHeap::new();
    let mut map =
        BTreeMap::create_external_values(&mut store, LongFormat, StringSer, 4, true).unwrap();
    for i in 0..40i64 {
        map.put(&mut store, i, format!("v{i}")).unwrap();
    }
    assert!(!map.value_inline());
    let used = store.get_all_recids().unwrap().len();
    map.put(&mut store, 3, "other".to_string()).unwrap();
    assert_eq!(store.get_all_recids().unwrap().len(), used);
    assert_eq!(map.remove(&mut store, &3).unwrap(), Some("other".to_string()));
    assert_eq!(store.get_all_recids().unwrap().len(), used - 1);
    let again = BTreeMap::open_external_values(
        &store,
        map.root_recid_recid(),
        LongFormat,
        StringSer,
        4,
        map.counter_recid(),
    )
    .unwrap();
    assert_eq!(again.size_long(&store).unwrap(), 39);
    assert_eq!(again.get(&store, &39).unwrap(), Some("v39".to_string()));
    assert!(again.shares_state_with(&map));
}

#[test]
fn bulk_load_equals_one_by_one() {
    let mut store = StoreOnHeap::new();
    let entries: Vec<(i64, i64)> = (0..1000).map(|i| (i * 2, i)).collect();
    for fill in [2usize, 4, 16] {
        let mut m = BTreeMap::create_from_sorted_fill(
            &mut store,
            LongFormat,
            LongFormat,
            16,
            fill,
            entries.clone(),
            true,
        )
        .unwrap();
        assert_eq!(m.entries(&store).unwrap(), entries);
        assert_eq!(m.size_long(&store).unwrap(), 1000);
        m.put(&mut store, 1, 1).unwrap();
        assert_eq!(m.get(&store, &1).unwrap(), Some(1));
    }
    let empty =
        BTreeMap::create_from_sorted(&mut store, LongFormat, LongFormat, 8, Vec::new()).unwrap();
    assert!(empty.is_empty(&store).unwrap());
    assert!(matches!(
        BTreeMap::create_from_sorted(&mut store, LongFormat, LongFormat, 8, vec![(2, 0), (2, 1)]),
        Err(DbError::NotSorted)
    ));
    assert_eq!(TreePump::<mapdb::btree::map::bulk::BTreeSink<'_, LongFormat, LongFormat>>::default_fill(32), 24);
}

#[test]
fn a_node_size_out_of_bounds_is_refused() {
    let mut store = StoreOnHeap::new();
    assert!(BTreeMap::create(&mut store, LongFormat, LongFormat, 3).is_err());
    assert!(BTreeMap::create(&mut store, LongFormat, LongFormat, (1 << 20) + 1).is_err());
    assert!(store.get_all_recids().unwrap().is_empty());
    assert!(BTreeMap::create(&mut store, LongFormat, LongFormat, 1 << 20).is_ok());
}

struct UpTo(i64, Vec<i64>);

impl KeyVisitor<i64> for UpTo {
    fn seen(&self) -> Models<LongFormat> {
        unreachable!()
    }

    fn more(&self) -> bool {
        unreachable!()
    }

    fn sound(&self) -> bool {
        true
    }

    fn visit(&mut self, k: &i64) -> bool {
        self.1.push(*k);
        *k < self.0
    }
}

#[test]
fn a_walk_stops_when_told() {
    let (store, map) = filled(60, 4);
    let mut v = UpTo(25, Vec::new());
    map.walk_keys(&store, Some(&20), true, None, true, &mut v).unwrap();
    assert_eq!(v.1, vec![20, 21, 22, 23, 24, 25]);
}

#[test]
fn a_column_is_projected_in_key_order() {
    let mut store = StoreOnHeap::new();
    let rows = PairFormat { first: LongFormat, second: LongFormat };
    let mut map = BTreeMap::create(&mut store, LongFormat, rows, 4).unwrap();
    for i in 0..10i64 {
        map.put(&mut store, i, (i * 10, -i)).unwrap();
    }
    assert_eq!(
        map.for_each_value_column(&store, Some(3), true, Some(6), false, 1).unwrap(),
        vec![(3, -3), (4, -4), (5, -5)]
    );
    assert_eq!(
        map.for_each_value_column(&store, None, true, Some(1), true, 0).unwrap(),
        vec![(0, 0), (1, 10)]
    );
}

#[test]
fn byte_keys_sort_as_unsigned_bytes() {
    let mut store = StoreOnHeap::new();
    let mut map = BTreeMap::create(&mut store, ByteArrayFormat, LongFormat, 4).unwrap();
    for k in [vec![0x80u8], vec![0x7F], vec![], vec![0x7F, 0]] {
        map.put(&mut store, k, 0).unwrap();
    }
    let keys: Vec<Vec<u8>> = map.entries(&store).unwrap().into_iter().map(|e| e.0).collect();
    assert_eq!(keys, vec![vec![], vec![0x7F], vec![0x7F, 0], vec![0x80]]);
}

#[test]
fn two_maps_in_one_store_do_not_touch_each_other() {
    let mut store = StoreOnHeap::new();
    let mut a = BTreeMap::create(&mut store, LongFormat, LongFormat, 4).unwrap();
    let mut b = BTreeMap::create(&mut store, LongFormat, LongFormat, 4).unwrap();
    for i in 0..50i64 {
        a.put(&mut store, i, 1).unwrap();
        b.put(&mut store, i, 2).unwrap();
    }
    a.clear(&mut store).unwrap();
    assert_eq!(b.size_long(&store).unwrap(), 50);
    assert!(!a.shares_state_with(&b));
}

#[test]
fn a_rollback_takes_the_writes_back() {
    let mut store = StoreOnHeap::new_tx();
    let mut map = BTreeMap::create(&mut store, LongFormat, LongFormat, 4).unwrap();
    map.put(&mut store, 1, 1).unwrap();
    store.commit().unwrap();
    for i in 2..40i64 {
        map.put(&mut store, i, i).unwrap();
    }
    store.rollback().unwrap();
    assert_eq!(map.get(&store, &1).unwrap(), Some(1));
    assert_eq!(map.get(&store, &20).unwrap(), None);
    for i in 2..40i64 {
        map.put(&mut store, i, -i).unwrap();
    }
    assert_eq!(map.size_long(&store).unwrap(), 39);
    assert_eq!(map.get(&store, &20).unwrap(), Some(-20));
}

#[test]
fn a_read_only_store_serves_reads_alone() {
    let (store, map) = filled(10, 4);
    let rrr = map.root_recid_recid();
    let mut ro = StoreReadOnlyWrapper::new(store);
    let mut map = BTreeMap::open(&ro, rrr, LongFormat, LongFormat, 4).unwrap();
    assert_eq!(map.get(&ro, &3).unwrap(), Some(30));
    assert!(matches!(map.put(&mut ro, 3, 1), Err(DbError::ReadOnly)));
    assert!(matches!(map.remove(&mut ro, &3), Err(DbError::ReadOnly)));
    ro.commit().unwrap();
    ro.close().unwrap();
    assert!(matches!(map.get(&ro, &3), Err(DbError::StoreClosed)));
}

#[test]
fn a_deleted_record_is_void() {
    let mut store = StoreOnHeap::new();
    let r = store.put(vec![1, 2]).unwrap();
    assert_eq!(r, 1);
    store.delete(r).unwrap();
    assert!(matches!(store.get(r), Err(DbError::GetVoid(1))));
    assert!(matches!(store.get(0), Err(DbError::GetVoid(0))));
    let p = store.preallocate().unwrap();
    assert_eq!(store.get(p).unwrap(), None);
    store.close().unwrap();
    assert!(matches!(store.get(p), Err(DbError::StoreClosed)));
}

#[test]
fn a_read_only_store_keeps_what_a_view_or_a_poll_would_take() {
    let (store, mut map) = filled(20, 4);
    let mut ro = StoreReadOnlyWrapper::new(store);
    let view = map.sub_map(5, true, 9, true);
    let nothing = map.sub_map(5, false, 5, true);
    assert!(matches!(view.put(&mut map, &mut ro, 6, 0), Err(DbError::ReadOnly)));
    assert!(matches!(view.remove(&mut map, &mut ro, &6), Err(DbError::ReadOnly)));
    assert_eq!(view.remove(&mut map, &mut ro, &12).unwrap(), None);
    assert!(matches!(view.clear(&mut map, &mut ro), Err(DbError::ReadOnly)));
    assert!(matches!(view.poll_first_entry(&mut map, &mut ro), Err(DbError::ReadOnly)));
    nothing.clear(&mut map, &mut ro).unwrap();
    assert!(matches!(map.pop_first(&mut ro), Err(DbError::ReadOnly)));
    assert!(matches!(map.pop_last(&mut ro), Err(DbError::ReadOnly)));
    assert!(matches!(map.clear(&mut ro), Err(DbError::ReadOnly)));
    assert_eq!(map.size_long(&ro).unwrap(), 20);
    let made = BTreeMap::create(&mut ro, LongFormat, LongFormat, 8);
    assert!(matches!(made, Err(DbError::ReadOnly)));
}

#[test]
fn a_closed_store_is_reported_where_it_is_asked() {
    let (mut store, mut map) = filled(20, 4);
    let view = map.sub_map(5, true, 9, true);
    let nothing = map.sub_map(5, false, 5, true);
    store.close().unwrap();
    assert!(matches!(map.get(&store, &1), Err(DbError::StoreClosed)));
    assert!(matches!(map.entries(&store), Err(DbError::StoreClosed)));
    assert!(matches!(map.descending_entries_in(&store, None, true, None, true), Err(DbError::StoreClosed)));
    assert!(matches!(map.pop_first(&mut store), Err(DbError::StoreClosed)));
    assert!(matches!(map.clear(&mut store), Err(DbError::StoreClosed)));
    assert!(matches!(view.get(&map, &store, &6), Err(DbError::StoreClosed)));
    assert!(matches!(view.first_entry(&map, &store), Err(DbError::StoreClosed)));
    assert!(matches!(view.size_long(&map, &store), Err(DbError::StoreClosed)));
    assert_eq!(view.get(&map, &store, &12).unwrap(), None);
    assert_eq!(view.lower_key(&map, &store, &5).unwrap(), None);
    assert_eq!(nothing.size_long(&map, &store).unwrap(), 0);
    assert!(nothing.is_empty(&map, &store).unwrap());
    let made = BTreeMap::create(&mut store, LongFormat, LongFormat, 8);
    assert!(matches!(made, Err(DbError::StoreClosed)));
}

#[test]
fn a_store_that_takes_no_records_turns_a_bulk_build_down() {
    let mut ro = StoreReadOnlyWrapper::new(StoreOnHeap::new());
    let sorted: Vec<(i64, i64)> = (0..20).map(|k| (k, k)).collect();
    let mut early = sorted.clone();
    early[4] = (0, 0);
    let mut late = sorted.clone();
    late[5] = (0, 0);
    let mut build = |entries| {
        BTreeMap::create_from_sorted_fill(&mut ro, LongFormat, LongFormat, 8, 4, entries, false)
    };
    assert!(matches!(build(Vec::new()), Err(DbError::ReadOnly)));
    assert!(matches!(build(sorted.clone()), Err(DbError::ReadOnly)));
    assert!(matches!(build(early), Err(DbError::NotSorted)));
    assert!(matches!(build(late), Err(DbError::ReadOnly)));
    let mut closed = StoreOnHeap::new();
    closed.close();
    let r = BTreeMap::create_from_sorted(&mut closed, LongFormat, LongFormat, 8, sorted);
    assert!(matches!(r, Err(DbError::StoreClosed)));
}

#[test]
fn a_column_scan_needs_values_in_the_leaves() {
    let mut store = StoreOnHeap::new();
    let pairs = PairFormat { first: LongFormat, second: LongFormat };
    let map = BTreeMap::create_external_values(&mut store, LongFormat, pairs, 8, false).unwrap();
    let r = map.for_each_value_column(&store, None, true, None, true, 7);
    assert!(matches!(r, Err(DbError::Unsupported(_))));
}

#[test]
fn an_iterator_goes_on_where_the_map_changes_under_way() {
    let (mut store, mut map) = filled(40, 4);
    let mut it = map.iter(&store).unwrap();
    let mut seen = Vec::new();
    for _ in 0..10 {
        seen.push(it.next(&map, &store).unwrap().unwrap().0);
    }
    for k in 100..160 {
        map.put(&mut store, k, k).unwrap();
    }
    for k in 20..30 {
        map.remove(&mut store, &k).unwrap();
    }
    for k in -50..0 {
        map.put(&mut store, k, k).unwrap();
    }
    while let Some(e) = it.next(&map, &store) {
        seen.push(e.unwrap().0);
    }
    assert!(seen.windows(2).all(|w| w[0] < w[1]));
    assert!((0..20).all(|k| seen.contains(&k)));
    assert!((30..40).all(|k| seen.contains(&k)));
    assert!(seen.iter().all(|k| (0..40).contains(k) || (100..160).contains(k)));
    assert!(!seen.contains(&29));
}

#[test]
fn a_descending_iterator_goes_on_where_the_map_changes_under_way() {
    let (mut store, mut map) = filled(400, 4);
    let mut it = map.descending_entry_iter(&store, None, true, None, true).unwrap();
    let mut seen = Vec::new();
    for _ in 0..100 {
        seen.push(it.next(&map, &store).unwrap().unwrap().0);
    }
    assert_eq!(seen.last(), Some(&300));
    for k in -200..0 {
        map.put(&mut store, k, k).unwrap();
    }
    for k in 120..180 {
        map.remove(&mut store, &k).unwrap();
    }
    for k in 1000..1400 {
        map.put(&mut store, k, k).unwrap();
    }
    while let Some(e) = it.next(&map, &store) {
        seen.push(e.unwrap().0);
    }
    assert!(seen.windows(2).all(|w| w[0] > w[1]));
    assert!((0..120).all(|k| seen.contains(&k)));
    assert!((180..400).all(|k| seen.contains(&k)));
    assert!((-200..0).all(|k| seen.contains(&k)));
    assert!(!seen.contains(&150));
    assert!(seen.iter().all(|k| *k < 400));
}

#[test]
fn a_descending_iterator_follows_leaves_that_split_under_way() {
    let mut store = StoreOnHeap::new();
    let mut map = BTreeMap::create(&mut store, LongFormat, LongFormat, 4).unwrap();
    for k in 0..60 {
        map.put(&mut store, k * 100, k).unwrap();
    }
    let mut it = map.descending_entry_iter(&store, None, true, None, true).unwrap();
    let mut seen = vec![it.next(&map, &store).unwrap().unwrap().0];
    assert_eq!(seen, vec![5900]);
    for k in 0..2000 {
        map.put(&mut store, k * 2 + 1, k).unwrap();
    }
    while let Some(e) = it.next(&map, &store) {
        seen.push(e.unwrap().0);
    }
    assert!(seen.windows(2).all(|w| w[0] > w[1]));
    assert!((0..60).all(|k| seen.contains(&(k * 100))));
    assert!((0..2000).all(|k| seen.contains(&(k * 2 + 1))));
    assert_eq!(seen.len(), 2060);
}

#[test]
fn an_iterator_over_values_of_their_own_reads_the_map_as_it_is() {
    let mut store = StoreOnHeap::new();
    let mut map =
        BTreeMap::create_external_values(&mut store, LongFormat, LongFormat, 4, false).unwrap();
    for k in 0..10 {
        map.put(&mut store, k, k).unwrap();
    }
    let mut it = map.iter(&store).unwrap();
    assert_eq!(it.next(&map, &store).unwrap().unwrap(), (0, 0));
    map.remove(&mut store, &1).unwrap();
    map.put(&mut store, 2, -2).unwrap();
    assert_eq!(it.next(&map, &store).unwrap().unwrap(), (2, -2));
    map.put(&mut store, 1, 1).unwrap();
    assert_eq!(it.next(&map, &store).unwrap().unwrap(), (3, 3));
}

#[test]
fn a_map_that_is_open_is_not_opened_again() {
    let mut store = StoreOnHeap::new();
    let mut leases = Leases::new();
    let map = BTreeMap::create(&mut store, LongFormat, LongFormat, 8).unwrap();
    let root = map.root_recid_recid();
    leases.acquire(root).unwrap();
    let second = BTreeMap::open_leased(&store, &mut leases, root, LongFormat, LongFormat, 8);
    assert!(matches!(second, Err(DbError::AlreadyOpen { header_recid }) if header_recid == root));
    map.release(&mut leases);
    assert!(!leases.is_held(root));
    let third =
        BTreeMap::open_leased(&store, &mut leases, root, LongFormat, LongFormat, 8).unwrap();
    assert!(leases.is_held(root));
    let bad = BTreeMap::open_leased(&store, &mut leases, root, LongFormat, LongFormat, 3);
    assert!(matches!(bad, Err(DbError::DataCorruption(_))));
    third.release(&mut leases);
    let gone = BTreeMap::open_leased(&store, &mut leases, 999, LongFormat, LongFormat, 8);
    assert!(gone.is_err());
    assert!(!leases.is_held(999));
}

#[test]
fn a_view_of_a_view_can_have_its_bound() {
    let mut store = StoreOnHeap::new();
    let mut map = BTreeMap::create(&mut store, LongFormat, LongFormat, 4).unwrap();
    for i in 0..10i64 {
        map.put(&mut store, i * 10, i).unwrap();
    }
    let part = map.sub_map(20, false, 60, true);
    let none = part.head_map(&map, 20, false);
    assert!(none.is_empty(&map, &store).unwrap());
    let some = part.tail_map(&map, 60, true);
    assert_eq!(some.entries(&map, &store).unwrap(), vec![(60, 6)]);
}

/// Keeps what a pump writes.
struct Recorder {
    written: RefCell<Vec<(u64, i32, u64, Vec<i64>, Vec<u64>)>>,
}

impl NodeSink for Recorder {
    type KF = LongFormat;
    type VF = LongFormat;

    fn kf(&self) -> LongFormat {
        unreachable!()
    }

    fn vf(&self) -> LongFormat {
        unreachable!()
    }

    fn bytes_of(&self, _n: NodeM<i64, i64>) -> NodeBytes {
        unreachable!()
    }

    fn key_format(&self) -> &LongFormat {
        &LongFormat
    }

    fn compare_keys(&self, a: &i64, b: &i64) -> std::cmp::Ordering {
        a.cmp(b)
    }

    fn write_leaf<S: Store>(
        &self,
        _store: &mut S,
        recid: u64,
        flags: i32,
        link: u64,
        keys: Vec<i64>,
        values: Vec<i64>,
    ) -> Result<()> {
        let values = values.into_iter().map(|v| v as u64).collect();
        self.written.borrow_mut().push((recid, flags, link, keys, values));
        Ok(())
    }

    fn write_dir<S: Store>(
        &self,
        _store: &mut S,
        recid: u64,
        flags: i32,
        link: u64,
        keys: Vec<i64>,
        children: Vec<u64>,
    ) -> Result<()> {
        self.written.borrow_mut().push((recid, flags, link, keys, children));
        Ok(())
    }
}

#[test]
fn a_pump_writes_every_node_once_and_the_root_last() {
    let mut store = StoreOnHeap::new();
    let sink = Recorder { written: RefCell::new(Vec::new()) };
    let mut pump = TreePump::new(&sink, 4, 2);
    for (k, v) in [(10, 1), (20, 2), (30, 3)] {
        pump.put(&mut store, k, v).unwrap();
    }
    assert!(matches!(pump.put(&mut store, 30, 4), Err(DbError::NotSorted)));
    assert_eq!(pump.finish(&mut store).unwrap(), 3);
    assert_eq!(
        sink.written.into_inner(),
        vec![
            (1, 4, 2, vec![10, 20], vec![1, 2]),
            (2, 2, 0, vec![30], vec![3]),
            (3, 14, 0, vec![20], vec![1, 2]),
        ]
    );
}

/// The numbers of keys of the nodes of each level from left to right, leaves first.
fn key_counts(store: &StoreOnHeap, root: u64) -> Vec<Vec<usize>> {
    let ns = NodeSerializer::new(&LongFormat, &LongFormat, 16);
    let read = |recid: u64| -> LNode {
        let bytes = store.get(recid).unwrap().unwrap();
        ns.deserialize(&mut SliceInput::new(&bytes), Some(bytes.len())).unwrap()
    };
    let mut levels = Vec::new();
    let mut level = vec![root];
    while !level.is_empty() {
        let nodes: Vec<LNode> = level.iter().map(|r| read(*r)).collect();
        levels.insert(0, nodes.iter().map(|n| n.keys.len()).collect());
        level = nodes
            .into_iter()
            .flat_map(|n| match n.body {
                NodeBody::Dir { children } => children,
                _ => Vec::new(),
            })
            .collect();
    }
    levels
}

#[test]
fn no_node_grows_beyond_its_size() {
    let mut store = StoreOnHeap::new();
    let mut map = BTreeMap::create(&mut store, LongFormat, LongFormat, 4).unwrap();
    for i in 0..200i64 {
        let k = (i * 37) % 200;
        map.put(&mut store, k, i).unwrap();
        if i % 3 == 0 {
            map.remove(&mut store, &((i * 11) % 200)).unwrap();
        }
        let root = get_item(&store, map.root_recid_recid(), &LONG).unwrap().unwrap();
        let counts = key_counts(&store, root as u64);
        assert!(counts.iter().flatten().all(|n| *n <= 4));
    }
}

#[test]
fn a_full_leaf_is_split_in_half() {
    let mut store = StoreOnHeap::new();
    let mut map = BTreeMap::create(&mut store, LongFormat, LongFormat, 4).unwrap();
    let pointer = map.root_recid_recid();
    for i in 0..4i64 {
        map.put(&mut store, i, i).unwrap();
    }
    let root = get_item(&store, pointer, &LONG).unwrap().unwrap();
    assert_eq!(key_counts(&store, root as u64), vec![vec![4]]);
    map.put(&mut store, 4, 4).unwrap();
    let root = get_item(&store, pointer, &LONG).unwrap().unwrap();
    assert_eq!(key_counts(&store, root as u64), vec![vec![2, 3], vec![1]]);
}

#[test]
fn a_bulk_build_fills_every_node_but_the_last() {
    let mut store = StoreOnHeap::new();
    let build = |store: &mut StoreOnHeap, n: i64| {
        let entries: Vec<(i64, i64)> = (0..n).map(|i| (i, i)).collect();
        let map = BTreeMap::create_from_sorted_fill(
            store, LongFormat, LongFormat, 8, 3, entries, false,
        )
        .unwrap();
        let root = get_item(store, map.root_recid_recid(), &LONG).unwrap().unwrap();
        key_counts(store, root as u64)
    };
    assert_eq!(build(&mut store, 0), vec![vec![0]]);
    assert_eq!(build(&mut store, 3), vec![vec![3]]);
    assert_eq!(build(&mut store, 4), vec![vec![3, 1], vec![1]]);
    assert_eq!(build(&mut store, 6), vec![vec![3, 3], vec![1]]);
    assert_eq!(
        build(&mut store, 14),
        vec![vec![3, 3, 3, 3, 2], vec![3, 1], vec![1]]
    );
}
