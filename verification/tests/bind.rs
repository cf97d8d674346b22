use mapdb::btree::map::BTreeMap;
use mapdb::db::atomic::AtomicLong;
use mapdb::db::bind::{
    histogram, map_inverse, map_put_after_delete, reject_self_bind, secondary_key, secondary_keys,
    secondary_value, secondary_values, size, Derive, DeriveMany, OneOf, ValueIndex,
    ValueItself,
};
use mapdb::db::bound::{Both, BoundMap, Free};
use mapdb::db::secondary::{SecondaryMap, SecondarySet};
use mapdb::error::DbError;
use mapdb::ser::{LongFormat, Model, Models, PairFormat, StringSer, LONG};
use mapdb::store::{put_item, StoreOnHeap};

type Primary = BoundMap<LongFormat, StringSer, Free, Free>;

struct Length;

impl Derive<LongFormat, StringSer, LongFormat> for Length {
    fn derived(&self, _k: Model<LongFormat>, _v: Model<StringSer>) -> Model<LongFormat> {
        unreachable!()
    }

    fn derive(&self, _k: &i64, v: &String) -> i64 {
        v.len() as i64
    }
}

struct Prefixed(&'static str);

impl Derive<LongFormat, StringSer, StringSer> for Prefixed {
    fn derived(&self, _k: Model<LongFormat>, _v: Model<StringSer>) -> Model<StringSer> {
        unreachable!()
    }

    fn derive(&self, _k: &i64, v: &String) -> String {
        format!("{}{}", self.0, v)
    }
}

struct Initial;

impl Derive<LongFormat, StringSer, StringSer> for Initial {
    fn derived(&self, _k: Model<LongFormat>, _v: Model<StringSer>) -> Model<StringSer> {
        unreachable!()
    }

    fn derive(&self, _k: &i64, v: &String) -> String {
        v.chars().take(1).collect()
    }
}

struct Words;

impl DeriveMany<LongFormat, StringSer, StringSer> for Words {
    fn derived_all(&self, _k: Model<LongFormat>, _v: Model<StringSer>) -> Models<StringSer> {
        unreachable!()
    }

    fn derive_all(&self, _k: &i64, v: &String) -> Vec<String> {
        v.split(',').map(|w| w.to_string()).collect()
    }
}

fn s(v: &str) -> String {
    v.to_string()
}

fn primary(node: usize) -> (StoreOnHeap, Primary) {
    let mut store = StoreOnHeap::new();
    let map = BTreeMap::create(&mut store, LongFormat, StringSer, node).unwrap();
    (store, BoundMap::new(map))
}

#[test]
fn bind_secondary_indexes_histogram_and_delete_sink() {
    let (mut store, map) = primary(32);
    let lengths = SecondaryMap::new(LongFormat, LongFormat);
    let mut map = secondary_value(map, &mut store, lengths, Length).ok().unwrap();
    map.put(&mut store, 1, s("red,round")).unwrap();
    assert_eq!(map.sync().second.secondary.get(&1), Some(9));

    let inverse = SecondaryMap::new(StringSer, LongFormat);
    let rule = ValueItself { format: StringSer };
    let map = map_inverse(map, &mut store, inverse, rule).ok().unwrap();
    let words = SecondarySet::new(PairFormat { first: StringSer, second: LongFormat });
    let map = secondary_keys(map, &store, words, Words, StringSer).ok().unwrap();
    let initials = SecondaryMap::new(StringSer, LongFormat);
    let map = histogram(map, &store, initials, Initial).ok().unwrap();
    let deleted = SecondaryMap::new(LongFormat, StringSer);
    let mut map = map_put_after_delete(map, &store, deleted);

    map.put(&mut store, 2, s("blue,square")).unwrap();
    map.put(&mut store, 1, s("red,square")).unwrap();
    let inverse = &map.sync().first.second.secondary;
    assert_eq!(inverse.get(&s("red,square")), Some(1));
    assert!(!inverse.contains_key(&s("red,round")));
    let words = &map.sync().second.secondary;
    assert!(words.contains(&(s("square"), 1)));
    assert!(!words.contains(&(s("round"), 1)));
    let initials = &map.deferred().first.second.counts;
    assert_eq!(initials.get(&s("r")), Some(1));
    assert_eq!(initials.get(&s("b")), Some(1));

    map.remove(&mut store, &2).unwrap();
    assert_eq!(map.deferred().second.deleted.get(&2), Some(s("blue,square")));
    assert!(!map.deferred().first.second.counts.contains_key(&s("b")));
}

#[test]
fn bind_size_and_self_bind_rejection() {
    let (mut store, mut map) = primary(32);
    map.put(&mut store, 1, s("one")).unwrap();
    let counter_recid = put_item(&mut store, &0i64, &LONG).unwrap();
    let counter = AtomicLong::new(counter_recid);
    let mut map = size(map, &mut store, AtomicLong::new(counter_recid)).ok().unwrap();
    assert_eq!(counter.get(&store).unwrap(), 1);
    map.put(&mut store, 2, s("two")).unwrap();
    map.put(&mut store, 2, s("two updated")).unwrap();
    map.remove(&mut store, &1).unwrap();
    assert_eq!(counter.get(&store).unwrap(), 1);

    let again =
        BTreeMap::open(&store, map.map().root_recid_recid(), LongFormat, StringSer, 32).unwrap();
    assert!(reject_self_bind(map.map(), &again).is_err());
    let other = BTreeMap::create(&mut store, LongFormat, StringSer, 32).unwrap();
    assert!(reject_self_bind(map.map(), &other).is_ok());
}

#[test]
fn bind_unique_secondary_rejects_duplicate_derived_keys() {
    let (mut store, map) = primary(32);
    let unique = SecondaryMap::new(LongFormat, LongFormat);
    let mut map = secondary_key(map, &mut store, unique, Length).ok().unwrap();
    map.put(&mut store, 1, s("same")).unwrap();
    assert!(map.put(&mut store, 2, s("size")).is_err());
}

#[test]
fn bind_installs_over_prepopulated_primary() {
    let (mut store, mut map) = primary(32);
    map.put(&mut store, 1, s("alpha")).unwrap();
    map.put(&mut store, 2, s("beta")).unwrap();
    let lengths = SecondaryMap::new(LongFormat, LongFormat);
    let mut map = secondary_value(map, &mut store, lengths, Length).ok().unwrap();
    assert_eq!(map.sync().second.secondary.get(&1), Some(5));
    assert_eq!(map.sync().second.secondary.get(&2), Some(4));
    map.put(&mut store, 3, s("xy")).unwrap();
    assert_eq!(map.sync().second.secondary.get(&3), Some(2));
}

#[test]
fn bind_map_inverse_rejects_duplicate_value() {
    let (mut store, map) = primary(32);
    let rule = ValueItself { format: StringSer };
    let inverse = SecondaryMap::new(StringSer, LongFormat);
    let mut map = map_inverse(map, &mut store, inverse, rule).ok().unwrap();
    map.put(&mut store, 1, s("dup")).unwrap();
    assert!(matches!(
        map.put(&mut store, 2, s("dup")),
        Err(DbError::WrongConfiguration(_))
    ));
}

#[test]
fn bind_self_bind_via_persistent_secondary_rejected() {
    let (mut store, map) = primary(32);
    let again =
        BTreeMap::open(&store, map.map().root_recid_recid(), LongFormat, StringSer, 32).unwrap();
    let res = secondary_value(map, &mut store, again, Prefixed(""));
    assert!(matches!(res.err().unwrap().error, DbError::WrongConfiguration(_)));
}

#[test]
fn bind_secondary_value_survives_node_splits() {
    let (mut store, map) = primary(4);
    let mirror = SecondaryMap::new(LongFormat, StringSer);
    let mut map = secondary_value(map, &mut store, mirror, Prefixed("m:")).ok().unwrap();
    for i in 0..20i64 {
        map.put(&mut store, i, format!("v{i}")).unwrap();
    }
    for i in 0..20i64 {
        assert_eq!(map.sync().second.secondary.get(&i), Some(format!("m:v{i}")));
    }
    map.remove(&mut store, &7).unwrap();
    assert_eq!(map.sync().second.secondary.get(&7), None);
    assert_eq!(map.sync().second.secondary.len(), 19);
}

#[test]
fn a_persistent_map_serves_as_an_index() {
    let (mut store, mut map) = primary(4);
    for i in 0..10i64 {
        map.put(&mut store, i, "a".repeat(i as usize + 1)).unwrap();
    }
    let index = BTreeMap::create(&mut store, LongFormat, LongFormat, 4).unwrap();
    let mut map = secondary_key(map, &mut store, index, Length).ok().unwrap();
    assert_eq!(map.sync().second.secondary.size_long(&store).unwrap(), 10);
    assert_eq!(map.sync().second.secondary.get(&store, &4).unwrap(), Some(3));
    map.put(&mut store, 3, "a".repeat(50)).unwrap();
    assert_eq!(map.sync().second.secondary.get(&store, &4).unwrap(), None);
    assert_eq!(map.sync().second.secondary.get(&store, &50).unwrap(), Some(3));
    map.clear(&mut store).unwrap();
    assert!(map.map().is_empty(&store).unwrap());
    assert!(map.sync().second.secondary.is_empty(&store).unwrap());
}

#[test]
fn pairs_list_every_derived_thing() {
    let (mut store, mut map) = primary(4);
    map.put(&mut store, 1, s("x,y")).unwrap();
    map.put(&mut store, 2, s("y")).unwrap();
    let by_key = SecondarySet::new(PairFormat { first: LongFormat, second: StringSer });
    let mut map = secondary_values(map, &store, by_key, Words, StringSer).ok().unwrap();
    let by_key = &map.sync().second.secondary;
    assert_eq!(by_key.len(), 3);
    assert!(by_key.contains(&(1, s("x"))) && by_key.contains(&(2, s("y"))));
    map.remove(&mut store, &1).unwrap();
    assert_eq!(map.sync().second.secondary.len(), 1);
    map.put(&mut store, 1, s("x,y")).unwrap();
    let by_length = SecondarySet::new(PairFormat { first: LongFormat, second: LongFormat });
    let rule = OneOf { rule: Length };
    let map = secondary_keys(map, &store, by_length, rule, LongFormat).ok().unwrap();
    let by_length = &map.sync().second.secondary;
    assert!(by_length.contains(&(3, 1)) && by_length.contains(&(1, 2)));
}

#[test]
fn a_full_secondary_is_left_alone() {
    let (mut store, mut map) = primary(4);
    map.put(&mut store, 1, s("x")).unwrap();
    let mut lengths = SecondaryMap::new(LongFormat, LongFormat);
    lengths.put(77, 1);
    let map = secondary_value(map, &mut store, lengths, Length).ok().unwrap();
    assert_eq!(map.sync().second.secondary.len(), 1);
    assert_eq!(map.sync().second.secondary.get(&1), None);
}

type Mirrored = BoundMap<
    LongFormat,
    StringSer,
    Both<Free, ValueIndex<StringSer, SecondaryMap<LongFormat, StringSer>, Prefixed>>,
    Free,
>;

fn index_of(map: &Mirrored) -> &SecondaryMap<LongFormat, StringSer> {
    &map.sync().second.secondary
}

fn at(map: &Mirrored, k: i64) -> Option<String> {
    index_of(map).get(&k)
}

#[test]
fn every_change_reaches_the_index() {
    let (mut store, map) = primary(4);
    let mirror = SecondaryMap::new(LongFormat, StringSer);
    let mut map = secondary_value(map, &mut store, mirror, Prefixed("m:")).ok().unwrap();
    map.put_only(&mut store, 1, s("a")).unwrap();
    assert_eq!(map.put_if_absent(&mut store, 1, s("b")).unwrap(), Some(s("a")));
    assert_eq!(at(&map, 1), Some(s("m:a")));
    assert_eq!(map.put_if_absent(&mut store, 2, s("b")).unwrap(), None);
    assert_eq!(at(&map, 2), Some(s("m:b")));
    assert_eq!(map.replace(&mut store, &2, s("c")).unwrap(), Some(s("b")));
    assert_eq!(at(&map, 2), Some(s("m:c")));
    assert_eq!(map.replace(&mut store, &9, s("c")).unwrap(), None);
    assert_eq!(at(&map, 9), None);
    assert!(!map.replace_if(&mut store, &2, &s("x"), s("d")).unwrap());
    assert!(map.replace_if(&mut store, &2, &s("c"), s("d")).unwrap());
    assert_eq!(at(&map, 2), Some(s("m:d")));
    assert!(!map.remove_if(&mut store, &2, &s("c")).unwrap());
    assert!(map.remove_if(&mut store, &2, &s("d")).unwrap());
    assert_eq!(at(&map, 2), None);
    assert!(!map.remove_only(&mut store, &2).unwrap());
    assert!(map.remove_only(&mut store, &1).unwrap());
    assert_eq!(at(&map, 1), None);
    for i in 0..9i64 {
        map.put(&mut store, i, s("v")).unwrap();
    }
    assert_eq!(map.pop_first(&mut store).unwrap(), Some((0, s("v"))));
    assert_eq!(map.pop_last(&mut store).unwrap(), Some((8, s("v"))));
    assert_eq!(
        map.poll_first_entry(&mut store, Some(3), true, None, true).unwrap(),
        Some((3, s("v")))
    );
    assert_eq!(
        map.poll_last_entry(&mut store, None, true, Some(5), false).unwrap(),
        Some((4, s("v")))
    );
    assert_eq!(index_of(&map).keys(), vec![1, 2, 5, 6, 7]);
    map.clear(&mut store).unwrap();
    assert!(index_of(&map).is_empty());
    assert_eq!(map.pop_first(&mut store).unwrap(), None);
}

#[test]
fn a_refused_value_stands_in_the_map() {
    let (mut store, map) = primary(4);
    let rule = ValueItself { format: StringSer };
    let inverse = SecondaryMap::new(StringSer, LongFormat);
    let map = map_inverse(map, &mut store, inverse, rule).ok().unwrap();
    let counter_recid = put_item(&mut store, &0i64, &LONG).unwrap();
    let counter = AtomicLong::new(counter_recid);
    let mut map = size(map, &mut store, AtomicLong::new(counter_recid)).ok().unwrap();
    map.put(&mut store, 1, s("dup")).unwrap();
    assert!(map.put(&mut store, 2, s("dup")).is_err());
    assert_eq!(map.map().get(&store, &2).unwrap(), Some(s("dup")));
    assert_eq!(map.sync().second.secondary.get(&s("dup")), Some(1));
    assert_eq!(counter.get(&store).unwrap(), 1);
}

#[test]
fn a_map_with_equal_values_is_handed_back() {
    let (mut store, mut map) = primary(4);
    map.put(&mut store, 1, s("dup")).unwrap();
    map.put(&mut store, 2, s("dup")).unwrap();
    let rule = ValueItself { format: StringSer };
    let inverse = SecondaryMap::new(StringSer, LongFormat);
    let refused = map_inverse(map, &mut store, inverse, rule).err().unwrap();
    assert!(matches!(refused.error, DbError::WrongConfiguration(_)));
    let mut map = refused.map;
    map.put(&mut store, 3, s("dup")).unwrap();
    assert_eq!(map.map().size_long(&store).unwrap(), 3);
}

#[test]
fn a_refused_change_leaves_the_row_of_the_owner() {
    let (mut store, map) = primary(4);
    let mirror = SecondaryMap::new(LongFormat, StringSer);
    let map = secondary_value(map, &mut store, mirror, Prefixed("m:")).ok().unwrap();
    let index = BTreeMap::create(&mut store, LongFormat, LongFormat, 4).unwrap();
    let map = secondary_key(map, &mut store, index, Length).ok().unwrap();
    let sizes = SecondaryMap::new(StringSer, LongFormat);
    let mut map = histogram(map, &store, sizes, Initial).ok().unwrap();
    map.put(&mut store, 1, s("a")).unwrap();
    map.put(&mut store, 2, s("bb")).unwrap();
    let refused = map.put(&mut store, 2, s("c"));
    assert!(matches!(refused, Err(DbError::WrongConfiguration(_))));
    assert_eq!(map.map().get(&store, &2).unwrap(), Some(s("c")));
    let index = &map.sync().second.secondary;
    assert_eq!(index.get(&store, &1).unwrap(), Some(1));
    assert_eq!(index.get(&store, &2).unwrap(), None);
    let mirror = &map.sync().first.second.secondary;
    assert_eq!(mirror.get(&2), Some(s("m:c")));
    let counts = &map.deferred().second.counts;
    assert_eq!(counts.get(&s("b")), Some(1));
    assert_eq!(counts.get(&s("c")), None);
}

#[test]
fn a_binding_is_told_although_one_before_it_refuses() {
    let (mut store, map) = primary(4);
    let unique = SecondaryMap::new(LongFormat, LongFormat);
    let map = secondary_key(map, &mut store, unique, Length).ok().unwrap();
    let mirror = SecondaryMap::new(LongFormat, StringSer);
    let mut map = secondary_value(map, &mut store, mirror, Prefixed("m:")).ok().unwrap();
    map.put(&mut store, 1, s("same")).unwrap();
    let refused = map.put(&mut store, 2, s("size"));
    assert!(matches!(refused, Err(DbError::WrongConfiguration(_))));
    assert_eq!(map.sync().second.secondary.get(&2), Some(s("m:size")));
    assert_eq!(map.sync().first.second.secondary.get(&4), Some(1));
    assert_eq!(map.sync().first.second.secondary.len(), 1);
}
