//! What holds of a database as a whole.

use vstd::prelude::*;
use crate::btree::map::BTreeMap;
use crate::error::Result;
use crate::queue::blocking::{header_at, mode_number, Mode, PersistentBlockingQueue};
use crate::ser::{KeyFormat, Serializer, STRING};
use crate::store::{opt_model, Store, StoreState};
use super::atomic::{AtomicBoolean, AtomicInteger, AtomicLong, AtomicString, AtomicVar};
use super::catalog::{catalog_bytes, catalog_fits, law_catalog_round_trip, Names, RECID_CATALOG};
use super::db::{catalog_in, lists_names, load_post, DbRollback, DB};
use super::descriptor::{name_or_custom, valid_group, valid_ser, GroupDescriptor, SerDescriptor};
use super::makers::{
    config_of, queue_type_of, AtomicBooleanMaker, AtomicIntegerMaker, AtomicLongMaker,
    AtomicStringMaker, AtomicVarMaker, QueueMaker, TreeMapMaker, TreeSetMaker,
};
use super::objects::{
    law_atomic_registered, law_coded_registered, law_map_registered, law_set_registered,
    registrable, with_atomic, with_coded, with_map, with_set, TreeConfig,
};
use super::schema::{catalog_ok, field_key, valid_name};
use super::set::NavigableSet;

verus! {

/// A number that was created is what opens under its name, with its value.
pub proof fn law_number_reopens<S: Store>(
    maker: &AtomicLongMaker,
    opener: &AtomicLongMaker,
    db: &DB<S>,
    after: &DB<S>,
    made: AtomicLong,
    r: Result<AtomicLong>,
)
    requires
        catalog_ok(db.names()),
        opener.title() == maker.title(),
        maker.create_post(db, after, Ok(made)),
        opener.open_post(after, r),
        db.state().records.contains_key(RECID_CATALOG),
    ensures
        r matches Ok(o) && o.at() == made.at()
            && o.value(after.state().records) == Some(maker.first()),
        catalog_ok(after.names()),
{
    reveal_strlit("AtomicLong");
    law_atomic_registered(db.names(), maker.title(), "AtomicLong"@, made.at());
}

/// A 32-bit number that was created is what opens under its name, with its value.
pub proof fn law_integer_reopens<S: Store>(
    maker: &AtomicIntegerMaker,
    opener: &AtomicIntegerMaker,
    db: &DB<S>,
    after: &DB<S>,
    made: AtomicInteger,
    r: Result<AtomicInteger>,
)
    requires
        catalog_ok(db.names()),
        opener.title() == maker.title(),
        maker.create_post(db, after, Ok(made)),
        opener.open_post(after, r),
        db.state().records.contains_key(RECID_CATALOG),
    ensures
        r matches Ok(o) && o.at() == made.at()
            && o.value(after.state().records) == Some(maker.first()),
        catalog_ok(after.names()),
{
    reveal_strlit("AtomicInteger");
    law_atomic_registered(db.names(), maker.title(), "AtomicInteger"@, made.at());
}

/// A truth value that was created is what opens under its name, with its value.
pub proof fn law_boolean_reopens<S: Store>(
    maker: &AtomicBooleanMaker,
    opener: &AtomicBooleanMaker,
    db: &DB<S>,
    after: &DB<S>,
    made: AtomicBoolean,
    r: Result<AtomicBoolean>,
)
    requires
        catalog_ok(db.names()),
        opener.title() == maker.title(),
        maker.create_post(db, after, Ok(made)),
        opener.open_post(after, r),
        db.state().records.contains_key(RECID_CATALOG),
    ensures
        r matches Ok(o) && o.at() == made.at()
            && o.value(after.state().records) == Some(maker.first()),
        catalog_ok(after.names()),
{
    reveal_strlit("AtomicBoolean");
    law_atomic_registered(db.names(), maker.title(), "AtomicBoolean"@, made.at());
}

/// A string that was created is what opens under its name, with its value.
pub proof fn law_string_reopens<S: Store>(
    maker: &AtomicStringMaker,
    opener: &AtomicStringMaker,
    db: &DB<S>,
    after: &DB<S>,
    made: AtomicString,
    r: Result<AtomicString>,
)
    requires
        catalog_ok(db.names()),
        opener.title() == maker.title(),
        maker.create_post(db, after, Ok(made)),
        opener.open_post(after, r),
        db.state().records.contains_key(RECID_CATALOG),
    ensures
        r matches Ok(o) && o.at() == made.at()
            && o.value(after.state().records) == Some(maker.first()@),
        catalog_ok(after.names()),
{
    reveal_strlit("AtomicString");
    law_atomic_registered(db.names(), maker.title(), "AtomicString"@, made.at());
}

/// A value with a codec of its own that was created is what opens under its name.
pub proof fn law_var_reopens<S: Store, Se: Serializer + SerDescriptor>(
    maker: &AtomicVarMaker<Se>,
    opener: &AtomicVarMaker<Se>,
    db: &DB<S>,
    after: &DB<S>,
    made: AtomicVar<Se>,
    r: Result<AtomicVar<Se>>,
)
    requires
        catalog_ok(db.names()),
        valid_ser(name_or_custom(maker.codec().ser_name())),
        opener.title() == maker.title(),
        opener.codec() == maker.codec(),
        maker.create_post(db, after, Ok(made)),
        opener.open_post(after, r),
        db.state().records.contains_key(RECID_CATALOG),
    ensures
        r matches Ok(o) && o.at() == made.at() && o.ser() == made.ser()
            && o.value(after.state().records) == Some(opt_model(maker.first())),
        catalog_ok(after.names()),
{
    law_coded_registered(
        db.names(),
        maker.title(),
        "AtomicVar"@,
        "recid"@,
        made.at(),
        name_or_custom(maker.codec().ser_name()),
    );
}

/// A set that was created is what opens under its name, and it is empty.
pub proof fn law_set_reopens<S: Store, KF: KeyFormat + GroupDescriptor>(
    maker: &TreeSetMaker<KF>,
    db: &DB<S>,
    after: &DB<S>,
    made: NavigableSet<KF>,
    r: Result<NavigableSet<KF>>,
)
    requires
        catalog_ok(db.names()),
        valid_group(name_or_custom(maker.kf().group_name())),
        db.publishable(),
        db.state().room >= 3,
        maker.create_post(db, after, Ok(made)),
        maker.open_post(after, r),
    ensures
        r matches Ok(o) && o.wf(after.state().records) && o.backing().pointer()
            == made.backing().pointer() && o.elements(after.state().records)
            == Set::<crate::ser::Model<KF>>::empty(),
        r matches Ok(o) && o.kf() == maker.kf() && o.backing().node_size() == maker.node_size() && (
        o.backing().counter() != 0) == maker.counted(),
        catalog_ok(after.names()),
{
    let c = config_of(&made.backing());
    made.backing().lemma_parameters(after.state().records);
    assert(registrable(c));
    law_set_registered(
        db.names(),
        maker.title(),
        name_or_custom(maker.kf().group_name()),
        c,
    );
    made.backing().law_contents_are_stored(after.state().records);
}

/// The catalog tells queues, stacks and circular queues apart.
pub proof fn law_queue_types()
    ensures
        queue_type_of(Mode::Fifo) == "Queue"@,
        queue_type_of(Mode::Lifo) == "Stack"@,
        queue_type_of(Mode::Circular) == "CircularQueue"@,
{
}

/// A new object can have a name exactly where the name is legal, the database is open and
/// no object has it yet.
pub proof fn law_free_names<S: Store>(db: &DB<S>, name: Seq<char>)
    ensures
        db.free_name(name) <==> valid_name(name) && !db.is_shut() && !db.names().contains_key(
            name + "#type"@,
        ),
{
    reveal_strlit("#");
    reveal_strlit("type");
    reveal_strlit("#type");
    assert(name + "#"@ + "type"@ =~= name + "#type"@);
}

/// A map that was created is what opens under its name, and it is empty.
pub proof fn law_map_reopens<
    S: Store,
    KF: KeyFormat + GroupDescriptor,
    VF: Serializer + GroupDescriptor,
>(
    maker: &TreeMapMaker<KF, VF>,
    db: &DB<S>,
    after: &DB<S>,
    made: BTreeMap<KF, VF>,
    r: Result<BTreeMap<KF, VF>>,
)
    requires
        catalog_ok(db.names()),
        valid_group(name_or_custom(maker.kf().group_name())),
        valid_group(name_or_custom(maker.vf().group_name())),
        db.publishable(),
        db.state().room >= 3,
        maker.create_post(db, after, Ok(made)),
        maker.open_post(after, r),
    ensures
        r matches Ok(o) && o.wf(after.state().records) && o.pointer() == made.pointer()
            && o.contents(
            after.state().records,
        ) == Map::<crate::ser::Model<KF>, crate::ser::Model<VF>>::empty(),
        r matches Ok(o) && o.kf() == maker.kf() && o.vf() == maker.vf() && o.node_size()
            == maker.node_size() && (o.counter() != 0) == maker.counted() && o.inline()
            == !maker.outside(),
        catalog_ok(after.names()),
{
    let c = config_of(&made);
    let n = maker.title();
    made.lemma_parameters(after.state().records);
    assert(registrable(c));
    law_map_registered(
        db.names(),
        n,
        name_or_custom(maker.kf().group_name()),
        name_or_custom(maker.vf().group_name()),
        c,
    );
    made.law_contents_are_stored(after.state().records);
}

/// A queue that was created is what opens under its name, and it is empty.
pub proof fn law_queue_reopens<S: Store, Se: Serializer + SerDescriptor>(
    maker: &QueueMaker<Se>,
    db: &DB<S>,
    after: &DB<S>,
    made: PersistentBlockingQueue<Se>,
    r: Result<PersistentBlockingQueue<Se>>,
)
    requires
        catalog_ok(db.names()),
        valid_ser(name_or_custom(maker.codec().ser_name())),
        db.publishable(),
        maker.create_post(db, after, Ok(made)),
        maker.open_post(after, r),
    ensures
        r matches Ok(o) && o.header_id() == made.header_id() && o.wf(after.state().records)
            && o.elements(
            after.state().records,
        ).len() == 0,
        r matches Ok(o) && o.ser() == maker.codec() && o.header_of(after.state().records).mode
            == mode_number(maker.order()) && o.header_of(after.state().records).capacity == (
        if maker.order() == Mode::Circular {
            maker.limit()
        } else {
            i64::MAX as u64
        }),
        catalog_ok(after.names()),
{
    let b = after.state().records;
    let n = maker.title();
    let ty = queue_type_of(maker.order());
    let c = made.chain(b);
    assert(made.holds(b, c));
    after.backing().records_finite();
    assert(made.header_id() != 0);
    law_coded_registered(
        db.names(),
        n,
        ty,
        "headerRecid"@,
        made.header_id(),
        name_or_custom(maker.codec().ser_name()),
    );
    let h = made.header_of(b);
    assert(header_at(b, made.header_id()) == Some(h));
    assert(made.elements(b).len() == c.len());
    assert(h.size == 0);
    assert(r is Ok);
    let o = r.unwrap();
    assert(o.holds(b, c));
    o.law_chain_is_unique(b, c);
}

/// A store that is opened again has the catalog that was written last.
pub proof fn law_catalog_survives(
    st: StoreState,
    b: StoreState,
    m: Names,
    opened: Option<Names>,
    r: Result<()>,
)
    requires
        st.readable,
        catalog_ok(m),
        catalog_fits(m),
        st.records.contains_key(RECID_CATALOG),
        st.records[RECID_CATALOG] == Some(catalog_bytes(m)),
        load_post(st, b, opened, r),
    ensures
        opened == Some(m),
        b == st,
{
    law_catalog_round_trip(m);
    assert(st.records != Map::<u64, Option<Seq<u8>>>::empty());
}

/// Rolling back after a commit brings back the records and the names of the commit.
pub proof fn law_rollback_restores<S: DbRollback>(
    committed: &DB<S>,
    later: &DB<S>,
    back: &DB<S>,
    r: Result<()>,
)
    requires
        catalog_ok(committed.names()),
        catalog_in(committed.state().records) == Some(committed.names()),
        !later.is_shut(),
        later.state().tx && later.state().readable && later.state().writable,
        later.state().saved == committed.state().records,
        back.rolled_back(later, r),
    ensures
        r is Ok,
        back.names() == committed.names(),
        back.state().records == committed.state().records,
{
}

/// Deleting a single value frees the record that it was registered with.
pub proof fn law_deleted_value_is_freed<S: Store>(
    m: Names,
    n: Seq<char>,
    ty: Seq<char>,
    recid: u64,
    codec: Seq<char>,
)
    requires
        catalog_ok(m),
        valid_name(n),
        !m.contains_key(n + "#"@ + "type"@),
        ty == "AtomicLong"@ || ty == "AtomicInteger"@ || ty == "AtomicBoolean"@ || ty
            == "AtomicString"@,
        valid_ser(codec),
        recid >= 1,
    ensures
        DB::<S>::freed(with_atomic(m, n, ty, recid), n) == Some(recid),
        DB::<S>::freed(with_coded(m, n, "AtomicVar"@, "recid"@, recid, codec), n) == Some(recid),
{
    law_atomic_registered(m, n, ty, recid);
    law_coded_registered(m, n, "AtomicVar"@, "recid"@, recid, codec);
}

/// Deleting a collection frees no record by itself.
pub proof fn law_deleted_collection_keeps_records<S: Store>(
    m: Names,
    n: Seq<char>,
    mode: Mode,
    recid: u64,
    codec: Seq<char>,
    c: TreeConfig,
)
    requires
        catalog_ok(m),
        valid_name(n),
        !m.contains_key(n + "#"@ + "type"@),
        valid_ser(codec),
        valid_group(codec),
        registrable(c),
        c.inline,
        recid >= 1,
    ensures
        DB::<S>::freed(
            with_coded(m, n, queue_type_of(mode), "headerRecid"@, recid, codec),
            n,
        ) is None,
        DB::<S>::freed(with_map(m, n, codec, codec, c), n) is None,
        DB::<S>::freed(with_set(m, n, codec, c), n) is None,
{
    super::objects::lemma_type_names();
    law_coded_registered(m, n, queue_type_of(mode), "headerRecid"@, recid, codec);
    law_map_registered(m, n, codec, codec, c);
    law_set_registered(m, n, codec, c);
}

/// A store that holds records opens exactly where its catalog can be read and is one of
/// complete objects, and then with that catalog; opening changes nothing in it.
pub proof fn law_opening(st: StoreState, b: StoreState, opened: Option<Names>, r: Result<()>)
    requires
        load_post(st, b, opened, r),
        st.readable,
        st.records.contains_key(RECID_CATALOG),
    ensures
        b == st,
        opened is Some <==> (catalog_in(st.records) matches Some(m) && catalog_ok(m)),
        opened matches Some(m) ==> catalog_in(st.records) == Some(m),
        r is Ok <==> opened is Some,
        r matches Err(e) ==> if st.records[RECID_CATALOG] is None {
            e is WrongConfiguration
        } else {
            e is DataCorruption
        },
{
    assert(st.records != Map::<u64, Option<Seq<u8>>>::empty());
}

/// The names of a database are those of its objects, each once, and in ascending order.
pub proof fn law_names_are_listed(v: Seq<String>, m: Names, n: Seq<char>, i: int, j: int)
    requires
        lists_names(v, m),
        0 <= i < j < v.len(),
    ensures
        m.contains_key(v[i]@ + "#"@ + "type"@),
        v[i]@ != v[j]@,
        STRING.lt(v[i]@ + "#"@ + "type"@, v[j]@ + "#"@ + "type"@),
        m.contains_key(n + "#"@ + "type"@) ==> exists|k: int|
            0 <= k < v.len() && (#[trigger] v[k])@ == n,
{
    assert(m.contains_key(field_key(v[i]@, "type"@)));
    STRING.lt_irreflexive(field_key(v[i]@, "type"@));
    if m.contains_key(n + "#"@ + "type"@) {
        assert(m.contains_key(field_key(n, "type"@)));
    }
}

/// A database without transactions is not rolled back, and neither is a closed one; both
/// keep what they hold. A rollback is noticed by the count of rollbacks.
pub proof fn law_rollback_refused<S: DbRollback>(before: &DB<S>, after: &DB<S>, r: Result<()>)
    requires
        after.rolled_back(before, r),
    ensures
        before.is_shut() ==> *after == *before && (r matches Err(e) && e is StoreClosed),
        !before.is_shut() && !before.state().tx ==> after.state() == before.state()
            && after.names() == before.names() && (r matches Err(e) && e is Unsupported),
        r is Ok ==> after.state().generation != before.state().generation,
{
}

/// Nothing is created under an illegal name, under a name that is taken or in a closed
/// database, and the attempt changes nothing.
pub proof fn law_no_second_object<
    S: Store,
    KF: KeyFormat + GroupDescriptor,
    VF: Serializer + GroupDescriptor,
>(
    maker: &TreeMapMaker<KF, VF>,
    number: &AtomicLongMaker,
    db: &DB<S>,
    after: &DB<S>,
    r: Result<BTreeMap<KF, VF>>,
    q: Result<AtomicLong>,
)
    requires
        !valid_name(maker.title()) || db.is_shut() || db.names().contains_key(
            maker.title() + "#type"@,
        ),
        number.title() == maker.title(),
        maker.create_post(db, after, r),
        number.create_post(db, after, q),
    ensures
        *after == *db,
        r matches Err(e) && (e is WrongConfiguration || e is StoreClosed),
        q matches Err(e) && (e is WrongConfiguration || e is StoreClosed),
        !db.is_shut() ==> (r matches Err(e) && e is WrongConfiguration),
        valid_name(maker.title()) && db.is_shut() ==> (r matches Err(e) && e is StoreClosed),
{
    law_free_names(db, maker.title());
}

/// An object opens only as what it is: as anything else, and under a name that no object
/// has, opening is a configuration error.
pub proof fn law_opens_as_what_it_is<
    S: Store,
    KF: KeyFormat + GroupDescriptor,
    VF: Serializer + GroupDescriptor,
    Se: Serializer + SerDescriptor,
>(
    db: &DB<S>,
    long: (&AtomicLongMaker, Result<AtomicLong>),
    integer: (&AtomicIntegerMaker, Result<AtomicInteger>),
    boolean: (&AtomicBooleanMaker, Result<AtomicBoolean>),
    string: (&AtomicStringMaker, Result<AtomicString>),
    var: (&AtomicVarMaker<Se>, Result<AtomicVar<Se>>),
    queue: (&QueueMaker<Se>, Result<PersistentBlockingQueue<Se>>),
    map: (&TreeMapMaker<KF, VF>, Result<BTreeMap<KF, VF>>),
    set: (&TreeSetMaker<KF>, Result<NavigableSet<KF>>),
)
    requires
        !db.is_shut(),
        long.0.open_post(db, long.1),
        integer.0.open_post(db, integer.1),
        boolean.0.open_post(db, boolean.1),
        string.0.open_post(db, string.1),
        var.0.open_post(db, var.1),
        queue.0.open_post(db, queue.1),
        map.0.open_post(db, map.1),
        set.0.open_post(db, set.1),
    ensures
        kept_as(db.names(), long.0.title(), "AtomicLong"@) || denied(long.1),
        kept_as(db.names(), integer.0.title(), "AtomicInteger"@) || denied(integer.1),
        kept_as(db.names(), boolean.0.title(), "AtomicBoolean"@) || denied(boolean.1),
        kept_as(db.names(), string.0.title(), "AtomicString"@) || denied(string.1),
        kept_as(db.names(), var.0.title(), "AtomicVar"@) || denied(var.1),
        kept_as(
            db.names(),
            queue.0.title(),
            match queue.0.order() {
                Mode::Fifo => "Queue"@,
                Mode::Lifo => "Stack"@,
                Mode::Circular => "CircularQueue"@,
            },
        ) || denied(queue.1),
        kept_as(db.names(), map.0.title(), "TreeMap"@) || denied(map.1),
        kept_as(db.names(), set.0.title(), "TreeSet"@) || denied(set.1),
{
    reveal_strlit("#");
    reveal_strlit("type");
    reveal_strlit("#type");
    assert("#"@ + "type"@ =~= "#type"@);
    assert forall|n: Seq<char>| #[trigger] field_key(n, "type"@) == n + "#type"@ by {
        assert(field_key(n, "type"@) =~= n + "#type"@);
    }
}

/// The catalog keeps an object of this type under the name.
pub open spec fn kept_as(m: Names, name: Seq<char>, ty: Seq<char>) -> bool {
    m.contains_key(name + "#type"@) && m[name + "#type"@] == ty
}

/// The answer is a configuration error.
pub open spec fn denied<T>(r: Result<T>) -> bool {
    r matches Err(e) && e is WrongConfiguration
}

} // verus!
