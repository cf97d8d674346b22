//! How named objects stand in the name catalog: the entries that register an object,
//! and what they tell when it is opened again.

use vstd::prelude::*;
use crate::db::catalog::{same_at, NameCatalog, Names};
use crate::db::descriptor::{valid_group, valid_ser};
use crate::db::schema::{
    belongs, catalog_ok, entry_ok, field_key, field_kind, lemma_belongs, lemma_name_has_no_hash,
    lemma_split_key, lemma_split_parts, object_ok, plain_atomic, queue_type, required_fields,
    split_key, type_of, valid_name, value_ok,
};
use crate::error::{DbError, Result};
use crate::ser::str_equal;
use crate::text::{decimal, joined3, law_decimal_round_trip, parse_decimal, parsed, to_decimal};

verus! {

/// Where a tree stands and how it is shaped.
#[derive(Debug, Clone, Copy, PartialEq, Eq, Structural)]
pub struct TreeConfig {
    /// The recid of the record that points to the root.
    pub root: u64,
    /// The largest number of entries in a node.
    pub node_size: usize,
    /// The recid of the size counter, or zero.
    pub counter: u64,
    /// Values stand in the leaves.
    pub inline: bool,
}

pub open spec fn flag(b: bool) -> Seq<char> {
    if b {
        "true"@
    } else {
        "false"@
    }
}

// ---------------------------------------------------------------- registering

/// The entries of a sorted map.
pub open spec fn with_map(
    m: Names,
    n: Seq<char>,
    keys: Seq<char>,
    values: Seq<char>,
    c: TreeConfig,
) -> Names {
    m.insert(field_key(n, "type"@), "TreeMap"@).insert(field_key(n, "keySerializer"@), keys).insert(
        field_key(n, "valueSerializer"@),
        values,
    ).insert(field_key(n, "rootRecidRecid"@), decimal(c.root as nat)).insert(
        field_key(n, "maxNodeSize"@),
        decimal(c.node_size as nat),
    ).insert(field_key(n, "counterRecid"@), decimal(c.counter as nat)).insert(
        field_key(n, "valueInline"@),
        flag(c.inline),
    )
}

/// The entries of a sorted set.
pub open spec fn with_set(m: Names, n: Seq<char>, elements: Seq<char>, c: TreeConfig) -> Names {
    m.insert(field_key(n, "type"@), "TreeSet"@).insert(field_key(n, "serializer"@), elements).insert(
        field_key(n, "rootRecidRecid"@),
        decimal(c.root as nat),
    ).insert(field_key(n, "maxNodeSize"@), decimal(c.node_size as nat)).insert(
        field_key(n, "counterRecid"@),
        decimal(c.counter as nat),
    )
}

/// The entries of a single value of a fixed type.
pub open spec fn with_atomic(m: Names, n: Seq<char>, ty: Seq<char>, recid: u64) -> Names {
    m.insert(field_key(n, "type"@), ty).insert(field_key(n, "recid"@), decimal(recid as nat))
}

/// The entries of an object with an element codec: field `at` holds its recid.
pub open spec fn with_coded(
    m: Names,
    n: Seq<char>,
    ty: Seq<char>,
    at: Seq<char>,
    recid: u64,
    codec: Seq<char>,
) -> Names {
    m.insert(field_key(n, "type"@), ty).insert(field_key(n, at), decimal(recid as nat)).insert(
        field_key(n, "serializer"@),
        codec,
    )
}

fn put_field(cat: &mut NameCatalog, name: &str, field: &str, value: String)
    requires
        old(cat).wf(),
    ensures
        final(cat).wf(),
        final(cat)@ == old(cat)@.insert(field_key(name@, field@), value@),
{
    cat.insert(joined3(name, "#", field), value);
}

fn flag_text(b: bool) -> (r: String)
    ensures
        r@ == flag(b),
{
    if b {
        String::from_str("true")
    } else {
        String::from_str("false")
    }
}

/// Registers a sorted map.
pub fn register_map(
    cat: &mut NameCatalog,
    name: &str,
    keys: String,
    values: String,
    c: TreeConfig,
)
    requires
        old(cat).wf(),
    ensures
        final(cat).wf(),
        final(cat)@ == with_map(old(cat)@, name@, keys@, values@, c),
{
    put_field(cat, name, "type", String::from_str("TreeMap"));
    put_field(cat, name, "keySerializer", keys);
    put_field(cat, name, "valueSerializer", values);
    put_field(cat, name, "rootRecidRecid", to_decimal(c.root));
    put_field(cat, name, "maxNodeSize", to_decimal(c.node_size as u64));
    put_field(cat, name, "counterRecid", to_decimal(c.counter));
    put_field(cat, name, "valueInline", flag_text(c.inline));
}

/// Registers a sorted set.
pub fn register_set(cat: &mut NameCatalog, name: &str, elements: String, c: TreeConfig)
    requires
        old(cat).wf(),
    ensures
        final(cat).wf(),
        final(cat)@ == with_set(old(cat)@, name@, elements@, c),
{
    put_field(cat, name, "type", String::from_str("TreeSet"));
    put_field(cat, name, "serializer", elements);
    put_field(cat, name, "rootRecidRecid", to_decimal(c.root));
    put_field(cat, name, "maxNodeSize", to_decimal(c.node_size as u64));
    put_field(cat, name, "counterRecid", to_decimal(c.counter));
}

/// Registers a single value of a fixed type.
pub fn register_atomic(cat: &mut NameCatalog, name: &str, ty: &str, recid: u64)
    requires
        old(cat).wf(),
    ensures
        final(cat).wf(),
        final(cat)@ == with_atomic(old(cat)@, name@, ty@, recid),
{
    put_field(cat, name, "type", String::from_str(ty));
    put_field(cat, name, "recid", to_decimal(recid));
}

/// Registers an object with an element codec.
pub fn register_coded(
    cat: &mut NameCatalog,
    name: &str,
    ty: &str,
    at: &str,
    recid: u64,
    codec: String,
)
    requires
        old(cat).wf(),
    ensures
        final(cat).wf(),
        final(cat)@ == with_coded(old(cat)@, name@, ty@, at@, recid, codec@),
{
    put_field(cat, name, "type", String::from_str(ty));
    put_field(cat, name, at, to_decimal(recid));
    put_field(cat, name, "serializer", codec);
}

// ---------------------------------------------------------------- looking up

/// There is an object of this name and type.
pub open spec fn is_a(m: Names, n: Seq<char>, ty: Seq<char>) -> bool {
    m.contains_key(field_key(n, "type"@)) && type_of(m, n) == ty
}

/// The number in a field.
pub open spec fn number_at(m: Names, k: Seq<char>, max: nat) -> Option<nat> {
    if m.contains_key(k) {
        parsed(m[k], max)
    } else {
        None
    }
}

/// The number in a field, zero where there is no such field.
pub open spec fn number_or_zero(m: Names, k: Seq<char>, max: nat) -> Option<nat> {
    if m.contains_key(k) {
        parsed(m[k], max)
    } else {
        Some(0)
    }
}

/// What the catalog says about where a tree stands.
pub open spec fn tree_config(m: Names, n: Seq<char>, inline: Option<bool>) -> Option<TreeConfig> {
    match (
        number_at(m, field_key(n, "rootRecidRecid"@), u64::MAX as nat),
        number_at(m, field_key(n, "maxNodeSize"@), usize::MAX as nat),
        number_or_zero(m, field_key(n, "counterRecid"@), u64::MAX as nat),
        inline,
    ) {
        (Some(root), Some(node_size), Some(counter), Some(i)) => Some(
            TreeConfig {
                root: root as u64,
                node_size: node_size as usize,
                counter: counter as u64,
                inline: i,
            },
        ),
        _ => None,
    }
}

/// Whether the values of a map stand in its leaves; they do where nothing is said.
pub open spec fn inline_of(m: Names, n: Seq<char>) -> Option<bool> {
    let k = field_key(n, "valueInline"@);
    if !m.contains_key(k) || m[k] == "true"@ {
        Some(true)
    } else if m[k] == "false"@ {
        Some(false)
    } else {
        None
    }
}

/// Refuses an object that is missing or of another type.
pub fn verify_type(cat: &NameCatalog, name: &str, ty: &str) -> (r: Result<()>)
    requires
        cat.wf(),
    ensures
        is_a(cat@, name@, ty@) ==> r is Ok,
        !is_a(cat@, name@, ty@) ==> (r matches Err(e) && e is WrongConfiguration),
{
    match cat.get(joined3(name, "#", "type").as_str()) {
        None => Err(DbError::wrong_config(joined3("no such name: ", name, ""))),
        Some(t) => if str_equal(t.as_str(), ty) {
            Ok(())
        } else {
            let mut m = joined3("name ", name, " is a ");
            m.append(t.as_str());
            m.append(", not a ");
            m.append(ty);
            Err(DbError::wrong_config(m))
        },
    }
}

/// The recid in a field of the catalog.
pub fn parse_recid(cat: &NameCatalog, key: &str) -> (r: Result<u64>)
    requires
        cat.wf(),
    ensures
        match number_at(cat@, key@, u64::MAX as nat) {
            Some(n) => r == Ok::<u64, DbError>(n as u64),
            None => r matches Err(DbError::DataCorruption(c)) && c is Msg,
        },
{
    match cat.get(key) {
        None => Err(DbError::corrupt_msg(joined3("catalog missing ", key, ""))),
        Some(s) => match parse_decimal(s.as_str()) {
            Some(n) => Ok(n),
            None => Err(DbError::corrupt_msg(joined3("catalog ", key, " is not a decimal recid"))),
        },
    }
}

/// The recid in a field of the catalog, zero where there is none.
pub fn parse_recid_default0(cat: &NameCatalog, key: &str) -> (r: Result<u64>)
    requires
        cat.wf(),
    ensures
        match number_or_zero(cat@, key@, u64::MAX as nat) {
            Some(n) => r == Ok::<u64, DbError>(n as u64),
            None => r matches Err(DbError::DataCorruption(c)) && c is Msg,
        },
{
    match cat.get(key) {
        None => Ok(0),
        Some(s) => match parse_decimal(s.as_str()) {
            Some(n) => Ok(n),
            None => Err(DbError::corrupt_msg(joined3("catalog ", key, " is not a decimal recid"))),
        },
    }
}

/// The recid of an object that is a single record.
pub fn read_recid(cat: &NameCatalog, name: &str, field: &str) -> (r: Result<u64>)
    requires
        cat.wf(),
    ensures
        match number_at(cat@, field_key(name@, field@), u64::MAX as nat) {
            Some(n) => if n > 0 {
                r == Ok::<u64, DbError>(n as u64)
            } else {
                r matches Err(e) && crate::error::is_corrupt(e, "recid must be non-zero"@)
            },
            None => r matches Err(DbError::DataCorruption(c)) && c is Msg,
        },
{
    match parse_recid(cat, joined3(name, "#", field).as_str()) {
        Ok(n) => if n == 0 {
            Err(DbError::corrupt("recid must be non-zero"))
        } else {
            Ok(n)
        },
        Err(e) => Err(e),
    }
}

/// Where a tree stands; `inline` is known for a set and read for a map.
pub fn read_tree_config(
    cat: &NameCatalog,
    name: &str,
    inline: Option<bool>,
) -> (r: Result<TreeConfig>)
    requires
        cat.wf(),
    ensures
        match tree_config(
            cat@,
            name@,
            if inline is Some {
                inline
            } else {
                inline_of(cat@, name@)
            },
        ) {
            Some(c) => r == Ok::<TreeConfig, DbError>(c),
            None => r matches Err(e) && e is DataCorruption,
        },
{
    let root: u64 = match parse_recid(cat, joined3(name, "#", "rootRecidRecid").as_str()) {
        Ok(x) => x,
        Err(e) => {
            return Err(e);
        },
    };
    let node_size: usize = match cat.get(joined3(name, "#", "maxNodeSize").as_str()) {
        Some(s) => match parse_decimal(s.as_str()) {
            Some(n) => if n <= usize::MAX as u64 {
                n as usize
            } else {
                return Err(DbError::corrupt("catalog maxNodeSize invalid"));
            },
            None => {
                return Err(DbError::corrupt("catalog maxNodeSize invalid"));
            },
        },
        None => {
            return Err(DbError::corrupt("catalog maxNodeSize invalid"));
        },
    };
    let counter: u64 = match parse_recid_default0(cat, joined3(name, "#", "counterRecid").as_str()) {
        Ok(x) => x,
        Err(e) => {
            return Err(e);
        },
    };
    let inline = match inline {
        Some(b) => b,
        None => match cat.get(joined3(name, "#", "valueInline").as_str()) {
            None => true,
            Some(s) => if str_equal(s.as_str(), "true") {
                true
            } else if str_equal(s.as_str(), "false") {
                false
            } else {
                return Err(DbError::corrupt("catalog valueInline is not a boolean"));
            },
        },
    };
    Ok(TreeConfig { root, node_size, counter, inline })
}

// ---------------------------------------------------------------- laws

/// Adding the fields of a new object to a catalog of complete objects leaves every
/// other object as it was.
proof fn lemma_added(m: Names, w: Names, n: Seq<char>)
    requires
        catalog_ok(m),
        valid_name(n),
        forall|k: Seq<char>| !belongs(k, n) ==> #[trigger] same_at(w, m, k),
        object_ok(w, n),
        forall|f: Seq<char>|
            #![trigger field_key(n, f)]
            w.contains_key(field_key(n, f)) ==> !f.contains('#')
                && (field_kind(type_of(w, n), f) matches Some(
                kind,
            ) && value_ok(kind, w[field_key(n, f)])),
    ensures
        catalog_ok(w),
{
    reveal(catalog_ok);
    reveal_strlit("#");
    lemma_name_has_no_hash(n);
    assert forall|k: Seq<char>| #[trigger] w.contains_key(k) implies entry_ok(w, k) by {
        if belongs(k, n) {
            let p = n + "#"@;
            let f = k.skip(p.len() as int);
            assert(k =~= field_key(n, f)) by {
                assert(k.take(p.len() as int) == p);
                assert forall|i: int| 0 <= i < p.len() implies k[i] == #[trigger] p[i] by {
                    assert(k.take(p.len() as int)[i] == k[i]);
                }
            }
            lemma_split_key(n, f);
        } else {
            assert(same_at(w, m, k));
            assert(entry_ok(m, k));
            lemma_split_parts(k);
            let (o, f) = split_key(k).unwrap();
            lemma_belongs(o, f, n);
            lemma_others_kept(m, w, n, o);
        }
    }
}

proof fn lemma_others_kept(m: Names, w: Names, n: Seq<char>, o: Seq<char>)
    requires
        valid_name(n),
        o != n,
        object_ok(m, o),
        forall|k: Seq<char>| !belongs(k, n) ==> #[trigger] same_at(w, m, k),
    ensures
        object_ok(w, o),
        type_of(w, o) == type_of(m, o),
{
    lemma_name_has_no_hash(n);
    lemma_name_has_no_hash(o);
    lemma_belongs(o, "type"@, n);
    assert(same_at(w, m, field_key(o, "type"@)));
    assert forall|i: int| 0 <= i < required_fields(type_of(w, o)).len() implies w.contains_key(
        field_key(o, #[trigger] required_fields(type_of(w, o))[i]),
    ) by {
        let f = required_fields(type_of(m, o))[i];
        lemma_belongs(o, f, n);
        assert(same_at(w, m, field_key(o, f)));
    }
}

/// The names of the fields differ from one another and hold no separator.
proof fn lemma_field_names()
    ensures
        "type"@.len() == 4,
        "recid"@.len() == 5,
        "serializer"@.len() == 10,
        "maxNodeSize"@.len() == 11,
        "valueInline"@.len() == 11,
        "headerRecid"@.len() == 11,
        "counterRecid"@.len() == 12,
        "keySerializer"@.len() == 13,
        "rootRecidRecid"@.len() == 14,
        "valueSerializer"@.len() == 15,
        "maxNodeSize"@[0] == 'm',
        "valueInline"@[0] == 'v',
        "headerRecid"@[0] == 'h',
        !"type"@.contains('#'),
        !"recid"@.contains('#'),
        !"serializer"@.contains('#'),
        !"maxNodeSize"@.contains('#'),
        !"valueInline"@.contains('#'),
        !"headerRecid"@.contains('#'),
        !"counterRecid"@.contains('#'),
        !"keySerializer"@.contains('#'),
        !"rootRecidRecid"@.contains('#'),
        !"valueSerializer"@.contains('#'),
{
    reveal_strlit("type");
    reveal_strlit("recid");
    reveal_strlit("serializer");
    reveal_strlit("maxNodeSize");
    reveal_strlit("valueInline");
    reveal_strlit("headerRecid");
    reveal_strlit("counterRecid");
    reveal_strlit("keySerializer");
    reveal_strlit("rootRecidRecid");
    reveal_strlit("valueSerializer");
}

/// The names of the types differ from one another.
pub(super) proof fn lemma_type_names()
    ensures
        "TreeMap"@.len() == 7,
        "TreeMap"@[4] == 'M',
        "TreeSet"@.len() == 7,
        "TreeSet"@[4] == 'S',
        "AtomicLong"@.len() == 10,
        "AtomicInteger"@.len() == 13,
        "AtomicInteger"@[6] == 'I',
        "AtomicBoolean"@.len() == 13,
        "AtomicBoolean"@[6] == 'B',
        "AtomicString"@.len() == 12,
        "AtomicVar"@.len() == 9,
        "Queue"@.len() == 5,
        "Queue"@[0] == 'Q',
        "Stack"@.len() == 5,
        "Stack"@[0] == 'S',
        "CircularQueue"@.len() == 13,
        "CircularQueue"@[6] == 'a',
{
    reveal_strlit("TreeMap");
    reveal_strlit("TreeSet");
    reveal_strlit("AtomicLong");
    reveal_strlit("AtomicInteger");
    reveal_strlit("AtomicBoolean");
    reveal_strlit("AtomicString");
    reveal_strlit("AtomicVar");
    reveal_strlit("Queue");
    reveal_strlit("Stack");
    reveal_strlit("CircularQueue");
}

/// Different fields have different keys.
proof fn lemma_keys_differ(n: Seq<char>)
    ensures
        forall|a: Seq<char>, b: Seq<char>|
            #![trigger field_key(n, a), field_key(n, b)]
            field_key(n, a) == field_key(n, b) ==> a == b,
{
    reveal_strlit("#");
    assert forall|a: Seq<char>, b: Seq<char>|
        #![trigger field_key(n, a), field_key(n, b)]
        field_key(n, a) == field_key(n, b) implies a == b by {
        assert(field_key(n, a).skip(n.len() as int + 1) =~= a);
        assert(field_key(n, b).skip(n.len() as int + 1) =~= b);
    }
}

/// A catalog of complete objects has no entry of an object that it does not list.
proof fn lemma_no_fields(m: Names, n: Seq<char>)
    requires
        catalog_ok(m),
        valid_name(n),
        !m.contains_key(field_key(n, "type"@)),
    ensures
        forall|f: Seq<char>| !m.contains_key(#[trigger] field_key(n, f)),
{
    reveal(catalog_ok);
    lemma_name_has_no_hash(n);
    assert forall|f: Seq<char>| !m.contains_key(#[trigger] field_key(n, f)) by {
        if m.contains_key(field_key(n, f)) {
            let k = field_key(n, f);
            assert(entry_ok(m, k));
            lemma_split_parts(k);
            let (o, g) = split_key(k).unwrap();
            lemma_belongs(o, g, n);
            lemma_belongs(n, f, n);
        }
    }
}

/// The keys of an object belong to it.
proof fn lemma_own_keys(n: Seq<char>)
    requires
        valid_name(n),
    ensures
        forall|f: Seq<char>| belongs(#[trigger] field_key(n, f), n),
{
    lemma_name_has_no_hash(n);
    assert forall|f: Seq<char>| belongs(#[trigger] field_key(n, f), n) by {
        lemma_belongs(n, f, n);
    }
}

/// A tree that can be registered.
pub open spec fn registrable(c: TreeConfig) -> bool {
    c.root >= 1 && 4 <= c.node_size <= 1048576
}

/// What registering a sorted map says is what opening it reads, and the catalog stays
/// one of complete objects.
#[verifier::spinoff_prover]
#[verifier::rlimit(80)]
pub proof fn law_map_registered(
    m: Names,
    n: Seq<char>,
    keys: Seq<char>,
    values: Seq<char>,
    c: TreeConfig,
)
    requires
        catalog_ok(m),
        valid_name(n),
        !m.contains_key(field_key(n, "type"@)),
        valid_group(keys),
        valid_group(values),
        registrable(c),
    ensures
        catalog_ok(with_map(m, n, keys, values, c)),
        is_a(with_map(m, n, keys, values, c), n, "TreeMap"@),
        with_map(m, n, keys, values, c)[field_key(n, "keySerializer"@)] == keys,
        with_map(m, n, keys, values, c)[field_key(n, "valueSerializer"@)] == values,
        tree_config(
            with_map(m, n, keys, values, c),
            n,
            inline_of(with_map(m, n, keys, values, c), n),
        ) == Some(c),
{
    let w = with_map(m, n, keys, values, c);
    lemma_field_names();
    lemma_type_names();
    lemma_keys_differ(n);
    lemma_no_fields(m, n);
    lemma_own_keys(n);
    law_decimal_round_trip(c.root as nat, u64::MAX as nat);
    law_decimal_round_trip(c.node_size as nat, u64::MAX as nat);
    law_decimal_round_trip(c.node_size as nat, usize::MAX as nat);
    law_decimal_round_trip(c.counter as nat, u64::MAX as nat);
    reveal_strlit("true");
    reveal_strlit("false");
    assert(flag(c.inline).len() == if c.inline {
        4int
    } else {
        5
    });
    assert forall|k: Seq<char>| !belongs(k, n) implies #[trigger] same_at(w, m, k) by {}
    assert(type_of(w, n) == "TreeMap"@);
    assert(w.contains_key(field_key(n, "keySerializer"@)));
    assert(w.contains_key(field_key(n, "valueSerializer"@)));
    assert(w.contains_key(field_key(n, "rootRecidRecid"@)));
    assert(w.contains_key(field_key(n, "maxNodeSize"@)));
    assert(object_ok(w, n));
    lemma_added(m, w, n);
}

/// What registering a sorted set says is what opening it reads, and the catalog stays
/// one of complete objects.
#[verifier::spinoff_prover]
#[verifier::rlimit(80)]
pub proof fn law_set_registered(m: Names, n: Seq<char>, elements: Seq<char>, c: TreeConfig)
    requires
        catalog_ok(m),
        valid_name(n),
        !m.contains_key(field_key(n, "type"@)),
        valid_group(elements),
        registrable(c),
        c.inline,
    ensures
        catalog_ok(with_set(m, n, elements, c)),
        is_a(with_set(m, n, elements, c), n, "TreeSet"@),
        with_set(m, n, elements, c)[field_key(n, "serializer"@)] == elements,
        tree_config(with_set(m, n, elements, c), n, Some(true)) == Some(c),
{
    let w = with_set(m, n, elements, c);
    lemma_field_names();
    lemma_type_names();
    lemma_keys_differ(n);
    lemma_no_fields(m, n);
    lemma_own_keys(n);
    law_decimal_round_trip(c.root as nat, u64::MAX as nat);
    law_decimal_round_trip(c.node_size as nat, u64::MAX as nat);
    law_decimal_round_trip(c.node_size as nat, usize::MAX as nat);
    law_decimal_round_trip(c.counter as nat, u64::MAX as nat);
    assert forall|k: Seq<char>| !belongs(k, n) implies #[trigger] same_at(w, m, k) by {}
    assert(type_of(w, n) == "TreeSet"@);
    assert(w.contains_key(field_key(n, "serializer"@)));
    assert(w.contains_key(field_key(n, "rootRecidRecid"@)));
    assert(w.contains_key(field_key(n, "maxNodeSize"@)));
    assert(object_ok(w, n));
    lemma_added(m, w, n);
}

/// What registering a single value says is what opening it reads, and the catalog
/// stays one of complete objects.
#[verifier::spinoff_prover]
#[verifier::rlimit(60)]
pub proof fn law_atomic_registered(m: Names, n: Seq<char>, ty: Seq<char>, recid: u64)
    requires
        catalog_ok(m),
        valid_name(n),
        !m.contains_key(field_key(n, "type"@)),
        plain_atomic(ty),
        recid >= 1,
    ensures
        catalog_ok(with_atomic(m, n, ty, recid)),
        is_a(with_atomic(m, n, ty, recid), n, ty),
        number_at(with_atomic(m, n, ty, recid), field_key(n, "recid"@), u64::MAX as nat) == Some(
            recid as nat,
        ),
{
    let w = with_atomic(m, n, ty, recid);
    lemma_field_names();
    lemma_type_names();
    lemma_keys_differ(n);
    lemma_no_fields(m, n);
    lemma_own_keys(n);
    law_decimal_round_trip(recid as nat, u64::MAX as nat);
    assert forall|k: Seq<char>| !belongs(k, n) implies #[trigger] same_at(w, m, k) by {}
    assert(type_of(w, n) == ty);
    assert(w.contains_key(field_key(n, "recid"@)));
    assert(object_ok(w, n));
    lemma_added(m, w, n);
}

/// What registering an object with an element codec says is what opening it reads, and
/// the catalog stays one of complete objects.
#[verifier::spinoff_prover]
#[verifier::rlimit(60)]
pub proof fn law_coded_registered(
    m: Names,
    n: Seq<char>,
    ty: Seq<char>,
    at: Seq<char>,
    recid: u64,
    codec: Seq<char>,
)
    requires
        catalog_ok(m),
        valid_name(n),
        !m.contains_key(field_key(n, "type"@)),
        (ty == "AtomicVar"@ && at == "recid"@) || (queue_type(ty) && at == "headerRecid"@),
        valid_ser(codec),
        recid >= 1,
    ensures
        catalog_ok(with_coded(m, n, ty, at, recid, codec)),
        is_a(with_coded(m, n, ty, at, recid, codec), n, ty),
        with_coded(m, n, ty, at, recid, codec)[field_key(n, "serializer"@)] == codec,
        number_at(with_coded(m, n, ty, at, recid, codec), field_key(n, at), u64::MAX as nat)
            == Some(
            recid as nat,
        ),
{
    let w = with_coded(m, n, ty, at, recid, codec);
    lemma_field_names();
    lemma_type_names();
    lemma_keys_differ(n);
    lemma_no_fields(m, n);
    lemma_own_keys(n);
    law_decimal_round_trip(recid as nat, u64::MAX as nat);
    assert forall|k: Seq<char>| !belongs(k, n) implies #[trigger] same_at(w, m, k) by {}
    assert(type_of(w, n) == ty);
    assert(w.contains_key(field_key(n, at)));
    assert(w.contains_key(field_key(n, "serializer"@)));
    assert(object_ok(w, n));
    lemma_added(m, w, n);
}

/// The entries of a new object stand under its name, a `#` and the name of the field;
/// every entry of another object stays as it was.
#[verifier::spinoff_prover]
#[verifier::rlimit(60)]
pub proof fn law_map_entries(
    m: Names,
    n: Seq<char>,
    keys: Seq<char>,
    values: Seq<char>,
    c: TreeConfig,
    other: Seq<char>,
)
    ensures
        ({
            let w = with_map(m, n, keys, values, c);
            &&& w.contains_key(n + "#type"@) && w[n + "#type"@] == "TreeMap"@
            &&& w.contains_key(n + "#keySerializer"@) && w[n + "#keySerializer"@] == keys
            &&& w.contains_key(n + "#valueSerializer"@) && w[n + "#valueSerializer"@] == values
            &&& w.contains_key(n + "#rootRecidRecid"@) && w[n + "#rootRecidRecid"@] == decimal(
                c.root as nat,
            )
            &&& w.contains_key(n + "#maxNodeSize"@) && w[n + "#maxNodeSize"@] == decimal(
                c.node_size as nat,
            )
            &&& w.contains_key(n + "#counterRecid"@) && w[n + "#counterRecid"@] == decimal(
                c.counter as nat,
            )
            &&& w.contains_key(n + "#valueInline"@) && w[n + "#valueInline"@] == if c.inline {
                "true"@
            } else {
                "false"@
            }
            &&& !belongs(other, n) ==> same_at(w, m, other)
        }),
{
    lemma_field_names();
    lemma_keys_differ(n);
    lemma_tagged(n);
    lemma_all_belong(n);
}

/// The same of a sorted set.
#[verifier::spinoff_prover]
#[verifier::rlimit(60)]
pub proof fn law_set_entries(
    m: Names,
    n: Seq<char>,
    elements: Seq<char>,
    c: TreeConfig,
    other: Seq<char>,
)
    ensures
        ({
            let w = with_set(m, n, elements, c);
            &&& w.contains_key(n + "#type"@) && w[n + "#type"@] == "TreeSet"@
            &&& w.contains_key(n + "#serializer"@) && w[n + "#serializer"@] == elements
            &&& w.contains_key(n + "#rootRecidRecid"@) && w[n + "#rootRecidRecid"@] == decimal(
                c.root as nat,
            )
            &&& w.contains_key(n + "#maxNodeSize"@) && w[n + "#maxNodeSize"@] == decimal(
                c.node_size as nat,
            )
            &&& w.contains_key(n + "#counterRecid"@) && w[n + "#counterRecid"@] == decimal(
                c.counter as nat,
            )
            &&& !belongs(other, n) ==> same_at(w, m, other)
        }),
{
    lemma_field_names();
    lemma_keys_differ(n);
    lemma_tagged(n);
    lemma_all_belong(n);
}

/// The same of single values and of queues.
#[verifier::spinoff_prover]
#[verifier::rlimit(60)]
pub proof fn law_value_entries(
    m: Names,
    n: Seq<char>,
    ty: Seq<char>,
    recid: u64,
    codec: Seq<char>,
    other: Seq<char>,
)
    ensures
        ({
            let w = with_atomic(m, n, ty, recid);
            &&& w.contains_key(n + "#type"@) && w[n + "#type"@] == ty
            &&& w.contains_key(n + "#recid"@) && w[n + "#recid"@] == decimal(recid as nat)
            &&& !belongs(other, n) ==> same_at(w, m, other)
        }),
        ({
            let w = with_coded(m, n, ty, "recid"@, recid, codec);
            &&& w.contains_key(n + "#type"@) && w[n + "#type"@] == ty
            &&& w.contains_key(n + "#recid"@) && w[n + "#recid"@] == decimal(recid as nat)
            &&& w.contains_key(n + "#serializer"@) && w[n + "#serializer"@] == codec
            &&& !belongs(other, n) ==> same_at(w, m, other)
        }),
        ({
            let w = with_coded(m, n, ty, "headerRecid"@, recid, codec);
            &&& w.contains_key(n + "#type"@) && w[n + "#type"@] == ty
            &&& w.contains_key(n + "#headerRecid"@) && w[n + "#headerRecid"@] == decimal(
                recid as nat,
            )
            &&& w.contains_key(n + "#serializer"@) && w[n + "#serializer"@] == codec
            &&& !belongs(other, n) ==> same_at(w, m, other)
        }),
{
    lemma_field_names();
    lemma_keys_differ(n);
    lemma_tagged(n);
    lemma_all_belong(n);
}

/// The key of a field, in one piece.
proof fn lemma_tagged(n: Seq<char>)
    ensures
        field_key(n, "type"@) == n + "#type"@,
        field_key(n, "recid"@) == n + "#recid"@,
        field_key(n, "serializer"@) == n + "#serializer"@,
        field_key(n, "maxNodeSize"@) == n + "#maxNodeSize"@,
        field_key(n, "valueInline"@) == n + "#valueInline"@,
        field_key(n, "headerRecid"@) == n + "#headerRecid"@,
        field_key(n, "counterRecid"@) == n + "#counterRecid"@,
        field_key(n, "keySerializer"@) == n + "#keySerializer"@,
        field_key(n, "rootRecidRecid"@) == n + "#rootRecidRecid"@,
        field_key(n, "valueSerializer"@) == n + "#valueSerializer"@,
{
    reveal_strlit("#");
    reveal_strlit("type");
    reveal_strlit("#type");
    reveal_strlit("recid");
    reveal_strlit("#recid");
    reveal_strlit("serializer");
    reveal_strlit("#serializer");
    reveal_strlit("maxNodeSize");
    reveal_strlit("#maxNodeSize");
    reveal_strlit("valueInline");
    reveal_strlit("#valueInline");
    reveal_strlit("headerRecid");
    reveal_strlit("#headerRecid");
    reveal_strlit("counterRecid");
    reveal_strlit("#counterRecid");
    reveal_strlit("keySerializer");
    reveal_strlit("#keySerializer");
    reveal_strlit("rootRecidRecid");
    reveal_strlit("#rootRecidRecid");
    reveal_strlit("valueSerializer");
    reveal_strlit("#valueSerializer");
    assert(n + "#"@ + "type"@ =~= n + "#type"@);
    assert(n + "#"@ + "recid"@ =~= n + "#recid"@);
    assert(n + "#"@ + "serializer"@ =~= n + "#serializer"@);
    assert(n + "#"@ + "maxNodeSize"@ =~= n + "#maxNodeSize"@);
    assert(n + "#"@ + "valueInline"@ =~= n + "#valueInline"@);
    assert(n + "#"@ + "headerRecid"@ =~= n + "#headerRecid"@);
    assert(n + "#"@ + "counterRecid"@ =~= n + "#counterRecid"@);
    assert(n + "#"@ + "keySerializer"@ =~= n + "#keySerializer"@);
    assert(n + "#"@ + "rootRecidRecid"@ =~= n + "#rootRecidRecid"@);
    assert(n + "#"@ + "valueSerializer"@ =~= n + "#valueSerializer"@);
}

proof fn lemma_all_belong(n: Seq<char>)
    ensures
        forall|f: Seq<char>| belongs(#[trigger] field_key(n, f), n),
{
    assert forall|f: Seq<char>| belongs(#[trigger] field_key(n, f), n) by {
        let p = n + "#"@;
        assert(field_key(n, f).take(p.len() as int) =~= p);
    }
}

} // verus!
