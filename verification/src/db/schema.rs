//! What the name catalog may hold: the legal names, the types of named objects and
//! the fields of each type.

use vstd::prelude::*;
use crate::db::catalog::{lemma_same_map, same_at, NameCatalog, Names};
use crate::db::descriptor::{
    find_char, first_index, is_valid_group_descriptor, is_valid_ser_descriptor, lemma_first_index,
    lemma_is_first, valid_group, valid_ser,
};
use crate::error::{DbError, Result};
use crate::ser::str_equal;
use crate::text::{
    after_chars, begins, begins_with, chars_of, joined, joined3, parse_decimal, parsed,
};

verus! {

// ---------------------------------------------------------------- names and keys

/// A character that a name may hold.
pub open spec fn name_char(c: char) -> bool {
    ('A' <= c && c <= 'Z') || ('a' <= c && c <= 'z') || ('0' <= c && c <= '9') || c == '.'
        || c == '_'
        || c == '-'
}

/// A legal name: letters, digits, dot, underscore and hyphen, one or more.
pub open spec fn valid_name(s: Seq<char>) -> bool {
    s.len() > 0 && forall|i: int| 0 <= i < s.len() ==> name_char(#[trigger] s[i])
}

/// Refuses a name that is not legal.
pub fn validate_name(name: &str) -> (r: Result<()>)
    ensures
        valid_name(name@) ==> r is Ok,
        !valid_name(name@) ==> (r matches Err(e) && e is WrongConfiguration),
{
    let v = chars_of(name);
    if v.len() == 0 {
        return Err(DbError::wrong_config(String::from_str("collection name must be non-empty")));
    }
    let mut i: usize = 0;
    while i < v.len()
        invariant
            v@ == name@,
            i <= v@.len(),
            forall|j: int| 0 <= j < i ==> name_char(#[trigger] name@[j]),
        decreases v@.len() - i,
    {
        let c = v[i];
        let ok = ('A' <= c && c <= 'Z') || ('a' <= c && c <= 'z') || ('0' <= c && c <= '9') || c
            == '.' || c == '_' || c == '-';
        if !ok {
            assert(!name_char(name@[i as int]));
            return Err(
                DbError::wrong_config(
                    joined3(
                        "illegal collection name '",
                        name,
                        "': only [A-Za-z0-9._-] allowed",
                    ),
                ),
            );
        }
        i = i + 1;
    }
    Ok(())
}

/// The catalog key of a field of an object.
pub open spec fn field_key(name: Seq<char>, field: Seq<char>) -> Seq<char> {
    name + "#"@ + field
}

/// The name and the field of a catalog key.
pub open spec fn split_key(k: Seq<char>) -> Option<(Seq<char>, Seq<char>)> {
    match first_index(k, '#') {
        Some(i) => if first_index(k.skip(i as int + 1), '#') is None {
            Some((k.take(i as int), k.skip(i as int + 1)))
        } else {
            None
        },
        None => None,
    }
}

/// A key is split where it was put together.
pub proof fn lemma_split_key(name: Seq<char>, field: Seq<char>)
    requires
        !name.contains('#'),
        !field.contains('#'),
    ensures
        split_key(field_key(name, field)) == Some((name, field)),
{
    reveal_strlit("#");
    let k = field_key(name, field);
    let n = name.len() as int;
    assert forall|j: int| 0 <= j < n implies k[j] != '#' by {
        assert(name.contains(name[j]));
    }
    lemma_is_first(k, '#', n);
    assert(k.take(n) =~= name);
    assert(k.skip(n + 1) =~= field);
    assert forall|j: int| 0 <= j < field.len() implies field[j] != '#' by {
        assert(field.contains(field[j]));
    }
    lemma_is_first(field, '#', field.len() as int);
}

/// What a key that can be split is put together of.
pub proof fn lemma_split_parts(k: Seq<char>)
    ensures
        split_key(k) matches Some((n, f)) ==> k == field_key(n, f) && !n.contains('#')
            && !f.contains('#'),
{
    reveal_strlit("#");
    lemma_first_index(k, '#');
    match first_index(k, '#') {
        Some(i) => {
            lemma_first_index(k.skip(i as int + 1), '#');
            assert(k =~= field_key(k.take(i as int), k.skip(i as int + 1)));
        },
        None => {},
    }
}

pub proof fn lemma_name_has_no_hash(s: Seq<char>)
    requires
        valid_name(s),
    ensures
        !s.contains('#'),
{
    if s.contains('#') {
        let i = choose|i: int| 0 <= i < s.len() && s[i] == '#';
        assert(name_char(s[i]));
    }
}

fn parts(k: &str) -> (r: Option<(&str, &str)>)
    ensures
        match r {
            Some((n, f)) => split_key(k@) == Some((n@, f@)),
            None => split_key(k@) is None,
        },
{
    match find_char(k, '#') {
        Some(i) => {
            let len: usize = chars_of(k).len();
            let name = k.substring_char(0, i);
            let field = k.substring_char(i + 1, len);
            assert(name@ =~= k@.take(i as int));
            assert(field@ =~= k@.skip(i as int + 1));
            match find_char(field, '#') {
                Some(_) => None,
                None => Some((name, field)),
            }
        },
        None => None,
    }
}

// ---------------------------------------------------------------- fields

/// What kind of value a field holds.
#[derive(Debug, Clone, Copy, PartialEq, Eq, Structural)]
pub enum FieldKind {
    /// The type of the object.
    Type,
    /// The descriptor of a group format.
    GroupCodec,
    /// The descriptor of an element codec.
    ElementCodec,
    /// A recid.
    Recid,
    /// A recid, or zero for none.
    Counter,
    /// A number of entries in a node.
    NodeSize,
    /// True or false.
    Flag,
}

pub open spec fn plain_atomic(t: Seq<char>) -> bool {
    t == "AtomicLong"@ || t == "AtomicInteger"@ || t == "AtomicBoolean"@ || t == "AtomicString"@
}

pub open spec fn queue_type(t: Seq<char>) -> bool {
    t == "Queue"@ || t == "Stack"@ || t == "CircularQueue"@
}

/// A type of named objects.
pub open spec fn known_type(t: Seq<char>) -> bool {
    t == "TreeMap"@ || t == "TreeSet"@ || plain_atomic(t) || t == "AtomicVar"@ || queue_type(t)
}

/// The kind of field `f` of an object of type `t`; `None` where it has no such field.
pub open spec fn field_kind(t: Seq<char>, f: Seq<char>) -> Option<FieldKind> {
    if !known_type(t) {
        None
    } else if f == "type"@ {
        Some(FieldKind::Type)
    } else if t == "TreeMap"@ {
        if f == "keySerializer"@ || f == "valueSerializer"@ {
            Some(FieldKind::GroupCodec)
        } else if f == "rootRecidRecid"@ {
            Some(FieldKind::Recid)
        } else if f == "maxNodeSize"@ {
            Some(FieldKind::NodeSize)
        } else if f == "counterRecid"@ {
            Some(FieldKind::Counter)
        } else if f == "valueInline"@ {
            Some(FieldKind::Flag)
        } else {
            None
        }
    } else if t == "TreeSet"@ {
        if f == "serializer"@ {
            Some(FieldKind::GroupCodec)
        } else if f == "rootRecidRecid"@ {
            Some(FieldKind::Recid)
        } else if f == "maxNodeSize"@ {
            Some(FieldKind::NodeSize)
        } else if f == "counterRecid"@ {
            Some(FieldKind::Counter)
        } else {
            None
        }
    } else if queue_type(t) {
        if f == "headerRecid"@ {
            Some(FieldKind::Recid)
        } else if f == "serializer"@ {
            Some(FieldKind::ElementCodec)
        } else {
            None
        }
    } else if f == "recid"@ {
        Some(FieldKind::Recid)
    } else if t == "AtomicVar"@ && f == "serializer"@ {
        Some(FieldKind::ElementCodec)
    } else {
        None
    }
}

/// The fields that an object of type `t` must have beside its type.
pub open spec fn required_fields(t: Seq<char>) -> Seq<Seq<char>> {
    if t == "TreeMap"@ {
        seq!["keySerializer"@, "valueSerializer"@, "rootRecidRecid"@, "maxNodeSize"@]
    } else if t == "TreeSet"@ {
        seq!["serializer"@, "rootRecidRecid"@, "maxNodeSize"@]
    } else if queue_type(t) {
        seq!["headerRecid"@, "serializer"@]
    } else if t == "AtomicVar"@ {
        seq!["recid"@, "serializer"@]
    } else {
        seq!["recid"@]
    }
}

/// A value that a field of a kind may hold.
pub open spec fn value_ok(kind: FieldKind, v: Seq<char>) -> bool {
    match kind {
        FieldKind::Type => true,
        FieldKind::GroupCodec => valid_group(v),
        FieldKind::ElementCodec => valid_ser(v),
        FieldKind::Recid => parsed(v, u64::MAX as nat) matches Some(n) && n >= 1,
        FieldKind::Counter => parsed(v, u64::MAX as nat) is Some,
        FieldKind::NodeSize => parsed(v, u64::MAX as nat) matches Some(n) && 4 <= n <= 1048576,
        FieldKind::Flag => v == "true"@ || v == "false"@,
    }
}

/// The type of an object.
pub open spec fn type_of(m: Names, name: Seq<char>) -> Seq<char> {
    m[field_key(name, "type"@)]
}

/// The object has a legal name, a known type and the fields that the type demands.
pub open spec fn object_ok(m: Names, name: Seq<char>) -> bool {
    &&& valid_name(name)
    &&& m.contains_key(field_key(name, "type"@))
    &&& known_type(type_of(m, name))
    &&& forall|i: int|
        0 <= i < required_fields(type_of(m, name)).len() ==> m.contains_key(
            field_key(name, #[trigger] required_fields(type_of(m, name))[i]),
        )
}

/// The entry belongs to an object and is a field that the type allows.
pub open spec fn entry_ok(m: Names, k: Seq<char>) -> bool {
    split_key(k) matches Some((n, f)) && object_ok(m, n)
        && (field_kind(type_of(m, n), f) matches Some(
        kind,
    ) && value_ok(kind, m[k]))
}

/// A catalog of complete objects.
#[verifier::opaque]
pub open spec fn catalog_ok(m: Names) -> bool {
    forall|k: Seq<char>| #[trigger] m.contains_key(k) ==> entry_ok(m, k)
}

fn is_queue_type(t: &str) -> (r: bool)
    ensures
        r == queue_type(t@),
{
    str_equal(t, "Queue") || str_equal(t, "Stack") || str_equal(t, "CircularQueue")
}

fn is_known_type(t: &str) -> (r: bool)
    ensures
        r == known_type(t@),
{
    str_equal(t, "TreeMap") || str_equal(t, "TreeSet") || is_atomic_type(t) || is_queue_type(t)
}

/// Objects of this type are a single record.
pub fn is_atomic_type(t: &str) -> (r: bool)
    ensures
        r == (plain_atomic(t@) || t@ == "AtomicVar"@),
{
    str_equal(t, "AtomicLong") || str_equal(t, "AtomicInteger") || str_equal(t, "AtomicBoolean")
        || str_equal(t, "AtomicString") || str_equal(t, "AtomicVar")
}

fn kind_of_field(t: &str, f: &str) -> (r: Option<FieldKind>)
    ensures
        r == field_kind(t@, f@),
{
    if !is_known_type(t) {
        None
    } else if str_equal(f, "type") {
        Some(FieldKind::Type)
    } else if str_equal(t, "TreeMap") {
        if str_equal(f, "keySerializer") || str_equal(f, "valueSerializer") {
            Some(FieldKind::GroupCodec)
        } else if str_equal(f, "rootRecidRecid") {
            Some(FieldKind::Recid)
        } else if str_equal(f, "maxNodeSize") {
            Some(FieldKind::NodeSize)
        } else if str_equal(f, "counterRecid") {
            Some(FieldKind::Counter)
        } else if str_equal(f, "valueInline") {
            Some(FieldKind::Flag)
        } else {
            None
        }
    } else if str_equal(t, "TreeSet") {
        if str_equal(f, "serializer") {
            Some(FieldKind::GroupCodec)
        } else if str_equal(f, "rootRecidRecid") {
            Some(FieldKind::Recid)
        } else if str_equal(f, "maxNodeSize") {
            Some(FieldKind::NodeSize)
        } else if str_equal(f, "counterRecid") {
            Some(FieldKind::Counter)
        } else {
            None
        }
    } else if is_queue_type(t) {
        if str_equal(f, "headerRecid") {
            Some(FieldKind::Recid)
        } else if str_equal(f, "serializer") {
            Some(FieldKind::ElementCodec)
        } else {
            None
        }
    } else if str_equal(f, "recid") {
        Some(FieldKind::Recid)
    } else if str_equal(t, "AtomicVar") && str_equal(f, "serializer") {
        Some(FieldKind::ElementCodec)
    } else {
        None
    }
}

fn required_of(t: &str) -> (r: Vec<&'static str>)
    ensures
        r@.len() == required_fields(t@).len(),
        forall|i: int| 0 <= i < r@.len() ==> (#[trigger] r@[i])@ == required_fields(t@)[i],
{
    let mut v: Vec<&'static str> = Vec::new();
    if str_equal(t, "TreeMap") {
        v.push("keySerializer");
        v.push("valueSerializer");
        v.push("rootRecidRecid");
        v.push("maxNodeSize");
    } else if str_equal(t, "TreeSet") {
        v.push("serializer");
        v.push("rootRecidRecid");
        v.push("maxNodeSize");
    } else if is_queue_type(t) {
        v.push("headerRecid");
        v.push("serializer");
    } else if str_equal(t, "AtomicVar") {
        v.push("recid");
        v.push("serializer");
    } else {
        v.push("recid");
    }
    v
}

fn check_value(kind: FieldKind, v: &str) -> (r: bool)
    ensures
        r == value_ok(kind, v@),
{
    match kind {
        FieldKind::Type => true,
        FieldKind::GroupCodec => is_valid_group_descriptor(v),
        FieldKind::ElementCodec => is_valid_ser_descriptor(v),
        FieldKind::Recid => match parse_decimal(v) {
            Some(n) => n >= 1,
            None => false,
        },
        FieldKind::Counter => parse_decimal(v).is_some(),
        FieldKind::NodeSize => match parse_decimal(v) {
            Some(n) => 4 <= n && n <= 1048576,
            None => false,
        },
        FieldKind::Flag => str_equal(v, "true") || str_equal(v, "false"),
    }
}

/// An error about an object in the catalog.
fn object_error(name: &str, what: &str) -> (r: DbError)
    ensures
        r matches DbError::DataCorruption(c) && c is Msg,
{
    let mut m = joined3("catalog object '", name, "' ");
    m.append(what);
    DbError::corrupt_msg(m)
}

fn check_object(cat: &NameCatalog, name: &str) -> (r: Result<()>)
    requires
        cat.wf(),
    ensures
        object_ok(cat@, name@) ==> r is Ok,
        !object_ok(cat@, name@) ==> (r matches Err(DbError::DataCorruption(c)) && c is Msg),
{
    match validate_name(name) {
        Ok(_) => {},
        Err(_) => {
            return Err(
                DbError::corrupt_msg(joined3("catalog has illegal object name '", name, "'")),
            );
        },
    }
    let ty = match cat.get(joined3(name, "#", "type").as_str()) {
        Some(t) => t,
        None => {
            return Err(object_error(name, "has no #type"));
        },
    };
    if !is_known_type(ty.as_str()) {
        return Err(object_error(name, joined3("has unknown #type '", ty.as_str(), "'").as_str()));
    }
    let fields = required_of(ty.as_str());
    let mut i: usize = 0;
    while i < fields.len()
        invariant
            cat.wf(),
            i <= fields@.len(),
            fields@.len() == required_fields(ty@).len(),
            ty@ == type_of(cat@, name@),
            forall|j: int| 0 <= j < fields@.len()
                ==> (#[trigger] fields@[j])@ == required_fields(ty@)[j],
            forall|j: int|
                0 <= j < i ==> cat@.contains_key(
                    field_key(name@, #[trigger] required_fields(ty@)[j]),
                ),
        decreases fields@.len() - i,
    {
        if !cat.contains_key(joined3(name, "#", fields[i]).as_str()) {
            assert(!cat@.contains_key(
                field_key(name@, required_fields(type_of(cat@, name@))[i as int]),
            ));
            return Err(
                object_error(
                    name,
                    joined3("misses the required field '", fields[i], "'").as_str(),
                ),
            );
        }
        i = i + 1;
    }
    Ok(())
}

fn check_field(cat: &NameCatalog, name: &str, field: &str, value: &str) -> (r: Result<()>)
    requires
        cat.wf(),
        object_ok(cat@, name@),
    ensures
        ({
            let ok = field_kind(type_of(cat@, name@), field@) matches Some(kind) && value_ok(
                kind,
                value@,
            );
            &&& ok ==> r is Ok
            &&& !ok ==> (r matches Err(DbError::DataCorruption(c)) && c is Msg)
        }),
{
    match cat.get(joined3(name, "#", "type").as_str()) {
        Some(ty) => match kind_of_field(ty.as_str(), field) {
            Some(kind) => if check_value(kind, value) {
                Ok(())
            } else {
                Err(
                    object_error(
                        name,
                        joined3(joined3("field '", field, "' has the invalid value '").as_str(), value, "'").as_str(),
                    ),
                )
            },
            None => Err(object_error(name, joined3("has unknown field '", field, "'").as_str())),
        },
        None => Err(object_error(name, "has no #type")),
    }
}

/// Checks a catalog that was read: every entry belongs to an object with a legal name
/// and a known type, each object has exactly the fields that its type allows and
/// demands, and each value is of its kind.
pub fn validate_catalog(cat: &NameCatalog) -> (r: Result<()>)
    requires
        cat.wf(),
    ensures
        catalog_ok(cat@) ==> r is Ok,
        !catalog_ok(cat@) ==> (r matches Err(DbError::DataCorruption(c)) && c is Msg),
{
    proof {
        reveal(catalog_ok);
    }
    let ghost m = cat@;
    let ghost e = cat.entries();
    proof {
        cat.lemma_lists();
    }
    let n: usize = cat.len();
    let mut prev: String = String::new();
    let mut i: usize = 0;
    while i < n
        invariant
            cat.wf(),
            m == cat@,
            e == cat.entries(),
            n == e.len(),
            i <= n,
            forall|j: int| 0 <= j < e.len() ==> m.contains_key((#[trigger] e[j]).0)
                && m[e[j].0] == e[j].1,
            forall|j: int| 0 <= j < i ==> entry_ok(m, (#[trigger] e[j]).0),
            i > 0 ==> object_ok(m, prev@),
        decreases n - i,
    {
        proof {
            reveal(catalog_ok);
        }
        let k = cat.key_at(i);
        let v = cat.value_at(i);
        assert(m.contains_key(e[i as int].0));
        let (name, field) = match parts(k.as_str()) {
            Some(p) => p,
            None => {
                assert(!entry_ok(m, k@));
                return Err(
                    DbError::corrupt_msg(
                        joined3("catalog key '", k.as_str(), "' has not exactly one '#'"),
                    ),
                );
            },
        };
        if i == 0 || !str_equal(prev.as_str(), name) {
            match check_object(cat, name) {
                Ok(_) => {},
                Err(x) => {
                    assert(!entry_ok(m, k@));
                    return Err(x);
                },
            }
        }
        match check_field(cat, name, field, v.as_str()) {
            Ok(_) => {},
            Err(x) => {
                assert(!entry_ok(m, k@));
                return Err(x);
            },
        }
        assert(entry_ok(m, e[i as int].0));
        prev = String::from_str(name);
        i = i + 1;
    }
    assert forall|k: Seq<char>| #[trigger] m.contains_key(k) implies entry_ok(m, k) by {
        let j = choose|j: int| 0 <= j < e.len() && (#[trigger] e[j]).0 == k;
        assert(entry_ok(m, e[j].0));
    }
    Ok(())
}

// ---------------------------------------------------------------- one object more or less

/// The key is one of the fields of an object.
pub open spec fn belongs(k: Seq<char>, name: Seq<char>) -> bool {
    begins(k, name + "#"@)
}

pub proof fn lemma_belongs(n: Seq<char>, f: Seq<char>, name: Seq<char>)
    requires
        !n.contains('#'),
        !name.contains('#'),
    ensures
        belongs(field_key(n, f), name) <==> n == name,
{
    reveal_strlit("#");
    let k = field_key(n, f);
    let p = name + "#"@;
    if n == name {
        assert(k.take(p.len() as int) =~= p);
    }
    if belongs(k, name) {
        assert(k.take(p.len() as int) == p);
        assert forall|i: int| 0 <= i < p.len() implies k[i] == #[trigger] p[i] by {
            assert(k.take(p.len() as int)[i] == k[i]);
        }
        assert(p[name.len() as int] == '#');
        if n.len() < name.len() {
            assert(p[n.len() as int] == name[n.len() as int]);
            assert(name.contains(name[n.len() as int]));
        } else if n.len() > name.len() {
            assert(k[name.len() as int] == n[name.len() as int]);
            assert(n.contains(n[name.len() as int]));
        } else {
            assert(n =~= name) by {
                assert forall|i: int| 0 <= i < n.len() implies n[i] == name[i] by {
                    assert(k[i] == p[i]);
                }
            }
        }
    }
}

/// The catalog without an object.
pub open spec fn without(m: Names, name: Seq<char>) -> Names {
    Map::new(|k: Seq<char>| m.contains_key(k) && !belongs(k, name), |k: Seq<char>| m[k])
}

/// The key that the field of `new` with key `k` had under the name `old`.
pub open spec fn former_key(k: Seq<char>, old_name: Seq<char>, new_name: Seq<char>) -> Seq<char> {
    field_key(old_name, k.skip(new_name.len() as int + 1))
}

/// The fields of `new_name` in `m` after the keys in `done` were renamed.
pub open spec fn partly_renamed(
    m: Names,
    old_name: Seq<char>,
    new_name: Seq<char>,
    done: Set<Seq<char>>,
) -> Names {
    let moved = |k: Seq<char>|
        belongs(k, new_name) && m.contains_key(former_key(k, old_name, new_name)) && done.contains(
            former_key(k, old_name, new_name),
        );
    Map::new(
        |k: Seq<char>| moved(k) || (m.contains_key(k) && !belongs(k, old_name)),
        |k: Seq<char>|
            if moved(k) {
                m[former_key(k, old_name, new_name)]
            } else {
                m[k]
            },
    )
}

/// The catalog with every field of `old_name` under the name `new_name`.
pub open spec fn renamed(m: Names, old_name: Seq<char>, new_name: Seq<char>) -> Names {
    Map::new(
        |k: Seq<char>|
            (belongs(k, new_name) && m.contains_key(former_key(k, old_name, new_name))) || (
            m.contains_key(k) && !belongs(k, old_name)),
        |k: Seq<char>|
            if belongs(k, new_name) && m.contains_key(former_key(k, old_name, new_name)) {
                m[former_key(k, old_name, new_name)]
            } else {
                m[k]
            },
    )
}

/// Deleting an object leaves a catalog of complete objects, and every other object as
/// it was.
pub proof fn law_without(m: Names, name: Seq<char>)
    requires
        catalog_ok(m),
        valid_name(name),
    ensures
        catalog_ok(without(m, name)),
        !without(m, name).contains_key(field_key(name, "type"@)),
        forall|n: Seq<char>, f: Seq<char>|
            #![trigger field_key(n, f)]
            valid_name(n) && n != name ==> same_at(without(m, name), m, field_key(n, f)),
{
    reveal(catalog_ok);
    let w = without(m, name);
    lemma_name_has_no_hash(name);
    lemma_belongs(name, "type"@, name);
    assert forall|n: Seq<char>, f: Seq<char>|
        #![trigger field_key(n, f)]
        valid_name(n) && n != name implies same_at(w, m, field_key(n, f)) by {
        lemma_name_has_no_hash(n);
        lemma_belongs(n, f, name);
    }
    assert forall|k: Seq<char>| #[trigger] w.contains_key(k) implies entry_ok(w, k) by {
        assert(m.contains_key(k));
        lemma_split_parts(k);
        let (n, f) = split_key(k).unwrap();
        lemma_belongs(n, f, name);
        lemma_object_kept(m, w, n);
    }
}

/// An object whose fields two catalogs share is complete in both.
proof fn lemma_object_kept(m: Names, w: Names, n: Seq<char>)
    requires
        object_ok(m, n),
        forall|f: Seq<char>| #![trigger field_key(n, f)] same_at(w, m, field_key(n, f)),
    ensures
        object_ok(w, n),
        type_of(w, n) == type_of(m, n),
{
    assert(same_at(w, m, field_key(n, "type"@)));
    assert forall|i: int| 0 <= i < required_fields(type_of(w, n)).len() implies w.contains_key(
        field_key(n, #[trigger] required_fields(type_of(w, n))[i]),
    ) by {
        assert(same_at(w, m, field_key(n, required_fields(type_of(m, n))[i])));
    }
}

/// Renaming an object onto a free name leaves a catalog of complete objects: every
/// field of the object stands under the new name, and every other object is as it was.
#[verifier::spinoff_prover]
#[verifier::rlimit(60)]
pub proof fn law_renamed(m: Names, old_name: Seq<char>, new_name: Seq<char>)
    requires
        catalog_ok(m),
        m.contains_key(field_key(old_name, "type"@)),
        valid_name(old_name),
        valid_name(new_name),
        !m.contains_key(field_key(new_name, "type"@)),
    ensures
        catalog_ok(renamed(m, old_name, new_name)),
        !renamed(m, old_name, new_name).contains_key(field_key(old_name, "type"@)),
        forall|f: Seq<char>|
            #![trigger field_key(new_name, f)]
            renamed(m, old_name, new_name).contains_key(field_key(new_name, f)) == m.contains_key(
                field_key(old_name, f),
            ) && (m.contains_key(field_key(old_name, f))
                ==> renamed(m, old_name, new_name)[field_key(
                new_name,
                f,
            )] == m[field_key(old_name, f)]),
        forall|n: Seq<char>, f: Seq<char>|
            #![trigger field_key(n, f)]
            valid_name(n) && n != old_name && n != new_name ==> same_at(
                renamed(m, old_name, new_name),
                m,
                field_key(n, f),
            ),
{
    reveal(catalog_ok);
    reveal_strlit("#");
    let w = renamed(m, old_name, new_name);
    lemma_name_has_no_hash(old_name);
    lemma_name_has_no_hash(new_name);
    lemma_belongs(old_name, "type"@, new_name);
    lemma_belongs(old_name, "type"@, old_name);
    assert forall|f: Seq<char>| !m.contains_key(#[trigger] field_key(new_name, f)) by {
        if m.contains_key(field_key(new_name, f)) {
            let k = field_key(new_name, f);
            assert(entry_ok(m, k));
            lemma_split_parts(k);
            let (n, g) = split_key(k).unwrap();
            lemma_belongs(n, g, new_name);
            lemma_belongs(new_name, f, new_name);
        }
    }
    assert forall|f: Seq<char>|
        #![trigger field_key(new_name, f)]
        w.contains_key(field_key(new_name, f)) == m.contains_key(field_key(old_name, f)) && (
        m.contains_key(field_key(old_name, f)) ==> w[field_key(new_name, f)] == m[field_key(
            old_name,
            f,
        )]) by {
        let k = field_key(new_name, f);
        lemma_belongs(new_name, f, new_name);
        assert(k.skip(new_name.len() as int + 1) =~= f);
    }
    assert forall|n: Seq<char>, f: Seq<char>|
        #![trigger field_key(n, f)]
        valid_name(n) && n != old_name && n != new_name implies same_at(w, m, field_key(n, f)) by {
        lemma_name_has_no_hash(n);
        lemma_belongs(n, f, old_name);
        lemma_belongs(n, f, new_name);
    }
    assert forall|k: Seq<char>| #[trigger] w.contains_key(k) implies entry_ok(w, k) by {
        if belongs(k, new_name) && m.contains_key(former_key(k, old_name, new_name)) {
            lemma_moved_entry(m, w, k, old_name, new_name);
        } else {
            assert(m.contains_key(k));
            assert(entry_ok(m, k));
            lemma_split_parts(k);
            let (n, f) = split_key(k).unwrap();
            lemma_belongs(n, f, old_name);
            assert(n != new_name);
            lemma_object_kept(m, w, n);
            assert(same_at(w, m, field_key(n, f)));
        }
    }
}

/// An entry that was moved to a new name is a field of the object of that name.
proof fn lemma_moved_entry(
    m: Names,
    w: Names,
    k: Seq<char>,
    old_name: Seq<char>,
    new_name: Seq<char>,
)
    requires
        entry_ok(m, former_key(k, old_name, new_name)),
        m.contains_key(former_key(k, old_name, new_name)),
        belongs(k, new_name),
        valid_name(old_name),
        valid_name(new_name),
        forall|f: Seq<char>|
            #![trigger field_key(new_name, f)]
            w.contains_key(field_key(new_name, f)) == m.contains_key(field_key(old_name, f)) && (
            m.contains_key(field_key(old_name, f)) ==> w[field_key(new_name, f)] == m[field_key(
                old_name,
                f,
            )]),
    ensures
        entry_ok(w, k),
{
    reveal_strlit("#");
    lemma_name_has_no_hash(old_name);
    lemma_name_has_no_hash(new_name);
    let f = k.skip(new_name.len() as int + 1);
    let p = new_name + "#"@;
    assert(k =~= field_key(new_name, f)) by {
        assert(k.take(p.len() as int) == p);
        assert forall|i: int| 0 <= i < p.len() implies k[i] == #[trigger] p[i] by {
            assert(k.take(p.len() as int)[i] == k[i]);
        }
    }
    let o = field_key(old_name, f);
    lemma_split_parts(o);
    let (n, g) = split_key(o).unwrap();
    lemma_belongs(n, g, old_name);
    lemma_belongs(old_name, f, old_name);
    assert(o.skip(old_name.len() as int + 1) =~= f);
    assert(o.skip(old_name.len() as int + 1) =~= g);
    lemma_split_key(new_name, f);
    assert(w.contains_key(field_key(new_name, "type"@)));
    assert(type_of(w, new_name) == type_of(m, old_name));
    assert forall|i: int| 0 <= i < required_fields(type_of(w, new_name)).len()
        implies w.contains_key(
        field_key(new_name, #[trigger] required_fields(type_of(w, new_name))[i]),
    ) by {
        assert(m.contains_key(field_key(old_name, required_fields(type_of(m, old_name))[i])));
    }
}

/// A copy of the catalog without an object.
pub fn drop_object(cat: &NameCatalog, name: &str) -> (r: NameCatalog)
    requires
        cat.wf(),
    ensures
        r.wf(),
        r@ == without(cat@, name@),
{
    let ghost m = cat@;
    let ghost e = cat.entries();
    proof {
        cat.lemma_lists();
    }
    let prefix = joined(name, "#");
    let n: usize = cat.len();
    let mut out = NameCatalog::new();
    let ghost mut done: Set<Seq<char>> = Set::empty();
    let mut i: usize = 0;
    while i < n
        invariant
            cat.wf(),
            m == cat@,
            e == cat.entries(),
            n == e.len(),
            i <= n,
            prefix@ == name@ + "#"@,
            out.wf(),
            forall|j: int| 0 <= j < e.len() ==> m.contains_key((#[trigger] e[j]).0)
                && m[e[j].0] == e[j].1,
            forall|j: int| 0 <= j < i ==> done.contains((#[trigger] e[j]).0),
            forall|k: Seq<char>| #[trigger] out@.contains_key(k) <==> done.contains(k)
                && m.contains_key(k) && !belongs(
                k,
                name@,
            ),
            forall|k: Seq<char>| #[trigger] out@.contains_key(k) ==> out@[k] == m[k],
        decreases n - i,
    {
        let k = cat.key_at(i);
        assert(m.contains_key(e[i as int].0));
        if !begins_with(k.as_str(), prefix.as_str()) {
            out.insert(k.clone(), cat.value_at(i).clone());
        }
        proof {
            done = done.insert(e[i as int].0);
        }
        i = i + 1;
    }
    proof {
        let w = without(m, name@);
        assert forall|k: Seq<char>| #[trigger] same_at(out@, w, k) by {
            if m.contains_key(k) {
                let j = choose|j: int| 0 <= j < e.len() && (#[trigger] e[j]).0 == k;
                assert(done.contains(e[j].0));
            }
            assert(out@.contains_key(k) == w.contains_key(k));
        }
        lemma_same_map(out@, w);
    }
    out
}

/// A copy of the catalog with an object under another name.
pub fn rename_object(cat: &NameCatalog, old_name: &str, new_name: &str) -> (r: NameCatalog)
    requires
        cat.wf(),
        old_name@ != new_name@,
        !old_name@.contains('#'),
        !new_name@.contains('#'),
    ensures
        r.wf(),
        r@ == renamed(cat@, old_name@, new_name@),
{
    let ghost m = cat@;
    let ghost e = cat.entries();
    proof {
        cat.lemma_lists();
        reveal_strlit("#");
    }
    let mut out = drop_object(cat, old_name);
    let prefix = joined(old_name, "#");
    let skip: usize = chars_of(prefix.as_str()).len();
    let n: usize = cat.len();
    let ghost mut done: Set<Seq<char>> = Set::empty();
    proof {
        let w = partly_renamed(m, old_name@, new_name@, done);
        assert forall|k: Seq<char>| #[trigger] same_at(out@, w, k) by {}
        lemma_same_map(out@, w);
    }
    let mut i: usize = 0;
    while i < n
        invariant
            cat.wf(),
            m == cat@,
            e == cat.entries(),
            n == e.len(),
            i <= n,
            "#"@.len() == 1,
            skip == prefix@.len(),
            prefix@ == old_name@ + "#"@,
            old_name@ != new_name@,
            !old_name@.contains('#'),
            !new_name@.contains('#'),
            out.wf(),
            forall|j: int| 0 <= j < e.len() ==> m.contains_key((#[trigger] e[j]).0)
                && m[e[j].0] == e[j].1,
            forall|j: int| 0 <= j < i ==> done.contains((#[trigger] e[j]).0),
            out@ == partly_renamed(m, old_name@, new_name@, done),
        decreases n - i,
    {
        let k = cat.key_at(i);
        let ghost before = done;
        assert(m.contains_key(e[i as int].0));
        let ghost a = out@;
        if begins_with(k.as_str(), prefix.as_str()) {
            let field = after_chars(k.as_str(), skip);
            out.insert(joined3(new_name, "#", field), cat.value_at(i).clone());
            proof {
                lemma_one_renamed(m, old_name@, new_name@, before, k@);
                assert(k@.skip(old_name@.len() as int + 1) =~= field@);
            }
        } else {
            proof {
                lemma_none_renamed(m, old_name@, new_name@, before, k@);
            }
        }
        proof {
            done = done.insert(e[i as int].0);
        }
        i = i + 1;
    }
    proof {
        let w = renamed(m, old_name@, new_name@);
        assert forall|k: Seq<char>| #[trigger] same_at(out@, w, k) by {
            let o = former_key(k, old_name@, new_name@);
            if m.contains_key(o) {
                let j = choose|j: int| 0 <= j < e.len() && (#[trigger] e[j]).0 == o;
                assert(done.contains(e[j].0));
            }
        }
        lemma_same_map(out@, w);
    }
    out
}

proof fn lemma_one_renamed(
    m: Names,
    old_name: Seq<char>,
    new_name: Seq<char>,
    done: Set<Seq<char>>,
    key: Seq<char>,
)
    requires
        m.contains_key(key),
        belongs(key, old_name),
        old_name != new_name,
        !old_name.contains('#'),
        !new_name.contains('#'),
    ensures
        partly_renamed(m, old_name, new_name, done).insert(
            field_key(new_name, key.skip(old_name.len() as int + 1)),
            m[key],
        ) == partly_renamed(m, old_name, new_name, done.insert(key)),
{
    reveal_strlit("#");
    let f = key.skip(old_name.len() as int + 1);
    let nk = field_key(new_name, f);
    let a = partly_renamed(m, old_name, new_name, done).insert(nk, m[key]);
    let b = partly_renamed(m, old_name, new_name, done.insert(key));
    let p = old_name + "#"@;
    assert(key =~= field_key(old_name, f)) by {
        assert(key.take(p.len() as int) == p);
        assert forall|i: int| 0 <= i < p.len() implies key[i] == #[trigger] p[i] by {
            assert(key.take(p.len() as int)[i] == key[i]);
        }
    }
    lemma_belongs(new_name, f, new_name);
    assert(nk.skip(new_name.len() as int + 1) =~= f);
    assert forall|k: Seq<char>| #[trigger] same_at(a, b, k) by {
        let o = former_key(k, old_name, new_name);
        if belongs(k, new_name) && o == key {
            assert(o.skip(old_name.len() as int + 1) =~= k.skip(new_name.len() as int + 1));
            let q = new_name + "#"@;
            assert(k.take(q.len() as int) == q);
            assert(k =~= nk) by {
                assert forall|i: int| 0 <= i < q.len() implies k[i] == #[trigger] q[i] by {
                    assert(k.take(q.len() as int)[i] == k[i]);
                }
                assert forall|i: int| q.len() <= i < k.len() implies k[i] == nk[i] by {
                    assert(k.skip(q.len() as int)[i - q.len()] == f[i - q.len()]);
                }
            }
        }
    }
    lemma_same_map(a, b);
}

proof fn lemma_none_renamed(
    m: Names,
    old_name: Seq<char>,
    new_name: Seq<char>,
    done: Set<Seq<char>>,
    key: Seq<char>,
)
    requires
        !belongs(key, old_name),
        !old_name.contains('#'),
    ensures
        partly_renamed(m, old_name, new_name, done) == partly_renamed(
            m,
            old_name,
            new_name,
            done.insert(key),
        ),
{
    let a = partly_renamed(m, old_name, new_name, done);
    let b = partly_renamed(m, old_name, new_name, done.insert(key));
    assert forall|k: Seq<char>| #[trigger] same_at(a, b, k) by {
        lemma_belongs(old_name, k.skip(new_name.len() as int + 1), old_name);
    }
    lemma_same_map(a, b);
}

/// Key `k` is the field `f` of an object `n` with a legal name and one of these types, it is
/// a field that objects of the type have, and it holds a value that such a field can have;
/// and the object has all the fields that its type demands.
pub open spec fn well_filed(m: Names, k: Seq<char>, n: Seq<char>, f: Seq<char>) -> bool {
    let t = m[n + "#"@ + "type"@];
    let v = m[k];
    let number = parsed(v, u64::MAX as nat);
    let tree = t == "TreeMap"@ || t == "TreeSet"@;
    let queue = t == "Queue"@ || t == "Stack"@ || t == "CircularQueue"@;
    let cell = t == "AtomicLong"@ || t == "AtomicInteger"@ || t == "AtomicBoolean"@ || t
        == "AtomicString"@ || t == "AtomicVar"@;
    &&& k == n + "#"@ + f
    &&& valid_name(n)
    &&& m.contains_key(n + "#"@ + "type"@)
    &&& tree || queue || cell
    &&& t == "TreeMap"@ ==> m.contains_key(n + "#"@ + "keySerializer"@) && m.contains_key(
        n + "#"@ + "valueSerializer"@,
    )
    &&& t == "TreeSet"@ || queue || t == "AtomicVar"@ ==> m.contains_key(
        n + "#"@ + "serializer"@,
    )
    &&& tree ==> m.contains_key(n + "#"@ + "rootRecidRecid"@) && m.contains_key(
        n + "#"@ + "maxNodeSize"@,
    )
    &&& queue ==> m.contains_key(n + "#"@ + "headerRecid"@)
    &&& cell ==> m.contains_key(n + "#"@ + "recid"@)
    &&& {
        ||| f == "type"@
        ||| t == "TreeMap"@ && (f == "keySerializer"@ || f == "valueSerializer"@) && valid_group(v)
        ||| t == "TreeSet"@ && f == "serializer"@ && valid_group(v)
        ||| (queue || t == "AtomicVar"@) && f == "serializer"@ && valid_ser(v)
        ||| (tree && f == "rootRecidRecid"@ || queue && f == "headerRecid"@ || cell && f
            == "recid"@) && (number matches Some(x) && x >= 1)
        ||| tree && f == "counterRecid"@ && number is Some
        ||| tree && f == "maxNodeSize"@ && (number matches Some(x) && 4 <= x <= 1048576)
        ||| t == "TreeMap"@ && f == "valueInline"@ && (v == "true"@ || v == "false"@)
    }
}

/// Every entry of a catalog that is taken is well filed.
#[verifier::spinoff_prover]
pub proof fn law_catalog_entries(m: Names, k: Seq<char>) -> (parts: (Seq<char>, Seq<char>))
    requires
        catalog_ok(m),
        m.contains_key(k),
    ensures
        well_filed(m, k, parts.0, parts.1),
{
    reveal(catalog_ok);
    assert(entry_ok(m, k));
    lemma_split_parts(k);
    let (n, f) = split_key(k).unwrap();
    lemma_well_filed(m, k, n, f);
    (n, f)
}

#[verifier::spinoff_prover]
#[verifier::rlimit(40)]
proof fn lemma_well_filed(m: Names, k: Seq<char>, n: Seq<char>, f: Seq<char>)
    requires
        k == field_key(n, f),
        object_ok(m, n),
        field_kind(type_of(m, n), f) matches Some(kind) && value_ok(kind, m[k]),
    ensures
        well_filed(m, k, n, f),
{
    super::objects::lemma_type_names();
    let t = type_of(m, n);
    let q = required_fields(t);
    assert(q.len() > 0 ==> m.contains_key(field_key(n, q[0])));
    assert(q.len() > 1 ==> m.contains_key(field_key(n, q[1])));
    assert(q.len() > 2 ==> m.contains_key(field_key(n, q[2])));
    assert(q.len() > 3 ==> m.contains_key(field_key(n, q[3])));
}

/// A catalog in which every entry is well filed is taken.
#[verifier::spinoff_prover]
pub proof fn law_well_filed_catalogs(m: Names)
    requires
        forall|k: Seq<char>| #[trigger]
            m.contains_key(k) ==> exists|n: Seq<char>, f: Seq<char>| #[trigger]
                well_filed(m, k, n, f),
    ensures
        catalog_ok(m),
{
    reveal(catalog_ok);
    assert forall|k: Seq<char>| #[trigger] m.contains_key(k) implies entry_ok(m, k) by {
        let (n, f) = choose|n: Seq<char>, f: Seq<char>| #[trigger] well_filed(m, k, n, f);
        lemma_filed_field(m, k, n, f);
        lemma_no_hash(n);
        lemma_split_key(n, f);
        lemma_filed_kind(m, k, n, f);
    }
}

/// No legal name has a hash sign.
proof fn lemma_no_hash(n: Seq<char>)
    requires
        valid_name(n),
    ensures
        !n.contains('#'),
{
    if n.contains('#') {
        let i = choose|i: int| 0 <= i < n.len() && n[i] == '#';
        assert(name_char(n[i]));
    }
}

/// The name of a field has no hash sign.
proof fn lemma_filed_field(m: Names, k: Seq<char>, n: Seq<char>, f: Seq<char>)
    requires
        well_filed(m, k, n, f),
    ensures
        !f.contains('#'),
{
    reveal_strlit("type");
    reveal_strlit("keySerializer");
    reveal_strlit("valueSerializer");
    reveal_strlit("serializer");
    reveal_strlit("rootRecidRecid");
    reveal_strlit("headerRecid");
    reveal_strlit("recid");
    reveal_strlit("counterRecid");
    reveal_strlit("maxNodeSize");
    reveal_strlit("valueInline");
    if f.contains('#') {
        let i = choose|i: int| 0 <= i < f.len() && f[i] == '#';
        assert(false);
    }
}

/// The names of the fields differ.
proof fn lemma_field_names()
    ensures
        "type"@.len() == 4,
        "recid"@.len() == 5,
        "serializer"@.len() == 10,
        "headerRecid"@.len() == 11 && "headerRecid"@[0] == 'h',
        "maxNodeSize"@.len() == 11 && "maxNodeSize"@[0] == 'm',
        "valueInline"@.len() == 11 && "valueInline"@[0] == 'v',
        "counterRecid"@.len() == 12,
        "keySerializer"@.len() == 13,
        "rootRecidRecid"@.len() == 14,
        "valueSerializer"@.len() == 15,
{
    reveal_strlit("type");
    reveal_strlit("keySerializer");
    reveal_strlit("valueSerializer");
    reveal_strlit("serializer");
    reveal_strlit("rootRecidRecid");
    reveal_strlit("headerRecid");
    reveal_strlit("recid");
    reveal_strlit("counterRecid");
    reveal_strlit("maxNodeSize");
    reveal_strlit("valueInline");
}

/// What is well filed is a field that the type of its object allows, and its object has
/// the fields that the type demands.
#[verifier::spinoff_prover]
#[verifier::rlimit(40)]
proof fn lemma_filed_kind(m: Names, k: Seq<char>, n: Seq<char>, f: Seq<char>)
    requires
        well_filed(m, k, n, f),
    ensures
        k == field_key(n, f),
        object_ok(m, n),
        field_kind(type_of(m, n), f) matches Some(kind) && value_ok(kind, m[k]),
{
    super::objects::lemma_type_names();
    lemma_field_names();
    let t = type_of(m, n);
    let q = required_fields(t);
    assert forall|i: int| 0 <= i < q.len() implies m.contains_key(field_key(n, #[trigger] q[i])) by {
        assert(i == 0 || i == 1 || i == 2 || i == 3);
    }
}

} // verus!
