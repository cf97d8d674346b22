//! The name catalog: what every named collection is and where it stands.
//!
//! The catalog is a map from strings to strings in one record: the magic number
//! `MDBC`, the version, the representation, the packed number of entries, and then
//! the entries in ascending order of their keys, each string with its packed length.
//! A string length or the number of entries counts only when it is packed in the one
//! shortest way.

use vstd::prelude::*;
use vstd::utf8::{decode_utf8, encode_utf8, valid_utf8};
use crate::btree::contents::lists;
use crate::btree::range::law_listing_is_unique;
use crate::error::{DbError, Result};
use crate::io::{
    be_bytes, canonical, law_be_round_trip, law_canonical_round_trip, lemma_pow256_values,
    lemma_varint_len_bound, packed, reads_be, rest, DataInput2, DataOutput2, SliceInput,
};
use crate::ser::{
    all_fit, dec_all, enc_all, enc_block, group_key_order, law_group_round_trip, lemma_dec_all_within,
    models, search, sorted, splits_at, str_equal, string_from_utf8, GroupFormat,
    KeyFormat, Serializer, STRING,
};

verus! {

/// The recid of the catalog.
pub const RECID_CATALOG: u64 = 1;

/// `MDBC`.
const CATALOG_MAGIC: i32 = 0x4D44_4243;

const CATALOG_VERSION: i32 = 1;

const REPR_INLINE: u8 = 0;

/// The largest number of entries.
pub const MAX_CATALOG_ENTRIES: u64 = 10_000_000;

/// The length of an empty catalog.
const MIN_CATALOG_LEN: usize = 10;

// ---------------------------------------------------------------- strings

/// The codec of catalog strings: their UTF-8 bytes after their length.
#[derive(Debug, Clone, Copy)]
pub struct CatalogString;

/// The codec of catalog strings.
pub const CATALOG_STRING: CatalogString = CatalogString;

impl Serializer for CatalogString {
    type Item = String;

    open spec fn fits(&self, v: Seq<char>) -> bool {
        encode_utf8(v).len() <= u64::MAX
    }

    open spec fn enc(&self, v: Seq<char>) -> Seq<u8> {
        enc_block(encode_utf8(v))
    }

    open spec fn dec(&self, s: Seq<u8>) -> Option<(Seq<char>, nat)> {
        match canonical(s) {
            Some((len, n)) => if n + len <= s.len() && valid_utf8(
                s.subrange(n as int, n + len),
            ) {
                Some((decode_utf8(s.subrange(n as int, n + len)), n + len as nat))
            } else {
                None
            },
            None => None,
        }
    }

    proof fn round_trip(&self, v: Seq<char>, tail: Seq<u8>) {
        let b = encode_utf8(v);
        let p = packed(b.len());
        law_canonical_round_trip(b.len() as u64, b + tail);
        let s = self.enc(v) + tail;
        assert(s =~= p + (b + tail));
        assert(s.subrange(p.len() as int, (p.len() + b.len()) as int) =~= b);
        vstd::utf8::encode_utf8_valid_utf8(v);
        vstd::utf8::encode_utf8_decode_utf8(v);
    }

    proof fn dec_within(&self, s: Seq<u8>) {
        lemma_varint_len_bound(s, 10);
        if let Some((len, n)) = canonical(s) {
            if n + len <= s.len() && valid_utf8(s.subrange(n as int, n + len)) {
                vstd::utf8::decode_utf8_encode_utf8(s.subrange(n as int, n + len));
            }
        }
    }

    fn can_write(&self, value: &String) -> bool {
        let _len: usize = value.as_str().as_bytes().len();
        true
    }

    fn serialize(&self, out: &mut DataOutput2, value: &String) {
        let b = value.as_str().as_bytes();
        out.pack_long(b.len() as u64);
        out.write_all(b);
        assert(out@ =~= old(out)@ + self.enc(value@));
    }

    fn deserialize(&self, input: &mut SliceInput<'_>) -> Result<String> {
        let ghost s = rest(input.bytes(), input.cursor());
        proof {
            lemma_varint_len_bound(s, 10);
        }
        let len: u64 = match input.unpack_canonical() {
            Ok(x) => x,
            Err(e) => {
                return Err(e);
            },
        };
        let ghost n = canonical(s).unwrap().1;
        assert(rest(input.bytes(), input.cursor()) =~= s.skip(n as int));
        let _total: usize = input.len();
        if len > usize::MAX as u64 {
            return Err(DbError::corrupt("catalog string length overflow"));
        }
        let b = match input.read_vec(len as usize) {
            Ok(x) => x,
            Err(e) => {
                return Err(e);
            },
        };
        assert(s.skip(n as int).take(len as int) =~= s.subrange(n as int, n + len));
        match string_from_utf8(b) {
            Some(t) => {
                proof {
                    vstd::utf8::encode_utf8_decode_utf8(t@);
                }
                Ok(t)
            },
            None => Err(DbError::corrupt("catalog string is not valid UTF-8")),
        }
    }

    fn equals(&self, a: &String, b: &String) -> bool {
        str_equal(a.as_str(), b.as_str())
    }

    fn dup(&self, a: &String) -> String {
        a.clone()
    }

    open spec fn width(&self) -> Option<usize> {
        None
    }

    proof fn width_is_exact(&self, v: Seq<char>) {
    }

    fn fixed_size(&self) -> Option<usize> {
        None
    }
}

// ---------------------------------------------------------------- the map

/// A sorted map from strings to strings.
#[derive(Debug, PartialEq, Eq)]
pub struct NameCatalog {
    keys: Vec<String>,
    values: Vec<String>,
}

/// The model of a catalog.
pub type Names = Map<Seq<char>, Seq<char>>;

impl View for NameCatalog {
    type V = Names;

    closed spec fn view(&self) -> Names {
        entries_map(self.entries())
    }
}

/// The map of some entries.
pub open spec fn entries_map(e: Seq<(Seq<char>, Seq<char>)>) -> Names {
    Map::new(
        |k: Seq<char>| exists|i: int| 0 <= i < e.len() && (#[trigger] e[i]).0 == k,
        |k: Seq<char>| e[choose|i: int| 0 <= i < e.len() && (#[trigger] e[i]).0 == k].1,
    )
}

impl NameCatalog {
    /// The entries in ascending order of their keys.
    pub closed spec fn entries(&self) -> Seq<(Seq<char>, Seq<char>)> {
        Seq::new(self.keys@.len(), |i: int| (self.keys@[i]@, self.values@[i]@))
    }

    /// The keys ascend, and each has a value.
    pub closed spec fn wf(&self) -> bool {
        self.keys@.len() == self.values@.len() && sorted(&STRING, models(self.keys@))
    }

    /// The entries list the map.
    pub proof fn lemma_lists(&self)
        requires
            self.wf(),
        ensures
            lists(&STRING, self.entries(), self@),
            self@.dom().finite(),
            self.entries().len() == self@.len(),
    {
        broadcast use group_key_order;

        let e = self.entries();
        let m = models(self.keys@);
        assert forall|i: int, j: int| #![trigger e[i], e[j]] 0 <= i < j < e.len() implies STRING.lt(
            e[i].0,
            e[j].0,
        ) by {
            assert(STRING.lt(m[i], m[j]));
        }
        assert forall|i: int| #![trigger e[i]] 0 <= i < e.len() implies self@.contains_key(e[i].0)
            && self@[e[i].0] == e[i].1 by {
            let j = choose|j: int| 0 <= j < e.len() && (#[trigger] e[j]).0 == e[i].0;
            if i < j {
                assert(STRING.lt(m[i], m[j]));
            } else if j < i {
                assert(STRING.lt(m[j], m[i]));
            }
        }
        crate::btree::range::lemma_lists_len(&STRING, e, self@);
    }

    pub fn new() -> (r: Self)
        ensures
            r.wf(),
            r@ == Names::empty(),
    {
        let r = NameCatalog { keys: Vec::new(), values: Vec::new() };
        assert(r@ =~= Names::empty());
        r
    }

    pub fn len(&self) -> (r: usize)
        requires
            self.wf(),
        ensures
            r == self@.len(),
            r == self.entries().len(),
    {
        proof {
            self.lemma_lists();
        }
        self.keys.len()
    }

    pub fn is_empty(&self) -> (r: bool)
        requires
            self.wf(),
        ensures
            r == (self@ == Names::empty()),
    {
        proof {
            self.lemma_lists();
            if self.keys@.len() == 0 {
                assert(self@ =~= Names::empty());
            } else {
                assert(self@.contains_key(self.entries()[0].0));
            }
        }
        self.keys.len() == 0
    }

    /// The `i`-th key in ascending order.
    pub fn key_at(&self, i: usize) -> (r: &String)
        requires
            self.wf(),
            i < self.entries().len(),
        ensures
            r@ == self.entries()[i as int].0,
    {
        &self.keys[i]
    }

    /// The value of the `i`-th key.
    pub fn value_at(&self, i: usize) -> (r: &String)
        requires
            self.wf(),
            i < self.entries().len(),
        ensures
            r@ == self.entries()[i as int].1,
    {
        &self.values[i]
    }

    fn find(&self, key: &str) -> (r: std::result::Result<usize, usize>)
        requires
            self.wf(),
        ensures
            match r {
                Ok(p) => p < self.keys@.len() && self.keys@[p as int]@ == key@
                    && self@.contains_key(
                    key@,
                ) && self@[key@] == self.values@[p as int]@,
                Err(p) => p <= self.keys@.len() && !self@.contains_key(key@) && splits_at(
                    &STRING,
                    models(self.keys@),
                    key@,
                    p as int,
                ),
            },
    {
        broadcast use group_key_order;

        let r = search(&STRING, &self.keys, &String::from_str(key));
        proof {
            self.lemma_lists();
            let e = self.entries();
            let m = models(self.keys@);
            match r {
                Ok(p) => {
                    assert(self.keys@[p as int]@ == m[p as int]);
                    assert(e[p as int].0 == key@);
                    assert(self@[e[p as int].0] == e[p as int].1);
                },
                Err(p) => {
                    if self@.contains_key(key@) {
                        let i = choose|i: int| 0 <= i < e.len() && (#[trigger] e[i]).0 == key@;
                        assert(m[i] == key@);
                    }
                },
            }
        }
        r
    }

    /// What the catalog holds for a key.
    pub fn get(&self, key: &str) -> (r: Option<&String>)
        requires
            self.wf(),
        ensures
            match r {
                Some(v) => self@.contains_key(key@) && v@ == self@[key@],
                None => !self@.contains_key(key@),
            },
    {
        match self.find(key) {
            Ok(p) => Some(&self.values[p]),
            Err(_) => None,
        }
    }

    pub fn contains_key(&self, key: &str) -> (r: bool)
        requires
            self.wf(),
        ensures
            r == self@.contains_key(key@),
    {
        match self.find(key) {
            Ok(_) => true,
            Err(_) => false,
        }
    }

    /// Puts an entry; answers the value that it replaced.
    pub fn insert(&mut self, key: String, value: String) -> (r: Option<String>)
        requires
            old(self).wf(),
        ensures
            final(self).wf(),
            final(self)@ == old(self)@.insert(key@, value@),
            match r {
                Some(v) => old(self)@.contains_key(key@) && v@ == old(self)@[key@],
                None => !old(self)@.contains_key(key@),
            },
    {
        broadcast use group_key_order;

        let ghost kv = key@;
        let ghost vv = value@;
        let ghost e = self.entries();
        let ghost m = models(self.keys@);
        proof {
            self.lemma_lists();
        }
        match self.find(key.as_str()) {
            Ok(p) => {
                let previous = self.values[p].clone();
                self.values.set(p, value);
                proof {
                    let e2 = self.entries();
                    assert(self.wf());
                    self.lemma_lists();
                    let after = old(self)@.insert(kv, vv);
                    assert forall|k: Seq<char>| #[trigger] same_at(self@, after, k) by {
                        lemma_entry(old(self)@, e, k);
                        lemma_entry(self@, e2, k);
                        assert forall|i: int| 0 <= i < e.len()
                            implies (#[trigger] e[i]).0 == e2[i].0
                            && (i != p ==> e[i] == e2[i]) by {}
                        assert forall|i: int| 0 <= i < e.len() implies (#[trigger] e2[i]).0
                            == e[i].0 by {}
                        assert(e2[p as int] == (kv, vv));
                        if old(self)@.contains_key(k) {
                            let i = choose|i: int| 0 <= i < e.len() && (#[trigger] e[i]).0 == k;
                            assert(e2[i].0 == k);
                        }
                        if self@.contains_key(k) {
                            let i = choose|i: int| 0 <= i < e2.len() && (#[trigger] e2[i]).0 == k;
                            assert(e[i].0 == k);
                        }
                    }
                    lemma_same_map(self@, after);
                }
                Some(previous)
            },
            Err(p) => {
                self.keys.insert(p, key);
                self.values.insert(p, value);
                proof {
                    let m2 = models(self.keys@);
                    assert(m2 =~= m.insert(p as int, kv));
                    assert forall|i: int, j: int| #![trigger m2[i], m2[j]] 0 <= i < j < m2.len()
                        implies STRING.lt(m2[i], m2[j]) by {
                        if i < p && j > p {
                            assert(STRING.lt(m[i], m[j - 1]));
                        } else if i < p && j < p {
                            assert(STRING.lt(m[i], m[j]));
                        } else if i > p {
                            assert(STRING.lt(m[i - 1], m[j - 1]));
                        }
                    }
                    assert(self.wf());
                    self.lemma_lists();
                    let e2 = self.entries();
                    assert(e2 =~= e.insert(p as int, (kv, vv)));
                    let after = old(self)@.insert(kv, vv);
                    assert forall|k: Seq<char>| #[trigger] same_at(self@, after, k) by {
                        assert(e2[p as int] == (kv, vv));
                        if old(self)@.contains_key(k) {
                            let i = choose|i: int| 0 <= i < e.len() && (#[trigger] e[i]).0 == k;
                            let j = if i < p {
                                i
                            } else {
                                i + 1
                            };
                            assert(e2[j] == e[i]);
                        }
                        if self@.contains_key(k) {
                            let j = choose|j: int| 0 <= j < e2.len() && (#[trigger] e2[j]).0 == k;
                            if j < p {
                                assert(e[j] == e2[j]);
                            } else if j > p {
                                assert(e[j - 1] == e2[j]);
                            }
                        }
                    }
                    lemma_same_map(self@, after);
                }
                None
            },
        }
    }

    /// A copy.
    pub fn dup(&self) -> (r: Self)
        requires
            self.wf(),
        ensures
            r.wf(),
            r@ == self@,
    {
        let mut keys: Vec<String> = Vec::new();
        let mut values: Vec<String> = Vec::new();
        let mut i: usize = 0;
        while i < self.keys.len()
            invariant
                i <= self.keys@.len(),
                self.wf(),
                keys@.len() == i,
                values@.len() == i,
                forall|j: int| 0 <= j < i ==> (#[trigger] keys@[j])@ == self.keys@[j]@,
                forall|j: int| 0 <= j < i ==> (#[trigger] values@[j])@ == self.values@[j]@,
            decreases self.keys@.len() - i,
        {
            keys.push(self.keys[i].clone());
            values.push(self.values[i].clone());
            i = i + 1;
        }
        let r = NameCatalog { keys, values };
        proof {
            assert(models(r.keys@) =~= models(self.keys@));
            assert(r.entries() =~= self.entries());
        }
        r
    }
}

/// Two maps hold the same for a key.
pub open spec fn same_at(a: Names, b: Names, k: Seq<char>) -> bool {
    a.contains_key(k) == b.contains_key(k) && (a.contains_key(k) ==> a[k] == b[k])
}

pub proof fn lemma_same_map(a: Names, b: Names)
    requires
        forall|k: Seq<char>| #[trigger] same_at(a, b, k),
    ensures
        a == b,
{
    assert forall|k: Seq<char>| #[trigger] a.dom().contains(k) == b.dom().contains(k) by {
        assert(same_at(a, b, k));
    }
    assert(a.dom() =~= b.dom());
    assert forall|k: Seq<char>| a.dom().contains(k) implies #[trigger] a[k] == b[k] by {
        assert(same_at(a, b, k));
    }
    assert(a =~= b);
}

/// What a listed map holds for a key.
proof fn lemma_entry(m: Names, e: Seq<(Seq<char>, Seq<char>)>, k: Seq<char>)
    requires
        lists(&STRING, e, m),
    ensures
        m.contains_key(k) == exists|i: int| 0 <= i < e.len() && (#[trigger] e[i]).0 == k,
        forall|i: int| 0 <= i < e.len() && (#[trigger] e[i]).0 == k ==> m[k] == e[i].1,
{
    if exists|i: int| 0 <= i < e.len() && (#[trigger] e[i]).0 == k {
        let i = choose|i: int| 0 <= i < e.len() && (#[trigger] e[i]).0 == k;
        assert(m.contains_key(e[i].0));
    }
}

// ---------------------------------------------------------------- the record

/// The entries of a map in ascending order of their keys.
pub open spec fn listing(m: Names) -> Seq<(Seq<char>, Seq<char>)> {
    choose|e: Seq<(Seq<char>, Seq<char>)>| #[trigger] lists(&STRING, e, m)
}

/// Keys and values in turn.
pub open spec fn flat(e: Seq<(Seq<char>, Seq<char>)>) -> Seq<Seq<char>> {
    Seq::new(
        2 * e.len(),
        |i: int|
            if i % 2 == 0 {
                e[i / 2].0
            } else {
                e[i / 2].1
            },
    )
}

/// The pairs of a row of keys and values in turn.
pub open spec fn paired(f: Seq<Seq<char>>) -> Seq<(Seq<char>, Seq<char>)> {
    Seq::new(f.len() / 2, |i: int| (f[2 * i], f[2 * i + 1]))
}

/// No key occurs twice.
pub open spec fn keys_differ(e: Seq<(Seq<char>, Seq<char>)>) -> bool {
    forall|i: int, j: int| #![trigger e[i], e[j]] 0 <= i < j < e.len() ==> e[i].0 != e[j].0
}

/// Magic number, version and representation.
pub open spec fn catalog_head() -> Seq<u8> {
    be_bytes(0x4D44_4243, 4) + be_bytes(1, 4) + seq![0u8]
}

/// The bytes of a catalog.
pub open spec fn catalog_bytes(m: Names) -> Seq<u8> {
    catalog_head() + packed(m.len()) + enc_all(&CATALOG_STRING, flat(listing(m)))
}

/// The catalog in a record with the bytes `s`.
pub open spec fn catalog_of(s: Seq<u8>) -> Option<Names> {
    if s.len() >= 10 && reads_be(s, 4) == Some(0x4D44_4243nat)
        && reads_be(s.skip(4), 4) == Some(1nat)
        && s[8] == 0 {
        match canonical(s.skip(9)) {
            Some((count, n)) => if count <= MAX_CATALOG_ENTRIES {
                match dec_all(&CATALOG_STRING, s.skip(9).skip(n as int), 2 * count as nat) {
                    Some((f, k)) => if 9 + n + k == s.len() && keys_differ(paired(f)) {
                        Some(entries_map(paired(f)))
                    } else {
                        None
                    },
                    None => None,
                }
            } else {
                None
            },
            None => None,
        }
    } else {
        None
    }
}

/// A catalog that a record can hold.
pub open spec fn catalog_fits(m: Names) -> bool {
    &&& m.dom().finite()
    &&& m.len() <= MAX_CATALOG_ENTRIES
    &&& exists|e: Seq<(Seq<char>, Seq<char>)>| #[trigger] lists(&STRING, e, m)
    &&& forall|k: Seq<char>| #[trigger]
        m.contains_key(k) ==> CATALOG_STRING.fits(k) && CATALOG_STRING.fits(m[k])
}

/// Reading a catalog record gives back the catalog that was written.
pub proof fn law_catalog_round_trip(m: Names)
    requires
        catalog_fits(m),
    ensures
        catalog_of(catalog_bytes(m)) == Some(m),
{
    broadcast use group_key_order;

    let e = listing(m);
    let f = flat(e);
    let p = packed(m.len());
    let body = enc_all(&CATALOG_STRING, f);
    let s = catalog_bytes(m);
    crate::btree::range::lemma_lists_len(&STRING, e, m);
    lemma_pow256_values();
    law_be_round_trip(0x4D44_4243, 4);
    law_be_round_trip(1, 4);
    let head = catalog_head();
    assert(head.len() == 9);
    assert(s.take(4) =~= be_bytes(0x4D44_4243, 4));
    assert(s.skip(4).take(4) =~= be_bytes(1, 4));
    assert(s[8] == 0);
    assert(s.skip(9) =~= p + body);
    law_canonical_round_trip(m.len() as u64, body);
    crate::io::lemma_packed_len(m.len());
    assert(s.skip(9).skip(p.len() as int) =~= body);
    assert(all_fit(&CATALOG_STRING, f)) by {
        assert forall|i: int| 0 <= i < f.len() implies CATALOG_STRING.fits(#[trigger] f[i]) by {
            assert(m.contains_key(e[i / 2].0));
        }
    }
    law_group_round_trip(&CATALOG_STRING, f, Seq::empty());
    assert(body + Seq::<u8>::empty() =~= body);
    assert(paired(f) =~= e);
    assert(keys_differ(e)) by {
        assert forall|i: int, j: int| #![trigger e[i], e[j]] 0 <= i < j < e.len() implies e[i].0
            != e[j].0 by {
            assert(STRING.lt(e[i].0, e[j].0));
        }
    }
    assert forall|k: Seq<char>| entries_map(e).contains_key(k) == m.contains_key(k) && (
    m.contains_key(k) ==> entries_map(e)[k] == m[k]) by {
        if entries_map(e).contains_key(k) {
            let i = choose|i: int| 0 <= i < e.len() && (#[trigger] e[i]).0 == k;
            assert(m.contains_key(e[i].0));
        }
        if m.contains_key(k) {
            let i = choose|i: int| 0 <= i < e.len() && (#[trigger] e[i]).0 == k;
            assert(entries_map(e).contains_key(k));
        }
    }
    assert(entries_map(e) =~= m);
}

/// The catalog codec.
#[derive(Debug, Clone, Copy)]
pub struct CatalogSer;

/// The catalog codec.
pub const CATALOG_SER: CatalogSer = CatalogSer;

impl Default for CatalogSer {
    fn default() -> (r: Self)
        ensures
            r == CatalogSer,
    {
        CatalogSer
    }
}

impl CatalogSer {
    /// Writes a catalog.
    pub fn serialize(&self, out: &mut DataOutput2, catalog: &NameCatalog)
        requires
            catalog.wf(),
        ensures
            final(out)@ == old(out)@ + catalog_bytes(catalog@),
    {
        let ghost e = catalog.entries();
        let ghost f = flat(e);
        proof {
            catalog.lemma_lists();
            law_listing_is_unique(&STRING, e, listing(catalog@), catalog@);
            assert(0x4D44_4243i32 as u32 == 0x4D44_4243u32) by (bit_vector);
            assert(1i32 as u32 == 1u32) by (bit_vector);
        }
        out.write_i32(CATALOG_MAGIC);
        out.write_i32(CATALOG_VERSION);
        out.write_u8(REPR_INLINE);
        out.pack_long(catalog.len() as u64);
        let ghost start = old(out)@ + (catalog_head() + packed(catalog@.len()));
        assert(out@ =~= start);
        let n: usize = catalog.len();
        let mut i: usize = 0;
        assert(f.take(0) =~= Seq::empty());
        while i < n
            invariant
                i <= n,
                n == e.len(),
                catalog.wf(),
                e == catalog.entries(),
                f == flat(e),
                out@ == start + enc_all(&CATALOG_STRING, f.take(2 * i)),
            decreases n - i,
        {
            let k = catalog.key_at(i);
            let v = catalog.value_at(i);
            let _k: usize = k.as_str().as_bytes().len();
            let _v: usize = v.as_str().as_bytes().len();
            CATALOG_STRING.serialize(out, k);
            CATALOG_STRING.serialize(out, v);
            proof {
                let t = f.take(2 * i + 2);
                assert(t.drop_last() =~= f.take(2 * i + 1));
                assert(t.drop_last().drop_last() =~= f.take(2 * i));
                assert((2 * i) / 2 == i && (2 * i + 1) / 2 == i);
                assert(t.drop_last().last() == k@);
                assert(t.last() == v@);
                reveal_with_fuel(enc_all, 3);
                assert(out@ =~= start + enc_all(&CATALOG_STRING, t));
            }
            i = i + 1;
        }
        assert(f.take(2 * i) =~= f);
        assert(out@ =~= old(out)@ + catalog_bytes(catalog@));
    }

    /// Reads the catalog in the next `size` bytes.
    pub fn deserialize(&self, input: &mut SliceInput<'_>, size: Option<usize>) -> (r: Result<
        NameCatalog,
    >)
        ensures
            ({
                let s = rest(old(input).bytes(), old(input).cursor());
                &&& r matches Ok(c) ==> c.wf()
                &&& size is None ==> (r matches Err(e) && e is DataCorruption)
                &&& size matches Some(n) ==> {
                    if n <= s.len() && catalog_of(s.take(n as int)) is Some {
                        &&& r matches Ok(c) && catalog_of(s.take(n as int)) == Some(c@)
                        &&& final(input).cursor() == old(input).cursor() + n
                    } else {
                        r matches Err(e) && e is DataCorruption
                    }
                }
            }),
    {
        match size {
            None => Err(DbError::corrupt("catalog record needs a known size")),
            Some(n) => match input.read_vec(n) {
                Ok(b) => self.decode(b.as_slice()),
                Err(e) => Err(e),
            },
        }
    }

    /// Reads the catalog in a record.
    #[verifier::spinoff_prover]
    #[verifier::rlimit(60)]
    pub fn decode(&self, bytes: &[u8]) -> (r: Result<NameCatalog>)
        ensures
            match catalog_of(bytes@) {
                Some(m) => r matches Ok(c) && c.wf() && c@ == m,
                None => r matches Err(e) && e is DataCorruption,
            },
    {
        if bytes.len() < MIN_CATALOG_LEN {
            return Err(DbError::corrupt("catalog record shorter than 10 bytes"));
        }
        let ghost s = bytes@;
        let mut input = SliceInput::new(bytes);
        assert(rest(input.bytes(), input.cursor()) =~= s);
        let magic: i32 = match input.read_i32() {
            Ok(x) => x,
            Err(e) => {
                return Err(e);
            },
        };
        proof {
            crate::io::lemma_be_value_bound(s.take(4));
            crate::io::lemma_be_value_bound(s.skip(4).take(4));
            lemma_pow256_values();
            let w = crate::io::be_value(s.take(4)) as u32;
            assert(w as i32 == 0x4D44_4243i32 <==> w == 0x4D44_4243u32) by (bit_vector);
            assert(rest(input.bytes(), input.cursor()) =~= s.skip(4));
        }
        if magic != CATALOG_MAGIC {
            return Err(DbError::corrupt("catalog magic mismatch"));
        }
        let version: i32 = match input.read_i32() {
            Ok(x) => x,
            Err(e) => {
                return Err(e);
            },
        };
        proof {
            let w = crate::io::be_value(s.skip(4).take(4)) as u32;
            assert(w as i32 == 1i32 <==> w == 1u32) by (bit_vector);
        }
        if version != CATALOG_VERSION {
            return Err(DbError::corrupt("unsupported catalog version"));
        }
        let repr: u8 = match input.read_u8() {
            Ok(x) => x,
            Err(e) => {
                return Err(e);
            },
        };
        if repr != REPR_INLINE {
            return Err(DbError::corrupt("unsupported catalog representation"));
        }
        proof {
            assert(rest(input.bytes(), input.cursor()) =~= s.skip(9));
            lemma_varint_len_bound(s.skip(9), 10);
        }
        let count: u64 = match input.unpack_canonical() {
            Ok(x) => x,
            Err(e) => {
                return Err(e);
            },
        };
        if count > MAX_CATALOG_ENTRIES {
            return Err(DbError::corrupt("catalog entry count exceeds maximum"));
        }
        proof {
            let n = canonical(s.skip(9)).unwrap().1;
            assert(rest(input.bytes(), input.cursor()) =~= s.skip(9).skip(n as int));
            lemma_dec_all_within(&CATALOG_STRING, s.skip(9).skip(n as int), 2 * count as nat);
        }
        let strings = match CATALOG_STRING.deserialize_group(&mut input, 2 * count as usize) {
            Ok(x) => x,
            Err(e) => {
                return Err(e);
            },
        };
        if input.pos() != bytes.len() {
            return Err(DbError::corrupt("catalog has trailing bytes"));
        }
        self.collect(strings)
    }

    /// The catalog of keys and values in turn; no key may occur twice.
    fn collect(&self, strings: Vec<String>) -> (r: Result<NameCatalog>)
        requires
            strings@.len() % 2 == 0,
        ensures
            ({
                let e = paired(models(strings@));
                if keys_differ(e) {
                    r matches Ok(c) && c.wf() && c@ == entries_map(e)
                } else {
                    r matches Err(err) && err is DataCorruption
                }
            }),
    {
        let ghost f = models(strings@);
        let ghost e = paired(f);
        let mut catalog = NameCatalog::new();
        let total: usize = strings.len();
        let n: usize = total / 2;
        let mut i: usize = 0;
        assert(entries_map(e.take(0)) =~= Names::empty());
        while i < n
            invariant
                i <= n,
                total == strings@.len(),
                n == total / 2,
                total % 2 == 0,
                f == models(strings@),
                e == paired(f),
                catalog.wf(),
                keys_differ(e.take(i as int)),
                catalog@ == entries_map(e.take(i as int)),
            decreases n - i,
        {
            let k = strings[2 * i].clone();
            let v = strings[2 * i + 1].clone();
            let ghost before = catalog@;
            let ghost t = e.take(i as int);
            let ghost t2 = e.take(i + 1);
            proof {
                assert(e[i as int] == (k@, v@));
                assert(t2 =~= t.push((k@, v@)));
            }
            match catalog.insert(k, v) {
                Some(_) => {
                    proof {
                        let j = choose|j: int| 0 <= j < t.len() && (#[trigger] t[j]).0 == k@;
                        assert(e[j].0 == e[i as int].0);
                    }
                    return Err(DbError::corrupt("duplicate key in catalog"));
                },
                None => {},
            }
            proof {
                assert forall|x: int, y: int| #![trigger t2[x], t2[y]] 0 <= x < y < t2.len()
                    implies t2[x].0 != t2[y].0 by {
                    if y == i {
                        assert(t[x] == t2[x]);
                        if t2[x].0 == k@ {
                            assert(t[x].0 == k@);
                            assert(before.contains_key(k@));
                        }
                    } else {
                        assert(t[x].0 != t[y].0);
                    }
                }
                assert forall|x: Seq<char>| #[trigger] same_at(catalog@, entries_map(t2), x) by {
                    assert(t2[i as int] == (k@, v@));
                    if before.contains_key(x) {
                        let j = choose|j: int| 0 <= j < t.len() && (#[trigger] t[j]).0 == x;
                        assert(t2[j] == t[j]);
                    }
                    if entries_map(t2).contains_key(x) {
                        let j = choose|j: int| 0 <= j < t2.len() && (#[trigger] t2[j]).0 == x;
                        if j < i {
                            assert(t[j] == t2[j]);
                            let y = choose|y: int| 0 <= y < t.len() && (#[trigger] t[y]).0 == x;
                            assert(t2[y] == t[y]);
                            if y < j {
                                assert(t2[y].0 != t2[j].0);
                            } else if j < y {
                                assert(t2[j].0 != t2[y].0);
                            }
                        } else {
                            if before.contains_key(x) {
                                let y = choose|y: int| 0 <= y < t.len() && (#[trigger] t[y]).0 == x;
                                assert(t2[y].0 != t2[j].0);
                            }
                        }
                    }
                }
                lemma_same_map(catalog@, entries_map(t2));
            }
            i = i + 1;
        }
        assert(e.take(n as int) =~= e);
        Ok(catalog)
    }
}

/// A catalog record starts with the letters `MDBC`, the version one in four bytes and a
/// zero. The packed number of entries follows, and then the entries in ascending order of
/// their keys, each key before its value, and each string behind its packed length.
pub proof fn law_catalog_layout(m: Names, e: Seq<(Seq<char>, Seq<char>)>) -> (row: Seq<Seq<char>>)
    requires
        lists(&STRING, e, m),
        m.dom().finite(),
    ensures
        row.len() == 2 * e.len(),
        forall|i: int|
            0 <= i < e.len() ==> row[2 * i] == (#[trigger] e[i]).0 && row[2 * i + 1] == e[i].1,
        catalog_bytes(m) == seq![0x4Du8, 0x44, 0x42, 0x43, 0, 0, 0, 1, 0] + packed(e.len()) + enc_all(
            &CATALOG_STRING,
            row,
        ),
        forall|s: Seq<char>| #[trigger]
            CATALOG_STRING.enc(s) == packed(encode_utf8(s).len()) + encode_utf8(s),
{
    let l = listing(m);
    law_listing_is_unique(&STRING, e, l, m);
    crate::btree::range::lemma_lists_len(&STRING, e, m);
    lemma_pow256_values();
    reveal_with_fuel(be_bytes, 5);
    assert(catalog_head() =~= seq![0x4Du8, 0x44, 0x42, 0x43, 0, 0, 0, 1, 0]);
    flat(e)
}

} // verus!
