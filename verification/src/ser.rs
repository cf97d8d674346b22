//! Element serializers, and the formats that lay out groups of elements.

use vstd::prelude::*;
use vstd::utf8::{decode_utf8, encode_utf8, valid_utf8};
use crate::error::{DbError, Result};
use crate::io::{
    be_bytes, law_be_round_trip, law_pack_round_trip, lemma_packed_len, lemma_pow256_values,
    lemma_varint_len_bound, packed, reads_be, rest, varint, DataInput2, DataOutput2, SliceInput,
};

pub use self::IntSer as IntFormat;
pub use self::LongFormat as LongSer;
pub use self::StringSer as StringGroupFormat;

verus! {

/// A codec for one element type.
pub trait Serializer: Sized {
    type Item: View;

    /// `v` can be written.
    spec fn fits(&self, v: <Self::Item as View>::V) -> bool;

    /// The bytes of `v`.
    spec fn enc(&self, v: <Self::Item as View>::V) -> Seq<u8>;

    /// The element at the start of `s` and the number of bytes that it takes.
    spec fn dec(&self, s: Seq<u8>) -> Option<(<Self::Item as View>::V, nat)>;

    /// Reading gives back what was written, whatever follows it.
    proof fn round_trip(&self, v: <Self::Item as View>::V, tail: Seq<u8>)
        requires
            self.fits(v),
        ensures
            self.dec(self.enc(v) + tail) == Some((v, self.enc(v).len())),
    ;

    /// Reading stays within the input.
    proof fn dec_within(&self, s: Seq<u8>)
        ensures
            self.dec(s) matches Some((v, n)) ==> n <= s.len() && self.fits(v),
    ;

    /// Whether an element can be written.
    fn can_write(&self, value: &Self::Item) -> (r: bool)
        ensures
            r == self.fits(value@),
    ;

    fn serialize(&self, out: &mut DataOutput2, value: &Self::Item)
        requires
            self.fits(value@),
        ensures
            final(out)@ == old(out)@ + self.enc(value@),
    ;

    fn deserialize(&self, input: &mut SliceInput<'_>) -> (r: Result<Self::Item>)
        ensures
            final(input).bytes() == old(input).bytes(),
            match self.dec(rest(old(input).bytes(), old(input).cursor())) {
                Some((v, n)) => (r matches Ok(x) && x@ == v) && final(input).cursor() == old(
                    input,
                ).cursor() + n,
                None => r matches Err(e) && e is DataCorruption,
            },
    ;

    /// Whether two elements are equal.
    fn equals(&self, a: &Self::Item, b: &Self::Item) -> (r: bool)
        ensures
            r == (a@ == b@),
    ;

    /// A copy of an element.
    fn dup(&self, a: &Self::Item) -> (r: Self::Item)
        ensures
            r@ == a@,
    ;

    /// The width of every element, where all have the same.
    spec fn width(&self) -> Option<usize>;

    proof fn width_is_exact(&self, v: <Self::Item as View>::V)
        requires
            self.fits(v),
        ensures
            self.width() matches Some(n) ==> self.enc(v).len() == n,
    ;

    fn fixed_size(&self) -> (r: Option<usize>)
        ensures
            r == self.width(),
    ;
}

/// The model of an element of `S`.
pub type Model<S> = <<S as Serializer>::Item as View>::V;

/// The models of some elements of `S`.
pub type Models<S> = Seq<Model<S>>;

/// The models of a sequence of elements.
pub open spec fn models<T: View>(s: Seq<T>) -> Seq<T::V> {
    Seq::new(s.len(), |i: int| s[i]@)
}

/// Every element of `g` can be written.
pub open spec fn all_fit<S: Serializer>(f: &S, g: Seq<Model<S>>) -> bool {
    forall|i: int| 0 <= i < g.len() ==> f.fits(#[trigger] g[i])
}

/// The elements of `g` one after the other.
pub open spec fn enc_all<S: Serializer>(f: &S, g: Seq<Model<S>>) -> Seq<u8>
    decreases g.len(),
{
    if g.len() == 0 {
        Seq::empty()
    } else {
        enc_all(f, g.drop_last()) + f.enc(g.last())
    }
}

/// `n` elements one after the other at the start of `s`, and the bytes they take.
pub open spec fn dec_all<S: Serializer>(f: &S, s: Seq<u8>, n: nat) -> Option<(Seq<Model<S>>, nat)>
    decreases n,
{
    if n == 0 {
        Some((Seq::empty(), 0))
    } else {
        match dec_all(f, s, (n - 1) as nat) {
            Some((g, k)) => match f.dec(s.skip(k as int)) {
                Some((v, m)) => Some((g.push(v), k + m)),
                None => None,
            },
            None => None,
        }
    }
}

pub proof fn lemma_dec_all_within<S: Serializer>(f: &S, s: Seq<u8>, n: nat)
    ensures
        dec_all(f, s, n) matches Some((g, k)) ==> k <= s.len() && g.len() == n && all_fit(f, g),
    decreases n,
{
    if n > 0 {
        lemma_dec_all_within(f, s, (n - 1) as nat);
        if let Some((g, k)) = dec_all(f, s, (n - 1) as nat) {
            f.dec_within(s.skip(k as int));
        }
    }
}

/// When reading fails after `n` elements it fails after any larger number.
pub proof fn lemma_dec_all_none<S: Serializer>(f: &S, s: Seq<u8>, n: nat, m: nat)
    requires
        n <= m,
        dec_all(f, s, n) is None,
    ensures
        dec_all(f, s, m) is None,
    decreases m,
{
    if n < m {
        lemma_dec_all_none(f, s, n, (m - 1) as nat);
    }
}

/// Reading a group gives back the group that was written, whatever follows it.
pub proof fn law_group_round_trip<S: Serializer>(f: &S, g: Seq<Model<S>>, tail: Seq<u8>)
    requires
        all_fit(f, g),
    ensures
        dec_all(f, enc_all(f, g) + tail, g.len()) == Some((g, enc_all(f, g).len())),
    decreases g.len(),
{
    if g.len() > 0 {
        let head = g.drop_last();
        let e = f.enc(g.last());
        law_group_round_trip(f, head, e + tail);
        assert(enc_all(f, g) + tail =~= enc_all(f, head) + (e + tail));
        let s = enc_all(f, g) + tail;
        assert(s.skip(enc_all(f, head).len() as int) =~= e + tail);
        f.round_trip(g.last(), tail);
        assert(head.push(g.last()) =~= g);
    } else {
        assert(g =~= Seq::empty());
    }
}

/// A format for groups of elements: the elements one after the other.
pub trait GroupFormat: Serializer {
    fn serialize_group(&self, out: &mut DataOutput2, group: &Vec<Self::Item>)
        requires
            all_fit(self, models(group@)),
        ensures
            final(out)@ == old(out)@ + enc_all(self, models(group@)),
    {
        let n: usize = group.len();
        let mut i: usize = 0;
        assert(models(group@).take(0) =~= Seq::empty());
        while i < n
            invariant
                i <= n,
                n == group@.len(),
                all_fit(self, models(group@)),
                out@ == old(out)@ + enc_all(self, models(group@).take(i as int)),
            decreases n - i,
        {
            assert(self.fits(models(group@)[i as int]));
            self.serialize(out, &group[i]);
            proof {
                let t = models(group@).take(i + 1);
                assert(t.drop_last() =~= models(group@).take(i as int));
                assert(t.last() == group@[i as int]@);
            }
            i = i + 1;
        }
        assert(models(group@).take(n as int) =~= models(group@));
    }

    fn deserialize_group(&self, input: &mut SliceInput<'_>, count: usize) -> (r: Result<
        Vec<Self::Item>,
    >)
        ensures
            final(input).bytes() == old(input).bytes(),
            match dec_all(self, rest(old(input).bytes(), old(input).cursor()), count as nat) {
                Some((g, n)) => (r matches Ok(v) && models(v@) == g)
                    && final(input).cursor() == old(
                    input,
                ).cursor() + n,
                None => r matches Err(e) && e is DataCorruption,
            },
    {
        let mut v: Vec<Self::Item> = Vec::new();
        let ghost s = rest(input.bytes(), input.cursor());
        let mut i: usize = 0;
        assert(models(v@) =~= Seq::empty());
        while i < count
            invariant
                i <= count,
                v@.len() == i,
                s == rest(old(input).bytes(), old(input).cursor()),
                input.bytes() == old(input).bytes(),
                dec_all(self, s, i as nat) matches Some((g, n)) && g == models(v@) && n <= s.len()
                    && input.cursor() == old(input).cursor() + n,
            decreases count - i,
        {
            let ghost k = dec_all(self, s, i as nat).unwrap().1;
            proof {
                assert(rest(input.bytes(), input.cursor()) =~= s.skip(k as int));
                self.dec_within(s.skip(k as int));
            }
            let ghost before = v@;
            match self.deserialize(input) {
                Ok(x) => {
                    v.push(x);
                    assert(models(v@) =~= models(before).push(x@));
                },
                Err(e) => {
                    proof {
                        lemma_dec_all_none(self, s, (i + 1) as nat, count as nat);
                    }
                    return Err(e);
                },
            }
            i = i + 1;
        }
        Ok(v)
    }
}

/// Group formats over any element codec.
impl<S: Serializer> GroupFormat for S {

}

/// An element codec whose elements are totally ordered: what a map key needs.
pub trait KeyFormat: Serializer {
    /// The order.
    spec fn lt(&self, a: Model<Self>, b: Model<Self>) -> bool;

    proof fn lt_irreflexive(&self, a: Model<Self>)
        ensures
            !self.lt(a, a),
    ;

    proof fn lt_transitive(&self, a: Model<Self>, b: Model<Self>, c: Model<Self>)
        requires
            self.lt(a, b),
            self.lt(b, c),
        ensures
            self.lt(a, c),
    ;

    proof fn lt_total(&self, a: Model<Self>, b: Model<Self>)
        ensures
            self.lt(a, b) || a == b || self.lt(b, a),
    ;

    /// A key takes at least one byte.
    proof fn enc_nonempty(&self, a: Model<Self>)
        requires
            self.fits(a),
        ensures
            self.enc(a).len() > 0,
    ;

    /// The order is the natural one of the elements.
    spec fn natural(&self) -> bool;

    fn natural_order(&self) -> (r: bool)
        ensures
            r == self.natural(),
    ;

    /// Whether `a` comes before `b`.
    fn less(&self, a: &Self::Item, b: &Self::Item) -> (r: bool)
        ensures
            r == self.lt(a@, b@),
    ;
}

pub broadcast proof fn key_irreflexive<F: KeyFormat>(f: &F, a: Model<F>)
    ensures
        !(#[trigger] f.lt(a, a)),
{
    f.lt_irreflexive(a);
}

pub broadcast proof fn key_transitive<F: KeyFormat>(f: &F, a: Model<F>, b: Model<F>, c: Model<F>)
    ensures
        #![trigger f.lt(a, b), f.lt(b, c)]
        f.lt(a, b) && f.lt(b, c) ==> f.lt(a, c),
{
    if f.lt(a, b) && f.lt(b, c) {
        f.lt_transitive(a, b, c);
    }
}

pub broadcast proof fn key_total<F: KeyFormat>(f: &F, a: Model<F>, b: Model<F>)
    ensures
        #[trigger] f.lt(a, b) || a == b || f.lt(b, a),
{
    f.lt_total(a, b);
}

pub broadcast group group_key_order {
    key_irreflexive,
    key_transitive,
    key_total,
}

/// `s` is strictly ascending.
pub open spec fn sorted<F: KeyFormat>(f: &F, s: Seq<Model<F>>) -> bool {
    forall|i: int, j: int| #![trigger s[i], s[j]] 0 <= i < j < s.len() ==> f.lt(s[i], s[j])
}

/// Every one of the first `n` keys comes before `k`, and `k` before all others.
pub open spec fn splits_at<F: KeyFormat>(f: &F, s: Seq<Model<F>>, k: Model<F>, n: int) -> bool {
    &&& 0 <= n <= s.len()
    &&& forall|i: int| 0 <= i < n ==> f.lt(#[trigger] s[i], k)
    &&& forall|i: int| n <= i < s.len() ==> f.lt(k, #[trigger] s[i])
}

/// Looks `key` up in ascending keys: its position, or else the position at which
/// it would be inserted.
pub fn search<F: KeyFormat>(f: &F, keys: &Vec<F::Item>, key: &F::Item) -> (r: std::result::Result<
    usize,
    usize,
>)
    ensures
        match r {
            Ok(p) => p < keys@.len() && models(keys@)[p as int] == key@,
            Err(ip) => ip <= keys@.len() && (sorted(f, models(keys@)) ==> splits_at(
                f,
                models(keys@),
                key@,
                ip as int,
            )),
        },
{
    broadcast use group_key_order;

    let mut lo: usize = 0;
    let mut hi: usize = keys.len();
    let ghost m = models(keys@);
    while lo < hi
        invariant
            lo <= hi <= keys@.len(),
            m == models(keys@),
            sorted(f, m) ==> forall|i: int| 0 <= i < lo ==> f.lt(#[trigger] m[i], key@),
            sorted(f, m) ==> forall|i: int| hi <= i < m.len() ==> f.lt(key@, #[trigger] m[i]),
        decreases hi - lo,
    {
        broadcast use group_key_order;

        let mid: usize = lo + (hi - lo) / 2;
        assert(m[mid as int] == keys@[mid as int]@);
        if f.less(&keys[mid], key) {
            lo = mid + 1;
        } else if f.less(key, &keys[mid]) {
            hi = mid;
        } else {
            return Ok(mid);
        }
    }
    Err(lo)
}

// ---------------------------------------------------------------- integers

/// 64-bit integers, eight bytes each.
#[derive(Clone, Copy, Debug)]
pub struct LongFormat;

/// The eight-byte integer codec.
pub const LONG: LongFormat = LongFormat;

/// The signed number with the bit pattern `v`.
pub open spec fn signed64(v: u64) -> i64 {
    v as i64
}

pub proof fn lemma_signed64(v: i64)
    ensures
        signed64(v as u64) == v,
{
    assert((v as u64) as i64 == v) by (bit_vector);
}

impl Serializer for LongFormat {
    type Item = i64;

    open spec fn fits(&self, v: i64) -> bool {
        true
    }

    open spec fn enc(&self, v: i64) -> Seq<u8> {
        be_bytes((v as u64) as nat, 8)
    }

    open spec fn dec(&self, s: Seq<u8>) -> Option<(i64, nat)> {
        match reads_be(s, 8) {
            Some(v) => Some((signed64(v as u64), 8)),
            None => None,
        }
    }

    proof fn round_trip(&self, v: i64, tail: Seq<u8>) {
        lemma_pow256_values();
        law_be_round_trip((v as u64) as nat, 8);
        let s = self.enc(v) + tail;
        assert(s.take(8) =~= self.enc(v));
        lemma_signed64(v);
    }

    proof fn dec_within(&self, s: Seq<u8>) {
    }

    fn can_write(&self, value: &i64) -> bool {
        true
    }

    fn serialize(&self, out: &mut DataOutput2, value: &i64) {
        assert(value@ == *value);
        out.write_i64(*value);
    }

    fn deserialize(&self, input: &mut SliceInput<'_>) -> Result<i64> {
        let r = input.read_i64();
        assert(r matches Ok(x) ==> x@ == x);
        r
    }

    fn equals(&self, a: &i64, b: &i64) -> bool {
        assert(a@ == *a && b@ == *b);
        *a == *b
    }

    fn dup(&self, a: &i64) -> i64 {
        *a
    }

    open spec fn width(&self) -> Option<usize> {
        Some(8)
    }

    proof fn width_is_exact(&self, v: i64) {
        crate::io::lemma_be_bytes_len((v as u64) as nat, 8);
    }

    fn fixed_size(&self) -> Option<usize> {
        Some(8)
    }
}

impl KeyFormat for LongFormat {
    open spec fn lt(&self, a: i64, b: i64) -> bool {
        a < b
    }

    proof fn lt_irreflexive(&self, a: i64) {
    }

    proof fn lt_transitive(&self, a: i64, b: i64, c: i64) {
    }

    proof fn enc_nonempty(&self, a: i64) {
        crate::io::lemma_be_bytes_len((a as u64) as nat, 8);
    }

    proof fn lt_total(&self, a: i64, b: i64) {
    }

    open spec fn natural(&self) -> bool {
        true
    }

    fn natural_order(&self) -> bool {
        true
    }

    fn less(&self, a: &i64, b: &i64) -> bool {
        assert(a@ == *a && b@ == *b);
        *a < *b
    }
}

/// 32-bit integers, four bytes each.
#[derive(Clone, Copy, Debug)]
pub struct IntSer;

/// The four-byte integer codec.
pub const INT: IntSer = IntSer;

impl Serializer for IntSer {
    type Item = i32;

    open spec fn fits(&self, v: i32) -> bool {
        true
    }

    open spec fn enc(&self, v: i32) -> Seq<u8> {
        be_bytes((v as u32) as nat, 4)
    }

    open spec fn dec(&self, s: Seq<u8>) -> Option<(i32, nat)> {
        match reads_be(s, 4) {
            Some(v) => Some(((v as u32) as i32, 4)),
            None => None,
        }
    }

    proof fn round_trip(&self, v: i32, tail: Seq<u8>) {
        lemma_pow256_values();
        law_be_round_trip((v as u32) as nat, 4);
        let s = self.enc(v) + tail;
        assert(s.take(4) =~= self.enc(v));
        assert((v as u32) as i32 == v) by (bit_vector);
    }

    proof fn dec_within(&self, s: Seq<u8>) {
    }

    fn can_write(&self, value: &i32) -> bool {
        true
    }

    fn serialize(&self, out: &mut DataOutput2, value: &i32) {
        assert(value@ == *value);
        out.write_i32(*value);
    }

    fn deserialize(&self, input: &mut SliceInput<'_>) -> Result<i32> {
        let r = input.read_i32();
        assert(r matches Ok(x) ==> x@ == x);
        r
    }

    fn equals(&self, a: &i32, b: &i32) -> bool {
        assert(a@ == *a && b@ == *b);
        *a == *b
    }

    fn dup(&self, a: &i32) -> i32 {
        *a
    }

    open spec fn width(&self) -> Option<usize> {
        Some(4)
    }

    proof fn width_is_exact(&self, v: i32) {
        crate::io::lemma_be_bytes_len((v as u32) as nat, 4);
    }

    fn fixed_size(&self) -> Option<usize> {
        Some(4)
    }
}

/// Unsigned 64-bit numbers in packed form.
#[derive(Clone, Copy, Debug)]
pub struct PackedSer;

/// The packed-long codec.
pub const LONG_PACKED: PackedSer = PackedSer;

impl Serializer for PackedSer {
    type Item = u64;

    open spec fn fits(&self, v: u64) -> bool {
        true
    }

    open spec fn enc(&self, v: u64) -> Seq<u8> {
        packed(v as nat)
    }

    open spec fn dec(&self, s: Seq<u8>) -> Option<(u64, nat)> {
        varint(s, 10)
    }

    proof fn round_trip(&self, v: u64, tail: Seq<u8>) {
        lemma_packed_len(v as nat);
        law_pack_round_trip(v as nat, tail, 10);
    }

    proof fn dec_within(&self, s: Seq<u8>) {
        lemma_varint_len_bound(s, 10);
    }

    fn can_write(&self, value: &u64) -> bool {
        true
    }

    fn serialize(&self, out: &mut DataOutput2, value: &u64) {
        assert(value@ == *value);
        out.pack_long(*value);
    }

    fn deserialize(&self, input: &mut SliceInput<'_>) -> Result<u64> {
        input.unpack_long()
    }

    fn equals(&self, a: &u64, b: &u64) -> bool {
        assert(a@ == *a && b@ == *b);
        *a == *b
    }

    fn dup(&self, a: &u64) -> u64 {
        *a
    }

    open spec fn width(&self) -> Option<usize> {
        None
    }

    proof fn width_is_exact(&self, v: u64) {
    }

    fn fixed_size(&self) -> Option<usize> {
        None
    }
}

/// Booleans, one byte each: zero or one.
#[derive(Clone, Copy, Debug)]
pub struct BooleanSer;

/// The boolean codec.
pub const BOOLEAN: BooleanSer = BooleanSer;

impl Serializer for BooleanSer {
    type Item = bool;

    open spec fn fits(&self, v: bool) -> bool {
        true
    }

    open spec fn enc(&self, v: bool) -> Seq<u8> {
        if v {
            seq![1u8]
        } else {
            seq![0u8]
        }
    }

    open spec fn dec(&self, s: Seq<u8>) -> Option<(bool, nat)> {
        if s.len() > 0 {
            Some((s[0] != 0, 1))
        } else {
            None
        }
    }

    proof fn round_trip(&self, v: bool, tail: Seq<u8>) {
    }

    proof fn dec_within(&self, s: Seq<u8>) {
    }

    fn can_write(&self, value: &bool) -> bool {
        true
    }

    fn serialize(&self, out: &mut DataOutput2, value: &bool) {
        assert(value@ == *value);
        out.write_u8(if *value { 1 } else { 0 });
        assert(out@ =~= old(out)@ + self.enc(*value));
    }

    fn deserialize(&self, input: &mut SliceInput<'_>) -> Result<bool> {
        match input.read_u8() {
            Ok(b) => Ok(b != 0),
            Err(e) => Err(e),
        }
    }

    fn equals(&self, a: &bool, b: &bool) -> bool {
        assert(a@ == *a && b@ == *b);
        *a == *b
    }

    fn dup(&self, a: &bool) -> bool {
        *a
    }

    open spec fn width(&self) -> Option<usize> {
        Some(1)
    }

    proof fn width_is_exact(&self, v: bool) {
    }

    fn fixed_size(&self) -> Option<usize> {
        Some(1)
    }
}

// ---------------------------------------------------------------- byte arrays

/// `a` comes before `b` in the order of unsigned bytes, a prefix first.
pub open spec fn lex_lt(a: Seq<u8>, b: Seq<u8>) -> bool
    decreases a.len(),
{
    if b.len() == 0 {
        false
    } else if a.len() == 0 {
        true
    } else if a[0] != b[0] {
        a[0] < b[0]
    } else {
        lex_lt(a.skip(1), b.skip(1))
    }
}

pub proof fn lemma_lex_irreflexive(a: Seq<u8>)
    ensures
        !lex_lt(a, a),
    decreases a.len(),
{
    if a.len() > 0 {
        lemma_lex_irreflexive(a.skip(1));
    }
}

pub proof fn lemma_lex_transitive(a: Seq<u8>, b: Seq<u8>, c: Seq<u8>)
    requires
        lex_lt(a, b),
        lex_lt(b, c),
    ensures
        lex_lt(a, c),
    decreases a.len(),
{
    if a.len() > 0 && a[0] == b[0] && b[0] == c[0] {
        lemma_lex_transitive(a.skip(1), b.skip(1), c.skip(1));
    }
}

pub proof fn lemma_lex_total(a: Seq<u8>, b: Seq<u8>)
    ensures
        lex_lt(a, b) || a == b || lex_lt(b, a),
    decreases a.len(),
{
    if a.len() > 0 && b.len() > 0 && a[0] == b[0] {
        lemma_lex_total(a.skip(1), b.skip(1));
        if a.skip(1) == b.skip(1) {
            assert(a =~= seq![a[0]] + a.skip(1));
            assert(b =~= seq![b[0]] + b.skip(1));
        }
    } else if a.len() == 0 && b.len() == 0 {
        assert(a =~= b);
    }
}

/// Whether `a` comes before `b` in the order of unsigned bytes.
pub fn bytes_less(a: &[u8], b: &[u8]) -> (r: bool)
    ensures
        r == lex_lt(a@, b@),
{
    let mut i: usize = 0;
    assert(a@.skip(0) =~= a@);
    assert(b@.skip(0) =~= b@);
    while i < a.len() && i < b.len()
        invariant
            i <= a@.len(),
            i <= b@.len(),
            lex_lt(a@, b@) == lex_lt(a@.skip(i as int), b@.skip(i as int)),
        decreases a@.len() - i,
    {
        if a[i] != b[i] {
            return a[i] < b[i];
        }
        assert(a@.skip(i as int).skip(1) =~= a@.skip(i + 1));
        assert(b@.skip(i as int).skip(1) =~= b@.skip(i + 1));
        i = i + 1;
    }
    i < b.len()
}

/// Whether two byte slices hold the same bytes.
pub fn bytes_equal(a: &[u8], b: &[u8]) -> (r: bool)
    ensures
        r == (a@ == b@),
{
    if a.len() != b.len() {
        return false;
    }
    let mut i: usize = 0;
    while i < a.len()
        invariant
            i <= a@.len(),
            a@.len() == b@.len(),
            forall|j: int| 0 <= j < i ==> a@[j] == b@[j],
        decreases a@.len() - i,
    {
        if a[i] != b[i] {
            return false;
        }
        i = i + 1;
    }
    assert(a@ =~= b@);
    true
}

/// A length-prefixed block of bytes.
pub open spec fn enc_block(b: Seq<u8>) -> Seq<u8> {
    packed(b.len()) + b
}

/// The length-prefixed block at the start of `s`.
pub open spec fn dec_block(s: Seq<u8>) -> Option<(Seq<u8>, nat)> {
    match varint(s, 5) {
        Some((v, n)) => {
            let len = (v as u32) as nat;
            if len <= i32::MAX && n + len <= s.len() {
                Some((s.subrange(n as int, (n + len) as int), n + len))
            } else {
                None
            }
        },
        None => None,
    }
}

pub proof fn lemma_block_round_trip(b: Seq<u8>, tail: Seq<u8>)
    requires
        b.len() <= i32::MAX,
    ensures
        dec_block(enc_block(b) + tail) == Some((b, enc_block(b).len())),
{
    lemma_packed_len(b.len());
    law_pack_round_trip(b.len(), b + tail, 5);
    let s = enc_block(b) + tail;
    assert(s =~= packed(b.len()) + (b + tail));
    let n = packed(b.len()).len();
    assert(((b.len() as u64) as u32) as nat == b.len());
    assert(s.subrange(n as int, (n + b.len()) as int) =~= b);
}

pub fn write_block(out: &mut DataOutput2, b: &[u8])
    requires
        b@.len() <= i32::MAX,
    ensures
        final(out)@ == old(out)@ + enc_block(b@),
{
    let n: i32 = b.len() as i32;
    out.pack_int(n);
    out.write_all(b);
    assert(out@ =~= old(out)@ + enc_block(b@));
}

pub fn read_block(input: &mut SliceInput<'_>) -> (r: Result<Vec<u8>>)
    ensures
        final(input).bytes() == old(input).bytes(),
        match dec_block(rest(old(input).bytes(), old(input).cursor())) {
            Some((b, n)) => (r matches Ok(v) && v@ == b) && final(input).cursor() == old(
                input,
            ).cursor() + n,
            None => r matches Err(e) && e is DataCorruption,
        },
{
    let ghost s = rest(input.bytes(), input.cursor());
    proof {
        lemma_varint_len_bound(s, 5);
    }
    match input.unpack_int() {
        Ok(v) => {
            proof {
                let w = varint(s, 5).unwrap().0 as u32;
                assert((w as i32 >= 0) == (w <= 0x7fff_ffff) && (w as i32 >= 0 ==> w as i32 == w))
                    by (bit_vector);
            }
            if v < 0 {
                return Err(DbError::corrupt("negative block length"));
            }
            let ghost n = varint(s, 5).unwrap().1;
            assert(rest(input.bytes(), input.cursor()) =~= s.skip(n as int));
            let r = input.read_vec(v as usize);
            proof {
                if n + v <= s.len() {
                    assert(s.skip(n as int).take(v as int) =~= s.subrange(n as int, n + v));
                }
            }
            r
        },
        Err(e) => Err(e),
    }
}

pub proof fn lemma_dec_block_within(s: Seq<u8>)
    ensures
        dec_block(s) matches Some((b, n)) ==> n <= s.len() && b.len() <= i32::MAX,
{
}

/// Byte arrays, length-prefixed, in the order of unsigned bytes.
#[derive(Clone, Copy, Debug)]
pub struct ByteArrayFormat;

impl Serializer for ByteArrayFormat {
    type Item = Vec<u8>;

    open spec fn fits(&self, v: Seq<u8>) -> bool {
        v.len() <= i32::MAX
    }

    open spec fn enc(&self, v: Seq<u8>) -> Seq<u8> {
        enc_block(v)
    }

    open spec fn dec(&self, s: Seq<u8>) -> Option<(Seq<u8>, nat)> {
        dec_block(s)
    }

    proof fn round_trip(&self, v: Seq<u8>, tail: Seq<u8>) {
        lemma_block_round_trip(v, tail);
    }

    proof fn dec_within(&self, s: Seq<u8>) {
        lemma_dec_block_within(s);
    }

    fn can_write(&self, value: &Vec<u8>) -> bool {
        value.len() <= i32::MAX as usize
    }

    fn serialize(&self, out: &mut DataOutput2, value: &Vec<u8>) {
        write_block(out, value.as_slice());
    }

    fn deserialize(&self, input: &mut SliceInput<'_>) -> Result<Vec<u8>> {
        read_block(input)
    }

    fn equals(&self, a: &Vec<u8>, b: &Vec<u8>) -> bool {
        bytes_equal(a.as_slice(), b.as_slice())
    }

    fn dup(&self, a: &Vec<u8>) -> Vec<u8> {
        let r = a.clone();
        assert(r@ =~= a@);
        r
    }

    open spec fn width(&self) -> Option<usize> {
        None
    }

    proof fn width_is_exact(&self, v: Seq<u8>) {
    }

    fn fixed_size(&self) -> Option<usize> {
        None
    }
}

impl KeyFormat for ByteArrayFormat {
    open spec fn lt(&self, a: Seq<u8>, b: Seq<u8>) -> bool {
        lex_lt(a, b)
    }

    proof fn lt_irreflexive(&self, a: Seq<u8>) {
        lemma_lex_irreflexive(a);
    }

    proof fn lt_transitive(&self, a: Seq<u8>, b: Seq<u8>, c: Seq<u8>) {
        lemma_lex_transitive(a, b, c);
    }

    proof fn enc_nonempty(&self, a: Seq<u8>) {
        lemma_packed_len(a.len());
    }

    proof fn lt_total(&self, a: Seq<u8>, b: Seq<u8>) {
        lemma_lex_total(a, b);
    }

    open spec fn natural(&self) -> bool {
        true
    }

    fn natural_order(&self) -> bool {
        true
    }

    fn less(&self, a: &Vec<u8>, b: &Vec<u8>) -> bool {
        bytes_less(a.as_slice(), b.as_slice())
    }
}

// ---------------------------------------------------------------- strings

/// `String::from_utf8`: the string with these UTF-8 bytes, or `None` where they
/// are not valid UTF-8.
#[verifier::external_body]
pub(crate) fn string_from_utf8(bytes: Vec<u8>) -> (r: Option<String>)
    ensures
        r is Some == valid_utf8(bytes@),
        r is Some ==> encode_utf8(r.unwrap()@) == bytes@,
{
    String::from_utf8(bytes).ok()
}

/// Equal UTF-8 encodings come from equal strings.
pub proof fn lemma_utf8_injective(a: Seq<char>, b: Seq<char>)
    requires
        encode_utf8(a) == encode_utf8(b),
    ensures
        a == b,
{
    vstd::utf8::encode_utf8_decode_utf8(a);
    vstd::utf8::encode_utf8_decode_utf8(b);
}

/// Whether two strings are equal.
pub fn str_equal(a: &str, b: &str) -> (r: bool)
    ensures
        r == (a@ == b@),
{
    let r = bytes_equal(a.as_bytes(), b.as_bytes());
    proof {
        if r {
            lemma_utf8_injective(a@, b@);
        }
    }
    r
}

/// `a` comes before `b` in the order of their UTF-8 bytes.
pub open spec fn str_lt(a: Seq<char>, b: Seq<char>) -> bool {
    lex_lt(encode_utf8(a), encode_utf8(b))
}

/// Whether `a` comes before `b` in the order of their UTF-8 bytes.
pub fn str_less(a: &str, b: &str) -> (r: bool)
    ensures
        r == str_lt(a@, b@),
{
    bytes_less(a.as_bytes(), b.as_bytes())
}

pub proof fn lemma_str_total(a: Seq<char>, b: Seq<char>)
    ensures
        str_lt(a, b) || a == b || str_lt(b, a),
{
    lemma_lex_total(encode_utf8(a), encode_utf8(b));
    if encode_utf8(a) == encode_utf8(b) {
        lemma_utf8_injective(a, b);
    }
}

/// Strings: their UTF-8 bytes, length-prefixed.
#[derive(Clone, Copy, Debug)]
pub struct StringSer;

/// The string codec.
pub const STRING: StringSer = StringSer;

impl Serializer for StringSer {
    type Item = String;

    open spec fn fits(&self, v: Seq<char>) -> bool {
        encode_utf8(v).len() <= i32::MAX
    }

    open spec fn enc(&self, v: Seq<char>) -> Seq<u8> {
        enc_block(encode_utf8(v))
    }

    open spec fn dec(&self, s: Seq<u8>) -> Option<(Seq<char>, nat)> {
        match dec_block(s) {
            Some((b, n)) => if valid_utf8(b) {
                Some((decode_utf8(b), n))
            } else {
                None
            },
            None => None,
        }
    }

    proof fn round_trip(&self, v: Seq<char>, tail: Seq<u8>) {
        lemma_block_round_trip(encode_utf8(v), tail);
        vstd::utf8::encode_utf8_valid_utf8(v);
        vstd::utf8::encode_utf8_decode_utf8(v);
    }

    proof fn dec_within(&self, s: Seq<u8>) {
        lemma_dec_block_within(s);
        if let Some((b, n)) = dec_block(s) {
            if valid_utf8(b) {
                vstd::utf8::decode_utf8_encode_utf8(b);
            }
        }
    }

    fn can_write(&self, value: &String) -> bool {
        value.as_str().as_bytes().len() <= i32::MAX as usize
    }

    fn serialize(&self, out: &mut DataOutput2, value: &String) {
        write_block(out, value.as_str().as_bytes());
    }

    fn deserialize(&self, input: &mut SliceInput<'_>) -> Result<String> {
        match read_block(input) {
            Ok(b) => {
                let ghost bytes = b@;
                match string_from_utf8(b) {
                    Some(s) => {
                        proof {
                            vstd::utf8::encode_utf8_decode_utf8(s@);
                        }
                        Ok(s)
                    },
                    None => Err(DbError::corrupt("invalid utf-8 in a string")),
                }
            },
            Err(e) => Err(e),
        }
    }

    fn equals(&self, a: &String, b: &String) -> bool {
        str_equal(a.as_str(), b.as_str())
    }

    fn dup(&self, a: &String) -> String {
        a.clone()
    }

    open spec fn width(&self) -> Option<usize> {
        None
    }

    proof fn width_is_exact(&self, v: Seq<char>) {
    }

    fn fixed_size(&self) -> Option<usize> {
        None
    }
}

impl KeyFormat for StringSer {
    open spec fn lt(&self, a: Seq<char>, b: Seq<char>) -> bool {
        str_lt(a, b)
    }

    proof fn lt_irreflexive(&self, a: Seq<char>) {
        lemma_lex_irreflexive(encode_utf8(a));
    }

    proof fn lt_transitive(&self, a: Seq<char>, b: Seq<char>, c: Seq<char>) {
        lemma_lex_transitive(encode_utf8(a), encode_utf8(b), encode_utf8(c));
    }

    proof fn enc_nonempty(&self, a: Seq<char>) {
        lemma_packed_len(encode_utf8(a).len());
    }

    proof fn lt_total(&self, a: Seq<char>, b: Seq<char>) {
        lemma_str_total(a, b);
    }

    open spec fn natural(&self) -> bool {
        true
    }

    fn natural_order(&self) -> bool {
        true
    }

    fn less(&self, a: &String, b: &String) -> bool {
        str_less(a.as_str(), b.as_str())
    }
}

// ---------------------------------------------------------------- object arrays

/// A group format over an element codec: the elements one after the other.
#[derive(Clone, Copy, Debug)]
pub struct ObjectArrayFormat<S> {
    elem: S,
}

impl<S: Serializer> ObjectArrayFormat<S> {
    pub closed spec fn element(&self) -> S {
        self.elem
    }

    pub fn new(elem: S) -> (r: Self)
        ensures
            r.element() == elem,
    {
        ObjectArrayFormat { elem }
    }

    pub fn element_serializer(&self) -> (r: &S)
        ensures
            *r == self.element(),
    {
        &self.elem
    }
}

impl<S: Serializer> Serializer for ObjectArrayFormat<S> {
    type Item = S::Item;

    open spec fn fits(&self, v: Model<S>) -> bool {
        self.element().fits(v)
    }

    open spec fn enc(&self, v: Model<S>) -> Seq<u8> {
        self.element().enc(v)
    }

    open spec fn dec(&self, s: Seq<u8>) -> Option<(Model<S>, nat)> {
        self.element().dec(s)
    }

    proof fn round_trip(&self, v: Model<S>, tail: Seq<u8>) {
        self.element().round_trip(v, tail);
    }

    proof fn dec_within(&self, s: Seq<u8>) {
        self.element().dec_within(s);
    }

    fn can_write(&self, value: &S::Item) -> bool {
        self.elem.can_write(value)
    }

    fn serialize(&self, out: &mut DataOutput2, value: &S::Item) {
        self.elem.serialize(out, value);
    }

    fn deserialize(&self, input: &mut SliceInput<'_>) -> Result<S::Item> {
        self.elem.deserialize(input)
    }

    fn equals(&self, a: &S::Item, b: &S::Item) -> bool {
        self.elem.equals(a, b)
    }

    fn dup(&self, a: &S::Item) -> S::Item {
        self.elem.dup(a)
    }

    open spec fn width(&self) -> Option<usize> {
        self.element().width()
    }

    proof fn width_is_exact(&self, v: Model<S>) {
        self.element().width_is_exact(v);
    }

    fn fixed_size(&self) -> Option<usize> {
        self.elem.fixed_size()
    }
}

impl<S: KeyFormat> KeyFormat for ObjectArrayFormat<S> {
    open spec fn lt(&self, a: Model<S>, b: Model<S>) -> bool {
        self.element().lt(a, b)
    }

    proof fn lt_irreflexive(&self, a: Model<S>) {
        self.element().lt_irreflexive(a);
    }

    proof fn lt_transitive(&self, a: Model<S>, b: Model<S>, c: Model<S>) {
        self.element().lt_transitive(a, b, c);
    }

    proof fn lt_total(&self, a: Model<S>, b: Model<S>) {
        self.element().lt_total(a, b);
    }

    proof fn enc_nonempty(&self, a: Model<S>) {
        self.element().enc_nonempty(a);
    }

    open spec fn natural(&self) -> bool {
        self.element().natural()
    }

    fn natural_order(&self) -> bool {
        self.elem.natural_order()
    }

    fn less(&self, a: &S::Item, b: &S::Item) -> bool {
        self.elem.less(a, b)
    }
}

// ---------------------------------------------------------------- pairs

/// Pairs, ordered by their first part and then by their second.
#[derive(Debug, Clone, Copy)]
pub struct PairFormat<A, B> {
    pub first: A,
    pub second: B,
}

impl<A: Serializer, B: Serializer> Serializer for PairFormat<A, B> {
    type Item = (A::Item, B::Item);

    open spec fn fits(&self, v: (Model<A>, Model<B>)) -> bool {
        self.first.fits(v.0) && self.second.fits(v.1)
    }

    open spec fn enc(&self, v: (Model<A>, Model<B>)) -> Seq<u8> {
        self.first.enc(v.0) + self.second.enc(v.1)
    }

    open spec fn dec(&self, s: Seq<u8>) -> Option<((Model<A>, Model<B>), nat)> {
        match self.first.dec(s) {
            Some((a, n)) => match self.second.dec(s.skip(n as int)) {
                Some((b, k)) => Some(((a, b), n + k)),
                None => None,
            },
            None => None,
        }
    }

    proof fn round_trip(&self, v: (Model<A>, Model<B>), tail: Seq<u8>) {
        let x = self.first.enc(v.0);
        let y = self.second.enc(v.1);
        self.first.round_trip(v.0, y + tail);
        self.second.round_trip(v.1, tail);
        assert(x + y + tail =~= x + (y + tail));
        assert((x + (y + tail)).skip(x.len() as int) =~= y + tail);
    }

    proof fn dec_within(&self, s: Seq<u8>) {
        self.first.dec_within(s);
        match self.first.dec(s) {
            Some((a, n)) => {
                self.second.dec_within(s.skip(n as int));
            },
            None => {},
        }
    }

    fn can_write(&self, value: &Self::Item) -> bool {
        self.first.can_write(&value.0) && self.second.can_write(&value.1)
    }

    fn serialize(&self, out: &mut DataOutput2, value: &Self::Item) {
        self.first.serialize(out, &value.0);
        self.second.serialize(out, &value.1);
        assert(out@ =~= old(out)@ + self.enc(value@));
    }

    fn deserialize(&self, input: &mut SliceInput<'_>) -> Result<Self::Item> {
        let ghost s = rest(input.bytes(), input.cursor());
        proof {
            self.first.dec_within(s);
        }
        let a = match self.first.deserialize(input) {
            Ok(x) => x,
            Err(e) => {
                return Err(e);
            },
        };
        proof {
            let n = self.first.dec(s).unwrap().1;
            assert(rest(input.bytes(), input.cursor()) =~= s.skip(n as int));
        }
        match self.second.deserialize(input) {
            Ok(b) => Ok((a, b)),
            Err(e) => Err(e),
        }
    }

    fn equals(&self, a: &Self::Item, b: &Self::Item) -> bool {
        self.first.equals(&a.0, &b.0) && self.second.equals(&a.1, &b.1)
    }

    fn dup(&self, a: &Self::Item) -> Self::Item {
        (self.first.dup(&a.0), self.second.dup(&a.1))
    }

    open spec fn width(&self) -> Option<usize> {
        None
    }

    proof fn width_is_exact(&self, v: (Model<A>, Model<B>)) {
    }

    fn fixed_size(&self) -> Option<usize> {
        None
    }
}

impl<A: KeyFormat, B: KeyFormat> KeyFormat for PairFormat<A, B> {
    open spec fn lt(&self, a: (Model<A>, Model<B>), b: (Model<A>, Model<B>)) -> bool {
        self.first.lt(a.0, b.0) || (a.0 == b.0 && self.second.lt(a.1, b.1))
    }

    proof fn lt_irreflexive(&self, a: (Model<A>, Model<B>)) {
        self.first.lt_irreflexive(a.0);
        self.second.lt_irreflexive(a.1);
    }

    proof fn lt_transitive(
        &self,
        a: (Model<A>, Model<B>),
        b: (Model<A>, Model<B>),
        c: (Model<A>, Model<B>),
    ) {
        if self.first.lt(a.0, b.0) && self.first.lt(b.0, c.0) {
            self.first.lt_transitive(a.0, b.0, c.0);
        }
        if self.second.lt(a.1, b.1) && self.second.lt(b.1, c.1) {
            self.second.lt_transitive(a.1, b.1, c.1);
        }
    }

    proof fn lt_total(&self, a: (Model<A>, Model<B>), b: (Model<A>, Model<B>)) {
        self.first.lt_total(a.0, b.0);
        self.second.lt_total(a.1, b.1);
    }

    proof fn enc_nonempty(&self, a: (Model<A>, Model<B>)) {
        self.first.enc_nonempty(a.0);
    }

    open spec fn natural(&self) -> bool {
        self.first.natural() && self.second.natural()
    }

    fn natural_order(&self) -> bool {
        self.first.natural_order() && self.second.natural_order()
    }

    fn less(&self, a: &Self::Item, b: &Self::Item) -> bool {
        if self.first.less(&a.0, &b.0) {
            return true;
        }
        self.first.equals(&a.0, &b.0) && self.second.less(&a.1, &b.1)
    }
}

} // verus!
