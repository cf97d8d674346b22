//! What the orders and the layouts of values promise to whoever reads or compares
//! them.

use vstd::prelude::*;
use vstd::utf8::{
    char_is_scalar, encode_scalar, encode_utf8, has_width_1_encoding, has_width_2_encoding,
    has_width_3_encoding,
};
use crate::error::{DbError, Result};
use crate::io::{be_bytes, groups, lemma_be_bytes_len, packed, pow256};
use crate::ser::{
    lex_lt, str_lt, BooleanSer, ByteArrayFormat, IntSer, KeyFormat, LongFormat, Model,
    ObjectArrayFormat, PackedSer, PairFormat, Serializer, StringSer,
};
use crate::store::{
    carried_out, item_at, keeps_state, put_post, served, turned_down, Records, StoreState,
};
use crate::text::{begins, decimal, is_digit, law_decimal_round_trip, parsed, unsigned_part};

verus! {

// ---------------------------------------------------------------- orders

/// The first place where two sequences of bytes differ decides.
proof fn lemma_lex_at(a: Seq<u8>, b: Seq<u8>, i: int)
    requires
        0 <= i < a.len(),
        i < b.len(),
        forall|j: int| 0 <= j < i ==> a[j] == b[j],
        a[i] < b[i],
    ensures
        lex_lt(a, b),
        !lex_lt(b, a),
    decreases i,
{
    if i > 0 {
        lemma_lex_at(a.skip(1), b.skip(1), i - 1);
    }
}

proof fn lemma_lex_prefix(s: Seq<u8>, t: Seq<u8>)
    requires
        t.len() > 0,
    ensures
        lex_lt(s, s + t),
        !lex_lt(s + t, s),
    decreases s.len(),
{
    if s.len() > 0 {
        lemma_lex_prefix(s.skip(1), t);
        assert((s + t).skip(1) =~= s.skip(1) + t);
    }
}

/// Of two byte arrays the one with the smaller byte, at the first place where they
/// differ, comes first.
pub proof fn law_bytes_first_difference(a: Seq<u8>, b: Seq<u8>, i: int)
    requires
        0 <= i < a.len(),
        i < b.len(),
        a.take(i) == b.take(i),
        a[i] < b[i],
    ensures
        ByteArrayFormat.lt(a, b),
        !ByteArrayFormat.lt(b, a),
{
    assert forall|j: int| 0 <= j < i implies a[j] == b[j] by {
        assert(a[j] == a.take(i)[j] && b[j] == b.take(i)[j]);
    }
    lemma_lex_at(a, b, i);
}

/// A byte array comes before every longer one that it begins.
pub proof fn law_bytes_prefix_first(s: Seq<u8>, t: Seq<u8>)
    requires
        t.len() > 0,
    ensures
        ByteArrayFormat.lt(s, s + t),
        !ByteArrayFormat.lt(s + t, s),
{
    lemma_lex_prefix(s, t);
}

proof fn lemma_utf8_concat(a: Seq<char>, b: Seq<char>)
    ensures
        encode_utf8(a + b) == encode_utf8(a) + encode_utf8(b),
    decreases a.len(),
{
    if a.len() > 0 {
        lemma_utf8_concat(a.drop_first(), b);
        assert((a + b).drop_first() =~= a.drop_first() + b);
        assert(encode_utf8(a + b) =~= encode_utf8(a) + encode_utf8(b));
    } else {
        assert(a + b =~= b);
        assert(encode_utf8(a + b) =~= encode_utf8(a) + encode_utf8(b));
    }
}

proof fn lemma_width_2(u: u32, v: u32)
    by (bit_vector)
    requires
        0x80 <= u < v <= 0x7FF,
    ensures
        (0xC0u8 | ((u >> 6) & 0x1F) as u8) < (0xC0u8 | ((v >> 6) & 0x1F) as u8) || (0xC0u8 | ((u
            >> 6) & 0x1F) as u8) == (0xC0u8 | ((v >> 6) & 0x1F) as u8) && (0x80u8 | (u
            & 0x3F) as u8) < (0x80u8 | (v & 0x3F) as u8),
{
}

proof fn lemma_width_3(u: u32, v: u32)
    by (bit_vector)
    requires
        0x800 <= u < v <= 0xFFFF,
    ensures
        (0xE0u8 | ((u >> 12) & 0x0F) as u8) < (0xE0u8 | ((v >> 12) & 0x0F) as u8) || (0xE0u8 | ((u
            >> 12) & 0x0F) as u8) == (0xE0u8 | ((v >> 12) & 0x0F) as u8) && ((0x80u8 | ((u >> 6)
            & 0x3F) as u8) < (0x80u8 | ((v >> 6) & 0x3F) as u8) || (0x80u8 | ((u >> 6)
            & 0x3F) as u8) == (0x80u8 | ((v >> 6) & 0x3F) as u8) && (0x80u8 | (u & 0x3F) as u8) < (
        0x80u8 | (v & 0x3F) as u8)),
{
}

proof fn lemma_width_4(u: u32, v: u32)
    by (bit_vector)
    requires
        0x10000 <= u < v <= 0x10FFFF,
    ensures
        (0xF0u8 | ((u >> 18) & 0x7) as u8) < (0xF0u8 | ((v >> 18) & 0x7) as u8) || (0xF0u8 | ((u
            >> 18) & 0x7) as u8) == (0xF0u8 | ((v >> 18) & 0x7) as u8) && ((0x80u8 | ((u >> 12)
            & 0x3F) as u8) < (0x80u8 | ((v >> 12) & 0x3F) as u8) || (0x80u8 | ((u >> 12)
            & 0x3F) as u8) == (0x80u8 | ((v >> 12) & 0x3F) as u8) && ((0x80u8 | ((u >> 6)
            & 0x3F) as u8) < (0x80u8 | ((v >> 6) & 0x3F) as u8) || (0x80u8 | ((u >> 6)
            & 0x3F) as u8) == (0x80u8 | ((v >> 6) & 0x3F) as u8) && (0x80u8 | (u & 0x3F) as u8) < (
        0x80u8 | (v & 0x3F) as u8))),
{
}

/// The leading byte tells how many bytes a character takes, the shorter ones first.
proof fn lemma_leads(u: u32)
    by (bit_vector)
    ensures
        u <= 0x7F ==> ((u & 0x7F) as u8) < 0x80,
        0x80 <= u <= 0x7FF ==> 0xC0 <= (0xC0u8 | ((u >> 6) & 0x1F) as u8) < 0xE0,
        0x800 <= u <= 0xFFFF ==> 0xE0 <= (0xE0u8 | ((u >> 12) & 0x0F) as u8) < 0xF0,
        0x10000 <= u <= 0x10FFFF ==> 0xF0 <= (0xF0u8 | ((u >> 18) & 0x7) as u8),
{
}

proof fn lemma_width_1(u: u32, v: u32)
    by (bit_vector)
    requires
        u < v <= 0x7F,
    ensures
        ((u & 0x7F) as u8) < ((v & 0x7F) as u8),
{
}

/// The bytes of the smaller code point come first.
proof fn lemma_scalar_order(u: u32, v: u32) -> (i: int)
    requires
        vstd::utf8::is_scalar(u),
        vstd::utf8::is_scalar(v),
        u < v,
    ensures
        0 <= i < encode_scalar(u).len(),
        i < encode_scalar(v).len(),
        forall|j: int| 0 <= j < i ==> encode_scalar(u)[j] == encode_scalar(v)[j],
        encode_scalar(u)[i] < encode_scalar(v)[i],
{
    lemma_leads(u);
    lemma_leads(v);
    let a = encode_scalar(u);
    let b = encode_scalar(v);
    if has_width_1_encoding(v) {
        lemma_width_1(u, v);
        0
    } else if has_width_2_encoding(u) && has_width_2_encoding(v) {
        lemma_width_2(u, v);
        if a[0] < b[0] {
            0
        } else {
            1
        }
    } else if has_width_3_encoding(u) && has_width_3_encoding(v) {
        lemma_width_3(u, v);
        if a[0] < b[0] {
            0
        } else if a[1] < b[1] {
            1
        } else {
            2
        }
    } else if !has_width_1_encoding(u) && !has_width_2_encoding(u) && !has_width_3_encoding(u) {
        lemma_width_4(u, v);
        if a[0] < b[0] {
            0
        } else if a[1] < b[1] {
            1
        } else if a[2] < b[2] {
            2
        } else {
            3
        }
    } else {
        0
    }
}

/// Of two strings the one with the smaller character, at the first place where they
/// differ, comes first.
pub proof fn law_string_first_difference(a: Seq<char>, b: Seq<char>, i: int)
    requires
        0 <= i < a.len(),
        i < b.len(),
        a.take(i) == b.take(i),
        (a[i] as u32) < (b[i] as u32),
    ensures
        StringSer.lt(a, b),
        !StringSer.lt(b, a),
        str_lt(a, b),
        !str_lt(b, a),
{
    let p = encode_utf8(a.take(i));
    assert(a =~= a.take(i) + a.skip(i));
    assert(b =~= b.take(i) + b.skip(i));
    lemma_utf8_concat(a.take(i), a.skip(i));
    lemma_utf8_concat(b.take(i), b.skip(i));
    char_is_scalar(a[i]);
    char_is_scalar(b[i]);
    let k = lemma_scalar_order(a[i] as u32, b[i] as u32);
    let x = encode_utf8(a);
    let y = encode_utf8(b);
    let n = p.len() as int;
    assert(a.skip(i)[0] == a[i] && b.skip(i)[0] == b[i]);
    assert forall|j: int| 0 <= j < n + k implies x[j] == y[j] by {
        if j >= n {
            assert(x[j] == encode_scalar(a[i] as u32)[j - n]);
            assert(y[j] == encode_scalar(b[i] as u32)[j - n]);
        }
    }
    assert(x[n + k] == encode_scalar(a[i] as u32)[k]);
    assert(y[n + k] == encode_scalar(b[i] as u32)[k]);
    lemma_lex_at(x, y, n + k);
}

/// A string comes before every longer one that it begins.
pub proof fn law_string_prefix_first(s: Seq<char>, t: Seq<char>)
    requires
        t.len() > 0,
    ensures
        StringSer.lt(s, s + t),
        !StringSer.lt(s + t, s),
        str_lt(s, s + t),
        !str_lt(s + t, s),
{
    lemma_utf8_concat(s, t);
    assert(encode_scalar(t[0] as u32).len() > 0);
    lemma_lex_prefix(encode_utf8(s), encode_utf8(t));
}

/// Numbers are ordered by their values, below zero too.
pub proof fn law_long_order(a: i64, b: i64)
    ensures
        LongFormat.lt(a, b) <==> b as int - a as int > 0,
{
}

/// Keys of these codecs are in the natural order of their values, and fixed sizes are those
/// of the machine types.
pub proof fn law_natural_orders()
    ensures
        LongFormat.natural(),
        StringSer.natural(),
        ByteArrayFormat.natural(),
        LongFormat.width() == Some(8usize),
        IntSer.width() == Some(4usize),
        BooleanSer.width() == Some(1usize),
{
}

/// Pairs are ordered by their first parts; the second ones count only where the
/// first are the same.
pub proof fn law_pair_order<A: KeyFormat, B: KeyFormat>(
    f: &PairFormat<A, B>,
    a: Model<A>,
    b: Model<A>,
    x: Model<B>,
    y: Model<B>,
)
    ensures
        f.first.lt(a, b) ==> f.lt((a, x), (b, y)) && !f.lt((b, y), (a, x)),
        f.lt((a, x), (a, y)) <==> f.second.lt(x, y),
{
    f.first.lt_irreflexive(a);
    if f.first.lt(a, b) {
        if f.first.lt(b, a) {
            f.first.lt_transitive(a, b, a);
        }
        if a == b {
            f.first.lt_irreflexive(a);
        }
    }
}

// ---------------------------------------------------------------- layouts

proof fn lemma_lex_push(x: Seq<u8>, y: Seq<u8>, p: u8, q: u8)
    requires
        x.len() == y.len(),
        lex_lt(x, y) || (x == y && p < q),
    ensures
        lex_lt(x.push(p), y.push(q)),
    decreases x.len(),
{
    if x.len() > 0 {
        assert(x.push(p).skip(1) =~= x.skip(1).push(p));
        assert(y.push(q).skip(1) =~= y.skip(1).push(q));
        if x[0] == y[0] {
            lemma_lex_push(x.skip(1), y.skip(1), p, q);
        }
    }
}

proof fn lemma_be_order(a: nat, b: nat, n: nat)
    requires
        a < b < pow256(n),
    ensures
        lex_lt(be_bytes(a, n), be_bytes(b, n)),
    decreases n,
{
    if n > 0 {
        let (x, y) = (a / 256, b / 256);
        lemma_be_bytes_len(x, (n - 1) as nat);
        lemma_be_bytes_len(y, (n - 1) as nat);
        assert(y < pow256((n - 1) as nat));
        if x < y {
            lemma_be_order(x, y, (n - 1) as nat);
        } else {
            assert(x == y && a % 256 < b % 256);
        }
        lemma_lex_push(
            be_bytes(x, (n - 1) as nat),
            be_bytes(y, (n - 1) as nat),
            (a % 256) as u8,
            (b % 256) as u8,
        );
    }
}

/// The most significant byte of a number comes first: numbers that are not negative are in
/// the order of their bytes, and the last byte is the lowest.
pub proof fn law_numbers_are_big_endian(a: i64, b: i64, x: i32, y: i32)
    requires
        0 <= a < b,
        0 <= x < y,
    ensures
        LongFormat.enc(a).len() == 8,
        IntSer.enc(x).len() == 4,
        lex_lt(LongFormat.enc(a), LongFormat.enc(b)),
        lex_lt(IntSer.enc(x), IntSer.enc(y)),
        LongFormat.enc(a)[7] as int == a % 256,
        IntSer.enc(x)[3] as int == x % 256,
{
    crate::io::lemma_pow256_values();
    lemma_be_bytes_len(a as nat, 8);
    lemma_be_bytes_len(x as nat, 4);
    lemma_be_bytes_len((a as nat) / 256, 7);
    lemma_be_bytes_len((x as nat) / 256, 3);
    lemma_be_order(a as nat, b as nat, 8);
    lemma_be_order(x as nat, y as nat, 4);
}

/// A packed number has seven bits in each byte, the highest first, and its last byte
/// alone carries the mark; a small number takes one byte.
pub proof fn law_packed_layout(v: nat)
    ensures
        packed(v).len() > 0,
        packed(v).last() as nat == 128 + v % 128,
        v < 128 ==> packed(v).len() == 1,
        v >= 128 ==> packed(v).drop_last() == packed(v / 128).drop_last().push(
            ((v / 128) % 128) as u8,
        ),
        v >= 128 ==> packed(v).len() == packed(v / 128).len() + 1,
{
    let g = groups(v / 128);
    assert(packed(v).drop_last() =~= g);
    if v >= 128 {
        assert(packed(v / 128).drop_last() =~= groups(v / 128 / 128));
    }
}

/// A truth value is one byte, zero for false; any other byte reads as true.
pub proof fn law_boolean_layout(b: u8)
    ensures
        BooleanSer.enc(false) == seq![0u8],
        BooleanSer.enc(true) == seq![1u8],
        BooleanSer.dec(seq![b]) == Some((b != 0, 1nat)),
{
}

/// Byte arrays and strings are written with their length before them, and pairs one part
/// after the other.
pub proof fn law_block_layout<A: Serializer, B: Serializer>(
    b: Seq<u8>,
    s: Seq<char>,
    f: &PairFormat<A, B>,
    x: Model<A>,
    y: Model<B>,
)
    ensures
        ByteArrayFormat.enc(b) == packed(b.len()) + b,
        StringSer.enc(s) == packed(encode_utf8(s).len()) + encode_utf8(s),
        f.enc((x, y)) == f.first.enc(x) + f.second.enc(y),
{
}

// ---------------------------------------------------------------- numbers as text

/// A number is written in decimal, without zeros before it.
pub proof fn law_decimal_digits(n: nat, d: nat)
    requires
        d < 10,
    ensures
        decimal(d) == seq!["0123456789"@[d as int]],
        n > 0 ==> decimal(10 * n + d) == decimal(n) + decimal(d),
        n > 0 ==> decimal(n)[0] != '0',
    decreases n,
{
    reveal_strlit("0123456789");
    if n > 0 {
        assert((10 * n + d) / 10 == n && (10 * n + d) % 10 == d);
        assert(decimal(10 * n + d) =~= decimal(n) + decimal(d));
        if n >= 10 {
            law_decimal_digits(n / 10, 0);
        }
    }
}

/// Only digits are read as a number, with one plus sign before them at most, and only up
/// to the largest number that is asked for.
pub proof fn law_numbers_are_read_strictly(s: Seq<char>, n: nat, max: nat, i: int)
    ensures
        parsed(decimal(n), max) == if n <= max {
            Some(n)
        } else {
            None
        },
        parsed(Seq::empty(), max) is None,
        parsed(s, max) matches Some(x) ==> x <= max,
        parsed(s, max) is Some && 0 < i < s.len() ==> "0123456789"@.contains(s[i]),
        parsed(s, max) is Some ==> s.len() > 0 && (s[0] == '+' || "0123456789"@.contains(s[0])),
{
    law_decimal_round_trip(n, n);
    reveal_strlit("0123456789");
    let t = "0123456789"@;
    if parsed(s, max) is Some {
        let d = unsigned_part(s);
        assert(is_digit(d[0]));
        if s[0] != '+' {
            assert(t[s[0] as int - 48] == s[0]);
        }
        if 0 < i < s.len() {
            let j = if s[0] == '+' {
                i - 1
            } else {
                i
            };
            assert(is_digit(d[j]) && d[j] == s[i]);
            assert(t[s[i] as int - 48] == s[i]);
        }
    }
}

/// A string begins with another exactly where something can be put after the other to
/// make it.
pub proof fn law_begins(p: Seq<char>, t: Seq<char>, s: Seq<char>)
    ensures
        begins(p + t, p),
        begins(s, p) ==> s == p + s.skip(p.len() as int),
{
    assert((p + t).take(p.len() as int) =~= p);
    if begins(s, p) {
        assert(s =~= s.take(p.len() as int) + s.skip(p.len() as int));
    }
}

// ---------------------------------------------------------------- records

/// A value that is put is read back under its new recid, and no other record changes.
pub proof fn law_put_then_read<F: Serializer>(
    ser: &F,
    a: StoreState,
    b: StoreState,
    v: Model<F>,
    r: Result<u64>,
    other: u64,
)
    requires
        ser.fits(v),
        put_post(a, b, Some(ser.enc(v)), r),
    ensures
        a.writable && a.room > 0 ==> r is Ok,
        r matches Ok(recid) ==> recid != 0 && !a.records.contains_key(recid) && item_at(
            ser,
            b.records,
            recid,
        ) == Some(Some(v)),
        a.records.contains_key(other) ==> b.records.contains_key(other) && b.records[other]
            == a.records[other],
        r is Err ==> b.records == a.records,
{
    ser.round_trip(v, Seq::empty());
    assert(ser.enc(v) + Seq::<u8>::empty() =~= ser.enc(v));
}

/// A record that is not there has no value, and a null record has none either, which is
/// another matter.
pub proof fn law_null_and_missing<F: Serializer>(ser: &F, records: Records, recid: u64)
    ensures
        !records.contains_key(recid) ==> item_at(ser, records, recid) is None,
        records.contains_key(recid) && records[recid] is None ==> item_at(ser, records, recid)
            == Some(None::<Model<F>>),
        item_at(ser, records, recid) matches Some(Some(v)) ==> records.contains_key(recid)
            && records[recid] is Some,
{
}

/// What a healthy store owes: an answer to every read, success of every change, and from a
/// closed or a read-only store the refusal that says so.
pub proof fn law_healthy_stores_serve<T>(a: StoreState, b: StoreState, r: Result<T>)
    ensures
        served(a, r) && a.readable ==> r is Ok,
        carried_out(a, r) && a.readable && a.writable ==> r is Ok,
        turned_down(a, b, r) && a.closed ==> r == Err::<T, DbError>(DbError::StoreClosed)
            && b.records == a.records,
        turned_down(a, b, r) && a.read_only && !a.closed ==> r == Err::<T, DbError>(
            DbError::ReadOnly,
        ) && b.records == a.records,
        keeps_state(a, b) ==> a.kind == b.kind && a.closed == b.closed && a.tx == b.tx && a.saved
            == b.saved && a.readable == b.readable && a.writable == b.writable && a.read_only
            == b.read_only,
{
}

/// Numbers and truth values all have the same width, strings and arrays have not.
pub proof fn law_widths(i: i64, j: i32, b: bool)
    ensures
        LongFormat.width() == Some(LongFormat.enc(i).len() as usize) && LongFormat.enc(i).len()
            == 8,
        IntSer.width() == Some(IntSer.enc(j).len() as usize) && IntSer.enc(j).len() == 4,
        BooleanSer.width() == Some(BooleanSer.enc(b).len() as usize) && BooleanSer.enc(b).len()
            == 1,
        StringSer.width() is None,
        ByteArrayFormat.width() is None,
        PackedSer.width() is None,
{
    LongFormat.width_is_exact(i);
    IntSer.width_is_exact(j);
    BooleanSer.width_is_exact(b);
}

/// An array of objects orders, writes and reads its elements as their own codec does, and
/// the order of pairs is natural where the orders of both parts are.
pub proof fn law_elements_keep_their_codec<S: KeyFormat, A: KeyFormat, B: KeyFormat>(
    f: &ObjectArrayFormat<S>,
    x: Model<S>,
    y: Model<S>,
    bytes: Seq<u8>,
    p: &PairFormat<A, B>,
)
    ensures
        f.lt(x, y) <==> f.element().lt(x, y),
        f.enc(x) == f.element().enc(x),
        f.dec(bytes) == f.element().dec(bytes),
        f.width() == f.element().width(),
        f.natural() <==> f.element().natural(),
        p.natural() <==> p.first.natural() && p.second.natural(),
{
}

} // verus!
