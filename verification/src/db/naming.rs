//! Which names and which codec descriptors a catalog takes.

use vstd::prelude::*;
use vstd::utf8::encode_utf8;
use crate::error::Result;
use crate::ser::{
    BooleanSer, ByteArrayFormat, IntSer, LongFormat, ObjectArrayFormat, PackedSer, Serializer,
    StringSer,
};
use crate::text::{begins, law_decimal_round_trip, level_of};
use super::descriptor::{
    column_name, component_name, dec64, decoded, digit64, enc64, first_index, law_base64_round_trip,
    lemma_first_index, lemma_is_first, name_or_custom, part_ok, parts_ok, signed_decimal, text64,
    valid_group, valid_ser, value64, verified, with_commas, ColumnType, ColumnarValueFormat,
    CompressionSerializer, GroupDescriptor, SerDescriptor, TupleComponent, TupleFormat,
};
use super::schema::valid_name;

verus! {

// ---------------------------------------------------------------- names

/// The characters of legal names, one by one.
proof fn lemma_name_alphabet(c: char)
    ensures
        valid_name(seq![c])
            <==> "ABCDEFGHIJKLMNOPQRSTUVWXYZabcdefghijklmnopqrstuvwxyz0123456789._-"@.contains(c),
{
    reveal_strlit("ABCDEFGHIJKLMNOPQRSTUVWXYZabcdefghijklmnopqrstuvwxyz0123456789._-");
    let all = "ABCDEFGHIJKLMNOPQRSTUVWXYZabcdefghijklmnopqrstuvwxyz0123456789._-"@;
    let s = seq![c];
    assert(s[0] == c);
    if valid_name(s) {
        let i = if 'A' <= c && c <= 'Z' {
            c as int - 65
        } else if 'a' <= c && c <= 'z' {
            c as int - 71
        } else if '0' <= c && c <= '9' {
            c as int + 4
        } else if c == '.' {
            62
        } else if c == '_' {
            63
        } else {
            64
        };
        assert(all[i] == c);
    }
    if all.contains(c) {
        let i = choose|i: int| 0 <= i < all.len() && all[i] == c;
        assert(0 <= i < 65);
        assert forall|j: int| 0 <= j < s.len() implies super::schema::name_char(#[trigger] s[j]) by {}
    }
}

/// A name is legal where it is not empty and all its characters are letters, digits,
/// dots, underscores and hyphens.
pub proof fn law_legal_names(s: Seq<char>)
    ensures
        valid_name(s) <==> s.len() > 0 && forall|i: int|
            0 <= i < s.len()
                ==> "ABCDEFGHIJKLMNOPQRSTUVWXYZabcdefghijklmnopqrstuvwxyz0123456789._-"@.contains(
                #[trigger] s[i],
            ),
{
    assert forall|i: int| 0 <= i < s.len() implies (
    "ABCDEFGHIJKLMNOPQRSTUVWXYZabcdefghijklmnopqrstuvwxyz0123456789._-"@.contains(#[trigger] s[i])
        <==> valid_name(seq![s[i]])) by {
        lemma_name_alphabet(s[i]);
    }
    assert forall|i: int| 0 <= i < s.len() && valid_name(seq![#[trigger] s[i]]) implies
        super::schema::name_char(s[i]) by {
        assert(seq![s[i]][0] == s[i]);
    }
}

/// Two legal names in a row are a legal name, and every part of a legal name is one.
pub proof fn law_names_join(s: Seq<char>, t: Seq<char>)
    requires
        s.len() > 0,
        t.len() > 0,
    ensures
        valid_name(s + t) <==> valid_name(s) && valid_name(t),
{
    if valid_name(s + t) {
        assert forall|i: int| 0 <= i < s.len() implies super::schema::name_char(#[trigger] s[i]) by {
            assert((s + t)[i] == s[i]);
        }
        assert forall|i: int| 0 <= i < t.len() implies super::schema::name_char(#[trigger] t[i]) by {
            assert((s + t)[s.len() + i] == t[i]);
        }
    }
}

// ---------------------------------------------------------------- plain descriptors

proof fn lemma_tag(s: Seq<char>, p: Seq<char>)
    requires
        !s.contains(':'),
        p.contains(':'),
    ensures
        !begins(s, p),
{
    if begins(s, p) {
        let i = choose|i: int| 0 <= i < p.len() && p[i] == ':';
        assert(s.take(p.len() as int)[i] == s[i]);
        assert(s[i] == ':');
    }
}

/// What holds no colon has none of the tags.
proof fn lemma_untagged(s: Seq<char>)
    requires
        !s.contains(':'),
    ensures
        !begins(s, "CUSTOM:"@),
        !begins(s, "DEFLATE:"@),
        !begins(s, "ARRAY:"@),
        !begins(s, "OBJECT_ARRAY:"@),
        !begins(s, "TUPLE:"@),
        !begins(s, "COLUMNAR:"@),
{
    reveal_strlit("CUSTOM:");
    reveal_strlit("DEFLATE:");
    reveal_strlit("ARRAY:");
    reveal_strlit("OBJECT_ARRAY:");
    reveal_strlit("TUPLE:");
    reveal_strlit("COLUMNAR:");
    assert("CUSTOM:"@[6] == ':');
    assert("DEFLATE:"@[7] == ':');
    assert("ARRAY:"@[5] == ':');
    assert("OBJECT_ARRAY:"@[12] == ':');
    assert("TUPLE:"@[5] == ':');
    assert("COLUMNAR:"@[8] == ':');
    lemma_tag(s, "CUSTOM:"@);
    lemma_tag(s, "DEFLATE:"@);
    lemma_tag(s, "ARRAY:"@);
    lemma_tag(s, "OBJECT_ARRAY:"@);
    lemma_tag(s, "TUPLE:"@);
    lemma_tag(s, "COLUMNAR:"@);
}

/// Without one of the three tags these are the descriptors of element codecs, and no
/// others.
#[verifier::spinoff_prover]
#[verifier::rlimit(40)]
pub proof fn law_plain_ser_descriptors(s: Seq<char>)
    requires
        !begins(s, "CUSTOM:"@),
        !begins(s, "DEFLATE:"@),
        !begins(s, "ARRAY:"@),
    ensures
        valid_ser(s) <==> seq![
            "LONG"@,
            "INTEGER"@,
            "SHORT"@,
            "CHAR"@,
            "UUID"@,
            "STRING"@,
            "BYTE_ARRAY"@,
            "BYTE_ARRAY_UNSIGNED"@,
            "BOOLEAN"@,
            "BYTE"@,
            "FLOAT"@,
            "DOUBLE"@,
            "INTEGER_PACKED"@,
            "LONG_PACKED"@,
            "BYTE_ARRAY_NOSIZE"@,
            "STRING_NOSIZE"@,
            "STRING_ASCII"@,
            "STRING_INTERN"@,
            "RECID"@,
            "RECID_ARRAY"@,
            "BOOLEAN_ARRAY"@,
            "CHAR_ARRAY"@,
            "SHORT_ARRAY"@,
            "INT_ARRAY"@,
            "LONG_ARRAY"@,
            "FLOAT_ARRAY"@,
            "DOUBLE_ARRAY"@,
            "BIG_INTEGER"@,
            "BIG_DECIMAL"@,
            "DATE"@,
            "CLASS"@,
            "JAVA"@,
            "CUSTOM"@,
        ].contains(s),
{
    let all = seq![
        "LONG"@,
        "INTEGER"@,
        "SHORT"@,
        "CHAR"@,
        "UUID"@,
        "STRING"@,
        "BYTE_ARRAY"@,
        "BYTE_ARRAY_UNSIGNED"@,
        "BOOLEAN"@,
        "BYTE"@,
        "FLOAT"@,
        "DOUBLE"@,
        "INTEGER_PACKED"@,
        "LONG_PACKED"@,
        "BYTE_ARRAY_NOSIZE"@,
        "STRING_NOSIZE"@,
        "STRING_ASCII"@,
        "STRING_INTERN"@,
        "RECID"@,
        "RECID_ARRAY"@,
        "BOOLEAN_ARRAY"@,
        "CHAR_ARRAY"@,
        "SHORT_ARRAY"@,
        "INT_ARRAY"@,
        "LONG_ARRAY"@,
        "FLOAT_ARRAY"@,
        "DOUBLE_ARRAY"@,
        "BIG_INTEGER"@,
        "BIG_DECIMAL"@,
        "DATE"@,
        "CLASS"@,
        "JAVA"@,
        "CUSTOM"@,
    ];
    if s == "LONG"@ {
        assert(all[0] == s);
    } else if s == "INTEGER"@ {
        assert(all[1] == s);
    } else if s == "SHORT"@ {
        assert(all[2] == s);
    } else if s == "CHAR"@ {
        assert(all[3] == s);
    } else if s == "UUID"@ {
        assert(all[4] == s);
    } else if s == "STRING"@ {
        assert(all[5] == s);
    } else if s == "BYTE_ARRAY"@ {
        assert(all[6] == s);
    } else if s == "BYTE_ARRAY_UNSIGNED"@ {
        assert(all[7] == s);
    } else if s == "BOOLEAN"@ {
        assert(all[8] == s);
    } else if s == "BYTE"@ {
        assert(all[9] == s);
    } else if s == "FLOAT"@ {
        assert(all[10] == s);
    } else if s == "DOUBLE"@ {
        assert(all[11] == s);
    } else if s == "INTEGER_PACKED"@ {
        assert(all[12] == s);
    } else if s == "LONG_PACKED"@ {
        assert(all[13] == s);
    } else if s == "BYTE_ARRAY_NOSIZE"@ {
        assert(all[14] == s);
    } else if s == "STRING_NOSIZE"@ {
        assert(all[15] == s);
    } else if s == "STRING_ASCII"@ {
        assert(all[16] == s);
    } else if s == "STRING_INTERN"@ {
        assert(all[17] == s);
    } else if s == "RECID"@ {
        assert(all[18] == s);
    } else if s == "RECID_ARRAY"@ {
        assert(all[19] == s);
    } else if s == "BOOLEAN_ARRAY"@ {
        assert(all[20] == s);
    } else if s == "CHAR_ARRAY"@ {
        assert(all[21] == s);
    } else if s == "SHORT_ARRAY"@ {
        assert(all[22] == s);
    } else if s == "INT_ARRAY"@ {
        assert(all[23] == s);
    } else if s == "LONG_ARRAY"@ {
        assert(all[24] == s);
    } else if s == "FLOAT_ARRAY"@ {
        assert(all[25] == s);
    } else if s == "DOUBLE_ARRAY"@ {
        assert(all[26] == s);
    } else if s == "BIG_INTEGER"@ {
        assert(all[27] == s);
    } else if s == "BIG_DECIMAL"@ {
        assert(all[28] == s);
    } else if s == "DATE"@ {
        assert(all[29] == s);
    } else if s == "CLASS"@ {
        assert(all[30] == s);
    } else if s == "JAVA"@ {
        assert(all[31] == s);
    } else if s == "CUSTOM"@ {
        assert(all[32] == s);
    }
    if all.contains(s) {
        let i = choose|i: int| 0 <= i < all.len() && all[i] == s;
        assert(0 <= i < 33);
    }
}

/// Without one of the four tags these are the descriptors of group formats, and no others.
#[verifier::spinoff_prover]
#[verifier::rlimit(40)]
pub proof fn law_plain_group_descriptors(s: Seq<char>)
    requires
        !begins(s, "CUSTOM:"@),
        !begins(s, "OBJECT_ARRAY:"@),
        !begins(s, "TUPLE:"@),
        !begins(s, "COLUMNAR:"@),
    ensures
        valid_group(s) <==> seq![
            "LONG"@,
            "INT"@,
            "SHORT"@,
            "CHAR"@,
            "UUID"@,
            "STRING"@,
            "STRING_PREFIX"@,
            "BYTE_ARRAY"@,
            "BYTE_ARRAY_PREFIX"@,
            "INT_DELTA"@,
            "LONG_DELTA"@,
            "CUSTOM"@,
        ].contains(s),
{
    let all = seq![
        "LONG"@,
        "INT"@,
        "SHORT"@,
        "CHAR"@,
        "UUID"@,
        "STRING"@,
        "STRING_PREFIX"@,
        "BYTE_ARRAY"@,
        "BYTE_ARRAY_PREFIX"@,
        "INT_DELTA"@,
        "LONG_DELTA"@,
        "CUSTOM"@,
    ];
    if s == "LONG"@ {
        assert(all[0] == s);
    } else if s == "INT"@ {
        assert(all[1] == s);
    } else if s == "SHORT"@ {
        assert(all[2] == s);
    } else if s == "CHAR"@ {
        assert(all[3] == s);
    } else if s == "UUID"@ {
        assert(all[4] == s);
    } else if s == "STRING"@ {
        assert(all[5] == s);
    } else if s == "STRING_PREFIX"@ {
        assert(all[6] == s);
    } else if s == "BYTE_ARRAY"@ {
        assert(all[7] == s);
    } else if s == "BYTE_ARRAY_PREFIX"@ {
        assert(all[8] == s);
    } else if s == "INT_DELTA"@ {
        assert(all[9] == s);
    } else if s == "LONG_DELTA"@ {
        assert(all[10] == s);
    } else if s == "CUSTOM"@ {
        assert(all[11] == s);
    }
    if all.contains(s) {
        let i = choose|i: int| 0 <= i < all.len() && all[i] == s;
        assert(0 <= i < 12);
    }
}

// ---------------------------------------------------------------- the library's codecs

/// The element codecs have the names under which catalogs know them, and a catalog
/// takes each of them.
pub proof fn law_element_codecs_are_known()
    ensures
        LongFormat.ser_name() == Some("LONG"@),
        IntSer.ser_name() == Some("INTEGER"@),
        PackedSer.ser_name() == Some("LONG_PACKED"@),
        BooleanSer.ser_name() == Some("BOOLEAN"@),
        StringSer.ser_name() == Some("STRING"@),
        ByteArrayFormat.ser_name() == Some("BYTE_ARRAY"@),
        valid_ser(name_or_custom(LongFormat.ser_name())),
        valid_ser(name_or_custom(IntSer.ser_name())),
        valid_ser(name_or_custom(PackedSer.ser_name())),
        valid_ser(name_or_custom(BooleanSer.ser_name())),
        valid_ser(name_or_custom(StringSer.ser_name())),
        valid_ser(name_or_custom(ByteArrayFormat.ser_name())),
        valid_ser(name_or_custom(None)),
{
}

/// The group formats have the names under which catalogs know them, and a catalog takes
/// each of them.
pub proof fn law_group_formats_are_known()
    ensures
        LongFormat.group_name() == Some("LONG"@),
        IntSer.group_name() == Some("INT"@),
        StringSer.group_name() == Some("STRING"@),
        ByteArrayFormat.group_name() == Some("BYTE_ARRAY"@),
        valid_group(name_or_custom(LongFormat.group_name())),
        valid_group(name_or_custom(IntSer.group_name())),
        valid_group(name_or_custom(StringSer.group_name())),
        valid_group(name_or_custom(ByteArrayFormat.group_name())),
        valid_group(name_or_custom(None)),
{
}

pub(super) proof fn lemma_text64(n: Seq<char>)
    ensures
        decoded(text64(n)) == Some(n),
{
    law_base64_round_trip(encode_utf8(n));
    vstd::utf8::encode_utf8_valid_utf8(n);
    vstd::utf8::encode_utf8_decode_utf8(n);
}

/// A catalog takes an object array wherever it takes the codec of its elements.
pub proof fn law_object_arrays_are_known<S: Serializer + SerDescriptor>(f: &ObjectArrayFormat<S>)
    requires
        valid_ser(name_or_custom(f.element().ser_name())),
    ensures
        valid_group(name_or_custom(f.group_name())),
{
    if let Some(n) = f.element().ser_name() {
        let p = "OBJECT_ARRAY:"@;
        let s = p + text64(n);
        lemma_text64(n);
        assert(s.take(p.len() as int) =~= p);
        assert(s.skip(p.len() as int) =~= text64(n));
    }
}

/// A catalog takes a compressing codec wherever it takes the inner one, with the levels
/// that the compressor has.
pub proof fn law_compression_is_known<S: SerDescriptor>(f: &CompressionSerializer<S>)
    requires
        valid_ser(name_or_custom(f.inner().ser_name())),
        -1 <= f.degree() <= 9,
    ensures
        valid_ser(name_or_custom(f.ser_name())),
{
    if let Some(n) = f.inner().ser_name() {
        let p = "DEFLATE:"@;
        let level = signed_decimal(f.degree() as int);
        let t = level + ":"@ + text64(n);
        let s = p + level + ":"@ + text64(n);
        reveal_strlit(":");
        lemma_text64(n);
        lemma_level(f.degree() as int);
        assert(s =~= p + t);
        assert(s.take(p.len() as int) =~= p);
        assert(s.skip(p.len() as int) =~= t);
        assert forall|j: int| 0 <= j < level.len() implies t[j] != ':' by {
            assert(t[j] == level[j]);
        }
        assert(t[level.len() as int] == ':');
        lemma_is_first(t, ':', level.len() as int);
        assert(t.take(level.len() as int) =~= level);
        assert(t.skip(level.len() as int + 1) =~= text64(n));
    }
}

/// A level is written so that it is read back.
proof fn lemma_level(n: int)
    requires
        -1 <= n <= 9,
    ensures
        level_of(signed_decimal(n)) == Some(n),
        forall|j: int| 0 <= j < signed_decimal(n).len() ==> signed_decimal(n)[j] != ':',
{
    reveal_strlit("-");
    reveal_with_fuel(crate::text::digits_value, 2);
    let s = signed_decimal(n);
    if n < 0 {
        assert(s =~= seq!['-', '1']);
        assert(s.skip(1) =~= seq!['1']);
        assert(seq!['1'].drop_last() =~= Seq::<char>::empty());
    } else {
        law_decimal_round_trip(n as nat, 9);
    }
}

pub(super) proof fn lemma_parts_snoc(a: Seq<char>, b: Seq<char>, tuple: bool)
    requires
        !b.contains(','),
    ensures
        parts_ok(a + ","@ + b, tuple) == (parts_ok(a, tuple) && part_ok(b, tuple)),
    decreases a.len(),
{
    reveal_strlit(",");
    reveal_with_fuel(parts_ok, 2);
    let s = a + ","@ + b;
    lemma_first_index(a, ',');
    lemma_first_index(b, ',');
    match first_index(a, ',') {
        None => {
            let n = a.len() as int;
            assert forall|j: int| 0 <= j < n implies s[j] != ',' by {
                assert(a.contains(a[j]));
            }
            lemma_is_first(s, ',', n);
            assert(s.take(n) =~= a);
            assert(s.skip(n + 1) =~= b);
        },
        Some(i) => {
            let n = i as int;
            assert forall|j: int| 0 <= j < n implies s[j] != ',' by {
                assert(a.take(n)[j] == a[j]);
                assert(a.take(n).contains(a[j]));
            }
            lemma_is_first(s, ',', n);
            assert(s.take(n) =~= a.take(n));
            assert(s.skip(n + 1) =~= a.skip(n + 1) + ","@ + b);
            lemma_parts_snoc(a.skip(n + 1), b, tuple);
        },
    }
}

proof fn lemma_parts(names: Seq<Seq<char>>, tuple: bool)
    requires
        names.len() > 0,
        forall|i: int|
            0 <= i < names.len() ==> part_ok(#[trigger] names[i], tuple) && !names[i].contains(',')
                && names[i].len() > 0,
    ensures
        parts_ok(with_commas(names), tuple),
        with_commas(names).len() > 0,
    decreases names.len(),
{
    assert(part_ok(names[0], tuple));
    if names.len() == 1 {
        lemma_first_index(names[0], ',');
    } else {
        lemma_parts(names.drop_last(), tuple);
        assert(names.last() == names[names.len() - 1]);
        lemma_parts_snoc(with_commas(names.drop_last()), names.last(), tuple);
    }
}

/// A catalog takes tuples of every shape but the empty one.
pub proof fn law_tuples_are_known(f: &TupleFormat)
    requires
        f.components().len() > 0,
    ensures
        valid_group(name_or_custom(f.group_name())),
{
    let names = f.components().map_values(|c: TupleComponent| component_name(c));
    let p = "TUPLE:"@;
    reveal_strlit("INT");
    reveal_strlit("LONG");
    reveal_strlit("STRING");
    reveal_strlit("BYTES");
    lemma_parts(names, true);
    let s = p + with_commas(names);
    assert(s.take(p.len() as int) =~= p);
    assert(s.skip(p.len() as int) =~= with_commas(names));
}

/// A catalog takes tables of numbers of every shape but the empty one.
pub proof fn law_tables_are_known(f: &ColumnarValueFormat)
    requires
        f.shape().len() > 0,
    ensures
        valid_group(name_or_custom(f.group_name())),
{
    let names = f.shape().map_values(|c: ColumnType| column_name(c));
    let p = "COLUMNAR:"@;
    reveal_strlit("LONG");
    reveal_strlit("INT");
    reveal_strlit("SHORT");
    reveal_strlit("BYTE");
    lemma_parts(names, false);
    let s = p + with_commas(names);
    assert(s.take(p.len() as int) =~= p);
    assert(s.skip(p.len() as int) =~= with_commas(names));
}

/// The codec that an object was made with is taken again, and one with another name is
/// not.
pub proof fn law_codec_is_recognised(
    made_with: Option<Seq<char>>,
    other: Option<Seq<char>>,
    valid: bool,
    r: Result<()>,
    q: Result<()>,
)
    requires
        verified(name_or_custom(made_with), made_with, valid, r),
        verified(name_or_custom(made_with), other, valid, q),
        other is Some ==> made_with != other && other != Some("CUSTOM"@),
        other is None ==> (made_with matches Some(n) && !n.contains(':') && n != "CUSTOM"@),
    ensures
        r is Ok,
        q is Err,
        valid ==> (q matches Err(e) && e is WrongConfiguration),
        !valid ==> (q matches Err(e) && e is DataCorruption),
{
    if let Some(n) = made_with {
        if !n.contains(':') {
            lemma_untagged(n);
        }
    }
}

/// The digits of base64 are those that are safe in URLs, in their usual order.
pub proof fn law_base64_alphabet(d: int)
    requires
        0 <= d < 64,
    ensures
        digit64(d)
            == "ABCDEFGHIJKLMNOPQRSTUVWXYZabcdefghijklmnopqrstuvwxyz0123456789-_"@[d],
        value64(
            "ABCDEFGHIJKLMNOPQRSTUVWXYZabcdefghijklmnopqrstuvwxyz0123456789-_"@[d],
        ) == Some(d),
{
    reveal_strlit("ABCDEFGHIJKLMNOPQRSTUVWXYZabcdefghijklmnopqrstuvwxyz0123456789-_");
}

/// A codec without a name is taken where the object was made with such a codec, and only
/// there: the catalog has `CUSTOM`, alone or with a remark behind a colon.
pub proof fn law_custom_codec(
    stored: Seq<char>,
    remark: Seq<char>,
    valid: bool,
    r: Result<()>,
    q: Result<()>,
)
    requires
        verified(stored, None, valid, r),
        verified("CUSTOM:"@ + remark, None, valid, q),
    ensures
        q is Ok,
        stored == "CUSTOM"@ ==> r is Ok,
        r is Ok ==> stored == "CUSTOM"@ || stored == "CUSTOM:"@ + stored.skip(7),
{
    reveal_strlit("CUSTOM:");
    let c = "CUSTOM:"@ + remark;
    assert(begins(c, "CUSTOM:"@)) by {
        assert(c.take(7) =~= "CUSTOM:"@);
    }
    if begins(stored, "CUSTOM:"@) {
        assert(stored =~= "CUSTOM:"@ + stored.skip(7));
    }
}

/// Three bytes and their four digits are the same number in base 256 and in base 64; fewer
/// bytes at the end get zero bits behind them and no digit more than they need.
pub proof fn law_base64_bits(b: Seq<u8>, v: Seq<int>)
    requires
        v.len() == enc64(b).len(),
        forall|i: int| 0 <= i < v.len() ==> value64(#[trigger] enc64(b)[i]) == Some(v[i]),
    ensures
        b.len() == 0 ==> v.len() == 0,
        b.len() == 1 ==> v.len() == 2 && 64 * v[0] + v[1] == 16 * b[0],
        b.len() == 2 ==> v.len() == 3 && 4096 * v[0] + 64 * v[1] + v[2] == 4 * (256 * b[0] + b[1]),
        b.len() >= 3 ==> v.len() >= 4 && 262144 * v[0] + 4096 * v[1] + 64 * v[2] + v[3] == 65536
            * b[0] + 256 * b[1] + b[2] && enc64(b) == enc64(b.take(3)) + enc64(b.skip(3)),
{
    let s = enc64(b);
    if b.len() == 1 {
        let n = b[0] as int * 65536;
        lemma_numeral(n);
        lemma_digit(n / 262144);
        lemma_digit(n / 4096 % 64);
        assert(s == seq![digit64(n / 262144), digit64(n / 4096 % 64)]);
        assert(value64(s[0]) == Some(v[0]) && value64(s[1]) == Some(v[1]));
        assert(n / 4096 == 16 * b[0]);
    } else if b.len() == 2 {
        let n = b[0] as int * 65536 + b[1] as int * 256;
        lemma_numeral(n);
        lemma_digit(n / 262144);
        lemma_digit(n / 4096 % 64);
        lemma_digit(n / 64 % 64);
        assert(s == seq![digit64(n / 262144), digit64(n / 4096 % 64), digit64(n / 64 % 64)]);
        assert(value64(s[0]) == Some(v[0]) && value64(s[1]) == Some(v[1]) && value64(s[2]) == Some(
            v[2],
        ));
        assert(n / 64 == 4 * (256 * b[0] + b[1]));
    } else if b.len() >= 3 {
        let n = b[0] as int * 65536 + b[1] as int * 256 + b[2] as int;
        lemma_numeral(n);
        lemma_digit(n / 262144);
        lemma_digit(n / 4096 % 64);
        lemma_digit(n / 64 % 64);
        lemma_digit(n % 64);
        let d = seq![
            digit64(n / 262144),
            digit64(n / 4096 % 64),
            digit64(n / 64 % 64),
            digit64(n % 64),
        ];
        assert(s == d + enc64(b.skip(3)));
        assert(s[0] == d[0] && s[1] == d[1] && s[2] == d[2] && s[3] == d[3]);
        assert(value64(s[0]) == Some(v[0]) && value64(s[1]) == Some(v[1]) && value64(s[2]) == Some(
            v[2],
        ) && value64(s[3]) == Some(v[3]));
        let t = b.take(3);
        assert(t.skip(3) =~= Seq::<u8>::empty());
        assert(enc64(t.skip(3)) == Seq::<char>::empty());
        assert(enc64(t) == d + enc64(t.skip(3)));
        assert(enc64(t) =~= d);
    }
}

/// A digit has its own value.
#[verifier::spinoff_prover]
proof fn lemma_digit(d: int)
    requires
        0 <= d < 64,
    ensures
        value64(digit64(d)) == Some(d),
{
    law_base64_alphabet(d);
}

/// A number is the sum of its digits in base 64.
proof fn lemma_numeral(n: int)
    requires
        0 <= n < 16777216,
    ensures
        262144 * (n / 262144) + 4096 * (n / 4096 % 64) + 64 * (n / 64 % 64) + n % 64 == n,
        64 * (n / 262144) + n / 4096 % 64 == n / 4096,
        4096 * (n / 262144) + 64 * (n / 4096 % 64) + n / 64 % 64 == n / 64,
        0 <= n / 262144 < 64,
{
}

/// A single digit stands for no bytes, and neither does anything with another character
/// among its first digits; four digits stand for the three bytes of the same number.
pub proof fn law_base64_reading(s: Seq<char>, b: Seq<u8>, v: Seq<int>)
    requires
        dec64(s) == Some(b),
        s.len() >= 4 ==> v.len() == 4 && forall|i: int|
            0 <= i < 4 ==> value64(#[trigger] s[i]) == Some(v[i]) && 0 <= v[i] < 64,
    ensures
        s.len() != 1,
        forall|i: int| 0 <= i < s.len() && i < 4 ==> value64(#[trigger] s[i]) is Some,
        s.len() >= 4 ==> b.len() >= 3 && 262144 * v[0] + 4096 * v[1] + 64 * v[2] + v[3] == 65536
            * b[0] + 256 * b[1] + b[2] && dec64(s.skip(4)) == Some(b.skip(3)),
{
    if s.len() >= 4 {
        let (x, y, z, w) = (v[0], v[1], v[2], v[3]);
        assert(value64(s[0]) == Some(x) && value64(s[1]) == Some(y) && value64(s[2]) == Some(z)
            && value64(s[3]) == Some(w));
        let n = x * 262144 + y * 4096 + z * 64 + w;
        let rest = dec64(s.skip(4)).unwrap();
        let d = seq![(n / 65536) as u8, (n / 256 % 256) as u8, (n % 256) as u8];
        assert(b == d + rest);
        assert(b.skip(3) =~= rest);
        assert(b[0] == d[0] && b[1] == d[1] && b[2] == d[2]);
        lemma_bytes(n);
    }
}

/// A number is the sum of its digits in base 256.
proof fn lemma_bytes(n: int)
    requires
        0 <= n < 16777216,
    ensures
        65536 * (n / 65536) + 256 * (n / 256 % 256) + n % 256 == n,
        0 <= n / 65536 < 256,
{
}

} // verus!
