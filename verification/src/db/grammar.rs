//! How the descriptors of codecs that are built from others are put together.

use vstd::prelude::*;
use vstd::utf8::encode_utf8;
use crate::ser::{ObjectArrayFormat, Serializer};
use crate::text::{all_digits, begins, decimal, digits_value, level_of};
use super::descriptor::{
    builtin_group, builtin_ser, decoded, digit64, enc64, first_index, lemma_first_index,
    lemma_is_first, parts_ok, text64, valid_group, valid_ser, with_commas, ColumnType,
    ColumnarValueFormat, CompressionSerializer, GroupDescriptor, SerDescriptor, TupleComponent,
    TupleFormat,
};
use super::naming::{lemma_parts_snoc, lemma_text64};

verus! {

/// A compressing codec is named by its level and the codec within, an array of objects by
/// the codec of the objects, and tuples and tables by their parts in their order.
pub proof fn law_built_names<S: SerDescriptor, E: Serializer + SerDescriptor>(
    f: &CompressionSerializer<S>,
    g: &ObjectArrayFormat<E>,
    t: &TupleFormat,
    c: &ColumnarValueFormat,
)
    ensures
        f.inner().ser_name() is None ==> f.ser_name() is None,
        f.inner().ser_name() matches Some(n) ==> f.ser_name() == Some(
            "DEFLATE:"@ + (if f.degree() < 0 {
                "-"@ + decimal((-f.degree()) as nat)
            } else {
                decimal(f.degree() as nat)
            }) + ":"@ + enc64(encode_utf8(n)),
        ),
        g.element().ser_name() is None ==> g.group_name() is None,
        g.element().ser_name() matches Some(n) ==> g.group_name() == Some(
            "OBJECT_ARRAY:"@ + enc64(encode_utf8(n)),
        ),
        exists|names: Seq<Seq<char>>|
            names.len() == t.components().len() && t.group_name() == Some(
                "TUPLE:"@ + #[trigger] with_commas(names),
            ) && forall|i: int|
                0 <= i < names.len() ==> #[trigger] names[i] == match t.components()[i] {
                    TupleComponent::Int => "INT"@,
                    TupleComponent::Long => "LONG"@,
                    TupleComponent::Str => "STRING"@,
                    TupleComponent::Bytes => "BYTES"@,
                },
        exists|names: Seq<Seq<char>>|
            names.len() == c.shape().len() && c.group_name() == Some(
                "COLUMNAR:"@ + #[trigger] with_commas(names),
            ) && forall|i: int|
                0 <= i < names.len() ==> #[trigger] names[i] == match c.shape()[i] {
                    ColumnType::Long => "LONG"@,
                    ColumnType::Int => "INT"@,
                    ColumnType::Short => "SHORT"@,
                    ColumnType::Byte => "BYTE"@,
                },
{
    let a = t.components().map_values(|x: TupleComponent| super::descriptor::component_name(x));
    assert(t.group_name() == Some("TUPLE:"@ + with_commas(a)));
    let b = c.shape().map_values(|x: ColumnType| super::descriptor::column_name(x));
    assert(c.group_name() == Some("COLUMNAR:"@ + with_commas(b)));
}

/// Parts stand in their order with a comma between each two of them.
pub proof fn law_commas(names: Seq<Seq<char>>, last: Seq<char>)
    ensures
        with_commas(Seq::<Seq<char>>::empty()) == Seq::<char>::empty(),
        with_commas(seq![last]) == last,
        names.len() > 0 ==> with_commas(names.push(last)) == with_commas(names) + ","@ + last,
{
    assert(names.push(last).drop_last() =~= names);
}

/// The levels of compression go from minus one to nine.
pub proof fn law_levels(s: Seq<char>, n: nat)
    ensures
        level_of(s) matches Some(d) ==> -1 <= d <= 9,
        level_of(s) matches Some(d) ==> (d < 0 ==> s[0] == '-'),
        all_digits(s) && s[0] != '-' && s[0] != '+' && digits_value(s) == n ==> (level_of(s) is Some
            <==> n <= 9),
{
}

/// The descriptor of a compressing codec names a level that there is and a codec that a
/// catalog takes.
pub proof fn law_compression_descriptors(level: Seq<char>, n: Seq<char>)
    requires
        !level.contains(':'),
    ensures
        valid_ser("DEFLATE:"@ + level + ":"@ + text64(n)) <==> level_of(level) is Some && valid_ser(
            n,
        ),
{
    let p = "DEFLATE:"@;
    let t = level + ":"@ + text64(n);
    let s = p + level + ":"@ + text64(n);
    reveal_strlit(":");
    reveal_strlit("DEFLATE:");
    lemma_text64(n);
    assert(s =~= p + t);
    lemma_tagged(p, t);
    lemma_split(level, text64(n));
    assert(s[0] == 'D' && s[7] == ':');
    lemma_plain_ser(s);
    assert(!begins(s, "CUSTOM:"@) && !begins(s, "ARRAY:"@) && s != "CUSTOM"@) by {
        reveal_strlit("CUSTOM");
        reveal_strlit("CUSTOM:");
        reveal_strlit("ARRAY:");
        assert("CUSTOM:"@[0] == 'C' && "ARRAY:"@[0] == 'A' && "CUSTOM"@[0] == 'C');
        lemma_first_char(s, "CUSTOM:"@);
        lemma_first_char(s, "ARRAY:"@);
    }
}

/// The descriptor of an array of objects names a codec that a catalog takes, whatever its
/// other part says.
pub proof fn law_array_descriptors(other: Seq<char>, n: Seq<char>)
    ensures
        valid_ser("ARRAY:"@ + text64(other) + ":"@ + text64(n)) <==> valid_ser(n),
        valid_group("OBJECT_ARRAY:"@ + text64(n)) <==> valid_ser(n),
{
    lemma_text64(other);
    lemma_text64(n);
    lemma_digits_only(encode_utf8(other));
    lemma_array(text64(other), text64(n));
    lemma_object_array(text64(n));
}

#[verifier::spinoff_prover]
proof fn lemma_array(l: Seq<char>, r: Seq<char>)
    requires
        !l.contains(':'),
        decoded(l) is Some,
    ensures
        valid_ser("ARRAY:"@ + l + ":"@ + r) == (decoded(r) matches Some(n) && valid_ser(n)),
{
    let p = "ARRAY:"@;
    let t = l + ":"@ + r;
    let s = p + l + ":"@ + r;
    assert(p.len() == 6 && p[0] == 'A' && p[5] == ':') by {
        reveal_strlit("ARRAY:");
    }
    assert(s =~= p + t);
    lemma_tagged(p, t);
    lemma_split(l, r);
    assert(s[0] == 'A' && s[5] == ':');
    lemma_plain_ser(s);
    assert(!begins(s, "CUSTOM:"@) && !begins(s, "DEFLATE:"@) && s != "CUSTOM"@) by {
        reveal_strlit("CUSTOM");
        reveal_strlit("CUSTOM:");
        reveal_strlit("DEFLATE:");
        assert("CUSTOM:"@[0] == 'C' && "DEFLATE:"@[0] == 'D' && "CUSTOM"@[0] == 'C');
        lemma_first_char(s, "CUSTOM:"@);
        lemma_first_char(s, "DEFLATE:"@);
    }
}

#[verifier::spinoff_prover]
proof fn lemma_object_array(r: Seq<char>)
    ensures
        valid_group("OBJECT_ARRAY:"@ + r) == (decoded(r) matches Some(n) && valid_ser(n)),
{
    let q = "OBJECT_ARRAY:"@;
    let u = q + r;
    assert(q.len() == 13 && q[0] == 'O' && q[12] == ':') by {
        reveal_strlit("OBJECT_ARRAY:");
    }
    lemma_tagged(q, r);
    assert(u[0] == 'O' && u[12] == ':');
    lemma_plain_group(u);
    assert(!begins(u, "CUSTOM:"@) && !begins(u, "TUPLE:"@) && !begins(u, "COLUMNAR:"@) && u
        != "CUSTOM"@) by {
        reveal_strlit("CUSTOM");
        reveal_strlit("CUSTOM:");
        reveal_strlit("TUPLE:");
        reveal_strlit("COLUMNAR:");
        assert("CUSTOM:"@[0] == 'C' && "TUPLE:"@[0] == 'T' && "COLUMNAR:"@[0] == 'C'
            && "CUSTOM"@[0] == 'C');
        lemma_first_char(u, "CUSTOM:"@);
        lemma_first_char(u, "TUPLE:"@);
        lemma_first_char(u, "COLUMNAR:"@);
    }
}

/// A catalog takes a tuple part by part, and these are the parts; and so with a table.
pub proof fn law_parts_descriptors(a: Seq<char>, p: Seq<char>)
    requires
        !p.contains(','),
        a.len() > 0,
        p.len() > 0,
    ensures
        valid_group("TUPLE:"@ + p) <==> p == "INT"@ || p == "LONG"@ || p == "STRING"@ || p
            == "BYTES"@,
        valid_group("COLUMNAR:"@ + p) <==> p == "LONG"@ || p == "INT"@ || p == "SHORT"@ || p
            == "BYTE"@,
        valid_group("TUPLE:"@ + (a + ","@ + p)) <==> valid_group("TUPLE:"@ + a) && valid_group(
            "TUPLE:"@ + p,
        ),
        valid_group("COLUMNAR:"@ + (a + ","@ + p)) <==> valid_group("COLUMNAR:"@ + a)
            && valid_group("COLUMNAR:"@ + p),
{
    reveal_strlit(",");
    let x = a + ","@ + p;
    lemma_first_index(p, ',');
    lemma_parted(p);
    lemma_parted(a);
    lemma_parted(x);
    lemma_parts_snoc(a, p, true);
    lemma_parts_snoc(a, p, false);
}

proof fn lemma_parted(p: Seq<char>)
    requires
        p.len() > 0,
    ensures
        valid_group("TUPLE:"@ + p) == parts_ok(p, true),
        valid_group("COLUMNAR:"@ + p) == parts_ok(p, false),
{
    reveal_strlit("TUPLE:");
    reveal_strlit("COLUMNAR:");
    reveal_strlit("CUSTOM");
    reveal_strlit("CUSTOM:");
    reveal_strlit("OBJECT_ARRAY:");
    let t = "TUPLE:"@ + p;
    let c = "COLUMNAR:"@ + p;
    lemma_tagged("TUPLE:"@, p);
    lemma_tagged("COLUMNAR:"@, p);
    assert(t[0] == 'T' && t[5] == ':' && c[0] == 'C' && c[1] == 'O' && c[8] == ':');
    lemma_plain_group(t);
    lemma_plain_group(c);
    lemma_first_char(t, "CUSTOM:"@);
    lemma_first_char(t, "OBJECT_ARRAY:"@);
    lemma_first_char(t, "COLUMNAR:"@);
    lemma_first_char(c, "OBJECT_ARRAY:"@);
    lemma_first_char(c, "TUPLE:"@);
    assert("CUSTOM"@[0] == 'C' && "CUSTOM"@[1] == 'U' && "CUSTOM:"@[1] == 'U');
    if begins(c, "CUSTOM:"@) {
        assert(c.take(7)[1] == "CUSTOM:"@[1]);
    }
}

/// Behind its tag a descriptor goes on.
proof fn lemma_tagged(p: Seq<char>, t: Seq<char>)
    ensures
        begins(p + t, p),
        (p + t).skip(p.len() as int) == t,
{
    assert((p + t).take(p.len() as int) =~= p);
    assert((p + t).skip(p.len() as int) =~= t);
}

/// What stands before the first colon, and what behind it.
proof fn lemma_split(l: Seq<char>, r: Seq<char>)
    requires
        !l.contains(':'),
    ensures
        first_index(l + ":"@ + r, ':') == Some(l.len()),
        (l + ":"@ + r).take(l.len() as int) == l,
        (l + ":"@ + r).skip(l.len() as int + 1) == r,
{
    reveal_strlit(":");
    let t = l + ":"@ + r;
    assert forall|j: int| 0 <= j < l.len() implies t[j] != ':' by {
        assert(t[j] == l[j]);
        assert(l.contains(l[j]));
    }
    assert(t[l.len() as int] == ':');
    lemma_is_first(t, ':', l.len() as int);
    assert(t.take(l.len() as int) =~= l);
    assert(t.skip(l.len() as int + 1) =~= r);
}

proof fn lemma_first_char(s: Seq<char>, p: Seq<char>)
    requires
        s.len() > 0,
        p.len() > 0,
        s[0] != p[0],
    ensures
        !begins(s, p),
{
    if begins(s, p) {
        assert(s.take(p.len() as int)[0] == p[0]);
    }
}

/// Base64 has no colon.
proof fn lemma_digits_only(b: Seq<u8>)
    ensures
        !enc64(b).contains(':'),
    decreases b.len(),
{
    let s = enc64(b);
    assert forall|d: int| 0 <= d < 64 implies #[trigger] digit64(d) != ':' by {}
    assert forall|i: int| 0 <= i < s.len() implies s[i] != ':' by {
        if b.len() >= 3 {
            lemma_digits_only(b.skip(3));
            if i >= 4 {
                assert(s[i] == enc64(b.skip(3))[i - 4]);
                assert(enc64(b.skip(3)).contains(s[i]));
            } else {
                let n = b[0] as int * 65536 + b[1] as int * 256 + b[2] as int;
                assert(0 <= n < 16777216);
                assert(0 <= n / 262144 < 64);
            }
        } else if b.len() == 2 {
            let n = b[0] as int * 65536 + b[1] as int * 256;
            assert(0 <= n / 262144 < 64);
        } else if b.len() == 1 {
            let n = b[0] as int * 65536;
            assert(0 <= n / 262144 < 64);
        }
    }
}

/// The plain descriptors of element codecs have no colon.
#[verifier::spinoff_prover]
proof fn lemma_plain_ser(s: Seq<char>)
    requires
        s.contains(':'),
    ensures
        !builtin_ser(s),
{
    assert(!"LONG"@.contains(':')) by {
        reveal_strlit("LONG");
    }
    assert(!"INTEGER"@.contains(':')) by {
        reveal_strlit("INTEGER");
    }
    assert(!"SHORT"@.contains(':')) by {
        reveal_strlit("SHORT");
    }
    assert(!"CHAR"@.contains(':')) by {
        reveal_strlit("CHAR");
    }
    assert(!"UUID"@.contains(':')) by {
        reveal_strlit("UUID");
    }
    assert(!"STRING"@.contains(':')) by {
        reveal_strlit("STRING");
    }
    assert(!"BYTE_ARRAY"@.contains(':')) by {
        reveal_strlit("BYTE_ARRAY");
    }
    assert(!"BYTE_ARRAY_UNSIGNED"@.contains(':')) by {
        reveal_strlit("BYTE_ARRAY_UNSIGNED");
    }
    assert(!"BOOLEAN"@.contains(':')) by {
        reveal_strlit("BOOLEAN");
    }
    assert(!"BYTE"@.contains(':')) by {
        reveal_strlit("BYTE");
    }
    assert(!"FLOAT"@.contains(':')) by {
        reveal_strlit("FLOAT");
    }
    assert(!"DOUBLE"@.contains(':')) by {
        reveal_strlit("DOUBLE");
    }
    assert(!"INTEGER_PACKED"@.contains(':')) by {
        reveal_strlit("INTEGER_PACKED");
    }
    assert(!"LONG_PACKED"@.contains(':')) by {
        reveal_strlit("LONG_PACKED");
    }
    assert(!"BYTE_ARRAY_NOSIZE"@.contains(':')) by {
        reveal_strlit("BYTE_ARRAY_NOSIZE");
    }
    assert(!"STRING_NOSIZE"@.contains(':')) by {
        reveal_strlit("STRING_NOSIZE");
    }
    assert(!"STRING_ASCII"@.contains(':')) by {
        reveal_strlit("STRING_ASCII");
    }
    assert(!"STRING_INTERN"@.contains(':')) by {
        reveal_strlit("STRING_INTERN");
    }
    assert(!"RECID"@.contains(':')) by {
        reveal_strlit("RECID");
    }
    assert(!"RECID_ARRAY"@.contains(':')) by {
        reveal_strlit("RECID_ARRAY");
    }
    assert(!"BOOLEAN_ARRAY"@.contains(':')) by {
        reveal_strlit("BOOLEAN_ARRAY");
    }
    assert(!"CHAR_ARRAY"@.contains(':')) by {
        reveal_strlit("CHAR_ARRAY");
    }
    assert(!"SHORT_ARRAY"@.contains(':')) by {
        reveal_strlit("SHORT_ARRAY");
    }
    assert(!"INT_ARRAY"@.contains(':')) by {
        reveal_strlit("INT_ARRAY");
    }
    assert(!"LONG_ARRAY"@.contains(':')) by {
        reveal_strlit("LONG_ARRAY");
    }
    assert(!"FLOAT_ARRAY"@.contains(':')) by {
        reveal_strlit("FLOAT_ARRAY");
    }
    assert(!"DOUBLE_ARRAY"@.contains(':')) by {
        reveal_strlit("DOUBLE_ARRAY");
    }
    assert(!"BIG_INTEGER"@.contains(':')) by {
        reveal_strlit("BIG_INTEGER");
    }
    assert(!"BIG_DECIMAL"@.contains(':')) by {
        reveal_strlit("BIG_DECIMAL");
    }
    assert(!"DATE"@.contains(':')) by {
        reveal_strlit("DATE");
    }
    assert(!"CLASS"@.contains(':')) by {
        reveal_strlit("CLASS");
    }
    assert(!"JAVA"@.contains(':')) by {
        reveal_strlit("JAVA");
    }
}

/// The plain descriptors of group formats have no colon.
#[verifier::spinoff_prover]
proof fn lemma_plain_group(s: Seq<char>)
    requires
        s.contains(':'),
    ensures
        !builtin_group(s),
{
    assert(!"LONG"@.contains(':')) by {
        reveal_strlit("LONG");
    }
    assert(!"INT"@.contains(':')) by {
        reveal_strlit("INT");
    }
    assert(!"SHORT"@.contains(':')) by {
        reveal_strlit("SHORT");
    }
    assert(!"CHAR"@.contains(':')) by {
        reveal_strlit("CHAR");
    }
    assert(!"UUID"@.contains(':')) by {
        reveal_strlit("UUID");
    }
    assert(!"STRING"@.contains(':')) by {
        reveal_strlit("STRING");
    }
    assert(!"STRING_PREFIX"@.contains(':')) by {
        reveal_strlit("STRING_PREFIX");
    }
    assert(!"BYTE_ARRAY"@.contains(':')) by {
        reveal_strlit("BYTE_ARRAY");
    }
    assert(!"BYTE_ARRAY_PREFIX"@.contains(':')) by {
        reveal_strlit("BYTE_ARRAY_PREFIX");
    }
    assert(!"INT_DELTA"@.contains(':')) by {
        reveal_strlit("INT_DELTA");
    }
    assert(!"LONG_DELTA"@.contains(':')) by {
        reveal_strlit("LONG_DELTA");
    }
}

} // verus!
