//! Codec descriptors: the names under which codecs stand in the catalog.

use vstd::prelude::*;
use vstd::utf8::{decode_utf8, encode_utf8, valid_utf8};
use crate::error::{DbError, Result};
use crate::ser::{
    str_equal, string_from_utf8, BooleanSer, ByteArrayFormat, IntSer, LongFormat, ObjectArrayFormat,
    PackedSer, Serializer, StringSer,
};
use crate::text::{
    after_chars, ascii_chars, ascii_string, begins, begins_with, chars_of, decimal, is_level, joined,
    joined3, level_of, to_decimal,
};

verus! {

/// The descriptor of a codec that has no name of its own.
pub const CUSTOM: &'static str = "CUSTOM";

/// A group format that can name itself.
pub trait GroupDescriptor {
    /// The name; `None` for a custom codec.
    spec fn group_name(&self) -> Option<Seq<char>>;

    fn group_descriptor(&self) -> (r: Option<String>)
        ensures
            named(r) == self.group_name(),
    ;
}

/// An element codec that can name itself.
pub trait SerDescriptor {
    /// The name; `None` for a custom codec.
    spec fn ser_name(&self) -> Option<Seq<char>>;

    fn ser_descriptor(&self) -> (r: Option<String>)
        ensures
            named(r) == self.ser_name(),
    ;
}

pub open spec fn named(s: Option<String>) -> Option<Seq<char>> {
    match s {
        Some(x) => Some(x@),
        None => None,
    }
}

/// The name, or the mark of a custom codec.
pub open spec fn name_or_custom(n: Option<Seq<char>>) -> Seq<char> {
    match n {
        Some(x) => x,
        None => "CUSTOM"@,
    }
}

/// The descriptor that the catalog keeps for a group format.
pub fn group_descriptor_or_custom<F: GroupDescriptor>(f: &F) -> (r: String)
    ensures
        r@ == name_or_custom(f.group_name()),
{
    match f.group_descriptor() {
        Some(s) => s,
        None => String::from_str("CUSTOM"),
    }
}

/// The descriptor that the catalog keeps for an element codec.
pub fn ser_descriptor_or_custom<S: SerDescriptor>(s: &S) -> (r: String)
    ensures
        r@ == name_or_custom(s.ser_name()),
{
    match s.ser_descriptor() {
        Some(x) => x,
        None => String::from_str("CUSTOM"),
    }
}

/// `s` marks a custom codec.
pub open spec fn custom_marker(s: Seq<char>) -> bool {
    s == "CUSTOM"@ || begins(s, "CUSTOM:"@)
}

fn is_custom_marker(s: &str) -> (r: bool)
    ensures
        r == custom_marker(s@),
{
    str_equal(s, "CUSTOM") || begins_with(s, "CUSTOM:")
}

/// What holding a codec against the catalog answers.
pub open spec fn verified(
    stored: Seq<char>,
    supplied: Option<Seq<char>>,
    stored_valid: bool,
    r: Result<()>,
) -> bool {
    let fits = match supplied {
        Some(d) => d == stored,
        None => custom_marker(stored),
    };
    &&& fits ==> r is Ok
    &&& !fits && stored_valid ==> (r matches Err(e) && e is WrongConfiguration)
    &&& !fits && !stored_valid ==> (r matches Err(DbError::DataCorruption(c)) && c is Msg)
}

/// Holds a group format against the descriptor in the catalog.
pub fn verify_group<F: GroupDescriptor>(stored: &str, supplied: &F) -> (r: Result<()>)
    ensures
        verified(stored@, supplied.group_name(), valid_group(stored@), r),
{
    verify(stored, supplied.group_descriptor(), is_valid_group_descriptor(stored))
}

/// Holds an element codec against the descriptor in the catalog.
pub fn verify_ser<S: SerDescriptor>(stored: &str, supplied: &S) -> (r: Result<()>)
    ensures
        verified(stored@, supplied.ser_name(), valid_ser(stored@), r),
{
    verify(stored, supplied.ser_descriptor(), is_valid_ser_descriptor(stored))
}

/// A mismatch is a configuration error where the stored descriptor makes sense, and
/// corruption where it does not.
fn verify(stored: &str, supplied: Option<String>, stored_valid: bool) -> (r: Result<()>)
    ensures
        verified(stored@, named(supplied), stored_valid, r),
{
    match supplied {
        Some(d) => {
            if str_equal(d.as_str(), stored) {
                return Ok(());
            }
            if stored_valid {
                let mut m = joined3(
                    "codec descriptor mismatch: catalog has '",
                    stored,
                    "' but the supplied codec is '",
                );
                m.append(d.as_str());
                m.append("'");
                Err(DbError::wrong_config(m))
            } else {
                Err(DbError::corrupt_msg(
                    joined3("unknown/malformed stored codec descriptor '", stored, "'"),
                ))
            }
        },
        None => {
            if is_custom_marker(stored) {
                Ok(())
            } else if stored_valid {
                Err(DbError::wrong_config(
                    joined3(
                        "a custom codec was supplied but the catalog stored the known descriptor '",
                        stored,
                        "'; supply the codec used at create time",
                    ),
                ))
            } else {
                Err(DbError::corrupt_msg(
                    joined3("unknown/malformed stored codec descriptor '", stored, "'"),
                ))
            }
        },
    }
}

// ---------------------------------------------------------------- grammar

pub open spec fn builtin_group(s: Seq<char>) -> bool {
    s == "LONG"@ || s == "INT"@ || s == "SHORT"@ || s == "CHAR"@ || s == "UUID"@ || s == "STRING"@ || s
        == "STRING_PREFIX"@ || s == "BYTE_ARRAY"@ || s == "BYTE_ARRAY_PREFIX"@ || s == "INT_DELTA"@
        || s == "LONG_DELTA"@
}

pub open spec fn builtin_ser(s: Seq<char>) -> bool {
    s == "LONG"@ || s == "INTEGER"@ || s == "SHORT"@ || s == "CHAR"@ || s == "UUID"@ || s == "STRING"@
        || s == "BYTE_ARRAY"@ || s == "BYTE_ARRAY_UNSIGNED"@ || s == "BOOLEAN"@ || s == "BYTE"@ || s
        == "FLOAT"@ || s == "DOUBLE"@ || s == "INTEGER_PACKED"@ || s == "LONG_PACKED"@ || s
        == "BYTE_ARRAY_NOSIZE"@ || s == "STRING_NOSIZE"@ || s == "STRING_ASCII"@ || s
        == "STRING_INTERN"@ || s == "RECID"@ || s == "RECID_ARRAY"@ || s == "BOOLEAN_ARRAY"@ || s
        == "CHAR_ARRAY"@ || s == "SHORT_ARRAY"@ || s == "INT_ARRAY"@ || s == "LONG_ARRAY"@ || s
        == "FLOAT_ARRAY"@ || s == "DOUBLE_ARRAY"@ || s == "BIG_INTEGER"@ || s == "BIG_DECIMAL"@ || s
        == "DATE"@ || s == "CLASS"@ || s == "JAVA"@
}

pub open spec fn tuple_component(s: Seq<char>) -> bool {
    s == "INT"@ || s == "LONG"@ || s == "STRING"@ || s == "BYTES"@
}

pub open spec fn column_type(s: Seq<char>) -> bool {
    s == "LONG"@ || s == "INT"@ || s == "SHORT"@ || s == "BYTE"@
}

fn is_builtin_group(s: &str) -> (r: bool)
    ensures
        r == builtin_group(s@),
{
    str_equal(s, "LONG") || str_equal(s, "INT") || str_equal(s, "SHORT") || str_equal(s, "CHAR")
        || str_equal(s, "UUID") || str_equal(s, "STRING") || str_equal(s, "STRING_PREFIX")
        || str_equal(s, "BYTE_ARRAY") || str_equal(s, "BYTE_ARRAY_PREFIX") || str_equal(s, "INT_DELTA")
        || str_equal(s, "LONG_DELTA")
}

fn is_builtin_ser(s: &str) -> (r: bool)
    ensures
        r == builtin_ser(s@),
{
    str_equal(s, "LONG") || str_equal(s, "INTEGER") || str_equal(s, "SHORT") || str_equal(s, "CHAR")
        || str_equal(s, "UUID") || str_equal(s, "STRING") || str_equal(s, "BYTE_ARRAY") || str_equal(
        s,
        "BYTE_ARRAY_UNSIGNED",
    ) || str_equal(s, "BOOLEAN") || str_equal(s, "BYTE") || str_equal(s, "FLOAT") || str_equal(
        s,
        "DOUBLE",
    ) || str_equal(s, "INTEGER_PACKED") || str_equal(s, "LONG_PACKED") || str_equal(
        s,
        "BYTE_ARRAY_NOSIZE",
    ) || str_equal(s, "STRING_NOSIZE") || str_equal(s, "STRING_ASCII") || str_equal(
        s,
        "STRING_INTERN",
    ) || str_equal(s, "RECID") || str_equal(s, "RECID_ARRAY") || str_equal(s, "BOOLEAN_ARRAY")
        || str_equal(s, "CHAR_ARRAY") || str_equal(s, "SHORT_ARRAY") || str_equal(s, "INT_ARRAY")
        || str_equal(s, "LONG_ARRAY") || str_equal(s, "FLOAT_ARRAY") || str_equal(s, "DOUBLE_ARRAY")
        || str_equal(s, "BIG_INTEGER") || str_equal(s, "BIG_DECIMAL") || str_equal(s, "DATE")
        || str_equal(s, "CLASS") || str_equal(s, "JAVA")
}

/// Where `c` first occurs in `s`.
pub open spec fn first_index(s: Seq<char>, c: char) -> Option<nat>
    decreases s.len(),
{
    if s.len() == 0 {
        None
    } else if s[0] == c {
        Some(0)
    } else {
        match first_index(s.skip(1), c) {
            Some(i) => Some(i + 1),
            None => None,
        }
    }
}

pub proof fn lemma_first_index(s: Seq<char>, c: char)
    ensures
        match first_index(s, c) {
            Some(i) => i < s.len() && s[i as int] == c && !s.take(i as int).contains(c),
            None => !s.contains(c),
        },
    decreases s.len(),
{
    if s.len() > 0 && s[0] != c {
        lemma_first_index(s.skip(1), c);
        match first_index(s.skip(1), c) {
            Some(i) => {
                let t = s.take(i as int + 1);
                if t.contains(c) {
                    let j = choose|j: int| 0 <= j < t.len() && t[j] == c;
                    assert(s.skip(1).take(i as int)[j - 1] == c);
                }
            },
            None => {
                if s.contains(c) {
                    let j = choose|j: int| 0 <= j < s.len() && s[j] == c;
                    assert(s.skip(1)[j - 1] == c);
                }
            },
        }
    }
}

/// A place of `c` before which there is none is the first.
pub proof fn lemma_is_first(s: Seq<char>, c: char, i: int)
    requires
        0 <= i <= s.len(),
        forall|j: int| 0 <= j < i ==> s[j] != c,
        i < s.len() ==> s[i] == c,
    ensures
        first_index(s, c) == if i < s.len() {
            Some(i as nat)
        } else {
            None
        },
    decreases i,
{
    if i > 0 {
        lemma_is_first(s.skip(1), c, i - 1);
    }
}

/// Where a character first occurs.
pub fn find_char(s: &str, c: char) -> (r: Option<usize>)
    ensures
        match r {
            Some(i) => first_index(s@, c) == Some(i as nat) && i < s@.len() && i < usize::MAX,
            None => first_index(s@, c) is None,
        },
{
    let v = chars_of(s);
    let mut i: usize = 0;
    while i < v.len()
        invariant
            v@ == s@,
            i <= v@.len(),
            forall|j: int| 0 <= j < i ==> s@[j] != c,
        decreases v@.len() - i,
    {
        if v[i] == c {
            proof {
                lemma_is_first(s@, c, i as int);
            }
            return Some(i);
        }
        i = i + 1;
    }
    proof {
        lemma_is_first(s@, c, i as int);
    }
    None
}

/// Every part of `s` between commas is the name of a tuple component (or else, of a
/// column type).
pub open spec fn parts_ok(s: Seq<char>, tuple: bool) -> bool
    decreases s.len(),
    via parts_ok_shrinks
{
    match first_index(s, ',') {
        None => part_ok(s, tuple),
        Some(i) => part_ok(s.take(i as int), tuple) && parts_ok(s.skip(i as int + 1), tuple),
    }
}

#[via_fn]
proof fn parts_ok_shrinks(s: Seq<char>, tuple: bool) {
    lemma_first_index(s, ',');
}

pub open spec fn part_ok(s: Seq<char>, tuple: bool) -> bool {
    if tuple {
        tuple_component(s)
    } else {
        column_type(s)
    }
}

fn is_part(s: &str, tuple: bool) -> (r: bool)
    ensures
        r == part_ok(s@, tuple),
{
    if tuple {
        str_equal(s, "INT") || str_equal(s, "LONG") || str_equal(s, "STRING") || str_equal(s, "BYTES")
    } else {
        str_equal(s, "LONG") || str_equal(s, "INT") || str_equal(s, "SHORT") || str_equal(s, "BYTE")
    }
}

fn all_parts(s: &str, tuple: bool) -> (r: bool)
    ensures
        r == parts_ok(s@, tuple),
    decreases s@.len(),
{
    match find_char(s, ',') {
        None => is_part(s, tuple),
        Some(i) => {
            let head = s.substring_char(0, i);
            assert(head@ =~= s@.take(i as int));
            is_part(head, tuple) && all_parts(after_chars(s, i + 1), tuple)
        },
    }
}

/// The text that `s` holds in base64.
pub open spec fn decoded(s: Seq<char>) -> Option<Seq<char>> {
    match dec64(s) {
        Some(b) => if valid_utf8(b) {
            Some(decode_utf8(b))
        } else {
            None
        },
        None => None,
    }
}

/// `s` is a descriptor of an element codec.
pub open spec fn valid_ser(s: Seq<char>) -> bool
    decreases s.len(),
    via valid_ser_shrinks
{
    ||| builtin_ser(s)
    ||| custom_marker(s)
    ||| begins(s, "DEFLATE:"@) && {
        let t = s.skip("DEFLATE:"@.len() as int);
        match first_index(t, ':') {
            Some(i) => level_of(t.take(i as int)) is Some && match decoded(t.skip(i as int + 1)) {
                Some(n) => valid_ser(n),
                None => false,
            },
            None => false,
        }
    }
    ||| begins(s, "ARRAY:"@) && {
        let t = s.skip("ARRAY:"@.len() as int);
        match first_index(t, ':') {
            Some(i) => decoded(t.take(i as int)) is Some && match decoded(t.skip(i as int + 1)) {
                Some(n) => valid_ser(n),
                None => false,
            },
            None => false,
        }
    }
}

#[via_fn]
proof fn valid_ser_shrinks(s: Seq<char>) {
    let d = s.skip("DEFLATE:"@.len() as int);
    let a = s.skip("ARRAY:"@.len() as int);
    lemma_first_index(d, ':');
    lemma_first_index(a, ':');
    if let Some(i) = first_index(d, ':') {
        lemma_decoded_shorter(d.skip(i as int + 1));
    }
    if let Some(i) = first_index(a, ':') {
        lemma_decoded_shorter(a.skip(i as int + 1));
    }
}

/// `s` is a descriptor of a group format.
pub open spec fn valid_group(s: Seq<char>) -> bool {
    ||| builtin_group(s)
    ||| custom_marker(s)
    ||| begins(s, "OBJECT_ARRAY:"@) && match decoded(s.skip("OBJECT_ARRAY:"@.len() as int)) {
        Some(n) => valid_ser(n),
        None => false,
    }
    ||| begins(s, "TUPLE:"@) && s.len() > "TUPLE:"@.len() && parts_ok(
        s.skip("TUPLE:"@.len() as int),
        true,
    )
    ||| begins(s, "COLUMNAR:"@) && s.len() > "COLUMNAR:"@.len() && parts_ok(
        s.skip("COLUMNAR:"@.len() as int),
        false,
    )
}

/// Decoded text is not longer than the base64 form.
proof fn lemma_decoded_shorter(s: Seq<char>)
    ensures
        decoded(s) matches Some(t) ==> t.len() <= s.len(),
{
    lemma_dec64_len(s);
    if let Some(b) = dec64(s) {
        if valid_utf8(b) {
            vstd::utf8::decode_utf8_encode_utf8(b);
            lemma_utf8_len(decode_utf8(b));
        }
    }
}

proof fn lemma_dec64_len(s: Seq<char>)
    ensures
        dec64(s) matches Some(b) ==> b.len() <= s.len(),
    decreases s.len(),
{
    if s.len() >= 4 {
        lemma_dec64_len(s.skip(4));
    }
}

/// A text takes at least one byte for every character.
proof fn lemma_utf8_len(c: Seq<char>)
    ensures
        encode_utf8(c).len() >= c.len(),
    decreases c.len(),
{
    if c.len() > 0 {
        lemma_utf8_len(c.drop_first());
    }
}

/// Whether `s` is a descriptor of a group format.
pub fn is_valid_group_descriptor(s: &str) -> (r: bool)
    ensures
        r == valid_group(s@),
{
    if is_builtin_group(s) || is_custom_marker(s) {
        return true;
    }
    proof {
        reveal_strlit("OBJECT_ARRAY:");
        reveal_strlit("TUPLE:");
        reveal_strlit("COLUMNAR:");
    }
    if begins_with(s, "OBJECT_ARRAY:") {
        assert(s@[0] == 'O') by {
            assert(s@.take(13)[0] == "OBJECT_ARRAY:"@[0]);
        }
        assert(!begins(s@, "TUPLE:"@)) by {
            assert("TUPLE:"@[0] == 'T');
            if begins(s@, "TUPLE:"@) {
                assert(s@.take(6)[0] == "TUPLE:"@[0]);
            }
        }
        assert(!begins(s@, "COLUMNAR:"@)) by {
            if begins(s@, "COLUMNAR:"@) {
                assert(s@.take(9)[0] == "COLUMNAR:"@[0]);
            }
        }
        return match b64url_decode(after_chars(s, 13)) {
            Some(nested) => is_valid_ser_descriptor(nested.as_str()),
            None => false,
        };
    }
    if begins_with(s, "TUPLE:") {
        assert(!begins(s@, "COLUMNAR:"@)) by {
            assert(s@.take(6)[0] == "TUPLE:"@[0]);
            if begins(s@, "COLUMNAR:"@) {
                assert(s@.take(9)[0] == "COLUMNAR:"@[0]);
            }
        }
        let list = after_chars(s, 6);
        return list.unicode_len() > 0 && all_parts(list, true);
    }
    if begins_with(s, "COLUMNAR:") {
        let list = after_chars(s, 9);
        return list.unicode_len() > 0 && all_parts(list, false);
    }
    false
}

/// Whether `s` is a descriptor of an element codec.
pub fn is_valid_ser_descriptor(s: &str) -> (r: bool)
    ensures
        r == valid_ser(s@),
    decreases s@.len(),
{
    if is_builtin_ser(s) || is_custom_marker(s) {
        return true;
    }
    proof {
        reveal_strlit("DEFLATE:");
        reveal_strlit("ARRAY:");
    }
    if begins_with(s, "DEFLATE:") {
        assert(!begins(s@, "ARRAY:"@)) by {
            assert(s@.take(8)[0] == "DEFLATE:"@[0]);
            if begins(s@, "ARRAY:"@) {
                assert(s@.take(6)[0] == "ARRAY:"@[0]);
            }
        }
        let t = after_chars(s, 8);
        return match find_char(t, ':') {
            Some(i) => {
                let level = t.substring_char(0, i);
                assert(level@ =~= t@.take(i as int));
                let nested = after_chars(t, i + 1);
                proof {
                    lemma_decoded_shorter(nested@);
                }
                is_level(level) && match b64url_decode(nested) {
                    Some(n) => is_valid_ser_descriptor(n.as_str()),
                    None => false,
                }
            },
            None => false,
        };
    }
    if begins_with(s, "ARRAY:") {
        let t = after_chars(s, 6);
        return match find_char(t, ':') {
            Some(i) => {
                let component = t.substring_char(0, i);
                assert(component@ =~= t@.take(i as int));
                let nested = after_chars(t, i + 1);
                proof {
                    lemma_decoded_shorter(nested@);
                }
                b64url_decode(component).is_some() && match b64url_decode(nested) {
                    Some(n) => is_valid_ser_descriptor(n.as_str()),
                    None => false,
                }
            },
            None => false,
        };
    }
    false
}

// ---------------------------------------------------------------- base64

/// The character of a base64 digit, in the alphabet that is safe in URLs.
pub open spec fn digit64(d: int) -> char {
    if d < 26 {
        (d + 65) as u8 as char
    } else if d < 52 {
        (d + 71) as u8 as char
    } else if d < 62 {
        (d - 4) as u8 as char
    } else if d == 62 {
        '-'
    } else {
        '_'
    }
}

/// The value of a base64 digit.
pub open spec fn value64(c: char) -> Option<int> {
    if 'A' <= c <= 'Z' {
        Some(c as u32 - 65)
    } else if 'a' <= c <= 'z' {
        Some(c as u32 - 71)
    } else if '0' <= c <= '9' {
        Some(c as u32 + 4)
    } else if c == '-' {
        Some(62)
    } else if c == '_' {
        Some(63)
    } else {
        None
    }
}

/// Base64 without padding: three bytes make four digits.
pub open spec fn enc64(b: Seq<u8>) -> Seq<char>
    decreases b.len(),
{
    if b.len() == 0 {
        Seq::empty()
    } else if b.len() == 1 {
        let n = b[0] as int * 65536;
        seq![digit64(n / 262144), digit64(n / 4096 % 64)]
    } else if b.len() == 2 {
        let n = b[0] as int * 65536 + b[1] as int * 256;
        seq![digit64(n / 262144), digit64(n / 4096 % 64), digit64(n / 64 % 64)]
    } else {
        let n = b[0] as int * 65536 + b[1] as int * 256 + b[2] as int;
        seq![digit64(n / 262144), digit64(n / 4096 % 64), digit64(n / 64 % 64), digit64(n % 64)]
            + enc64(b.skip(3))
    }
}

/// The bytes that base64 digits stand for.
pub open spec fn dec64(s: Seq<char>) -> Option<Seq<u8>>
    decreases s.len(),
{
    if s.len() == 0 {
        Some(Seq::empty())
    } else if s.len() == 1 {
        None
    } else {
        match (value64(s[0]), value64(s[1])) {
            (Some(x), Some(y)) => {
                let n = x * 262144 + y * 4096;
                if s.len() == 2 {
                    Some(seq![(n / 65536) as u8])
                } else {
                    match value64(s[2]) {
                        Some(z) => {
                            let n = n + z * 64;
                            if s.len() == 3 {
                                Some(seq![(n / 65536) as u8, (n / 256 % 256) as u8])
                            } else {
                                match (value64(s[3]), dec64(s.skip(4))) {
                                    (Some(w), Some(rest)) => {
                                        let n = n + w;
                                        Some(
                                            seq![
                                                (n / 65536) as u8,
                                                (n / 256 % 256) as u8,
                                                (n % 256) as u8,
                                            ] + rest,
                                        )
                                    },
                                    _ => None,
                                }
                            }
                        },
                        None => None,
                    }
                }
            },
            _ => None,
        }
    }
}

pub proof fn lemma_digit64(d: int)
    requires
        0 <= d < 64,
    ensures
        value64(digit64(d)) == Some(d),
{
}

/// Three bytes are four digits of 64, and back.
proof fn lemma_three_bytes(b0: u8, b1: u8, b2: u8)
    ensures
        ({
            let n = b0 as int * 65536 + b1 as int * 256 + b2 as int;
            &&& 0 <= n / 262144 < 64
            &&& 0 <= n / 4096 % 64 < 64
            &&& 0 <= n / 64 % 64 < 64
            &&& 0 <= n % 64 < 64
            &&& (n / 262144) * 262144 + (n / 4096 % 64) * 4096 + (n / 64 % 64) * 64 + n % 64 == n
            &&& n / 65536 == b0
            &&& n / 256 % 256 == b1
            &&& n % 256 == b2
        }),
{
    let n = b0 as int * 65536 + b1 as int * 256 + b2 as int;
    let (p, q) = (b0 as int / 4, b0 as int % 4);
    let (r, t) = (b1 as int / 16, b1 as int % 16);
    let (u, w) = (b2 as int / 64, b2 as int % 64);
    let y = q * 16 + r;
    let z = t * 4 + u;
    assert(0 <= p < 64 && 0 <= y < 64 && 0 <= z < 64 && 0 <= w < 64);
    assert(n == p * 262144 + y * 4096 + z * 64 + w);
    lemma_quotient(n, 64, p * 4096 + y * 64 + z, w);
    lemma_quotient(n, 4096, p * 64 + y, z * 64 + w);
    lemma_quotient(n, 262144, p, y * 4096 + z * 64 + w);
    lemma_quotient(p * 4096 + y * 64 + z, 64, p * 64 + y, z);
    lemma_quotient(p * 64 + y, 64, p, y);
    lemma_quotient(n, 65536, b0 as int, b1 as int * 256 + b2 as int);
    lemma_quotient(n, 256, b0 as int * 256 + b1 as int, b2 as int);
    lemma_quotient(b0 as int * 256 + b1 as int, 256, b0 as int, b1 as int);
}

proof fn lemma_quotient(n: int, d: int, q: int, r: int)
    requires
        d > 0,
        n == q * d + r,
        0 <= r < d,
    ensures
        n / d == q,
        n % d == r,
{
    vstd::arithmetic::div_mod::lemma_fundamental_div_mod_converse(n, d, q, r);
}

/// Decoding digits, two, three or four at a time.
proof fn lemma_dec_digits(x: int, y: int, z: int, w: int, t: Seq<char>)
    requires
        0 <= x < 64,
        0 <= y < 64,
        0 <= z < 64,
        0 <= w < 64,
    ensures
        ({
            let n = x * 262144 + y * 4096;
            dec64(seq![digit64(x), digit64(y)]) == Some(seq![(n / 65536) as u8])
        }),
        ({
            let n = x * 262144 + y * 4096 + z * 64;
            dec64(seq![digit64(x), digit64(y), digit64(z)]) == Some(
                seq![(n / 65536) as u8, (n / 256 % 256) as u8],
            )
        }),
        ({
            let n = x * 262144 + y * 4096 + z * 64 + w;
            dec64(t) matches Some(r) ==> dec64(
                seq![digit64(x), digit64(y), digit64(z), digit64(w)] + t,
            ) == Some(seq![(n / 65536) as u8, (n / 256 % 256) as u8, (n % 256) as u8] + r)
        }),
{
    lemma_digit64(x);
    lemma_digit64(y);
    lemma_digit64(z);
    lemma_digit64(w);
    let s = seq![digit64(x), digit64(y), digit64(z), digit64(w)] + t;
    assert(s.skip(4) =~= t);
}

/// Decoding base64 gives back the bytes that were encoded.
#[verifier::spinoff_prover]
#[verifier::rlimit(80)]
pub proof fn law_base64_round_trip(b: Seq<u8>)
    ensures
        dec64(enc64(b)) == Some(b),
    decreases b.len(),
{
    if b.len() == 0 {
        assert(b =~= Seq::empty());
    } else {
        let b1 = if b.len() > 1 {
            b[1]
        } else {
            0
        };
        let b2 = if b.len() > 2 {
            b[2]
        } else {
            0
        };
        let n = b[0] as int * 65536 + b1 as int * 256 + b2 as int;
        lemma_three_bytes(b[0], b1, b2);
        let t = if b.len() > 2 {
            enc64(b.skip(3))
        } else {
            Seq::empty()
        };
        if b.len() > 2 {
            law_base64_round_trip(b.skip(3));
        }
        lemma_dec_digits(n / 262144, n / 4096 % 64, n / 64 % 64, n % 64, t);
        if b.len() == 1 {
            assert(n / 64 % 64 == 0 && n % 64 == 0);
            assert(b =~= seq![b[0]]);
        } else if b.len() == 2 {
            assert(n % 64 == 0);
            assert(b =~= seq![b[0], b[1]]);
        } else {
            assert(b =~= seq![b[0], b[1], b[2]] + b.skip(3));
        }
    }
}

fn digit_byte(d: u32) -> (r: u8)
    requires
        d < 64,
    ensures
        r < 128,
        r as char == digit64(d as int),
{
    if d < 26 {
        (d + 65) as u8
    } else if d < 52 {
        (d + 71) as u8
    } else if d < 62 {
        (d - 4) as u8
    } else if d == 62 {
        45
    } else {
        95
    }
}

fn digit_value(c: char) -> (r: Option<u32>)
    ensures
        match r {
            Some(v) => value64(c) == Some(v as int) && v < 64,
            None => value64(c) is None,
        },
{
    if c >= 'A' && c <= 'Z' {
        Some(c as u32 - 65)
    } else if c >= 'a' && c <= 'z' {
        Some(c as u32 - 71)
    } else if c >= '0' && c <= '9' {
        Some(c as u32 + 4)
    } else if c == '-' {
        Some(62)
    } else if c == '_' {
        Some(63)
    } else {
        None
    }
}

/// Base64 for URLs, without padding.
pub fn b64url_encode(data: &[u8]) -> (r: String)
    ensures
        r@ == enc64(data@),
{
    let mut out: Vec<u8> = Vec::new();
    let mut i: usize = 0;
    let len: usize = data.len();
    proof {
        assert(data@.skip(0) =~= data@);
        assert(ascii_chars(out@) + enc64(data@.skip(0)) =~= enc64(data@));
    }
    while i < len
        invariant
            i <= len,
            len == data@.len(),
            forall|j: int| 0 <= j < out@.len() ==> #[trigger] out@[j] < 128,
            ascii_chars(out@) + enc64(data@.skip(i as int)) == enc64(data@),
        decreases len - i,
    {
        let ghost before = ascii_chars(out@);
        let ghost d = data@.skip(i as int);
        let left: usize = len - i;
        let b0: u32 = data[i] as u32;
        let b1: u32 = if left > 1 {
            data[i + 1] as u32
        } else {
            0
        };
        let b2: u32 = if left > 2 {
            data[i + 2] as u32
        } else {
            0
        };
        let n: u32 = b0 * 65536 + b1 * 256 + b2;
        out.push(digit_byte(n / 262144));
        out.push(digit_byte(n / 4096 % 64));
        if left > 1 {
            out.push(digit_byte(n / 64 % 64));
        }
        if left > 2 {
            out.push(digit_byte(n % 64));
        }
        let step: usize = if left > 2 {
            3
        } else {
            left
        };
        proof {
            let m = n as int;
            assert(data@.skip((i + step) as int) =~= d.skip(step as int));
            if left > 2 {
                assert(ascii_chars(out@) =~= before + seq![
                    digit64(m / 262144),
                    digit64(m / 4096 % 64),
                    digit64(m / 64 % 64),
                    digit64(m % 64),
                ]);
                assert(enc64(d) == seq![
                    digit64(m / 262144),
                    digit64(m / 4096 % 64),
                    digit64(m / 64 % 64),
                    digit64(m % 64),
                ] + enc64(d.skip(3)));
            } else if left == 2 {
                assert(ascii_chars(out@) =~= before + seq![
                    digit64(m / 262144),
                    digit64(m / 4096 % 64),
                    digit64(m / 64 % 64),
                ]);
                assert(d.skip(2) =~= Seq::empty());
            } else {
                assert(ascii_chars(out@) =~= before + seq![
                    digit64(m / 262144),
                    digit64(m / 4096 % 64),
                ]);
                assert(d.skip(1) =~= Seq::empty());
            }
            assert(ascii_chars(out@) + enc64(d.skip(step as int)) =~= before + enc64(d));
        }
        i = i + step;
    }
    let ghost o = out@;
    proof {
        assert(data@.skip(i as int) =~= Seq::empty());
        assert(ascii_chars(o) =~= enc64(data@));
    }
    ascii_string(out)
}

/// The text that `s` holds in base64 for URLs.
pub fn b64url_decode(s: &str) -> (r: Option<String>)
    ensures
        named(r) == decoded(s@),
{
    let v = chars_of(s);
    let len: usize = v.len();
    let mut out: Vec<u8> = Vec::new();
    let mut i: usize = 0;
    proof {
        assert(s@.skip(0) =~= s@);
        lemma_follows_start(s@);
    }
    while i < len
        invariant
            i <= len,
            v@ == s@,
            len == v@.len(),
            follows(dec64(s@), out@, dec64(s@.skip(i as int))),
        decreases len - i,
    {
        let ghost d = s@.skip(i as int);
        let ghost before = out@;
        let left: usize = len - i;
        if left == 1 {
            return None;
        }
        let x: u32 = match digit_value(v[i]) {
            Some(x) => x,
            None => {
                return None;
            },
        };
        let y: u32 = match digit_value(v[i + 1]) {
            Some(x) => x,
            None => {
                return None;
            },
        };
        let z: u32 = if left > 2 {
            match digit_value(v[i + 2]) {
                Some(x) => x,
                None => {
                    return None;
                },
            }
        } else {
            0
        };
        let w: u32 = if left > 3 {
            match digit_value(v[i + 3]) {
                Some(x) => x,
                None => {
                    return None;
                },
            }
        } else {
            0
        };
        let n: u32 = x * 262144 + y * 4096 + z * 64 + w;
        out.push((n / 65536) as u8);
        if left > 2 {
            out.push((n / 256 % 256) as u8);
        }
        if left > 3 {
            out.push((n % 256) as u8);
        }
        let step: usize = if left > 3 {
            4
        } else {
            left
        };
        proof {
            assert(s@.skip((i + step) as int) =~= d.skip(step as int));
            let m = n as int;
            if left > 3 {
                let part = seq![(m / 65536) as u8, (m / 256 % 256) as u8, (m % 256) as u8];
                assert(out@ =~= before + part);
                if let Some(t) = dec64(d.skip(4)) {
                    assert(dec64(d) == Some(part + t));
                    assert(before + (part + t) =~= out@ + t);
                }
            } else {
                assert(d.skip(step as int) =~= Seq::empty());
                if left == 3 {
                    assert(out@ =~= before + seq![(m / 65536) as u8, (m / 256 % 256) as u8]);
                } else {
                    assert(out@ =~= before + seq![(m / 65536) as u8]);
                }
                assert(out@ + Seq::<u8>::empty() =~= out@);
            }
        }
        i = i + step;
    }
    proof {
        assert(s@.skip(i as int) =~= Seq::empty());
        assert(out@ + Seq::<u8>::empty() =~= out@);
    }
    let ghost b = out@;
    let r = string_from_utf8(out);
    proof {
        if r is Some {
            vstd::utf8::encode_utf8_decode_utf8(r.unwrap()@);
        }
    }
    r
}

/// `all` is `head` and then what `tail` holds.
pub open spec fn follows(all: Option<Seq<u8>>, head: Seq<u8>, tail: Option<Seq<u8>>) -> bool {
    all == match tail {
        Some(t) => Some(head + t),
        None => None,
    }
}

proof fn lemma_follows_start(s: Seq<char>)
    ensures
        follows(dec64(s), Seq::empty(), dec64(s)),
{
    if let Some(t) = dec64(s) {
        assert(Seq::<u8>::empty() + t =~= t);
    }
}

// ---------------------------------------------------------------- names of codecs

impl SerDescriptor for LongFormat {
    open spec fn ser_name(&self) -> Option<Seq<char>> {
        Some("LONG"@)
    }

    fn ser_descriptor(&self) -> Option<String> {
        Some(String::from_str("LONG"))
    }
}

impl SerDescriptor for IntSer {
    open spec fn ser_name(&self) -> Option<Seq<char>> {
        Some("INTEGER"@)
    }

    fn ser_descriptor(&self) -> Option<String> {
        Some(String::from_str("INTEGER"))
    }
}

impl SerDescriptor for PackedSer {
    open spec fn ser_name(&self) -> Option<Seq<char>> {
        Some("LONG_PACKED"@)
    }

    fn ser_descriptor(&self) -> Option<String> {
        Some(String::from_str("LONG_PACKED"))
    }
}

impl SerDescriptor for BooleanSer {
    open spec fn ser_name(&self) -> Option<Seq<char>> {
        Some("BOOLEAN"@)
    }

    fn ser_descriptor(&self) -> Option<String> {
        Some(String::from_str("BOOLEAN"))
    }
}

impl SerDescriptor for StringSer {
    open spec fn ser_name(&self) -> Option<Seq<char>> {
        Some("STRING"@)
    }

    fn ser_descriptor(&self) -> Option<String> {
        Some(String::from_str("STRING"))
    }
}

impl SerDescriptor for ByteArrayFormat {
    open spec fn ser_name(&self) -> Option<Seq<char>> {
        Some("BYTE_ARRAY"@)
    }

    fn ser_descriptor(&self) -> Option<String> {
        Some(String::from_str("BYTE_ARRAY"))
    }
}

impl GroupDescriptor for LongFormat {
    open spec fn group_name(&self) -> Option<Seq<char>> {
        Some("LONG"@)
    }

    fn group_descriptor(&self) -> Option<String> {
        Some(String::from_str("LONG"))
    }
}

impl GroupDescriptor for IntSer {
    open spec fn group_name(&self) -> Option<Seq<char>> {
        Some("INT"@)
    }

    fn group_descriptor(&self) -> Option<String> {
        Some(String::from_str("INT"))
    }
}

impl GroupDescriptor for StringSer {
    open spec fn group_name(&self) -> Option<Seq<char>> {
        Some("STRING"@)
    }

    fn group_descriptor(&self) -> Option<String> {
        Some(String::from_str("STRING"))
    }
}

impl GroupDescriptor for ByteArrayFormat {
    open spec fn group_name(&self) -> Option<Seq<char>> {
        Some("BYTE_ARRAY"@)
    }

    fn group_descriptor(&self) -> Option<String> {
        Some(String::from_str("BYTE_ARRAY"))
    }
}

/// The bytes of a text in base64.
pub open spec fn text64(s: Seq<char>) -> Seq<char> {
    enc64(encode_utf8(s))
}

/// The name of an object array is `OBJECT_ARRAY:` and the name of its elements'
/// codec in base64.
impl<S: Serializer + SerDescriptor> GroupDescriptor for ObjectArrayFormat<S> {
    open spec fn group_name(&self) -> Option<Seq<char>> {
        match self.element().ser_name() {
            Some(n) => Some("OBJECT_ARRAY:"@ + text64(n)),
            None => None,
        }
    }

    fn group_descriptor(&self) -> Option<String> {
        match self.element_serializer().ser_descriptor() {
            Some(n) => {
                let b = b64url_encode(n.as_str().as_bytes());
                Some(joined("OBJECT_ARRAY:", b.as_str()))
            },
            None => None,
        }
    }
}

/// The name of a codec that compresses what another one writes.
#[derive(Clone, Copy, Debug)]
pub struct CompressionSerializer<S> {
    delegate: S,
    level: i32,
}

/// A number with its sign.
pub open spec fn signed_decimal(n: int) -> Seq<char> {
    if n < 0 {
        "-"@ + decimal((-n) as nat)
    } else {
        decimal(n as nat)
    }
}

impl<S: SerDescriptor> CompressionSerializer<S> {
    pub closed spec fn inner(&self) -> S {
        self.delegate
    }

    pub closed spec fn degree(&self) -> i32 {
        self.level
    }

    pub fn with_level(delegate: S, level: i32) -> (r: Self)
        ensures
            r.inner() == delegate,
            r.degree() == level,
    {
        CompressionSerializer { delegate, level }
    }

    pub fn delegate(&self) -> (r: &S)
        ensures
            *r == self.inner(),
    {
        &self.delegate
    }

    pub fn level(&self) -> (r: i32)
        ensures
            r == self.degree(),
    {
        self.level
    }
}

/// The name is `DEFLATE:`, the level, and the name of the inner codec in base64.
impl<S: SerDescriptor> SerDescriptor for CompressionSerializer<S> {
    open spec fn ser_name(&self) -> Option<Seq<char>> {
        match self.inner().ser_name() {
            Some(n) => Some(
                "DEFLATE:"@ + signed_decimal(self.degree() as int) + ":"@ + text64(n),
            ),
            None => None,
        }
    }

    fn ser_descriptor(&self) -> Option<String> {
        match self.delegate.ser_descriptor() {
            Some(n) => {
                let mut s = String::from_str("DEFLATE:");
                let ghost head = s@;
                if self.level < 0 {
                    s.append("-");
                    s.append(to_decimal((-(self.level as i64)) as u64).as_str());
                } else {
                    s.append(to_decimal(self.level as u64).as_str());
                }
                assert(s@ =~= head + signed_decimal(self.level as int));
                s.append(":");
                s.append(b64url_encode(n.as_str().as_bytes()).as_str());
                Some(s)
            },
            None => None,
        }
    }
}

/// A part of a tuple.
#[derive(Clone, Copy, Debug)]
pub enum TupleComponent {
    Int,
    Long,
    Str,
    Bytes,
}

/// A column of a table of numbers.
#[derive(Clone, Copy, Debug)]
pub enum ColumnType {
    Long,
    Int,
    Short,
    Byte,
}

pub open spec fn component_name(c: TupleComponent) -> Seq<char> {
    match c {
        TupleComponent::Int => "INT"@,
        TupleComponent::Long => "LONG"@,
        TupleComponent::Str => "STRING"@,
        TupleComponent::Bytes => "BYTES"@,
    }
}

pub open spec fn column_name(c: ColumnType) -> Seq<char> {
    match c {
        ColumnType::Long => "LONG"@,
        ColumnType::Int => "INT"@,
        ColumnType::Short => "SHORT"@,
        ColumnType::Byte => "BYTE"@,
    }
}

fn tuple_component_name(c: TupleComponent) -> (r: &'static str)
    ensures
        r@ == component_name(c),
{
    match c {
        TupleComponent::Int => "INT",
        TupleComponent::Long => "LONG",
        TupleComponent::Str => "STRING",
        TupleComponent::Bytes => "BYTES",
    }
}

fn column_type_name(c: ColumnType) -> (r: &'static str)
    ensures
        r@ == column_name(c),
{
    match c {
        ColumnType::Long => "LONG",
        ColumnType::Int => "INT",
        ColumnType::Short => "SHORT",
        ColumnType::Byte => "BYTE",
    }
}

/// Texts with commas between them.
pub open spec fn with_commas(s: Seq<Seq<char>>) -> Seq<char>
    decreases s.len(),
{
    if s.len() == 0 {
        Seq::empty()
    } else if s.len() == 1 {
        s[0]
    } else {
        with_commas(s.drop_last()) + ","@ + s.last()
    }
}

/// The shape of tuples.
#[derive(Clone, Debug)]
pub struct TupleFormat {
    schema: Vec<TupleComponent>,
}

impl TupleFormat {
    pub closed spec fn components(&self) -> Seq<TupleComponent> {
        self.schema@
    }

    pub fn of(schema: Vec<TupleComponent>) -> (r: Self)
        ensures
            r.components() == schema@,
    {
        TupleFormat { schema }
    }
}

impl GroupDescriptor for TupleFormat {
    open spec fn group_name(&self) -> Option<Seq<char>> {
        Some(
            "TUPLE:"@ + with_commas(
                self.components().map_values(|c: TupleComponent| component_name(c)),
            ),
        )
    }

    fn group_descriptor(&self) -> Option<String> {
        let mut s = String::from_str("TUPLE:");
        let ghost names = self.components().map_values(|c: TupleComponent| component_name(c));
        let n: usize = self.schema.len();
        let mut i: usize = 0;
        proof {
            assert(names.take(0) =~= Seq::empty());
            assert(s@ =~= "TUPLE:"@ + with_commas(names.take(0)));
        }
        while i < n
            invariant
                i <= n,
                n == self.schema@.len(),
                names == self.components().map_values(|c: TupleComponent| component_name(c)),
                s@ == "TUPLE:"@ + with_commas(names.take(i as int)),
            decreases n - i,
        {
            if i > 0 {
                s.append(",");
            }
            s.append(tuple_component_name(self.schema[i]));
            proof {
                lemma_one_more(names, i as int);
                assert(s@ =~= "TUPLE:"@ + with_commas(names.take(i + 1)));
            }
            i = i + 1;
        }
        assert(names.take(n as int) =~= names);
        Some(s)
    }
}

proof fn lemma_one_more(s: Seq<Seq<char>>, i: int)
    requires
        0 <= i < s.len(),
    ensures
        i == 0 ==> with_commas(s.take(i)) == Seq::<char>::empty() && with_commas(s.take(i + 1))
            == s[i],
        i > 0 ==> with_commas(s.take(i + 1)) == with_commas(s.take(i)) + ","@ + s[i],
{
    let t = s.take(i + 1);
    assert(t.drop_last() =~= s.take(i));
    assert(t.last() == s[i]);
}

/// The shape of tables of numbers.
#[derive(Clone, Debug)]
pub struct ColumnarValueFormat {
    columns: Vec<ColumnType>,
}

impl ColumnarValueFormat {
    pub closed spec fn shape(&self) -> Seq<ColumnType> {
        self.columns@
    }

    pub fn of(columns: Vec<ColumnType>) -> (r: Self)
        ensures
            r.shape() == columns@,
    {
        ColumnarValueFormat { columns }
    }
}

impl GroupDescriptor for ColumnarValueFormat {
    open spec fn group_name(&self) -> Option<Seq<char>> {
        Some(
            "COLUMNAR:"@ + with_commas(self.shape().map_values(|c: ColumnType| column_name(c))),
        )
    }

    fn group_descriptor(&self) -> Option<String> {
        let mut s = String::from_str("COLUMNAR:");
        let ghost names = self.shape().map_values(|c: ColumnType| column_name(c));
        let n: usize = self.columns.len();
        let mut i: usize = 0;
        proof {
            assert(names.take(0) =~= Seq::empty());
            assert(s@ =~= "COLUMNAR:"@ + with_commas(names.take(0)));
        }
        while i < n
            invariant
                i <= n,
                n == self.columns@.len(),
                names == self.shape().map_values(|c: ColumnType| column_name(c)),
                s@ == "COLUMNAR:"@ + with_commas(names.take(i as int)),
            decreases n - i,
        {
            if i > 0 {
                s.append(",");
            }
            s.append(column_type_name(self.columns[i]));
            proof {
                lemma_one_more(names, i as int);
                assert(s@ =~= "COLUMNAR:"@ + with_commas(names.take(i + 1)));
            }
            i = i + 1;
        }
        assert(names.take(n as int) =~= names);
        Some(s)
    }
}

} // verus!
