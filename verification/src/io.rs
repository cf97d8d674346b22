//! Byte-level writing and reading.
//!
//! - multi-byte integers are big-endian;
//! - a packed long holds seven bits per byte, most significant group first, and
//!   its last byte carries the bit `0x80`.
//!
//! Every read is bounds-checked and reports corruption on overrun.

use vstd::prelude::*;
use crate::error::{DbError, Result};

verus! {

// ---------------------------------------------------------------- formats

/// `256^n`.
pub open spec fn pow256(n: nat) -> nat
    decreases n,
{
    if n == 0 {
        1
    } else {
        256 * pow256((n - 1) as nat)
    }
}

/// `128^n`.
pub open spec fn pow128(n: nat) -> nat
    decreases n,
{
    if n == 0 {
        1
    } else {
        128 * pow128((n - 1) as nat)
    }
}

/// The low `n` bytes of `v`, most significant first.
pub open spec fn be_bytes(v: nat, n: nat) -> Seq<u8>
    decreases n,
{
    if n == 0 {
        Seq::empty()
    } else {
        be_bytes(v / 256, (n - 1) as nat).push((v % 256) as u8)
    }
}

/// The number whose base-256 digits are `s`.
pub open spec fn be_value(s: Seq<u8>) -> nat
    decreases s.len(),
{
    if s.len() == 0 {
        0
    } else {
        be_value(s.drop_last()) * 256 + s.last() as nat
    }
}

/// The base-128 digits of `v`, most significant first; none for zero.
pub open spec fn groups(v: nat) -> Seq<u8>
    decreases v,
{
    if v == 0 {
        Seq::empty()
    } else {
        groups(v / 128).push((v % 128) as u8)
    }
}

/// The packed form of `v`.
pub open spec fn packed(v: nat) -> Seq<u8> {
    groups(v / 128).push((v % 128 + 128) as u8)
}

/// The number whose base-128 digits are the low seven bits of each byte of `s`.
pub open spec fn group_value(s: Seq<u8>) -> nat
    decreases s.len(),
{
    if s.len() == 0 {
        0
    } else {
        group_value(s.drop_last()) * 128 + (s.last() % 128) as nat
    }
}

/// How many bytes at the start of `s` make up one packed number of at most `max`
/// bytes: up to and with the first byte that has the bit `0x80`.
pub open spec fn varint_len(s: Seq<u8>, max: nat) -> Option<nat>
    decreases max,
{
    if max == 0 || s.len() == 0 {
        None
    } else if s[0] >= 128 {
        Some(1)
    } else {
        match varint_len(s.skip(1), (max - 1) as nat) {
            Some(n) => Some(n + 1),
            None => None,
        }
    }
}

/// The packed number of at most `max` bytes at the start of `s`, reduced to 64
/// bits, and the number of bytes that it takes.
pub open spec fn varint(s: Seq<u8>, max: nat) -> Option<(u64, nat)> {
    match varint_len(s, max) {
        Some(n) => Some(((group_value(s.take(n as int)) % 0x1_0000_0000_0000_0000) as u64, n)),
        None => None,
    }
}

/// The number of bytes that `count` packed longs at the start of `s` take.
pub open spec fn varints_len(s: Seq<u8>, count: nat) -> Option<nat>
    decreases count,
{
    if count == 0 {
        Some(0)
    } else {
        match varint_len(s, 10) {
            Some(n) => match varints_len(s.skip(n as int), (count - 1) as nat) {
                Some(m) => Some(n + m),
                None => None,
            },
            None => None,
        }
    }
}

/// `len` consecutive numbers read big-endian from `n` bytes fit `n` bytes.
pub proof fn lemma_be_bytes_len(v: nat, n: nat)
    ensures
        be_bytes(v, n).len() == n,
    decreases n,
{
    if n > 0 {
        lemma_be_bytes_len(v / 256, (n - 1) as nat);
    }
}

/// Reading `n` big-endian bytes gives back the number that was written in them.
pub proof fn law_be_round_trip(v: nat, n: nat)
    requires
        v < pow256(n),
    ensures
        be_bytes(v, n).len() == n,
        be_value(be_bytes(v, n)) == v,
    decreases n,
{
    if n > 0 {
        assert(v / 256 < pow256((n - 1) as nat));
        law_be_round_trip(v / 256, (n - 1) as nat);
        assert(be_bytes(v, n).drop_last() =~= be_bytes(v / 256, (n - 1) as nat));
        assert(((v % 256) as u8) as nat == v % 256);
    }
}

pub proof fn lemma_be_value_bound(s: Seq<u8>)
    ensures
        be_value(s) < pow256(s.len()),
    decreases s.len(),
{
    if s.len() > 0 {
        lemma_be_value_bound(s.drop_last());
    }
}

/// Writing the number read from some bytes, in as many bytes, gives the bytes back.
pub proof fn law_be_bytes_of_value(s: Seq<u8>)
    ensures
        be_bytes(be_value(s), s.len()) == s,
    decreases s.len(),
{
    if s.len() > 0 {
        law_be_bytes_of_value(s.drop_last());
        assert(be_value(s) / 256 == be_value(s.drop_last()));
        assert(s =~= s.drop_last().push(s.last()));
    }
}

pub proof fn lemma_pow256_values()
    ensures
        pow256(1) == 0x100,
        pow256(2) == 0x1_0000,
        pow256(4) == 0x1_0000_0000,
        pow256(7) == 0x100_0000_0000_0000,
        pow256(8) == 0x1_0000_0000_0000_0000,
{
    reveal_with_fuel(pow256, 9);
}

pub proof fn lemma_pow256_mono(a: nat, b: nat)
    requires
        a <= b,
    ensures
        pow256(a) <= pow256(b),
    decreases b - a,
{
    if a < b {
        lemma_pow256_mono(a, (b - 1) as nat);
        assert(pow256(b) == 256 * pow256((b - 1) as nat));
    }
}

proof fn lemma_groups(v: nat, n: nat)
    requires
        v < pow128(n),
    ensures
        groups(v).len() <= n,
        group_value(groups(v)) == v,
        forall|i: int| 0 <= i < groups(v).len() ==> groups(v)[i] < 128,
    decreases n,
{
    if v > 0 {
        assert(v / 128 < pow128((n - 1) as nat));
        lemma_groups(v / 128, (n - 1) as nat);
        assert(groups(v).drop_last() =~= groups(v / 128));
        assert(((v % 128) as u8) as nat == v % 128);
    }
}

proof fn lemma_varint_len(s: Seq<u8>, k: nat, max: nat)
    requires
        k < s.len(),
        k < max,
        forall|i: int| 0 <= i < k ==> s[i] < 128,
        s[k as int] >= 128,
    ensures
        varint_len(s, max) == Some(k + 1),
    decreases k,
{
    if k > 0 {
        lemma_varint_len(s.skip(1), (k - 1) as nat, (max - 1) as nat);
    }
}

proof fn lemma_varint_none(s: Seq<u8>, max: nat)
    requires
        forall|i: int| 0 <= i < s.len() && i < max ==> s[i] < 128,
    ensures
        varint_len(s, max) is None,
    decreases max,
{
    if max > 0 && s.len() > 0 {
        lemma_varint_none(s.skip(1), (max - 1) as nat);
    }
}

proof fn lemma_take_step(a: Seq<u8>, b: Seq<u8>, i: int)
    requires
        0 <= i < a.len(),
        i < b.len(),
    ensures
        (a.take(i + 1) == b.take(i + 1)) == (a.take(i) == b.take(i) && a[i] == b[i]),
{
    assert(a.take(i + 1) =~= a.take(i).push(a[i]));
    assert(b.take(i + 1) =~= b.take(i).push(b[i]));
    if a.take(i + 1) == b.take(i + 1) {
        assert(a.take(i) =~= a.take(i + 1).drop_last());
        assert(b.take(i) =~= b.take(i + 1).drop_last());
        assert(a[i] == a.take(i + 1)[i]);
        assert(b[i] == b.take(i + 1)[i]);
    }
}

pub proof fn lemma_varint_len_bound(s: Seq<u8>, max: nat)
    ensures
        varint_len(s, max) matches Some(n) ==> 1 <= n <= s.len() && n <= max,
    decreases max,
{
    if max > 0 && s.len() > 0 && s[0] < 128 {
        lemma_varint_len_bound(s.skip(1), (max - 1) as nat);
    }
}

/// The packed form of a number is at most ten bytes for 64 bits and five for 32,
/// and at least one.
pub proof fn lemma_packed_len(v: nat)
    requires
        v <= u64::MAX,
    ensures
        1 <= packed(v).len() <= 10,
        v <= u32::MAX ==> packed(v).len() <= 5,
{
    reveal_with_fuel(pow128, 10);
    lemma_groups(v / 128, 9);
    if v <= u32::MAX {
        lemma_groups(v / 128, 4);
    }
}

/// Unpacking what was packed gives the number back and takes exactly its bytes,
/// whatever follows.
pub proof fn law_pack_round_trip(v: nat, tail: Seq<u8>, max: nat)
    requires
        v <= u64::MAX,
        max >= packed(v).len(),
    ensures
        varint(packed(v) + tail, max) == Some((v as u64, packed(v).len())),
        varint_len(packed(v) + tail, max) == Some(packed(v).len()),
{
    reveal_with_fuel(pow128, 10);
    lemma_groups(v / 128, 9);
    let g = groups(v / 128);
    let s = packed(v) + tail;
    lemma_varint_len(s, g.len(), max);
    assert(s.take(g.len() as int + 1) =~= packed(v));
    assert(packed(v).drop_last() =~= g);
    assert((((v % 128 + 128) as u8) % 128) as nat == v % 128);
    assert(group_value(packed(v)) == v);
}

// ---------------------------------------------------------------- output

/// Growable serialization buffer, append-only.
#[derive(Debug, Clone)]
pub struct DataOutput2 {
    pub buf: Vec<u8>,
}

impl View for DataOutput2 {
    type V = Seq<u8>;

    open spec fn view(&self) -> Seq<u8> {
        self.buf@
    }
}

impl Default for DataOutput2 {
    fn default() -> (r: Self)
        ensures
            r@ == Seq::<u8>::empty(),
    {
        DataOutput2 { buf: Vec::new() }
    }
}

fn push_groups(buf: &mut Vec<u8>, v: u64)
    ensures
        final(buf)@ == old(buf)@ + groups(v as nat),
    decreases v,
{
    if v > 0 {
        push_groups(buf, v / 128);
        buf.push((v % 128) as u8);
        assert(buf@ =~= old(buf)@ + groups(v as nat));
    } else {
        assert(buf@ =~= old(buf)@ + groups(v as nat));
    }
}

fn push_be(buf: &mut Vec<u8>, v: u64, n: u8)
    ensures
        final(buf)@ == old(buf)@ + be_bytes(v as nat, n as nat),
    decreases n,
{
    if n > 0 {
        push_be(buf, v / 256, n - 1);
        buf.push((v % 256) as u8);
        assert(buf@ =~= old(buf)@ + be_bytes(v as nat, n as nat));
    } else {
        assert(buf@ =~= old(buf)@ + be_bytes(v as nat, n as nat));
    }
}

impl DataOutput2 {
    /// An empty buffer with the default capacity hint.
    pub fn new() -> (r: Self)
        ensures
            r@ == Seq::<u8>::empty(),
    {
        Self::with_capacity(128)
    }

    /// An empty buffer with a capacity hint, floored at 16.
    pub fn with_capacity(size_hint: usize) -> (r: Self)
        ensures
            r@ == Seq::<u8>::empty(),
    {
        let hint: usize = if size_hint < 16 {
            16
        } else {
            size_hint
        };
        DataOutput2 { buf: Vec::with_capacity(hint) }
    }

    /// Number of bytes written.
    pub fn pos(&self) -> (r: usize)
        ensures
            r == self@.len(),
    {
        self.buf.len()
    }

    pub fn write_u8(&mut self, v: u8)
        ensures
            final(self)@ == old(self)@.push(v),
    {
        self.buf.push(v);
    }

    /// Writes the low 8 bits.
    pub fn write_byte(&mut self, v: i32)
        ensures
            final(self)@ == old(self)@.push(v as u8),
    {
        self.buf.push(#[verifier::truncate] (v as u8));
    }

    pub fn write_all(&mut self, b: &[u8])
        ensures
            final(self)@ == old(self)@ + b@,
    {
        self.buf.extend_from_slice(b);
        assert(self.buf@ =~= old(self)@ + b@);
    }

    pub fn write_i16(&mut self, v: i16)
        ensures
            final(self)@ == old(self)@ + be_bytes((v as u16) as nat, 2),
    {
        self.write_u16(#[verifier::truncate] (v as u16));
    }

    pub fn write_u16(&mut self, v: u16)
        ensures
            final(self)@ == old(self)@ + be_bytes(v as nat, 2),
    {
        push_be(&mut self.buf, v as u64, 2);
    }

    pub fn write_i32(&mut self, v: i32)
        ensures
            final(self)@ == old(self)@ + be_bytes((v as u32) as nat, 4),
    {
        self.write_u32(#[verifier::truncate] (v as u32));
    }

    pub fn write_u32(&mut self, v: u32)
        ensures
            final(self)@ == old(self)@ + be_bytes(v as nat, 4),
    {
        push_be(&mut self.buf, v as u64, 4);
    }

    pub fn write_i64(&mut self, v: i64)
        ensures
            final(self)@ == old(self)@ + be_bytes((v as u64) as nat, 8),
    {
        self.write_u64(#[verifier::truncate] (v as u64));
    }

    pub fn write_u64(&mut self, v: u64)
        ensures
            final(self)@ == old(self)@ + be_bytes(v as nat, 8),
    {
        push_be(&mut self.buf, v, 8);
    }

    /// Packed long.
    pub fn pack_long(&mut self, value: u64)
        ensures
            final(self)@ == old(self)@ + packed(value as nat),
    {
        push_groups(&mut self.buf, value / 128);
        self.buf.push((value % 128 + 128) as u8);
        assert(self@ =~= old(self)@ + packed(value as nat));
    }

    /// Packed 32-bit pattern.
    pub fn pack_int(&mut self, value: i32)
        ensures
            final(self)@ == old(self)@ + packed((value as u32) as nat),
    {
        self.pack_long((#[verifier::truncate] (value as u32)) as u64);
    }

    /// Copy of the written bytes.
    pub fn copy_bytes(&self) -> (r: Vec<u8>)
        ensures
            r@ == self@,
    {
        let r = self.buf.clone();
        assert(r@ =~= self.buf@);
        r
    }

    /// The written bytes.
    pub fn into_vec(self) -> (r: Vec<u8>)
        ensures
            r@ == self@,
    {
        self.buf
    }
}

// ---------------------------------------------------------------- input

/// Positioned read cursor over record bytes.
///
/// [`set_pos`](DataInput2::set_pos) is unchecked: the read that follows reports
/// an overrun. [`seek`](DataInput2::seek) checks at once.
pub trait DataInput2 {
    /// The underlying bytes.
    spec fn bytes(&self) -> Seq<u8>;

    /// The read position.
    spec fn cursor(&self) -> nat;

    /// Total length of the underlying bytes.
    fn len(&self) -> (r: usize)
        ensures
            r == self.bytes().len(),
    ;

    /// Current read position.
    fn pos(&self) -> (r: usize)
        ensures
            r == self.cursor(),
    ;

    /// Repositions without a check.
    fn set_pos(&mut self, pos: usize)
        ensures
            final(self).bytes() == old(self).bytes(),
            final(self).cursor() == pos,
    ;

    /// Reads one byte.
    fn read_u8(&mut self) -> (r: Result<u8>)
        ensures
            final(self).bytes() == old(self).bytes(),
            old(self).cursor() < old(self).bytes().len() ==> r == Ok::<u8, DbError>(
                old(self).bytes()[old(self).cursor() as int],
            ) && final(self).cursor() == old(self).cursor() + 1,
            old(self).cursor() >= old(self).bytes().len() ==> {
                &&& r matches Err(e) && crate::error::is_corrupt(e, "read past end"@)
                &&& final(self).cursor() == old(self).cursor()
            },
    ;

    fn is_empty(&self) -> (r: bool)
        ensures
            r == (self.bytes().len() == 0),
    {
        self.len() == 0
    }

    /// Bytes left from the current position.
    fn remaining(&self) -> (r: usize)
        ensures
            r == rest(self.bytes(), self.cursor()).len(),
    {
        let n: usize = self.len();
        let p: usize = self.pos();
        if p <= n {
            n - p
        } else {
            0
        }
    }

    fn read_unsigned_byte(&mut self) -> (r: Result<i32>)
        ensures
            final(self).bytes() == old(self).bytes(),
            old(self).cursor() < old(self).bytes().len() ==> r == Ok::<i32, DbError>(
                old(self).bytes()[old(self).cursor() as int] as i32,
            ) && final(self).cursor() == old(self).cursor() + 1,
            old(self).cursor() >= old(self).bytes().len() ==> {
                &&& r matches Err(e) && crate::error::is_corrupt(e, "read past end"@)
                &&& final(self).cursor() == old(self).cursor()
            },
    {
        match self.read_u8() {
            Ok(b) => Ok(b as i32),
            Err(e) => Err(e),
        }
    }

    fn read_i8(&mut self) -> (r: Result<i8>)
        ensures
            final(self).bytes() == old(self).bytes(),
            old(self).cursor() < old(self).bytes().len() ==> r == Ok::<i8, DbError>(
                old(self).bytes()[old(self).cursor() as int] as i8,
            ) && final(self).cursor() == old(self).cursor() + 1,
            old(self).cursor() >= old(self).bytes().len() ==> {
                &&& r matches Err(e) && crate::error::is_corrupt(e, "read past end"@)
                &&& final(self).cursor() == old(self).cursor()
            },
    {
        match self.read_u8() {
            Ok(b) => Ok(#[verifier::truncate] (b as i8)),
            Err(e) => Err(e),
        }
    }

    /// Checked reposition.
    fn seek(&mut self, pos: usize) -> (r: Result<()>)
        ensures
            final(self).bytes() == old(self).bytes(),
            pos <= old(self).bytes().len() ==> r is Ok && final(self).cursor() == pos,
            pos > old(self).bytes().len() ==> {
                &&& r matches Err(e) && crate::error::is_corrupt(e, "seek out of range"@)
                &&& final(self).cursor() == old(self).cursor()
            },
    {
        if pos > self.len() {
            return Err(DbError::corrupt("seek out of range"));
        }
        self.set_pos(pos);
        Ok(())
    }

    /// Skips `n` bytes, checked.
    fn skip_bytes(&mut self, n: usize) -> (r: Result<()>)
        ensures
            final(self).bytes() == old(self).bytes(),
            old(self).cursor() + n <= old(self).bytes().len() ==> r is Ok && final(self).cursor()
                == old(self).cursor() + n,
            old(self).cursor() + n > old(self).bytes().len() ==> {
                &&& final(self).cursor() == old(self).cursor()
                &&& r matches Err(e) && crate::error::is_corrupt(
                    e,
                    if old(self).cursor() + n > usize::MAX {
                        "offset overflow"@
                    } else {
                        "seek out of range"@
                    },
                )
            },
    {
        let _len: usize = self.len();
        match self.pos().checked_add(n) {
            Some(p) => self.seek(p),
            None => Err(overflow()),
        }
    }

    /// Reads `n` bytes as one big-endian number.
    fn read_be(&mut self, n: u8) -> (r: Result<u64>)
        requires
            n <= 8,
        ensures
            final(self).bytes() == old(self).bytes(),
            match reads_be(rest(old(self).bytes(), old(self).cursor()), n as nat) {
                Some(v) => r == Ok::<u64, DbError>(v as u64) && v <= u64::MAX
                    && v < pow256(n as nat)
                    && final(self).cursor() == old(self).cursor() + n,
                None => (r matches Err(e) && crate::error::is_corrupt(e, "read past end"@))
                    && final(self).cursor() == if old(self).cursor() <= old(self).bytes().len() {
                    old(self).bytes().len()
                } else {
                    old(self).cursor()
                },
            },
    {
        let ghost s = rest(self.bytes(), self.cursor());
        let ghost start = self.cursor();
        let mut v: u64 = 0;
        let mut i: u8 = 0;
        while i < n
            invariant
                i <= n <= 8,
                s == rest(old(self).bytes(), old(self).cursor()),
                start == old(self).cursor(),
                self.bytes() == old(self).bytes(),
                self.cursor() == start + i,
                i <= s.len(),
                v == be_value(s.take(i as int)),
                v < pow256(i as nat),
            decreases n - i,
        {
            let ghost before = self.cursor();
            match self.read_u8() {
                Ok(b) => {
                    proof {
                        lemma_pow256_mono(i as nat, 7);
                        lemma_pow256_values();
                        assert(s.take(i + 1).drop_last() =~= s.take(i as int));
                        assert(s.take(i + 1).last() == b);
                    }
                    v = v * 256 + b as u64;
                },
                Err(e) => {
                    return Err(e);
                },
            }
            i = i + 1;
        }
        Ok(v)
    }

    /// Two bytes, signed.
    fn read_i16(&mut self) -> (r: Result<i16>)
        ensures
            final(self).bytes() == old(self).bytes(),
            match reads_be(rest(old(self).bytes(), old(self).cursor()), 2) {
                Some(v) => r == Ok::<i16, DbError>((v as u16) as i16) && final(self).cursor()
                    == old(self).cursor() + 2,
                None => r matches Err(e) && e is DataCorruption,
            },
    {
        match self.read_be(2) {
            Ok(v) => {
                proof {
                    lemma_pow256_values();
                }
                Ok(#[verifier::truncate] ((v as u16) as i16))
            },
            Err(e) => Err(e),
        }
    }

    /// Two bytes, unsigned.
    fn read_u16(&mut self) -> (r: Result<u16>)
        ensures
            final(self).bytes() == old(self).bytes(),
            match reads_be(rest(old(self).bytes(), old(self).cursor()), 2) {
                Some(v) => r == Ok::<u16, DbError>(v as u16) && final(self).cursor() == old(
                    self,
                ).cursor() + 2,
                None => r matches Err(e) && e is DataCorruption,
            },
    {
        match self.read_be(2) {
            Ok(v) => {
                proof {
                    lemma_pow256_values();
                }
                Ok(v as u16)
            },
            Err(e) => Err(e),
        }
    }

    /// Four bytes, signed.
    fn read_i32(&mut self) -> (r: Result<i32>)
        ensures
            final(self).bytes() == old(self).bytes(),
            match reads_be(rest(old(self).bytes(), old(self).cursor()), 4) {
                Some(v) => r == Ok::<i32, DbError>((v as u32) as i32) && final(self).cursor()
                    == old(self).cursor() + 4,
                None => r matches Err(e) && e is DataCorruption,
            },
    {
        match self.read_be(4) {
            Ok(v) => {
                proof {
                    lemma_pow256_values();
                }
                Ok(#[verifier::truncate] ((v as u32) as i32))
            },
            Err(e) => Err(e),
        }
    }

    /// Eight bytes, signed.
    fn read_i64(&mut self) -> (r: Result<i64>)
        ensures
            final(self).bytes() == old(self).bytes(),
            match reads_be(rest(old(self).bytes(), old(self).cursor()), 8) {
                Some(v) => r == Ok::<i64, DbError>((v as u64) as i64) && final(self).cursor()
                    == old(self).cursor() + 8,
                None => r matches Err(e) && e is DataCorruption,
            },
    {
        match self.read_be(8) {
            Ok(v) => Ok(#[verifier::truncate] (v as i64)),
            Err(e) => Err(e),
        }
    }

    /// Eight bytes, unsigned.
    fn read_u64(&mut self) -> (r: Result<u64>)
        ensures
            final(self).bytes() == old(self).bytes(),
            match reads_be(rest(old(self).bytes(), old(self).cursor()), 8) {
                Some(v) => r == Ok::<u64, DbError>(v as u64) && final(self).cursor() == old(
                    self,
                ).cursor() + 8,
                None => r matches Err(e) && e is DataCorruption,
            },
    {
        self.read_be(8)
    }

    /// Fills `dst` with the next `dst.len()` bytes.
    fn read_fully(&mut self, dst: &mut Vec<u8>) -> (r: Result<()>)
        ensures
            final(self).bytes() == old(self).bytes(),
            final(dst)@.len() == old(dst)@.len(),
            rest(old(self).bytes(), old(self).cursor()).len() >= old(dst)@.len() ==> r is Ok
                && final(dst)@ == rest(old(self).bytes(), old(self).cursor()).take(old(dst)@.len() as int) && final(self).cursor() == old(self).cursor() + old(
                dst,
            )@.len(),
            rest(old(self).bytes(), old(self).cursor()).len() < old(dst)@.len()
                ==> (r matches Err(e) && e is DataCorruption),
    {
        let n: usize = dst.len();
        let ghost s = rest(self.bytes(), self.cursor());
        let mut i: usize = 0;
        while i < n
            invariant
                i <= n,
                n == old(dst)@.len(),
                dst@.len() == n,
                s == rest(old(self).bytes(), old(self).cursor()),
                self.bytes() == old(self).bytes(),
                self.cursor() == old(self).cursor() + i,
                i <= s.len(),
                dst@.take(i as int) == s.take(i as int),
            decreases n - i,
        {
            match self.read_u8() {
                Ok(b) => {
                    dst.set(i, b);
                    assert(dst@.take(i + 1) =~= s.take(i + 1)) by {
                        assert forall|j: int| 0 <= j < i + 1 implies dst@[j] == s[j] by {
                            if j < i {
                                assert(dst@[j] == dst@.take(i as int)[j]);
                                assert(s.take(i as int)[j] == s[j]);
                            }
                        }
                    }
                },
                Err(e) => {
                    return Err(e);
                },
            }
            i = i + 1;
        }
        assert(dst@.take(n as int) =~= dst@);
        Ok(())
    }

    /// Decodes a packed number of at most `max_bytes` bytes; a longer run is
    /// corruption.
    fn unpack_capped(&mut self, max_bytes: usize) -> (r: Result<u64>)
        ensures
            final(self).bytes() == old(self).bytes(),
            match varint(rest(old(self).bytes(), old(self).cursor()), max_bytes as nat) {
                Some((v, n)) => r == Ok::<u64, DbError>(v) && final(self).cursor() == old(
                    self,
                ).cursor() + n,
                None => {
                    &&& r matches Err(e) && crate::error::is_corrupt(
                        e,
                        if rest(old(self).bytes(), old(self).cursor()).len() < max_bytes {
                            "read past end"@
                        } else {
                            "packed varint too long"@
                        },
                    )
                    &&& final(self).cursor()
                        == old(self).cursor() + if rest(old(self).bytes(), old(self).cursor()).len()
                        < max_bytes {
                        rest(old(self).bytes(), old(self).cursor()).len()
                    } else {
                        max_bytes as nat
                    }
                },
            },
    {
        let ghost s = rest(self.bytes(), self.cursor());
        let mut ret: u64 = 0;
        let mut i: usize = 0;
        while i < max_bytes
            invariant
                i <= max_bytes,
                s == rest(old(self).bytes(), old(self).cursor()),
                self.bytes() == old(self).bytes(),
                self.cursor() == old(self).cursor() + i,
                i <= s.len(),
                forall|j: int| 0 <= j < i ==> s[j] < 128,
                ret == group_value(s.take(i as int)) % 0x1_0000_0000_0000_0000,
            decreases max_bytes - i,
        {
            match self.read_u8() {
                Ok(v) => {
                    let ghost g = group_value(s.take(i as int));
                    proof {
                        assert(s.take(i + 1).drop_last() =~= s.take(i as int));
                        assert(s.take(i + 1).last() == v);
                    }
                    let low: u64 = (v % 128) as u64;
                    ret = (ret % 0x0200_0000_0000_0000) * 128 + low;
                    assert(ret == (g * 128 + low as nat) % 0x1_0000_0000_0000_0000);
                    if v >= 128 {
                        proof {
                            lemma_varint_len(s, i as nat, max_bytes as nat);
                        }
                        return Ok(ret);
                    }
                },
                Err(e) => {
                    proof {
                        lemma_varint_none(s, max_bytes as nat);
                    }
                    return Err(e);
                },
            }
            i = i + 1;
        }
        proof {
            lemma_varint_none(s, max_bytes as nat);
        }
        Err(DbError::corrupt("packed varint too long"))
    }

    /// Decodes a packed long.
    fn unpack_long(&mut self) -> (r: Result<u64>)
        ensures
            final(self).bytes() == old(self).bytes(),
            match varint(rest(old(self).bytes(), old(self).cursor()), 10) {
                Some((v, n)) => r == Ok::<u64, DbError>(v) && final(self).cursor() == old(
                    self,
                ).cursor() + n,
                None => r matches Err(e) && e is DataCorruption,
            },
    {
        self.unpack_capped(10)
    }

    /// Decodes a packed 32-bit pattern, at most five bytes long.
    fn unpack_int(&mut self) -> (r: Result<i32>)
        ensures
            final(self).bytes() == old(self).bytes(),
            match varint(rest(old(self).bytes(), old(self).cursor()), 5) {
                Some((v, n)) => r == Ok::<i32, DbError>((v as u32) as i32) && final(self).cursor()
                    == old(self).cursor() + n,
                None => r matches Err(e) && e is DataCorruption,
            },
    {
        match self.unpack_capped(5) {
            Ok(v) => Ok(#[verifier::truncate] ((v as u32) as i32)),
            Err(e) => Err(e),
        }
    }

    /// Skips `count` packed longs without decoding them.
    fn unpack_long_skip(&mut self, count: usize) -> (r: Result<()>)
        ensures
            final(self).bytes() == old(self).bytes(),
            match varints_len(rest(old(self).bytes(), old(self).cursor()), count as nat) {
                Some(n) => r is Ok && final(self).cursor() == old(self).cursor() + n,
                None => r matches Err(e) && e is DataCorruption,
            },
    {
        let mut left: usize = count;
        proof {
            assert(rest(self.bytes(), self.cursor()).skip(0) =~= rest(self.bytes(), self.cursor()));
        }
        let ghost mut done: nat = 0;
        while left > 0
            invariant
                left <= count,
                self.bytes() == old(self).bytes(),
                self.cursor() == old(self).cursor() + done,
                done <= rest(old(self).bytes(), old(self).cursor()).len(),
                rest(self.bytes(), self.cursor())
                    == rest(old(self).bytes(), old(self).cursor()).skip(done as int),
                match varints_len(rest(self.bytes(), self.cursor()), left as nat) {
                    Some(n) => varints_len(rest(old(self).bytes(), old(self).cursor()), count as nat) == Some(done + n),
                    None => varints_len(rest(old(self).bytes(), old(self).cursor()), count as nat) is None,
                },
            decreases left,
        {
            let ghost s = rest(self.bytes(), self.cursor());
            proof {
                lemma_varint_len_bound(s, 10);
            }
            match self.unpack_long() {
                Ok(_) => {
                    proof {
                        let n = varint_len(s, 10).unwrap();
                        done = done + n;
                        assert(rest(self.bytes(), self.cursor()) =~= s.skip(n as int));
                        assert(rest(self.bytes(), self.cursor())
                            =~= rest(old(self).bytes(), old(self).cursor()).skip(done as int));
                    }
                },
                Err(e) => {
                    return Err(e);
                },
            }
            left = left - 1;
        }
        Ok(())
    }

    /// Compares the next `expected.len()` bytes with `expected`; the position
    /// advances past them whether they match or not.
    fn match_bytes(&mut self, expected: &[u8]) -> (r: Result<bool>)
        ensures
            final(self).bytes() == old(self).bytes(),
            rest(old(self).bytes(), old(self).cursor()).len() >= expected@.len()
                && old(self).cursor() <= old(
                self,
            ).bytes().len() ==> r == Ok::<bool, DbError>(
                rest(old(self).bytes(), old(self).cursor()).take(expected@.len() as int)
                    == expected@,
            ) && final(self).cursor() == old(self).cursor() + expected@.len(),
            !(rest(old(self).bytes(), old(self).cursor()).len() >= expected@.len()
                && old(self).cursor() <= old(
                self,
            ).bytes().len()) ==> (r matches Err(e) && e is DataCorruption) && final(self).cursor()
                == old(self).cursor(),
    {
        let total: usize = self.len();
        let p: usize = self.pos();
        let n: usize = expected.len();
        if p > total || n > total - p {
            if p > usize::MAX - n {
                return Err(overflow());
            }
            return Err(DbError::corrupt("match_bytes out of range"));
        }
        let ghost s = rest(self.bytes(), self.cursor());
        assert(s.take(0) =~= expected@.take(0));
        let mut m = true;
        let mut i: usize = 0;
        while i < n
            invariant
                i <= n,
                n == expected@.len(),
                p == old(self).cursor(),
                p + n <= old(self).bytes().len(),
                s == rest(old(self).bytes(), old(self).cursor()),
                s.len() >= n,
                self.bytes() == old(self).bytes(),
                self.cursor() == p + i,
                m == (s.take(i as int) == expected@.take(i as int)),
            decreases n - i,
        {
            match self.read_u8() {
                Ok(b) => {
                    proof {
                        lemma_take_step(s, expected@, i as int);
                    }
                    if b != expected[i] {
                        m = false;
                    }
                },
                Err(e) => {
                    return Err(e);
                },
            }
            i = i + 1;
        }
        assert(expected@.take(n as int) =~= expected@);
        self.set_pos(p + n);
        Ok(m)
    }

}

/// The bytes from the read position on; none when it is past the end.
pub open spec fn rest(bytes: Seq<u8>, cursor: nat) -> Seq<u8> {
    if cursor <= bytes.len() {
        bytes.skip(cursor as int)
    } else {
        Seq::empty()
    }
}

/// `r` is the value that `n` big-endian bytes at the start of `s` hold, or, when
/// there are fewer, a corruption error.
pub open spec fn reads_be(s: Seq<u8>, n: nat) -> Option<nat> {
    if s.len() >= n {
        Some(be_value(s.take(n as int)))
    } else {
        None
    }
}

fn overflow() -> (e: DbError)
    ensures
        crate::error::is_corrupt(e, "offset overflow"@),
{
    DbError::corrupt("offset overflow")
}

/// A read cursor over a byte slice.
#[derive(Debug)]
pub struct SliceInput<'a> {
    buf: &'a [u8],
    pos: usize,
}

impl<'a> SliceInput<'a> {
    pub fn new(buf: &'a [u8]) -> (r: Self)
        ensures
            r.bytes() == buf@,
            r.cursor() == 0,
    {
        SliceInput { buf, pos: 0 }
    }

    pub fn at(buf: &'a [u8], pos: usize) -> (r: Self)
        ensures
            r.bytes() == buf@,
            r.cursor() == pos,
    {
        SliceInput { buf, pos }
    }

    /// The underlying slice.
    pub fn slice(&self) -> (r: &'a [u8])
        ensures
            r@ == self.bytes(),
    {
        self.buf
    }

    /// The bytes `[start, start + len)`, if all of them are in range.
    pub fn subslice(&self, start: usize, len: usize) -> (r: Result<&'a [u8]>)
        ensures
            start + len <= self.bytes().len() ==> (r matches Ok(b) && b@ == self.bytes().subrange(
                start as int,
                start + len,
            )),
            start + len > self.bytes().len() ==> (r matches Err(e) && crate::error::is_corrupt(
                e,
                if start + len > usize::MAX {
                    "offset overflow"@
                } else {
                    "subslice out of range"@
                },
            )),
    {
        match start.checked_add(len) {
            Some(end) => if end <= self.buf.len() {
                Ok(vstd::slice::slice_subrange(self.buf, start, end))
            } else {
                Err(DbError::corrupt("subslice out of range"))
            },
            None => {
                let _len: usize = self.buf.len();
                Err(overflow())
            },
        }
    }

    /// The next `n` bytes, copied out.
    pub fn read_vec(&mut self, n: usize) -> (r: Result<Vec<u8>>)
        ensures
            final(self).bytes() == old(self).bytes(),
            rest(old(self).bytes(), old(self).cursor()).len() >= n
                ==> (r matches Ok(b)
                    && b@ == rest(old(self).bytes(), old(self).cursor()).take(n as int))
                && final(self).cursor() == old(self).cursor() + n,
            rest(old(self).bytes(), old(self).cursor()).len() < n
                ==> (r matches Err(e) && e is DataCorruption),
    {
        if self.pos > self.buf.len() || n > self.buf.len() - self.pos {
            if n == 0 {
                return Ok(Vec::new());
            }
            return Err(DbError::corrupt("read_fully past end"));
        }
        let part = vstd::slice::slice_subrange(self.buf, self.pos, self.pos + n);
        let mut v: Vec<u8> = Vec::new();
        v.extend_from_slice(part);
        assert(v@ =~= rest(old(self).bytes(), old(self).cursor()).take(n as int));
        self.pos = self.pos + n;
        Ok(v)
    }
}

impl<'a> DataInput2 for SliceInput<'a> {
    closed spec fn bytes(&self) -> Seq<u8> {
        self.buf@
    }

    closed spec fn cursor(&self) -> nat {
        self.pos as nat
    }

    fn len(&self) -> usize {
        self.buf.len()
    }

    fn pos(&self) -> usize {
        self.pos
    }

    fn set_pos(&mut self, pos: usize) {
        self.pos = pos;
    }

    fn read_u8(&mut self) -> Result<u8> {
        if self.pos < self.buf.len() {
            let b: u8 = self.buf[self.pos];
            self.pos = self.pos + 1;
            Ok(b)
        } else {
            Err(DbError::corrupt("read past end"))
        }
    }

    fn read_i32(&mut self) -> (r: Result<i32>)
        ensures
            r matches Err(e) ==> final(self).cursor() == old(self).cursor()
                && crate::error::is_corrupt(
                e,
                if old(self).cursor() + 4 > usize::MAX {
                    "offset overflow"@
                } else {
                    "read_i32 past end"@
                },
            ),
    {
        let start: usize = self.pos;
        match self.read_be(4) {
            Ok(v) => {
                proof {
                    lemma_pow256_values();
                }
                Ok(#[verifier::truncate] ((v as u32) as i32))
            },
            Err(_) => {
                self.pos = start;
                if start > usize::MAX - 4 {
                    Err(overflow())
                } else {
                    Err(DbError::corrupt("read_i32 past end"))
                }
            },
        }
    }

    fn read_i64(&mut self) -> (r: Result<i64>)
        ensures
            r matches Err(e) ==> final(self).cursor() == old(self).cursor()
                && crate::error::is_corrupt(
                e,
                if old(self).cursor() + 8 > usize::MAX {
                    "offset overflow"@
                } else {
                    "read_i64 past end"@
                },
            ),
    {
        let start: usize = self.pos;
        match self.read_be(8) {
            Ok(v) => Ok(#[verifier::truncate] (v as i64)),
            Err(_) => {
                self.pos = start;
                if start > usize::MAX - 8 {
                    Err(overflow())
                } else {
                    Err(DbError::corrupt("read_i64 past end"))
                }
            },
        }
    }
}

// ---------------------------------------------------------------- strict packing

/// The number whose packed form `s` begins with, and the number of bytes that it
/// takes. Other ways to write a number, with leading zeros or more than 64 bits, do
/// not count.
pub open spec fn canonical(s: Seq<u8>) -> Option<(u64, nat)> {
    match varint(s, 10) {
        Some((v, n)) => if s.take(n as int) == packed(v as nat) {
            Some((v, n))
        } else {
            None
        },
        None => None,
    }
}

/// Strict reading gives back what was packed, whatever follows.
pub proof fn law_canonical_round_trip(v: u64, tail: Seq<u8>)
    ensures
        canonical(packed(v as nat) + tail) == Some((v, packed(v as nat).len())),
{
    lemma_packed_len(v as nat);
    law_pack_round_trip(v as nat, tail, 10);
    let s = packed(v as nat) + tail;
    assert(s.take(packed(v as nat).len() as int) =~= packed(v as nat));
}

/// The first digit of a number is not zero.
proof fn lemma_groups_first(v: nat)
    requires
        v > 0,
    ensures
        groups(v).len() > 0,
        groups(v)[0] != 0,
    decreases v,
{
    if v / 128 > 0 {
        lemma_groups_first(v / 128);
    } else {
        assert(groups(v / 128) =~= Seq::empty());
        assert(v % 128 == v);
    }
}

/// A number is at least as large as the number of its first digits.
proof fn lemma_group_prefix(s: Seq<u8>, n: int)
    requires
        0 <= n <= s.len(),
    ensures
        group_value(s) >= group_value(s.take(n)),
    decreases s.len() - n,
{
    if n == s.len() {
        assert(s.take(n) =~= s);
    } else {
        lemma_group_prefix(s, n + 1);
        assert(s.take(n + 1).drop_last() =~= s.take(n));
    }
}

proof fn lemma_packed_value(v: u64)
    ensures
        group_value(packed(v as nat)) == v,
{
    let n = v as nat;
    reveal_with_fuel(pow128, 10);
    lemma_groups(n / 128, 9);
    assert(packed(n).drop_last() =~= groups(n / 128));
    assert((((n % 128 + 128) as u8) % 128) as nat == n % 128);
}

impl<'a> SliceInput<'a> {
    /// Decodes a packed long that is written in the one shortest way.
    pub fn unpack_canonical(&mut self) -> (r: Result<u64>)
        ensures
            final(self).bytes() == old(self).bytes(),
            match canonical(rest(old(self).bytes(), old(self).cursor())) {
                Some((v, n)) => r == Ok::<u64, DbError>(v) && final(self).cursor() == old(
                    self,
                ).cursor() + n,
                None => r matches Err(e) && e is DataCorruption,
            },
    {
        let ghost s = rest(self.bytes(), self.cursor());
        let ghost from = self.cursor();
        let mut value: u64 = 0;
        let mut i: usize = 0;
        proof {
            assert(s.take(0) =~= Seq::empty());
        }
        while i < 10
            invariant
                i <= 10,
                i <= s.len(),
                s == rest(old(self).bytes(), old(self).cursor()),
                from == old(self).cursor(),
                self.bytes() == old(self).bytes(),
                self.cursor() == from + i,
                forall|j: int| 0 <= j < i ==> s[j] < 128,
                groups(value as nat) == s.take(i as int),
                group_value(s.take(i as int)) == value,
                i > 0 ==> value > 0,
                i == 0 ==> value == 0,
            decreases 10 - i,
        {
            let v: u8 = match self.read_u8() {
                Ok(x) => x,
                Err(e) => {
                    proof {
                        assert(i == s.len());
                        lemma_varint_none(s, 10);
                    }
                    return Err(e);
                },
            };
            assert(v == s[i as int]);
            let group: u64 = (v % 128) as u64;
            let terminal = v >= 128;
            proof {
                assert(s.take(i + 1).drop_last() =~= s.take(i as int));
                assert(s.take(i + 1) =~= s.take(i as int).push(v));
                lemma_not_canonical(s, i as int, value as nat);
            }
            if i == 0 && group == 0 && !terminal {
                return Err(
                    DbError::corrupt("catalog packed value has a non-canonical leading zero"),
                );
            }
            let next: u64 = match value.checked_mul(128) {
                Some(x) => match x.checked_add(group) {
                    Some(y) => y,
                    None => {
                        return Err(DbError::corrupt("catalog packed value overflows 64 bits"));
                    },
                },
                None => {
                    return Err(DbError::corrupt("catalog packed value overflows 64 bits"));
                },
            };
            assert(next as nat / 128 == value && next as nat % 128 == group);
            if terminal {
                proof {
                    lemma_varint_len(s, i as nat, 10);
                    assert(packed(next as nat) =~= s.take(i + 1));
                }
                return Ok(next);
            }
            proof {
                assert(groups(next as nat) =~= s.take(i + 1));
            }
            value = next;
            i = i + 1;
        }
        proof {
            lemma_varint_none(s, 10);
        }
        Err(DbError::corrupt("catalog packed value is overlong"))
    }
}

/// A leading zero, or digits for more than 64 bits, is not the packed form of a
/// number.
proof fn lemma_not_canonical(s: Seq<u8>, i: int, value: nat)
    requires
        0 <= i < s.len(),
        forall|j: int| 0 <= j < i ==> s[j] < 128,
        group_value(s.take(i)) == value,
    ensures
        i == 0 && s[0] == 0 ==> canonical(s) is None,
        value * 128 + (s[i] % 128) as nat > u64::MAX ==> canonical(s) is None,
{
    if let Some((v, n)) = canonical(s) {
        let p = packed(v as nat);
        lemma_varint_len_bound(s, 10);
        assert(p.len() == n);
        assert(p[n - 1] == s[n - 1]);
        lemma_packed_value(v);
        assert(p.last() >= 128);
        if i == 0 && s[0] == 0 {
            assert(p[0] == 0);
            if v / 128 > 0 {
                lemma_groups_first((v / 128) as nat);
                assert(p[0] == groups((v / 128) as nat)[0]);
            } else {
                assert(groups((v / 128) as nat) =~= Seq::empty());
                assert(p[0] >= 128);
            }
        }
        if value * 128 + (s[i] % 128) as nat > u64::MAX {
            assert(n > i);
            lemma_group_prefix(p, i + 1);
            assert(p.take(i + 1) =~= s.take(i + 1));
            assert(s.take(i + 1).drop_last() =~= s.take(i));
        }
    }
}

} // verus!
