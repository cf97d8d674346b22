//! A persistent queue of elements: first-in first-out, last-in first-out, or
//! circular, where a full queue drops its oldest element.
//!
//! The header record holds the packed mode, the recids of the first and the last
//! node, the size and the capacity. A node is the packed recid of the next node,
//! zero at the end, and then the element.

use vstd::prelude::*;
use crate::error::{is_corrupt, DbError, Result};
use crate::io::{
    law_pack_round_trip, lemma_packed_len, lemma_varint_len_bound, packed, rest, varint, DataInput2,
    DataOutput2, SliceInput,
};
use crate::ser::{
    all_fit, dec_all, enc_all, law_group_round_trip, lemma_dec_all_within, models, Model, Serializer,
    LONG_PACKED,
};
use crate::store::{
    carried_out, get_item, item_at, keeps_state, lemma_enc_dec, opt_model, put_item, served,
    turned_down, update_item, Records, Store, StoreState,
};
use super::long::read_field;

verus! {

/// The capacity of a queue that is not circular.
pub const UNBOUNDED: u64 = 0x7fff_ffff_ffff_ffff;

/// Which element leaves first.
#[derive(Debug, Clone, Copy, PartialEq, Eq, Structural)]
pub enum Mode {
    Fifo,
    Lifo,
    Circular,
}

/// The number under which a mode is stored.
pub open spec fn mode_number(m: Mode) -> i32 {
    match m {
        Mode::Fifo => 0,
        Mode::Lifo => 1,
        Mode::Circular => 2,
    }
}

impl Mode {
    /// The number under which the mode is stored.
    pub fn ordinal(self) -> (r: i32)
        ensures
            r == mode_number(self),
    {
        match self {
            Mode::Fifo => 0,
            Mode::Lifo => 1,
            Mode::Circular => 2,
        }
    }

    fn from_i32(v: i32) -> (r: Result<Mode>)
        ensures
            r matches Ok(m) ==> mode_number(m) == v,
            0 <= v <= 2 ==> r is Ok,
            v < 0 || v > 2 ==> (r matches Err(e) && is_corrupt(e, "invalid persistent queue mode"@)),
    {
        match v {
            0 => Ok(Mode::Fifo),
            1 => Ok(Mode::Lifo),
            2 => Ok(Mode::Circular),
            _ => Err(DbError::corrupt("invalid persistent queue mode")),
        }
    }
}

/// What the header record holds.
#[derive(Debug, Clone, Copy, PartialEq, Eq, Structural)]
pub struct Header {
    pub mode: i32,
    pub head: u64,
    pub tail: u64,
    pub size: u64,
    pub capacity: u64,
}

impl View for Header {
    type V = Header;

    open spec fn view(&self) -> Header {
        *self
    }
}

/// The header codec.
#[derive(Debug, Clone, Copy)]
pub struct HeaderSer;

/// The header codec.
pub const HEADER_SER: HeaderSer = HeaderSer;

/// The fields after the mode, in the order in which they are written.
pub open spec fn header_fields(h: Header) -> Seq<u64> {
    seq![h.head, h.tail, h.size, h.capacity]
}

impl Serializer for HeaderSer {
    type Item = Header;

    open spec fn fits(&self, v: Header) -> bool {
        true
    }

    open spec fn enc(&self, v: Header) -> Seq<u8> {
        packed((v.mode as u32) as nat) + enc_all(&LONG_PACKED, header_fields(v))
    }

    open spec fn dec(&self, s: Seq<u8>) -> Option<(Header, nat)> {
        match varint(s, 5) {
            Some((m, n)) => match dec_all(&LONG_PACKED, s.skip(n as int), 4) {
                Some((f, k)) => Some(
                    (
                        Header {
                            mode: (m as u32) as i32,
                            head: f[0],
                            tail: f[1],
                            size: f[2],
                            capacity: f[3],
                        },
                        n + k,
                    ),
                ),
                None => None,
            },
            None => None,
        }
    }

    proof fn round_trip(&self, v: Header, tail: Seq<u8>) {
        let m = v.mode as u32;
        let f = header_fields(v);
        let e = enc_all(&LONG_PACKED, f);
        assert(all_fit(&LONG_PACKED, f));
        law_group_round_trip(&LONG_PACKED, f, tail);
        lemma_packed_len(m as nat);
        law_pack_round_trip(m as nat, e + tail, 5);
        let s = self.enc(v) + tail;
        assert(s =~= packed(m as nat) + (e + tail));
        assert(s.skip(packed(m as nat).len() as int) =~= e + tail);
        let mode = v.mode;
        assert((mode as u32) as i32 == mode) by (bit_vector);
    }

    proof fn dec_within(&self, s: Seq<u8>) {
        lemma_varint_len_bound(s, 5);
        if let Some((m, n)) = varint(s, 5) {
            lemma_dec_all_within(&LONG_PACKED, s.skip(n as int), 4);
        }
    }

    fn can_write(&self, value: &Header) -> bool {
        true
    }

    fn serialize(&self, out: &mut DataOutput2, h: &Header) {
        out.pack_int(h.mode);
        out.pack_long(h.head);
        out.pack_long(h.tail);
        out.pack_long(h.size);
        out.pack_long(h.capacity);
        proof {
            let f = header_fields(*h);
            reveal_with_fuel(enc_all, 5);
            assert(f.drop_last() =~= seq![h.head, h.tail, h.size]);
            assert(f.drop_last().drop_last() =~= seq![h.head, h.tail]);
            assert(f.drop_last().drop_last().drop_last() =~= seq![h.head]);
            assert(f.drop_last().drop_last().drop_last().drop_last() =~= Seq::<u64>::empty());
            assert(h@ == *h);
            assert(out@ =~= old(out)@ + self.enc(*h));
        }
    }

    fn deserialize(&self, input: &mut SliceInput<'_>) -> Result<Header> {
        let ghost all = rest(input.bytes(), input.cursor());
        proof {
            lemma_varint_len_bound(all, 5);
        }
        let mode: i32 = match input.unpack_int() {
            Ok(x) => x,
            Err(e) => {
                return Err(e);
            },
        };
        let ghost s = rest(input.bytes(), input.cursor());
        let ghost at = input.cursor();
        proof {
            assert(s =~= all.skip(varint(all, 5).unwrap().1 as int));
        }
        let ghost f: Seq<u64> = Seq::empty();
        let head: u64 = match read_field(input, Ghost(s), Ghost(at), Ghost(f), Ghost(4)) {
            Ok(x) => x,
            Err(e) => {
                return Err(e);
            },
        };
        let ghost f: Seq<u64> = f.push(head);
        let tail: u64 = match read_field(input, Ghost(s), Ghost(at), Ghost(f), Ghost(4)) {
            Ok(x) => x,
            Err(e) => {
                return Err(e);
            },
        };
        let ghost f: Seq<u64> = f.push(tail);
        let size: u64 = match read_field(input, Ghost(s), Ghost(at), Ghost(f), Ghost(4)) {
            Ok(x) => x,
            Err(e) => {
                return Err(e);
            },
        };
        let ghost f: Seq<u64> = f.push(size);
        let capacity: u64 = match read_field(input, Ghost(s), Ghost(at), Ghost(f), Ghost(4)) {
            Ok(x) => x,
            Err(e) => {
                return Err(e);
            },
        };
        let h = Header { mode, head, tail, size, capacity };
        assert(h@ == h);
        Ok(h)
    }

    fn equals(&self, a: &Header, b: &Header) -> bool {
        assert(a@ == *a && b@ == *b);
        *a == *b
    }

    fn dup(&self, a: &Header) -> Header {
        *a
    }

    open spec fn width(&self) -> Option<usize> {
        None
    }

    proof fn width_is_exact(&self, v: Header) {
    }

    fn fixed_size(&self) -> Option<usize> {
        None
    }
}

/// A node: the recid of the next one, and an element.
#[derive(Debug)]
pub struct QNode<E> {
    pub next: u64,
    pub value: E,
}

impl<E: View> View for QNode<E> {
    type V = (u64, E::V);

    open spec fn view(&self) -> (u64, E::V) {
        (self.next, self.value@)
    }
}

/// The node codec.
#[derive(Debug)]
pub struct NodeSer<'a, Se> {
    pub elem: &'a Se,
}

impl<'a, Se: Serializer> Serializer for NodeSer<'a, Se> {
    type Item = QNode<Se::Item>;

    open spec fn fits(&self, v: (u64, Model<Se>)) -> bool {
        self.elem.fits(v.1)
    }

    open spec fn enc(&self, v: (u64, Model<Se>)) -> Seq<u8> {
        packed(v.0 as nat) + self.elem.enc(v.1)
    }

    open spec fn dec(&self, s: Seq<u8>) -> Option<((u64, Model<Se>), nat)> {
        match varint(s, 10) {
            Some((next, n)) => match self.elem.dec(s.skip(n as int)) {
                Some((v, k)) => Some(((next, v), n + k)),
                None => None,
            },
            None => None,
        }
    }

    proof fn round_trip(&self, v: (u64, Model<Se>), tail: Seq<u8>) {
        let e = self.elem.enc(v.1);
        lemma_packed_len(v.0 as nat);
        law_pack_round_trip(v.0 as nat, e + tail, 10);
        self.elem.round_trip(v.1, tail);
        let s = self.enc(v) + tail;
        assert(s =~= packed(v.0 as nat) + (e + tail));
        assert(s.skip(packed(v.0 as nat).len() as int) =~= e + tail);
    }

    proof fn dec_within(&self, s: Seq<u8>) {
        lemma_varint_len_bound(s, 10);
        if let Some((next, n)) = varint(s, 10) {
            self.elem.dec_within(s.skip(n as int));
        }
    }

    fn can_write(&self, value: &Self::Item) -> bool {
        assert(value@ == (value.next, value.value@));
        self.elem.can_write(&value.value)
    }

    fn serialize(&self, out: &mut DataOutput2, node: &QNode<Se::Item>) {
        out.pack_long(node.next);
        self.elem.serialize(out, &node.value);
        assert(out@ =~= old(out)@ + self.enc(node@));
    }

    fn deserialize(&self, input: &mut SliceInput<'_>) -> Result<QNode<Se::Item>> {
        let ghost s = rest(input.bytes(), input.cursor());
        proof {
            lemma_varint_len_bound(s, 10);
        }
        let next: u64 = match input.unpack_long() {
            Ok(x) => x,
            Err(e) => {
                return Err(e);
            },
        };
        proof {
            assert(rest(input.bytes(), input.cursor()) =~= s.skip(varint(s, 10).unwrap().1 as int));
        }
        match self.elem.deserialize(input) {
            Ok(value) => {
                let node = QNode { next, value };
                assert(node@ == (next, value@));
                Ok(node)
            },
            Err(e) => Err(e),
        }
    }

    fn equals(&self, a: &QNode<Se::Item>, b: &QNode<Se::Item>) -> bool {
        assert(a@ == (a.next, a.value@) && b@ == (b.next, b.value@));
        a.next == b.next && self.elem.equals(&a.value, &b.value)
    }

    fn dup(&self, a: &QNode<Se::Item>) -> QNode<Se::Item> {
        QNode { next: a.next, value: self.elem.dup(&a.value) }
    }

    open spec fn width(&self) -> Option<usize> {
        None
    }

    proof fn width_is_exact(&self, v: (u64, Model<Se>)) {
    }

    fn fixed_size(&self) -> Option<usize> {
        None
    }
}

// ---------------------------------------------------------------- model

/// The header in a record.
pub open spec fn header_at(records: Records, recid: u64) -> Option<Header> {
    match item_at(&HEADER_SER, records, recid) {
        Some(Some(h)) => Some(h),
        _ => None,
    }
}

/// The node in a record: the recid of the next one, and the element.
pub open spec fn element_at<Se: Serializer>(ser: &Se, records: Records, recid: u64) -> Option<
    (u64, Model<Se>),
> {
    match item_at(&NodeSer { elem: ser }, records, recid) {
        Some(Some(n)) => Some(n),
        _ => None,
    }
}

/// What follows place `i` of a chain; zero after the last.
pub open spec fn after(c: Seq<u64>, i: int) -> u64 {
    if i + 1 < c.len() {
        c[i + 1]
    } else {
        0
    }
}

/// The node at place `i` of a chain links to the next.
pub open spec fn place_ok<Se: Serializer>(ser: &Se, records: Records, c: Seq<u64>, i: int) -> bool {
    element_at(ser, records, c[i]) matches Some(n) && n.0 == after(c, i) && c[i] != 0
}

/// The header and the links give the chain `c`.
pub open spec fn linked<Se: Serializer>(
    ser: &Se,
    records: Records,
    header_recid: u64,
    c: Seq<u64>,
) -> bool {
    &&& header_at(records, header_recid) matches Some(h) && {
        &&& h.size == c.len()
        &&& h.head == after(c, -1)
        &&& h.tail == if c.len() > 0 {
            c.last()
        } else {
            0
        }
    }
    &&& forall|i: int| 0 <= i < c.len() ==> #[trigger] place_ok(ser, records, c, i)
}

/// The elements at the nodes of a chain.
pub open spec fn elements_of<Se: Serializer>(ser: &Se, records: Records, c: Seq<u64>) -> Seq<
    Model<Se>,
> {
    Seq::new(c.len(), |i: int| element_at(ser, records, c[i]).unwrap().1)
}

/// What a queue holds once `v` is put.
pub open spec fn enqueued<V>(mode: i32, full: bool, s: Seq<V>, v: V) -> Seq<V> {
    if mode == 1 {
        seq![v] + s
    } else if full {
        s.skip(1).push(v)
    } else {
        s.push(v)
    }
}

/// `i` is the first place of `v`.
pub open spec fn first_place<V>(s: Seq<V>, v: V, i: int) -> bool {
    &&& 0 <= i < s.len()
    &&& s[i] == v
    &&& forall|j: int| 0 <= j < i ==> #[trigger] s[j] != v
}

/// A store that is read-only refuses a change and keeps its records.
pub open spec fn frozen<T>(a: StoreState, b: StoreState, changes: bool, r: Result<T>) -> bool {
    a.readable && a.read_only && !a.closed ==> {
        &&& b.records == a.records
        &&& changes ==> r == Err::<T, DbError>(DbError::ReadOnly)
    }
}

/// What a waiting operation should do.
#[derive(Debug)]
pub enum Waiting<T> {
    /// It is done.
    Done(T),
    /// Wait until the queue changes or the time is over, and try again.
    Wait,
    /// The time is over.
    GaveUp,
}

/// A persistent queue.
pub struct PersistentBlockingQueue<Se: Serializer> {
    header_recid: u64,
    serializer: Se,
    closed: bool,
}

impl<Se: Serializer> PersistentBlockingQueue<Se> {
    pub closed spec fn ser(&self) -> Se {
        self.serializer
    }

    /// The recid of the header.
    pub closed spec fn header_id(&self) -> u64 {
        self.header_recid
    }

    /// The handle was closed.
    pub closed spec fn is_shut(&self) -> bool {
        self.closed
    }

    /// The records hold a queue with the chain `c`.
    pub open spec fn holds(&self, records: Records, c: Seq<u64>) -> bool {
        &&& linked(&self.ser(), records, self.header_id(), c)
        &&& header_at(records, self.header_id()) matches Some(h) && 0 <= h.mode <= 2 && c.len()
            <= h.capacity && 0 < h.capacity <= UNBOUNDED
        &&& forall|i: int| #![trigger c[i]] 0 <= i < c.len() ==> c[i] != self.header_id()
        &&& forall|i: int, j: int| #![trigger c[i], c[j]] 0 <= i < j < c.len() ==> c[i] != c[j]
    }

    /// The records hold a queue.
    pub open spec fn wf(&self, records: Records) -> bool {
        exists|c: Seq<u64>| #[trigger] self.holds(records, c)
    }

    /// The recids of the nodes, first to leave first.
    pub open spec fn chain(&self, records: Records) -> Seq<u64> {
        choose|c: Seq<u64>| #[trigger] self.holds(records, c)
    }

    /// The elements, first to leave first.
    pub open spec fn elements(&self, records: Records) -> Seq<Model<Se>> {
        elements_of(&self.ser(), records, self.chain(records))
    }

    pub open spec fn header_of(&self, records: Records) -> Header {
        header_at(records, self.header_id()).unwrap()
    }

    /// No more elements fit.
    pub open spec fn full_in(&self, records: Records) -> bool {
        self.header_of(records).size >= self.header_of(records).capacity
    }

    /// The records that belong to the queue.
    pub open spec fn owned(&self, records: Records) -> Set<u64> {
        Set::new(|x: u64| x == self.header_id() || self.chain(records).contains(x))
    }

    /// The queue is open and every operation on its records is served.
    pub open spec fn good(&self, st: StoreState) -> bool {
        !self.is_shut() && self.wf(st.records) && st.readable && st.writable
    }

    /// The queue is open and can be read.
    pub open spec fn legible(&self, st: StoreState) -> bool {
        !self.is_shut() && self.wf(st.records) && st.readable
    }

    /// A change took the queue in `a` to one with elements `s` in `b`, and no other
    /// record changed.
    pub open spec fn became(&self, a: StoreState, b: StoreState, s: Seq<Model<Se>>) -> bool {
        &&& keeps_state(a, b)
        &&& self.wf(b.records)
        &&& self.elements(b.records) == s
        &&& self.header_of(b.records).mode == self.header_of(a.records).mode
        &&& self.header_of(b.records).capacity == self.header_of(a.records).capacity
        &&& forall|x: u64| #[trigger]
            a.records.contains_key(x) && !self.owned(a.records).contains(x)
                ==> b.records.contains_key(x) && b.records[x] == a.records[x] && !self.owned(
                b.records,
            ).contains(x)
    }

    /// The records hold at most one chain.
    pub proof fn law_chain_is_unique(&self, records: Records, c: Seq<u64>)
        requires
            self.holds(records, c),
        ensures
            self.wf(records),
            self.chain(records) == c,
    {
        let d = self.chain(records);
        lemma_same_chain(&self.ser(), records, self.header_id(), c, d, c.len() as int);
        assert(c =~= d);
    }

    /// What happens to other records leaves the queue as it is.
    pub proof fn law_untouched(&self, a: Records, b: Records)
        requires
            self.wf(a),
            forall|x: u64| #[trigger] self.owned(a).contains(x) ==> b.contains_key(x)
                && b[x] == a[x],
        ensures
            self.wf(b),
            self.elements(b) == self.elements(a),
            self.header_of(b) == self.header_of(a),
            self.owned(b) == self.owned(a),
    {
        let c = self.chain(a);
        assert(self.owned(a).contains(self.header_id()));
        assert forall|i: int| 0 <= i < c.len()
            implies #[trigger] place_ok(&self.ser(), b, c, i) by {
            assert(place_ok(&self.ser(), a, c, i));
            assert(self.owned(a).contains(c[i]));
        }
        assert(self.holds(b, c));
        self.law_chain_is_unique(b, c);
        assert(self.elements(b) =~= self.elements(a)) by {
            assert forall|i: int| 0 <= i < c.len() implies element_at(&self.ser(), b, c[i])
                == #[trigger] element_at(&self.ser(), a, c[i]) by {
                assert(place_ok(&self.ser(), a, c, i));
                assert(self.owned(a).contains(c[i]));
            }
        }
        assert(self.owned(b) =~= self.owned(a));
    }

    /// What a step did, from the chains before and after.
    proof fn lemma_became(
        &self,
        a: StoreState,
        b: StoreState,
        c: Seq<u64>,
        d: Seq<u64>,
        s: Seq<Model<Se>>,
    )
        requires
            self.holds(a.records, c),
            self.holds(b.records, d),
            keeps_state(a, b),
            elements_of(&self.ser(), b.records, d) == s,
            self.header_of(b.records).mode == self.header_of(a.records).mode,
            self.header_of(b.records).capacity == self.header_of(a.records).capacity,
            forall|x: u64| #[trigger]
                a.records.contains_key(x) && x != self.header_id() && !c.contains(x)
                    ==> b.records.contains_key(x) && b.records[x] == a.records[x] && !d.contains(x),
        ensures
            self.became(a, b, s),
            self.chain(b.records) == d,
    {
        self.law_chain_is_unique(a.records, c);
        self.law_chain_is_unique(b.records, d);
    }

    // ------------------------------------------------------------ making

    /// Makes a queue. Only a circular queue has a capacity.
    pub fn create<S: Store>(store: &mut S, serializer: Se, mode: Mode, capacity: u64) -> (r: Result<
        Self,
    >)
        ensures
            ({
                let a = old(store).state();
                let b = final(store).state();
                let usable = mode != Mode::Circular || 0 < capacity <= UNBOUNDED;
                &&& keeps_state(a, b)
                &&& b.room + 1 >= a.room
                &&& forall|x: u64| #[trigger]
                    a.records.contains_key(x) ==> b.records.contains_key(x) && b.records[x]
                        == a.records[x]
                &&& !usable ==> b == a && (r matches Err(e) && is_corrupt(
                    e,
                    "blocking queue: capacity must be in 1..=i64::MAX"@,
                ))
                &&& usable ==> turned_down(a, b, r)
                &&& usable && a.readable && a.writable && a.room > 0 ==> r is Ok
                &&& r matches Ok(q) ==> {
                    &&& !q.is_shut()
                    &&& q.ser() == serializer
                    &&& q.wf(b.records)
                    &&& q.elements(b.records) == Seq::<Model<Se>>::empty()
                    &&& q.header_of(b.records).mode == mode_number(mode)
                    &&& q.header_of(b.records).capacity == if mode == Mode::Circular {
                        capacity
                    } else {
                        UNBOUNDED
                    }
                    &&& forall|x: u64| #[trigger]
                        a.records.contains_key(x) ==> !q.owned(b.records).contains(x)
                }
            }),
    {
        let actual: u64 = if mode == Mode::Circular {
            capacity
        } else {
            UNBOUNDED
        };
        if actual == 0 || actual > UNBOUNDED {
            return Err(DbError::corrupt("blocking queue: capacity must be in 1..=i64::MAX"));
        }
        let ghost a = store.state();
        let header = Header { mode: mode.ordinal(), head: 0, tail: 0, size: 0, capacity: actual };
        let recid: u64 = match put_item(store, &header, &HEADER_SER) {
            Ok(x) => x,
            Err(e) => {
                return Err(e);
            },
        };
        let r = Self::open(store, recid, serializer);
        proof {
            if r is Ok {
                let q = r.unwrap();
                let c = Seq::<u64>::empty();
                assert(q.holds(store.state().records, c));
                q.law_chain_is_unique(store.state().records, c);
                assert(q.elements(store.state().records) =~= Seq::empty());
            }
        }
        r
    }

    /// Opens a queue by its header.
    pub fn open<S: Store>(store: &S, header_recid: u64, serializer: Se) -> (r: Result<Self>)
        ensures
            ({
                let st = store.state();
                let at = header_at(st.records, header_recid);
                &&& r matches Ok(q) ==> {
                    &&& !q.is_shut()
                    &&& q.ser() == serializer
                    &&& q.header_id() == header_recid
                    &&& at matches Some(h) && 0 <= h.mode <= 2 && 0 < h.capacity <= UNBOUNDED
                        && h.size <= h.capacity
                }
                &&& st.readable ==> (at matches Some(h) ==> {
                    let mode_ok = 0 <= h.mode <= 2;
                    let capacity_ok = 0 < h.capacity <= UNBOUNDED;
                    &&& !mode_ok ==> (r matches Err(e) && is_corrupt(
                        e,
                        "invalid persistent queue header: mode"@,
                    ))
                    &&& mode_ok && !capacity_ok ==> (r matches Err(e) && is_corrupt(
                        e,
                        "invalid persistent queue header: capacity out of 1..=i64::MAX"@,
                    ))
                    &&& mode_ok && capacity_ok && h.size > h.capacity ==> (r matches Err(e)
                        && is_corrupt(e, "invalid persistent queue header: size exceeds capacity"@))
                    &&& mode_ok && capacity_ok && h.size <= h.capacity ==> r is Ok
                })
                &&& st.readable && item_at(&HEADER_SER, st.records, header_recid) == Some(
                    None::<Header>,
                ) ==> (r matches Err(e) && is_corrupt(e, "blocking queue header missing"@))
                &&& st.closed ==> r == Err::<Self, DbError>(DbError::StoreClosed)
            }),
    {
        let q = PersistentBlockingQueue { header_recid, serializer, closed: false };
        let h = match q.header(store) {
            Ok(x) => x,
            Err(e) => {
                return Err(e);
            },
        };
        if h.mode < 0 || h.mode >= 3 {
            return Err(DbError::corrupt("invalid persistent queue header: mode"));
        }
        if h.capacity == 0 || h.capacity > UNBOUNDED {
            return Err(
                DbError::corrupt("invalid persistent queue header: capacity out of 1..=i64::MAX"),
            );
        }
        if h.size > h.capacity {
            return Err(DbError::corrupt("invalid persistent queue header: size exceeds capacity"));
        }
        Ok(q)
    }

    fn node_ser(&self) -> (r: NodeSer<'_, Se>)
        ensures
            r.elem == self.ser(),
    {
        NodeSer { elem: &self.serializer }
    }

    /// Reads the header; fails once the handle is closed.
    fn header<S: Store>(&self, store: &S) -> (r: Result<Header>)
        ensures
            self.is_shut() ==> r == Err::<Header, DbError>(DbError::StoreClosed),
            r matches Ok(h) ==> header_at(store.state().records, self.header_id()) == Some(h),
            !self.is_shut() && store.state().readable && header_at(
                store.state().records,
                self.header_id(),
            ) is Some ==> r is Ok,
            !self.is_shut() && store.state().readable && item_at(
                &HEADER_SER,
                store.state().records,
                self.header_id(),
            ) == Some(None::<Header>) ==> (r matches Err(e) && is_corrupt(
                e,
                "blocking queue header missing"@,
            )),
            store.state().closed ==> r == Err::<Header, DbError>(DbError::StoreClosed),
    {
        if self.closed {
            return Err(DbError::StoreClosed);
        }
        match get_item(store, self.header_recid, &HEADER_SER) {
            Ok(Some(h)) => Ok(h),
            Ok(None) => Err(DbError::corrupt("blocking queue header missing")),
            Err(e) => Err(e),
        }
    }

    fn node<S: Store>(&self, store: &S, recid: u64) -> (r: Result<QNode<Se::Item>>)
        ensures
            r matches Ok(n) ==> element_at(&self.ser(), store.state().records, recid) == Some(n@)
                && self.ser().fits(n.value@),
            store.state().readable && element_at(&self.ser(), store.state().records, recid) is Some
                ==> r is Ok,
    {
        if recid == 0 {
            proof {
                store.records_finite();
            }
            return Err(DbError::corrupt("blocking queue: zero recid where a node was expected"));
        }
        match get_item(store, recid, &self.node_ser()) {
            Ok(Some(n)) => {
                proof {
                    let b = store.state().records[recid].unwrap();
                    (NodeSer { elem: &self.serializer }).dec_within(b);
                }
                Ok(n)
            },
            Ok(None) => Err(DbError::corrupt("blocking queue node missing")),
            Err(e) => Err(e),
        }
    }

    fn full(&self, h: &Header) -> (r: bool)
        ensures
            r == (h.size >= h.capacity),
    {
        h.size >= h.capacity
    }

    // ------------------------------------------------------------ leaving

    /// Removes the first node; answers the new header and the element.
    fn dequeue<S: Store>(
        &self,
        store: &mut S,
        h: &Header,
    ) -> (r: Result<(Header, Option<Se::Item>)>)
        ensures
            ({
                let a = old(store).state();
                let b = final(store).state();
                &&& keeps_state(a, b)
                &&& b.room >= a.room
                &&& h.size == 0 ==> b == a && (r matches Ok((h2, v)) && h2 == h && v is None)
                &&& r matches Ok((h2, v)) ==> {
                    &&& h.size > 0 ==> v is Some && h2.size == h.size - 1
                    &&& h2.mode == h.mode && h2.capacity == h.capacity
                }
                &&& self.wf(a.records) && self.header_of(a.records) == *h ==> frozen(
                    a,
                    b,
                    h.size > 0,
                    r,
                )
                &&& self.wf(a.records) && self.header_of(a.records) == *h ==> carried_out(a, r)
                &&& self.wf(a.records) && self.header_of(a.records) == *h && h.size > 0
                    && r is Ok ==> {
                    &&& r matches Ok((h2, Some(v))) && self.header_of(b.records) == h2 && v@
                        == self.elements(a.records)[0]
                    &&& self.became(a, b, self.elements(a.records).skip(1))
                    &&& self.chain(b.records) == self.chain(a.records).skip(1)
                    &&& b.records.dom() == a.records.dom().remove(self.chain(a.records)[0])
                }
            }),
    {
        if h.size == 0 {
            return Ok((*h, None));
        }
        let ghost a = store.state();
        let ghost c = self.chain(a.records);
        let ghost good = self.wf(a.records) && self.header_of(a.records) == *h;
        proof {
            if self.wf(a.records) && self.header_of(a.records) == *h {
                assert(place_ok(&self.ser(), a.records, c, 0));
            }
        }
        let n = match self.node(store, h.head) {
            Ok(x) => x,
            Err(e) => {
                return Err(e);
            },
        };
        let next = Header {
            mode: h.mode,
            head: n.next,
            tail: if h.size == 1 {
                0
            } else {
                h.tail
            },
            size: h.size - 1,
            capacity: h.capacity,
        };
        match update_item(store, self.header_recid, &next, &HEADER_SER) {
            Ok(_) => {},
            Err(e) => {
                return Err(e);
            },
        }
        match store.delete(h.head) {
            Ok(_) => {},
            Err(e) => {
                return Err(e);
            },
        }
        proof {
            if good {
                self.lemma_dequeue(a, store.state(), c, next);
            }
        }
        Ok((next, Some(n.value)))
    }

    proof fn lemma_dequeue(&self, a: StoreState, b: StoreState, c: Seq<u64>, next: Header)
        requires
            self.holds(a.records, c),
            keeps_state(a, b),
            c.len() > 0,
            ({
                let h = self.header_of(a.records);
                next == Header {
                    mode: h.mode,
                    head: after(c, 0),
                    tail: if h.size == 1 {
                        0
                    } else {
                        h.tail
                    },
                    size: (h.size - 1) as u64,
                    capacity: h.capacity,
                }
            }),
            b.records == a.records.insert(self.header_id(), Some(HEADER_SER.enc(next))).remove(c[0]),
        ensures
            self.became(a, b, elements_of(&self.ser(), a.records, c).skip(1)),
            self.chain(b.records) == c.skip(1),
            self.header_of(b.records) == next,
            b.records.dom() == a.records.dom().remove(c[0]),
    {
        let d = c.skip(1);
        let ser = self.ser();
        lemma_enc_dec(&HEADER_SER, next);
        assert(c[0] != self.header_id());
        assert forall|i: int| 0 <= i < d.len() implies #[trigger] place_ok(&ser, b.records, d, i)
            && element_at(&ser, b.records, d[i]) == element_at(&ser, a.records, c[i + 1]) by {
            assert(place_ok(&ser, a.records, c, i + 1));
            assert(d[i] == c[i + 1]);
            assert(c[i + 1] != c[0]);
            assert(item_at(&NodeSer { elem: &ser }, b.records, d[i]) == item_at(
                &NodeSer { elem: &ser },
                a.records,
                c[i + 1],
            ));
        }
        assert(self.holds(b.records, d));
        assert(elements_of(&ser, b.records, d) =~= elements_of(&ser, a.records, c).skip(1));
        assert forall|x: u64| #[trigger]
            a.records.contains_key(x) && x != self.header_id() && !c.contains(x)
            implies b.records.contains_key(x) && b.records[x] == a.records[x] && !d.contains(x) by {
            assert(c.contains(c[0]));
            if d.contains(x) {
                let i = choose|i: int| 0 <= i < d.len() && d[i] == x;
                assert(c[i + 1] == x);
            }
        }
        self.lemma_became(a, b, c, d, elements_of(&ser, a.records, c).skip(1));
        assert(b.records.dom() =~= a.records.dom().remove(c[0]));
    }

    // ------------------------------------------------------------ entering

    fn enqueue<S: Store>(&self, store: &mut S, h: &Header, value: &Se::Item) -> (r: Result<()>)
        requires
            self.ser().fits(value@),
            h.mode == 2 || h.size < h.capacity,
        ensures
            ({
                let a = old(store).state();
                let b = final(store).state();
                &&& keeps_state(a, b)
                &&& b.room + 1 >= a.room
                &&& self.wf(a.records) && self.header_of(a.records) == *h ==> frozen(a, b, true, r)
                &&& self.wf(a.records) && self.header_of(a.records) == *h ==> {
                    &&& a.room > 0 ==> carried_out(a, r)
                    &&& r is Ok ==> self.became(
                        a,
                        b,
                        enqueued(h.mode, self.full_in(a.records), self.elements(a.records), value@),
                    )
                }
            }),
    {
        let mode = match Mode::from_i32(h.mode) {
            Ok(x) => x,
            Err(e) => {
                return Err(e);
            },
        };
        let ghost a = store.state();
        let ghost good = self.wf(a.records) && self.header_of(a.records) == *h;
        let mut head = *h;
        if mode == Mode::Circular && self.full(h) {
            match self.dequeue(store, h) {
                Ok((x, _)) => {
                    head = x;
                },
                Err(e) => {
                    return Err(e);
                },
            }
        }
        let ghost m = store.state();
        assert(good ==> self.wf(m.records) && self.header_of(m.records) == head);
        assert(head.size < u64::MAX);
        if mode == Mode::Lifo {
            let node = QNode { next: head.head, value: self.serializer.dup(value) };
            let recid: u64 = match put_item(store, &node, &self.node_ser()) {
                Ok(x) => x,
                Err(e) => {
                    return Err(e);
                },
            };
            let tail: u64 = if head.size == 0 {
                recid
            } else {
                head.tail
            };
            let nh = Header {
                mode: head.mode,
                head: recid,
                tail,
                size: head.size + 1,
                capacity: head.capacity,
            };
            match update_item(store, self.header_recid, &nh, &HEADER_SER) {
                Ok(_) => {},
                Err(e) => {
                    return Err(e);
                },
            }
            proof {
                if good {
                    self.lemma_prepend(m, store.state(), self.chain(m.records), recid, value@, nh);
                }
            }
        } else {
            let node = QNode { next: 0, value: self.serializer.dup(value) };
            let recid: u64 = match put_item(store, &node, &self.node_ser()) {
                Ok(x) => x,
                Err(e) => {
                    return Err(e);
                },
            };
            let ghost p = store.state();
            if head.tail != 0 {
                proof {
                    if good {
                        let c = self.chain(m.records);
                        assert(place_ok(&self.ser(), m.records, c, c.len() - 1));
                        assert(item_at(&NodeSer { elem: &self.serializer }, p.records, head.tail)
                            == item_at(&NodeSer { elem: &self.serializer }, m.records, head.tail));
                    }
                }
                let tail_node = match self.node(store, head.tail) {
                    Ok(x) => x,
                    Err(e) => {
                        return Err(e);
                    },
                };
                let relinked = QNode { next: recid, value: tail_node.value };
                match update_item(store, head.tail, &relinked, &self.node_ser()) {
                    Ok(_) => {},
                    Err(e) => {
                        return Err(e);
                    },
                }
            }
            let first: u64 = if head.size == 0 {
                recid
            } else {
                head.head
            };
            let nh = Header {
                mode: head.mode,
                head: first,
                tail: recid,
                size: head.size + 1,
                capacity: head.capacity,
            };
            match update_item(store, self.header_recid, &nh, &HEADER_SER) {
                Ok(_) => {},
                Err(e) => {
                    return Err(e);
                },
            }
            proof {
                if good {
                    let c = self.chain(m.records);
                    if c.len() > 0 {
                        assert(place_ok(&self.ser(), m.records, c, c.len() - 1));
                    }
                    self.lemma_append(m, store.state(), c, recid, value@, nh);
                }
            }
        }
        proof {
            if good {
                self.lemma_twice(a, m, store.state());
            }
        }
        Ok(())
    }

    /// Two changes in a row leave the records of others alone.
    proof fn lemma_twice(&self, a: StoreState, m: StoreState, b: StoreState)
        requires
            m == a || self.became(a, m, self.elements(m.records)),
            self.became(m, b, self.elements(b.records)),
        ensures
            self.became(a, b, self.elements(b.records)),
    {
        assert forall|x: u64| #[trigger]
            a.records.contains_key(x) && !self.owned(a.records).contains(x)
            implies b.records.contains_key(x) && b.records[x] == a.records[x] && !self.owned(
            b.records,
        ).contains(x) by {
            assert(m.records.contains_key(x));
        }
    }

    proof fn lemma_prepend(
        &self,
        a: StoreState,
        b: StoreState,
        c: Seq<u64>,
        recid: u64,
        v: Model<Se>,
        nh: Header,
    )
        requires
            self.holds(a.records, c),
            self.ser().fits(v),
            keeps_state(a, b),
            recid != 0,
            !a.records.contains_key(recid),
            c.len() < self.header_of(a.records).capacity,
            ({
                let h = self.header_of(a.records);
                nh == Header {
                    mode: h.mode,
                    head: recid,
                    tail: if h.size == 0 {
                        recid
                    } else {
                        h.tail
                    },
                    size: (h.size + 1) as u64,
                    capacity: h.capacity,
                }
            }),
            b.records == a.records.insert(
                recid,
                Some((NodeSer { elem: &self.ser() }).enc((after(c, -1), v))),
            ).insert(self.header_id(), Some(HEADER_SER.enc(nh))),
        ensures
            self.became(a, b, seq![v] + elements_of(&self.ser(), a.records, c)),
    {
        let d = seq![recid] + c;
        let ser = self.ser();
        let s = seq![v] + elements_of(&ser, a.records, c);
        lemma_enc_dec(&HEADER_SER, nh);
        lemma_enc_dec(&NodeSer { elem: &ser }, (after(c, -1), v));
        assert forall|i: int| 0 <= i < c.len() implies #[trigger] c[i] != recid by {
            assert(place_ok(&ser, a.records, c, i));
        }
        assert(after(d, 0) == after(c, -1));
        assert forall|i: int| 0 <= i < d.len() implies #[trigger] place_ok(&ser, b.records, d, i)
            && element_at(&ser, b.records, d[i]).unwrap().1 == s[i] by {
            if i > 0 {
                assert(place_ok(&ser, a.records, c, i - 1));
                assert(d[i] == c[i - 1]);
                assert(after(d, i) == after(c, i - 1));
                assert(item_at(&NodeSer { elem: &ser }, b.records, d[i]) == item_at(
                    &NodeSer { elem: &ser },
                    a.records,
                    c[i - 1],
                ));
            }
        }
        assert forall|i: int, j: int| #![trigger d[i], d[j]] 0 <= i < j < d.len()
            implies d[i] != d[j] by {
            if i > 0 {
                assert(c[i - 1] != c[j - 1]);
            } else {
                assert(c[j - 1] != recid);
            }
        }
        assert forall|i: int| #![trigger d[i]] 0 <= i < d.len()
            implies d[i] != self.header_id() by {
            if i > 0 {
                assert(c[i - 1] != self.header_id());
            }
        }
        assert(d.last() == if c.len() > 0 {
            c.last()
        } else {
            recid
        });
        assert(self.holds(b.records, d));
        assert(elements_of(&ser, b.records, d) =~= s);
        assert forall|x: u64| #[trigger]
            a.records.contains_key(x) && x != self.header_id() && !c.contains(x)
            implies b.records.contains_key(x) && b.records[x] == a.records[x] && !d.contains(x) by {
            if d.contains(x) {
                let i = choose|i: int| 0 <= i < d.len() && d[i] == x;
                if i > 0 {
                    assert(c[i - 1] == x);
                }
            }
        }
        self.lemma_became(a, b, c, d, s);
    }

    #[verifier::spinoff_prover]
    #[verifier::rlimit(60)]
    proof fn lemma_append(
        &self,
        a: StoreState,
        b: StoreState,
        c: Seq<u64>,
        recid: u64,
        v: Model<Se>,
        nh: Header,
    )
        requires
            self.holds(a.records, c),
            self.ser().fits(v),
            keeps_state(a, b),
            recid != 0,
            !a.records.contains_key(recid),
            c.len() < self.header_of(a.records).capacity,
            c.len() > 0 ==> self.ser().fits(
                element_at(&self.ser(), a.records, c.last()).unwrap().1,
            ),
            ({
                let h = self.header_of(a.records);
                nh == Header {
                    mode: h.mode,
                    head: if h.size == 0 {
                        recid
                    } else {
                        h.head
                    },
                    tail: recid,
                    size: (h.size + 1) as u64,
                    capacity: h.capacity,
                }
            }),
            ({
                let m = a.records.insert(recid, Some((NodeSer { elem: &self.ser() }).enc((0, v))));
                let n = if c.len() > 0 {
                    m.insert(
                        c.last(),
                        Some(
                            (NodeSer { elem: &self.ser() }).enc(
                                (recid, element_at(&self.ser(), a.records, c.last()).unwrap().1),
                            ),
                        ),
                    )
                } else {
                    m
                };
                b.records == n.insert(self.header_id(), Some(HEADER_SER.enc(nh)))
            }),
        ensures
            self.became(a, b, elements_of(&self.ser(), a.records, c).push(v)),
    {
        let d = c.push(recid);
        let ser = self.ser();
        let s = elements_of(&ser, a.records, c).push(v);
        let n = c.len() as int;
        lemma_enc_dec(&HEADER_SER, nh);
        lemma_enc_dec(&NodeSer { elem: &ser }, (0, v));
        if n > 0 {
            lemma_enc_dec(
                &NodeSer { elem: &ser },
                (recid, element_at(&ser, a.records, c.last()).unwrap().1),
            );
        }
        assert forall|i: int| 0 <= i < c.len() implies #[trigger] c[i] != recid by {
            assert(place_ok(&ser, a.records, c, i));
        }
        assert forall|i: int| 0 <= i < d.len() implies #[trigger] place_ok(&ser, b.records, d, i)
            && element_at(&ser, b.records, d[i]).unwrap().1 == s[i] by {
            if i < n {
                assert(place_ok(&ser, a.records, c, i));
                assert(d[i] == c[i]);
                if i < n - 1 {
                    assert(c[i] != c[n - 1]);
                    assert(item_at(&NodeSer { elem: &ser }, b.records, d[i]) == item_at(
                        &NodeSer { elem: &ser },
                        a.records,
                        c[i],
                    ));
                }
            }
        }
        assert forall|i: int, j: int| #![trigger d[i], d[j]] 0 <= i < j < d.len()
            implies d[i] != d[j] by {
            if j < n {
                assert(c[i] != c[j]);
            } else {
                assert(c[i] != recid);
            }
        }
        assert(self.holds(b.records, d));
        assert(elements_of(&ser, b.records, d) =~= s);
        assert forall|x: u64| #[trigger]
            a.records.contains_key(x) && x != self.header_id() && !c.contains(x)
            implies b.records.contains_key(x) && b.records[x] == a.records[x] && !d.contains(x) by {
            if n > 0 {
                assert(c.contains(c[n - 1]));
            }
            if d.contains(x) {
                let i = choose|i: int| 0 <= i < d.len() && d[i] == x;
                if i < n {
                    assert(c[i] == x);
                }
            }
        }
        self.lemma_became(a, b, c, d, s);
    }

    // ------------------------------------------------------------ use

    /// What trying to put `v` does.
    pub open spec fn offered(
        &self,
        a: StoreState,
        b: StoreState,
        v: Model<Se>,
        r: Result<bool>,
    ) -> bool {
        let h = self.header_of(a.records);
        let refused = self.full_in(a.records) && h.mode != 2;
        &&& keeps_state(a, b)
        &&& b.room + 1 >= a.room
        &&& self.is_shut() || a.closed ==> b == a && r == Err::<bool, DbError>(DbError::StoreClosed)
        &&& self.legible(a) ==> frozen(a, b, !refused, r)
        &&& self.legible(a) && refused ==> b == a && r == Ok::<bool, DbError>(false)
        &&& self.good(a) && !refused && a.room > 0 ==> r is Ok
        &&& self.wf(a.records) ==> (r matches Ok(x) ==> x == !refused)
        &&& self.wf(a.records) && r == Ok::<bool, DbError>(false) ==> b == a
        &&& self.wf(a.records) && r == Ok::<bool, DbError>(true) ==> self.became(
            a,
            b,
            enqueued(h.mode, self.full_in(a.records), self.elements(a.records), v),
        )
    }

    fn try_put<S: Store>(&self, store: &mut S, value: &Se::Item) -> (r: Result<bool>)
        requires
            self.ser().fits(value@),
        ensures
            self.offered(old(store).state(), final(store).state(), value@, r),
    {
        let h = match self.header(store) {
            Ok(x) => x,
            Err(e) => {
                return Err(e);
            },
        };
        if self.full(&h) {
            match Mode::from_i32(h.mode) {
                Ok(m) => {
                    if m != Mode::Circular {
                        return Ok(false);
                    }
                },
                Err(e) => {
                    return Err(e);
                },
            }
        }
        match self.enqueue(store, &h, value) {
            Ok(_) => Ok(true),
            Err(e) => Err(e),
        }
    }

    /// Puts an element; answers false where the queue is full and not circular.
    pub fn offer<S: Store>(&self, store: &mut S, value: Se::Item) -> (r: Result<bool>)
        requires
            self.ser().fits(value@),
        ensures
            self.offered(old(store).state(), final(store).state(), value@, r),
    {
        self.try_put(store, &value)
    }

    /// Puts an element; fails where the queue is full and not circular.
    pub fn add<S: Store>(&self, store: &mut S, value: Se::Item) -> (r: Result<()>)
        requires
            self.ser().fits(value@),
        ensures
            self.added(old(store).state(), final(store).state(), value@, r),
    {
        match self.try_put(store, &value) {
            Ok(true) => Ok(()),
            Ok(false) => Err(DbError::Unsupported("blocking queue is full")),
            Err(e) => Err(e),
        }
    }

    /// What putting `v` or failing does.
    pub open spec fn added(
        &self,
        a: StoreState,
        b: StoreState,
        v: Model<Se>,
        r: Result<()>,
    ) -> bool {
        let h = self.header_of(a.records);
        let refused = self.full_in(a.records) && h.mode != 2;
        &&& keeps_state(a, b)
        &&& b.room + 1 >= a.room
        &&& self.is_shut() || a.closed ==> b == a && r == Err::<(), DbError>(DbError::StoreClosed)
        &&& self.legible(a) ==> frozen(a, b, !refused, r)
        &&& self.legible(a) && refused ==> b == a && (r matches Err(e) && e
            matches DbError::Unsupported(m) && m@ == "blocking queue is full"@)
        &&& self.good(a) && !refused && a.room > 0 ==> r is Ok
        &&& self.wf(a.records) && r is Ok ==> !refused && self.became(
            a,
            b,
            enqueued(h.mode, self.full_in(a.records), self.elements(a.records), v),
        )
    }

    /// How many of `n` elements fit into a queue.
    pub open spec fn fitting(h: Header, n: nat) -> nat {
        if h.mode == 2 || h.size + n <= h.capacity {
            n
        } else {
            (h.capacity - h.size) as nat
        }
    }

    /// Puts elements one after the other, and fails at the first that does not fit.
    pub fn add_all<S: Store>(&self, store: &mut S, values: Vec<Se::Item>) -> (r: Result<()>)
        requires
            forall|i: int|
                #![trigger values@[i]]
                0 <= i < values@.len() ==> self.ser().fits(values@[i]@),
        ensures
            ({
                let a = old(store).state();
                let b = final(store).state();
                let h = self.header_of(a.records);
                &&& keeps_state(a, b)
                &&& b.room + values@.len() >= a.room
                &&& (self.is_shut() || a.closed) && values@.len() > 0 ==> b == a
                    && r == Err::<(), DbError>(
                    DbError::StoreClosed,
                )
                &&& self.legible(a) && values@.len() > 0 ==> frozen(
                    a,
                    b,
                    h.mode == 2 || !self.full_in(a.records),
                    r,
                )
                &&& self.wf(a.records) && r is Ok ==> Self::fitting(h, values@.len())
                    == values@.len() && self.became(
                    a,
                    b,
                    all_enqueued(
                        h.mode,
                        h.capacity as nat,
                        self.elements(a.records),
                        models(values@),
                    ),
                )
                &&& self.good(a) && a.room >= values@.len() ==> {
                    let fit = Self::fitting(h, values@.len());
                    &&& fit == values@.len() ==> r is Ok
                    &&& fit < values@.len() ==> (r matches Err(e) && e matches DbError::Unsupported(
                        m,
                    ) && m@ == "blocking queue is full"@)
                    &&& self.became(
                        a,
                        b,
                        all_enqueued(
                            h.mode,
                            h.capacity as nat,
                            self.elements(a.records),
                            models(values@).take(fit as int),
                        ),
                    )
                }
            }),
    {
        let ghost a = store.state();
        let ghost h = self.header_of(a.records);
        let ghost served = self.good(a) && a.room >= values@.len();
        let ghost good = self.wf(a.records);
        let ghost fit = Self::fitting(h, values@.len());
        let ghost vs = models(values@);
        let mut i: usize = 0;
        proof {
            assert(vs.take(0) =~= Seq::empty());
            if good {
                self.lemma_became(
                    a,
                    a,
                    self.chain(a.records),
                    self.chain(a.records),
                    self.elements(a.records),
                );
            }
        }
        while i < values.len()
            invariant
                i <= values@.len(),
                vs == models(values@),
                a == old(store).state(),
                h == self.header_of(a.records),
                served == (self.good(a) && a.room >= values@.len()),
                good == self.wf(a.records),
                fit == Self::fitting(h, values@.len()),
                good ==> i <= fit,
                self.legible(a) && a.read_only && !a.closed ==> i == 0 && store.state().records
                    == a.records,
                forall|i: int|
                    #![trigger values@[i]]
                    0 <= i < values@.len() ==> self.ser().fits(values@[i]@),
                keeps_state(a, store.state()),
                store.state().room + i >= a.room,
                self.is_shut() || a.closed ==> i == 0 && store.state() == a,
                good ==> self.became(
                    a,
                    store.state(),
                    all_enqueued(
                        h.mode,
                        h.capacity as nat,
                        self.elements(a.records),
                        vs.take(i as int),
                    ),
                ),
                good ==> h.mode == 2 || self.elements(store.state().records).len() == h.size + i,
            decreases values@.len() - i,
        {
            let ghost m = store.state();
            assert(self.ser().fits(values@[i as int]@));
            let value = self.serializer.dup(&values[i]);
            match self.add(store, value) {
                Ok(_) => {},
                Err(e) => {
                    return Err(e);
                },
            }
            proof {
                if good {
                    let t = vs.take(i + 1);
                    assert(t.drop_last() =~= vs.take(i as int));
                    assert(t.last() == values@[i as int]@);
                    self.lemma_twice(a, m, store.state());
                }
            }
            i = i + 1;
        }
        assert(vs.take(i as int) =~= vs);
        Ok(())
    }

    /// Removes the first element and answers it; `None` where the queue is empty.
    pub fn poll<S: Store>(&self, store: &mut S) -> (r: Result<Option<Se::Item>>)
        ensures
            self.polled(old(store).state(), final(store).state(), r),
    {
        let h = match self.header(store) {
            Ok(x) => x,
            Err(e) => {
                return Err(e);
            },
        };
        if h.size == 0 {
            proof {
                if self.wf(old(store).state().records) {
                    let a = old(store).state();
                    self.lemma_became(
                        a,
                        a,
                        self.chain(a.records),
                        self.chain(a.records),
                        self.elements(a.records),
                    );
                }
            }
            return Ok(None);
        }
        match self.dequeue(store, &h) {
            Ok((_, v)) => Ok(v),
            Err(e) => Err(e),
        }
    }

    /// What taking the first element does.
    pub open spec fn polled(
        &self,
        a: StoreState,
        b: StoreState,
        r: Result<Option<Se::Item>>,
    ) -> bool {
        let s = self.elements(a.records);
        &&& keeps_state(a, b)
        &&& b.room >= a.room
        &&& self.is_shut() || a.closed ==> b == a
            && r == Err::<Option<Se::Item>, DbError>(DbError::StoreClosed)
        &&& self.legible(a) ==> frozen(a, b, s.len() > 0, r)
        &&& self.legible(a) && s.len() == 0 ==> b == a && (r matches Ok(v) && v is None)
        &&& self.good(a) ==> r is Ok
        &&& self.wf(a.records) && s.len() == 0 && r is Ok ==> b == a && r.unwrap() is None
        &&& self.wf(a.records) && s.len() > 0 && r is Ok ==> (r matches Ok(Some(v)) && v@ == s[0])
            && self.became(a, b, s.skip(1))
    }

    /// The first element; `None` where the queue is empty.
    pub fn peek<S: Store>(&self, store: &S) -> (r: Result<Option<Se::Item>>)
        ensures
            self.is_shut() || store.state().closed
                ==> r == Err::<Option<Se::Item>, DbError>(DbError::StoreClosed),
            self.wf(store.state().records) ==> (!self.is_shut() ==> served(store.state(), r)) && (
            r matches Ok(v) ==> opt_model(v) == if self.elements(store.state().records).len() > 0 {
                Some(self.elements(store.state().records)[0])
            } else {
                None
            }),
    {
        let h = match self.header(store) {
            Ok(x) => x,
            Err(e) => {
                return Err(e);
            },
        };
        if h.size == 0 {
            return Ok(None);
        }
        proof {
            if self.wf(store.state().records) {
                assert(place_ok(
                    &self.ser(),
                    store.state().records,
                    self.chain(store.state().records),
                    0,
                ));
            }
        }
        match self.node(store, h.head) {
            Ok(n) => Ok(Some(n.value)),
            Err(e) => Err(e),
        }
    }

    /// One attempt of an operation that waits for an element: it removes and answers
    /// the first element, or says to wait as long as there is time left.
    pub fn take_step<S: Store>(&self, store: &mut S, time_left: bool) -> (r: Result<
        Waiting<Se::Item>,
    >)
        ensures
            ({
                let a = old(store).state();
                let b = final(store).state();
                let s = self.elements(a.records);
                &&& keeps_state(a, b)
                &&& self.is_shut() || a.closed ==> b == a && r == Err::<Waiting<Se::Item>, DbError>(
                    DbError::StoreClosed,
                )
                &&& self.legible(a) ==> frozen(a, b, s.len() > 0, r)
                &&& self.legible(a) && s.len() == 0 ==> b == a && (r matches Ok(w) && (w is Wait)
                    == time_left && (w is GaveUp) == !time_left)
                &&& self.good(a) ==> r is Ok
                &&& self.wf(a.records) && s.len() > 0 && r is Ok ==> (r matches Ok(Waiting::Done(v))
                    && v@ == s[0]) && self.became(a, b, s.skip(1))
                &&& self.wf(a.records) && s.len() == 0 && r is Ok ==> b == a
                    && !(r.unwrap() is Done)
                    && (r.unwrap() is Wait) == time_left
            }),
    {
        match self.poll(store) {
            Ok(Some(v)) => Ok(Waiting::Done(v)),
            Ok(None) => if time_left {
                Ok(Waiting::Wait)
            } else {
                Ok(Waiting::GaveUp)
            },
            Err(e) => Err(e),
        }
    }

    /// One attempt of an operation that waits for room: it puts the element, or says
    /// to wait as long as there is time left.
    pub fn put_step<S: Store>(
        &self,
        store: &mut S,
        value: &Se::Item,
        time_left: bool,
    ) -> (r: Result<Waiting<()>>)
        requires
            self.ser().fits(value@),
        ensures
            ({
                let a = old(store).state();
                let b = final(store).state();
                let h = self.header_of(a.records);
                let refused = self.full_in(a.records) && h.mode != 2;
                &&& keeps_state(a, b)
                &&& self.is_shut() || a.closed ==> b == a
                    && r == Err::<Waiting<()>, DbError>(DbError::StoreClosed)
                &&& self.legible(a) ==> frozen(a, b, !refused, r)
                &&& self.legible(a) && refused ==> b == a && (r matches Ok(w) && (w is Wait)
                    == time_left && (w is GaveUp) == !time_left)
                &&& self.good(a) && !refused && a.room > 0 ==> r is Ok
                &&& self.wf(a.records) && refused && r is Ok ==> b == a
                    && !(r.unwrap() is Done) && (
                r.unwrap() is Wait) == time_left
                &&& self.wf(a.records) && !refused && r is Ok ==> r.unwrap() is Done && self.became(
                    a,
                    b,
                    enqueued(h.mode, self.full_in(a.records), self.elements(a.records), value@),
                )
            }),
    {
        match self.try_put(store, value) {
            Ok(true) => Ok(Waiting::Done(())),
            Ok(false) => if time_left {
                Ok(Waiting::Wait)
            } else {
                Ok(Waiting::GaveUp)
            },
            Err(e) => Err(e),
        }
    }

    /// How many elements the queue holds.
    pub fn len<S: Store>(&self, store: &S) -> (r: Result<u64>)
        ensures
            self.is_shut() || store.state().closed
                ==> r == Err::<u64, DbError>(DbError::StoreClosed),
            self.wf(store.state().records) ==> (!self.is_shut() ==> served(store.state(), r)) && (
            r matches Ok(n) ==> n == self.elements(store.state().records).len()),
    {
        match self.header(store) {
            Ok(h) => Ok(h.size),
            Err(e) => Err(e),
        }
    }

    pub fn is_empty<S: Store>(&self, store: &S) -> (r: Result<bool>)
        ensures
            self.is_shut() || store.state().closed
                ==> r == Err::<bool, DbError>(DbError::StoreClosed),
            self.wf(store.state().records) ==> (!self.is_shut() ==> served(store.state(), r)) && (
            r matches Ok(x) ==> x == (self.elements(store.state().records).len() == 0)),
    {
        match self.len(store) {
            Ok(n) => Ok(n == 0),
            Err(e) => Err(e),
        }
    }

    /// How many more elements fit.
    pub fn remaining_capacity<S: Store>(&self, store: &S) -> (r: Result<u64>)
        ensures
            self.is_shut() || store.state().closed
                ==> r == Err::<u64, DbError>(DbError::StoreClosed),
            self.wf(store.state().records) ==> (!self.is_shut() ==> served(store.state(), r)) && (
            r matches Ok(n) ==> n == self.header_of(store.state().records).capacity - self.elements(
                store.state().records,
            ).len()),
            !self.is_shut() && store.state().readable && (header_at(
                store.state().records,
                self.header_id(),
            ) matches Some(h) && h.size > h.capacity) ==> (r matches Err(e) && is_corrupt(
                e,
                "blocking queue: size exceeds capacity"@,
            )),
    {
        match self.header(store) {
            Ok(h) => match h.capacity.checked_sub(h.size) {
                Some(n) => Ok(n),
                None => Err(DbError::corrupt("blocking queue: size exceeds capacity")),
            },
            Err(e) => Err(e),
        }
    }

    /// Whether the queue holds an element.
    pub fn contains<S: Store>(&self, store: &S, value: &Se::Item) -> (r: Result<bool>)
        ensures
            self.is_shut() || store.state().closed
                ==> r == Err::<bool, DbError>(DbError::StoreClosed),
            self.wf(store.state().records) ==> (!self.is_shut() ==> served(store.state(), r)) && (
            r matches Ok(x) ==> x == self.elements(store.state().records).contains(value@)),
    {
        let ghost st = store.state();
        let ghost good = self.wf(st.records);
        let ghost c = self.chain(st.records);
        let ghost s = self.elements(st.records);
        let h = match self.header(store) {
            Ok(x) => x,
            Err(e) => {
                return Err(e);
            },
        };
        let mut recid: u64 = h.head;
        let mut steps: u64 = 0;
        proof {
            if good {
                self.lemma_len(st.records, c);
            }
        }
        while recid != 0
            invariant
                st == store.state(),
                c == self.chain(st.records),
                s == self.elements(st.records),
                good == self.wf(st.records),
                !self.is_shut() && !store.state().closed,
                good ==> {
                    &&& c.len() < u64::MAX
                    &&& steps <= c.len()
                    &&& recid == after(c, steps - 1)
                    &&& forall|j: int| 0 <= j < steps ==> #[trigger] s[j] != value@
                },
            decreases u64::MAX - steps,
        {
            proof {
                if good {
                    assert(place_ok(&self.ser(), st.records, c, steps as int));
                }
            }
            let n = match self.node(store, recid) {
                Ok(x) => x,
                Err(e) => {
                    return Err(e);
                },
            };
            if self.serializer.equals(&n.value, value) {
                proof {
                    if good {
                        assert(s[steps as int] == value@);
                    }
                }
                return Ok(true);
            }
            if steps == u64::MAX {
                return Err(DbError::corrupt("blocking queue: endless chain of nodes"));
            }
            recid = n.next;
            steps = steps + 1;
        }
        proof {
            if good {
                if steps < c.len() {
                    assert(place_ok(&self.ser(), st.records, c, steps as int));
                }
            }
        }
        Ok(false)
    }

    /// The chain is shorter than the largest number.
    proof fn lemma_len(&self, records: Records, c: Seq<u64>)
        requires
            self.holds(records, c),
        ensures
            c.len() < u64::MAX,
    {
    }

    /// Removes the first element that equals `value`; answers whether there was one.
    pub fn remove_value<S: Store>(&self, store: &mut S, value: &Se::Item) -> (r: Result<bool>)
        ensures
            ({
                let a = old(store).state();
                let b = final(store).state();
                let s = self.elements(a.records);
                &&& keeps_state(a, b)
                &&& b.room >= a.room
                &&& self.is_shut() || a.closed ==> b == a
                    && r == Err::<bool, DbError>(DbError::StoreClosed)
                &&& self.legible(a) ==> frozen(a, b, s.contains(value@), r)
                &&& self.legible(a) && !s.contains(value@) ==> b == a
                    && r == Ok::<bool, DbError>(false)
                &&& self.good(a) ==> r is Ok
                &&& self.wf(a.records) && !s.contains(value@) && r is Ok ==> b == a && !r.unwrap()
                &&& forall|i: int|
                    self.wf(a.records) && #[trigger] first_place(s, value@, i) && r is Ok
                        ==> r.unwrap() && self.became(a, b, s.remove(i))
            }),
    {
        let ghost a = store.state();
        let ghost legible = self.wf(a.records);
        let ghost c = self.chain(a.records);
        let ghost s = self.elements(a.records);
        let h = match self.header(store) {
            Ok(x) => x,
            Err(e) => {
                return Err(e);
            },
        };
        let mut previous: u64 = 0;
        let mut recid: u64 = h.head;
        let mut steps: u64 = 0;
        while recid != 0
            invariant
                a == old(store).state(),
                store.state() == a,
                c == self.chain(a.records),
                s == self.elements(a.records),
                legible == self.wf(a.records),
                !self.is_shut() && !a.closed,
                legible ==> {
                    &&& h == self.header_of(a.records)
                    &&& steps <= c.len()
                    &&& recid == after(c, steps - 1)
                    &&& previous == if steps > 0 {
                        c[steps - 1]
                    } else {
                        0
                    }
                    &&& forall|j: int| 0 <= j < steps ==> #[trigger] s[j] != value@
                },
            decreases u64::MAX - steps,
        {
            proof {
                if legible {
                    assert(place_ok(&self.ser(), a.records, c, steps as int));
                    if steps > 0 {
                        assert(place_ok(&self.ser(), a.records, c, steps - 1));
                    }
                }
            }
            let n = match self.node(store, recid) {
                Ok(x) => x,
                Err(e) => {
                    return Err(e);
                },
            };
            if self.serializer.equals(&n.value, value) {
                proof {
                    if legible {
                        assert(s[steps as int] == value@);
                        assert(first_place(s, value@, steps as int));
                        assert forall|i: int| #[trigger] first_place(s, value@, i) implies i
                            == steps as int by {
                            if i < steps {
                                assert(s[i] != value@);
                            } else if i > steps {
                                assert(s[steps as int] != value@);
                            }
                        }
                    }
                }
                return self.unlink(store, &h, previous, recid, n.next, Ghost(steps as int));
            }
            if steps == u64::MAX {
                return Err(DbError::corrupt("blocking queue: endless chain of nodes"));
            }
            previous = recid;
            recid = n.next;
            steps = steps + 1;
        }
        proof {
            if legible && steps < c.len() {
                assert(place_ok(&self.ser(), a.records, c, steps as int));
            }
        }
        Ok(false)
    }

    /// Unlinks the node at place `at` and deletes it.
    fn unlink<S: Store>(
        &self,
        store: &mut S,
        h: &Header,
        previous: u64,
        recid: u64,
        next: u64,
        Ghost(at): Ghost<int>,
    ) -> (r: Result<bool>)
        requires
            recid != 0,
        ensures
            ({
                let a = old(store).state();
                let b = final(store).state();
                let c = self.chain(a.records);
                &&& keeps_state(a, b)
                &&& b.room >= a.room
                &&& self.legible(a) && *h == self.header_of(a.records) && 0 <= at < c.len() && recid
                    == c[at] && next == after(c, at) && previous == (if at > 0 {
                    c[at - 1]
                } else {
                    0
                }) ==> frozen(a, b, true, r)
                &&& self.wf(a.records) && *h == self.header_of(a.records) && 0 <= at < c.len()
                    && recid == c[at] && next == after(c, at) && previous == (if at > 0 {
                    c[at - 1]
                } else {
                    0
                }) ==> carried_out(a, r) && (r matches Ok(x) ==> x && self.became(
                    a,
                    b,
                    self.elements(a.records).remove(at),
                ))
            }),
    {
        let ghost a = store.state();
        let ghost c = self.chain(a.records);
        let ghost there = self.wf(a.records) && *h == self.header_of(a.records) && 0 <= at < c.len()
            && recid == c[at] && next == after(c, at) && previous == (if at > 0 {
            c[at - 1]
        } else {
            0
        });
        let ghost good = there;
        let size: u64 = match h.size.checked_sub(1) {
            Some(x) => x,
            None => {
                return Err(DbError::corrupt("blocking queue: size underflow"));
            },
        };
        proof {
            if there {
                assert(place_ok(&self.ser(), a.records, c, at));
                if at > 0 {
                    assert(place_ok(&self.ser(), a.records, c, at - 1));
                }
            }
        }
        let nh: Header;
        if previous == 0 {
            nh = Header {
                mode: h.mode,
                head: next,
                tail: if h.size == 1 {
                    0
                } else {
                    h.tail
                },
                size,
                capacity: h.capacity,
            };
        } else {
            let prev_node = match self.node(store, previous) {
                Ok(x) => x,
                Err(e) => {
                    return Err(e);
                },
            };
            let relinked = QNode { next, value: prev_node.value };
            match update_item(store, previous, &relinked, &self.node_ser()) {
                Ok(_) => {},
                Err(e) => {
                    return Err(e);
                },
            }
            nh = Header {
                mode: h.mode,
                head: h.head,
                tail: if h.tail == recid {
                    previous
                } else {
                    h.tail
                },
                size,
                capacity: h.capacity,
            };
        }
        match update_item(store, self.header_recid, &nh, &HEADER_SER) {
            Ok(_) => {},
            Err(e) => {
                return Err(e);
            },
        }
        match store.delete(recid) {
            Ok(_) => {},
            Err(e) => {
                return Err(e);
            },
        }
        proof {
            if good {
                if at < c.len() - 1 {
                    assert(c[at] != c[c.len() - 1]);
                }
                self.lemma_unlink(a, store.state(), c, at, nh);
            }
        }
        Ok(true)
    }

    #[verifier::spinoff_prover]
    #[verifier::rlimit(60)]
    proof fn lemma_unlink(&self, a: StoreState, b: StoreState, c: Seq<u64>, at: int, nh: Header)
        requires
            self.holds(a.records, c),
            keeps_state(a, b),
            0 <= at < c.len(),
            at > 0 ==> self.ser().fits(element_at(&self.ser(), a.records, c[at - 1]).unwrap().1),
            ({
                let h = self.header_of(a.records);
                nh == Header {
                    mode: h.mode,
                    head: if at == 0 {
                        after(c, 0)
                    } else {
                        h.head
                    },
                    tail: if at < c.len() - 1 {
                        h.tail
                    } else if at > 0 {
                        c[at - 1]
                    } else {
                        0
                    },
                    size: (h.size - 1) as u64,
                    capacity: h.capacity,
                }
            }),
            ({
                let m = if at > 0 {
                    a.records.insert(
                        c[at - 1],
                        Some(
                            (NodeSer { elem: &self.ser() }).enc(
                                (
                                    after(c, at),
                                    element_at(&self.ser(), a.records, c[at - 1]).unwrap().1,
                                ),
                            ),
                        ),
                    )
                } else {
                    a.records
                };
                b.records == m.insert(self.header_id(), Some(HEADER_SER.enc(nh))).remove(c[at])
            }),
        ensures
            self.became(a, b, elements_of(&self.ser(), a.records, c).remove(at)),
    {
        let d = c.remove(at);
        let ser = self.ser();
        let s = elements_of(&ser, a.records, c).remove(at);
        lemma_enc_dec(&HEADER_SER, nh);
        if at > 0 {
            assert(place_ok(&ser, a.records, c, at - 1));
            lemma_enc_dec(
                &NodeSer { elem: &ser },
                (after(c, at), element_at(&ser, a.records, c[at - 1]).unwrap().1),
            );
            assert(c[at - 1] != c[at]);
        }
        assert forall|i: int| 0 <= i < d.len() implies #[trigger] place_ok(&ser, b.records, d, i)
            && element_at(&ser, b.records, d[i]).unwrap().1 == s[i] by {
            let j = if i < at {
                i
            } else {
                i + 1
            };
            assert(place_ok(&ser, a.records, c, j));
            assert(d[i] == c[j]);
            assert(s[i] == elements_of(&ser, a.records, c)[j]);
            assert(c[j] != c[at]) by {
                if j < at {
                } else {
                }
            }
            if j != at - 1 {
                assert(after(d, i) == after(c, j));
                if at > 0 {
                    assert(c[j] != c[at - 1]);
                }
                assert(item_at(&NodeSer { elem: &ser }, b.records, d[i]) == item_at(
                    &NodeSer { elem: &ser },
                    a.records,
                    c[j],
                ));
            } else {
                assert(after(d, i) == after(c, at));
            }
        }
        assert forall|i: int, j: int| #![trigger d[i], d[j]] 0 <= i < j < d.len()
            implies d[i] != d[j] by {
            let x = if i < at {
                i
            } else {
                i + 1
            };
            let y = if j < at {
                j
            } else {
                j + 1
            };
            assert(c[x] != c[y]);
        }
        assert forall|i: int| #![trigger d[i]] 0 <= i < d.len()
            implies d[i] != self.header_id() by {
            if i < at {
                assert(c[i] != self.header_id());
            } else {
                assert(c[i + 1] != self.header_id());
            }
        }
        assert(c[at] != self.header_id());
        assert(self.holds(b.records, d));
        assert(elements_of(&ser, b.records, d) =~= s);
        assert forall|x: u64| #[trigger]
            a.records.contains_key(x) && x != self.header_id() && !c.contains(x)
            implies b.records.contains_key(x) && b.records[x] == a.records[x] && !d.contains(x) by {
            assert(c.contains(c[at]));
            if at > 0 {
                assert(c.contains(c[at - 1]));
            }
            if d.contains(x) {
                let i = choose|i: int| 0 <= i < d.len() && d[i] == x;
                if i < at {
                    assert(c[i] == x);
                } else {
                    assert(c[i + 1] == x);
                }
            }
        }
        self.lemma_became(a, b, c, d, s);
    }

    /// Moves up to `max_elements` elements, first to leave first, to the end of
    /// `target`; answers how many.
    pub fn drain_to<S: Store>(
        &self,
        store: &mut S,
        target: &mut Vec<Se::Item>,
        max_elements: usize,
    ) -> (r: Result<usize>)
        ensures
            ({
                let a = old(store).state();
                let b = final(store).state();
                let s = self.elements(a.records);
                let k = if max_elements < s.len() {
                    max_elements as int
                } else {
                    s.len() as int
                };
                &&& keeps_state(a, b)
                &&& b.room >= a.room
                &&& max_elements == 0 ==> r == Ok::<usize, DbError>(0) && b == a
                &&& (self.is_shut() || a.closed) && max_elements > 0 ==> b == a
                    && r == Err::<usize, DbError>(
                    DbError::StoreClosed,
                )
                &&& self.legible(a) ==> frozen(a, b, k > 0, r)
                &&& self.good(a) ==> r is Ok
                &&& self.wf(a.records) && r is Ok ==> {
                    &&& r.unwrap() == k
                    &&& self.became(a, b, s.skip(k))
                    &&& models(final(target)@) == models(old(target)@) + s.take(k)
                }
            }),
    {
        let ghost a = store.state();
        let ghost s = self.elements(a.records);
        let ghost good = self.wf(a.records);
        let mut count: usize = 0;
        proof {
            if good {
                assert(s.skip(0) =~= s);
                self.lemma_became(a, a, self.chain(a.records), self.chain(a.records), s);
                assert(models(target@) =~= models(old(target)@) + s.take(0));
            }
        }
        while count < max_elements
            invariant_except_break
                good && count < max_elements ==> count <= s.len(),
            invariant
                self.legible(a) && a.read_only && !a.closed ==> count == 0 && store.state().records
                    == a.records,
                a == old(store).state(),
                s == self.elements(a.records),
                good == self.wf(a.records),
                count <= max_elements,
                keeps_state(a, store.state()),
                store.state().room >= a.room,
                max_elements == 0 || self.is_shut() || a.closed ==> count == 0
                    && store.state() == a,
                good ==> {
                    &&& count <= s.len()
                    &&& self.became(a, store.state(), s.skip(count as int))
                    &&& models(target@) == models(old(target)@) + s.take(count as int)
                },
            ensures
                good ==> count == max_elements || count == s.len(),
                self.is_shut() || a.closed ==> max_elements == 0,
                self.legible(a) && a.read_only && !a.closed ==> max_elements == 0 || s.len() == 0,
            decreases max_elements - count,
        {
            let ghost m = store.state();
            let ghost t = target@;
            match self.poll(store) {
                Ok(Some(v)) => {
                    proof {
                        if good {
                            assert(s.skip(count as int).skip(1) =~= s.skip(count + 1));
                            self.lemma_twice(a, m, store.state());
                        }
                    }
                    target.push(v);
                    proof {
                        if good {
                            assert(v@ == s[count as int]);
                            assert(models(target@) =~= models(t).push(v@));
                            assert(models(target@) =~= models(old(target)@) + s.take(count + 1));
                        }
                    }
                    count = count + 1;
                },
                Ok(None) => {
                    proof {
                        if good {
                            assert(store.state() == m);
                        }
                    }
                    break ;
                },
                Err(e) => {
                    return Err(e);
                },
            }
        }
        Ok(count)
    }

    /// Removes all elements.
    pub fn clear<S: Store>(&self, store: &mut S) -> (r: Result<()>)
        ensures
            keeps_state(old(store).state(), final(store).state()),
            final(store).state().room >= old(store).state().room,
            self.is_shut() || old(store).state().closed
                ==> final(store).state() == old(store).state() && r == Err::<(), DbError>(
                DbError::StoreClosed,
            ),
            self.legible(old(store).state()) ==> frozen(
                old(store).state(),
                final(store).state(),
                self.elements(old(store).state().records).len() > 0,
                r,
            ),
            self.good(old(store).state()) ==> r is Ok,
            self.wf(old(store).state().records) && r is Ok ==> self.became(
                old(store).state(),
                final(store).state(),
                Seq::empty(),
            ),
    {
        let ghost a = store.state();
        let ghost good = self.wf(a.records);
        let mut h = match self.header(store) {
            Ok(x) => x,
            Err(e) => {
                return Err(e);
            },
        };
        proof {
            if good {
                self.lemma_became(
                    a,
                    a,
                    self.chain(a.records),
                    self.chain(a.records),
                    self.elements(a.records),
                );
            }
        }
        while h.size != 0
            invariant
                a == old(store).state(),
                good == self.wf(a.records),
                !self.is_shut() && !a.closed,
                keeps_state(a, store.state()),
                store.state().room >= a.room,
                self.legible(a) && a.read_only && !a.closed ==> store.state().records == a.records
                    && h == self.header_of(a.records),
                good ==> self.became(a, store.state(), self.elements(store.state().records))
                    && self.header_of(store.state().records) == h,
            decreases h.size,
        {
            let ghost m = store.state();
            match self.dequeue(store, &h) {
                Ok((x, _)) => {
                    h = x;
                },
                Err(e) => {
                    return Err(e);
                },
            }
            proof {
                if good {
                    self.lemma_twice(a, m, store.state());
                }
            }
        }
        proof {
            if good {
                assert(self.elements(store.state().records) =~= Seq::empty());
            }
        }
        Ok(())
    }

    /// Deletes all records of the queue, also once the handle is closed.
    pub fn purge_records<S: Store>(&self, store: &mut S) -> (r: Result<()>)
        ensures
            ({
                let a = old(store).state();
                let b = final(store).state();
                &&& keeps_state(a, b)
                &&& b.room >= a.room
                &&& self.wf(a.records) ==> frozen(a, b, true, r)
                &&& self.wf(a.records) ==> carried_out(a, r)
                &&& self.wf(a.records) && r is Ok ==> {
                    &&& forall|x: u64| #[trigger]
                        b.records.contains_key(x) <==> a.records.contains_key(x) && !self.owned(
                            a.records,
                        ).contains(x)
                    &&& forall|x: u64| #[trigger] b.records.contains_key(x) ==> b.records[x]
                        == a.records[x]
                }
            }),
    {
        let ghost a = store.state();
        let ghost good = self.wf(a.records);
        let ghost ro = self.wf(a.records) && a.readable && a.read_only && !a.closed;
        let ghost c = self.chain(a.records);
        match get_item(store, self.header_recid, &HEADER_SER) {
            Ok(Some(h)) => {
                let mut recid: u64 = h.head;
                let ghost mut k: int = 0;
                proof {
                    store.records_finite();
                }
                while recid != 0
                    invariant
                        a == old(store).state(),
                        good == self.wf(a.records),
                        c == self.chain(a.records),
                        keeps_state(a, store.state()),
                        store.state().room >= a.room,
                        store.state().records.dom().finite(),
                        ro == (self.wf(a.records) && a.readable && a.read_only && !a.closed),
                        ro ==> store.state().records == a.records && recid == after(c, -1),
                        good ==> {
                            &&& 0 <= k <= c.len()
                            &&& recid == after(c, k - 1)
                            &&& forall|x: u64| #[trigger]
                                store.state().records.contains_key(x) <==> a.records.contains_key(x)
                                    && !c.take(k).contains(x)
                            &&& forall|x: u64| #[trigger]
                                store.state().records.contains_key(x)
                                    ==> store.state().records[x] == a.records[x]
                        },
                    decreases store.state().records.dom().len(),
                {
                    let ghost m = store.state();
                    proof {
                        if ro {
                            assert(place_ok(&self.ser(), a.records, c, 0));
                        }
                        if good {
                            self.lemma_front_kept(a.records, m.records, c, k);
                        }
                    }
                    let next: u64 = match self.node(store, recid) {
                        Ok(n) => n.next,
                        Err(e) => {
                            return Err(e);
                        },
                    };
                    match store.delete(recid) {
                        Ok(_) => {},
                        Err(e) => {
                            return Err(e);
                        },
                    }
                    proof {
                        if good {
                            let t = c.take(k + 1);
                            assert forall|x: u64| t.contains(x) == (c.take(k).contains(x) || x
                                == recid) by {
                                if t.contains(x) {
                                    let i = choose|i: int| 0 <= i < t.len() && t[i] == x;
                                    if i < k {
                                        assert(c.take(k)[i] == x);
                                    }
                                }
                                if c.take(k).contains(x) {
                                    let i = choose|i: int| 0 <= i < k && c.take(k)[i] == x;
                                    assert(t[i] == x);
                                }
                                if x == recid {
                                    assert(t[k] == x);
                                }
                            }
                        }
                        k = k + 1;
                    }
                    recid = next;
                }
                proof {
                    if good {
                        if k < c.len() {
                            assert(place_ok(&self.ser(), a.records, c, k));
                        }
                        assert(c.take(k) =~= c);
                    }
                }
            },
            Ok(None) => {},
            Err(e) => {
                return Err(e);
            },
        }
        proof {
            if good {
                assert(!c.contains(self.header_id()));
            }
        }
        store.delete(self.header_recid)
    }

    proof fn lemma_front_kept(&self, a: Records, m: Records, c: Seq<u64>, k: int)
        requires
            self.holds(a, c),
            0 <= k <= c.len(),
            after(c, k - 1) != 0,
            forall|x: u64| #[trigger]
                m.contains_key(x) <==> a.contains_key(x) && !c.take(k).contains(x),
            forall|x: u64| #[trigger] m.contains_key(x) ==> m[x] == a[x],
        ensures
            k < c.len(),
            m.contains_key(c[k]),
            element_at(&self.ser(), m, c[k]) matches Some(n) && n.0 == after(c, k),
    {
        assert(place_ok(&self.ser(), a, c, k));
        if c.take(k).contains(c[k]) {
            let i = choose|i: int| 0 <= i < k && c.take(k)[i] == c[k];
            assert(c[i] != c[k]);
        }
        assert(item_at(&NodeSer { elem: &self.ser() }, m, c[k]) == item_at(
            &NodeSer { elem: &self.ser() },
            a,
            c[k],
        ));
    }

    /// The elements, first to leave first.
    pub fn to_vec<S: Store>(&self, store: &S) -> (r: Result<Vec<Se::Item>>)
        ensures
            self.is_shut() || store.state().closed
                ==> r == Err::<Vec<Se::Item>, DbError>(DbError::StoreClosed),
            self.wf(store.state().records) ==> (!self.is_shut() ==> served(store.state(), r)) && (
            r matches Ok(v) ==> models(v@) == self.elements(store.state().records)),
    {
        let ghost st = store.state();
        let ghost good = self.wf(st.records);
        let ghost c = self.chain(st.records);
        let ghost s = self.elements(st.records);
        let h = match self.header(store) {
            Ok(x) => x,
            Err(e) => {
                return Err(e);
            },
        };
        let mut out: Vec<Se::Item> = Vec::new();
        let mut recid: u64 = h.head;
        let mut steps: u64 = 0;
        proof {
            assert(models(out@) =~= s.take(0));
        }
        while recid != 0
            invariant
                st == store.state(),
                c == self.chain(st.records),
                s == self.elements(st.records),
                good == self.wf(st.records),
                !self.is_shut() && !store.state().closed,
                good ==> {
                    &&& c.len() < u64::MAX
                    &&& steps <= c.len()
                    &&& recid == after(c, steps - 1)
                    &&& models(out@) == s.take(steps as int)
                },
            decreases u64::MAX - steps,
        {
            proof {
                if good {
                    assert(place_ok(&self.ser(), st.records, c, steps as int));
                }
            }
            let n = match self.node(store, recid) {
                Ok(x) => x,
                Err(e) => {
                    return Err(e);
                },
            };
            if steps == u64::MAX {
                return Err(DbError::corrupt("blocking queue: endless chain of nodes"));
            }
            let ghost o = out@;
            recid = n.next;
            out.push(n.value);
            proof {
                if good {
                    assert(s[steps as int] == out@.last()@);
                    assert(models(out@) =~= models(o).push(out@.last()@));
                    assert(models(out@) =~= s.take(steps + 1));
                }
            }
            steps = steps + 1;
        }
        proof {
            if good {
                if steps < c.len() {
                    assert(place_ok(&self.ser(), st.records, c, steps as int));
                }
                assert(s.take(steps as int) =~= s);
            }
        }
        Ok(out)
    }

    /// Closes the handle; the records stay.
    pub fn close_handle(&mut self)
        ensures
            final(self).is_shut(),
            final(self).ser() == old(self).ser(),
            final(self).header_id() == old(self).header_id(),
    {
        self.closed = true;
    }

    pub fn header_recid(&self) -> (r: u64)
        ensures
            r == self.header_id(),
    {
        self.header_recid
    }

    pub fn mode<S: Store>(&self, store: &S) -> (r: Result<Mode>)
        ensures
            self.is_shut() || store.state().closed
                ==> r == Err::<Mode, DbError>(DbError::StoreClosed),
            self.wf(store.state().records) ==> (!self.is_shut() ==> served(store.state(), r)) && (
            r matches Ok(m) ==> mode_number(m) == self.header_of(store.state().records).mode),
            r matches Ok(m) ==> (header_at(store.state().records, self.header_id()) matches Some(h)
                && h.mode == mode_number(m)),
            !self.is_shut() && store.state().readable ==> (header_at(
                store.state().records,
                self.header_id(),
            ) matches Some(h) ==> (0 <= h.mode <= 2 ==> r is Ok)),
    {
        match self.header(store) {
            Ok(h) => Mode::from_i32(h.mode),
            Err(e) => Err(e),
        }
    }

    pub fn serializer(&self) -> (r: &Se)
        ensures
            *r == self.ser(),
    {
        &self.serializer
    }

    /// Checks the structure; succeeds exactly when the header and the links fit.
    pub fn verify<S: Store>(&self, store: &S) -> (r: Result<()>)
        ensures
            self.is_shut() || store.state().closed
                ==> r == Err::<(), DbError>(DbError::StoreClosed),
            r is Ok ==> exists|c: Seq<u64>| #[trigger]
                linked(&self.ser(), store.state().records, self.header_id(), c),
            !self.is_shut() && store.state().readable && (exists|c: Seq<u64>| #[trigger]
                linked(&self.ser(), store.state().records, self.header_id(), c)) ==> r is Ok,
            !self.is_shut() && store.state().readable && self.wf(store.state().records) ==> r is Ok,
    {
        let ghost st = store.state();
        let ghost id = self.header_id();
        let ghost good = !self.is_shut() && st.readable && exists|c: Seq<u64>| #[trigger]
            linked(&self.ser(), st.records, id, c);
        let ghost d = choose|c: Seq<u64>| #[trigger] linked(&self.ser(), st.records, id, c);
        proof {
            if self.wf(st.records) {
                assert(linked(&self.ser(), st.records, id, self.chain(st.records)));
            }
        }
        let h = match self.header(store) {
            Ok(x) => x,
            Err(e) => {
                return Err(e);
            },
        };
        let mut count: u64 = 0;
        let mut recid: u64 = h.head;
        let mut last: u64 = 0;
        let ghost mut c: Seq<u64> = Seq::empty();
        while recid != 0
            invariant
                st == store.state(),
                id == self.header_id(),
                good == (!self.is_shut() && st.readable && exists|c: Seq<u64>| #[trigger]
                    linked(&self.ser(), st.records, id, c)),
                !self.is_shut() && st.readable && self.wf(st.records) ==> good,
                !self.is_shut() && !store.state().closed,
                header_at(st.records, id) == Some(h),
                good ==> linked(&self.ser(), st.records, id, d),
                good ==> count <= d.len() && c == d.take(count as int) && recid == after(
                    d,
                    count - 1,
                ),
                count == c.len(),
                count <= h.size,
                last == if c.len() > 0 {
                    c.last()
                } else {
                    0
                },
                c.len() > 0 ==> h.head == c[0],
                c.len() == 0 ==> h.head == recid,
                forall|i: int|
                    0 <= i < c.len() ==> (#[trigger] element_at(
                        &self.ser(),
                        st.records,
                        c[i],
                    ) matches Some(n) && n.0 == if i + 1 < c.len() {
                        c[i + 1]
                    } else {
                        recid
                    } && c[i] != 0),
            decreases h.size - count,
        {
            proof {
                if good {
                    assert(count < d.len());
                    assert(place_ok(&self.ser(), st.records, d, count as int));
                }
            }
            if count >= h.size {
                return Err(DbError::VerifyFailed(String::from_str("queue cycle/size mismatch")));
            }
            count = count + 1;
            last = recid;
            let n = match self.node(store, recid) {
                Ok(x) => x,
                Err(e) => {
                    return Err(e);
                },
            };
            proof {
                let c2 = c.push(recid);
                if good {
                    assert(c2 =~= d.take(count as int));
                }
                assert forall|i: int| 0 <= i < c2.len() implies (#[trigger] element_at(
                    &self.ser(),
                    st.records,
                    c2[i],
                ) matches Some(m) && m.0 == if i + 1 < c2.len() {
                    c2[i + 1]
                } else {
                    n.next
                } && c2[i] != 0) by {
                    if i < c.len() {
                        assert(element_at(&self.ser(), st.records, c[i]) is Some);
                    }
                }
                c = c2;
            }
            recid = n.next;
        }
        let tail_ok = if count == 0 {
            h.tail == 0
        } else {
            h.tail == last
        };
        proof {
            assert forall|i: int| 0 <= i < c.len() implies #[trigger] place_ok(
                &self.ser(),
                st.records,
                c,
                i,
            ) by {
                assert(element_at(&self.ser(), st.records, c[i]) is Some);
            }
            if good {
                if count < d.len() {
                    assert(place_ok(&self.ser(), st.records, d, count as int));
                }
                assert(c =~= d);
            }
        }
        if count != h.size || !tail_ok {
            return Err(DbError::VerifyFailed(String::from_str("queue header/link mismatch")));
        }
        proof {
            assert(linked(&self.ser(), st.records, id, c));
        }
        Ok(())
    }
}

/// What a queue holds once all of `vs` are put, one after the other.
pub open spec fn all_enqueued<V>(mode: i32, capacity: nat, s: Seq<V>, vs: Seq<V>) -> Seq<V>
    decreases vs.len(),
{
    if vs.len() == 0 {
        s
    } else {
        let before = all_enqueued(mode, capacity, s, vs.drop_last());
        enqueued(mode, before.len() >= capacity, before, vs.last())
    }
}

/// Two chains of the same records agree.
proof fn lemma_same_chain<Se: Serializer>(
    ser: &Se,
    records: Records,
    header_recid: u64,
    c: Seq<u64>,
    d: Seq<u64>,
    n: int,
)
    requires
        linked(ser, records, header_recid, c),
        linked(ser, records, header_recid, d),
        0 <= n <= c.len(),
    ensures
        c.len() == d.len(),
        forall|i: int| #![trigger c[i]] #![trigger d[i]] 0 <= i < n ==> c[i] == d[i],
    decreases n,
{
    if n > 0 {
        lemma_same_chain(ser, records, header_recid, c, d, n - 1);
        if n > 1 {
            assert(place_ok(ser, records, c, n - 2));
            assert(place_ok(ser, records, d, n - 2));
            assert(c[n - 2] == d[n - 2]);
        }
    }
}

} // verus!
