//! A persistent first-in first-out queue of pairs of a timestamp and a value.
//!
//! A queue is known by three pointer records: the oldest node, the place of the
//! next node, and the newest node (zero in an empty queue). Each holds one packed
//! recid. A node is four packed longs: the recids of its neighbours, its timestamp
//! and its value.

use vstd::prelude::*;
use crate::error::{is_corrupt, DbError, Result};
use crate::io::{rest, DataInput2, DataOutput2, SliceInput};
use crate::ser::{
    all_fit, dec_all, enc_all, law_group_round_trip, lemma_dec_all_none, lemma_dec_all_within,
    Serializer, LONG_PACKED,
};
use crate::store::{
    carried_out, compare_and_swap_item, get_item, item_at, keeps_state, lemma_enc_dec, put_item,
    served, turned_down, update_item, Records, Store, StoreState,
};

verus! {

/// A queue node: the recids of its neighbours, and what it carries. The oldest node
/// has no previous one; the newest is followed by the place of the next.
#[derive(Debug, Clone, Copy, PartialEq, Eq, Structural)]
pub struct Node {
    pub prev: u64,
    pub next: u64,
    pub timestamp: u64,
    pub value: u64,
}

impl View for Node {
    type V = Node;

    open spec fn view(&self) -> Node {
        *self
    }
}

impl Node {
    pub fn new(prev: u64, next: u64, timestamp: u64, value: u64) -> (r: Self)
        ensures
            r == (Node { prev, next, timestamp, value }),
    {
        Node { prev, next, timestamp, value }
    }

    fn with_prev(self, prev: u64) -> (r: Self)
        ensures
            r == (Node { prev, ..self }),
    {
        Node { prev, next: self.next, timestamp: self.timestamp, value: self.value }
    }

    fn with_next(self, next: u64) -> (r: Self)
        ensures
            r == (Node { next, ..self }),
    {
        Node { prev: self.prev, next, timestamp: self.timestamp, value: self.value }
    }

    fn with_links_and_timestamp(self, prev: u64, next: u64, timestamp: u64) -> (r: Self)
        ensures
            r == (Node { prev, next, timestamp, value: self.value }),
    {
        Node { prev, next, timestamp, value: self.value }
    }
}

/// The node codec.
#[derive(Debug, Clone, Copy)]
pub struct NodeSer;

impl Default for NodeSer {
    fn default() -> (r: Self)
        ensures
            r == NodeSer,
    {
        NodeSer
    }
}

/// The node codec.
pub const NODE_SER: NodeSer = NodeSer;

/// The four fields in the order in which they are written.
pub open spec fn fields(n: Node) -> Seq<u64> {
    seq![n.prev, n.next, n.timestamp, n.value]
}

pub open spec fn node_of(f: Seq<u64>) -> Node {
    Node { prev: f[0], next: f[1], timestamp: f[2], value: f[3] }
}

impl Serializer for NodeSer {
    type Item = Node;

    open spec fn fits(&self, v: Node) -> bool {
        true
    }

    open spec fn enc(&self, v: Node) -> Seq<u8> {
        enc_all(&LONG_PACKED, fields(v))
    }

    open spec fn dec(&self, s: Seq<u8>) -> Option<(Node, nat)> {
        match dec_all(&LONG_PACKED, s, 4) {
            Some((f, n)) => Some((node_of(f), n)),
            None => None,
        }
    }

    proof fn round_trip(&self, v: Node, tail: Seq<u8>) {
        assert(all_fit(&LONG_PACKED, fields(v)));
        law_group_round_trip(&LONG_PACKED, fields(v), tail);
    }

    proof fn dec_within(&self, s: Seq<u8>) {
        lemma_dec_all_within(&LONG_PACKED, s, 4);
    }

    fn can_write(&self, value: &Node) -> bool {
        true
    }

    fn serialize(&self, out: &mut DataOutput2, value: &Node) {
        out.pack_long(value.prev);
        out.pack_long(value.next);
        out.pack_long(value.timestamp);
        out.pack_long(value.value);
        proof {
            let f = fields(*value);
            reveal_with_fuel(enc_all, 5);
            assert(f.drop_last() =~= seq![value.prev, value.next, value.timestamp]);
            assert(f.drop_last().drop_last() =~= seq![value.prev, value.next]);
            assert(f.drop_last().drop_last().drop_last() =~= seq![value.prev]);
            assert(f.drop_last().drop_last().drop_last().drop_last() =~= Seq::<u64>::empty());
            assert(out@ =~= old(out)@ + self.enc(*value));
        }
    }

    fn deserialize(&self, input: &mut SliceInput<'_>) -> Result<Node> {
        let ghost s = rest(input.bytes(), input.cursor());
        let ghost at = input.cursor();
        let ghost f: Seq<u64> = Seq::empty();
        let prev: u64 = match read_field(input, Ghost(s), Ghost(at), Ghost(f), Ghost(4)) {
            Ok(x) => x,
            Err(e) => {
                return Err(e);
            },
        };
        let ghost f: Seq<u64> = f.push(prev);
        let next: u64 = match read_field(input, Ghost(s), Ghost(at), Ghost(f), Ghost(4)) {
            Ok(x) => x,
            Err(e) => {
                return Err(e);
            },
        };
        let ghost f: Seq<u64> = f.push(next);
        let timestamp: u64 = match read_field(input, Ghost(s), Ghost(at), Ghost(f), Ghost(4)) {
            Ok(x) => x,
            Err(e) => {
                return Err(e);
            },
        };
        let ghost f: Seq<u64> = f.push(timestamp);
        let value: u64 = match read_field(input, Ghost(s), Ghost(at), Ghost(f), Ghost(4)) {
            Ok(x) => x,
            Err(e) => {
                return Err(e);
            },
        };
        Ok(Node { prev, next, timestamp, value })
    }

    fn equals(&self, a: &Node, b: &Node) -> bool {
        *a == *b
    }

    fn dup(&self, a: &Node) -> Node {
        *a
    }

    open spec fn width(&self) -> Option<usize> {
        None
    }

    proof fn width_is_exact(&self, v: Node) {
    }

    fn fixed_size(&self) -> Option<usize> {
        None
    }
}

/// Reads the next of `count` packed longs at the start of `s`.
pub(super) fn read_field(
    input: &mut SliceInput<'_>,
    Ghost(s): Ghost<Seq<u8>>,
    Ghost(at): Ghost<nat>,
    Ghost(done): Ghost<Seq<u64>>,
    Ghost(count): Ghost<nat>,
) -> (r: Result<u64>)
    requires
        s == rest(old(input).bytes(), at),
        done.len() < count,
        dec_all(&LONG_PACKED, s, done.len()) matches Some((g, n)) && g == done && n <= s.len()
            && old(
            input,
        ).cursor() == at + n,
    ensures
        final(input).bytes() == old(input).bytes(),
        r matches Ok(v) ==> (dec_all(&LONG_PACKED, s, done.len() + 1) matches Some((g, n)) && g
            == done.push(v) && n <= s.len() && final(input).cursor() == at + n),
        r matches Err(e) ==> e is DataCorruption && dec_all(&LONG_PACKED, s, count) is None,
{
    proof {
        let n = dec_all(&LONG_PACKED, s, done.len()).unwrap().1;
        assert(rest(input.bytes(), input.cursor()) =~= s.skip(n as int));
        LONG_PACKED.dec_within(s.skip(n as int));
    }
    match input.unpack_long() {
        Ok(v) => Ok(v),
        Err(e) => {
            proof {
                lemma_dec_all_none(&LONG_PACKED, s, done.len() + 1, count);
            }
            Err(e)
        },
    }
}

// ---------------------------------------------------------------- model

/// What a queue holds in one place.
pub struct QueueEntry {
    pub recid: u64,
    pub timestamp: u64,
    pub value: u64,
}

/// The entries of a queue, the oldest first.
pub type Entries = Seq<QueueEntry>;

/// What a callback was asked of nodes, each with its answer.
pub type Answers = Seq<(u64, Node, bool)>;

/// The recid in a pointer record.
pub open spec fn pointer_at(records: Records, recid: u64) -> Option<u64> {
    match item_at(&LONG_PACKED, records, recid) {
        Some(Some(v)) => Some(v),
        _ => None,
    }
}

/// The node in a record.
pub open spec fn queue_node(records: Records, recid: u64) -> Option<Node> {
    match item_at(&NODE_SER, records, recid) {
        Some(Some(n)) => Some(n),
        _ => None,
    }
}

/// What comes before place `i` of a chain; zero before the first.
pub open spec fn before(c: Seq<u64>, i: int) -> u64 {
    if i > 0 {
        c[i - 1]
    } else {
        0
    }
}

/// The node at place `i` of a chain has its neighbours as links.
pub open spec fn link_ok(records: Records, c: Seq<u64>, i: int) -> bool {
    queue_node(records, c[i]) matches Some(n) && n.prev == before(c, i) && n.next == c[i + 1]
}

/// The largest number that a field of a node may hold.
pub const MAX_FIELD: u64 = 0x7fff_ffff_ffff_ffff;

/// A persistent queue of pairs of a timestamp and a value.
pub struct QueueLong {
    tail_recid: u64,
    head_recid: u64,
    head_prev_recid: u64,
}

impl QueueLong {
    /// The recid of the pointer to the oldest node.
    pub closed spec fn oldest(&self) -> u64 {
        self.tail_recid
    }

    /// The recid of the pointer to the place of the next node.
    pub closed spec fn place(&self) -> u64 {
        self.head_recid
    }

    /// The recid of the pointer to the newest node.
    pub closed spec fn newest(&self) -> u64 {
        self.head_prev_recid
    }

    /// The pointers and links of the records give the chain `c`: the nodes, oldest
    /// first, and then the place of the next one.
    pub open spec fn linked(&self, records: Records, c: Seq<u64>) -> bool {
        &&& c.len() > 0
        &&& pointer_at(records, self.oldest()) == Some(c[0])
        &&& pointer_at(records, self.place()) == Some(c.last())
        &&& pointer_at(records, self.newest()) == Some(before(c, c.len() - 1))
        &&& forall|i: int| 0 <= i < c.len() - 1 ==> #[trigger] link_ok(records, c, i)
        &&& forall|i: int| 0 <= i < c.len() ==> #[trigger] c[i] != 0
    }

    /// The records hold a queue with the chain `c`.
    pub open spec fn holds(&self, records: Records, c: Seq<u64>) -> bool {
        &&& self.linked(records, c)
        &&& records.contains_key(c.last()) && records[c.last()] is None
        &&& self.oldest() != self.place()
        &&& self.oldest() != self.newest()
        &&& self.place() != self.newest()
        &&& forall|i: int|
            #![trigger c[i]]
            0 <= i < c.len() ==> c[i] != self.oldest() && c[i] != self.place() && c[i]
                != self.newest()
        &&& forall|i: int, j: int| #![trigger c[i], c[j]] 0 <= i < j < c.len() ==> c[i] != c[j]
    }

    /// The records hold a queue.
    pub open spec fn wf(&self, records: Records) -> bool {
        exists|c: Seq<u64>| #[trigger] self.holds(records, c)
    }

    /// The recids of the nodes, oldest first, and of the place of the next one.
    pub open spec fn chain(&self, records: Records) -> Seq<u64> {
        choose|c: Seq<u64>| #[trigger] self.holds(records, c)
    }

    /// What the queue holds, oldest first.
    pub open spec fn entries(&self, records: Records) -> Entries {
        entries_of(records, self.chain(records))
    }

    /// The records that belong to the queue.
    pub open spec fn owned(&self, records: Records) -> Set<u64> {
        Set::new(
            |x: u64|
                x == self.oldest() || x == self.place() || x == self.newest() || self.chain(
                    records,
                ).contains(x),
        )
    }

    /// A change took the queue in `a` to one with entries `e` in `b`, and no other
    /// record changed.
    pub open spec fn became(&self, a: StoreState, b: StoreState, e: Entries) -> bool {
        &&& keeps_state(a, b)
        &&& self.wf(b.records)
        &&& self.entries(b.records) == e
        &&& forall|x: u64| #[trigger]
            a.records.contains_key(x) && !self.owned(a.records).contains(x)
                ==> b.records.contains_key(x) && b.records[x] == a.records[x] && !self.owned(
                b.records,
            ).contains(x)
    }

    /// What happens to other records leaves the queue as it is.
    pub proof fn law_untouched(&self, a: Records, b: Records)
        requires
            self.wf(a),
            forall|x: u64| #[trigger] self.owned(a).contains(x) ==> b.contains_key(x)
                && b[x] == a[x],
        ensures
            self.wf(b),
            self.entries(b) == self.entries(a),
            self.owned(b) == self.owned(a),
    {
        let c = self.chain(a);
        assert(self.owned(a).contains(self.oldest()));
        assert(self.owned(a).contains(self.place()));
        assert(self.owned(a).contains(self.newest()));
        assert(self.owned(a).contains(c.last()));
        assert forall|i: int| 0 <= i < c.len() - 1 implies #[trigger] link_ok(b, c, i) by {
            assert(link_ok(a, c, i));
            assert(self.owned(a).contains(c[i]));
        }
        assert(self.holds(b, c));
        self.law_chain_is_unique(b, c);
        assert(self.entries(b) =~= self.entries(a)) by {
            assert forall|i: int| 0 <= i < c.len() - 1
                implies entry_at(b, c[i]) == #[trigger] entry_at(
                a,
                c[i],
            ) by {
                assert(link_ok(a, c, i));
                assert(self.owned(a).contains(c[i]));
            }
        }
        assert(self.owned(b) =~= self.owned(a));
    }

    /// The records hold at most one chain.
    pub proof fn law_chain_is_unique(&self, records: Records, c: Seq<u64>)
        requires
            self.holds(records, c),
        ensures
            self.wf(records),
            self.chain(records) == c,
    {
        let d = self.chain(records);
        assert(self.holds(records, d));
        self.lemma_same_prefix(records, c, d, if c.len() < d.len() {
            c.len() as int
        } else {
            d.len() as int
        });
        if c.len() < d.len() {
            assert(link_ok(records, d, c.len() - 1));
            assert(c[c.len() - 1] == d[c.len() - 1]);
        } else if d.len() < c.len() {
            assert(link_ok(records, c, d.len() - 1));
            assert(c[d.len() - 1] == d[d.len() - 1]);
        }
        assert(c =~= d);
    }

    proof fn lemma_same_prefix(&self, records: Records, c: Seq<u64>, d: Seq<u64>, n: int)
        requires
            self.holds(records, c),
            self.holds(records, d),
            0 <= n <= c.len(),
            n <= d.len(),
        ensures
            forall|i: int| #![trigger c[i]] #![trigger d[i]] 0 <= i < n ==> c[i] == d[i],
        decreases n,
    {
        if n > 1 {
            self.lemma_same_prefix(records, c, d, n - 1);
            assert(link_ok(records, c, n - 2));
            assert(link_ok(records, d, n - 2));
            assert(c[n - 2] == d[n - 2]);
        }
    }

    /// What a step of the queue did, from the chains before and after.
    proof fn lemma_became(
        &self,
        a: StoreState,
        b: StoreState,
        c: Seq<u64>,
        d: Seq<u64>,
        e: Entries,
    )
        requires
            self.holds(a.records, c),
            self.holds(b.records, d),
            keeps_state(a, b),
            entries_of(b.records, d) == e,
            forall|x: u64| #[trigger]
                a.records.contains_key(x) && x != self.oldest() && x != self.place() && x
                    != self.newest() && !c.contains(x) ==> b.records.contains_key(x) && b.records[x]
                    == a.records[x] && !d.contains(x),
        ensures
            self.became(a, b, e),
    {
        self.law_chain_is_unique(a.records, c);
        self.law_chain_is_unique(b.records, d);
    }
}

/// The entries at the nodes of a chain.
pub open spec fn entries_of(records: Records, c: Seq<u64>) -> Entries {
    Seq::new((c.len() - 1) as nat, |i: int| entry_at(records, c[i]))
}

pub open spec fn entry_at(records: Records, recid: u64) -> QueueEntry {
    let n = queue_node(records, recid).unwrap();
    QueueEntry { recid, timestamp: n.timestamp, value: n.value }
}

fn check_field(v: u64) -> (r: Result<()>)
    ensures
        v <= MAX_FIELD ==> r is Ok,
        v > MAX_FIELD ==> (r matches Err(e) && is_corrupt(e, field_error())),
{
    if v > MAX_FIELD {
        return Err(DbError::corrupt("QueueLong: timestamp/value exceeds i64::MAX"));
    }
    Ok(())
}

pub open spec fn field_error() -> Seq<char> {
    "QueueLong: timestamp/value exceeds i64::MAX"@
}

/// Fails on recid zero.
fn node_recid(v: u64) -> (r: Result<u64>)
    ensures
        v != 0 ==> r == Ok::<u64, DbError>(v),
        v == 0 ==> (r matches Err(e) && is_corrupt(
            e,
            "QueueLong: zero recid where a node was expected"@,
        )),
{
    if v == 0 {
        Err(DbError::corrupt("QueueLong: zero recid where a node was expected"))
    } else {
        Ok(v)
    }
}

impl QueueLong {
    /// Opens a queue by its three pointers.
    pub fn open(tail_recid: u64, head_recid: u64, head_prev_recid: u64) -> (r: Result<Self>)
        ensures
            tail_recid == head_recid ==> (r matches Err(e) && is_corrupt(
                e,
                "QueueLong: tailRecid == headRecid"@,
            )),
            tail_recid != head_recid ==> (r matches Ok(q) && q.oldest() == tail_recid && q.place()
                == head_recid && q.newest() == head_prev_recid),
    {
        if tail_recid == head_recid {
            return Err(DbError::corrupt("QueueLong: tailRecid == headRecid"));
        }
        Ok(QueueLong { tail_recid, head_recid, head_prev_recid })
    }

    /// Makes an empty queue.
    pub fn make<S: Store>(store: &mut S) -> (r: Result<Self>)
        ensures
            turned_down(old(store).state(), final(store).state(), r),
            ({
                let a = old(store).state();
                let b = final(store).state();
                &&& keeps_state(a, b)
                &&& b.room + 4 >= a.room
                &&& forall|x: u64| #[trigger]
                    a.records.contains_key(x) ==> b.records.contains_key(x) && b.records[x]
                        == a.records[x]
                &&& a.writable && a.room >= 4 ==> r is Ok
                &&& r matches Ok(q) ==> {
                    &&& q.wf(b.records)
                    &&& q.entries(b.records) == Seq::<QueueEntry>::empty()
                    &&& forall|x: u64| #[trigger]
                        a.records.contains_key(x) ==> !q.owned(b.records).contains(x)
                }
            }),
    {
        let ghost a = store.state();
        proof {
            store.records_finite();
        }
        let sentinel: u64 = match store.preallocate() {
            Ok(x) => x,
            Err(e) => {
                return Err(e);
            },
        };
        let tail: u64 = match put_item(store, &sentinel, &LONG_PACKED) {
            Ok(x) => x,
            Err(e) => {
                return Err(e);
            },
        };
        let head: u64 = match put_item(store, &sentinel, &LONG_PACKED) {
            Ok(x) => x,
            Err(e) => {
                return Err(e);
            },
        };
        let head_prev: u64 = match put_item(store, &0u64, &LONG_PACKED) {
            Ok(x) => x,
            Err(e) => {
                return Err(e);
            },
        };
        match Self::open(tail, head, head_prev) {
            Ok(q) => {
                proof {
                    let c = seq![sentinel];
                    lemma_enc_dec(&LONG_PACKED, sentinel);
                    lemma_enc_dec(&LONG_PACKED, 0u64);
                    assert(q.holds(store.state().records, c));
                    q.law_chain_is_unique(store.state().records, c);
                    assert(q.entries(store.state().records) =~= Seq::empty());
                    assert forall|x: u64| #[trigger] a.records.contains_key(x) implies !q.owned(
                        store.state().records,
                    ).contains(x) by {
                        if c.contains(x) {
                            assert(x == sentinel);
                        }
                    }
                }
                Ok(q)
            },
            Err(e) => Err(e),
        }
    }

    pub fn tail_recid(&self) -> (r: u64)
        ensures
            r == self.oldest(),
    {
        self.tail_recid
    }

    pub fn head_recid(&self) -> (r: u64)
        ensures
            r == self.place(),
    {
        self.head_recid
    }

    pub fn head_prev_recid(&self) -> (r: u64)
        ensures
            r == self.newest(),
    {
        self.head_prev_recid
    }

    // ------------------------------------------------------------ pointers

    fn read_ptr<S: Store>(&self, store: &S, recid: u64) -> (r: Result<u64>)
        ensures
            store.state().closed ==> r == Err::<u64, DbError>(DbError::StoreClosed),
            r matches Ok(v) ==> pointer_at(store.state().records, recid) == Some(v),
            store.state().readable && pointer_at(store.state().records, recid) is Some ==> r is Ok,
            store.state().readable && item_at(&LONG_PACKED, store.state().records, recid) == Some(
                None::<u64>,
            ) ==> (r matches Err(e) && is_corrupt(e, "QueueLong: missing queue pointer"@)),
    {
        match get_item(store, recid, &LONG_PACKED) {
            Ok(Some(v)) => Ok(v),
            Ok(None) => Err(DbError::corrupt("QueueLong: missing queue pointer")),
            Err(e) => Err(e),
        }
    }

    fn write_ptr<S: Store>(&self, store: &mut S, recid: u64, value: u64) -> (r: Result<()>)
        ensures
            old(store).state().read_only && !old(store).state().closed ==> r == Err::<(), DbError>(
                DbError::ReadOnly,
            ),
            old(store).state().writable && old(store).state().records.contains_key(recid)
                ==> r is Ok,
            r is Ok ==> old(store).state().records.contains_key(recid)
                && final(store).state().records == old(store).state().records.insert(
                recid,
                Some(LONG_PACKED.enc(value)),
            ) && pointer_at(final(store).state().records, recid) == Some(value),
            r is Err ==> final(store).state().records == old(store).state().records,
            keeps_state(old(store).state(), final(store).state()),
            final(store).state().room >= old(store).state().room,
    {
        update_item(store, recid, &value, &LONG_PACKED)
    }

    fn get_node<S: Store>(&self, store: &S, recid: u64) -> (r: Result<Option<Node>>)
        ensures
            store.state().closed ==> r == Err::<Option<Node>, DbError>(DbError::StoreClosed),
            r matches Ok(n) ==> item_at(&NODE_SER, store.state().records, recid) == Some(n),
            store.state().readable && item_at(&NODE_SER, store.state().records, recid) is Some
                ==> r is Ok,
    {
        get_item(store, recid, &NODE_SER)
    }

    /// The recid of the oldest node; in an empty queue, of the place of the next.
    pub fn tail<S: Store>(&self, store: &S) -> (r: Result<u64>)
        ensures
            store.state().closed ==> r == Err::<u64, DbError>(DbError::StoreClosed),
            r matches Ok(v) ==> pointer_at(store.state().records, self.oldest()) == Some(v),
            self.wf(store.state().records) ==> served(store.state(), r) && (
            r matches Ok(x) ==> x == (self.chain(store.state().records)[0])),
    {
        self.read_ptr(store, self.tail_recid)
    }

    /// The recid of the place of the next node.
    pub fn head<S: Store>(&self, store: &S) -> (r: Result<u64>)
        ensures
            store.state().closed ==> r == Err::<u64, DbError>(DbError::StoreClosed),
            r matches Ok(v) ==> pointer_at(store.state().records, self.place()) == Some(v),
            self.wf(store.state().records) ==> served(store.state(), r) && (
            r matches Ok(x) ==> x == (self.chain(store.state().records).last())),
    {
        self.read_ptr(store, self.head_recid)
    }

    /// The recid of the newest node; zero in an empty queue.
    pub fn head_prev<S: Store>(&self, store: &S) -> (r: Result<u64>)
        ensures
            store.state().closed ==> r == Err::<u64, DbError>(DbError::StoreClosed),
            r matches Ok(v) ==> pointer_at(store.state().records, self.newest()) == Some(v),
            self.wf(store.state().records) ==> served(store.state(), r)
                && (r matches Ok(x) ==> x == (before(
                    self.chain(store.state().records),
                    self.chain(store.state().records).len() - 1,
                ))),
    {
        self.read_ptr(store, self.head_prev_recid)
    }

    // ------------------------------------------------------------ changes

    /// Appends an entry; answers the recid of its node.
    pub fn put<S: Store>(&self, store: &mut S, timestamp: u64, value: u64) -> (r: Result<u64>)
        ensures
            timestamp <= MAX_FIELD && value <= MAX_FIELD ==> turned_down(
                old(store).state(),
                final(store).state(),
                r,
            ),
            ({
                let a = old(store).state();
                let b = final(store).state();
                &&& timestamp > MAX_FIELD || value > MAX_FIELD ==> b == a && (r matches Err(e)
                    && is_corrupt(e, field_error()))
                &&& timestamp <= MAX_FIELD && value <= MAX_FIELD && self.wf(a.records)
                    && a.room > 0 ==> carried_out(a, r)
                &&& self.wf(a.records) && r is Ok ==> {
                    let recid = self.chain(a.records).last();
                    &&& r == Ok::<u64, DbError>(recid)
                    &&& self.became(
                        a,
                        b,
                        self.entries(a.records).push(QueueEntry { recid, timestamp, value }),
                    )
                    &&& b.room + 1 >= a.room
                }
            }),
    {
        match check_field(timestamp) {
            Ok(_) => {},
            Err(e) => {
                return Err(e);
            },
        }
        match check_field(value) {
            Ok(_) => {},
            Err(e) => {
                return Err(e);
            },
        }
        let ghost a = store.state();
        let ghost c = self.chain(a.records);
        let ghost good = self.wf(a.records);
        let next: u64 = match store.preallocate() {
            Ok(x) => x,
            Err(e) => {
                return Err(e);
            },
        };
        let ghost m = store.state();
        let head: u64 = match self.read_ptr(store, self.head_recid) {
            Ok(x) => x,
            Err(e) => {
                return Err(e);
            },
        };
        let old_head: u64 = match node_recid(head) {
            Ok(x) => x,
            Err(e) => {
                return Err(e);
            },
        };
        let old_prev: u64 = match self.read_ptr(store, self.head_prev_recid) {
            Ok(x) => x,
            Err(e) => {
                return Err(e);
            },
        };
        let node = Node::new(old_prev, next, timestamp, value);
        match update_item(store, old_head, &node, &NODE_SER) {
            Ok(_) => {},
            Err(e) => {
                return Err(e);
            },
        }
        match self.write_ptr(store, self.head_recid, next) {
            Ok(_) => {},
            Err(e) => {
                return Err(e);
            },
        }
        match self.write_ptr(store, self.head_prev_recid, old_head) {
            Ok(_) => {},
            Err(e) => {
                return Err(e);
            },
        }
        proof {
            if good {
                self.lemma_put(a, store.state(), c, next, node);
            }
        }
        Ok(old_head)
    }

    proof fn lemma_put(&self, a: StoreState, b: StoreState, c: Seq<u64>, next: u64, node: Node)
        requires
            self.holds(a.records, c),
            keeps_state(a, b),
            next != 0,
            !a.records.contains_key(next),
            node.prev == before(c, c.len() - 1),
            node.next == next,
            b.records == a.records.insert(next, None).insert(
                c.last(),
                Some(NODE_SER.enc(node)),
            ).insert(self.place(), Some(LONG_PACKED.enc(next))).insert(
                self.newest(),
                Some(LONG_PACKED.enc(c.last())),
            ),
        ensures
            self.became(
                a,
                b,
                entries_of(a.records, c).push(
                    QueueEntry { recid: c.last(), timestamp: node.timestamp, value: node.value },
                ),
            ),
    {
        let d = c.push(next);
        let e = entries_of(a.records, c).push(
            QueueEntry { recid: c.last(), timestamp: node.timestamp, value: node.value },
        );
        lemma_enc_dec(&NODE_SER, node);
        lemma_enc_dec(&LONG_PACKED, next);
        lemma_enc_dec(&LONG_PACKED, c.last());
        assert forall|i: int| 0 <= i < c.len() implies #[trigger] c[i] != next by {
            if i < c.len() - 1 {
                assert(link_ok(a.records, c, i));
            }
        }
        assert forall|i: int| 0 <= i < d.len() - 1 implies #[trigger] link_ok(b.records, d, i) by {
            if i < c.len() - 1 {
                assert(link_ok(a.records, c, i));
                assert(c[i] != c[c.len() - 1]);
                assert(item_at(&NODE_SER, b.records, d[i]) == item_at(&NODE_SER, a.records, c[i]));
            }
        }
        assert(self.holds(b.records, d));
        assert forall|i: int| 0 <= i < e.len() implies e[i] == entries_of(b.records, d)[i] by {
            if i < c.len() - 1 {
                assert(link_ok(a.records, c, i));
                assert(c[i] != c[c.len() - 1]);
                assert(item_at(&NODE_SER, b.records, d[i]) == item_at(&NODE_SER, a.records, c[i]));
            }
        }
        assert(entries_of(b.records, d) =~= e);
        assert forall|x: u64| #[trigger]
            a.records.contains_key(x) && x != self.oldest() && x != self.place() && x
                != self.newest() && !c.contains(x) implies b.records.contains_key(x) && b.records[x]
            == a.records[x] && !d.contains(x) by {
            assert(c.contains(c[c.len() - 1]));
            if d.contains(x) {
                let i = choose|i: int| 0 <= i < d.len() && d[i] == x;
                if i < c.len() {
                    assert(c[i] == x);
                }
            }
        }
        self.lemma_became(a, b, c, d, e);
    }

    /// Removes the oldest node and answers it; answers `None` where the queue is
    /// empty.
    pub fn take<S: Store>(&self, store: &mut S) -> (r: Result<Option<Node>>)
        ensures
            old(store).state().closed ==> r == Err::<Option<Node>, DbError>(DbError::StoreClosed),
            old(store).state().read_only
                && !old(store).state().closed ==> final(store).state().records
                == old(store).state().records,
            self.wf(old(store).state().records) && old(store).state().readable && old(
                store,
            ).state().read_only && !old(store).state().closed ==> r == Err::<Option<Node>, DbError>(
                DbError::ReadOnly,
            ),
            ({
                let a = old(store).state();
                let b = final(store).state();
                let e = self.entries(a.records);
                &&& b.room >= a.room
                &&& keeps_state(a, b)
                &&& r matches Ok(Some(n)) ==> pointer_at(a.records, self.oldest()) matches Some(p)
                    && a.records.contains_key(p) && b.records.dom() == a.records.dom().remove(p)
                &&& self.wf(a.records) ==> carried_out(a, r)
                &&& self.wf(a.records) && r is Ok ==> {
                    &&& e.len() == 0 ==> r == Ok::<Option<Node>, DbError>(None)
                        && self.became(a, b, e)
                    &&& e.len() > 0 ==> r == Ok::<Option<Node>, DbError>(
                        queue_node(a.records, e[0].recid),
                    ) && self.became(a, b, e.skip(1)) && self.chain(b.records) == self.chain(
                        a.records,
                    ).skip(1)
                }
            }),
    {
        let ghost a = store.state();
        let ghost c = self.chain(a.records);
        let ghost good = self.wf(a.records);
        let tail: u64 = match self.read_ptr(store, self.tail_recid) {
            Ok(x) => x,
            Err(e) => {
                return Err(e);
            },
        };
        let old_tail: u64 = match node_recid(tail) {
            Ok(x) => x,
            Err(e) => {
                return Err(e);
            },
        };
        proof {
            if self.wf(a.records) && c.len() > 1 {
                assert(link_ok(a.records, c, 0));
            }
        }
        let node = match self.get_node(store, old_tail) {
            Ok(Some(n)) => n,
            Ok(None) => {
                match self.write_ptr(store, self.head_prev_recid, 0) {
                    Ok(_) => {},
                    Err(e) => {
                        return Err(e);
                    },
                }
                proof {
                    if good {
                        assert(c.len() == 1);
                        let b = store.state();
                        assert(self.holds(b.records, c));
                        assert(entries_of(b.records, c) =~= entries_of(a.records, c));
                        self.lemma_became(a, b, c, c, entries_of(a.records, c));
                    }
                }
                return Ok(None);
            },
            Err(e) => {
                return Err(e);
            },
        };
        match store.delete(old_tail) {
            Ok(_) => {},
            Err(e) => {
                return Err(e);
            },
        }
        let ghost deleted = store.state();
        match self.write_ptr(store, self.tail_recid, node.next) {
            Ok(_) => {},
            Err(e) => {
                return Err(e);
            },
        }
        let ghost moved = store.state();
        let swapped = match compare_and_swap_item(
            store,
            self.head_prev_recid,
            Some(&old_tail),
            Some(&0u64),
            &LONG_PACKED,
        ) {
            Ok(x) => x,
            Err(e) => {
                return Err(e);
            },
        };
        let ghost reset = store.state();
        let next_recid: u64 = match node_recid(node.next) {
            Ok(x) => x,
            Err(e) => {
                return Err(e);
            },
        };
        proof {
            if good {
                assert(c.len() > 1);
                assert(link_ok(a.records, c, 0));
                assert(c[1] != c[0]);
                if c.len() > 2 {
                    assert(link_ok(a.records, c, 1));
                    assert(c[c.len() - 2] != c[0]);
                }
                assert(item_at(&NODE_SER, reset.records, c[1]) == item_at(
                    &NODE_SER,
                    a.records,
                    c[1],
                ));
            }
        }
        match self.get_node(store, next_recid) {
            Ok(Some(next)) => {
                match update_item(store, next_recid, &next.with_prev(0), &NODE_SER) {
                    Ok(_) => {},
                    Err(e) => {
                        return Err(e);
                    },
                }
            },
            Ok(None) => {},
            Err(e) => {
                return Err(e);
            },
        }
        proof {
            assert(store.state().records.dom() =~= a.records.dom().remove(old_tail));
            if good {
                self.lemma_take(a, store.state(), c);
            }
        }
        Ok(Some(node))
    }

    proof fn lemma_take(&self, a: StoreState, b: StoreState, c: Seq<u64>)
        requires
            self.holds(a.records, c),
            keeps_state(a, b),
            c.len() > 1,
            ({
                let m = a.records.remove(c[0]).insert(self.oldest(), Some(LONG_PACKED.enc(c[1])));
                let n = if c.len() == 2 {
                    m.insert(self.newest(), Some(LONG_PACKED.enc(0)))
                } else {
                    m
                };
                b.records == if c.len() == 2 {
                    n
                } else {
                    n.insert(
                        c[1],
                        Some(NODE_SER.enc(Node { prev: 0, ..queue_node(a.records, c[1]).unwrap() })),
                    )
                }
            }),
        ensures
            self.became(a, b, entries_of(a.records, c).skip(1)),
            self.chain(b.records) == c.skip(1),
    {
        let d = c.skip(1);
        let e = entries_of(a.records, c).skip(1);
        lemma_enc_dec(&LONG_PACKED, c[1]);
        lemma_enc_dec(&LONG_PACKED, 0u64);
        assert(link_ok(a.records, c, 0));
        if c.len() > 2 {
            assert(link_ok(a.records, c, 1));
            lemma_enc_dec(&NODE_SER, Node { prev: 0, ..queue_node(a.records, c[1]).unwrap() });
        }
        assert(d.last() == c.last());
        assert(c[c.len() - 1] != c[0]);
        assert forall|i: int| 0 <= i < d.len() - 1 implies #[trigger] link_ok(b.records, d, i)
            && entry_at(b.records, d[i]) == entry_at(a.records, c[i + 1]) by {
            assert(link_ok(a.records, c, i + 1));
            assert(d[i] == c[i + 1]);
            assert(c[i + 1] != c[0]);
            if i > 0 {
                assert(c[i + 1] != c[1]);
                assert(item_at(&NODE_SER, b.records, d[i]) == item_at(
                    &NODE_SER,
                    a.records,
                    c[i + 1],
                ));
            }
        }
        if c.len() > 2 {
            assert(c[c.len() - 1] != c[1]);
        }
        assert(self.holds(b.records, d));
        assert(entries_of(b.records, d) =~= e);
        assert forall|x: u64| #[trigger]
            a.records.contains_key(x) && x != self.oldest() && x != self.place() && x
                != self.newest() && !c.contains(x) implies b.records.contains_key(x) && b.records[x]
            == a.records[x] && !d.contains(x) by {
            assert(c.contains(c[0]) && c.contains(c[1]));
            if d.contains(x) {
                let i = choose|i: int| 0 <= i < d.len() && d[i] == x;
                assert(c[i + 1] == x);
            }
        }
        self.lemma_became(a, b, c, d, e);
        self.law_chain_is_unique(b.records, d);
    }

    /// Unlinks a node and answers it as it was. Its record is deleted, or left as it
    /// is where `remove_node` is false.
    pub fn remove<S: Store>(
        &self,
        store: &mut S,
        recid: u64,
        remove_node: bool,
    ) -> (r: Result<Node>)
        ensures
            old(store).state().closed ==> r == Err::<Node, DbError>(DbError::StoreClosed),
            old(store).state().read_only
                && !old(store).state().closed ==> final(store).state().records
                == old(store).state().records,
            forall|i: int|
                self.wf(old(store).state().records) && old(store).state().readable && old(
                    store,
                ).state().read_only && !old(store).state().closed && 0 <= i < self.entries(
                    old(store).state().records,
                ).len() && (#[trigger] self.entries(old(store).state().records)[i]).recid == recid
                    ==> r == Err::<Node, DbError>(DbError::ReadOnly),
            ({
                let a = old(store).state();
                let b = final(store).state();
                &&& keeps_state(a, b)
                &&& b.room >= a.room
                &&& self.wf(a.records) && a.readable && recid == self.chain(a.records).last() ==> b
                    == a && (r matches Err(e) && is_corrupt(e, "QueueLong: node not found"@))
                &&& forall|i: int|
                    self.wf(a.records) && 0 <= i < self.entries(a.records).len() && (
                    #[trigger] self.entries(a.records)[i]).recid == recid ==> carried_out(a, r) && (
                    r matches Ok(n) ==> {
                        &&& queue_node(a.records, recid) == Some(n)
                        &&& self.became(a, b, self.entries(a.records).remove(i))
                        &&& self.chain(b.records) == self.chain(a.records).remove(i)
                        &&& if remove_node {
                            !b.records.contains_key(recid)
                        } else {
                            b.records.contains_key(recid) && b.records[recid] == a.records[recid]
                        }
                    })
            }),
    {
        let ghost a = store.state();
        let ghost c = self.chain(a.records);
        let ghost at = choose|i: int| 0 <= i < c.len() - 1 && c[i] == recid;
        let ghost there = self.wf(a.records) && exists|i: int|
            0 <= i < c.len() - 1 && c[i] == recid;
        let ghost good = there;
        proof {
            assert forall|i: int|
                self.wf(a.records) && 0 <= i < self.entries(a.records).len() && (
                #[trigger] self.entries(a.records)[i]).recid == recid implies there && at == i by {
                assert(c[i] == recid);
            }
            if there {
                assert(link_ok(a.records, c, at));
            }
        }
        let node = match self.get_node(store, recid) {
            Ok(Some(n)) => n,
            Ok(None) => {
                return Err(DbError::corrupt("QueueLong: node not found"));
            },
            Err(e) => {
                return Err(e);
            },
        };
        if remove_node {
            match store.delete(recid) {
                Ok(_) => {},
                Err(e) => {
                    return Err(e);
                },
            }
        }
        let ghost m = store.state();
        let next_recid: u64 = match node_recid(node.next) {
            Ok(x) => x,
            Err(e) => {
                return Err(e);
            },
        };
        proof {
            if there {
                assert(c[at + 1] != c[at]);
                assert(item_at(&NODE_SER, m.records, c[at + 1]) == item_at(
                    &NODE_SER,
                    a.records,
                    c[at + 1],
                ));
                if at + 1 < c.len() - 1 {
                    assert(link_ok(a.records, c, at + 1));
                }
                if at > 0 {
                    assert(link_ok(a.records, c, at - 1));
                    assert(c[at - 1] != c[at]);
                    assert(c[at - 1] != c[at + 1]);
                }
            }
        }
        match self.get_node(store, next_recid) {
            Ok(Some(next)) => {
                if next.prev != recid {
                    return Err(DbError::corrupt("QueueLong: next-node backlink mismatch"));
                }
                match update_item(store, next_recid, &next.with_prev(node.prev), &NODE_SER) {
                    Ok(_) => {},
                    Err(e) => {
                        return Err(e);
                    },
                }
            },
            Ok(None) => {
                match self.read_ptr(store, self.head_prev_recid) {
                    Ok(p) => {
                        if p != recid {
                            return Err(DbError::corrupt("QueueLong: headPrev mismatch"));
                        }
                    },
                    Err(e) => {
                        return Err(e);
                    },
                }
                match self.write_ptr(store, self.head_prev_recid, node.prev) {
                    Ok(_) => {},
                    Err(e) => {
                        return Err(e);
                    },
                }
            },
            Err(e) => {
                return Err(e);
            },
        }
        let ghost m2 = store.state();
        if node.prev != 0 {
            proof {
                if good {
                    assert(item_at(&NODE_SER, m2.records, c[at - 1]) == item_at(
                        &NODE_SER,
                        a.records,
                        c[at - 1],
                    ));
                }
            }
            match self.get_node(store, node.prev) {
                Ok(Some(previous)) => {
                    if previous.next != recid {
                        return Err(DbError::corrupt("QueueLong: previous-node link mismatch"));
                    }
                    match update_item(store, node.prev, &previous.with_next(node.next), &NODE_SER) {
                        Ok(_) => {},
                        Err(e) => {
                            return Err(e);
                        },
                    }
                },
                Ok(None) => {
                    return Err(DbError::corrupt("QueueLong: previous-node link mismatch"));
                },
                Err(e) => {
                    return Err(e);
                },
            }
        } else {
            match self.read_ptr(store, self.tail_recid) {
                Ok(p) => {
                    if p != recid {
                        return Err(DbError::corrupt("QueueLong: tail mismatch"));
                    }
                },
                Err(e) => {
                    return Err(e);
                },
            }
            match self.write_ptr(store, self.tail_recid, node.next) {
                Ok(_) => {},
                Err(e) => {
                    return Err(e);
                },
            }
        }
        proof {
            if good {
                self.lemma_remove(a, store.state(), c, at, remove_node);
            }
        }
        Ok(node)
    }

    /// Node `at` of the chain is unhooked: the node after it, or the newest pointer, and the
    /// node before it, or the oldest pointer, pass it by.
    spec fn unhooked(&self, a: Records, b: Records, c: Seq<u64>, at: int, gone: bool) -> bool {
        let m = if gone {
            a.remove(c[at])
        } else {
            a
        };
        let n = if at + 1 == c.len() - 1 {
            m.insert(self.newest(), Some(LONG_PACKED.enc(before(c, at))))
        } else {
            m.insert(
                c[at + 1],
                Some(
                    NODE_SER.enc(
                        Node {
                            prev: before(c, at),
                            ..queue_node(a, c[at + 1]).unwrap()
                        },
                    ),
                ),
            )
        };
        b == if at == 0 {
            n.insert(self.oldest(), Some(LONG_PACKED.enc(c[at + 1])))
        } else {
            n.insert(
                c[at - 1],
                Some(
                    NODE_SER.enc(
                        Node { next: c[at + 1], ..queue_node(a, c[at - 1]).unwrap() },
                    ),
                ),
            )
        }
    }

    #[verifier::spinoff_prover]
    #[verifier::rlimit(60)]
    proof fn lemma_remove_links(&self, a: Records, b: Records, c: Seq<u64>, at: int, gone: bool)
        requires
            self.holds(a, c),
            0 <= at < c.len() - 1,
            self.unhooked(a, b, c, at, gone),
        ensures
            ({
                let d = c.remove(at);
                let e = entries_of(a, c).remove(at);
                forall|i: int|
                    0 <= i < d.len() - 1 ==> #[trigger] link_ok(b, d, i) && entry_at(b, d[i])
                        == e[i]
            }),
    {
        let d = c.remove(at);
        let e = entries_of(a, c).remove(at);
        let last = c.len() - 1;
        lemma_enc_dec(&LONG_PACKED, c[at + 1]);
        lemma_enc_dec(&LONG_PACKED, before(c, at));
        assert(link_ok(a, c, at));
        assert(c[at + 1] != c[at]);
        assert(c[last] != c[at]);
        if at + 1 < last {
            assert(link_ok(a, c, at + 1));
            assert(c[last] != c[at + 1]);
            lemma_enc_dec(
                &NODE_SER,
                Node { prev: before(c, at), ..queue_node(a, c[at + 1]).unwrap() },
            );
        }
        if at > 0 {
            assert(link_ok(a, c, at - 1));
            assert(c[last] != c[at - 1]);
            assert(c[at] != c[at - 1]);
            assert(c[at + 1] != c[at - 1]);
            lemma_enc_dec(
                &NODE_SER,
                Node { next: c[at + 1], ..queue_node(a, c[at - 1]).unwrap() },
            );
        }
        assert(d.last() == c.last());
        assert forall|i: int| 0 <= i < d.len() - 1 implies #[trigger] link_ok(b, d, i)
            && entry_at(b, d[i]) == e[i] by {
            let j = if i < at {
                i
            } else {
                i + 1
            };
            assert(link_ok(a, c, j));
            assert(d[i] == c[j]);
            assert(c[j] != c[at]);
            assert(e[i] == entries_of(a, c)[j]);
            if j != at + 1 {
                assert(c[j] != c[at + 1]);
            }
            if j != at - 1 && at > 0 {
                assert(c[j] != c[at - 1]);
            }
            if j != at + 1 && j != at - 1 {
                assert(item_at(&NODE_SER, b, c[j]) == item_at(&NODE_SER, a, c[j]));
            }
        }
    }

    #[verifier::spinoff_prover]
    #[verifier::rlimit(60)]
    proof fn lemma_remove(&self, a: StoreState, b: StoreState, c: Seq<u64>, at: int, gone: bool)
        requires
            self.holds(a.records, c),
            keeps_state(a, b),
            0 <= at < c.len() - 1,
            self.unhooked(a.records, b.records, c, at, gone),
        ensures
            self.became(a, b, entries_of(a.records, c).remove(at)),
            self.chain(b.records) == c.remove(at),
            gone ==> !b.records.contains_key(c[at]),
            !gone ==> b.records.contains_key(c[at]) && b.records[c[at]] == a.records[c[at]],
    {
        let d = c.remove(at);
        let e = entries_of(a.records, c).remove(at);
        let last = c.len() - 1;
        lemma_enc_dec(&LONG_PACKED, c[at + 1]);
        lemma_enc_dec(&LONG_PACKED, before(c, at));
        assert(link_ok(a.records, c, at));
        assert(c[at + 1] != c[at]);
        assert(c[last] != c[at]);
        if at + 1 < last {
            assert(link_ok(a.records, c, at + 1));
            assert(c[last] != c[at + 1]);
            lemma_enc_dec(
                &NODE_SER,
                Node { prev: before(c, at), ..queue_node(a.records, c[at + 1]).unwrap() },
            );
        }
        if at > 0 {
            assert(link_ok(a.records, c, at - 1));
            assert(c[last] != c[at - 1]);
            assert(c[at] != c[at - 1]);
            assert(c[at + 1] != c[at - 1]);
            lemma_enc_dec(
                &NODE_SER,
                Node { next: c[at + 1], ..queue_node(a.records, c[at - 1]).unwrap() },
            );
        }
        assert(d.last() == c.last());
        self.lemma_remove_links(a.records, b.records, c, at, gone);
        assert forall|i: int, j: int| #![trigger d[i], d[j]] 0 <= i < j < d.len()
            implies d[i] != d[j] by {
            let x = if i < at {
                i
            } else {
                i + 1
            };
            let y = if j < at {
                j
            } else {
                j + 1
            };
            assert(c[x] != c[y]);
        }
        assert(self.holds(b.records, d));
        assert(entries_of(b.records, d) =~= e);
        assert forall|x: u64| #[trigger]
            a.records.contains_key(x) && x != self.oldest() && x != self.place() && x
                != self.newest() && !c.contains(x) implies b.records.contains_key(x) && b.records[x]
            == a.records[x] && !d.contains(x) by {
            assert(c.contains(c[at]) && c.contains(c[at + 1]));
            if at > 0 {
                assert(c.contains(c[at - 1]));
            }
            if d.contains(x) {
                let i = choose|i: int| 0 <= i < d.len() && d[i] == x;
                if i < at {
                    assert(c[i] == x);
                } else {
                    assert(c[i + 1] == x);
                }
            }
        }
        self.lemma_became(a, b, c, d, e);
        self.law_chain_is_unique(b.records, d);
    }

    /// Appends an entry in a record that the caller has allocated.
    pub fn put_preallocated<S: Store>(
        &self,
        store: &mut S,
        timestamp: u64,
        value: u64,
        recid: u64,
    ) -> (r: Result<()>)
        ensures
            timestamp <= MAX_FIELD && value <= MAX_FIELD && old(store).state().closed
                ==> r == Err::<
                (),
                DbError,
            >(DbError::StoreClosed),
            ({
                let a = old(store).state();
                let b = final(store).state();
                &&& timestamp > MAX_FIELD || value > MAX_FIELD ==> b == a && (r matches Err(e)
                    && is_corrupt(e, field_error()))
                &&& timestamp <= MAX_FIELD && value <= MAX_FIELD ==> self.inserted(
                    a,
                    b,
                    QueueEntry { recid, timestamp, value },
                    r,
                )
            }),
    {
        match check_field(timestamp) {
            Ok(_) => {},
            Err(e) => {
                return Err(e);
            },
        }
        match check_field(value) {
            Ok(_) => {},
            Err(e) => {
                return Err(e);
            },
        }
        self.insert_node(store, timestamp, value, recid)
    }

    /// What appending an entry in a given record does.
    pub open spec fn inserted(
        &self,
        a: StoreState,
        b: StoreState,
        e: QueueEntry,
        r: Result<()>,
    ) -> bool {
        &&& keeps_state(a, b)
        &&& b.room >= a.room
        &&& a.read_only && !a.closed ==> b.records == a.records
        &&& self.wf(a.records) && a.readable && a.read_only && !a.closed ==> r == Err::<
            (),
            DbError,
        >(DbError::ReadOnly)
        &&& self.wf(a.records) && e.recid != 0 && a.records.contains_key(e.recid) && !self.owned(
            a.records,
        ).contains(e.recid) ==> carried_out(a, r)
        &&& self.wf(a.records) && e.recid != 0 && a.records.contains_key(e.recid) && !self.owned(
            a.records,
        ).contains(e.recid) && r is Ok ==> {
            &&& self.wf(b.records)
            &&& self.entries(b.records) == self.entries(a.records).push(e)
            &&& forall|x: u64| #[trigger]
                a.records.contains_key(x) && !self.owned(a.records).contains(x) && x != e.recid
                    ==> b.records.contains_key(x) && b.records[x] == a.records[x] && !self.owned(
                    b.records,
                ).contains(x)
        }
    }

    fn insert_node<S: Store>(&self, store: &mut S, timestamp: u64, value: u64, recid: u64) -> (r:
        Result<()>)
        ensures
            old(store).state().closed ==> r == Err::<(), DbError>(DbError::StoreClosed),
            self.inserted(
                old(store).state(),
                final(store).state(),
                QueueEntry { recid, timestamp, value },
                r,
            ),
    {
        let ghost a = store.state();
        let ghost c = self.chain(a.records);
        let ghost good = self.wf(a.records) && recid != 0
            && a.records.contains_key(recid) && !self.owned(a.records).contains(recid);
        let prev: u64 = match self.read_ptr(store, self.head_prev_recid) {
            Ok(x) => x,
            Err(e) => {
                return Err(e);
            },
        };
        let sentinel: u64 = match self.read_ptr(store, self.head_recid) {
            Ok(x) => x,
            Err(e) => {
                return Err(e);
            },
        };
        let node = Node::new(prev, sentinel, timestamp, value);
        proof {
            if good {
                assert forall|i: int| 0 <= i < c.len() implies #[trigger] c[i] != recid by {
                    assert(c.contains(c[i]));
                }
                if c.len() > 1 {
                    assert(link_ok(a.records, c, c.len() - 2));
                    assert(c[c.len() - 2] != 0);
                }
            }
        }
        match update_item(store, recid, &node, &NODE_SER) {
            Ok(_) => {},
            Err(e) => {
                return Err(e);
            },
        }
        match self.write_ptr(store, self.head_prev_recid, recid) {
            Ok(_) => {},
            Err(e) => {
                return Err(e);
            },
        }
        let ghost m = store.state();
        if prev != 0 {
            proof {
                if good {
                    assert(item_at(&NODE_SER, m.records, prev) == item_at(
                        &NODE_SER,
                        a.records,
                        prev,
                    ));
                }
            }
            match self.get_node(store, prev) {
                Ok(Some(previous)) => {
                    match update_item(store, prev, &previous.with_next(recid), &NODE_SER) {
                        Ok(_) => {},
                        Err(e) => {
                            return Err(e);
                        },
                    }
                },
                Ok(None) => {
                    return Err(DbError::corrupt("QueueLong: previous node not found"));
                },
                Err(e) => {
                    return Err(e);
                },
            }
        }
        match self.read_ptr(store, self.tail_recid) {
            Ok(p) => {
                if p == sentinel {
                    match self.write_ptr(store, self.tail_recid, recid) {
                        Ok(_) => {},
                        Err(e) => {
                            return Err(e);
                        },
                    }
                }
            },
            Err(e) => {
                return Err(e);
            },
        }
        proof {
            if good {
                if c.len() > 1 {
                    assert(c[0] != c[c.len() - 1]);
                }
                self.lemma_insert(a, store.state(), c, recid, node);
            }
        }
        Ok(())
    }

    #[verifier::spinoff_prover]
    #[verifier::rlimit(60)]
    proof fn lemma_insert(&self, a: StoreState, b: StoreState, c: Seq<u64>, recid: u64, node: Node)
        requires
            self.holds(a.records, c),
            recid != 0,
            a.records.contains_key(recid),
            !self.owned(a.records).contains(recid),
            node.prev == before(c, c.len() - 1),
            node.next == c.last(),
            ({
                let m = a.records.insert(recid, Some(NODE_SER.enc(node))).insert(
                    self.newest(),
                    Some(LONG_PACKED.enc(recid)),
                );
                b.records == if c.len() == 1 {
                    m.insert(self.oldest(), Some(LONG_PACKED.enc(recid)))
                } else {
                    m.insert(
                        c[c.len() - 2],
                        Some(
                            NODE_SER.enc(
                                Node { next: recid, ..queue_node(a.records, c[c.len() - 2]).unwrap() },
                            ),
                        ),
                    )
                }
            }),
        ensures
            self.wf(b.records),
            self.entries(b.records) == entries_of(a.records, c).push(
                QueueEntry { recid, timestamp: node.timestamp, value: node.value },
            ),
            forall|x: u64| #[trigger]
                a.records.contains_key(x) && !self.owned(a.records).contains(x) && x != recid
                    ==> b.records.contains_key(x) && b.records[x] == a.records[x] && !self.owned(
                    b.records,
                ).contains(x),
    {
        self.law_chain_is_unique(a.records, c);
        let last = c.len() - 1;
        let d = c.insert(last, recid);
        let e = entries_of(a.records, c).push(
            QueueEntry { recid, timestamp: node.timestamp, value: node.value },
        );
        lemma_enc_dec(&LONG_PACKED, recid);
        lemma_enc_dec(&NODE_SER, node);
        assert forall|i: int| 0 <= i < c.len() implies #[trigger] c[i] != recid by {
            assert(c.contains(c[i]));
        }
        if c.len() > 1 {
            assert(link_ok(a.records, c, last - 1));
            assert(c[last] != c[last - 1]);
            lemma_enc_dec(
                &NODE_SER,
                Node { next: recid, ..queue_node(a.records, c[last - 1]).unwrap() },
            );
        }
        assert forall|i: int| 0 <= i < d.len() - 1 implies #[trigger] link_ok(b.records, d, i)
            && entry_at(b.records, d[i]) == e[i] by {
            if i < last {
                assert(link_ok(a.records, c, i));
                assert(d[i] == c[i]);
                if i < last - 1 {
                    assert(c[i] != c[last - 1]);
                    assert(item_at(&NODE_SER, b.records, c[i]) == item_at(
                        &NODE_SER,
                        a.records,
                        c[i],
                    ));
                }
            }
        }
        assert forall|i: int, j: int| #![trigger d[i], d[j]] 0 <= i < j < d.len()
            implies d[i] != d[j] by {
            if j < last {
                assert(c[i] != c[j]);
            } else if j == last {
                assert(d[i] == c[i]);
            } else if i < last {
                assert(c[i] != c[last]);
            }
        }
        assert(d.last() == c.last());
        assert(self.holds(b.records, d));
        self.law_chain_is_unique(b.records, d);
        assert(entries_of(b.records, d) =~= e);
        assert forall|x: u64| #[trigger]
            a.records.contains_key(x) && !self.owned(a.records).contains(x) && x != recid
            implies b.records.contains_key(x) && b.records[x] == a.records[x] && !self.owned(
            b.records,
        ).contains(x) by {
            if c.len() > 1 {
                assert(c.contains(c[last - 1]));
            }
            if d.contains(x) {
                let i = choose|i: int| 0 <= i < d.len() && d[i] == x;
                if i < last {
                    assert(c.contains(c[i]));
                } else if i > last {
                    assert(c.contains(c[last]));
                }
            }
        }
    }

    /// Takes a node that is not the newest out and links it in again as the newest.
    #[verifier::spinoff_prover]
    #[verifier::rlimit(60)]
    fn relink<S: Store>(
        &self,
        store: &mut S,
        recid: u64,
        new_timestamp: u64,
        value: u64,
        Ghost(at): Ghost<int>,
    ) -> (r: Result<()>)
        requires
            new_timestamp <= MAX_FIELD,
        ensures
            ({
                let a = old(store).state();
                let b = final(store).state();
                let c = self.chain(a.records);
                let e = self.entries(a.records);
                let there = self.wf(a.records) && 0 <= at < c.len() - 1 && c[at] == recid;
                &&& keeps_state(a, b)
                &&& b.room >= a.room
                &&& a.read_only && !a.closed ==> b.records == a.records
                &&& there && a.readable && a.read_only && !a.closed ==> r == Err::<(), DbError>(
                    DbError::ReadOnly,
                )
                &&& there && e[at].value == value ==> {
                    &&& carried_out(a, r)
                    &&& r is Ok ==> self.became(
                        a,
                        b,
                        e.remove(at).push(QueueEntry { recid, timestamp: new_timestamp, value }),
                    )
                }
            }),
    {
        let ghost a = store.state();
        let ghost c = self.chain(a.records);
        let ghost good = self.wf(a.records) && 0 <= at < c.len() - 1 && c[at] == recid;
        proof {
            if good {
                assert(link_ok(a.records, c, at));
                assert(self.entries(a.records)[at].recid == recid);
            }
        }
        match self.remove(store, recid, false) {
            Ok(_) => {},
            Err(e) => {
                return Err(e);
            },
        }
        let ghost m = store.state();
        proof {
            if good {
                let d = self.chain(m.records);
                assert(d == c.remove(at));
                assert(!d.contains(recid)) by {
                    if d.contains(recid) {
                        let i = choose|i: int| 0 <= i < d.len() && d[i] == recid;
                        if i < at {
                            assert(c[i] == c[at]);
                        } else {
                            assert(c[i + 1] == c[at]);
                        }
                    }
                }
                assert(c[at] == recid);
            }
        }
        let r = self.insert_node(store, new_timestamp, value, recid);
        proof {
            if good && r is Ok {
                let b = store.state();
                assert forall|x: u64| #[trigger]
                    a.records.contains_key(x) && !self.owned(a.records).contains(x)
                    implies b.records.contains_key(x) && b.records[x] == a.records[x]
                        && !self.owned(
                    b.records,
                ).contains(x) by {
                    assert(c.contains(c[at]));
                    assert(m.records.contains_key(x));
                }
            }
        }
        r
    }

    /// Makes a node the newest one and gives it a new timestamp.
    #[verifier::spinoff_prover]
    #[verifier::rlimit(100)]
    pub fn bump<S: Store>(&self, store: &mut S, recid: u64, new_timestamp: u64) -> (r: Result<()>)
        ensures
            new_timestamp <= MAX_FIELD && old(store).state().closed ==> r == Err::<
                (),
                DbError,
            >(DbError::StoreClosed),
            ({
                let a = old(store).state();
                let b = final(store).state();
                &&& new_timestamp > MAX_FIELD ==> b == a && (r matches Err(e) && is_corrupt(
                    e,
                    field_error(),
                ))
                &&& keeps_state(a, b)
                &&& b.room >= a.room
                &&& a.read_only && !a.closed ==> b.records == a.records
                &&& forall|i: int|
                    new_timestamp <= MAX_FIELD && self.wf(a.records) && a.readable && a.read_only
                        && !a.closed && 0 <= i < self.entries(a.records).len() && (
                    #[trigger] self.entries(a.records)[i]).recid == recid
                        ==> r == Err::<(), DbError>(
                        DbError::ReadOnly,
                    )
                &&& forall|i: int|
                    new_timestamp <= MAX_FIELD && self.wf(a.records) && 0 <= i < self.entries(
                        a.records,
                    ).len() && (#[trigger] self.entries(a.records)[i]).recid == recid ==> {
                        let e = self.entries(a.records);
                        &&& carried_out(a, r)
                        &&& r is Ok ==> self.became(
                            a,
                            b,
                            e.remove(i).push(
                                QueueEntry { recid, timestamp: new_timestamp, value: e[i].value },
                            ),
                        )
                    }
            }),
    {
        match check_field(new_timestamp) {
            Ok(_) => {},
            Err(e) => {
                return Err(e);
            },
        }
        let ghost a = store.state();
        let ghost c = self.chain(a.records);
        let ghost at = choose|i: int| 0 <= i < c.len() - 1 && c[i] == recid;
        let ghost there = self.wf(a.records) && exists|i: int|
            0 <= i < c.len() - 1 && c[i] == recid;
        let ghost good = there;
        proof {
            assert forall|i: int|
                self.wf(a.records) && 0 <= i < self.entries(a.records).len() && (
                #[trigger] self.entries(a.records)[i]).recid == recid implies there && at == i by {
                assert(c[i] == recid);
            }
            if there {
                assert(link_ok(a.records, c, at));
                assert(self.entries(a.records)[at].recid == recid);
            }
        }
        let newest: u64 = match self.read_ptr(store, self.head_prev_recid) {
            Ok(x) => x,
            Err(e) => {
                return Err(e);
            },
        };
        let node = match self.get_node(store, recid) {
            Ok(Some(n)) => n,
            Ok(None) => {
                return Err(DbError::corrupt("QueueLong: node not found"));
            },
            Err(e) => {
                return Err(e);
            },
        };
        if newest == recid {
            let moved = node.with_links_and_timestamp(node.prev, node.next, new_timestamp);
            match update_item(store, recid, &moved, &NODE_SER) {
                Ok(_) => {},
                Err(e) => {
                    return Err(e);
                },
            }
            proof {
                if good {
                    self.lemma_touch(a, store.state(), c, at, new_timestamp);
                }
            }
            return Ok(());
        }
        self.relink(store, recid, new_timestamp, node.value, Ghost(at))
    }

    /// The newest node got a new timestamp.
    proof fn lemma_touch(&self, a: StoreState, b: StoreState, c: Seq<u64>, at: int, timestamp: u64)
        requires
            self.holds(a.records, c),
            keeps_state(a, b),
            0 <= at < c.len() - 1,
            before(c, c.len() - 1) == c[at],
            b.records == a.records.insert(
                c[at],
                Some(NODE_SER.enc(Node { timestamp, ..queue_node(a.records, c[at]).unwrap() })),
            ),
        ensures
            self.became(
                a,
                b,
                entries_of(a.records, c).remove(at).push(
                    QueueEntry {
                        recid: c[at],
                        timestamp,
                        value: entries_of(a.records, c)[at].value,
                    },
                ),
            ),
    {
        let last = c.len() - 1;
        let e = entries_of(a.records, c).remove(at).push(
            QueueEntry { recid: c[at], timestamp, value: entries_of(a.records, c)[at].value },
        );
        assert(c[last - 1] == c[at]);
        assert(at == last - 1);
        assert(link_ok(a.records, c, at));
        assert(c[last] != c[at]);
        lemma_enc_dec(&NODE_SER, Node { timestamp, ..queue_node(a.records, c[at]).unwrap() });
        assert forall|i: int| 0 <= i < last implies #[trigger] link_ok(b.records, c, i) && entry_at(
            b.records,
            c[i],
        ) == e[i] by {
            assert(link_ok(a.records, c, i));
            if i < at {
                assert(c[i] != c[at]);
                assert(item_at(&NODE_SER, b.records, c[i]) == item_at(&NODE_SER, a.records, c[i]));
            }
        }
        assert(self.holds(b.records, c));
        assert(entries_of(b.records, c) =~= e);
        assert(c.contains(c[at]));
        self.lemma_became(a, b, c, c, e);
    }

    // ------------------------------------------------------------ walks

    /// Removes the oldest nodes as long as the callback wants them.
    pub fn take_until<S: Store, C: QueueLongTakeUntil>(
        &self,
        store: &mut S,
        callback: &mut C,
    ) -> (r: Result<()>)
        ensures
            old(store).state().closed ==> r == Err::<(), DbError>(DbError::StoreClosed),
            ({
                let a = old(store).state();
                let b = final(store).state();
                &&& old(callback).sound() ==> final(callback).sound()
                &&& a.read_only && !a.closed ==> b.records == a.records
                &&& keeps_state(a, b)
                &&& b.room >= a.room
                &&& self.wf(a.records) ==> carried_out(a, r)
                &&& self.wf(a.records) && r is Ok ==> exists|k: int|
                    {
                        &&& 0 <= k <= self.entries(a.records).len()
                        &&& self.became(a, b, self.entries(a.records).skip(k))
                        &&& final(callback).asked() == old(callback).asked() + #[trigger] answers(
                            a.records,
                            self.chain(a.records),
                            k,
                        )
                    }
            }),
    {
        let ghost a = store.state();
        let ghost c = self.chain(a.records);
        let ghost e = self.entries(a.records);
        let ghost good = self.wf(a.records);
        let ghost mut k: int = 0;
        proof {
            if good {
                self.lemma_became(a, a, c, c, e);
                assert(e.skip(0) =~= e);
                assert(c.skip(0) =~= c);
                assert(callback.asked() =~= callback.asked() + taken(a.records, c, 0));
            }
            store.records_finite();
        }
        loop
            invariant
                a == old(store).state(),
                c == self.chain(a.records),
                e == self.entries(a.records),
                good == self.wf(a.records),
                keeps_state(a, store.state()),
                store.state().room >= a.room,
                store.state().records.dom().finite(),
                old(callback).sound() ==> callback.sound(),
                a.read_only && !a.closed ==> store.state().records == a.records,
                good ==> {
                    &&& 0 <= k <= e.len()
                    &&& self.became(a, store.state(), e.skip(k))
                    &&& self.chain(store.state().records) == c.skip(k)
                    &&& callback.asked() == old(callback).asked() + taken(a.records, c, k)
                },
            decreases store.state().records.dom().len(),
        {
            let ghost b = store.state();
            let tail: u64 = match self.read_ptr(store, self.tail_recid) {
                Ok(x) => x,
                Err(e) => {
                    return Err(e);
                },
            };
            let recid: u64 = match node_recid(tail) {
                Ok(x) => x,
                Err(e) => {
                    return Err(e);
                },
            };
            proof {
                if good {
                    self.lemma_front(a, b, k);
                }
            }
            let node = match self.get_node(store, recid) {
                Ok(Some(n)) => n,
                Ok(None) => {
                    proof {
                        if good {
                            assert(callback.asked() =~= old(callback).asked() + answers(
                                a.records,
                                c,
                                k,
                            ));
                        }
                    }
                    return Ok(());
                },
                Err(e) => {
                    return Err(e);
                },
            };
            let ghost before_ask = callback.asked();
            if !callback.take(recid, &node) {
                proof {
                    if good {
                        assert(callback.asked() =~= old(callback).asked() + answers(
                            a.records,
                            c,
                            k,
                        ));
                    }
                }
                return Ok(());
            }
            match self.take(store) {
                Ok(Some(_)) => {},
                Ok(None) => {
                    proof {
                        if good {
                            assert(false);
                        }
                    }
                    return Ok(());
                },
                Err(e) => {
                    return Err(e);
                },
            }
            proof {
                if good {
                    assert(e.skip(k).skip(1) =~= e.skip(k + 1));
                    assert(c.skip(k).skip(1) =~= c.skip(k + 1));
                    assert(callback.asked() =~= old(callback).asked() + taken(a.records, c, k + 1));
                    let d = store.state();
                    assert forall|x: u64| #[trigger]
                        a.records.contains_key(x) && !self.owned(a.records).contains(x)
                        implies d.records.contains_key(x) && d.records[x] == a.records[x]
                        && !self.owned(d.records).contains(x) by {
                        assert(b.records.contains_key(x));
                    }
                }
                k = k + 1;
            }
        }
    }

    /// After `k` nodes were taken, the front of the queue is node `k` with no
    /// previous one.
    proof fn lemma_front(&self, a: StoreState, b: StoreState, k: int)
        requires
            self.wf(a.records),
            self.wf(b.records),
            0 <= k <= self.entries(a.records).len(),
            self.chain(b.records) == self.chain(a.records).skip(k),
            self.entries(b.records) == self.entries(a.records).skip(k),
        ensures
            ({
                let c = self.chain(a.records);
                &&& pointer_at(b.records, self.oldest()) == Some(c[k])
                &&& c[k] != 0
                &&& k < c.len() - 1 ==> queue_node(b.records, c[k]) == Some(
                    front_node(a.records, c, k),
                )
                &&& k == c.len() - 1 ==> item_at(&NODE_SER, b.records, c[k]) == Some(None::<Node>)
            }),
    {
        let c = self.chain(a.records);
        let d = self.chain(b.records);
        assert(d[0] == c[k]);
        if k < c.len() - 1 {
            assert(link_ok(b.records, d, 0));
            assert(d[1] == c[k + 1]);
            assert(self.entries(b.records)[0] == self.entries(a.records)[k]);
        }
    }

    /// Removes every node.
    pub fn clear<S: Store>(&self, store: &mut S) -> (r: Result<()>)
        ensures
            old(store).state().closed ==> r == Err::<(), DbError>(DbError::StoreClosed),
            old(store).state().read_only
                && !old(store).state().closed ==> final(store).state().records
                == old(store).state().records,
            keeps_state(old(store).state(), final(store).state()),
            final(store).state().room >= old(store).state().room,
            self.wf(old(store).state().records) ==> carried_out(old(store).state(), r),
            self.wf(old(store).state().records) && r is Ok ==> self.became(
                old(store).state(),
                final(store).state(),
                Seq::empty(),
            ),
    {
        let mut all = TakeAll { asked: Ghost(Seq::empty()) };
        let ghost a = store.state();
        let r = self.take_until(store, &mut all);
        proof {
            if self.wf(a.records) && r is Ok {
                let c = self.chain(a.records);
                let e = self.entries(a.records);
                let k = choose|k: int|
                    {
                        &&& 0 <= k <= e.len()
                        &&& self.became(a, store.state(), e.skip(k))
                        &&& all.asked() == Seq::<(u64, Node, bool)>::empty() + #[trigger] answers(
                            a.records,
                            c,
                            k,
                        )
                    };
                if k < e.len() {
                    assert(all.asked()[k].2 == false);
                }
                assert(e.skip(k) =~= Seq::empty());
            }
        }
        r
    }

    /// Hands every entry to the visitor, oldest first.
    pub fn for_each<S: Store, V: QueueLongVisitor>(
        &self,
        store: &S,
        visitor: &mut V,
    ) -> (r: Result<()>)
        ensures
            store.state().closed ==> r == Err::<(), DbError>(DbError::StoreClosed),
            old(visitor).sound() ==> final(visitor).sound(),
            self.wf(store.state().records) ==> served(store.state(), r),
            self.wf(store.state().records)
                && r is Ok ==> final(visitor).seen()
                    == old(visitor).seen() + self.entries(store.state().records),
    {
        let ghost st = store.state();
        let ghost c = self.chain(st.records);
        let ghost e = self.entries(st.records);
        let ghost good = self.wf(st.records);
        let mut recid: u64 = match self.read_ptr(store, self.tail_recid) {
            Ok(x) => x,
            Err(e) => {
                return Err(e);
            },
        };
        let mut steps: u64 = 0;
        proof {
            if good {
                lemma_chain_len(c);
                assert(visitor.seen() =~= old(visitor).seen() + e.take(0));
            }
        }
        loop
            invariant
                !store.state().closed,
                st == store.state(),
                c == self.chain(st.records),
                e == self.entries(st.records),
                good == self.wf(st.records),
                good ==> c.len() <= u64::MAX,
                old(visitor).sound() ==> visitor.sound(),
                good ==> {
                    &&& 0 <= steps < c.len()
                    &&& recid == c[steps as int]
                    &&& visitor.seen() == old(visitor).seen() + e.take(steps as int)
                },
            decreases u64::MAX - steps,
        {
            let at: u64 = match node_recid(recid) {
                Ok(x) => x,
                Err(e) => {
                    return Err(e);
                },
            };
            proof {
                if good && steps < c.len() - 1 {
                    assert(link_ok(st.records, c, steps as int));
                }
            }
            match self.get_node(store, at) {
                Ok(Some(node)) => {
                    visitor.visit(at, node.value, node.timestamp);
                    if steps == u64::MAX {
                        return Err(DbError::corrupt("QueueLong: endless chain of nodes"));
                    }
                    proof {
                        if good {
                            assert(e.take(steps + 1)
                                =~= e.take(steps as int).push(e[steps as int]));
                            assert(visitor.seen() =~= old(visitor).seen() + e.take(steps + 1));
                        }
                    }
                    recid = node.next;
                    steps = steps + 1;
                },
                Ok(None) => {
                    proof {
                        if good {
                            assert(steps == c.len() - 1);
                            assert(e.take(steps as int) =~= e);
                        }
                    }
                    return Ok(());
                },
                Err(e) => {
                    return Err(e);
                },
            }
        }
    }

    /// The values, oldest first.
    pub fn values<S: Store>(&self, store: &S) -> (r: Result<Vec<u64>>)
        ensures
            store.state().closed ==> r == Err::<Vec<u64>, DbError>(DbError::StoreClosed),
            self.wf(store.state().records) ==> served(store.state(), r) && (r matches Ok(v) ==> v@
                == self.entries(store.state().records).map_values(|e: QueueEntry| e.value)),
    {
        let mut list = ValueList { values: Vec::new(), entries: Ghost(Seq::empty()) };
        assert(list.values@ =~= list.entries@.map_values(|e: QueueEntry| e.value));
        match self.for_each(store, &mut list) {
            Ok(_) => {
                assert(Seq::<QueueEntry>::empty() + self.entries(store.state().records)
                    =~= self.entries(store.state().records));
                Ok(list.values)
            },
            Err(e) => Err(e),
        }
    }

    /// How many nodes the queue has.
    pub fn size<S: Store>(&self, store: &S) -> (r: Result<u64>)
        ensures
            store.state().closed ==> r == Err::<u64, DbError>(DbError::StoreClosed),
            self.wf(store.state().records) ==> served(store.state(), r) && (r matches Ok(n) ==> n
                == self.entries(store.state().records).len()),
    {
        let ghost st = store.state();
        let ghost c = self.chain(st.records);
        let ghost good = self.wf(st.records);
        let sentinel: u64 = match self.read_ptr(store, self.head_recid) {
            Ok(x) => x,
            Err(e) => {
                return Err(e);
            },
        };
        let mut recid: u64 = match self.read_ptr(store, self.tail_recid) {
            Ok(x) => x,
            Err(e) => {
                return Err(e);
            },
        };
        let mut count: u64 = 0;
        proof {
            if good {
                lemma_chain_len(c);
            }
        }
        while recid != sentinel
            invariant
                !store.state().closed,
                st == store.state(),
                c == self.chain(st.records),
                good == self.wf(st.records),
                good ==> {
                    &&& c.len() <= u64::MAX
                    &&& 0 <= count < c.len()
                    &&& recid == c[count as int]
                    &&& sentinel == c.last()
                },
            decreases u64::MAX - count,
        {
            proof {
                if good {
                    assert(count < c.len() - 1);
                    assert(link_ok(st.records, c, count as int));
                }
            }
            let at: u64 = match node_recid(recid) {
                Ok(x) => x,
                Err(e) => {
                    return Err(e);
                },
            };
            let node = match self.get_node(store, at) {
                Ok(Some(n)) => n,
                Ok(None) => {
                    return Err(DbError::corrupt("QueueLong: linked node not found"));
                },
                Err(e) => {
                    return Err(e);
                },
            };
            if count == u64::MAX {
                return Err(DbError::corrupt("QueueLong: endless chain of nodes"));
            }
            recid = node.next;
            count = count + 1;
        }
        proof {
            if good && count < c.len() - 1 {
                assert(c[count as int] != c[c.len() - 1]);
            }
        }
        Ok(count)
    }

    /// What [`verify`](Self::verify) looks for: pointers and links that fit together,
    /// and a free place after the newest node.
    pub open spec fn checked(&self, records: Records, c: Seq<u64>) -> bool {
        &&& c.len() > 0
        &&& pointer_at(records, self.oldest()) == Some(c[0])
        &&& pointer_at(records, self.place()) == Some(c.last())
        &&& pointer_at(records, self.newest()) == Some(before(c, c.len() - 1))
        &&& forall|i: int| 0 <= i < c.len() - 1 ==> #[trigger] link_ok(records, c, i)
        &&& forall|i: int| #![trigger c[i]] 0 <= i < c.len() - 1 ==> c[i] != 0 && c[i] != c.last()
        &&& c.len() > 1 ==> c.last() != 0 && item_at(&NODE_SER, records, c.last()) == Some(
            None::<Node>,
        )
    }

    /// The backlinks of a chain keep its nodes apart.
    proof fn lemma_apart(&self, records: Records, c: Seq<u64>, i: int, j: int)
        requires
            self.checked(records, c),
            0 <= i < j < c.len(),
        ensures
            c[i] != c[j],
        decreases i,
    {
        if j < c.len() - 1 {
            assert(link_ok(records, c, i));
            assert(link_ok(records, c, j));
            assert(c[j - 1] != 0);
            if i > 0 {
                self.lemma_apart(records, c, i - 1, j - 1);
            }
        } else {
            assert(c[i] != c.last());
        }
    }

    /// Checks the structure; succeeds exactly when it is as it should be.
    #[verifier::spinoff_prover]
    #[verifier::rlimit(60)]
    pub fn verify<S: Store>(&self, store: &S) -> (r: Result<()>)
        ensures
            store.state().closed ==> r == Err::<(), DbError>(DbError::StoreClosed),
            r is Ok ==> exists|c: Seq<u64>| #[trigger] self.checked(store.state().records, c),
            store.state().readable && (exists|c: Seq<u64>| #[trigger]
                self.checked(store.state().records, c)) ==> r is Ok,
            store.state().readable && self.wf(store.state().records) ==> r is Ok,
    {
        let ghost st = store.state();
        let ghost good = st.readable && exists|c: Seq<u64>| #[trigger] self.checked(st.records, c);
        let ghost d = choose|c: Seq<u64>| #[trigger] self.checked(st.records, c);
        proof {
            if st.readable && self.wf(st.records) {
                let w = self.chain(st.records);
                assert(self.checked(st.records, w)) by {
                    assert forall|i: int| #![trigger w[i]] 0 <= i < w.len() - 1 implies w[i] != 0
                        && w[i] != w.last() by {
                        assert(w[i] != w[w.len() - 1]);
                    }
                }
            }
            if good {
                assert(self.checked(st.records, d));
            }
        }
        let sentinel: u64 = match self.read_ptr(store, self.head_recid) {
            Ok(x) => x,
            Err(e) => {
                return Err(e);
            },
        };
        let first: u64 = match self.read_ptr(store, self.tail_recid) {
            Ok(x) => x,
            Err(e) => {
                return Err(e);
            },
        };
        let newest: u64 = match self.read_ptr(store, self.head_prev_recid) {
            Ok(x) => x,
            Err(e) => {
                return Err(e);
            },
        };
        if sentinel == first {
            if newest != 0 {
                return Err(DbError::VerifyFailed(String::from_str("empty QueueLong has headPrev")));
            }
            proof {
                assert(self.checked(st.records, seq![first]));
            }
            return Ok(());
        }
        let mut previous: u64 = 0;
        let mut recid: u64 = first;
        let mut steps: u64 = 0;
        let ghost mut c: Seq<u64> = seq![first];
        proof {
            if good {
                assert(d.take(1) =~= c);
                assert forall|i: int, j: int| #![trigger d[i], d[j]] 0 <= i < j < d.len()
                    implies d[i]
                    != d[j] by {
                    self.lemma_apart(st.records, d, i, j);
                }
                lemma_chain_len(d);
            }
        }
        while recid != sentinel
            invariant
                !store.state().closed,
                st == store.state(),
                good == (st.readable && exists|c: Seq<u64>| #[trigger] self.checked(st.records, c)),
                st.readable && self.wf(st.records) ==> good,
                good ==> self.checked(st.records, d) && d.len() <= u64::MAX,
                good ==> c.len() <= d.len() && c == d.take(c.len() as int),
                steps == c.len() - 1,
                c[0] == first,
                c.last() == recid,
                first != sentinel,
                previous == before(c, c.len() - 1),
                pointer_at(st.records, self.place()) == Some(sentinel),
                pointer_at(st.records, self.oldest()) == Some(first),
                pointer_at(st.records, self.newest()) == Some(newest),
                forall|i: int| 0 <= i < c.len() - 1 ==> #[trigger] link_ok(st.records, c, i),
                forall|i: int|
                    #![trigger c[i]]
                    0 <= i < c.len() - 1 ==> c[i] != 0 && c[i] != sentinel,
            decreases u64::MAX - steps,
        {
            proof {
                if good {
                    assert(d[c.len() - 1] == recid);
                    assert(c.len() < d.len());
                    assert(link_ok(st.records, d, c.len() - 1));
                    assert(before(d, c.len() - 1) == before(c, c.len() - 1));
                }
            }
            let at: u64 = match node_recid(recid) {
                Ok(x) => x,
                Err(e) => {
                    return Err(e);
                },
            };
            let node = match self.get_node(store, at) {
                Ok(Some(n)) => n,
                Ok(None) => {
                    return Err(DbError::VerifyFailed(String::from_str("QueueLong node missing")));
                },
                Err(e) => {
                    return Err(e);
                },
            };
            if node.prev != previous {
                return Err(DbError::VerifyFailed(String::from_str("QueueLong backlink mismatch")));
            }
            if steps == u64::MAX {
                return Err(DbError::VerifyFailed(String::from_str("QueueLong endless chain of nodes")));
            }
            proof {
                let c2 = c.push(node.next);
                assert forall|i: int| 0 <= i < c2.len() - 1 implies #[trigger] link_ok(
                    st.records,
                    c2,
                    i,
                ) by {
                    if i < c.len() - 1 {
                        assert(link_ok(st.records, c, i));
                    }
                }
                if good {
                    assert(c2 =~= d.take(c2.len() as int));
                }
                c = c2;
            }
            previous = recid;
            recid = node.next;
            steps = steps + 1;
        }
        let place: u64 = match node_recid(sentinel) {
            Ok(x) => x,
            Err(e) => {
                proof {
                    if good && d.len() > 1 {
                        assert(d.last() != 0);
                    }
                }
                return Err(e);
            },
        };
        proof {
            if good {
                assert(d[c.len() - 1] == sentinel);
                assert(c.len() == d.len());
                assert(c =~= d);
            }
        }
        match self.get_node(store, place) {
            Ok(Some(_)) => {
                return Err(
                    DbError::VerifyFailed(String::from_str("QueueLong sentinel is not preallocated")),
                );
            },
            Ok(None) => {},
            Err(e) => {
                return Err(e);
            },
        }
        if previous != newest {
            return Err(DbError::VerifyFailed(String::from_str("QueueLong headPrev mismatch")));
        }
        proof {
            assert(self.checked(st.records, c));
        }
        Ok(())
    }
}

/// The node at place `k` once the nodes before it are taken.
pub open spec fn front_node(records: Records, c: Seq<u64>, k: int) -> Node {
    let n = queue_node(records, c[k]).unwrap();
    Node { prev: 0, next: c[k + 1], timestamp: n.timestamp, value: n.value }
}

/// The first `k` nodes, each wanted.
pub open spec fn taken(records: Records, c: Seq<u64>, k: int) -> Answers {
    Seq::new(k as nat, |i: int| (c[i], front_node(records, c, i), true))
}

/// What a callback was asked when it wanted `k` nodes: these, and where there are
/// more, the next one, which it did not want.
pub open spec fn answers(records: Records, c: Seq<u64>, k: int) -> Answers {
    if k < c.len() - 1 {
        taken(records, c, k).push((c[k], front_node(records, c, k), false))
    } else {
        taken(records, c, k)
    }
}

/// Decides about nodes, oldest first, until it does not want one.
pub trait QueueLongTakeUntil {
    /// What was asked so far, each with the answer.
    spec fn asked(&self) -> Answers;

    /// What the callback holds agrees with what it was asked.
    spec fn sound(&self) -> bool;

    /// Whether to take this node and go on.
    fn take(&mut self, node_recid: u64, node: &Node) -> (r: bool)
        ensures
            final(self).asked() == old(self).asked().push((node_recid, *node, r)),
            old(self).sound() ==> final(self).sound(),
    ;
}

/// Takes every node.
struct TakeAll {
    asked: Ghost<Answers>,
}

impl QueueLongTakeUntil for TakeAll {
    closed spec fn asked(&self) -> Answers {
        self.asked@
    }

    closed spec fn sound(&self) -> bool {
        forall|i: int| #![trigger self.asked@[i]] 0 <= i < self.asked@.len() ==> self.asked@[i].2
    }

    fn take(&mut self, node_recid: u64, node: &Node) -> bool {
        proof {
            self.asked@ = self.asked@.push((node_recid, *node, true));
        }
        true
    }
}

/// Sees the entries of a queue.
pub trait QueueLongVisitor {
    /// The entries that came so far.
    spec fn seen(&self) -> Entries;

    /// What the visitor holds agrees with the entries it saw.
    spec fn sound(&self) -> bool;

    fn visit(&mut self, recid: u64, value: u64, timestamp: u64)
        ensures
            final(self).seen() == old(self).seen().push(QueueEntry { recid, timestamp, value }),
            old(self).sound() ==> final(self).sound(),
    ;
}

/// Collects values.
struct ValueList {
    values: Vec<u64>,
    entries: Ghost<Entries>,
}

impl QueueLongVisitor for ValueList {
    closed spec fn seen(&self) -> Entries {
        self.entries@
    }

    closed spec fn sound(&self) -> bool {
        self.values@ == self.entries@.map_values(|e: QueueEntry| e.value)
    }

    fn visit(&mut self, recid: u64, value: u64, timestamp: u64) {
        self.values.push(value);
        proof {
            self.entries@ = self.entries@.push(QueueEntry { recid, timestamp, value });
            if old(self).sound() {
                assert(self.values@ =~= self.entries@.map_values(|e: QueueEntry| e.value));
            }
        }
    }
}

/// There are fewer nodes than numbers.
proof fn lemma_chain_len(c: Seq<u64>)
    requires
        forall|i: int, j: int| #![trigger c[i], c[j]] 0 <= i < j < c.len() ==> c[i] != c[j],
        forall|i: int| 0 <= i < c.len() ==> #[trigger] c[i] != 0,
    ensures
        c.len() <= u64::MAX,
{
    let d = c.map_values(|x: u64| x as int);
    let range = vstd::set_lib::set_int_range(1, u64::MAX + 1);
    vstd::set_lib::lemma_int_range(1, u64::MAX + 1);
    assert(d.no_duplicates()) by {
        assert forall|i: int, j: int| 0 <= i < d.len() && 0 <= j < d.len() && i != j implies d[i]
            != d[j] by {
            if i < j {
                assert(c[i] != c[j]);
            } else {
                assert(c[j] != c[i]);
            }
        }
    }
    d.unique_seq_to_set();
    assert(d.to_set().subset_of(range)) by {
        assert forall|x: int| d.to_set().contains(x) implies range.contains(x) by {
            let i = choose|i: int| 0 <= i < d.len() && d[i] == x;
            assert(c[i] != 0);
        }
    }
    vstd::set_lib::lemma_len_subset(d.to_set(), range);
}

} // verus!
