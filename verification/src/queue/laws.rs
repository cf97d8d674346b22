//! What holds of the queues as a whole.

use vstd::prelude::*;
use crate::error::{DbError, Result};
use crate::io::packed;
use crate::ser::{enc_all, Model, Serializer, LONG_PACKED};
use crate::store::{item_at, Records, StoreState};
use super::blocking::{
    all_enqueued, element_at, enqueued, first_place, header_at, linked, mode_number, place_ok, Header, Mode,
    NodeSer, PersistentBlockingQueue, HEADER_SER, UNBOUNDED,
};
use super::long::{
    answers, link_ok, pointer_at, queue_node, Node, QueueEntry, QueueLong, MAX_FIELD, NODE_SER,
};

verus! {

/// Elements leave a first-in first-out queue in the order in which they came.
pub proof fn law_fifo_keeps_order<V>(capacity: nat, s: Seq<V>, vs: Seq<V>)
    requires
        s.len() + vs.len() <= capacity,
    ensures
        all_enqueued(0, capacity, s, vs) == s + vs,
    decreases vs.len(),
{
    if vs.len() > 0 {
        law_fifo_keeps_order(capacity, s, vs.drop_last());
        assert((s + vs.drop_last()).push(vs.last()) =~= s + vs);
    } else {
        assert(s + vs =~= s);
    }
}

/// Elements leave a stack in the reverse order.
pub proof fn law_stack_reverses<V>(capacity: nat, s: Seq<V>, vs: Seq<V>)
    ensures
        all_enqueued(1, capacity, s, vs) == vs.reverse() + s,
    decreases vs.len(),
{
    if vs.len() > 0 {
        law_stack_reverses(capacity, s, vs.drop_last());
        assert(seq![vs.last()] + (vs.drop_last().reverse() + s) =~= vs.reverse() + s);
    } else {
        assert(vs.reverse() + s =~= s);
    }
}

/// A circular queue holds the newest elements, as many as it has room for.
pub proof fn law_circular_keeps_newest<V>(capacity: nat, s: Seq<V>, vs: Seq<V>)
    requires
        capacity > 0,
        s.len() <= capacity,
    ensures
        all_enqueued(2, capacity, s, vs) == if s.len() + vs.len() <= capacity {
            s + vs
        } else {
            (s + vs).skip(s.len() + vs.len() - capacity)
        },
        all_enqueued(2, capacity, s, vs).len() <= capacity,
    decreases vs.len(),
{
    let all = s + vs;
    if vs.len() > 0 {
        law_circular_keeps_newest(capacity, s, vs.drop_last());
        let before = all_enqueued(2, capacity, s, vs.drop_last());
        let gone = s.len() + vs.len() - capacity;
        if gone <= 0 {
            assert((s + vs.drop_last()).push(vs.last()) =~= all);
        } else if gone == 1 {
            assert(before.skip(1).push(vs.last()) =~= all.skip(gone));
        } else {
            assert(before.skip(1).push(vs.last()) =~= all.skip(gone));
        }
    } else {
        assert(all =~= s);
    }
}

/// Each mode has a number of its own: the one that the laws of the modes speak of.
pub proof fn law_mode_numbers()
    ensures
        mode_number(Mode::Fifo) == 0,
        mode_number(Mode::Lifo) == 1,
        mode_number(Mode::Circular) == 2,
{
}

/// The first place of an element is one where it stands, and it stands nowhere before.
pub proof fn law_first_place<V>(s: Seq<V>, v: V, i: int, j: int)
    requires
        first_place(s, v, i),
        0 <= j < s.len(),
        s[j] == v,
    ensures
        0 <= i <= j,
        s[i] == v,
        s.remove(i).len() == s.len() - 1,
{
}

/// Where an element stands it has a first place.
pub proof fn law_first_place_exists<V>(s: Seq<V>, v: V) -> (i: int)
    requires
        s.contains(v),
    ensures
        first_place(s, v, i),
{
    let i = s.index_of_first(v).unwrap();
    s.index_of_first_ensures(v);
    assert forall|j: int| 0 <= j < i implies #[trigger] s[j] != v by {}
    i
}

impl<Se: Serializer> PersistentBlockingQueue<Se> {
    proof fn lemma_size(&self, st: StoreState)
        requires
            self.wf(st.records),
        ensures
            self.elements(st.records).len() == self.header_of(st.records).size,
            self.elements(st.records).len() <= self.header_of(st.records).capacity,
    {
        assert(self.holds(st.records, self.chain(st.records)));
    }

    /// An offer is refused only by a full queue that is not circular. Elsewhere the element
    /// goes to the end, on a stack to the front, and out of a circular queue that is full
    /// the oldest element goes.
    pub proof fn law_offer(&self, a: StoreState, b: StoreState, v: Model<Se>, r: Result<bool>)
        requires
            self.offered(a, b, v, r),
            self.wf(a.records),
            !self.is_shut(),
            a.readable && a.writable && a.room > 0 && !a.closed,
        ensures
            ({
                let s = self.elements(a.records);
                let t = self.elements(b.records);
                let mode = self.header_of(a.records).mode;
                let full = s.len() == self.header_of(a.records).capacity;
                &&& r == Ok::<bool, DbError>(!full || mode == mode_number(Mode::Circular))
                &&& full && mode != mode_number(Mode::Circular) ==> b == a
                &&& !full && mode != mode_number(Mode::Lifo) ==> t.len() == s.len() + 1
                    && t.last() == v && t.drop_last() == s
                &&& !full && mode == mode_number(Mode::Lifo) ==> t.len() == s.len() + 1 && t[0]
                    == v && t.skip(1) == s
                &&& full && mode == mode_number(Mode::Circular) ==> t.len() == s.len() && t.last()
                    == v && t.drop_last() == s.skip(1)
            }),
    {
        self.lemma_size(a);
        let s = self.elements(a.records);
        let h = self.header_of(a.records);
        let c = self.chain(a.records);
        assert(self.holds(a.records, c));
        assert(s.push(v).drop_last() =~= s);
        assert((seq![v] + s).skip(1) =~= s);
        if s.len() > 0 {
            assert(s.skip(1).push(v).drop_last() =~= s.skip(1));
        }
    }

    /// Adding is offering, but for the answer of a full queue.
    pub proof fn law_add_is_offer(
        &self,
        a: StoreState,
        b: StoreState,
        b2: StoreState,
        v: Model<Se>,
        r: Result<()>,
        q: Result<bool>,
    )
        requires
            self.added(a, b, v, r),
            self.offered(a, b2, v, q),
            self.wf(a.records),
            !self.is_shut(),
            a.readable && a.writable && a.room > 0 && !a.closed,
        ensures
            r is Ok <==> q == Ok::<bool, DbError>(true),
            r is Err ==> (r matches Err(e) && e is Unsupported),
            self.elements(b.records) == self.elements(b2.records),
    {
    }

    /// Taking hands out the element at the front and leaves the others as they stand; an
    /// empty queue has none to hand out.
    pub proof fn law_poll(
        &self,
        a: StoreState,
        b: StoreState,
        r: Result<Option<Se::Item>>,
    )
        requires
            self.polled(a, b, r),
            self.wf(a.records),
            !self.is_shut(),
            a.readable && a.writable && !a.closed,
        ensures
            ({
                let s = self.elements(a.records);
                let t = self.elements(b.records);
                &&& s.len() == 0 ==> (r matches Ok(x) && x is None) && b == a
                &&& s.len() > 0 ==> (r matches Ok(Some(x)) && s == seq![x@] + t)
            }),
    {
        let s = self.elements(a.records);
        if s.len() > 0 {
            assert(s =~= seq![s[0]] + s.skip(1));
        }
    }

    /// Of many elements as many fit as there are free places; all of them fit into a
    /// circular queue.
    pub proof fn law_fitting(&self, st: StoreState, n: nat)
        requires
            self.wf(st.records),
        ensures
            ({
                let h = self.header_of(st.records);
                let free = h.capacity - self.elements(st.records).len();
                let fit = Self::fitting(h, n);
                &&& h.mode == mode_number(Mode::Circular) ==> fit == n
                &&& h.mode != mode_number(Mode::Circular) && n <= free ==> fit == n
                &&& h.mode != mode_number(Mode::Circular) && n > free ==> fit == free
            }),
    {
        self.lemma_size(st);
    }

    /// What is put into an empty queue is what is taken next, and the queue is empty
    /// again.
    pub proof fn law_put_then_poll(
        &self,
        a: StoreState,
        b: StoreState,
        c: StoreState,
        v: Model<Se>,
        put: Result<bool>,
        polled: Result<Option<Se::Item>>,
    )
        requires
            self.wf(a.records),
            put is Ok,
            polled is Ok,
            self.elements(a.records).len() == 0,
            !self.full_in(a.records),
            self.offered(a, b, v, put),
            self.polled(b, c, polled),
        ensures
            polled matches Ok(Some(x)) && x@ == v,
            self.wf(c.records),
            self.elements(c.records) == Seq::<Model<Se>>::empty(),
    {
        let s = self.elements(a.records);
        let h = self.header_of(a.records);
        assert(enqueued(h.mode, false, s, v) =~= seq![v]);
        assert(seq![v].skip(1) =~= Seq::<Model<Se>>::empty());
    }

    /// On a stack taking an element undoes putting it.
    pub proof fn law_stack_poll_undoes_put(
        &self,
        a: StoreState,
        b: StoreState,
        c: StoreState,
        v: Model<Se>,
        put: Result<bool>,
        polled: Result<Option<Se::Item>>,
    )
        requires
            self.wf(a.records),
            put is Ok,
            polled is Ok,
            self.header_of(a.records).mode == 1,
            !self.full_in(a.records),
            self.offered(a, b, v, put),
            self.polled(b, c, polled),
        ensures
            polled matches Ok(Some(x)) && x@ == v,
            self.elements(c.records) == self.elements(a.records),
    {
        let s = self.elements(a.records);
        assert((seq![v] + s).skip(1) =~= s);
    }

    /// Whatever a queue becomes, another queue with records of its own keeps its
    /// elements, and they stay apart.
    pub proof fn law_other_queues_keep<Sf: Serializer>(
        &self,
        other: &PersistentBlockingQueue<Sf>,
        a: StoreState,
        b: StoreState,
        s: Seq<Model<Se>>,
    )
        requires
            self.wf(a.records),
            self.became(a, b, s),
            other.wf(a.records),
            other.owned(a.records).disjoint(self.owned(a.records)),
        ensures
            other.wf(b.records),
            other.elements(b.records) == other.elements(a.records),
            other.owned(b.records).disjoint(self.owned(b.records)),
    {
        let c = other.chain(a.records);
        assert(other.holds(a.records, c));
        assert forall|x: u64| #[trigger] other.owned(a.records).contains(x)
            implies b.records.contains_key(
            x,
        ) && b.records[x] == a.records[x] && !self.owned(b.records).contains(x) by {
            assert(!self.owned(a.records).contains(x));
            if x != other.header_id() {
                let i = choose|i: int| 0 <= i < c.len() && c[i] == x;
                assert(place_ok(&other.ser(), a.records, c, i));
            }
            assert(a.records.contains_key(x));
        }
        other.law_untouched(a.records, b.records);
    }
}

/// Counts and stamps go up to the largest number with a sign, and so does the size of a
/// queue that is not circular.
pub proof fn law_queue_limits()
    ensures
        UNBOUNDED == i64::MAX,
        MAX_FIELD == i64::MAX,
{
}

/// What a check of a queue finds in order: the header counts the nodes, it points to the
/// first and to the last, and each node points to the next.
pub proof fn law_linked_queue<Se: Serializer>(
    ser: &Se,
    records: Records,
    header: u64,
    c: Seq<u64>,
    i: int,
)
    requires
        linked(ser, records, header, c),
        0 <= i < c.len(),
    ensures
        header_at(records, header) matches Some(h) && h.size == c.len() && h.head == c[0] && h.tail
            == c.last(),
        element_at(ser, records, c[i]) matches Some(n) && (i + 1 < c.len() ==> n.0 == c[i + 1]) && (
        i + 1 == c.len() ==> n.0 == 0),
        c[i] != 0,
{
    assert(place_ok(ser, records, c, i));
}

impl QueueLong {
    /// What a check of a queue finds in order: the pointers name the oldest node, the newest
    /// and the free place after it, and each node names its neighbours.
    pub proof fn law_checked_queue(&self, records: Records, c: Seq<u64>, i: int)
        requires
            self.checked(records, c),
            0 <= i < c.len() - 1,
        ensures
            pointer_at(records, self.oldest()) == Some(c[0]),
            pointer_at(records, self.place()) == Some(c.last()),
            pointer_at(records, self.newest()) == Some(c[c.len() - 2]),
            queue_node(records, c[i]) matches Some(n) && n.next == c[i + 1] && n.prev == if i == 0 {
                0
            } else {
                c[i - 1]
            },
            c[i] != 0,
            item_at(&NODE_SER, records, c.last()) == Some(None::<Node>),
    {
        assert(link_ok(records, c, i));
    }

    /// The entries of a queue are what its nodes hold, oldest first.
    pub proof fn law_entries(&self, records: Records, i: int)
        requires
            self.wf(records),
            0 <= i < self.entries(records).len(),
        ensures
            ({
                let e = self.entries(records)[i];
                &&& e.recid == self.chain(records)[i]
                &&& queue_node(records, e.recid) matches Some(n) && n.value == e.value
                    && n.timestamp == e.timestamp
                &&& i == 0 ==> pointer_at(records, self.oldest()) == Some(e.recid)
                &&& i == self.entries(records).len() - 1 ==> pointer_at(records, self.newest())
                    == Some(e.recid)
            }),
    {
        let c = self.chain(records);
        assert(self.holds(records, c));
        assert(link_ok(records, c, i));
    }

    /// A callback that decides what to take is asked of the nodes one by one, the oldest
    /// first, with the value and the time of each, until it does not want one.
    pub proof fn law_asked_in_order(&self, records: Records, k: int, i: int)
        requires
            self.wf(records),
            0 <= k <= self.entries(records).len(),
            0 <= i < answers(records, self.chain(records), k).len(),
        ensures
            ({
                let (recid, node, wanted) = answers(records, self.chain(records), k)[i];
                let e = self.entries(records)[i];
                &&& recid == e.recid && node.value == e.value && node.timestamp == e.timestamp
                &&& wanted <==> i < k
            }),
            answers(records, self.chain(records), k).len() == if k < self.entries(records).len() {
                k + 1
            } else {
                k
            },
    {
        let c = self.chain(records);
        assert(self.holds(records, c));
    }

    /// What is put into an empty queue is what is taken next: its value and its time.
    pub proof fn law_put_then_take(
        &self,
        a: StoreState,
        b: StoreState,
        e: QueueEntry,
        taken: Option<Node>,
    )
        requires
            self.entries(a.records).len() == 0,
            self.became(a, b, self.entries(a.records).push(e)),
            taken == super::long::queue_node(b.records, self.entries(b.records)[0].recid),
        ensures
            taken matches Some(n) && n.value == e.value && n.timestamp == e.timestamp,
    {
        let c = self.chain(b.records);
        assert(self.holds(b.records, c));
        assert(self.entries(b.records).len() == 1 && self.entries(b.records)[0] == e);
        assert(c.len() == 2);
        assert(link_ok(b.records, c, 0));
    }

    /// Renewing an entry keeps every value, and makes the entry the newest.
    pub proof fn law_bump_moves_to_the_end(e: Seq<QueueEntry>, i: int, timestamp: u64)
        requires
            0 <= i < e.len(),
        ensures
            ({
                let moved = e.remove(i).push(
                    QueueEntry { recid: e[i].recid, timestamp, value: e[i].value },
                );
                &&& moved.len() == e.len()
                &&& moved.last().recid == e[i].recid
                &&& moved.map_values(|x: QueueEntry| x.value).to_multiset() == e.map_values(
                    |x: QueueEntry| x.value,
                ).to_multiset()
            }),
    {
        let f = |x: QueueEntry| x.value;
        let new = QueueEntry { recid: e[i].recid, timestamp, value: e[i].value };
        let moved = e.remove(i).push(new);
        let v = e.map_values(f);
        assert(moved.map_values(f) =~= v.remove(i).push(v[i]));
        broadcast use vstd::seq_lib::group_to_multiset_ensures;
        assert(v.remove(i).push(v[i]).to_multiset() =~= v.to_multiset());
    }
}

/// The records of the queues are packed numbers in a fixed order: the neighbours, the time
/// and the value of a place in a queue of numbers; the mode, the first and the last place,
/// the size and the capacity of another queue; and in each of its places the next place
/// before the element.
pub proof fn law_queue_records<Se: Serializer>(
    n: Node,
    h: Header,
    elem: &Se,
    next: u64,
    v: Model<Se>,
)
    ensures
        NODE_SER.enc(n) == packed(n.prev as nat) + packed(n.next as nat) + packed(
            n.timestamp as nat,
        ) + packed(n.value as nat),
        h.mode >= 0 ==> HEADER_SER.enc(h) == packed(h.mode as nat) + packed(h.head as nat) + packed(
            h.tail as nat,
        ) + packed(h.size as nat) + packed(h.capacity as nat),
        (NodeSer { elem }).enc((next, v)) == packed(next as nat) + elem.enc(v),
{
    lemma_four(n.prev, n.next, n.timestamp, n.value);
    lemma_four(h.head, h.tail, h.size, h.capacity);
    let m = h.mode;
    if m >= 0 {
        assert(m as u32 == m);
    }
    assert(NODE_SER.enc(n) == enc_all(&LONG_PACKED, seq![n.prev, n.next, n.timestamp, n.value]));
}

/// Four packed numbers.
proof fn lemma_four(a: u64, b: u64, c: u64, d: u64)
    ensures
        enc_all(&LONG_PACKED, seq![a, b, c, d]) == packed(a as nat) + packed(b as nat) + packed(
            c as nat,
        ) + packed(d as nat),
{
    reveal_with_fuel(enc_all, 5);
    let s = seq![a, b, c, d];
    assert(s.drop_last() =~= seq![a, b, c]);
    assert(seq![a, b, c].drop_last() =~= seq![a, b]);
    assert(seq![a, b].drop_last() =~= seq![a]);
    assert(seq![a].drop_last() =~= Seq::<u64>::empty());
    assert(enc_all(&LONG_PACKED, Seq::<u64>::empty()) =~= Seq::empty());
}

} // verus!
