//! B-link tree nodes and their wire format.
//!
//! A node is `pack(keys_len << 4 | flags)`, then the packed right link unless the
//! node is rightmost, the keys, and then either the packed child recids of a
//! directory or the values of a leaf followed by the fence of a leaf that is not
//! rightmost.

use vstd::prelude::*;
use crate::error::{DbError, Result};
use crate::io::{
    law_pack_round_trip, lemma_packed_len, lemma_varint_len_bound, packed, rest, varint, DataInput2,
    DataOutput2, SliceInput,
};
use crate::ser::{
    all_fit, dec_all, enc_all, group_key_order, law_group_round_trip, lemma_dec_all_within, models,
    sorted, GroupFormat, KeyFormat, Model, Serializer, LONG, LONG_PACKED,
};

verus! {

/// Flag of a directory.
pub const DIR: i32 = 8;

/// Flag of the leftmost node of a level.
pub const LEFT: i32 = 4;

/// Flag of the rightmost node of a level.
pub const RIGHT: i32 = 2;

/// Byte budget of an element of variable width.
const VAR_ELEM_EST: usize = 32;

/// A tree node.
pub struct Node<KF: KeyFormat, VF: Serializer> {
    pub flags: i32,
    /// Right sibling; zero for a rightmost node.
    pub link: u64,
    pub keys: Vec<KF::Item>,
    pub body: NodeBody<KF, VF>,
}

pub enum NodeBody<KF: KeyFormat, VF: Serializer> {
    Dir { children: Vec<u64> },
    /// A leaf with its values. The fence is its inclusive high bound; a rightmost
    /// leaf has none.
    Leaf { values: Vec<VF::Item>, fence: Option<KF::Item> },
    /// A leaf whose values are records of their own.
    ExternalLeaf { recids: Vec<i64>, fence: Option<KF::Item> },
}

/// The model of a node.
#[verifier::ext_equal]
pub struct NodeM<K, V> {
    pub flags: i32,
    pub link: u64,
    pub keys: Seq<K>,
    pub body: BodyM<K, V>,
}

#[verifier::ext_equal]
pub enum BodyM<K, V> {
    Dir { children: Seq<u64> },
    Leaf { values: Seq<V>, fence: Option<K> },
    ExternalLeaf { recids: Seq<i64>, fence: Option<K> },
}

pub open spec fn flag_dir(flags: i32) -> bool {
    flags & 8 != 0
}

pub open spec fn flag_left(flags: i32) -> bool {
    flags & 4 != 0
}

pub open spec fn flag_right(flags: i32) -> bool {
    flags & 2 != 0
}

impl<K, V> NodeM<K, V> {
    pub open spec fn dir(self) -> bool {
        flag_dir(self.flags)
    }

    pub open spec fn left(self) -> bool {
        flag_left(self.flags)
    }

    pub open spec fn right(self) -> bool {
        flag_right(self.flags)
    }

    pub open spec fn children(self) -> Seq<u64> {
        self.body->children
    }

    /// The fence of a leaf.
    pub open spec fn fence(self) -> Option<K> {
        match self.body {
            BodyM::Leaf { fence, .. } => fence,
            BodyM::ExternalLeaf { fence, .. } => fence,
            BodyM::Dir { .. } => None,
        }
    }

    /// The inclusive high bound of the keys under this node; `None` for a
    /// rightmost node.
    pub open spec fn high(self) -> Option<K> {
        if self.right() {
            None
        } else if self.dir() {
            Some(self.keys.last())
        } else {
            self.fence()
        }
    }
}

pub open spec fn fence_view<T: View>(f: Option<T>) -> Option<T::V> {
    match f {
        Some(k) => Some(k@),
        None => None,
    }
}

impl<KF: KeyFormat, VF: Serializer> View for NodeBody<KF, VF> {
    type V = BodyM<Model<KF>, Model<VF>>;

    open spec fn view(&self) -> BodyM<Model<KF>, Model<VF>> {
        match self {
            NodeBody::Dir { children } => BodyM::Dir { children: children@ },
            NodeBody::Leaf { values, fence } => BodyM::Leaf {
                values: models(values@),
                fence: fence_view(*fence),
            },
            NodeBody::ExternalLeaf { recids, fence } => BodyM::ExternalLeaf {
                recids: recids@,
                fence: fence_view(*fence),
            },
        }
    }
}

impl<KF: KeyFormat, VF: Serializer> View for Node<KF, VF> {
    type V = NodeM<Model<KF>, Model<VF>>;

    open spec fn view(&self) -> NodeM<Model<KF>, Model<VF>> {
        NodeM { flags: self.flags, link: self.link, keys: models(self.keys@), body: self.body@ }
    }
}

pub open spec fn no_zero(s: Seq<u64>) -> bool {
    forall|i: int| 0 <= i < s.len() ==> #[trigger] s[i] != 0
}

/// The structural rules of a node: what every stored node obeys.
pub open spec fn node_ok<KF: KeyFormat, V>(
    kf: &KF,
    inline: bool,
    n: NodeM<Model<KF>, V>,
) -> bool {
    &&& 0 <= n.flags < 16
    &&& n.right() == (n.link == 0)
    &&& sorted(kf, n.keys)
    &&& n.dir() == (n.body is Dir)
    &&& match n.body {
        BodyM::Dir { children } => {
            &&& children.len() == n.keys.len() + if n.right() { 1int } else { 0 }
            &&& children.len() > 0
            &&& no_zero(children)
        },
        BodyM::Leaf { values, fence } => inline && values.len() == n.keys.len() && fence_ok(
            kf,
            n.keys,
            n.right(),
            fence,
        ),
        BodyM::ExternalLeaf { recids, fence } => !inline && recids.len() == n.keys.len()
            && fence_ok(kf, n.keys, n.right(), fence),
    }
}

/// A leaf has a fence unless it is rightmost, and no key above it.
pub open spec fn fence_ok<KF: KeyFormat>(
    kf: &KF,
    keys: Seq<Model<KF>>,
    right: bool,
    fence: Option<Model<KF>>,
) -> bool {
    match fence {
        Some(f) => !right && (keys.len() > 0 ==> !kf.lt(f, keys.last())),
        None => right,
    }
}

/// Every key and value of the node can be written.
pub open spec fn node_fits<KF: KeyFormat, VF: Serializer>(
    kf: &KF,
    vf: &VF,
    n: NodeM<Model<KF>, Model<VF>>,
) -> bool {
    &&& n.keys.len() < 0x1000_0000
    &&& all_fit(kf, n.keys)
    &&& match n.body {
        BodyM::Leaf { values, .. } => all_fit(vf, values),
        _ => true,
    }
    &&& n.fence() matches Some(f) ==> kf.fits(f)
}

// ---------------------------------------------------------------- wire format

pub open spec fn enc_fence<KF: KeyFormat>(kf: &KF, fence: Option<Model<KF>>) -> Seq<u8> {
    match fence {
        Some(f) => kf.enc(f),
        None => Seq::empty(),
    }
}

pub open spec fn enc_body<KF: KeyFormat, VF: Serializer>(
    kf: &KF,
    vf: &VF,
    body: BodyM<Model<KF>, Model<VF>>,
) -> Seq<u8> {
    match body {
        BodyM::Dir { children } => enc_all(&LONG_PACKED, children),
        BodyM::Leaf { values, fence } => enc_all(vf, values) + enc_fence(kf, fence),
        BodyM::ExternalLeaf { recids, fence } => enc_all(&LONG, recids) + enc_fence(kf, fence),
    }
}

/// The bytes of a node.
pub open spec fn enc_node<KF: KeyFormat, VF: Serializer>(
    kf: &KF,
    vf: &VF,
    n: NodeM<Model<KF>, Model<VF>>,
) -> Seq<u8> {
    packed((n.keys.len() * 16 + n.flags) as nat) + (if n.right() {
        Seq::empty()
    } else {
        packed(n.link as nat)
    }) + enc_all(kf, n.keys) + enc_body(kf, vf, n.body)
}

/// The right link at the start of `s`: none and no bytes for a rightmost node.
pub open spec fn dec_link(s: Seq<u8>, right: bool) -> Option<(u64, nat)> {
    if right {
        Some((0, 0))
    } else {
        match varint(s, 10) {
            Some((l, n)) => if l != 0 {
                Some((l, n))
            } else {
                None
            },
            None => None,
        }
    }
}

pub open spec fn dec_fence<KF: KeyFormat>(
    kf: &KF,
    s: Seq<u8>,
    right: bool,
    keys: Seq<Model<KF>>,
) -> Option<(Option<Model<KF>>, nat)> {
    if right {
        Some((None, 0))
    } else {
        match kf.dec(s) {
            Some((f, n)) => if keys.len() > 0 && kf.lt(f, keys.last()) {
                None
            } else {
                Some((Some(f), n))
            },
            None => None,
        }
    }
}

pub open spec fn dec_body<KF: KeyFormat, VF: Serializer>(
    kf: &KF,
    vf: &VF,
    inline: bool,
    s: Seq<u8>,
    flags: i32,
    keys: Seq<Model<KF>>,
) -> Option<(BodyM<Model<KF>, Model<VF>>, nat)> {
    let right = flag_right(flags);
    if flag_dir(flags) {
        let count: nat = keys.len() + if right { 1nat } else { 0nat };
        if count == 0 {
            None
        } else {
            match dec_all(&LONG_PACKED, s, count) {
                Some((children, n)) => if no_zero(children) {
                    Some((BodyM::Dir { children }, n))
                } else {
                    None
                },
                None => None,
            }
        }
    } else if inline {
        match dec_all(vf, s, keys.len()) {
            Some((values, n)) => match dec_fence(kf, s.skip(n as int), right, keys) {
                Some((fence, m)) => Some((BodyM::Leaf { values, fence }, n + m)),
                None => None,
            },
            None => None,
        }
    } else {
        match dec_all(&LONG, s, keys.len()) {
            Some((recids, n)) => match dec_fence(kf, s.skip(n as int), right, keys) {
                Some((fence, m)) => Some((BodyM::ExternalLeaf { recids, fence }, n + m)),
                None => None,
            },
            None => None,
        }
    }
}

/// The node at the start of `s` and the bytes that it takes. Where `size` is
/// given, the node has to take exactly that many.
pub open spec fn dec_node<KF: KeyFormat, VF: Serializer>(
    kf: &KF,
    vf: &VF,
    inline: bool,
    s: Seq<u8>,
    size: Option<nat>,
) -> Option<(NodeM<Model<KF>, Model<VF>>, nat)> {
    match varint(s, 5) {
        Some((v, a)) => {
            let flags = ((v as u32) % 16) as i32;
            let keys_len = ((v as u32) / 16) as nat;
            if size matches Some(z) && keys_len > z {
                None
            } else {
                match dec_link(s.skip(a as int), flag_right(flags)) {
                    Some((link, b)) => match dec_all(kf, s.skip((a + b) as int), keys_len) {
                        Some((keys, c)) => if !sorted(kf, keys) {
                            None
                        } else {
                            match dec_body(kf, vf, inline, s.skip((a + b + c) as int), flags, keys) {
                                Some((body, d)) => if size matches Some(z) && a + b + c + d != z {
                                    None
                                } else {
                                    Some((NodeM { flags, link, keys, body }, a + b + c + d))
                                },
                                None => None,
                            }
                        },
                        None => None,
                    },
                    None => None,
                }
            }
        },
        None => None,
    }
}

proof fn lemma_body_round_trip<KF: KeyFormat, VF: Serializer>(
    kf: &KF,
    vf: &VF,
    inline: bool,
    n: NodeM<Model<KF>, Model<VF>>,
    tail: Seq<u8>,
)
    requires
        node_ok(kf, inline, n),
        node_fits(kf, vf, n),
    ensures
        dec_body(kf, vf, inline, enc_body(kf, vf, n.body) + tail, n.flags, n.keys) == Some(
            (n.body, enc_body(kf, vf, n.body).len()),
        ),
{
    match n.body {
        BodyM::Dir { children } => {
            law_group_round_trip(&LONG_PACKED, children, tail);
        },
        BodyM::Leaf { values, fence } => {
            let f = enc_fence(kf, fence);
            law_group_round_trip(vf, values, f + tail);
            let s = enc_body(kf, vf, n.body) + tail;
            assert(s =~= enc_all(vf, values) + (f + tail));
            assert(s.skip(enc_all(vf, values).len() as int) =~= f + tail);
            if let Some(k) = fence {
                kf.round_trip(k, tail);
            }
        },
        BodyM::ExternalLeaf { recids, fence } => {
            let f = enc_fence(kf, fence);
            law_group_round_trip(&LONG, recids, f + tail);
            let s = enc_body(kf, vf, n.body) + tail;
            assert(s =~= enc_all(&LONG, recids) + (f + tail));
            assert(s.skip(enc_all(&LONG, recids).len() as int) =~= f + tail);
            if let Some(k) = fence {
                kf.round_trip(k, tail);
            }
        },
    }
}

proof fn lemma_keys_take_bytes<KF: KeyFormat>(kf: &KF, keys: Seq<Model<KF>>)
    requires
        all_fit(kf, keys),
    ensures
        enc_all(kf, keys).len() >= keys.len(),
    decreases keys.len(),
{
    if keys.len() > 0 {
        lemma_keys_take_bytes(kf, keys.drop_last());
        kf.enc_nonempty(keys.last());
    }
}

/// Reading a node back gives the node that was written, whatever follows it, and
/// with its exact size too.
#[verifier::spinoff_prover]
pub proof fn law_node_round_trip<KF: KeyFormat, VF: Serializer>(
    kf: &KF,
    vf: &VF,
    inline: bool,
    n: NodeM<Model<KF>, Model<VF>>,
    tail: Seq<u8>,
)
    requires
        node_ok(kf, inline, n),
        node_fits(kf, vf, n),
    ensures
        dec_node(kf, vf, inline, enc_node(kf, vf, n) + tail, None) == Some(
            (n, enc_node(kf, vf, n).len()),
        ),
        dec_node(kf, vf, inline, enc_node(kf, vf, n) + tail, Some(enc_node(kf, vf, n).len()))
            == Some((n, enc_node(kf, vf, n).len())),
{
    let h: nat = (n.keys.len() * 16 + n.flags) as nat;
    let hb = packed(h);
    let lb = if n.right() {
        Seq::<u8>::empty()
    } else {
        packed(n.link as nat)
    };
    let kb = enc_all(kf, n.keys);
    let bb = enc_body(kf, vf, n.body);
    let s = enc_node(kf, vf, n) + tail;
    assert(varint(s, 5) == Some((h as u64, hb.len()))) by {
        lemma_packed_len(h);
        law_pack_round_trip(h, lb + kb + bb + tail, 5);
        assert(s =~= hb + (lb + kb + bb + tail));
    }
    assert((h as u64) as u32 == h);
    let flags = (((h as u64) as u32) % 16) as i32;
    let keys_len = (((h as u64) as u32) / 16) as nat;
    assert(flags == n.flags);
    assert(keys_len == n.keys.len());
    assert(dec_link(s.skip(hb.len() as int), n.right()) == Some((n.link, lb.len()))) by {
        assert(s.skip(hb.len() as int) =~= lb + (kb + bb + tail));
        if !n.right() {
            lemma_packed_len(n.link as nat);
            law_pack_round_trip(n.link as nat, kb + bb + tail, 10);
        }
    }
    assert(dec_all(kf, s.skip((hb.len() + lb.len()) as int), keys_len) == Some((n.keys, kb.len())))
        by {
        assert(s.skip((hb.len() + lb.len()) as int) =~= kb + (bb + tail));
        law_group_round_trip(kf, n.keys, bb + tail);
    }
    assert(dec_body(
        kf,
        vf,
        inline,
        s.skip((hb.len() + lb.len() + kb.len()) as int),
        n.flags,
        n.keys,
    ) == Some((n.body, bb.len()))) by {
        assert(s.skip((hb.len() + lb.len() + kb.len()) as int) =~= bb + tail);
        lemma_body_round_trip(kf, vf, inline, n, tail);
    }
    lemma_keys_take_bytes(kf, n.keys);
    assert(enc_node(kf, vf, n).len() == hb.len() + lb.len() + kb.len() + bb.len());
}

/// Every node that is read obeys the structural rules and can be written again.
pub proof fn lemma_dec_node_ok<KF: KeyFormat, VF: Serializer>(
    kf: &KF,
    vf: &VF,
    inline: bool,
    s: Seq<u8>,
    size: Option<nat>,
)
    ensures
        dec_node(kf, vf, inline, s, size) matches Some((n, used)) ==> node_ok(kf, inline, n)
            && all_fit(kf, n.keys) && n.keys.len() < 0x1000_0000 && used <= s.len()
            && (n.fence() matches Some(f) ==> kf.fits(f))
                && (n.body matches BodyM::Leaf { values, .. }
            ==> all_fit(vf, values)),
{
    lemma_varint_len_bound(s, 5);
    if let Some((v, a)) = varint(s, 5) {
        let flags = ((v as u32) % 16) as i32;
        let keys_len = ((v as u32) / 16) as nat;
        let right = flag_right(flags);
        assert(flags & 8 != 0 || flags & 8 == 0);
        lemma_varint_len_bound(s.skip(a as int), 10);
        if let Some((link, b)) = dec_link(s.skip(a as int), right) {
            let s2 = s.skip((a + b) as int);
            lemma_dec_all_within(kf, s2, keys_len);
            if let Some((keys, c)) = dec_all(kf, s2, keys_len) {
                let s3 = s.skip((a + b + c) as int);
                lemma_dec_all_within(vf, s3, keys_len);
                lemma_dec_all_within(&LONG, s3, keys_len);
                lemma_dec_all_within(&LONG_PACKED, s3, keys_len);
                lemma_dec_all_within(&LONG_PACKED, s3, keys_len + 1);
                if let Some((g, k)) = dec_all(vf, s3, keys_len) {
                    kf.dec_within(s3.skip(k as int));
                }
                if let Some((g, k)) = dec_all(&LONG, s3, keys_len) {
                    kf.dec_within(s3.skip(k as int));
                }
            }
        }
    }
}

// ---------------------------------------------------------------- executable part

pub proof fn lemma_flags(f: i32)
    requires
        0 <= f < 16,
    ensures
        0 <= f & !4i32 < 16,
        0 <= f & !2i32 < 16,
        flag_dir(f & !4i32) == flag_dir(f),
        !flag_left(f & !4i32),
        flag_right(f & !4i32) == flag_right(f),
        flag_dir(f & !2i32) == flag_dir(f),
        flag_left(f & !2i32) == flag_left(f),
        !flag_right(f & !2i32),
{
    assert(0 <= f & !4i32 < 16 && 0 <= f & !2i32 < 16 && (f & !4i32) & 8 == f & 8 && (f & !4i32) & 4
        == 0 && (f & !4i32) & 2 == f & 2 && (f & !2i32) & 8 == f & 8 && (f & !2i32) & 4 == f & 4
        && (f & !2i32) & 2 == 0) by (bit_vector)
        requires
            0 <= f < 16,
    ;
}

pub proof fn lemma_flag_constants()
    ensures
        flag_dir(8) && !flag_left(8) && !flag_right(8),
        !flag_dir(6) && flag_left(6) && flag_right(6),
        flag_dir(14) && flag_left(14) && flag_right(14),
        !flag_dir(4) && flag_left(4) && !flag_right(4),
        !flag_dir(2) && !flag_left(2) && flag_right(2),
        !flag_dir(0) && !flag_left(0) && !flag_right(0),
        flag_dir(12) && flag_left(12) && !flag_right(12),
        flag_dir(10) && !flag_left(10) && flag_right(10),
{
    assert(8i32 & 8 != 0 && 8i32 & 4 == 0 && 8i32 & 2 == 0) by (bit_vector);
    assert(6i32 & 8 == 0 && 6i32 & 4 != 0 && 6i32 & 2 != 0) by (bit_vector);
    assert(14i32 & 8 != 0 && 14i32 & 4 != 0 && 14i32 & 2 != 0) by (bit_vector);
    assert(4i32 & 8 == 0 && 4i32 & 4 != 0 && 4i32 & 2 == 0) by (bit_vector);
    assert(2i32 & 8 == 0 && 2i32 & 4 == 0 && 2i32 & 2 != 0) by (bit_vector);
    assert(0i32 & 8 == 0 && 0i32 & 4 == 0 && 0i32 & 2 == 0) by (bit_vector);
    assert(12i32 & 8 != 0 && 12i32 & 4 != 0 && 12i32 & 2 == 0) by (bit_vector);
    assert(10i32 & 8 != 0 && 10i32 & 4 == 0 && 10i32 & 2 != 0) by (bit_vector);
}

/// Copies of the elements `[from, to)` of a group.
pub fn copy_range<F: Serializer>(
    f: &F,
    g: &Vec<F::Item>,
    from: usize,
    to: usize,
) -> (r: Vec<F::Item>)
    requires
        from <= to <= g@.len(),
    ensures
        models(r@) == models(g@).subrange(from as int, to as int),
{
    let mut r: Vec<F::Item> = Vec::new();
    let mut i: usize = from;
    while i < to
        invariant
            from <= i <= to <= g@.len(),
            r@.len() == i - from,
            forall|j: int| 0 <= j < r@.len() ==> (#[trigger] r@[j])@ == g@[from + j]@,
        decreases to - i,
    {
        r.push(f.dup(&g[i]));
        i = i + 1;
    }
    assert(models(r@) =~= models(g@).subrange(from as int, to as int));
    r
}

fn all_nonzero(v: &Vec<u64>) -> (r: bool)
    ensures
        r == no_zero(v@),
{
    let mut i: usize = 0;
    while i < v.len()
        invariant
            i <= v@.len(),
            forall|j: int| 0 <= j < i ==> #[trigger] v@[j] != 0,
        decreases v@.len() - i,
    {
        if v[i] == 0 {
            return false;
        }
        i = i + 1;
    }
    true
}

impl<KF: KeyFormat, VF: Serializer> Node<KF, VF> {
    pub fn is_dir(&self) -> (r: bool)
        ensures
            r == self@.dir(),
    {
        self.flags & DIR != 0
    }

    pub fn is_left(&self) -> (r: bool)
        ensures
            r == self@.left(),
    {
        self.flags & LEFT != 0
    }

    pub fn is_right(&self) -> (r: bool)
        ensures
            r == self@.right(),
    {
        self.flags & RIGHT != 0
    }

    /// Children of a directory.
    pub fn children(&self) -> (r: &Vec<u64>)
        requires
            self.body is Dir,
        ensures
            r@ == self@.children(),
    {
        match &self.body {
            NodeBody::Dir { children } => children,
            NodeBody::Leaf { .. } => vstd::pervasive::unreached(),
            NodeBody::ExternalLeaf { .. } => vstd::pervasive::unreached(),
        }
    }

    /// The inclusive high bound of a leaf; none for directories and rightmost
    /// leaves.
    pub fn leaf_fence(&self) -> (r: Option<&KF::Item>)
        ensures
            match r {
                Some(f) => self@.fence() == Some(f@),
                None => self@.fence() is None,
            },
    {
        match &self.body {
            NodeBody::Dir { .. } => None,
            NodeBody::Leaf { fence, .. } => fence.as_ref(),
            NodeBody::ExternalLeaf { fence, .. } => fence.as_ref(),
        }
    }

    /// Link and fence agree with the flags: only a rightmost node has no link, and
    /// exactly the leaves that are not rightmost have a fence.
    pub open spec fn agrees(&self) -> bool {
        &&& self@.right() == (self@.link == 0)
        &&& self@.fence() is Some == (!self@.dir() && !self@.right())
    }

    /// Whether link and fence agree with the flags, as they do in every node that was
    /// read.
    pub fn debug_check(&self) -> (r: bool)
        ensures
            r == self.agrees(),
    {
        let has_fence = self.leaf_fence().is_some();
        self.is_right() == (self.link == 0) && has_fence == (!self.is_dir() && !self.is_right())
    }
}

/// Reads and writes nodes under a pair of formats.
pub struct NodeSerializer<'a, KF: KeyFormat, VF: Serializer> {
    pub kf: &'a KF,
    pub vf: &'a VF,
    /// Leaves hold their values; otherwise they hold recids of value records.
    pub value_inline: bool,
    pub size_hint: usize,
}

/// The buffer size that a full node is expected to need.
pub open spec fn hint_value(key_width: Option<usize>, val_width: Option<usize>, max: nat) -> nat {
    let kb: nat = match key_width {
        Some(n) => n as nat,
        None => 32,
    };
    let vb: nat = match val_width {
        Some(n) => if n > 9 {
            n as nat
        } else {
            9
        },
        None => 32,
    };
    16 + (max + 1) * (kb + vb) + 2 * kb + 8
}

impl<'a, KF: KeyFormat, VF: Serializer> NodeSerializer<'a, KF, VF> {
    /// For nodes with inline values.
    pub fn new(kf: &'a KF, vf: &'a VF, max_node_size: usize) -> (r: Self)
        ensures
            r.kf == kf,
            r.vf == vf,
            r.value_inline,
            hint_value(kf.width(), vf.width(), max_node_size as nat) <= usize::MAX ==> r.size_hint
                == hint_value(kf.width(), vf.width(), max_node_size as nat),
    {
        Self::new_mode(kf, vf, max_node_size, true)
    }

    pub fn new_mode(kf: &'a KF, vf: &'a VF, max_node_size: usize, value_inline: bool) -> (r: Self)
        ensures
            r.kf == kf,
            r.vf == vf,
            r.value_inline == value_inline,
            ({
                let h = hint_value(
                    kf.width(),
                    if value_inline {
                        vf.width()
                    } else {
                        Some(8)
                    },
                    max_node_size as nat,
                );
                h <= usize::MAX ==> r.size_hint == h
            }),
    {
        let key_bytes: usize = match kf.fixed_size() {
            Some(n) => n,
            None => VAR_ELEM_EST,
        };
        let ve = if value_inline {
            vf.fixed_size()
        } else {
            LONG.fixed_size()
        };
        let val_bytes: usize = match ve {
            Some(n) => if n > 9 {
                n
            } else {
                9
            },
            None => VAR_ELEM_EST,
        };
        let ghost h = hint_value(
            kf.width(),
            if value_inline { vf.width() } else { Some(8) },
            max_node_size as nat,
        );
        let size_hint: usize = match Self::full_node_bytes(max_node_size, key_bytes, val_bytes) {
            Some(n) => n,
            None => usize::MAX,
        };
        NodeSerializer { kf, vf, value_inline, size_hint }
    }

    fn full_node_bytes(
        max_node_size: usize,
        key_bytes: usize,
        val_bytes: usize,
    ) -> (r: Option<usize>)
        ensures
            match r {
                Some(n) => n == 16 + (max_node_size + 1) * (key_bytes + val_bytes) + 2 * key_bytes + 8,
                None => 16 + (max_node_size + 1) * (key_bytes + val_bytes) + 2 * key_bytes + 8
                    > usize::MAX,
            },
    {
        let ghost per: int = key_bytes + val_bytes;
        assert((max_node_size + 1) * per >= 0
            && (max_node_size + 1) * per >= per) by (nonlinear_arith)
            requires
                max_node_size >= 0,
                per >= 0,
        ;
        let slots: usize = match max_node_size.checked_add(1) {
            Some(n) => n,
            None => {
                if key_bytes == 0 && val_bytes == 0 {
                    assert((max_node_size + 1) * per == 0) by (nonlinear_arith)
                        requires
                            per == 0,
                    ;
                    return Some(24);
                }
                assert((max_node_size + 1) * per >= max_node_size + 1) by (nonlinear_arith)
                    requires
                        per >= 1,
                        max_node_size >= 0,
                ;
                return None;
            },
        };
        let each: usize = match key_bytes.checked_add(val_bytes) {
            Some(n) => n,
            None => {
                return None;
            },
        };
        let body: usize = match slots.checked_mul(each) {
            Some(n) => n,
            None => {
                return None;
            },
        };
        let spare: usize = match key_bytes.checked_mul(2) {
            Some(n) => n,
            None => {
                return None;
            },
        };
        match body.checked_add(spare) {
            Some(n) => n.checked_add(24),
            None => None,
        }
    }

    /// Fails unless the keys are strictly ascending.
    fn check_sorted(&self, keys: &Vec<KF::Item>) -> (r: Result<()>)
        ensures
            sorted(self.kf, models(keys@)) ==> r is Ok,
            !sorted(self.kf, models(keys@)) ==> (r matches Err(e) && crate::error::is_corrupt(
                e,
                "node keys not strictly increasing"@,
            )),
    {
        broadcast use group_key_order;

        let ghost m = models(keys@);
        let n: usize = keys.len();
        let mut i: usize = 1;
        while i < n
            invariant
                1 <= i,
                n == keys@.len(),
                m == models(keys@),
                i <= n || n == 0,
                n > 0 ==> sorted(self.kf, m.take(i as int)),
            decreases n - i,
        {
            broadcast use group_key_order;

            if !self.kf.less(&keys[i - 1], &keys[i]) {
                assert(m[i - 1] == keys@[i - 1]@ && m[i as int] == keys@[i as int]@);
                return Err(DbError::corrupt("node keys not strictly increasing"));
            }
            proof {
                let t = m.take(i as int);
                let u = m.take(i + 1);
                assert forall|a: int, b: int|
                    #![trigger u[a], u[b]]
                    0 <= a < b < u.len() implies self.kf.lt(u[a], u[b]) by {
                    if b < i {
                        assert(t[a] == u[a] && t[b] == u[b]);
                    } else {
                        assert(self.kf.lt(m[i - 1], m[i as int]));
                        if a < i - 1 {
                            assert(t[a] == u[a] && t[i - 1] == m[i - 1]);
                            assert(self.kf.lt(t[a], t[i - 1]));
                        }
                    }
                }
            }
            i = i + 1;
        }
        proof {
            if n > 0 {
                assert(m.take(n as int) =~= m);
            }
        }
        Ok(())
    }

    fn read_fence(
        &self,
        input: &mut SliceInput<'_>,
        right: bool,
        keys: &Vec<KF::Item>,
    ) -> (r: Result<Option<KF::Item>>)
        ensures
            final(input).bytes() == old(input).bytes(),
            match dec_fence(
                self.kf,
                rest(old(input).bytes(), old(input).cursor()),
                right,
                models(keys@),
            ) {
                Some((f, n)) => (r matches Ok(x) && fence_view(x) == f) && final(input).cursor()
                    == old(input).cursor() + n,
                None => r matches Err(e) && e is DataCorruption,
            },
    {
        if right {
            return Ok(None);
        }
        match self.kf.deserialize(input) {
            Ok(f) => {
                if keys.len() > 0 {
                    assert(models(keys@).last() == keys@[keys@.len() - 1]@);
                    if self.kf.less(&f, &keys[keys.len() - 1]) {
                        return Err(DbError::corrupt("leaf fence below greatest key"));
                    }
                }
                Ok(Some(f))
            },
            Err(e) => Err(e),
        }
    }

    fn read_body(
        &self,
        input: &mut SliceInput<'_>,
        flags: i32,
        keys: &Vec<KF::Item>,
    ) -> (r: Result<NodeBody<KF, VF>>)
        requires
            keys@.len() < 0x1000_0000,
        ensures
            final(input).bytes() == old(input).bytes(),
            match dec_body(
                self.kf,
                self.vf,
                self.value_inline,
                rest(old(input).bytes(), old(input).cursor()),
                flags,
                models(keys@),
            ) {
                Some((b, n)) => (r matches Ok(x) && x@ == b) && final(input).cursor() == old(
                    input,
                ).cursor() + n,
                None => r matches Err(e) && e is DataCorruption,
            },
    {
        let ghost s = rest(input.bytes(), input.cursor());
        let keys_len: usize = keys.len();
        let right = flags & RIGHT != 0;
        if flags & DIR != 0 {
            let child_count: usize = if right {
                keys_len + 1
            } else {
                keys_len
            };
            if child_count == 0 {
                return Err(DbError::corrupt("directory node with no children"));
            }
            match LONG_PACKED.deserialize_group(input, child_count) {
                Ok(children) => {
                    assert(models(children@) =~= children@);
                    if !all_nonzero(&children) {
                        return Err(DbError::corrupt("directory child recid is zero"));
                    }
                    Ok(NodeBody::Dir { children })
                },
                Err(e) => Err(e),
            }
        } else if self.value_inline {
            proof {
                lemma_dec_all_within(self.vf, s, keys_len as nat);
            }
            match self.vf.deserialize_group(input, keys_len) {
                Ok(values) => {
                    proof {
                        let n = dec_all(self.vf, s, keys_len as nat).unwrap().1;
                        assert(rest(input.bytes(), input.cursor()) =~= s.skip(n as int));
                    }
                    match self.read_fence(input, right, keys) {
                        Ok(fence) => Ok(NodeBody::Leaf { values, fence }),
                        Err(e) => Err(e),
                    }
                },
                Err(e) => Err(e),
            }
        } else {
            proof {
                lemma_dec_all_within(&LONG, s, keys_len as nat);
            }
            match LONG.deserialize_group(input, keys_len) {
                Ok(recids) => {
                    proof {
                        let n = dec_all(&LONG, s, keys_len as nat).unwrap().1;
                        assert(rest(input.bytes(), input.cursor()) =~= s.skip(n as int));
                        assert(models(recids@) =~= recids@);
                    }
                    match self.read_fence(input, right, keys) {
                        Ok(fence) => Ok(NodeBody::ExternalLeaf { recids, fence }),
                        Err(e) => Err(e),
                    }
                },
                Err(e) => Err(e),
            }
        }
    }

    /// Writes a node.
    pub fn serialize(&self, out: &mut DataOutput2, n: &Node<KF, VF>)
        requires
            node_ok(self.kf, self.value_inline, n@),
            node_fits(self.kf, self.vf, n@),
        ensures
            final(out)@ == old(out)@ + enc_node(self.kf, self.vf, n@),
    {
        let keys_len: u64 = n.keys.len() as u64;
        out.pack_long(keys_len * 16 + n.flags as u64);
        if !n.is_right() {
            out.pack_long(n.link);
        }
        self.kf.serialize_group(out, &n.keys);
        let ghost head = out@;
        match &n.body {
            NodeBody::Dir { children } => {
                assert(models(children@) =~= children@);
                LONG_PACKED.serialize_group(out, children);
            },
            NodeBody::Leaf { values, fence } => {
                self.vf.serialize_group(out, values);
                if let Some(f) = fence {
                    self.kf.serialize(out, f);
                }
                assert(out@ =~= head + enc_body(self.kf, self.vf, n@.body));
            },
            NodeBody::ExternalLeaf { recids, fence } => {
                assert(models(recids@) =~= recids@);
                LONG.serialize_group(out, recids);
                if let Some(f) = fence {
                    self.kf.serialize(out, f);
                }
                assert(out@ =~= head + enc_body(self.kf, self.vf, n@.body));
            },
        }
        assert(out@ =~= old(out)@ + enc_node(self.kf, self.vf, n@));
    }

    /// Reads a node; where `size` is given the node has to take exactly that many
    /// bytes.
    pub fn deserialize(&self, input: &mut SliceInput<'_>, size: Option<usize>) -> (r: Result<
        Node<KF, VF>,
    >)
        ensures
            final(input).bytes() == old(input).bytes(),
            match dec_node(
                self.kf,
                self.vf,
                self.value_inline,
                rest(old(input).bytes(), old(input).cursor()),
                match size {
                    Some(z) => Some(z as nat),
                    None => None,
                },
            ) {
                Some((n, used)) => (r matches Ok(x) && x@ == n) && final(input).cursor() == old(
                    input,
                ).cursor() + used,
                None => r matches Err(e) && e is DataCorruption,
            },
            r matches Ok(x) ==> x.agrees(),
    {
        let ghost s = rest(input.bytes(), input.cursor());
        let start: usize = input.pos();
        proof {
            lemma_varint_len_bound(s, 5);
        }
        let v: u64 = match input.unpack_capped(5) {
            Ok(v) => v,
            Err(e) => {
                return Err(e);
            },
        };
        let ghost a = varint(s, 5).unwrap().1;
        let h: u32 = #[verifier::truncate] (v as u32);
        let flags: i32 = (h % 16) as i32;
        let keys_len: usize = (h / 16) as usize;
        if let Some(sz) = size {
            if keys_len > sz {
                return Err(DbError::corrupt("node header keysLen exceeds record size"));
            }
        }
        proof {
            assert(rest(input.bytes(), input.cursor()) =~= s.skip(a as int));
            lemma_varint_len_bound(s.skip(a as int), 10);
        }
        let link: u64 = if flags & RIGHT != 0 {
            0
        } else {
            match input.unpack_long() {
                Ok(l) => {
                    if l == 0 {
                        return Err(DbError::corrupt("non-rightmost node with zero link"));
                    }
                    l
                },
                Err(e) => {
                    return Err(e);
                },
            }
        };
        let ghost b = dec_link(s.skip(a as int), flag_right(flags)).unwrap().1;
        proof {
            assert(rest(input.bytes(), input.cursor()) =~= s.skip((a + b) as int));
            lemma_dec_all_within(self.kf, s.skip((a + b) as int), keys_len as nat);
        }
        let keys = match self.kf.deserialize_group(input, keys_len) {
            Ok(keys) => keys,
            Err(e) => {
                return Err(e);
            },
        };
        let ghost c = dec_all(self.kf, s.skip((a + b) as int), keys_len as nat).unwrap().1;
        match self.check_sorted(&keys) {
            Ok(_) => {},
            Err(e) => {
                return Err(e);
            },
        }
        proof {
            assert(rest(input.bytes(), input.cursor()) =~= s.skip((a + b + c) as int));
        }
        let body = match self.read_body(input, flags, &keys) {
            Ok(body) => body,
            Err(e) => {
                return Err(e);
            },
        };
        if let Some(sz) = size {
            if input.pos() - start != sz {
                return Err(
                    DbError::corrupt(
                        "node record has unexpected trailing/short bytes (forged keysLen)",
                    ),
                );
            }
        }
        Ok(Node { flags, link, keys, body })
    }
}

} // verus!
