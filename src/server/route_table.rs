use vstd::prelude::*;
use vstd::string::StringSliceAdditionalSpecFns;

use sha1::{Digest, Sha1};

use crate::errors::Error;
use crate::util::bencode::{
    all_digits, compare_keys, key_lt, lemma_key_lt_asymmetric, lemma_key_lt_irreflexive, lemma_key_lt_total,
    lemma_key_lt_transitive, copy_bytes, digits_end, digits_value, is_digit, lemma_digits_end, lemma_digits_text,
    lemma_nat_text, lemma_text_at_concat, nat_text, text_at,
};

verus! {

broadcast use vstd::seq_lib::group_to_multiset_ensures, vstd::seq_lib::lemma_multiset_commutative,
    vstd::multiset::group_multiset_axioms;

/// Contacts one bucket holds at most.
pub const BUCKET_SIZE: usize = 8;
/// Bytes in a key.
pub const KEY_LENGTH: usize = 20;
/// Bits in a key: the deepest a leaf can lie.
pub const KEY_SPACE: usize = 160;
/// Seconds after its last change at which a bucket wants refreshing.
pub const REFRESH_INTERVAL: u64 = 900;

// ---------------------------------------------------------------------------
// Keys

/// What SHA-1 makes of a message: 20 bytes.
pub uninterp spec fn sha1_of(data: Seq<u8>) -> Seq<u8>;

/// Relies on sha1's `Sha1::digest`: the SHA-1 digest of `data`, 20 bytes,
/// which depends on `data` alone.
#[verifier::external_body]
fn sha1_digest(data: &[u8]) -> (r: [u8; 20])
    ensures
        r@ == sha1_of(data@),
{
    Sha1::digest(data).into()
}

/// A 160-bit node id or info hash.
#[derive(Debug, Clone, Copy, PartialEq, Eq, Hash)]
pub struct Key {
    data: [u8; 20],
}

/// Bit `i` of a key, bit 0 being the most significant bit of byte 0.
pub open spec fn key_bit(k: Key, i: int) -> u8 {
    (k.bytes()[i / 8] >> ((7 - i % 8) as u8)) & 1u8
}

/// The first `p.len()` bits of `k` are `p`.
pub open spec fn has_prefix(k: Key, p: Seq<u8>) -> bool {
    forall|j: int| 0 <= j < p.len() ==> key_bit(k, j) == #[trigger] p[j]
}

/// `a` and `b` agree on their first `n` bits.
pub open spec fn same_prefix(a: Key, b: Key, n: int) -> bool {
    forall|j: int| 0 <= j < n ==> #[trigger] key_bit(a, j) == key_bit(b, j)
}

impl Key {
    pub closed spec fn bytes(&self) -> Seq<u8> {
        self.data@
    }

    /// The key that SHA-1 gives for an empty message.
    pub fn new() -> (r: Key)
        ensures
            r.bytes() == sha1_of(Seq::empty()),
    {
        let empty: [u8; 0] = [];
        assert(empty@ =~= Seq::<u8>::empty());
        Key { data: sha1_digest(&empty) }
    }

    /// A key from exactly 20 bytes; any other length is `InvalidKey`.
    pub fn from_bytes(b: &[u8]) -> (r: Result<Key, Error>)
        ensures
            b@.len() == KEY_LENGTH ==> (r matches Ok(k) && k.bytes() == b@),
            b@.len() != KEY_LENGTH ==> (r matches Err(Error::InvalidKey(v)) && v@ == b@),
    {
        if b.len() != KEY_LENGTH {
            return Err(Error::InvalidKey(copy_bytes(b)));
        }
        let mut data: [u8; 20] = [0u8; 20];
        let mut i: usize = 0;
        while i < KEY_LENGTH
            invariant
                i <= KEY_LENGTH,
                b@.len() == KEY_LENGTH,
                forall|j: int| 0 <= j < i ==> data@[j] == b@[j],
            decreases KEY_LENGTH - i,
        {
            data[i] = b[i];
            i += 1;
        }
        assert(data@ =~= b@);
        Ok(Key { data })
    }

    /// Bit `i` of the key: 0 or 1, bit 0 being the most significant bit of
    /// byte 0.
    pub fn bit(&self, i: usize) -> (r: u8)
        requires
            i < KEY_SPACE,
        ensures
            r == key_bit(*self, i as int),
            r <= 1,
    {
        let byte = self.data[i / 8];
        let shift: u8 = (7 - i % 8) as u8;
        let r = (byte >> shift) & 1u8;
        assert(r <= 1) by (bit_vector)
            requires
                r == (byte >> shift) & 1u8,
        ;
        r
    }

    /// The key's 20 bytes.
    pub fn data(&self) -> (r: [u8; 20])
        ensures
            r@ == self.bytes(),
    {
        self.data
    }

    /// Whether two keys are the same 20 bytes.
    pub fn same(&self, other: &Key) -> (r: bool)
        ensures
            r == (self.bytes() == other.bytes()),
    {
        let mut i: usize = 0;
        while i < KEY_LENGTH
            invariant
                i <= KEY_LENGTH,
                forall|j: int| 0 <= j < i ==> self.data@[j] == other.data@[j],
            decreases KEY_LENGTH - i,
        {
            if self.data[i] != other.data[i] {
                return false;
            }
            i += 1;
        }
        assert(self.data@ =~= other.data@);
        true
    }
}

pub proof fn lemma_bit_01(k: Key, i: int)
    ensures
        key_bit(k, i) <= 1,
{
    let b = k.bytes()[i / 8];
    let sh = (7 - i % 8) as u8;
    assert((b >> sh) & 1u8 <= 1u8) by (bit_vector);
}

// ---------------------------------------------------------------------------
// Contacts

/// An IPv4 address and a port.
#[derive(Debug, Clone, Copy, PartialEq, Eq)]
pub struct NetAddr {
    pub ip: [u8; 4],
    pub port: u16,
}

/// A node contact: its id and where it listens. Two contacts are equal
/// when their ids are.
#[derive(Debug, Clone, Copy)]
pub struct Node {
    id: Key,
    addr: NetAddr,
}

impl PartialEq for Node {
    fn eq(&self, other: &Node) -> (r: bool) {
        self.id.same(&other.id)
    }
}

impl vstd::std_specs::cmp::PartialEqSpecImpl for Node {
    open spec fn obeys_eq_spec() -> bool {
        true
    }

    open spec fn eq_spec(&self, other: &Node) -> bool {
        self.key().bytes() == other.key().bytes()
    }
}

impl Node {
    pub closed spec fn key(&self) -> Key {
        self.id
    }

    pub closed spec fn net_addr(&self) -> NetAddr {
        self.addr
    }

    pub fn from_parts(id: Key, addr: NetAddr) -> (r: Node)
        ensures
            r.key() == id,
            r.net_addr() == addr,
    {
        Node { id, addr }
    }

    pub fn id(&self) -> (r: &Key)
        ensures
            *r == self.key(),
    {
        &self.id
    }

    pub fn addr(&self) -> (r: &NetAddr)
        ensures
            *r == self.net_addr(),
    {
        &self.addr
    }
}

/// What an insertion did.
#[derive(Debug, Clone, Copy, PartialEq, Eq, Structural)]
pub enum Insert {
    /// The contact was new and was stored.
    Added,
    /// A contact of the same id was there, and the new one took its place.
    Replaced,
    /// The contact was new, and its bucket full; the contacts are as they were.
    Rejected,
}

/// Some contact in `s` has the id `k`.
pub open spec fn has_id(s: Seq<Node>, k: Key) -> bool {
    exists|i: int| 0 <= i < s.len() && (#[trigger] s[i]).key().bytes() == k.bytes()
}

/// No two contacts of `s` share an id.
pub open spec fn ids_unique(s: Seq<Node>) -> bool {
    forall|i: int, j: int|
        0 <= i < j < s.len() ==> (#[trigger] s[i]).key().bytes() != (#[trigger] s[j]).key().bytes()
}

/// Every contact of `s` lies under the prefix `p`.
pub open spec fn all_under(s: Seq<Node>, p: Seq<u8>) -> bool {
    forall|i: int| 0 <= i < s.len() ==> has_prefix((#[trigger] s[i]).key(), p)
}

// ---------------------------------------------------------------------------
// Buckets

/// Up to `BUCKET_SIZE` contacts that share a prefix.
pub struct Bucket {
    last_changed: u64,
    nodes: Vec<Node>,
}

impl Bucket {
    pub closed spec fn contacts(&self) -> Seq<Node> {
        self.nodes@
    }

    pub closed spec fn changed_at(&self) -> u64 {
        self.last_changed
    }

    /// At most `BUCKET_SIZE` contacts, of distinct ids, all under `p`.
    pub open spec fn holds(&self, p: Seq<u8>) -> bool {
        &&& self.contacts().len() <= BUCKET_SIZE
        &&& ids_unique(self.contacts())
        &&& all_under(self.contacts(), p)
    }

    fn empty(now: u64) -> (r: Bucket)
        ensures
            r.contacts() == Seq::<Node>::empty(),
            r.changed_at() == now,
    {
        Bucket { last_changed: now, nodes: Vec::new() }
    }

    pub fn is_full(&self) -> (r: bool)
        ensures
            r == (self.contacts().len() >= BUCKET_SIZE),
    {
        self.nodes.len() >= BUCKET_SIZE
    }

    /// Where the contact of id `k` stands, if there is one.
    fn position(&self, k: &Key) -> (r: Option<usize>)
        ensures
            match r {
                Some(i) => i < self.contacts().len() && self.contacts()[i as int].key().bytes() == k.bytes(),
                None => !has_id(self.contacts(), *k),
            },
    {
        let mut i: usize = 0;
        while i < self.nodes.len()
            invariant
                i <= self.nodes@.len(),
                forall|j: int| 0 <= j < i ==> self.nodes@[j].id.bytes() != k.bytes(),
            decreases self.nodes@.len() - i,
        {
            if self.nodes[i].id.same(k) {
                return Some(i);
            }
            i += 1;
        }
        None
    }

    /// Parts the contacts by bit `depth`: those with a 1, and those with a 0.
    fn split(self, depth: usize, Ghost(p): Ghost<Seq<u8>>) -> (r: (Bucket, Bucket))
        requires
            self.holds(p),
            p.len() == depth,
            depth < KEY_SPACE,
        ensures
            r.0.holds(p.push(1)),
            r.1.holds(p.push(0)),
            r.0.contacts().to_multiset().add(r.1.contacts().to_multiset())
                == self.contacts().to_multiset(),
    {
        let mut left: Vec<Node> = Vec::new();
        let mut right: Vec<Node> = Vec::new();
        let ghost mut li: Seq<int> = Seq::empty();
        let ghost mut ri: Seq<int> = Seq::empty();
        let mut i: usize = 0;
        while i < self.nodes.len()
            invariant
                i <= self.nodes@.len(),
                self.holds(p),
                p.len() == depth,
                depth < KEY_SPACE,
                li.len() == left@.len(),
                ri.len() == right@.len(),
                forall|x: int| 0 <= x < li.len() ==> 0 <= #[trigger] li[x] < i && left@[x] == self.nodes@[li[x]],
                forall|x: int| 0 <= x < ri.len() ==> 0 <= #[trigger] ri[x] < i && right@[x] == self.nodes@[ri[x]],
                forall|x: int, y: int| 0 <= x < y < li.len() ==> #[trigger] li[x] < #[trigger] li[y],
                forall|x: int, y: int| 0 <= x < y < ri.len() ==> #[trigger] ri[x] < #[trigger] ri[y],
                all_under(left@, p.push(1)),
                all_under(right@, p.push(0)),
                left@.to_multiset().add(right@.to_multiset()) == self.nodes@.take(i as int).to_multiset(),
            decreases self.nodes@.len() - i,
        {
            let n = self.nodes[i];
            assert(self.nodes@.take(i + 1) =~= self.nodes@.take(i as int).push(n));
            assert(has_prefix(n.id, p));
            let b = n.id.bit(depth);
            if b == 1 {
                proof {
                    li = li.push(i as int);
                }
                left.push(n);
            } else {
                proof {
                    ri = ri.push(i as int);
                }
                right.push(n);
            }
            i += 1;
        }
        assert(self.nodes@.take(i as int) =~= self.nodes@);
        assert forall|x: int, y: int| 0 <= x < y < left@.len() implies (#[trigger] left@[x]).key().bytes()
            != (#[trigger] left@[y]).key().bytes() by {
            assert(li[x] < li[y]);
        }
        assert forall|x: int, y: int| 0 <= x < y < right@.len() implies (#[trigger] right@[x]).key().bytes()
            != (#[trigger] right@[y]).key().bytes() by {
            assert(ri[x] < ri[y]);
        }
        proof {
            vstd::seq_lib::to_multiset_len(left@);
            vstd::seq_lib::to_multiset_len(right@);
            vstd::seq_lib::to_multiset_len(self.nodes@);
        }
        (Bucket { last_changed: self.last_changed, nodes: left }, Bucket {
            last_changed: self.last_changed,
            nodes: right,
        })
    }
}

// ---------------------------------------------------------------------------
// The trie of buckets

/// A binary trie over key bits: a leaf holds a bucket; a branch holds the
/// subtrie of keys whose next bit is 1 (left) and of those whose next bit is 0
/// (right).
pub enum Trie {
    Leaf(Bucket),
    Branch(Box<Trie>, Box<Trie>),
}

/// Every contact the trie holds, leaves left to right.
pub open spec fn contents(t: Trie) -> Seq<Node>
    decreases t,
{
    match t {
        Trie::Leaf(b) => b.contacts(),
        Trie::Branch(l, r) => contents(*l) + contents(*r),
    }
}

/// The trie is sound below the prefix `p` for the local id `me`: each
/// bucket holds at most `BUCKET_SIZE` contacts of distinct ids, all under
/// the leaf's prefix, and only prefixes of `me` have been split.
pub open spec fn trie_wf(t: Trie, p: Seq<u8>, me: Key) -> bool
    decreases t,
{
    p.len() <= KEY_SPACE && match t {
        Trie::Leaf(b) => b.holds(p),
        Trie::Branch(l, r) => {
            &&& p.len() < KEY_SPACE
            &&& has_prefix(me, p)
            &&& trie_wf(*l, p.push(1), me)
            &&& trie_wf(*r, p.push(0), me)
        },
    }
}

/// The bucket that owns key `k`, found from depth `d` down, and its depth.
pub open spec fn owner(t: Trie, k: Key, d: int) -> (Bucket, int)
    decreases t,
{
    match t {
        Trie::Leaf(b) => (b, d),
        Trie::Branch(l, r) => if key_bit(k, d) == 1 {
            owner(*l, k, d + 1)
        } else {
            owner(*r, k, d + 1)
        },
    }
}

pub proof fn lemma_prefix_push(k: Key, p: Seq<u8>)
    requires
        has_prefix(k, p),
    ensures
        has_prefix(k, p.push(key_bit(k, p.len() as int))),
{
    assert forall|j: int| 0 <= j < p.len() + 1 implies key_bit(k, j) == #[trigger] p.push(
        key_bit(k, p.len() as int),
    )[j] by {
        if j < p.len() {
            assert(p.push(key_bit(k, p.len() as int))[j] == p[j]);
        }
    }
}

/// A sound trie keeps every contact under its prefix, with distinct ids.
pub proof fn lemma_contents(t: Trie, p: Seq<u8>, me: Key)
    requires
        trie_wf(t, p, me),
    ensures
        all_under(contents(t), p),
        ids_unique(contents(t)),
    decreases t,
{
    if let Trie::Branch(l, r) = t {
        lemma_contents(*l, p.push(1), me);
        lemma_contents(*r, p.push(0), me);
        let a = contents(*l);
        let b = contents(*r);
        let c = contents(t);
        assert(c == a + b);
        assert forall|i: int| 0 <= i < c.len() implies has_prefix((#[trigger] c[i]).key(), p) by {
            if i < a.len() {
                assert(has_prefix(a[i].key(), p.push(1)));
                assert forall|j: int| 0 <= j < p.len() implies key_bit(c[i].key(), j) == #[trigger] p[j] by {
                    assert(p.push(1)[j] == p[j]);
                }
            } else {
                assert(has_prefix(b[i - a.len()].key(), p.push(0)));
                assert forall|j: int| 0 <= j < p.len() implies key_bit(c[i].key(), j) == #[trigger] p[j] by {
                    assert(p.push(0)[j] == p[j]);
                }
            }
        }
        assert forall|i: int, j: int| 0 <= i < j < c.len() implies (#[trigger] c[i]).key().bytes()
            != (#[trigger] c[j]).key().bytes() by {
            if i < a.len() && j >= a.len() {
                let d = p.len() as int;
                assert(has_prefix(a[i].key(), p.push(1)));
                assert(has_prefix(b[j - a.len()].key(), p.push(0)));
                assert(p.push(1)[d] == 1);
                assert(p.push(0)[d] == 0);
                assert(key_bit(c[i].key(), d) != key_bit(c[j].key(), d));
            } else if i >= a.len() {
                assert(b[i - a.len()] == c[i] && b[j - a.len()] == c[j]);
            }
        }
    }
}

/// A sound trie splits only along `me`'s path, so it has at most one leaf
/// per depth beside that path and holds few contacts.
pub proof fn lemma_count_bound(t: Trie, p: Seq<u8>, me: Key)
    requires
        trie_wf(t, p, me),
    ensures
        contents(t).len() <= BUCKET_SIZE * (KEY_SPACE + 1 - p.len()),
    decreases t,
{
    if let Trie::Branch(l, r) = t {
        let d = p.len() as int;
        lemma_bit_01(me, d);
        lemma_count_bound(*l, p.push(1), me);
        lemma_count_bound(*r, p.push(0), me);
        if key_bit(me, d) == 1 {
            if let Trie::Branch(_, _) = *r {
                assert(has_prefix(me, p.push(0)));
                assert(p.push(0)[d] == 0);
            }
        } else {
            if let Trie::Branch(_, _) = *l {
                assert(has_prefix(me, p.push(1)));
                assert(p.push(1)[d] == 1);
            }
        }
    }
}

/// The bucket that owns `k`, found from depth `d` down, is full and may not
/// split: it lies off `me`'s path, or at the deepest level.
pub open spec fn stuck(t: Trie, k: Key, me: Key, d: int) -> bool {
    let (b, depth) = owner(t, k, d);
    &&& b.contacts().len() >= BUCKET_SIZE
    &&& !(depth < KEY_SPACE && same_prefix(me, k, depth))
}

/// The contact `node` cannot be taken below depth `d`: it is new, and its
/// bucket is stuck.
pub open spec fn no_room(t: Trie, node: Node, me: Key, d: int) -> bool {
    &&& !has_id(contents(t), node.key())
    &&& stuck(t, node.key(), me, d)
}

/// The contact of `s` whose id is `k` (the only one where ids are unique).
pub open spec fn contact_with(s: Seq<Node>, k: Key) -> Node {
    s[choose|i: int| 0 <= i < s.len() && (#[trigger] s[i]).key().bytes() == k.bytes()]
}

/// The outcome `r` of inserting `node` into `before`, which gave `after`.
pub open spec fn insert_outcome(before: Seq<Node>, after: Seq<Node>, node: Node, r: Insert) -> bool {
    &&& (r == Insert::Replaced) == has_id(before, node.key())
    &&& r == Insert::Replaced ==> after.to_multiset() == before.to_multiset().insert(node).remove(
        contact_with(before, node.key()),
    )
    &&& r == Insert::Added ==> after.to_multiset() == before.to_multiset().insert(node)
    &&& r == Insert::Rejected ==> after.to_multiset() == before.to_multiset()
}

/// `a` and `b` agree on their first `n` bits.
fn same_prefix_bits(a: &Key, b: &Key, n: usize) -> (r: bool)
    requires
        n <= KEY_SPACE,
    ensures
        r == same_prefix(*a, *b, n as int),
{
    let mut i: usize = 0;
    while i < n
        invariant
            i <= n <= KEY_SPACE,
            same_prefix(*a, *b, i as int),
        decreases n - i,
    {
        if a.bit(i) != b.bit(i) {
            return false;
        }
        i += 1;
    }
    true
}

impl Trie {
    fn insert(self, node: Node, depth: usize, now: u64, Ghost(p): Ghost<Seq<u8>>, me: &Key) -> (r: (
        Trie,
        Insert,
    ))
        requires
            trie_wf(self, p, *me),
            p.len() == depth,
            has_prefix(node.key(), p),
        ensures
            trie_wf(r.0, p, *me),
            insert_outcome(contents(self), contents(r.0), node, r.1),
            owner(self, node.key(), depth as int).0.contacts().len() < BUCKET_SIZE ==> r.1
                != Insert::Rejected,
            no_room(self, node, *me, depth as int) ==> r.1 == Insert::Rejected && r.0 == self,
            r.1 != Insert::Rejected ==> owner(r.0, node.key(), depth as int).0.changed_at() == now,
            r.1 != Insert::Rejected ==> owner(r.0, node.key(), depth as int).0.contacts().contains(node),
            r.1 == Insert::Rejected ==> stuck(r.0, node.key(), *me, depth as int),
        decreases KEY_SPACE - depth,
    {
        match self {
                Trie::Leaf(b) => {
                    let ghost before = b.nodes@;
                    assert(contents(Trie::Leaf(b)) == before);
                    let mut b = b;
                    match b.position(&node.id) {
                        Some(i) => {
                            let ghost o = before[i as int];
                            b.nodes.remove(i);
                            b.nodes.insert(i, node);
                            b.last_changed = now;
                            proof {
                                assert(b.nodes@ =~= before.update(i as int, node));
                                assert(before.update(i as int, node).to_multiset() == before.to_multiset().insert(
                                    node,
                                ).remove(o));
                                assert(has_id(before, node.key()));
                                let k = choose|k: int|
                                    0 <= k < before.len() && (#[trigger] before[k]).key().bytes() == node.key().bytes();
                                assert(k == i);
                                assert(b.contacts() == b.nodes@);
                                assert forall|x: int, y: int| 0 <= x < y < b.nodes@.len() implies (
                                #[trigger] b.nodes@[x]).key().bytes() != (#[trigger] b.nodes@[y]).key().bytes() by {
                                    assert(before[x].key().bytes() != before[y].key().bytes());
                                }
                                assert(b.holds(p));
                                assert(contents(Trie::Leaf(b)) == b.contacts());
                                assert(b.contacts()[i as int] == node);
                                assert(b.contacts().contains(node));
                            }
                            (Trie::Leaf(b), Insert::Replaced)
                        },
                        None => {
                            if b.nodes.len() < BUCKET_SIZE {
                                b.nodes.push(node);
                                b.last_changed = now;
                                proof {
                                    assert(b.nodes@ == before.push(node));
                                    assert forall|x: int, y: int| 0 <= x < y < b.nodes@.len() implies (
                                    #[trigger] b.nodes@[x]).key().bytes() != (#[trigger] b.nodes@[y]).key().bytes() by {
                                        if y == before.len() {
                                            assert(before[x] == b.nodes@[x]);
                                        } else {
                                            assert(before[x].key().bytes() != before[y].key().bytes());
                                        }
                                    }
                                    assert(b.holds(p));
                                    assert(contents(Trie::Leaf(b)) == b.contacts());
                                    assert(b.contacts()[before.len() as int] == node);
                                    assert(b.contacts().contains(node));
                                }
                                (Trie::Leaf(b), Insert::Added)
                            } else if depth < KEY_SPACE && same_prefix_bits(me, &node.id, depth) {
                                let ghost d = depth as int;
                                proof {
                                    lemma_bit_01(node.key(), d);
                                    lemma_prefix_push(node.key(), p);
                                    assert forall|j: int| 0 <= j < p.len() implies key_bit(*me, j) == #[trigger] p[j] by {
                                        assert(key_bit(node.key(), j) == p[j]);
                                    }
                                }
                                let (lb, rb) = b.split(depth, Ghost(p));
                                proof {
                                    assert forall|x: int| 0 <= x < lb.contacts().len() implies (
                                    #[trigger] lb.contacts()[x]).key().bytes() != node.key().bytes() by {
                                        let n = lb.contacts()[x];
                                        assert(lb.contacts().to_multiset().count(n) > 0);
                                        assert(b.contacts().to_multiset().count(n) > 0);
                                        assert(b.contacts().contains(n));
                                    }
                                    assert forall|x: int| 0 <= x < rb.contacts().len() implies (
                                    #[trigger] rb.contacts()[x]).key().bytes() != node.key().bytes() by {
                                        let n = rb.contacts()[x];
                                        assert(rb.contacts().to_multiset().count(n) > 0);
                                        assert(b.contacts().to_multiset().count(n) > 0);
                                        assert(b.contacts().contains(n));
                                    }
                                    assert(contents(Trie::Leaf(lb)) == lb.contacts());
                                    assert(contents(Trie::Leaf(rb)) == rb.contacts());
                                }
                                if node.id.bit(depth) == 1 {
                                    let (nl, res) = Trie::Leaf(lb).insert(node, depth + 1, now, Ghost(p.push(1)), me);
                                    proof {
                                        let t = Trie::Branch(Box::new(nl), Box::new(Trie::Leaf(rb)));
                                        assert(contents(t) == contents(nl) + rb.contacts());
                                        let (ml, mr) = (lb.contacts().to_multiset(), rb.contacts().to_multiset());
                                        assert((contents(nl) + rb.contacts()).to_multiset() == contents(
                                            nl,
                                        ).to_multiset().add(mr));
                                        if res == Insert::Added {
                                            assert(ml.insert(node).add(mr) =~= ml.add(mr).insert(node));
                                        }
                                        assert(has_prefix(*me, p));
                                        assert(trie_wf(nl, p.push(1), *me));
                                        assert(trie_wf(Trie::Leaf(rb), p.push(0), *me));
                                        assert(trie_wf(t, p, *me));
                                    }
                                    (Trie::Branch(Box::new(nl), Box::new(Trie::Leaf(rb))), res)
                                } else {
                                    let (nr, res) = Trie::Leaf(rb).insert(node, depth + 1, now, Ghost(p.push(0)), me);
                                    proof {
                                        let t = Trie::Branch(Box::new(Trie::Leaf(lb)), Box::new(nr));
                                        assert(contents(t) == lb.contacts() + contents(nr));
                                        let (ml, mr) = (lb.contacts().to_multiset(), rb.contacts().to_multiset());
                                        assert((lb.contacts() + contents(nr)).to_multiset() == ml.add(
                                            contents(nr).to_multiset(),
                                        ));
                                        if res == Insert::Added {
                                            assert(ml.add(mr.insert(node)) =~= ml.add(mr).insert(node));
                                        }
                                        assert(has_prefix(*me, p));
                                        assert(trie_wf(nr, p.push(0), *me));
                                        assert(trie_wf(Trie::Leaf(lb), p.push(1), *me));
                                        assert(trie_wf(t, p, *me));
                                    }
                                    (Trie::Branch(Box::new(Trie::Leaf(lb)), Box::new(nr)), res)
                                }
                            } else {
                                (Trie::Leaf(b), Insert::Rejected)
                            }
                        },
                    }
                },
                Trie::Branch(left, right) => {
                    proof {
                        lemma_contents(*left, p.push(1), *me);
                        lemma_contents(*right, p.push(0), *me);
                        lemma_bit_01(node.key(), depth as int);
                        lemma_prefix_push(node.key(), p);
                    }
                    let ghost before = contents(self);
                    let ghost d = depth as int;
                    if node.id.bit(depth) == 1 {
                        let (nl, res) = (*left).insert(node, depth + 1, now, Ghost(p.push(1)), me);
                        proof {
                            assert forall|i: int| 0 <= i < contents(*right).len() implies (#[trigger] contents(
                                *right,
                            )[i]).key().bytes() != node.key().bytes() by {
                                assert(has_prefix(contents(*right)[i].key(), p.push(0)));
                                assert(p.push(0)[d] == 0);
                            }
                            assert(has_id(before, node.key()) == has_id(contents(*left), node.key())) by {
                                if has_id(before, node.key()) {
                                    let i = choose|i: int|
                                        0 <= i < before.len() && (#[trigger] before[i]).key().bytes()
                                            == node.key().bytes();
                                    if i >= contents(*left).len() {
                                        assert(before[i] == contents(*right)[i - contents(*left).len()]);
                                    } else {
                                        assert(before[i] == contents(*left)[i]);
                                    }
                                }
                                if has_id(contents(*left), node.key()) {
                                    let i = choose|i: int|
                                        0 <= i < contents(*left).len() && (#[trigger] contents(*left)[i]).key().bytes()
                                            == node.key().bytes();
                                    assert(before[i] == contents(*left)[i]);
                                }
                            }
                            if res == Insert::Replaced {
                                let k = choose|k: int|
                                    0 <= k < before.len() && (#[trigger] before[k]).key().bytes()
                                        == node.key().bytes();
                                let k2 = choose|k2: int|
                                    0 <= k2 < contents(*left).len() && (#[trigger] contents(*left)[k2]).key().bytes()
                                        == node.key().bytes();
                                assert(before[k2] == contents(*left)[k2]);
                                lemma_contents(self, p, *me);
                                if k >= contents(*left).len() {
                                    assert(before[k] == contents(*right)[k - contents(*left).len()]);
                                }
                                assert(k == k2);
                            }
                        }
                        proof {
                        let (ml, mr) = (contents(*left).to_multiset(), contents(*right).to_multiset());
                        assert(contents(Trie::Branch(Box::new(nl), right)) == contents(nl) + contents(*right));
                        assert(before == contents(*left) + contents(*right));
                        assert(before.to_multiset() == ml.add(mr));
                        if res == Insert::Added {
                            assert(ml.insert(node).add(mr) =~= ml.add(mr).insert(node));
                        }
                        if res == Insert::Replaced {
                            let o = contact_with(before, node.key());
                            assert(ml.insert(node).remove(o).add(mr) =~= ml.add(mr).insert(node).remove(o));
                        }
                    }
                    (Trie::Branch(Box::new(nl), right), res)
                    } else {
                        let (nr, res) = (*right).insert(node, depth + 1, now, Ghost(p.push(0)), me);
                        proof {
                            assert forall|i: int| 0 <= i < contents(*left).len() implies (#[trigger] contents(
                                *left,
                            )[i]).key().bytes() != node.key().bytes() by {
                                assert(has_prefix(contents(*left)[i].key(), p.push(1)));
                                assert(p.push(1)[d] == 1);
                            }
                            assert(has_id(before, node.key()) == has_id(contents(*right), node.key())) by {
                                if has_id(before, node.key()) {
                                    let i = choose|i: int|
                                        0 <= i < before.len() && (#[trigger] before[i]).key().bytes()
                                            == node.key().bytes();
                                    if i >= contents(*left).len() {
                                        assert(before[i] == contents(*right)[i - contents(*left).len()]);
                                    } else {
                                        assert(before[i] == contents(*left)[i]);
                                    }
                                }
                                if has_id(contents(*right), node.key()) {
                                    let i = choose|i: int|
                                        0 <= i < contents(*right).len() && (#[trigger] contents(*right)[i]).key().bytes()
                                            == node.key().bytes();
                                    assert(before[i + contents(*left).len()] == contents(*right)[i]);
                                }
                            }
                            if res == Insert::Replaced {
                                let n = contents(*left).len();
                                let k = choose|k: int|
                                    0 <= k < before.len() && (#[trigger] before[k]).key().bytes()
                                        == node.key().bytes();
                                let k2 = choose|k2: int|
                                    0 <= k2 < contents(*right).len() && (#[trigger] contents(*right)[k2]).key().bytes()
                                        == node.key().bytes();
                                assert(before[k2 + n] == contents(*right)[k2]);
                                lemma_contents(self, p, *me);
                                if k < n {
                                    assert(before[k] == contents(*left)[k]);
                                }
                                assert(k == k2 + n);
                            }
                        }
                        proof {
                        let (ml, mr) = (contents(*left).to_multiset(), contents(*right).to_multiset());
                        assert(contents(Trie::Branch(left, Box::new(nr))) == contents(*left) + contents(nr));
                        assert(before == contents(*left) + contents(*right));
                        assert(before.to_multiset() == ml.add(mr));
                        if res == Insert::Added {
                            assert(ml.add(mr.insert(node)) =~= ml.add(mr).insert(node));
                        }
                        if res == Insert::Replaced {
                            let o = contact_with(before, node.key());
                            assert(ml.add(mr.insert(node).remove(o)) =~= ml.add(mr).insert(node).remove(o));
                        }
                    }
                    (Trie::Branch(left, Box::new(nr)), res)
                    }
                },
        }
    }
}

impl Trie {
    fn get(&self, id: &Key, depth: usize, Ghost(p): Ghost<Seq<u8>>, Ghost(me): Ghost<Key>) -> (r: Option<
        &Node,
    >)
        requires
            trie_wf(*self, p, me),
            p.len() == depth,
            has_prefix(*id, p),
        ensures
            match r {
                Some(n) => contents(*self).contains(*n) && n.key().bytes() == id.bytes(),
                None => !has_id(contents(*self), *id),
            },
        decreases self,
    {
        match self {
            Trie::Leaf(b) => match b.position(id) {
                Some(i) => {
                    assert(contents(*self)[i as int] == b.nodes@[i as int]);
                    Some(&b.nodes[i])
                },
                None => None,
            },
            Trie::Branch(left, right) => {
                proof {
                    lemma_contents(**left, p.push(1), me);
                    lemma_contents(**right, p.push(0), me);
                    lemma_bit_01(*id, depth as int);
                    lemma_prefix_push(*id, p);
                }
                let ghost all = contents(*self);
                let ghost n = contents(**left).len();
                let ghost d = depth as int;
                if id.bit(depth) == 1 {
                    let r = left.get(id, depth + 1, Ghost(p.push(1)), Ghost(me));
                    proof {
                        if let Some(x) = r {
                            let k = choose|k: int| 0 <= k < n && contents(**left)[k] == *x;
                            assert(all[k] == *x);
                        } else {
                            assert forall|i: int| 0 <= i < all.len() implies (#[trigger] all[i]).key().bytes()
                                != id.bytes() by {
                                if i >= n {
                                    assert(all[i] == contents(**right)[i - n]);
                                    assert(has_prefix(all[i].key(), p.push(0)));
                                    assert(p.push(0)[d] == 0);
                                } else {
                                    assert(all[i] == contents(**left)[i]);
                                }
                            }
                        }
                    }
                    r
                } else {
                    let r = right.get(id, depth + 1, Ghost(p.push(0)), Ghost(me));
                    proof {
                        if let Some(x) = r {
                            let k = choose|k: int| 0 <= k < contents(**right).len() && contents(**right)[k] == *x;
                            assert(all[k + n] == *x);
                        } else {
                            assert forall|i: int| 0 <= i < all.len() implies (#[trigger] all[i]).key().bytes()
                                != id.bytes() by {
                                if i < n {
                                    assert(all[i] == contents(**left)[i]);
                                    assert(has_prefix(all[i].key(), p.push(1)));
                                    assert(p.push(1)[d] == 1);
                                } else {
                                    assert(all[i] == contents(**right)[i - n]);
                                }
                            }
                        }
                    }
                    r
                }
            },
        }
    }
}

// ---------------------------------------------------------------------------
// The routing table

/// The local node and the trie of buckets around its id.
pub struct RouteTable {
    self_node: Node,
    node_num: usize,
    root: Trie,
}

impl RouteTable {
    /// The local node's id, which decides which buckets may split.
    pub closed spec fn me(&self) -> Key {
        self.self_node.id
    }

    pub closed spec fn self_contact(&self) -> Node {
        self.self_node
    }

    pub closed spec fn trie(&self) -> Trie {
        self.root
    }

    /// Every contact the table holds.
    pub open spec fn contacts(&self) -> Seq<Node> {
        contents(self.trie())
    }

    pub closed spec fn count(&self) -> nat {
        self.node_num as nat
    }

    /// The trie is sound for the local id, and the running count is right.
    pub open spec fn wf(&self) -> bool {
        &&& trie_wf(self.trie(), Seq::empty(), self.me())
        &&& self.count() == self.contacts().len()
    }

    /// An empty table for the local contact `self_node`.
    pub fn with_self(self_node: Node, now: u64) -> (r: RouteTable)
        ensures
            r.wf(),
            r.self_contact() == self_node,
            r.contacts() == Seq::<Node>::empty(),
    {
        let r = RouteTable { self_node, node_num: 0, root: Trie::Leaf(Bucket::empty(now)) };
        assert(r.contacts() == Seq::<Node>::empty());
        r
    }

    /// How many contacts the table holds.
    pub fn len(&self) -> (r: usize)
        requires
            self.wf(),
        ensures
            r == self.contacts().len(),
    {
        self.node_num
    }

    /// Stores a contact, at time `now`: it replaces the contact of the same
    /// id, or goes into the bucket that owns its id, which splits first if
    /// it is full and lies on the local id's path. Where no bucket can take
    /// it, the table keeps the contacts it had.
    pub fn put(&mut self, node: Node, now: u64) -> (r: Insert)
        requires
            old(self).wf(),
        ensures
            final(self).wf(),
            final(self).self_contact() == old(self).self_contact(),
            insert_outcome(old(self).contacts(), final(self).contacts(), node, r),
            owner(old(self).trie(), node.key(), 0).0.contacts().len() < BUCKET_SIZE ==> r
                != Insert::Rejected,
            no_room(old(self).trie(), node, old(self).me(), 0) ==> r == Insert::Rejected
                && *final(self) == *old(self),
            r != Insert::Rejected ==> owner(final(self).trie(), node.key(), 0).0.changed_at() == now,
            r != Insert::Rejected ==> owner(final(self).trie(), node.key(), 0).0.contacts().contains(node),
            r == Insert::Rejected ==> stuck(final(self).trie(), node.key(), old(self).me(), 0),
    {
        let mut root = Trie::Leaf(Bucket::empty(now));
        std::mem::swap(&mut self.root, &mut root);
        let me = self.self_node.id;
        let (root, r) = root.insert(node, 0, now, Ghost(Seq::empty()), &me);
        self.root = root;
        proof {
            lemma_count_bound(self.root, Seq::empty(), me);
            vstd::seq_lib::to_multiset_len(old(self).contacts());
            vstd::seq_lib::to_multiset_len(self.contacts());
            if r == Insert::Replaced {
                let k = choose|k: int|
                    0 <= k < old(self).contacts().len() && (#[trigger] old(self).contacts()[k]).key().bytes()
                        == node.key().bytes();
                assert(old(self).contacts().to_multiset().count(contact_with(old(self).contacts(), node.key())) > 0);
            }
        }
        if r == Insert::Added {
            self.node_num = self.node_num + 1;
        }
        r
    }

    /// The contact of id `id`, if the table holds one.
    pub fn get(&self, id: &Key) -> (r: Option<&Node>)
        requires
            self.wf(),
        ensures
            match r {
                Some(n) => self.contacts().contains(*n) && n.key().bytes() == id.bytes(),
                None => !has_id(self.contacts(), *id),
            },
    {
        self.root.get(id, 0, Ghost(Seq::empty()), Ghost(self.self_node.id))
    }
}

// ---------------------------------------------------------------------------
// What holds of every table

/// Each leaf's contacts lie under that leaf's prefix (`p` at `t`'s root).
pub open spec fn leaves_partition(t: Trie, p: Seq<u8>) -> bool
    decreases t,
{
    match t {
        Trie::Leaf(b) => all_under(b.contacts(), p),
        Trie::Branch(l, r) => leaves_partition(*l, p.push(1)) && leaves_partition(*r, p.push(0)),
    }
}

/// No bucket holds more than `BUCKET_SIZE` contacts.
pub open spec fn buckets_bounded(t: Trie) -> bool
    decreases t,
{
    match t {
        Trie::Leaf(b) => b.contacts().len() <= BUCKET_SIZE,
        Trie::Branch(l, r) => buckets_bounded(*l) && buckets_bounded(*r),
    }
}

/// Every node that has split has a prefix of `me` for its prefix.
pub open spec fn splits_on_path(t: Trie, p: Seq<u8>, me: Key) -> bool
    decreases t,
{
    match t {
        Trie::Leaf(_) => true,
        Trie::Branch(l, r) => has_prefix(me, p) && splits_on_path(*l, p.push(1), me) && splits_on_path(
            *r,
            p.push(0),
            me,
        ),
    }
}

proof fn lemma_trie_laws(t: Trie, p: Seq<u8>, me: Key)
    requires
        trie_wf(t, p, me),
    ensures
        leaves_partition(t, p),
        buckets_bounded(t),
        splits_on_path(t, p, me),
    decreases t,
{
    if let Trie::Branch(l, r) = t {
        lemma_trie_laws(*l, p.push(1), me);
        lemma_trie_laws(*r, p.push(0), me);
    }
}

/// What every table holds, however many contacts were put into it since it
/// was made (`with_self` and `put` keep `wf`): each contact lies under its
/// leaf's prefix, no bucket exceeds `BUCKET_SIZE`, no two contacts share an
/// id, and only prefixes of the local id have split.
pub proof fn lemma_table_laws(t: RouteTable)
    requires
        t.wf(),
    ensures
        leaves_partition(t.trie(), Seq::empty()),
        buckets_bounded(t.trie()),
        ids_unique(t.contacts()),
        splits_on_path(t.trie(), Seq::empty(), t.me()),
{
    lemma_trie_laws(t.trie(), Seq::empty(), t.me());
    lemma_contents(t.trie(), Seq::empty(), t.me());
}

// ---------------------------------------------------------------------------
// Addresses

/// The text of an address: `a.b.c.d:port`, each number in decimal without
/// leading zeros.
pub open spec fn addr_text(a: NetAddr) -> Seq<u8> {
    nat_text(a.ip@[0] as nat) + seq![46u8] + nat_text(a.ip@[1] as nat) + seq![46u8] + nat_text(
        a.ip@[2] as nat,
    ) + seq![46u8] + nat_text(a.ip@[3] as nat) + seq![58u8] + nat_text(a.port as nat)
}

/// Reads a decimal number of at most `max` at `p`: digits without a leading
/// zero, then no further digit.
fn read_number(s: &[u8], p: usize, max: u16) -> (r: Option<(u16, usize)>)
    requires
        p <= s@.len(),
    ensures
        r matches Some((v, e)) ==> v <= max && e == p + nat_text(v as nat).len() && text_at(
            s@,
            p as int,
            nat_text(v as nat),
        ) && (e == s@.len() || !is_digit(s@[e as int])),
        forall|n: nat|
            n <= max && text_at(s@, p as int, nat_text(n)) && (p + nat_text(n).len() == s@.len()
                || !is_digit(s@[p + nat_text(n).len()])) ==> r == Some::<(u16, usize)>(
                (n as u16, (p + nat_text(n).len()) as usize),
            ),
{
    let mut e: usize = p;
    let mut v: u32 = 0;
    while e < s.len() && 48 <= s[e] && s[e] <= 57 && v <= max as u32
        invariant
            p <= e <= s@.len(),
            forall|i: int| p <= i < e ==> is_digit(#[trigger] s@[i]),
            v == digits_value(s@.subrange(p as int, e as int)),
        decreases s@.len() - e,
    {
        assert(s@.subrange(p as int, e + 1).drop_last() =~= s@.subrange(p as int, e as int));
        v = v * 10 + (s[e] - 48) as u32;
        e += 1;
    }
    let ghost run = s@.subrange(p as int, e as int);
    proof {
        assert forall|i: int| 0 <= i < run.len() implies is_digit(#[trigger] run[i]) by {
            assert(run[i] == s@[p + i]);
        }
        assert(all_digits(run));
    }
    let ok_end = e == s.len() || !(48 <= s[e] && s[e] <= 57);
    let leading_zero = e - p > 1 && s[p] == 48;
    let r = if e > p && ok_end && !leading_zero && v <= max as u32 {
        proof {
            lemma_digits_text(run);
        }
        Some((v as u16, e))
    } else {
        None
    };
    proof {
        assert forall|n: nat|
            n <= max && text_at(s@, p as int, nat_text(n)) && (p + nat_text(n).len() == s@.len()
                || !is_digit(s@[p + nat_text(n).len()])) implies r == Some::<(u16, usize)>(
            (n as u16, (p + nat_text(n).len()) as usize),
        ) by {
            let t = nat_text(n);
            lemma_nat_text(n);
            let q = p + t.len();
            assert forall|i: int| p <= i < q implies is_digit(#[trigger] s@[i]) by {
                assert(s@.subrange(p as int, q)[i - p] == t[i - p]);
            }
            lemma_digits_end(s@, p as int, q);
            assert(e <= q) by {
                if e > q {
                    assert(is_digit(s@[q]));
                }
            }
            if e < q {
                // the loop stopped early only on a value above `max`
                let pre = s@.subrange(p as int, e as int);
                assert(pre =~= t.take(e - p));
                assert(v > max);
                lemma_prefix_value(t, e - p);
            }
            assert(run =~= t);
        }
    }
    r
}

/// A prefix of a digit run spells at most what the whole run spells.
proof fn lemma_prefix_value(d: Seq<u8>, k: int)
    requires
        0 <= k <= d.len(),
        all_digits(d),
    ensures
        digits_value(d.take(k)) <= digits_value(d),
    decreases d.len() - k,
{
    if k < d.len() {
        let t = d.take(k + 1);
        assert(t.drop_last() =~= d.take(k));
        assert(digits_value(t) == digits_value(d.take(k)) * 10 + (t.last() - 48) as nat);
        lemma_prefix_value(d, k + 1);
    } else {
        assert(d.take(k) =~= d);
    }
}

/// Where the fields of the address `a` stand in the text `s`.
pub open spec fn addr_fields(s: Seq<u8>, a: NetAddr) -> bool {
    let (t0, t1, t2, t3, t4) = (
        nat_text(a.ip@[0] as nat),
        nat_text(a.ip@[1] as nat),
        nat_text(a.ip@[2] as nat),
        nat_text(a.ip@[3] as nat),
        nat_text(a.port as nat),
    );
    let q1: int = t0.len() as int + 1;
    let q2: int = q1 + t1.len() + 1;
    let q3: int = q2 + t2.len() + 1;
    let q4: int = q3 + t3.len() + 1;
    &&& text_at(s, 0, t0) && s[t0.len() as int] == 46
    &&& text_at(s, q1, t1) && s[q1 + t1.len()] == 46
    &&& text_at(s, q2, t2) && s[q2 + t2.len()] == 46
    &&& text_at(s, q3, t3) && s[q3 + t3.len()] == 58
    &&& text_at(s, q4, t4) && q4 + t4.len() == s.len()
}

/// Where the fields of an address stand in its text.
#[verifier::rlimit(100)]
proof fn lemma_addr_fields(s: Seq<u8>, a: NetAddr)
    requires
        s == addr_text(a),
    ensures
        addr_fields(s, a),
        a.ip@[0] <= 255 && a.ip@[1] <= 255 && a.ip@[2] <= 255 && a.ip@[3] <= 255,
{
    let dot = seq![46u8];
    let colon = seq![58u8];
    let (t0, t1, t2, t3, t4) = (
        nat_text(a.ip@[0] as nat),
        nat_text(a.ip@[1] as nat),
        nat_text(a.ip@[2] as nat),
        nat_text(a.ip@[3] as nat),
        nat_text(a.port as nat),
    );
    assert(s.subrange(0, s.len() as int) =~= s);
    let a1 = t0 + dot;
    let a2 = a1 + t1;
    let a3 = a2 + dot;
    let a4 = a3 + t2;
    let a5 = a4 + dot;
    let a6 = a5 + t3;
    let a7 = a6 + colon;
    assert(s == a7 + t4);
    lemma_text_at_concat(s, 0, a7, t4);
    lemma_text_at_concat(s, 0, a6, colon);
    lemma_text_at_concat(s, 0, a5, t3);
    lemma_text_at_concat(s, 0, a4, dot);
    lemma_text_at_concat(s, 0, a3, t2);
    lemma_text_at_concat(s, 0, a2, dot);
    lemma_text_at_concat(s, 0, a1, t1);
    lemma_text_at_concat(s, 0, t0, dot);
    assert(s.subrange(t0.len() as int, t0.len() as int + 1)[0] == s[t0.len() as int]);
    assert(s.subrange(a2.len() as int, a2.len() as int + 1)[0] == s[a2.len() as int]);
    assert(s.subrange(a4.len() as int, a4.len() as int + 1)[0] == s[a4.len() as int]);
    assert(s.subrange(a6.len() as int, a6.len() as int + 1)[0] == s[a6.len() as int]);
}

/// Fields read at their places, with the separators between, make up the
/// address's text.
#[verifier::rlimit(60)]
proof fn lemma_addr_text(s: Seq<u8>, a: NetAddr, stop0: int, stop1: int, stop2: int, stop3: int)
    requires
        text_at(s, 0, nat_text(a.ip@[0] as nat)) && stop0 == nat_text(a.ip@[0] as nat).len(),
        text_at(s, stop0 + 1, nat_text(a.ip@[1] as nat)) && stop1 == stop0 + 1 + nat_text(a.ip@[1] as nat).len(),
        text_at(s, stop1 + 1, nat_text(a.ip@[2] as nat)) && stop2 == stop1 + 1 + nat_text(a.ip@[2] as nat).len(),
        text_at(s, stop2 + 1, nat_text(a.ip@[3] as nat)) && stop3 == stop2 + 1 + nat_text(a.ip@[3] as nat).len(),
        text_at(s, stop3 + 1, nat_text(a.port as nat)) && s.len() == stop3 + 1 + nat_text(a.port as nat).len(),
        s[stop0] == 46 && s[stop1] == 46 && s[stop2] == 46 && s[stop3] == 58,
    ensures
        s == addr_text(a),
{
    let dot = seq![46u8];
    let colon = seq![58u8];
    let (t0, t1, t2, t3, t4) = (
        nat_text(a.ip@[0] as nat),
        nat_text(a.ip@[1] as nat),
        nat_text(a.ip@[2] as nat),
        nat_text(a.ip@[3] as nat),
        nat_text(a.port as nat),
    );
    assert(s.subrange(stop0, stop0 + 1) =~= dot);
    assert(s.subrange(stop1, stop1 + 1) =~= dot);
    assert(s.subrange(stop2, stop2 + 1) =~= dot);
    assert(s.subrange(stop3, stop3 + 1) =~= colon);
    let a1 = t0 + dot;
    let a2 = a1 + t1;
    let a3 = a2 + dot;
    let a4 = a3 + t2;
    let a5 = a4 + dot;
    let a6 = a5 + t3;
    let a7 = a6 + colon;
    lemma_text_at_concat(s, 0, t0, dot);
    lemma_text_at_concat(s, 0, a1, t1);
    lemma_text_at_concat(s, 0, a2, dot);
    lemma_text_at_concat(s, 0, a3, t2);
    lemma_text_at_concat(s, 0, a4, dot);
    lemma_text_at_concat(s, 0, a5, t3);
    lemma_text_at_concat(s, 0, a6, colon);
    lemma_text_at_concat(s, 0, a7, t4);
    assert(s.subrange(0, s.len() as int) =~= s);
}

impl NetAddr {
    pub fn new(ip: [u8; 4], port: u16) -> (r: NetAddr)
        ensures
            r.ip == ip,
            r.port == port,
    {
        NetAddr { ip, port }
    }

    /// Reads `a.b.c.d:port`; anything else is `InvalidNetAddr`, holding the text.
    #[verifier::rlimit(60)]
    pub fn parse(text: &str) -> (r: Result<NetAddr, Error>)
        ensures
            r matches Ok(a) ==> text.spec_bytes() == addr_text(a),
            (exists|a: NetAddr| addr_text(a) == text.spec_bytes()) ==> r is Ok,
            r matches Err(e) ==> (e matches Error::InvalidNetAddr(t) && t@ == text@),
    {
        let b = text.as_bytes();
        let ghost s = b@;
        let fail = Err(Error::InvalidNetAddr(text.to_owned()));
        let ghost wa = choose|a: NetAddr| addr_text(a) == s;
        proof {
            if addr_text(wa) == s {
                lemma_addr_fields(s, wa);
            }
        }
        let (n0, stop0) = match read_number(b, 0, 255) {
            Some(x) => x,
            None => {
                return fail;
            },
        };
        if stop0 >= b.len() || b[stop0] != 46 {
            return fail;
        }
        let (n1, stop1) = match read_number(b, stop0 + 1, 255) {
            Some(x) => x,
            None => {
                return fail;
            },
        };
        if stop1 >= b.len() || b[stop1] != 46 {
            return fail;
        }
        let (n2, stop2) = match read_number(b, stop1 + 1, 255) {
            Some(x) => x,
            None => {
                return fail;
            },
        };
        if stop2 >= b.len() || b[stop2] != 46 {
            return fail;
        }
        let (n3, stop3) = match read_number(b, stop2 + 1, 255) {
            Some(x) => x,
            None => {
                return fail;
            },
        };
        if stop3 >= b.len() || b[stop3] != 58 {
            return fail;
        }
        let (port, stop4) = match read_number(b, stop3 + 1, 65535) {
            Some(x) => x,
            None => {
                return fail;
            },
        };
        if stop4 != b.len() {
            return fail;
        }
        let a = NetAddr { ip: [n0 as u8, n1 as u8, n2 as u8, n3 as u8], port };
        proof {
            lemma_addr_text(s, a, stop0 as int, stop1 as int, stop2 as int, stop3 as int);
        }
        Ok(a)
    }
}

/// Some address has the text `t`.
pub open spec fn is_addr_text(t: Seq<u8>) -> bool {
    exists|a: NetAddr| addr_text(a) == t
}

impl Node {
    /// A contact from a 20-byte id and an address text `a.b.c.d:port`.
    pub fn new(id: &[u8], addr: &str) -> (r: Result<Node, Error>)
        ensures
            id@.len() != KEY_LENGTH ==> (r matches Err(Error::InvalidKey(v)) && v@ == id@),
            id@.len() == KEY_LENGTH && !is_addr_text(addr.spec_bytes()) ==> (r matches Err(
                Error::InvalidNetAddr(t),
            ) && t@ == addr@),
            id@.len() == KEY_LENGTH && is_addr_text(addr.spec_bytes()) ==> (r matches Ok(n)
                && n.key().bytes() == id@ && addr_text(n.net_addr()) == addr.spec_bytes()),
    {
        let id = match Key::from_bytes(id) {
            Ok(k) => k,
            Err(e) => {
                return Err(e);
            },
        };
        match NetAddr::parse(addr) {
            Ok(a) => Ok(Node { id, addr: a }),
            Err(e) => Err(e),
        }
    }
}

impl RouteTable {
    /// An empty table for a local node listening on `addr`, whose id is the
    /// key that `Key::new` gives.
    pub fn new(addr: &str, now: u64) -> (r: Result<RouteTable, Error>)
        ensures
            !is_addr_text(addr.spec_bytes()) ==> (r matches Err(Error::InvalidNetAddr(t)) && t@
                == addr@),
            is_addr_text(addr.spec_bytes()) ==> (r matches Ok(t) && t.wf() && t.contacts()
                == Seq::<Node>::empty() && t.me().bytes() == sha1_of(Seq::empty()) && addr_text(
                t.self_contact().net_addr(),
            ) == addr.spec_bytes()),
    {
        let a = match NetAddr::parse(addr) {
            Ok(a) => a,
            Err(e) => {
                return Err(e);
            },
        };
        Ok(RouteTable::with_self(Node { id: Key::new(), addr: a }, now))
    }
}

// ---------------------------------------------------------------------------
// Buckets that want refreshing

/// A bucket last changed at `changed` is stale at `now`: more than
/// `REFRESH_INTERVAL` has passed since.
pub open spec fn is_stale(changed: u64, now: u64) -> bool {
    now > changed && now - changed > REFRESH_INTERVAL
}

/// The prefixes (one bit per item) of the stale buckets, leaves left to
/// right, below the prefix `p`.
pub open spec fn stale_prefixes(t: Trie, p: Seq<u8>, now: u64) -> Seq<Seq<u8>>
    decreases t,
{
    match t {
        Trie::Leaf(b) => if is_stale(b.changed_at(), now) {
            seq![p]
        } else {
            Seq::empty()
        },
        Trie::Branch(l, r) => stale_prefixes(*l, p.push(1), now) + stale_prefixes(*r, p.push(0), now),
    }
}

impl Bucket {
    /// Whether the bucket wants refreshing at `now`.
    pub fn needs_refresh(&self, now: u64) -> (r: bool)
        ensures
            r == is_stale(self.changed_at(), now),
    {
        now > self.last_changed && now - self.last_changed > REFRESH_INTERVAL
    }
}

pub open spec fn views(l: Seq<Vec<u8>>) -> Seq<Seq<u8>> {
    l.map_values(|v: Vec<u8>| v@)
}

impl Trie {
    fn collect_stale(&self, now: u64, prefix: &mut Vec<u8>, out: &mut Vec<Vec<u8>>)
        ensures
            final(prefix)@ == old(prefix)@,
            views(final(out)@) == views(old(out)@) + stale_prefixes(*self, old(prefix)@, now),
        decreases self,
    {
        match self {
            Trie::Leaf(b) => {
                if b.needs_refresh(now) {
                    let ghost before = out@;
                    out.push(copy_bytes(prefix.as_slice()));
                    assert(views(out@) =~= views(before) + stale_prefixes(*self, prefix@, now));
                } else {
                    assert(views(out@) =~= views(out@) + stale_prefixes(*self, prefix@, now));
                }
            },
            Trie::Branch(left, right) => {
                let ghost p = prefix@;
                let ghost before = views(out@);
                prefix.push(1);
                left.collect_stale(now, prefix, out);
                let ghost mid = views(out@);
                prefix.pop();
                assert(prefix@ =~= p);
                prefix.push(0);
                right.collect_stale(now, prefix, out);
                prefix.pop();
                assert(prefix@ =~= p);
                assert(views(out@) =~= before + stale_prefixes(*self, p, now));
            },
        }
    }
}

impl RouteTable {
    /// The prefixes of the buckets that want refreshing at `now`, one bit per
    /// item (bit 0 first), leaves taken left (bit 1) to right (bit 0).
    pub fn stale_buckets(&self, now: u64) -> (r: Vec<Vec<u8>>)
        requires
            self.wf(),
        ensures
            views(r@) == stale_prefixes(self.trie(), Seq::empty(), now),
    {
        let mut prefix: Vec<u8> = Vec::new();
        let mut out: Vec<Vec<u8>> = Vec::new();
        assert(prefix@ =~= Seq::<u8>::empty());
        self.root.collect_stale(now, &mut prefix, &mut out);
        assert(views(out@) =~= stale_prefixes(self.trie(), Seq::empty(), now));
        out
    }
}

// ---------------------------------------------------------------------------
// Closest contacts

/// The Kademlia distance of two keys: their bytewise XOR, read as a
/// big-endian number (so `key_lt` orders distances).
pub open spec fn distance(a: Key, b: Key) -> Seq<u8> {
    Seq::new(20, |i: int| a.bytes()[i] ^ b.bytes()[i])
}

/// `x` is no farther from `k` than `y` is.
pub open spec fn no_farther(x: Node, y: Node, k: Key) -> bool {
    !key_lt(distance(y.key(), k), distance(x.key(), k))
}

/// The contacts of `s` ascend in distance from `k`.
pub open spec fn by_distance(s: Seq<Node>, k: Key) -> bool {
    forall|i: int, j: int| 0 <= i < j < s.len() ==> no_farther(#[trigger] s[i], #[trigger] s[j], k)
}

fn key_distance(a: &Key, b: &Key) -> (r: Vec<u8>)
    ensures
        r@ == distance(*a, *b),
{
    let mut r: Vec<u8> = Vec::new();
    let mut i: usize = 0;
    while i < KEY_LENGTH
        invariant
            i <= KEY_LENGTH,
            r@.len() == i,
            forall|j: int| 0 <= j < i ==> r@[j] == a.bytes()[j] ^ b.bytes()[j],
        decreases KEY_LENGTH - i,
    {
        r.push(a.data[i] ^ b.data[i]);
        i += 1;
    }
    assert(r@ =~= distance(*a, *b));
    r
}

impl Trie {
    fn collect(&self, out: &mut Vec<Node>)
        ensures
            final(out)@ == old(out)@ + contents(*self),
        decreases self,
    {
        match self {
            Trie::Leaf(b) => {
                let ghost before = out@;
                let mut i: usize = 0;
                while i < b.nodes.len()
                    invariant
                        i <= b.nodes@.len(),
                        out@ == before + b.nodes@.take(i as int),
                    decreases b.nodes@.len() - i,
                {
                    out.push(b.nodes[i]);
                    i += 1;
                    assert(out@ =~= before + b.nodes@.take(i as int));
                }
                assert(b.nodes@.take(i as int) =~= contents(*self));
            },
            Trie::Branch(left, right) => {
                let ghost before = out@;
                left.collect(out);
                right.collect(out);
                assert(out@ =~= before + contents(*self));
            },
        }
    }
}

/// Puts `n` into `s`, which ascends in distance from `k`, keeping that order.
fn insert_by_distance(s: &mut Vec<Node>, n: Node, k: &Key)
    requires
        by_distance(old(s)@, *k),
    ensures
        by_distance(final(s)@, *k),
        final(s)@.to_multiset() == old(s)@.to_multiset().insert(n),
{
    let dn = key_distance(&n.id, k);
    let mut j: usize = 0;
    while j < s.len()
        invariant
            j <= s@.len(),
            s@ == old(s)@,
            dn@ == distance(n.key(), *k),
            forall|x: int| 0 <= x < j ==> no_farther(#[trigger] s@[x], n, *k),
        ensures
            j <= s@.len(),
            s@ == old(s)@,
            forall|x: int| 0 <= x < j ==> no_farther(#[trigger] s@[x], n, *k),
            j < s@.len() ==> key_lt(dn@, distance(s@[j as int].key(), *k)),
        decreases s@.len() - j,
    {
        let dj = key_distance(&s[j].id, k);
        if compare_keys(dj.as_slice(), dn.as_slice()) > 0 {
            proof {
                lemma_key_lt_asymmetric(dj@, dn@);
            }
            break;
        }
        proof {
            lemma_key_lt_asymmetric(dj@, dn@);
            lemma_key_lt_irreflexive(dn@);
        }
        j += 1;
    }
    let ghost old_s = s@;
    s.insert(j, n);
    proof {
        assert(s@ == old_s.insert(j as int, n));
        assert forall|a: int, b: int| 0 <= a < b < s@.len() implies no_farther(
            #[trigger] s@[a],
            #[trigger] s@[b],
            *k,
        ) by {
            let da = distance(s@[a].key(), *k);
            let db = distance(s@[b].key(), *k);
            if a < j && b == j {
            } else if a < j && b > j {
                assert(s@[b] == old_s[b - 1]);
                assert(no_farther(old_s[a], old_s[b - 1], *k));
            } else if a == j {
                // n is nearer than old_s[j], which is no farther than old_s[b - 1]
                assert(s@[b] == old_s[b - 1]);
                let dj = distance(old_s[j as int].key(), *k);
                lemma_key_lt_asymmetric(dn@, dj);
                if b - 1 > j {
                    assert(no_farther(old_s[j as int], old_s[b - 1], *k));
                    lemma_key_lt_total(dj, db);
                    if key_lt(dj, db) {
                        lemma_key_lt_transitive(dn@, dj, db);
                    }
                }
                lemma_key_lt_asymmetric(dn@, db);
            } else if b < j {
                assert(s@[a] == old_s[a]);
                assert(s@[b] == old_s[b]);
                assert(no_farther(old_s[a], old_s[b], *k));
            } else {
                assert(s@[a] == old_s[a - 1]);
                assert(s@[b] == old_s[b - 1]);
                assert(no_farther(old_s[a - 1], old_s[b - 1], *k));
            }
        }
    }
}

impl RouteTable {
    /// Up to `n` contacts, nearest to `key` first: the first `n` of the
    /// table's contacts ordered by distance from `key`.
    pub fn get_closest(&self, key: &Key, n: usize) -> (r: Vec<Node>)
        requires
            self.wf(),
        ensures
            r@.len() == if n < self.contacts().len() {
                n as int
            } else {
                self.contacts().len() as int
            },
            exists|s: Seq<Node>|
                #![trigger by_distance(s, *key)]
                by_distance(s, *key) && s.to_multiset() == self.contacts().to_multiset() && r@
                    == s.take(r@.len() as int),
    {
        let mut all: Vec<Node> = Vec::new();
        self.root.collect(&mut all);
        assert(all@ =~= self.contacts());
        let mut sorted: Vec<Node> = Vec::new();
        let mut i: usize = 0;
        assert(all@.take(0) =~= Seq::<Node>::empty());
        while i < all.len()
            invariant
                i <= all@.len(),
                all@ == self.contacts(),
                by_distance(sorted@, *key),
                sorted@.to_multiset() == all@.take(i as int).to_multiset(),
            decreases all@.len() - i,
        {
            insert_by_distance(&mut sorted, all[i], key);
            assert(all@.take(i + 1) =~= all@.take(i as int).push(all@[i as int]));
            i += 1;
        }
        assert(all@.take(i as int) =~= all@);
        proof {
            vstd::seq_lib::to_multiset_len(sorted@);
            vstd::seq_lib::to_multiset_len(all@);
        }
        let m = if n < sorted.len() { n } else { sorted.len() };
        let mut r: Vec<Node> = Vec::new();
        let mut j: usize = 0;
        while j < m
            invariant
                j <= m <= sorted@.len(),
                r@ == sorted@.take(j as int),
            decreases m - j,
        {
            r.push(sorted[j]);
            j += 1;
            assert(r@ =~= sorted@.take(j as int));
        }
        assert(by_distance(sorted@, *key));
        r
    }
}

} // verus!
