//! A fixed-capacity least-recently-used cache.
//!
//! The cache pairs a hash index (key to handle) with a recency list that
//! orders the live entries from most- to least-recently used.  The list is
//! intrusive but arena-backed: every node lives in one growable vector and
//! `prev`/`next` are small integer handles into it, with two permanent
//! sentinel slots bounding the chain.  A ghost sequence of handles mirrors
//! the chain from head to tail and ties the links, the arena and the index
//! together.
//!
//! A live entry always has both neighbours, and the index always mirrors
//! the list: the well-formedness predicate saying so is established at
//! construction and preserved by every operation, so no state in which the
//! two disagree is reachable through this interface.

use std::collections::HashMap;
use vstd::prelude::*;

verus! {

broadcast use vstd::std_specs::hash::group_hash_axioms;

/// Handle of the head sentinel: the slot before the most-recently-used entry.
const HEAD: usize = 0;

/// Handle of the tail sentinel: the slot after the least-recently-used entry.
const TAIL: usize = 1;

/// One arena slot of the recency list: a live cache entry or a sentinel.
/// `prev` and `next` are handles into the arena rather than owning pointers.
#[derive(Clone, Copy)]
pub struct Node {
    pub key: isize,
    pub value: isize,
    pub prev: usize,
    pub next: usize,
}

impl Node {
    /// A fresh, unlinked entry; its links are sentinel-valued until the
    /// cache splices it into the recency list.
    pub fn new(key: isize, value: isize) -> (n: Node)
        ensures
            n.key == key,
            n.value == value,
    {
        Node { key, value, prev: HEAD, next: HEAD }
    }
}

/// The cache: an arena of `Node`s carrying the recency list, a key-to-handle
/// index, and a ghost view of the list order.  `N` is the capacity.
pub struct LRUCache<const N: usize> {
    nodes: Vec<Node>,
    index: HashMap<isize, usize>,
    order: Ghost<Seq<usize>>,
}

impl<const N: usize> View for LRUCache<N> {
    type V = Seq<(isize, isize)>;

    /// The live entries as (key, value) pairs, most recently used first.
    closed spec fn view(&self) -> Seq<(isize, isize)> {
        Seq::new(
            self.order@.len(),
            |k: int|
                (
                    self.nodes@[self.order@[k] as int].key,
                    self.nodes@[self.order@[k] as int].value,
                ),
        )
    }
}

/// Whether some entry of `s` bears the key.
pub open spec fn has_key(s: Seq<(isize, isize)>, key: isize) -> bool {
    exists|i: int| 0 <= i < s.len() && (#[trigger] s[i]).0 == key
}

/// The position of the entry bearing the key; meaningful when the keys of
/// `s` are distinct and `has_key(s, key)` holds.
pub open spec fn key_index(s: Seq<(isize, isize)>, key: isize) -> int {
    choose|i: int| 0 <= i < s.len() && (#[trigger] s[i]).0 == key
}

impl<const N: usize> LRUCache<N> {
    /// The key stored at position `k` of the recency order.
    spec fn key_at(self, k: int) -> isize {
        self.nodes@[self.order@[k] as int].key
    }

    /// The `prev`/`next` links run head, the ordered live handles, tail;
    /// live handles are distinct arena slots apart from the sentinels.
    spec fn link_wf(self) -> bool {
        let s = self.order@;
        let n = self.nodes@;
        &&& n.len() >= 2
        &&& (forall|k: int| 0 <= k < s.len() ==> 2 <= #[trigger] s[k] < n.len())
        &&& (forall|i: int, j: int|
            #![trigger s[i], s[j]]
            0 <= i < s.len() && 0 <= j < s.len() && i != j ==> s[i] != s[j])
        &&& n[HEAD as int].next == (if s.len() == 0 { TAIL } else { s[0] })
        &&& n[TAIL as int].prev == (if s.len() == 0 { HEAD } else { s[s.len() - 1] })
        &&& (forall|k: int| 0 <= k < s.len() ==> (#[trigger] n[s[k] as int]).prev == (
            if k == 0 { HEAD } else { s[k - 1] }))
        &&& (forall|k: int| 0 <= k < s.len() ==> (#[trigger] n[s[k] as int]).next == (
            if k == s.len() - 1 { TAIL } else { s[k + 1] }))
    }

    /// The index and the recency list agree exactly: every live key maps to
    /// its handle, every indexed key is live, and no key occurs twice.
    spec fn index_wf(self) -> bool {
        let s = self.order@;
        &&& (forall|k: int| 0 <= k < s.len() ==> self.index@.contains_pair(
            #[trigger] self.key_at(k),
            s[k],
        ))
        &&& (forall|key: isize| #[trigger] self.index@.dom().contains(key) ==> exists|k: int|
            0 <= k < s.len() && #[trigger] self.key_at(k) == key)
        &&& (forall|i: int, j: int|
            #![trigger self.key_at(i), self.key_at(j)]
            0 <= i < s.len() && 0 <= j < s.len() && i != j ==> self.key_at(i) != self.key_at(j))
    }

    /// The cache's invariant: consistent links and index, a positive
    /// capacity that the entry count never exceeds, and an arena holding
    /// exactly the live entries plus the two sentinels.
    pub closed spec fn wf(self) -> bool {
        &&& self.link_wf()
        &&& self.index_wf()
        &&& 1 <= N
        &&& self.order@.len() <= N
        &&& self.nodes@.len() == self.order@.len() + 2
    }

    /// Builds an empty cache whose sentinels are linked to each other.
    /// A capacity of zero is a configuration error, rejected here and never
    /// later: every further operation keeps the entry count within `N`.
    pub fn new() -> (r: Option<Self>)
        ensures
            r is Some <==> 1 <= N,
            r matches Some(c) ==> c.wf() && c@ == Seq::<(isize, isize)>::empty(),
    {
        if N == 0 {
            return None;
        }
        let mut nodes: Vec<Node> = Vec::new();
        nodes.push(Node { key: -1, value: -1, prev: HEAD, next: TAIL });
        nodes.push(Node { key: -1, value: -1, prev: HEAD, next: TAIL });
        let cache = LRUCache { nodes, index: HashMap::new(), order: Ghost(Seq::empty()) };
        proof {
            assert(cache@ =~= Seq::<(isize, isize)>::empty());
        }
        Some(cache)
    }

    /// Keys and values of every arena slot are as they were; only links moved.
    spec fn same_entries(self, other: Self) -> bool {
        &&& self.nodes@.len() == other.nodes@.len()
        &&& forall|x: int| 0 <= x < self.nodes@.len() ==> (#[trigger] self.nodes@[x]).key
            == other.nodes@[x].key && self.nodes@[x].value == other.nodes@[x].value
    }

    /// Unlinks the live handle `h`, standing at position `k` of the recency
    /// order, by relinking its former neighbours directly to each other.
    /// Only sentinels may lack full linkage, and sentinels are never
    /// detached, so both neighbours exist.
    fn detach(&mut self, h: usize, Ghost(k): Ghost<int>)
        requires
            old(self).link_wf(),
            0 <= k < old(self).order@.len(),
            old(self).order@[k] == h,
        ensures
            final(self).link_wf(),
            final(self).order@ == old(self).order@.remove(k),
            final(self).same_entries(*old(self)),
            final(self).index@ == old(self).index@,
    {
        let ghost s = old(self).order@;
        let p = self.nodes[h].prev;
        let nx = self.nodes[h].next;
        proof {
            assert(p == if k == 0 { HEAD } else { s[k - 1] });
            assert(nx == if k == s.len() - 1 { TAIL } else { s[k + 1] });
            assert(p != nx);
        }
        let mut pn = self.nodes[p];
        pn.next = nx;
        self.nodes[p] = pn;
        let mut xn = self.nodes[nx];
        xn.prev = p;
        self.nodes[nx] = xn;
        self.order = Ghost(self.order@.remove(k));
        proof {
            let sp = self.order@;
            let n1 = self.nodes@;
            assert forall|j: int| 0 <= j < sp.len() implies (#[trigger] n1[sp[j] as int]).prev
                == (if j == 0 { HEAD } else { sp[j - 1] }) && n1[sp[j] as int].next == (
            if j == sp.len() - 1 { TAIL } else { sp[j + 1] }) by {
                if j < k {
                    assert(sp[j] == s[j]);
                } else {
                    assert(sp[j] == s[j + 1]);
                }
                if 0 < j {
                    if j - 1 < k {
                        assert(sp[j - 1] == s[j - 1]);
                    } else {
                        assert(sp[j - 1] == s[j]);
                    }
                }
                if j < sp.len() - 1 {
                    if j + 1 < k {
                        assert(sp[j + 1] == s[j + 1]);
                    } else {
                        assert(sp[j + 1] == s[j + 2]);
                    }
                }
            }
            assert forall|i: int, j: int|
                #![trigger sp[i], sp[j]]
                0 <= i < sp.len() && 0 <= j < sp.len() && i != j implies sp[i] != sp[j] by {
                assert(sp[i] == if i < k { s[i] } else { s[i + 1] });
                assert(sp[j] == if j < k { s[j] } else { s[j + 1] });
            }
        }
    }

    /// Splices the unlinked arena slot `h` immediately after the head
    /// sentinel, making it the most-recently-used entry.
    fn attach_at_head(&mut self, h: usize)
        requires
            old(self).link_wf(),
            2 <= h < old(self).nodes@.len(),
            !old(self).order@.contains(h),
        ensures
            final(self).link_wf(),
            final(self).order@ == seq![h] + old(self).order@,
            final(self).same_entries(*old(self)),
            final(self).index@ == old(self).index@,
    {
        let ghost s = old(self).order@;
        let first = self.nodes[HEAD].next;
        proof {
            assert(first == if s.len() == 0 { TAIL } else { s[0] });
            if s.len() > 0 {
                assert(s.contains(s[0]));
            }
            assert(first != h && first != HEAD && h != HEAD);
        }
        let mut hn = self.nodes[h];
        hn.prev = HEAD;
        hn.next = first;
        self.nodes[h] = hn;
        let mut hd = self.nodes[HEAD];
        hd.next = h;
        self.nodes[HEAD] = hd;
        let mut fst = self.nodes[first];
        fst.prev = h;
        self.nodes[first] = fst;
        self.order = Ghost(seq![h] + self.order@);
        proof {
            let sp = self.order@;
            let n1 = self.nodes@;
            assert forall|j: int| 0 <= j < sp.len() implies 2 <= #[trigger] sp[j] < n1.len() by {
                if j > 0 {
                    assert(sp[j] == s[j - 1]);
                }
            }
            assert forall|j: int| 0 <= j < sp.len() implies (#[trigger] n1[sp[j] as int]).prev
                == (if j == 0 { HEAD } else { sp[j - 1] }) && n1[sp[j] as int].next == (
            if j == sp.len() - 1 { TAIL } else { sp[j + 1] }) by {
                if j > 0 {
                    assert(sp[j] == s[j - 1]);
                    assert(s.contains(s[j - 1]));
                }
                if 0 < j && j < sp.len() - 1 {
                    assert(sp[j + 1] == s[j]);
                }
            }
            assert forall|i: int, j: int|
                #![trigger sp[i], sp[j]]
                0 <= i < sp.len() && 0 <= j < sp.len() && i != j implies sp[i] != sp[j] by {
                if i > 0 && j > 0 {
                    assert(sp[i] == s[i - 1] && sp[j] == s[j - 1]);
                } else if i == 0 && j > 0 {
                    assert(s.contains(s[j - 1]));
                } else if j == 0 && i > 0 {
                    assert(s.contains(s[i - 1]));
                }
            }
        }
    }

    /// The promotion primitive shared by the read and write paths: detach
    /// the live handle, then re-attach it right after the head sentinel.
    fn move_to_head(&mut self, h: usize, Ghost(k): Ghost<int>)
        requires
            old(self).link_wf(),
            0 <= k < old(self).order@.len(),
            old(self).order@[k] == h,
        ensures
            final(self).link_wf(),
            final(self).order@ == seq![h] + old(self).order@.remove(k),
            final(self).same_entries(*old(self)),
            final(self).index@ == old(self).index@,
    {
        let ghost s = old(self).order@;
        self.detach(h, Ghost(k));
        proof {
            let sp = self.order@;
            assert forall|j: int| 0 <= j < sp.len() implies #[trigger] sp[j] != h by {
                assert(sp[j] == if j < k { s[j] } else { s[j + 1] });
            }
            assert(!self.order@.contains(h));
        }
        self.attach_at_head(h);
    }

    /// Position in the recency order of the entry the index maps `key` to.
    proof fn pos_of_key(self, key: isize) -> (k: int)
        requires
            self.index_wf(),
            self.index@.dom().contains(key),
        ensures
            0 <= k < self.order@.len(),
            self.key_at(k) == key,
            self.order@[k] == self.index@[key],
    {
        let k = choose|k: int| 0 <= k < self.order@.len() && #[trigger] self.key_at(k) == key;
        assert(self.index@.contains_pair(self.key_at(k), self.order@[k]));
        k
    }

    /// The index holds a key exactly when some live entry bears it.
    proof fn lemma_has_key_iff_indexed(self, key: isize)
        requires
            self.index_wf(),
        ensures
            has_key(self@, key) <==> self.index@.dom().contains(key),
    {
        if has_key(self@, key) {
            let i = key_index(self@, key);
            assert(self.key_at(i) == key);
            assert(self.index@.contains_pair(self.key_at(i), self.order@[i]));
        }
        if self.index@.dom().contains(key) {
            let k = self.pos_of_key(key);
            assert(self@[k].0 == key);
        }
    }

    /// With distinct keys, the position bearing a key is unique, so the
    /// chosen `key_index` is the position at hand.
    proof fn lemma_key_index_is(self, k: int)
        requires
            self.index_wf(),
            0 <= k < self.order@.len(),
        ensures
            key_index(self@, self.key_at(k)) == k,
    {
        assert(self@[k].0 == self.key_at(k));
        let i = key_index(self@, self.key_at(k));
        assert(self@[i].0 == self.key_at(i));
    }

    /// Index and view survive a promotion: moving the entry at position `k`
    /// to the front touches no key, no value and no index pair.
    proof fn lemma_promote_wf(pre: Self, post: Self, k: int)
        requires
            pre.index_wf(),
            0 <= k < pre.order@.len(),
            post.order@ == seq![pre.order@[k]] + pre.order@.remove(k),
            post.same_entries(pre),
            post.index@ == pre.index@,
            forall|j: int| 0 <= j < pre.order@.len() ==> 0 <= #[trigger] pre.order@[j]
                < pre.nodes@.len(),
        ensures
            post.index_wf(),
            post@ =~= seq![pre@[k]] + pre@.remove(k),
    {
        let s = pre.order@;
        let sp = post.order@;
        assert forall|j: int| 0 <= j < sp.len() implies #[trigger] post.key_at(j) == pre.key_at(
            Self::promote_src(s.len() as int, k, j),
        ) && sp[j] == s[Self::promote_src(s.len() as int, k, j)] by {
            if j == 0 {
                assert(sp[j] == s[k]);
            } else {
                assert(sp[j] == s.remove(k)[j - 1]);
            }
        }
        assert forall|j: int| 0 <= j < sp.len() implies post.index@.contains_pair(
            #[trigger] post.key_at(j),
            sp[j],
        ) by {
            let m = Self::promote_src(s.len() as int, k, j);
            assert(pre.index@.contains_pair(pre.key_at(m), s[m]));
        }
        assert forall|key: isize| #[trigger] post.index@.dom().contains(key) implies exists|j: int|
            0 <= j < sp.len() && #[trigger] post.key_at(j) == key by {
            let m = choose|m: int| 0 <= m < s.len() && #[trigger] pre.key_at(m) == key;
            let j = if m == k { 0int } else if m < k { m + 1 } else { m };
            assert(Self::promote_src(s.len() as int, k, j) == m);
            assert(post.key_at(j) == key);
        }
        assert forall|i: int, j: int|
            #![trigger post.key_at(i), post.key_at(j)]
            0 <= i < sp.len() && 0 <= j < sp.len() && i != j implies post.key_at(i)
            != post.key_at(j) by {
            let mi = Self::promote_src(s.len() as int, k, i);
            let mj = Self::promote_src(s.len() as int, k, j);
            assert(mi != mj);
        }
        assert forall|j: int| 0 <= j < sp.len() implies post@[j] == (seq![pre@[k]]
            + pre@.remove(k))[j] by {
            let m = Self::promote_src(s.len() as int, k, j);
            assert(post@[j] == (pre.nodes@[s[m] as int].key, pre.nodes@[s[m] as int].value));
        }
    }

    /// The position, before a promotion of position `k`, of the entry that
    /// stands at position `j` afterwards.
    spec fn promote_src(len: int, k: int, j: int) -> int {
        if j == 0 {
            k
        } else if j - 1 < k {
            j - 1
        } else {
            j
        }
    }

    /// Index and view after a fresh entry `(key, value)` in slot `h` is
    /// attached at the head and recorded in the index.
    proof fn lemma_extend_wf(mid: Self, post: Self, key: isize, value: isize, h: usize)
        requires
            mid.index_wf(),
            !mid.index@.dom().contains(key),
            post.order@ == seq![h] + mid.order@,
            post.index@ == mid.index@.insert(key, h),
            post.nodes@[h as int].key == key,
            post.nodes@[h as int].value == value,
            forall|j: int| 0 <= j < mid.order@.len() ==> #[trigger] mid.order@[j] != h,
            forall|j: int| 0 <= j < mid.order@.len() ==> (#[trigger] post.nodes@[mid.order@[j] as int]).key
                == mid.nodes@[mid.order@[j] as int].key && post.nodes@[mid.order@[j] as int].value
                == mid.nodes@[mid.order@[j] as int].value,
        ensures
            post.index_wf(),
            post@ =~= seq![(key, value)] + mid@,
    {
        let s = mid.order@;
        let sp = post.order@;
        assert forall|j: int| 1 <= j < sp.len() implies #[trigger] post.key_at(j) == mid.key_at(
            j - 1,
        ) && sp[j] == s[j - 1] by {
            assert(sp[j] == s[j - 1]);
        }
        assert(post.key_at(0) == key);
        assert forall|j: int| 0 <= j < sp.len() implies post.index@.contains_pair(
            #[trigger] post.key_at(j),
            sp[j],
        ) by {
            if j > 0 {
                assert(mid.index@.contains_pair(mid.key_at(j - 1), s[j - 1]));
            }
        }
        assert forall|k2: isize| #[trigger] post.index@.dom().contains(k2) implies exists|j: int|
            0 <= j < sp.len() && #[trigger] post.key_at(j) == k2 by {
            if k2 == key {
                assert(post.key_at(0) == k2);
            } else {
                let m = choose|m: int| 0 <= m < s.len() && #[trigger] mid.key_at(m) == k2;
                assert(post.key_at(m + 1) == k2);
            }
        }
        assert forall|i: int, j: int|
            #![trigger post.key_at(i), post.key_at(j)]
            0 <= i < sp.len() && 0 <= j < sp.len() && i != j implies post.key_at(i)
            != post.key_at(j) by {
            if i > 0 {
                assert(mid.index@.contains_pair(mid.key_at(i - 1), s[i - 1]));
            }
            if j > 0 {
                assert(mid.index@.contains_pair(mid.key_at(j - 1), s[j - 1]));
            }
        }
        assert forall|j: int| 0 <= j < sp.len() implies post@[j] == (seq![(key, value)]
            + mid@)[j] by {
            if j > 0 {
                assert(post@[j] == (
                    post.nodes@[s[j - 1] as int].key,
                    post.nodes@[s[j - 1] as int].value,
                ));
            }
        }
    }

    /// Index consistency carries over between states that share the order,
    /// the index and every live key.
    proof fn lemma_index_wf_same(a: Self, b: Self)
        requires
            a.index_wf(),
            b.order@ == a.order@,
            b.index@ == a.index@,
            forall|k: int| 0 <= k < a.order@.len() ==> #[trigger] b.key_at(k) == a.key_at(k),
        ensures
            b.index_wf(),
    {
        assert forall|k: int| 0 <= k < b.order@.len() implies b.index@.contains_pair(
            #[trigger] b.key_at(k),
            b.order@[k],
        ) by {
            assert(a.index@.contains_pair(a.key_at(k), a.order@[k]));
        }
        assert forall|key: isize| #[trigger] b.index@.dom().contains(key) implies exists|k: int|
            0 <= k < b.order@.len() && #[trigger] b.key_at(k) == key by {
            let m = choose|m: int| 0 <= m < a.order@.len() && #[trigger] a.key_at(m) == key;
            assert(b.key_at(m) == key);
        }
        assert forall|i: int, j: int|
            #![trigger b.key_at(i), b.key_at(j)]
            0 <= i < b.order@.len() && 0 <= j < b.order@.len() && i != j implies b.key_at(i)
            != b.key_at(j) by {
            assert(a.key_at(i) == b.key_at(i) && a.key_at(j) == b.key_at(j));
        }
    }

    /// Looks the key up in the index, handing back the live handle if any.
    fn lookup(&self, key: isize) -> (r: Option<usize>)
        ensures
            match r {
                Some(h) => self.index@.dom().contains(key) && self.index@[key] == h,
                None => !self.index@.dom().contains(key),
            },
    {
        match self.index.get(&key) {
            Some(h) => Some(*h),
            None => None,
        }
    }

    /// Reads the value stored under `key` and promotes that entry to
    /// most-recently-used; a miss returns nothing and changes nothing.
    /// The result is `Some` exactly when the key is live.  Note that a hit
    /// mutates the recency order: this read has a write side-effect.
    pub fn get(&mut self, key: isize) -> (r: Option<isize>)
        requires
            old(self).wf(),
        ensures
            final(self).wf(),
            final(self)@.len() == old(self)@.len(),
            final(self)@.len() <= N,
            !has_key(old(self)@, key) ==> r is None && final(self)@ == old(self)@,
            has_key(old(self)@, key) ==> {
                let i = key_index(old(self)@, key);
                &&& r == Some(old(self)@[i].1)
                &&& final(self)@ == seq![old(self)@[i]] + old(self)@.remove(i)
            },
    {
        proof {
            old(self).lemma_has_key_iff_indexed(key);
        }
        match self.lookup(key) {
            None => None,
            Some(h) => {
                let ghost k = self.pos_of_key(key);
                proof {
                    self.lemma_key_index_is(k);
                }
                let value = self.nodes[h].value;
                self.move_to_head(h, Ghost(k));
                proof {
                    Self::lemma_promote_wf(*old(self), *self, k);
                    assert(seq![old(self)@[k]] + old(self)@.remove(k) == final(self)@);
                }
                Some(value)
            },
        }
    }

    /// Splices a fresh entry in at the head of the recency list and records
    /// it in the index.  The caller answers for room and for a fresh key;
    /// `insert` is the public write path that does so in every case.
    pub fn append_head(&mut self, node: Node)
        requires
            old(self).wf(),
            !has_key(old(self)@, node.key),
            old(self)@.len() < N,
        ensures
            final(self).wf(),
            final(self)@ == seq![(node.key, node.value)] + old(self)@,
    {
        proof {
            old(self).lemma_has_key_iff_indexed(node.key);
        }
        let h = self.nodes.len();
        self.nodes.push(node);
        let ghost mid = *self;
        proof {
            assert forall|j: int| 0 <= j < mid.order@.len() implies #[trigger] mid.order@[j]
                != h by {}
            assert forall|j: int| 0 <= j < mid.order@.len() implies #[trigger] mid.key_at(j)
                == old(self).key_at(j) by {}
            assert(mid.link_wf());
            Self::lemma_index_wf_same(*old(self), mid);
        }
        self.attach_at_head(h);
        self.index.insert(node.key, h);
        proof {
            Self::lemma_extend_wf(mid, *self, node.key, node.value, h);
            assert(final(self)@ == seq![(node.key, node.value)] + old(self)@);
        }
    }

    /// Writes `value` under `key`.  An existing entry is updated in place
    /// and promoted, never changing the entry count; a fresh key is placed
    /// at the head, and when the cache is already full the entry next to the
    /// tail sentinel — the least-recently-used one — is evicted to make room.
    pub fn insert(&mut self, key: isize, value: isize)
        requires
            old(self).wf(),
        ensures
            final(self).wf(),
            final(self)@.len() <= N,
            1 <= final(self)@.len(),
            final(self)@[0] == (key, value),
            has_key(old(self)@, key) ==> final(self)@ == seq![(key, value)] + old(
                self,
            )@.remove(key_index(old(self)@, key)) && final(self)@.len() == old(self)@.len(),
            !has_key(old(self)@, key) && old(self)@.len() < N ==> final(self)@ == seq![(key, value)]
                + old(self)@,
            !has_key(old(self)@, key) && old(self)@.len() == N ==> final(self)@ == seq![
                (key, value),
            ] + old(self)@.drop_last(),
    {
        proof {
            old(self).lemma_has_key_iff_indexed(key);
        }
        match self.lookup(key) {
            Some(h) => {
                // The key is live: update the stored value in place, then
                // promote the entry.  No eviction check is needed.
                let ghost k = self.pos_of_key(key);
                proof {
                    self.lemma_key_index_is(k);
                }
                let mut nd = self.nodes[h];
                nd.value = value;
                self.nodes[h] = nd;
                let ghost mid = *self;
                proof {
                    assert forall|j: int| 0 <= j < mid.order@.len() implies #[trigger] mid.key_at(
                        j,
                    ) == old(self).key_at(j) by {}
                    assert(mid.link_wf());
                    Self::lemma_index_wf_same(*old(self), mid);
                    assert(mid@ =~= old(self)@.update(k, (key, value)));
                }
                self.move_to_head(h, Ghost(k));
                proof {
                    Self::lemma_promote_wf(mid, *self, k);
                    assert(final(self)@ =~= seq![(key, value)] + old(self)@.remove(k));
                }
            },
            None => {
                if self.nodes.len() - 2 < N {
                    self.append_head(Node::new(key, value));
                } else {
                    // At capacity: evict the victim next to the tail
                    // sentinel, then reuse its arena slot for the new entry.
                    let ghost s = old(self).order@;
                    let ghost last = s.len() - 1;
                    let victim = self.nodes[TAIL].prev;
                    proof {
                        assert(victim == s[last]);
                    }
                    let vkey = self.nodes[victim].key;
                    proof {
                        assert(vkey == old(self).key_at(last));
                        assert(old(self).index@.contains_pair(old(self).key_at(last), s[last]));
                    }
                    self.detach(victim, Ghost(last));
                    self.index.remove(&vkey);
                    self.nodes[victim] = Node::new(key, value);
                    let ghost mid = *self;
                    proof {
                        assert(mid.order@ == s.remove(last));
                        assert forall|j: int| 0 <= j < mid.order@.len() implies #[trigger] mid.order@[j]
                            != victim by {
                            assert(mid.order@[j] == s[j]);
                        }
                        assert forall|j: int| 0 <= j < mid.order@.len() implies mid.key_at(j) == old(
                            self,
                        ).key_at(j) by {
                            assert(mid.order@[j] == s[j]);
                        }
                        // The detached victim's links were overwritten, but it
                        // is no longer part of the chain.
                        assert(mid.link_wf());
                        assert(mid.index@ == old(self).index@.remove(vkey));
                        assert forall|j: int| 0 <= j < mid.order@.len() implies mid.index@.contains_pair(
                            #[trigger] mid.key_at(j),
                            mid.order@[j],
                        ) by {
                            assert(old(self).index@.contains_pair(old(self).key_at(j), s[j]));
                            assert(old(self).key_at(j) != vkey);
                        }
                        assert forall|k2: isize| #[trigger] mid.index@.dom().contains(k2) implies exists|
                            j: int,
                        |
                            0 <= j < mid.order@.len() && #[trigger] mid.key_at(j) == k2 by {
                            let m = choose|m: int|
                                0 <= m < s.len() && #[trigger] old(self).key_at(m) == k2;
                            assert(m != last);
                            assert(mid.key_at(m) == k2);
                        }
                        assert(mid.index_wf());
                        assert(!mid.index@.dom().contains(key));
                    }
                    self.attach_at_head(victim);
                    self.index.insert(key, victim);
                    proof {
                        Self::lemma_extend_wf(mid, *self, key, value, victim);
                        assert forall|j: int| 0 <= j < mid@.len() implies mid@[j] == old(
                            self,
                        )@.drop_last()[j] by {
                            assert(mid.order@[j] == s[j]);
                        }
                        assert(mid@ =~= old(self)@.drop_last());
                        assert(final(self)@ =~= seq![(key, value)] + old(self)@.drop_last());
                    }
                }
            },
        }
    }

    /// The key index and the recency list stay in one-to-one correspondence,
    /// so no key ever occurs twice among the live entries: any two distinct
    /// positions of the view bear distinct keys.
    pub proof fn lemma_keys_distinct(&self)
        requires
            self.wf(),
        ensures
            forall|i: int, j: int|
                #![trigger self@[i], self@[j]]
                0 <= i < self@.len() && 0 <= j < self@.len() && i != j ==> self@[i].0 != self@[j].0,
    {
        assert forall|i: int, j: int|
            #![trigger self@[i], self@[j]]
            0 <= i < self@.len() && 0 <= j < self@.len() && i != j implies self@[i].0
            != self@[j].0 by {
            assert(self@[i].0 == self.key_at(i) && self@[j].0 == self.key_at(j));
        }
    }

    /// Promotion is the only reordering the cache ever performs, and it
    /// keeps every other entry's relative recency: when the entry at
    /// position `i` moves to the front, the entries before it shift back
    /// by one and the entries after it keep their places, so walking the
    /// view front to back always descends in recency, consistent with the
    /// reads and writes observed so far.
    pub proof fn lemma_promotion_keeps_relative_order(s: Seq<(isize, isize)>, i: int)
        requires
            0 <= i < s.len(),
        ensures
            (seq![s[i]] + s.remove(i)).len() == s.len(),
            (seq![s[i]] + s.remove(i))[0] == s[i],
            forall|a: int| 0 <= a < i ==> (seq![s[i]] + s.remove(i))[a + 1] == s[a],
            forall|a: int| i < a < s.len() ==> (seq![s[i]] + s.remove(i))[a] == s[a],
    {
        assert forall|a: int| 0 <= a < i implies (seq![s[i]] + s.remove(i))[a + 1] == s[a] by {
            assert(s.remove(i)[a] == s[a]);
        }
        assert forall|a: int| i < a < s.len() implies (seq![s[i]] + s.remove(i))[a] == s[a] by {
            assert(s.remove(i)[a - 1] == s[a]);
        }
    }

    /// How many entries are live; never more than the capacity.
    pub fn len(&self) -> (n: usize)
        requires
            self.wf(),
        ensures
            n == self@.len(),
            n <= N,
    {
        self.nodes.len() - 2
    }
}

} // verus!
