//! An unbalanced binary search tree over machine integers.

use vstd::prelude::*;

verus! {

/// One tree node: a value and its optional subtrees.
pub struct Node {
    pub value: i64,
    pub left: Option<Box<Node>>,
    pub right: Option<Box<Node>>,
}

/// The values held below an optional node.
pub open spec fn sub_elems(n: Option<Box<Node>>) -> Set<i64>
    decreases n,
{
    match n {
        None => Set::empty(),
        Some(b) => b.elems(),
    }
}

/// The search-tree ordering below an optional node.
pub open spec fn sub_ordered(n: Option<Box<Node>>) -> bool
    decreases n,
{
    match n {
        None => true,
        Some(b) => b.ordered(),
    }
}

/// The values below an optional node, left to right.
pub open spec fn in_order(n: Option<Box<Node>>) -> Seq<i64>
    decreases n,
{
    match n {
        None => Seq::empty(),
        Some(b) => in_order(b.left) + seq![b.value] + in_order(b.right),
    }
}

impl Node {
    /// The values held in this subtree.
    pub open spec fn elems(self) -> Set<i64>
        decreases self,
    {
        sub_elems(self.left).union(sub_elems(self.right)).insert(self.value)
    }

    /// Everything to the left is smaller, everything to the right larger,
    /// recursively.
    pub open spec fn ordered(self) -> bool
        decreases self,
    {
        &&& (forall|x: i64| sub_elems(self.left).contains(x) ==> x < self.value)
        &&& (forall|x: i64| sub_elems(self.right).contains(x) ==> x > self.value)
        &&& sub_ordered(self.left)
        &&& sub_ordered(self.right)
    }
}

/// A binary search tree holding a set of values.
pub struct BinaryTree {
    root: Option<Box<Node>>,
}

impl View for BinaryTree {
    type V = Set<i64>;

    /// The set of values the tree holds.
    closed spec fn view(&self) -> Set<i64> {
        sub_elems(self.root)
    }
}

/// Grows the subtree with `value`; a duplicate leaves it unchanged.
fn insert_sub(n: &mut Option<Box<Node>>, value: i64)
    requires
        sub_ordered(*old(n)),
    ensures
        sub_ordered(*final(n)),
        sub_elems(*final(n)) =~= sub_elems(*old(n)).insert(value),
    decreases *old(n),
{
    match n.take() {
        None => {
            *n = Some(Box::new(Node { value, left: None, right: None }));
        },
        Some(mut b) => {
            if value < b.value {
                insert_sub(&mut b.left, value);
            } else if value > b.value {
                insert_sub(&mut b.right, value);
            }
            *n = Some(b);
        },
    }
}

/// Whether the subtree holds `value`, found by comparing downwards.
fn search_sub(n: &Option<Box<Node>>, value: i64) -> (r: bool)
    requires
        sub_ordered(*n),
    ensures
        r == sub_elems(*n).contains(value),
    decreases *n,
{
    match n {
        None => false,
        Some(b) => {
            if value == b.value {
                true
            } else if value < b.value {
                proof {
                    assert(!sub_elems(b.right).contains(value));
                }
                search_sub(&b.left, value)
            } else {
                proof {
                    assert(!sub_elems(b.left).contains(value));
                }
                search_sub(&b.right, value)
            }
        },
    }
}

/// Unhooks the largest value of a non-empty subtree and hands it back.
fn remove_max(n: &mut Option<Box<Node>>) -> (m: i64)
    requires
        old(n).is_some(),
        sub_ordered(*old(n)),
    ensures
        sub_ordered(*final(n)),
        sub_elems(*old(n)).contains(m),
        forall|x: i64| sub_elems(*old(n)).contains(x) ==> x <= m,
        sub_elems(*final(n)) =~= sub_elems(*old(n)).remove(m),
    decreases *old(n),
{
    let mut b = n.take().unwrap();
    match b.right {
        None => {
            let m = b.value;
            proof {
                assert(sub_elems(b.right) =~= Set::<i64>::empty());
                assert(!sub_elems(b.left).contains(m));
                assert(b.elems() =~= sub_elems(b.left).insert(m));
            }
            *n = b.left;
            m
        },
        Some(_) => {
            let m = remove_max(&mut b.right);
            proof {
                assert(!sub_elems(b.left).contains(m));
                assert(b.value != m);
            }
            *n = Some(b);
            m
        },
    }
}

/// Removes `value` from the subtree; reports whether it was there.
fn delete_sub(n: &mut Option<Box<Node>>, value: i64) -> (r: bool)
    requires
        sub_ordered(*old(n)),
    ensures
        sub_ordered(*final(n)),
        sub_elems(*final(n)) =~= sub_elems(*old(n)).remove(value),
        r == sub_elems(*old(n)).contains(value),
    decreases *old(n),
{
    match n.take() {
        None => false,
        Some(mut b) => {
            if value < b.value {
                proof {
                    assert(!sub_elems(b.right).contains(value));
                }
                let r = delete_sub(&mut b.left, value);
                *n = Some(b);
                r
            } else if value > b.value {
                proof {
                    assert(!sub_elems(b.left).contains(value));
                }
                let r = delete_sub(&mut b.right, value);
                *n = Some(b);
                r
            } else {
                // This is the node to drop.  A childless or one-child node
                // is replaced by what is under it; with two children, the
                // largest value of the left subtree takes its place.
                proof {
                    assert(!sub_elems(b.left).contains(value));
                    assert(!sub_elems(b.right).contains(value));
                }
                if b.left.is_none() {
                    *n = b.right;
                } else if b.right.is_none() {
                    *n = b.left;
                } else {
                    let m = remove_max(&mut b.left);
                    b.value = m;
                    *n = Some(b);
                }
                true
            }
        },
    }
}

/// The node carrying `value`, found by comparing downwards.
fn find_sub(n: &Option<Box<Node>>, value: i64) -> (r: Option<&Node>)
    requires
        sub_ordered(*n),
    ensures
        match r {
            Some(found) => sub_elems(*n).contains(value) && found.value == value
                && found.ordered(),
            None => !sub_elems(*n).contains(value),
        },
    decreases *n,
{
    match n {
        None => None,
        Some(b) => {
            if value == b.value {
                Some(&**b)
            } else if value < b.value {
                proof {
                    assert(!sub_elems(b.right).contains(value));
                }
                find_sub(&b.left, value)
            } else {
                proof {
                    assert(!sub_elems(b.left).contains(value));
                }
                find_sub(&b.right, value)
            }
        },
    }
}

/// The smallest value of the subtree, down its left spine.
fn min_sub(n: &Node) -> (m: i64)
    requires
        n.ordered(),
    ensures
        n.elems().contains(m),
        forall|x: i64| n.elems().contains(x) ==> m <= x,
    decreases *n,
{
    proof {
        assert(n.elems() == sub_elems(n.left).union(sub_elems(n.right)).insert(n.value));
    }
    match &n.left {
        None => {
            proof {
                assert(sub_elems(n.left) =~= Set::<i64>::empty());
            }
            n.value
        },
        Some(l) => {
            let m = min_sub(&**l);
            proof {
                assert(sub_elems(n.left) == l.elems());
                assert(sub_elems(n.left).contains(m));
            }
            m
        },
    }
}

/// The largest value of the subtree, down its right spine.
fn max_sub(n: &Node) -> (m: i64)
    requires
        n.ordered(),
    ensures
        n.elems().contains(m),
        forall|x: i64| n.elems().contains(x) ==> m >= x,
    decreases *n,
{
    proof {
        assert(n.elems() == sub_elems(n.left).union(sub_elems(n.right)).insert(n.value));
    }
    match &n.right {
        None => {
            proof {
                assert(sub_elems(n.right) =~= Set::<i64>::empty());
            }
            n.value
        },
        Some(r) => {
            let m = max_sub(&**r);
            proof {
                assert(sub_elems(n.right) == r.elems());
                assert(sub_elems(n.right).contains(m));
            }
            m
        },
    }
}

/// Appends the subtree's values, left to right.
fn traverse_sub(n: &Option<Box<Node>>, collector: &mut Vec<i64>)
    ensures
        final(collector)@ == old(collector)@ + in_order(*n),
    decreases *n,
{
    match n {
        None => {
            proof {
                assert(collector@ =~= collector@ + in_order(*n));
            }
        },
        Some(b) => {
            traverse_sub(&b.left, collector);
            collector.push(b.value);
            traverse_sub(&b.right, collector);
            proof {
                assert(final(collector)@ =~= old(collector)@ + in_order(*n));
            }
        },
    }
}

/// In an ordered subtree the left-to-right walk is strictly ascending and
/// passes exactly the values held.
proof fn lemma_in_order_props(n: Option<Box<Node>>)
    requires
        sub_ordered(n),
    ensures
        forall|i: int| 0 <= i < in_order(n).len() ==> sub_elems(n).contains(
            #[trigger] in_order(n)[i],
        ),
        forall|x: i64| sub_elems(n).contains(x) ==> in_order(n).contains(x),
        forall|i: int, j: int| 0 <= i < j < in_order(n).len() ==> in_order(n)[i] < in_order(n)[j],
    decreases n,
{
    match n {
        None => {},
        Some(b) => {
            lemma_in_order_props(b.left);
            lemma_in_order_props(b.right);
            let l = in_order(b.left);
            let r = in_order(b.right);
            let s = in_order(n);
            assert(s == l + seq![b.value] + r);
            assert(sub_elems(n) == b.elems());
            assert(b.elems() == sub_elems(b.left).union(sub_elems(b.right)).insert(b.value));
            assert forall|i: int| 0 <= i < s.len() implies sub_elems(n).contains(
                #[trigger] s[i],
            ) by {
                if i < l.len() {
                    assert(s[i] == l[i]);
                } else if i == l.len() {
                    assert(s[i] == b.value);
                } else {
                    assert(s[i] == r[i - l.len() - 1]);
                }
            }
            assert forall|x: i64| sub_elems(n).contains(x) implies s.contains(x) by {
                if sub_elems(b.left).contains(x) {
                    let i = choose|i: int| 0 <= i < l.len() && l[i] == x;
                    assert(s[i] == x);
                } else if x == b.value {
                    assert(s[l.len() as int] == x);
                } else {
                    let i = choose|i: int| 0 <= i < r.len() && r[i] == x;
                    assert(s[l.len() + 1 + i] == x);
                }
            }
            assert forall|i: int, j: int| 0 <= i < j < s.len() implies s[i] < s[j] by {
                if i < l.len() {
                    assert(s[i] == l[i] && sub_elems(b.left).contains(l[i]));
                } else if i > l.len() {
                    assert(s[i] == r[i - l.len() - 1] && sub_elems(b.right).contains(
                        r[i - l.len() - 1],
                    ));
                }
                if j < l.len() {
                    assert(s[j] == l[j] && sub_elems(b.left).contains(l[j]));
                } else if j > l.len() {
                    assert(s[j] == r[j - l.len() - 1] && sub_elems(b.right).contains(
                        r[j - l.len() - 1],
                    ));
                }
            }
        },
    }
}

impl BinaryTree {
    /// Whether the tree keeps the search ordering everywhere.
    pub closed spec fn wf(self) -> bool {
        sub_ordered(self.root)
    }

    /// The tree's values, smallest to largest.
    pub closed spec fn in_order(self) -> Seq<i64> {
        in_order(self.root)
    }

    /// A tree holding just the given root value.
    pub fn new(value: i64) -> (t: Self)
        ensures
            t.wf(),
            t@ == Set::empty().insert(value),
    {
        let b = Box::new(Node { value, left: None, right: None });
        proof {
            assert(b.ordered());
            assert(b.elems() =~= Set::empty().insert(value));
        }
        let t = BinaryTree { root: Some(b) };
        t
    }

    /// Adds a value; a duplicate changes nothing.
    pub fn insert(&mut self, value: i64)
        requires
            old(self).wf(),
        ensures
            final(self).wf(),
            final(self)@ == old(self)@.insert(value),
    {
        insert_sub(&mut self.root, value);
    }

    /// Whether the tree holds the value.
    pub fn search(&self, value: i64) -> (r: bool)
        requires
            self.wf(),
        ensures
            r == self@.contains(value),
    {
        search_sub(&self.root, value)
    }

    /// The node carrying `value`, when the tree holds it.
    pub fn find(&self, value: i64) -> (r: Option<&Node>)
        requires
            self.wf(),
        ensures
            match r {
                Some(found) => self@.contains(value) && found.value == value,
                None => !self@.contains(value),
            },
    {
        find_sub(&self.root, value)
    }

    /// The smallest value the tree holds, if any.
    pub fn min(&self) -> (r: Option<i64>)
        requires
            self.wf(),
        ensures
            match r {
                Some(m) => self@.contains(m) && forall|x: i64| self@.contains(x) ==> m <= x,
                None => self@ == Set::<i64>::empty(),
            },
    {
        match &self.root {
            None => {
                proof {
                    assert(self@ =~= Set::<i64>::empty());
                }
                None
            },
            Some(b) => Some(min_sub(&**b)),
        }
    }

    /// The largest value the tree holds, if any.
    pub fn max(&self) -> (r: Option<i64>)
        requires
            self.wf(),
        ensures
            match r {
                Some(m) => self@.contains(m) && forall|x: i64| self@.contains(x) ==> m >= x,
                None => self@ == Set::<i64>::empty(),
            },
    {
        match &self.root {
            None => {
                proof {
                    assert(self@ =~= Set::<i64>::empty());
                }
                None
            },
            Some(b) => Some(max_sub(&**b)),
        }
    }

    /// Removes a value if present; reports whether it was there.
    pub fn delete(&mut self, value: i64) -> (r: bool)
        requires
            old(self).wf(),
        ensures
            final(self).wf(),
            final(self)@ == old(self)@.remove(value),
            r == old(self)@.contains(value),
    {
        delete_sub(&mut self.root, value)
    }

    /// Walking the tree left to right is strictly ascending and touches
    /// exactly the values the tree holds: what `traverse` appends is the
    /// sorted listing of the view, each value once.
    pub proof fn lemma_in_order_sorted(self)
        requires
            self.wf(),
        ensures
            forall|i: int, j: int| 0 <= i < j < self.in_order().len() ==> self.in_order()[i]
                < self.in_order()[j],
            forall|i: int| 0 <= i < self.in_order().len() ==> self@.contains(
                #[trigger] self.in_order()[i],
            ),
            forall|x: i64| self@.contains(x) ==> self.in_order().contains(x),
    {
        lemma_in_order_props(self.root);
    }

    /// Appends the values in ascending order to the collector.
    pub fn traverse(&self, collector: &mut Vec<i64>)
        ensures
            final(collector)@ == old(collector)@ + self.in_order(),
    {
        traverse_sub(&self.root, collector)
    }
}

} // verus!
