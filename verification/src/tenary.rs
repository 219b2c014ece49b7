//! A ternary search tree of characters.
//!
//! Every node carries one character.  A word runs along middle children,
//! one character per level; characters that differ from a node's branch
//! off to its left (smaller) or right (larger) before continuing.

use crate::text::chars_of;
use vstd::prelude::*;

verus! {

/// One node: a character and its three optional subtrees.
#[derive(Debug)]
pub struct Node {
    pub value: char,
    pub left: Option<Box<Node>>,
    pub middle: Option<Box<Node>>,
    pub right: Option<Box<Node>>,
}

/// A subtree that spells exactly `w` along its middle children and
/// branches nowhere else.
pub open spec fn is_chain(n: Option<Box<Node>>, w: Seq<char>) -> bool
    decreases w.len(),
{
    if w.len() == 0 {
        n is None
    } else {
        &&& n is Some
        &&& n.unwrap().value == w[0]
        &&& n.unwrap().left is None
        &&& n.unwrap().right is None
        &&& is_chain(n.unwrap().middle, w.drop_first())
    }
}

/// How inserting the non-empty word `w` turns the subtree `pre` into
/// `post`: a fresh chain where nothing stood, a descent left or right on a
/// mismatching character, and one level down the middle per matching one.
pub open spec fn is_insert(pre: Option<Box<Node>>, post: Option<Box<Node>>, w: Seq<char>) -> bool
    decreases w.len(), pre,
{
    if w.len() == 0 {
        post == pre
    } else {
        match pre {
            None => is_chain(post, w),
            Some(n) => {
                &&& post is Some
                &&& ({
                    let p = post.unwrap();
                    if (w[0] as u32) < (n.value as u32) {
                        &&& p.value == n.value
                        &&& p.middle == n.middle
                        &&& p.right == n.right
                        &&& is_insert(n.left, p.left, w)
                    } else if (w[0] as u32) > (n.value as u32) {
                        &&& p.value == n.value
                        &&& p.left == n.left
                        &&& p.middle == n.middle
                        &&& is_insert(n.right, p.right, w)
                    } else {
                        &&& p.value == n.value
                        &&& p.left == n.left
                        &&& p.right == n.right
                        &&& is_insert(n.middle, p.middle, w.drop_first())
                    }
                })
            },
        }
    }
}

/// Whether the subtree spells out the word `w` along some path: smaller
/// characters branch left, larger ones right, and a match steps down the
/// middle to the next character.
pub open spec fn spells(n: Option<Box<Node>>, w: Seq<char>) -> bool
    decreases w.len(), n,
{
    &&& w.len() > 0
    &&& match n {
        None => false,
        Some(nd) => {
            if (w[0] as u32) < (nd.value as u32) {
                spells(nd.left, w)
            } else if (w[0] as u32) > (nd.value as u32) {
                spells(nd.right, w)
            } else {
                w.len() == 1 || spells(nd.middle, w.drop_first())
            }
        },
    }
}

/// A fresh middle chain spells its word.
proof fn lemma_chain_spells(n: Option<Box<Node>>, w: Seq<char>)
    requires
        w.len() > 0,
        is_chain(n, w),
    ensures
        spells(n, w),
    decreases w.len(),
{
    if w.len() > 1 {
        lemma_chain_spells(n.unwrap().middle, w.drop_first());
    }
}

/// Inserting a word makes it spelt: any tree that an insertion of the
/// non-empty `w` produced holds a path for `w`.
pub proof fn lemma_insert_spells(pre: Option<Box<Node>>, post: Option<Box<Node>>, w: Seq<char>)
    requires
        w.len() > 0,
        is_insert(pre, post, w),
    ensures
        spells(post, w),
    decreases w.len(), pre,
{
    match pre {
        None => {
            lemma_chain_spells(post, w);
        },
        Some(n) => {
            let p = post.unwrap();
            if (w[0] as u32) < (n.value as u32) {
                lemma_insert_spells(n.left, p.left, w);
            } else if (w[0] as u32) > (n.value as u32) {
                lemma_insert_spells(n.right, p.right, w);
            } else {
                if w.len() > 1 {
                    lemma_insert_spells(n.middle, p.middle, w.drop_first());
                }
            }
        },
    }
}

/// Builds the subtree that inserting `w@.skip(i)` prescribes.
fn insert_rec(n: Option<Box<Node>>, w: &Vec<char>, i: usize) -> (r: Option<Box<Node>>)
    requires
        i < w@.len(),
    ensures
        is_insert(n, r, w@.skip(i as int)),
    decreases w@.len() - i, n,
{
    let ghost tail = w@.skip(i as int);
    let len = w.len();
    match n {
        None => {
            let rest = if i + 1 < len {
                insert_rec(None, w, i + 1)
            } else {
                None
            };
            proof {
                assert(w@.skip(i as int + 1) =~= tail.drop_first());
                if i + 1 >= w@.len() {
                    assert(tail.drop_first().len() == 0);
                }
                assert(is_chain(rest, tail.drop_first()));
            }
            let out = Some(Box::new(Node { value: w[i], left: None, middle: rest, right: None }));
            proof {
                assert(is_chain(out, tail));
            }
            out
        },
        Some(mut b) => {
            let c = w[i];
            if (c as u32) < (b.value as u32) {
                let sub = b.left.take();
                b.left = insert_rec(sub, w, i);
                Some(b)
            } else if (c as u32) > (b.value as u32) {
                let sub = b.right.take();
                b.right = insert_rec(sub, w, i);
                Some(b)
            } else {
                if i + 1 < len {
                    let sub = b.middle.take();
                    b.middle = insert_rec(sub, w, i + 1);
                }
                proof {
                    assert(w@.skip(i as int + 1) =~= tail.drop_first());
                    if i + 1 >= w@.len() {
                        assert(tail.drop_first().len() == 0);
                        assert(is_insert(b.middle, b.middle, tail.drop_first()));
                    }
                }
                Some(b)
            }
        },
    }
}

/// A ternary search tree, addressed by its optional root.
pub struct TenaryTree {
    pub root: Option<Box<Node>>,
}

impl TenaryTree {
    /// An empty tree.
    pub fn new() -> (t: Self)
        ensures
            t.root is None,
    {
        TenaryTree { root: None }
    }

    /// Inserts a word character by character; the empty word changes
    /// nothing.
    pub fn insert(&mut self, word: &str)
        ensures
            word@.len() == 0 ==> final(self).root == old(self).root,
            word@.len() > 0 ==> is_insert(old(self).root, final(self).root, word@),
    {
        let w = chars_of(word);
        if w.len() == 0 {
            return ;
        }
        let root = self.root.take();
        self.root = insert_rec(root, &w, 0);
        proof {
            assert(w@.skip(0) =~= word@);
        }
    }
}

} // verus!
