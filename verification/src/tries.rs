//! A prefix tree (trie) over characters.
//!
//! Each node carries one character, the children that continue longer
//! words, and a flag marking that some stored word ends here.  The roots
//! of the forest are the first characters of the stored words.

use crate::text::chars_of;
use crate::text::copied;
use crate::text::extended;
use crate::text::string_of;
use vstd::prelude::*;

verus! {

broadcast use vstd::std_specs::vec::group_vec_axioms;

/// One trie node: a character, its continuations, and the end-of-word mark.
#[derive(Debug, PartialEq, Eq, PartialOrd, Ord)]
pub struct Node {
    pub value: char,
    pub childs: Vec<Node>,
    pub is_end: bool,
}

impl Node {
    /// A node for `value` with no continuations yet.
    pub fn new(value: char) -> (n: Node)
        ensures
            n.value == value,
            n.childs@.len() == 0,
            !n.is_end,
    {
        Node { value, childs: Vec::new(), is_end: false }
    }

    /// The character this node carries.
    pub fn get_value(&self) -> (c: char)
        ensures
            c == self.value,
    {
        self.value
    }
}

/// The first position among `s` carrying the character, or -1.
pub open spec fn child_index(s: Seq<Node>, c: char) -> int
    decreases s.len(),
{
    if s.len() == 0 {
        -1
    } else if s[0].value == c {
        0
    } else {
        let r = child_index(s.drop_first(), c);
        if r == -1 {
            -1
        } else {
            r + 1
        }
    }
}

/// A first-match witness pins `child_index` down: if everything before `j`
/// misses `c` and `j` (when in range) carries it, then `j` is the first
/// match, and a full miss yields -1.
proof fn lemma_child_index(s: Seq<Node>, c: char, j: int)
    requires
        0 <= j <= s.len(),
        forall|m: int| 0 <= m < j ==> (#[trigger] s[m]).value != c,
        j < s.len() ==> s[j].value == c,
    ensures
        j < s.len() ==> child_index(s, c) == j,
        j == s.len() ==> child_index(s, c) == -1,
    decreases s.len(),
{
    if s.len() > 0 {
        if j > 0 {
            assert(s[0].value != c);
            lemma_child_index(s.drop_first(), c, j - 1);
            assert forall|m: int| 0 <= m < j - 1 implies (#[trigger] s.drop_first()[m]).value
                != c by {
                assert(s.drop_first()[m] == s[m + 1]);
            }
        }
    }
}

/// A chain of single children spelling exactly `w`, ending marked.
pub open spec fn is_word_chain(n: Node, w: Seq<char>) -> bool
    decreases w.len(),
{
    if w.len() == 0 {
        false
    } else if w.len() == 1 {
        n.value == w[0] && n.is_end && n.childs@.len() == 0
    } else {
        n.value == w[0] && !n.is_end && n.childs@.len() == 1 && is_word_chain(
            n.childs@[0],
            w.drop_first(),
        )
    }
}

/// How inserting the non-empty word `w` turns the forest `pre` into
/// `post`: the first node carrying `w`'s head is extended below (or marked
/// at the last character), and a missing head grows a fresh chain at the
/// end of the forest.
pub open spec fn is_insert_forest(pre: Seq<Node>, post: Seq<Node>, w: Seq<char>) -> bool
    decreases w.len(),
{
    if w.len() == 0 {
        post == pre
    } else {
        let j = child_index(pre, w[0]);
        if j == -1 {
            &&& post.len() == pre.len() + 1
            &&& post.subrange(0, pre.len() as int) == pre
            &&& is_word_chain(post.last(), w)
        } else {
            &&& post.len() == pre.len()
            &&& post == pre.update(j, post[j])
            &&& ({
                let n = pre[j];
                let p = post[j];
                &&& p.value == n.value
                &&& (if w.len() == 1 {
                    p.childs == n.childs && p.is_end
                } else {
                    p.is_end == n.is_end && is_insert_forest(n.childs@, p.childs@, w.drop_first())
                })
            })
        }
    }
}

/// Whether the forest stores the word `w`: its characters name a path of
/// first-matching children whose last node is marked.
pub open spec fn stores(s: Seq<Node>, w: Seq<char>) -> bool
    decreases w.len(),
{
    &&& w.len() > 0
    &&& ({
        let j = child_index(s, w[0]);
        &&& j != -1
        &&& (if w.len() == 1 {
            s[j].is_end
        } else {
            stores(s[j].childs@, w.drop_first())
        })
    })
}

/// `child_index` really is the first match: the found node carries the
/// character, everything before it does not, and -1 means nothing does.
proof fn lemma_child_index_found(s: Seq<Node>, c: char)
    ensures
        child_index(s, c) == -1 ==> forall|m: int| 0 <= m < s.len() ==> (#[trigger] s[m]).value
            != c,
        child_index(s, c) != -1 ==> 0 <= child_index(s, c) < s.len() && s[child_index(s, c)].value
            == c && forall|m: int| 0 <= m < child_index(s, c) ==> (#[trigger] s[m]).value != c,
    decreases s.len(),
{
    if s.len() > 0 && s[0].value != c {
        lemma_child_index_found(s.drop_first(), c);
        assert forall|m: int| 1 <= m < s.len() implies s.drop_first()[m - 1] == s[m] by {}
    }
}

/// A word chain stores exactly its word.
proof fn lemma_word_chain_stores(n: Node, w: Seq<char>)
    requires
        is_word_chain(n, w),
    ensures
        stores(seq![n], w),
    decreases w.len(),
{
    assert(child_index(seq![n], w[0]) == 0);
    if w.len() > 1 {
        lemma_word_chain_stores(n.childs@[0], w.drop_first());
        assert(n.childs@ =~= seq![n.childs@[0]]);
    }
}

/// Inserting a word makes it stored: any forest that an insertion of the
/// non-empty `w` produced holds `w`.
pub proof fn lemma_insert_stores(pre: Seq<Node>, post: Seq<Node>, w: Seq<char>)
    requires
        w.len() > 0,
        is_insert_forest(pre, post, w),
    ensures
        stores(post, w),
    decreases w.len(),
{
    lemma_child_index_found(pre, w[0]);
    let j = child_index(pre, w[0]);
    if j == -1 {
        lemma_word_chain_stores(post.last(), w);
        assert forall|m: int| 0 <= m < pre.len() implies (#[trigger] post[m]).value != w[0] by {
            assert(post.subrange(0, pre.len() as int)[m] == post[m]);
        }
        lemma_child_index(post, w[0], pre.len() as int);
        if w.len() > 1 {
            // The stored path runs wholly inside the appended chain.
            lemma_chain_path(post.last(), w);
        }
    } else {
        assert forall|m: int| 0 <= m < j implies (#[trigger] post[m]).value != w[0] by {
            assert(post[m] == pre[m]);
        }
        assert(post[j].value == w[0]);
        lemma_child_index(post, w[0], j);
        if w.len() > 1 {
            lemma_insert_stores(pre[j].childs@, post[j].childs@, w.drop_first());
        }
    }
}

/// Below a chain's head, the rest of the word is stored once the head is
/// reachable.
proof fn lemma_chain_path(n: Node, w: Seq<char>)
    requires
        is_word_chain(n, w),
        w.len() > 1,
    ensures
        stores(n.childs@, w.drop_first()),
    decreases w.len(),
{
    lemma_word_chain_stores(n.childs@[0], w.drop_first());
    assert(n.childs@ =~= seq![n.childs@[0]]);
}

/// A marked, childless node spells its own one-character word.
proof fn lemma_word_chain_leaf(n: Node, w: Seq<char>)
    requires
        w.len() == 1,
        n.value == w[0],
        n.is_end,
        n.childs@.len() == 0,
    ensures
        is_word_chain(n, w),
{
}

/// An unmarked node with one chain child prepends its character.
proof fn lemma_word_chain_step(n: Node, w: Seq<char>)
    requires
        w.len() >= 2,
        n.value == w[0],
        !n.is_end,
        n.childs@.len() == 1,
        is_word_chain(n.childs@[0], w.drop_first()),
    ensures
        is_word_chain(n, w),
{
}

/// The position of the first child carrying `c`, or the length when none
/// does.
fn find_child(nodes: &Vec<Node>, c: char) -> (j: usize)
    ensures
        j <= nodes@.len(),
        j < nodes@.len() ==> nodes@[j as int].value == c && child_index(nodes@, c) == j,
        j == nodes@.len() ==> child_index(nodes@, c) == -1,
{
    let mut j: usize = 0;
    while j < nodes.len()
        invariant
            j <= nodes@.len(),
            forall|m: int| 0 <= m < j ==> (#[trigger] nodes@[m]).value != c,
        decreases nodes@.len() - j,
    {
        if nodes[j].value == c {
            proof {
                lemma_child_index(nodes@, c, j as int);
            }
            return j;
        }
        j = j + 1;
    }
    proof {
        lemma_child_index(nodes@, c, j as int);
    }
    j
}

/// Builds the chain of nodes spelling `w@.skip(i)`.
fn make_chain(w: &Vec<char>, i: usize) -> (n: Node)
    requires
        i < w@.len(),
    ensures
        is_word_chain(n, w@.skip(i as int)),
    decreases w@.len() - i,
{
    let ghost tail = w@.skip(i as int);
    proof {
        assert(tail[0] == w@[i as int]);
    }
    let len = w.len();
    if i + 1 < len {
        let child = make_chain(w, i + 1);
        let ghost child0 = child;
        proof {
            assert(w@.skip(i as int + 1) =~= tail.drop_first());
        }
        let mut childs: Vec<Node> = Vec::new();
        childs.push(child);
        let n = Node { value: w[i], childs, is_end: false };
        proof {
            assert(n.childs@[0] == child0);
            lemma_word_chain_step(n, tail);
        }
        n
    } else {
        let n = Node { value: w[i], childs: Vec::new(), is_end: true };
        proof {
            lemma_word_chain_leaf(n, tail);
        }
        n
    }
}

/// Rebuilds the forest with `w@.skip(i)` inserted.
fn insert_forest(nodes: Vec<Node>, w: &Vec<char>, i: usize) -> (r: Vec<Node>)
    requires
        i < w@.len(),
    ensures
        is_insert_forest(nodes@, r@, w@.skip(i as int)),
    decreases w@.len() - i,
{
    let ghost pre = nodes@;
    let ghost tail = w@.skip(i as int);
    proof {
        assert(tail[0] == w@[i as int]);
    }
    let mut nodes = nodes;
    let len = w.len();
    let c = w[i];
    let j = find_child(&nodes, c);
    if j < nodes.len() {
        let mut node = nodes.remove(j);
        if i + 1 < len {
            let sub = node.childs;
            node.childs = insert_forest(sub, w, i + 1);
            proof {
                assert(w@.skip(i as int + 1) =~= tail.drop_first());
            }
        } else {
            node.is_end = true;
            proof {
                assert(is_insert_forest(node.childs@, node.childs@, tail.drop_first()));
            }
        }
        nodes.insert(j, node);
        proof {
            assert(nodes@ =~= pre.update(j as int, node));
        }
    } else {
        let node = make_chain(w, i);
        nodes.push(node);
        proof {
            assert(nodes@.subrange(0, pre.len() as int) =~= pre);
        }
    }
    nodes
}

/// The words stored below `n`, as full words built on the prefix `p`:
/// the continuations below each child first, then — when the node is
/// marked — the word ending right here.
pub open spec fn words_from(n: Node, p: Seq<char>) -> Seq<Seq<char>>
    decreases n,
{
    forest_from(n.childs@, p + seq![n.value]) + (if n.is_end {
        seq![p + seq![n.value]]
    } else {
        Seq::<Seq<char>>::empty()
    })
}

/// The words stored in the forest `s`, roots in order, built on `p`.
pub open spec fn forest_from(s: Seq<Node>, p: Seq<char>) -> Seq<Seq<char>>
    decreases s,
{
    if s.len() == 0 {
        Seq::empty()
    } else {
        words_from(s[0], p) + forest_from(s.drop_first(), p)
    }
}

/// The one-step equation of `words_from`, for use at call sites.
proof fn lemma_words_from_unfold(n: Node, p: Seq<char>)
    ensures
        words_from(n, p) == forest_from(n.childs@, p + seq![n.value]) + (if n.is_end {
            seq![p + seq![n.value]]
        } else {
            Seq::<Seq<char>>::empty()
        }),
{
}

/// An empty forest stores no words.
proof fn lemma_forest_from_nil(s: Seq<Node>, p: Seq<char>)
    requires
        s.len() == 0,
    ensures
        forest_from(s, p) == Seq::<Seq<char>>::empty(),
{
    assert(forest_from(s, p) =~= Seq::<Seq<char>>::empty());
}

/// Walking one more root of a forest appends that root's words.
proof fn lemma_forest_from_snoc(s: Seq<Node>, j: int, p: Seq<char>)
    requires
        0 <= j < s.len(),
    ensures
        forest_from(s.take(j + 1), p) =~= forest_from(s.take(j), p) + words_from(s[j], p),
    decreases j,
{
    if j == 0 {
        assert(s.take(1) =~= seq![s[0]]);
        assert(s.take(0) =~= Seq::<Node>::empty());
        assert(seq![s[0]].drop_first() =~= Seq::<Node>::empty());
        assert(forest_from(s.take(1), p) == words_from(s[0], p) + forest_from(
            Seq::<Node>::empty(),
            p,
        ));
        assert(forest_from(Seq::<Node>::empty(), p) =~= Seq::<Seq<char>>::empty());
    } else {
        lemma_forest_from_snoc(s.drop_first(), j - 1, p);
        assert(s.take(j + 1).drop_first() =~= s.drop_first().take(j));
        assert(s.take(j).drop_first() =~= s.drop_first().take(j - 1));
        assert(s.take(j + 1)[0] == s[0]);
        assert(s.take(j)[0] == s[0]);
        assert(s.drop_first()[j - 1] == s[j]);
    }
}

/// Collects the words below `node`, each built on `prefix`.
fn words_below(node: &Node, prefix: &Vec<char>) -> (r: Vec<Vec<char>>)
    ensures
        r.deep_view() == words_from(*node, prefix@),
    decreases *node,
{
    let p2 = extended(prefix, node.value);
    let mut out = forest_below(&node.childs, &p2);
    let ghost below = out.deep_view();
    if node.is_end {
        let ghost p2v = p2@;
        out.push(p2);
        proof {
            assert(out.deep_view() =~~= below + seq![p2v]);
        }
    }
    proof {
        lemma_words_from_unfold(*node, prefix@);
        assert(out.deep_view() =~~= words_from(*node, prefix@));
    }
    out
}

/// Collects the words of the whole forest, each built on `prefix`.
fn forest_below(nodes: &Vec<Node>, prefix: &Vec<char>) -> (r: Vec<Vec<char>>)
    ensures
        r.deep_view() == forest_from(nodes@, prefix@),
    decreases *nodes,
{
    let mut out: Vec<Vec<char>> = Vec::new();
    proof {
        lemma_forest_from_nil(nodes@.take(0), prefix@);
        assert(out.deep_view() =~= forest_from(nodes@.take(0), prefix@));
    }
    let mut j: usize = 0;
    while j < nodes.len()
        invariant
            j <= nodes@.len(),
            out.deep_view() == forest_from(nodes@.take(j as int), prefix@),
        decreases nodes@.len() - j,
    {
        let mut ws = words_below(&nodes[j], prefix);
        let ghost ws0 = ws.deep_view();
        let ghost out0 = out.deep_view();
        out.append(&mut ws);
        proof {
            assert(out.deep_view() =~= out0 + ws0);
            lemma_forest_from_snoc(nodes@, j as int, prefix@);
            assert(out.deep_view() =~= forest_from(nodes@.take(j as int + 1), prefix@));
        }
        j = j + 1;
    }
    proof {
        assert(nodes@.take(nodes@.len() as int) =~= nodes@);
    }
    out
}

/// The completions of the non-empty prefix `w` within the forest `s`, as
/// full words: nothing when the path breaks off, else — at the last
/// prefix character — the word itself when marked, followed by every
/// continuation below it.
pub open spec fn complete_at(s: Seq<Node>, w: Seq<char>, p: Seq<char>) -> Seq<Seq<char>>
    decreases w.len(),
{
    if w.len() == 0 {
        Seq::empty()
    } else {
        let j = child_index(s, w[0]);
        if j == -1 {
            Seq::empty()
        } else {
            let p2 = p + seq![w[0]];
            if w.len() == 1 {
                (if s[j].is_end {
                    seq![p2]
                } else {
                    Seq::<Seq<char>>::empty()
                }) + forest_from(s[j].childs@, p2)
            } else {
                complete_at(s[j].childs@, w.drop_first(), p2)
            }
        }
    }
}

/// The one-step equation of `complete_at`, for use at call sites.
proof fn lemma_complete_at_unfold(s: Seq<Node>, w: Seq<char>, p: Seq<char>)
    requires
        w.len() > 0,
    ensures
        complete_at(s, w, p) == ({
            let j = child_index(s, w[0]);
            if j == -1 {
                Seq::<Seq<char>>::empty()
            } else {
                let p2 = p + seq![w[0]];
                if w.len() == 1 {
                    (if s[j].is_end {
                        seq![p2]
                    } else {
                        Seq::<Seq<char>>::empty()
                    }) + forest_from(s[j].childs@, p2)
                } else {
                    complete_at(s[j].childs@, w.drop_first(), p2)
                }
            }
        }),
{
}

/// Collects the completions of `w@.skip(i)` in the forest, building words
/// on `prefix`.
fn complete_rec(nodes: &Vec<Node>, w: &Vec<char>, i: usize, prefix: &Vec<char>) -> (r: Vec<
    Vec<char>,
>)
    requires
        i < w@.len(),
    ensures
        r.deep_view() == complete_at(nodes@, w@.skip(i as int), prefix@),
    decreases w@.len() - i,
{
    let ghost tail = w@.skip(i as int);
    proof {
        assert(tail[0] == w@[i as int]);
        lemma_complete_at_unfold(nodes@, tail, prefix@);
    }
    let len = w.len();
    let j = find_child(nodes, w[i]);
    if j == nodes.len() {
        let r: Vec<Vec<char>> = Vec::new();
        proof {
            assert(r.deep_view() =~= complete_at(nodes@, tail, prefix@));
        }
        r
    } else {
        let p2 = extended(prefix, w[i]);
        if i + 1 < len {
            let r = complete_rec(&nodes[j].childs, w, i + 1, &p2);
            proof {
                assert(w@.skip(i as int + 1) =~= tail.drop_first());
            }
            r
        } else {
            let mut out: Vec<Vec<char>> = Vec::new();
            if nodes[j].is_end {
                out.push(copied(&p2));
            }
            let ghost exact = out.deep_view();
            proof {
                if nodes@[j as int].is_end {
                    assert(exact =~~= seq![prefix@ + seq![w@[i as int]]]);
                } else {
                    assert(exact =~~= Seq::<Seq<char>>::empty());
                }
            }
            let mut ws = forest_below(&nodes[j].childs, &p2);
            let ghost ws0 = ws.deep_view();
            out.append(&mut ws);
            proof {
                assert(out.deep_view() =~~= exact + ws0);
                assert(out.deep_view() =~~= complete_at(nodes@, tail, prefix@));
            }
            out
        }
    }
}

/// Turns character vectors into strings, in order.
fn strings_of(vs: &Vec<Vec<char>>) -> (r: Vec<String>)
    ensures
        r.deep_view() == vs.deep_view(),
{
    let mut r: Vec<String> = Vec::new();
    let mut k: usize = 0;
    while k < vs.len()
        invariant
            k <= vs@.len(),
            r@.len() == k,
            forall|m: int| 0 <= m < k ==> (#[trigger] r@[m])@ == vs@[m]@,
        decreases vs@.len() - k,
    {
        r.push(string_of(&vs[k]));
        k = k + 1;
    }
    proof {
        assert(r.deep_view() =~~= vs.deep_view());
    }
    r
}

/// A prefix tree, addressed by the forest of its first characters.
pub struct Trie {
    root: Vec<Node>,
}

impl Trie {
    /// The forest of root nodes.
    pub closed spec fn forest(self) -> Seq<Node> {
        self.root@
    }

    /// An empty trie.
    pub fn new() -> (t: Self)
        ensures
            t.forest().len() == 0,
    {
        Trie { root: Vec::new() }
    }

    /// Stores a non-empty word, sharing the path of every common prefix.
    pub fn insert(&mut self, word: &str)
        requires
            word@.len() > 0,
        ensures
            is_insert_forest(old(self).forest(), final(self).forest(), word@),
    {
        let w = chars_of(word);
        let mut root: Vec<Node> = Vec::new();
        std::mem::swap(&mut root, &mut self.root);
        self.root = insert_forest(root, &w, 0);
        proof {
            assert(w@.skip(0) =~= word@);
        }
    }

    /// The words stored below `node`, built on `prefix`, children first
    /// and the word ending at `node` last.
    pub fn traverse_tree(&self, node: &Node, prefix: &str) -> (r: Vec<String>)
        ensures
            r.deep_view() == words_from(*node, prefix@),
    {
        let p = chars_of(prefix);
        let ws = words_below(node, &p);
        strings_of(&ws)
    }

    /// Every stored word that the non-empty `word` is a prefix of: the
    /// word itself first when it is stored, then all longer ones.  When
    /// already the first character is unknown, the word alone comes back;
    /// when the path breaks off later, nothing does.
    pub fn auto_complete(&self, word: &str) -> (r: Vec<String>)
        requires
            word@.len() > 0,
        ensures
            child_index(self.forest(), word@[0]) == -1 ==> r.deep_view() == seq![word@],
            child_index(self.forest(), word@[0]) != -1 ==> r.deep_view() == complete_at(
                self.forest(),
                word@,
                Seq::<char>::empty(),
            ),
    {
        let w = chars_of(word);
        let j = find_child(&self.root, w[0]);
        if j == self.root.len() {
            let mut r: Vec<String> = Vec::new();
            r.push(word.to_owned());
            proof {
                assert(r.deep_view() =~~= seq![word@]);
            }
            r
        } else {
            let empty: Vec<char> = Vec::new();
            let cs = complete_rec(&self.root, &w, 0, &empty);
            proof {
                assert(w@.skip(0) =~= word@);
            }
            strings_of(&cs)
        }
    }
}

} // verus!
