//! A singly linked list that grows at its far end.

use vstd::prelude::*;

verus! {

/// One link of the chain: a value and an optional owned successor.
#[derive(Debug)]
pub struct Node<T> {
    pub value: T,
    pub next: Option<Box<Node<T>>>,
}

/// A non-empty singly linked list, addressed through its first node.
pub struct LinearLinkedList<T> {
    pub root: Node<T>,
}

/// The operations a linked chain offers.
pub trait LinkedFunc<T> {
    /// The values held, in chain order.
    spec fn items(&self) -> Seq<T>;

    /// Appends the item after the last node.
    fn insert(&mut self, item: T)
        ensures
            final(self).items() == old(self).items() + seq![item],
    ;
}

impl<T> Node<T> {
    /// The values from this node to the end of the chain.
    pub closed spec fn view(&self) -> Seq<T>
        decreases self,
    {
        match self.next {
            None => seq![self.value],
            Some(n) => seq![self.value] + n.view(),
        }
    }

    /// Walks to the last node and hangs the item behind it.
    fn push_end(&mut self, item: T)
        ensures
            final(self)@ == old(self)@ + seq![item],
        decreases *old(self),
    {
        match self.next.take() {
            None => {
                self.next = Some(Box::new(Node { value: item, next: None }));
                proof {
                    assert(old(self)@ == seq![old(self).value]);
                    assert(self@ == seq![self.value] + self.next.unwrap()@);
                    assert(self.next.unwrap()@ == seq![item]);
                    assert(self@ =~= old(self)@ + seq![item]);
                }
            },
            Some(mut boxed) => {
                (&mut *boxed).push_end(item);
                self.next = Some(boxed);
                proof {
                    assert(old(self)@ == seq![old(self).value] + old(self).next.unwrap()@);
                    assert(self@ == seq![self.value] + self.next.unwrap()@);
                    assert(self@ =~= old(self)@ + seq![item]);
                }
            },
        }
    }
}

impl<T> LinkedFunc<T> for LinearLinkedList<T> {
    open spec fn items(&self) -> Seq<T> {
        self.root@
    }

    fn insert(&mut self, item: T) {
        self.root.push_end(item);
    }
}

} // verus!
