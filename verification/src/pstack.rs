//! A persistent stack: pushing and popping give new stacks and leave the
//! old ones as they were, and the stacks share what they have in common.

use vstd::prelude::*;
use std::rc::Rc;

verus! {

/// An element, and the stack below it.
struct Node<T> {
    value: T,
    prev: Option<Rc<Node<T>>>,
}

/// The values from the node `top` down.
spec fn chain<T>(top: Option<Rc<Node<T>>>) -> Seq<T>
    decreases top,
{
    match top {
        None => Seq::empty(),
        Some(node) => seq![node.value] + chain(node.prev),
    }
}

/// `Rc::clone`: another pointer to the same allocation, so that what it
/// points to is what `rc` points to.
#[verifier::external_body]
fn share<T>(rc: &Rc<Node<T>>) -> (res: Rc<Node<T>>)
    ensures
        res == *rc,
{
    Rc::clone(rc)
}

/// A reference to an element that a stack holds.
pub struct PRef<T> {
    node: Rc<Node<T>>,
}

impl<T> View for PRef<T> {
    type V = T;

    /// The element referred to.
    closed spec fn view(&self) -> T {
        self.node.value
    }
}

impl<T> std::ops::Deref for PRef<T> {
    type Target = T;

    /// The element referred to.
    fn deref(&self) -> (res: &Self::Target)
        ensures
            *res == self@,
    {
        &self.node.value
    }
}

/// A persistent stack.
pub struct PStack<T> {
    top: Option<Rc<Node<T>>>,
    len: usize,
}

impl<T> View for PStack<T> {
    type V = Seq<T>;

    /// The elements of the stack, the top first.
    closed spec fn view(&self) -> Seq<T> {
        chain(self.top)
    }
}

impl<T> Default for PStack<T> {
    /// The empty stack.
    fn default() -> (res: Self)
        ensures
            res@ == Seq::<T>::empty(),
    {
        Self { top: None, len: 0 }
    }
}

impl<T> Clone for PStack<T> {
    /// A stack of the same elements, which shares them with this one.
    fn clone(&self) -> (res: Self)
        ensures
            res@ == self@,
    {
        proof {
            use_type_invariant(self);
        }
        Self {
            top: match &self.top {
                Some(node) => Some(share(node)),
                None => None,
            },
            len: self.len,
        }
    }
}

impl<T> PStack<T> {
    /// The stack records its length. This holds of every stack.
    #[verifier::type_invariant]
    closed spec fn wf(self) -> bool {
        self.len == chain(self.top).len()
    }

    /// The empty stack.
    pub fn new() -> (res: Self)
        ensures
            res@ == Seq::<T>::empty(),
    {
        Self::default()
    }

    /// The stack with `value` on top of this one.
    pub fn push(&self, value: T) -> (res: Self)
        requires
            self@.len() < usize::MAX,
        ensures
            res@ == seq![value] + self@,
    {
        proof {
            use_type_invariant(self);
        }
        let node = Rc::new(
            Node {
                prev: match &self.top {
                    Some(node) => Some(share(node)),
                    None => None,
                },
                value,
            },
        );
        Self { top: Some(node), len: self.len + 1 }
    }

    /// The top element and the stack below it.
    pub fn pop(&self) -> (res: Option<(PRef<T>, Self)>)
        ensures
            match res {
                Some((top, tail)) => self@.len() > 0 && top@ == self@[0] && tail@
                    == self@.drop_first(),
                None => self@.len() == 0,
            },
    {
        proof {
            use_type_invariant(self);
        }
        match &self.top {
            Some(rc) => {
                let node = share(rc);
                proof {
                    assert(self@.drop_first() =~= chain(node.prev));
                }
                let tail = Self {
                    top: match &node.prev {
                        Some(prev) => Some(share(prev)),
                        None => None,
                    },
                    len: self.len - 1,
                };
                Some((PRef { node }, tail))
            },
            None => None,
        }
    }

    /// The number of elements.
    pub fn len(&self) -> (res: usize)
        ensures
            res == self@.len(),
    {
        proof {
            use_type_invariant(self);
        }
        self.len
    }

    /// Whether the stack has no element.
    pub fn is_empty(&self) -> (res: bool)
        ensures
            res == (self@.len() == 0),
    {
        proof {
            use_type_invariant(self);
        }
        self.len == 0
    }

    /// A walk over the elements, from the top down.
    pub fn iter(&self) -> (res: PStackIterator<T>)
        ensures
            res@ == self@,
    {
        PStackIterator { stack: self.clone() }
    }
}

/// A walk over the elements of a stack, from the top down.
pub struct PStackIterator<T> {
    stack: PStack<T>,
}

impl<T> View for PStackIterator<T> {
    type V = Seq<T>;

    /// The elements that the walk has yet to give.
    closed spec fn view(&self) -> Seq<T> {
        self.stack@
    }
}

impl<T> PStackIterator<T> {
    /// The next element of the walk, if there is one.
    pub fn next(&mut self) -> (res: Option<PRef<T>>)
        ensures
            match res {
                Some(top) => old(self)@.len() > 0 && top@ == old(self)@[0] && final(self)@
                    == old(self)@.drop_first(),
                None => old(self)@.len() == 0 && final(self)@ == old(self)@,
            },
    {
        if let Some((top, tail)) = self.stack.pop() {
            self.stack = tail;
            return Some(top);
        }
        None
    }
}

} // verus!
