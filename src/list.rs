//! A singly linked stack.
use vstd::prelude::*;

verus! {

pub struct Node<T> {
    elem: T,
    next: Option<Box<Node<T>>>,
}

/// A stack kept as a chain of boxed nodes; the head is the top.
pub struct List<T> {
    head: Option<Box<Node<T>>>,
}

/// The items of a chain, from its first node on.
pub closed spec fn chain<T>(link: Option<Box<Node<T>>>) -> Seq<T>
    decreases link,
{
    match link {
        None => Seq::empty(),
        Some(node) => seq![node.elem] + chain(node.next),
    }
}

impl<T> View for List<T> {
    type V = Seq<T>;

    /// The items, top first.
    closed spec fn view(&self) -> Seq<T> {
        chain(self.head)
    }
}

impl<T> List<T> {
    pub fn new() -> (r: List<T>)
        ensures
            r@ == Seq::<T>::empty(),
    {
        List { head: None }
    }

    /// Puts an item on top.
    pub fn push(&mut self, elem: T)
        ensures
            final(self)@ == seq![elem] + old(self)@,
    {
        let next = self.head.take();
        self.head = Some(Box::new(Node { elem, next }));
    }

    /// Removes and returns the top item.
    pub fn pop(&mut self) -> (r: Option<T>)
        ensures
            old(self)@.len() == 0 ==> r is None && final(self)@ == old(self)@,
            old(self)@.len() > 0 ==> r == Some(old(self)@[0]) && final(self)@
                == old(self)@.drop_first(),
    {
        match self.head.take() {
            None => None,
            Some(node) => {
                let Node { elem, next } = *node;
                self.head = next;
                assert(old(self)@.drop_first() =~= self@);
                Some(elem)
            },
        }
    }

    pub fn is_empty(&self) -> (r: bool)
        ensures
            r == (self@.len() == 0),
    {
        self.head.is_none()
    }

    /// Pops up to `n` items, top first.
    fn pop_up_to(&mut self, n: usize) -> (r: Vec<T>)
        ensures
            r@.len() == if n < old(self)@.len() {
                n as int
            } else {
                old(self)@.len() as int
            },
            r@ + final(self)@ == old(self)@,
    {
        let ghost all = self@;
        let mut above: Vec<T> = Vec::new();
        while above.len() < n && !self.is_empty()
            invariant
                above@.len() <= n,
                above@ + self@ == all,
            decreases n - above@.len(),
        {
            match self.pop() {
                Some(x) => {
                    above.push(x);
                    assert(above@ + self@ =~= all);
                },
                None => {},
            }
        }
        proof {
            if above@.len() < n {
                assert(self@.len() == 0);
            }
        }
        above
    }

    /// Pushes back items popped by `pop_up_to`, so that the first of them
    /// ends on top.
    fn push_back_all(&mut self, above: Vec<T>)
        ensures
            final(self)@ == above@ + old(self)@,
    {
        let mut above = above;
        let ghost target = above@ + self@;
        while above.len() > 0
            invariant
                above@ + self@ == target,
            decreases above@.len(),
        {
            match above.pop() {
                Some(x) => {
                    self.push(x);
                    assert(above@ + self@ =~= target);
                },
                None => {},
            }
        }
        assert(self@ =~= target);
    }

    /// Removes and returns the item at position `n` from the top (0 is the
    /// top); `None`, with the list unchanged, if there are not that many.
    pub fn popn(&mut self, n: usize) -> (r: Option<T>)
        ensures
            n < old(self)@.len() ==> r == Some(old(self)@[n as int]) && final(self)@ == old(
                self,
            )@.remove(n as int),
            n >= old(self)@.len() ==> r is None && final(self)@ == old(self)@,
    {
        let ghost all = self@;
        let above = self.pop_up_to(n);
        let r = if above.len() == n {
            self.pop()
        } else {
            None
        };
        let ghost rest = self@;
        self.push_back_all(above);
        proof {
            if n < all.len() {
                assert(all =~= above@ + seq![all[n as int]] + rest);
                assert(all.remove(n as int) =~= above@ + rest);
            } else {
                assert(all =~= above@ + rest);
            }
        }
        r
    }

    /// The top item, if any.
    pub fn peek(&self) -> (r: Option<&T>)
        ensures
            self@.len() == 0 ==> r is None,
            self@.len() > 0 ==> r == Some(&self@[0]),
    {
        match &self.head {
            Some(node) => Some(&node.elem),
            None => None,
        }
    }

    /// Moves the top `n` items (all of them if fewer) into a new list, in
    /// the same order.
    pub fn take(&mut self, n: usize) -> (r: List<T>)
        ensures
            r@ == old(self)@.take(if n < old(self)@.len() {
                n as int
            } else {
                old(self)@.len() as int
            }),
            r@ + final(self)@ == old(self)@,
    {
        let taken = self.pop_up_to(n);
        let mut out = List::new();
        out.push_back_all(taken);
        proof {
            let all = old(self)@;
            let k = if n < all.len() {
                n as int
            } else {
                all.len() as int
            };
            assert(all.take(k) =~= out@);
        }
        out
    }
}

} // verus!
