//! An immutable, reference-counted, structurally shared singly linked list.
//!
//! Every constructor prepends: `cons` (and `append`, its method form) builds a
//! new list whose tail is shared with the old one, and the old list is never
//! changed.  The view of a list is the sequence of its elements, head first.

use std::rc::Rc;
use vstd::prelude::*;

verus! {

pub(crate) type Link<T> = Option<Rc<Node<T>>>;

#[derive(Debug)]
pub(crate) struct Node<T> {
    pub(crate) elm: T,
    pub(crate) next: Link<T>,
}

/// A persistent singly linked list; prepending shares the whole old list.
#[derive(Debug)]
pub struct List<T> {
    pub(crate) head: Link<T>,
}

/// Relies on `Option::take`, which moves the value out and cannot unwind.
#[verifier::external_body]
fn take_link<T>(l: &mut Link<T>) -> (r: Link<T>)
    ensures
        r == *old(l),
        *final(l) is None,
    opens_invariants none
    no_unwind
{
    l.take()
}

/// Relies on `Rc::try_unwrap`, which returns the contents when this was the
/// last owner and the untouched pointer otherwise, and cannot unwind.
#[verifier::external_body]
fn try_unwrap_node<T>(rc: Rc<Node<T>>) -> (r: Result<Node<T>, Rc<Node<T>>>)
    ensures
        match r {
            Ok(n) => n == *rc,
            Err(e) => e == rc,
        },
    opens_invariants none
    no_unwind
{
    Rc::try_unwrap(rc)
}

impl<T> Drop for List<T> {
    /// Frees the owned spine iteratively, so that dropping a long list
    /// cannot exhaust the call stack: each link is detached and released
    /// only while this list is its last owner.
    fn drop(&mut self)
        opens_invariants none
        no_unwind
    {
        let mut head: Link<T> = take_link(&mut self.head);
        loop
            decreases link_view(head).len(),
        {
            match head {
                None => {
                    return ;
                },
                Some(node) => {
                    match try_unwrap_node(node) {
                        Ok(mut inner) => {
                            head = take_link(&mut inner.next);
                        },
                        Err(_) => {
                            return ;
                        },
                    }
                },
            }
        }
    }
}

impl<T> Clone for List<T> {
    /// Cloning shares the cells, like `copy`.
    fn clone(&self) -> (r: Self)
        ensures
            r@ == self@,
    {
        List { head: clone_link(&self.head) }
    }
}

pub(crate) open spec fn node_view<T>(n: Node<T>) -> Seq<T>
    decreases n,
{
    seq![n.elm] + link_view(n.next)
}

pub(crate) open spec fn link_view<T>(l: Link<T>) -> Seq<T>
    decreases l,
{
    match l {
        None => Seq::empty(),
        Some(node) => node_view(*node),
    }
}

impl<T> View for List<T> {
    type V = Seq<T>;

    closed spec fn view(&self) -> Seq<T> {
        link_view(self.head)
    }
}

pub(crate) proof fn lemma_view_is_link_view<T>(l: &List<T>)
    ensures
        l@ == link_view(l.head),
{
}

/// Relies on `Rc::clone`: the returned pointer refers to the same node.
#[verifier::external_body]
fn rc_clone<T>(rc: &Rc<Node<T>>) -> (r: Rc<Node<T>>)
    ensures
        r == *rc,
{
    Rc::clone(rc)
}

fn clone_link<T>(l: &Link<T>) -> (r: Link<T>)
    ensures
        r == *l,
{
    match l {
        None => None,
        Some(rc) => Some(rc_clone(rc)),
    }
}

impl<T> List<T> {
    /// The empty list.
    pub fn new() -> (r: Self)
        ensures
            r@ == Seq::<T>::empty(),
    {
        List { head: None }
    }

    /// A one-element list.
    pub fn wrap(elem: T) -> (r: Self)
        ensures
            r@ == seq![elem],
    {
        let l = List { head: None };
        l.append(elem)
    }

    /// A new list with `elem` in front of `rest`; `rest` itself is shared, not copied.
    pub fn cons(elem: T, rest: &Self) -> (r: Self)
        ensures
            r@ == seq![elem] + rest@,
    {
        List { head: Some(Rc::new(Node { elm: elem, next: clone_link(&rest.head) })) }
    }

    /// Prepends `elem`, despite the name, leaving `self` untouched.
    pub fn append(&self, elem: T) -> (r: Self)
        ensures
            r@ == seq![elem] + self@,
    {
        List::cons(elem, self)
    }

    /// Another handle on the same cells.
    pub fn copy(&self) -> (r: Self)
        ensures
            r@ == self@,
    {
        List { head: clone_link(&self.head) }
    }

    /// The first element, if any.
    pub fn head(&self) -> (r: Option<&T>)
        ensures
            match r {
                Some(x) => self@.len() > 0 && *x == self@[0],
                None => self@.len() == 0,
            },
    {
        match &self.head {
            None => None,
            Some(node) => Some(&node.elm),
        }
    }

    /// Everything after the first element; the tail of an empty list is empty.
    pub fn tail(&self) -> (r: List<T>)
        ensures
            self@.len() == 0 ==> r@ == Seq::<T>::empty(),
            self@.len() > 0 ==> r@ == self@.drop_first(),
    {
        match &self.head {
            None => List { head: None },
            Some(node) => List { head: clone_link(&node.next) },
        }
    }

    /// The number of elements, saturating at `usize::MAX`.
    pub fn len(&self) -> (r: usize)
        ensures
            self@.len() <= usize::MAX ==> r == self@.len(),
            self@.len() > usize::MAX ==> r == usize::MAX,
    {
        let mut cur: &Link<T> = &self.head;
        let mut n: usize = 0;
        loop
            invariant
                n <= self@.len() - link_view(*cur).len(),
                self@.len() - link_view(*cur).len() <= n || n == usize::MAX,
            decreases link_view(*cur).len(),
        {
            match cur {
                None => {
                    return n;
                },
                Some(node) => {
                    if n == usize::MAX {
                        assert(link_view(*cur).len() >= 1);
                        return n;
                    }
                    n = n + 1;
                    cur = &node.next;
                },
            }
        }
    }

    /// The structurally last element: the one that was prepended first.
    pub fn tail_tip(&self) -> (r: Option<&T>)
        ensures
            match r {
                Some(x) => self@.len() > 0 && *x == self@.last(),
                None => self@.len() == 0,
            },
    {
        match &self.head {
            None => None,
            Some(first) => {
                let mut node: &Rc<Node<T>> = first;
                loop
                    invariant
                        self@.len() > 0,
                        node_view(**node).len() >= 1,
                        node_view(**node).last() == self@.last(),
                    decreases node_view(**node).len(),
                {
                    match &node.next {
                        None => {
                            return Some(&node.elm);
                        },
                        Some(next) => {
                            node = next;
                        },
                    }
                }
            },
        }
    }

    /// A cursor over the elements, head first.
    pub fn iter(&self) -> (r: Iter<'_, T>)
        ensures
            r@ == self@,
    {
        Iter { next: match &self.head { None => None, Some(node) => Some(&**node) } }
    }
}

/// A position in a list; `next` yields the remaining elements in order.
pub struct Iter<'a, T> {
    next: Option<&'a Node<T>>,
}

impl<'a, T> View for Iter<'a, T> {
    type V = Seq<T>;

    closed spec fn view(&self) -> Seq<T> {
        match self.next {
            None => Seq::empty(),
            Some(node) => node_view(*node),
        }
    }
}

impl<'a, T> Iter<'a, T> {
    /// The next remaining element, or `None` at the end.
    pub fn next(&mut self) -> (r: Option<&'a T>)
        ensures
            match r {
                Some(x) => old(self)@.len() > 0 && *x == old(self)@[0] && final(self)@ == old(
                    self,
                )@.drop_first(),
                None => old(self)@.len() == 0 && final(self)@ == old(self)@,
            },
    {
        match self.next {
            None => None,
            Some(node) => {
                let r = Some(&node.elm);
                self.next = match &node.next {
                    None => None,
                    Some(next) => Some(&**next),
                };
                r
            },
        }
    }
}

/// Structural sharing, stated over the model: prepending an element builds a
/// list whose first element is the new one and whose remainder is exactly the
/// old list, so the old list is observable, unchanged, as the tail of the new.
pub proof fn lemma_prepend_shares_tail<T>(l: Seq<T>, x: T)
    ensures
        (seq![x] + l).len() == l.len() + 1,
        (seq![x] + l)[0] == x,
        (seq![x] + l).drop_first() == l,
{
    assert((seq![x] + l).drop_first() =~= l);
}

} // verus!
