//! A buffer that is a vector or a double-ended queue, whichever its user
//! asks for, and holds the same items in the same order either way.

use vstd::prelude::*;
use std::collections::VecDeque;

verus! {

/// `VecDeque::from` on a `Vec`: the queue holds the items of the vector,
/// front to back in the vector's order.
#[verifier::external_body]
fn deque_from_vec<T>(items: Vec<T>) -> (r: VecDeque<T>)
    ensures
        r@ == items@,
{
    VecDeque::from(items)
}

/// `Vec::from` on a `VecDeque`: the vector holds the items of the queue,
/// in order from its front to its back.
#[verifier::external_body]
fn vec_from_deque<T>(items: VecDeque<T>) -> (r: Vec<T>)
    ensures
        r@ == items@,
{
    Vec::from(items)
}

/// The two forms of the buffer.
pub enum Inner<T> {
    Vec(Vec<T>),
    VecDeque(VecDeque<T>),
}

impl<T> View for Inner<T> {
    type V = Seq<T>;

    /// The items, oldest first.
    open spec fn view(&self) -> Seq<T> {
        match self {
            Inner::Vec(vec) => vec@,
            Inner::VecDeque(deque) => deque@,
        }
    }
}

impl<T> Inner<T> {
    /// The buffer as a queue, converted first where it was a vector.
    pub fn to_deque_mut(&mut self) -> (r: &mut VecDeque<T>)
        ensures
            r@ == old(self)@,
            *final(self) is VecDeque,
            final(self)@ == final(r)@,
    {
        if let Inner::Vec(vec) = self {
            let mut items: Vec<T> = Vec::new();
            core::mem::swap(vec, &mut items);
            *self = Inner::VecDeque(deque_from_vec(items));
        }
        match self {
            Inner::VecDeque(deque) => deque,
            Inner::Vec(_) => vstd::pervasive::unreached(),
        }
    }

    /// The buffer as a vector, converted first where it was a queue.
    pub fn to_vec_mut(&mut self) -> (r: &mut Vec<T>)
        ensures
            r@ == old(self)@,
            *final(self) is Vec,
            final(self)@ == final(r)@,
    {
        if let Inner::VecDeque(deque) = self {
            let mut items: VecDeque<T> = VecDeque::new();
            core::mem::swap(deque, &mut items);
            *self = Inner::Vec(vec_from_deque(items));
        }
        match self {
            Inner::Vec(vec) => vec,
            Inner::VecDeque(_) => vstd::pervasive::unreached(),
        }
    }
}

/// A buffer that converts between `Vec` and `VecDeque` on demand.
pub struct VecOrDeque<T> {
    inner: Inner<T>,
}

impl<T> View for VecOrDeque<T> {
    type V = Seq<T>;

    /// The items, oldest first.
    closed spec fn view(&self) -> Seq<T> {
        self.inner@
    }
}

impl<T> VecOrDeque<T> {
    /// An empty buffer.
    pub fn new() -> (r: Self)
        ensures
            r@ == Seq::<T>::empty(),
    {
        VecOrDeque { inner: Inner::VecDeque(VecDeque::new()) }
    }

    /// The buffer as a queue: it holds the items of the buffer, and what is
    /// done to it is done to the buffer.
    pub fn to_deque_mut(&mut self) -> (r: &mut VecDeque<T>)
        ensures
            r@ == old(self)@,
            final(self)@ == final(r)@,
    {
        self.inner.to_deque_mut()
    }

    /// The buffer as a vector: it holds the items of the buffer, and what is
    /// done to it is done to the buffer.
    pub fn to_vec_mut(&mut self) -> (r: &mut Vec<T>)
        ensures
            r@ == old(self)@,
            final(self)@ == final(r)@,
    {
        self.inner.to_vec_mut()
    }
}

impl<T> Default for VecOrDeque<T> {
    /// An empty buffer.
    fn default() -> (r: Self)
        ensures
            r@ == Seq::<T>::empty(),
    {
        VecOrDeque::new()
    }
}

impl<T> From<VecDeque<T>> for VecOrDeque<T> {
    /// A buffer that holds the items of the queue, in their order.
    fn from(from: VecDeque<T>) -> (r: Self)
        ensures
            r@ == from@,
    {
        VecOrDeque { inner: Inner::VecDeque(from) }
    }
}

impl<T> vstd::std_specs::convert::FromSpecImpl<VecDeque<T>> for VecOrDeque<T> {
    open spec fn obeys_from_spec() -> bool {
        true
    }

    closed spec fn from_spec(v: VecDeque<T>) -> Self {
        VecOrDeque { inner: Inner::VecDeque(v) }
    }
}

impl<T> From<Vec<T>> for VecOrDeque<T> {
    /// A buffer that holds the items of the vector, in their order.
    fn from(from: Vec<T>) -> (r: Self)
        ensures
            r@ == from@,
    {
        VecOrDeque { inner: Inner::Vec(from) }
    }
}

impl<T> vstd::std_specs::convert::FromSpecImpl<Vec<T>> for VecOrDeque<T> {
    open spec fn obeys_from_spec() -> bool {
        true
    }

    closed spec fn from_spec(v: Vec<T>) -> Self {
        VecOrDeque { inner: Inner::Vec(v) }
    }
}

} // verus!
