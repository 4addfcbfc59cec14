//! Handles into the arenas of the MIR graph.
//!
//! The graph keeps its nodes in arenas (one per kind of node); a handle is the index of a slot.
//! A [Link] is a handle the holder keeps alive; a [BackLink] is a handle that may outlive the
//! slot it names (the slot may have been dropped), and is checked against the graph on use.
use vstd::prelude::*;
use std::marker::PhantomData;

verus! {

/// A strong handle on a value of type `T` held in an arena of the graph: its slot index.
#[derive(Debug)]
pub struct Link<T> {
    pub ptr: usize,
    pub _marker: PhantomData<T>,
}

impl<T> Clone for Link<T> {
    fn clone(&self) -> (r: Self)
        ensures
            r == *self,
    {
        Link { ptr: self.ptr, _marker: PhantomData }
    }
}

impl<T> Copy for Link<T> {}

impl<T> Link<T> {
    /// The handle on slot `ptr`.
    pub fn new(ptr: usize) -> (r: Self)
        ensures
            r.ptr == ptr,
    {
        Link { ptr, _marker: PhantomData }
    }

    /// The slot index this handle names.
    pub fn get_ptr(&self) -> (r: usize)
        ensures
            r == self.ptr,
    {
        self.ptr
    }

    /// The weak handle on the same slot.
    pub fn downgrade(&self) -> (r: BackLink<T>)
        ensures
            r.ptr == self.ptr,
    {
        BackLink { ptr: self.ptr, _marker: PhantomData }
    }
}

/// A weak handle on a value of type `T` held in an arena of the graph.
#[derive(Debug)]
pub struct BackLink<T> {
    pub ptr: usize,
    pub _marker: PhantomData<T>,
}

impl<T> Clone for BackLink<T> {
    fn clone(&self) -> (r: Self)
        ensures
            r == *self,
    {
        BackLink { ptr: self.ptr, _marker: PhantomData }
    }
}

impl<T> Copy for BackLink<T> {}

impl<T> BackLink<T> {
    /// The weak handle on slot `ptr`.
    pub fn new(ptr: usize) -> (r: Self)
        ensures
            r.ptr == ptr,
    {
        BackLink { ptr, _marker: PhantomData }
    }
}

/// A value that exists at most once per node and is created on first use.
#[derive(Debug)]
pub struct Singleton<T>(pub Option<Link<T>>);

impl<T> Clone for Singleton<T> {
    fn clone(&self) -> (r: Self)
        ensures
            r == *self,
    {
        match self.0 {
            Some(l) => Singleton(Some(l)),
            None => Singleton(None),
        }
    }
}

impl<T> Copy for Singleton<T> {}

impl<T> Singleton<T> {
    pub fn none() -> (r: Self)
        ensures
            r.0 is None,
    {
        Singleton(None)
    }
}

/// Apply a getter to a borrowed value: the part it finds, if it finds one.
pub fn get_inner<'a, T, U>(obj: &'a T, getter: impl Fn(&'a T) -> Option<&'a U>) -> (r: Option<&'a U>)
    requires
        getter.requires((obj,)),
    ensures
        getter.ensures((obj,), r),
{
    getter(obj)
}

/// Apply a mutable getter to a mutably borrowed value: the part it finds, if it finds one.
pub fn get_inner_mut<'a, T, U>(
    obj: &'a mut T,
    getter: impl Fn(&'a mut T) -> Option<&'a mut U>,
) -> (r: Option<&'a mut U>)
    requires
        forall|x: &'a mut T| #[trigger] getter.requires((x,)),
    ensures
        exists|x: &'a mut T| *x == *old(obj) && #[trigger] getter.ensures((x,), r),
{
    getter(obj)
}

} // verus!