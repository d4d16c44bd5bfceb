//! Typed indices: a plain index bound to the element type it selects.
use vstd::prelude::*;

verus! {

/// A type that names the index type its collections are addressed with.
pub trait HasIndexer: Sized {
    /// The element type an index of this type's collections selects.
    type Data;
}

/// An index into a collection of `Data`.
#[derive(Debug)]
pub struct Indexer<Data> {
    inner: usize,
    _phantom: core::marker::PhantomData<Data>,
}

impl<Data> Indexer<Data> {
    /// What the index points at.
    pub closed spec fn idx(self) -> int {
        self.inner as int
    }

    pub fn new(value: usize) -> (r: Self)
        ensures
            r.idx() == value,
    {
        Indexer { inner: value, _phantom: core::marker::PhantomData }
    }

    pub fn inner(self) -> (r: usize)
        ensures
            r == self.idx(),
    {
        self.inner
    }

    /// The element this index selects.
    pub fn index<'a>(self, collection: &'a Vec<Data>) -> (r: &'a Data)
        requires
            0 <= self.idx() < collection@.len(),
        ensures
            *r == collection@[self.idx()],
    {
        &collection[self.inner]
    }

    /// Replaces the element this index selects.
    pub fn index_set(self, collection: &mut Vec<Data>, value: Data)
        requires
            0 <= self.idx() < old(collection)@.len(),
        ensures
            final(collection)@ == old(collection)@.update(self.idx(), value),
    {
        collection[self.inner] = value;
        proof {
            assert(collection@ =~= old(collection)@.update(self.idx(), value));
        }
    }

    /// The elements of `range.0 .. range.1`, copied out of the collection.
    pub fn index_range(range: (Self, Self), collection: &Vec<Data>) -> (r: Vec<Data>) where
        Data: Copy

        requires
            0 <= range.0.idx() <= range.1.idx() <= collection@.len(),
        ensures
            r@ == collection@.subrange(range.0.idx(), range.1.idx()),
    {
        let mut out: Vec<Data> = Vec::new();
        let mut i = range.0.inner;
        while i < range.1.inner
            invariant
                range.0.inner <= i <= range.1.inner,
                range.1.inner <= collection@.len(),
                out@ =~= collection@.subrange(range.0.inner as int, i as int),
            decreases range.1.inner - i,
        {
            out.push(collection[i]);
            proof {
                assert(out@ =~= collection@.subrange(range.0.inner as int, i + 1 as int));
            }
            i = i + 1;
        }
        out
    }
}

impl<Data> Clone for Indexer<Data> {
    fn clone(&self) -> (r: Self)
        ensures
            r.idx() == self.idx(),
    {
        Indexer { inner: self.inner, _phantom: core::marker::PhantomData }
    }
}

impl<Data> Copy for Indexer<Data> {

}

} // verus!
