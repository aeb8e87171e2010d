use std::marker::PhantomData;
use vstd::prelude::*;

verus! {

/// A typed index into an [`Arena`].
#[derive(Debug)]
pub struct Id<T>(pub usize, pub PhantomData<T>);

impl<T> Clone for Id<T> {
    fn clone(&self) -> (res: Self)
        ensures
            res == *self,
    {
        Id(self.0, PhantomData)
    }
}

impl<T> Copy for Id<T> {}

impl<T> Id<T> {
    pub fn from_index(index: usize) -> (res: Id<T>)
        ensures
            res.0 == index,
    {
        Id(index, PhantomData)
    }
}

pub trait Indexer {
    fn index(&self) -> usize;
}

impl<T> Indexer for Id<T> {
    fn index(&self) -> (res: usize)
        ensures
            res == self.0,
    {
        self.0
    }
}

/// Append-only storage that hands out typed indices.
#[derive(Debug)]
pub struct Arena<T>(Vec<T>);

impl<T> View for Arena<T> {
    type V = Seq<T>;

    closed spec fn view(&self) -> Seq<T> {
        self.0@
    }
}

impl<T> Arena<T> {
    /// An arena never holds more than `usize::MAX` items.
    pub proof fn lemma_len_bound(&self)
        ensures
            self@.len() <= usize::MAX,
    {
        assert(self.0@.len() == self.0.len());
    }

    pub fn new() -> (res: Self)
        ensures
            res@ == Seq::<T>::empty(),
    {
        Arena(Vec::new())
    }

    pub fn allocate(&mut self, t: T) -> (id: Id<T>)
        ensures
            final(self)@ == old(self)@.push(t),
            id.0 == old(self)@.len(),
    {
        let id = Id(self.0.len(), PhantomData);
        self.0.push(t);
        id
    }

    pub fn len(&self) -> (res: usize)
        ensures
            res == self@.len(),
    {
        self.0.len()
    }

    /// The item behind `id`.
    pub fn get(&self, id: Id<T>) -> (res: &T)
        requires
            id.0 < self@.len(),
        ensures
            *res == self@[id.0 as int],
    {
        &self.0[id.0]
    }

    /// Every item of the arena with its id, in allocation order.
    pub fn iter(&self) -> (res: Vec<(Id<T>, &T)>)
        ensures
            res@.len() == self@.len(),
            forall|i: int| 0 <= i < res@.len() ==> (#[trigger] res@[i]).0.0 == i && *res@[i].1 == self@[i],
    {
        let mut res: Vec<(Id<T>, &T)> = Vec::new();
        let mut i: usize = 0;
        while i < self.0.len()
            invariant
                i <= self@.len(),
                res@.len() == i,
                forall|k: int| 0 <= k < i ==> (#[trigger] res@[k]).0.0 == k && *res@[k].1 == self@[k],
            decreases self@.len() - i,
        {
            res.push((Id(i, PhantomData), &self.0[i]));
            i = i + 1;
        }
        res
    }
}

}
