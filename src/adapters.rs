use vstd::prelude::*;

use crate::chunks::ByteChunks;
use crate::size::SizeInBytes;

verus! {

/// The elements of `s` that fit within `budget` on their own, in their order.
pub open spec fn keep_fitting<T: SizeInBytes>(s: Seq<T>, budget: nat) -> Seq<T> {
    s.filter(|x: T| x.spec_bytes_size() <= budget)
}

/// Removes, in place, every element that alone exceeds `budget`, keeping the
/// order of the others.
pub fn retain_fitting<T: SizeInBytes>(v: &mut Vec<T>, budget: usize)
    ensures
        final(v)@ == keep_fitting(old(v)@, budget as nat),
{
    let ghost orig = v@;
    let mut rev: Vec<T> = Vec::new();
    while v.len() > 0
        invariant
            rev@.len() + v@.len() == orig.len(),
            v@ == orig.take(v@.len() as int),
            forall|j: int| 0 <= j < rev@.len() ==> rev@[j] == orig[orig.len() - 1 - j],
        decreases v@.len(),
    {
        let ghost before = v@;
        match v.pop() {
            Some(x) => {
                assert(orig.take(v@.len() as int) =~= before.drop_last());
                rev.push(x);
            },
            None => {},
        }
    }
    proof {
        assert(orig.take(0) =~= Seq::<T>::empty());
    }
    while rev.len() > 0
        invariant
            rev@.len() <= orig.len(),
            v@ == keep_fitting(orig.take(orig.len() - rev@.len()), budget as nat),
            forall|j: int| 0 <= j < rev@.len() ==> rev@[j] == orig[orig.len() - 1 - j],
        decreases rev@.len(),
    {
        let ghost k = orig.len() - rev@.len();
        match rev.pop() {
            Some(x) => {
                assert(orig.take(k + 1).drop_last() =~= orig.take(k));
                assert(orig.take(k + 1).last() == x);
                reveal_with_fuel(Seq::filter, 1);
                if x.bytes_size() <= budget {
                    v.push(x);
                }
            },
            None => {},
        }
    }
    proof {
        assert(orig.take(orig.len() as int) =~= orig);
    }
}

/// Containers that can be read as a sequence of chunks.
pub trait ByteChunked<'a, T> {
    /// The elements, in order.
    spec fn items(&self) -> Seq<T>;

    /// Chunks over all elements; the container is left as it is.
    fn byte_chunks(&self, chunk_byte_size: usize) -> (r: ByteChunks<'_, T>)
        ensures
            r.remaining() == self.items(),
            r.budget() == chunk_byte_size,
    ;
}

/// Containers that first drop, in place, the elements that could never fit a
/// chunk, then are read as a sequence of chunks.
pub trait SafeByteChunkedMut<'a, T> {
    /// The elements, in order.
    spec fn items(&self) -> Seq<T>;

    /// The elements that fit within `budget` on their own, in order.
    spec fn items_fitting(&self, budget: nat) -> Seq<T>;

    fn byte_chunks_safe_mut(&mut self, chunk_byte_size: usize) -> (r: ByteChunks<'_, T>)
        ensures
            final(self).items() == old(self).items_fitting(chunk_byte_size as nat),
            r.remaining() == old(self).items_fitting(chunk_byte_size as nat),
            r.budget() == chunk_byte_size,
    ;
}

/// Containers that first drop the elements that could never fit a chunk, then
/// are read as a sequence of chunks.
pub trait SafeByteChunked<'a, T> {
    /// The elements, in order.
    spec fn items(&self) -> Seq<T>;

    /// The elements that fit within `budget` on their own, in order.
    spec fn items_fitting(&self, budget: nat) -> Seq<T>;

    fn byte_chunks_safe(&mut self, chunk_byte_size: usize) -> (r: ByteChunks<'_, T>)
        ensures
            final(self).items() == old(self).items_fitting(chunk_byte_size as nat),
            r.remaining() == old(self).items_fitting(chunk_byte_size as nat),
            r.budget() == chunk_byte_size,
    ;
}

impl<T> ByteChunked<'_, T> for [T] where T: SizeInBytes {
    open spec fn items(&self) -> Seq<T> {
        self@
    }

    fn byte_chunks(&self, chunk_byte_size: usize) -> (r: ByteChunks<'_, T>) {
        ByteChunks::new(self, chunk_byte_size)
    }
}

impl<T> ByteChunked<'_, T> for Vec<T> where T: SizeInBytes {
    open spec fn items(&self) -> Seq<T> {
        self@
    }

    fn byte_chunks(&self, chunk_byte_size: usize) -> (r: ByteChunks<'_, T>) {
        ByteChunks::new(self.as_slice(), chunk_byte_size)
    }
}

impl<T> SafeByteChunkedMut<'_, T> for Vec<T> where T: SizeInBytes {
    open spec fn items(&self) -> Seq<T> {
        self@
    }

    open spec fn items_fitting(&self, budget: nat) -> Seq<T> {
        keep_fitting(self@, budget)
    }

    fn byte_chunks_safe_mut(&mut self, chunk_byte_size: usize) -> (r: ByteChunks<'_, T>) {
        retain_fitting(self, chunk_byte_size);
        ByteChunks::new(self.as_slice(), chunk_byte_size)
    }
}

impl<T> SafeByteChunked<'_, T> for Vec<T> where T: SizeInBytes {
    open spec fn items(&self) -> Seq<T> {
        self@
    }

    open spec fn items_fitting(&self, budget: nat) -> Seq<T> {
        keep_fitting(self@, budget)
    }

    fn byte_chunks_safe(&mut self, chunk_byte_size: usize) -> (r: ByteChunks<'_, T>) {
        retain_fitting(self, chunk_byte_size);
        ByteChunks::new(self.as_slice(), chunk_byte_size)
    }
}

} // verus!
