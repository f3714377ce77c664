use vstd::prelude::*;

use crate::size::{total_size, SizeInBytes};

verus! {

/// Adding elements never makes a prefix smaller.
pub proof fn lemma_total_size_monotone<T: SizeInBytes>(s: Seq<T>, i: int, j: int)
    requires
        0 <= i <= j <= s.len(),
    ensures
        total_size(s.take(i)) <= total_size(s.take(j)),
    decreases j - i,
{
    if i < j {
        assert(s.take(j).drop_last() =~= s.take(j - 1));
        lemma_total_size_monotone(s, i, j - 1);
    }
}

/// `n` leading elements of `s` fit within `budget`, and one more would not.
pub open spec fn is_greedy_split<T: SizeInBytes>(s: Seq<T>, budget: nat, n: nat) -> bool {
    &&& n <= s.len()
    &&& total_size(s.take(n as int)) <= budget
    &&& n < s.len() ==> total_size(s.take(n as int + 1)) > budget
}

/// The length of the longest prefix of `s` that fits within `budget`.
pub open spec fn split_index<T: SizeInBytes>(s: Seq<T>, budget: nat) -> nat {
    choose|n: nat| is_greedy_split(s, budget, n)
}

proof fn lemma_greedy_split_exists<T: SizeInBytes>(s: Seq<T>, budget: nat) -> (n: nat)
    ensures
        is_greedy_split(s, budget, n),
    decreases s.len(),
{
    assert(s.take(s.len() as int) =~= s);
    if s.len() == 0 || total_size(s) <= budget {
        s.len()
    } else {
        let t = s.drop_last();
        let m = lemma_greedy_split_exists(t, budget);
        assert(t.take(m as int) =~= s.take(m as int));
        if m < t.len() {
            assert(t.take(m as int + 1) =~= s.take(m as int + 1));
        }
        m
    }
}

/// The greedy split exists and is the only one.
pub proof fn lemma_split_index<T: SizeInBytes>(s: Seq<T>, budget: nat)
    ensures
        is_greedy_split(s, budget, split_index(s, budget)),
        forall|n: nat| is_greedy_split(s, budget, n) ==> n == split_index(s, budget),
{
    let w = lemma_greedy_split_exists(s, budget);
    let k = split_index(s, budget);
    assert forall|n: nat| is_greedy_split(s, budget, n) implies n == k by {
        if n < k {
            lemma_total_size_monotone(s, n as int + 1, k as int);
        } else if k < n {
            lemma_total_size_monotone(s, k as int + 1, n as int);
        }
    }
}

/// A non-empty sequence has an empty greedy prefix exactly when its first
/// element alone exceeds the budget.
pub proof fn lemma_split_index_zero<T: SizeInBytes>(s: Seq<T>, budget: nat)
    requires
        s.len() > 0,
    ensures
        split_index(s, budget) == 0 <==> s[0].spec_bytes_size() > budget,
{
    lemma_split_index(s, budget);
    assert(s.take(0) =~= Seq::<T>::empty());
    assert(s.take(1).drop_last() =~= s.take(0));
    let k = split_index(s, budget);
    if k > 0 {
        lemma_total_size_monotone(s, 1, k as int);
    }
}

#[via_fn]
proof fn chunks_of_decreases<T: SizeInBytes>(s: Seq<T>, budget: nat) {
    lemma_split_index(s, budget);
}

/// The chunks produced from `s`, in order, up to the end of `s` or up to an
/// element that alone exceeds `budget`, whichever comes first.
pub open spec fn chunks_of<T: SizeInBytes>(s: Seq<T>, budget: nat) -> Seq<Seq<T>>
    decreases s.len(),
    via chunks_of_decreases::<T>
{
    let n = split_index(s, budget);
    if s.len() == 0 || n == 0 {
        Seq::empty()
    } else {
        seq![s.take(n as int)] + chunks_of(s.skip(n as int), budget)
    }
}

/// Why a chunk sequence cannot be built or advanced.
#[derive(Debug, Clone, Copy, PartialEq, Eq, Structural)]
pub enum ChunkError {
    /// The next element alone exceeds the budget, so no chunk can hold it.
    ElementTooLarge,
    /// A budget of zero bytes was asked for.
    InvalidBudget,
}

/// A lazy sequence of chunks over a borrowed slice: each chunk is the longest
/// prefix of what is left whose total byte size fits within the budget.
pub struct ByteChunks<'a, T: 'a> {
    v: &'a [T],
    chunk_byte_size: usize,
}

impl<'a, T: 'a> ByteChunks<'a, T> {
    /// The elements not yet handed out.
    pub closed spec fn remaining(&self) -> Seq<T> {
        self.v@
    }

    /// The byte budget of every chunk.
    pub closed spec fn budget(&self) -> nat {
        self.chunk_byte_size as nat
    }
}

impl<'a, T: 'a> ByteChunks<'a, T> where T: SizeInBytes {
    pub fn new(slice: &'a [T], size: usize) -> (r: Self)
        ensures
            r.remaining() == slice@,
            r.budget() == size,
    {
        Self { v: slice, chunk_byte_size: size }
    }

    /// Like `new`, but refuses a budget of zero bytes.
    pub fn try_new(slice: &'a [T], size: usize) -> (r: Result<Self, ChunkError>)
        ensures
            size == 0 ==> r == Err::<Self, ChunkError>(ChunkError::InvalidBudget),
            size > 0 ==> (r matches Ok(c) && c.remaining() == slice@ && c.budget() == size),
    {
        if size == 0 {
            Err(ChunkError::InvalidBudget)
        } else {
            Ok(Self::new(slice, size))
        }
    }

    /// The number of leading elements that the next chunk holds: zero exactly
    /// when nothing is left or the first element alone exceeds the budget.
    pub fn next_split_index(&mut self) -> (r: usize)
        ensures
            *final(self) == *old(self),
            is_greedy_split(old(self).remaining(), old(self).budget(), r as nat),
            r == split_index(old(self).remaining(), old(self).budget()),
    {
        let budget = self.chunk_byte_size;
        let mut byte_count: usize = 0;
        let mut index: usize = 0;
        proof {
            assert(self.v@.take(0) =~= Seq::<T>::empty());
        }
        while index < self.v.len()
            invariant_except_break
                index <= self.v@.len(),
                byte_count as nat == total_size(self.v@.take(index as int)),
                byte_count <= budget,
            ensures
                is_greedy_split(self.v@, budget as nat, index as nat),
            decreases self.v@.len() - index,
        {
            let size_of_next = self.v[index].bytes_size();
            assert(self.v@.take(index + 1).drop_last() =~= self.v@.take(index as int));
            if size_of_next > budget - byte_count {
                break;
            }
            byte_count = byte_count + size_of_next;
            index = index + 1;
        }
        proof {
            assert(self.v@.take(self.v@.len() as int) =~= self.v@);
            lemma_split_index(self.v@, budget as nat);
        }
        index
    }

    /// Hands out the next chunk, reports the end of the sequence with
    /// `Ok(None)`, or reports `ElementTooLarge` when the first element left
    /// alone exceeds the budget; in the last two cases nothing changes.
    pub fn try_next(&mut self) -> (r: Result<Option<&'a [T]>, ChunkError>)
        ensures
            final(self).budget() == old(self).budget(),
            old(self).remaining().len() == 0 ==> r == Ok::<Option<&'a [T]>, ChunkError>(None)
                && *final(self) == *old(self),
            old(self).remaining().len() > 0 && old(self).remaining()[0].spec_bytes_size()
                > old(self).budget() ==> r == Err::<Option<&'a [T]>, ChunkError>(
                ChunkError::ElementTooLarge,
            ) && *final(self) == *old(self),
            old(self).remaining().len() > 0 && old(self).remaining()[0].spec_bytes_size()
                <= old(self).budget() ==> (r matches Ok(Some(c)) && {
                let n = split_index(old(self).remaining(), old(self).budget()) as int;
                &&& 0 < n <= old(self).remaining().len()
                &&& c@ == old(self).remaining().take(n)
                &&& final(self).remaining() == old(self).remaining().skip(n)
            }),
            r matches Ok(Some(c)) ==> chunks_of(old(self).remaining(), old(self).budget()) == seq![
                c@,
            ] + chunks_of(final(self).remaining(), old(self).budget()),
            r matches Ok(Some(c)) ==> c@ + final(self).remaining() == old(self).remaining(),
    {
        if self.v.len() == 0 {
            return Ok(None);
        }
        let chunksz = self.next_split_index();
        proof {
            lemma_split_index(self.v@, self.budget());
            lemma_split_index_zero(self.v@, self.budget());
        }
        if chunksz == 0 {
            return Err(ChunkError::ElementTooLarge);
        }
        let (fst, snd) = self.v.split_at(chunksz);
        self.v = snd;
        proof {
            assert(fst@ + snd@ =~= old(self).v@);
        }
        Ok(Some(fst))
    }

    /// Hands out the next chunk, or `None` once nothing is left. The first
    /// element left must fit within the budget on its own.
    pub fn next(&mut self) -> (r: Option<&'a [T]>)
        requires
            old(self).remaining().len() > 0 ==> old(self).remaining()[0].spec_bytes_size()
                <= old(self).budget(),
        ensures
            final(self).budget() == old(self).budget(),
            old(self).remaining().len() == 0 ==> r is None && *final(self) == *old(self),
            old(self).remaining().len() > 0 ==> (r matches Some(c) && {
                let n = split_index(old(self).remaining(), old(self).budget()) as int;
                &&& 0 < n <= old(self).remaining().len()
                &&& c@ == old(self).remaining().take(n)
                &&& final(self).remaining() == old(self).remaining().skip(n)
            }),
            r matches Some(c) ==> chunks_of(old(self).remaining(), old(self).budget()) == seq![c@]
                + chunks_of(final(self).remaining(), old(self).budget()),
    {
        match self.try_next() {
            Ok(c) => c,
            Err(_) => None,
        }
    }
}

} // verus!
