use vstd::prelude::*;

use crate::adapters::keep_fitting;
use crate::chunks::{chunks_of, lemma_split_index, lemma_split_index_zero, split_index};
use crate::size::{total_size, SizeInBytes};

verus! {

/// Every element of `s` fits within `budget` on its own.
pub open spec fn all_fit<T: SizeInBytes>(s: Seq<T>, budget: nat) -> bool {
    forall|i: int| 0 <= i < s.len() ==> #[trigger] s[i].spec_bytes_size() <= budget
}

proof fn lemma_flatten_cons<A>(a: Seq<A>, rest: Seq<Seq<A>>)
    ensures
        (seq![a] + rest).flatten() == a + rest.flatten(),
{
    let c = seq![a] + rest;
    assert(c.first() == a);
    assert(c.drop_first() =~= rest);
}

/// When every element fits within the budget, the chunks, joined in order,
/// give back the sequence exactly: nothing is dropped, repeated or moved.
pub proof fn lemma_chunks_partition<T: SizeInBytes>(s: Seq<T>, budget: nat)
    requires
        all_fit(s, budget),
    ensures
        chunks_of(s, budget).flatten() == s,
    decreases s.len(),
{
    if s.len() > 0 {
        lemma_split_index(s, budget);
        lemma_split_index_zero(s, budget);
        let n = split_index(s, budget) as int;
        let rest = s.skip(n);
        assert forall|i: int| 0 <= i < rest.len() implies #[trigger] rest[i].spec_bytes_size()
            <= budget by {
            assert(rest[i] == s[i + n]);
        }
        lemma_chunks_partition(rest, budget);
        lemma_flatten_cons(s.take(n), chunks_of(rest, budget));
        assert(s.take(n) + rest =~= s);
    } else {
        assert(s =~= Seq::<T>::empty());
    }
}

/// No chunk is empty, and the elements of each chunk add up to no more
/// than the budget.
pub proof fn lemma_chunks_within_budget<T: SizeInBytes>(s: Seq<T>, budget: nat)
    ensures
        forall|i: int|
            0 <= i < chunks_of(s, budget).len() ==> total_size(#[trigger] chunks_of(s, budget)[i])
                <= budget && chunks_of(s, budget)[i].len() > 0,
    decreases s.len(),
{
    if s.len() > 0 && split_index(s, budget) > 0 {
        lemma_split_index(s, budget);
        let n = split_index(s, budget) as int;
        lemma_chunks_within_budget(s.skip(n), budget);
        let c = chunks_of(s, budget);
        assert forall|i: int| 0 <= i < c.len() implies total_size(#[trigger] c[i]) <= budget
            && c[i].len() > 0 by {
            if i > 0 {
                assert(c[i] == chunks_of(s.skip(n), budget)[i - 1]);
            }
        }
    }
}

/// No chunk stops early: the first element of the chunk that follows it
/// would take it over the budget.
pub proof fn lemma_chunks_greedy<T: SizeInBytes>(s: Seq<T>, budget: nat)
    ensures
        forall|i: int|
            0 <= i < chunks_of(s, budget).len() - 1 ==> total_size(
                #[trigger] chunks_of(s, budget)[i].push(chunks_of(s, budget)[i + 1][0]),
            ) > budget,
    decreases s.len(),
{
    if s.len() > 0 && split_index(s, budget) > 0 {
        lemma_split_index(s, budget);
        let n = split_index(s, budget) as int;
        let rest = s.skip(n);
        lemma_chunks_greedy(rest, budget);
        lemma_chunks_within_budget(rest, budget);
        let c = chunks_of(s, budget);
        assert forall|i: int| 0 <= i < c.len() - 1 implies total_size(
            #[trigger] c[i].push(c[i + 1][0]),
        ) > budget by {
            let r = chunks_of(rest, budget);
            if i > 0 {
                assert(c[i] == r[i - 1]);
                assert(c[i + 1] == r[(i - 1) + 1]);
                assert(total_size(r[i - 1].push(r[(i - 1) + 1][0])) > budget);
            } else {
                assert(r.len() > 0);
                assert(total_size(r[0]) <= budget && r[0].len() > 0);
                lemma_split_index(rest, budget);
                assert(r[0] == rest.take(split_index(rest, budget) as int));
                assert(c[1][0] == s[n]);
                assert(c[0].push(c[1][0]) =~= s.take(n + 1));
            }
        }
    }
}

proof fn lemma_keep_fitting_all_fit<T: SizeInBytes>(s: Seq<T>, budget: nat)
    ensures
        all_fit(keep_fitting(s, budget), budget),
{
    let k = keep_fitting(s, budget);
    assert forall|i: int| 0 <= i < k.len() implies #[trigger] k[i].spec_bytes_size() <= budget by {
        s.lemma_filter_pred(|x: T| x.spec_bytes_size() <= budget, i);
    }
}

proof fn lemma_keep_fitting_unchanged<T: SizeInBytes>(s: Seq<T>, budget: nat)
    requires
        all_fit(s, budget),
    ensures
        keep_fitting(s, budget) == s,
    decreases s.len(),
{
    reveal_with_fuel(Seq::filter, 1);
    if s.len() > 0 {
        let t = s.drop_last();
        assert forall|i: int| 0 <= i < t.len() implies #[trigger] t[i].spec_bytes_size()
            <= budget by {
            assert(t[i] == s[i]);
        }
        lemma_keep_fitting_unchanged(t, budget);
        assert(t.push(s.last()) =~= s);
    } else {
        assert(s =~= Seq::<T>::empty());
    }
}

/// Dropping the elements that cannot fit leaves only elements that fit, so
/// the chunks of what is left join back into it; doing it a second time
/// changes neither the elements nor the chunks.
pub proof fn lemma_keep_fitting_idempotent<T: SizeInBytes>(s: Seq<T>, budget: nat)
    ensures
        all_fit(keep_fitting(s, budget), budget),
        chunks_of(keep_fitting(s, budget), budget).flatten() == keep_fitting(s, budget),
        keep_fitting(keep_fitting(s, budget), budget) == keep_fitting(s, budget),
        chunks_of(keep_fitting(keep_fitting(s, budget), budget), budget) == chunks_of(
            keep_fitting(s, budget),
            budget,
        ),
{
    lemma_keep_fitting_all_fit(s, budget);
    lemma_chunks_partition(keep_fitting(s, budget), budget);
    lemma_keep_fitting_unchanged(keep_fitting(s, budget), budget);
}

} // verus!
