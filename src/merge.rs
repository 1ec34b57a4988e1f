//! Joining the workers' outputs into one token sequence.

use vstd::prelude::*;
use vstd::multiset::Multiset;
use crate::error::PipelineError;
use vstd::seq_lib::{lemma_flatten_concat, lemma_multiset_commutative, to_multiset_build, to_multiset_len, to_multiset_remove, to_multiset_contains};

verus! {

/// The token sequences held by a vector of worker outputs.
pub open spec fn output_lists(outputs: Seq<Vec<String>>) -> Seq<Seq<String>> {
    outputs.map_values(|o: Vec<String>| o@)
}

/// The union, with multiplicity, of all outputs.
pub open spec fn combined<A>(outputs: Seq<Seq<A>>) -> Multiset<A>
    decreases outputs.len(),
{
    if outputs.len() == 0 {
        Multiset::empty()
    } else {
        combined(outputs.drop_last()).add(outputs.last().to_multiset())
    }
}

/// Concatenates the outputs in the order given.
pub fn merge_outputs(outputs: &Vec<Vec<String>>) -> (r: Vec<String>)
    ensures
        r@ == output_lists(outputs@).flatten(),
{
    let mut out: Vec<String> = Vec::new();
    for i in 0..outputs.len()
        invariant
            out@ == output_lists(outputs@).take(i as int).flatten(),
    {
        let part = &outputs[i];
        let ghost before = out@;
        for j in 0..part.len()
            invariant
                out@ == before + part@.take(j as int),
        {
            out.push(part[j].clone());
            assert(out@ =~= before + part@.take(j + 1));
        }
        proof {
            let lists = output_lists(outputs@);
            assert(lists.take(i + 1) =~= lists.take(i as int).push(part@));
            lists.take(i as int).lemma_flatten_push(part@);
            assert(part@.take(part@.len() as int) =~= part@);
        }
    }
    assert(output_lists(outputs@).take(outputs@.len() as int) =~= output_lists(outputs@));
    out
}

/// The outputs of the workers that finished; a failed worker counts as empty.
pub open spec fn finished_lists(results: Seq<Option<Vec<String>>>) -> Seq<Seq<String>> {
    results.map_values(|o: Option<Vec<String>>| match o {
        Some(v) => v@,
        None => Seq::empty(),
    })
}

/// Turns the workers' results, one per worker with `None` for a worker that failed, into
/// the run's merged output: a failure of any worker fails the run and nothing is returned.
pub fn collect_outputs(results: &Vec<Option<Vec<String>>>) -> (r: Result<Vec<String>, PipelineError>)
    ensures
        r is Err <==> exists|i: int| 0 <= i < results@.len() && (#[trigger] results@[i]) is None,
        r is Err ==> r == Err::<Vec<String>, PipelineError>(PipelineError::WorkerFailed),
        r is Ok ==> r->Ok_0@ == finished_lists(results@).flatten(),
{
    let mut out: Vec<String> = Vec::new();
    for i in 0..results.len()
        invariant
            forall|j: int| 0 <= j < i ==> (#[trigger] results@[j]) is Some,
            out@ == finished_lists(results@).take(i as int).flatten(),
    {
        match &results[i] {
            None => {
                return Err(PipelineError::WorkerFailed);
            },
            Some(part) => {
                let ghost before = out@;
                for j in 0..part.len()
                    invariant
                        out@ == before + part@.take(j as int),
                {
                    out.push(part[j].clone());
                    assert(out@ =~= before + part@.take(j + 1));
                }
                proof {
                    let lists = finished_lists(results@);
                    assert(lists[i as int] == part@);
                    assert(lists.take(i + 1) =~= lists.take(i as int).push(part@));
                    lists.take(i as int).lemma_flatten_push(part@);
                    assert(part@.take(part@.len() as int) =~= part@);
                }
            },
        }
    }
    assert(finished_lists(results@).take(results@.len() as int) =~= finished_lists(results@));
    Ok(out)
}

/// Merging keeps every token of every output, no more and no fewer: the merged
/// sequence holds, with multiplicity, the union of the outputs.
pub proof fn lemma_merge_multiset<A>(outputs: Seq<Seq<A>>)
    ensures
        outputs.flatten().to_multiset() == combined(outputs),
    decreases outputs.len(),
{
    if outputs.len() == 0 {
        broadcast use vstd::seq_lib::group_to_multiset_ensures;

        assert(outputs.flatten() =~= Seq::<A>::empty());
        assert(outputs.flatten().to_multiset() =~= Multiset::<A>::empty());
    } else {
        let init = outputs.drop_last();
        lemma_merge_multiset(init);
        assert(outputs =~= init.push(outputs.last()));
        init.lemma_flatten_push(outputs.last());
        lemma_multiset_commutative(init.flatten(), outputs.last());
    }
}

proof fn lemma_combined_remove<A>(outputs: Seq<Seq<A>>, j: int)
    requires
        0 <= j < outputs.len(),
    ensures
        combined(outputs) == combined(outputs.remove(j)).add(outputs[j].to_multiset()),
{
    let front = outputs.take(j);
    let back = outputs.skip(j + 1);
    assert(outputs =~= front + seq![outputs[j]] + back);
    assert(outputs.remove(j) =~= front + back);
    lemma_flatten_concat(front + seq![outputs[j]], back);
    lemma_flatten_concat(front, seq![outputs[j]]);
    lemma_flatten_concat(front, back);
    seq![outputs[j]].lemma_flatten_one_element();
    lemma_multiset_commutative(front.flatten() + outputs[j], back.flatten());
    lemma_multiset_commutative(front.flatten(), outputs[j]);
    lemma_multiset_commutative(front.flatten(), back.flatten());
    lemma_merge_multiset(outputs);
    lemma_merge_multiset(outputs.remove(j));
    assert(combined(outputs) =~= combined(outputs.remove(j)).add(outputs[j].to_multiset()));
}

/// The merged multiset does not depend on the order in which the outputs arrive: any
/// rearrangement of the same outputs merges to the same multiset of tokens.
pub proof fn lemma_merge_order_irrelevant<A>(a: Seq<Seq<A>>, b: Seq<Seq<A>>)
    requires
        a.to_multiset() == b.to_multiset(),
    ensures
        a.flatten().to_multiset() == b.flatten().to_multiset(),
    decreases a.len(),
{
    lemma_merge_multiset(a);
    lemma_merge_multiset(b);
    to_multiset_len(a);
    to_multiset_len(b);
    if a.len() == 0 {
        assert(b.len() == 0);
        assert(a =~= b);
    } else {
        let x = a.last();
        let init = a.drop_last();
        assert(a =~= init.push(x));
        to_multiset_build(init, x);
        to_multiset_contains(b, x);
        assert(b.to_multiset().count(x) > 0);
        assert(b.contains(x));
        let j = choose|j: int| 0 <= j < b.len() && b[j] == x;
        to_multiset_remove(b, j);
        assert(init.to_multiset() =~= b.remove(j).to_multiset());
        lemma_merge_order_irrelevant(init, b.remove(j));
        lemma_merge_multiset(init);
        lemma_merge_multiset(b.remove(j));
        lemma_combined_remove(b, j);
    }
}

} // verus!
