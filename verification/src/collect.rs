//! Sorting the outcomes of independent jobs into what succeeded and what
//! failed, without changing their order.

use vstd::prelude::*;

verus! {

/// The values of the outcomes that succeeded, in their order.
pub open spec fn succeeded<T>(outcomes: Seq<Result<T, String>>) -> Seq<T>
    decreases outcomes.len(),
{
    if outcomes.len() == 0 {
        Seq::empty()
    } else {
        match outcomes.last() {
            Ok(value) => succeeded(outcomes.drop_last()).push(value),
            Err(_) => succeeded(outcomes.drop_last()),
        }
    }
}

/// The places and messages of the outcomes that failed, in their order.
pub open spec fn failed<T>(outcomes: Seq<Result<T, String>>) -> Seq<(usize, String)>
    decreases outcomes.len(),
{
    if outcomes.len() == 0 {
        Seq::empty()
    } else {
        match outcomes.last() {
            Ok(_) => failed(outcomes.drop_last()),
            Err(message) => failed(outcomes.drop_last()).push(
                ((outcomes.len() - 1) as usize, message),
            ),
        }
    }
}

/// Splits the outcomes of jobs into the values of those that succeeded and
/// the places and messages of those that failed, each in the order of the
/// jobs.
pub fn partition_results<T>(outcomes: Vec<Result<T, String>>) -> (r: (
    Vec<T>,
    Vec<(usize, String)>,
))
    ensures
        r.0@ == succeeded(outcomes@),
        r.1@ == failed(outcomes@),
{
    let ghost all = outcomes@;
    let count: usize = outcomes.len();
    let mut values: Vec<T> = Vec::new();
    let mut failures: Vec<(usize, String)> = Vec::new();
    let mut place: usize = 0;
    proof {
        assert(all.take(0) =~= Seq::<Result<T, String>>::empty());
    }
    for outcome in it: outcomes
        invariant
            it.seq() == all,
            all.len() == count,
            place == it.index(),
            values@ == succeeded(all.take(it.index() as int)),
            failures@ == failed(all.take(it.index() as int)),
    {
        proof {
            let n = it.index() as int;
            assert(all.take(n + 1).drop_last() =~= all.take(n));
            assert(all.take(n + 1).last() == all[n]);
        }
        match outcome {
            Ok(value) => {
                values.push(value);
            },
            Err(message) => {
                failures.push((place, message));
            },
        }
        place += 1;
    }
    proof {
        assert(all.take(all.len() as int) =~= all);
    }
    (values, failures)
}

} // verus!
