//! Sorting integers and dropping repeated ones.

use vstd::prelude::*;

verus! {

/// `values` is in increasing order and holds nothing twice.
pub open spec fn strictly_increasing(values: Seq<u64>) -> bool {
    forall|i: int, j: int| 0 <= i < j < values.len() ==> values[i] < values[j]
}

/// `values` is in non-decreasing order.
pub open spec fn non_decreasing(values: Seq<u64>) -> bool {
    forall|i: int, j: int| 0 <= i <= j < values.len() ==> values[i] <= values[j]
}

/// Sorts `values` with the standard library's `slice::sort_unstable`, whose documentation
/// promises the same elements in non-decreasing order.
#[verifier::external_body]
pub(crate) fn sort_unstable(values: &mut Vec<u64>)
    ensures
        final(values)@.to_multiset() == old(values)@.to_multiset(),
        non_decreasing(final(values)@),
{
    values.sort_unstable();
}

/// The distinct elements of `values` in increasing order.
pub(crate) fn sorted_distinct(values: Vec<u64>) -> (distinct: Vec<u64>)
    ensures
        strictly_increasing(distinct@),
        distinct@.to_set() == values@.to_set(),
{
    let mut sorted: Vec<u64> = values;
    sort_unstable(&mut sorted);
    proof {
        broadcast use vstd::seq_lib::group_to_multiset_ensures;

        assert(sorted@.to_set() =~= values@.to_set()) by {
            assert forall|x: u64| sorted@.contains(x) <==> values@.contains(x) by {
                assert(sorted@.contains(x) <==> sorted@.to_multiset().count(x) > 0);
                assert(values@.contains(x) <==> values@.to_multiset().count(x) > 0);
            }
        }
    }
    let mut distinct: Vec<u64> = Vec::new();
    let mut next: usize = 0;
    while next < sorted.len()
        invariant
            next <= sorted@.len(),
            strictly_increasing(distinct@),
            distinct@.to_set() == sorted@.take(next as int).to_set(),
            next > 0 ==> distinct@.len() > 0 && distinct@.last() == sorted@[next - 1],
            next == 0 ==> distinct@.len() == 0,
            non_decreasing(sorted@),
        decreases sorted@.len() - next,
    {
        let value: u64 = sorted[next];
        let ghost seen = sorted@.take(next as int);
        let ghost before = distinct@;
        let repeated: bool = next > 0 && sorted[next - 1] == value;
        assert(sorted@.take(next + 1) =~= seen.push(value));
        if repeated {
            assert(seen.push(value).to_set() =~= seen.to_set()) by {
                assert(seen[next - 1] == value);
                assert forall|x: u64| seen.push(value).contains(x) implies seen.contains(x) by {
                    let k = choose|k: int| 0 <= k < seen.push(value).len() && seen.push(value)[k] == x;
                    if k < seen.len() {
                        assert(seen[k] == x);
                    }
                }
                assert forall|x: u64| seen.contains(x) implies seen.push(value).contains(x) by {
                    let k = choose|k: int| 0 <= k < seen.len() && seen[k] == x;
                    assert(seen.push(value)[k] == x);
                }
            }
        } else {
            distinct.push(value);
            proof {
                assert forall|i: int| 0 <= i < before.len() implies before[i] < value by {
                    assert(before[i] <= before.last());
                }
                lemma_push_to_set(seen, value);
                lemma_push_to_set(before, value);
            }
        }
        next = next + 1;
    }
    assert(sorted@.take(sorted@.len() as int) =~= sorted@);
    distinct
}

/// Appending an element inserts it into the set of elements.
pub(crate) proof fn lemma_push_to_set<T>(values: Seq<T>, value: T)
    ensures
        values.push(value).to_set() == values.to_set().insert(value),
{
    let pushed = values.push(value);
    assert forall|x: T| pushed.to_set().contains(x) <==> values.to_set().insert(value).contains(
        x,
    ) by {
        if pushed.contains(x) {
            let k = choose|k: int| 0 <= k < pushed.len() && pushed[k] == x;
            if k < values.len() {
                assert(values[k] == x);
            }
        }
        if values.contains(x) {
            let k = choose|k: int| 0 <= k < values.len() && values[k] == x;
            assert(pushed[k] == x);
        }
        assert(pushed[values.len() as int] == value);
    }
    assert(pushed.to_set() =~= values.to_set().insert(value));
}

} // verus!
