//! The bookkeeping of an order-preserving parallel map: the inputs are
//! handed out tagged with their positions, and the results, which come back
//! in any order, are put back at those positions.

use vstd::prelude::*;

verus! {

/// The tasks that `parallel_map` hands out for `input`: each input tagged
/// with its position, from the last input to the first.
pub open spec fn tasks_spec<T>(input: Seq<T>) -> Seq<(usize, T)> {
    Seq::new(
        input.len(),
        |k: int| ((input.len() - 1 - k) as usize, input[input.len() - 1 - k]),
    )
}

/// Takes the inputs apart into tagged tasks, popping them from the end.
pub fn index_tasks<T>(input: Vec<T>) -> (tasks: Vec<(usize, T)>)
    ensures
        tasks@ == tasks_spec(input@),
{
    let mut input = input;
    let ghost orig = input@;
    let len = input.len();
    let mut tasks: Vec<(usize, T)> = Vec::new();
    let mut index: usize = 0;
    while index < len
        invariant
            len == orig.len(),
            index <= len,
            input@ == orig.take(len - index),
            tasks@ == tasks_spec(orig).take(index as int),
        decreases len - index,
    {
        let value = input.pop().unwrap();
        tasks.push((len - index - 1, value));
        assert(orig.take(len - index).drop_last() =~= orig.take(len - index - 1));
        assert(tasks@ =~= tasks_spec(orig).take(index + 1));
        index = index + 1;
    }
    assert(tasks_spec(orig).take(len as int) =~= tasks_spec(orig));
    tasks
}

/// Whether entry `k` is the last entry of `results` tagged `i`.
pub open spec fn last_tagged<U>(results: Seq<(usize, U)>, i: int, k: int) -> bool {
    &&& 0 <= k < results.len()
    &&& results[k].0 == i
    &&& forall|m: int| k < m < results.len() ==> results[m].0 != i
}

/// Puts the `results`, in the order they arrived, back by their tags into a
/// vector of `len` places, each starting as `U::default()`: a later result
/// for a place replaces an earlier one.
pub fn assemble<U: Default>(len: usize, results: Vec<(usize, U)>) -> (out: Vec<U>)
    requires
        forall|k: int| 0 <= k < results@.len() ==> (#[trigger] results@[k]).0 < len,
    ensures
        out@.len() == len,
        forall|i: int, k: int| last_tagged(results@, i, k) ==> out@[i] == results@[k].1,
        forall|i: int|
            0 <= i < len && !came_back(results@, i) ==> call_ensures(
                U::default,
                (),
                #[trigger] out@[i],
            ),
{
    let mut out: Vec<U> = Vec::new();
    let mut i: usize = 0;
    while i < len
        invariant
            i <= len,
            out@.len() == i,
            forall|j: int| 0 <= j < i ==> call_ensures(U::default, (), #[trigger] out@[j]),
        decreases len - i,
    {
        out.push(U::default());
        i = i + 1;
    }
    let ghost all = results@;
    let n = results.len();
    let mut results = results;
    // Reverse the arrivals so that popping yields them first to last.
    let mut arrivals: Vec<(usize, U)> = Vec::new();
    while results.len() > 0
        invariant
            n == all.len(),
            results@ == all.take(n - arrivals@.len()),
            arrivals@.len() <= n,
            forall|m: int| 0 <= m < arrivals@.len() ==> arrivals@[m] == all[n - 1 - m],
        decreases results@.len(),
    {
        let r = results.pop().unwrap();
        let ghost m0 = arrivals@.len();
        arrivals.push(r);
        assert(all.take(n - m0).drop_last() =~= all.take(n - m0 - 1));
    }
    let mut k: usize = 0;
    while k < n
        invariant
            k <= n,
            n == all.len(),
            arrivals@.len() == n - k,
            forall|m: int| 0 <= m < arrivals@.len() ==> arrivals@[m] == all[n - 1 - m],
            out@.len() == len,
            forall|q: int| 0 <= q < all.len() ==> (#[trigger] all[q]).0 < len,
            forall|p: int, q: int| last_tagged(all.take(k as int), p, q) ==> out@[p] == all[q].1,
            forall|p: int|
                0 <= p < len && !came_back(all.take(k as int), p) ==> call_ensures(
                    U::default,
                    (),
                    #[trigger] out@[p],
                ),
        decreases n - k,
    {
        let (tag, value) = arrivals.pop().unwrap();
        assert(all[k as int].0 == tag);
        let ghost before = out@;
        out.set(tag, value);
        proof {
            let t = all.take(k + 1);
            assert forall|p: int, q: int| last_tagged(t, p, q) implies out@[p] == all[q].1 by {
                if q == k {
                } else {
                    assert(t[k as int].0 != p);
                    assert(last_tagged(all.take(k as int), p, q));
                }
            }
            assert forall|p: int|
                0 <= p < len && !came_back(t, p) implies call_ensures(
                    U::default,
                    (),
                    #[trigger] out@[p],
                ) by {
                assert(t[k as int].0 == tag);
                if came_back(all.take(k as int), p) {
                    let m = choose|m: int|
                        0 <= m < all.take(k as int).len() && #[trigger] all.take(k as int)[m].0
                            == p;
                    assert(t[m].0 == p);
                }
                assert(p != tag);
                assert(out@[p] == before[p]);
            }
        }
        k = k + 1;
    }
    assert(all.take(n as int) =~= all);
    out
}


/// Every position of the input is handed out exactly once, with its own value.
pub proof fn lemma_tasks_cover_input<T>(input: Seq<T>, i: int)
    requires
        0 <= i < input.len(),
        input.len() <= usize::MAX + 1,
    ensures
        ({
            let k = input.len() - 1 - i;
            &&& tasks_spec(input)[k] == (i as usize, input[i])
            &&& forall|m: int|
                0 <= m < input.len() && m != k ==> (#[trigger] tasks_spec(input)[m]).0 != i
        }),
{
}

/// Whether some result is tagged with position `i`.
pub open spec fn came_back<U>(results: Seq<(usize, U)>, i: int) -> bool {
    exists|k: int| 0 <= k < results.len() && #[trigger] results[k].0 == i
}

/// Whatever order the results arrive in, if each position comes back with
/// the value expected for it, the assembled output is exactly the expected
/// sequence: the parallel map returns what a sequential map would.
pub proof fn lemma_assemble_any_order<U>(
    len: usize,
    results: Seq<(usize, U)>,
    expected: Seq<U>,
    out: Seq<U>,
)
    requires
        expected.len() == len,
        out.len() == len,
        forall|k: int|
            0 <= k < results.len() ==> (#[trigger] results[k]).0 < len && results[k].1
                == expected[results[k].0 as int],
        forall|i: int| 0 <= i < len ==> #[trigger] came_back(results, i),
        forall|i: int, k: int| last_tagged(results, i, k) ==> out[i] == results[k].1,
    ensures
        out == expected,
{
    assert forall|i: int| 0 <= i < len implies out[i] == expected[i] by {
        assert(came_back(results, i));
        let k0 = choose|k: int| 0 <= k < results.len() && #[trigger] results[k].0 == i;
        let k = last_index_tagged(results, i, k0);
        assert(last_tagged(results, i, k));
    }
    assert(out =~= expected);
}

/// The output does not depend on how the work was scheduled: two runs whose
/// results each bring back every position with the value expected for it
/// (for instance with different numbers of workers, or results arriving in
/// different orders) assemble the same output.
pub proof fn lemma_assemble_independent_of_schedule<U>(
    len: usize,
    r1: Seq<(usize, U)>,
    r2: Seq<(usize, U)>,
    expected: Seq<U>,
    out1: Seq<U>,
    out2: Seq<U>,
)
    requires
        expected.len() == len,
        out1.len() == len,
        out2.len() == len,
        forall|k: int|
            0 <= k < r1.len() ==> (#[trigger] r1[k]).0 < len && r1[k].1 == expected[r1[k].0 as int],
        forall|k: int|
            0 <= k < r2.len() ==> (#[trigger] r2[k]).0 < len && r2[k].1 == expected[r2[k].0 as int],
        forall|i: int| 0 <= i < len ==> #[trigger] came_back(r1, i),
        forall|i: int| 0 <= i < len ==> #[trigger] came_back(r2, i),
        forall|i: int, k: int| last_tagged(r1, i, k) ==> out1[i] == r1[k].1,
        forall|i: int, k: int| last_tagged(r2, i, k) ==> out2[i] == r2[k].1,
    ensures
        out1 == out2,
{
    lemma_assemble_any_order(len, r1, expected, out1);
    lemma_assemble_any_order(len, r2, expected, out2);
}

/// The last entry tagged `i`, given one entry `k0` tagged `i`.
proof fn last_index_tagged<U>(results: Seq<(usize, U)>, i: int, k0: int) -> (k: int)
    requires
        0 <= k0 < results.len(),
        results[k0].0 == i,
    ensures
        last_tagged(results, i, k),
    decreases results.len() - k0,
{
    if exists|m: int| k0 < m < results.len() && results[m].0 == i {
        let m = choose|m: int| k0 < m < results.len() && results[m].0 == i;
        last_index_tagged(results, i, m)
    } else {
        k0
    }
}

} // verus!
