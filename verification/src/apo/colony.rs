use vstd::prelude::*;

verus! {

/// The moves of a path, in order: from each node to the next one.
pub fn path_steps(path: &Vec<usize>) -> (steps: Vec<(usize, usize)>)
    requires
        path@.len() >= 1,
    ensures
        steps@.len() == path@.len() - 1,
        forall|k: int| 0 <= k < steps@.len() ==> #[trigger] steps@[k] == (path@[k], path@[k + 1]),
{
    let mut steps: Vec<(usize, usize)> = Vec::new();
    let mut start_node = path[0];
    let mut k: usize = 1;
    while k < path.len()
        invariant
            1 <= k <= path@.len(),
            start_node == path@[k - 1],
            steps@.len() == k - 1,
            forall|i: int| 0 <= i < steps@.len() ==> #[trigger] steps@[i] == (path@[i], path@[i + 1]),
        decreases path@.len() - k,
    {
        let next_node = path[k];
        steps.push((start_node, next_node));
        start_node = next_node;
        k += 1;
    }
    steps
}

/// The positions, in increasing order, whose key is above `limit`: the slots
/// whose total distance exceeds that of the worst slot kept.
pub fn slots_over(keys: &Vec<u64>, limit: u64) -> (over: Vec<usize>)
    ensures
        forall|a: int, b: int| 0 <= a < b < over@.len() ==> #[trigger] over@[a] < #[trigger] over@[b],
        forall|k: int| 0 <= k < over@.len() ==> #[trigger] over@[k] < keys@.len() && keys@[over@[k] as int] > limit,
        forall|i: usize| i < keys@.len() && keys@[i as int] > limit ==> #[trigger] over@.contains(i),
{
    let mut over: Vec<usize> = Vec::new();
    let mut i: usize = 0;
    while i < keys.len()
        invariant
            i <= keys@.len(),
            forall|a: int, b: int| 0 <= a < b < over@.len() ==> #[trigger] over@[a] < #[trigger] over@[b],
            forall|k: int| 0 <= k < over@.len() ==> #[trigger] over@[k] < i && keys@[over@[k] as int] > limit,
            forall|j: usize| j < i && keys@[j as int] > limit ==> #[trigger] over@.contains(j),
        decreases keys@.len() - i,
    {
        if keys[i] > limit {
            let ghost before = over@;
            over.push(i);
            assert forall|j: usize| j < i + 1 && keys@[j as int] > limit implies #[trigger] over@.contains(j) by {
                if j == i {
                    assert(over@[over@.len() - 1] == j);
                } else {
                    assert(before.contains(j));
                    let k = choose|k: int| 0 <= k < before.len() && before[k] == j;
                    assert(over@[k] == j);
                }
            }
        }
        i += 1;
    }
    over
}

} // verus!
