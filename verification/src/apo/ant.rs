use vstd::prelude::*;

verus! {

/// Whether `x` occurs in `v`.
fn holds(v: &Vec<usize>, x: usize) -> (found: bool)
    ensures
        found == v@.contains(x),
{
    let mut i: usize = 0;
    while i < v.len()
        invariant
            i <= v@.len(),
            forall|k: int| 0 <= k < i ==> v@[k] != x,
        decreases v@.len() - i,
    {
        if v[i] == x {
            return true;
        }
        i += 1;
    }
    false
}

/// For each of the nodes `0 .. number_of_nodes`, whether an ant may not move
/// there: the node is unreachable for its slot, or already on its own path.
/// Such a node gets neither advanceability nor desirability.
pub fn unavailable_nodes(number_of_nodes: usize, unreachable: &Vec<usize>, path: &Vec<usize>) -> (blocked: Vec<bool>)
    ensures
        blocked@.len() == number_of_nodes,
        forall|i: int|
            0 <= i < number_of_nodes ==> #[trigger] blocked@[i] == (unreachable@.contains(i as usize) || path@.contains(i as usize)),
{
    let mut blocked: Vec<bool> = Vec::new();
    let mut idx: usize = 0;
    while idx < number_of_nodes
        invariant
            idx <= number_of_nodes,
            blocked@.len() == idx,
            forall|i: int|
                0 <= i < idx ==> #[trigger] blocked@[i] == (unreachable@.contains(i as usize) || path@.contains(i as usize)),
        decreases number_of_nodes - idx,
    {
        let b = holds(unreachable, idx) || holds(path, idx);
        blocked.push(b);
        idx += 1;
    }
    blocked
}

/// The first position whose threshold reaches `draw`, or `None` when no
/// threshold does: an ant moves to the first node whose cumulative
/// probability is at least the random draw.
pub fn first_reaching(thresholds: &Vec<u64>, draw: u64) -> (choice: Option<usize>)
    ensures
        choice is None <==> forall|k: int| 0 <= k < thresholds@.len() ==> #[trigger] thresholds@[k] < draw,
        choice matches Some(i) ==> {
            &&& i < thresholds@.len()
            &&& draw <= thresholds@[i as int]
            &&& forall|k: int| 0 <= k < i ==> #[trigger] thresholds@[k] < draw
        },
{
    let mut idx: usize = 0;
    while idx < thresholds.len()
        invariant
            idx <= thresholds@.len(),
            forall|k: int| 0 <= k < idx ==> #[trigger] thresholds@[k] < draw,
        decreases thresholds@.len() - idx,
    {
        if draw <= thresholds[idx] {
            return Some(idx);
        }
        idx += 1;
    }
    None
}

} // verus!
