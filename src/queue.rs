use vstd::prelude::*;

verus! {

/// `a` comes no later than `b` in the queue's order: by distance, then by
/// node id.
pub open spec fn entry_le(a: (u128, u64), b: (u128, u64)) -> bool {
    a.0 < b.0 || (a.0 == b.0 && a.1 <= b.1)
}

/// Takes the least entry out of a non-empty queue, by distance and then by
/// node id. The rest keep their order.
pub fn pop_min(q: &mut Vec<(u128, u64)>) -> (r: (u128, u64))
    requires
        old(q)@.len() > 0,
    ensures
        exists|i: int|
            0 <= i < old(q)@.len() && old(q)@[i] == r && final(q)@ == old(q)@.remove(i),
        forall|j: int| 0 <= j < old(q)@.len() ==> entry_le(r, #[trigger] old(q)@[j]),
{
    let mut best: usize = 0;
    let mut i: usize = 1;
    while i < q.len()
        invariant
            q@ == old(q)@,
            0 <= best < i <= q@.len(),
            forall|j: int| 0 <= j < i ==> entry_le(q@[best as int], #[trigger] q@[j]),
        decreases q@.len() - i,
    {
        let e = q[i];
        let b = q[best];
        if e.0 < b.0 || (e.0 == b.0 && e.1 < b.1) {
            best = i;
        }
        i = i + 1;
    }
    q.remove(best)
}

} // verus!
