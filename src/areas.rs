use vstd::prelude::*;

use crate::systems::strictly_ascending;

verus! {

/// The positions `i` of `inside` that hold `true`, in ascending order.
pub open spec fn indexes_where(inside: Seq<bool>) -> Seq<usize>
    decreases inside.len(),
{
    if inside.len() == 0 {
        Seq::empty()
    } else {
        let rest = indexes_where(inside.drop_last());
        if inside.last() {
            rest.push((inside.len() - 1) as usize)
        } else {
            rest
        }
    }
}

/// What `indexes_where` holds: exactly the marked positions, each once, ascending.
pub proof fn lemma_indexes_where(inside: Seq<bool>)
    requires
        inside.len() <= usize::MAX,
    ensures
        strictly_ascending(indexes_where(inside)),
        forall|k: int|
            0 <= k < indexes_where(inside).len() ==> #[trigger] indexes_where(inside)[k]
                < inside.len(),
        forall|i: int|
            0 <= i < inside.len() ==> (inside[i] <==> indexes_where(inside).contains(i as usize)),
    decreases inside.len(),
{
    if inside.len() > 0 {
        let rest = inside.drop_last();
        lemma_indexes_where(rest);
        let r = indexes_where(inside);
        assert forall|i: int| 0 <= i < inside.len() implies (inside[i] <==> r.contains(
            i as usize,
        )) by {
            if i < inside.len() - 1 {
                assert(rest[i] == inside[i]);
                if inside[i] {
                    let k = choose|k: int|
                        0 <= k < indexes_where(rest).len() && indexes_where(rest)[k] == i as usize;
                    assert(r[k] == i as usize);
                }
            } else if inside[i] {
                assert(r[r.len() - 1] == i as usize);
            }
        }
    }
}

/// Appends to `indices`, in ascending order, every `i` with `inside[i]`.
pub fn collect_indexes(inside: &Vec<bool>, indices: &mut Vec<usize>)
    ensures
        final(indices)@ == old(indices)@ + indexes_where(inside@),
{
    let mut found: Vec<usize> = Vec::new();
    let mut i: usize = 0;
    while i < inside.len()
        invariant
            i <= inside@.len(),
            found@ == indexes_where(inside@.take(i as int)),
        decreases inside@.len() - i,
    {
        proof {
            assert(inside@.take(i + 1).drop_last() =~= inside@.take(i as int));
        }
        if inside[i] {
            found.push(i);
        }
        i = i + 1;
    }
    proof {
        assert(inside@.take(inside@.len() as int) =~= inside@);
    }
    indices.append(&mut found);
}

} // verus!
