use vstd::multiset::Multiset;
use vstd::prelude::*;

use crate::particles::{swap_removed, Particles};

verus! {

/// Every entry of `idx` is below the next one.
pub open spec fn strictly_ascending(idx: Seq<usize>) -> bool {
    forall|a: int, b: int| 0 <= a < b < idx.len() ==> idx[a] < idx[b]
}

/// `s` after swap-removing the last `k` entries of `idx`, the last entry first.
pub open spec fn removed_tail<A>(s: Seq<A>, idx: Seq<usize>, k: nat) -> Seq<A>
    decreases k,
{
    if k == 0 {
        s
    } else {
        swap_removed(removed_tail(s, idx, (k - 1) as nat), idx[idx.len() - k] as int)
    }
}

pub open spec fn min_nat(a: nat, b: nat) -> nat {
    if a < b {
        a
    } else {
        b
    }
}

proof fn lemma_ascending_gap(idx: Seq<usize>, j: int)
    requires
        strictly_ascending(idx),
        0 <= j < idx.len(),
    ensures
        idx[j] + (idx.len() - 1 - j) <= idx[idx.len() - 1],
    decreases idx.len() - j,
{
    if j < idx.len() - 1 {
        lemma_ascending_gap(idx, j + 1);
    }
}

/// The entries of `s` at the last `k` indexes of `idx`, the last index first.
pub open spec fn tail_values<A>(s: Seq<A>, idx: Seq<usize>, k: nat) -> Seq<A>
    decreases k,
{
    if k == 0 {
        Seq::empty()
    } else {
        tail_values(s, idx, (k - 1) as nat).push(s[idx[idx.len() - k] as int])
    }
}

proof fn lemma_swap_removed_multiset<A>(s: Seq<A>, i: int)
    requires
        0 <= i < s.len(),
    ensures
        swap_removed(s, i).to_multiset() =~= s.to_multiset().remove(s[i]),
{
    broadcast use vstd::seq_lib::group_to_multiset_ensures, vstd::seq_lib::to_multiset_update;

    let t = s.update(i, s.last());
    assert(t =~= t.drop_last().push(t.last()));
    assert(t.last() == s.last());
    assert(t.to_multiset() == s.to_multiset().insert(s.last()).remove(s[i]));
    assert(t.drop_last().push(t.last()).to_multiset() == t.drop_last().to_multiset().insert(t.last()));
    let m = s.to_multiset();
    let d = t.drop_last().to_multiset();
    assert(d.insert(s.last()) == m.insert(s.last()).remove(s[i]));
    assert forall|x: A| d.count(x) == m.remove(s[i]).count(x) by {
        broadcast use vstd::multiset::group_multiset_axioms;

        assert(d.insert(s.last()).count(x) == m.insert(s.last()).remove(s[i]).count(x));
        assert(m.count(s[i]) > 0);
    }
    assert(d =~= m.remove(s[i]));
}

/// Removing from the tail of strictly ascending indexes takes away exactly the particles
/// that those indexes named: what remains, together with the values at the last `k` indexes,
/// is the original sequence as a multiset. Positions below the lowest removed index keep
/// their particles.
pub proof fn lemma_removed_tail_multiset<A>(s: Seq<A>, idx: Seq<usize>, k: nat)
    requires
        strictly_ascending(idx),
        k <= idx.len(),
        forall|j: int| 0 <= j < idx.len() ==> idx[j] < s.len(),
    ensures
        removed_tail(s, idx, k).len() == s.len() - k,
        removed_tail(s, idx, k).to_multiset().add(tail_values(s, idx, k).to_multiset())
            =~= s.to_multiset(),
        forall|j: int|
            0 <= j < (if k == 0 {
                s.len() as int
            } else {
                idx[idx.len() - k] as int
            }) ==> #[trigger] removed_tail(s, idx, k)[j] == s[j],
    decreases k,
{
    broadcast use vstd::seq_lib::group_to_multiset_ensures;

    if k == 0 {
        assert(tail_values(s, idx, 0).to_multiset() =~= Multiset::empty());
    } else {
        let km1 = (k - 1) as nat;
        lemma_removed_tail_multiset(s, idx, km1);
        let n = idx.len();
        let t = removed_tail(s, idx, km1);
        let i = idx[n - k] as int;
        lemma_ascending_gap(idx, n - k);
        assert(i < t.len());
        if km1 > 0 {
            assert(idx[n - k] < idx[n - km1]);
        }
        assert(t[i] == s[i]);
        lemma_swap_removed_multiset(t, i);
        let tv = tail_values(s, idx, km1);
        assert(tail_values(s, idx, k) == tv.push(s[i]));
        assert(t.to_multiset().count(s[i]) > 0);
        assert(removed_tail(s, idx, k) == swap_removed(t, i));
        assert(forall|j: int| 0 <= j < i ==> #[trigger] swap_removed(t, i)[j] == t[j]);
    }
}

/// Swap-removes the particles at the last `quota` entries of `to_remove` (all of them when
/// there are fewer), going from the highest index down so that every index still names the
/// particle it named before.
pub fn consume<P, V, M, C>(particles: &mut Particles<P, V, M, C>, to_remove: &Vec<usize>, quota: usize)
    requires
        old(particles).wf(),
        strictly_ascending(to_remove@),
        forall|k: int| 0 <= k < to_remove@.len() ==> to_remove@[k] < old(particles).spec_len(),
    ensures
        final(particles).wf(),
        final(particles).spec_len() == old(particles).spec_len() - min_nat(
            quota as nat,
            to_remove@.len(),
        ),
        final(particles).positions@ == removed_tail(
            old(particles).positions@,
            to_remove@,
            min_nat(quota as nat, to_remove@.len()),
        ),
        final(particles).velocities@ == removed_tail(
            old(particles).velocities@,
            to_remove@,
            min_nat(quota as nat, to_remove@.len()),
        ),
        final(particles).masses@ == removed_tail(
            old(particles).masses@,
            to_remove@,
            min_nat(quota as nat, to_remove@.len()),
        ),
        final(particles).colors@ == removed_tail(
            old(particles).colors@,
            to_remove@,
            min_nat(quota as nat, to_remove@.len()),
        ),
{
    let n = to_remove.len();
    let count: usize = if quota < n {
        quota
    } else {
        n
    };
    let mut c: usize = 0;
    while c < count
        invariant
            particles.wf(),
            strictly_ascending(to_remove@),
            forall|k: int| 0 <= k < to_remove@.len() ==> to_remove@[k] < old(particles).spec_len(),
            n == to_remove@.len(),
            count <= n,
            count == min_nat(quota as nat, n as nat),
            c <= count,
            particles.spec_len() == old(particles).spec_len() - c,
            particles.positions@ == removed_tail(old(particles).positions@, to_remove@, c as nat),
            particles.velocities@ == removed_tail(
                old(particles).velocities@,
                to_remove@,
                c as nat,
            ),
            particles.masses@ == removed_tail(old(particles).masses@, to_remove@, c as nat),
            particles.colors@ == removed_tail(old(particles).colors@, to_remove@, c as nat),
        decreases count - c,
    {
        let i = to_remove[n - 1 - c];
        proof {
            lemma_ascending_gap(to_remove@, n - 1 - c);
        }
        particles.swap_remove(i);
        c = c + 1;
    }
}

/// Swap-removes every particle named in `to_remove`.
pub fn remove_all<P, V, M, C>(particles: &mut Particles<P, V, M, C>, to_remove: &Vec<usize>)
    requires
        old(particles).wf(),
        strictly_ascending(to_remove@),
        forall|k: int| 0 <= k < to_remove@.len() ==> to_remove@[k] < old(particles).spec_len(),
    ensures
        final(particles).wf(),
        final(particles).spec_len() == old(particles).spec_len() - to_remove@.len(),
        final(particles).positions@ == removed_tail(
            old(particles).positions@,
            to_remove@,
            to_remove@.len(),
        ),
        final(particles).velocities@ == removed_tail(
            old(particles).velocities@,
            to_remove@,
            to_remove@.len(),
        ),
        final(particles).masses@ == removed_tail(
            old(particles).masses@,
            to_remove@,
            to_remove@.len(),
        ),
        final(particles).colors@ == removed_tail(
            old(particles).colors@,
            to_remove@,
            to_remove@.len(),
        ),
{
    consume(particles, to_remove, to_remove.len());
}

} // verus!
