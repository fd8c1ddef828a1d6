use vstd::prelude::*;
use vstd::laws_cmp::obeys_partial_cmp_spec_properties;
use vstd::laws_eq::obeys_eq_spec_properties;
use vstd::std_specs::cmp::{PartialEqSpec, PartialOrdIs, PartialOrdSpec};

verus! {

/// `s` with `value` inserted at `k`, a place that binary search may pick: the entry before
/// it is below `value` and the entry after it is not.
pub open spec fn inserted_in_order<T: PartialOrd>(s: Seq<T>, value: T, k: int, r: Seq<T>) -> bool {
    &&& 0 <= k <= s.len()
    &&& r == s.insert(k, value)
    &&& T::obeys_partial_cmp_spec() ==> {
        &&& (k == 0 || s[k - 1].is_lt(&value))
        &&& (k == s.len() || !s[k].is_lt(&value))
    }
}

/// No entry is below an entry before it.
pub open spec fn sorted<T: PartialOrd>(s: Seq<T>) -> bool {
    forall|i: int, j: int|
        #![trigger s[i], s[j]]
        0 <= i < j < s.len() ==> !s[j].is_lt(&s[i])
}

/// `<` is a total order on `T`: any two values compare, and the order laws hold.
pub open spec fn total_order<T: PartialOrd>() -> bool {
    &&& T::obeys_partial_cmp_spec()
    &&& obeys_partial_cmp_spec_properties::<T>()
    &&& forall|x: T, y: T| (#[trigger] x.partial_cmp_spec(&y)).is_some()
}

proof fn lemma_not_lt_and_lt<T: PartialOrd>(a: T, b: T, c: T)
    requires
        total_order::<T>(),
        !b.is_lt(&a),
        b.is_lt(&c),
    ensures
        !c.is_lt(&a),
{
    reveal(obeys_partial_cmp_spec_properties);
    if c.is_lt(&a) {
        assert(b.partial_cmp_spec(&c) == Some(core::cmp::Ordering::Less));
        assert(c.partial_cmp_spec(&a) == Some(core::cmp::Ordering::Less));
        assert(b.partial_cmp_spec(&a) == Some(core::cmp::Ordering::Less));
    }
}

proof fn lemma_not_lt_below<T: PartialOrd>(a: T, b: T, c: T)
    requires
        total_order::<T>(),
        !b.is_lt(&a),
        !a.is_lt(&c),
    ensures
        !b.is_lt(&c),
{
    reveal(obeys_partial_cmp_spec_properties);
    reveal(obeys_eq_spec_properties);
    if b.is_lt(&c) {
        let ab = a.partial_cmp_spec(&b);
        let ac = a.partial_cmp_spec(&c);
        assert(ab.is_some() && ac.is_some());
        assert(ac != Some(core::cmp::Ordering::Less));
        if ab == Some(core::cmp::Ordering::Less) {
            assert(a.partial_cmp_spec(&c) == Some(core::cmp::Ordering::Less));
            assert(false);
        } else if ab == Some(core::cmp::Ordering::Equal) {
            assert(a.eq_spec(&b));
            assert(b.eq_spec(&a));
            if ac == Some(core::cmp::Ordering::Equal) {
                assert(a.eq_spec(&c));
                assert(b.eq_spec(&c));
                assert(b.partial_cmp_spec(&c) == Some(core::cmp::Ordering::Equal));
                assert(false);
            } else {
                assert(ac == Some(core::cmp::Ordering::Greater));
                assert(c.partial_cmp_spec(&a) == Some(core::cmp::Ordering::Less));
                assert(b.partial_cmp_spec(&a) == Some(core::cmp::Ordering::Less));
                assert(false);
            }
        } else {
            assert(ab == Some(core::cmp::Ordering::Greater));
            assert(b.partial_cmp_spec(&a) == Some(core::cmp::Ordering::Less));
            assert(false);
        }
    }
}

/// Inserting at the place that binary search finds keeps a sorted sequence sorted, for a
/// totally ordered type.
pub proof fn lemma_add_keeps_order<T: PartialOrd>(s: Seq<T>, value: T, k: int, r: Seq<T>)
    requires
        total_order::<T>(),
        sorted(s),
        inserted_in_order(s, value, k, r),
    ensures
        sorted(r),
{
    reveal(obeys_partial_cmp_spec_properties);
    assert forall|i: int, j: int|
        #![trigger r[i], r[j]]
        0 <= i < j < r.len() implies !r[j].is_lt(&r[i]) by {
        if j < k {
            assert(r[i] == s[i] && r[j] == s[j]);
        } else if i > k {
            assert(r[i] == s[i - 1] && r[j] == s[j - 1]);
        } else if i < k && j > k {
            assert(r[i] == s[i] && r[j] == s[j - 1]);
        } else if j == k {
            assert(r[j] == value && r[i] == s[i]);
            if i < k - 1 {
                assert(!s[k - 1].is_lt(&s[i]));
            }
            lemma_not_lt_and_lt(s[i], s[k - 1], value);
        } else {
            assert(i == k && r[i] == value && r[j] == s[j - 1]);
            if j - 1 > k {
                assert(!s[j - 1].is_lt(&s[k]));
            }
            lemma_not_lt_below(s[k], s[j - 1], value);
        }
    }
}

/// Entries taken from the end of a sorted sequence come out in order: none is below an entry
/// taken after it.
pub proof fn lemma_taken_in_order<T: PartialOrd>(s: Seq<T>, r: Seq<T>)
    requires
        sorted(s),
        r.len() <= s.len(),
        forall|j: int| 0 <= j < r.len() ==> #[trigger] r[j] == s[s.len() - 1 - j],
    ensures
        forall|i: int, j: int|
            #![trigger r[i], r[j]]
            0 <= i < j < r.len() ==> !r[i].is_lt(&r[j]),
{
    assert forall|i: int, j: int|
        #![trigger r[i], r[j]]
        0 <= i < j < r.len() implies !r[i].is_lt(&r[j]) by {
        assert(r[i] == s[s.len() - 1 - i] && r[j] == s[s.len() - 1 - j]);
    }
}

/// A vector kept in order by inserting each value at its place.
pub struct SortedVec<T> {
    pub vec: Vec<T>,
}

impl<T: PartialOrd> SortedVec<T> {
    pub fn new() -> (r: Self)
        ensures
            r.vec@.len() == 0,
    {
        SortedVec { vec: Vec::new() }
    }

    /// Inserts `value` at the place that binary search finds for it.
    pub fn add(&mut self, value: T)
        ensures
            exists|k: int| inserted_in_order(old(self).vec@, value, k, final(self).vec@),
            total_order::<T>() && sorted(old(self).vec@) ==> sorted(final(self).vec@),
    {
        let mut left: usize = 0;
        let mut right: usize = self.vec.len();
        while left < right
            invariant
                left <= right <= self.vec@.len(),
                self.vec@ == old(self).vec@,
                T::obeys_partial_cmp_spec() ==> (left == 0 || self.vec@[left - 1].is_lt(&value)),
                T::obeys_partial_cmp_spec() ==> (right == self.vec@.len() || !self.vec@[
                    right as int
                ].is_lt(&value)),
            decreases right - left,
        {
            let mid = left + (right - left) / 2;
            if self.vec[mid] < value {
                left = mid + 1;
            } else {
                right = mid;
            }
        }
        self.vec.insert(left, value);
        proof {
            assert(inserted_in_order(old(self).vec@, value, left as int, self.vec@));
            if total_order::<T>() && sorted(old(self).vec@) {
                lemma_add_keeps_order(old(self).vec@, value, left as int, self.vec@);
            }
        }
    }

    pub fn first(&self) -> (r: Option<&T>)
        ensures
            self.vec@.len() == 0 ==> r.is_none(),
            self.vec@.len() > 0 ==> r == Some(&self.vec@[0]),
    {
        if self.vec.len() == 0 {
            None
        } else {
            Some(&self.vec[0])
        }
    }

    /// Removes from the end, one by one, the entries that `due` accepts, stopping at the first
    /// one it rejects; returns them in the order removed.
    pub fn take_due<P>(&mut self, due: &P) -> (r: Vec<T>) where P: Fn(&T) -> bool
        requires
            forall|t: &T| #[trigger] due.requires((t,)),
        ensures
            r@.len() <= old(self).vec@.len(),
            final(self).vec@ == old(self).vec@.take(old(self).vec@.len() - r@.len()),
            forall|j: int|
                0 <= j < r@.len() ==> #[trigger] r@[j] == old(self).vec@[old(self).vec@.len() - 1
                    - j],
            forall|j: int| 0 <= j < r@.len() ==> due.ensures((&(#[trigger] r@[j]),), true),
            final(self).vec@.len() > 0 ==> due.ensures((&final(self).vec@.last(),), false),
    {
        let mut taken: Vec<T> = Vec::new();
        let mut stopped = false;
        while !stopped && self.vec.len() > 0
            invariant
                stopped ==> self.vec@.len() > 0 && due.ensures((&self.vec@.last(),), false),
                forall|t: &T| #[trigger] due.requires((t,)),
                taken@.len() + self.vec@.len() == old(self).vec@.len(),
                self.vec@ == old(self).vec@.take(self.vec@.len() as int),
                forall|j: int|
                    0 <= j < taken@.len() ==> #[trigger] taken@[j] == old(self).vec@[old(
                        self,
                    ).vec@.len() - 1 - j],
                forall|j: int| 0 <= j < taken@.len() ==> due.ensures((&(#[trigger] taken@[j]),), true),
            decreases self.vec@.len() + (if stopped {
                0int
            } else {
                1int
            }),
        {
            let n = self.vec.len();
            if !due(&self.vec[n - 1]) {
                stopped = true;
            } else {
                let e = self.vec.pop().unwrap();
                proof {
                    assert(self.vec@ =~= old(self).vec@.take(self.vec@.len() as int));
                }
                taken.push(e);
            }
        }
        taken
    }

    /// Removes and returns the last entry.
    pub fn pop(&mut self) -> (r: Option<T>)
        ensures
            old(self).vec@.len() == 0 ==> r.is_none() && final(self).vec@ == old(self).vec@,
            old(self).vec@.len() > 0 ==> r == Some(old(self).vec@.last()) && final(self).vec@
                == old(self).vec@.drop_last(),
    {
        self.vec.pop()
    }
}

} // verus!
