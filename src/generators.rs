use vstd::prelude::*;

verus! {

/// A source of attribute values for new particles.
pub trait Generator<T> {
    fn generate(&mut self) -> T;

    /// Appends `n` generated values to `vec`.
    fn generate_n(&mut self, n: usize, vec: &mut Vec<T>)
        ensures
            final(vec)@.len() == old(vec)@.len() + n,
            final(vec)@.subrange(0, old(vec)@.len() as int) == old(vec)@,
    {
        let mut k: usize = 0;
        while k < n
            invariant
                k <= n,
                vec@.len() == old(vec)@.len() + k,
                vec@.subrange(0, old(vec)@.len() as int) == old(vec)@,
            decreases n - k,
        {
            let value = self.generate();
            vec.push(value);
            proof {
                assert(vec@.subrange(0, old(vec)@.len() as int) =~= old(vec)@);
            }
            k = k + 1;
        }
    }
}

/// Gives the same value every time.
pub struct ConstantGenerator<T: Clone> {
    pub value: T,
}

impl<T: Clone> ConstantGenerator<T> {
    pub fn new(value: T) -> (r: Self)
        ensures
            r.value == value,
    {
        ConstantGenerator { value }
    }
}

impl<T: Clone> Generator<T> for ConstantGenerator<T> {
    fn generate(&mut self) -> (r: T)
        ensures
            final(self).value == old(self).value,
            cloned(old(self).value, r),
    {
        self.value.clone()
    }
}

} // verus!
