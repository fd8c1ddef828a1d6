use vstd::layout::size_of;
use vstd::prelude::*;

use crate::generators::Generator;

verus! {

/// `s` after `Vec::swap_remove(i)`: the last element moves to `i`, the length drops by one.
pub open spec fn swap_removed<A>(s: Seq<A>, i: int) -> Seq<A> {
    s.update(i, s.last()).drop_last()
}

/// Whether `count` values of `A` fit in one allocation (at most `isize::MAX` bytes).
pub open spec fn fits<A>(count: int) -> bool {
    count * size_of::<A>() <= isize::MAX
}

/// Relies on `Vec::reserve_exact`: it changes the capacity only, never the contents; it panics
/// only when the capacity needed exceeds `isize::MAX` bytes.
#[verifier::external_body]
fn vec_reserve_exact<A>(v: &mut Vec<A>, additional: usize)
    requires
        old(v)@.len() + additional <= usize::MAX,
        fits::<A>(old(v)@.len() + additional),
    ensures
        final(v)@ == old(v)@,
{
    v.reserve_exact(additional);
}

/// Relies on `Vec::shrink_to_fit`: it changes the capacity only, never the contents.
#[verifier::external_body]
fn vec_shrink_to_fit<A>(v: &mut Vec<A>)
    ensures
        final(v)@ == old(v)@,
{
    v.shrink_to_fit();
}

/// Structure-of-arrays particle store: four parallel sequences, one per attribute.
pub struct Particles<P, V, M, C> {
    pub positions: Vec<P>,
    pub velocities: Vec<V>,
    pub masses: Vec<M>,
    pub colors: Vec<C>,
}

impl<P, V, M, C> Particles<P, V, M, C> {
    /// The four attribute sequences have the same length.
    pub open spec fn wf(&self) -> bool {
        &&& self.velocities@.len() == self.positions@.len()
        &&& self.masses@.len() == self.positions@.len()
        &&& self.colors@.len() == self.positions@.len()
    }

    /// Both stores hold the same particles in the same order.
    pub open spec fn same_contents(&self, other: &Self) -> bool {
        &&& self.positions@ == other.positions@
        &&& self.velocities@ == other.velocities@
        &&& self.masses@ == other.masses@
        &&& self.colors@ == other.colors@
    }

    pub open spec fn spec_len(&self) -> nat {
        self.positions@.len()
    }

    pub fn new(positions: Vec<P>, velocities: Vec<V>, masses: Vec<M>, colors: Vec<C>) -> (r: Self)
        ensures
            r.positions@ == positions@,
            r.velocities@ == velocities@,
            r.masses@ == masses@,
            r.colors@ == colors@,
    {
        Particles { positions, velocities, masses, colors }
    }

    pub fn new_empty() -> (r: Self)
        ensures
            r.wf(),
            r.spec_len() == 0,
    {
        Self::new(Vec::new(), Vec::new(), Vec::new(), Vec::new())
    }

    pub fn len(&self) -> (r: usize)
        ensures
            r == self.spec_len(),
    {
        self.positions.len()
    }

    /// Removes particle `i` from all four sequences; the last particle takes its place.
    pub fn swap_remove(&mut self, i: usize)
        requires
            old(self).wf(),
            i < old(self).spec_len(),
        ensures
            final(self).wf(),
            final(self).spec_len() == old(self).spec_len() - 1,
            final(self).positions@ == swap_removed(old(self).positions@, i as int),
            final(self).velocities@ == swap_removed(old(self).velocities@, i as int),
            final(self).masses@ == swap_removed(old(self).masses@, i as int),
            final(self).colors@ == swap_removed(old(self).colors@, i as int),
    {
        self.positions.swap_remove(i);
        self.velocities.swap_remove(i);
        self.masses.swap_remove(i);
        self.colors.swap_remove(i);
    }

    pub fn clear(&mut self)
        ensures
            final(self).wf(),
            final(self).spec_len() == 0,
            final(self).velocities@.len() == 0,
            final(self).masses@.len() == 0,
            final(self).colors@.len() == 0,
    {
        self.positions.clear();
        self.velocities.clear();
        self.masses.clear();
        self.colors.clear();
    }

    /// Reserves room for `n` more particles in each sequence; the contents stay.
    pub fn reserve_exact(&mut self, n: usize)
        requires
            old(self).positions@.len() + n <= usize::MAX,
            fits::<P>(old(self).positions@.len() + n),
            old(self).velocities@.len() + n <= usize::MAX,
            fits::<V>(old(self).velocities@.len() + n),
            old(self).masses@.len() + n <= usize::MAX,
            fits::<M>(old(self).masses@.len() + n),
            old(self).colors@.len() + n <= usize::MAX,
            fits::<C>(old(self).colors@.len() + n),
        ensures
            final(self).same_contents(old(self)),
    {
        vec_reserve_exact(&mut self.positions, n);
        vec_reserve_exact(&mut self.velocities, n);
        vec_reserve_exact(&mut self.masses, n);
        vec_reserve_exact(&mut self.colors, n);
    }

    /// Releases spare capacity in each sequence; the contents stay.
    pub fn shrink_to_fit(&mut self)
        ensures
            final(self).same_contents(old(self)),
    {
        vec_shrink_to_fit(&mut self.positions);
        vec_shrink_to_fit(&mut self.velocities);
        vec_shrink_to_fit(&mut self.masses);
        vec_shrink_to_fit(&mut self.colors);
    }
}

impl<P: Copy, V: Copy, M: Copy, C: Copy> Particles<P, V, M, C> {
    /// Replaces the contents with the particles of `particles` at `indexes`, in that order.
    pub fn copy_from_indexes(&mut self, indexes: &Vec<usize>, particles: &Self)
        requires
            particles.wf(),
            forall|k: int| 0 <= k < indexes@.len() ==> indexes@[k] < particles.spec_len(),
            fits::<P>(indexes@.len() as int),
            fits::<V>(indexes@.len() as int),
            fits::<M>(indexes@.len() as int),
            fits::<C>(indexes@.len() as int),
        ensures
            final(self).wf(),
            final(self).spec_len() == indexes@.len(),
            forall|k: int|
                0 <= k < indexes@.len() ==> {
                    let i = #[trigger] indexes@[k] as int;
                    &&& final(self).positions@[k] == particles.positions@[i]
                    &&& final(self).velocities@[k] == particles.velocities@[i]
                    &&& final(self).masses@[k] == particles.masses@[i]
                    &&& final(self).colors@[k] == particles.colors@[i]
                },
    {
        self.clear();
        self.reserve_exact(indexes.len());
        let mut k: usize = 0;
        while k < indexes.len()
            invariant
                particles.wf(),
                forall|j: int| 0 <= j < indexes@.len() ==> indexes@[j] < particles.spec_len(),
                0 <= k <= indexes@.len(),
                self.wf(),
                self.spec_len() == k,
                forall|j: int|
                    0 <= j < k ==> {
                        let i = #[trigger] indexes@[j] as int;
                        &&& self.positions@[j] == particles.positions@[i]
                        &&& self.velocities@[j] == particles.velocities@[i]
                        &&& self.masses@[j] == particles.masses@[i]
                        &&& self.colors@[j] == particles.colors@[i]
                    },
            decreases indexes@.len() - k,
        {
            let i = indexes[k];
            self.positions.push(particles.positions[i]);
            self.velocities.push(particles.velocities[i]);
            self.masses.push(particles.masses[i]);
            self.colors.push(particles.colors[i]);
            k = k + 1;
        }
    }
}

/// Appends new particles to a store.
pub trait ParticleFactory<P, V, M, C> {
    /// Appends exactly `n` particles; the ones already there stay as they were.
    fn create(&mut self, n: usize, particles: &mut Particles<P, V, M, C>)
        requires
            old(particles).wf(),
        ensures
            final(particles).wf(),
            final(particles).spec_len() == old(particles).spec_len() + n,
            final(particles).positions@.subrange(0, old(particles).spec_len() as int)
                == old(particles).positions@,
            final(particles).velocities@.subrange(0, old(particles).spec_len() as int)
                == old(particles).velocities@,
            final(particles).masses@.subrange(0, old(particles).spec_len() as int)
                == old(particles).masses@,
            final(particles).colors@.subrange(0, old(particles).spec_len() as int)
                == old(particles).colors@,
    ;
}

/// Draws each attribute of a new particle from its own generator.
pub struct GeneratorFactory<GP, GV, GM, GC> {
    pub position_generator: GP,
    pub velocity_generator: GV,
    pub mass_generator: GM,
    pub color_generator: GC,
}

impl<GP, GV, GM, GC> GeneratorFactory<GP, GV, GM, GC> {
    pub fn new(
        position_generator: GP,
        velocity_generator: GV,
        mass_generator: GM,
        color_generator: GC,
    ) -> (r: Self)
        ensures
            r.position_generator == position_generator,
            r.velocity_generator == velocity_generator,
            r.mass_generator == mass_generator,
            r.color_generator == color_generator,
    {
        GeneratorFactory { position_generator, velocity_generator, mass_generator, color_generator }
    }
}

impl<
    P,
    V,
    M,
    C,
    GP: Generator<P>,
    GV: Generator<V>,
    GM: Generator<M>,
    GC: Generator<C>,
> ParticleFactory<P, V, M, C> for GeneratorFactory<GP, GV, GM, GC> {
    fn create(&mut self, n: usize, particles: &mut Particles<P, V, M, C>) {
        self.position_generator.generate_n(n, &mut particles.positions);
        self.velocity_generator.generate_n(n, &mut particles.velocities);
        self.mass_generator.generate_n(n, &mut particles.masses);
        self.color_generator.generate_n(n, &mut particles.colors);
    }
}

} // verus!
