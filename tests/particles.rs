use iridium::generators::{ConstantGenerator, Generator};
use iridium::particles::{GeneratorFactory, ParticleFactory, Particles};
use iridium::systems::{consume, remove_all};

type Store = Particles<(f64, f64), (f64, f64), f64, (f64, f64, f64, f64)>;

fn store(n: usize) -> Store {
    let mut p = Store::new_empty();
    for i in 0..n {
        let x = i as f64;
        p.positions.push((x, x + 0.5));
        p.velocities.push((-x, 1.0));
        p.masses.push(x + 1.0);
        p.colors.push((0.0, 0.0, 0.0, x / 10.0));
    }
    p
}

fn assert_same_lengths(p: &Store) {
    assert_eq!(p.velocities.len(), p.positions.len());
    assert_eq!(p.masses.len(), p.positions.len());
    assert_eq!(p.colors.len(), p.positions.len());
}

#[test]
fn new_empty_has_no_particles() {
    let p = Store::new_empty();
    assert_eq!(p.len(), 0);
    assert_same_lengths(&p);
}

#[test]
fn swap_remove_moves_last_into_place() {
    let mut p = store(5);
    p.swap_remove(1);
    assert_eq!(p.len(), 4);
    assert_same_lengths(&p);
    assert_eq!(p.positions[1], (4.0, 4.5));
    assert_eq!(p.velocities[1], (-4.0, 1.0));
    assert_eq!(p.masses[1], 5.0);
    assert_eq!(p.colors[1], (0.0, 0.0, 0.0, 0.4));
    assert_eq!(p.positions[0], (0.0, 0.5));
    assert_eq!(p.positions[3], (3.0, 3.5));
}

#[test]
fn swap_remove_of_last_only_shortens() {
    let mut p = store(3);
    p.swap_remove(2);
    assert_eq!(p.len(), 2);
    assert_eq!(p.masses, vec![1.0, 2.0]);
}

#[test]
fn clear_empties_every_attribute() {
    let mut p = store(4);
    p.clear();
    assert_eq!(p.len(), 0);
    assert_same_lengths(&p);
}

#[test]
fn reserve_and_shrink_keep_contents() {
    let mut p = store(3);
    p.reserve_exact(100);
    assert!(p.positions.capacity() >= 103);
    assert_eq!(p.masses, vec![1.0, 2.0, 3.0]);
    p.shrink_to_fit();
    assert_eq!(p.masses, vec![1.0, 2.0, 3.0]);
    assert_same_lengths(&p);
}

#[test]
fn copy_from_indexes_follows_the_given_order() {
    let src = store(5);
    let mut p = store(2);
    p.copy_from_indexes(&vec![4, 0, 4, 2], &src);
    assert_eq!(p.len(), 4);
    assert_same_lengths(&p);
    assert_eq!(p.masses, vec![5.0, 1.0, 5.0, 3.0]);
    assert_eq!(p.positions[3], (2.0, 2.5));
}

#[test]
fn consume_takes_from_the_tail_up_to_the_quota() {
    let mut p = store(6);
    consume(&mut p, &vec![1, 3, 4], 2);
    assert_eq!(p.len(), 4);
    assert_same_lengths(&p);
    // 4 is replaced by 5, then 3 by the new last (5).
    assert_eq!(p.masses, vec![1.0, 2.0, 3.0, 6.0]);
}

#[test]
fn consume_with_zero_quota_removes_nothing() {
    let mut p = store(3);
    consume(&mut p, &vec![0, 1], 0);
    assert_eq!(p.masses, vec![1.0, 2.0, 3.0]);
}

#[test]
fn consume_quota_above_candidates_removes_all_candidates() {
    let mut p = store(4);
    consume(&mut p, &vec![0, 3], 10);
    assert_eq!(p.len(), 2);
    assert_eq!(p.masses, vec![3.0, 2.0]);
}

#[test]
fn remove_all_removes_every_listed_particle() {
    let mut p = store(3);
    remove_all(&mut p, &vec![0, 1]);
    assert_eq!(p.len(), 1);
    assert_eq!(p.masses, vec![3.0]);
    assert_same_lengths(&p);
    let mut q = store(5);
    remove_all(&mut q, &vec![0, 2, 4]);
    let mut left = q.masses.clone();
    left.sort_by(|a, b| a.partial_cmp(b).unwrap());
    assert_eq!(left, vec![2.0, 4.0]);
}

#[test]
fn factory_appends_n_particles() {
    let mut p = store(2);
    let mut f = GeneratorFactory::new(
        ConstantGenerator::new((7.0, 8.0)),
        ConstantGenerator::new((0.0, 0.0)),
        ConstantGenerator::new(2.5),
        ConstantGenerator::new((1.0, 1.0, 1.0, 1.0)),
    );
    f.create(3, &mut p);
    assert_eq!(p.len(), 5);
    assert_same_lengths(&p);
    assert_eq!(p.masses, vec![1.0, 2.0, 2.5, 2.5, 2.5]);
    assert_eq!(p.positions[4], (7.0, 8.0));
}

#[test]
fn constant_generator_repeats_its_value() {
    let mut g = ConstantGenerator::new(3u32);
    assert_eq!(g.generate(), 3);
    let mut out = vec![1u32];
    g.generate_n(2, &mut out);
    assert_eq!(out, vec![1, 3, 3]);
}
