use dataflow::FactSet;

fn fs(xs: &[u64]) -> FactSet {
    let mut s = FactSet::empty();
    for &x in xs {
        s = s.insert(x);
    }
    s
}

/// A small deterministic pseudo-random sequence for generating fact sets.
fn lcg(seed: &mut u64) -> u64 {
    *seed = seed.wrapping_mul(6364136223846793005).wrapping_add(1442695040888963407);
    (*seed >> 33) % 16
}

fn random_set(seed: &mut u64) -> FactSet {
    let len = lcg(seed) % 8;
    let mut s = FactSet::empty();
    for _ in 0..len {
        s = s.insert(lcg(seed));
    }
    s
}

#[test]
fn empty_contains_nothing() {
    let e = FactSet::empty();
    for x in 0..10 {
        assert!(!e.contains(x));
    }
}

#[test]
fn insert_and_contains() {
    let s = fs(&[3, 7, 3]);
    assert!(s.contains(3));
    assert!(s.contains(7));
    assert!(!s.contains(5));
}

#[test]
fn union_exact() {
    let a = fs(&[1, 2]);
    let b = fs(&[2, 3]);
    let u = a.union(&b);
    assert!(u.set_eq(&fs(&[1, 2, 3])));
}

#[test]
fn intersection_exact() {
    let a = fs(&[1, 2, 4]);
    let b = fs(&[2, 3, 4]);
    let i = a.intersection(&b);
    assert!(i.set_eq(&fs(&[2, 4])));
}

#[test]
fn difference_exact() {
    let a = fs(&[1, 2, 4]);
    let b = fs(&[2, 3]);
    let d = a.difference(&b);
    assert!(d.set_eq(&fs(&[1, 4])));
}

#[test]
fn subset_and_eq() {
    let a = fs(&[1, 2]);
    let b = fs(&[1, 2, 3]);
    assert!(a.is_subset(&b));
    assert!(!b.is_subset(&a));
    assert!(a.set_eq(&fs(&[2, 1])));
    assert!(!a.set_eq(&b));
}

#[test]
fn union_intersection_idempotent() {
    let mut seed = 42u64;
    for _ in 0..20 {
        let a = random_set(&mut seed);
        assert!(a.clone().union(&a).set_eq(&a));
        assert!(a.clone().intersection(&a).set_eq(&a));
    }
}

#[test]
fn union_intersection_commutative() {
    let mut seed = 7u64;
    for _ in 0..20 {
        let a = random_set(&mut seed);
        let b = random_set(&mut seed);
        assert!(a.clone().union(&b).set_eq(&b.clone().union(&a)));
        assert!(a.clone().intersection(&b).set_eq(&b.clone().intersection(&a)));
    }
}

#[test]
fn union_intersection_associative() {
    let mut seed = 99u64;
    for _ in 0..20 {
        let a = random_set(&mut seed);
        let b = random_set(&mut seed);
        let c = random_set(&mut seed);
        let left_u = a.clone().union(&b).union(&c);
        let right_u = a.clone().union(&b.clone().union(&c));
        assert!(left_u.set_eq(&right_u));
        let left_i = a.clone().intersection(&b).intersection(&c);
        let right_i = a.clone().intersection(&b.clone().intersection(&c));
        assert!(left_i.set_eq(&right_i));
    }
}
