use std::collections::hash_map::DefaultHasher;
use std::collections::HashSet;
use std::hash::{Hash, Hasher};

use lme_core::pair::Pair;

#[test]
fn pair_creation() {
    let pair1 = Pair::new(1, 2);
    let pair2 = Pair::new(1, 2);
    let pair3 = Pair::new(2, 4);
    let pair4 = Pair::new(3, 4);
    let set = HashSet::from([pair1, pair2, pair3, pair4]);
    assert_eq!(
        set,
        HashSet::from([Pair::new(1, 2), Pair::new(2, 4), Pair::new(3, 4)])
    );
    assert_eq!(
        set.into_iter()
            .filter(|pair| pair.contains(4))
            .collect::<Vec<_>>()
            .len(),
        2
    );
}

fn hash_of(p: &Pair) -> u64 {
    let mut h = DefaultHasher::new();
    p.hash(&mut h);
    h.finish()
}

#[test]
fn pair_symmetry() {
    let a = Pair::new(7, 3);
    let b = Pair::new(3, 7);
    assert_eq!(a, b);
    assert_eq!(hash_of(&a), hash_of(&b));
    assert_eq!(a.components(), (3, 7));
    assert_eq!(a.get_another(3), Some(7));
    assert_eq!(a.get_another(7), Some(3));
    assert_eq!(a.get_another(5), None);
}

#[test]
fn pair_offset() {
    let p = Pair::new(2, 5).offset(10);
    assert_eq!(p.components(), (12, 15));
}
