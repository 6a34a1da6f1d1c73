use amba::disjoint_sets::{DisjointSets, LIMIT};
use std::collections::{HashMap, HashSet};

/// A plain model of the sets: each element's representative, and each
/// representative's elements.
#[derive(Default)]
struct Slow {
    /// Map element to representative
    canon: HashMap<u64, u64>,
    /// Map representative to elements
    sets: HashMap<u64, HashSet<u64>>,
}

impl Slow {
    fn merge(&mut self, a: u64, b: u64) -> bool {
        let mut a = self.canonicalize(a);
        let mut b = self.canonicalize(b);
        if a == b {
            return false;
        }
        if a > b {
            std::mem::swap(&mut a, &mut b);
        }
        for bb in self.sets.remove(&b).unwrap() {
            self.canon.insert(bb, a);
            self.sets.get_mut(&a).unwrap().insert(bb);
        }
        true
    }

    fn canonicalize(&mut self, x: u64) -> u64 {
        assert!(x < LIMIT);
        if !self.canon.contains_key(&x) {
            self.canon.insert(x, x);
            self.sets.insert(x, [x].into_iter().collect());
        }
        self.canon[&x]
    }
}

#[derive(Debug)]
enum Instruction {
    Merge(u64, u64),
    Canonicalize(u64),
}

fn compare_behavior(instructions: Vec<Instruction>) {
    let mut slow = Slow::default();
    let mut fast = DisjointSets::default();
    assert!(LIMIT.is_power_of_two());
    for ins in instructions {
        match ins {
            Instruction::Merge(a, b) => {
                let r1 = slow.merge(a, b);
                let r2 = fast.merge(a, b);
                assert_eq!(r1, r2, "different merge behavior");
            }
            Instruction::Canonicalize(x) => {
                let r1 = slow.canonicalize(x);
                let r2 = fast.canonicalize(x);
                assert_eq!(r1, r2, "different canonicalize behavior");
            }
        }
    }
}

/// A linear congruential generator, so that every run checks the same
/// cases.
struct Lcg(u64);

impl Lcg {
    fn next(&mut self) -> u64 {
        self.0 = self.0.wrapping_mul(6364136223846793005).wrapping_add(1442695040888963407);
        self.0
    }

    fn below(&mut self, n: u64) -> u64 {
        // The high bits are the well-mixed ones.
        let x = self.next();
        ((x as u128 * n as u128) >> 64) as u64
    }
}

/// Runs `cases` random lists of fewer than `instructions` instructions on
/// elements below `elements`.
fn run(seed: u64, cases: usize, elements: u64, instructions: u64) {
    assert!(elements <= LIMIT);
    let mut rng = Lcg(seed);
    for _ in 0..cases {
        let n = rng.below(instructions);
        let list: Vec<Instruction> = (0..n)
            .map(|_| {
                if rng.next() >> 63 == 0 {
                    Instruction::Merge(rng.below(elements), rng.below(elements))
                } else {
                    Instruction::Canonicalize(rng.below(elements))
                }
            })
            .collect();
        compare_behavior(list);
    }
}

#[test]
fn compare_1_20() {
    run(1_20, 10_000, 1, 20);
}

#[test]
fn compare_2_20() {
    run(2_20, 10_000, 2, 20);
}

#[test]
fn compare_3_20() {
    run(3_20, 10_000, 3, 20);
}

#[test]
fn compare_4_4() {
    run(4_4, 10_000, 4, 4);
}

#[test]
fn compare_5_3() {
    run(5_3, 20_000, 5, 3);
}

#[test]
fn compare_10_3() {
    run(10_3, 20_000, 10, 3);
}

#[test]
fn compare_all_3() {
    run(0xa11_3, 20_000, LIMIT, 3);
}
