use rust_algorithms::knapsack_problem::{
    Item, KnapsackProblem, KnapsackSolution, best_knapsack, vector_same_set_test,
};

pub const MAX_VECTOR_SIZE: usize = 30;

/// A small deterministic pseudo-random generator, so the randomised
/// tests are reproducible.
struct XorShift {
    state: u64,
}

impl XorShift {
    fn new(seed: u64) -> XorShift {
        XorShift { state: if seed == 0 { 0x9e3779b97f4a7c15 } else { seed } }
    }

    fn next_u64(&mut self) -> u64 {
        let mut x = self.state;
        x ^= x << 13;
        x ^= x >> 7;
        x ^= x << 17;
        self.state = x;
        x
    }
}

/// Items with attributes in the 16 bit range, so that with 30 elements
/// in a knapsack neither value nor weight can overflow a u32.
fn random_items(rng: &mut XorShift, max_length: usize) -> Vec<Item> {
    if max_length == 0 {
        return Vec::new();
    }
    let length = (rng.next_u64() as usize) % (max_length + 1);
    (0..length)
        .map(|_| Item {
            item_weight: (rng.next_u64() & 0xffff) as u32,
            item_value: (rng.next_u64() & 0xffff) as u32,
        })
        .collect()
}

fn random_u32_vector(rng: &mut XorShift, max_length: usize) -> Vec<u32> {
    if max_length == 0 {
        return Vec::new();
    }
    let length = (rng.next_u64() as usize) % (max_length + 1);
    (0..length).map(|_| rng.next_u64() as u32).collect()
}

fn alternate_same_set<T: PartialEq + Ord>(left: &mut Vec<T>, right: &mut Vec<T>) -> bool {
    left.sort();
    right.sort();
    left == right
}

#[test]
fn handles_base_case() {
    let knapsack_problem = KnapsackProblem { kp_capacity: 0, kp_options: Vec::new() };
    let knapsack_solution = best_knapsack(knapsack_problem);
    let correct_solution = KnapsackSolution {
        ks_weight: 0,
        ks_value: 0,
        ks_capacity: 0,
        ks_items: Vec::new(),
    };
    assert_eq!(knapsack_solution, correct_solution);
}

#[test]
fn handles_simple() {
    let item_options = vec![
        Item { item_weight: 12, item_value: 4 },
        Item { item_weight: 1, item_value: 1 },
        Item { item_weight: 1, item_value: 2 },
        Item { item_weight: 2, item_value: 2 },
        Item { item_weight: 4, item_value: 10 },
    ];

    let knapsack_problem = KnapsackProblem { kp_capacity: 15, kp_options: item_options.clone() };
    let correct_solution = KnapsackSolution {
        ks_weight: 8,
        ks_value: 15,
        ks_capacity: 7,
        ks_items: item_options[1..].to_vec(),
    };

    assert_eq!(best_knapsack(knapsack_problem), correct_solution);
}

#[test]
fn ignores_valueless() {
    let knapsack_problem = KnapsackProblem {
        kp_capacity: 10,
        kp_options: vec![Item { item_weight: 1, item_value: 0 }],
    };
    let knapsack_solution = best_knapsack(knapsack_problem);
    let correct_solution = KnapsackSolution {
        ks_weight: 0,
        ks_value: 0,
        ks_capacity: 10,
        ks_items: Vec::new(),
    };
    assert_eq!(knapsack_solution, correct_solution);
}

#[test]
fn same_result_each_time() {
    let mut rng = XorShift::new(12);
    // The solver is exponential in the item count, so the randomised
    // problems stay small enough to finish quickly.
    let rand_vec = random_items(&mut rng, 14);
    let random_capacity = rng.next_u64() as u32;

    let original_answer = best_knapsack(KnapsackProblem {
        kp_capacity: random_capacity,
        kp_options: rand_vec.clone(),
    });
    let other_answer = best_knapsack(KnapsackProblem {
        kp_capacity: random_capacity,
        kp_options: rand_vec.clone(),
    });

    assert_eq!(other_answer, original_answer);
}

#[test]
fn set_comparison() {
    let mut rng = XorShift::new(34);
    let mut left: Vec<u32> = random_u32_vector(&mut rng, MAX_VECTOR_SIZE);
    let mut right: Vec<u32> = if rng.next_u64() % 2 == 0 {
        left.clone()
    } else {
        random_u32_vector(&mut rng, MAX_VECTOR_SIZE)
    };
    let originally_same = vector_same_set_test(&left, &right);
    let after_same = alternate_same_set(&mut left, &mut right);
    assert!(
        after_same == originally_same,
        "left: {:?}    right: {:?}\n\
            Fast version: {:?}, Slow Version: {:?}",
        left,
        right,
        originally_same,
        after_same
    );
}

#[test]
fn mod_handles_base_case() {
    let knapsack_problem = KnapsackProblem { kp_capacity: 0, kp_options: Vec::new() };
    let knapsack_solution = best_knapsack(knapsack_problem);
    let correct_solution = KnapsackSolution {
        ks_weight: 0,
        ks_value: 0,
        ks_capacity: 0,
        ks_items: Vec::new(),
    };
    assert_eq!(knapsack_solution, correct_solution);
}

#[test]
fn mod_handles_simple() {
    let item_options = vec![
        Item { item_weight: 12, item_value: 4 },
        Item { item_weight: 1, item_value: 1 },
        Item { item_weight: 1, item_value: 2 },
        Item { item_weight: 2, item_value: 2 },
        Item { item_weight: 4, item_value: 10 },
    ];

    let knapsack_problem = KnapsackProblem { kp_capacity: 15, kp_options: item_options.clone() };
    let correct_solution = KnapsackSolution {
        ks_weight: 8,
        ks_value: 15,
        ks_capacity: 7,
        ks_items: item_options[1..].to_vec(),
    };

    assert_eq!(best_knapsack(knapsack_problem), correct_solution);
}

#[test]
fn mod_same_result_each_time() {
    let mut rng = XorShift::new(56);
    for _ in 0..8 {
        let rand_vec = random_items(&mut rng, 12);
        let random_capacity = rng.next_u64() as u32;

        let original_answer = best_knapsack(KnapsackProblem {
            kp_capacity: random_capacity,
            kp_options: rand_vec.clone(),
        });
        let other_answer = best_knapsack(KnapsackProblem {
            kp_capacity: random_capacity,
            kp_options: rand_vec.clone(),
        });

        assert_eq!(other_answer, original_answer);
    }
}

#[test]
fn mod_set_comparison() {
    let mut rng = XorShift::new(78);
    for _ in 0..16 {
        let mut left: Vec<u32> = random_u32_vector(&mut rng, MAX_VECTOR_SIZE);
        let mut right: Vec<u32> = if rng.next_u64() % 2 == 0 {
            left.clone()
        } else {
            random_u32_vector(&mut rng, MAX_VECTOR_SIZE)
        };
        let originally_same = vector_same_set_test(&left, &right);
        let after_same = alternate_same_set(&mut left, &mut right);
        assert!(after_same == originally_same);
    }
}

#[test]
fn picks_light_item_over_heavy_one() {
    // Two items, but only the light one fits the capacity of 3.
    let solution = best_knapsack(KnapsackProblem {
        kp_capacity: 3,
        kp_options: vec![
            Item { item_weight: 10, item_value: 100 },
            Item { item_weight: 1, item_value: 1 },
        ],
    });
    assert_eq!(
        solution,
        KnapsackSolution {
            ks_weight: 1,
            ks_capacity: 2,
            ks_value: 1,
            ks_items: vec![Item { item_weight: 1, item_value: 1 }],
        }
    );
}

#[test]
fn vector_same_set_ignores_order_only() {
    assert!(vector_same_set_test(&vec![0, 1, 2], &vec![2, 0, 1]));
    assert!(!vector_same_set_test(&vec![1, 1, 2], &vec![2, 1]));
    assert!(!vector_same_set_test(&vec![0, 1, 2], &vec![3, 1, 2]));
    assert!(!vector_same_set_test(&vec![1, 1, 2], &vec![2, 2, 1]));
    let empty: Vec<u32> = Vec::new();
    assert!(vector_same_set_test(&empty, &Vec::new()));
}
