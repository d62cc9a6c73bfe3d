//! Test utilities carried alongside the library: a recursive and a
//! resumable implementation of Heap's permutation algorithm, checked
//! against each other, and a bounded random-vector builder.

use rust_algorithms::knapsack_problem::vector_same_set_test;

pub const MAX_PERMUTATION_SIZE: usize = 10;

/// A small deterministic pseudo-random generator, so the randomised
/// tests are reproducible.
struct XorShift {
    state: u64,
}

impl XorShift {
    fn new(seed: u64) -> XorShift {
        XorShift { state: if seed == 0 { 0x9e3779b97f4a7c15 } else { seed } }
    }

    fn next_u64(&mut self) -> u64 {
        let mut x = self.state;
        x ^= x << 13;
        x ^= x >> 7;
        x ^= x << 17;
        self.state = x;
        x
    }
}

fn random_vector(rng: &mut XorShift, max_length: usize) -> Vec<u32> {
    if max_length == 0 {
        return Vec::new();
    }
    let length = (rng.next_u64() as usize) % (max_length + 1);
    (0..length).map(|_| rng.next_u64() as u32).collect()
}

fn heaps_algorithm_helper<F, T>(current: &mut [T], callback: &mut F, position: usize)
where
    F: FnMut(&mut [T]),
{
    if position == 1 {
        callback(current);
        return;
    } else if position == 0 {
        panic!(
            "heaps_algorithm_helper() called with position == 0\n\
                    This should never happen -- investigate please."
        );
    }

    for i in 0..(position - 1) {
        heaps_algorithm_helper(current, callback, position - 1);
        let swap_index = if position % 2 == 0 { i } else { 0 };
        current.swap(swap_index, position - 1);
    }

    heaps_algorithm_helper(current, callback, position - 1);
}

fn heaps_algorithm<F, T>(current: &mut Vec<T>, callback: &mut F)
where
    F: FnMut(&mut [T]),
{
    let array_len = current.len();
    if array_len <= 1 {
        if array_len == 1 {
            callback(current);
        };
        return;
    }

    heaps_algorithm_helper(current, callback, array_len);

    // Return the vector we were given back to its original order,
    // using the known final permutation of Heap's algorithm.
    if array_len % 2 == 0 {
        current.swap(array_len - 1, 1);
        current.swap(array_len - 2, 0);
        let last_element = current.remove(0);
        current.push(last_element);
    } else {
        current.swap(array_len - 1, 0);
    }
}

#[derive(Clone, PartialEq, Debug)]
pub struct VectorPermutations<T> {
    permutation: Vec<T>,
    count: Vec<usize>,
    started: bool,
    index: usize,
}

impl<T> VectorPermutations<T> {
    pub fn from_vec(original_vector: Vec<T>) -> VectorPermutations<T> {
        let len = original_vector.len();
        VectorPermutations {
            permutation: original_vector,
            count: vec![0; len],
            started: false,
            index: 0,
        }
    }

    pub fn permute(&mut self) -> Option<&Vec<T>> {
        // Start and end conditions
        let num_elements = self.permutation.len();
        if !self.started {
            if self.permutation.is_empty() {
                return None;
            }
            self.started = true;
            // Return original permutation as first one.
            return Some(&self.permutation);
        }

        // Move one more step along Heap's algorithm
        while self.index < num_elements {
            if self.count[self.index] < self.index {
                let swap_index = self.index % 2 * self.count[self.index];
                self.permutation.swap(swap_index, self.index);
                self.count[self.index] += 1;
                self.index = 1;
                return Some(&self.permutation);
            } else {
                self.count[self.index] = 0;
                self.index += 1;
            }
        }

        // We have finished, and are about to return None.
        // To allow repeated use of this structure, we reset the value
        // to its initialised state, so that calling this function
        // again will start from the beginning.
        if num_elements % 2 == 0 {
            self.permutation.swap(num_elements - 1, 1);
            self.permutation.swap(num_elements - 2, 0);
            let last_element = self.permutation.remove(0);
            self.permutation.push(last_element);
        } else {
            self.permutation.swap(num_elements - 1, 0);
        }

        for value in self.count.iter_mut() {
            *value = 0;
        }

        self.started = false;
        self.index = 0;
        None
    }
}

#[test]
fn permuter_handles_empty() {
    let mut myvector = Vec::new();
    let mut complainer = |_: &mut [u32]| {
        panic!("Should not be called");
    };
    heaps_algorithm(&mut myvector, &mut complainer);
}

#[test]
#[should_panic(expected = "heaps_algorithm_helper() called with position == 0\n\
                    This should never happen -- investigate please.")]
fn recursive_call_panics_on_empty() {
    let mut rng = XorShift::new(7);
    let mut rand_vec: Vec<u32> = random_vector(&mut rng, MAX_PERMUTATION_SIZE);
    heaps_algorithm_helper(
        &mut rand_vec,
        &mut |_: &mut [u32]| {
            panic!("Not correct panic");
        },
        0,
    );
}

#[test]
fn permuter_handles_base_case() {
    let mut testvector: Vec<u32> = vec![1];
    let samevector = testvector.clone();
    let mut callback = |test_array: &mut [u32]| {
        assert_eq!(test_array, &samevector as &[u32]);
    };
    heaps_algorithm(&mut testvector, &mut callback);
    heaps_algorithm_helper(&mut testvector, &mut callback, 1);

    // Also test that the recursive part of the function immediately calls the
    // callback if "position" is 1 no matter what the slice is.
    let mut alternate_test: Vec<u32> = vec![1, 2, 3, 4];
    let samevector = alternate_test.clone();
    let mut altcallback = |test_array: &mut [u32]| {
        assert_eq!(test_array, &samevector as &[u32]);
    };
    heaps_algorithm_helper(&mut alternate_test, &mut altcallback, 1);
}

#[test]
fn same_permutations() {
    let mut rng = XorShift::new(11);
    let initial_random: Vec<u32> = random_vector(&mut rng, MAX_PERMUTATION_SIZE);
    println!("Initial vector: {:?}", initial_random);
    let mut test_vector = initial_random.clone();
    let mut vector_permutations = VectorPermutations::from_vec(initial_random);
    let mut count = 0;
    {
        let mut callback = |array_check: &mut [u32]| {
            count += 1;
            if let Some(new_permutation) = vector_permutations.permute() {
                assert_eq!(array_check, new_permutation as &[u32]);
            } else {
                panic!("Element number {:?} of the VectorPermutations structure missing.", count);
            }
        };
        heaps_algorithm(&mut test_vector, &mut callback);
    }
    assert!(vector_permutations.permute().is_none());
}

#[test]
fn state_is_reset() {
    let mut rng = XorShift::new(13);
    let permute_start: Vec<u32> = random_vector(&mut rng, MAX_PERMUTATION_SIZE);
    println!("Initial vector: {:?}", permute_start);
    let mut vector_permutations = VectorPermutations::from_vec(permute_start);
    let mut initial_state = vector_permutations.clone();
    while let Some(_) = vector_permutations.permute() {
        // Just to iterate through the initial state.
    }

    assert_eq!(initial_state, vector_permutations);

    loop {
        {
            let initial = vector_permutations.permute();
            let alternate = initial_state.permute();

            if initial.is_none() {
                assert!(alternate.is_none());
                break;
            }
            assert_eq!(*(alternate.unwrap()), *(initial.unwrap()));
        }
        assert_eq!(initial_state, vector_permutations);
    }
    assert_eq!(initial_state, vector_permutations);
}

#[test]
fn random_vector_good_size() {
    let mut rng = XorShift::new(17);
    for i in 0..20 {
        for _ in 0..2000 {
            assert!(random_vector(&mut rng, i).len() <= i);
        }
    }
}

#[test]
fn recursivetests_permuter_handles_empty() {
    let mut myvector = Vec::new();
    let mut complainer = |_: &mut [u32]| {
        panic!("Should not be called");
    };
    heaps_algorithm(&mut myvector, &mut complainer);
}

#[test]
fn recursivetests_permuter_handles_base_case() {
    let mut testvector: Vec<u32> = vec![1];
    let samevector = testvector.clone();
    let mut callback = |test_array: &mut [u32]| {
        assert_eq!(test_array, &samevector as &[u32]);
    };
    heaps_algorithm(&mut testvector, &mut callback);
    heaps_algorithm_helper(&mut testvector, &mut callback, 1);
}

#[test]
fn recursivetests_same_permutations() {
    let mut rng = XorShift::new(19);
    let initial_random: Vec<u32> = random_vector(&mut rng, MAX_PERMUTATION_SIZE);
    println!("Initial vector: {:?}", initial_random);
    let mut test_vector = initial_random.clone();
    let mut vector_permutations = VectorPermutations::from_vec(initial_random);
    let mut count = 0;
    {
        let mut callback = |array_check: &mut [u32]| {
            count += 1;
            if let Some(new_permutation) = vector_permutations.permute() {
                assert_eq!(array_check, new_permutation as &[u32]);
            } else {
                panic!("Element number {:?} of the VectorPermutations structure missing.", count);
            }
        };
        heaps_algorithm(&mut test_vector, &mut callback);
    }
    assert!(vector_permutations.permute().is_none());
}

#[test]
fn every_permutation_is_the_same_multiset() {
    let original: Vec<u32> = vec![4, 4, 7, 9];
    let mut permutations = VectorPermutations::from_vec(original.clone());
    while let Some(p) = permutations.permute() {
        assert!(vector_same_set_test(p, &original));
    }
}
