use perm::{EngineError, Permutations};

/// Drive the general engine to exhaustion, returning each chunk's rendering.
fn general_chunks(values: Vec<u64>, size: usize) -> Vec<String> {
    let mut chunks = Vec::new();
    let mut iterator = Permutations::new(values).into_chunks(size).unwrap();
    while let Some(chunk) = iterator.next() {
        chunks.push(chunk.render());
    }
    chunks
}

/// Drive the compact engine to exhaustion, returning each chunk's rendering.
fn optimized_chunks(values: Vec<u64>, size: usize) -> Vec<String> {
    let mut chunks = Vec::new();
    let mut iterator = Permutations::new(values).into_optimized_chunks(size).unwrap();
    while let Some(chunk) = iterator.next() {
        chunks.push(chunk.render());
    }
    chunks
}

#[test]
fn empty_permutation_is_computed_correctly() {
    let permutations = general_chunks(vec![], 2);
    let optimized_permutations = optimized_chunks(vec![], 2);
    assert_eq!(permutations, vec!["\n".to_string()]);
    assert_eq!(optimized_permutations, vec!["\n".to_string()]);
}

#[test]
fn optimized_permutations_of_128_duplicates_are_computed_correctly() {
    let permutations = optimized_chunks([0u64; 128].to_vec(), 1);
    assert_eq!(
        permutations.join(""),
        std::iter::repeat("0,").take(127).collect::<String>() + "0\n"
    );
}

#[test]
fn optimized_permutations_of_129_values_cannot_be_computed() {
    let permutations = Permutations::new([0u64; 129].to_vec());
    assert!(!permutations.can_be_optimized());
}

#[test]
fn long_permutations_are_computed_correctly() {
    let permutations = general_chunks([0u64; 129].to_vec(), 1);
    assert_eq!(
        permutations.join(""),
        std::iter::repeat("0,").take(128).collect::<String>() + "0\n"
    );
}

#[test]
fn three_distinct_values_give_six_permutations() {
    for chunks in [general_chunks(vec![1, 2, 3], 1), optimized_chunks(vec![1, 2, 3], 1)] {
        assert_eq!(chunks.len(), 6);
        let mut sorted = chunks.clone();
        sorted.sort();
        assert_eq!(
            sorted,
            vec!["1,2,3\n", "1,3,2\n", "2,1,3\n", "2,3,1\n", "3,1,2\n", "3,2,1\n"]
        );
    }
}

#[test]
fn duplicates_collapse_to_distinct_permutations() {
    for chunks in [general_chunks(vec![1, 2, 2], 1), optimized_chunks(vec![1, 2, 2], 1)] {
        assert_eq!(chunks.len(), 3);
        let mut sorted = chunks.clone();
        sorted.sort();
        assert_eq!(sorted, vec!["1,2,2\n", "2,1,2\n", "2,2,1\n"]);
    }
}

#[test]
fn all_equal_values_give_one_permutation() {
    for size in [1, 2, 5] {
        assert_eq!(general_chunks(vec![1, 1, 1], size), vec!["1,1,1\n"]);
        assert_eq!(optimized_chunks(vec![1, 1, 1], size), vec!["1,1,1\n"]);
    }
}

#[test]
fn chunk_size_changes_grouping_but_not_permutations() {
    let mut iterator = Permutations::new(vec![1, 2, 3]).into_chunks(4).unwrap();
    let mut lengths = Vec::new();
    let mut lines = Vec::new();
    while let Some(chunk) = iterator.next() {
        lengths.push(chunk.len());
        for line in chunk.render().split_terminator('\n') {
            lines.push(format!("{}\n", line));
        }
    }
    assert_eq!(lengths, vec![4, 2]);
    let mut by_one: Vec<String> = general_chunks(vec![1, 2, 3], 1);
    by_one.sort();
    lines.sort();
    assert_eq!(lines, by_one);
}

#[test]
fn engines_produce_the_same_set_of_permutations() {
    let mut general: Vec<String> = general_chunks(vec![1, 2, 2, 3], 1);
    let mut optimized: Vec<String> = optimized_chunks(vec![1, 2, 2, 3], 1);
    general.sort();
    optimized.sort();
    assert_eq!(general, optimized);
}

#[test]
fn permutation_count_matches_the_multinomial() {
    // four values with one pair of duplicates: 4! / 2! = 12 permutations
    assert_eq!(general_chunks(vec![1, 1, 2, 3], 1).len(), 12);
    assert_eq!(optimized_chunks(vec![1, 1, 2, 3], 1).len(), 12);
}

#[test]
fn capacity_boundary_is_exact() {
    assert!(Permutations::new([7u64; 128].to_vec()).can_be_optimized());
    assert!(Permutations::new([7u64; 128].to_vec()).into_optimized_chunks(1).is_ok());
    match Permutations::new([7u64; 129].to_vec()).into_optimized_chunks(1) {
        Err(error) => assert_eq!(error, EngineError::Capacity),
        Ok(_) => panic!("129 values must exceed the compact engine's capacity"),
    }
    assert!(Permutations::new([7u64; 129].to_vec()).into_chunks(1).is_ok());
}

#[test]
fn zero_chunk_size_is_a_configuration_error() {
    match Permutations::new(vec![1, 2]).into_chunks(0) {
        Err(error) => assert_eq!(error, EngineError::Configuration),
        Ok(_) => panic!("a zero chunk size must be rejected"),
    }
    match Permutations::new(vec![1, 2]).into_optimized_chunks(0) {
        Err(error) => assert_eq!(error, EngineError::Configuration),
        Ok(_) => panic!("a zero chunk size must be rejected"),
    }
}

#[test]
fn multi_digit_values_render_in_decimal() {
    assert_eq!(general_chunks(vec![10], 1), vec!["10\n"]);
    let mut chunks = general_chunks(vec![10, 230], 1);
    chunks.sort();
    assert_eq!(chunks, vec!["10,230\n", "230,10\n"]);
    assert_eq!(optimized_chunks(vec![0, 18446744073709551615], 7).len(), 1);
}
