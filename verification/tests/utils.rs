use perm::permutations::utils::{
    decrease_or_remove_positive_frequency, factorial, values_with_frequency, Frequency,
};

fn count_of(table: &Vec<Frequency>, value: u64) -> Option<usize> {
    for entry in table {
        if entry.value == value {
            return Some(entry.count);
        }
    }
    None
}

#[test]
fn factorial_has_exact_values() {
    assert_eq!(factorial(0), 1);
    assert_eq!(factorial(1), 1);
    assert_eq!(factorial(5), 120);
    assert_eq!(factorial(20), 2432902008176640000);
}

#[test]
fn frequencies_count_each_distinct_value() {
    let table = values_with_frequency(&vec![5, 5, 7, 5, 9]);
    assert_eq!(table.len(), 3);
    assert_eq!(count_of(&table, 5), Some(3));
    assert_eq!(count_of(&table, 7), Some(1));
    assert_eq!(count_of(&table, 9), Some(1));
    assert_eq!(count_of(&table, 8), None);
    assert!(values_with_frequency(&vec![]).is_empty());
}

#[test]
fn decreasing_a_frequency_removes_exhausted_entries() {
    let mut table = values_with_frequency(&vec![5, 5, 7]);
    decrease_or_remove_positive_frequency(&mut table, 7);
    assert_eq!(count_of(&table, 7), None);
    assert_eq!(count_of(&table, 5), Some(2));
    decrease_or_remove_positive_frequency(&mut table, 5);
    assert_eq!(count_of(&table, 5), Some(1));
    decrease_or_remove_positive_frequency(&mut table, 42);
    assert_eq!(table.len(), 1);
    assert_eq!(count_of(&table, 5), Some(1));
}
