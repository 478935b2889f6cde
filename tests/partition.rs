use numeric_core::{ContiguousPartitionExt, ContiguousPartitions};

fn collect_parts(mut parts: ContiguousPartitions<'_, i32>) -> Vec<Vec<Vec<i32>>> {
    let mut all = Vec::new();
    while let Some(p) = parts.next() {
        all.push(p.into_iter().map(|s| s.to_vec()).collect());
    }
    all
}

fn binomial(n: usize, k: usize) -> usize {
    let mut r = 1;
    for i in 0..k {
        r = r * (n - i) / (i + 1);
    }
    r
}

#[test]
fn test_n_zero() {
    let digits = [1, 2, 3, 4, 5];
    assert!(digits.contiguous_partitions(0).is_none());
}

#[test]
fn test_n_greater_than_len() {
    let digits = [1, 2, 3, 4, 5];
    assert!(digits.contiguous_partitions(6).is_none());
}

#[test]
fn test_n_one() {
    let digits = [1, 2, 3, 4, 5];
    let partitions: Vec<Vec<Vec<i32>>> = collect_parts(digits.contiguous_partitions(1).unwrap());
    assert_eq!(partitions, vec![vec![digits.to_vec()]]);
}

#[test]
fn test_n_len() {
    let digits = [1, 2, 3, 4, 5];
    let partitions: Vec<Vec<Vec<i32>>> = collect_parts(digits.contiguous_partitions(5).unwrap());
    let expected: Vec<Vec<Vec<i32>>> = vec![digits.iter().map(|x| vec![*x]).collect()];
    assert_eq!(partitions, expected);
}

#[test]
fn test_n_three() {
    let digits = [1, 2, 3, 4, 5];
    let partitions: Vec<Vec<Vec<i32>>> = collect_parts(digits.contiguous_partitions(3).unwrap());

    let expected = vec![
        vec![vec![1], vec![2], vec![3, 4, 5]],
        vec![vec![1], vec![2, 3], vec![4, 5]],
        vec![vec![1], vec![2, 3, 4], vec![5]],
        vec![vec![1, 2], vec![3], vec![4, 5]],
        vec![vec![1, 2], vec![3, 4], vec![5]],
        vec![vec![1, 2, 3], vec![4], vec![5]],
    ];

    assert_eq!(partitions, expected);
}

#[test]
fn new_rejects_bad_counts() {
    let digits = [7, 8, 9];
    assert!(ContiguousPartitions::new(&digits, 0).is_none());
    assert!(ContiguousPartitions::new(&digits, 4).is_none());
    assert!(ContiguousPartitions::new(&digits, 3).is_some());
    let empty: [i32; 0] = [];
    assert!(empty.contiguous_partitions(1).is_none());
}

#[test]
fn counts_are_binomial_and_parts_rebuild() {
    let items: Vec<i32> = (1..=8).collect();
    for n in 1..=items.len() {
        let all = collect_parts(ContiguousPartitions::new(&items, n).unwrap());
        assert_eq!(all.len(), binomial(items.len() - 1, n - 1));
        for p in &all {
            assert_eq!(p.len(), n);
            assert!(p.iter().all(|part| !part.is_empty()));
            let joined: Vec<i32> = p.iter().flatten().copied().collect();
            assert_eq!(joined, items);
        }
        for i in 0..all.len() {
            for j in i + 1..all.len() {
                assert_ne!(all[i], all[j]);
            }
        }
    }
}

#[test]
fn single_item_has_one_partition() {
    let items = [42];
    let all = collect_parts(items.contiguous_partitions(1).unwrap());
    assert_eq!(all, vec![vec![vec![42]]]);
}

#[test]
fn exhausted_generator_stays_exhausted() {
    let items = [1, 2];
    let mut parts = items.contiguous_partitions(2).unwrap();
    assert_eq!(parts.next().map(|p| p.len()), Some(2));
    assert!(parts.next().is_none());
    assert!(parts.next().is_none());
}
