use combat_dice::cartesian_fold::IterExt;

#[test]
fn numbers_from_digits() {
    let factors: Vec<Vec<i32>> = (0..3).map(|i| (i..(i + 2)).collect()).collect();
    let mut product = factors.cartesian_collections();
    let mut numbers = Vec::new();
    while let Some(items) = product.next() {
        numbers.push(items.iter().fold(0, |pr, next| pr * 10 + *next));
    }
    assert_eq!(numbers, vec![12, 112, 22, 122, 13, 113, 23, 123]);
}

#[test]
fn if_one_iter_is_empty_result_is_empty() {
    let numbers = vec![vec![1, 2], vec![], vec![1, 2, 3]];
    let mut product = numbers.cartesian_collections();
    assert_eq!(product.next().map(|items| items.iter().fold(0, |_, _| 0)), None);
}

fn all_of(factors: Vec<Vec<u8>>) -> Vec<Vec<u8>> {
    let mut product = factors.cartesian_collections();
    let mut combinations = Vec::new();
    while let Some(items) = product.next() {
        combinations.push(items.to_vec());
    }
    assert!(product.next().is_none());
    combinations
}

#[test]
fn two_by_three_makes_six_in_odometer_order() {
    let combinations = all_of(vec![vec![1, 2], vec![10, 20, 30]]);
    assert_eq!(
        combinations,
        vec![vec![1, 10], vec![2, 10], vec![1, 20], vec![2, 20], vec![1, 30], vec![2, 30]],
    );
    for (i, one) in combinations.iter().enumerate() {
        assert!(combinations.iter().skip(i + 1).all(|other| other != one));
    }
}

#[test]
fn no_factor_makes_one_empty_combination() {
    assert_eq!(all_of(vec![]), vec![Vec::<u8>::new()]);
}

#[test]
fn a_factor_of_one_never_advances() {
    assert_eq!(all_of(vec![vec![7], vec![1, 2], vec![9]]), vec![vec![7, 1, 9], vec![7, 2, 9]]);
    assert_eq!(all_of(vec![vec![7]]), vec![vec![7]]);
}

#[test]
fn an_empty_factor_anywhere_makes_nothing() {
    assert!(all_of(vec![vec![], vec![1]]).is_empty());
    assert!(all_of(vec![vec![1], vec![2, 3], vec![]]).is_empty());
}
