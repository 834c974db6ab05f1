use catalyst_toolbox::distribution::distribute;
use catalyst_toolbox::RewardsError;

#[test]
fn three_equal_weights_budget_100() {
    let shares = distribute(100, &vec![1, 1, 1]).unwrap();
    assert_eq!(shares, vec![34, 33, 33]);
    let total: u64 = shares.iter().sum();
    assert_eq!(total, 100);
}

#[test]
fn conservation_with_remainder() {
    let shares = distribute(10, &vec![3, 3, 3]).unwrap();
    assert_eq!(shares, vec![4, 3, 3]);
    let total: u64 = shares.iter().sum();
    assert_eq!(total, 10);
}

#[test]
fn conservation_exact_split() {
    let shares = distribute(7, &vec![1, 2, 4]).unwrap();
    assert_eq!(shares, vec![1, 2, 4]);
}

#[test]
fn proportionality_within_one_unit() {
    let budget: u64 = 7;
    let weights: Vec<u64> = vec![2, 3];
    let shares = distribute(budget, &weights).unwrap();
    assert_eq!(shares, vec![3, 4]);
    let w_total: i128 = 5;
    for i in 0..weights.len() {
        let diff = shares[i] as i128 * w_total - budget as i128 * weights[i] as i128;
        assert!(-w_total < diff && diff < w_total);
    }
}

#[test]
fn largest_remainder_goes_first() {
    // remainders: 85 for the first weight, 15 for the second
    let shares = distribute(12345, &vec![13, 87]).unwrap();
    assert_eq!(shares, vec![1605, 10740]);
}

#[test]
fn zero_weights_rejected() {
    assert_eq!(distribute(5, &vec![0, 0]), Err(RewardsError::InvalidInput));
    assert_eq!(distribute(5, &vec![]), Err(RewardsError::InvalidInput));
}

#[test]
fn zero_budget_zero_shares() {
    assert_eq!(distribute(0, &vec![0, 0]).unwrap(), vec![0, 0]);
    assert_eq!(distribute(0, &vec![1, 2]).unwrap(), vec![0, 0]);
    assert_eq!(distribute(0, &vec![]).unwrap(), Vec::<u64>::new());
}

#[test]
fn rerun_is_identical() {
    let weights: Vec<u64> = vec![5, 0, 7, 7, 1];
    let a = distribute(1000, &weights).unwrap();
    let b = distribute(1000, &weights).unwrap();
    assert_eq!(a, b);
    let total: u64 = a.iter().sum();
    assert_eq!(total, 1000);
}
