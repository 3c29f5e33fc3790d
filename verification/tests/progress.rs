use patina::progress::divide_increment;

#[test]
fn shares_round_up_until_the_units_run_out() {
    assert_eq!(divide_increment(10, 4), vec![3, 3, 3, 1]);
    assert_eq!(divide_increment(9, 3), vec![3, 3, 3]);
    assert_eq!(divide_increment(2, 5), vec![1, 1, 0, 0, 0]);
    assert_eq!(divide_increment(0, 2), vec![0, 0]);
}

#[test]
fn division_hands_out_every_unit() {
    for total in 0u64..40 {
        for count in 1u64..12 {
            let parts = divide_increment(total, count);
            assert_eq!(parts.len() as u64, count);
            assert_eq!(parts.iter().sum::<u64>(), total);
        }
    }
}
