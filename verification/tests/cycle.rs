use puzzles::cycle::find_first_cycled_sum_repeat;

#[test]
fn test_find_first_cycled_sum_repeat() {
    assert_eq!(
        find_first_cycled_sum_repeat(&[] as &[i64], 0),
        None
    );

    assert_eq!(
        // doesn't need to cycle, first cycling sum is found for last
        find_first_cycled_sum_repeat(&[1, -1], 0),
        Some(0)
    );

    assert_eq!(
        find_first_cycled_sum_repeat(&[1, -1], 1),
        Some(0)
    );

    assert_eq!(
        find_first_cycled_sum_repeat(&[3, 3, 4, -2, -4], 0),
        None
    );

    assert_eq!(
        find_first_cycled_sum_repeat(&[3, 3, 4, -2, -4], 1),
        Some(10)
    );

    assert_eq!(
        find_first_cycled_sum_repeat(&[7, 7, -2, -7, -4], 2),
        Some(14)
    );
}
