use puzzle_solvers::day06::{
    get_distance, get_labelled_array, get_labelled_number, get_races, get_races_2,
    get_winning_margin, multiply_all, part1, part2, MAX_RACE_TIME,
};

#[test]
fn test_distance() {
    let measures = [
        (0, 0),
        (1, 6),
        (2, 10),
        (3, 12),
        (4, 12),
        (5, 10),
        (6, 6),
        (7, 0),
    ];

    let duration = 7;
    for (button_hold, expected) in measures.iter() {
        assert_eq!(get_distance(*button_hold, duration), *expected);
    }
}

#[test]
fn test_winning_margin() {
    let races = [(7, 9), (15, 40), (30, 200)];
    let ways_to_win = [4, 8, 9];
    let expected = races.iter().zip(ways_to_win.iter());

    for ((duration, record), expected) in expected {
        let distances = get_winning_margin(*duration, *record);
        assert_eq!(distances.len(), *expected);
    }
}

#[test]
fn test_get_races() {
    let input = "Time: 7 15 30
        Distance: 9 40 200";

    let expected = [(7, 9), (15, 40), (30, 200)];

    let parsed = get_races(input.as_bytes()).unwrap();
    assert_eq!(parsed, expected);
}

#[test]
fn day06_test_part1() {
    let input = "Time: 7 15 30
           Distance: 9 40 200";
    assert_eq!(part1(input.as_bytes()), Some(288));
}

#[test]
fn day06_test_part2() {
    let input = "Time: 7 15 30
      Distance: 9 40 200";
    assert_eq!(part2(input.as_bytes()), Some(71503));
}

#[test]
fn winning_distances_in_order_of_hold() {
    assert_eq!(get_winning_margin(7, 9), vec![10, 12, 12, 10]);
    assert_eq!(get_winning_margin(0, 0), vec![]);
    assert_eq!(get_winning_margin(2, 0), vec![1]);
    assert_eq!(get_winning_margin(2, 1), vec![]);
}

#[test]
fn longest_race_still_fits() {
    let half = MAX_RACE_TIME / 2;
    assert_eq!(get_distance(half, MAX_RACE_TIME), u128::MAX - (u64::MAX as u128));
    assert_eq!(get_distance(MAX_RACE_TIME, MAX_RACE_TIME), 0);
}

#[test]
fn product_of_a_list() {
    assert_eq!(multiply_all(vec![]), Some(1));
    assert_eq!(multiply_all(vec![4, 8, 9]), Some(288));
    assert_eq!(multiply_all(vec![u128::MAX, 1]), Some(u128::MAX));
    assert_eq!(multiply_all(vec![u128::MAX, 2]), None);
    assert_eq!(multiply_all(vec![u128::MAX, 2, 0]), None);
    assert_eq!(multiply_all(vec![0, u128::MAX, 2]), Some(0));
}

#[test]
fn labelled_lines() {
    let (rest, times) = get_labelled_array(b"  Time:  7\t15 30 \n next", b"Time:").unwrap();
    assert_eq!(times, vec![7, 15, 30]);
    assert_eq!(rest, b"next");
    let (rest, none) = get_labelled_array(b"Time: x", b"Time:").unwrap();
    assert!(none.is_empty());
    assert_eq!(rest, b"x");
    assert!(get_labelled_array(b"Time:7", b"Time:").is_none());
    assert!(get_labelled_array(b"Tine: 7", b"Time:").is_none());
    let (rest, big) = get_labelled_array(
        b"T 340282366920938463463374607431768211455 340282366920938463463374607431768211456",
        b"T",
    )
    .unwrap();
    assert_eq!(big, vec![u128::MAX]);
    assert_eq!(rest, b"340282366920938463463374607431768211456");
    assert_eq!(get_labelled_number(b"Time: 7 15 30\nx", b"Time:"), Some((&b"x"[..], 71530)));
    assert_eq!(get_labelled_number(b"Time: x", b"Time:"), None);
    assert_eq!(
        get_labelled_number(b"T 3402823669209384634633746074317682114 56", b"T"),
        None
    );
}

#[test]
fn races_pair_times_with_records() {
    assert_eq!(get_races(b"Time: 1 2 3\nDistance: 4 5"), Some(vec![(1, 4), (2, 5)]));
    assert_eq!(get_races(b"Time: 1 2 3\nDistance: "), Some(vec![]));
    assert_eq!(get_races(b"Time: 1 2 3\nDistance:"), None);
    assert_eq!(get_races(b"Time: 1 2 3"), None);
    assert_eq!(get_races(b"Distance: 1\nTime: 1"), None);
    assert_eq!(get_races_2(b"Time: 7 15 30\nDistance: 9 40 200"), Some((71530, 940200)));
    assert_eq!(get_races_2(b"Time: 7\nDistance: x"), None);
}

#[test]
fn races_that_cannot_be_counted() {
    assert_eq!(part1(b"Time: 7\nDistance: 100"), Some(0));
    assert_eq!(part1(b"Time: \nDistance: 1"), Some(1));
    assert_eq!(part1(b"Time: 36893488147419103232\nDistance: 1"), None);
    assert_eq!(part2(b"Time: 36893488147419103232\nDistance: 1"), None);
    assert_eq!(part2(b"Tim: 7\nDistance: 1"), None);
    assert_eq!(part1(b"nothing"), None);
}
