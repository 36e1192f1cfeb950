use puzzle_solvers::day04::{get_card, get_winning_numbers, numbers_to_vec, part1, points, Card};

const CARDS: &str = "Card 1: 41 48 83 86 17 | 83 86  6 31 17  9 48 53
Card 2: 13 32 20 16 61 | 61 30 68 82 17 32 24 19
Card 3:  1 21 53 59 44 | 69 82 63 72 16 21 14  1
Card 4: 41 92 73 84 69 | 59 84 76 51 58  5 54 83
Card 5: 87 83 26 28 32 | 88 30 70 12 93 22 82 36
Card 6: 31 18 13 56 72 | 74 77 10 23 35 67 36 11";

#[test]
fn test_get_card() {
    let lines: &str = "
            Card 1: 41 48 83 86 17 | 83 86  6 31 17  9 48 53
            Card 2: 13 32 20 16 61 | 61 30 68 82 17 32 24 19
            Card 3:  1 21 53 59 44 | 69 82 63 72 16 21 14  1
            Card 4: 41 92 73 84 69 | 59 84 76 51 58  5 54 83
            Card 5: 87 83 26 28 32 | 88 30 70 12 93 22 82 36
            Card 6: 31 18 13 56 72 | 74 77 10 23 35 67 36 11";
    let expected = [
        Card {
            id: 1,
            your_numbers: vec![83, 86, 6, 31, 17, 9, 48, 53],
            winning_numbers: vec![41, 48, 83, 86, 17],
        },
        Card {
            id: 2,
            your_numbers: vec![61, 30, 68, 82, 17, 32, 24, 19],
            winning_numbers: vec![13, 32, 20, 16, 61],
        },
        Card {
            id: 3,
            your_numbers: vec![69, 82, 63, 72, 16, 21, 14, 1],
            winning_numbers: vec![1, 21, 53, 59, 44],
        },
        Card {
            id: 4,
            your_numbers: vec![59, 84, 76, 51, 58, 5, 54, 83],
            winning_numbers: vec![41, 92, 73, 84, 69],
        },
        Card {
            id: 5,
            your_numbers: vec![88, 30, 70, 12, 93, 22, 82, 36],
            winning_numbers: vec![87, 83, 26, 28, 32],
        },
        Card {
            id: 6,
            your_numbers: vec![74, 77, 10, 23, 35, 67, 36, 11],
            winning_numbers: vec![31, 18, 13, 56, 72],
        },
    ];

    for (i, line) in lines.trim().lines().enumerate() {
        let output = get_card(line.as_bytes()).unwrap();
        assert_eq!(output, expected[i]);
    }
}

#[test]
fn test_numbers_to_vec() {
    let input = "1 2   3 4 5   ";
    let expected = vec![1, 2, 3, 4, 5];
    let output = numbers_to_vec(input.as_bytes()).unwrap();
    assert_eq!(output, expected);
}

#[test]
fn test_numbers_to_vec_with_empty() {
    let input = "1 2   3 4 5   ";
    let expected = vec![1, 2, 3, 4, 5];
    let output = numbers_to_vec(input.as_bytes()).unwrap();
    assert_eq!(output, expected);
}

#[test]
fn numbers_that_are_none() {
    assert_eq!(numbers_to_vec(b""), Some(vec![]));
    assert_eq!(numbers_to_vec(b"   "), Some(vec![]));
    assert_eq!(numbers_to_vec(b"+7 007"), Some(vec![7, 7]));
    assert_eq!(numbers_to_vec(b"1 x 2"), None);
    assert_eq!(numbers_to_vec(b"1 -2"), None);
    assert_eq!(numbers_to_vec(b"1 +"), None);
    assert_eq!(numbers_to_vec(b"1\t2"), None);
    assert_eq!(numbers_to_vec(b"4294967295"), Some(vec![4294967295]));
    assert_eq!(numbers_to_vec(b"4294967296"), None);
}

#[test]
fn winning_numbers_keep_the_order_of_the_card() {
    let card = get_card(CARDS.lines().next().unwrap().as_bytes()).unwrap();
    assert_eq!(get_winning_numbers(&card), vec![&83, &86, &17, &48]);
    let twice = Card { id: 1, winning_numbers: vec![5], your_numbers: vec![5, 6, 5] };
    assert_eq!(get_winning_numbers(&twice), vec![&5, &5]);
    let none = Card { id: 1, winning_numbers: vec![], your_numbers: vec![5, 6, 5] };
    assert!(get_winning_numbers(&none).is_empty());
}

#[test]
fn points_double_with_each_number() {
    assert_eq!(points(0), Some(0));
    assert_eq!(points(1), Some(1));
    assert_eq!(points(2), Some(2));
    assert_eq!(points(4), Some(8));
    assert_eq!(points(32), Some(2147483648));
    assert_eq!(points(33), None);
}

#[test]
fn cards_of_the_example_are_worth_thirteen() {
    assert_eq!(part1(CARDS.as_bytes()), Some(13));
    assert_eq!(part1(b""), Some(0));
}

#[test]
fn lines_that_are_no_cards() {
    assert!(get_card(b"").is_none());
    assert!(get_card(b"Card 1").is_none());
    assert!(get_card(b"Card 1: 1 2 3").is_none());
    assert!(get_card(b"Card x: 1 | 2").is_none());
    assert!(get_card(b"Card 1: 1 | a").is_none());
    assert_eq!(
        get_card(b"7: | "),
        Some(Card { id: 7, winning_numbers: vec![], your_numbers: vec![] })
    );
    assert_eq!(part1(b"Card 1: 1 | 1\n\nCard 2: 2 | 2"), None);
}
