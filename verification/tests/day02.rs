use puzzle_solvers::day02::{parse1, part1, process1, Cubes, Game};

#[test]
fn test_parse1() {
    let lines: &str = "Game 1: 3 blue, 4 red; 1 red, 2 green, 6 blue; 2 green
        Game 2: 1 blue, 2 green; 3 green, 4 blue, 1 red; 1 green, 1 blue
        Game 3: 8 green, 6 blue, 20 red; 5 blue, 4 red, 13 green; 5 green, 1 red
        Game 4: 1 green, 3 red, 6 blue; 3 green, 6 red; 3 green, 15 blue, 14 red
        Game 5: 6 red, 1 blue, 3 green; 2 blue, 1 red, 2 green";

    let games = [
        Game {
            id: 1,
            cubes: vec![
                Cubes { red: 4, blue: 3, green: 0 },
                Cubes { red: 1, blue: 6, green: 2 },
                Cubes { red: 0, blue: 0, green: 2 },
            ],
        },
        Game {
            id: 2,
            cubes: vec![
                Cubes { red: 0, blue: 1, green: 2 },
                Cubes { red: 1, blue: 4, green: 3 },
                Cubes { red: 0, blue: 1, green: 1 },
            ],
        },
        Game {
            id: 3,
            cubes: vec![
                Cubes { red: 20, blue: 6, green: 8 },
                Cubes { red: 4, blue: 5, green: 13 },
                Cubes { red: 1, blue: 0, green: 5 },
            ],
        },
        Game {
            id: 4,
            cubes: vec![
                Cubes { red: 3, blue: 6, green: 1 },
                Cubes { red: 6, blue: 0, green: 3 },
                Cubes { red: 14, blue: 15, green: 3 },
            ],
        },
        Game {
            id: 5,
            cubes: vec![
                Cubes { red: 6, blue: 1, green: 3 },
                Cubes { red: 1, blue: 2, green: 2 },
            ],
        },
    ];
    let output = lines
        .lines()
        .map(|line| parse1(line.as_bytes()).unwrap())
        .collect::<Vec<_>>();
    assert_eq!(output.len(), games.len());
    for (i, game) in output.iter().enumerate() {
        assert_eq!(game.id, games[i].id);
        assert_eq!(game.cubes.len(), games[i].cubes.len());

        for (j, cube) in game.cubes.iter().enumerate() {
            assert_eq!(cube.red, games[i].cubes[j].red);
            assert_eq!(cube.blue, games[i].cubes[j].blue);
            assert_eq!(cube.green, games[i].cubes[j].green);
        }
    }
}

#[test]
fn test_process1() {
    let lines: &str = "Game 1: 3 blue, 4 red; 1 red, 2 green, 6 blue; 2 green
        Game 2: 1 blue, 2 green; 3 green, 4 blue, 1 red; 1 green, 1 blue
        Game 3: 8 green, 6 blue, 20 red; 5 blue, 4 red, 13 green; 5 green, 1 red
        Game 4: 1 green, 3 red, 6 blue; 3 green, 6 red; 3 green, 15 blue, 14 red
        Game 5: 6 red, 1 blue, 3 green; 2 blue, 1 red, 2 green";
    let output = process1(
        lines.lines().map(|line| line.as_bytes()).collect::<Vec<_>>(),
        &Cubes { red: 12, blue: 14, green: 13 },
    );
    assert_eq!(output, Some(vec![1, 2, 5]));
}

#[test]
fn day02_test_part1() {
    let lines: &str = "Game 1: 3 blue, 4 red; 1 red, 2 green, 6 blue; 2 green
        Game 2: 1 blue, 2 green; 3 green, 4 blue, 1 red; 1 green, 1 blue
        Game 3: 8 green, 6 blue, 20 red; 5 blue, 4 red, 13 green; 5 green, 1 red
        Game 4: 1 green, 3 red, 6 blue; 3 green, 6 red; 3 green, 15 blue, 14 red
        Game 5: 6 red, 1 blue, 3 green; 2 blue, 1 red, 2 green";
    let output = part1(lines.as_bytes(), &Cubes { red: 12, blue: 14, green: 13 });
    assert_eq!(output, Some(8));
}

#[test]
fn later_entry_of_a_colour_wins() {
    let game = parse1(b"Game 7: 3 red, 5 red, +2 blue").unwrap();
    assert_eq!(game.id, 7);
    assert_eq!(game.cubes, vec![Cubes { red: 5, blue: 2, green: 0 }]);
}

#[test]
fn lines_that_are_no_games() {
    assert!(parse1(b"").is_none());
    assert!(parse1(b"Game 1").is_none());
    assert!(parse1(b"Game: 3 red").is_none());
    assert!(parse1(b"Game x: 3 red").is_none());
    assert!(parse1(b"Game 1: 3 pink").is_none());
    assert!(parse1(b"Game 1: red").is_none());
    assert!(parse1(b"Game 1: 3").is_none());
    assert!(parse1(b"Game 1: 3  red").is_none());
    assert!(parse1(b"Game 1: 4294967296 red").is_none());
    assert!(parse1(b"Game 1: 3 red;").is_none());
    assert!(parse1(b"Game 1: 4294967295 red").is_some());
}

#[test]
fn one_bad_line_fails_the_whole_text() {
    let limit = Cubes { red: 12, blue: 14, green: 13 };
    assert_eq!(part1(b"Game 1: 3 red\n\nGame 2: 1 blue", &limit), None);
    assert_eq!(part1(b"", &limit), Some(0));
    assert_eq!(process1(vec![], &limit), Some(vec![]));
}

#[test]
fn sum_of_ids_must_fit() {
    let limit = Cubes { red: 1, blue: 1, green: 1 };
    assert_eq!(
        part1(b"Game 4294967295: 1 red\nGame 1: 1 red", &limit),
        None
    );
    assert_eq!(
        part1(b"Game 4294967294: 1 red\nGame 1: 1 red\nGame 9: 2 red", &limit),
        Some(4294967295)
    );
}
