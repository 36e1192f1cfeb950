use puzzle_solvers::day05::{
    find_dest, get_mapping, get_seeds_and_maps, parse_map, parse_seeds, parse_seeds_ranges, part1,
    part2,
};

const INPUT: &str = "seeds: 79 14 55 13

    seed-to-soil map:
    50 98 2
    52 50 48

    soil-to-fertilizer map:
    0 15 37
    37 52 2
    39 0 15

    fertilizer-to-water map:
    49 53 8
    0 11 42
    42 0 7
    57 7 4

    water-to-light map:
    88 18 7
    18 25 70

    light-to-temperature map:
    45 77 23
    81 45 19
    68 64 13

    temperature-to-humidity map:
    0 69 1
    1 0 69

    humidity-to-location map:
    60 56 37
    56 93 4";

#[test]
fn test_parse_seeds() {
    let seeds = "seeds: 79 14 55 13";
    let expected: Vec<u64> = vec![79, 14, 55, 13];
    match parse_seeds(seeds.as_bytes()) {
        Ok((_, result)) => assert_eq!(result, expected),
        Err(_) => panic!("parse_seeds failed"),
    }
}

#[test]
fn test_get_mapping() {
    let map = "seed-to-soil map:
        50 98 2
        52 50 48";
    let seed_to_soil = vec![
        (0, 0),
        (1, 1),
        (48, 48),
        (49, 49),
        (50, 52),
        (51, 53),
        (96, 98),
        (97, 99),
        (98, 50),
        (99, 51),
    ];

    match parse_map(map.as_bytes()) {
        Ok((_, result)) => {
            assert_eq!(result.from, "seed".as_bytes());
            assert_eq!(result.to, "soil".as_bytes());
            assert_eq!(result.map.len(), 2);
            for (seed, soil) in seed_to_soil {
                assert_eq!(get_mapping(&result, seed), soil);
            }
        }
        Err(_) => panic!("parse_map failed"),
    }
}

#[test]
fn test_find_dest() {
    let (_, (seeds, maps)) = get_seeds_and_maps(INPUT.as_bytes()).unwrap();
    let val = find_dest("seed".as_bytes(), seeds[0], "location".as_bytes(), &maps).unwrap();
    assert_eq!(val, 82);
}

#[test]
fn test_part1() {
    assert_eq!(part1(INPUT.as_bytes()).unwrap(), 35);
}

#[test]
fn test_parse_seed_ranges() {
    let seeds = "seeds: 79 14 55 13";
    let expected: Vec<(u64, u64)> = vec![(79, 14), (55, 13)];
    match parse_seeds_ranges(seeds.as_bytes()) {
        Ok((_, result)) => assert_eq!(result, expected),
        Err(_) => panic!("parse_seeds failed"),
    }
}

#[test]
fn test_part2() {
    assert_eq!(part2(INPUT.as_bytes()).unwrap(), 46);
}
