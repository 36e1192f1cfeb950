use puzzle_solvers::day05::ranges::{map_intervals, split_from};
use puzzle_solvers::day05::solve::lowest_start;
use puzzle_solvers::day05::{
    find_dest, find_dest_range, get_mapping, get_seed_ranges_and_maps, get_seeds_and_maps,
    lowest, lowest_of_ranges, lowest_of_seeds, parse_map, parse_mapping, parse_maps, parse_seeds,
    parse_seeds_ranges, part1, part2, tables_valid, Error, Interval, Range, SeedSet, Table,
};
use std::collections::BTreeSet;

const ALMANAC: &str = "seeds: 79 14 55 13

seed-to-soil map:
50 98 2
52 50 48

soil-to-fertilizer map:
0 15 37
37 52 2
39 0 15

fertilizer-to-water map:
49 53 8
0 11 42
42 0 7
57 7 4

water-to-light map:
88 18 7
18 25 70

light-to-temperature map:
45 77 23
81 45 19
68 64 13

temperature-to-humidity map:
0 69 1
1 0 69

humidity-to-location map:
60 56 37
56 93 4
";

fn table(from: &str, to: &str, rules: &[(u64, u64, u64)]) -> Table {
    Table {
        from: from.as_bytes().to_vec(),
        to: to.as_bytes().to_vec(),
        map: rules
            .iter()
            .map(|&(src, dst, len)| Range { src, dst, len })
            .collect(),
    }
}

fn example_tables() -> Vec<Table> {
    get_seeds_and_maps(ALMANAC.as_bytes()).unwrap().1 .1
}

fn values_of(intervals: &[Interval]) -> BTreeSet<u64> {
    let mut all = BTreeSet::new();
    for iv in intervals {
        for k in 0..iv.len {
            all.insert(iv.start + k);
        }
    }
    all
}

fn walked_one_by_one(from: &str, iv: Interval, to: &str, maps: &Vec<Table>) -> BTreeSet<u64> {
    (0..iv.len)
        .map(|k| find_dest(from.as_bytes(), iv.start + k, to.as_bytes(), maps).unwrap())
        .collect()
}

#[test]
fn boundaries_of_a_rule() {
    let t = table("a", "b", &[(50, 52, 2)]);
    assert_eq!(get_mapping(&t, 50), 52);
    assert_eq!(get_mapping(&t, 51), 53);
    assert_eq!(get_mapping(&t, 49), 49);
    assert_eq!(get_mapping(&t, 52), 52);
}

#[test]
fn value_outside_every_rule_stays() {
    let t = table("a", "b", &[(10, 100, 5), (20, 200, 5)]);
    for v in [0, 9, 15, 19, 25, 1000, u64::MAX] {
        assert_eq!(get_mapping(&t, v), v);
    }
    let empty = table("a", "b", &[]);
    assert_eq!(get_mapping(&empty, 7), 7);
    let hollow = table("a", "b", &[(7, 70, 0)]);
    assert_eq!(get_mapping(&hollow, 7), 7);
}

#[test]
fn first_rule_that_covers_wins() {
    let t = table("a", "b", &[(0, 100, 10), (5, 200, 10)]);
    assert_eq!(get_mapping(&t, 4), 104);
    assert_eq!(get_mapping(&t, 7), 107);
    assert_eq!(get_mapping(&t, 12), 207);
    assert_eq!(get_mapping(&t, 15), 15);
}

#[test]
fn rule_at_the_top_of_the_values() {
    let t = table("a", "b", &[(u64::MAX - 1, 0, 2), (0, u64::MAX - 2, 3)]);
    assert!(t.is_valid());
    assert_eq!(get_mapping(&t, u64::MAX), 1);
    assert_eq!(get_mapping(&t, u64::MAX - 1), 0);
    assert_eq!(get_mapping(&t, 2), u64::MAX);
    assert!(!table("a", "b", &[(u64::MAX, 0, 2)]).is_valid());
    assert!(!table("a", "b", &[(0, u64::MAX, 2)]).is_valid());
    assert!(table("a", "b", &[(u64::MAX, u64::MAX, 1)]).is_valid());
    assert!(table("a", "b", &[(u64::MAX, u64::MAX, 0)]).is_valid());
}

#[test]
fn seeds_of_the_example_one_by_one() {
    let maps = example_tables();
    for (seed, location) in [(79, 82), (14, 43), (55, 86), (13, 35)] {
        assert_eq!(find_dest(b"seed", seed, b"location", &maps), Ok(location));
    }
    assert_eq!(find_dest(b"seed", 79, b"soil", &maps), Ok(81));
    assert_eq!(find_dest(b"soil", 81, b"water", &maps), Ok(81));
    assert_eq!(find_dest(b"water", 81, b"humidity", &maps), Ok(78));
    assert_eq!(lowest_of_seeds(b"seed", &vec![79, 14, 55, 13], b"location", &maps), Ok(35));
    assert_eq!(lowest_of_seeds(b"seed", &vec![79], b"location", &maps), Ok(82));
}

#[test]
fn seed_ranges_of_the_example() {
    let maps = example_tables();
    assert_eq!(
        lowest_of_ranges(b"seed", &vec![(79, 14), (55, 13)], b"location", &maps),
        Ok(46)
    );
    assert_eq!(lowest_of_ranges(b"seed", &vec![(79, 14)], b"location", &maps), Ok(46));
    assert_eq!(lowest_of_ranges(b"seed", &vec![(55, 13)], b"location", &maps), Ok(56));
    assert_eq!(
        lowest_of_ranges(b"seed", &vec![(5, 0), (82, 1), (7, 0)], b"location", &maps),
        Ok(46)
    );
}

#[test]
fn ranges_reach_what_single_seeds_reach() {
    let maps = example_tables();
    for iv in [
        Interval { start: 79, len: 14 },
        Interval { start: 55, len: 13 },
        Interval { start: 0, len: 120 },
        Interval { start: 98, len: 1 },
    ] {
        let out = find_dest_range(b"seed", iv, b"location", &maps).unwrap();
        assert_eq!(values_of(&out), walked_one_by_one("seed", iv, "location", &maps));
        assert_eq!(out.iter().map(|o| o.len).sum::<u64>(), iv.len);
        assert!(out.iter().all(|o| o.len > 0));
        let lowest = lowest_start(&out);
        assert_eq!(Some(&lowest), values_of(&out).iter().next());
    }
}

#[test]
fn ranges_agree_with_single_seeds_on_overlapping_rules_and_gaps() {
    let maps = vec![
        table("a", "b", &[(10, 50, 20), (15, 0, 30), (60, 5, 5), (40, 41, 3)]),
        table("b", "c", &[(0, 1000, 8), (4, 2000, 50), (52, 52, 10)]),
        table("c", "d", &[]),
        table("d", "e", &[(1000, 0, 2000), (0, 3000, 70), (60, 9, 9)]),
    ];
    assert!(tables_valid(&maps));
    for start in [0u64, 7, 14, 29, 44, 59] {
        for len in [1u64, 2, 9, 33, 80] {
            let iv = Interval { start, len };
            let out = find_dest_range(b"a", iv, b"e", &maps).unwrap();
            assert_eq!(values_of(&out), walked_one_by_one("a", iv, "e", &maps));
            assert_eq!(out.iter().map(|o| o.len).sum::<u64>(), len);
        }
    }
}

#[test]
fn one_hop_keeps_the_total_length() {
    let t = table("seed", "soil", &[(98, 50, 2), (50, 52, 48)]);
    let out = map_intervals(&t, &vec![Interval { start: 79, len: 14 }]);
    assert_eq!(out, vec![Interval { start: 81, len: 14 }]);
    let out = map_intervals(&t, &vec![Interval { start: 45, len: 60 }]);
    assert_eq!(
        out,
        vec![
            Interval { start: 45, len: 5 },
            Interval { start: 52, len: 48 },
            Interval { start: 50, len: 2 },
            Interval { start: 100, len: 5 },
        ]
    );
    let ins = vec![
        Interval { start: 0, len: 51 },
        Interval { start: 40, len: 70 },
        Interval { start: 99, len: 1 },
    ];
    let out = map_intervals(&t, &ins);
    assert_eq!(out.iter().map(|o| o.len).sum::<u64>(), 51 + 70 + 1);
    assert!(map_intervals(&t, &vec![]).is_empty());
}

#[test]
fn splitting_skips_rules_before_the_given_one() {
    let rules = vec![Range { src: 0, dst: 100, len: 10 }, Range { src: 5, dst: 200, len: 10 }];
    let iv = Interval { start: 3, len: 10 };
    let mut out = vec![Interval { start: 1, len: 1 }];
    split_from(&rules, 0, iv, &mut out);
    assert_eq!(
        out,
        vec![
            Interval { start: 1, len: 1 },
            Interval { start: 103, len: 7 },
            Interval { start: 205, len: 3 },
        ]
    );
    let mut out = Vec::new();
    split_from(&rules, 1, iv, &mut out);
    assert_eq!(
        out,
        vec![Interval { start: 3, len: 2 }, Interval { start: 200, len: 8 }]
    );
    let mut out = Vec::new();
    split_from(&rules, 2, iv, &mut out);
    assert_eq!(out, vec![iv]);
    let mut out = Vec::new();
    split_from(&rules, 0, Interval { start: 3, len: 0 }, &mut out);
    assert!(out.is_empty());
}

#[test]
fn interval_at_the_top_of_the_values() {
    let maps = vec![table("a", "b", &[(u64::MAX - 3, 0, 4)])];
    let iv = Interval { start: u64::MAX - 5, len: 6 };
    let out = find_dest_range(b"a", iv, b"b", &maps).unwrap();
    assert_eq!(
        out,
        vec![
            Interval { start: u64::MAX - 5, len: 2 },
            Interval { start: 0, len: 4 },
        ]
    );
    let back = vec![table("a", "b", &[(0, u64::MAX - 3, 4)])];
    let out = find_dest_range(b"a", Interval { start: 2, len: 2 }, b"b", &back).unwrap();
    assert_eq!(out, vec![Interval { start: u64::MAX - 1, len: 2 }]);
    assert_eq!(lowest_of_ranges(b"a", &vec![(u64::MAX, 1)], b"b", &maps), Ok(3));
}

#[test]
fn single_rule_chain_is_one_shift() {
    let maps = vec![table("seed", "location", &[(10, 100, 5)])];
    assert_eq!(find_dest(b"seed", 12, b"location", &maps), Ok(102));
    assert_eq!(find_dest(b"seed", 10, b"location", &maps), Ok(100));
    assert_eq!(find_dest(b"seed", 14, b"location", &maps), Ok(104));
    assert_eq!(find_dest(b"seed", 15, b"location", &maps), Ok(15));
    assert_eq!(find_dest(b"seed", 3, b"location", &maps), Ok(3));
    assert_eq!(
        find_dest_range(b"seed", Interval { start: 11, len: 3 }, b"location", &maps),
        Ok(vec![Interval { start: 101, len: 3 }])
    );
    assert_eq!(
        find_dest_range(b"seed", Interval { start: 10, len: 5 }, b"location", &maps),
        Ok(vec![Interval { start: 100, len: 5 }])
    );
    assert_eq!(part1(b"seeds: 12 3\n\nseed-to-location map:\n100 10 5"), Ok(3));
    assert_eq!(part2(b"seeds: 12 3\n\nseed-to-location map:\n100 10 5"), Ok(102));
}

#[test]
fn walk_that_starts_at_the_goal_takes_no_hop() {
    let maps = example_tables();
    assert_eq!(find_dest(b"location", 5, b"location", &maps), Ok(5));
    assert_eq!(find_dest(b"nowhere", 5, b"nowhere", &Vec::new()), Ok(5));
    assert_eq!(
        find_dest_range(b"x", Interval { start: 5, len: 2 }, b"x", &Vec::new()),
        Ok(vec![Interval { start: 5, len: 2 }])
    );
}

#[test]
fn missing_table_is_no_path() {
    let mut maps = example_tables();
    maps.remove(3);
    assert_eq!(find_dest(b"seed", 79, b"location", &maps), Err(Error::NoPath));
    assert_eq!(find_dest(b"seed", 79, b"water", &maps), Ok(81));
    assert_eq!(find_dest(b"seed", 79, b"moon", &example_tables()), Err(Error::NoPath));
    assert_eq!(find_dest(b"moon", 79, b"location", &example_tables()), Err(Error::NoPath));
    assert_eq!(find_dest(b"seed", 79, b"location", &Vec::new()), Err(Error::NoPath));
    assert_eq!(
        find_dest_range(b"seed", Interval { start: 79, len: 14 }, b"location", &maps),
        Err(Error::NoPath)
    );
    assert_eq!(lowest_of_seeds(b"seed", &vec![79, 14], b"location", &maps), Err(Error::NoPath));
    assert_eq!(
        lowest_of_ranges(b"seed", &vec![(79, 14)], b"location", &maps),
        Err(Error::NoPath)
    );
}

#[test]
fn cycle_runs_into_the_hop_limit() {
    let maps = vec![table("a", "b", &[(0, 1, 5)]), table("b", "a", &[(0, 1, 5)])];
    assert_eq!(find_dest(b"a", 0, b"c", &maps), Err(Error::HopLimit));
    assert_eq!(find_dest(b"a", 0, b"b", &maps), Ok(1));
    assert_eq!(find_dest(b"b", 0, b"a", &maps), Ok(1));
    assert_eq!(
        find_dest_range(b"a", Interval { start: 0, len: 3 }, b"c", &maps),
        Err(Error::HopLimit)
    );
    let own = vec![table("a", "a", &[])];
    assert_eq!(find_dest(b"a", 0, b"z", &own), Err(Error::HopLimit));
    let twice = vec![
        table("a", "b", &[(0, 10, 1)]),
        table("a", "c", &[(0, 20, 1)]),
        table("b", "c", &[(10, 30, 1)]),
    ];
    assert_eq!(find_dest(b"a", 0, b"c", &twice), Ok(30));
}

#[test]
fn no_seeds_is_told_apart_from_an_answer() {
    let maps = example_tables();
    assert_eq!(lowest_of_seeds(b"seed", &vec![], b"location", &maps), Err(Error::NoSeeds));
    assert_eq!(lowest_of_ranges(b"seed", &vec![], b"location", &maps), Err(Error::NoSeeds));
    assert_eq!(
        lowest_of_ranges(b"seed", &vec![(5, 0), (9, 0)], b"location", &maps),
        Err(Error::NoSeeds)
    );
    assert_eq!(lowest_of_ranges(b"seed", &vec![(5, 0)], b"moon", &maps), Err(Error::NoSeeds));
    assert_eq!(part2(b"seeds: 5 0 7 0\n\nseed-to-location map:\n1 2 3"), Err(Error::NoSeeds));
    assert_eq!(part2(b"seeds: 5 0\n\nseed-to-location map:\n1 2 3"), Err(Error::NoSeeds));
}

#[test]
fn rules_and_ranges_beyond_the_values() {
    assert_eq!(
        part1(b"seeds: 1\n\nseed-to-location map:\n18446744073709551615 0 2"),
        Err(Error::OutOfBounds)
    );
    assert_eq!(
        part2(b"seeds: 1 1\n\nseed-to-location map:\n0 18446744073709551615 2"),
        Err(Error::OutOfBounds)
    );
    assert_eq!(
        part1(b"seeds: 1\n\nseed-to-location map:\n18446744073709551615 0 1"),
        Ok(1)
    );
    assert_eq!(
        part2(b"seeds: 18446744073709551615 2\n\nseed-to-location map:\n1 2 3"),
        Err(Error::OutOfBounds)
    );
    assert_eq!(
        part2(b"seeds: 18446744073709551615 1\n\nseed-to-location map:\n1 2 3"),
        Ok(18446744073709551615)
    );
    let maps = example_tables();
    assert_eq!(
        lowest_of_ranges(b"seed", &vec![(1, 1), (u64::MAX, 2)], b"location", &maps),
        Err(Error::OutOfBounds)
    );
    assert_eq!(
        lowest_of_ranges(b"seed", &vec![(u64::MAX, 2)], b"moon", &maps),
        Err(Error::OutOfBounds)
    );
}

#[test]
fn text_that_is_no_almanac() {
    assert_eq!(part1(b""), Err(Error::Syntax));
    assert_eq!(part1(b"seed: 1 2"), Err(Error::Syntax));
    assert_eq!(part1(b" seeds: 1 2\n\nseed-to-location map:\n1 2 3"), Err(Error::Syntax));
    assert_eq!(part1(b"seeds: 1 2"), Err(Error::Syntax));
    assert_eq!(part2(b"seeds: 1 2seed-to-location map:\n1 2 3"), Err(Error::Syntax));
    assert!(parse_seeds(b"seed 1").is_err());
    assert!(parse_seeds_ranges(b"Seeds: 1 2").is_err());
    assert!(parse_mapping(b"1 2").is_err());
    assert!(parse_mapping(b"1 2 x").is_err());
    assert!(parse_mapping(b"1 2 18446744073709551616").is_err());
    assert!(parse_map(b"seed-to-soil map:").is_err());
    assert!(parse_map(b"seed-soil map:\n1 2 3").is_err());
    assert!(parse_map(b"seed-to-soil map\n1 2 3").is_err());
    assert!(parse_map(b"-to-soil map:\n1 2 3").is_err());
    assert!(parse_map(b"seed2-to-soil map:\n1 2 3").is_err());
    assert!(get_seeds_and_maps(b"seeds: 1").is_err());
    assert!(get_seed_ranges_and_maps(b"soil: 1").is_err());
}

#[test]
fn tables_missing_after_the_seeds_is_no_path() {
    assert_eq!(part1(b"seeds: 1 2\n\n"), Err(Error::Syntax));
    assert_eq!(part1(b"seeds:\n\nseed-to-location map:\n1 2 3"), Err(Error::Syntax));
    assert_eq!(part2(b"seeds: 5\n\nseed-to-location map:\n1 2 3"), Err(Error::Syntax));
    assert_eq!(part1(b"seeds: 1 2\n\nrubbish"), Err(Error::NoPath));
    assert_eq!(part2(b"seeds: 1 2 \n seed-to-soil map:\n1 2 3"), Err(Error::NoPath));
}

#[test]
fn seeds_end_at_what_is_no_number() {
    let (rest, seeds) = parse_seeds(b"seeds:   79 14  55 13 \n").unwrap();
    assert_eq!(seeds, vec![79, 14]);
    assert_eq!(rest, b"  55 13");
    let (rest, seeds) = parse_seeds(b"seeds: 1 18446744073709551616 2").unwrap();
    assert_eq!(seeds, vec![1]);
    assert_eq!(rest, b" 18446744073709551616 2");
    let (rest, seeds) = parse_seeds(b"seeds:").unwrap();
    assert!(seeds.is_empty());
    assert!(rest.is_empty());
    let (rest, pairs) = parse_seeds_ranges(b"seeds: 79 \t 14 55 13 7").unwrap();
    assert_eq!(pairs, vec![(79, 14), (55, 13)]);
    assert_eq!(rest, b" 7");
    let (_, pairs) = parse_seeds_ranges(b"seeds: 79").unwrap();
    assert!(pairs.is_empty());
}

#[test]
fn rule_lines_give_source_destination_length() {
    let (rest, rule) = parse_mapping(b" \t50  98\t2 rest").unwrap();
    assert_eq!(rule, (98, 50, 2));
    assert_eq!(rest, b" rest");
    let (rest, t) = parse_map(b"  a-to-b map: \r\n1 2 3\r\n 4 5 6\n\n7 8 9").unwrap();
    assert_eq!(t, table("a", "b", &[(2, 1, 3), (5, 4, 6)]));
    assert_eq!(rest, b"\n\n7 8 9");
    let (rest, t) = parse_map(b"a-to-b map:\nx").unwrap();
    assert_eq!(t, table("a", "b", &[]));
    assert_eq!(rest, b"x");
}

#[test]
fn tables_are_parted_by_an_empty_line() {
    let text = b"a-to-b map:\n1 2 3\n\nb-to-c map:\n4 5 6\n7 8 9\nc-to-d map:\n1 1 1";
    let (rest, maps) = parse_maps(text).unwrap();
    assert_eq!(
        maps,
        vec![table("a", "b", &[(2, 1, 3)]), table("b", "c", &[(5, 4, 6), (8, 7, 9)])]
    );
    assert_eq!(rest, b"\nc-to-d map:\n1 1 1");
    let (rest, maps) = parse_maps(b"nothing").unwrap();
    assert!(maps.is_empty());
    assert_eq!(rest, b"nothing");
    let (_, (seeds, maps)) = get_seeds_and_maps(ALMANAC.as_bytes()).unwrap();
    assert_eq!(seeds, vec![79, 14, 55, 13]);
    assert_eq!(maps.len(), 7);
    assert_eq!(maps[6], table("humidity", "location", &[(56, 60, 37), (93, 56, 4)]));
    let (_, (ranges, maps)) = get_seed_ranges_and_maps(ALMANAC.as_bytes()).unwrap();
    assert_eq!(ranges, vec![(79, 14), (55, 13)]);
    assert_eq!(maps.len(), 7);
    assert_eq!(part1(ALMANAC.as_bytes()), Ok(35));
    assert_eq!(part2(ALMANAC.as_bytes()), Ok(46));
}

struct Dice(u64);

impl Dice {
    fn roll(&mut self, sides: u64) -> u64 {
        self.0 ^= self.0 << 13;
        self.0 ^= self.0 >> 7;
        self.0 ^= self.0 << 17;
        self.0 % sides
    }
}

#[test]
fn ranges_agree_with_single_seeds_on_tables_made_by_chance() {
    let mut dice = Dice(0x9e37_79b9_7f4a_7c15);
    let names = ["a", "b", "c", "d", "e"];
    for _ in 0..200 {
        let hops = 1 + dice.roll(4) as usize;
        let mut maps = Vec::new();
        for h in 0..hops {
            let rules: Vec<(u64, u64, u64)> = (0..dice.roll(5))
                .map(|_| (dice.roll(60), dice.roll(60), dice.roll(25)))
                .collect();
            maps.push(table(names[h], names[h + 1], &rules));
        }
        assert!(tables_valid(&maps));
        let iv = Interval { start: dice.roll(70), len: 1 + dice.roll(40) };
        let out = find_dest_range(b"a", iv, names[hops].as_bytes(), &maps).unwrap();
        assert_eq!(values_of(&out), walked_one_by_one("a", iv, names[hops], &maps));
        assert_eq!(out.iter().map(|o| o.len).sum::<u64>(), iv.len);
        assert_eq!(
            lowest_of_ranges(b"a", &vec![(iv.start, iv.len)], names[hops].as_bytes(), &maps),
            Ok(*values_of(&out).iter().next().unwrap())
        );
        let one_hop = map_intervals(&maps[0], &out);
        assert_eq!(one_hop.iter().map(|o| o.len).sum::<u64>(), iv.len);
        let want: BTreeSet<u64> = values_of(&out)
            .iter()
            .map(|&v| get_mapping(&maps[0], v))
            .collect();
        assert_eq!(values_of(&one_hop), want);
    }
}

#[test]
fn cycle_in_an_almanac_is_reported() {
    let text = b"seeds: 1 2\n\nseed-to-soil map:\n1 1 1\n\nsoil-to-seed map:\n1 1 1";
    assert_eq!(part1(text), Err(Error::HopLimit));
    assert_eq!(part2(text), Err(Error::HopLimit));
    let text = b"seeds: 1 2\n\nseed-to-soil map:\n1 1 1\n\nsoil-to-location map:\n7 1 1";
    assert_eq!(part1(text), Ok(2));
    assert_eq!(part2(text), Ok(2));
    let text = b"seeds: 1 1\n\nseed-to-soil map:\n1 1 1\n\nsoil-to-location map:\n7 1 1";
    assert_eq!(part2(text), Ok(7));
}

#[test]
fn lowest_location_of_either_kind_of_seed_set() {
    let maps = example_tables();
    let values = SeedSet::Values(vec![79, 14, 55, 13]);
    let ranges = SeedSet::Ranges(vec![(79, 14), (55, 13)]);
    assert_eq!(lowest(b"seed", &values, b"location", &maps), Ok(35));
    assert_eq!(lowest(b"seed", &ranges, b"location", &maps), Ok(46));
    assert_eq!(lowest(b"seed", &values, b"humidity", &maps), Ok(35));
    assert_eq!(
        lowest(b"seed", &SeedSet::Values(vec![]), b"location", &maps),
        Err(Error::NoSeeds)
    );
    assert_eq!(
        lowest(b"seed", &SeedSet::Ranges(vec![(3, 0)]), b"location", &maps),
        Err(Error::NoSeeds)
    );
    assert_eq!(lowest(b"seed", &ranges, b"moon", &maps), Err(Error::NoPath));
}
