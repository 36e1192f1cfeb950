// The almanac: seeds, and a chain of range tables that leads from the
// category of the seeds to that of the locations. The answer is the lowest
// location that a seed comes to.

use vstd::prelude::*;
use vstd::slice::slice_subrange;
use vstd::string::StringSliceAdditionalSpecFns;
use crate::text::{Class, run_end, scan, trimmed, trim, starts_at, has_at};

pub mod table;
pub mod chain;
pub mod ranges;
pub mod solve;
pub mod parse;

pub use crate::day05::table::{Range, Table, TableModel, models, get_mapping};
pub use crate::day05::chain::{Error, registry_wf, find_dest};
pub use crate::day05::ranges::Interval;
pub use crate::day05::solve::{
    find_dest_range, is_lowest, is_lowest_of_ranges, is_lowest_of_seeds, lowest, lowest_of_ranges,
    lowest_of_seeds, SeedSet,
};
pub use crate::day05::parse::{
    kw_seeds, mapping_at, pair_list, read_mapping, read_pairs, read_seeds, read_table,
    read_tables, seed_list, table_at, table_list,
};

verus! {

/// The name of the category that the seeds belong to.
pub open spec fn seed_name() -> Seq<u8> {
    "seed".spec_bytes()
}

/// The name of the category that the answer is asked in.
pub open spec fn location_name() -> Seq<u8> {
    "location".spec_bytes()
}

/// The seeds that a text gives one by one, and what follows them: the text
/// starts with `seeds:`; what comes after it is taken without the white space
/// at its two ends, and starts with the list of seeds.
pub open spec fn seeds_of(input: Seq<u8>) -> Option<(Seq<u64>, Seq<u8>)> {
    if starts_at(input, 0, kw_seeds()) {
        let body = trimmed(input.subrange(kw_seeds().len() as int, input.len() as int));
        let (v, e) = seed_list(body, 0);
        Some((v, body.subrange(e, body.len() as int)))
    } else {
        None
    }
}

/// The seed ranges that a text gives, and what follows them: as `seeds_of`,
/// with the numbers taken two by two, as a start and a length.
pub open spec fn seed_ranges_of(input: Seq<u8>) -> Option<(Seq<(u64, u64)>, Seq<u8>)> {
    if starts_at(input, 0, kw_seeds()) {
        let body = trimmed(input.subrange(kw_seeds().len() as int, input.len() as int));
        let (v, e) = pair_list(body, 0);
        Some((v, body.subrange(e, body.len() as int)))
    } else {
        None
    }
}

/// Reads the list of single seeds at the start of an almanac.
pub fn parse_seeds(input: &[u8]) -> (r: Result<(&[u8], Vec<u64>), Error>)
    ensures
        match seeds_of(input@) {
            Some((v, rest)) => r matches Ok((out_rest, out_v)) && out_v@ == v && out_rest@ == rest,
            None => r matches Err(Error::Syntax),
        },
{
    let kw = "seeds:".as_bytes();
    if !has_at(input, 0, kw) {
        return Err(Error::Syntax);
    }
    let body = trim(slice_subrange(input, kw.len(), input.len()));
    let (v, e) = read_seeds(body, 0);
    Ok((slice_subrange(body, e, body.len()), v))
}

/// Reads the list of seed ranges at the start of an almanac.
pub fn parse_seeds_ranges(input: &[u8]) -> (r: Result<(&[u8], Vec<(u64, u64)>), Error>)
    ensures
        match seed_ranges_of(input@) {
            Some((v, rest)) => r matches Ok((out_rest, out_v)) && out_v@ == v && out_rest@ == rest,
            None => r matches Err(Error::Syntax),
        },
{
    let kw = "seeds:".as_bytes();
    if !has_at(input, 0, kw) {
        return Err(Error::Syntax);
    }
    let body = trim(slice_subrange(input, kw.len(), input.len()));
    let (v, e) = read_pairs(body, 0);
    Ok((slice_subrange(body, e, body.len()), v))
}

/// Reads one rule at the start of a text and returns it as source start,
/// destination start and length, with the text that follows it.
pub fn parse_mapping(input: &[u8]) -> (r: Result<(&[u8], (u64, u64, u64)), Error>)
    ensures
        match mapping_at(input@, 0) {
            Some((m, e)) => r matches Ok((rest, x)) && x == (m.src, m.dst, m.len) && rest@
                == input@.subrange(e, input@.len() as int),
            None => r matches Err(Error::Syntax),
        },
{
    match read_mapping(input, 0) {
        Some((m, e)) => Ok((slice_subrange(input, e, input.len()), (m.src, m.dst, m.len))),
        None => Err(Error::Syntax),
    }
}

/// Reads one table at the start of a text: its heading and its rules.
pub fn parse_map(input: &[u8]) -> (r: Result<(&[u8], Table), Error>)
    ensures
        match table_at(input@, 0) {
            Some((t, e)) => r matches Ok((rest, out)) && out@ == t && rest@ == input@.subrange(
                e,
                input@.len() as int,
            ),
            None => r matches Err(Error::Syntax),
        },
{
    match read_table(input, 0) {
        Some((t, e)) => Ok((slice_subrange(input, e, input.len()), t)),
        None => Err(Error::Syntax),
    }
}

/// Reads the tables at the start of a text, as many as there are.
pub fn parse_maps(input: &[u8]) -> (r: Result<(&[u8], Vec<Table>), Error>)
    ensures
        r matches Ok((rest, out)) && models(out@) == table_list(input@, 0).0 && rest@
            == input@.subrange(table_list(input@, 0).1, input@.len() as int),
{
    let (tables, e) = read_tables(input, 0);
    Ok((slice_subrange(input, e, input.len()), tables))
}

/// What an almanac with single seeds holds: the seeds, the tables, and the
/// text after the last table. Between the seeds and the first table stands a
/// run of spaces and line feeds, at least one.
pub open spec fn almanac_of(input: Seq<u8>) -> Option<(Seq<u64>, Seq<TableModel>, Seq<u8>)> {
    match seeds_of(input) {
        None => None,
        Some((seeds, rest)) => {
            let g = run_end(rest, 0, Class::Gap);
            let (tables, e) = table_list(rest, g);
            if g == 0 {
                None
            } else {
                Some((seeds, tables, rest.subrange(e, rest.len() as int)))
            }
        },
    }
}

/// What an almanac with seed ranges holds: as `almanac_of`, with the seeds
/// taken as ranges.
pub open spec fn range_almanac_of(input: Seq<u8>) -> Option<
    (Seq<(u64, u64)>, Seq<TableModel>, Seq<u8>),
> {
    match seed_ranges_of(input) {
        None => None,
        Some((seeds, rest)) => {
            let g = run_end(rest, 0, Class::Gap);
            let (tables, e) = table_list(rest, g);
            if g == 0 {
                None
            } else {
                Some((seeds, tables, rest.subrange(e, rest.len() as int)))
            }
        },
    }
}

/// Reads an almanac whose seeds are given one by one.
pub fn get_seeds_and_maps(input: &[u8]) -> (r: Result<(&[u8], (Vec<u64>, Vec<Table>)), Error>)
    ensures
        match almanac_of(input@) {
            Some((seeds, tables, rest)) => r matches Ok((out_rest, out)) && out.0@ == seeds
                && models(out.1@) == tables && out_rest@ == rest,
            None => r matches Err(Error::Syntax),
        },
{
    let (rest, seeds) = match parse_seeds(input) {
        Ok(x) => x,
        Err(e) => {
            return Err(e);
        },
    };
    let g = scan(rest, 0, Class::Gap);
    if g == 0 {
        return Err(Error::Syntax);
    }
    let (tables, e) = read_tables(rest, g);
    Ok((slice_subrange(rest, e, rest.len()), (seeds, tables)))
}

/// Reads an almanac whose seeds are given as ranges.
pub fn get_seed_ranges_and_maps(input: &[u8]) -> (r: Result<
    (&[u8], (Vec<(u64, u64)>, Vec<Table>)),
    Error,
>)
    ensures
        match range_almanac_of(input@) {
            Some((seeds, tables, rest)) => r matches Ok((out_rest, out)) && out.0@ == seeds
                && models(out.1@) == tables && out_rest@ == rest,
            None => r matches Err(Error::Syntax),
        },
{
    let (rest, seeds) = match parse_seeds_ranges(input) {
        Ok(x) => x,
        Err(e) => {
            return Err(e);
        },
    };
    let g = scan(rest, 0, Class::Gap);
    if g == 0 {
        return Err(Error::Syntax);
    }
    let (tables, e) = read_tables(rest, g);
    Ok((slice_subrange(rest, e, rest.len()), (seeds, tables)))
}

/// Checks that every rule of every table lies within the `u64` values.
pub fn tables_valid(maps: &Vec<Table>) -> (r: bool)
    ensures
        r == registry_wf(models(maps@)),
{
    let mut i: usize = 0;
    while i < maps.len()
        invariant
            i <= maps@.len(),
            forall|j: int| 0 <= j < i ==> (#[trigger] maps@[j]).wf(),
        decreases maps@.len() - i,
    {
        if !maps[i].is_valid() {
            assert(!crate::day05::table::rules_fit(models(maps@)[i as int].rules));
            return false;
        }
        i += 1;
    }
    assert forall|j: int| 0 <= j < models(maps@).len() implies crate::day05::table::rules_fit(
        (#[trigger] models(maps@)[j]).rules,
    ) by {
        assert(maps@[j].wf());
    }
    true
}

/// Whether `r` is the answer to an almanac whose seeds are given one by one:
/// the least location that a seed comes to, or the reason why there is none.
pub open spec fn is_part1(input: Seq<u8>, r: Result<u64, Error>) -> bool {
    match almanac_of(input) {
        None => r == Err::<u64, Error>(Error::Syntax),
        Some((seeds, tables, _)) => if registry_wf(tables) {
            is_lowest_of_seeds(tables, seed_name(), seeds, location_name(), r)
        } else {
            r == Err::<u64, Error>(Error::OutOfBounds)
        },
    }
}

/// Whether `r` is the answer to an almanac whose seeds are given as ranges:
/// the least location that a seed of a range comes to, or the reason why
/// there is none.
pub open spec fn is_part2(input: Seq<u8>, r: Result<u64, Error>) -> bool {
    match range_almanac_of(input) {
        None => r == Err::<u64, Error>(Error::Syntax),
        Some((ranges, tables, _)) => if registry_wf(tables) {
            is_lowest_of_ranges(tables, seed_name(), ranges, location_name(), r)
        } else {
            r == Err::<u64, Error>(Error::OutOfBounds)
        },
    }
}

/// The lowest location that any of the seeds of an almanac comes to, the
/// seeds being given one by one.
pub fn part1(input: &[u8]) -> (r: Result<u64, Error>)
    ensures
        is_part1(input@, r),
{
    let (_, (seeds, maps)) = match get_seeds_and_maps(input) {
        Ok(x) => x,
        Err(e) => {
            return Err(e);
        },
    };
    if !tables_valid(&maps) {
        return Err(Error::OutOfBounds);
    }
    lowest_of_seeds("seed".as_bytes(), &seeds, "location".as_bytes(), &maps)
}

/// The lowest location that any seed of any of the seed ranges of an almanac
/// comes to.
pub fn part2(input: &[u8]) -> (r: Result<u64, Error>)
    ensures
        is_part2(input@, r),
{
    let (_, (ranges, maps)) = match get_seed_ranges_and_maps(input) {
        Ok(x) => x,
        Err(e) => {
            return Err(e);
        },
    };
    if !tables_valid(&maps) {
        return Err(Error::OutOfBounds);
    }
    lowest_of_ranges("seed".as_bytes(), &ranges, "location".as_bytes(), &maps)
}

} // verus!
