// The walk of one value through the chain of tables.

use vstd::prelude::*;
use crate::text::bytes_eq;
use crate::day05::table::{
    Table, TableModel, get_mapping, lemma_lookup_bounds, lookup, models, rules_fit,
};

verus! {

/// Why an almanac could not be solved.
#[derive(Debug, Clone, Copy, PartialEq, Eq)]
pub enum Error {
    /// The text does not follow the almanac grammar.
    Syntax,
    /// A rule or a seed range reaches beyond the `u64` values.
    OutOfBounds,
    /// A category short of the goal has no outgoing table.
    NoPath,
    /// The goal was not reached within as many hops as there are tables.
    HopLimit,
    /// There is no seed to take a minimum over.
    NoSeeds,
}

/// Every table of the registry lies within the `u64` values.
pub open spec fn registry_wf(reg: Seq<TableModel>) -> bool {
    forall|i: int| 0 <= i < reg.len() ==> rules_fit((#[trigger] reg[i]).rules)
}

/// The index of the first table from index `k` on that leaves the category `name`.
pub open spec fn source_index(reg: Seq<TableModel>, name: Seq<u8>, k: int) -> Option<int>
    decreases reg.len() - k,
{
    if k < 0 || k >= reg.len() {
        None
    } else if reg[k].from == name {
        Some(k)
    } else {
        source_index(reg, name, k + 1)
    }
}

/// The value that `v` of category `cur` becomes in category `goal`, with at
/// most `hops` tables applied on the way.
pub open spec fn resolve(
    reg: Seq<TableModel>,
    cur: Seq<u8>,
    v: int,
    goal: Seq<u8>,
    hops: nat,
) -> Result<int, Error>
    decreases hops,
{
    if cur == goal {
        Ok(v)
    } else {
        match source_index(reg, cur, 0) {
            None => Err(Error::NoPath),
            Some(i) => if hops == 0 {
                Err(Error::HopLimit)
            } else {
                resolve(reg, reg[i].to, lookup(reg[i].rules, v), goal, (hops - 1) as nat)
            },
        }
    }
}

/// Finds the first table that leaves the category `name`.
pub fn find_table(maps: &Vec<Table>, name: &[u8]) -> (r: Option<usize>)
    ensures
        match r {
            Some(i) => source_index(models(maps@), name@, 0) == Some(i as int) && i < maps@.len(),
            None => source_index(models(maps@), name@, 0) is None,
        },
{
    let mut i: usize = 0;
    while i < maps.len()
        invariant
            i <= maps@.len(),
            source_index(models(maps@), name@, 0) == source_index(models(maps@), name@, i as int),
        decreases maps@.len() - i,
    {
        if bytes_eq(maps[i].from.as_slice(), name) {
            return Some(i);
        }
        i += 1;
    }
    None
}

/// Walks a value from the category `from` to the category `to`, one table per
/// hop, and returns what it has become there.
pub fn find_dest(from: &[u8], value: u64, to: &[u8], maps: &Vec<Table>) -> (r: Result<u64, Error>)
    requires
        registry_wf(models(maps@)),
    ensures
        match r {
            Ok(v) => resolve(models(maps@), from@, value as int, to@, maps@.len()) == Ok::<
                int,
                Error,
            >(v as int),
            Err(e) => resolve(models(maps@), from@, value as int, to@, maps@.len()) == Err::<
                int,
                Error,
            >(e),
        },
{
    let mut cur: &[u8] = from;
    let mut cur_value: u64 = value;
    let mut hops: usize = maps.len();
    loop
        invariant
            registry_wf(models(maps@)),
            hops <= maps@.len(),
            resolve(models(maps@), from@, value as int, to@, maps@.len()) == resolve(
                models(maps@),
                cur@,
                cur_value as int,
                to@,
                hops as nat,
            ),
        decreases hops,
    {
        if bytes_eq(cur, to) {
            return Ok(cur_value);
        }
        match find_table(maps, cur) {
            None => {
                return Err(Error::NoPath);
            },
            Some(i) => {
                if hops == 0 {
                    return Err(Error::HopLimit);
                }
                assert(rules_fit(models(maps@)[i as int].rules));
                assert(maps@[i as int].wf());
                proof {
                    lemma_lookup_bounds(maps@[i as int].map@, 0, cur_value as int);
                }
                cur_value = get_mapping(&maps[i], cur_value);
                cur = maps[i].to.as_slice();
                hops = hops - 1;
            },
        }
    }
}

} // verus!
