// The walk of whole intervals through the chain of tables, and the lowest
// value that comes out for a list of seeds or of seed ranges.

use vstd::prelude::*;
use crate::text::bytes_eq;
use crate::day05::table::{Range, Table, TableModel, lookup, lookup_from, models};
use crate::day05::chain::{Error, find_dest, find_table, registry_wf, resolve, source_index};
use crate::day05::ranges::{
    Interval, all_wf, covered, image_from, lemma_covered_push, map_intervals, total_len,
};

verus! {

/// The values that the values in `s` of category `from` become in category
/// `goal`, each walked through the registry on its own.
pub open spec fn reachable(
    reg: Seq<TableModel>,
    from: Seq<u8>,
    s: Set<int>,
    goal: Seq<u8>,
) -> Set<int> {
    Set::new(
        |w: int|
            exists|v: int|
                #[trigger] s.contains(v) && resolve(reg, from, v, goal, reg.len()) == Ok::<
                    int,
                    Error,
                >(w),
    )
}

/// A value lies in one of the intervals that cover what an interval
/// reaches just when a value of that interval, walked on its own, becomes it.
pub proof fn lemma_range_walk_is_pointwise(
    reg: Seq<TableModel>,
    from: Seq<u8>,
    iv: Interval,
    goal: Seq<u8>,
    out: Seq<Interval>,
    w: int,
)
    requires
        covered(out) == reachable(reg, from, iv.values(), goal),
    ensures
        (exists|i: int| 0 <= i < out.len() && (#[trigger] out[i]).contains(w)) <==> (exists|v: int|
            #[trigger] iv.contains(v) && resolve(reg, from, v, goal, reg.len()) == Ok::<int, Error>(
                w,
            )),
{
    let s = iv.values();
    assert(covered(out).contains(w) == reachable(reg, from, s, goal).contains(w));
    if reachable(reg, from, s, goal).contains(w) {
        let v = choose|v: int| #[trigger]
            s.contains(v) && resolve(reg, from, v, goal, reg.len()) == Ok::<int, Error>(w);
        assert(iv.contains(v));
    }
    if exists|v: int| #[trigger]
        iv.contains(v) && resolve(reg, from, v, goal, reg.len()) == Ok::<int, Error>(w) {
        let v = choose|v: int| #[trigger]
            iv.contains(v) && resolve(reg, from, v, goal, reg.len()) == Ok::<int, Error>(w);
        assert(s.contains(v));
    }
}

/// The values that `f` makes of the values in `s`.
pub open spec fn image_by(s: Set<int>, f: spec_fn(int) -> int) -> Set<int> {
    Set::new(|w: int| exists|v: int| #[trigger] s.contains(v) && f(v) == w)
}

/// Whether a walk reaches the goal, and how it fails if it does not, is the
/// same for every starting value.
pub proof fn lemma_resolve_uniform(
    reg: Seq<TableModel>,
    cur: Seq<u8>,
    v1: int,
    v2: int,
    goal: Seq<u8>,
    hops: nat,
)
    ensures
        resolve(reg, cur, v1, goal, hops) is Ok <==> resolve(reg, cur, v2, goal, hops) is Ok,
        forall|e: Error|
            resolve(reg, cur, v1, goal, hops) == Err::<int, Error>(e) <==> resolve(
                reg,
                cur,
                v2,
                goal,
                hops,
            ) == Err::<int, Error>(e),
    decreases hops,
{
    if cur != goal && hops > 0 {
        match source_index(reg, cur, 0) {
            None => {},
            Some(i) => {
                lemma_resolve_uniform(
                    reg,
                    reg[i].to,
                    lookup(reg[i].rules, v1),
                    lookup(reg[i].rules, v2),
                    goal,
                    (hops - 1) as nat,
                );
            },
        }
    }
}

proof fn lemma_image_compose(
    rules: Seq<Range>,
    s: Set<int>,
    f: spec_fn(int) -> int,
    g: spec_fn(int) -> int,
)
    requires
        forall|v: int| #[trigger] g(v) == lookup(rules, f(v)),
    ensures
        image_from(rules, 0, image_by(s, f)) == image_by(s, g),
{
    let mid = image_by(s, f);
    assert forall|w: int| image_from(rules, 0, mid).contains(w) <==> image_by(s, g).contains(w) by {
        if image_from(rules, 0, mid).contains(w) {
            let u = choose|u: int| #[trigger] mid.contains(u) && lookup_from(rules, 0, u) == w;
            let v = choose|v: int| #[trigger] s.contains(v) && f(v) == u;
            assert(s.contains(v) && g(v) == w);
        }
        if image_by(s, g).contains(w) {
            let v = choose|v: int| #[trigger] s.contains(v) && g(v) == w;
            assert(s.contains(v) && f(v) == f(v));
            assert(mid.contains(f(v)) && lookup_from(rules, 0, f(v)) == w);
        }
    }
    assert(image_from(rules, 0, mid) =~= image_by(s, g));
}

/// Walks a whole interval from the category `from` to the category `to`. The
/// intervals that come back cover exactly the values that the values of `iv`
/// become when each is walked on its own, and are together as long as `iv`.
pub fn find_dest_range(from: &[u8], iv: Interval, to: &[u8], maps: &Vec<Table>) -> (r: Result<
    Vec<Interval>,
    Error,
>)
    requires
        registry_wf(models(maps@)),
        iv.wf(),
    ensures
        match r {
            Ok(out) => {
                &&& all_wf(out@)
                &&& total_len(out@) == iv.len
                &&& covered(out@) == reachable(models(maps@), from@, iv.values(), to@)
                &&& forall|v: int| #[trigger]
                    resolve(models(maps@), from@, v, to@, models(maps@).len()) is Ok
            },
            Err(e) => forall|v: int| #[trigger]
                resolve(models(maps@), from@, v, to@, models(maps@).len()) == Err::<int, Error>(e),
        },
{
    let mut cur: &[u8] = from;
    let mut ivs: Vec<Interval> = Vec::new();
    let mut hops: usize = maps.len();
    let ghost mut f: spec_fn(int) -> int = |v: int| v;
    proof {
        lemma_covered_push(ivs@, iv);
        assert(total_len(ivs@) == 0);
    }
    ivs.push(iv);
    proof {
        assert(covered(ivs@) =~= image_by(iv.values(), f)) by {
            assert forall|w: int| covered(ivs@).contains(w) <==> image_by(iv.values(), f).contains(
                w,
            ) by {
                if covered(ivs@).contains(w) {
                    assert(iv.values().contains(w) && f(w) == w);
                }
                if image_by(iv.values(), f).contains(w) {
                    let v = choose|v: int| #[trigger] iv.values().contains(v) && f(v) == w;
                    assert(ivs@[0].contains(w));
                }
            }
        }
    }
    loop
        invariant
            registry_wf(models(maps@)),
            hops <= models(maps@).len(),
            all_wf(ivs@),
            total_len(ivs@) == iv.len,
            covered(ivs@) == image_by(iv.values(), f),
            forall|v: int| #[trigger]
                resolve(models(maps@), from@, v, to@, models(maps@).len()) == resolve(
                    models(maps@),
                    cur@,
                    f(v),
                    to@,
                    hops as nat,
                ),
        decreases hops,
    {
        if bytes_eq(cur, to) {
            proof {
                let s = iv.values();
                assert forall|w: int| image_by(s, f).contains(w) <==> reachable(
                    models(maps@),
                    from@,
                    s,
                    to@,
                ).contains(w) by {
                    if image_by(s, f).contains(w) {
                        let v = choose|v: int| #[trigger] s.contains(v) && f(v) == w;
                        assert(s.contains(v) && resolve(
                            models(maps@),
                            from@,
                            v,
                            to@,
                            models(maps@).len(),
                        ) == Ok::<int, Error>(w));
                    }
                    if reachable(models(maps@), from@, s, to@).contains(w) {
                        let v = choose|v: int| #[trigger]
                            s.contains(v) && resolve(
                                models(maps@),
                                from@,
                                v,
                                to@,
                                models(maps@).len(),
                            ) == Ok::<int, Error>(w);
                        assert(s.contains(v) && f(v) == w);
                    }
                }
                assert(image_by(s, f) =~= reachable(models(maps@), from@, s, to@));
            }
            return Ok(ivs);
        }
        match find_table(maps, cur) {
            None => {
                return Err(Error::NoPath);
            },
            Some(i) => {
                if hops == 0 {
                    return Err(Error::HopLimit);
                }
                assert(maps@[i as int].wf());
                let ghost g: spec_fn(int) -> int = |v: int| lookup(maps@[i as int].map@, f(v));
                proof {
                    lemma_image_compose(maps@[i as int].map@, iv.values(), f, g);
                }
                ivs = map_intervals(&maps[i], &ivs);
                cur = maps[i].to.as_slice();
                hops = hops - 1;
                proof {
                    f = g;
                }
            },
        }
    }
}

/// The start of the interval that starts lowest: the least covered value.
pub fn lowest_start(ivs: &Vec<Interval>) -> (m: u64)
    requires
        ivs@.len() > 0,
        all_wf(ivs@),
    ensures
        covered(ivs@).contains(m as int),
        forall|w: int| covered(ivs@).contains(w) ==> m <= w,
{
    let mut m: u64 = ivs[0].start;
    let mut i: usize = 1;
    assert(ivs@[0].wf() && ivs@[0].contains(m as int));
    while i < ivs.len()
        invariant
            1 <= i <= ivs@.len(),
            all_wf(ivs@),
            exists|j: int| 0 <= j < i && (#[trigger] ivs@[j]).contains(m as int),
            forall|j: int| 0 <= j < i ==> m <= (#[trigger] ivs@[j]).start,
        decreases ivs@.len() - i,
    {
        assert(ivs@[i as int].wf());
        if ivs[i].start < m {
            m = ivs[i].start;
            assert(ivs@[i as int].contains(m as int));
        }
        i += 1;
    }
    assert forall|w: int| covered(ivs@).contains(w) implies m <= w by {
        let j = choose|j: int| 0 <= j < ivs@.len() && (#[trigger] ivs@[j]).contains(w);
        assert(m <= ivs@[j].start);
    }
    m
}

/// Whether `r` is the answer for a list of single seeds: the least value that
/// a seed becomes, or the reason why there is none.
pub open spec fn is_lowest_of_seeds(
    reg: Seq<TableModel>,
    from: Seq<u8>,
    seeds: Seq<u64>,
    goal: Seq<u8>,
    r: Result<u64, Error>,
) -> bool {
    if seeds.len() == 0 {
        r == Err::<u64, Error>(Error::NoSeeds)
    } else {
        match resolve(reg, from, seeds[0] as int, goal, reg.len()) {
            Err(e) => r == Err::<u64, Error>(e),
            Ok(_) => {
                &&& r matches Ok(m)
                &&& exists|i: int|
                    0 <= i < seeds.len() && resolve(
                        reg,
                        from,
                        (#[trigger] seeds[i]) as int,
                        goal,
                        reg.len(),
                    ) == Ok::<int, Error>(m as int)
                &&& forall|i: int|
                    0 <= i < seeds.len() ==> (resolve(
                        reg,
                        from,
                        (#[trigger] seeds[i]) as int,
                        goal,
                        reg.len(),
                    ) matches Ok(x) && m <= x)
            },
        }
    }
}

/// Walks every seed of the list to the category `to` and returns the least
/// of the values that come out.
pub fn lowest_of_seeds(from: &[u8], seeds: &Vec<u64>, to: &[u8], maps: &Vec<Table>) -> (r: Result<
    u64,
    Error,
>)
    requires
        registry_wf(models(maps@)),
    ensures
        is_lowest_of_seeds(models(maps@), from@, seeds@, to@, r),
{
    if seeds.len() == 0 {
        return Err(Error::NoSeeds);
    }
    let mut best: u64 = match find_dest(from, seeds[0], to, maps) {
        Ok(v) => v,
        Err(e) => {
            return Err(e);
        },
    };
    let mut i: usize = 1;
    while i < seeds.len()
        invariant
            1 <= i <= seeds@.len(),
            registry_wf(models(maps@)),
            resolve(models(maps@), from@, seeds@[0] as int, to@, models(maps@).len()) is Ok,
            exists|j: int|
                0 <= j < i && resolve(
                    models(maps@),
                    from@,
                    (#[trigger] seeds@[j]) as int,
                    to@,
                    models(maps@).len(),
                ) == Ok::<int, Error>(best as int),
            forall|j: int|
                0 <= j < i ==> (resolve(
                    models(maps@),
                    from@,
                    (#[trigger] seeds@[j]) as int,
                    to@,
                    models(maps@).len(),
                ) matches Ok(x) && best <= x),
        decreases seeds@.len() - i,
    {
        proof {
            lemma_resolve_uniform(
                models(maps@),
                from@,
                seeds@[0] as int,
                seeds@[i as int] as int,
                to@,
                models(maps@).len(),
            );
        }
        match find_dest(from, seeds[i], to, maps) {
            Ok(v) => {
                if v < best {
                    best = v;
                }
            },
            Err(e) => {
                return Err(e);
            },
        }
        i += 1;
    }
    Ok(best)
}

/// The value `v` lies in the seed range that starts at `r.0` and is `r.1` long.
pub open spec fn in_range(r: (u64, u64), v: int) -> bool {
    r.0 <= v < r.0 + r.1
}

/// The seeds that a list of `(start, length)` ranges stands for.
pub open spec fn range_values(ranges: Seq<(u64, u64)>) -> Set<int> {
    Set::new(|v: int| exists|i: int| 0 <= i < ranges.len() && in_range(#[trigger] ranges[i], v))
}

/// Every range of the list ends within the `u64` values.
pub open spec fn ranges_bounded(ranges: Seq<(u64, u64)>) -> bool {
    forall|i: int| 0 <= i < ranges.len() ==> (#[trigger] ranges[i]).0 + ranges[i].1 <= u64::MAX + 1
}

/// Whether `r` is the answer for a list of seed ranges: the least value that
/// any seed of any range becomes, or the reason why there is none.
pub open spec fn is_lowest_of_ranges(
    reg: Seq<TableModel>,
    from: Seq<u8>,
    ranges: Seq<(u64, u64)>,
    goal: Seq<u8>,
    r: Result<u64, Error>,
) -> bool {
    if !ranges_bounded(ranges) {
        r == Err::<u64, Error>(Error::OutOfBounds)
    } else if forall|i: int| 0 <= i < ranges.len() ==> (#[trigger] ranges[i]).1 == 0 {
        r == Err::<u64, Error>(Error::NoSeeds)
    } else {
        match resolve(reg, from, 0, goal, reg.len()) {
            Err(e) => r == Err::<u64, Error>(e),
            Ok(_) => {
                &&& r matches Ok(m)
                &&& reachable(reg, from, range_values(ranges), goal).contains(m as int)
                &&& forall|w: int|
                    reachable(reg, from, range_values(ranges), goal).contains(w) ==> m <= w
            },
        }
    }
}

/// The values reached from a union are those reached from either part.
pub proof fn lemma_reachable_union(
    reg: Seq<TableModel>,
    from: Seq<u8>,
    a: Set<int>,
    b: Set<int>,
    goal: Seq<u8>,
)
    ensures
        reachable(reg, from, a.union(b), goal) == reachable(reg, from, a, goal).union(
            reachable(reg, from, b, goal),
        ),
{
    let u = a.union(b);
    let n = reg.len();
    assert forall|w: int| reachable(reg, from, u, goal).contains(w) <==> reachable(
        reg,
        from,
        a,
        goal,
    ).union(reachable(reg, from, b, goal)).contains(w) by {
        if reachable(reg, from, u, goal).contains(w) {
            let v = choose|v: int| #[trigger]
                u.contains(v) && resolve(reg, from, v, goal, n) == Ok::<int, Error>(w);
            if a.contains(v) {
                assert(reachable(reg, from, a, goal).contains(w));
            } else {
                assert(b.contains(v));
                assert(reachable(reg, from, b, goal).contains(w));
            }
        }
        if reachable(reg, from, a, goal).contains(w) {
            let v = choose|v: int| #[trigger]
                a.contains(v) && resolve(reg, from, v, goal, n) == Ok::<int, Error>(w);
            assert(u.contains(v));
        }
        if reachable(reg, from, b, goal).contains(w) {
            let v = choose|v: int| #[trigger]
                b.contains(v) && resolve(reg, from, v, goal, n) == Ok::<int, Error>(w);
            assert(u.contains(v));
        }
    }
    assert(reachable(reg, from, u, goal) =~= reachable(reg, from, a, goal).union(
        reachable(reg, from, b, goal),
    ));
}

proof fn lemma_range_values_push(ranges: Seq<(u64, u64)>, x: (u64, u64))
    ensures
        range_values(ranges.push(x)) == range_values(ranges).union(
            (Interval { start: x.0, len: x.1 }).values(),
        ),
{
    let p = ranges.push(x);
    let iv = Interval { start: x.0, len: x.1 };
    assert forall|v: int| range_values(p).contains(v) <==> range_values(ranges).union(
        iv.values(),
    ).contains(v) by {
        if range_values(p).contains(v) {
            let i = choose|i: int| 0 <= i < p.len() && in_range(#[trigger] p[i], v);
            if i < ranges.len() {
                assert(in_range(ranges[i], v));
            } else {
                assert(iv.contains(v));
            }
        }
        if range_values(ranges).contains(v) {
            let i = choose|i: int| 0 <= i < ranges.len() && in_range(#[trigger] ranges[i], v);
            assert(in_range(p[i], v));
        }
        if iv.values().contains(v) {
            assert(in_range(p[ranges.len() as int], v));
        }
    }
    assert(range_values(p) =~= range_values(ranges).union(iv.values()));
}

/// Walks every seed of every range to the category `to` and returns the
/// least of the values that come out, without walking the seeds one by one.
pub fn lowest_of_ranges(
    from: &[u8],
    ranges: &Vec<(u64, u64)>,
    to: &[u8],
    maps: &Vec<Table>,
) -> (r: Result<u64, Error>)
    requires
        registry_wf(models(maps@)),
    ensures
        is_lowest_of_ranges(models(maps@), from@, ranges@, to@, r),
{
    let mut k: usize = 0;
    while k < ranges.len()
        invariant
            k <= ranges@.len(),
            forall|j: int| 0 <= j < k ==> (#[trigger] ranges@[j]).0 + ranges@[j].1 <= u64::MAX + 1,
        decreases ranges@.len() - k,
    {
        let x = ranges[k];
        if x.1 > 0 && x.1 - 1 > u64::MAX - x.0 {
            assert(!(ranges@[k as int].0 + ranges@[k as int].1 <= u64::MAX + 1));
            return Err(Error::OutOfBounds);
        }
        k += 1;
    }
    let mut best: Option<u64> = None;
    let mut i: usize = 0;
    let ghost n = models(maps@).len();
    proof {
        assert(range_values(ranges@.take(0)) =~= Set::<int>::empty());
    }
    while i < ranges.len()
        invariant
            i <= ranges@.len(),
            n == models(maps@).len(),
            registry_wf(models(maps@)),
            ranges_bounded(ranges@),
            best is None ==> forall|j: int| 0 <= j < i ==> (#[trigger] ranges@[j]).1 == 0,
            best matches Some(m) ==> {
                &&& reachable(
                    models(maps@),
                    from@,
                    range_values(ranges@.take(i as int)),
                    to@,
                ).contains(m as int)
                &&& forall|w: int|
                    reachable(
                        models(maps@),
                        from@,
                        range_values(ranges@.take(i as int)),
                        to@,
                    ).contains(w) ==> m <= w
            },
            best is None ==> range_values(ranges@.take(i as int)) == Set::<int>::empty(),
        decreases ranges@.len() - i,
    {
        let x = ranges[i];
        let iv = Interval { start: x.0, len: x.1 };
        let ghost before = range_values(ranges@.take(i as int));
        proof {
            assert(ranges@.take(i as int + 1) =~= ranges@.take(i as int).push(x));
            lemma_range_values_push(ranges@.take(i as int), x);
            lemma_reachable_union(models(maps@), from@, before, iv.values(), to@);
            assert(ranges@[i as int].0 + ranges@[i as int].1 <= u64::MAX + 1);
        }
        if x.1 > 0 {
            match find_dest_range(from, iv, to, maps) {
                Err(e) => {
                    proof {
                        assert(resolve(models(maps@), from@, 0, to@, n) == Err::<int, Error>(e));
                        assert(ranges@[i as int].1 != 0);
                        if best is Some {
                            let m = best->0;
                            let v = choose|v: int| #[trigger]
                                before.contains(v) && resolve(
                                    models(maps@),
                                    from@,
                                    v,
                                    to@,
                                    n,
                                ) == Ok::<int, Error>(m as int);
                            assert(resolve(models(maps@), from@, v, to@, n) == Err::<int, Error>(
                                e,
                            ));
                        }
                    }
                    return Err(e);
                },
                Ok(out) => {
                    assert(out@.len() > 0) by {
                        if out@.len() == 0 {
                            assert(total_len(out@) == 0);
                        }
                    }
                    let m = lowest_start(&out);
                    match best {
                        None => {
                            proof {
                                assert(before.union(iv.values()) =~= iv.values());
                            }
                            best = Some(m);
                        },
                        Some(b) => {
                            if m < b {
                                best = Some(m);
                            }
                        },
                    }
                },
            }
        } else {
            proof {
                assert(iv.values() =~= Set::<int>::empty());
                assert(before.union(iv.values()) =~= before);
            }
        }
        i += 1;
    }
    proof {
        assert(ranges@.take(i as int) =~= ranges@);
    }
    match best {
        None => Err(Error::NoSeeds),
        Some(m) => {
            proof {
                let all = range_values(ranges@);
                let v = choose|v: int| #[trigger]
                    all.contains(v) && resolve(models(maps@), from@, v, to@, n) == Ok::<int, Error>(
                        m as int,
                    );
                let j = choose|j: int| 0 <= j < ranges@.len() && in_range(#[trigger] ranges@[j], v);
                assert(ranges@[j].1 != 0);
                lemma_resolve_uniform(models(maps@), from@, v, 0, to@, n);
            }
            Ok(m)
        },
    }
}

/// The seeds of an almanac: given one by one, or as ranges, each a start
/// and a length.
#[derive(Debug, PartialEq, Eq)]
pub enum SeedSet {
    /// Single seeds.
    Values(Vec<u64>),
    /// Ranges of seeds, each as its first seed and the number of its seeds.
    Ranges(Vec<(u64, u64)>),
}

/// Whether `r` is the answer for a set of seeds: the least value that a
/// seed of the set becomes, or the reason why there is none.
pub open spec fn is_lowest(
    reg: Seq<TableModel>,
    from: Seq<u8>,
    seeds: SeedSet,
    goal: Seq<u8>,
    r: Result<u64, Error>,
) -> bool {
    match seeds {
        SeedSet::Values(values) => is_lowest_of_seeds(reg, from, values@, goal, r),
        SeedSet::Ranges(ranges) => is_lowest_of_ranges(reg, from, ranges@, goal, r),
    }
}

/// The least value that a seed of the set becomes in the category `to`.
pub fn lowest(from: &[u8], seeds: &SeedSet, to: &[u8], maps: &Vec<Table>) -> (r: Result<
    u64,
    Error,
>)
    requires
        registry_wf(models(maps@)),
    ensures
        is_lowest(models(maps@), from@, *seeds, to@, r),
{
    match seeds {
        SeedSet::Values(values) => lowest_of_seeds(from, values, to, maps),
        SeedSet::Ranges(ranges) => lowest_of_ranges(from, ranges, to, maps),
    }
}

/// What one rule alone makes of a value: a value of its source interval is
/// moved by the rule's offset, and any other value stays.
pub open spec fn moved_by(rule: Range, v: int) -> int {
    if rule.covers(v) {
        rule.dst + (v - rule.src)
    } else {
        v
    }
}

/// In a registry of one table with one rule, walking a value and walking
/// an interval come to the same shift: a value becomes what the rule alone
/// makes of it, an interval reaches what the rule alone makes of its values,
/// and an interval inside the rule's source is moved as a whole.
pub proof fn lemma_single_rule_chain(t: TableModel, v: int, iv: Interval)
    requires
        t.from != t.to,
        t.rules.len() == 1,
    ensures
        resolve(seq![t], t.from, v, t.to, 1) == Ok::<int, Error>(moved_by(t.rules[0], v)),
        forall|w: int|
            reachable(seq![t], t.from, iv.values(), t.to).contains(w) <==> exists|u: int|
                #[trigger] iv.contains(u) && moved_by(t.rules[0], u) == w,
        (forall|u: int| iv.contains(u) ==> t.rules[0].covers(u)) ==> forall|w: int|
            reachable(seq![t], t.from, iv.values(), t.to).contains(w) <==> t.rules[0].dst + (
            iv.start - t.rules[0].src) <= w < t.rules[0].dst + (iv.start - t.rules[0].src) + iv.len,
{
    let reg = seq![t];
    let rule = t.rules[0];
    let s = iv.values();
    assert(reg.len() == 1 && reg[0] == t);
    assert(source_index(reg, t.from, 0) == Some(0int));
    assert forall|u: int| #[trigger]
        resolve(reg, t.from, u, t.to, 1) == Ok::<int, Error>(moved_by(rule, u)) by {
        assert(lookup_from(t.rules, 1, u) == u);
        assert(lookup(t.rules, u) == moved_by(rule, u));
        assert(resolve(reg, t.to, lookup(t.rules, u), t.to, 0) == Ok::<int, Error>(
            lookup(t.rules, u),
        ));
    }
    assert forall|w: int|
        reachable(reg, t.from, s, t.to).contains(w) <==> exists|u: int|
            #[trigger] iv.contains(u) && moved_by(rule, u) == w by {
        if reachable(reg, t.from, s, t.to).contains(w) {
            let u = choose|u: int| #[trigger]
                s.contains(u) && resolve(reg, t.from, u, t.to, 1) == Ok::<int, Error>(w);
            assert(iv.contains(u) && moved_by(rule, u) == w);
        }
        if exists|u: int| #[trigger] iv.contains(u) && moved_by(rule, u) == w {
            let u = choose|u: int| #[trigger] iv.contains(u) && moved_by(rule, u) == w;
            assert(s.contains(u) && resolve(reg, t.from, u, t.to, 1) == Ok::<int, Error>(w));
        }
    }
    if forall|u: int| iv.contains(u) ==> rule.covers(u) {
        let lo = rule.dst + (iv.start - rule.src);
        assert forall|w: int| reachable(reg, t.from, s, t.to).contains(w) <==> lo <= w < lo
            + iv.len by {
            if reachable(reg, t.from, s, t.to).contains(w) {
                let u = choose|u: int| #[trigger] iv.contains(u) && moved_by(rule, u) == w;
                assert(rule.covers(u));
            }
            if lo <= w < lo + iv.len {
                let u = w - rule.dst + rule.src;
                assert(iv.contains(u) && moved_by(rule, u) == w);
            }
        }
    }
}

} // verus!
