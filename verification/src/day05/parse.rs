// The grammar of the almanac, read from a given place in a text.

use vstd::prelude::*;
use vstd::slice::{slice_subrange, slice_to_vec};
use vstd::string::StringSliceAdditionalSpecFns;
use crate::text::{Class, has_at, lemma_run_end, number_at, read_number, run_end, scan, starts_at};
use crate::day05::table::{Range, Table, TableModel, models};

verus! {

/// The word that opens the list of seeds.
pub open spec fn kw_seeds() -> Seq<u8> {
    "seeds:".spec_bytes()
}

/// The word between the two category names of a table's heading.
pub open spec fn kw_to() -> Seq<u8> {
    "-to-".spec_bytes()
}

/// The word that closes a table's heading.
pub open spec fn kw_map() -> Seq<u8> {
    " map:".spec_bytes()
}

/// Where the line ending that stands at `pos` ends: a line feed, or a
/// carriage return and a line feed.
pub open spec fn eol_at(s: Seq<u8>, pos: int) -> Option<int> {
    if 0 <= pos < s.len() && s[pos] == 10 {
        Some(pos + 1)
    } else if 0 <= pos && pos + 1 < s.len() && s[pos] == 13 && s[pos + 1] == 10 {
        Some(pos + 2)
    } else {
        None
    }
}

/// The rule that stands at `pos`, and where it ends: blanks, if any, then the
/// destination start, the source start and the length, with blanks between.
pub open spec fn mapping_at(s: Seq<u8>, pos: int) -> Option<(Range, int)> {
    let at1 = run_end(s, pos, Class::Blank);
    match number_at(s, at1, u64::MAX as int) {
        None => None,
        Some((dst, at2)) => {
            let at3 = run_end(s, at2, Class::Blank);
            match number_at(s, at3, u64::MAX as int) {
                None => None,
                Some((src, at4)) => {
                    let at5 = run_end(s, at4, Class::Blank);
                    match number_at(s, at5, u64::MAX as int) {
                        None => None,
                        Some((len, at6)) => if at3 == at2 || at5 == at4 {
                            None
                        } else {
                            Some(
                                (Range { src: src as u64, dst: dst as u64, len: len as u64 }, at6),
                            )
                        },
                    }
                },
            }
        },
    }
}

/// A rule ends after the place where it was sought, and within the text.
pub proof fn lemma_mapping_at(s: Seq<u8>, pos: int)
    requires
        0 <= pos <= s.len(),
    ensures
        mapping_at(s, pos) matches Some((_, e)) ==> pos < e <= s.len(),
{
    lemma_run_end(s, pos, Class::Blank);
    let at1 = run_end(s, pos, Class::Blank);
    if let Some((_, at2)) = number_at(s, at1, u64::MAX as int) {
        lemma_run_end(s, at2, Class::Blank);
        let at3 = run_end(s, at2, Class::Blank);
        if let Some((_, at4)) = number_at(s, at3, u64::MAX as int) {
            lemma_run_end(s, at4, Class::Blank);
        }
    }
}

/// The rules that follow a rule which ended at `pos`, each on a line of its
/// own, and where the last of them ends.
pub open spec fn mappings_after(s: Seq<u8>, pos: int) -> (Seq<Range>, int)
    decreases s.len() - pos,
{
    match eol_at(s, pos) {
        None => (Seq::empty(), pos),
        Some(q) => match mapping_at(s, q) {
            None => (Seq::empty(), pos),
            Some((m, e)) => {
                proof {
                    lemma_mapping_at(s, q);
                }
                let (rest, end) = mappings_after(s, e);
                (seq![m] + rest, end)
            },
        },
    }
}

/// The rules that stand at `pos`, one to a line, and where the last of them
/// ends; there may be none.
pub open spec fn mapping_list(s: Seq<u8>, pos: int) -> (Seq<Range>, int) {
    match mapping_at(s, pos) {
        None => (Seq::empty(), pos),
        Some((m, e)) => {
            let (rest, end) = mappings_after(s, e);
            (seq![m] + rest, end)
        },
    }
}

/// A list of rules ends no earlier than where it was sought, and within the text.
pub proof fn lemma_mappings_after(s: Seq<u8>, pos: int)
    requires
        0 <= pos <= s.len(),
    ensures
        pos <= mappings_after(s, pos).1 <= s.len(),
    decreases s.len() - pos,
{
    match eol_at(s, pos) {
        None => {},
        Some(q) => {
            lemma_mapping_at(s, q);
            match mapping_at(s, q) {
                None => {},
                Some((m, e)) => {
                    lemma_mappings_after(s, e);
                },
            }
        },
    }
}

/// The heading that stands at `pos`: blanks, if any, then the two category
/// names around `-to-`, then ` map:`, blanks, if any, and a line ending.
pub open spec fn header_at(s: Seq<u8>, pos: int) -> Option<(Seq<u8>, Seq<u8>, int)> {
    let at1 = run_end(s, pos, Class::Blank);
    let at2 = run_end(s, at1, Class::Alpha);
    let at3 = at2 + kw_to().len();
    let at4 = run_end(s, at3, Class::Alpha);
    let at5 = at4 + kw_map().len();
    let at6 = run_end(s, at5, Class::Blank);
    if at2 == at1 || !starts_at(s, at2, kw_to()) || at4 == at3 || !starts_at(s, at4, kw_map()) {
        None
    } else {
        match eol_at(s, at6) {
            None => None,
            Some(at7) => Some((s.subrange(at1, at2), s.subrange(at3, at4), at7)),
        }
    }
}

/// The table that stands at `pos`, and where it ends: a heading and the list
/// of rules below it.
pub open spec fn table_at(s: Seq<u8>, pos: int) -> Option<(TableModel, int)> {
    match header_at(s, pos) {
        None => None,
        Some((from, to, p)) => {
            let (rules, e) = mapping_list(s, p);
            Some((TableModel { from, to, rules }, e))
        },
    }
}

/// A table ends after the place where it was sought, and within the text.
pub proof fn lemma_table_at(s: Seq<u8>, pos: int)
    requires
        0 <= pos <= s.len(),
    ensures
        table_at(s, pos) matches Some((_, e)) ==> pos < e <= s.len(),
{
    lemma_run_end(s, pos, Class::Blank);
    let at1 = run_end(s, pos, Class::Blank);
    lemma_run_end(s, at1, Class::Alpha);
    let at2 = run_end(s, at1, Class::Alpha);
    let at3 = at2 + kw_to().len();
    if starts_at(s, at2, kw_to()) {
        lemma_run_end(s, at3, Class::Alpha);
        let at4 = run_end(s, at3, Class::Alpha);
        let at5 = at4 + kw_map().len();
        if starts_at(s, at4, kw_map()) {
            lemma_run_end(s, at5, Class::Blank);
            let at6 = run_end(s, at5, Class::Blank);
            match eol_at(s, at6) {
                None => {},
                Some(at7) => {
                    lemma_mapping_at(s, at7);
                    match mapping_at(s, at7) {
                        None => {},
                        Some((m, e)) => {
                            lemma_mappings_after(s, e);
                        },
                    }
                },
            }
        }
    }
}

/// The tables that follow a table which ended at `pos`, each after an empty
/// line, and where the last of them ends.
pub open spec fn tables_after(s: Seq<u8>, pos: int) -> (Seq<TableModel>, int)
    decreases s.len() - pos,
{
    match eol_at(s, pos) {
        None => (Seq::empty(), pos),
        Some(q1) => match eol_at(s, q1) {
            None => (Seq::empty(), pos),
            Some(q2) => match table_at(s, q2) {
                None => (Seq::empty(), pos),
                Some((t, e)) => {
                    proof {
                        lemma_table_at(s, q2);
                    }
                    let (rest, end) = tables_after(s, e);
                    (seq![t] + rest, end)
                },
            },
        },
    }
}

/// The tables that stand at `pos`, with an empty line between one and the
/// next, and where the last of them ends; there may be none.
pub open spec fn table_list(s: Seq<u8>, pos: int) -> (Seq<TableModel>, int) {
    match table_at(s, pos) {
        None => (Seq::empty(), pos),
        Some((t, e)) => {
            let (rest, end) = tables_after(s, e);
            (seq![t] + rest, end)
        },
    }
}

/// The seeds that follow a seed which ended at `pos`, each after one space,
/// and where the last of them ends.
pub open spec fn seeds_after(s: Seq<u8>, pos: int) -> (Seq<u64>, int)
    decreases s.len() - pos,
{
    if 0 <= pos < s.len() && s[pos] == 32 {
        match number_at(s, pos + 1, u64::MAX as int) {
            None => (Seq::empty(), pos),
            Some((v, e)) => {
                let (rest, end) = seeds_after(s, e);
                (seq![v as u64] + rest, end)
            },
        }
    } else {
        (Seq::empty(), pos)
    }
}

/// The seeds that stand at `pos`, with one space between one and the next,
/// and where the last of them ends; there may be none.
pub open spec fn seed_list(s: Seq<u8>, pos: int) -> (Seq<u64>, int) {
    match number_at(s, pos, u64::MAX as int) {
        None => (Seq::empty(), pos),
        Some((v, e)) => {
            let (rest, end) = seeds_after(s, e);
            (seq![v as u64] + rest, end)
        },
    }
}

/// The seed range that stands at `pos`, and where it ends: its start and its
/// length, with blanks between.
pub open spec fn pair_at(s: Seq<u8>, pos: int) -> Option<((u64, u64), int)> {
    match number_at(s, pos, u64::MAX as int) {
        None => None,
        Some((a, at1)) => {
            let at2 = run_end(s, at1, Class::Blank);
            match number_at(s, at2, u64::MAX as int) {
                None => None,
                Some((b, at3)) => if at2 == at1 {
                    None
                } else {
                    Some(((a as u64, b as u64), at3))
                },
            }
        },
    }
}

/// The seed ranges that follow a range which ended at `pos`, each after one
/// space, and where the last of them ends.
pub open spec fn pairs_after(s: Seq<u8>, pos: int) -> (Seq<(u64, u64)>, int)
    decreases s.len() - pos,
{
    if 0 <= pos < s.len() && s[pos] == 32 {
        match pair_at(s, pos + 1) {
            None => (Seq::empty(), pos),
            Some((x, e)) => {
                proof {
                    lemma_pair_at(s, pos + 1);
                }
                let (rest, end) = pairs_after(s, e);
                (seq![x] + rest, end)
            },
        }
    } else {
        (Seq::empty(), pos)
    }
}

/// A seed range ends after the place where it was sought, and within the text.
pub proof fn lemma_pair_at(s: Seq<u8>, pos: int)
    requires
        0 <= pos <= s.len(),
    ensures
        pair_at(s, pos) matches Some((_, e)) ==> pos < e <= s.len(),
{
    if let Some((_, at1)) = number_at(s, pos, u64::MAX as int) {
        lemma_run_end(s, at1, Class::Blank);
    }
}

/// The seed ranges that stand at `pos`, with one space between one and the
/// next, and where the last of them ends; there may be none.
pub open spec fn pair_list(s: Seq<u8>, pos: int) -> (Seq<(u64, u64)>, int) {
    match pair_at(s, pos) {
        None => (Seq::empty(), pos),
        Some((x, e)) => {
            let (rest, end) = pairs_after(s, e);
            (seq![x] + rest, end)
        },
    }
}

/// Reads the line ending that stands at `pos`.
pub fn read_eol(s: &[u8], pos: usize) -> (r: Option<usize>)
    requires
        pos <= s@.len(),
    ensures
        match r {
            Some(e) => eol_at(s@, pos as int) == Some(e as int) && pos < e <= s@.len(),
            None => eol_at(s@, pos as int) is None,
        },
{
    if pos < s.len() && s[pos] == 10 {
        Some(pos + 1)
    } else if pos < s.len() && s.len() - pos > 1 && s[pos] == 13 && s[pos + 1] == 10 {
        Some(pos + 2)
    } else {
        None
    }
}

/// Reads the rule that stands at `pos`.
pub fn read_mapping(s: &[u8], pos: usize) -> (r: Option<(Range, usize)>)
    requires
        pos <= s@.len(),
    ensures
        match r {
            Some((m, e)) => mapping_at(s@, pos as int) == Some((m, e as int)) && pos < e
                <= s@.len(),
            None => mapping_at(s@, pos as int) is None,
        },
{
    let at1 = scan(s, pos, Class::Blank);
    let (dst, at2) = match read_number(s, at1, u64::MAX as u128) {
        Some(x) => x,
        None => {
            return None;
        },
    };
    let at3 = scan(s, at2, Class::Blank);
    let (src, at4) = match read_number(s, at3, u64::MAX as u128) {
        Some(x) => x,
        None => {
            return None;
        },
    };
    let at5 = scan(s, at4, Class::Blank);
    let (len, at6) = match read_number(s, at5, u64::MAX as u128) {
        Some(x) => x,
        None => {
            return None;
        },
    };
    if at3 == at2 || at5 == at4 {
        return None;
    }
    Some((Range { src: src as u64, dst: dst as u64, len: len as u64 }, at6))
}

/// Reads the rules that stand at `pos`, one to a line.
pub fn read_mappings(s: &[u8], pos: usize) -> (r: (Vec<Range>, usize))
    requires
        pos <= s@.len(),
    ensures
        r.0@ == mapping_list(s@, pos as int).0,
        r.1 == mapping_list(s@, pos as int).1,
        pos <= r.1 <= s@.len(),
{
    let mut out: Vec<Range> = Vec::new();
    let mut end: usize = pos;
    match read_mapping(s, pos) {
        None => {
            return (out, pos);
        },
        Some((m, e)) => {
            out.push(m);
            end = e;
        },
    }
    assert(out@ =~= seq![out@[0]]);
    loop
        invariant
            pos <= end <= s@.len(),
            mapping_list(s@, pos as int).0 == out@ + mappings_after(s@, end as int).0,
            mapping_list(s@, pos as int).1 == mappings_after(s@, end as int).1,
        decreases s@.len() - end,
    {
        let q = match read_eol(s, end) {
            Some(q) => q,
            None => {
                assert(out@ + Seq::<Range>::empty() =~= out@);
                return (out, end);
            },
        };
        match read_mapping(s, q) {
            None => {
                assert(out@ + Seq::<Range>::empty() =~= out@);
                return (out, end);
            },
            Some((m, e)) => {
                proof {
                    let rest = mappings_after(s@, e as int).0;
                    assert(out@.push(m) + rest =~= out@ + (seq![m] + rest));
                }
                out.push(m);
                end = e;
            },
        }
    }
}

/// Reads the heading that stands at `pos`.
pub fn read_header(s: &[u8], pos: usize) -> (r: Option<(Vec<u8>, Vec<u8>, usize)>)
    requires
        pos <= s@.len(),
    ensures
        match r {
            Some((from, to, e)) => header_at(s@, pos as int) == Some((from@, to@, e as int))
                && pos < e <= s@.len(),
            None => header_at(s@, pos as int) is None,
        },
{
    let arrow = "-to-".as_bytes();
    let tail = " map:".as_bytes();
    let n = s.len();
    let at1 = scan(s, pos, Class::Blank);
    let at2 = scan(s, at1, Class::Alpha);
    if at2 == at1 || !has_at(s, at2, arrow) {
        return None;
    }
    let at3 = at2 + arrow.len();
    let at4 = scan(s, at3, Class::Alpha);
    if at4 == at3 || !has_at(s, at4, tail) {
        return None;
    }
    let at5 = at4 + tail.len();
    let at6 = scan(s, at5, Class::Blank);
    match read_eol(s, at6) {
        None => None,
        Some(at7) => {
            let from = slice_to_vec(slice_subrange(s, at1, at2));
            let to = slice_to_vec(slice_subrange(s, at3, at4));
            Some((from, to, at7))
        },
    }
}

/// Reads the table that stands at `pos`.
pub fn read_table(s: &[u8], pos: usize) -> (r: Option<(Table, usize)>)
    requires
        pos <= s@.len(),
    ensures
        match r {
            Some((t, e)) => table_at(s@, pos as int) == Some((t@, e as int)) && pos < e
                <= s@.len(),
            None => table_at(s@, pos as int) is None,
        },
{
    match read_header(s, pos) {
        None => None,
        Some((from, to, p)) => {
            let (map, e) = read_mappings(s, p);
            Some((Table { from, to, map }, e))
        },
    }
}

/// Reads the tables that stand at `pos`, with an empty line between one and
/// the next.
pub fn read_tables(s: &[u8], pos: usize) -> (r: (Vec<Table>, usize))
    requires
        pos <= s@.len(),
    ensures
        models(r.0@) == table_list(s@, pos as int).0,
        r.1 == table_list(s@, pos as int).1,
        pos <= r.1 <= s@.len(),
{
    let mut out: Vec<Table> = Vec::new();
    let mut end: usize = pos;
    match read_table(s, pos) {
        None => {
            assert(models(out@) =~= Seq::<TableModel>::empty());
            return (out, pos);
        },
        Some((t, e)) => {
            out.push(t);
            end = e;
        },
    }
    assert(models(out@) =~= seq![out@[0]@]);
    loop
        invariant
            pos <= end <= s@.len(),
            table_list(s@, pos as int).0 == models(out@) + tables_after(s@, end as int).0,
            table_list(s@, pos as int).1 == tables_after(s@, end as int).1,
        decreases s@.len() - end,
    {
        let q1 = match read_eol(s, end) {
            Some(q) => q,
            None => {
                assert(models(out@) + Seq::<TableModel>::empty() =~= models(out@));
                return (out, end);
            },
        };
        let q2 = match read_eol(s, q1) {
            Some(q) => q,
            None => {
                assert(models(out@) + Seq::<TableModel>::empty() =~= models(out@));
                return (out, end);
            },
        };
        match read_table(s, q2) {
            None => {
                assert(models(out@) + Seq::<TableModel>::empty() =~= models(out@));
                return (out, end);
            },
            Some((t, e)) => {
                proof {
                    let rest = tables_after(s@, e as int).0;
                    assert(models(out@.push(t)) =~= models(out@).push(t@));
                    assert(models(out@).push(t@) + rest =~= models(out@) + (seq![t@] + rest));
                }
                out.push(t);
                end = e;
            },
        }
    }
}

/// Reads the seeds that stand at `pos`, with one space between one and the next.
pub fn read_seeds(s: &[u8], pos: usize) -> (r: (Vec<u64>, usize))
    requires
        pos <= s@.len(),
    ensures
        r.0@ == seed_list(s@, pos as int).0,
        r.1 == seed_list(s@, pos as int).1,
        pos <= r.1 <= s@.len(),
{
    let mut out: Vec<u64> = Vec::new();
    let mut end: usize = pos;
    match read_number(s, pos, u64::MAX as u128) {
        None => {
            return (out, pos);
        },
        Some((v, e)) => {
            out.push(v as u64);
            end = e;
        },
    }
    assert(out@ =~= seq![out@[0]]);
    loop
        invariant
            pos <= end <= s@.len(),
            seed_list(s@, pos as int).0 == out@ + seeds_after(s@, end as int).0,
            seed_list(s@, pos as int).1 == seeds_after(s@, end as int).1,
        decreases s@.len() - end,
    {
        if !(end < s.len() && s[end] == 32) {
            assert(out@ + Seq::<u64>::empty() =~= out@);
            return (out, end);
        }
        match read_number(s, end + 1, u64::MAX as u128) {
            None => {
                assert(out@ + Seq::<u64>::empty() =~= out@);
                return (out, end);
            },
            Some((v, e)) => {
                proof {
                    let rest = seeds_after(s@, e as int).0;
                    assert(out@.push(v as u64) + rest =~= out@ + (seq![v as u64] + rest));
                }
                out.push(v as u64);
                end = e;
            },
        }
    }
}

/// Reads the seed range that stands at `pos`.
pub fn read_pair(s: &[u8], pos: usize) -> (r: Option<((u64, u64), usize)>)
    requires
        pos <= s@.len(),
    ensures
        match r {
            Some((x, e)) => pair_at(s@, pos as int) == Some((x, e as int)) && pos < e <= s@.len(),
            None => pair_at(s@, pos as int) is None,
        },
{
    let (a, at1) = match read_number(s, pos, u64::MAX as u128) {
        Some(x) => x,
        None => {
            return None;
        },
    };
    let at2 = scan(s, at1, Class::Blank);
    let (b, at3) = match read_number(s, at2, u64::MAX as u128) {
        Some(x) => x,
        None => {
            return None;
        },
    };
    if at2 == at1 {
        return None;
    }
    Some(((a as u64, b as u64), at3))
}

/// Reads the seed ranges that stand at `pos`, with one space between one and
/// the next.
pub fn read_pairs(s: &[u8], pos: usize) -> (r: (Vec<(u64, u64)>, usize))
    requires
        pos <= s@.len(),
    ensures
        r.0@ == pair_list(s@, pos as int).0,
        r.1 == pair_list(s@, pos as int).1,
        pos <= r.1 <= s@.len(),
{
    let mut out: Vec<(u64, u64)> = Vec::new();
    let mut end: usize = pos;
    match read_pair(s, pos) {
        None => {
            return (out, pos);
        },
        Some((x, e)) => {
            out.push(x);
            end = e;
        },
    }
    assert(out@ =~= seq![out@[0]]);
    loop
        invariant
            pos <= end <= s@.len(),
            pair_list(s@, pos as int).0 == out@ + pairs_after(s@, end as int).0,
            pair_list(s@, pos as int).1 == pairs_after(s@, end as int).1,
        decreases s@.len() - end,
    {
        if !(end < s.len() && s[end] == 32) {
            assert(out@ + Seq::<(u64, u64)>::empty() =~= out@);
            return (out, end);
        }
        match read_pair(s, end + 1) {
            None => {
                assert(out@ + Seq::<(u64, u64)>::empty() =~= out@);
                return (out, end);
            },
            Some((x, e)) => {
                proof {
                    let rest = pairs_after(s@, e as int).0;
                    assert(out@.push(x) + rest =~= out@ + (seq![x] + rest));
                }
                out.push(x);
                end = e;
            },
        }
    }
}

} // verus!
