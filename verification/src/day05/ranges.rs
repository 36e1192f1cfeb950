// Intervals of values, and one table applied to whole intervals at once.

use vstd::prelude::*;
use crate::day05::table::{Range, Table, lookup_from, rules_fit};

verus! {

/// The values `start, start + 1, ..`, `len` of them.
#[derive(Debug, Clone, Copy, PartialEq, Eq)]
pub struct Interval {
    pub start: u64,
    pub len: u64,
}

impl Interval {
    /// The interval ends within the `u64` values.
    pub open spec fn bounded(self) -> bool {
        self.start + self.len <= u64::MAX + 1
    }

    /// The interval holds at least one value and ends within the `u64` values.
    pub open spec fn wf(self) -> bool {
        self.len > 0 && self.bounded()
    }

    /// The value `v` lies in the interval.
    pub open spec fn contains(self, v: int) -> bool {
        self.start <= v < self.start + self.len
    }

    /// The values of the interval, as a set.
    pub open spec fn values(self) -> Set<int> {
        Set::new(|v: int| self.contains(v))
    }
}

/// Every interval of the list is well formed.
pub open spec fn all_wf(ivs: Seq<Interval>) -> bool {
    forall|i: int| 0 <= i < ivs.len() ==> (#[trigger] ivs[i]).wf()
}

/// The values that lie in at least one interval of the list.
pub open spec fn covered(ivs: Seq<Interval>) -> Set<int> {
    Set::new(|v: int| exists|i: int| 0 <= i < ivs.len() && (#[trigger] ivs[i]).contains(v))
}

/// The sum of the lengths of the intervals of the list.
pub open spec fn total_len(ivs: Seq<Interval>) -> int
    decreases ivs.len(),
{
    if ivs.len() == 0 {
        0
    } else {
        total_len(ivs.drop_last()) + ivs.last().len
    }
}

/// The values that the rules from index `k` on make of the values in `s`.
pub open spec fn image_from(rules: Seq<Range>, k: int, s: Set<int>) -> Set<int> {
    Set::new(|w: int| exists|v: int| #[trigger] s.contains(v) && lookup_from(rules, k, v) == w)
}

/// Appending one interval adds its values and its length.
pub proof fn lemma_covered_push(ivs: Seq<Interval>, x: Interval)
    ensures
        covered(ivs.push(x)) == covered(ivs).union(x.values()),
        total_len(ivs.push(x)) == total_len(ivs) + x.len,
        all_wf(ivs) && x.wf() ==> all_wf(ivs.push(x)),
{
    let p = ivs.push(x);
    assert(p.drop_last() =~= ivs);
    assert forall|v: int| covered(p).contains(v) <==> covered(ivs).union(x.values()).contains(
        v,
    ) by {
        if covered(p).contains(v) {
            let i = choose|i: int| 0 <= i < p.len() && (#[trigger] p[i]).contains(v);
            if i < ivs.len() {
                assert(ivs[i].contains(v));
            } else {
                assert(x.contains(v));
            }
        }
        if covered(ivs).contains(v) {
            let i = choose|i: int| 0 <= i < ivs.len() && (#[trigger] ivs[i]).contains(v);
            assert(p[i].contains(v));
        }
        if x.values().contains(v) {
            assert(p[ivs.len() as int].contains(v));
        }
    }
    assert(covered(p) =~= covered(ivs).union(x.values()));
}

/// A rule that covers none of the values can be passed over.
pub proof fn lemma_image_skip(rules: Seq<Range>, k: int, s: Set<int>)
    requires
        0 <= k < rules.len(),
        forall|v: int| s.contains(v) ==> !rules[k].covers(v),
    ensures
        image_from(rules, k, s) == image_from(rules, k + 1, s),
{
    assert forall|w: int| image_from(rules, k, s).contains(w) <==> image_from(
        rules,
        k + 1,
        s,
    ).contains(w) by {
        if image_from(rules, k, s).contains(w) {
            let v = choose|v: int| #[trigger] s.contains(v) && lookup_from(rules, k, v) == w;
            assert(s.contains(v) && lookup_from(rules, k + 1, v) == w);
        }
        if image_from(rules, k + 1, s).contains(w) {
            let v = choose|v: int| #[trigger] s.contains(v) && lookup_from(rules, k + 1, v) == w;
            assert(s.contains(v) && lookup_from(rules, k, v) == w);
        }
    }
    assert(image_from(rules, k, s) =~= image_from(rules, k + 1, s));
}

/// An interval inside the source of rule `k` is moved as a whole.
pub proof fn lemma_image_hit(rules: Seq<Range>, k: int, iv: Interval, moved: Interval)
    requires
        0 <= k < rules.len(),
        forall|v: int| iv.contains(v) ==> rules[k].covers(v),
        moved.start == rules[k].dst + (iv.start - rules[k].src),
        moved.len == iv.len,
    ensures
        image_from(rules, k, iv.values()) == moved.values(),
{
    let s = iv.values();
    assert forall|w: int| image_from(rules, k, s).contains(w) <==> moved.values().contains(w) by {
        if image_from(rules, k, s).contains(w) {
            let v = choose|v: int| #[trigger] s.contains(v) && lookup_from(rules, k, v) == w;
            assert(iv.contains(v));
            assert(rules[k].covers(v));
        }
        if moved.values().contains(w) {
            let v = w - rules[k].dst + rules[k].src;
            assert(iv.contains(v));
            assert(rules[k].covers(v));
            assert(s.contains(v) && lookup_from(rules, k, v) == w);
        }
    }
    assert(image_from(rules, k, s) =~= moved.values());
}

/// The image of a union is the union of the images.
pub proof fn lemma_image_union(rules: Seq<Range>, k: int, a: Set<int>, b: Set<int>)
    ensures
        image_from(rules, k, a.union(b)) == image_from(rules, k, a).union(
            image_from(rules, k, b),
        ),
{
    let u = a.union(b);
    assert forall|w: int| image_from(rules, k, u).contains(w) <==> image_from(rules, k, a).union(
        image_from(rules, k, b),
    ).contains(w) by {
        if image_from(rules, k, u).contains(w) {
            let v = choose|v: int| #[trigger] u.contains(v) && lookup_from(rules, k, v) == w;
            if a.contains(v) {
                assert(image_from(rules, k, a).contains(w));
            } else {
                assert(b.contains(v));
                assert(image_from(rules, k, b).contains(w));
            }
        }
        if image_from(rules, k, a).contains(w) {
            let v = choose|v: int| #[trigger] a.contains(v) && lookup_from(rules, k, v) == w;
            assert(u.contains(v) && lookup_from(rules, k, v) == w);
        }
        if image_from(rules, k, b).contains(w) {
            let v = choose|v: int| #[trigger] b.contains(v) && lookup_from(rules, k, v) == w;
            assert(u.contains(v) && lookup_from(rules, k, v) == w);
        }
    }
    assert(image_from(rules, k, u) =~= image_from(rules, k, a).union(image_from(rules, k, b)));
}

/// Past the last rule every value stays as it is.
pub proof fn lemma_image_end(rules: Seq<Range>, k: int, s: Set<int>)
    requires
        k >= rules.len(),
    ensures
        image_from(rules, k, s) == s,
{
    assert forall|w: int| image_from(rules, k, s).contains(w) <==> s.contains(w) by {
        if image_from(rules, k, s).contains(w) {
            let v = choose|v: int| #[trigger] s.contains(v) && lookup_from(rules, k, v) == w;
            assert(v == w);
        }
        if s.contains(w) {
            assert(s.contains(w) && lookup_from(rules, k, w) == w);
        }
    }
    assert(image_from(rules, k, s) =~= s);
}

/// Nothing comes of no values.
pub proof fn lemma_image_empty(rules: Seq<Range>, k: int)
    ensures
        image_from(rules, k, Set::<int>::empty()) == Set::<int>::empty(),
{
    assert(image_from(rules, k, Set::<int>::empty()) =~= Set::<int>::empty());
}

/// Splits one interval against the rules from index `k` on. Each part that a
/// rule covers is appended to `out` moved by that rule, the first such rule
/// winning; the parts that no rule covers are appended unchanged.
pub fn split_from(rules: &Vec<Range>, k: usize, iv: Interval, out: &mut Vec<Interval>)
    requires
        k <= rules@.len(),
        rules_fit(rules@),
        iv.bounded(),
        all_wf(old(out)@),
    ensures
        all_wf(final(out)@),
        covered(final(out)@) == covered(old(out)@).union(
            image_from(rules@, k as int, iv.values()),
        ),
        total_len(final(out)@) == total_len(old(out)@) + iv.len,
    decreases rules@.len() - k,
{
    if iv.len == 0 {
        proof {
            assert(iv.values() =~= Set::<int>::empty());
            lemma_image_empty(rules@, k as int);
            assert(covered(out@) =~= covered(out@).union(Set::<int>::empty()));
        }
        return ;
    }
    if k == rules.len() {
        proof {
            lemma_image_end(rules@, k as int, iv.values());
            lemma_covered_push(out@, iv);
        }
        out.push(iv);
        return ;
    }
    let r = rules[k];
    assert(rules@[k as int].fits());
    let a: u128 = iv.start as u128;
    let b: u128 = a + iv.len as u128;
    let s: u128 = r.src as u128;
    let e: u128 = s + r.len as u128;
    let lo: u128 = if a > s {
        a
    } else {
        s
    };
    let hi: u128 = if b < e {
        b
    } else {
        e
    };
    if lo >= hi {
        proof {
            lemma_image_skip(rules@, k as int, iv.values());
        }
        split_from(rules, k + 1, iv, out);
        return ;
    }
    let left = Interval { start: iv.start, len: (lo - a) as u64 };
    let mid = Interval { start: lo as u64, len: (hi - lo) as u64 };
    let moved = Interval { start: r.dst + (lo - s) as u64, len: (hi - lo) as u64 };
    let right = if hi < b {
        Interval { start: hi as u64, len: (b - hi) as u64 }
    } else {
        Interval { start: iv.start, len: 0 }
    };
    proof {
        let lv = left.values();
        let mv = mid.values();
        let rv = right.values();
        assert(iv.values() =~= lv.union(mv).union(rv));
        lemma_image_union(rules@, k as int, lv.union(mv), rv);
        lemma_image_union(rules@, k as int, lv, mv);
        lemma_image_skip(rules@, k as int, lv);
        lemma_image_skip(rules@, k as int, rv);
        lemma_image_hit(rules@, k as int, mid, moved);
    }
    let ghost out0 = out@;
    split_from(rules, k + 1, left, out);
    let ghost out1 = out@;
    proof {
        lemma_covered_push(out1, moved);
    }
    out.push(moved);
    let ghost out2 = out@;
    split_from(rules, k + 1, right, out);
    proof {
        let il = image_from(rules@, k as int + 1, left.values());
        let ir = image_from(rules@, k as int + 1, right.values());
        assert(covered(out@) =~= covered(out0).union(il.union(moved.values()).union(ir)));
    }
}

/// The rule table applied to a list of intervals: the intervals that come out
/// cover exactly the values that the table makes of the values that went in,
/// and their lengths add up to the same sum.
pub fn map_intervals(table: &Table, ivs: &Vec<Interval>) -> (out: Vec<Interval>)
    requires
        table.wf(),
        all_wf(ivs@),
    ensures
        all_wf(out@),
        covered(out@) == image_from(table.map@, 0, covered(ivs@)),
        total_len(out@) == total_len(ivs@),
{
    let mut out: Vec<Interval> = Vec::new();
    let mut i: usize = 0;
    proof {
        assert(covered(ivs@.take(0)) =~= Set::<int>::empty());
        assert(covered(out@) =~= Set::<int>::empty());
        lemma_image_empty(table.map@, 0);
    }
    while i < ivs.len()
        invariant
            i <= ivs@.len(),
            table.wf(),
            all_wf(ivs@),
            all_wf(out@),
            covered(out@) == image_from(table.map@, 0, covered(ivs@.take(i as int))),
            total_len(out@) == total_len(ivs@.take(i as int)),
        decreases ivs@.len() - i,
    {
        let iv = ivs[i];
        proof {
            assert(ivs@[i as int].wf());
            assert(ivs@.take(i as int + 1) =~= ivs@.take(i as int).push(iv));
            lemma_covered_push(ivs@.take(i as int), iv);
            lemma_image_union(table.map@, 0, covered(ivs@.take(i as int)), iv.values());
        }
        split_from(&table.map, 0, iv, &mut out);
        i += 1;
    }
    assert(ivs@.take(i as int) =~= ivs@);
    out
}

} // verus!
