// Range tables and the lookup of one value in one table.

use vstd::prelude::*;

verus! {

/// One mapping rule: the values of `[src, src + len)` are moved to
/// `[dst, dst + len)`, each keeping its offset from the start.
#[derive(Debug, Clone, Copy, PartialEq, Eq)]
pub struct Range {
    pub src: u64,
    pub dst: u64,
    pub len: u64,
}

impl Range {
    /// Both the source and the destination interval lie within the `u64` values.
    pub open spec fn fits(self) -> bool {
        &&& self.src + self.len <= u64::MAX + 1
        &&& self.dst + self.len <= u64::MAX + 1
    }

    /// The value `v` lies in the source interval of the rule.
    pub open spec fn covers(self, v: int) -> bool {
        self.src <= v < self.src + self.len
    }

    /// Where the rule sends a value of its source interval.
    pub open spec fn shift(self, v: int) -> int {
        self.dst + (v - self.src)
    }
}

/// The mapped value of `v` under the rules from index `k` on: the first rule
/// that covers `v` moves it, and a value that no rule covers stays as it is.
pub open spec fn lookup_from(rules: Seq<Range>, k: int, v: int) -> int
    decreases rules.len() - k,
{
    if k < 0 || k >= rules.len() {
        v
    } else if rules[k].covers(v) {
        rules[k].shift(v)
    } else {
        lookup_from(rules, k + 1, v)
    }
}

/// The mapped value of `v` under a whole rule list.
pub open spec fn lookup(rules: Seq<Range>, v: int) -> int {
    lookup_from(rules, 0, v)
}

/// Every rule of the list lies within the `u64` values.
pub open spec fn rules_fit(rules: Seq<Range>) -> bool {
    forall|i: int| 0 <= i < rules.len() ==> (#[trigger] rules[i]).fits()
}

/// No rule of the list covers `v`.
pub open spec fn uncovered(rules: Seq<Range>, v: int) -> bool {
    forall|i: int| 0 <= i < rules.len() ==> !(#[trigger] rules[i]).covers(v)
}

/// No value lies in the source intervals of two rules of the list.
pub open spec fn sources_disjoint(rules: Seq<Range>) -> bool {
    forall|i: int, j: int, v: int|
        #![trigger rules[i].covers(v), rules[j].covers(v)]
        0 <= i < j < rules.len() ==> !(rules[i].covers(v) && rules[j].covers(v))
}

/// The rule table of one category transition, from the category named `from`
/// to the category named `to`.
#[derive(Debug, PartialEq, Eq)]
pub struct Table {
    pub from: Vec<u8>,
    pub to: Vec<u8>,
    pub map: Vec<Range>,
}

/// What a table says: the names of its two categories and its rules.
pub struct TableModel {
    pub from: Seq<u8>,
    pub to: Seq<u8>,
    pub rules: Seq<Range>,
}

impl View for Table {
    type V = TableModel;

    open spec fn view(&self) -> TableModel {
        TableModel { from: self.from@, to: self.to@, rules: self.map@ }
    }
}

/// What a list of tables says, table by table.
pub open spec fn models(tables: Seq<Table>) -> Seq<TableModel> {
    Seq::new(tables.len(), |i: int| tables[i]@)
}

impl Table {
    /// Every rule of the table lies within the `u64` values.
    pub open spec fn wf(self) -> bool {
        rules_fit(self.map@)
    }

    /// Checks that every rule of the table lies within the `u64` values.
    pub fn is_valid(&self) -> (r: bool)
        ensures
            r == self.wf(),
    {
        let mut i: usize = 0;
        while i < self.map.len()
            invariant
                i <= self.map@.len(),
                forall|j: int| 0 <= j < i ==> (#[trigger] self.map@[j]).fits(),
            decreases self.map@.len() - i,
        {
            let r = self.map[i];
            if r.len > 0 && (r.len - 1 > u64::MAX - r.src || r.len - 1 > u64::MAX - r.dst) {
                assert(!self.map@[i as int].fits());
                return false;
            }
            i += 1;
        }
        true
    }
}

/// A value that no rule from index `k` on covers is mapped to itself.
pub proof fn lemma_lookup_uncovered(rules: Seq<Range>, k: int, v: int)
    requires
        0 <= k,
        forall|i: int| k <= i < rules.len() ==> !(#[trigger] rules[i]).covers(v),
    ensures
        lookup_from(rules, k, v) == v,
    decreases rules.len() - k,
{
    if k < rules.len() {
        lemma_lookup_uncovered(rules, k + 1, v);
    }
}

/// The first rule that covers a value decides where the value goes.
pub proof fn lemma_lookup_first_match(rules: Seq<Range>, k: int, i: int, v: int)
    requires
        0 <= k <= i < rules.len(),
        rules[i].covers(v),
        forall|j: int| k <= j < i ==> !(#[trigger] rules[j]).covers(v),
    ensures
        lookup_from(rules, k, v) == rules[i].shift(v),
    decreases i - k,
{
    if k < i {
        lemma_lookup_first_match(rules, k + 1, i, v);
    }
}

/// Where no two rules share a source value, any rule that covers a value
/// decides where the value goes, whatever the order of the rules.
pub proof fn lemma_lookup_any_match(rules: Seq<Range>, i: int, v: int)
    requires
        sources_disjoint(rules),
        0 <= i < rules.len(),
        rules[i].covers(v),
    ensures
        lookup(rules, v) == rules[i].shift(v),
{
    assert forall|j: int| 0 <= j < i implies !(#[trigger] rules[j]).covers(v) by {
        assert(!(rules[j].covers(v) && rules[i].covers(v)));
    }
    lemma_lookup_first_match(rules, 0, i, v);
}

/// Rules that lie within the `u64` values send `u64` values to `u64` values.
pub proof fn lemma_lookup_bounds(rules: Seq<Range>, k: int, v: int)
    requires
        rules_fit(rules),
        0 <= k,
        0 <= v <= u64::MAX,
    ensures
        0 <= lookup_from(rules, k, v) <= u64::MAX,
    decreases rules.len() - k,
{
    if k < rules.len() {
        assert(rules[k].fits());
        if !rules[k].covers(v) {
            lemma_lookup_bounds(rules, k + 1, v);
        }
    }
}

/// Looks a value up in a table: the first rule whose source interval holds
/// the value moves it, and a value outside every rule is returned unchanged.
pub fn get_mapping(map: &Table, from: u64) -> (r: u64)
    requires
        map.wf(),
    ensures
        r == lookup(map.map@, from as int),
        uncovered(map.map@, from as int) ==> r == from,
        sources_disjoint(map.map@) ==> forall|i: int|
            0 <= i < map.map@.len() && (#[trigger] map.map@[i]).covers(from as int) ==> r
                == map.map@[i].dst + (from - map.map@[i].src),
{
    proof {
        if sources_disjoint(map.map@) {
            assert forall|i: int|
                0 <= i < map.map@.len() && (#[trigger] map.map@[i]).covers(
                    from as int,
                ) implies lookup(map.map@, from as int) == map.map@[i].shift(from as int) by {
                lemma_lookup_any_match(map.map@, i, from as int);
            }
        }
    }
    let mut i: usize = 0;
    while i < map.map.len()
        invariant
            i <= map.map@.len(),
            rules_fit(map.map@),
            lookup(map.map@, from as int) == lookup_from(map.map@, i as int, from as int),
            forall|j: int| 0 <= j < i ==> !(#[trigger] map.map@[j]).covers(from as int),
        decreases map.map@.len() - i,
    {
        let r = map.map[i];
        assert(map.map@[i as int].fits());
        if r.src <= from && from - r.src < r.len {
            return r.dst + (from - r.src);
        }
        i += 1;
    }
    from
}

} // verus!
