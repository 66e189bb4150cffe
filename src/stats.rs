use vstd::prelude::*;

verus! {

/// The mathematical content of an aggregate: unbounded integers, so that laws
/// about folding can be stated without machine limits.
pub struct Agg {
    pub min: int,
    pub max: int,
    pub sum: int,
    pub count: nat,
}

/// The aggregate of no reading: the extremes start at the opposite ends of
/// the `i16` range, so that the first reading replaces both.
pub open spec fn agg_empty() -> Agg {
    Agg { min: i16::MAX as int, max: i16::MIN as int, sum: 0, count: 0 }
}

pub open spec fn int_min(a: int, b: int) -> int {
    if a <= b { a } else { b }
}

pub open spec fn int_max(a: int, b: int) -> int {
    if a >= b { a } else { b }
}

/// One more reading `t` (in tenths) folded into `a`.
pub open spec fn agg_add(a: Agg, t: int) -> Agg {
    Agg { min: int_min(a.min, t), max: int_max(a.max, t), sum: a.sum + t, count: a.count + 1 }
}

/// Two aggregates of disjoint sets of readings combined.
pub open spec fn agg_merge(a: Agg, b: Agg) -> Agg {
    Agg {
        min: int_min(a.min, b.min),
        max: int_max(a.max, b.max),
        sum: a.sum + b.sum,
        count: a.count + b.count,
    }
}

/// Left fold of `agg_merge` over a non-empty sequence.
pub open spec fn agg_merge_all(s: Seq<Agg>) -> Agg
    decreases s.len(),
{
    if s.len() <= 1 {
        s[0]
    } else {
        agg_merge(agg_merge_all(s.drop_last()), s.last())
    }
}

/// Running statistics of one key: readings are in tenths.
#[derive(Clone, Copy)]
pub struct Stat {
    pub min: i16,
    pub max: i16,
    pub sum: i64,
    pub count: u32,
}

impl View for Stat {
    type V = Agg;

    open spec fn view(&self) -> Agg {
        Agg {
            min: self.min as int,
            max: self.max as int,
            sum: self.sum as int,
            count: self.count as nat,
        }
    }
}

impl Stat {
    /// The sum is that of `count` readings of type `i16`, which keeps it far
    /// from the limits of `i64`.
    pub open spec fn wf(&self) -> bool {
        i16::MIN * (self.count as int) <= self.sum <= i16::MAX * (self.count as int)
    }

    /// Folds one reading into the statistics.
    pub fn record(&mut self, t: i16)
        requires
            old(self).wf(),
            old(self).count < u32::MAX,
        ensures
            final(self).wf(),
            final(self)@ == agg_add(old(self)@, t as int),
    {
        if t < self.min {
            self.min = t;
        }
        if t > self.max {
            self.max = t;
        }
        assert(i16::MAX * (u32::MAX as int) < i64::MAX);
        self.sum = self.sum + t as i64;
        self.count = self.count + 1;
    }

    /// Statistics of the union of the readings behind `self` and `other`.
    pub fn merge(&self, other: &Stat) -> (r: Stat)
        requires
            self.wf(),
            other.wf(),
            self.count + other.count <= u32::MAX,
        ensures
            r.wf(),
            r@ == agg_merge(self@, other@),
    {
        assert(i16::MAX * (u32::MAX as int) < i64::MAX);
        Stat {
            min: if self.min <= other.min { self.min } else { other.min },
            max: if self.max >= other.max { self.max } else { other.max },
            sum: self.sum + other.sum,
            count: self.count + other.count,
        }
    }

    /// Folds a list of statistics into one; `None` for an empty list.
    pub fn reduce(stats: &[Stat]) -> (r: Option<Stat>)
        requires
            forall|i: int| 0 <= i < stats@.len() ==> (#[trigger] stats@[i]).wf(),
            total_count(stats@) <= u32::MAX,
        ensures
            stats@.len() == 0 <==> r.is_none(),
            r matches Some(s) ==> s.wf() && s@ == agg_merge_all(stats@.map_values(|x: Stat| x@)),
    {
        if stats.len() == 0 {
            return None;
        }
        let mut acc = stats[0];
        let mut i: usize = 1;
        proof {
            lemma_total_count_prefix(stats@, 1);
            assert(stats@.subrange(0, 0) =~= Seq::<Stat>::empty());
        }
        while i < stats.len()
            invariant
                1 <= i <= stats@.len(),
                forall|j: int| 0 <= j < stats@.len() ==> (#[trigger] stats@[j]).wf(),
                total_count(stats@) <= u32::MAX,
                acc.wf(),
                acc.count == total_count(stats@.subrange(0, i as int)),
                acc@ == agg_merge_all(stats@.subrange(0, i as int).map_values(|x: Stat| x@)),
            decreases stats@.len() - i,
        {
            proof {
                lemma_total_count_prefix(stats@, i as int + 1);
                lemma_total_count_prefix(stats@, stats@.len() as int);
                assert(stats@.subrange(0, i as int + 1).drop_last() =~= stats@.subrange(0, i as int));
                assert(stats@.subrange(0, i as int + 1).map_values(|x: Stat| x@).drop_last()
                    =~= stats@.subrange(0, i as int).map_values(|x: Stat| x@));
            }
            acc = acc.merge(&stats[i]);
            i = i + 1;
        }
        assert(stats@.subrange(0, stats@.len() as int) =~= stats@);
        Some(acc)
    }
}

/// The statistics of no reading, as `Stat::default` gives them.
pub open spec fn empty_stat() -> Stat {
    Stat { min: i16::MAX, max: i16::MIN, sum: 0, count: 0 }
}

/// Sum of the counts of a list of statistics.
pub open spec fn total_count(s: Seq<Stat>) -> int
    decreases s.len(),
{
    if s.len() == 0 {
        0
    } else {
        total_count(s.drop_last()) + s.last().count
    }
}

proof fn lemma_total_count_prefix(s: Seq<Stat>, n: int)
    requires
        0 <= n <= s.len(),
    ensures
        total_count(s.subrange(0, n)) <= total_count(s),
        n > 0 ==> total_count(s.subrange(0, n)) == total_count(s.subrange(0, n - 1)) + s[n - 1].count,
    decreases s.len(),
{
    if n > 0 {
        assert(s.subrange(0, n).drop_last() =~= s.subrange(0, n - 1));
    }
    if n < s.len() {
        assert(s.drop_last().subrange(0, n) =~= s.subrange(0, n));
        lemma_total_count_prefix(s.drop_last(), n);
    } else {
        assert(s.subrange(0, n) =~= s);
    }
}

impl Default for Stat {
    fn default() -> (r: Stat)
        ensures
            r.wf(),
            r == empty_stat(),
            r@ == agg_empty(),
    {
        Stat { min: i16::MAX, max: i16::MIN, sum: 0, count: 0 }
    }
}

} // verus!
