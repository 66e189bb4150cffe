use vstd::prelude::*;

use crate::hashmap::{bytes_eq, bytes_lt, lemma_bytes_lt_total, StackMap, MAP_SIZE};
use crate::parser::{
    find_next, first_from, has_record, is_value_field, is_value_text, lemma_first_from,
    lemma_record_bounds, lemma_value_range, nl_from, record_end, record_value, records_in,
    search_from, value_of, values_ok, Finder, NL,
};
use crate::stats::{
    agg_add, agg_empty, agg_merge, agg_merge_all, total_count, Agg, Stat,
};

verus! {

/// A record: its key and its value field.
pub type Record = (Seq<u8>, Seq<u8>);

/// The aggregate that `m` holds for `k`, or the empty one.
pub open spec fn get_or_empty(m: Map<Seq<u8>, Agg>, k: Seq<u8>) -> Agg {
    if m.contains_key(k) {
        m[k]
    } else {
        agg_empty()
    }
}

/// Per-key aggregates of a sequence of records, folded in order.
pub open spec fn summary(recs: Seq<Record>) -> Map<Seq<u8>, Agg>
    decreases recs.len(),
{
    if recs.len() == 0 {
        Map::empty()
    } else {
        let m = summary(recs.drop_last());
        let r = recs.last();
        m.insert(r.0, agg_add(get_or_empty(m, r.0), value_of(r.1)))
    }
}

/// Key-wise combination of two per-key aggregates.
pub open spec fn merge_maps(a: Map<Seq<u8>, Agg>, b: Map<Seq<u8>, Agg>) -> Map<Seq<u8>, Agg> {
    Map::new(
        |k: Seq<u8>| a.contains_key(k) || b.contains_key(k),
        |k: Seq<u8>| agg_merge(get_or_empty(a, k), get_or_empty(b, k)),
    )
}

/// The statistics held by a table, seen as aggregates.
pub open spec fn agg_view(m: Map<Seq<u8>, Stat>) -> Map<Seq<u8>, Agg> {
    m.map_values(|s: Stat| s@)
}

/// Extremes within the `i16` range.
pub open spec fn agg_in_range(a: Agg) -> bool {
    i16::MIN <= a.min <= i16::MAX && i16::MIN <= a.max <= i16::MAX
}

pub open spec fn all_in_range(m: Map<Seq<u8>, Agg>) -> bool {
    forall|k: Seq<u8>| #[trigger] m.contains_key(k) ==> agg_in_range(m[k])
}

/// The records of `s` from `p` on reach its end exactly; every key is free
/// of terminators and every value field has the accepted shape.
pub open spec fn well_formed_from(s: Seq<u8>, p: int) -> bool
    decreases s.len() - p,
    via well_formed_from_decreases
{
    if p >= s.len() {
        p == s.len()
    } else {
        &&& has_record(s, p)
        &&& first_from(s, NL, p) == nl_from(s, p)
        &&& is_value_text(record_value(s, p))
        &&& well_formed_from(s, record_end(s, p))
    }
}

#[via_fn]
proof fn well_formed_from_decreases(s: Seq<u8>, p: int) {
    if p < s.len() && has_record(s, p) {
        lemma_record_bounds(s, p);
    }
}

/// A buffer of zero or more `key;value\n` records.
pub open spec fn well_formed(s: Seq<u8>) -> bool {
    well_formed_from(s, 0)
}

/// Offset `p` is where a record may start: the beginning, or just after a terminator.
pub open spec fn is_line_start(s: Seq<u8>, p: int) -> bool {
    p == 0 || (0 < p <= s.len() && s[p - 1] == NL)
}

/// All the records of a buffer.
pub open spec fn all_records(s: Seq<u8>) -> Seq<Record> {
    records_in(s, 0, s.len() - 1)
}

/// The records of the part of `s` that starts at `b` and ends before `c`.
pub open spec fn part_records(s: Seq<u8>, b: int, c: int) -> Seq<Record> {
    records_in(s, b, c - 1)
}

/// The largest input whose counts fit the statistics: a record takes at
/// least five bytes and a count is a `u32`.
pub open spec fn max_input() -> int {
    5 * (u32::MAX as int)
}

proof fn lemma_agg_identity(a: Agg)
    requires
        agg_in_range(a),
    ensures
        agg_merge(a, agg_empty()) == a,
        agg_merge(agg_empty(), a) == a,
{
}

/// The aggregates of well-formed records have their extremes in range, and
/// a count never above the number of records.
pub proof fn lemma_summary_range(recs: Seq<Record>)
    requires
        values_ok(recs),
    ensures
        all_in_range(summary(recs)),
        summary(recs).dom().finite(),
        forall|k: Seq<u8>| #[trigger] summary(recs).contains_key(k) ==> summary(recs)[k].count <= recs.len(),
    decreases recs.len(),
{
    if recs.len() > 0 {
        let r = recs.last();
        assert(is_value_text(recs[recs.len() - 1].1));
        assert(values_ok(recs.drop_last())) by {
            assert forall|i: int| 0 <= i < recs.drop_last().len() implies is_value_text(
                #[trigger] recs.drop_last()[i].1,
            ) by {
                assert(is_value_text(recs[i].1));
            }
        }
        lemma_summary_range(recs.drop_last());
        lemma_value_range(r.1);
    }
}

/// Folding records is splitting them: the aggregates of `a + b` are those of
/// `a` and of `b`, combined key by key.
pub proof fn lemma_summary_concat(a: Seq<Record>, b: Seq<Record>)
    requires
        values_ok(a),
        values_ok(b),
    ensures
        summary(a + b) == merge_maps(summary(a), summary(b)),
    decreases b.len(),
{
    lemma_summary_range(a);
    if b.len() == 0 {
        assert(a + b =~= a);
        assert forall|k: Seq<u8>| #[trigger] summary(a).contains_key(k) implies summary(a)[k]
            == merge_maps(summary(a), summary(b))[k] by {
            lemma_agg_identity(summary(a)[k]);
        }
        assert(summary(a) =~= merge_maps(summary(a), summary(b)));
    } else {
        let b1 = b.drop_last();
        let r = b.last();
        assert((a + b).drop_last() =~= a + b1);
        assert((a + b).last() == r);
        assert(values_ok(b1)) by {
            assert forall|i: int| 0 <= i < b1.len() implies is_value_text(#[trigger] b1[i].1) by {
                assert(is_value_text(b[i].1));
            }
        }
        assert(is_value_text(b[b.len() - 1].1));
        lemma_value_range(r.1);
        lemma_summary_concat(a, b1);
        lemma_summary_range(b1);
        let lhs = summary(a + b);
        let rhs = merge_maps(summary(a), summary(b));
        assert forall|k: Seq<u8>| #[trigger] lhs.contains_key(k) implies lhs[k] == rhs[k] by {
            if k == r.0 && !summary(a).contains_key(k) {
                lemma_agg_identity(agg_add(get_or_empty(summary(b1), k), value_of(r.1)));
            }
        }
        assert(lhs =~= rhs);
    }
}

/// The records met from `p` on, when `p` starts a well-formed tail, are
/// those before a later line start `b` followed by those from `b` on.
pub proof fn lemma_records_split(s: Seq<u8>, p: int, b: int, c: int)
    requires
        0 <= p <= b <= c,
        b <= s.len(),
        well_formed_from(s, p),
        is_line_start(s, b),
    ensures
        well_formed_from(s, b),
        records_in(s, p, c - 1) == records_in(s, p, b - 1) + records_in(s, b, c - 1),
    decreases s.len() - p,
{
    if p == b {
        assert(records_in(s, p, b - 1) =~= Seq::<Record>::empty());
        assert(records_in(s, p, c - 1) =~= records_in(s, p, b - 1) + records_in(s, b, c - 1));
    } else {
        lemma_record_bounds(s, p);
        lemma_first_from(s, NL, p);
        let q = record_end(s, p);
        assert(q <= b);
        lemma_records_split(s, q, b, c);
        assert(records_in(s, p, c - 1) =~= records_in(s, p, b - 1) + records_in(s, b, c - 1));
    }
}

/// Key-wise combination of a list of per-key aggregates, left to right.
pub open spec fn merge_all_maps(ms: Seq<Map<Seq<u8>, Agg>>) -> Map<Seq<u8>, Agg>
    decreases ms.len(),
{
    if ms.len() == 0 {
        Map::empty()
    } else {
        merge_maps(merge_all_maps(ms.drop_last()), ms.last())
    }
}

/// Cut points of a buffer into parts: from its start to its end, in order,
/// each a record boundary.
pub open spec fn valid_bounds(s: Seq<u8>, b: Seq<int>) -> bool {
    &&& b.len() >= 2
    &&& b[0] == 0
    &&& b.last() == s.len()
    &&& forall|i: int| 0 <= i < b.len() - 1 ==> #[trigger] b[i] <= b[i + 1]
    &&& forall|i: int| 0 <= i < b.len() ==> #[trigger] is_line_start(s, b[i]) || b[i] == s.len()
}

/// The aggregates of each part.
pub open spec fn part_summaries(s: Seq<u8>, b: Seq<int>) -> Seq<Map<Seq<u8>, Agg>> {
    Seq::new((b.len() - 1) as nat, |i: int| summary(part_records(s, b[i], b[i + 1])))
}

proof fn lemma_merge_all_range(ms: Seq<Map<Seq<u8>, Agg>>)
    requires
        forall|i: int| 0 <= i < ms.len() ==> all_in_range(#[trigger] ms[i]),
    ensures
        all_in_range(merge_all_maps(ms)),
    decreases ms.len(),
{
    if ms.len() > 0 {
        lemma_merge_all_range(ms.drop_last());
        assert(all_in_range(ms[ms.len() - 1]));
    }
}

/// Merging the aggregates of the parts before cut `j` gives those of all the
/// records before that cut.
proof fn lemma_parts_prefix(s: Seq<u8>, b: Seq<int>, j: int)
    requires
        well_formed(s),
        valid_bounds(s, b),
        1 <= j < b.len(),
    ensures
        merge_all_maps(part_summaries(s, b).subrange(0, j)) == summary(records_in(s, 0, b[j] - 1)),
    decreases j,
{
    let ps = part_summaries(s, b);
    assert(0 <= b[j - 1] <= b[j] <= s.len()) by {
        assert forall|i: int| 0 <= i <= j implies 0 <= #[trigger] b[i] <= b[j] by {
            lemma_bounds_order(b, i, j);
            lemma_bounds_order(b, 0, i);
        }
        lemma_bounds_order(b, j, b.len() - 1);
    }
    lemma_end_is_line_start(s, 0);
    assert(is_line_start(s, b[j - 1]));
    lemma_records_split(s, 0, b[j - 1], b[j]);
    lemma_records_ok(s, 0, b[j - 1] - 1);
    lemma_records_ok(s, b[j - 1], b[j] - 1);
    lemma_summary_concat(records_in(s, 0, b[j - 1] - 1), records_in(s, b[j - 1], b[j] - 1));
    assert(ps.subrange(0, j).drop_last() =~= ps.subrange(0, j - 1));
    if j == 1 {
        assert(records_in(s, 0, -1) =~= Seq::<Record>::empty());
        assert(ps.subrange(0, 0) =~= Seq::<Map<Seq<u8>, Agg>>::empty());
        assert(merge_all_maps(ps.subrange(0, 0)) == Map::<Seq<u8>, Agg>::empty());
        assert(summary(Seq::<Record>::empty()) == Map::<Seq<u8>, Agg>::empty());
    } else {
        lemma_parts_prefix(s, b, j - 1);
    }
}

proof fn lemma_bounds_order(b: Seq<int>, i: int, j: int)
    requires
        0 <= i <= j < b.len(),
        forall|k: int| 0 <= k < b.len() - 1 ==> #[trigger] b[k] <= b[k + 1],
    ensures
        b[i] <= b[j],
    decreases j - i,
{
    if i < j {
        lemma_bounds_order(b, i, j - 1);
        assert(b[j - 1] <= b[j]);
    }
}

/// The parts' aggregates merged key by key are the aggregates of the whole
/// buffer.
pub proof fn lemma_parts_merge(s: Seq<u8>, b: Seq<int>)
    requires
        well_formed(s),
        valid_bounds(s, b),
    ensures
        merge_all_maps(part_summaries(s, b)) == summary(all_records(s)),
{
    let ps = part_summaries(s, b);
    lemma_parts_prefix(s, b, b.len() - 1);
    assert(ps.subrange(0, b.len() - 1) =~= ps);
}

/// Partition-count invariance: however a well-formed buffer is cut into
/// record-aligned parts, and however many, merging the parts' aggregates
/// gives the same per-key minimum, maximum, sum and count.
pub proof fn lemma_partition_invariance(s: Seq<u8>, b1: Seq<int>, b2: Seq<int>)
    requires
        well_formed(s),
        valid_bounds(s, b1),
        valid_bounds(s, b2),
    ensures
        merge_all_maps(part_summaries(s, b1)) == merge_all_maps(part_summaries(s, b2)),
{
    lemma_parts_merge(s, b1);
    lemma_parts_merge(s, b2);
}

proof fn lemma_merge_maps_comm(a: Map<Seq<u8>, Agg>, b: Map<Seq<u8>, Agg>)
    ensures
        merge_maps(a, b) == merge_maps(b, a),
{
    assert(merge_maps(a, b) =~= merge_maps(b, a));
}

proof fn lemma_merge_maps_assoc(a: Map<Seq<u8>, Agg>, b: Map<Seq<u8>, Agg>, c: Map<Seq<u8>, Agg>)
    requires
        all_in_range(a),
        all_in_range(b),
        all_in_range(c),
    ensures
        merge_maps(merge_maps(a, b), c) == merge_maps(a, merge_maps(b, c)),
{
    let l = merge_maps(merge_maps(a, b), c);
    let r = merge_maps(a, merge_maps(b, c));
    assert forall|k: Seq<u8>| #[trigger] l.contains_key(k) implies l[k] == r[k] by {
        if a.contains_key(k) {
            lemma_agg_identity(a[k]);
        }
        if b.contains_key(k) {
            lemma_agg_identity(b[k]);
        }
        if c.contains_key(k) {
            lemma_agg_identity(c[k]);
        }
    }
    assert(l =~= r);
}

proof fn lemma_values_ok_sub(a: Seq<Record>, b: Seq<Record>)
    requires
        values_ok(a),
        forall|i: int| 0 <= i < b.len() ==> a.contains(#[trigger] b[i]),
    ensures
        values_ok(b),
{
    assert forall|i: int| 0 <= i < b.len() implies is_value_text(#[trigger] b[i].1) by {
        assert(a.contains(b[i]));
        let j = choose|j: int| 0 <= j < a.len() && a[j] == b[i];
        assert(is_value_text(a[j].1));
    }
}

/// Order independence: the records folded in any order, that is any
/// permutation of them, give the same per-key aggregates.
pub proof fn lemma_order_independence(a: Seq<Record>, b: Seq<Record>)
    requires
        values_ok(a),
        a.to_multiset() == b.to_multiset(),
    ensures
        summary(a) == summary(b),
    decreases b.len(),
{
    broadcast use vstd::seq_lib::group_to_multiset_ensures;

    assert(a.to_multiset().len() == b.to_multiset().len());
    if b.len() > 0 {
        let x = b.last();
        let b1 = b.drop_last();
        assert(b =~= b1.push(x));
        assert(b.to_multiset().count(x) > 0);
        assert(a.contains(x));
        let i = choose|i: int| 0 <= i < a.len() && a[i] == x;
        let pre = a.subrange(0, i);
        let post = a.subrange(i + 1, a.len() as int);
        let x1 = seq![x];
        assert(a =~= pre + x1 + post);
        assert(a.remove(i) =~= pre + post);
        assert((pre + post).to_multiset() =~= b1.to_multiset()) by {
            assert(a.remove(i).to_multiset() =~= a.to_multiset().remove(x));
            assert(b.to_multiset() =~= b1.to_multiset().insert(x));
        }
        assert forall|j: int| 0 <= j < pre.len() implies a.contains(#[trigger] pre[j]) by {
            assert(a[j] == pre[j]);
        }
        assert forall|j: int| 0 <= j < post.len() implies a.contains(#[trigger] post[j]) by {
            assert(a[i + 1 + j] == post[j]);
        }
        assert forall|j: int| 0 <= j < x1.len() implies a.contains(#[trigger] x1[j]) by {
            assert(a[i] == x1[j]);
        }
        lemma_values_ok_sub(a, pre);
        lemma_values_ok_sub(a, post);
        lemma_values_ok_sub(a, x1);
        assert forall|j: int| 0 <= j < (pre + post).len() implies a.contains(#[trigger] (pre + post)[j]) by {
            if j < pre.len() {
                assert(a[j] == (pre + post)[j]);
            } else {
                assert(a[j + 1] == (pre + post)[j]);
            }
        }
        lemma_values_ok_sub(a, pre + post);
        lemma_order_independence(pre + post, b1);
        lemma_summary_range(pre);
        lemma_summary_range(post);
        lemma_summary_range(x1);
        lemma_summary_concat(pre, x1);
        lemma_summary_concat(pre + x1, post);
        lemma_summary_concat(pre, post);
        lemma_summary_concat(pre + post, x1);
        lemma_merge_maps_assoc(summary(pre), summary(x1), summary(post));
        lemma_merge_maps_comm(summary(x1), summary(post));
        lemma_merge_maps_assoc(summary(pre), summary(post), summary(x1));
        assert(b1 + x1 =~= b);
        assert forall|j: int| 0 <= j < b1.len() implies (pre + post).contains(#[trigger] b1[j]) by {
            assert(b1.contains(b1[j]));
            assert(b1.to_multiset().count(b1[j]) > 0);
            assert((pre + post).to_multiset().count(b1[j]) > 0);
        }
        lemma_values_ok_sub(pre + post, b1);
        lemma_summary_concat(b1, x1);
        let (sp, sx, sq) = (summary(pre), summary(x1), summary(post));
        assert(summary(a) == merge_maps(merge_maps(sp, sx), sq));
        assert(merge_maps(sp, merge_maps(sx, sq)) == merge_maps(sp, merge_maps(sq, sx)));
        assert(summary(a) == merge_maps(merge_maps(sp, sq), sx));
        assert(summary(a) == merge_maps(summary(pre + post), sx));
        assert(summary(b) == merge_maps(summary(b1), sx));
    } else {
        a.to_multiset_ensures();
        b.to_multiset_ensures();
        assert(a.len() == 0);
        assert(a =~= b);
    }
}

/// Records of a well-formed tail: every value field has the accepted shape,
/// and each record takes at least five bytes.
pub proof fn lemma_records_ok(s: Seq<u8>, p: int, stop: int)
    requires
        0 <= p <= s.len(),
        well_formed_from(s, p),
    ensures
        values_ok(records_in(s, p, stop)),
        5 * records_in(s, p, stop).len() <= s.len() - p,
    decreases s.len() - p,
{
    if p <= stop && has_record(s, p) {
        lemma_record_bounds(s, p);
        let q = record_end(s, p);
        lemma_records_ok(s, q, stop);
        let recs = records_in(s, p, stop);
        assert(recs[0].1 == record_value(s, p));
        assert(is_value_text(record_value(s, p)));
        assert forall|i: int| 0 <= i < recs.len() implies is_value_text(#[trigger] recs[i].1) by {
            if i > 0 {
                assert(recs[i] == records_in(s, q, stop)[i - 1]);
            }
        }
    }
}

/// The first line start at or after `p`, or the end of the buffer.
pub open spec fn next_line_start(s: Seq<u8>, p: int) -> int {
    if is_line_start(s, p) {
        p
    } else if first_from(s, NL, p) < s.len() {
        first_from(s, NL, p) + 1
    } else {
        s.len() as int
    }
}

proof fn lemma_next_line_start(s: Seq<u8>, p: int)
    requires
        0 <= p <= s.len(),
    ensures
        p <= next_line_start(s, p) <= s.len(),
        next_line_start(s, p) < s.len() ==> is_line_start(s, next_line_start(s, p)),
        forall|b: int| p <= b <= s.len() && #[trigger] is_line_start(s, b) ==> next_line_start(s, p) <= b,
{
    lemma_first_from(s, NL, p);
    assert forall|b: int| p <= b <= s.len() && #[trigger] is_line_start(s, b) implies next_line_start(s, p) <= b by {
        if !is_line_start(s, p) && b > p {
            assert(s[b - 1] == NL);
        }
    }
}

proof fn lemma_next_line_start_mono(s: Seq<u8>, a: int, c: int)
    requires
        0 <= a <= c <= s.len(),
    ensures
        next_line_start(s, a) <= next_line_start(s, c),
{
    lemma_next_line_start(s, a);
    lemma_next_line_start(s, c);
    if next_line_start(s, c) < s.len() {
        assert(is_line_start(s, next_line_start(s, c)));
    }
}

/// A well-formed buffer ends with a terminator, so its end is a line start.
pub proof fn lemma_end_is_line_start(s: Seq<u8>, p: int)
    requires
        0 <= p <= s.len(),
        is_line_start(s, p),
        well_formed_from(s, p),
    ensures
        is_line_start(s, s.len() as int),
    decreases s.len() - p,
{
    if p < s.len() {
        lemma_record_bounds(s, p);
        let q = record_end(s, p);
        if q == s.len() {
            assert(s[q - 1] == NL);
        } else {
            lemma_end_is_line_start(s, q);
        }
    }
}

/// Whether `data` is a buffer of zero or more `key;value\n` records, keys
/// free of terminators and values of the accepted shape.
pub fn is_well_formed(data: &[u8]) -> (r: bool)
    ensures
        r == well_formed(data@),
{
    let ghost s = data@;
    let mut p: usize = 0;
    while p < data.len()
        invariant
            s == data@,
            p <= s.len(),
            well_formed(s) == well_formed_from(s, p as int),
        decreases s.len() - p,
    {
        assert(s.len() == data.len());
        match find_next(data, p) {
            None => {
                return false;
            },
            Some((sc, nl)) => {
                proof {
                    lemma_record_bounds(s, p as int);
                    lemma_first_from(s, NL, p as int);
                }
                match search_from(data, p, NL) {
                    Some(first) => {
                        if first != nl {
                            return false;
                        }
                    },
                    None => {
                        return false;
                    },
                }
                if !is_value_field(data, sc + 1, nl) {
                    return false;
                }
                proof {
                    assert(well_formed_from(s, p as int) == well_formed_from(s, nl + 1));
                }
                p = nl + 1;
            },
        }
    }
    true
}

/// Moves `start` forward to the first record boundary: `start` itself when a
/// terminator precedes it, else just past the next terminator.
pub fn refine_start(data: &[u8], start: usize) -> (r: usize)
    requires
        start <= data@.len(),
    ensures
        r == next_line_start(data@, start as int),
{
    assert(data@.len() == data.len());
    if start == 0 || data[start - 1] == NL {
        start
    } else {
        proof {
            lemma_first_from(data@, NL, start as int);
        }
        match search_from(data, start, NL) {
            Some(i) => i + 1,
            None => data.len(),
        }
    }
}

/// Record-aligned bounds of `workers` contiguous parts of `data`: part `i`
/// holds the records that start in `r[i]..r[i + 1]`. The nominal cut `i *
/// (len / workers)` is moved forward to a record boundary; the last part
/// ends at the end of the buffer.
pub fn partition_bounds(data: &[u8], workers: usize) -> (r: Vec<usize>)
    requires
        workers >= 1,
    ensures
        r@.len() == workers + 1,
        r@[0] == 0,
        r@[workers as int] == data@.len(),
        forall|i: int| 0 < i < workers ==> #[trigger] r@[i] == next_line_start(
            data@,
            i * (data@.len() as int / workers as int),
        ),
        forall|i: int| 0 <= i < workers ==> #[trigger] r@[i] <= r@[i + 1],
        forall|i: int|
            0 <= i <= workers ==> #[trigger] r@[i] <= data@.len() && (r@[i] < data@.len()
                ==> is_line_start(data@, r@[i] as int)),
{
    let len = data.len();
    let chunk = len / workers;
    assert(chunk * workers <= len) by (nonlinear_arith)
        requires
            chunk == len / workers,
            workers >= 1,
    ;
    let mut r: Vec<usize> = Vec::new();
    r.push(0);
    let mut i: usize = 1;
    let mut pos: usize = chunk;
    proof {
        lemma_next_line_start(data@, pos as int);
    }
    while i < workers
        invariant
            1 <= i <= workers,
            chunk == len / workers,
            len == data@.len(),
            chunk * workers <= len,
            pos == i * chunk,
            pos <= len,
            r@.len() == i,
            r@[0] == 0,
            forall|j: int| 0 < j < i ==> #[trigger] r@[j] == next_line_start(data@, j * chunk as int),
            forall|j: int| 0 <= j < i - 1 ==> #[trigger] r@[j] <= r@[j + 1],
            r@[i - 1] <= next_line_start(data@, pos as int),
            forall|j: int|
                0 <= j < i ==> #[trigger] r@[j] <= data@.len() && (r@[j] < data@.len()
                    ==> is_line_start(data@, r@[j] as int)),
        decreases workers - i,
    {
        assert(pos + chunk <= len) by (nonlinear_arith)
            requires
                pos == i * chunk,
                i < workers,
                chunk * workers <= len,
        ;
        proof {
            lemma_next_line_start(data@, pos as int);
            lemma_next_line_start_mono(data@, pos as int, pos + chunk);
        }
        let b = refine_start(data, pos);
        r.push(b);
        i = i + 1;
        pos = pos + chunk;
        assert(pos == i * chunk) by (nonlinear_arith)
            requires
                pos == (i - 1) * chunk + chunk,
        ;
    }
    proof {
        lemma_next_line_start(data@, pos as int);
    }
    r.push(len);
    r
}

/// Folds the records that start in `start..stop` into a fresh table; `None`
/// when they hold more distinct keys than a table takes.
pub fn process(data: &[u8], start: usize, stop: usize) -> (r: Option<StackMap>)
    requires
        well_formed(data@),
        data@.len() <= max_input(),
        start <= stop <= data@.len(),
        is_line_start(data@, start as int),
    ensures
        r is Some <==> summary(part_records(data@, start as int, stop as int)).dom().len() <= MAP_SIZE,
        r matches Some(t) ==> t.wf() && agg_view(t@) == summary(part_records(data@, start as int, stop as int)),
{
    let ghost s = data@;
    let ghost all = part_records(s, start as int, stop as int);
    proof {
        lemma_records_split(s, 0, start as int, stop as int);
        lemma_records_ok(s, start as int, stop - 1);
        lemma_summary_range(all);
    }
    let mut table = StackMap::new();
    if start >= stop || start >= data.len() {
        proof {
            assert(all =~= Seq::<Record>::empty());
            assert(agg_view(table@) =~= summary(all));
        }
        return Some(table);
    }
    let mut finder = Finder::new(data, start, stop - 1);
    let ghost mut done: Seq<Record> = Seq::empty();
    let mut more = true;
    proof {
        assert(done + finder.remaining() =~= all);
        assert(agg_view(table@) =~= summary(done));
    }
    while more
        invariant
            s == data@,
            all == part_records(s, start as int, stop as int),
            finder.wf(),
            values_ok(all),
            5 * all.len() <= s.len(),
            s.len() <= max_input(),
            done + finder.remaining() == all,
            table.wf(),
            agg_view(table@) == summary(done),
            !more ==> finder.remaining().len() == 0,
        decreases finder.remaining().len() + if more { 1int } else { 0int },
    {
        let ghost rest = finder.remaining();
        proof {
            assert forall|i: int| 0 <= i < rest.len() implies is_value_text(#[trigger] rest[i].1) by {
                assert(rest[i] == all[done.len() + i]);
            }
        }
        match finder.next() {
            None => {
                more = false;
            },
            Some((key, t)) => {
                let ghost rec = rest[0];
                assert(all[done.len() as int] == rec);
                let ghost next_done = done.push(rec);
                proof {
                    assert(next_done + finder.remaining() =~= all);
                    assert(values_ok(done)) by {
                        assert forall|i: int| 0 <= i < done.len() implies is_value_text(#[trigger] done[i].1) by {
                            assert(done[i] == all[i]);
                        }
                    }
                    lemma_summary_range(done);
                }
                let ghost t0 = table@;
                match table.upsert(key) {
                    None => {
                        proof {
                            assert(values_ok(next_done)) by {
                                assert forall|i: int| 0 <= i < next_done.len() implies is_value_text(#[trigger] next_done[i].1) by {
                                    assert(next_done[i] == all[i]);
                                }
                            }
                            assert(values_ok(finder.remaining())) by {
                                assert forall|i: int| 0 <= i < finder.remaining().len() implies is_value_text(#[trigger] finder.remaining()[i].1) by {
                                    assert(finder.remaining()[i] == all[next_done.len() + i]);
                                }
                            }
                            lemma_summary_concat(next_done, finder.remaining());
                            lemma_summary_range(next_done);
                            lemma_summary_range(all);
                            assert(next_done.drop_last() =~= done);
                            let d0 = summary(done).dom();
                            let d1 = summary(next_done).dom();
                            assert(d0 =~= table@.dom());
                            assert(!d0.contains(rec.0));
                            assert(d1 =~= d0.insert(rec.0));
                            assert(d0.len() == MAP_SIZE);
                            assert(d1.len() == MAP_SIZE + 1);
                            assert(d1.subset_of(summary(all).dom()));
                            vstd::set_lib::lemma_len_subset(d1, summary(all).dom());
                            assert(summary(all).dom().len() > MAP_SIZE);
                        }
                        return None;
                    },
                    Some(slot) => {
                        let mut stat = table.value_at(slot);
                        proof {
                            assert(next_done.drop_last() =~= done);
                            if t0.contains_key(key@) {
                                assert(agg_view(t0)[key@] == stat@);
                                assert(summary(done).contains_key(key@));
                            }
                            assert(stat.count <= done.len());
                        }
                        stat.record(t);
                        table.set_value_at(slot, stat);
                        proof {
                            done = next_done;
                            assert(agg_view(table@) =~= summary(done));
                        }
                    },
                }
            },
        }
    }
    proof {
        assert(done =~= all);
        table.lemma_bounds();
        assert(summary(all).dom() =~= table@.dom());
    }
    Some(table)
}

/// Merging per-table aggregates of one key left to right is reading that
/// key in the key-wise merge of the tables.
proof fn lemma_merge_all_at(ms: Seq<Map<Seq<u8>, Agg>>, k: Seq<u8>, j: int)
    requires
        1 <= j <= ms.len(),
        forall|i: int| 0 <= i < ms.len() ==> all_in_range(#[trigger] ms[i]),
    ensures
        agg_merge_all(Seq::new(j as nat, |i: int| get_or_empty(ms[i], k))) == get_or_empty(
            merge_all_maps(ms.subrange(0, j)),
            k,
        ),
    decreases j,
{
    let s = Seq::new(j as nat, |i: int| get_or_empty(ms[i], k));
    assert(ms.subrange(0, j).drop_last() =~= ms.subrange(0, j - 1));
    assert(all_in_range(ms[j - 1]));
    let m = merge_all_maps(ms.subrange(0, j));
    let m0 = merge_all_maps(ms.subrange(0, j - 1));
    assert(m == merge_maps(m0, ms[j - 1]));
    if j == 1 {
        assert(ms.subrange(0, 0) =~= Seq::<Map<Seq<u8>, Agg>>::empty());
        assert(m0 == Map::<Seq<u8>, Agg>::empty());
        assert(agg_merge_all(s) == s[0]);
        if ms[0].contains_key(k) {
            lemma_agg_identity(ms[0][k]);
        }
    } else {
        assert(s.drop_last() =~= Seq::new((j - 1) as nat, |i: int| get_or_empty(ms[i], k)));
        lemma_merge_all_at(ms, k, j - 1);
        assert(agg_merge_all(s) == agg_merge(agg_merge_all(s.drop_last()), s.last()));
        assert(s.last() == get_or_empty(ms[j - 1], k));
    }
}

proof fn lemma_total_count(s: Seq<Stat>)
    requires
        s.len() >= 1,
    ensures
        total_count(s) == agg_merge_all(s.map_values(|x: Stat| x@)).count,
    decreases s.len(),
{
    let v = s.map_values(|x: Stat| x@);
    if s.len() > 1 {
        assert(v.drop_last() =~= s.drop_last().map_values(|x: Stat| x@));
        lemma_total_count(s.drop_last());
        assert(agg_merge_all(v) == agg_merge(agg_merge_all(v.drop_last()), v.last()));
        assert(v.last() == s.last()@);
    } else {
        assert(s.drop_last().len() == 0);
        assert(total_count(s.drop_last()) == 0);
        assert(agg_merge_all(v) == v[0]);
        assert(v[0] == s[0]@);
    }
}

/// The key-wise merge of the tables' aggregates.
pub open spec fn tables_merged(tables: Seq<StackMap>) -> Map<Seq<u8>, Agg> {
    merge_all_maps(Seq::new(tables.len(), |i: int| agg_view(tables[i]@)))
}

/// Relies on slice::sort_unstable over `Vec<u8>` items: it puts them in
/// ascending order of `Ord`, which for `Vec<u8>` is byte-lexicographic, and
/// only permutes them.
#[verifier::external_body]
fn sort_keys(v: &mut Vec<Vec<u8>>)
    ensures
        final(v)@.len() == old(v)@.len(),
        final(v)@.map_values(|k: Vec<u8>| k@).to_multiset() == old(v)@.map_values(
            |k: Vec<u8>| k@,
        ).to_multiset(),
        forall|i: int, j: int|
            0 <= i < j < final(v)@.len() ==> !bytes_lt(
                #[trigger] final(v)@[j]@,
                #[trigger] final(v)@[i]@,
            ),
{
    v.sort_unstable()
}

/// The keys of all tables, each once, in ascending byte order.
fn sorted_keys(tables: &Vec<StackMap>) -> (r: Vec<Vec<u8>>)
    requires
        forall|i: int| 0 <= i < tables@.len() ==> (#[trigger] tables@[i]).wf(),
    ensures
        forall|p: int, q: int| 0 <= p < q < r@.len() ==> bytes_lt(#[trigger] r@[p]@, #[trigger] r@[q]@),
        forall|p: int| 0 <= p < r@.len() ==> tables_merged(tables@).contains_key(#[trigger] r@[p]@),
        forall|k: Seq<u8>| #[trigger] tables_merged(tables@).contains_key(k) ==> exists|p: int| 0 <= p < r@.len() && #[trigger] r@[p]@ == k,
{
    broadcast use vstd::seq_lib::group_to_multiset_ensures;

    let ghost ms = Seq::new(tables@.len(), |i: int| agg_view(tables@[i]@));
    let ghost m = tables_merged(tables@);
    let mut all: Vec<Vec<u8>> = Vec::new();
    let mut i: usize = 0;
    while i < tables.len()
        invariant
            i <= tables@.len(),
            ms == Seq::new(tables@.len(), |i: int| agg_view(tables@[i]@)),
            forall|t: int| 0 <= t < tables@.len() ==> (#[trigger] tables@[t]).wf(),
            forall|p: int| 0 <= p < all@.len() ==> merge_all_maps(ms.subrange(0, i as int)).contains_key(#[trigger] all@[p]@),
            forall|k: Seq<u8>| #[trigger] merge_all_maps(ms.subrange(0, i as int)).contains_key(k) ==> exists|p: int| 0 <= p < all@.len() && #[trigger] all@[p]@ == k,
        decreases tables@.len() - i,
    {
        let ks = tables[i].keys();
        let ghost prev = merge_all_maps(ms.subrange(0, i as int));
        let ghost next = merge_all_maps(ms.subrange(0, i + 1));
        proof {
            assert(ms.subrange(0, i + 1).drop_last() =~= ms.subrange(0, i as int));
            assert(ms[i as int] == agg_view(tables@[i as int]@));
        }
        let ghost all0 = all@;
        let mut j: usize = 0;
        while j < ks.len()
            invariant
                j <= ks@.len(),
                all@.len() == all0.len() + j,
                forall|p: int| 0 <= p < all0.len() ==> #[trigger] all@[p] == all0[p],
                forall|p: int| all0.len() <= p < all@.len() ==> #[trigger] all@[p]@ == ks@[p - all0.len()]@,
            decreases ks@.len() - j,
        {
            all.push(vstd::slice::slice_to_vec(ks[j].as_slice()));
            j = j + 1;
        }
        proof {
            assert forall|p: int| 0 <= p < all@.len() implies next.contains_key(#[trigger] all@[p]@) by {
                if p < all0.len() {
                    assert(all@[p] == all0[p]);
                    assert(prev.contains_key(all0[p]@));
                } else {
                    assert(all@[p]@ == ks@[p - all0.len()]@);
                    assert(tables@[i as int]@.contains_key(ks@[p - all0.len()]@));
                }
            }
            assert forall|k: Seq<u8>| #[trigger] next.contains_key(k) implies exists|p: int| 0 <= p < all@.len() && #[trigger] all@[p]@ == k by {
                if prev.contains_key(k) {
                    let p = choose|p: int| 0 <= p < all0.len() && #[trigger] all0[p]@ == k;
                    assert(all@[p] == all0[p]);
                } else {
                    assert(tables@[i as int]@.contains_key(k));
                    let p = choose|p: int| 0 <= p < ks@.len() && #[trigger] ks@[p]@ == k;
                    assert(all@[all0.len() + p]@ == ks@[p]@);
                }
            }
        }
        i = i + 1;
    }
    proof {
        assert(ms.subrange(0, i as int) =~= ms);
    }
    let ghost all_pre = all@;
    let ghost before = all@.map_values(|k: Vec<u8>| k@);
    sort_keys(&mut all);
    let ghost vs = all@.map_values(|k: Vec<u8>| k@);
    proof {
        assert forall|p: int| 0 <= p < all@.len() implies tables_merged(tables@).contains_key(#[trigger] all@[p]@) by {
            assert(vs[p] == all@[p]@);
            assert(vs.contains(vs[p]));
            assert(before.to_multiset().count(vs[p]) > 0);
            let q = choose|q: int| 0 <= q < before.len() && before[q] == vs[p];
            assert(before[q] == all_pre[q]@);
        }
    }
    let mut keys: Vec<Vec<u8>> = Vec::new();
    let ghost mut src: Seq<int> = Seq::empty();
    let mut j: usize = 0;
    while j < all.len()
        invariant
            j <= all@.len(),
            vs == all@.map_values(|k: Vec<u8>| k@),
            forall|a: int, b: int| 0 <= a < b < all@.len() ==> !bytes_lt(#[trigger] all@[b]@, #[trigger] all@[a]@),
            forall|p: int| 0 <= p < all@.len() ==> tables_merged(tables@).contains_key(#[trigger] all@[p]@),
            keys@.len() == src.len(),
            forall|p: int| 0 <= p < src.len() ==> 0 <= #[trigger] src[p] < j && keys@[p]@ == all@[src[p]]@,
            forall|p: int, q: int| 0 <= p < q < src.len() ==> #[trigger] src[p] < #[trigger] src[q],
            forall|p: int, q: int| 0 <= p < q < src.len() ==> #[trigger] keys@[p]@ != #[trigger] keys@[q]@,
            j > 0 ==> keys@.len() > 0 && keys@[keys@.len() - 1]@ == all@[j - 1]@,
            forall|a: int|
                #![trigger all@[a]]
                0 <= a < j ==> exists|p: int| 0 <= p < keys@.len() && #[trigger] keys@[p]@ == all@[a]@,
        decreases all@.len() - j,
    {
        let fresh = if keys.len() == 0 {
            true
        } else {
            !bytes_eq(keys[keys.len() - 1].as_slice(), all[j].as_slice())
        };
        let ghost keys0 = keys@;
        if fresh {
            proof {
                assert forall|p: int| 0 <= p < keys0.len() implies #[trigger] keys0[p]@ != all@[j as int]@ by {
                    let a = src[p];
                    if keys0[p]@ == all@[j as int]@ {
                        assert(!bytes_lt(all@[j - 1]@, all@[a]@) || a == j - 1);
                        assert(!bytes_lt(all@[j as int]@, all@[j - 1]@));
                        lemma_bytes_lt_total(all@[j - 1]@, all@[j as int]@);
                    }
                }
            }
            keys.push(vstd::slice::slice_to_vec(all[j].as_slice()));
            proof {
                src = src.push(j as int);
            }
        }
        proof {
            assert forall|a: int|
                #![trigger all@[a]]
                0 <= a < j + 1 implies exists|p: int| 0 <= p < keys@.len() && #[trigger] keys@[p]@ == all@[a]@ by {
                if a == j {
                    assert(keys@[keys@.len() - 1]@ == all@[a]@);
                } else {
                    let p = choose|p: int| 0 <= p < keys0.len() && #[trigger] keys0[p]@ == all@[a]@;
                    assert(keys@[p] == keys0[p]);
                }
            }
        }
        j = j + 1;
    }
    proof {
        assert forall|p: int| 0 <= p < keys@.len() implies tables_merged(tables@).contains_key(#[trigger] keys@[p]@) by {
            assert(keys@[p]@ == all@[src[p]]@);
        }
        assert forall|p: int, q: int| 0 <= p < q < keys@.len() implies bytes_lt(#[trigger] keys@[p]@, #[trigger] keys@[q]@) by {
            assert(src[p] < src[q]);
            lemma_bytes_lt_total(keys@[p]@, keys@[q]@);
        }
        assert forall|k: Seq<u8>| #[trigger] tables_merged(tables@).contains_key(k) implies exists|p: int| 0 <= p < keys@.len() && #[trigger] keys@[p]@ == k by {
            let q = choose|q: int| 0 <= q < all_pre.len() && #[trigger] all_pre[q]@ == k;
            assert(before[q] == k);
            assert(before.contains(k));
            assert(vs.to_multiset().count(k) > 0);
            assert(vs.contains(k));
            let a = choose|a: int| 0 <= a < vs.len() && vs[a] == k;
            assert(all@[a]@ == k);
        }
    }
    keys
}

/// Combines the tables that `process` built for the parts cut at `bounds`:
/// for every key seen, its statistics folded over all tables, with the keys
/// in ascending byte order.
pub fn merge(data: &[u8], bounds: &Vec<usize>, tables: &Vec<StackMap>) -> (r: Vec<(Vec<u8>, Stat)>)
    requires
        well_formed(data@),
        data@.len() <= max_input(),
        valid_bounds(data@, bounds@.map_values(|b: usize| b as int)),
        tables@.len() + 1 == bounds@.len(),
        forall|i: int|
            0 <= i < tables@.len() ==> (#[trigger] tables@[i]).wf() && agg_view(tables@[i]@)
                == summary(part_records(data@, bounds@[i] as int, bounds@[i + 1] as int)),
    ensures
        forall|p: int, q: int|
            0 <= p < q < r@.len() ==> bytes_lt(#[trigger] r@[p].0@, #[trigger] r@[q].0@),
        forall|p: int|
            0 <= p < r@.len() ==> summary(all_records(data@)).contains_key(#[trigger] r@[p].0@)
                && r@[p].1@ == summary(all_records(data@))[r@[p].0@],
        forall|k: Seq<u8>|
            #[trigger] summary(all_records(data@)).contains_key(k) ==> exists|p: int|
                0 <= p < r@.len() && #[trigger] r@[p].0@ == k,
{
    let ghost s = data@;
    let ghost b = bounds@.map_values(|b: usize| b as int);
    let ghost ms = Seq::new(tables@.len(), |i: int| agg_view(tables@[i]@));
    let ghost m = summary(all_records(s));
    proof {
        assert(ms =~= part_summaries(s, b));
        lemma_parts_merge(s, b);
        assert(tables_merged(tables@) == m);
        lemma_records_ok(s, 0, s.len() - 1);
        lemma_summary_range(all_records(s));
        assert forall|i: int| 0 <= i < ms.len() implies all_in_range(#[trigger] ms[i]) by {
            let pr = part_records(s, b[i], b[i + 1]);
            lemma_end_is_line_start(s, 0);
            assert(is_line_start(s, b[i])) by {
                assert(is_line_start(s, b[i]) || b[i] == s.len());
            }
            lemma_bounds_order(b, i, b.len() - 1);
            lemma_records_split(s, 0, b[i], b[i + 1]);
            lemma_records_ok(s, b[i], b[i + 1] - 1);
            lemma_summary_range(pr);
        }
    }
    let keys = sorted_keys(tables);
    let mut r: Vec<(Vec<u8>, Stat)> = Vec::new();
    let mut p: usize = 0;
    while p < keys.len()
        invariant
            p <= keys@.len(),
            r@.len() == p,
            m == tables_merged(tables@),
            m == summary(all_records(s)),
            s == data@,
            all_in_range(m),
            5 * all_records(s).len() <= s.len(),
            s.len() <= max_input(),
            forall|k: Seq<u8>| #[trigger] m.contains_key(k) ==> m[k].count <= all_records(s).len(),
            ms == Seq::new(tables@.len(), |i: int| agg_view(tables@[i]@)),
            forall|i: int| 0 <= i < ms.len() ==> all_in_range(#[trigger] ms[i]),
            tables@.len() >= 1,
            forall|i: int| 0 <= i < tables@.len() ==> (#[trigger] tables@[i]).wf(),
            forall|a: int| 0 <= a < keys@.len() ==> m.contains_key(#[trigger] keys@[a]@),
            forall|a: int| 0 <= a < p ==> #[trigger] r@[a].0@ == keys@[a]@ && r@[a].1@ == m[keys@[a]@],
        decreases keys@.len() - p,
    {
        let key = keys[p].as_slice();
        let mut stats: Vec<Stat> = Vec::new();
        let mut t: usize = 0;
        while t < tables.len()
            invariant
                t <= tables@.len(),
                stats@.len() == t,
                forall|i: int| 0 <= i < tables@.len() ==> (#[trigger] tables@[i]).wf(),
                forall|u: int| 0 <= u < t ==> (#[trigger] stats@[u])@ == get_or_empty(ms[u], key@) && stats@[u].wf(),
                ms == Seq::new(tables@.len(), |i: int| agg_view(tables@[i]@)),
            decreases tables@.len() - t,
        {
            proof {
                tables@[t as int].lemma_bounds();
            }
            match tables[t].get(key) {
                Some(st) => stats.push(st),
                None => stats.push(Stat::default()),
            }
            t = t + 1;
        }
        proof {
            let k = key@;
            let v = stats@.map_values(|x: Stat| x@);
            assert(v =~= Seq::new(ms.len(), |i: int| get_or_empty(ms[i], k)));
            lemma_merge_all_at(ms, k, ms.len() as int);
            assert(ms.subrange(0, ms.len() as int) =~= ms);
            assert(m.contains_key(keys@[p as int]@));
            lemma_total_count(stats@);
        }
        let merged = Stat::reduce(stats.as_slice());
        match merged {
            Some(st) => {
                r.push((vstd::slice::slice_to_vec(key), st));
            },
            None => {},
        }
        p = p + 1;
    }
    proof {
        assert forall|k: Seq<u8>| #[trigger] m.contains_key(k) implies exists|a: int|
            0 <= a < r@.len() && #[trigger] r@[a].0@ == k by {
            let a = choose|a: int| 0 <= a < keys@.len() && #[trigger] keys@[a]@ == k;
            assert(r@[a].0@ == keys@[a]@);
        }
        assert forall|a: int, c: int| 0 <= a < c < r@.len() implies bytes_lt(#[trigger] r@[a].0@, #[trigger] r@[c].0@) by {
            assert(r@[a].0@ == keys@[a]@);
            assert(r@[c].0@ == keys@[c]@);
        }
    }
    r
}

} // verus!
