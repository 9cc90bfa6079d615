use vstd::prelude::*;
use crate::record::Record;

verus! {

/// Two records closer in time than this (in seconds) may be merged.
pub const MERGE_WINDOW: u64 = 134217728;

/// Records older than this many seconds before now are dropped.
pub const RETENTION: u64 = 2199023255552;

/// Records whose time is below the cutoff are dropped by compaction.
pub open spec fn cutoff(now: u64, ret: u64) -> u64 {
    if now < ret {
        0
    } else {
        (now - ret) as u64
    }
}

/// `c` may be folded into `last`: same prices, `c` within the merge window
/// after `last`, and the summed counts still fit in 64 bits.
pub open spec fn mergeable(last: Record, c: Record, win: u64) -> bool {
    &&& last.input_weight == c.input_weight
    &&& last.output_weight == c.output_weight
    &&& last.time + win > c.time
    &&& last.input + c.input <= u64::MAX
    &&& last.output + c.output <= u64::MAX
}

/// The record that replaces `last` when `c` is folded into it.
pub open spec fn merged(last: Record, c: Record) -> Record {
    Record {
        time: ((last.time + c.time) / 2) as u64,
        input: (last.input + c.input) as u64,
        output: (last.output + c.output) as u64,
        input_weight: last.input_weight,
        output_weight: last.output_weight,
    }
}

/// One step of the walk: fold `c` into the last output record, or append it.
pub open spec fn step(out: Seq<Record>, c: Record, win: u64) -> Seq<Record> {
    if out.len() > 0 && mergeable(out.last(), c, win) {
        out.drop_last().push(merged(out.last(), c))
    } else {
        out.push(c)
    }
}

/// The walk over `s`: records below `cut` are skipped, the others stepped in order.
pub open spec fn merge_walk(s: Seq<Record>, cut: u64, win: u64) -> Seq<Record>
    decreases s.len(),
{
    if s.len() == 0 {
        Seq::empty()
    } else if s.last().time < cut {
        merge_walk(s.drop_last(), cut, win)
    } else {
        step(merge_walk(s.drop_last(), cut, win), s.last(), win)
    }
}

/// Stable insertion of `x` into `s` by time: after every record of equal time.
pub open spec fn insert_by_time(s: Seq<Record>, x: Record) -> Seq<Record>
    decreases s.len(),
{
    if s.len() == 0 || s.last().time <= x.time {
        s.push(x)
    } else {
        insert_by_time(s.drop_last(), x).push(s.last())
    }
}

/// Stable sort of `s` by time.
pub open spec fn sort_by_time(s: Seq<Record>) -> Seq<Record>
    decreases s.len(),
{
    if s.len() == 0 {
        Seq::empty()
    } else {
        insert_by_time(sort_by_time(s.drop_last()), s.last())
    }
}

/// What compaction at time `now` makes of an identity's records.
pub open spec fn compacted(s: Seq<Record>, now: u64, win: u64, ret: u64) -> Seq<Record> {
    sort_by_time(merge_walk(s, cutoff(now, ret), win))
}

pub open spec fn sorted_by_time(s: Seq<Record>) -> bool {
    forall|i: int, j: int| 0 <= i < j < s.len() ==> s[i].time <= s[j].time
}

/// No record could be folded into the one before it.
pub open spec fn settled(s: Seq<Record>, win: u64) -> bool {
    forall|i: int| 0 <= i < s.len() - 1 ==> !mergeable(#[trigger] s[i], s[i + 1], win)
}

pub open spec fn total_input(s: Seq<Record>) -> int
    decreases s.len(),
{
    if s.len() == 0 {
        0
    } else {
        total_input(s.drop_last()) + s.last().input
    }
}

pub open spec fn total_output(s: Seq<Record>) -> int
    decreases s.len(),
{
    if s.len() == 0 {
        0
    } else {
        total_output(s.drop_last()) + s.last().output
    }
}

fn is_mergeable(last: &Record, c: &Record, win: u64) -> (r: bool)
    ensures
        r == mergeable(*last, *c, win),
{
    last.input_weight == c.input_weight && last.output_weight == c.output_weight && (c.time
        < last.time || c.time - last.time < win) && c.input <= u64::MAX - last.input
        && c.output <= u64::MAX - last.output
}

fn merge(last: &Record, c: &Record, win: u64) -> (r: Record)
    requires
        mergeable(*last, *c, win),
    ensures
        r == merged(*last, *c),
{
    let t = ((last.time as u128 + c.time as u128) / 2) as u64;
    Record {
        time: t,
        input: last.input + c.input,
        output: last.output + c.output,
        input_weight: last.input_weight,
        output_weight: last.output_weight,
    }
}

proof fn lemma_insert_at(s: Seq<Record>, x: Record, p: int)
    requires
        0 <= p <= s.len(),
        p == 0 || s[p - 1].time <= x.time,
        forall|k: int| p <= k < s.len() ==> s[k].time > x.time,
    ensures
        insert_by_time(s, x) == s.insert(p, x),
    decreases s.len(),
{
    if p == s.len() {
        assert(s.push(x) =~= s.insert(p, x));
    } else {
        lemma_insert_at(s.drop_last(), x, p);
        assert(s.drop_last().insert(p, x).push(s.last()) =~= s.insert(p, x));
    }
}

/// Sorts records by time, keeping the order of records of equal time.
pub fn sort_records(v: &Vec<Record>) -> (r: Vec<Record>)
    ensures
        r@ == sort_by_time(v@),
{
    let mut r: Vec<Record> = Vec::new();
    let mut i: usize = 0;
    while i < v.len()
        invariant
            i <= v@.len(),
            r@ == sort_by_time(v@.take(i as int)),
            r@.len() == i,
        decreases v@.len() - i,
    {
        let x = v[i];
        let mut p: usize = r.len();
        while p > 0 && r[p - 1].time > x.time
            invariant
                p <= r@.len(),
                forall|k: int| p <= k < r@.len() ==> r@[k].time > x.time,
            decreases p,
        {
            p = p - 1;
        }
        proof {
            lemma_insert_at(r@, x, p as int);
            assert(v@.take(i + 1).drop_last() =~= v@.take(i as int));
        }
        r.insert(p, x);
        i = i + 1;
    }
    assert(v@.take(v@.len() as int) =~= v@);
    r
}

/// Compacts an identity's records at time `now`, with a merge window of `win`
/// seconds and a retention horizon of `ret` seconds: drops the records older
/// than the horizon, folds each record into the one before it where they are
/// mergeable, and sorts the result by time.
pub fn compact_with(records: &Vec<Record>, now: u64, win: u64, ret: u64) -> (r: Vec<Record>)
    ensures
        r@ == compacted(records@, now, win, ret),
        sorted_by_time(r@),
{
    let cut: u64 = if now < ret {
        0
    } else {
        now - ret
    };
    let mut out: Vec<Record> = Vec::new();
    let mut i: usize = 0;
    while i < records.len()
        invariant
            i <= records@.len(),
            cut == cutoff(now, ret),
            out@ == merge_walk(records@.take(i as int), cut, win),
        decreases records@.len() - i,
    {
        let c = records[i];
        proof {
            assert(records@.take(i + 1).drop_last() =~= records@.take(i as int));
        }
        if c.time >= cut {
            let n = out.len();
            if n > 0 && is_mergeable(&out[n - 1], &c, win) {
                let m = merge(&out[n - 1], &c, win);
                out.set(n - 1, m);
                proof {
                    assert(out@ =~= step(merge_walk(records@.take(i as int), cut, win), c, win));
                }
            } else {
                out.push(c);
            }
        }
        i = i + 1;
    }
    assert(records@.take(records@.len() as int) =~= records@);
    let r = sort_records(&out);
    proof {
        lemma_sort_sorted(out@);
    }
    r
}

/// Compacts an identity's records at time `now` with the merge window
/// `MERGE_WINDOW` and the retention horizon `RETENTION`.
pub fn compact(records: &Vec<Record>, now: u64) -> (r: Vec<Record>)
    ensures
        r@ == compacted(records@, now, MERGE_WINDOW, RETENTION),
        sorted_by_time(r@),
{
    compact_with(records, now, MERGE_WINDOW, RETENTION)
}

proof fn lemma_insert_bounded(s: Seq<Record>, x: Record, b: u64)
    requires
        forall|k: int| 0 <= k < s.len() ==> s[k].time <= b,
        x.time <= b,
    ensures
        forall|k: int| 0 <= k < insert_by_time(s, x).len() ==> insert_by_time(s, x)[k].time <= b,
        insert_by_time(s, x).len() == s.len() + 1,
    decreases s.len(),
{
    if s.len() > 0 && s.last().time > x.time {
        lemma_insert_bounded(s.drop_last(), x, b);
    }
}

proof fn lemma_insert_sorted(s: Seq<Record>, x: Record)
    requires
        sorted_by_time(s),
    ensures
        sorted_by_time(insert_by_time(s, x)),
    decreases s.len(),
{
    if s.len() > 0 && s.last().time > x.time {
        let t = s.drop_last();
        lemma_insert_sorted(t, x);
        lemma_insert_bounded(t, x, s.last().time);
    }
}

proof fn lemma_sort_sorted(s: Seq<Record>)
    ensures
        sorted_by_time(sort_by_time(s)),
    decreases s.len(),
{
    if s.len() > 0 {
        lemma_sort_sorted(s.drop_last());
        lemma_insert_sorted(sort_by_time(s.drop_last()), s.last());
    }
}

proof fn lemma_step_totals(out: Seq<Record>, c: Record, win: u64)
    ensures
        total_input(step(out, c, win)) == total_input(out) + c.input,
        total_output(step(out, c, win)) == total_output(out) + c.output,
{
    if out.len() > 0 && mergeable(out.last(), c, win) {
        assert(step(out, c, win).drop_last() =~= out.drop_last());
    } else {
        assert(out.push(c).drop_last() =~= out);
    }
}

proof fn lemma_walk_totals(s: Seq<Record>, cut: u64, win: u64)
    requires
        forall|k: int| 0 <= k < s.len() ==> s[k].time >= cut,
    ensures
        total_input(merge_walk(s, cut, win)) == total_input(s),
        total_output(merge_walk(s, cut, win)) == total_output(s),
    decreases s.len(),
{
    if s.len() > 0 {
        lemma_walk_totals(s.drop_last(), cut, win);
        lemma_step_totals(merge_walk(s.drop_last(), cut, win), s.last(), win);
    }
}

proof fn lemma_insert_totals(s: Seq<Record>, x: Record)
    ensures
        total_input(insert_by_time(s, x)) == total_input(s) + x.input,
        total_output(insert_by_time(s, x)) == total_output(s) + x.output,
    decreases s.len(),
{
    if s.len() == 0 || s.last().time <= x.time {
        assert(s.push(x).drop_last() =~= s);
    } else {
        lemma_insert_totals(s.drop_last(), x);
        let t = insert_by_time(s.drop_last(), x);
        assert(t.push(s.last()).drop_last() =~= t);
    }
}

proof fn lemma_sort_totals(s: Seq<Record>)
    ensures
        total_input(sort_by_time(s)) == total_input(s),
        total_output(sort_by_time(s)) == total_output(s),
    decreases s.len(),
{
    if s.len() > 0 {
        lemma_sort_totals(s.drop_last());
        lemma_insert_totals(sort_by_time(s.drop_last()), s.last());
    }
}

/// Compaction keeps the total input and the total output token counts of the
/// records it is given, when none of them is older than the retention horizon.
pub proof fn lemma_compaction_keeps_totals(s: Seq<Record>, now: u64, win: u64, ret: u64)
    requires
        forall|k: int| 0 <= k < s.len() ==> s[k].time >= cutoff(now, ret),
    ensures
        total_input(compacted(s, now, win, ret)) == total_input(s),
        total_output(compacted(s, now, win, ret)) == total_output(s),
{
    lemma_walk_totals(s, cutoff(now, ret), win);
    lemma_sort_totals(merge_walk(s, cutoff(now, ret), win));
}

/// On records sorted by time, the walk gives records that are sorted, settled,
/// no older than the cutoff, and no later than the last record.
proof fn lemma_walk_sorted(s: Seq<Record>, cut: u64, win: u64)
    requires
        sorted_by_time(s),
    ensures
        sorted_by_time(merge_walk(s, cut, win)),
        settled(merge_walk(s, cut, win), win),
        forall|k: int| 0 <= k < merge_walk(s, cut, win).len() ==> #[trigger] merge_walk(s, cut, win)[k].time >= cut,
        s.len() > 0 ==> forall|k: int| 0 <= k < merge_walk(s, cut, win).len() ==> #[trigger] merge_walk(s, cut, win)[k].time <= s.last().time,
    decreases s.len(),
{
    if s.len() > 0 {
        let t = s.drop_last();
        lemma_walk_sorted(t, cut, win);
        let prev = merge_walk(t, cut, win);
        let c = s.last();
        if t.len() > 0 {
            assert(t.last().time <= c.time);
        }
        assert(forall|k: int| 0 <= k < prev.len() ==> prev[k].time <= c.time);
        if c.time >= cut {
            if prev.len() > 0 && mergeable(prev.last(), c, win) {
                let w = step(prev, c, win);
                let m = merged(prev.last(), c);
                assert(w == prev.drop_last().push(m));
                assert(forall|k: int| 0 <= k < w.len() - 1 ==> w[k] == prev[k]);
                assert(sorted_by_time(w));
                assert(settled(w, win)) by {
                    assert forall|i: int| 0 <= i < w.len() - 1 implies !mergeable(#[trigger] w[i], w[i + 1], win) by {
                        assert(!mergeable(prev[i], prev[i + 1], win));
                    }
                }
            } else {
                let w = step(prev, c, win);
                assert(w == prev.push(c));
                assert(sorted_by_time(w));
                assert(settled(w, win)) by {
                    assert forall|i: int| 0 <= i < w.len() - 1 implies !mergeable(#[trigger] w[i], w[i + 1], win) by {
                        if i < w.len() - 2 {
                            assert(!mergeable(prev[i], prev[i + 1], win));
                        }
                    }
                }
            }
        }
    }
}

/// On sorted, settled records that are not older than the cutoff, the walk
/// changes nothing.
proof fn lemma_walk_settled(s: Seq<Record>, cut: u64, win: u64)
    requires
        settled(s, win),
        forall|k: int| 0 <= k < s.len() ==> #[trigger] s[k].time >= cut,
    ensures
        merge_walk(s, cut, win) == s,
    decreases s.len(),
{
    if s.len() > 0 {
        let t = s.drop_last();
        assert(settled(t, win)) by {
            assert forall|i: int| 0 <= i < t.len() - 1 implies !mergeable(#[trigger] t[i], t[i + 1], win) by {
                assert(!mergeable(s[i], s[i + 1], win));
            }
        }
        lemma_walk_settled(t, cut, win);
        if t.len() > 0 {
            assert(!mergeable(s[t.len() - 1], s[t.len() as int], win));
        }
        assert(t.push(s.last()) =~= s);
    }
}

proof fn lemma_sort_sorted_is_identity(s: Seq<Record>)
    requires
        sorted_by_time(s),
    ensures
        sort_by_time(s) == s,
    decreases s.len(),
{
    if s.len() > 0 {
        lemma_sort_sorted_is_identity(s.drop_last());
        assert(s.drop_last().push(s.last()) =~= s);
    }
}

/// On records sorted by time, compaction gives records with no two neighbours
/// that could be merged, and compacting its result again at the same time
/// changes nothing.
pub proof fn lemma_compaction_idempotent(s: Seq<Record>, now: u64, win: u64, ret: u64)
    requires
        sorted_by_time(s),
    ensures
        settled(compacted(s, now, win, ret), win),
        compacted(compacted(s, now, win, ret), now, win, ret) == compacted(s, now, win, ret),
{
    let cut = cutoff(now, ret);
    let w = merge_walk(s, cut, win);
    lemma_walk_sorted(s, cut, win);
    lemma_sort_sorted_is_identity(w);
    lemma_walk_settled(w, cut, win);
}

/// Appending a record no earlier than the last one to compacted records
/// (sorted, settled, none older than the cutoff) and compacting again changes
/// only the end: the new record is folded into the last one when the two are
/// mergeable, and appended otherwise.
pub proof fn lemma_compaction_of_append(s: Seq<Record>, x: Record, now: u64, win: u64, ret: u64)
    requires
        s.len() > 0,
        sorted_by_time(s),
        settled(s, win),
        forall|k: int| 0 <= k < s.len() ==> #[trigger] s[k].time >= cutoff(now, ret),
        s.last().time <= x.time,
    ensures
        compacted(s.push(x), now, win, ret) == (if mergeable(s.last(), x, win) {
            s.drop_last().push(merged(s.last(), x))
        } else {
            s.push(x)
        }),
{
    let cut = cutoff(now, ret);
    let t = s.push(x);
    assert(t.drop_last() =~= s);
    lemma_walk_settled(s, cut, win);
    assert(merge_walk(t, cut, win) == step(s, x, win));
    let r = step(s, x, win);
    if mergeable(s.last(), x, win) {
        let m = merged(s.last(), x);
        assert(r == s.drop_last().push(m));
    } else {
        assert(r == s.push(x));
    }
    assert(sorted_by_time(r)) by {
        assert forall|i: int, j: int| 0 <= i < j < r.len() implies r[i].time <= r[j].time by {
            if j == r.len() - 1 {
                assert(s[i].time <= s.last().time);
            } else {
                assert(r[i] == s[i] && r[j] == s[j]);
            }
        }
    }
    lemma_sort_sorted_is_identity(r);
}

} // verus!
