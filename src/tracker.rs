use vstd::prelude::*;
use crate::record::Record;
use crate::compact::{compact, compacted, MERGE_WINDOW, RETENTION};

verus! {

/// An identity and its records, as the store holds them.
pub type Usage = (Seq<char>, Seq<Record>);

/// Per-identity usage records. Each identity appears once; identities keep
/// the order in which they were first added.
pub struct Tracker {
    entries: Vec<(String, Vec<Record>)>,
}

pub open spec fn view_entry(e: (String, Vec<Record>)) -> Usage {
    (e.0@, e.1@)
}

pub open spec fn keys_unique(v: Seq<Usage>) -> bool {
    forall|i: int, j: int| 0 <= i < v.len() && 0 <= j < v.len() && i != j ==> v[i].0 != v[j].0
}

pub open spec fn has_key(v: Seq<Usage>, id: Seq<char>) -> bool {
    exists|i: int| 0 <= i < v.len() && v[i].0 == id
}

/// The records stored under `id`, if any.
pub open spec fn records_of(v: Seq<Usage>, id: Seq<char>) -> Option<Seq<Record>> {
    if has_key(v, id) {
        Some(v[choose|i: int| 0 <= i < v.len() && v[i].0 == id].1)
    } else {
        None
    }
}

/// `v` with the records under `id` set to `rs`: in place if `id` is present,
/// appended otherwise.
pub open spec fn put(v: Seq<Usage>, id: Seq<char>, rs: Seq<Record>) -> Seq<Usage> {
    if has_key(v, id) {
        v.update(choose|i: int| 0 <= i < v.len() && v[i].0 == id, (id, rs))
    } else {
        v.push((id, rs))
    }
}

/// The records of `s` later than `t`, in order.
pub open spec fn after(s: Seq<Record>, t: u64) -> Seq<Record>
    decreases s.len(),
{
    if s.len() == 0 {
        Seq::empty()
    } else if s.last().time > t {
        after(s.drop_last(), t).push(s.last())
    } else {
        after(s.drop_last(), t)
    }
}

/// The records of every identity later than `t`, identity after identity.
pub open spec fn all_after(v: Seq<Usage>, t: u64) -> Seq<Record>
    decreases v.len(),
{
    if v.len() == 0 {
        Seq::empty()
    } else {
        all_after(v.drop_last(), t) + after(v.last().1, t)
    }
}

/// A timestamp in whole seconds, with times before the epoch taken as zero.
pub open spec fn clamp_time(t: i64) -> u64 {
    if t < 0 {
        0
    } else {
        t as u64
    }
}

/// The records of `rs` after a new record is added: appended, then compacted
/// at `now` when asked for.
pub open spec fn appended(rs: Seq<Record>, r: Record, compacting: bool, now: u64) -> Seq<Record> {
    if compacting {
        compacted(rs.push(r), now, MERGE_WINDOW, RETENTION)
    } else {
        rs.push(r)
    }
}

/// The store after `r` is added under `id`. An identity seen for the first
/// time gets a one-record sequence, which is not compacted.
pub open spec fn with_usage(v: Seq<Usage>, id: Seq<char>, r: Record, compacting: bool, now: u64) -> Seq<Usage> {
    match records_of(v, id) {
        Some(rs) => put(v, id, appended(rs, r, compacting, now)),
        None => v.push((id, seq![r])),
    }
}

impl View for Tracker {
    type V = Seq<Usage>;

    closed spec fn view(&self) -> Seq<Usage> {
        self.entries@.map_values(|e: (String, Vec<Record>)| view_entry(e))
    }
}

/// Relies on `std::time::SystemTime::now` and chrono's
/// `DateTime<Utc>: From<SystemTime>` with `DateTime::timestamp`: the current
/// time in whole seconds since the epoch, negative before it. Nothing is known
/// of its value.
#[verifier::external_body]
fn now_timestamp() -> (r: i64) {
    chrono::DateTime::<chrono::Utc>::from(std::time::SystemTime::now()).timestamp()
}

pub fn clamp_timestamp(t: i64) -> (r: u64)
    ensures
        r == clamp_time(t),
{
    if t < 0 {
        0
    } else {
        t as u64
    }
}

proof fn lemma_found(v: Seq<Usage>, id: Seq<char>, i: int)
    requires
        keys_unique(v),
        0 <= i < v.len(),
        v[i].0 == id,
    ensures
        has_key(v, id),
        (choose|j: int| 0 <= j < v.len() && v[j].0 == id) == i,
        records_of(v, id) == Some(v[i].1),
{
}

impl Tracker {
    /// Every identity appears once.
    pub open spec fn wf(&self) -> bool {
        keys_unique(self@)
    }

    /// An empty store.
    pub fn new() -> (r: Self)
        ensures
            r@ == Seq::<Usage>::empty(),
            r.wf(),
    {
        let r = Tracker { entries: Vec::new() };
        assert(r@ =~= Seq::<Usage>::empty());
        r
    }

    /// Number of identities.
    pub fn len(&self) -> (r: usize)
        ensures
            r == self@.len(),
    {
        self.entries.len()
    }

    /// The position of `id`, if it is stored.
    pub fn find(&self, id: &String) -> (r: Option<usize>)
        requires
            self.wf(),
        ensures
            match r {
                Some(i) => i < self@.len() && self@[i as int].0 == id@ && records_of(self@, id@) == Some(
                    self@[i as int].1,
                ),
                None => !has_key(self@, id@) && records_of(self@, id@) is None,
            },
    {
        let mut i: usize = 0;
        while i < self.entries.len()
            invariant
                i <= self@.len(),
                self.wf(),
                self@.len() == self.entries@.len(),
                forall|j: int| 0 <= j < i ==> self@[j].0 != id@,
            decreases self.entries@.len() - i,
        {
            if self.entries[i].0 == *id {
                proof {
                    lemma_found(self@, id@, i as int);
                }
                return Some(i);
            }
            i = i + 1;
        }
        None
    }

    /// The records stored under `id`, if it is stored.
    pub fn records(&self, id: &String) -> (r: Option<&Vec<Record>>)
        requires
            self.wf(),
        ensures
            match r {
                Some(rs) => records_of(self@, id@) == Some(rs@),
                None => records_of(self@, id@) is None,
            },
    {
        match self.find(id) {
            Some(i) => Some(&self.entries[i].1),
            None => None,
        }
    }

    /// The identities and their records, in store order.
    pub fn entries(&self) -> (r: &Vec<(String, Vec<Record>)>)
        ensures
            r@.map_values(|e: (String, Vec<Record>)| view_entry(e)) == self@,
    {
        &self.entries
    }

    /// Sets the records under `id`: in place if it is stored, appended otherwise.
    pub fn insert(&mut self, id: String, records: Vec<Record>)
        requires
            old(self).wf(),
        ensures
            final(self).wf(),
            final(self)@ == put(old(self)@, id@, records@),
    {
        let ghost key = id@;
        match self.find(&id) {
            Some(i) => {
                proof {
                    lemma_found(self@, key, i as int);
                }
                self.entries.set(i, (id, records));
                assert(self@ =~= put(old(self)@, key, records@));
            },
            None => {
                self.entries.push((id, records));
                assert(self@ =~= put(old(self)@, key, records@));
            },
        }
    }

    /// Adds one usage record for `id`, stamped `now`. When `compacting` and
    /// `id` was already stored, its records are then compacted at `now`.
    pub fn add_usage(
        &mut self,
        id: &String,
        input_count: u64,
        output_count: u64,
        input_weight: u64,
        output_weight: u64,
        compacting: bool,
        now: u64,
    )
        requires
            old(self).wf(),
        ensures
            final(self).wf(),
            final(self)@ == with_usage(
                old(self)@,
                id@,
                Record { time: now, input: input_count, output: output_count, input_weight, output_weight },
                compacting,
                now,
            ),
    {
        let r = Record { time: now, input: input_count, output: output_count, input_weight, output_weight };
        match self.find(id) {
            Some(i) => {
                let (key, mut records) = self.entries.remove(i);
                proof {
                    lemma_found(old(self)@, id@, i as int);
                }
                records.push(r);
                if compacting {
                    records = compact(&records, now);
                }
                self.entries.insert(i, (key, records));
                assert(self@ =~= with_usage(old(self)@, id@, r, compacting, now));
            },
            None => {
                let key = id.clone();
                let v = vec![r];
                assert(v@ =~= seq![r]);
                self.entries.push((key, v));
                assert(self@ =~= old(self)@.push((id@, seq![r])));
                assert(self@ =~= with_usage(old(self)@, id@, r, compacting, now));
            },
        }
    }

    /// Adds one usage record for `id`, stamped with the current time (taken as
    /// zero before the epoch). When `compacting` and `id` was already stored,
    /// its records are then compacted.
    pub fn add_usage_now(
        &mut self,
        id: &String,
        input_count: u64,
        output_count: u64,
        input_weight: u64,
        output_weight: u64,
        compacting: bool,
    )
        requires
            old(self).wf(),
        ensures
            final(self).wf(),
            exists|now: u64|
                final(self)@ == with_usage(
                    old(self)@,
                    id@,
                    Record { time: now, input: input_count, output: output_count, input_weight, output_weight },
                    compacting,
                    now,
                ),
    {
        let now = clamp_timestamp(now_timestamp());
        self.add_usage(id, input_count, output_count, input_weight, output_weight, compacting, now);
    }
}

/// The records of `rs` later than `t`, in order.
pub fn records_after(rs: &Vec<Record>, t: u64) -> (r: Vec<Record>)
    ensures
        r@ == after(rs@, t),
{
    let mut out: Vec<Record> = Vec::new();
    let mut i: usize = 0;
    while i < rs.len()
        invariant
            i <= rs@.len(),
            out@ == after(rs@.take(i as int), t),
        decreases rs@.len() - i,
    {
        proof {
            assert(rs@.take(i + 1).drop_last() =~= rs@.take(i as int));
        }
        if rs[i].time > t {
            out.push(rs[i]);
        }
        i = i + 1;
    }
    assert(rs@.take(rs@.len() as int) =~= rs@);
    out
}

impl Tracker {
    /// The records of `id` later than `after_time` (a time before the epoch
    /// counts as zero), in store order; `None` when `id` is not stored.
    pub fn usage_for_identity_after(&self, id: &String, after_time: i64) -> (r: Option<Vec<Record>>)
        requires
            self.wf(),
        ensures
            match records_of(self@, id@) {
                Some(rs) => r is Some && r->Some_0@ == after(rs, clamp_time(after_time)),
                None => r is None,
            },
    {
        let t = clamp_timestamp(after_time);
        match self.records(id) {
            Some(rs) => Some(records_after(rs, t)),
            None => None,
        }
    }

    /// The records of every identity later than `after_time` (a time before
    /// the epoch counts as zero), identity after identity in store order.
    pub fn usage_for_all_after(&self, after_time: i64) -> (r: Vec<Record>)
        ensures
            r@ == all_after(self@, clamp_time(after_time)),
    {
        let t = clamp_timestamp(after_time);
        let mut out: Vec<Record> = Vec::new();
        let mut i: usize = 0;
        while i < self.entries.len()
            invariant
                i <= self@.len(),
                self@.len() == self.entries@.len(),
                t == clamp_time(after_time),
                out@ == all_after(self@.take(i as int), t),
            decreases self.entries@.len() - i,
        {
            let part = records_after(&self.entries[i].1, t);
            let mut j: usize = 0;
            let ghost before = out@;
            while j < part.len()
                invariant
                    j <= part@.len(),
                    out@ == before + part@.take(j as int),
                decreases part@.len() - j,
            {
                out.push(part[j]);
                j = j + 1;
                assert(out@ =~= before + part@.take(j as int));
            }
            proof {
                assert(self@.take(i + 1).drop_last() =~= self@.take(i as int));
                assert(part@.take(part@.len() as int) =~= part@);
            }
            i = i + 1;
        }
        assert(self@.take(self@.len() as int) =~= self@);
        out
    }
}

} // verus!
