use vstd::prelude::*;
use crate::record::{
    Record, Element, Stored, Error, JsonType, decode, decode_spec, as_elements, lemma_round_trip,
};
use crate::tracker::{Tracker, Usage, put, keys_unique, has_key, view_entry};

verus! {

/// What the decoder reads under one identity.
pub type StoredView = Result<Seq<Seq<Element>>, JsonType>;

pub open spec fn stored_view(s: Stored) -> StoredView {
    match s {
        Stored::Records(v) => Ok(v@.map_values(|x: Vec<Element>| x@)),
        Stored::Other(t) => Err(t),
    }
}

pub open spec fn entry_view(e: (String, Stored)) -> (Seq<char>, StoredView) {
    (e.0@, stored_view(e.1))
}

pub open spec fn entries_view(es: Seq<(String, Stored)>) -> Seq<(Seq<char>, StoredView)> {
    es.map_values(|e: (String, Stored)| entry_view(e))
}

/// Decodes encoded records in order, failing on the first that does not decode.
pub open spec fn decode_records_spec(rs: Seq<Seq<Element>>) -> Result<Seq<Record>, Error>
    decreases rs.len(),
{
    if rs.len() == 0 {
        Ok(Seq::empty())
    } else {
        match decode_records_spec(rs.drop_last()) {
            Err(e) => Err(e),
            Ok(v) => match decode_spec(rs.last()) {
                Err(e) => Err(e),
                Ok(r) => Ok(v.push(r)),
            },
        }
    }
}

/// The value under an identity must be an array of encoded records.
pub open spec fn decode_stored_spec(s: StoredView) -> Result<Seq<Record>, Error> {
    match s {
        Ok(rs) => decode_records_spec(rs),
        Err(t) => Err(Error::JsonTypeError { expected: JsonType::Array, got: t }),
    }
}

/// Decodes every identity in order, failing on the first error. An identity
/// that appears twice keeps the records of its last appearance.
pub open spec fn decode_store_spec(es: Seq<(Seq<char>, StoredView)>) -> Result<Seq<Usage>, Error>
    decreases es.len(),
{
    if es.len() == 0 {
        Ok(Seq::empty())
    } else {
        match decode_store_spec(es.drop_last()) {
            Err(e) => Err(e),
            Ok(v) => match decode_stored_spec(es.last().1) {
                Err(e) => Err(e),
                Ok(rs) => Ok(put(v, es.last().0, rs)),
            },
        }
    }
}

/// The encoding of a store: each identity with its records' encodings, in order.
pub open spec fn encode_store_spec(v: Seq<Usage>) -> Seq<(Seq<char>, Seq<Seq<u64>>)> {
    v.map_values(|u: Usage| (u.0, u.1.map_values(|r: Record| r.fields())))
}

pub open spec fn encoded_view(e: Seq<(String, Vec<Vec<u64>>)>) -> Seq<(Seq<char>, Seq<Seq<u64>>)> {
    e.map_values(|x: (String, Vec<Vec<u64>>)| (x.0@, x.1@.map_values(|f: Vec<u64>| f@)))
}

/// An encoded store as the decoder reads it back.
pub open spec fn as_stored(e: Seq<(Seq<char>, Seq<Seq<u64>>)>) -> Seq<(Seq<char>, StoredView)> {
    e.map_values(|x: (Seq<char>, Seq<Seq<u64>>)| (x.0, Ok(x.1.map_values(|f: Seq<u64>| as_elements(f)))))
}

/// Decodes the encoded records of one identity.
pub fn decode_records(rs: &Vec<Vec<Element>>) -> (r: Result<Vec<Record>, Error>)
    ensures
        match r {
            Ok(v) => decode_records_spec(rs@.map_values(|x: Vec<Element>| x@)) == Ok::<Seq<Record>, Error>(v@),
            Err(e) => decode_records_spec(rs@.map_values(|x: Vec<Element>| x@)) == Err::<Seq<Record>, Error>(e),
        },
{
    let ghost m = rs@.map_values(|x: Vec<Element>| x@);
    let mut out: Vec<Record> = Vec::new();
    let mut i: usize = 0;
    while i < rs.len()
        invariant
            i <= rs@.len(),
            m == rs@.map_values(|x: Vec<Element>| x@),
            decode_records_spec(m.take(i as int)) == Ok::<Seq<Record>, Error>(out@),
        decreases rs@.len() - i,
    {
        proof {
            assert(m.take(i + 1).drop_last() =~= m.take(i as int));
            assert(m.take(i + 1).last() == rs@[i as int]@);
        }
        match decode(&rs[i]) {
            Ok(rec) => {
                out.push(rec);
            },
            Err(e) => {
                proof {
                    lemma_records_error(m, i as int);
                }
                return Err(e);
            },
        }
        i = i + 1;
    }
    assert(m.take(rs@.len() as int) =~= m);
    Ok(out)
}

/// An error in the first `n + 1` records is the error of the whole.
proof fn lemma_records_error(m: Seq<Seq<Element>>, n: int)
    requires
        0 <= n < m.len(),
        decode_records_spec(m.take(n + 1)) is Err,
    ensures
        decode_records_spec(m) == decode_records_spec(m.take(n + 1)),
    decreases m.len(),
{
    if n + 1 == m.len() {
        assert(m.take(n + 1) =~= m);
    } else {
        assert(m.drop_last().take(n + 1) =~= m.take(n + 1));
        lemma_records_error(m.drop_last(), n);
    }
}

proof fn lemma_store_error(m: Seq<(Seq<char>, StoredView)>, n: int)
    requires
        0 <= n < m.len(),
        decode_store_spec(m.take(n + 1)) is Err,
    ensures
        decode_store_spec(m) == decode_store_spec(m.take(n + 1)),
    decreases m.len(),
{
    if n + 1 == m.len() {
        assert(m.take(n + 1) =~= m);
    } else {
        assert(m.drop_last().take(n + 1) =~= m.take(n + 1));
        lemma_store_error(m.drop_last(), n);
    }
}

/// Builds a store from what the decoder read under each identity, in order.
pub fn decode_store(entries: Vec<(String, Stored)>) -> (r: Result<Tracker, Error>)
    ensures
        match r {
            Ok(t) => t.wf() && decode_store_spec(entries_view(entries@))
                == Ok::<Seq<Usage>, Error>(t@),
            Err(e) => decode_store_spec(entries_view(entries@)) == Err::<
                Seq<Usage>,
                Error,
            >(e),
        },
{
    let ghost m = entries_view(entries@);
    let mut t = Tracker::new();
    let ghost all = entries@;
    let mut pending = entries;
    let mut i: usize = 0;

    // Taking entries from the back would reverse them; turn the vector first.
    let n = pending.len();
    let mut rev: Vec<(String, Stored)> = Vec::new();
    while pending.len() > 0
        invariant
            pending@.len() + rev@.len() == all.len(),
            m == entries_view(all),
            all == entries@,
            pending@ == all.take(pending@.len() as int),
            forall|k: int| 0 <= k < rev@.len() ==> rev@[k] == all[all.len() - 1 - k],
        decreases pending@.len(),
    {
        let e = pending.pop().unwrap();
        rev.push(e);
        assert(pending@ =~= all.take(pending@.len() as int));
    }
    while i < n
        invariant
            i <= n,
            n == all.len(),
            rev@.len() == n - i,
            forall|k: int| 0 <= k < rev@.len() ==> rev@[k] == all[all.len() - 1 - k],
            m == entries_view(all),
            all == entries@,
            t.wf(),
            decode_store_spec(m.take(i as int)) == Ok::<Seq<Usage>, Error>(t@),
        decreases n - i,
    {
        let (key, stored) = rev.pop().unwrap();
        proof {
            assert(m.take(i + 1).drop_last() =~= m.take(i as int));
            assert(m.take(i + 1).last() == entry_view((key, stored)));
        }
        let recs = match stored {
            Stored::Records(rs) => decode_records(&rs),
            Stored::Other(k) => Err(Error::JsonTypeError { expected: JsonType::Array, got: k }),
        };
        match recs {
            Ok(v) => {
                t.insert(key, v);
            },
            Err(e) => {
                proof {
                    assert(decode_stored_spec(m.take(i + 1).last().1) == Err::<Seq<Record>, Error>(e));
                    assert(decode_store_spec(m.take(i + 1)) == Err::<Seq<Usage>, Error>(e));
                    lemma_store_error(m, i as int);
                }
                return Err(e);
            },
        }
        i = i + 1;
    }
    assert(m.take(n as int) =~= m);
    Ok(t)
}

impl Tracker {
    /// The encoding of the store: each identity with its records' encodings,
    /// in store order.
    pub fn encode(&self) -> (r: Vec<(String, Vec<Vec<u64>>)>)
        ensures
            encoded_view(r@)
                == encode_store_spec(self@),
    {
        let es = self.entries();
        let mut out: Vec<(String, Vec<Vec<u64>>)> = Vec::new();
        let mut i: usize = 0;
        while i < es.len()
            invariant
                i <= es@.len(),
                es@.map_values(|e: (String, Vec<Record>)| view_entry(e)) == self@,
                encoded_view(out@)
                    == encode_store_spec(self@.take(i as int)),
            decreases es@.len() - i,
        {
            let rs = &es[i].1;
            let mut enc: Vec<Vec<u64>> = Vec::new();
            let mut j: usize = 0;
            while j < rs.len()
                invariant
                    j <= rs@.len(),
                    enc@.map_values(|f: Vec<u64>| f@) == rs@.take(j as int).map_values(|r: Record| r.fields()),
                decreases rs@.len() - j,
            {
                let f = rs[j].encode();
                let ghost prev = enc@;
                enc.push(f);
                proof {
                    assert(rs@.take(j + 1) =~= rs@.take(j as int).push(rs@[j as int]));
                    assert(enc@ =~= prev.push(f));
                    assert(enc@.map_values(|f: Vec<u64>| f@) =~= prev.map_values(|f: Vec<u64>| f@).push(f@));
                }
                j = j + 1;
                assert(enc@.map_values(|f: Vec<u64>| f@) =~= rs@.take(j as int).map_values(|r: Record| r.fields()));
            }
            let key = es[i].0.clone();
            let ghost prev = out@;
            out.push((key, enc));
            i = i + 1;
            proof {
                assert(out@ =~= prev.push((key, enc)));
                assert(self@.take(i as int) =~= self@.take(i - 1).push(self@[i - 1]));
                assert(encoded_view(out@)
                    =~= encoded_view(prev).push((key@, enc@.map_values(|f: Vec<u64>| f@))));
                assert(rs@.take(rs@.len() as int) =~= rs@);
                assert(self@[i - 1] == view_entry(es@[i - 1]));
                assert(encoded_view(out@)
                    =~= encode_store_spec(self@.take(i as int)));
            }
        }
        assert(self@.take(self@.len() as int) =~= self@);
        out
    }
}

proof fn lemma_records_round_trip(rs: Seq<Record>)
    ensures
        decode_records_spec(rs.map_values(|r: Record| as_elements(r.fields()))) == Ok::<Seq<Record>, Error>(rs),
    decreases rs.len(),
{
    let m = rs.map_values(|r: Record| as_elements(r.fields()));
    if rs.len() > 0 {
        lemma_records_round_trip(rs.drop_last());
        assert(m.drop_last() =~= rs.drop_last().map_values(|r: Record| as_elements(r.fields())));
        lemma_round_trip(rs.last());
        assert(m.last() == as_elements(rs.last().fields()));
        assert(decode_spec(m.last()) == Ok::<Record, Error>(rs.last()));
        assert(decode_records_spec(m.drop_last()) == Ok::<Seq<Record>, Error>(rs.drop_last()));
        assert(rs.drop_last().push(rs.last()) =~= rs);
    } else {
        assert(rs =~= Seq::<Record>::empty());
    }
}

/// Decoding the encoding of a store whose identities are distinct gives the
/// store back, identity for identity and record for record.
pub proof fn lemma_store_round_trip(v: Seq<Usage>)
    requires
        keys_unique(v),
    ensures
        decode_store_spec(as_stored(encode_store_spec(v))) == Ok::<Seq<Usage>, Error>(v),
    decreases v.len(),
{
    let m = as_stored(encode_store_spec(v));
    if v.len() > 0 {
        let p = v.drop_last();
        assert(keys_unique(p));
        lemma_store_round_trip(p);
        assert(m.drop_last() =~= as_stored(encode_store_spec(p)));
        let rs = v.last().1;
        assert(rs.map_values(|r: Record| r.fields()).map_values(|f: Seq<u64>| as_elements(f))
            =~= rs.map_values(|r: Record| as_elements(r.fields())));
        lemma_records_round_trip(rs);
        assert(m.last() == (v.last().0, Ok::<Seq<Seq<Element>>, JsonType>(rs.map_values(|r: Record| as_elements(r.fields())))));
        assert(decode_stored_spec(m.last().1) == Ok::<Seq<Record>, Error>(rs));
        assert(!has_key(p, v.last().0)) by {
            if has_key(p, v.last().0) {
                let k = choose|k: int| 0 <= k < p.len() && p[k].0 == v.last().0;
                assert(v[k].0 == v[v.len() - 1].0);
            }
        }
        assert(p.push(v.last()) =~= v);
    } else {
        assert(v =~= Seq::<Usage>::empty());
    }
}

} // verus!
