use vstd::prelude::*;

verus! {

/// Where a usage store lives and whose usage is meant.
#[derive(Clone, Debug)]
pub struct RecordAt {
    pub path: String,
    pub id: String,
}

/// One metered API call. Weights are prices in dollars per one billion tokens,
/// frozen at the time the record was written.
#[derive(Clone, Copy, Debug, PartialEq, Eq, Structural)]
pub struct Record {
    pub time: u64,
    pub input: u64,
    pub output: u64,
    pub input_weight: u64,
    pub output_weight: u64,
}

/// The kinds of JSON value that the decoder tells apart in its errors.
#[derive(Clone, Copy, Debug, PartialEq, Eq, Structural)]
pub enum JsonType {
    Null,
    Boolean,
    Number,
    U64,
    String,
    Array,
    Object,
}

/// One element of an encoded record, as the decoder reads it: a non-negative
/// 64-bit integer, or a value of another kind.
#[derive(Clone, Copy, Debug, PartialEq, Eq, Structural)]
pub enum Element {
    Int(u64),
    Other(JsonType),
}

/// The value stored under an identity, as the decoder reads it: an array whose
/// members are read as encoded records, or a value of another kind.
#[derive(Clone, Debug, PartialEq, Eq)]
pub enum Stored {
    Records(Vec<Vec<Element>>),
    Other(JsonType),
}

/// A mismatch between the stored shape and the expected one.
#[derive(Clone, Copy, Debug, PartialEq, Eq, Structural)]
pub enum SchemaError {
    /// The array holds more integers than `expected`.
    TooLong { expected: usize },
    /// The array holds `got` integers, not `expected`.
    WrongLength { expected: usize, got: usize },
}

#[derive(Clone, Debug, PartialEq, Eq)]
pub enum Error {
    WrongSchema(SchemaError),
    JsonTypeError { expected: JsonType, got: JsonType },
    InvalidJson(String),
    /// The store's file could not be read or written.
    FileError(String),
}

/// Number of fields of an encoded record.
pub const RECORD_FIELDS: usize = 5;

impl Record {
    /// The encoding: `[time, input, output, input_weight, output_weight]`.
    pub open spec fn fields(self) -> Seq<u64> {
        seq![self.time, self.input, self.output, self.input_weight, self.output_weight]
    }

    pub fn encode(&self) -> (r: Vec<u64>)
        ensures
            r@ == self.fields(),
    {
        vec![self.time, self.input, self.output, self.input_weight, self.output_weight]
    }
}

pub open spec fn is_int(e: Element) -> bool {
    e is Int
}

pub open spec fn int_of(e: Element) -> u64 {
    match e {
        Element::Int(n) => n,
        Element::Other(_) => 0,
    }
}

/// The result of decoding `es`, reading from index `i` on; the elements before
/// `i` are integers.
pub open spec fn decode_from(es: Seq<Element>, i: int) -> Result<Record, Error>
    decreases es.len() - i,
{
    if i >= es.len() || i < 0 {
        if es.len() == 5 {
            Ok(
                Record {
                    time: int_of(es[0]),
                    input: int_of(es[1]),
                    output: int_of(es[2]),
                    input_weight: int_of(es[3]),
                    output_weight: int_of(es[4]),
                },
            )
        } else {
            Err(Error::WrongSchema(SchemaError::WrongLength { expected: 5, got: es.len() as usize }))
        }
    } else {
        match es[i] {
            Element::Int(_) => if i < 5 {
                decode_from(es, i + 1)
            } else {
                Err(Error::WrongSchema(SchemaError::TooLong { expected: 5 }))
            },
            Element::Other(t) => Err(Error::JsonTypeError { expected: JsonType::U64, got: t }),
        }
    }
}

/// Decoding reads the elements in order and stops at the first one that is not
/// an integer, or at a sixth integer.
pub open spec fn decode_spec(es: Seq<Element>) -> Result<Record, Error> {
    decode_from(es, 0)
}

pub open spec fn as_elements(s: Seq<u64>) -> Seq<Element> {
    s.map_values(|n: u64| Element::Int(n))
}

/// Decodes the elements of one encoded record.
pub fn decode(es: &Vec<Element>) -> (r: Result<Record, Error>)
    ensures
        r == decode_spec(es@),
{
    let mut vals: Vec<u64> = Vec::new();
    let mut i: usize = 0;
    while i < es.len()
        invariant
            i <= es@.len(),
            i <= 5,
            vals@.len() == i,
            forall|j: int| 0 <= j < i ==> is_int(#[trigger] es@[j]),
            forall|j: int| 0 <= j < i ==> #[trigger] vals@[j] == int_of(es@[j]),
            decode_spec(es@) == decode_from(es@, i as int),
        decreases es@.len() - i,
    {
        let e = es[i];
        match e {
            Element::Int(n) => {
                if i < 5 {
                    let ghost prev = vals@;
                    vals.push(n);
                    assert(forall|j: int| 0 <= j < i ==> vals@[j] == prev[j]);
                    assert(vals@[i as int] == int_of(es@[i as int]));
                } else {
                    return Err(Error::WrongSchema(SchemaError::TooLong { expected: RECORD_FIELDS }));
                }
            },
            Element::Other(t) => {
                return Err(Error::JsonTypeError { expected: JsonType::U64, got: t });
            },
        }
        proof {
            lemma_decode_step(es@, i as int);
        }
        i = i + 1;
    }
    if vals.len() != RECORD_FIELDS {
        Err(Error::WrongSchema(SchemaError::WrongLength { expected: RECORD_FIELDS, got: vals.len() }))
    } else {
        Ok(
            Record {
                time: vals[0],
                input: vals[1],
                output: vals[2],
                input_weight: vals[3],
                output_weight: vals[4],
            },
        )
    }
}

proof fn lemma_decode_step(es: Seq<Element>, i: int)
    requires
        0 <= i < es.len(),
        i < 5,
        is_int(es[i]),
    ensures
        decode_from(es, i) == decode_from(es, i + 1),
{
}

/// Decoding an encoded record gives the record back.
pub proof fn lemma_round_trip(r: Record)
    ensures
        decode_spec(as_elements(r.fields())) == Ok::<Record, Error>(r),
{
    let es = as_elements(r.fields());
    assert(decode_from(es, 5) == Ok::<Record, Error>(r));
    assert(decode_from(es, 4) == decode_from(es, 5));
    assert(decode_from(es, 3) == decode_from(es, 4));
    assert(decode_from(es, 2) == decode_from(es, 3));
    assert(decode_from(es, 1) == decode_from(es, 2));
    assert(decode_from(es, 0) == decode_from(es, 1));
}

/// Decoding fails exactly on arrays that are not five integers, and the error
/// names the mismatch: the kind of the first element that is not an integer
/// (among the first six), else a sixth integer, else the short length.
pub proof fn lemma_decode_rejects(es: Seq<Element>)
    ensures
        (decode_spec(es) is Ok) <==> (es.len() == 5 && forall|j: int| 0 <= j < 5 ==> is_int(es[j])),
        forall|i: int|
            0 <= i < es.len() && i < 6 && !is_int(es[i]) && (forall|j: int| 0 <= j < i ==> is_int(es[j]))
                ==> decode_spec(es) == Err::<Record, Error>(
                Error::JsonTypeError { expected: JsonType::U64, got: es[i]->Other_0 },
            ),
        es.len() > 5 && (forall|j: int| 0 <= j < 6 ==> is_int(es[j])) ==> decode_spec(es) == Err::<Record, Error>(
            Error::WrongSchema(SchemaError::TooLong { expected: 5 }),
        ),
        es.len() < 5 && (forall|j: int| 0 <= j < es.len() ==> is_int(es[j])) ==> decode_spec(es) == Err::<Record, Error>(
            Error::WrongSchema(SchemaError::WrongLength { expected: 5, got: es.len() as usize }),
        ),
{
    lemma_decode_from_rejects(es, 0);
}

proof fn lemma_decode_from_rejects(es: Seq<Element>, k: int)
    requires
        0 <= k <= es.len(),
        k <= 6,
        forall|j: int| 0 <= j < k && j < 5 ==> is_int(es[j]),
        k == 6 ==> is_int(es[5]),
    ensures
        k < 6 ==> ((decode_from(es, k) is Ok) <==> (es.len() == 5 && forall|j: int| k <= j < 5 ==> is_int(es[j]))),
        forall|i: int|
            k <= i < es.len() && i < 6 && !is_int(es[i]) && (forall|j: int| k <= j < i ==> is_int(es[j]))
                ==> decode_from(es, k) == Err::<Record, Error>(
                Error::JsonTypeError { expected: JsonType::U64, got: es[i]->Other_0 },
            ),
        k < 6 && es.len() > 5 && (forall|j: int| k <= j < 6 ==> is_int(es[j])) ==> decode_from(es, k) == Err::<Record, Error>(
            Error::WrongSchema(SchemaError::TooLong { expected: 5 }),
        ),
        es.len() < 5 && (forall|j: int| k <= j < es.len() ==> is_int(es[j])) ==> decode_from(es, k) == Err::<Record, Error>(
            Error::WrongSchema(SchemaError::WrongLength { expected: 5, got: es.len() as usize }),
        ),
    decreases es.len() - k,
{
    if k < es.len() && k < 6 {
        if is_int(es[k]) {
            if k < 5 {
                lemma_decode_from_rejects(es, k + 1);
            }
        }
    }
}

} // verus!
