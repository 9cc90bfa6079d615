use vstd::prelude::*;
use crate::record::Record;

verus! {

/// The cost of one record, in dollars times one billion.
pub open spec fn record_cost(r: Record) -> int {
    r.input * r.input_weight + r.output * r.output_weight
}

/// The cost of all records, in dollars times one billion.
pub open spec fn total_cost(s: Seq<Record>) -> int
    decreases s.len(),
{
    if s.len() == 0 {
        0
    } else {
        total_cost(s.drop_last()) + record_cost(s.last())
    }
}

/// The cost of all records in thousandths of a dollar, rounded down.
pub open spec fn cost_millis(s: Seq<Record>) -> int {
    total_cost(s) / 1_000_000
}

pub open spec fn digit(d: nat) -> char {
    ((d % 10) + 48) as char
}

/// The decimal digits of `n`, without leading zeros.
pub open spec fn decimal(n: nat) -> Seq<char>
    decreases n,
{
    if n < 10 {
        seq![digit(n)]
    } else {
        decimal(n / 10).push(digit(n % 10))
    }
}

/// An amount of thousandths shown with three fractional digits, as `12.345`.
pub open spec fn fixed3(m: nat) -> Seq<char> {
    decimal(m / 1000) + seq!['.', digit((m % 1000) / 100), digit((m % 100) / 10), digit(m % 10)]
}

/// Relies on std's `String: FromIterator<&char>`: the string of the characters in order.
#[verifier::external_body]
fn string_of_chars(v: &Vec<char>) -> (r: String)
    ensures
        r@ == v@,
{
    String::from_iter(v.iter())
}

fn digit_char(d: u64) -> (c: char)
    requires
        d < 10,
    ensures
        c == digit(d as nat),
{
    let b: u8 = d as u8 + 48;
    b as char
}

fn push_decimal(n: u64, out: &mut Vec<char>)
    ensures
        final(out)@ == old(out)@ + decimal(n as nat),
    decreases n,
{
    if n < 10 {
        out.push(digit_char(n));
    } else {
        push_decimal(n / 10, out);
        out.push(digit_char(n % 10));
    }
}

/// Returns the cost of `records` in dollars, with three fractional digits and
/// no currency unit. Costs are summed as integers and rounded down to
/// thousandths of a dollar once, at the end.
pub fn calc_usage(records: &[Record]) -> (r: String)
    requires
        total_cost(records@) <= u64::MAX,
    ensures
        r@ == fixed3(cost_millis(records@) as nat),
{
    let mut total: u64 = 0;
    let mut i: usize = 0;
    while i < records.len()
        invariant
            i <= records@.len(),
            total == total_cost(records@.take(i as int)),
            total_cost(records@) <= u64::MAX,
        decreases records@.len() - i,
    {
        let r = records[i];
        proof {
            assert(records@.take(i + 1).drop_last() =~= records@.take(i as int));
            lemma_prefix_cost_bounded(records@, i + 1);
            assert(total_cost(records@.take(i + 1)) == total + record_cost(r));
            assert(r.input * r.input_weight >= 0) by (nonlinear_arith);
            assert(r.output * r.output_weight >= 0) by (nonlinear_arith);
        }
        let a: u64 = r.input * r.input_weight;
        let b: u64 = r.output * r.output_weight;
        total = total + a + b;
        i = i + 1;
    }
    assert(records@.take(records@.len() as int) =~= records@);
    let millis: u64 = total / 1_000_000;
    let mut chars: Vec<char> = Vec::new();
    push_decimal(millis / 1000, &mut chars);
    chars.push('.');
    chars.push(digit_char((millis % 1000) / 100));
    chars.push(digit_char((millis % 100) / 10));
    chars.push(digit_char(millis % 10));
    assert(chars@ =~= fixed3(millis as nat));
    string_of_chars(&chars)
}

proof fn lemma_cost_nonneg(s: Seq<Record>)
    ensures
        total_cost(s) >= 0,
    decreases s.len(),
{
    if s.len() > 0 {
        lemma_cost_nonneg(s.drop_last());
        let r = s.last();
        assert(r.input * r.input_weight >= 0) by (nonlinear_arith);
        assert(r.output * r.output_weight >= 0) by (nonlinear_arith);
    }
}

proof fn lemma_prefix_cost_bounded(s: Seq<Record>, n: int)
    requires
        0 <= n <= s.len(),
    ensures
        0 <= total_cost(s.take(n)) <= total_cost(s),
    decreases s.len(),
{
    lemma_cost_nonneg(s.take(n));
    if n < s.len() {
        assert(s.drop_last().take(n) =~= s.take(n));
        lemma_prefix_cost_bounded(s.drop_last(), n);
        let r = s.last();
        assert(r.input * r.input_weight >= 0) by (nonlinear_arith);
        assert(r.output * r.output_weight >= 0) by (nonlinear_arith);
    } else {
        assert(s.take(n) =~= s);
    }
}

proof fn lemma_insert_cost(s: Seq<Record>, i: int, x: Record)
    requires
        0 <= i <= s.len(),
    ensures
        total_cost(s.insert(i, x)) == total_cost(s) + record_cost(x),
    decreases s.len(),
{
    if i == s.len() {
        assert(s.insert(i, x).drop_last() =~= s);
    } else {
        lemma_insert_cost(s.drop_last(), i, x);
        assert(s.insert(i, x).drop_last() =~= s.drop_last().insert(i, x));
    }
}

/// Adding a record anywhere in a sequence never lowers its cost.
pub proof fn lemma_cost_monotonic(s: Seq<Record>, i: int, x: Record)
    requires
        0 <= i <= s.len(),
    ensures
        total_cost(s.insert(i, x)) >= total_cost(s),
        cost_millis(s.insert(i, x)) >= cost_millis(s),
{
    lemma_insert_cost(s, i, x);
    assert(x.input * x.input_weight >= 0) by (nonlinear_arith);
    assert(x.output * x.output_weight >= 0) by (nonlinear_arith);
    let a = total_cost(s);
    let b = total_cost(s.insert(i, x));
    assert(a <= b ==> a / 1_000_000 <= b / 1_000_000) by (nonlinear_arith);
}

} // verus!
