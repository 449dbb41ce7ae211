//! Running-sum expansion of delta-encoded columns.
use vstd::prelude::*;
use crate::error::OsmError;

verus! {

/// The values of a column as mathematical integers.
pub open spec fn ints(s: Seq<i64>) -> Seq<int> {
    s.map_values(|x: i64| x as int)
}

/// The sum of all elements of `s`.
pub open spec fn sum(s: Seq<int>) -> int
    decreases s.len(),
{
    if s.len() == 0 {
        0
    } else {
        sum(s.drop_last()) + s.last()
    }
}

/// The absolute values that a column of deltas stands for: element `i` is the
/// sum of the first `i + 1` deltas, the accumulator starting at zero.
pub open spec fn running_sums(d: Seq<int>) -> Seq<int> {
    Seq::new(d.len(), |i: int| sum(d.take(i + 1)))
}

/// A column of absolute values written as deltas: the first value itself,
/// then each value minus the one before it.
pub open spec fn differences(a: Seq<int>) -> Seq<int> {
    Seq::new(a.len(), |i: int| if i == 0 { a[0] } else { a[i] - a[i - 1] })
}

/// Every element lies in the range of `i64`.
pub open spec fn fits_i64(s: Seq<int>) -> bool {
    forall|i: int| 0 <= i < s.len() ==> i64::MIN <= #[trigger] s[i] <= i64::MAX
}

/// Expanding the differences of any column gives the column back.
pub proof fn lemma_delta_round_trip(a: Seq<int>)
    ensures
        running_sums(differences(a)) == a,
{
    let d = differences(a);
    assert forall|i: int| 0 <= i < a.len() implies #[trigger] sum(d.take(i + 1)) == a[i] by {
        lemma_sum_of_differences(a, i);
    }
    assert(running_sums(d) =~= a);
}

proof fn lemma_sum_of_differences(a: Seq<int>, i: int)
    requires
        0 <= i < a.len(),
    ensures
        sum(differences(a).take(i + 1)) == a[i],
    decreases i,
{
    let d = differences(a);
    assert(d.take(i + 1).drop_last() =~= d.take(i));
    assert(sum(d.take(i + 1)) == sum(d.take(i)) + d[i]);
    if i > 0 {
        lemma_sum_of_differences(a, i - 1);
    } else {
        assert(d.take(0) =~= Seq::<int>::empty());
        assert(sum(d.take(0)) == 0);
    }
}

/// The first absolute value of a column is its first delta: nothing carries
/// over from whatever column was expanded before it.
pub proof fn lemma_accumulator_starts_at_zero(d: Seq<int>)
    requires
        d.len() > 0,
    ensures
        running_sums(d)[0] == d[0],
{
    assert(d.take(1).drop_last() =~= Seq::<int>::empty());
    assert(sum(d.take(1)) == sum(Seq::<int>::empty()) + d[0]);
}

/// Expands a column of deltas into absolute values by a running sum that
/// starts at zero. Fails where a sum leaves the range of `i64`.
pub fn decode_deltas(deltas: &[i64]) -> (r: Result<Vec<i64>, OsmError>)
    ensures
        match r {
            Ok(v) => fits_i64(running_sums(ints(deltas@))) && ints(v@) == running_sums(
                ints(deltas@),
            ),
            Err(e) => e == OsmError::SchemaViolation && !fits_i64(running_sums(ints(deltas@))),
        },
{
    let ghost d = ints(deltas@);
    let mut out: Vec<i64> = Vec::new();
    let mut acc: i64 = 0;
    let mut i: usize = 0;
    while i < deltas.len()
        invariant
            i <= deltas@.len(),
            d == ints(deltas@),
            out@.len() == i,
            acc == sum(d.take(i as int)),
            forall|j: int| 0 <= j < i ==> #[trigger] out@[j] as int == sum(d.take(j + 1)),
        decreases deltas@.len() - i,
    {
        assert(d.take(i + 1).drop_last() =~= d.take(i as int));
        match acc.checked_add(deltas[i]) {
            Some(next) => {
                acc = next;
                out.push(next);
            },
            None => {
                assert(!(i64::MIN <= running_sums(d)[i as int] <= i64::MAX));
                return Err(OsmError::SchemaViolation);
            },
        }
        i = i + 1;
    }
    assert(ints(out@) =~= running_sums(d));
    Ok(out)
}

} // verus!
