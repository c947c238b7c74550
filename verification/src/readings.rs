use vstd::prelude::*;

verus! {

pub open spec fn min_of(a: int, b: int) -> int {
    if a <= b {
        a
    } else {
        b
    }
}

pub open spec fn max_of(a: int, b: int) -> int {
    if a >= b {
        a
    } else {
        b
    }
}

/// The lowest of a non-empty sequence of readings.
pub open spec fn lowest(r: Seq<i16>) -> int
    decreases r.len(),
{
    if r.len() <= 1 {
        r[0] as int
    } else {
        min_of(lowest(r.drop_last()), r.last() as int)
    }
}

/// The highest of a non-empty sequence of readings.
pub open spec fn highest(r: Seq<i16>) -> int
    decreases r.len(),
{
    if r.len() <= 1 {
        r[0] as int
    } else {
        max_of(highest(r.drop_last()), r.last() as int)
    }
}

/// The sum of a sequence of readings.
pub open spec fn total(r: Seq<i16>) -> int
    decreases r.len(),
{
    if r.len() == 0 {
        0
    } else {
        total(r.drop_last()) + r.last()
    }
}

/// The lowest, highest and total of two non-empty runs of readings put end to
/// end are the lowest of the two lowests, the highest of the two highests and
/// the sum of the two totals.
pub proof fn lemma_concat_summaries(r1: Seq<i16>, r2: Seq<i16>)
    requires
        r1.len() > 0,
        r2.len() > 0,
    ensures
        lowest(r1 + r2) == min_of(lowest(r1), lowest(r2)),
        highest(r1 + r2) == max_of(highest(r1), highest(r2)),
        total(r1 + r2) == total(r1) + total(r2),
    decreases r2.len(),
{
    let r = r1 + r2;
    assert(r.drop_last() == r1 + r2.drop_last());
    if r2.len() == 1 {
        assert(r2.drop_last() =~= Seq::<i16>::empty());
        assert(r1 + r2.drop_last() =~= r1);
        assert(total(r2.drop_last()) == 0);
    } else {
        lemma_concat_summaries(r1, r2.drop_last());
    }
}

/// Every reading lies between the lowest and the highest, and the total of
/// `n` readings of 16 bits lies between `n` times the least and `n` times the
/// greatest value of that width.
pub proof fn lemma_summary_bounds(r: Seq<i16>)
    requires
        r.len() > 0,
    ensures
        i16::MIN <= lowest(r) <= highest(r) <= i16::MAX,
        -32768 * r.len() <= total(r) <= 32767 * r.len(),
    decreases r.len(),
{
    if r.len() > 1 {
        lemma_summary_bounds(r.drop_last());
    } else {
        assert(total(r.drop_last()) == 0);
    }
}

/// The summary of a single reading is that reading, once.
pub proof fn lemma_single_summary(t: i16)
    ensures
        lowest(seq![t]) == t,
        highest(seq![t]) == t,
        total(seq![t]) == t,
{
    assert(seq![t].drop_last().len() == 0);
    assert(total(seq![t].drop_last()) == 0);
}

} // verus!
