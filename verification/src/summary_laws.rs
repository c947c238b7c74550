use vstd::prelude::*;
use std::ops::Range;
use crate::lines::{
    ends_on_line_boundary, lemma_line_count_bound, lemma_lines_concat, line_records,
};
use crate::metrics::{
    all_wf, count_in, count_in_all, lemma_count_in_all_nonnegative, lemma_merge_counts, merge_all,
    is_mean_half_up, lemma_render_row_mean, merge_maps, merged_summary, newl, render_row, single_summary, tally, updated_summary, Aggregate,
    READING_LIMIT,
};
use crate::readings::{
    highest, lemma_concat_summaries, lemma_single_summary, lemma_summary_bounds, lowest, total,
};

verus! {

/// The readings of `station` among `records`, in order.
pub open spec fn readings_of(records: Seq<(Seq<u8>, i16)>, station: Seq<u8>) -> Seq<i16>
    decreases records.len(),
{
    if records.len() == 0 {
        Seq::empty()
    } else if records.last().0 == station {
        readings_of(records.drop_last(), station).push(records.last().1)
    } else {
        readings_of(records.drop_last(), station)
    }
}

/// A summary is determined by the readings it summarizes.
pub proof fn lemma_summary_unique(a: Aggregate, b: Aggregate, r: Seq<i16>)
    requires
        a.summarizes(r),
        b.summarizes(r),
    ensures
        a == b,
{
}

/// Folding a reading into the summary of readings `r` gives the summary of
/// `r` followed by that reading.
pub proof fn lemma_update_summarizes(a: Aggregate, r: Seq<i16>, t: i16)
    requires
        a.summarizes(r),
        r.len() < READING_LIMIT,
    ensures
        updated_summary(a, t).summarizes(r.push(t)),
{
    lemma_summary_bounds(r);
    lemma_single_summary(t);
    lemma_concat_summaries(r, seq![t]);
    assert(r + seq![t] =~= r.push(t));
}

/// Merging the summaries of two runs of readings gives the summary of the
/// two runs put end to end.
pub proof fn lemma_merge_summarizes(a: Aggregate, b: Aggregate, r1: Seq<i16>, r2: Seq<i16>)
    requires
        a.summarizes(r1),
        b.summarizes(r2),
        r1.len() + r2.len() <= READING_LIMIT,
    ensures
        merged_summary(a, b).summarizes(r1 + r2),
{
    lemma_summary_bounds(r1);
    lemma_summary_bounds(r2);
    lemma_concat_summaries(r1, r2);
}

/// Taking in records one by one, starting from no station, leaves exactly
/// the stations that occur in them, each with the summary (lowest, highest,
/// sum, count) of its readings.
pub proof fn lemma_tally_summarizes(records: Seq<(Seq<u8>, i16)>)
    requires
        records.len() <= READING_LIMIT,
    ensures
        forall|k: Seq<u8>|
            #[trigger] tally(Map::empty(), records).contains_key(k) <==> readings_of(records, k).len()
                > 0,
        forall|k: Seq<u8>|
            #[trigger] tally(Map::empty(), records).contains_key(k) ==> tally(
                Map::empty(),
                records,
            )[k].summarizes(readings_of(records, k)),
    decreases records.len(),
{
    if records.len() > 0 {
        let prev = records.drop_last();
        let (station, t) = records.last();
        lemma_tally_summarizes(prev);
        lemma_readings_bounded(prev, station);
        lemma_single_summary(t);
        let before = tally(Map::empty(), prev);
        if before.contains_key(station) {
            lemma_update_summarizes(before[station], readings_of(prev, station), t);
        }
        assert forall|k: Seq<u8>|
            #[trigger] tally(Map::empty(), records).contains_key(k) <==> readings_of(records, k).len()
                > 0 by {
            if k != station {
                assert(readings_of(records, k) == readings_of(prev, k));
            }
        }
        assert forall|k: Seq<u8>| #[trigger]
            tally(Map::empty(), records).contains_key(k) implies tally(
            Map::empty(),
            records,
        )[k].summarizes(readings_of(records, k)) by {
            if k != station {
                assert(readings_of(records, k) == readings_of(prev, k));
            } else if !before.contains_key(station) {
                assert(readings_of(prev, station).len() == 0);
                assert(readings_of(records, k) =~= seq![t]);
            }
        }
    }
}

/// A station has no more readings than there are records.
pub proof fn lemma_readings_bounded(records: Seq<(Seq<u8>, i16)>, station: Seq<u8>)
    ensures
        readings_of(records, station).len() <= records.len(),
    decreases records.len(),
{
    if records.len() > 0 {
        lemma_readings_bounded(records.drop_last(), station);
    }
}

/// The readings of a station among two runs of records put end to end are
/// its readings among the first run followed by those among the second.
pub proof fn lemma_readings_concat(
    r1: Seq<(Seq<u8>, i16)>,
    r2: Seq<(Seq<u8>, i16)>,
    station: Seq<u8>,
)
    ensures
        readings_of(r1 + r2, station) == readings_of(r1, station) + readings_of(r2, station),
    decreases r2.len(),
{
    if r2.len() == 0 {
        assert(r1 + r2 =~= r1);
    } else {
        assert((r1 + r2).drop_last() =~= r1 + r2.drop_last());
        lemma_readings_concat(r1, r2.drop_last(), station);
    }
}

/// Taking in two runs of records one after the other is taking in the two
/// runs put end to end.
pub proof fn lemma_tally_concat(
    m: Map<Seq<u8>, Aggregate>,
    r1: Seq<(Seq<u8>, i16)>,
    r2: Seq<(Seq<u8>, i16)>,
)
    ensures
        tally(tally(m, r1), r2) == tally(m, r1 + r2),
    decreases r2.len(),
{
    if r2.len() == 0 {
        assert(r1 + r2 =~= r1);
    } else {
        assert((r1 + r2).drop_last() =~= r1 + r2.drop_last());
        lemma_tally_concat(m, r1, r2.drop_last());
    }
}

/// Computing over text cut at a line boundary, one piece after the other,
/// gives what computing over the whole text gives.
pub proof fn lemma_compute_in_pieces(m: Map<Seq<u8>, Aggregate>, s1: Seq<u8>, s2: Seq<u8>)
    requires
        ends_on_line_boundary(s1),
    ensures
        tally(tally(m, line_records(s1)), line_records(s2)) == tally(m, line_records(s1 + s2)),
{
    lemma_lines_concat(s1, s2);
    assert(line_records(s1 + s2) =~= line_records(s1) + line_records(s2));
    lemma_tally_concat(m, line_records(s1), line_records(s2));
}

/// Summarizing two runs of records separately and merging the results gives
/// the summaries of the two runs put end to end: the pieces of a file can be
/// computed apart and merged.
pub proof fn lemma_merge_tallies(r1: Seq<(Seq<u8>, i16)>, r2: Seq<(Seq<u8>, i16)>)
    requires
        r1.len() + r2.len() <= READING_LIMIT,
    ensures
        merge_maps(tally(Map::empty(), r1), tally(Map::empty(), r2)) == tally(
            Map::empty(),
            r1 + r2,
        ),
{
    let a = tally(Map::empty(), r1);
    let b = tally(Map::empty(), r2);
    let c = tally(Map::empty(), r1 + r2);
    lemma_tally_summarizes(r1);
    lemma_tally_summarizes(r2);
    lemma_tally_summarizes(r1 + r2);
    assert forall|k: Seq<u8>| #[trigger] merge_maps(a, b).contains_key(k) == c.contains_key(k) by {
        lemma_readings_concat(r1, r2, k);
    }
    assert forall|k: Seq<u8>| #[trigger] c.contains_key(k) implies merge_maps(a, b)[k] == c[k] by {
        lemma_readings_concat(r1, r2, k);
        lemma_readings_bounded(r1, k);
        lemma_readings_bounded(r2, k);
        let x = readings_of(r1, k);
        let y = readings_of(r2, k);
        if a.contains_key(k) && b.contains_key(k) {
            lemma_merge_summarizes(a[k], b[k], x, y);
            lemma_summary_unique(merged_summary(a[k], b[k]), c[k], x + y);
        } else if a.contains_key(k) {
            assert(x + y =~= x);
            lemma_summary_unique(a[k], c[k], x);
        } else {
            assert(x.len() == 0);
            assert(x + y =~= y);
            assert(b.contains_key(k));
            lemma_summary_unique(b[k], c[k], y);
        }
    }
    assert(merge_maps(a, b) =~= c);
}


/// A text holds no more records than it holds bytes.
pub proof fn lemma_record_count_bound(s: Seq<u8>)
    ensures
        line_records(s).len() <= s.len(),
{
    lemma_line_count_bound(s);
}

/// Computing two pieces of a text cut at a line boundary apart and merging
/// the results gives what computing the whole text gives.
pub proof fn lemma_merge_pieces(s1: Seq<u8>, s2: Seq<u8>)
    requires
        ends_on_line_boundary(s1),
        s1.len() + s2.len() <= READING_LIMIT,
    ensures
        merge_maps(tally(Map::empty(), line_records(s1)), tally(Map::empty(), line_records(s2)))
            == tally(Map::empty(), line_records(s1 + s2)),
{
    lemma_lines_concat(s1, s2);
    assert(line_records(s1 + s2) =~= line_records(s1) + line_records(s2));
    lemma_record_count_bound(s1);
    lemma_record_count_bound(s2);
    lemma_merge_tallies(line_records(s1), line_records(s2));
}

/// The pieces put end to end.
pub open spec fn concat_pieces(pieces: Seq<Seq<u8>>) -> Seq<u8>
    decreases pieces.len(),
{
    if pieces.len() == 0 {
        Seq::empty()
    } else {
        pieces[0] + concat_pieces(pieces.drop_first())
    }
}

/// What computing each piece from no station gives.
pub open spec fn piece_tallies(pieces: Seq<Seq<u8>>) -> Seq<Map<Seq<u8>, Aggregate>> {
    pieces.map_values(|p: Seq<u8>| tally(Map::empty(), line_records(p)))
}

/// Every piece but the last ends a line.
pub open spec fn pieces_end_lines(pieces: Seq<Seq<u8>>) -> bool {
    forall|i: int| 0 <= i < pieces.len() - 1 ==> ends_on_line_boundary(#[trigger] pieces[i])
}

proof fn lemma_merge_all_pieces_from(prefix: Seq<u8>, pieces: Seq<Seq<u8>>)
    requires
        ends_on_line_boundary(prefix),
        pieces_end_lines(pieces),
        prefix.len() + concat_pieces(pieces).len() <= READING_LIMIT,
    ensures
        merge_all(tally(Map::empty(), line_records(prefix)), piece_tallies(pieces)) == tally(
            Map::empty(),
            line_records(prefix + concat_pieces(pieces)),
        ),
    decreases pieces.len(),
{
    if pieces.len() == 0 {
        assert(prefix + concat_pieces(pieces) =~= prefix);
    } else {
        let first = pieces[0];
        let rest = pieces.drop_first();
        assert(piece_tallies(pieces).drop_first() =~= piece_tallies(rest));
        assert(piece_tallies(pieces)[0] == tally(Map::<Seq<u8>, Aggregate>::empty(), line_records(first)));
        lemma_merge_pieces(prefix, first);
        let next = prefix + first;
        assert(prefix + concat_pieces(pieces) =~= next + concat_pieces(rest));
        if rest.len() == 0 {
            assert(next + concat_pieces(rest) =~= next);
            assert(piece_tallies(rest).len() == 0);
        } else {
            assert(ends_on_line_boundary(first));
            if first.len() > 0 {
                assert(next.last() == first.last());
            } else {
                assert(next =~= prefix);
            }
            assert forall|i: int| 0 <= i < rest.len() - 1 implies ends_on_line_boundary(
                #[trigger] rest[i],
            ) by {
                assert(rest[i] == pieces[i + 1]);
            }
            lemma_merge_all_pieces_from(next, rest);
        }
    }
}

/// Cutting a text into pieces at line boundaries, computing each piece
/// apart and merging the results in order gives what computing the whole
/// text gives: each station with the summary of all its readings.
pub proof fn lemma_merge_all_pieces(pieces: Seq<Seq<u8>>)
    requires
        pieces_end_lines(pieces),
        concat_pieces(pieces).len() <= READING_LIMIT,
    ensures
        merge_all(Map::empty(), piece_tallies(pieces)) == tally(
            Map::empty(),
            line_records(concat_pieces(pieces)),
        ),
{
    let empty = Seq::<u8>::empty();
    crate::lines::lemma_no_lines(empty);
    assert(line_records(empty) =~= Seq::<(Seq<u8>, i16)>::empty());
    assert(tally(Map::<Seq<u8>, Aggregate>::empty(), line_records(empty)) == Map::<
        Seq<u8>,
        Aggregate,
    >::empty());
    lemma_merge_all_pieces_from(empty, pieces);
    assert(empty + concat_pieces(pieces) =~= concat_pieces(pieces));
}


/// Computing a text in one pass is computing a prefix that ends a line and
/// then the rest.
pub proof fn lemma_compute_split(m: Map<Seq<u8>, Aggregate>, s: Seq<u8>, k: int)
    requires
        0 <= k <= s.len(),
        k == 0 || s[k - 1] == newl,
    ensures
        tally(tally(m, line_records(s.take(k))), line_records(s.skip(k))) == tally(
            m,
            line_records(s),
        ),
{
    assert(s.take(k) + s.skip(k) =~= s);
    lemma_compute_in_pieces(m, s.take(k), s.skip(k));
}

/// Folding two readings into a summary in either order gives the same
/// summary, where no sum or count leaves its range.
pub proof fn lemma_update_order(a: Aggregate, x: i16, y: i16)
    requires
        i64::MIN <= a.sum + x <= i64::MAX,
        i64::MIN <= a.sum + y <= i64::MAX,
        i64::MIN <= a.sum + x + y <= i64::MAX,
        a.count + 2 <= i64::MAX,
    ensures
        updated_summary(updated_summary(a, x), y) == updated_summary(updated_summary(a, y), x),
{
}

/// The summary built from the readings `r` one by one: a new summary of the
/// first, then each of the others folded in.
pub open spec fn summary_of(r: Seq<i16>) -> Aggregate
    decreases r.len(),
{
    if r.len() <= 1 {
        single_summary(r[0])
    } else {
        updated_summary(summary_of(r.drop_last()), r.last())
    }
}

/// Building a summary reading by reading gives the summary of the readings.
pub proof fn lemma_summary_of_summarizes(r: Seq<i16>)
    requires
        0 < r.len() <= READING_LIMIT,
    ensures
        summary_of(r).summarizes(r),
    decreases r.len(),
{
    if r.len() == 1 {
        lemma_single_summary(r[0]);
        assert(r =~= seq![r[0]]);
    } else {
        lemma_summary_of_summarizes(r.drop_last());
        lemma_update_summarizes(summary_of(r.drop_last()), r.drop_last(), r.last());
        assert(r.drop_last().push(r.last()) =~= r);
    }
}

/// Merging the summary of `r1` with that of `r2` is building the summary of
/// `r1` followed by `r2` reading by reading.
pub proof fn lemma_merge_is_updates(r1: Seq<i16>, r2: Seq<i16>)
    requires
        r1.len() > 0,
        r2.len() > 0,
        r1.len() + r2.len() <= READING_LIMIT,
    ensures
        merged_summary(summary_of(r1), summary_of(r2)) == summary_of(r1 + r2),
{
    lemma_summary_of_summarizes(r1);
    lemma_summary_of_summarizes(r2);
    lemma_summary_of_summarizes(r1 + r2);
    lemma_merge_summarizes(summary_of(r1), summary_of(r2), r1, r2);
    lemma_summary_unique(merged_summary(summary_of(r1), summary_of(r2)), summary_of(r1 + r2), r1 + r2);
}


/// The pieces of `buf` that `ranges` select.
pub open spec fn range_pieces(buf: Seq<u8>, ranges: Seq<Range<usize>>) -> Seq<Seq<u8>> {
    ranges.map_values(|r: Range<usize>| buf.subrange(r.start as int, r.end as int))
}

/// Ranges that follow one another and reach the end of `buf` select pieces
/// that, put end to end, are `buf` from the first range's start.
proof fn lemma_tiling_concat(buf: Seq<u8>, ranges: Seq<Range<usize>>)
    requires
        ranges.len() > 0,
        forall|i: int| 0 <= i < ranges.len() ==> (#[trigger] ranges[i]).start < ranges[i].end,
        forall|i: int, j: int|
            0 <= i && j == i + 1 && j < ranges.len() ==> (#[trigger] ranges[i]).end
                == (#[trigger] ranges[j]).start,
        ranges.last().end == buf.len(),
    ensures
        ranges[0].start < buf.len(),
        forall|i: int| 0 <= i < ranges.len() ==> (#[trigger] ranges[i]).end <= buf.len(),
        concat_pieces(range_pieces(buf, ranges)) == buf.subrange(ranges[0].start as int, buf.len() as int),
    decreases ranges.len(),
{
    let pieces = range_pieces(buf, ranges);
    let rest = ranges.drop_first();
    assert(pieces.drop_first() =~= range_pieces(buf, rest));
    if ranges.len() == 1 {
        assert(ranges[0] == ranges.last());
        assert(range_pieces(buf, rest).len() == 0);
        assert(concat_pieces(pieces.drop_first()) =~= Seq::<u8>::empty());
        assert(pieces[0] + Seq::<u8>::empty() =~= pieces[0]);
    } else {
        assert(ranges[0].end == ranges[1].start);
        assert forall|i: int, j: int|
            0 <= i && j == i + 1 && j < rest.len() implies (#[trigger] rest[i]).end
                == (#[trigger] rest[j]).start by {
            assert(rest[i] == ranges[i + 1]);
            assert(rest[j] == ranges[j + 1]);
        }
        lemma_tiling_concat(buf, rest);
        assert(rest[0] == ranges[1]);
        assert(pieces[0] == buf.subrange(ranges[0].start as int, ranges[0].end as int));
        assert forall|i: int| 0 <= i < ranges.len() implies (#[trigger] ranges[i]).end
            <= buf.len() by {
            if i > 0 {
                assert(ranges[i] == rest[i - 1]);
            }
        }
        assert(buf.subrange(ranges[0].start as int, ranges[0].end as int) + buf.subrange(
            ranges[1].start as int,
            buf.len() as int,
        ) =~= buf.subrange(ranges[0].start as int, buf.len() as int));
    }
}

/// Computing each range that `chunks` gives apart, from no station, and
/// merging the results in order gives what computing the whole buffer
/// gives: the ranges cover the buffer and each but the last ends a line.
pub proof fn lemma_chunked_compute(buf: Seq<u8>, ranges: Seq<Range<usize>>)
    requires
        buf.len() <= READING_LIMIT,
        buf.len() == 0 ==> ranges.len() == 0,
        buf.len() > 0 ==> {
            &&& ranges.len() >= 1
            &&& ranges[0].start == 0
            &&& ranges.last().end == buf.len()
        },
        forall|i: int| 0 <= i < ranges.len() ==> (#[trigger] ranges[i]).start < ranges[i].end,
        forall|i: int, j: int|
            0 <= i && j == i + 1 && j < ranges.len() ==> (#[trigger] ranges[i]).end
                == (#[trigger] ranges[j]).start,
        forall|i: int| 0 <= i < ranges.len() - 1 ==> buf[(#[trigger] ranges[i]).end - 1] == newl,
    ensures
        merge_all(Map::empty(), piece_tallies(range_pieces(buf, ranges))) == tally(
            Map::empty(),
            line_records(buf),
        ),
{
    let pieces = range_pieces(buf, ranges);
    if buf.len() == 0 {
        assert(piece_tallies(pieces).len() == 0);
        crate::lines::lemma_no_lines(buf);
        assert(line_records(buf) =~= Seq::<(Seq<u8>, i16)>::empty());
    } else {
        lemma_tiling_concat(buf, ranges);
        assert(buf.subrange(0, buf.len() as int) =~= buf);
        assert forall|i: int| 0 <= i < pieces.len() - 1 implies ends_on_line_boundary(
            #[trigger] pieces[i],
        ) by {
            let r = ranges[i];
            assert(pieces[i] == buf.subrange(r.start as int, r.end as int));
            assert(pieces[i].last() == buf[r.end - 1]);
        }
        lemma_merge_all_pieces(pieces);
    }
}


/// Merging two sets of summaries into a third in either order gives the
/// same summaries, where no count leaves `READING_LIMIT`.
pub proof fn lemma_merge_exchange(
    x: Map<Seq<u8>, Aggregate>,
    a: Map<Seq<u8>, Aggregate>,
    b: Map<Seq<u8>, Aggregate>,
)
    requires
        all_wf(x),
        all_wf(a),
        all_wf(b),
        forall|k: Seq<u8>| count_in(x, k) + count_in(a, k) + count_in(b, k) <= READING_LIMIT,
    ensures
        merge_maps(merge_maps(x, a), b) == merge_maps(merge_maps(x, b), a),
{
    let left = merge_maps(merge_maps(x, a), b);
    let right = merge_maps(merge_maps(x, b), a);
    assert forall|k: Seq<u8>| #[trigger] left.contains_key(k) implies left[k] == right[k] by {
        assert(count_in(x, k) + count_in(a, k) + count_in(b, k) <= READING_LIMIT);
        if x.contains_key(k) {
            assert(x[k].wf());
        }
        if a.contains_key(k) {
            assert(a[k].wf());
        }
        if b.contains_key(k) {
            assert(b[k].wf());
        }
    }
    assert(left =~= right);
}

/// Merging in the `j`-th of `others` first gives what merging them in order
/// gives.
proof fn lemma_merge_all_front(
    x: Map<Seq<u8>, Aggregate>,
    others: Seq<Map<Seq<u8>, Aggregate>>,
    j: int,
)
    requires
        0 <= j < others.len(),
        all_wf(x),
        forall|i: int| 0 <= i < others.len() ==> all_wf(#[trigger] others[i]),
        forall|k: Seq<u8>| count_in(x, k) + count_in_all(others, k) <= READING_LIMIT,
    ensures
        merge_all(x, others) == merge_all(merge_maps(x, others[j]), others.remove(j)),
    decreases j,
{
    if j == 0 {
        assert(others.remove(0) =~= others.drop_first());
    } else {
        let first = others[0];
        let rest = others.drop_first();
        let x1 = merge_maps(x, first);
        assert(all_wf(first));
        assert forall|k: Seq<u8>| count_in(x, k) + count_in(first, k) <= READING_LIMIT by {
            lemma_count_in_all_nonnegative(rest, k);
        }
        lemma_merge_counts(x, first);
        assert forall|i: int| 0 <= i < rest.len() implies all_wf(#[trigger] rest[i]) by {
            assert(rest[i] == others[i + 1]);
        }
        lemma_merge_all_front(x1, rest, j - 1);
        // merge_all(x, others) == merge_all(merge_maps(x1, rest[j - 1]), rest.remove(j - 1))
        let moved = others.remove(j);
        assert(moved[0] == first);
        assert(moved.drop_first() =~= rest.remove(j - 1));
        assert(rest[j - 1] == others[j]);
        assert(all_wf(others[j]));
        assert forall|k: Seq<u8>|
            count_in(x, k) + count_in(first, k) + count_in(others[j], k) <= READING_LIMIT by {
            lemma_count_in_all_remove(rest, j - 1, k);
            lemma_count_in_all_nonnegative(rest.remove(j - 1), k);
        }
        lemma_merge_exchange(x, first, others[j]);
    }
}

/// Removing one of `others` takes its count out of their total.
proof fn lemma_count_in_all_remove(others: Seq<Map<Seq<u8>, Aggregate>>, j: int, k: Seq<u8>)
    requires
        0 <= j < others.len(),
    ensures
        count_in_all(others, k) == count_in(others[j], k) + count_in_all(others.remove(j), k),
    decreases j,
{
    if j > 0 {
        lemma_count_in_all_remove(others.drop_first(), j - 1, k);
        assert(others.remove(j).drop_first() =~= others.drop_first().remove(j - 1));
        assert(others.remove(j)[0] == others[0]);
    } else {
        assert(others.remove(0) =~= others.drop_first());
    }
}

/// The order in which summaries are merged does not matter: merging the
/// same sets of summaries in any order gives the same result, where no
/// count leaves `READING_LIMIT`.
pub proof fn lemma_merge_order(
    x: Map<Seq<u8>, Aggregate>,
    others: Seq<Map<Seq<u8>, Aggregate>>,
    reordered: Seq<Map<Seq<u8>, Aggregate>>,
)
    requires
        others.to_multiset() == reordered.to_multiset(),
        all_wf(x),
        forall|i: int| 0 <= i < others.len() ==> all_wf(#[trigger] others[i]),
        forall|k: Seq<u8>| count_in(x, k) + count_in_all(others, k) <= READING_LIMIT,
        forall|k: Seq<u8>| count_in(x, k) + count_in_all(reordered, k) <= READING_LIMIT,
    ensures
        merge_all(x, others) == merge_all(x, reordered),
    decreases others.len(),
{
    broadcast use vstd::seq_lib::to_multiset_len, vstd::seq_lib::to_multiset_contains,
        vstd::seq_lib::to_multiset_remove;

    vstd::seq_lib::to_multiset_len(others);
    vstd::seq_lib::to_multiset_len(reordered);
    assert(others.len() == reordered.len());
    if others.len() > 0 {
        let first = others[0];
        assert(others.contains(first));
        assert(others.to_multiset().count(first) > 0);
        assert(reordered.to_multiset().count(first) > 0);
        assert(reordered.contains(first));
        let j = choose|j: int| 0 <= j < reordered.len() && reordered[j] == first;
        assert forall|i: int| 0 <= i < reordered.len() implies all_wf(#[trigger] reordered[i]) by {
            assert(reordered.contains(reordered[i]));
            assert(reordered.to_multiset().count(reordered[i]) > 0);
            assert(others.contains(reordered[i]));
            let l = choose|l: int| 0 <= l < others.len() && others[l] == reordered[i];
        }
        lemma_merge_all_front(x, reordered, j);
        let rest = others.drop_first();
        let rest2 = reordered.remove(j);
        assert(others.remove(0) =~= rest);
        assert(rest.to_multiset() == others.to_multiset().remove(first));
        assert(rest2.to_multiset() == reordered.to_multiset().remove(first));
        let x1 = merge_maps(x, first);
        assert(all_wf(first));
        assert forall|k: Seq<u8>| count_in(x, k) + count_in(first, k) <= READING_LIMIT by {
            lemma_count_in_all_nonnegative(rest, k);
        }
        lemma_merge_counts(x, first);
        assert forall|i: int| 0 <= i < rest.len() implies all_wf(#[trigger] rest[i]) by {
            assert(rest[i] == others[i + 1]);
        }
        assert forall|k: Seq<u8>| count_in(x1, k) + count_in_all(rest2, k) <= READING_LIMIT by {
            lemma_count_in_all_remove(reordered, j, k);
        }
        lemma_merge_order(x1, rest, rest2);
    }
}


/// The report row of a station computed from records shows the lowest and
/// highest of its readings and the mean of all of them (their total over
/// their number), rounded to a tenth with halves upward.
pub proof fn lemma_report_row_of_readings(records: Seq<(Seq<u8>, i16)>, station: Seq<u8>)
    requires
        records.len() <= READING_LIMIT,
        readings_of(records, station).len() > 0,
    ensures
        tally(Map::empty(), records).contains_key(station),
        ({
            let r = readings_of(records, station);
            let row = render_row(station, tally(Map::empty(), records)[station]);
            &&& row.1 == lowest(r)
            &&& row.3 == highest(r)
            &&& is_mean_half_up(row.2, total(r), r.len() as int)
        }),
{
    lemma_tally_summarizes(records);
    let t = tally(Map::<Seq<u8>, Aggregate>::empty(), records);
    assert(t.contains_key(station));
    assert(t[station].summarizes(readings_of(records, station)));
    lemma_render_row_mean(station, t[station]);
}

} // verus!
