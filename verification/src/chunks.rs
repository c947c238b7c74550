use vstd::prelude::*;
use std::ops::Range;
use crate::lines::{first_index_of, is_first_at, lemma_first_exists, lemma_first_unique};
use crate::memchr::memchr;
use crate::metrics::newl;

verus! {

/// Every even split point of `count` pieces of a buffer of `len` bytes can
/// be computed without overflow.
#[verifier::opaque]
pub open spec fn split_fits(len: int, count: int) -> bool {
    (count - 1) * len <= usize::MAX
}

/// Where the first record that begins at or after `t` starts: one past the
/// first newline at or after `t`, or the end of the buffer where there is none.
#[verifier::opaque]
pub open spec fn next_record_start(buf: Seq<u8>, t: int) -> int {
    match first_index_of(buf.skip(t), newl) {
        Some(r) => t + r + 1,
        None => buf.len() as int,
    }
}

/// The even split point of the `index`-th of `count` pieces of a buffer of
/// `len` bytes.
#[verifier::opaque]
pub open spec fn split_target(len: int, count: int, index: int) -> int {
    index * len / count
}

/// Where the `index`-th piece is cut: at the first record start at or after
/// its even split point.
#[verifier::opaque]
pub open spec fn cut_for(buf: Seq<u8>, count: int, index: int) -> int {
    next_record_start(buf, split_target(buf.len() as int, count, index))
}

/// `b` is a cut strictly inside the buffer that one of the split points
/// `1..count` leads to.
pub open spec fn is_cut(buf: Seq<u8>, count: int, b: int) -> bool {
    &&& 0 < b < buf.len()
    &&& exists|i: int| 1 <= i < count && #[trigger] cut_for(buf, count, i) == b
}

/// A record start lies in `1..=len` and is not before `t`; inside the buffer
/// it follows a newline.
pub proof fn lemma_next_record_start_bounds(buf: Seq<u8>, t: int)
    requires
        0 <= t <= buf.len(),
        buf.len() > 0,
    ensures
        1 <= next_record_start(buf, t) <= buf.len(),
        t <= next_record_start(buf, t),
        next_record_start(buf, t) < buf.len() ==> buf[next_record_start(buf, t) - 1] == newl,
{
    reveal(next_record_start);
    let tail = buf.skip(t);
    if let Some(r) = first_index_of(tail, newl) {
        let k = choose|k: int| is_first_at(tail, newl, k);
        assert(is_first_at(tail, newl, k));
        assert(tail[r] == buf[t + r]);
    }
}

/// Record starts do not go back as the point they are looked for from
/// moves forward.
pub proof fn lemma_next_record_start_monotonic(buf: Seq<u8>, t1: int, t2: int)
    requires
        0 <= t1 <= t2 <= buf.len(),
        buf.len() > 0,
    ensures
        next_record_start(buf, t1) <= next_record_start(buf, t2),
{
    reveal(next_record_start);
    lemma_next_record_start_bounds(buf, t1);
    lemma_next_record_start_bounds(buf, t2);
    let tail1 = buf.skip(t1);
    let tail2 = buf.skip(t2);
    match first_index_of(tail1, newl) {
        Some(r1) => {
            let k = choose|k: int| is_first_at(tail1, newl, k);
            assert(is_first_at(tail1, newl, k));
            if t1 + r1 >= t2 {
                assert(tail2[t1 + r1 - t2] == newl);
                assert(is_first_at(tail2, newl, t1 + r1 - t2)) by {
                    assert forall|j: int| 0 <= j < t1 + r1 - t2 implies tail2[j] != newl by {
                        assert(tail2[j] == tail1[j + t2 - t1]);
                    }
                }
                lemma_first_unique(tail2, newl, t1 + r1 - t2);
            }
        },
        None => {
            if let Some(r2) = first_index_of(tail2, newl) {
                let k = choose|k: int| is_first_at(tail2, newl, k);
                assert(is_first_at(tail2, newl, k));
                assert(tail1[r2 + t2 - t1] == newl);
                lemma_first_exists(tail1, newl, r2 + t2 - t1);
            }
        },
    }
}

/// Even split points lie inside the buffer and move forward with the index.
pub proof fn lemma_split_targets(len: int, count: int, i: int, j: int)
    requires
        0 < len,
        1 <= i <= j < count,
    ensures
        0 <= split_target(len, count, i) <= split_target(len, count, j) < len,
{
    reveal(split_target);
    assert(i * len <= j * len) by (nonlinear_arith)
        requires
            i <= j,
            0 < len,
    ;
    assert(j * len < count * len) by (nonlinear_arith)
        requires
            j < count,
            0 < len,
    ;
    assert(0 <= i * len) by (nonlinear_arith)
        requires
            0 <= i,
            0 < len,
    ;
    vstd::arithmetic::div_mod::lemma_div_is_ordered(i * len, j * len, count);
    assert((j * len) / count < len) by (nonlinear_arith)
        requires
            j * len < count * len,
            0 < count,
            0 <= j * len,
    ;
    assert(0 <= (i * len) / count) by (nonlinear_arith)
        requires
            0 <= i * len,
            0 < count,
    ;
}

/// Where the `index`-th of `count` pieces of `buffer` is cut.
fn cut_point(buffer: &[u8], count: usize, index: usize) -> (b: usize)
    requires
        buffer@.len() > 0,
        1 <= index < count,
        split_fits(buffer@.len() as int, count as int),
    ensures
        b == cut_for(buffer@, count as int, index as int),
        1 <= b <= buffer@.len(),
        b < buffer@.len() ==> buffer@[b - 1] == newl,
{
    let len = buffer.len();
    proof {
        reveal(split_fits);
        assert(index * len <= (count - 1) * len) by (nonlinear_arith)
            requires
                index <= count - 1,
                0 < len,
        ;
        lemma_split_targets(len as int, count as int, index as int, index as int);
    }
    let target = index * len / count;
    proof {
        reveal(split_target);
        reveal(cut_for);
    }
    let tail = &buffer[target..len];
    let boundary = match memchr(tail, newl) {
        Some(relative) => target + relative + 1,
        None => len,
    };
    proof {
        assert(tail@ =~= buffer@.skip(target as int));
        lemma_next_record_start_bounds(buffer@, target as int);
        reveal(next_record_start);
    }
    boundary
}

/// Cuts do not go back as the index moves forward.
proof fn lemma_cuts_monotonic(buf: Seq<u8>, count: int, i: int, j: int)
    requires
        buf.len() > 0,
        1 <= i <= j < count,
    ensures
        cut_for(buf, count, i) <= cut_for(buf, count, j),
{
    reveal(cut_for);
    lemma_split_targets(buf.len() as int, count, i, j);
    lemma_next_record_start_monotonic(
        buf,
        split_target(buf.len() as int, count, i),
        split_target(buf.len() as int, count, j),
    );
}

/// The places where `buffer` is cut, in increasing order, starting with 0.
fn cut_points(buffer: &[u8], count: usize) -> (cuts: Vec<usize>)
    requires
        buffer@.len() > 0,
        1 < count < usize::MAX,
        split_fits(buffer@.len() as int, count as int),
    ensures
        cuts@.len() >= 1,
        cuts@[0] == 0,
        forall|i: int, j: int| 0 <= i < j < cuts@.len() ==> #[trigger] cuts@[i] < #[trigger] cuts@[j],
        forall|j: int| 0 <= j < cuts@.len() ==> #[trigger] cuts@[j] < buffer@.len(),
        forall|j: int|
            1 <= j < cuts@.len() ==> is_cut(buffer@, count as int, #[trigger] cuts@[j] as int)
                && buffer@[cuts@[j] - 1] == newl,
        forall|b: int|
            is_cut(buffer@, count as int, b) ==> exists|j: int|
                1 <= j < cuts@.len() && #[trigger] cuts@[j] == b,
{
    let len = buffer.len();
    let ghost buf = buffer@;
    let mut boundaries: Vec<usize> = Vec::with_capacity(count + 1);
    boundaries.push(0);
    // for each boundary after the first, the split point it comes from
    let ghost mut source: Seq<int> = seq![0];
    // for each split point seen, the boundary it became (or 0 if it fell at the end)
    let ghost mut place: Seq<int> = seq![0];
    let mut index: usize = 1;
    while index < count
        invariant
            buf == buffer@,
            len == buf.len(),
            len > 0,
            1 < count,
            split_fits(len as int, count as int),
            1 <= index <= count,
            boundaries@.len() >= 1,
            boundaries@[0] == 0,
            forall|i: int, j: int|
                0 <= i < j < boundaries@.len() ==> #[trigger] boundaries@[i]
                    < #[trigger] boundaries@[j],
            forall|j: int| 0 <= j < boundaries@.len() ==> #[trigger] boundaries@[j] < len,
            source.len() == boundaries@.len(),
            forall|j: int|
                1 <= j < boundaries@.len() ==> 1 <= #[trigger] source[j] < index && cut_for(
                    buf,
                    count as int,
                    source[j],
                ) == boundaries@[j] && buf[boundaries@[j] - 1] == newl,
            place.len() == index,
            forall|i: int|
                1 <= i < index ==> cut_for(buf, count as int, i) >= len || (1 <= #[trigger] place[i]
                    < boundaries@.len() && boundaries@[place[i]] == cut_for(buf, count as int, i)),
        decreases count - index,
    {
        let boundary = cut_point(buffer, count, index);
        let last = boundaries[boundaries.len() - 1];
        proof {
            if boundaries@.len() > 1 {
                let j = (boundaries@.len() - 1) as int;
                assert(1 <= source[j] < index);
                lemma_cuts_monotonic(buf, count as int, source[j], index as int);
            }
        }
        if boundary > last && boundary < len {
            proof {
                place = place.push(boundaries@.len() as int);
                source = source.push(index as int);
            }
            boundaries.push(boundary);
        } else {
            proof {
                place = place.push((boundaries@.len() - 1) as int);
            }
        }
        index = index + 1;
    }
    proof {
        assert forall|j: int| 1 <= j < boundaries@.len() implies is_cut(
            buf,
            count as int,
            #[trigger] boundaries@[j] as int,
        ) && buf[boundaries@[j] - 1] == newl by {
            assert(1 <= source[j] < count);
            assert(cut_for(buf, count as int, source[j]) == boundaries@[j]);
        }
        assert forall|b: int| is_cut(buf, count as int, b) implies exists|j: int|
            1 <= j < boundaries@.len() && #[trigger] boundaries@[j] == b by {
            let i = choose|i: int| 1 <= i < count && #[trigger] cut_for(buf, count as int, i) == b;
            assert(1 <= place[i] < boundaries@.len());
        }
    }
    boundaries
}

/// Cuts `buffer` into at most `count` contiguous ranges that together cover
/// it, each ending where a record ends: the `i`-th of the `count - 1` even
/// split points moves forward to the start of the next record, and each
/// record start strictly inside the buffer that some split point reaches
/// ends a range. An empty buffer gives no range.
pub fn chunks(buffer: &[u8], count: usize) -> (ranges: Vec<Range<usize>>)
    requires
        buffer@.len() == 0 || count <= 1 || (count < usize::MAX && (count - 1) * buffer@.len()
            <= usize::MAX),
    ensures
        buffer@.len() == 0 ==> ranges@.len() == 0,
        buffer@.len() > 0 ==> {
            &&& ranges@.len() >= 1
            &&& ranges@[0].start == 0
            &&& ranges@.last().end == buffer@.len()
        },
        forall|i: int| 0 <= i < ranges@.len() ==> (#[trigger] ranges@[i]).start < ranges@[i].end,
        forall|i: int|
            0 <= i < ranges@.len() - 1 ==> (#[trigger] ranges@[i]).end == ranges@[i + 1].start,
        forall|i: int|
            0 <= i < ranges@.len() - 1 ==> is_cut(buffer@, count as int, (#[trigger] ranges@[i]).end as int)
                && buffer@[ranges@[i].end - 1] == newl,
        forall|b: int|
            is_cut(buffer@, count as int, b) ==> exists|i: int|
                0 <= i < ranges@.len() - 1 && (#[trigger] ranges@[i]).end == b,
{
    if buffer.is_empty() {
        return Vec::new();
    }
    if count <= 1 {
        let mut single = Vec::new();
        single.push(0..buffer.len());
        proof {
            assert forall|b: int| is_cut(buffer@, count as int, b) implies exists|i: int|
                0 <= i < single@.len() - 1 && (#[trigger] single@[i]).end == b by {
                let i = choose|i: int| 1 <= i < count && #[trigger] cut_for(buffer@, count as int, i) == b;
            }
        }
        return single;
    }
    let len = buffer.len();
    proof {
        reveal(split_fits);
    }
    let mut boundaries = cut_points(buffer, count);
    let ghost cuts = boundaries@;
    boundaries.push(len);
    let mut ranges: Vec<Range<usize>> = Vec::new();
    let mut w: usize = 0;
    while w < boundaries.len() - 1
        invariant
            len == buffer@.len(),
            boundaries@ == cuts.push(len),
            cuts.len() >= 1,
            cuts[0] == 0,
            forall|i: int, j: int| 0 <= i < j < cuts.len() ==> #[trigger] cuts[i] < #[trigger] cuts[j],
            forall|j: int| 0 <= j < cuts.len() ==> #[trigger] cuts[j] < len,
            w + 1 <= boundaries@.len(),
            ranges@.len() == w,
            forall|i: int|
                0 <= i < w ==> (#[trigger] ranges@[i]).start == boundaries@[i] && ranges@[i].end
                    == boundaries@[i + 1],
        decreases boundaries@.len() - w,
    {
        let start = boundaries[w];
        let end = boundaries[w + 1];
        proof {
            if w + 1 < cuts.len() {
                assert(cuts[w as int] < cuts[w + 1]);
            }
        }
        if start < end {
            ranges.push(start..end);
        }
        w = w + 1;
    }
    proof {
        assert forall|i: int| 0 <= i < ranges@.len() - 1 implies is_cut(
            buffer@,
            count as int,
            (#[trigger] ranges@[i]).end as int,
        ) && buffer@[ranges@[i].end - 1] == newl by {
            assert(ranges@[i].end == cuts[i + 1]);
        }
        assert forall|b: int| is_cut(buffer@, count as int, b) implies exists|i: int|
            0 <= i < ranges@.len() - 1 && (#[trigger] ranges@[i]).end == b by {
            let j = choose|j: int| 1 <= j < cuts.len() && #[trigger] cuts[j] == b;
            assert(ranges@[j - 1].end == b);
        }
    }
    ranges
}

} // verus!
