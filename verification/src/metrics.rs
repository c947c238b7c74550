use vstd::prelude::*;
use crate::lines::{
    all_lines_ok, ends_on_line_boundary, is_last_at, lacks_byte, lemma_last_unique,
    lemma_next_line, lemma_no_lines, lemma_trailing_bytes, line_reading, line_records, line_station,
};
use crate::report::{
    report, report_text, row_view, row_views, rows_sorted, sort_rows, ReportRow,
};
use crate::readings::{
    highest, lemma_single_summary, lowest, max_of, min_of, total,
};
use crate::station_table::{
    station_table_entries, table_get_mut, table_insert, table_into_entries, table_with_capacity,
    StationTable,
};
use crate::temperature::{
    branch_free_accepts, branch_free_value, is_temperature_text, lemma_branch_free_reads_text,
    temperature_text_value, MINUS, ZERO,
};

verus! {

/// ASCII line feed: ends every record of a measurements file.
#[allow(non_upper_case_globals)]
pub const newl: u8 = 10;

/// ASCII `;`: separates a record's station from its reading.
#[allow(non_upper_case_globals)]
pub const semi: u8 = 59;

/// How many bytes `compute` scans as one block.
#[allow(non_upper_case_globals)]
pub const u8x32_lanes: usize = 32;

pub type Temperature = i16;

pub type TemperatureCount = i64;

/// The most readings of one station that a `Metrics` takes in: with at most
/// this many readings of 16 bits, no sum can leave the range of an `i64`.
pub const READING_LIMIT: i64 = 140_737_488_355_328;

/// The running summary of one station's readings, in tenths of a degree:
/// the lowest, the highest, their sum and how many there were.
#[derive(Debug, Clone, Copy, PartialEq, Eq, Structural)]
pub struct Aggregate {
    pub min: Temperature,
    pub max: Temperature,
    pub sum: TemperatureCount,
    pub count: TemperatureCount,
}

/// The summary of a single reading.
pub open spec fn single_summary(t: i16) -> Aggregate {
    Aggregate { min: t, max: t, sum: t as i64, count: 1 }
}

/// The summary `a` with one more reading `t` folded in.
pub open spec fn updated_summary(a: Aggregate, t: i16) -> Aggregate {
    Aggregate {
        min: min_of(a.min as int, t as int) as i16,
        max: max_of(a.max as int, t as int) as i16,
        sum: (a.sum + t) as i64,
        count: (a.count + 1) as i64,
    }
}

/// The summary of the readings of `a` and of `b` together.
pub open spec fn merged_summary(a: Aggregate, b: Aggregate) -> Aggregate {
    Aggregate {
        min: min_of(a.min as int, b.min as int) as i16,
        max: max_of(a.max as int, b.max as int) as i16,
        sum: (a.sum + b.sum) as i64,
        count: (a.count + b.count) as i64,
    }
}

impl Aggregate {
    /// These fields are the summary of the non-empty readings `r`.
    pub open spec fn summarizes(self, r: Seq<i16>) -> bool {
        &&& r.len() > 0
        &&& self.count == r.len()
        &&& self.min == lowest(r)
        &&& self.max == highest(r)
        &&& self.sum == total(r)
    }

    /// What every summary that a `Metrics` holds satisfies: at least one
    /// reading and at most `READING_LIMIT`, the lowest not above the
    /// highest, and a sum that readings of 16 bits can reach.
    pub open spec fn wf(self) -> bool {
        &&& 1 <= self.count <= READING_LIMIT
        &&& self.min <= self.max
        &&& -32768 * self.count <= self.sum <= 32767 * self.count
    }

    /// The summary of a single reading.
    pub fn new(temperature: Temperature) -> (a: Self)
        ensures
            a == single_summary(temperature),
            a.summarizes(seq![temperature]),
            a.wf(),
    {
        proof {
            lemma_single_summary(temperature);
        }
        Self { max: temperature, min: temperature, sum: temperature as TemperatureCount, count: 1 }
    }

    /// Folds one more reading into the summary.
    pub fn update(&mut self, temperature: Temperature)
        requires
            i64::MIN <= old(self).sum + temperature <= i64::MAX,
            old(self).count < i64::MAX,
        ensures
            *final(self) == updated_summary(*old(self), temperature),
    {
        self.max = self.max.max(temperature);
        self.min = self.min.min(temperature);
        self.sum = self.sum + temperature as TemperatureCount;
        self.count = self.count + 1;
    }

    /// Folds the readings that `item` summarizes into this summary.
    pub fn extend_one(&mut self, item: Aggregate)
        requires
            i64::MIN <= old(self).sum + item.sum <= i64::MAX,
            i64::MIN <= old(self).count + item.count <= i64::MAX,
        ensures
            *final(self) == merged_summary(*old(self), item),
    {
        self.max = self.max.max(item.max);
        self.min = self.min.min(item.min);
        self.sum = self.sum + item.sum;
        self.count = self.count + item.count;
    }
}


/// The summary `a` with the summaries `items` merged in, in order.
pub open spec fn merged_in_order(a: Aggregate, items: Seq<Aggregate>) -> Aggregate
    decreases items.len(),
{
    if items.len() == 0 {
        a
    } else {
        merged_summary(merged_in_order(a, items.drop_last()), items.last())
    }
}

/// The sum of the `sum` fields of `items`.
pub open spec fn sum_of_sums(items: Seq<Aggregate>) -> int
    decreases items.len(),
{
    if items.len() == 0 {
        0
    } else {
        sum_of_sums(items.drop_last()) + items.last().sum
    }
}

/// The sum of the `count` fields of `items`.
pub open spec fn sum_of_counts(items: Seq<Aggregate>) -> int
    decreases items.len(),
{
    if items.len() == 0 {
        0
    } else {
        sum_of_counts(items.drop_last()) + items.last().count
    }
}

impl Aggregate {
    /// Merges each of `items` into the summary, in order.
    pub fn extend(&mut self, items: Vec<Aggregate>)
        requires
            forall|n: int|
                0 <= n <= items@.len() ==> i64::MIN <= old(self).sum + sum_of_sums(
                    #[trigger] items@.take(n),
                ) <= i64::MAX && i64::MIN <= old(self).count + sum_of_counts(items@.take(n))
                    <= i64::MAX,
        ensures
            *final(self) == merged_in_order(*old(self), items@),
    {
        let ghost start = *self;
        let mut i: usize = 0;
        proof {
            assert(items@.take(0) =~= Seq::<Aggregate>::empty());
        }
        while i < items.len()
            invariant
                i <= items@.len(),
                forall|n: int|
                    0 <= n <= items@.len() ==> i64::MIN <= start.sum + sum_of_sums(
                        #[trigger] items@.take(n),
                    ) <= i64::MAX && i64::MIN <= start.count + sum_of_counts(items@.take(n))
                        <= i64::MAX,
                self.sum == start.sum + sum_of_sums(items@.take(i as int)),
                self.count == start.count + sum_of_counts(items@.take(i as int)),
                *self == merged_in_order(start, items@.take(i as int)),
            decreases items@.len() - i,
        {
            let item = items[i];
            proof {
                let next = items@.take(i + 1);
                assert(next.drop_last() =~= items@.take(i as int));
                assert(next.last() == item);
                assert(start.sum + sum_of_sums(next) <= i64::MAX);
                assert(start.count + sum_of_counts(next) <= i64::MAX);
            }
            self.extend_one(item);
            i = i + 1;
        }
        proof {
            assert(items@.take(items@.len() as int) =~= items@);
        }
    }
}

/// The summaries `m` with the record (station, reading) taken in.
pub open spec fn record_into(m: Map<Seq<u8>, Aggregate>, record: (Seq<u8>, i16)) -> Map<
    Seq<u8>,
    Aggregate,
> {
    if m.contains_key(record.0) {
        m.insert(record.0, updated_summary(m[record.0], record.1))
    } else {
        m.insert(record.0, single_summary(record.1))
    }
}

/// The summaries `m` with the records taken in, in order.
pub open spec fn tally(m: Map<Seq<u8>, Aggregate>, records: Seq<(Seq<u8>, i16)>) -> Map<
    Seq<u8>,
    Aggregate,
>
    decreases records.len(),
{
    if records.len() == 0 {
        m
    } else {
        record_into(tally(m, records.drop_last()), records.last())
    }
}

/// How many readings the summaries `m` hold for `station`.
pub open spec fn count_in(m: Map<Seq<u8>, Aggregate>, station: Seq<u8>) -> int {
    if m.contains_key(station) {
        m[station].count as int
    } else {
        0
    }
}

/// Every summary in `m` is well formed.
pub open spec fn all_wf(m: Map<Seq<u8>, Aggregate>) -> bool {
    forall|k: Seq<u8>| #[trigger] m.contains_key(k) ==> m[k].wf()
}

/// Summaries of the readings of each station seen so far, keyed by the
/// station's bytes, which it borrows from the text it was computed on.
pub struct Metrics<'a> {
    inner: StationTable<'a>,
}

impl<'a> View for Metrics<'a> {
    type V = Map<Seq<u8>, Aggregate>;

    closed spec fn view(&self) -> Map<Seq<u8>, Aggregate> {
        station_table_entries(self.inner)
    }
}

impl<'a> Metrics<'a> {
    /// Every summary held is well formed.
    pub open spec fn wf(&self) -> bool {
        all_wf(self@)
    }

    /// No station yet.
    pub fn new() -> (metrics: Self)
        ensures
            metrics@ == Map::<Seq<u8>, Aggregate>::empty(),
            metrics.wf(),
    {
        let metrics = Self { inner: table_with_capacity(10_000) };
        assert(metrics@ =~= Map::<Seq<u8>, Aggregate>::empty());
        metrics
    }

    /// Takes in one reading of `station`.
    fn insert_temperature(&mut self, station: &'a [u8], temperature: Temperature)
        requires
            old(self).wf(),
            count_in(old(self)@, station@) < READING_LIMIT,
        ensures
            final(self)@ == record_into(old(self)@, (station@, temperature)),
            final(self).wf(),
    {
        match table_get_mut(&mut self.inner, station) {
            Some(summary) => {
                summary.update(temperature);
            },
            None => {
                table_insert(&mut self.inner, station, Aggregate::new(temperature));
            },
        }
    }

    /// Takes in the line that the newline at `cursor` ends.
    fn take_newline(
        &mut self,
        slice: &'a [u8],
        cursor: usize,
        line_start: &mut usize,
        maybe_semicolon_cursor: &mut Option<usize>,
        Ghost(start_view): Ghost<Map<Seq<u8>, Aggregate>>,
    )
        requires
            scan_state(
                slice@,
                start_view,
                old(self)@,
                *old(line_start) as int,
                cursor as int,
                *old(maybe_semicolon_cursor),
            ),
            cursor < slice.len(),
            slice@[cursor as int] == newl,
        ensures
            scan_state(
                slice@,
                start_view,
                final(self)@,
                *final(line_start) as int,
                cursor + 1,
                *final(maybe_semicolon_cursor),
            ),
    {
        let ghost s = slice@;
        let ghost line = s.subrange(*line_start as int, cursor as int);
        proof {
            lemma_next_line(s, *line_start as int, cursor as int);
        }
        let semicolon_cursor = match maybe_semicolon_cursor.take() {
            Some(c) => c,
            None => {
                proof {
                    let j = choose|j: int| is_last_at(line, semi, j);
                    assert(line[j] == semi);
                    assert(false);
                }
                *line_start
            },
        };
        let ghost j = semicolon_cursor - *line_start;
        proof {
            lemma_last_unique(line, semi, j);
        }
        let station = &slice[*line_start..semicolon_cursor];
        let reading = &slice[semicolon_cursor + 1..cursor];
        proof {
            assert(station@ =~= line_station(line));
            assert(reading@ =~= line.skip(j + 1));
        }
        let temperature = parse_temperature(reading);
        proof {
            assert(line_reading(line) == temperature);
            assert(count_in(self@, station@) <= count_in(start_view, station@) + *line_start);
        }
        let ghost prev = self@;
        self.insert_temperature(station, temperature);
        proof {
            lemma_tally_push(
                start_view,
                line_records(s.take(*line_start as int)),
                (line_station(line), line_reading(line)),
            );
            assert forall|k: Seq<u8>|
                #[trigger] count_in(self@, k) <= count_in(start_view, k) + cursor + 1 by {
                assert(count_in(prev, k) <= count_in(start_view, k) + *line_start);
            }
            assert(s.take(cursor + 1).last() == newl);
            assert(s.subrange(cursor + 1, cursor + 1) =~= Seq::<u8>::empty());
        }
        *line_start = cursor + 1;
        *maybe_semicolon_cursor = None;
    }

    /// Reads every newline-terminated line of `slice` as `station;reading`,
    /// the station being all before the line's last `;`, and takes each
    /// reading in, in order. Bytes after the last newline are not read.
    ///
    /// The text is scanned in blocks of `u8x32_lanes` bytes: a bit mask marks
    /// the separators of a block, and they are visited lowest bit first; the
    /// bytes after the last whole block are scanned one by one.
    pub fn compute(&mut self, slice: &'a [u8])
        requires
            old(self).wf(),
            all_lines_ok(slice@),
            forall|k: Seq<u8>| count_in(old(self)@, k) + slice@.len() <= READING_LIMIT,
        ensures
            final(self).wf(),
            final(self)@ == tally(old(self)@, line_records(slice@)),
            forall|k: Seq<u8>|
                #[trigger] count_in(final(self)@, k) <= count_in(old(self)@, k) + slice@.len(),
    {
        let ghost s = slice@;
        let ghost start_view = self@;
        let mut cursor: usize = 0;
        let mut line_start: usize = 0;
        let mut maybe_semicolon_cursor: Option<usize> = None;
        proof {
            assert(s.take(0) =~= Seq::<u8>::empty());
            lemma_no_lines(s.take(0));
            assert(line_records(s.take(0)) =~= Seq::<(Seq<u8>, i16)>::empty());
            assert(s.subrange(0, 0) =~= Seq::<u8>::empty());
        }
        while u8x32_lanes < slice.len() - cursor
            invariant
                s == slice@,
                cursor <= slice.len(),
                scan_state(s, start_view, self@, line_start as int, cursor as int, maybe_semicolon_cursor),
            decreases s.len() - cursor,
        {
            let (semicolon_bitmask, newline_bitmask) = block_masks(slice, cursor);
            let mut bitmask = semicolon_bitmask | newline_bitmask;
            let ghost mut done: u32 = 0;
            proof {
                assert forall|j: u32| j < 32 implies #[trigger] bit(bitmask, j) == (j >= done && (bit(
                    semicolon_bitmask,
                    j,
                ) || bit(newline_bitmask, j))) by {
                    lemma_bit_or(semicolon_bitmask, newline_bitmask, j);
                }
            }
            while bitmask != 0
                invariant
                    s == slice@,
                    cursor + 32 < slice.len(),
                    done <= 32,
                    forall|j: u32|
                        j < 32 ==> #[trigger] bit(semicolon_bitmask, j) == (s[cursor + j] == semi),
                    forall|j: u32| j < 32 ==> #[trigger] bit(newline_bitmask, j) == (s[cursor + j] == newl),
                    forall|j: u32|
                        j < 32 ==> #[trigger] bit(bitmask, j) == (j >= done && (bit(
                            semicolon_bitmask,
                            j,
                        ) || bit(newline_bitmask, j))),
                    scan_state(
                        s,
                        start_view,
                        self@,
                        line_start as int,
                        cursor + done,
                        maybe_semicolon_cursor,
                    ),
                decreases 32 - done,
            {
                let relative_index = bitmask.trailing_zeros();
                proof {
                    vstd::std_specs::bits::axiom_u32_trailing_zeros(bitmask);
                    assert(bit(bitmask, relative_index));
                    assert forall|i: int| cursor + done <= i < cursor + relative_index implies s[i]
                        != semi && s[i] != newl by {
                        let j = (i - cursor) as u32;
                        assert((bitmask >> j) & 1u32 == 0u32);
                        assert(!bit(bitmask, j));
                    }
                    lemma_skip_plain(
                        s,
                        start_view,
                        self@,
                        line_start as int,
                        cursor + done,
                        cursor + relative_index,
                        maybe_semicolon_cursor,
                    );
                }
                let absolute_index = cursor + relative_index as usize;
                if ((semicolon_bitmask >> relative_index) & 1) != 0 {
                    proof {
                        assert(((semicolon_bitmask >> relative_index) & 1u32) != 0u32 ==> bit(
                            semicolon_bitmask,
                            relative_index,
                        )) by (bit_vector);
                        lemma_take_semicolon(
                            s,
                            start_view,
                            self@,
                            line_start as int,
                            absolute_index as int,
                            maybe_semicolon_cursor,
                        );
                    }
                    maybe_semicolon_cursor = Some(absolute_index);
                } else {
                    proof {
                        assert(((semicolon_bitmask >> relative_index) & 1u32) == 0u32 ==> !bit(
                            semicolon_bitmask,
                            relative_index,
                        )) by (bit_vector);
                        assert(bit(newline_bitmask, relative_index));
                    }
                    self.take_newline(
                        slice,
                        absolute_index,
                        &mut line_start,
                        &mut maybe_semicolon_cursor,
                        Ghost(start_view),
                    );
                }
                let ghost before = bitmask;
                bitmask = bitmask & (bitmask - 1);
                proof {
                    lemma_clear_lowest(before, relative_index);
                    done = (relative_index + 1) as u32;
                }
            }
            proof {
                assert forall|i: int| cursor + done <= i < cursor + 32 implies s[i] != semi && s[i]
                    != newl by {
                    let j = (i - cursor) as u32;
                    assert(bit(0u32, j) == false) by (bit_vector);
                    assert(!bit(bitmask, j));
                }
                lemma_skip_plain(
                    s,
                    start_view,
                    self@,
                    line_start as int,
                    cursor + done,
                    cursor + 32,
                    maybe_semicolon_cursor,
                );
            }
            cursor = cursor + u8x32_lanes;
        }
        while cursor < slice.len()
            invariant
                s == slice@,
                scan_state(s, start_view, self@, line_start as int, cursor as int, maybe_semicolon_cursor),
            decreases s.len() - cursor,
        {
            let byte = slice[cursor];
            if byte == semi {
                proof {
                    lemma_take_semicolon(
                        s,
                        start_view,
                        self@,
                        line_start as int,
                        cursor as int,
                        maybe_semicolon_cursor,
                    );
                }
                maybe_semicolon_cursor = Some(cursor);
            } else if byte == newl {
                self.take_newline(
                    slice,
                    cursor,
                    &mut line_start,
                    &mut maybe_semicolon_cursor,
                    Ghost(start_view),
                );
            } else {
                proof {
                    lemma_skip_plain(
                        s,
                        start_view,
                        self@,
                        line_start as int,
                        cursor as int,
                        cursor + 1,
                        maybe_semicolon_cursor,
                    );
                }
            }
            cursor = cursor + 1;
        }
        proof {
            lemma_trailing_bytes(s, line_start as int);
        }
    }
}

/// Bit `j` of `x` is set.
pub open spec fn bit(x: u32, j: u32) -> bool {
    (x >> j) & 1u32 == 1u32
}

proof fn lemma_bit_or(a: u32, b: u32, j: u32)
    requires
        j < 32,
    ensures
        bit(a | b, j) == (bit(a, j) || bit(b, j)),
{
    assert(j < 32 ==> (((a | b) >> j) & 1u32 == 1u32) == (((a >> j) & 1u32 == 1u32) || ((b >> j)
        & 1u32 == 1u32))) by (bit_vector);
}

/// Clearing the lowest set bit: `x & (x - 1)` keeps every bit of `x` but
/// the lowest set one, below which there is none.
proof fn lemma_clear_lowest(x: u32, low: u32)
    requires
        x != 0,
        low == x.trailing_zeros(),
    ensures
        forall|j: u32| j < 32 ==> #[trigger] bit(x & ((x - 1) as u32), j) == (bit(x, j) && j != low),
        forall|j: u32| j < low ==> !#[trigger] bit(x, j),
        low < 32,
{
    vstd::std_specs::bits::axiom_u32_trailing_zeros(x);
    assert(low < 32);
    assert(x << ((32 - low) as u32) == 0);
    assert forall|j: u32| j < 32 implies #[trigger] bit(x & ((x - 1) as u32), j) == (bit(x, j) && j
        != low) by {
        assert(x != 0 && low < 32 && x << ((32 - low) as u32) == 0 && ((x >> low) & 1u32 == 1u32)
            && j < 32 ==> ((((x & ((x - 1) as u32)) >> j) & 1u32 == 1u32) == (((x >> j) & 1u32 == 1u32)
            && j != low))) by (bit_vector);
    }
    assert forall|j: u32| j < low implies !#[trigger] bit(x, j) by {
        assert((x >> j) & 1u32 == 0u32);
    }
}

/// For each byte of the block of 32 at `cursor`, whether it is a `;` and
/// whether it is a newline, as bits of two masks (bit `j` for the byte at
/// `cursor + j`).
fn block_masks(slice: &[u8], cursor: usize) -> (masks: (u32, u32))
    requires
        cursor + 32 <= slice.len(),
    ensures
        forall|j: u32| j < 32 ==> #[trigger] bit(masks.0, j) == (slice@[cursor + j] == semi),
        forall|j: u32| j < 32 ==> #[trigger] bit(masks.1, j) == (slice@[cursor + j] == newl),
{
    let mut semicolons: u32 = 0;
    let mut newlines: u32 = 0;
    let mut i: u32 = 0;
    proof {
        assert forall|j: u32| j < 32 implies !#[trigger] bit(0u32, j) by {
            assert(j < 32 ==> (0u32 >> j) & 1u32 == 0u32) by (bit_vector);
        }
    }
    while i < 32
        invariant
            cursor + 32 <= slice.len(),
            i <= 32,
            forall|j: u32|
                j < 32 ==> #[trigger] bit(semicolons, j) == (j < i && slice@[cursor + j] == semi),
            forall|j: u32|
                j < 32 ==> #[trigger] bit(newlines, j) == (j < i && slice@[cursor + j] == newl),
        decreases 32 - i,
    {
        let byte = slice[cursor + i as usize];
        let ghost old_semicolons = semicolons;
        let ghost old_newlines = newlines;
        if byte == semi {
            semicolons = semicolons | (1u32 << i);
        }
        if byte == newl {
            newlines = newlines | (1u32 << i);
        }
        proof {
            assert forall|j: u32| j < 32 implies #[trigger] bit(semicolons, j) == (j < i + 1
                && slice@[cursor + j] == semi) by {
                lemma_set_bit(old_semicolons, i, j);
            }
            assert forall|j: u32| j < 32 implies #[trigger] bit(newlines, j) == (j < i + 1
                && slice@[cursor + j] == newl) by {
                lemma_set_bit(old_newlines, i, j);
            }
        }
        i = i + 1;
    }
    (semicolons, newlines)
}

proof fn lemma_set_bit(x: u32, i: u32, j: u32)
    requires
        i < 32,
        j < 32,
    ensures
        bit(x | (1u32 << i), j) == (bit(x, j) || j == i),
{
    assert(i < 32 && j < 32 ==> ((((x | (1u32 << i)) >> j) & 1u32 == 1u32) == (((x >> j) & 1u32
        == 1u32) || j == i))) by (bit_vector);
}

/// Where the scan of `s` stands at `cursor`: the lines before `line_start`
/// are taken in, `line_start` begins a line that has no newline up to
/// `cursor`, and the last `;` of that line so far is remembered.
pub open spec fn scan_state(
    s: Seq<u8>,
    start_view: Map<Seq<u8>, Aggregate>,
    view: Map<Seq<u8>, Aggregate>,
    line_start: int,
    cursor: int,
    maybe_semicolon_cursor: Option<usize>,
) -> bool {
    &&& 0 <= line_start <= cursor <= s.len()
    &&& ends_on_line_boundary(s.take(line_start))
    &&& lacks_byte(s.subrange(line_start, cursor), newl)
    &&& match maybe_semicolon_cursor {
        Some(c) => line_start <= c < cursor && is_last_at(
            s.subrange(line_start, cursor),
            semi,
            c - line_start,
        ),
        None => lacks_byte(s.subrange(line_start, cursor), semi),
    }
    &&& all_wf(view)
    &&& view == tally(start_view, line_records(s.take(line_start)))
    &&& all_lines_ok(s)
    &&& forall|k: Seq<u8>| count_in(start_view, k) + s.len() <= READING_LIMIT
    &&& forall|k: Seq<u8>| #[trigger] count_in(view, k) <= count_in(start_view, k) + line_start
}

/// Bytes that are neither `;` nor a newline leave the scan as it is.
proof fn lemma_skip_plain(
    s: Seq<u8>,
    start_view: Map<Seq<u8>, Aggregate>,
    view: Map<Seq<u8>, Aggregate>,
    line_start: int,
    from: int,
    to: int,
    maybe_semicolon_cursor: Option<usize>,
)
    requires
        scan_state(s, start_view, view, line_start, from, maybe_semicolon_cursor),
        from <= to <= s.len(),
        forall|i: int| from <= i < to ==> s[i] != semi && s[i] != newl,
    ensures
        scan_state(s, start_view, view, line_start, to, maybe_semicolon_cursor),
{
    let before = s.subrange(line_start, from);
    let after = s.subrange(line_start, to);
    assert forall|i: int| 0 <= i < after.len() implies after[i] != newl by {
        if i < before.len() {
            assert(after[i] == before[i]);
        }
    }
    match maybe_semicolon_cursor {
        Some(c) => {
            assert forall|j: int| c - line_start < j < after.len() implies after[j] != semi by {
                if j < before.len() {
                    assert(after[j] == before[j]);
                }
            }
            assert(after[c - line_start] == before[c - line_start]);
        },
        None => {
            assert forall|i: int| 0 <= i < after.len() implies after[i] != semi by {
                if i < before.len() {
                    assert(after[i] == before[i]);
                }
            }
        },
    }
}

/// A `;` at `cursor` becomes the last `;` of the current line.
proof fn lemma_take_semicolon(
    s: Seq<u8>,
    start_view: Map<Seq<u8>, Aggregate>,
    view: Map<Seq<u8>, Aggregate>,
    line_start: int,
    cursor: int,
    maybe_semicolon_cursor: Option<usize>,
)
    requires
        scan_state(s, start_view, view, line_start, cursor, maybe_semicolon_cursor),
        cursor < s.len(),
        s[cursor] == semi,
        cursor <= usize::MAX,
    ensures
        scan_state(s, start_view, view, line_start, cursor + 1, Some(cursor as usize)),
{
    let before = s.subrange(line_start, cursor);
    let after = s.subrange(line_start, cursor + 1);
    assert(after =~= before.push(semi));
    assert(is_last_at(after, semi, cursor - line_start));
}

/// The summaries of `a` and of `b` together: a station of one only keeps its
/// summary, a station of both gets the two merged.
pub open spec fn merge_maps(a: Map<Seq<u8>, Aggregate>, b: Map<Seq<u8>, Aggregate>) -> Map<
    Seq<u8>,
    Aggregate,
> {
    Map::new(
        |k: Seq<u8>| a.contains_key(k) || b.contains_key(k),
        |k: Seq<u8>|
            if a.contains_key(k) && b.contains_key(k) {
                merged_summary(a[k], b[k])
            } else if a.contains_key(k) {
                a[k]
            } else {
                b[k]
            },
    )
}

/// The summaries `m` with those of each of `others` merged in, in order.
pub open spec fn merge_all(m: Map<Seq<u8>, Aggregate>, others: Seq<Map<Seq<u8>, Aggregate>>) -> Map<
    Seq<u8>,
    Aggregate,
>
    decreases others.len(),
{
    if others.len() == 0 {
        m
    } else {
        merge_all(merge_maps(m, others[0]), others.drop_first())
    }
}

/// How many readings of `station` the summaries `others` hold together.
pub open spec fn count_in_all(others: Seq<Map<Seq<u8>, Aggregate>>, station: Seq<u8>) -> int
    decreases others.len(),
{
    if others.len() == 0 {
        0
    } else {
        count_in(others[0], station) + count_in_all(others.drop_first(), station)
    }
}

/// Some station among the first `n` of `stations` is `k`.
pub open spec fn among_first(stations: Seq<Seq<u8>>, n: int, k: Seq<u8>) -> bool {
    exists|j: int| 0 <= j < n && stations[j] == k
}

impl<'a> Metrics<'a> {
    /// Takes in a summary of readings of `station`.
    fn insert_aggregate(&mut self, station: &'a [u8], aggregate: Aggregate)
        requires
            old(self).wf(),
            aggregate.wf(),
            count_in(old(self)@, station@) + aggregate.count <= READING_LIMIT,
        ensures
            final(self)@ == old(self)@.insert(
                station@,
                if old(self)@.contains_key(station@) {
                    merged_summary(old(self)@[station@], aggregate)
                } else {
                    aggregate
                },
            ),
            final(self).wf(),
    {
        match table_get_mut(&mut self.inner, station) {
            Some(summary) => {
                summary.extend_one(aggregate);
            },
            None => {
                table_insert(&mut self.inner, station, aggregate);
            },
        }
    }

    /// Merges the summaries of `item` into these: each of its stations is
    /// taken in with all of its readings.
    pub fn extend_one(&mut self, item: Metrics<'a>)
        requires
            old(self).wf(),
            item.wf(),
            forall|k: Seq<u8>| count_in(old(self)@, k) + count_in(item@, k) <= READING_LIMIT,
        ensures
            final(self)@ == merge_maps(old(self)@, item@),
            final(self).wf(),
    {
        let ghost start_view = self@;
        let ghost item_view = item@;
        let entries = table_into_entries(item.inner);
        let ghost stations = entries@.map_values(|e: (&'a [u8], Aggregate)| e.0@);
        let mut i: usize = 0;
        while i < entries.len()
            invariant
                i <= entries@.len(),
                stations.len() == entries@.len(),
                forall|j: int| 0 <= j < entries@.len() ==> #[trigger] stations[j] == entries@[j].0@,
                forall|j: int|
                    0 <= j < entries@.len() ==> {
                        &&& item_view.contains_key(#[trigger] entries@[j].0@)
                        &&& item_view[entries@[j].0@] == entries@[j].1
                    },
                forall|j: int, l: int|
                    0 <= j < l < entries@.len() ==> #[trigger] entries@[j].0@
                        != #[trigger] entries@[l].0@,
                all_wf(item_view),
                forall|k: Seq<u8>| count_in(start_view, k) + count_in(item_view, k) <= READING_LIMIT,
                self.wf(),
                forall|k: Seq<u8>|
                    #[trigger] self@.contains_key(k) <==> (start_view.contains_key(k) || among_first(
                        stations,
                        i as int,
                        k,
                    )),
                forall|k: Seq<u8>|
                    #[trigger] self@.contains_key(k) ==> self@[k] == (if among_first(
                        stations,
                        i as int,
                        k,
                    ) {
                        if start_view.contains_key(k) {
                            merged_summary(start_view[k], item_view[k])
                        } else {
                            item_view[k]
                        }
                    } else {
                        start_view[k]
                    }),
            decreases entries@.len() - i,
        {
            let (station, aggregate) = entries[i];
            let ghost key = station@;
            proof {
                assert(stations[i as int] == key);
                if among_first(stations, i as int, key) {
                    let j = choose|j: int| 0 <= j < i && stations[j] == key;
                    assert(entries@[j].0@ == entries@[i as int].0@);
                }
                assert(!among_first(stations, i as int, key));
                assert(count_in(self@, key) == count_in(start_view, key));
            }
            self.insert_aggregate(station, aggregate);
            proof {
                assert forall|k: Seq<u8>|
                    among_first(stations, i + 1, k) <==> (among_first(stations, i as int, k) || k
                        == key) by {
                    if among_first(stations, i + 1, k) && k != key {
                        let j = choose|j: int| 0 <= j < i + 1 && stations[j] == k;
                        assert(j < i);
                    }
                    if k == key {
                        assert(stations[i as int] == k);
                    }
                }
            }
            i = i + 1;
        }
        proof {
            assert forall|k: Seq<u8>| #[trigger]
                item_view.contains_key(k) <==> among_first(stations, i as int, k) by {
                if item_view.contains_key(k) {
                    let j = choose|j: int| 0 <= j < entries@.len() && #[trigger] entries@[j].0@ == k;
                    assert(stations[j] == k);
                }
                if among_first(stations, i as int, k) {
                    let j = choose|j: int| 0 <= j < i && stations[j] == k;
                    assert(item_view.contains_key(entries@[j].0@));
                }
            }
            assert(self@ =~= merge_maps(start_view, item_view));
        }
    }
}

/// The summaries that each of `items` holds.
pub open spec fn views_of<'a>(items: Seq<Metrics<'a>>) -> Seq<Map<Seq<u8>, Aggregate>> {
    items.map_values(|m: Metrics<'a>| m@)
}

/// Merging two sets of well-formed summaries counts the readings of each
/// station in both.
pub proof fn lemma_merge_counts(a: Map<Seq<u8>, Aggregate>, b: Map<Seq<u8>, Aggregate>)
    requires
        all_wf(a),
        all_wf(b),
        forall|k: Seq<u8>| count_in(a, k) + count_in(b, k) <= READING_LIMIT,
    ensures
        all_wf(merge_maps(a, b)),
        forall|k: Seq<u8>| #[trigger]
            count_in(merge_maps(a, b), k) == count_in(a, k) + count_in(b, k),
{
    assert forall|k: Seq<u8>| #[trigger] merge_maps(a, b).contains_key(k) implies merge_maps(
        a,
        b,
    )[k].wf() by {
        assert(count_in(a, k) + count_in(b, k) <= READING_LIMIT);
    }
    assert forall|k: Seq<u8>| #[trigger]
        count_in(merge_maps(a, b), k) == count_in(a, k) + count_in(b, k) by {
        assert(count_in(a, k) + count_in(b, k) <= READING_LIMIT);
    }
}

impl<'a> Metrics<'a> {
    /// Merges each of `items` into these summaries, in order.
    pub fn extend(&mut self, items: Vec<Metrics<'a>>)
        requires
            old(self).wf(),
            forall|i: int| 0 <= i < items@.len() ==> (#[trigger] items@[i]).wf(),
            forall|k: Seq<u8>|
                count_in(old(self)@, k) + count_in_all(views_of(items@), k) <= READING_LIMIT,
        ensures
            final(self)@ == merge_all(old(self)@, views_of(items@)),
            final(self).wf(),
    {
        let ghost target = merge_all(self@, views_of(items@));
        let mut rest = items;
        while rest.len() > 0
            invariant
                self.wf(),
                forall|i: int| 0 <= i < rest@.len() ==> (#[trigger] rest@[i]).wf(),
                forall|k: Seq<u8>|
                    count_in(self@, k) + count_in_all(views_of(rest@), k) <= READING_LIMIT,
                merge_all(self@, views_of(rest@)) == target,
            decreases rest@.len(),
        {
            let ghost before = rest@;
            let item = rest.remove(0);
            proof {
                assert(views_of(rest@) =~= views_of(before).drop_first());
                assert(views_of(before)[0] == item@);
                assert forall|k: Seq<u8>|
                    count_in(self@, k) + count_in(item@, k) <= READING_LIMIT by {
                    assert(count_in(self@, k) + count_in_all(views_of(before), k) <= READING_LIMIT);
                    lemma_count_in_all_nonnegative(views_of(rest@), k);
                }
            }
            let ghost prev = self@;
            self.extend_one(item);
            proof {
                lemma_merge_counts(prev, item@);
                assert forall|k: Seq<u8>|
                    count_in(self@, k) + count_in_all(views_of(rest@), k) <= READING_LIMIT by {
                    assert(count_in(prev, k) + count_in_all(views_of(before), k) <= READING_LIMIT);
                }
            }
        }
        proof {
            assert(views_of(rest@) =~= Seq::<Map<Seq<u8>, Aggregate>>::empty());
        }
    }
}

/// Counts of readings are never negative.
pub proof fn lemma_count_in_all_nonnegative(others: Seq<Map<Seq<u8>, Aggregate>>, station: Seq<u8>)
    requires
        forall|i: int| 0 <= i < others.len() ==> all_wf(#[trigger] others[i]),
    ensures
        count_in_all(others, station) >= 0,
    decreases others.len(),
{
    if others.len() > 0 {
        assert(all_wf(others[0]));
        lemma_count_in_all_nonnegative(others.drop_first(), station);
    }
}

/// The row that the report gives a station: its lowest reading, its mean
/// rounded to the nearest tenth (halves upward) and its highest reading.
pub open spec fn render_row(station: Seq<u8>, a: Aggregate) -> (Seq<u8>, int, int, int) {
    (station, a.min as int, (2 * a.sum + a.count) / (2 * a.count), a.max as int)
}

/// `q` is `sum / count` rounded to the nearest whole number, halves upward:
/// `q - 1/2 <= sum / count < q + 1/2`, scaled by `2 * count`.
pub open spec fn is_mean_half_up(q: int, sum: int, count: int) -> bool {
    2 * count * q <= 2 * sum + count < 2 * count * (q + 1)
}

/// The row of a summary holds its station, its lowest reading, its mean
/// (sum over count) rounded to a tenth with halves upward, and its highest
/// reading.
pub proof fn lemma_render_row_mean(station: Seq<u8>, a: Aggregate)
    requires
        a.count >= 1,
    ensures
        render_row(station, a).0 == station,
        render_row(station, a).1 == a.min,
        render_row(station, a).3 == a.max,
        is_mean_half_up(render_row(station, a).2, a.sum as int, a.count as int),
{
    let n = 2 * a.sum + a.count;
    let d = 2 * a.count;
    vstd::arithmetic::div_mod::lemma_fundamental_div_mod(n, d);
    let q = n / d;
    let r = n % d;
    assert(d * q <= n < d * (q + 1)) by (nonlinear_arith)
        requires
            n == d * q + r,
            0 <= r < d,
    ;
    assert(2 * a.count * q == d * q);
    assert(2 * a.count * (q + 1) == d * (q + 1));
}

/// The rows are those of the stations of `m`, one for each.
pub open spec fn rows_match(rows: Seq<(Seq<u8>, int, int, int)>, m: Map<Seq<u8>, Aggregate>) -> bool {
    &&& forall|i: int|
        0 <= i < rows.len() ==> m.contains_key(#[trigger] rows[i].0) && rows[i] == render_row(
            rows[i].0,
            m[rows[i].0],
        )
    &&& forall|k: Seq<u8>|
        #[trigger] m.contains_key(k) ==> exists|i: int| 0 <= i < rows.len() && #[trigger] rows[i].0 == k
}

/// The quotient of `a` by a positive `b`, rounded toward negative infinity
/// (Euclidean division): the truncated quotient, one less where the
/// remainder is negative.
fn div_euclid(a: i128, b: i128) -> (q: i128)
    requires
        b > 0,
        a > i128::MIN,
    ensures
        q == a / b,
{
    if a >= 0 {
        a / b
    } else {
        let n = -a;
        let q = n / b;
        let r = n % b;
        proof {
            vstd::arithmetic::div_mod::lemma_fundamental_div_mod(n as int, b as int);
            assert(0 <= r < b);
            assert(n == b * q + r);
            assert(q >= 0);
            assert(b * q <= n) by (nonlinear_arith)
                requires
                    n == b * q + r,
                    r >= 0,
            ;
        }
        if r == 0 {
            proof {
                assert(a == (-q) * b + 0) by (nonlinear_arith)
                    requires
                        a == -n,
                        n == b * q + r,
                        r == 0,
                ;
                vstd::arithmetic::div_mod::lemma_fundamental_div_mod_converse(
                    a as int,
                    b as int,
                    -q,
                    0,
                );
            }
            -q
        } else {
            proof {
                assert(a == (-q - 1) * b + (b - r)) by (nonlinear_arith)
                    requires
                        a == -n,
                        n == b * q + r,
                ;
                vstd::arithmetic::div_mod::lemma_fundamental_div_mod_converse(
                    a as int,
                    b as int,
                    -q - 1,
                    b - r,
                );
            }
            -q - 1
        }
    }
}

/// A quotient of a numerator that lies within `bound` times a positive
/// divisor lies within `bound`.
proof fn lemma_quotient_bounds(n: int, d: int, bound: int)
    requires
        d > 0,
        bound >= 0,
        -bound * d <= n <= bound * d,
    ensures
        -bound <= n / d <= bound,
{
    assert(-bound <= n / d <= bound) by (nonlinear_arith)
        requires
            d > 0,
            bound >= 0,
            -bound * d <= n <= bound * d,
    ;
}

impl<'a> Metrics<'a> {
    /// The report of these summaries: `{`, then for each station in
    /// byte-wise order `station=min/mean/max` with one fractional digit,
    /// joined by `, `, then `}` and a line feed.
    pub fn render(self) -> (text: Vec<u8>)
        requires
            self.wf(),
        ensures
            exists|rows: Seq<(Seq<u8>, int, int, int)>|
                {
                    &&& rows_sorted(rows)
                    &&& rows_match(rows, self@)
                    &&& forall|j: int|
                        0 <= j < rows.len() ==> is_mean_half_up(
                            (#[trigger] rows[j]).2,
                            self@[rows[j].0].sum as int,
                            self@[rows[j].0].count as int,
                        ) && rows[j].1 == self@[rows[j].0].min && rows[j].3 == self@[rows[j].0].max
                    &&& text@ == report_text(rows)
                },
    {
        let ghost m = self@;
        let entries = table_into_entries(self.inner);
        let mut rows: Vec<ReportRow<'a>> = Vec::new();
        let mut i: usize = 0;
        while i < entries.len()
            invariant
                i <= entries@.len(),
                all_wf(m),
                forall|j: int|
                    0 <= j < entries@.len() ==> {
                        &&& m.contains_key(#[trigger] entries@[j].0@)
                        &&& m[entries@[j].0@] == entries@[j].1
                    },
                rows@.len() == i,
                forall|j: int|
                    0 <= j < i ==> #[trigger] row_view(rows@[j]) == render_row(
                        entries@[j].0@,
                        entries@[j].1,
                    ),
            decreases entries@.len() - i,
        {
            let (station, aggregate) = entries[i];
            proof {
                assert(m.contains_key(entries@[i as int].0@));
                assert(m[station@] == aggregate);
                assert(aggregate.wf());
                lemma_quotient_bounds(
                    2 * aggregate.sum + aggregate.count,
                    2 * aggregate.count as int,
                    32768,
                );
            }
            let mean = div_euclid(
                2 * aggregate.sum as i128 + aggregate.count as i128,
                2 * aggregate.count as i128,
            );
            rows.push(
                ReportRow {
                    station,
                    min: aggregate.min as i64,
                    mean: mean as i64,
                    max: aggregate.max as i64,
                },
            );
            i = i + 1;
        }
        proof {
            assert forall|a: int, b: int| 0 <= a < b < row_views(rows@).len() implies #[trigger] row_views(
                rows@,
            )[a].0 != #[trigger] row_views(rows@)[b].0 by {
                assert(row_view(rows@[a]) == render_row(entries@[a].0@, entries@[a].1));
                assert(row_view(rows@[b]) == render_row(entries@[b].0@, entries@[b].1));
            }
        }
        let sorted = sort_rows(&rows);
        let text = report(&sorted);
        proof {
            let views = row_views(sorted@);
            let unsorted = row_views(rows@);
            assert forall|i: int| 0 <= i < views.len() implies m.contains_key(
                #[trigger] views[i].0,
            ) && views[i] == render_row(views[i].0, m[views[i].0]) by {
                assert(views.contains(views[i]));
                let j = choose|j: int| 0 <= j < unsorted.len() && #[trigger] unsorted[j] == views[i];
                assert(row_view(rows@[j]) == render_row(entries@[j].0@, entries@[j].1));
            }
            assert forall|k: Seq<u8>| #[trigger] m.contains_key(k) implies exists|i: int|
                0 <= i < views.len() && #[trigger] views[i].0 == k by {
                let j = choose|j: int| 0 <= j < entries@.len() && #[trigger] entries@[j].0@ == k;
                assert(row_view(rows@[j]) == render_row(entries@[j].0@, entries@[j].1));
                assert(unsorted.contains(unsorted[j]));
                assert(views.contains(unsorted[j]));
                let i = choose|i: int| 0 <= i < views.len() && #[trigger] views[i] == unsorted[j];
                assert(views[i].0 == k);
            }
            assert(rows_match(views, m));
            assert forall|j: int| 0 <= j < views.len() implies is_mean_half_up(
                (#[trigger] views[j]).2,
                m[views[j].0].sum as int,
                m[views[j].0].count as int,
            ) && views[j].1 == m[views[j].0].min && views[j].3 == m[views[j].0].max by {
                assert(m.contains_key(views[j].0));
                assert(m[views[j].0].wf());
                lemma_render_row_mean(views[j].0, m[views[j].0]);
            }
        }
        text
    }
}

/// Taking in one more record after `records` is taking it into their tally.
pub proof fn lemma_tally_push(
    m: Map<Seq<u8>, Aggregate>,
    records: Seq<(Seq<u8>, i16)>,
    record: (Seq<u8>, i16),
)
    ensures
        tally(m, records.push(record)) == record_into(tally(m, records), record),
{
    assert(records.push(record).drop_last() =~= records);
}

/// Reads a reading in tenths of a degree: the fractional digit is the last
/// byte, the ones digit the third from the end, and a tens digit is read
/// four bytes from the end when the text is long enough to hold one after an
/// optional minus sign. On `-99.9` to `99.9` written with one fractional
/// digit this is the reading's value.
pub fn parse_temperature(slice: &[u8]) -> (t: Temperature)
    requires
        branch_free_accepts(slice@),
    ensures
        t == branch_free_value(slice@),
        is_temperature_text(slice@) ==> t == temperature_text_value(slice@),
{
    let len = slice.len();
    let neg: usize = if slice[0] == MINUS { 1 } else { 0 };
    let frac = (slice[len - 1] - ZERO) as Temperature;
    let ones = (slice[len - 3] - ZERO) as Temperature;
    let tens: Temperature = if len >= 4 + neg {
        slice[len.saturating_sub(4)].wrapping_sub(ZERO) as Temperature
    } else {
        0
    };
    let val = tens * 100 + ones * 10 + frac;
    proof {
        if is_temperature_text(slice@) {
            lemma_branch_free_reads_text(slice@);
        }
    }
    if neg == 1 {
        -val
    } else {
        val
    }
}

} // verus!
