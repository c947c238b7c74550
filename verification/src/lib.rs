pub mod chunks;
pub mod core_metrics;
pub mod lines;
pub mod memchr;
pub mod metrics;
pub mod readings;
pub mod report;
pub mod station_table;
pub mod summary_laws;
pub mod table;
pub mod temperature;

use vstd::prelude::*;
use crate::core_metrics::{Metrics, MetricsMap, Temperature};
use crate::report::{report, report_text, row_view, row_views, rows_sorted, sort_rows, ReportRow};
use crate::temperature::{branch_free_accepts, branch_free_value, is_temperature_text, temperature_text_value};

verus! {

/// A map ready to hold the summaries of the stations of `buffer`; nothing is
/// read from the buffer yet, so it holds no station.
pub fn compute_metrics<'a>(buffer: &'a [u8]) -> (metrics: MetricsMap<'a>)
    ensures
        metrics@ =~= Map::empty(),
{
    MetricsMap::with_capacity(512)
}

/// A quotient rounded toward zero, as integer division in Rust rounds.
pub open spec fn quotient_toward_zero(a: int, b: int) -> int {
    if a >= 0 {
        a / b
    } else {
        -((-a) / b)
    }
}

/// The row that the report gives a summary: its lowest reading, its mean
/// rounded toward zero to a tenth, and its highest reading.
pub open spec fn summary_row(station: Seq<u8>, m: Metrics) -> (Seq<u8>, int, int, int) {
    (station, m.min as int, quotient_toward_zero(m.sum as int, m.count as int), m.max as int)
}

/// `q` is the quotient of `sum` by a positive `count` rounded toward zero:
/// `q` tenths times `count` does not pass `sum`, and one tenth more (away
/// from zero) would.
pub open spec fn is_mean_toward_zero(q: int, sum: int, count: int) -> bool {
    &&& sum >= 0 ==> q * count <= sum < (q + 1) * count
    &&& sum < 0 ==> (q - 1) * count < sum <= q * count
}

/// The row of a summary holds its station, its lowest reading, its sum
/// divided by its count rounded toward zero, and its highest reading.
pub proof fn lemma_summary_row_mean(station: Seq<u8>, m: Metrics)
    requires
        m.count >= 1,
    ensures
        summary_row(station, m).0 == station,
        summary_row(station, m).1 == m.min,
        summary_row(station, m).3 == m.max,
        is_mean_toward_zero(summary_row(station, m).2, m.sum as int, m.count as int),
{
    let c = m.count as int;
    let s = m.sum as int;
    if s >= 0 {
        vstd::arithmetic::div_mod::lemma_fundamental_div_mod(s, c);
        let q = s / c;
        let r = s % c;
        assert(q * c <= s < (q + 1) * c) by (nonlinear_arith)
            requires
                s == c * q + r,
                0 <= r < c,
        ;
    } else {
        let n = -s;
        vstd::arithmetic::div_mod::lemma_fundamental_div_mod(n, c);
        let p = n / c;
        let r = n % c;
        let q = -p;
        assert((q - 1) * c < s <= q * c) by (nonlinear_arith)
            requires
                n == c * p + r,
                0 <= r < c,
                s == -n,
                q == -p,
        ;
    }
}

/// The report of the summaries `entries`, one per station: `{`, then for
/// each station in byte-wise order `station=min/mean/max` with one
/// fractional digit, joined by `, `, then `}` and a line feed.
pub fn render_metrics(entries: &[(&[u8], Metrics)]) -> (text: Vec<u8>)
    requires
        forall|i: int, j: int|
            0 <= i < j < entries@.len() ==> #[trigger] entries@[i].0@ != #[trigger] entries@[j].0@,
        forall|i: int|
            0 <= i < entries@.len() ==> 1 <= (#[trigger] entries@[i]).1.count <= i64::MAX,
    ensures
        exists|rows: Seq<(Seq<u8>, int, int, int)>|
            {
                &&& rows_sorted(rows)
                &&& rows.len() == entries@.len()
                &&& forall|r: (Seq<u8>, int, int, int)|
                    rows.contains(r) <==> exists|i: int|
                        0 <= i < entries@.len() && r == summary_row(
                            #[trigger] entries@[i].0@,
                            entries@[i].1,
                        )
                &&& forall|j: int|
                    0 <= j < rows.len() ==> exists|i: int|
                        0 <= i < entries@.len() && (#[trigger] rows[j]).0 == (
                        #[trigger] entries@[i]).0@ && rows[j].1 == entries@[i].1.min && rows[j].3
                            == entries@[i].1.max && is_mean_toward_zero(
                            rows[j].2,
                            entries@[i].1.sum as int,
                            entries@[i].1.count as int,
                        )
                &&& text@ == report_text(rows)
            },
{
    let mut rows: Vec<ReportRow> = Vec::new();
    let mut i: usize = 0;
    while i < entries.len()
        invariant
            i <= entries@.len(),
            forall|j: int|
                0 <= j < entries@.len() ==> 1 <= (#[trigger] entries@[j]).1.count <= i64::MAX,
            rows@.len() == i,
            forall|j: int|
                0 <= j < i ==> #[trigger] row_view(rows@[j]) == summary_row(
                    entries@[j].0@,
                    entries@[j].1,
                ),
        decreases entries@.len() - i,
    {
        let (station, summary) = entries[i];
        assert(1 <= entries@[i as int].1.count <= i64::MAX);
        let count = summary.count as i64;
        let mean = summary.sum / count;
        rows.push(ReportRow { station, min: summary.min as i64, mean, max: summary.max as i64 });
        i = i + 1;
    }
    proof {
        assert forall|a: int, b: int| 0 <= a < b < row_views(rows@).len() implies #[trigger] row_views(
            rows@,
        )[a].0 != #[trigger] row_views(rows@)[b].0 by {
            assert(row_view(rows@[a]) == summary_row(entries@[a].0@, entries@[a].1));
            assert(row_view(rows@[b]) == summary_row(entries@[b].0@, entries@[b].1));
        }
    }
    let sorted = sort_rows(&rows);
    let text = report(&sorted);
    proof {
        let views = row_views(sorted@);
        let unsorted = row_views(rows@);
        assert forall|r: (Seq<u8>, int, int, int)| views.contains(r) <==> exists|i: int|
            0 <= i < entries@.len() && r == summary_row(#[trigger] entries@[i].0@, entries@[i].1) by {
            if views.contains(r) {
                assert(unsorted.contains(r));
                let j = choose|j: int| 0 <= j < unsorted.len() && #[trigger] unsorted[j] == r;
                assert(row_view(rows@[j]) == summary_row(entries@[j].0@, entries@[j].1));
            }
            if exists|i: int|
                0 <= i < entries@.len() && r == summary_row(#[trigger] entries@[i].0@, entries@[i].1) {
                let i = choose|i: int|
                    0 <= i < entries@.len() && r == summary_row(
                        #[trigger] entries@[i].0@,
                        entries@[i].1,
                    );
                assert(row_view(rows@[i]) == summary_row(entries@[i].0@, entries@[i].1));
                assert(unsorted[i] == r);
                assert(unsorted.contains(r));
            }
        }
        assert forall|j: int| 0 <= j < views.len() implies exists|i: int|
            0 <= i < entries@.len() && (#[trigger] views[j]).0 == (#[trigger] entries@[i]).0@
                && views[j].1 == entries@[i].1.min && views[j].3 == entries@[i].1.max
                && is_mean_toward_zero(
                views[j].2,
                entries@[i].1.sum as int,
                entries@[i].1.count as int,
            ) by {
            assert(views.contains(views[j]));
            assert(unsorted.contains(views[j]));
            let l = choose|l: int| 0 <= l < unsorted.len() && #[trigger] unsorted[l] == views[j];
            assert(row_view(rows@[l]) == summary_row(entries@[l].0@, entries@[l].1));
            lemma_summary_row_mean(entries@[l].0@, entries@[l].1);
            assert(entries@[l] == entries@[l]);
        }
    }
    text
}

/// Reads a reading in tenths of a degree: the fractional digit is the last
/// byte, the ones digit the third from the end, and a tens digit is read
/// four bytes from the end when the text is long enough to hold one after an
/// optional minus sign. On `-99.9` to `99.9` written with one fractional
/// digit this is the reading's value.
pub fn parse_temperature(buffer: &[u8]) -> (t: Temperature)
    requires
        branch_free_accepts(buffer@),
    ensures
        t == branch_free_value(buffer@),
        is_temperature_text(buffer@) ==> t == temperature_text_value(buffer@),
{
    crate::metrics::parse_temperature(buffer)
}

} // verus!
