use vstd::prelude::*;
use crate::temperature::{DOT, MINUS, ZERO};

verus! {

/// ASCII `=`.
pub const EQUALS: u8 = 61;

/// ASCII `/`.
pub const SLASH: u8 = 47;

/// ASCII `,`.
pub const COMMA: u8 = 44;

/// ASCII space.
pub const SPACE: u8 = 32;

/// ASCII `{`.
pub const OPEN_BRACE: u8 = 123;

/// ASCII `}`.
pub const CLOSE_BRACE: u8 = 125;

/// ASCII line feed.
pub const LINE_FEED: u8 = 10;

/// The decimal digits of `n`, most significant first, without leading zeros.
pub open spec fn decimal_digits(n: nat) -> Seq<u8>
    decreases n,
{
    if n < 10 {
        seq![(48 + n) as u8]
    } else {
        decimal_digits(n / 10).push((48 + n % 10) as u8)
    }
}

pub open spec fn abs(v: int) -> nat {
    if v < 0 {
        (-v) as nat
    } else {
        v as nat
    }
}

/// A value given in tenths, written as a decimal number with one fractional
/// digit: `-123` is `-12.3`, `5` is `0.5`, `0` is `0.0`.
pub open spec fn tenths_text(v: int) -> Seq<u8> {
    let a = abs(v);
    let body = decimal_digits(a / 10) + seq![DOT, (48 + a % 10) as u8];
    if v < 0 {
        seq![MINUS] + body
    } else {
        body
    }
}

/// One station of a report: its bytes, then its lowest, mean and highest
/// reading in tenths of a degree.
#[derive(Clone, Copy)]
pub struct ReportRow<'a> {
    pub station: &'a [u8],
    pub min: i64,
    pub mean: i64,
    pub max: i64,
}

/// The values of a report row.
pub open spec fn row_view(row: ReportRow) -> (Seq<u8>, int, int, int) {
    (row.station@, row.min as int, row.mean as int, row.max as int)
}

/// `station=min/mean/max`, each value with one fractional digit.
pub open spec fn row_text(row: (Seq<u8>, int, int, int)) -> Seq<u8> {
    row.0 + seq![EQUALS] + tenths_text(row.1) + seq![SLASH] + tenths_text(row.2) + seq![SLASH]
        + tenths_text(row.3)
}

/// The rows' texts joined by `, `.
pub open spec fn joined_rows(rows: Seq<(Seq<u8>, int, int, int)>) -> Seq<u8>
    decreases rows.len(),
{
    if rows.len() == 0 {
        Seq::empty()
    } else if rows.len() == 1 {
        row_text(rows[0])
    } else {
        joined_rows(rows.drop_last()) + seq![COMMA, SPACE] + row_text(rows.last())
    }
}

/// The whole report: `{`, the rows joined by `, `, `}` and a line feed.
pub open spec fn report_text(rows: Seq<(Seq<u8>, int, int, int)>) -> Seq<u8> {
    seq![OPEN_BRACE] + joined_rows(rows) + seq![CLOSE_BRACE, LINE_FEED]
}

/// Byte-wise lexicographic order, a proper prefix first: how `str` and
/// `[u8]` order.
pub open spec fn bytes_lt(a: Seq<u8>, b: Seq<u8>) -> bool
    decreases a.len(),
{
    if a.len() == 0 {
        b.len() > 0
    } else if b.len() == 0 {
        false
    } else if a[0] < b[0] {
        true
    } else if a[0] > b[0] {
        false
    } else {
        bytes_lt(a.drop_first(), b.drop_first())
    }
}

/// The rows are in strictly increasing order of station.
pub open spec fn rows_sorted(rows: Seq<(Seq<u8>, int, int, int)>) -> bool {
    forall|i: int, j: int| 0 <= i < j < rows.len() ==> bytes_lt(#[trigger] rows[i].0, #[trigger] rows[j].0)
}

pub proof fn lemma_bytes_lt_irreflexive(a: Seq<u8>)
    ensures
        !bytes_lt(a, a),
    decreases a.len(),
{
    if a.len() > 0 {
        lemma_bytes_lt_irreflexive(a.drop_first());
    }
}

/// Of two different byte strings one comes first, and never both.
pub proof fn lemma_bytes_lt_total(a: Seq<u8>, b: Seq<u8>)
    ensures
        a != b ==> bytes_lt(a, b) || bytes_lt(b, a),
        !(bytes_lt(a, b) && bytes_lt(b, a)),
    decreases a.len(),
{
    if a.len() > 0 && b.len() > 0 && a[0] == b[0] {
        lemma_bytes_lt_total(a.drop_first(), b.drop_first());
        if a != b {
            assert(a.drop_first() != b.drop_first()) by {
                if a.drop_first() == b.drop_first() {
                    assert forall|i: int| 0 <= i < a.len() implies a[i] == b[i] by {
                        if i > 0 {
                            assert(a[i] == a.drop_first()[i - 1]);
                            assert(b[i] == b.drop_first()[i - 1]);
                        }
                    }
                    assert(a =~= b);
                }
            }
        }
    } else if a.len() == 0 && b.len() == 0 {
        assert(a =~= b);
    }
}

pub proof fn lemma_bytes_lt_transitive(a: Seq<u8>, b: Seq<u8>, c: Seq<u8>)
    requires
        bytes_lt(a, b),
        bytes_lt(b, c),
    ensures
        bytes_lt(a, c),
    decreases a.len(),
{
    if a.len() > 0 && b.len() > 0 && c.len() > 0 && a[0] == b[0] && b[0] == c[0] {
        lemma_bytes_lt_transitive(a.drop_first(), b.drop_first(), c.drop_first());
    }
}

/// Whether `a` comes before `b` in byte-wise order.
pub fn bytes_less(a: &[u8], b: &[u8]) -> (r: bool)
    ensures
        r == bytes_lt(a@, b@),
{
    let mut i: usize = 0;
    proof {
        assert(a@.skip(0) =~= a@);
        assert(b@.skip(0) =~= b@);
    }
    while i < a.len() && i < b.len()
        invariant
            i <= a@.len(),
            i <= b@.len(),
            bytes_lt(a@, b@) == bytes_lt(a@.skip(i as int), b@.skip(i as int)),
        decreases a@.len() - i,
    {
        if a[i] < b[i] {
            return true;
        }
        if a[i] > b[i] {
            return false;
        }
        proof {
            assert(a@.skip(i as int).drop_first() =~= a@.skip(i + 1));
            assert(b@.skip(i as int).drop_first() =~= b@.skip(i + 1));
        }
        i = i + 1;
    }
    i < b.len()
}

/// Appends the decimal digits of `n`.
fn push_decimal(out: &mut Vec<u8>, n: u64)
    ensures
        final(out)@ == old(out)@ + decimal_digits(n as nat),
    decreases n,
{
    if n >= 10 {
        push_decimal(out, n / 10);
    }
    out.push(ZERO + (n % 10) as u8);
    proof {
        if n < 10 {
            assert(old(out)@ + decimal_digits(n as nat) =~= old(out)@.push((48 + n) as u8));
        } else {
            assert(old(out)@ + decimal_digits(n as nat) =~= old(out)@ + decimal_digits(
                (n / 10) as nat,
            ) + seq![(48 + n % 10) as u8]);
        }
    }
}

/// Appends `v` tenths written with one fractional digit.
pub fn push_tenths(out: &mut Vec<u8>, v: i64)
    ensures
        final(out)@ == old(out)@ + tenths_text(v as int),
{
    let magnitude: u64 = if v < 0 {
        (0i128 - v as i128) as u64
    } else {
        v as u64
    };
    if v < 0 {
        out.push(MINUS);
    }
    let ghost signed = out@;
    push_decimal(out, magnitude / 10);
    out.push(DOT);
    out.push(ZERO + (magnitude % 10) as u8);
    proof {
        assert(magnitude == abs(v as int));
        let body = decimal_digits(abs(v as int) / 10) + seq![DOT, (48 + abs(v as int) % 10) as u8];
        assert(out@ =~= signed + body);
        if v < 0 {
            assert(old(out)@ + tenths_text(v as int) =~= old(out)@.push(MINUS) + body);
        } else {
            assert(old(out)@ + tenths_text(v as int) =~= old(out)@ + body);
        }
    }
}

/// Appends the text of one row.
fn push_row(out: &mut Vec<u8>, row: &ReportRow)
    ensures
        final(out)@ == old(out)@ + row_text(row_view(*row)),
{
    let mut i: usize = 0;
    while i < row.station.len()
        invariant
            i <= row.station@.len(),
            out@ == old(out)@ + row.station@.take(i as int),
        decreases row.station@.len() - i,
    {
        out.push(row.station[i]);
        proof {
            assert(row.station@.take(i + 1) =~= row.station@.take(i as int).push(row.station@[i as int]));
        }
        i = i + 1;
    }
    out.push(EQUALS);
    push_tenths(out, row.min);
    out.push(SLASH);
    push_tenths(out, row.mean);
    out.push(SLASH);
    push_tenths(out, row.max);
    proof {
        assert(row.station@.take(row.station@.len() as int) =~= row.station@);
        assert(out@ =~= old(out)@ + row_text(row_view(*row)));
    }
}

/// The report of rows, in the order given.
pub fn report(rows: &Vec<ReportRow>) -> (text: Vec<u8>)
    ensures
        text@ == report_text(rows@.map_values(|r: ReportRow| row_view(r))),
{
    let ghost views = rows@.map_values(|r: ReportRow| row_view(r));
    let mut out: Vec<u8> = Vec::new();
    out.push(OPEN_BRACE);
    let mut i: usize = 0;
    while i < rows.len()
        invariant
            views == rows@.map_values(|r: ReportRow| row_view(r)),
            i <= rows@.len(),
            out@ == seq![OPEN_BRACE] + joined_rows(views.take(i as int)),
        decreases rows@.len() - i,
    {
        if i > 0 {
            out.push(COMMA);
            out.push(SPACE);
        }
        push_row(&mut out, &rows[i]);
        proof {
            let next = views.take(i + 1);
            assert(next.drop_last() =~= views.take(i as int));
            assert(next.last() == row_view(rows@[i as int]));
            if i == 0 {
                assert(out@ =~= seq![OPEN_BRACE] + joined_rows(next));
            } else {
                assert(out@ =~= seq![OPEN_BRACE] + joined_rows(next));
            }
        }
        i = i + 1;
    }
    out.push(CLOSE_BRACE);
    out.push(LINE_FEED);
    proof {
        assert(views.take(views.len() as int) =~= views);
        assert(out@ =~= report_text(views));
    }
    out
}


/// The row values of `rows`.
pub open spec fn row_views(rows: Seq<ReportRow>) -> Seq<(Seq<u8>, int, int, int)> {
    rows.map_values(|r: ReportRow| row_view(r))
}

/// No two rows are of the same station.
pub open spec fn stations_distinct(rows: Seq<(Seq<u8>, int, int, int)>) -> bool {
    forall|i: int, j: int| 0 <= i < j < rows.len() ==> #[trigger] rows[i].0 != #[trigger] rows[j].0
}

/// Puts rows of distinct stations in increasing byte-wise order of station.
pub fn sort_rows<'a>(rows: &Vec<ReportRow<'a>>) -> (sorted: Vec<ReportRow<'a>>)
    requires
        stations_distinct(row_views(rows@)),
    ensures
        sorted@.len() == rows@.len(),
        rows_sorted(row_views(sorted@)),
        forall|x: (Seq<u8>, int, int, int)|
            row_views(sorted@).contains(x) <==> row_views(rows@).contains(x),
{
    let ghost input = row_views(rows@);
    let mut out: Vec<ReportRow<'a>> = Vec::new();
    let mut i: usize = 0;
    while i < rows.len()
        invariant
            input == row_views(rows@),
            stations_distinct(input),
            i <= rows@.len(),
            out@.len() == i,
            rows_sorted(row_views(out@)),
            forall|x: (Seq<u8>, int, int, int)|
                row_views(out@).contains(x) <==> input.take(i as int).contains(x),
        decreases rows@.len() - i,
    {
        let row = rows[i];
        let ghost current = row_views(out@);
        let ghost new_view = row_view(row);
        assert(new_view == input[i as int]);
        assert(forall|x: (Seq<u8>, int, int, int)|
            current.contains(x) <==> input.take(i as int).contains(x));
        let mut p: usize = 0;
        loop
            invariant
                current == row_views(out@),
                new_view == row_view(row),
                p <= out@.len(),
                forall|k: int| 0 <= k < p ==> bytes_lt(#[trigger] current[k].0, new_view.0),
            ensures
                p <= out@.len(),
                forall|k: int| 0 <= k < p ==> bytes_lt(#[trigger] current[k].0, new_view.0),
                p == out@.len() || !bytes_lt(current[p as int].0, new_view.0),
            decreases out@.len() - p,
        {
            if p >= out.len() {
                break;
            }
            assert(current[p as int].0 == out@[p as int].station@);
            if !bytes_less(out[p].station, row.station) {
                break;
            }
            p = p + 1;
        }
        proof {
            assert forall|k: int| 0 <= k < current.len() implies #[trigger] current[k].0
                != new_view.0 by {
                assert(current.contains(current[k]));
                assert(input.take(i as int).contains(current[k]));
                let j = choose|j: int| 0 <= j < i && #[trigger] input.take(i as int)[j] == current[k];
                assert(input[j] == current[k]);
            }
            if p < current.len() {
                lemma_bytes_lt_total(current[p as int].0, new_view.0);
            }
        }
        out.insert(p, row);
        proof {
            let updated = row_views(out@);
            assert(updated =~= current.insert(p as int, new_view));
            assert forall|a: int, b: int| 0 <= a < b < updated.len() implies bytes_lt(
                #[trigger] updated[a].0,
                #[trigger] updated[b].0,
            ) by {
                if b < p {
                } else if b == p {
                } else if a < p {
                    assert(updated[b] == current[b - 1]);
                    if p < current.len() {
                        lemma_bytes_lt_total(current[p as int].0, new_view.0);
                        if b - 1 > p {
                            assert(bytes_lt(current[p as int].0, current[b - 1].0));
                            lemma_bytes_lt_transitive(
                                current[a].0,
                                current[p as int].0,
                                current[b - 1].0,
                            );
                        }
                    }
                } else if a == p {
                    assert(updated[b] == current[b - 1]);
                    lemma_bytes_lt_total(current[p as int].0, new_view.0);
                    if b - 1 > p {
                        assert(bytes_lt(current[p as int].0, current[b - 1].0));
                        lemma_bytes_lt_transitive(
                            new_view.0,
                            current[p as int].0,
                            current[b - 1].0,
                        );
                    }
                } else {
                    assert(updated[a] == current[a - 1]);
                    assert(updated[b] == current[b - 1]);
                }
            }
            assert(input.take(i + 1) =~= input.take(i as int).push(new_view));
            assert forall|x: (Seq<u8>, int, int, int)| updated.contains(x) <==> input.take(
                i + 1,
            ).contains(x) by {
                if updated.contains(x) {
                    let k = choose|k: int| 0 <= k < updated.len() && #[trigger] updated[k] == x;
                    if k < p {
                        assert(current.contains(current[k]));
                        let j = choose|j: int| 0 <= j < i && #[trigger] input.take(i as int)[j] == x;
                        assert(input.take(i + 1)[j] == x);
                    } else if k == p {
                        assert(input.take(i + 1)[i as int] == x);
                    } else {
                        assert(current[k - 1] == x);
                        assert(current.contains(current[k - 1]));
                        let j = choose|j: int| 0 <= j < i && #[trigger] input.take(i as int)[j] == x;
                        assert(input.take(i + 1)[j] == x);
                    }
                }
                if input.take(i + 1).contains(x) {
                    let j = choose|j: int| 0 <= j < i + 1 && #[trigger] input.take(i + 1)[j] == x;
                    if j == i {
                        assert(updated[p as int] == x);
                    } else {
                        assert(input.take(i as int)[j] == x);
                        assert(input.take(i as int).contains(x));
                        assert(current.contains(x));
                        let k = choose|k: int| 0 <= k < current.len() && #[trigger] current[k] == x;
                        if k < p {
                            assert(updated[k] == x);
                        } else {
                            assert(updated[k + 1] == x);
                        }
                    }
                }
            }
        }
        i = i + 1;
    }
    proof {
        assert(input.take(rows@.len() as int) =~= input);
    }
    out
}

} // verus!
