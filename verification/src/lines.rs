use vstd::prelude::*;
use crate::metrics::{newl, semi};
use crate::temperature::{branch_free_accepts, branch_free_value, ZERO};

verus! {

/// `i` is the position of the first `b` in `s`.
pub open spec fn is_first_at(s: Seq<u8>, b: u8, i: int) -> bool {
    &&& 0 <= i < s.len()
    &&& s[i] == b
    &&& forall|j: int| 0 <= j < i ==> s[j] != b
}

/// `i` is the position of the last `b` in `s`.
pub open spec fn is_last_at(s: Seq<u8>, b: u8, i: int) -> bool {
    &&& 0 <= i < s.len()
    &&& s[i] == b
    &&& forall|j: int| i < j < s.len() ==> s[j] != b
}

/// The position of the first `b` in `s`, if `s` holds one.
pub open spec fn first_index_of(s: Seq<u8>, b: u8) -> Option<int> {
    if exists|i: int| is_first_at(s, b, i) {
        Some(choose|i: int| is_first_at(s, b, i))
    } else {
        None
    }
}

/// The position of the last `b` in `s`, if `s` holds one.
pub open spec fn last_index_of(s: Seq<u8>, b: u8) -> Option<int> {
    if exists|i: int| is_last_at(s, b, i) {
        Some(choose|i: int| is_last_at(s, b, i))
    } else {
        None
    }
}

pub open spec fn lacks_byte(s: Seq<u8>, b: u8) -> bool {
    forall|j: int| 0 <= j < s.len() ==> s[j] != b
}

/// The newline-terminated lines of `s`, in order, without their newlines.
/// Bytes after the last newline form no line.
pub open spec fn complete_lines(s: Seq<u8>) -> Seq<Seq<u8>>
    decreases s.len(),
{
    if exists|i: int| is_first_at(s, newl, i) {
        let i = choose|i: int| is_first_at(s, newl, i);
        seq![s.take(i)] + complete_lines(s.skip(i + 1))
    } else {
        Seq::empty()
    }
}

/// `s` is empty or ends a line.
pub open spec fn ends_on_line_boundary(s: Seq<u8>) -> bool {
    s.len() == 0 || s.last() == newl
}

/// A line that the measurement reader accepts: it holds a `;`, and what
/// follows the last `;` is a reading that the branch-free parser accepts.
pub open spec fn line_ok(line: Seq<u8>) -> bool {
    &&& last_index_of(line, semi) is Some
    &&& branch_free_accepts(line.skip(last_index_of(line, semi).unwrap() + 1))
}

/// The station of a line: everything before its last `;`.
pub open spec fn line_station(line: Seq<u8>) -> Seq<u8> {
    line.take(last_index_of(line, semi).unwrap())
}

/// The reading of a line, in tenths of a degree: what follows its last `;`.
pub open spec fn line_reading(line: Seq<u8>) -> i16 {
    branch_free_value(line.skip(last_index_of(line, semi).unwrap() + 1)) as i16
}

/// Every complete line of `s` is one that the reader accepts.
pub open spec fn all_lines_ok(s: Seq<u8>) -> bool {
    forall|i: int| 0 <= i < complete_lines(s).len() ==> line_ok(#[trigger] complete_lines(s)[i])
}

/// The (station, reading) records of the complete lines of `s`, in order.
pub open spec fn line_records(s: Seq<u8>) -> Seq<(Seq<u8>, i16)> {
    complete_lines(s).map_values(|line: Seq<u8>| (line_station(line), line_reading(line)))
}

pub proof fn lemma_first_unique(s: Seq<u8>, b: u8, i: int)
    requires
        is_first_at(s, b, i),
    ensures
        first_index_of(s, b) == Some(i),
        (choose|k: int| is_first_at(s, b, k)) == i,
{
    let k = choose|k: int| is_first_at(s, b, k);
    assert(is_first_at(s, b, k));
    if k < i {
        assert(s[k] != b);
    } else if i < k {
        assert(s[i] != b);
    }
}

pub proof fn lemma_last_unique(s: Seq<u8>, b: u8, i: int)
    requires
        is_last_at(s, b, i),
    ensures
        last_index_of(s, b) == Some(i),
{
    let k = choose|k: int| is_last_at(s, b, k);
    assert(is_last_at(s, b, k));
    if k < i {
        assert(s[i] != b);
    } else if i < k {
        assert(s[k] != b);
    }
}

/// A sequence that holds `b` somewhere has a first `b`.
pub proof fn lemma_first_exists(s: Seq<u8>, b: u8, i: int)
    requires
        0 <= i < s.len(),
        s[i] == b,
    ensures
        exists|k: int| is_first_at(s, b, k),
    decreases i,
{
    if exists|j: int| 0 <= j < i && s[j] == b {
        let j = choose|j: int| 0 <= j < i && s[j] == b;
        lemma_first_exists(s, b, j);
    } else {
        assert(is_first_at(s, b, i));
    }
}

/// A sequence that holds `b` somewhere has a last `b`.
pub proof fn lemma_last_exists(s: Seq<u8>, b: u8, i: int)
    requires
        0 <= i < s.len(),
        s[i] == b,
    ensures
        exists|k: int| is_last_at(s, b, k),
    decreases s.len() - i,
{
    if exists|j: int| i < j < s.len() && s[j] == b {
        let j = choose|j: int| i < j < s.len() && s[j] == b;
        lemma_last_exists(s, b, j);
    } else {
        assert(is_last_at(s, b, i));
    }
}

/// Text without a newline holds no complete line.
pub proof fn lemma_no_lines(s: Seq<u8>)
    requires
        lacks_byte(s, newl),
    ensures
        complete_lines(s) == Seq::<Seq<u8>>::empty(),
{
    assert(!exists|i: int| is_first_at(s, newl, i));
}

/// A line without a newline, followed by a newline, is one complete line.
pub proof fn lemma_one_line(line: Seq<u8>)
    requires
        lacks_byte(line, newl),
    ensures
        complete_lines(line.push(newl)) == seq![line],
{
    let s = line.push(newl);
    assert(is_first_at(s, newl, line.len() as int));
    lemma_first_unique(s, newl, line.len() as int);
    assert(s.take(line.len() as int) =~= line);
    assert(s.skip(line.len() as int + 1) =~= Seq::<u8>::empty());
    lemma_no_lines(s.skip(line.len() as int + 1));
}

/// Splitting text at a line boundary splits its lines there.
pub proof fn lemma_lines_concat(p: Seq<u8>, q: Seq<u8>)
    requires
        ends_on_line_boundary(p),
    ensures
        complete_lines(p + q) == complete_lines(p) + complete_lines(q),
    decreases p.len(),
{
    if p.len() == 0 {
        assert(p + q =~= q);
        lemma_no_lines(p);
        assert(complete_lines(p) + complete_lines(q) =~= complete_lines(q));
    } else {
        lemma_first_exists(p, newl, p.len() - 1);
        let i = choose|i: int| is_first_at(p, newl, i);
        lemma_first_unique(p, newl, i);
        let s = p + q;
        assert(is_first_at(s, newl, i));
        lemma_first_unique(s, newl, i);
        assert(s.take(i) =~= p.take(i));
        assert(s.skip(i + 1) =~= p.skip(i + 1) + q);
        let rest = p.skip(i + 1);
        assert(rest.len() == 0 || rest.last() == p.last());
        lemma_lines_concat(rest, q);
        assert(complete_lines(s) =~= seq![p.take(i)] + (complete_lines(rest) + complete_lines(q)));
        assert(complete_lines(p) =~= seq![p.take(i)] + complete_lines(rest));
    }
}


/// A text holds no more lines than it holds bytes.
pub proof fn lemma_line_count_bound(s: Seq<u8>)
    ensures
        complete_lines(s).len() <= s.len(),
    decreases s.len(),
{
    if exists|i: int| is_first_at(s, newl, i) {
        let i = choose|i: int| is_first_at(s, newl, i);
        lemma_line_count_bound(s.skip(i + 1));
    }
}

/// Reading up to and through the newline at `cursor` adds the line that
/// starts at `line_start` to the lines read before it; that line is one of
/// the lines of the whole text.
pub proof fn lemma_next_line(s: Seq<u8>, line_start: int, cursor: int)
    requires
        0 <= line_start <= cursor < s.len(),
        ends_on_line_boundary(s.take(line_start)),
        lacks_byte(s.subrange(line_start, cursor), newl),
        s[cursor] == newl,
    ensures
        complete_lines(s.take(cursor + 1)) == complete_lines(s.take(line_start)).push(
            s.subrange(line_start, cursor),
        ),
        line_records(s.take(cursor + 1)) == line_records(s.take(line_start)).push(
            (line_station(s.subrange(line_start, cursor)), line_reading(s.subrange(line_start, cursor))),
        ),
        all_lines_ok(s) ==> line_ok(s.subrange(line_start, cursor)),
{
    let line = s.subrange(line_start, cursor);
    let head = s.take(line_start);
    assert(s.take(cursor + 1) =~= head + line.push(newl));
    lemma_one_line(line);
    lemma_lines_concat(head, line.push(newl));
    assert(complete_lines(s.take(cursor + 1)) =~= complete_lines(head).push(line));
    assert(line_records(s.take(cursor + 1)) =~= line_records(head).push(
        (line_station(line), line_reading(line)),
    ));
    assert(s =~= s.take(cursor + 1) + s.skip(cursor + 1));
    assert(s.take(cursor + 1).last() == newl);
    lemma_lines_concat(s.take(cursor + 1), s.skip(cursor + 1));
    let n = complete_lines(head).len() as int;
    assert(complete_lines(s)[n] == line);
}

/// Text after the last newline adds no line.
pub proof fn lemma_trailing_bytes(s: Seq<u8>, line_start: int)
    requires
        0 <= line_start <= s.len(),
        ends_on_line_boundary(s.take(line_start)),
        lacks_byte(s.subrange(line_start, s.len() as int), newl),
    ensures
        line_records(s) == line_records(s.take(line_start)),
{
    let head = s.take(line_start);
    let rest = s.skip(line_start);
    assert(rest =~= s.subrange(line_start, s.len() as int));
    assert(s =~= head + rest);
    lemma_no_lines(rest);
    lemma_lines_concat(head, rest);
    assert(complete_lines(s) =~= complete_lines(head));
}


/// Whether every complete line of `slice` is one that the measurement
/// reader accepts: it holds a `;`, and what follows its last `;` has three
/// bytes at least, of which the last and the third from the end are not
/// below `0`.
pub fn lines_readable(slice: &[u8]) -> (ok: bool)
    ensures
        ok == all_lines_ok(slice@),
{
    let ghost s = slice@;
    let mut cursor: usize = 0;
    let mut line_start: usize = 0;
    let mut maybe_semicolon_cursor: Option<usize> = None;
    proof {
        assert(s.take(0) =~= Seq::<u8>::empty());
        lemma_no_lines(s.take(0));
    }
    while cursor < slice.len()
        invariant
            s == slice@,
            line_start <= cursor <= s.len(),
            ends_on_line_boundary(s.take(line_start as int)),
            lacks_byte(s.subrange(line_start as int, cursor as int), newl),
            match maybe_semicolon_cursor {
                Some(c) => line_start <= c < cursor && is_last_at(
                    s.subrange(line_start as int, cursor as int),
                    semi,
                    c - line_start,
                ),
                None => lacks_byte(s.subrange(line_start as int, cursor as int), semi),
            },
            forall|i: int|
                0 <= i < complete_lines(s.take(line_start as int)).len() ==> line_ok(
                    #[trigger] complete_lines(s.take(line_start as int))[i],
                ),
        decreases s.len() - cursor,
    {
        let byte = slice[cursor];
        let ghost before = s.subrange(line_start as int, cursor as int);
        let ghost after = s.subrange(line_start as int, cursor + 1);
        assert(after =~= before.push(byte));
        if byte == semi {
            maybe_semicolon_cursor = Some(cursor);
            proof {
                assert(is_last_at(after, semi, cursor - line_start));
            }
        } else if byte == newl {
            let ghost line = before;
            proof {
                lemma_next_line(s, line_start as int, cursor as int);
            }
            match maybe_semicolon_cursor {
                Some(c) => {
                    proof {
                        lemma_last_unique(line, semi, c - line_start);
                        assert(s.subrange(c + 1, cursor as int) =~= line.skip(c - line_start + 1));
                    }
                    let n = cursor - (c + 1);
                    if n < 3 || slice[cursor - 1] < ZERO || slice[cursor - 3] < ZERO {
                        proof {
                            assert(!line_ok(line));
                        }
                        return false;
                    }
                    proof {
                        assert(line_ok(line));
                        let prior = complete_lines(s.take(line_start as int));
                        assert forall|i: int|
                            0 <= i < complete_lines(s.take(cursor + 1)).len() implies line_ok(
                            #[trigger] complete_lines(s.take(cursor + 1))[i],
                        ) by {
                            if i < prior.len() {
                                assert(complete_lines(s.take(cursor + 1))[i] == prior[i]);
                            }
                        }
                        assert(s.take(cursor + 1).last() == newl);
                    }
                },
                None => {
                    proof {
                        if last_index_of(line, semi) is Some {
                            let j = choose|j: int| is_last_at(line, semi, j);
                            assert(line[j] == semi);
                        }
                        assert(!line_ok(line));
                    }
                    return false;
                },
            }
            line_start = cursor + 1;
            maybe_semicolon_cursor = None;
            proof {
                assert(s.subrange(line_start as int, cursor + 1) =~= Seq::<u8>::empty());
            }
        } else {
            proof {
                match maybe_semicolon_cursor {
                    Some(c) => {
                        assert(is_last_at(after, semi, c - line_start));
                    },
                    None => {},
                }
            }
        }
        cursor = cursor + 1;
    }
    proof {
        let head = s.take(line_start as int);
        let rest = s.skip(line_start as int);
        assert(rest =~= s.subrange(line_start as int, s.len() as int));
        assert(s =~= head + rest);
        lemma_no_lines(rest);
        lemma_lines_concat(head, rest);
        assert(complete_lines(s) =~= complete_lines(head));
    }
    true
}

} // verus!
