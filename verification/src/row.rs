//! The row grammar `key;value`, and the value grammar `-?[0-9]{1,2}\.[0-9]`.

use crate::scan::{find_byte, find_new_line_pos, first_offset, NEWLINE, SEPARATOR};
use crate::scan::{lemma_first_offset_is_first, lemma_first_offset_unique};
use crate::stats::{VALUE_MAX, VALUE_MIN};
use vstd::prelude::*;
use vstd::slice::slice_subrange;

verus! {

/// `-`, the sign that may open a value.
pub const MINUS: u8 = 45;

/// `.`, the point between a value's integer digits and its fractional digit.
pub const POINT: u8 = 46;

/// The digit `0`; the other digits follow it.
pub const ZERO: u8 = 48;

/// Why a line is no row.
#[derive(Clone, Copy, Debug, PartialEq, Eq, Structural)]
pub enum MalformedRow {
    /// The line holds no `;`.
    MissingSeparator,
    /// What follows the first `;` is not a value of the grammar.
    InvalidValue,
}

/// One row as the contracts see it: the key's bytes and the value in tenths.
pub struct RowView {
    pub key: Seq<u8>,
    pub value: int,
}

/// `b` is one of `0` to `9`.
pub open spec fn is_digit(b: u8) -> bool {
    ZERO <= b <= ZERO + 9
}

/// The number that the digit `b` writes.
pub open spec fn digit_value(b: u8) -> int {
    b - ZERO
}

/// The tenths written by an unsigned field: one or two digits, a point, one
/// digit. `None` for any other text.
pub open spec fn magnitude_of(body: Seq<u8>) -> Option<int> {
    if body.len() == 3 && is_digit(body[0]) && body[1] == POINT && is_digit(body[2]) {
        Some(10 * digit_value(body[0]) + digit_value(body[2]))
    } else if body.len() == 4 && is_digit(body[0]) && is_digit(body[1]) && body[2] == POINT
        && is_digit(body[3]) {
        Some(100 * digit_value(body[0]) + 10 * digit_value(body[1]) + digit_value(body[3]))
    } else {
        None
    }
}

/// The value, in tenths, that `field` writes: an optional `-`, one or two
/// digits, a point and one digit. `None` where `field` is anything else.
pub open spec fn value_of(field: Seq<u8>) -> Option<int> {
    if field.len() > 0 && field[0] == MINUS {
        match magnitude_of(field.skip(1)) {
            Some(m) => Some(-m),
            None => None,
        }
    } else {
        magnitude_of(field)
    }
}

/// The row that `line` writes, `line` being the text of one row without its
/// newline: the key is what stands before the first `;`, the value what
/// stands after it.
pub open spec fn row_of(line: Seq<u8>) -> Result<RowView, MalformedRow> {
    let sep = first_offset(line, SEPARATOR);
    if sep >= line.len() {
        Err(MalformedRow::MissingSeparator)
    } else {
        match value_of(line.skip(sep + 1)) {
            Some(value) => Ok(RowView { key: line.take(sep), value }),
            None => Err(MalformedRow::InvalidValue),
        }
    }
}

/// The text of the first row of `text`, without its newline.
pub open spec fn first_line(text: Seq<u8>) -> Seq<u8> {
    text.take(first_offset(text, NEWLINE))
}

/// How many bytes the first row of `text` takes, its newline included where
/// it has one.
pub open spec fn first_row_len(text: Seq<u8>) -> int {
    let end = first_offset(text, NEWLINE);
    if end < text.len() {
        end + 1
    } else {
        end
    }
}

/// Where in a text the first malformed row starts, and what is wrong with it.
pub struct BadRow {
    pub offset: int,
    pub reason: MalformedRow,
}

/// The rows of `text` in order, or the first row that is malformed. Every
/// row but the last ends in a newline; the last may.
pub open spec fn rows_of(text: Seq<u8>) -> Result<Seq<RowView>, BadRow>
    decreases text.len(),
    via rows_of_decreases
{
    if text.len() == 0 {
        Ok(Seq::empty())
    } else {
        match row_of(first_line(text)) {
            Err(reason) => Err(BadRow { offset: 0, reason }),
            Ok(row) => match rows_of(text.skip(first_row_len(text))) {
                Ok(rest) => Ok(seq![row] + rest),
                Err(bad) => Err(
                    BadRow { offset: first_row_len(text) + bad.offset, reason: bad.reason },
                ),
            },
        }
    }
}

#[via_fn]
proof fn rows_of_decreases(text: Seq<u8>) {
    lemma_first_offset_is_first(text, NEWLINE);
}

/// A non-empty text's first row takes at least one byte and no more than the
/// text has.
pub proof fn lemma_first_row_len(text: Seq<u8>)
    requires
        text.len() > 0,
    ensures
        1 <= first_row_len(text) <= text.len(),
{
    lemma_first_offset_is_first(text, NEWLINE);
}

/// In the first row of a text, the key holds neither the separator nor a
/// newline, and the value lies between `-99.9` and `99.9`.
pub proof fn lemma_first_row(text: Seq<u8>)
    requires
        row_of(first_line(text)) is Ok,
    ensures
        forall|i: int|
            0 <= i < (row_of(first_line(text))->Ok_0).key.len() ==> {
                &&& (#[trigger] (row_of(first_line(text))->Ok_0).key[i]) != SEPARATOR
                &&& (row_of(first_line(text))->Ok_0).key[i] != NEWLINE
            },
        VALUE_MIN <= (row_of(first_line(text))->Ok_0).value <= VALUE_MAX,
{
    lemma_first_offset_is_first(text, NEWLINE);
    lemma_first_offset_is_first(first_line(text), SEPARATOR);
}

/// Every row's value lies between `VALUE_MIN` and `VALUE_MAX`.
pub open spec fn rows_in_range(rows: Seq<RowView>) -> bool {
    forall|i: int| 0 <= i < rows.len() ==> VALUE_MIN <= (#[trigger] rows[i]).value <= VALUE_MAX
}

/// `rest` being what `rows_of` yields from offset `at` of a text on, and
/// `done` the rows before `at`: what `rows_of` yields for the whole text.
pub open spec fn resumed(done: Seq<RowView>, at: int, rest: Result<Seq<RowView>, BadRow>) -> Result<
    Seq<RowView>,
    BadRow,
> {
    match rest {
        Ok(rows) => Ok(done + rows),
        Err(bad) => Err(BadRow { offset: at + bad.offset, reason: bad.reason }),
    }
}

/// The rows of a text have values in range, and a text holds no more rows
/// than bytes.
pub proof fn lemma_rows_of(text: Seq<u8>)
    requires
        rows_of(text) is Ok,
    ensures
        rows_in_range(rows_of(text)->Ok_0),
        (rows_of(text)->Ok_0).len() <= text.len(),
    decreases text.len(),
{
    if text.len() > 0 {
        lemma_first_row_len(text);
        let rest = text.skip(first_row_len(text));
        lemma_rows_of(rest);
    }
}

/// Where a malformed row stands in a text, it starts inside the text.
pub proof fn lemma_bad_row_offset(text: Seq<u8>)
    requires
        rows_of(text) is Err,
    ensures
        0 <= (rows_of(text)->Err_0).offset < text.len(),
    decreases text.len(),
{
    if text.len() > 0 {
        lemma_first_row_len(text);
        if row_of(first_line(text)) is Ok {
            lemma_bad_row_offset(text.skip(first_row_len(text)));
        }
    }
}

/// Rows do not straddle a cut that follows a newline: the rows of `a + b`
/// are the rows of `a` followed by those of `b`, and the first malformed row
/// of `a + b` is that of `a`, or else that of `b`.
pub proof fn lemma_rows_of_concat(a: Seq<u8>, b: Seq<u8>)
    requires
        a.len() == 0 || a.last() == NEWLINE,
    ensures
        rows_of(a + b) == match rows_of(a) {
            Ok(done) => resumed(done, a.len() as int, rows_of(b)),
            Err(bad) => Err::<Seq<RowView>, BadRow>(bad),
        },
    decreases a.len(),
{
    if a.len() > 0 {
        let whole = a + b;
        lemma_first_offset_is_first(a, NEWLINE);
        let end = first_offset(a, NEWLINE);
        lemma_first_offset_unique(whole, NEWLINE, end);
        assert(first_line(whole) =~= first_line(a));
        let taken = end + 1;
        assert(whole.skip(taken) =~= a.skip(taken) + b);
        let tail = a.skip(taken);
        lemma_rows_of_concat(tail, b);
        match row_of(first_line(a)) {
            Err(reason) => {},
            Ok(row) => {
                match rows_of(tail) {
                    Err(bad) => {},
                    Ok(done) => {
                        match rows_of(b) {
                            Err(bad) => {},
                            Ok(rows) => {
                                assert(seq![row] + (done + rows) =~= (seq![row] + done) + rows);
                            },
                        }
                    },
                }
            },
        }
    }
}

/// Reads the value that `field` writes: `Some` of its tenths where `field`
/// is an optional `-`, one or two digits, a point and one digit, and `None`
/// for every other text.
pub fn parse_value(field: &[u8]) -> (r: Option<i16>)
    ensures
        match r {
            Some(v) => value_of(field@) == Some(v as int),
            None => value_of(field@).is_none(),
        },
{
    let len = field.len();
    if len == 0 {
        return None;
    }
    let negative = field[0] == MINUS;
    let start: usize = if negative {
        1
    } else {
        0
    };
    let digits = len - start;
    let magnitude: i16 = if digits == 3 {
        let a = field[start];
        let p = field[start + 1];
        let c = field[start + 2];
        if is_digit_byte(a) && p == POINT && is_digit_byte(c) {
            10 * ((a - ZERO) as i16) + (c - ZERO) as i16
        } else {
            return None;
        }
    } else if digits == 4 {
        let a = field[start];
        let b = field[start + 1];
        let p = field[start + 2];
        let c = field[start + 3];
        if is_digit_byte(a) && is_digit_byte(b) && p == POINT && is_digit_byte(c) {
            100 * ((a - ZERO) as i16) + 10 * ((b - ZERO) as i16) + (c - ZERO) as i16
        } else {
            return None;
        }
    } else {
        return None;
    };
    if negative {
        Some(-magnitude)
    } else {
        Some(magnitude)
    }
}

/// Tells whether `b` is one of `0` to `9`.
pub fn is_digit_byte(b: u8) -> (r: bool)
    ensures
        r == is_digit(b),
{
    ZERO <= b && b <= ZERO + 9
}

/// Reads the row at the start of `remaining`.
///
/// The row runs to the first newline, or to the end of `remaining` where
/// there is none. On success the result holds the key, borrowed from
/// `remaining`, the value in tenths, and the number of bytes the row takes,
/// its newline included. A line without `;`, or whose text after the first
/// `;` is no value, is refused; so is an empty `remaining`, which holds no
/// row.
pub fn parse_next_row<'a>(remaining: &'a [u8]) -> (r: Result<(&'a [u8], i16, usize), MalformedRow>)
    ensures
        match r {
            Ok((key, value, taken)) => {
                &&& row_of(first_line(remaining@)) == Ok::<RowView, MalformedRow>(
                    RowView { key: key@, value: value as int },
                )
                &&& taken as int == first_row_len(remaining@)
                &&& 1 <= taken <= remaining@.len()
                &&& VALUE_MIN <= value <= VALUE_MAX
                &&& forall|i: int|
                    0 <= i < key@.len() ==> (#[trigger] key@[i]) != SEPARATOR && key@[i] != NEWLINE
            },
            Err(reason) => row_of(first_line(remaining@)) == Err::<RowView, MalformedRow>(reason),
        },
{
    let end = find_new_line_pos(remaining);
    proof {
        lemma_first_offset_is_first(remaining@, NEWLINE);
    }
    let line = slice_subrange(remaining, 0, end);
    let sep = find_byte(line, SEPARATOR);
    proof {
        lemma_first_offset_is_first(line@, SEPARATOR);
    }
    if sep == line.len() {
        return Err(MalformedRow::MissingSeparator);
    }
    let field = slice_subrange(line, sep + 1, line.len());
    match parse_value(field) {
        None => Err(MalformedRow::InvalidValue),
        Some(value) => {
            let key = slice_subrange(line, 0, sep);
            let taken = if end < remaining.len() {
                end + 1
            } else {
                end
            };
            Ok((key, value, taken))
        },
    }
}

} // verus!
