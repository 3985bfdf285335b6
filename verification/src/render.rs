//! The text of a result: `{key=min/mean/max, ...}`.

use crate::reduce::{entry_views, Entry, EntryView, GlobalResult};
use crate::row::{magnitude_of, value_of, MINUS, POINT, ZERO};
use crate::stats::{VALUE_MAX, VALUE_MIN};
use vstd::prelude::*;

verus! {

/// `{`, which opens the text of a result.
pub const OPEN: u8 = 123;

/// `}`, which closes the text of a result.
pub const CLOSE: u8 = 125;

/// `=`, which stands between a key and its numbers.
pub const EQUALS: u8 = 61;

/// `/`, which stands between the numbers of a key.
pub const SLASH: u8 = 47;

/// `,`, which with a space after it stands between two entries.
pub const COMMA: u8 = 44;

/// The space after a comma.
pub const SPACE: u8 = 32;

/// The decimal digits of `n`, without leading zeros; `0` for zero.
pub open spec fn digits(n: nat) -> Seq<u8>
    decreases n,
{
    if n < 10 {
        seq![(ZERO + n) as u8]
    } else {
        digits(n / 10).push((ZERO + n % 10) as u8)
    }
}

/// `-` before a negative number, nothing before any other.
pub open spec fn sign(value: int) -> Seq<u8> {
    if value < 0 {
        seq![MINUS]
    } else {
        Seq::empty()
    }
}

/// `value` without its sign.
pub open spec fn magnitude(value: int) -> nat {
    if value < 0 {
        (-value) as nat
    } else {
        value as nat
    }
}

/// The text of a number of tenths, with one digit after the point:
/// `-344` reads `-34.4`, and `5` reads `0.5`.
pub open spec fn tenths_text(value: int) -> Seq<u8> {
    let m = magnitude(value);
    sign(value) + digits(m / 10) + seq![POINT, (ZERO + m % 10) as u8]
}

/// The text of a number of hundredths, with two digits after the point:
/// `1320` reads `13.20`, and `-5` reads `-0.05`.
pub open spec fn hundredths_text(value: int) -> Seq<u8> {
    let m = magnitude(value);
    sign(value) + digits(m / 100) + seq![POINT, (ZERO + m / 10 % 10) as u8, (ZERO + m % 10) as u8]
}

/// The text of one entry: the key, `=`, the minimum with one digit after the
/// point, `/`, the mean with two, `/`, and the maximum with one.
pub open spec fn entry_text(entry: EntryView) -> Seq<u8> {
    entry.key + seq![EQUALS] + tenths_text(entry.stats.min) + seq![SLASH] + hundredths_text(
        entry.stats.mean_hundredths(),
    ) + seq![SLASH] + tenths_text(entry.stats.max)
}

/// The texts of the entries in their order, a comma and a space between one
/// and the next.
pub open spec fn entries_text(entries: Seq<EntryView>) -> Seq<u8>
    decreases entries.len(),
{
    if entries.len() == 0 {
        Seq::empty()
    } else if entries.len() == 1 {
        entry_text(entries[0])
    } else {
        entries_text(entries.drop_last()) + seq![COMMA, SPACE] + entry_text(entries.last())
    }
}

/// The text of a result: its entries between `{` and `}`.
pub open spec fn result_text(entries: Seq<EntryView>) -> Seq<u8> {
    seq![OPEN] + entries_text(entries) + seq![CLOSE]
}

/// A value's text is in its shortest form: the integer part has no zero in
/// front of another digit, and zero has no sign.
pub open spec fn is_canonical(field: Seq<u8>) -> bool {
    let negative = field.len() > 0 && field[0] == MINUS;
    let body = if negative {
        field.skip(1)
    } else {
        field
    };
    &&& !(body.len() == 4 && body[0] == ZERO)
    &&& !(negative && value_of(field) == Some(0int))
}

/// Reading a value and writing it again gives back the text that was read,
/// for every value text in its shortest form.
pub proof fn lemma_read_then_write(field: Seq<u8>)
    requires
        value_of(field) is Some,
        is_canonical(field),
    ensures
        tenths_text(value_of(field)->Some_0) == field,
{
    let negative = field.len() > 0 && field[0] == MINUS;
    let body = if negative {
        field.skip(1)
    } else {
        field
    };
    let m = magnitude_of(body)->Some_0;
    let value = value_of(field)->Some_0;
    if body.len() == 4 {
        let tens = (m / 10) as nat;
        assert(digits(tens / 10) =~= seq![body[0]]);
    }
}

/// Writing a value and reading it again gives back the value, for every
/// value a row can carry.
pub proof fn lemma_write_then_read(value: int)
    requires
        VALUE_MIN <= value <= VALUE_MAX,
    ensures
        value_of(tenths_text(value)) == Some(value),
        is_canonical(tenths_text(value)),
{
    let m = magnitude(value);
    let tens = m / 10;
    if tens >= 10 {
        assert(digits(tens / 10) =~= seq![(ZERO + tens / 10) as u8]);
    }
}

/// Appends `bytes` to `out`.
pub fn push_bytes(out: &mut Vec<u8>, bytes: &[u8])
    ensures
        final(out)@ == old(out)@ + bytes@,
{
    let mut i: usize = 0;
    while i < bytes.len()
        invariant
            i <= bytes.len(),
            out@ == old(out)@ + bytes@.take(i as int),
        decreases bytes.len() - i,
    {
        out.push(bytes[i]);
        i += 1;
    }
}

/// Appends the decimal digits of `n` to `out`.
pub fn push_digits(out: &mut Vec<u8>, n: u32)
    ensures
        final(out)@ == old(out)@ + digits(n as nat),
    decreases n,
{
    if n >= 10 {
        push_digits(out, n / 10);
    }
    out.push(ZERO + (n % 10) as u8);
}

/// Appends the sign of `value` and hands back `value` without its sign.
fn push_sign(out: &mut Vec<u8>, value: i16) -> (m: u32)
    ensures
        final(out)@ == old(out)@ + sign(value as int),
        m == magnitude(value as int),
{
    if value < 0 {
        out.push(MINUS);
        (-(value as i32)) as u32
    } else {
        value as u32
    }
}

/// Appends the text of `value`, a number of tenths, to `out`.
pub fn push_tenths(out: &mut Vec<u8>, value: i16)
    ensures
        final(out)@ == old(out)@ + tenths_text(value as int),
{
    let m = push_sign(out, value);
    push_digits(out, m / 10);
    out.push(POINT);
    out.push(ZERO + (m % 10) as u8);
}

/// Appends the text of `value`, a number of hundredths, to `out`.
pub fn push_hundredths(out: &mut Vec<u8>, value: i16)
    ensures
        final(out)@ == old(out)@ + hundredths_text(value as int),
{
    let m = push_sign(out, value);
    push_digits(out, m / 100);
    out.push(POINT);
    out.push(ZERO + (m / 10 % 10) as u8);
    out.push(ZERO + (m % 10) as u8);
}

/// The text of `value`, a number of tenths: one digit after the point.
pub fn render_value(value: i16) -> (text: Vec<u8>)
    ensures
        text@ == tenths_text(value as int),
{
    let mut text: Vec<u8> = Vec::new();
    push_tenths(&mut text, value);
    text
}

/// Appends the text of `entry` to `out`: the key, the minimum, the mean and
/// the maximum. The mean is worked out here, from the sum and the count.
pub fn push_entry(out: &mut Vec<u8>, entry: &Entry)
    requires
        entry.stats@.wf(),
    ensures
        final(out)@ == old(out)@ + entry_text(entry@),
{
    push_bytes(out, entry.key);
    out.push(EQUALS);
    push_tenths(out, entry.stats.min);
    out.push(SLASH);
    push_hundredths(out, entry.stats.mean_hundredths());
    out.push(SLASH);
    push_tenths(out, entry.stats.max);
}

/// The text of `result`: `{`, the entries in ascending order of their keys
/// with `, ` between them, and `}`. A result without entries reads `{}`.
pub fn render(result: &GlobalResult) -> (text: Vec<u8>)
    ensures
        text@ == result_text(result@),
{
    let entries = result.entries();
    let ghost views = entry_views(entries@);
    let mut text: Vec<u8> = Vec::new();
    text.push(OPEN);
    let mut i: usize = 0;
    while i < entries.len()
        invariant
            i <= entries.len(),
            views == entry_views(entries@),
            forall|k: int| 0 <= k < views.len() ==> (#[trigger] views[k]).stats.wf(),
            text@ == seq![OPEN] + entries_text(views.take(i as int)),
        decreases entries.len() - i,
    {
        if i > 0 {
            text.push(COMMA);
            text.push(SPACE);
        }
        proof {
            assert(views[i as int].stats.wf());
        }
        push_entry(&mut text, &entries[i]);
        proof {
            let next = views.take(i + 1);
            assert(next.drop_last() =~= views.take(i as int));
        }
        i += 1;
    }
    assert(views.take(i as int) =~= views);
    text.push(CLOSE);
    text
}

} // verus!
