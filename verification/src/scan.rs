//! Delimiter search over byte slices, one fixed-width window at a time.

use vstd::prelude::*;

verus! {

/// Number of bytes examined by one window scan.
pub const WINDOW: usize = 64;

/// The newline, which ends a row.
pub const NEWLINE: u8 = 10;

/// `;`, which parts a row's key from its value.
pub const SEPARATOR: u8 = 59;

/// `target` does not occur among the first `upto` bytes of `s`.
pub open spec fn absent_before(s: Seq<u8>, target: u8, upto: int) -> bool {
    forall|j: int| 0 <= j < upto && j < s.len() ==> s[j] != target
}

/// `at` is where `target` first occurs in `s`, or `s.len()` if it never does.
pub open spec fn is_first_offset(s: Seq<u8>, target: u8, at: int) -> bool {
    &&& 0 <= at <= s.len()
    &&& absent_before(s, target, at)
    &&& at < s.len() ==> s[at] == target
}

/// Offset of the first occurrence of `target` in `s`; `s.len()` when `s`
/// holds no such byte.
pub open spec fn first_offset(s: Seq<u8>, target: u8) -> int
    decreases s.len(),
{
    if s.len() == 0 || s[0] == target {
        0
    } else {
        1 + first_offset(s.drop_first(), target)
    }
}

/// `first_offset` yields an offset that meets `is_first_offset`.
pub proof fn lemma_first_offset_is_first(s: Seq<u8>, target: u8)
    ensures
        is_first_offset(s, target, first_offset(s, target)),
    decreases s.len(),
{
    if s.len() > 0 && s[0] != target {
        let rest = s.drop_first();
        lemma_first_offset_is_first(rest, target);
        let at = first_offset(rest, target);
        assert forall|j: int| 0 <= j < at + 1 && j < s.len() implies s[j] != target by {
            if j > 0 {
                assert(rest[j - 1] == s[j]);
            }
        }
    }
}

/// At most one offset meets `is_first_offset`, and `first_offset` names it.
pub proof fn lemma_first_offset_unique(s: Seq<u8>, target: u8, at: int)
    requires
        is_first_offset(s, target, at),
    ensures
        at == first_offset(s, target),
{
    lemma_first_offset_is_first(s, target);
}

/// The part of `s` that one window scan looks at: its first `WINDOW` bytes,
/// or all of it when it is shorter.
pub open spec fn window_of(s: Seq<u8>) -> Seq<u8> {
    if s.len() <= WINDOW {
        s
    } else {
        s.take(WINDOW as int)
    }
}

/// Scans the first window of `window` for `target`.
///
/// Returns `(true, offset)` with the offset of the first occurrence, or
/// `(false, n)` where `n` is the number of bytes the window holds. Bytes past
/// the window, and the room a short window leaves unused, never match.
pub fn find_byte_in_window(window: &[u8], target: u8) -> (r: (bool, u8))
    ensures
        r.1 as int == first_offset(window_of(window@), target),
        r.0 <==> first_offset(window_of(window@), target) < window_of(window@).len(),
{
    let width: usize = if window.len() < WINDOW {
        window.len()
    } else {
        WINDOW
    };
    let ghost scanned = window_of(window@);
    let mut i: usize = 0;
    while i < width
        invariant
            i <= width <= WINDOW,
            width == scanned.len(),
            scanned == window_of(window@),
            absent_before(scanned, target, i as int),
        decreases width - i,
    {
        if window[i] == target {
            proof {
                lemma_first_offset_unique(scanned, target, i as int);
            }
            return (true, i as u8);
        }
        i += 1;
    }
    proof {
        lemma_first_offset_unique(scanned, target, width as int);
    }
    (false, width as u8)
}

/// Offset of the first `target` in `haystack`, or `haystack.len()` when the
/// byte is not there, found by scanning one window after another.
pub fn find_byte(haystack: &[u8], target: u8) -> (at: usize)
    ensures
        at as int == first_offset(haystack@, target),
{
    let len = haystack.len();
    let mut base: usize = 0;
    while base < len
        invariant
            base <= len == haystack@.len(),
            absent_before(haystack@, target, base as int),
        decreases len - base,
    {
        let rest = vstd::slice::slice_subrange(haystack, base, len);
        let (found, pos) = find_byte_in_window(rest, target);
        proof {
            let scanned = window_of(rest@);
            lemma_first_offset_is_first(scanned, target);
            assert forall|j: int| 0 <= j < base + pos && j < haystack@.len() implies haystack@[j]
                != target by {
                if j >= base {
                    assert(scanned[j - base] == haystack@[j]);
                }
            }
            if found {
                lemma_first_offset_unique(haystack@, target, base + pos);
            }
        }
        if found {
            return base + pos as usize;
        }
        base += pos as usize;
    }
    proof {
        lemma_first_offset_unique(haystack@, target, len as int);
    }
    len
}

/// Scans the first window of `chunk` for a newline: `(true, offset)` of the
/// first one, or `(false, n)` with the number of bytes in the window.
pub fn find_new_line_in_chunk(chunk: &[u8]) -> (r: (bool, u8))
    ensures
        r.1 as int == first_offset(window_of(chunk@), NEWLINE),
        r.0 <==> first_offset(window_of(chunk@), NEWLINE) < window_of(chunk@).len(),
{
    find_byte_in_window(chunk, NEWLINE)
}

/// Offset of the first newline in `remaining`, or `remaining.len()` when the
/// rest of the text holds none, which is to say the row runs to its end.
pub fn find_new_line_pos(remaining: &[u8]) -> (at: usize)
    ensures
        at as int == first_offset(remaining@, NEWLINE),
{
    find_byte(remaining, NEWLINE)
}

} // verus!
