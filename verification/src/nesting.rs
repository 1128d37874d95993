//! How the brackets of a source nest.

use vstd::prelude::*;
use crate::token::{Token, token_of_byte};

verus! {

/// What a byte adds to the nesting of loops: one for `[`, minus one for `]`,
/// nothing otherwise.
pub open spec fn bracket_value(byte: u8) -> int {
    match token_of_byte(byte) {
        Some(Token::StartLoop) => 1,
        Some(Token::EndLoop) => -1,
        _ => 0,
    }
}

/// The loops that the bytes of `source` from `from` up to `to` open, less
/// the loops that they close.
pub open spec fn nesting(source: Seq<u8>, from: int, to: int) -> int
    decreases to - from,
{
    if to <= from {
        0
    } else {
        nesting(source, from, to - 1) + bracket_value(source[to - 1])
    }
}

/// Some `]` of `source` behind `from` closes a loop that none of the bytes
/// since `from` has opened.
pub open spec fn closes_unopened(source: Seq<u8>, from: int) -> bool {
    exists|to: int| from <= to <= source.len() && nesting(source, from, to) < 0
}

/// The bytes of `source` behind `from` leave a loop open: no `]` closes a
/// loop that was not opened, and some `[` is never closed.
pub open spec fn leaves_open(source: Seq<u8>, from: int) -> bool {
    !closes_unopened(source, from) && nesting(source, from, source.len() as int) > 0
}

/// The brackets of `source` behind `from` match.
pub open spec fn brackets_match(source: Seq<u8>, from: int) -> bool {
    !closes_unopened(source, from) && nesting(source, from, source.len() as int) == 0
}

/// The nesting over a range is the sum of the nestings over its two parts.
pub proof fn lemma_nesting_split(source: Seq<u8>, from: int, middle: int, to: int)
    requires
        from <= middle <= to,
    ensures
        nesting(source, from, to) == nesting(source, from, middle) + nesting(source, middle, to),
    decreases to - middle,
{
    if middle < to {
        lemma_nesting_split(source, from, middle, to - 1);
    }
}

/// The nesting of the bytes behind `from` is the nesting of what is left of
/// the source there.
pub proof fn lemma_nesting_skip(source: Seq<u8>, from: int, to: int)
    requires
        0 <= from <= to <= source.len(),
    ensures
        nesting(source.skip(from), 0, to - from) == nesting(source, from, to),
    decreases to - from,
{
    if from < to {
        lemma_nesting_skip(source, from, to - 1);
    }
}

} // verus!
