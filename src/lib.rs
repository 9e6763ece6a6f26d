//! Parsing of frame sequence strings, as used by rendering and animation
//! tools, into the list of frame numbers they describe.
//!
//! `1,2,3,5,8,13` gives `[1, 2, 3, 5, 8, 13]`, `10-15` gives
//! `[10, 11, 12, 13, 14, 15]`, `10-20@2` gives `[10, 12, 14, 16, 18, 20]`,
//! `42-33@3` gives `[42, 39, 36, 33]`, `80-70@4` gives `[80, 76, 72]`, and
//! `10-20@b` gives `[10, 20, 15, 12, 17, 11, 13, 16, 18, 14, 19]`.
//! A frame that occurs more than once is kept only where it first occurs.
use vstd::prelude::*;
use vstd::string::StringSliceAdditionalSpecFns;

pub mod dedup;
pub mod expand;
pub mod grammar;
pub mod ranges;
pub mod subdivide;

pub use grammar::{ParseError, Part, Step, SyntaxError, Token};

use dedup::{
    first_occurrences, lemma_first_occurrences, lemma_first_occurrences_distinct,
    remove_duplicates,
};
use expand::{expand, frame_sequence_to_frames, lemma_parsed_parts_well_formed, part_frames};
use grammar::{parse_parts, parse_parts_spec};
use ranges::contiguous_frames;
use subdivide::span;
use subdivide::ints;

verus! {

/// The frames that the parts `ps` describe, each value once, where it first
/// occurs.
pub open spec fn sequence_frames(ps: Seq<Part>) -> Seq<int> {
    first_occurrences(expand(ps))
}

/// Parses a frame sequence string into the list of its frames.
///
/// The input is accepted exactly when it matches the notation (see
/// `grammar`) with every number in range; it is then expanded part by part
/// and repeated frames are dropped. Otherwise the error says where the input
/// stopped matching, and nothing else is returned.
pub fn parse_frame_sequence(input: &str) -> (r: Result<Vec<isize>, ParseError>)
    ensures
        match parse_parts_spec(input.spec_bytes()) {
            Ok(ps) => r matches Ok(v) && ints(v@) == sequence_frames(ps),
            Err(f) => r matches Err(e) && e@ == f,
        },
{
    let bytes = input.as_bytes();
    match parse_parts(bytes) {
        Ok(parts) => {
            proof {
                lemma_parsed_parts_well_formed(bytes@, 0, parts@);
            }
            Ok(remove_duplicates(frame_sequence_to_frames(&parts)))
        },
        Err(e) => Err(e),
    }
}

/// Whatever a frame sequence describes, the resulting list holds each frame
/// at most once.
pub proof fn lemma_no_repeated_frames(ps: Seq<Part>)
    ensures
        sequence_frames(ps).no_duplicates(),
        sequence_frames(ps).to_set() == expand(ps).to_set(),
{
    lemma_first_occurrences(expand(ps));
    assert(sequence_frames(ps).to_set() =~= expand(ps).to_set());
}

/// A range without a step stands for every integer between its bounds:
/// `left-right` gives `left, left + 1, ..., right` when `left <= right`, and
/// the same integers from `left` down to `right` otherwise.
pub proof fn lemma_plain_range(left: isize, right: isize)
    ensures
        sequence_frames(seq![Part::Range { left, right, step: None }]) == if left <= right {
            span(left as int, right as int)
        } else {
            span(right as int, left as int).reverse()
        },
{
    let p = Part::Range { left, right, step: None };
    assert(seq![p].drop_last() =~= seq![]);
    assert(expand(seq![p].drop_last()) =~= seq![]);
    assert(expand(seq![p]) =~= part_frames(p));
    let f = contiguous_frames(left as int, right as int);
    assert(f.no_duplicates());
    lemma_first_occurrences_distinct(f);
}

} // verus!
