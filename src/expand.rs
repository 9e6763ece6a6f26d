//! Expansion of parsed parts into the raw list of frames.
use crate::grammar::{
    Part, ParseFailure, Step, digits_end, frame_at, lemma_digits_end, lemma_digits_value, lemma_part_end, part_at, parts_from, step_at,
};
use crate::ranges::{contiguous_frames, contiguous_range, stepped_frames, stepped_range};
use crate::subdivide::{binary_frames, binary_sequence, ints};
use vstd::prelude::*;

verus! {

/// A part whose step, if it has one, is positive.
pub open spec fn well_formed_part(p: Part) -> bool {
    p matches Part::Range { step: Some(Step::Every(n)), .. } ==> n > 0
}

/// The frames that one part stands for.
pub open spec fn part_frames(p: Part) -> Seq<int> {
    match p {
        Part::Single(v) => seq![v as int],
        Part::Range { left, right, step: None } => contiguous_frames(left as int, right as int),
        Part::Range { left, right, step: Some(Step::Every(n)) } => stepped_frames(
            left as int,
            right as int,
            n as int,
        ),
        Part::Range { left, right, step: Some(Step::Binary) } => binary_frames(
            left as int,
            right as int,
        ),
    }
}

/// The frames of all parts, one after another, repeats included.
pub open spec fn expand(ps: Seq<Part>) -> Seq<int>
    decreases ps.len(),
{
    if ps.len() == 0 {
        seq![]
    } else {
        expand(ps.drop_last()) + part_frames(ps.last())
    }
}

/// The frames of one part.
fn part_to_frames(p: Part) -> (r: Vec<isize>)
    requires
        well_formed_part(p),
    ensures
        ints(r@) == part_frames(p),
{
    match p {
        Part::Single(v) => {
            let mut r: Vec<isize> = Vec::new();
            r.push(v);
            assert(ints(r@) =~= seq![v as int]);
            r
        },
        Part::Range { left, right, step: None } => contiguous_range(left, right),
        Part::Range { left, right, step: Some(Step::Every(n)) } => stepped_range(left, right, n),
        Part::Range { left, right, step: Some(Step::Binary) } => binary_sequence((left, right)),
    }
}

/// The frames of all parts, one after another, repeats included.
pub fn frame_sequence_to_frames(parts: &Vec<Part>) -> (r: Vec<isize>)
    requires
        forall|k: int| 0 <= k < parts@.len() ==> well_formed_part(#[trigger] parts@[k]),
    ensures
        ints(r@) == expand(parts@),
{
    let mut r: Vec<isize> = Vec::new();
    let mut i: usize = 0;
    while i < parts.len()
        invariant
            i <= parts@.len(),
            forall|k: int| 0 <= k < parts@.len() ==> well_formed_part(#[trigger] parts@[k]),
            ints(r@) == expand(parts@.subrange(0, i as int)),
        decreases parts@.len() - i,
    {
        let mut frames = part_to_frames(parts[i]);
        let ghost before = r@;
        r.append(&mut frames);
        assert(parts@.subrange(0, i + 1).drop_last() =~= parts@.subrange(0, i as int));
        assert(ints(r@) =~= ints(before) + part_frames(parts@[i as int]));
        i += 1;
    }
    assert(parts@.subrange(0, i as int) =~= parts@);
    r
}

/// Every part that the parser produces has a positive step, if any.
pub proof fn lemma_parsed_parts_well_formed(s: Seq<u8>, i: int, ps: Seq<Part>)
    requires
        parts_from(s, i) == Ok::<Seq<Part>, ParseFailure>(ps),
    ensures
        forall|k: int| 0 <= k < ps.len() ==> well_formed_part(#[trigger] ps[k]),
    decreases s.len() - i,
{
    lemma_part_end(s, i);
    if let Ok((p, e)) = part_at(s, i) {
        if let Ok((_, e1)) = frame_at(s, i) {
            if let Ok((_, e2)) = frame_at(s, e1 + 1) {
                let d = digits_end(s, e2 + 1);
                lemma_digits_end(s, e2 + 1);
                lemma_digits_value(s, e2 + 1, d, d);
                if let Ok((Step::Every(n), _)) = step_at(s, e2 + 1) {
                    assert(n > 0);
                }
            }
        }
        assert(well_formed_part(p));
        if e < s.len() && s[e] == 44 {
            if let Ok(rest) = parts_from(s, e + 1) {
                lemma_parsed_parts_well_formed(s, e + 1, rest);
                assert(forall|k: int| 0 < k < 1 + rest.len() ==> (seq![p] + rest)[k] == rest[k - 1]);
            }
        }
    }
}

} // verus!
