use frame_sequence::grammar::parse_parts;
use frame_sequence::ranges::{contiguous_range, stepped_range};
use frame_sequence::dedup::remove_duplicates;
use frame_sequence::expand::frame_sequence_to_frames;
use frame_sequence::{Part, Step};

#[test]
fn parts_of_a_sequence() {
    let parts = parse_parts(b"4,1-3,10-20@5,-2--8@b").unwrap();
    assert_eq!(
        parts,
        vec![
            Part::Single(4),
            Part::Range { left: 1, right: 3, step: None },
            Part::Range { left: 10, right: 20, step: Some(Step::Every(5)) },
            Part::Range { left: -2, right: -8, step: Some(Step::Binary) },
        ]
    );
}

#[test]
fn raw_frames_keep_repeats() {
    let parts = vec![Part::Single(2), Part::Range { left: 1, right: 3, step: None }];
    assert_eq!(frame_sequence_to_frames(&parts), vec![2, 1, 2, 3]);
}

#[test]
fn removing_repeats() {
    assert_eq!(remove_duplicates(vec![3, 1, 3, 2, 1, 4]), vec![3, 1, 2, 4]);
    assert_eq!(remove_duplicates(vec![]), Vec::<isize>::new());
    assert_eq!(remove_duplicates(vec![9, 9, 9]), vec![9]);
}

#[test]
fn contiguous_ranges() {
    assert_eq!(contiguous_range(-1, 2), vec![-1, 0, 1, 2]);
    assert_eq!(contiguous_range(2, -1), vec![2, 1, 0, -1]);
    assert_eq!(contiguous_range(5, 5), vec![5]);
}

#[test]
fn stepped_ranges() {
    assert_eq!(stepped_range(80, 70, 4), vec![80, 76, 72]);
    assert_eq!(stepped_range(10, 20, 2), vec![10, 12, 14, 16, 18, 20]);
    assert_eq!(stepped_range(0, 3, 5), vec![0]);
    assert_eq!(stepped_range(-6, 6, 4), vec![-6, -2, 2, 6]);
}
