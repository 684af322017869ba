use eleven_cell::error::PuzzleError;
use eleven_cell::perm::Permutation;
use eleven_cell::twist::Twist;

#[test]
fn twist_inverse_keeps_the_grip_and_inverts_the_rotation() {
    let t = Twist { grip: 2, rot: Permutation::new(vec![1, 3, 2, 0]) };
    let back = t.inverse();
    assert_eq!(back.grip, 2);
    assert_eq!(back.rot.perm, vec![3, 0, 2, 1]);
    assert_eq!(back.inverse(), t);
}

#[test]
fn recentered_goes_there_turns_and_comes_back() {
    let recenter = Permutation::new(vec![1, 2, 3, 0]);
    let face_recenter = Permutation::new(vec![0, 2, 1, 3]);
    let rot = Permutation::new(vec![0, 1, 3, 2]);
    let t = Twist::recentered(3, &recenter, &face_recenter, &rot).unwrap();
    assert_eq!(t.grip, 3);
    assert_eq!(t.rot.perm, vec![2, 1, 0, 3]);
    let by_hand = recenter
        .product(&face_recenter)
        .unwrap()
        .product(&rot)
        .unwrap()
        .product(&face_recenter.inverse())
        .unwrap()
        .product(&recenter.inverse())
        .unwrap();
    assert_eq!(t.rot, by_hand);
}

#[test]
fn recentered_rejects_unequal_degrees() {
    let three = Permutation::identity(3);
    let four = Permutation::identity(4);
    assert_eq!(Twist::recentered(0, &three, &four, &four), Err(PuzzleError::DegreeMismatch));
    assert_eq!(Twist::recentered(0, &four, &three, &four), Err(PuzzleError::DegreeMismatch));
    assert_eq!(Twist::recentered(0, &four, &four, &three), Err(PuzzleError::DegreeMismatch));
    assert_eq!(Twist::recentered(9, &four, &three, &four), Err(PuzzleError::DegreeMismatch));
}

#[test]
fn recentered_rejects_a_grip_out_of_range() {
    let four = Permutation::identity(4);
    assert_eq!(Twist::recentered(4, &four, &four, &four), Err(PuzzleError::IndexOutOfRange));
    assert!(Twist::recentered(3, &four, &four, &four).is_ok());
}

#[test]
fn twist_is_valid_looks_at_grip_and_rotation() {
    assert!(Twist { grip: 2, rot: Permutation::new(vec![1, 0, 2]) }.is_valid());
    assert!(!Twist { grip: 3, rot: Permutation::new(vec![1, 0, 2]) }.is_valid());
    assert!(!Twist { grip: 0, rot: Permutation::new(vec![1, 1, 2]) }.is_valid());
}

#[test]
fn clone_copies_grip_and_rotation() {
    let t = Twist { grip: 2, rot: Permutation::new(vec![1, 3, 2, 0]) };
    assert_eq!(t.clone(), t);
}
