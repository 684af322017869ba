use eleven_cell::error::PuzzleError;
use eleven_cell::perm::Permutation;
use eleven_cell::piece::Piece;
use eleven_cell::setup11c::{base_pieces, face_twist, generators};
use eleven_cell::state::PuzzleState;
use eleven_cell::twist::Twist;

fn small_state() -> PuzzleState {
    PuzzleState {
        degree: 4,
        pieces: vec![
            Piece::new(vec![1, 0, 0, 1]),
            Piece::new(vec![0, 1, 1, 0]),
            Piece::new(vec![1, 1, 0, 0]),
        ],
        twist_stack: vec![],
        is_solved: true,
    }
}

fn quarter_turn() -> Twist {
    Twist { grip: 0, rot: Permutation::new(vec![0, 2, 3, 1]) }
}

fn whole_puzzle() -> PuzzleState {
    PuzzleState::generate(&base_pieces(), &generators()).unwrap()
}

#[test]
fn twist_turns_the_pieces_that_touch_the_grip() {
    let mut state = small_state();
    assert_eq!(state.twist(&quarter_turn()), Ok(()));
    assert_eq!(state.pieces[0].sig, vec![1, 1, 0, 0]);
    assert_eq!(state.pieces[0].att.perm, vec![0, 2, 3, 1]);
    assert_eq!(state.pieces[1], Piece::new(vec![0, 1, 1, 0]));
    assert_eq!(state.pieces[2].sig, vec![1, 0, 1, 0]);
    assert_eq!(state.pieces[2].att.perm, vec![0, 2, 3, 1]);
    assert!(!state.is_solved);
    assert!(state.is_valid());
}

#[test]
fn twist_does_not_touch_the_history() {
    let mut state = small_state();
    state.twist(&quarter_turn()).unwrap();
    assert!(state.twist_stack.is_empty());
}

#[test]
fn twist_turns_only_pieces_that_show_one_at_the_grip() {
    let mut state = PuzzleState {
        degree: 3,
        pieces: vec![Piece::new(vec![2, 1, 0]), Piece::new(vec![1, 2, 0])],
        twist_stack: vec![],
        is_solved: true,
    };
    let t = Twist { grip: 0, rot: Permutation::new(vec![0, 2, 1]) };
    state.twist(&t).unwrap();
    assert_eq!(state.pieces[0], Piece::new(vec![2, 1, 0]));
    assert_eq!(state.pieces[1].sig, vec![1, 0, 2]);
}

#[test]
fn twist_rejects_a_rotation_of_another_degree() {
    let mut state = small_state();
    let t = Twist { grip: 0, rot: Permutation::new(vec![1, 0, 2]) };
    assert_eq!(state.twist(&t), Err(PuzzleError::DegreeMismatch));
    assert_eq!(state, small_state());
    let unseen = Twist { grip: 9, rot: Permutation::new(vec![1, 0, 2]) };
    assert_eq!(state.twist(&unseen), Err(PuzzleError::DegreeMismatch));
    assert_eq!(state, small_state());
}

#[test]
fn twist_rejects_a_grip_out_of_range() {
    let mut state = small_state();
    let t = Twist { grip: 4, rot: Permutation::new(vec![0, 2, 3, 1]) };
    assert_eq!(state.twist(&t), Err(PuzzleError::IndexOutOfRange));
    assert_eq!(state, small_state());
}

#[test]
fn twist_then_inverse_twist_restores_the_pieces() {
    let mut state = small_state();
    let t = quarter_turn();
    state.twist(&t).unwrap();
    assert_ne!(state.pieces, small_state().pieces);
    state.twist(&t.inverse()).unwrap();
    assert_eq!(state, small_state());
}

#[test]
fn twist_then_inverse_twist_restores_the_whole_puzzle() {
    let home = whole_puzzle();
    let mut state = whole_puzzle();
    let first = face_twist(3, 7, true).unwrap();
    let second = face_twist(8, 2, false).unwrap();
    state.twist(&first).unwrap();
    state.twist(&second).unwrap();
    let between = state.pieces.clone();
    let third = face_twist(0, 5, true).unwrap();
    state.twist(&third).unwrap();
    state.twist(&third.inverse()).unwrap();
    assert_eq!(state.pieces, between);
    state.twist(&second.inverse()).unwrap();
    state.twist(&first.inverse()).unwrap();
    assert_eq!(state, home);
}

#[test]
fn twist_that_moves_its_own_grip_is_not_taken_back_by_its_inverse() {
    let start = PuzzleState {
        degree: 2,
        pieces: vec![Piece::new(vec![1, 0])],
        twist_stack: vec![],
        is_solved: true,
    };
    let mut state = PuzzleState {
        degree: 2,
        pieces: vec![Piece::new(vec![1, 0])],
        twist_stack: vec![],
        is_solved: true,
    };
    let swap = Twist { grip: 0, rot: Permutation::new(vec![1, 0]) };
    state.twist(&swap).unwrap();
    assert_eq!(state.pieces[0].sig, vec![0, 1]);
    state.twist(&swap.inverse()).unwrap();
    assert_eq!(state.pieces[0].sig, vec![0, 1]);
    assert_ne!(state.pieces, start.pieces);
}

#[test]
fn twist_on_the_whole_puzzle_turns_every_piece_on_the_cell() {
    let home = whole_puzzle();
    let mut state = whole_puzzle();
    let t = face_twist(3, 7, true).unwrap();
    state.twist(&t).unwrap();
    let mut turned = 0;
    for (before, after) in home.pieces.iter().zip(state.pieces.iter()) {
        if before.sig[3] == 1 {
            turned += 1;
            assert_eq!(after.att, t.rot);
            assert_eq!(after.sig[3], 1);
        } else {
            assert_eq!(after, before);
        }
    }
    assert_eq!(turned, 885);
    assert_eq!(state.pieces[3].sig, vec![1, 0, 1, 1, 0, 0, 0, 1, 1, 0, 1]);
    assert_eq!(state.pieces[11].sig, vec![0, 0, 0, 1, 0, 0, 0, 1, 1, 0, 0]);
    assert_eq!(state.pieces[13].sig, vec![0, 0, 1, 1, 0, 0, 0, 1, 1, 1, 1]);
    assert_eq!(state.pieces.iter().filter(|p| !p.is_solved()).count(), 878);
    assert!(!state.is_solved);
}

#[test]
fn twist_move_applies_and_records_the_twist() {
    let mut state = small_state();
    let t = quarter_turn();
    assert_eq!(state.twist_move(&t), Ok(()));
    let mut twisted = small_state();
    twisted.twist(&t).unwrap();
    assert_eq!(state.pieces, twisted.pieces);
    assert_eq!(state.is_solved, twisted.is_solved);
    assert_eq!(state.twist_stack, vec![quarter_turn()]);
    state.twist_move(&t.inverse()).unwrap();
    assert_eq!(state.twist_stack, vec![quarter_turn(), quarter_turn().inverse()]);
    assert!(state.is_valid());
}

#[test]
fn twist_move_that_is_rejected_is_not_recorded() {
    let mut state = small_state();
    let wrong_degree = Twist { grip: 0, rot: Permutation::new(vec![1, 0, 2]) };
    assert_eq!(state.twist_move(&wrong_degree), Err(PuzzleError::DegreeMismatch));
    let wrong_grip = Twist { grip: 7, rot: Permutation::new(vec![0, 2, 3, 1]) };
    assert_eq!(state.twist_move(&wrong_grip), Err(PuzzleError::IndexOutOfRange));
    assert_eq!(state, small_state());
}

#[test]
fn undo_with_nothing_played_changes_nothing() {
    let mut state = small_state();
    state.undo();
    assert_eq!(state, small_state());
    let mut turned = small_state();
    turned.twist(&quarter_turn()).unwrap();
    let before = turned.pieces.clone();
    turned.undo();
    assert_eq!(turned.pieces, before);
    assert!(!turned.is_solved);
}

#[test]
fn undo_takes_back_the_last_move() {
    let mut state = small_state();
    state.twist_move(&quarter_turn()).unwrap();
    state.undo();
    assert_eq!(state, small_state());
}

#[test]
fn undo_takes_back_moves_last_first() {
    let home = whole_puzzle();
    let mut state = whole_puzzle();
    state.twist_move(&face_twist(3, 7, true).unwrap()).unwrap();
    let after_one = PuzzleState {
        degree: state.degree,
        pieces: state.pieces.clone(),
        twist_stack: state.twist_stack.clone(),
        is_solved: state.is_solved,
    };
    state.twist_move(&face_twist(1, 4, false).unwrap()).unwrap();
    assert_eq!(state.twist_stack.len(), 2);
    state.undo();
    assert_eq!(state, after_one);
    state.undo();
    assert_eq!(state, home);
    state.undo();
    assert_eq!(state, home);
}

#[test]
fn one_move_unsolves_the_puzzle_and_undo_solves_it() {
    let mut state = whole_puzzle();
    assert!(state.is_solved);
    state.twist_move(&face_twist(6, 9, false).unwrap()).unwrap();
    assert!(!state.is_solved);
    assert!(!state.check_solved());
    state.undo();
    assert!(state.is_solved);
    assert!(state.check_solved());
}

#[test]
fn move_under_which_every_turned_piece_looks_the_same_keeps_the_puzzle_solved() {
    let mut state = PuzzleState {
        degree: 3,
        pieces: vec![Piece::new(vec![1, 1, 1]), Piece::new(vec![0, 1, 0])],
        twist_stack: vec![],
        is_solved: true,
    };
    let t = Twist { grip: 0, rot: Permutation::new(vec![0, 2, 1]) };
    state.twist_move(&t).unwrap();
    assert_eq!(state.pieces[0].att.perm, vec![0, 2, 1]);
    assert!(state.is_solved);
}

#[test]
fn reset_turns_every_piece_back_home() {
    let home = whole_puzzle();
    let mut state = whole_puzzle();
    state.twist_move(&face_twist(3, 7, true).unwrap()).unwrap();
    state.twist(&face_twist(5, 1, false).unwrap()).unwrap();
    state.twist_move(&face_twist(9, 10, true).unwrap()).unwrap();
    assert!(!state.is_solved);
    state.reset();
    assert_eq!(state.pieces, home.pieces);
    assert!(state.is_solved);
    assert!(state.check_solved());
    assert_eq!(state.twist_stack.len(), 2);
    assert!(state.is_valid());
}

#[test]
fn reset_a_second_time_changes_nothing() {
    let mut state = small_state();
    state.twist_move(&quarter_turn()).unwrap();
    state.reset();
    let once = state.pieces.clone();
    state.reset();
    assert_eq!(state.pieces, once);
    assert_eq!(once, small_state().pieces);
    assert!(state.is_solved);
    assert_eq!(state.twist_stack, vec![quarter_turn()]);
}

#[test]
fn reset_reads_each_signature_back_through_its_attitude() {
    let turned = Piece::new(vec![5, 6, 7, 8]).rotate(&Permutation::new(vec![1, 2, 0, 3])).unwrap();
    let mut state =
        PuzzleState { degree: 4, pieces: vec![turned], twist_stack: vec![], is_solved: false };
    state.reset();
    assert_eq!(state.pieces, vec![Piece::new(vec![5, 6, 7, 8])]);
    assert!(state.is_solved);
}

#[test]
fn check_solved_looks_at_every_piece() {
    let mut state = small_state();
    assert!(state.check_solved());
    state.twist(&quarter_turn()).unwrap();
    assert!(!state.check_solved());
    let polled = state.check_solved();
    assert_eq!(state.is_solved, polled);
    let mut empty = PuzzleState { degree: 4, pieces: vec![], twist_stack: vec![], is_solved: true };
    assert!(empty.check_solved());
}

#[test]
fn state_is_valid_looks_at_pieces_history_and_flag() {
    assert!(small_state().is_valid());
    let mut stale_flag = small_state();
    stale_flag.is_solved = false;
    assert!(!stale_flag.is_valid());
    let mut odd_piece = small_state();
    odd_piece.pieces.push(Piece::new(vec![1, 0, 0]));
    assert!(!odd_piece.is_valid());
    let mut odd_twist = small_state();
    odd_twist.twist_stack.push(Twist { grip: 0, rot: Permutation::identity(3) });
    assert!(!odd_twist.is_valid());
    let mut bad_grip = small_state();
    bad_grip.twist_stack.push(Twist { grip: 4, rot: Permutation::identity(4) });
    assert!(!bad_grip.is_valid());
}
