use eleven_cell::error::PuzzleError;
use eleven_cell::piece::Piece;
use eleven_cell::scramble::Draw;
use eleven_cell::setup11c::{base_pieces, face_twist, generators};
use eleven_cell::state::PuzzleState;

fn fresh_puzzle() -> PuzzleState {
    PuzzleState::generate(&base_pieces(), &generators()).unwrap()
}

fn copy_of(state: &PuzzleState) -> PuzzleState {
    PuzzleState {
        degree: state.degree,
        pieces: state.pieces.clone(),
        twist_stack: state.twist_stack.clone(),
        is_solved: state.is_solved,
    }
}

fn tiny_state() -> PuzzleState {
    PuzzleState {
        degree: 3,
        pieces: vec![Piece::new(vec![1, 0, 0])],
        twist_stack: vec![],
        is_solved: true,
    }
}

#[test]
fn scramble_of_no_twists_changes_nothing() {
    let mut state = fresh_puzzle();
    state.twist_move(&face_twist(3, 7, true).unwrap()).unwrap();
    let before = copy_of(&state);
    assert_eq!(state.scramble(0), Ok(()));
    assert_eq!(state, before);
    assert_eq!(state.twist_stack.len(), 1);
    let mut small = tiny_state();
    assert_eq!(small.scramble(0), Ok(()));
    assert_eq!(small, tiny_state());
}

#[test]
fn scramble_with_applies_the_face_twists_in_order() {
    let draws = vec![
        Draw { cell: 3, face: 7, ccw: true },
        Draw { cell: 0, face: 1, ccw: false },
        Draw { cell: 10, face: 2, ccw: true },
        Draw { cell: 3, face: 7, ccw: false },
    ];
    let mut state = fresh_puzzle();
    assert_eq!(state.scramble_with(&draws), Ok(()));
    let mut by_hand = fresh_puzzle();
    for d in &draws {
        by_hand.twist(&face_twist(d.cell, d.face, d.ccw).unwrap()).unwrap();
    }
    assert_eq!(state, by_hand);
    assert_eq!(state.pieces[0].sig, vec![1, 0, 0, 0, 0, 0, 0, 0, 0, 0, 0]);
    assert_eq!(state.pieces[0].att.perm, vec![0, 1, 6, 9, 7, 2, 5, 8, 4, 10, 3]);
    assert_eq!(state.pieces[4].sig, vec![0, 0, 0, 0, 0, 0, 0, 0, 0, 0, 1]);
    assert_eq!(state.pieces[4].att.perm, vec![1, 9, 7, 3, 5, 8, 2, 6, 4, 0, 10]);
    assert_eq!(state.pieces[40].sig, vec![1, 0, 0, 1, 1, 0, 1, 0, 1, 1, 0]);
    assert_eq!(state.pieces[40].att.perm, vec![8, 10, 1, 5, 6, 0, 2, 9, 7, 4, 3]);
    assert_eq!(state.pieces.iter().filter(|p| !p.is_solved()).count(), 1339);
    assert!(!state.is_solved);
    assert!(state.twist_stack.is_empty());
}

#[test]
fn scramble_with_no_draws_changes_nothing() {
    let mut state = fresh_puzzle();
    assert_eq!(state.scramble_with(&vec![]), Ok(()));
    assert_eq!(state, fresh_puzzle());
    let mut small = tiny_state();
    assert_eq!(small.scramble_with(&vec![]), Ok(()));
    assert_eq!(small, tiny_state());
}

#[test]
fn scramble_with_rejects_a_draw_out_of_range_before_any_twist() {
    let mut state = fresh_puzzle();
    let late_cell = vec![Draw { cell: 3, face: 7, ccw: true }, Draw { cell: 11, face: 7, ccw: true }];
    assert_eq!(state.scramble_with(&late_cell), Err(PuzzleError::IndexOutOfRange));
    assert_eq!(state, fresh_puzzle());
    let late_face = vec![Draw { cell: 3, face: 7, ccw: true }, Draw { cell: 2, face: 11, ccw: true }];
    assert_eq!(state.scramble_with(&late_face), Err(PuzzleError::IndexOutOfRange));
    assert_eq!(state, fresh_puzzle());
}

#[test]
fn scramble_with_rejects_a_puzzle_of_another_degree() {
    let mut small = tiny_state();
    let draws = vec![Draw { cell: 0, face: 1, ccw: true }];
    assert_eq!(small.scramble_with(&draws), Err(PuzzleError::DegreeMismatch));
    assert_eq!(small, tiny_state());
    let out_of_range = vec![Draw { cell: 20, face: 1, ccw: true }];
    assert_eq!(small.scramble_with(&out_of_range), Err(PuzzleError::DegreeMismatch));
}

#[test]
fn scramble_rejects_a_puzzle_of_another_degree() {
    let mut small = tiny_state();
    assert_eq!(small.scramble(5), Err(PuzzleError::DegreeMismatch));
    assert_eq!(small, tiny_state());
    let mut none = PuzzleState { degree: 0, pieces: vec![], twist_stack: vec![], is_solved: true };
    assert_eq!(none.scramble(1), Err(PuzzleError::DegreeMismatch));
}

#[test]
fn scramble_turns_pieces_and_keeps_the_puzzle_valid() {
    let home = fresh_puzzle();
    let mut state = fresh_puzzle();
    state.twist_move(&face_twist(2, 3, true).unwrap()).unwrap();
    assert_eq!(state.scramble(200), Ok(()));
    assert!(state.is_valid());
    assert_eq!(state.degree, 11);
    assert_eq!(state.pieces.len(), home.pieces.len());
    assert_eq!(state.twist_stack.len(), 1);
    for (before, after) in home.pieces.iter().zip(state.pieces.iter()) {
        let ones = |sig: &Vec<u8>| sig.iter().filter(|m| **m == 1).count();
        assert_eq!(ones(&before.sig), ones(&after.sig));
    }
    assert_ne!(state.pieces, home.pieces);
    state.reset();
    assert_eq!(state.pieces, home.pieces);
    assert!(state.is_solved);
}

#[test]
fn scramble_of_one_twist_applies_one_face_twist() {
    let home = fresh_puzzle();
    let mut seen: Vec<Vec<usize>> = Vec::new();
    for _ in 0..60 {
        let mut state = copy_of(&home);
        assert_eq!(state.scramble(1), Ok(()));
        let turned: Vec<usize> =
            (0..home.pieces.len()).filter(|i| home.pieces[*i] != state.pieces[*i]).collect();
        assert!(!turned.is_empty());
        let rot = state.pieces[turned[0]].att.clone();
        let mut made = false;
        for cell in 0..11 {
            for face in 1..11 {
                for ccw in [true, false] {
                    let twist = face_twist(cell, face, ccw).unwrap();
                    if twist.rot == rot {
                        let mut by_hand = copy_of(&home);
                        by_hand.twist(&twist).unwrap();
                        made = made || by_hand == state;
                    }
                }
            }
        }
        assert!(made);
        if !seen.contains(&rot.perm) {
            seen.push(rot.perm);
        }
    }
    assert!(seen.len() > 2);
}
