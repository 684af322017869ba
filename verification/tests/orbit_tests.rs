use eleven_cell::error::PuzzleError;
use eleven_cell::perm::Permutation;
use eleven_cell::piece::Piece;
use eleven_cell::setup11c::{base_pieces, generators};
use eleven_cell::state::PuzzleState;

fn signatures(state: &PuzzleState) -> Vec<Vec<u8>> {
    state.pieces.iter().map(|p| p.sig.clone()).collect()
}

fn ten_cycle() -> Permutation {
    Permutation::new(vec![0, 2, 3, 4, 5, 6, 7, 8, 9, 10, 1])
}

#[test]
fn generate_finds_the_orbit_of_ten_under_a_ten_cycle() {
    let base = vec![Piece::new(vec![0, 1, 0, 0, 0, 0, 0, 0, 0, 0, 0])];
    let state = PuzzleState::generate(&base, &vec![ten_cycle()]).unwrap();
    assert_eq!(state.degree, 11);
    assert_eq!(state.pieces.len(), 10);
    for (k, piece) in state.pieces.iter().enumerate() {
        let mut expected = vec![0u8; 11];
        expected[k + 1] = 1;
        assert_eq!(piece.sig, expected);
        assert_eq!(piece.att, Permutation::identity(11));
    }
    for i in 0..10 {
        for j in 0..i {
            assert_ne!(state.pieces[i].sig, state.pieces[j].sig);
        }
    }
    assert!(state.is_solved);
    assert!(state.twist_stack.is_empty());
    assert!(state.is_valid());
}

#[test]
fn generate_queues_a_signature_again_until_it_is_finalized() {
    let base = vec![Piece::new(vec![1, 0, 0, 0, 0, 0, 0, 0, 0, 0, 0])];
    let state = PuzzleState::generate(&base, &vec![ten_cycle()]).unwrap();
    assert_eq!(
        signatures(&state),
        vec![vec![1, 0, 0, 0, 0, 0, 0, 0, 0, 0, 0], vec![1, 0, 0, 0, 0, 0, 0, 0, 0, 0, 0]]
    );
    for piece in &state.pieces {
        assert_eq!(piece.att, Permutation::identity(11));
    }
}

#[test]
fn generate_lists_pieces_breadth_first() {
    let gens = vec![Permutation::new(vec![1, 2, 0]), Permutation::new(vec![0, 2, 1])];
    let state = PuzzleState::generate(&vec![Piece::new(vec![1, 0, 0])], &gens).unwrap();
    assert_eq!(
        signatures(&state),
        vec![vec![1, 0, 0], vec![0, 1, 0], vec![1, 0, 0], vec![0, 0, 1], vec![0, 0, 1]]
    );
    let marked = PuzzleState::generate(&vec![Piece::new(vec![1, 2, 0])], &gens).unwrap();
    assert_eq!(
        signatures(&marked),
        vec![
            vec![1, 2, 0],
            vec![0, 1, 2],
            vec![1, 0, 2],
            vec![2, 0, 1],
            vec![0, 2, 1],
            vec![2, 1, 0],
            vec![2, 1, 0]
        ]
    );
}

#[test]
fn generate_rejects_an_empty_generator_list() {
    let base = vec![Piece::new(vec![1, 0, 0])];
    assert_eq!(PuzzleState::generate(&base, &vec![]), Err(PuzzleError::EmptyGenerators));
    assert_eq!(PuzzleState::generate(&vec![], &vec![]), Err(PuzzleError::EmptyGenerators));
}

#[test]
fn generate_rejects_generators_of_unequal_degree() {
    let base = vec![Piece::new(vec![1, 0, 0])];
    let gens = vec![Permutation::new(vec![1, 2, 0]), Permutation::new(vec![1, 0])];
    assert_eq!(PuzzleState::generate(&base, &gens), Err(PuzzleError::DegreeMismatch));
}

#[test]
fn generate_rejects_a_base_piece_of_another_degree() {
    let base = vec![Piece::new(vec![1, 0, 0]), Piece::new(vec![1, 0, 0, 0])];
    let gens = vec![Permutation::new(vec![1, 2, 0])];
    assert_eq!(PuzzleState::generate(&base, &gens), Err(PuzzleError::DegreeMismatch));
    let other = vec![Piece::new(vec![1, 0])];
    assert_eq!(PuzzleState::generate(&other, &gens), Err(PuzzleError::DegreeMismatch));
}

#[test]
fn generate_without_base_pieces_gives_a_puzzle_without_pieces() {
    let gens = vec![Permutation::new(vec![1, 2, 0])];
    let state = PuzzleState::generate(&vec![], &gens).unwrap();
    assert_eq!(state.degree, 3);
    assert!(state.pieces.is_empty());
    assert!(state.is_solved);
}

#[test]
fn generate_puts_turned_base_pieces_at_home() {
    let turned = Piece::new(vec![1, 0, 0]).rotate(&Permutation::new(vec![0, 2, 1])).unwrap();
    assert_ne!(turned.att, Permutation::identity(3));
    let gens = vec![Permutation::new(vec![1, 2, 0])];
    let state = PuzzleState::generate(&vec![turned], &gens).unwrap();
    assert_eq!(signatures(&state), vec![vec![1, 0, 0], vec![0, 1, 0], vec![0, 0, 1]]);
    for piece in &state.pieces {
        assert_eq!(piece.att, Permutation::identity(3));
    }
    assert!(state.is_valid());
}

#[test]
fn generate_gives_the_same_puzzle_every_time() {
    let first = PuzzleState::generate(&base_pieces(), &generators()).unwrap();
    let second = PuzzleState::generate(&base_pieces(), &generators()).unwrap();
    assert_eq!(first, second);
}

#[test]
fn generate_builds_the_whole_puzzle() {
    let state = PuzzleState::generate(&base_pieces(), &generators()).unwrap();
    assert_eq!(state.degree, 11);
    assert_eq!(state.pieces.len(), 1906);
    let sigs = signatures(&state);
    assert_eq!(
        sigs[..8].to_vec(),
        vec![
            vec![1, 0, 0, 0, 0, 0, 0, 0, 0, 0, 0],
            vec![1, 1, 0, 0, 0, 0, 0, 0, 0, 0, 0],
            vec![1, 1, 1, 0, 0, 0, 0, 0, 0, 0, 0],
            vec![1, 1, 1, 1, 1, 1, 0, 0, 0, 0, 0],
            vec![0, 0, 0, 0, 0, 0, 0, 0, 0, 0, 1],
            vec![1, 0, 0, 0, 0, 0, 0, 0, 0, 0, 0],
            vec![1, 0, 0, 0, 0, 0, 0, 0, 0, 0, 0],
            vec![1, 0, 0, 0, 0, 0, 0, 0, 0, 0, 1]
        ]
    );
    let mut distinct = sigs.clone();
    distinct.sort();
    distinct.dedup();
    assert_eq!(distinct.len(), 693);
    let touching = |count: usize| {
        distinct.iter().filter(|s| s.iter().filter(|m| **m == 1).count() == count).count()
    };
    assert_eq!(touching(1), 11);
    assert_eq!(touching(2), 55);
    assert_eq!(touching(3), 165);
    assert_eq!(touching(6), 462);
    assert!(state.is_solved);
    assert!(state.twist_stack.is_empty());
    assert!(state.is_valid());
}

#[test]
fn generate_closes_the_pieces_under_the_generators() {
    let gens = generators();
    let state = PuzzleState::generate(&base_pieces(), &gens).unwrap();
    let mut known = signatures(&state);
    known.sort();
    known.dedup();
    for piece in &state.pieces {
        for g in &gens {
            let turned = piece.rotate(g).unwrap();
            assert!(known.binary_search(&turned.sig).is_ok());
        }
    }
}
