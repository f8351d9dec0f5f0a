use draughts::board::Board;
use draughts::types::Move;
use draughts::types::Piece;
use draughts::types::Player;

fn board_from(entries: &[(usize, usize, Piece)], side: Player) -> Board {
    let mut pieces = [[Piece::Empty; 8]; 8];
    for &(r, c, p) in entries {
        pieces[r][c] = p;
    }
    Board { pieces, current_player: side }
}

fn count_pieces(b: &Board, side: Player) -> usize {
    let mut n = 0;
    for r in 0..8 {
        for c in 0..8 {
            match b.get_piece(r, c) {
                Piece::Regular(p) | Piece::King(p) => {
                    if p == side {
                        n += 1;
                    }
                }
                Piece::Empty => {}
            }
        }
    }
    n
}

fn proposal(from: (usize, usize), to: (usize, usize)) -> Move {
    Move { from_x: from.0, from_y: from.1, to_x: to.0, to_y: to.1, captures: vec![] }
}

#[test]
fn new_position_setup() {
    let b = Board::new();
    assert_eq!(b.get_current_player(), Player::White);
    assert_eq!(count_pieces(&b, Player::White), 12);
    assert_eq!(count_pieces(&b, Player::Black), 12);
    for r in 0..8 {
        for c in 0..8 {
            match b.get_piece(r, c) {
                Piece::Empty => {}
                Piece::Regular(Player::Black) => {
                    assert!((r + c) % 2 == 1);
                    assert!(r < 3);
                }
                Piece::Regular(Player::White) => {
                    assert!((r + c) % 2 == 1);
                    assert!(r > 4);
                }
                Piece::King(_) => panic!("no kings in the starting position"),
            }
        }
    }
}

#[test]
fn opening_simple_moves() {
    let b = Board::new();
    let moves = b.legal_moves();
    assert_eq!(moves.len(), 7);
    for m in &moves {
        assert!(m.captures.is_empty());
        assert_eq!(m.from_x, 5);
        assert_eq!(m.to_x, 4);
    }
    assert!(b.get_mandatory_captures().is_empty());
    assert!(!b.is_game_over());
}

#[test]
fn moves_of_opponent_piece_are_empty() {
    let b = Board::new();
    // Black piece while White is to move
    assert!(b.get_possible_moves(2, 1).is_empty());
    // empty square
    assert!(b.get_possible_moves(4, 3).is_empty());
}

#[test]
fn example_single_capture() {
    // The starting grid with an extra White piece at (3, 2), Black to move:
    // the Black piece at (2, 1) has exactly the one capturing move
    // (2, 1) -> (4, 3) over (3, 2), and no simple moves.
    let mut b = Board::new();
    b.pieces[3][2] = Piece::Regular(Player::White);
    b.current_player = Player::Black;

    let moves = b.get_possible_moves(2, 1);
    assert_eq!(moves.len(), 1);
    assert_eq!(moves[0].from_x, 2);
    assert_eq!(moves[0].from_y, 1);
    assert_eq!(moves[0].to_x, 4);
    assert_eq!(moves[0].to_y, 3);
    assert_eq!(moves[0].captures, vec![(3, 2)]);

    // globally, captures are mandatory: every legal move captures
    let legal = b.legal_moves();
    assert!(!legal.is_empty());
    for m in &legal {
        assert!(!m.captures.is_empty());
    }
}

#[test]
fn mandatory_capture_rejects_simple_moves() {
    // Black at (2, 1) can capture the White piece at (3, 2); a simple move
    // by the unrelated Black piece at (2, 5) is therefore illegal.
    let b0 = board_from(
        &[
            (2, 1, Piece::Regular(Player::Black)),
            (3, 2, Piece::Regular(Player::White)),
            (2, 5, Piece::Regular(Player::Black)),
            (7, 6, Piece::Regular(Player::White)),
        ],
        Player::Black,
    );
    let mut b = board_from(
        &[
            (2, 1, Piece::Regular(Player::Black)),
            (3, 2, Piece::Regular(Player::White)),
            (2, 5, Piece::Regular(Player::Black)),
            (7, 6, Piece::Regular(Player::White)),
        ],
        Player::Black,
    );
    assert!(!b.is_valid_move(&proposal((2, 5), (3, 6))));
    assert!(!b.make_move(&proposal((2, 5), (3, 6))));
    // the failed attempt changed nothing
    for r in 0..8 {
        for c in 0..8 {
            assert!(b.get_piece(r, c) == b0.get_piece(r, c));
        }
    }
    assert_eq!(b.get_current_player(), Player::Black);
    // the capture itself is accepted
    assert!(b.is_valid_move(&proposal((2, 1), (4, 3))));
    assert!(b.make_move(&proposal((2, 1), (4, 3))));
    assert_eq!(b.get_piece(3, 2), Piece::Empty);
    assert_eq!(b.get_piece(4, 3), Piece::Regular(Player::Black));
}

#[test]
fn chain_correctness_two_jumps() {
    // Black at (0, 1) can jump (1, 2) landing on (2, 3), then (3, 4)
    // landing on (4, 5): both the one-jump prefix and the full chain are
    // legal, and the full chain lists two distinct captured squares.
    let b = board_from(
        &[
            (0, 1, Piece::Regular(Player::Black)),
            (1, 2, Piece::Regular(Player::White)),
            (3, 4, Piece::Regular(Player::White)),
        ],
        Player::Black,
    );
    let legal = b.legal_moves();
    let one_jump = legal
        .iter()
        .find(|m| m.from_x == 0 && m.from_y == 1 && m.to_x == 2 && m.to_y == 3);
    let two_jump = legal
        .iter()
        .find(|m| m.from_x == 0 && m.from_y == 1 && m.to_x == 4 && m.to_y == 5);
    assert!(one_jump.is_some());
    assert!(two_jump.is_some());
    assert_eq!(one_jump.unwrap().captures, vec![(1, 2)]);
    let caps = &two_jump.unwrap().captures;
    assert_eq!(caps.len(), 2);
    assert_eq!(caps[0], (1, 2));
    assert_eq!(caps[1], (3, 4));
    assert_ne!(caps[0], caps[1]);
}

#[test]
fn no_self_recapture_on_revisited_square() {
    // Six White pieces form a ring that lets the Black piece at (2, 1)
    // pass over the square (4, 3) twice; no capture list may name a square
    // twice, and the longest chain takes all six pieces.
    let b = board_from(
        &[
            (2, 1, Piece::Regular(Player::Black)),
            (3, 2, Piece::Regular(Player::White)),
            (3, 4, Piece::Regular(Player::White)),
            (3, 6, Piece::Regular(Player::White)),
            (5, 2, Piece::Regular(Player::White)),
            (5, 4, Piece::Regular(Player::White)),
            (5, 6, Piece::Regular(Player::White)),
        ],
        Player::Black,
    );
    let moves = b.get_possible_moves(2, 1);
    assert!(!moves.is_empty());
    let mut saw_six = false;
    for m in &moves {
        assert!(!m.captures.is_empty());
        for i in 0..m.captures.len() {
            for j in (i + 1)..m.captures.len() {
                assert_ne!(m.captures[i], m.captures[j]);
            }
        }
        if m.captures.len() == 6 {
            saw_six = true;
            assert_eq!(m.to_x, 6);
            assert_eq!(m.to_y, 1);
        }
        assert!(m.captures.len() <= 6);
    }
    assert!(saw_six);
}

#[test]
fn promotion_of_regular_pieces() {
    // a Black regular piece reaching row 7 becomes a king
    let mut b = board_from(
        &[
            (6, 1, Piece::Regular(Player::Black)),
            (0, 7, Piece::Regular(Player::White)),
        ],
        Player::Black,
    );
    assert!(b.make_move(&proposal((6, 1), (7, 0))));
    assert_eq!(b.get_piece(7, 0), Piece::King(Player::Black));

    // a White regular piece reaching row 0 becomes a king
    let mut w = board_from(
        &[
            (1, 2, Piece::Regular(Player::White)),
            (7, 0, Piece::Regular(Player::Black)),
        ],
        Player::White,
    );
    assert!(w.make_move(&proposal((1, 2), (0, 3))));
    assert_eq!(w.get_piece(0, 3), Piece::King(Player::White));
}

#[test]
fn promotion_is_idempotent_for_kings() {
    let mut b = board_from(
        &[
            (6, 1, Piece::King(Player::Black)),
            (0, 7, Piece::Regular(Player::White)),
        ],
        Player::Black,
    );
    assert!(b.make_move(&proposal((6, 1), (7, 2))));
    assert_eq!(b.get_piece(7, 2), Piece::King(Player::Black));
}

#[test]
fn no_promotion_short_of_the_far_row() {
    let mut b = board_from(
        &[
            (5, 2, Piece::Regular(Player::Black)),
            (0, 7, Piece::Regular(Player::White)),
        ],
        Player::Black,
    );
    assert!(b.make_move(&proposal((5, 2), (6, 3))));
    assert_eq!(b.get_piece(6, 3), Piece::Regular(Player::Black));
}

#[test]
fn turn_continuation_during_chain() {
    // After Black stops its capture at (4, 3), another capture is still
    // open to the same piece, so the turn stays with Black; the second
    // capture exhausts the chain and passes the turn.
    let mut b = board_from(
        &[
            (2, 1, Piece::Regular(Player::Black)),
            (3, 2, Piece::Regular(Player::White)),
            (5, 4, Piece::Regular(Player::White)),
            (7, 0, Piece::Regular(Player::White)),
        ],
        Player::Black,
    );
    assert!(b.make_move(&proposal((2, 1), (4, 3))));
    assert_eq!(b.get_piece(3, 2), Piece::Empty);
    assert_eq!(b.get_current_player(), Player::Black);
    assert!(!b.get_mandatory_captures().is_empty());

    assert!(b.make_move(&proposal((4, 3), (6, 5))));
    assert_eq!(b.get_piece(5, 4), Piece::Empty);
    assert_eq!(b.get_current_player(), Player::White);
}

#[test]
fn turn_passes_after_a_simple_move() {
    let mut b = Board::new();
    assert!(b.make_move(&proposal((5, 0), (4, 1))));
    assert_eq!(b.get_current_player(), Player::Black);
    assert_eq!(b.get_piece(5, 0), Piece::Empty);
    assert_eq!(b.get_piece(4, 1), Piece::Regular(Player::White));
}

#[test]
fn legality_closure_piece_counts() {
    // applying a legal two-capture chain removes exactly the two captured
    // pieces and keeps every piece on a playable square
    let mut b = board_from(
        &[
            (0, 1, Piece::Regular(Player::Black)),
            (1, 2, Piece::Regular(Player::White)),
            (3, 4, Piece::Regular(Player::White)),
            (7, 0, Piece::Regular(Player::White)),
        ],
        Player::Black,
    );
    let black_before = count_pieces(&b, Player::Black);
    let white_before = count_pieces(&b, Player::White);
    assert!(b.make_move(&proposal((0, 1), (4, 5))));
    assert_eq!(count_pieces(&b, Player::Black), black_before);
    assert_eq!(count_pieces(&b, Player::White), white_before - 2);
    for r in 0..8 {
        for c in 0..8 {
            if b.get_piece(r, c) != Piece::Empty {
                assert!((r + c) % 2 == 1);
            }
        }
    }
}

#[test]
fn terminal_detection() {
    // one piece per side; the Black piece on row 7 has nowhere to go
    let b = board_from(
        &[
            (7, 0, Piece::Regular(Player::Black)),
            (0, 7, Piece::Regular(Player::White)),
        ],
        Player::Black,
    );
    assert!(b.is_game_over());
    assert!(b.legal_moves().is_empty());

    // one piece per side again, but the side to move has room
    let w = board_from(
        &[
            (7, 0, Piece::Regular(Player::Black)),
            (3, 2, Piece::Regular(Player::White)),
        ],
        Player::White,
    );
    assert!(!w.is_game_over());
}

#[test]
fn invalid_moves_are_rejected() {
    let mut b = Board::new();
    // out-of-range coordinates
    assert!(!b.make_move(&proposal((9, 9), (10, 10))));
    // source square empty
    assert!(!b.make_move(&proposal((4, 3), (3, 2))));
    // source square holds the opponent's piece
    assert!(!b.make_move(&proposal((2, 1), (3, 2))));
    // destination occupied
    assert!(!b.make_move(&proposal((6, 1), (5, 2))));
    // moving backwards with a regular piece
    assert!(!b.make_move(&proposal((5, 2), (6, 3))));
    // nothing changed and it is still White's turn
    assert_eq!(b.get_current_player(), Player::White);
    let fresh = Board::new();
    for r in 0..8 {
        for c in 0..8 {
            assert!(b.get_piece(r, c) == fresh.get_piece(r, c));
        }
    }
}

#[test]
fn getters_expose_the_position() {
    let b = Board::new();
    let grid = b.get_board();
    for r in 0..8 {
        for c in 0..8 {
            assert!(grid[r][c] == b.get_piece(r, c));
        }
    }
    assert_eq!(b.get_piece(0, 1), Piece::Regular(Player::Black));
    assert_eq!(b.get_piece(5, 0), Piece::Regular(Player::White));
    assert_eq!(b.get_piece(4, 3), Piece::Empty);
}

#[test]
fn king_moves_in_all_directions() {
    let b = board_from(
        &[
            (4, 3, Piece::King(Player::White)),
            (0, 7, Piece::Regular(Player::Black)),
        ],
        Player::White,
    );
    let moves = b.get_possible_moves(4, 3);
    assert_eq!(moves.len(), 4);
    let mut dests: Vec<(usize, usize)> = moves.iter().map(|m| (m.to_x, m.to_y)).collect();
    dests.sort();
    assert_eq!(dests, vec![(3, 2), (3, 4), (5, 2), (5, 4)]);
}

#[test]
fn ambiguous_endpoints_apply_one_of_the_chains() {
    // Two distinct chains run from (2, 3) to (6, 3): left over (3, 2) and
    // (5, 2), or right over (3, 4) and (5, 4). Endpoint validation picks
    // one of them; either way exactly two pieces leave the board.
    let mut b = board_from(
        &[
            (2, 3, Piece::Regular(Player::Black)),
            (3, 2, Piece::Regular(Player::White)),
            (5, 2, Piece::Regular(Player::White)),
            (3, 4, Piece::Regular(Player::White)),
            (5, 4, Piece::Regular(Player::White)),
        ],
        Player::Black,
    );
    assert!(b.make_move(&proposal((2, 3), (6, 3))));
    assert_eq!(b.get_piece(6, 3), Piece::Regular(Player::Black));
    assert_eq!(b.get_piece(2, 3), Piece::Empty);
    assert_eq!(count_pieces(&b, Player::White), 2);
    let left_taken =
        b.get_piece(3, 2) == Piece::Empty && b.get_piece(5, 2) == Piece::Empty;
    let right_taken =
        b.get_piece(3, 4) == Piece::Empty && b.get_piece(5, 4) == Piece::Empty;
    assert!(left_taken != right_taken);
}

#[test]
fn fresh_game_holds_the_starting_position() {
    let g = draughts::game::Game::new();
    assert_eq!(g.board.get_current_player(), Player::White);
    assert_eq!(count_pieces(&g.board, Player::White), 12);
    assert_eq!(count_pieces(&g.board, Player::Black), 12);
}
