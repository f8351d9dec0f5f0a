//! The engine's laws: facts that hold of every position and every legal
//! move, stated over the spec model and proved once and for all.

use vstd::prelude::*;

use crate::board::Board;
use crate::rules::apply_rel;
use crate::rules::capture_move_of;
use crate::rules::count_side;
use crate::rules::in_bounds;
use crate::rules::initial_count_upto;
use crate::rules::is_chain_of;
use crate::rules::is_initial_board;
use crate::rules::legal_move;
use crate::rules::chain_pos;
use crate::rules::lemma_chain_distinct;
use crate::rules::lemma_chain_pos_agree;
use crate::rules::lemma_initial_count_upto;
use crate::rules::other_player;
use crate::rules::owner;
use crate::rules::pieces_on_playable;
use crate::rules::playable;
use crate::rules::promoted;
use crate::rules::side_has_capture;
use crate::rules::simple_move_of;
use crate::rules::sq;
use crate::rules::step_ok;
use crate::types::Move;
use crate::types::Piece;
use crate::types::Player;

verus! {

/// Setup invariant: the starting position holds exactly twelve pieces per
/// side, all of them regular, all on playable squares, Black's on rows
/// 0..=2 and White's on rows 5..=7 only.
#[verifier::rlimit(100)]
pub proof fn lemma_new_position_setup(b: Board)
    requires
        is_initial_board(b),
    ensures
        count_side(b, Player::White) == 12,
        count_side(b, Player::Black) == 12,
        pieces_on_playable(b),
        forall|r: int, c: int|
            in_bounds(r, c) ==> (#[trigger] sq(b, r, c) == Piece::Empty || (sq(b, r, c)
                == Piece::Regular(Player::Black) && r < 3) || (sq(b, r, c) == Piece::Regular(
                Player::White,
            ) && r > 4)),
{
    lemma_initial_count_upto(b, Player::White, 64);
    lemma_initial_count_upto(b, Player::Black, 64);
    assert(initial_count_upto(Player::White, 64) == 12) by {
        reveal_with_fuel(initial_count_upto, 65);
    }
    assert(initial_count_upto(Player::Black, 64) == 12) by {
        reveal_with_fuel(initial_count_upto, 65);
    }
}

/// Mandatory capture: while any capture is available to the side to move,
/// every legal move captures at least one piece.
pub proof fn lemma_mandatory_capture_only(b: Board, m: Move)
    requires
        side_has_capture(b),
        legal_move(b, m),
    ensures
        m.captures@.len() >= 1,
{
}

/// No self-recapture: the capture list of a legal move never names the same
/// square twice, however the chain winds over the board.
pub proof fn lemma_no_self_recapture(b: Board, m: Move)
    requires
        legal_move(b, m),
    ensures
        m.captures@.no_duplicates(),
{
    if capture_move_of(b, m.from_x as int, m.from_y as int, m) {
        lemma_chain_distinct(
            b,
            sq(b, m.from_x as int, m.from_y as int),
            (m.from_x as int, m.from_y as int),
            m.captures@,
        );
    }
}

/// Stopping early: every non-empty prefix of a valid capture chain is
/// itself a valid capture chain — a player may always end the turn after
/// any jump instead of playing the chain out.
pub proof fn lemma_chain_prefix_legal(b: Board, fx: int, fy: int, caps: Seq<(usize, usize)>, n: int)
    requires
        is_chain_of(b, fx, fy, caps),
        1 <= n <= caps.len(),
    ensures
        is_chain_of(b, fx, fy, caps.take(n)),
{
    let piece = sq(b, fx, fy);
    let pre = caps.take(n);
    assert forall|j: int| 0 <= j < pre.len() implies #[trigger] step_ok(
        b,
        b.current_player,
        chain_pos((fx, fy), pre, j),
        pre[j],
        pre.take(j),
    ) by {
        assert(step_ok(b, b.current_player, chain_pos((fx, fy), caps, j), caps[j], caps.take(j)));
        lemma_chain_pos_agree((fx, fy), pre, caps, j);
        assert(pre.take(j) =~= caps.take(j));
        assert(pre[j] == caps[j]);
    }
}

/// Promotion: applying a move that carries a regular piece to its far row
/// (row 7 for Black, row 0 for White) leaves a king on the destination; a
/// king that reaches that row stays exactly the king it was.
pub proof fn lemma_promotion(
    b0: Board,
    fx: int,
    fy: int,
    tx: int,
    ty: int,
    caps: Seq<(usize, usize)>,
    b1: Board,
)
    requires
        in_bounds(fx, fy),
        in_bounds(tx, ty),
        apply_rel(b0, fx, fy, tx, ty, caps, b1),
    ensures
        sq(b0, fx, fy) == Piece::Regular(Player::Black) && tx == 7 ==> sq(b1, tx, ty)
            == Piece::King(Player::Black),
        sq(b0, fx, fy) == Piece::Regular(Player::White) && tx == 0 ==> sq(b1, tx, ty)
            == Piece::King(Player::White),
        (sq(b0, fx, fy) is King) ==> sq(b1, tx, ty) == sq(b0, fx, fy),
{
    assert(sq(b1, tx, ty) == promoted(sq(b0, fx, fy), tx));
}

/// Turn continuation: after a move is applied, the same side stays to move
/// exactly when the new grid still offers it a capture; otherwise the turn
/// passes to the other side.
pub proof fn lemma_turn_continuation(
    b0: Board,
    fx: int,
    fy: int,
    tx: int,
    ty: int,
    caps: Seq<(usize, usize)>,
    b1: Board,
)
    requires
        apply_rel(b0, fx, fy, tx, ty, caps, b1),
    ensures
        side_has_capture((Board { pieces: b1.pieces, current_player: b0.current_player }))
            ==> b1.current_player == b0.current_player,
        !side_has_capture((Board { pieces: b1.pieces, current_player: b0.current_player }))
            ==> b1.current_player == other_player(b0.current_player),
{
}

} // verus!
