//! The mathematical model of the rules: what counts as a capture chain, a
//! simple move, a legal move, and how applying a move transforms a position.
//!
//! Coordinates are row `r` (0..8, row 0 at the top) and column `c` (0..8).
//! A square is playable iff `r + c` is odd. Captured squares are carried as
//! `(usize, usize)` pairs, exactly as they appear in a [`Move`]'s capture
//! list; positions computed along a chain are `(int, int)` pairs.

use vstd::prelude::*;

use crate::board::Board;
use crate::types::Move;
use crate::types::Piece;
use crate::types::Player;

verus! {

pub open spec fn other_player(p: Player) -> Player {
    match p {
        Player::White => Player::Black,
        Player::Black => Player::White,
    }
}

/// The player owning a piece, if any.
pub open spec fn owner(p: Piece) -> Option<Player> {
    match p {
        Piece::Empty => None,
        Piece::Regular(q) => Some(q),
        Piece::King(q) => Some(q),
    }
}

pub open spec fn in_bounds(r: int, c: int) -> bool {
    0 <= r < 8 && 0 <= c < 8
}

/// Pieces only ever stand on the dark squares, where row + column is odd.
pub open spec fn playable(r: int, c: int) -> bool {
    (r + c) % 2 == 1
}

/// The square (r, c) of a grid.
pub open spec fn grid_sq(g: [[Piece; 8]; 8], r: int, c: int) -> Piece {
    g@[r]@[c]
}

/// The square (r, c) of a board.
pub open spec fn sq(b: Board, r: int, c: int) -> Piece {
    grid_sq(b.pieces, r, c)
}

/// Whether a regular piece of this kind may take its first step (plain move
/// or first jump of a chain) in row direction `dr`. Kings move both ways.
pub open spec fn dir_ok_first(p: Piece, dr: int) -> bool {
    match p {
        Piece::Regular(Player::White) => dr == -1,
        Piece::Regular(Player::Black) => dr == 1,
        Piece::King(_) => dr == -1 || dr == 1,
        Piece::Empty => false,
    }
}

/// The landing square of a jump from `pos` over the captured square `cap`:
/// the reflection of `pos` through `cap`.
pub open spec fn jump_dest(pos: (int, int), cap: (usize, usize)) -> (int, int) {
    (2 * (cap.0 as int) - pos.0, 2 * (cap.1 as int) - pos.1)
}

/// The position reached after the first `j` jumps of a chain that starts at
/// `from` and captures the squares of `caps` in order.
pub open spec fn chain_pos(from: (int, int), caps: Seq<(usize, usize)>, j: int) -> (int, int)
    decreases j,
{
    if j <= 0 {
        from
    } else {
        jump_dest(chain_pos(from, caps, j - 1), caps[j - 1])
    }
}

/// Whether the square (r, c) holds a piece of the opponent of `pl`.
pub open spec fn is_enemy(b: Board, r: int, c: int, pl: Player) -> bool {
    match owner(sq(b, r, c)) {
        Some(q) => q != pl,
        None => false,
    }
}

/// One valid jump by a piece of `mover` standing at `pos`, over the square
/// `cap`, given the squares `prior` captured earlier in the same chain.
/// All squares are judged against `b` as it stands before the move: the
/// board does not change while a chain is being explored, so a piece
/// captured earlier still occupies its square, and only the `prior` list
/// rules it out.
pub open spec fn step_ok(
    b: Board,
    mover: Player,
    pos: (int, int),
    cap: (usize, usize),
    prior: Seq<(usize, usize)>,
) -> bool {
    let mr = cap.0 as int;
    let mc = cap.1 as int;
    let land = jump_dest(pos, cap);
    &&& (mr - pos.0 == 1 || mr - pos.0 == -1)
    &&& (mc - pos.1 == 1 || mc - pos.1 == -1)
    &&& in_bounds(land.0, land.1)
    &&& is_enemy(b, mr, mc, mover)
    &&& sq(b, land.0, land.1) == Piece::Empty
    &&& !prior.contains(cap)
}

/// A valid capture chain for `piece` starting at `from` on board `b`,
/// capturing the squares of `caps` in order. The first jump must follow the
/// piece's own movement directions; once captures have begun, every diagonal
/// direction is open to regular pieces and kings alike.
pub open spec fn chain_ok(
    b: Board,
    piece: Piece,
    from: (int, int),
    caps: Seq<(usize, usize)>,
) -> bool {
    &&& caps.len() >= 1
    &&& owner(piece) == Some(b.current_player)
    &&& dir_ok_first(piece, (caps[0].0 as int) - from.0)
    &&& forall|j: int|
        0 <= j < caps.len() ==> #[trigger] step_ok(
            b,
            b.current_player,
            chain_pos(from, caps, j),
            caps[j],
            caps.take(j),
        )
}

/// A capture chain available to the side to move from the square (fx, fy).
pub open spec fn is_chain_of(b: Board, fx: int, fy: int, caps: Seq<(usize, usize)>) -> bool {
    &&& in_bounds(fx, fy)
    &&& owner(sq(b, fx, fy)) == Some(b.current_player)
    &&& chain_ok(b, sq(b, fx, fy), (fx, fy), caps)
}

/// The final destination of a chain from (fx, fy) capturing `caps`.
pub open spec fn chain_end(fx: int, fy: int, caps: Seq<(usize, usize)>) -> (int, int) {
    chain_pos((fx, fy), caps, caps.len() as int)
}

/// Whether the piece of the side to move standing at (x, y) has at least one
/// capture available.
pub open spec fn piece_has_capture(b: Board, x: int, y: int) -> bool {
    &&& in_bounds(x, y)
    &&& owner(sq(b, x, y)) == Some(b.current_player)
    &&& exists|cap: (usize, usize)|
        dir_ok_first(sq(b, x, y), (cap.0 as int) - x) && #[trigger] step_ok(
            b,
            b.current_player,
            (x, y),
            cap,
            Seq::empty(),
        )
}

/// Whether any piece of the side to move has a capture available. When this
/// holds, only capture moves are legal (mandatory capture).
pub open spec fn side_has_capture(b: Board) -> bool {
    exists|x: int, y: int| #[trigger] piece_has_capture(b, x, y)
}

/// A non-capturing move of the side to move, from (fx, fy) to the adjacent
/// diagonal square (tx, ty). A piece that can capture must capture, so a
/// simple move exists only for a piece with no capture available.
pub open spec fn simple_ok(b: Board, fx: int, fy: int, tx: int, ty: int) -> bool {
    &&& in_bounds(fx, fy)
    &&& owner(sq(b, fx, fy)) == Some(b.current_player)
    &&& dir_ok_first(sq(b, fx, fy), tx - fx)
    &&& (ty - fy == 1 || ty - fy == -1)
    &&& in_bounds(tx, ty)
    &&& sq(b, tx, ty) == Piece::Empty
    &&& !piece_has_capture(b, fx, fy)
}

/// Whether the [`Move`] value `m` records origin (fx, fy), destination `to`,
/// and capture list `caps`.
pub open spec fn move_is(
    m: Move,
    fx: int,
    fy: int,
    to: (int, int),
    caps: Seq<(usize, usize)>,
) -> bool {
    &&& m.from_x as int == fx
    &&& m.from_y as int == fy
    &&& m.to_x as int == to.0
    &&& m.to_y as int == to.1
    &&& m.captures@ == caps
}

/// Whether `m` records a valid capture chain of the piece at (x, y).
pub open spec fn capture_move_of(b: Board, x: int, y: int, m: Move) -> bool {
    &&& is_chain_of(b, x, y, m.captures@)
    &&& move_is(m, x, y, chain_end(x, y, m.captures@), m.captures@)
}

/// Whether `m` records a valid simple move of the piece at (x, y).
pub open spec fn simple_move_of(b: Board, x: int, y: int, m: Move) -> bool {
    &&& simple_ok(b, x, y, m.to_x as int, m.to_y as int)
    &&& move_is(m, x, y, (m.to_x as int, m.to_y as int), Seq::empty())
}

/// A correct per-piece move from (x, y): either a capture chain with its
/// recorded destination, or a simple move with an empty capture list.
pub open spec fn piece_move_ok(b: Board, x: int, y: int, m: Move) -> bool {
    ||| capture_move_of(b, x, y, m)
    ||| simple_move_of(b, x, y, m)
}

/// A move legal for the whole turn: any capture chain, or, when no piece of
/// the side to move can capture, any simple move.
pub open spec fn legal_move(b: Board, m: Move) -> bool {
    ||| capture_move_of(b, m.from_x as int, m.from_y as int, m)
    ||| (!side_has_capture(b) && simple_move_of(b, m.from_x as int, m.from_y as int, m))
}

/// Whether some legal move runs from (fx, fy) to (tx, ty). Validation goes
/// by endpoints alone: the engine's own capture list for that destination is
/// authoritative.
pub open spec fn has_legal_with_endpoints(b: Board, fx: int, fy: int, tx: int, ty: int) -> bool {
    ||| (exists|caps: Seq<(usize, usize)>|
        #[trigger] is_chain_of(b, fx, fy, caps) && chain_end(fx, fy, caps) == (tx, ty))
    ||| (!side_has_capture(b) && simple_ok(b, fx, fy, tx, ty))
}

/// Whether the side to move has any legal move at all.
pub open spec fn has_any_legal(b: Board) -> bool {
    ||| side_has_capture(b)
    ||| exists|fx: int, fy: int, tx: int, ty: int| #[trigger] simple_ok(b, fx, fy, tx, ty)
}

/// The piece placed on the destination square: a regular piece that reaches
/// the farthest row from its own side (row 0 for White, row 7 for Black) is
/// promoted to a king; a king stays a king.
pub open spec fn promoted(p: Piece, tx: int) -> Piece {
    match p {
        Piece::Regular(Player::White) => if tx == 0 {
            Piece::King(Player::White)
        } else {
            p
        },
        Piece::Regular(Player::Black) => if tx == 7 {
            Piece::King(Player::Black)
        } else {
            p
        },
        _ => p,
    }
}

/// The content of the square (r, c) after a move from (fx, fy) to (tx, ty)
/// capturing `caps` is applied to `b0`: the destination takes the moved
/// (possibly promoted) piece, the origin and every captured square are
/// cleared, and every other square is unchanged.
pub open spec fn apply_cell(
    b0: Board,
    fx: int,
    fy: int,
    tx: int,
    ty: int,
    caps: Seq<(usize, usize)>,
    r: int,
    c: int,
) -> Piece {
    if r == tx && c == ty {
        promoted(sq(b0, fx, fy), tx)
    } else if (r == fx && c == fy) || caps.contains((r as usize, c as usize)) {
        Piece::Empty
    } else {
        sq(b0, r, c)
    }
}

/// How the successor position `b1` relates to `b0` after applying a move:
/// the grid changes pointwise as [`apply_cell`] says, and the turn passes to
/// the other side unless the new grid still offers the mover a capture, in
/// which case the same side stays to move and continues its chain.
pub open spec fn apply_rel(
    b0: Board,
    fx: int,
    fy: int,
    tx: int,
    ty: int,
    caps: Seq<(usize, usize)>,
    b1: Board,
) -> bool {
    &&& forall|r: int, c: int|
        in_bounds(r, c) ==> #[trigger] sq(b1, r, c) == apply_cell(b0, fx, fy, tx, ty, caps, r, c)
    &&& b1.current_player == (if side_has_capture(
        (Board { pieces: b1.pieces, current_player: b0.current_player }),
    ) {
        b0.current_player
    } else {
        other_player(b0.current_player)
    })
}

/// The content the standard starting position gives to the square (r, c):
/// Black's twelve regular pieces on the playable squares of rows 0..=2,
/// White's twelve on those of rows 5..=7.
pub open spec fn initial_square(r: int, c: int) -> Piece {
    if playable(r, c) && r < 3 {
        Piece::Regular(Player::Black)
    } else if playable(r, c) && r > 4 {
        Piece::Regular(Player::White)
    } else {
        Piece::Empty
    }
}

/// The standard starting position, White to move.
pub open spec fn is_initial_board(b: Board) -> bool {
    &&& b.current_player == Player::White
    &&& forall|r: int, c: int| in_bounds(r, c) ==> #[trigger] sq(b, r, c) == initial_square(r, c)
}

/// Every piece of the board stands on a playable square.
pub open spec fn pieces_on_playable(b: Board) -> bool {
    forall|r: int, c: int|
        in_bounds(r, c) && #[trigger] sq(b, r, c) != Piece::Empty ==> playable(r, c)
}

/// The number of pieces of side `s` among the first `n` squares of the grid
/// in row-major order (square k is row k / 8, column k % 8).
pub open spec fn count_upto(g: [[Piece; 8]; 8], s: Player, n: int) -> nat
    decreases n,
{
    if n <= 0 {
        0
    } else {
        count_upto(g, s, n - 1) + (if owner(grid_sq(g, (n - 1) / 8, (n - 1) % 8)) == Some(s) {
            1nat
        } else {
            0nat
        })
    }
}

/// The number of pieces of side `s` on the board.
pub open spec fn count_side(b: Board, s: Player) -> nat {
    count_upto(b.pieces, s, 64)
}

/// The number of pieces of side `s` among the first `n` squares of the
/// standard starting position.
pub open spec fn initial_count_upto(s: Player, n: int) -> nat
    decreases n,
{
    if n <= 0 {
        0
    } else {
        initial_count_upto(s, n - 1) + (if owner(initial_square((n - 1) / 8, (n - 1) % 8))
            == Some(s) {
            1nat
        } else {
            0nat
        })
    }
}

/// On a board in the starting position the square counts agree with the
/// counts computed from the starting layout itself.
pub(crate) proof fn lemma_initial_count_upto(b: Board, s: Player, n: int)
    requires
        is_initial_board(b),
        0 <= n <= 64,
    ensures
        count_upto(b.pieces, s, n) == initial_count_upto(s, n),
    decreases n,
{
    if n > 0 {
        lemma_initial_count_upto(b, s, n - 1);
        let k = n - 1;
        assert(k == 8 * (k / 8) + k % 8);
        assert(in_bounds(k / 8, k % 8));
        assert(sq(b, k / 8, k % 8) == initial_square(k / 8, k % 8));
    }
}

/// A chain `caps` that begins with the jumps of `prior`, has reached `pos`,
/// and whose next jump goes in direction `dir`. This is what the recursive
/// capture search still has to find from `pos` once it has committed to
/// `prior` and picked a direction.
pub open spec fn chain_extends(
    b: Board,
    fx: int,
    fy: int,
    prior: Seq<(usize, usize)>,
    pos: (int, int),
    dir: (int, int),
    caps: Seq<(usize, usize)>,
) -> bool {
    &&& is_chain_of(b, fx, fy, caps)
    &&& caps.len() > prior.len()
    &&& caps.take(prior.len() as int) == prior
    &&& (caps[prior.len() as int].0 as int) == pos.0 + dir.0
    &&& (caps[prior.len() as int].1 as int) == pos.1 + dir.1
}

/// Some entry of `s` at index `lo` or later records the capture move from
/// (fx, fy) with capture list `caps`.
pub open spec fn emitted_chain(
    s: Seq<Move>,
    lo: int,
    fx: int,
    fy: int,
    caps: Seq<(usize, usize)>,
) -> bool {
    exists|i: int| lo <= i < s.len() && #[trigger] move_is(s[i], fx, fy, chain_end(fx, fy, caps), caps)
}

/// Some entry of `s` records the simple move from (fx, fy) to (tx, ty).
pub open spec fn emitted_simple(s: Seq<Move>, fx: int, fy: int, tx: int, ty: int) -> bool {
    exists|i: int|
        0 <= i < s.len() && #[trigger] move_is(s[i], fx, fy, (tx, ty), Seq::empty())
}

/// An emitted simple move stays emitted when the accumulator only grows.
pub(crate) proof fn lemma_emitted_simple_prefix(
    s1: Seq<Move>,
    s2: Seq<Move>,
    fx: int,
    fy: int,
    tx: int,
    ty: int,
)
    requires
        s1.is_prefix_of(s2),
        emitted_simple(s1, fx, fy, tx, ty),
    ensures
        emitted_simple(s2, fx, fy, tx, ty),
{
    let i = choose|i: int|
        0 <= i < s1.len() && #[trigger] move_is(s1[i], fx, fy, (tx, ty), Seq::empty());
    lemma_prefix_index(s1, s2, i);
    assert(move_is(s2[i], fx, fy, (tx, ty), Seq::empty()));
}

pub(crate) proof fn lemma_prefix_refl(a: Seq<Move>)
    ensures
        a.is_prefix_of(a),
{
    assert(a.take(a.len() as int) =~= a);
}

pub(crate) proof fn lemma_prefix_trans(a: Seq<Move>, b: Seq<Move>, c: Seq<Move>)
    requires
        a.is_prefix_of(b),
        b.is_prefix_of(c),
    ensures
        a.is_prefix_of(c),
{
    assert(c.take(a.len() as int) =~= b.take(a.len() as int));
}

pub(crate) proof fn lemma_prefix_index(a: Seq<Move>, b: Seq<Move>, i: int)
    requires
        a.is_prefix_of(b),
        0 <= i < a.len(),
    ensures
        a[i] == b[i],
{
    assert(a[i] == b.take(a.len() as int)[i]);
}

/// An emitted move stays emitted when the accumulator only grows.
pub(crate) proof fn lemma_emitted_prefix(
    s1: Seq<Move>,
    s2: Seq<Move>,
    lo: int,
    fx: int,
    fy: int,
    caps: Seq<(usize, usize)>,
)
    requires
        0 <= lo,
        s1.is_prefix_of(s2),
        emitted_chain(s1, lo, fx, fy, caps),
    ensures
        emitted_chain(s2, lo, fx, fy, caps),
{
    let i = choose|i: int|
        lo <= i < s1.len() && #[trigger] move_is(s1[i], fx, fy, chain_end(fx, fy, caps), caps);
    lemma_prefix_index(s1, s2, i);
    assert(move_is(s2[i], fx, fy, chain_end(fx, fy, caps), caps));
}

/// An emitted move stays emitted when the lower index bound is relaxed.
pub(crate) proof fn lemma_emitted_weaken(
    s: Seq<Move>,
    lo1: int,
    lo2: int,
    fx: int,
    fy: int,
    caps: Seq<(usize, usize)>,
)
    requires
        emitted_chain(s, lo1, fx, fy, caps),
        lo2 <= lo1,
    ensures
        emitted_chain(s, lo2, fx, fy, caps),
{
    let i = choose|i: int|
        lo1 <= i < s.len() && #[trigger] move_is(s[i], fx, fy, chain_end(fx, fy, caps), caps);
    assert(lo2 <= i < s.len() && move_is(s[i], fx, fy, chain_end(fx, fy, caps), caps));
}

/// The position after j jumps depends only on the first j captured squares.
pub(crate) proof fn lemma_chain_pos_agree(
    from: (int, int),
    a: Seq<(usize, usize)>,
    b: Seq<(usize, usize)>,
    j: int,
)
    requires
        0 <= j <= a.len(),
        j <= b.len(),
        forall|k: int| 0 <= k < j ==> a[k] == b[k],
    ensures
        chain_pos(from, a, j) == chain_pos(from, b, j),
    decreases j,
{
    if j > 0 {
        lemma_chain_pos_agree(from, a, b, j - 1);
    }
}

/// Along a valid chain every reached position is on the board, and so is
/// every captured square.
pub(crate) proof fn lemma_chain_in_bounds(
    b: Board,
    piece: Piece,
    from: (int, int),
    caps: Seq<(usize, usize)>,
    j: int,
)
    requires
        chain_ok(b, piece, from, caps),
        in_bounds(from.0, from.1),
        0 <= j <= caps.len(),
    ensures
        in_bounds(chain_pos(from, caps, j).0, chain_pos(from, caps, j).1),
        j < caps.len() ==> caps[j].0 < 8 && caps[j].1 < 8,
    decreases j,
{
    if j > 0 {
        lemma_chain_in_bounds(b, piece, from, caps, j - 1);
        assert(step_ok(b, b.current_player, chain_pos(from, caps, j - 1), caps[j - 1], caps.take(
            j - 1,
        )));
    }
    if j < caps.len() {
        assert(step_ok(b, b.current_player, chain_pos(from, caps, j), caps[j], caps.take(j)));
    }
}

/// No square is captured twice within one chain.
pub(crate) proof fn lemma_chain_distinct(
    b: Board,
    piece: Piece,
    from: (int, int),
    caps: Seq<(usize, usize)>,
)
    requires
        chain_ok(b, piece, from, caps),
    ensures
        caps.no_duplicates(),
{
    assert forall|i: int, j: int| 0 <= i < j < caps.len() implies caps[i] != caps[j] by {
        assert(step_ok(b, b.current_player, chain_pos(from, caps, j), caps[j], caps.take(j)));
        if caps[i] == caps[j] {
            assert(caps.take(j)[i] == caps[j]);
            assert(caps.take(j).contains(caps[j]));
        }
    }
}

/// A sequence of pairwise distinct board squares has at most 64 entries.
pub(crate) proof fn lemma_distinct_squares_len(s: Seq<(usize, usize)>)
    requires
        s.no_duplicates(),
        forall|k: int| 0 <= k < s.len() ==> (#[trigger] s[k]).0 < 8 && s[k].1 < 8,
    ensures
        s.len() <= 64,
{
    let e = Seq::new(s.len(), |k: int| (s[k].0 * 8 + s[k].1) as int);
    assert forall|i: int, j: int| 0 <= i < j < e.len() implies e[i] != e[j] by {
        if e[i] == e[j] {
            assert(s[i].0 == s[j].0 && s[i].1 == s[j].1) by {
                assert(s[i].0 * 8 + s[i].1 == s[j].0 * 8 + s[j].1);
            }
            assert(s[i] == s[j]);
        }
    }
    e.unique_seq_to_set();
    assert(e.to_set().subset_of(crate::rules::square_codes())) by {
        assert forall|x: int| e.to_set().contains(x) implies square_codes().contains(x) by {
            let k = choose|k: int| 0 <= k < e.len() && e[k] == x;
            assert(((s[k].0 * 8 + s[k].1) as int) < 64);
        }
    }
    vstd::set_lib::lemma_int_range(0, 64);
    vstd::set_lib::lemma_len_subset(e.to_set(), square_codes());
}

/// The row-major codes of the 64 squares.
pub(crate) open spec fn square_codes() -> Set<int> {
    vstd::set_lib::set_int_range(0, 64)
}

/// A piece has a capture available exactly when some one-jump chain starts
/// at its square.
pub(crate) proof fn lemma_single_jump_chain(b: Board, x: int, y: int)
    ensures
        piece_has_capture(b, x, y) <==> (in_bounds(x, y) && exists|caps: Seq<(usize, usize)>|
            #[trigger] is_chain_of(b, x, y, caps)),
{
    let piece = sq(b, x, y);
    if piece_has_capture(b, x, y) {
        let cap = choose|cap: (usize, usize)|
            dir_ok_first(piece, (cap.0 as int) - x) && #[trigger] step_ok(
                b,
                b.current_player,
                (x, y),
                cap,
                Seq::empty(),
            );
        let caps = seq![cap];
        assert(caps.take(0) =~= Seq::<(usize, usize)>::empty());
        assert forall|j: int| 0 <= j < caps.len() implies #[trigger] step_ok(
            b,
            b.current_player,
            chain_pos((x, y), caps, j),
            caps[j],
            caps.take(j),
        ) by {
            assert(chain_pos((x, y), caps, 0) == (x, y));
        }
        assert(is_chain_of(b, x, y, caps));
    }
    if in_bounds(x, y) && exists|caps: Seq<(usize, usize)>| #[trigger] is_chain_of(b, x, y, caps) {
        let caps = choose|caps: Seq<(usize, usize)>| #[trigger] is_chain_of(b, x, y, caps);
        assert(step_ok(b, b.current_player, chain_pos((x, y), caps, 0), caps[0], caps.take(0)));
        assert(caps.take(0) =~= Seq::<(usize, usize)>::empty());
        assert(dir_ok_first(piece, (caps[0].0 as int) - x) && step_ok(
            b,
            b.current_player,
            (x, y),
            caps[0],
            Seq::empty(),
        ));
    }
}

/// What any chain extending `prior` in direction `dir` from `pos` forces:
/// its next captured square is the adjacent square in that direction, that
/// square holds an opposing piece not captured before, the landing square
/// two away is free and on the board, and the chain continues from there.
pub(crate) proof fn lemma_extension_step(
    b: Board,
    fx: int,
    fy: int,
    prior: Seq<(usize, usize)>,
    x: int,
    y: int,
    dx: int,
    dy: int,
    caps: Seq<(usize, usize)>,
)
    requires
        in_bounds(fx, fy),
        in_bounds(x, y),
        prior.len() == 0 ==> x == fx && y == fy,
        prior.len() > 0 ==> (x, y) == chain_pos((fx, fy), prior, prior.len() as int),
        chain_extends(b, fx, fy, prior, (x, y), (dx, dy), caps),
    ensures
        0 <= x + dx < 8,
        0 <= y + dy < 8,
        in_bounds(x + 2 * dx, y + 2 * dy),
        caps[prior.len() as int] == (((x + dx) as usize), ((y + dy) as usize)),
        step_ok(b, b.current_player, (x, y), (((x + dx) as usize), ((y + dy) as usize)), prior),
        is_enemy(b, x + dx, y + dy, b.current_player),
        sq(b, x + 2 * dx, y + 2 * dy) == Piece::Empty,
        !prior.contains((((x + dx) as usize), ((y + dy) as usize))),
        chain_pos((fx, fy), caps, prior.len() as int + 1) == (x + 2 * dx, y + 2 * dy),
        caps.len() == prior.len() + 1 ==> caps =~= prior.push(
            (((x + dx) as usize), ((y + dy) as usize)),
        ),
{
    let plen = prior.len() as int;
    assert(forall|k: int| 0 <= k < plen ==> caps[k] == #[trigger] caps.take(plen)[k]);
    lemma_chain_pos_agree((fx, fy), caps, prior, plen);
    assert(chain_pos((fx, fy), caps, plen) == (x, y));
    assert(step_ok(b, b.current_player, (x, y), caps[plen], caps.take(plen)));
    let cap = caps[plen];
    let land = jump_dest((x, y), cap);
    assert(land == (x + 2 * dx, y + 2 * dy));
    assert(0 <= x + dx < 8 && 0 <= y + dy < 8);
    assert(cap == (((x + dx) as usize), ((y + dy) as usize)));
    assert(chain_pos((fx, fy), caps, plen + 1) == jump_dest((x, y), cap));
    if caps.len() == prior.len() + 1 {
        assert(caps =~= prior.push(cap));
    }
}

/// How the count of a side changes when a single square changes: the counts
/// of the two grids differ exactly by the contributions of that square.
pub(crate) proof fn lemma_count_upto_cell_set(
    g0: [[Piece; 8]; 8],
    g1: [[Piece; 8]; 8],
    x: int,
    y: int,
    s: Player,
    n: int,
)
    requires
        in_bounds(x, y),
        forall|r: int, c: int|
            in_bounds(r, c) && !(r == x && c == y) ==> #[trigger] grid_sq(g1, r, c) == grid_sq(
                g0,
                r,
                c,
            ),
        0 <= n <= 64,
    ensures
        count_upto(g1, s, n) + (if n > x * 8 + y && owner(grid_sq(g0, x, y)) == Some(s) {
            1nat
        } else {
            0nat
        }) == count_upto(g0, s, n) + (if n > x * 8 + y && owner(grid_sq(g1, x, y)) == Some(s) {
            1nat
        } else {
            0nat
        }),
    decreases n,
{
    if n > 0 {
        lemma_count_upto_cell_set(g0, g1, x, y, s, n - 1);
        let k = n - 1;
        assert(k == 8 * (k / 8) + k % 8);
        assert(0 <= k / 8 < 8 && 0 <= k % 8 < 8);
        if k == x * 8 + y {
            assert(k / 8 == x && k % 8 == y);
        } else {
            assert(!(k / 8 == x && k % 8 == y));
            assert(grid_sq(g1, k / 8, k % 8) == grid_sq(g0, k / 8, k % 8));
        }
    }
}

/// Every jump lands on a square of the same colour, so a whole chain keeps
/// the parity of row + column.
pub(crate) proof fn lemma_chain_parity(
    b: Board,
    piece: Piece,
    from: (int, int),
    caps: Seq<(usize, usize)>,
    j: int,
)
    requires
        chain_ok(b, piece, from, caps),
        in_bounds(from.0, from.1),
        0 <= j <= caps.len(),
    ensures
        (chain_pos(from, caps, j).0 + chain_pos(from, caps, j).1) % 2 == (from.0 + from.1) % 2,
    decreases j,
{
    if j > 0 {
        lemma_chain_parity(b, piece, from, caps, j - 1);
        lemma_chain_in_bounds(b, piece, from, caps, j - 1);
        lemma_chain_in_bounds(b, piece, from, caps, j);
        let p = chain_pos(from, caps, j - 1);
        let q = chain_pos(from, caps, j);
        assert(q.0 + q.1 + p.0 + p.1 == 2 * ((caps[j - 1].0 as int) + (caps[j - 1].1 as int)));
        assert((q.0 + q.1) % 2 == (p.0 + p.1) % 2) by {
            let a = q.0 + q.1;
            let c = p.0 + p.1;
            assert(0 <= a < 16 && 0 <= c < 16 && (a + c) % 2 == 0);
        }
    }
}

} // verus!
