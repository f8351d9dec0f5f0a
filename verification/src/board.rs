//! The board: an 8x8 grid of squares plus the side to move, with the move
//! generator, the mandatory-capture aggregation, move validation and
//! application, and the terminal-position check.

use vstd::prelude::*;

use crate::rules::chain_extends;
use crate::rules::chain_end;
use crate::rules::chain_ok;
use crate::rules::chain_pos;
use crate::rules::dir_ok_first;
use crate::rules::emitted_chain;
use crate::rules::emitted_simple;
use crate::rules::lemma_emitted_simple_prefix;
use crate::rules::in_bounds;
use crate::rules::initial_square;
use crate::rules::is_chain_of;
use crate::rules::legal_move;
use crate::rules::side_has_capture;
use crate::rules::has_any_legal;
use crate::rules::has_legal_with_endpoints;
use crate::rules::is_enemy;
use crate::rules::is_initial_board;
use crate::rules::jump_dest;
use crate::rules::apply_rel;
use crate::rules::apply_cell;
use crate::rules::promoted;
use crate::rules::other_player;
use crate::rules::count_side;
use crate::rules::count_upto;
use crate::rules::grid_sq;
use crate::rules::pieces_on_playable;
use crate::rules::playable;
use crate::rules::lemma_count_upto_cell_set;
use crate::rules::lemma_chain_parity;
use crate::rules::lemma_chain_distinct;
use crate::rules::lemma_chain_in_bounds;
use crate::rules::lemma_chain_pos_agree;
use crate::rules::lemma_distinct_squares_len;
use crate::rules::lemma_emitted_prefix;
use crate::rules::lemma_emitted_weaken;
use crate::rules::lemma_extension_step;
use crate::rules::lemma_prefix_index;
use crate::rules::lemma_prefix_refl;
use crate::rules::lemma_single_jump_chain;
use crate::rules::lemma_prefix_trans;
use crate::rules::move_is;
use crate::rules::owner;
use crate::rules::capture_move_of;
use crate::rules::piece_move_ok;
use crate::rules::piece_has_capture;
use crate::rules::simple_move_of;
use crate::rules::simple_ok;
use crate::rules::sq;
use crate::rules::step_ok;
use crate::types::Move;
use crate::types::Piece;
use crate::types::Player;

verus! {

/// A game position: the grid and whose turn it is.
pub struct Board {
    pub pieces: [[Piece; 8]; 8],
    pub current_player: Player,
}

/// Whether the square `p` occurs in `v`.
fn contains_pos(v: &Vec<(usize, usize)>, p: (usize, usize)) -> (r: bool)
    ensures
        r == v@.contains(p),
{
    let mut k: usize = 0;
    while k < v.len()
        invariant
            k <= v@.len(),
            forall|i: int| 0 <= i < k ==> v@[i] != p,
        decreases v@.len() - k,
    {
        if v[k].0 == p.0 && v[k].1 == p.1 {
            assert(v@[k as int] == p);
            return true;
        }
        k = k + 1;
    }
    false
}

/// A fresh vector with the same squares.
fn clone_squares(v: &Vec<(usize, usize)>) -> (r: Vec<(usize, usize)>)
    ensures
        r@ == v@,
{
    let mut r: Vec<(usize, usize)> = Vec::new();
    let mut k: usize = 0;
    while k < v.len()
        invariant
            k <= v@.len(),
            r@ == v@.take(k as int),
        decreases v@.len() - k,
    {
        r.push(v[k]);
        assert(r@ =~= v@.take(k as int + 1));
        k = k + 1;
    }
    assert(v@.take(v@.len() as int) =~= v@);
    r
}

impl Board {
    /// The current grid, row-major.
    pub fn get_board(&self) -> (g: &[[Piece; 8]; 8])
        ensures
            *g == self.pieces,
    {
        &self.pieces
    }

    /// The standard starting position: Black's pieces on the playable
    /// squares of rows 0..=2, White's on rows 5..=7, White to move.
    pub fn new() -> (b: Board)
        ensures
            is_initial_board(b),
    {
        let mut pieces: [[Piece; 8]; 8] = [[Piece::Empty; 8]; 8];
        let mut i: usize = 0;
        while i < 8
            invariant
                i <= 8,
                forall|r: int, c: int|
                    0 <= r < i && 0 <= c < 8 ==> #[trigger] pieces@[r]@[c] == initial_square(r, c),
                forall|r: int, c: int|
                    i <= r < 8 && 0 <= c < 8 ==> #[trigger] pieces@[r]@[c] == Piece::Empty,
            decreases 8 - i,
        {
            let mut row: [Piece; 8] = pieces[i];
            let mut j: usize = 0;
            while j < 8
                invariant
                    i < 8,
                    j <= 8,
                    forall|c: int| 0 <= c < j ==> #[trigger] row@[c] == initial_square(i as int, c),
                    forall|c: int| j <= c < 8 ==> #[trigger] row@[c] == Piece::Empty,
                decreases 8 - j,
            {
                if (i + j) % 2 == 1 {
                    if i < 3 {
                        row[j] = Piece::Regular(Player::Black);
                    } else if i > 4 {
                        row[j] = Piece::Regular(Player::White);
                    }
                }
                j = j + 1;
            }
            pieces[i] = row;
            i = i + 1;
        }
        Board { pieces, current_player: Player::White }
    }

    /// The piece on the square (x, y).
    pub fn get_piece(&self, x: usize, y: usize) -> (p: Piece)
        requires
            x < 8,
            y < 8,
        ensures
            p == sq(*self, x as int, y as int),
    {
        self.pieces[x][y]
    }

    /// The side to move.
    pub fn get_current_player(&self) -> (p: Player)
        ensures
            p == self.current_player,
    {
        self.current_player
    }

    /// The recursive capture search. From the chain position (x, y), reached
    /// from (from_x, from_y) by capturing the squares of `captured`, try one
    /// more jump in direction (dx, dy); if it is valid, record the extended
    /// chain as a move (a player may always stop a chain early) and search
    /// on from the landing square in all four diagonal directions.
    ///
    /// Appends to `moves` exactly the valid chains that extend `captured` in
    /// direction (dx, dy): nothing else is appended, and none is missed.
    fn check_capture_moves(
        &self,
        piece: Piece,
        from_x: usize,
        from_y: usize,
        x: usize,
        y: usize,
        dx: i32,
        dy: i32,
        moves: &mut Vec<Move>,
        captured: &Vec<(usize, usize)>,
    )
        requires
            from_x < 8,
            from_y < 8,
            x < 8,
            y < 8,
            dx == 1 || dx == -1,
            dy == 1 || dy == -1,
            piece == sq(*self, from_x as int, from_y as int),
            owner(piece) == Some(self.current_player),
            captured@.no_duplicates(),
            forall|k: int|
                0 <= k < captured@.len() ==> (#[trigger] captured@[k]).0 < 8 && captured@[k].1
                    < 8,
            captured@.len() == 0 ==> x == from_x && y == from_y && dir_ok_first(
                piece,
                dx as int,
            ),
            captured@.len() > 0 ==> chain_ok(
                *self,
                piece,
                (from_x as int, from_y as int),
                captured@,
            ) && (x as int, y as int) == chain_pos(
                (from_x as int, from_y as int),
                captured@,
                captured@.len() as int,
            ),
        ensures
            old(moves)@.is_prefix_of(final(moves)@),
            forall|i: int|
                old(moves)@.len() <= i < final(moves)@.len() ==> #[trigger] capture_move_of(
                    *self,
                    from_x as int,
                    from_y as int,
                    final(moves)@[i],
                ),
            forall|caps: Seq<(usize, usize)>|
                #[trigger] chain_extends(
                    *self,
                    from_x as int,
                    from_y as int,
                    captured@,
                    (x as int, y as int),
                    (dx as int, dy as int),
                    caps,
                ) ==> emitted_chain(final(moves)@, old(moves)@.len() as int, from_x as int, from_y as int, caps),
        decreases 64 - captured@.len(),
    {
        let ghost b = *self;
        let ghost fxi = from_x as int;
        let ghost fyi = from_y as int;
        let ghost xi = x as int;
        let ghost yi = y as int;
        let ghost dxi = dx as int;
        let ghost dyi = dy as int;
        let ghost pre = moves@;
        let ghost plen = captured@.len() as int;

        let nxi: i32 = x as i32 + 2 * dx;
        let nyi: i32 = y as i32 + 2 * dy;
        if nxi < 0 || nxi >= 8 || nyi < 0 || nyi >= 8 {
            proof {
                assert forall|caps: Seq<(usize, usize)>|
                    #[trigger] chain_extends(
                        b,
                        fxi,
                        fyi,
                        captured@,
                        (xi, yi),
                        (dxi, dyi),
                        caps,
                    ) implies emitted_chain(moves@, pre.len() as int, fxi, fyi, caps) by {
                    lemma_extension_step(b, fxi, fyi, captured@, xi, yi, dxi, dyi, caps);
                    assert(false);
                }
            }
            return;
        }
        let nx: usize = nxi as usize;
        let ny: usize = nyi as usize;
        assert(0 <= x as i32 + dx < 8 && 0 <= y as i32 + dy < 8);
        let cx: usize = (x as i32 + dx) as usize;
        let cy: usize = (y as i32 + dy) as usize;

        let target = self.pieces[cx][cy];
        let enemy = match target {
            Piece::Regular(p) => p != self.current_player,
            Piece::King(p) => p != self.current_player,
            Piece::Empty => false,
        };
        proof {
            assert(target == sq(b, cx as int, cy as int));
            assert(enemy == is_enemy(b, xi + dxi, yi + dyi, b.current_player));
        }
        let ok = enemy && self.pieces[nx][ny] == Piece::Empty && !contains_pos(
            captured,
            (cx, cy),
        );
        if !ok {
            proof {
                assert forall|caps: Seq<(usize, usize)>|
                    #[trigger] chain_extends(
                        b,
                        fxi,
                        fyi,
                        captured@,
                        (xi, yi),
                        (dxi, dyi),
                        caps,
                    ) implies emitted_chain(moves@, pre.len() as int, fxi, fyi, caps) by {
                    lemma_extension_step(b, fxi, fyi, captured@, xi, yi, dxi, dyi, caps);
                    assert(sq(b, nx as int, ny as int) == Piece::Empty);
                    assert(!captured@.contains((cx, cy)));
                    assert(false);
                }
            }
            return;
        }

        let mut new_captured = clone_squares(captured);
        new_captured.push((cx, cy));
        let ghost ncv = new_captured@;
        proof {
            assert(ncv == captured@.push((cx, cy)));
            assert(!captured@.contains((cx, cy)));
            assert forall|i: int, j: int|
                0 <= i < ncv.len() && 0 <= j < ncv.len() && i != j implies ncv[i] != ncv[j] by {
                if i < plen && j < plen {
                    assert(ncv[i] == captured@[i] && ncv[j] == captured@[j]);
                } else if j == plen {
                    assert(ncv[i] == captured@[i]);
                    if captured@[i] == (cx, cy) {
                        assert(captured@.contains((cx, cy)));
                    }
                } else {
                    assert(ncv[j] == captured@[j]);
                    if captured@[j] == (cx, cy) {
                        assert(captured@.contains((cx, cy)));
                    }
                }
            }
            assert(ncv.no_duplicates());
            // the extended chain is valid
            assert(ncv.take(plen) =~= captured@);
            if plen > 0 {
                lemma_chain_pos_agree((fxi, fyi), ncv, captured@, plen);
            }
            assert(chain_pos((fxi, fyi), ncv, plen) == (xi, yi));
            assert(jump_dest((xi, yi), (cx, cy)) == (xi + 2 * dxi, yi + 2 * dyi));
            assert(step_ok(b, b.current_player, (xi, yi), (cx, cy), captured@));
            assert forall|j: int| 0 <= j < ncv.len() implies #[trigger] step_ok(
                b,
                b.current_player,
                chain_pos((fxi, fyi), ncv, j),
                ncv[j],
                ncv.take(j),
            ) by {
                if j < plen {
                    assert(step_ok(
                        b,
                        b.current_player,
                        chain_pos((fxi, fyi), captured@, j),
                        captured@[j],
                        captured@.take(j),
                    ));
                    lemma_chain_pos_agree((fxi, fyi), ncv, captured@, j);
                    assert(ncv.take(j) =~= captured@.take(j));
                    assert(ncv[j] == captured@[j]);
                } else {
                    assert(ncv.take(plen) =~= captured@);
                }
            }
            if plen == 0 {
                assert(ncv[0] == (cx, cy));
                assert((cx as int) - fxi == dxi);
            } else {
                assert(ncv[0] == captured@[0]);
            }
            assert(chain_ok(b, piece, (fxi, fyi), ncv));
            assert(is_chain_of(b, fxi, fyi, ncv));
            assert(chain_pos((fxi, fyi), ncv, plen + 1) == (nx as int, ny as int));
            lemma_distinct_squares_len(ncv);
        }
        let caps_copy = clone_squares(&new_captured);
        let mv = Move { from_x, from_y, to_x: nx, to_y: ny, captures: caps_copy };
        moves.push(mv);
        let ghost s1 = moves@;
        proof {
            assert(s1[pre.len() as int].captures@ == ncv);
            assert(chain_end(fxi, fyi, ncv) == chain_pos((fxi, fyi), ncv, plen + 1));
            assert(move_is(s1[pre.len() as int], fxi, fyi, chain_end(fxi, fyi, ncv), ncv));
            assert(capture_move_of(b, fxi, fyi, s1[pre.len() as int]));
            assert(s1.take(pre.len() as int) =~= pre);
            assert(pre.is_prefix_of(s1));
        }
        self.check_capture_moves(piece, from_x, from_y, nx, ny, -1, -1, moves, &new_captured);
        let ghost s2 = moves@;
        self.check_capture_moves(piece, from_x, from_y, nx, ny, -1, 1, moves, &new_captured);
        let ghost s3 = moves@;
        self.check_capture_moves(piece, from_x, from_y, nx, ny, 1, -1, moves, &new_captured);
        let ghost s4 = moves@;
        self.check_capture_moves(piece, from_x, from_y, nx, ny, 1, 1, moves, &new_captured);
        proof {
            let s5 = moves@;
            lemma_prefix_trans(s3, s4, s5);
            lemma_prefix_trans(s2, s3, s5);
            lemma_prefix_trans(s1, s2, s5);
            lemma_prefix_trans(pre, s1, s5);
            // everything appended is a valid capture move
            assert forall|i: int| pre.len() <= i < s5.len() implies #[trigger] capture_move_of(
                b,
                fxi,
                fyi,
                s5[i],
            ) by {
                if i == pre.len() {
                    lemma_prefix_index(s1, s5, i);
                } else if i < s2.len() {
                    lemma_prefix_index(s2, s5, i);
                } else if i < s3.len() {
                    lemma_prefix_index(s3, s5, i);
                } else if i < s4.len() {
                    lemma_prefix_index(s4, s5, i);
                }
            }
            // no valid extension in this direction is missed
            assert forall|caps: Seq<(usize, usize)>|
                #[trigger] chain_extends(
                    b,
                    fxi,
                    fyi,
                    captured@,
                    (xi, yi),
                    (dxi, dyi),
                    caps,
                ) implies emitted_chain(s5, pre.len() as int, fxi, fyi, caps) by {
                lemma_extension_step(b, fxi, fyi, captured@, xi, yi, dxi, dyi, caps);
                if caps.len() == plen + 1 {
                    assert(caps =~= ncv);
                    assert(caps == ncv);
                    assert(move_is(s1[pre.len() as int], fxi, fyi, chain_end(fxi, fyi, caps), caps));
                    assert(emitted_chain(s1, pre.len() as int, fxi, fyi, caps));
                    lemma_emitted_prefix(s1, s5, pre.len() as int, fxi, fyi, caps);
                } else {
                    // the chain continues from the landing square
                    let j = plen + 1;
                    assert(step_ok(
                        b,
                        b.current_player,
                        chain_pos((fxi, fyi), caps, j),
                        caps[j],
                        caps.take(j),
                    ));
                    assert(chain_pos((fxi, fyi), caps, j) == (nx as int, ny as int));
                    assert forall|k: int| 0 <= k < j implies caps.take(j)[k] == ncv[k] by {
                        if k < plen {
                            assert(caps.take(plen)[k] == captured@[k]);
                        }
                    }
                    assert(caps.take(j) =~= ncv);
                    let d2r = (caps[j].0 as int) - nx as int;
                    let d2c = (caps[j].1 as int) - ny as int;
                    assert(d2r == 1 || d2r == -1);
                    assert(d2c == 1 || d2c == -1);
                    assert(chain_extends(b, fxi, fyi, ncv, (nx as int, ny as int), (d2r, d2c), caps));
                    if d2r == -1 && d2c == -1 {
                        assert(emitted_chain(s2, s1.len() as int, fxi, fyi, caps));
                        lemma_emitted_weaken(s2, s1.len() as int, pre.len() as int, fxi, fyi, caps);
                        lemma_emitted_prefix(s2, s5, pre.len() as int, fxi, fyi, caps);
                    } else if d2r == -1 && d2c == 1 {
                        assert(emitted_chain(s3, s2.len() as int, fxi, fyi, caps));
                        lemma_emitted_weaken(s3, s2.len() as int, pre.len() as int, fxi, fyi, caps);
                        lemma_emitted_prefix(s3, s5, pre.len() as int, fxi, fyi, caps);
                    } else if d2r == 1 && d2c == -1 {
                        assert(emitted_chain(s4, s3.len() as int, fxi, fyi, caps));
                        lemma_emitted_weaken(s4, s3.len() as int, pre.len() as int, fxi, fyi, caps);
                        lemma_emitted_prefix(s4, s5, pre.len() as int, fxi, fyi, caps);
                    } else {
                        assert(emitted_chain(s5, s4.len() as int, fxi, fyi, caps));
                        lemma_emitted_weaken(s5, s4.len() as int, pre.len() as int, fxi, fyi, caps);
                    }
                }
            }
        }
    }

    /// All moves of the piece at (x, y), provided it belongs to the side to
    /// move (otherwise the result is empty). Capture chains come first: if
    /// the piece has any capture, only its capture moves are returned;
    /// otherwise its simple moves are. The result is exhaustive: it holds an
    /// entry for every valid chain and, failing those, for every valid
    /// simple move.
    pub fn get_possible_moves(&self, x: usize, y: usize) -> (moves: Vec<Move>)
        requires
            x < 8,
            y < 8,
        ensures
            forall|i: int|
                0 <= i < moves@.len() ==> #[trigger] piece_move_ok(
                    *self,
                    x as int,
                    y as int,
                    moves@[i],
                ),
            forall|caps: Seq<(usize, usize)>|
                #[trigger] is_chain_of(*self, x as int, y as int, caps) ==> emitted_chain(
                    moves@,
                    0,
                    x as int,
                    y as int,
                    caps,
                ),
            forall|tx: int, ty: int|
                #[trigger] simple_ok(*self, x as int, y as int, tx, ty) ==> emitted_simple(
                    moves@,
                    x as int,
                    y as int,
                    tx,
                    ty,
                ),
    {
        let ghost b = *self;
        let ghost xi = x as int;
        let ghost yi = y as int;
        let mut moves: Vec<Move> = Vec::new();
        let piece = self.pieces[x][y];
        proof {
            assert(piece == sq(b, xi, yi));
        }
        let mine = match piece {
            Piece::Regular(p) => p == self.current_player,
            Piece::King(p) => p == self.current_player,
            Piece::Empty => false,
        };
        if !mine {
            return moves;
        }
        let empty_caps: Vec<(usize, usize)> = Vec::new();
        let dir_up = match piece {
            Piece::Regular(Player::White) => true,
            Piece::King(_) => true,
            _ => false,
        };
        let dir_down = match piece {
            Piece::Regular(Player::Black) => true,
            Piece::King(_) => true,
            _ => false,
        };
        let ghost t0 = moves@;
        let ghost mut t1 = moves@;
        if dir_up {
            self.check_capture_moves(piece, x, y, x, y, -1, -1, &mut moves, &empty_caps);
            proof {
                t1 = moves@;
            }
            self.check_capture_moves(piece, x, y, x, y, -1, 1, &mut moves, &empty_caps);
        }
        let ghost t2 = moves@;
        let ghost mut t3 = moves@;
        if dir_down {
            self.check_capture_moves(piece, x, y, x, y, 1, -1, &mut moves, &empty_caps);
            proof {
                t3 = moves@;
            }
            self.check_capture_moves(piece, x, y, x, y, 1, 1, &mut moves, &empty_caps);
        }
        let ghost t4 = moves@;
        proof {
            lemma_prefix_refl(t0);
            lemma_prefix_refl(t1);
            lemma_prefix_refl(t2);
            lemma_prefix_refl(t3);
            lemma_prefix_refl(t4);
            lemma_prefix_trans(t0, t1, t2);
            lemma_prefix_trans(t2, t3, t4);
            lemma_prefix_trans(t0, t2, t4);
            lemma_prefix_trans(t1, t2, t4);
            // everything found so far is a capture chain of this piece
            assert forall|i: int| 0 <= i < t4.len() implies #[trigger] capture_move_of(
                b,
                xi,
                yi,
                t4[i],
            ) by {
                if i < t1.len() {
                    lemma_prefix_index(t1, t4, i);
                } else if i < t2.len() {
                    lemma_prefix_index(t2, t4, i);
                } else if i < t3.len() {
                    lemma_prefix_index(t3, t4, i);
                }
            }
            // and every capture chain of this piece has been found
            assert forall|caps: Seq<(usize, usize)>| #[trigger] is_chain_of(
                b,
                xi,
                yi,
                caps,
            ) implies emitted_chain(t4, 0, xi, yi, caps) by {
                assert(caps.take(0) =~= Seq::<(usize, usize)>::empty());
                assert(step_ok(b, b.current_player, chain_pos((xi, yi), caps, 0), caps[0], caps.take(0)));
                let d0r = (caps[0].0 as int) - xi;
                let d0c = (caps[0].1 as int) - yi;
                assert(d0r == 1 || d0r == -1);
                assert(d0c == 1 || d0c == -1);
                assert(dir_ok_first(piece, d0r));
                assert(chain_extends(b, xi, yi, empty_caps@, (xi, yi), (d0r, d0c), caps));
                if d0r == -1 && d0c == -1 {
                    assert(emitted_chain(t1, 0, xi, yi, caps));
                    lemma_emitted_prefix(t1, t4, 0, xi, yi, caps);
                } else if d0r == -1 && d0c == 1 {
                    assert(emitted_chain(t2, t1.len() as int, xi, yi, caps));
                    lemma_emitted_weaken(t2, t1.len() as int, 0, xi, yi, caps);
                    lemma_emitted_prefix(t2, t4, 0, xi, yi, caps);
                } else if d0r == 1 && d0c == -1 {
                    assert(emitted_chain(t3, t2.len() as int, xi, yi, caps));
                    lemma_emitted_weaken(t3, t2.len() as int, 0, xi, yi, caps);
                    lemma_emitted_prefix(t3, t4, 0, xi, yi, caps);
                } else {
                    assert(emitted_chain(t4, t3.len() as int, xi, yi, caps));
                    lemma_emitted_weaken(t4, t3.len() as int, 0, xi, yi, caps);
                }
            }
        }
        if moves.len() > 0 {
            proof {
                // a capture exists, so no simple move is valid for this piece
                assert(capture_move_of(b, xi, yi, t4[0]));
                lemma_single_jump_chain(b, xi, yi);
                assert(piece_has_capture(b, xi, yi));
            }
            return moves;
        }
        proof {
            // no chain was found, so none exists, so the piece has no capture
            assert(!piece_has_capture(b, xi, yi)) by {
                if piece_has_capture(b, xi, yi) {
                    lemma_single_jump_chain(b, xi, yi);
                    let caps = choose|caps: Seq<(usize, usize)>| #[trigger] is_chain_of(b, xi, yi, caps);
                    assert(emitted_chain(t4, 0, xi, yi, caps));
                }
            }
        }
        // no capture anywhere for this piece: its simple moves are valid
        let ghost u0 = moves@;
        if dir_up {
            if x >= 1 && y >= 1 {
                if self.pieces[x - 1][y - 1] == Piece::Empty {
                    moves.push(Move {
                        from_x: x,
                        from_y: y,
                        to_x: x - 1,
                        to_y: y - 1,
                        captures: Vec::new(),
                    });
                    proof {
                        assert(move_is(
                            moves@[moves@.len() - 1],
                            xi,
                            yi,
                            (xi - 1, yi - 1),
                            Seq::empty(),
                        ));
                        assert(emitted_simple(moves@, xi, yi, xi - 1, yi - 1));
                    }
                }
            }
        }
        let ghost u1 = moves@;
        if dir_up {
            if x >= 1 && y + 1 < 8 {
                if self.pieces[x - 1][y + 1] == Piece::Empty {
                    moves.push(Move {
                        from_x: x,
                        from_y: y,
                        to_x: x - 1,
                        to_y: y + 1,
                        captures: Vec::new(),
                    });
                    proof {
                        assert(move_is(
                            moves@[moves@.len() - 1],
                            xi,
                            yi,
                            (xi - 1, yi + 1),
                            Seq::empty(),
                        ));
                        assert(emitted_simple(moves@, xi, yi, xi - 1, yi + 1));
                    }
                }
            }
        }
        let ghost u2 = moves@;
        if dir_down {
            if x + 1 < 8 && y >= 1 {
                if self.pieces[x + 1][y - 1] == Piece::Empty {
                    moves.push(Move {
                        from_x: x,
                        from_y: y,
                        to_x: x + 1,
                        to_y: y - 1,
                        captures: Vec::new(),
                    });
                    proof {
                        assert(move_is(
                            moves@[moves@.len() - 1],
                            xi,
                            yi,
                            (xi + 1, yi - 1),
                            Seq::empty(),
                        ));
                        assert(emitted_simple(moves@, xi, yi, xi + 1, yi - 1));
                    }
                }
            }
        }
        let ghost u3 = moves@;
        if dir_down {
            if x + 1 < 8 && y + 1 < 8 {
                if self.pieces[x + 1][y + 1] == Piece::Empty {
                    moves.push(Move {
                        from_x: x,
                        from_y: y,
                        to_x: x + 1,
                        to_y: y + 1,
                        captures: Vec::new(),
                    });
                    proof {
                        assert(move_is(
                            moves@[moves@.len() - 1],
                            xi,
                            yi,
                            (xi + 1, yi + 1),
                            Seq::empty(),
                        ));
                        assert(emitted_simple(moves@, xi, yi, xi + 1, yi + 1));
                    }
                }
            }
        }
        let ghost u4 = moves@;
        proof {
            assert(t4.len() == 0);
            assert(u1.is_prefix_of(u4)) by {
                assert(u4.take(u1.len() as int) =~= u1);
            }
            assert(u2.is_prefix_of(u4)) by {
                assert(u4.take(u2.len() as int) =~= u2);
            }
            assert(u3.is_prefix_of(u4)) by {
                assert(u4.take(u3.len() as int) =~= u3);
            }
            // every appended entry is a valid simple move
            assert forall|i: int| 0 <= i < moves@.len() implies #[trigger] piece_move_ok(
                b,
                xi,
                yi,
                moves@[i],
            ) by {
                assert(simple_move_of(b, xi, yi, moves@[i]));
            }
            // and every valid simple move was appended
            assert forall|tx: int, ty: int| #[trigger] simple_ok(b, xi, yi, tx, ty) implies
                emitted_simple(u4, xi, yi, tx, ty) by {
                assert(dir_ok_first(piece, tx - xi));
                let dc = ty - yi;
                if tx - xi == -1 && dc == -1 {
                    assert(emitted_simple(u1, xi, yi, tx, ty));
                    lemma_emitted_simple_prefix(u1, u4, xi, yi, tx, ty);
                } else if tx - xi == -1 && dc == 1 {
                    assert(emitted_simple(u2, xi, yi, tx, ty));
                    lemma_emitted_simple_prefix(u2, u4, xi, yi, tx, ty);
                } else if tx - xi == 1 && dc == -1 {
                    assert(emitted_simple(u3, xi, yi, tx, ty));
                    lemma_emitted_simple_prefix(u3, u4, xi, yi, tx, ty);
                } else {
                    assert(emitted_simple(u4, xi, yi, tx, ty));
                }
            }
        }
        moves
    }

    /// All capture moves available to the side to move, gathered over every
    /// piece of that side. Non-empty exactly when some capture exists; when
    /// it is non-empty, captures are mandatory and these are the only legal
    /// moves of the turn.
    pub fn get_mandatory_captures(&self) -> (captures: Vec<Move>)
        ensures
            forall|i: int|
                0 <= i < captures@.len() ==> #[trigger] capture_move_of(
                    *self,
                    captures@[i].from_x as int,
                    captures@[i].from_y as int,
                    captures@[i],
                ),
            forall|fx: int, fy: int, caps: Seq<(usize, usize)>|
                #[trigger] is_chain_of(*self, fx, fy, caps) ==> emitted_chain(
                    captures@,
                    0,
                    fx,
                    fy,
                    caps,
                ),
            captures@.len() == 0 <==> !side_has_capture(*self),
    {
        let ghost b = *self;
        let mut captures: Vec<Move> = Vec::new();
        let mut i: usize = 0;
        while i < 8
            invariant
                i <= 8,
                b == *self,
                forall|k: int|
                    0 <= k < captures@.len() ==> #[trigger] capture_move_of(
                        b,
                        captures@[k].from_x as int,
                        captures@[k].from_y as int,
                        captures@[k],
                    ),
                forall|fx: int, fy: int, caps: Seq<(usize, usize)>|
                    0 <= fx < i && #[trigger] is_chain_of(b, fx, fy, caps) ==> emitted_chain(
                        captures@,
                        0,
                        fx,
                        fy,
                        caps,
                    ),
            decreases 8 - i,
        {
            let mut j: usize = 0;
            while j < 8
                invariant
                    i < 8,
                    j <= 8,
                    b == *self,
                    forall|k: int|
                        0 <= k < captures@.len() ==> #[trigger] capture_move_of(
                            b,
                            captures@[k].from_x as int,
                            captures@[k].from_y as int,
                            captures@[k],
                        ),
                    forall|fx: int, fy: int, caps: Seq<(usize, usize)>|
                        0 <= fx < i && #[trigger] is_chain_of(b, fx, fy, caps) ==> emitted_chain(
                            captures@,
                            0,
                            fx,
                            fy,
                            caps,
                        ),
                    forall|fy: int, caps: Seq<(usize, usize)>|
                        0 <= fy < j && #[trigger] is_chain_of(b, i as int, fy, caps)
                            ==> emitted_chain(captures@, 0, i as int, fy, caps),
                decreases 8 - j,
            {
                let ghost pre = captures@;
                let mut pm = self.get_possible_moves(i, j);
                let ghost pv = pm@;
                let keep = pm.len() > 0 && pm[0].captures.len() > 0;
                if keep {
                    proof {
                        // the piece can capture, so every entry is a chain
                        assert(piece_move_ok(b, i as int, j as int, pv[0]));
                        assert(capture_move_of(b, i as int, j as int, pv[0]));
                        lemma_single_jump_chain(b, i as int, j as int);
                        assert forall|k: int| 0 <= k < pv.len() implies #[trigger] capture_move_of(
                            b,
                            i as int,
                            j as int,
                            pv[k],
                        ) by {
                            assert(piece_move_ok(b, i as int, j as int, pv[k]));
                            if simple_move_of(b, i as int, j as int, pv[k]) {
                                assert(!piece_has_capture(b, i as int, j as int));
                            }
                        }
                    }
                    captures.append(&mut pm);
                    proof {
                        assert(captures@ == pre + pv);
                        assert(pre.is_prefix_of(captures@)) by {
                            assert(captures@.take(pre.len() as int) =~= pre);
                        }
                        assert forall|k: int| 0 <= k < captures@.len() implies
                            #[trigger] capture_move_of(
                            b,
                            captures@[k].from_x as int,
                            captures@[k].from_y as int,
                            captures@[k],
                        ) by {
                            if k < pre.len() {
                                assert(captures@[k] == pre[k]);
                                assert(capture_move_of(
                                    b,
                                    pre[k].from_x as int,
                                    pre[k].from_y as int,
                                    pre[k],
                                ));
                            } else {
                                assert(captures@[k] == pv[k - pre.len()]);
                                assert(capture_move_of(b, i as int, j as int, pv[k - pre.len()]));
                            }
                        }
                    }
                } else {
                    proof {
                        // no capture from this square: nothing to gather
                        if pv.len() > 0 {
                            assert(piece_move_ok(b, i as int, j as int, pv[0]));
                            if capture_move_of(b, i as int, j as int, pv[0]) {
                                lemma_single_jump_chain(b, i as int, j as int);
                            }
                            assert(simple_move_of(b, i as int, j as int, pv[0]));
                            assert(!piece_has_capture(b, i as int, j as int));
                        }
                        assert forall|caps: Seq<(usize, usize)>| #[trigger] is_chain_of(
                            b,
                            i as int,
                            j as int,
                            caps,
                        ) implies false by {
                            lemma_single_jump_chain(b, i as int, j as int);
                            assert(emitted_chain(pv, 0, i as int, j as int, caps));
                            let k = choose|k: int|
                                0 <= k < pv.len() && #[trigger] move_is(
                                    pv[k],
                                    i as int,
                                    j as int,
                                    chain_end(i as int, j as int, caps),
                                    caps,
                                );
                            assert(piece_has_capture(b, i as int, j as int));
                        }
                    }
                }
                proof {
                    // chains from this square are now gathered
                    assert forall|caps: Seq<(usize, usize)>| #[trigger] is_chain_of(
                        b,
                        i as int,
                        j as int,
                        caps,
                    ) implies emitted_chain(captures@, 0, i as int, j as int, caps) by {
                        assert(emitted_chain(pv, 0, i as int, j as int, caps));
                        let k = choose|k: int|
                            0 <= k < pv.len() && #[trigger] move_is(
                                pv[k],
                                i as int,
                                j as int,
                                chain_end(i as int, j as int, caps),
                                caps,
                            );
                        assert(captures@[pre.len() + k] == pv[k]);
                    }
                    // chains gathered earlier stay gathered
                    assert forall|fx: int, fy: int, caps: Seq<(usize, usize)>|
                        (0 <= fx < i || (fx == i && 0 <= fy < j)) && #[trigger] is_chain_of(
                            b,
                            fx,
                            fy,
                            caps,
                        ) implies emitted_chain(captures@, 0, fx, fy, caps) by {
                        if keep {
                            lemma_emitted_prefix(pre, captures@, 0, fx, fy, caps);
                        }
                    }
                }
                j = j + 1;
            }
            i = i + 1;
        }
        proof {
            // no chain starts off the board
            assert forall|fx: int, fy: int, caps: Seq<(usize, usize)>| #[trigger] is_chain_of(
                b,
                fx,
                fy,
                caps,
            ) implies emitted_chain(captures@, 0, fx, fy, caps) by {
            }
            if captures@.len() > 0 {
                assert(capture_move_of(
                    b,
                    captures@[0].from_x as int,
                    captures@[0].from_y as int,
                    captures@[0],
                ));
                lemma_single_jump_chain(b, captures@[0].from_x as int, captures@[0].from_y as int);
                assert(side_has_capture(b));
            } else {
                assert(!side_has_capture(b)) by {
                    if side_has_capture(b) {
                        let (x, y): (int, int) = choose|x: int, y: int|
                            #[trigger] piece_has_capture(b, x, y);
                        lemma_single_jump_chain(b, x, y);
                        let caps = choose|caps: Seq<(usize, usize)>|
                            #[trigger] is_chain_of(b, x, y, caps);
                        assert(emitted_chain(captures@, 0, x, y, caps));
                    }
                }
            }
        }
        captures
    }

    /// The legal moves of the whole turn: the mandatory captures when any
    /// exist, otherwise every simple move of the side to move.
    pub fn legal_moves(&self) -> (ms: Vec<Move>)
        ensures
            forall|i: int| 0 <= i < ms@.len() ==> #[trigger] legal_move(*self, ms@[i]),
            forall|fx: int, fy: int, caps: Seq<(usize, usize)>|
                #[trigger] is_chain_of(*self, fx, fy, caps) ==> emitted_chain(ms@, 0, fx, fy, caps),
            forall|fx: int, fy: int, tx: int, ty: int|
                !side_has_capture(*self) && #[trigger] simple_ok(*self, fx, fy, tx, ty)
                    ==> emitted_simple(ms@, fx, fy, tx, ty),
            ms@.len() == 0 <==> !has_any_legal(*self),
    {
        let ghost b = *self;
        let captures = self.get_mandatory_captures();
        if captures.len() > 0 {
            proof {
                assert(side_has_capture(b));
                assert forall|i: int| 0 <= i < captures@.len() implies #[trigger] legal_move(
                    b,
                    captures@[i],
                ) by {
                    assert(capture_move_of(
                        b,
                        captures@[i].from_x as int,
                        captures@[i].from_y as int,
                        captures@[i],
                    ));
                }
            }
            return captures;
        }
        proof {
            assert(!side_has_capture(b));
        }
        let mut ms: Vec<Move> = Vec::new();
        let mut i: usize = 0;
        while i < 8
            invariant
                i <= 8,
                b == *self,
                !side_has_capture(b),
                forall|k: int| 0 <= k < ms@.len() ==> #[trigger] legal_move(b, ms@[k]),
                forall|fx: int, fy: int, tx: int, ty: int|
                    0 <= fx < i && #[trigger] simple_ok(b, fx, fy, tx, ty) ==> emitted_simple(
                        ms@,
                        fx,
                        fy,
                        tx,
                        ty,
                    ),
            decreases 8 - i,
        {
            let mut j: usize = 0;
            while j < 8
                invariant
                    i < 8,
                    j <= 8,
                    b == *self,
                    !side_has_capture(b),
                    forall|k: int| 0 <= k < ms@.len() ==> #[trigger] legal_move(b, ms@[k]),
                    forall|fx: int, fy: int, tx: int, ty: int|
                        0 <= fx < i && #[trigger] simple_ok(b, fx, fy, tx, ty) ==> emitted_simple(
                            ms@,
                            fx,
                            fy,
                            tx,
                            ty,
                        ),
                    forall|fy: int, tx: int, ty: int|
                        0 <= fy < j && #[trigger] simple_ok(b, i as int, fy, tx, ty)
                            ==> emitted_simple(ms@, i as int, fy, tx, ty),
                decreases 8 - j,
            {
                let ghost pre = ms@;
                let mut pm = self.get_possible_moves(i, j);
                let ghost pv = pm@;
                proof {
                    assert forall|k: int| 0 <= k < pv.len() implies #[trigger] legal_move(
                        b,
                        pv[k],
                    ) by {
                        assert(piece_move_ok(b, i as int, j as int, pv[k]));
                        if capture_move_of(b, i as int, j as int, pv[k]) {
                            lemma_single_jump_chain(b, i as int, j as int);
                        }
                        assert(simple_move_of(b, i as int, j as int, pv[k]));
                    }
                }
                ms.append(&mut pm);
                proof {
                    assert(ms@ == pre + pv);
                    assert(pre.is_prefix_of(ms@)) by {
                        assert(ms@.take(pre.len() as int) =~= pre);
                    }
                    assert forall|k: int| 0 <= k < ms@.len() implies #[trigger] legal_move(
                        b,
                        ms@[k],
                    ) by {
                        if k < pre.len() {
                            assert(ms@[k] == pre[k]);
                        } else {
                            assert(ms@[k] == pv[k - pre.len()]);
                        }
                    }
                    // simple moves from this square are now gathered
                    assert forall|tx: int, ty: int| #[trigger] simple_ok(
                        b,
                        i as int,
                        j as int,
                        tx,
                        ty,
                    ) implies emitted_simple(ms@, i as int, j as int, tx, ty) by {
                        assert(emitted_simple(pv, i as int, j as int, tx, ty));
                        let k = choose|k: int|
                            0 <= k < pv.len() && #[trigger] move_is(
                                pv[k],
                                i as int,
                                j as int,
                                (tx, ty),
                                Seq::empty(),
                            );
                        assert(ms@[pre.len() + k] == pv[k]);
                    }
                    // those gathered earlier stay gathered
                    assert forall|fx: int, fy: int, tx: int, ty: int|
                        (0 <= fx < i || (fx == i && 0 <= fy < j)) && #[trigger] simple_ok(
                            b,
                            fx,
                            fy,
                            tx,
                            ty,
                        ) implies emitted_simple(ms@, fx, fy, tx, ty) by {
                        lemma_emitted_simple_prefix(pre, ms@, fx, fy, tx, ty);
                    }
                }
                j = j + 1;
            }
            i = i + 1;
        }
        proof {
            // with no capture on the board there is no chain to list
            assert forall|fx: int, fy: int, caps: Seq<(usize, usize)>| #[trigger] is_chain_of(
                b,
                fx,
                fy,
                caps,
            ) implies emitted_chain(ms@, 0, fx, fy, caps) by {
                lemma_single_jump_chain(b, fx, fy);
                assert(piece_has_capture(b, fx, fy));
            }
            if ms@.len() > 0 {
                assert(legal_move(b, ms@[0]));
                assert(has_any_legal(b)) by {
                    if capture_move_of(b, ms@[0].from_x as int, ms@[0].from_y as int, ms@[0]) {
                        lemma_single_jump_chain(
                            b,
                            ms@[0].from_x as int,
                            ms@[0].from_y as int,
                        );
                    } else {
                        assert(simple_ok(
                            b,
                            ms@[0].from_x as int,
                            ms@[0].from_y as int,
                            ms@[0].to_x as int,
                            ms@[0].to_y as int,
                        ));
                    }
                }
            } else {
                assert(!has_any_legal(b)) by {
                    if has_any_legal(b) {
                        let (fx, fy, tx, ty): (int, int, int, int) = choose|
                            fx: int,
                            fy: int,
                            tx: int,
                            ty: int,
                        | #[trigger] simple_ok(b, fx, fy, tx, ty);
                        assert(emitted_simple(ms@, fx, fy, tx, ty));
                    }
                }
            }
        }
        ms
    }

    /// Whether the game is over: true exactly when the side to move has no
    /// legal move anywhere on the board.
    pub fn is_game_over(&self) -> (over: bool)
        ensures
            over <==> !has_any_legal(*self),
    {
        let ghost b = *self;
        let mut i: usize = 0;
        while i < 8
            invariant
                i <= 8,
                b == *self,
                forall|fx: int, fy: int| 0 <= fx < i ==> !#[trigger] piece_has_capture(b, fx, fy),
                forall|fx: int, fy: int, tx: int, ty: int|
                    0 <= fx < i ==> !#[trigger] simple_ok(b, fx, fy, tx, ty),
            decreases 8 - i,
        {
            let mut j: usize = 0;
            while j < 8
                invariant
                    i < 8,
                    j <= 8,
                    b == *self,
                    forall|fx: int, fy: int|
                        0 <= fx < i ==> !#[trigger] piece_has_capture(b, fx, fy),
                    forall|fx: int, fy: int, tx: int, ty: int|
                        0 <= fx < i ==> !#[trigger] simple_ok(b, fx, fy, tx, ty),
                    forall|fy: int| 0 <= fy < j ==> !#[trigger] piece_has_capture(b, i as int, fy),
                    forall|fy: int, tx: int, ty: int|
                        0 <= fy < j ==> !#[trigger] simple_ok(b, i as int, fy, tx, ty),
                decreases 8 - j,
            {
                let pm = self.get_possible_moves(i, j);
                if pm.len() > 0 {
                    proof {
                        assert(piece_move_ok(b, i as int, j as int, pm@[0]));
                        assert(has_any_legal(b)) by {
                            if capture_move_of(b, i as int, j as int, pm@[0]) {
                                lemma_single_jump_chain(b, i as int, j as int);
                            } else {
                                assert(simple_ok(
                                    b,
                                    i as int,
                                    j as int,
                                    pm@[0].to_x as int,
                                    pm@[0].to_y as int,
                                ));
                            }
                        }
                    }
                    return false;
                }
                proof {
                    assert(!piece_has_capture(b, i as int, j as int)) by {
                        if piece_has_capture(b, i as int, j as int) {
                            lemma_single_jump_chain(b, i as int, j as int);
                            let caps = choose|caps: Seq<(usize, usize)>|
                                #[trigger] is_chain_of(b, i as int, j as int, caps);
                            assert(emitted_chain(pm@, 0, i as int, j as int, caps));
                        }
                    }
                    assert forall|tx: int, ty: int| !#[trigger] simple_ok(
                        b,
                        i as int,
                        j as int,
                        tx,
                        ty,
                    ) by {
                        if simple_ok(b, i as int, j as int, tx, ty) {
                            assert(emitted_simple(pm@, i as int, j as int, tx, ty));
                        }
                    }
                }
                j = j + 1;
            }
            i = i + 1;
        }
        proof {
            assert(!has_any_legal(b)) by {
                if side_has_capture(b) {
                    let (x, y): (int, int) = choose|x: int, y: int|
                        #[trigger] piece_has_capture(b, x, y);
                }
                if exists|fx: int, fy: int, tx: int, ty: int|
                    #[trigger] simple_ok(b, fx, fy, tx, ty) {
                    let (fx, fy, tx, ty): (int, int, int, int) = choose|
                        fx: int,
                        fy: int,
                        tx: int,
                        ty: int,
                    | #[trigger] simple_ok(b, fx, fy, tx, ty);
                }
            }
        }
        true
    }

    /// Whether the proposed endpoints match some legal move of the turn.
    pub fn is_valid_move(&self, move_: &Move) -> (valid: bool)
        ensures
            valid <==> has_legal_with_endpoints(
                *self,
                move_.from_x as int,
                move_.from_y as int,
                move_.to_x as int,
                move_.to_y as int,
            ),
    {
        let ghost b = *self;
        let ghost fxi = move_.from_x as int;
        let ghost fyi = move_.from_y as int;
        let ghost txi = move_.to_x as int;
        let ghost tyi = move_.to_y as int;
        let lm = self.legal_moves();
        let found = position_of_match(&lm, move_.from_x, move_.from_y, move_.to_x, move_.to_y);
        proof {
            match found {
                Some(i) => {
                    let m = lm@[i as int];
                    assert(legal_move(b, m));
                    if capture_move_of(b, m.from_x as int, m.from_y as int, m) {
                        assert(is_chain_of(b, fxi, fyi, m.captures@) && chain_end(
                            fxi,
                            fyi,
                            m.captures@,
                        ) == (txi, tyi));
                    }
                    assert(has_legal_with_endpoints(b, fxi, fyi, txi, tyi));
                }
                None => {
                    assert(!has_legal_with_endpoints(b, fxi, fyi, txi, tyi)) by {
                        if has_legal_with_endpoints(b, fxi, fyi, txi, tyi) {
                            if exists|caps: Seq<(usize, usize)>|
                                #[trigger] is_chain_of(b, fxi, fyi, caps) && chain_end(
                                    fxi,
                                    fyi,
                                    caps,
                                ) == (txi, tyi) {
                                let caps = choose|caps: Seq<(usize, usize)>|
                                    #[trigger] is_chain_of(b, fxi, fyi, caps) && chain_end(
                                        fxi,
                                        fyi,
                                        caps,
                                    ) == (txi, tyi);
                                assert(emitted_chain(lm@, 0, fxi, fyi, caps));
                                let k = choose|k: int|
                                    0 <= k < lm@.len() && #[trigger] move_is(
                                        lm@[k],
                                        fxi,
                                        fyi,
                                        chain_end(fxi, fyi, caps),
                                        caps,
                                    );
                                assert(lm@[k].to_y == move_.to_y);
                            } else {
                                assert(!side_has_capture(b) && simple_ok(b, fxi, fyi, txi, tyi));
                                assert(emitted_simple(lm@, fxi, fyi, txi, tyi));
                                let k = choose|k: int|
                                    0 <= k < lm@.len() && #[trigger] move_is(
                                        lm@[k],
                                        fxi,
                                        fyi,
                                        (txi, tyi),
                                        Seq::empty(),
                                    );
                                assert(lm@[k].to_y == move_.to_y);
                            }
                        }
                    }
                }
            }
        }
        found.is_some()
    }

    /// Validates the proposed endpoints against the legal-move set and, when
    /// they match a legal move, applies it: the piece leaves its origin,
    /// every captured piece is removed, the piece lands on the destination
    /// (promoted if a regular piece reached its far row), and the turn
    /// passes to the other side unless the new grid still offers the mover
    /// a capture. Among capture chains that share the same endpoints the
    /// engine applies the one its generator listed first; the capture list
    /// of the chosen move is authoritative, the caller's is ignored. On
    /// `false` the position is unchanged.
    #[verifier::loop_isolation(false)]
    #[verifier::rlimit(100)]
    #[verifier::spinoff_prover]
    pub fn make_move(&mut self, move_: &Move) -> (ok: bool)
        ensures
            ok <==> has_legal_with_endpoints(
                *old(self),
                move_.from_x as int,
                move_.from_y as int,
                move_.to_x as int,
                move_.to_y as int,
            ),
            !ok ==> *final(self) == *old(self),
            ok ==> (exists|m: Move|
                {
                    &&& #[trigger] legal_move(*old(self), m)
                    &&& m.from_x == move_.from_x
                    &&& m.from_y == move_.from_y
                    &&& m.to_x == move_.to_x
                    &&& m.to_y == move_.to_y
                    &&& apply_rel(
                        *old(self),
                        m.from_x as int,
                        m.from_y as int,
                        m.to_x as int,
                        m.to_y as int,
                        m.captures@,
                        *final(self),
                    )
                    &&& count_side(*final(self), old(self).current_player) == count_side(
                        *old(self),
                        old(self).current_player,
                    )
                    &&& count_side(*final(self), other_player(old(self).current_player))
                        + m.captures@.len() == count_side(
                        *old(self),
                        other_player(old(self).current_player),
                    )
                }),
            ok && pieces_on_playable(*old(self)) ==> pieces_on_playable(*final(self)),
    {
        let ghost b0 = *self;
        let ghost fxi = move_.from_x as int;
        let ghost fyi = move_.from_y as int;
        let ghost txi = move_.to_x as int;
        let ghost tyi = move_.to_y as int;
        let ghost mover = b0.current_player;
        let ghost enemy = other_player(mover);
        let lm = self.legal_moves();
        let found = position_of_match(&lm, move_.from_x, move_.from_y, move_.to_x, move_.to_y);
        let idx = match found {
            Some(k) => k,
            None => {
                proof {
                    assert(!has_legal_with_endpoints(b0, fxi, fyi, txi, tyi)) by {
                        if has_legal_with_endpoints(b0, fxi, fyi, txi, tyi) {
                            if exists|caps: Seq<(usize, usize)>|
                                #[trigger] is_chain_of(b0, fxi, fyi, caps) && chain_end(
                                    fxi,
                                    fyi,
                                    caps,
                                ) == (txi, tyi) {
                                let caps = choose|caps: Seq<(usize, usize)>|
                                    #[trigger] is_chain_of(b0, fxi, fyi, caps) && chain_end(
                                        fxi,
                                        fyi,
                                        caps,
                                    ) == (txi, tyi);
                                assert(emitted_chain(lm@, 0, fxi, fyi, caps));
                                let k = choose|k: int|
                                    0 <= k < lm@.len() && #[trigger] move_is(
                                        lm@[k],
                                        fxi,
                                        fyi,
                                        chain_end(fxi, fyi, caps),
                                        caps,
                                    );
                                assert(lm@[k].to_y == move_.to_y);
                            } else {
                                assert(!side_has_capture(b0) && simple_ok(b0, fxi, fyi, txi, tyi));
                                assert(emitted_simple(lm@, fxi, fyi, txi, tyi));
                                let k = choose|k: int|
                                    0 <= k < lm@.len() && #[trigger] move_is(
                                        lm@[k],
                                        fxi,
                                        fyi,
                                        (txi, tyi),
                                        Seq::empty(),
                                    );
                                assert(lm@[k].to_y == move_.to_y);
                            }
                        }
                    }
                }
                return false;
            }
        };
        let ghost m = lm@[idx as int];
        let chosen = &lm[idx];
        let fx = chosen.from_x;
        let fy = chosen.from_y;
        let tx = chosen.to_x;
        let ty = chosen.to_y;
        let caps = clone_squares(&chosen.captures);
        let ghost cv = m.captures@;
        let ghost piece0 = sq(b0, fxi, fyi);
        proof {
            assert(legal_move(b0, m));
            assert(caps@ == cv);
            // facts about the chosen move, for both of its shapes
            if cv.len() > 0 {
                if !capture_move_of(b0, m.from_x as int, m.from_y as int, m) {
                    assert(simple_move_of(b0, m.from_x as int, m.from_y as int, m));
                    assert(cv.len() == 0);
                }
                assert(capture_move_of(b0, fxi, fyi, m));
                assert(is_chain_of(b0, fxi, fyi, cv));
                assert(owner(piece0) == Some(mover));
                lemma_chain_distinct(b0, piece0, (fxi, fyi), cv);
                assert forall|j: int| 0 <= j < cv.len() implies #[trigger] step_ok(
                    b0,
                    mover,
                    chain_pos((fxi, fyi), cv, j),
                    cv[j],
                    cv.take(j),
                ) by {}
                assert forall|j: int| 0 <= j < cv.len() implies (#[trigger] cv[j]).0 < 8
                    && cv[j].1 < 8 by {
                    lemma_chain_in_bounds(b0, piece0, (fxi, fyi), cv, j);
                }
                lemma_chain_in_bounds(b0, piece0, (fxi, fyi), cv, cv.len() as int);
                assert((txi, tyi) == chain_end(fxi, fyi, cv));
                assert(in_bounds(txi, tyi));
                // the destination is the last landing square, which is free
                assert(step_ok(
                    b0,
                    mover,
                    chain_pos((fxi, fyi), cv, cv.len() - 1),
                    cv[cv.len() - 1],
                    cv.take(cv.len() - 1),
                ));
                assert(chain_pos((fxi, fyi), cv, cv.len() as int) == jump_dest(
                    chain_pos((fxi, fyi), cv, cv.len() - 1),
                    cv[cv.len() - 1],
                ));
                assert(sq(b0, txi, tyi) == Piece::Empty);
                // captured squares hold enemies, so they differ from both
                // endpoints
                assert forall|j: int| 0 <= j < cv.len() implies is_enemy(
                    b0,
                    (#[trigger] cv[j]).0 as int,
                    cv[j].1 as int,
                    mover,
                ) by {
                    assert(step_ok(b0, mover, chain_pos((fxi, fyi), cv, j), cv[j], cv.take(j)));
                }
                assert forall|j: int| 0 <= j < cv.len() implies !((#[trigger] cv[j]).0 as int
                    == fxi && cv[j].1 as int == fyi) && !(cv[j].0 as int == txi && cv[j].1 as int
                    == tyi) by {
                    assert(is_enemy(b0, cv[j].0 as int, cv[j].1 as int, mover));
                }
                assert(!(fxi == txi && fyi == tyi));
            } else {
                if capture_move_of(b0, m.from_x as int, m.from_y as int, m) {
                    assert(is_chain_of(b0, fxi, fyi, cv));
                    assert(false);
                }
                assert(simple_move_of(b0, fxi, fyi, m));
                assert(simple_ok(b0, fxi, fyi, txi, tyi));
                assert(owner(piece0) == Some(mover));
                assert(sq(b0, txi, tyi) == Piece::Empty);
                assert(!(fxi == txi && fyi == tyi));
            }
            assert(in_bounds(fxi, fyi) && in_bounds(txi, tyi));
        }
        let piece = self.pieces[fx][fy];
        proof {
            assert(piece == piece0);
        }
        let ghost g0 = b0.pieces;
        // lift the moving piece off its origin square
        let mut row = self.pieces[fx];
        row[fy] = Piece::Empty;
        self.pieces[fx] = row;
        proof {
            let ga = self.pieces;
            assert forall|r: int, c: int| in_bounds(r, c) && !(r == fxi && c == fyi)
                implies #[trigger] grid_sq(ga, r, c) == grid_sq(g0, r, c) by {}
            assert(grid_sq(ga, fxi, fyi) == Piece::Empty);
            lemma_count_upto_cell_set(g0, ga, fxi, fyi, Player::White, 64);
            lemma_count_upto_cell_set(g0, ga, fxi, fyi, Player::Black, 64);
            assert(count_upto(g0, mover, 64) == count_upto(ga, mover, 64) + 1);
            assert(count_upto(g0, enemy, 64) == count_upto(ga, enemy, 64));
            assert(cv.take(0) =~= Seq::<(usize, usize)>::empty());
        }
        // remove every captured piece
        let mut k: usize = 0;
        while k < caps.len()
            invariant
                k <= caps@.len(),
                self.current_player == mover,
                forall|r: int, c: int|
                    in_bounds(r, c) ==> #[trigger] grid_sq(self.pieces, r, c) == (if (r == fxi && c
                        == fyi) || cv.take(k as int).contains(((r as usize), (c as usize))) {
                        Piece::Empty
                    } else {
                        grid_sq(g0, r, c)
                    }),
                count_upto(g0, mover, 64) == count_upto(self.pieces, mover, 64) + 1,
                count_upto(g0, enemy, 64) == count_upto(self.pieces, enemy, 64) + k,
            decreases caps@.len() - k,
        {
            let cpos: (usize, usize) = caps[k];
            let cx: usize = cpos.0;
            let cy: usize = cpos.1;
            let ghost gp = self.pieces;
            proof {
                assert(cv[k as int] == cpos);
                assert(is_enemy(b0, cx as int, cy as int, mover));
                assert(!cv.take(k as int).contains(cpos)) by {
                    if cv.take(k as int).contains(cpos) {
                        let j = choose|j: int|
                            0 <= j < k && cv.take(k as int)[j] == cpos;
                        assert(cv[j] == cv[k as int]);
                    }
                }
                assert(!(cx as int == fxi && cy as int == fyi));
                assert(grid_sq(gp, cx as int, cy as int) == grid_sq(g0, cx as int, cy as int));
                assert(owner(grid_sq(gp, cx as int, cy as int)) == Some(enemy)) by {
                    assert(is_enemy(b0, cx as int, cy as int, mover));
                }
            }
            let mut row2 = self.pieces[cx];
            row2[cy] = Piece::Empty;
            self.pieces[cx] = row2;
            proof {
                assert forall|r: int, c: int| in_bounds(r, c) && !(r == cx as int && c
                    == cy as int) implies #[trigger] grid_sq(self.pieces, r, c) == grid_sq(
                    gp,
                    r,
                    c,
                ) by {}
                lemma_count_upto_cell_set(gp, self.pieces, cx as int, cy as int, Player::White, 64);
                lemma_count_upto_cell_set(gp, self.pieces, cx as int, cy as int, Player::Black, 64);
                assert(cv.take(k as int + 1) =~= cv.take(k as int).push(cpos));
                assert forall|r: int, c: int| in_bounds(r, c) implies #[trigger] grid_sq(
                    self.pieces,
                    r,
                    c,
                ) == (if (r == fxi && c == fyi) || cv.take(k as int + 1).contains(
                    ((r as usize), (c as usize)),
                ) {
                    Piece::Empty
                } else {
                    grid_sq(g0, r, c)
                }) by {
                    let ru = r as usize;
                    let cu = c as usize;
                    assert(cv.take(k as int + 1).contains(cpos)) by {
                        assert(cv.take(k as int + 1)[k as int] == cpos);
                    }
                    if r == cx as int && c == cy as int {
                        assert((ru, cu) == cpos);
                    } else {
                        assert(grid_sq(self.pieces, r, c) == grid_sq(gp, r, c));
                        assert(grid_sq(gp, r, c) == (if (r == fxi && c == fyi) || cv.take(
                            k as int,
                        ).contains(((ru), (cu))) {
                            Piece::Empty
                        } else {
                            grid_sq(g0, r, c)
                        }));
                        if cv.take(k as int + 1).contains((ru, cu)) && (ru, cu) != cpos {
                            let j = choose|j: int|
                                0 <= j < k as int + 1 && #[trigger] cv.take(k as int + 1)[j] == (
                                ru,
                                cu,
                                );
                            assert(cv.take(k as int)[j] == (ru, cu));
                            assert(cv.take(k as int).contains((ru, cu)));
                        }
                        if cv.take(k as int).contains((ru, cu)) {
                            let j = choose|j: int|
                                0 <= j < k as int && #[trigger] cv.take(k as int)[j] == (ru, cu);
                            assert(cv.take(k as int + 1)[j] == (ru, cu));
                            assert(cv.take(k as int + 1).contains((ru, cu)));
                        }
                    }
                }
            }
            k = k + 1;
        }
        proof {
            assert(cv.take(cv.len() as int) =~= cv);
        }
        // place the piece, promoting a regular piece on its far row
        let new_piece = match piece {
            Piece::Regular(Player::White) => if tx == 0 {
                Piece::King(Player::White)
            } else {
                piece
            },
            Piece::Regular(Player::Black) => if tx == 7 {
                Piece::King(Player::Black)
            } else {
                piece
            },
            _ => piece,
        };
        let ghost gb = self.pieces;
        proof {
            assert(new_piece == promoted(piece0, txi));
            assert(owner(new_piece) == Some(mover));
        }
        let mut row3 = self.pieces[tx];
        row3[ty] = new_piece;
        self.pieces[tx] = row3;
        proof {
            assert(!cv.contains(((tx), (ty)))) by {
                if cv.contains(((tx), (ty))) {
                    let j = choose|j: int| 0 <= j < cv.len() && cv[j] == ((tx), (ty));
                    assert(is_enemy(b0, cv[j].0 as int, cv[j].1 as int, mover));
                }
            }
            assert(grid_sq(gb, txi, tyi) == Piece::Empty);
            assert forall|r: int, c: int| in_bounds(r, c) && !(r == txi && c == tyi)
                implies #[trigger] grid_sq(self.pieces, r, c) == grid_sq(gb, r, c) by {}
            lemma_count_upto_cell_set(gb, self.pieces, txi, tyi, Player::White, 64);
            lemma_count_upto_cell_set(gb, self.pieces, txi, tyi, Player::Black, 64);
            assert(count_upto(self.pieces, mover, 64) == count_upto(g0, mover, 64));
            assert(count_upto(g0, enemy, 64) == count_upto(self.pieces, enemy, 64) + cv.len());
            // the finished grid is the applied grid
            assert forall|r: int, c: int| in_bounds(r, c) implies #[trigger] grid_sq(
                self.pieces,
                r,
                c,
            ) == apply_cell(b0, fxi, fyi, txi, tyi, cv, r, c) by {
                if !(r == txi && c == tyi) {
                    assert(grid_sq(self.pieces, r, c) == grid_sq(gb, r, c));
                }
            }
        }
        // the turn passes unless the mover can still capture
        let mand = self.get_mandatory_captures();
        let ghost mid = *self;
        if mand.len() == 0 {
            self.current_player = match self.current_player {
                Player::White => Player::Black,
                Player::Black => Player::White,
            };
        }
        proof {
            assert(mid.pieces == self.pieces);
            assert(mid.current_player == mover);
            assert((Board { pieces: self.pieces, current_player: b0.current_player }) == mid);
            assert(self.current_player == (if side_has_capture(mid) {
                b0.current_player
            } else {
                other_player(b0.current_player)
            }));
            assert forall|r: int, c: int| in_bounds(r, c) implies #[trigger] sq(*self, r, c)
                == apply_cell(b0, fxi, fyi, txi, tyi, cv, r, c) by {}
            assert(apply_rel(b0, fxi, fyi, txi, tyi, cv, *self));
            assert(count_side(*self, mover) == count_side(b0, mover));
            assert(count_side(*self, enemy) + cv.len() == count_side(b0, enemy));
            // a legal move keeps every piece on a playable square
            if pieces_on_playable(b0) {
                assert(playable(fxi, fyi)) by {
                    assert(sq(b0, fxi, fyi) != Piece::Empty);
                }
                assert(playable(txi, tyi)) by {
                    if cv.len() > 0 {
                        lemma_chain_parity(b0, piece0, (fxi, fyi), cv, cv.len() as int);
                    }
                }
                assert forall|r: int, c: int| in_bounds(r, c) && #[trigger] sq(*self, r, c)
                    != Piece::Empty implies playable(r, c) by {
                    if !(r == txi && c == tyi) {
                        assert(sq(b0, r, c) == sq(*self, r, c));
                    }
                }
            }
            // the chosen move witnesses the postcondition
            assert(m.from_x == move_.from_x && m.from_y == move_.from_y && m.to_x == move_.to_x
                && m.to_y == move_.to_y);
            if capture_move_of(b0, m.from_x as int, m.from_y as int, m) {
                assert(is_chain_of(b0, fxi, fyi, m.captures@) && chain_end(fxi, fyi, m.captures@)
                    == (txi, tyi));
            }
            assert(has_legal_with_endpoints(b0, fxi, fyi, txi, tyi));
        }
        true
    }
}

/// The first entry of `moves` that runs from (fx, fy) to (tx, ty), if any.
fn position_of_match(moves: &Vec<Move>, fx: usize, fy: usize, tx: usize, ty: usize) -> (r: Option<
    usize,
>)
    ensures
        match r {
            Some(i) => i < moves@.len() && moves@[i as int].from_x == fx && moves@[i as int].from_y
                == fy && moves@[i as int].to_x == tx && moves@[i as int].to_y == ty && forall|
                j: int,
            |
                0 <= j < i ==> !(moves@[j].from_x == fx && moves@[j].from_y == fy && moves@[j].to_x
                    == tx && #[trigger] moves@[j].to_y == ty),
            None => forall|j: int|
                0 <= j < moves@.len() ==> !(moves@[j].from_x == fx && moves@[j].from_y == fy
                    && moves@[j].to_x == tx && #[trigger] moves@[j].to_y == ty),
        },
{
    let mut k: usize = 0;
    while k < moves.len()
        invariant
            k <= moves@.len(),
            forall|j: int|
                0 <= j < k ==> !(moves@[j].from_x == fx && moves@[j].from_y == fy && moves@[j].to_x
                    == tx && #[trigger] moves@[j].to_y == ty),
        decreases moves@.len() - k,
    {
        let m = &moves[k];
        if m.from_x == fx && m.from_y == fy && m.to_x == tx && m.to_y == ty {
            return Some(k);
        }
        k = k + 1;
    }
    None
}

} // verus!
