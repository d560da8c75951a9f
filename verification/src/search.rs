//! Walking the tree of moves: counting the positions a number of moves ahead
//! (perft) and searching for the best move by minimax with alpha-beta
//! pruning.
use vstd::prelude::*;
use crate::evaluate::{Evaluation, evaluation_spec, score_spec, insufficient_material, repeated};
use crate::legal_moves::{
    legal_move_seq, has_kings, in_check, lemma_legal_moves_bounded, king_square, checkers, pinned, pinners,
    attacked, capture_targets, push_targets, slider_seq, knight_seq, pawn_pushes_seq, pawn_captures_seq,
    pin_ray_seq, ep_capture_seq, piece_seq, castles_seq, safe_king_seq, pbits, stm, potential_attackers,
};
use crate::moves::Move;
use crate::piece::{Piece, PAWN, KING};
use crate::position::{Position, State, StateView, model, next_model, can_make_on, law_boards_follow_grid, law_unmake_grid};

verus! {

/// The model of a position: grid, state and hash.
pub type Model = (Seq<Piece>, StateView, u64);

/// A well-formed position with the model `mdl`.
pub open spec fn rep(mdl: Model) -> Position {
    choose|q: Position| q.wf() && model(q) == mdl
}

/// The legal moves of the model `mdl`.
pub open spec fn moves_of(mdl: Model) -> Seq<Move> {
    legal_move_seq(rep(mdl))
}

/// The evaluation of the model `mdl`.
pub open spec fn eval_of(mdl: Model) -> Evaluation {
    evaluation_spec(rep(mdl), moves_of(mdl).len(), in_check(rep(mdl)))
}

/// `m` can be made and taken back on the model `mdl`: it fits the pieces,
/// a promotion is made by a pawn of the side to move, and the move counters
/// have room to grow.
pub open spec fn playable(mdl: Model, m: Move) -> bool {
    let (g, st, _) = mdl;
    let side = st.side_to_move.0;
    &&& can_make_on(g, m, side)
    &&& (m.promote_spec() is Some ==> g[(m.0 & 63) as int] == Piece((2 * PAWN + side) as u8))
    &&& st.halfmove_clock < u32::MAX
    &&& (side == 1 ==> st.fullmove_number < u32::MAX)
}

/// The boards, pieces, side to move, castling rights and en-passant target
/// of `p` and `q` agree.
pub open spec fn same_board(p: Position, q: Position) -> bool {
    &&& forall|i: int| 0 <= i < 12 ==> #[trigger] p.piece_board(i) == q.piece_board(i)
    &&& p.side_board(0) == q.side_board(0)
    &&& p.side_board(1) == q.side_board(1)
    &&& p.grid() == q.grid()
    &&& p.state_spec().side_to_move == q.state_spec().side_to_move
    &&& p.state_spec().castling_rights == q.state_spec().castling_rights
    &&& p.state_spec().en_passant_target == q.state_spec().en_passant_target
    &&& p.state_spec().side_to_move.0 <= 1
}

proof fn lemma_same_threats(p: Position, q: Position)
    requires
        same_board(p, q),
    ensures
        king_square(p) == king_square(q),
        checkers(p) == checkers(q),
        pinned(p) == pinned(q),
        pinners(p) == pinners(q),
        attacked(p) == attacked(q),
        has_kings(p) == has_kings(q),
        in_check(p) == in_check(q),
        capture_targets(p) == capture_targets(q),
        push_targets(p) == push_targets(q),
{
    let s = stm(p);
    assert(pbits(p, 2 * KING + s) == pbits(q, 2 * KING + s));
    assert(pbits(p, 2 * KING + (1 - s)) == pbits(q, 2 * KING + (1 - s)));
    assert(potential_attackers(p) == potential_attackers(q));
}

proof fn lemma_same_pieces(p: Position, q: Position, cm: u64, pm: u64, pn: u64, k: u8, pinners: u64)
    requires
        same_board(p, q),
    ensures
        slider_seq(p, cm, pm, pn, k) == slider_seq(q, cm, pm, pn, k),
        knight_seq(p, cm, pm, !pn) == knight_seq(q, cm, pm, !pn),
        pawn_pushes_seq(p, pm, !pn) == pawn_pushes_seq(q, pm, !pn),
{
}

proof fn lemma_same_pawns(p: Position, q: Position, cm: u64, pm: u64, pn: u64, k: u8, pinners: u64)
    requires
        same_board(p, q),
    ensures
        pawn_captures_seq(p, cm, pm, !pn) == pawn_captures_seq(q, cm, pm, !pn),
        pin_ray_seq(p, cm & pinners, pm, k, pn) == pin_ray_seq(q, cm & pinners, pm, k, pn),
{
    assert(forall|mv: u64, dir: int, ep: u8, c: u64, ps: u64, r: u64, ch: bool|
        #[trigger] ep_capture_seq(p, mv, dir, ep, c, ps, r, ch) == ep_capture_seq(q, mv, dir, ep, c, ps, r, ch));
}

proof fn lemma_same_moves(p: Position, q: Position)
    requires
        same_board(p, q),
    ensures
        legal_move_seq(p) == legal_move_seq(q),
{
    lemma_same_threats(p, q);
    let cm = capture_targets(p);
    let pm = push_targets(p);
    let pn = pinned(p);
    let k = king_square(p);
    let pinners = pinners(p);
    lemma_same_pieces(p, q, cm, pm, pn, k, pinners);
    lemma_same_pawns(p, q, cm, pm, pn, k, pinners);
    assert(piece_seq(p, cm, pm, pn, k, pinners) == piece_seq(q, cm, pm, pn, k, pinners)) by {
        reveal(piece_seq);
    }
    assert(castles_seq(p) == castles_seq(q));
    assert(safe_king_seq(p) == safe_king_seq(q));
}

/// Two well-formed positions with one model have the same legal moves, the
/// same kings, the same check and the same evaluations.
pub proof fn lemma_same_model(p: Position, q: Position)
    requires
        p.wf(),
        q.wf(),
        model(p) == model(q),
    ensures
        legal_move_seq(p) == legal_move_seq(q),
        has_kings(p) == has_kings(q),
        in_check(p) == in_check(q),
        forall|n: nat, b: bool| #[trigger] evaluation_spec(p, n, b) == evaluation_spec(q, n, b),
{
    law_boards_follow_grid(&p, &q);
    assert(same_board(p, q));
    lemma_same_threats(p, q);
    lemma_same_moves(p, q);
    assert forall|n: nat, b: bool| #[trigger] evaluation_spec(p, n, b) == evaluation_spec(q, n, b) by {
        assert(insufficient_material(p) == insufficient_material(q));
        assert(repeated(p) == repeated(q));
    }
}

/// A well-formed position stands for its model.
pub proof fn lemma_rep(p: Position)
    requires
        p.wf(),
    ensures
        rep(model(p)).wf(),
        model(rep(model(p))) == model(p),
        moves_of(model(p)) == legal_move_seq(p),
        has_kings(rep(model(p))) == has_kings(p),
        in_check(rep(model(p))) == in_check(p),
        eval_of(model(p)) == evaluation_spec(p, legal_move_seq(p).len(), in_check(p)),
{
    assert(p.wf() && model(p) == model(p));
    let q = rep(model(p));
    lemma_same_model(p, q);
}

impl Position {
    /// Whether `m` can be made and taken back here (see `playable`).
    pub fn can_play(&self, m: Move) -> (r: bool)
        requires
            self.wf(),
        ensures
            r == playable(model(*self), m),
    {
        proof {
            crate::position::lemma_grid_codes(self);
        }
        let st = self.state();
        let side = st.side_to_move;
        if st.halfmove_clock == u32::MAX || (side.0 == 1 && st.fullmove_number == u32::MAX) {
            return false;
        }
        let from = m.from();
        if m.promote_to().is_some() && self.at(from).0 != 2 * PAWN + side.0 {
            return false;
        }
        match m.castle() {
            Some(c) => {
                let (kf, kt, rf, rt) = crate::position::castle_squares(side, c);
                self.at(kf).0 < 12 && self.at(kt).0 == 12 && self.at(rf).0 < 12 && self.at(rt).0 == 12
            },
            None => {
                let to = m.to();
                let mover = self.at(from);
                if from.0 == to.0 || mover.0 >= 12 {
                    return false;
                }
                if m.is_capture() {
                    let cap = if m.is_en_passant_capture() {
                        from.along_row_with_col(to)
                    } else {
                        to
                    };
                    proof {
                        let a = m.0;
                        let b = m.1;
                        assert(((a & 63) & 56) | ((b & 63) & 7) < 64) by (bit_vector);
                    }
                    if self.at(cap).0 >= 12 || cap.0 == from.0 {
                        return false;
                    }
                    cap.0 == to.0 || self.at(to).0 == 12
                } else {
                    self.at(to).0 == 12
                }
            },
        }
    }

    /// Whether both kings are on the board (see `has_kings`).
    pub fn has_both_kings(&self) -> (r: bool)
        requires
            self.wf(),
        ensures
            r == has_kings(*self),
    {
        let side = self.state().side_to_move;
        self.piece(Piece(2 * KING + side.0)).0 != 0 && self.piece(Piece(2 * KING + 1 - side.0)).0 != 0
    }
}

/// The count of positions `depth` moves ahead of the model `mdl`, over its
/// first `k` legal moves: one move ahead without `print`, the number of
/// legal moves; otherwise for each move one when one move ahead, else the
/// count one move less ahead of the position it leads to.
pub open spec fn perft_part(mdl: Model, depth: nat, print: bool, k: nat) -> nat
    decreases depth, k,
{
    if depth == 1 && !print {
        moves_of(mdl).len()
    } else if k == 0 || depth == 0 {
        0
    } else {
        perft_part(mdl, depth, print, (k - 1) as nat) + (if k <= moves_of(mdl).len() {
            if depth == 1 {
                1
            } else {
                let c = next_model(mdl, moves_of(mdl)[k - 1]);
                perft_part(c, (depth - 1) as nat, false, moves_of(c).len())
            }
        } else {
            0
        })
    }
}

/// The count of positions `depth` moves ahead of the model `mdl` (see
/// `perft_part`).
pub open spec fn perft_count(mdl: Model, depth: nat, print: bool) -> nat {
    perft_part(mdl, depth, print, moves_of(mdl).len())
}

/// The count reported for the move `m` of the model `mdl` when counting
/// `depth` moves ahead: one when one move ahead, else the count one move
/// less ahead of the position it leads to.
pub open spec fn perft_child(mdl: Model, depth: nat, m: Move) -> nat {
    if depth == 1 {
        1
    } else {
        perft_count(next_model(mdl, m), (depth - 1) as nat, false)
    }
}

/// Counting from the model `mdl` makes only moves that can be made, on
/// positions with both kings, and never goes below one move ahead from a
/// position that has legal moves.
pub open spec fn perft_ok(mdl: Model, depth: nat, print: bool) -> bool
    decreases depth,
{
    &&& has_kings(rep(mdl))
    &&& depth == 1 || forall|k: int|
        0 <= k < moves_of(mdl).len() ==> depth >= 1 && playable(mdl, #[trigger] moves_of(mdl)[k]) && perft_ok(
            next_model(mdl, moves_of(mdl)[k]),
            (depth - 1) as nat,
            false,
        )
}

/// From one move ahead on, whether the count of each legal move is
/// reported does not change the count.
pub proof fn law_perft_report_same_count(mdl: Model, depth: nat)
    requires
        depth >= 1,
    ensures
        perft_count(mdl, depth, true) == perft_count(mdl, depth, false),
{
    if depth == 1 {
        lemma_perft_one(mdl, moves_of(mdl).len());
    } else {
        lemma_perft_part_report(mdl, depth, moves_of(mdl).len());
    }
}

proof fn lemma_perft_part_report(mdl: Model, depth: nat, k: nat)
    requires
        depth >= 2,
    ensures
        perft_part(mdl, depth, true, k) == perft_part(mdl, depth, false, k),
    decreases k,
{
    if k > 0 {
        lemma_perft_part_report(mdl, depth, (k - 1) as nat);
    }
}

/// One move ahead with the report, each of the first `k` moves counts one.
proof fn lemma_perft_one(mdl: Model, k: nat)
    requires
        k <= moves_of(mdl).len(),
    ensures
        perft_part(mdl, 1, true, k) == k,
    decreases k,
{
    if k > 0 {
        lemma_perft_one(mdl, (k - 1) as nat);
    }
}

proof fn lemma_perft_part_grows(mdl: Model, depth: nat, print: bool, j: nat, k: nat)
    requires
        j <= k,
    ensures
        perft_part(mdl, depth, print, j) <= perft_part(mdl, depth, print, k),
    decreases k,
{
    if j < k {
        lemma_perft_part_grows(mdl, depth, print, j, (k - 1) as nat);
    }
}

/// Makes `m` on `position`, the side to move being that of the model.
fn play(position: &mut Position, m: Move) -> (r: Option<(Piece, crate::square::Square)>)
    requires
        old(position).wf(),
        playable(model(*old(position)), m),
    ensures
        final(position).wf(),
        model(*final(position)) == next_model(model(*old(position)), m),
        r == crate::position::make_captured(old(position).grid(), m),
{
    position.make(m)
}

/// Takes back `m`, made on a position of model `mdl` whose state was
/// `state` and hash `hash`, from `position`.
fn take_back(position: &mut Position, m: Move, capture: Option<(Piece, crate::square::Square)>, state: &State, hash: u64, mdl: Ghost<Model>)
    requires
        old(position).wf(),
        mdl@ == (mdl@.0, state@, hash),
        mdl@.0.len() == 64,
        forall|i: int| 0 <= i < 64 ==> #[trigger] mdl@.0[i].0 <= 12,
        state.sound(),
        playable(mdl@, m),
        model(*old(position)).0 == next_model(mdl@, m).0,
        capture == crate::position::make_captured(mdl@.0, m),
    ensures
        final(position).wf(),
        model(*final(position)) == mdl@,
{
    proof {
        law_unmake_grid(mdl@.0, m, state.side_to_move.0);
    }
    position.unmake(m, capture, state, hash);
}

/// Counts the positions `depth` moves ahead of `position` (see
/// `perft_count`); with `print`, also the count behind each legal move, in
/// order. The position is left as it was.
#[verifier::rlimit(40)]
fn perft_walk(position: &mut Position, depth: usize, print: bool) -> (r: (u64, Vec<(Move, u64)>))
    requires
        old(position).wf(),
        perft_ok(model(*old(position)), depth as nat, print),
        perft_count(model(*old(position)), depth as nat, print) <= u64::MAX,
    ensures
        final(position).wf(),
        model(*final(position)) == model(*old(position)),
        r.0 == perft_count(model(*old(position)), depth as nat, print),
        print ==> r.1@.len() == moves_of(model(*old(position))).len(),
        print ==> forall|k: int|
            0 <= k < r.1@.len() ==> #[trigger] r.1@[k] == (
                moves_of(model(*old(position)))[k],
                perft_child(model(*old(position)), depth as nat, moves_of(model(*old(position)))[k]) as u64,
            ),
    decreases depth,
{
    let ghost mdl = model(*position);
    proof {
        lemma_rep(*position);
        lemma_legal_moves_bounded(*position);
    }
    if depth == 1 && !print {
        let mut counter = crate::move_list::MoveCounter::new();
        position.legal_moves(&mut counter);
        return (counter.moves, Vec::new());
    }
    let (moves, _) = position.legal_moves_vec();
    if depth == 1 {
        let mut lines: Vec<(Move, u64)> = Vec::new();
        let mut i: usize = 0;
        while i < moves.len()
            invariant
                moves.view() == moves_of(mdl),
                i <= moves.view().len(),
                lines@.len() == i,
                forall|k: int| 0 <= k < i ==> #[trigger] lines@[k] == (moves_of(mdl)[k], 1u64),
            decreases moves.view().len() - i,
        {
            let m = moves.get(i);
            lines.push((m, 1));
            i = i + 1;
        }
        proof {
            lemma_perft_one(mdl, moves.view().len());
        }
        return (moves.len() as u64, lines);
    }
    let state = position.state().copy();
    let hash = position.hash();
    proof {
        crate::position::lemma_grid_codes(position);
        lemma_perft_part_grows(mdl, depth as nat, print, 0, moves.view().len());
    }
    let mut total: u64 = 0;
    let mut lines: Vec<(Move, u64)> = Vec::new();
    let mut i: usize = 0;
    while i < moves.len()
        invariant
            position.wf(),
            model(*position) == mdl,
            mdl == (mdl.0, state@, hash),
            mdl.0.len() == 64,
            forall|j: int| 0 <= j < 64 ==> #[trigger] mdl.0[j].0 <= 12,
            state.sound(),
            depth != 1,
            moves.view() == moves_of(mdl),
            perft_ok(mdl, depth as nat, print),
            perft_count(mdl, depth as nat, print) <= u64::MAX,
            i <= moves.view().len(),
            total == perft_part(mdl, depth as nat, print, i as nat),
            lines@.len() == (if print { i as int } else { 0 }),
            print ==> forall|k: int|
                0 <= k < lines@.len() ==> #[trigger] lines@[k] == (
                    moves_of(mdl)[k],
                    perft_child(mdl, depth as nat, moves_of(mdl)[k]) as u64,
                ),
        decreases moves.view().len() - i,
    {
        let m = moves.get(i);
        assert(moves_of(mdl)[i as int] == m);
        let capture = play(position, m);
        proof {
            lemma_perft_part_grows(mdl, depth as nat, print, (i + 1) as nat, moves.view().len());
        }
        let (count, _) = perft_walk(position, depth - 1, false);
        total = total + count;
        take_back(position, m, capture, &state, hash, Ghost(mdl));
        if print {
            lines.push((m, count));
        }
        i = i + 1;
    }
    (total, lines)
}

/// Whether counting `depth` moves ahead of the model `mdl` can be done and
/// its count fits in 64 bits.
pub open spec fn perft_admitted(mdl: Model, depth: nat) -> bool {
    perft_ok(mdl, depth, false) && perft_count(mdl, depth, false) <= u64::MAX
}

/// Counts the positions `depth` moves ahead of `position` as `perft_walk`
/// does, checking on the way that every position has both kings, every
/// move can be made and the count fits; `None` where one of these fails.
/// The position is left as it was.
#[verifier::rlimit(60)]
fn perft_try_walk(position: &mut Position, depth: usize) -> (r: Option<u64>)
    requires
        old(position).wf(),
    ensures
        final(position).wf(),
        model(*final(position)) == model(*old(position)),
        r == (if perft_admitted(model(*old(position)), depth as nat) {
            Some(perft_count(model(*old(position)), depth as nat, false) as u64)
        } else {
            None
        }),
    decreases depth,
{
    let ghost mdl = model(*position);
    proof {
        lemma_rep(*position);
        lemma_legal_moves_bounded(*position);
    }
    if !position.has_both_kings() {
        return None;
    }
    if depth == 1 {
        let mut counter = crate::move_list::MoveCounter::new();
        position.legal_moves(&mut counter);
        return Some(counter.moves);
    }
    let (moves, _) = position.legal_moves_vec();
    if depth == 0 {
        if moves.len() == 0 {
            return Some(0);
        } else {
            assert(moves_of(mdl).len() > 0);
            let ghost first = moves_of(mdl)[0];
            assert(!perft_ok(mdl, depth as nat, false));
            return None;
        }
    }
    let state = position.state().copy();
    let hash = position.hash();
    proof {
        crate::position::lemma_grid_codes(position);
    }
    let mut total: u64 = 0;
    let mut i: usize = 0;
    while i < moves.len()
        invariant
            position.wf(),
            model(*position) == mdl,
            mdl == (mdl.0, state@, hash),
            mdl.0.len() == 64,
            forall|j: int| 0 <= j < 64 ==> #[trigger] mdl.0[j].0 <= 12,
            state.sound(),
            depth >= 2,
            mdl == model(*old(position)),
            has_kings(rep(mdl)),
            moves.view() == moves_of(mdl),
            i <= moves.view().len(),
            total == perft_part(mdl, depth as nat, false, i as nat),
            forall|k: int|
                0 <= k < i ==> playable(mdl, #[trigger] moves_of(mdl)[k]) && perft_ok(
                    next_model(mdl, moves_of(mdl)[k]),
                    (depth - 1) as nat,
                    false,
                ),
        decreases moves.view().len() - i,
    {
        let m = moves.get(i);
        assert(moves_of(mdl)[i as int] == m);
        if !position.can_play(m) {
            assert(!playable(mdl, moves_of(mdl)[i as int]));
            assert(!perft_ok(mdl, depth as nat, false));
            return None;
        }
        let capture = play(position, m);
        let sub = perft_try_walk(position, depth - 1);
        take_back(position, m, capture, &state, hash, Ghost(mdl));
        proof {
            lemma_perft_part_grows(mdl, depth as nat, false, (i + 1) as nat, moves.view().len());
        }
        match sub {
            None => {
                return None;
            },
            Some(count) => {
                match total.checked_add(count) {
                    None => {
                        return None;
                    },
                    Some(t) => {
                        total = t;
                    },
                }
            },
        }
        i = i + 1;
    }
    Some(total)
}

/// Whether counting `depth` moves ahead of `position` can be done and its
/// count fits in 64 bits (see `perft_admitted`); the position is left as it
/// was.
pub fn perft_admits(position: &mut Position, depth: usize) -> (r: bool)
    requires
        old(position).wf(),
    ensures
        final(position).wf(),
        model(*final(position)) == model(*old(position)),
        r == perft_admitted(model(*old(position)), depth as nat),
{
    perft_try_walk(position, depth).is_some()
}

/// Counts the positions `depth` moves ahead of `position` (see
/// `perft_count`), leaving the position as it was.
pub fn perft_inner(position: &mut Position, depth: usize) -> (r: u64)
    requires
        old(position).wf(),
        perft_ok(model(*old(position)), depth as nat, false),
        perft_count(model(*old(position)), depth as nat, false) <= u64::MAX,
    ensures
        final(position).wf(),
        model(*final(position)) == model(*old(position)),
        r == perft_count(model(*old(position)), depth as nat, false),
{
    perft_walk(position, depth, false).0
}

/// Counts the positions `depth` moves ahead of `position` and, for each of
/// its legal moves in order, the count behind it (one, one move ahead); zero
/// moves ahead there is the position itself.
pub fn perft(position: &mut Position, depth: usize) -> (r: (u64, Vec<(Move, u64)>))
    requires
        old(position).wf(),
        depth > 0 ==> perft_ok(model(*old(position)), depth as nat, true),
        depth > 0 ==> perft_count(model(*old(position)), depth as nat, true) <= u64::MAX,
    ensures
        final(position).wf(),
        model(*final(position)) == model(*old(position)),
        depth == 0 ==> r.0 == 1 && r.1@.len() == 0,
        depth > 0 ==> r.0 == perft_count(model(*old(position)), depth as nat, true),
        depth > 0 ==> r.1@.len() == moves_of(model(*old(position))).len(),
        depth > 0 ==> forall|k: int|
            0 <= k < r.1@.len() ==> #[trigger] r.1@[k] == (
                moves_of(model(*old(position)))[k],
                perft_child(model(*old(position)), depth as nat, moves_of(model(*old(position)))[k]) as u64,
            ),
{
    if depth == 0 {
        return (1, Vec::new());
    }
    perft_walk(position, depth, true)
}

/// The result of searching the model `mdl` `depth` moves deep by minimax
/// with alpha-beta pruning in the window `alpha`, `beta`: the value, the
/// line of best moves (its first move last) and the number of positions
/// visited; or `None` when the search meets a position without both kings or
/// would make a move that cannot be made. At no depth left, or on a
/// finished game, the value is the score of the evaluation.
pub open spec fn search(mdl: Model, depth: nat, alpha: i32, beta: i32) -> Option<(i32, Seq<Move>, nat)>
    decreases depth, moves_of(mdl).len() + 2,
{
    if !has_kings(rep(mdl)) {
        None
    } else if depth == 0 || !(eval_of(mdl) is Ongoing) {
        Some((score_spec(eval_of(mdl)) as i32, Seq::empty(), 1))
    } else {
        let start = if mdl.1.side_to_move.0 == 0 { i32::MIN } else { i32::MAX };
        match search_loop(mdl, depth, alpha, beta, 0, start, Seq::empty(), 0) {
            Some((v, line, n)) => Some((v, line, n + 1)),
            None => None,
        }
    }
}

/// Searching the legal moves of `mdl` from the `k`-th on, the best value so
/// far being `value` with the line `best`, `nodes` positions visited so far:
/// white keeps the largest value and raises `alpha`, black keeps the
/// smallest and lowers `beta`; the search stops once the value leaves the
/// window.
pub open spec fn search_loop(
    mdl: Model,
    depth: nat,
    alpha: i32,
    beta: i32,
    k: nat,
    value: i32,
    best: Seq<Move>,
    nodes: nat,
) -> Option<(i32, Seq<Move>, nat)>
    decreases depth, moves_of(mdl).len() + 1 - k,
{
    let ms = moves_of(mdl);
    if k >= ms.len() || depth == 0 {
        Some((value, best, nodes))
    } else if !playable(mdl, ms[k as int]) {
        None
    } else {
        match search(next_model(mdl, ms[k as int]), (depth - 1) as nat, alpha, beta) {
            None => None,
            Some((mv, line, n)) => {
                if mdl.1.side_to_move.0 == 0 {
                    let value2 = if mv > value { mv } else { value };
                    let best2 = if mv > value { line.push(ms[k as int]) } else { best };
                    let alpha2 = if alpha > value2 { alpha } else { value2 };
                    if value2 >= beta {
                        Some((value2, best2, nodes + n))
                    } else {
                        search_loop(mdl, depth, alpha2, beta, k + 1, value2, best2, nodes + n)
                    }
                } else {
                    let value2 = if mv < value { mv } else { value };
                    let best2 = if mv < value { line.push(ms[k as int]) } else { best };
                    let beta2 = if beta < value2 { beta } else { value2 };
                    if value2 <= alpha {
                        Some((value2, best2, nodes + n))
                    } else {
                        search_loop(mdl, depth, alpha, beta2, k + 1, value2, best2, nodes + n)
                    }
                }
            },
        }
    }
}

proof fn lemma_search_loop_nodes(
    mdl: Model,
    depth: nat,
    alpha: i32,
    beta: i32,
    k: nat,
    value: i32,
    best: Seq<Move>,
    nodes: nat,
)
    ensures
        search_loop(mdl, depth, alpha, beta, k, value, best, nodes) matches Some((_, _, n)) ==> n >= nodes,
    decreases moves_of(mdl).len() + 1 - k,
{
    let ms = moves_of(mdl);
    if k < ms.len() && depth > 0 && playable(mdl, ms[k as int]) {
        if let Some((mv, line, n)) = search(next_model(mdl, ms[k as int]), (depth - 1) as nat, alpha, beta) {
            let white = mdl.1.side_to_move.0 == 0;
            let value2 = if white { if mv > value { mv } else { value } } else { if mv < value { mv } else { value } };
            let best2 = if (white && mv > value) || (!white && mv < value) { line.push(ms[k as int]) } else { best };
            let alpha2 = if white { if alpha > value2 { alpha } else { value2 } } else { alpha };
            let beta2 = if white { beta } else { if beta < value2 { beta } else { value2 } };
            lemma_search_loop_nodes(mdl, depth, alpha2, beta2, k + 1, value2, best2, nodes + n);
        }
    }
}

/// The value a search of `mdl` starts from before any move: the lowest for
/// white, the highest for black.
pub open spec fn start_value(mdl: Model) -> i32 {
    if mdl.1.side_to_move.0 == 0 { i32::MIN } else { i32::MAX }
}

/// What a search loop keeps of its line: a line that is not empty ends with a
/// legal move of `mdl`, and a value moved off the start comes with a line.
pub open spec fn line_fits(mdl: Model, value: i32, line: Seq<Move>) -> bool {
    &&& (line.len() > 0 ==> moves_of(mdl).contains(line.last()))
    &&& (value != start_value(mdl) ==> line.len() > 0)
}

proof fn lemma_search_loop_line(
    mdl: Model,
    depth: nat,
    alpha: i32,
    beta: i32,
    k: nat,
    value: i32,
    best: Seq<Move>,
    nodes: nat,
)
    requires
        line_fits(mdl, value, best),
    ensures
        search_loop(mdl, depth, alpha, beta, k, value, best, nodes) matches Some((v, line, _)) ==> line_fits(mdl, v, line),
    decreases moves_of(mdl).len() + 1 - k,
{
    let ms = moves_of(mdl);
    if k < ms.len() && depth > 0 && playable(mdl, ms[k as int]) {
        if let Some((mv, line, n)) = search(next_model(mdl, ms[k as int]), (depth - 1) as nat, alpha, beta) {
            let white = mdl.1.side_to_move.0 == 0;
            let value2 = if white { if mv > value { mv } else { value } } else { if mv < value { mv } else { value } };
            let best2 = if (white && mv > value) || (!white && mv < value) { line.push(ms[k as int]) } else { best };
            let alpha2 = if white { if alpha > value2 { alpha } else { value2 } } else { alpha };
            let beta2 = if white { beta } else { if beta < value2 { beta } else { value2 } };
            if (white && mv > value) || (!white && mv < value) {
                assert(best2.last() == ms[k as int]);
                assert(ms.contains(best2.last()));
            }
            lemma_search_loop_line(mdl, depth, alpha2, beta2, k + 1, value2, best2, nodes + n);
        }
    }
}

/// The line a search returns, searching at least one move deep in a game
/// going on, is empty or ends with a legal move of the side to move (the
/// move to play); and it is empty only where the value is still the start
/// value, the lowest for white, the highest for black.
pub proof fn law_search_line_ends_with_a_move(mdl: Model, depth: nat, alpha: i32, beta: i32)
    requires
        depth >= 1,
        eval_of(mdl) is Ongoing,
    ensures
        search(mdl, depth, alpha, beta) matches Some((v, line, _)) ==> line_fits(mdl, v, line),
{
    let start = start_value(mdl);
    assert(line_fits(mdl, start, Seq::empty()));
    lemma_search_loop_line(mdl, depth, alpha, beta, 0, start, Seq::empty(), 0);
}

/// A search that ends visits at least the position it starts from.
proof fn lemma_search_nodes_positive(mdl: Model, depth: nat, alpha: i32, beta: i32)
    ensures
        search(mdl, depth, alpha, beta) matches Some((_, _, n)) ==> n >= 1,
{
}

/// What the search counts.
struct Stats {
    nodes: u64,
}

impl Position {
    /// Searches this position `depth` moves deep (see `search`), adding the
    /// positions visited to `stats`; returns the value and the line of best
    /// moves, its first move last. The position is left as it was.
    #[verifier::rlimit(60)]
    fn alphabeta_with_stats(&mut self, depth: u8, alpha: i32, beta: i32, stats: &mut Stats) -> (r: (i32, Vec<Move>))
        requires
            old(self).wf(),
            search(model(*old(self)), depth as nat, alpha, beta) matches Some((_, _, n)) && old(stats).nodes + n
                <= u64::MAX,
        ensures
            final(self).wf(),
            model(*final(self)) == model(*old(self)),
            final(stats).nodes >= old(stats).nodes,
            search(model(*old(self)), depth as nat, alpha, beta) == Some(
                (r.0, r.1@, (final(stats).nodes - old(stats).nodes) as nat),
            ),
        decreases depth,
    {
        let ghost mdl = model(*self);
        proof {
            lemma_rep(*self);
            lemma_legal_moves_bounded(*self);
        }
        stats.nodes = stats.nodes + 1;
        let (legal_moves, is_in_check) = self.legal_moves_vec();
        let evaluation = self.evaluate(legal_moves.len(), is_in_check);
        if depth == 0 || evaluation.is_terminal() {
            return (evaluation.to_score(), Vec::new());
        }
        let white = self.state().side_to_move.0 == 0;
        let state = self.state().copy();
        let hash = self.hash();
        proof {
            crate::position::lemma_grid_codes(self);
        }
        let mut alpha = alpha;
        let mut beta = beta;
        let mut value: i32 = if white { i32::MIN } else { i32::MAX };
        let mut best_line: Vec<Move> = Vec::new();
        let ghost start_nodes = old(stats).nodes;
        let ghost whole = search_loop(mdl, depth as nat, alpha, beta, 0, value, Seq::empty(), 0);
        let mut i: usize = 0;
        while i < legal_moves.len()
            invariant_except_break
                i <= legal_moves.view().len(),
                search_loop(mdl, depth as nat, alpha, beta, i as nat, value, best_line@, (stats.nodes - start_nodes - 1) as nat)
                    == whole,
            invariant
                self.wf(),
                model(*self) == mdl,
                mdl == (mdl.0, state@, hash),
                mdl.0.len() == 64,
                forall|j: int| 0 <= j < 64 ==> #[trigger] mdl.0[j].0 <= 12,
                state.sound(),
                depth > 0,
                white == (mdl.1.side_to_move.0 == 0),
                legal_moves.view() == moves_of(mdl),
                whole matches Some((_, _, n)) && start_nodes + n + 1 <= u64::MAX,
                stats.nodes >= start_nodes + 1,
            ensures
                whole == Some((value, best_line@, (stats.nodes - start_nodes - 1) as nat)),
            decreases legal_moves.view().len() - i,
        {
            let m = legal_moves.get(i);
            assert(moves_of(mdl)[i as int] == m);
            let ghost acc = (stats.nodes - start_nodes - 1) as nat;
            let capture = play(self, m);
            proof {
                if let Some((mv, line, n)) = search(next_model(mdl, m), (depth - 1) as nat, alpha, beta) {
                    let value2 = if white { if mv > value { mv } else { value } } else { if mv < value { mv } else { value } };
                    let best2 = if (white && mv > value) || (!white && mv < value) { line.push(m) } else { best_line@ };
                    let alpha2 = if white { if alpha > value2 { alpha } else { value2 } } else { alpha };
                    let beta2 = if white { beta } else { if beta < value2 { beta } else { value2 } };
                    lemma_search_loop_nodes(mdl, depth as nat, alpha2, beta2, (i + 1) as nat, value2, best2, acc + n);
                }
            }
            let (move_value, mut line) = self.alphabeta_with_stats(depth - 1, alpha, beta, stats);
            take_back(self, m, capture, &state, hash, Ghost(mdl));
            if white {
                if move_value > value {
                    value = move_value;
                    line.push(m);
                    best_line = line;
                }
                if alpha < value {
                    alpha = value;
                }
                if value >= beta {
                    break;
                }
            } else {
                if move_value < value {
                    value = move_value;
                    line.push(m);
                    best_line = line;
                }
                if value < beta {
                    beta = value;
                }
                if value <= alpha {
                    break;
                }
            }
            i = i + 1;
        }
        (value, best_line)
    }

    /// Searches as `alphabeta_with_stats` does, checking on the way that
    /// every position has both kings, every move can be made and the count
    /// of positions fits; `None` where one of these fails. The position is
    /// left as it was.
    #[verifier::rlimit(80)]
    fn alphabeta_checked(&mut self, depth: u8, alpha: i32, beta: i32, stats: &mut Stats) -> (r: Option<(i32, Vec<Move>)>)
        requires
            old(self).wf(),
        ensures
            final(self).wf(),
            model(*final(self)) == model(*old(self)),
            r matches Some((v, line)) ==> final(stats).nodes >= old(stats).nodes && search(
                model(*old(self)),
                depth as nat,
                alpha,
                beta,
            ) == Some((v, line@, (final(stats).nodes - old(stats).nodes) as nat)),
            r is None ==> !(search(model(*old(self)), depth as nat, alpha, beta) matches Some((_, _, n))
                && old(stats).nodes + n <= u64::MAX),
        decreases depth,
    {
        let ghost mdl = model(*self);
        proof {
            lemma_rep(*self);
            lemma_legal_moves_bounded(*self);
        }
        if !self.has_both_kings() {
            return None;
        }
        if stats.nodes == u64::MAX {
            proof {
                lemma_search_nodes_positive(mdl, depth as nat, alpha, beta);
            }
            return None;
        }
        stats.nodes = stats.nodes + 1;
        let (legal_moves, is_in_check) = self.legal_moves_vec();
        let evaluation = self.evaluate(legal_moves.len(), is_in_check);
        if depth == 0 || evaluation.is_terminal() {
            return Some((evaluation.to_score(), Vec::new()));
        }
        let white = self.state().side_to_move.0 == 0;
        let state = self.state().copy();
        let hash = self.hash();
        proof {
            crate::position::lemma_grid_codes(self);
        }
        let ghost full = search(mdl, depth as nat, alpha, beta);
        let mut lo = alpha;
        let mut hi = beta;
        let mut value: i32 = if white { i32::MIN } else { i32::MAX };
        let mut best_line: Vec<Move> = Vec::new();
        let ghost start_nodes = old(stats).nodes;
        let ghost whole = search_loop(mdl, depth as nat, lo, hi, 0, value, Seq::empty(), 0);
        assert(full == match whole {
            Some((v, line, n)) => Some((v, line, n + 1)),
            None => None,
        });
        let mut i: usize = 0;
        while i < legal_moves.len()
            invariant_except_break
                i <= legal_moves.view().len(),
                search_loop(mdl, depth as nat, lo, hi, i as nat, value, best_line@, (stats.nodes - start_nodes - 1) as nat)
                    == whole,
            invariant
                self.wf(),
                model(*self) == mdl,
                mdl == (mdl.0, state@, hash),
                mdl.0.len() == 64,
                forall|j: int| 0 <= j < 64 ==> #[trigger] mdl.0[j].0 <= 12,
                state.sound(),
                depth > 0,
                white == (mdl.1.side_to_move.0 == 0),
                legal_moves.view() == moves_of(mdl),
                stats.nodes >= start_nodes + 1,
                start_nodes == old(stats).nodes,
                mdl == model(*old(self)),
                full == search(mdl, depth as nat, alpha, beta),
                full == match whole {
                    Some((v, line, n)) => Some((v, line, n + 1)),
                    None => None,
                },
            ensures
                whole == Some((value, best_line@, (stats.nodes - start_nodes - 1) as nat)),
            decreases legal_moves.view().len() - i,
        {
            let m = legal_moves.get(i);
            assert(moves_of(mdl)[i as int] == m);
            let ghost acc = (stats.nodes - start_nodes - 1) as nat;
            if !self.can_play(m) {
                assert(!playable(mdl, moves_of(mdl)[i as int]));
                assert(whole is None);
                return None;
            }
            let capture = play(self, m);
            proof {
                if let Some((mv, line, n)) = search(next_model(mdl, m), (depth - 1) as nat, lo, hi) {
                    let value2 = if white { if mv > value { mv } else { value } } else { if mv < value { mv } else { value } };
                    let best2 = if (white && mv > value) || (!white && mv < value) { line.push(m) } else { best_line@ };
                    let alpha2 = if white { if lo > value2 { lo } else { value2 } } else { lo };
                    let beta2 = if white { hi } else { if hi < value2 { hi } else { value2 } };
                    lemma_search_loop_nodes(mdl, depth as nat, alpha2, beta2, (i + 1) as nat, value2, best2, acc + n);
                }
            }
            let sub = self.alphabeta_checked(depth - 1, lo, hi, stats);
            take_back(self, m, capture, &state, hash, Ghost(mdl));
            let (move_value, mut line) = match sub {
                Some(found) => found,
                None => {
                    assert(!(full matches Some((_, _, n)) && start_nodes + n <= u64::MAX)) by {
                        if let Some((mv, line, n)) = search(next_model(mdl, m), (depth - 1) as nat, lo, hi) {
                            lemma_search_loop_nodes(mdl, depth as nat, lo, hi, i as nat, value, best_line@, acc);
                        }
                    }
                    return None;
                },
            };
            if white {
                if move_value > value {
                    value = move_value;
                    line.push(m);
                    best_line = line;
                }
                if lo < value {
                    lo = value;
                }
                if value >= hi {
                    break;
                }
            } else {
                if move_value < value {
                    value = move_value;
                    line.push(m);
                    best_line = line;
                }
                if value < hi {
                    hi = value;
                }
                if value <= lo {
                    break;
                }
            }
            i = i + 1;
        }
        Some((value, best_line))
    }

    /// Searches this position `depth` moves deep as `alphabeta` does,
    /// checking on the way that every position has both kings, every move
    /// can be made and the count of positions fits in 64 bits: the value,
    /// the line of best moves and the count where `search` finds them and
    /// the count fits, `None` otherwise. The position is left as it was.
    pub fn try_alphabeta(&mut self, depth: u8, alpha: i32, beta: i32) -> (r: Option<(i32, Vec<Move>, u64)>)
        requires
            old(self).wf(),
        ensures
            final(self).wf(),
            model(*final(self)) == model(*old(self)),
            r matches Some((v, line, n)) ==> search(model(*old(self)), depth as nat, alpha, beta) == Some(
                (v, line@, n as nat),
            ),
            r is None ==> !(search(model(*old(self)), depth as nat, alpha, beta) matches Some((_, _, n)) && n
                <= u64::MAX),
    {
        let mut stats = Stats { nodes: 0 };
        match self.alphabeta_checked(depth, alpha, beta, &mut stats) {
            Some((score, line)) => Some((score, line, stats.nodes)),
            None => None,
        }
    }

    /// Searches this position `depth` moves deep (see `search`); returns
    /// the value, the line of best moves (its first move last) and the number
    /// of positions visited. The position is left as it was.
    pub fn alphabeta(&mut self, depth: u8, alpha: i32, beta: i32) -> (r: (i32, Vec<Move>, u64))
        requires
            old(self).wf(),
            search(model(*old(self)), depth as nat, alpha, beta) matches Some((_, _, n)) && n <= u64::MAX,
        ensures
            final(self).wf(),
            model(*final(self)) == model(*old(self)),
            search(model(*old(self)), depth as nat, alpha, beta) == Some((r.0, r.1@, r.2 as nat)),
    {
        let mut stats = Stats { nodes: 0 };
        let (score, line) = self.alphabeta_with_stats(depth, alpha, beta, &mut stats);
        (score, line, stats.nodes)
    }
}

/// The minimax value of the model `mdl` searched `depth` moves deep: at no
/// depth left, or on a finished game, the score of its evaluation (as a
/// 32-bit number); otherwise
/// the largest value over its moves for white, the smallest for black.
pub open spec fn minimax(mdl: Model, depth: nat) -> int
    decreases depth, moves_of(mdl).len() + 2,
{
    if depth == 0 || !(eval_of(mdl) is Ongoing) {
        (score_spec(eval_of(mdl)) as i32) as int
    } else {
        minimax_loop(mdl, depth, 0, if mdl.1.side_to_move.0 == 0 { i32::MIN as int } else { i32::MAX as int })
    }
}

/// The minimax value over the legal moves of `mdl` from the `k`-th on, the
/// best so far being `acc`.
pub open spec fn minimax_loop(mdl: Model, depth: nat, k: nat, acc: int) -> int
    decreases depth, moves_of(mdl).len() + 1 - k,
{
    let ms = moves_of(mdl);
    if k >= ms.len() || depth == 0 {
        acc
    } else {
        let m = minimax(next_model(mdl, ms[k as int]), (depth - 1) as nat);
        let acc2 = if mdl.1.side_to_move.0 == 0 {
            if m > acc { m } else { acc }
        } else {
            if m < acc { m } else { acc }
        };
        minimax_loop(mdl, depth, k + 1, acc2)
    }
}

/// The value a search found, if it found one.
pub open spec fn found_value(r: Option<(i32, Seq<Move>, nat)>) -> i32 {
    match r {
        Some((v, _, _)) => v,
        None => 0,
    }
}

/// How a value found in the window `alpha`, `beta` stands to the minimax
/// value `m`: below the window it bounds `m` from above, above the window
/// from below, inside the window it is `m`.
pub open spec fn within_bounds(v: int, m: int, alpha: int, beta: int) -> bool {
    &&& v <= alpha ==> m <= v
    &&& v >= beta ==> m >= v
    &&& alpha < v < beta ==> m == v
}

proof fn lemma_minimax_loop_grows(mdl: Model, depth: nat, k: nat, acc: int)
    ensures
        mdl.1.side_to_move.0 == 0 ==> minimax_loop(mdl, depth, k, acc) >= acc,
        mdl.1.side_to_move.0 != 0 ==> minimax_loop(mdl, depth, k, acc) <= acc,
    decreases moves_of(mdl).len() + 1 - k,
{
    let ms = moves_of(mdl);
    if k < ms.len() && depth > 0 {
        let m = minimax(next_model(mdl, ms[k as int]), (depth - 1) as nat);
        let acc2 = if mdl.1.side_to_move.0 == 0 {
            if m > acc { m } else { acc }
        } else {
            if m < acc { m } else { acc }
        };
        lemma_minimax_loop_grows(mdl, depth, k + 1, acc2);
    }
}

proof fn lemma_search_bounds(mdl: Model, depth: nat, alpha: i32, beta: i32)
    requires
        alpha < beta,
        search(mdl, depth, alpha, beta) is Some,
    ensures
        within_bounds(found_value(search(mdl, depth, alpha, beta)) as int, minimax(mdl, depth), alpha as int, beta as int),
    decreases depth, moves_of(mdl).len() + 2,
{
    if depth == 0 || !(eval_of(mdl) is Ongoing) {
    } else {
        let white = mdl.1.side_to_move.0 == 0;
        let start = if white { i32::MIN } else { i32::MAX };
        lemma_search_loop_bounds(mdl, depth, alpha, beta, 0, start, Seq::empty(), 0, alpha, beta, start as int);
    }
}

proof fn lemma_search_loop_bounds(
    mdl: Model,
    depth: nat,
    a: i32,
    b: i32,
    k: nat,
    value: i32,
    best: Seq<Move>,
    nodes: nat,
    a0: i32,
    b0: i32,
    acc: int,
)
    requires
        depth > 0,
        a0 < b0,
        search_loop(mdl, depth, a, b, k, value, best, nodes) is Some,
        mdl.1.side_to_move.0 == 0 ==> {
            &&& b == b0
            &&& a as int == (if a0 > value { a0 as int } else { value as int })
            &&& value < b0
            &&& acc <= value
            &&& value > a0 ==> acc >= value
        },
        mdl.1.side_to_move.0 != 0 ==> {
            &&& a == a0
            &&& b as int == (if b0 < value { b0 as int } else { value as int })
            &&& value > a0
            &&& acc >= value
            &&& value < b0 ==> acc <= value
        },
    ensures
        within_bounds(
            found_value(search_loop(mdl, depth, a, b, k, value, best, nodes)) as int,
            minimax_loop(mdl, depth, k, acc),
            a0 as int,
            b0 as int,
        ),
    decreases depth, moves_of(mdl).len() + 1 - k,
{
    let ms = moves_of(mdl);
    if k < ms.len() {
        let c = next_model(mdl, ms[k as int]);
        lemma_search_bounds(c, (depth - 1) as nat, a, b);
        let (mv, line, n) = match search(c, (depth - 1) as nat, a, b) {
            Some(t) => t,
            None => (0i32, Seq::empty(), 0nat),
        };
        let mc = minimax(c, (depth - 1) as nat);
        if mdl.1.side_to_move.0 == 0 {
            let value2 = if mv > value { mv } else { value };
            let best2 = if mv > value { line.push(ms[k as int]) } else { best };
            let alpha2 = if a > value2 { a } else { value2 };
            let acc2 = if mc > acc { mc } else { acc };
            if value2 >= b {
                lemma_minimax_loop_grows(mdl, depth, k + 1, acc2);
            } else {
                lemma_search_loop_bounds(mdl, depth, alpha2, b, k + 1, value2, best2, nodes + n, a0, b0, acc2);
            }
        } else {
            let value2 = if mv < value { mv } else { value };
            let best2 = if mv < value { line.push(ms[k as int]) } else { best };
            let beta2 = if b < value2 { b } else { value2 };
            let acc2 = if mc < acc { mc } else { acc };
            if value2 <= a {
                lemma_minimax_loop_grows(mdl, depth, k + 1, acc2);
            } else {
                lemma_search_loop_bounds(mdl, depth, a, beta2, k + 1, value2, best2, nodes + n, a0, b0, acc2);
            }
        }
    }
}

/// Alpha-beta search finds the minimax value when it lies inside the
/// window; a value found below the window is at least the minimax value, and
/// one found above it at most the minimax value.
pub proof fn law_alphabeta_minimax(mdl: Model, depth: nat, alpha: i32, beta: i32)
    requires
        alpha < beta,
        search(mdl, depth, alpha, beta) is Some,
    ensures
        within_bounds(found_value(search(mdl, depth, alpha, beta)) as int, minimax(mdl, depth), alpha as int, beta as int),
{
    lemma_search_bounds(mdl, depth, alpha, beta);
}

proof fn lemma_minimax_range(mdl: Model, depth: nat)
    ensures
        i32::MIN <= minimax(mdl, depth) <= i32::MAX,
    decreases depth, moves_of(mdl).len() + 2,
{
    if depth == 0 || !(eval_of(mdl) is Ongoing) {
    } else {
        let start = if mdl.1.side_to_move.0 == 0 { i32::MIN as int } else { i32::MAX as int };
        lemma_minimax_loop_range(mdl, depth, 0, start);
    }
}

proof fn lemma_minimax_loop_range(mdl: Model, depth: nat, k: nat, acc: int)
    requires
        i32::MIN <= acc <= i32::MAX,
    ensures
        i32::MIN <= minimax_loop(mdl, depth, k, acc) <= i32::MAX,
    decreases depth, moves_of(mdl).len() + 1 - k,
{
    let ms = moves_of(mdl);
    if k < ms.len() && depth > 0 {
        let c = next_model(mdl, ms[k as int]);
        lemma_minimax_range(c, (depth - 1) as nat);
        let m = minimax(c, (depth - 1) as nat);
        let acc2 = if mdl.1.side_to_move.0 == 0 {
            if m > acc { m } else { acc }
        } else {
            if m < acc { m } else { acc }
        };
        lemma_minimax_loop_range(mdl, depth, k + 1, acc2);
    }
}

/// Searching with the widest window finds the minimax value.
pub proof fn law_alphabeta_full_window(mdl: Model, depth: nat)
    requires
        search(mdl, depth, i32::MIN, i32::MAX) is Some,
    ensures
        found_value(search(mdl, depth, i32::MIN, i32::MAX)) as int == minimax(mdl, depth),
{
    lemma_search_bounds(mdl, depth, i32::MIN, i32::MAX);
    lemma_minimax_range(mdl, depth);
}

} // verus!
