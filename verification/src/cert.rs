//! The "mini rook chess" nonloss certificate: a decision DAG over 36
//! relational features that describes an inductive safe region for one side
//! (the "protected" side), and the obligations that make it a constructive
//! nonloss proof:
//!
//! * the start position is in the region for both perspectives;
//! * at the protected side's turn, some legal move stays in the region
//!   (or the position is a stalemate);
//! * at the opponent's turn, every legal move stays in the region;
//! * no position in the region has the protected side checkmated.
//!
//! Features are computed through the `Oracle` trait so the same code runs
//! on a concrete `Position` and on a superposed region.

use vstd::prelude::*;
use crate::board::{
    Answers, Blocked, Color, Kind, Move, Oracle, Played, Position, Res, Setup, SlotId, Sq, file_of, rank_of,
    flip_spec, king_slot_spec, is_king_of, in_check, legal_moves, in_check_spec, legal_moves_spec, played,
    fits, answers_fit, lemma_played_fits, lemma_legal_moves_ok, moves_ok, move_ok, on_board, lemma_coords,
    lemma_square_coords, position_answers, never_blocks, lemma_in_check_never_blocks,
    lemma_legal_moves_never_blocks, lemma_position_fits, play_spec, errs_within, lemma_played_errs,
    lemma_in_check_errs, lemma_legal_moves_errs,
};
use crate::certs::{Cert, node_ok};
use crate::retro::{
    Table, Val, size_spec, position_sqs, position_stm, lemma_position_wf, lemma_played_in_range, squares_below, count_upto,
    moves_at, after_at, succ_at, pos_answers, index_spec, lemma_index_of_position, reaches, reach_pred, is_path,
    lemma_reaches_step, lemma_closed_holds_reachable, lemma_succ_in_range, lemma_position_of_index,
};

verus! {

pub const NFEAT: usize = 36;

/// The name of feature `i`.
pub open spec fn feature_name_spec(i: int) -> Seq<char> {
    if i == 0 { "opponent_to_move"@ }
    else if i == 1 { "own_rook_missing"@ }
    else if i == 2 { "opponent_rook_missing"@ }
    else if i == 3 { "own_king_edge_distance"@ }
    else if i == 4 { "own_king_corner"@ }
    else if i == 5 { "opponent_king_edge_distance"@ }
    else if i == 6 { "opponent_king_corner"@ }
    else if i == 7 { "own_rook_edge_distance"@ }
    else if i == 8 { "own_rook_corner"@ }
    else if i == 9 { "opponent_rook_edge_distance"@ }
    else if i == 10 { "opponent_rook_corner"@ }
    else if i == 11 { "kings_distance"@ }
    else if i == 12 { "kings_aligned"@ }
    else if i == 13 { "kings_clear_ray"@ }
    else if i == 14 { "own_king_rook_distance"@ }
    else if i == 15 { "own_king_rook_aligned"@ }
    else if i == 16 { "own_king_rook_clear_ray"@ }
    else if i == 17 { "opponent_king_rook_distance"@ }
    else if i == 18 { "opponent_king_rook_aligned"@ }
    else if i == 19 { "opponent_king_rook_clear_ray"@ }
    else if i == 20 { "own_king_enemy_rook_distance"@ }
    else if i == 21 { "own_king_enemy_rook_aligned"@ }
    else if i == 22 { "own_king_enemy_rook_clear_ray"@ }
    else if i == 23 { "opponent_king_enemy_rook_distance"@ }
    else if i == 24 { "opponent_king_enemy_rook_aligned"@ }
    else if i == 25 { "opponent_king_enemy_rook_clear_ray"@ }
    else if i == 26 { "rooks_distance"@ }
    else if i == 27 { "rooks_aligned"@ }
    else if i == 28 { "rooks_clear_ray"@ }
    else if i == 29 { "in_check"@ }
    else if i == 30 { "legal_move_count"@ }
    else if i == 31 { "can_remove_opponent_rook"@ }
    else if i == 32 { "can_remove_own_rook"@ }
    else if i == 33 { "can_give_check"@ }
    else if i == 34 { "can_mate"@ }
    else { "can_stalemate"@ }
}

/// The name of feature `i`, as the certificate files spell it.
pub fn feature_name(i: usize) -> (r: &'static str)
    requires
        i < NFEAT,
    ensures
        r@ == feature_name_spec(i as int),
{
    if i == 0 { "opponent_to_move" }
    else if i == 1 { "own_rook_missing" }
    else if i == 2 { "opponent_rook_missing" }
    else if i == 3 { "own_king_edge_distance" }
    else if i == 4 { "own_king_corner" }
    else if i == 5 { "opponent_king_edge_distance" }
    else if i == 6 { "opponent_king_corner" }
    else if i == 7 { "own_rook_edge_distance" }
    else if i == 8 { "own_rook_corner" }
    else if i == 9 { "opponent_rook_edge_distance" }
    else if i == 10 { "opponent_rook_corner" }
    else if i == 11 { "kings_distance" }
    else if i == 12 { "kings_aligned" }
    else if i == 13 { "kings_clear_ray" }
    else if i == 14 { "own_king_rook_distance" }
    else if i == 15 { "own_king_rook_aligned" }
    else if i == 16 { "own_king_rook_clear_ray" }
    else if i == 17 { "opponent_king_rook_distance" }
    else if i == 18 { "opponent_king_rook_aligned" }
    else if i == 19 { "opponent_king_rook_clear_ray" }
    else if i == 20 { "own_king_enemy_rook_distance" }
    else if i == 21 { "own_king_enemy_rook_aligned" }
    else if i == 22 { "own_king_enemy_rook_clear_ray" }
    else if i == 23 { "opponent_king_enemy_rook_distance" }
    else if i == 24 { "opponent_king_enemy_rook_aligned" }
    else if i == 25 { "opponent_king_enemy_rook_clear_ray" }
    else if i == 26 { "rooks_distance" }
    else if i == 27 { "rooks_aligned" }
    else if i == 28 { "rooks_clear_ray" }
    else if i == 29 { "in_check" }
    else if i == 30 { "legal_move_count" }
    else if i == 31 { "can_remove_opponent_rook" }
    else if i == 32 { "can_remove_own_rook" }
    else if i == 33 { "can_give_check" }
    else if i == 34 { "can_mate" }
    else { "can_stalemate" }
}

// ---------------------------------------------------------------------
// Roles
// ---------------------------------------------------------------------

/// The slot holds the rook of colour `c`.
pub open spec fn is_rook_of(x: (Color, Kind), c: Color) -> bool {
    x.0 == c && x.1 == Kind::Rook
}

/// Exactly one slot holds a rook of colour `c`.
pub open spec fn one_rook(slots: Seq<(Color, Kind)>, c: Color) -> bool {
    &&& exists|s: int| 0 <= s < slots.len() && #[trigger] is_rook_of(slots[s], c)
    &&& forall|s: int, t: int|
        0 <= s < slots.len() && 0 <= t < slots.len() && #[trigger] is_rook_of(slots[s], c) && #[trigger] is_rook_of(
            slots[t],
            c,
        ) ==> s == t
}

/// Slot roles from the protected side's perspective (the certificate is
/// written for "White"; the other colour is handled by relabeling).
#[derive(Clone, Copy, Debug)]
pub struct Roles {
    pub protected: Color,
    pub own_k: SlotId,
    pub own_r: SlotId,
    pub opp_k: SlotId,
    pub opp_r: SlotId,
}

/// The rook of colour `c`.
pub open spec fn rook_spec(slots: Seq<(Color, Kind)>, c: Color) -> int {
    choose|s: int| 0 <= s < slots.len() && #[trigger] is_rook_of(slots[s], c)
}

/// The roles of a setup with one king and one rook per side.
pub open spec fn roles_spec(setup: &Setup, protected: Color) -> Roles {
    Roles {
        protected,
        own_k: king_slot_spec(setup.slots@, protected) as SlotId,
        own_r: rook_spec(setup.slots@, protected) as SlotId,
        opp_k: king_slot_spec(setup.slots@, flip_spec(protected)) as SlotId,
        opp_r: rook_spec(setup.slots@, flip_spec(protected)) as SlotId,
    }
}

/// The rook of colour `c`.
fn rook_of(setup: &Setup, c: Color) -> (s: SlotId)
    requires
        setup.wf(),
        one_rook(setup.slots@, c),
    ensures
        s < setup.slots.len(),
        is_rook_of(setup.slots@[s as int], c),
        s == rook_spec(setup.slots@, c),
{
    let mut i: usize = 0;
    while i < setup.slots.len()
        invariant
            setup.wf(),
            one_rook(setup.slots@, c),
            0 <= i <= setup.slots.len(),
            forall|j: int| 0 <= j < i ==> !#[trigger] is_rook_of(setup.slots@[j], c),
        decreases setup.slots.len() - i,
    {
        if setup.slots[i].0 == c && setup.slots[i].1 == Kind::Rook {
            proof {
                let w = rook_spec(setup.slots@, c);
                assert(is_rook_of(setup.slots@[i as int], c));
                assert(is_rook_of(setup.slots@[w], c));
            }
            return i as SlotId;
        }
        i += 1;
    }
    proof {
        let s = choose|s: int| 0 <= s < setup.slots.len() && #[trigger] is_rook_of(setup.slots@[s], c);
        assert(!is_rook_of(setup.slots@[s], c));
    }
    0
}

impl Roles {
    /// The roles name the kings and the rooks of both sides.
    pub open spec fn wf(&self, setup: &Setup) -> bool {
        &&& self.own_k == king_slot_spec(setup.slots@, self.protected)
        &&& self.opp_k == king_slot_spec(setup.slots@, flip_spec(self.protected))
        &&& self.own_k < setup.slots.len()
        &&& self.opp_k < setup.slots.len()
        &&& self.own_r < setup.slots.len()
        &&& self.opp_r < setup.slots.len()
        &&& is_king_of(setup.slots@[self.own_k as int], self.protected)
        &&& is_king_of(setup.slots@[self.opp_k as int], flip_spec(self.protected))
        &&& is_rook_of(setup.slots@[self.own_r as int], self.protected)
        &&& is_rook_of(setup.slots@[self.opp_r as int], flip_spec(self.protected))
    }

    pub fn new(setup: &Setup, protected: Color) -> (r: Roles)
        requires
            setup.wf(),
            one_rook(setup.slots@, Color::White),
            one_rook(setup.slots@, Color::Black),
        ensures
            r.wf(setup),
            r.protected == protected,
            r == roles_spec(setup, protected),
    {
        let opp = protected.flip();
        proof {
            assert(one_rook(setup.slots@, protected) && one_rook(setup.slots@, opp)) by {
                if protected == Color::White {
                } else {
                }
            }
        }
        Roles {
            protected,
            own_k: setup.king_slot(protected),
            own_r: rook_of(setup, protected),
            opp_k: setup.king_slot(opp),
            opp_r: rook_of(setup, opp),
        }
    }

    /// Slots in the certificate's normalized order [own K, own R, opp K, opp R].
    pub fn order(&self) -> (r: [SlotId; 4])
        ensures
            r@ == seq![self.own_k, self.own_r, self.opp_k, self.opp_r],
    {
        let r = [self.own_k, self.own_r, self.opp_k, self.opp_r];
        proof {
            assert(r@ =~= seq![self.own_k, self.own_r, self.opp_k, self.opp_r]);
        }
        r
    }
}

/// The slot whose edge and corner features come `j`-th: own king,
/// opponent king, own rook, opponent rook.
pub open spec fn piece_of(roles: Roles, j: int) -> SlotId {
    if j == 0 {
        roles.own_k
    } else if j == 1 {
        roles.opp_k
    } else if j == 2 {
        roles.own_r
    } else {
        roles.opp_r
    }
}

/// The pair whose distance, alignment and clear-ray features come `k`-th.
pub open spec fn pair_of(roles: Roles, k: int) -> (SlotId, SlotId) {
    if k == 0 {
        (roles.own_k, roles.opp_k)
    } else if k == 1 {
        (roles.own_k, roles.own_r)
    } else if k == 2 {
        (roles.opp_k, roles.opp_r)
    } else if k == 3 {
        (roles.own_k, roles.opp_r)
    } else if k == 4 {
        (roles.opp_k, roles.own_r)
    } else {
        (roles.own_r, roles.opp_r)
    }
}

/// The six slot pairs of the pair features, in feature order.
pub fn pair_slots(roles: &Roles) -> (r: [(SlotId, SlotId); 6])
    ensures
        forall|k: int| 0 <= k < 6 ==> #[trigger] r@[k] == pair_of(*roles, k),
{
    let r = [
        (roles.own_k, roles.opp_k),
        (roles.own_k, roles.own_r),
        (roles.opp_k, roles.opp_r),
        (roles.own_k, roles.opp_r),
        (roles.opp_k, roles.own_r),
        (roles.own_r, roles.opp_r),
    ];
    r
}

// ---------------------------------------------------------------------
// Geometry
// ---------------------------------------------------------------------

pub open spec fn abs_spec(x: int) -> int {
    if x < 0 {
        -x
    } else {
        x
    }
}

pub open spec fn max_spec(x: int, y: int) -> int {
    if x < y {
        y
    } else {
        x
    }
}

pub open spec fn min_spec(x: int, y: int) -> int {
    if x < y {
        x
    } else {
        y
    }
}

pub open spec fn sgn(x: int) -> int {
    if x > 0 {
        1
    } else if x < 0 {
        -1
    } else {
        0
    }
}

/// Chebyshev distance: king steps between two squares.
pub open spec fn cheb(n: u8, p: int, q: int) -> int {
    max_spec(abs_spec(file_of(n, p) - file_of(n, q)), abs_spec(rank_of(n, p) - rank_of(n, q)))
}

/// Same file or same rank (a square is on a line with itself).
pub open spec fn line_spec(n: u8, p: int, q: int) -> bool {
    file_of(n, p) == file_of(n, q) || rank_of(n, p) == rank_of(n, q)
}

/// Distance to the nearest edge.
pub open spec fn edge_spec(n: u8, p: int) -> int {
    let x = file_of(n, p);
    let y = rank_of(n, p);
    min_spec(min_spec(min_spec(x, y), n - 1 - x), n - 1 - y)
}

/// A corner square.
pub open spec fn corner_spec(n: u8, p: int) -> bool {
    let x = file_of(n, p);
    let y = rank_of(n, p);
    (x == 0 || x == n - 1) && (y == 0 || y == n - 1)
}

/// Chebyshev distance.
fn distance(setup: &Setup, p: Sq, q: Sq) -> (r: i32)
    requires
        setup.n > 0,
    ensures
        r == cheb(setup.n, p as int, q as int),
{
    let (px, py) = setup.file_rank(p);
    let (qx, qy) = setup.file_rank(q);
    let dx = if px < qx {
        qx - px
    } else {
        px - qx
    };
    let dy = if py < qy {
        qy - py
    } else {
        py - qy
    };
    if dx < dy {
        dy
    } else {
        dx
    }
}

fn aligned(setup: &Setup, p: Sq, q: Sq) -> (r: bool)
    requires
        setup.n > 0,
    ensures
        r == line_spec(setup.n, p as int, q as int),
{
    let (px, py) = setup.file_rank(p);
    let (qx, qy) = setup.file_rank(q);
    px == qx || py == qy
}

/// From file `f`, rank `r`, looking at `k` squares one step `(df, dr)`
/// apart: the first occupied square makes it blocked, the first undecided
/// one leaves it undecided.
pub open spec fn walk_clear(n: u8, a: Answers, f: int, r: int, df: int, dr: int, k: nat) -> Res<bool>
    decreases k,
{
    if k == 0 {
        Ok(true)
    } else {
        match (a.0)((r * n + f) as Sq) {
            Err(b) => Err(b),
            Ok(Some(_)) => Ok(false),
            Ok(None) => walk_clear(n, a, f + df, r + dr, df, dr, (k - 1) as nat),
        }
    }
}

/// Distinct squares on a line with no piece strictly between, walked from
/// `p` towards `q`.
pub open spec fn clear_spec(setup: &Setup, a: Answers, p: int, q: int) -> Res<bool> {
    let n = setup.n;
    if p == q || !line_spec(n, p, q) {
        Ok(false)
    } else {
        let df = sgn(file_of(n, q) - file_of(n, p));
        let dr = sgn(rank_of(n, q) - rank_of(n, p));
        walk_clear(n, a, file_of(n, p) + df, rank_of(n, p) + dr, df, dr, (cheb(n, p, q) - 1) as nat)
    }
}

/// Aligned and no piece strictly between. Walks the squares between with
/// `at`, so that a region answers without locating every piece.
fn clear<O: Oracle>(setup: &Setup, o: &O, log: &mut O::Log, p: Sq, q: Sq) -> (r: Res<bool>)
    requires
        setup.wf(),
        o.log_ok(old(log)),
        p < setup.area_spec(),
        q < setup.area_spec(),
    ensures
        o.log_ok(final(log)),
        r == clear_spec(setup, o.answers(), p as int, q as int),
{
    let ghost n = setup.n;
    let ghost a = o.answers();
    if p == q || !aligned(setup, p, q) {
        return Ok(false);
    }
    proof {
        lemma_square_coords(n, p as int);
        lemma_square_coords(n, q as int);
    }
    let (px, py) = setup.file_rank(p);
    let (qx, qy) = setup.file_rank(q);
    let df: i32 = if qx > px {
        1
    } else if qx < px {
        -1
    } else {
        0
    };
    let dr: i32 = if qy > py {
        1
    } else if qy < py {
        -1
    } else {
        0
    };
    proof {
        if py == qy {
            assert(px != qx) by {
                if px == qx {
                    assert(rank_of(n, p as int) * n + file_of(n, p as int) == p);
                    assert(rank_of(n, q as int) * n + file_of(n, q as int) == q);
                }
            }
        }
    }
    let mut cf = px + df;
    let mut cr = py + dr;
    let ghost mut rem: nat = (cheb(n, p as int, q as int) - 1) as nat;
    while cf != qx || cr != qy
        invariant
            setup.wf(),
            n == setup.n,
            a == o.answers(),
            o.log_ok(log),
            on_board(n, px as int, py as int),
            on_board(n, qx as int, qy as int),
            py == qy ==> dr == 0 && cr == py && (df == 1 ==> px < cf <= qx) && (df == -1 ==> qx <= cf < px) && (df == 1
                || df == -1) && rem == abs_spec(qx - cf),
            py != qy ==> px == qx && df == 0 && cf == px && (dr == 1 ==> py < cr <= qy) && (dr == -1 ==> qy <= cr < py)
                && (dr == 1 || dr == -1) && rem == abs_spec(qy - cr),
            clear_spec(setup, a, p as int, q as int) == walk_clear(n, a, cf as int, cr as int, df as int, dr as int, rem),
        decreases rem,
    {
        proof {
            lemma_coords(n, cf as int, cr as int);
        }
        let cur = setup.sq(cf, cr).unwrap();
        let occ = o.at(log, cur);
        proof {
            assert(rem > 0);
            assert(cur == (cr * n + cf) as Sq);
        }
        match occ {
            Err(b) => {
                return Err(b);
            },
            Ok(Some(_)) => {
                return Ok(false);
            },
            Ok(None) => {},
        }
        cf = cf + df;
        cr = cr + dr;
        proof {
            rem = (rem - 1) as nat;
        }
    }
    Ok(true)
}

// ---------------------------------------------------------------------
// Features
// ---------------------------------------------------------------------

pub open spec fn b2i(b: bool) -> int {
    if b {
        1
    } else {
        0
    }
}

pub open spec fn res_int(r: Res<i32>) -> Res<int> {
    match r {
        Ok(v) => Ok(v as int),
        Err(b) => Err(b),
    }
}

/// One tactical question about move `m` (seen from `stm`, the mover):
/// `w` = 0 it takes the opponent's rook while the own rook stays, 1 the own
/// rook is gone afterwards, 2 it gives check, 3 it mates, 4 it stalemates.
pub open spec fn tactic(setup: &Setup, a: Answers, stm: Color, roles: Roles, m: Move, w: int) -> Res<bool> {
    let t = played(a, m);
    if w == 0 {
        match (t.1)(roles.opp_r) {
            Err(b) => Err(b),
            Ok(o) => match (t.1)(roles.own_r) {
                Err(b) => Err(b),
                Ok(x) => Ok(o is None && x is Some),
            },
        }
    } else if w == 1 {
        match (t.1)(roles.own_r) {
            Err(b) => Err(b),
            Ok(x) => Ok(x is None),
        }
    } else {
        match in_check_spec(setup, t, flip_spec(stm)) {
            Err(b) => Err(b),
            Ok(chk) => if w == 2 {
                Ok(chk)
            } else {
                match legal_moves_spec(setup, t, flip_spec(stm)) {
                    Err(b) => Err(b),
                    Ok(rs) => Ok(
                        if w == 3 {
                            chk && rs.len() == 0
                        } else {
                            !chk && rs.len() == 0
                        },
                    ),
                }
            },
        }
    }
}

/// Does some of the first `k` moves answer tactic `w`? Moves are asked in
/// order; the first undecided answer is the result.
pub open spec fn tactic_upto(setup: &Setup, a: Answers, stm: Color, roles: Roles, ms: Seq<Move>, w: int, k: int) -> Res<bool>
    decreases k,
{
    if k <= 0 {
        Ok(false)
    } else {
        match tactic_upto(setup, a, stm, roles, ms, w, k - 1) {
            Err(b) => Err(b),
            Ok(acc) => match tactic(setup, a, stm, roles, ms[k - 1], w) {
                Err(b) => Err(b),
                Ok(x) => Ok(acc || x),
            },
        }
    }
}

/// Feature `i` of the position the answers describe, `stm` to move, from
/// the protected side's perspective; or the query it could not decide.
pub open spec fn feature_spec(setup: &Setup, a: Answers, stm: Color, roles: Roles, i: int) -> Res<int> {
    let n = setup.n;
    if i == 0 {
        Ok(b2i(stm != roles.protected))
    } else if i <= 2 {
        match (a.1)(
            if i == 1 {
                roles.own_r
            } else {
                roles.opp_r
            },
        ) {
            Err(b) => Err(b),
            Ok(x) => Ok(b2i(x is None)),
        }
    } else if i < 11 {
        match (a.1)(piece_of(roles, (i - 3) / 2)) {
            Err(b) => Err(b),
            Ok(None) => Ok(
                if (i - 3) % 2 == 0 {
                    -1
                } else {
                    0
                },
            ),
            Ok(Some(p)) => Ok(
                if (i - 3) % 2 == 0 {
                    edge_spec(n, p as int)
                } else {
                    b2i(corner_spec(n, p as int))
                },
            ),
        }
    } else if i < 29 {
        let xy = pair_of(roles, (i - 11) / 3);
        let sub = (i - 11) % 3;
        match (a.1)(xy.0) {
            Err(b) => Err(b),
            Ok(px) => match (a.1)(xy.1) {
                Err(b) => Err(b),
                Ok(py) => if px is Some && py is Some {
                    let p = px->Some_0 as int;
                    let q = py->Some_0 as int;
                    if sub == 0 {
                        Ok(cheb(n, p, q))
                    } else if sub == 1 {
                        Ok(b2i(line_spec(n, p, q)))
                    } else {
                        match clear_spec(setup, a, p, q) {
                            Err(b) => Err(b),
                            Ok(c) => Ok(b2i(c)),
                        }
                    }
                } else {
                    Ok(
                        if sub == 0 {
                            99
                        } else {
                            0
                        },
                    )
                },
            },
        }
    } else if i == 29 {
        match in_check_spec(setup, a, stm) {
            Err(b) => Err(b),
            Ok(c) => Ok(b2i(c)),
        }
    } else {
        match legal_moves_spec(setup, a, stm) {
            Err(b) => Err(b),
            Ok(ms) => if i == 30 {
                Ok((ms.len() as i32) as int)
            } else {
                match tactic_upto(setup, a, stm, roles, ms, i - 31, ms.len() as int) {
                    Err(b) => Err(b),
                    Ok(c) => Ok(b2i(c)),
                }
            },
        }
    }
}

/// The feature values of the position the answers describe.
pub open spec fn feature_fn(setup: &Setup, a: Answers, stm: Color, roles: Roles) -> spec_fn(int) -> Res<int> {
    |i: int| feature_spec(setup, a, stm, roles, i)
}

/// Tactic `w` of move `m`.
fn tactic_exec<O: Oracle>(setup: &Setup, o: &O, log: &mut O::Log, stm: Color, roles: &Roles, m: Move, w: usize) -> (r: Res<bool>)
    requires
        fits(setup, o),
        o.log_ok(old(log)),
        roles.wf(setup),
        move_ok(setup, m),
    ensures
        o.log_ok(final(log)),
        r == tactic(setup, o.answers(), stm, *roles, m, w as int),
{
    proof {
        lemma_played_fits(setup, o.answers(), m);
    }
    let t = Played { base: o, mv: m };
    if w == 0 {
        let opp = t.locate(log, roles.opp_r)?;
        let own = t.locate(log, roles.own_r)?;
        Ok(opp.is_none() && own.is_some())
    } else if w == 1 {
        let own = t.locate(log, roles.own_r)?;
        Ok(own.is_none())
    } else {
        let chk = in_check(setup, &t, log, stm.flip())?;
        if w == 2 {
            Ok(chk)
        } else {
            let replies = legal_moves(setup, &t, log, stm.flip())?;
            if w == 3 {
                Ok(chk && replies.len() == 0)
            } else {
                Ok(!chk && replies.len() == 0)
            }
        }
    }
}

/// Feature `i` (see [`feature_name`]) of the position seen by `o` with
/// `stm` to move, from the perspective of `roles.protected`.
pub fn feature<O: Oracle>(setup: &Setup, o: &O, log: &mut O::Log, stm: Color, roles: &Roles, i: usize) -> (r: Res<i32>)
    requires
        fits(setup, o),
        o.log_ok(old(log)),
        roles.wf(setup),
        i < NFEAT,
    ensures
        o.log_ok(final(log)),
        res_int(r) == feature_spec(setup, o.answers(), stm, *roles, i as int),
{
    let ghost a = o.answers();
    let n = setup.n as i32;
    if i == 0 {
        return Ok(if stm != roles.protected {
            1
        } else {
            0
        });
    }
    if i <= 2 {
        let s = if i == 1 {
            roles.own_r
        } else {
            roles.opp_r
        };
        let x = o.locate(log, s)?;
        return Ok(if x.is_none() {
            1
        } else {
            0
        });
    }
    if i < 11 {
        let j = (i - 3) / 2;
        let s = if j == 0 {
            roles.own_k
        } else if j == 1 {
            roles.opp_k
        } else if j == 2 {
            roles.own_r
        } else {
            roles.opp_r
        };
        let x = o.locate(log, s)?;
        return match x {
            None => Ok(if (i - 3) % 2 == 0 {
                -1
            } else {
                0
            }),
            Some(p) => {
                let (x, y) = setup.file_rank(p);
                if (i - 3) % 2 == 0 {
                    let m1 = if x < y {
                        x
                    } else {
                        y
                    };
                    let m2 = if m1 < n - 1 - x {
                        m1
                    } else {
                        n - 1 - x
                    };
                    Ok(if m2 < n - 1 - y {
                        m2
                    } else {
                        n - 1 - y
                    })
                } else {
                    Ok(if (x == 0 || x == n - 1) && (y == 0 || y == n - 1) {
                        1
                    } else {
                        0
                    })
                }
            },
        };
    }
    if i < 29 {
        let k = (i - 11) / 3;
        let sub = (i - 11) % 3;
        let pairs = pair_slots(roles);
        let (sa, sb) = pairs[k];
        let pa = o.locate(log, sa)?;
        let pb = o.locate(log, sb)?;
        return match (pa, pb) {
            (Some(p), Some(q)) => {
                if sub == 0 {
                    Ok(distance(setup, p, q))
                } else if sub == 1 {
                    Ok(if aligned(setup, p, q) {
                        1
                    } else {
                        0
                    })
                } else {
                    let c = clear(setup, o, log, p, q)?;
                    Ok(if c {
                        1
                    } else {
                        0
                    })
                }
            },
            _ => Ok(if sub == 0 {
                99
            } else {
                0
            }),
        };
    }
    if i == 29 {
        let c = in_check(setup, o, log, stm)?;
        return Ok(if c {
            1
        } else {
            0
        });
    }
    let moves = legal_moves(setup, o, log, stm)?;
    proof {
        lemma_legal_moves_ok(setup, a, stm);
    }
    if i == 30 {
        return Ok(moves.len() as i32);
    }
    let c = tactic_any(setup, o, log, stm, roles, &moves, i - 31)?;
    Ok(if c {
        1
    } else {
        0
    })
}

/// Does some move answer tactic `w`?
fn tactic_any<O: Oracle>(setup: &Setup, o: &O, log: &mut O::Log, stm: Color, roles: &Roles, moves: &Vec<Move>, w: usize) -> (r: Res<bool>)
    requires
        fits(setup, o),
        o.log_ok(old(log)),
        roles.wf(setup),
        moves_ok(setup, moves@),
        w < 5,
    ensures
        o.log_ok(final(log)),
        r == tactic_upto(setup, o.answers(), stm, *roles, moves@, w as int, moves.len() as int),
{
    let ghost a = o.answers();
    let mut acc = false;
    let mut k: usize = 0;
    while k < moves.len()
        invariant
            fits(setup, o),
            o.log_ok(log),
            roles.wf(setup),
            a == o.answers(),
            moves_ok(setup, moves@),
            w < 5,
            0 <= k <= moves.len(),
            tactic_upto(setup, a, stm, *roles, moves@, w as int, k as int) == Ok::<bool, Blocked>(acc),
        decreases moves.len() - k,
    {
        let x = tactic_exec(setup, o, log, stm, roles, moves[k], w);
        match x {
            Err(b) => {
                proof {
                    assert(tactic_upto(setup, a, stm, *roles, moves@, w as int, k as int + 1) == Err::<bool, Blocked>(b));
                    lemma_tactic_err(setup, a, stm, *roles, moves@, w as int, k as int + 1, moves.len() as int, b);
                }
                return Err(b);
            },
            Ok(v) => {
                acc = acc || v;
            },
        }
        k += 1;
    }
    Ok(acc)
}

/// Once undecided, the tactic stays undecided over more moves.
proof fn lemma_tactic_err(setup: &Setup, a: Answers, stm: Color, roles: Roles, ms: Seq<Move>, w: int, k: int, m: int, b: Blocked)
    requires
        1 <= k <= m,
        tactic_upto(setup, a, stm, roles, ms, w, k) == Err::<bool, Blocked>(b),
    ensures
        tactic_upto(setup, a, stm, roles, ms, w, m) == Err::<bool, Blocked>(b),
    decreases m - k,
{
    if k < m {
        lemma_tactic_err(setup, a, stm, roles, ms, w, k, m - 1, b);
    }
}

// ---------------------------------------------------------------------
// Walking the certificate
// ---------------------------------------------------------------------

/// The walk of the DAG from `node`, with feature values `fv`: ids 0/1 are
/// the false/true terminals. The first undecided feature is the result.
pub open spec fn eval_res(cert: &Cert, fv: spec_fn(int) -> Res<int>, node: int) -> Res<bool>
    decreases node,
{
    if node < 2 || node >= cert.nodes.len() + 2 {
        Ok(node == 1)
    } else {
        let nd = cert.nodes@[node - 2];
        match fv(nd@[0] as int) {
            Err(b) => Err(b),
            Ok(x) => {
                let next = if x <= nd@[1] {
                    nd@[2]
                } else {
                    nd@[3]
                };
                if 0 <= next < node {
                    eval_res(cert, fv, next as int)
                } else {
                    Ok(false)
                }
            },
        }
    }
}

/// The values of a feature vector.
pub open spec fn vector_fv(f: Seq<i32>) -> spec_fn(int) -> Res<int> {
    |i: int| Ok::<int, Blocked>(f[i] as int)
}

/// Walk the DAG over a feature vector: node ids 0/1 are the false/true terminals.
pub fn evaluate(cert: &Cert, f: &[i32; NFEAT]) -> (r: bool)
    requires
        cert.wf(),
    ensures
        eval_res(cert, vector_fv(f@), cert.root as int) == Ok::<bool, Blocked>(r),
{
    let mut node = cert.root;
    while node >= 2
        invariant
            cert.wf(),
            node < cert.nodes.len() + 2,
            eval_res(cert, vector_fv(f@), cert.root as int) == eval_res(cert, vector_fv(f@), node as int),
        decreases node,
    {
        let nd = cert.nodes[node as usize - 2];
        proof {
            assert(node_ok(cert.nodes@[node - 2], node as int));
        }
        let next = if f[nd[0] as usize] <= nd[1] {
            nd[2]
        } else {
            nd[3]
        };
        node = next as u32;
    }
    node == 1
}

/// Walk the DAG over the position seen by `o`, computing each feature only
/// when a node consults it.
pub fn evaluate_at<O: Oracle>(setup: &Setup, cert: &Cert, o: &O, log: &mut O::Log, stm: Color, roles: &Roles) -> (r: Res<bool>)
    requires
        fits(setup, o),
        o.log_ok(old(log)),
        roles.wf(setup),
        cert.wf(),
    ensures
        o.log_ok(final(log)),
        r == eval_res(cert, feature_fn(setup, o.answers(), stm, *roles), cert.root as int),
{
    let ghost fv = feature_fn(setup, o.answers(), stm, *roles);
    let mut node = cert.root;
    while node >= 2
        invariant
            fits(setup, o),
            o.log_ok(log),
            roles.wf(setup),
            cert.wf(),
            fv == feature_fn(setup, o.answers(), stm, *roles),
            node < cert.nodes.len() + 2,
            eval_res(cert, fv, cert.root as int) == eval_res(cert, fv, node as int),
        decreases node,
    {
        let nd = cert.nodes[node as usize - 2];
        proof {
            assert(node_ok(cert.nodes@[node - 2], node as int));
        }
        let x = feature(setup, o, log, stm, roles, nd[0] as usize);
        match x {
            Err(b) => {
                return Err(b);
            },
            Ok(v) => {
                let next = if v <= nd[1] {
                    nd[2]
                } else {
                    nd[3]
                };
                node = next as u32;
            },
        }
    }
    Ok(node == 1)
}

/// All 36 features of the position seen by `o` (with `stm` to move), from
/// the perspective of `roles.protected`; or the first query that blocks.
pub fn features<O: Oracle>(setup: &Setup, o: &O, log: &mut O::Log, stm: Color, roles: &Roles) -> (r: Res<[i32; NFEAT]>)
    requires
        fits(setup, o),
        o.log_ok(old(log)),
        roles.wf(setup),
    ensures
        o.log_ok(final(log)),
        r matches Ok(f) ==> forall|i: int| 0 <= i < NFEAT ==> feature_spec(setup, o.answers(), stm, *roles, i) == Ok::<int, Blocked>(#[trigger] f@[i] as int),
        r matches Err(b) ==> exists|i: int|
            0 <= i < NFEAT && feature_spec(setup, o.answers(), stm, *roles, i) == Err::<int, Blocked>(b) && forall|j: int|
                0 <= j < i ==> (#[trigger] feature_spec(setup, o.answers(), stm, *roles, j)) is Ok,
{
    let ghost a = o.answers();
    let mut f = [0i32; NFEAT];
    let mut i: usize = 0;
    while i < NFEAT
        invariant
            fits(setup, o),
            o.log_ok(log),
            roles.wf(setup),
            a == o.answers(),
            0 <= i <= NFEAT,
            forall|j: int| 0 <= j < i ==> feature_spec(setup, a, stm, *roles, j) == Ok::<int, Blocked>(#[trigger] f@[j] as int),
        decreases NFEAT - i,
    {
        let x = feature(setup, o, log, stm, roles, i);
        match x {
            Err(b) => {
                proof {
                    assert forall|j: int| 0 <= j < i implies (#[trigger] feature_spec(setup, a, stm, *roles, j)) is Ok by {
                        assert(feature_spec(setup, a, stm, *roles, j) == Ok::<int, Blocked>(f@[j] as int));
                    }
                }
                return Err(b);
            },
            Ok(v) => {
                f[i] = v;
            },
        }
        i += 1;
    }
    Ok(f)
}

/// The first `k` squares of a walk over answers that never block are all
/// answered.
proof fn lemma_walk_ok(n: u8, a: Answers, f: int, r: int, df: int, dr: int, k: nat)
    requires
        never_blocks(a),
    ensures
        walk_clear(n, a, f, r, df, dr, k) is Ok,
    decreases k,
{
    if k > 0 {
        assert((a.0)((r * n + f) as Sq) is Ok);
        lemma_walk_ok(n, a, f + df, r + dr, df, dr, (k - 1) as nat);
    }
}

/// Over answers that never block, every tactic is answered.
proof fn lemma_tactic_ok(setup: &Setup, a: Answers, stm: Color, roles: Roles, ms: Seq<Move>, w: int, k: int)
    requires
        never_blocks(a),
    ensures
        tactic_upto(setup, a, stm, roles, ms, w, k) is Ok,
    decreases k,
{
    if k > 0 {
        lemma_tactic_ok(setup, a, stm, roles, ms, w, k - 1);
        let t = played(a, ms[k - 1]);
        assert(never_blocks(t));
        lemma_in_check_never_blocks(setup, t, flip_spec(stm));
        lemma_legal_moves_never_blocks(setup, t, flip_spec(stm));
    }
}

/// On a concrete position every feature is decided.
pub proof fn lemma_features_ok(setup: &Setup, a: Answers, stm: Color, roles: Roles, i: int)
    requires
        never_blocks(a),
    ensures
        feature_spec(setup, a, stm, roles, i) is Ok,
{
    lemma_in_check_never_blocks(setup, a, stm);
    lemma_legal_moves_never_blocks(setup, a, stm);
    if 11 <= i < 29 {
        let xy = pair_of(roles, (i - 11) / 3);
        let px = (a.1)(xy.0)->Ok_0;
        let py = (a.1)(xy.1)->Ok_0;
        if px is Some && py is Some {
            let n = setup.n;
            let p = px->Some_0 as int;
            let q = py->Some_0 as int;
            let df = sgn(file_of(n, q) - file_of(n, p));
            let dr = sgn(rank_of(n, q) - rank_of(n, p));
            lemma_walk_ok(n, a, file_of(n, p) + df, rank_of(n, p) + dr, df, dr, (cheb(n, p, q) - 1) as nat);
        }
    }
    if i > 30 {
        let ms = legal_moves_spec(setup, a, stm)->Ok_0;
        lemma_tactic_ok(setup, a, stm, roles, ms, i - 31, ms.len() as int);
    }
}

/// A walk whose feature values are all decided is decided.
proof fn lemma_eval_ok(cert: &Cert, fv: spec_fn(int) -> Res<int>, node: int)
    requires
        forall|i: int| #[trigger] fv(i) is Ok,
    ensures
        eval_res(cert, fv, node) is Ok,
    decreases node,
{
    if 2 <= node < cert.nodes.len() + 2 {
        let nd = cert.nodes@[node - 2];
        assert(fv(nd@[0] as int) is Ok);
        let x = fv(nd@[0] as int)->Ok_0;
        let next = if x <= nd@[1] {
            nd@[2]
        } else {
            nd@[3]
        };
        if 0 <= next < node {
            lemma_eval_ok(cert, fv, next as int);
        }
    }
}

/// The position is in the certificate's region.
pub open spec fn safe_spec(setup: &Setup, cert: &Cert, sqs: Seq<Option<Sq>>, stm: Color, roles: Roles) -> bool {
    eval_res(cert, feature_fn(setup, position_answers(sqs), stm, roles), cert.root as int) == Ok::<bool, Blocked>(true)
}

/// Is the position in the certificate's region?
pub fn safe(setup: &Setup, cert: &Cert, p: &Position, roles: &Roles) -> (r: bool)
    requires
        setup.wf(),
        cert.wf(),
        roles.wf(setup),
        p.wf(setup),
    ensures
        r == safe_spec(setup, cert, p.sqs@, p.stm, *roles),
{
    proof {
        lemma_position_fits(setup, p);
        let a = position_answers(p.sqs@);
        assert forall|i: int| #[trigger] feature_fn(setup, a, p.stm, *roles)(i) is Ok by {
            lemma_features_ok(setup, a, p.stm, *roles, i);
        }
        lemma_eval_ok(cert, feature_fn(setup, a, p.stm, *roles), cert.root as int);
    }
    match evaluate_at(setup, cert, p, &mut (), p.stm, roles) {
        Ok(b) => b,
        Err(_) => false,
    }
}

/// The squares of the start position: White Ka1 Rb1, Black K in the far
/// corner with the rook beside it.
pub open spec fn start_sqs(setup: &Setup, roles: Roles) -> Seq<Option<Sq>> {
    let m = setup.area_spec();
    Seq::new(setup.slots.len() as nat, |k: int|
        if k == roles.own_k as int {
            Some(0u8)
        } else if k == roles.own_r as int {
            Some(1u8)
        } else if k == roles.opp_k as int {
            Some((m - 1) as u8)
        } else if k == roles.opp_r as int {
            Some((m - 2) as u8)
        } else {
            None::<Sq>
        })
}

/// The experiment's start: White Ka1 Rb1, Black K in the far corner with
/// the rook beside it, White to move.
pub fn start(setup: &Setup) -> (p: Position)
    requires
        setup.wf(),
        one_rook(setup.slots@, Color::White),
        one_rook(setup.slots@, Color::Black),
    ensures
        p.stm == Color::White,
        p.sqs@ == start_sqs(setup, roles_spec(setup, Color::White)),
        p.wf(setup),
{
    assert(4 <= setup.n * setup.n <= 64) by (nonlinear_arith)
        requires
            2 <= setup.n <= 8,
    ;
    let m = setup.area() as Sq;
    let roles = Roles::new(setup, Color::White);
    let mut sqs: Vec<Option<Sq>> = Vec::new();
    let mut k: usize = 0;
    while k < setup.slots.len()
        invariant
            0 <= k <= setup.slots.len(),
            sqs.len() == k,
            forall|j: int| 0 <= j < k ==> #[trigger] sqs@[j] == None::<Sq>,
        decreases setup.slots.len() - k,
    {
        sqs.push(None);
        k += 1;
    }
    sqs.set(roles.own_k as usize, Some(0));
    sqs.set(roles.own_r as usize, Some(1));
    sqs.set(roles.opp_k as usize, Some(m - 1));
    sqs.set(roles.opp_r as usize, Some(m - 2));
    proof {
        assert(roles == roles_spec(setup, Color::White));
        assert(sqs@ =~= start_sqs(setup, roles));
    }
    Position { sqs, stm: Color::White }
}

/// Sort key of the deterministic policy: lexicographic on the normalized
/// state [own K, own R, opp K, opp R], captured = area.
pub open spec fn policy_key_spec(setup: &Setup, sqs: Seq<Option<Sq>>, roles: Roles) -> Seq<u8> {
    let m = setup.area_spec() as u8;
    let key = |s: SlotId|
        match sqs[s as int] {
            Some(q) => q,
            None => m,
        };
    seq![key(roles.own_k), key(roles.own_r), key(roles.opp_k), key(roles.opp_r)]
}

fn policy_key(setup: &Setup, p: &Position, roles: &Roles) -> (r: [u8; 4])
    requires
        setup.wf(),
        roles.wf(setup),
        p.wf(setup),
    ensures
        r@ == policy_key_spec(setup, p.sqs@, *roles),
{
    assert(4 <= setup.n * setup.n <= 64) by (nonlinear_arith)
        requires
            2 <= setup.n <= 8,
    ;
    let m = setup.area() as u8;
    let order = roles.order();
    let k0 = match p.sqs[order[0] as usize] {
        Some(q) => q,
        None => m,
    };
    let k1 = match p.sqs[order[1] as usize] {
        Some(q) => q,
        None => m,
    };
    let k2 = match p.sqs[order[2] as usize] {
        Some(q) => q,
        None => m,
    };
    let k3 = match p.sqs[order[3] as usize] {
        Some(q) => q,
        None => m,
    };
    let r = [k0, k1, k2, k3];
    proof {
        assert(r@ =~= policy_key_spec(setup, p.sqs@, *roles));
    }
    r
}

// ---------------------------------------------------------------------
// Checking the certificate against the table
// ---------------------------------------------------------------------

/// The table says the protected side loses from here.
pub open spec fn lost_spec(v: Val, stm: Color, protected: Color) -> bool {
    match v {
        Val::Loss(_) => stm == protected,
        Val::Win(_) => stm != protected,
        _ => false,
    }
}

/// The legal moves of a concrete position.
pub open spec fn pos_moves(setup: &Setup, sqs: Seq<Option<Sq>>, stm: Color) -> Seq<Move> {
    legal_moves_spec(setup, position_answers(sqs), stm)->Ok_0
}

/// The side to move is in check.
pub open spec fn pos_checked(setup: &Setup, sqs: Seq<Option<Sq>>, stm: Color) -> bool {
    in_check_spec(setup, position_answers(sqs), stm) == Ok::<bool, Blocked>(true)
}

/// Move `m` leads into the certificate's region.
pub open spec fn after_safe(setup: &Setup, cert: &Cert, roles: Roles, sqs: Seq<Option<Sq>>, stm: Color, m: Move) -> bool {
    safe_spec(setup, cert, play_spec(sqs, m), flip_spec(stm), roles)
}

/// How many of the first `k` moves leave the region.
pub open spec fn escapes_upto(setup: &Setup, cert: &Cert, roles: Roles, sqs: Seq<Option<Sq>>, stm: Color, ms: Seq<Move>, k: int) -> int
    decreases k,
{
    if k <= 0 {
        0
    } else {
        escapes_upto(setup, cert, roles, sqs, stm, ms, k - 1) + b2i(!after_safe(setup, cert, roles, sqs, stm, ms[k - 1]))
    }
}

/// Some move stays in the region.
pub open spec fn preserving(setup: &Setup, cert: &Cert, roles: Roles, sqs: Seq<Option<Sq>>, stm: Color, ms: Seq<Move>) -> bool {
    exists|k: int| 0 <= k < ms.len() && #[trigger] after_safe(setup, cert, roles, sqs, stm, ms[k])
}

/// What one position of the table adds to the report's counter `k`:
/// 0 legal, 1 not lost, 2 safe, 3 safe but lost, 4 own turn, 5 mated
/// inside, 6 own candidate edges, 7 no preserving move, 8 opponent turn,
/// 9 opponent edges, 10 opponent escapes, 11 opponent escape states.
pub open spec fn weight(setup: &Setup, cert: &Cert, roles: Roles, v: Val, sqs: Seq<Option<Sq>>, stm: Color, k: int) -> int {
    let legal = v != Val::Illegal;
    let lost = lost_spec(v, stm, roles.protected);
    let inside = legal && safe_spec(setup, cert, sqs, stm, roles);
    let own = stm == roles.protected;
    let ms = pos_moves(setup, sqs, stm);
    let esc = escapes_upto(setup, cert, roles, sqs, stm, ms, ms.len() as int);
    if k == 0 {
        b2i(legal)
    } else if k == 1 {
        b2i(legal && !lost)
    } else if k == 2 {
        b2i(inside)
    } else if k == 3 {
        b2i(inside && lost)
    } else if k == 4 {
        b2i(inside && own)
    } else if k == 5 {
        b2i(inside && own && ms.len() == 0 && pos_checked(setup, sqs, stm))
    } else if k == 6 {
        if inside && own {
            ms.len() as int
        } else {
            0
        }
    } else if k == 7 {
        b2i(inside && own && ms.len() > 0 && !preserving(setup, cert, roles, sqs, stm, ms))
    } else if k == 8 {
        b2i(inside && !own)
    } else if k == 9 {
        if inside && !own {
            ms.len() as int
        } else {
            0
        }
    } else if k == 10 {
        if inside && !own {
            esc
        } else {
            0
        }
    } else {
        b2i(inside && !own && esc > 0)
    }
}

/// The sum of `w` over `0..k`.
pub open spec fn sum_upto(k: int, w: spec_fn(int) -> int) -> int
    decreases k,
{
    if k <= 0 {
        0
    } else {
        sum_upto(k - 1, w) + w(k - 1)
    }
}

/// Counter `k` of the report, summed over the whole table.
pub open spec fn total(setup: &Setup, cert: &Cert, roles: Roles, vals: Seq<Val>, k: int) -> int {
    sum_upto(vals.len() as int, index_w(setup, cert, roles, vals, k))
}

/// Counter `k` of the report, position by position.
pub open spec fn index_w(setup: &Setup, cert: &Cert, roles: Roles, vals: Seq<Val>, k: int) -> spec_fn(int) -> int {
    |i: int| weight(setup, cert, roles, vals[i], position_sqs(setup, i), position_stm(i), k)
}

/// A sum of weights that are one where `p` holds and zero elsewhere counts
/// where `p` holds.
proof fn lemma_sum_count(k: int, w: spec_fn(int) -> int, p: spec_fn(int) -> bool)
    requires
        forall|i: int| 0 <= i < k ==> #[trigger] w(i) == if p(i) {
            1int
        } else {
            0int
        },
    ensures
        sum_upto(k, w) == count_upto(k, p),
    decreases k,
{
    if k > 0 {
        lemma_sum_count(k - 1, w, p);
    }
}

/// Over the whole table, the positions counted as not lost for the
/// protected side are the legal ones where neither the protected side is
/// to move and loses nor its opponent is to move and wins; those counted as
/// unsound are the legal ones the certificate holds where one of the two
/// is the case.
pub proof fn lemma_table_counts(setup: &Setup, cert: &Cert, roles: Roles, vals: Seq<Val>)
    ensures
        total(setup, cert, roles, vals, 1) == count_upto(
            vals.len() as int,
            |i: int|
                vals[i] != Val::Illegal && !(vals[i] is Loss && position_stm(i) == roles.protected) && !(vals[i] is Win
                    && position_stm(i) != roles.protected),
        ),
        total(setup, cert, roles, vals, 3) == count_upto(
            vals.len() as int,
            |i: int|
                vals[i] != Val::Illegal && safe_spec(setup, cert, position_sqs(setup, i), position_stm(i), roles) && ((
                vals[i] is Loss && position_stm(i) == roles.protected) || (vals[i] is Win && position_stm(i) != roles.protected)),
        ),
{
    lemma_sum_count(
        vals.len() as int,
        index_w(setup, cert, roles, vals, 1),
        |i: int|
            vals[i] != Val::Illegal && !(vals[i] is Loss && position_stm(i) == roles.protected) && !(vals[i] is Win
                && position_stm(i) != roles.protected),
    );
    lemma_sum_count(
        vals.len() as int,
        index_w(setup, cert, roles, vals, 3),
        |i: int|
            vals[i] != Val::Illegal && safe_spec(setup, cert, position_sqs(setup, i), position_stm(i), roles) && ((
            vals[i] is Loss && position_stm(i) == roles.protected) || (vals[i] is Win && position_stm(i) != roles.protected)),
    );
}

/// A count capped at the largest `usize`.
pub open spec fn cap(x: int) -> int {
    if x > usize::MAX {
        usize::MAX as int
    } else {
        x
    }
}

/// What the certificate asks of a position it holds: on the protected
/// side's turn some legal move stays inside it (or, with no legal move,
/// the side is not in check); on the opponent's turn every legal move does.
pub open spec fn obligation_spec(setup: &Setup, cert: &Cert, roles: Roles, sqs: Seq<Option<Sq>>, stm: Color) -> bool {
    match legal_moves_spec(setup, position_answers(sqs), stm) {
        Ok(ms) => if stm == roles.protected {
            if ms.len() == 0 {
                in_check_spec(setup, position_answers(sqs), stm) == Ok::<bool, Blocked>(false)
            } else {
                exists|k: int| 0 <= k < ms.len() && #[trigger] after_safe(setup, cert, roles, sqs, stm, ms[k])
            }
        } else {
            forall|k: int| 0 <= k < ms.len() ==> #[trigger] after_safe(setup, cert, roles, sqs, stm, ms[k])
        },
        Err(_) => false,
    }
}

/// The certificate's obligation, checked on one concrete position.
pub fn concrete_obligation(setup: &Setup, cert: &Cert, p: &Position, roles: &Roles) -> (r: bool)
    requires
        setup.wf(),
        cert.wf(),
        roles.wf(setup),
        p.wf(setup),
    ensures
        r == obligation_spec(setup, cert, *roles, p.sqs@, p.stm),
{
    let ghost sqs = p.sqs@;
    let ghost stm = p.stm;
    proof {
        lemma_position_fits(setup, p);
        lemma_legal_moves_never_blocks(setup, position_answers(sqs), stm);
        lemma_in_check_never_blocks(setup, position_answers(sqs), stm);
        lemma_legal_moves_ok(setup, position_answers(sqs), stm);
    }
    let moves = match legal_moves(setup, p, &mut (), p.stm) {
        Ok(m) => m,
        Err(_) => Vec::new(),
    };
    let ghost ms = moves@;
    let own = p.stm == roles.protected;
    if own && moves.len() == 0 {
        let chk = match in_check(setup, p, &mut (), p.stm) {
            Ok(c) => c,
            Err(_) => false,
        };
        return !chk;
    }
    let mut any = false;
    let mut all = true;
    let mut j: usize = 0;
    while j < moves.len()
        invariant
            setup.wf(),
            cert.wf(),
            roles.wf(setup),
            p.wf(setup),
            sqs == p.sqs@,
            stm == p.stm,
            ms == moves@,
            moves_ok(setup, ms),
            0 <= j <= moves.len(),
            any == exists|k: int| 0 <= k < j && #[trigger] after_safe(setup, cert, *roles, sqs, stm, ms[k]),
            all == forall|k: int| 0 <= k < j ==> #[trigger] after_safe(setup, cert, *roles, sqs, stm, ms[k]),
        decreases moves.len() - j,
    {
        let c = p.play(moves[j]);
        proof {
            lemma_played_in_range(setup, sqs, ms[j as int]);
        }
        let ok = safe(setup, cert, &c, roles);
        proof {
            assert(ok == after_safe(setup, cert, *roles, sqs, stm, ms[j as int]));
            if ok {
                assert(exists|k: int| 0 <= k < j + 1 && #[trigger] after_safe(setup, cert, *roles, sqs, stm, ms[k]));
            } else {
                assert(!after_safe(setup, cert, *roles, sqs, stm, ms[j as int]));
            }
        }
        any = any || ok;
        all = all && ok;
        j += 1;
    }
    if own {
        any
    } else {
        all
    }
}

/// What one position adds to each counter.
#[verifier::rlimit(40)]
fn tally(setup: &Setup, cert: &Cert, roles: &Roles, v: Val, p: &Position) -> (t: [usize; 12])
    requires
        setup.wf(),
        cert.wf(),
        roles.wf(setup),
        p.wf(setup),
    ensures
        forall|k: int| 0 <= k < 12 ==> #[trigger] t@[k] == weight(setup, cert, *roles, v, p.sqs@, p.stm, k),
        forall|k: int| 0 <= k < 12 ==> #[trigger] weight(setup, cert, *roles, v, p.sqs@, p.stm, k) >= 0,
{
    let ghost sqs = p.sqs@;
    let ghost stm = p.stm;
    let mut t = [0usize; 12];
    if v == Val::Illegal {
        proof {
            assert(t@ =~= seq![0usize, 0, 0, 0, 0, 0, 0, 0, 0, 0, 0, 0]);
        }
        return t;
    }
    let protected = roles.protected;
    let lost = match v {
        Val::Loss(_) => p.stm == protected,
        Val::Win(_) => p.stm != protected,
        _ => false,
    };
    t[0] = 1;
    if !lost {
        t[1] = 1;
    }
    if !safe(setup, cert, p, roles) {
        proof {
            assert forall|k: int| 0 <= k < 12 implies #[trigger] t@[k] == weight(setup, cert, *roles, v, sqs, stm, k) by {}
        }
        return t;
    }
    t[2] = 1;
    if lost {
        t[3] = 1;
    }
    proof {
        lemma_position_fits(setup, p);
        lemma_legal_moves_never_blocks(setup, position_answers(sqs), stm);
        lemma_in_check_never_blocks(setup, position_answers(sqs), stm);
        lemma_legal_moves_ok(setup, position_answers(sqs), stm);
    }
    let moves = match legal_moves(setup, p, &mut (), p.stm) {
        Ok(m) => m,
        Err(_) => Vec::new(),
    };
    let ghost ms = moves@;
    if p.stm == protected {
        t[4] = 1;
        if moves.len() == 0 {
            let chk = match in_check(setup, p, &mut (), p.stm) {
                Ok(c) => c,
                Err(_) => false,
            };
            if chk {
                t[5] = 1;
            }
            proof {
                assert forall|k: int| 0 <= k < 12 implies #[trigger] t@[k] == weight(setup, cert, *roles, v, sqs, stm, k) by {}
            }
            return t;
        }
        t[6] = moves.len();
        let mut any = false;
        let mut j: usize = 0;
        while j < moves.len()
            invariant
                setup.wf(),
                cert.wf(),
                roles.wf(setup),
                p.wf(setup),
                sqs == p.sqs@,
                stm == p.stm,
                ms == moves@,
                moves_ok(setup, ms),
                0 <= j <= moves.len(),
                any == exists|k: int| 0 <= k < j && #[trigger] after_safe(setup, cert, *roles, sqs, stm, ms[k]),
            decreases moves.len() - j,
        {
            let c = p.play(moves[j]);
            proof {
                lemma_played_in_range(setup, sqs, ms[j as int]);
            }
            let ok = safe(setup, cert, &c, roles);
            proof {
                assert(ok == after_safe(setup, cert, *roles, sqs, stm, ms[j as int]));
                if ok {
                    assert(exists|k: int| 0 <= k < j + 1 && #[trigger] after_safe(setup, cert, *roles, sqs, stm, ms[k]));
                }
            }
            any = any || ok;
            j += 1;
        }
        if !any {
            t[7] = 1;
        }
        proof {
            assert forall|k: int| 0 <= k < 12 implies #[trigger] t@[k] == weight(setup, cert, *roles, v, sqs, stm, k) by {}
        }
        t
    } else {
        t[8] = 1;
        t[9] = moves.len();
        let mut esc: usize = 0;
        let mut j: usize = 0;
        while j < moves.len()
            invariant
                setup.wf(),
                cert.wf(),
                roles.wf(setup),
                p.wf(setup),
                sqs == p.sqs@,
                stm == p.stm,
                ms == moves@,
                moves_ok(setup, ms),
                0 <= j <= moves.len(),
                esc == escapes_upto(setup, cert, *roles, sqs, stm, ms, j as int),
                esc <= j,
            decreases moves.len() - j,
        {
            let c = p.play(moves[j]);
            proof {
                lemma_played_in_range(setup, sqs, ms[j as int]);
            }
            if !safe(setup, cert, &c, roles) {
                esc += 1;
            }
            j += 1;
        }
        t[10] = esc;
        if esc > 0 {
            t[11] = 1;
        }
        proof {
            assert forall|k: int| 0 <= k < 12 implies #[trigger] t@[k] == weight(setup, cert, *roles, v, sqs, stm, k) by {}
        }
        t
    }
}

// ---------------------------------------------------------------------
// The deterministic policy's strategy graph
// ---------------------------------------------------------------------

/// `a` comes before `b` in lexicographic order (keys of length 4).
pub open spec fn lex_less(a: Seq<u8>, b: Seq<u8>) -> bool {
    a[0] < b[0] || (a[0] == b[0] && (a[1] < b[1] || (a[1] == b[1] && (a[2] < b[2] || (a[2] == b[2] && a[3] < b[3])))))
}

/// The key of the position move `m` leads to.
pub open spec fn move_key(setup: &Setup, roles: Roles, sqs: Seq<Option<Sq>>, m: Move) -> Seq<u8> {
    policy_key_spec(setup, play_spec(sqs, m), roles)
}

/// Among the first `k` moves, the one the policy plays: it stays in the
/// region, with the least key, the earliest on ties.
pub open spec fn pick_upto(setup: &Setup, cert: &Cert, roles: Roles, sqs: Seq<Option<Sq>>, stm: Color, ms: Seq<Move>, k: int) -> Option<int>
    decreases k,
{
    if k <= 0 {
        None
    } else {
        let prev = pick_upto(setup, cert, roles, sqs, stm, ms, k - 1);
        if after_safe(setup, cert, roles, sqs, stm, ms[k - 1]) && (prev is None || lex_less(
            move_key(setup, roles, sqs, ms[k - 1]),
            move_key(setup, roles, sqs, ms[prev->Some_0]),
        )) {
            Some(k - 1)
        } else {
            prev
        }
    }
}

/// The move the policy plays at index `i`, if any.
pub open spec fn pick_at(setup: &Setup, cert: &Cert, roles: Roles, i: int) -> Option<int> {
    let ms = moves_at(setup, i);
    pick_upto(setup, cert, roles, position_sqs(setup, i), position_stm(i), ms, ms.len() as int)
}

/// Where the strategy graph leads from index `i`: the policy's move on the
/// protected side's turn, every legal move on the opponent's.
pub open spec fn policy_next(setup: &Setup, cert: &Cert, roles: Roles, i: int) -> Seq<int> {
    if position_stm(i) == roles.protected {
        match pick_at(setup, cert, roles, i) {
            Some(k) => seq![after_at(setup, i, moves_at(setup, i)[k])],
            None => Seq::empty(),
        }
    } else {
        succ_at(setup, i)
    }
}

pub open spec fn policy_rel(setup: &Setup, cert: &Cert, roles: Roles) -> spec_fn(int, int) -> bool {
    |i: int, j: int| policy_next(setup, cert, roles, i).contains(j)
}

/// The protected side is checkmated at index `i`.
pub open spec fn own_mated_at(setup: &Setup, roles: Roles, i: int) -> bool {
    position_stm(i) == roles.protected && moves_at(setup, i).len() == 0 && pos_checked(
        setup,
        position_sqs(setup, i),
        position_stm(i),
    )
}

/// The protected side has moves at index `i`, none staying in the region.
pub open spec fn stuck_at(setup: &Setup, cert: &Cert, roles: Roles, i: int) -> bool {
    position_stm(i) == roles.protected && moves_at(setup, i).len() > 0 && pick_at(setup, cert, roles, i) is None
}

fn key_less(a: &[u8; 4], b: &[u8; 4]) -> (r: bool)
    ensures
        r == lex_less(a@, b@),
{
    a[0] < b[0] || (a[0] == b[0] && (a[1] < b[1] || (a[1] == b[1] && (a[2] < b[2] || (a[2] == b[2] && a[3] < b[3])))))
}

/// The policy's successors of index `i`, and whether the protected side is
/// mated there or stuck.
fn policy_node(setup: &Setup, cert: &Cert, roles: &Roles, i: usize) -> (r: (Vec<usize>, bool, bool))
    requires
        setup.wf(),
        cert.wf(),
        roles.wf(setup),
        i < size_spec(setup),
        size_spec(setup) <= usize::MAX,
    ensures
        r.0.len() == policy_next(setup, cert, *roles, i as int).len(),
        forall|u: int| 0 <= u < r.0.len() ==> #[trigger] r.0@[u] as int == policy_next(setup, cert, *roles, i as int)[u],
        forall|u: int| 0 <= u < r.0.len() ==> #[trigger] r.0@[u] < size_spec(setup),
        r.1 == own_mated_at(setup, *roles, i as int),
        r.2 == stuck_at(setup, cert, *roles, i as int),
{
    let p = Table::position(setup, i);
    proof {
        lemma_position_of_index(setup, i as int);
    }
    let ghost sqs = p.sqs@;
    let ghost stm = p.stm;
    let ghost ms = moves_at(setup, i as int);
    proof {
        lemma_position_wf(setup, i as int);
        lemma_position_fits(setup, &p);
        lemma_legal_moves_never_blocks(setup, position_answers(sqs), stm);
        lemma_in_check_never_blocks(setup, position_answers(sqs), stm);
        lemma_legal_moves_ok(setup, position_answers(sqs), stm);
        lemma_index_of_position(setup, sqs, stm);
        lemma_succ_in_range(setup, i as int);
    }
    let mut next: Vec<usize> = Vec::new();
    if p.stm != roles.protected {
        let succ = Table::successors(setup, &p);
        let mut u: usize = 0;
        while u < succ.len()
            invariant
                setup.wf(),
                size_spec(setup) <= usize::MAX,
                i as int == index_spec(setup, p.sqs@, p.stm),
                succ.len() == succ_at(setup, i as int).len(),
                forall|w: int|
                    0 <= w < succ.len() ==> (#[trigger] succ@[w]).wf(setup) && index_spec(setup, succ@[w].sqs@, succ@[w].stm)
                        == succ_at(setup, i as int)[w],
                0 <= u <= succ.len(),
                next.len() == u,
                forall|w: int| 0 <= w < u ==> #[trigger] next@[w] as int == succ_at(setup, i as int)[w],
                forall|w: int| 0 <= w < u ==> #[trigger] next@[w] < size_spec(setup),
            decreases succ.len() - u,
        {
            let j = Table::index(setup, &succ[u]);
            next.push(j);
            u += 1;
        }
        return (next, false, false);
    }
    let moves = match legal_moves(setup, &p, &mut (), p.stm) {
        Ok(m) => m,
        Err(_) => Vec::new(),
    };
    if moves.len() == 0 {
        let chk = match in_check(setup, &p, &mut (), p.stm) {
            Ok(c) => c,
            Err(_) => false,
        };
        return (next, chk, false);
    }
    let mut best: Option<usize> = None;
    let mut best_key = [0u8; 4];
    let mut j: usize = 0;
    while j < moves.len()
        invariant
            setup.wf(),
            cert.wf(),
            roles.wf(setup),
            p.wf(setup),
            sqs == p.sqs@,
            stm == p.stm,
            ms == moves@,
            moves_ok(setup, ms),
            0 <= j <= moves.len(),
            best.is_some() ==> best_key@ == move_key(setup, *roles, sqs, ms[best.unwrap() as int]) && best.unwrap() < j,
            pick_upto(setup, cert, *roles, sqs, stm, ms, j as int) == match best {
                Some(b) => Some(b as int),
                None => None::<int>,
            },
        decreases moves.len() - j,
    {
        let c = p.play(moves[j]);
        proof {
            lemma_played_in_range(setup, sqs, ms[j as int]);
        }
        if safe(setup, cert, &c, roles) {
            let key = policy_key(setup, &c, roles);
            let better = match best {
                None => true,
                Some(_) => key_less(&key, &best_key),
            };
            if better {
                best = Some(j);
                best_key = key;
            }
        }
        j += 1;
    }
    match best {
        Some(b) => {
            let c = p.play(moves[b]);
            proof {
                lemma_played_in_range(setup, sqs, ms[b as int]);
            }
            let idx = Table::index(setup, &c);
            next.push(idx);
            proof {
                assert(next@[0] as int == policy_next(setup, cert, *roles, i as int)[0]);
            }
            (next, false, false)
        },
        None => (next, false, true),
    }
}

/// Sum of `w` over the indices marked in `seen`.
pub open spec fn seen_w(seen: Seq<bool>, w: spec_fn(int) -> int) -> spec_fn(int) -> int {
    |x: int|
        if seen[x] {
            w(x)
        } else {
            0
        }
}

proof fn lemma_sum_ext(k: int, v: spec_fn(int) -> int, w: spec_fn(int) -> int)
    requires
        forall|x: int| 0 <= x < k ==> #[trigger] v(x) == w(x),
    ensures
        sum_upto(k, v) == sum_upto(k, w),
    decreases k,
{
    if k > 0 {
        lemma_sum_ext(k - 1, v, w);
    }
}

proof fn lemma_sum_set(seen: Seq<bool>, c: int, w: spec_fn(int) -> int, k: int)
    requires
        0 <= c < seen.len(),
        !seen[c],
        0 <= k <= seen.len(),
    ensures
        sum_upto(k, seen_w(seen.update(c, true), w)) == sum_upto(k, seen_w(seen, w)) + if c < k {
            w(c)
        } else {
            0
        },
    decreases k,
{
    if k > 0 {
        lemma_sum_set(seen, c, w, k - 1);
    }
}

proof fn lemma_sum_zero(k: int, w: spec_fn(int) -> int)
    requires
        forall|x: int| 0 <= x < k ==> #[trigger] w(x) == 0,
    ensures
        sum_upto(k, w) == 0,
    decreases k,
{
    if k > 0 {
        lemma_sum_zero(k - 1, w);
    }
}

proof fn lemma_sum_bound(k: int, w: spec_fn(int) -> int)
    requires
        0 <= k,
        forall|x: int| 0 <= x < k ==> 0 <= #[trigger] w(x) <= 1,
    ensures
        0 <= sum_upto(k, w) <= k,
    decreases k,
{
    if k > 0 {
        lemma_sum_bound(k - 1, w);
    }
}

pub open spec fn one_w() -> spec_fn(int) -> int {
    |x: int| 1int
}

pub open spec fn edges_w(setup: &Setup, cert: &Cert, roles: Roles) -> spec_fn(int) -> int {
    |x: int| policy_next(setup, cert, roles, x).len() as int
}

pub open spec fn mated_w(setup: &Setup, roles: Roles) -> spec_fn(int) -> int {
    |x: int| b2i(own_mated_at(setup, roles, x))
}

pub open spec fn stuck_w(setup: &Setup, cert: &Cert, roles: Roles) -> spec_fn(int) -> int {
    |x: int| b2i(stuck_at(setup, cert, roles, x))
}

/// The sum of `w` over the positions the strategy graph reaches from `s`.
pub open spec fn reach_sum(setup: &Setup, cert: &Cert, roles: Roles, s: int, w: spec_fn(int) -> int) -> int {
    sum_upto(size_spec(setup), seen_w(Seq::new(size_spec(setup) as nat, |x: int| reaches(policy_rel(setup, cert, roles), s, x)), w))
}

/// Walk the strategy graph from the position with index `s`: the number of
/// positions reached, of edges, of checkmates of the protected side and of
/// positions where the policy is stuck.
fn strategy(setup: &Setup, cert: &Cert, roles: &Roles, s: usize) -> (r: (usize, usize, usize, usize))
    requires
        setup.wf(),
        cert.wf(),
        roles.wf(setup),
        s < size_spec(setup),
        size_spec(setup) <= usize::MAX,
    ensures
        r.0 == reach_sum(setup, cert, *roles, s as int, one_w()),
        r.1 == cap(reach_sum(setup, cert, *roles, s as int, edges_w(setup, cert, *roles))),
        r.2 == reach_sum(setup, cert, *roles, s as int, mated_w(setup, *roles)),
        r.3 == reach_sum(setup, cert, *roles, s as int, stuck_w(setup, cert, *roles)),
{
    let n = Table::size(setup);
    let ghost step = policy_rel(setup, cert, *roles);
    let mut seen: Vec<bool> = Vec::new();
    let mut z: usize = 0;
    while z < n
        invariant
            0 <= z <= n,
            seen.len() == z,
            forall|c: int| 0 <= c < z ==> !(#[trigger] seen@[c]),
        decreases n - z,
    {
        seen.push(false);
        z += 1;
    }
    proof {
        lemma_sum_zero(n as int, seen_w(seen@, one_w()));
        lemma_sum_zero(n as int, seen_w(seen@, edges_w(setup, cert, *roles)));
        lemma_sum_zero(n as int, seen_w(seen@, mated_w(setup, *roles)));
        lemma_sum_zero(n as int, seen_w(seen@, stuck_w(setup, cert, *roles)));
        let one = seq![s as int];
        assert(is_path(one, step) && one[0] == s && one.last() == s);
        assert(reaches(step, s as int, s as int));
    }
    let mut stack: Vec<usize> = Vec::new();
    stack.push(s);
    proof {
        assert(stack@[0] == s);
    }
    let mut states: usize = 0;
    let mut edges: usize = 0;
    let mut mates: usize = 0;
    let mut stuck: usize = 0;
    loop
        invariant
            setup.wf(),
            cert.wf(),
            roles.wf(setup),
            n == size_spec(setup),
            n <= usize::MAX,
            step == policy_rel(setup, cert, *roles),
            s < n,
            seen.len() == n,
            states == sum_upto(n as int, seen_w(seen@, one_w())),
            edges == cap(sum_upto(n as int, seen_w(seen@, edges_w(setup, cert, *roles)))),
            mates == sum_upto(n as int, seen_w(seen@, mated_w(setup, *roles))),
            stuck == sum_upto(n as int, seen_w(seen@, stuck_w(setup, cert, *roles))),
            states <= n,
            mates <= states,
            stuck <= states,
            forall|t: int| 0 <= t < stack.len() ==> #[trigger] stack@[t] < n && reaches(step, s as int, stack@[t] as int),
            forall|x: int| 0 <= x < n && #[trigger] seen@[x] ==> reaches(step, s as int, x),
            seen@[s as int] || exists|t: int| 0 <= t < stack.len() && #[trigger] stack@[t] == s,
            forall|x: int, y: int|
                0 <= x < n && seen@[x] && #[trigger] policy_next(setup, cert, *roles, x).contains(y) ==> 0 <= y < n && (seen@[y]
                    || exists|t: int| 0 <= t < stack.len() && #[trigger] stack@[t] as int == y),
        decreases n - states, stack.len(),
    {
        let ghost before = stack@;
        match stack.pop() {
            None => {
                proof {
                    let reach = Seq::new(n as nat, |x: int| reaches(step, s as int, x));
                    assert forall|x: int, y: int| 0 <= x < n && seen@[x] && #[trigger] step(x, y) implies 0 <= y < n && seen@[y] by {
                        assert(policy_next(setup, cert, *roles, x).contains(y));
                    }
                    assert forall|x: int| 0 <= x < n implies #[trigger] seen@[x] == reach[x] by {
                        if reaches(step, s as int, x) {
                            lemma_closed_holds_reachable(step, seen@, s as int, x);
                        }
                    }
                    assert(seen@ =~= reach);
                }
                return (states, edges, mates, stuck);
            },
            Some(x) => {
                proof {
                    assert(before =~= stack@.push(x));
                }
                if seen[x] {
                    proof {
                        assert forall|a: int, y: int|
                            0 <= a < n && seen@[a] && #[trigger] policy_next(setup, cert, *roles, a).contains(y) implies 0 <= y < n && (seen@[y]
                                || exists|t: int| 0 <= t < stack.len() && #[trigger] stack@[t] as int == y) by {
                            if !seen@[y] {
                                let t = choose|t: int| 0 <= t < before.len() && #[trigger] before[t] as int == y;
                                assert(t < stack.len());
                                assert(stack@[t] == before[t]);
                            }
                        }
                        if !seen@[s as int] {
                            let t = choose|t: int| 0 <= t < before.len() && #[trigger] before[t] == s;
                            assert(t < stack.len());
                            assert(stack@[t] == before[t]);
                        }
                    }
                    continue;
                }
                let ghost seen0 = seen@;
                let (mut next, m, st) = policy_node(setup, cert, roles, x);
                seen.set(x, true);
                proof {
                    lemma_sum_set(seen0, x as int, one_w(), n as int);
                    lemma_sum_set(seen0, x as int, edges_w(setup, cert, *roles), n as int);
                    lemma_sum_set(seen0, x as int, mated_w(setup, *roles), n as int);
                    lemma_sum_set(seen0, x as int, stuck_w(setup, cert, *roles), n as int);
                    assert(seen0.update(x as int, true) == seen@);
                    assert forall|a: int| 0 <= a < n implies 0 <= #[trigger] seen_w(seen@, one_w())(a) <= 1 by {}
                    lemma_sum_bound(n as int, seen_w(seen@, one_w()));
                    assert(!(m && st));
                }
                states += 1;
                edges = edges.saturating_add(next.len());
                if m {
                    mates += 1;
                }
                if st {
                    stuck += 1;
                }
                let ghost base = stack@;
                let ghost added = next@;
                stack.append(&mut next);
                proof {
                    assert(stack@ == base + added);
                    lemma_succ_in_range(setup, x as int);
                    if !seen@[s as int] {
                        let t = choose|t: int| 0 <= t < before.len() && #[trigger] before[t] == s;
                        assert(t < base.len());
                        assert(stack@[t] == before[t]);
                    }
                    assert forall|u: int| 0 <= u < stack.len() implies #[trigger] stack@[u] < n && reaches(step, s as int, stack@[u] as int) by {
                        if u < base.len() {
                            assert(stack@[u] == before[u]);
                        } else {
                            let w = u - base.len();
                            assert(stack@[u] == added[w]);
                            let y = policy_next(setup, cert, *roles, x as int)[w];
                            assert(policy_next(setup, cert, *roles, x as int).contains(y));
                            assert(step(x as int, y));
                            lemma_reaches_step(step, s as int, x as int, y);
                            assert(added[w] < n);
                        }
                    }
                    assert forall|a: int, y: int|
                        0 <= a < n && seen@[a] && #[trigger] policy_next(setup, cert, *roles, a).contains(y) implies 0 <= y < n && (seen@[y]
                            || exists|t: int| 0 <= t < stack.len() && #[trigger] stack@[t] as int == y) by {
                        if a != x {
                            assert(seen0[a]);
                            if !seen@[y] {
                                let t = choose|t: int| 0 <= t < before.len() && #[trigger] before[t] as int == y;
                                assert(t < base.len());
                                assert(stack@[t] == before[t]);
                            }
                        } else {
                            let w = choose|w: int| 0 <= w < policy_next(setup, cert, *roles, a).len() && policy_next(setup, cert, *roles, a)[w] == y;
                            assert(stack@[base.len() + w] == added[w]);
                            assert(stack@[base.len() + w] < n);
                        }
                    }
                }
            },
        }
    }
}

// ---------------------------------------------------------------------
// The report
// ---------------------------------------------------------------------

#[derive(Default, Debug, Clone)]
pub struct Report {
    pub protected: Option<Color>,
    pub legal_states: usize,
    pub root_in_invariant: bool,
    pub safe_states: usize,
    pub own_turn_obligations: usize,
    pub opponent_turn_obligations: usize,
    pub own_candidate_edges: usize,
    pub opponent_edges: usize,
    /// Obligation failures: mated inside, no preserving move, opponent escape.
    pub mated_inside: usize,
    pub no_preserving_move: usize,
    pub opponent_escapes: usize,
    /// Opponent-turn positions with at least one escaping edge.
    pub opponent_escape_states: usize,
    /// Independent check against the retrograde table: safe positions that the
    /// table says the protected side loses (should be 0 if the certificate holds).
    pub unsound_vs_table: usize,
    /// Positions the table says are not lost for the protected side.
    pub nonlosing_in_table: usize,
    /// The deterministic policy's reachable strategy graph.
    pub strategy_states: usize,
    pub strategy_edges: usize,
    pub strategy_own_checkmates: usize,
    pub strategy_stuck: usize,
}

impl Report {
    /// The obligations that failed.
    pub fn violations(&self) -> (r: usize)
        requires
            self.mated_inside + self.no_preserving_move + self.opponent_escapes <= usize::MAX,
        ensures
            r == self.mated_inside + self.no_preserving_move + self.opponent_escapes,
    {
        self.mated_inside + self.no_preserving_move + self.opponent_escapes
    }
}

/// Exhaustively check the certificate for one protected colour against every
/// legal position of the table, then walk the deterministic policy's strategy
/// graph from the start position.
pub fn verify(table: &Table, cert: &Cert, protected: Color) -> (rep: Report)
    requires
        table.setup.wf(),
        one_rook(table.setup.slots@, Color::White),
        one_rook(table.setup.slots@, Color::Black),
        table.vals.len() == size_spec(&table.setup),
        size_spec(&table.setup) <= usize::MAX,
        cert.wf(),
    ensures
        ({
            let setup = &table.setup;
            let roles = roles_spec(setup, protected);
            let vals = table.vals@;
            let s = index_spec(setup, start_sqs(setup, roles_spec(setup, Color::White)), Color::White);
            &&& rep.protected == Some(protected)
            &&& rep.root_in_invariant == safe_spec(setup, cert, start_sqs(setup, roles_spec(setup, Color::White)), Color::White, roles)
            &&& rep.legal_states == cap(total(setup, cert, roles, vals, 0))
            &&& rep.nonlosing_in_table == cap(total(setup, cert, roles, vals, 1))
            &&& rep.nonlosing_in_table == cap(
                count_upto(
                    vals.len() as int,
                    |i: int|
                        vals[i] != Val::Illegal && !(vals[i] is Loss && position_stm(i) == protected) && !(vals[i] is Win
                            && position_stm(i) != protected),
                ) as int,
            )
            &&& rep.safe_states == cap(total(setup, cert, roles, vals, 2))
            &&& rep.unsound_vs_table == cap(total(setup, cert, roles, vals, 3))
            &&& rep.unsound_vs_table == cap(
                count_upto(
                    vals.len() as int,
                    |i: int|
                        vals[i] != Val::Illegal && safe_spec(setup, cert, position_sqs(setup, i), position_stm(i), roles) && ((
                        vals[i] is Loss && position_stm(i) == protected) || (vals[i] is Win && position_stm(i) != protected)),
                ) as int,
            )
            &&& rep.own_turn_obligations == cap(total(setup, cert, roles, vals, 4))
            &&& rep.mated_inside == cap(total(setup, cert, roles, vals, 5))
            &&& rep.own_candidate_edges == cap(total(setup, cert, roles, vals, 6))
            &&& rep.no_preserving_move == cap(total(setup, cert, roles, vals, 7))
            &&& rep.opponent_turn_obligations == cap(total(setup, cert, roles, vals, 8))
            &&& rep.opponent_edges == cap(total(setup, cert, roles, vals, 9))
            &&& rep.opponent_escapes == cap(total(setup, cert, roles, vals, 10))
            &&& rep.opponent_escape_states == cap(total(setup, cert, roles, vals, 11))
            &&& rep.strategy_states == reach_sum(setup, cert, roles, s, one_w())
            &&& rep.strategy_edges == cap(reach_sum(setup, cert, roles, s, edges_w(setup, cert, roles)))
            &&& rep.strategy_own_checkmates == reach_sum(setup, cert, roles, s, mated_w(setup, roles))
            &&& rep.strategy_stuck == reach_sum(setup, cert, roles, s, stuck_w(setup, cert, roles))
        }),
{
    let setup = &table.setup;
    let roles = Roles::new(setup, protected);
    let root = start(setup);
    let root_in_invariant = safe(setup, cert, &root, &roles);
    let ghost vals = table.vals@;
    let mut acc = [0usize; 12];
    let mut i: usize = 0;
    proof {
        assert forall|k: int| 0 <= k < 12 implies #[trigger] acc@[k] == cap(
            sum_upto(0, index_w(setup, cert, roles, vals, k)),
        ) by {}
    }
    while i < table.vals.len()
        invariant
            setup == &table.setup,
            setup.wf(),
            cert.wf(),
            roles.wf(setup),
            vals == table.vals@,
            table.vals.len() == size_spec(setup),
            size_spec(setup) <= usize::MAX,
            0 <= i <= table.vals.len(),
            forall|k: int| 0 <= k < 12 ==> #[trigger] acc@[k] == cap(
                sum_upto(i as int, index_w(setup, cert, roles, vals, k)),
            ),
            forall|k: int| 0 <= k < 12 ==> #[trigger] sum_upto(
                i as int,
                index_w(setup, cert, roles, vals, k),
            ) >= 0,
        decreases table.vals.len() - i,
    {
        let p = Table::position(setup, i);
        proof {
            lemma_position_wf(setup, i as int);
        }
        let t = tally(setup, cert, &roles, table.vals[i], &p);
        let ghost acc0 = acc@;
        let mut k: usize = 0;
        while k < 12
            invariant
                0 <= k <= 12,
                forall|j: int| 0 <= j < k ==> #[trigger] acc@[j] == cap(acc0[j] + t@[j]),
                forall|j: int| k <= j < 12 ==> #[trigger] acc@[j] == acc0[j],
            decreases 12 - k,
        {
            acc[k] = acc[k].saturating_add(t[k]);
            k += 1;
        }
        proof {
            assert forall|k: int| 0 <= k < 12 implies #[trigger] sum_upto(i + 1, index_w(setup, cert, roles, vals, k)) == sum_upto(
                i as int,
                index_w(setup, cert, roles, vals, k),
            ) + t@[k] by {
                let w = index_w(setup, cert, roles, vals, k);
                assert(sum_upto(i + 1, w) == sum_upto(i as int, w) + w(i as int));
                assert(w(i as int) == t@[k]);
            }
            assert forall|k: int| 0 <= k < 12 implies #[trigger] acc@[k] == cap(
                sum_upto(i + 1, index_w(setup, cert, roles, vals, k)),
            ) by {
                assert(sum_upto(i + 1, index_w(setup, cert, roles, vals, k)) == sum_upto(i as int, index_w(setup, cert, roles, vals, k)) + t@[k]);
            }
        }
        i += 1;
    }
    proof {
        lemma_table_counts(setup, cert, roles, vals);
    }
    let s = Table::index(setup, &root);
    let (strategy_states, strategy_edges, strategy_own_checkmates, strategy_stuck) = strategy(setup, cert, &roles, s);
    Report {
        protected: Some(protected),
        legal_states: acc[0],
        root_in_invariant,
        safe_states: acc[2],
        own_turn_obligations: acc[4],
        opponent_turn_obligations: acc[8],
        own_candidate_edges: acc[6],
        opponent_edges: acc[9],
        mated_inside: acc[5],
        no_preserving_move: acc[7],
        opponent_escapes: acc[10],
        opponent_escape_states: acc[11],
        unsound_vs_table: acc[3],
        nonlosing_in_table: acc[1],
        strategy_states,
        strategy_edges,
        strategy_own_checkmates,
        strategy_stuck,
    }
}

// ---------------------------------------------------------------------
// Which queries a walk can block on
// ---------------------------------------------------------------------

proof fn lemma_walk_errs(n: u8, a: Answers, ok: spec_fn(Blocked) -> bool, f: int, r: int, df: int, dr: int, k: nat)
    requires
        errs_within(a, ok),
    ensures
        walk_clear(n, a, f, r, df, dr, k) matches Err(b) ==> ok(b),
    decreases k,
{
    if k > 0 {
        let _ = (a.0)((r * n + f) as Sq);
        lemma_walk_errs(n, a, ok, f + df, r + dr, df, dr, (k - 1) as nat);
    }
}

proof fn lemma_tactic_errs(setup: &Setup, a: Answers, ok: spec_fn(Blocked) -> bool, stm: Color, roles: Roles, ms: Seq<Move>, w: int, k: int)
    requires
        errs_within(a, ok),
    ensures
        tactic_upto(setup, a, stm, roles, ms, w, k) matches Err(b) ==> ok(b),
    decreases k,
{
    if k > 0 {
        lemma_tactic_errs(setup, a, ok, stm, roles, ms, w, k - 1);
        let t = played(a, ms[k - 1]);
        lemma_played_errs(a, ms[k - 1], ok);
        let _ = (t.1)(roles.opp_r);
        let _ = (t.1)(roles.own_r);
        lemma_in_check_errs(setup, t, ok, flip_spec(stm));
        lemma_legal_moves_errs(setup, t, ok, flip_spec(stm));
    }
}

/// A feature blocks only on a query the answers block on.
pub proof fn lemma_feature_errs(setup: &Setup, a: Answers, ok: spec_fn(Blocked) -> bool, stm: Color, roles: Roles, i: int)
    requires
        errs_within(a, ok),
    ensures
        feature_spec(setup, a, stm, roles, i) matches Err(b) ==> ok(b),
{
    lemma_in_check_errs(setup, a, ok, stm);
    lemma_legal_moves_errs(setup, a, ok, stm);
    let _ = (a.1)(roles.own_r);
    let _ = (a.1)(roles.opp_r);
    if 3 <= i < 11 {
        let _ = (a.1)(piece_of(roles, (i - 3) / 2));
    }
    if 11 <= i < 29 {
        let xy = pair_of(roles, (i - 11) / 3);
        let _ = (a.1)(xy.0);
        let _ = (a.1)(xy.1);
        if (a.1)(xy.0) is Ok && (a.1)(xy.1) is Ok {
            let px = (a.1)(xy.0)->Ok_0;
            let py = (a.1)(xy.1)->Ok_0;
            if px is Some && py is Some {
                let n = setup.n;
                let p = px->Some_0 as int;
                let q = py->Some_0 as int;
                let df = sgn(file_of(n, q) - file_of(n, p));
                let dr = sgn(rank_of(n, q) - rank_of(n, p));
                lemma_walk_errs(n, a, ok, file_of(n, p) + df, rank_of(n, p) + dr, df, dr, (cheb(n, p, q) - 1) as nat);
            }
        }
    }
    if i > 30 {
        if let Ok(ms) = legal_moves_spec(setup, a, stm) {
            lemma_tactic_errs(setup, a, ok, stm, roles, ms, i - 31, ms.len() as int);
        }
    }
}

/// A walk of the certificate blocks only on a query the answers block on.
pub proof fn lemma_eval_errs(setup: &Setup, cert: &Cert, a: Answers, ok: spec_fn(Blocked) -> bool, stm: Color, roles: Roles, node: int)
    requires
        errs_within(a, ok),
    ensures
        eval_res(cert, feature_fn(setup, a, stm, roles), node) matches Err(b) ==> ok(b),
    decreases node,
{
    if 2 <= node < cert.nodes.len() + 2 {
        let nd = cert.nodes@[node - 2];
        lemma_feature_errs(setup, a, ok, stm, roles, nd@[0] as int);
        if let Ok(x) = feature_spec(setup, a, stm, roles, nd@[0] as int) {
            let next = if x <= nd@[1] {
                nd@[2]
            } else {
                nd@[3]
            };
            if 0 <= next < node {
                lemma_eval_errs(setup, cert, a, ok, stm, roles, next as int);
            }
        }
    }
}

/// The features the walk from `node` consults.
pub open spec fn on_path(cert: &Cert, fv: spec_fn(int) -> Res<int>, node: int, i: int) -> bool
    decreases node,
{
    if node < 2 || node >= cert.nodes.len() + 2 {
        false
    } else {
        let nd = cert.nodes@[node - 2];
        nd@[0] == i || match fv(nd@[0] as int) {
            Err(_) => false,
            Ok(x) => {
                let next = if x <= nd@[1] {
                    nd@[2]
                } else {
                    nd@[3]
                };
                0 <= next < node && on_path(cert, fv, next as int, i)
            },
        }
    }
}

/// The features the certificate's walk consults on a concrete position.
pub fn consulted(setup: &Setup, cert: &Cert, p: &Position, roles: &Roles) -> (used: [bool; NFEAT])
    requires
        setup.wf(),
        cert.wf(),
        roles.wf(setup),
        p.wf(setup),
    ensures
        forall|i: int| 0 <= i < NFEAT ==> #[trigger] used@[i] == on_path(
            cert,
            feature_fn(setup, position_answers(p.sqs@), p.stm, *roles),
            cert.root as int,
            i,
        ),
{
    let ghost fv = feature_fn(setup, position_answers(p.sqs@), p.stm, *roles);
    proof {
        lemma_position_fits(setup, p);
    }
    let mut used = [false; NFEAT];
    let mut node = cert.root;
    while node >= 2
        invariant
            setup.wf(),
            cert.wf(),
            roles.wf(setup),
            p.wf(setup),
            fits(setup, p),
            never_blocks(p.answers()),
            fv == feature_fn(setup, position_answers(p.sqs@), p.stm, *roles),
            node < cert.nodes.len() + 2,
            forall|i: int| 0 <= i < NFEAT ==> (on_path(cert, fv, cert.root as int, i) == (#[trigger] used@[i] || on_path(cert, fv, node as int, i))),
        decreases node,
    {
        let nd = cert.nodes[node as usize - 2];
        proof {
            assert(node_ok(cert.nodes@[node - 2], node as int));
        }
        let f = nd[0] as usize;
        let ghost node0 = node as int;
        let ghost used0 = used@;
        used[f] = true;
        let x = feature(setup, p, &mut (), p.stm, roles, f);
        proof {
            lemma_features_ok(setup, position_answers(p.sqs@), p.stm, *roles, f as int);
        }
        let v = match x {
            Ok(v) => v,
            Err(_) => 0,
        };
        let next = if v <= nd[1] {
            nd[2]
        } else {
            nd[3]
        };
        node = next as u32;
        proof {
            assert(fv(f as int) == Ok::<int, Blocked>(v as int));
            assert(nd == cert.nodes@[node0 - 2]);
            assert forall|i: int| 0 <= i < NFEAT implies (on_path(cert, fv, cert.root as int, i) == (#[trigger] used@[i] || on_path(cert, fv, node as int, i))) by {
                assert(on_path(cert, fv, node0, i) == (nd@[0] == i || on_path(cert, fv, next as int, i)));
                assert(used@[i] == (used0[i] || i == f));
            }
        }
    }
    used
}

} // verus!
