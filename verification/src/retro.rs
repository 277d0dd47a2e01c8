//! Retrograde ground truth: every position of a material setup, solved to
//! win/draw/loss with distance-to-mate by forward fixpoint iteration.
//!
//! Semantics: checkmate = loss for the side to move; stalemate = draw;
//! kings only = draw; no move-count rules. Values are the infinite-game
//! values, as in standard tablebases.

use vstd::prelude::*;
use crate::board::{
    Answers, Blocked, Color, Move, Oracle, Position, Res, Setup, SlotId, Sq, flip_spec, in_check,
    in_check_spec, is_legal_spec, legal_moves, legal_moves_spec, lemma_in_check_never_blocks,
    lemma_legal_moves_never_blocks, lemma_legal_moves_ok, lemma_position_fits, lemma_successor_legal, move_ok,
    only_kings_spec, play_spec, position_answers,
};

verus! {

#[derive(Clone, Copy, PartialEq, Eq, Structural, Debug)]
pub enum Val {
    /// Not a legal position (never reached).
    Illegal,
    /// Not yet decided during solving; a draw once solving has converged.
    Draw,
    /// Side to move mates in `d` plies.
    Win(u16),
    /// Side to move is mated in `d` plies.
    Loss(u16),
}

pub struct Table {
    pub setup: Setup,
    pub vals: Vec<Val>,
    pub passes: u32,
    /// Oracle queries spent by the solve (legality + one move generation per position).
    pub queries: u64,
}

/// A position wrapper that counts oracle queries in its log.
pub struct Counting<'a> {
    pub p: &'a Position,
}

impl<'a> Oracle for Counting<'a> {
    type Log = u64;

    open spec fn nslots(&self) -> nat {
        self.p.sqs@.len()
    }

    open spec fn answers(&self) -> Answers {
        position_answers(self.p.sqs@)
    }

    open spec fn log_ok(&self, log: &u64) -> bool {
        true
    }

    fn at(&self, log: &mut u64, sq: Sq) -> (r: Res<Option<SlotId>>) {
        *log = log.saturating_add(1);
        self.p.at(&mut (), sq)
    }

    fn locate(&self, log: &mut u64, s: SlotId) -> (r: Res<Option<Sq>>) {
        *log = log.saturating_add(1);
        self.p.locate(&mut (), s)
    }
}

pub open spec fn power(b: int, e: nat) -> int
    decreases e,
{
    if e == 0 {
        1
    } else {
        b * power(b, (e - 1) as nat)
    }
}

pub proof fn lemma_power_pos(b: int, e: nat)
    requires
        b >= 1,
    ensures
        power(b, e) >= 1,
    decreases e,
{
    if e > 0 {
        lemma_power_pos(b, (e - 1) as nat);
        assert(b * power(b, (e - 1) as nat) >= 1) by (nonlinear_arith)
            requires
                b >= 1,
                power(b, (e - 1) as nat) >= 1,
        ;
    }
}

pub proof fn lemma_power_mono(b: int, e1: nat, e2: nat)
    requires
        b >= 1,
        e1 <= e2,
    ensures
        power(b, e1) <= power(b, e2),
    decreases e2,
{
    if e1 < e2 {
        lemma_power_mono(b, e1, (e2 - 1) as nat);
        lemma_power_pos(b, (e2 - 1) as nat);
        assert(power(b, (e2 - 1) as nat) <= b * power(b, (e2 - 1) as nat)) by (nonlinear_arith)
            requires
                b >= 1,
                power(b, (e2 - 1) as nat) >= 1,
        ;
    }
}

/// One more than the board's area: a slot's digit, `radix - 1` meaning captured.
pub open spec fn radix_spec(setup: &Setup) -> int {
    setup.n * setup.n + 1
}

/// Two sides to move times one digit per slot.
pub open spec fn size_spec(setup: &Setup) -> int {
    2 * power(radix_spec(setup), setup.slots.len() as nat)
}

pub open spec fn digit(sq: Option<Sq>, radix: int) -> int {
    match sq {
        Some(s) => s as int,
        None => radix - 1,
    }
}

/// The slots' digits read as a number, slot 0 least significant.
pub open spec fn digits(s: Seq<Option<Sq>>, radix: int) -> int
    decreases s.len(),
{
    if s.len() == 0 {
        0
    } else {
        digit(s[0], radix) + radix * digits(s.drop_first(), radix)
    }
}

pub open spec fn undigit(v: int, radix: int) -> Option<Sq> {
    if v == radix - 1 {
        None
    } else {
        Some(v as Sq)
    }
}

/// The `len` digits of `x`, slot 0 least significant.
pub open spec fn undigits(x: int, radix: int, len: nat) -> Seq<Option<Sq>>
    decreases len,
{
    if len == 0 {
        Seq::empty()
    } else {
        seq![undigit(x % radix, radix)] + undigits(x / radix, radix, (len - 1) as nat)
    }
}

pub open spec fn index_spec(setup: &Setup, sqs: Seq<Option<Sq>>, stm: Color) -> int {
    digits(sqs, radix_spec(setup)) * 2 + if stm == Color::White {
        0int
    } else {
        1int
    }
}

pub open spec fn position_sqs(setup: &Setup, i: int) -> Seq<Option<Sq>> {
    undigits(i / 2, radix_spec(setup), setup.slots.len() as nat)
}

pub open spec fn position_stm(i: int) -> Color {
    if i % 2 == 0 {
        Color::White
    } else {
        Color::Black
    }
}

/// Every square of `s` is on the board.
pub open spec fn squares_below(s: Seq<Option<Sq>>, area: int) -> bool {
    forall|k: int| 0 <= k < s.len() ==> (#[trigger] s[k] matches Some(q) ==> q < area)
}

pub proof fn lemma_digits_bound(s: Seq<Option<Sq>>, radix: int)
    requires
        radix >= 1,
        squares_below(s, radix - 1),
    ensures
        0 <= digits(s, radix) < power(radix, s.len()),
    decreases s.len(),
{
    if s.len() > 0 {
        let t = s.drop_first();
        assert(squares_below(t, radix - 1)) by {
            assert forall|k: int| 0 <= k < t.len() implies (#[trigger] t[k] matches Some(q) ==> q < radix
                - 1) by {
                assert(t[k] == s[k + 1]);
            }
        }
        lemma_digits_bound(t, radix);
        let d = digit(s[0], radix);
        assert(0 <= d < radix);
        assert(0 <= d + radix * digits(t, radix) < radix * power(radix, t.len())) by (nonlinear_arith)
            requires
                0 <= d < radix,
                0 <= digits(t, radix) < power(radix, t.len()),
        ;
    }
}

/// Decoding the digits of a position gives it back.
pub proof fn lemma_undigits_digits(s: Seq<Option<Sq>>, radix: int)
    requires
        2 <= radix <= 256,
        squares_below(s, radix - 1),
    ensures
        undigits(digits(s, radix), radix, s.len()) == s,
    decreases s.len(),
{
    if s.len() > 0 {
        let t = s.drop_first();
        assert(squares_below(t, radix - 1)) by {
            assert forall|k: int| 0 <= k < t.len() implies (#[trigger] t[k] matches Some(q) ==> q < radix
                - 1) by {
                assert(t[k] == s[k + 1]);
            }
        }
        lemma_undigits_digits(t, radix);
        lemma_digits_bound(t, radix);
        let d = digit(s[0], radix);
        let x = d + radix * digits(t, radix);
        assert(x == digits(t, radix) * radix + d) by (nonlinear_arith)
            requires
                x == d + radix * digits(t, radix),
        ;
        vstd::arithmetic::div_mod::lemma_fundamental_div_mod_converse(x, radix, digits(t, radix), d);
        assert(undigit(d, radix) == s[0]);
        assert(undigits(x, radix, s.len()) =~= s);
    }
}

/// Encoding the digits of a number below `radix^len` gives it back.
pub proof fn lemma_digits_undigits(x: int, radix: int, len: nat)
    requires
        2 <= radix <= 256,
        0 <= x < power(radix, len),
    ensures
        digits(undigits(x, radix, len), radix) == x,
        undigits(x, radix, len).len() == len,
        squares_below(undigits(x, radix, len), radix - 1),
    decreases len,
{
    if len > 0 {
        let q = x / radix;
        let r = x % radix;
        vstd::arithmetic::div_mod::lemma_fundamental_div_mod(x, radix);
        vstd::arithmetic::div_mod::lemma_mod_bound(x, radix);
        assert(0 <= q < power(radix, (len - 1) as nat)) by (nonlinear_arith)
            requires
                x == radix * q + r,
                0 <= r < radix,
                0 <= x < radix * power(radix, (len - 1) as nat),
                radix >= 2,
        ;
        lemma_digits_undigits(q, radix, (len - 1) as nat);
        let u = undigits(x, radix, len);
        assert(u.drop_first() =~= undigits(q, radix, (len - 1) as nat));
        assert(digit(undigit(r, radix), radix) == r);
        assert forall|k: int| 0 <= k < u.len() implies (#[trigger] u[k] matches Some(v) ==> v < radix - 1) by {
            if k > 0 {
                assert(u[k] == undigits(q, radix, (len - 1) as nat)[k - 1]);
            }
        }
    }
}

impl Table {
    pub fn radix(setup: &Setup) -> (r: usize)
        requires
            setup.n <= 8,
        ensures
            r == radix_spec(setup),
    {
        assert(setup.n * setup.n <= 64) by (nonlinear_arith)
            requires
                setup.n <= 8,
        ;
        setup.area() + 1
    }

    pub fn size(setup: &Setup) -> (r: usize)
        requires
            setup.n <= 8,
            size_spec(setup) <= usize::MAX,
        ensures
            r == size_spec(setup),
    {
        let radix = Self::radix(setup);
        let len = setup.slots.len();
        let mut p: usize = 1;
        let mut k: usize = 0;
        while k < len
            invariant
                0 <= k <= len,
                len == setup.slots.len(),
                radix == radix_spec(setup),
                p == power(radix as int, k as nat),
                2 * power(radix as int, len as nat) <= usize::MAX,
            decreases len - k,
        {
            proof {
                lemma_power_mono(radix as int, (k + 1) as nat, len as nat);
                assert(p * radix == radix * power(radix as int, k as nat)) by (nonlinear_arith)
                    requires
                        p == power(radix as int, k as nat),
                ;
                assert(power(radix as int, (k + 1) as nat) == radix * power(radix as int, k as nat));
            }
            p = p * radix;
            k += 1;
        }
        2 * p
    }

    pub fn index(setup: &Setup, p: &Position) -> (r: usize)
        requires
            setup.n <= 8,
            p.sqs.len() == setup.slots.len(),
            squares_below(p.sqs@, setup.area_spec()),
            size_spec(setup) <= usize::MAX,
        ensures
            r == index_spec(setup, p.sqs@, p.stm),
            r < size_spec(setup),
    {
        let radix = Self::radix(setup);
        let len = p.sqs.len();
        let mut i: usize = 0;
        let mut j: usize = len;
        proof {
            lemma_digits_bound(p.sqs@, radix as int);
            lemma_power_pos(radix as int, len as nat);
        }
        while j > 0
            invariant
                0 <= j <= len,
                len == p.sqs.len(),
                radix == radix_spec(setup),
                radix >= 1,
                squares_below(p.sqs@, radix - 1),
                i == digits(p.sqs@.subrange(j as int, len as int), radix as int),
                2 * power(radix as int, len as nat) <= usize::MAX,
            decreases j,
        {
            let ghost t = p.sqs@.subrange(j as int, len as int);
            let ghost u = p.sqs@.subrange(j - 1, len as int);
            proof {
                assert(u.drop_first() =~= t);
                assert(squares_below(t, radix - 1)) by {
                    assert forall|k: int| 0 <= k < t.len() implies (#[trigger] t[k] matches Some(q) ==> q
                        < radix - 1) by {
                        assert(t[k] == p.sqs@[j + k]);
                    }
                }
                assert(squares_below(u, radix - 1)) by {
                    assert forall|k: int| 0 <= k < u.len() implies (#[trigger] u[k] matches Some(q) ==> q
                        < radix - 1) by {
                        assert(u[k] == p.sqs@[j - 1 + k]);
                    }
                }
                lemma_digits_bound(u, radix as int);
                lemma_power_mono(radix as int, u.len(), len as nat);
                assert(digits(u, radix as int) == digit(u[0], radix as int) + radix * i) by {
                    assert(u.drop_first() == t);
                }
                assert(u[0] == p.sqs@[j - 1]);
                assert(radix * i == i * radix) by (nonlinear_arith);
            }
            j -= 1;
            let d: usize = match p.sqs[j] {
                Some(s) => s as usize,
                None => radix - 1,
            };
            i = i * radix + d;
        }
        assert(p.sqs@.subrange(0, len as int) =~= p.sqs@);
        i * 2 + p.stm.idx()
    }

    pub fn position(setup: &Setup, i: usize) -> (r: Position)
        requires
            setup.n <= 8,
        ensures
            r.sqs@ == position_sqs(setup, i as int),
            r.stm == position_stm(i as int),
    {
        let radix = Self::radix(setup);
        let stm = if i % 2 == 0 {
            Color::White
        } else {
            Color::Black
        };
        let mut x = i / 2;
        let len = setup.slots.len();
        let mut sqs: Vec<Option<Sq>> = Vec::new();
        let mut k: usize = 0;
        while k < len
            invariant
                0 <= k <= len,
                len == setup.slots.len(),
                radix == radix_spec(setup),
                radix >= 1,
                sqs@ + undigits(x as int, radix as int, (len - k) as nat) == undigits(
                    (i / 2) as int,
                    radix as int,
                    len as nat,
                ),
            decreases len - k,
        {
            let v = x % radix;
            x = x / radix;
            let u = if v == radix - 1 {
                None
            } else {
                Some(v as Sq)
            };
            let ghost before = sqs@;
            sqs.push(u);
            assert(sqs@ + undigits(x as int, radix as int, (len - k - 1) as nat) =~= before + undigits(
                (x * radix + v) as int,
                radix as int,
                (len - k) as nat,
            )) by {
                vstd::arithmetic::div_mod::lemma_fundamental_div_mod_converse(
                    (x * radix + v) as int,
                    radix as int,
                    x as int,
                    v as int,
                );
            }
            k += 1;
        }
        assert(sqs@ + Seq::<Option<Sq>>::empty() =~= sqs@);
        Position { sqs, stm }
    }
}

pub proof fn lemma_index_of_position(setup: &Setup, sqs: Seq<Option<Sq>>, stm: Color)
    requires
        setup.wf(),
        sqs.len() == setup.slots.len(),
        squares_below(sqs, setup.area_spec()),
    ensures
        0 <= index_spec(setup, sqs, stm) < size_spec(setup),
        position_sqs(setup, index_spec(setup, sqs, stm)) == sqs,
        position_stm(index_spec(setup, sqs, stm)) == stm,
{
    let radix = radix_spec(setup);
    assert(4 <= setup.n * setup.n <= 64) by (nonlinear_arith)
        requires
            2 <= setup.n <= 8,
    ;
    lemma_digits_bound(sqs, radix);
    lemma_undigits_digits(sqs, radix);
    let d = digits(sqs, radix);
    let b = if stm == Color::White {
        0int
    } else {
        1int
    };
    vstd::arithmetic::div_mod::lemma_fundamental_div_mod_converse(d * 2 + b, 2, d, b);
}

pub proof fn lemma_position_of_index(setup: &Setup, i: int)
    requires
        setup.wf(),
        0 <= i < size_spec(setup),
    ensures
        index_spec(setup, position_sqs(setup, i), position_stm(i)) == i,
        position_sqs(setup, i).len() == setup.slots.len(),
        squares_below(position_sqs(setup, i), setup.area_spec()),
{
    let radix = radix_spec(setup);
    assert(4 <= setup.n * setup.n <= 64) by (nonlinear_arith)
        requires
            2 <= setup.n <= 8,
    ;
    vstd::arithmetic::div_mod::lemma_fundamental_div_mod(i, 2);
    assert(0 <= i / 2 < power(radix, setup.slots.len() as nat));
    lemma_digits_undigits(i / 2, radix, setup.slots.len() as nat);
}

/// Indexing a table is a bijection: the position of a position's index is
/// that position, and the index of an index's position is that index.
pub proof fn lemma_index_roundtrip(setup: &Setup, sqs: Seq<Option<Sq>>, stm: Color, i: int)
    requires
        setup.wf(),
        sqs.len() == setup.slots.len(),
        squares_below(sqs, setup.area_spec()),
        0 <= i < size_spec(setup),
    ensures
        0 <= index_spec(setup, sqs, stm) < size_spec(setup),
        position_sqs(setup, index_spec(setup, sqs, stm)) == sqs,
        position_stm(index_spec(setup, sqs, stm)) == stm,
        index_spec(setup, position_sqs(setup, i), position_stm(i)) == i,
{
    lemma_index_of_position(setup, sqs, stm);
    lemma_position_of_index(setup, i);
}



// ---------------------------------------------------------------------
// Solving
// ---------------------------------------------------------------------

pub open spec fn pos_answers(setup: &Setup, i: int) -> Answers {
    position_answers(position_sqs(setup, i))
}

/// Index `i` names a legal position.
pub open spec fn legal_at(setup: &Setup, i: int) -> bool {
    is_legal_spec(setup, position_sqs(setup, i), position_stm(i))
}

pub open spec fn kings_only_at(setup: &Setup, i: int) -> bool {
    only_kings_spec(setup, position_sqs(setup, i))
}

/// The side to move at index `i` is in check.
pub open spec fn checked_at(setup: &Setup, i: int) -> bool {
    in_check_spec(setup, pos_answers(setup, i), position_stm(i)) == Ok::<bool, Blocked>(true)
}

/// The legal moves at index `i`, in generation order.
pub open spec fn moves_at(setup: &Setup, i: int) -> Seq<Move> {
    legal_moves_spec(setup, pos_answers(setup, i), position_stm(i))->Ok_0
}

/// The indices of the positions the legal moves at `i` lead to.
pub open spec fn succ_at(setup: &Setup, i: int) -> Seq<int> {
    moves_at(setup, i).map_values(
        |m: Move| index_spec(setup, play_spec(position_sqs(setup, i), m), flip_spec(position_stm(i))),
    )
}

pub open spec fn loss_below(v: Val, d: int) -> bool {
    match v {
        Val::Loss(m) => m < d,
        _ => false,
    }
}

pub open spec fn win_below(v: Val, d: int) -> bool {
    match v {
        Val::Win(m) => m < d,
        _ => false,
    }
}

/// The value recorded at a terminal legal position: kings only is a draw,
/// no legal move is checkmate (loss now) or stalemate (draw).
pub open spec fn terminal_ok(setup: &Setup, vals: Seq<Val>, i: int) -> bool {
    &&& legal_at(setup, i) && kings_only_at(setup, i) ==> vals[i] == Val::Draw
    &&& legal_at(setup, i) && !kings_only_at(setup, i) && moves_at(setup, i).len() == 0 ==> vals[i] == (
    if checked_at(setup, i) {
        Val::Loss(0)
    } else {
        Val::Draw
    })
}

/// A win is a move to a position lost in fewer plies; a loss in `d > 0`
/// plies has moves, all to positions won in fewer plies; a loss now is a
/// checkmate.
pub open spec fn decided_ok(setup: &Setup, vals: Seq<Val>, i: int) -> bool {
    &&& vals[i] matches Val::Win(d) ==> exists|k: int|
        0 <= k < succ_at(setup, i).len() && loss_below(#[trigger] vals[succ_at(setup, i)[k]], d as int)
    &&& vals[i] matches Val::Loss(d) ==> (d > 0 ==> succ_at(setup, i).len() > 0 && forall|k: int|
        0 <= k < succ_at(setup, i).len() ==> win_below(#[trigger] vals[succ_at(setup, i)[k]], d as int))
    &&& vals[i] == Val::Loss(0) ==> legal_at(setup, i) && !kings_only_at(setup, i) && moves_at(
        setup,
        i,
    ).len() == 0 && checked_at(setup, i)
}

/// What a solved table promises of every index.
pub open spec fn sound(setup: &Setup, vals: Seq<Val>) -> bool {
    &&& vals.len() == size_spec(setup)
    &&& forall|i: int| 0 <= i < vals.len() ==> ((#[trigger] vals[i] == Val::Illegal) == !legal_at(setup, i))
    &&& forall|i: int| 0 <= i < vals.len() ==> #[trigger] terminal_ok(setup, vals, i)
    &&& forall|i: int| 0 <= i < vals.len() ==> #[trigger] decided_ok(setup, vals, i)
}

/// The bookkeeping of the solve: `legal[k]` is a legal position with moves,
/// `moves[k]` the indices its moves lead to.
pub open spec fn structure(setup: &Setup, vals: Seq<Val>, legal: Seq<usize>, moves: Seq<Vec<usize>>) -> bool {
    &&& legal.len() == moves.len()
    &&& forall|k: int|
        0 <= k < legal.len() ==> {
            &&& (#[trigger] legal[k]) < size_spec(setup)
            &&& legal_at(setup, legal[k] as int)
            &&& !kings_only_at(setup, legal[k] as int)
            &&& moves_at(setup, legal[k] as int).len() > 0
            &&& moves[k]@.len() == succ_at(setup, legal[k] as int).len()
            &&& forall|t: int|
                0 <= t < moves[k]@.len() ==> #[trigger] moves[k]@[t] as int == succ_at(
                    setup,
                    legal[k] as int,
                )[t] && moves[k]@[t] < size_spec(setup)
        }
}

/// The undecided bookkeeping entries still hold a draw.
pub open spec fn undecided_ok(vals: Seq<Val>, legal: Seq<usize>, undecided: Seq<usize>) -> bool {
    forall|u: int|
        0 <= u < undecided.len() ==> (#[trigger] undecided[u]) < legal.len() && vals[legal[undecided[u] as int] as int]
            == Val::Draw
}

/// Every win or loss recorded is at most `d` plies.
pub open spec fn depth_below(vals: Seq<Val>, d: int) -> bool {
    forall|i: int|
        0 <= i < vals.len() ==> match #[trigger] vals[i] {
            Val::Win(m) => m <= d,
            Val::Loss(m) => m <= d,
            _ => true,
        }
}

/// `vals` differs from `old` only where a draw became a decided value.
pub open spec fn only_decides(old: Seq<Val>, vals: Seq<Val>) -> bool {
    &&& vals.len() == old.len()
    &&& forall|i: int|
        0 <= i < vals.len() ==> #[trigger] vals[i] == old[i] || (old[i] == Val::Draw && vals[i] != Val::Draw
            && vals[i] != Val::Illegal)
}

/// A position of the table, as a value of the position type's model.
pub proof fn lemma_position_wf(setup: &Setup, i: int)
    requires
        setup.wf(),
        0 <= i < size_spec(setup),
    ensures
        position_sqs(setup, i).len() == setup.slots.len(),
        squares_below(position_sqs(setup, i), setup.area_spec()),
        crate::board::answers_fit(setup, pos_answers(setup, i)),
        crate::board::never_blocks(pos_answers(setup, i)),
{
    lemma_position_of_index(setup, i);
    let sqs = position_sqs(setup, i);
    let a = pos_answers(setup, i);
    assert forall|q: Sq| (#[trigger] (a.0)(q)) is Ok && (a.0)(q)->Ok_0 is Some implies (a.0)(
        q,
    )->Ok_0->Some_0 < setup.slots.len() by {
        crate::board::lemma_occ_from(sqs, q, 0);
    }
}

/// Every successor index is an index of the table.
pub proof fn lemma_succ_in_range(setup: &Setup, i: int)
    requires
        setup.wf(),
        0 <= i < size_spec(setup),
    ensures
        forall|k: int| 0 <= k < succ_at(setup, i).len() ==> 0 <= #[trigger] succ_at(setup, i)[k] < size_spec(setup),
{
    lemma_position_wf(setup, i);
    let a = pos_answers(setup, i);
    lemma_legal_moves_never_blocks(setup, a, position_stm(i));
    lemma_legal_moves_ok(setup, a, position_stm(i));
    let ms = moves_at(setup, i);
    let sqs = position_sqs(setup, i);
    assert forall|k: int| 0 <= k < succ_at(setup, i).len() implies 0 <= #[trigger] succ_at(setup, i)[k]
        < size_spec(setup) by {
        let m = ms[k];
        assert(move_ok(setup, m));
        let p2 = play_spec(sqs, m);
        assert(squares_below(p2, setup.area_spec()));
        lemma_index_of_position(setup, p2, flip_spec(position_stm(i)));
    }
}

/// Entries that changed from a draw keep soundness if they are sound themselves.
proof fn lemma_decides_keeps(setup: &Setup, old: Seq<Val>, vals: Seq<Val>, legal: Seq<usize>, moves: Seq<Vec<usize>>)
    requires
        setup.wf(),
        sound(setup, old),
        structure(setup, old, legal, moves),
        only_decides(old, vals),
        forall|i: int|
            0 <= i < vals.len() && vals[i] != old[i] ==> decided_ok(setup, vals, i) && !(#[trigger] vals[i]
                == Val::Loss(0)) && exists|k: int| 0 <= k < legal.len() && legal[k] == i,
    ensures
        sound(setup, vals),
        structure(setup, vals, legal, moves),
{
    assert forall|i: int| 0 <= i < vals.len() implies #[trigger] decided_ok(setup, vals, i) by {
        if vals[i] == old[i] {
            lemma_succ_in_range(setup, i);
            assert(decided_ok(setup, old, i));
            match vals[i] {
                Val::Win(d) => {
                    let k = choose|k: int|
                        0 <= k < succ_at(setup, i).len() && loss_below(#[trigger] old[succ_at(setup, i)[k]], d as int);
                    assert(vals[succ_at(setup, i)[k]] == old[succ_at(setup, i)[k]]);
                },
                Val::Loss(d) => {
                    if d > 0 {
                        assert forall|k: int| 0 <= k < succ_at(setup, i).len() implies win_below(#[trigger] vals[succ_at(
                            setup,
                            i,
                        )[k]], d as int) by {
                            assert(win_below(old[succ_at(setup, i)[k]], d as int));
                        }
                    }
                },
                _ => {},
            }
        }
    }
    assert forall|i: int| 0 <= i < vals.len() implies #[trigger] terminal_ok(setup, vals, i) by {
        assert(terminal_ok(setup, old, i));
        if vals[i] != old[i] {
            let k = choose|k: int| 0 <= k < legal.len() && legal[k] == i;
            assert(moves_at(setup, legal[k] as int).len() > 0);
        }
    }
    assert forall|i: int| 0 <= i < vals.len() implies ((#[trigger] vals[i] == Val::Illegal) == !legal_at(
        setup,
        i,
    )) by {
        assert((old[i] == Val::Illegal) == !legal_at(setup, i));
    }
}

/// The entries among the first `n` of `undecided` whose position holds a
/// draw, in order.
pub open spec fn draws_of(vals: Seq<Val>, legal: Seq<usize>, undecided: Seq<usize>, n: int) -> Seq<usize>
    decreases n,
{
    if n <= 0 {
        Seq::empty()
    } else if vals[legal[undecided[n - 1] as int] as int] == Val::Draw {
        draws_of(vals, legal, undecided, n - 1).push(undecided[n - 1])
    } else {
        draws_of(vals, legal, undecided, n - 1)
    }
}

/// Position `i` has a move to a loss in fewer than `d` plies.
pub open spec fn wins_now(setup: &Setup, vals: Seq<Val>, i: int, d: int) -> bool {
    exists|t: int| 0 <= t < succ_at(setup, i).len() && loss_below(#[trigger] vals[succ_at(setup, i)[t]], d)
}

/// Every move of position `i` leads to a win.
pub open spec fn loses_now(setup: &Setup, vals: Seq<Val>, i: int) -> bool {
    forall|t: int| 0 <= t < succ_at(setup, i).len() ==> (#[trigger] vals[succ_at(setup, i)[t]]) is Win
}

/// The kept entries of `undecided`: those whose position still holds a draw.
fn keep_draws(vals: &Vec<Val>, legal: &Vec<usize>, undecided: &Vec<usize>) -> (r: Vec<usize>)
    requires
        forall|u: int| 0 <= u < undecided.len() ==> (#[trigger] undecided@[u]) < legal.len(),
        forall|k: int| 0 <= k < legal.len() ==> (#[trigger] legal@[k]) < vals.len(),
    ensures
        undecided_ok(vals@, legal@, r@),
        r@ == draws_of(vals@, legal@, undecided@, undecided.len() as int),
        r.len() <= undecided.len(),
        (exists|u: int| 0 <= u < undecided.len() && vals@[legal@[#[trigger] undecided@[u] as int] as int]
            != Val::Draw) ==> r.len() < undecided.len(),
{
    let mut r: Vec<usize> = Vec::new();
    let mut i: usize = 0;
    let ghost mut dropped = false;
    while i < undecided.len()
        invariant
            0 <= i <= undecided.len(),
            forall|u: int| 0 <= u < undecided.len() ==> (#[trigger] undecided@[u]) < legal.len(),
            forall|k: int| 0 <= k < legal.len() ==> (#[trigger] legal@[k]) < vals.len(),
            undecided_ok(vals@, legal@, r@),
            r.len() + (if dropped {
                1int
            } else {
                0int
            }) <= i,
            dropped == exists|u: int| 0 <= u < i && vals@[legal@[#[trigger] undecided@[u] as int] as int] != Val::Draw,
            r@ == draws_of(vals@, legal@, undecided@, i as int),
        decreases undecided.len() - i,
    {
        let k = undecided[i];
        if vals[legal[k]] == Val::Draw {
            r.push(k);
        } else {
            proof {
                dropped = true;
            }
        }
        i += 1;
    }
    r
}

fn has_loss_below(vals: &Vec<Val>, succ: &Vec<usize>, d: u16) -> (r: bool)
    requires
        forall|t: int| 0 <= t < succ.len() ==> (#[trigger] succ@[t]) < vals.len(),
    ensures
        r == exists|t: int| 0 <= t < succ.len() && loss_below(#[trigger] vals@[succ@[t] as int], d as int),
{
    let mut t: usize = 0;
    while t < succ.len()
        invariant
            0 <= t <= succ.len(),
            forall|u: int| 0 <= u < succ.len() ==> (#[trigger] succ@[u]) < vals.len(),
            forall|u: int| 0 <= u < t ==> !loss_below(#[trigger] vals@[succ@[u] as int], d as int),
        decreases succ.len() - t,
    {
        match vals[succ[t]] {
            Val::Loss(m) => {
                if m < d {
                    return true;
                }
            },
            _ => {},
        }
        t += 1;
    }
    false
}

fn all_wins(vals: &Vec<Val>, succ: &Vec<usize>) -> (r: bool)
    requires
        forall|t: int| 0 <= t < succ.len() ==> (#[trigger] succ@[t]) < vals.len(),
    ensures
        r == forall|t: int| 0 <= t < succ.len() ==> (#[trigger] vals@[succ@[t] as int]) is Win,
{
    let mut t: usize = 0;
    while t < succ.len()
        invariant
            0 <= t <= succ.len(),
            forall|u: int| 0 <= u < succ.len() ==> (#[trigger] succ@[u]) < vals.len(),
            forall|u: int| 0 <= u < t ==> (#[trigger] vals@[succ@[u] as int]) is Win,
        decreases succ.len() - t,
    {
        match vals[succ[t]] {
            Val::Win(_) => {},
            _ => {
                return false;
            },
        }
        t += 1;
    }
    true
}

/// Win phase: every undecided position with a move to a loss in fewer than
/// `d` plies becomes a win in `d`.
fn win_phase(
    setup: &Setup,
    vals: &mut Vec<Val>,
    legal: &Vec<usize>,
    moves: &Vec<Vec<usize>>,
    undecided: &Vec<usize>,
    d: u16,
) -> (changed: bool)
    requires
        setup.wf(),
        1 <= d < 65534,
        sound(setup, old(vals)@),
        structure(setup, old(vals)@, legal@, moves@),
        undecided_ok(old(vals)@, legal@, undecided@),
        depth_below(old(vals)@, d as int),
    ensures
        sound(setup, final(vals)@),
        structure(setup, final(vals)@, legal@, moves@),
        only_decides(old(vals)@, final(vals)@),
        depth_below(final(vals)@, d as int),
        changed ==> exists|u: int|
            0 <= u < undecided.len() && final(vals)@[legal@[#[trigger] undecided@[u] as int] as int]
                != Val::Draw,
        forall|w: int|
            0 <= w < undecided.len() ==> final(vals)@[legal@[#[trigger] undecided@[w] as int] as int] == (if wins_now(
                setup,
                old(vals)@,
                legal@[undecided@[w] as int] as int,
                d as int,
            ) {
                Val::Win(d)
            } else {
                Val::Draw
            }),
        forall|i: int|
            0 <= i < final(vals).len() && #[trigger] final(vals)@[i] != old(vals)@[i] ==> exists|w: int|
                0 <= w < undecided.len() && legal@[undecided@[w] as int] == i,
        changed == exists|w: int| 0 <= w < undecided.len() && #[trigger] wins_now(setup, old(vals)@, legal@[undecided@[w] as int] as int, d as int),
{
    let mut changed = false;
    let mut u: usize = 0;
    while u < undecided.len()
        invariant
            0 <= u <= undecided.len(),
            setup.wf(),
            1 <= d < 65534,
            sound(setup, vals@),
            structure(setup, vals@, legal@, moves@),
            only_decides(old(vals)@, vals@),
            depth_below(vals@, d as int),
            undecided_ok(old(vals)@, legal@, undecided@),
            vals.len() == old(vals).len(),
            forall|i: int| 0 <= i < vals.len() ==> #[trigger] vals@[i] == old(vals)@[i] || (old(vals)@[i] == Val::Draw && vals@[i] == Val::Win(d)),
            forall|w: int|
                0 <= w < u ==> vals@[legal@[#[trigger] undecided@[w] as int] as int] == (if wins_now(
                    setup,
                    old(vals)@,
                    legal@[undecided@[w] as int] as int,
                    d as int,
                ) {
                    Val::Win(d)
                } else {
                    Val::Draw
                }),
            forall|i: int|
                0 <= i < vals.len() && #[trigger] vals@[i] != old(vals)@[i] ==> exists|w: int|
                    0 <= w < u && legal@[undecided@[w] as int] == i,
            changed == exists|w: int| 0 <= w < u && #[trigger] wins_now(setup, old(vals)@, legal@[undecided@[w] as int] as int, d as int),
            forall|w: int| 0 <= w < undecided.len() ==> (#[trigger] undecided@[w]) < legal.len(),
            forall|w: int|
                0 <= w < undecided.len() ==> (vals@[legal@[#[trigger] undecided@[w] as int] as int]
                    == Val::Draw || vals@[legal@[undecided@[w] as int] as int] == Val::Win(d)),
            changed ==> exists|w: int|
                0 <= w < undecided.len() && vals@[legal@[#[trigger] undecided@[w] as int] as int]
                    != Val::Draw,
        decreases undecided.len() - u,
    {
        let k = undecided[u];
        proof {
            assert(structure(setup, vals@, legal@, moves@));
            assert(legal@[k as int] < size_spec(setup));
        }
        let ghost before = vals@;
        let hit = has_loss_below(vals, &moves[k], d);
        proof {
            let i = legal@[k as int] as int;
            assert(hit == wins_now(setup, old(vals)@, i, d as int)) by {
                if hit {
                    let t = choose|t: int| 0 <= t < moves@[k as int]@.len() && loss_below(#[trigger] before[moves@[k as int]@[t] as int], d as int);
                    assert(moves@[k as int]@[t] as int == succ_at(setup, i)[t]);
                    assert(loss_below(old(vals)@[succ_at(setup, i)[t]], d as int));
                }
                if wins_now(setup, old(vals)@, i, d as int) {
                    let t = choose|t: int| 0 <= t < succ_at(setup, i).len() && loss_below(#[trigger] old(vals)@[succ_at(setup, i)[t]], d as int);
                    assert(moves@[k as int]@[t] as int == succ_at(setup, i)[t]);
                    assert(loss_below(before[moves@[k as int]@[t] as int], d as int));
                }
            }
            assert(old(vals)@[i] == Val::Draw);
        }
        if hit {
            let i = legal[k];
            vals.set(i, Val::Win(d));
            proof {
                let t = choose|t: int| 0 <= t < moves@[k as int]@.len() && loss_below(
                    #[trigger] before[moves@[k as int]@[t] as int],
                    d as int,
                );
                let j = moves@[k as int]@[t] as int;
                assert(j == succ_at(setup, i as int)[t]);
                assert(j != i);
                assert(vals@[j] == before[j]);
                assert(decided_ok(setup, vals@, i as int));
                lemma_decides_keeps(setup, before, vals@, legal@, moves@);
                assert(vals@[legal@[undecided@[u as int] as int] as int] != Val::Draw);
            }
            changed = true;
        }
        proof {
            let i = legal@[k as int] as int;
            assert forall|w: int|
                0 <= w < u + 1 implies vals@[legal@[#[trigger] undecided@[w] as int] as int] == (if wins_now(
                    setup,
                    old(vals)@,
                    legal@[undecided@[w] as int] as int,
                    d as int,
                ) {
                    Val::Win(d)
                } else {
                    Val::Draw
                }) by {
                if w < u && legal@[undecided@[w] as int] as int != i {
                    assert(vals@[legal@[undecided@[w] as int] as int] == before[legal@[undecided@[w] as int] as int]);
                }
            }
            assert forall|j: int| 0 <= j < vals.len() && #[trigger] vals@[j] != old(vals)@[j] implies exists|w: int|
                0 <= w < u + 1 && legal@[undecided@[w] as int] == j by {
                if j != i {
                    assert(vals@[j] == before[j]);
                } else {
                    assert(legal@[undecided@[u as int] as int] == j);
                }
            }
            if hit {
                assert(wins_now(setup, old(vals)@, legal@[undecided@[u as int] as int] as int, d as int));
            }
        }
        u += 1;
    }
    changed
}

/// Loss phase: every undecided position whose moves all lead to wins
/// becomes a loss in `d + 1`.
fn loss_phase(
    setup: &Setup,
    vals: &mut Vec<Val>,
    legal: &Vec<usize>,
    moves: &Vec<Vec<usize>>,
    undecided: &Vec<usize>,
    d: u16,
) -> (changed: bool)
    requires
        setup.wf(),
        1 <= d < 65534,
        sound(setup, old(vals)@),
        structure(setup, old(vals)@, legal@, moves@),
        undecided_ok(old(vals)@, legal@, undecided@),
        depth_below(old(vals)@, d as int),
    ensures
        sound(setup, final(vals)@),
        structure(setup, final(vals)@, legal@, moves@),
        only_decides(old(vals)@, final(vals)@),
        depth_below(final(vals)@, d + 1),
        changed ==> exists|u: int|
            0 <= u < undecided.len() && final(vals)@[legal@[#[trigger] undecided@[u] as int] as int]
                != Val::Draw,
        forall|w: int|
            0 <= w < undecided.len() ==> final(vals)@[legal@[#[trigger] undecided@[w] as int] as int] == (if loses_now(
                setup,
                old(vals)@,
                legal@[undecided@[w] as int] as int,
            ) {
                Val::Loss((d + 1) as u16)
            } else {
                Val::Draw
            }),
        forall|i: int|
            0 <= i < final(vals).len() && #[trigger] final(vals)@[i] != old(vals)@[i] ==> exists|w: int|
                0 <= w < undecided.len() && legal@[undecided@[w] as int] == i,
        changed == exists|w: int| 0 <= w < undecided.len() && #[trigger] loses_now(setup, old(vals)@, legal@[undecided@[w] as int] as int),
{
    let mut changed = false;
    let mut u: usize = 0;
    while u < undecided.len()
        invariant
            0 <= u <= undecided.len(),
            setup.wf(),
            1 <= d < 65534,
            sound(setup, vals@),
            structure(setup, vals@, legal@, moves@),
            only_decides(old(vals)@, vals@),
            depth_below(vals@, d + 1),
            undecided_ok(old(vals)@, legal@, undecided@),
            vals.len() == old(vals).len(),
            forall|i: int|
                0 <= i < vals.len() ==> #[trigger] vals@[i] == old(vals)@[i] || (old(vals)@[i] == Val::Draw && vals@[i] == Val::Loss((d + 1) as u16)),
            forall|w: int|
                0 <= w < u ==> vals@[legal@[#[trigger] undecided@[w] as int] as int] == (if loses_now(
                    setup,
                    old(vals)@,
                    legal@[undecided@[w] as int] as int,
                ) {
                    Val::Loss((d + 1) as u16)
                } else {
                    Val::Draw
                }),
            forall|i: int|
                0 <= i < vals.len() && #[trigger] vals@[i] != old(vals)@[i] ==> exists|w: int|
                    0 <= w < u && legal@[undecided@[w] as int] == i,
            changed == exists|w: int| 0 <= w < u && #[trigger] loses_now(setup, old(vals)@, legal@[undecided@[w] as int] as int),
            forall|i: int| 0 <= i < vals.len() ==> !win_below(#[trigger] vals@[i], 0) && ((vals@[i] is Win) ==> win_below(vals@[i], d + 1)),
            forall|w: int| 0 <= w < undecided.len() ==> (#[trigger] undecided@[w]) < legal.len(),
            forall|w: int|
                0 <= w < undecided.len() ==> (vals@[legal@[#[trigger] undecided@[w] as int] as int]
                    == Val::Draw || vals@[legal@[undecided@[w] as int] as int] == Val::Loss((d + 1) as u16)),
            changed ==> exists|w: int|
                0 <= w < undecided.len() && vals@[legal@[#[trigger] undecided@[w] as int] as int]
                    != Val::Draw,
        decreases undecided.len() - u,
    {
        let k = undecided[u];
        proof {
            assert(structure(setup, vals@, legal@, moves@));
            assert(legal@[k as int] < size_spec(setup));
        }
        let ghost before = vals@;
        let hit = all_wins(vals, &moves[k]);
        proof {
            let i = legal@[k as int] as int;
            assert(hit == loses_now(setup, old(vals)@, i)) by {
                if hit {
                    assert forall|t: int| 0 <= t < succ_at(setup, i).len() implies (#[trigger] old(vals)@[succ_at(setup, i)[t]]) is Win by {
                        assert(moves@[k as int]@[t] as int == succ_at(setup, i)[t]);
                        assert(before[moves@[k as int]@[t] as int] is Win);
                    }
                }
                if loses_now(setup, old(vals)@, i) {
                    assert forall|t: int| 0 <= t < moves@[k as int]@.len() implies (#[trigger] before[moves@[k as int]@[t] as int]) is Win by {
                        assert(moves@[k as int]@[t] as int == succ_at(setup, i)[t]);
                        assert(old(vals)@[succ_at(setup, i)[t]] is Win);
                    }
                }
            }
            assert(old(vals)@[i] == Val::Draw);
        }
        if hit {
            let i = legal[k];
            vals.set(i, Val::Loss(d + 1));
            proof {
                assert(moves_at(setup, i as int).len() > 0);
                assert forall|t: int| 0 <= t < succ_at(setup, i as int).len() implies win_below(
                    #[trigger] vals@[succ_at(setup, i as int)[t]],
                    d + 1,
                ) by {
                    let j = moves@[k as int]@[t] as int;
                    assert(j == succ_at(setup, i as int)[t]);
                    assert(before[j] is Win);
                    assert(j != i);
                }
                assert(decided_ok(setup, vals@, i as int));
                lemma_decides_keeps(setup, before, vals@, legal@, moves@);
                assert(vals@[legal@[undecided@[u as int] as int] as int] != Val::Draw);
            }
            changed = true;
        }
        proof {
            let i = legal@[k as int] as int;
            assert forall|w: int|
                0 <= w < u + 1 implies vals@[legal@[#[trigger] undecided@[w] as int] as int] == (if loses_now(
                    setup,
                    old(vals)@,
                    legal@[undecided@[w] as int] as int,
                ) {
                    Val::Loss((d + 1) as u16)
                } else {
                    Val::Draw
                }) by {
                if w < u && legal@[undecided@[w] as int] as int != i {
                    assert(vals@[legal@[undecided@[w] as int] as int] == before[legal@[undecided@[w] as int] as int]);
                }
            }
            assert forall|j: int| 0 <= j < vals.len() && #[trigger] vals@[j] != old(vals)@[j] implies exists|w: int|
                0 <= w < u + 1 && legal@[undecided@[w] as int] == j by {
                if j != i {
                    assert(vals@[j] == before[j]);
                } else {
                    assert(legal@[undecided@[u as int] as int] == j);
                }
            }
            if hit {
                assert(loses_now(setup, old(vals)@, legal@[undecided@[u as int] as int] as int));
            }
        }
        u += 1;
    }
    changed
}

impl Table {
    pub fn get(&self, p: &Position) -> (r: Val)
        requires
            self.setup.wf(),
            self.vals.len() == size_spec(&self.setup),
            size_spec(&self.setup) <= usize::MAX,
            p.sqs.len() == self.setup.slots.len(),
            squares_below(p.sqs@, self.setup.area_spec()),
        ensures
            r == self.vals@[index_spec(&self.setup, p.sqs@, p.stm)],
    {
        self.vals[Self::index(&self.setup, p)]
    }

    /// Solve by iterating to a fixpoint. Pass k discovers Win(2k-1) and Loss(2k).
    #[verifier::rlimit(100)]
    #[verifier::spinoff_prover]
    pub fn solve(setup: Setup) -> (t: Table)
        requires
            setup.wf(),
            size_spec(&setup) <= usize::MAX,
        ensures
            t.setup == setup,
            sound(&t.setup, t.vals@),
            parity_ok(t.vals@),
            table_exact(&t.setup, t.vals@) || (32767 <= size_spec(&t.setup) && depth_exhausted(t.vals@)),
            table_checked(&t.setup, t.vals@) || (32767 <= size_spec(&t.setup) && depth_exhausted(t.vals@)),
    {
        let size = Self::size(&setup);
        let mut vals: Vec<Val> = Vec::new();
        let mut legal: Vec<usize> = Vec::new();
        let mut moves: Vec<Vec<usize>> = Vec::new();
        let mut nq: u64 = 0;
        let mut i: usize = 0;
        while i < size
            invariant
                0 <= i <= size,
                size == size_spec(&setup),
                size <= usize::MAX,
                setup.wf(),
                vals.len() == i,
                forall|j: int| 0 <= j < i ==> ((#[trigger] vals@[j] == Val::Illegal) == !legal_at(&setup, j)),
                forall|j: int|
                    0 <= j < i ==> (legal_at(&setup, j) && kings_only_at(&setup, j) ==> #[trigger] vals@[j]
                        == Val::Draw),
                forall|j: int|
                    0 <= j < i ==> (legal_at(&setup, j) && !kings_only_at(&setup, j) && moves_at(&setup, j).len()
                        == 0 ==> #[trigger] vals@[j] == (if checked_at(&setup, j) {
                        Val::Loss(0)
                    } else {
                        Val::Draw
                    })),
                forall|j: int|
                    0 <= j < i ==> (#[trigger] vals@[j] == Val::Draw || vals@[j] == Val::Illegal || vals@[j]
                        == Val::Loss(0)),
                forall|j: int|
                    0 <= j < i ==> (#[trigger] vals@[j] == Val::Loss(0) ==> legal_at(&setup, j) && !kings_only_at(
                        &setup,
                        j,
                    ) && moves_at(&setup, j).len() == 0 && checked_at(&setup, j)),
                structure(&setup, vals@, legal@, moves@),
                forall|k: int| 0 <= k < legal.len() ==> (#[trigger] legal@[k]) < i && vals@[legal@[k] as int]
                    == Val::Draw,
                legal.len() <= i,
                forall|j: int|
                    0 <= j < i && #[trigger] legal_at(&setup, j) && !kings_only_at(&setup, j) && moves_at(
                        &setup,
                        j,
                    ).len() > 0 ==> exists|k: int| 0 <= k < legal.len() && #[trigger] legal@[k] == j,
            decreases size - i,
        {
            proof {
                lemma_position_wf(&setup, i as int);
            }
            let p = Self::position(&setup, i);
            let o = Counting { p: &p };
            proof {
                lemma_position_fits(&setup, &p);
            }
            if !p.is_legal_via(&setup, &o, &mut nq) {
                vals.push(Val::Illegal);
                i += 1;
                continue;
            }
            if p.only_kings(&setup) {
                vals.push(Val::Draw);
                i += 1;
                continue;
            }
            proof {
                lemma_legal_moves_never_blocks(&setup, p.answers(), p.stm);
                lemma_legal_moves_ok(&setup, p.answers(), p.stm);
                lemma_in_check_never_blocks(&setup, p.answers(), p.stm);
            }
            let lm = match legal_moves(&setup, &o, &mut nq, p.stm) {
                Ok(v) => v,
                Err(_) => Vec::new(),
            };
            if lm.len() == 0 {
                let chk = match in_check(&setup, &o, &mut nq, p.stm) {
                    Ok(c) => c,
                    Err(_) => false,
                };
                vals.push(
                    if chk {
                        Val::Loss(0)
                    } else {
                        Val::Draw
                    },
                );
                i += 1;
                continue;
            }
            let mut succ: Vec<usize> = Vec::new();
            let mut t: usize = 0;
            while t < lm.len()
                invariant
                    0 <= t <= lm.len(),
                    setup.wf(),
                    size == size_spec(&setup),
                    size <= usize::MAX,
                    0 <= i < size,
                    lm@ == moves_at(&setup, i as int),
                    p.sqs@ == position_sqs(&setup, i as int),
                    p.stm == position_stm(i as int),
                    p.sqs.len() == setup.slots.len(),
                    squares_below(p.sqs@, setup.area_spec()),
                    crate::board::moves_ok(&setup, lm@),
                    succ.len() == t,
                    forall|u: int|
                        0 <= u < t ==> #[trigger] succ@[u] as int == succ_at(&setup, i as int)[u] && succ@[u]
                            < size,
                decreases lm.len() - t,
            {
                let m = lm[t];
                assert(move_ok(&setup, lm@[t as int]));
                let q = p.play(m);
                assert(squares_below(q.sqs@, setup.area_spec()));
                let x = Self::index(&setup, &q);
                succ.push(x);
                t += 1;
            }
            proof {
                lemma_legal_moves_never_blocks(&setup, p.answers(), p.stm);
            }
            let ghost before_moves = moves@;
            let ghost before_legal = legal@;
            vals.push(Val::Draw);
            legal.push(i);
            moves.push(succ);
            proof {
                assert forall|j: int|
                    0 <= j < i + 1 && #[trigger] legal_at(&setup, j) && !kings_only_at(&setup, j) && moves_at(
                        &setup,
                        j,
                    ).len() > 0 implies exists|k: int| 0 <= k < legal.len() && #[trigger] legal@[k] == j by {
                    if j < i {
                        let k = choose|k: int| 0 <= k < before_legal.len() && #[trigger] before_legal[k] == j;
                        assert(legal@[k] == j);
                    } else {
                        assert(legal@[legal.len() - 1] == j);
                    }
                }
                assert forall|k: int| 0 <= k < legal.len() implies {
                    &&& (#[trigger] legal@[k]) < size_spec(&setup)
                    &&& legal_at(&setup, legal@[k] as int)
                    &&& !kings_only_at(&setup, legal@[k] as int)
                    &&& moves_at(&setup, legal@[k] as int).len() > 0
                    &&& moves@[k]@.len() == succ_at(&setup, legal@[k] as int).len()
                    &&& forall|t: int|
                        0 <= t < moves@[k]@.len() ==> #[trigger] moves@[k]@[t] as int == succ_at(
                            &setup,
                            legal@[k] as int,
                        )[t] && moves@[k]@[t] < size_spec(&setup)
                } by {
                    if k < legal.len() - 1 {
                        assert(moves@[k] == before_moves[k]);
                    }
                }
            }
            i += 1;
        }
        assert forall|j: int| 0 <= j < vals.len() implies #[trigger] terminal_ok(&setup, vals@, j) by {
            assert(vals@[j] == vals@[j]);
        }
        assert forall|j: int| 0 <= j < vals.len() implies #[trigger] decided_ok(&setup, vals@, j) by {
            assert(vals@[j] == vals@[j]);
        }
        let mut undecided: Vec<usize> = Vec::new();
        let mut k: usize = 0;
        while k < legal.len()
            invariant
                0 <= k <= legal.len(),
                undecided.len() == k,
                forall|u: int| 0 <= u < k ==> #[trigger] undecided@[u] == u,
            decreases legal.len() - k,
        {
            undecided.push(k);
            k += 1;
        }
        proof {
            assert(listed(&setup, legal@));
            assert forall|k: int| 0 <= k < legal.len() && #[trigger] vals@[legal@[k] as int] == Val::Draw implies
                exists|u: int| 0 <= u < undecided.len() && #[trigger] undecided@[u] == k by {
                assert(undecided@[k] == k);
            }
            assert forall|k: int| 0 <= k < legal.len() && #[trigger] vals@[legal@[k] as int] == Val::Draw implies
                !wins_now(&setup, vals@, legal@[k] as int, -1) && !loses_now(&setup, vals@, legal@[k] as int) by {
                lemma_succ_in_range(&setup, legal@[k] as int);
                let ss = succ_at(&setup, legal@[k] as int);
                assert(!(vals@[ss[0]] is Win));
            }
            assert(draws_open(&setup, vals@, legal@, 0));
        }
        let mut passes: u32 = 0;
        loop
            invariant_except_break
                passes <= 32766,
                passes + undecided.len() <= legal.len(),
            invariant
                setup.wf(),
                passes <= 32767,
                vals.len() == size_spec(&setup),
                sound(&setup, vals@),
                structure(&setup, vals@, legal@, moves@),
                undecided_ok(vals@, legal@, undecided@),
                depth_below(vals@, 2 * passes),
                parity_ok(vals@),
                all_exact(&setup, vals@),
                listed(&setup, legal@),
                on_watch(vals@, legal@, undecided@),
                draws_open(&setup, vals@, legal@, passes as int),
                legal.len() <= size_spec(&setup),
            ensures
                sound(&setup, vals@),
                parity_ok(vals@),
                table_exact(&setup, vals@) || (32767 <= size_spec(&setup) && depth_exhausted(vals@)),
            decreases 32767 - passes,
        {
            passes += 1;
            let d: u16 = 2 * (passes as u16) - 1;
            let ghost vals0 = vals@;
            let c1 = win_phase(&setup, &mut vals, &legal, &moves, &undecided, d);
            let ghost vals1 = vals@;
            let mid = keep_draws(&vals, &legal, &undecided);
            let c2 = loss_phase(&setup, &mut vals, &legal, &moves, &mid, d);
            let ghost vals2 = vals@;
            let next = keep_draws(&vals, &legal, &mid);
            proof {
                let p = passes as int;
                assert(pass_facts(&setup, vals0, vals1, vals2, legal@, undecided@, mid@, p));
                lemma_pass_step(&setup, vals0, vals1, vals2, legal@, undecided@, mid@, p);
                lemma_pass_parity(&setup, vals0, vals1, vals2, p);
                lemma_pass_exact(&setup, vals0, vals1, vals2, legal@, moves@, undecided@, mid@, p);
                lemma_pass_open(&setup, vals0, vals1, vals2, legal@, moves@, undecided@, mid@, next@, p);
            }
            let ghost u0 = undecided@;
            undecided = next;
            if !(c1 || c2) {
                proof {
                    let p = passes as int;
                    assert(vals1 =~= vals0) by {
                        assert forall|i: int| 0 <= i < vals0.len() implies vals1[i] == vals0[i] by {
                            if vals1[i] != vals0[i] {
                                let w = choose|w: int| 0 <= w < u0.len() && legal@[u0[w] as int] == i;
                                assert(false);
                            }
                        }
                    }
                    assert(vals2 =~= vals1) by {
                        assert forall|i: int| 0 <= i < vals1.len() implies vals2[i] == vals1[i] by {
                            if vals2[i] != vals1[i] {
                                let w = choose|w: int| 0 <= w < mid@.len() && legal@[mid@[w] as int] == i;
                                assert(false);
                            }
                        }
                    }
                    lemma_fixpoint_exact(&setup, vals@, legal@, moves@, p);
                }
                break;
            }
            proof {
                if c1 {
                    assert(mid.len() < u0.len());
                } else {
                    assert(undecided.len() < mid.len());
                }
            }
            if passes >= 32767 {
                proof {
                    let p = passes as int;
                    if c1 {
                        let w = choose|w: int| 0 <= w < u0.len() && #[trigger] wins_now(&setup, vals0, legal@[u0[w] as int] as int, d as int);
                        let i = legal@[u0[w] as int] as int;
                        assert(vals1[i] == Val::Win(d));
                        assert(pass_step(&setup, vals0, vals1, vals2, i, p));
                        assert(vals@[i] == Val::Win(65533));
                    } else {
                        let w = choose|w: int| 0 <= w < mid@.len() && #[trigger] loses_now(&setup, vals1, legal@[mid@[w] as int] as int);
                        let i = legal@[mid@[w] as int] as int;
                        assert(vals@[i] == Val::Loss(65534));
                    }
                }
                break;
            }
        }
        proof {
            lemma_solved_checked(&setup, vals@);
        }
        Table { setup, vals, passes, queries: nq }
    }
}


// ---------------------------------------------------------------------
// Checking a solved table
// ---------------------------------------------------------------------

/// The values of the positions the legal moves at `i` lead to.
pub open spec fn succ_vals_at(setup: &Setup, vals: Seq<Val>, i: int) -> Seq<Val> {
    succ_at(setup, i).map_values(|j: int| vals[j])
}

/// The shallowest loss among `sv[..k]`.
pub open spec fn min_loss(sv: Seq<Val>, k: int) -> Option<u16>
    decreases k,
{
    if k <= 0 {
        None
    } else {
        let rest = min_loss(sv, k - 1);
        match sv[k - 1] {
            Val::Loss(m) => match rest {
                Some(r) => Some(if m < r {
                    m
                } else {
                    r
                }),
                None => Some(m),
            },
            _ => rest,
        }
    }
}

/// The deepest win among `sv[..k]`, if all are wins and there is one.
pub open spec fn max_win_all(sv: Seq<Val>, k: int) -> Option<u16>
    decreases k,
{
    if k <= 0 {
        None
    } else if !(sv[k - 1] is Win) {
        None
    } else if k == 1 {
        Some(sv[0]->Win_0)
    } else {
        match max_win_all(sv, k - 1) {
            Some(r) => Some(if sv[k - 1]->Win_0 > r {
                sv[k - 1]->Win_0
            } else {
                r
            }),
            None => None,
        }
    }
}

/// The local consistency of the value at `i` with forward move generation.
pub open spec fn check_at(setup: &Setup, vals: Seq<Val>, i: int) -> bool {
    vals[i] == Val::Illegal || (legal_at(setup, i) && if kings_only_at(setup, i) {
        vals[i] == Val::Draw
    } else {
        let sv = succ_vals_at(setup, vals, i);
        let none = moves_at(setup, i).len() == 0;
        let check = checked_at(setup, i);
        &&& forall|k: int| 0 <= k < sv.len() ==> #[trigger] sv[k] != Val::Illegal
        &&& match vals[i] {
            Val::Draw => !(none && check) && (forall|k: int| 0 <= k < sv.len() ==> !(#[trigger] sv[k] is Loss))
                && !(!none && forall|k: int| 0 <= k < sv.len() ==> (#[trigger] sv[k]) is Win),
            Val::Win(d) => min_loss(sv, sv.len() as int) == Some((d - 1) as u16),
            Val::Loss(d) => if d == 0 {
                none && check
            } else {
                !none && max_win_all(sv, sv.len() as int) == Some((d - 1) as u16)
            },
            Val::Illegal => true,
        }
    })
}

pub open spec fn no_zero_win(vals: Seq<Val>) -> bool {
    forall|i: int| 0 <= i < vals.len() ==> #[trigger] vals[i] != Val::Win(0)
}

/// The value at `i` agrees with the values its moves lead to: the part of
/// `check_at` that speaks of values, not of the legality of successors.
pub open spec fn exact_at(setup: &Setup, vals: Seq<Val>, i: int) -> bool {
    vals[i] == Val::Illegal || (legal_at(setup, i) && if kings_only_at(setup, i) {
        vals[i] == Val::Draw
    } else {
        let sv = succ_vals_at(setup, vals, i);
        let none = moves_at(setup, i).len() == 0;
        let check = checked_at(setup, i);
        match vals[i] {
            Val::Draw => !(none && check) && (forall|k: int| 0 <= k < sv.len() ==> !(#[trigger] sv[k] is Loss))
                && !(!none && forall|k: int| 0 <= k < sv.len() ==> (#[trigger] sv[k]) is Win),
            Val::Win(d) => min_loss(sv, sv.len() as int) == Some((d - 1) as u16),
            Val::Loss(d) => if d == 0 {
                none && check
            } else {
                !none && max_win_all(sv, sv.len() as int) == Some((d - 1) as u16)
            },
            Val::Illegal => true,
        }
    })
}

/// Every value of the table is the distance-to-mate its moves give it.
pub open spec fn table_exact(setup: &Setup, vals: Seq<Val>) -> bool {
    &&& no_zero_win(vals)
    &&& forall|i: int| 0 <= i < vals.len() ==> #[trigger] exact_at(setup, vals, i)
}

/// Wins are an odd number of plies, losses an even number.
pub open spec fn parity_ok(vals: Seq<Val>) -> bool {
    forall|i: int|
        0 <= i < vals.len() ==> match #[trigger] vals[i] {
            Val::Win(d) => d % 2 == 1,
            Val::Loss(d) => d % 2 == 0,
            _ => true,
        }
}

/// A solve that stopped because the depth counter ran out: a mate of
/// 65533 plies or more was reached.
pub open spec fn depth_exhausted(vals: Seq<Val>) -> bool {
    exists|i: int| 0 <= i < vals.len() && (#[trigger] vals[i] == Val::Win(65533) || vals[i] == Val::Loss(65534))
}

/// A win at `i` moves to a loss one ply shallower, and to none shallower still.
pub open spec fn win_exact(setup: &Setup, vals: Seq<Val>, i: int) -> bool {
    vals[i] matches Val::Win(d) ==> {
        &&& exists|t: int|
            0 <= t < succ_at(setup, i).len() && #[trigger] vals[succ_at(setup, i)[t]] == Val::Loss((d - 1) as u16)
        &&& forall|t: int|
            0 <= t < succ_at(setup, i).len() ==> !loss_below(#[trigger] vals[succ_at(setup, i)[t]], d - 1)
    }
}

/// A loss at `i` in `d > 0` plies has a move to a win in `d - 1`.
pub open spec fn loss_exact(setup: &Setup, vals: Seq<Val>, i: int) -> bool {
    vals[i] matches Val::Loss(d) ==> (d > 0 ==> exists|t: int|
        0 <= t < succ_at(setup, i).len() && #[trigger] vals[succ_at(setup, i)[t]] == Val::Win((d - 1) as u16))
}

pub open spec fn all_exact(setup: &Setup, vals: Seq<Val>) -> bool {
    forall|i: int|
        #![trigger win_exact(setup, vals, i)]
        #![trigger loss_exact(setup, vals, i)]
        0 <= i < vals.len() ==> win_exact(setup, vals, i) && loss_exact(setup, vals, i)
}

/// Every legal position with moves is on the bookkeeping list.
pub open spec fn listed(setup: &Setup, legal: Seq<usize>) -> bool {
    forall|j: int|
        0 <= j < size_spec(setup) && #[trigger] legal_at(setup, j) && !kings_only_at(setup, j) && moves_at(
            setup,
            j,
        ).len() > 0 ==> exists|k: int| 0 <= k < legal.len() && #[trigger] legal[k] == j
}

/// Every draw on the bookkeeping list is still among the undecided entries.
pub open spec fn on_watch(vals: Seq<Val>, legal: Seq<usize>, undecided: Seq<usize>) -> bool {
    forall|k: int|
        0 <= k < legal.len() && #[trigger] vals[legal[k] as int] == Val::Draw ==> exists|u: int|
            0 <= u < undecided.len() && #[trigger] undecided[u] == k
}

/// After `p` passes, a draw on the list has no move to a loss in fewer than
/// `2p - 1` plies, and not all its moves lead to wins.
pub open spec fn draws_open(setup: &Setup, vals: Seq<Val>, legal: Seq<usize>, p: int) -> bool {
    forall|k: int|
        0 <= k < legal.len() && #[trigger] vals[legal[k] as int] == Val::Draw ==> !wins_now(
            setup,
            vals,
            legal[k] as int,
            2 * p - 1,
        ) && !loses_now(setup, vals, legal[k] as int)
}

/// An entry of `undecided[..n]` whose position holds a draw is kept.
proof fn lemma_draws_of_keeps(vals: Seq<Val>, legal: Seq<usize>, undecided: Seq<usize>, n: int, u: int)
    requires
        0 <= u < n <= undecided.len(),
        vals[legal[undecided[u] as int] as int] == Val::Draw,
    ensures
        exists|v: int|
            0 <= v < draws_of(vals, legal, undecided, n).len() && #[trigger] draws_of(vals, legal, undecided, n)[v]
                == undecided[u],
    decreases n,
{
    let prev = draws_of(vals, legal, undecided, n - 1);
    if u < n - 1 {
        lemma_draws_of_keeps(vals, legal, undecided, n - 1, u);
        let v = choose|v: int| 0 <= v < prev.len() && #[trigger] prev[v] == undecided[u];
        if vals[legal[undecided[n - 1] as int] as int] == Val::Draw {
            assert(draws_of(vals, legal, undecided, n) == prev.push(undecided[n - 1]));
            assert(draws_of(vals, legal, undecided, n)[v] == undecided[u]);
        } else {
            assert(draws_of(vals, legal, undecided, n) == prev);
            assert(draws_of(vals, legal, undecided, n)[v] == undecided[u]);
        }
    } else {
        assert(draws_of(vals, legal, undecided, n) == prev.push(undecided[n - 1]));
        assert(draws_of(vals, legal, undecided, n)[prev.len() as int] == undecided[u]);
    }
}

/// What one pass of the solve does to a value: it stays, or a draw with a
/// move to a loss in fewer than `2p - 1` plies becomes a win in `2p - 1`,
/// or a draw all of whose moves then lead to wins becomes a loss in `2p`.
pub open spec fn pass_step(setup: &Setup, vals0: Seq<Val>, vals1: Seq<Val>, vals2: Seq<Val>, i: int, p: int) -> bool {
    ||| vals2[i] == vals0[i]
    ||| vals0[i] == Val::Draw && vals1[i] == Val::Win((2 * p - 1) as u16) && vals2[i] == vals1[i] && wins_now(
        setup,
        vals0,
        i,
        2 * p - 1,
    )
    ||| vals0[i] == Val::Draw && vals1[i] == Val::Draw && vals2[i] == Val::Loss((2 * p) as u16) && loses_now(
        setup,
        vals1,
        i,
    )
}

/// The facts the two phases of pass `p` leave behind.
pub open spec fn pass_facts(
    setup: &Setup,
    vals0: Seq<Val>,
    vals1: Seq<Val>,
    vals2: Seq<Val>,
    legal: Seq<usize>,
    undecided: Seq<usize>,
    mid: Seq<usize>,
    p: int,
) -> bool {
    &&& vals1.len() == vals0.len() && vals2.len() == vals0.len()
    &&& undecided_ok(vals0, legal, undecided)
    &&& undecided_ok(vals1, legal, mid)
    &&& only_decides(vals0, vals1)
    &&& only_decides(vals1, vals2)
    &&& forall|w: int|
        0 <= w < undecided.len() ==> vals1[legal[#[trigger] undecided[w] as int] as int] == (if wins_now(
            setup,
            vals0,
            legal[undecided[w] as int] as int,
            2 * p - 1,
        ) {
            Val::Win((2 * p - 1) as u16)
        } else {
            Val::Draw
        })
    &&& forall|i: int|
        0 <= i < vals1.len() && #[trigger] vals1[i] != vals0[i] ==> exists|w: int|
            0 <= w < undecided.len() && legal[undecided[w] as int] == i
    &&& forall|w: int|
        0 <= w < mid.len() ==> vals2[legal[#[trigger] mid[w] as int] as int] == (if loses_now(
            setup,
            vals1,
            legal[mid[w] as int] as int,
        ) {
            Val::Loss((2 * p) as u16)
        } else {
            Val::Draw
        })
    &&& forall|i: int|
        0 <= i < vals2.len() && #[trigger] vals2[i] != vals1[i] ==> exists|w: int|
            0 <= w < mid.len() && legal[mid[w] as int] == i
}

proof fn lemma_pass_step(
    setup: &Setup,
    vals0: Seq<Val>,
    vals1: Seq<Val>,
    vals2: Seq<Val>,
    legal: Seq<usize>,
    undecided: Seq<usize>,
    mid: Seq<usize>,
    p: int,
)
    requires
        1 <= p <= 32767,
        pass_facts(setup, vals0, vals1, vals2, legal, undecided, mid, p),
    ensures
        forall|i: int| 0 <= i < vals0.len() ==> #[trigger] pass_step(setup, vals0, vals1, vals2, i, p),
{
    assert forall|i: int| 0 <= i < vals0.len() implies #[trigger] pass_step(setup, vals0, vals1, vals2, i, p) by {
        if vals1[i] != vals0[i] {
            let w = choose|w: int| 0 <= w < undecided.len() && legal[undecided[w] as int] == i;
            assert(vals0[legal[undecided[w] as int] as int] == Val::Draw);
            assert(vals1[legal[undecided[w] as int] as int] == vals1[i]);
        } else if vals2[i] != vals1[i] {
            let w = choose|w: int| 0 <= w < mid.len() && legal[mid[w] as int] == i;
            assert(vals1[legal[mid[w] as int] as int] == Val::Draw);
            assert(vals2[legal[mid[w] as int] as int] == vals2[i]);
        }
    }
}

/// The values one pass produces keep wins odd and losses even.
proof fn lemma_pass_parity(setup: &Setup, vals0: Seq<Val>, vals1: Seq<Val>, vals2: Seq<Val>, p: int)
    requires
        1 <= p <= 32767,
        vals2.len() == vals0.len(),
        parity_ok(vals0),
        forall|i: int| 0 <= i < vals0.len() ==> #[trigger] pass_step(setup, vals0, vals1, vals2, i, p),
    ensures
        parity_ok(vals2),
{
    assert forall|i: int| 0 <= i < vals2.len() implies match #[trigger] vals2[i] {
        Val::Win(d) => d % 2 == 1,
        Val::Loss(d) => d % 2 == 0,
        _ => true,
    } by {
        assert(pass_step(setup, vals0, vals1, vals2, i, p));
        assert(match vals0[i] {
            Val::Win(d) => d % 2 == 1,
            Val::Loss(d) => d % 2 == 0,
            _ => true,
        });
    }
}

/// The values one pass produces keep every win and loss exact.
proof fn lemma_pass_exact(
    setup: &Setup,
    vals0: Seq<Val>,
    vals1: Seq<Val>,
    vals2: Seq<Val>,
    legal: Seq<usize>,
    moves: Seq<Vec<usize>>,
    undecided: Seq<usize>,
    mid: Seq<usize>,
    p: int,
)
    requires
        setup.wf(),
        1 <= p <= 32767,
        vals0.len() == size_spec(setup),
        pass_facts(setup, vals0, vals1, vals2, legal, undecided, mid, p),
        structure(setup, vals0, legal, moves),
        parity_ok(vals0),
        all_exact(setup, vals0),
        draws_open(setup, vals0, legal, p - 1),
        depth_below(vals0, 2 * p - 2),
        forall|i: int| 0 <= i < vals0.len() ==> #[trigger] pass_step(setup, vals0, vals1, vals2, i, p),
    ensures
        all_exact(setup, vals2),
{
    assert forall|i: int| 0 <= i < vals2.len() implies win_exact(setup, vals2, i) && loss_exact(setup, vals2, i) by {
        lemma_succ_in_range(setup, i);
        let ss = succ_at(setup, i);
        assert(pass_step(setup, vals0, vals1, vals2, i, p));
        assert(win_exact(setup, vals0, i) && loss_exact(setup, vals0, i));
        match vals2[i] {
            Val::Win(e) => {
                if vals2[i] == vals0[i] {
                    assert(e <= 2 * p - 2);
                    let t = choose|t: int| 0 <= t < ss.len() && #[trigger] vals0[ss[t]] == Val::Loss((e - 1) as u16);
                    assert(pass_step(setup, vals0, vals1, vals2, ss[t], p));
                    assert(vals2[ss[t]] == Val::Loss((e - 1) as u16));
                    assert forall|t: int| 0 <= t < ss.len() implies !loss_below(#[trigger] vals2[ss[t]], e - 1) by {
                        assert(pass_step(setup, vals0, vals1, vals2, ss[t], p));
                        assert(!loss_below(vals0[ss[t]], e - 1));
                    }
                } else {
                    assert(e == 2 * p - 1);
                    assert(vals1[i] != vals0[i]);
                    let w = choose|w: int| 0 <= w < undecided.len() && legal[undecided[w] as int] == i;
                    let k = undecided[w] as int;
                    assert(vals0[legal[k] as int] == Val::Draw);
                    assert(!wins_now(setup, vals0, i, 2 * (p - 1) - 1));
                    let t0 = choose|t: int| 0 <= t < ss.len() && loss_below(#[trigger] vals0[ss[t]], 2 * p - 1);
                    assert(!loss_below(vals0[ss[t0]], 2 * p - 3));
                    assert(match vals0[ss[t0]] {
                        Val::Win(d) => d % 2 == 1,
                        Val::Loss(d) => d % 2 == 0,
                        _ => true,
                    });
                    assert(vals0[ss[t0]] == Val::Loss((2 * p - 2) as u16));
                    assert(pass_step(setup, vals0, vals1, vals2, ss[t0], p));
                    assert(vals2[ss[t0]] == Val::Loss((e - 1) as u16));
                    assert forall|t: int| 0 <= t < ss.len() implies !loss_below(#[trigger] vals2[ss[t]], e - 1) by {
                        assert(pass_step(setup, vals0, vals1, vals2, ss[t], p));
                        assert(!loss_below(vals0[ss[t]], 2 * p - 3));
                        assert(match vals0[ss[t]] {
                            Val::Win(d) => d % 2 == 1,
                            Val::Loss(d) => d % 2 == 0,
                            _ => true,
                        });
                    }
                }
            },
            Val::Loss(e) => {
                if e > 0 {
                    if vals2[i] == vals0[i] {
                        let t = choose|t: int| 0 <= t < ss.len() && #[trigger] vals0[ss[t]] == Val::Win((e - 1) as u16);
                        assert(pass_step(setup, vals0, vals1, vals2, ss[t], p));
                        assert(vals2[ss[t]] == Val::Win((e - 1) as u16));
                    } else {
                        assert(e == 2 * p);
                        assert(vals2[i] != vals1[i]);
                        let w = choose|w: int| 0 <= w < mid.len() && legal[mid[w] as int] == i;
                        let k = mid[w] as int;
                        assert(vals0[legal[k] as int] == Val::Draw);
                        assert(!loses_now(setup, vals0, i));
                        let t = choose|t: int| 0 <= t < ss.len() && !((#[trigger] vals0[ss[t]]) is Win);
                        assert(vals1[ss[t]] is Win);
                        assert(pass_step(setup, vals0, vals1, vals2, ss[t], p));
                        assert(vals2[ss[t]] == Val::Win((e - 1) as u16));
                    }
                }
            },
            _ => {},
        }
    }
}

/// After a pass, each draw on the list is still undecided and still open.
proof fn lemma_pass_open(
    setup: &Setup,
    vals0: Seq<Val>,
    vals1: Seq<Val>,
    vals2: Seq<Val>,
    legal: Seq<usize>,
    moves: Seq<Vec<usize>>,
    undecided: Seq<usize>,
    mid: Seq<usize>,
    next: Seq<usize>,
    p: int,
)
    requires
        setup.wf(),
        1 <= p <= 32767,
        vals0.len() == size_spec(setup),
        pass_facts(setup, vals0, vals1, vals2, legal, undecided, mid, p),
        structure(setup, vals0, legal, moves),
        on_watch(vals0, legal, undecided),
        mid == draws_of(vals1, legal, undecided, undecided.len() as int),
        next == draws_of(vals2, legal, mid, mid.len() as int),
        forall|i: int| 0 <= i < vals0.len() ==> #[trigger] pass_step(setup, vals0, vals1, vals2, i, p),
    ensures
        on_watch(vals2, legal, next),
        draws_open(setup, vals2, legal, p),
{
    assert forall|k: int| 0 <= k < legal.len() && #[trigger] vals2[legal[k] as int] == Val::Draw implies (exists|v: int|
        0 <= v < next.len() && #[trigger] next[v] == k) && !wins_now(setup, vals2, legal[k] as int, 2 * p - 1)
        && !loses_now(setup, vals2, legal[k] as int) by {
        let i = legal[k] as int;
        assert(0 <= i < vals0.len());
        assert(pass_step(setup, vals0, vals1, vals2, i, p));
        assert(vals0[i] == Val::Draw && vals1[i] == Val::Draw);
        let u = choose|u: int| 0 <= u < undecided.len() && #[trigger] undecided[u] == k;
        lemma_draws_of_keeps(vals1, legal, undecided, undecided.len() as int, u);
        let v = choose|v: int| 0 <= v < mid.len() && #[trigger] mid[v] == undecided[u];
        lemma_draws_of_keeps(vals2, legal, mid, mid.len() as int, v);
        let x = choose|x: int| 0 <= x < next.len() && #[trigger] next[x] == mid[v];
        assert(next[x] == k);
        lemma_succ_in_range(setup, i);
        let ss = succ_at(setup, i);
        assert(!wins_now(setup, vals0, i, 2 * p - 1)) by {
            assert(vals1[legal[undecided[u] as int] as int] == Val::Draw);
        }
        assert(!loses_now(setup, vals1, i)) by {
            assert(vals2[legal[mid[v] as int] as int] == Val::Draw);
        }
        assert forall|t: int| 0 <= t < ss.len() implies !loss_below(#[trigger] vals2[ss[t]], 2 * p - 1) by {
            assert(pass_step(setup, vals0, vals1, vals2, ss[t], p));
            assert(!loss_below(vals0[ss[t]], 2 * p - 1));
        }
        let t = choose|t: int| 0 <= t < ss.len() && !((#[trigger] vals1[ss[t]]) is Win);
        assert(pass_step(setup, vals0, vals1, vals2, ss[t], p));
        assert(!(vals2[ss[t]] is Win));
    }
}

/// At a fixpoint of the passes every value of the table is exact.
proof fn lemma_fixpoint_exact(setup: &Setup, vals: Seq<Val>, legal: Seq<usize>, moves: Seq<Vec<usize>>, p: int)
    requires
        setup.wf(),
        1 <= p,
        vals.len() == size_spec(setup),
        sound(setup, vals),
        structure(setup, vals, legal, moves),
        parity_ok(vals),
        all_exact(setup, vals),
        listed(setup, legal),
        draws_open(setup, vals, legal, p),
        depth_below(vals, 2 * p - 2),
    ensures
        table_exact(setup, vals),
{
    assert forall|i: int| 0 <= i < vals.len() implies #[trigger] exact_at(setup, vals, i) by {
        assert(terminal_ok(setup, vals, i) && decided_ok(setup, vals, i));
        assert((vals[i] == Val::Illegal) == !legal_at(setup, i));
        if vals[i] != Val::Illegal && !kings_only_at(setup, i) && moves_at(setup, i).len() > 0 {
            lemma_succ_in_range(setup, i);
            let ss = succ_at(setup, i);
            let sv = succ_vals_at(setup, vals, i);
            assert forall|t: int| 0 <= t < sv.len() implies #[trigger] sv[t] == vals[ss[t]] by {}
            assert(legal_at(setup, i));
            let k = choose|k: int| 0 <= k < legal.len() && #[trigger] legal[k] == i;
            assert(win_exact(setup, vals, i) && loss_exact(setup, vals, i));
            match vals[i] {
                Val::Draw => {
                    assert(vals[legal[k] as int] == Val::Draw);
                    assert forall|t: int| 0 <= t < sv.len() implies !(#[trigger] sv[t] is Loss) by {
                        assert(!loss_below(vals[ss[t]], 2 * p - 1));
                        assert(match vals[ss[t]] {
                            Val::Win(m) => m <= 2 * p - 2,
                            Val::Loss(m) => m <= 2 * p - 2,
                            _ => true,
                        });
                    }
                    if forall|t: int| 0 <= t < sv.len() ==> (#[trigger] sv[t]) is Win {
                        assert forall|t: int| 0 <= t < ss.len() implies (#[trigger] vals[ss[t]]) is Win by {
                            assert(sv[t] is Win);
                        }
                    }
                },
                Val::Win(e) => {
                    assert(match vals[i] {
                        Val::Win(d) => d % 2 == 1,
                        Val::Loss(d) => d % 2 == 0,
                        _ => true,
                    });
                    let t = choose|t: int| 0 <= t < ss.len() && #[trigger] vals[ss[t]] == Val::Loss((e - 1) as u16);
                    lemma_min_loss_le(sv, sv.len() as int, t, (e - 1) as u16);
                    assert forall|s: int| 0 <= s < sv.len() implies !loss_below(#[trigger] sv[s], e - 1) by {
                        assert(!loss_below(vals[ss[s]], e - 1));
                    }
                    lemma_min_loss_ge(sv, sv.len() as int, e - 1);
                },
                Val::Loss(e) => {
                    assert(e > 0);
                    let t = choose|t: int| 0 <= t < ss.len() && #[trigger] vals[ss[t]] == Val::Win((e - 1) as u16);
                    assert forall|s: int| 0 <= s < sv.len() implies win_below(#[trigger] sv[s], e - 1 + 1) by {
                        assert(win_below(vals[ss[s]], e as int));
                    }
                    assert forall|s: int| 0 <= s < sv.len() implies (#[trigger] sv[s]) is Win by {
                        assert(win_below(vals[ss[s]], e as int));
                    }
                    lemma_max_win_ge(sv, sv.len() as int, t, (e - 1) as u16);
                    lemma_max_win_le(sv, sv.len() as int, e - 1);
                },
                _ => {},
            }
        }
    }
    assert forall|i: int| 0 <= i < vals.len() implies #[trigger] vals[i] != Val::Win(0) by {
        assert(match vals[i] {
            Val::Win(d) => d % 2 == 1,
            Val::Loss(d) => d % 2 == 0,
            _ => true,
        });
    }
}

/// The shallowest loss of a prefix is at most each loss in it.
proof fn lemma_min_loss_le(sv: Seq<Val>, k: int, t: int, m: u16)
    requires
        0 <= t < k <= sv.len(),
        sv[t] == Val::Loss(m),
    ensures
        min_loss(sv, k) matches Some(r) && r <= m,
    decreases k,
{
    if t < k - 1 {
        lemma_min_loss_le(sv, k - 1, t, m);
    }
}

/// A lower bound on every loss of a prefix bounds its shallowest loss.
proof fn lemma_min_loss_ge(sv: Seq<Val>, k: int, m: int)
    requires
        0 <= k <= sv.len(),
        forall|t: int| 0 <= t < k ==> !loss_below(#[trigger] sv[t], m),
    ensures
        min_loss(sv, k) matches Some(r) ==> r >= m,
    decreases k,
{
    if k > 0 {
        lemma_min_loss_ge(sv, k - 1, m);
    }
}

/// A non-empty prefix of wins has a deepest win, at least each of them.
proof fn lemma_max_win_ge(sv: Seq<Val>, k: int, t: int, m: u16)
    requires
        0 <= t < k <= sv.len(),
        forall|s: int| 0 <= s < k ==> (#[trigger] sv[s]) is Win,
        sv[t] == Val::Win(m),
    ensures
        max_win_all(sv, k) matches Some(r) && r >= m,
    decreases k,
{
    if k > 1 {
        if t < k - 1 {
            lemma_max_win_ge(sv, k - 1, t, m);
        } else {
            lemma_max_win_ge(sv, k - 1, 0, sv[0]->Win_0);
        }
    }
}

/// An upper bound on every win of a prefix bounds its deepest win.
proof fn lemma_max_win_le(sv: Seq<Val>, k: int, m: int)
    requires
        0 <= k <= sv.len(),
        forall|s: int| 0 <= s < k ==> win_below(#[trigger] sv[s], m + 1),
    ensures
        max_win_all(sv, k) matches Some(r) ==> r <= m,
    decreases k,
{
    if k > 1 {
        lemma_max_win_le(sv, k - 1, m);
    }
}

/// How a value is written: its variant, and the depth in brackets.
pub open spec fn val_text(v: Val) -> Seq<char> {
    match v {
        Val::Illegal => "Illegal"@,
        Val::Draw => "Draw"@,
        Val::Win(d) => "Win("@ + crate::text::decimal(d as nat) + ")"@,
        Val::Loss(d) => "Loss("@ + crate::text::decimal(d as nat) + ")"@,
    }
}

/// Appends the written form of a value.
pub(crate) fn push_val(s: &mut String, v: Val)
    ensures
        final(s)@ == old(s)@ + val_text(v),
{
    match v {
        Val::Illegal => crate::text::push_str(s, "Illegal"),
        Val::Draw => crate::text::push_str(s, "Draw"),
        Val::Win(d) => {
            crate::text::push_str(s, "Win(");
            crate::text::push_decimal(s, d as u32);
            crate::text::push_str(s, ")");
        },
        Val::Loss(d) => {
            crate::text::push_str(s, "Loss(");
            crate::text::push_decimal(s, d as u32);
            crate::text::push_str(s, ")");
        },
    }
}

/// Appends the written form of an optional depth.
fn push_opt(s: &mut String, v: Option<u16>)
    ensures
        final(s)@ == old(s)@ + match v {
            Some(d) => "Some("@ + crate::text::decimal(d as nat) + ")"@,
            None => "None"@,
        },
{
    match v {
        Some(d) => {
            crate::text::push_str(s, "Some(");
            crate::text::push_decimal(s, d as u32);
            crate::text::push_str(s, ")");
        },
        None => crate::text::push_str(s, "None"),
    }
}

/// "position {i} {what}".
fn position_msg(i: usize, what: &str) -> (r: String)
    ensures
        r@ == "position "@ + crate::text::decimal(i as nat) + what@,
{
    let mut s = String::new();
    crate::text::push_str(&mut s, "position ");
    crate::text::push_decimal_u64(&mut s, i as u64);
    crate::text::push_str(&mut s, what);
    s
}

impl Table {
    /// The values of the positions the moves `lm` of `p` lead to.
    fn succ_vals(&self, p: &Position, lm: &Vec<Move>, ghost_i: Ghost<int>) -> (sv: Vec<Val>)
        requires
            self.setup.wf(),
            self.vals.len() == size_spec(&self.setup),
            size_spec(&self.setup) <= usize::MAX,
            0 <= ghost_i@ < size_spec(&self.setup),
            p.sqs@ == position_sqs(&self.setup, ghost_i@),
            p.stm == position_stm(ghost_i@),
            lm@ == moves_at(&self.setup, ghost_i@),
        ensures
            sv@ == succ_vals_at(&self.setup, self.vals@, ghost_i@),
    {
        let ghost i = ghost_i@;
        proof {
            lemma_position_wf(&self.setup, i);
            lemma_legal_moves_never_blocks(&self.setup, pos_answers(&self.setup, i), p.stm);
            lemma_legal_moves_ok(&self.setup, pos_answers(&self.setup, i), p.stm);
            lemma_succ_in_range(&self.setup, i);
        }
        let mut sv: Vec<Val> = Vec::new();
        let mut t: usize = 0;
        while t < lm.len()
            invariant
                0 <= t <= lm.len(),
                self.setup.wf(),
                self.vals.len() == size_spec(&self.setup),
                size_spec(&self.setup) <= usize::MAX,
                0 <= i < size_spec(&self.setup),
                lm@ == moves_at(&self.setup, i),
                p.sqs@ == position_sqs(&self.setup, i),
                p.stm == position_stm(i),
                p.sqs.len() == self.setup.slots.len(),
                squares_below(p.sqs@, self.setup.area_spec()),
                crate::board::moves_ok(&self.setup, lm@),
                forall|k: int| 0 <= k < succ_at(&self.setup, i).len() ==> 0 <= #[trigger] succ_at(&self.setup, i)[k] < size_spec(&self.setup),
                sv.len() == t,
                forall|u: int| 0 <= u < t ==> #[trigger] sv@[u] == succ_vals_at(&self.setup, self.vals@, i)[u],
            decreases lm.len() - t,
        {
            assert(move_ok(&self.setup, lm@[t as int]));
            let q = p.play(lm[t]);
            assert(squares_below(q.sqs@, self.setup.area_spec()));
            let v = self.get(&q);
            sv.push(v);
            t += 1;
        }
        assert(sv@ =~= succ_vals_at(&self.setup, self.vals@, i));
        sv
    }

    /// Full self-consistency check of the solved table against forward move
    /// generation. Returns the first violation found, as text.
    pub fn verify(&self) -> (r: Result<(), String>)
        requires
            self.setup.wf(),
            self.vals.len() == size_spec(&self.setup),
            size_spec(&self.setup) <= usize::MAX,
            no_zero_win(self.vals@),
        ensures
            r is Ok <==> forall|i: int| 0 <= i < self.vals.len() ==> #[trigger] check_at(&self.setup, self.vals@, i),
    {
        let setup = &self.setup;
        let mut i: usize = 0;
        while i < self.vals.len()
            invariant
                0 <= i <= self.vals.len(),
                setup == &self.setup,
                self.setup.wf(),
                self.vals.len() == size_spec(&self.setup),
                size_spec(&self.setup) <= usize::MAX,
                no_zero_win(self.vals@),
                forall|j: int| 0 <= j < i ==> #[trigger] check_at(&self.setup, self.vals@, j),
            decreases self.vals.len() - i,
        {
            let v = self.vals[i];
            if v == Val::Illegal {
                i += 1;
                continue;
            }
            proof {
                lemma_position_wf(setup, i as int);
            }
            let p = Self::position(setup, i);
            if !p.is_legal(setup) {
                let mut s = String::new();
                crate::text::push_str(&mut s, "index ");
                crate::text::push_decimal_u64(&mut s, i as u64);
                crate::text::push_str(&mut s, " marked ");
                push_val(&mut s, v);
                crate::text::push_str(&mut s, " but illegal");
                assert(!check_at(&self.setup, self.vals@, i as int));
                return Err(s);
            }
            if p.only_kings(setup) {
                if v != Val::Draw {
                    let mut s = String::new();
                    crate::text::push_str(&mut s, "kings-only position ");
                    crate::text::push_decimal_u64(&mut s, i as u64);
                    crate::text::push_str(&mut s, " is ");
                    push_val(&mut s, v);
                    assert(!check_at(&self.setup, self.vals@, i as int));
                    return Err(s);
                }
                i += 1;
                continue;
            }
            proof {
                lemma_position_fits(setup, &p);
                lemma_legal_moves_never_blocks(setup, p.answers(), p.stm);
                lemma_in_check_never_blocks(setup, p.answers(), p.stm);
            }
            let lm = match legal_moves(setup, &p, &mut (), p.stm) {
                Ok(x) => x,
                Err(_) => Vec::new(),
            };
            let succ = self.succ_vals(&p, &lm, Ghost(i as int));
            let ghost sv = succ@;
            let mut any_illegal = false;
            let mut any_loss = false;
            let mut all_win = true;
            let mut best: Option<u16> = None;
            let mut worst: Option<u16> = None;
            let mut t: usize = 0;
            while t < succ.len()
                invariant
                    0 <= t <= succ.len(),
                    succ@ == sv,
                    any_illegal == exists|k: int| 0 <= k < t && #[trigger] sv[k] == Val::Illegal,
                    any_loss == exists|k: int| 0 <= k < t && (#[trigger] sv[k]) is Loss,
                    all_win == forall|k: int| 0 <= k < t ==> (#[trigger] sv[k]) is Win,
                    best == min_loss(sv, t as int),
                    worst == max_win_all(sv, t as int),
                decreases succ.len() - t,
            {
                let s = succ[t];
                if s == Val::Illegal {
                    any_illegal = true;
                }
                match s {
                    Val::Loss(m) => {
                        any_loss = true;
                        best = match best {
                            Some(b) => Some(
                                if m < b {
                                    m
                                } else {
                                    b
                                },
                            ),
                            None => Some(m),
                        };
                    },
                    _ => {},
                }
                match s {
                    Val::Win(m) => {
                        if t == 0 {
                            worst = Some(m);
                        } else {
                            worst = match worst {
                                Some(w) => Some(
                                    if m > w {
                                        m
                                    } else {
                                        w
                                    },
                                ),
                                None => None,
                            };
                        }
                    },
                    _ => {
                        all_win = false;
                        worst = None;
                    },
                }
                t += 1;
            }
            if any_illegal {
                assert(!check_at(&self.setup, self.vals@, i as int));
                return Err(position_msg(i, " has an illegal successor"));
            }
            let check = match in_check(setup, &p, &mut (), p.stm) {
                Ok(c) => c,
                Err(_) => false,
            };
            let none = lm.len() == 0;
            match v {
                Val::Illegal => {},
                Val::Draw => {
                    if none && check {
                        assert(!check_at(&self.setup, self.vals@, i as int));
                        return Err(position_msg(i, " is checkmated but marked Draw"));
                    }
                    if any_loss {
                        assert(!check_at(&self.setup, self.vals@, i as int));
                        return Err(position_msg(i, " is Draw but can move to a Loss"));
                    }
                    if !none && all_win {
                        assert(!check_at(&self.setup, self.vals@, i as int));
                        return Err(position_msg(i, " is Draw but every move loses"));
                    }
                },
                Val::Win(d) => {
                    if best != Some(d - 1) {
                        let mut s = position_msg(i, " Win(");
                        crate::text::push_decimal(&mut s, d as u32);
                        crate::text::push_str(&mut s, ") but best successor loss is ");
                        push_opt(&mut s, best);
                        assert(!check_at(&self.setup, self.vals@, i as int));
                        return Err(s);
                    }
                },
                Val::Loss(d) => {
                    if d == 0 {
                        if !(none && check) {
                            assert(!check_at(&self.setup, self.vals@, i as int));
                            return Err(position_msg(i, " Loss(0) but not checkmated"));
                        }
                    } else {
                        if none {
                            let mut s = position_msg(i, " Loss(");
                            crate::text::push_decimal(&mut s, d as u32);
                            crate::text::push_str(&mut s, ") with no moves");
                            assert(!check_at(&self.setup, self.vals@, i as int));
                            return Err(s);
                        }
                        if worst != Some(d - 1) {
                            let mut s = position_msg(i, " Loss(");
                            crate::text::push_decimal(&mut s, d as u32);
                            crate::text::push_str(&mut s, ") but successors give ");
                            push_opt(&mut s, worst);
                            assert(!check_at(&self.setup, self.vals@, i as int));
                            return Err(s);
                        }
                    }
                },
            }
            i += 1;
        }
        Ok(())
    }
}


// ---------------------------------------------------------------------
// Principal variation
// ---------------------------------------------------------------------

pub open spec fn val_depth(v: Val) -> nat {
    match v {
        Val::Win(d) => d as nat,
        Val::Loss(d) => d as nat,
        _ => 0,
    }
}

/// The first move of `ms[k..]` whose successor holds `target`.
pub open spec fn first_to(
    setup: &Setup,
    vals: Seq<Val>,
    sqs: Seq<Option<Sq>>,
    stm: Color,
    ms: Seq<Move>,
    target: Val,
    k: int,
) -> Option<Move>
    decreases ms.len() - k,
{
    if k < 0 || k >= ms.len() {
        None
    } else if vals[index_spec(setup, play_spec(sqs, ms[k]), flip_spec(stm))] == target {
        Some(ms[k])
    } else {
        first_to(setup, vals, sqs, stm, ms, target, k + 1)
    }
}

pub proof fn lemma_first_to(
    setup: &Setup,
    vals: Seq<Val>,
    sqs: Seq<Option<Sq>>,
    stm: Color,
    ms: Seq<Move>,
    target: Val,
    k: int,
)
    ensures
        first_to(setup, vals, sqs, stm, ms, target, k) matches Some(m) ==> vals[index_spec(
            setup,
            play_spec(sqs, m),
            flip_spec(stm),
        )] == target && ms.contains(m),
    decreases ms.len() - k,
{
    if 0 <= k < ms.len() {
        lemma_first_to(setup, vals, sqs, stm, ms, target, k + 1);
        if vals[index_spec(setup, play_spec(sqs, ms[k]), flip_spec(stm))] == target {
            assert(ms[k] == ms[k]);
        }
    }
}

/// The target value of the best move from a position holding `v`.
pub open spec fn pv_target(v: Val) -> Option<Val> {
    match v {
        Val::Win(d) => if d > 0 {
            Some(Val::Loss((d - 1) as u16))
        } else {
            None
        },
        Val::Loss(d) => if d > 0 {
            Some(Val::Win((d - 1) as u16))
        } else {
            None
        },
        _ => None,
    }
}

/// The DTM-optimal move played from `(sqs, stm)`: the first legal move to a
/// loss one ply shorter (winner) or to a win one ply shorter (loser).
pub open spec fn pv_pick(setup: &Setup, vals: Seq<Val>, sqs: Seq<Option<Sq>>, stm: Color) -> Option<Move> {
    match pv_target(vals[index_spec(setup, sqs, stm)]) {
        Some(t) => first_to(
            setup,
            vals,
            sqs,
            stm,
            legal_moves_spec(setup, position_answers(sqs), stm)->Ok_0,
            t,
            0,
        ),
        None => None,
    }
}

/// The principal variation: best play for both sides by DTM.
pub open spec fn pv_spec(setup: &Setup, vals: Seq<Val>, sqs: Seq<Option<Sq>>, stm: Color) -> Seq<Move>
    decreases val_depth(vals[index_spec(setup, sqs, stm)]),
{
    match pv_pick(setup, vals, sqs, stm) {
        Some(m) => {
            proof {
                lemma_first_to(
                    setup,
                    vals,
                    sqs,
                    stm,
                    legal_moves_spec(setup, position_answers(sqs), stm)->Ok_0,
                    pv_target(vals[index_spec(setup, sqs, stm)])->Some_0,
                    0,
                );
            }
            seq![m] + pv_spec(setup, vals, play_spec(sqs, m), flip_spec(stm))
        },
        None => Seq::empty(),
    }
}

/// Playing `ms` from `(sqs, stm)` plays a legal move at each turn and ends
/// with the side then to move checkmated: in check with no legal move.
pub open spec fn mating_line(setup: &Setup, sqs: Seq<Option<Sq>>, stm: Color, ms: Seq<Move>) -> bool
    decreases ms.len(),
{
    if ms.len() == 0 {
        &&& legal_moves_spec(setup, position_answers(sqs), stm) == Ok::<Seq<Move>, Blocked>(Seq::empty())
        &&& in_check_spec(setup, position_answers(sqs), stm) == Ok::<bool, Blocked>(true)
    } else {
        &&& (legal_moves_spec(setup, position_answers(sqs), stm) matches Ok(lm) && lm.contains(ms[0]))
        &&& mating_line(setup, play_spec(sqs, ms[0]), flip_spec(stm), ms.drop_first())
    }
}

proof fn lemma_max_win_found(sv: Seq<Val>, k: int)
    requires
        0 <= k <= sv.len(),
    ensures
        max_win_all(sv, k) matches Some(m) ==> exists|j: int| 0 <= j < k && #[trigger] sv[j] == Val::Win(m),
    decreases k,
{
    if k > 1 {
        lemma_max_win_found(sv, k - 1);
    }
}

/// From a position the solved table holds as won or lost in `d` plies, the
/// principal variation is `d` moves long, each legal where it is played,
/// and it ends with the loser checkmated.
pub proof fn lemma_pv_mates(setup: &Setup, vals: Seq<Val>, sqs: Seq<Option<Sq>>, stm: Color)
    requires
        setup.wf(),
        sound(setup, vals),
        table_exact(setup, vals),
        sqs.len() == setup.slots.len(),
        squares_below(sqs, setup.area_spec()),
        vals[index_spec(setup, sqs, stm)] is Win || vals[index_spec(setup, sqs, stm)] is Loss,
    ensures
        pv_spec(setup, vals, sqs, stm).len() == val_depth(vals[index_spec(setup, sqs, stm)]),
        mating_line(setup, sqs, stm, pv_spec(setup, vals, sqs, stm)),
    decreases val_depth(vals[index_spec(setup, sqs, stm)]),
{
    let i = index_spec(setup, sqs, stm);
    lemma_index_of_position(setup, sqs, stm);
    let v = vals[i];
    assert(v != Val::Illegal);
    assert(legal_at(setup, i));
    assert(terminal_ok(setup, vals, i));
    assert(decided_ok(setup, vals, i));
    assert(exact_at(setup, vals, i));
    let a = position_answers(sqs);
    assert(crate::board::never_blocks(a));
    lemma_legal_moves_never_blocks(setup, a, stm);
    let lm = legal_moves_spec(setup, a, stm)->Ok_0;
    assert(lm == moves_at(setup, i));
    let sv = succ_vals_at(setup, vals, i);
    if v == Val::Loss(0) {
        assert(lm =~= Seq::<Move>::empty());
        assert(pv_spec(setup, vals, sqs, stm) =~= Seq::<Move>::empty());
    } else {
        assert(v != Val::Win(0));
        assert(!kings_only_at(setup, i));
        let target = pv_target(v)->Some_0;
        if v is Win {
            lemma_min_loss_found(sv, sv.len() as int);
        } else {
            lemma_max_win_found(sv, sv.len() as int);
        }
        let j = choose|j: int| 0 <= j < sv.len() && #[trigger] sv[j] == target;
        assert(sv[j] == vals[succ_at(setup, i)[j]]);
        lemma_first_to_found(setup, vals, sqs, stm, lm, target, 0, j);
        lemma_first_to(setup, vals, sqs, stm, lm, target, 0);
        let m = first_to(setup, vals, sqs, stm, lm, target, 0)->Some_0;
        assert(pv_pick(setup, vals, sqs, stm) == Some(m));
        let next = play_spec(sqs, m);
        lemma_successor_legal(setup, sqs, stm, m);
        assert(squares_below(next, setup.area_spec()));
        lemma_pv_mates(setup, vals, next, flip_spec(stm));
        let rest = pv_spec(setup, vals, next, flip_spec(stm));
        let line = pv_spec(setup, vals, sqs, stm);
        assert(line == seq![m] + rest);
        assert(line[0] == m);
        assert(line.drop_first() =~= rest);
    }
}

impl Table {
    /// Principal variation from `p` (best play for both sides by DTM).
    pub fn pv(&self, p: &Position) -> (out: Vec<Move>)
        requires
            self.setup.wf(),
            self.vals.len() == size_spec(&self.setup),
            size_spec(&self.setup) <= usize::MAX,
            no_zero_win(self.vals@),
            p.wf(&self.setup),
        ensures
            out@ == pv_spec(&self.setup, self.vals@, p.sqs@, p.stm),
            sound(&self.setup, self.vals@) && table_exact(&self.setup, self.vals@) && (self.vals@[index_spec(
                &self.setup,
                p.sqs@,
                p.stm,
            )] is Win || self.vals@[index_spec(&self.setup, p.sqs@, p.stm)] is Loss) ==> out.len() == val_depth(
                self.vals@[index_spec(&self.setup, p.sqs@, p.stm)],
            ) && mating_line(&self.setup, p.sqs@, p.stm, out@),
    {
        let setup = &self.setup;
        let mut out: Vec<Move> = Vec::new();
        let mut cur = Position { sqs: p.sqs.clone(), stm: p.stm };
        assert(cur.sqs@ == p.sqs@);
        loop
            invariant
                setup == &self.setup,
                self.setup.wf(),
                self.vals.len() == size_spec(&self.setup),
                size_spec(&self.setup) <= usize::MAX,
                no_zero_win(self.vals@),
                cur.wf(&self.setup),
                p.wf(&self.setup),
                pv_spec(&self.setup, self.vals@, p.sqs@, p.stm) == out@ + pv_spec(
                    &self.setup,
                    self.vals@,
                    cur.sqs@,
                    cur.stm,
                ),
            decreases val_depth(self.vals@[index_spec(&self.setup, cur.sqs@, cur.stm)]),
        {
            let v = self.get(&cur);
            proof {
                lemma_index_of_position(setup, cur.sqs@, cur.stm);
                assert(self.vals@[index_spec(setup, cur.sqs@, cur.stm)] != Val::Win(0));
                lemma_position_fits(setup, &cur);
                lemma_legal_moves_never_blocks(setup, cur.answers(), cur.stm);
                lemma_legal_moves_ok(setup, cur.answers(), cur.stm);
            }
            let lm = match legal_moves(setup, &cur, &mut (), cur.stm) {
                Ok(x) => x,
                Err(_) => Vec::new(),
            };
            let target: Option<Val> = match v {
                Val::Win(d) => Some(Val::Loss(d - 1)),
                Val::Loss(d) => if d > 0 {
                    Some(Val::Win(d - 1))
                } else {
                    None
                },
                _ => None,
            };
            assert(target == pv_target(v));
            let mut pick: Option<Move> = None;
            match target {
                Some(tv) => {
                    let mut k: usize = 0;
                    while k < lm.len()
                        invariant_except_break
                            pick is None,
                        invariant
                            0 <= k <= lm.len(),
                            self.setup.wf(),
                            self.vals.len() == size_spec(&self.setup),
                            size_spec(&self.setup) <= usize::MAX,
                            cur.wf(&self.setup),
                            crate::board::moves_ok(&self.setup, lm@),
                            first_to(&self.setup, self.vals@, cur.sqs@, cur.stm, lm@, tv, 0) == first_to(
                                &self.setup,
                                self.vals@,
                                cur.sqs@,
                                cur.stm,
                                lm@,
                                tv,
                                k as int,
                            ),
                        ensures
                            pick == first_to(&self.setup, self.vals@, cur.sqs@, cur.stm, lm@, tv, 0),
                        decreases lm.len() - k,
                    {
                        assert(move_ok(&self.setup, lm@[k as int]));
                        let q = cur.play(lm[k]);
                        assert(squares_below(q.sqs@, self.setup.area_spec()));
                        if self.get(&q) == tv {
                            pick = Some(lm[k]);
                            break;
                        }
                        k += 1;
                    }
                },
                None => {},
            }
            assert(pick == pv_pick(&self.setup, self.vals@, cur.sqs@, cur.stm));
            match pick {
                Some(m) => {
                    proof {
                        lemma_first_to(
                            &self.setup,
                            self.vals@,
                            cur.sqs@,
                            cur.stm,
                            lm@,
                            target->Some_0,
                            0,
                        );
                        let w = choose|w: int| 0 <= w < lm@.len() && lm@[w] == m;
                        assert(move_ok(&self.setup, lm@[w]));
                    }
                    let ghost before = out@;
                    out.push(m);
                    let next = cur.play(m);
                    assert(before + (seq![m] + pv_spec(&self.setup, self.vals@, next.sqs@, next.stm)) =~= out@
                        + pv_spec(&self.setup, self.vals@, next.sqs@, next.stm));
                    cur = next;
                },
                None => {
                    assert(out@ + Seq::<Move>::empty() =~= out@);
                    proof {
                        if sound(&self.setup, self.vals@) && table_exact(&self.setup, self.vals@) && (self.vals@[index_spec(
                            &self.setup,
                            p.sqs@,
                            p.stm,
                        )] is Win || self.vals@[index_spec(&self.setup, p.sqs@, p.stm)] is Loss) {
                            assert(squares_below(p.sqs@, self.setup.area_spec()));
                            lemma_pv_mates(&self.setup, self.vals@, p.sqs@, p.stm);
                        }
                    }
                    return out;
                },
            }
        }
    }
}


// ---------------------------------------------------------------------
// Statistics
// ---------------------------------------------------------------------

pub struct Stats {
    pub slots: usize,
    pub legal: usize,
    pub canonical: usize,
    pub wins: [usize; 2],
    pub losses: [usize; 2],
    pub draws: [usize; 2],
    pub max_dtm: u16,
    pub dtm_hist: Vec<usize>,
    pub longest: Option<Position>,
}

/// How many `i < k` satisfy `pred`.
pub open spec fn count_upto(k: int, pred: spec_fn(int) -> bool) -> nat
    decreases k,
{
    if k <= 0 {
        0
    } else {
        count_upto(k - 1, pred) + if pred(k - 1) {
            1nat
        } else {
            0nat
        }
    }
}

pub proof fn lemma_count_upto_le(k: int, pred: spec_fn(int) -> bool)
    requires
        0 <= k,
    ensures
        count_upto(k, pred) <= k,
    decreases k,
{
    if k > 0 {
        lemma_count_upto_le(k - 1, pred);
    }
}

pub open spec fn color_idx(c: Color) -> int {
    if c == Color::White {
        0
    } else {
        1
    }
}

pub open spec fn decided(v: Val) -> bool {
    v is Win || v is Loss
}

/// The image of a position's squares under symmetry `k`.
pub open spec fn sym_sqs(n: u8, k: int, sqs: Seq<Option<Sq>>) -> Seq<Option<Sq>> {
    sqs.map_values(
        |o: Option<Sq>|
            match o {
                Some(q) => Some(crate::board::sym_sq(n, k, q as int) as Sq),
                None => None,
            },
    )
}

/// The least index among the images of `i` under symmetries `0..k`.
pub open spec fn canon_upto(setup: &Setup, i: int, k: int) -> int
    decreases k,
{
    let x = index_spec(setup, sym_sqs(setup.n, k - 1, position_sqs(setup, i)), position_stm(i));
    if k <= 1 {
        x
    } else {
        let r = canon_upto(setup, i, k - 1);
        if x < r {
            x
        } else {
            r
        }
    }
}

/// The canonical index of `i`: the least index of its eight images.
pub open spec fn canon_spec(setup: &Setup, i: int) -> int {
    canon_upto(setup, i, 8)
}

proof fn lemma_canon_upto(setup: &Setup, i: int, m: int)
    requires
        1 <= m <= 8,
    ensures
        forall|k: int|
            0 <= k < m ==> canon_upto(setup, i, m) <= #[trigger] index_spec(
                setup,
                sym_sqs(setup.n, k, position_sqs(setup, i)),
                position_stm(i),
            ),
        exists|k: int|
            0 <= k < m && canon_upto(setup, i, m) == #[trigger] index_spec(
                setup,
                sym_sqs(setup.n, k, position_sqs(setup, i)),
                position_stm(i),
            ),
    decreases m,
{
    let x = index_spec(setup, sym_sqs(setup.n, m - 1, position_sqs(setup, i)), position_stm(i));
    if m > 1 {
        lemma_canon_upto(setup, i, m - 1);
        if x >= canon_upto(setup, i, m - 1) {
            let k = choose|k: int|
                0 <= k < m - 1 && canon_upto(setup, i, m - 1) == #[trigger] index_spec(
                    setup,
                    sym_sqs(setup.n, k, position_sqs(setup, i)),
                    position_stm(i),
                );
            assert(0 <= k < m);
        }
    } else {
        assert(canon_upto(setup, i, m) == x);
    }
}

/// The canonical index of a position is the least index among its images
/// under the eight symmetries of the board, and is one of them.
pub proof fn lemma_canon_least(setup: &Setup, i: int)
    ensures
        forall|k: int|
            0 <= k < 8 ==> canon_spec(setup, i) <= #[trigger] index_spec(
                setup,
                sym_sqs(setup.n, k, position_sqs(setup, i)),
                position_stm(i),
            ),
        exists|k: int|
            0 <= k < 8 && canon_spec(setup, i) == #[trigger] index_spec(
                setup,
                sym_sqs(setup.n, k, position_sqs(setup, i)),
                position_stm(i),
            ),
{
    lemma_canon_upto(setup, i, 8);
}

/// The deepest win or loss among `vals[..k]` (0 if none).
pub open spec fn max_depth_upto(vals: Seq<Val>, k: int) -> nat
    decreases k,
{
    if k <= 0 {
        0
    } else if decided(vals[k - 1]) && val_depth(vals[k - 1]) > max_depth_upto(vals, k - 1) {
        val_depth(vals[k - 1])
    } else {
        max_depth_upto(vals, k - 1)
    }
}

/// The first index among `vals[..k]` holding the deepest win or loss.
pub open spec fn longest_upto(vals: Seq<Val>, k: int) -> Option<int>
    decreases k,
{
    if k <= 0 {
        None
    } else if decided(vals[k - 1]) && (val_depth(vals[k - 1]) > max_depth_upto(vals, k - 1) || longest_upto(
        vals,
        k - 1,
    ) is None) {
        Some(k - 1)
    } else {
        longest_upto(vals, k - 1)
    }
}

pub open spec fn legal_pred(vals: Seq<Val>) -> spec_fn(int) -> bool {
    |i: int| vals[i] != Val::Illegal
}

pub open spec fn win_pred(vals: Seq<Val>, c: Color) -> spec_fn(int) -> bool {
    |i: int| vals[i] is Win && position_stm(i) == c
}

pub open spec fn loss_pred(vals: Seq<Val>, c: Color) -> spec_fn(int) -> bool {
    |i: int| vals[i] is Loss && position_stm(i) == c
}

pub open spec fn draw_pred(vals: Seq<Val>, c: Color) -> spec_fn(int) -> bool {
    |i: int| vals[i] == Val::Draw && position_stm(i) == c
}

pub open spec fn depth_pred(vals: Seq<Val>, d: int) -> spec_fn(int) -> bool {
    |i: int| decided(vals[i]) && val_depth(vals[i]) == d
}

/// A legal index whose canonical index no earlier legal index shares.
pub open spec fn first_canon_pred(setup: &Setup, vals: Seq<Val>) -> spec_fn(int) -> bool {
    |i: int|
        vals[i] != Val::Illegal && forall|j: int|
            0 <= j < i && vals[j] != Val::Illegal ==> canon_spec(setup, j) != canon_spec(setup, i)
}

/// Symmetry images stay on the board.
proof fn lemma_sym_on_board(n: u8, k: int, sq: int)
    requires
        2 <= n <= 8,
        0 <= k < 8,
        0 <= sq < n * n,
    ensures
        0 <= crate::board::sym_sq(n, k, sq) < n * n,
{
    crate::board::lemma_square_coords(n, sq);
    let (f, r) = crate::board::sym_coords(n, k, crate::board::file_of(n, sq), crate::board::rank_of(n, sq));
    crate::board::lemma_coords(n, f, r);
}

impl Table {
    pub fn stats(&self) -> (st: Stats)
        requires
            self.setup.wf(),
            self.vals.len() == size_spec(&self.setup),
            size_spec(&self.setup) <= usize::MAX,
        ensures
            st.slots == self.vals.len(),
            st.legal == count_upto(self.vals.len() as int, legal_pred(self.vals@)),
            st.canonical == count_upto(self.vals.len() as int, first_canon_pred(&self.setup, self.vals@)),
            st.wins[0] == count_upto(self.vals.len() as int, win_pred(self.vals@, Color::White)),
            st.wins[1] == count_upto(self.vals.len() as int, win_pred(self.vals@, Color::Black)),
            st.losses[0] == count_upto(self.vals.len() as int, loss_pred(self.vals@, Color::White)),
            st.losses[1] == count_upto(self.vals.len() as int, loss_pred(self.vals@, Color::Black)),
            st.draws[0] == count_upto(self.vals.len() as int, draw_pred(self.vals@, Color::White)),
            st.draws[1] == count_upto(self.vals.len() as int, draw_pred(self.vals@, Color::Black)),
            st.max_dtm == max_depth_upto(self.vals@, self.vals.len() as int),
            st.dtm_hist.len() == (if longest_upto(self.vals@, self.vals.len() as int) is Some {
                max_depth_upto(self.vals@, self.vals.len() as int) + 1
            } else {
                0
            }),
            forall|d: int|
                0 <= d < st.dtm_hist.len() ==> #[trigger] st.dtm_hist@[d] == count_upto(
                    self.vals.len() as int,
                    depth_pred(self.vals@, d),
                ),
            match longest_upto(self.vals@, self.vals.len() as int) {
                Some(i) => st.longest matches Some(p) && p.sqs@ == position_sqs(&self.setup, i) && p.stm
                    == position_stm(i),
                None => st.longest is None,
            },
    {
        let setup = &self.setup;
        let syms = setup.symmetries();
        let n = self.vals.len();
        let ghost vals = self.vals@;
        let mut seen: Vec<bool> = Vec::new();
        let mut z: usize = 0;
        while z < n
            invariant
                0 <= z <= n,
                seen.len() == z,
                forall|c: int| 0 <= c < z ==> !(#[trigger] seen@[c]),
            decreases n - z,
        {
            seen.push(false);
            z += 1;
        }
        let mut legal: usize = 0;
        let mut canonical: usize = 0;
        let mut w0: usize = 0;
        let mut w1: usize = 0;
        let mut l0: usize = 0;
        let mut l1: usize = 0;
        let mut d0: usize = 0;
        let mut d1: usize = 0;
        let mut max_dtm: u16 = 0;
        let mut hist: Vec<usize> = Vec::new();
        let mut longest: Option<Position> = None;
        let ghost mut longest_i: Option<int> = None;
        let mut i: usize = 0;
        while i < n
            invariant
                0 <= i <= n,
                n == self.vals.len(),
                vals == self.vals@,
                setup == &self.setup,
                self.setup.wf(),
                n == size_spec(&self.setup),
                size_spec(&self.setup) <= usize::MAX,
                syms.len() == 8,
                forall|k: int| 0 <= k < 8 ==> (#[trigger] syms@[k]).len() == setup.area_spec(),
                forall|k: int, sq: int|
                    0 <= k < 8 && 0 <= sq < setup.area_spec() ==> #[trigger] syms@[k]@[sq] as int
                        == crate::board::sym_sq(setup.n, k, sq),
                seen.len() == n,
                forall|c: int|
                    0 <= c < n ==> (#[trigger] seen@[c] <==> exists|j: int|
                        0 <= j < i && vals[j] != Val::Illegal && canon_spec(setup, j) == c),
                legal == count_upto(i as int, legal_pred(vals)),
                canonical == count_upto(i as int, first_canon_pred(setup, vals)),
                w0 == count_upto(i as int, win_pred(vals, Color::White)),
                w1 == count_upto(i as int, win_pred(vals, Color::Black)),
                l0 == count_upto(i as int, loss_pred(vals, Color::White)),
                l1 == count_upto(i as int, loss_pred(vals, Color::Black)),
                d0 == count_upto(i as int, draw_pred(vals, Color::White)),
                d1 == count_upto(i as int, draw_pred(vals, Color::Black)),
                legal <= i,
                canonical <= i,
                w0 <= i && w1 <= i && l0 <= i && l1 <= i && d0 <= i && d1 <= i,
                max_dtm == max_depth_upto(vals, i as int),
                longest_i == longest_upto(vals, i as int),
                longest_i is None ==> max_dtm == 0,
                hist.len() == (if longest_i is Some {
                    max_dtm + 1
                } else {
                    0
                }),
                forall|d: int| 0 <= d < hist.len() ==> #[trigger] hist@[d] == count_upto(i as int, depth_pred(vals, d)),
                forall|d: int| 0 <= d < hist.len() ==> #[trigger] hist@[d] <= i,
                forall|d: int| d >= hist.len() ==> count_upto(i as int, #[trigger] depth_pred(vals, d)) == 0,
                match longest_i {
                    Some(j) => longest matches Some(p) && p.sqs@ == position_sqs(setup, j) && p.stm
                        == position_stm(j),
                    None => longest is None,
                },
            decreases n - i,
        {
            let v = self.vals[i];
            if v == Val::Illegal {
                proof {
                    assert forall|c: int|
                        0 <= c < n implies (#[trigger] seen@[c] <==> exists|j: int|
                            0 <= j < i + 1 && vals[j] != Val::Illegal && canon_spec(setup, j) == c) by {
                        if seen@[c] {
                            let j = choose|j: int| 0 <= j < i && vals[j] != Val::Illegal && canon_spec(setup, j) == c;
                            assert(0 <= j < i + 1);
                        }
                    }
                    assert forall|d: int| d >= hist.len() implies count_upto(i + 1, #[trigger] depth_pred(vals, d)) == 0 by {
                        assert(count_upto(i as int, depth_pred(vals, d)) == 0);
                    }
                }
                i += 1;
                continue;
            }
            legal += 1;
            proof {
                lemma_position_wf(setup, i as int);
            }
            let p = Self::position(setup, i);
            let mut canon: usize = 0;
            let mut k: usize = 0;
            while k < 8
                invariant
                    0 <= k <= 8,
                    setup == &self.setup,
                    self.setup.wf(),
                    size_spec(&self.setup) <= usize::MAX,
                    0 <= i < size_spec(&self.setup),
                    p.sqs@ == position_sqs(setup, i as int),
                    p.stm == position_stm(i as int),
                    p.sqs.len() == setup.slots.len(),
                    squares_below(p.sqs@, setup.area_spec()),
                    syms.len() == 8,
                    forall|kk: int| 0 <= kk < 8 ==> (#[trigger] syms@[kk]).len() == setup.area_spec(),
                    forall|kk: int, sq: int|
                        0 <= kk < 8 && 0 <= sq < setup.area_spec() ==> #[trigger] syms@[kk]@[sq] as int
                            == crate::board::sym_sq(setup.n, kk, sq),
                    k > 0 ==> canon == canon_upto(setup, i as int, k as int),
                    canon < size_spec(setup),
                decreases 8 - k,
            {
                let q = p.transform(&syms[k]);
                proof {
                    assert forall|t: int| 0 <= t < q.sqs.len() implies (#[trigger] q.sqs@[t] matches Some(x) ==> x
                        < setup.area_spec()) by {
                        match p.sqs@[t] {
                            Some(y) => {
                                lemma_sym_on_board(setup.n, k as int, y as int);
                            },
                            None => {},
                        }
                    }
                    assert(q.sqs@ =~= sym_sqs(setup.n, k as int, p.sqs@));
                }
                let x = Self::index(setup, &q);
                if k == 0 || x < canon {
                    canon = x;
                }
                k += 1;
            }
            let ghost ci = canon_spec(setup, i as int);
            assert(canon == ci);
            if !seen[canon] {
                seen.set(canon, true);
                canonical += 1;
            }
            proof {
                assert forall|c: int|
                    0 <= c < n implies (#[trigger] seen@[c] <==> exists|j: int|
                        0 <= j < i + 1 && vals[j] != Val::Illegal && canon_spec(setup, j) == c) by {
                    if c == ci {
                        assert(vals[i as int] != Val::Illegal && canon_spec(setup, i as int) == c);
                    } else if seen@[c] {
                        let j = choose|j: int| 0 <= j < i && vals[j] != Val::Illegal && canon_spec(setup, j) == c;
                        assert(0 <= j < i + 1);
                    }
                }
            }
            let c = p.stm.idx();
            match v {
                Val::Win(d) | Val::Loss(d) => {
                    let is_win = match v {
                        Val::Win(_) => true,
                        _ => false,
                    };
                    if is_win {
                        if c == 0 {
                            w0 += 1;
                        } else {
                            w1 += 1;
                        }
                    } else {
                        if c == 0 {
                            l0 += 1;
                        } else {
                            l1 += 1;
                        }
                    }
                    let ghost old_hist = hist@;
                    while hist.len() <= d as usize
                        invariant
                            old_hist.len() <= hist.len(),
                            hist.len() > old_hist.len() ==> hist.len() <= d + 1,
                            forall|e: int| 0 <= e < old_hist.len() ==> #[trigger] hist@[e] == old_hist[e],
                            forall|e: int| old_hist.len() <= e < hist.len() ==> #[trigger] hist@[e] == 0,
                        decreases d + 1 - hist.len(),
                    {
                        hist.push(0);
                    }
                    let ghost hist1 = hist@;
                    assert(hist1[d as int] <= i) by {
                        if (d as int) < old_hist.len() {
                            assert(old_hist[d as int] <= i);
                        }
                    }
                    let h = hist[d as usize];
                    hist.set(d as usize, h + 1);
                    proof {
                        assert forall|e: int| 0 <= e < hist.len() implies #[trigger] hist@[e] == count_upto(
                            i + 1,
                            depth_pred(vals, e),
                        ) by {
                            if e < old_hist.len() {
                                assert(old_hist[e] == count_upto(i as int, depth_pred(vals, e)));
                            } else {
                                assert(count_upto(i as int, depth_pred(vals, e)) == 0);
                            }
                        }
                        assert forall|e: int| 0 <= e < hist.len() implies #[trigger] hist@[e] <= i + 1 by {
                            if e < old_hist.len() {
                                assert(old_hist[e] <= i);
                            }
                        }
                        assert forall|e: int| e >= hist.len() implies count_upto(i + 1, #[trigger] depth_pred(vals, e))
                            == 0 by {
                            assert(count_upto(i as int, depth_pred(vals, e)) == 0);
                        }
                    }
                    if d > max_dtm || longest.is_none() {
                        max_dtm = d;
                        longest = Some(p);
                        proof {
                            longest_i = Some(i as int);
                        }
                    }
                },
                Val::Draw => {
                    if c == 0 {
                        d0 += 1;
                    } else {
                        d1 += 1;
                    }
                    proof {
                        assert forall|d: int| d >= hist.len() implies count_upto(i + 1, #[trigger] depth_pred(vals, d))
                            == 0 by {
                            assert(count_upto(i as int, depth_pred(vals, d)) == 0);
                        }
                    }
                },
                Val::Illegal => {},
            }
            i += 1;
        }
        Stats {
            slots: n,
            legal,
            canonical,
            wins: [w0, w1],
            losses: [l0, l1],
            draws: [d0, d1],
            max_dtm,
            dtm_hist: hist,
            longest,
        }
    }
}


// ---------------------------------------------------------------------
// Reachability and proof size
// ---------------------------------------------------------------------

/// Play may go from index `i` to index `j` (kings-only positions are not
/// expanded).
pub open spec fn reach_step(setup: &Setup, i: int, j: int) -> bool {
    !kings_only_at(setup, i) && succ_at(setup, i).contains(j)
}

/// The index reached from index `i` by move `m`.
pub open spec fn after_at(setup: &Setup, i: int, m: Move) -> int {
    index_spec(setup, play_spec(position_sqs(setup, i), m), flip_spec(position_stm(i)))
}

/// The move the winner plays at index `i`, which holds `Win(d)`: the first
/// legal move to a loss one ply shorter.
pub open spec fn win_pick(setup: &Setup, vals: Seq<Val>, i: int, d: u16) -> Option<Move> {
    first_to(
        setup,
        vals,
        position_sqs(setup, i),
        position_stm(i),
        moves_at(setup, i),
        Val::Loss((d - 1) as u16),
        0,
    )
}

/// A step of the proof of a win for `winner`: one DTM-optimal move at the
/// winner's nodes, every legal reply at the loser's.
pub open spec fn proof_step(setup: &Setup, vals: Seq<Val>, winner: Color, i: int, j: int) -> bool {
    if position_stm(i) == winner {
        match vals[i] {
            Val::Win(d) => win_pick(setup, vals, i, d) matches Some(m) && j == after_at(setup, i, m),
            _ => false,
        }
    } else {
        succ_at(setup, i).contains(j)
    }
}

/// The steps a closure walk follows: every move (`None`), or the proof of a
/// win for the given side.
pub open spec fn walk_step(setup: &Setup, vals: Seq<Val>, mode: Option<Color>, i: int, j: int) -> bool {
    match mode {
        None => reach_step(setup, i, j),
        Some(w) => proof_step(setup, vals, w, i, j),
    }
}

pub open spec fn walk_rel(setup: &Setup, vals: Seq<Val>, mode: Option<Color>) -> spec_fn(int, int) -> bool {
    |i: int, j: int| walk_step(setup, vals, mode, i, j)
}

/// Every value of the table agrees with forward move generation.
pub open spec fn table_checked(setup: &Setup, vals: Seq<Val>) -> bool {
    &&& no_zero_win(vals)
    &&& forall|i: int| 0 <= i < vals.len() ==> #[trigger] check_at(setup, vals, i)
}

/// Every move from a legal position of a sound table leads to a position
/// the table holds as legal.
proof fn lemma_successors_legal_at(setup: &Setup, vals: Seq<Val>, i: int)
    requires
        setup.wf(),
        sound(setup, vals),
        0 <= i < vals.len(),
        legal_at(setup, i),
    ensures
        forall|k: int|
            0 <= k < succ_vals_at(setup, vals, i).len() ==> #[trigger] succ_vals_at(setup, vals, i)[k] != Val::Illegal,
{
    let p = position_sqs(setup, i);
    let stm = position_stm(i);
    lemma_position_of_index(setup, i);
    assert(crate::board::never_blocks(position_answers(p)));
    lemma_legal_moves_never_blocks(setup, position_answers(p), stm);
    let ms = moves_at(setup, i);
    let sv = succ_vals_at(setup, vals, i);
    assert forall|k: int| 0 <= k < sv.len() implies #[trigger] sv[k] != Val::Illegal by {
        let m = ms[k];
        assert(ms.contains(m));
        lemma_successor_legal(setup, p, stm, m);
        let p2 = play_spec(p, m);
        assert(squares_below(p2, setup.area_spec()));
        lemma_index_of_position(setup, p2, flip_spec(stm));
        let j = succ_at(setup, i)[k];
        assert(j == index_spec(setup, p2, flip_spec(stm)));
        assert(legal_at(setup, j));
        assert(sv[k] == vals[j]);
    }
}

/// A sound table whose values are exact passes the full check: every move
/// from a legal position leads to a legal position, so no successor is
/// illegal.
pub proof fn lemma_exact_checked(setup: &Setup, vals: Seq<Val>)
    requires
        setup.wf(),
        sound(setup, vals),
        table_exact(setup, vals),
    ensures
        table_checked(setup, vals),
{
    assert forall|i: int| 0 <= i < vals.len() implies #[trigger] check_at(setup, vals, i) by {
        assert(exact_at(setup, vals, i));
        if vals[i] != Val::Illegal && !kings_only_at(setup, i) {
            lemma_successors_legal_at(setup, vals, i);
        }
    }
}

proof fn lemma_solved_checked(setup: &Setup, vals: Seq<Val>)
    requires
        setup.wf(),
        sound(setup, vals),
        table_exact(setup, vals) || (32767 <= size_spec(setup) && depth_exhausted(vals)),
    ensures
        table_checked(setup, vals) || (32767 <= size_spec(setup) && depth_exhausted(vals)),
{
    if table_exact(setup, vals) {
        lemma_exact_checked(setup, vals);
    }
}

/// A table that passes the full check is exact: its check covers every
/// value against the values its moves lead to.
pub proof fn lemma_checked_exact(setup: &Setup, vals: Seq<Val>)
    requires
        table_checked(setup, vals),
    ensures
        table_exact(setup, vals),
{
    assert forall|i: int| 0 <= i < vals.len() implies #[trigger] exact_at(setup, vals, i) by {
        assert(check_at(setup, vals, i));
    }
}

/// Playing a move keeps a position on the board.
pub proof fn lemma_played_in_range(setup: &Setup, sqs: Seq<Option<Sq>>, m: Move)
    requires
        sqs.len() == setup.slots.len(),
        squares_below(sqs, setup.area_spec()),
        move_ok(setup, m),
    ensures
        play_spec(sqs, m).len() == sqs.len(),
        squares_below(play_spec(sqs, m), setup.area_spec()),
{
}

/// The shallowest loss of a prefix is one of its entries.
proof fn lemma_min_loss_found(sv: Seq<Val>, k: int)
    requires
        0 <= k <= sv.len(),
    ensures
        min_loss(sv, k) matches Some(m) ==> exists|t: int| 0 <= t < k && sv[t] == Val::Loss(m),
    decreases k,
{
    if k > 0 {
        lemma_min_loss_found(sv, k - 1);
    }
}

/// `first_to` finds a move when some move from `k` on leads to `target`.
proof fn lemma_first_to_found(
    setup: &Setup,
    vals: Seq<Val>,
    sqs: Seq<Option<Sq>>,
    stm: Color,
    ms: Seq<Move>,
    target: Val,
    k: int,
    t: int,
)
    requires
        0 <= k <= t < ms.len(),
        vals[index_spec(setup, play_spec(sqs, ms[t]), flip_spec(stm))] == target,
    ensures
        first_to(setup, vals, sqs, stm, ms, target, k) is Some,
    decreases t - k,
{
    if vals[index_spec(setup, play_spec(sqs, ms[k]), flip_spec(stm))] != target {
        lemma_first_to_found(setup, vals, sqs, stm, ms, target, k + 1, t);
    }
}

/// Sizes of the proof of a won position, as a DAG over concrete positions,
/// beside the number of positions reachable from it under any play.
pub struct ProofSize {
    pub proof_positions: usize,
    pub reachable: usize,
}

/// A sequence of indices, each a step of `step` from the one before.
pub open spec fn is_path(path: Seq<int>, step: spec_fn(int, int) -> bool) -> bool {
    &&& path.len() >= 1
    &&& forall|k: int| 0 <= k < path.len() - 1 ==> #[trigger] step(path[k], path[k + 1])
}

/// `j` is reachable from `s` by steps of `step`.
pub open spec fn reaches(step: spec_fn(int, int) -> bool, s: int, j: int) -> bool {
    exists|path: Seq<int>| is_path(path, step) && path[0] == s && path.last() == j
}

pub open spec fn seen_pred(seen: Seq<bool>) -> spec_fn(int) -> bool {
    |x: int| seen[x]
}

pub open spec fn reach_pred(step: spec_fn(int, int) -> bool, s: int) -> spec_fn(int) -> bool {
    |x: int| reaches(step, s, x)
}

/// Extending a path by one step.
pub proof fn lemma_reaches_step(step: spec_fn(int, int) -> bool, s: int, x: int, y: int)
    requires
        reaches(step, s, x),
        step(x, y),
    ensures
        reaches(step, s, y),
{
    let path = choose|path: Seq<int>| is_path(path, step) && path[0] == s && path.last() == x;
    let p2 = path.push(y);
    assert forall|k: int| 0 <= k < p2.len() - 1 implies #[trigger] step(p2[k], p2[k + 1]) by {
        if k < path.len() - 1 {
            assert(p2[k] == path[k] && p2[k + 1] == path[k + 1]);
        }
    }
    assert(p2.last() == y);
}

/// Along a path that starts inside a set closed under `step`, every index
/// stays inside the set.
proof fn lemma_path_stays(step: spec_fn(int, int) -> bool, seen: Seq<bool>, path: Seq<int>, k: int)
    requires
        is_path(path, step),
        0 <= path[0] < seen.len(),
        seen[path[0]],
        forall|x: int, y: int| 0 <= x < seen.len() && seen[x] && #[trigger] step(x, y) ==> 0 <= y < seen.len() && seen[y],
        0 <= k < path.len(),
    ensures
        0 <= path[k] < seen.len() && seen[path[k]],
    decreases k,
{
    if k > 0 {
        lemma_path_stays(step, seen, path, k - 1);
        assert(step(path[k - 1], path[(k - 1) + 1]));
    }
}

/// A set closed under `step` that holds `s` holds everything reachable.
pub proof fn lemma_closed_holds_reachable(step: spec_fn(int, int) -> bool, seen: Seq<bool>, s: int, j: int)
    requires
        0 <= s < seen.len(),
        seen[s],
        forall|x: int, y: int| 0 <= x < seen.len() && seen[x] && #[trigger] step(x, y) ==> 0 <= y < seen.len() && seen[y],
        reaches(step, s, j),
    ensures
        0 <= j < seen.len() && seen[j],
{
    let path = choose|path: Seq<int>| is_path(path, step) && path[0] == s && path.last() == j;
    lemma_path_stays(step, seen, path, path.len() - 1);
}

proof fn lemma_count_ext(k: int, p: spec_fn(int) -> bool, q: spec_fn(int) -> bool)
    requires
        forall|x: int| 0 <= x < k ==> #[trigger] p(x) == q(x),
    ensures
        count_upto(k, p) == count_upto(k, q),
    decreases k,
{
    if k > 0 {
        lemma_count_ext(k - 1, p, q);
    }
}

proof fn lemma_count_set(seen: Seq<bool>, c: int)
    requires
        0 <= c < seen.len(),
        !seen[c],
    ensures
        count_upto(seen.len() as int, seen_pred(seen.update(c, true))) == count_upto(
            seen.len() as int,
            seen_pred(seen),
        ) + 1,
{
    lemma_count_set_upto(seen, c, seen.len() as int);
}

proof fn lemma_count_set_upto(seen: Seq<bool>, c: int, k: int)
    requires
        0 <= c < seen.len(),
        !seen[c],
        0 <= k <= seen.len(),
    ensures
        count_upto(k, seen_pred(seen.update(c, true))) == count_upto(k, seen_pred(seen)) + if c < k {
            1int
        } else {
            0int
        },
    decreases k,
{
    if k > 0 {
        lemma_count_set_upto(seen, c, k - 1);
    }
}

impl Table {
    /// The positions every legal move at `cur` leads to, in move order.
    pub(crate) fn successors(setup: &Setup, cur: &Position) -> (next: Vec<Position>)
        requires
            setup.wf(),
            cur.wf(setup),
            size_spec(setup) <= usize::MAX,
        ensures
            next.len() == succ_at(setup, index_spec(setup, cur.sqs@, cur.stm)).len(),
            forall|u: int|
                0 <= u < next.len() ==> (#[trigger] next@[u]).wf(setup) && index_spec(setup, next@[u].sqs@, next@[u].stm)
                    == succ_at(setup, index_spec(setup, cur.sqs@, cur.stm))[u],
    {
        let ghost i = index_spec(setup, cur.sqs@, cur.stm);
        proof {
            lemma_index_of_position(setup, cur.sqs@, cur.stm);
            lemma_position_fits(setup, cur);
            lemma_legal_moves_never_blocks(setup, cur.answers(), cur.stm);
            lemma_legal_moves_ok(setup, cur.answers(), cur.stm);
        }
        let lm = match legal_moves(setup, cur, &mut (), cur.stm) {
            Ok(x) => x,
            Err(_) => Vec::new(),
        };
        let mut next: Vec<Position> = Vec::new();
        let mut t: usize = 0;
        while t < lm.len()
            invariant
                0 <= t <= lm.len(),
                setup.wf(),
                cur.wf(setup),
                size_spec(setup) <= usize::MAX,
                i == index_spec(setup, cur.sqs@, cur.stm),
                cur.sqs@ == position_sqs(setup, i),
                cur.stm == position_stm(i),
                lm@ == moves_at(setup, i),
                crate::board::moves_ok(setup, lm@),
                next.len() == t,
                forall|u: int|
                    0 <= u < t ==> (#[trigger] next@[u]).wf(setup) && index_spec(setup, next@[u].sqs@, next@[u].stm)
                        == succ_at(setup, i)[u],
            decreases lm.len() - t,
        {
            assert(move_ok(setup, lm@[t as int]));
            let q = cur.play(lm[t]);
            next.push(q);
            t += 1;
        }
        next
    }

    /// The move the winner plays at `cur`, which holds `Win(d)`.
    fn win_move(&self, cur: &Position, d: u16) -> (m: Move)
        requires
            self.setup.wf(),
            self.vals.len() == size_spec(&self.setup),
            size_spec(&self.setup) <= usize::MAX,
            table_exact(&self.setup, self.vals@),
            cur.wf(&self.setup),
            self.vals@[index_spec(&self.setup, cur.sqs@, cur.stm)] == Val::Win(d),
        ensures
            win_pick(&self.setup, self.vals@, index_spec(&self.setup, cur.sqs@, cur.stm), d) == Some(m),
            move_ok(&self.setup, m),
    {
        let setup = &self.setup;
        let ghost i = index_spec(setup, cur.sqs@, cur.stm);
        let ghost sqs = cur.sqs@;
        let ghost target = Val::Loss((d - 1) as u16);
        proof {
            lemma_index_of_position(setup, cur.sqs@, cur.stm);
            lemma_position_fits(setup, cur);
            lemma_legal_moves_never_blocks(setup, cur.answers(), cur.stm);
            lemma_legal_moves_ok(setup, cur.answers(), cur.stm);
            assert(exact_at(setup, self.vals@, i));
            assert(self.vals@[i] != Val::Win(0));
            let sv = succ_vals_at(setup, self.vals@, i);
            lemma_min_loss_found(sv, sv.len() as int);
            let t = choose|t: int| 0 <= t < sv.len() && sv[t] == target;
            lemma_first_to_found(setup, self.vals@, sqs, cur.stm, moves_at(setup, i), target, 0, t);
            lemma_first_to(setup, self.vals@, sqs, cur.stm, moves_at(setup, i), target, 0);
        }
        let lm = match legal_moves(setup, cur, &mut (), cur.stm) {
            Ok(x) => x,
            Err(_) => Vec::new(),
        };
        let want = Val::Loss(d - 1);
        let mut t: usize = 0;
        while t < lm.len()
            invariant
                0 <= t <= lm.len(),
                setup == &self.setup,
                self.setup.wf(),
                self.vals.len() == size_spec(&self.setup),
                size_spec(&self.setup) <= usize::MAX,
                cur.wf(setup),
                i == index_spec(setup, cur.sqs@, cur.stm),
                sqs == cur.sqs@,
                sqs == position_sqs(setup, i),
                cur.stm == position_stm(i),
                lm@ == moves_at(setup, i),
                crate::board::moves_ok(setup, lm@),
                want == target,
                target == Val::Loss((d - 1) as u16),
                win_pick(setup, self.vals@, i, d) is Some,
                win_pick(setup, self.vals@, i, d) == first_to(setup, self.vals@, sqs, cur.stm, lm@, target, t as int),
            decreases lm.len() - t,
        {
            assert(move_ok(setup, lm@[t as int]));
            let q = cur.play(lm[t]);
            proof {
                lemma_played_in_range(setup, sqs, lm@[t as int]);
            }
            if self.get(&q) == want {
                return lm[t];
            }
            t += 1;
        }
        proof {
            assert(first_to(setup, self.vals@, sqs, cur.stm, lm@, target, t as int) is None);
        }
        lm[0]
    }

    /// The positions a closure walk steps to from `cur`.
    fn expand(&self, cur: &Position, mode: Option<Color>) -> (next: Vec<Position>)
        requires
            self.setup.wf(),
            self.vals.len() == size_spec(&self.setup),
            size_spec(&self.setup) <= usize::MAX,
            cur.wf(&self.setup),
            mode is Some ==> table_exact(&self.setup, self.vals@),
        ensures
            forall|u: int|
                0 <= u < next.len() ==> (#[trigger] next@[u]).wf(&self.setup) && walk_step(
                    &self.setup,
                    self.vals@,
                    mode,
                    index_spec(&self.setup, cur.sqs@, cur.stm),
                    index_spec(&self.setup, next@[u].sqs@, next@[u].stm),
                ),
            forall|y: int|
                walk_step(&self.setup, self.vals@, mode, index_spec(&self.setup, cur.sqs@, cur.stm), y) ==> exists|u: int|
                    0 <= u < next.len() && #[trigger] index_spec(&self.setup, next@[u].sqs@, next@[u].stm) == y,
    {
        let setup = &self.setup;
        let ghost i = index_spec(setup, cur.sqs@, cur.stm);
        proof {
            lemma_index_of_position(setup, cur.sqs@, cur.stm);
        }
        let all = match mode {
            None => !cur.only_kings(setup),
            Some(w) => cur.stm != w,
        };
        if all {
            let next = Self::successors(setup, cur);
            proof {
                assert forall|u: int| 0 <= u < next.len() implies (#[trigger] next@[u]).wf(setup) && walk_step(
                    setup,
                    self.vals@,
                    mode,
                    i,
                    index_spec(setup, next@[u].sqs@, next@[u].stm),
                ) by {
                    assert(succ_at(setup, i).contains(succ_at(setup, i)[u]));
                }
                assert forall|y: int| walk_step(setup, self.vals@, mode, i, y) implies exists|u: int|
                    0 <= u < next.len() && #[trigger] index_spec(setup, next@[u].sqs@, next@[u].stm) == y by {
                    let u = choose|u: int| 0 <= u < succ_at(setup, i).len() && succ_at(setup, i)[u] == y;
                    assert(index_spec(setup, next@[u].sqs@, next@[u].stm) == y);
                }
            }
            return next;
        }
        let mut next: Vec<Position> = Vec::new();
        if let Some(_w) = mode {
            if let Val::Win(d) = self.get(cur) {
                let m = self.win_move(cur, d);
                let q = cur.play(m);
                proof {
                    lemma_played_in_range(setup, cur.sqs@, m);
                }
                next.push(q);
                proof {
                    assert(index_spec(setup, next@[0].sqs@, next@[0].stm) == after_at(setup, i, m));
                }
            }
        }
        next
    }

    /// How many positions a closure walk from `p` visits.
    #[verifier::rlimit(60)]
    fn walk_count(&self, p: &Position, mode: Option<Color>) -> (count: usize)
        requires
            self.setup.wf(),
            self.vals.len() == size_spec(&self.setup),
            size_spec(&self.setup) <= usize::MAX,
            p.wf(&self.setup),
            mode is Some ==> table_exact(&self.setup, self.vals@),
        ensures
            count == count_upto(
                self.vals.len() as int,
                reach_pred(walk_rel(&self.setup, self.vals@, mode), index_spec(&self.setup, p.sqs@, p.stm)),
            ),
    {
        let setup = &self.setup;
        let n = self.vals.len();
        let ghost step = walk_rel(setup, self.vals@, mode);
        let ghost s = index_spec(setup, p.sqs@, p.stm);
        proof {
            lemma_index_of_position(setup, p.sqs@, p.stm);
        }
        let mut seen: Vec<bool> = Vec::new();
        let mut z: usize = 0;
        while z < n
            invariant
                0 <= z <= n,
                seen.len() == z,
                forall|c: int| 0 <= c < z ==> !(#[trigger] seen@[c]),
            decreases n - z,
        {
            seen.push(false);
            z += 1;
        }
        proof {
            lemma_count_ext(n as int, seen_pred(seen@), |x: int| false);
            lemma_count_zero(n as int);
        }
        let mut stack: Vec<Position> = Vec::new();
        stack.push(Position { sqs: p.sqs.clone(), stm: p.stm });
        let mut count: usize = 0;
        proof {
            let one = seq![s];
            assert(is_path(one, step) && one[0] == s && one.last() == s);
            assert(reaches(step, s, s));
            assert(index_spec(setup, stack@[0].sqs@, stack@[0].stm) == s);
        }
        loop
            invariant
                setup == &self.setup,
                self.setup.wf(),
                n == self.vals.len(),
                n == size_spec(&self.setup),
                size_spec(&self.setup) <= usize::MAX,
                mode is Some ==> table_exact(&self.setup, self.vals@),
                step == walk_rel(setup, self.vals@, mode),
                s == index_spec(setup, p.sqs@, p.stm),
                0 <= s < n,
                seen.len() == n,
                count == count_upto(n as int, seen_pred(seen@)),
                count <= n,
                forall|t: int| 0 <= t < stack.len() ==> (#[trigger] stack@[t]).wf(setup),
                forall|t: int|
                    0 <= t < stack.len() ==> reaches(step, s, #[trigger] index_spec(setup, stack@[t].sqs@, stack@[t].stm)),
                forall|x: int| 0 <= x < n && #[trigger] seen@[x] ==> reaches(step, s, x),
                seen@[s] || exists|t: int| 0 <= t < stack.len() && #[trigger] index_spec(setup, stack@[t].sqs@, stack@[t].stm) == s,
                forall|x: int, y: int|
                    0 <= x < n && seen@[x] && #[trigger] walk_step(setup, self.vals@, mode, x, y) ==> 0 <= y < n && (seen@[y]
                        || exists|t: int| 0 <= t < stack.len() && #[trigger] index_spec(setup, stack@[t].sqs@, stack@[t].stm) == y),
            decreases n - count, stack.len(),
        {
            let ghost before = stack@;
            match stack.pop() {
                None => {
                    proof {
                        assert forall|x: int, y: int| 0 <= x < n && seen@[x] && #[trigger] step(x, y) implies 0 <= y
                            < n && seen@[y] by {
                            assert(walk_step(setup, self.vals@, mode, x, y));
                        }
                        assert forall|x: int| 0 <= x < n implies #[trigger] seen_pred(seen@)(x) == reach_pred(step, s)(x) by {
                            if reaches(step, s, x) {
                                lemma_closed_holds_reachable(step, seen@, s, x);
                            }
                        }
                        lemma_count_ext(n as int, seen_pred(seen@), reach_pred(step, s));
                    }
                    return count;
                },
                Some(cur) => {
                    let ghost popped = before;
                    let i = Self::index(setup, &cur);
                    proof {
                        assert(popped =~= stack@.push(cur));
                        lemma_index_of_position(setup, cur.sqs@, cur.stm);
                        assert(popped[popped.len() - 1] == cur);
                    }
                    if seen[i] {
                        proof {
                            assert forall|x: int, y: int|
                                0 <= x < n && seen@[x] && #[trigger] walk_step(setup, self.vals@, mode, x, y) implies 0 <= y < n && (seen@[y]
                                    || exists|t: int| 0 <= t < stack.len() && #[trigger] index_spec(setup, stack@[t].sqs@, stack@[t].stm) == y) by {
                                if !seen@[y] {
                                    let t = choose|t: int| 0 <= t < popped.len() && #[trigger] index_spec(setup, popped[t].sqs@, popped[t].stm) == y;
                                    assert(t < stack.len());
                                    assert(stack@[t] == popped[t]);
                                }
                            }
                            if !seen@[s] {
                                let t = choose|t: int| 0 <= t < popped.len() && #[trigger] index_spec(setup, popped[t].sqs@, popped[t].stm) == s;
                                assert(t < stack.len());
                                assert(stack@[t] == popped[t]);
                            }
                        }
                        continue;
                    }
                    let ghost seen0 = seen@;
                    seen.set(i, true);
                    proof {
                        lemma_count_set(seen0, i as int);
                        lemma_count_upto_le(n as int, seen_pred(seen@));
                    }
                    count += 1;
                    let mut next = self.expand(&cur, mode);
                    let ghost base = stack@;
                    let ghost added = next@;
                    stack.append(&mut next);
                    proof {
                        assert(stack@ == base + added);
                        if !seen@[s] {
                            let t = choose|t: int| 0 <= t < popped.len() && #[trigger] index_spec(setup, popped[t].sqs@, popped[t].stm) == s;
                            assert(t < base.len());
                            assert(stack@[t] == popped[t]);
                        }
                        assert forall|u: int| 0 <= u < stack.len() implies (#[trigger] stack@[u]).wf(setup) by {
                            if u < base.len() {
                                assert(stack@[u] == popped[u]);
                            } else {
                                assert(stack@[u] == added[u - base.len()]);
                            }
                        }
                        assert forall|u: int| 0 <= u < stack.len() implies reaches(step, s, #[trigger] index_spec(setup, stack@[u].sqs@, stack@[u].stm)) by {
                            if u < base.len() {
                                assert(stack@[u] == popped[u]);
                            } else {
                                assert(stack@[u] == added[u - base.len()]);
                                let y = index_spec(setup, added[u - base.len()].sqs@, added[u - base.len()].stm);
                                assert(step(i as int, y));
                                lemma_reaches_step(step, s, i as int, y);
                            }
                        }
                        assert forall|x: int, y: int|
                            0 <= x < n && seen@[x] && #[trigger] walk_step(setup, self.vals@, mode, x, y) implies 0 <= y < n && (seen@[y]
                                || exists|t: int| 0 <= t < stack.len() && #[trigger] index_spec(setup, stack@[t].sqs@, stack@[t].stm) == y) by {
                            if x != i {
                                assert(seen0[x]);
                                if !seen@[y] {
                                    let t = choose|t: int| 0 <= t < popped.len() && #[trigger] index_spec(setup, popped[t].sqs@, popped[t].stm) == y;
                                    assert(t < base.len());
                                    assert(stack@[t] == popped[t]);
                                }
                            } else {
                                let w = choose|w: int| 0 <= w < added.len() && #[trigger] index_spec(setup, added[w].sqs@, added[w].stm) == y;
                                assert(stack@[base.len() + w] == added[w]);
                                lemma_index_of_position(setup, added[w].sqs@, added[w].stm);
                            }
                        }
                    }
                },
            }
        }
    }

    /// The number of positions reachable from `p` under any play.
    pub fn reachable(&self, p: &Position) -> (count: usize)
        requires
            self.setup.wf(),
            self.vals.len() == size_spec(&self.setup),
            size_spec(&self.setup) <= usize::MAX,
            p.wf(&self.setup),
        ensures
            count == count_upto(
                self.vals.len() as int,
                reach_pred(walk_rel(&self.setup, self.vals@, None), index_spec(&self.setup, p.sqs@, p.stm)),
            ),
    {
        self.walk_count(p, None)
    }

    /// Sizes of the proof of the value at `p`: `proof_positions` counts the
    /// positions of the proof DAG (one DTM-optimal move at the winner's
    /// nodes, every legal reply at the loser's); 0 when `p` is not decided.
    pub fn proof_size(&self, p: &Position) -> (r: ProofSize)
        requires
            self.setup.wf(),
            self.vals.len() == size_spec(&self.setup),
            size_spec(&self.setup) <= usize::MAX,
            p.wf(&self.setup),
            table_exact(&self.setup, self.vals@),
        ensures
            r.reachable == count_upto(
                self.vals.len() as int,
                reach_pred(walk_rel(&self.setup, self.vals@, None), index_spec(&self.setup, p.sqs@, p.stm)),
            ),
            r.proof_positions == match self.vals@[index_spec(&self.setup, p.sqs@, p.stm)] {
                Val::Win(_) => count_upto(
                    self.vals.len() as int,
                    reach_pred(walk_rel(&self.setup, self.vals@, Some(p.stm)), index_spec(&self.setup, p.sqs@, p.stm)),
                ),
                Val::Loss(_) => count_upto(
                    self.vals.len() as int,
                    reach_pred(walk_rel(&self.setup, self.vals@, Some(flip_spec(p.stm))), index_spec(&self.setup, p.sqs@, p.stm)),
                ),
                _ => 0,
            },
    {
        proof {
            lemma_index_of_position(&self.setup, p.sqs@, p.stm);
        }
        let winner = match self.get(p) {
            Val::Win(_) => p.stm,
            Val::Loss(_) => p.stm.flip(),
            _ => {
                return ProofSize { proof_positions: 0, reachable: self.reachable(p) };
            },
        };
        let proof_positions = self.walk_count(p, Some(winner));
        ProofSize { proof_positions, reachable: self.reachable(p) }
    }
}

proof fn lemma_count_zero(k: int)
    ensures
        count_upto(k, |x: int| false) == 0,
    decreases k,
{
    if k > 0 {
        lemma_count_zero(k - 1);
    }
}

} // verus!
