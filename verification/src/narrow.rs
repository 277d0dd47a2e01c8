//! The superposed engine: evaluate the game value over a *region* (a set of
//! positions given as one square-domain per slot) by running the ordinary
//! move generator against an oracle that answers only what the region
//! decides, and forking the region when a query is undecided.
//!
//! Every decided answer is recorded into a *pattern*: the conjunction of
//! facts the verdict depended on, itself a product of per-slot domains.

use vstd::prelude::*;
use crate::board::{
    Answers, Blocked, step_spec, in_check_spec, played, file_of, rank_of, Color, Kind, Move, Oracle, Played, Position, Res, Setup, SlotId, Sq,
    distinct_squares, flip_spec, fits, in_check, legal_moves, piece_moves, position_answers,
    answers_fit, occupant, occ_from, lemma_occ_from, errs_within, one_king, king_slot_spec,
    piece_moves_spec, legal_filter, lemma_filter_subset, lemma_piece_moves_errs, lemma_filter_errs,
    lemma_piece_moves_from, lemma_piece_moves_see,
};
use crate::retro::{Table, Val, index_spec, position_sqs, position_stm, size_spec, squares_below, lemma_index_of_position};
use std::collections::HashMap;

verus! {

// ---------------------------------------------------------------------
// Square sets as 64-bit masks
// ---------------------------------------------------------------------

/// Square `q` is in the mask `x`.
pub open spec fn bit(x: u64, q: int) -> bool {
    0 <= q < 64 && (x >> (q as u64)) & 1u64 == 1u64
}

/// The number of squares below `k` in the mask.
pub open spec fn pop_upto(x: u64, k: int) -> nat
    decreases k,
{
    if k <= 0 {
        0
    } else {
        pop_upto(x, k - 1) + if bit(x, k - 1) {
            1nat
        } else {
            0nat
        }
    }
}

/// The number of squares in the mask.
pub open spec fn popcount(x: u64) -> nat {
    pop_upto(x, 64)
}

/// The number of ones in the binary representation.
pub(crate) fn count_ones(x: u64) -> (r: u32)
    ensures
        r == popcount(x),
{
    let mut c: u32 = 0;
    let mut q: u64 = 0;
    while q < 64
        invariant
            0 <= q <= 64,
            c == pop_upto(x, q as int),
            c <= q,
        decreases 64 - q,
    {
        if (x >> q) & 1u64 == 1u64 {
            c += 1;
        }
        q += 1;
    }
    c
}

pub proof fn lemma_bit_one(s: u64, q: u64)
    by (bit_vector)
    requires
        s < 64,
        q < 64,
    ensures
        (((1u64 << s) >> q) & 1u64 == 1u64) == (q == s),
{
}

proof fn lemma_bit_and(a: u64, b: u64, q: u64)
    by (bit_vector)
    requires
        q < 64,
    ensures
        (((a & b) >> q) & 1u64 == 1u64) == (((a >> q) & 1u64 == 1u64) && ((b >> q) & 1u64 == 1u64)),
{
}

proof fn lemma_bit_and_not(a: u64, b: u64, q: u64)
    by (bit_vector)
    requires
        q < 64,
    ensures
        (((a & !b) >> q) & 1u64 == 1u64) == (((a >> q) & 1u64 == 1u64) && !((b >> q) & 1u64 == 1u64)),
{
}

proof fn lemma_bit_or(a: u64, b: u64, q: u64)
    by (bit_vector)
    requires
        q < 64,
    ensures
        (((a | b) >> q) & 1u64 == 1u64) == (((a >> q) & 1u64 == 1u64) || ((b >> q) & 1u64 == 1u64)),
{
}

pub proof fn lemma_bit_test(a: u64, s: u64)
    by (bit_vector)
    requires
        s < 64,
    ensures
        ((a & (1u64 << s)) != 0u64) == ((a >> s) & 1u64 == 1u64),
{
}

proof fn lemma_bit_zero(q: u64)
    by (bit_vector)
    ensures
        (0u64 >> q) & 1u64 != 1u64,
{
}

pub proof fn lemma_bit_max(q: u64)
    by (bit_vector)
    requires
        q < 64,
    ensures
        (0xffff_ffff_ffff_ffffu64 >> q) & 1u64 == 1u64,
{
}

pub proof fn lemma_bit_low(m: u64, q: u64)
    by (bit_vector)
    requires
        m < 64,
        q < 64,
    ensures
        ((((1u64 << m) - 1u64) as u64 >> q) & 1u64 == 1u64) == (q < m),
{
}

/// Bitwise facts, lifted to square sets.
pub proof fn lemma_bits(a: u64, b: u64)
    ensures
        forall|q: int| #[trigger] bit(a & b, q) == (bit(a, q) && bit(b, q)),
        forall|q: int| #[trigger] bit(a & !b, q) == (bit(a, q) && !bit(b, q)),
        forall|q: int| #[trigger] bit(a | b, q) == (bit(a, q) || bit(b, q)),
{
    assert forall|q: int| #[trigger] bit(a & b, q) == (bit(a, q) && bit(b, q)) by {
        if 0 <= q < 64 {
            lemma_bit_and(a, b, q as u64);
        }
    }
    assert forall|q: int| #[trigger] bit(a & !b, q) == (bit(a, q) && !bit(b, q)) by {
        if 0 <= q < 64 {
            lemma_bit_and_not(a, b, q as u64);
        }
    }
    assert forall|q: int| #[trigger] bit(a | b, q) == (bit(a, q) || bit(b, q)) by {
        if 0 <= q < 64 {
            lemma_bit_or(a, b, q as u64);
        }
    }
}

/// The one-square mask.
pub proof fn lemma_bit_single(s: u64)
    requires
        s < 64,
    ensures
        forall|q: int| #[trigger] bit(1u64 << s, q) == (q == s),
{
    assert forall|q: int| #[trigger] bit(1u64 << s, q) == (q == s) by {
        if 0 <= q < 64 {
            lemma_bit_one(s, q as u64);
        }
    }
}

pub proof fn lemma_bit_empty()
    ensures
        forall|q: int| !#[trigger] bit(0u64, q),
{
    assert forall|q: int| !#[trigger] bit(0u64, q) by {
        if 0 <= q < 64 {
            lemma_bit_zero(q as u64);
        }
    }
}

/// A nonzero mask holds its lowest square.
pub proof fn lemma_bit_nonzero(x: u64)
    requires
        x != 0,
    ensures
        bit(x, x.trailing_zeros() as int),
{
    vstd::std_specs::bits::axiom_u64_trailing_zeros(x);
}

/// A mask with no square is zero.
pub proof fn lemma_bit_none(x: u64)
    requires
        forall|q: int| !#[trigger] bit(x, q),
    ensures
        x == 0,
{
    if x != 0 {
        lemma_bit_nonzero(x);
    }
}

pub proof fn lemma_pop_zero(x: u64, k: int)
    requires
        forall|q: int| 0 <= q < k ==> !#[trigger] bit(x, q),
    ensures
        pop_upto(x, k) == 0,
    decreases k,
{
    if k > 0 {
        lemma_pop_zero(x, k - 1);
    }
}

/// Counting is monotone under inclusion, and strict when a square is lost.
pub proof fn lemma_pop_subset(x: u64, y: u64, k: int)
    requires
        forall|q: int| 0 <= q < k && #[trigger] bit(y, q) ==> bit(x, q),
    ensures
        pop_upto(y, k) <= pop_upto(x, k),
        (exists|q: int| 0 <= q < k && #[trigger] bit(x, q) && !bit(y, q)) ==> pop_upto(y, k) < pop_upto(x, k),
    decreases k,
{
    if k > 0 {
        lemma_pop_subset(x, y, k - 1);
        if exists|q: int| 0 <= q < k && #[trigger] bit(x, q) && !bit(y, q) {
            let q = choose|q: int| 0 <= q < k && #[trigger] bit(x, q) && !bit(y, q);
            if q < k - 1 {
                assert(exists|q: int| 0 <= q < k - 1 && #[trigger] bit(x, q) && !bit(y, q));
            }
        }
    }
}

/// A mask holding exactly one square below `k` counts one.
pub proof fn lemma_pop_single(x: u64, t: int, k: int)
    requires
        forall|q: int| 0 <= q < k ==> (#[trigger] bit(x, q) <==> q == t),
    ensures
        pop_upto(x, k) == if 0 <= t < k {
            1nat
        } else {
            0nat
        },
    decreases k,
{
    if k > 0 {
        lemma_pop_single(x, t, k - 1);
    }
}

/// Two distinct squares below `k` count at least two.
pub proof fn lemma_pop_two(x: u64, a: int, b: int, k: int)
    requires
        a != b,
        0 <= a < k,
        0 <= b < k,
        bit(x, a),
        bit(x, b),
    ensures
        pop_upto(x, k) >= 2,
    decreases k,
{
    if a == k - 1 || b == k - 1 {
        let c = if a == k - 1 {
            b
        } else {
            a
        };
        assert(bit(x, c));
        lemma_bit_empty();
        lemma_pop_subset(x, 0, k - 1);
        lemma_pop_zero(0, k - 1);
        assert(exists|q: int| 0 <= q < k - 1 && #[trigger] bit(x, q) && !bit(0u64, q));
    } else {
        lemma_pop_two(x, a, b, k - 1);
    }
}

pub proof fn lemma_pop_le_64(x: u64, k: int)
    requires
        0 <= k,
    ensures
        pop_upto(x, k) <= k,
    decreases k,
{
    if k > 0 {
        lemma_pop_le_64(x, k - 1);
    }
}

// ---------------------------------------------------------------------
// Slot domains
// ---------------------------------------------------------------------

/// Where a slot may be: a set of squares, and possibly captured.
#[derive(Clone, Copy, PartialEq, Eq, Structural, Hash, Debug)]
pub struct Dom {
    pub sq: u64,
    pub cap: bool,
}

/// The domain holds exactly the squares of an `area`-square board.
pub open spec fn full_on(d: Dom, area: int) -> bool {
    forall|q: int| #[trigger] bit(d.sq, q) <==> 0 <= q < area
}

/// The domain is exactly the square `t`.
pub open spec fn pinned_at(d: Dom, t: int) -> bool {
    &&& !d.cap
    &&& forall|q: int| #[trigger] bit(d.sq, q) <==> q == t
}

/// The facts a domain still leaves open: its squares and its capture.
pub open spec fn dom_facts(d: Dom) -> nat {
    popcount(d.sq) + if d.cap {
        1nat
    } else {
        0nat
    }
}

/// The domain of every square of an `area`-square board.
pub open spec fn full_mask(area: int) -> u64 {
    if area >= 64 {
        0xffff_ffff_ffff_ffffu64
    } else {
        ((1u64 << (area as u64)) - 1u64) as u64
    }
}

/// `d` is a subset of `e`.
pub open spec fn dom_within(d: Dom, e: Dom) -> bool {
    &&& forall|q: int| #[trigger] bit(d.sq, q) ==> bit(e.sq, q)
    &&& d.cap ==> e.cap
}

/// A domain inside another has no more open facts; strictly fewer when it
/// lost a square or the capture.
pub proof fn lemma_facts_within(d: Dom, e: Dom)
    requires
        dom_within(d, e),
    ensures
        dom_facts(d) <= dom_facts(e),
        ((exists|q: int| #[trigger] bit(e.sq, q) && !bit(d.sq, q)) || (e.cap && !d.cap)) ==> dom_facts(d)
            < dom_facts(e),
{
    lemma_pop_subset(e.sq, d.sq, 64);
    if exists|q: int| #[trigger] bit(e.sq, q) && !bit(d.sq, q) {
        let q = choose|q: int| #[trigger] bit(e.sq, q) && !bit(d.sq, q);
        assert(0 <= q < 64 && #[trigger] bit(e.sq, q) && !bit(d.sq, q));
    }
}

/// A one-square domain without capture counts one fact; two squares count
/// at least two.
pub proof fn lemma_facts_pinned(d: Dom, t: int)
    requires
        pinned_at(d, t),
        0 <= t < 64,
    ensures
        dom_facts(d) == 1,
{
    lemma_pop_single(d.sq, t, 64);
}

impl Dom {
    pub fn full(setup: &Setup, may_capture: bool) -> (d: Dom)
        requires
            setup.wf(),
        ensures
            d.sq == full_mask(setup.area_spec()),
            d.cap == may_capture,
            forall|q: int| #[trigger] bit(d.sq, q) <==> 0 <= q < setup.area_spec(),
    {
        let area = setup.area();
        assert(4 <= setup.n * setup.n <= 64) by (nonlinear_arith)
            requires
                2 <= setup.n <= 8,
        ;
        let sq = if area == 64 {
            u64::MAX
        } else {
            let a = area as u64;
            assert(1u64 << a >= 1) by (bit_vector)
                requires
                    a < 64,
            ;
            (1u64 << a) - 1
        };
        let d = Dom { sq, cap: may_capture };
        proof {
            assert forall|q: int| #[trigger] bit(d.sq, q) <==> 0 <= q < setup.area_spec() by {
                if 0 <= q < 64 {
                    if area == 64 {
                        lemma_bit_max(q as u64);
                    } else {
                        lemma_bit_low(area as u64, q as u64);
                    }
                }
            }
        }
        d
    }

    pub fn pinned(sq: Sq) -> (d: Dom)
        requires
            sq < 64,
        ensures
            d.sq == 1u64 << sq,
            !d.cap,
            pinned_at(d, sq as int),
    {
        proof {
            lemma_bit_single(sq as u64);
        }
        Dom { sq: 1u64 << sq, cap: false }
    }

    pub fn captured() -> (d: Dom)
        ensures
            d.sq == 0,
            d.cap,
            forall|q: int| !#[trigger] bit(d.sq, q),
    {
        proof {
            lemma_bit_empty();
        }
        Dom { sq: 0, cap: true }
    }

    /// No square and no capture: no slot placement at all.
    pub fn is_empty(self) -> (r: bool)
        ensures
            r == (self.sq == 0 && !self.cap),
            r <==> (!self.cap && forall|q: int| !#[trigger] bit(self.sq, q)),
    {
        proof {
            lemma_bit_empty();
            if !self.cap && forall|q: int| !#[trigger] bit(self.sq, q) {
                lemma_bit_none(self.sq);
            }
        }
        self.sq == 0 && !self.cap
    }

    pub fn has(self, sq: Sq) -> (r: bool)
        requires
            sq < 64,
        ensures
            r == bit(self.sq, sq as int),
    {
        proof {
            lemma_bit_test(self.sq, sq as u64);
        }
        self.sq & (1u64 << sq) != 0
    }

    /// The square of a domain that is exactly one square.
    pub fn is_pinned(self) -> (r: Option<Sq>)
        ensures
            r matches Some(t) ==> t < 64 && pinned_at(self, t as int),
            r is None ==> forall|t: int| !pinned_at(self, t),
    {
        if !self.cap && count_ones(self.sq) == 1 {
            proof {
                assert(self.sq != 0) by {
                    if self.sq == 0 {
                        lemma_bit_empty();
                        lemma_pop_zero(0, 64);
                    }
                }
                lemma_bit_nonzero(self.sq);
            }
            let t = self.sq.trailing_zeros();
            proof {
                vstd::std_specs::bits::axiom_u64_trailing_zeros(self.sq);
                assert forall|q: int| #[trigger] bit(self.sq, q) <==> q == t by {
                    if bit(self.sq, q) && q != t {
                        lemma_pop_two(self.sq, q, t as int, 64);
                    }
                }
            }
            Some(t as Sq)
        } else {
            proof {
                assert forall|t: int| !pinned_at(self, t) by {
                    if pinned_at(self, t) {
                        assert(bit(self.sq, t));
                        lemma_pop_single(self.sq, t, 64);
                    }
                }
            }
            None
        }
    }

    pub fn is_captured(self) -> (r: bool)
        ensures
            r == (self.sq == 0 && self.cap),
            r <==> (self.cap && forall|q: int| !#[trigger] bit(self.sq, q)),
    {
        proof {
            lemma_bit_empty();
            if self.cap && forall|q: int| !#[trigger] bit(self.sq, q) {
                lemma_bit_none(self.sq);
            }
        }
        self.sq == 0 && self.cap
    }

    pub fn subset_of(self, other: Dom) -> (r: bool)
        ensures
            r == dom_within(self, other),
    {
        let r = self.sq & !other.sq == 0 && (!self.cap || other.cap);
        proof {
            lemma_bits(self.sq, other.sq);
            lemma_bit_empty();
            if self.sq & !other.sq != 0 {
                lemma_bit_nonzero(self.sq & !other.sq);
                let t = (self.sq & !other.sq).trailing_zeros() as int;
                assert(bit(self.sq & !other.sq, t));
                assert(bit(self.sq, t) && !bit(other.sq, t));
            } else {
                assert forall|q: int| #[trigger] bit(self.sq, q) implies bit(other.sq, q) by {
                    assert(!bit(self.sq & !other.sq, q));
                }
            }
        }
        r
    }

    pub fn meet(self, other: Dom) -> (r: Dom)
        ensures
            r.sq == self.sq & other.sq,
            r.cap == (self.cap && other.cap),
            forall|q: int| #[trigger] bit(r.sq, q) == (bit(self.sq, q) && bit(other.sq, q)),
    {
        proof {
            lemma_bits(self.sq, other.sq);
        }
        Dom { sq: self.sq & other.sq, cap: self.cap && other.cap }
    }

    /// The number of placements the domain allows.
    pub fn size(self) -> (r: usize)
        ensures
            r == dom_facts(self),
    {
        proof {
            lemma_pop_le_64(self.sq, 64);
        }
        count_ones(self.sq) as usize + if self.cap {
            1usize
        } else {
            0usize
        }
    }

    /// The squares of the domain, in increasing order.
    pub fn squares(self) -> (out: Vec<Sq>)
        ensures
            forall|i: int, j: int| 0 <= i < j < out.len() ==> out@[i] < out@[j],
            forall|i: int| 0 <= i < out.len() ==> #[trigger] out@[i] < 64 && bit(self.sq, out@[i] as int),
            forall|q: int| #[trigger] bit(self.sq, q) ==> exists|i: int| 0 <= i < out.len() && out@[i] == q,
            out.len() == popcount(self.sq),
    {
        let mut out: Vec<Sq> = Vec::new();
        let mut q: u8 = 0;
        while q < 64
            invariant
                0 <= q <= 64,
                out.len() == pop_upto(self.sq, q as int),
                forall|i: int, j: int| 0 <= i < j < out.len() ==> out@[i] < out@[j],
                forall|i: int| 0 <= i < out.len() ==> #[trigger] out@[i] < q && bit(self.sq, out@[i] as int),
                forall|t: int| 0 <= t < q && #[trigger] bit(self.sq, t) ==> exists|i: int| 0 <= i < out.len() && out@[i] == t,
            decreases 64 - q,
        {
            if self.has(q) {
                let ghost before = out@;
                out.push(q);
                proof {
                    assert forall|t: int| 0 <= t < q + 1 && #[trigger] bit(self.sq, t) implies exists|i: int|
                        0 <= i < out.len() && out@[i] == t by {
                        if t == q {
                            assert(out@[out.len() - 1] == t);
                        } else {
                            let i = choose|i: int| 0 <= i < before.len() && before[i] == t;
                            assert(out@[i] == before[i]);
                        }
                    }
                }
            }
            q += 1;
        }
        out
    }
}

// ---------------------------------------------------------------------
// Regions
// ---------------------------------------------------------------------

/// A set of positions: every assignment of slots to distinct squares within
/// the domains, with `stm` to move.
#[derive(Clone, PartialEq, Eq, Hash, Debug)]
pub struct Region {
    pub dom: Vec<Dom>,
    pub stm: Color,
}

/// Slot placement `x` (a square, or `None` for captured) is allowed by `d`.
pub open spec fn placed(d: Dom, x: Option<Sq>) -> bool {
    match x {
        Some(q) => bit(d.sq, q as int),
        None => d.cap,
    }
}

/// The placements `p` form one of the positions the domains describe.
pub open spec fn member(doms: Seq<Dom>, p: Seq<Option<Sq>>) -> bool {
    &&& p.len() == doms.len()
    &&& forall|k: int| 0 <= k < p.len() ==> #[trigger] placed(doms[k], p[k])
    &&& distinct_squares(p)
}

/// Domain by domain, `a` lies inside `b`.
pub open spec fn doms_within(a: Seq<Dom>, b: Seq<Dom>) -> bool {
    &&& a.len() == b.len()
    &&& forall|k: int| 0 <= k < a.len() ==> #[trigger] dom_within(a[k], b[k])
}

/// The open facts of the first `k` domains.
pub open spec fn facts_upto(doms: Seq<Dom>, k: int) -> nat
    decreases k,
{
    if k <= 0 {
        0
    } else {
        facts_upto(doms, k - 1) + dom_facts(doms[k - 1])
    }
}

/// The open facts of a region: a measure that every fork decreases.
pub open spec fn region_facts(doms: Seq<Dom>) -> nat {
    facts_upto(doms, doms.len() as int)
}

/// No slot's domain holds a square another slot is pinned at.
pub open spec fn normalized(doms: Seq<Dom>) -> bool {
    forall|k: int, j: int, t: int|
        0 <= k < doms.len() && 0 <= j < doms.len() && k != j && #[trigger] pinned_at(doms[k], t) ==> !#[trigger] bit(
            doms[j].sq,
            t,
        )
}

/// Some domain allows no placement at all.
pub open spec fn some_empty(doms: Seq<Dom>) -> bool {
    exists|k: int| 0 <= k < doms.len() && (#[trigger] doms[k]).sq == 0 && !doms[k].cap
}

pub proof fn lemma_facts_upto_within(a: Seq<Dom>, b: Seq<Dom>, k: int)
    requires
        doms_within(a, b),
        0 <= k <= a.len(),
    ensures
        facts_upto(a, k) <= facts_upto(b, k),
        (exists|j: int| 0 <= j < k && #[trigger] dom_facts(a[j]) < dom_facts(b[j])) ==> facts_upto(a, k) < facts_upto(
            b,
            k,
        ),
    decreases k,
{
    if k > 0 {
        lemma_facts_upto_within(a, b, k - 1);
        assert(dom_within(a[k - 1], b[k - 1]));
        lemma_facts_within(a[k - 1], b[k - 1]);
        if exists|j: int| 0 <= j < k && #[trigger] dom_facts(a[j]) < dom_facts(b[j]) {
            let j = choose|j: int| 0 <= j < k && #[trigger] dom_facts(a[j]) < dom_facts(b[j]);
            if j < k - 1 {
                assert(exists|j: int| 0 <= j < k - 1 && #[trigger] dom_facts(a[j]) < dom_facts(b[j]));
            }
        }
    }
}

/// Regions inside one another: fewer or as many open facts; fewer when
/// some domain lost a square or its capture.
pub proof fn lemma_region_facts_within(a: Seq<Dom>, b: Seq<Dom>)
    requires
        doms_within(a, b),
    ensures
        region_facts(a) <= region_facts(b),
        (exists|j: int| 0 <= j < a.len() && #[trigger] dom_facts(a[j]) < dom_facts(b[j])) ==> region_facts(a)
            < region_facts(b),
{
    lemma_facts_upto_within(a, b, a.len() as int);
}

pub proof fn lemma_facts_upto_bound(doms: Seq<Dom>, k: int)
    requires
        0 <= k <= doms.len(),
    ensures
        facts_upto(doms, k) <= 65 * k,
    decreases k,
{
    if k > 0 {
        lemma_facts_upto_bound(doms, k - 1);
        lemma_pop_le_64(doms[k - 1].sq, 64);
    }
}

/// An empty domain leaves the region without positions.
pub proof fn lemma_empty_no_member(doms: Seq<Dom>)
    requires
        some_empty(doms),
    ensures
        forall|p: Seq<Option<Sq>>| !#[trigger] member(doms, p),
{
    let k = choose|k: int| 0 <= k < doms.len() && (#[trigger] doms[k]).sq == 0 && !doms[k].cap;
    lemma_bit_empty();
    assert forall|p: Seq<Option<Sq>>| !#[trigger] member(doms, p) by {
        if member(doms, p) {
            assert(placed(doms[k], p[k]));
        }
    }
}

/// Removing the square a slot is pinned at from another slot's domain
/// keeps every position of the region.
proof fn lemma_remove_pinned(doms: Seq<Dom>, k: int, j: int, t: u8)
    requires
        0 <= k < doms.len(),
        0 <= j < doms.len(),
        k != j,
        t < 64,
        pinned_at(doms[k], t as int),
    ensures
        forall|p: Seq<Option<Sq>>| #[trigger] member(
            doms.update(j, Dom { sq: doms[j].sq & !(1u64 << t), cap: doms[j].cap }),
            p,
        ) <==> member(doms, p),
{
    let d = Dom { sq: doms[j].sq & !(1u64 << t), cap: doms[j].cap };
    let e = doms.update(j, d);
    lemma_bits(doms[j].sq, 1u64 << t);
    lemma_bit_single(t as u64);
    assert forall|p: Seq<Option<Sq>>| #[trigger] member(e, p) <==> member(doms, p) by {
        if member(doms, p) {
            assert(placed(doms[k], p[k]));
            assert(p[k] == Some(t)) by {
                if p[k] is Some {
                    assert(bit(doms[k].sq, p[k]->Some_0 as int));
                }
            }
            assert forall|i: int| 0 <= i < p.len() implies #[trigger] placed(e[i], p[i]) by {
                assert(placed(doms[i], p[i]));
                if i == j {
                    if p[j] is Some {
                        if k < j {
                            assert(p[k] != p[j]);
                        } else {
                            assert(p[j] != p[k]);
                        }
                    }
                }
            }
        }
        if member(e, p) {
            assert forall|i: int| 0 <= i < p.len() implies #[trigger] placed(doms[i], p[i]) by {
                assert(placed(e[i], p[i]));
            }
        }
    }
}

impl Region {
    /// A region of `setup`: one domain per slot, squares on the board.
    pub open spec fn wf(&self, setup: &Setup) -> bool {
        &&& self.dom.len() == setup.slots.len()
        &&& forall|k: int, q: int| 0 <= k < self.dom.len() && #[trigger] bit(self.dom@[k].sq, q) ==> q < setup.area_spec()
    }

    /// Every position of `setup` with `stm` to move: kings anywhere, other
    /// pieces anywhere or captured.
    pub fn root(setup: &Setup, stm: Color) -> (r: Region)
        requires
            setup.wf(),
        ensures
            r.wf(setup),
            r.stm == stm,
            tidy(r.dom@),
            forall|k: int|
                0 <= k < r.dom.len() ==> (#[trigger] r.dom@[k]).sq == full_mask(setup.area_spec()) && r.dom@[k].cap
                    == (setup.kind_spec(k) != Kind::King),
    {
        let mut dom: Vec<Dom> = Vec::new();
        let mut s: usize = 0;
        assert(4 <= setup.n * setup.n <= 64) by (nonlinear_arith)
            requires
                2 <= setup.n <= 8,
        ;
        while s < setup.slots.len()
            invariant
                setup.wf(),
                4 <= setup.area_spec() <= 64,
                0 <= s <= setup.slots.len(),
                dom.len() == s,
                forall|k: int|
                    0 <= k < s ==> (#[trigger] dom@[k]).sq == full_mask(setup.area_spec()) && dom@[k].cap == (
                    setup.kind_spec(k) != Kind::King) && full_on(dom@[k], setup.area_spec()),
            decreases setup.slots.len() - s,
        {
            let d = Dom::full(setup, setup.kind(s as SlotId) != Kind::King);
            dom.push(d);
            s += 1;
        }
        let r = Region { dom, stm };
        proof {
            lemma_bit_empty();
            assert forall|k: int, q: int| 0 <= k < r.dom.len() && #[trigger] bit(r.dom@[k].sq, q) implies q
                < setup.area_spec() by {
                assert(full_on(dom@[k], setup.area_spec()));
            }
            assert forall|k: int, t: int| 0 <= k < r.dom.len() implies !#[trigger] pinned_at(r.dom@[k], t) by {
                assert(full_on(dom@[k], setup.area_spec()));
                assert(bit(dom@[k].sq, 0) && bit(dom@[k].sq, 1));
            }
            assert forall|k: int| 0 <= k < r.dom.len() implies !((#[trigger] r.dom@[k]).sq == 0 && !r.dom@[k].cap) by {
                assert(full_on(dom@[k], setup.area_spec()));
                assert(bit(dom@[k].sq, 0));
            }
        }
        r
    }

    /// Some domain allows no placement: the region has no position.
    pub fn is_empty(&self) -> (r: bool)
        ensures
            r == some_empty(self.dom@),
            r ==> forall|p: Seq<Option<Sq>>| !#[trigger] member(self.dom@, p),
    {
        let mut k: usize = 0;
        while k < self.dom.len()
            invariant
                0 <= k <= self.dom.len(),
                forall|j: int| 0 <= j < k ==> !((#[trigger] self.dom@[j]).sq == 0 && !self.dom@[j].cap),
            decreases self.dom.len() - k,
        {
            if self.dom[k].is_empty() {
                proof {
                    assert(self.dom@[k as int].sq == 0 && !self.dom@[k as int].cap);
                    lemma_empty_no_member(self.dom@);
                }
                return true;
            }
            k += 1;
        }
        false
    }

    /// Propagate pinned squares out of the other domains until stable.
    /// Returns false if the region became empty. The positions of the
    /// region never change.
    pub fn normalize(&mut self) -> (ok: bool)
        ensures
            final(self).stm == old(self).stm,
            doms_within(final(self).dom@, old(self).dom@),
            forall|k: int| 0 <= k < final(self).dom.len() ==> (#[trigger] final(self).dom@[k]).cap == old(self).dom@[k].cap,
            forall|p: Seq<Option<Sq>>| #[trigger] member(final(self).dom@, p) <==> member(old(self).dom@, p),
            ok ==> normalized(final(self).dom@) && !some_empty(final(self).dom@),
            !ok ==> forall|p: Seq<Option<Sq>>| !#[trigger] member(final(self).dom@, p),
    {
        let ghost orig = self.dom@;
        loop
            invariant
                self.stm == old(self).stm,
                orig == old(self).dom@,
                doms_within(self.dom@, orig),
                forall|k: int| 0 <= k < self.dom.len() ==> (#[trigger] self.dom@[k]).cap == orig[k].cap,
                forall|p: Seq<Option<Sq>>| #[trigger] member(self.dom@, p) <==> member(orig, p),
            decreases region_facts(self.dom@),
        {
            let ghost start = self.dom@;
            let mut changed = false;
            let mut k: usize = 0;
            while k < self.dom.len()
                invariant
                    0 <= k <= self.dom.len(),
                    self.stm == old(self).stm,
                    orig == old(self).dom@,
                    start.len() == self.dom.len(),
                    doms_within(self.dom@, start),
                    doms_within(start, orig),
                    forall|i: int| 0 <= i < self.dom.len() ==> (#[trigger] self.dom@[i]).cap == orig[i].cap,
                    forall|p: Seq<Option<Sq>>| #[trigger] member(self.dom@, p) <==> member(orig, p),
                    changed ==> region_facts(self.dom@) < region_facts(start),
                    !changed ==> self.dom@ == start,
                    !changed ==> forall|i: int, j: int, t: int|
                        0 <= i < k && 0 <= j < self.dom.len() && i != j && #[trigger] pinned_at(self.dom@[i], t)
                            ==> !#[trigger] bit(self.dom@[j].sq, t),
                decreases self.dom.len() - k,
            {
                let pin = self.dom[k].is_pinned();
                if let Some(sq) = pin {
                    let mut j: usize = 0;
                    while j < self.dom.len()
                        invariant
                            0 <= j <= self.dom.len(),
                            0 <= k < self.dom.len(),
                            sq < 64,
                            pinned_at(self.dom@[k as int], sq as int),
                            self.stm == old(self).stm,
                            orig == old(self).dom@,
                            start.len() == self.dom.len(),
                            doms_within(self.dom@, start),
                            doms_within(start, orig),
                            forall|i: int| 0 <= i < self.dom.len() ==> (#[trigger] self.dom@[i]).cap == orig[i].cap,
                            forall|p: Seq<Option<Sq>>| #[trigger] member(self.dom@, p) <==> member(orig, p),
                            changed ==> region_facts(self.dom@) < region_facts(start),
                            !changed ==> self.dom@ == start,
                            !changed ==> forall|i: int, jj: int, t: int|
                                0 <= i < k && 0 <= jj < self.dom.len() && i != jj && #[trigger] pinned_at(self.dom@[i], t)
                                    ==> !#[trigger] bit(self.dom@[jj].sq, t),
                            !changed ==> forall|jj: int| 0 <= jj < j && jj != k ==> !#[trigger] bit(self.dom@[jj].sq, sq as int),
                        decreases self.dom.len() - j,
                    {
                        if j != k && self.dom[j].has(sq) {
                            let d = self.dom[j];
                            let nd = Dom { sq: d.sq & !(1u64 << sq), cap: d.cap };
                            let ghost before = self.dom@;
                            proof {
                                lemma_remove_pinned(before, k as int, j as int, sq);
                                lemma_bits(d.sq, 1u64 << sq);
                                lemma_bit_single(sq as u64);
                                assert(dom_within(nd, d));
                                lemma_facts_within(nd, d);
                            }
                            self.dom.set(j, nd);
                            proof {
                                assert(doms_within(self.dom@, before));
                                assert(dom_facts(self.dom@[j as int]) < dom_facts(before[j as int]));
                                lemma_region_facts_within(self.dom@, before);
                                lemma_region_facts_within(before, start);
                                assert forall|i: int| 0 <= i < self.dom.len() implies #[trigger] dom_within(self.dom@[i], start[i]) by {
                                    assert(dom_within(self.dom@[i], before[i]));
                                    assert(dom_within(before[i], start[i]));
                                }
                            }
                            changed = true;
                        }
                        j += 1;
                    }
                }
                proof {
                    if !changed {
                        assert forall|i: int, j: int, t: int|
                            0 <= i < k + 1 && 0 <= j < self.dom.len() && i != j && #[trigger] pinned_at(self.dom@[i], t)
                                implies !#[trigger] bit(self.dom@[j].sq, t) by {
                            if i == k {
                                assert(bit(self.dom@[i].sq, t));
                                if let Some(sq) = pin {
                                    assert(t == sq);
                                }
                            }
                        }
                    }
                }
                k += 1;
            }
            proof {
                assert forall|i: int| 0 <= i < self.dom.len() implies #[trigger] dom_within(self.dom@[i], orig[i]) by {
                    assert(dom_within(self.dom@[i], start[i]));
                    assert(dom_within(start[i], orig[i]));
                }
            }
            if self.is_empty() {
                return false;
            }
            if !changed {
                return true;
            }
        }
    }
}

/// A domain that is not one square: it either may be captured or holds a
/// second square.
pub open spec fn unpinned(d: Dom) -> bool {
    forall|t: int| !#[trigger] pinned_at(d, t)
}

/// The query is one the region leaves open: some domain that may hold the
/// square is not pinned there, or the slot is neither pinned nor captured.
pub open spec fn open_query(doms: Seq<Dom>, q: Blocked) -> bool {
    match q {
        Blocked::At(sq) => exists|k: int| 0 <= k < doms.len() && bit(doms[k].sq, sq as int) && #[trigger] unpinned(doms[k]),
        Blocked::Locate(s) => s < doms.len() && unpinned(doms[s as int]) && !(doms[s as int].sq == 0 && doms[s as int].cap),
    }
}

/// The domains with square `t` taken out of each.
pub open spec fn without_sq_spec(doms: Seq<Dom>, t: u8) -> Seq<Dom> {
    doms.map_values(|d: Dom| Dom { sq: d.sq & !(1u64 << t), cap: d.cap })
}

pub proof fn lemma_within_member(a: Seq<Dom>, b: Seq<Dom>)
    requires
        doms_within(a, b),
    ensures
        forall|p: Seq<Option<Sq>>| #[trigger] member(a, p) ==> member(b, p),
{
    assert forall|p: Seq<Option<Sq>>| #[trigger] member(a, p) implies member(b, p) by {
        assert forall|k: int| 0 <= k < p.len() implies #[trigger] placed(b[k], p[k]) by {
            assert(placed(a[k], p[k]));
            assert(dom_within(a[k], b[k]));
        }
    }
}

/// An unpinned domain that holds `t` has more facts than the pin at `t`.
pub proof fn lemma_pin_loses(d: Dom, t: u8)
    requires
        t < 64,
        bit(d.sq, t as int),
        unpinned(d),
    ensures
        dom_facts(Dom { sq: 1u64 << t, cap: false }) < dom_facts(d),
        dom_within(Dom { sq: 1u64 << t, cap: false }, d),
{
    let p = Dom { sq: 1u64 << t, cap: false };
    lemma_bit_single(t as u64);
    assert(dom_within(p, d));
    assert(!pinned_at(d, t as int));
    if !d.cap {
        let q = choose|q: int| !(#[trigger] bit(d.sq, q) <==> q == t);
        assert(bit(d.sq, q) && !bit(p.sq, q));
    }
    lemma_facts_within(p, d);
}

/// A domain that may be captured and holds a square has more facts than
/// the captured domain.
pub proof fn lemma_capture_loses(d: Dom)
    requires
        d.cap,
        d.sq != 0,
    ensures
        dom_facts(Dom { sq: 0, cap: true }) < dom_facts(d),
        dom_within(Dom { sq: 0, cap: true }, d),
{
    let c = Dom { sq: 0, cap: true };
    lemma_bit_empty();
    lemma_bit_nonzero(d.sq);
    let t = d.sq.trailing_zeros() as int;
    assert(bit(d.sq, t) && !bit(c.sq, t));
    lemma_facts_within(c, d);
}

impl Region {
    /// The region with domain `k` replaced by `d`, normalized; `None` if
    /// that leaves no position.
    pub(crate) fn restrict(&self, k: usize, d: Dom) -> (r: Option<Region>)
        requires
            k < self.dom.len(),
        ensures
            r matches Some(c) ==> {
                &&& c.stm == self.stm
                &&& doms_within(c.dom@, self.dom@.update(k as int, d))
                &&& forall|i: int| 0 <= i < c.dom.len() ==> (#[trigger] c.dom@[i]).cap == self.dom@.update(k as int, d)[i].cap
                &&& forall|p: Seq<Option<Sq>>| #[trigger] member(c.dom@, p) <==> member(self.dom@.update(k as int, d), p)
                &&& normalized(c.dom@)
                &&& !some_empty(c.dom@)
            },
            r is None ==> forall|p: Seq<Option<Sq>>| !#[trigger] member(self.dom@.update(k as int, d), p),
    {
        let mut dom = self.dom.clone();
        proof {
            assert(dom@ =~= self.dom@);
        }
        dom.set(k, d);
        let ghost upd = dom@;
        let mut c = Region { dom, stm: self.stm };
        if c.normalize() {
            Some(c)
        } else {
            proof {
                assert forall|p: Seq<Option<Sq>>| !#[trigger] member(upd, p) by {
                    assert(member(c.dom@, p) <==> member(upd, p));
                }
            }
            None
        }
    }

    /// The region with square `t` taken out of every domain, normalized.
    fn without(&self, t: Sq) -> (r: Option<Region>)
        requires
            t < 64,
        ensures
            r matches Some(c) ==> {
                &&& c.stm == self.stm
                &&& doms_within(c.dom@, without_sq_spec(self.dom@, t))
                &&& forall|p: Seq<Option<Sq>>| #[trigger] member(c.dom@, p) <==> member(without_sq_spec(self.dom@, t), p)
                &&& normalized(c.dom@)
                &&& !some_empty(c.dom@)
            },
            r is None ==> forall|p: Seq<Option<Sq>>| !#[trigger] member(without_sq_spec(self.dom@, t), p),
    {
        let mut dom: Vec<Dom> = Vec::new();
        let mut k: usize = 0;
        while k < self.dom.len()
            invariant
                0 <= k <= self.dom.len(),
                t < 64,
                dom.len() == k,
                forall|i: int| 0 <= i < k ==> #[trigger] dom@[i] == without_sq_spec(self.dom@, t)[i],
            decreases self.dom.len() - k,
        {
            let d = self.dom[k];
            dom.push(Dom { sq: d.sq & !(1u64 << t), cap: d.cap });
            k += 1;
        }
        proof {
            assert(dom@ =~= without_sq_spec(self.dom@, t));
        }
        let ghost wo = dom@;
        let mut c = Region { dom, stm: self.stm };
        if c.normalize() {
            Some(c)
        } else {
            proof {
                assert forall|p: Seq<Option<Sq>>| !#[trigger] member(wo, p) by {
                    assert(member(c.dom@, p) <==> member(wo, p));
                }
            }
            None
        }
    }

    /// Split the region on an undecided query into disjoint children that
    /// together hold every position of the region. On a query the region
    /// leaves open, every child has fewer open facts.
    pub fn fork(&self, q: Blocked) -> (out: Vec<Region>)
        requires
            q matches Blocked::At(t) ==> t < 64,
            q matches Blocked::Locate(k) ==> k < self.dom.len(),
        ensures
            forall|i: int|
                0 <= i < out.len() ==> (#[trigger] out@[i]).stm == self.stm && doms_within(out@[i].dom@, self.dom@)
                    && normalized(out@[i].dom@) && !some_empty(out@[i].dom@),
            forall|i: int, p: Seq<Option<Sq>>|
                0 <= i < out.len() && #[trigger] member(out@[i].dom@, p) ==> member(self.dom@, p),
            forall|p: Seq<Option<Sq>>|
                #[trigger] member(self.dom@, p) ==> exists|i: int| 0 <= i < out.len() && member(out@[i].dom@, p),
            forall|i: int, j: int, p: Seq<Option<Sq>>|
                0 <= i < out.len() && 0 <= j < out.len() && i != j && #[trigger] member(out@[i].dom@, p) ==> !#[trigger] member(
                    out@[j].dom@,
                    p,
                ),
            open_query(self.dom@, q) ==> forall|i: int|
                0 <= i < out.len() ==> region_facts(#[trigger] out@[i].dom@) < region_facts(self.dom@),
            forall|i: int| 0 <= i < out.len() ==> decides(#[trigger] out@[i].dom@, q),
            forall|i: int| 0 <= i < out.len() ==> shape_decides(#[trigger] out@[i].dom@, q),
    {
        let mut out: Vec<Region> = Vec::new();
        match q {
            Blocked::At(sq) => {
                let ghost mut tags: Seq<int> = Seq::empty();
                let mut k: usize = 0;
                while k < self.dom.len()
                    invariant
                        0 <= k <= self.dom.len(),
                        sq < 64,
                        q == Blocked::At(sq),
                        tags.len() == out.len(),
                        forall|i: int| 0 <= i < out.len() ==> 0 <= #[trigger] tags[i] < k,
                        forall|i: int, j: int| 0 <= i < j < out.len() ==> tags[i] < tags[j],
                        forall|i: int|
                            0 <= i < out.len() ==> (#[trigger] out@[i]).stm == self.stm && doms_within(out@[i].dom@, self.dom@)
                                && normalized(out@[i].dom@) && !some_empty(out@[i].dom@),
                        forall|i: int| 0 <= i < out.len() ==> dom_within(#[trigger] out@[i].dom@[tags[i]], Dom { sq: 1u64 << sq, cap: false }),
                        forall|i: int, p: Seq<Option<Sq>>|
                            0 <= i < out.len() ==> (#[trigger] member(out@[i].dom@, p) <==> member(self.dom@, p) && p[tags[i]]
                                == Some(sq)),
                        forall|p: Seq<Option<Sq>>, j: int|
                            #![trigger member(self.dom@, p), p[j]]
                            member(self.dom@, p) && 0 <= j < k && p[j] == Some(sq) ==> exists|i: int|
                                0 <= i < out.len() && tags[i] == j,
                        open_query(self.dom@, q) ==> forall|i: int|
                            0 <= i < out.len() ==> region_facts(#[trigger] out@[i].dom@) < region_facts(self.dom@),
                    decreases self.dom.len() - k,
                {
                    if self.dom[k].has(sq) {
                        let pin = Dom::pinned(sq);
                        let ghost upd = self.dom@.update(k as int, pin);
                        proof {
                            lemma_bit_single(sq as u64);
                            assert(dom_within(pin, self.dom@[k as int]));
                            assert(doms_within(upd, self.dom@));
                            lemma_within_member(upd, self.dom@);
                            assert forall|p: Seq<Option<Sq>>| #[trigger] member(upd, p) <==> member(self.dom@, p)
                                && p[k as int] == Some(sq) by {
                                if member(self.dom@, p) && p[k as int] == Some(sq) {
                                    assert forall|i: int| 0 <= i < p.len() implies #[trigger] placed(upd[i], p[i]) by {
                                        assert(placed(self.dom@[i], p[i]));
                                    }
                                }
                                if member(upd, p) {
                                    assert(placed(upd[k as int], p[k as int]));
                                    if p[k as int] is Some {
                                        assert(bit(pin.sq, p[k as int]->Some_0 as int));
                                    }
                                }
                            }
                        }
                        match self.restrict(k, pin) {
                            Some(c) => {
                                proof {
                                    lemma_within_member(c.dom@, upd);
                                    assert forall|i: int| 0 <= i < c.dom.len() implies #[trigger] dom_within(
                                        c.dom@[i],
                                        self.dom@[i],
                                    ) by {
                                        assert(dom_within(c.dom@[i], upd[i]));
                                        assert(dom_within(upd[i], self.dom@[i]));
                                    }
                                    if open_query(self.dom@, q) {
                                        let o = choose|o: int|
                                            0 <= o < self.dom.len() && bit(self.dom@[o].sq, sq as int) && #[trigger] unpinned(
                                                self.dom@[o],
                                            );
                                        if o == k {
                                            lemma_pin_loses(self.dom@[o], sq);
                                            lemma_facts_within(c.dom@[o], pin);
                                        } else {
                                            assert(c.dom@[k as int].cap == false);
                                            assert(!(c.dom@[k as int].sq == 0 && !c.dom@[k as int].cap));
                                            assert(dom_within(c.dom@[k as int], pin));
                                            if c.dom@[k as int].sq == 0 {
                                                lemma_bit_empty();
                                            }
                                            assert(c.dom@[k as int].sq != 0);
                                            lemma_bit_nonzero(c.dom@[k as int].sq);
                                            assert(pinned_at(c.dom@[k as int], sq as int)) by {
                                                let tz = c.dom@[k as int].sq.trailing_zeros() as int;
                                                assert(bit(c.dom@[k as int].sq, tz));
                                                assert(bit(pin.sq, tz));
                                            }
                                            assert(!bit(c.dom@[o].sq, sq as int));
                                            assert(dom_within(c.dom@[o], self.dom@[o]));
                                            lemma_facts_within(c.dom@[o], self.dom@[o]);
                                        }
                                        lemma_region_facts_within(c.dom@, self.dom@);
                                    }
                                }
                                let ghost tags0 = tags;
                                let ghost out0 = out@;
                                out.push(c);
                                proof {
                                    tags = tags.push(k as int);
                                    assert forall|i: int| 0 <= i < out.len() implies dom_within(#[trigger] out@[i].dom@[tags[i]], Dom { sq: 1u64 << sq, cap: false }) by {
                                        if i < out0.len() {
                                            assert(out@[i] == out0[i]);
                                            assert(tags[i] == tags0[i]);
                                        } else {
                                            assert(dom_within(c.dom@[k as int], upd[k as int]));
                                        }
                                    }
                                    assert forall|p: Seq<Option<Sq>>, j: int|
                                        #![trigger member(self.dom@, p), p[j]]
                                        member(self.dom@, p) && 0 <= j < k + 1 && p[j] == Some(sq) implies exists|i: int|
                                            0 <= i < out.len() && tags[i] == j by {
                                        if j == k {
                                            assert(tags[out.len() - 1] == j);
                                        } else {
                                            let i = choose|i: int| 0 <= i < tags0.len() && tags0[i] == j;
                                            assert(tags[i] == tags0[i]);
                                        }
                                    }
                                }
                            },
                            None => {
                                proof {
                                    assert forall|p: Seq<Option<Sq>>, j: int|
                                        #![trigger member(self.dom@, p), p[j]]
                                        member(self.dom@, p) && 0 <= j < k + 1 && p[j] == Some(sq) implies exists|i: int|
                                            0 <= i < out.len() && tags[i] == j by {
                                        if j == k {
                                            assert(member(upd, p));
                                        }
                                    }
                                }
                            },
                        }
                    } else {
                        proof {
                            assert forall|p: Seq<Option<Sq>>, j: int|
                                #![trigger member(self.dom@, p), p[j]]
                                member(self.dom@, p) && 0 <= j < k + 1 && p[j] == Some(sq) implies exists|i: int|
                                    0 <= i < out.len() && tags[i] == j by {
                                if j == k {
                                    assert(placed(self.dom@[j], p[j]));
                                }
                            }
                        }
                    }
                    k += 1;
                }
                let ghost n_pinned = out.len();
                let ghost wo = without_sq_spec(self.dom@, sq);
                proof {
                    lemma_bits(0, 0);
                    lemma_bit_single(sq as u64);
                    assert forall|i: int| 0 <= i < wo.len() implies #[trigger] dom_within(wo[i], self.dom@[i]) by {
                        lemma_bits(self.dom@[i].sq, 1u64 << sq);
                    }
                    assert forall|p: Seq<Option<Sq>>| #[trigger] member(wo, p) <==> member(self.dom@, p) && forall|j: int|
                        0 <= j < p.len() ==> p[j] != Some(sq) by {
                        lemma_within_member(wo, self.dom@);
                        if member(wo, p) {
                            assert forall|j: int| 0 <= j < p.len() implies p[j] != Some(sq) by {
                                assert(placed(wo[j], p[j]));
                                lemma_bits(self.dom@[j].sq, 1u64 << sq);
                            }
                        }
                        if member(self.dom@, p) && forall|j: int| 0 <= j < p.len() ==> p[j] != Some(sq) {
                            assert forall|j: int| 0 <= j < p.len() implies #[trigger] placed(wo[j], p[j]) by {
                                assert(placed(self.dom@[j], p[j]));
                                lemma_bits(self.dom@[j].sq, 1u64 << sq);
                            }
                        }
                    }
                }
                match self.without(sq) {
                    Some(c) => {
                        proof {
                            lemma_within_member(c.dom@, wo);
                            assert forall|i: int| 0 <= i < c.dom.len() implies #[trigger] dom_within(c.dom@[i], self.dom@[i]) by {
                                assert(dom_within(c.dom@[i], wo[i]));
                                assert(dom_within(wo[i], self.dom@[i]));
                            }
                            if open_query(self.dom@, q) {
                                let o = choose|o: int|
                                    0 <= o < self.dom.len() && bit(self.dom@[o].sq, sq as int) && #[trigger] unpinned(self.dom@[o]);
                                lemma_bits(self.dom@[o].sq, 1u64 << sq);
                                assert(wo[o] == Dom { sq: self.dom@[o].sq & !(1u64 << sq), cap: self.dom@[o].cap });
                                assert(!bit(wo[o].sq, sq as int));
                                assert(dom_within(c.dom@[o], wo[o]));
                                assert(!bit(c.dom@[o].sq, sq as int));
                                assert(dom_within(c.dom@[o], self.dom@[o]));
                                lemma_facts_within(c.dom@[o], self.dom@[o]);
                                lemma_region_facts_within(c.dom@, self.dom@);
                            }
                        }
                        out.push(c);
                        proof {
                            assert(doms_within(out@[n_pinned as int].dom@, wo));
                        }
                    },
                    None => {},
                }
                proof {
                    assert forall|i: int, p: Seq<Option<Sq>>|
                        0 <= i < out.len() && #[trigger] member(out@[i].dom@, p) implies member(self.dom@, p) by {
                        if i >= n_pinned {
                            assert(member(wo, p));
                        }
                    }
                    assert forall|p: Seq<Option<Sq>>| #[trigger] member(self.dom@, p) implies exists|i: int|
                        0 <= i < out.len() && member(out@[i].dom@, p) by {
                        if exists|j: int| 0 <= j < p.len() && p[j] == Some(sq) {
                            let j = choose|j: int| 0 <= j < p.len() && p[j] == Some(sq);
                            let i = choose|i: int| 0 <= i < n_pinned && tags[i] == j;
                            assert(member(out@[i].dom@, p));
                        } else {
                            assert(member(wo, p));
                            assert(out.len() == n_pinned + 1);
                            assert(member(out@[n_pinned as int].dom@, p));
                        }
                    }
                    assert forall|i: int, j: int, p: Seq<Option<Sq>>|
                        0 <= i < out.len() && 0 <= j < out.len() && i != j && #[trigger] member(out@[i].dom@, p)
                            implies !#[trigger] member(out@[j].dom@, p) by {
                        if member(out@[j].dom@, p) {
                            if i < n_pinned && j < n_pinned {
                                assert(p[tags[i]] == Some(sq) && p[tags[j]] == Some(sq));
                                assert(tags[i] != tags[j]);
                                if tags[i] < tags[j] {
                                    assert(p[tags[i]] != p[tags[j]]);
                                } else {
                                    assert(p[tags[j]] != p[tags[i]]);
                                }
                            } else if i < n_pinned {
                                assert(member(wo, p));
                                assert(p[tags[i]] == Some(sq));
                            } else {
                                assert(member(wo, p));
                                assert(p[tags[j]] == Some(sq));
                            }
                        }
                    }
                    assert forall|i: int| 0 <= i < out.len() implies decides(#[trigger] out@[i].dom@, q) by {
                        assert forall|p1: Seq<Option<Sq>>, p2: Seq<Option<Sq>>, j: int|
                            #![trigger member(out@[i].dom@, p1), member(out@[i].dom@, p2), p1[j]]
                            member(out@[i].dom@, p1) && member(out@[i].dom@, p2) && 0 <= j < p1.len() implies (p1[j] == Some(sq) <==> p2[j]
                                == Some(sq)) by {
                            assert(member(self.dom@, p1) && member(self.dom@, p2));
                            if i < n_pinned {
                                let tg = tags[i];
                                assert(p1[tg] == Some(sq) && p2[tg] == Some(sq));
                                if j < tg {
                                    assert(p1[j] is Some ==> p1[j] != p1[tg]);
                                    assert(p2[j] is Some ==> p2[j] != p2[tg]);
                                } else if j > tg {
                                    assert(p1[tg] != p1[j]);
                                    assert(p2[tg] != p2[j]);
                                }
                            } else {
                                assert(member(wo, p1) && member(wo, p2));
                            }
                        }
                    }
                    assert forall|i: int| 0 <= i < out.len() implies shape_decides(#[trigger] out@[i].dom@, q) by {
                        let cd = out@[i].dom@;
                        if i < n_pinned {
                            let tg = tags[i];
                            assert(dom_within(cd[tg], Dom { sq: 1u64 << sq, cap: false }));
                            assert(!some_empty(cd));
                            assert(!(cd[tg].sq == 0 && !cd[tg].cap));
                            lemma_within_pin(cd[tg], sq);
                        } else {
                            assert(doms_within(cd, wo));
                            assert forall|k: int| 0 <= k < cd.len() implies !#[trigger] bit(cd[k].sq, sq as int) by {
                                assert(dom_within(cd[k], wo[k]));
                                lemma_bits(self.dom@[k].sq, 1u64 << sq);
                                lemma_bit_single(sq as u64);
                            }
                        }
                    }
                }
            },
            Blocked::Locate(s) => {
                let k = s as usize;
                let d = self.dom[k];
                let sqs = d.squares();
                let ghost mut tags: Seq<int> = Seq::empty();
                let mut t: usize = 0;
                while t < sqs.len()
                    invariant
                        0 <= t <= sqs.len(),
                        k < self.dom.len(),
                        d == self.dom@[k as int],
                        q == Blocked::Locate(s),
                        k == s as usize,
                        forall|i: int, j: int| 0 <= i < j < sqs.len() ==> sqs@[i] < sqs@[j],
                        forall|i: int| 0 <= i < sqs.len() ==> #[trigger] sqs@[i] < 64 && bit(d.sq, sqs@[i] as int),
                        forall|x: int| #[trigger] bit(d.sq, x) ==> exists|i: int| 0 <= i < sqs.len() && sqs@[i] == x,
                        tags.len() == out.len(),
                        forall|i: int| 0 <= i < out.len() ==> 0 <= #[trigger] tags[i] < t,
                        forall|i: int, j: int| 0 <= i < j < out.len() ==> tags[i] < tags[j],
                        forall|i: int|
                            0 <= i < out.len() ==> (#[trigger] out@[i]).stm == self.stm && doms_within(out@[i].dom@, self.dom@)
                                && normalized(out@[i].dom@) && !some_empty(out@[i].dom@),
                        forall|i: int, p: Seq<Option<Sq>>|
                            0 <= i < out.len() ==> (#[trigger] member(out@[i].dom@, p) <==> member(self.dom@, p) && p[k as int]
                                == Some(sqs@[tags[i]])),
                        forall|i: int| 0 <= i < out.len() ==> dom_within(#[trigger] out@[i].dom@[k as int], Dom { sq: 1u64 << sqs@[tags[i]], cap: false }),
                        forall|p: Seq<Option<Sq>>, j: int|
                            #![trigger member(self.dom@, p), sqs@[j]]
                            member(self.dom@, p) && 0 <= j < t && p[k as int] == Some(sqs@[j]) ==> exists|i: int|
                                0 <= i < out.len() && tags[i] == j,
                        open_query(self.dom@, q) ==> forall|i: int|
                            0 <= i < out.len() ==> region_facts(#[trigger] out@[i].dom@) < region_facts(self.dom@),
                    decreases sqs.len() - t,
                {
                    let x = sqs[t];
                    let pin = Dom::pinned(x);
                    let ghost upd = self.dom@.update(k as int, pin);
                    proof {
                        lemma_bit_single(x as u64);
                        assert(dom_within(pin, self.dom@[k as int]));
                        assert(doms_within(upd, self.dom@));
                        lemma_within_member(upd, self.dom@);
                        assert forall|p: Seq<Option<Sq>>| #[trigger] member(upd, p) <==> member(self.dom@, p)
                            && p[k as int] == Some(x) by {
                            if member(self.dom@, p) && p[k as int] == Some(x) {
                                assert forall|i: int| 0 <= i < p.len() implies #[trigger] placed(upd[i], p[i]) by {
                                    assert(placed(self.dom@[i], p[i]));
                                }
                            }
                            if member(upd, p) {
                                assert(placed(upd[k as int], p[k as int]));
                                if p[k as int] is Some {
                                    assert(bit(pin.sq, p[k as int]->Some_0 as int));
                                }
                            }
                        }
                    }
                    match self.restrict(k, pin) {
                        Some(c) => {
                            proof {
                                lemma_within_member(c.dom@, upd);
                                assert forall|i: int| 0 <= i < c.dom.len() implies #[trigger] dom_within(c.dom@[i], self.dom@[i]) by {
                                    assert(dom_within(c.dom@[i], upd[i]));
                                    assert(dom_within(upd[i], self.dom@[i]));
                                }
                                if open_query(self.dom@, q) {
                                    lemma_pin_loses(self.dom@[k as int], x);
                                    lemma_facts_within(c.dom@[k as int], pin);
                                    lemma_region_facts_within(c.dom@, self.dom@);
                                }
                            }
                            let ghost tags0 = tags;
                            let ghost out0 = out@;
                            out.push(c);
                            proof {
                                tags = tags.push(t as int);
                                assert forall|i: int| 0 <= i < out.len() implies dom_within(#[trigger] out@[i].dom@[k as int], Dom { sq: 1u64 << sqs@[tags[i]], cap: false }) by {
                                    if i < out0.len() {
                                        assert(out@[i] == out0[i]);
                                        assert(tags[i] == tags0[i]);
                                    } else {
                                        assert(dom_within(c.dom@[k as int], upd[k as int]));
                                    }
                                }
                                assert forall|p: Seq<Option<Sq>>, j: int|
                                    #![trigger member(self.dom@, p), sqs@[j]]
                                    member(self.dom@, p) && 0 <= j < t + 1 && p[k as int] == Some(sqs@[j]) implies exists|i: int|
                                        0 <= i < out.len() && tags[i] == j by {
                                    if j == t {
                                        assert(tags[out.len() - 1] == j);
                                    } else {
                                        let i = choose|i: int| 0 <= i < tags0.len() && tags0[i] == j;
                                        assert(tags[i] == tags0[i]);
                                    }
                                }
                            }
                        },
                        None => {
                            proof {
                                assert forall|p: Seq<Option<Sq>>, j: int|
                                    #![trigger member(self.dom@, p), sqs@[j]]
                                    member(self.dom@, p) && 0 <= j < t + 1 && p[k as int] == Some(sqs@[j]) implies exists|i: int|
                                        0 <= i < out.len() && tags[i] == j by {
                                    if j == t {
                                        assert(member(upd, p));
                                    }
                                }
                            }
                        },
                    }
                    t += 1;
                }
                let ghost n_pinned = out.len();
                let ghost cap_child = self.dom@.update(k as int, Dom { sq: 0, cap: true });
                if d.cap {
                    let cd = Dom::captured();
                    proof {
                        lemma_bit_empty();
                        assert(dom_within(cd, self.dom@[k as int]));
                        assert(doms_within(cap_child, self.dom@));
                        lemma_within_member(cap_child, self.dom@);
                        assert forall|p: Seq<Option<Sq>>| #[trigger] member(cap_child, p) <==> member(self.dom@, p)
                            && p[k as int] is None by {
                            if member(self.dom@, p) && p[k as int] is None {
                                assert forall|i: int| 0 <= i < p.len() implies #[trigger] placed(cap_child[i], p[i]) by {
                                    assert(placed(self.dom@[i], p[i]));
                                }
                            }
                            if member(cap_child, p) {
                                assert(placed(cap_child[k as int], p[k as int]));
                            }
                        }
                    }
                    match self.restrict(k, cd) {
                        Some(c) => {
                            proof {
                                lemma_within_member(c.dom@, cap_child);
                                assert forall|i: int| 0 <= i < c.dom.len() implies #[trigger] dom_within(c.dom@[i], self.dom@[i]) by {
                                    assert(dom_within(c.dom@[i], cap_child[i]));
                                    assert(dom_within(cap_child[i], self.dom@[i]));
                                }
                                if open_query(self.dom@, q) {
                                    lemma_capture_loses(self.dom@[k as int]);
                                    lemma_facts_within(c.dom@[k as int], cd);
                                    lemma_region_facts_within(c.dom@, self.dom@);
                                }
                            }
                            out.push(c);
                            proof {
                                assert(dom_within(out@[n_pinned as int].dom@[k as int], cap_child[k as int]));
                            }
                        },
                        None => {},
                    }
                }
                proof {
                    assert forall|i: int, p: Seq<Option<Sq>>|
                        0 <= i < out.len() && #[trigger] member(out@[i].dom@, p) implies member(self.dom@, p) by {
                        if i >= n_pinned {
                            assert(member(cap_child, p));
                        }
                    }
                    assert forall|p: Seq<Option<Sq>>| #[trigger] member(self.dom@, p) implies exists|i: int|
                        0 <= i < out.len() && member(out@[i].dom@, p) by {
                        assert(placed(self.dom@[k as int], p[k as int]));
                        if p[k as int] is Some {
                            let x = p[k as int]->Some_0;
                            let j = choose|j: int| 0 <= j < sqs.len() && sqs@[j] == x;
                            let i = choose|i: int| 0 <= i < n_pinned && tags[i] == j;
                            assert(member(out@[i].dom@, p));
                        } else {
                            assert(member(cap_child, p));
                            assert(member(out@[n_pinned as int].dom@, p));
                        }
                    }
                    assert forall|i: int, j: int, p: Seq<Option<Sq>>|
                        0 <= i < out.len() && 0 <= j < out.len() && i != j && #[trigger] member(out@[i].dom@, p)
                            implies !#[trigger] member(out@[j].dom@, p) by {
                        if member(out@[j].dom@, p) {
                            if i < n_pinned && j < n_pinned {
                                assert(tags[i] != tags[j]);
                                if tags[i] < tags[j] {
                                    assert(sqs@[tags[i]] < sqs@[tags[j]]);
                                } else {
                                    assert(sqs@[tags[j]] < sqs@[tags[i]]);
                                }
                            } else if i < n_pinned {
                                assert(member(cap_child, p));
                            } else {
                                assert(member(cap_child, p));
                            }
                        }
                    }
                    assert forall|i: int| 0 <= i < out.len() implies decides(#[trigger] out@[i].dom@, q) by {
                        assert forall|p1: Seq<Option<Sq>>, p2: Seq<Option<Sq>>|
                            #![trigger member(out@[i].dom@, p1), member(out@[i].dom@, p2)]
                            member(out@[i].dom@, p1) && member(out@[i].dom@, p2) implies p1[k as int] == p2[k as int] by {
                            if i >= n_pinned {
                                assert(member(cap_child, p1) && member(cap_child, p2));
                                assert(placed(cap_child[k as int], p1[k as int]));
                                assert(placed(cap_child[k as int], p2[k as int]));
                            }
                        }
                    }
                    assert forall|i: int| 0 <= i < out.len() implies shape_decides(#[trigger] out@[i].dom@, q) by {
                        let cdm = out@[i].dom@;
                        assert(!some_empty(cdm));
                        assert(!(cdm[k as int].sq == 0 && !cdm[k as int].cap));
                        if i < n_pinned {
                            lemma_within_pin(cdm[k as int], sqs@[tags[i]]);
                        } else {
                            assert(dom_within(cdm[k as int], Dom { sq: 0, cap: true }));
                            lemma_within_captured(cdm[k as int]);
                        }
                    }
                }
            },
        }
        out
    }
}

/// A non-empty domain inside the one pinned at `t` is pinned at `t`.
proof fn lemma_within_pin(a: Dom, t: u8)
    requires
        t < 64,
        dom_within(a, Dom { sq: 1u64 << t, cap: false }),
        !(a.sq == 0 && !a.cap),
    ensures
        pinned_at(a, t as int),
{
    lemma_bit_single(t as u64);
    assert(!a.cap);
    lemma_bit_nonzero(a.sq);
    let z = a.sq.trailing_zeros() as int;
    assert(bit(a.sq, z));
    assert(z == t);
}

/// A non-empty domain inside the captured one is the captured one.
proof fn lemma_within_captured(a: Dom)
    requires
        dom_within(a, Dom { sq: 0, cap: true }),
        !(a.sq == 0 && !a.cap),
    ensures
        a.sq == 0 && a.cap,
{
    lemma_bit_empty();
    lemma_bit_none(a.sq);
}

/// The domains answer the query `q` in their shape: the square is pinned
/// to one slot or held by none; the slot is pinned to one square or
/// captured.
pub open spec fn shape_decides(dom: Seq<Dom>, q: Blocked) -> bool {
    match q {
        Blocked::At(sq) => (exists|k: int| 0 <= k < dom.len() && #[trigger] pinned_at(dom[k], sq as int)) || forall|k: int|
            0 <= k < dom.len() ==> !#[trigger] bit(dom[k].sq, sq as int),
        Blocked::Locate(k) => (exists|t: int| #[trigger] pinned_at(dom[k as int], t)) || (dom[k as int].sq == 0 && dom[k as int].cap),
    }
}

/// Every position of `dom` gives the same answer to the query `q`: the same
/// slot, or none, on the square; the same square, or capture, for the slot.
pub open spec fn decides(dom: Seq<Dom>, q: Blocked) -> bool {
    match q {
        Blocked::At(sq) => forall|p1: Seq<Option<Sq>>, p2: Seq<Option<Sq>>, j: int|
            #![trigger member(dom, p1), member(dom, p2), p1[j]]
            member(dom, p1) && member(dom, p2) && 0 <= j < p1.len() ==> (p1[j] == Some(sq) <==> p2[j] == Some(sq)),
        Blocked::Locate(k) => forall|p1: Seq<Option<Sq>>, p2: Seq<Option<Sq>>|
            #![trigger member(dom, p1), member(dom, p2)]
            member(dom, p1) && member(dom, p2) ==> p1[k as int] == p2[k as int],
    }
}

/// The domains after `mv`: the mover pinned on its target, a captured slot
/// gone.
pub open spec fn play_doms(doms: Seq<Dom>, mv: Move) -> Seq<Dom> {
    let d = doms.update(mv.slot as int, Dom { sq: 1u64 << mv.to, cap: false });
    match mv.capture {
        Some(c) => d.update(c as int, Dom { sq: 0, cap: true }),
        None => d,
    }
}

/// The domains before `mv`, restated from those after it: the mover back
/// on its origin, a captured slot on the target.
pub open spec fn pullback_doms(doms: Seq<Dom>, mv: Move) -> Seq<Dom> {
    let d = doms.update(mv.slot as int, Dom { sq: 1u64 << mv.from, cap: false });
    match mv.capture {
        Some(c) => d.update(c as int, Dom { sq: 1u64 << mv.to, cap: false }),
        None => d,
    }
}

/// Slots of a move that a region of `n` slots has, squares on a 64-square
/// board.
pub open spec fn move_fits(mv: Move, n: int) -> bool {
    &&& mv.slot < n
    &&& mv.from < 64
    &&& mv.to < 64
    &&& mv.capture matches Some(c) ==> c < n
}

/// The members of `doms` that start with `prefix`.
pub open spec fn extends(doms: Seq<Dom>, prefix: Seq<Option<Sq>>, p: Seq<Option<Sq>>) -> bool {
    member(doms, p) && p.subrange(0, prefix.len() as int) == prefix
}

impl Region {
    /// The region after `mv`, normalized; `None` if that leaves no position.
    pub(crate) fn played(&self, mv: Move) -> (r: Option<Region>)
        requires
            move_fits(mv, self.dom.len() as int),
        ensures
            r matches Some(c) ==> {
                &&& c.stm == flip_spec(self.stm)
                &&& doms_within(c.dom@, play_doms(self.dom@, mv))
                &&& forall|p: Seq<Option<Sq>>| #[trigger] member(c.dom@, p) <==> member(play_doms(self.dom@, mv), p)
                &&& normalized(c.dom@)
                &&& !some_empty(c.dom@)
            },
            r is None ==> forall|p: Seq<Option<Sq>>| !#[trigger] member(play_doms(self.dom@, mv), p),
    {
        let mut dom = self.dom.clone();
        proof {
            assert(dom@ =~= self.dom@);
        }
        dom.set(mv.slot as usize, Dom::pinned(mv.to));
        if let Some(c) = mv.capture {
            dom.set(c as usize, Dom::captured());
        }
        let ghost target = dom@;
        proof {
            assert(target =~= play_doms(self.dom@, mv));
        }
        let mut c = Region { dom, stm: self.stm.flip() };
        if c.normalize() {
            Some(c)
        } else {
            proof {
                assert forall|p: Seq<Option<Sq>>| !#[trigger] member(target, p) by {
                    assert(member(c.dom@, p) <==> member(target, p));
                }
            }
            None
        }
    }

    /// The region after `mv` (which the oracle decided is legal
    /// throughout).
    pub fn play(&self, mv: Move) -> (r: Region)
        requires
            move_fits(mv, self.dom.len() as int),
            exists|p: Seq<Option<Sq>>| #[trigger] member(play_doms(self.dom@, mv), p),
        ensures
            r.stm == flip_spec(self.stm),
            doms_within(r.dom@, play_doms(self.dom@, mv)),
            forall|p: Seq<Option<Sq>>| #[trigger] member(r.dom@, p) <==> member(play_doms(self.dom@, mv), p),
    {
        match self.played(mv) {
            Some(c) => c,
            None => {
                proof {
                    let p = choose|p: Seq<Option<Sq>>| #[trigger] member(play_doms(self.dom@, mv), p);
                    assert(!member(play_doms(self.dom@, mv), p));
                }
                Region { dom: Vec::new(), stm: self.stm }
            },
        }
    }

    /// `child` with `mv` undone, normalized; `None` if that leaves no
    /// position.
    pub(crate) fn pulled(child: &Region, mv: Move) -> (r: Option<Region>)
        requires
            move_fits(mv, child.dom.len() as int),
        ensures
            r matches Some(c) ==> {
                &&& c.stm == flip_spec(child.stm)
                &&& doms_within(c.dom@, pullback_doms(child.dom@, mv))
                &&& forall|p: Seq<Option<Sq>>| #[trigger] member(c.dom@, p) <==> member(pullback_doms(child.dom@, mv), p)
                &&& normalized(c.dom@)
                &&& !some_empty(c.dom@)
            },
            r is None ==> forall|p: Seq<Option<Sq>>| !#[trigger] member(pullback_doms(child.dom@, mv), p),
    {
        let mut dom = child.dom.clone();
        proof {
            assert(dom@ =~= child.dom@);
        }
        dom.set(mv.slot as usize, Dom::pinned(mv.from));
        if let Some(c) = mv.capture {
            dom.set(c as usize, Dom::pinned(mv.to));
        }
        let ghost target = dom@;
        proof {
            assert(target =~= pullback_doms(child.dom@, mv));
        }
        let mut c = Region { dom, stm: child.stm.flip() };
        if c.normalize() {
            Some(c)
        } else {
            proof {
                assert forall|p: Seq<Option<Sq>>| !#[trigger] member(target, p) by {
                    assert(member(c.dom@, p) <==> member(target, p));
                }
            }
            None
        }
    }

    /// Undo `mv` on a sub-region of `self.play(mv)`.
    pub fn pullback(child: &Region, mv: Move) -> (r: Region)
        requires
            move_fits(mv, child.dom.len() as int),
            exists|p: Seq<Option<Sq>>| #[trigger] member(pullback_doms(child.dom@, mv), p),
        ensures
            r.stm == flip_spec(child.stm),
            doms_within(r.dom@, pullback_doms(child.dom@, mv)),
            forall|p: Seq<Option<Sq>>| #[trigger] member(r.dom@, p) <==> member(pullback_doms(child.dom@, mv), p),
    {
        match Self::pulled(child, mv) {
            Some(c) => c,
            None => {
                proof {
                    let p = choose|p: Seq<Option<Sq>>| #[trigger] member(pullback_doms(child.dom@, mv), p);
                    assert(!member(pullback_doms(child.dom@, mv), p));
                }
                Region { dom: Vec::new(), stm: child.stm }
            },
        }
    }

    /// Every position in the region, each once (no legality filtering).
    #[verifier::spinoff_prover]
    pub fn positions(&self) -> (out: Vec<Position>)
        requires
            self.dom.len() <= 255,
        ensures
            forall|i: int| 0 <= i < out.len() ==> #[trigger] member(self.dom@, out@[i].sqs@),
            forall|i: int| 0 <= i < out.len() ==> (#[trigger] out@[i]).stm == self.stm,
            forall|p: Seq<Option<Sq>>| #[trigger] member(self.dom@, p) ==> exists|i: int| 0 <= i < out.len() && out@[i].sqs@ == p,
            forall|i: int, j: int| 0 <= i < j < out.len() ==> out@[i].sqs@ != out@[j].sqs@,
    {
        let mut out: Vec<Position> = Vec::new();
        let mut sqs: Vec<Option<Sq>> = Vec::new();
        let ghost s0 = sqs@;
        self.enumerate(0, &mut sqs, &mut out);
        proof {
            assert(s0 =~= Seq::<Option<Sq>>::empty());
            assert forall|i: int| 0 <= i < out.len() implies #[trigger] member(self.dom@, out@[i].sqs@) by {
                assert(extends(self.dom@, s0, out@[i].sqs@));
            }
            assert forall|i: int| 0 <= i < out.len() implies (#[trigger] out@[i]).stm == self.stm by {
                assert(extends(self.dom@, s0, out@[i].sqs@));
            }
            assert forall|p: Seq<Option<Sq>>| #[trigger] member(self.dom@, p) implies exists|i: int|
                0 <= i < out.len() && out@[i].sqs@ == p by {
                assert(p.subrange(0, 0) =~= Seq::<Option<Sq>>::empty());
                assert(extends(self.dom@, Seq::empty(), p));
            }
        }
        out
    }

    /// Append every position of the region that extends `sqs` (the
    /// placements of the first `k` slots).
    #[verifier::spinoff_prover]
    #[verifier::rlimit(40)]
    fn enumerate(&self, k: usize, sqs: &mut Vec<Option<Sq>>, out: &mut Vec<Position>)
        requires
            old(sqs).len() == k <= self.dom.len() <= 255,
            forall|i: int| 0 <= i < k ==> #[trigger] placed(self.dom@[i], old(sqs)@[i]),
            distinct_squares(old(sqs)@),
        ensures
            final(sqs)@ == old(sqs)@,
            final(out)@.subrange(0, old(out).len() as int) == old(out)@,
            final(out).len() >= old(out).len(),
            forall|i: int|
                old(out).len() <= i < final(out).len() ==> #[trigger] extends(self.dom@, old(sqs)@, final(out)@[i].sqs@),
            forall|i: int| old(out).len() <= i < final(out).len() ==> (#[trigger] final(out)@[i]).stm == self.stm,
            forall|p: Seq<Option<Sq>>|
                #[trigger] extends(self.dom@, old(sqs)@, p) ==> exists|i: int|
                    old(out).len() <= i < final(out).len() && final(out)@[i].sqs@ == p,
            forall|i: int, j: int|
                old(out).len() <= i < j < final(out).len() ==> final(out)@[i].sqs@ != final(out)@[j].sqs@,
        decreases self.dom.len() - k,
    {
        let ghost pre = sqs@;
        let ghost out0 = out@;
        if k == self.dom.len() {
            let p = Position { sqs: sqs.clone(), stm: self.stm };
            proof {
                assert(p.sqs@ =~= pre);
                assert(pre.subrange(0, pre.len() as int) =~= pre);
            }
            out.push(p);
            proof {
                assert(out@.subrange(0, out0.len() as int) =~= out0);
                assert(member(self.dom@, pre));
                assert forall|q: Seq<Option<Sq>>| #[trigger] extends(self.dom@, pre, q) implies exists|i: int|
                    out0.len() <= i < out.len() && out@[i].sqs@ == q by {
                    assert(q.subrange(0, q.len() as int) =~= q);
                    assert(out@[out0.len() as int].sqs@ == q);
                }
            }
            return;
        }
        let d = self.dom[k];
        let cands = d.squares();
        let mut t: usize = 0;
        while t < cands.len()
            invariant
                0 <= t <= cands.len(),
                k < self.dom.len() <= 255,
                d == self.dom@[k as int],
                pre.len() == k,
                sqs@ == pre,
                forall|i: int| 0 <= i < k ==> #[trigger] placed(self.dom@[i], pre[i]),
                distinct_squares(pre),
                forall|i: int, j: int| 0 <= i < j < cands.len() ==> cands@[i] < cands@[j],
                forall|i: int| 0 <= i < cands.len() ==> #[trigger] cands@[i] < 64 && bit(d.sq, cands@[i] as int),
                forall|x: int| #[trigger] bit(d.sq, x) ==> exists|i: int| 0 <= i < cands.len() && cands@[i] == x,
                out@.subrange(0, out0.len() as int) == out0,
                out.len() >= out0.len(),
                forall|i: int| out0.len() <= i < out.len() ==> #[trigger] extends(self.dom@, pre, out@[i].sqs@),
                forall|i: int| out0.len() <= i < out.len() ==> (#[trigger] out@[i]).stm == self.stm,
                forall|i: int|
                    out0.len() <= i < out.len() ==> exists|j: int| 0 <= j < t && (#[trigger] out@[i]).sqs@[k as int] == Some(cands@[j]),
                forall|p: Seq<Option<Sq>>, j: int|
                    #![trigger extends(self.dom@, pre, p), cands@[j]]
                    extends(self.dom@, pre, p) && 0 <= j < t && p[k as int] == Some(cands@[j]) ==> exists|i: int|
                        out0.len() <= i < out.len() && out@[i].sqs@ == p,
                forall|i: int, j: int| out0.len() <= i < j < out.len() ==> out@[i].sqs@ != out@[j].sqs@,
            decreases cands.len() - t,
        {
            let x = cands[t];
            if !Self::holds(sqs, x) {
                let ghost out1 = out@;
                sqs.push(Some(x));
                proof {
                    assert(sqs@ == pre.push(Some(x)));
                    assert forall|i: int| 0 <= i < k + 1 implies #[trigger] placed(self.dom@[i], sqs@[i]) by {
                        if i < k {
                            assert(sqs@[i] == pre[i]);
                        }
                    }
                }
                self.enumerate(k + 1, sqs, out);
                sqs.pop();
                proof {
                    assert(sqs@ =~= pre);
                    let ext = pre.push(Some(x));
                    assert forall|q: Seq<Option<Sq>>| #[trigger] extends(self.dom@, ext, q) == (extends(self.dom@, pre, q)
                        && q[k as int] == Some(x)) by {
                        if extends(self.dom@, pre, q) && q[k as int] == Some(x) {
                            assert(q.subrange(0, k + 1) =~= ext);
                        }
                        if extends(self.dom@, ext, q) {
                            assert(q.subrange(0, k as int) =~= q.subrange(0, k + 1).subrange(0, k as int));
                            assert(q[k as int] == q.subrange(0, k + 1)[k as int]);
                        }
                    }
                    assert forall|i: int| out0.len() <= i < out.len() implies #[trigger] extends(self.dom@, pre, out@[i].sqs@) by {
                        if i < out1.len() {
                            assert(out@.subrange(0, out1.len() as int)[i] == out@[i]);
                            assert(out@[i] == out1[i]);
                        } else {
                            assert(extends(self.dom@, ext, out@[i].sqs@));
                        }
                    }
                    assert forall|i: int| out0.len() <= i < out.len() implies (#[trigger] out@[i]).stm == self.stm by {
                        if i < out1.len() {
                            assert(out@.subrange(0, out1.len() as int)[i] == out@[i]);
                            assert(out@[i] == out1[i]);
                        }
                    }
                    assert forall|i: int| out0.len() <= i < out.len() implies exists|j: int|
                        0 <= j < t + 1 && (#[trigger] out@[i]).sqs@[k as int] == Some(cands@[j]) by {
                        if i < out1.len() {
                            assert(out@.subrange(0, out1.len() as int)[i] == out@[i]);
                            assert(out@[i] == out1[i]);
                            let j = choose|j: int| 0 <= j < t && (#[trigger] out1[i]).sqs@[k as int] == Some(cands@[j]);
                            assert(0 <= j < t + 1 && out@[i].sqs@[k as int] == Some(cands@[j]));
                        } else {
                            assert(extends(self.dom@, ext, out@[i].sqs@));
                            assert(out@[i].sqs@[k as int] == Some(cands@[t as int]));
                        }
                    }
                    assert forall|p: Seq<Option<Sq>>, j: int|
                        #![trigger extends(self.dom@, pre, p), cands@[j]]
                        extends(self.dom@, pre, p) && 0 <= j < t + 1 && p[k as int] == Some(cands@[j]) implies exists|i: int|
                            out0.len() <= i < out.len() && out@[i].sqs@ == p by {
                        if j < t {
                            let i = choose|i: int| out0.len() <= i < out1.len() && out1[i].sqs@ == p;
                            assert(out@.subrange(0, out1.len() as int)[i] == out@[i]);
                            assert(out@[i] == out1[i]);
                        } else {
                            assert(extends(self.dom@, ext, p));
                        }
                    }
                    assert forall|i: int, j: int| out0.len() <= i < j < out.len() implies out@[i].sqs@ != out@[j].sqs@ by {
                        if j >= out1.len() && i < out1.len() {
                            assert(out@.subrange(0, out1.len() as int)[i] == out@[i]);
                            assert(out@[i] == out1[i]);
                            let jj = choose|jj: int| 0 <= jj < t && (#[trigger] out1[i]).sqs@[k as int] == Some(cands@[jj]);
                            assert(extends(self.dom@, ext, out@[j].sqs@));
                            assert(cands@[jj] < cands@[t as int]);
                        } else if j < out1.len() {
                            assert(out@.subrange(0, out1.len() as int)[i] == out@[i]);
                            assert(out@.subrange(0, out1.len() as int)[j] == out@[j]);
                        }
                    }
                }
            } else {
                proof {
                    assert forall|p: Seq<Option<Sq>>, j: int|
                        #![trigger extends(self.dom@, pre, p), cands@[j]]
                        extends(self.dom@, pre, p) && 0 <= j < t + 1 && p[k as int] == Some(cands@[j]) implies exists|i: int|
                            out0.len() <= i < out.len() && out@[i].sqs@ == p by {
                        if j == t {
                            let w = choose|w: int| 0 <= w < pre.len() && pre[w] == Some(x);
                            assert(p.subrange(0, k as int)[w] == p[w]);
                            if w < k {
                                assert(p[w] != p[k as int]);
                            }
                        }
                    }
                    assert forall|i: int| out0.len() <= i < out.len() implies exists|j: int|
                        0 <= j < t + 1 && (#[trigger] out@[i]).sqs@[k as int] == Some(cands@[j]) by {
                        let j = choose|j: int| 0 <= j < t && (#[trigger] out@[i]).sqs@[k as int] == Some(cands@[j]);
                        assert(0 <= j < t + 1);
                    }
                }
            }
            t += 1;
        }
        let ghost out2 = out@;
        if d.cap {
            sqs.push(None);
            proof {
                assert(sqs@ == pre.push(None));
                assert forall|i: int| 0 <= i < k + 1 implies #[trigger] placed(self.dom@[i], sqs@[i]) by {
                    if i < k {
                        assert(sqs@[i] == pre[i]);
                    }
                }
            }
            self.enumerate(k + 1, sqs, out);
            sqs.pop();
            proof {
                assert(sqs@ =~= pre);
                let ext = pre.push(None);
                assert forall|q: Seq<Option<Sq>>| #[trigger] extends(self.dom@, ext, q) == (extends(self.dom@, pre, q)
                    && q[k as int] is None) by {
                    if extends(self.dom@, pre, q) && q[k as int] is None {
                        assert(q.subrange(0, k + 1) =~= ext);
                    }
                    if extends(self.dom@, ext, q) {
                        assert(q.subrange(0, k as int) =~= q.subrange(0, k + 1).subrange(0, k as int));
                        assert(q[k as int] == q.subrange(0, k + 1)[k as int]);
                    }
                }
                assert forall|i: int, j: int| out0.len() <= i < j < out.len() implies out@[i].sqs@ != out@[j].sqs@ by {
                    if j >= out2.len() && i < out2.len() {
                        assert(out@.subrange(0, out2.len() as int)[i] == out@[i]);
                        assert(extends(self.dom@, ext, out@[j].sqs@));
                    } else if j < out2.len() {
                        assert(out@.subrange(0, out2.len() as int)[i] == out@[i]);
                        assert(out@.subrange(0, out2.len() as int)[j] == out@[j]);
                    }
                }
                assert forall|i: int| out0.len() <= i < out.len() implies #[trigger] extends(self.dom@, pre, out@[i].sqs@) by {
                    if i < out2.len() {
                        assert(out@.subrange(0, out2.len() as int)[i] == out@[i]);
                    } else {
                        assert(extends(self.dom@, ext, out@[i].sqs@));
                    }
                }
                assert forall|i: int| out0.len() <= i < out.len() implies (#[trigger] out@[i]).stm == self.stm by {
                    if i < out2.len() {
                        assert(out@.subrange(0, out2.len() as int)[i] == out@[i]);
                    }
                }
                assert forall|p: Seq<Option<Sq>>| #[trigger] extends(self.dom@, pre, p) implies exists|i: int|
                    out0.len() <= i < out.len() && out@[i].sqs@ == p by {
                    assert(placed(self.dom@[k as int], p[k as int]));
                    if p[k as int] is Some {
                        let x = p[k as int]->Some_0;
                        let j = choose|j: int| 0 <= j < cands.len() && cands@[j] == x;
                        let i = choose|i: int| out0.len() <= i < out2.len() && out2[i].sqs@ == p;
                        assert(out@.subrange(0, out2.len() as int)[i] == out@[i]);
                    } else {
                        assert(extends(self.dom@, ext, p));
                    }
                }
                assert(out@.subrange(0, out0.len() as int) =~= out2.subrange(0, out0.len() as int));
            }
        } else {
            proof {
                assert forall|p: Seq<Option<Sq>>| #[trigger] extends(self.dom@, pre, p) implies exists|i: int|
                    out0.len() <= i < out.len() && out@[i].sqs@ == p by {
                    assert(placed(self.dom@[k as int], p[k as int]));
                    let x = p[k as int]->Some_0;
                    let j = choose|j: int| 0 <= j < cands.len() && cands@[j] == x;
                }
            }
        }
    }

    /// Some slot in `sqs` is on `x`.
    fn holds(sqs: &Vec<Option<Sq>>, x: Sq) -> (r: bool)
        ensures
            r == exists|i: int| 0 <= i < sqs.len() && sqs@[i] == Some(x),
    {
        let mut i: usize = 0;
        while i < sqs.len()
            invariant
                0 <= i <= sqs.len(),
                forall|j: int| 0 <= j < i ==> sqs@[j] != Some(x),
            decreases sqs.len() - i,
        {
            if sqs[i] == Some(x) {
                return true;
            }
            i += 1;
        }
        false
    }

    /// No piece but the kings can be on the board.
    pub fn only_kings(&self, setup: &Setup) -> (r: bool)
        requires
            self.wf(setup),
            setup.wf(),
        ensures
            r == forall|k: int|
                0 <= k < self.dom.len() ==> setup.kind_spec(k) == Kind::King || ((#[trigger] self.dom@[k]).sq == 0
                    && self.dom@[k].cap),
    {
        let mut s: usize = 0;
        while s < self.dom.len()
            invariant
                0 <= s <= self.dom.len(),
                self.dom.len() == setup.slots.len() <= 255,
                forall|k: int|
                    0 <= k < s ==> setup.kind_spec(k) == Kind::King || ((#[trigger] self.dom@[k]).sq == 0 && self.dom@[k].cap),
            decreases self.dom.len() - s,
        {
            if !(setup.kind(s as SlotId) == Kind::King || self.dom[s].is_captured()) {
                return false;
            }
            s += 1;
        }
        true
    }
}

// ---------------------------------------------------------------------
// Patterns
// ---------------------------------------------------------------------

/// The facts a verdict consulted, as the set of positions satisfying them.
#[derive(Clone, PartialEq, Eq, Hash, Debug)]
pub struct Pattern {
    pub dom: Vec<Dom>,
}

/// The placements `p` satisfy every fact of the pattern.
pub open spec fn satisfies(pat: Seq<Dom>, p: Seq<Option<Sq>>) -> bool {
    forall|k: int| 0 <= k < p.len() && k < pat.len() ==> #[trigger] placed(pat[k], p[k])
}

/// The pattern after an answer "slot `ans` (or nobody) is on `sq`".
pub open spec fn record_at_spec(pat: Seq<Dom>, sq: Sq, ans: Option<SlotId>) -> Seq<Dom> {
    match ans {
        Some(k) => pat.update(k as int, Dom { sq: 1u64 << sq, cap: false }),
        None => without_sq_spec(pat, sq),
    }
}

/// The pattern after an answer "slot `k` is on `ans` (or captured)".
pub open spec fn record_locate_spec(pat: Seq<Dom>, k: SlotId, ans: Option<Sq>) -> Seq<Dom> {
    match ans {
        Some(sq) => pat.update(k as int, Dom { sq: 1u64 << sq, cap: false }),
        None => pat.update(k as int, Dom { sq: 0, cap: true }),
    }
}

/// Domain by domain meet of two patterns, as long as both have domains.
pub open spec fn meet_spec(a: Seq<Dom>, b: Seq<Dom>) -> Seq<Dom> {
    Seq::new(
        if a.len() <= b.len() {
            a.len()
        } else {
            b.len()
        },
        |k: int| Dom { sq: a[k].sq & b[k].sq, cap: a[k].cap && b[k].cap },
    )
}

/// Every square of an `area`-square board, and captured.
pub open spec fn full_dom(area: int) -> Dom {
    Dom { sq: full_mask(area), cap: true }
}

/// Captured, on no square.
pub open spec fn captured_dom() -> Dom {
    Dom { sq: 0, cap: true }
}

impl Pattern {
    /// No fact: every placement of every slot.
    pub fn full(setup: &Setup) -> (p: Pattern)
        requires
            setup.wf(),
        ensures
            p.dom.len() == setup.slots.len(),
            forall|k: int| 0 <= k < p.dom.len() ==> (#[trigger] p.dom@[k]) == full_dom(setup.area_spec()),
    {
        let mut dom: Vec<Dom> = Vec::new();
        let mut s: usize = 0;
        while s < setup.slots.len()
            invariant
                setup.wf(),
                0 <= s <= setup.slots.len(),
                dom.len() == s,
                forall|k: int| 0 <= k < s ==> (#[trigger] dom@[k]) == full_dom(setup.area_spec()),
            decreases setup.slots.len() - s,
        {
            dom.push(Dom::full(setup, true));
            s += 1;
        }
        Pattern { dom }
    }

    /// The facts "every non-king slot is captured".
    pub fn kings_only(setup: &Setup) -> (p: Pattern)
        requires
            setup.wf(),
        ensures
            p.dom.len() == setup.slots.len(),
            forall|k: int|
                0 <= k < p.dom.len() ==> (#[trigger] p.dom@[k]) == if setup.kind_spec(k) == Kind::King {
                    full_dom(setup.area_spec())
                } else {
                    captured_dom()
                },
    {
        let mut p = Pattern::full(setup);
        let mut s: usize = 0;
        while s < setup.slots.len()
            invariant
                setup.wf(),
                0 <= s <= setup.slots.len(),
                p.dom.len() == setup.slots.len(),
                forall|k: int|
                    0 <= k < p.dom.len() ==> (#[trigger] p.dom@[k]) == if k < s && setup.kind_spec(k) != Kind::King {
                        captured_dom()
                    } else {
                        full_dom(setup.area_spec())
                    },
            decreases setup.slots.len() - s,
        {
            if setup.kind(s as SlotId) != Kind::King {
                p.dom.set(s, Dom::captured());
            }
            s += 1;
        }
        p
    }

    /// Every position of `r` satisfies the pattern, domain by domain.
    pub fn covers(&self, r: &Region) -> (b: bool)
        ensures
            b == forall|k: int|
                0 <= k < r.dom.len() && k < self.dom.len() ==> #[trigger] dom_within(r.dom@[k], self.dom@[k]),
    {
        let mut k: usize = 0;
        while k < r.dom.len() && k < self.dom.len()
            invariant
                0 <= k <= r.dom.len(),
                k <= self.dom.len(),
                forall|j: int| 0 <= j < k ==> #[trigger] dom_within(r.dom@[j], self.dom@[j]),
            decreases r.dom.len() - k,
        {
            if !r.dom[k].subset_of(self.dom[k]) {
                return false;
            }
            k += 1;
        }
        true
    }

    /// The position satisfies every fact of the pattern.
    pub fn covers_position(&self, p: &Position) -> (b: bool)
        requires
            forall|k: int| 0 <= k < p.sqs.len() ==> (#[trigger] p.sqs@[k] matches Some(q) ==> q < 64),
        ensures
            b == satisfies(self.dom@, p.sqs@),
    {
        let mut k: usize = 0;
        while k < p.sqs.len() && k < self.dom.len()
            invariant
                0 <= k <= p.sqs.len(),
                k <= self.dom.len(),
                forall|j: int| 0 <= j < p.sqs.len() ==> (#[trigger] p.sqs@[j] matches Some(q) ==> q < 64),
                forall|j: int| 0 <= j < k ==> #[trigger] placed(self.dom@[j], p.sqs@[j]),
            decreases p.sqs.len() - k,
        {
            let d = self.dom[k];
            let ok = match p.sqs[k] {
                Some(sq) => d.has(sq),
                None => d.cap,
            };
            if !ok {
                proof {
                    assert(!placed(self.dom@[k as int], p.sqs@[k as int]));
                }
                return false;
            }
            k += 1;
        }
        true
    }

    /// Conjunction of two fact sets.
    pub fn meet(&self, other: &Pattern) -> (p: Pattern)
        ensures
            p.dom@ == meet_spec(self.dom@, other.dom@),
    {
        let mut dom: Vec<Dom> = Vec::new();
        let mut k: usize = 0;
        while k < self.dom.len() && k < other.dom.len()
            invariant
                0 <= k <= self.dom.len(),
                k <= other.dom.len(),
                dom.len() == k,
                forall|j: int| 0 <= j < k ==> #[trigger] dom@[j] == meet_spec(self.dom@, other.dom@)[j],
            decreases self.dom.len() - k,
        {
            dom.push(self.dom[k].meet(other.dom[k]));
            k += 1;
        }
        proof {
            assert(dom@ =~= meet_spec(self.dom@, other.dom@));
        }
        Pattern { dom }
    }

    /// Record the answer "slot `ans` (or nobody) is on `sq`".
    pub fn record_at(&mut self, sq: Sq, ans: Option<SlotId>)
        requires
            sq < 64,
            ans matches Some(k) ==> k < old(self).dom.len(),
        ensures
            final(self).dom@ == record_at_spec(old(self).dom@, sq, ans),
    {
        match ans {
            Some(k) => {
                self.dom.set(k as usize, Dom::pinned(sq));
            },
            None => {
                let ghost orig = self.dom@;
                let mut j: usize = 0;
                while j < self.dom.len()
                    invariant
                        0 <= j <= self.dom.len(),
                        sq < 64,
                        self.dom.len() == orig.len(),
                        forall|i: int|
                            0 <= i < self.dom.len() ==> #[trigger] self.dom@[i] == if i < j {
                                without_sq_spec(orig, sq)[i]
                            } else {
                                orig[i]
                            },
                    decreases self.dom.len() - j,
                {
                    let d = self.dom[j];
                    self.dom.set(j, Dom { sq: d.sq & !(1u64 << sq), cap: d.cap });
                    j += 1;
                }
                proof {
                    assert(self.dom@ =~= without_sq_spec(orig, sq));
                }
            },
        }
    }

    /// Record the answer "slot `k` is on `ans` (or captured)".
    pub fn record_locate(&mut self, k: SlotId, ans: Option<Sq>)
        requires
            k < old(self).dom.len(),
            ans matches Some(sq) ==> sq < 64,
        ensures
            final(self).dom@ == record_locate_spec(old(self).dom@, k, ans),
    {
        let d = match ans {
            Some(sq) => Dom::pinned(sq),
            None => Dom::captured(),
        };
        self.dom.set(k as usize, d);
    }

    /// Facts about the position after `mv`, restated about the position
    /// before.
    pub fn pullback(&self, mv: Move) -> (p: Pattern)
        requires
            move_fits(mv, self.dom.len() as int),
        ensures
            p.dom@ == pullback_doms(self.dom@, mv),
    {
        let mut dom = self.dom.clone();
        proof {
            assert(dom@ =~= self.dom@);
        }
        dom.set(mv.slot as usize, Dom::pinned(mv.from));
        if let Some(c) = mv.capture {
            dom.set(c as usize, Dom::pinned(mv.to));
        }
        proof {
            assert(dom@ =~= pullback_doms(self.dom@, mv));
        }
        Pattern { dom }
    }
}

// ---------------------------------------------------------------------
// The recording oracle
// ---------------------------------------------------------------------

/// The square of a domain that is exactly one square.
pub open spec fn pin_of(d: Dom) -> Option<int> {
    if exists|t: int| #[trigger] pinned_at(d, t) {
        Some(choose|t: int| #[trigger] pinned_at(d, t))
    } else {
        None
    }
}

/// Who is on `sq`, scanning the domains from `k` with `holder` found so
/// far: blocked on a domain that holds the square without being pinned.
pub open spec fn rec_at_from(doms: Seq<Dom>, sq: Sq, k: int, holder: Option<SlotId>) -> Res<Option<SlotId>>
    decreases doms.len() - k,
{
    if k < 0 || k >= doms.len() {
        Ok(holder)
    } else if bit(doms[k].sq, sq as int) {
        if pin_of(doms[k]) is Some {
            rec_at_from(doms, sq, k + 1, Some(k as SlotId))
        } else {
            Err(Blocked::At(sq))
        }
    } else {
        rec_at_from(doms, sq, k + 1, holder)
    }
}

/// Where slot `s` is: blocked unless pinned or captured.
pub open spec fn rec_locate(doms: Seq<Dom>, s: SlotId) -> Res<Option<Sq>> {
    if s >= doms.len() {
        Ok(None)
    } else {
        match pin_of(doms[s as int]) {
            Some(t) => Ok(Some(t as Sq)),
            None => if doms[s as int].sq == 0 && doms[s as int].cap {
                Ok(None)
            } else {
                Err(Blocked::Locate(s))
            },
        }
    }
}

/// What the recording oracle answers on a region with domains `doms`.
pub open spec fn rec_answers(doms: Seq<Dom>) -> Answers {
    (|q: Sq| rec_at_from(doms, q, 0, None), |s: SlotId| rec_locate(doms, s))
}

/// The queries a region leaves open, as a predicate.
pub open spec fn open_in(doms: Seq<Dom>) -> spec_fn(Blocked) -> bool {
    |b: Blocked| open_query(doms, b)
}

proof fn lemma_pin_of(d: Dom)
    ensures
        pin_of(d) matches Some(t) ==> pinned_at(d, t),
        pin_of(d) is None ==> unpinned(d),
        forall|t: int| #[trigger] pinned_at(d, t) ==> pin_of(d) == Some(t),
{
    assert forall|t: int| #[trigger] pinned_at(d, t) implies pin_of(d) == Some(t) by {
        let u = choose|t: int| #[trigger] pinned_at(d, t);
        assert(bit(d.sq, u) <==> u == t);
        assert(bit(d.sq, u));
    }
}

/// A pinned domain lies on the board when the region does.
proof fn lemma_rec_at_scan(doms: Seq<Dom>, sq: Sq, p: Seq<Option<Sq>>, k: int, holder: Option<SlotId>)
    requires
        member(doms, p),
        doms.len() <= 255,
        0 <= k <= doms.len(),
        holder matches Some(h) ==> h < k && p[h as int] == Some(sq),
        holder is None ==> forall|i: int| 0 <= i < k ==> p[i] != Some(sq),
    ensures
        rec_at_from(doms, sq, k, holder) matches Ok(x) ==> x == crate::board::occupant(p, sq),
    decreases doms.len() - k,
{
    if k >= doms.len() {
        lemma_occ_from(p, sq, 0);
        match holder {
            Some(h) => {
                let o = occ_from(p, sq, 0);
                assert(o is Some);
                let i = o->Some_0;
                if i != h {
                    if i < h {
                        assert(p[i] != p[h as int]);
                    } else {
                        assert(p[h as int] != p[i]);
                    }
                }
            },
            None => {},
        }
    } else {
        assert(placed(doms[k], p[k]));
        if bit(doms[k].sq, sq as int) {
            lemma_pin_of(doms[k]);
            if pin_of(doms[k]) is Some {
                let t = pin_of(doms[k])->Some_0;
                assert(bit(doms[k].sq, sq as int) <==> sq == t);
                assert(p[k] == Some(sq)) by {
                    if p[k] is Some {
                        assert(bit(doms[k].sq, p[k]->Some_0 as int));
                    }
                }
                if let Some(h) = holder {
                    assert(p[h as int] != p[k]);
                }
                lemma_rec_at_scan(doms, sq, p, k + 1, Some(k as SlotId));
            }
        } else {
            assert(p[k] != Some(sq));
            lemma_rec_at_scan(doms, sq, p, k + 1, holder);
        }
    }
}

proof fn lemma_rec_at_bounds(doms: Seq<Dom>, sq: Sq, k: int, holder: Option<SlotId>)
    requires
        0 <= k <= doms.len() <= 255,
        holder matches Some(h) ==> h < doms.len(),
    ensures
        rec_at_from(doms, sq, k, holder) matches Ok(Some(h)) ==> h < doms.len(),
        rec_at_from(doms, sq, k, holder) matches Err(b) ==> open_query(doms, b),
    decreases doms.len() - k,
{
    if k < doms.len() {
        if bit(doms[k].sq, sq as int) {
            lemma_pin_of(doms[k]);
            if pin_of(doms[k]) is Some {
                lemma_rec_at_bounds(doms, sq, k + 1, Some(k as SlotId));
            } else {
                assert(open_query(doms, Blocked::At(sq))) by {
                    assert(bit(doms[k].sq, sq as int) && unpinned(doms[k]));
                }
            }
        } else {
            lemma_rec_at_bounds(doms, sq, k + 1, holder);
        }
    }
}

/// What the recording oracle answers about a region holds of every one of
/// its positions.
pub proof fn lemma_rec_agrees(doms: Seq<Dom>, p: Seq<Option<Sq>>)
    requires
        member(doms, p),
        doms.len() <= 255,
    ensures
        forall|q: Sq|
            (#[trigger] (rec_answers(doms).0)(q)) is Ok ==> (rec_answers(doms).0)(q)->Ok_0 == crate::board::occupant(p, q),
        forall|s: SlotId|
            s < doms.len() && (#[trigger] (rec_answers(doms).1)(s)) is Ok ==> (rec_answers(doms).1)(s)->Ok_0 == p[s as int],
{
    assert forall|q: Sq| (#[trigger] (rec_answers(doms).0)(q)) is Ok implies (rec_answers(doms).0)(q)->Ok_0
        == crate::board::occupant(p, q) by {
        lemma_rec_at_scan(doms, q, p, 0, None);
    }
    assert forall|s: SlotId| s < doms.len() && (#[trigger] (rec_answers(doms).1)(s)) is Ok implies (rec_answers(
        doms,
    ).1)(s)->Ok_0 == p[s as int] by {
        let d = doms[s as int];
        lemma_pin_of(d);
        assert(placed(d, p[s as int]));
        lemma_bit_empty();
        match pin_of(d) {
            Some(t) => {
                if p[s as int] is Some {
                    assert(bit(d.sq, p[s as int]->Some_0 as int));
                }
            },
            None => {},
        }
    }
}

/// The recording oracle blocks only on queries the region leaves open.
pub proof fn lemma_rec_errs(doms: Seq<Dom>)
    requires
        doms.len() <= 255,
    ensures
        errs_within(rec_answers(doms), open_in(doms)),
{
    assert forall|q: Sq| #[trigger] (rec_answers(doms).0)(q) matches Err(b) ==> open_in(doms)(b) by {
        lemma_rec_at_bounds(doms, q, 0, None);
    }
    assert forall|s: SlotId| #[trigger] (rec_answers(doms).1)(s) matches Err(b) ==> open_in(doms)(b) by {
        if s < doms.len() {
            lemma_pin_of(doms[s as int]);
        }
    }
}

/// Oracle over a region that records every decided answer.
pub struct Rec<'a> {
    pub r: &'a Region,
}

/// What a recording oracle has been asked: the facts its answers
/// established, and the number of answered queries.
pub struct RecLog {
    pub pattern: Pattern,
    pub queries: u64,
}

impl<'a> Oracle for Rec<'a> {
    type Log = RecLog;

    open spec fn nslots(&self) -> nat {
        self.r.dom.len() as nat
    }

    open spec fn answers(&self) -> Answers {
        rec_answers(self.r.dom@)
    }

    open spec fn log_ok(&self, log: &RecLog) -> bool {
        &&& log.pattern.dom.len() == self.r.dom.len()
        &&& self.r.dom.len() <= 255
    }

    fn at(&self, log: &mut RecLog, sq: Sq) -> (r: Res<Option<SlotId>>) {
        let doms = &self.r.dom;
        let mut holder: Option<SlotId> = None;
        let mut k: usize = 0;
        proof {
            lemma_rec_at_bounds(doms@, sq, 0, None);
        }
        while k < doms.len()
            invariant
                0 <= k <= doms.len() <= 255,
                doms == &self.r.dom,
                log.pattern.dom.len() == self.r.dom.len(),
                holder matches Some(h) ==> h < k,
                rec_at_from(doms@, sq, 0, None) == rec_at_from(doms@, sq, k as int, holder),
            decreases doms.len() - k,
        {
            let d = doms[k];
            if sq < 64 && d.has(sq) {
                proof {
                    lemma_pin_of(d);
                }
                match d.is_pinned() {
                    Some(_) => {
                        holder = Some(k as SlotId);
                    },
                    None => {
                        return Err(Blocked::At(sq));
                    },
                }
            }
            k += 1;
        }
        proof {
            lemma_rec_at_bounds(doms@, sq, 0, None);
        }
        if sq < 64 {
            log.queries = log.queries.saturating_add(1);
            log.pattern.record_at(sq, holder);
        }
        Ok(holder)
    }

    fn locate(&self, log: &mut RecLog, s: SlotId) -> (r: Res<Option<Sq>>) {
        let d = self.r.dom[s as usize];
        proof {
            lemma_pin_of(d);
        }
        let ans = match d.is_pinned() {
            Some(sq) => Some(sq),
            None => {
                if d.is_captured() {
                    None
                } else {
                    return Err(Blocked::Locate(s));
                }
            },
        };
        log.queries = log.queries.saturating_add(1);
        log.pattern.record_locate(s, ans);
        Ok(ans)
    }
}

impl Region {
    /// The region's positions all lie on the board of `setup`, so the
    /// recording oracle over it fits `setup`.
    pub proof fn lemma_rec_fits(&self, setup: &Setup)
        requires
            self.wf(setup),
            setup.wf(),
        ensures
            fits(setup, &Rec { r: self }),
            errs_within(rec_answers(self.dom@), open_in(self.dom@)),
    {
        let a = rec_answers(self.dom@);
        assert forall|q: Sq| (#[trigger] (a.0)(q)) is Ok && (a.0)(q)->Ok_0 is Some implies (a.0)(q)->Ok_0->Some_0
            < setup.slots.len() by {
            lemma_rec_at_bounds(self.dom@, q, 0, None);
        }
        assert forall|s: SlotId| (#[trigger] (a.1)(s)) is Ok && (a.1)(s)->Ok_0 is Some implies (a.1)(s)->Ok_0->Some_0
            < setup.area_spec() by {
            if s < self.dom.len() {
                lemma_pin_of(self.dom@[s as int]);
                let t = pin_of(self.dom@[s as int])->Some_0;
                assert(bit(self.dom@[s as int].sq, t));
            }
        }
        lemma_rec_errs(self.dom@);
    }
}

// ---------------------------------------------------------------------
// Moves on regions, and partitions
// ---------------------------------------------------------------------

/// Normalized, and no domain empty.
pub open spec fn tidy(doms: Seq<Dom>) -> bool {
    normalized(doms) && !some_empty(doms)
}

/// `mv` is decided on the domains: the mover pinned on its origin, the
/// destination held by no slot, or by exactly the captured one, pinned.
pub open spec fn decided_move(doms: Seq<Dom>, mv: Move) -> bool {
    &&& move_fits(mv, doms.len() as int)
    &&& pinned_at(doms[mv.slot as int], mv.from as int)
    &&& match mv.capture {
        None => forall|k: int| 0 <= k < doms.len() ==> !#[trigger] bit(doms[k].sq, mv.to as int),
        Some(c) => {
            &&& c != mv.slot
            &&& pinned_at(doms[c as int], mv.to as int)
            &&& forall|k: int| 0 <= k < doms.len() && k != c ==> !#[trigger] bit(doms[k].sq, mv.to as int)
        },
    }
}

/// The answer of the recording oracle about a square, on normalized
/// domains: nobody holds it, or exactly the answered slot, pinned there.
proof fn lemma_rec_at_result(doms: Seq<Dom>, sq: Sq, k: int, holder: Option<SlotId>)
    requires
        0 <= k <= doms.len() <= 255,
        normalized(doms),
        holder matches Some(h) ==> h < k && pinned_at(doms[h as int], sq as int) && forall|i: int|
            0 <= i < k && i != h ==> !#[trigger] bit(doms[i].sq, sq as int),
        holder is None ==> forall|i: int| 0 <= i < k ==> !#[trigger] bit(doms[i].sq, sq as int),
    ensures
        rec_at_from(doms, sq, k, holder) matches Ok(None) ==> forall|i: int|
            0 <= i < doms.len() ==> !#[trigger] bit(doms[i].sq, sq as int),
        rec_at_from(doms, sq, k, holder) matches Ok(Some(c)) ==> c < doms.len() && pinned_at(doms[c as int], sq as int)
            && forall|i: int| 0 <= i < doms.len() && i != c ==> !#[trigger] bit(doms[i].sq, sq as int),
    decreases doms.len() - k,
{
    if k < doms.len() {
        if bit(doms[k].sq, sq as int) {
            lemma_pin_of(doms[k]);
            if pin_of(doms[k]) is Some {
                let t = pin_of(doms[k])->Some_0;
                assert(bit(doms[k].sq, sq as int) <==> sq == t);
                if let Some(h) = holder {
                    assert(!bit(doms[k].sq, sq as int));
                }
                lemma_rec_at_result(doms, sq, k + 1, Some(k as SlotId));
            }
        } else {
            lemma_rec_at_result(doms, sq, k + 1, holder);
        }
    }
}

pub proof fn lemma_rec_answers_fit(setup: &Setup, doms: Seq<Dom>)
    requires
        doms.len() <= 255,
        forall|k: int, q: int| 0 <= k < doms.len() && #[trigger] bit(doms[k].sq, q) ==> q < setup.area_spec(),
    ensures
        answers_fit(setup, rec_answers(doms)) || doms.len() != setup.slots.len(),
{
    let a = rec_answers(doms);
    if doms.len() == setup.slots.len() {
        assert forall|q: Sq| (#[trigger] (a.0)(q)) is Ok && (a.0)(q)->Ok_0 is Some implies (a.0)(q)->Ok_0->Some_0
            < setup.slots.len() by {
            lemma_rec_at_bounds(doms, q, 0, None);
        }
        assert forall|s: SlotId| (#[trigger] (a.1)(s)) is Ok && (a.1)(s)->Ok_0 is Some implies (a.1)(s)->Ok_0->Some_0
            < setup.area_spec() by {
            if s < doms.len() {
                lemma_pin_of(doms[s as int]);
                let t = pin_of(doms[s as int])->Some_0;
                assert(bit(doms[s as int].sq, t));
            }
        }
    }
}

/// The legal moves of one slot, as move generation finds them.
pub open spec fn slot_moves_spec(setup: &Setup, a: Answers, s: SlotId) -> Res<Seq<Move>> {
    match (a.1)(s) {
        Err(b) => Err(b),
        Ok(None) => Ok(Seq::empty()),
        Ok(Some(from)) => match piece_moves_spec(setup, a, s, from) {
            Err(b) => Err(b),
            Ok(ps) => legal_filter(setup, a, setup.color_spec(s as int), ps, 0),
        },
    }
}

pub proof fn lemma_slot_moves_errs(setup: &Setup, a: Answers, ok: spec_fn(Blocked) -> bool, s: SlotId)
    requires
        errs_within(a, ok),
    ensures
        slot_moves_spec(setup, a, s) matches Err(b) ==> ok(b),
{
    let _ = (a.1)(s);
    if let Ok(Some(from)) = (a.1)(s) {
        lemma_piece_moves_errs(setup, a, ok, s, from);
        if let Ok(ps) = piece_moves_spec(setup, a, s, from) {
            lemma_filter_errs(setup, a, ok, setup.color_spec(s as int), ps, 0);
        }
    }
}

/// Every move a slot has on a region is decided there.
pub proof fn lemma_slot_moves_decided(setup: &Setup, doms: Seq<Dom>, s: SlotId)
    requires
        setup.wf(),
        doms.len() == setup.slots.len(),
        forall|k: int, q: int| 0 <= k < doms.len() && #[trigger] bit(doms[k].sq, q) ==> q < setup.area_spec(),
        normalized(doms),
        s < doms.len(),
    ensures
        slot_moves_spec(setup, rec_answers(doms), s) matches Ok(ms) ==> forall|k: int|
            0 <= k < ms.len() ==> decided_move(doms, #[trigger] ms[k]),
{
    let a = rec_answers(doms);
    lemma_rec_answers_fit(setup, doms);
    assert(4 <= setup.n * setup.n <= 64) by (nonlinear_arith)
        requires
            2 <= setup.n <= 8,
    ;
    if let Ok(Some(from)) = (a.1)(s) {
        lemma_pin_of(doms[s as int]);
        let t = pin_of(doms[s as int])->Some_0;
        assert(bit(doms[s as int].sq, t));
        assert(from as int == t);
        lemma_piece_moves_from(setup, a, s, from);
        lemma_piece_moves_see(setup, a, s, from);
        if let Ok(ps) = piece_moves_spec(setup, a, s, from) {
            lemma_filter_subset(setup, a, setup.color_spec(s as int), ps, 0);
            if let Ok(ms) = legal_filter(setup, a, setup.color_spec(s as int), ps, 0) {
                assert forall|k: int| 0 <= k < ms.len() implies decided_move(doms, #[trigger] ms[k]) by {
                    let j = choose|j: int| 0 <= j < ps.len() && ms[k] == ps[j];
                    let m = ps[j];
                    assert(crate::board::move_from(setup, m, s, from));
                    assert(crate::board::sees(setup, a, m));
                    lemma_rec_at_result(doms, m.to, 0, None);
                }
            }
        }
    }
}

/// Every pseudo-legal move of `slots[i..]` on a region is decided there.
proof fn lemma_pseudo_decided(setup: &Setup, doms: Seq<Dom>, slots: Seq<SlotId>, i: int)
    requires
        setup.wf(),
        doms.len() == setup.slots.len(),
        forall|k: int, q: int| 0 <= k < doms.len() && #[trigger] bit(doms[k].sq, q) ==> q < setup.area_spec(),
        normalized(doms),
        forall|k: int| 0 <= k < slots.len() ==> (#[trigger] slots[k]) < doms.len(),
    ensures
        crate::board::pseudo_from(setup, rec_answers(doms), slots, i) matches Ok(ms) ==> forall|k: int|
            0 <= k < ms.len() ==> decided_move(doms, #[trigger] ms[k]),
    decreases slots.len() - i,
{
    let a = rec_answers(doms);
    if 0 <= i < slots.len() {
        lemma_pseudo_decided(setup, doms, slots, i + 1);
        let s = slots[i];
        lemma_rec_answers_fit(setup, doms);
        assert(4 <= setup.n * setup.n <= 64) by (nonlinear_arith)
            requires
                2 <= setup.n <= 8,
        ;
        if let Ok(Some(from)) = (a.1)(s) {
            lemma_pin_of(doms[s as int]);
            let t = pin_of(doms[s as int])->Some_0;
            assert(bit(doms[s as int].sq, t));
            assert(from as int == t);
            lemma_piece_moves_from(setup, a, s, from);
            lemma_piece_moves_see(setup, a, s, from);
            if let Ok(ps) = piece_moves_spec(setup, a, s, from) {
                if let Ok(rest) = crate::board::pseudo_from(setup, a, slots, i + 1) {
                    let all = ps + rest;
                    assert forall|k: int| 0 <= k < all.len() implies decided_move(doms, #[trigger] all[k]) by {
                        if k < ps.len() {
                            let m = ps[k];
                            assert(all[k] == m);
                            assert(crate::board::move_from(setup, m, s, from));
                            assert(crate::board::sees(setup, a, m));
                            lemma_rec_at_result(doms, m.to, 0, None);
                        } else {
                            assert(all[k] == rest[k - ps.len()]);
                        }
                    }
                }
            }
        }
    }
}

/// Every legal move of a region (as its recording oracle answers them) is
/// decided there.
pub proof fn lemma_legal_moves_decided(setup: &Setup, doms: Seq<Dom>, stm: Color)
    requires
        setup.wf(),
        doms.len() == setup.slots.len(),
        forall|k: int, q: int| 0 <= k < doms.len() && #[trigger] bit(doms[k].sq, q) ==> q < setup.area_spec(),
        normalized(doms),
    ensures
        crate::board::legal_moves_spec(setup, rec_answers(doms), stm) matches Ok(ms) ==> forall|k: int|
            0 <= k < ms.len() ==> decided_move(doms, #[trigger] ms[k]),
{
    let a = rec_answers(doms);
    let slots = crate::board::slots_of_spec(setup.slots@, stm);
    crate::board::lemma_slots_of_upto(setup.slots@, stm, setup.slots.len() as int);
    lemma_pseudo_decided(setup, doms, slots, 0);
    if let Ok(ps) = crate::board::pseudo_from(setup, a, slots, 0) {
        lemma_filter_subset(setup, a, stm, ps, 0);
        if let Ok(ms) = legal_filter(setup, a, stm, ps, 0) {
            assert forall|k: int| 0 <= k < ms.len() implies decided_move(doms, #[trigger] ms[k]) by {
                let j = choose|j: int| 0 <= j < ps.len() && ms[k] == ps[j];
                assert(decided_move(doms, ps[j]));
            }
        }
    }
}

/// A decided move stays decided on a non-empty sub-region.
pub proof fn lemma_decided_within(a: Seq<Dom>, b: Seq<Dom>, mv: Move)
    requires
        decided_move(a, mv),
        doms_within(b, a),
        !some_empty(b),
    ensures
        decided_move(b, mv),
{
    assert forall|k: int, t: int| 0 <= k < a.len() && #[trigger] pinned_at(a[k], t) implies pinned_at(b[k], t) by {
        assert(dom_within(b[k], a[k]));
        assert(!(b[k].sq == 0 && !b[k].cap));
        assert(b[k].sq != 0);
        lemma_bit_nonzero(b[k].sq);
        let z = b[k].sq.trailing_zeros() as int;
        assert(bit(a[k].sq, z));
    }
    assert(pinned_at(b[mv.slot as int], mv.from as int));
    if let Some(c) = mv.capture {
        assert(pinned_at(b[c as int], mv.to as int));
    }
    assert forall|k: int| 0 <= k < b.len() && #[trigger] bit(b[k].sq, mv.to as int) implies bit(a[k].sq, mv.to as int) by {
        assert(dom_within(b[k], a[k]));
    }
}

/// Playing a decided move keeps a position of the region inside the
/// region after the move.
pub proof fn lemma_play_member(doms: Seq<Dom>, mv: Move, p: Seq<Option<Sq>>)
    requires
        decided_move(doms, mv),
        member(doms, p),
    ensures
        member(play_doms(doms, mv), crate::board::play_spec(p, mv)),
{
    let q = crate::board::play_spec(p, mv);
    let e = play_doms(doms, mv);
    lemma_bit_single(mv.to as u64);
    assert(placed(doms[mv.slot as int], p[mv.slot as int]));
    assert forall|k: int| 0 <= k < q.len() implies #[trigger] placed(e[k], q[k]) by {
        assert(placed(doms[k], p[k]));
    }
    assert forall|i: int, j: int| 0 <= i < j < q.len() && (#[trigger] q[i]) is Some implies q[i] != #[trigger] q[j] by {
        assert(placed(doms[i], p[i]));
        assert(placed(doms[j], p[j]));
        if q[i] == Some(mv.to) {
            if p[j] is Some {
                assert(bit(doms[j].sq, p[j]->Some_0 as int));
            }
        }
        if q[j] == Some(mv.to) {
            if p[i] is Some {
                assert(bit(doms[i].sq, p[i]->Some_0 as int));
            }
        }
    }
}

/// A position of a pulled-back part lies in the region the move was
/// decided on, and its successor lies in the part.
pub proof fn lemma_pullback_member(doms: Seq<Dom>, part: Seq<Dom>, mv: Move, q: Seq<Option<Sq>>)
    requires
        decided_move(doms, mv),
        doms_within(part, play_doms(doms, mv)),
        !some_empty(part),
        member(pullback_doms(part, mv), q),
    ensures
        member(doms, q),
        member(part, crate::board::play_spec(q, mv)),
{
    let pb = pullback_doms(part, mv);
    let e = play_doms(doms, mv);
    let q2 = crate::board::play_spec(q, mv);
    lemma_bit_single(mv.from as u64);
    lemma_bit_single(mv.to as u64);
    lemma_bit_empty();
    assert forall|k: int| 0 <= k < q.len() implies #[trigger] placed(doms[k], q[k]) by {
        assert(placed(pb[k], q[k]));
        assert(dom_within(part[k], e[k]));
        if q[k] is Some {
            assert(bit(pb[k].sq, q[k]->Some_0 as int));
        }
    }
    // the mover's and the captured slot's domains in the part
    assert(dom_within(part[mv.slot as int], e[mv.slot as int]));
    assert(!(part[mv.slot as int].sq == 0 && !part[mv.slot as int].cap));
    assert(part[mv.slot as int].sq != 0);
    lemma_bit_nonzero(part[mv.slot as int].sq);
    assert(bit(part[mv.slot as int].sq, mv.to as int)) by {
        let z = part[mv.slot as int].sq.trailing_zeros() as int;
        assert(bit(e[mv.slot as int].sq, z));
    }
    if let Some(c) = mv.capture {
        assert(dom_within(part[c as int], e[c as int]));
        assert(part[c as int].cap) by {
            if !part[c as int].cap {
                if part[c as int].sq != 0 {
                    lemma_bit_nonzero(part[c as int].sq);
                    let z = part[c as int].sq.trailing_zeros() as int;
                    assert(bit(e[c as int].sq, z));
                }
            }
        }
    }
    assert forall|k: int| 0 <= k < q2.len() implies #[trigger] placed(part[k], q2[k]) by {
        assert(placed(pb[k], q[k]));
    }
    assert forall|i: int, j: int| 0 <= i < j < q2.len() && (#[trigger] q2[i]) is Some implies q2[i] != #[trigger] q2[j] by {
        assert(placed(doms[i], q[i]));
        assert(placed(doms[j], q[j]));
        if q2[i] == Some(mv.to) {
            if q[j] is Some {
                assert(bit(doms[j].sq, q[j]->Some_0 as int));
            }
        }
        if q2[j] == Some(mv.to) {
            if q[i] is Some {
                assert(bit(doms[i].sq, q[i]->Some_0 as int));
            }
        }
    }
}

/// A position of the region whose successor lies in a part lies in the
/// part pulled back.
pub proof fn lemma_pullback_covers(doms: Seq<Dom>, part: Seq<Dom>, mv: Move, p: Seq<Option<Sq>>)
    requires
        decided_move(doms, mv),
        member(doms, p),
        member(part, crate::board::play_spec(p, mv)),
    ensures
        member(pullback_doms(part, mv), p),
{
    let pb = pullback_doms(part, mv);
    let q2 = crate::board::play_spec(p, mv);
    lemma_bit_single(mv.from as u64);
    lemma_bit_single(mv.to as u64);
    assert(placed(doms[mv.slot as int], p[mv.slot as int]));
    assert forall|k: int| 0 <= k < p.len() implies #[trigger] placed(pb[k], p[k]) by {
        assert(placed(doms[k], p[k]));
        assert(placed(part[k], q2[k]));
        if p[k] is Some {
            assert(bit(doms[k].sq, p[k]->Some_0 as int));
        }
    }
}

/// Some part holds the position.
pub open spec fn in_some(parts: Seq<Seq<Dom>>, p: Seq<Option<Sq>>) -> bool {
    exists|i: int| 0 <= i < parts.len() && #[trigger] member(parts[i], p)
}

/// No position lies in two parts.
pub open spec fn disjoint(parts: Seq<Seq<Dom>>) -> bool {
    forall|i: int, j: int, p: Seq<Option<Sq>>|
        0 <= i < parts.len() && 0 <= j < parts.len() && i != j && #[trigger] member(parts[i], p) ==> !#[trigger] member(
            parts[j],
            p,
        )
}

/// The parts split the set `s` of positions: each of its positions lies in
/// exactly one part, and the parts hold nothing else.
pub open spec fn splits(parts: Seq<Seq<Dom>>, s: spec_fn(Seq<Option<Sq>>) -> bool) -> bool {
    &&& disjoint(parts)
    &&& forall|p: Seq<Option<Sq>>| #[trigger] in_some(parts, p) <==> s(p)
}

/// The positions of a region, as a set.
pub open spec fn members(doms: Seq<Dom>) -> spec_fn(Seq<Option<Sq>>) -> bool {
    |p: Seq<Option<Sq>>| member(doms, p)
}

pub open spec fn union_set(
    s: spec_fn(Seq<Option<Sq>>) -> bool,
    t: spec_fn(Seq<Option<Sq>>) -> bool,
) -> spec_fn(Seq<Option<Sq>>) -> bool {
    |p: Seq<Option<Sq>>| s(p) || t(p)
}

pub open spec fn no_set() -> spec_fn(Seq<Option<Sq>>) -> bool {
    |p: Seq<Option<Sq>>| false
}

pub proof fn lemma_in_some_concat(a: Seq<Seq<Dom>>, b: Seq<Seq<Dom>>, p: Seq<Option<Sq>>)
    ensures
        in_some(a + b, p) <==> in_some(a, p) || in_some(b, p),
{
    if in_some(a + b, p) {
        let i = choose|i: int| 0 <= i < (a + b).len() && #[trigger] member((a + b)[i], p);
        if i < a.len() {
            assert(member(a[i], p));
        } else {
            assert(member(b[i - a.len()], p));
        }
    }
    if in_some(a, p) {
        let i = choose|i: int| 0 <= i < a.len() && #[trigger] member(a[i], p);
        assert(member((a + b)[i], p));
    }
    if in_some(b, p) {
        let i = choose|i: int| 0 <= i < b.len() && #[trigger] member(b[i], p);
        assert(member((a + b)[a.len() + i], p));
    }
}

/// Splits of two disjoint sets, merged: the parts of the first, then
/// those of the second, each group itself in two runs.
pub proof fn lemma_splits_merge(
    d1: Seq<Seq<Dom>>,
    n1: Seq<Seq<Dom>>,
    d2: Seq<Seq<Dom>>,
    n2: Seq<Seq<Dom>>,
    s1: spec_fn(Seq<Option<Sq>>) -> bool,
    s2: spec_fn(Seq<Option<Sq>>) -> bool,
)
    requires
        splits(d1 + n1, s1),
        splits(d2 + n2, s2),
        forall|p: Seq<Option<Sq>>| !(#[trigger] s1(p) && s2(p)),
    ensures
        splits((d1 + d2) + (n1 + n2), union_set(s1, s2)),
{
    let all = (d1 + d2) + (n1 + n2);
    let x = d1 + n1;
    let y = d2 + n2;
    // each part of `all` is a part of x or of y
    assert forall|i: int| 0 <= i < all.len() implies (#[trigger] all[i]) == if i < d1.len() {
        x[i]
    } else if i < d1.len() + d2.len() {
        y[i - d1.len()]
    } else if i < d1.len() + d2.len() + n1.len() {
        x[i - d2.len()]
    } else {
        y[i - d1.len() - n1.len()]
    } by {}
    assert forall|p: Seq<Option<Sq>>| #[trigger] in_some(all, p) <==> union_set(s1, s2)(p) by {
        lemma_in_some_concat(d1 + d2, n1 + n2, p);
        lemma_in_some_concat(d1, d2, p);
        lemma_in_some_concat(n1, n2, p);
        lemma_in_some_concat(d1, n1, p);
        lemma_in_some_concat(d2, n2, p);
    }
    assert forall|i: int, j: int, p: Seq<Option<Sq>>|
        0 <= i < all.len() && 0 <= j < all.len() && i != j && #[trigger] member(all[i], p) implies !#[trigger] member(
            all[j],
            p,
        ) by {
        if member(all[j], p) {
            let in_x_i = i < d1.len() || (d1.len() + d2.len() <= i < d1.len() + d2.len() + n1.len());
            let in_x_j = j < d1.len() || (d1.len() + d2.len() <= j < d1.len() + d2.len() + n1.len());
            let xi = if i < d1.len() { i } else if i < d1.len() + d2.len() { i - d1.len() } else if i < d1.len() + d2.len() + n1.len() { i - d2.len() } else { i - d1.len() - n1.len() };
            let xj = if j < d1.len() { j } else if j < d1.len() + d2.len() { j - d1.len() } else if j < d1.len() + d2.len() + n1.len() { j - d2.len() } else { j - d1.len() - n1.len() };
            if in_x_i && in_x_j {
                assert(member(x[xi], p) && member(x[xj], p));
            } else if !in_x_i && !in_x_j {
                assert(member(y[xi], p) && member(y[xj], p));
            } else if in_x_i {
                assert(member(x[xi], p) && member(y[xj], p));
                assert(in_some(x, p) && in_some(y, p));
            } else {
                assert(member(y[xi], p) && member(x[xj], p));
                assert(in_some(x, p) && in_some(y, p));
            }
        }
    }
}

/// Replacing the parts that split `u` by another split of `u`.
pub proof fn lemma_splits_replace(
    done: Seq<Seq<Dom>>,
    cur: Seq<Seq<Dom>>,
    dn: Seq<Seq<Dom>>,
    nx: Seq<Seq<Dom>>,
    r: spec_fn(Seq<Option<Sq>>) -> bool,
    u: spec_fn(Seq<Option<Sq>>) -> bool,
)
    requires
        splits(done + cur, r),
        splits(cur, u),
        splits(dn + nx, u),
    ensures
        splits((done + dn) + nx, r),
{
    let done_set = |p: Seq<Option<Sq>>| in_some(done, p);
    assert(splits(done + Seq::<Seq<Dom>>::empty(), done_set)) by {
        assert(done + Seq::<Seq<Dom>>::empty() =~= done);
        assert forall|i: int, j: int, p: Seq<Option<Sq>>|
            0 <= i < done.len() && 0 <= j < done.len() && i != j && #[trigger] member(done[i], p) implies !#[trigger] member(
                done[j],
                p,
            ) by {
            assert(member((done + cur)[i], p));
            assert((done + cur)[j] == done[j]);
        }
    }
    assert forall|p: Seq<Option<Sq>>| !(#[trigger] done_set(p) && u(p)) by {
        if done_set(p) && u(p) {
            let i = choose|i: int| 0 <= i < done.len() && #[trigger] member(done[i], p);
            assert(in_some(cur, p));
            let j = choose|j: int| 0 <= j < cur.len() && #[trigger] member(cur[j], p);
            assert(member((done + cur)[i], p));
            assert(member((done + cur)[done.len() + j], p));
        }
    }
    lemma_splits_merge(done, Seq::empty(), dn, nx, done_set, u);
    assert((Seq::<Seq<Dom>>::empty() + nx) =~= nx);
    assert forall|p: Seq<Option<Sq>>| #[trigger] union_set(done_set, u)(p) == r(p) by {
        lemma_in_some_concat(done, cur, p);
    }
}

// ---------------------------------------------------------------------
// The engine
// ---------------------------------------------------------------------

#[derive(Clone, Copy, PartialEq, Eq, Structural, Hash, Debug)]
pub enum Verdict {
    Illegal,
    Win(u16),
    Loss(u16),
    Draw,
}

#[derive(Clone, Debug)]
pub struct Leaf {
    pub region: Region,
    pub verdict: Verdict,
    pub pattern: Pattern,
}

/// The memo entries, by their facts and verdicts.
spec fn entries_view(e: Seq<(Pattern, bool)>) -> Seq<(Seq<Dom>, bool)> {
    Seq::new(e.len(), |i: int| (e[i].0.dom@, e[i].1))
}

/// The entries after storing the first `n` parts: a part's pattern joins,
/// with its verdict, unless an entry with the same facts is there.
spec fn stored(ev: Seq<(Seq<Dom>, bool)>, parts: Seq<(Region, bool, Pattern)>, n: int) -> Seq<(Seq<Dom>, bool)>
    decreases n,
{
    if n <= 0 {
        ev
    } else {
        let prev = stored(ev, parts, n - 1);
        if exists|j: int| 0 <= j < prev.len() && prev[j].0 == parts[n - 1].2.dom@ {
            prev
        } else {
            prev.push((parts[n - 1].2.dom@, parts[n - 1].1))
        }
    }
}

/// Every fact of the region is a fact of the pattern, slot by slot.
spec fn covers_spec(pat: Seq<Dom>, doms: Seq<Dom>) -> bool {
    forall|k: int| 0 <= k < doms.len() && k < pat.len() ==> #[trigger] dom_within(doms[k], pat[k])
}

/// The first entry from `i` on whose pattern has the region's slots and
/// covers it.
spec fn first_cover(entries: Seq<(Pattern, bool)>, r: Region, i: int) -> Option<int>
    decreases entries.len() - i,
{
    if i < 0 || i >= entries.len() {
        None
    } else if entries[i].0.dom.len() == r.dom.len() && covers_spec(entries[i].0.dom@, r.dom@) {
        Some(i)
    } else {
        first_cover(entries, r, i + 1)
    }
}

#[derive(Clone, Copy, PartialEq, Eq, Structural, Hash, Debug)]
enum Q {
    MateIn,
    MatedIn,
}

/// The memo's key for a question, a depth and the side to move.
spec fn memo_key_spec(q: Q, d: u16, stm: Color) -> u64 {
    (((if q == Q::MateIn {
        0int
    } else {
        1int
    }) * 65536 + d) * 2 + (if stm == Color::White {
        0int
    } else {
        1int
    })) as u64
}

#[derive(Default, Debug, Clone, Copy)]
pub struct Counters {
    pub queries: u64,
    pub forks: u64,
    pub nodes: u64,
    pub memo_hits: u64,
    pub memo_entries: u64,
}

pub struct Engine {
    pub setup: Setup,
    pub counters: Counters,
    queries: u64,
    memo: HashMap<u64, Vec<(Pattern, bool)>>,
    pub use_memo: bool,
    /// Try the slots in reverse order (e.g. rook before king).
    pub reverse_slots: bool,
}

/// A bool-valued partition of a region, each part with the facts it used.
type Parts = Vec<(Region, bool, Pattern)>;

/// Domains of `setup`, normalized, none empty.
pub open spec fn fine(setup: &Setup, doms: Seq<Dom>) -> bool {
    &&& doms.len() == setup.slots.len()
    &&& forall|k: int, q: int| 0 <= k < doms.len() && #[trigger] bit(doms[k].sq, q) ==> q < setup.area_spec()
    &&& tidy(doms)
}

/// The domains of each entry of `v`.
pub open spec fn map_doms<T>(v: Seq<T>, f: spec_fn(T) -> Seq<Dom>) -> Seq<Seq<Dom>> {
    Seq::new(v.len(), |i: int| f(v[i]))
}

pub open spec fn part_doms(v: Seq<(Region, bool, Pattern)>) -> Seq<Seq<Dom>> {
    map_doms(v, |x: (Region, bool, Pattern)| x.0.dom@)
}

pub open spec fn item_doms(v: Seq<(Region, Pattern, bool)>) -> Seq<Seq<Dom>> {
    map_doms(v, |x: (Region, Pattern, bool)| x.0.dom@)
}

pub open spec fn rem_doms(v: Seq<(Region, Pattern)>) -> Seq<Seq<Dom>> {
    map_doms(v, |x: (Region, Pattern)| x.0.dom@)
}

pub proof fn lemma_map_doms_split<T>(v: Seq<T>, f: spec_fn(T) -> Seq<Dom>, d0: int, d1: int)
    requires
        0 <= d0 <= d1 <= v.len(),
    ensures
        map_doms(v.subrange(d0, v.len() as int), f) == map_doms(v.subrange(d0, d1), f) + map_doms(
            v.subrange(d1, v.len() as int),
            f,
        ),
{
    assert(map_doms(v.subrange(d0, v.len() as int), f) =~= map_doms(v.subrange(d0, d1), f) + map_doms(
        v.subrange(d1, v.len() as int),
        f,
    ));
}

pub proof fn lemma_map_doms_sub<T>(v: Seq<T>, f: spec_fn(T) -> Seq<Dom>, d0: int, d1: int)
    requires
        0 <= d0 <= d1 <= v.len(),
    ensures
        map_doms(v.subrange(d0, d1), f) == map_doms(v, f).subrange(d0, d1),
{
    assert(map_doms(v.subrange(d0, d1), f) =~= map_doms(v, f).subrange(d0, d1));
}

/// Entry `i` is a fine sub-region of `base` with `stm` to move, its
/// pattern one domain per slot.
pub open spec fn parts_ok_at(setup: &Setup, v: Seq<(Region, bool, Pattern)>, base: Seq<Dom>, stm: Color, i: int) -> bool {
    &&& fine(setup, v[i].0.dom@)
    &&& doms_within(v[i].0.dom@, base)
    &&& v[i].0.stm == stm
    &&& v[i].2.dom.len() == setup.slots.len()
}

pub open spec fn parts_ok(setup: &Setup, v: Seq<(Region, bool, Pattern)>, base: Seq<Dom>, stm: Color) -> bool {
    forall|i: int| 0 <= i < v.len() ==> #[trigger] parts_ok_at(setup, v, base, stm, i)
}

pub open spec fn items_ok_at(setup: &Setup, v: Seq<(Region, Pattern, bool)>, base: Seq<Dom>, stm: Color, i: int) -> bool {
    &&& fine(setup, v[i].0.dom@)
    &&& doms_within(v[i].0.dom@, base)
    &&& v[i].0.stm == stm
    &&& v[i].1.dom.len() == setup.slots.len()
}

pub open spec fn items_ok(setup: &Setup, v: Seq<(Region, Pattern, bool)>, base: Seq<Dom>, stm: Color) -> bool {
    forall|i: int| 0 <= i < v.len() ==> #[trigger] items_ok_at(setup, v, base, stm, i)
}

pub open spec fn rems_ok_at(setup: &Setup, v: Seq<(Region, Pattern)>, base: Seq<Dom>, stm: Color, i: int) -> bool {
    &&& fine(setup, v[i].0.dom@)
    &&& doms_within(v[i].0.dom@, base)
    &&& v[i].0.stm == stm
    &&& v[i].1.dom.len() == setup.slots.len()
}

pub open spec fn rems_ok(setup: &Setup, v: Seq<(Region, Pattern)>, base: Seq<Dom>, stm: Color) -> bool {
    forall|i: int| 0 <= i < v.len() ==> #[trigger] rems_ok_at(setup, v, base, stm, i)
}

pub proof fn lemma_within_trans(a: Seq<Dom>, b: Seq<Dom>, c: Seq<Dom>)
    requires
        doms_within(a, b),
        doms_within(b, c),
    ensures
        doms_within(a, c),
{
    assert forall|k: int| 0 <= k < a.len() implies #[trigger] dom_within(a[k], c[k]) by {
        assert(dom_within(a[k], b[k]));
        assert(dom_within(b[k], c[k]));
    }
}

/// Sub-regions of a fine region are on the board too.
pub proof fn lemma_within_fine(setup: &Setup, a: Seq<Dom>, b: Seq<Dom>)
    requires
        fine(setup, b),
        doms_within(a, b),
        tidy(a),
    ensures
        fine(setup, a),
{
    assert forall|k: int, q: int| 0 <= k < a.len() && #[trigger] bit(a[k].sq, q) implies q < setup.area_spec() by {
        assert(dom_within(a[k], b[k]));
        assert(bit(b[k].sq, q));
    }
}

/// A fork's children, as parts, split the region.
pub proof fn lemma_fork_splits(r: &Region, ch: Seq<Region>)
    requires
        forall|i: int, p: Seq<Option<Sq>>| 0 <= i < ch.len() && #[trigger] member(ch[i].dom@, p) ==> member(r.dom@, p),
        forall|p: Seq<Option<Sq>>|
            #[trigger] member(r.dom@, p) ==> exists|i: int| 0 <= i < ch.len() && member(ch[i].dom@, p),
        forall|i: int, j: int, p: Seq<Option<Sq>>|
            0 <= i < ch.len() && 0 <= j < ch.len() && i != j && #[trigger] member(ch[i].dom@, p) ==> !#[trigger] member(
                ch[j].dom@,
                p,
            ),
    ensures
        splits(map_doms(ch, |c: Region| c.dom@), members(r.dom@)),
{
    let cd = map_doms(ch, |c: Region| c.dom@);
    assert forall|p: Seq<Option<Sq>>| #[trigger] in_some(cd, p) <==> members(r.dom@)(p) by {
        if in_some(cd, p) {
            let i = choose|i: int| 0 <= i < cd.len() && #[trigger] member(cd[i], p);
            assert(member(ch[i].dom@, p));
        }
        if member(r.dom@, p) {
            let i = choose|i: int| 0 <= i < ch.len() && member(ch[i].dom@, p);
            assert(member(cd[i], p));
        }
    }
    assert forall|i: int, j: int, p: Seq<Option<Sq>>|
        0 <= i < cd.len() && 0 <= j < cd.len() && i != j && #[trigger] member(cd[i], p) implies !#[trigger] member(cd[j], p) by {
        assert(member(ch[i].dom@, p));
        if member(cd[j], p) {
            assert(member(ch[j].dom@, p));
        }
    }
}

/// The legal moves of slot `s` only.
fn slot_moves<O: Oracle>(setup: &Setup, o: &O, log: &mut O::Log, s: SlotId) -> (r: Res<Vec<Move>>)
    requires
        fits(setup, o),
        o.log_ok(old(log)),
        s < setup.slots.len(),
    ensures
        o.log_ok(final(log)),
        match slot_moves_spec(setup, o.answers(), s) {
            Ok(ms) => r matches Ok(v) && v@ == ms,
            Err(b) => r == Err::<Vec<Move>, Blocked>(b),
        },
{
    let ghost a = o.answers();
    let from = match o.locate(log, s)? {
        Some(f) => f,
        None => {
            return Ok(Vec::new());
        },
    };
    let mut pseudo: Vec<Move> = Vec::new();
    piece_moves(setup, o, log, s, from, &mut pseudo)?;
    proof {
        lemma_piece_moves_from(setup, a, s, from);
        assert(pseudo@ =~= piece_moves_spec(setup, a, s, from)->Ok_0);
    }
    let c = setup.color(s);
    let mut legal: Vec<Move> = Vec::new();
    let mut i: usize = 0;
    while i < pseudo.len()
        invariant
            0 <= i <= pseudo.len(),
            fits(setup, o),
            o.log_ok(log),
            a == o.answers(),
            c == setup.color_spec(s as int),
            s < setup.slots.len(),
            slot_moves_spec(setup, a, s) == legal_filter(setup, a, c, pseudo@, 0),
            crate::board::moves_from(setup, pseudo@, s, from),
            legal_filter(setup, a, c, pseudo@, 0) == crate::board::res_cat(legal@, legal_filter(setup, a, c, pseudo@, i as int)),
        decreases pseudo.len() - i,
    {
        let mv = pseudo[i];
        proof {
            assert(crate::board::move_from(setup, pseudo@[i as int], s, from));
            crate::board::lemma_played_fits(setup, a, mv);
        }
        let after = Played { base: o, mv };
        let chk = match in_check(setup, &after, log, c) {
            Ok(b) => b,
            Err(b) => {
                proof {
                    assert(legal_filter(setup, a, c, pseudo@, i as int) == Err::<Seq<Move>, Blocked>(b));
                }
                return Err(b);
            },
        };
        let ghost before = legal@;
        if !chk {
            legal.push(mv);
        }
        proof {
            let piece = if chk {
                Seq::<Move>::empty()
            } else {
                seq![mv]
            };
            assert(legal@ == before + piece);
            crate::board::lemma_res_cat_assoc(before, piece, legal_filter(setup, a, c, pseudo@, i + 1));
        }
        i += 1;
    }
    proof {
        crate::board::lemma_res_cat_assoc(legal@, Seq::empty(), Ok(Seq::empty()));
        assert(legal@ + Seq::<Move>::empty() =~= legal@);
    }
    Ok(legal)
}

impl Engine {
    /// The setup the engine searches.
    pub closed spec fn setup_spec(&self) -> Setup {
        self.setup
    }

    /// Whether the memo is used, and whether slots are tried in reverse.
    pub closed spec fn settings_spec(&self) -> (bool, bool) {
        (self.use_memo, self.reverse_slots)
    }

    pub fn new(setup: Setup) -> (e: Engine)
        ensures
            e.setup_spec() == setup,
            e.settings_spec() == (true, false),
    {
        Engine {
            setup,
            counters: Counters { queries: 0, forks: 0, nodes: 0, memo_hits: 0, memo_entries: 0 },
            queries: 0,
            memo: HashMap::new(),
            use_memo: true,
            reverse_slots: false,
        }
    }

    fn memo_key(q: Q, d: u16, stm: Color) -> (k: u64)
        ensures
            k == ((if q == Q::MateIn { 0int } else { 1int }) * 65536 + d) * 2 + (if stm == Color::White { 0int } else { 1int }),
    {
        let qi: u64 = match q {
            Q::MateIn => 0,
            Q::MatedIn => 1,
        };
        (qi * 65536 + d as u64) * 2 + stm.idx() as u64
    }

    /// The stored verdict of a pattern covering `r`, if any: the first
    /// entry under the question's key whose pattern has the region's slots
    /// and covers it.
    fn lookup(&mut self, q: Q, d: u16, r: &Region) -> (res: Option<(bool, Pattern)>)
        ensures
            final(self).setup == old(self).setup,
            final(self).memo@ == old(self).memo@,
            final(self).use_memo == old(self).use_memo,
            res matches Some(x) ==> x.1.dom.len() == r.dom.len(),
            match res {
                Some(x) => {
                    &&& old(self).use_memo
                    &&& old(self).memo@.contains_key(memo_key_spec(q, d, r.stm))
                    &&& first_cover(old(self).memo@[memo_key_spec(q, d, r.stm)]@, *r, 0) is Some
                    &&& x.0 == old(self).memo@[memo_key_spec(q, d, r.stm)]@[first_cover(
                        old(self).memo@[memo_key_spec(q, d, r.stm)]@,
                        *r,
                        0,
                    )->Some_0].1
                    &&& x.1.dom@ == old(self).memo@[memo_key_spec(q, d, r.stm)]@[first_cover(
                        old(self).memo@[memo_key_spec(q, d, r.stm)]@,
                        *r,
                        0,
                    )->Some_0].0.dom@
                },
                None => !old(self).use_memo || !old(self).memo@.contains_key(memo_key_spec(q, d, r.stm)) || first_cover(
                    old(self).memo@[memo_key_spec(q, d, r.stm)]@,
                    *r,
                    0,
                ) is None,
            },
    {
        broadcast use vstd::std_specs::hash::group_hash_axioms;
        if !self.use_memo {
            return None;
        }
        let key = Self::memo_key(q, d, r.stm);
        let found = match self.memo.get(&key) {
            None => None,
            Some(entries) => {
                let mut res: Option<(bool, Pattern)> = None;
                let mut i: usize = 0;
                while i < entries.len() && res.is_none()
                    invariant
                        0 <= i <= entries.len(),
                        res is None ==> first_cover(entries@, *r, 0) == first_cover(entries@, *r, i as int),
                        res matches Some(x) ==> {
                            &&& i > 0
                            &&& first_cover(entries@, *r, 0) == Some((i - 1) as int)
                            &&& x.0 == entries@[i - 1].1
                            &&& x.1.dom@ == entries@[i - 1].0.dom@
                            &&& x.1.dom.len() == r.dom.len()
                        },
                    decreases entries.len() - i,
                {
                    let (p, v) = &entries[i];
                    if p.dom.len() == r.dom.len() && p.covers(r) {
                        let dom = p.dom.clone();
                        proof {
                            assert(dom@ =~= p.dom@);
                        }
                        res = Some((*v, Pattern { dom }));
                    }
                    i += 1;
                }
                res
            },
        };
        if found.is_some() {
            self.counters.memo_hits = self.counters.memo_hits.saturating_add(1);
        }
        found
    }

    /// Two patterns with the same facts.
    fn same_facts(a: &Pattern, b: &Pattern) -> (r: bool)
        ensures
            r == (a.dom@ == b.dom@),
    {
        if a.dom.len() != b.dom.len() {
            return false;
        }
        let mut i: usize = 0;
        while i < a.dom.len()
            invariant
                0 <= i <= a.dom.len(),
                a.dom.len() == b.dom.len(),
                forall|j: int| 0 <= j < i ==> a.dom@[j] == b.dom@[j],
            decreases a.dom.len() - i,
        {
            if a.dom[i] != b.dom[i] {
                return false;
            }
            i += 1;
        }
        proof {
            assert(a.dom@ =~= b.dom@);
        }
        true
    }

    /// Remember the verdicts of `parts` under their patterns: each part's
    /// pattern, with its verdict, joins the entries under the key unless an
    /// entry with the same facts is there already.
    fn store(&mut self, q: Q, d: u16, stm: Color, parts: &Parts)
        ensures
            final(self).setup == old(self).setup,
            final(self).use_memo == old(self).use_memo,
            !old(self).use_memo ==> final(self).memo@ == old(self).memo@,
            old(self).use_memo ==> {
                let key = memo_key_spec(q, d, stm);
                &&& final(self).memo@.contains_key(key)
                &&& final(self).memo@ == old(self).memo@.insert(key, final(self).memo@[key])
                &&& entries_view(final(self).memo@[key]@) == stored(
                    entries_view(
                        if old(self).memo@.contains_key(key) {
                            old(self).memo@[key]@
                        } else {
                            Seq::empty()
                        },
                    ),
                    parts@,
                    parts.len() as int,
                )
            },
    {
        broadcast use vstd::std_specs::hash::group_hash_axioms;
        if !self.use_memo {
            return;
        }
        let key = Self::memo_key(q, d, stm);
        let ghost m0 = self.memo@;
        let mut entries = match self.memo.remove(&key) {
            Some(v) => v,
            None => Vec::new(),
        };
        let ghost ev0 = entries_view(entries@);
        proof {
            assert(ev0 == entries_view(
                if m0.contains_key(key) {
                    m0[key]@
                } else {
                    Seq::empty()
                },
            )) by {
                if !m0.contains_key(key) {
                    assert(entries_view(entries@) =~= entries_view(Seq::<(Pattern, bool)>::empty()));
                }
            }
        }
        let mut i: usize = 0;
        while i < parts.len()
            invariant
                0 <= i <= parts.len(),
                self.setup == old(self).setup,
                self.use_memo == old(self).use_memo,
                self.memo@ == m0.remove(key),
                entries_view(entries@) == stored(ev0, parts@, i as int),
            decreases parts.len() - i,
        {
            let (_, v, p) = &parts[i];
            let mut known = false;
            let mut j: usize = 0;
            while j < entries.len() && !known
                invariant
                    0 <= j <= entries.len(),
                    known == exists|t: int| 0 <= t < j && entries@[t].0.dom@ == p.dom@,
                decreases entries.len() - j,
            {
                if Self::same_facts(&entries[j].0, p) {
                    known = true;
                }
                j += 1;
            }
            let ghost prev = entries_view(entries@);
            proof {
                assert(p.dom@ == parts@[i as int].2.dom@);
                assert(known == exists|t: int| 0 <= t < prev.len() && prev[t].0 == parts@[i as int].2.dom@) by {
                    if known {
                        let t = choose|t: int| 0 <= t < j && entries@[t].0.dom@ == p.dom@;
                        assert(prev[t].0 == entries@[t].0.dom@);
                    }
                    if exists|t: int| 0 <= t < prev.len() && prev[t].0 == parts@[i as int].2.dom@ {
                        let t = choose|t: int| 0 <= t < prev.len() && prev[t].0 == parts@[i as int].2.dom@;
                        assert(entries@[t].0.dom@ == prev[t].0);
                        if !known {
                            assert(j == entries.len());
                        }
                    }
                }
            }
            if !known {
                let dom = p.dom.clone();
                proof {
                    assert(dom@ =~= p.dom@);
                }
                entries.push((Pattern { dom }, *v));
                self.counters.memo_entries = self.counters.memo_entries.saturating_add(1);
                proof {
                    assert(entries_view(entries@) =~= prev.push((parts@[i as int].2.dom@, parts@[i as int].1)));
                }
            }
            i += 1;
        }
        let ghost fin = entries@;
        self.memo.insert(key, entries);
        proof {
            assert(self.memo@.contains_key(key));
            assert(self.memo@[key]@ == fin);
            assert(self.memo@ =~= m0.insert(key, self.memo@[key]));
        }
    }

    /// Slot `s`'s legal moves on `r` with the facts they used, or the
    /// children of `r` forked on the query that blocked.
    fn consult_moves(&mut self, r: &Region, s: SlotId) -> (res: Result<(Vec<Move>, Pattern), Vec<Region>>)
        requires
            old(self).setup.wf(),
            fine(&old(self).setup, r.dom@),
            s < old(self).setup.slots.len(),
        ensures
            final(self).setup == old(self).setup,
            match res {
                Ok(x) => {
                    &&& x.1.dom.len() == r.dom.len()
                    &&& forall|k: int| 0 <= k < x.0.len() ==> decided_move(r.dom@, #[trigger] x.0@[k])
                    &&& forall|k: int| 0 <= k < x.0.len() ==> (#[trigger] x.0@[k]).slot == s
                    &&& forall|k: int| 0 <= k < x.0.len() ==> (#[trigger] x.0@[k]).to < old(self).setup.area_spec()
                },
                Err(ch) => {
                    &&& forall|i: int|
                        0 <= i < ch.len() ==> fine(&old(self).setup, (#[trigger] ch@[i]).dom@) && ch@[i].stm == r.stm
                            && doms_within(ch@[i].dom@, r.dom@) && region_facts(ch@[i].dom@) < region_facts(r.dom@)
                    &&& splits(map_doms(ch@, |c: Region| c.dom@), members(r.dom@))
                },
            },
    {
        let rec = Rec { r };
        let mut log = RecLog { pattern: Pattern::full(&self.setup), queries: 0 };
        proof {
            r.lemma_rec_fits(&self.setup);
            lemma_slot_moves_errs(&self.setup, rec_answers(r.dom@), open_in(r.dom@), s);
            lemma_slot_moves_decided(&self.setup, r.dom@, s);
        }
        let res = slot_moves(&self.setup, &rec, &mut log, s);
        self.queries = self.queries.saturating_add(log.queries);
        match res {
            Ok(ms) => {
                proof {
                    let a = rec_answers(r.dom@);
                    if let Ok(Some(from)) = (a.1)(s) {
                        lemma_piece_moves_from(&self.setup, a, s, from);
                        if let Ok(ps) = piece_moves_spec(&self.setup, a, s, from) {
                            lemma_filter_subset(&self.setup, a, self.setup.color_spec(s as int), ps, 0);
                            assert forall|k: int| 0 <= k < ms.len() implies (#[trigger] ms@[k]).slot == s && ms@[k].to
                                < self.setup.area_spec() by {
                                let j = choose|j: int| 0 <= j < ps.len() && ms@[k] == ps[j];
                                assert(crate::board::move_from(&self.setup, ps[j], s, from));
                            }
                        }
                    }
                }
                Ok((ms, log.pattern))
            },
            Err(q) => {
                self.counters.forks = self.counters.forks.saturating_add(1);
                let ch = r.fork(q);
                proof {
                    lemma_fork_splits(r, ch@);
                    assert forall|i: int| 0 <= i < ch.len() implies fine(&self.setup, (#[trigger] ch@[i]).dom@) by {
                        lemma_within_fine(&self.setup, ch@[i].dom@, r.dom@);
                    }
                }
                Err(ch)
            },
        }
    }

    /// Whether `c` is in check on `r`, with the facts used, or the
    /// children of `r` forked on the query that blocked.
    fn consult_check(&mut self, r: &Region, c: Color) -> (res: Result<(bool, Pattern), Vec<Region>>)
        requires
            old(self).setup.wf(),
            fine(&old(self).setup, r.dom@),
        ensures
            final(self).setup == old(self).setup,
            match res {
                Ok(x) => x.1.dom.len() == r.dom.len() && forall|p: Seq<Option<Sq>>|
                    #[trigger] member(r.dom@, p) ==> in_check_spec(&old(self).setup, position_answers(p), c) == Ok::<bool, Blocked>(x.0),
                Err(ch) => {
                    &&& forall|i: int|
                        0 <= i < ch.len() ==> fine(&old(self).setup, (#[trigger] ch@[i]).dom@) && ch@[i].stm == r.stm
                            && doms_within(ch@[i].dom@, r.dom@) && region_facts(ch@[i].dom@) < region_facts(r.dom@)
                    &&& splits(map_doms(ch@, |c: Region| c.dom@), members(r.dom@))
                },
            },
    {
        let rec = Rec { r };
        let mut log = RecLog { pattern: Pattern::full(&self.setup), queries: 0 };
        proof {
            r.lemma_rec_fits(&self.setup);
            crate::board::lemma_in_check_errs(&self.setup, rec_answers(r.dom@), open_in(r.dom@), c);
        }
        let res = in_check(&self.setup, &rec, &mut log, c);
        self.queries = self.queries.saturating_add(log.queries);
        match res {
            Ok(b) => {
                proof {
                    assert forall|p: Seq<Option<Sq>>| #[trigger] member(r.dom@, p) implies in_check_spec(&self.setup, position_answers(p), c)
                        == Ok::<bool, Blocked>(b) by {
                        lemma_rec_agrees(r.dom@, p);
                        crate::board::lemma_in_check_extend(&self.setup, rec_answers(r.dom@), position_answers(p), c);
                    }
                }
                Ok((b, log.pattern))
            },
            Err(q) => {
                self.counters.forks = self.counters.forks.saturating_add(1);
                let ch = r.fork(q);
                proof {
                    lemma_fork_splits(r, ch@);
                    assert forall|i: int| 0 <= i < ch.len() implies fine(&self.setup, (#[trigger] ch@[i]).dom@) by {
                        lemma_within_fine(&self.setup, ch@[i].dom@, r.dom@);
                    }
                }
                Err(ch)
            },
        }
    }

    /// Facts sufficient for `mv` to be a legal move: the mover's location,
    /// the squares it passes over and lands on, and the safety of the own
    /// king afterwards. A region where the move was generated decides every
    /// one of these queries; should one be undecided, the facts gathered so
    /// far are returned.
    fn move_facts(&mut self, r: &Region, mv: Move) -> (p: Pattern)
        requires
            old(self).setup.wf(),
            fine(&old(self).setup, r.dom@),
            decided_move(r.dom@, mv),
            mv.to < old(self).setup.area_spec(),
        ensures
            final(self).setup == old(self).setup,
            p.dom.len() == r.dom.len(),
    {
        let setup = &self.setup;
        let rec = Rec { r };
        let mut log = RecLog { pattern: Pattern::full(setup), queries: 0 };
        proof {
            r.lemma_rec_fits(setup);
            assert(4 <= setup.n * setup.n <= 64) by (nonlinear_arith)
                requires
                    2 <= setup.n <= 8,
            ;
            assert(bit(r.dom@[mv.slot as int].sq, mv.from as int));
        }
        let facts_ok = self.gather_move_facts(&rec, &mut log, mv);
        let _ = facts_ok;
        self.queries = self.queries.saturating_add(log.queries);
        log.pattern
    }

    /// The squares a slide of `mv` passes over, from `from` towards `to`,
    /// asked in order; the first undecided one is the result.
    fn walk_facts(&self, rec: &Rec, log: &mut RecLog, from: Sq, df: i32, dr: i32, to: Sq) -> (r: Res<()>)
        requires
            self.setup.wf(),
            fits(&self.setup, rec),
            rec.log_ok(old(log)),
            -1 <= df <= 1,
            -1 <= dr <= 1,
        ensures
            rec.log_ok(final(log)),
            r == walk_path(&self.setup, rec.answers(), from as int, df as int, dr as int, to, 0),
    {
        let setup = &self.setup;
        let mut cur = from;
        let mut steps: u8 = 0;
        while steps < setup.n
            invariant
                setup == &self.setup,
                setup.wf(),
                fits(setup, rec),
                rec.log_ok(log),
                -1 <= df <= 1,
                -1 <= dr <= 1,
                0 <= steps <= setup.n,
                walk_path(setup, rec.answers(), from as int, df as int, dr as int, to, 0) == walk_path(
                    setup,
                    rec.answers(),
                    cur as int,
                    df as int,
                    dr as int,
                    to,
                    steps as int,
                ),
            decreases setup.n - steps,
        {
            let ghost w = walk_path(setup, rec.answers(), cur as int, df as int, dr as int, to, steps as int);
            let st = setup.step(cur, df, dr);
            proof {
                assert(w == match step_spec(setup.n, cur as int, df as int, dr as int) {
                    None => Ok(()),
                    Some(next) => if next == to {
                        Ok(())
                    } else {
                        match (rec.answers().0)(next) {
                            Err(b) => Err(b),
                            Ok(_) => walk_path(setup, rec.answers(), next as int, df as int, dr as int, to, steps + 1),
                        }
                    },
                });
            }
            match st {
                None => {
                    return Ok(());
                },
                Some(next) => {
                    if next == to {
                        return Ok(());
                    }
                    match rec.at(log, next) {
                        Err(b) => {
                            return Err(b);
                        },
                        Ok(_) => {},
                    }
                    cur = next;
                },
            }
            steps += 1;
        }
        Ok(())
    }

    /// The queries of [`Engine::move_facts`], answered into `log`.
    fn gather_move_facts(&self, rec: &Rec, log: &mut RecLog, mv: Move) -> (r: Res<()>)
        requires
            self.setup.wf(),
            fits(&self.setup, rec),
            rec.log_ok(old(log)),
            mv.slot < self.setup.slots.len(),
            mv.from < self.setup.area_spec(),
            mv.to < self.setup.area_spec(),
            mv.capture matches Some(c) ==> c < self.setup.slots.len(),
        ensures
            rec.log_ok(final(log)),
            r == facts_res(&self.setup, rec.answers(), mv),
    {
        let setup = &self.setup;
        rec.locate(log, mv.slot)?;
        let (f0, r0) = setup.file_rank(mv.from);
        let (f1, r1) = setup.file_rank(mv.to);
        let df: i32 = if f1 > f0 {
            1
        } else if f1 < f0 {
            -1
        } else {
            0
        };
        let dr: i32 = if r1 > r0 {
            1
        } else if r1 < r0 {
            -1
        } else {
            0
        };
        let k = setup.kind(mv.slot);
        let slides = !(k == Kind::King || k == Kind::Knight);
        if slides {
            self.walk_facts(rec, log, mv.from, df, dr, mv.to)?;
        }
        rec.at(log, mv.to)?;
        proof {
            crate::board::lemma_played_fits(setup, rec.answers(), mv);
        }
        let after = Played { base: rec, mv };
        in_check(setup, &after, log, setup.color(mv.slot))?;
        Ok(())
    }
}

/// The squares passed over from `cur` along `(df, dr)` until `to` or the
/// edge, at most the board's width of steps; the first one the answers
/// leave open is the result.
pub open spec fn walk_path(setup: &Setup, a: Answers, cur: int, df: int, dr: int, to: Sq, steps: int) -> Res<()>
    decreases setup.n - steps,
{
    if steps >= setup.n {
        Ok(())
    } else {
        match step_spec(setup.n, cur, df, dr) {
            None => Ok(()),
            Some(next) => if next == to {
                Ok(())
            } else {
                match (a.0)(next) {
                    Err(b) => Err(b),
                    Ok(_) => walk_path(setup, a, next as int, df, dr, to, steps + 1),
                }
            },
        }
    }
}

/// The direction, -1, 0 or 1, from `x` to `y`.
pub open spec fn toward(x: int, y: int) -> int {
    if y > x {
        1
    } else if y < x {
        -1
    } else {
        0
    }
}

/// Whether the answers decide the facts of `mv`: where the mover is, the
/// squares a slide passes over, the target, and whether the mover's king
/// is attacked afterwards; the first one left open otherwise.
pub open spec fn facts_res(setup: &Setup, a: Answers, mv: Move) -> Res<()> {
    let n = setup.n;
    let k = setup.kind_spec(mv.slot as int);
    let path = if !(k == Kind::King || k == Kind::Knight) {
        walk_path(
            setup,
            a,
            mv.from as int,
            toward(file_of(n, mv.from as int), file_of(n, mv.to as int)),
            toward(rank_of(n, mv.from as int), rank_of(n, mv.to as int)),
            mv.to,
            0,
        )
    } else {
        Ok(())
    };
    match (a.1)(mv.slot) {
        Err(b) => Err(b),
        Ok(_) => match path {
            Err(b) => Err(b),
            Ok(_) => match (a.0)(mv.to) {
                Err(b) => Err(b),
                Ok(_) => match in_check_spec(setup, played(a, mv), setup.color_spec(mv.slot as int)) {
                    Err(b) => Err(b),
                    Ok(_) => Ok(()),
                },
            },
        },
    }
}

// ---------------------------------------------------------------------
// Splits kept in three collections
// ---------------------------------------------------------------------

/// The positions of `s` lie in exactly one part of the three collections
/// together, and the parts hold nothing else.
pub open spec fn split3(a: Seq<Seq<Dom>>, b: Seq<Seq<Dom>>, c: Seq<Seq<Dom>>, s: spec_fn(Seq<Option<Sq>>) -> bool) -> bool {
    &&& disjoint(a)
    &&& disjoint(b)
    &&& disjoint(c)
    &&& forall|p: Seq<Option<Sq>>|
        #![trigger in_some(a, p)]
        #![trigger in_some(b, p)]
        !(in_some(a, p) && in_some(b, p))
    &&& forall|p: Seq<Option<Sq>>|
        #![trigger in_some(a, p)]
        #![trigger in_some(c, p)]
        !(in_some(a, p) && in_some(c, p))
    &&& forall|p: Seq<Option<Sq>>|
        #![trigger in_some(b, p)]
        #![trigger in_some(c, p)]
        !(in_some(b, p) && in_some(c, p))
    &&& forall|p: Seq<Option<Sq>>| #[trigger] s(p) <==> in_some(a, p) || in_some(b, p) || in_some(c, p)
}

pub proof fn lemma_disjoint_concat(a: Seq<Seq<Dom>>, b: Seq<Seq<Dom>>)
    requires
        disjoint(a),
        disjoint(b),
        forall|p: Seq<Option<Sq>>| !(#[trigger] in_some(a, p) && in_some(b, p)),
    ensures
        disjoint(a + b),
        forall|p: Seq<Option<Sq>>| #[trigger] in_some(a + b, p) == (in_some(a, p) || in_some(b, p)),
{
    assert forall|p: Seq<Option<Sq>>| #[trigger] in_some(a + b, p) == (in_some(a, p) || in_some(b, p)) by {
        lemma_in_some_concat(a, b, p);
    }
    let ab = a + b;
    assert forall|i: int, j: int, p: Seq<Option<Sq>>|
        0 <= i < ab.len() && 0 <= j < ab.len() && i != j && #[trigger] member(ab[i], p) implies !#[trigger] member(ab[j], p) by {
        if member(ab[j], p) {
            if i < a.len() && j < a.len() {
                assert(member(a[i], p) && member(a[j], p));
            } else if i >= a.len() && j >= a.len() {
                assert(member(b[i - a.len()], p) && member(b[j - a.len()], p));
            } else if i < a.len() {
                assert(member(a[i], p) && member(b[j - a.len()], p));
                assert(in_some(a, p) && in_some(b, p));
            } else {
                assert(member(b[i - a.len()], p) && member(a[j], p));
                assert(in_some(a, p) && in_some(b, p));
            }
        }
    }
}

pub proof fn lemma_disjoint_parts(a: Seq<Seq<Dom>>, b: Seq<Seq<Dom>>)
    requires
        disjoint(a + b),
    ensures
        disjoint(a),
        disjoint(b),
        forall|p: Seq<Option<Sq>>| !(#[trigger] in_some(a, p) && in_some(b, p)),
        forall|p: Seq<Option<Sq>>| #[trigger] in_some(a + b, p) == (in_some(a, p) || in_some(b, p)),
{
    let ab = a + b;
    assert forall|p: Seq<Option<Sq>>| #[trigger] in_some(a + b, p) == (in_some(a, p) || in_some(b, p)) by {
        lemma_in_some_concat(a, b, p);
    }
    assert forall|i: int, j: int, p: Seq<Option<Sq>>|
        0 <= i < a.len() && 0 <= j < a.len() && i != j && #[trigger] member(a[i], p) implies !#[trigger] member(a[j], p) by {
        assert(ab[i] == a[i] && ab[j] == a[j]);
    }
    assert forall|i: int, j: int, p: Seq<Option<Sq>>|
        0 <= i < b.len() && 0 <= j < b.len() && i != j && #[trigger] member(b[i], p) implies !#[trigger] member(b[j], p) by {
        assert(ab[a.len() + i] == b[i] && ab[a.len() + j] == b[j]);
    }
    assert forall|p: Seq<Option<Sq>>| !(#[trigger] in_some(a, p) && in_some(b, p)) by {
        if in_some(a, p) && in_some(b, p) {
            let i = choose|i: int| 0 <= i < a.len() && #[trigger] member(a[i], p);
            let j = choose|j: int| 0 <= j < b.len() && #[trigger] member(b[j], p);
            assert(ab[i] == a[i] && ab[a.len() + j] == b[j]);
        }
    }
}

/// A split of `s` into two runs, as three collections.
pub proof fn lemma_split3_of_splits(a: Seq<Seq<Dom>>, b: Seq<Seq<Dom>>, s: spec_fn(Seq<Option<Sq>>) -> bool)
    requires
        splits(a + b, s),
    ensures
        split3(a, b, Seq::empty(), s),
{
    lemma_disjoint_parts(a, b);
    let e = Seq::<Seq<Dom>>::empty();
    assert forall|p: Seq<Option<Sq>>| !#[trigger] in_some(e, p) by {}
    assert forall|p: Seq<Option<Sq>>| #[trigger] s(p) <==> in_some(a, p) || in_some(b, p) || in_some(e, p) by {
        assert(in_some(a + b, p) == (in_some(a, p) || in_some(b, p)));
    }
}

/// Three collections that split `s`, with the third empty, as a split.
pub proof fn lemma_splits_of_split3(a: Seq<Seq<Dom>>, b: Seq<Seq<Dom>>, c: Seq<Seq<Dom>>, s: spec_fn(Seq<Option<Sq>>) -> bool)
    requires
        split3(a, b, c, s),
        c.len() == 0,
    ensures
        splits(a + b, s),
{
    assert forall|p: Seq<Option<Sq>>| !#[trigger] in_some(c, p) by {}
    lemma_disjoint_concat(a, b);
}

/// Replace the last part `x` of the third collection by a split of it,
/// appended to the first two.
pub proof fn lemma_split3_take_last(
    a: Seq<Seq<Dom>>,
    b: Seq<Seq<Dom>>,
    c: Seq<Seq<Dom>>,
    dd: Seq<Seq<Dom>>,
    nn: Seq<Seq<Dom>>,
    s: spec_fn(Seq<Option<Sq>>) -> bool,
)
    requires
        split3(a, b, c, s),
        c.len() > 0,
        splits(dd + nn, members(c.last())),
    ensures
        split3(a + dd, b + nn, c.drop_last(), s),
{
    let x = c.last();
    let rest = c.drop_last();
    assert(c =~= rest + seq![x]);
    lemma_disjoint_parts(rest, seq![x]);
    lemma_disjoint_parts(dd, nn);
    assert forall|p: Seq<Option<Sq>>| #[trigger] in_some(seq![x], p) == member(x, p) by {
        if member(x, p) {
            assert(member(seq![x][0], p));
        }
    }
    assert forall|p: Seq<Option<Sq>>| !(#[trigger] in_some(a, p) && in_some(dd, p)) by {
        if in_some(dd, p) {
            assert(in_some(dd + nn, p));
            assert(member(c[c.len() - 1], p));
            assert(in_some(c, p));
        }
    }
    assert forall|p: Seq<Option<Sq>>| !(#[trigger] in_some(b, p) && in_some(nn, p)) by {
        if in_some(nn, p) && in_some(b, p) {
            assert(in_some(dd + nn, p));
            assert(member(c[c.len() - 1], p));
            assert(in_some(c, p));
        }
    }
    lemma_disjoint_concat(a, dd);
    lemma_disjoint_concat(b, nn);
    assert forall|p: Seq<Option<Sq>>|
        #![trigger in_some(a + dd, p)]
        #![trigger in_some(b + nn, p)]
        #![trigger in_some(rest, p)]
        !(in_some(a + dd, p) && in_some(b + nn, p)) && !(in_some(a + dd, p) && in_some(rest, p)) && !(
        in_some(b + nn, p) && in_some(rest, p)) by {
        if in_some(dd, p) || in_some(nn, p) {
            assert(in_some(dd + nn, p));
            assert(member(x, p));
            assert(member(c[c.len() - 1], p));
            assert(in_some(c, p));
        }
    }
    assert forall|p: Seq<Option<Sq>>| #[trigger] s(p) <==> in_some(a + dd, p) || in_some(b + nn, p) || in_some(rest, p) by {
        assert(in_some(dd + nn, p) == member(x, p));
    }
}

/// Replace the first part `x` of the third collection by a split of it,
/// appended to the first two.
pub proof fn lemma_split3_take_first(
    a: Seq<Seq<Dom>>,
    b: Seq<Seq<Dom>>,
    c: Seq<Seq<Dom>>,
    dd: Seq<Seq<Dom>>,
    nn: Seq<Seq<Dom>>,
    s: spec_fn(Seq<Option<Sq>>) -> bool,
)
    requires
        split3(a, b, c, s),
        c.len() > 0,
        splits(dd + nn, members(c[0])),
    ensures
        split3(a + dd, b + nn, c.drop_first(), s),
{
    let x = c[0];
    let rest = c.drop_first();
    assert(c =~= seq![x] + rest);
    lemma_disjoint_parts(seq![x], rest);
    lemma_disjoint_parts(dd, nn);
    assert forall|p: Seq<Option<Sq>>| #[trigger] in_some(seq![x], p) == member(x, p) by {
        if member(x, p) {
            assert(member(seq![x][0], p));
        }
    }
    assert forall|p: Seq<Option<Sq>>| !(#[trigger] in_some(a, p) && in_some(dd, p)) by {
        if in_some(dd, p) {
            assert(in_some(dd + nn, p));
            assert(member(c[0], p));
            assert(in_some(c, p));
        }
    }
    assert forall|p: Seq<Option<Sq>>| !(#[trigger] in_some(b, p) && in_some(nn, p)) by {
        if in_some(nn, p) && in_some(b, p) {
            assert(in_some(dd + nn, p));
            assert(member(c[0], p));
            assert(in_some(c, p));
        }
    }
    lemma_disjoint_concat(a, dd);
    lemma_disjoint_concat(b, nn);
    assert forall|p: Seq<Option<Sq>>|
        #![trigger in_some(a + dd, p)]
        #![trigger in_some(b + nn, p)]
        #![trigger in_some(rest, p)]
        !(in_some(a + dd, p) && in_some(b + nn, p)) && !(in_some(a + dd, p) && in_some(rest, p)) && !(
        in_some(b + nn, p) && in_some(rest, p)) by {
        if in_some(dd, p) || in_some(nn, p) {
            assert(in_some(dd + nn, p));
            assert(member(x, p));
            assert(member(c[0], p));
            assert(in_some(c, p));
        }
    }
    assert forall|p: Seq<Option<Sq>>| #[trigger] s(p) <==> in_some(a + dd, p) || in_some(b + nn, p) || in_some(rest, p) by {
        assert(in_some(dd + nn, p) == member(x, p));
    }
}

/// One region, as a split of its own positions.
pub proof fn lemma_splits_single(d: Seq<Dom>)
    ensures
        splits(seq![d], members(d)),
{
    assert forall|p: Seq<Option<Sq>>| #[trigger] in_some(seq![d], p) <==> members(d)(p) by {
        if member(d, p) {
            assert(member(seq![d][0], p));
        }
    }
}

/// Nothing splits an empty set.
pub proof fn lemma_splits_none(d: Seq<Dom>)
    requires
        forall|p: Seq<Option<Sq>>| !#[trigger] member(d, p),
    ensures
        splits(Seq::<Seq<Dom>>::empty(), members(d)),
{
}

/// A pulled-back part lies inside the region the move was decided on.
pub proof fn lemma_pullback_within(doms: Seq<Dom>, part: Seq<Dom>, mv: Move)
    requires
        decided_move(doms, mv),
        doms_within(part, play_doms(doms, mv)),
    ensures
        doms_within(pullback_doms(part, mv), doms),
{
    let pb = pullback_doms(part, mv);
    let e = play_doms(doms, mv);
    lemma_bit_single(mv.from as u64);
    lemma_bit_single(mv.to as u64);
    assert forall|k: int| 0 <= k < pb.len() implies #[trigger] dom_within(pb[k], doms[k]) by {
        assert(dom_within(part[k], e[k]));
        if k == mv.slot {
            assert(bit(doms[k].sq, mv.from as int));
        } else if mv.capture is Some && k == mv.capture->Some_0 {
            assert(bit(doms[k].sq, mv.to as int));
        }
    }
}

proof fn lemma_in_some_push(a: Seq<Seq<Dom>>, x: Seq<Dom>, p: Seq<Option<Sq>>)
    ensures
        in_some(a.push(x), p) == (in_some(a, p) || member(x, p)),
{
    assert(a.push(x) =~= a + seq![x]);
    lemma_in_some_concat(a, seq![x], p);
    if member(x, p) {
        assert(member(seq![x][0], p));
    }
}

proof fn lemma_disjoint_push(a: Seq<Seq<Dom>>, x: Seq<Dom>)
    requires
        disjoint(a),
        forall|p: Seq<Option<Sq>>| !(#[trigger] in_some(a, p) && member(x, p)),
    ensures
        disjoint(a.push(x)),
{
    let ax = a.push(x);
    assert forall|i: int, j: int, p: Seq<Option<Sq>>|
        0 <= i < ax.len() && 0 <= j < ax.len() && i != j && #[trigger] member(ax[i], p) implies !#[trigger] member(ax[j], p) by {
        if member(ax[j], p) {
            if i < a.len() && j < a.len() {
                assert(member(a[i], p) && member(a[j], p));
            } else if i < a.len() {
                assert(member(a[i], p));
                assert(in_some(a, p));
            } else {
                assert(member(a[j], p));
                assert(in_some(a, p));
            }
        }
    }
}

/// A region disjoint from `s`, added to the first collection.
pub proof fn lemma_split3_push_a(
    a: Seq<Seq<Dom>>,
    b: Seq<Seq<Dom>>,
    c: Seq<Seq<Dom>>,
    x: Seq<Dom>,
    s: spec_fn(Seq<Option<Sq>>) -> bool,
)
    requires
        split3(a, b, c, s),
        forall|p: Seq<Option<Sq>>| !(#[trigger] s(p) && member(x, p)),
    ensures
        split3(a.push(x), b, c, union_set(s, members(x))),
{
    assert forall|p: Seq<Option<Sq>>| !(#[trigger] in_some(a, p) && member(x, p)) by {
        if in_some(a, p) {
            assert(s(p));
        }
    }
    lemma_disjoint_push(a, x);
    assert forall|p: Seq<Option<Sq>>| #[trigger] in_some(a.push(x), p) == (in_some(a, p) || member(x, p)) by {
        lemma_in_some_push(a, x, p);
    }
    assert forall|p: Seq<Option<Sq>>|
        #![trigger in_some(a.push(x), p)]
        #![trigger in_some(b, p)]
        !(in_some(a.push(x), p) && in_some(b, p)) by {
        if member(x, p) && in_some(b, p) {
            assert(s(p));
        }
    }
    assert forall|p: Seq<Option<Sq>>|
        #![trigger in_some(a.push(x), p)]
        #![trigger in_some(c, p)]
        !(in_some(a.push(x), p) && in_some(c, p)) by {
        if member(x, p) && in_some(c, p) {
            assert(s(p));
        }
    }
}

/// A region disjoint from `s`, added to the second collection.
pub proof fn lemma_split3_push_b(
    a: Seq<Seq<Dom>>,
    b: Seq<Seq<Dom>>,
    c: Seq<Seq<Dom>>,
    x: Seq<Dom>,
    s: spec_fn(Seq<Option<Sq>>) -> bool,
)
    requires
        split3(a, b, c, s),
        forall|p: Seq<Option<Sq>>| !(#[trigger] s(p) && member(x, p)),
    ensures
        split3(a, b.push(x), c, union_set(s, members(x))),
{
    assert forall|p: Seq<Option<Sq>>| !(#[trigger] in_some(b, p) && member(x, p)) by {
        if in_some(b, p) {
            assert(s(p));
        }
    }
    lemma_disjoint_push(b, x);
    assert forall|p: Seq<Option<Sq>>| #[trigger] in_some(b.push(x), p) == (in_some(b, p) || member(x, p)) by {
        lemma_in_some_push(b, x, p);
    }
    assert forall|p: Seq<Option<Sq>>|
        #![trigger in_some(a, p)]
        #![trigger in_some(b.push(x), p)]
        !(in_some(a, p) && in_some(b.push(x), p)) by {
        if member(x, p) && in_some(a, p) {
            assert(s(p));
        }
    }
    assert forall|p: Seq<Option<Sq>>|
        #![trigger in_some(b.push(x), p)]
        #![trigger in_some(c, p)]
        !(in_some(b.push(x), p) && in_some(c, p)) by {
        if member(x, p) && in_some(c, p) {
            assert(s(p));
        }
    }
}

/// The same split, of a set given another way.
pub proof fn lemma_split3_equiv(
    a: Seq<Seq<Dom>>,
    b: Seq<Seq<Dom>>,
    c: Seq<Seq<Dom>>,
    s1: spec_fn(Seq<Option<Sq>>) -> bool,
    s2: spec_fn(Seq<Option<Sq>>) -> bool,
)
    requires
        split3(a, b, c, s1),
        forall|p: Seq<Option<Sq>>| #[trigger] s1(p) == s2(p),
    ensures
        split3(a, b, c, s2),
{
    assert forall|p: Seq<Option<Sq>>| #[trigger] s2(p) <==> in_some(a, p) || in_some(b, p) || in_some(c, p) by {
        assert(s1(p) == s2(p));
    }
}

/// The positions of `sub` whose successor after `mv` lies in one of the
/// first `i` parts.
pub open spec fn reach_set(sub: Seq<Dom>, parts: Seq<Seq<Dom>>, mv: Move, i: int) -> spec_fn(Seq<Option<Sq>>) -> bool {
    |p: Seq<Option<Sq>>|
        member(sub, p) && exists|j: int| 0 <= j < i && #[trigger] member(parts[j], crate::board::play_spec(p, mv))
}

pub proof fn lemma_map_doms_push<T>(v: Seq<T>, f: spec_fn(T) -> Seq<Dom>, x: T)
    ensures
        map_doms(v.push(x), f) == map_doms(v, f).push(f(x)),
{
    assert(map_doms(v.push(x), f) =~= map_doms(v, f).push(f(x)));
}

pub proof fn lemma_within_refl(a: Seq<Dom>)
    ensures
        doms_within(a, a),
{
    assert forall|k: int| 0 <= k < a.len() implies #[trigger] dom_within(a[k], a[k]) by {}
}

/// Appending to a vector keeps its earlier entries, and the entries since
/// `d0` grow by the new one.
pub proof fn lemma_suffix_push<T>(v: Seq<T>, x: T, d0: int)
    requires
        0 <= d0 <= v.len(),
    ensures
        v.push(x).subrange(0, d0) == v.subrange(0, d0),
        v.push(x).subrange(d0, v.len() + 1int) == v.subrange(d0, v.len() as int).push(x),
{
    assert(v.push(x).subrange(0, d0) =~= v.subrange(0, d0));
    assert(v.push(x).subrange(d0, v.len() + 1int) =~= v.subrange(d0, v.len() as int).push(x));
}

/// Entries appended to a vector that kept its first `d1` entries.
pub proof fn lemma_suffix_grow<T>(old_v: Seq<T>, v: Seq<T>, d0: int, d1: int)
    requires
        0 <= d0 <= d1 <= v.len(),
        d1 == old_v.len(),
        v.subrange(0, d1) == old_v,
    ensures
        v.subrange(0, d0) == old_v.subrange(0, d0),
        v.subrange(d0, v.len() as int) == old_v.subrange(d0, d1) + v.subrange(d1, v.len() as int),
{
    assert(v.subrange(0, d0) =~= v.subrange(0, d1).subrange(0, d0));
    assert(v.subrange(d0, v.len() as int) =~= v.subrange(0, d1).subrange(d0, d1) + v.subrange(d1, v.len() as int));
}

impl Engine {
    fn other(q: Q) -> (r: Q)
        ensures
            r != q,
    {
        match q {
            Q::MateIn => Q::MatedIn,
            Q::MatedIn => Q::MateIn,
        }
    }

    fn mate_in(&mut self, r: Region, d: u16) -> (parts: Parts)
        requires
            old(self).setup.wf(),
            fine(&old(self).setup, r.dom@),
        ensures
            final(self).setup == old(self).setup,
            parts_ok(&old(self).setup, parts@, r.dom@, r.stm),
            splits(part_doms(parts@), members(r.dom@)),
    {
        self.search(r, d, Q::MateIn)
    }

    fn mated_in(&mut self, r: Region, d: u16) -> (parts: Parts)
        requires
            old(self).setup.wf(),
            fine(&old(self).setup, r.dom@),
        ensures
            final(self).setup == old(self).setup,
            parts_ok(&old(self).setup, parts@, r.dom@, r.stm),
            splits(part_doms(parts@), members(r.dom@)),
    {
        self.search(r, d, Q::MatedIn)
    }

    /// `MateIn`: can the side to move force mate within `d` plies?
    /// `MatedIn`: is the side to move mated within `d` plies (mated now
    /// counts)? The parts split the region, each with its answer and the
    /// facts it used.
    ///
    /// Both are one AND/OR search: moves are generated one slot at a time
    /// and tried at once, so the region forks only on what the tried move
    /// needs. An "any" verdict (a mating move, an escape) keeps only that
    /// move's facts and its child's pattern; an "all" verdict keeps
    /// everything.
    fn search(&mut self, r: Region, d: u16, q: Q) -> (parts: Parts)
        requires
            old(self).setup.wf(),
            fine(&old(self).setup, r.dom@),
        ensures
            final(self).setup == old(self).setup,
            parts_ok(&old(self).setup, parts@, r.dom@, r.stm),
            splits(part_doms(parts@), members(r.dom@)),
        decreases d, 20000nat, 2nat,
    {
        let ghost setup0 = self.setup;
        let ghost rd = r.dom@;
        proof {
            lemma_within_refl(rd);
            lemma_splits_single(rd);
        }
        self.counters.nodes = self.counters.nodes.saturating_add(1);
        if q == Q::MateIn && d == 0 {
            let full = Pattern::full(&self.setup);
            let out = vec![(r, false, full)];
            proof {
                assert(part_doms(out@) =~= seq![rd]);
            }
            return out;
        }
        if r.only_kings(&self.setup) {
            let p = Pattern::kings_only(&self.setup);
            let out = vec![(r, false, p)];
            proof {
                assert(part_doms(out@) =~= seq![rd]);
            }
            return out;
        }
        match self.lookup(q, d, &r) {
            Some((v, p)) => {
                let out = vec![(r, v, p)];
                proof {
                    assert(part_doms(out@) =~= seq![rd]);
                }
                return out;
            },
            None => {},
        }
        let stm = r.stm;
        let slots0 = self.setup.slots_of(stm);
        proof {
            crate::board::lemma_slots_of_upto(self.setup.slots@, stm, self.setup.slots.len() as int);
        }
        let mut slots: Vec<SlotId> = Vec::new();
        if self.reverse_slots {
            let mut k = slots0.len();
            while k > 0
                invariant
                    0 <= k <= slots0.len(),
                    forall|i: int| 0 <= i < slots0.len() ==> (#[trigger] slots0@[i]) < setup0.slots.len(),
                    forall|i: int| 0 <= i < slots.len() ==> (#[trigger] slots@[i]) < setup0.slots.len(),
                decreases k,
            {
                k -= 1;
                slots.push(slots0[k]);
            }
        } else {
            slots = slots0;
        }
        let mut done: Parts = Vec::new();
        let mut cur: Vec<(Region, Pattern, bool)> = Vec::new();
        cur.push((Self::copy_region(&r), Pattern::full(&self.setup), false));
        proof {
            assert(part_doms(done@) =~= Seq::<Seq<Dom>>::empty());
            assert(item_doms(cur@) =~= seq![rd]);
            assert(Seq::<Seq<Dom>>::empty() + seq![rd] =~= seq![rd]);
        }
        let mut si: usize = 0;
        while si < slots.len()
            invariant
                0 <= si <= slots.len(),
                self.setup == setup0,
                setup0.wf(),
                fine(&setup0, rd),
                rd == r.dom@,
                stm == r.stm,
                q == Q::MateIn ==> d > 0,
                forall|i: int| 0 <= i < slots.len() ==> (#[trigger] slots@[i]) < setup0.slots.len(),
                parts_ok(&setup0, done@, rd, stm),
                items_ok(&setup0, cur@, rd, stm),
                splits(part_doms(done@) + item_doms(cur@), members(rd)),
            decreases slots.len() - si,
        {
            let s = slots[si];
            let mut next_cur: Vec<(Region, Pattern, bool)> = Vec::new();
            proof {
                lemma_disjoint_parts(part_doms(done@), item_doms(cur@));
                assert(item_doms(next_cur@) =~= Seq::<Seq<Dom>>::empty());
                assert forall|p: Seq<Option<Sq>>| #[trigger] members(rd)(p) <==> in_some(part_doms(done@), p) || in_some(
                    item_doms(next_cur@),
                    p,
                ) || in_some(item_doms(cur@), p) by {
                    assert(in_some(part_doms(done@) + item_doms(cur@), p) == (in_some(part_doms(done@), p) || in_some(
                        item_doms(cur@),
                        p,
                    )));
                }
                assert(split3(part_doms(done@), item_doms(next_cur@), item_doms(cur@), members(rd)));
            }
            while cur.len() > 0
                invariant
                    self.setup == setup0,
                    setup0.wf(),
                    fine(&setup0, rd),
                    q == Q::MateIn ==> d > 0,
                    s < setup0.slots.len(),
                    parts_ok(&setup0, done@, rd, stm),
                    items_ok(&setup0, cur@, rd, stm),
                    items_ok(&setup0, next_cur@, rd, stm),
                    split3(part_doms(done@), item_doms(next_cur@), item_doms(cur@), members(rd)),
                decreases cur.len(),
            {
                let ghost cd = item_doms(cur@);
                let ghost cur_before = cur@;
                let ghost done_before = done@;
                let ghost next_before = next_cur@;
                let (sub, acc, had) = cur.pop().unwrap();
                proof {
                    assert(cur@ =~= cur_before.drop_last());
                    assert(items_ok_at(&setup0, cur_before, rd, stm, cur_before.len() - 1));
                    assert(cd.last() == sub.dom@);
                    assert(item_doms(cur@) =~= cd.drop_last());
                    assert forall|i: int| 0 <= i < cur@.len() implies #[trigger] items_ok_at(&setup0, cur@, rd, stm, i) by {
                        assert(cur@[i] == cur_before[i]);
                        assert(items_ok_at(&setup0, cur_before, rd, stm, i));
                    }
                    lemma_facts_upto_bound(sub.dom@, sub.dom.len() as int);
                }
                self.settle(sub, acc, had, s, d, q, &mut done, &mut next_cur);
                proof {
                    let dd = part_doms(done@.subrange(done_before.len() as int, done@.len() as int));
                    let nn = item_doms(next_cur@.subrange(next_before.len() as int, next_cur@.len() as int));
                    lemma_split3_take_last(part_doms(done_before), item_doms(next_before), cd, dd, nn, members(rd));
                    lemma_suffix_grow(done_before, done@, 0, done_before.len() as int);
                    lemma_suffix_grow(next_before, next_cur@, 0, next_before.len() as int);
                    assert(done@ =~= done_before + done@.subrange(done_before.len() as int, done@.len() as int));
                    assert(next_cur@ =~= next_before + next_cur@.subrange(next_before.len() as int, next_cur@.len() as int));
                    assert(part_doms(done@) =~= part_doms(done_before) + dd);
                    assert(item_doms(next_cur@) =~= item_doms(next_before) + nn);
                    assert forall|i: int| 0 <= i < done@.len() implies #[trigger] parts_ok_at(&setup0, done@, rd, stm, i) by {
                        if i >= done_before.len() {
                            let j = i - done_before.len();
                            let sfx = done@.subrange(done_before.len() as int, done@.len() as int);
                            assert(done@[i] == sfx[j]);
                            assert(parts_ok_at(&setup0, sfx, cd.last(), stm, j));
                            lemma_within_trans(done@[i].0.dom@, cd.last(), rd);
                        } else {
                            assert(done@[i] == done_before[i]);
                            assert(parts_ok_at(&setup0, done_before, rd, stm, i));
                        }
                    }
                    assert forall|i: int| 0 <= i < next_cur@.len() implies #[trigger] items_ok_at(&setup0, next_cur@, rd, stm, i) by {
                        if i >= next_before.len() {
                            let j = i - next_before.len();
                            let sfx = next_cur@.subrange(next_before.len() as int, next_cur@.len() as int);
                            assert(next_cur@[i] == sfx[j]);
                            assert(items_ok_at(&setup0, sfx, cd.last(), stm, j));
                            lemma_within_trans(next_cur@[i].0.dom@, cd.last(), rd);
                        } else {
                            assert(next_cur@[i] == next_before[i]);
                            assert(items_ok_at(&setup0, next_before, rd, stm, i));
                        }
                    }
                }
            }
            proof {
                lemma_splits_of_split3(part_doms(done@), item_doms(next_cur@), item_doms(cur@), members(rd));
            }
            cur = next_cur;
            si += 1;
        }
        // No settling move anywhere in these: the "all" verdict, or no moves at all.
        proof {
            lemma_disjoint_parts(part_doms(done@), item_doms(cur@));
            let e = Seq::<Seq<Dom>>::empty();
            assert forall|p: Seq<Option<Sq>>| #[trigger] members(rd)(p) <==> in_some(part_doms(done@), p) || in_some(e, p)
                || in_some(item_doms(cur@), p) by {
                assert(in_some(part_doms(done@) + item_doms(cur@), p) == (in_some(part_doms(done@), p) || in_some(
                    item_doms(cur@),
                    p,
                )));
            }
            assert(item_doms(cur@).subrange(0, cur@.len() as int) =~= item_doms(cur@));
        }
        let mut i: usize = 0;
        while i < cur.len()
            invariant
                0 <= i <= cur.len(),
                self.setup == setup0,
                setup0.wf(),
                fine(&setup0, rd),
                parts_ok(&setup0, done@, rd, stm),
                items_ok(&setup0, cur@, rd, stm),
                split3(part_doms(done@), Seq::empty(), item_doms(cur@).subrange(i as int, cur@.len() as int), members(rd)),
            decreases cur.len() - i,
        {
            let sub = Self::copy_region(&cur[i].0);
            let acc = Self::copy_pattern(&cur[i].1);
            let had = cur[i].2;
            let ghost cd = item_doms(cur@).subrange(i as int, cur@.len() as int);
            let ghost done_before = done@;
            proof {
                assert(items_ok_at(&setup0, cur@, rd, stm, i as int));
                assert(cd[0] == sub.dom@);
                assert(cd.drop_first() =~= item_doms(cur@).subrange(i + 1, cur@.len() as int));
            }
            if q == Q::MateIn || had {
                let v = q == Q::MatedIn;
                let ghost x = sub.dom@;
                done.push((sub, v, acc));
                proof {
                    lemma_splits_single(x);
                    assert(seq![x] + Seq::<Seq<Dom>>::empty() =~= seq![x]);
                    lemma_split3_take_first(part_doms(done_before), Seq::empty(), cd, seq![x], Seq::empty(), members(rd));
                    lemma_map_doms_push(done_before, |x: (Region, bool, Pattern)| x.0.dom@, done@.last());
                    assert(done@ =~= done_before.push(done@.last()));
                    assert(Seq::<Seq<Dom>>::empty() + Seq::<Seq<Dom>>::empty() =~= Seq::<Seq<Dom>>::empty());
                    assert(part_doms(done_before) + seq![x] =~= part_doms(done_before).push(x));
                    assert forall|j: int| 0 <= j < done@.len() implies #[trigger] parts_ok_at(&setup0, done@, rd, stm, j) by {
                        if j < done_before.len() {
                            assert(done@[j] == done_before[j]);
                            assert(parts_ok_at(&setup0, done_before, rd, stm, j));
                        }
                    }
                }
            } else {
                self.settle_check(sub, acc, stm, &mut done);
                proof {
                    let dd = part_doms(done@.subrange(done_before.len() as int, done@.len() as int));
                    assert(dd + Seq::<Seq<Dom>>::empty() =~= dd);
                    lemma_split3_take_first(part_doms(done_before), Seq::empty(), cd, dd, Seq::empty(), members(rd));
                    lemma_suffix_grow(done_before, done@, 0, done_before.len() as int);
                    assert(done@ =~= done_before + done@.subrange(done_before.len() as int, done@.len() as int));
                    assert(part_doms(done@) =~= part_doms(done_before) + dd);
                    assert(Seq::<Seq<Dom>>::empty() + Seq::<Seq<Dom>>::empty() =~= Seq::<Seq<Dom>>::empty());
                    assert forall|j: int| 0 <= j < done@.len() implies #[trigger] parts_ok_at(&setup0, done@, rd, stm, j) by {
                        if j >= done_before.len() {
                            let k = j - done_before.len();
                            let sfx = done@.subrange(done_before.len() as int, done@.len() as int);
                            assert(done@[j] == sfx[k]);
                            assert(parts_ok_at(&setup0, sfx, cd[0], stm, k));
                            lemma_within_trans(done@[j].0.dom@, cd[0], rd);
                        } else {
                            assert(done@[j] == done_before[j]);
                            assert(parts_ok_at(&setup0, done_before, rd, stm, j));
                        }
                    }
                }
            }
            i += 1;
        }
        proof {
            lemma_splits_of_split3(part_doms(done@), Seq::empty(), item_doms(cur@).subrange(i as int, cur@.len() as int), members(rd));
            assert(part_doms(done@) + Seq::<Seq<Dom>>::empty() =~= part_doms(done@));
        }
        self.store(q, d, stm, &done);
        done
    }

    /// Settle the slot-`s` moves of one sub-region: parts with a verdict go
    /// to `done`, the rest (with the facts so far) to `next`.
    fn settle(
        &mut self,
        sub: Region,
        acc: Pattern,
        had: bool,
        s: SlotId,
        d: u16,
        q: Q,
        done: &mut Parts,
        next: &mut Vec<(Region, Pattern, bool)>,
    )
        requires
            old(self).setup.wf(),
            fine(&old(self).setup, sub.dom@),
            acc.dom.len() == old(self).setup.slots.len(),
            s < old(self).setup.slots.len(),
            q == Q::MateIn ==> d > 0,
        ensures
            final(self).setup == old(self).setup,
            final(done)@.subrange(0, old(done).len() as int) == old(done)@,
            final(done).len() >= old(done).len(),
            final(next)@.subrange(0, old(next).len() as int) == old(next)@,
            final(next).len() >= old(next).len(),
            parts_ok(
                &old(self).setup,
                final(done)@.subrange(old(done).len() as int, final(done).len() as int),
                sub.dom@,
                sub.stm,
            ),
            items_ok(
                &old(self).setup,
                final(next)@.subrange(old(next).len() as int, final(next).len() as int),
                sub.dom@,
                sub.stm,
            ),
            splits(
                part_doms(final(done)@.subrange(old(done).len() as int, final(done).len() as int)) + item_doms(
                    final(next)@.subrange(old(next).len() as int, final(next).len() as int),
                ),
                members(sub.dom@),
            ),
        decreases d, region_facts(sub.dom@), 1nat,
    {
        let ghost setup0 = self.setup;
        let ghost d0 = done.len() as int;
        let ghost n0 = next.len() as int;
        let ghost sd = sub.dom@;
        match self.consult_moves(&sub, s) {
            Err(children) => {
                let mut ch = children;
                proof {
                    let e = Seq::<Seq<Dom>>::empty();
                    assert(done@.subrange(d0, d0) =~= Seq::<(Region, bool, Pattern)>::empty());
                    assert(next@.subrange(n0, n0) =~= Seq::<(Region, Pattern, bool)>::empty());
                    assert(part_doms(done@.subrange(d0, d0)) =~= e);
                    assert(item_doms(next@.subrange(n0, n0)) =~= e);
                    assert(e + map_doms(ch@, |c: Region| c.dom@) =~= map_doms(ch@, |c: Region| c.dom@));
                    lemma_split3_of_splits(e, map_doms(ch@, |c: Region| c.dom@), members(sd));
                    assert forall|p: Seq<Option<Sq>>| #[trigger] members(sd)(p) <==> in_some(e, p) || in_some(e, p)
                        || in_some(map_doms(ch@, |c: Region| c.dom@), p) by {}
                }
                while ch.len() > 0
                    invariant
                        self.setup == setup0,
                        setup0.wf(),
                        sd == sub.dom@,
                        fine(&setup0, sd),
                        acc.dom.len() == setup0.slots.len(),
                        s < setup0.slots.len(),
                        q == Q::MateIn ==> d > 0,
                        d0 <= done.len(),
                        n0 <= next.len(),
                        done@.subrange(0, d0) == old(done)@,
                        next@.subrange(0, n0) == old(next)@,
                        d0 == old(done).len(),
                        n0 == old(next).len(),
                        forall|i: int|
                            0 <= i < ch.len() ==> fine(&setup0, (#[trigger] ch@[i]).dom@) && ch@[i].stm == sub.stm
                                && doms_within(ch@[i].dom@, sd) && region_facts(ch@[i].dom@) < region_facts(sd),
                        parts_ok(&setup0, done@.subrange(d0, done.len() as int), sd, sub.stm),
                        items_ok(&setup0, next@.subrange(n0, next.len() as int), sd, sub.stm),
                        split3(
                            part_doms(done@.subrange(d0, done.len() as int)),
                            item_doms(next@.subrange(n0, next.len() as int)),
                            map_doms(ch@, |c: Region| c.dom@),
                            members(sd),
                        ),
                    decreases ch.len(),
                {
                    let ghost cd = map_doms(ch@, |c: Region| c.dom@);
                    let ghost ch_before = ch@;
                    let ghost done_before = done@;
                    let ghost next_before = next@;
                    let c = ch.pop().unwrap();
                    proof {
                        assert(c == ch_before[ch_before.len() - 1]);
                        assert(fine(&setup0, c.dom@) && doms_within(c.dom@, sd) && region_facts(c.dom@) < region_facts(sd));
                        assert(cd.last() == c.dom@);
                        assert(ch@ =~= ch_before.drop_last());
                        assert(map_doms(ch@, |c: Region| c.dom@) =~= cd.drop_last());
                    }
                    self.settle(c, Self::copy_pattern(&acc), had, s, d, q, done, next);
                    proof {
                        let dd = part_doms(done@.subrange(done_before.len() as int, done@.len() as int));
                        let nn = item_doms(next@.subrange(next_before.len() as int, next@.len() as int));
                        lemma_split3_take_last(
                            part_doms(done_before.subrange(d0, done_before.len() as int)),
                            item_doms(next_before.subrange(n0, next_before.len() as int)),
                            cd,
                            dd,
                            nn,
                            members(sd),
                        );
                        lemma_suffix_grow(done_before, done@, d0, done_before.len() as int);
                        lemma_suffix_grow(next_before, next@, n0, next_before.len() as int);
                        assert(part_doms(done@.subrange(d0, done@.len() as int)) =~= part_doms(
                            done_before.subrange(d0, done_before.len() as int),
                        ) + dd);
                        assert(item_doms(next@.subrange(n0, next@.len() as int)) =~= item_doms(
                            next_before.subrange(n0, next_before.len() as int),
                        ) + nn);
                        let nd = done@.subrange(d0, done@.len() as int);
                        assert forall|i: int| 0 <= i < nd.len() implies #[trigger] parts_ok_at(&setup0, nd, sd, sub.stm, i) by {
                            if i + d0 >= done_before.len() {
                                let j = i + d0 - done_before.len();
                                let sfx = done@.subrange(done_before.len() as int, done@.len() as int);
                                assert(nd[i] == sfx[j]);
                                assert(parts_ok_at(&setup0, sfx, cd.last(), sub.stm, j));
                                lemma_within_trans(nd[i].0.dom@, cd.last(), sd);
                            } else {
                                let old_sfx = done_before.subrange(d0, done_before.len() as int);
                                assert(nd[i] == old_sfx[i]);
                                assert(parts_ok_at(&setup0, old_sfx, sd, sub.stm, i));
                            }
                        }
                        let nx = next@.subrange(n0, next@.len() as int);
                        assert forall|i: int| 0 <= i < nx.len() implies #[trigger] items_ok_at(&setup0, nx, sd, sub.stm, i) by {
                            if i + n0 >= next_before.len() {
                                let j = i + n0 - next_before.len();
                                let sfx = next@.subrange(next_before.len() as int, next@.len() as int);
                                assert(nx[i] == sfx[j]);
                                assert(items_ok_at(&setup0, sfx, cd.last(), sub.stm, j));
                                lemma_within_trans(nx[i].0.dom@, cd.last(), sd);
                            } else {
                                let old_sfx = next_before.subrange(n0, next_before.len() as int);
                                assert(nx[i] == old_sfx[i]);
                                assert(items_ok_at(&setup0, old_sfx, sd, sub.stm, i));
                            }
                        }
                    }
                }
                proof {
                    lemma_splits_of_split3(
                        part_doms(done@.subrange(d0, done.len() as int)),
                        item_doms(next@.subrange(n0, next.len() as int)),
                        map_doms(ch@, |c: Region| c.dom@),
                        members(sd),
                    );
                }
            },
            Ok((moves, facts)) => {
                let had2 = had || moves.len() > 0;
                let mut rem: Vec<(Region, Pattern)> = Vec::new();
                rem.push((Self::copy_region(&sub), acc.meet(&facts)));
                proof {
                    let e = Seq::<Seq<Dom>>::empty();
                    assert(done@.subrange(d0, d0) =~= Seq::<(Region, bool, Pattern)>::empty());
                    assert(part_doms(done@.subrange(d0, d0)) =~= e);
                    assert(rem_doms(rem@) =~= seq![sd]);
                    lemma_splits_single(sd);
                    assert(e + seq![sd] =~= seq![sd]);
                    lemma_split3_of_splits(e, seq![sd], members(sd));
                    lemma_within_refl(sd);
                    assert(done@.subrange(0, d0) =~= old(done)@);
                }
                let mut t: usize = 0;
                while t < moves.len() && rem.len() > 0
                    invariant
                        0 <= t <= moves.len(),
                        self.setup == setup0,
                        setup0.wf(),
                        sd == sub.dom@,
                        fine(&setup0, sd),
                        q == Q::MateIn ==> d > 0,
                        d0 <= done.len(),
                        done@.subrange(0, d0) == old(done)@,
                        d0 == old(done).len(),
                        next@ == old(next)@,
                        forall|k: int| 0 <= k < moves.len() ==> decided_move(sd, #[trigger] moves@[k]),
                        forall|k: int| 0 <= k < moves.len() ==> (#[trigger] moves@[k]).to < setup0.area_spec(),
                        parts_ok(&setup0, done@.subrange(d0, done.len() as int), sd, sub.stm),
                        rems_ok(&setup0, rem@, sd, sub.stm),
                        split3(part_doms(done@.subrange(d0, done.len() as int)), rem_doms(rem@), Seq::empty(), members(sd)),
                    decreases moves.len() - t,
                {
                    let mv = moves[t];
                    let mut nrem: Vec<(Region, Pattern)> = Vec::new();
                    proof {
                        let e = Seq::<Seq<Dom>>::empty();
                        lemma_splits_of_split3(part_doms(done@.subrange(d0, done.len() as int)), rem_doms(rem@), e, members(sd));
                        lemma_split3_of_splits(part_doms(done@.subrange(d0, done.len() as int)), rem_doms(rem@), members(sd));
                        assert(rem_doms(nrem@) =~= e);
                        assert(rem_doms(rem@).subrange(0, rem@.len() as int) =~= rem_doms(rem@));
                        assert forall|p: Seq<Option<Sq>>| #[trigger] members(sd)(p) <==> in_some(
                            part_doms(done@.subrange(d0, done.len() as int)),
                            p,
                        ) || in_some(rem_doms(nrem@), p) || in_some(rem_doms(rem@).subrange(0, rem@.len() as int), p) by {}
                    }
                    let mut i: usize = 0;
                    while i < rem.len()
                        invariant
                            0 <= i <= rem.len(),
                            self.setup == setup0,
                            setup0.wf(),
                            sd == sub.dom@,
                            fine(&setup0, sd),
                            q == Q::MateIn ==> d > 0,
                            decided_move(sd, mv),
                            mv.to < setup0.area_spec(),
                            d0 <= done.len(),
                            done@.subrange(0, d0) == old(done)@,
                            d0 == old(done).len(),
                            parts_ok(&setup0, done@.subrange(d0, done.len() as int), sd, sub.stm),
                            rems_ok(&setup0, rem@, sd, sub.stm),
                            rems_ok(&setup0, nrem@, sd, sub.stm),
                            split3(
                                part_doms(done@.subrange(d0, done.len() as int)),
                                rem_doms(nrem@),
                                rem_doms(rem@).subrange(i as int, rem@.len() as int),
                                members(sd),
                            ),
                        decreases rem.len() - i,
                    {
                        let sub2 = Self::copy_region(&rem[i].0);
                        let a = Self::copy_pattern(&rem[i].1);
                        let ghost cd = rem_doms(rem@).subrange(i as int, rem@.len() as int);
                        let ghost done_before = done@;
                        let ghost nrem_before = nrem@;
                        proof {
                            assert(rems_ok_at(&setup0, rem@, sd, sub.stm, i as int));
                            lemma_decided_within(sd, sub2.dom@, mv);
                            lemma_region_facts_within(sub2.dom@, sd);
                            assert(cd[0] == sub2.dom@);
                            assert(cd.drop_first() =~= rem_doms(rem@).subrange(i + 1, rem@.len() as int));
                        }
                        self.try_move(sub2, a, mv, d, q, done, &mut nrem);
                        proof {
                            let dd = part_doms(done@.subrange(done_before.len() as int, done@.len() as int));
                            let nn = rem_doms(nrem@.subrange(nrem_before.len() as int, nrem@.len() as int));
                            lemma_split3_take_first(
                                part_doms(done_before.subrange(d0, done_before.len() as int)),
                                rem_doms(nrem_before),
                                cd,
                                dd,
                                nn,
                                members(sd),
                            );
                            lemma_suffix_grow(done_before, done@, d0, done_before.len() as int);
                            lemma_suffix_grow(nrem_before, nrem@, 0, nrem_before.len() as int);
                            assert(part_doms(done@.subrange(d0, done@.len() as int)) =~= part_doms(
                                done_before.subrange(d0, done_before.len() as int),
                            ) + dd);
                            assert(nrem@ =~= nrem_before + nrem@.subrange(nrem_before.len() as int, nrem@.len() as int));
                            assert(rem_doms(nrem@) =~= rem_doms(nrem_before) + nn);
                            let nd = done@.subrange(d0, done@.len() as int);
                            assert forall|j: int| 0 <= j < nd.len() implies #[trigger] parts_ok_at(&setup0, nd, sd, sub.stm, j) by {
                                if j + d0 >= done_before.len() {
                                    let k = j + d0 - done_before.len();
                                    let sfx = done@.subrange(done_before.len() as int, done@.len() as int);
                                    assert(nd[j] == sfx[k]);
                                    assert(parts_ok_at(&setup0, sfx, cd[0], sub.stm, k));
                                    lemma_within_trans(nd[j].0.dom@, cd[0], sd);
                                } else {
                                    let old_sfx = done_before.subrange(d0, done_before.len() as int);
                                    assert(nd[j] == old_sfx[j]);
                                    assert(parts_ok_at(&setup0, old_sfx, sd, sub.stm, j));
                                }
                            }
                            assert forall|j: int| 0 <= j < nrem@.len() implies #[trigger] rems_ok_at(&setup0, nrem@, sd, sub.stm, j) by {
                                if j >= nrem_before.len() {
                                    let k = j - nrem_before.len();
                                    let sfx = nrem@.subrange(nrem_before.len() as int, nrem@.len() as int);
                                    assert(nrem@[j] == sfx[k]);
                                    assert(rems_ok_at(&setup0, sfx, cd[0], sub.stm, k));
                                    lemma_within_trans(nrem@[j].0.dom@, cd[0], sd);
                                } else {
                                    assert(nrem@[j] == nrem_before[j]);
                                    assert(rems_ok_at(&setup0, nrem_before, sd, sub.stm, j));
                                }
                            }
                        }
                        i += 1;
                    }
                    proof {
                        let e = Seq::<Seq<Dom>>::empty();
                        assert(rem_doms(rem@).subrange(i as int, rem@.len() as int) =~= e);
                    }
                    rem = nrem;
                    t += 1;
                }
                proof {
                    assert(rem_doms(rem@).subrange(0, rem@.len() as int) =~= rem_doms(rem@));
                    assert(next@.subrange(n0, n0) =~= Seq::<(Region, Pattern, bool)>::empty());
                    assert(item_doms(next@.subrange(n0, next@.len() as int)) =~= Seq::<Seq<Dom>>::empty());
                    lemma_splits_of_split3(part_doms(done@.subrange(d0, done.len() as int)), rem_doms(rem@), Seq::empty(), members(sd));
                    lemma_split3_of_splits(part_doms(done@.subrange(d0, done.len() as int)), rem_doms(rem@), members(sd));
                    let e = Seq::<Seq<Dom>>::empty();
                    assert forall|p: Seq<Option<Sq>>| #[trigger] members(sd)(p) <==> in_some(
                        part_doms(done@.subrange(d0, done.len() as int)),
                        p,
                    ) || in_some(e, p) || in_some(rem_doms(rem@).subrange(0, rem@.len() as int), p) by {}
                }
                let mut i: usize = 0;
                while i < rem.len()
                    invariant
                        0 <= i <= rem.len(),
                        self.setup == setup0,
                        fine(&setup0, sd),
                        n0 <= next.len(),
                        next@.subrange(0, n0) == old(next)@,
                        n0 == old(next).len(),
                        rems_ok(&setup0, rem@, sd, sub.stm),
                        items_ok(&setup0, next@.subrange(n0, next.len() as int), sd, sub.stm),
                        split3(
                            part_doms(done@.subrange(d0, done.len() as int)),
                            item_doms(next@.subrange(n0, next.len() as int)),
                            rem_doms(rem@).subrange(i as int, rem@.len() as int),
                            members(sd),
                        ),
                    decreases rem.len() - i,
                {
                    let ghost cd = rem_doms(rem@).subrange(i as int, rem@.len() as int);
                    let ghost next_before = next@;
                    let r2 = Self::copy_region(&rem[i].0);
                    let a2 = Self::copy_pattern(&rem[i].1);
                    let ghost x = r2.dom@;
                    proof {
                        assert(rems_ok_at(&setup0, rem@, sd, sub.stm, i as int));
                        assert(cd[0] == x);
                        assert(cd.drop_first() =~= rem_doms(rem@).subrange(i + 1, rem@.len() as int));
                    }
                    next.push((r2, a2, had2));
                    proof {
                        let e = Seq::<Seq<Dom>>::empty();
                        lemma_splits_single(x);
                        assert(e + seq![x] =~= seq![x]);
                        lemma_split3_take_first(
                            part_doms(done@.subrange(d0, done.len() as int)),
                            item_doms(next_before.subrange(n0, next_before.len() as int)),
                            cd,
                            e,
                            seq![x],
                            members(sd),
                        );
                        lemma_suffix_push(next_before, next@.last(), n0);
                        assert(next@ =~= next_before.push(next@.last()));
                        lemma_map_doms_push(next_before.subrange(n0, next_before.len() as int), |y: (Region, Pattern, bool)| y.0.dom@, next@.last());
                        assert(part_doms(done@.subrange(d0, done.len() as int)) + e =~= part_doms(done@.subrange(d0, done.len() as int)));
                        assert(item_doms(next_before.subrange(n0, next_before.len() as int)) + seq![x] =~= item_doms(
                            next_before.subrange(n0, next_before.len() as int),
                        ).push(x));
                        let nx = next@.subrange(n0, next@.len() as int);
                        assert forall|j: int| 0 <= j < nx.len() implies #[trigger] items_ok_at(&setup0, nx, sd, sub.stm, j) by {
                            if j < nx.len() - 1 {
                                let old_sfx = next_before.subrange(n0, next_before.len() as int);
                                assert(nx[j] == old_sfx[j]);
                                assert(items_ok_at(&setup0, old_sfx, sd, sub.stm, j));
                            }
                        }
                    }
                    i += 1;
                }
                proof {
                    lemma_splits_of_split3(
                        part_doms(done@.subrange(d0, done.len() as int)),
                        item_doms(next@.subrange(n0, next.len() as int)),
                        rem_doms(rem@).subrange(i as int, rem@.len() as int),
                        members(sd),
                    );
                }
            },
        }
    }

    /// Try `mv` on `sub2`: the positions whose successor settles the node go
    /// to `done`, the others (with the facts so far) to `nrem`.
    fn try_move(
        &mut self,
        sub2: Region,
        a: Pattern,
        mv: Move,
        d: u16,
        q: Q,
        done: &mut Parts,
        nrem: &mut Vec<(Region, Pattern)>,
    )
        requires
            old(self).setup.wf(),
            fine(&old(self).setup, sub2.dom@),
            decided_move(sub2.dom@, mv),
            mv.to < old(self).setup.area_spec(),
            a.dom.len() == old(self).setup.slots.len(),
            q == Q::MateIn ==> d > 0,
        ensures
            final(self).setup == old(self).setup,
            final(done)@.subrange(0, old(done).len() as int) == old(done)@,
            final(done).len() >= old(done).len(),
            final(nrem)@.subrange(0, old(nrem).len() as int) == old(nrem)@,
            final(nrem).len() >= old(nrem).len(),
            parts_ok(
                &old(self).setup,
                final(done)@.subrange(old(done).len() as int, final(done).len() as int),
                sub2.dom@,
                sub2.stm,
            ),
            rems_ok(
                &old(self).setup,
                final(nrem)@.subrange(old(nrem).len() as int, final(nrem).len() as int),
                sub2.dom@,
                sub2.stm,
            ),
            splits(
                part_doms(final(done)@.subrange(old(done).len() as int, final(done).len() as int)) + rem_doms(
                    final(nrem)@.subrange(old(nrem).len() as int, final(nrem).len() as int),
                ),
                members(sub2.dom@),
            ),
        decreases d, region_facts(sub2.dom@), 0nat,
    {
        let ghost setup0 = self.setup;
        let ghost d0 = done.len() as int;
        let ghost n0 = nrem.len() as int;
        let ghost sd = sub2.dom@;
        let ghost e = Seq::<Seq<Dom>>::empty();
        proof {
            assert(done@.subrange(0, d0) =~= old(done)@);
            assert(nrem@.subrange(0, n0) =~= old(nrem)@);
            assert(done@.subrange(d0, d0) =~= Seq::<(Region, bool, Pattern)>::empty());
            assert(nrem@.subrange(n0, n0) =~= Seq::<(Region, Pattern)>::empty());
            assert(part_doms(done@.subrange(d0, d0)) =~= e);
            assert(rem_doms(nrem@.subrange(n0, n0)) =~= e);
            lemma_within_refl(sd);
        }
        if q == Q::MatedIn && d == 0 {
            // Any legal move is an escape from mate-now.
            let mf = self.move_facts(&sub2, mv);
            done.push((sub2, false, mf));
            proof {
                lemma_suffix_push(old(done)@, done@.last(), d0);
                assert(done@ =~= old(done)@.push(done@.last()));
                assert(done@.subrange(d0, done@.len() as int) =~= seq![done@.last()]);
                assert(part_doms(seq![done@.last()]) =~= seq![sd]);
                lemma_splits_single(sd);
                assert(seq![sd] + e =~= seq![sd]);
            }
            return;
        }
        let child = match sub2.played(mv) {
            Some(c) => c,
            None => {
                proof {
                    assert forall|p: Seq<Option<Sq>>| !#[trigger] member(sd, p) by {
                        if member(sd, p) {
                            lemma_play_member(sd, mv, p);
                        }
                    }
                    assert(e + e =~= e);
                }
                return;
            },
        };
        let ghost cdom = child.dom@;
        let ghost cstm = child.stm;
        proof {
            // the domains after the move lie on the board
            lemma_bit_single(mv.to as u64);
            lemma_bit_empty();
            let pl = play_doms(sd, mv);
            assert forall|k: int, x: int| 0 <= k < cdom.len() && #[trigger] bit(cdom[k].sq, x) implies x
                < setup0.area_spec() by {
                assert(dom_within(cdom[k], pl[k]));
                assert(bit(pl[k].sq, x));
                if k != mv.slot && !(mv.capture is Some && k == mv.capture->Some_0) {
                    assert(bit(sd[k].sq, x));
                }
            }
        }
        let parts = self.search(child, d - 1, Self::other(q));
        let trig = q == Q::MateIn;
        proof {
            let s0 = reach_set(sd, part_doms(parts@), mv, 0);
            assert forall|p: Seq<Option<Sq>>| #[trigger] s0(p) == (in_some(e, p) || in_some(e, p) || in_some(e, p)) by {}
        }
        let mut i: usize = 0;
        while i < parts.len()
            invariant
                0 <= i <= parts.len(),
                self.setup == setup0,
                setup0.wf(),
                fine(&setup0, sd),
                decided_move(sd, mv),
                mv.to < setup0.area_spec(),
                a.dom.len() == setup0.slots.len(),
                d0 <= done.len(),
                n0 <= nrem.len(),
                d0 == old(done).len(),
                n0 == old(nrem).len(),
                done@.subrange(0, d0) == old(done)@,
                nrem@.subrange(0, n0) == old(nrem)@,
                doms_within(cdom, play_doms(sd, mv)),
                cstm == flip_spec(sub2.stm),
                forall|p: Seq<Option<Sq>>| #[trigger] member(cdom, p) <==> member(play_doms(sd, mv), p),
                parts_ok(&setup0, parts@, cdom, cstm),
                splits(part_doms(parts@), members(cdom)),
                parts_ok(&setup0, done@.subrange(d0, done.len() as int), sd, sub2.stm),
                rems_ok(&setup0, nrem@.subrange(n0, nrem.len() as int), sd, sub2.stm),
                split3(
                    part_doms(done@.subrange(d0, done.len() as int)),
                    rem_doms(nrem@.subrange(n0, nrem.len() as int)),
                    Seq::empty(),
                    reach_set(sd, part_doms(parts@), mv, i as int),
                ),
            decreases parts.len() - i,
        {
            let child_i = Self::copy_region(&parts[i].0);
            let v = parts[i].1;
            let cp = Self::copy_pattern(&parts[i].2);
            let ghost pd = part_doms(parts@);
            let ghost done_before = done@;
            let ghost nrem_before = nrem@;
            let ghost si = reach_set(sd, pd, mv, i as int);
            let ghost si1 = reach_set(sd, pd, mv, i + 1);
            proof {
                assert(parts_ok_at(&setup0, parts@, cdom, cstm, i as int));
                assert(pd[i as int] == child_i.dom@);
                lemma_within_trans(child_i.dom@, cdom, play_doms(sd, mv));
                // no position reaches both this part and an earlier one
                assert forall|p: Seq<Option<Sq>>| !(#[trigger] si(p) && member(child_i.dom@, crate::board::play_spec(p, mv))) by {
                    if si(p) && member(child_i.dom@, crate::board::play_spec(p, mv)) {
                        let j = choose|j: int| 0 <= j < i && #[trigger] member(pd[j], crate::board::play_spec(p, mv));
                        assert(member(pd[i as int], crate::board::play_spec(p, mv)));
                    }
                }
                assert forall|p: Seq<Option<Sq>>| #[trigger] si1(p) == (si(p) || (member(sd, p) && member(
                    child_i.dom@,
                    crate::board::play_spec(p, mv),
                ))) by {
                    if si1(p) && !si(p) {
                        let j = choose|j: int| 0 <= j < i + 1 && #[trigger] member(pd[j], crate::board::play_spec(p, mv));
                        assert(j == i);
                    }
                    if member(sd, p) && member(child_i.dom@, crate::board::play_spec(p, mv)) {
                        assert(member(pd[i as int], crate::board::play_spec(p, mv)));
                    }
                }
            }
            match Region::pulled(&child_i, mv) {
                None => {
                    proof {
                        assert forall|p: Seq<Option<Sq>>| #[trigger] si(p) == si1(p) by {
                            if member(sd, p) && member(child_i.dom@, crate::board::play_spec(p, mv)) {
                                lemma_pullback_covers(sd, child_i.dom@, mv, p);
                            }
                        }
                        lemma_split3_equiv(
                            part_doms(done@.subrange(d0, done.len() as int)),
                            rem_doms(nrem@.subrange(n0, nrem.len() as int)),
                            Seq::empty(),
                            si,
                            si1,
                        );
                    }
                },
                Some(back) => {
                    let ghost x = back.dom@;
                    proof {
                        lemma_pullback_within(sd, child_i.dom@, mv);
                        lemma_within_trans(x, pullback_doms(child_i.dom@, mv), sd);
                        lemma_within_fine(&setup0, x, sd);
                        lemma_decided_within(sd, x, mv);
                        assert forall|p: Seq<Option<Sq>>| #[trigger] members(x)(p) == (member(sd, p) && member(
                            child_i.dom@,
                            crate::board::play_spec(p, mv),
                        )) by {
                            if member(x, p) {
                                lemma_pullback_member(sd, child_i.dom@, mv, p);
                            }
                            if member(sd, p) && member(child_i.dom@, crate::board::play_spec(p, mv)) {
                                lemma_pullback_covers(sd, child_i.dom@, mv, p);
                            }
                        }
                        assert forall|p: Seq<Option<Sq>>| !(#[trigger] si(p) && member(x, p)) by {
                            if si(p) && member(x, p) {
                                assert(members(x)(p));
                                assert(member(child_i.dom@, crate::board::play_spec(p, mv)));
                            }
                        }
                        assert forall|p: Seq<Option<Sq>>| #[trigger] union_set(si, members(x))(p) == si1(p) by {}
                        assert(back.stm == sub2.stm) by {
                            crate::board::lemma_flip_involution(sub2.stm);
                        }
                    }
                    let cp2 = cp.pullback(mv);
                    if v == trig {
                        let mf = self.move_facts(&back, mv);
                        let pat = mf.meet(&cp2);
                        done.push((back, trig, pat));
                        proof {
                            lemma_split3_push_a(
                                part_doms(done_before.subrange(d0, done_before.len() as int)),
                                rem_doms(nrem@.subrange(n0, nrem.len() as int)),
                                Seq::empty(),
                                x,
                                si,
                            );
                            lemma_split3_equiv(
                                part_doms(done_before.subrange(d0, done_before.len() as int)).push(x),
                                rem_doms(nrem@.subrange(n0, nrem.len() as int)),
                                Seq::empty(),
                                union_set(si, members(x)),
                                si1,
                            );
                            lemma_suffix_push(done_before, done@.last(), d0);
                            assert(done@ =~= done_before.push(done@.last()));
                            lemma_map_doms_push(done_before.subrange(d0, done_before.len() as int), |y: (Region, bool, Pattern)| y.0.dom@, done@.last());
                            let nd = done@.subrange(d0, done@.len() as int);
                            assert forall|j: int| 0 <= j < nd.len() implies #[trigger] parts_ok_at(&setup0, nd, sd, sub2.stm, j) by {
                                if j < nd.len() - 1 {
                                    let old_sfx = done_before.subrange(d0, done_before.len() as int);
                                    assert(nd[j] == old_sfx[j]);
                                    assert(parts_ok_at(&setup0, old_sfx, sd, sub2.stm, j));
                                }
                            }
                        }
                    } else {
                        let pat = a.meet(&cp2);
                        nrem.push((back, pat));
                        proof {
                            lemma_split3_push_b(
                                part_doms(done@.subrange(d0, done.len() as int)),
                                rem_doms(nrem_before.subrange(n0, nrem_before.len() as int)),
                                Seq::empty(),
                                x,
                                si,
                            );
                            lemma_split3_equiv(
                                part_doms(done@.subrange(d0, done.len() as int)),
                                rem_doms(nrem_before.subrange(n0, nrem_before.len() as int)).push(x),
                                Seq::empty(),
                                union_set(si, members(x)),
                                si1,
                            );
                            lemma_suffix_push(nrem_before, nrem@.last(), n0);
                            assert(nrem@ =~= nrem_before.push(nrem@.last()));
                            lemma_map_doms_push(nrem_before.subrange(n0, nrem_before.len() as int), |y: (Region, Pattern)| y.0.dom@, nrem@.last());
                            let nr = nrem@.subrange(n0, nrem@.len() as int);
                            assert forall|j: int| 0 <= j < nr.len() implies #[trigger] rems_ok_at(&setup0, nr, sd, sub2.stm, j) by {
                                if j < nr.len() - 1 {
                                    let old_sfx = nrem_before.subrange(n0, nrem_before.len() as int);
                                    assert(nr[j] == old_sfx[j]);
                                    assert(rems_ok_at(&setup0, old_sfx, sd, sub2.stm, j));
                                }
                            }
                        }
                    }
                },
            }
            i += 1;
        }
        proof {
            let pd = part_doms(parts@);
            let sn = reach_set(sd, pd, mv, parts@.len() as int);
            assert forall|p: Seq<Option<Sq>>| #[trigger] sn(p) == members(sd)(p) by {
                if member(sd, p) {
                    lemma_play_member(sd, mv, p);
                    let pp = crate::board::play_spec(p, mv);
                    assert(member(cdom, pp));
                    assert(in_some(pd, pp));
                    let j = choose|j: int| 0 <= j < pd.len() && #[trigger] member(pd[j], pp);
                }
            }
            lemma_split3_equiv(
                part_doms(done@.subrange(d0, done.len() as int)),
                rem_doms(nrem@.subrange(n0, nrem.len() as int)),
                Seq::empty(),
                sn,
                members(sd),
            );
            lemma_splits_of_split3(
                part_doms(done@.subrange(d0, done.len() as int)),
                rem_doms(nrem@.subrange(n0, nrem.len() as int)),
                Seq::empty(),
                members(sd),
            );
        }
    }

    /// Split `sub` by whether `stm` is in check, into `done`.
    fn settle_check(&mut self, sub: Region, acc: Pattern, stm: Color, done: &mut Parts)
        requires
            old(self).setup.wf(),
            fine(&old(self).setup, sub.dom@),
            acc.dom.len() == old(self).setup.slots.len(),
        ensures
            final(self).setup == old(self).setup,
            final(done)@.subrange(0, old(done).len() as int) == old(done)@,
            final(done).len() >= old(done).len(),
            parts_ok(
                &old(self).setup,
                final(done)@.subrange(old(done).len() as int, final(done).len() as int),
                sub.dom@,
                sub.stm,
            ),
            splits(part_doms(final(done)@.subrange(old(done).len() as int, final(done).len() as int)), members(sub.dom@)),
        decreases region_facts(sub.dom@),
    {
        let ghost setup0 = self.setup;
        let ghost d0 = done.len() as int;
        let ghost sd = sub.dom@;
        let ghost e = Seq::<Seq<Dom>>::empty();
        proof {
            assert(done@.subrange(0, d0) =~= old(done)@);
            assert(done@.subrange(d0, d0) =~= Seq::<(Region, bool, Pattern)>::empty());
            assert(part_doms(done@.subrange(d0, d0)) =~= e);
            lemma_within_refl(sd);
        }
        match self.consult_check(&sub, stm) {
            Ok((check, f)) => {
                let pat = acc.meet(&f);
                done.push((sub, check, pat));
                proof {
                    lemma_suffix_push(old(done)@, done@.last(), d0);
                    assert(done@ =~= old(done)@.push(done@.last()));
                    assert(done@.subrange(d0, done@.len() as int) =~= seq![done@.last()]);
                    assert(part_doms(seq![done@.last()]) =~= seq![sd]);
                    lemma_splits_single(sd);
                }
            },
            Err(children) => {
                let mut ch = children;
                proof {
                    assert(e + map_doms(ch@, |c: Region| c.dom@) =~= map_doms(ch@, |c: Region| c.dom@));
                    lemma_split3_of_splits(e, map_doms(ch@, |c: Region| c.dom@), members(sd));
                    assert forall|p: Seq<Option<Sq>>| #[trigger] members(sd)(p) <==> in_some(e, p) || in_some(e, p)
                        || in_some(map_doms(ch@, |c: Region| c.dom@), p) by {}
                }
                while ch.len() > 0
                    invariant
                        self.setup == setup0,
                        setup0.wf(),
                        sd == sub.dom@,
                        e == Seq::<Seq<Dom>>::empty(),
                        fine(&setup0, sd),
                        acc.dom.len() == setup0.slots.len(),
                        d0 <= done.len(),
                        done@.subrange(0, d0) == old(done)@,
                        d0 == old(done).len(),
                        forall|i: int|
                            0 <= i < ch.len() ==> fine(&setup0, (#[trigger] ch@[i]).dom@) && ch@[i].stm == sub.stm
                                && doms_within(ch@[i].dom@, sd) && region_facts(ch@[i].dom@) < region_facts(sd),
                        parts_ok(&setup0, done@.subrange(d0, done.len() as int), sd, sub.stm),
                        split3(part_doms(done@.subrange(d0, done.len() as int)), e, map_doms(ch@, |c: Region| c.dom@), members(sd)),
                    decreases ch.len(),
                {
                    let ghost cd = map_doms(ch@, |c: Region| c.dom@);
                    let ghost ch_before = ch@;
                    let ghost done_before = done@;
                    let c = ch.pop().unwrap();
                    proof {
                        assert(c == ch_before[ch_before.len() - 1]);
                        assert(fine(&setup0, c.dom@) && doms_within(c.dom@, sd) && region_facts(c.dom@) < region_facts(sd));
                        assert(cd.last() == c.dom@);
                        assert(ch@ =~= ch_before.drop_last());
                        assert(map_doms(ch@, |c: Region| c.dom@) =~= cd.drop_last());
                    }
                    self.settle_check(c, Self::copy_pattern(&acc), stm, done);
                    proof {
                        let dd = part_doms(done@.subrange(done_before.len() as int, done@.len() as int));
                        assert(dd + e =~= dd);
                        lemma_split3_take_last(part_doms(done_before.subrange(d0, done_before.len() as int)), e, cd, dd, e, members(sd));
                        assert(e + e =~= e);
                        lemma_suffix_grow(done_before, done@, d0, done_before.len() as int);
                        assert(part_doms(done@.subrange(d0, done@.len() as int)) =~= part_doms(
                            done_before.subrange(d0, done_before.len() as int),
                        ) + dd);
                        let nd = done@.subrange(d0, done@.len() as int);
                        assert forall|i: int| 0 <= i < nd.len() implies #[trigger] parts_ok_at(&setup0, nd, sd, sub.stm, i) by {
                            if i + d0 >= done_before.len() {
                                let j = i + d0 - done_before.len();
                                let sfx = done@.subrange(done_before.len() as int, done@.len() as int);
                                assert(nd[i] == sfx[j]);
                                assert(parts_ok_at(&setup0, sfx, cd.last(), sub.stm, j));
                                lemma_within_trans(nd[i].0.dom@, cd.last(), sd);
                            } else {
                                let old_sfx = done_before.subrange(d0, done_before.len() as int);
                                assert(nd[i] == old_sfx[i]);
                                assert(parts_ok_at(&setup0, old_sfx, sd, sub.stm, i));
                            }
                        }
                    }
                }
                proof {
                    lemma_splits_of_split3(part_doms(done@.subrange(d0, done.len() as int)), e, map_doms(ch@, |c: Region| c.dom@), members(sd));
                    assert(part_doms(done@.subrange(d0, done.len() as int)) + e =~= part_doms(done@.subrange(d0, done.len() as int)));
                }
            },
        }
    }

    fn copy_region(r: &Region) -> (c: Region)
        ensures
            c.dom@ == r.dom@,
            c.stm == r.stm,
    {
        let dom = r.dom.clone();
        proof {
            assert(dom@ =~= r.dom@);
        }
        Region { dom, stm: r.stm }
    }

    fn copy_pattern(p: &Pattern) -> (c: Pattern)
        ensures
            c.dom@ == p.dom@,
    {
        let dom = p.dom.clone();
        proof {
            assert(dom@ =~= p.dom@);
        }
        Pattern { dom }
    }
}

pub open spec fn leaf_doms(v: Seq<Leaf>) -> Seq<Seq<Dom>> {
    map_doms(v, |l: Leaf| l.region.dom@)
}

/// Leaf `i` is a fine sub-region of `base` with `stm` to move.
pub open spec fn leaf_ok_at(setup: &Setup, v: Seq<Leaf>, base: Seq<Dom>, stm: Color, i: int) -> bool {
    &&& fine(setup, v[i].region.dom@)
    &&& doms_within(v[i].region.dom@, base)
    &&& v[i].region.stm == stm
    &&& v[i].verdict == Verdict::Illegal ==> illegal_region(setup, v[i].region.dom@, stm)
}

/// No position of the domains is legal with `stm` to move.
pub open spec fn illegal_region(setup: &Setup, doms: Seq<Dom>, stm: Color) -> bool {
    forall|p: Seq<Option<Sq>>| #[trigger] member(doms, p) ==> !crate::board::is_legal_spec(setup, p, stm)
}

pub open spec fn leaves_ok(setup: &Setup, v: Seq<Leaf>, base: Seq<Dom>, stm: Color) -> bool {
    forall|i: int| 0 <= i < v.len() ==> #[trigger] leaf_ok_at(setup, v, base, stm, i)
}

/// The parts `0..j`, as a set of positions.
pub open spec fn first_parts(pd: Seq<Seq<Dom>>, j: int) -> spec_fn(Seq<Option<Sq>>) -> bool {
    |p: Seq<Option<Sq>>| exists|i: int| 0 <= i < j && #[trigger] member(pd[i], p)
}

impl Engine {
    /// Split `r` by whether the side not to move is in check: those parts
    /// are illegal leaves, the others stay open with the facts used.
    fn legal_split(&mut self, r: Region, leaves: &mut Vec<Leaf>, open: &mut Vec<(Region, Pattern)>)
        requires
            old(self).setup.wf(),
            fine(&old(self).setup, r.dom@),
        ensures
            final(self).setup == old(self).setup,
            final(leaves)@.subrange(0, old(leaves).len() as int) == old(leaves)@,
            final(leaves).len() >= old(leaves).len(),
            final(open)@.subrange(0, old(open).len() as int) == old(open)@,
            final(open).len() >= old(open).len(),
            leaves_ok(&old(self).setup, final(leaves)@.subrange(old(leaves).len() as int, final(leaves).len() as int), r.dom@, r.stm),
            rems_ok(&old(self).setup, final(open)@.subrange(old(open).len() as int, final(open).len() as int), r.dom@, r.stm),
            splits(
                leaf_doms(final(leaves)@.subrange(old(leaves).len() as int, final(leaves).len() as int)) + rem_doms(
                    final(open)@.subrange(old(open).len() as int, final(open).len() as int),
                ),
                members(r.dom@),
            ),
        decreases region_facts(r.dom@),
    {
        let ghost setup0 = self.setup;
        let ghost l0 = leaves.len() as int;
        let ghost o0 = open.len() as int;
        let ghost rd = r.dom@;
        let ghost e = Seq::<Seq<Dom>>::empty();
        proof {
            assert(leaves@.subrange(0, l0) =~= old(leaves)@);
            assert(open@.subrange(0, o0) =~= old(open)@);
            assert(leaf_doms(leaves@.subrange(l0, l0)) =~= e);
            assert(rem_doms(open@.subrange(o0, o0)) =~= e);
            lemma_within_refl(rd);
            lemma_splits_single(rd);
        }
        let not_stm = r.stm.flip();
        match self.consult_check(&r, not_stm) {
            Ok((true, p)) => {
                proof {
                    assert forall|q: Seq<Option<Sq>>| #[trigger] member(rd, q) implies !crate::board::is_legal_spec(&setup0, q, r.stm) by {
                        crate::board::lemma_flip_involution(r.stm);
                    }
                }
                leaves.push(Leaf { region: r, verdict: Verdict::Illegal, pattern: p });
                proof {
                    lemma_suffix_push(old(leaves)@, leaves@.last(), l0);
                    assert(leaves@ =~= old(leaves)@.push(leaves@.last()));
                    assert(leaves@.subrange(l0, leaves@.len() as int) =~= seq![leaves@.last()]);
                    assert(leaf_doms(seq![leaves@.last()]) =~= seq![rd]);
                    assert(seq![rd] + e =~= seq![rd]);
                }
            },
            Ok((false, p)) => {
                open.push((r, p));
                proof {
                    lemma_suffix_push(old(open)@, open@.last(), o0);
                    assert(open@ =~= old(open)@.push(open@.last()));
                    assert(open@.subrange(o0, open@.len() as int) =~= seq![open@.last()]);
                    assert(rem_doms(seq![open@.last()]) =~= seq![rd]);
                    assert(e + seq![rd] =~= seq![rd]);
                }
            },
            Err(children) => {
                let mut ch = children;
                proof {
                    assert(e + map_doms(ch@, |c: Region| c.dom@) =~= map_doms(ch@, |c: Region| c.dom@));
                    lemma_split3_of_splits(e, map_doms(ch@, |c: Region| c.dom@), members(rd));
                    assert forall|p: Seq<Option<Sq>>| #[trigger] members(rd)(p) <==> in_some(e, p) || in_some(e, p)
                        || in_some(map_doms(ch@, |c: Region| c.dom@), p) by {}
                }
                while ch.len() > 0
                    invariant
                        self.setup == setup0,
                        setup0.wf(),
                        rd == r.dom@,
                        fine(&setup0, rd),
                        l0 <= leaves.len(),
                        o0 <= open.len(),
                        l0 == old(leaves).len(),
                        o0 == old(open).len(),
                        leaves@.subrange(0, l0) == old(leaves)@,
                        open@.subrange(0, o0) == old(open)@,
                        forall|i: int|
                            0 <= i < ch.len() ==> fine(&setup0, (#[trigger] ch@[i]).dom@) && ch@[i].stm == r.stm
                                && doms_within(ch@[i].dom@, rd) && region_facts(ch@[i].dom@) < region_facts(rd),
                        leaves_ok(&setup0, leaves@.subrange(l0, leaves.len() as int), rd, r.stm),
                        rems_ok(&setup0, open@.subrange(o0, open.len() as int), rd, r.stm),
                        split3(
                            leaf_doms(leaves@.subrange(l0, leaves.len() as int)),
                            rem_doms(open@.subrange(o0, open.len() as int)),
                            map_doms(ch@, |c: Region| c.dom@),
                            members(rd),
                        ),
                    decreases ch.len(),
                {
                    let ghost cd = map_doms(ch@, |c: Region| c.dom@);
                    let ghost ch_before = ch@;
                    let ghost lv_before = leaves@;
                    let ghost op_before = open@;
                    let c = ch.pop().unwrap();
                    proof {
                        assert(c == ch_before[ch_before.len() - 1]);
                        assert(fine(&setup0, c.dom@) && doms_within(c.dom@, rd) && region_facts(c.dom@) < region_facts(rd));
                        assert(cd.last() == c.dom@);
                        assert(ch@ =~= ch_before.drop_last());
                        assert(map_doms(ch@, |c: Region| c.dom@) =~= cd.drop_last());
                    }
                    self.legal_split(c, leaves, open);
                    proof {
                        let dd = leaf_doms(leaves@.subrange(lv_before.len() as int, leaves@.len() as int));
                        let nn = rem_doms(open@.subrange(op_before.len() as int, open@.len() as int));
                        lemma_split3_take_last(
                            leaf_doms(lv_before.subrange(l0, lv_before.len() as int)),
                            rem_doms(op_before.subrange(o0, op_before.len() as int)),
                            cd,
                            dd,
                            nn,
                            members(rd),
                        );
                        lemma_suffix_grow(lv_before, leaves@, l0, lv_before.len() as int);
                        lemma_suffix_grow(op_before, open@, o0, op_before.len() as int);
                        assert(leaf_doms(leaves@.subrange(l0, leaves@.len() as int)) =~= leaf_doms(
                            lv_before.subrange(l0, lv_before.len() as int),
                        ) + dd);
                        assert(rem_doms(open@.subrange(o0, open@.len() as int)) =~= rem_doms(
                            op_before.subrange(o0, op_before.len() as int),
                        ) + nn);
                        let nl = leaves@.subrange(l0, leaves@.len() as int);
                        assert forall|i: int| 0 <= i < nl.len() implies #[trigger] leaf_ok_at(&setup0, nl, rd, r.stm, i) by {
                            if i + l0 >= lv_before.len() {
                                let j = i + l0 - lv_before.len();
                                let sfx = leaves@.subrange(lv_before.len() as int, leaves@.len() as int);
                                assert(nl[i] == sfx[j]);
                                assert(leaf_ok_at(&setup0, sfx, cd.last(), r.stm, j));
                                lemma_within_trans(nl[i].region.dom@, cd.last(), rd);
                            } else {
                                let old_sfx = lv_before.subrange(l0, lv_before.len() as int);
                                assert(nl[i] == old_sfx[i]);
                                assert(leaf_ok_at(&setup0, old_sfx, rd, r.stm, i));
                            }
                        }
                        let no = open@.subrange(o0, open@.len() as int);
                        assert forall|i: int| 0 <= i < no.len() implies #[trigger] rems_ok_at(&setup0, no, rd, r.stm, i) by {
                            if i + o0 >= op_before.len() {
                                let j = i + o0 - op_before.len();
                                let sfx = open@.subrange(op_before.len() as int, open@.len() as int);
                                assert(no[i] == sfx[j]);
                                assert(rems_ok_at(&setup0, sfx, cd.last(), r.stm, j));
                                lemma_within_trans(no[i].0.dom@, cd.last(), rd);
                            } else {
                                let old_sfx = op_before.subrange(o0, op_before.len() as int);
                                assert(no[i] == old_sfx[i]);
                                assert(rems_ok_at(&setup0, old_sfx, rd, r.stm, i));
                            }
                        }
                    }
                }
                proof {
                    lemma_splits_of_split3(
                        leaf_doms(leaves@.subrange(l0, leaves.len() as int)),
                        rem_doms(open@.subrange(o0, open.len() as int)),
                        map_doms(ch@, |c: Region| c.dom@),
                        members(rd),
                    );
                }
            },
        }
    }

    /// Settle the open parts at one depth: those `mate_in` (or `mated_in`)
    /// answers yes become leaves with `verdict`, the others stay open.
    fn deepen(&mut self, open: Vec<(Region, Pattern)>, d: u16, mated: bool, verdict: Verdict, leaves: &mut Vec<Leaf>, ghost_root: Ghost<Seq<Dom>>, ghost_stm: Ghost<Color>) -> (next: Vec<(Region, Pattern)>)
        requires
            old(self).setup.wf(),
            verdict != Verdict::Illegal,
            rems_ok(&old(self).setup, open@, ghost_root@, ghost_stm@),
            leaves_ok(&old(self).setup, old(leaves)@, ghost_root@, ghost_stm@),
            splits(leaf_doms(old(leaves)@) + rem_doms(open@), members(ghost_root@)),
        ensures
            final(self).setup == old(self).setup,
            rems_ok(&old(self).setup, next@, ghost_root@, ghost_stm@),
            leaves_ok(&old(self).setup, final(leaves)@, ghost_root@, ghost_stm@),
            splits(leaf_doms(final(leaves)@) + rem_doms(next@), members(ghost_root@)),
    {
        let ghost setup0 = self.setup;
        let ghost root = ghost_root@;
        let ghost stm = ghost_stm@;
        let mut next: Vec<(Region, Pattern)> = Vec::new();
        proof {
            lemma_split3_of_splits(leaf_doms(leaves@), rem_doms(open@), members(root));
            let e = Seq::<Seq<Dom>>::empty();
            assert(rem_doms(next@) =~= e);
            assert(rem_doms(open@).subrange(0, open@.len() as int) =~= rem_doms(open@));
            assert forall|p: Seq<Option<Sq>>| #[trigger] members(root)(p) <==> in_some(leaf_doms(leaves@), p) || in_some(
                rem_doms(next@),
                p,
            ) || in_some(rem_doms(open@).subrange(0, open@.len() as int), p) by {}
        }
        let mut k: usize = 0;
        while k < open.len()
            invariant
                0 <= k <= open.len(),
                self.setup == setup0,
                setup0.wf(),
                verdict != Verdict::Illegal,
                rems_ok(&setup0, open@, root, stm),
                rems_ok(&setup0, next@, root, stm),
                leaves_ok(&setup0, leaves@, root, stm),
                split3(leaf_doms(leaves@), rem_doms(next@), rem_doms(open@).subrange(k as int, open@.len() as int), members(root)),
            decreases open.len() - k,
        {
            let r = Self::copy_region(&open[k].0);
            let acc = Self::copy_pattern(&open[k].1);
            let ghost x = r.dom@;
            let ghost cd = rem_doms(open@).subrange(k as int, open@.len() as int);
            let ghost lv_before = leaves@;
            let ghost nx_before = next@;
            proof {
                assert(rems_ok_at(&setup0, open@, root, stm, k as int));
                assert(cd[0] == x);
                assert(cd.drop_first() =~= rem_doms(open@).subrange(k + 1, open@.len() as int));
            }
            let parts = if mated {
                self.mated_in(r, d)
            } else {
                self.mate_in(r, d)
            };
            let ghost pd = part_doms(parts@);
            proof {
                let e = Seq::<Seq<Dom>>::empty();
                assert(leaf_doms(leaves@.subrange(lv_before.len() as int, lv_before.len() as int)) =~= e);
                assert(rem_doms(next@.subrange(nx_before.len() as int, nx_before.len() as int)) =~= e);
                assert forall|p: Seq<Option<Sq>>| #[trigger] first_parts(pd, 0)(p) == (in_some(e, p) || in_some(e, p) || in_some(
                    e,
                    p,
                )) by {}
            }
            let mut j: usize = 0;
            while j < parts.len()
                invariant
                    0 <= j <= parts.len(),
                    self.setup == setup0,
                    setup0.wf(),
                    verdict != Verdict::Illegal,
                    pd == part_doms(parts@),
                    parts_ok(&setup0, parts@, x, stm),
                    splits(pd, members(x)),
                    rems_ok_at(&setup0, open@, root, stm, k as int),
                    x == open@[k as int].0.dom@,
                    acc.dom.len() == setup0.slots.len(),
                    lv_before.len() <= leaves.len(),
                    nx_before.len() <= next.len(),
                    leaves@.subrange(0, lv_before.len() as int) == lv_before,
                    next@.subrange(0, nx_before.len() as int) == nx_before,
                    leaves_ok(&setup0, leaves@, root, stm),
                    rems_ok(&setup0, next@, root, stm),
                    split3(
                        leaf_doms(leaves@.subrange(lv_before.len() as int, leaves@.len() as int)),
                        rem_doms(next@.subrange(nx_before.len() as int, next@.len() as int)),
                        Seq::empty(),
                        first_parts(pd, j as int),
                    ),
                decreases parts.len() - j,
            {
                let sub = Self::copy_region(&parts[j].0);
                let v = parts[j].1;
                let p = Self::copy_pattern(&parts[j].2);
                let ghost y = sub.dom@;
                let ghost l1 = leaves@;
                let ghost n1 = next@;
                let ghost fj = first_parts(pd, j as int);
                proof {
                    assert(parts_ok_at(&setup0, parts@, x, stm, j as int));
                    assert(rems_ok_at(&setup0, open@, root, stm, k as int));
                    lemma_within_trans(y, x, root);
                    assert(pd[j as int] == y);
                    assert forall|q: Seq<Option<Sq>>| !(#[trigger] fj(q) && member(y, q)) by {
                        if fj(q) && member(y, q) {
                            let i = choose|i: int| 0 <= i < j && #[trigger] member(pd[i], q);
                            assert(member(pd[j as int], q));
                        }
                    }
                    assert forall|q: Seq<Option<Sq>>| #[trigger] union_set(fj, members(y))(q) == first_parts(pd, j + 1)(q) by {
                        if first_parts(pd, j + 1)(q) && !fj(q) {
                            let i = choose|i: int| 0 <= i < j + 1 && #[trigger] member(pd[i], q);
                            assert(i == j);
                        }
                        if member(y, q) {
                            assert(member(pd[j as int], q));
                        }
                    }
                }
                let pat = acc.meet(&p);
                if v {
                    leaves.push(Leaf { region: sub, verdict, pattern: pat });
                    proof {
                        lemma_split3_push_a(
                            leaf_doms(l1.subrange(lv_before.len() as int, l1.len() as int)),
                            rem_doms(next@.subrange(nx_before.len() as int, next@.len() as int)),
                            Seq::empty(),
                            y,
                            fj,
                        );
                        lemma_split3_equiv(
                            leaf_doms(l1.subrange(lv_before.len() as int, l1.len() as int)).push(y),
                            rem_doms(next@.subrange(nx_before.len() as int, next@.len() as int)),
                            Seq::empty(),
                            union_set(fj, members(y)),
                            first_parts(pd, j + 1),
                        );
                        lemma_suffix_push(l1, leaves@.last(), lv_before.len() as int);
                        assert(leaves@ =~= l1.push(leaves@.last()));
                        lemma_map_doms_push(l1.subrange(lv_before.len() as int, l1.len() as int), |l: Leaf| l.region.dom@, leaves@.last());
                        assert(leaves@.subrange(0, lv_before.len() as int) =~= l1.subrange(0, lv_before.len() as int));
                        assert forall|i: int| 0 <= i < leaves@.len() implies #[trigger] leaf_ok_at(&setup0, leaves@, root, stm, i) by {
                            if i < l1.len() {
                                assert(leaves@[i] == l1[i]);
                                assert(leaf_ok_at(&setup0, l1, root, stm, i));
                            }
                        }
                    }
                } else {
                    next.push((sub, pat));
                    proof {
                        lemma_split3_push_b(
                            leaf_doms(leaves@.subrange(lv_before.len() as int, leaves@.len() as int)),
                            rem_doms(n1.subrange(nx_before.len() as int, n1.len() as int)),
                            Seq::empty(),
                            y,
                            fj,
                        );
                        lemma_split3_equiv(
                            leaf_doms(leaves@.subrange(lv_before.len() as int, leaves@.len() as int)),
                            rem_doms(n1.subrange(nx_before.len() as int, n1.len() as int)).push(y),
                            Seq::empty(),
                            union_set(fj, members(y)),
                            first_parts(pd, j + 1),
                        );
                        lemma_suffix_push(n1, next@.last(), nx_before.len() as int);
                        assert(next@ =~= n1.push(next@.last()));
                        lemma_map_doms_push(n1.subrange(nx_before.len() as int, n1.len() as int), |y: (Region, Pattern)| y.0.dom@, next@.last());
                        assert(next@.subrange(0, nx_before.len() as int) =~= n1.subrange(0, nx_before.len() as int));
                        assert forall|i: int| 0 <= i < next@.len() implies #[trigger] rems_ok_at(&setup0, next@, root, stm, i) by {
                            if i < n1.len() {
                                assert(next@[i] == n1[i]);
                                assert(rems_ok_at(&setup0, n1, root, stm, i));
                            }
                        }
                    }
                }
                j += 1;
            }
            proof {
                let dd = leaf_doms(leaves@.subrange(lv_before.len() as int, leaves@.len() as int));
                let nn = rem_doms(next@.subrange(nx_before.len() as int, next@.len() as int));
                let e = Seq::<Seq<Dom>>::empty();
                assert forall|q: Seq<Option<Sq>>| #[trigger] first_parts(pd, parts@.len() as int)(q) == members(x)(q) by {
                    if member(x, q) {
                        assert(in_some(pd, q));
                        let i = choose|i: int| 0 <= i < pd.len() && #[trigger] member(pd[i], q);
                    }
                    if first_parts(pd, parts@.len() as int)(q) {
                        let i = choose|i: int| 0 <= i < parts@.len() && #[trigger] member(pd[i], q);
                        assert(in_some(pd, q));
                    }
                }
                lemma_split3_equiv(dd, nn, e, first_parts(pd, parts@.len() as int), members(x));
                lemma_splits_of_split3(dd, nn, e, members(x));
                lemma_split3_take_first(leaf_doms(lv_before), rem_doms(nx_before), cd, dd, nn, members(root));
                lemma_suffix_grow(lv_before, leaves@, 0, lv_before.len() as int);
                lemma_suffix_grow(nx_before, next@, 0, nx_before.len() as int);
                assert(leaves@ =~= lv_before + leaves@.subrange(lv_before.len() as int, leaves@.len() as int));
                assert(next@ =~= nx_before + next@.subrange(nx_before.len() as int, next@.len() as int));
                assert(leaf_doms(leaves@) =~= leaf_doms(lv_before) + dd);
                assert(rem_doms(next@) =~= rem_doms(nx_before) + nn);
            }
            k += 1;
        }
        proof {
            lemma_splits_of_split3(leaf_doms(leaves@), rem_doms(next@), rem_doms(open@).subrange(k as int, open@.len() as int), members(root));
        }
        next
    }
}

impl Engine {
    /// Partition `root` by game value, deepening the mate horizon one ply at
    /// a time up to `dmax` (so a Win/Loss leaf carries its exact DTM). Draw
    /// means "no forced mate within dmax" — exact when dmax is the true
    /// maximum DTM of the material. The leaves split the root: every
    /// position of it lies in exactly one leaf.
    pub fn solve(&mut self, root: Region, dmax: u16) -> (leaves: Vec<Leaf>)
        requires
            old(self).setup_spec().wf(),
            fine(&old(self).setup_spec(), root.dom@),
        ensures
            final(self).setup_spec() == old(self).setup_spec(),
            leaves_ok(&old(self).setup_spec(), leaves@, root.dom@, root.stm),
            forall|k: int, p: Seq<Option<Sq>>|
                0 <= k < leaves.len() && leaves@[k].verdict == Verdict::Illegal && #[trigger] member(leaves@[k].region.dom@, p)
                    ==> !crate::board::is_legal_spec(&old(self).setup_spec(), p, leaves@[k].region.stm),
            splits(leaf_doms(leaves@), members(root.dom@)),
    {
        self.solve_with(root, dmax, false)
    }

    /// `direct`: evaluate the full horizon at once (WDL only, DTM reported
    /// as the horizon) instead of deepening ply by ply.
    pub fn solve_with(&mut self, root: Region, dmax: u16, direct: bool) -> (leaves: Vec<Leaf>)
        requires
            old(self).setup_spec().wf(),
            fine(&old(self).setup_spec(), root.dom@),
        ensures
            final(self).setup_spec() == old(self).setup_spec(),
            leaves_ok(&old(self).setup_spec(), leaves@, root.dom@, root.stm),
            forall|k: int, p: Seq<Option<Sq>>|
                0 <= k < leaves.len() && leaves@[k].verdict == Verdict::Illegal && #[trigger] member(leaves@[k].region.dom@, p)
                    ==> !crate::board::is_legal_spec(&old(self).setup_spec(), p, leaves@[k].region.stm),
            splits(leaf_doms(leaves@), members(root.dom@)),
    {
        let ghost setup0 = self.setup;
        let ghost rd = root.dom@;
        let ghost stm = root.stm;
        let mut leaves: Vec<Leaf> = Vec::new();
        let mut open: Vec<(Region, Pattern)> = Vec::new();
        // Legality of the side not to move.
        self.legal_split(root, &mut leaves, &mut open);
        proof {
            assert(leaves@.subrange(0, leaves@.len() as int) =~= leaves@);
            assert(open@.subrange(0, open@.len() as int) =~= open@);
        }
        let mut win_depths: Vec<u16> = Vec::new();
        let mut loss_depths: Vec<u16> = Vec::new();
        if direct {
            win_depths.push(dmax | 1);
            loss_depths.push(dmax & !1u16);
        } else {
            let mut w: u32 = 1;
            while w <= dmax as u32
                invariant
                    w <= dmax as u32 + 2,
                decreases dmax as u32 + 2 - w,
            {
                win_depths.push(w as u16);
                w += 2;
            }
            let mut l: u32 = 0;
            while l <= dmax as u32
                invariant
                    l <= dmax as u32 + 2,
                decreases dmax as u32 + 2 - l,
            {
                loss_depths.push(l as u16);
                l += 2;
            }
        }
        // Wins for the side to move, shallowest first.
        let mut i: usize = 0;
        while i < win_depths.len()
            invariant
                self.setup == setup0,
                setup0.wf(),
                rems_ok(&setup0, open@, rd, stm),
                leaves_ok(&setup0, leaves@, rd, stm),
                splits(leaf_doms(leaves@) + rem_doms(open@), members(rd)),
            decreases win_depths.len() - i,
        {
            let d = win_depths[i];
            open = self.deepen(open, d, false, Verdict::Win(d), &mut leaves, Ghost(rd), Ghost(stm));
            i += 1;
        }
        // Losses for the side to move among the rest, shallowest first.
        let mut i: usize = 0;
        while i < loss_depths.len()
            invariant
                self.setup == setup0,
                setup0.wf(),
                rems_ok(&setup0, open@, rd, stm),
                leaves_ok(&setup0, leaves@, rd, stm),
                splits(leaf_doms(leaves@) + rem_doms(open@), members(rd)),
            decreases loss_depths.len() - i,
        {
            let d = loss_depths[i];
            open = self.deepen(open, d, true, Verdict::Loss(d), &mut leaves, Ghost(rd), Ghost(stm));
            i += 1;
        }
        // The rest: no forced mate within the horizon.
        proof {
            let e = Seq::<Seq<Dom>>::empty();
            lemma_split3_of_splits(leaf_doms(leaves@), rem_doms(open@), members(rd));
            assert(rem_doms(open@).subrange(0, open@.len() as int) =~= rem_doms(open@));
            assert forall|p: Seq<Option<Sq>>| #[trigger] members(rd)(p) <==> in_some(leaf_doms(leaves@), p) || in_some(e, p)
                || in_some(rem_doms(open@).subrange(0, open@.len() as int), p) by {}
        }
        let mut k: usize = 0;
        while k < open.len()
            invariant
                0 <= k <= open.len(),
                self.setup == setup0,
                setup0.wf(),
                rems_ok(&setup0, open@, rd, stm),
                leaves_ok(&setup0, leaves@, rd, stm),
                split3(leaf_doms(leaves@), Seq::empty(), rem_doms(open@).subrange(k as int, open@.len() as int), members(rd)),
            decreases open.len() - k,
        {
            let r = Self::copy_region(&open[k].0);
            let p = Self::copy_pattern(&open[k].1);
            let ghost x = r.dom@;
            let ghost cd = rem_doms(open@).subrange(k as int, open@.len() as int);
            let ghost lv_before = leaves@;
            proof {
                assert(rems_ok_at(&setup0, open@, rd, stm, k as int));
                assert(cd[0] == x);
                assert(cd.drop_first() =~= rem_doms(open@).subrange(k + 1, open@.len() as int));
            }
            leaves.push(Leaf { region: r, verdict: Verdict::Draw, pattern: p });
            proof {
                let e = Seq::<Seq<Dom>>::empty();
                lemma_splits_single(x);
                assert(seq![x] + e =~= seq![x]);
                lemma_split3_take_first(leaf_doms(lv_before), e, cd, seq![x], e, members(rd));
                lemma_map_doms_push(lv_before, |l: Leaf| l.region.dom@, leaves@.last());
                assert(leaves@ =~= lv_before.push(leaves@.last()));
                assert(leaf_doms(lv_before) + seq![x] =~= leaf_doms(lv_before).push(x));
                assert(e + e =~= e);
                assert forall|j: int| 0 <= j < leaves@.len() implies #[trigger] leaf_ok_at(&setup0, leaves@, rd, stm, j) by {
                    if j < lv_before.len() {
                        assert(leaves@[j] == lv_before[j]);
                        assert(leaf_ok_at(&setup0, lv_before, rd, stm, j));
                    }
                }
            }
            k += 1;
        }
        proof {
            let e = Seq::<Seq<Dom>>::empty();
            lemma_splits_of_split3(leaf_doms(leaves@), e, rem_doms(open@).subrange(k as int, open@.len() as int), members(rd));
            assert(leaf_doms(leaves@) + e =~= leaf_doms(leaves@));
        }
        self.counters.queries = self.queries;
        proof {
            assert forall|k: int, p: Seq<Option<Sq>>|
                0 <= k < leaves.len() && leaves@[k].verdict == Verdict::Illegal && #[trigger] member(leaves@[k].region.dom@, p)
                    implies !crate::board::is_legal_spec(&setup0, p, leaves@[k].region.stm) by {
                assert(leaf_ok_at(&setup0, leaves@, rd, stm, k));
            }
        }
        leaves
    }
}

// ---------------------------------------------------------------------
// Checking the leaves against the table
// ---------------------------------------------------------------------

/// At most the largest `usize`: what a saturating count reaches.
pub open spec fn capped(x: int) -> int {
    if x > usize::MAX {
        usize::MAX as int
    } else {
        x
    }
}

/// The legal table indices below `c`, in increasing order.
pub open spec fn legal_indices(vals: Seq<Val>, c: int) -> Seq<int>
    decreases c,
{
    if c <= 0 {
        Seq::empty()
    } else if vals[c - 1] != Val::Illegal {
        legal_indices(vals, c - 1).push(c - 1)
    } else {
        legal_indices(vals, c - 1)
    }
}

/// The list's entries are the legal indices of the table, in increasing
/// order, each once.
pub open spec fn legal_order(vals: Seq<Val>, legal: Seq<(usize, Position, Val)>) -> bool {
    &&& legal.len() == legal_indices(vals, vals.len() as int).len()
    &&& forall|x: int| 0 <= x < legal.len() ==> (#[trigger] legal[x]).0 as int == legal_indices(vals, vals.len() as int)[x]
}

/// The number of legal positions of the table with `stm` to move whose
/// squares the facts `pat` allow.
pub open spec fn pattern_hits(setup: &Setup, vals: Seq<Val>, stm: Color, pat: Seq<Dom>) -> nat {
    crate::retro::count_upto(
        vals.len() as int,
        |i: int| vals[i] != Val::Illegal && position_stm(i) == stm && satisfies(pat, position_sqs(setup, i)),
    )
}

/// Leaf `j` carries a verdict, and no earlier leaf with a verdict has its
/// side to move and its facts.
pub open spec fn first_pattern(leaves: Seq<Leaf>, j: int) -> bool {
    &&& leaves[j].verdict != Verdict::Illegal
    &&& forall|j2: int|
        0 <= j2 < j && (#[trigger] leaves[j2]).verdict != Verdict::Illegal ==> !(leaves[j2].region.stm == leaves[j].region.stm
            && leaves[j2].pattern.dom@ == leaves[j].pattern.dom@)
}

/// How many distinct (side to move, facts) pairs the leaves before `k`
/// with a verdict carry.
pub open spec fn patterns_upto(leaves: Seq<Leaf>, k: int) -> int
    decreases k,
{
    if k <= 0 {
        0
    } else {
        patterns_upto(leaves, k - 1) + if first_pattern(leaves, k - 1) {
            1int
        } else {
            0int
        }
    }
}

/// Over the distinct (side to move, facts) pairs of the leaves before `k`
/// with a verdict, the legal positions with that side to move the facts
/// allow, summed.
pub open spec fn hits_upto(setup: &Setup, vals: Seq<Val>, leaves: Seq<Leaf>, k: int) -> int
    decreases k,
{
    if k <= 0 {
        0
    } else {
        hits_upto(setup, vals, leaves, k - 1) + if first_pattern(leaves, k - 1) {
            pattern_hits(setup, vals, leaves[k - 1].region.stm, leaves[k - 1].pattern.dom@) as int
        } else {
            0int
        }
    }
}

/// The entries of `legal[..j]` with `stm` to move whose squares `pat`
/// allows.
pub open spec fn entry_hits(legal: Seq<(usize, Position, Val)>, stm: Color, pat: Seq<Dom>, j: int) -> int
    decreases j,
{
    if j <= 0 {
        0
    } else {
        entry_hits(legal, stm, pat, j - 1) + if legal[j - 1].1.stm == stm && satisfies(pat, legal[j - 1].1.sqs@) {
            1int
        } else {
            0int
        }
    }
}

proof fn lemma_legal_indices_prefix(vals: Seq<Val>, c: int, c2: int)
    requires
        0 <= c <= c2,
    ensures
        legal_indices(vals, c).len() <= legal_indices(vals, c2).len(),
        forall|x: int| 0 <= x < legal_indices(vals, c).len() ==> #[trigger] legal_indices(vals, c)[x] == legal_indices(vals, c2)[x],
    decreases c2,
{
    if c < c2 {
        lemma_legal_indices_prefix(vals, c, c2 - 1);
    }
}

proof fn lemma_entry_hits_upto(
    setup: &Setup,
    vals: Seq<Val>,
    legal: Seq<(usize, Position, Val)>,
    stm: Color,
    pat: Seq<Dom>,
    c: int,
)
    requires
        0 <= c <= vals.len(),
        legal_list(setup, vals, legal),
        legal_order(vals, legal),
    ensures
        entry_hits(legal, stm, pat, legal_indices(vals, c).len() as int) == crate::retro::count_upto(
            c,
            |i: int| vals[i] != Val::Illegal && position_stm(i) == stm && satisfies(pat, position_sqs(setup, i)),
        ),
    decreases c,
{
    if c > 0 {
        lemma_entry_hits_upto(setup, vals, legal, stm, pat, c - 1);
        lemma_legal_indices_prefix(vals, c, vals.len() as int);
        lemma_legal_indices_prefix(vals, c - 1, c);
        if vals[c - 1] != Val::Illegal {
            let x = legal_indices(vals, c - 1).len() as int;
            assert(legal_indices(vals, c)[x] == c - 1);
            assert(legal[x].0 as int == c - 1);
            assert(legal[x].1.sqs@ == position_sqs(setup, c - 1));
        }
    }
}

/// Counting the list's entries is counting the table's legal positions.
proof fn lemma_entry_hits(setup: &Setup, vals: Seq<Val>, legal: Seq<(usize, Position, Val)>, stm: Color, pat: Seq<Dom>)
    requires
        legal_list(setup, vals, legal),
        legal_order(vals, legal),
    ensures
        entry_hits(legal, stm, pat, legal.len() as int) == pattern_hits(setup, vals, stm, pat),
{
    lemma_entry_hits_upto(setup, vals, legal, stm, pat, vals.len() as int);
}

pub struct NarrowReport {
    pub illegal: usize,
    pub win: usize,
    pub loss: usize,
    pub draw: usize,
    pub patterns: usize,
    pub pattern_matches: usize,
    pub error: Option<String>,
}

/// A leaf's verdict agrees with a table value: the same depth, or with
/// `direct` (the horizon given as the depth) no deeper.
pub open spec fn agrees_spec(verdict: Verdict, v: Val, direct: bool) -> bool {
    match (verdict, v) {
        (Verdict::Win(d), Val::Win(e)) => if direct {
            e <= d
        } else {
            d == e
        },
        (Verdict::Loss(d), Val::Loss(e)) => if direct {
            e <= d
        } else {
            d == e
        },
        (Verdict::Draw, Val::Draw) => true,
        _ => false,
    }
}

/// The table agrees with the leaf at position `p` of its region.
pub open spec fn leaf_agrees(setup: &Setup, vals: Seq<Val>, leaf: Leaf, p: Seq<Option<Sq>>, direct: bool) -> bool {
    let v = vals[index_spec(setup, p, leaf.region.stm)];
    if leaf.verdict == Verdict::Illegal {
        v == Val::Illegal
    } else {
        v != Val::Illegal && agrees_spec(leaf.verdict, v, direct)
    }
}

/// How many of the first `k` leaves carry a verdict of the kind `tag`
/// (0 illegal, 1 win, 2 loss, 3 draw).
pub open spec fn count_kind(leaves: Seq<Leaf>, k: int, tag: int) -> nat
    decreases k,
{
    if k <= 0 {
        0
    } else {
        count_kind(leaves, k - 1, tag) + if verdict_tag(leaves[k - 1].verdict) == tag {
            1nat
        } else {
            0nat
        }
    }
}

pub open spec fn verdict_tag(v: Verdict) -> int {
    match v {
        Verdict::Illegal => 0,
        Verdict::Win(_) => 1,
        Verdict::Loss(_) => 2,
        Verdict::Draw => 3,
    }
}

fn agrees(verdict: Verdict, v: Val, direct: bool) -> (r: bool)
    ensures
        r == agrees_spec(verdict, v, direct),
{
    match (verdict, v) {
        (Verdict::Win(d), Val::Win(e)) => if direct {
            e <= d
        } else {
            d == e
        },
        (Verdict::Loss(d), Val::Loss(e)) => if direct {
            e <= d
        } else {
            d == e
        },
        (Verdict::Draw, Val::Draw) => true,
        _ => false,
    }
}

/// How a verdict is written: its variant, and the depth in brackets.
pub open spec fn verdict_text(v: Verdict) -> Seq<char> {
    match v {
        Verdict::Illegal => "Illegal"@,
        Verdict::Draw => "Draw"@,
        Verdict::Win(d) => "Win("@ + crate::text::decimal(d as nat) + ")"@,
        Verdict::Loss(d) => "Loss("@ + crate::text::decimal(d as nat) + ")"@,
    }
}

/// Appends the written form of a verdict.
fn push_verdict(s: &mut String, v: Verdict)
    ensures
        final(s)@ == old(s)@ + verdict_text(v),
{
    match v {
        Verdict::Illegal => crate::text::push_str(s, "Illegal"),
        Verdict::Draw => crate::text::push_str(s, "Draw"),
        Verdict::Win(d) => {
            crate::text::push_str(s, "Win(");
            crate::text::push_decimal(s, d as u32);
            crate::text::push_str(s, ")");
        },
        Verdict::Loss(d) => {
            crate::text::push_str(s, "Loss(");
            crate::text::push_decimal(s, d as u32);
            crate::text::push_str(s, ")");
        },
    }
}

/// The same colour and facts.
fn same_key(a: &(Color, Pattern), stm: Color, p: &Pattern) -> (r: bool)
    ensures
        r == (a.0 == stm && a.1.dom@ == p.dom@),
{
    a.0 == stm && Engine::same_facts(&a.1, p)
}

/// Entry `x` of the list is a position with the leaf's side to move that
/// matches the leaf's pattern, and its value disagrees with the leaf.
pub open spec fn refutes(leaf: Leaf, e: (usize, Position, Val), direct: bool) -> bool {
    &&& e.1.stm == leaf.region.stm
    &&& satisfies(leaf.pattern.dom@, e.1.sqs@)
    &&& !agrees_spec(leaf.verdict, e.2, direct)
}

/// Every legal position with the leaf's side to move that matches its
/// pattern has a value that agrees with the leaf's verdict.
pub open spec fn pattern_sound(setup: &Setup, vals: Seq<Val>, leaf: Leaf, direct: bool) -> bool {
    forall|i: int|
        0 <= i < vals.len() && vals[i] != Val::Illegal && position_stm(i) == leaf.region.stm && #[trigger] satisfies(
            leaf.pattern.dom@,
            position_sqs(setup, i),
        ) ==> agrees_spec(leaf.verdict, vals[i], direct)
}

/// A legal position of `legal` matching the leaf's pattern whose value
/// disagrees with the leaf, as a message; `matches` counts the matching
/// positions seen.
fn pattern_unsound(
    setup: &Setup,
    leaf: &Leaf,
    legal: &Vec<(usize, Position, Val)>,
    direct: bool,
    matches: &mut usize,
) -> (err: Option<String>)
    requires
        setup.wf(),
        setup.area_spec() <= 64,
        forall|x: int|
            0 <= x < legal.len() ==> squares_below((#[trigger] legal@[x]).1.sqs@, setup.area_spec()) && legal@[x].1.sqs.len()
                == setup.slots.len(),
    ensures
        err is None <==> forall|x: int| 0 <= x < legal.len() ==> !refutes(*leaf, #[trigger] legal@[x], direct),
        err is None ==> *final(matches) == capped(
            *old(matches) + entry_hits(legal@, leaf.region.stm, leaf.pattern.dom@, legal.len() as int),
        ),
{
    let ghost m0: int = *matches as int;
    let mut j: usize = 0;
    while j < legal.len()
        invariant
            0 <= j <= legal.len(),
            entry_hits(legal@, leaf.region.stm, leaf.pattern.dom@, j as int) >= 0,
            *matches == capped(m0 + entry_hits(legal@, leaf.region.stm, leaf.pattern.dom@, j as int)),
            setup.wf(),
            setup.area_spec() <= 64,
            forall|x: int|
                0 <= x < legal.len() ==> squares_below((#[trigger] legal@[x]).1.sqs@, setup.area_spec())
                    && legal@[x].1.sqs.len() == setup.slots.len(),
            forall|x: int| 0 <= x < j ==> !refutes(*leaf, #[trigger] legal@[x], direct),
        decreases legal.len() - j,
    {
        let (li, lp, lv) = &legal[j];
        proof {
            assert(squares_below(legal@[j as int].1.sqs@, setup.area_spec()));
        }
        proof {
            assert(legal@[j as int].1 == *lp);
        }
        if lp.stm == leaf.region.stm && leaf.pattern.covers_position(lp) {
            *matches = matches.saturating_add(1);
            if !agrees(leaf.verdict, *lv, direct) {
                let mut msg = String::new();
                crate::text::push_str(&mut msg, "pattern unsound: position ");
                crate::text::push_decimal_u64(&mut msg, *li as u64);
                crate::text::push_str(&mut msg, " is ");
                crate::retro::push_val(&mut msg, *lv);
                crate::text::push_str(&mut msg, " but pattern says ");
                push_verdict(&mut msg, leaf.verdict);
                crate::text::push_str(&mut msg, "\n");
                let board = lp.render(setup);
                crate::text::push_str(&mut msg, board.as_str());
                proof {
                    assert(refutes(*leaf, legal@[j as int], direct));
                }
                return Some(msg);
            }
        }
        j += 1;
    }
    None
}

/// The list holds exactly the legal positions of the table: each entry an
/// index, its position and its value, and each legal index in some entry.
pub open spec fn legal_list(setup: &Setup, vals: Seq<Val>, legal: Seq<(usize, Position, Val)>) -> bool {
    &&& forall|j: int|
        0 <= j < legal.len() ==> (#[trigger] legal[j]).0 < vals.len() && legal[j].1.sqs@ == position_sqs(setup, legal[j].0 as int)
            && legal[j].1.stm == position_stm(legal[j].0 as int) && legal[j].2 == vals[legal[j].0 as int]
            && vals[legal[j].0 as int] != Val::Illegal
    &&& forall|c: int| 0 <= c < vals.len() && vals[c] != Val::Illegal ==> exists|j: int| 0 <= j < legal.len() && (#[trigger] legal[j]).0 == c
}

/// Leaf `j`, or a leaf before it with the same side to move and the same
/// facts, has a sound pattern.
pub open spec fn vouched(setup: &Setup, vals: Seq<Val>, leaves: Seq<Leaf>, j: int, direct: bool) -> bool {
    exists|j2: int|
        0 <= j2 <= j && leaves[j2].region.stm == leaves[j].region.stm && leaves[j2].pattern.dom@ == leaves[j].pattern.dom@
            && #[trigger] pattern_sound(setup, vals, leaves[j2], direct)
}

/// Each remembered pattern is that of a leaf before `k` whose pattern is
/// sound.
pub open spec fn patterns_known(setup: &Setup, vals: Seq<Val>, pats: Seq<(Color, Pattern)>, leaves: Seq<Leaf>, k: int, direct: bool) -> bool {
    forall|t: int|
        0 <= t < pats.len() ==> exists|j: int|
            0 <= j < k && leaves[j].region.stm == (#[trigger] pats[t]).0 && leaves[j].pattern.dom@ == pats[t].1.dom@
                && pattern_sound(setup, vals, leaves[j], direct) && leaves[j].verdict != Verdict::Illegal
}

/// Leaf `j` carries a verdict.
pub open spec fn has_verdict(leaves: Seq<Leaf>, j: int) -> bool {
    leaves[j].verdict != Verdict::Illegal
}

/// The pattern of every leaf before `k` with a verdict is remembered.
pub open spec fn patterns_complete(pats: Seq<(Color, Pattern)>, leaves: Seq<Leaf>, k: int) -> bool {
    forall|j: int|
        0 <= j < k && #[trigger] has_verdict(leaves, j) ==> exists|t: int|
            0 <= t < pats.len() && (#[trigger] pats[t]).0 == leaves[j].region.stm && pats[t].1.dom@ == leaves[j].pattern.dom@
}

/// Leaf `k`'s pattern passes the check: it is sound, or an earlier leaf
/// with a verdict has the same side to move and the same pattern.
pub open spec fn pattern_checked(setup: &Setup, vals: Seq<Val>, leaves: Seq<Leaf>, k: int, direct: bool) -> bool {
    ||| pattern_sound(setup, vals, leaves[k], direct)
    ||| exists|j: int|
        0 <= j < k && (#[trigger] leaves[j]).verdict != Verdict::Illegal && leaves[j].region.stm == leaves[k].region.stm
            && leaves[j].pattern.dom@ == leaves[k].pattern.dom@
}

/// Check the pattern of leaf `k` against the legal positions, unless an
/// earlier leaf had the same side to move and facts; remember it.
#[verifier::rlimit(40)]
fn check_pattern(
    setup: &Setup,
    vals: &Vec<Val>,
    leaves: &Vec<Leaf>,
    k: usize,
    legal: &Vec<(usize, Position, Val)>,
    direct: bool,
    patterns: &mut Vec<(Color, Pattern)>,
    count: &mut usize,
    matches: &mut usize,
) -> (err: Option<String>)
    requires
        setup.wf(),
        setup.area_spec() <= 64,
        k < leaves.len(),
        forall|x: int|
            0 <= x < legal.len() ==> squares_below((#[trigger] legal@[x]).1.sqs@, setup.area_spec()) && legal@[x].1.sqs.len()
                == setup.slots.len(),
        legal_list(setup, vals@, legal@),
        patterns_known(setup, vals@, old(patterns)@, leaves@, k as int, direct),
        patterns_complete(old(patterns)@, leaves@, k as int),
        leaves@[k as int].verdict != Verdict::Illegal,
        *old(count) <= k,
        legal_order(vals@, legal@),
    ensures
        err is None && first_pattern(leaves@, k as int) ==> *final(count) == *old(count) + 1 && *final(matches) == capped(
            *old(matches) + pattern_hits(setup, vals@, leaves@[k as int].region.stm, leaves@[k as int].pattern.dom@),
        ),
        err is None && !first_pattern(leaves@, k as int) ==> *final(count) == *old(count) && *final(matches) == *old(matches),
        *final(count) <= k + 1,
        err is None ==> patterns_known(setup, vals@, final(patterns)@, leaves@, k + 1, direct),
        err is None ==> patterns_complete(final(patterns)@, leaves@, k + 1),
        err is None ==> vouched(setup, vals@, leaves@, k as int, direct),
        err is None <==> pattern_checked(setup, vals@, leaves@, k as int, direct),
        err is Some ==> !pattern_sound(setup, vals@, leaves@[k as int], direct),
{
    let leaf = &leaves[k];
    let mut known = false;
    let mut j: usize = 0;
    while j < patterns.len() && !known
        invariant
            0 <= j <= patterns.len(),
            known ==> j > 0 && patterns@[j - 1].0 == leaf.region.stm && patterns@[j - 1].1.dom@ == leaf.pattern.dom@,
            !known ==> forall|t: int| 0 <= t < j ==> !((#[trigger] patterns@[t]).0 == leaf.region.stm && patterns@[t].1.dom@ == leaf.pattern.dom@),
        decreases patterns.len() - j,
    {
        if same_key(&patterns[j], leaf.region.stm, &leaf.pattern) {
            known = true;
        }
        j += 1;
    }
    if known {
        proof {
            let t = j - 1;
            let jj = choose|jj: int|
                0 <= jj < k && leaves@[jj].region.stm == (#[trigger] patterns@[t]).0 && leaves@[jj].pattern.dom@
                    == patterns@[t].1.dom@ && pattern_sound(setup, vals@, leaves@[jj], direct) && leaves@[jj].verdict != Verdict::Illegal;
            assert(pattern_sound(setup, vals@, leaves@[jj], direct));
            assert(leaves@[jj].verdict != Verdict::Illegal);
            assert(!first_pattern(leaves@, k as int));
            assert(pattern_checked(setup, vals@, leaves@, k as int, direct));
            assert forall|j2: int| 0 <= j2 < k + 1 && #[trigger] has_verdict(leaves@, j2) implies exists|t2: int|
                0 <= t2 < patterns.len() && (#[trigger] patterns@[t2]).0 == leaves@[j2].region.stm && patterns@[t2].1.dom@ == leaves@[j2].pattern.dom@ by {
                if j2 == k {
                    assert(patterns@[t].0 == leaves@[j2].region.stm);
                }
            }
        }
        return None;
    }
    proof {
        assert forall|j2: int| 0 <= j2 < k && (#[trigger] leaves@[j2]).verdict != Verdict::Illegal && leaves@[j2].region.stm == leaves@[k as int].region.stm
            implies leaves@[j2].pattern.dom@ != leaves@[k as int].pattern.dom@ by {
            assert(has_verdict(leaves@, j2));
            let t = choose|t: int| 0 <= t < patterns.len() && (#[trigger] patterns@[t]).0 == leaves@[j2].region.stm && patterns@[t].1.dom@ == leaves@[j2].pattern.dom@;
        }
    }
    let ghost pats_before = patterns@;
    patterns.push((leaf.region.stm, Engine::copy_pattern(&leaf.pattern)));
    *count = *count + 1;
    let res = pattern_unsound(setup, leaf, legal, direct, matches);
    proof {
        if res is Some {
            let x = choose|x: int| 0 <= x < legal.len() && refutes(*leaf, #[trigger] legal@[x], direct);
            let i = legal@[x].0 as int;
            assert(satisfies(leaf.pattern.dom@, position_sqs(setup, i)));
            assert(leaves@[k as int] == *leaf);
        }
    }
    if res.is_none() {
        proof {
            lemma_entry_hits(setup, vals@, legal@, leaf.region.stm, leaf.pattern.dom@);
            assert(leaves@[k as int] == *leaf);
            assert(first_pattern(leaves@, k as int));
            assert forall|i: int|
                0 <= i < vals@.len() && vals@[i] != Val::Illegal && position_stm(i) == leaf.region.stm && #[trigger] satisfies(
                    leaf.pattern.dom@,
                    position_sqs(setup, i),
                ) implies agrees_spec(leaf.verdict, vals@[i], direct) by {
                let x = choose|x: int| 0 <= x < legal.len() && (#[trigger] legal@[x]).0 == i;
                assert(!refutes(*leaf, legal@[x], direct));
            }
            assert(pattern_sound(setup, vals@, *leaf, direct));
            assert(leaves@[k as int] == *leaf);
            assert forall|t: int| 0 <= t < patterns.len() implies exists|jj: int|
                0 <= jj < k + 1 && leaves@[jj].region.stm == (#[trigger] patterns@[t]).0 && leaves@[jj].pattern.dom@
                    == patterns@[t].1.dom@ && pattern_sound(setup, vals@, leaves@[jj], direct) && leaves@[jj].verdict != Verdict::Illegal by {
                if t < pats_before.len() {
                    assert(patterns@[t] == pats_before[t]);
                } else {
                    assert(patterns@[t].0 == leaves@[k as int].region.stm);
                }
            }
            assert forall|j2: int| 0 <= j2 < k + 1 && #[trigger] has_verdict(leaves@, j2) implies exists|t2: int|
                0 <= t2 < patterns.len() && (#[trigger] patterns@[t2]).0 == leaves@[j2].region.stm && patterns@[t2].1.dom@ == leaves@[j2].pattern.dom@ by {
                if j2 == k {
                    assert(patterns@[pats_before.len() as int].0 == leaves@[j2].region.stm);
                } else {
                    let t2 = choose|t2: int| 0 <= t2 < pats_before.len() && (#[trigger] pats_before[t2]).0 == leaves@[j2].region.stm && pats_before[t2].1.dom@ == leaves@[j2].pattern.dom@;
                    assert(patterns@[t2] == pats_before[t2]);
                }
            }
        }
    }
    res
}

/// The leaves pass the check against the table: each pattern covers its
/// region, each position of a region agrees with the leaf, no position lies
/// in two leaves with verdicts, each pattern is checked, and every legal
/// position lies in some leaf.
pub open spec fn narrow_ok(setup: &Setup, vals: Seq<Val>, leaves: Seq<Leaf>, direct: bool) -> bool {
    &&& forall|k: int, d: int|
        0 <= k < leaves.len() && 0 <= d < leaves[k].region.dom.len() && d < leaves[k].pattern.dom.len()
            ==> #[trigger] dom_within(leaves[k].region.dom@[d], leaves[k].pattern.dom@[d])
    &&& forall|k: int, p: Seq<Option<Sq>>|
        0 <= k < leaves.len() && #[trigger] member(leaves[k].region.dom@, p) ==> leaf_agrees(setup, vals, leaves[k], p, direct)
    &&& forall|j: int, k: int, p: Seq<Option<Sq>>|
        0 <= j < k < leaves.len() && leaves[j].verdict != Verdict::Illegal && leaves[k].verdict != Verdict::Illegal
            && leaves[j].region.stm == leaves[k].region.stm && #[trigger] member(leaves[j].region.dom@, p) ==> !#[trigger] member(
            leaves[k].region.dom@,
            p,
        )
    &&& forall|k: int| 0 <= k < leaves.len() && #[trigger] has_verdict(leaves, k) ==> pattern_checked(setup, vals, leaves, k, direct)
    &&& forall|i: int|
        #![trigger position_sqs(setup, i)]
        0 <= i < vals.len() && vals[i] != Val::Illegal ==> exists|k: int|
            0 <= k < leaves.len() && member(leaves[k].region.dom@, position_sqs(setup, i)) && leaves[k].region.stm == position_stm(i)
}

/// A position of a leaf's region that disagrees with the leaf fails the check.
proof fn lemma_disagree_fails(setup: &Setup, vals: Seq<Val>, leaves: Seq<Leaf>, direct: bool, k: int, p: Seq<Option<Sq>>)
    requires
        0 <= k < leaves.len(),
        member(leaves[k].region.dom@, p),
        !leaf_agrees(setup, vals, leaves[k], p, direct),
    ensures
        !narrow_ok(setup, vals, leaves, direct),
{
}

/// A position in two leaves with verdicts fails the check.
proof fn lemma_twice_fails(setup: &Setup, vals: Seq<Val>, leaves: Seq<Leaf>, direct: bool, j: int, k: int, p: Seq<Option<Sq>>)
    requires
        0 <= j < k < leaves.len(),
        leaves[j].verdict != Verdict::Illegal,
        leaves[k].verdict != Verdict::Illegal,
        leaves[j].region.stm == leaves[k].region.stm,
        member(leaves[j].region.dom@, p),
        member(leaves[k].region.dom@, p),
    ensures
        !narrow_ok(setup, vals, leaves, direct),
{
}

/// A leaf whose pattern does not cover its region fails the check.
proof fn lemma_uncovered_fails(setup: &Setup, vals: Seq<Val>, leaves: Seq<Leaf>, direct: bool, k: int, d: int)
    requires
        0 <= k < leaves.len(),
        0 <= d < leaves[k].region.dom.len(),
        d < leaves[k].pattern.dom.len(),
        !dom_within(leaves[k].region.dom@[d], leaves[k].pattern.dom@[d]),
    ensures
        !narrow_ok(setup, vals, leaves, direct),
{
}

/// A leaf whose pattern is not checked fails the check.
proof fn lemma_unchecked_fails(setup: &Setup, vals: Seq<Val>, leaves: Seq<Leaf>, direct: bool, k: int)
    requires
        0 <= k < leaves.len(),
        leaves[k].verdict != Verdict::Illegal,
        !pattern_checked(setup, vals, leaves, k, direct),
    ensures
        !narrow_ok(setup, vals, leaves, direct),
{
    assert(has_verdict(leaves, k));
}

/// After the positions of leaf `k` are marked, the bookkeeping of marked
/// positions covers the leaves up to `k`, and no two of them share a position.
#[verifier::rlimit(60)]
proof fn lemma_leaf_done(setup: &Setup, vals: Seq<Val>, leaves: Seq<Leaf>, k: int, ps: Seq<Position>, seen: Seq<bool>)
    requires
        0 <= k < leaves.len(),
        seen.len() == vals.len(),
        forall|p: Seq<Option<Sq>>| #[trigger] member(leaves[k].region.dom@, p) ==> exists|i: int| 0 <= i < ps.len() && ps[i].sqs@ == p,
        forall|c: int|
            0 <= c < seen.len() && #[trigger] seen[c] ==> (exists|j: int|
                0 <= j < k && leaves[j].verdict != Verdict::Illegal && member(leaves[j].region.dom@, position_sqs(setup, c)) && leaves[j].region.stm
                    == position_stm(c)) || (leaves[k].verdict != Verdict::Illegal && member(leaves[k].region.dom@, position_sqs(setup, c))
                    && position_stm(c) == leaves[k].region.stm && exists|u: int| 0 <= u < ps.len() && ps[u].sqs@ == position_sqs(setup, c)),
        forall|j: int, p: Seq<Option<Sq>>|
            0 <= j < k && leaves[j].verdict != Verdict::Illegal && #[trigger] member(leaves[j].region.dom@, p) ==> seen[index_spec(setup, p, leaves[j].region.stm)],
        leaves[k].verdict != Verdict::Illegal ==> forall|u: int| 0 <= u < ps.len() ==> seen[index_spec(setup, (#[trigger] ps[u]).sqs@, leaves[k].region.stm)],
        leaves[k].verdict != Verdict::Illegal ==> forall|j: int, u: int|
            #![trigger member(leaves[j].region.dom@, ps[u].sqs@)]
            0 <= j < k && 0 <= u < ps.len() && leaves[j].verdict != Verdict::Illegal && leaves[j].region.stm == leaves[k].region.stm
                ==> !member(leaves[j].region.dom@, ps[u].sqs@),
        forall|j: int, j2: int, p: Seq<Option<Sq>>|
            0 <= j < j2 < k && leaves[j].verdict != Verdict::Illegal && leaves[j2].verdict != Verdict::Illegal
                && leaves[j].region.stm == leaves[j2].region.stm && #[trigger] member(leaves[j].region.dom@, p) ==> !#[trigger] member(
                leaves[j2].region.dom@,
                p,
            ),
    ensures
        forall|c: int|
            0 <= c < seen.len() && #[trigger] seen[c] ==> exists|j: int|
                0 <= j < k + 1 && leaves[j].verdict != Verdict::Illegal && member(leaves[j].region.dom@, position_sqs(setup, c)) && leaves[j].region.stm
                    == position_stm(c),
        forall|j: int, p: Seq<Option<Sq>>|
            0 <= j < k + 1 && leaves[j].verdict != Verdict::Illegal && #[trigger] member(leaves[j].region.dom@, p) ==> seen[index_spec(setup, p, leaves[j].region.stm)],
        forall|j: int, j2: int, p: Seq<Option<Sq>>|
            0 <= j < j2 < k + 1 && leaves[j].verdict != Verdict::Illegal && leaves[j2].verdict != Verdict::Illegal
                && leaves[j].region.stm == leaves[j2].region.stm && #[trigger] member(leaves[j].region.dom@, p) ==> !#[trigger] member(
                leaves[j2].region.dom@,
                p,
            ),
{
    assert forall|c: int|
        0 <= c < seen.len() && #[trigger] seen[c] implies exists|j: int|
            0 <= j < k + 1 && leaves[j].verdict != Verdict::Illegal && member(leaves[j].region.dom@, position_sqs(setup, c)) && leaves[j].region.stm
                == position_stm(c) by {
        if !(exists|j: int|
            0 <= j < k && leaves[j].verdict != Verdict::Illegal && member(leaves[j].region.dom@, position_sqs(setup, c)) && leaves[j].region.stm
                == position_stm(c)) {
            assert(member(leaves[k].region.dom@, position_sqs(setup, c)));
        }
    }
    assert forall|j: int, q: Seq<Option<Sq>>|
        0 <= j < k + 1 && leaves[j].verdict != Verdict::Illegal && #[trigger] member(leaves[j].region.dom@, q) implies seen[index_spec(setup, q, leaves[j].region.stm)] by {
        if j == k {
            let x = choose|x: int| 0 <= x < ps.len() && ps[x].sqs@ == q;
            assert(seen[index_spec(setup, ps[x].sqs@, leaves[k].region.stm)]);
        }
    }
    assert forall|j: int, j2: int, q: Seq<Option<Sq>>|
        0 <= j < j2 < k + 1 && leaves[j].verdict != Verdict::Illegal && leaves[j2].verdict != Verdict::Illegal
            && leaves[j].region.stm == leaves[j2].region.stm && #[trigger] member(leaves[j].region.dom@, q) implies !#[trigger] member(
            leaves[j2].region.dom@,
            q,
        ) by {
        if j2 == k && member(leaves[j2].region.dom@, q) {
            let x = choose|x: int| 0 <= x < ps.len() && ps[x].sqs@ == q;
            assert(!member(leaves[j].region.dom@, ps[x].sqs@));
        }
    }
}

/// A position of a well-formed region has an index in the table.
proof fn lemma_member_index(setup: &Setup, r: &Region, p: Seq<Option<Sq>>, stm: Color)
    requires
        setup.wf(),
        r.wf(setup),
        member(r.dom@, p),
    ensures
        0 <= index_spec(setup, p, stm) < size_spec(setup),
{
    assert forall|x: int| 0 <= x < p.len() implies (#[trigger] p[x] matches Some(q) ==> q < setup.area_spec()) by {
        assert(placed(r.dom@[x], p[x]));
        if let Some(q) = p[x] {
            assert(bit(r.dom@[x].sq, q as int));
        }
    }
    lemma_index_of_position(setup, p, stm);
}

/// Check the leaves against the table: exact cover of the legal positions,
/// verdict agreement per position, and pattern soundness (every legal
/// position matching a leaf's pattern has the leaf's verdict).
#[verifier::rlimit(40)]
pub fn narrow_report(table: &Table, leaves: &Vec<Leaf>, direct: bool) -> (rep: NarrowReport)
    requires
        table.setup.wf(),
        table.vals.len() == size_spec(&table.setup),
        size_spec(&table.setup) <= usize::MAX,
        forall|k: int| 0 <= k < leaves.len() ==> (#[trigger] leaves@[k]).region.wf(&table.setup),
    ensures
        rep.error is None ==> forall|k: int, p: Seq<Option<Sq>>|
            0 <= k < leaves.len() && #[trigger] member(leaves@[k].region.dom@, p) ==> leaf_agrees(
                &table.setup,
                table.vals@,
                leaves@[k],
                p,
                direct,
            ),
        rep.error is None ==> forall|i: int|
            0 <= i < table.vals.len() && #[trigger] table.vals@[i] != Val::Illegal ==> exists|k: int|
                0 <= k < leaves.len() && member(leaves@[k].region.dom@, position_sqs(&table.setup, i))
                    && leaves@[k].region.stm == position_stm(i),
        rep.error is None ==> forall|k: int, d: int|
            0 <= k < leaves.len() && 0 <= d < leaves@[k].region.dom.len() && d < leaves@[k].pattern.dom.len()
                ==> #[trigger] dom_within(leaves@[k].region.dom@[d], leaves@[k].pattern.dom@[d]),
        rep.error is None ==> forall|k: int|
            0 <= k < leaves.len() && (#[trigger] leaves@[k]).verdict != Verdict::Illegal ==> vouched(&table.setup, table.vals@, leaves@, k, direct),
        rep.error is None ==> rep.illegal == count_kind(leaves@, leaves.len() as int, 0) && rep.win == count_kind(
            leaves@,
            leaves.len() as int,
            1,
        ) && rep.loss == count_kind(leaves@, leaves.len() as int, 2) && rep.draw == count_kind(
            leaves@,
            leaves.len() as int,
            3,
        ),
        rep.error is None <==> narrow_ok(&table.setup, table.vals@, leaves@, direct),
        rep.error is None ==> rep.patterns == patterns_upto(leaves@, leaves.len() as int),
        rep.error is None ==> rep.pattern_matches == capped(hits_upto(&table.setup, table.vals@, leaves@, leaves.len() as int)),
{
    let setup = &table.setup;
    let n = table.vals.len();
    let mut rep = NarrowReport { illegal: 0, loss: 0, win: 0, draw: 0, patterns: 0, pattern_matches: 0, error: None };
    let mut seen: Vec<bool> = Vec::new();
    let mut z: usize = 0;
    while z < n
        invariant
            0 <= z <= n,
            seen.len() == z,
            forall|c: int| 0 <= c < z ==> !(#[trigger] seen@[c]),
        decreases n - z,
    {
        seen.push(false);
        z += 1;
    }
    let mut patterns: Vec<(Color, Pattern)> = Vec::new();
    let mut legal: Vec<(usize, Position, Val)> = Vec::new();
    let mut i: usize = 0;
    while i < n
        invariant
            0 <= i <= n,
            n == table.vals.len(),
            setup == &table.setup,
            table.setup.wf(),
            n == size_spec(setup),
            forall|j: int| 0 <= j < legal.len() ==> (#[trigger] legal@[j]).0 < n && legal@[j].1.sqs@ == position_sqs(setup, legal@[j].0 as int)
                && legal@[j].1.stm == position_stm(legal@[j].0 as int) && legal@[j].2 == table.vals@[legal@[j].0 as int] && table.vals@[legal@[j].0 as int] != Val::Illegal
                && squares_below(legal@[j].1.sqs@, setup.area_spec()) && legal@[j].1.sqs.len() == setup.slots.len(),
            forall|c: int| 0 <= c < i && table.vals@[c] != Val::Illegal ==> exists|j: int| 0 <= j < legal.len() && (#[trigger] legal@[j]).0 == c,
            legal@.len() == legal_indices(table.vals@, i as int).len(),
            forall|x: int| 0 <= x < legal.len() ==> (#[trigger] legal@[x]).0 as int == legal_indices(table.vals@, i as int)[x],
        decreases n - i,
    {
        let v = table.vals[i];
        if v != Val::Illegal {
            proof {
                crate::retro::lemma_position_of_index(setup, i as int);
            }
            let ghost before = legal@;
            legal.push((i, Table::position(setup, i), v));
            proof {
                assert forall|c: int| 0 <= c < i + 1 && table.vals@[c] != Val::Illegal implies exists|j: int| 0 <= j < legal.len() && (#[trigger] legal@[j]).0 == c by {
                    if c == i {
                        assert(legal@[before.len() as int].0 == c);
                    } else {
                        let j = choose|j: int| 0 <= j < before.len() && (#[trigger] before[j]).0 == c;
                        assert(legal@[j] == before[j]);
                    }
                }
                assert forall|x: int| 0 <= x < legal.len() implies (#[trigger] legal@[x]).0 as int == legal_indices(table.vals@, i + 1)[x] by {
                    if x < before.len() {
                        assert(legal@[x] == before[x]);
                    }
                }
            }
        }
        i += 1;
    }
    proof {
        assert(4 <= setup.n * setup.n <= 64) by (nonlinear_arith)
            requires
                2 <= setup.n <= 8,
        ;
    }
    let mut k: usize = 0;
    while k < leaves.len()
        invariant
            0 <= k <= leaves.len(),
            setup == &table.setup,
            setup.area_spec() <= 64,
            forall|x: int|
                0 <= x < legal.len() ==> squares_below((#[trigger] legal@[x]).1.sqs@, setup.area_spec())
                    && legal@[x].1.sqs.len() == setup.slots.len(),
            rep.patterns <= k,
            legal_list(setup, table.vals@, legal@),
            legal_order(table.vals@, legal@),
            rep.patterns == patterns_upto(leaves@, k as int),
            rep.pattern_matches == capped(hits_upto(setup, table.vals@, leaves@, k as int)),
            patterns_known(setup, table.vals@, patterns@, leaves@, k as int, direct),
            forall|j: int| 0 <= j < k && (#[trigger] leaves@[j]).verdict != Verdict::Illegal ==> vouched(setup, table.vals@, leaves@, j, direct),
            table.setup.wf(),
            n == table.vals.len(),
            n == size_spec(setup),
            size_spec(setup) <= usize::MAX,
            seen.len() == n,
            forall|j: int| 0 <= j < leaves.len() ==> (#[trigger] leaves@[j]).region.wf(setup),
            rep.error is None,
            rep.illegal == count_kind(leaves@, k as int, 0),
            rep.win == count_kind(leaves@, k as int, 1),
            rep.loss == count_kind(leaves@, k as int, 2),
            rep.draw == count_kind(leaves@, k as int, 3),
            rep.illegal + rep.win + rep.loss + rep.draw == k,
            forall|j: int, p: Seq<Option<Sq>>|
                0 <= j < k && #[trigger] member(leaves@[j].region.dom@, p) ==> leaf_agrees(setup, table.vals@, leaves@[j], p, direct),
            forall|j: int, d: int|
                0 <= j < k && 0 <= d < leaves@[j].region.dom.len() && d < leaves@[j].pattern.dom.len()
                    ==> #[trigger] dom_within(leaves@[j].region.dom@[d], leaves@[j].pattern.dom@[d]),
            forall|c: int|
                0 <= c < n && #[trigger] seen@[c] ==> exists|j: int|
                    0 <= j < k && leaves@[j].verdict != Verdict::Illegal && member(leaves@[j].region.dom@, position_sqs(setup, c)) && leaves@[j].region.stm
                        == position_stm(c),
            forall|j: int, p: Seq<Option<Sq>>|
                0 <= j < k && leaves@[j].verdict != Verdict::Illegal && #[trigger] member(leaves@[j].region.dom@, p) ==> seen@[index_spec(setup, p, leaves@[j].region.stm)],
            forall|j: int, j2: int, p: Seq<Option<Sq>>|
                0 <= j < j2 < k && leaves@[j].verdict != Verdict::Illegal && leaves@[j2].verdict != Verdict::Illegal
                    && leaves@[j].region.stm == leaves@[j2].region.stm && #[trigger] member(leaves@[j].region.dom@, p) ==> !#[trigger] member(
                    leaves@[j2].region.dom@,
                    p,
                ),
            forall|j: int| 0 <= j < k && #[trigger] has_verdict(leaves@, j) ==> pattern_checked(setup, table.vals@, leaves@, j, direct),
            patterns_complete(patterns@, leaves@, k as int),
        decreases leaves.len() - k,
    {
        let leaf = &leaves[k];
        match leaf.verdict {
            Verdict::Illegal => rep.illegal += 1,
            Verdict::Win(_) => rep.win += 1,
            Verdict::Loss(_) => rep.loss += 1,
            Verdict::Draw => rep.draw += 1,
        }
        if !leaf.pattern.covers(&leaf.region) {
            proof {
                let d = choose|d: int| 0 <= d < leaf.region.dom.len() && d < leaf.pattern.dom.len() && !#[trigger] dom_within(leaf.region.dom@[d], leaf.pattern.dom@[d]);
                lemma_uncovered_fails(setup, table.vals@, leaves@, direct, k as int, d);
            }
            let mut msg = String::new();
            crate::text::push_str(&mut msg, "leaf pattern does not cover its region");
            rep.error = Some(msg);
            return rep;
        }
        assert(leaves@[k as int].region.wf(setup));
        let ps = leaf.region.positions();
        let mut t: usize = 0;
        while t < ps.len()
            invariant
                0 <= t <= ps.len(),
                setup == &table.setup,
                table.setup.wf(),
                n == table.vals.len(),
                n == size_spec(setup),
                size_spec(setup) <= usize::MAX,
                seen.len() == n,
                leaf == &leaves@[k as int],
                k < leaves.len(),
                forall|j: int| 0 <= j < leaves.len() ==> (#[trigger] leaves@[j]).region.wf(setup),
                leaf.region.wf(setup),
                rep.error is None,
                rep.patterns <= k,
                legal_list(setup, table.vals@, legal@),
                legal_order(table.vals@, legal@),
                rep.patterns == patterns_upto(leaves@, k as int),
                rep.pattern_matches == capped(hits_upto(setup, table.vals@, leaves@, k as int)),
                rep.illegal == count_kind(leaves@, k + 1, 0),
                rep.win == count_kind(leaves@, k + 1, 1),
                rep.loss == count_kind(leaves@, k + 1, 2),
                rep.draw == count_kind(leaves@, k + 1, 3),
                rep.illegal + rep.win + rep.loss + rep.draw == k + 1,
                forall|j: int, d: int|
                    0 <= j < k + 1 && 0 <= d < leaves@[j].region.dom.len() && d < leaves@[j].pattern.dom.len()
                        ==> #[trigger] dom_within(leaves@[j].region.dom@[d], leaves@[j].pattern.dom@[d]),
                forall|j: int, p: Seq<Option<Sq>>|
                    0 <= j < k && #[trigger] member(leaves@[j].region.dom@, p) ==> leaf_agrees(setup, table.vals@, leaves@[j], p, direct),
                forall|j: int| 0 <= j < ps.len() ==> #[trigger] member(leaf.region.dom@, ps@[j].sqs@) && ps@[j].stm == leaf.region.stm,
                forall|j: int| 0 <= j < t ==> #[trigger] leaf_agrees(setup, table.vals@, *leaf, ps@[j].sqs@, direct),
                forall|i: int, j: int| 0 <= i < j < ps.len() ==> ps@[i].sqs@ != ps@[j].sqs@,
                forall|p: Seq<Option<Sq>>| #[trigger] member(leaf.region.dom@, p) ==> exists|i: int| 0 <= i < ps.len() && ps@[i].sqs@ == p,
                forall|c: int|
                    0 <= c < n && #[trigger] seen@[c] ==> (exists|j: int|
                        0 <= j < k && leaves@[j].verdict != Verdict::Illegal && member(leaves@[j].region.dom@, position_sqs(setup, c)) && leaves@[j].region.stm
                            == position_stm(c)) || (leaf.verdict != Verdict::Illegal && member(leaf.region.dom@, position_sqs(setup, c))
                            && position_stm(c) == leaf.region.stm && exists|u: int| 0 <= u < t && ps@[u].sqs@ == position_sqs(setup, c)),
                forall|j: int, p: Seq<Option<Sq>>|
                    0 <= j < k && leaves@[j].verdict != Verdict::Illegal && #[trigger] member(leaves@[j].region.dom@, p) ==> seen@[index_spec(setup, p, leaves@[j].region.stm)],
                leaf.verdict != Verdict::Illegal ==> forall|u: int| 0 <= u < t ==> seen@[index_spec(setup, (#[trigger] ps@[u]).sqs@, leaf.region.stm)],
                leaf.verdict != Verdict::Illegal ==> forall|j: int, u: int|
                    #![trigger member(leaves@[j].region.dom@, ps@[u].sqs@)]
                    0 <= j < k && 0 <= u < t && leaves@[j].verdict != Verdict::Illegal && leaves@[j].region.stm == leaf.region.stm
                        ==> !member(leaves@[j].region.dom@, ps@[u].sqs@),
                forall|j: int, j2: int, p: Seq<Option<Sq>>|
                    0 <= j < j2 < k && leaves@[j].verdict != Verdict::Illegal && leaves@[j2].verdict != Verdict::Illegal
                        && leaves@[j].region.stm == leaves@[j2].region.stm && #[trigger] member(leaves@[j].region.dom@, p) ==> !#[trigger] member(
                        leaves@[j2].region.dom@,
                        p,
                    ),
                forall|j: int| 0 <= j < k && #[trigger] has_verdict(leaves@, j) ==> pattern_checked(setup, table.vals@, leaves@, j, direct),
                patterns_complete(patterns@, leaves@, k as int),
            decreases ps.len() - t,
        {
            let p = &ps[t];
            proof {
                assert(member(leaf.region.dom@, p.sqs@));
                assert forall|x: int| 0 <= x < p.sqs@.len() implies (#[trigger] p.sqs@[x] matches Some(q) ==> q < setup.area_spec()) by {
                    assert(placed(leaf.region.dom@[x], p.sqs@[x]));
                    if let Some(q) = p.sqs@[x] {
                        assert(bit(leaf.region.dom@[x].sq, q as int));
                    }
                }
            }
            let idx = Table::index(setup, p);
            let v = table.vals[idx];
            if leaf.verdict == Verdict::Illegal {
                if v != Val::Illegal {
                    proof {
                        assert(!leaf_agrees(setup, table.vals@, leaves@[k as int], p.sqs@, direct));
                        lemma_disagree_fails(setup, table.vals@, leaves@, direct, k as int, p.sqs@);
                    }
                    let mut msg = String::new();
                    crate::text::push_str(&mut msg, "legal position ");
                    crate::text::push_decimal_u64(&mut msg, idx as u64);
                    crate::text::push_str(&mut msg, " in an Illegal leaf");
                    rep.error = Some(msg);
                    return rep;
                }
                t += 1;
                continue;
            }
            if v == Val::Illegal {
                proof {
                    assert(!leaf_agrees(setup, table.vals@, leaves@[k as int], p.sqs@, direct));
                    lemma_disagree_fails(setup, table.vals@, leaves@, direct, k as int, p.sqs@);
                }
                let mut msg = String::new();
                crate::text::push_str(&mut msg, "illegal position ");
                crate::text::push_decimal_u64(&mut msg, idx as u64);
                crate::text::push_str(&mut msg, " in a ");
                push_verdict(&mut msg, leaf.verdict);
                crate::text::push_str(&mut msg, " leaf");
                rep.error = Some(msg);
                return rep;
            }
            if seen[idx] {
                proof {
                    lemma_index_of_position(setup, p.sqs@, p.stm);
                    assert(seen@[idx as int]);
                    assert(!(exists|u: int| 0 <= u < t && ps@[u].sqs@ == position_sqs(setup, idx as int))) by {
                        if exists|u: int| 0 <= u < t && ps@[u].sqs@ == position_sqs(setup, idx as int) {
                            let u = choose|u: int| 0 <= u < t && ps@[u].sqs@ == position_sqs(setup, idx as int);
                            assert(ps@[u].sqs@ != ps@[t as int].sqs@);
                        }
                    }
                    let j = choose|j: int|
                        0 <= j < k && leaves@[j].verdict != Verdict::Illegal && member(leaves@[j].region.dom@, position_sqs(setup, idx as int))
                            && leaves@[j].region.stm == position_stm(idx as int);
                    assert(member(leaves@[j].region.dom@, p.sqs@));
                    lemma_twice_fails(setup, table.vals@, leaves@, direct, j, k as int, p.sqs@);
                }
                let mut msg = String::new();
                crate::text::push_str(&mut msg, "position ");
                crate::text::push_decimal_u64(&mut msg, idx as u64);
                crate::text::push_str(&mut msg, " covered twice");
                rep.error = Some(msg);
                return rep;
            }
            proof {
                lemma_index_of_position(setup, p.sqs@, p.stm);
            }
            let ghost seen0 = seen@;
            seen.set(idx, true);
            if !agrees(leaf.verdict, v, direct) {
                proof {
                    assert(!leaf_agrees(setup, table.vals@, leaves@[k as int], p.sqs@, direct));
                    lemma_disagree_fails(setup, table.vals@, leaves@, direct, k as int, p.sqs@);
                }
                let mut msg = String::new();
                crate::text::push_str(&mut msg, "position ");
                crate::text::push_decimal_u64(&mut msg, idx as u64);
                crate::text::push_str(&mut msg, ": leaf says ");
                push_verdict(&mut msg, leaf.verdict);
                crate::text::push_str(&mut msg, ", table says ");
                crate::retro::push_val(&mut msg, v);
                crate::text::push_str(&mut msg, "\n");
                let board = p.render(setup);
                crate::text::push_str(&mut msg, board.as_str());
                rep.error = Some(msg);
                return rep;
            }
            proof {
                assert forall|c: int|
                    0 <= c < n && #[trigger] seen@[c] implies (exists|j: int|
                        0 <= j < k && leaves@[j].verdict != Verdict::Illegal && member(leaves@[j].region.dom@, position_sqs(setup, c)) && leaves@[j].region.stm
                            == position_stm(c)) || (leaf.verdict != Verdict::Illegal && member(leaf.region.dom@, position_sqs(setup, c))
                            && position_stm(c) == leaf.region.stm && exists|u: int| 0 <= u < t + 1 && ps@[u].sqs@ == position_sqs(setup, c)) by {
                    if c == idx {
                        assert(ps@[t as int].sqs@ == position_sqs(setup, c));
                    } else {
                        assert(seen0[c]);
                    }
                }
                assert forall|j: int, u: int|
                    #![trigger member(leaves@[j].region.dom@, ps@[u].sqs@)]
                    0 <= j < k && 0 <= u < t + 1 && leaves@[j].verdict != Verdict::Illegal && leaves@[j].region.stm == leaf.region.stm
                        implies !member(leaves@[j].region.dom@, ps@[u].sqs@) by {
                    if u == t && member(leaves@[j].region.dom@, ps@[u].sqs@) {
                        assert(seen0[index_spec(setup, ps@[u].sqs@, leaves@[j].region.stm)]);
                    }
                }
                assert forall|u: int| 0 <= u < t + 1 implies seen@[index_spec(setup, (#[trigger] ps@[u]).sqs@, leaf.region.stm)] by {
                    lemma_member_index(setup, &leaf.region, ps@[u].sqs@, leaf.region.stm);
                    if u < t {
                        assert(seen0[index_spec(setup, ps@[u].sqs@, leaf.region.stm)]);
                    }
                }
                assert forall|j: int, q: Seq<Option<Sq>>|
                    0 <= j < k && leaves@[j].verdict != Verdict::Illegal && #[trigger] member(leaves@[j].region.dom@, q) implies seen@[index_spec(setup, q, leaves@[j].region.stm)] by {
                    lemma_member_index(setup, &leaves@[j].region, q, leaves@[j].region.stm);
                    assert(seen0[index_spec(setup, q, leaves@[j].region.stm)]);
                }
            }
            t += 1;
        }
        proof {
            assert forall|j: int, p: Seq<Option<Sq>>|
                0 <= j < k + 1 && #[trigger] member(leaves@[j].region.dom@, p) implies leaf_agrees(setup, table.vals@, leaves@[j], p, direct) by {
                if j == k {
                    let x = choose|x: int| 0 <= x < ps.len() && ps@[x].sqs@ == p;
                    assert(leaf_agrees(setup, table.vals@, *leaf, ps@[x].sqs@, direct));
                }
            }
            lemma_leaf_done(setup, table.vals@, leaves@, k as int, ps@, seen@);
        }
        if leaf.verdict != Verdict::Illegal {
            let res = check_pattern(setup, &table.vals, leaves, k, &legal, direct, &mut patterns, &mut rep.patterns, &mut rep.pattern_matches);
            if let Some(msg) = res {
                proof {
                    lemma_unchecked_fails(setup, table.vals@, leaves@, direct, k as int);
                }
                rep.error = Some(msg);
                return rep;
            }
        }
        proof {
            assert(patterns_upto(leaves@, k + 1) == patterns_upto(leaves@, k as int) + if first_pattern(leaves@, k as int) {
                1int
            } else {
                0int
            });
            assert(hits_upto(setup, table.vals@, leaves@, k + 1) == hits_upto(setup, table.vals@, leaves@, k as int) + if first_pattern(
                leaves@,
                k as int,
            ) {
                pattern_hits(setup, table.vals@, leaves@[k as int].region.stm, leaves@[k as int].pattern.dom@) as int
            } else {
                0int
            });
            assert forall|j: int| 0 <= j < k + 1 && #[trigger] has_verdict(leaves@, j) implies pattern_checked(setup, table.vals@, leaves@, j, direct) by {}
            assert forall|j: int| 0 <= j < k + 1 && #[trigger] has_verdict(leaves@, j) implies exists|t: int|
                0 <= t < patterns.len() && (#[trigger] patterns@[t]).0 == leaves@[j].region.stm && patterns@[t].1.dom@ == leaves@[j].pattern.dom@ by {}
        }
        k += 1;
    }
    let mut i: usize = 0;
    while i < n
        invariant
            0 <= i <= n,
            n == table.vals.len(),
            seen.len() == n,
            k == leaves.len(),
            setup == &table.setup,
            rep.error is None,
            rep.patterns == patterns_upto(leaves@, k as int),
            rep.pattern_matches == capped(hits_upto(setup, table.vals@, leaves@, k as int)),
            rep.illegal == count_kind(leaves@, k as int, 0),
            rep.win == count_kind(leaves@, k as int, 1),
            rep.loss == count_kind(leaves@, k as int, 2),
            rep.draw == count_kind(leaves@, k as int, 3),
            forall|j: int, p: Seq<Option<Sq>>|
                0 <= j < k && #[trigger] member(leaves@[j].region.dom@, p) ==> leaf_agrees(setup, table.vals@, leaves@[j], p, direct),
            forall|j: int, d: int|
                0 <= j < k && 0 <= d < leaves@[j].region.dom.len() && d < leaves@[j].pattern.dom.len()
                    ==> #[trigger] dom_within(leaves@[j].region.dom@[d], leaves@[j].pattern.dom@[d]),
            forall|c: int|
                0 <= c < n && #[trigger] seen@[c] ==> exists|j: int|
                    0 <= j < k && member(leaves@[j].region.dom@, position_sqs(setup, c)) && leaves@[j].region.stm
                        == position_stm(c),
            forall|c: int| 0 <= c < i && table.vals@[c] != Val::Illegal ==> #[trigger] seen@[c],
            forall|j: int| 0 <= j < k && (#[trigger] leaves@[j]).verdict != Verdict::Illegal ==> vouched(setup, table.vals@, leaves@, j, direct),
            setup.wf(),
            n == size_spec(setup),
            forall|j: int, p: Seq<Option<Sq>>|
                0 <= j < k && leaves@[j].verdict != Verdict::Illegal && #[trigger] member(leaves@[j].region.dom@, p) ==> seen@[index_spec(setup, p, leaves@[j].region.stm)],
            forall|j: int, j2: int, p: Seq<Option<Sq>>|
                0 <= j < j2 < k && leaves@[j].verdict != Verdict::Illegal && leaves@[j2].verdict != Verdict::Illegal
                    && leaves@[j].region.stm == leaves@[j2].region.stm && #[trigger] member(leaves@[j].region.dom@, p) ==> !#[trigger] member(
                    leaves@[j2].region.dom@,
                    p,
                ),
            forall|j: int| 0 <= j < k && #[trigger] has_verdict(leaves@, j) ==> pattern_checked(setup, table.vals@, leaves@, j, direct),
        decreases n - i,
    {
        if table.vals[i] != Val::Illegal && !seen[i] {
            proof {
                crate::retro::lemma_position_of_index(setup, i as int);
                if narrow_ok(setup, table.vals@, leaves@, direct) {
                    assert(table.vals@[i as int] != Val::Illegal);
                    let kk = choose|kk: int|
                        0 <= kk < leaves.len() && member(leaves@[kk].region.dom@, position_sqs(setup, i as int)) && leaves@[kk].region.stm == position_stm(i as int);
                    assert(leaf_agrees(setup, table.vals@, leaves@[kk], position_sqs(setup, i as int), direct));
                    if leaves@[kk].verdict != Verdict::Illegal {
                        assert(seen@[index_spec(setup, position_sqs(setup, i as int), leaves@[kk].region.stm)]);
                    }
                }
            }
            let mut msg = String::new();
            crate::text::push_str(&mut msg, "legal position ");
            crate::text::push_decimal_u64(&mut msg, i as u64);
            crate::text::push_str(&mut msg, " not covered by any leaf");
            rep.error = Some(msg);
            return rep;
        }
        i += 1;
    }
    proof {
        assert forall|c: int| 0 <= c < table.vals.len() && #[trigger] table.vals@[c] != Val::Illegal implies exists|j: int|
            0 <= j < leaves.len() && member(leaves@[j].region.dom@, position_sqs(&table.setup, c))
                && leaves@[j].region.stm == position_stm(c) by {
            assert(seen@[c]);
        }
        assert(narrow_ok(&table.setup, table.vals@, leaves@, direct));
    }
    rep
}

} // verus!
