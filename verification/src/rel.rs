//! Anchor-relative regions: the translation quotient made explicit.
//!
//! A region is the *anchor's* (the protected king's) absolute square set
//! times one *offset* domain per other piece, with the board boundary the
//! only coupling between them. Positions are all (anchor square, offsets)
//! with every piece on the board and all squares distinct. Distances,
//! alignments and clear rays are then predicates on offsets alone, decided
//! by splitting offset domains; the anchor's edge distance is a split on
//! the anchor set alone; an anchor move translates every offset domain and
//! a rook move changes one offset. One witness region with a relative move
//! covers every translation of a pattern at once.
//!
//! Material: kings and rooks only (the certificate's material).

use vstd::prelude::*;
use crate::board::{Color, Kind, Position, Setup, SlotId, Sq, file_of, rank_of, sq_spec, on_board, lemma_coords, lemma_square_coords, flip_spec, is_king_of, king_slot_spec};
use crate::cert::{Roles, one_rook, pair_slots, pair_of};
use crate::certs::Cert;
use crate::absmove::kings_and_rooks;
use crate::retro::{Table, Val, size_spec, count_upto, legal_pred};
use crate::cert::{safe, concrete_obligation, after_safe};
use crate::board::{legal_moves, in_check, lemma_position_fits, lemma_legal_moves_never_blocks, lemma_in_check_never_blocks, position_answers};
use crate::board::{Move, Blocked, legal_moves_spec, lemma_legal_moves_ok, moves_ok, play_spec};
use crate::retro::lemma_played_in_range;
use crate::narrow::{
    bit, popcount, lemma_bits, lemma_bit_single, lemma_bit_empty, lemma_bit_nonzero, lemma_bit_none, lemma_bit_test,
    count_ones, lemma_pop_single, lemma_pop_two, lemma_pop_zero, lemma_pop_subset, lemma_pop_le_64, lemma_bit_max,
    lemma_bit_low,
};

verus! {

/// Offset (dx, dy) with |dx|, |dy| < n, encoded as one index.
pub type Off = u16;

/// Bitset over offset indices ((2n-1)^2 <= 225 for n <= 8).
pub type OffSet = [u64; 4];

/// Offset index `o` is in the set.
pub open spec fn obit(s: OffSet, o: int) -> bool {
    0 <= o < 256 && bit(s@[o / 64], o % 64)
}

/// The number of offsets in the set.
pub open spec fn ocount(s: OffSet) -> nat {
    popcount(s@[0]) + popcount(s@[1]) + popcount(s@[2]) + popcount(s@[3])
}

fn set_has(s: &OffSet, o: Off) -> (r: bool)
    requires
        o < 256,
    ensures
        r == obit(*s, o as int),
{
    let w = (o / 64) as usize;
    let b = (o % 64) as u64;
    proof {
        lemma_bit_test(s@[w as int], b);
    }
    s[w] & (1u64 << b) != 0
}

fn set_add(s: &mut OffSet, o: Off)
    requires
        o < 256,
    ensures
        forall|x: int| #[trigger] obit(*final(s), x) == (obit(*old(s), x) || x == o),
{
    let w = (o / 64) as usize;
    let b = (o % 64) as u64;
    let old_w = s[w];
    proof {
        lemma_bits(old_w, 1u64 << b);
        lemma_bit_single(b);
    }
    s[w] = old_w | (1u64 << b);
    proof {
        assert forall|x: int| #[trigger] obit(*s, x) == (obit(*old(s), x) || x == o) by {
            if 0 <= x < 256 && x / 64 == w {
                assert((x % 64 == b) == (x == o));
            }
        }
    }
}

fn set_del(s: &mut OffSet, o: Off)
    requires
        o < 256,
    ensures
        forall|x: int| #[trigger] obit(*final(s), x) == (obit(*old(s), x) && x != o),
{
    let w = (o / 64) as usize;
    let b = (o % 64) as u64;
    let old_w = s[w];
    proof {
        lemma_bits(old_w, 1u64 << b);
        lemma_bit_single(b);
    }
    s[w] = old_w & !(1u64 << b);
    proof {
        assert forall|x: int| #[trigger] obit(*s, x) == (obit(*old(s), x) && x != o) by {
            if 0 <= x < 256 && x / 64 == w {
                assert((x % 64 == b) == (x == o));
            }
        }
    }
}

fn set_and(a: &OffSet, b: &OffSet) -> (r: OffSet)
    ensures
        forall|x: int| #[trigger] obit(r, x) == (obit(*a, x) && obit(*b, x)),
{
    let r = [a[0] & b[0], a[1] & b[1], a[2] & b[2], a[3] & b[3]];
    proof {
        lemma_bits(a@[0], b@[0]);
        lemma_bits(a@[1], b@[1]);
        lemma_bits(a@[2], b@[2]);
        lemma_bits(a@[3], b@[3]);
        assert forall|x: int| #[trigger] obit(r, x) == (obit(*a, x) && obit(*b, x)) by {
            if 0 <= x < 256 {
                let w = x / 64;
                assert(0 <= w < 4);
            }
        }
    }
    r
}

fn set_andnot(a: &OffSet, b: &OffSet) -> (r: OffSet)
    ensures
        forall|x: int| #[trigger] obit(r, x) == (obit(*a, x) && !obit(*b, x)),
{
    let r = [a[0] & !b[0], a[1] & !b[1], a[2] & !b[2], a[3] & !b[3]];
    proof {
        lemma_bits(a@[0], b@[0]);
        lemma_bits(a@[1], b@[1]);
        lemma_bits(a@[2], b@[2]);
        lemma_bits(a@[3], b@[3]);
        assert forall|x: int| #[trigger] obit(r, x) == (obit(*a, x) && !obit(*b, x)) by {
            if 0 <= x < 256 {
                let w = x / 64;
                assert(0 <= w < 4);
            }
        }
    }
    r
}

fn set_or(a: &OffSet, b: &OffSet) -> (r: OffSet)
    ensures
        forall|x: int| #[trigger] obit(r, x) == (obit(*a, x) || obit(*b, x)),
{
    let r = [a[0] | b[0], a[1] | b[1], a[2] | b[2], a[3] | b[3]];
    proof {
        lemma_bits(a@[0], b@[0]);
        lemma_bits(a@[1], b@[1]);
        lemma_bits(a@[2], b@[2]);
        lemma_bits(a@[3], b@[3]);
        assert forall|x: int| #[trigger] obit(r, x) == (obit(*a, x) || obit(*b, x)) by {
            if 0 <= x < 256 {
                let w = x / 64;
                assert(0 <= w < 4);
            }
        }
    }
    r
}

/// A word without bits is zero, and conversely.
proof fn lemma_word_zero(x: u64)
    ensures
        (x == 0) == forall|q: int| !#[trigger] bit(x, q),
{
    lemma_bit_empty();
    if forall|q: int| !#[trigger] bit(x, q) {
        lemma_bit_none(x);
    }
}

fn set_empty(s: &OffSet) -> (r: bool)
    ensures
        r == forall|x: int| !#[trigger] obit(*s, x),
{
    let r = s[0] == 0 && s[1] == 0 && s[2] == 0 && s[3] == 0;
    proof {
        lemma_word_zero(s@[0]);
        lemma_word_zero(s@[1]);
        lemma_word_zero(s@[2]);
        lemma_word_zero(s@[3]);
        if r {
            assert forall|x: int| !#[trigger] obit(*s, x) by {
                if 0 <= x < 256 {
                    let w = x / 64;
                    assert(0 <= w < 4);
                }
            }
        } else {
            let w: int = if s@[0] != 0 {
                0
            } else if s@[1] != 0 {
                1
            } else if s@[2] != 0 {
                2
            } else {
                3
            };
            let q = choose|q: int| #[trigger] bit(s@[w], q);
            assert(0 <= q < 64);
            assert(obit(*s, w * 64 + q));
        }
    }
    r
}

/// The number of offsets in the set.
fn set_count(s: &OffSet) -> (r: u32)
    ensures
        r == ocount(*s),
{
    proof {
        lemma_pop_le_64(s@[0], 64);
        lemma_pop_le_64(s@[1], 64);
        lemma_pop_le_64(s@[2], 64);
        lemma_pop_le_64(s@[3], 64);
    }
    count_ones(s[0]) + count_ones(s[1]) + count_ones(s[2]) + count_ones(s[3])
}

/// The offsets of the set, in increasing order.
fn set_iter(s: &OffSet) -> (out: Vec<Off>)
    ensures
        forall|i: int, j: int| 0 <= i < j < out.len() ==> out@[i] < out@[j],
        forall|i: int| 0 <= i < out.len() ==> #[trigger] obit(*s, out@[i] as int),
        forall|x: int| #[trigger] obit(*s, x) ==> exists|i: int| 0 <= i < out.len() && out@[i] == x,
{
    let mut out: Vec<Off> = Vec::new();
    let mut o: u16 = 0;
    while o < 256
        invariant
            0 <= o <= 256,
            forall|i: int, j: int| 0 <= i < j < out.len() ==> out@[i] < out@[j],
            forall|i: int| 0 <= i < out.len() ==> #[trigger] out@[i] < o && obit(*s, out@[i] as int),
            forall|x: int| 0 <= x < o && #[trigger] obit(*s, x) ==> exists|i: int| 0 <= i < out.len() && out@[i] == x,
        decreases 256 - o,
    {
        if set_has(s, o) {
            let ghost before = out@;
            out.push(o);
            proof {
                assert forall|x: int| 0 <= x < o + 1 && #[trigger] obit(*s, x) implies exists|i: int|
                    0 <= i < out.len() && out@[i] == x by {
                    if x == o {
                        assert(out@[out.len() - 1] == x);
                    } else {
                        let i = choose|i: int| 0 <= i < before.len() && before[i] == x;
                        assert(out@[i] == before[i]);
                    }
                }
            }
        }
        o += 1;
    }
    out
}

/// The word holds exactly bit `t`.
pub open spec fn word_single(x: u64, t: int) -> bool {
    forall|q: int| #[trigger] bit(x, q) <==> q == t
}

/// Bits of a word, and its count.
proof fn lemma_word_pop(x: u64)
    ensures
        (popcount(x) == 0) == (forall|q: int| !#[trigger] bit(x, q)),
        popcount(x) == 1 ==> exists|t: int| #[trigger] word_single(x, t),
        (exists|t: int| #[trigger] word_single(x, t)) ==> popcount(x) == 1,
{
    if forall|q: int| !#[trigger] bit(x, q) {
        lemma_pop_zero(x, 64);
    } else {
        let t = choose|t: int| #[trigger] bit(x, t);
        assert(0 <= t < 64);
        lemma_bit_single(t as u64);
        lemma_pop_subset(x, 1u64 << (t as u64), 64);
        lemma_pop_single(1u64 << (t as u64), t, 64);
        if popcount(x) == 1 {
            assert forall|q: int| #[trigger] bit(x, q) <==> q == t by {
                if bit(x, q) && q != t {
                    lemma_pop_two(x, q, t, 64);
                }
            }
            assert(word_single(x, t));
        }
    }
    if exists|t: int| #[trigger] word_single(x, t) {
        let t = choose|t: int| #[trigger] word_single(x, t);
        assert(bit(x, t));
        lemma_pop_single(x, t, 64);
    }
}

/// The set is the one offset `o`.
pub open spec fn single_at(s: OffSet, o: int) -> bool {
    forall|x: int| #[trigger] obit(s, x) <==> x == o
}

/// The only offset of a one-offset set.
fn set_single(s: &OffSet) -> (r: Option<Off>)
    ensures
        r matches Some(o) ==> single_at(*s, o as int),
        r is None ==> forall|o: int| !single_at(*s, o),
{
    proof {
        lemma_word_pop(s@[0]);
        lemma_word_pop(s@[1]);
        lemma_word_pop(s@[2]);
        lemma_word_pop(s@[3]);
    }
    if set_count(s) == 1 {
        let it = set_iter(s);
        proof {
            let w: int = if popcount(s@[0]) == 1 {
                0
            } else if popcount(s@[1]) == 1 {
                1
            } else if popcount(s@[2]) == 1 {
                2
            } else {
                3
            };
            let t = choose|t: int| #[trigger] word_single(s@[w], t);
            assert(bit(s@[w], t));
            assert forall|x: int| #[trigger] obit(*s, x) <==> x == w * 64 + t by {
                if 0 <= x < 256 {
                    let v = x / 64;
                    if v != w {
                        assert(popcount(s@[v]) == 0);
                        assert(!bit(s@[v], x % 64));
                    }
                }
            }
            assert(obit(*s, w * 64 + t));
            let i = choose|i: int| 0 <= i < it.len() && it@[i] == w * 64 + t;
            assert(it.len() == 1) by {
                if it.len() > 1 {
                    let j = if i == 0 { 1int } else { 0int };
                    assert(obit(*s, it@[j] as int));
                    if j < i {
                        assert(it@[j] < it@[i]);
                    } else {
                        assert(it@[i] < it@[j]);
                    }
                }
            }
        }
        Some(it[0])
    } else {
        proof {
            assert forall|o: int| !single_at(*s, o) by {
                if single_at(*s, o) {
                    assert(obit(*s, o));
                    let w = o / 64;
                    let t = o % 64;
                    assert forall|v: int| 0 <= v < 4 && v != w implies popcount(s@[v]) == 0 by {
                        assert forall|q: int| !#[trigger] bit(s@[v], q) by {
                            if bit(s@[v], q) {
                                assert(0 <= q < 64);
                                assert(obit(*s, v * 64 + q));
                            }
                        }
                    }
                    assert forall|q: int| #[trigger] bit(s@[w], q) <==> q == t by {
                        if bit(s@[w], q) {
                            assert(0 <= q < 64);
                            assert(obit(*s, w * 64 + q));
                        }
                    }
                    assert(word_single(s@[w], t));
                    assert(popcount(s@[w]) == 1);
                }
            }
        }
        None
    }
}

/// The set of the listed offsets.
fn set_from(v: &Vec<Off>) -> (s: OffSet)
    requires
        forall|i: int| 0 <= i < v.len() ==> #[trigger] v@[i] < 256,
    ensures
        forall|x: int| #[trigger] obit(s, x) <==> exists|i: int| 0 <= i < v.len() && v@[i] == x,
{
    let mut s: OffSet = [0u64; 4];
    proof {
        lemma_bit_empty();
    }
    let mut i: usize = 0;
    while i < v.len()
        invariant
            0 <= i <= v.len(),
            forall|i: int| 0 <= i < v.len() ==> #[trigger] v@[i] < 256,
            forall|x: int| #[trigger] obit(s, x) <==> exists|j: int| 0 <= j < i && v@[j] == x,
        decreases v.len() - i,
    {
        let ghost s0 = s;
        set_add(&mut s, v[i]);
        proof {
            assert forall|x: int| #[trigger] obit(s, x) <==> exists|j: int| 0 <= j < i + 1 && v@[j] == x by {
                if exists|j: int| 0 <= j < i + 1 && v@[j] == x {
                    let j = choose|j: int| 0 <= j < i + 1 && v@[j] == x;
                    if j < i {
                        assert(obit(s0, x));
                    }
                }
                if obit(s0, x) {
                    let j = choose|j: int| 0 <= j < i && v@[j] == x;
                }
            }
        }
        i += 1;
    }
    s
}

/// The set of one offset.
fn set_one(o: Off) -> (s: OffSet)
    requires
        o < 256,
    ensures
        single_at(s, o as int),
{
    let mut s: OffSet = [0u64; 4];
    proof {
        lemma_bit_empty();
    }
    set_add(&mut s, o);
    s
}

// ---------------------------------------------------------------------
// Offset domains
// ---------------------------------------------------------------------

#[derive(Clone, Copy, Debug)]
pub struct OffDom {
    pub set: OffSet,
    pub cap: bool,
}

impl OffDom {
    /// On the board (`Some(true)`), off it (`Some(false)`), or undecided.
    fn present(&self) -> (r: Option<bool>)
        ensures
            r == if (forall|x: int| !#[trigger] obit(self.set, x)) && self.cap {
                Some(false)
            } else if !self.cap {
                Some(true)
            } else {
                None::<bool>
            },
    {
        if set_empty(&self.set) && self.cap {
            Some(false)
        } else if !self.cap {
            Some(true)
        } else {
            None
        }
    }

    /// The offset of a domain that is exactly one offset.
    fn pinned(&self) -> (r: Option<Off>)
        ensures
            r matches Some(o) ==> !self.cap && single_at(self.set, o as int),
            r is None ==> self.cap || forall|o: int| !single_at(self.set, o),
    {
        if self.cap {
            None
        } else {
            set_single(&self.set)
        }
    }
}

// ---------------------------------------------------------------------
// Board geometry in offset space
// ---------------------------------------------------------------------

/// The width of the offset grid.
pub open spec fn width(n: int) -> int {
    2 * n - 1
}

/// The index of offset (dx, dy).
pub open spec fn off_spec(n: int, dx: int, dy: int) -> int {
    (dy + n - 1) * width(n) + (dx + n - 1)
}

/// The x component of offset index `o`.
pub open spec fn dx_of(n: int, o: int) -> int {
    o % width(n) - (n - 1)
}

/// The y component of offset index `o`.
pub open spec fn dy_of(n: int, o: int) -> int {
    o / width(n) - (n - 1)
}

/// A step representable as an offset.
pub open spec fn in_range(n: int, d: int) -> bool {
    -n < d < n
}

/// Offset indices of the grid.
pub open spec fn valid_off(n: int, o: int) -> bool {
    0 <= o < width(n) * width(n)
}

/// Encoding and decoding offsets are inverse.
pub proof fn lemma_off(n: int, dx: int, dy: int)
    requires
        2 <= n <= 8,
        in_range(n, dx),
        in_range(n, dy),
    ensures
        valid_off(n, off_spec(n, dx, dy)),
        dx_of(n, off_spec(n, dx, dy)) == dx,
        dy_of(n, off_spec(n, dx, dy)) == dy,
        off_spec(n, dx, dy) < 256,
{
    let w = width(n);
    assert(0 <= (dy + n - 1) * w <= (w - 1) * w) by (nonlinear_arith)
        requires
            0 <= dy + n - 1 <= w - 1,
            w >= 3,
    ;
    assert(w * w <= 225) by (nonlinear_arith)
        requires
            3 <= w <= 15,
    ;
    assert((w - 1) * w + (w - 1) == w * w - 1) by (nonlinear_arith);
    vstd::arithmetic::div_mod::lemma_fundamental_div_mod_converse(off_spec(n, dx, dy), w, dy + n - 1, dx + n - 1);
}

/// A grid index decodes to a representable step and encodes back.
pub proof fn lemma_dxy(n: int, o: int)
    requires
        2 <= n <= 8,
        valid_off(n, o),
    ensures
        in_range(n, dx_of(n, o)),
        in_range(n, dy_of(n, o)),
        off_spec(n, dx_of(n, o), dy_of(n, o)) == o,
        o < 256,
{
    let w = width(n);
    vstd::arithmetic::div_mod::lemma_fundamental_div_mod(o, w);
    vstd::arithmetic::div_mod::lemma_mod_bound(o, w);
    assert(0 <= o / w < w) by (nonlinear_arith)
        requires
            0 <= o < w * w,
            w >= 3,
    {
        vstd::arithmetic::div_mod::lemma_div_pos_is_pos(o, w);
        vstd::arithmetic::div_mod::lemma_div_is_ordered(o, w * w - 1, w);
        vstd::arithmetic::div_mod::lemma_div_by_multiple(w, w);
        vstd::arithmetic::div_mod::lemma_div_multiples_vanish_fancy(w - 1, w - 1, w);
    }
    assert(w * (o / w) == (o / w) * w) by (nonlinear_arith);
    assert(w * w <= 225) by (nonlinear_arith)
        requires
            3 <= w <= 15,
    ;
}

pub open spec fn abs_i(x: int) -> int {
    if x < 0 {
        -x
    } else {
        x
    }
}

/// Chebyshev length of a step.
pub open spec fn cheb_len(dx: int, dy: int) -> int {
    if abs_i(dx) < abs_i(dy) {
        abs_i(dy)
    } else {
        abs_i(dx)
    }
}

/// Board geometry in offset space.
pub struct Geo<'a> {
    pub setup: &'a Setup,
    pub n: i32,
    pub anchor: SlotId,
}

impl Geo<'_> {
    /// The geometry of a setup, anchored at a slot of it.
    pub open spec fn wf(&self) -> bool {
        &&& self.setup.wf()
        &&& self.n == self.setup.n as int
        &&& self.anchor < self.setup.slots.len()
    }

    pub fn w(&self) -> (r: i32)
        requires
            self.wf(),
        ensures
            r == width(self.n as int),
    {
        2 * self.n - 1
    }

    pub fn off(&self, dx: i32, dy: i32) -> (r: Off)
        requires
            self.wf(),
            in_range(self.n as int, dx as int),
            in_range(self.n as int, dy as int),
        ensures
            r == off_spec(self.n as int, dx as int, dy as int),
            valid_off(self.n as int, r as int),
            r < 256,
    {
        proof {
            lemma_off(self.n as int, dx as int, dy as int);
        }
        ((dy + self.n - 1) * self.w() + (dx + self.n - 1)) as Off
    }

    pub fn dxy(&self, o: Off) -> (r: (i32, i32))
        requires
            self.wf(),
        ensures
            r.0 == dx_of(self.n as int, o as int),
            r.1 == dy_of(self.n as int, o as int),
    {
        let (w, n) = (self.w(), self.n);
        ((o as i32 % w) - (n - 1), (o as i32 / w) - (n - 1))
    }

    pub fn zero(&self) -> (r: Off)
        requires
            self.wf(),
        ensures
            r == off_spec(self.n as int, 0, 0),
            valid_off(self.n as int, r as int),
            r < 256,
            dx_of(self.n as int, r as int) == 0,
            dy_of(self.n as int, r as int) == 0,
    {
        proof {
            lemma_off(self.n as int, 0, 0);
        }
        self.off(0, 0)
    }

    /// Every offset of the grid but zero.
    pub fn all_offsets(&self) -> (s: OffSet)
        requires
            self.wf(),
        ensures
            forall|x: int| #[trigger] obit(s, x) <==> valid_off(self.n as int, x) && x != off_spec(self.n as int, 0, 0),
    {
        let z = self.zero();
        let w = self.w();
        proof {
            assert(w * w <= 225) by (nonlinear_arith)
                requires
                    3 <= w <= 15,
            ;
        }
        let ww = (w * w) as u16;
        let mut s: OffSet = [0u64; 4];
        proof {
            lemma_bit_empty();
        }
        let mut o: u16 = 0;
        while o < ww
            invariant
                self.wf(),
                ww == width(self.n as int) * width(self.n as int),
                ww <= 225,
                z == off_spec(self.n as int, 0, 0),
                0 <= o <= ww,
                forall|x: int| #[trigger] obit(s, x) <==> 0 <= x < o && x != z,
            decreases ww - o,
        {
            if o != z {
                set_add(&mut s, o);
            }
            o += 1;
        }
        s
    }

    /// Square at `a + o`, if on the board.
    pub fn at(&self, a: Sq, o: Off) -> (r: Option<Sq>)
        requires
            self.wf(),
        ensures
            r == sq_spec(self.setup.n, file_of(self.setup.n, a as int) + dx_of(self.n as int, o as int), rank_of(
                self.setup.n,
                a as int,
            ) + dy_of(self.n as int, o as int)),
    {
        let (f, r) = self.setup.file_rank(a);
        let (dx, dy) = self.dxy(o);
        self.setup.sq(f + dx, r + dy)
    }

    /// The offset from square `a` to square `q`.
    pub fn off_between(&self, a: Sq, q: Sq) -> (r: Off)
        requires
            self.wf(),
            a < self.setup.area_spec(),
            q < self.setup.area_spec(),
        ensures
            r == off_spec(
                self.n as int,
                file_of(self.setup.n, q as int) - file_of(self.setup.n, a as int),
                rank_of(self.setup.n, q as int) - rank_of(self.setup.n, a as int),
            ),
            r < 256,
    {
        proof {
            lemma_square_coords(self.setup.n, a as int);
            lemma_square_coords(self.setup.n, q as int);
        }
        let (fa, ra) = self.setup.file_rank(a);
        let (fq, rq) = self.setup.file_rank(q);
        self.off(fq - fa, rq - ra)
    }

    pub fn dist(&self, o: Off) -> (r: i32)
        requires
            self.wf(),
            valid_off(self.n as int, o as int),
        ensures
            r == cheb_len(dx_of(self.n as int, o as int), dy_of(self.n as int, o as int)),
    {
        proof {
            lemma_dxy(self.n as int, o as int);
        }
        let (dx, dy) = self.dxy(o);
        let ax = if dx < 0 {
            -dx
        } else {
            dx
        };
        let ay = if dy < 0 {
            -dy
        } else {
            dy
        };
        if ax < ay {
            ay
        } else {
            ax
        }
    }

    pub fn aligned(&self, o: Off) -> (r: bool)
        requires
            self.wf(),
        ensures
            r == (o != off_spec(self.n as int, 0, 0) && (dx_of(self.n as int, o as int) == 0 || dy_of(self.n as int, o as int) == 0)),
    {
        let (dx, dy) = self.dxy(o);
        o != self.zero() && (dx == 0 || dy == 0)
    }

    /// Offset difference `b - a`, if representable.
    pub fn diff(&self, a: Off, b: Off) -> (r: Option<Off>)
        requires
            self.wf(),
            valid_off(self.n as int, a as int),
            valid_off(self.n as int, b as int),
        ensures
            ({
                let n = self.n as int;
                let dx = dx_of(n, b as int) - dx_of(n, a as int);
                let dy = dy_of(n, b as int) - dy_of(n, a as int);
                r == if in_range(n, dx) && in_range(n, dy) {
                    Some(off_spec(n, dx, dy) as Off)
                } else {
                    None::<Off>
                }
            }),
    {
        proof {
            lemma_dxy(self.n as int, a as int);
            lemma_dxy(self.n as int, b as int);
        }
        let (ax, ay) = self.dxy(a);
        let (bx, by) = self.dxy(b);
        let (dx, dy) = (bx - ax, by - ay);
        if -self.n < dx && dx < self.n && -self.n < dy && dy < self.n {
            Some(self.off(dx, dy))
        } else {
            None
        }
    }

    /// Offset sum `a + b`, if representable.
    pub fn add(&self, a: Off, b: Off) -> (r: Option<Off>)
        requires
            self.wf(),
            valid_off(self.n as int, a as int),
            valid_off(self.n as int, b as int),
        ensures
            ({
                let n = self.n as int;
                let dx = dx_of(n, a as int) + dx_of(n, b as int);
                let dy = dy_of(n, a as int) + dy_of(n, b as int);
                r == if in_range(n, dx) && in_range(n, dy) {
                    Some(off_spec(n, dx, dy) as Off)
                } else {
                    None::<Off>
                }
            }),
    {
        proof {
            lemma_dxy(self.n as int, a as int);
            lemma_dxy(self.n as int, b as int);
        }
        let (ax, ay) = self.dxy(a);
        let (bx, by) = self.dxy(b);
        let (dx, dy) = (ax + bx, ay + by);
        if -self.n < dx && dx < self.n && -self.n < dy && dy < self.n {
            Some(self.off(dx, dy))
        } else {
            None
        }
    }

    pub fn aligned_pair(&self, p: Off, q: Off) -> (r: bool)
        requires
            self.wf(),
        ensures
            r == (p != q && (dx_of(self.n as int, p as int) == dx_of(self.n as int, q as int) || dy_of(self.n as int, p as int)
                == dy_of(self.n as int, q as int))),
    {
        let (px, py) = self.dxy(p);
        let (qx, qy) = self.dxy(q);
        p != q && (px == qx || py == qy)
    }

    pub fn dist_pair(&self, p: Off, q: Off) -> (r: i32)
        requires
            self.wf(),
            valid_off(self.n as int, p as int),
            valid_off(self.n as int, q as int),
        ensures
            r == cheb_len(
                dx_of(self.n as int, p as int) - dx_of(self.n as int, q as int),
                dy_of(self.n as int, p as int) - dy_of(self.n as int, q as int),
            ),
    {
        proof {
            lemma_dxy(self.n as int, p as int);
            lemma_dxy(self.n as int, q as int);
        }
        let (px, py) = self.dxy(p);
        let (qx, qy) = self.dxy(q);
        let ax = if px < qx {
            qx - px
        } else {
            px - qx
        };
        let ay = if py < qy {
            qy - py
        } else {
            py - qy
        };
        if ax < ay {
            ay
        } else {
            ax
        }
    }

    /// The offset `-d`.
    fn shift_off(&self, d: Off) -> (r: Off)
        requires
            self.wf(),
            valid_off(self.n as int, d as int),
        ensures
            r == off_spec(self.n as int, -dx_of(self.n as int, d as int), -dy_of(self.n as int, d as int)),
            valid_off(self.n as int, r as int),
    {
        proof {
            lemma_dxy(self.n as int, d as int);
        }
        let (dx, dy) = self.dxy(d);
        self.off(-dx, -dy)
    }
}

pub open spec fn strictly_between(a: int, b: int, c: int) -> bool {
    (a < b && b < c) || (c < b && b < a)
}

/// Offset `x` lies strictly between the offsets `p` and `q`, on their
/// common row or column.
pub open spec fn off_between_spec(n: int, p: int, q: int, x: int) -> bool {
    &&& valid_off(n, x)
    &&& {
        ||| dy_of(n, x) == dy_of(n, p) && dy_of(n, p) == dy_of(n, q) && strictly_between(dx_of(n, p), dx_of(n, x), dx_of(n, q))
        ||| dx_of(n, x) == dx_of(n, p) && dx_of(n, p) == dx_of(n, q) && strictly_between(dy_of(n, p), dy_of(n, x), dy_of(n, q))
    }
}

/// Offset `o` moved by `d` (`sign` 1) or by `-d` (`sign` -1).
pub open spec fn moved_dx(n: int, o: int, d: int, sign: int) -> int {
    dx_of(n, o) + if sign > 0 {
        dx_of(n, d)
    } else {
        -dx_of(n, d)
    }
}

pub open spec fn moved_dy(n: int, o: int, d: int, sign: int) -> int {
    dy_of(n, o) + if sign > 0 {
        dy_of(n, d)
    } else {
        -dy_of(n, d)
    }
}

/// `x` is the shift of an offset of `s`.
pub open spec fn shifted_from(n: int, s: OffSet, d: int, sign: int, x: int) -> bool {
    exists|o: int|
        #[trigger] obit(s, o) && in_range(n, moved_dx(n, o, d, sign)) && in_range(n, moved_dy(n, o, d, sign)) && x
            == off_spec(n, moved_dx(n, o, d, sign), moved_dy(n, o, d, sign))
}

impl Geo<'_> {
    /// Offsets strictly between `p` and `q` (both offsets, aligned).
    pub fn between(&self, p: Off, q: Off) -> (s: OffSet)
        requires
            self.wf(),
            valid_off(self.n as int, p as int),
            valid_off(self.n as int, q as int),
            p != q,
            dx_of(self.n as int, p as int) == dx_of(self.n as int, q as int) || dy_of(self.n as int, p as int) == dy_of(
                self.n as int,
                q as int,
            ),
        ensures
            forall|x: int| #[trigger] obit(s, x) <==> off_between_spec(self.n as int, p as int, q as int, x),
    {
        let ghost n = self.n as int;
        proof {
            lemma_dxy(n, p as int);
            lemma_dxy(n, q as int);
            lemma_bit_empty();
        }
        let (px, py) = self.dxy(p);
        let (qx, qy) = self.dxy(q);
        let sx: i32 = if qx > px {
            1
        } else if qx < px {
            -1
        } else {
            0
        };
        let sy: i32 = if qy > py {
            1
        } else if qy < py {
            -1
        } else {
            0
        };
        let mut s: OffSet = [0u64; 4];
        let mut x = px + sx;
        let mut y = py + sy;
        while x != qx || y != qy
            invariant
                self.wf(),
                n == self.n as int,
                px == dx_of(n, p as int),
                py == dy_of(n, p as int),
                qx == dx_of(n, q as int),
                qy == dy_of(n, q as int),
                in_range(n, px as int) && in_range(n, py as int) && in_range(n, qx as int) && in_range(n, qy as int),
                off_spec(n, px as int, py as int) == p,
                off_spec(n, qx as int, qy as int) == q,
                py == qy ==> sy == 0 && y == py && px != qx && (sx == 1 ==> px < x <= qx) && (sx == -1 ==> qx <= x < px) && (sx == 1
                    || sx == -1),
                py != qy ==> px == qx && sx == 0 && x == px && (sy == 1 ==> py < y <= qy) && (sy == -1 ==> qy <= y < py) && (sy == 1
                    || sy == -1),
                forall|z: int|
                    #[trigger] obit(s, z) <==> off_between_spec(n, p as int, q as int, z) && if py == qy {
                        strictly_between(px as int, dx_of(n, z), x as int)
                    } else {
                        strictly_between(py as int, dy_of(n, z), y as int)
                    },
            decreases (if sx == 1 {
                qx - x
            } else if sx == -1 {
                x - qx
            } else {
                0
            }) + (if sy == 1 {
                qy - y
            } else if sy == -1 {
                y - qy
            } else {
                0
            }),
        {
            let o = self.off(x, y);
            proof {
                lemma_off(n, x as int, y as int);
            }
            let ghost s0 = s;
            set_add(&mut s, o);
            proof {
                assert forall|z: int| #[trigger] obit(s, z) <==> off_between_spec(n, p as int, q as int, z) && if py == qy {
                    strictly_between(px as int, dx_of(n, z), (x + sx) as int)
                } else {
                    strictly_between(py as int, dy_of(n, z), (y + sy) as int)
                } by {
                    if off_between_spec(n, p as int, q as int, z) {
                        lemma_dxy(n, z);
                        if dx_of(n, z) == x && dy_of(n, z) == y {
                            assert(z == off_spec(n, x as int, y as int));
                        }
                    }
                    if z == o {
                        assert(dx_of(n, z) == x && dy_of(n, z) == y);
                    }
                }
            }
            x = x + sx;
            y = y + sy;
        }
        s
    }

    /// Shift a set by `d` (`sign` 1) or `-d` (`sign` -1): an anchor move.
    pub fn shift(&self, s: &OffSet, d: Off, sign: i32) -> (r: OffSet)
        requires
            self.wf(),
            valid_off(self.n as int, d as int),
            sign == 1 || sign == -1,
        ensures
            forall|x: int| #[trigger] obit(r, x) <==> shifted_from(self.n as int, *s, d as int, sign as int, x),
    {
        let ghost n = self.n as int;
        proof {
            lemma_dxy(n, d as int);
        }
        let (dx, dy) = self.dxy(d);
        let items = set_iter(s);
        let mut out: Vec<Off> = Vec::new();
        let mut i: usize = 0;
        while i < items.len()
            invariant
                self.wf(),
                n == self.n as int,
                dx == dx_of(n, d as int),
                dy == dy_of(n, d as int),
                in_range(n, dx as int) && in_range(n, dy as int),
                sign == 1 || sign == -1,
                forall|k: int| 0 <= k < items.len() ==> #[trigger] obit(*s, items@[k] as int),
                forall|x: int| #[trigger] obit(*s, x) ==> exists|k: int| 0 <= k < items.len() && items@[k] == x,
                0 <= i <= items.len(),
                forall|k: int| 0 <= k < out.len() ==> #[trigger] out@[k] < 256,
                forall|x: int| #[trigger] listed(out@, x) <==> shifted_upto(n, items@, d as int, sign as int, i as int, x),
            decreases items.len() - i,
        {
            let o = items[i];
            let (ox, oy) = self.dxy(o);
            proof {
                let w = width(n);
                assert(0 <= (o as int) % w < w);
                assert((o as int) / w <= o as int) by {
                    vstd::arithmetic::div_mod::lemma_div_is_ordered_by_denominator(o as int, 1, w);
                }
                assert(0 <= (o as int) / w);
            }
            let (nx, ny) = if sign > 0 {
                (ox + dx, oy + dy)
            } else {
                (ox - dx, oy - dy)
            };
            let ghost before = out@;
            if -self.n < nx && nx < self.n && -self.n < ny && ny < self.n {
                let t = self.off(nx, ny);
                out.push(t);
            }
            proof {
                assert forall|x: int| #[trigger] listed(out@, x) <==> shifted_upto(n, items@, d as int, sign as int, i + 1, x) by {
                    if listed(out@, x) {
                        let k = choose|k: int| 0 <= k < out.len() && out@[k] == x;
                        if k < before.len() {
                            assert(before[k] == x);
                            assert(listed(before, x));
                            let j = choose|j: int| 0 <= j < i && #[trigger] shift_hit(n, items@[j] as int, d as int, sign as int, x);
                        } else {
                            assert(shift_hit(n, items@[i as int] as int, d as int, sign as int, x));
                        }
                    }
                    if shifted_upto(n, items@, d as int, sign as int, i + 1, x) {
                        let k = choose|k: int| 0 <= k < i + 1 && #[trigger] shift_hit(n, items@[k] as int, d as int, sign as int, x);
                        if k < i {
                            assert(shifted_upto(n, items@, d as int, sign as int, i as int, x));
                            assert(listed(before, x));
                            let j = choose|j: int| 0 <= j < before.len() && before[j] == x;
                            assert(out@[j] == before[j]);
                        } else {
                            assert(out@[out.len() - 1] == x);
                        }
                    }
                }
            }
            i += 1;
        }
        let r = set_from(&out);
        proof {
            assert forall|x: int| #[trigger] obit(r, x) <==> shifted_from(n, *s, d as int, sign as int, x) by {
                if obit(r, x) {
                    assert(listed(out@, x));
                    assert(shifted_upto(n, items@, d as int, sign as int, items.len() as int, x));
                    let k = choose|k: int| 0 <= k < items.len() && #[trigger] shift_hit(n, items@[k] as int, d as int, sign as int, x);
                    assert(obit(*s, items@[k] as int));
                    assert(shifted_from(n, *s, d as int, sign as int, x));
                }
                if shifted_from(n, *s, d as int, sign as int, x) {
                    let o = choose|o: int|
                        #[trigger] obit(*s, o) && in_range(n, moved_dx(n, o, d as int, sign as int)) && in_range(n, moved_dy(n, o, d as int, sign as int)) && x
                            == off_spec(n, moved_dx(n, o, d as int, sign as int), moved_dy(n, o, d as int, sign as int));
                    let k = choose|k: int| 0 <= k < items.len() && items@[k] == o;
                    assert(shift_hit(n, items@[k] as int, d as int, sign as int, x));
                    assert(shifted_upto(n, items@, d as int, sign as int, items.len() as int, x));
                    assert(listed(out@, x));
                }
            }
        }
        r
    }
}

/// `x` is in the list.
pub open spec fn listed(v: Seq<Off>, x: int) -> bool {
    exists|k: int| 0 <= k < v.len() && v[k] == x
}

/// Offset `o` shifted lands on `x`.
pub open spec fn shift_hit(n: int, o: int, d: int, sign: int, x: int) -> bool {
    in_range(n, moved_dx(n, o, d, sign)) && in_range(n, moved_dy(n, o, d, sign)) && x == off_spec(
        n,
        moved_dx(n, o, d, sign),
        moved_dy(n, o, d, sign),
    )
}

/// Some of the first `i` items shifted lands on `x`.
pub open spec fn shifted_upto(n: int, items: Seq<Off>, d: int, sign: int, i: int, x: int) -> bool {
    exists|k: int| 0 <= k < i && #[trigger] shift_hit(n, items[k] as int, d, sign, x)
}

// ---------------------------------------------------------------------
// Counting what a region leaves open
// ---------------------------------------------------------------------

/// Open facts of the first `k` offset domains: offsets and captures.
pub open spec fn offs_count(offs: Seq<OffDom>, k: int) -> nat
    decreases k,
{
    if k <= 0 {
        0
    } else {
        offs_count(offs, k - 1) + ocount(offs[k - 1].set) + if offs[k - 1].cap {
            1nat
        } else {
            0nat
        }
    }
}

/// Open facts of one domain.
pub open spec fn dom_count(d: OffDom) -> nat {
    ocount(d.set) + if d.cap {
        1nat
    } else {
        0nat
    }
}

/// Replacing one domain changes the count by the difference.
pub proof fn lemma_offs_update(offs: Seq<OffDom>, j: int, d: OffDom, k: int)
    requires
        0 <= j < offs.len(),
        0 <= k <= offs.len(),
    ensures
        offs_count(offs.update(j, d), k) + (if j < k {
            dom_count(offs[j])
        } else {
            0
        }) == offs_count(offs, k) + (if j < k {
            dom_count(d)
        } else {
            0
        }),
    decreases k,
{
    if k > 0 {
        lemma_offs_update(offs, j, d, k - 1);
    }
}

proof fn lemma_word_subset(a: OffSet, b: OffSet, w: int)
    requires
        0 <= w < 4,
        forall|x: int| #[trigger] obit(a, x) ==> obit(b, x),
    ensures
        forall|q: int| 0 <= q < 64 && #[trigger] bit(a@[w], q) ==> bit(b@[w], q),
{
    assert forall|q: int| 0 <= q < 64 && #[trigger] bit(a@[w], q) implies bit(b@[w], q) by {
        assert(obit(a, w * 64 + q));
    }
}

/// Fewer offsets, fewer counted.
pub proof fn lemma_ocount_subset(a: OffSet, b: OffSet)
    requires
        forall|x: int| #[trigger] obit(a, x) ==> obit(b, x),
    ensures
        ocount(a) <= ocount(b),
        (exists|x: int| #[trigger] obit(b, x) && !obit(a, x)) ==> ocount(a) < ocount(b),
{
    lemma_word_subset(a, b, 0);
    lemma_word_subset(a, b, 1);
    lemma_word_subset(a, b, 2);
    lemma_word_subset(a, b, 3);
    lemma_pop_subset(b@[0], a@[0], 64);
    lemma_pop_subset(b@[1], a@[1], 64);
    lemma_pop_subset(b@[2], a@[2], 64);
    lemma_pop_subset(b@[3], a@[3], 64);
    if exists|x: int| #[trigger] obit(b, x) && !obit(a, x) {
        let x = choose|x: int| #[trigger] obit(b, x) && !obit(a, x);
        let w = x / 64;
        let q = x % 64;
        assert(bit(b@[w], q) && !bit(a@[w], q));
        assert(exists|q: int| 0 <= q < 64 && #[trigger] bit(b@[w], q) && !bit(a@[w], q));
    }
}

/// Two sets with the same offsets.
fn set_eq(a: &OffSet, b: &OffSet) -> (r: bool)
    ensures
        r == forall|x: int| #[trigger] obit(*a, x) == obit(*b, x),
{
    let r = a[0] == b[0] && a[1] == b[1] && a[2] == b[2] && a[3] == b[3];
    proof {
        if !r {
            let w: int = if a@[0] != b@[0] {
                0
            } else if a@[1] != b@[1] {
                1
            } else if a@[2] != b@[2] {
                2
            } else {
                3
            };
            if forall|q: int| 0 <= q < 64 ==> #[trigger] bit(a@[w], q) == bit(b@[w], q) {
                assert forall|q: int| #[trigger] bit(a@[w], q) ==> bit(b@[w], q) by {}
                assert forall|q: int| #[trigger] bit(b@[w], q) ==> bit(a@[w], q) by {}
                crate::absmove::lemma_bits_eq_pub(a@[w], b@[w]);
            }
            let q = choose|q: int| 0 <= q < 64 && !(#[trigger] bit(a@[w], q) == bit(b@[w], q));
            assert(!(obit(*a, w * 64 + q) == obit(*b, w * 64 + q)));
        } else {
            assert forall|x: int| #[trigger] obit(*a, x) == obit(*b, x) by {
                if 0 <= x < 256 {
                    let w = x / 64;
                    assert(0 <= w < 4);
                }
            }
        }
    }
    r
}

// ---------------------------------------------------------------------
// Anchor-relative regions
// ---------------------------------------------------------------------

/// An anchor-relative region.
#[derive(Clone, Debug)]
pub struct Rel {
    /// Anchor squares.
    pub a: u64,
    /// Offset domains per slot (the anchor's own entry is unused).
    pub off: Vec<OffDom>,
    pub stm: Color,
}

/// Open facts of a region: anchor squares, offsets and captures.
pub open spec fn rel_size(a: u64, offs: Seq<OffDom>) -> nat {
    popcount(a) + offs_count(offs, offs.len() as int)
}

/// Domain by domain, the first region lies inside the second.
pub open spec fn rel_within(a: u64, offs: Seq<OffDom>, b: u64, boffs: Seq<OffDom>) -> bool {
    &&& offs.len() == boffs.len()
    &&& forall|q: int| #[trigger] bit(a, q) ==> bit(b, q)
    &&& forall|k: int, x: int| 0 <= k < offs.len() && #[trigger] obit(offs[k].set, x) ==> obit(boffs[k].set, x)
    &&& forall|k: int| 0 <= k < offs.len() ==> (#[trigger] offs[k]).cap == boffs[k].cap
}

/// The square at `a + o` is on the board.
pub open spec fn on_board_at(g: &Geo, sq: int, o: int) -> bool {
    sq_spec(g.setup.n, file_of(g.setup.n, sq) + dx_of(g.n as int, o), rank_of(g.setup.n, sq) + dy_of(g.n as int, o)) is Some
}

/// Some offset of the set lands on the board from square `sq`.
fn reaches_board(g: &Geo, set: &OffSet, sq: Sq) -> (r: bool)
    requires
        g.wf(),
    ensures
        r == exists|o: int| #[trigger] obit(*set, o) && on_board_at(g, sq as int, o),
{
    let it = set_iter(set);
    let mut i: usize = 0;
    while i < it.len()
        invariant
            g.wf(),
            forall|k: int| 0 <= k < it.len() ==> #[trigger] obit(*set, it@[k] as int),
            forall|x: int| #[trigger] obit(*set, x) ==> exists|k: int| 0 <= k < it.len() && it@[k] == x,
            0 <= i <= it.len(),
            forall|k: int| 0 <= k < i ==> !on_board_at(g, sq as int, #[trigger] it@[k] as int),
        decreases it.len() - i,
    {
        if g.at(sq, it[i]).is_some() {
            proof {
                assert(obit(*set, it@[i as int] as int) && on_board_at(g, sq as int, it@[i as int] as int));
            }
            return true;
        }
        i += 1;
    }
    proof {
        assert forall|o: int| #[trigger] obit(*set, o) implies !on_board_at(g, sq as int, o) by {
            let k = choose|k: int| 0 <= k < it.len() && it@[k] == o;
            assert(!on_board_at(g, sq as int, it@[k] as int));
        }
    }
    false
}

/// Some anchor square of `a` puts offset `o` on the board.
fn lands_exec(g: &Geo, a: u64, o: Off) -> (r: bool)
    requires
        g.wf(),
    ensures
        r == lands(g, a, o as int),
{
    let area = g.setup.area();
    proof {
        crate::absmove::lemma_area_pub(g.setup);
    }
    let mut sq: usize = 0;
    while sq < area
        invariant
            g.wf(),
            area == g.setup.area_spec(),
            area <= 64,
            0 <= sq <= area,
            forall|q: int| 0 <= q < sq ==> !(#[trigger] bit(a, q) && on_board_at(g, q, o as int)),
        decreases area - sq,
    {
        proof {
            lemma_bit_test(a, sq as u64);
        }
        if a & (1u64 << sq) != 0 && g.at(sq as Sq, o).is_some() {
            proof {
                assert(bit(a, sq as int) && (sq as int) < g.setup.area_spec() && on_board_at(g, sq as int, o as int));
            }
            return true;
        }
        sq += 1;
    }
    false
}

/// The offsets of the set that land on the board from some anchor square.
fn keep_on_board(g: &Geo, set: &OffSet, a: u64) -> (r: OffSet)
    requires
        g.wf(),
    ensures
        forall|x: int| #[trigger] obit(r, x) <==> obit(*set, x) && lands(g, a, x),
{
    let mut r: OffSet = [0u64; 4];
    proof {
        lemma_bit_empty();
    }
    let mut o: u16 = 0;
    while o < 256
        invariant
            g.wf(),
            0 <= o <= 256,
            forall|x: int| #[trigger] obit(r, x) <==> 0 <= x < o && obit(*set, x) && lands(g, a, x),
        decreases 256 - o,
    {
        if set_has(set, o) && lands_exec(g, a, o) {
            set_add(&mut r, o);
        }
        o += 1;
    }
    r
}

/// Some anchor square of `a` puts offset `x` on the board.
pub open spec fn lands(g: &Geo, a: u64, x: int) -> bool {
    exists|sq: int| #[trigger] bit(a, sq) && sq < g.setup.area_spec() && on_board_at(g, sq, x)
}

/// No offset domain of a non-anchor slot holds offset zero, every
/// required piece has an offset left, and some anchor square is left.
pub open spec fn normal(g: &Geo, a: u64, offs: Seq<OffDom>) -> bool {
    &&& a != 0
    &&& forall|k: int| 0 <= k < offs.len() && k != g.anchor ==> !obit(#[trigger] offs[k].set, off_spec(g.n as int, 0, 0))
    &&& forall|k: int| 0 <= k < offs.len() && k != g.anchor && !(#[trigger] offs[k]).cap ==> exists|x: int| obit(offs[k].set, x)
}

/// Inside is transitive.
pub proof fn lemma_within_trans(a1: u64, o1: Seq<OffDom>, a2: u64, o2: Seq<OffDom>, a3: u64, o3: Seq<OffDom>)
    requires
        rel_within(a1, o1, a2, o2),
        rel_within(a2, o2, a3, o3),
    ensures
        rel_within(a1, o1, a3, o3),
{
    assert forall|k: int, x: int| 0 <= k < o1.len() && #[trigger] obit(o1[k].set, x) implies obit(o3[k].set, x) by {
        assert(obit(o2[k].set, x));
    }
    assert forall|k: int| 0 <= k < o1.len() implies (#[trigger] o1[k]).cap == o3[k].cap by {
        assert(o2[k].cap == o3[k].cap);
    }
}

/// Fewer anchor squares, fewer counted.
proof fn lemma_pop_fewer(a: u64, b: u64)
    requires
        forall|q: int| #[trigger] bit(a, q) ==> bit(b, q),
    ensures
        popcount(a) <= popcount(b),
        a != b ==> popcount(a) < popcount(b),
{
    lemma_pop_subset(b, a, 64);
    if a != b {
        if forall|q: int| #[trigger] bit(b, q) ==> bit(a, q) {
            crate::absmove::lemma_bits_eq_pub(a, b);
        }
        let q = choose|q: int| #[trigger] bit(b, q) && !bit(a, q);
        assert(0 <= q < 64 && bit(b, q) && !bit(a, q));
    }
}

/// Replace the offset set of slot `s` by a subset of it.
fn shrink_dom(offs: &mut Vec<OffDom>, s: usize, set: OffSet)
    requires
        s < old(offs).len(),
        forall|x: int| #[trigger] obit(set, x) ==> obit(old(offs)@[s as int].set, x),
    ensures
        final(offs)@ == old(offs)@.update(s as int, OffDom { set, cap: old(offs)@[s as int].cap }),
        offs_count(final(offs)@, final(offs)@.len() as int) <= offs_count(old(offs)@, old(offs)@.len() as int),
        (exists|x: int| #[trigger] obit(old(offs)@[s as int].set, x) && !obit(set, x)) ==> offs_count(
            final(offs)@,
            final(offs)@.len() as int,
        ) < offs_count(old(offs)@, old(offs)@.len() as int),
        rel_within(0, final(offs)@, 0, old(offs)@),
{
    let ghost before = offs@;
    let d = OffDom { set, cap: offs[s].cap };
    offs.set(s, d);
    proof {
        lemma_offs_update(before, s as int, d, before.len() as int);
        lemma_ocount_subset(set, before[s as int].set);
        assert forall|k: int, x: int| 0 <= k < offs@.len() && #[trigger] obit(offs@[k].set, x) implies obit(before[k].set, x) by {
            if k == s {
                assert(obit(set, x));
            }
        }
        assert forall|k: int| 0 <= k < offs@.len() implies (#[trigger] offs@[k]).cap == before[k].cap by {}
    }
}

impl Rel {
    /// Exclude the anchor's offset, propagate pinned offsets, and prune the
    /// anchor set and the offset sets against the board. False if empty.
    pub fn normalize(&mut self, g: &Geo) -> (ok: bool)
        requires
            g.wf(),
            old(self).off.len() == g.setup.slots.len(),
        ensures
            final(self).off.len() == old(self).off.len(),
            final(self).stm == old(self).stm,
            rel_within(final(self).a, final(self).off@, old(self).a, old(self).off@),
            rel_size(final(self).a, final(self).off@) <= rel_size(old(self).a, old(self).off@),
            ok ==> normal(g, final(self).a, final(self).off@),
            forall|p: Seq<Option<Sq>>, ps: Color|
                valid_pos(g, p) && #[trigger] holds_in(g, old(self).a, old(self).off@, old(self).stm, p, ps) ==> holds_in(
                    g,
                    final(self).a,
                    final(self).off@,
                    final(self).stm,
                    p,
                    ps,
                ),
            !ok ==> forall|p: Seq<Option<Sq>>, ps: Color|
                valid_pos(g, p) ==> !#[trigger] holds_in(g, old(self).a, old(self).off@, old(self).stm, p, ps),
    {
        let zero = g.zero();
        let n = self.off.len();
        let area = g.setup.area();
        let ghost stm = self.stm;
        proof {
            crate::absmove::lemma_area_pub(g.setup);
            assert(rel_within(self.a, self.off@, self.a, self.off@));
        }
        loop
            invariant
                g.wf(),
                zero == off_spec(g.n as int, 0, 0),
                zero < 256,
                n == self.off.len(),
                n == g.setup.slots.len(),
                area == g.setup.area_spec(),
                area <= 64,
                self.stm == old(self).stm,
                stm == self.stm,
                rel_within(self.a, self.off@, old(self).a, old(self).off@),
                rel_size(self.a, self.off@) <= rel_size(old(self).a, old(self).off@),
                forall|p: Seq<Option<Sq>>, ps: Color|
                    valid_pos(g, p) && #[trigger] holds_in(g, old(self).a, old(self).off@, stm, p, ps) ==> holds_in(
                        g,
                        self.a,
                        self.off@,
                        stm,
                        p,
                        ps,
                    ),
            decreases rel_size(self.a, self.off@),
        {
            let ghost start_a = self.a;
            let ghost start = self.off@;
            let mut changed = false;
            proof {
                assert(rel_within(self.a, self.off@, start_a, start));
            }
            // Offset zero is the anchor's own square.
            let mut s: usize = 0;
            while s < n
                invariant
                    g.wf(),
                    zero == off_spec(g.n as int, 0, 0),
                    zero < 256,
                    n == self.off.len(),
                    n == g.setup.slots.len(),
                    self.stm == old(self).stm,
                    stm == self.stm,
                    0 <= s <= n,
                    self.a == start_a,
                    rel_within(self.a, self.off@, start_a, start),
                    rel_size(self.a, self.off@) + (if changed { 1int } else { 0int }) <= rel_size(start_a, start),
                    forall|k: int| 0 <= k < s && k != g.anchor ==> !obit(#[trigger] self.off@[k].set, zero as int),
                    forall|p: Seq<Option<Sq>>, ps: Color|
                        valid_pos(g, p) && #[trigger] holds_in(g, start_a, start, stm, p, ps) ==> holds_in(g, self.a, self.off@, stm, p, ps),
                decreases n - s,
            {
                if s as SlotId != g.anchor && set_has(&self.off[s].set, zero) {
                    let mut t = self.off[s].set;
                    set_del(&mut t, zero);
                    let ghost before = self.off@;
                    shrink_dom(&mut self.off, s, t);
                    proof {
                        assert(obit(before[s as int].set, zero as int) && !obit(t, zero as int));
                        lemma_within_trans(self.a, self.off@, self.a, before, start_a, start);
                        assert forall|k: int| 0 <= k < s + 1 && k != g.anchor implies !obit(#[trigger] self.off@[k].set, zero as int) by {
                            if k < s {
                                assert(!obit(before[k].set, zero as int));
                            }
                        }
                        assert forall|p: Seq<Option<Sq>>, ps: Color|
                            valid_pos(g, p) && #[trigger] holds_in(g, start_a, start, stm, p, ps) implies holds_in(g, self.a, self.off@, stm, p, ps) by {
                            assert(holds_in(g, self.a, before, stm, p, ps));
                            let a0 = p[g.anchor as int].unwrap() as int;
                            assert(dom_holds(g, before[s as int], a0, p[s as int]));
                            if p[s as int] is Some {
                                let q = p[s as int].unwrap() as int;
                                if sq_off(g, a0, q) == zero {
                                    lemma_pos_squares(g, p, s as int);
                                    lemma_pos_squares(g, p, g.anchor as int);
                                    lemma_sq_off_zero(g, a0, q);
                                    lemma_distinct_pair(p, s as int, g.anchor as int);
                                }
                            }
                            assert(dom_holds(g, self.off@[s as int], a0, p[s as int]));
                            lemma_update_holds(g, self.a, before, stm, s as int, self.off@[s as int], p, ps);
                            assert(before.update(s as int, self.off@[s as int]) =~= self.off@);
                        }
                    }
                    changed = true;
                }
                s += 1;
            }
            // A pinned offset is taken by its piece.
            let mut s: usize = 0;
            while s < n
                invariant
                    g.wf(),
                    zero == off_spec(g.n as int, 0, 0),
                    zero < 256,
                    n == self.off.len(),
                    n == g.setup.slots.len(),
                    self.stm == old(self).stm,
                    stm == self.stm,
                    0 <= s <= n,
                    self.a == start_a,
                    rel_within(self.a, self.off@, start_a, start),
                    rel_size(self.a, self.off@) + (if changed { 1int } else { 0int }) <= rel_size(start_a, start),
                    forall|k: int| 0 <= k < n && k != g.anchor ==> !obit(#[trigger] self.off@[k].set, zero as int),
                    forall|p: Seq<Option<Sq>>, ps: Color|
                        valid_pos(g, p) && #[trigger] holds_in(g, start_a, start, stm, p, ps) ==> holds_in(g, self.a, self.off@, stm, p, ps),
                decreases n - s,
            {
                if s as SlotId != g.anchor {
                    let ds = self.off[s];
                    if let Some(o) = ds.pinned() {
                        proof {
                            assert(obit(self.off@[s as int].set, o as int));
                        }
                        let mut t: usize = 0;
                        while t < n
                            invariant
                                g.wf(),
                                zero == off_spec(g.n as int, 0, 0),
                                zero < 256,
                                n == self.off.len(),
                                n == g.setup.slots.len(),
                                self.stm == old(self).stm,
                                stm == self.stm,
                                0 <= t <= n,
                                o < 256,
                                (s as int) < n,
                                s != g.anchor,
                                ds == self.off@[s as int],
                                !ds.cap,
                                single_at(ds.set, o as int),
                                self.a == start_a,
                                rel_within(self.a, self.off@, start_a, start),
                                rel_size(self.a, self.off@) + (if changed { 1int } else { 0int }) <= rel_size(start_a, start),
                                forall|k: int| 0 <= k < n && k != g.anchor ==> !obit(#[trigger] self.off@[k].set, zero as int),
                                forall|p: Seq<Option<Sq>>, ps: Color|
                                    valid_pos(g, p) && #[trigger] holds_in(g, start_a, start, stm, p, ps) ==> holds_in(g, self.a, self.off@, stm, p, ps),
                            decreases n - t,
                        {
                            if t as SlotId != g.anchor && t != s && set_has(&self.off[t].set, o) {
                                let mut u = self.off[t].set;
                                set_del(&mut u, o);
                                let ghost before = self.off@;
                                shrink_dom(&mut self.off, t, u);
                                proof {
                                    assert(obit(before[t as int].set, o as int) && !obit(u, o as int));
                                    lemma_within_trans(self.a, self.off@, self.a, before, start_a, start);
                                    assert forall|k: int| 0 <= k < n && k != g.anchor implies !obit(#[trigger] self.off@[k].set, zero as int) by {
                                        assert(!obit(before[k].set, zero as int));
                                    }
                                    assert forall|p: Seq<Option<Sq>>, ps: Color|
                                        valid_pos(g, p) && #[trigger] holds_in(g, start_a, start, stm, p, ps) implies holds_in(
                                            g,
                                            self.a,
                                            self.off@,
                                            stm,
                                            p,
                                            ps,
                                        ) by {
                                        assert(holds_in(g, self.a, before, stm, p, ps));
                                        let a0 = p[g.anchor as int].unwrap() as int;
                                        assert(dom_holds(g, before[t as int], a0, p[t as int]));
                                        assert(dom_holds(g, before[s as int], a0, p[s as int]));
                                        if p[t as int] is Some {
                                            let qt = p[t as int].unwrap() as int;
                                            if sq_off(g, a0, qt) == o {
                                                let qs = p[s as int].unwrap() as int;
                                                assert(obit(ds.set, sq_off(g, a0, qs)));
                                                lemma_pos_squares(g, p, s as int);
                                                lemma_pos_squares(g, p, t as int);
                                                lemma_pos_squares(g, p, g.anchor as int);
                                                lemma_sq_off_inj(g, a0, qs, qt);
                                                lemma_distinct_pair(p, s as int, t as int);
                                            }
                                        }
                                        assert(dom_holds(g, self.off@[t as int], a0, p[t as int]));
                                        lemma_update_holds(g, self.a, before, stm, t as int, self.off@[t as int], p, ps);
                                        assert(before.update(t as int, self.off@[t as int]) =~= self.off@);
                                    }
                                }
                                changed = true;
                            }
                            t += 1;
                        }
                    }
                }
                s += 1;
            }
            // Anchor squares from which some required piece has no on-board offset.
            let mut a = self.a;
            let mut sq: usize = 0;
            while sq < area
                invariant
                    g.wf(),
                    n == self.off.len(),
                    n == g.setup.slots.len(),
                    area == g.setup.area_spec(),
                    area <= 64,
                    0 <= sq <= area,
                    stm == self.stm,
                    forall|q: int| #[trigger] bit(a, q) ==> bit(self.a, q),
                    forall|p: Seq<Option<Sq>>, ps: Color|
                        valid_pos(g, p) && #[trigger] holds_in(g, start_a, start, stm, p, ps) ==> holds_in(g, self.a, self.off@, stm, p, ps)
                            && bit(a, p[g.anchor as int].unwrap() as int),
                decreases area - sq,
            {
                proof {
                    lemma_bit_test(a, sq as u64);
                }
                if a & (1u64 << sq) != 0 {
                    let mut drop = false;
                    let mut t: usize = 0;
                    while t < n && !drop
                        invariant
                            g.wf(),
                            n == self.off.len(),
                            n == g.setup.slots.len(),
                            0 <= t <= n,
                            sq < 64,
                            drop ==> exists|k: int|
                                0 <= k < n && k != g.anchor && !self.off@[k].cap && !(exists|o: int| #[trigger] obit(self.off@[k].set, o)
                                    && on_board_at(g, sq as int, o)),
                        decreases n - t,
                    {
                        if t as SlotId != g.anchor {
                            let d = self.off[t];
                            if !d.cap && !reaches_board(g, &d.set, sq as Sq) {
                                drop = true;
                            }
                        }
                        t += 1;
                    }
                    if drop {
                        proof {
                            lemma_bits(a, 1u64 << sq);
                            crate::narrow::lemma_bit_single(sq as u64);
                            assert forall|p: Seq<Option<Sq>>, ps: Color|
                                valid_pos(g, p) && #[trigger] holds_in(g, start_a, start, stm, p, ps) implies bit(
                                    a & !(1u64 << sq),
                                    p[g.anchor as int].unwrap() as int,
                                ) by {
                                let a0 = p[g.anchor as int].unwrap() as int;
                                if a0 == sq {
                                    let k = choose|k: int|
                                        0 <= k < n && k != g.anchor && !self.off@[k].cap && !(exists|o: int| #[trigger] obit(self.off@[k].set, o)
                                            && on_board_at(g, sq as int, o));
                                    assert(holds_in(g, self.a, self.off@, stm, p, ps));
                                    assert(dom_holds(g, self.off@[k], a0, p[k]));
                                    let qk = p[k].unwrap() as int;
                                    lemma_pos_squares(g, p, k);
                                    lemma_pos_squares(g, p, g.anchor as int);
                                    lemma_sq_off(g, a0, qk);
                                    assert(obit(self.off@[k].set, sq_off(g, a0, qk)) && on_board_at(g, sq as int, sq_off(g, a0, qk)));
                                }
                            }
                        }
                        a = a & !(1u64 << sq);
                    }
                }
                sq += 1;
            }
            if a != self.a {
                proof {
                    lemma_pop_fewer(a, self.a);
                }
                let ghost before_a = self.a;
                self.a = a;
                proof {
                    assert forall|p: Seq<Option<Sq>>, ps: Color|
                        valid_pos(g, p) && #[trigger] holds_in(g, start_a, start, stm, p, ps) implies holds_in(g, self.a, self.off@, stm, p, ps) by {
                        assert(holds_in(g, before_a, self.off@, stm, p, ps));
                    }
                }
                changed = true;
            }
            proof {
                assert(rel_within(self.a, self.off@, start_a, start));
            }
            // Offsets that are off the board from every anchor square.
            let mut s: usize = 0;
            while s < n
                invariant
                    g.wf(),
                    zero == off_spec(g.n as int, 0, 0),
                    zero < 256,
                    n == self.off.len(),
                    n == g.setup.slots.len(),
                    self.stm == old(self).stm,
                    stm == self.stm,
                    0 <= s <= n,
                    rel_within(self.a, self.off@, start_a, start),
                    rel_size(self.a, self.off@) + (if changed { 1int } else { 0int }) <= rel_size(start_a, start),
                    forall|k: int| 0 <= k < n && k != g.anchor ==> !obit(#[trigger] self.off@[k].set, zero as int),
                    forall|p: Seq<Option<Sq>>, ps: Color|
                        valid_pos(g, p) && #[trigger] holds_in(g, start_a, start, stm, p, ps) ==> holds_in(g, self.a, self.off@, stm, p, ps),
                decreases n - s,
            {
                if s as SlotId != g.anchor {
                    let d = self.off[s];
                    let keep = keep_on_board(g, &d.set, self.a);
                    if !set_eq(&keep, &d.set) {
                        let ghost before = self.off@;
                        shrink_dom(&mut self.off, s, keep);
                        proof {
                            let x = choose|x: int| !(#[trigger] obit(keep, x) == obit(d.set, x));
                            assert(obit(before[s as int].set, x) && !obit(keep, x));
                            lemma_within_trans(self.a, self.off@, self.a, before, start_a, start);
                            assert forall|k: int| 0 <= k < n && k != g.anchor implies !obit(#[trigger] self.off@[k].set, zero as int) by {
                                assert(!obit(before[k].set, zero as int));
                            }
                            assert forall|p: Seq<Option<Sq>>, ps: Color|
                                valid_pos(g, p) && #[trigger] holds_in(g, start_a, start, stm, p, ps) implies holds_in(g, self.a, self.off@, stm, p, ps) by {
                                assert(holds_in(g, self.a, before, stm, p, ps));
                                let a0 = p[g.anchor as int].unwrap() as int;
                                assert(dom_holds(g, before[s as int], a0, p[s as int]));
                                if p[s as int] is Some {
                                    let q = p[s as int].unwrap() as int;
                                    lemma_pos_squares(g, p, s as int);
                                    lemma_pos_squares(g, p, g.anchor as int);
                                    lemma_sq_off(g, a0, q);
                                    assert(bit(self.a, a0) && a0 < g.setup.area_spec() && on_board_at(g, a0, sq_off(g, a0, q)));
                                    assert(lands(g, self.a, sq_off(g, a0, q)));
                                }
                                assert(dom_holds(g, self.off@[s as int], a0, p[s as int]));
                                lemma_update_holds(g, self.a, before, stm, s as int, self.off@[s as int], p, ps);
                                assert(before.update(s as int, self.off@[s as int]) =~= self.off@);
                            }
                        }
                        changed = true;
                    }
                }
                s += 1;
            }
            proof {
                lemma_within_trans(self.a, self.off@, start_a, start, old(self).a, old(self).off@);
            }
            if self.a == 0 {
                proof {
                    lemma_bit_empty();
                }
                return false;
            }
            let mut s: usize = 0;
            while s < n
                invariant
                    g.wf(),
                    n == self.off.len(),
                    n == g.setup.slots.len(),
                    n == old(self).off.len(),
                    self.stm == old(self).stm,
                    stm == self.stm,
                    rel_within(self.a, self.off@, old(self).a, old(self).off@),
                    rel_size(self.a, self.off@) <= rel_size(old(self).a, old(self).off@),
                    forall|p: Seq<Option<Sq>>, ps: Color|
                        valid_pos(g, p) && #[trigger] holds_in(g, old(self).a, old(self).off@, stm, p, ps) ==> holds_in(
                            g,
                            self.a,
                            self.off@,
                            stm,
                            p,
                            ps,
                        ),
                    0 <= s <= n,
                    forall|k: int| 0 <= k < s && k != g.anchor && !(#[trigger] self.off@[k]).cap ==> exists|x: int| obit(self.off@[k].set, x),
                decreases n - s,
            {
                if s as SlotId != g.anchor && !self.off[s].cap && set_empty(&self.off[s].set) {
                    proof {
                        assert forall|p: Seq<Option<Sq>>, ps: Color|
                            valid_pos(g, p) implies !#[trigger] holds_in(g, old(self).a, old(self).off@, old(self).stm, p, ps) by {
                            if holds_in(g, old(self).a, old(self).off@, old(self).stm, p, ps) {
                                assert(holds_in(g, self.a, self.off@, stm, p, ps));
                                let a0 = p[g.anchor as int].unwrap() as int;
                                assert(dom_holds(g, self.off@[s as int], a0, p[s as int]));
                            }
                        }
                    }
                    return false;
                }
                s += 1;
            }
            proof {
                assert forall|p: Seq<Option<Sq>>, ps: Color|
                    valid_pos(g, p) && #[trigger] holds_in(g, old(self).a, old(self).off@, stm, p, ps) implies holds_in(g, self.a, self.off@, stm, p, ps) by {
                    assert(holds_in(g, start_a, start, stm, p, ps));
                }
            }
            if !changed {
                return true;
            }
        }
    }
}

/// The region has one domain per slot of the geometry's setup.
pub open spec fn rel_fits(g: &Geo, r: &Rel) -> bool {
    &&& g.wf()
    &&& r.off.len() == g.setup.slots.len()
    &&& forall|k: int, x: int| 0 <= k < r.off.len() && #[trigger] obit(r.off@[k].set, x) ==> valid_off(g.n as int, x)
}

/// Domain `d` lies inside domain `e`: fewer offsets, and capture allowed
/// only where `e` allows it.
pub open spec fn dom_le(d: OffDom, e: OffDom) -> bool {
    &&& forall|x: int| #[trigger] obit(d.set, x) ==> obit(e.set, x)
    &&& d.cap ==> e.cap
}

/// Region `c` lies inside region `r`, domain by domain.
pub open spec fn rel_le(c: &Rel, r: &Rel) -> bool {
    &&& c.stm == r.stm
    &&& c.off.len() == r.off.len()
    &&& forall|q: int| #[trigger] bit(c.a, q) ==> bit(r.a, q)
    &&& forall|k: int| 0 <= k < c.off.len() ==> #[trigger] dom_le(c.off@[k], r.off@[k])
}

/// Region `c` lies inside `r` and leaves strictly less open.
pub open spec fn smaller(c: &Rel, r: &Rel) -> bool {
    &&& rel_le(c, r)
    &&& rel_size(c.a, c.off@) < rel_size(r.a, r.off@)
}

/// Every region of the list is smaller than `r`.
pub open spec fn all_smaller(v: Seq<Rel>, r: &Rel) -> bool {
    forall|i: int| 0 <= i < v.len() ==> #[trigger] smaller(&v[i], r)
}

/// Every region of the list has one domain per slot and is normalized.
pub open spec fn all_fit(g: &Geo, v: Seq<Rel>) -> bool {
    forall|i: int| 0 <= i < v.len() ==> #[trigger] rel_fits(g, &v[i]) && normal(g, v[i].a, v[i].off@)
}

/// Inside is transitive.
pub proof fn lemma_le_trans(a: &Rel, b: &Rel, c: &Rel)
    requires
        rel_le(a, b),
        rel_le(b, c),
    ensures
        rel_le(a, c),
{
    assert forall|k: int| 0 <= k < a.off.len() implies #[trigger] dom_le(a.off@[k], c.off@[k]) by {
        assert(dom_le(a.off@[k], b.off@[k]));
        assert(dom_le(b.off@[k], c.off@[k]));
    }
}

/// What lies within a region inside `r` lies inside `r`.
proof fn lemma_within_le(c: &Rel, ma: u64, moff: Seq<OffDom>, r: &Rel)
    requires
        rel_within(c.a, c.off@, ma, moff),
        c.stm == r.stm,
        moff.len() == r.off.len(),
        forall|q: int| #[trigger] bit(ma, q) ==> bit(r.a, q),
        forall|k: int| 0 <= k < moff.len() ==> #[trigger] dom_le(moff[k], r.off@[k]),
    ensures
        rel_le(c, r),
{
    assert forall|k: int| 0 <= k < c.off.len() implies #[trigger] dom_le(c.off@[k], r.off@[k]) by {
        assert(dom_le(moff[k], r.off@[k]));
        assert(c.off@[k].cap == moff[k].cap);
    }
}

/// A region inside a fitting one fits.
proof fn lemma_le_fits(g: &Geo, c: &Rel, r: &Rel)
    requires
        rel_fits(g, r),
        rel_le(c, r),
    ensures
        rel_fits(g, c),
{
    assert forall|k: int, x: int| 0 <= k < c.off.len() && #[trigger] obit(c.off@[k].set, x) implies valid_off(g.n as int, x) by {
        assert(dom_le(c.off@[k], r.off@[k]));
        assert(obit(r.off@[k].set, x));
    }
}

fn copy_rel(r: &Rel) -> (c: Rel)
    ensures
        c.a == r.a,
        c.off@ == r.off@,
        c.stm == r.stm,
{
    let off = r.off.clone();
    proof {
        assert(off@ =~= r.off@);
    }
    Rel { a: r.a, off, stm: r.stm }
}

impl Rel {
    /// The region with slot `s`'s domain replaced by `d`, normalized.
    fn with_dom(&self, g: &Geo, s: usize, d: OffDom) -> (c: Option<Rel>)
        requires
            rel_fits(g, self),
            s < self.off.len(),
            dom_le(d, self.off@[s as int]),
        ensures
            c matches Some(c) ==> {
                &&& rel_fits(g, &c)
                &&& normal(g, c.a, c.off@)
                &&& rel_le(&c, self)
                &&& rel_size(c.a, c.off@) + dom_count(self.off@[s as int]) <= rel_size(self.a, self.off@) + dom_count(d)
            },
            c matches Some(c) ==> c.off@[s as int].cap == d.cap,
            s != g.anchor ==> forall|p: Seq<Option<Sq>>, ps: Color|
                #![trigger holds(g, self, p, ps)]
                #![trigger holds(g, &c.unwrap(), p, ps)]
                valid_pos(g, p) ==> (c is Some && holds(g, &c.unwrap(), p, ps) <==> holds(g, self, p, ps) && dom_holds(
                    g,
                    d,
                    p[g.anchor as int].unwrap() as int,
                    p[s as int],
                )),
    {
        let mut off = self.off.clone();
        proof {
            assert(off@ =~= self.off@);
        }
        off.set(s, d);
        let mut c = Rel { a: self.a, off, stm: self.stm };
        let ghost ma = c.a;
        let ghost moff = c.off@;
        proof {
            lemma_offs_update(self.off@, s as int, d, self.off.len() as int);
            assert forall|k: int| 0 <= k < moff.len() implies #[trigger] dom_le(moff[k], self.off@[k]) by {
                if k != s {
                    assert(moff[k] == self.off@[k]);
                }
            }
        }
        proof {
            if s != g.anchor {
                assert forall|p: Seq<Option<Sq>>, ps: Color| valid_pos(g, p) implies #[trigger] holds_in(g, ma, moff, self.stm, p, ps) == (holds(g, self, p, ps) && dom_holds(
                    g,
                    d,
                    p[g.anchor as int].unwrap() as int,
                    p[s as int],
                )) by {
                    lemma_update_iff(g, self.a, self.off@, self.stm, s as int, d, p, ps);
                    assert(moff =~= self.off@.update(s as int, d));
                }
            }
        }
        if c.normalize(g) {
            proof {
                lemma_within_le(&c, ma, moff, self);
                lemma_le_fits(g, &c, self);
                if s != g.anchor {
                    assert forall|p: Seq<Option<Sq>>, ps: Color| valid_pos(g, p) implies (#[trigger] holds(g, &c, p, ps) <==> holds(g, self, p, ps) && dom_holds(
                        g,
                        d,
                        p[g.anchor as int].unwrap() as int,
                        p[s as int],
                    )) by {
                        if holds(g, &c, p, ps) {
                            lemma_within_holds(g, c.a, c.off@, ma, moff, c.stm, p, ps);
                        }
                        if holds_in(g, ma, moff, self.stm, p, ps) {
                            assert(holds_in(g, c.a, c.off@, c.stm, p, ps));
                        }
                    }
                }
            }
            Some(c)
        } else {
            proof {
                if s != g.anchor {
                    assert forall|p: Seq<Option<Sq>>, ps: Color| valid_pos(g, p) implies !(holds(g, self, p, ps) && dom_holds(
                        g,
                        d,
                        p[g.anchor as int].unwrap() as int,
                        p[s as int],
                    )) by {
                        assert(!holds_in(g, ma, moff, self.stm, p, ps));
                    }
                }
            }
            None
        }
    }

    /// The region with anchor set `m` (a subset of its own), normalized.
    fn with_anchor(&self, g: &Geo, m: u64) -> (c: Option<Rel>)
        requires
            rel_fits(g, self),
            forall|q: int| #[trigger] bit(m, q) ==> bit(self.a, q),
        ensures
            c matches Some(c) ==> {
                &&& rel_fits(g, &c)
                &&& normal(g, c.a, c.off@)
                &&& rel_le(&c, self)
                &&& rel_size(c.a, c.off@) + popcount(self.a) <= rel_size(self.a, self.off@) + popcount(m)
            },
            forall|p: Seq<Option<Sq>>, ps: Color|
                #![trigger holds(g, self, p, ps)]
                #![trigger holds(g, &c.unwrap(), p, ps)]
                valid_pos(g, p) ==> (c is Some && holds(g, &c.unwrap(), p, ps) <==> holds(g, self, p, ps) && bit(
                    m,
                    p[g.anchor as int].unwrap() as int,
                )),
    {
        let mut c = copy_rel(self);
        c.a = m;
        let ghost ma = c.a;
        let ghost moff = c.off@;
        proof {
            assert forall|k: int| 0 <= k < moff.len() implies #[trigger] dom_le(moff[k], self.off@[k]) by {}
        }
        proof {
            assert forall|p: Seq<Option<Sq>>, ps: Color| valid_pos(g, p) implies #[trigger] holds_in(g, ma, moff, self.stm, p, ps) == (holds(g, self, p, ps) && bit(
                m,
                p[g.anchor as int].unwrap() as int,
            )) by {
                assert(moff == self.off@);
                if holds(g, self, p, ps) && bit(m, p[g.anchor as int].unwrap() as int) {
                    assert(holds_in(g, ma, moff, self.stm, p, ps));
                }
            }
        }
        if c.normalize(g) {
            proof {
                lemma_within_le(&c, ma, moff, self);
                lemma_le_fits(g, &c, self);
                assert forall|p: Seq<Option<Sq>>, ps: Color| valid_pos(g, p) implies (#[trigger] holds(g, &c, p, ps) <==> holds(g, self, p, ps) && bit(
                    m,
                    p[g.anchor as int].unwrap() as int,
                )) by {
                    if holds(g, &c, p, ps) {
                        lemma_within_holds(g, c.a, c.off@, ma, moff, c.stm, p, ps);
                    }
                    if holds_in(g, ma, moff, self.stm, p, ps) {
                        assert(holds_in(g, c.a, c.off@, c.stm, p, ps));
                    }
                }
            }
            Some(c)
        } else {
            proof {
                assert forall|p: Seq<Option<Sq>>, ps: Color| valid_pos(g, p) implies !(holds(g, self, p, ps) && bit(
                    m,
                    p[g.anchor as int].unwrap() as int,
                )) by {
                    assert(!holds_in(g, ma, moff, self.stm, p, ps));
                }
            }
            None
        }
    }
}

// ---------------------------------------------------------------------
// Splitting
// ---------------------------------------------------------------------

/// A decision, or the region split into parts.
pub enum Step<T> {
    Decided(T),
    Split(Vec<Rel>),
}

/// Every part fits, is normalized, and is smaller than `r`.
pub open spec fn good_split(g: &Geo, v: Seq<Rel>, r: &Rel) -> bool {
    &&& all_fit(g, v)
    &&& all_smaller(v, r)
}

/// A split, if it is one, is a good one.
pub open spec fn step_ok<T>(g: &Geo, st: &Step<T>, r: &Rel) -> bool {
    match st {
        Step::Decided(_) => true,
        Step::Split(v) => good_split(g, v@, r) && partition(g, v@, r),
    }
}

/// The domain is not one pinned offset: capturable, or two offsets or none.
pub open spec fn unpinned(d: OffDom) -> bool {
    d.cap || forall|o: int| !single_at(d.set, o)
}

/// A set that is not the one offset `x` it holds holds another.
proof fn lemma_other(s: OffSet, x: int)
    requires
        obit(s, x),
        !single_at(s, x),
    ensures
        exists|y: int| y != x && #[trigger] obit(s, y),
{
    let y = choose|y: int| !(#[trigger] obit(s, y) <==> y == x);
    assert(y != x && obit(s, y));
}

fn push_child(g: &Geo, out: &mut Vec<Rel>, c: Option<Rel>, r: &Rel)
    requires
        good_split(g, old(out)@, r),
        c matches Some(c) ==> rel_fits(g, &c) && normal(g, c.a, c.off@) && smaller(&c, r),
    ensures
        good_split(g, final(out)@, r),
        final(out)@.len() <= old(out)@.len() + 1,
        c is Some ==> final(out)@ == old(out)@.push(c.unwrap()),
        c is None ==> final(out)@ == old(out)@,
{
    if let Some(c) = c {
        out.push(c);
    }
}

/// Split slot `s` by a family of domains that divides its domain: one
/// part per domain that leaves positions.
fn split_doms(g: &Geo, r: &Rel, s: usize, doms: &Vec<OffDom>) -> (out: Vec<Rel>)
    requires
        rel_fits(g, r),
        s < r.off.len(),
        s != g.anchor,
        dom_split(r.off@[s as int], doms@, g.setup.kind_spec(s as int) == Kind::King),
        forall|i: int| 0 <= i < doms.len() ==> dom_count(#[trigger] doms@[i]) < dom_count(r.off@[s as int]),
    ensures
        good_split(g, out@, r),
        partition(g, out@, r),
{
    let mut out: Vec<Rel> = Vec::new();
    let ghost mut src: Seq<int> = Seq::empty();
    let mut i: usize = 0;
    while i < doms.len()
        invariant
            rel_fits(g, r),
            s < r.off.len(),
            s != g.anchor,
            dom_split(r.off@[s as int], doms@, g.setup.kind_spec(s as int) == Kind::King),
            forall|i: int| 0 <= i < doms.len() ==> dom_count(#[trigger] doms@[i]) < dom_count(r.off@[s as int]),
            0 <= i <= doms.len(),
            good_split(g, out@, r),
            src.len() == out.len(),
            forall|k: int, l: int| 0 <= k < l < src.len() ==> src[k] < src[l],
            forall|k: int| 0 <= k < src.len() ==> 0 <= #[trigger] src[k] < i,
            forall|k: int, p: Seq<Option<Sq>>, ps: Color|
                0 <= k < out.len() && valid_pos(g, p) ==> (#[trigger] holds(g, &out@[k], p, ps) <==> holds(g, r, p, ps) && dom_holds(
                    g,
                    doms@[src[k]],
                    p[g.anchor as int].unwrap() as int,
                    p[s as int],
                )),
            forall|j: int, p: Seq<Option<Sq>>, ps: Color|
                #![trigger holds(g, r, p, ps), dom_holds(g, doms@[j], p[g.anchor as int].unwrap() as int, p[s as int])]
                0 <= j < i && valid_pos(g, p) && holds(g, r, p, ps) && dom_holds(
                    g,
                    doms@[j],
                    p[g.anchor as int].unwrap() as int,
                    p[s as int],
                ) ==> exists|k: int| 0 <= k < src.len() && src[k] == j,
        decreases doms.len() - i,
    {
        let d = doms[i];
        proof {
            assert(dom_le(doms@[i as int], r.off@[s as int]));
            assert(dom_count(doms@[i as int]) < dom_count(r.off@[s as int]));
        }
        let c = r.with_dom(g, s, d);
        let ghost out0 = out@;
        let ghost src0 = src;
        push_child(g, &mut out, c, r);
        proof {
            if c is Some {
                src = src.push(i as int);
                assert(out@ == out0.push(c.unwrap()));
            } else {
                assert(out@ == out0);
            }
            assert forall|k: int, p: Seq<Option<Sq>>, ps: Color|
                0 <= k < out.len() && valid_pos(g, p) implies (#[trigger] holds(g, &out@[k], p, ps) <==> holds(g, r, p, ps) && dom_holds(
                    g,
                    doms@[src[k]],
                    p[g.anchor as int].unwrap() as int,
                    p[s as int],
                )) by {
                if k < out0.len() {
                    assert(out@[k] == out0[k]);
                    assert(src[k] == src0[k]);
                } else {
                    assert(holds(g, r, p, ps) ==> holds(g, r, p, ps));
                }
            }
            assert forall|j: int, p: Seq<Option<Sq>>, ps: Color|
                #![trigger holds(g, r, p, ps), dom_holds(g, doms@[j], p[g.anchor as int].unwrap() as int, p[s as int])]
                0 <= j < i + 1 && valid_pos(g, p) && holds(g, r, p, ps) && dom_holds(
                    g,
                    doms@[j],
                    p[g.anchor as int].unwrap() as int,
                    p[s as int],
                ) implies exists|k: int| 0 <= k < src.len() && src[k] == j by {
                if j < i {
                    let k = choose|k: int| 0 <= k < src0.len() && src0[k] == j;
                    assert(src[k] == j);
                } else {
                    assert(holds(g, r, p, ps));
                    assert(c is Some);
                    assert(src[src.len() - 1] == j);
                }
            }
        }
        i += 1;
    }
    proof {
        assert forall|p: Seq<Option<Sq>>, ps: Color, k: int|
            0 <= k < out.len() && valid_pos(g, p) && #[trigger] holds(g, &out@[k], p, ps) implies holds(g, r, p, ps) by {}
        assert forall|p: Seq<Option<Sq>>, ps: Color|
            valid_pos(g, p) && #[trigger] holds(g, r, p, ps) implies exists|k: int| 0 <= k < out.len() && #[trigger] holds(g, &out@[k], p, ps) by {
            let a0 = p[g.anchor as int].unwrap() as int;
            let v = entry_off(g, a0, p[s as int]);
            assert(dom_holds(g, r.off@[s as int], a0, p[s as int]));
            assert(dom_allows(r.off@[s as int], v));
            if g.setup.kind_spec(s as int) == Kind::King {
                assert(p[s as int] is Some);
            }
            let j = choose|j: int| 0 <= j < doms.len() && #[trigger] dom_allows(doms@[j], v);
            assert(dom_holds(g, doms@[j], a0, p[s as int]));
            let k = choose|k: int| 0 <= k < src.len() && src[k] == j;
            assert(holds(g, &out@[k], p, ps));
        }
        assert forall|p: Seq<Option<Sq>>, ps: Color, k: int, l: int|
            0 <= k < l < out.len() && valid_pos(g, p) && #[trigger] holds(g, &out@[k], p, ps) && #[trigger] holds(g, &out@[l], p, ps) implies false by {
            let a0 = p[g.anchor as int].unwrap() as int;
            let v = entry_off(g, a0, p[s as int]);
            assert(dom_allows(doms@[src[k]], v));
            assert(dom_allows(doms@[src[l]], v));
            assert(src[k] < src[l]);
        }
    }
    out
}

/// Split slot `s` (capturable, with offsets) into present and captured.
fn split_presence(g: &Geo, r: &Rel, s: usize) -> (out: Vec<Rel>)
    requires
        rel_fits(g, r),
        s < r.off.len(),
        s != g.anchor,
        r.off@[s as int].cap,
        exists|x: int| #[trigger] obit(r.off@[s as int].set, x),
    ensures
        good_split(g, out@, r),
        partition(g, out@, r),
{
    let d = r.off[s];
    let e: OffSet = [0u64; 4];
    proof {
        lemma_bit_empty();
        assert forall|x: int| #[trigger] obit(e, x) implies obit(d.set, x) by {}
        lemma_ocount_subset(e, d.set);
    }
    let mut doms: Vec<OffDom> = Vec::new();
    doms.push(OffDom { set: d.set, cap: false });
    doms.push(OffDom { set: e, cap: true });
    proof {
        assert forall|v: Option<int>| dom_allows(d, v) && !(g.setup.kind_spec(s as int) == Kind::King && v is None) implies exists|i: int|
            0 <= i < doms.len() && #[trigger] dom_allows(doms@[i], v) by {
            if v is Some {
                assert(dom_allows(doms@[0], v));
            } else {
                assert(dom_allows(doms@[1], v));
            }
        }
    }
    split_doms(g, r, s, &doms)
}

/// Split slot `s` into offsets inside `mask` (present) and outside it.
fn split_mask(g: &Geo, r: &Rel, s: usize, mask: &OffSet) -> (out: Vec<Rel>)
    requires
        rel_fits(g, r),
        s < r.off.len(),
        s != g.anchor,
        exists|x: int| #[trigger] obit(r.off@[s as int].set, x) && obit(*mask, x),
        r.off@[s as int].cap || exists|x: int| #[trigger] obit(r.off@[s as int].set, x) && !obit(*mask, x),
    ensures
        good_split(g, out@, r),
        partition(g, out@, r),
{
    let d = r.off[s];
    let inside = set_and(&d.set, mask);
    let outside = set_andnot(&d.set, mask);
    proof {
        lemma_ocount_subset(inside, d.set);
        lemma_ocount_subset(outside, d.set);
    }
    let mut doms: Vec<OffDom> = Vec::new();
    doms.push(OffDom { set: inside, cap: false });
    doms.push(OffDom { set: outside, cap: d.cap });
    proof {
        assert forall|v: Option<int>| dom_allows(d, v) && !(g.setup.kind_spec(s as int) == Kind::King && v is None) implies exists|i: int|
            0 <= i < doms.len() && #[trigger] dom_allows(doms@[i], v) by {
            if v is Some && obit(*mask, v.unwrap()) {
                assert(dom_allows(doms@[0], v));
            } else {
                assert(dom_allows(doms@[1], v));
            }
        }
    }
    split_doms(g, r, s, &doms)
}

/// Append a pinned domain for each offset of `set`, a subset of slot `s`'s
/// offsets.
fn pin_doms(r: &Rel, s: usize, set: &OffSet, doms: &mut Vec<OffDom>)
    requires
        s < r.off.len(),
        unpinned(r.off@[s as int]),
        forall|x: int| #[trigger] obit(*set, x) ==> obit(r.off@[s as int].set, x),
        forall|i: int| 0 <= i < old(doms).len() ==> dom_count(#[trigger] old(doms)@[i]) < dom_count(r.off@[s as int]),
        forall|i: int| 0 <= i < old(doms).len() ==> #[trigger] dom_le(old(doms)@[i], r.off@[s as int]),
    ensures
        final(doms)@.len() >= old(doms)@.len(),
        forall|i: int| 0 <= i < old(doms).len() ==> final(doms)@[i] == old(doms)@[i],
        forall|i: int| 0 <= i < final(doms).len() ==> dom_count(#[trigger] final(doms)@[i]) < dom_count(r.off@[s as int]),
        forall|i: int| 0 <= i < final(doms).len() ==> #[trigger] dom_le(final(doms)@[i], r.off@[s as int]),
        forall|i: int| old(doms).len() <= i < final(doms).len() ==> !(#[trigger] final(doms)@[i]).cap && exists|o: int|
            obit(*set, o) && single_at(final(doms)@[i].set, o),
        forall|x: int| #[trigger] obit(*set, x) ==> exists|i: int| old(doms).len() <= i < final(doms).len() && obit(final(doms)@[i].set, x),
        forall|i: int, j: int, x: int|
            old(doms).len() <= i < j < final(doms).len() ==> !(#[trigger] obit(final(doms)@[i].set, x) && #[trigger] obit(final(doms)@[j].set, x)),
{
    let d = r.off[s];
    let it = set_iter(set);
    let ghost base = doms.len() as int;
    let mut i: usize = 0;
    while i < it.len()
        invariant
            s < r.off.len(),
            d == r.off@[s as int],
            unpinned(d),
            forall|x: int| #[trigger] obit(*set, x) ==> obit(d.set, x),
            forall|k: int| 0 <= k < it.len() ==> #[trigger] obit(*set, it@[k] as int),
            forall|x: int| #[trigger] obit(*set, x) ==> exists|k: int| 0 <= k < it.len() && it@[k] == x,
            forall|k: int, l: int| 0 <= k < l < it.len() ==> it@[k] < it@[l],
            0 <= i <= it.len(),
            base == old(doms).len(),
            doms.len() == base + i,
            forall|k: int| 0 <= k < old(doms).len() ==> doms@[k] == old(doms)@[k],
            forall|k: int| 0 <= k < doms.len() ==> dom_count(#[trigger] doms@[k]) < dom_count(d),
            forall|k: int| 0 <= k < doms.len() ==> #[trigger] dom_le(doms@[k], d),
            forall|k: int| base <= k < doms.len() ==> !(#[trigger] doms@[k]).cap && single_at(doms@[k].set, it@[k - base] as int),
        decreases it.len() - i,
    {
        let o = it[i];
        proof {
            assert(obit(*set, o as int));
        }
        let one = set_one(o);
        proof {
            assert(obit(d.set, o as int));
            assert forall|x: int| #[trigger] obit(one, x) implies obit(d.set, x) by {}
            if !d.cap {
                lemma_other(d.set, o as int);
                let y = choose|y: int| y != o && #[trigger] obit(d.set, y);
                assert(obit(d.set, y) && !obit(one, y));
            }
            lemma_ocount_subset(one, d.set);
        }
        doms.push(OffDom { set: one, cap: false });
        i += 1;
    }
    proof {
        assert forall|k: int| old(doms).len() <= k < doms.len() implies !(#[trigger] doms@[k]).cap && exists|o: int|
            obit(*set, o) && single_at(doms@[k].set, o) by {
            assert(obit(*set, it@[k - base] as int) && single_at(doms@[k].set, it@[k - base] as int));
        }
        assert forall|x: int| #[trigger] obit(*set, x) implies exists|k: int| old(doms).len() <= k < doms.len() && obit(doms@[k].set, x) by {
            let m = choose|m: int| 0 <= m < it.len() && it@[m] == x;
            assert(single_at(doms@[base + m].set, it@[m] as int));
            assert(obit(doms@[base + m].set, x));
        }
        assert forall|k: int, l: int, x: int|
            old(doms).len() <= k < l < doms.len() implies !(#[trigger] obit(doms@[k].set, x) && #[trigger] obit(doms@[l].set, x)) by {
            assert(single_at(doms@[k].set, it@[k - base] as int));
            assert(single_at(doms@[l].set, it@[l - base] as int));
            assert(it@[k - base] < it@[l - base]);
        }
    }
}

/// Pin slot `s` at each offset inside `mask`; one more part for outside.
fn split_pin_in(g: &Geo, r: &Rel, s: usize, mask: &OffSet) -> (out: Vec<Rel>)
    requires
        rel_fits(g, r),
        s < r.off.len(),
        s != g.anchor,
        unpinned(r.off@[s as int]),
        exists|x: int| #[trigger] obit(r.off@[s as int].set, x) && obit(*mask, x),
    ensures
        good_split(g, out@, r),
        partition(g, out@, r),
{
    let d = r.off[s];
    let inside = set_and(&d.set, mask);
    let mut doms: Vec<OffDom> = Vec::new();
    pin_doms(r, s, &inside, &mut doms);
    let outside = set_andnot(&d.set, mask);
    proof {
        lemma_ocount_subset(outside, d.set);
    }
    let ghost pins = doms@;
    doms.push(OffDom { set: outside, cap: d.cap });
    proof {
        assert forall|i: int| 0 <= i < doms.len() implies dom_count(#[trigger] doms@[i]) < dom_count(r.off@[s as int]) by {
            if i < pins.len() {
                assert(doms@[i] == pins[i]);
            }
        }
        assert forall|i: int| 0 <= i < doms.len() implies #[trigger] dom_le(doms@[i], r.off@[s as int]) by {
            if i < pins.len() {
                assert(doms@[i] == pins[i]);
            }
        }
        assert forall|v: Option<int>| dom_allows(d, v) && !(g.setup.kind_spec(s as int) == Kind::King && v is None) implies exists|i: int|
            0 <= i < doms.len() && #[trigger] dom_allows(doms@[i], v) by {
            if v is Some && obit(*mask, v.unwrap()) {
                assert(obit(inside, v.unwrap()));
                let i = choose|i: int| 0 <= i < pins.len() && obit(pins[i].set, v.unwrap());
                assert(doms@[i] == pins[i]);
                assert(dom_allows(doms@[i], v));
            } else {
                assert(dom_allows(doms@[pins.len() as int], v));
            }
        }
        assert forall|v: Option<int>, i: int, j: int|
            0 <= i < j < doms.len() implies !(#[trigger] dom_allows(doms@[i], v) && #[trigger] dom_allows(doms@[j], v)) by {
            if j < pins.len() {
                assert(doms@[i] == pins[i] && doms@[j] == pins[j]);
                if v is Some {
                    assert(!(obit(pins[i].set, v.unwrap()) && obit(pins[j].set, v.unwrap())));
                }
            } else {
                assert(doms@[i] == pins[i]);
                if v is Some && dom_allows(doms@[i], v) {
                    let o = choose|o: int| obit(inside, o) && single_at(pins[i].set, o);
                    assert(v.unwrap() == o);
                }
            }
        }
    }
    split_doms(g, r, s, &doms)
}

/// Pin slot `s` at each of its offsets (a slot that is present, or a king).
fn pin_all(g: &Geo, r: &Rel, s: usize) -> (out: Vec<Rel>)
    requires
        rel_fits(g, r),
        s < r.off.len(),
        s != g.anchor,
        unpinned(r.off@[s as int]),
        !r.off@[s as int].cap || g.setup.kind_spec(s as int) == Kind::King,
    ensures
        good_split(g, out@, r),
        partition(g, out@, r),
{
    let set = r.off[s].set;
    let mut doms: Vec<OffDom> = Vec::new();
    pin_doms(r, s, &set, &mut doms);
    proof {
        let d = r.off@[s as int];
        assert forall|v: Option<int>| dom_allows(d, v) && !(g.setup.kind_spec(s as int) == Kind::King && v is None) implies exists|i: int|
            0 <= i < doms.len() && #[trigger] dom_allows(doms@[i], v) by {
            let i = choose|i: int| 0 <= i < doms.len() && obit(doms@[i].set, v.unwrap());
            assert(dom_allows(doms@[i], v));
        }
        assert forall|v: Option<int>, i: int, j: int|
            0 <= i < j < doms.len() implies !(#[trigger] dom_allows(doms@[i], v) && #[trigger] dom_allows(doms@[j], v)) by {
            if v is Some {
                assert(!(obit(doms@[i].set, v.unwrap()) && obit(doms@[j].set, v.unwrap())));
            }
        }
    }
    split_doms(g, r, s, &doms)
}

/// Split the anchor set into the squares of `mask` (a subset) and the rest.
fn split_anchor(g: &Geo, r: &Rel, mask: u64) -> (st: Step<bool>)
    requires
        rel_fits(g, r),
        forall|q: int| #[trigger] bit(mask, q) ==> bit(r.a, q),
    ensures
        step_ok(g, &st, r),
        st matches Step::Decided(true) ==> mask == r.a,
        st matches Step::Decided(false) ==> mask == 0 && mask != r.a,
{
    if mask == r.a {
        Step::Decided(true)
    } else if mask == 0 {
        Step::Decided(false)
    } else {
        let mut out: Vec<Rel> = Vec::new();
        proof {
            lemma_pop_fewer(mask, r.a);
        }
        let a = r.with_anchor(g, mask);
        push_child(g, &mut out, a, r);
        let rest = r.a & !mask;
        proof {
            lemma_bits(r.a, mask);
            lemma_pop_fewer(rest, r.a);
            if rest == r.a {
                lemma_bit_nonzero(mask);
                assert(bit(r.a, mask.trailing_zeros() as int));
                assert(!bit(rest, mask.trailing_zeros() as int));
            }
        }
        let b = r.with_anchor(g, rest);
        let ghost first = out@;
        push_child(g, &mut out, b, r);
        proof {
            assert forall|p: Seq<Option<Sq>>, ps: Color, i: int|
                0 <= i < out.len() && valid_pos(g, p) && #[trigger] holds(g, &out@[i], p, ps) implies holds(g, r, p, ps) by {
                assert(smaller(&out@[i], r));
                lemma_le_holds(g, &out@[i], r, p, ps);
            }
            assert forall|p: Seq<Option<Sq>>, ps: Color| valid_pos(g, p) && #[trigger] holds(g, r, p, ps) implies exists|i: int|
                0 <= i < out.len() && #[trigger] holds(g, &out@[i], p, ps) by {
                let a0 = p[g.anchor as int].unwrap() as int;
                if bit(mask, a0) {
                    assert(holds(g, &a.unwrap(), p, ps));
                    assert(out@[0] == a.unwrap());
                } else {
                    assert(bit(rest, a0));
                    assert(holds(g, &b.unwrap(), p, ps));
                    assert(out@[out.len() - 1] == b.unwrap());
                }
            }
            assert forall|p: Seq<Option<Sq>>, ps: Color, i: int, j: int|
                0 <= i < j < out.len() && valid_pos(g, p) && #[trigger] holds(g, &out@[i], p, ps) && #[trigger] holds(g, &out@[j], p, ps) implies false by {
                assert(i == 0 && j == 1);
                assert(out@[0] == a.unwrap() && out@[1] == b.unwrap());
                let a0 = p[g.anchor as int].unwrap() as int;
                assert(bit(mask, a0) && bit(rest, a0));
            }
        }
        Step::Split(out)
    }
}

/// A predicate on one offset, relative to a fixed offset `k`.
#[derive(Clone, Copy)]
pub enum OffPred {
    /// Chebyshev distance to `k` at most the bound.
    Near(Off, i32),
    /// Alignment with `k`, as 0 or 1, at most the bound.
    Line(Off, i32),
    /// Aligned with `k` (a rook line).
    Aligned(Off),
    /// A king step from `k`.
    Adjacent(Off),
}

/// Offsets `p` and `q` are distinct and share a file or a rank.
pub open spec fn aligned_spec(n: int, p: int, q: int) -> bool {
    p != q && (dx_of(n, p) == dx_of(n, q) || dy_of(n, p) == dy_of(n, q))
}

/// Chebyshev distance between offsets `p` and `q`.
pub open spec fn dist_spec(n: int, p: int, q: int) -> int {
    cheb_len(dx_of(n, p) - dx_of(n, q), dy_of(n, p) - dy_of(n, q))
}

pub open spec fn pred_spec(n: int, pr: OffPred, o: int) -> bool {
    match pr {
        OffPred::Near(k, thr) => dist_spec(n, o, k as int) <= thr,
        OffPred::Line(k, thr) => (if aligned_spec(n, o, k as int) {
            1int
        } else {
            0int
        }) <= thr,
        OffPred::Aligned(k) => aligned_spec(n, o, k as int),
        OffPred::Adjacent(k) => dist_spec(n, o, k as int) == 1,
    }
}

/// The fixed offset of a predicate is a grid offset.
pub open spec fn pred_valid(n: int, pr: OffPred) -> bool {
    match pr {
        OffPred::Near(k, _) => valid_off(n, k as int),
        OffPred::Line(k, _) => valid_off(n, k as int),
        OffPred::Aligned(k) => valid_off(n, k as int),
        OffPred::Adjacent(k) => valid_off(n, k as int),
    }
}

fn pred_eval(g: &Geo, pr: OffPred, o: Off) -> (r: bool)
    requires
        g.wf(),
        pred_valid(g.n as int, pr),
        valid_off(g.n as int, o as int),
    ensures
        r == pred_spec(g.n as int, pr, o as int),
{
    match pr {
        OffPred::Near(k, thr) => g.dist_pair(o, k) <= thr,
        OffPred::Line(k, thr) => {
            let v: i32 = if g.aligned_pair(o, k) {
                1
            } else {
                0
            };
            v <= thr
        },
        OffPred::Aligned(k) => g.aligned_pair(o, k),
        OffPred::Adjacent(k) => g.dist_pair(o, k) == 1,
    }
}

/// The offsets of `set` (grid offsets) on which the predicate holds.
fn filter_set(g: &Geo, set: &OffSet, pr: OffPred) -> (r: OffSet)
    requires
        g.wf(),
        pred_valid(g.n as int, pr),
        forall|x: int| #[trigger] obit(*set, x) ==> valid_off(g.n as int, x),
    ensures
        forall|x: int| #[trigger] obit(r, x) <==> obit(*set, x) && pred_spec(g.n as int, pr, x),
{
    let mut r: OffSet = [0u64; 4];
    proof {
        lemma_bit_empty();
    }
    let mut o: u16 = 0;
    while o < 256
        invariant
            g.wf(),
            pred_valid(g.n as int, pr),
            forall|x: int| #[trigger] obit(*set, x) ==> valid_off(g.n as int, x),
            0 <= o <= 256,
            forall|x: int| #[trigger] obit(r, x) <==> 0 <= x < o && obit(*set, x) && pred_spec(g.n as int, pr, x),
        decreases 256 - o,
    {
        if set_has(set, o) && pred_eval(g, pr, o) {
            set_add(&mut r, o);
        }
        o += 1;
    }
    r
}

/// Decide a predicate on one slot's offsets, or split them by it.
fn split_by(g: &Geo, r: &Rel, s: usize, pr: OffPred) -> (st: Step<bool>)
    requires
        rel_fits(g, r),
        s < r.off.len(),
        s != g.anchor,
        pred_valid(g.n as int, pr),
    ensures
        step_ok(g, &st, r),
        st matches Step::Decided(true) ==> forall|x: int| #[trigger] obit(r.off@[s as int].set, x) ==> pred_spec(
            g.n as int,
            pr,
            x,
        ),
        st matches Step::Decided(false) ==> forall|x: int| #[trigger] obit(r.off@[s as int].set, x) ==> !pred_spec(
            g.n as int,
            pr,
            x,
        ),
{
    let d = r.off[s];
    proof {
        assert forall|x: int| #[trigger] obit(d.set, x) implies valid_off(g.n as int, x) by {
            assert(obit(r.off@[s as int].set, x));
        }
    }
    let mask = filter_set(g, &d.set, pr);
    if set_eq(&mask, &d.set) {
        proof {
            assert forall|x: int| #[trigger] obit(r.off@[s as int].set, x) implies pred_spec(g.n as int, pr, x) by {
                assert(obit(mask, x));
            }
        }
        Step::Decided(true)
    } else if set_empty(&mask) {
        proof {
            assert forall|x: int| #[trigger] obit(r.off@[s as int].set, x) implies !pred_spec(g.n as int, pr, x) by {
                assert(!obit(mask, x));
            }
        }
        Step::Decided(false)
    } else {
        proof {
            let y = choose|x: int| #[trigger] obit(mask, x);
            assert(obit(d.set, y) && obit(mask, y));
            let z = choose|x: int| !(#[trigger] obit(mask, x) == obit(d.set, x));
            assert(obit(d.set, z) && !obit(mask, z));
        }
        Step::Split(split_mask(g, r, s, &mask))
    }
}

// ---------------------------------------------------------------------
// Hypothetical moves
// ---------------------------------------------------------------------

/// Where a piece is, in offset space, possibly overridden by a hypothetical move.
#[derive(Clone, Copy)]
pub struct RelView {
    pub mover: Option<(SlotId, Off)>,
    pub captured: Option<SlotId>,
    /// The anchor has moved to this offset (pre-move coordinates); its old
    /// square (offset zero) is vacant.
    pub anchor_at: Option<Off>,
}

/// The domain of slot `s` under the view.
/// The view moves slot `s`.
pub open spec fn moves(v: RelView, s: int) -> bool {
    v.mover is Some && v.mover.unwrap().0 == s
}

/// The view moves a non-anchor slot to a grid offset, captures a
/// non-anchor non-king, or moves the anchor to a grid offset.
pub open spec fn view_ok(g: &Geo, v: RelView) -> bool {
    &&& (v.mover matches Some((m, o)) ==> m < g.setup.slots.len() && m != g.anchor && valid_off(g.n as int, o as int))
    &&& (v.captured matches Some(c) ==> c < g.setup.slots.len() && c != g.anchor && g.setup.kind_spec(c as int) != Kind::King)
    &&& (v.mover matches Some((m, o)) ==> v.captured != Some(m))
    &&& (v.anchor_at matches Some(o) ==> valid_off(g.n as int, o as int))
}

impl RelView {
    fn dom(&self, r: &Rel, s: SlotId) -> (d: OffDom)
        requires
            (s as int) < r.off.len(),
            self.mover is Some ==> self.mover.unwrap().1 < 256,
        ensures
            moves(*self, s as int) ==> !d.cap && single_at(d.set, self.mover.unwrap().1 as int),
            !moves(*self, s as int) && self.captured == Some(s) ==> d.cap && forall|x: int| !#[trigger] obit(d.set, x),
            !moves(*self, s as int) && self.captured != Some(s) ==> d == r.off@[s as int],
    {
        match self.mover {
            Some((m, o)) if m == s => {
                return OffDom { set: set_one(o), cap: false };
            },
            _ => {},
        }
        match self.captured {
            Some(x) if x == s => {
                let e: OffSet = [0u64; 4];
                proof {
                    lemma_bit_empty();
                }
                OffDom { set: e, cap: true }
            },
            _ => r.off[s as usize],
        }
    }
}

/// Where the king under attack stands.
#[derive(Clone, Copy)]
pub enum KingPos {
    /// The anchor, at offset zero (or at `RelView::anchor_at`).
    Anchor,
    /// A non-anchor king slot (its domain, possibly overridden).
    Slot(SlotId),
}

/// A king slot other than the anchor.
pub open spec fn kp_ok(g: &Geo, kp: KingPos) -> bool {
    kp matches KingPos::Slot(ks) ==> ks < g.setup.slots.len() && ks != g.anchor && g.setup.kind_spec(ks as int)
        == Kind::King
}

// ---------------------------------------------------------------------
// The engine
// ---------------------------------------------------------------------

pub struct Engine<'a> {
    pub g: Geo<'a>,
    pub cert: &'a Cert,
    pub roles: Roles,
    pub cases: u64,
    pub witnesses: u64,
}

impl<'a> Engine<'a> {
    /// The anchor is the protected king, the certificate is well formed,
    /// and the material is kings and one rook a side.
    pub open spec fn wf(&self) -> bool {
        &&& self.g.wf()
        &&& self.g.anchor == self.roles.own_k
        &&& self.roles.wf(self.g.setup)
        &&& self.cert.wf()
        &&& kings_and_rooks(self.g.setup)
    }

    pub fn new(setup: &'a Setup, cert: &'a Cert, protected: Color) -> (e: Engine<'a>)
        requires
            setup.wf(),
            one_rook(setup.slots@, Color::White),
            one_rook(setup.slots@, Color::Black),
            cert.wf(),
            kings_and_rooks(setup),
        ensures
            e.wf(),
            e.g.setup == setup,
            e.cert == cert,
            e.roles.protected == protected,
            e.cases == 0,
            e.witnesses == 0,
    {
        let roles = Roles::new(setup, protected);
        Engine { g: Geo { setup, n: setup.n as i32, anchor: roles.own_k }, cert, roles, cases: 0, witnesses: 0 }
    }

    /// Offset of the king in `kp` if pinned (anchor: zero or moved-to).
    fn king_off(&self, r: &Rel, v: &RelView, kp: KingPos) -> (res: Result<Off, OffDom>)
        requires
            self.wf(),
            rel_fits(&self.g, r),
            view_ok(&self.g, *v),
            kp_ok(&self.g, kp),
        ensures
            res matches Ok(k) ==> valid_off(self.g.n as int, k as int),
            res matches Err(d) ==> kp is Slot && d == r.off@[kp->Slot_0 as int] && unpinned(d),
            kp is Slot && res is Ok ==> v.captured != Some(kp->Slot_0),
    {
        match kp {
            KingPos::Anchor => {
                match v.anchor_at {
                    Some(o) => Ok(o),
                    None => Ok(self.g.zero()),
                }
            },
            KingPos::Slot(s) => {
                proof {
                    if v.mover is Some {
                        lemma_dxy(self.g.n as int, v.mover.unwrap().1 as int);
                    }
                }
                let d = v.dom(r, s);
                match d.pinned() {
                    Some(o) => {
                        proof {
                            assert(obit(d.set, o as int));
                            if !moves(*v, s as int) {
                                assert(obit(r.off@[s as int].set, o as int));
                            }
                        }
                        Ok(o)
                    },
                    None => Err(d),
                }
            },
        }
    }

    /// Is the king adjacent to the present king `s`?
    fn pair(&self, r: &Rel, v: &RelView, s: SlotId, kp: KingPos) -> (st: Step<bool>)
        requires
            self.wf(),
            rel_fits(&self.g, r),
            view_ok(&self.g, *v),
            kp_ok(&self.g, kp),
            (s as int) < r.off.len(),
            s != self.g.anchor,
            v.captured != Some(s),
            moves(*v, s as int) || !r.off@[s as int].cap,
        ensures
            step_ok(&self.g, &st, r),
    {
        let g = &self.g;
        proof {
            if v.mover is Some {
                lemma_dxy(g.n as int, v.mover.unwrap().1 as int);
            }
        }
        let ds = v.dom(r, s);
        proof {
            assert forall|x: int| #[trigger] obit(ds.set, x) implies valid_off(g.n as int, x) by {
                if !moves(*v, s as int) {
                    assert(obit(r.off@[s as int].set, x));
                }
            }
        }
        match self.king_off(r, v, kp) {
            Ok(k) => {
                if let Some(o) = ds.pinned() {
                    proof {
                        assert(obit(ds.set, o as int));
                    }
                    return Step::Decided(g.dist_pair(o, k) <= 1);
                }
                split_by(g, r, s as usize, OffPred::Near(k, 1))
            },
            Err(dk) => {
                let ks = match kp {
                    KingPos::Slot(ks) => ks,
                    KingPos::Anchor => s,
                };
                if let Some(o) = ds.pinned() {
                    proof {
                        assert(obit(ds.set, o as int));
                    }
                    return split_by(g, r, ks as usize, OffPred::Near(o, 1));
                }
                proof {
                    assert(ds == r.off@[s as int]);
                }
                let its = set_iter(&ds.set);
                let itk = set_iter(&dk.set);
                let mut seen_f = false;
                let mut seen_t = false;
                let mut i: usize = 0;
                while i < its.len()
                    invariant
                        g.wf(),
                        *g == self.g,
                        forall|x: int| #[trigger] obit(ds.set, x) ==> valid_off(g.n as int, x),
                        forall|k: int, x: int| 0 <= k < r.off.len() && #[trigger] obit(r.off@[k].set, x) ==> valid_off(g.n as int, x),
                        dk == r.off@[ks as int],
                        (ks as int) < r.off.len(),
                        forall|k: int| 0 <= k < its.len() ==> #[trigger] obit(ds.set, its@[k] as int),
                        forall|k: int| 0 <= k < itk.len() ==> #[trigger] obit(dk.set, itk@[k] as int),
                    decreases its.len() - i,
                {
                    let o = its[i];
                    proof {
                        assert(obit(ds.set, o as int));
                    }
                    let mut j: usize = 0;
                    while j < itk.len()
                        invariant
                            g.wf(),
                            *g == self.g,
                            valid_off(g.n as int, o as int),
                            forall|k: int, x: int| 0 <= k < r.off.len() && #[trigger] obit(r.off@[k].set, x) ==> valid_off(g.n as int, x),
                            dk == r.off@[ks as int],
                            (ks as int) < r.off.len(),
                            forall|k: int| 0 <= k < itk.len() ==> #[trigger] obit(dk.set, itk@[k] as int),
                        decreases itk.len() - j,
                    {
                        let k = itk[j];
                        proof {
                            assert(obit(dk.set, k as int));
                            assert(obit(r.off@[ks as int].set, k as int));
                        }
                        if o != k {
                            if g.dist_pair(o, k) <= 1 {
                                seen_t = true;
                            } else {
                                seen_f = true;
                            }
                        }
                        j += 1;
                    }
                    i += 1;
                }
                if seen_t && !seen_f {
                    Step::Decided(true)
                } else if seen_f && !seen_t {
                    Step::Decided(false)
                } else if set_count(&ds.set) <= set_count(&dk.set) {
                    Step::Split(pin_all(g, r, s as usize))
                } else {
                    Step::Split(pin_all(g, r, ks as usize))
                }
            },
        }
    }

    /// Does the present rook `rook` have a clear line to the king?
    fn rook_hits(&self, r: &Rel, v: &RelView, rook: SlotId, kp: KingPos) -> (st: Step<bool>)
        requires
            self.wf(),
            rel_fits(&self.g, r),
            view_ok(&self.g, *v),
            kp_ok(&self.g, kp),
            (rook as int) < r.off.len(),
            rook != self.g.anchor,
            v.captured != Some(rook),
            moves(*v, rook as int) || !r.off@[rook as int].cap,
        ensures
            step_ok(&self.g, &st, r),
    {
        let g = &self.g;
        proof {
            if v.mover is Some {
                lemma_dxy(g.n as int, v.mover.unwrap().1 as int);
            }
        }
        let dr = v.dom(r, rook);
        proof {
            assert forall|x: int| #[trigger] obit(dr.set, x) implies valid_off(g.n as int, x) by {
                if !moves(*v, rook as int) {
                    assert(obit(r.off@[rook as int].set, x));
                }
            }
        }
        let ko = self.king_off(r, v, kp);
        let p: Off;
        let k: Off;
        match dr.pinned() {
            Some(pp) => {
                proof {
                    assert(obit(dr.set, pp as int));
                }
                match ko {
                    Ok(kk) => {
                        p = pp;
                        k = kk;
                    },
                    Err(dk) => {
                        let ks = match kp {
                            KingPos::Slot(ks) => ks,
                            KingPos::Anchor => rook,
                        };
                        return match split_by(g, r, ks as usize, OffPred::Aligned(pp)) {
                            Step::Decided(false) => Step::Decided(false),
                            Step::Decided(true) => Step::Split(pin_all(g, r, ks as usize)),
                            split => split,
                        };
                    },
                }
            },
            None => {
                proof {
                    assert(dr == r.off@[rook as int]);
                }
                match ko {
                    Ok(kk) => {
                        return match split_by(g, r, rook as usize, OffPred::Aligned(kk)) {
                            Step::Decided(false) => Step::Decided(false),
                            Step::Decided(true) => Step::Split(pin_all(g, r, rook as usize)),
                            split => split,
                        };
                    },
                    Err(dk) => {
                        let ks = match kp {
                            KingPos::Slot(ks) => ks,
                            KingPos::Anchor => rook,
                        };
                        let its = set_iter(&dr.set);
                        let itk = set_iter(&dk.set);
                        let mut any = false;
                        let mut i: usize = 0;
                        while i < its.len()
                            invariant
                                g.wf(),
                                *g == self.g,
                                forall|k: int| 0 <= k < its.len() ==> #[trigger] obit(dr.set, its@[k] as int),
                            decreases its.len() - i,
                        {
                            let mut j: usize = 0;
                            while j < itk.len()
                                invariant
                                    g.wf(),
                                    *g == self.g,
                                    i < its.len(),
                                decreases itk.len() - j,
                            {
                                if g.aligned_pair(its[i], itk[j]) {
                                    any = true;
                                }
                                j += 1;
                            }
                            i += 1;
                        }
                        return if !any {
                            Step::Decided(false)
                        } else if set_count(&dr.set) <= set_count(&dk.set) {
                            Step::Split(pin_all(g, r, rook as usize))
                        } else {
                            Step::Split(pin_all(g, r, ks as usize))
                        };
                    },
                }
            },
        }
        if !g.aligned_pair(p, k) {
            return Step::Decided(false);
        }
        let between = g.between(p, k);
        let zero = g.zero();
        // The anchor blocks at zero unless it is the king or has moved away.
        let anchor_blocks = matches!(kp, KingPos::Slot(_)) && v.anchor_at.is_none();
        if anchor_blocks && set_has(&between, zero) {
            return Step::Decided(false);
        }
        let n = r.off.len();
        let mut c: usize = 0;
        while c < n
            invariant
                self.wf(),
                *g == self.g,
                rel_fits(&self.g, r),
                view_ok(&self.g, *v),
                n == r.off.len(),
                n == g.setup.slots.len(),
                v.mover is Some ==> v.mover.unwrap().1 < 256,
            decreases n - c,
        {
            let skip = c as SlotId == rook || c as SlotId == g.anchor || match kp {
                KingPos::Slot(ks) => ks as usize == c,
                KingPos::Anchor => false,
            };
            if !skip {
                let d = v.dom(r, c as SlotId);
                let inside = set_and(&d.set, &between);
                if !set_empty(&inside) {
                    if set_eq(&inside, &d.set) && !d.cap {
                        return Step::Decided(false);
                    }
                    proof {
                        if moves(*v, c as int) {
                            let x = choose|x: int| #[trigger] obit(inside, x);
                            assert(obit(d.set, x));
                            assert forall|y: int| #[trigger] obit(inside, y) == obit(d.set, y) by {
                                if obit(d.set, y) {
                                    assert(y == x);
                                }
                            }
                            assert(false);
                        }
                        assert(d == r.off@[c as int]);
                        let x = choose|x: int| #[trigger] obit(inside, x);
                        assert(obit(d.set, x) && obit(between, x));
                        if !d.cap {
                            let y = choose|y: int| !(#[trigger] obit(inside, y) == obit(d.set, y));
                            assert(obit(d.set, y) && !obit(between, y));
                        }
                    }
                    return Step::Split(split_mask(g, r, c, &between));
                }
            }
            c += 1;
        }
        Step::Decided(true)
    }

    /// Is the king in `kp` attacked by a piece of colour `by`?
    fn attacked(&self, r: &Rel, v: &RelView, kp: KingPos, by: Color) -> (st: Step<bool>)
        requires
            self.wf(),
            rel_fits(&self.g, r),
            view_ok(&self.g, *v),
            kp_ok(&self.g, kp),
        ensures
            step_ok(&self.g, &st, r),
    {
        let g = &self.g;
        proof {
            crate::board::lemma_slots_of_upto(g.setup.slots@, by, g.setup.slots.len() as int);
            if v.mover is Some {
                lemma_dxy(g.n as int, v.mover.unwrap().1 as int);
            }
        }
        let atts = g.setup.slots_of(by);
        let zero = g.zero();
        let mut i: usize = 0;
        while i < atts.len()
            invariant
                self.wf(),
                *g == self.g,
                rel_fits(&self.g, r),
                view_ok(&self.g, *v),
                kp_ok(&self.g, kp),
                v.mover is Some ==> v.mover.unwrap().1 < 256 && valid_off(self.g.n as int, v.mover.unwrap().1 as int),
                valid_off(self.g.n as int, zero as int),
                forall|k: int| 0 <= k < atts.len() ==> (#[trigger] atts@[k] as int) < self.g.setup.slots.len(),
            decreases atts.len() - i,
        {
            let att = atts[i];
            proof {
                assert((atts@[i as int] as int) < g.setup.slots.len());
            }
            if att == g.anchor {
                if let KingPos::Slot(ks) = kp {
                    let a_off = match v.anchor_at {
                        Some(o) => o,
                        None => zero,
                    };
                    let dk = v.dom(r, ks);
                    let st = match dk.pinned() {
                        Some(k) => {
                            proof {
                                assert(obit(dk.set, k as int));
                                if !moves(*v, ks as int) {
                                    assert(obit(r.off@[ks as int].set, k as int));
                                }
                            }
                            Step::Decided(g.dist_pair(k, a_off) <= 1)
                        },
                        None => split_by(g, r, ks as usize, OffPred::Near(a_off, 1)),
                    };
                    match st {
                        Step::Decided(false) => {},
                        other => {
                            return other;
                        },
                    }
                }
            } else {
                let d = v.dom(r, att);
                match d.present() {
                    None => {
                        proof {
                            assert(d == r.off@[att as int]);
                        }
                        return Step::Split(split_presence(g, r, att as usize));
                    },
                    Some(false) => {},
                    Some(true) => {
                        let st = match g.setup.kind(att) {
                            Kind::King => self.pair(r, v, att, kp),
                            Kind::Rook => self.rook_hits(r, v, att, kp),
                            _ => {
                                proof {
                                    assert(g.setup.slots@[att as int].1 == Kind::King || g.setup.slots@[att as int].1 == Kind::Rook);
                                }
                                Step::Decided(false)
                            },
                        };
                        match st {
                            Step::Decided(false) => {},
                            other => {
                                return other;
                            },
                        }
                    },
                }
            }
            i += 1;
        }
        Step::Decided(false)
    }

    // ---- certificate features ----

    /// `feature <= thr` on the region, or a split.
    fn test(&self, r: &Rel, feat: i32, thr: i32) -> (st: Step<bool>)
        requires
            self.wf(),
            rel_fits(&self.g, r),
            feat_in_vocab(feat),
        ensures
            step_ok(&self.g, &st, r),
    {
        let g = &self.g;
        let roles = &self.roles;
        let n = g.n;
        if feat == 0 {
            let v: i32 = if r.stm != roles.protected {
                1
            } else {
                0
            };
            return Step::Decided(v <= thr);
        }
        if feat == 1 || feat == 2 {
            let s = if feat == 1 {
                roles.own_r
            } else {
                roles.opp_r
            };
            return match r.off[s as usize].present() {
                Some(p) => {
                    let v: i32 = if p {
                        0
                    } else {
                        1
                    };
                    Step::Decided(v <= thr)
                },
                None => Step::Split(split_presence(g, r, s as usize)),
            };
        }
        if feat == 3 || feat == 4 {
            let mask = edge_mask(g, r.a, feat == 3, thr);
            return split_anchor(g, r, mask);
        }
        let pairs = pair_slots(roles);
        let (a, b) = pairs[((feat - 11) / 3) as usize];
        let kind = (feat - 11) % 3;
        proof {
            assert(pairs@[((feat - 11) / 3) as int] == pair_of(*roles, (feat - 11) / 3));
        }
        if a != g.anchor {
            match r.off[a as usize].present() {
                None => {
                    return Step::Split(split_presence(g, r, a as usize));
                },
                Some(false) => {
                    let v: i32 = if kind == 0 {
                        99
                    } else {
                        0
                    };
                    return Step::Decided(v <= thr);
                },
                Some(true) => {},
            }
        }
        if b != g.anchor {
            match r.off[b as usize].present() {
                None => {
                    return Step::Split(split_presence(g, r, b as usize));
                },
                Some(false) => {
                    let v: i32 = if kind == 0 {
                        99
                    } else {
                        0
                    };
                    return Step::Decided(v <= thr);
                },
                Some(true) => {},
            }
        }
        if kind == 2 {
            return self.test_clear(r, a, b, thr);
        }
        let zero = g.zero();
        if a == g.anchor || b == g.anchor {
            let s = if a == g.anchor {
                b
            } else {
                a
            };
            let pr = if kind == 0 {
                OffPred::Near(zero, thr)
            } else {
                OffPred::Line(zero, thr)
            };
            return split_by(g, r, s as usize, pr);
        }
        let da = r.off[a as usize];
        let db = r.off[b as usize];
        if let Some(p) = da.pinned() {
            proof {
                assert(obit(r.off@[a as int].set, p as int));
            }
            let pr = if kind == 0 {
                OffPred::Near(p, thr)
            } else {
                OffPred::Line(p, thr)
            };
            return split_by(g, r, b as usize, pr);
        }
        if let Some(q) = db.pinned() {
            proof {
                assert(obit(r.off@[b as int].set, q as int));
            }
            let pr = if kind == 0 {
                OffPred::Near(q, thr)
            } else {
                OffPred::Line(q, thr)
            };
            return split_by(g, r, a as usize, pr);
        }
        let ita = set_iter(&da.set);
        let itb = set_iter(&db.set);
        let mut seen_f = false;
        let mut seen_t = false;
        let mut i: usize = 0;
        while i < ita.len()
            invariant
                g.wf(),
                *g == self.g,
                rel_fits(&self.g, r),
                (a as int) < r.off.len(),
                (b as int) < r.off.len(),
                da == r.off@[a as int],
                db == r.off@[b as int],
                forall|k: int| 0 <= k < ita.len() ==> #[trigger] obit(da.set, ita@[k] as int),
                forall|k: int| 0 <= k < itb.len() ==> #[trigger] obit(db.set, itb@[k] as int),
            decreases ita.len() - i,
        {
            let p = ita[i];
            proof {
                assert(obit(r.off@[a as int].set, p as int));
            }
            let mut j: usize = 0;
            while j < itb.len()
                invariant
                    g.wf(),
                    *g == self.g,
                    rel_fits(&self.g, r),
                    (b as int) < r.off.len(),
                    db == r.off@[b as int],
                    valid_off(g.n as int, p as int),
                    forall|k: int| 0 <= k < itb.len() ==> #[trigger] obit(db.set, itb@[k] as int),
                decreases itb.len() - j,
            {
                let q = itb[j];
                proof {
                    assert(obit(r.off@[b as int].set, q as int));
                }
                if p != q {
                    let pr = if kind == 0 {
                        OffPred::Near(q, thr)
                    } else {
                        OffPred::Line(q, thr)
                    };
                    if pred_eval(g, pr, p) {
                        seen_t = true;
                    } else {
                        seen_f = true;
                    }
                }
                j += 1;
            }
            i += 1;
        }
        if seen_t && !seen_f {
            Step::Decided(true)
        } else if seen_f && !seen_t {
            Step::Decided(false)
        } else if set_count(&da.set) <= set_count(&db.set) {
            Step::Split(pin_all(g, r, a as usize))
        } else {
            Step::Split(pin_all(g, r, b as usize))
        }
    }

    /// `clear_ray(a, b) <= thr` with both present.
    fn test_clear(&self, r: &Rel, a: SlotId, b: SlotId, thr: i32) -> (st: Step<bool>)
        requires
            self.wf(),
            rel_fits(&self.g, r),
            (a as int) < r.off.len(),
            (b as int) < r.off.len(),
            a != self.g.anchor ==> !r.off@[a as int].cap,
            b != self.g.anchor ==> !r.off@[b as int].cap,
        ensures
            step_ok(&self.g, &st, r),
    {
        let g = &self.g;
        let zero = g.zero();
        let pa = self.pos_of(r, a);
        let pb = self.pos_of(r, b);
        let p: Off;
        let q: Off;
        match (pa, pb) {
            (Ok(pp), Ok(qq)) => {
                p = pp;
                q = qq;
            },
            (Ok(pp), Err(_)) => {
                return match split_by(g, r, b as usize, OffPred::Aligned(pp)) {
                    Step::Decided(false) => Step::Decided(0 <= thr),
                    Step::Decided(true) => Step::Split(pin_all(g, r, b as usize)),
                    split => split,
                };
            },
            (Err(_), Ok(qq)) => {
                return match split_by(g, r, a as usize, OffPred::Aligned(qq)) {
                    Step::Decided(false) => Step::Decided(0 <= thr),
                    Step::Decided(true) => Step::Split(pin_all(g, r, a as usize)),
                    split => split,
                };
            },
            (Err(da), Err(db)) => {
                let ita = set_iter(&da.set);
                let itb = set_iter(&db.set);
                let mut any = false;
                let mut i: usize = 0;
                while i < ita.len()
                    invariant
                        g.wf(),
                    decreases ita.len() - i,
                {
                    let mut j: usize = 0;
                    while j < itb.len()
                        invariant
                            g.wf(),
                            i < ita.len(),
                        decreases itb.len() - j,
                    {
                        if g.aligned_pair(ita[i], itb[j]) {
                            any = true;
                        }
                        j += 1;
                    }
                    i += 1;
                }
                return if !any {
                    Step::Decided(0 <= thr)
                } else if set_count(&da.set) <= set_count(&db.set) {
                    Step::Split(pin_all(g, r, a as usize))
                } else {
                    Step::Split(pin_all(g, r, b as usize))
                };
            },
        }
        if !g.aligned_pair(p, q) {
            return Step::Decided(0 <= thr);
        }
        let between = g.between(p, q);
        if a != g.anchor && b != g.anchor && set_has(&between, zero) {
            return Step::Decided(0 <= thr);  // the anchor blocks
        }
        let n = r.off.len();
        let mut c: usize = 0;
        while c < n
            invariant
                g.wf(),
                *g == self.g,
                rel_fits(&self.g, r),
                n == r.off.len(),
                n == g.setup.slots.len(),
            decreases n - c,
        {
            if c as SlotId != a && c as SlotId != b && c as SlotId != g.anchor {
                let d = r.off[c];
                let inside = set_and(&d.set, &between);
                if !set_empty(&inside) {
                    if set_eq(&inside, &d.set) && !d.cap {
                        return Step::Decided(0 <= thr);
                    }
                    proof {
                        let x = choose|x: int| #[trigger] obit(inside, x);
                        assert(obit(d.set, x) && obit(between, x));
                        if !d.cap {
                            let y = choose|y: int| !(#[trigger] obit(inside, y) == obit(d.set, y));
                            assert(obit(d.set, y) && !obit(between, y));
                        }
                    }
                    return Step::Split(split_mask(g, r, c, &between));
                }
            }
            c += 1;
        }
        Step::Decided(1 <= thr)
    }

    /// The offset of slot `s` if pinned (the anchor at zero), else its domain.
    fn pos_of(&self, r: &Rel, s: SlotId) -> (res: Result<Off, OffDom>)
        requires
            self.wf(),
            rel_fits(&self.g, r),
            (s as int) < r.off.len(),
        ensures
            res matches Ok(p) ==> valid_off(self.g.n as int, p as int),
            res matches Err(d) ==> d == r.off@[s as int] && unpinned(d) && s != self.g.anchor,
    {
        if s == self.g.anchor {
            return Ok(self.g.zero());
        }
        let d = r.off[s as usize];
        match d.pinned() {
            Some(p) => {
                proof {
                    assert(obit(r.off@[s as int].set, p as int));
                }
                Ok(p)
            },
            None => Err(d),
        }
    }

    /// Partition by certificate membership.
    pub fn classify(&self, r: Rel) -> (out: Vec<(Rel, bool)>)
        requires
            self.wf(),
            rel_fits(&self.g, &r),
            rel_vocab(self.cert),
        ensures
            forall|i: int| 0 <= i < out.len() ==> rel_fits(&self.g, &(#[trigger] out@[i]).0) && rel_le(&out@[i].0, &r),
            partition(&self.g, firsts(out@), &r),
    {
        self.classify_from(r, self.cert.root)
    }

    fn classify_from(&self, r: Rel, node: u32) -> (out: Vec<(Rel, bool)>)
        requires
            self.wf(),
            rel_fits(&self.g, &r),
            rel_vocab(self.cert),
            node < self.cert.nodes.len() + 2,
        ensures
            forall|i: int| 0 <= i < out.len() ==> rel_fits(&self.g, &(#[trigger] out@[i]).0) && rel_le(&out@[i].0, &r),
            partition(&self.g, firsts(out@), &r),
        decreases rel_size(r.a, r.off@),
    {
        let mut node = node;
        while node >= 2
            invariant
                self.wf(),
                rel_fits(&self.g, &r),
                rel_vocab(self.cert),
                node < self.cert.nodes.len() + 2,
            decreases node,
        {
            let nd = self.cert.nodes[(node - 2) as usize];
            proof {
                assert(crate::certs::node_ok(self.cert.nodes@[node - 2], node - 2 + 2));
                assert(feat_in_vocab(self.cert.nodes@[node - 2]@[0]));
            }
            match self.test(&r, nd[0], nd[1]) {
                Step::Decided(b) => {
                    node = if b {
                        nd[2]
                    } else {
                        nd[3]
                    } as u32;
                },
                Step::Split(children) => {
                    let mut out: Vec<(Rel, bool)> = Vec::new();
                    let mut i: usize = 0;
                    while i < children.len()
                        invariant
                            self.wf(),
                            rel_fits(&self.g, &r),
                            rel_vocab(self.cert),
                            node < self.cert.nodes.len() + 2,
                            good_split(&self.g, children@, &r),
                            partition(&self.g, children@, &r),
                            0 <= i <= children.len(),
                            forall|k: int| 0 <= k < out.len() ==> rel_fits(&self.g, &(#[trigger] out@[k]).0) && rel_le(&out@[k].0, &r),
                            covers_prefix(&self.g, firsts(out@), children@, i as int),
                        decreases children.len() - i,
                    {
                        let c = copy_rel(&children[i]);
                        proof {
                            assert(smaller(&children@[i as int], &r));
                            assert(rel_fits(&self.g, &children@[i as int]));
                        }
                        let mut sub = self.classify_from(c, node);
                        let ghost out0 = out@;
                        let ghost sub0 = sub@;
                        out.append(&mut sub);
                        proof {
                            lemma_partition_same(&self.g, firsts(sub0), &c, &children@[i as int]);
                            assert(firsts(out@) =~= firsts(out0) + firsts(sub0));
                            lemma_concat_step(&self.g, children@, i as int, firsts(out0), firsts(sub0));
                            assert forall|k: int| 0 <= k < out.len() implies rel_fits(&self.g, &(#[trigger] out@[k]).0) && rel_le(&out@[k].0, &r) by {
                                if k >= out0.len() {
                                    assert(out@[k] == sub0[k - out0.len()]);
                                    lemma_le_trans(&out@[k].0, &c, &r);
                                } else {
                                    assert(out@[k] == out0[k]);
                                }
                            }
                        }
                        i += 1;
                    }
                    proof {
                        lemma_concat_done(&self.g, children@, firsts(out@), &r);
                    }
                    return out;
                },
            }
        }
        let leaf = node == 1;
        proof {
            lemma_le_refl(&r);
        }
        let mut out: Vec<(Rel, bool)> = Vec::new();
        out.push((r, leaf));
        proof {
            lemma_partition_single(&self.g, firsts(out@), &out@[0].0);
        }
        out
    }

    // ---- moves ----

    /// Candidate moves for `stm`: anchor steps, or offsets for other slots.
    pub fn candidates(&self, stm: Color) -> (out: Vec<Cand>)
        requires
            self.wf(),
        ensures
            forall|i: int| 0 <= i < out.len() ==> cand_ok(&self.g, #[trigger] out@[i]),
            forall|c: Cand| #[trigger] out@.contains(c) <==> is_cand(&self.g, stm, c),
    {
        let g = &self.g;
        proof {
            crate::board::lemma_slots_of_upto(g.setup.slots@, stm, g.setup.slots.len() as int);
        }
        let slots = g.setup.slots_of(stm);
        let all = g.all_offsets();
        let its = set_iter(&all);
        let mut out: Vec<Cand> = Vec::new();
        let mut i: usize = 0;
        while i < slots.len()
            invariant
                self.wf(),
                *g == self.g,
                slots@ == crate::board::slots_of_spec(self.g.setup.slots@, stm),
                0 <= i <= slots.len(),
                forall|k: int| 0 <= k < slots.len() ==> (#[trigger] slots@[k] as int) < self.g.setup.slots.len(),
                forall|x: int| #[trigger] obit(all, x) <==> valid_off(self.g.n as int, x) && x != off_spec(self.g.n as int, 0, 0),
                forall|k: int| 0 <= k < its.len() ==> #[trigger] obit(all, its@[k] as int),
                forall|x: int| #[trigger] obit(all, x) ==> exists|m: int| 0 <= m < its.len() && its@[m] == x,
                forall|k: int| 0 <= k < out.len() ==> cand_ok(&self.g, #[trigger] out@[k]),
                forall|k: int| 0 <= k < out.len() ==> is_cand(&self.g, stm, #[trigger] out@[k]),
                forall|c: Cand| is_cand(&self.g, stm, c) && slots@.subrange(0, i as int).contains(cand_slot(&self.g, c)) ==> #[trigger] out@.contains(c),
            decreases slots.len() - i,
        {
            let s = slots[i];
            proof {
                assert((slots@[i as int] as int) < g.setup.slots.len());
                assert(slots@.contains(s));
            }
            let ghost out_i = out@;
            if s == g.anchor {
                let mut dy: i32 = -1;
                while dy <= 1
                    invariant
                        self.wf(),
                        *g == self.g,
                        -1 <= dy <= 2,
                        s == self.g.anchor,
                        slots@.contains(s),
                        slots@ == crate::board::slots_of_spec(self.g.setup.slots@, stm),
                        forall|k: int| 0 <= k < out.len() ==> cand_ok(&self.g, #[trigger] out@[k]),
                        forall|k: int| 0 <= k < out.len() ==> is_cand(&self.g, stm, #[trigger] out@[k]),
                        forall|c: Cand| #[trigger] out_i.contains(c) ==> out@.contains(c),
                        forall|x: int, y: int|
                            -1 <= x <= 1 && -1 <= y < dy && !(x == 0 && y == 0) ==> #[trigger] out@.contains(
                                Cand::Anchor(off_spec(self.g.n as int, x, y) as Off),
                            ),
                    decreases 2 - dy,
                {
                    let mut dx: i32 = -1;
                    while dx <= 1
                        invariant
                            self.wf(),
                            *g == self.g,
                            -1 <= dy <= 1,
                            -1 <= dx <= 2,
                            s == self.g.anchor,
                            slots@.contains(s),
                            slots@ == crate::board::slots_of_spec(self.g.setup.slots@, stm),
                            forall|k: int| 0 <= k < out.len() ==> cand_ok(&self.g, #[trigger] out@[k]),
                            forall|k: int| 0 <= k < out.len() ==> is_cand(&self.g, stm, #[trigger] out@[k]),
                            forall|c: Cand| #[trigger] out_i.contains(c) ==> out@.contains(c),
                            forall|x: int, y: int|
                                -1 <= x <= 1 && -1 <= y <= 1 && (y < dy || (y == dy && x < dx)) && !(x == 0 && y == 0)
                                    ==> #[trigger] out@.contains(Cand::Anchor(off_spec(self.g.n as int, x, y) as Off)),
                        decreases 2 - dx,
                    {
                        if dx != 0 || dy != 0 {
                            let d = g.off(dx, dy);
                            proof {
                                lemma_off(g.n as int, dx as int, dy as int);
                                lemma_off(g.n as int, 0, 0);
                            }
                            let ghost before = out@;
                            out.push(Cand::Anchor(d));
                            proof {
                                assert(king_step(&self.g, d as int));
                                assert(out@[before.len() as int] == Cand::Anchor(d));
                                assert forall|c: Cand| #[trigger] before.contains(c) implies out@.contains(c) by {
                                    let k = choose|k: int| 0 <= k < before.len() && #[trigger] before[k] == c;
                                    assert(out@[k] == c);
                                }
                                assert forall|x: int, y: int|
                                    -1 <= x <= 1 && -1 <= y <= 1 && (y < dy || (y == dy && x < dx + 1)) && !(x == 0 && y == 0)
                                        implies #[trigger] out@.contains(Cand::Anchor(off_spec(self.g.n as int, x, y) as Off)) by {
                                    if y == dy && x == dx {
                                        assert(off_spec(self.g.n as int, x, y) as Off == d);
                                        assert(out@[before.len() as int] == Cand::Anchor(off_spec(self.g.n as int, x, y) as Off));
                                    } else {
                                        assert(before.contains(Cand::Anchor(off_spec(self.g.n as int, x, y) as Off)));
                                    }
                                }
                            }
                        }
                        dx += 1;
                    }
                    dy += 1;
                }
                proof {
                    assert forall|c: Cand| is_cand(&self.g, stm, c) && slots@.subrange(0, i + 1).contains(cand_slot(&self.g, c)) implies #[trigger] out@.contains(c) by {
                        if slots@.subrange(0, i as int).contains(cand_slot(&self.g, c)) {
                            assert(out_i.contains(c));
                        } else {
                            let sub = slots@.subrange(0, i + 1);
                            let j = choose|j: int| 0 <= j < sub.len() && #[trigger] sub[j] == cand_slot(&self.g, c);
                            if j < i {
                                assert(slots@.subrange(0, i as int)[j] == cand_slot(&self.g, c));
                            }
                            match c {
                                Cand::Anchor(d) => {
                                    let (x, y) = choose|x: int, y: int|
                                        -1 <= x <= 1 && -1 <= y <= 1 && !(x == 0 && y == 0) && d as int == off_spec(self.g.n as int, x, y);
                                    assert(out@.contains(Cand::Anchor(off_spec(self.g.n as int, x, y) as Off)));
                                },
                                Cand::Slot(s2, t) => {},
                            }
                        }
                    }
                }
            } else {
                let mut k: usize = 0;
                while k < its.len()
                    invariant
                        self.wf(),
                        *g == self.g,
                        0 <= k <= its.len(),
                        (s as int) < self.g.setup.slots.len(),
                        s != self.g.anchor,
                        slots@.contains(s),
                        slots@ == crate::board::slots_of_spec(self.g.setup.slots@, stm),
                        forall|x: int| #[trigger] obit(all, x) <==> valid_off(self.g.n as int, x) && x != off_spec(self.g.n as int, 0, 0),
                        forall|k: int| 0 <= k < its.len() ==> #[trigger] obit(all, its@[k] as int),
                        forall|k: int| 0 <= k < out.len() ==> cand_ok(&self.g, #[trigger] out@[k]),
                        forall|k: int| 0 <= k < out.len() ==> is_cand(&self.g, stm, #[trigger] out@[k]),
                        forall|c: Cand| #[trigger] out_i.contains(c) ==> out@.contains(c),
                        forall|m: int| 0 <= m < k ==> #[trigger] out@.contains(Cand::Slot(s, its@[m])),
                    decreases its.len() - k,
                {
                    proof {
                        assert(obit(all, its@[k as int] as int));
                    }
                    let ghost before = out@;
                    out.push(Cand::Slot(s, its[k]));
                    proof {
                        assert(out@[before.len() as int] == Cand::Slot(s, its@[k as int]));
                        assert forall|c: Cand| #[trigger] before.contains(c) implies out@.contains(c) by {
                            let j = choose|j: int| 0 <= j < before.len() && #[trigger] before[j] == c;
                            assert(out@[j] == c);
                        }
                        assert forall|c: Cand| #[trigger] out_i.contains(c) implies out@.contains(c) by {
                            assert(before.contains(c));
                        }
                        assert forall|m: int| 0 <= m < k + 1 implies #[trigger] out@.contains(Cand::Slot(s, its@[m])) by {
                            if m < k {
                                assert(before.contains(Cand::Slot(s, its@[m])));
                            }
                        }
                    }
                    k += 1;
                }
                proof {
                    assert forall|c: Cand| is_cand(&self.g, stm, c) && slots@.subrange(0, i + 1).contains(cand_slot(&self.g, c)) implies #[trigger] out@.contains(c) by {
                        if slots@.subrange(0, i as int).contains(cand_slot(&self.g, c)) {
                            assert(out_i.contains(c));
                        } else {
                            let sub = slots@.subrange(0, i + 1);
                            let j = choose|j: int| 0 <= j < sub.len() && #[trigger] sub[j] == cand_slot(&self.g, c);
                            if j < i {
                                assert(slots@.subrange(0, i as int)[j] == cand_slot(&self.g, c));
                            }
                            assert(cand_slot(&self.g, c) == s);
                            match c {
                                Cand::Anchor(d) => {},
                                Cand::Slot(s2, t) => {
                                    assert(obit(all, t as int));
                                    let m = choose|m: int| 0 <= m < its.len() && #[trigger] its@[m] == t as int;
                                    assert(out@.contains(Cand::Slot(s, its@[m])));
                                },
                            }
                        }
                    }
                }
            }
            i += 1;
        }
        proof {
            assert(slots@.subrange(0, slots.len() as int) =~= slots@);
            assert forall|c: Cand| #[trigger] out@.contains(c) implies is_cand(&self.g, stm, c) by {
                let k = choose|k: int| 0 <= k < out.len() && #[trigger] out@[k] == c;
            }
        }
        out
    }

    /// Can the candidate move be played on the region (and does it
    /// capture)? Decided, or a split.
    fn step(&self, r: &Rel, c: Cand) -> (st: Step<Option<bool>>)
        requires
            self.wf(),
            rel_fits(&self.g, r),
            cand_ok(&self.g, c),
        ensures
            step_ok(&self.g, &st, r),
    {
        let g = &self.g;
        let stm = r.stm;
        let zero = g.zero();
        let n = r.off.len();
        match c {
            Cand::Anchor(d) => {
                proof {
                    lemma_dxy(g.n as int, d as int);
                }
                // 1. Target on the board.
                let mask = board_mask(g, r.a, d);
                match split_anchor(g, r, mask) {
                    Step::Decided(true) => {},
                    Step::Decided(false) => {
                        return Step::Decided(None);
                    },
                    Step::Split(ch) => {
                        return Step::Split(ch);
                    },
                }
                // 2. Occupancy of the target offset.
                let mut capture: Option<SlotId> = None;
                let mut s: usize = 0;
                while s < n
                    invariant
                        self.wf(),
                        *g == self.g,
                        rel_fits(&self.g, r),
                        n == r.off.len(),
                        valid_off(self.g.n as int, d as int),
                        d < 256,
                        capture matches Some(x) ==> (x as int) < n && x != self.g.anchor && self.g.setup.kind_spec(x as int) != Kind::King,
                    decreases n - s,
                {
                    if s as SlotId != g.anchor && set_has(&r.off[s].set, d) {
                        if r.off[s].pinned().is_none() {
                            let one = set_one(d);
                            proof {
                                assert(obit(r.off@[s as int].set, d as int) && obit(one, d as int));
                                if !r.off@[s as int].cap {
                                    lemma_other(r.off@[s as int].set, d as int);
                                    let y = choose|y: int| y != d && #[trigger] obit(r.off@[s as int].set, y);
                                    assert(obit(r.off@[s as int].set, y) && !obit(one, y));
                                }
                            }
                            return Step::Split(split_mask(g, r, s, &one));
                        }
                        if g.setup.color(s as SlotId) == stm || g.setup.kind(s as SlotId) == Kind::King {
                            return Step::Decided(None);
                        }
                        capture = Some(s as SlotId);
                    }
                    s += 1;
                }
                // 3. Not attacked afterwards.
                let v = RelView { mover: None, captured: capture, anchor_at: Some(d) };
                match self.attacked(r, &v, KingPos::Anchor, stm.flip()) {
                    Step::Decided(true) => Step::Decided(None),
                    Step::Decided(false) => Step::Decided(Some(capture.is_some())),
                    Step::Split(ch) => Step::Split(ch),
                }
            },
            Cand::Slot(s, t) => {
                proof {
                    lemma_dxy(g.n as int, t as int);
                }
                let d = r.off[s as usize];
                if d.present() == Some(false) {
                    return Step::Decided(None);
                }
                if d.cap {
                    return Step::Split(split_presence(g, r, s as usize));
                }
                if t == zero {
                    return Step::Decided(None);
                }
                // 1. Origins that reach `t`.
                let all = g.all_offsets();
                let rook = match g.setup.kind(s) {
                    Kind::King => false,
                    Kind::Rook => true,
                    _ => {
                        proof {
                            assert(g.setup.slots@[s as int].1 == Kind::King || g.setup.slots@[s as int].1 == Kind::Rook);
                        }
                        false
                    },
                };
                let pr = if rook {
                    OffPred::Aligned(t)
                } else {
                    OffPred::Adjacent(t)
                };
                let geom = filter_set(g, &all, pr);
                let inside = set_and(&d.set, &geom);
                if set_empty(&inside) {
                    return Step::Decided(None);
                }
                if !set_eq(&inside, &d.set) {
                    proof {
                        let x = choose|x: int| #[trigger] obit(inside, x);
                        assert(obit(d.set, x) && obit(geom, x));
                        let y = choose|y: int| !(#[trigger] obit(inside, y) == obit(d.set, y));
                        assert(obit(d.set, y) && !obit(geom, y));
                    }
                    return Step::Split(split_mask(g, r, s as usize, &geom));
                }
                proof {
                    assert forall|o: int| #[trigger] obit(d.set, o) implies obit(geom, o) by {
                        assert(obit(inside, o));
                    }
                }
                // 2. Target on the board from every anchor square.
                let mask = board_mask(g, r.a, t);
                match split_anchor(g, r, mask) {
                    Step::Decided(true) => {},
                    Step::Decided(false) => {
                        return Step::Decided(None);
                    },
                    Step::Split(ch) => {
                        return Step::Split(ch);
                    },
                }
                // 3. Occupancy of `t`.
                let mut capture: Option<SlotId> = None;
                let mut c: usize = 0;
                while c < n
                    invariant
                        self.wf(),
                        *g == self.g,
                        rel_fits(&self.g, r),
                        n == r.off.len(),
                        (s as int) < n,
                        t < 256,
                        capture matches Some(x) ==> (x as int) < n && x != self.g.anchor && x != s && self.g.setup.kind_spec(x as int)
                            != Kind::King,
                    decreases n - c,
                {
                    if c != s as usize && c as SlotId != g.anchor && set_has(&r.off[c].set, t) {
                        if r.off[c].pinned().is_none() {
                            let one = set_one(t);
                            proof {
                                assert(obit(r.off@[c as int].set, t as int) && obit(one, t as int));
                                if !r.off@[c as int].cap {
                                    lemma_other(r.off@[c as int].set, t as int);
                                    let y = choose|y: int| y != t && #[trigger] obit(r.off@[c as int].set, y);
                                    assert(obit(r.off@[c as int].set, y) && !obit(one, y));
                                }
                            }
                            return Step::Split(split_mask(g, r, c, &one));
                        }
                        if g.setup.color(c as SlotId) == stm || g.setup.kind(c as SlotId) == Kind::King {
                            return Step::Decided(None);
                        }
                        capture = Some(c as SlotId);
                    }
                    c += 1;
                }
                // 4. A rook's path must be clear from every origin.
                if rook {
                    let path = self.rook_path(&d.set, t);
                    if set_has(&path, zero) {
                        let keep = self.cut(&d.set, t, zero);
                        if set_empty(&keep) {
                            return Step::Decided(None);
                        }
                        proof {
                            let o = choose|o: int| #[trigger] obit(d.set, o) && off_between_spec(g.n as int, o, t as int, zero as int);
                            assert(obit(d.set, o) && !obit(keep, o));
                            let x = choose|x: int| #[trigger] obit(keep, x);
                            assert(obit(d.set, x) && obit(keep, x));
                        }
                        return Step::Split(split_mask(g, r, s as usize, &keep));
                    }
                    let mut c: usize = 0;
                    while c < n
                        invariant
                            self.wf(),
                            *g == self.g,
                            rel_fits(&self.g, r),
                            n == r.off.len(),
                            (s as int) < n,
                            s != self.g.anchor,
                            d == r.off@[s as int],
                            !d.cap,
                            t < 256,
                            valid_off(self.g.n as int, t as int),
                            forall|o: int| #[trigger] obit(d.set, o) ==> aligned_spec(self.g.n as int, o, t as int),
                            forall|y: int| #[trigger] obit(path, y) ==> exists|o: int| #[trigger] obit(d.set, o) && off_between_spec(self.g.n as int, o, t as int, y),
                        decreases n - c,
                    {
                        if c != s as usize && c as SlotId != g.anchor {
                            let both = set_and(&r.off[c].set, &path);
                            if !set_empty(&both) {
                                match r.off[c].pinned() {
                                    None => {
                                        proof {
                                            let x = choose|x: int| #[trigger] obit(both, x);
                                            assert(obit(r.off@[c as int].set, x) && obit(path, x));
                                        }
                                        return Step::Split(split_pin_in(g, r, c, &path));
                                    },
                                    Some(x) => {
                                        proof {
                                            let y = choose|y: int| #[trigger] obit(both, y);
                                            assert(obit(r.off@[c as int].set, y));
                                            assert(y == x);
                                            assert(obit(path, x as int));
                                            assert(obit(r.off@[c as int].set, x as int));
                                        }
                                        let keep = self.cut(&d.set, t, x);
                                        if set_empty(&keep) {
                                            return Step::Decided(None);
                                        }
                                        proof {
                                            let o = choose|o: int| #[trigger] obit(d.set, o) && off_between_spec(g.n as int, o, t as int, x as int);
                                            assert(obit(d.set, o) && !obit(keep, o));
                                            let z = choose|z: int| #[trigger] obit(keep, z);
                                            assert(obit(d.set, z) && obit(keep, z));
                                        }
                                        return Step::Split(split_mask(g, r, s as usize, &keep));
                                    },
                                }
                            }
                        }
                        c += 1;
                    }
                }
                // 5. Own king not attacked afterwards.
                let v = RelView { mover: Some((s, t)), captured: capture, anchor_at: None };
                let kp = if stm == self.roles.protected {
                    KingPos::Anchor
                } else {
                    KingPos::Slot(g.setup.king_slot(stm))
                };
                proof {
                    if stm != self.roles.protected {
                        crate::board::lemma_first_king_from(g.setup.slots@, stm, 0);
                        crate::board::lemma_first_king_from(g.setup.slots@, self.roles.protected, 0);
                    }
                }
                match self.attacked(r, &v, kp, stm.flip()) {
                    Step::Decided(true) => Step::Decided(None),
                    Step::Decided(false) => Step::Decided(Some(capture.is_some())),
                    Step::Split(ch) => Step::Split(ch),
                }
            },
        }
    }

    /// The offsets strictly between some origin of `set` and `t`.
    fn rook_path(&self, set: &OffSet, t: Off) -> (path: OffSet)
        requires
            self.wf(),
            valid_off(self.g.n as int, t as int),
            forall|o: int| #[trigger] obit(*set, o) ==> aligned_spec(self.g.n as int, o, t as int) && valid_off(self.g.n as int, o),
        ensures
            forall|y: int| #[trigger] obit(path, y) ==> exists|o: int| #[trigger] obit(*set, o) && off_between_spec(self.g.n as int, o, t as int, y),
    {
        let g = &self.g;
        let mut path: OffSet = [0u64; 4];
        proof {
            lemma_bit_empty();
        }
        let mut o: u16 = 0;
        while o < 256
            invariant
                self.wf(),
                *g == self.g,
                valid_off(self.g.n as int, t as int),
                forall|o: int| #[trigger] obit(*set, o) ==> aligned_spec(self.g.n as int, o, t as int) && valid_off(self.g.n as int, o),
                forall|y: int| #[trigger] obit(path, y) ==> exists|o: int| #[trigger] obit(*set, o) && off_between_spec(self.g.n as int, o, t as int, y),
                0 <= o <= 256,
            decreases 256 - o,
        {
            if set_has(set, o) {
                let b = g.between(o, t);
                let ghost old_path = path;
                path = set_or(&path, &b);
                proof {
                    assert forall|y: int| #[trigger] obit(path, y) implies exists|o: int| #[trigger] obit(*set, o) && off_between_spec(g.n as int, o, t as int, y) by {
                        if !obit(old_path, y) {
                            assert(obit(b, y));
                            assert(obit(*set, o as int) && off_between_spec(g.n as int, o as int, t as int, y));
                        }
                    }
                }
            }
            o += 1;
        }
        path
    }

    /// The origins of `set` whose path to `t` avoids offset `x`.
    fn cut(&self, set: &OffSet, t: Off, x: Off) -> (keep: OffSet)
        requires
            self.wf(),
            x < 256,
            valid_off(self.g.n as int, t as int),
            forall|o: int| #[trigger] obit(*set, o) ==> aligned_spec(self.g.n as int, o, t as int) && valid_off(self.g.n as int, o),
        ensures
            forall|o: int| #[trigger] obit(keep, o) <==> obit(*set, o) && !off_between_spec(self.g.n as int, o, t as int, x as int),
    {
        let g = &self.g;
        let mut keep: OffSet = [0u64; 4];
        proof {
            lemma_bit_empty();
        }
        let mut o: u16 = 0;
        while o < 256
            invariant
                self.wf(),
                *g == self.g,
                valid_off(self.g.n as int, t as int),
                forall|o: int| #[trigger] obit(*set, o) ==> aligned_spec(self.g.n as int, o, t as int) && valid_off(self.g.n as int, o),
                0 <= o <= 256,
                x < 256,
                forall|y: int| #[trigger] obit(keep, y) <==> 0 <= y < o && obit(*set, y) && !off_between_spec(self.g.n as int, y, t as int, x as int),
            decreases 256 - o,
        {
            if set_has(set, o) {
                let b = g.between(o, t);
                if !set_has(&b, x) {
                    set_add(&mut keep, o);
                }
            }
            o += 1;
        }
        keep
    }

    /// Partition the region by whether the candidate can be played (and
    /// whether it captures).
    pub fn can_move(&self, r: Rel, c: Cand) -> (out: Vec<(Rel, Option<bool>)>)
        requires
            self.wf(),
            rel_fits(&self.g, &r),
            cand_ok(&self.g, c),
        ensures
            forall|i: int| 0 <= i < out.len() ==> rel_fits(&self.g, &(#[trigger] out@[i]).0) && rel_le(&out@[i].0, &r),
            partition(&self.g, firsts(out@), &r),
        decreases rel_size(r.a, r.off@),
    {
        match self.step(&r, c) {
            Step::Decided(x) => {
                proof {
                    lemma_le_refl(&r);
                }
                let mut out: Vec<(Rel, Option<bool>)> = Vec::new();
                out.push((r, x));
                proof {
                    lemma_partition_single(&self.g, firsts(out@), &out@[0].0);
                }
                out
            },
            Step::Split(children) => {
                let mut out: Vec<(Rel, Option<bool>)> = Vec::new();
                let mut i: usize = 0;
                while i < children.len()
                    invariant
                        self.wf(),
                        rel_fits(&self.g, &r),
                        cand_ok(&self.g, c),
                        good_split(&self.g, children@, &r),
                        partition(&self.g, children@, &r),
                        0 <= i <= children.len(),
                        forall|k: int| 0 <= k < out.len() ==> rel_fits(&self.g, &(#[trigger] out@[k]).0) && rel_le(&out@[k].0, &r),
                        covers_prefix(&self.g, firsts(out@), children@, i as int),
                    decreases children.len() - i,
                {
                    let ch = copy_rel(&children[i]);
                    proof {
                        assert(smaller(&children@[i as int], &r));
                        assert(rel_fits(&self.g, &children@[i as int]));
                    }
                    let mut sub = self.can_move(ch, c);
                    let ghost out0 = out@;
                    let ghost sub0 = sub@;
                    out.append(&mut sub);
                    proof {
                        lemma_partition_same(&self.g, firsts(sub0), &ch, &children@[i as int]);
                        assert(firsts(out@) =~= firsts(out0) + firsts(sub0));
                        lemma_concat_step(&self.g, children@, i as int, firsts(out0), firsts(sub0));
                        assert forall|k: int| 0 <= k < out.len() implies rel_fits(&self.g, &(#[trigger] out@[k]).0) && rel_le(&out@[k].0, &r) by {
                            if k >= out0.len() {
                                assert(out@[k] == sub0[k - out0.len()]);
                                lemma_le_trans(&out@[k].0, &ch, &r);
                            } else {
                                assert(out@[k] == out0[k]);
                            }
                        }
                    }
                    i += 1;
                }
                proof {
                    lemma_concat_done(&self.g, children@, firsts(out@), &r);
                }
                out
            },
        }
    }

    /// The opposing piece pinned at offset `t`.
    fn victim(&self, r: &Rel, t: Off) -> (v: Option<SlotId>)
        requires
            self.wf(),
            rel_fits(&self.g, r),
        ensures
            v matches Some(x) ==> (x as int) < r.off.len() && x != self.g.anchor,
            v == first_victim(&self.g, r, t as int, crate::board::slots_of_spec(self.g.setup.slots@, flip_spec(r.stm)), 0),
    {
        let g = &self.g;
        proof {
            crate::board::lemma_slots_of_upto(g.setup.slots@, flip_spec(r.stm), g.setup.slots.len() as int);
        }
        let opp = g.setup.slots_of(r.stm.flip());
        let mut i: usize = 0;
        while i < opp.len()
            invariant
                self.wf(),
                *g == self.g,
                rel_fits(&self.g, r),
                forall|k: int| 0 <= k < opp.len() ==> (#[trigger] opp@[k] as int) < self.g.setup.slots.len(),
                opp@ == crate::board::slots_of_spec(self.g.setup.slots@, flip_spec(r.stm)),
                0 <= i <= opp.len(),
                first_victim(&self.g, r, t as int, opp@, 0) == first_victim(&self.g, r, t as int, opp@, i as int),
            decreases opp.len() - i,
        {
            let x = opp[i];
            proof {
                assert((opp@[i as int] as int) < g.setup.slots.len());
            }
            let pin = r.off[x as usize].pinned();
            proof {
                let d = r.off@[x as int];
                if pin is Some {
                    let o = pin->Some_0;
                    if single_at(d.set, t as int) {
                        assert(obit(d.set, t as int));
                        assert(obit(d.set, o as int));
                    }
                }
            }
            if x != g.anchor && pin == Some(t) {
                return Some(x);
            }
            i += 1;
        }
        None
    }

    /// The successor region of a decided move.
    pub fn play(&self, r: &Rel, c: Cand, capture: bool) -> (s: Rel)
        requires
            self.wf(),
            rel_fits(&self.g, r),
            cand_ok(&self.g, c),
        ensures
            rel_fits(&self.g, &s),
            s.stm == flip_spec(r.stm),
    {
        let g = &self.g;
        let mut s = copy_rel(r);
        let n = s.off.len();
        match c {
            Cand::Anchor(d) => {
                if capture {
                    if let Some(v) = self.victim(r, d) {
                        let e: OffSet = [0u64; 4];
                        proof {
                            lemma_bit_empty();
                        }
                        s.off.set(v as usize, OffDom { set: e, cap: true });
                    }
                }
                s.a = moved_mask(g, r.a, d);
                let mut x: usize = 0;
                while x < n
                    invariant
                        self.wf(),
                        *g == self.g,
                        n == s.off.len(),
                        n == self.g.setup.slots.len(),
                        valid_off(self.g.n as int, d as int),
                        s.stm == r.stm,
                        forall|k: int, y: int| 0 <= k < s.off.len() && #[trigger] obit(s.off@[k].set, y) ==> valid_off(self.g.n as int, y),
                    decreases n - x,
                {
                    if x as SlotId != g.anchor {
                        let mut dd = s.off[x];
                        let src = dd.set;
                        let sh = g.shift(&src, d, -1);
                        proof {
                            lemma_shift_valid(g, src, d as int, -1, sh);
                        }
                        dd.set = sh;
                        let ghost before = s.off@;
                        s.off.set(x, dd);
                        proof {
                            assert forall|k: int, y: int| 0 <= k < s.off.len() && #[trigger] obit(s.off@[k].set, y) implies valid_off(g.n as int, y) by {
                                if k != x {
                                    assert(obit(before[k].set, y));
                                }
                            }
                        }
                    }
                    x += 1;
                }
            },
            Cand::Slot(m, t) => {
                if capture {
                    if let Some(v) = self.victim(r, t) {
                        let e: OffSet = [0u64; 4];
                        proof {
                            lemma_bit_empty();
                        }
                        s.off.set(v as usize, OffDom { set: e, cap: true });
                    }
                }
                proof {
                    lemma_dxy(g.n as int, t as int);
                }
                let one = set_one(t);
                let ghost before = s.off@;
                s.off.set(m as usize, OffDom { set: one, cap: false });
                proof {
                    assert forall|k: int, y: int| 0 <= k < s.off.len() && #[trigger] obit(s.off@[k].set, y) implies valid_off(g.n as int, y) by {
                        if k != m {
                            assert(obit(before[k].set, y));
                        }
                    }
                }
            },
        }
        s.stm = r.stm.flip();
        let ghost sa = s.a;
        let ghost soff = s.off@;
        let _ = s.normalize(g);
        proof {
            assert forall|k: int, y: int| 0 <= k < s.off.len() && #[trigger] obit(s.off@[k].set, y) implies valid_off(g.n as int, y) by {
                assert(obit(soff[k].set, y));
            }
        }
        s
    }

    /// The part of `case` whose successor by the move lies in `child`.
    #[verifier::rlimit(40)]
    #[verifier::spinoff_prover]
    pub fn pullback(&self, case: &Rel, child: &Rel, c: Cand, capture: bool) -> (back: Option<Rel>)
        requires
            self.wf(),
            rel_fits(&self.g, case),
            rel_fits(&self.g, child),
            cand_ok(&self.g, c),
        ensures
            back matches Some(b) ==> rel_fits(&self.g, &b) && normal(&self.g, b.a, b.off@) && b.stm == case.stm,
            back matches Some(b) ==> forall|p: Seq<Option<Sq>>, ps: Color|
                valid_pos(&self.g, p) ==> (holds(&self.g, &b, p, ps) <==> #[trigger] pulled_holds(&self.g, case, child, c, capture, p, ps)),
            back is None ==> forall|p: Seq<Option<Sq>>, ps: Color|
                valid_pos(&self.g, p) ==> !#[trigger] pulled_holds(&self.g, case, child, c, capture, p, ps),
    {
        let g = &self.g;
        let mut r = copy_rel(child);
        let n = r.off.len();
        match c {
            Cand::Anchor(d) => {
                proof {
                    lemma_dxy(g.n as int, d as int);
                }
                let back_d = g.shift_off(d);
                r.a = moved_mask(g, child.a, back_d);
                let ghost ma = r.a;
                proof {
                    assert forall|q: int| #[trigger] bit(ma, q) <==> pulled_anchor(g, child, c, q) by {
                        if bit(ma, q) {
                            let s0 = choose|s0: int| 0 <= s0 < g.setup.area_spec() && bit(child.a, s0) && #[trigger] moved_to(g, s0, back_d as int) == Some(q as Sq) && 0 <= q < 64;
                            assert(moved_to(g, s0, back_d as int) == Some(q as Sq));
                        }
                        if pulled_anchor(g, child, c, q) {
                            let s0 = choose|s0: int|
                                0 <= s0 < g.setup.area_spec() && bit(child.a, s0) && #[trigger] moved_to(
                                    g,
                                    s0,
                                    off_spec(g.n as int, -dx_of(g.n as int, d as int), -dy_of(g.n as int, d as int)),
                                ) == Some(q as Sq);
                            assert(moved_to(g, s0, back_d as int) == Some(q as Sq));
                        }
                    }
                }
                let mut x: usize = 0;
                while x < n
                    invariant
                        self.wf(),
                        *g == self.g,
                        n == r.off.len(),
                        n == self.g.setup.slots.len(),
                        n == child.off.len(),
                        valid_off(self.g.n as int, d as int),
                        forall|k: int, y: int| 0 <= k < r.off.len() && #[trigger] obit(r.off@[k].set, y) ==> valid_off(self.g.n as int, y),
                        0 <= x <= n,
                        r.a == ma,
                        forall|k: int| x <= k < n ==> #[trigger] r.off@[k] == child.off@[k],
                        r.off@[self.g.anchor as int] == child.off@[self.g.anchor as int],
                        forall|k: int| 0 <= k < x && k != self.g.anchor ==> (#[trigger] r.off@[k]).cap == child.off@[k].cap,
                        forall|k: int, y: int|
                            #![trigger obit(r.off@[k].set, y)]
                            #![trigger shifted_from(self.g.n as int, child.off@[k].set, d as int, 1, y)]
                            0 <= k < x && k != self.g.anchor ==> (obit(r.off@[k].set, y) <==> shifted_from(
                                self.g.n as int,
                                child.off@[k].set,
                                d as int,
                                1,
                                y,
                            )),
                    decreases n - x,
                {
                    if x as SlotId != g.anchor {
                        let mut dd = r.off[x];
                        let src = child.off[x].set;
                        let sh = g.shift(&src, d, 1);
                        proof {
                            lemma_shift_valid(g, src, d as int, 1, sh);
                        }
                        dd.set = sh;
                        let ghost before = r.off@;
                        r.off.set(x, dd);
                        proof {
                            assert forall|k: int, y: int| 0 <= k < r.off.len() && #[trigger] obit(r.off@[k].set, y) implies valid_off(g.n as int, y) by {
                                if k != x {
                                    assert(obit(before[k].set, y));
                                }
                            }
                            assert forall|k: int, y: int|
                                #![trigger obit(r.off@[k].set, y)]
                                #![trigger shifted_from(self.g.n as int, child.off@[k].set, d as int, 1, y)]
                                0 <= k < x + 1 && k != self.g.anchor implies (obit(r.off@[k].set, y) <==> shifted_from(
                                    self.g.n as int,
                                    child.off@[k].set,
                                    d as int,
                                    1,
                                    y,
                                )) by {
                                if k != x {
                                    assert(r.off@[k] == before[k]);
                                }
                            }
                        }
                    }
                    x += 1;
                }
                let ghost shifted = r.off@;
                let mut vic: Option<SlotId> = None;
                if capture {
                    vic = self.victim(case, d);
                    if let Some(v) = vic {
                        let one = set_one(d);
                        let ghost before = r.off@;
                        r.off.set(v as usize, OffDom { set: one, cap: false });
                        proof {
                            assert forall|k: int, y: int| 0 <= k < r.off.len() && #[trigger] obit(r.off@[k].set, y) implies valid_off(g.n as int, y) by {
                                if k != v {
                                    assert(obit(before[k].set, y));
                                }
                            }
                        }
                    }
                }
                proof {
                    let opp = crate::board::slots_of_spec(g.setup.slots@, flip_spec(case.stm));
                    assert(capture ==> vic == first_victim(g, case, d as int, opp, 0));
                    assert(!capture ==> vic is None);
                    assert forall|s2: int, a2: int, e: Option<Sq>| 0 <= s2 < n && s2 != g.anchor implies (#[trigger] dom_holds(
                        g,
                        r.off@[s2],
                        a2,
                        e,
                    ) <==> pulled_slot(g, case, child, c, capture, a2, s2, e)) by {
                        if vic == Some(s2 as SlotId) {
                            if e is Some {
                                let q = e->Some_0;
                                let o = sq_off(g, a2, q as int);
                                if o == d as int {
                                    assert(obit(r.off@[s2].set, d as int));
                                }
                            }
                        } else {
                            assert(r.off@[s2] == shifted[s2]);
                            if e is Some {
                                let o = sq_off(g, a2, e->Some_0 as int);
                                assert(obit(shifted[s2].set, o) <==> shifted_from(g.n as int, child.off@[s2].set, d as int, 1, o));
                            }
                        }
                    }
                    assert forall|q: int| #[trigger] bit(r.a, q) <==> pulled_anchor(g, child, c, q) by {}
                }
            },
            Cand::Slot(m, t) => {
                let ghost before = r.off@;
                r.off.set(m as usize, case.off[m as usize]);
                proof {
                    assert forall|k: int, y: int| 0 <= k < r.off.len() && #[trigger] obit(r.off@[k].set, y) implies valid_off(g.n as int, y) by {
                        if k != m {
                            assert(obit(before[k].set, y));
                        } else {
                            assert(obit(case.off@[m as int].set, y));
                        }
                    }
                }
                let ghost moved = r.off@;
                let mut vic: Option<SlotId> = None;
                if capture {
                    vic = self.victim(case, t);
                    if let Some(v) = vic {
                        proof {
                            lemma_dxy(g.n as int, t as int);
                        }
                        let one = set_one(t);
                        let ghost before = r.off@;
                        r.off.set(v as usize, OffDom { set: one, cap: false });
                        proof {
                            assert forall|k: int, y: int| 0 <= k < r.off.len() && #[trigger] obit(r.off@[k].set, y) implies valid_off(g.n as int, y) by {
                                if k != v {
                                    assert(obit(before[k].set, y));
                                }
                            }
                        }
                    }
                }
                proof {
                    let opp = crate::board::slots_of_spec(g.setup.slots@, flip_spec(case.stm));
                    assert(capture ==> vic == first_victim(g, case, t as int, opp, 0));
                    assert(!capture ==> vic is None);
                    assert forall|s2: int, a2: int, e: Option<Sq>| 0 <= s2 < n && s2 != g.anchor implies (#[trigger] dom_holds(
                        g,
                        r.off@[s2],
                        a2,
                        e,
                    ) <==> pulled_slot(g, case, child, c, capture, a2, s2, e)) by {
                        if vic == Some(s2 as SlotId) {
                            if e is Some {
                                let q = e->Some_0;
                                let o = sq_off(g, a2, q as int);
                                if o == t as int {
                                    assert(obit(r.off@[s2].set, t as int));
                                }
                            }
                        } else {
                            assert(r.off@[s2] == moved[s2]);
                        }
                    }
                    assert forall|q: int| #[trigger] bit(r.a, q) <==> pulled_anchor(g, child, c, q) by {}
                }
            },
        }
        r.stm = case.stm;
        let ghost ra = r.a;
        let ghost roff = r.off@;
        proof {
            lemma_pulled_region(g, ra, roff, case, child, c, capture);
        }
        if r.normalize(g) {
            proof {
                assert forall|k: int, y: int| 0 <= k < r.off.len() && #[trigger] obit(r.off@[k].set, y) implies valid_off(g.n as int, y) by {
                    assert(obit(roff[k].set, y));
                }
                assert forall|p: Seq<Option<Sq>>, ps: Color|
                    valid_pos(g, p) implies (holds(g, &r, p, ps) <==> #[trigger] pulled_holds(g, case, child, c, capture, p, ps)) by {
                    if holds(g, &r, p, ps) {
                        lemma_within_holds(g, r.a, r.off@, ra, roff, case.stm, p, ps);
                    }
                    if pulled_holds(g, case, child, c, capture, p, ps) {
                        assert(holds_in(g, ra, roff, case.stm, p, ps));
                    }
                }
            }
            Some(r)
        } else {
            proof {
                assert forall|p: Seq<Option<Sq>>, ps: Color| valid_pos(g, p) implies !#[trigger] pulled_holds(
                    g,
                    case,
                    child,
                    c,
                    capture,
                    p,
                    ps,
                ) by {
                    assert(!holds_in(g, ra, roff, case.stm, p, ps));
                }
            }
            None
        }
    }

    /// The king of `c` as a king position.
    fn king_pos(&self, c: Color) -> (kp: KingPos)
        requires
            self.wf(),
        ensures
            kp_ok(&self.g, kp),
            kp == (if c == self.roles.protected {
                KingPos::Anchor
            } else {
                KingPos::Slot(king_slot_spec(self.g.setup.slots@, c) as SlotId)
            }),
    {
        if c == self.roles.protected {
            KingPos::Anchor
        } else {
            proof {
                crate::board::lemma_first_king_from(self.g.setup.slots@, c, 0);
                crate::board::lemma_first_king_from(self.g.setup.slots@, self.roles.protected, 0);
            }
            KingPos::Slot(self.g.setup.king_slot(c))
        }
    }

    /// Legal part of `r` (side not to move not in check).
    pub fn legal(&self, r: Rel) -> (out: Vec<Rel>)
        requires
            self.wf(),
            rel_fits(&self.g, &r),
        ensures
            forall|i: int| 0 <= i < out.len() ==> rel_fits(&self.g, &(#[trigger] out@[i])) && rel_le(&out@[i], &r),
            subparts(&self.g, out@, &r),
        decreases rel_size(r.a, r.off@),
    {
        let kp = self.king_pos(r.stm.flip());
        let none = RelView { mover: None, captured: None, anchor_at: None };
        match self.attacked(&r, &none, kp, r.stm) {
            Step::Decided(true) => Vec::new(),
            Step::Decided(false) => {
                proof {
                    lemma_le_refl(&r);
                }
                let mut out: Vec<Rel> = Vec::new();
                out.push(r);
                proof {
                    lemma_partition_single(&self.g, out@, &out@[0]);
                }
                out
            },
            Step::Split(children) => {
                let mut out: Vec<Rel> = Vec::new();
                let mut i: usize = 0;
                while i < children.len()
                    invariant
                        self.wf(),
                        rel_fits(&self.g, &r),
                        good_split(&self.g, children@, &r),
                        partition(&self.g, children@, &r),
                        0 <= i <= children.len(),
                        forall|k: int| 0 <= k < out.len() ==> rel_fits(&self.g, &(#[trigger] out@[k])) && rel_le(&out@[k], &r),
                        sub_prefix(&self.g, out@, children@, i as int),
                    decreases children.len() - i,
                {
                    let ch = copy_rel(&children[i]);
                    proof {
                        assert(smaller(&children@[i as int], &r));
                        assert(rel_fits(&self.g, &children@[i as int]));
                    }
                    let mut sub = self.legal(ch);
                    let ghost out0 = out@;
                    let ghost sub0 = sub@;
                    out.append(&mut sub);
                    proof {
                        lemma_subparts_same(&self.g, sub0, &ch, &children@[i as int]);
                        lemma_sub_step(&self.g, children@, i as int, out0, sub0);
                        assert(out@ =~= out0 + sub0);
                        assert forall|k: int| 0 <= k < out.len() implies rel_fits(&self.g, &(#[trigger] out@[k])) && rel_le(&out@[k], &r) by {
                            if k >= out0.len() {
                                assert(out@[k] == sub0[k - out0.len()]);
                                lemma_le_trans(&out@[k], &ch, &r);
                            } else {
                                assert(out@[k] == out0[k]);
                            }
                        }
                    }
                    i += 1;
                }
                proof {
                    lemma_sub_done(&self.g, children@, out@, &r);
                }
                out
            },
        }
    }

    /// The region split by whether the side to move is not in check.
    fn mated_parts(&self, r: Rel) -> (out: Vec<(Rel, bool)>)
        requires
            self.wf(),
            rel_fits(&self.g, &r),
        ensures
            forall|i: int| 0 <= i < out.len() ==> rel_fits(&self.g, &(#[trigger] out@[i]).0) && rel_le(&out@[i].0, &r),
            partition(&self.g, firsts(out@), &r),
        decreases rel_size(r.a, r.off@),
    {
        let kp = self.king_pos(r.stm);
        let none = RelView { mover: None, captured: None, anchor_at: None };
        match self.attacked(&r, &none, kp, r.stm.flip()) {
            Step::Decided(mated) => {
                proof {
                    lemma_le_refl(&r);
                }
                let mut out: Vec<(Rel, bool)> = Vec::new();
                out.push((r, !mated));
                proof {
                    lemma_partition_single(&self.g, firsts(out@), &out@[0].0);
                }
                out
            },
            Step::Split(children) => {
                let mut out: Vec<(Rel, bool)> = Vec::new();
                let mut i: usize = 0;
                while i < children.len()
                    invariant
                        self.wf(),
                        rel_fits(&self.g, &r),
                        good_split(&self.g, children@, &r),
                        partition(&self.g, children@, &r),
                        0 <= i <= children.len(),
                        forall|k: int| 0 <= k < out.len() ==> rel_fits(&self.g, &(#[trigger] out@[k]).0) && rel_le(&out@[k].0, &r),
                        covers_prefix(&self.g, firsts(out@), children@, i as int),
                    decreases children.len() - i,
                {
                    let ch = copy_rel(&children[i]);
                    proof {
                        assert(smaller(&children@[i as int], &r));
                        assert(rel_fits(&self.g, &children@[i as int]));
                    }
                    let mut sub = self.mated_parts(ch);
                    let ghost out0 = out@;
                    let ghost sub0 = sub@;
                    out.append(&mut sub);
                    proof {
                        lemma_partition_same(&self.g, firsts(sub0), &ch, &children@[i as int]);
                        assert(firsts(out@) =~= firsts(out0) + firsts(sub0));
                        lemma_concat_step(&self.g, children@, i as int, firsts(out0), firsts(sub0));
                        assert forall|k: int| 0 <= k < out.len() implies rel_fits(&self.g, &(#[trigger] out@[k]).0) && rel_le(&out@[k].0, &r) by {
                            if k >= out0.len() {
                                assert(out@[k] == sub0[k - out0.len()]);
                                lemma_le_trans(&out@[k].0, &ch, &r);
                            } else {
                                assert(out@[k] == out0[k]);
                            }
                        }
                    }
                    i += 1;
                }
                proof {
                    lemma_concat_done(&self.g, children@, firsts(out@), &r);
                }
                out
            },
        }
    }

    /// Own turn, disjoint refinement.
    pub fn exists_abs(&self, r: Rel) -> (out: Vec<(Rel, bool)>)
        requires
            self.wf(),
            rel_fits(&self.g, &r),
            rel_vocab(self.cert),
        ensures
            forall|i: int| 0 <= i < out.len() ==> rel_fits(&self.g, &(#[trigger] out@[i]).0),
    {
        let cands = self.candidates(r.stm);
        let mut out: Vec<(Rel, bool)> = Vec::new();
        let mut remaining: Vec<(Rel, bool)> = Vec::new();
        remaining.push((r, false));
        let mut ci: usize = 0;
        while ci < cands.len() && remaining.len() > 0
            invariant
                self.wf(),
                rel_vocab(self.cert),
                forall|i: int| 0 <= i < cands.len() ==> cand_ok(&self.g, #[trigger] cands@[i]),
                forall|i: int| 0 <= i < out.len() ==> rel_fits(&self.g, &(#[trigger] out@[i]).0),
                forall|i: int| 0 <= i < remaining.len() ==> rel_fits(&self.g, &(#[trigger] remaining@[i]).0),
            decreases cands.len() - ci,
        {
            let c = cands[ci];
            proof {
                assert(cand_ok(&self.g, cands@[ci as int]));
            }
            let mut next: Vec<(Rel, bool)> = Vec::new();
            let mut i: usize = 0;
            while i < remaining.len()
                invariant
                    self.wf(),
                    rel_vocab(self.cert),
                    cand_ok(&self.g, c),
                    forall|i: int| 0 <= i < out.len() ==> rel_fits(&self.g, &(#[trigger] out@[i]).0),
                    forall|i: int| 0 <= i < remaining.len() ==> rel_fits(&self.g, &(#[trigger] remaining@[i]).0),
                    forall|i: int| 0 <= i < next.len() ==> rel_fits(&self.g, &(#[trigger] next@[i]).0),
                decreases remaining.len() - i,
            {
                let sub = copy_rel(&remaining[i].0);
                let had = remaining[i].1;
                proof {
                    assert(rel_fits(&self.g, &remaining@[i as int].0));
                }
                let parts = self.can_move(sub, c);
                let mut k: usize = 0;
                while k < parts.len()
                    invariant
                        self.wf(),
                        rel_vocab(self.cert),
                        cand_ok(&self.g, c),
                        forall|i: int| 0 <= i < parts.len() ==> rel_fits(&self.g, &(#[trigger] parts@[i]).0),
                        forall|i: int| 0 <= i < out.len() ==> rel_fits(&self.g, &(#[trigger] out@[i]).0),
                        forall|i: int| 0 <= i < next.len() ==> rel_fits(&self.g, &(#[trigger] next@[i]).0),
                    decreases parts.len() - k,
                {
                    let case = copy_rel(&parts[k].0);
                    proof {
                        assert(rel_fits(&self.g, &parts@[k as int].0));
                    }
                    match parts[k].1 {
                        None => {
                            next.push((case, had));
                        },
                        Some(capture) => {
                            let succ = self.play(&case, c, capture);
                            let leaves = self.classify(succ);
                            let mut t: usize = 0;
                            while t < leaves.len()
                                invariant
                                    self.wf(),
                                    cand_ok(&self.g, c),
                                    rel_fits(&self.g, &case),
                                    forall|i: int| 0 <= i < leaves.len() ==> rel_fits(&self.g, &(#[trigger] leaves@[i]).0),
                                    forall|i: int| 0 <= i < out.len() ==> rel_fits(&self.g, &(#[trigger] out@[i]).0),
                                    forall|i: int| 0 <= i < next.len() ==> rel_fits(&self.g, &(#[trigger] next@[i]).0),
                                decreases leaves.len() - t,
                            {
                                proof {
                                    assert(rel_fits(&self.g, &leaves@[t as int].0));
                                }
                                if let Some(back) = self.pullback(&case, &leaves[t].0, c, capture) {
                                    if leaves[t].1 {
                                        out.push((back, true));
                                    } else {
                                        next.push((back, true));
                                    }
                                }
                                t += 1;
                            }
                        },
                    }
                    k += 1;
                }
                i += 1;
            }
            remaining = next;
            ci += 1;
        }
        let mut i: usize = 0;
        while i < remaining.len()
            invariant
                self.wf(),
                forall|i: int| 0 <= i < out.len() ==> rel_fits(&self.g, &(#[trigger] out@[i]).0),
                forall|i: int| 0 <= i < remaining.len() ==> rel_fits(&self.g, &(#[trigger] remaining@[i]).0),
            decreases remaining.len() - i,
        {
            let sub = copy_rel(&remaining[i].0);
            proof {
                assert(rel_fits(&self.g, &remaining@[i as int].0));
            }
            if remaining[i].1 {
                out.push((sub, false));
            } else {
                let parts = self.mated_parts(sub);
                let mut k: usize = 0;
                while k < parts.len()
                    invariant
                        forall|i: int| 0 <= i < parts.len() ==> rel_fits(&self.g, &(#[trigger] parts@[i]).0),
                        forall|i: int| 0 <= i < out.len() ==> rel_fits(&self.g, &(#[trigger] out@[i]).0),
                    decreases parts.len() - k,
                {
                    proof {
                        assert(rel_fits(&self.g, &parts@[k as int].0));
                    }
                    out.push((copy_rel(&parts[k].0), parts[k].1));
                    k += 1;
                }
            }
            i += 1;
        }
        out
    }

    /// Opponent turn, disjoint refinement.
    pub fn all_abs(&self, r: Rel) -> (out: Vec<(Rel, bool)>)
        requires
            self.wf(),
            rel_fits(&self.g, &r),
            rel_vocab(self.cert),
        ensures
            forall|i: int| 0 <= i < out.len() ==> rel_fits(&self.g, &(#[trigger] out@[i]).0),
    {
        let cands = self.candidates(r.stm);
        let mut out: Vec<(Rel, bool)> = Vec::new();
        let mut remaining: Vec<Rel> = Vec::new();
        remaining.push(r);
        let mut ci: usize = 0;
        while ci < cands.len() && remaining.len() > 0
            invariant
                self.wf(),
                rel_vocab(self.cert),
                forall|i: int| 0 <= i < cands.len() ==> cand_ok(&self.g, #[trigger] cands@[i]),
                forall|i: int| 0 <= i < out.len() ==> rel_fits(&self.g, &(#[trigger] out@[i]).0),
                forall|i: int| 0 <= i < remaining.len() ==> rel_fits(&self.g, &(#[trigger] remaining@[i])),
            decreases cands.len() - ci,
        {
            let c = cands[ci];
            proof {
                assert(cand_ok(&self.g, cands@[ci as int]));
            }
            let mut next: Vec<Rel> = Vec::new();
            let mut i: usize = 0;
            while i < remaining.len()
                invariant
                    self.wf(),
                    rel_vocab(self.cert),
                    cand_ok(&self.g, c),
                    forall|i: int| 0 <= i < out.len() ==> rel_fits(&self.g, &(#[trigger] out@[i]).0),
                    forall|i: int| 0 <= i < remaining.len() ==> rel_fits(&self.g, &(#[trigger] remaining@[i])),
                    forall|i: int| 0 <= i < next.len() ==> rel_fits(&self.g, &(#[trigger] next@[i])),
                decreases remaining.len() - i,
            {
                let sub = copy_rel(&remaining[i]);
                proof {
                    assert(rel_fits(&self.g, &remaining@[i as int]));
                }
                let parts = self.can_move(sub, c);
                let mut k: usize = 0;
                while k < parts.len()
                    invariant
                        self.wf(),
                        rel_vocab(self.cert),
                        cand_ok(&self.g, c),
                        forall|i: int| 0 <= i < parts.len() ==> rel_fits(&self.g, &(#[trigger] parts@[i]).0),
                        forall|i: int| 0 <= i < out.len() ==> rel_fits(&self.g, &(#[trigger] out@[i]).0),
                        forall|i: int| 0 <= i < next.len() ==> rel_fits(&self.g, &(#[trigger] next@[i])),
                    decreases parts.len() - k,
                {
                    let case = copy_rel(&parts[k].0);
                    proof {
                        assert(rel_fits(&self.g, &parts@[k as int].0));
                    }
                    match parts[k].1 {
                        None => {
                            next.push(case);
                        },
                        Some(capture) => {
                            let succ = self.play(&case, c, capture);
                            let leaves = self.classify(succ);
                            let mut t: usize = 0;
                            while t < leaves.len()
                                invariant
                                    self.wf(),
                                    cand_ok(&self.g, c),
                                    rel_fits(&self.g, &case),
                                    forall|i: int| 0 <= i < leaves.len() ==> rel_fits(&self.g, &(#[trigger] leaves@[i]).0),
                                    forall|i: int| 0 <= i < out.len() ==> rel_fits(&self.g, &(#[trigger] out@[i]).0),
                                    forall|i: int| 0 <= i < next.len() ==> rel_fits(&self.g, &(#[trigger] next@[i])),
                                decreases leaves.len() - t,
                            {
                                proof {
                                    assert(rel_fits(&self.g, &leaves@[t as int].0));
                                }
                                if let Some(back) = self.pullback(&case, &leaves[t].0, c, capture) {
                                    if leaves[t].1 {
                                        next.push(back);
                                    } else {
                                        out.push((back, false));
                                    }
                                }
                                t += 1;
                            }
                        },
                    }
                    k += 1;
                }
                i += 1;
            }
            remaining = next;
            ci += 1;
        }
        let mut i: usize = 0;
        while i < remaining.len()
            invariant
                forall|i: int| 0 <= i < out.len() ==> rel_fits(&self.g, &(#[trigger] out@[i]).0),
                forall|i: int| 0 <= i < remaining.len() ==> rel_fits(&self.g, &(#[trigger] remaining@[i])),
            decreases remaining.len() - i,
        {
            proof {
                assert(rel_fits(&self.g, &remaining@[i as int]));
            }
            out.push((copy_rel(&remaining[i]), true));
            i += 1;
        }
        out
    }

    /// The witness regions: the parts of `r` from which some move reaches
    /// the region (`want` true) or leaves it (`want` false).
    fn witnesses_of(&mut self, r: &Rel, want: bool) -> (ws: Vec<Rel>)
        requires
            old(self).wf(),
            rel_fits(&old(self).g, r),
            rel_vocab(old(self).cert),
        ensures
            final(self).wf(),
            final(self).g == old(self).g,
            final(self).cert == old(self).cert,
            final(self).roles == old(self).roles,
            final(self).witnesses == old(self).witnesses,
            forall|i: int| 0 <= i < ws.len() ==> rel_fits(&final(self).g, &(#[trigger] ws@[i])),
    {
        let cands = self.candidates(r.stm);
        let mut ws: Vec<Rel> = Vec::new();
        let mut ci: usize = 0;
        while ci < cands.len()
            invariant
                self.wf(),
                self.g == old(self).g,
                self.cert == old(self).cert,
                self.roles == old(self).roles,
                self.witnesses == old(self).witnesses,
                rel_fits(&self.g, r),
                rel_vocab(self.cert),
                forall|i: int| 0 <= i < cands.len() ==> cand_ok(&self.g, #[trigger] cands@[i]),
                forall|i: int| 0 <= i < ws.len() ==> rel_fits(&self.g, &(#[trigger] ws@[i])),
            decreases cands.len() - ci,
        {
            let c = cands[ci];
            proof {
                assert(cand_ok(&self.g, cands@[ci as int]));
            }
            let parts = self.can_move(copy_rel(r), c);
            let mut k: usize = 0;
            while k < parts.len()
                invariant
                    self.wf(),
                    self.g == old(self).g,
                    self.cert == old(self).cert,
                    self.roles == old(self).roles,
                    self.witnesses == old(self).witnesses,
                    rel_vocab(self.cert),
                    cand_ok(&self.g, c),
                    forall|i: int| 0 <= i < parts.len() ==> rel_fits(&self.g, &(#[trigger] parts@[i]).0),
                    forall|i: int| 0 <= i < ws.len() ==> rel_fits(&self.g, &(#[trigger] ws@[i])),
                decreases parts.len() - k,
            {
                self.cases = self.cases.saturating_add(1);
                proof {
                    assert(rel_fits(&self.g, &parts@[k as int].0));
                }
                if let Some(capture) = parts[k].1 {
                    let case = copy_rel(&parts[k].0);
                    let succ = self.play(&case, c, capture);
                    let leaves = self.classify(succ);
                    let mut t: usize = 0;
                    while t < leaves.len()
                        invariant
                            self.wf(),
                            self.g == old(self).g,
                            self.cert == old(self).cert,
                            self.roles == old(self).roles,
                            self.witnesses == old(self).witnesses,
                            cand_ok(&self.g, c),
                            rel_fits(&self.g, &case),
                            forall|i: int| 0 <= i < leaves.len() ==> rel_fits(&self.g, &(#[trigger] leaves@[i]).0),
                            forall|i: int| 0 <= i < ws.len() ==> rel_fits(&self.g, &(#[trigger] ws@[i])),
                        decreases leaves.len() - t,
                    {
                        self.cases = self.cases.saturating_add(1);
                        proof {
                            assert(rel_fits(&self.g, &leaves@[t as int].0));
                        }
                        if leaves[t].1 == want {
                            if let Some(back) = self.pullback(&case, &leaves[t].0, c, capture) {
                                ws.push(back);
                            }
                        }
                        t += 1;
                    }
                }
                k += 1;
            }
            ci += 1;
        }
        ws
    }

    /// Own turn as an overlapping cover of witness regions; positions under
    /// no witness are settled concretely.
    pub fn exists_cover(&mut self, r: Rel) -> (out: Vec<(Rel, bool)>)
        requires
            old(self).wf(),
            rel_fits(&old(self).g, &r),
            rel_vocab(old(self).cert),
        ensures
            final(self).wf(),
            final(self).g == old(self).g,
            final(self).cert == old(self).cert,
            final(self).roles == old(self).roles,
            forall|i: int| 0 <= i < out.len() ==> rel_fits(&final(self).g, &(#[trigger] out@[i]).0),
    {
        let witnesses = self.witnesses_of(&r, true);
        self.witnesses = self.witnesses.saturating_add(witnesses.len() as u64);
        let g = &self.g;
        let ps = r.positions(g);
        // The first witness holding each position, if any.
        let mut owner: Vec<usize> = Vec::new();
        let mut out: Vec<(Rel, bool)> = Vec::new();
        let mut i: usize = 0;
        while i < ps.len()
            invariant
                self.wf(),
                *g == self.g,
                rel_fits(&self.g, &r),
                owner.len() == i,
                0 <= i <= ps.len(),
                forall|k: int| 0 <= k < witnesses.len() ==> rel_fits(&self.g, &(#[trigger] witnesses@[k])),
                forall|k: int| 0 <= k < ps.len() ==> (#[trigger] ps@[k]).wf(self.g.setup) && contains_spec(&self.g, &r, &ps@[k]),
                forall|k: int| 0 <= k < out.len() ==> rel_fits(&self.g, &(#[trigger] out@[k]).0),
            decreases ps.len() - i,
        {
            proof {
                assert(ps@[i as int].wf(g.setup) && contains_spec(g, &r, &ps@[i as int]));
            }
            let mut w: usize = 0;
            let mut found = false;
            while w < witnesses.len() && !found
                invariant
                    *g == self.g,
                    self.wf(),
                    0 <= w <= witnesses.len(),
                    i < ps.len(),
                    ps@[i as int].wf(self.g.setup),
                    forall|k: int| 0 <= k < witnesses.len() ==> rel_fits(&self.g, &(#[trigger] witnesses@[k])),
                    found ==> w < witnesses.len(),
                decreases witnesses.len() - w, if found { 0int } else { 1int },
            {
                proof {
                    assert(rel_fits(&self.g, &witnesses@[w as int]));
                }
                if witnesses[w].contains(g, &ps[i]) {
                    found = true;
                } else {
                    w += 1;
                }
            }
            if found {
                owner.push(w);
            } else {
                owner.push(witnesses.len());
                let ok = self.stalemate(&ps[i]);
                let one = self.single(&ps[i]);
                out.push((one, ok));
            }
            i += 1;
        }
        let mut w: usize = 0;
        while w < witnesses.len()
            invariant
                self.wf(),
                *g == self.g,
                owner.len() == ps.len(),
                forall|k: int| 0 <= k < witnesses.len() ==> rel_fits(&self.g, &(#[trigger] witnesses@[k])),
                forall|k: int| 0 <= k < ps.len() ==> (#[trigger] ps@[k]).wf(self.g.setup) && contains_spec(&self.g, &r, &ps@[k]),
                forall|k: int| 0 <= k < out.len() ==> rel_fits(&self.g, &(#[trigger] out@[k]).0),
            decreases witnesses.len() - w,
        {
            let mut mine: usize = 0;
            let mut i: usize = 0;
            while i < ps.len()
                invariant
                    owner.len() == ps.len(),
                    0 <= i <= ps.len(),
                    mine <= i,
                decreases ps.len() - i,
            {
                if owner[i] == w {
                    mine += 1;
                }
                i += 1;
            }
            if mine > 0 {
                proof {
                    assert(rel_fits(&self.g, &witnesses@[w as int]));
                }
                let all = witnesses[w].positions(g);
                if mine == all.len() {
                    out.push((copy_rel(&witnesses[w]), true));
                } else {
                    let mut i: usize = 0;
                    while i < ps.len()
                        invariant
                            self.wf(),
                            *g == self.g,
                            owner.len() == ps.len(),
                            forall|k: int| 0 <= k < ps.len() ==> (#[trigger] ps@[k]).wf(self.g.setup) && contains_spec(&self.g, &r, &ps@[k]),
                            forall|k: int| 0 <= k < out.len() ==> rel_fits(&self.g, &(#[trigger] out@[k]).0),
                        decreases ps.len() - i,
                    {
                        if owner[i] == w {
                            proof {
                                assert(ps@[i as int].wf(g.setup) && contains_spec(g, &r, &ps@[i as int]));
                            }
                            let one = self.single(&ps[i]);
                            out.push((one, true));
                        }
                        i += 1;
                    }
                }
            }
            w += 1;
        }
        out
    }

    /// Opponent turn as independent per-move checks.
    pub fn all_cover(&mut self, r: Rel) -> (out: Vec<(Rel, bool)>)
        requires
            old(self).wf(),
            rel_fits(&old(self).g, &r),
            rel_vocab(old(self).cert),
        ensures
            final(self).wf(),
            final(self).g == old(self).g,
            final(self).cert == old(self).cert,
            final(self).roles == old(self).roles,
            forall|i: int| 0 <= i < out.len() ==> rel_fits(&final(self).g, &(#[trigger] out@[i]).0),
    {
        let bad = self.witnesses_of(&r, false);
        let mut out: Vec<(Rel, bool)> = Vec::new();
        if bad.len() == 0 {
            out.push((r, true));
            return out;
        }
        let g = &self.g;
        let ps = r.positions(g);
        let mut i: usize = 0;
        while i < ps.len()
            invariant
                self.wf(),
                *g == self.g,
                forall|k: int| 0 <= k < bad.len() ==> rel_fits(&self.g, &(#[trigger] bad@[k])),
                forall|k: int| 0 <= k < ps.len() ==> (#[trigger] ps@[k]).wf(self.g.setup) && contains_spec(&self.g, &r, &ps@[k]),
                forall|k: int| 0 <= k < out.len() ==> rel_fits(&self.g, &(#[trigger] out@[k]).0),
            decreases ps.len() - i,
        {
            proof {
                assert(ps@[i as int].wf(g.setup) && contains_spec(g, &r, &ps@[i as int]));
            }
            let mut hit = false;
            let mut b: usize = 0;
            while b < bad.len()
                invariant
                    *g == self.g,
                    self.wf(),
                    i < ps.len(),
                    ps@[i as int].wf(self.g.setup),
                    forall|k: int| 0 <= k < bad.len() ==> rel_fits(&self.g, &(#[trigger] bad@[k])),
                decreases bad.len() - b,
            {
                proof {
                    assert(rel_fits(&self.g, &bad@[b as int]));
                }
                if bad[b].contains(g, &ps[i]) {
                    hit = true;
                }
                b += 1;
            }
            let one = self.single(&ps[i]);
            out.push((one, !hit));
            i += 1;
        }
        out
    }

    /// No legal move, and not in check.
    fn stalemate(&self, p: &Position) -> (b: bool)
        requires
            self.wf(),
            p.wf(self.g.setup),
        ensures
            b == (legal_moves_spec(self.g.setup, position_answers(p.sqs@), p.stm) == Ok::<Seq<Move>, Blocked>(Seq::empty())
                && crate::board::in_check_spec(self.g.setup, position_answers(p.sqs@), p.stm) == Ok::<bool, Blocked>(false)),
    {
        let setup = self.g.setup;
        proof {
            lemma_position_fits(setup, p);
            lemma_legal_moves_never_blocks(setup, position_answers(p.sqs@), p.stm);
            lemma_in_check_never_blocks(setup, position_answers(p.sqs@), p.stm);
        }
        let none = match legal_moves(setup, p, &mut (), p.stm) {
            Ok(m) => {
                proof {
                    if m.len() == 0 {
                        assert(m@ =~= Seq::<Move>::empty());
                    }
                }
                m.len() == 0
            },
            Err(_) => false,
        };
        let chk = match in_check(setup, p, &mut (), p.stm) {
            Ok(c) => c,
            Err(_) => false,
        };
        none && !chk
    }

    /// The region of exactly one position.
    fn single(&self, p: &Position) -> (s: Rel)
        requires
            self.wf(),
            p.wf(self.g.setup),
            p.sqs@[self.g.anchor as int] is Some,
        ensures
            rel_fits(&self.g, &s),
            contains_spec(&self.g, &s, p),
    {
        let g = &self.g;
        let a = match p.sqs[g.anchor as usize] {
            Some(a) => a,
            None => 0,
        };
        proof {
            assert(p.sqs@[g.anchor as int] matches Some(q) ==> q < g.setup.area_spec());
            crate::absmove::lemma_area_pub(g.setup);
            lemma_square_coords(g.setup.n, a as int);
            crate::narrow::lemma_bit_single(a as u64);
            lemma_bit_empty();
        }
        let n = p.sqs.len();
        let e: OffSet = [0u64; 4];
        let mut off: Vec<OffDom> = Vec::new();
        let mut s: usize = 0;
        while s < n
            invariant
                self.wf(),
                *g == self.g,
                p.wf(self.g.setup),
                n == p.sqs.len(),
                p.sqs@[self.g.anchor as int] == Some(a),
                (a as int) < self.g.setup.area_spec(),
                forall|x: int| !#[trigger] obit(e, x),
                off.len() == s,
                0 <= s <= n,
                forall|k: int, x: int| 0 <= k < off.len() && #[trigger] obit(off@[k].set, x) ==> valid_off(self.g.n as int, x),
                forall|k: int| 0 <= k < s && k != self.g.anchor ==> #[trigger] dom_holds(&self.g, off@[k], a as int, p.sqs@[k]),
            decreases n - s,
        {
            let d = if s as SlotId == g.anchor {
                OffDom { set: e, cap: false }
            } else {
                match p.sqs[s] {
                    Some(q) => {
                        proof {
                            assert(p.sqs@[s as int] matches Some(x) ==> x < g.setup.area_spec());
                            lemma_square_coords(g.setup.n, q as int);
                            lemma_square_coords(g.setup.n, a as int);
                        }
                        let o = g.off_between(a, q);
                        proof {
                            lemma_off(g.n as int, file_of(g.setup.n, q as int) - file_of(g.setup.n, a as int), rank_of(g.setup.n, q as int) - rank_of(g.setup.n, a as int));
                        }
                        OffDom { set: set_one(o), cap: false }
                    },
                    None => OffDom { set: e, cap: true },
                }
            };
            let ghost before = off@;
            off.push(d);
            proof {
                assert forall|k: int, x: int| 0 <= k < off.len() && #[trigger] obit(off@[k].set, x) implies valid_off(g.n as int, x) by {
                    if k < s {
                        assert(obit(before[k].set, x));
                    }
                }
                assert forall|k: int| 0 <= k < s + 1 && k != g.anchor implies #[trigger] dom_holds(g, off@[k], a as int, p.sqs@[k]) by {
                    if k < s {
                        assert(off@[k] == before[k]);
                        assert(dom_holds(g, before[k], a as int, p.sqs@[k]));
                    }
                }
            }
            s += 1;
        }
        let out = Rel { a: 1u64 << a, off, stm: p.stm };
        proof {
            assert forall|k: int| 0 <= k < out.off.len() && k != g.anchor implies #[trigger] slot_in(g, &out, p.sqs@, a as int, k) by {
                assert(dom_holds(g, out.off@[k], a as int, p.sqs@[k]));
            }
        }
        out
    }
}

/// A feature the anchor-relative engine decides.
pub open spec fn feat_in_vocab(f: i32) -> bool {
    (0 <= f <= 4) || (11 <= f <= 28)
}

/// Every node of the certificate tests a feature of the vocabulary.
pub open spec fn rel_vocab(cert: &Cert) -> bool {
    forall|j: int| 0 <= j < cert.nodes.len() ==> feat_in_vocab(#[trigger] cert.nodes@[j]@[0])
}

/// The first slot of `opp` from entry `i` on, other than the anchor, whose
/// domain is exactly the offset `t`, uncaptured.
pub open spec fn first_victim(g: &Geo, r: &Rel, t: int, opp: Seq<SlotId>, i: int) -> Option<SlotId>
    decreases opp.len() - i,
{
    if i < 0 || i >= opp.len() {
        None
    } else if opp[i] != g.anchor && !r.off@[opp[i] as int].cap && single_at(r.off@[opp[i] as int].set, t) {
        Some(opp[i])
    } else {
        first_victim(g, r, t, opp, i + 1)
    }
}

/// The value an anchor square at file `x`, rank `y` is measured by: its
/// distance to the nearest edge, or whether it is a corner.
pub open spec fn edge_value(n: int, x: int, y: int, edge: bool) -> int {
    if edge {
        let v1 = if y < x {
            y
        } else {
            x
        };
        let v2 = if n - 1 - x < v1 {
            n - 1 - x
        } else {
            v1
        };
        if n - 1 - y < v2 {
            n - 1 - y
        } else {
            v2
        }
    } else if (x == 0 || x == n - 1) && (y == 0 || y == n - 1) {
        1
    } else {
        0
    }
}

/// The anchor squares of `a` whose edge distance (or corner flag) is at most `thr`.
fn edge_mask(g: &Geo, a: u64, edge: bool, thr: i32) -> (m: u64)
    requires
        g.wf(),
    ensures
        forall|q: int| #[trigger] bit(m, q) ==> bit(a, q),
        forall|q: int|
            #[trigger] bit(m, q) <==> 0 <= q < g.setup.area_spec() && bit(a, q) && edge_value(
                g.n as int,
                file_of(g.setup.n, q),
                rank_of(g.setup.n, q),
                edge,
            ) <= thr,
{
    let area = g.setup.area();
    let n = g.n;
    proof {
        crate::absmove::lemma_area_pub(g.setup);
        lemma_bit_empty();
    }
    let mut m: u64 = 0;
    let mut sq: usize = 0;
    while sq < area
        invariant
            g.wf(),
            area == g.setup.area_spec(),
            area <= 64,
            n == g.n,
            0 <= sq <= area,
            forall|q: int| #[trigger] bit(m, q) ==> bit(a, q),
            forall|q: int|
                #[trigger] bit(m, q) <==> 0 <= q < sq && bit(a, q) && edge_value(
                    g.n as int,
                    file_of(g.setup.n, q),
                    rank_of(g.setup.n, q),
                    edge,
                ) <= thr,
        decreases area - sq,
    {
        let ghost m0 = m;
        proof {
            lemma_bit_test(a, sq as u64);
            lemma_square_coords(g.setup.n, sq as int);
            lemma_bits(m0, 1u64 << sq);
            crate::narrow::lemma_bit_single(sq as u64);
        }
        if a & (1u64 << sq) != 0 {
            let (x, y) = g.setup.file_rank(sq as Sq);
            let v: i32 = if edge {
                let mut v = x;
                if y < v {
                    v = y;
                }
                if n - 1 - x < v {
                    v = n - 1 - x;
                }
                if n - 1 - y < v {
                    v = n - 1 - y;
                }
                v
            } else if (x == 0 || x == n - 1) && (y == 0 || y == n - 1) {
                1
            } else {
                0
            };
            proof {
                assert(v == edge_value(g.n as int, file_of(g.setup.n, sq as int), rank_of(g.setup.n, sq as int), edge));
            }
            if v <= thr {
                m = m | (1u64 << sq);
            }
        }
        proof {
            assert forall|q: int|
                #[trigger] bit(m, q) <==> 0 <= q < sq + 1 && bit(a, q) && edge_value(
                    g.n as int,
                    file_of(g.setup.n, q),
                    rank_of(g.setup.n, q),
                    edge,
                ) <= thr by {
                if q == sq {
                } else {
                    assert(bit(m, q) == bit(m0, q));
                }
            }
        }
        sq += 1;
    }
    m
}

/// A candidate move: an anchor step, or a non-anchor slot to a grid offset.
#[derive(Clone, Copy, Debug)]
pub enum Cand {
    /// The anchor steps by this offset.
    Anchor(Off),
    /// A non-anchor slot moves to this offset.
    Slot(SlotId, Off),
}

/// The anchor square `a` is one the region rebuilt by a pullback allows:
/// the child's anchor squares, moved back by an anchor step.
pub open spec fn pulled_anchor(g: &Geo, child: &Rel, c: Cand, a: int) -> bool {
    match c {
        Cand::Anchor(d) => 0 <= a < 64 && exists|s0: int|
            0 <= s0 < g.setup.area_spec() && bit(child.a, s0) && #[trigger] moved_to(
                g,
                s0,
                off_spec(g.n as int, -dx_of(g.n as int, d as int), -dy_of(g.n as int, d as int)),
            ) == Some(a as Sq),
        Cand::Slot(_, _) => bit(child.a, a),
    }
}

/// Slot `s` of a position anchored at square `a` is placed as the region
/// rebuilt by a pullback allows: a captured piece back on the target; after
/// an anchor step every other slot's offsets shifted back; after a slot's
/// move that slot as before the move, the others as in the child.
pub open spec fn pulled_slot(g: &Geo, case: &Rel, child: &Rel, c: Cand, capture: bool, a: int, s: int, e: Option<Sq>) -> bool {
    let opp = crate::board::slots_of_spec(g.setup.slots@, flip_spec(case.stm));
    match c {
        Cand::Anchor(d) => if capture && first_victim(g, case, d as int, opp, 0) == Some(s as SlotId) {
            e matches Some(q) && sq_off(g, a, q as int) == d as int
        } else {
            match e {
                Some(q) => shifted_from(g.n as int, child.off@[s].set, d as int, 1, sq_off(g, a, q as int)),
                None => child.off@[s].cap,
            }
        },
        Cand::Slot(m, t) => if capture && first_victim(g, case, t as int, opp, 0) == Some(s as SlotId) {
            e matches Some(q) && sq_off(g, a, q as int) == t as int
        } else if s == m as int {
            dom_holds(g, case.off@[s], a, e)
        } else {
            dom_holds(g, child.off@[s], a, e)
        },
    }
}

/// A region whose anchors and slot domains agree with the conditions of a
/// pulled-back move holds exactly the positions those conditions hold.
proof fn lemma_pulled_region(g: &Geo, ra: u64, roff: Seq<OffDom>, case: &Rel, child: &Rel, c: Cand, capture: bool)
    requires
        roff.len() == child.off.len(),
        forall|q: int| #[trigger] bit(ra, q) <==> pulled_anchor(g, child, c, q),
        forall|s2: int, a2: int, e: Option<Sq>|
            0 <= s2 < roff.len() && s2 != g.anchor ==> (#[trigger] dom_holds(g, roff[s2], a2, e) <==> pulled_slot(
                g,
                case,
                child,
                c,
                capture,
                a2,
                s2,
                e,
            )),
    ensures
        forall|p: Seq<Option<Sq>>, ps: Color| holds_in(g, ra, roff, case.stm, p, ps) <==> #[trigger] pulled_holds(
            g,
            case,
            child,
            c,
            capture,
            p,
            ps,
        ),
{
    assert forall|p: Seq<Option<Sq>>, ps: Color| holds_in(g, ra, roff, case.stm, p, ps) <==> #[trigger] pulled_holds(
        g,
        case,
        child,
        c,
        capture,
        p,
        ps,
    ) by {
        if p[g.anchor as int] is Some {
            let a2 = p[g.anchor as int].unwrap() as int;
            assert(bit(ra, a2) <==> pulled_anchor(g, child, c, a2));
            assert forall|s2: int| 0 <= s2 < roff.len() && s2 != g.anchor implies (#[trigger] dom_holds(g, roff[s2], a2, p[s2])
                <==> pulled_slot(g, case, child, c, capture, a2, s2, p[s2])) by {}
            if holds_in(g, ra, roff, case.stm, p, ps) {
                assert forall|s2: int| 0 <= s2 < child.off.len() && s2 != g.anchor implies #[trigger] pulled_slot(
                    g,
                    case,
                    child,
                    c,
                    capture,
                    a2,
                    s2,
                    p[s2],
                ) by {
                    assert(dom_holds(g, roff[s2], a2, p[s2]));
                }
            }
            if pulled_holds(g, case, child, c, capture, p, ps) {
                assert forall|s2: int| 0 <= s2 < roff.len() && s2 != g.anchor implies #[trigger] dom_holds(g, roff[s2], a2, p[s2]) by {
                    assert(pulled_slot(g, case, child, c, capture, a2, s2, p[s2]));
                }
            }
        }
    }
}

/// The position lies in the region a pullback rebuilds from `child`,
/// before it is tidied, with `case`'s side to move.
pub open spec fn pulled_holds(g: &Geo, case: &Rel, child: &Rel, c: Cand, capture: bool, p: Seq<Option<Sq>>, ps: Color) -> bool {
    &&& ps == case.stm
    &&& p[g.anchor as int] is Some
    &&& pulled_anchor(g, child, c, p[g.anchor as int].unwrap() as int)
    &&& forall|s: int|
        0 <= s < child.off.len() && s != g.anchor ==> #[trigger] pulled_slot(
            g,
            case,
            child,
            c,
            capture,
            p[g.anchor as int].unwrap() as int,
            s,
            p[s],
        )
}

/// Offset `d` is one king step.
pub open spec fn king_step(g: &Geo, d: int) -> bool {
    exists|x: int, y: int| -1 <= x <= 1 && -1 <= y <= 1 && !(x == 0 && y == 0) && d == off_spec(g.n as int, x, y)
}

/// The slot a candidate moves.
pub open spec fn cand_slot(g: &Geo, c: Cand) -> SlotId {
    match c {
        Cand::Anchor(_) => g.anchor,
        Cand::Slot(s, _) => s,
    }
}

/// A candidate move of `stm`: a king step of the anchor, when the anchor
/// is `stm`'s; any other slot of `stm` to any nonzero grid offset.
pub open spec fn is_cand(g: &Geo, stm: Color, c: Cand) -> bool {
    let slots = crate::board::slots_of_spec(g.setup.slots@, stm);
    match c {
        Cand::Anchor(d) => slots.contains(g.anchor) && king_step(g, d as int),
        Cand::Slot(s, t) => slots.contains(s) && s != g.anchor && valid_off(g.n as int, t as int) && t as int != off_spec(
            g.n as int,
            0,
            0,
        ),
    }
}

/// The candidate names grid offsets and a non-anchor slot.
pub open spec fn cand_ok(g: &Geo, c: Cand) -> bool {
    match c {
        Cand::Anchor(d) => valid_off(g.n as int, d as int) && d != off_spec(g.n as int, 0, 0),
        Cand::Slot(s, t) => (s as int) < g.setup.slots.len() && s != g.anchor && valid_off(g.n as int, t as int),
    }
}

/// The anchor squares of `a` from which offset `d` is on the board.
fn board_mask(g: &Geo, a: u64, d: Off) -> (m: u64)
    requires
        g.wf(),
    ensures
        forall|q: int| #[trigger] bit(m, q) ==> bit(a, q),
        forall|q: int| #[trigger] bit(m, q) <==> 0 <= q < g.setup.area_spec() && bit(a, q) && moved_to(g, q, d as int) is Some,
{
    let area = g.setup.area();
    proof {
        crate::absmove::lemma_area_pub(g.setup);
        lemma_bit_empty();
    }
    let mut m: u64 = 0;
    let mut sq: usize = 0;
    while sq < area
        invariant
            g.wf(),
            area == g.setup.area_spec(),
            area <= 64,
            0 <= sq <= area,
            forall|q: int| #[trigger] bit(m, q) ==> bit(a, q),
            forall|q: int| #[trigger] bit(m, q) <==> 0 <= q < sq && bit(a, q) && moved_to(g, q, d as int) is Some,
        decreases area - sq,
    {
        let ghost m0 = m;
        proof {
            lemma_bit_test(a, sq as u64);
            lemma_bits(m0, 1u64 << sq);
            crate::narrow::lemma_bit_single(sq as u64);
        }
        if a & (1u64 << sq) != 0 && g.at(sq as Sq, d).is_some() {
            m = m | (1u64 << sq);
        }
        proof {
            assert forall|q: int| #[trigger] bit(m, q) <==> 0 <= q < sq + 1 && bit(a, q) && moved_to(g, q, d as int) is Some by {
                if q != sq {
                    assert(bit(m, q) == bit(m0, q));
                }
            }
        }
        sq += 1;
    }
    m
}

/// A region lies inside itself.
pub proof fn lemma_le_refl(r: &Rel)
    ensures
        rel_le(r, r),
{
    assert forall|k: int| 0 <= k < r.off.len() implies #[trigger] dom_le(r.off@[k], r.off@[k]) by {}
}

/// A shifted set holds grid offsets only.
proof fn lemma_shift_valid(g: &Geo, src: OffSet, d: int, sign: int, out: OffSet)
    requires
        g.wf(),
        forall|x: int| #[trigger] obit(out, x) <==> shifted_from(g.n as int, src, d, sign, x),
    ensures
        forall|x: int| #[trigger] obit(out, x) ==> valid_off(g.n as int, x),
{
    let n = g.n as int;
    assert forall|x: int| #[trigger] obit(out, x) implies valid_off(n, x) by {
        assert(shifted_from(n, src, d, sign, x));
        let o = choose|o: int|
            #[trigger] obit(src, o) && in_range(n, moved_dx(n, o, d, sign)) && in_range(n, moved_dy(n, o, d, sign)) && x
                == off_spec(n, moved_dx(n, o, d, sign), moved_dy(n, o, d, sign));
        lemma_off(n, moved_dx(n, o, d, sign), moved_dy(n, o, d, sign));
    }
}

/// The squares `a + d` for the squares `a` of the mask that stay on the board.
fn moved_mask(g: &Geo, a: u64, d: Off) -> (m: u64)
    requires
        g.wf(),
    ensures
        forall|t: int| #[trigger] bit(m, t) <==> exists|s: int| 0 <= s < g.setup.area_spec() && bit(a, s) && #[trigger] moved_to(g, s, d as int) == Some(t as Sq) && 0 <= t < 64,
{
    let area = g.setup.area();
    proof {
        crate::absmove::lemma_area_pub(g.setup);
        lemma_bit_empty();
    }
    let mut m: u64 = 0;
    let mut sq: usize = 0;
    while sq < area
        invariant
            g.wf(),
            area == g.setup.area_spec(),
            area <= 64,
            0 <= sq <= area,
            forall|t: int| #[trigger] bit(m, t) <==> exists|s: int| 0 <= s < sq && bit(a, s) && #[trigger] moved_to(g, s, d as int) == Some(t as Sq) && 0 <= t < 64,
        decreases area - sq,
    {
        let ghost m0 = m;
        proof {
            lemma_bit_test(a, sq as u64);
        }
        if a & (1u64 << sq) != 0 {
            let at = g.at(sq as Sq, d);
            if let Some(q) = at {
                proof {
                    lemma_coords(g.setup.n, file_of(g.setup.n, sq as int) + dx_of(g.n as int, d as int), rank_of(g.setup.n, sq as int) + dy_of(g.n as int, d as int));
                    lemma_bit_single(q as u64);
                    lemma_bits(m0, 1u64 << q);
                }
                m = m | (1u64 << q);
                proof {
                    assert forall|t: int| #[trigger] bit(m, t) <==> exists|s: int| 0 <= s < sq + 1 && bit(a, s) && #[trigger] moved_to(g, s, d as int) == Some(t as Sq) && 0 <= t < 64 by {
                        if bit(m, t) && !bit(m0, t) {
                            assert(t == q);
                            assert(moved_to(g, sq as int, d as int) == Some(t as Sq));
                        }
                        if exists|s: int| 0 <= s < sq + 1 && bit(a, s) && #[trigger] moved_to(g, s, d as int) == Some(t as Sq) && 0 <= t < 64 {
                            let s = choose|s: int| 0 <= s < sq + 1 && bit(a, s) && #[trigger] moved_to(g, s, d as int) == Some(t as Sq) && 0 <= t < 64;
                            if s == sq {
                                assert(t == q);
                            }
                        }
                    }
                }
            } else {
                proof {
                    assert forall|t: int| #[trigger] bit(m, t) <==> exists|s: int| 0 <= s < sq + 1 && bit(a, s) && #[trigger] moved_to(g, s, d as int) == Some(t as Sq) && 0 <= t < 64 by {
                        if exists|s: int| 0 <= s < sq + 1 && bit(a, s) && #[trigger] moved_to(g, s, d as int) == Some(t as Sq) && 0 <= t < 64 {
                            let s = choose|s: int| 0 <= s < sq + 1 && bit(a, s) && #[trigger] moved_to(g, s, d as int) == Some(t as Sq) && 0 <= t < 64;
                            if s == sq {
                                assert(moved_to(g, sq as int, d as int) is None);
                            }
                        }
                    }
                }
            }
        } else {
            proof {
                assert forall|t: int| #[trigger] bit(m, t) <==> exists|s: int| 0 <= s < sq + 1 && bit(a, s) && #[trigger] moved_to(g, s, d as int) == Some(t as Sq) && 0 <= t < 64 by {
                    if exists|s: int| 0 <= s < sq + 1 && bit(a, s) && #[trigger] moved_to(g, s, d as int) == Some(t as Sq) && 0 <= t < 64 {
                        let s = choose|s: int| 0 <= s < sq + 1 && bit(a, s) && #[trigger] moved_to(g, s, d as int) == Some(t as Sq) && 0 <= t < 64;
                        assert(s != sq);
                    }
                }
            }
        }
        sq += 1;
    }
    m
}

/// The square offset `d` from square `s`, if on the board.
pub open spec fn moved_to(g: &Geo, s: int, d: int) -> Option<Sq> {
    sq_spec(g.setup.n, file_of(g.setup.n, s) + dx_of(g.n as int, d), rank_of(g.setup.n, s) + dy_of(g.n as int, d))
}

// ---------------------------------------------------------------------
// Regions and concrete positions
// ---------------------------------------------------------------------

/// The offset from square `a` to square `q`.
pub open spec fn sq_off(g: &Geo, a: int, q: int) -> int {
    off_spec(g.n as int, file_of(g.setup.n, q) - file_of(g.setup.n, a), rank_of(g.setup.n, q) - rank_of(g.setup.n, a))
}

/// A square (or none) agrees with a domain, for a position anchored at `a`.
pub open spec fn dom_holds(g: &Geo, d: OffDom, a: int, e: Option<Sq>) -> bool {
    match e {
        Some(q) => obit(d.set, sq_off(g, a, q as int)),
        None => d.cap,
    }
}

/// Slot `s` of a position anchored at square `a` agrees with the region.
pub open spec fn slot_in(g: &Geo, r: &Rel, sqs: Seq<Option<Sq>>, a: int, s: int) -> bool {
    dom_holds(g, r.off@[s], a, sqs[s])
}

/// The position lies in the region.
pub open spec fn contains_spec(g: &Geo, r: &Rel, p: &Position) -> bool {
    &&& p.stm == r.stm
    &&& p.sqs@[g.anchor as int] is Some
    &&& bit(r.a, p.sqs@[g.anchor as int].unwrap() as int)
    &&& forall|s: int| 0 <= s < r.off.len() && s != g.anchor ==> #[trigger] slot_in(g, r, p.sqs@, p.sqs@[g.anchor as int].unwrap() as int, s)
}

/// Entry `j` of a position anchored at `a` is placed as the region allows,
/// off the anchor's square.
pub open spec fn slot_placed(g: &Geo, r: &Rel, sqs: Seq<Option<Sq>>, a: int, j: int) -> bool {
    if j == g.anchor {
        sqs[j] == Some(a as Sq)
    } else {
        &&& slot_in(g, r, sqs, a, j)
        &&& (sqs[j] matches Some(q) ==> q < g.setup.area_spec() && q != a)
    }
}

impl Rel {
    /// The full region for the side to move: every anchor square, every
    /// offset, rooks capturable; normalized.
    pub fn root(g: &Geo, stm: Color) -> (r: Rel)
        requires
            g.wf(),
        ensures
            rel_fits(g, &r),
            r.stm == stm,
            forall|p: Seq<Option<Sq>>|
                valid_pos(g, p) && p[g.anchor as int] is Some ==> #[trigger] holds(g, &r, p, stm),
    {
        let setup = g.setup;
        let area = setup.area();
        proof {
            crate::absmove::lemma_area_pub(setup);
        }
        let a: u64 = if area == 64 {
            u64::MAX
        } else {
            let sh = area as u64;
            proof {
                assert((1u64 << sh) >= 1) by (bit_vector)
                    requires
                        sh < 64,
                ;
            }
            (1u64 << sh) - 1
        };
        let all = g.all_offsets();
        let e: OffSet = [0u64; 4];
        proof {
            lemma_bit_empty();
        }
        let n = setup.slots.len();
        let mut off: Vec<OffDom> = Vec::new();
        let mut s: usize = 0;
        while s < n
            invariant
                g.wf(),
                setup == g.setup,
                n == g.setup.slots.len(),
                0 <= s <= n,
                off.len() == s,
                forall|x: int| #[trigger] obit(all, x) <==> valid_off(g.n as int, x) && x != off_spec(g.n as int, 0, 0),
                forall|x: int| !#[trigger] obit(e, x),
                forall|k: int, x: int| 0 <= k < off.len() && #[trigger] obit(off@[k].set, x) ==> valid_off(g.n as int, x),
                forall|k: int|
                    0 <= k < off.len() ==> #[trigger] off@[k] == (if k == g.anchor {
                        OffDom { set: e, cap: false }
                    } else {
                        OffDom { set: all, cap: g.setup.slots@[k].1 != Kind::King }
                    }),
            decreases n - s,
        {
            let d = if s as SlotId == g.anchor {
                OffDom { set: e, cap: false }
            } else {
                OffDom { set: all, cap: setup.kind(s as SlotId) != Kind::King }
            };
            let ghost before = off@;
            off.push(d);
            proof {
                assert forall|k: int, x: int| 0 <= k < off.len() && #[trigger] obit(off@[k].set, x) implies valid_off(g.n as int, x) by {
                    if k < s {
                        assert(obit(before[k].set, x));
                    }
                }
            }
            s += 1;
        }
        let mut r = Rel { a, off, stm };
        let ghost roff = r.off@;
        proof {
            assert forall|p: Seq<Option<Sq>>|
                valid_pos(g, p) && p[g.anchor as int] is Some implies #[trigger] holds_in(g, a, roff, stm, p, stm) by {
                let q = p[g.anchor as int].unwrap();
                assert(q < setup.area_spec());
                if area == 64 {
                    lemma_bit_max(q as u64);
                } else {
                    lemma_bit_low(area as u64, q as u64);
                }
                assert forall|s: int| 0 <= s < roff.len() && s != g.anchor implies #[trigger] dom_holds(g, roff[s], q as int, p[s]) by {
                    if let Some(x) = p[s] {
                        assert(x < setup.area_spec());
                        lemma_sq_off(g, q as int, x as int);
                        if sq_off(g, q as int, x as int) == off_spec(g.n as int, 0, 0) {
                            lemma_sq_off_zero(g, q as int, x as int);
                            if s < g.anchor {
                                assert(p[s] != p[g.anchor as int]);
                            } else {
                                assert(p[g.anchor as int] != p[s]);
                            }
                        }
                    }
                }
            }
        }
        let _ = r.normalize(g);
        proof {
            assert forall|k: int, y: int| 0 <= k < r.off.len() && #[trigger] obit(r.off@[k].set, y) implies valid_off(g.n as int, y) by {
                assert(obit(roff[k].set, y));
            }
            assert forall|p: Seq<Option<Sq>>| valid_pos(g, p) && p[g.anchor as int] is Some implies #[trigger] holds(g, &r, p, stm) by {
                assert(holds_in(g, a, roff, stm, p, stm));
            }
        }
        r
    }

    /// Does the region hold the position?
    pub fn contains(&self, g: &Geo, p: &Position) -> (b: bool)
        requires
            rel_fits(g, self),
            p.wf(g.setup),
        ensures
            b == contains_spec(g, self, p),
    {
        if p.stm != self.stm {
            return false;
        }
        let a = match p.sqs[g.anchor as usize] {
            Some(a) => a,
            None => {
                return false;
            },
        };
        proof {
            crate::absmove::lemma_area_pub(g.setup);
            assert(p.sqs@[g.anchor as int] matches Some(q) ==> q < g.setup.area_spec());
            lemma_bit_test(self.a, a as u64);
            lemma_square_coords(g.setup.n, a as int);
        }
        if self.a & (1u64 << a) == 0 {
            return false;
        }
        let n = self.off.len();
        let mut s: usize = 0;
        while s < n
            invariant
                rel_fits(g, self),
                p.wf(g.setup),
                n == self.off.len(),
                p.sqs@[g.anchor as int] == Some(a),
                (a as int) < g.setup.area_spec(),
                forall|k: int| 0 <= k < s && k != g.anchor ==> #[trigger] slot_in(g, self, p.sqs@, a as int, k),
            decreases n - s,
        {
            if s as SlotId != g.anchor {
                let ok = match p.sqs[s] {
                    Some(q) => {
                        proof {
                            assert(p.sqs@[s as int] matches Some(x) ==> x < g.setup.area_spec());
                        }
                        let o = g.off_between(a, q);
                        set_has(&self.off[s].set, o)
                    },
                    None => self.off[s].cap,
                };
                if !ok {
                    proof {
                        assert(!slot_in(g, self, p.sqs@, a as int, s as int));
                    }
                    return false;
                }
            }
            s += 1;
        }
        true
    }

    /// Every position of the region.
    pub fn positions(&self, g: &Geo) -> (out: Vec<Position>)
        requires
            rel_fits(g, self),
        ensures
            forall|i: int|
                0 <= i < out.len() ==> {
                    &&& (#[trigger] out@[i]).wf(g.setup)
                    &&& contains_spec(g, self, &out@[i])
                    &&& crate::board::distinct_squares(out@[i].sqs@)
                },
            forall|p: Seq<Option<Sq>>|
                valid_pos(g, p) && #[trigger] holds(g, self, p, self.stm) ==> exists|i: int| 0 <= i < out.len() && out@[i].sqs@ == p,
    {
        let area = g.setup.area();
        proof {
            crate::absmove::lemma_area_pub(g.setup);
        }
        let mut out: Vec<Position> = Vec::new();
        let mut a: usize = 0;
        while a < area
            invariant
                rel_fits(g, self),
                area == g.setup.area_spec(),
                area <= 64,
                forall|i: int|
                    0 <= i < out.len() ==> {
                        &&& (#[trigger] out@[i]).wf(g.setup)
                        &&& contains_spec(g, self, &out@[i])
                        &&& crate::board::distinct_squares(out@[i].sqs@)
                    },
                0 <= a <= area,
                forall|p: Seq<Option<Sq>>|
                    valid_pos(g, p) && #[trigger] holds(g, self, p, self.stm) && (p[g.anchor as int].unwrap() as int) < a ==> exists|i: int|
                        0 <= i < out.len() && out@[i].sqs@ == p,
            decreases area - a,
        {
            proof {
                lemma_bit_test(self.a, a as u64);
            }
            if self.a & (1u64 << a) != 0 {
                let mut sqs: Vec<Option<Sq>> = Vec::new();
                let ghost out0 = out@;
                self.enumerate(g, 0, a as Sq, &mut sqs, &mut out);
                proof {
                    assert forall|p: Seq<Option<Sq>>|
                        valid_pos(g, p) && #[trigger] holds(g, self, p, self.stm) && (p[g.anchor as int].unwrap() as int) < a + 1 implies exists|i: int|
                            0 <= i < out.len() && out@[i].sqs@ == p by {
                        if (p[g.anchor as int].unwrap() as int) < a {
                            let i = choose|i: int| 0 <= i < out0.len() && out0[i].sqs@ == p;
                            assert(out@[i] == out0[i]);
                        } else {
                            assert(p.take(0) =~= Seq::<Option<Sq>>::empty());
                            assert(wanted(g, self, a as int, Seq::empty(), p));
                        }
                    }
                    assert forall|i: int| 0 <= i < out.len() implies {
                        &&& (#[trigger] out@[i]).wf(g.setup)
                        &&& contains_spec(g, self, &out@[i])
                        &&& crate::board::distinct_squares(out@[i].sqs@)
                    } by {
                        if i < out0.len() {
                            assert(out@[i] == out0[i]);
                        } else {
                            let p = out@[i];
                            assert(p.sqs@[g.anchor as int] == Some(a as Sq)) by {
                                assert(slot_placed(g, self, p.sqs@, a as int, g.anchor as int));
                            }
                            assert forall|s: int| 0 <= s < self.off.len() && s != g.anchor implies #[trigger] slot_in(g, self, p.sqs@, a as int, s) by {
                                assert(slot_placed(g, self, p.sqs@, a as int, s));
                            }
                            assert forall|k: int| 0 <= k < p.sqs.len() implies ((#[trigger] p.sqs@[k]) matches Some(q) ==> q < g.setup.area_spec()) by {
                                assert(slot_placed(g, self, p.sqs@, a as int, k));
                            }
                        }
                    }
                }
            } else {
                proof {
                    assert forall|p: Seq<Option<Sq>>|
                        valid_pos(g, p) && #[trigger] holds(g, self, p, self.stm) && (p[g.anchor as int].unwrap() as int) < a + 1 implies exists|i: int|
                            0 <= i < out.len() && out@[i].sqs@ == p by {
                        assert(bit(self.a, p[g.anchor as int].unwrap() as int));
                    }
                }
            }
            a += 1;
        }
        proof {
            assert forall|p: Seq<Option<Sq>>| valid_pos(g, p) && #[trigger] holds(g, self, p, self.stm) implies exists|i: int|
                0 <= i < out.len() && out@[i].sqs@ == p by {
                lemma_pos_squares(g, p, g.anchor as int);
            }
        }
        out
    }

    fn enumerate(&self, g: &Geo, k: usize, a: Sq, sqs: &mut Vec<Option<Sq>>, out: &mut Vec<Position>)
        requires
            rel_fits(g, self),
            (a as int) < g.setup.area_spec(),
            bit(self.a, a as int),
            old(sqs).len() == k,
            k <= self.off.len(),
            forall|j: int| 0 <= j < k ==> #[trigger] slot_placed(g, self, old(sqs)@, a as int, j),
            crate::board::distinct_squares(old(sqs)@),
        ensures
            final(sqs)@ == old(sqs)@,
            final(out).len() >= old(out).len(),
            forall|i: int| 0 <= i < old(out).len() ==> final(out)@[i] == old(out)@[i],
            forall|i: int|
                old(out).len() <= i < final(out).len() ==> {
                    &&& (#[trigger] final(out)@[i]).sqs.len() == self.off.len()
                    &&& final(out)@[i].stm == self.stm
                    &&& forall|j: int| 0 <= j < self.off.len() ==> #[trigger] slot_placed(g, self, final(out)@[i].sqs@, a as int, j)
                    &&& crate::board::distinct_squares(final(out)@[i].sqs@)
                },
            forall|p: Seq<Option<Sq>>| #[trigger] wanted(g, self, a as int, old(sqs)@, p) ==> exists|i: int|
                old(out).len() <= i < final(out).len() && final(out)@[i].sqs@ == p,
        decreases self.off.len() - k,
    {
        let n = self.off.len();
        let ghost pre = sqs@;
        let ghost out_base = out@;
        if k == n {
            let p = Position { sqs: sqs.clone(), stm: self.stm };
            proof {
                assert(p.sqs@ =~= pre);
            }
            out.push(p);
            proof {
                assert forall|x: Seq<Option<Sq>>| #[trigger] wanted(g, self, a as int, pre, x) implies exists|i: int|
                    out_base.len() <= i < out.len() && out@[i].sqs@ == x by {
                    assert(x.take(k as int) =~= x);
                    assert(out@[out_base.len() as int].sqs@ == x);
                }
            }
            return;
        }
        if k as SlotId == g.anchor {
            sqs.push(Some(a));
            proof {
                assert forall|j: int| 0 <= j < k + 1 implies #[trigger] slot_placed(g, self, sqs@, a as int, j) by {
                    if j < k {
                        assert(slot_placed(g, self, pre, a as int, j));
                        assert(sqs@[j] == pre[j]);
                    }
                }
                assert forall|i: int, j: int| 0 <= i < j < sqs@.len() implies (#[trigger] sqs@[i]) is Some ==> sqs@[i] != #[trigger] sqs@[j] by {
                    if j == k as int {
                        assert(slot_placed(g, self, pre, a as int, i));
                    } else {
                        assert(sqs@[i] == pre[i] && sqs@[j] == pre[j]);
                    }
                }
            }
            let ghost next = sqs@;
            self.enumerate(g, k + 1, a, sqs, out);
            sqs.pop();
            proof {
                assert(sqs@ =~= pre);
                assert forall|x: Seq<Option<Sq>>| #[trigger] wanted(g, self, a as int, pre, x) implies exists|i: int|
                    out_base.len() <= i < out.len() && out@[i].sqs@ == x by {
                    assert(x.take(k + 1) =~= x.take(k as int).push(x[k as int]));
                    assert(wanted(g, self, a as int, next, x));
                }
            }
            return;
        }
        let d = self.off[k];
        let it = set_iter(&d.set);
        let mut i: usize = 0;
        while i < it.len()
            invariant
                rel_fits(g, self),
                n == self.off.len(),
                (a as int) < g.setup.area_spec(),
                bit(self.a, a as int),
                k < n,
                k != g.anchor,
                d == self.off@[k as int],
                sqs@ == pre,
                pre.len() == k,
                forall|j: int| 0 <= j < k ==> #[trigger] slot_placed(g, self, pre, a as int, j),
                crate::board::distinct_squares(pre),
                forall|m: int| 0 <= m < it.len() ==> #[trigger] obit(d.set, it@[m] as int),
                out.len() >= old(out).len(),
                forall|m: int| 0 <= m < old(out).len() ==> out@[m] == old(out)@[m],
                forall|m: int|
                    old(out).len() <= m < out.len() ==> {
                        &&& (#[trigger] out@[m]).sqs.len() == self.off.len()
                        &&& out@[m].stm == self.stm
                        &&& forall|j: int| 0 <= j < self.off.len() ==> #[trigger] slot_placed(g, self, out@[m].sqs@, a as int, j)
                        &&& crate::board::distinct_squares(out@[m].sqs@)
                    },
                out_base == old(out)@,
                0 <= i <= it.len(),
                forall|x: int| #[trigger] obit(d.set, x) ==> exists|m: int| 0 <= m < it.len() && it@[m] == x,
                forall|x: Seq<Option<Sq>>, m: int|
                    #![trigger wanted(g, self, a as int, pre, x), it@[m]]
                    wanted(g, self, a as int, pre, x) && 0 <= m < i && x[k as int] is Some && it@[m] == sq_off(
                        g,
                        a as int,
                        x[k as int].unwrap() as int,
                    ) ==> exists|j: int| out_base.len() <= j < out.len() && out@[j].sqs@ == x,
            decreases it.len() - i,
        {
            let o = it[i];
            proof {
                assert(obit(d.set, o as int));
                assert(obit(self.off@[k as int].set, o as int));
                lemma_dxy(g.n as int, o as int);
                lemma_square_coords(g.setup.n, a as int);
            }
            let ghost out_i = out@;
            let at = g.at(a, o);
            if let Some(q) = at {
                if q != a && !occupied(sqs, q) {
                    proof {
                        lemma_coords(g.setup.n, file_of(g.setup.n, a as int) + dx_of(g.n as int, o as int), rank_of(g.setup.n, a as int) + dy_of(g.n as int, o as int));
                        assert(sq_off(g, a as int, q as int) == o);
                    }
                    sqs.push(Some(q));
                    proof {
                        assert forall|j: int| 0 <= j < k + 1 implies #[trigger] slot_placed(g, self, sqs@, a as int, j) by {
                            if j < k {
                                assert(slot_placed(g, self, pre, a as int, j));
                                assert(sqs@[j] == pre[j]);
                            }
                        }
                        assert forall|x: int, y: int| 0 <= x < y < sqs@.len() implies (#[trigger] sqs@[x]) is Some ==> sqs@[x] != #[trigger] sqs@[y] by {
                            if y < k as int {
                                assert(sqs@[x] == pre[x] && sqs@[y] == pre[y]);
                            } else {
                                assert(sqs@[x] == pre[x]);
                            }
                        }
                    }
                    let ghost next = sqs@;
                    self.enumerate(g, k + 1, a, sqs, out);
                    sqs.pop();
                    proof {
                        assert(sqs@ =~= pre);
                        assert forall|x: Seq<Option<Sq>>| #[trigger] wanted(g, self, a as int, pre, x) && x[k as int] == Some(q) implies exists|j: int|
                            out_base.len() <= j < out.len() && out@[j].sqs@ == x by {
                            assert(x.take(k + 1) =~= x.take(k as int).push(x[k as int]));
                            assert(wanted(g, self, a as int, next, x));
                            let j = choose|j: int| out_i.len() <= j < out.len() && out@[j].sqs@ == x;
                        }
                    }
                }
            }
            proof {
                assert forall|x: Seq<Option<Sq>>, m: int|
                    #![trigger wanted(g, self, a as int, pre, x), it@[m]]
                    wanted(g, self, a as int, pre, x) && 0 <= m < i + 1 && x[k as int] is Some && it@[m] == sq_off(
                        g,
                        a as int,
                        x[k as int].unwrap() as int,
                    ) implies exists|j: int| out_base.len() <= j < out.len() && out@[j].sqs@ == x by {
                    if m < i {
                        let j = choose|j: int| out_base.len() <= j < out_i.len() && out_i[j].sqs@ == x;
                        assert(out@[j] == out_i[j]);
                    } else {
                        let qx = x[k as int].unwrap();
                        lemma_pos_squares(g, x, k as int);
                        lemma_sq_off(g, a as int, qx as int);
                        assert(at == Some(qx)) by {
                            assert(o == sq_off(g, a as int, qx as int));
                        }
                        lemma_distinct_pair(x, k as int, g.anchor as int);
                        assert(qx != a);
                        assert forall|t: int| 0 <= t < pre.len() implies pre[t] != Some(qx) by {
                            assert(pre[t] == x[t]);
                            lemma_distinct_pair(x, k as int, t);
                        }
                    }
                }
            }
            i += 1;
        }
        proof {
            assert forall|x: Seq<Option<Sq>>| #[trigger] wanted(g, self, a as int, pre, x) && x[k as int] is Some implies exists|j: int|
                out_base.len() <= j < out.len() && out@[j].sqs@ == x by {
                let qx = x[k as int].unwrap();
                assert(dom_holds(g, d, a as int, x[k as int]));
                let m = choose|m: int| 0 <= m < it.len() && it@[m] == sq_off(g, a as int, qx as int);
                assert(wanted(g, self, a as int, pre, x) && 0 <= m < i && x[k as int] is Some && it@[m] == sq_off(g, a as int, qx as int));
            }
        }
        let ghost out_c = out@;
        if d.cap {
            sqs.push(None);
            proof {
                assert forall|j: int| 0 <= j < k + 1 implies #[trigger] slot_placed(g, self, sqs@, a as int, j) by {
                    if j < k {
                        assert(slot_placed(g, self, pre, a as int, j));
                        assert(sqs@[j] == pre[j]);
                    }
                }
                assert forall|x: int, y: int| 0 <= x < y < sqs@.len() implies (#[trigger] sqs@[x]) is Some ==> sqs@[x] != #[trigger] sqs@[y] by {
                    if y < k as int {
                        assert(sqs@[x] == pre[x] && sqs@[y] == pre[y]);
                    }
                }
            }
            let ghost next = sqs@;
            self.enumerate(g, k + 1, a, sqs, out);
            sqs.pop();
            proof {
                assert(sqs@ =~= pre);
                assert forall|x: Seq<Option<Sq>>| #[trigger] wanted(g, self, a as int, pre, x) && x[k as int] is None implies exists|j: int|
                    out_base.len() <= j < out.len() && out@[j].sqs@ == x by {
                    assert(x.take(k + 1) =~= x.take(k as int).push(x[k as int]));
                    assert(wanted(g, self, a as int, next, x));
                }
                assert forall|x: Seq<Option<Sq>>| #[trigger] wanted(g, self, a as int, pre, x) && x[k as int] is Some implies exists|j: int|
                    out_base.len() <= j < out.len() && out@[j].sqs@ == x by {
                    let j = choose|j: int| out_base.len() <= j < out_c.len() && out_c[j].sqs@ == x;
                    assert(out@[j] == out_c[j]);
                }
            }
        } else {
            proof {
                assert forall|x: Seq<Option<Sq>>| #[trigger] wanted(g, self, a as int, pre, x) && x[k as int] is None implies false by {
                    assert(dom_holds(g, d, a as int, x[k as int]));
                }
            }
        }
    }
}

/// A position of the region with anchor square `a` whose first entries are
/// `pre`.
pub open spec fn wanted(g: &Geo, r: &Rel, a: int, pre: Seq<Option<Sq>>, p: Seq<Option<Sq>>) -> bool {
    &&& valid_pos(g, p)
    &&& holds(g, r, p, r.stm)
    &&& p[g.anchor as int] == Some(a as Sq)
    &&& pre.len() <= p.len()
    &&& p.take(pre.len() as int) == pre
}

/// Some entry of the list is the square `q`.
fn occupied(sqs: &Vec<Option<Sq>>, q: Sq) -> (b: bool)
    ensures
        b == exists|i: int| 0 <= i < sqs.len() && sqs@[i] == Some(q),
{
    let mut i: usize = 0;
    while i < sqs.len()
        invariant
            0 <= i <= sqs.len(),
            forall|j: int| 0 <= j < i ==> sqs@[j] != Some(q),
        decreases sqs.len() - i,
    {
        if sqs[i] == Some(q) {
            return true;
        }
        i += 1;
    }
    false
}

// ---------------------------------------------------------------------
// One position's moves, held against the engine
// ---------------------------------------------------------------------

/// The engine's successors of one position, held against its legal moves.
pub struct Explanation {
    /// Each legal successor, with whether the certificate holds it.
    pub concrete: Vec<(Position, bool)>,
    /// Each position the engine reached, with the engine's verdict.
    pub generated: Vec<(Position, bool)>,
    /// The entries of `generated` (by index) whose verdict no legal
    /// successor confirms.
    pub disagreements: Vec<usize>,
    /// The entries of `concrete` (by index) that the engine did not reach.
    pub missing: Vec<usize>,
}

/// The same squares and the same side to move.
pub open spec fn same_pos(a: Position, b: Position) -> bool {
    a.sqs@ == b.sqs@ && a.stm == b.stm
}

/// The verdict of the first entry at or after `i` that is the position `q`.
pub open spec fn verdict_from(c: Seq<(Position, bool)>, q: Position, i: int) -> Option<bool>
    decreases c.len() - i,
{
    if i < 0 || i >= c.len() {
        None
    } else if same_pos(c[i].0, q) {
        Some(c[i].1)
    } else {
        verdict_from(c, q, i + 1)
    }
}

/// The indices below `n` of the entries of `gen` whose verdict is not the
/// one `conc` gives their position.
pub open spec fn disagreeing(gen: Seq<(Position, bool)>, conc: Seq<(Position, bool)>, n: int) -> Seq<usize>
    decreases n,
{
    if n <= 0 {
        Seq::empty()
    } else if verdict_from(conc, gen[n - 1].0, 0) != Some(gen[n - 1].1) {
        disagreeing(gen, conc, n - 1).push((n - 1) as usize)
    } else {
        disagreeing(gen, conc, n - 1)
    }
}

/// The position occurs among the entries of `c`.
pub open spec fn reached(c: Seq<(Position, bool)>, q: Position) -> bool {
    exists|j: int| 0 <= j < c.len() && same_pos(#[trigger] c[j].0, q)
}

/// The indices below `n` of the entries of `conc` whose position no entry
/// of `gen` holds.
pub open spec fn unmatched(conc: Seq<(Position, bool)>, gen: Seq<(Position, bool)>, n: int) -> Seq<usize>
    decreases n,
{
    if n <= 0 {
        Seq::empty()
    } else if !reached(gen, conc[n - 1].0) {
        unmatched(conc, gen, n - 1).push((n - 1) as usize)
    } else {
        unmatched(conc, gen, n - 1)
    }
}

/// Each legal successor of the position, in the order of its moves, with
/// the certificate's verdict on it.
pub open spec fn successors_are(setup: &Setup, cert: &Cert, roles: Roles, p: &Position, c: Seq<(Position, bool)>) -> bool {
    match legal_moves_spec(setup, position_answers(p.sqs@), p.stm) {
        Ok(ms) => {
            &&& c.len() == ms.len()
            &&& forall|k: int|
                0 <= k < c.len() ==> {
                    &&& (#[trigger] c[k]).0.sqs@ == play_spec(p.sqs@, ms[k])
                    &&& c[k].0.stm == flip_spec(p.stm)
                    &&& c[k].1 == after_safe(setup, cert, roles, p.sqs@, p.stm, ms[k])
                }
        },
        Err(_) => false,
    }
}

/// The two positions are the same.
fn same_position(a: &Position, b: &Position) -> (r: bool)
    ensures
        r == same_pos(*a, *b),
{
    if a.stm != b.stm || a.sqs.len() != b.sqs.len() {
        return false;
    }
    let mut i: usize = 0;
    while i < a.sqs.len()
        invariant
            a.sqs.len() == b.sqs.len(),
            0 <= i <= a.sqs.len(),
            forall|j: int| 0 <= j < i ==> a.sqs@[j] == b.sqs@[j],
        decreases a.sqs.len() - i,
    {
        if a.sqs[i] != b.sqs[i] {
            return false;
        }
        i += 1;
    }
    proof {
        assert(a.sqs@ =~= b.sqs@);
    }
    true
}

/// The verdict of the first entry that is the position `q`.
fn verdict_of(c: &Vec<(Position, bool)>, q: &Position) -> (r: Option<bool>)
    ensures
        r == verdict_from(c@, *q, 0),
{
    let mut i: usize = c.len();
    let mut r: Option<bool> = None;
    while i > 0
        invariant
            0 <= i <= c.len(),
            r == verdict_from(c@, *q, i as int),
        decreases i,
    {
        i -= 1;
        if same_position(&c[i].0, q) {
            r = Some(c[i].1);
        }
    }
    r
}

/// Indices of the entries of `gen` whose verdict `conc` does not confirm.
pub fn disagreeing_entries(gen: &Vec<(Position, bool)>, conc: &Vec<(Position, bool)>) -> (out: Vec<usize>)
    ensures
        out@ == disagreeing(gen@, conc@, gen.len() as int),
{
    let mut out: Vec<usize> = Vec::new();
    let mut i: usize = 0;
    while i < gen.len()
        invariant
            0 <= i <= gen.len(),
            out@ == disagreeing(gen@, conc@, i as int),
        decreases gen.len() - i,
    {
        let v = verdict_of(conc, &gen[i].0);
        if v != Some(gen[i].1) {
            out.push(i);
        }
        i += 1;
    }
    out
}

/// Indices of the entries of `conc` whose position `gen` does not hold.
pub fn unmatched_entries(conc: &Vec<(Position, bool)>, gen: &Vec<(Position, bool)>) -> (out: Vec<usize>)
    ensures
        out@ == unmatched(conc@, gen@, conc.len() as int),
{
    let mut out: Vec<usize> = Vec::new();
    let mut i: usize = 0;
    while i < conc.len()
        invariant
            0 <= i <= conc.len(),
            out@ == unmatched(conc@, gen@, i as int),
        decreases conc.len() - i,
    {
        let mut found = false;
        let mut j: usize = 0;
        while j < gen.len()
            invariant
                0 <= i < conc.len(),
                0 <= j <= gen.len(),
                found == exists|t: int| 0 <= t < j && same_pos(#[trigger] gen@[t].0, conc@[i as int].0),
            decreases gen.len() - j,
        {
            if same_position(&gen[j].0, &conc[i].0) {
                found = true;
            }
            j += 1;
        }
        if !found {
            out.push(i);
        }
        i += 1;
    }
    out
}

/// A copy of the position.
fn copy_position(p: &Position) -> (c: Position)
    ensures
        c.sqs@ == p.sqs@,
        c.stm == p.stm,
{
    let sqs = p.sqs.clone();
    proof {
        assert(sqs@ =~= p.sqs@);
    }
    Position { sqs, stm: p.stm }
}

impl<'a> Engine<'a> {
    /// Each legal successor of `p` with the certificate's verdict, beside
    /// every position the engine reaches from the one-position region of
    /// `p` with the engine's verdict, and where the two lists disagree.
    pub fn explain(&self, p: &Position) -> (e: Explanation)
        requires
            self.wf(),
            rel_vocab(self.cert),
            p.wf(self.g.setup),
            p.sqs@[self.g.anchor as int] is Some,
        ensures
            successors_are(self.g.setup, self.cert, self.roles, p, e.concrete@),
            forall|i: int|
                0 <= i < e.generated.len() ==> (#[trigger] e.generated@[i]).0.wf(self.g.setup) && e.generated@[i].0.stm
                    == flip_spec(p.stm),
            e.disagreements@ == disagreeing(e.generated@, e.concrete@, e.generated.len() as int),
            e.missing@ == unmatched(e.concrete@, e.generated@, e.concrete.len() as int),
    {
        let g = &self.g;
        let setup = g.setup;
        let r = self.single(p);
        let ghost sqs = p.sqs@;
        let ghost stm = p.stm;
        proof {
            lemma_position_fits(setup, p);
            lemma_legal_moves_never_blocks(setup, position_answers(sqs), stm);
            lemma_legal_moves_ok(setup, position_answers(sqs), stm);
        }
        let moves = match legal_moves(setup, p, &mut (), p.stm) {
            Ok(m) => m,
            Err(_) => Vec::new(),
        };
        let ghost ms = moves@;
        let mut concrete: Vec<(Position, bool)> = Vec::new();
        let mut j: usize = 0;
        while j < moves.len()
            invariant
                self.wf(),
                setup == self.g.setup,
                p.wf(setup),
                sqs == p.sqs@,
                stm == p.stm,
                legal_moves_spec(setup, position_answers(sqs), stm) == Ok::<Seq<Move>, Blocked>(ms),
                ms == moves@,
                moves_ok(setup, ms),
                0 <= j <= moves.len(),
                concrete.len() == j,
                forall|k: int|
                    0 <= k < j ==> {
                        &&& (#[trigger] concrete@[k]).0.sqs@ == play_spec(sqs, ms[k])
                        &&& concrete@[k].0.stm == flip_spec(stm)
                        &&& concrete@[k].1 == after_safe(setup, self.cert, self.roles, sqs, stm, ms[k])
                    },
            decreases moves.len() - j,
        {
            let c = p.play(moves[j]);
            proof {
                lemma_played_in_range(setup, sqs, ms[j as int]);
            }
            let ok = safe(setup, self.cert, &c, &self.roles);
            concrete.push((c, ok));
            j += 1;
        }
        let mut generated: Vec<(Position, bool)> = Vec::new();
        let cands = self.candidates(r.stm);
        let mut ci: usize = 0;
        while ci < cands.len()
            invariant
                self.wf(),
                rel_vocab(self.cert),
                g == &self.g,
                rel_fits(&self.g, &r),
                r.stm == p.stm,
                forall|k: int| 0 <= k < cands.len() ==> cand_ok(&self.g, #[trigger] cands@[k]),
                0 <= ci <= cands.len(),
                forall|i: int|
                    0 <= i < generated.len() ==> (#[trigger] generated@[i]).0.wf(self.g.setup) && generated@[i].0.stm
                        == flip_spec(p.stm),
            decreases cands.len() - ci,
        {
            let c = cands[ci];
            let cases = self.can_move(copy_rel(&r), c);
            let mut k: usize = 0;
            while k < cases.len()
                invariant
                    self.wf(),
                    rel_vocab(self.cert),
                    g == &self.g,
                    cand_ok(&self.g, c),
                    r.stm == p.stm,
                    forall|i: int| 0 <= i < cases.len() ==> rel_fits(&self.g, &(#[trigger] cases@[i]).0) && cases@[i].0.stm == p.stm,
                    0 <= k <= cases.len(),
                    forall|i: int|
                        0 <= i < generated.len() ==> (#[trigger] generated@[i]).0.wf(self.g.setup) && generated@[i].0.stm
                            == flip_spec(p.stm),
                decreases cases.len() - k,
            {
                if let Some(capture) = cases[k].1 {
                    let succ = self.play(&cases[k].0, c, capture);
                    let children = self.classify(succ);
                    let mut m: usize = 0;
                    while m < children.len()
                        invariant
                            self.wf(),
                            g == &self.g,
                            forall|i: int|
                                0 <= i < children.len() ==> rel_fits(&self.g, &(#[trigger] children@[i]).0) && children@[i].0.stm
                                    == flip_spec(p.stm),
                            0 <= m <= children.len(),
                            forall|i: int|
                                0 <= i < generated.len() ==> (#[trigger] generated@[i]).0.wf(self.g.setup)
                                    && generated@[i].0.stm == flip_spec(p.stm),
                        decreases children.len() - m,
                    {
                        let ok = children[m].1;
                        let cp = children[m].0.positions(g);
                        let mut t: usize = 0;
                        while t < cp.len()
                            invariant
                                g == &self.g,
                                0 <= m < children.len(),
                                forall|i: int| 0 <= i < cp.len() ==> (#[trigger] cp@[i]).wf(self.g.setup) && cp@[i].stm
                                    == flip_spec(p.stm),
                                0 <= t <= cp.len(),
                                forall|i: int|
                                    0 <= i < generated.len() ==> (#[trigger] generated@[i]).0.wf(self.g.setup)
                                        && generated@[i].0.stm == flip_spec(p.stm),
                            decreases cp.len() - t,
                        {
                            let q = copy_position(&cp[t]);
                            generated.push((q, ok));
                            t += 1;
                        }
                        m += 1;
                    }
                }
                k += 1;
            }
            ci += 1;
        }
        let disagreements = disagreeing_entries(&generated, &concrete);
        let missing = unmatched_entries(&concrete, &generated);
        Explanation { concrete, generated, disagreements, missing }
    }
}

// ---------------------------------------------------------------------
// The certificate check
// ---------------------------------------------------------------------

#[derive(Default, Debug, Clone)]
pub struct RelReport {
    pub legal_positions: usize,
    pub member_leaves: usize,
    pub safe_leaves: usize,
    pub safe_positions: usize,
    pub own_leaves: usize,
    pub own_positions: usize,
    pub opp_leaves: usize,
    pub opp_positions: usize,
    pub violating_positions: usize,
    pub cover_errors: usize,
    pub mismatches: usize,
    pub obligation_mismatches: usize,
    pub cases: u64,
    pub witnesses: u64,
    pub leaf_size_hist: [usize; 4],
}

/// The size bucket of a leaf with `k` positions: 1, 2..=3, 4..=15, 16+.
fn bucket(k: usize) -> (b: usize)
    ensures
        b < 4,
        b == if k <= 1 {
            0usize
        } else if k <= 3 {
            1usize
        } else if k <= 15 {
            2usize
        } else {
            3usize
        },
{
    if k <= 1 {
        0
    } else if k <= 3 {
        1
    } else if k <= 15 {
        2
    } else {
        3
    }
}

/// Check the certificate over anchor-relative regions; `cover` selects the
/// overlapping-cover obligations instead of the disjoint refinement.
pub fn verify(table: &Table, cert: &Cert, protected: Color, cover: bool) -> (rep: RelReport)
    requires
        table.setup.wf(),
        one_rook(table.setup.slots@, Color::White),
        one_rook(table.setup.slots@, Color::Black),
        kings_and_rooks(&table.setup),
        table.vals.len() == size_spec(&table.setup),
        size_spec(&table.setup) <= usize::MAX,
        cert.wf(),
        rel_vocab(cert),
    ensures
        rep.legal_positions == count_upto(table.vals.len() as int, legal_pred(table.vals@)),
{
    let setup = &table.setup;
    let mut eng = Engine::new(setup, cert, protected);
    let mut rep = RelReport {
        legal_positions: 0,
        member_leaves: 0,
        safe_leaves: 0,
        safe_positions: 0,
        own_leaves: 0,
        own_positions: 0,
        opp_leaves: 0,
        opp_positions: 0,
        violating_positions: 0,
        cover_errors: 0,
        mismatches: 0,
        obligation_mismatches: 0,
        cases: 0,
        witnesses: 0,
        leaf_size_hist: [0; 4],
    };
    let n = table.vals.len();
    let mut seen: Vec<u8> = Vec::new();
    let mut z: usize = 0;
    while z < n
        invariant
            0 <= z <= n,
            seen.len() == z,
        decreases n - z,
    {
        seen.push(0);
        z += 1;
    }
    let mut side: usize = 0;
    while side < 2
        invariant
            eng.wf(),
            eng.g.setup == setup,
            eng.cert == cert,
            eng.roles.protected == protected,
            setup == &table.setup,
            table.vals.len() == size_spec(setup),
            size_spec(setup) <= usize::MAX,
            rel_vocab(cert),
            n == table.vals.len(),
            seen.len() == n,
            0 <= side <= 2,
        decreases 2 - side,
    {
        let stm = if side == 0 {
            Color::White
        } else {
            Color::Black
        };
        let root = Rel::root(&eng.g, stm);
        let leaves = eng.classify(root);
        let mut k: usize = 0;
        while k < leaves.len()
            invariant
                eng.wf(),
                eng.g.setup == setup,
                eng.cert == cert,
                eng.roles.protected == protected,
                setup == &table.setup,
                table.vals.len() == size_spec(setup),
                size_spec(setup) <= usize::MAX,
                rel_vocab(cert),
                n == table.vals.len(),
                seen.len() == n,
                forall|i: int| 0 <= i < leaves.len() ==> rel_fits(&eng.g, &(#[trigger] leaves@[i]).0),
            decreases leaves.len() - k,
        {
            let leaf = copy_rel(&leaves[k].0);
            let member = leaves[k].1;
            proof {
                assert(rel_fits(&eng.g, &leaves@[k as int].0));
            }
            let all = leaf.positions(&eng.g);
            let mut ps: Vec<Position> = Vec::new();
            let mut t: usize = 0;
            while t < all.len()
                invariant
                    eng.wf(),
                    eng.g.setup == setup,
                    setup == &table.setup,
                    table.vals.len() == size_spec(setup),
                    size_spec(setup) <= usize::MAX,
                    forall|u: int| 0 <= u < all.len() ==> (#[trigger] all@[u]).wf(setup),
                    forall|u: int| 0 <= u < ps.len() ==> (#[trigger] ps@[u]).wf(setup),
                decreases all.len() - t,
            {
                proof {
                    assert(all@[t as int].wf(setup));
                }
                let i = Table::index(setup, &all[t]);
                if table.vals[i] != Val::Illegal {
                    let sqs = all[t].sqs.clone();
                    proof {
                        assert(sqs@ =~= all@[t as int].sqs@);
                    }
                    ps.push(Position { sqs, stm: all[t].stm });
                }
                t += 1;
            }
            if ps.len() > 0 {
                rep.member_leaves = rep.member_leaves.saturating_add(1);
                let b = bucket(ps.len());
                rep.leaf_size_hist[b] = rep.leaf_size_hist[b].saturating_add(1);
                let mut t: usize = 0;
                while t < ps.len()
                    invariant
                        eng.wf(),
                        eng.g.setup == setup,
                        eng.cert == cert,
                        setup == &table.setup,
                        table.vals.len() == size_spec(setup),
                        size_spec(setup) <= usize::MAX,
                        n == table.vals.len(),
                        seen.len() == n,
                        forall|u: int| 0 <= u < ps.len() ==> (#[trigger] ps@[u]).wf(setup),
                    decreases ps.len() - t,
                {
                    proof {
                        assert(ps@[t as int].wf(setup));
                    }
                    let i = Table::index(setup, &ps[t]);
                    let cur = seen[i];
                    seen.set(i, cur.saturating_add(1));
                    if safe(setup, cert, &ps[t], &eng.roles) != member {
                        rep.mismatches = rep.mismatches.saturating_add(1);
                    }
                    t += 1;
                }
                if member {
                    rep.safe_leaves = rep.safe_leaves.saturating_add(1);
                    rep.safe_positions = rep.safe_positions.saturating_add(ps.len());
                    let own = stm == protected;
                    let mut covered: usize = 0;
                    let legal = eng.legal(leaf);
                    let mut li: usize = 0;
                    while li < legal.len()
                        invariant
                            eng.wf(),
                            eng.g.setup == setup,
                            eng.cert == cert,
                            eng.roles.protected == protected,
                            setup == &table.setup,
                            rel_vocab(cert),
                            forall|i: int| 0 <= i < legal.len() ==> rel_fits(&eng.g, &(#[trigger] legal@[i])),
                        decreases legal.len() - li,
                    {
                        let lr = copy_rel(&legal[li]);
                        proof {
                            assert(rel_fits(&eng.g, &legal@[li as int]));
                        }
                        let parts = if own {
                            if cover {
                                eng.exists_cover(lr)
                            } else {
                                eng.exists_abs(lr)
                            }
                        } else {
                            if cover {
                                eng.all_cover(lr)
                            } else {
                                eng.all_abs(lr)
                            }
                        };
                        let mut pi: usize = 0;
                        while pi < parts.len()
                            invariant
                                eng.wf(),
                                eng.g.setup == setup,
                                eng.cert == cert,
                                eng.roles.protected == protected,
                                setup == &table.setup,
                                rel_vocab(cert),
                                forall|i: int| 0 <= i < parts.len() ==> rel_fits(&eng.g, &(#[trigger] parts@[i]).0),
                            decreases parts.len() - pi,
                        {
                            if own {
                                rep.own_leaves = rep.own_leaves.saturating_add(1);
                            } else {
                                rep.opp_leaves = rep.opp_leaves.saturating_add(1);
                            }
                            proof {
                                assert(rel_fits(&eng.g, &parts@[pi as int].0));
                            }
                            let ok = parts[pi].1;
                            let pps = parts[pi].0.positions(&eng.g);
                            covered = covered.saturating_add(pps.len());
                            if !ok {
                                rep.violating_positions = rep.violating_positions.saturating_add(pps.len());
                            }
                            let mut q: usize = 0;
                            while q < pps.len()
                                invariant
                                    eng.wf(),
                                    eng.g.setup == setup,
                                    eng.cert == cert,
                                    forall|u: int| 0 <= u < pps.len() ==> (#[trigger] pps@[u]).wf(setup),
                                decreases pps.len() - q,
                            {
                                proof {
                                    assert(pps@[q as int].wf(setup));
                                }
                                if concrete_obligation(setup, cert, &pps[q], &eng.roles) != ok {
                                    rep.obligation_mismatches = rep.obligation_mismatches.saturating_add(1);
                                }
                                q += 1;
                            }
                            pi += 1;
                        }
                        li += 1;
                    }
                    if own {
                        rep.own_positions = rep.own_positions.saturating_add(covered);
                    } else {
                        rep.opp_positions = rep.opp_positions.saturating_add(covered);
                    }
                    if covered != ps.len() {
                        rep.cover_errors = rep.cover_errors.saturating_add(1);
                    }
                }
            }
            k += 1;
        }
        side += 1;
    }
    let mut legal_positions: usize = 0;
    let mut i: usize = 0;
    while i < n
        invariant
            n == table.vals.len(),
            seen.len() == n,
            0 <= i <= n,
            legal_positions == count_upto(i as int, legal_pred(table.vals@)),
            legal_positions <= i,
        decreases n - i,
    {
        if table.vals[i] != Val::Illegal {
            legal_positions += 1;
            if seen[i] != 1 {
                rep.cover_errors = rep.cover_errors.saturating_add(1);
            }
        }
        i += 1;
    }
    rep.legal_positions = legal_positions;
    rep.cases = eng.cases;
    rep.witnesses = eng.witnesses;
    rep
}

// ---------------------------------------------------------------------
// Positions of a region
// ---------------------------------------------------------------------

/// A position of the setup: one entry per slot, squares on the board, no
/// square shared.
pub open spec fn valid_pos(g: &Geo, p: Seq<Option<Sq>>) -> bool {
    &&& p.len() == g.setup.slots.len()
    &&& forall|k: int| 0 <= k < p.len() ==> (#[trigger] p[k] matches Some(q) ==> q < g.setup.area_spec())
    &&& crate::board::distinct_squares(p)
    &&& forall|k: int| 0 <= k < p.len() && g.setup.kind_spec(k) == Kind::King ==> (#[trigger] p[k]) is Some
}

/// The region with these fields holds the position `p` with side `ps` to
/// move: the anchor stands on an anchor square, and every other slot as its
/// domain allows.
pub open spec fn holds_in(g: &Geo, a: u64, offs: Seq<OffDom>, stm: Color, p: Seq<Option<Sq>>, ps: Color) -> bool {
    &&& ps == stm
    &&& p[g.anchor as int] is Some
    &&& bit(a, p[g.anchor as int].unwrap() as int)
    &&& forall|s: int| 0 <= s < offs.len() && s != g.anchor ==> #[trigger] dom_holds(g, offs[s], p[g.anchor as int].unwrap() as int, p[s])
}

/// The region holds the position.
pub open spec fn holds(g: &Geo, r: &Rel, p: Seq<Option<Sq>>, ps: Color) -> bool {
    holds_in(g, r.a, r.off@, r.stm, p, ps)
}

proof fn lemma_pos_squares(g: &Geo, p: Seq<Option<Sq>>, k: int)
    requires
        valid_pos(g, p),
        0 <= k < p.len(),
    ensures
        p[k] matches Some(q) ==> q < g.setup.area_spec(),
{
}

proof fn lemma_distinct_pair(p: Seq<Option<Sq>>, i: int, j: int)
    requires
        crate::board::distinct_squares(p),
        0 <= i < p.len(),
        0 <= j < p.len(),
        i != j,
        p[i] is Some,
    ensures
        p[i] != p[j],
{
    if i < j {
        assert(p[i] != p[j]);
    } else {
        assert(p[j] is Some ==> p[j] != p[i]);
    }
}

/// The offset between two squares is a grid offset, and it leads from the
/// first square to the second.
pub proof fn lemma_sq_off(g: &Geo, a: int, q: int)
    requires
        g.wf(),
        0 <= a < g.setup.area_spec(),
        0 <= q < g.setup.area_spec(),
    ensures
        valid_off(g.n as int, sq_off(g, a, q)),
        dx_of(g.n as int, sq_off(g, a, q)) == file_of(g.setup.n, q) - file_of(g.setup.n, a),
        dy_of(g.n as int, sq_off(g, a, q)) == rank_of(g.setup.n, q) - rank_of(g.setup.n, a),
        on_board_at(g, a, sq_off(g, a, q)),
        sq_spec(
            g.setup.n,
            file_of(g.setup.n, a) + dx_of(g.n as int, sq_off(g, a, q)),
            rank_of(g.setup.n, a) + dy_of(g.n as int, sq_off(g, a, q)),
        ) == Some(q as Sq),
{
    let n = g.setup.n;
    lemma_square_coords(n, a);
    lemma_square_coords(n, q);
    lemma_off(g.n as int, file_of(n, q) - file_of(n, a), rank_of(n, q) - rank_of(n, a));
    lemma_coords(n, file_of(n, q), rank_of(n, q));
}

/// From one square, different squares lie at different offsets.
pub proof fn lemma_sq_off_inj(g: &Geo, a: int, q1: int, q2: int)
    requires
        g.wf(),
        0 <= a < g.setup.area_spec(),
        0 <= q1 < g.setup.area_spec(),
        0 <= q2 < g.setup.area_spec(),
        sq_off(g, a, q1) == sq_off(g, a, q2),
    ensures
        q1 == q2,
{
    lemma_sq_off(g, a, q1);
    lemma_sq_off(g, a, q2);
    lemma_square_coords(g.setup.n, q1);
    lemma_square_coords(g.setup.n, q2);
}

/// Offset zero from a square leads to that square only.
proof fn lemma_sq_off_zero(g: &Geo, a: int, q: int)
    requires
        g.wf(),
        0 <= a < g.setup.area_spec(),
        0 <= q < g.setup.area_spec(),
        sq_off(g, a, q) == off_spec(g.n as int, 0, 0),
    ensures
        q == a,
{
    assert(sq_off(g, a, a) == off_spec(g.n as int, 0, 0));
    lemma_sq_off_inj(g, a, q, a);
}

/// Replacing one non-anchor domain by one that still allows the position's
/// entry keeps the position.
proof fn lemma_update_holds(g: &Geo, a: u64, offs: Seq<OffDom>, stm: Color, t: int, d: OffDom, p: Seq<Option<Sq>>, ps: Color)
    requires
        holds_in(g, a, offs, stm, p, ps),
        0 <= t < offs.len(),
        t != g.anchor,
        dom_holds(g, d, p[g.anchor as int].unwrap() as int, p[t]),
    ensures
        holds_in(g, a, offs.update(t, d), stm, p, ps),
{
    let o2 = offs.update(t, d);
    assert forall|s: int| 0 <= s < o2.len() && s != g.anchor implies #[trigger] dom_holds(g, o2[s], p[g.anchor as int].unwrap() as int, p[s]) by {
        if s != t {
            assert(dom_holds(g, offs[s], p[g.anchor as int].unwrap() as int, p[s]));
        }
    }
}

/// What lies within a region holds only positions the region holds.
pub proof fn lemma_within_holds(g: &Geo, a1: u64, o1: Seq<OffDom>, a2: u64, o2: Seq<OffDom>, stm: Color, p: Seq<Option<Sq>>, ps: Color)
    requires
        rel_within(a1, o1, a2, o2),
        holds_in(g, a1, o1, stm, p, ps),
    ensures
        holds_in(g, a2, o2, stm, p, ps),
{
    assert forall|s: int| 0 <= s < o2.len() && s != g.anchor implies #[trigger] dom_holds(g, o2[s], p[g.anchor as int].unwrap() as int, p[s]) by {
        assert(dom_holds(g, o1[s], p[g.anchor as int].unwrap() as int, p[s]));
        if p[s] is Some {
            assert(obit(o1[s].set, sq_off(g, p[g.anchor as int].unwrap() as int, p[s].unwrap() as int)));
        }
    }
}

/// Replacing a non-anchor domain by a smaller one keeps exactly the
/// positions whose entry the new domain allows.
proof fn lemma_update_iff(g: &Geo, a: u64, offs: Seq<OffDom>, stm: Color, t: int, d: OffDom, p: Seq<Option<Sq>>, ps: Color)
    requires
        0 <= t < offs.len(),
        t != g.anchor,
        dom_le(d, offs[t]),
    ensures
        holds_in(g, a, offs.update(t, d), stm, p, ps) == (holds_in(g, a, offs, stm, p, ps) && dom_holds(
            g,
            d,
            p[g.anchor as int].unwrap() as int,
            p[t],
        )),
{
    let o2 = offs.update(t, d);
    let a0 = p[g.anchor as int].unwrap() as int;
    if holds_in(g, a, o2, stm, p, ps) {
        assert(dom_holds(g, o2[t], a0, p[t]));
        assert forall|s: int| 0 <= s < offs.len() && s != g.anchor implies #[trigger] dom_holds(g, offs[s], a0, p[s]) by {
            assert(dom_holds(g, o2[s], a0, p[s]));
            if s == t && p[t] is Some {
                assert(obit(d.set, sq_off(g, a0, p[t].unwrap() as int)));
            }
        }
    }
    if holds_in(g, a, offs, stm, p, ps) && dom_holds(g, d, a0, p[t]) {
        lemma_update_holds(g, a, offs, stm, t, d, p, ps);
    }
}

/// What a domain allows for an entry: an offset, or (`None`) capture.
pub open spec fn dom_allows(d: OffDom, v: Option<int>) -> bool {
    match v {
        Some(x) => obit(d.set, x),
        None => d.cap,
    }
}

/// The entry of a position at a slot, relative to the anchor square `a`.
pub open spec fn entry_off(g: &Geo, a: int, e: Option<Sq>) -> Option<int> {
    match e {
        Some(q) => Some(sq_off(g, a, q as int)),
        None => None,
    }
}

/// The domains divide domain `d`: each lies inside it, and every entry it
/// allows (for a king, every offset) is allowed by exactly one of them.
pub open spec fn dom_split(d: OffDom, doms: Seq<OffDom>, king: bool) -> bool {
    &&& forall|i: int| 0 <= i < doms.len() ==> #[trigger] dom_le(doms[i], d)
    &&& forall|v: Option<int>| dom_allows(d, v) && !(king && v is None) ==> exists|i: int| 0 <= i < doms.len() && #[trigger] dom_allows(doms[i], v)
    &&& forall|v: Option<int>, i: int, j: int| 0 <= i < j < doms.len() ==> !(#[trigger] dom_allows(doms[i], v) && #[trigger] dom_allows(doms[j], v))
}

/// The parts hold exactly the positions the region holds, each in one part.
pub open spec fn partition(g: &Geo, v: Seq<Rel>, r: &Rel) -> bool {
    &&& forall|p: Seq<Option<Sq>>, ps: Color, i: int|
        0 <= i < v.len() && valid_pos(g, p) && #[trigger] holds(g, &v[i], p, ps) ==> holds(g, r, p, ps)
    &&& forall|p: Seq<Option<Sq>>, ps: Color|
        valid_pos(g, p) && #[trigger] holds(g, r, p, ps) ==> exists|i: int| 0 <= i < v.len() && #[trigger] holds(g, &v[i], p, ps)
    &&& forall|p: Seq<Option<Sq>>, ps: Color, i: int, j: int|
        0 <= i < j < v.len() && valid_pos(g, p) && #[trigger] holds(g, &v[i], p, ps) && #[trigger] holds(g, &v[j], p, ps) ==> false
}

/// A region inside another holds only positions the other holds.
pub proof fn lemma_le_holds(g: &Geo, c: &Rel, r: &Rel, p: Seq<Option<Sq>>, ps: Color)
    requires
        rel_le(c, r),
        holds(g, c, p, ps),
    ensures
        holds(g, r, p, ps),
{
    let a0 = p[g.anchor as int].unwrap() as int;
    assert forall|s: int| 0 <= s < r.off.len() && s != g.anchor implies #[trigger] dom_holds(g, r.off@[s], a0, p[s]) by {
        assert(dom_le(c.off@[s], r.off@[s]));
        assert(dom_holds(g, c.off@[s], a0, p[s]));
        if p[s] is Some {
            assert(obit(c.off@[s].set, sq_off(g, a0, p[s].unwrap() as int)));
        }
    }
}

/// The regions of a list of parts.
pub open spec fn firsts<T>(v: Seq<(Rel, T)>) -> Seq<Rel> {
    Seq::new(v.len(), |i: int| v[i].0)
}

/// Disjoint parts, each inside `r`.
pub open spec fn subparts(g: &Geo, v: Seq<Rel>, r: &Rel) -> bool {
    &&& forall|p: Seq<Option<Sq>>, ps: Color, i: int|
        0 <= i < v.len() && valid_pos(g, p) && #[trigger] holds(g, &v[i], p, ps) ==> holds(g, r, p, ps)
    &&& forall|p: Seq<Option<Sq>>, ps: Color, i: int, j: int|
        0 <= i < j < v.len() && valid_pos(g, p) && #[trigger] holds(g, &v[i], p, ps) && #[trigger] holds(g, &v[j], p, ps) ==> false
}

/// The list partitions the first `i` children: every position it holds is
/// in one of them, every position of one of them is held, and no position
/// twice.
pub open spec fn covers_prefix(g: &Geo, acc: Seq<Rel>, children: Seq<Rel>, i: int) -> bool {
    &&& forall|p: Seq<Option<Sq>>, ps: Color, k: int|
        0 <= k < acc.len() && valid_pos(g, p) && #[trigger] holds(g, &acc[k], p, ps) ==> exists|j: int|
            0 <= j < i && #[trigger] holds(g, &children[j], p, ps)
    &&& forall|p: Seq<Option<Sq>>, ps: Color, j: int|
        0 <= j < i && valid_pos(g, p) && #[trigger] holds(g, &children[j], p, ps) ==> exists|k: int|
            0 <= k < acc.len() && #[trigger] holds(g, &acc[k], p, ps)
    &&& forall|p: Seq<Option<Sq>>, ps: Color, k: int, l: int|
        0 <= k < l < acc.len() && valid_pos(g, p) && #[trigger] holds(g, &acc[k], p, ps) && #[trigger] holds(g, &acc[l], p, ps) ==> false
}

/// The list holds disjoint parts of the first `i` children.
pub open spec fn sub_prefix(g: &Geo, acc: Seq<Rel>, children: Seq<Rel>, i: int) -> bool {
    &&& forall|p: Seq<Option<Sq>>, ps: Color, k: int|
        0 <= k < acc.len() && valid_pos(g, p) && #[trigger] holds(g, &acc[k], p, ps) ==> exists|j: int|
            0 <= j < i && #[trigger] holds(g, &children[j], p, ps)
    &&& forall|p: Seq<Option<Sq>>, ps: Color, k: int, l: int|
        0 <= k < l < acc.len() && valid_pos(g, p) && #[trigger] holds(g, &acc[k], p, ps) && #[trigger] holds(g, &acc[l], p, ps) ==> false
}

/// A region is partitioned by itself alone.
proof fn lemma_partition_single(g: &Geo, v: Seq<Rel>, r: &Rel)
    requires
        v.len() == 1,
        v[0] == *r,
    ensures
        partition(g, v, r),
        subparts(g, v, r),
{
    assert forall|p: Seq<Option<Sq>>, ps: Color| valid_pos(g, p) && #[trigger] holds(g, r, p, ps) implies exists|i: int|
        0 <= i < v.len() && #[trigger] holds(g, &v[i], p, ps) by {
        assert(holds(g, &v[0], p, ps));
    }
}

/// Partitions of a region are partitions of a region with the same fields.
proof fn lemma_partition_same(g: &Geo, v: Seq<Rel>, c: &Rel, d: &Rel)
    requires
        partition(g, v, c),
        c.a == d.a,
        c.off@ == d.off@,
        c.stm == d.stm,
    ensures
        partition(g, v, d),
{
    assert forall|p: Seq<Option<Sq>>, ps: Color| #[trigger] holds(g, d, p, ps) == holds(g, c, p, ps) by {}
}

proof fn lemma_subparts_same(g: &Geo, v: Seq<Rel>, c: &Rel, d: &Rel)
    requires
        subparts(g, v, c),
        c.a == d.a,
        c.off@ == d.off@,
        c.stm == d.stm,
    ensures
        subparts(g, v, d),
{
    assert forall|p: Seq<Option<Sq>>, ps: Color| #[trigger] holds(g, d, p, ps) == holds(g, c, p, ps) by {}
}

/// Appending a partition of the next child extends a partition of the
/// children before it.
proof fn lemma_concat_step(g: &Geo, children: Seq<Rel>, i: int, acc: Seq<Rel>, sub: Seq<Rel>)
    requires
        0 <= i < children.len(),
        forall|p: Seq<Option<Sq>>, ps: Color, k: int, l: int|
            0 <= k < l < children.len() && valid_pos(g, p) && #[trigger] holds(g, &children[k], p, ps) && #[trigger] holds(
                g,
                &children[l],
                p,
                ps,
            ) ==> false,
        covers_prefix(g, acc, children, i),
        partition(g, sub, &children[i]),
    ensures
        covers_prefix(g, acc + sub, children, i + 1),
{
    let all = acc + sub;
    assert forall|p: Seq<Option<Sq>>, ps: Color, k: int|
        0 <= k < all.len() && valid_pos(g, p) && #[trigger] holds(g, &all[k], p, ps) implies exists|j: int|
            0 <= j < i + 1 && #[trigger] holds(g, &children[j], p, ps) by {
        if k < acc.len() {
            assert(holds(g, &acc[k], p, ps));
            let j = choose|j: int| 0 <= j < i && #[trigger] holds(g, &children[j], p, ps);
        } else {
            assert(all[k] == sub[k - acc.len()]);
            assert(holds(g, &children[i], p, ps));
        }
    }
    assert forall|p: Seq<Option<Sq>>, ps: Color, j: int|
        0 <= j < i + 1 && valid_pos(g, p) && #[trigger] holds(g, &children[j], p, ps) implies exists|k: int|
            0 <= k < all.len() && #[trigger] holds(g, &all[k], p, ps) by {
        if j < i {
            let k = choose|k: int| 0 <= k < acc.len() && #[trigger] holds(g, &acc[k], p, ps);
            assert(all[k] == acc[k]);
        } else {
            let k = choose|k: int| 0 <= k < sub.len() && #[trigger] holds(g, &sub[k], p, ps);
            assert(all[acc.len() + k] == sub[k]);
        }
    }
    assert forall|p: Seq<Option<Sq>>, ps: Color, k: int, l: int|
        0 <= k < l < all.len() && valid_pos(g, p) && #[trigger] holds(g, &all[k], p, ps) && #[trigger] holds(g, &all[l], p, ps) implies false by {
        if l < acc.len() {
            assert(all[k] == acc[k] && all[l] == acc[l]);
        } else if k >= acc.len() {
            assert(all[k] == sub[k - acc.len()] && all[l] == sub[l - acc.len()]);
        } else {
            assert(all[k] == acc[k] && all[l] == sub[l - acc.len()]);
            assert(holds(g, &children[i], p, ps));
            let j = choose|j: int| 0 <= j < i && #[trigger] holds(g, &children[j], p, ps);
            assert(holds(g, &children[j], p, ps) && holds(g, &children[i], p, ps));
        }
    }
}

/// A list that partitions all the children of a partition of `r`
/// partitions `r`.
proof fn lemma_concat_done(g: &Geo, children: Seq<Rel>, acc: Seq<Rel>, r: &Rel)
    requires
        partition(g, children, r),
        covers_prefix(g, acc, children, children.len() as int),
    ensures
        partition(g, acc, r),
        subparts(g, acc, r),
{
    assert forall|p: Seq<Option<Sq>>, ps: Color, k: int|
        0 <= k < acc.len() && valid_pos(g, p) && #[trigger] holds(g, &acc[k], p, ps) implies holds(g, r, p, ps) by {
        let j = choose|j: int| 0 <= j < children.len() && #[trigger] holds(g, &children[j], p, ps);
    }
    assert forall|p: Seq<Option<Sq>>, ps: Color| valid_pos(g, p) && #[trigger] holds(g, r, p, ps) implies exists|k: int|
        0 <= k < acc.len() && #[trigger] holds(g, &acc[k], p, ps) by {
        let j = choose|j: int| 0 <= j < children.len() && #[trigger] holds(g, &children[j], p, ps);
    }
}

proof fn lemma_sub_step(g: &Geo, children: Seq<Rel>, i: int, acc: Seq<Rel>, sub: Seq<Rel>)
    requires
        0 <= i < children.len(),
        forall|p: Seq<Option<Sq>>, ps: Color, k: int, l: int|
            0 <= k < l < children.len() && valid_pos(g, p) && #[trigger] holds(g, &children[k], p, ps) && #[trigger] holds(
                g,
                &children[l],
                p,
                ps,
            ) ==> false,
        sub_prefix(g, acc, children, i),
        subparts(g, sub, &children[i]),
    ensures
        sub_prefix(g, acc + sub, children, i + 1),
{
    let all = acc + sub;
    assert forall|p: Seq<Option<Sq>>, ps: Color, k: int|
        0 <= k < all.len() && valid_pos(g, p) && #[trigger] holds(g, &all[k], p, ps) implies exists|j: int|
            0 <= j < i + 1 && #[trigger] holds(g, &children[j], p, ps) by {
        if k < acc.len() {
            assert(holds(g, &acc[k], p, ps));
            let j = choose|j: int| 0 <= j < i && #[trigger] holds(g, &children[j], p, ps);
        } else {
            assert(all[k] == sub[k - acc.len()]);
            assert(holds(g, &children[i], p, ps));
        }
    }
    assert forall|p: Seq<Option<Sq>>, ps: Color, k: int, l: int|
        0 <= k < l < all.len() && valid_pos(g, p) && #[trigger] holds(g, &all[k], p, ps) && #[trigger] holds(g, &all[l], p, ps) implies false by {
        if l < acc.len() {
            assert(all[k] == acc[k] && all[l] == acc[l]);
        } else if k >= acc.len() {
            assert(all[k] == sub[k - acc.len()] && all[l] == sub[l - acc.len()]);
        } else {
            assert(all[k] == acc[k] && all[l] == sub[l - acc.len()]);
            assert(holds(g, &children[i], p, ps));
            let j = choose|j: int| 0 <= j < i && #[trigger] holds(g, &children[j], p, ps);
            assert(holds(g, &children[j], p, ps) && holds(g, &children[i], p, ps));
        }
    }
}

proof fn lemma_sub_done(g: &Geo, children: Seq<Rel>, acc: Seq<Rel>, r: &Rel)
    requires
        partition(g, children, r),
        sub_prefix(g, acc, children, children.len() as int),
    ensures
        subparts(g, acc, r),
{
    assert forall|p: Seq<Option<Sq>>, ps: Color, k: int|
        0 <= k < acc.len() && valid_pos(g, p) && #[trigger] holds(g, &acc[k], p, ps) implies holds(g, r, p, ps) by {
        let j = choose|j: int| 0 <= j < children.len() && #[trigger] holds(g, &children[j], p, ps);
    }
}

} // verus!
